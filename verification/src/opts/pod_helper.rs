//! The options of the `pod_helper` command.
use vstd::prelude::*;

verus! {

/// The `pod_helper` command line.
#[derive(Debug, PartialEq)]
pub struct Opt {
    /// The sub command.
    pub command: Command,
}

/// A sub command of `pod_helper`.
#[allow(non_camel_case_types)]
#[derive(Debug, PartialEq)]
pub enum Command {
    /// Check which pods of a `Podfile.lock` have newer versions.
    Check { opt: CheckOpts },
}

/// The options of `pod_helper check`.
#[derive(Debug, PartialEq)]
pub struct CheckOpts {
    /// The path of the `Podfile.lock`.
    pub file_path: String,
    /// How many index requests may run at once.
    pub request_concurrent: usize,
    /// The connect timeout, in seconds.
    pub connect_timeout: u64,
    /// The request timeout, in seconds.
    pub request_timeout: u64,
    /// Whether pods without a newer version are listed too.
    pub show_no_update: bool,
}

} // verus!
