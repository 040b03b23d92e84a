//! The library's error type.
use vstd::prelude::*;

verus! {

/// Why an operation of the library failed.
#[derive(Debug)]
pub enum PodError {
    /// The MD5 digest of a pod name had an unexpected size.
    MD5,
    /// The podfile.lock could not be read as expected.
    PodfileLock,
    /// Any other failure, with its description.
    Other(&'static str),
}

/// The library's result type.
pub type Result<T> = core::result::Result<T, PodError>;

} // verus!
