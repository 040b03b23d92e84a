//! Command-line options.
pub mod pod_helper;
