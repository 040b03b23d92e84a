//! Helpers for CocoaPods projects: reading the pods that a `Podfile.lock`
//! pins, locating their entries in the CocoaPods CDN index, and reporting
//! which of them have newer versions.
pub mod cmds;
pub mod common;
pub mod error;
pub mod opts;
pub mod pod_http_client;
pub mod text;
pub mod utils;
