//! The sub commands.
pub mod check;
