//! System calls.
pub mod fs;
