//! The kernel's debug output.

pub mod serial;
