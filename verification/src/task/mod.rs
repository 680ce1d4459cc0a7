//! Threads: their control blocks, kernel objects and the scheduler's
//! decisions.

pub mod loader;
pub mod scheduler;
pub mod tcb;
