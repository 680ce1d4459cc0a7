//! What the kernel learns from its bootloader.

pub mod limine;
