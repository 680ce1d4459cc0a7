//! The Dusk microkernel's core logic: physical memory and frame allocation,
//! x86-64 page tables and address spaces, the boot-time inputs (the
//! bootloader's responses, ELF, CPIO newc, ACPI tables), the interrupt and
//! timer hardware's programming, the scheduler's run queue, the per-thread
//! kernel objects and the system calls.

pub mod arch;
pub mod boot;
pub mod debug;
pub mod format;
pub mod memory;
pub mod platform;
pub mod syscall;
pub mod task;
