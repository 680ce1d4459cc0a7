//! x86-64 specifics: page tables, the processor's features, the descriptor
//! tables, interrupt dispatch, the interrupt controllers' registers and
//! bring-up, and the timer's calibration.

pub mod apic;
pub mod context;
pub mod controller;
pub mod cpu;
pub mod gdt;
pub mod interrupts;
pub mod io_apic;
pub mod paging;
pub mod timer;
