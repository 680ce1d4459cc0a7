//! Firmware tables of the platform.

pub mod acpi;
