use dusk::arch::io_apic::{IoApic, IoApicError, MASKED, RedirectionConfig, RedirectionUpdate, masked, redirection_entry, unmasked};
use dusk::memory::VirtualAddr;
use dusk::platform::acpi::{InterruptPolarity, TriggerMode};

fn apic() -> IoApic {
    IoApic::from_registers(VirtualAddr(0xFFFF_FFFD_1000_0000), 16, 0x0017_0020, 0x0200_0000, 2).unwrap()
}

#[test]
fn from_registers_reads_the_entry_count_and_checks_the_id() {
    let a = apic();
    assert_eq!(a.redirection_entry_count, 24);
    assert_eq!(a.global_interrupt_base, 16);
    let r = IoApic::from_registers(VirtualAddr(0), 0, 0x0017_0020, 0x0300_0000, 2);
    assert_eq!(r, Err(IoApicError::IdMismatch { expected: 2, actual: 3 }));
}

#[test]
fn handles_gsi_covers_the_apics_range_only() {
    let a = apic();
    assert!(!a.handles_gsi(15));
    assert!(a.handles_gsi(16));
    assert!(a.handles_gsi(39));
    assert!(!a.handles_gsi(40));
}

#[test]
fn redirection_registers_are_two_per_entry() {
    let a = apic();
    assert_eq!(a.redirection_index(17), Ok(1));
    assert_eq!(a.redirection_registers(17), Ok((0x12, 0x13)));
    assert_eq!(a.redirection_registers(16), Ok((0x10, 0x11)));
    assert_eq!(a.redirection_registers(2), Err(IoApicError::GsiOutsideRange));
    let big = IoApic { base: VirtualAddr(0), global_interrupt_base: 0, redirection_entry_count: 256 };
    assert_eq!(big.redirection_registers(0x77), Ok((0xfe, 0xff)));
    assert_eq!(big.redirection_registers(0x78), Err(IoApicError::InvalidRedirectionIndex));
}

#[test]
fn redirection_entry_encodes_vector_polarity_trigger_and_destination() {
    let c = RedirectionConfig { vector: 0x30, destination: 1, polarity: InterruptPolarity::ActiveLow, trigger: TriggerMode::Level };
    assert_eq!(redirection_entry(c), 0x0100_0000_0001_a030);
    let e = RedirectionConfig { vector: 0x21, destination: 0, polarity: InterruptPolarity::ActiveHigh, trigger: TriggerMode::Edge };
    assert_eq!(redirection_entry(e), 0x1_0021);
    let a = apic();
    assert_eq!(
        a.configure_masked(18, c, 0x0000_0021),
        Ok(RedirectionUpdate { masked_current_low: 0x1_0021, low_register: 0x14, high_register: 0x15, high: 0x0100_0000, low: 0x1_a030 })
    );
    assert_eq!(a.configure_masked(0, c, 0), Err(IoApicError::GsiOutsideRange));
}

#[test]
fn masking_sets_and_clears_bit_16() {
    assert_eq!(masked(0x30), 0x1_0030);
    assert_eq!(unmasked(0x1_0030), 0x30);
    assert_eq!(MASKED, 0x1_0000);
}

#[test]
fn mask_and_unmask_flip_only_the_mask_bit_of_the_entrys_low_register() {
    let a = apic();
    assert_eq!(a.mask(18, 0x0000_a021), Ok((0x14, 0x0001_a021)));
    assert_eq!(a.unmask(18, 0x0001_a021), Ok((0x14, 0x0000_a021)));
    assert_eq!(a.unmask(16, 0x0000_0030), Ok((0x10, 0x0000_0030)));
    assert_eq!(a.mask(40, 0), Err(IoApicError::GsiOutsideRange));
    assert_eq!(a.unmask(3, 0), Err(IoApicError::GsiOutsideRange));
}
