use dusk::arch::controller::{controller_local_apic_address, io_apic_and_pit_route, InterruptInitError};
use dusk::memory::{DirectMap, PhysicalAddr, PhysicalMemory};
use dusk::platform::acpi::{AcpiError, AcpiTables, InterruptPolarity, IsaIrqRoute, RootTable, TriggerMode};

fn put(mem: &mut PhysicalMemory, at: u64, bytes: &[u8]) {
    for (i, b) in bytes.iter().enumerate() {
        mem.write_u8(at + i as u64, *b);
    }
}

fn fix_checksum(mem: &mut PhysicalMemory, start: u64, len: u64, at: u64) {
    mem.write_u8(at, 0);
    let mut sum: u8 = 0;
    for i in 0..len {
        sum = sum.wrapping_add(mem.read_u8(start + i));
    }
    mem.write_u8(at, 0u8.wrapping_sub(sum));
}

fn header(mem: &mut PhysicalMemory, at: u64, sig: &[u8; 4], len: u32) {
    put(mem, at, sig);
    put(mem, at + 4, &len.to_le_bytes());
    put(mem, at + 8, &[1]);
}

/// An RSDP (revision 0) at 0x1000, an RSDT at 0x2000 with one entry, and a
/// MADT at 0x3000 with an I/O APIC (id 2 at 0xFEC00000, interrupts from 0)
/// and an override that sends ISA interrupt 0 to interrupt 2, active low,
/// level-triggered.
fn tables() -> PhysicalMemory {
    let mut mem = PhysicalMemory::new(8);
    put(&mut mem, 0x1000, b"RSD PTR ");
    put(&mut mem, 0x1000 + 16, &0x2000u32.to_le_bytes());
    fix_checksum(&mut mem, 0x1000, 20, 0x1000 + 8);
    header(&mut mem, 0x2000, b"RSDT", 40);
    put(&mut mem, 0x2000 + 36, &0x3000u32.to_le_bytes());
    fix_checksum(&mut mem, 0x2000, 40, 0x2000 + 9);
    let madt_len = 44 + 12 + 10;
    header(&mut mem, 0x3000, b"APIC", madt_len);
    put(&mut mem, 0x3000 + 36, &0xFEE0_0000u32.to_le_bytes());
    put(&mut mem, 0x3000 + 40, &1u32.to_le_bytes());
    let e = 0x3000 + 44;
    put(&mut mem, e, &[1, 12, 2, 0]);
    put(&mut mem, e + 4, &0xFEC0_0000u32.to_le_bytes());
    put(&mut mem, e + 8, &0u32.to_le_bytes());
    let o = e + 12;
    put(&mut mem, o, &[2, 10, 0, 0]);
    put(&mut mem, o + 4, &2u32.to_le_bytes());
    put(&mut mem, o + 8, &0x000Fu16.to_le_bytes());
    fix_checksum(&mut mem, 0x3000, madt_len as u64, 0x3000 + 9);
    mem
}

#[test]
fn the_root_pointer_leads_to_the_root_table() {
    let mem = tables();
    let acpi = AcpiTables::from_rsdp(&mem, PhysicalAddr(0x1000), DirectMap::new(0)).unwrap();
    match acpi.root {
        RootTable::Rsdt(s) => {
            assert_eq!(s.physical_addr, PhysicalAddr(0x2000));
            assert_eq!(s.length, 40);
        },
        RootTable::Xsdt(_) => panic!("revision 0 has an RSDT"),
    }
}

#[test]
fn a_bad_checksum_or_signature_is_refused() {
    let mut mem = tables();
    mem.write_u8(0x1000 + 8, mem.read_u8(0x1000 + 8).wrapping_add(1));
    assert_eq!(AcpiTables::from_rsdp(&mem, PhysicalAddr(0x1000), DirectMap::new(0)).err(), Some(AcpiError::MalformedAcpiTable));
    let mem = tables();
    assert_eq!(AcpiTables::from_rsdp(&mem, PhysicalAddr(0x1800), DirectMap::new(0)).err(), Some(AcpiError::MalformedAcpiTable));
    assert_eq!(AcpiTables::from_rsdp(&mem, PhysicalAddr(0x10_0000), DirectMap::new(0)).err(), Some(AcpiError::AddressOverflow));
}

#[test]
fn find_table_looks_up_a_signature() {
    let mem = tables();
    let acpi = AcpiTables::from_rsdp(&mem, PhysicalAddr(0x1000), DirectMap::new(0)).unwrap();
    let madt = acpi.find_table(&mem, *b"APIC").unwrap().unwrap();
    assert_eq!(madt.physical_addr, PhysicalAddr(0x3000));
    assert!(acpi.find_table(&mem, *b"HPET").unwrap().is_none());
}

#[test]
fn the_madt_gives_the_io_apic_and_the_isa_routes() {
    let mem = tables();
    let acpi = AcpiTables::from_rsdp(&mem, PhysicalAddr(0x1000), DirectMap::new(0)).unwrap();
    let madt = acpi.madt(&mem).unwrap().unwrap();
    assert_eq!(madt.local_apic_address, PhysicalAddr(0xFEE0_0000));
    assert_eq!(madt.effective_local_apic_address(&mem), Ok(PhysicalAddr(0xFEE0_0000)));
    let io = madt.sole_io_apic(&mem).unwrap();
    assert_eq!(io.id, 2);
    assert_eq!(io.apic_address, PhysicalAddr(0xFEC0_0000));
    assert_eq!(io.global_system_interrupt_base, 0);
    assert_eq!(
        madt.isa_irq_route(&mem, 0),
        Ok(IsaIrqRoute { gsi: 2, polarity: InterruptPolarity::ActiveLow, trigger: TriggerMode::Level })
    );
    assert_eq!(
        madt.isa_irq_route(&mem, 1),
        Ok(IsaIrqRoute { gsi: 1, polarity: InterruptPolarity::ActiveHigh, trigger: TriggerMode::Edge })
    );
    assert_eq!(madt.collect_entries(&mem).unwrap().len(), 2);
}

#[test]
fn the_controller_steps_read_the_madt_in_order() {
    let mem = tables();
    let acpi = AcpiTables::from_rsdp(&mem, PhysicalAddr(0x1000), DirectMap::new(0)).unwrap();
    let madt = acpi.madt(&mem).unwrap().unwrap();
    assert_eq!(controller_local_apic_address(&madt, &mem), Ok(PhysicalAddr(0xFEE0_0000)));
    let (io, route) = io_apic_and_pit_route(&madt, &mem).unwrap();
    assert_eq!(io.id, 2);
    assert_eq!(route, IsaIrqRoute { gsi: 2, polarity: InterruptPolarity::ActiveLow, trigger: TriggerMode::Level });
}

#[test]
fn the_controller_needs_an_io_apic() {
    let mut mem = tables();
    // Turn the I/O APIC entry into an unknown entry type.
    mem.write_u8(0x3000 + 44, 0x7f);
    fix_checksum(&mut mem, 0x3000, 66, 0x3000 + 9);
    let acpi = AcpiTables::from_rsdp(&mem, PhysicalAddr(0x1000), DirectMap::new(0)).unwrap();
    let madt = acpi.madt(&mem).unwrap().unwrap();
    assert_eq!(io_apic_and_pit_route(&madt, &mem).err(), Some(InterruptInitError::FailedToGetIoApic));
}
