use dusk::boot::limine::{load_boot_info, BootError, KernelAddress, KernelSections, MemmapEntry};
use dusk::memory::{MemoryRegionKind, PhysicalAddr, VirtualAddr};

const KERNEL_VIRTUAL: u64 = 0xffff_ffff_8000_0000;

fn sections() -> KernelSections {
    KernelSections {
        text_start: KERNEL_VIRTUAL,
        text_end: KERNEL_VIRTUAL + 0x3000,
        rodata_start: KERNEL_VIRTUAL + 0x3000,
        rodata_end: KERNEL_VIRTUAL + 0x5000,
        data_start: KERNEL_VIRTUAL + 0x5000,
        data_end: KERNEL_VIRTUAL + 0x8000,
    }
}

fn kernel() -> Option<KernelAddress> {
    Some(KernelAddress { physical_base: 0x20_0000, virtual_base: KERNEL_VIRTUAL })
}

fn memmap() -> Option<Vec<MemmapEntry>> {
    Some(vec![
        MemmapEntry { base: 0, length: 0x9f000, entry_type: 0 },
        MemmapEntry { base: 0x20_0000, length: 0x8000, entry_type: 6 },
        MemmapEntry { base: 0xfee0_0000, length: 0x1000, entry_type: 1 },
        MemmapEntry { base: 0x1000_0000, length: 0x1000, entry_type: 42 },
    ])
}

#[test]
fn boot_info_places_the_three_kernel_segments() {
    let info = load_boot_info(true, kernel(), Some(0xffff_8000_0000_0000), memmap(), sections()).unwrap();
    assert_eq!(info.hhdm_offset, 0xffff_8000_0000_0000);
    let [text, rodata, data] = &info.kernel_layout.segments;
    assert_eq!(text.physical_base, PhysicalAddr(0x20_0000));
    assert_eq!(text.virtual_base, VirtualAddr(KERNEL_VIRTUAL));
    assert_eq!(text.length, 0x3000);
    assert!(text.permissions.executable && !text.permissions.writable);
    assert_eq!(rodata.physical_base, PhysicalAddr(0x20_3000));
    assert_eq!(rodata.length, 0x2000);
    assert!(!rodata.permissions.executable && !rodata.permissions.writable);
    assert_eq!(data.physical_base, PhysicalAddr(0x20_5000));
    assert_eq!(data.length, 0x3000);
    assert!(data.permissions.writable && !data.permissions.executable);
    assert!(!data.permissions.user_accessible);
}

#[test]
fn boot_info_reads_memory_map_kinds_in_order() {
    let info = load_boot_info(true, kernel(), Some(0), memmap(), sections()).unwrap();
    let regions = info.memory_regions();
    assert_eq!(regions.len(), 4);
    assert_eq!(regions[0].kind, MemoryRegionKind::Usable);
    assert_eq!(regions[0].length, 0x9f000);
    assert_eq!(regions[1].kind, MemoryRegionKind::KernelAndModules);
    assert_eq!(regions[1].start, PhysicalAddr(0x20_0000));
    assert_eq!(regions[2].kind, MemoryRegionKind::Reserved);
    assert_eq!(regions[3].kind, MemoryRegionKind::Reserved);
}

#[test]
fn boot_info_refuses_an_unsupported_revision_first() {
    let r = load_boot_info(false, None, None, None, sections());
    assert_eq!(r.err(), Some(BootError::UnsupportedBaseRevision));
}

#[test]
fn boot_info_names_the_first_missing_response() {
    assert_eq!(load_boot_info(true, None, None, None, sections()).err(), Some(BootError::FailedToGetKernelAddress));
    assert_eq!(load_boot_info(true, kernel(), None, None, sections()).err(), Some(BootError::FailedToGetHHDMAddress));
    assert_eq!(load_boot_info(true, kernel(), Some(0), None, sections()).err(), Some(BootError::FailedToGetMemmap));
}
