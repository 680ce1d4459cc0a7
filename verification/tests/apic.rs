use dusk::arch::apic::{check_apic_base, LocalApic, LocalApicAccess, LocalApicError, LOCAL_APIC_VIRTUAL_ADDRESS};
use dusk::arch::paging::{CpuFeatures, PagingConfig};
use dusk::memory::address_space::AddressSpace;
use dusk::memory::{
    DirectMap, FrameAllocator, KernelMemoryLayout, KernelSegment, MemoryRegion, MemoryRegionKind, PagePermissions,
    PhysicalAddr, PhysicalMemory, VirtualAddr,
};

const APIC: u64 = 0xfee0_0000;
const ENABLE: u64 = 0x800;
const BSP: u64 = 0x100;
const X2: u64 = 0x400;

fn kernel_space() -> (PhysicalMemory, FrameAllocator, AddressSpace) {
    let config = PagingConfig::from_features(CpuFeatures {
        nx_supported: true,
        nx_enabled: true,
        global_pages: true,
        physical_address_bits: 40,
        virtual_address_bits: 48,
        five_level_paging_active: false,
    });
    let regions = vec![
        MemoryRegion { start: PhysicalAddr(0), length: 96 * 4096, kind: MemoryRegionKind::Usable },
        MemoryRegion { start: PhysicalAddr(96 * 4096), length: 8 * 4096, kind: MemoryRegionKind::KernelAndModules },
    ];
    let base = 0xffff_ffff_8000_0000u64;
    let segment = |page: u64, offset: u64, pages: u64, perms: PagePermissions| KernelSegment {
        physical_base: PhysicalAddr(page * 4096),
        virtual_base: VirtualAddr(base + offset * 4096),
        length: pages * 4096,
        permissions: perms,
    };
    let layout = KernelMemoryLayout {
        segments: [
            segment(96, 0, 3, PagePermissions::new(false, true, false)),
            segment(99, 3, 2, PagePermissions::new(false, false, false)),
            segment(101, 5, 3, PagePermissions::new(true, false, false)),
        ],
    };
    let mut mem = PhysicalMemory::new(104);
    let dm = DirectMap::new(0xffff_8000_0000_0000);
    let mut allocator = FrameAllocator::new(&regions, dm).unwrap();
    let space = AddressSpace::new_kernel(dm, &regions, &layout, config, &mut allocator, &mut mem).unwrap();
    (mem, allocator, space)
}

#[test]
fn apic_base_checks_address_enable_and_bsp() {
    let addr = PhysicalAddr(APIC);
    assert_eq!(check_apic_base(APIC | ENABLE | BSP, addr), Ok(LocalApicAccess::XApic));
    assert_eq!(check_apic_base(APIC | ENABLE | BSP | X2, addr), Ok(LocalApicAccess::X2Apic));
    assert_eq!(check_apic_base(0xfec0_0000 | ENABLE | BSP, addr), Err(LocalApicError::AddressMismatch));
    assert_eq!(check_apic_base(APIC | BSP, addr), Err(LocalApicError::ApicDisabled));
    assert_eq!(check_apic_base(APIC | ENABLE, addr), Err(LocalApicError::NotBootSystemProcessor));
}

#[test]
fn apic_id_is_the_top_byte_in_xapic_mode() {
    let apic = LocalApic::from_id_register(LocalApicAccess::XApic, 0x0300_0000);
    assert_eq!(apic.id(), 3);
    assert_eq!(apic.access(), LocalApicAccess::XApic);
    let apic = LocalApic::from_id_register(LocalApicAccess::X2Apic, 0x0300_0007);
    assert_eq!(apic.id(), 0x0300_0007);
}

#[test]
fn apic_init_maps_registers_in_xapic_mode() {
    let (mut mem, mut allocator, mut space) = kernel_space();
    let r = LocalApic::init(PhysicalAddr(APIC), APIC | ENABLE | BSP, &mut mem, &mut allocator, &mut space);
    assert_eq!(r, Ok(LocalApicAccess::XApic));
    let mapping = space.mapping(&mem, VirtualAddr(LOCAL_APIC_VIRTUAL_ADDRESS)).unwrap();
    assert_eq!(mapping.physical, PhysicalAddr(APIC));
    assert!(mapping.permissions.writable && !mapping.permissions.executable && !mapping.permissions.user_accessible);
}

#[test]
fn apic_init_maps_nothing_in_x2apic_mode() {
    let (mut mem, mut allocator, mut space) = kernel_space();
    let r = LocalApic::init(PhysicalAddr(APIC), APIC | ENABLE | BSP | X2, &mut mem, &mut allocator, &mut space);
    assert_eq!(r, Ok(LocalApicAccess::X2Apic));
    assert!(space.to_physical(&mem, VirtualAddr(LOCAL_APIC_VIRTUAL_ADDRESS)).is_none());
}

#[test]
fn apic_init_refuses_a_disabled_apic() {
    let (mut mem, mut allocator, mut space) = kernel_space();
    let r = LocalApic::init(PhysicalAddr(APIC), APIC | BSP, &mut mem, &mut allocator, &mut space);
    assert_eq!(r, Err(LocalApicError::ApicDisabled));
}
