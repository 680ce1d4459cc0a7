use dusk::arch::paging::{CpuFeatures, PagingConfig};
use dusk::memory::address_space::{
    AddressSpace, AddressSpaceCreateError, AddressSpaceId, AddressSpaceKind, AddressSpaceTable, MapError, UnmapError,
};
use dusk::memory::user::{copy_from_user, copy_to_user, copy_val_to_user, validate_user_range};
use dusk::syscall::Status;
use dusk::memory::{
    CachePolicy, DirectMap, FrameAddr, FrameAllocator, KernelMemoryLayout, KernelSegment, MemoryRegion, MemoryRegionKind,
    PagePermissions, PhysicalAddr, PhysicalMemory, VirtualAddr,
};

const HHDM: u64 = 0xffff_8000_0000_0000;
const KERNEL_BASE: u64 = 0xffff_ffff_8000_0000;

fn config() -> PagingConfig {
    PagingConfig::from_features(CpuFeatures {
        nx_supported: true,
        nx_enabled: true,
        global_pages: true,
        physical_address_bits: 40,
        virtual_address_bits: 48,
        five_level_paging_active: false,
    })
}

fn regions() -> Vec<MemoryRegion> {
    vec![
        MemoryRegion { start: PhysicalAddr(0), length: 96 * 4096, kind: MemoryRegionKind::Usable },
        MemoryRegion { start: PhysicalAddr(96 * 4096), length: 8 * 4096, kind: MemoryRegionKind::KernelAndModules },
    ]
}

fn layout() -> KernelMemoryLayout {
    KernelMemoryLayout {
        segments: [
            KernelSegment {
                physical_base: PhysicalAddr(96 * 4096),
                virtual_base: VirtualAddr(KERNEL_BASE),
                length: 3 * 4096,
                permissions: PagePermissions::new(false, true, false),
            },
            KernelSegment {
                physical_base: PhysicalAddr(99 * 4096),
                virtual_base: VirtualAddr(KERNEL_BASE + 3 * 4096),
                length: 2 * 4096,
                permissions: PagePermissions::new(false, false, false),
            },
            KernelSegment {
                physical_base: PhysicalAddr(101 * 4096),
                virtual_base: VirtualAddr(KERNEL_BASE + 5 * 4096),
                length: 3 * 4096,
                permissions: PagePermissions::new(true, false, false),
            },
        ],
    }
}

fn boot() -> (PhysicalMemory, FrameAllocator, AddressSpace) {
    let mut mem = PhysicalMemory::new(104);
    let dm = DirectMap::new(HHDM);
    let regions = regions();
    let mut allocator = match FrameAllocator::new(&regions, dm) {
        Ok(a) => a,
        Err(e) => panic!("allocator: {:?}", e),
    };
    let space = AddressSpace::new_kernel(dm, &regions, &layout(), config(), &mut allocator, &mut mem).unwrap();
    (mem, allocator, space)
}

fn user_rw() -> PagePermissions {
    PagePermissions::new(true, false, true)
}

#[test]
fn kernel_space_direct_maps_usable_memory() {
    let (mem, _allocator, space) = boot();
    assert_eq!(space.to_physical(&mem, VirtualAddr(HHDM + 0x5123)), Some(PhysicalAddr(0x5123)));
    assert_eq!(space.to_physical(&mem, VirtualAddr(HHDM + 95 * 4096)), Some(PhysicalAddr(95 * 4096)));
    // The kernel image is left out of the direct map.
    assert_eq!(space.to_physical(&mem, VirtualAddr(HHDM + 96 * 4096)), None);
}

#[test]
fn kernel_space_maps_the_kernel_segments() {
    let (mem, _allocator, space) = boot();
    assert_eq!(space.to_physical(&mem, VirtualAddr(KERNEL_BASE + 0x1234)), Some(PhysicalAddr(96 * 4096 + 0x1234)));
    assert_eq!(space.to_physical(&mem, VirtualAddr(KERNEL_BASE + 4 * 4096)), Some(PhysicalAddr(100 * 4096)));
    assert_eq!(space.to_physical(&mem, VirtualAddr(KERNEL_BASE + 7 * 4096 + 8)), Some(PhysicalAddr(103 * 4096 + 8)));
    assert_eq!(space.to_physical(&mem, VirtualAddr(KERNEL_BASE + 8 * 4096)), None);
}

#[test]
fn new_kernel_refuses_a_region_outside_the_direct_map() {
    let mut mem = PhysicalMemory::new(104);
    let dm = DirectMap::new(HHDM);
    let mut regions = regions();
    regions.push(MemoryRegion { start: PhysicalAddr(0x0000_8000_0000_0000), length: 4096, kind: MemoryRegionKind::Framebuffer });
    let mut allocator = match FrameAllocator::new(&regions, dm) {
        Ok(a) => a,
        Err(e) => panic!("allocator: {:?}", e),
    };
    let r = AddressSpace::new_kernel(dm, &regions, &layout(), config(), &mut allocator, &mut mem);
    assert!(matches!(r, Err(AddressSpaceCreateError::AddressOutsideDirectMap)));
}

#[test]
fn user_space_maps_and_translates_a_page() {
    let (mut mem, mut allocator, kernel) = boot();
    let mut user = kernel.new_user(&mut mem, &mut allocator).unwrap();
    user.map(&mut mem, PhysicalAddr(0x7000), VirtualAddr(0x40_0000), user_rw(), &mut allocator, CachePolicy::WriteBack).unwrap();
    assert_eq!(user.to_physical(&mem, VirtualAddr(0x40_0010)), Some(PhysicalAddr(0x7010)));
    // The kernel half is shared with the kernel's space.
    assert_eq!(user.to_physical(&mem, VirtualAddr(HHDM + 0x5000)), Some(PhysicalAddr(0x5000)));
    // The kernel's own space does not see the user page.
    assert_eq!(kernel.to_physical(&mem, VirtualAddr(0x40_0000)), None);
}

#[test]
fn user_space_refuses_kernel_addresses_and_kernel_pages() {
    let (mut mem, mut allocator, kernel) = boot();
    let mut user = kernel.new_user(&mut mem, &mut allocator).unwrap();
    let r = user.map(&mut mem, PhysicalAddr(0x7000), VirtualAddr(HHDM), user_rw(), &mut allocator, CachePolicy::WriteBack);
    assert_eq!(r, Err(MapError::InvalidUserAddress));
    let r = user.map(
        &mut mem,
        PhysicalAddr(0x7000),
        VirtualAddr(0x40_0000),
        PagePermissions::new(true, false, false),
        &mut allocator,
        CachePolicy::WriteBack,
    );
    assert_eq!(r, Err(MapError::InvalidUserMap));
    let r = user.map(&mut mem, PhysicalAddr(0x7001), VirtualAddr(0x40_0000), user_rw(), &mut allocator, CachePolicy::WriteBack);
    assert_eq!(r, Err(MapError::PhysicalAddressUnaligned));
    let r = user.map(&mut mem, PhysicalAddr(0x7000), VirtualAddr(0x40_0008), user_rw(), &mut allocator, CachePolicy::WriteBack);
    assert_eq!(r, Err(MapError::VirtualAddressUnaligned));
}

#[test]
fn mapping_a_mapped_page_again_is_refused() {
    let (mut mem, mut allocator, kernel) = boot();
    let mut user = kernel.new_user(&mut mem, &mut allocator).unwrap();
    user.map(&mut mem, PhysicalAddr(0x7000), VirtualAddr(0x40_0000), user_rw(), &mut allocator, CachePolicy::WriteBack).unwrap();
    let r = user.map(&mut mem, PhysicalAddr(0x8000), VirtualAddr(0x40_0000), user_rw(), &mut allocator, CachePolicy::WriteBack);
    assert_eq!(r, Err(MapError::AlreadyMapped));
    assert_eq!(user.to_physical(&mem, VirtualAddr(0x40_0000)), Some(PhysicalAddr(0x7000)));
}

#[test]
fn unmap_returns_the_mapped_frame_and_forgets_the_page() {
    let (mut mem, mut allocator, kernel) = boot();
    let mut user = kernel.new_user(&mut mem, &mut allocator).unwrap();
    user.map(&mut mem, PhysicalAddr(0x7000), VirtualAddr(0x40_0000), user_rw(), &mut allocator, CachePolicy::WriteBack).unwrap();
    user.map(&mut mem, PhysicalAddr(0x9000), VirtualAddr(0x40_1000), user_rw(), &mut allocator, CachePolicy::WriteBack).unwrap();
    let f = user.unmap(&mut mem, VirtualAddr(0x40_0000), &mut allocator).unwrap();
    assert_eq!(f, FrameAddr(PhysicalAddr(0x7000)));
    assert_eq!(user.to_physical(&mem, VirtualAddr(0x40_0000)), None);
    // The other page is untouched.
    assert_eq!(user.to_physical(&mem, VirtualAddr(0x40_1000)), Some(PhysicalAddr(0x9000)));
    assert_eq!(user.unmap(&mut mem, VirtualAddr(0x40_0000), &mut allocator), Err(UnmapError::NotMapped));
    assert_eq!(user.unmap(&mut mem, VirtualAddr(HHDM), &mut allocator), Err(UnmapError::InvalidUserAddress));
}

#[test]
fn map_range_maps_every_page_and_checks_its_arguments() {
    let (mut mem, mut allocator, kernel) = boot();
    let mut user = kernel.new_user(&mut mem, &mut allocator).unwrap();
    user.map_range(&mut mem, PhysicalAddr(0x10000), VirtualAddr(0x4000_0000), 3 * 4096, user_rw(), &mut allocator, CachePolicy::WriteBack)
        .unwrap();
    for k in 0..3u64 {
        assert_eq!(user.to_physical(&mem, VirtualAddr(0x4000_0000 + k * 4096 + 5)), Some(PhysicalAddr(0x10000 + k * 4096 + 5)));
    }
    let w = CachePolicy::WriteBack;
    assert_eq!(user.map_range(&mut mem, PhysicalAddr(0x1), VirtualAddr(0x5000_0000), 4096, user_rw(), &mut allocator, w), Err(
        MapError::PhysicalAddressUnaligned,
    ));
    assert_eq!(user.map_range(&mut mem, PhysicalAddr(0x1000), VirtualAddr(0x5000_0001), 4096, user_rw(), &mut allocator, w), Err(
        MapError::VirtualAddressUnaligned,
    ));
    assert_eq!(user.map_range(&mut mem, PhysicalAddr(0x1000), VirtualAddr(0x5000_0000), 100, user_rw(), &mut allocator, w), Err(
        MapError::RangeLengthUnaligned,
    ));
    assert_eq!(
        user.map_range(&mut mem, PhysicalAddr(u64::MAX - 4095), VirtualAddr(0x5000_0000), 2 * 4096, user_rw(), &mut allocator, w),
        Err(MapError::AddressOverflow)
    );
    assert_eq!(user.map_range(&mut mem, PhysicalAddr(0x1000), VirtualAddr(0x5000_0000), 0, user_rw(), &mut allocator, w), Ok(()));
}

#[test]
fn map_range_undoes_its_pages_when_one_fails() {
    let (mut mem, mut allocator, kernel) = boot();
    let mut user = kernel.new_user(&mut mem, &mut allocator).unwrap();
    let w = CachePolicy::WriteBack;
    user.map(&mut mem, PhysicalAddr(0x7000), VirtualAddr(0x4000_2000), user_rw(), &mut allocator, w).unwrap();
    let r = user.map_range(&mut mem, PhysicalAddr(0x10000), VirtualAddr(0x4000_0000), 4 * 4096, user_rw(), &mut allocator, w);
    assert_eq!(r, Err(MapError::AlreadyMapped));
    assert_eq!(user.to_physical(&mem, VirtualAddr(0x4000_0000)), None);
    assert_eq!(user.to_physical(&mem, VirtualAddr(0x4000_1000)), None);
    // The page that was there before stays.
    assert_eq!(user.to_physical(&mem, VirtualAddr(0x4000_2000)), Some(PhysicalAddr(0x7000)));
}

#[test]
fn to_virtual_goes_through_the_direct_map() {
    let (_mem, _allocator, kernel) = boot();
    assert_eq!(kernel.to_virtual(PhysicalAddr(0x1234)), Some(VirtualAddr(HHDM + 0x1234)));
    assert_eq!(kernel.to_virtual(PhysicalAddr(u64::MAX)), None);
}

#[test]
fn destroying_a_user_space_frees_its_tables() {
    let (mut mem, mut allocator, kernel) = boot();
    let mut user = kernel.new_user(&mut mem, &mut allocator).unwrap();
    user.map(&mut mem, PhysicalAddr(0x7000), VirtualAddr(0x40_0000), user_rw(), &mut allocator, CachePolicy::WriteBack).unwrap();
    user.destroy(&mut mem, &mut allocator);
    // The kernel's space still works.
    assert_eq!(kernel.to_physical(&mem, VirtualAddr(HHDM + 0x5000)), Some(PhysicalAddr(0x5000)));
    let _ = AddressSpaceKind::User;
}

#[test]
fn mapping_reports_the_rights_of_the_page() {
    let (mut mem, mut allocator, kernel) = boot();
    let mut user = kernel.new_user(&mut mem, &mut allocator).unwrap();
    user.map(&mut mem, PhysicalAddr(0x7000), VirtualAddr(0x40_0000), user_rw(), &mut allocator, CachePolicy::WriteBack).unwrap();
    let m = user.mapping(&mem, VirtualAddr(0x40_0008)).unwrap();
    assert_eq!(m.physical, PhysicalAddr(0x7008));
    assert_eq!(m.permissions, PagePermissions::new(true, false, true));
    let k = kernel.mapping(&mem, VirtualAddr(KERNEL_BASE)).unwrap();
    assert_eq!(k.permissions, PagePermissions::new(false, true, false));
    assert!(user.mapping(&mem, VirtualAddr(0x40_1000)).is_none());
}

#[test]
fn user_ranges_must_be_mapped_user_pages() {
    let (mut mem, mut allocator, kernel) = boot();
    let mut user = kernel.new_user(&mut mem, &mut allocator).unwrap();
    let w = CachePolicy::WriteBack;
    user.map(&mut mem, PhysicalAddr(0x7000), VirtualAddr(0x40_0000), user_rw(), &mut allocator, w).unwrap();
    user.map(&mut mem, PhysicalAddr(0x8000), VirtualAddr(0x40_1000), PagePermissions::new(false, false, true), &mut allocator, w).unwrap();
    let mut spaces = AddressSpaceTable::new();
    let id = spaces.insert(user).ok().unwrap();
    assert_eq!(id, AddressSpaceId(0));
    assert_eq!(validate_user_range(&spaces, &mem, id, VirtualAddr(0x40_0ff0), 0x20, false), Ok(()));
    assert_eq!(validate_user_range(&spaces, &mem, id, VirtualAddr(0x40_0ff0), 0x20, true), Err(Status::BadAddress));
    assert_eq!(validate_user_range(&spaces, &mem, id, VirtualAddr(0x40_0000), 0x1000, true), Ok(()));
    assert_eq!(validate_user_range(&spaces, &mem, id, VirtualAddr(0x40_1ff0), 0x20, false), Err(Status::BadAddress));
    assert_eq!(validate_user_range(&spaces, &mem, id, VirtualAddr(0x7fff_ffff_fff0), 0x20, false), Err(Status::BadAddress));
    assert_eq!(validate_user_range(&spaces, &mem, id, VirtualAddr(HHDM), 0, false), Err(Status::BadAddress));
    assert_eq!(validate_user_range(&spaces, &mem, id, VirtualAddr(0x9000_0000), 0, true), Ok(()));
    assert_eq!(validate_user_range(&spaces, &mem, AddressSpaceId(3), VirtualAddr(0x40_0000), 8, false), Err(Status::BadAddress));
}

#[test]
fn user_bytes_are_read_across_pages_through_the_page_tables() {
    let (mut mem, mut allocator, kernel) = boot();
    let mut user = kernel.new_user(&mut mem, &mut allocator).unwrap();
    let w = CachePolicy::WriteBack;
    // Two user pages whose frames are not adjacent and in reverse order.
    user.map(&mut mem, PhysicalAddr(0x50000), VirtualAddr(0x40_0000), user_rw(), &mut allocator, w).unwrap();
    user.map(&mut mem, PhysicalAddr(0x48000), VirtualAddr(0x40_1000), PagePermissions::new(false, false, true), &mut allocator, w).unwrap();
    mem.write_u8(0x50ffe, b'a');
    mem.write_u8(0x50fff, b'b');
    mem.write_u8(0x48000, b'c');
    mem.write_u8(0x48001, b'd');
    let mut spaces = AddressSpaceTable::new();
    let id = spaces.insert(user).ok().unwrap();
    assert_eq!(copy_from_user(&spaces, &mem, id, VirtualAddr(0x40_0ffe), 4), Ok(b"abcd".to_vec()));
    assert_eq!(copy_from_user(&spaces, &mem, id, VirtualAddr(0x40_1ffe), 4), Err(Status::BadAddress));
    assert_eq!(copy_from_user(&spaces, &mem, id, VirtualAddr(KERNEL_BASE), 4), Err(Status::BadAddress));
    assert_eq!(copy_from_user(&spaces, &mem, AddressSpaceId(5), VirtualAddr(0x40_0000), 4), Err(Status::BadAddress));
    assert_eq!(copy_from_user(&spaces, &mem, id, VirtualAddr(0x50_0000), 0), Ok(Vec::new()));
}

#[test]
fn user_bytes_are_written_through_the_page_tables() {
    let (mut mem, mut allocator, kernel) = boot();
    let mut user = kernel.new_user(&mut mem, &mut allocator).unwrap();
    let w = CachePolicy::WriteBack;
    user.map(&mut mem, PhysicalAddr(0x50000), VirtualAddr(0x40_0000), user_rw(), &mut allocator, w).unwrap();
    user.map(&mut mem, PhysicalAddr(0x48000), VirtualAddr(0x40_1000), user_rw(), &mut allocator, w).unwrap();
    user.map(&mut mem, PhysicalAddr(0x4a000), VirtualAddr(0x40_2000), PagePermissions::new(false, false, true), &mut allocator, w).unwrap();
    let mut spaces = AddressSpaceTable::new();
    let id = spaces.insert(user).ok().unwrap();
    assert_eq!(copy_to_user(&spaces, &mut mem, id, VirtualAddr(0x40_0ffe), b"wxyz"), Ok(()));
    assert_eq!(mem.read_u8(0x50ffe), b'w');
    assert_eq!(mem.read_u8(0x50fff), b'x');
    assert_eq!(mem.read_u8(0x48000), b'y');
    assert_eq!(mem.read_u8(0x48001), b'z');
    assert_eq!(copy_from_user(&spaces, &mem, id, VirtualAddr(0x40_0ffe), 4), Ok(b"wxyz".to_vec()));
    // A read-only page refuses the write and nothing is written.
    assert_eq!(copy_to_user(&spaces, &mut mem, id, VirtualAddr(0x40_1fff), b"ab"), Err(Status::BadAddress));
    assert_eq!(mem.read_u8(0x48fff), 0);
    assert_eq!(copy_val_to_user(&spaces, &mut mem, id, VirtualAddr(0x40_0008), 0x0102_0304_0506_0708), Ok(()));
    assert_eq!(copy_from_user(&spaces, &mem, id, VirtualAddr(0x40_0008), 8), Ok(vec![8, 7, 6, 5, 4, 3, 2, 1]));
    assert_eq!(copy_val_to_user(&spaces, &mut mem, id, VirtualAddr(0x40_0004), 1), Err(Status::InvalidArgument));
    assert_eq!(copy_val_to_user(&spaces, &mut mem, id, VirtualAddr(0x40_2000), 1), Err(Status::BadAddress));
}

#[test]
fn every_address_of_a_mapped_page_keeps_its_offset() {
    let (mut mem, mut allocator, kernel) = boot();
    let mut user = kernel.new_user(&mut mem, &mut allocator).unwrap();
    user.map(&mut mem, PhysicalAddr(0x50000), VirtualAddr(0x40_0000), user_rw(), &mut allocator, CachePolicy::WriteBack).unwrap();
    for o in [0u64, 1, 8, 0x800, 0xfff] {
        assert_eq!(user.to_physical(&mem, VirtualAddr(0x40_0000 + o)), Some(PhysicalAddr(0x50000 + o)));
    }
    assert_eq!(user.to_physical(&mem, VirtualAddr(0x40_1000)), None);
}

fn free_count(allocator: &mut FrameAllocator) -> usize {
    let mut n = 0;
    while allocator.alloc_nozero().is_some() {
        n += 1;
    }
    n
}

#[test]
fn unmapping_the_only_page_of_new_tables_frees_them() {
    let (mut mem, mut allocator, kernel) = boot();
    let _user = kernel.new_user(&mut mem, &mut allocator).unwrap();
    let untouched = free_count(&mut allocator);

    let (mut mem, mut allocator, kernel) = boot();
    let mut user = kernel.new_user(&mut mem, &mut allocator).unwrap();
    user.map(&mut mem, PhysicalAddr(0x50000), VirtualAddr(0x40_0000), user_rw(), &mut allocator, CachePolicy::WriteBack).unwrap();
    assert_eq!(user.unmap(&mut mem, VirtualAddr(0x40_0000), &mut allocator), Ok(FrameAddr::from_start_address(PhysicalAddr(0x50000)).unwrap()));
    assert_eq!(free_count(&mut allocator), untouched);
}
