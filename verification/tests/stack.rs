use dusk::arch::paging::{CpuFeatures, PagingConfig};
use dusk::memory::address_space::{AddressSpace, MapError};
use dusk::memory::stack::{
    KERNEL_STACK_TOP, KernelStack, STACK_SIZE, StackCreateError, StackMapping, USER_STACK_TOP, UserStack,
};
use dusk::memory::{
    CachePolicy, DirectMap, FrameAllocator, KernelMemoryLayout, KernelSegment, MemoryRegion, MemoryRegionKind, PagePermissions,
    PhysicalAddr, PhysicalMemory, VirtualAddr,
};

const HHDM: u64 = 0xffff_8000_0000_0000;
const KERNEL_BASE: u64 = 0xffff_ffff_8000_0000;

fn config() -> PagingConfig {
    PagingConfig::from_features(CpuFeatures {
        nx_supported: true,
        nx_enabled: true,
        global_pages: true,
        physical_address_bits: 40,
        virtual_address_bits: 48,
        five_level_paging_active: false,
    })
}

fn regions() -> Vec<MemoryRegion> {
    vec![
        MemoryRegion { start: PhysicalAddr(0), length: 96 * 4096, kind: MemoryRegionKind::Usable },
        MemoryRegion { start: PhysicalAddr(96 * 4096), length: 8 * 4096, kind: MemoryRegionKind::KernelAndModules },
    ]
}

fn layout() -> KernelMemoryLayout {
    KernelMemoryLayout {
        segments: [
            KernelSegment {
                physical_base: PhysicalAddr(96 * 4096),
                virtual_base: VirtualAddr(KERNEL_BASE),
                length: 3 * 4096,
                permissions: PagePermissions::new(false, true, false),
            },
            KernelSegment {
                physical_base: PhysicalAddr(99 * 4096),
                virtual_base: VirtualAddr(KERNEL_BASE + 3 * 4096),
                length: 2 * 4096,
                permissions: PagePermissions::new(false, false, false),
            },
            KernelSegment {
                physical_base: PhysicalAddr(101 * 4096),
                virtual_base: VirtualAddr(KERNEL_BASE + 5 * 4096),
                length: 3 * 4096,
                permissions: PagePermissions::new(true, false, false),
            },
        ],
    }
}

fn boot() -> (PhysicalMemory, FrameAllocator, AddressSpace) {
    let mut mem = PhysicalMemory::new(104);
    let dm = DirectMap::new(HHDM);
    let regions = regions();
    let mut allocator = match FrameAllocator::new(&regions, dm) {
        Ok(a) => a,
        Err(e) => panic!("allocator: {:?}", e),
    };
    let space = AddressSpace::new_kernel(dm, &regions, &layout(), config(), &mut allocator, &mut mem).unwrap();
    (mem, allocator, space)
}

#[test]
fn kernel_stack_is_mapped_below_its_top_with_a_guard_page() {
    let (mut mem, mut allocator, mut kernel) = boot();
    let stack = KernelStack::allocate(&mut kernel, &mut mem, &mut allocator).ok().unwrap();
    assert_eq!(stack.top(), VirtualAddr(KERNEL_STACK_TOP));
    assert!(kernel.to_physical(&mem, VirtualAddr(KERNEL_STACK_TOP - 8)).is_some());
    assert!(kernel.to_physical(&mem, VirtualAddr(KERNEL_STACK_TOP - STACK_SIZE)).is_some());
    assert_eq!(kernel.to_physical(&mem, VirtualAddr(KERNEL_STACK_TOP - STACK_SIZE - 4096)), None);
    assert_eq!(kernel.to_physical(&mem, VirtualAddr(KERNEL_STACK_TOP)), None);
    // Each page has a frame of its own.
    let a = kernel.to_physical(&mem, VirtualAddr(KERNEL_STACK_TOP - 4096)).unwrap();
    let b = kernel.to_physical(&mem, VirtualAddr(KERNEL_STACK_TOP - 8192)).unwrap();
    assert_ne!(a, b);
}

#[test]
fn a_second_stack_at_the_same_top_is_refused_and_the_first_stays() {
    let (mut mem, mut allocator, mut kernel) = boot();
    let _first = KernelStack::allocate(&mut kernel, &mut mem, &mut allocator).ok().unwrap();
    let before = kernel.to_physical(&mem, VirtualAddr(KERNEL_STACK_TOP - 4096));
    let second = KernelStack::allocate(&mut kernel, &mut mem, &mut allocator);
    assert!(matches!(second, Err(StackCreateError::Mapping(MapError::AlreadyMapped))));
    assert_eq!(kernel.to_physical(&mem, VirtualAddr(KERNEL_STACK_TOP - 4096)), before);
}

#[test]
fn stack_top_must_be_aligned_and_high_enough() {
    let (mut mem, mut allocator, mut kernel) = boot();
    let rw = PagePermissions::new(true, false, false);
    let r = StackMapping::allocate(&mut kernel, &mut mem, &mut allocator, VirtualAddr(0x4000_0010), rw);
    assert!(matches!(r, Err(StackCreateError::UnalignedStackTop)));
    let r = StackMapping::allocate(&mut kernel, &mut mem, &mut allocator, VirtualAddr(STACK_SIZE), rw);
    assert!(matches!(r, Err(StackCreateError::AddressOverflow)));
}

#[test]
fn a_mapped_guard_page_is_refused() {
    let (mut mem, mut allocator, mut kernel) = boot();
    let rw = PagePermissions::new(true, false, false);
    let top = 0xffff_ffff_0000_0000u64;
    kernel.map(&mut mem, PhysicalAddr(0x3000), VirtualAddr(top - STACK_SIZE - 4096), rw, &mut allocator, CachePolicy::WriteBack).unwrap();
    let r = StackMapping::allocate(&mut kernel, &mut mem, &mut allocator, VirtualAddr(top), rw);
    assert!(matches!(r, Err(StackCreateError::GuardPageMapped)));
}

#[test]
fn no_free_frame_means_no_stack() {
    let (mut mem, mut allocator, mut kernel) = boot();
    let mut held = Vec::new();
    while let Some(f) = allocator.alloc_nozero() {
        held.push(f);
    }
    let r = KernelStack::allocate(&mut kernel, &mut mem, &mut allocator);
    assert!(matches!(r, Err(StackCreateError::OutOfFrames)));
    assert_eq!(kernel.to_physical(&mem, VirtualAddr(KERNEL_STACK_TOP - 4096)), None);
}

#[test]
fn user_stack_lies_below_the_user_stack_top() {
    let (mut mem, mut allocator, kernel) = boot();
    let mut user = kernel.new_user(&mut mem, &mut allocator).unwrap();
    let stack = UserStack::allocate(&mut user, &mut mem, &mut allocator).ok().unwrap();
    assert_eq!(stack.top(), VirtualAddr(USER_STACK_TOP));
    assert!(user.to_physical(&mem, VirtualAddr(USER_STACK_TOP - 16)).is_some());
    assert_eq!(user.to_physical(&mem, VirtualAddr(USER_STACK_TOP - STACK_SIZE - 4096)), None);
}

#[test]
fn destroying_a_stack_unmaps_it_and_returns_its_frames() {
    let (mut mem, mut allocator, mut kernel) = boot();
    let stack = KernelStack::allocate(&mut kernel, &mut mem, &mut allocator).ok().unwrap();
    stack.destroy(&mut kernel, &mut mem, &mut allocator);
    assert_eq!(kernel.to_physical(&mem, VirtualAddr(KERNEL_STACK_TOP - 8)), None);
    // The frames can be had again: a new stack fits.
    let again = KernelStack::allocate(&mut kernel, &mut mem, &mut allocator);
    assert!(again.is_ok());
}

#[test]
fn stack_pages_are_fresh_zeroed_frames_with_the_stack_rights() {
    let (mut mem, mut allocator, mut kernel) = boot();
    let stack = KernelStack::allocate(&mut kernel, &mut mem, &mut allocator).ok().unwrap();
    for k in 0..16u64 {
        let va = VirtualAddr(stack.top().0 - STACK_SIZE + k * 4096);
        let m = kernel.mapping(&mem, va).unwrap();
        assert_eq!(m.permissions, PagePermissions::new(true, false, false));
        for o in (0..4096u64).step_by(512) {
            assert_eq!(mem.read_u8(m.physical.0 + o), 0);
        }
    }
    let mut user = kernel.new_user(&mut mem, &mut allocator).unwrap();
    let ustack = UserStack::allocate(&mut user, &mut mem, &mut allocator).ok().unwrap();
    let m = user.mapping(&mem, VirtualAddr(ustack.top().0 - 4096)).unwrap();
    assert_eq!(m.permissions, PagePermissions::new(true, false, true));
}

#[test]
fn destroying_a_stack_leaves_its_guard_page_unmapped() {
    let (mut mem, mut allocator, mut kernel) = boot();
    let stack = KernelStack::allocate(&mut kernel, &mut mem, &mut allocator).ok().unwrap();
    stack.destroy(&mut kernel, &mut mem, &mut allocator);
    assert_eq!(kernel.to_physical(&mem, VirtualAddr(KERNEL_STACK_TOP - STACK_SIZE - 4096)), None);
    assert_eq!(kernel.to_physical(&mem, VirtualAddr(KERNEL_STACK_TOP - 8)), None);
}

fn free_count(allocator: &mut FrameAllocator) -> usize {
    let mut n = 0;
    while allocator.alloc_nozero().is_some() {
        n += 1;
    }
    n
}

#[test]
fn a_stack_that_cannot_be_finished_gives_back_what_it_took() {
    let rw = PagePermissions::new(true, false, false);
    let top = 0xffff_ffff_0000_0000u64;
    let blocker = VirtualAddr(top - STACK_SIZE + 5 * 4096);

    let (mut mem, mut allocator, mut kernel) = boot();
    kernel.map(&mut mem, PhysicalAddr(0x3000), blocker, rw, &mut allocator, CachePolicy::WriteBack).unwrap();
    let before = free_count(&mut allocator);

    let (mut mem, mut allocator, mut kernel) = boot();
    kernel.map(&mut mem, PhysicalAddr(0x3000), blocker, rw, &mut allocator, CachePolicy::WriteBack).unwrap();
    let r = StackMapping::allocate(&mut kernel, &mut mem, &mut allocator, VirtualAddr(top), rw);
    assert!(matches!(r, Err(StackCreateError::Mapping(MapError::AlreadyMapped))));
    for k in 0..5u64 {
        assert_eq!(kernel.to_physical(&mem, VirtualAddr(top - STACK_SIZE + k * 4096)), None);
    }
    assert_eq!(kernel.to_physical(&mem, blocker), Some(PhysicalAddr(0x3000)));
    assert_eq!(free_count(&mut allocator), before);
}
