use dusk::memory::frame::{FrameAllocatorInitError, FrameState, align_down_to_frame, align_up_to_frame};
use dusk::memory::{DirectMap, FrameAllocator, MemoryRegion, MemoryRegionKind, PhysicalAddr, PhysicalMemory};

fn allocator(regions: &[MemoryRegion]) -> FrameAllocator {
    match FrameAllocator::new(regions, DirectMap::new(0xffff_8000_0000_0000)) {
        Ok(a) => a,
        Err(e) => panic!("{:?}", e),
    }
}

#[test]
fn frame_alignment_rounds_to_page_boundaries() {
    assert_eq!(align_up_to_frame(0x1001), Some(0x2000));
    assert_eq!(align_up_to_frame(0x2000), Some(0x2000));
    assert_eq!(align_up_to_frame(u64::MAX), None);
    assert_eq!(align_down_to_frame(0x1fff), 0x1000);
}

#[test]
fn the_bitmap_takes_the_first_usable_frame_and_allocation_starts_after_it() {
    let regions = vec![MemoryRegion { start: PhysicalAddr(0), length: 16 * 4096, kind: MemoryRegionKind::Usable }];
    let mut a = allocator(&regions);
    let f = a.alloc_nozero().unwrap();
    assert_eq!(f.index(), 1);
    let g = a.alloc_nozero().unwrap();
    assert_eq!(g.index(), 2);
}

#[test]
fn a_freed_frame_is_handed_out_again() {
    let regions = vec![MemoryRegion { start: PhysicalAddr(0), length: 16 * 4096, kind: MemoryRegionKind::Usable }];
    let mut a = allocator(&regions);
    let f = a.alloc_nozero().unwrap();
    let _g = a.alloc_nozero().unwrap();
    a.dealloc(f);
    assert_eq!(a.alloc_nozero().unwrap().index(), 1);
}

#[test]
fn allocation_runs_out_when_every_frame_is_taken() {
    let regions = vec![MemoryRegion { start: PhysicalAddr(0), length: 4 * 4096, kind: MemoryRegionKind::Usable }];
    let mut a = allocator(&regions);
    let mut n = 0;
    while a.alloc_nozero().is_some() {
        n += 1;
    }
    assert_eq!(n, 3);
}

#[test]
fn reserved_memory_is_never_handed_out() {
    let regions = vec![
        MemoryRegion { start: PhysicalAddr(0), length: 4 * 4096, kind: MemoryRegionKind::Usable },
        MemoryRegion { start: PhysicalAddr(4 * 4096), length: 4 * 4096, kind: MemoryRegionKind::BootloaderReclaimable },
    ];
    let mut a = allocator(&regions);
    let mut got = Vec::new();
    while let Some(f) = a.alloc_nozero() {
        got.push(f.index());
    }
    assert_eq!(got, vec![1, 2, 3]);
    a.reclaim_regions(&regions, MemoryRegionKind::BootloaderReclaimable);
    let mut more = Vec::new();
    while let Some(f) = a.alloc_nozero() {
        more.push(f.index());
    }
    assert_eq!(more, vec![4, 5, 6, 7]);
}

#[test]
fn alloc_zeroed_clears_the_frame() {
    let regions = vec![MemoryRegion { start: PhysicalAddr(0), length: 4 * 4096, kind: MemoryRegionKind::Usable }];
    let mut a = match FrameAllocator::new(&regions, DirectMap::new(0)) {
        Ok(a) => a,
        Err(e) => panic!("{:?}", e),
    };
    let mut mem = PhysicalMemory::new(4);
    mem.write_word(512 + 3, 0xdead);
    let f = a.alloc_zeroed(&mut mem).unwrap();
    assert_eq!(f.index(), 1);
    assert_eq!(mem.read_word(512 + 3), 0);
}

#[test]
fn an_allocator_needs_usable_memory() {
    let regions = vec![MemoryRegion { start: PhysicalAddr(0), length: 4 * 4096, kind: MemoryRegionKind::Reserved }];
    let r = FrameAllocator::new(&regions, DirectMap::new(0));
    assert!(r.is_err());
    let _ = FrameState::Free;
    let _: Option<FrameAllocatorInitError> = None;
}

#[test]
fn frames_are_countable_unless_the_usable_regions_are_too_large() {
    let small = vec![MemoryRegion { start: PhysicalAddr(0), length: 16 * 4096, kind: MemoryRegionKind::Usable }];
    assert!(FrameAllocator::frames_countable(&small));
    // Each region spans 2^52 - 1 frames; 4096 of them with room for any
    // frame index pass 2^64, 4095 do not.
    let region = MemoryRegion { start: PhysicalAddr(0), length: 0xFFFF_FFFF_FFFF_F000, kind: MemoryRegionKind::Usable };
    assert!(FrameAllocator::frames_countable(&vec![region; 4095]));
    assert!(!FrameAllocator::frames_countable(&vec![region; 4096]));
    let reserved = vec![MemoryRegion { start: PhysicalAddr(0), length: 0xFFFF_FFFF_FFFF_F000, kind: MemoryRegionKind::Reserved }];
    assert!(FrameAllocator::frames_countable(&reserved));
}
