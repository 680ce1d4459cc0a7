use dusk::arch::paging::{CpuFeatures, PagingConfig};
use dusk::format::elf::{Elf, ElfError};
use dusk::memory::address_space::AddressSpace;
use dusk::memory::{
    DirectMap, FrameAllocator, KernelMemoryLayout, KernelSegment, MemoryRegion, MemoryRegionKind, PagePermissions, PhysicalAddr,
    PhysicalMemory, VirtualAddr,
};
use dusk::task::loader::{ElfLoadError, load_elf};

const HHDM: u64 = 0xffff_8000_0000_0000;
const KERNEL_BASE: u64 = 0xffff_ffff_8000_0000;

fn config() -> PagingConfig {
    PagingConfig::from_features(CpuFeatures {
        nx_supported: true,
        nx_enabled: true,
        global_pages: true,
        physical_address_bits: 40,
        virtual_address_bits: 48,
        five_level_paging_active: false,
    })
}

fn regions() -> Vec<MemoryRegion> {
    vec![
        MemoryRegion { start: PhysicalAddr(0), length: 96 * 4096, kind: MemoryRegionKind::Usable },
        MemoryRegion { start: PhysicalAddr(96 * 4096), length: 8 * 4096, kind: MemoryRegionKind::KernelAndModules },
    ]
}

fn layout() -> KernelMemoryLayout {
    KernelMemoryLayout {
        segments: [
            KernelSegment {
                physical_base: PhysicalAddr(96 * 4096),
                virtual_base: VirtualAddr(KERNEL_BASE),
                length: 3 * 4096,
                permissions: PagePermissions::new(false, true, false),
            },
            KernelSegment {
                physical_base: PhysicalAddr(99 * 4096),
                virtual_base: VirtualAddr(KERNEL_BASE + 3 * 4096),
                length: 2 * 4096,
                permissions: PagePermissions::new(false, false, false),
            },
            KernelSegment {
                physical_base: PhysicalAddr(101 * 4096),
                virtual_base: VirtualAddr(KERNEL_BASE + 5 * 4096),
                length: 3 * 4096,
                permissions: PagePermissions::new(true, false, false),
            },
        ],
    }
}

fn boot() -> (PhysicalMemory, FrameAllocator, AddressSpace) {
    let mut mem = PhysicalMemory::new(104);
    let dm = DirectMap::new(HHDM);
    let regions = regions();
    let mut allocator = match FrameAllocator::new(&regions, dm) {
        Ok(a) => a,
        Err(e) => panic!("allocator: {:?}", e),
    };
    let space = AddressSpace::new_kernel(dm, &regions, &layout(), config(), &mut allocator, &mut mem).unwrap();
    (mem, allocator, space)
}

fn put16(b: &mut Vec<u8>, at: usize, v: u16) {
    b[at..at + 2].copy_from_slice(&v.to_le_bytes());
}

fn put32(b: &mut Vec<u8>, at: usize, v: u32) {
    b[at..at + 4].copy_from_slice(&v.to_le_bytes());
}

fn put64(b: &mut Vec<u8>, at: usize, v: u64) {
    b[at..at + 8].copy_from_slice(&v.to_le_bytes());
}

/// A static x86-64 executable: a text segment of sixteen 0x90 bytes at
/// 0x401000 (read, execute) and a data segment of bytes 1..=8 at 0x403008
/// with 0x2000 bytes of memory (read, write), entering at `entry`.
fn image(entry: u64) -> Vec<u8> {
    let mut b = vec![0u8; 64 + 2 * 56 + 16 + 8];
    b[0..7].copy_from_slice(&[0x7f, b'E', b'L', b'F', 2, 1, 1]);
    put16(&mut b, 16, 2);
    put16(&mut b, 18, 62);
    put32(&mut b, 20, 1);
    put64(&mut b, 24, entry);
    put64(&mut b, 32, 64);
    put16(&mut b, 52, 64);
    put16(&mut b, 54, 56);
    put16(&mut b, 56, 2);
    let text = 64;
    put32(&mut b, text, 1);
    put32(&mut b, text + 4, 5);
    put64(&mut b, text + 8, 176);
    put64(&mut b, text + 16, 0x40_1000);
    put64(&mut b, text + 32, 16);
    put64(&mut b, text + 40, 16);
    let data = 64 + 56;
    put32(&mut b, data, 1);
    put32(&mut b, data + 4, 6);
    put64(&mut b, data + 8, 192);
    put64(&mut b, data + 16, 0x40_3008);
    put64(&mut b, data + 32, 8);
    put64(&mut b, data + 40, 0x2000);
    for i in 0..16 {
        b[176 + i] = 0x90;
    }
    for i in 0..8 {
        b[192 + i] = (i + 1) as u8;
    }
    b
}

fn byte_at(space: &AddressSpace, mem: &PhysicalMemory, va: u64) -> u8 {
    let p = space.to_physical(mem, VirtualAddr(va)).unwrap();
    mem.read_u8(p.0)
}

#[test]
fn parse_reads_the_entry_point_and_the_loadable_segments() {
    let b = image(0x40_1004);
    let elf = Elf::parse(&b).ok().unwrap();
    assert_eq!(elf.entry, 0x40_1004);
    let segments = elf.segments();
    assert_eq!(segments.len(), 2);
    let text = segments[0].as_ref().ok().unwrap();
    assert_eq!(text.address, 0x40_1000);
    assert_eq!(text.data.len(), 16);
    assert!(text.executable && !text.writable);
    let data = segments[1].as_ref().ok().unwrap();
    assert_eq!(data.memory_size, 0x2000);
    assert_eq!(data.data, &[1, 2, 3, 4, 5, 6, 7, 8]);
    assert!(data.writable && !data.executable);
}

#[test]
fn parse_refuses_other_machines_and_dynamic_images() {
    let mut b = image(0x40_1004);
    put16(&mut b, 18, 183);
    assert!(matches!(Elf::parse(&b), Err(ElfError)));
    let mut b = image(0x40_1004);
    put32(&mut b, 64 + 56, 3);
    assert!(matches!(Elf::parse(&b), Err(ElfError)));
    assert!(matches!(Elf::parse(&b[..40]), Err(ElfError)));
}

#[test]
fn a_segment_with_more_file_than_memory_is_malformed() {
    let mut b = image(0x40_1004);
    put64(&mut b, 64 + 32, 32);
    let elf = Elf::parse(&b).ok().unwrap();
    assert!(elf.segments()[0].is_err());
}

#[test]
fn load_elf_copies_the_segments_and_zeroes_the_rest() {
    let (mut mem, mut allocator, kernel) = boot();
    let mut user = kernel.new_user(&mut mem, &mut allocator).unwrap();
    let b = image(0x40_1004);
    let entry = load_elf(&b, &mut user, &mut mem, &mut allocator, DirectMap::new(HHDM)).unwrap();
    assert_eq!(entry, VirtualAddr(0x40_1004));
    for i in 0..16 {
        assert_eq!(byte_at(&user, &mem, 0x40_1000 + i), 0x90);
    }
    assert_eq!(byte_at(&user, &mem, 0x40_1010), 0);
    assert_eq!(byte_at(&user, &mem, 0x40_3000), 0);
    for i in 0..8 {
        assert_eq!(byte_at(&user, &mem, 0x40_3008 + i), (i + 1) as u8);
    }
    assert_eq!(byte_at(&user, &mem, 0x40_3010), 0);
    assert_eq!(byte_at(&user, &mem, 0x40_4fff), 0);
    assert_eq!(byte_at(&user, &mem, 0x40_5008), 0);
    assert_eq!(user.to_physical(&mem, VirtualAddr(0x40_6000)), None);
}

#[test]
fn load_elf_needs_the_entry_in_an_executable_segment() {
    let (mut mem, mut allocator, kernel) = boot();
    let mut user = kernel.new_user(&mut mem, &mut allocator).unwrap();
    let b = image(0x40_3008);
    assert_eq!(load_elf(&b, &mut user, &mut mem, &mut allocator, DirectMap::new(HHDM)), Err(ElfLoadError::InvalidElf));
}

#[test]
fn load_elf_refuses_segments_beyond_the_user_half() {
    let (mut mem, mut allocator, kernel) = boot();
    let mut user = kernel.new_user(&mut mem, &mut allocator).unwrap();
    let mut b = image(0x40_1004);
    put64(&mut b, 64 + 56 + 16, 0x0000_7fff_ffff_f008);
    assert_eq!(load_elf(&b, &mut user, &mut mem, &mut allocator, DirectMap::new(HHDM)), Err(ElfLoadError::InvalidElf));
}

#[test]
fn load_elf_refuses_what_is_not_an_executable() {
    let (mut mem, mut allocator, kernel) = boot();
    let mut user = kernel.new_user(&mut mem, &mut allocator).unwrap();
    let b = vec![0u8; 200];
    assert_eq!(load_elf(&b, &mut user, &mut mem, &mut allocator, DirectMap::new(HHDM)), Err(ElfLoadError::InvalidElf));
}

#[test]
fn load_elf_refuses_overlapping_segments() {
    let (mut mem, mut allocator, kernel) = boot();
    let mut user = kernel.new_user(&mut mem, &mut allocator).unwrap();
    let mut b = image(0x40_1004);
    put64(&mut b, 64 + 56 + 16, 0x40_1008);
    assert_eq!(load_elf(&b, &mut user, &mut mem, &mut allocator, DirectMap::new(HHDM)), Err(ElfLoadError::FailedToMapSegment));
}
