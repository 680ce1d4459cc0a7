//! Loading a static ELF executable into a user address space: each
//! loadable segment's pages get fresh frames holding the segment's bytes,
//! zero past its file data.

use vstd::prelude::*;

use crate::arch::paging::UnmapError as PageTableUnmapError;
use crate::format::elf::{Elf, ElfError, Segment, load_indices, spec_parse, spec_segment};
use crate::memory::address_space::{AddressSpace, AddressSpaceKind, USER_SPACE_END, lemma_user_root_index};
use crate::memory::frame::{FrameState, count_state};
use crate::memory::phys::{mem_byte, mem_frames};
use crate::memory::{CachePolicy, DirectMap, FrameAllocator, PagePermissions, PhysicalMemory, VirtualAddr};

verus! {

/// Why an executable could not be loaded.
#[derive(Clone, Copy, Debug, PartialEq, Eq, Structural)]
pub enum ElfLoadError {
    AddressTranslationFailed,
    FailedToMapSegment,
    AddressOverflow,
    InvalidStack,
    OutOfMemory,
    InvalidElf,
    TooManyLoadSegments,
}

/// The byte that a segment with file data `data` at `address` puts at
/// address `a`: its data where it has some, zero elsewhere.
pub open spec fn seg_byte(data: Seq<u8>, address: u64, a: int) -> u8 {
    if address <= a < address + data.len() {
        data[a - address]
    } else {
        0
    }
}

/// Page `page` of `space` is mapped, in the part the space owns, to an
/// allocated frame that is no page table, and the frame holds the bytes
/// that the segment (`data` at `address`) puts on that page.
pub open spec fn page_loaded(space: AddressSpace, mem: Seq<u64>, frames: Seq<FrameState>, data: Seq<u8>, address: u64, page: u64) -> bool {
    &&& space.owns_mapping(mem, page)
    &&& space.spec_root().spec_unmap(mem, page)->Ok_0 % 4096 == 0
    &&& 0 <= space.spec_root().spec_unmap(mem, page)->Ok_0 / 4096 < frames.len()
    &&& space.spec_root().spec_unmap(mem, page)->Ok_0 / 4096 < mem_frames(mem)
    &&& frames[(space.spec_root().spec_unmap(mem, page)->Ok_0 / 4096) as int] == FrameState::Allocated
    &&& !space.spec_root().spec_tables().contains_key((space.spec_root().spec_unmap(mem, page)->Ok_0 / 4096) as nat)
    &&& forall|o: nat| o < 4096 ==> #[trigger] mem_byte(mem, (space.spec_root().spec_unmap(mem, page)->Ok_0 + o) as nat) == seg_byte(
        data,
        address,
        page + o,
    )
}

/// The first page of the segment at `address`.
pub open spec fn page_start(address: u64) -> u64 {
    (address - address % 4096) as u64
}

/// The number of pages from page start `lo` that reach below `hi`.
pub open spec fn pages_between(lo: u64, hi: u64) -> nat {
    if lo >= hi {
        0
    } else {
        ((hi - lo + 4095) / 4096) as nat
    }
}

/// Below `hi`, the pages from `lo` are the page at `lo` and those after it.
pub proof fn lemma_pages_between_step(lo: u64, hi: u64)
    requires
        lo < hi,
    ensures
        pages_between(lo, hi) == 1 + pages_between((lo + 4096) as u64, hi) || lo + 4096 > u64::MAX,
        pages_between(lo, hi) >= 1,
{
    if lo + 4096 <= u64::MAX {
        if lo + 4096 >= hi {
            assert((hi - lo + 4095) / 4096 == 1) by (nonlinear_arith)
                requires
                    1 <= hi - lo <= 4096,
            ;
        } else {
            assert((hi - lo + 4095) / 4096 == 1 + (hi - (lo + 4096) + 4095) / 4096) by (nonlinear_arith)
                requires
                    hi - lo > 4096,
            ;
        }
    } else {
        assert((hi - lo + 4095) / 4096 >= 1) by (nonlinear_arith)
            requires
                hi - lo >= 1,
        ;
    }
}

/// What loading the segment at `address` (`memory_size` bytes) did to
/// the space: it cost at most the segment's pages, each with its tables, in
/// free frames, and every page outside the segment that was open to mapping
/// still is.
#[verifier::opaque]
pub open spec fn segment_load_effect(
    s0: AddressSpace,
    m0: Seq<u64>,
    a0: Seq<FrameState>,
    s1: AddressSpace,
    m1: Seq<u64>,
    a1: Seq<FrameState>,
    address: u64,
    memory_size: u64,
) -> bool {
    &&& count_state(a1, FrameState::Free) + pages_between(page_start(address), (address + memory_size) as u64) * (
    s0.spec_root().spec_config().spec_levels().len() + 1) >= count_state(a0, FrameState::Free)
    &&& forall|vb: u64|
        (vb < page_start(address) || vb >= address + memory_size) && s0.spec_root().root_index(vb) < s0.spec_root().spec_root_limit()
            && #[trigger] s0.spec_root().spec_page_open(m0, vb) ==> s1.spec_root().spec_page_open(m1, vb)
}

/// Loading nothing changes nothing.
proof fn lemma_no_load_effect(s: AddressSpace, m: Seq<u64>, a: Seq<FrameState>)
    ensures
        segment_load_effect(s, m, a, s, m, a, 0, 0),
{
    reveal(segment_load_effect);
}

/// Every page of the segment at `address` (`memory_size` bytes) can be
/// loaded into `space`: each could be mapped now, and enough frames are
/// free, reachable through both direct maps, for all of them.
#[verifier::opaque]
pub open spec fn segment_load_ready(
    space: AddressSpace,
    mem: Seq<u64>,
    frames: Seq<FrameState>,
    direct_map: DirectMap,
    address: u64,
    memory_size: u64,
    permissions: PagePermissions,
) -> bool {
    &&& forall|q: u64|
        page_start(address) <= q < address + memory_size && q % 4096 == 0 ==> #[trigger] space.spec_page_mappable(
            mem,
            0,
            q,
            permissions,
            CachePolicy::WriteBack,
        )
    &&& count_state(frames, FrameState::Free) >= pages_between(page_start(address), (address + memory_size) as u64) * (space.spec_root().spec_config().spec_levels().len() + 1)
    &&& frames.len() * 4096 <= space.spec_root().spec_config().spec_limit()
    &&& frames.len() * 4096 + space.spec_root().spec_direct_map().spec_offset() <= u64::MAX + 1
    &&& frames.len() * 4096 + direct_map.spec_offset() <= u64::MAX + 1
}

/// Page `page` can be loaded into `space`: it could be mapped now, and
/// enough frames are free, each reachable through the space's direct map
/// and through `direct_map`, for `pages` pages with their tables.
pub open spec fn page_load_ready(
    space: AddressSpace,
    mem: Seq<u64>,
    frames: Seq<FrameState>,
    direct_map: DirectMap,
    page: u64,
    permissions: PagePermissions,
    pages: nat,
) -> bool {
    &&& space.spec_page_mappable(mem, 0, page, permissions, CachePolicy::WriteBack)
    &&& count_state(frames, FrameState::Free) >= pages * (space.spec_root().spec_config().spec_levels().len() + 1)
    &&& frames.len() * 4096 <= space.spec_root().spec_config().spec_limit()
    &&& frames.len() * 4096 + space.spec_root().spec_direct_map().spec_offset() <= u64::MAX + 1
    &&& frames.len() * 4096 + direct_map.spec_offset() <= u64::MAX + 1
}

/// Every page that the segment (`data` at `address`, `memory_size` bytes)
/// spans is loaded.
pub open spec fn segment_loaded(space: AddressSpace, mem: Seq<u64>, frames: Seq<FrameState>, data: Seq<u8>, address: u64, memory_size: u64) -> bool {
    forall|q: u64|
        page_start(address) <= q < address + memory_size && q % 4096 == 0 ==> #[trigger] page_loaded(space, mem, frames, data, address, q)
}

/// The word of memory that holds byte `o` of the frame at `pa` lies in
/// that frame.
proof fn lemma_frame_word(pa: u64, o: nat)
    requires
        pa % 4096 == 0,
        o < 4096,
    ensures
        (pa + o) / 8 / 512 == pa / 4096,
        pa / 4096 * 512 <= (pa + o) / 8 < pa / 4096 * 512 + 512,
{
    let f = pa / 4096;
    assert(pa == f * 4096);
    assert((f * 4096 + o) / 8 == f * 512 + o / 8) by (nonlinear_arith)
        requires
            o < 4096,
    ;
    assert(o / 8 < 512);
    assert((f * 512 + o / 8) / 512 == f) by (nonlinear_arith)
        requires
            o / 8 < 512,
    ;
}

/// A loaded page stays loaded across a change that keeps its mapping, its
/// frame allocated, no page table, and untouched.
proof fn lemma_page_kept(
    s1: AddressSpace,
    m1: Seq<u64>,
    a1: Seq<FrameState>,
    s2: AddressSpace,
    m2: Seq<u64>,
    a2: Seq<FrameState>,
    data: Seq<u8>,
    address: u64,
    q: u64,
)
    requires
        page_loaded(s1, m1, a1, data, address, q),
        s2.spec_root().spec_config() == s1.spec_root().spec_config(),
        s2.spec_root().spec_root_limit() == s1.spec_root().spec_root_limit(),
        s2.spec_root().spec_unmap(m2, q) == s1.spec_root().spec_unmap(m1, q),
        a2.len() == a1.len(),
        m2.len() == m1.len(),
        a2[(s1.spec_root().spec_unmap(m1, q)->Ok_0 / 4096) as int] == FrameState::Allocated,
        !s2.spec_root().spec_tables().contains_key((s1.spec_root().spec_unmap(m1, q)->Ok_0 / 4096) as nat),
        forall|w: int|
            0 <= w < m1.len() && w / 512 == s1.spec_root().spec_unmap(m1, q)->Ok_0 / 4096 ==> #[trigger] m2[w] == m1[w],
    ensures
        page_loaded(s2, m2, a2, data, address, q),
{
    let pa = s1.spec_root().spec_unmap(m1, q)->Ok_0;
    assert forall|o: nat| o < 4096 implies #[trigger] mem_byte(m2, (pa + o) as nat) == seg_byte(data, address, q + o) by {
        lemma_frame_word(pa, o);
        let w = ((pa + o) / 8) as int;
        assert(mem_byte(m1, (pa + o) as nat) == seg_byte(data, address, q + o));
        assert(w < m1.len()) by (nonlinear_arith)
            requires
                w < pa / 4096 * 512 + 512,
                pa / 4096 < m1.len() / 512,
        ;
        assert(m2[w] == m1[w]);
    }
}

/// Fills the frame at `pa` with the bytes that the segment (`data` at
/// `address`) puts on page `page`.
fn fill_page(mem: &mut PhysicalMemory, pa: u64, data: &[u8], address: u64, page: u64)
    requires
        pa % 4096 == 0,
        pa / 4096 < mem_frames(old(mem)@),
        page % 4096 == 0,
        page + 4096 <= u64::MAX,
        address + data@.len() <= u64::MAX,
    ensures
        final(mem)@.len() == old(mem)@.len(),
        forall|o: nat| o < 4096 ==> #[trigger] mem_byte(final(mem)@, (pa + o) as nat) == seg_byte(data@, address, page + o),
        forall|w: int| 0 <= w < old(mem)@.len() && w / 512 != pa / 4096 ==> #[trigger] final(mem)@[w] == old(mem)@[w],
{
    let file_end = address + data.len() as u64;
    let mut o: u64 = 0;
    while o < 4096
        invariant
            pa % 4096 == 0,
            pa / 4096 < mem_frames(old(mem)@),
            page + 4096 <= u64::MAX,
            file_end == address + data@.len(),
            o <= 4096,
            mem@.len() == old(mem)@.len(),
            forall|k: nat| k < o ==> #[trigger] mem_byte(mem@, (pa + k) as nat) == seg_byte(data@, address, page + k),
            forall|w: int| 0 <= w < old(mem)@.len() && w / 512 != pa / 4096 ==> #[trigger] mem@[w] == old(mem)@[w],
        decreases 4096 - o,
    {
        let a = page + o;
        let value: u8 = if address <= a && a < file_end {
            data[(a - address) as usize]
        } else {
            0
        };
        proof {
            lemma_frame_word(pa, o as nat);
            assert((pa + o) / 8 < mem@.len()) by (nonlinear_arith)
                requires
                    (pa + o) / 8 < pa / 4096 * 512 + 512,
                    pa / 4096 < mem@.len() / 512,
            ;
        }
        let ghost before = mem@;
        mem.write_u8(pa + o, value);
        proof {
            assert forall|k: nat| k < o + 1 implies #[trigger] mem_byte(mem@, (pa + k) as nat) == seg_byte(data@, address, page + k) by {
                if k < o {
                    lemma_frame_word(pa, k);
                    assert(mem_byte(before, (pa + k) as nat) == seg_byte(data@, address, page + k));
                }
            }
            assert forall|w: int| 0 <= w < old(mem)@.len() && w / 512 != pa / 4096 implies #[trigger] mem@[w] == old(mem)@[w] by {
                assert(w != (pa + o) / 8);
            }
        }
        o = o + 1;
    }
}

/// Gives page `page` a fresh frame holding the bytes that the segment
/// (`data` at `address`) puts there and maps it with `permissions`.
fn load_page(
    space: &mut AddressSpace,
    mem: &mut PhysicalMemory,
    allocator: &mut FrameAllocator,
    direct_map: DirectMap,
    data: &[u8],
    address: u64,
    page: u64,
    permissions: PagePermissions,
) -> (r: Result<(), ElfLoadError>)
    requires
        old(space).wf(old(mem)@, old(allocator)@),
        old(allocator).wf(),
        old(allocator).backed_by(old(mem)@),
        page % 4096 == 0,
        page < USER_SPACE_END,
        address + data@.len() <= u64::MAX,
    ensures
        final(allocator).wf(),
        final(allocator).backed_by(final(mem)@),
        final(allocator).spec_direct_map() == old(allocator).spec_direct_map(),
        final(allocator).spec_allocatable_frames() == old(allocator).spec_allocatable_frames(),
        final(allocator)@.len() == old(allocator)@.len(),
        final(space).wf(final(mem)@, final(allocator)@),
        final(space).spec_kind() == old(space).spec_kind(),
        final(space).spec_root().spec_config() == old(space).spec_root().spec_config(),
        final(space).spec_root().spec_root() == old(space).spec_root().spec_root(),
        final(space).spec_root().spec_direct_map() == old(space).spec_root().spec_direct_map(),
        final(space).spec_root().spec_root_limit() == old(space).spec_root().spec_root_limit(),
        final(mem)@.len() == old(mem)@.len(),
        forall|d: Seq<u8>, ad: u64, q: u64|
            #[trigger] page_loaded(*old(space), old(mem)@, old(allocator)@, d, ad, q) ==> page_loaded(*final(space), final(mem)@, final(allocator)@, d, ad, q),
        r is Ok ==> page_loaded(*final(space), final(mem)@, final(allocator)@, data@, address, page),
        r is Err ==> r == Err::<(), ElfLoadError>(ElfLoadError::OutOfMemory) || r == Err::<(), ElfLoadError>(
            ElfLoadError::AddressTranslationFailed,
        ) || r == Err::<(), ElfLoadError>(ElfLoadError::FailedToMapSegment),
        page_load_ready(*old(space), old(mem)@, old(allocator)@, direct_map, page, permissions, 1) ==> r is Ok,
        r is Ok ==> count_state(final(allocator)@, FrameState::Free) + old(space).spec_root().spec_config().spec_levels().len() + 1
            >= count_state(old(allocator)@, FrameState::Free),
        r is Ok ==> forall|vb: u64|
            vb != page && old(space).spec_root().root_index(vb) < old(space).spec_root().spec_root_limit() && #[trigger] old(
                space,
            ).spec_root().spec_page_open(old(mem)@, vb) ==> final(space).spec_root().spec_page_open(final(mem)@, vb),
{
    let ghost s1 = *space;
    let ghost m1 = mem@;
    let ghost a1 = allocator@;
    proof {
        s1.spec_root().lemma_wf_basics(m1, a1);
        allocator.lemma_wf_len();
    }
    let frame = match allocator.alloc_nozero() {
        Some(f) => f,
        None => {
            proof {
                if page_load_ready(s1, m1, a1, direct_map, page, permissions, 1) {
                    crate::memory::frame::lemma_count_absent(a1, FrameState::Free);
                }
            }
            return Err(ElfLoadError::OutOfMemory);
        },
    };
    let ghost fi = frame.spec_frame().spec_index();
    proof {
        crate::arch::paging::lemma_frame_start(frame.spec_frame());
        if page_load_ready(s1, m1, a1, direct_map, page, permissions, 1) {
            assert(fi * 4096 + direct_map.spec_offset() <= u64::MAX) by (nonlinear_arith)
                requires
                    fi < a1.len(),
                    a1.len() * 4096 + direct_map.spec_offset() <= u64::MAX + 1,
            ;
        }
    }
    let physical = frame.frame_address().start_address();
    if direct_map.translate(physical).is_none() {
        allocator.dealloc(frame);
        proof {
            assert(allocator@ =~= a1);
        }
        return Err(ElfLoadError::AddressTranslationFailed);
    }
    let ghost a2 = allocator@;
    proof {
        assert(fi < mem_frames(m1));
        assert(physical.0 / 4096 == fi);
    }
    fill_page(mem, physical.0, data, address, page);
    let ghost m2 = mem@;
    proof {
        assert forall|w: int| 0 <= w < m1.len() && !(fi * 512 <= w < fi * 512 + 512) implies #[trigger] m2[w] == m1[w] by {
            if w / 512 == fi {
                assert(fi * 512 <= w < fi * 512 + 512) by (nonlinear_arith)
                    requires
                        w / 512 == fi,
                        w >= 0,
                ;
            }
        }
        s1.lemma_take_free_frame(m1, m2, a1, a2, fi as int);
        s1.spec_root().lemma_wf_basics(m2, a2);
        let r0 = s1.spec_root();
        if s1.owns_mapping(m2, page) {
            r0.lemma_mapped_blocks_map(m2, a2, page, 0, r0.spec_root());
        }
        crate::arch::paging::lemma_index_bound(page, crate::arch::paging::level_shift(s1.spec_root().spec_config().spec_levels()[0]));
        if s1.spec_kind() == AddressSpaceKind::User {
            lemma_user_root_index(s1.spec_root(), page);
        }
        if page_load_ready(s1, m1, a1, direct_map, page, permissions, 1) {
            s1.lemma_take_frame_for_page(m1, a1, m2, a2, fi as int, page, permissions, CachePolicy::WriteBack);
        }
    }
    match space.map(mem, physical, VirtualAddr::new(page), permissions, allocator, CachePolicy::WriteBack) {
        Ok(()) => {
            let _ = frame.into_raw();
            proof {
                s1.spec_root().lemma_missing_tables_bound(m2, page);
                crate::memory::frame::lemma_count_update(a1, fi as int, FrameState::Allocated, FrameState::Free);
                assert forall|vb: u64|
                    vb != page && s1.spec_root().root_index(vb) < s1.spec_root().spec_root_limit() && #[trigger] s1.spec_root().spec_page_open(m1, vb)
                    implies space.spec_root().spec_page_open(mem@, vb) by {
                    assert(s1.spec_root().spec_page_open(m2, vb));
                }
            }
            proof {
                let s3 = *space;
                let m3 = mem@;
                let a3 = allocator@;
                assert(!s1.owns_mapping(m2, page));
                assert forall|d: Seq<u8>, ad: u64, q: u64| #[trigger] page_loaded(s1, m1, a1, d, ad, q) implies page_loaded(s3, m3, a3, d, ad, q) by {
                    let fq = s1.spec_root().spec_unmap(m1, q)->Ok_0 / 4096;
                    assert(fq != fi);
                    assert(s1.owns_mapping(m1, q));
                    assert(s1.spec_root().spec_unmap(m2, q) == s1.spec_root().spec_unmap(m1, q));
                    assert(s1.owns_mapping(m2, q));
                    assert(q != page);
                    assert(a2[fq as int] == FrameState::Allocated);
                    assert forall|w: int| 0 <= w < m1.len() && w / 512 == fq implies #[trigger] m3[w] == m1[w] by {
                        assert(!(fi * 512 <= w < fi * 512 + 512)) by (nonlinear_arith)
                            requires
                                w / 512 == fq,
                                fq != fi,
                                w >= 0,
                        ;
                        assert(m2[w] == m1[w]);
                        if m3[w] != m2[w] {
                            assert(s3.spec_root().spec_tables().contains_key((w / 512) as nat));
                        }
                    }
                    lemma_page_kept(s1, m1, a1, s3, m3, a3, d, ad, q);
                }
                assert(s3.spec_root().spec_unmap(m3, page) == Ok::<u64, PageTableUnmapError>(physical.0));
                assert(a3[fi as int] == FrameState::Allocated);
                assert(!s3.spec_root().spec_tables().contains_key(fi));
                assert forall|o: nat| o < 4096 implies #[trigger] mem_byte(m3, (physical.0 + o) as nat) == seg_byte(data@, address, page + o) by {
                    lemma_frame_word(physical.0, o);
                    let w = ((physical.0 + o) / 8) as int;
                    assert(w < m1.len()) by (nonlinear_arith)
                        requires
                            w < fi * 512 + 512,
                            fi < m1.len() / 512,
                    ;
                    if m3[w] != m2[w] {
                        assert(s3.spec_root().spec_tables().contains_key((w / 512) as nat));
                    }
                    assert(mem_byte(m2, (physical.0 + o) as nat) == seg_byte(data@, address, page + o));
                }
                s3.spec_root().lemma_wf_basics(m3, a3);
            }
            Ok(())
        },
        Err(_) => {
            let ghost m3 = mem@;
            let ghost s3 = *space;
            allocator.dealloc(frame);
            proof {
                let a4 = allocator@;
                assert forall|t: nat| #[trigger] s3.spec_root().spec_tables().contains_key(t) implies a4[t as int] == a2[t as int] by {
                    assert(s1.spec_root().spec_tables().contains_key(t));
                }
                s3.spec_root().lemma_wf_frames_change(m3, a2, a4);
                assert forall|d: Seq<u8>, ad: u64, q: u64| #[trigger] page_loaded(s1, m1, a1, d, ad, q) implies page_loaded(s3, m3, a4, d, ad, q) by {
                    let fq = s1.spec_root().spec_unmap(m1, q)->Ok_0 / 4096;
                    assert(fq != fi);
                    assert(s1.owns_mapping(m1, q));
                    assert(s1.spec_root().spec_unmap(m2, q) == s1.spec_root().spec_unmap(m1, q));
                    assert(s1.owns_mapping(m2, q));
                    assert forall|w: int| 0 <= w < m1.len() && w / 512 == fq implies #[trigger] m3[w] == m1[w] by {
                        assert(!(fi * 512 <= w < fi * 512 + 512)) by (nonlinear_arith)
                            requires
                                w / 512 == fq,
                                fq != fi,
                                w >= 0,
                        ;
                        assert(m2[w] == m1[w]);
                        if m3[w] != m2[w] {
                            assert(a2[w / 512] == FrameState::Free);
                        }
                    }
                    lemma_page_kept(s1, m1, a1, s3, m3, a4, d, ad, q);
                }
            }
            Err(ElfLoadError::FailedToMapSegment)
        },
    }
}

/// Loads every page that a segment spans: `data` at `address`,
/// `memory_size` bytes, mapped with `permissions`.
fn load_segment(
    space: &mut AddressSpace,
    mem: &mut PhysicalMemory,
    allocator: &mut FrameAllocator,
    direct_map: DirectMap,
    data: &[u8],
    address: u64,
    memory_size: u64,
    permissions: PagePermissions,
) -> (r: Result<(), ElfLoadError>)
    requires
        old(space).wf(old(mem)@, old(allocator)@),
        old(allocator).wf(),
        old(allocator).backed_by(old(mem)@),
        address + memory_size <= USER_SPACE_END,
        data@.len() <= memory_size,
    ensures
        final(allocator).wf(),
        final(allocator).backed_by(final(mem)@),
        final(allocator).spec_direct_map() == old(allocator).spec_direct_map(),
        final(allocator).spec_allocatable_frames() == old(allocator).spec_allocatable_frames(),
        final(allocator)@.len() == old(allocator)@.len(),
        final(space).wf(final(mem)@, final(allocator)@),
        final(space).spec_kind() == old(space).spec_kind(),
        final(space).spec_root().spec_config() == old(space).spec_root().spec_config(),
        final(space).spec_root().spec_root() == old(space).spec_root().spec_root(),
        final(space).spec_root().spec_direct_map() == old(space).spec_root().spec_direct_map(),
        final(space).spec_root().spec_root_limit() == old(space).spec_root().spec_root_limit(),
        final(mem)@.len() == old(mem)@.len(),
        forall|d: Seq<u8>, ad: u64, q: u64|
            #[trigger] page_loaded(*old(space), old(mem)@, old(allocator)@, d, ad, q) ==> page_loaded(*final(space), final(mem)@, final(allocator)@, d, ad, q),
        r is Ok ==> segment_loaded(*final(space), final(mem)@, final(allocator)@, data@, address, memory_size),
        r is Err ==> r == Err::<(), ElfLoadError>(ElfLoadError::OutOfMemory) || r == Err::<(), ElfLoadError>(
            ElfLoadError::AddressTranslationFailed,
        ) || r == Err::<(), ElfLoadError>(ElfLoadError::FailedToMapSegment),
        segment_load_ready(*old(space), old(mem)@, old(allocator)@, direct_map, address, memory_size, permissions) ==> r is Ok,
        r is Ok ==> segment_load_effect(*old(space), old(mem)@, old(allocator)@, *final(space), final(mem)@, final(allocator)@, address, memory_size),
{
    reveal(segment_load_ready);
    let end = address + memory_size;
    let mut page = address & !0xfffu64;
    proof {
        assert(address & !0xfffu64 == address - address % 4096) by (bit_vector);
        assert((address - address % 4096) % 4096 == 0) by (nonlinear_arith);
    }
    let ghost s0 = *space;
    let ghost m0 = mem@;
    let ghost a0 = allocator@;
    let ghost nl = s0.spec_root().spec_config().spec_levels().len();
    let ghost mut done: nat = 0;
    while page < end
        invariant
            space.wf(mem@, allocator@),
            allocator.wf(),
            allocator.backed_by(mem@),
            allocator.spec_direct_map() == old(allocator).spec_direct_map(),
            allocator.spec_allocatable_frames() == old(allocator).spec_allocatable_frames(),
            allocator@.len() == old(allocator)@.len(),
            space.spec_kind() == old(space).spec_kind(),
            space.spec_root().spec_config() == old(space).spec_root().spec_config(),
            space.spec_root().spec_root() == old(space).spec_root().spec_root(),
            space.spec_root().spec_direct_map() == old(space).spec_root().spec_direct_map(),
            space.spec_root().spec_root_limit() == old(space).spec_root().spec_root_limit(),
            mem@.len() == old(mem)@.len(),
            forall|d: Seq<u8>, ad: u64, q: u64|
                #[trigger] page_loaded(*old(space), old(mem)@, old(allocator)@, d, ad, q) ==> page_loaded(*space, mem@, allocator@, d, ad, q),
            end == address + memory_size,
            end <= USER_SPACE_END,
            address + data@.len() <= u64::MAX,
            page % 4096 == 0,
            page_start(address) <= page,
            page <= end + 4096,
            forall|q: u64| page_start(address) <= q < page && q % 4096 == 0 ==> #[trigger] page_loaded(
                *space,
                mem@,
                allocator@,
                data@,
                address,
                q,
            ),
            s0 == *old(space),
            m0 == old(mem)@,
            a0 == old(allocator)@,
            nl == s0.spec_root().spec_config().spec_levels().len(),
            pages_between(page_start(address), end) == done + pages_between(page, end),
            count_state(allocator@, FrameState::Free) + done * (nl + 1) >= count_state(a0, FrameState::Free),
            forall|vb: u64|
                (vb < page_start(address) || vb >= end) && s0.spec_root().root_index(vb) < s0.spec_root().spec_root_limit()
                    && #[trigger] s0.spec_root().spec_page_open(m0, vb) ==> space.spec_root().spec_page_open(mem@, vb),
            segment_load_ready(s0, m0, a0, direct_map, address, memory_size, permissions) ==> {
                &&& forall|q: u64| page <= q < end && q % 4096 == 0 ==> #[trigger] space.spec_page_mappable(mem@, 0, q, permissions, CachePolicy::WriteBack)
                &&& count_state(allocator@, FrameState::Free) >= pages_between(page, end) * (nl + 1)
            },
        decreases end + 4096 - page,
    {
        reveal(segment_load_ready);
        let ghost s1 = *space;
        let ghost m1 = mem@;
        let ghost a1 = allocator@;
        proof {
            lemma_pages_between_step(page, end);
            if segment_load_ready(s0, m0, a0, direct_map, address, memory_size, permissions) {
                assert(pages_between(page, end) * (nl + 1) >= nl + 1) by (nonlinear_arith)
                    requires
                        pages_between(page, end) >= 1,
                ;
                assert(page_load_ready(s1, m1, a1, direct_map, page, permissions, 1));
            }
        }
        let r = load_page(space, mem, allocator, direct_map, data, address, page, permissions);
        match r {
            Ok(()) => {},
            Err(e) => return Err(e),
        }
        proof {
            let x = pages_between((page + 4096) as u64, end);
            assert((1 + x) * (nl + 1) == (nl + 1) + x * (nl + 1)) by (nonlinear_arith);
            assert((done + 1) * (nl + 1) == done * (nl + 1) + (nl + 1)) by (nonlinear_arith);
            assert forall|vb: u64|
                (vb < page_start(address) || vb >= end) && s0.spec_root().root_index(vb) < s0.spec_root().spec_root_limit()
                    && #[trigger] s0.spec_root().spec_page_open(m0, vb) implies space.spec_root().spec_page_open(mem@, vb) by {
                assert(vb != page);
            }
            if segment_load_ready(s0, m0, a0, direct_map, address, memory_size, permissions) {
                assert forall|q: u64| page + 4096 <= q < end && q % 4096 == 0 implies #[trigger] space.spec_page_mappable(
                    mem@,
                    0,
                    q,
                    permissions,
                    CachePolicy::WriteBack,
                ) by {
                    assert(s1.spec_page_mappable(m1, 0, q, permissions, CachePolicy::WriteBack));
                    s1.lemma_page_mappable_open(m1, 0, q, permissions, CachePolicy::WriteBack);
                    space.lemma_page_mappable_open(mem@, 0, q, permissions, CachePolicy::WriteBack);
                    crate::arch::paging::lemma_index_bound(q, crate::arch::paging::level_shift(s1.spec_root().spec_config().spec_levels()[0]));
                    s1.spec_root().lemma_wf_basics(m1, a1);
                    lemma_user_root_index(s1.spec_root(), q);
                }
            }
            done = done + 1;
        }
        proof {
            assert forall|q: u64| page_start(address) <= q < page + 4096 && q % 4096 == 0 implies #[trigger] page_loaded(
                *space,
                mem@,
                allocator@,
                data@,
                address,
                q,
            ) by {
                if q < page {
                    assert(page_loaded(s1, m1, a1, data@, address, q));
                } else {
                    assert(q == page) by (nonlinear_arith)
                        requires
                            page <= q < page + 4096,
                            q % 4096 == 0,
                            page % 4096 == 0,
                    ;
                }
            }
        }
        page = page + 4096;
    }
    proof {
        reveal(segment_load_effect);
    }
    Ok(())
}

/// The segment spec of the `k`-th loadable program header of `b`.
pub open spec fn load_segment_spec(b: Seq<u8>, k: int) -> Result<(nat, nat, u64, u64, bool, bool), ElfError> {
    let (off, count, entry) = spec_parse(b)->Ok_0;
    spec_segment(b, off + load_indices(b, off as int, count)[k] * 56)
}

/// The `k`-th loadable segment of `b`, if it is valid and not empty, is
/// loaded into `space`.
pub open spec fn segment_done(space: AddressSpace, mem: Seq<u64>, frames: Seq<FrameState>, b: Seq<u8>, k: int) -> bool {
    match load_segment_spec(b, k) {
        Ok((start, end, address, memory_size, w, x)) => memory_size > 0 ==> segment_loaded(
            space,
            mem,
            frames,
            b.subrange(start as int, end as int),
            address,
            memory_size,
        ),
        Err(_) => true,
    }
}

/// The number of loadable program headers of `b`.
pub open spec fn load_segment_count(b: Seq<u8>) -> nat {
    let (off, count, entry) = spec_parse(b)->Ok_0;
    load_indices(b, off as int, count).len()
}

/// The `k`-th loadable segment of `b` is valid and ends at or below the
/// end of the user half.
pub open spec fn segment_placeable(b: Seq<u8>, k: int) -> bool {
    load_segment_spec(b, k) matches Ok((start, end, address, memory_size, w, x)) && address + memory_size <= USER_SPACE_END
}

/// Some non-empty executable loadable segment of `b` holds its entry point.
pub open spec fn entry_executable(b: Seq<u8>) -> bool {
    let entry = spec_parse(b)->Ok_0.2;
    exists|k: int|
        0 <= k < load_segment_count(b) && (#[trigger] load_segment_spec(b, k) matches Ok((start, end, address, memory_size, w, x))
            && x && memory_size > 0 && address <= entry < address + memory_size)
}

/// A loadable segment's pages: user pages, writable and executable as the
/// segment says.
pub open spec fn segment_permissions(writable: bool, executable: bool) -> PagePermissions {
    PagePermissions { writable, executable, user_accessible: true }
}

/// The pages that loadable segment `k` of `b` takes.
pub open spec fn elf_segment_pages(b: Seq<u8>, k: int) -> nat {
    match load_segment_spec(b, k) {
        Ok((start, end, address, memory_size, w, x)) => if memory_size > 0 {
            pages_between(page_start(address), (address + memory_size) as u64)
        } else {
            0
        },
        Err(_) => 0,
    }
}

/// The pages that the loadable segments of `b` from `k` on take.
pub open spec fn elf_pages_from(b: Seq<u8>, k: int) -> nat
    decreases load_segment_count(b) - k,
{
    if k < 0 || k >= load_segment_count(b) {
        0
    } else {
        elf_segment_pages(b, k) + elf_pages_from(b, k + 1)
    }
}

/// Every page of loadable segment `k` of `b` could be mapped in `space` now.
pub open spec fn elf_segment_mappable(space: AddressSpace, mem: Seq<u64>, b: Seq<u8>, k: int) -> bool {
    match load_segment_spec(b, k) {
        Ok((start, end, address, memory_size, w, x)) => memory_size > 0 ==> forall|q: u64|
            page_start(address) <= q < address + memory_size && q % 4096 == 0 ==> #[trigger] space.spec_page_mappable(
                mem,
                0,
                q,
                segment_permissions(w, x),
                CachePolicy::WriteBack,
            ),
        Err(_) => true,
    }
}

/// Loadable segment `k` of `b`, if it takes memory, lies at `address` and
/// takes `memory_size` bytes.
pub open spec fn segment_at(b: Seq<u8>, k: int, address: u64, memory_size: u64) -> bool {
    match load_segment_spec(b, k) {
        Ok((start, end, a, m, w, x)) => (m == 0 && address == 0 && memory_size == 0) || (m > 0 && a == address && m == memory_size),
        Err(_) => true,
    }
}

/// Loadable segment `k` of `b`, if it takes any memory, can be loaded into
/// `space`.
#[verifier::opaque]
pub open spec fn elf_segment_ready(space: AddressSpace, mem: Seq<u64>, frames: Seq<FrameState>, direct_map: DirectMap, b: Seq<u8>, k: int) -> bool {
    match load_segment_spec(b, k) {
        Ok((start, end, address, memory_size, w, x)) => memory_size > 0 ==> segment_load_ready(
            space,
            mem,
            frames,
            direct_map,
            address,
            memory_size,
            segment_permissions(w, x),
        ),
        Err(_) => true,
    }
}

/// Loadable segments `k1` and `k2` of `b` share no page.
pub open spec fn elf_segments_apart(b: Seq<u8>, k1: int, k2: int) -> bool {
    match (load_segment_spec(b, k1), load_segment_spec(b, k2)) {
        (Ok((s1, e1, a1, m1, w1, x1)), Ok((s2, e2, a2, m2, w2, x2))) => m1 == 0 || m2 == 0 || a1 + m1 <= page_start(a2) || a2 + m2
            <= page_start(a1),
        _ => true,
    }
}

/// [`load_elf`] succeeds on these: `b` parses, its entry lies in an
/// executable segment, every segment fits below the end of the user half,
/// no two segments share a page, every segment page could be mapped now, and
/// enough frames are free, reachable through both direct maps, for the
/// pages and every table they might need.
#[verifier::opaque]
pub open spec fn spec_elf_loadable(space: AddressSpace, mem: Seq<u64>, frames: Seq<FrameState>, direct_map: DirectMap, b: Seq<u8>) -> bool {
    &&& spec_parse(b) is Ok
    &&& entry_executable(b)
    &&& forall|k: int| 0 <= k < load_segment_count(b) ==> #[trigger] segment_placeable(b, k)
    &&& forall|k: int| 0 <= k < load_segment_count(b) ==> #[trigger] elf_segment_mappable(space, mem, b, k)
    &&& forall|k1: int, k2: int| 0 <= k1 < k2 < load_segment_count(b) ==> #[trigger] elf_segments_apart(b, k1, k2)
    &&& count_state(frames, FrameState::Free) >= elf_pages_from(b, 0) * (space.spec_root().spec_config().spec_levels().len() + 1)
    &&& frames.len() * 4096 <= space.spec_root().spec_config().spec_limit()
    &&& frames.len() * 4096 + space.spec_root().spec_direct_map().spec_offset() <= u64::MAX + 1
    &&& frames.len() * 4096 + direct_map.spec_offset() <= u64::MAX + 1
}

/// Once segment `k` is loaded (or skipped), the segments after it can still
/// be loaded: loading it touched no page of theirs and cost no more frames
/// than its pages allow.
#[verifier::rlimit(100)]
#[verifier::spinoff_prover]
proof fn lemma_elf_segment_done(
    os: AddressSpace,
    om: Seq<u64>,
    oa: Seq<FrameState>,
    direct_map: DirectMap,
    s0: AddressSpace,
    m0: Seq<u64>,
    a0: Seq<FrameState>,
    s1: AddressSpace,
    m1: Seq<u64>,
    a1: Seq<FrameState>,
    b: Seq<u8>,
    k: int,
    address: u64,
    memory_size: u64,
)
    requires
        s0.wf(m0, a0),
        s1.spec_kind() == s0.spec_kind(),
        s1.spec_root().spec_config() == s0.spec_root().spec_config(),
        s1.spec_root().spec_root() == s0.spec_root().spec_root(),
        s1.spec_root().spec_direct_map() == s0.spec_root().spec_direct_map(),
        0 <= k < load_segment_count(b),
        elf_rest_ready(s0, m0, a0, b, k),
        spec_elf_loadable(os, om, oa, direct_map, b),
        segment_at(b, k, address, memory_size),
        address + memory_size <= u64::MAX,
        segment_load_effect(s0, m0, a0, s1, m1, a1, address, memory_size),
    ensures
        elf_rest_ready(s1, m1, a1, b, k + 1),
{
    reveal(spec_elf_loadable);
    reveal(elf_rest_ready);
    reveal(segment_load_effect);
    let nl = s0.spec_root().spec_config().spec_levels().len();
    let p = elf_segment_pages(b, k);
    assert(segment_placeable(b, k));
    assert(p == pages_between(page_start(address), (address + memory_size) as u64));
    let f = elf_pages_from(b, k + 1);
    assert(elf_pages_from(b, k) == p + f);
    assert((p + f) * (nl + 1) == p * (nl + 1) + f * (nl + 1)) by (nonlinear_arith);
    s0.spec_root().lemma_wf_basics(m0, a0);
    assert forall|j: int| k + 1 <= j < load_segment_count(b) implies #[trigger] elf_segment_mappable(s1, m1, b, j) by {
        assert(elf_segment_mappable(s0, m0, b, j));
        assert(segment_placeable(b, j));
        assert(elf_segments_apart(b, k, j));
        if let Ok((st, en, a, m, w, x)) = load_segment_spec(b, j) {
            if m > 0 {
                assert forall|q: u64| page_start(a) <= q < a + m && q % 4096 == 0 implies #[trigger] s1.spec_page_mappable(
                    m1,
                    0,
                    q,
                    segment_permissions(w, x),
                    CachePolicy::WriteBack,
                ) by {
                    assert(s0.spec_page_mappable(m0, 0, q, segment_permissions(w, x), CachePolicy::WriteBack));
                    s0.lemma_page_mappable_open(m0, 0, q, segment_permissions(w, x), CachePolicy::WriteBack);
                    s1.lemma_page_mappable_open(m1, 0, q, segment_permissions(w, x), CachePolicy::WriteBack);
                    crate::arch::paging::lemma_index_bound(q, crate::arch::paging::level_shift(s0.spec_root().spec_config().spec_levels()[0]));
                    if s0.spec_kind() == AddressSpaceKind::User {
                        lemma_user_root_index(s0.spec_root(), q);
                    }
                }
            }
        }
    }
}

/// The loadable segments of `b` from `k` on can each be loaded into
/// `space`, and enough frames are free for all of them.
#[verifier::opaque]
pub open spec fn elf_rest_ready(space: AddressSpace, mem: Seq<u64>, frames: Seq<FrameState>, b: Seq<u8>, k: int) -> bool {
    &&& forall|j: int| k <= j < load_segment_count(b) ==> #[trigger] elf_segment_mappable(space, mem, b, j)
    &&& count_state(frames, FrameState::Free) >= elf_pages_from(b, k) * (space.spec_root().spec_config().spec_levels().len() + 1)
}

/// A segment read from loadable header `k` of `b` that can be loaded is
/// ready for [`load_segment`] with its own address, size and rights.
proof fn lemma_segment_ready_of(
    space: AddressSpace,
    mem: Seq<u64>,
    frames: Seq<FrameState>,
    direct_map: DirectMap,
    b: Seq<u8>,
    k: int,
    seg: Segment,
)
    requires
        elf_segment_ready(space, mem, frames, direct_map, b, k),
        crate::format::elf::segment_matches(b, Ok::<Segment, ElfError>(seg), load_segment_spec(b, k)),
        seg.memory_size > 0,
    ensures
        segment_load_ready(space, mem, frames, direct_map, seg.address, seg.memory_size, segment_permissions(seg.writable, seg.executable)),
{
    reveal(elf_segment_ready);
}

/// Where [`load_elf`] succeeds, every segment can be loaded into the space
/// it starts from, and the entry point lies in an executable segment.
proof fn lemma_elf_start(space: AddressSpace, mem: Seq<u64>, frames: Seq<FrameState>, direct_map: DirectMap, b: Seq<u8>)
    requires
        spec_elf_loadable(space, mem, frames, direct_map, b),
    ensures
        elf_rest_ready(space, mem, frames, b, 0),
        entry_executable(b),
        spec_parse(b) is Ok,
{
    reveal(spec_elf_loadable);
    reveal(elf_rest_ready);
}

/// Where [`load_elf`] succeeds, segment `k` fits, and when its pages can
/// still be mapped and frames remain for it and those after it, it can be
/// loaded.
proof fn lemma_elf_step(
    os: AddressSpace,
    om: Seq<u64>,
    oa: Seq<FrameState>,
    direct_map: DirectMap,
    b: Seq<u8>,
    s1: AddressSpace,
    m1: Seq<u64>,
    a1: Seq<FrameState>,
    k: int,
)
    requires
        spec_elf_loadable(os, om, oa, direct_map, b),
        s1.spec_root().spec_config() == os.spec_root().spec_config(),
        s1.spec_root().spec_direct_map() == os.spec_root().spec_direct_map(),
        a1.len() == oa.len(),
        0 <= k < load_segment_count(b),
        elf_rest_ready(s1, m1, a1, b, k),
    ensures
        segment_placeable(b, k),
        elf_segment_ready(s1, m1, a1, direct_map, b, k),
{
    reveal(spec_elf_loadable);
    reveal(elf_rest_ready);
    reveal(elf_segment_ready);
    reveal(segment_load_ready);
    let nl = os.spec_root().spec_config().spec_levels().len();
    let p = elf_segment_pages(b, k);
    assert(elf_pages_from(b, k) == p + elf_pages_from(b, k + 1));
    assert((p + elf_pages_from(b, k + 1)) * (nl + 1) >= p * (nl + 1)) by (nonlinear_arith);
    assert(elf_segment_mappable(s1, m1, b, k));
}

/// Loads the static ELF executable `bytes` into `space`: each non-empty
/// loadable segment's pages get fresh frames with the segment's bytes (zero
/// past its file data), mapped user-accessible with the segment's write and
/// execute rights. Returns the entry point. `InvalidElf` when the image is
/// not such an executable, a segment is malformed or reaches past the user
/// half, or no executable segment holds the entry point.
#[verifier::spinoff_prover]
#[verifier::rlimit(100)]
pub fn load_elf(
    bytes: &[u8],
    space: &mut AddressSpace,
    mem: &mut PhysicalMemory,
    allocator: &mut FrameAllocator,
    direct_map: DirectMap,
) -> (r: Result<VirtualAddr, ElfLoadError>)
    requires
        old(space).wf(old(mem)@, old(allocator)@),
        old(allocator).wf(),
        old(allocator).backed_by(old(mem)@),
    ensures
        final(allocator).wf(),
        final(allocator).backed_by(final(mem)@),
        final(allocator).spec_direct_map() == old(allocator).spec_direct_map(),
        final(allocator).spec_allocatable_frames() == old(allocator).spec_allocatable_frames(),
        final(allocator)@.len() == old(allocator)@.len(),
        final(space).wf(final(mem)@, final(allocator)@),
        final(space).spec_kind() == old(space).spec_kind(),
        final(space).spec_root().spec_config() == old(space).spec_root().spec_config(),
        final(space).spec_root().spec_root() == old(space).spec_root().spec_root(),
        final(space).spec_root().spec_direct_map() == old(space).spec_root().spec_direct_map(),
        final(space).spec_root().spec_root_limit() == old(space).spec_root().spec_root_limit(),
        final(mem)@.len() == old(mem)@.len(),
        forall|d: Seq<u8>, ad: u64, q: u64|
            #[trigger] page_loaded(*old(space), old(mem)@, old(allocator)@, d, ad, q) ==> page_loaded(*final(space), final(mem)@, final(allocator)@, d, ad, q),
        spec_parse(bytes@) is Err ==> r == Err::<VirtualAddr, ElfLoadError>(ElfLoadError::InvalidElf) && final(mem)@ == old(mem)@
            && final(allocator)@ == old(allocator)@,
        r matches Ok(entry) ==> {
            &&& spec_parse(bytes@) is Ok
            &&& entry.0 == spec_parse(bytes@)->Ok_0.2
            &&& entry_executable(bytes@)
            &&& forall|k: int| 0 <= k < load_segment_count(bytes@) ==> #[trigger] segment_placeable(bytes@, k)
            &&& forall|k: int| 0 <= k < load_segment_count(bytes@) ==> #[trigger] segment_done(*final(space), final(mem)@, final(allocator)@, bytes@, k)
        },
        spec_parse(bytes@) is Ok && !entry_executable(bytes@) ==> r is Err,
        spec_parse(bytes@) is Ok && (exists|k: int| 0 <= k < load_segment_count(bytes@) && !#[trigger] segment_placeable(bytes@, k))
            ==> r is Err,
        spec_elf_loadable(*old(space), old(mem)@, old(allocator)@, direct_map, bytes@) ==> r is Ok,
{
    let program = match Elf::parse(bytes) {
        Ok(p) => p,
        Err(_) => {
            proof {
                if spec_elf_loadable(*old(space), old(mem)@, old(allocator)@, direct_map, bytes@) {
                    lemma_elf_start(*old(space), old(mem)@, old(allocator)@, direct_map, bytes@);
                }
            }
            return Err(ElfLoadError::InvalidElf);
        },
    };
    proof {
        program.lemma_parsed_wf();
    }
    let segments = program.segments();
    let entry = program.entry();
    let ghost b = bytes@;
    let ghost idx = load_indices(b, program.spec_headers_offset() as int, program.spec_header_count());
    proof {
        if spec_elf_loadable(*old(space), old(mem)@, old(allocator)@, direct_map, bytes@) {
            lemma_elf_start(*old(space), old(mem)@, old(allocator)@, direct_map, bytes@);
        }
    }
    let mut executable_entry = false;
    let n = segments.len();
    let mut k: usize = 0;
    while k < n
        invariant
            space.wf(mem@, allocator@),
            allocator.wf(),
            allocator.backed_by(mem@),
            allocator.spec_direct_map() == old(allocator).spec_direct_map(),
            allocator.spec_allocatable_frames() == old(allocator).spec_allocatable_frames(),
            allocator@.len() == old(allocator)@.len(),
            space.spec_kind() == old(space).spec_kind(),
            space.spec_root().spec_config() == old(space).spec_root().spec_config(),
            space.spec_root().spec_root() == old(space).spec_root().spec_root(),
            space.spec_root().spec_direct_map() == old(space).spec_root().spec_direct_map(),
            space.spec_root().spec_root_limit() == old(space).spec_root().spec_root_limit(),
            mem@.len() == old(mem)@.len(),
            forall|d: Seq<u8>, ad: u64, q: u64|
                #[trigger] page_loaded(*old(space), old(mem)@, old(allocator)@, d, ad, q) ==> page_loaded(*space, mem@, allocator@, d, ad, q),
            n == segments@.len(),
            n == load_segment_count(b),
            b == bytes@,
            spec_parse(b) is Ok,
            entry == spec_parse(b)->Ok_0.2,
            k <= n,
            forall|j: int| 0 <= j < n ==> crate::format::elf::segment_matches(b, #[trigger] segments@[j], load_segment_spec(b, j)),
            forall|j: int| 0 <= j < k ==> #[trigger] segment_placeable(b, j),
            forall|j: int| 0 <= j < k ==> #[trigger] segment_done(*space, mem@, allocator@, b, j),
            executable_entry <==> exists|j: int|
                0 <= j < k && (#[trigger] load_segment_spec(b, j) matches Ok((start, end, address, memory_size, w, x)) && x
                    && memory_size > 0 && address <= entry < address + memory_size),
            spec_elf_loadable(*old(space), old(mem)@, old(allocator)@, direct_map, bytes@) ==> elf_rest_ready(*space, mem@, allocator@, b, k as int),
        decreases n - k,
    {
        proof {
            if spec_elf_loadable(*old(space), old(mem)@, old(allocator)@, direct_map, bytes@) {
                lemma_elf_step(*old(space), old(mem)@, old(allocator)@, direct_map, b, *space, mem@, allocator@, k as int);
            }
        }
        let segment = match &segments[k] {
            Ok(s) => s,
            Err(_) => return Err(ElfLoadError::InvalidElf),
        };
        let end = match segment.address.checked_add(segment.memory_size) {
            Some(e) => e,
            None => return Err(ElfLoadError::InvalidElf),
        };
        if end > USER_SPACE_END {
            return Err(ElfLoadError::InvalidElf);
        }
        if segment.memory_size != 0 {
            if segment.executable && segment.address <= entry && entry < end {
                executable_entry = true;
            }
            let ghost s1 = *space;
            let ghost m1 = mem@;
            let ghost a1 = allocator@;
            let permissions = PagePermissions::new(segment.writable, segment.executable, true);
            proof {
                if spec_elf_loadable(*old(space), old(mem)@, old(allocator)@, direct_map, bytes@) {
                    assert(permissions == segment_permissions(segment.writable, segment.executable));
                    lemma_segment_ready_of(s1, m1, a1, direct_map, b, k as int, *segment);
                }
            }
            match load_segment(space, mem, allocator, direct_map, segment.data, segment.address, segment.memory_size, permissions) {
                Ok(()) => {},
                Err(e) => return Err(e),
            }
            proof {
                if spec_elf_loadable(*old(space), old(mem)@, old(allocator)@, direct_map, bytes@) {
                    lemma_elf_segment_done(
                        *old(space),
                        old(mem)@,
                        old(allocator)@,
                        direct_map,
                        s1,
                        m1,
                        a1,
                        *space,
                        mem@,
                        allocator@,
                        b,
                        k as int,
                        segment.address,
                        segment.memory_size,
                    );
                }
            }
            proof {
                assert forall|j: int| 0 <= j < k + 1 implies #[trigger] segment_done(*space, mem@, allocator@, b, j) by {
                    if j < k && load_segment_spec(b, j) is Ok && load_segment_spec(b, j)->Ok_0.3 > 0 {
                    let (start, end, address, memory_size, w, x) = load_segment_spec(b, j)->Ok_0;
                    assert(segment_done(s1, m1, a1, b, j));
                    assert(segment_loaded(s1, m1, a1, b.subrange(start as int, end as int), address, memory_size));
                    assert forall|q: u64| page_start(address) <= q < address + memory_size && q % 4096 == 0 implies #[trigger] page_loaded(
                        *space,
                        mem@,
                        allocator@,
                        b.subrange(start as int, end as int),
                        address,
                        q,
                    ) by {
                        assert(page_loaded(s1, m1, a1, b.subrange(start as int, end as int), address, q));
                    }
                    }
                }
            }
        } else {
            proof {
                assert forall|j: int| 0 <= j < k + 1 implies #[trigger] segment_done(*space, mem@, allocator@, b, j) by {
                }
                if spec_elf_loadable(*old(space), old(mem)@, old(allocator)@, direct_map, bytes@) {
                    lemma_no_load_effect(*space, mem@, allocator@);
                    lemma_elf_segment_done(*old(space), old(mem)@, old(allocator)@, direct_map, *space, mem@, allocator@, *space, mem@, allocator@, b, k as int, 0, 0);
                }
            }
        }
        k = k + 1;
    }
    proof {
        if spec_elf_loadable(*old(space), old(mem)@, old(allocator)@, direct_map, bytes@) {
            lemma_elf_start(*old(space), old(mem)@, old(allocator)@, direct_map, bytes@);
        }
    }
    if !executable_entry {
        return Err(ElfLoadError::InvalidElf);
    }
    Ok(VirtualAddr::new(entry))
}

} // verus!
