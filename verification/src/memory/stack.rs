//! Kernel and user stacks: pages mapped below a top address, with an
//! unmapped guard page under them.

use vstd::prelude::*;

use crate::arch::context::{frame_word, frame_word_phys, frame_words_mapped, INITIAL_FRAME_BYTES};
use crate::arch::paging::{UnmapError as PageTableUnmapError, spec_leaf_entry};
use crate::memory::phys::{frame_is_zero, mem_entry};
use crate::memory::address_space::{AddressSpace, AddressSpaceKind, MapError, USER_SPACE_END, lemma_user_root_index};
use crate::memory::frame::{FrameState, chosen_free, count_state};
use crate::memory::{CachePolicy, FrameAllocator, OwnedFrame, PagePermissions, PhysicalMemory, VirtualAddr};

verus! {

/// The number of pages of a stack.
pub const STACK_PAGES: u64 = 16;

/// The size of a stack in bytes.
pub const STACK_SIZE: u64 = 65536;

/// Where kernel stacks end.
pub const KERNEL_STACK_TOP: u64 = 0xFFFF_FFFE_0000_0000;

/// Where user stacks end.
pub const USER_STACK_TOP: u64 = 0x0000_7FFF_FFFF_F000;

/// Why a stack could not be set up.
#[derive(Clone, Copy, Debug, PartialEq, Eq, Structural)]
pub enum StackCreateError {
    AddressOverflow,
    UnalignedStackTop,
    OutOfFrames,
    GuardPageMapped,
    Mapping(MapError),
}

/// What a stack ending at `top` is refused for before any page is mapped:
/// a top that does not start a page, a stack and guard page that would
/// reach below address 0, or a guard page that is already mapped.
pub open spec fn spec_stack_refused(space: AddressSpace, mem: Seq<u64>, top: u64) -> Option<StackCreateError> {
    if top % 4096 != 0 {
        Some(StackCreateError::UnalignedStackTop)
    } else if top < STACK_SIZE + 4096 {
        Some(StackCreateError::AddressOverflow)
    } else if space.translate(mem, (top - STACK_SIZE - 4096) as u64) is Some {
        Some(StackCreateError::GuardPageMapped)
    } else {
        None
    }
}

/// Page `va` of `space` is mapped with `permissions`, write-back caching and
/// the space's global flag, to a frame that holds only zeros and was free
/// in `frames0`.
pub open spec fn stack_page_fresh(space: AddressSpace, mem: Seq<u64>, frames0: Seq<FrameState>, va: u64, permissions: PagePermissions) -> bool {
    let e = spec_leaf_entry(
        space.spec_root().spec_unmap(mem, va)->Ok_0,
        permissions,
        CachePolicy::WriteBack,
        space.spec_root().spec_config(),
        space.spec_kind() == AddressSpaceKind::Kernel,
    );
    &&& e is Ok
    &&& space.mapping_entry(mem, va) == Some(e->Ok_0)
    &&& frame_is_zero(mem, page_frame(space, mem, va) as nat)
    &&& frames0[page_frame(space, mem, va)] == FrameState::Free
}

/// The index of the frame that page `va` of `space` maps.
pub open spec fn page_frame(space: AddressSpace, mem: Seq<u64>, va: u64) -> int {
    space.spec_root().spec_unmap(mem, va)->Ok_0 as int / 4096
}

/// The `n` pages at `start` are mapped, each to an allocated frame of its
/// own that is no page table of the space.
pub open spec fn stack_pages_backed(space: AddressSpace, mem: Seq<u64>, frames: Seq<FrameState>, start: u64, n: nat) -> bool {
    &&& n == 0 || start + (n - 1) * 4096 <= u64::MAX
    &&& forall|k: nat| k < n ==> #[trigger] space.spec_root().spec_unmap(mem, (start + k * 4096) as u64) is Ok
    &&& forall|k: nat|
        k < n ==> 0 <= #[trigger] page_frame(space, mem, (start + k * 4096) as u64) < frames.len() && frames[page_frame(
            space,
            mem,
            (start + k * 4096) as u64,
        )] == FrameState::Allocated && !space.spec_root().spec_tables().contains_key(
            page_frame(space, mem, (start + k * 4096) as u64) as nat,
        )
    &&& forall|k1: nat, k2: nat|
        k1 < k2 < n ==> #[trigger] page_frame(space, mem, (start + k1 * 4096) as u64) != #[trigger] page_frame(
            space,
            mem,
            (start + k2 * 4096) as u64,
        )
}

/// The pages of a stack: the guard page, the first mapped page and the end.
pub struct StackMapping {
    guard_page: VirtualAddr,
    mapped_start: VirtualAddr,
    top: VirtualAddr,
}

impl StackMapping {
    pub closed spec fn spec_guard_page(&self) -> VirtualAddr {
        self.guard_page
    }

    pub closed spec fn spec_mapped_start(&self) -> VirtualAddr {
        self.mapped_start
    }

    pub closed spec fn spec_top(&self) -> VirtualAddr {
        self.top
    }
}

/// Page `vb` is one of the `n` pages at `start`.
pub open spec fn in_pages(vb: u64, start: u64, n: nat) -> bool {
    start <= vb < start + n * 4096 && (vb - start) % 4096 == 0
}

/// A page of the `n` at `start` is page `(vb - start) / 4096` of them.
pub proof fn lemma_page_number(vb: u64, start: u64, n: nat)
    requires
        in_pages(vb, start, n),
    ensures
        ((vb - start) / 4096) < n,
        vb == (start + ((vb - start) / 4096) as nat * 4096) as u64,
{
    let d = (vb - start) as int;
    assert(d == (d / 4096) * 4096) by (nonlinear_arith)
        requires
            d % 4096 == 0,
            d >= 0,
    ;
    assert(d / 4096 < n) by (nonlinear_arith)
        requires
            d < n * 4096,
            d >= 0,
    ;
}

/// The pages of a stack lie where the space may map them: below the
/// canonical hole in a user space.
pub open spec fn pages_placeable(space: AddressSpace, start: u64, n: nat) -> bool {
    forall|k: nat| k < n ==> space.spec_kind() == AddressSpaceKind::User ==> #[trigger] ((start + k * 4096) as u64) < USER_SPACE_END
}

/// Unmaps the `n` pages at `start`, last first, and hands each one's frame
/// back to the allocator.
fn release_pages(
    address_space: &mut AddressSpace,
    mem: &mut PhysicalMemory,
    allocator: &mut FrameAllocator,
    start: u64,
    n: u64,
)
    requires
        old(address_space).wf(old(mem)@, old(allocator)@),
        old(allocator).wf(),
        old(allocator).backed_by(old(mem)@),
        stack_pages_backed(*old(address_space), old(mem)@, old(allocator)@, start, n as nat),
        pages_placeable(*old(address_space), start, n as nat),
    ensures
        final(allocator).wf(),
        final(allocator).backed_by(final(mem)@),
        final(allocator).spec_direct_map() == old(allocator).spec_direct_map(),
        final(allocator).spec_allocatable_frames() == old(allocator).spec_allocatable_frames(),
        final(allocator)@.len() == old(allocator)@.len(),
        final(address_space).wf(final(mem)@, final(allocator)@),
        final(address_space).spec_kind() == old(address_space).spec_kind(),
        final(address_space).spec_root().spec_config() == old(address_space).spec_root().spec_config(),
        final(address_space).spec_root().spec_root() == old(address_space).spec_root().spec_root(),
        final(address_space).spec_root().spec_direct_map() == old(address_space).spec_root().spec_direct_map(),
        final(address_space).spec_root().spec_root_limit() == old(address_space).spec_root().spec_root_limit(),
        final(mem)@.len() == old(mem)@.len(),
        forall|vb: u64|
            #[trigger] old(address_space).owns_mapping(old(mem)@, vb) && !in_pages(vb, start, n as nat)
                ==> final(address_space).spec_root().spec_unmap(final(mem)@, vb) == old(address_space).spec_root().spec_unmap(old(mem)@, vb),
        forall|k: nat| k < n ==> #[trigger] final(address_space).translate(final(mem)@, (start + k * 4096) as u64) is None,
        forall|vb: u64| old(address_space).translate(old(mem)@, vb) is None ==> #[trigger] final(address_space).translate(final(mem)@, vb) is None,
        forall|t: nat|
            old(address_space).spec_root().spec_tables().contains_key(t) && !#[trigger] final(address_space).spec_root().spec_tables().contains_key(t)
                ==> final(allocator)@[t as int] == FrameState::Free,
        forall|k: nat|
            k < n ==> final(allocator)@[#[trigger] page_frame(*old(address_space), old(mem)@, (start + k * 4096) as u64)]
                == FrameState::Free,
        forall|f: int|
            0 <= f < old(allocator)@.len() && #[trigger] final(allocator)@[f] != old(allocator)@[f] ==> old(allocator)@[f]
                == FrameState::Allocated && final(allocator)@[f] == FrameState::Free,
{
    let ghost s0 = *address_space;
    let ghost a0 = allocator@;
    let ghost m0 = mem@;
    let mut j = n;
    while j > 0
        invariant
            address_space.wf(mem@, allocator@),
            allocator.wf(),
            allocator.backed_by(mem@),
            allocator.spec_direct_map() == old(allocator).spec_direct_map(),
            allocator.spec_allocatable_frames() == old(allocator).spec_allocatable_frames(),
            allocator@.len() == old(allocator)@.len(),
            address_space.spec_kind() == s0.spec_kind(),
            address_space.spec_root().spec_config() == s0.spec_root().spec_config(),
            address_space.spec_root().spec_root() == s0.spec_root().spec_root(),
            address_space.spec_root().spec_direct_map() == s0.spec_root().spec_direct_map(),
            address_space.spec_root().spec_root_limit() == s0.spec_root().spec_root_limit(),
            s0 == *old(address_space),
            m0 == old(mem)@,
            mem@.len() == m0.len(),
            s0.wf(m0, old(allocator)@),
            j <= n,
            n == 0 || start + (n - 1) * 4096 <= u64::MAX,
            pages_placeable(s0, start, n as nat),
            stack_pages_backed(*address_space, mem@, allocator@, start, j as nat),
            forall|vb: u64|
                #[trigger] s0.owns_mapping(m0, vb) && !in_pages(vb, start, n as nat) ==> address_space.spec_root().spec_unmap(
                    mem@,
                    vb,
                ) == s0.spec_root().spec_unmap(m0, vb),
            a0 == old(allocator)@,
            stack_pages_backed(s0, m0, a0, start, n as nat),
            forall|k: nat| k < j ==> #[trigger] address_space.spec_root().spec_unmap(mem@, (start + k * 4096) as u64)
                == s0.spec_root().spec_unmap(m0, (start + k * 4096) as u64),
            forall|k: nat| j <= k < n ==> #[trigger] address_space.translate(mem@, (start + k * 4096) as u64) is None,
            forall|vb: u64| s0.translate(m0, vb) is None ==> #[trigger] address_space.translate(mem@, vb) is None,
            forall|t: nat| s0.spec_root().spec_tables().contains_key(t) && !#[trigger] address_space.spec_root().spec_tables().contains_key(t)
                ==> allocator@[t as int] == FrameState::Free,
            forall|k: nat| j <= k < n ==> allocator@[#[trigger] page_frame(s0, m0, (start + k * 4096) as u64)] == FrameState::Free,
            forall|f: int| 0 <= f < a0.len() && #[trigger] allocator@[f] != a0[f] ==> a0[f] == FrameState::Allocated
                && allocator@[f] == FrameState::Free,
        decreases j,
    {
        j = j - 1;
        proof {
            assert(j * 4096 <= (n - 1) * 4096) by (nonlinear_arith)
                requires
                    j < n,
            ;
        }
        let va = start + j * 4096;
        let ghost s1 = *address_space;
        let ghost m1 = mem@;
        let ghost a1 = allocator@;
        proof {
            s1.spec_root().lemma_wf_basics(m1, a1);
            assert(va == (start + j as nat * 4096) as u64);
            assert(s1.spec_root().spec_unmap(m1, va) is Ok);
            assert(0 <= page_frame(s1, m1, va) < a1.len());
            if s0.spec_kind() == AddressSpaceKind::User {
                assert(((start + j as nat * 4096) as u64) < USER_SPACE_END);
            }
        }
        let r = address_space.unmap(mem, VirtualAddr::new(va), allocator);
        match r {
            Ok(frame) => {
                let ghost a2 = allocator@;
                proof {
                    assert(frame.spec_index() == page_frame(s1, m1, va));
                    assert(a2[page_frame(s1, m1, va)] == FrameState::Allocated);
                }
                allocator.dealloc(OwnedFrame::from_raw(frame));
                proof {
                    let a3 = allocator@;
                    let s2 = *address_space;
                    assert forall|t: nat| s0.spec_root().spec_tables().contains_key(t) && !#[trigger] s2.spec_root().spec_tables().contains_key(t)
                        implies a3[t as int] == FrameState::Free by {
                        s0.spec_root().lemma_owned_allocated(m0, a0, t);
                        if s1.spec_root().spec_tables().contains_key(t) {
                            assert(a2[t as int] == FrameState::Free);
                        } else {
                            assert(a1[t as int] == FrameState::Free);
                            if a2[t as int] != a1[t as int] {
                                assert(a1[t as int] == FrameState::Allocated);
                            }
                        }
                    }
                }
                proof {
                    let s2 = *address_space;
                    let f = page_frame(s1, m1, va);
                    assert forall|t: nat| #[trigger] s2.spec_root().spec_tables().contains_key(t) implies allocator@[t as int] == a2[t as int] by {
                        assert(t != f);
                    }
                    s2.spec_root().lemma_wf_frames_change(mem@, a2, allocator@);
                    assert forall|k: nat| k < j implies #[trigger] s2.spec_root().spec_unmap(mem@, (start + k * 4096) as u64)
                        == s1.spec_root().spec_unmap(m1, (start + k * 4096) as u64) by {
                        let vk = (start + k * 4096) as u64;
                        assert(s1.spec_root().spec_unmap(m1, vk) is Ok);
                        crate::arch::paging::lemma_index_bound(vk, crate::arch::paging::level_shift(s1.spec_root().spec_config().spec_levels()[0]));
                        if s0.spec_kind() == AddressSpaceKind::User {
                            assert(((start + k * 4096) as u64) < USER_SPACE_END);
                            lemma_user_root_index(s1.spec_root(), vk);
                        }
                        assert(vk != va);
                    }
                    assert(stack_pages_backed(s2, mem@, allocator@, start, j as nat)) by {
                        assert forall|k: nat| k < j implies #[trigger] s2.spec_root().spec_unmap(mem@, (start + k * 4096) as u64) is Ok by {
                            assert(s1.spec_root().spec_unmap(m1, (start + k * 4096) as u64) is Ok);
                        }
                        assert forall|k: nat| k < j implies 0 <= #[trigger] page_frame(s2, mem@, (start + k * 4096) as u64) < allocator@.len()
                            && allocator@[page_frame(s2, mem@, (start + k * 4096) as u64)] == FrameState::Allocated
                            && !s2.spec_root().spec_tables().contains_key(page_frame(s2, mem@, (start + k * 4096) as u64) as nat) by {
                            let vk = (start + k * 4096) as u64;
                            assert(0 <= page_frame(s1, m1, vk) < a1.len());
                            assert(page_frame(s1, m1, vk) != f);
                        }
                        assert forall|k1: nat, k2: nat| k1 < k2 < j implies #[trigger] page_frame(s2, mem@, (start + k1 * 4096) as u64)
                            != #[trigger] page_frame(s2, mem@, (start + k2 * 4096) as u64) by {
                            assert(page_frame(s1, m1, (start + k1 * 4096) as u64) != page_frame(s1, m1, (start + k2 * 4096) as u64));
                        }
                    }
                    let a3 = allocator@;
                    assert(page_frame(s1, m1, va) == page_frame(s0, m0, (start + j as nat * 4096) as u64)) by {
                        assert(s1.spec_root().spec_unmap(m1, (start + j as nat * 4096) as u64) == s0.spec_root().spec_unmap(
                            m0,
                            (start + j as nat * 4096) as u64,
                        ));
                    }
                    assert forall|k: nat| k < j implies #[trigger] s2.spec_root().spec_unmap(mem@, (start + k * 4096) as u64)
                        == s0.spec_root().spec_unmap(m0, (start + k * 4096) as u64) by {
                        assert(s2.spec_root().spec_unmap(mem@, (start + k * 4096) as u64) == s1.spec_root().spec_unmap(
                            m1,
                            (start + k * 4096) as u64,
                        ));
                    }
                    assert forall|k: nat| j <= k < n implies #[trigger] s2.translate(mem@, (start + k * 4096) as u64) is None by {
                        if k > j {
                            assert(s1.translate(m1, (start + k * 4096) as u64) is None);
                        } else {
                            assert((start + k * 4096) as u64 == va);
                        }
                    }
                    assert forall|k: nat| j <= k < n implies a3[#[trigger] page_frame(s0, m0, (start + k * 4096) as u64)] == FrameState::Free by {
                        let g = page_frame(s0, m0, (start + k * 4096) as u64);
                        assert(0 <= g < a0.len());
                        if k > j {
                            assert(a1[g] == FrameState::Free);
                            if a2[g] != a1[g] {
                                assert(a1[g] == FrameState::Allocated);
                            }
                        }
                    }
                    assert forall|g: int| 0 <= g < a0.len() && #[trigger] a3[g] != a0[g] implies a0[g] == FrameState::Allocated
                        && a3[g] == FrameState::Free by {
                        if a1[g] == a0[g] {
                            if a2[g] != a1[g] {
                                assert(a1[g] == FrameState::Allocated);
                            } else {
                                assert(g == f);
                            }
                        } else {
                            if a2[g] != a1[g] {
                                assert(a1[g] == FrameState::Allocated);
                            }
                        }
                    }
                    assert forall|vb: u64| #[trigger] s0.owns_mapping(m0, vb) && !in_pages(vb, start, n as nat) implies s2.spec_root().spec_unmap(
                        mem@,
                        vb,
                    ) == s0.spec_root().spec_unmap(m0, vb) by {
                        if vb == va {
                            assert(in_pages(vb, start, n as nat)) by (nonlinear_arith)
                                requires
                                    vb == start + j * 4096,
                                    j < n,
                            ;
                        }
                        assert(s1.spec_root().spec_unmap(m1, vb) == s0.spec_root().spec_unmap(m0, vb));
                    }
                }
            },
            Err(_) => {
                proof {
                    assert(s1.spec_root().spec_unmap(m1, va) is Ok);
                    assert(false);
                }
            },
        }
    }
}

/// A stack for a thread's kernel mode.
pub struct KernelStack {
    mapping: StackMapping,
}

impl KernelStack {
    pub closed spec fn spec_mapping(&self) -> StackMapping {
        self.mapping
    }

    pub open spec fn spec_top(&self) -> VirtualAddr {
        self.spec_mapping().spec_top()
    }

    /// The address just past the stack's last byte.
    pub fn top(&self) -> (r: VirtualAddr)
        ensures
            r == self.spec_top(),
    {
        self.mapping.top
    }
}

/// A stack for a thread's user mode.
pub struct UserStack {
    mapping: StackMapping,
}

impl UserStack {
    pub closed spec fn spec_mapping(&self) -> StackMapping {
        self.mapping
    }

    pub open spec fn spec_top(&self) -> VirtualAddr {
        self.spec_mapping().spec_top()
    }

    /// The address just past the stack's last byte.
    pub fn top(&self) -> (r: VirtualAddr)
        ensures
            r == self.spec_top(),
    {
        self.mapping.top
    }
}

/// The stack pages survive an operation that keeps their mappings, keeps
/// their frames allocated and makes none of them a page table.
pub proof fn lemma_backed_kept(
    s1: AddressSpace,
    m1: Seq<u64>,
    a1: Seq<FrameState>,
    s2: AddressSpace,
    m2: Seq<u64>,
    a2: Seq<FrameState>,
    start: u64,
    n: nat,
)
    requires
        stack_pages_backed(s1, m1, a1, start, n),
        a2.len() == a1.len(),
        forall|k: nat| k < n ==> #[trigger] s2.spec_root().spec_unmap(m2, (start + k * 4096) as u64) == s1.spec_root().spec_unmap(
            m1,
            (start + k * 4096) as u64,
        ),
        forall|k: nat|
            k < n ==> a2[#[trigger] page_frame(s1, m1, (start + k * 4096) as u64)] == FrameState::Allocated
                && !s2.spec_root().spec_tables().contains_key(page_frame(s1, m1, (start + k * 4096) as u64) as nat),
    ensures
        stack_pages_backed(s2, m2, a2, start, n),
{
    assert forall|k: nat| k < n implies #[trigger] s2.spec_root().spec_unmap(m2, (start + k * 4096) as u64) is Ok by {
        assert(s1.spec_root().spec_unmap(m1, (start + k * 4096) as u64) is Ok);
    }
    assert forall|k: nat| k < n implies 0 <= #[trigger] page_frame(s2, m2, (start + k * 4096) as u64) < a2.len() && a2[page_frame(
        s2,
        m2,
        (start + k * 4096) as u64,
    )] == FrameState::Allocated && !s2.spec_root().spec_tables().contains_key(page_frame(s2, m2, (start + k * 4096) as u64) as nat) by {
        let vk = (start + k * 4096) as u64;
        assert(s2.spec_root().spec_unmap(m2, vk) == s1.spec_root().spec_unmap(m1, vk));
        assert(0 <= page_frame(s1, m1, vk) < a1.len());
        assert(a2[page_frame(s1, m1, vk)] == FrameState::Allocated);
        assert(page_frame(s2, m2, vk) == page_frame(s1, m1, vk));
    }
    assert forall|k1: nat, k2: nat| k1 < k2 < n implies #[trigger] page_frame(s2, m2, (start + k1 * 4096) as u64) != #[trigger] page_frame(
        s2,
        m2,
        (start + k2 * 4096) as u64,
    ) by {
        assert(s2.spec_root().spec_unmap(m2, (start + k1 * 4096) as u64) == s1.spec_root().spec_unmap(m1, (start + k1 * 4096) as u64));
        assert(s2.spec_root().spec_unmap(m2, (start + k2 * 4096) as u64) == s1.spec_root().spec_unmap(m1, (start + k2 * 4096) as u64));
        assert(page_frame(s1, m1, (start + k1 * 4096) as u64) != page_frame(s1, m1, (start + k2 * 4096) as u64));
    }
}

/// Each stack page is a page the space owns.
pub proof fn lemma_stack_pages_owned(space: AddressSpace, mem: Seq<u64>, frames: Seq<FrameState>, start: u64, n: nat)
    requires
        space.wf(mem, frames),
        stack_pages_backed(space, mem, frames, start, n),
        pages_placeable(space, start, n),
    ensures
        forall|k: nat| k < n ==> #[trigger] space.owns_mapping(mem, (start + k * 4096) as u64),
{
    assert forall|k: nat| k < n implies #[trigger] space.owns_mapping(mem, (start + k * 4096) as u64) by {
        let vk = (start + k * 4096) as u64;
        assert(space.spec_root().spec_unmap(mem, vk) is Ok);
        space.spec_root().lemma_wf_basics(mem, frames);
        crate::arch::paging::lemma_index_bound(vk, crate::arch::paging::level_shift(space.spec_root().spec_config().spec_levels()[0]));
        if space.spec_kind() == AddressSpaceKind::User {
            assert(((start + k * 4096) as u64) < USER_SPACE_END);
            lemma_user_root_index(space.spec_root(), vk);
        }
    }
}

/// Every frame that differs from `a0` and is no page table of `s` is the
/// frame of one of the first `n` stack pages at `start`.
pub open spec fn changes_are_tables_or_pages(s: AddressSpace, mem: Seq<u64>, a: Seq<FrameState>, a0: Seq<FrameState>, start: u64, n: nat) -> bool {
    forall|f: int|
        0 <= f < a0.len() && #[trigger] a[f] != a0[f] && !s.spec_root().spec_tables().contains_key(f as nat) ==> exists|k: nat|
            k < n && #[trigger] page_frame(s, mem, (start + k * 4096) as u64) == f
}

/// One more stack page mapped: the frames that changed since `a0` are still
/// page tables or stack frames.
proof fn lemma_changes_step(
    s1: AddressSpace,
    m1: Seq<u64>,
    a1: Seq<FrameState>,
    s3: AddressSpace,
    m3: Seq<u64>,
    a3: Seq<FrameState>,
    a0: Seq<FrameState>,
    start: u64,
    n: nat,
    fi: int,
)
    requires
        changes_are_tables_or_pages(s1, m1, a1, a0, start, n),
        a1.len() == a0.len(),
        a3.len() == a0.len(),
        forall|f: int| 0 <= f < a0.len() && #[trigger] a3[f] != a1[f] && f != fi ==> s3.spec_root().spec_tables().contains_key(f as nat),
        forall|t: nat| #[trigger] s1.spec_root().spec_tables().contains_key(t) ==> s3.spec_root().spec_tables().contains_key(t),
        forall|k: nat| k < n ==> #[trigger] page_frame(s3, m3, (start + k * 4096) as u64) == page_frame(s1, m1, (start + k * 4096) as u64),
        page_frame(s3, m3, (start + n * 4096) as u64) == fi,
    ensures
        changes_are_tables_or_pages(s3, m3, a3, a0, start, n + 1),
{
    assert forall|f: int|
        0 <= f < a0.len() && #[trigger] a3[f] != a0[f] && !s3.spec_root().spec_tables().contains_key(f as nat) implies exists|k: nat|
        k < n + 1 && #[trigger] page_frame(s3, m3, (start + k * 4096) as u64) == f by {
        if a3[f] != a1[f] {
            assert(f == fi);
            assert(page_frame(s3, m3, (start + n * 4096) as u64) == f);
        } else {
            assert(!s1.spec_root().spec_tables().contains_key(f as nat));
            let k = choose|k: nat| k < n && #[trigger] page_frame(s1, m1, (start + k * 4096) as u64) == f;
            assert(page_frame(s3, m3, (start + k * 4096) as u64) == f);
        }
    }
}

/// After the pages mapped so far are taken down again, every frame that
/// went from free to taken since `a0` is a page table of the space.
proof fn lemma_rolled_back(
    sr: AddressSpace,
    mr: Seq<u64>,
    ar: Seq<FrameState>,
    sf: AddressSpace,
    af: Seq<FrameState>,
    a0: Seq<FrameState>,
    start: u64,
    n: nat,
)
    requires
        changes_are_tables_or_pages(sr, mr, ar, a0, start, n),
        ar.len() == a0.len(),
        af.len() == a0.len(),
        forall|f: int| 0 <= f < ar.len() && #[trigger] af[f] != ar[f] ==> af[f] == FrameState::Free,
        forall|k: nat| k < n ==> af[#[trigger] page_frame(sr, mr, (start + k * 4096) as u64)] == FrameState::Free,
        forall|t: nat|
            sr.spec_root().spec_tables().contains_key(t) && !#[trigger] sf.spec_root().spec_tables().contains_key(t) ==> af[t as int]
                == FrameState::Free,
    ensures
        forall|f: int|
            0 <= f < a0.len() && #[trigger] af[f] != a0[f] && a0[f] == FrameState::Free ==> sf.spec_root().spec_tables().contains_key(
                f as nat,
            ),
{
    assert forall|f: int|
        0 <= f < a0.len() && #[trigger] af[f] != a0[f] && a0[f] == FrameState::Free implies sf.spec_root().spec_tables().contains_key(
        f as nat,
    ) by {
        assert(af[f] == ar[f]);
        if !sr.spec_root().spec_tables().contains_key(f as nat) {
            let k = choose|k: nat| k < n && #[trigger] page_frame(sr, mr, (start + k * 4096) as u64) == f;
            assert(af[page_frame(sr, mr, (start + k * 4096) as u64)] == FrameState::Free);
        }
    }
}

/// [`StackMapping::allocate`] succeeds on these: the stack is not refused,
/// each of its pages could be mapped now (whatever frame it gets), and
/// enough frames are free for the pages and every table they might need.
pub open spec fn spec_stack_mappable(space: AddressSpace, mem: Seq<u64>, frames: Seq<FrameState>, top: u64, permissions: PagePermissions) -> bool {
    let start = (top - STACK_SIZE) as u64;
    let n = space.spec_root().spec_config().spec_levels().len();
    &&& spec_stack_refused(space, mem, top) is None
    &&& forall|k: nat| k < 16 ==> #[trigger] space.spec_page_mappable(mem, 0, (start + k * 4096) as u64, permissions, CachePolicy::WriteBack)
    &&& count_state(frames, FrameState::Free) >= 16 * (n + 1)
    &&& frames.len() * 4096 <= space.spec_root().spec_config().spec_limit()
    &&& frames.len() * 4096 + space.spec_root().spec_direct_map().spec_offset() <= u64::MAX + 1
}

/// A kernel stack's pages: writable, not executable, kernel only.
pub open spec fn kernel_stack_permissions() -> PagePermissions {
    PagePermissions { writable: true, executable: false, user_accessible: false }
}

/// A user stack's pages: writable, not executable, reachable from user mode.
pub open spec fn user_stack_permissions() -> PagePermissions {
    PagePermissions { writable: true, executable: false, user_accessible: true }
}

/// Taking a free frame for stack page `mapped` keeps the pages still to
/// come mappable, costs one free frame, and the page can then be mapped to it.
proof fn lemma_stack_frame_step(
    s1: AddressSpace,
    m1: Seq<u64>,
    a1: Seq<FrameState>,
    m2: Seq<u64>,
    a2: Seq<FrameState>,
    fi: int,
    start: u64,
    mapped: nat,
    permissions: PagePermissions,
)
    requires
        s1.wf(m1, a1),
        0 <= fi < a1.len(),
        a1[fi] == FrameState::Free,
        a2 == a1.update(fi, FrameState::Allocated),
        m2.len() == m1.len(),
        forall|w: int| 0 <= w < m1.len() && !(fi * 512 <= w < fi * 512 + 512) ==> #[trigger] m2[w] == m1[w],
        mapped < 16,
        start % 4096 == 0,
        start + 16 * 4096 <= u64::MAX,
        forall|i: nat| mapped <= i < 16 ==> #[trigger] s1.spec_page_mappable(m1, 0, (start + i * 4096) as u64, permissions, CachePolicy::WriteBack),
        count_state(a1, FrameState::Free) >= (16 - mapped) * (s1.spec_root().spec_config().spec_levels().len() + 1),
        a1.len() * 4096 <= s1.spec_root().spec_config().spec_limit(),
        a1.len() * 4096 + s1.spec_root().spec_direct_map().spec_offset() <= u64::MAX + 1,
    ensures
        forall|i: nat| mapped <= i < 16 ==> #[trigger] s1.spec_page_mappable(m2, 0, (start + i * 4096) as u64, permissions, CachePolicy::WriteBack),
        count_state(a2, FrameState::Free) + 1 == count_state(a1, FrameState::Free),
        s1.spec_map_succeeds(m2, a2, (fi * 4096) as u64, (start + mapped * 4096) as u64, permissions, CachePolicy::WriteBack),
{
    let n = s1.spec_root().spec_config().spec_levels().len();
    crate::memory::frame::lemma_count_update(a1, fi, FrameState::Allocated, FrameState::Free);
    s1.lemma_take_free_frame(m1, m2, a1, a2, fi);
    s1.spec_root().lemma_wf_basics(m1, a1);
    assert forall|i: nat| mapped <= i < 16 implies #[trigger] s1.spec_page_mappable(m2, 0, (start + i * 4096) as u64, permissions, CachePolicy::WriteBack) by {
        let vi = (start + i * 4096) as u64;
        s1.lemma_page_mappable_open(m1, 0, vi, permissions, CachePolicy::WriteBack);
        s1.lemma_page_mappable_open(m2, 0, vi, permissions, CachePolicy::WriteBack);
        crate::arch::paging::lemma_index_bound(vi, crate::arch::paging::level_shift(s1.spec_root().spec_config().spec_levels()[0]));
        if s1.spec_kind() == AddressSpaceKind::User {
            lemma_user_root_index(s1.spec_root(), vi);
        }
    }
    let va = (start + mapped * 4096) as u64;
    let pa = (fi * 4096) as u64;
    assert(s1.spec_page_mappable(m2, 0, va, permissions, CachePolicy::WriteBack));
    s1.lemma_page_mappable_open(m2, 0, va, permissions, CachePolicy::WriteBack);
    s1.lemma_page_mappable_open(m2, pa, va, permissions, CachePolicy::WriteBack);
    assert(fi * 4096 < s1.spec_root().spec_config().spec_limit()) by (nonlinear_arith)
        requires
            0 <= fi < a1.len(),
            a1.len() * 4096 <= s1.spec_root().spec_config().spec_limit(),
    ;
    assert(pa % 4096 == 0) by (nonlinear_arith)
        requires
            0 <= fi,
            fi * 4096 <= u64::MAX,
            pa == fi * 4096,
    ;
    assert(s1.spec_page_mappable(m2, pa, va, permissions, CachePolicy::WriteBack));
    s1.spec_root().lemma_missing_tables_bound(m2, va);
    assert((16 - mapped) * (n + 1) >= n + 1) by (nonlinear_arith)
        requires
            mapped < 16,
    ;
}

/// Mapping stack page `mapped` keeps the pages still to come mappable and
/// leaves enough free frames for them.
proof fn lemma_stack_map_step(
    s1: AddressSpace,
    m2: Seq<u64>,
    a2: Seq<FrameState>,
    s3: AddressSpace,
    m3: Seq<u64>,
    a3: Seq<FrameState>,
    start: u64,
    mapped: nat,
    permissions: PagePermissions,
)
    requires
        s1.wf(m2, a2),
        s3.spec_kind() == s1.spec_kind(),
        s3.spec_root().spec_config() == s1.spec_root().spec_config(),
        s3.spec_root().spec_root() == s1.spec_root().spec_root(),
        s3.spec_root().spec_direct_map() == s1.spec_root().spec_direct_map(),
        mapped < 16,
        start % 4096 == 0,
        start + 16 * 4096 <= u64::MAX,
        forall|i: nat| mapped <= i < 16 ==> #[trigger] s1.spec_page_mappable(m2, 0, (start + i * 4096) as u64, permissions, CachePolicy::WriteBack),
        count_state(a2, FrameState::Free) + 1 >= (16 - mapped) * (s1.spec_root().spec_config().spec_levels().len() + 1),
        count_state(a3, FrameState::Free) + s1.spec_root().spec_missing_tables(m2, (start + mapped * 4096) as u64) == count_state(a2, FrameState::Free),
        forall|vb: u64|
            vb != (start + mapped * 4096) as u64 && s1.spec_root().root_index(vb) < s1.spec_root().spec_root_limit() && #[trigger] s1.spec_root().spec_page_open(m2, vb)
                ==> s3.spec_root().spec_page_open(m3, vb),
    ensures
        forall|i: nat| mapped + 1 <= i < 16 ==> #[trigger] s3.spec_page_mappable(m3, 0, (start + i * 4096) as u64, permissions, CachePolicy::WriteBack),
        count_state(a3, FrameState::Free) >= (16 - (mapped + 1)) * (s1.spec_root().spec_config().spec_levels().len() + 1),
{
    let n = s1.spec_root().spec_config().spec_levels().len();
    s1.spec_root().lemma_wf_basics(m2, a2);
    s1.spec_root().lemma_missing_tables_bound(m2, (start + mapped * 4096) as u64);
    assert((16 - mapped) * (n + 1) == (16 - (mapped + 1)) * (n + 1) + n + 1) by (nonlinear_arith);
    assert forall|i: nat| mapped + 1 <= i < 16 implies #[trigger] s3.spec_page_mappable(m3, 0, (start + i * 4096) as u64, permissions, CachePolicy::WriteBack) by {
        let vi = (start + i * 4096) as u64;
        assert(s1.spec_page_mappable(m2, 0, vi, permissions, CachePolicy::WriteBack));
        s1.lemma_page_mappable_open(m2, 0, vi, permissions, CachePolicy::WriteBack);
        s3.lemma_page_mappable_open(m3, 0, vi, permissions, CachePolicy::WriteBack);
        crate::arch::paging::lemma_index_bound(vi, crate::arch::paging::level_shift(s1.spec_root().spec_config().spec_levels()[0]));
        if s1.spec_kind() == AddressSpaceKind::User {
            lemma_user_root_index(s1.spec_root(), vi);
        }
        assert(vi != (start + mapped * 4096) as u64);
    }
}

impl StackMapping {
    /// Maps [`STACK_PAGES`] fresh zeroed frames just below `top` and leaves
    /// the page under them unmapped as a guard. If a frame cannot be had or
    /// a page cannot be mapped, the pages mapped so far are unmapped again
    /// and their frames returned.
    #[verifier::rlimit(100)]
    #[verifier::spinoff_prover]
    pub fn allocate(
        address_space: &mut AddressSpace,
        mem: &mut PhysicalMemory,
        allocator: &mut FrameAllocator,
        top: VirtualAddr,
        permissions: PagePermissions,
    ) -> (r: Result<Self, StackCreateError>)
        requires
            old(address_space).wf(old(mem)@, old(allocator)@),
            old(allocator).wf(),
            old(allocator).backed_by(old(mem)@),
        ensures
            final(allocator).wf(),
            final(allocator).backed_by(final(mem)@),
            final(allocator).spec_direct_map() == old(allocator).spec_direct_map(),
            final(allocator).spec_allocatable_frames() == old(allocator).spec_allocatable_frames(),
            final(allocator)@.len() == old(allocator)@.len(),
            final(address_space).wf(final(mem)@, final(allocator)@),
            final(address_space).spec_kind() == old(address_space).spec_kind(),
            final(address_space).spec_root().spec_config() == old(address_space).spec_root().spec_config(),
            final(address_space).spec_root().spec_root() == old(address_space).spec_root().spec_root(),
            final(address_space).spec_root().spec_direct_map() == old(address_space).spec_root().spec_direct_map(),
            final(address_space).spec_root().spec_root_limit() == old(address_space).spec_root().spec_root_limit(),
            final(mem)@.len() == old(mem)@.len(),
            forall|vb: u64| #[trigger] old(address_space).owns_mapping(old(mem)@, vb) ==> final(address_space).spec_root().spec_unmap(
                final(mem)@,
                vb,
            ) == old(address_space).spec_root().spec_unmap(old(mem)@, vb),
            match spec_stack_refused(*old(address_space), old(mem)@, top.0) {
                Some(e) => r == Err::<Self, StackCreateError>(e) && *final(address_space) == *old(address_space) && final(mem)@
                    == old(mem)@ && final(allocator)@ == old(allocator)@,
                None => match r {
                    Ok(m) => {
                        &&& m.spec_top() == top
                        &&& m.spec_mapped_start().0 == top.0 - STACK_SIZE
                        &&& m.spec_guard_page().0 == top.0 - STACK_SIZE - 4096
                        &&& final(address_space).translate(final(mem)@, m.spec_guard_page().0) is None
                        &&& stack_pages_backed(*final(address_space), final(mem)@, final(allocator)@, m.spec_mapped_start().0, 16)
                        &&& pages_placeable(*final(address_space), m.spec_mapped_start().0, 16)
                        &&& forall|k: nat| k < 16 ==> #[trigger] stack_page_fresh(
                            *final(address_space),
                            final(mem)@,
                            old(allocator)@,
                            (m.spec_mapped_start().0 + k * 4096) as u64,
                            permissions,
                        )
                    },
                    Err(e) => {
                        &&& e == StackCreateError::OutOfFrames || e is Mapping
                        &&& forall|f: int|
                            0 <= f < old(allocator)@.len() && #[trigger] final(allocator)@[f] != old(allocator)@[f] && old(allocator)@[f]
                                == FrameState::Free ==> final(address_space).spec_root().spec_tables().contains_key(f as nat)
                    },
                },
            },
            spec_stack_mappable(*old(address_space), old(mem)@, old(allocator)@, top.0, permissions) ==> r is Ok,
    {
        if top.as_usize() % 4096 != 0 {
            return Err(StackCreateError::UnalignedStackTop);
        }
        let mapped_start = match top.as_usize().checked_sub(STACK_SIZE) {
            Some(v) => v,
            None => return Err(StackCreateError::AddressOverflow),
        };
        let guard_page = match mapped_start.checked_sub(4096) {
            Some(v) => v,
            None => return Err(StackCreateError::AddressOverflow),
        };
        proof {
            address_space.spec_root().lemma_wf_basics(mem@, allocator@);
        }
        if address_space.to_physical(mem, VirtualAddr::new(guard_page)).is_some() {
            return Err(StackCreateError::GuardPageMapped);
        }
        let ghost s0 = *address_space;
        let ghost m0 = mem@;
        proof {
            crate::arch::paging::lemma_index_bound(guard_page, crate::arch::paging::level_shift(s0.spec_root().spec_config().spec_levels()[0]));
            if s0.spec_kind() == AddressSpaceKind::User && guard_page < USER_SPACE_END {
                lemma_user_root_index(s0.spec_root(), guard_page);
            }
        }
        let mut mapped: u64 = 0;
        while mapped < STACK_PAGES
            invariant
                address_space.wf(mem@, allocator@),
                allocator.wf(),
                allocator.backed_by(mem@),
                allocator.spec_direct_map() == old(allocator).spec_direct_map(),
                allocator.spec_allocatable_frames() == old(allocator).spec_allocatable_frames(),
                allocator@.len() == old(allocator)@.len(),
                address_space.spec_kind() == s0.spec_kind(),
                address_space.spec_root().spec_config() == s0.spec_root().spec_config(),
                address_space.spec_root().spec_root() == s0.spec_root().spec_root(),
                address_space.spec_root().spec_direct_map() == s0.spec_root().spec_direct_map(),
                address_space.spec_root().spec_root_limit() == s0.spec_root().spec_root_limit(),
                s0 == *old(address_space),
                m0 == old(mem)@,
                mem@.len() == m0.len(),
                s0.wf(m0, old(allocator)@),
                spec_stack_refused(s0, m0, top.0) is None,
                mapped_start == top.0 - STACK_SIZE,
                mapped_start % 4096 == 0,
                mapped_start >= 4096,
                mapped_start + STACK_SIZE == top.0,
                mapped <= STACK_PAGES,
                stack_pages_backed(*address_space, mem@, allocator@, mapped_start, mapped as nat),
                pages_placeable(s0, mapped_start, mapped as nat),
                forall|k: nat| k < mapped ==> !#[trigger] s0.owns_mapping(m0, (mapped_start + k * 4096) as u64),
                forall|vb: u64| #[trigger] s0.owns_mapping(m0, vb) ==> address_space.spec_root().spec_unmap(mem@, vb) == s0.spec_root().spec_unmap(m0, vb),
                forall|k: nat| k < mapped ==> #[trigger] stack_page_fresh(*address_space, mem@, old(allocator)@, (mapped_start + k * 4096) as u64, permissions),
                forall|f: int| 0 <= f < old(allocator)@.len() && #[trigger] allocator@[f] != old(allocator)@[f] ==> old(allocator)@[f] == FrameState::Free,
                changes_are_tables_or_pages(*address_space, mem@, allocator@, old(allocator)@, mapped_start, mapped as nat),
                guard_page == mapped_start - 4096,
                (s0.spec_kind() == AddressSpaceKind::User ==> guard_page < USER_SPACE_END) ==> address_space.translate(mem@, guard_page) is None
                    && address_space.spec_root().root_index(guard_page) < address_space.spec_root().spec_root_limit(),
                spec_stack_mappable(s0, m0, old(allocator)@, top.0, permissions) ==> {
                    &&& forall|i: nat| mapped <= i < 16 ==> #[trigger] address_space.spec_page_mappable(
                        mem@,
                        0,
                        (mapped_start + i * 4096) as u64,
                        permissions,
                        CachePolicy::WriteBack,
                    )
                    &&& count_state(allocator@, FrameState::Free) >= (16 - mapped) * (s0.spec_root().spec_config().spec_levels().len() + 1)
                },
            decreases STACK_PAGES - mapped,
        {
            let va = mapped_start + mapped * 4096;
            let ghost s1 = *address_space;
            let ghost m1 = mem@;
            let ghost a1 = allocator@;
            proof {
                s1.spec_root().lemma_wf_basics(m1, a1);
                assert(va == (mapped_start + mapped as nat * 4096) as u64);
            }
            let frame = match allocator.alloc_zeroed(mem) {
                Some(f) => f,
                None => {
                    proof {
                        if spec_stack_mappable(s0, m0, old(allocator)@, top.0, permissions) {
                            crate::memory::frame::lemma_count_absent(a1, FrameState::Free);
                            let n = s0.spec_root().spec_config().spec_levels().len();
                            assert((16 - mapped) * (n + 1) >= 1) by (nonlinear_arith)
                                requires
                                    mapped < 16,
                            ;
                        }
                    }
                    Self::rollback(address_space, mem, allocator, mapped_start, mapped, Ghost(s0), Ghost(m0));
                    proof {
                        lemma_rolled_back(s1, m1, a1, *address_space, allocator@, old(allocator)@, mapped_start, mapped as nat);
                    }
                    return Err(StackCreateError::OutOfFrames);
                },
            };
            let ghost fi = frame.spec_frame().spec_index();
            let ghost m2 = mem@;
            let ghost a2 = allocator@;
            proof {
                crate::arch::paging::lemma_frame_start(frame.spec_frame());
                if spec_stack_mappable(s0, m0, old(allocator)@, top.0, permissions) {
                    lemma_stack_frame_step(s1, m1, a1, m2, a2, fi as int, mapped_start, mapped as nat, permissions);
                    assert(s1.spec_map_succeeds(m2, a2, frame.spec_frame().0.0, va, permissions, CachePolicy::WriteBack));
                }
                s1.lemma_take_free_frame(m1, m2, a1, a2, fi as int);
                lemma_stack_pages_owned(s1, m1, a1, mapped_start, mapped as nat);
                assert forall|k: nat| k < mapped implies #[trigger] s1.spec_root().spec_unmap(m2, (mapped_start + k * 4096) as u64)
                    == s1.spec_root().spec_unmap(m1, (mapped_start + k * 4096) as u64) by {
                    assert(s1.owns_mapping(m1, (mapped_start + k * 4096) as u64));
                }
                assert forall|k: nat| k < mapped implies a2[#[trigger] page_frame(s1, m1, (mapped_start + k * 4096) as u64)]
                    == FrameState::Allocated && !s1.spec_root().spec_tables().contains_key(
                    page_frame(s1, m1, (mapped_start + k * 4096) as u64) as nat,
                ) by {
                    let f = page_frame(s1, m1, (mapped_start + k * 4096) as u64);
                    assert(a1[f] == FrameState::Allocated);
                }
                lemma_backed_kept(s1, m1, a1, s1, m2, a2, mapped_start, mapped as nat);
                assert forall|vb: u64| #[trigger] s0.owns_mapping(m0, vb) implies s1.spec_root().spec_unmap(m2, vb) == s0.spec_root().spec_unmap(m0, vb) by {
                    assert(s1.spec_root().spec_unmap(m1, vb) == s0.spec_root().spec_unmap(m0, vb));
                    assert(s1.owns_mapping(m1, vb));
                }
                s1.spec_root().lemma_wf_basics(m2, a2);
                let r0 = s1.spec_root();
                if s1.owns_mapping(m2, va) {
                    r0.lemma_mapped_blocks_map(m2, a2, va, 0, r0.spec_root());
                }
                crate::arch::paging::lemma_index_bound(va, crate::arch::paging::level_shift(s1.spec_root().spec_config().spec_levels()[0]));
                lemma_stack_pages_owned(s1, m2, a2, mapped_start, mapped as nat);
            }
            match address_space.map(
                mem,
                frame.frame_address().start_address(),
                VirtualAddr::new(va),
                permissions,
                allocator,
                CachePolicy::WriteBack,
            ) {
                Ok(()) => {
                    proof {
                        if spec_stack_mappable(s0, m0, old(allocator)@, top.0, permissions) {
                            lemma_stack_map_step(s1, m2, a2, *address_space, mem@, allocator@, mapped_start, mapped as nat, permissions);
                        }
                    }
                    proof {
                        let s3 = *address_space;
                        let m3 = mem@;
                        let a3 = allocator@;
                        assert(!s1.owns_mapping(m2, va));
                        if s0.spec_kind() == AddressSpaceKind::User {
                            assert(va < USER_SPACE_END);
                            lemma_user_root_index(s1.spec_root(), va);
                        }
                        assert(!s0.owns_mapping(m0, va)) by {
                            if s0.owns_mapping(m0, va) {
                                assert(s1.spec_root().spec_unmap(m2, va) == s0.spec_root().spec_unmap(m0, va));
                            }
                        }
                        assert forall|k: nat| k < mapped implies #[trigger] s3.spec_root().spec_unmap(m3, (mapped_start + k * 4096) as u64)
                            == s1.spec_root().spec_unmap(m2, (mapped_start + k * 4096) as u64) by {
                            assert(s1.owns_mapping(m2, (mapped_start + k * 4096) as u64));
                            assert((mapped_start + k * 4096) as u64 != va);
                        }
                        assert forall|k: nat| k < mapped implies a3[#[trigger] page_frame(s1, m2, (mapped_start + k * 4096) as u64)]
                            == FrameState::Allocated && !s3.spec_root().spec_tables().contains_key(
                            page_frame(s1, m2, (mapped_start + k * 4096) as u64) as nat,
                        ) by {
                            let f = page_frame(s1, m2, (mapped_start + k * 4096) as u64);
                            assert(0 <= f < a2.len() && a2[f] == FrameState::Allocated);
                            assert(!s1.spec_root().spec_tables().contains_key(f as nat));
                        }
                        lemma_backed_kept(s1, m2, a2, s3, m3, a3, mapped_start, mapped as nat);
                        assert(va == (mapped_start + mapped as nat * 4096) as u64);
                        assert(s3.spec_root().spec_unmap(m3, va) == Ok::<u64, PageTableUnmapError>(frame.spec_frame().0.0));
                        assert(page_frame(s3, m3, va) == fi);
                        assert(a3[fi as int] == FrameState::Allocated);
                        assert(!s3.spec_root().spec_tables().contains_key(fi));
                        assert(stack_pages_backed(s3, m3, a3, mapped_start, mapped as nat + 1)) by {
                            assert forall|k: nat| k < mapped + 1 implies #[trigger] s3.spec_root().spec_unmap(m3, (mapped_start + k * 4096) as u64) is Ok by {
                                if k < mapped {
                                    assert(s3.spec_root().spec_unmap(m3, (mapped_start + k * 4096) as u64) is Ok);
                                }
                            }
                            assert forall|k: nat| k < mapped + 1 implies 0 <= #[trigger] page_frame(s3, m3, (mapped_start + k * 4096) as u64) < a3.len()
                                && a3[page_frame(s3, m3, (mapped_start + k * 4096) as u64)] == FrameState::Allocated
                                && !s3.spec_root().spec_tables().contains_key(page_frame(s3, m3, (mapped_start + k * 4096) as u64) as nat) by {
                                if k < mapped {
                                    assert(0 <= page_frame(s3, m3, (mapped_start + k * 4096) as u64) < a3.len());
                                }
                            }
                            assert forall|k1: nat, k2: nat| k1 < k2 < mapped + 1 implies #[trigger] page_frame(s3, m3, (mapped_start + k1 * 4096) as u64)
                                != #[trigger] page_frame(s3, m3, (mapped_start + k2 * 4096) as u64) by {
                                if k2 < mapped {
                                    assert(page_frame(s3, m3, (mapped_start + k1 * 4096) as u64) != page_frame(s3, m3, (mapped_start + k2 * 4096) as u64));
                                } else {
                                    let vk = (mapped_start + k1 * 4096) as u64;
                                    assert(s3.spec_root().spec_unmap(m3, vk) == s1.spec_root().spec_unmap(m2, vk));
                                    assert(s1.spec_root().spec_unmap(m2, vk) == s1.spec_root().spec_unmap(m1, vk));
                                    assert(a1[page_frame(s1, m1, vk)] == FrameState::Allocated);
                                }
                            }
                        }
                        assert forall|vb: u64| #[trigger] s0.owns_mapping(m0, vb) implies s3.spec_root().spec_unmap(m3, vb) == s0.spec_root().spec_unmap(m0, vb) by {
                            assert(s1.spec_root().spec_unmap(m2, vb) == s0.spec_root().spec_unmap(m0, vb));
                            assert(s1.owns_mapping(m2, vb));
                            assert(vb != va);
                        }
                        let oa = old(allocator)@;
                        assert forall|f: int| 0 <= f < oa.len() && #[trigger] a3[f] != oa[f] implies oa[f] == FrameState::Free by {
                            if a1[f] != oa[f] {
                            } else if a2[f] != a1[f] {
                                assert(f == fi);
                            } else {
                                assert(a3[f] != a2[f]);
                            }
                        }
                        assert forall|k: nat| k < mapped + 1 implies #[trigger] stack_page_fresh(s3, m3, oa, (mapped_start + k * 4096) as u64, permissions) by {
                            let vk = (mapped_start + k * 4096) as u64;
                            if k < mapped {
                                assert(stack_page_fresh(s1, m1, oa, vk, permissions));
                                assert(s1.owns_mapping(m1, vk));
                                assert(s1.mapping_entry(m2, vk) == s1.mapping_entry(m1, vk));
                                assert(s1.owns_mapping(m2, vk));
                                assert(vk != va);
                                assert(s3.mapping_entry(m3, vk) == s1.mapping_entry(m2, vk));
                                let pf = page_frame(s1, m1, vk);
                                assert(page_frame(s3, m3, vk) == pf);
                                assert(a1[pf] == FrameState::Allocated);
                                assert(pf != fi);
                                assert(!s3.spec_root().spec_tables().contains_key(pf as nat));
                                assert forall|i: nat| i < 512 implies #[trigger] mem_entry(m3, pf as nat, i) == 0 by {
                                    assert(mem_entry(m1, pf as nat, i) == 0);
                                    let w = pf * 512 + i;
                                    assert(0 <= w < m1.len()) by (nonlinear_arith)
                                        requires
                                            0 <= pf < a1.len(),
                                            a1.len() <= m1.len() / 512,
                                            i < 512,
                                            w == pf * 512 + i,
                                    ;
                                    assert(!(fi * 512 <= w < fi * 512 + 512)) by (nonlinear_arith)
                                        requires
                                            pf != fi,
                                            i < 512,
                                            w == pf * 512 + i,
                                    ;
                                    assert(w / 512 == pf) by (nonlinear_arith)
                                        requires
                                            i < 512,
                                            w == pf * 512 + i,
                                            pf >= 0,
                                    ;
                                    assert(m2[w] == m1[w]);
                                    assert(m3[w] == m2[w]);
                                }
                            } else {
                                assert(vk == va);
                                assert(page_frame(s3, m3, va) == fi);
                                assert(frame_is_zero(m2, fi));
                                assert forall|i: nat| i < 512 implies #[trigger] mem_entry(m3, fi, i) == 0 by {
                                    assert(mem_entry(m2, fi, i) == 0);
                                    let w = (fi * 512 + i) as int;
                                    assert(0 <= w < m1.len()) by (nonlinear_arith)
                                        requires
                                            fi < a1.len(),
                                            a1.len() <= m1.len() / 512,
                                            i < 512,
                                            w == fi * 512 + i,
                                    ;
                                    assert(w / 512 == fi) by (nonlinear_arith)
                                        requires
                                            i < 512,
                                            w == fi * 512 + i,
                                    ;
                                    assert(m3[w] == m2[w]);
                                }
                                assert(a1[fi as int] == FrameState::Free);
                            }
                        }
                        assert forall|k: nat| k < mapped implies #[trigger] page_frame(s3, m3, (mapped_start + k * 4096) as u64)
                            == page_frame(s1, m1, (mapped_start + k * 4096) as u64) by {
                            let vk = (mapped_start + k * 4096) as u64;
                            assert(s3.spec_root().spec_unmap(m3, vk) == s1.spec_root().spec_unmap(m2, vk));
                            assert(s1.spec_root().spec_unmap(m2, vk) == s1.spec_root().spec_unmap(m1, vk));
                        }
                        assert forall|f: int| 0 <= f < oa.len() && #[trigger] a3[f] != a1[f] && f != fi implies s3.spec_root().spec_tables().contains_key(
                            f as nat,
                        ) by {
                            assert(a2[f] == a1[f]);
                        }
                        lemma_changes_step(s1, m1, a1, s3, m3, a3, oa, mapped_start, mapped as nat, fi as int);
                    }
                    let _ = frame.into_raw();
                },
                Err(e) => {
                    let ghost m3 = mem@;
                    let ghost s3 = *address_space;
                    proof {
                        assert(allocator@ == a2);
                        assert(a2[fi as int] == FrameState::Allocated);
                    }
                    allocator.dealloc(frame);
                    proof {
                        let a4 = allocator@;
                        assert forall|t: nat| #[trigger] s3.spec_root().spec_tables().contains_key(t) implies a4[t as int] == a2[t as int] by {
                            assert(s1.spec_root().spec_tables().contains_key(t));
                        }
                        s3.spec_root().lemma_wf_frames_change(m3, a2, a4);
                        assert forall|k: nat| k < mapped implies #[trigger] s3.spec_root().spec_unmap(m3, (mapped_start + k * 4096) as u64)
                            == s1.spec_root().spec_unmap(m2, (mapped_start + k * 4096) as u64) by {
                            assert(s1.owns_mapping(m2, (mapped_start + k * 4096) as u64));
                        }
                        assert forall|k: nat| k < mapped implies a4[#[trigger] page_frame(s1, m2, (mapped_start + k * 4096) as u64)]
                            == FrameState::Allocated && !s3.spec_root().spec_tables().contains_key(
                            page_frame(s1, m2, (mapped_start + k * 4096) as u64) as nat,
                        ) by {
                            let vk = (mapped_start + k * 4096) as u64;
                            assert(s1.spec_root().spec_unmap(m2, vk) == s1.spec_root().spec_unmap(m1, vk));
                            assert(a1[page_frame(s1, m1, vk)] == FrameState::Allocated);
                            assert(page_frame(s1, m2, vk) != fi);
                        }
                        lemma_backed_kept(s1, m2, a2, s3, m3, a4, mapped_start, mapped as nat);
                        assert forall|vb: u64| #[trigger] s0.owns_mapping(m0, vb) implies s3.spec_root().spec_unmap(m3, vb) == s0.spec_root().spec_unmap(m0, vb) by {
                            assert(s1.spec_root().spec_unmap(m2, vb) == s0.spec_root().spec_unmap(m0, vb));
                            assert(s1.owns_mapping(m2, vb));
                        }
                    }
                    let ghost s4 = *address_space;
                    let ghost m4 = mem@;
                    let ghost a4 = allocator@;
                    proof {
                        assert forall|k: nat| k < mapped implies #[trigger] page_frame(s4, m4, (mapped_start + k * 4096) as u64)
                            == page_frame(s1, m1, (mapped_start + k * 4096) as u64) by {
                            let vk = (mapped_start + k * 4096) as u64;
                            assert(s1.spec_root().spec_unmap(m2, vk) == s1.spec_root().spec_unmap(m1, vk));
                        }
                        assert(a4 == a1);
                        assert(changes_are_tables_or_pages(s4, m4, a4, old(allocator)@, mapped_start, mapped as nat)) by {
                            assert forall|f: int|
                                0 <= f < a4.len() && #[trigger] a4[f] != old(allocator)@[f] && !s4.spec_root().spec_tables().contains_key(f as nat) implies exists|k: nat|
                                k < mapped && #[trigger] page_frame(s4, m4, (mapped_start + k * 4096) as u64) == f by {
                                let k = choose|k: nat| k < mapped && #[trigger] page_frame(s1, m1, (mapped_start + k * 4096) as u64) == f;
                                assert(page_frame(s4, m4, (mapped_start + k * 4096) as u64) == f);
                            }
                        }
                    }
                    Self::rollback(address_space, mem, allocator, mapped_start, mapped, Ghost(s0), Ghost(m0));
                    proof {
                        lemma_rolled_back(s4, m4, a4, *address_space, allocator@, old(allocator)@, mapped_start, mapped as nat);
                    }
                    return Err(StackCreateError::Mapping(e));
                },
            }
            mapped = mapped + 1;
        }
        proof {
            assert(s0.spec_kind() == AddressSpaceKind::User ==> ((mapped_start + 0nat * 4096) as u64) < USER_SPACE_END);
        }
        Ok(Self { guard_page: VirtualAddr::new(guard_page), mapped_start: VirtualAddr::new(mapped_start), top })
    }

    /// Unmaps the first `n` stack pages at `start` and returns their frames:
    /// pages that were not mapped before the stack was begun.
    fn rollback(
        address_space: &mut AddressSpace,
        mem: &mut PhysicalMemory,
        allocator: &mut FrameAllocator,
        start: u64,
        n: u64,
        Ghost(s0): Ghost<AddressSpace>,
        Ghost(m0): Ghost<Seq<u64>>,
    )
        requires
            old(address_space).wf(old(mem)@, old(allocator)@),
            old(allocator).wf(),
            old(allocator).backed_by(old(mem)@),
            old(address_space).spec_kind() == s0.spec_kind(),
            old(address_space).spec_root().spec_config() == s0.spec_root().spec_config(),
            old(address_space).spec_root().spec_root_limit() == s0.spec_root().spec_root_limit(),
            stack_pages_backed(*old(address_space), old(mem)@, old(allocator)@, start, n as nat),
            pages_placeable(s0, start, n as nat),
            forall|k: nat| k < n ==> !#[trigger] s0.owns_mapping(m0, (start + k * 4096) as u64),
            forall|vb: u64| #[trigger] s0.owns_mapping(m0, vb) ==> old(address_space).spec_root().spec_unmap(old(mem)@, vb)
                == s0.spec_root().spec_unmap(m0, vb),
        ensures
            final(allocator).wf(),
            final(allocator).backed_by(final(mem)@),
            final(allocator).spec_direct_map() == old(allocator).spec_direct_map(),
            final(allocator).spec_allocatable_frames() == old(allocator).spec_allocatable_frames(),
            final(allocator)@.len() == old(allocator)@.len(),
            final(address_space).wf(final(mem)@, final(allocator)@),
            final(address_space).spec_kind() == old(address_space).spec_kind(),
            final(address_space).spec_root().spec_config() == old(address_space).spec_root().spec_config(),
            final(address_space).spec_root().spec_root() == old(address_space).spec_root().spec_root(),
            final(address_space).spec_root().spec_direct_map() == old(address_space).spec_root().spec_direct_map(),
            final(address_space).spec_root().spec_root_limit() == old(address_space).spec_root().spec_root_limit(),
            final(mem)@.len() == old(mem)@.len(),
            forall|vb: u64| #[trigger] s0.owns_mapping(m0, vb) ==> final(address_space).spec_root().spec_unmap(final(mem)@, vb)
                == s0.spec_root().spec_unmap(m0, vb),
            forall|k: nat| k < n ==> #[trigger] final(address_space).translate(final(mem)@, (start + k * 4096) as u64) is None,
            forall|t: nat|
                old(address_space).spec_root().spec_tables().contains_key(t) && !#[trigger] final(address_space).spec_root().spec_tables().contains_key(t)
                    ==> final(allocator)@[t as int] == FrameState::Free,
            forall|k: nat|
                k < n ==> final(allocator)@[#[trigger] page_frame(*old(address_space), old(mem)@, (start + k * 4096) as u64)]
                    == FrameState::Free,
            forall|f: int|
                0 <= f < old(allocator)@.len() && #[trigger] final(allocator)@[f] != old(allocator)@[f] ==> old(allocator)@[f]
                    == FrameState::Allocated && final(allocator)@[f] == FrameState::Free,
    {
        let ghost s1 = *address_space;
        let ghost m1 = mem@;
        proof {
            assert forall|k: nat| k < n implies s1.spec_kind() == AddressSpaceKind::User ==> #[trigger] ((start + k * 4096) as u64)
                < USER_SPACE_END by {
                assert(s0.spec_kind() == AddressSpaceKind::User ==> ((start + k * 4096) as u64) < USER_SPACE_END);
            }
        }
        release_pages(address_space, mem, allocator, start, n);
        proof {
            assert forall|vb: u64| #[trigger] s0.owns_mapping(m0, vb) implies address_space.spec_root().spec_unmap(mem@, vb)
                == s0.spec_root().spec_unmap(m0, vb) by {
                assert(s1.owns_mapping(m1, vb));
                if in_pages(vb, start, n as nat) {
                    lemma_page_number(vb, start, n as nat);
                    let k = ((vb - start) / 4096) as nat;
                    assert(!s0.owns_mapping(m0, (start + k * 4096) as u64));
                }
            }
        }
    }
}


/// The seven words below a page-aligned `top` whose page is mapped lie in
/// that page's frame, one after the other from word 505 of it.
pub proof fn lemma_frame_words_in_top_page(space: AddressSpace, mem: Seq<u64>, frames: Seq<FrameState>, top: u64)
    requires
        space.wf(mem, frames),
        top % 4096 == 0,
        top >= 4096,
        space.spec_root().spec_unmap(mem, (top - 4096) as u64) is Ok,
        space.spec_root().spec_unmap(mem, (top - 4096) as u64)->Ok_0 / 4096 < mem.len() / 512,
    ensures
        frame_words_mapped(space, mem, top),
        space.spec_root().spec_unmap(mem, (top - 4096) as u64)->Ok_0 % 4096 == 0,
        forall|i: int|
            0 <= i < 7 ==> #[trigger] frame_word(space, mem, top, i) == space.spec_root().spec_unmap(mem, (top - 4096) as u64)->Ok_0 / 8
                + 505 + i,
{
    let page = (top - 4096) as u64;
    let root = space.spec_root();
    let p = root.spec_unmap(mem, page)->Ok_0;
    root.lemma_wf_basics(mem, frames);
    root.lemma_unmap_ok_aligned(mem, page);
    root.lemma_unmap_ok_translates(mem, page);
    assert(p + 4096 <= mem.len() * 8) by (nonlinear_arith)
        requires
            p / 4096 < mem.len() / 512,
            p % 4096 == 0,
    ;
    assert forall|i: int| 0 <= i < 7 implies (#[trigger] frame_word_phys(space, mem, top, i) matches Some(q) && q % 8 == 0 && q / 8
        < mem.len()) && frame_word(space, mem, top, i) == p / 8 + 505 + i by {
        let o = (4040 + 8 * i) as u64;
        space.lemma_to_physical_offset(mem, page, o);
        assert((page + o) as u64 == (top - INITIAL_FRAME_BYTES + 8 * i) as u64);
        assert((p + o) % 8 == 0 && (p + o) / 8 == p / 8 + 505 + i && (p + o) / 8 < mem.len()) by (nonlinear_arith)
            requires
                p % 4096 == 0,
                o == 4040 + 8 * i,
                0 <= i < 7,
                p + 4096 <= mem.len() * 8,
        ;
    }
}

impl KernelStack {
    /// A kernel stack ending at [`KERNEL_STACK_TOP`]: writable, not executable, kernel only.
    pub fn allocate(address_space: &mut AddressSpace, mem: &mut PhysicalMemory, allocator: &mut FrameAllocator) -> (r: Result<
        Self,
        StackCreateError,
    >)
        requires
            old(address_space).wf(old(mem)@, old(allocator)@),
            old(allocator).wf(),
            old(allocator).backed_by(old(mem)@),
        ensures
            final(allocator).wf(),
            final(allocator).backed_by(final(mem)@),
            final(allocator).spec_direct_map() == old(allocator).spec_direct_map(),
            final(allocator).spec_allocatable_frames() == old(allocator).spec_allocatable_frames(),
            final(allocator)@.len() == old(allocator)@.len(),
            final(address_space).wf(final(mem)@, final(allocator)@),
            final(address_space).spec_kind() == old(address_space).spec_kind(),
            final(address_space).spec_root().spec_config() == old(address_space).spec_root().spec_config(),
            final(address_space).spec_root().spec_root() == old(address_space).spec_root().spec_root(),
            final(address_space).spec_root().spec_direct_map() == old(address_space).spec_root().spec_direct_map(),
            final(address_space).spec_root().spec_root_limit() == old(address_space).spec_root().spec_root_limit(),
            final(mem)@.len() == old(mem)@.len(),
            forall|vb: u64| #[trigger] old(address_space).owns_mapping(old(mem)@, vb) ==> final(address_space).spec_root().spec_unmap(
                final(mem)@,
                vb,
            ) == old(address_space).spec_root().spec_unmap(old(mem)@, vb),
            match spec_stack_refused(*old(address_space), old(mem)@, KERNEL_STACK_TOP) {
                Some(e) => r == Err::<Self, StackCreateError>(e) && *final(address_space) == *old(address_space) && final(mem)@
                    == old(mem)@ && final(allocator)@ == old(allocator)@,
                None => match r {
                    Ok(stack) => {
                        &&& stack.spec_top().0 == KERNEL_STACK_TOP
                        &&& stack.spec_mapping().spec_mapped_start().0 == KERNEL_STACK_TOP - STACK_SIZE
                        &&& stack.spec_mapping().spec_guard_page().0 == KERNEL_STACK_TOP - STACK_SIZE - 4096
                        &&& final(address_space).translate(final(mem)@, stack.spec_mapping().spec_guard_page().0) is None
                        &&& stack_pages_backed(*final(address_space), final(mem)@, final(allocator)@, (KERNEL_STACK_TOP - STACK_SIZE) as u64, 16)
                        &&& pages_placeable(*final(address_space), (KERNEL_STACK_TOP - STACK_SIZE) as u64, 16)
                        &&& forall|k: nat| k < 16 ==> #[trigger] stack_page_fresh(
                            *final(address_space),
                            final(mem)@,
                            old(allocator)@,
                            ((KERNEL_STACK_TOP - STACK_SIZE) as u64 + k * 4096) as u64,
                            PagePermissions { writable: true, executable: false, user_accessible: false },
                        )
                    },
                    Err(e) => {
                        &&& e == StackCreateError::OutOfFrames || e is Mapping
                        &&& forall|f: int|
                            0 <= f < old(allocator)@.len() && #[trigger] final(allocator)@[f] != old(allocator)@[f] && old(allocator)@[f]
                                == FrameState::Free ==> final(address_space).spec_root().spec_tables().contains_key(f as nat)
                    },
                },
            },
            spec_stack_mappable(*old(address_space), old(mem)@, old(allocator)@, KERNEL_STACK_TOP, kernel_stack_permissions()) ==> r is Ok,
    {
        Self::allocate_at(address_space, mem, allocator, VirtualAddr::new(KERNEL_STACK_TOP))
    }

    /// A kernel stack ending at `top`: writable, not executable, kernel only.
    pub fn allocate_at(address_space: &mut AddressSpace, mem: &mut PhysicalMemory, allocator: &mut FrameAllocator, top: VirtualAddr) -> (r: Result<
        Self,
        StackCreateError,
    >)
        requires
            old(address_space).wf(old(mem)@, old(allocator)@),
            old(allocator).wf(),
            old(allocator).backed_by(old(mem)@),
        ensures
            final(allocator).wf(),
            final(allocator).backed_by(final(mem)@),
            final(allocator).spec_direct_map() == old(allocator).spec_direct_map(),
            final(allocator).spec_allocatable_frames() == old(allocator).spec_allocatable_frames(),
            final(allocator)@.len() == old(allocator)@.len(),
            final(address_space).wf(final(mem)@, final(allocator)@),
            final(address_space).spec_kind() == old(address_space).spec_kind(),
            final(address_space).spec_root().spec_config() == old(address_space).spec_root().spec_config(),
            final(address_space).spec_root().spec_root() == old(address_space).spec_root().spec_root(),
            final(address_space).spec_root().spec_direct_map() == old(address_space).spec_root().spec_direct_map(),
            final(address_space).spec_root().spec_root_limit() == old(address_space).spec_root().spec_root_limit(),
            final(mem)@.len() == old(mem)@.len(),
            forall|vb: u64| #[trigger] old(address_space).owns_mapping(old(mem)@, vb) ==> final(address_space).spec_root().spec_unmap(
                final(mem)@,
                vb,
            ) == old(address_space).spec_root().spec_unmap(old(mem)@, vb),
            match spec_stack_refused(*old(address_space), old(mem)@, top.0) {
                Some(e) => r == Err::<Self, StackCreateError>(e) && *final(address_space) == *old(address_space) && final(mem)@
                    == old(mem)@ && final(allocator)@ == old(allocator)@,
                None => match r {
                    Ok(stack) => {
                        &&& stack.spec_top().0 == top.0
                        &&& stack.spec_mapping().spec_mapped_start().0 == top.0 - STACK_SIZE
                        &&& stack.spec_mapping().spec_guard_page().0 == top.0 - STACK_SIZE - 4096
                        &&& final(address_space).translate(final(mem)@, stack.spec_mapping().spec_guard_page().0) is None
                        &&& stack_pages_backed(*final(address_space), final(mem)@, final(allocator)@, (top.0 - STACK_SIZE) as u64, 16)
                        &&& pages_placeable(*final(address_space), (top.0 - STACK_SIZE) as u64, 16)
                        &&& forall|k: nat| k < 16 ==> #[trigger] stack_page_fresh(
                            *final(address_space),
                            final(mem)@,
                            old(allocator)@,
                            ((top.0 - STACK_SIZE) as u64 + k * 4096) as u64,
                            PagePermissions { writable: true, executable: false, user_accessible: false },
                        )
                    },
                    Err(e) => {
                        &&& e == StackCreateError::OutOfFrames || e is Mapping
                        &&& forall|f: int|
                            0 <= f < old(allocator)@.len() && #[trigger] final(allocator)@[f] != old(allocator)@[f] && old(allocator)@[f]
                                == FrameState::Free ==> final(address_space).spec_root().spec_tables().contains_key(f as nat)
                    },
                },
            },
            spec_stack_mappable(*old(address_space), old(mem)@, old(allocator)@, top.0, kernel_stack_permissions()) ==> r is Ok,
    {
        match StackMapping::allocate(address_space, mem, allocator, top, PagePermissions::new(true, false, false)) {
            Ok(mapping) => Ok(Self { mapping }),
            Err(e) => Err(e),
        }
    }

    /// Unmaps the stack's pages and returns their frames. The stack must
    /// still be mapped as it was made, and no thread may run on it.
    pub fn destroy(self, address_space: &mut AddressSpace, mem: &mut PhysicalMemory, allocator: &mut FrameAllocator)
        requires
            old(address_space).wf(old(mem)@, old(allocator)@),
            old(allocator).wf(),
            old(allocator).backed_by(old(mem)@),
            stack_pages_backed(*old(address_space), old(mem)@, old(allocator)@, self.spec_mapping().spec_mapped_start().0, 16),
            pages_placeable(*old(address_space), self.spec_mapping().spec_mapped_start().0, 16),
        ensures
            final(allocator).wf(),
            final(allocator).backed_by(final(mem)@),
            final(allocator).spec_direct_map() == old(allocator).spec_direct_map(),
            final(allocator).spec_allocatable_frames() == old(allocator).spec_allocatable_frames(),
            final(allocator)@.len() == old(allocator)@.len(),
            final(address_space).wf(final(mem)@, final(allocator)@),
            final(address_space).spec_kind() == old(address_space).spec_kind(),
            final(address_space).spec_root().spec_config() == old(address_space).spec_root().spec_config(),
            final(address_space).spec_root().spec_root() == old(address_space).spec_root().spec_root(),
            final(address_space).spec_root().spec_direct_map() == old(address_space).spec_root().spec_direct_map(),
            final(address_space).spec_root().spec_root_limit() == old(address_space).spec_root().spec_root_limit(),
            final(mem)@.len() == old(mem)@.len(),
            forall|vb: u64|
                #[trigger] old(address_space).owns_mapping(old(mem)@, vb) && !in_pages(vb, self.spec_mapping().spec_mapped_start().0, 16)
                    ==> final(address_space).spec_root().spec_unmap(final(mem)@, vb) == old(address_space).spec_root().spec_unmap(old(mem)@, vb),
            forall|k: nat|
                k < 16 ==> #[trigger] final(address_space).translate(
                    final(mem)@,
                    (self.spec_mapping().spec_mapped_start().0 + k * 4096) as u64,
                ) is None,
            forall|vb: u64| old(address_space).translate(old(mem)@, vb) is None ==> #[trigger] final(address_space).translate(final(mem)@, vb) is None,
            forall|k: nat|
                k < 16 ==> final(allocator)@[#[trigger] page_frame(
                    *old(address_space),
                    old(mem)@,
                    (self.spec_mapping().spec_mapped_start().0 + k * 4096) as u64,
                )] == FrameState::Free,
            forall|f: int|
                0 <= f < old(allocator)@.len() && #[trigger] final(allocator)@[f] != old(allocator)@[f] ==> old(allocator)@[f]
                    == FrameState::Allocated && final(allocator)@[f] == FrameState::Free,
    {
        release_pages(address_space, mem, allocator, self.mapping.mapped_start.0, STACK_PAGES);
    }
}

/// How many kernel stacks the pool hands out.
pub const MAX_KERNEL_STACKS: u64 = 32;

/// The distance between the tops of two kernel stacks of the pool: a
/// stack, its guard page and room to spare.
pub const KERNEL_STACK_STRIDE: u64 = 0x20000;

/// Where the pool's kernel stack number `slot` ends: the first at
/// [`KERNEL_STACK_TOP`], each next one [`KERNEL_STACK_STRIDE`] bytes lower.
pub open spec fn kernel_stack_top(slot: u64) -> u64 {
    (KERNEL_STACK_TOP - slot * KERNEL_STACK_STRIDE) as u64
}

/// The kernel stacks of threads: each new one ends below the last, so that
/// no two share a page.
pub struct KernelStackPool {
    next: u64,
}

impl KernelStackPool {
    /// The number of the next stack to make.
    pub closed spec fn spec_next(&self) -> u64 {
        self.next
    }

    pub open spec fn wf(&self) -> bool {
        self.spec_next() <= MAX_KERNEL_STACKS
    }

    /// A pool that has made no stack yet.
    pub fn new() -> (r: Self)
        ensures
            r.wf(),
            r.spec_next() == 0,
    {
        KernelStackPool { next: 0 }
    }

    /// A kernel stack for a new thread, at the next free place; with all
    /// [`MAX_KERNEL_STACKS`] made, `OutOfFrames` and nothing changes. The
    /// place is used up only when the stack is made.
    pub fn allocate(&mut self, address_space: &mut AddressSpace, mem: &mut PhysicalMemory, allocator: &mut FrameAllocator) -> (r: Result<
        KernelStack,
        StackCreateError,
    >)
        requires
            old(self).wf(),
            old(address_space).wf(old(mem)@, old(allocator)@),
            old(allocator).wf(),
            old(allocator).backed_by(old(mem)@),
        ensures
            final(self).wf(),
            final(self).spec_next() == if r is Ok { old(self).spec_next() + 1 } else { old(self).spec_next() as int },
            old(self).spec_next() == MAX_KERNEL_STACKS ==> r == Err::<KernelStack, StackCreateError>(StackCreateError::OutOfFrames)
                && *final(address_space) == *old(address_space) && final(mem)@ == old(mem)@ && final(allocator)@ == old(allocator)@,
            final(allocator).wf(),
            final(allocator).backed_by(final(mem)@),
            final(allocator).spec_direct_map() == old(allocator).spec_direct_map(),
            final(allocator).spec_allocatable_frames() == old(allocator).spec_allocatable_frames(),
            final(allocator)@.len() == old(allocator)@.len(),
            final(address_space).wf(final(mem)@, final(allocator)@),
            final(address_space).spec_kind() == old(address_space).spec_kind(),
            final(address_space).spec_root().spec_config() == old(address_space).spec_root().spec_config(),
            final(address_space).spec_root().spec_root() == old(address_space).spec_root().spec_root(),
            final(address_space).spec_root().spec_direct_map() == old(address_space).spec_root().spec_direct_map(),
            final(address_space).spec_root().spec_root_limit() == old(address_space).spec_root().spec_root_limit(),
            final(mem)@.len() == old(mem)@.len(),
            forall|vb: u64| #[trigger] old(address_space).owns_mapping(old(mem)@, vb) ==> final(address_space).spec_root().spec_unmap(
                final(mem)@,
                vb,
            ) == old(address_space).spec_root().spec_unmap(old(mem)@, vb),
            old(self).spec_next() < MAX_KERNEL_STACKS ==> {
                let top = kernel_stack_top(old(self).spec_next());
                match spec_stack_refused(*old(address_space), old(mem)@, top) {
                    Some(e) => r == Err::<KernelStack, StackCreateError>(e) && *final(address_space) == *old(address_space)
                        && final(mem)@ == old(mem)@ && final(allocator)@ == old(allocator)@,
                    None => match r {
                        Ok(stack) => {
                            &&& stack.spec_top().0 == top
                            &&& stack.spec_mapping().spec_mapped_start().0 == top - STACK_SIZE
                            &&& stack.spec_mapping().spec_guard_page().0 == top - STACK_SIZE - 4096
                            &&& final(address_space).translate(final(mem)@, stack.spec_mapping().spec_guard_page().0) is None
                            &&& stack_pages_backed(*final(address_space), final(mem)@, final(allocator)@, (top - STACK_SIZE) as u64, 16)
                            &&& pages_placeable(*final(address_space), (top - STACK_SIZE) as u64, 16)
                            &&& forall|k: nat| k < 16 ==> #[trigger] stack_page_fresh(
                                *final(address_space),
                                final(mem)@,
                                old(allocator)@,
                                ((top - STACK_SIZE) as u64 + k * 4096) as u64,
                                PagePermissions { writable: true, executable: false, user_accessible: false },
                            )
                        },
                        Err(e) => {
                            &&& e == StackCreateError::OutOfFrames || e is Mapping
                            &&& forall|f: int|
                                0 <= f < old(allocator)@.len() && #[trigger] final(allocator)@[f] != old(allocator)@[f] && old(allocator)@[f]
                                    == FrameState::Free ==> final(address_space).spec_root().spec_tables().contains_key(f as nat)
                        },
                    },
                }
            },
            old(self).spec_next() < MAX_KERNEL_STACKS && spec_stack_mappable(
                *old(address_space),
                old(mem)@,
                old(allocator)@,
                kernel_stack_top(old(self).spec_next()),
                kernel_stack_permissions(),
            ) ==> r is Ok,
    {
        if self.next >= MAX_KERNEL_STACKS {
            return Err(StackCreateError::OutOfFrames);
        }
        let top = KERNEL_STACK_TOP - self.next * KERNEL_STACK_STRIDE;
        let r = KernelStack::allocate_at(address_space, mem, allocator, VirtualAddr::new(top));
        if r.is_ok() {
            self.next = self.next + 1;
        }
        r
    }
}

impl UserStack {
    /// A user stack ending at [`USER_STACK_TOP`]: writable, not executable, user-accessible.
    pub fn allocate(address_space: &mut AddressSpace, mem: &mut PhysicalMemory, allocator: &mut FrameAllocator) -> (r: Result<
        Self,
        StackCreateError,
    >)
        requires
            old(address_space).wf(old(mem)@, old(allocator)@),
            old(allocator).wf(),
            old(allocator).backed_by(old(mem)@),
        ensures
            final(allocator).wf(),
            final(allocator).backed_by(final(mem)@),
            final(allocator).spec_direct_map() == old(allocator).spec_direct_map(),
            final(allocator).spec_allocatable_frames() == old(allocator).spec_allocatable_frames(),
            final(allocator)@.len() == old(allocator)@.len(),
            final(address_space).wf(final(mem)@, final(allocator)@),
            final(address_space).spec_kind() == old(address_space).spec_kind(),
            final(address_space).spec_root().spec_config() == old(address_space).spec_root().spec_config(),
            final(address_space).spec_root().spec_root() == old(address_space).spec_root().spec_root(),
            final(address_space).spec_root().spec_direct_map() == old(address_space).spec_root().spec_direct_map(),
            final(address_space).spec_root().spec_root_limit() == old(address_space).spec_root().spec_root_limit(),
            final(mem)@.len() == old(mem)@.len(),
            forall|vb: u64| #[trigger] old(address_space).owns_mapping(old(mem)@, vb) ==> final(address_space).spec_root().spec_unmap(
                final(mem)@,
                vb,
            ) == old(address_space).spec_root().spec_unmap(old(mem)@, vb),
            match spec_stack_refused(*old(address_space), old(mem)@, USER_STACK_TOP) {
                Some(e) => r == Err::<Self, StackCreateError>(e) && *final(address_space) == *old(address_space) && final(mem)@
                    == old(mem)@ && final(allocator)@ == old(allocator)@,
                None => match r {
                    Ok(stack) => {
                        &&& stack.spec_top().0 == USER_STACK_TOP
                        &&& stack.spec_mapping().spec_mapped_start().0 == USER_STACK_TOP - STACK_SIZE
                        &&& stack.spec_mapping().spec_guard_page().0 == USER_STACK_TOP - STACK_SIZE - 4096
                        &&& final(address_space).translate(final(mem)@, stack.spec_mapping().spec_guard_page().0) is None
                        &&& stack_pages_backed(*final(address_space), final(mem)@, final(allocator)@, (USER_STACK_TOP - STACK_SIZE) as u64, 16)
                        &&& pages_placeable(*final(address_space), (USER_STACK_TOP - STACK_SIZE) as u64, 16)
                        &&& forall|k: nat| k < 16 ==> #[trigger] stack_page_fresh(
                            *final(address_space),
                            final(mem)@,
                            old(allocator)@,
                            ((USER_STACK_TOP - STACK_SIZE) as u64 + k * 4096) as u64,
                            PagePermissions { writable: true, executable: false, user_accessible: true },
                        )
                    },
                    Err(e) => {
                        &&& e == StackCreateError::OutOfFrames || e is Mapping
                        &&& forall|f: int|
                            0 <= f < old(allocator)@.len() && #[trigger] final(allocator)@[f] != old(allocator)@[f] && old(allocator)@[f]
                                == FrameState::Free ==> final(address_space).spec_root().spec_tables().contains_key(f as nat)
                    },
                },
            },
            spec_stack_mappable(*old(address_space), old(mem)@, old(allocator)@, USER_STACK_TOP, user_stack_permissions()) ==> r is Ok,
    {
        match StackMapping::allocate(address_space, mem, allocator, VirtualAddr::new(USER_STACK_TOP), PagePermissions::new(true, false, true)) {
            Ok(mapping) => Ok(Self { mapping }),
            Err(e) => Err(e),
        }
    }

    /// Unmaps the stack's pages and returns their frames. The stack must
    /// still be mapped as it was made, and no thread may run on it.
    pub fn destroy(self, address_space: &mut AddressSpace, mem: &mut PhysicalMemory, allocator: &mut FrameAllocator)
        requires
            old(address_space).wf(old(mem)@, old(allocator)@),
            old(allocator).wf(),
            old(allocator).backed_by(old(mem)@),
            stack_pages_backed(*old(address_space), old(mem)@, old(allocator)@, self.spec_mapping().spec_mapped_start().0, 16),
            pages_placeable(*old(address_space), self.spec_mapping().spec_mapped_start().0, 16),
        ensures
            final(allocator).wf(),
            final(allocator).backed_by(final(mem)@),
            final(allocator).spec_direct_map() == old(allocator).spec_direct_map(),
            final(allocator).spec_allocatable_frames() == old(allocator).spec_allocatable_frames(),
            final(allocator)@.len() == old(allocator)@.len(),
            final(address_space).wf(final(mem)@, final(allocator)@),
            final(address_space).spec_kind() == old(address_space).spec_kind(),
            final(address_space).spec_root().spec_config() == old(address_space).spec_root().spec_config(),
            final(address_space).spec_root().spec_root() == old(address_space).spec_root().spec_root(),
            final(address_space).spec_root().spec_direct_map() == old(address_space).spec_root().spec_direct_map(),
            final(address_space).spec_root().spec_root_limit() == old(address_space).spec_root().spec_root_limit(),
            final(mem)@.len() == old(mem)@.len(),
            forall|vb: u64|
                #[trigger] old(address_space).owns_mapping(old(mem)@, vb) && !in_pages(vb, self.spec_mapping().spec_mapped_start().0, 16)
                    ==> final(address_space).spec_root().spec_unmap(final(mem)@, vb) == old(address_space).spec_root().spec_unmap(old(mem)@, vb),
            forall|k: nat|
                k < 16 ==> #[trigger] final(address_space).translate(
                    final(mem)@,
                    (self.spec_mapping().spec_mapped_start().0 + k * 4096) as u64,
                ) is None,
            forall|vb: u64| old(address_space).translate(old(mem)@, vb) is None ==> #[trigger] final(address_space).translate(final(mem)@, vb) is None,
            forall|k: nat|
                k < 16 ==> final(allocator)@[#[trigger] page_frame(
                    *old(address_space),
                    old(mem)@,
                    (self.spec_mapping().spec_mapped_start().0 + k * 4096) as u64,
                )] == FrameState::Free,
            forall|f: int|
                0 <= f < old(allocator)@.len() && #[trigger] final(allocator)@[f] != old(allocator)@[f] ==> old(allocator)@[f]
                    == FrameState::Allocated && final(allocator)@[f] == FrameState::Free,
    {
        release_pages(address_space, mem, allocator, self.mapping.mapped_start.0, STACK_PAGES);
    }
}

} // verus!
