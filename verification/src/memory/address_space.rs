//! Address spaces: a page-table hierarchy and whether it is the kernel's
//! or a user process's. A user space shares the kernel's half of the root
//! and may map only user pages below the canonical hole.

use vstd::prelude::*;

use crate::arch::paging::{
    MapError as PageTableMapError, PageTable, PageTableCreateError, UnmapError as PageTableUnmapError,
    spec_canonical, spec_leaf_entry, spec_mapping_entry, spec_virtual_address_bits, table_accessible,
};
use crate::memory::frame::{FrameState, chosen_free, has_free};
use crate::memory::phys::{frame_is_zero, mem_entry};
use crate::memory::{
    CachePolicy, DirectMap, FrameAddr, FrameAllocator, KernelMemoryLayout, MemoryRegion, MemoryRegionKind, PagePermissions,
    PhysicalAddr, PhysicalMemory, VirtualAddr,
};
use crate::arch::paging::PagingConfig;

verus! {

/// The number by which the kernel knows an address space.
#[derive(Clone, Copy, Debug, PartialEq, Eq, Structural)]
pub struct AddressSpaceId(pub usize);

/// The end of the user half of the address space.
pub const USER_SPACE_END: u64 = 0x0000_8000_0000_0000;

/// Why a page or a range could not be mapped.
#[derive(Clone, Copy, Debug, PartialEq, Eq, Structural)]
pub enum MapError {
    InvalidVirtualAddress,
    VirtualAddressUnaligned,
    PhysicalAddressTooLarge,
    PhysicalAddressUnaligned,
    RangeLengthUnaligned,
    AddressOverflow,
    AlreadyMapped,
    MappingConflict,
    UnsupportedPermissions,
    OutOfMemory,
    PageTableUnavailable,
    CorruptedPageTable,
    InvalidUserAddress,
    InvalidUserMap,
}

/// The address-space error for a page-table error.
pub open spec fn spec_map_error(e: PageTableMapError) -> MapError {
    match e {
        PageTableMapError::InvalidVirtualAddress => MapError::InvalidVirtualAddress,
        PageTableMapError::VirtualAddressUnaligned => MapError::VirtualAddressUnaligned,
        PageTableMapError::PhysicalAddressTooLarge => MapError::PhysicalAddressTooLarge,
        PageTableMapError::PageAlreadyMapped => MapError::AlreadyMapped,
        PageTableMapError::HugePageConflict => MapError::MappingConflict,
        PageTableMapError::NoExecuteUnsupported => MapError::UnsupportedPermissions,
        PageTableMapError::OutOfFrames => MapError::OutOfMemory,
        PageTableMapError::PageTableOutsideDirectMap => MapError::PageTableUnavailable,
        PageTableMapError::InvalidPageTableEntry => MapError::CorruptedPageTable,
    }
}

impl MapError {
    /// The address-space error for a page-table error.
    pub fn from_page_table(error: PageTableMapError) -> (r: Self)
        ensures
            r == spec_map_error(error),
    {
        match error {
            PageTableMapError::InvalidVirtualAddress => Self::InvalidVirtualAddress,
            PageTableMapError::VirtualAddressUnaligned => Self::VirtualAddressUnaligned,
            PageTableMapError::PhysicalAddressTooLarge => Self::PhysicalAddressTooLarge,
            PageTableMapError::PageAlreadyMapped => Self::AlreadyMapped,
            PageTableMapError::HugePageConflict => Self::MappingConflict,
            PageTableMapError::NoExecuteUnsupported => Self::UnsupportedPermissions,
            PageTableMapError::OutOfFrames => Self::OutOfMemory,
            PageTableMapError::PageTableOutsideDirectMap => Self::PageTableUnavailable,
            PageTableMapError::InvalidPageTableEntry => Self::CorruptedPageTable,
        }
    }
}

/// Why a page could not be unmapped.
#[derive(Clone, Copy, Debug, PartialEq, Eq, Structural)]
pub enum UnmapError {
    InvalidVirtualAddress,
    VirtualAddressUnaligned,
    NotMapped,
    MappingConflict,
    PageTableUnavailable,
    CorruptedPageTable,
    InvalidUserAddress,
}

/// The address-space error for a page-table error.
pub open spec fn spec_unmap_error(e: PageTableUnmapError) -> UnmapError {
    match e {
        PageTableUnmapError::InvalidVirtualAddress => UnmapError::InvalidVirtualAddress,
        PageTableUnmapError::VirtualAddressUnaligned => UnmapError::VirtualAddressUnaligned,
        PageTableUnmapError::PageNotMapped => UnmapError::NotMapped,
        PageTableUnmapError::HugePageConflict => UnmapError::MappingConflict,
        PageTableUnmapError::PageTableOutsideDirectMap => UnmapError::PageTableUnavailable,
        PageTableUnmapError::InvalidPageTableEntry => UnmapError::CorruptedPageTable,
    }
}

impl UnmapError {
    /// The address-space error for a page-table error.
    pub fn from_page_table(error: PageTableUnmapError) -> (r: Self)
        ensures
            r == spec_unmap_error(error),
    {
        match error {
            PageTableUnmapError::InvalidVirtualAddress => Self::InvalidVirtualAddress,
            PageTableUnmapError::VirtualAddressUnaligned => Self::VirtualAddressUnaligned,
            PageTableUnmapError::PageNotMapped => Self::NotMapped,
            PageTableUnmapError::HugePageConflict => Self::MappingConflict,
            PageTableUnmapError::PageTableOutsideDirectMap => Self::PageTableUnavailable,
            PageTableUnmapError::InvalidPageTableEntry => Self::CorruptedPageTable,
        }
    }
}

/// Why an address space could not be created.
#[derive(Clone, Copy, Debug, PartialEq, Eq, Structural)]
pub enum AddressSpaceCreateError {
    AddressOutsideDirectMap,
    PhysicalAddressTooLarge,
    OutOfMemory,
    Mapping(MapError),
}

impl AddressSpaceCreateError {
    /// The error for a root table that could not be created.
    pub fn from_page_table(error: PageTableCreateError) -> (r: Self)
        ensures
            r == match error {
                PageTableCreateError::PhysicalAddressTooLarge => AddressSpaceCreateError::PhysicalAddressTooLarge,
                PageTableCreateError::OutOfFrames => AddressSpaceCreateError::OutOfMemory,
            },
    {
        match error {
            PageTableCreateError::PhysicalAddressTooLarge => Self::PhysicalAddressTooLarge,
            PageTableCreateError::OutOfFrames => Self::OutOfMemory,
        }
    }
}

/// Whose address space it is.
#[derive(Clone, Copy, Debug, PartialEq, Eq, Structural)]
pub enum AddressSpaceKind {
    Kernel,
    User,
}

/// An address space: its page-table hierarchy and its kind.
pub struct AddressSpace {
    root: PageTable,
    kind: AddressSpaceKind,
}

/// A user address below the canonical hole lies in the root's first half.
pub proof fn lemma_user_root_index(t: PageTable, va: u64)
    requires
        t.spec_config().wf(),
        va < USER_SPACE_END,
    ensures
        t.root_index(va) < 256,
{
    crate::arch::paging::lemma_user_half(t.spec_config(), va);
}

impl AddressSpace {
    pub closed spec fn spec_root(&self) -> PageTable {
        self.root
    }

    pub closed spec fn spec_kind(&self) -> AddressSpaceKind {
        self.kind
    }

    /// The hierarchy is sound, its root readable, and a kernel space owns
    /// its whole root while a user space owns the first half.
    pub open spec fn wf(&self, mem: Seq<u64>, frames: Seq<FrameState>) -> bool {
        &&& self.spec_root().wf(mem, frames)
        &&& table_accessible(mem, self.spec_root().spec_direct_map(), self.spec_root().spec_root())
        &&& self.spec_kind() == AddressSpaceKind::Kernel ==> self.spec_root().spec_root_limit() == 512
        &&& self.spec_kind() == AddressSpaceKind::User ==> self.spec_root().spec_root_limit() == 256
    }

    /// The physical address that `va` translates to.
    pub open spec fn translate(&self, mem: Seq<u64>, va: u64) -> Option<u64> {
        self.spec_root().translate(mem, va)
    }

    /// The entry that maps `va`.
    pub open spec fn mapping_entry(&self, mem: Seq<u64>, va: u64) -> Option<u64> {
        spec_mapping_entry(mem, self.spec_root().spec_direct_map(), self.spec_root().spec_config(), self.spec_root().spec_root(), va)
    }

    /// A user address space that shares this space's kernel half: its own
    /// root, fresh from `allocator`, holds a copy of this root's entries 256
    /// to 511 and nothing below 256.
    pub fn new_user(&self, mem: &mut PhysicalMemory, allocator: &mut FrameAllocator) -> (r: Result<Self, PageTableCreateError>)
        requires
            self.wf(old(mem)@, old(allocator)@),
            old(allocator).wf(),
            old(allocator).backed_by(old(mem)@),
            old(allocator).spec_direct_map() == self.spec_root().spec_direct_map(),
        ensures
            final(allocator).wf(),
            final(allocator).backed_by(final(mem)@),
            final(allocator).spec_direct_map() == old(allocator).spec_direct_map(),
            final(allocator).spec_allocatable_frames() == old(allocator).spec_allocatable_frames(),
            final(mem)@.len() == old(mem)@.len(),
            self.wf(final(mem)@, final(allocator)@),
            forall|va: u64| #[trigger] self.translate(final(mem)@, va) == self.translate(old(mem)@, va) || self.spec_kind()
                == AddressSpaceKind::User,
            match r {
                Ok(s) => {
                    &&& s.spec_kind() == AddressSpaceKind::User
                    &&& s.wf(final(mem)@, final(allocator)@)
                    &&& s.spec_root().spec_config() == self.spec_root().spec_config()
                    &&& s.spec_root().spec_direct_map() == self.spec_root().spec_direct_map()
                    &&& s.spec_root().spec_tables() == map![s.spec_root().spec_root() => 0nat]
                    &&& chosen_free(old(allocator)@, old(allocator).spec_next_search() as int, s.spec_root().spec_root() as int)
                    &&& final(allocator)@ == old(allocator)@.update(s.spec_root().spec_root() as int, FrameState::Allocated)
                    &&& forall|va: u64| s.spec_root().root_index(va) < 256 ==> #[trigger] s.translate(final(mem)@, va) is None
                    &&& self.spec_kind() == AddressSpaceKind::Kernel ==> forall|va: u64| s.spec_root().root_index(va) >= 256
                        ==> #[trigger] s.translate(final(mem)@, va) == self.translate(old(mem)@, va)
                    &&& forall|j: nat| 256 <= j < 512 ==> #[trigger] mem_entry(final(mem)@, s.spec_root().spec_root(), j) == mem_entry(
                        old(mem)@,
                        self.spec_root().spec_root(),
                        j,
                    )
                },
                Err(PageTableCreateError::OutOfFrames) => !has_free(old(allocator)@) && final(allocator)@ == old(allocator)@,
                Err(PageTableCreateError::PhysicalAddressTooLarge) => final(allocator)@ == old(allocator)@ && exists|i: int|
                    chosen_free(old(allocator)@, old(allocator).spec_next_search() as int, i) && i * 4096
                        >= self.spec_root().spec_config().spec_limit(),
            },
            has_free(old(allocator)@) && (forall|i: int|
                chosen_free(old(allocator)@, old(allocator).spec_next_search() as int, i) ==> i * 4096
                    < self.spec_root().spec_config().spec_limit()) ==> r is Ok,
    {
        let ghost mem0 = mem@;
        let ghost a0 = allocator@;
        proof {
            self.root.lemma_wf_basics(mem@, allocator@);
        }
        let mut user_root = match PageTable::new(self.root.direct_map(), self.root.config(), allocator, mem) {
            Ok(t) => t,
            Err(e) => {
                proof {
                    self.root.lemma_wf_free_writes(mem0, mem@, a0);
                    self.root.lemma_wf_basics(mem0, a0);
                    assert forall|va: u64| #[trigger] self.translate(mem@, va) == self.translate(mem0, va) || self.kind == AddressSpaceKind::User by {
                        if self.kind == AddressSpaceKind::Kernel {
                            self.root.lemma_walk_owned_frame(mem0, mem@, a0, 0, self.root.spec_root(), va);
                        }
                    }
                }
                return Err(e);
            },
        };
        let ghost i = user_root.spec_root();
        proof {
            self.root.lemma_wf_free_writes(mem0, mem@, a0);
            assert forall|t: nat| #[trigger] self.root.spec_tables().contains_key(t) implies allocator@[t as int] == a0[t as int] by {
                self.root.lemma_owned_allocated(mem0, a0, t);
            }
            self.root.lemma_wf_frames_change(mem@, a0, allocator@);
            assert(!self.root.spec_tables().contains_key(i)) by {
                if self.root.spec_tables().contains_key(i) {
                    self.root.lemma_owned_allocated(mem0, a0, i);
                }
            }
            let ghost r0 = self.root.spec_root();
            self.root.lemma_owned_allocated(mem0, a0, r0);
            assert forall|k: nat| k < 256 implies !crate::arch::paging::pte_present(#[trigger] mem_entry(mem@, i, k)) by {
                assert(mem_entry(mem@, i, k) == 0);
                crate::arch::paging::lemma_zero_entry_absent();
            }
            assert forall|va: u64| #[trigger] self.translate(mem@, va) == self.translate(mem0, va) || self.kind == AddressSpaceKind::User by {
                if self.kind == AddressSpaceKind::Kernel {
                    self.root.lemma_walk_owned_frame(mem0, mem@, a0, 0, r0, va);
                }
            }
        }
        let ghost mem1 = mem@;
        self.root.copy_kernel_mappings_to(mem, &mut user_root, Ghost(allocator@));
        proof {
            assert forall|va: u64| #[trigger] self.translate(mem@, va) == self.translate(mem0, va) || self.kind == AddressSpaceKind::User by {
                if self.kind == AddressSpaceKind::Kernel {
                    assert(self.translate(mem@, va) == self.translate(mem1, va));
                }
            }
        }
        let s = Self { root: user_root, kind: AddressSpaceKind::User };
        proof {
            assert(s.spec_root().wf(mem@, allocator@));
            assert(table_accessible(mem@, s.spec_root().spec_direct_map(), s.spec_root().spec_root()));
            assert(s.wf(mem@, allocator@));
            assert(s.spec_root().spec_tables() == map![s.spec_root().spec_root() => 0nat]);
            assert(forall|va: u64| s.spec_root().root_index(va) < 256 ==> #[trigger] s.translate(mem@, va) is None);
            assert forall|j: nat| 256 <= j < 512 implies #[trigger] mem_entry(mem@, i, j) == mem_entry(mem0, self.root.spec_root(), j) by {
                assert(mem_entry(mem@, i, j) == mem_entry(mem1, self.root.spec_root(), j));
                assert(self.root.spec_tables().contains_key(self.root.spec_root()));
            }
            if self.kind == AddressSpaceKind::Kernel {
                assert forall|va: u64| s.spec_root().root_index(va) >= 256 implies #[trigger] s.translate(mem@, va) == self.translate(mem0, va) by {
                    assert(s.translate(mem@, va) == self.translate(mem1, va));
                    self.root.lemma_walk_owned_frame(mem0, mem1, a0, 0, self.root.spec_root(), va);
                }
            }
        }
        Ok(s)
    }
}

impl AddressSpace {
    /// What [`AddressSpace::map`] refuses before it asks the page tables:
    /// a user space maps only user pages below the canonical hole, and the
    /// physical address must start a frame.
    pub open spec fn spec_map_refused(&self, pa: u64, va: u64, permissions: PagePermissions) -> Option<MapError> {
        if self.spec_kind() == AddressSpaceKind::User && va >= USER_SPACE_END {
            Some(MapError::InvalidUserAddress)
        } else if self.spec_kind() == AddressSpaceKind::User && !permissions.user_accessible {
            Some(MapError::InvalidUserMap)
        } else if pa % 4096 != 0 {
            Some(MapError::PhysicalAddressUnaligned)
        } else {
            None
        }
    }

    /// Mapping the page at `va` to the frame at `pa` succeeds in this space
    /// with frame states `frames`: the request is not refused, nothing in
    /// the page tables blocks it, and any tables it needs can be had from
    /// free frames that the direct map shows.
    pub open spec fn spec_map_succeeds(
        &self,
        mem: Seq<u64>,
        frames: Seq<FrameState>,
        pa: u64,
        va: u64,
        permissions: PagePermissions,
        cache_policy: CachePolicy,
    ) -> bool {
        let k = self.spec_root().spec_missing_tables(mem, va);
        &&& self.spec_map_refused(pa, va, permissions) is None
        &&& self.spec_root().spec_map_blocked(
            mem,
            va,
            FrameAddr(PhysicalAddr(pa)),
            permissions,
            cache_policy,
            self.spec_kind() == AddressSpaceKind::Kernel,
        ) is None
        &&& k == 0 || (crate::memory::frame::count_state(frames, FrameState::Free) >= k && frames.len() * 4096
            <= self.spec_root().spec_config().spec_limit() && frames.len() * 4096 + self.spec_root().spec_direct_map().spec_offset()
            <= u64::MAX + 1)
    }

    /// Maps the page at `virtual_addr` to the frame at `physical_addr`,
    /// global in the kernel's space. A user space refuses kernel addresses
    /// and pages that are not user-accessible.
    pub fn map(
        &mut self,
        mem: &mut PhysicalMemory,
        physical_addr: PhysicalAddr,
        virtual_addr: VirtualAddr,
        permissions: PagePermissions,
        allocator: &mut FrameAllocator,
        cache_policy: CachePolicy,
    ) -> (r: Result<(), MapError>)
        requires
            old(self).wf(old(mem)@, old(allocator)@),
            old(allocator).wf(),
            old(allocator).backed_by(old(mem)@),
        ensures
            final(allocator).wf(),
            final(allocator).backed_by(final(mem)@),
            final(allocator).spec_direct_map() == old(allocator).spec_direct_map(),
            final(allocator).spec_allocatable_frames() == old(allocator).spec_allocatable_frames(),
            final(allocator)@.len() == old(allocator)@.len(),
            final(self).wf(final(mem)@, final(allocator)@),
            final(self).spec_kind() == old(self).spec_kind(),
            final(self).spec_root().spec_config() == old(self).spec_root().spec_config(),
            final(self).spec_root().spec_root() == old(self).spec_root().spec_root(),
            final(self).spec_root().spec_direct_map() == old(self).spec_root().spec_direct_map(),
            final(mem)@.len() == old(mem)@.len(),
            forall|t: nat| old(self).spec_root().spec_tables().contains_key(t) ==> #[trigger] final(self).spec_root().spec_tables().contains_key(t),
            match old(self).spec_map_refused(physical_addr.0, virtual_addr.0, permissions) {
                Some(e) => r == Err::<(), MapError>(e) && final(mem)@ == old(mem)@ && final(allocator)@ == old(allocator)@
                    && final(self).spec_root().spec_tables() == old(self).spec_root().spec_tables(),
                None => match old(self).spec_root().spec_map_blocked(
                    old(mem)@,
                    virtual_addr.0,
                    FrameAddr(physical_addr),
                    permissions,
                    cache_policy,
                    old(self).spec_kind() == AddressSpaceKind::Kernel,
                ) {
                    Some(e) => r == Err::<(), MapError>(spec_map_error(e)) && final(mem)@ == old(mem)@ && final(allocator)@
                        == old(allocator)@ && final(self).spec_root().spec_tables() == old(self).spec_root().spec_tables(),
                    None => {
                        let k = old(self).spec_root().spec_missing_tables(old(mem)@, virtual_addr.0);
                        &&& (k == 0 || (crate::memory::frame::count_state(old(allocator)@, FrameState::Free) >= k
                            && old(allocator)@.len() * 4096 <= old(self).spec_root().spec_config().spec_limit()
                            && old(allocator)@.len() * 4096 + old(self).spec_root().spec_direct_map().spec_offset() <= u64::MAX
                            + 1)) ==> r is Ok
                        &&& r is Err ==> k > 0 && final(allocator)@ == old(allocator)@
                            && final(self).spec_root().spec_tables() == old(self).spec_root().spec_tables()
                    },
                },
            },
            forall|t: nat| #[trigger] final(self).spec_root().spec_tables().contains_key(t) && !old(self).spec_root().spec_tables().contains_key(t)
                ==> t < old(allocator)@.len() && old(allocator)@[t as int] == FrameState::Free && final(allocator)@[t as int]
                == FrameState::Allocated,
            old(self).spec_map_succeeds(old(mem)@, old(allocator)@, physical_addr.0, virtual_addr.0, permissions, cache_policy) ==> r
                is Ok,
            forall|f: int| 0 <= f < old(allocator)@.len() && #[trigger] final(allocator)@[f] != old(allocator)@[f]
                ==> old(allocator)@[f] == FrameState::Free && final(allocator)@[f] == FrameState::Allocated
                && final(self).spec_root().spec_tables().contains_key(f as nat),
            r is Ok ==> final(self).translate(final(mem)@, virtual_addr.0) == Some(physical_addr.0),
            r is Ok ==> final(self).spec_root().spec_unmap(final(mem)@, virtual_addr.0) == Ok::<u64, PageTableUnmapError>(physical_addr.0),
            r is Ok ==> spec_leaf_entry(
                physical_addr.0,
                permissions,
                cache_policy,
                old(self).spec_root().spec_config(),
                old(self).spec_kind() == AddressSpaceKind::Kernel,
            ) is Ok && spec_mapping_entry(
                final(mem)@,
                final(self).spec_root().spec_direct_map(),
                final(self).spec_root().spec_config(),
                final(self).spec_root().spec_root(),
                virtual_addr.0,
            ) == Some(
                spec_leaf_entry(
                    physical_addr.0,
                    permissions,
                    cache_policy,
                    old(self).spec_root().spec_config(),
                    old(self).spec_kind() == AddressSpaceKind::Kernel,
                )->Ok_0,
            ),
            r is Err ==> final(self).spec_root().spec_tables() == old(self).spec_root().spec_tables() && final(allocator)@ == old(
                allocator,
            )@,
            r is Err ==> forall|w: int| 0 <= w < old(mem)@.len() && #[trigger] final(mem)@[w] != old(mem)@[w] ==> old(allocator)@[w
                / 512] == FrameState::Free,
            r is Ok ==> forall|w: int| 0 <= w < old(mem)@.len() && #[trigger] final(mem)@[w] != old(mem)@[w]
                ==> final(self).spec_root().spec_tables().contains_key((w / 512) as nat),
            forall|vb: u64|
                (r is Err || vb != virtual_addr.0) && old(self).spec_root().root_index(vb) < old(self).spec_root().spec_root_limit()
                    && old(self).spec_root().spec_unmap(old(mem)@, vb) is Ok ==> #[trigger] final(self).spec_root().spec_unmap(
                    final(mem)@,
                    vb,
                ) == old(self).spec_root().spec_unmap(old(mem)@, vb),
            r is Err ==> forall|vb: u64|
                old(self).spec_root().root_index(vb) < old(self).spec_root().spec_root_limit() ==> #[trigger] final(self).translate(
                    final(mem)@,
                    vb,
                ) == old(self).translate(old(mem)@, vb),
            r is Ok ==> forall|vb: u64|
                vb != virtual_addr.0 && vb % 4096 == 0 && old(self).spec_root().root_index(vb) < old(self).spec_root().spec_root_limit()
                    ==> #[trigger] final(self).translate(final(mem)@, vb) == old(self).translate(old(mem)@, vb),
            r is Ok ==> forall|vb: u64|
                vb != virtual_addr.0 && old(self).spec_root().root_index(vb) < old(self).spec_root().spec_root_limit() && old(
                    self,
                ).spec_root().spec_unmap(old(mem)@, vb) is Ok ==> #[trigger] spec_mapping_entry(
                    final(mem)@,
                    final(self).spec_root().spec_direct_map(),
                    final(self).spec_root().spec_config(),
                    final(self).spec_root().spec_root(),
                    vb,
                ) == spec_mapping_entry(
                    old(mem)@,
                    old(self).spec_root().spec_direct_map(),
                    old(self).spec_root().spec_config(),
                    old(self).spec_root().spec_root(),
                    vb,
                ),
            r is Ok ==> crate::memory::frame::count_state(final(allocator)@, FrameState::Free) + old(self).spec_root().spec_missing_tables(
                old(mem)@,
                virtual_addr.0,
            ) == crate::memory::frame::count_state(old(allocator)@, FrameState::Free),
            r is Ok ==> forall|vb: u64|
                vb != virtual_addr.0 && old(self).spec_root().root_index(vb) < old(self).spec_root().spec_root_limit() && #[trigger] old(
                    self,
                ).spec_root().spec_page_open(old(mem)@, vb) ==> final(self).spec_root().spec_page_open(final(mem)@, vb),
    {
        let ghost a00 = allocator@;
        let global = match self.kind {
            AddressSpaceKind::Kernel => true,
            AddressSpaceKind::User => false,
        };
        if !global {
            if virtual_addr.0 >= USER_SPACE_END {
                return Err(MapError::InvalidUserAddress);
            }
            if !permissions.user_accessible {
                return Err(MapError::InvalidUserMap);
            }
        }
        let frame = match FrameAddr::from_start_address(physical_addr) {
            Some(f) => f,
            None => return Err(MapError::PhysicalAddressUnaligned),
        };
        proof {
            self.root.lemma_wf_basics(mem@, allocator@);
            if !global {
                lemma_user_root_index(self.root, virtual_addr.0);
            }
            crate::arch::paging::lemma_index_bound(virtual_addr.0, crate::arch::paging::level_shift(self.root.spec_config().spec_levels()[0]));
        }
        let ghost before = self.root;
        let ghost mem0 = mem@;
        let r = self.root.map(mem, virtual_addr, frame, permissions, allocator, cache_policy, global);
        proof {
            assert(mem@.len() == mem0.len());
            if r is Err {
                assert forall|w: int| 0 <= w < mem0.len() && #[trigger] mem@[w] != mem0[w] implies a00[w / 512] == FrameState::Free by {
                }
                before.lemma_wf_free_writes(mem0, mem@, a00);
                assert forall|vb: u64|
                    before.root_index(vb) < before.spec_root_limit() && before.spec_unmap(mem0, vb) is Ok implies #[trigger] self.root.spec_unmap(
                        mem@,
                        vb,
                    ) == before.spec_unmap(mem0, vb) by {
                    before.lemma_owned_same_unmap(self.root, mem0, mem@, a00, vb);
                }
                assert forall|vb: u64| before.root_index(vb) < before.spec_root_limit() implies #[trigger] self.root.translate(mem@, vb)
                    == before.translate(mem0, vb) by {
                    before.lemma_wf_basics(mem0, a00);
                    before.lemma_walk_owned_part(mem0, mem@, a00, 0, before.spec_root(), vb);
                }
            } else {
                assert forall|vb: u64|
                    vb != virtual_addr.0 && before.root_index(vb) < before.spec_root_limit() && before.spec_unmap(mem0, vb) is Ok implies #[trigger] spec_mapping_entry(
                        mem@,
                        self.root.spec_direct_map(),
                        self.root.spec_config(),
                        self.root.spec_root(),
                        vb,
                    ) == spec_mapping_entry(mem0, before.spec_direct_map(), before.spec_config(), before.spec_root(), vb) by {
                    assert(self.root.spec_unmap(mem@, vb) == before.spec_unmap(mem0, vb));
                }
            }
        }
        match r {
            Ok(()) => Ok(()),
            Err(e) => Err(MapError::from_page_table(e)),
        }
    }

    /// Unmaps the page at `virtual_addr` and returns the frame it mapped. A
    /// user space refuses kernel addresses.
    pub fn unmap(&mut self, mem: &mut PhysicalMemory, virtual_addr: VirtualAddr, allocator: &mut FrameAllocator) -> (r: Result<FrameAddr, UnmapError>)
        requires
            old(self).wf(old(mem)@, old(allocator)@),
            old(allocator).wf(),
            old(allocator).backed_by(old(mem)@),
        ensures
            final(allocator).wf(),
            final(allocator).backed_by(final(mem)@),
            final(allocator).spec_direct_map() == old(allocator).spec_direct_map(),
            final(allocator).spec_allocatable_frames() == old(allocator).spec_allocatable_frames(),
            final(allocator)@.len() == old(allocator)@.len(),
            final(self).wf(final(mem)@, final(allocator)@),
            final(self).spec_kind() == old(self).spec_kind(),
            final(self).spec_root().spec_config() == old(self).spec_root().spec_config(),
            final(self).spec_root().spec_root() == old(self).spec_root().spec_root(),
            final(self).spec_root().spec_direct_map() == old(self).spec_root().spec_direct_map(),
            final(mem)@.len() == old(mem)@.len(),
            old(self).spec_kind() == AddressSpaceKind::User && virtual_addr.0 >= USER_SPACE_END ==> r
                == Err::<FrameAddr, UnmapError>(UnmapError::InvalidUserAddress),
            !(old(self).spec_kind() == AddressSpaceKind::User && virtual_addr.0 >= USER_SPACE_END) ==> match (
                r,
                old(self).spec_root().spec_unmap(old(mem)@, virtual_addr.0),
            ) {
                (Ok(f), Ok(a)) => f.0.0 == a,
                (Err(e), Err(x)) => e == spec_unmap_error(x),
                _ => false,
            },
            r is Err ==> final(mem)@ == old(mem)@ && final(allocator)@ == old(allocator)@,
            r matches Ok(f) ==> old(self).translate(old(mem)@, virtual_addr.0) == Some(f.0.0) && final(self).translate(
                final(mem)@,
                virtual_addr.0,
            ) is None,
            forall|t: nat| #[trigger] final(self).spec_root().spec_tables().contains_key(t) ==> old(self).spec_root().spec_tables().contains_key(t),
            forall|f: int| 0 <= f < old(allocator)@.len() && #[trigger] final(allocator)@[f] != old(allocator)@[f]
                ==> old(allocator)@[f] == FrameState::Allocated && final(allocator)@[f] == FrameState::Free
                && old(self).spec_root().spec_tables().contains_key(f as nat) && !final(self).spec_root().spec_tables().contains_key(f as nat),
            forall|vb: u64|
                vb != virtual_addr.0 && old(self).spec_root().root_index(vb) < old(self).spec_root().spec_root_limit() && old(
                    self,
                ).spec_root().spec_unmap(old(mem)@, vb) is Ok ==> #[trigger] final(self).spec_root().spec_unmap(final(mem)@, vb)
                    == old(self).spec_root().spec_unmap(old(mem)@, vb),
            forall|vb: u64| old(self).translate(old(mem)@, vb) is None ==> #[trigger] final(self).translate(final(mem)@, vb) is None,
            r is Ok ==> forall|t: nat|
                old(self).spec_root().spec_tables().contains_key(t) && !#[trigger] final(self).spec_root().spec_tables().contains_key(t)
                    ==> final(allocator)@[t as int] == FrameState::Free,
            r is Ok ==> forall|t: nat|
                #[trigger] final(self).spec_root().spec_tables().contains_key(t) && t != final(self).spec_root().spec_root()
                    && crate::arch::paging::table_empty(final(mem)@, t) ==> crate::arch::paging::table_empty(old(mem)@, t),
    {
        if self.kind == AddressSpaceKind::User && virtual_addr.0 >= USER_SPACE_END {
            return Err(UnmapError::InvalidUserAddress);
        }
        proof {
            self.root.lemma_wf_basics(mem@, allocator@);
            if self.kind == AddressSpaceKind::User {
                lemma_user_root_index(self.root, virtual_addr.0);
            }
            crate::arch::paging::lemma_index_bound(virtual_addr.0, crate::arch::paging::level_shift(self.root.spec_config().spec_levels()[0]));
        }
        let r = self.root.unmap(mem, virtual_addr, allocator);
        match r {
            Ok(f) => Ok(f),
            Err(e) => Err(UnmapError::from_page_table(e)),
        }
    }

    /// The physical address that `virtual_addr` translates to.
    pub fn to_physical(&self, mem: &PhysicalMemory, virtual_addr: VirtualAddr) -> (r: Option<PhysicalAddr>)
        requires
            self.spec_root().inv(),
        ensures
            r == match self.translate(mem@, virtual_addr.0) {
                Some(p) => Some(PhysicalAddr(p)),
                None => None::<PhysicalAddr>,
            },
    {
        self.root.to_physical(mem, virtual_addr)
    }

    /// Every address of a mapped page translates to the page's physical
    /// address plus the address's offset in the page.
    pub proof fn lemma_to_physical_offset(&self, mem: Seq<u64>, page: u64, offset: u64)
        requires
            self.spec_root().inv(),
            page % 4096 == 0,
            offset < 4096,
            self.translate(mem, page) is Some,
        ensures
            page + offset <= u64::MAX,
            self.translate(mem, (page + offset) as u64) == Some((self.translate(mem, page)->Some_0 + offset) as u64),
    {
        self.spec_root().lemma_translate_offset(mem, page, offset);
    }

    /// Where the direct map shows `physical_addr`.
    pub fn to_virtual(&self, physical_addr: PhysicalAddr) -> (r: Option<VirtualAddr>)
        ensures
            r == self.spec_root().spec_direct_map().spec_translate(physical_addr.0),
    {
        self.root.to_virtual(physical_addr)
    }

    /// Frees every page table the space owns (a user space shares, and
    /// keeps, the kernel's half).
    pub fn destroy(self, mem: &mut PhysicalMemory, allocator: &mut FrameAllocator)
        requires
            self.wf(old(mem)@, old(allocator)@),
            old(allocator).wf(),
            old(allocator).backed_by(old(mem)@),
        ensures
            final(allocator).wf(),
            final(allocator).backed_by(final(mem)@),
            final(allocator).spec_direct_map() == old(allocator).spec_direct_map(),
            final(allocator).spec_allocatable_frames() == old(allocator).spec_allocatable_frames(),
            final(allocator)@.len() == old(allocator)@.len(),
            final(mem)@.len() == old(mem)@.len(),
            forall|k: nat| #[trigger] self.spec_root().spec_tables().contains_key(k) ==> final(allocator)@[k as int] == FrameState::Free,
            forall|f: int| 0 <= f < old(allocator)@.len() && #[trigger] final(allocator)@[f] != old(allocator)@[f]
                ==> old(allocator)@[f] == FrameState::Allocated && final(allocator)@[f] == FrameState::Free
                && self.spec_root().spec_tables().contains_key(f as nat),
    {
        match self.kind {
            AddressSpaceKind::Kernel => self.root.destroy(mem, allocator),
            AddressSpaceKind::User => self.root.destroy_user(mem, allocator),
        }
    }
}

/// What [`AddressSpace::map_range`] refuses before it maps anything.
pub open spec fn spec_range_refused(pa: u64, va: u64, length: u64) -> Option<MapError> {
    if pa % 4096 != 0 {
        Some(MapError::PhysicalAddressUnaligned)
    } else if va % 4096 != 0 {
        Some(MapError::VirtualAddressUnaligned)
    } else if length % 4096 != 0 {
        Some(MapError::RangeLengthUnaligned)
    } else if pa + (length - 4096) > u64::MAX || va + (length - 4096) > u64::MAX {
        Some(MapError::AddressOverflow)
    } else {
        None
    }
}

/// Regions that the kernel's direct map leaves out: reserved and bad memory,
/// and the kernel image and modules, which are mapped with their own
/// permissions instead.
pub open spec fn spec_direct_map_excludes(kind: MemoryRegionKind) -> bool {
    kind == MemoryRegionKind::Reserved || kind == MemoryRegionKind::BadMemory || kind == MemoryRegionKind::KernelAndModules
}

/// How the kernel's space caches a region of the memory map: device
/// memory and the framebuffer uncached, the rest write-back.
pub open spec fn region_cache_policy(kind: MemoryRegionKind) -> CachePolicy {
    if kind == MemoryRegionKind::MappedReserved || kind == MemoryRegionKind::Framebuffer {
        CachePolicy::Uncacheable
    } else {
        CachePolicy::WriteBack
    }
}

/// Range `r` of those [`AddressSpace::new_kernel`] maps, as physical start,
/// virtual start, length, permissions and caching: first each region of the
/// memory map through the direct map (empty where the direct map leaves
/// the region out), then the kernel's three segments.
pub open spec fn kernel_range(dm: DirectMap, regions: Seq<MemoryRegion>, layout: KernelMemoryLayout, r: int) -> (u64, u64, u64, PagePermissions, CachePolicy) {
    if r < regions.len() {
        let g = regions[r];
        if spec_direct_map_excludes(g.kind) {
            (0, 0, 0, PagePermissions { writable: true, executable: false, user_accessible: false }, CachePolicy::WriteBack)
        } else {
            (
                g.start.0,
                dm.spec_translate(g.start.0)->Some_0.0,
                g.length,
                PagePermissions { writable: true, executable: false, user_accessible: false },
                region_cache_policy(g.kind),
            )
        }
    } else {
        let sg = layout.segments[r - regions.len()];
        (sg.physical_base.0, sg.virtual_base.0, sg.length, sg.permissions, CachePolicy::WriteBack)
    }
}

/// The pages of the kernel's ranges from range `r` on.
pub open spec fn kernel_pages_from(dm: DirectMap, regions: Seq<MemoryRegion>, layout: KernelMemoryLayout, r: int) -> nat
    decreases regions.len() + 3 - r,
{
    if r < 0 || r >= regions.len() + 3 {
        0
    } else {
        (kernel_range(dm, regions, layout, r).2 / 4096) as nat + kernel_pages_from(dm, regions, layout, r + 1)
    }
}

/// A range that can be mapped in a kernel space under `cfg`: empty, or not
/// refused, with canonical pages and frames a leaf entry can reach.
pub open spec fn kernel_range_fits(cfg: PagingConfig, rg: (u64, u64, u64, PagePermissions, CachePolicy)) -> bool {
    rg.2 == 0 || (spec_range_refused(rg.0, rg.1, rg.2) is None && forall|k: u64|
        k < rg.2 / 4096 ==> spec_canonical((rg.1 + k * 4096) as u64, spec_virtual_address_bits(cfg.spec_mode())) && #[trigger] spec_leaf_entry(
            (rg.0 + k * 4096) as u64,
            rg.3,
            rg.4,
            cfg,
            true,
        ) is Ok)
}

/// Two ranges whose virtual bytes do not overlap.
pub open spec fn ranges_disjoint(a: (u64, u64, u64, PagePermissions, CachePolicy), b: (u64, u64, u64, PagePermissions, CachePolicy)) -> bool {
    a.2 == 0 || b.2 == 0 || a.1 + a.2 <= b.1 || b.1 + b.2 <= a.1
}

/// [`AddressSpace::new_kernel`] succeeds on these: every region it maps
/// lies in the direct map, every range fits the configuration, no two
/// ranges overlap, and enough frames are free for the root and every table
/// the pages might need.
pub open spec fn spec_kernel_space_mappable(
    dm: DirectMap,
    regions: Seq<MemoryRegion>,
    layout: KernelMemoryLayout,
    cfg: PagingConfig,
    frames: Seq<FrameState>,
) -> bool {
    &&& frames.len() * 4096 <= cfg.spec_limit()
    &&& frames.len() * 4096 + dm.spec_offset() <= u64::MAX + 1
    &&& forall|i: int| 0 <= i < regions.len() && !spec_direct_map_excludes(#[trigger] regions[i].kind) ==> dm.spec_translate(regions[i].start.0) is Some
    &&& forall|r: int| 0 <= r < regions.len() + 3 ==> kernel_range_fits(cfg, #[trigger] kernel_range(dm, regions, layout, r))
    &&& forall|r1: int, r2: int|
        0 <= r1 < r2 < regions.len() + 3 ==> ranges_disjoint(#[trigger] kernel_range(dm, regions, layout, r1), #[trigger] kernel_range(dm, regions, layout, r2))
    &&& crate::memory::frame::count_state(frames, FrameState::Free) >= 1 + kernel_pages_from(dm, regions, layout, 0) * cfg.spec_levels().len()
}

/// Page `k` of a range that is not refused lies inside it, and both its
/// addresses start a page.
pub proof fn lemma_range_page(pa: u64, va: u64, length: u64, k: u64)
    requires
        spec_range_refused(pa, va, length) is None,
        k < length / 4096,
    ensures
        pa + k * 4096 <= u64::MAX,
        va + k * 4096 <= u64::MAX,
        ((pa + k * 4096) as u64) % 4096 == 0,
        ((va + k * 4096) as u64) % 4096 == 0,
        va <= (va + k * 4096) as u64,
        ((va + k * 4096) as u64) < va + length,
{
    assert(k * 4096 <= length - 4096) by (nonlinear_arith)
        requires
            k < length / 4096,
            length % 4096 == 0,
    ;
}

/// Ranges `r` and on of the kernel's space can each be mapped page by page
/// in `space`, and enough frames are free for them.
pub open spec fn kernel_ranges_ready(
    space: AddressSpace,
    mem: Seq<u64>,
    frames: Seq<FrameState>,
    dm: DirectMap,
    regions: Seq<MemoryRegion>,
    layout: KernelMemoryLayout,
    r: int,
) -> bool {
    &&& forall|q: int, k: u64|
        r <= q < regions.len() + 3 && k < kernel_range(dm, regions, layout, q).2 / 4096 ==> #[trigger] space.spec_page_mappable(
            mem,
            (kernel_range(dm, regions, layout, q).0 + k * 4096) as u64,
            (kernel_range(dm, regions, layout, q).1 + k * 4096) as u64,
            kernel_range(dm, regions, layout, q).3,
            kernel_range(dm, regions, layout, q).4,
        )
    &&& crate::memory::frame::count_state(frames, FrameState::Free) >= kernel_pages_from(dm, regions, layout, r) * space.spec_root().spec_config().spec_levels().len()
}

/// In a kernel space that is one empty root, every range that fits can be
/// mapped page by page.
pub proof fn lemma_kernel_ranges_start(
    space: AddressSpace,
    mem: Seq<u64>,
    frames: Seq<FrameState>,
    dm: DirectMap,
    regions: Seq<MemoryRegion>,
    layout: KernelMemoryLayout,
)
    requires
        space.spec_kind() == AddressSpaceKind::Kernel,
        space.spec_root().spec_tables() == map![space.spec_root().spec_root() => 0nat],
        frame_is_zero(mem, space.spec_root().spec_root()),
        table_accessible(mem, space.spec_root().spec_direct_map(), space.spec_root().spec_root()),
        forall|q: int| 0 <= q < regions.len() + 3 ==> kernel_range_fits(space.spec_root().spec_config(), #[trigger] kernel_range(dm, regions, layout, q)),
        crate::memory::frame::count_state(frames, FrameState::Free) >= kernel_pages_from(dm, regions, layout, 0) * space.spec_root().spec_config().spec_levels().len(),
    ensures
        kernel_ranges_ready(space, mem, frames, dm, regions, layout, 0),
{
    let t = space.spec_root();
    let cfg = t.spec_config();
    let root = t.spec_root();
    crate::arch::paging::lemma_zero_entry_absent();
    assert forall|q: int, k: u64|
        0 <= q < regions.len() + 3 && k < kernel_range(dm, regions, layout, q).2 / 4096 implies #[trigger] space.spec_page_mappable(
        mem,
        (kernel_range(dm, regions, layout, q).0 + k * 4096) as u64,
        (kernel_range(dm, regions, layout, q).1 + k * 4096) as u64,
        kernel_range(dm, regions, layout, q).3,
        kernel_range(dm, regions, layout, q).4,
    ) by {
        let g = kernel_range(dm, regions, layout, q);
        let vb = (g.1 + k * 4096) as u64;
        let pb = (g.0 + k * 4096) as u64;
        assert(kernel_range_fits(cfg, g));
        lemma_range_page(g.0, g.1, g.2, k);
        let level = cfg.spec_levels()[0];
        crate::arch::paging::lemma_index_bound(vb, crate::arch::paging::level_shift(level));
        let idx = crate::arch::paging::level_index(level, vb) as nat;
        assert(mem_entry(mem, root, idx) == 0);
        space.lemma_page_mappable_open(mem, pb, vb, g.3, g.4);
    }
}

/// Once range `r` is mapped (or skipped), the ranges after it are still
/// ready: mapping it touched no page of theirs and cost no more frames
/// than its pages allow.
pub proof fn lemma_kernel_range_done(
    s0: AddressSpace,
    m0: Seq<u64>,
    a0: Seq<FrameState>,
    s1: AddressSpace,
    m1: Seq<u64>,
    a1: Seq<FrameState>,
    dm: DirectMap,
    regions: Seq<MemoryRegion>,
    layout: KernelMemoryLayout,
    r: int,
)
    requires
        0 <= r < regions.len() + 3,
        s0.spec_kind() == AddressSpaceKind::Kernel,
        s0.spec_root().spec_root_limit() == 512,
        s0.spec_root().spec_config().wf(),
        s1.spec_kind() == s0.spec_kind(),
        s1.spec_root().spec_config() == s0.spec_root().spec_config(),
        s1.spec_root().spec_root() == s0.spec_root().spec_root(),
        s1.spec_root().spec_direct_map() == s0.spec_root().spec_direct_map(),
        kernel_ranges_ready(s0, m0, a0, dm, regions, layout, r),
        forall|q: int| 0 <= q < regions.len() + 3 ==> kernel_range_fits(s0.spec_root().spec_config(), #[trigger] kernel_range(dm, regions, layout, q)),
        forall|r1: int, r2: int|
            0 <= r1 < r2 < regions.len() + 3 ==> ranges_disjoint(#[trigger] kernel_range(dm, regions, layout, r1), #[trigger] kernel_range(dm, regions, layout, r2)),
        crate::memory::frame::count_state(a1, FrameState::Free) + (kernel_range(dm, regions, layout, r).2 / 4096) * s0.spec_root().spec_config().spec_levels().len()
            >= crate::memory::frame::count_state(a0, FrameState::Free),
        forall|vb: u64|
            (vb < kernel_range(dm, regions, layout, r).1 || vb >= kernel_range(dm, regions, layout, r).1 + kernel_range(dm, regions, layout, r).2)
                && s0.spec_root().root_index(vb) < s0.spec_root().spec_root_limit() && #[trigger] s0.spec_root().spec_page_open(m0, vb)
                ==> s1.spec_root().spec_page_open(m1, vb),
    ensures
        kernel_ranges_ready(s1, m1, a1, dm, regions, layout, r + 1),
{
    let n = s0.spec_root().spec_config().spec_levels().len();
    let p = kernel_range(dm, regions, layout, r).2 / 4096;
    let f = kernel_pages_from(dm, regions, layout, r + 1);
    assert(kernel_pages_from(dm, regions, layout, r) == p + f);
    assert((p + f) * n == p * n + f * n) by (nonlinear_arith);
    assert forall|q: int, k: u64|
        r + 1 <= q < regions.len() + 3 && k < kernel_range(dm, regions, layout, q).2 / 4096 implies #[trigger] s1.spec_page_mappable(
        m1,
        (kernel_range(dm, regions, layout, q).0 + k * 4096) as u64,
        (kernel_range(dm, regions, layout, q).1 + k * 4096) as u64,
        kernel_range(dm, regions, layout, q).3,
        kernel_range(dm, regions, layout, q).4,
    ) by {
        let g = kernel_range(dm, regions, layout, q);
        let gr = kernel_range(dm, regions, layout, r);
        let vb = (g.1 + k * 4096) as u64;
        let pb = (g.0 + k * 4096) as u64;
        assert(kernel_range_fits(s0.spec_root().spec_config(), g));
        lemma_range_page(g.0, g.1, g.2, k);
        assert(ranges_disjoint(gr, g));
        assert(s0.spec_page_mappable(m0, pb, vb, g.3, g.4));
        s0.lemma_page_mappable_open(m0, pb, vb, g.3, g.4);
        s1.lemma_page_mappable_open(m1, pb, vb, g.3, g.4);
        crate::arch::paging::lemma_index_bound(vb, crate::arch::paging::level_shift(s0.spec_root().spec_config().spec_levels()[0]));
    }
}

impl AddressSpace {
    /// Each page of the `length` bytes at `va` is mapped to the matching
    /// frame of the bytes at `pa`.
    pub open spec fn maps_range(&self, mem: Seq<u64>, pa: u64, va: u64, length: u64) -> bool {
        forall|k: u64| k < length / 4096 ==> #[trigger] self.spec_root().spec_unmap(mem, (va + k * 4096) as u64) == Ok::<
            u64,
            PageTableUnmapError,
        >((pa + k * 4096) as u64)
    }

    /// The direct map `dm` shows `region`, unless the direct map leaves the
    /// region out.
    pub open spec fn maps_region(&self, mem: Seq<u64>, dm: DirectMap, region: MemoryRegion) -> bool {
        spec_direct_map_excludes(region.kind) || (dm.spec_translate(region.start.0) is Some && self.maps_range(
            mem,
            region.start.0,
            dm.spec_translate(region.start.0)->Some_0.0,
            region.length,
        ))
    }

    /// In a space that owns its whole root, a mapped range stays mapped
    /// across a change that keeps every page the space owned.
    pub proof fn lemma_keep_range(&self, mem: Seq<u64>, after: AddressSpace, mem_after: Seq<u64>, pa: u64, va: u64, length: u64)
        requires
            self.spec_root().spec_root_limit() == 512,
            self.maps_range(mem, pa, va, length),
            forall|vb: u64| #[trigger] self.owns_mapping(mem, vb) ==> after.spec_root().spec_unmap(mem_after, vb)
                == self.spec_root().spec_unmap(mem, vb),
        ensures
            after.maps_range(mem_after, pa, va, length),
    {
        assert forall|k: u64| k < length / 4096 implies #[trigger] after.spec_root().spec_unmap(mem_after, (va + k * 4096) as u64)
            == Ok::<u64, PageTableUnmapError>((pa + k * 4096) as u64) by {
            let vb = (va + k * 4096) as u64;
            crate::arch::paging::lemma_index_bound(vb, crate::arch::paging::level_shift(self.spec_root().spec_config().spec_levels()[0]));
            assert(self.spec_root().spec_unmap(mem, vb) == Ok::<u64, PageTableUnmapError>((pa + k * 4096) as u64));
            assert(self.owns_mapping(mem, vb));
        }
    }

    /// The page at `va` could be mapped to the frame at `pa` now: the space
    /// does not refuse it and nothing in the tables stands in the way.
    pub open spec fn spec_page_mappable(&self, mem: Seq<u64>, pa: u64, va: u64, permissions: PagePermissions, cache_policy: CachePolicy) -> bool {
        &&& self.spec_map_refused(pa, va, permissions) is None
        &&& self.spec_root().spec_map_blocked(
            mem,
            va,
            FrameAddr(PhysicalAddr(pa)),
            permissions,
            cache_policy,
            self.spec_kind() == AddressSpaceKind::Kernel,
        ) is None
    }

    /// A page is mappable when the space does not refuse it, a leaf entry
    /// for the frame can be built, and the page is open in the tables.
    pub proof fn lemma_page_mappable_open(&self, mem: Seq<u64>, pa: u64, va: u64, permissions: PagePermissions, cache_policy: CachePolicy)
        ensures
            self.spec_page_mappable(mem, pa, va, permissions, cache_policy) <==> {
                &&& self.spec_map_refused(pa, va, permissions) is None
                &&& spec_leaf_entry(
                    pa,
                    permissions,
                    cache_policy,
                    self.spec_root().spec_config(),
                    self.spec_kind() == AddressSpaceKind::Kernel,
                ) is Ok
                &&& self.spec_root().spec_page_open(mem, va)
            },
    {
    }

    /// Taking free frame `fi` for a page that could be mapped, and writing
    /// only into that frame, costs one free frame and lets the page be
    /// mapped to it, when frames are left for the tables it needs.
    pub proof fn lemma_take_frame_for_page(
        &self,
        m1: Seq<u64>,
        a1: Seq<FrameState>,
        m2: Seq<u64>,
        a2: Seq<FrameState>,
        fi: int,
        va: u64,
        permissions: PagePermissions,
        cache_policy: CachePolicy,
    )
        requires
            self.wf(m1, a1),
            0 <= fi < a1.len(),
            a1[fi] == FrameState::Free,
            a2 == a1.update(fi, FrameState::Allocated),
            m2.len() == m1.len(),
            forall|w: int| 0 <= w < m1.len() && !(fi * 512 <= w < fi * 512 + 512) ==> #[trigger] m2[w] == m1[w],
            self.spec_page_mappable(m1, 0, va, permissions, cache_policy),
            crate::memory::frame::count_state(a1, FrameState::Free) >= self.spec_root().spec_config().spec_levels().len() + 1,
            a1.len() * 4096 <= self.spec_root().spec_config().spec_limit(),
            a1.len() * 4096 + self.spec_root().spec_direct_map().spec_offset() <= u64::MAX + 1,
        ensures
            crate::memory::frame::count_state(a2, FrameState::Free) + 1 == crate::memory::frame::count_state(a1, FrameState::Free),
            self.spec_map_succeeds(m2, a2, (fi * 4096) as u64, va, permissions, cache_policy),
            forall|vb: u64|
                self.spec_root().root_index(vb) < self.spec_root().spec_root_limit() ==> #[trigger] self.spec_root().spec_page_open(m2, vb)
                    == self.spec_root().spec_page_open(m1, vb),
    {
        crate::memory::frame::lemma_count_update(a1, fi, FrameState::Allocated, FrameState::Free);
        self.lemma_take_free_frame(m1, m2, a1, a2, fi);
        self.spec_root().lemma_wf_basics(m1, a1);
        let pa = (fi * 4096) as u64;
        self.lemma_page_mappable_open(m1, 0, va, permissions, cache_policy);
        self.lemma_page_mappable_open(m2, pa, va, permissions, cache_policy);
        crate::arch::paging::lemma_index_bound(va, crate::arch::paging::level_shift(self.spec_root().spec_config().spec_levels()[0]));
        if self.spec_kind() == AddressSpaceKind::User {
            lemma_user_root_index(self.spec_root(), va);
        }
        assert(fi * 4096 < self.spec_root().spec_config().spec_limit()) by (nonlinear_arith)
            requires
                0 <= fi < a1.len(),
                a1.len() * 4096 <= self.spec_root().spec_config().spec_limit(),
        ;
        assert(pa % 4096 == 0) by (nonlinear_arith)
            requires
                0 <= fi,
                fi * 4096 <= u64::MAX,
                pa == fi * 4096,
        ;
        self.spec_root().lemma_missing_tables_bound(m2, va);
    }

    /// [`AddressSpace::map_range`] succeeds on these: the range is not
    /// refused, each of its pages could be mapped now, and enough frames are
    /// free for every table the pages might need.
    pub open spec fn spec_range_mappable(
        &self,
        mem: Seq<u64>,
        frames: Seq<FrameState>,
        pa: u64,
        va: u64,
        length: u64,
        permissions: PagePermissions,
        cache_policy: CachePolicy,
    ) -> bool {
        &&& spec_range_refused(pa, va, length) is None
        &&& forall|k: u64| k < length / 4096 ==> #[trigger] self.spec_page_mappable(mem, (pa + k * 4096) as u64, (va + k * 4096) as u64, permissions, cache_policy)
        &&& crate::memory::frame::count_state(frames, FrameState::Free) >= (length / 4096) * self.spec_root().spec_config().spec_levels().len()
        &&& frames.len() * 4096 <= self.spec_root().spec_config().spec_limit()
        &&& frames.len() * 4096 + self.spec_root().spec_direct_map().spec_offset() <= u64::MAX + 1
    }

    /// Page `vb` is mapped in the part of the hierarchy the space owns.
    pub open spec fn owns_mapping(&self, mem: Seq<u64>, vb: u64) -> bool {
        &&& self.spec_root().root_index(vb) < self.spec_root().spec_root_limit()
        &&& self.spec_root().spec_unmap(mem, vb) is Ok
    }

    /// Maps the `length` bytes at `virtual_start` to those at
    /// `physical_start`, page by page. If a page fails, the pages this call
    /// mapped are unmapped again, last first, and the page's error returned.
    pub fn map_range(
        &mut self,
        mem: &mut PhysicalMemory,
        physical_start: PhysicalAddr,
        virtual_start: VirtualAddr,
        length: u64,
        permissions: PagePermissions,
        allocator: &mut FrameAllocator,
        cache_policy: CachePolicy,
    ) -> (r: Result<(), MapError>)
        requires
            old(self).wf(old(mem)@, old(allocator)@),
            old(allocator).wf(),
            old(allocator).backed_by(old(mem)@),
        ensures
            final(allocator).wf(),
            final(allocator).backed_by(final(mem)@),
            final(allocator).spec_direct_map() == old(allocator).spec_direct_map(),
            final(allocator).spec_allocatable_frames() == old(allocator).spec_allocatable_frames(),
            final(allocator)@.len() == old(allocator)@.len(),
            final(self).wf(final(mem)@, final(allocator)@),
            final(self).spec_kind() == old(self).spec_kind(),
            final(self).spec_root().spec_config() == old(self).spec_root().spec_config(),
            final(self).spec_root().spec_root() == old(self).spec_root().spec_root(),
            final(self).spec_root().spec_direct_map() == old(self).spec_root().spec_direct_map(),
            final(self).spec_root().spec_root_limit() == old(self).spec_root().spec_root_limit(),
            final(mem)@.len() == old(mem)@.len(),
            length == 0 ==> r is Ok && final(mem)@ == old(mem)@ && final(allocator)@ == old(allocator)@,
            length != 0 && spec_range_refused(physical_start.0, virtual_start.0, length) is Some ==> r == Err::<(), MapError>(
                spec_range_refused(physical_start.0, virtual_start.0, length)->Some_0,
            ) && final(mem)@ == old(mem)@ && final(allocator)@ == old(allocator)@,
            r is Ok ==> final(self).maps_range(final(mem)@, physical_start.0, virtual_start.0, length),
            forall|vb: u64| #[trigger] old(self).owns_mapping(old(mem)@, vb) ==> final(self).spec_root().spec_unmap(final(mem)@, vb)
                == old(self).spec_root().spec_unmap(old(mem)@, vb),
            old(self).spec_range_mappable(old(mem)@, old(allocator)@, physical_start.0, virtual_start.0, length, permissions, cache_policy)
                ==> r is Ok,
            r is Ok ==> crate::memory::frame::count_state(final(allocator)@, FrameState::Free) + (length / 4096) * old(
                self,
            ).spec_root().spec_config().spec_levels().len() >= crate::memory::frame::count_state(old(allocator)@, FrameState::Free),
            r is Ok ==> forall|vb: u64|
                (vb < virtual_start.0 || vb >= virtual_start.0 + length) && old(self).spec_root().root_index(vb)
                    < old(self).spec_root().spec_root_limit() && #[trigger] old(self).spec_root().spec_page_open(old(mem)@, vb)
                    ==> final(self).spec_root().spec_page_open(final(mem)@, vb),
    {
        if length == 0 {
            return Ok(());
        }
        if physical_start.0 % 4096 != 0 {
            return Err(MapError::PhysicalAddressUnaligned);
        }
        if virtual_start.0 % 4096 != 0 {
            return Err(MapError::VirtualAddressUnaligned);
        }
        if length % 4096 != 0 {
            return Err(MapError::RangeLengthUnaligned);
        }
        let last_offset = length - 4096;
        if physical_start.0.checked_add(last_offset).is_none() {
            return Err(MapError::AddressOverflow);
        }
        if virtual_start.0.checked_add(last_offset).is_none() {
            return Err(MapError::AddressOverflow);
        }
        let ghost self0 = *self;
        let ghost mem0 = mem@;
        let ghost a0 = allocator@;
        let pa = physical_start.0;
        let va = virtual_start.0;
        let page_count = length / 4096;
        let mut mapped: u64 = 0;
        assert(spec_range_refused(physical_start.0, virtual_start.0, length) is None);
        while mapped < page_count
            invariant
                self.wf(mem@, allocator@),
                allocator.wf(),
                allocator.backed_by(mem@),
                allocator.spec_direct_map() == old(allocator).spec_direct_map(),
                allocator.spec_allocatable_frames() == old(allocator).spec_allocatable_frames(),
                allocator@.len() == old(allocator)@.len(),
                self.spec_kind() == self0.spec_kind(),
                self.spec_root().spec_config() == self0.spec_root().spec_config(),
                self.spec_root().spec_root() == self0.spec_root().spec_root(),
                self.spec_root().spec_direct_map() == self0.spec_root().spec_direct_map(),
                self.spec_root().spec_root_limit() == self0.spec_root().spec_root_limit(),
                self0 == *old(self),
                mem0 == old(mem)@,
                a0 == old(allocator)@,
                mem@.len() == mem0.len(),
                self0.wf(mem0, a0),
                page_count == length / 4096,
                page_count * 4096 == length,
                pa + (length - 4096) <= u64::MAX,
                va + (length - 4096) <= u64::MAX,
                va % 4096 == 0,
                pa % 4096 == 0,
                mapped <= page_count,
                forall|i: u64| i < mapped ==> #[trigger] self.spec_root().spec_unmap(mem@, (va + i * 4096) as u64) == Ok::<
                    u64,
                    PageTableUnmapError,
                >((pa + i * 4096) as u64),
                forall|i: u64| i < mapped ==> #[trigger] self0.owns_mapping(mem0, (va + i * 4096) as u64) == false,
                forall|i: u64| i < mapped ==> #[trigger] self0.spec_root().root_index((va + i * 4096) as u64) < self0.spec_root().spec_root_limit(),
                forall|i: u64| i < mapped ==> self0.spec_kind() == AddressSpaceKind::User ==> #[trigger] ((va + i * 4096) as u64) < USER_SPACE_END,
                forall|vb: u64| #[trigger] self0.owns_mapping(mem0, vb) ==> self.spec_root().spec_unmap(mem@, vb) == self0.spec_root().spec_unmap(mem0, vb),
                length != 0,
                pa == physical_start.0,
                va == virtual_start.0,
                spec_range_refused(physical_start.0, virtual_start.0, length) is None,
                crate::memory::frame::count_state(allocator@, FrameState::Free) + mapped * self0.spec_root().spec_config().spec_levels().len()
                    >= crate::memory::frame::count_state(a0, FrameState::Free),
                forall|vb: u64|
                    (vb < va || vb >= va + length) && self0.spec_root().root_index(vb)
                        < self0.spec_root().spec_root_limit() && #[trigger] self0.spec_root().spec_page_open(mem0, vb)
                        ==> self.spec_root().spec_page_open(mem@, vb),
                self0.spec_range_mappable(mem0, a0, pa, va, length, permissions, cache_policy) ==> {
                    &&& forall|i: u64| mapped <= i < page_count ==> #[trigger] self.spec_page_mappable(mem@, (pa + i * 4096) as u64, (va + i * 4096) as u64, permissions, cache_policy)
                    &&& crate::memory::frame::count_state(allocator@, FrameState::Free) >= (page_count - mapped) * self0.spec_root().spec_config().spec_levels().len()
                },
            decreases page_count - mapped,
        {
            proof {
                assert(mapped * 4096 <= length - 4096) by (nonlinear_arith)
                    requires
                        mapped < page_count,
                        page_count * 4096 == length,
                ;
            }
            let offset = mapped * 4096;
            let page_pa = pa + offset;
            let page_va = va + offset;
            let ghost s1 = *self;
            let ghost m1 = mem@;
            let ghost al1 = allocator@;
            proof {
                s1.spec_root().lemma_wf_basics(m1, allocator@);
                if s1.owns_mapping(m1, page_va) {
                    let r0 = s1.spec_root();
                    let dm = r0.spec_direct_map();
                    r0.lemma_mapped_blocks_map(m1, allocator@, page_va, 0, r0.spec_root());
                }
            }
            proof {
                s1.spec_root().lemma_missing_tables_bound(m1, page_va);
                if self0.spec_range_mappable(mem0, a0, pa, va, length, permissions, cache_policy) {
                    assert((va + mapped * 4096) as u64 == page_va && (pa + mapped * 4096) as u64 == page_pa);
                    assert(s1.spec_page_mappable(m1, page_pa, page_va, permissions, cache_policy));
                    assert((page_count - mapped) * s1.spec_root().spec_config().spec_levels().len() >= s1.spec_root().spec_config().spec_levels().len())
                        by (nonlinear_arith)
                        requires
                            mapped < page_count,
                    ;
                    assert(s1.spec_map_succeeds(m1, al1, page_pa, page_va, permissions, cache_policy));
                }
            }
            match self.map(mem, PhysicalAddr::new(page_pa), VirtualAddr::new(page_va), permissions, allocator, cache_policy) {
                Ok(()) => {
                    proof {
                        let n = s1.spec_root().spec_config().spec_levels().len();
                        assert((mapped + 1) * n == mapped * n + n) by (nonlinear_arith);
                        assert forall|vb: u64|
                            (vb < va || vb >= va + length) && self0.spec_root().root_index(vb)
                                < self0.spec_root().spec_root_limit() && #[trigger] self0.spec_root().spec_page_open(mem0, vb)
                            implies self.spec_root().spec_page_open(mem@, vb) by {
                            assert(vb != (va + mapped * 4096) as u64);
                        }
                    }
                    proof {
                        if self0.spec_range_mappable(mem0, a0, pa, va, length, permissions, cache_policy) {
                            let n = s1.spec_root().spec_config().spec_levels().len();
                            let k = s1.spec_root().spec_missing_tables(m1, page_va);
                            assert((page_count - mapped) * n - n == (page_count - (mapped + 1)) * n) by (nonlinear_arith);
                            assert forall|i: u64| mapped + 1 <= i < page_count implies #[trigger] self.spec_page_mappable(
                                mem@,
                                (pa + i * 4096) as u64,
                                (va + i * 4096) as u64,
                                permissions,
                                cache_policy,
                            ) by {
                                let vi = (va + i * 4096) as u64;
                                let pi = (pa + i * 4096) as u64;
                                assert(s1.spec_page_mappable(m1, pi, vi, permissions, cache_policy));
                                assert(i * 4096 <= length - 4096) by (nonlinear_arith)
                                    requires
                                        i < page_count,
                                        page_count * 4096 == length,
                                ;
                                assert(vi != page_va) by (nonlinear_arith)
                                    requires
                                        vi == va + i * 4096,
                                        page_va == va + mapped * 4096,
                                        i != mapped,
                                ;
                                crate::arch::paging::lemma_index_bound(vi, crate::arch::paging::level_shift(s1.spec_root().spec_config().spec_levels()[0]));
                                if s1.spec_kind() == AddressSpaceKind::User {
                                    lemma_user_root_index(s1.spec_root(), vi);
                                }
                                assert(s1.spec_root().spec_page_open(m1, vi));
                                assert(self.spec_root().spec_page_open(mem@, vi));
                            }
                        }
                    }
                    proof {
                        s1.spec_root().lemma_wf_basics(m1, al1);
                        assert((va + mapped * 4096) as u64 == page_va);
                        crate::arch::paging::lemma_index_bound(page_va, crate::arch::paging::level_shift(s1.spec_root().spec_config().spec_levels()[0]));
                        if s1.spec_kind() == AddressSpaceKind::User {
                            lemma_user_root_index(s1.spec_root(), page_va);
                        }
                        assert(self0.spec_root().root_index(page_va) < self0.spec_root().spec_root_limit());
                        assert(self0.spec_kind() == AddressSpaceKind::User ==> page_va < USER_SPACE_END);
                        assert(!s1.owns_mapping(m1, page_va));
                        assert(!self0.owns_mapping(mem0, page_va)) by {
                            if self0.owns_mapping(mem0, page_va) {
                                assert(s1.spec_root().spec_unmap(m1, page_va) == self0.spec_root().spec_unmap(mem0, page_va));
                            }
                        }
                        assert forall|i: u64| i < mapped + 1 implies #[trigger] self.spec_root().spec_unmap(mem@, (va + i * 4096) as u64) == Ok::<
                            u64,
                            PageTableUnmapError,
                        >((pa + i * 4096) as u64) by {
                            if i < mapped {
                                assert((va + i * 4096) as u64 != page_va);
                                assert(self0.spec_root().root_index((va + i * 4096) as u64) < self0.spec_root().spec_root_limit());
                                assert(s1.spec_root().spec_unmap(m1, (va + i * 4096) as u64) is Ok);
                                assert(s1.owns_mapping(m1, (va + i * 4096) as u64));
                            }
                        }
                        assert forall|vb: u64| #[trigger] self0.owns_mapping(mem0, vb) implies self.spec_root().spec_unmap(mem@, vb)
                            == self0.spec_root().spec_unmap(mem0, vb) by {
                            assert(vb != page_va);
                            assert(s1.owns_mapping(m1, vb));
                        }
                    }
                    mapped = mapped + 1;
                },
                Err(e) => {
                    proof {
                        assert forall|i: u64| i < mapped implies #[trigger] self.spec_root().spec_unmap(mem@, (va + i * 4096) as u64)
                            == Ok::<u64, PageTableUnmapError>((pa + i * 4096) as u64) by {
                            assert(self0.spec_root().root_index((va + i * 4096) as u64) < self0.spec_root().spec_root_limit());
                            assert(s1.spec_root().spec_unmap(m1, (va + i * 4096) as u64) is Ok);
                        }
                    }
                    self.rollback(mem, allocator, va, pa, mapped, Ghost(self0), Ghost(mem0));
                    return Err(e);
                },
            }
        }
        Ok(())
    }

    /// Unmaps the first `mapped` pages at `va`, last first: pages this
    /// space maps to the frames at `pa` and that were not mapped before.
    fn rollback(
        &mut self,
        mem: &mut PhysicalMemory,
        allocator: &mut FrameAllocator,
        va: u64,
        pa: u64,
        mapped: u64,
        Ghost(self0): Ghost<AddressSpace>,
        Ghost(mem0): Ghost<Seq<u64>>,
    )
        requires
            old(self).wf(old(mem)@, old(allocator)@),
            old(allocator).wf(),
            old(allocator).backed_by(old(mem)@),
            mapped == 0 || va + (mapped - 1) * 4096 <= u64::MAX,
            mapped == 0 || pa + (mapped - 1) * 4096 <= u64::MAX,
            forall|i: u64| i < mapped ==> #[trigger] old(self).spec_root().spec_unmap(old(mem)@, (va + i * 4096) as u64) == Ok::<
                u64,
                PageTableUnmapError,
            >((pa + i * 4096) as u64),
            forall|i: u64| i < mapped ==> #[trigger] self0.owns_mapping(mem0, (va + i * 4096) as u64) == false,
            old(self).spec_kind() == self0.spec_kind(),
            old(self).spec_root().spec_config() == self0.spec_root().spec_config(),
            old(self).spec_root().spec_root_limit() == self0.spec_root().spec_root_limit(),
            forall|i: u64| i < mapped ==> #[trigger] self0.spec_root().root_index((va + i * 4096) as u64) < self0.spec_root().spec_root_limit(),
            forall|i: u64| i < mapped ==> self0.spec_kind() == AddressSpaceKind::User ==> #[trigger] ((va + i * 4096) as u64) < USER_SPACE_END,
            forall|vb: u64| #[trigger] self0.owns_mapping(mem0, vb) ==> old(self).spec_root().spec_unmap(old(mem)@, vb) == self0.spec_root().spec_unmap(mem0, vb),
        ensures
            final(allocator).wf(),
            final(allocator).backed_by(final(mem)@),
            final(allocator).spec_direct_map() == old(allocator).spec_direct_map(),
            final(allocator).spec_allocatable_frames() == old(allocator).spec_allocatable_frames(),
            final(allocator)@.len() == old(allocator)@.len(),
            final(self).wf(final(mem)@, final(allocator)@),
            final(self).spec_kind() == old(self).spec_kind(),
            final(self).spec_root().spec_config() == old(self).spec_root().spec_config(),
            final(self).spec_root().spec_root() == old(self).spec_root().spec_root(),
            final(self).spec_root().spec_direct_map() == old(self).spec_root().spec_direct_map(),
            final(self).spec_root().spec_root_limit() == old(self).spec_root().spec_root_limit(),
            final(mem)@.len() == old(mem)@.len(),
            forall|vb: u64| #[trigger] self0.owns_mapping(mem0, vb) ==> final(self).spec_root().spec_unmap(final(mem)@, vb)
                == self0.spec_root().spec_unmap(mem0, vb),
            forall|i: u64| i < mapped ==> #[trigger] final(self).translate(final(mem)@, (va + i * 4096) as u64) is None,
    {
        let mut j = mapped;
        while j > 0
            invariant
                self.wf(mem@, allocator@),
                allocator.wf(),
                allocator.backed_by(mem@),
                allocator.spec_direct_map() == old(allocator).spec_direct_map(),
                allocator.spec_allocatable_frames() == old(allocator).spec_allocatable_frames(),
                allocator@.len() == old(allocator)@.len(),
                self.spec_kind() == old(self).spec_kind(),
                self.spec_root().spec_config() == old(self).spec_root().spec_config(),
                self.spec_root().spec_root() == old(self).spec_root().spec_root(),
                self.spec_root().spec_direct_map() == old(self).spec_root().spec_direct_map(),
                self.spec_root().spec_root_limit() == old(self).spec_root().spec_root_limit(),
                mem@.len() == old(mem)@.len(),
                j <= mapped,
                mapped == 0 || va + (mapped - 1) * 4096 <= u64::MAX,
                forall|i: u64| i < j ==> #[trigger] self.spec_root().spec_unmap(mem@, (va + i * 4096) as u64) == Ok::<
                    u64,
                    PageTableUnmapError,
                >((pa + i * 4096) as u64),
                forall|i: u64| i < mapped ==> #[trigger] self0.owns_mapping(mem0, (va + i * 4096) as u64) == false,
                forall|i: u64| i < mapped ==> #[trigger] self0.spec_root().root_index((va + i * 4096) as u64) < self0.spec_root().spec_root_limit(),
                forall|i: u64| i < mapped ==> self0.spec_kind() == AddressSpaceKind::User ==> #[trigger] ((va + i * 4096) as u64) < USER_SPACE_END,
                forall|vb: u64| #[trigger] self0.owns_mapping(mem0, vb) ==> self.spec_root().spec_unmap(mem@, vb) == self0.spec_root().spec_unmap(mem0, vb),
                self.spec_kind() == self0.spec_kind(),
                self.spec_root().spec_config() == self0.spec_root().spec_config(),
                self.spec_root().spec_root_limit() == self0.spec_root().spec_root_limit(),
                forall|i: u64| j <= i < mapped ==> #[trigger] self.translate(mem@, (va + i * 4096) as u64) is None,
            decreases j,
        {
            j = j - 1;
            proof {
                assert(j * 4096 <= (mapped - 1) * 4096) by (nonlinear_arith)
                    requires
                        j < mapped,
                ;
            }
            let page_va = va + j * 4096;
            let ghost s1 = *self;
            let ghost m1 = mem@;
            proof {
                assert((va + j * 4096) as u64 == page_va);
                assert(self0.spec_root().root_index(page_va) < self0.spec_root().spec_root_limit());
                assert(self0.spec_kind() == AddressSpaceKind::User ==> page_va < USER_SPACE_END);
            }
            let r = self.unmap(mem, VirtualAddr::new(page_va), allocator);
            proof {
                assert(s1.spec_root().spec_unmap(m1, page_va) is Ok);
                assert(r is Ok);
                assert forall|i: u64| j <= i < mapped implies #[trigger] self.translate(mem@, (va + i * 4096) as u64) is None by {
                    if i != j {
                        assert(s1.translate(m1, (va + i * 4096) as u64) is None);
                    }
                }
                assert forall|i: u64| i < j implies #[trigger] self.spec_root().spec_unmap(mem@, (va + i * 4096) as u64) == Ok::<
                    u64,
                    PageTableUnmapError,
                >((pa + i * 4096) as u64) by {
                    assert((va + i * 4096) as u64 != page_va);
                    assert(self0.spec_root().root_index((va + i * 4096) as u64) < self0.spec_root().spec_root_limit());
                    assert(s1.spec_root().spec_unmap(m1, (va + i * 4096) as u64) is Ok);
                }
                assert forall|vb: u64| #[trigger] self0.owns_mapping(mem0, vb) implies self.spec_root().spec_unmap(mem@, vb)
                    == self0.spec_root().spec_unmap(mem0, vb) by {
                    if vb == page_va {
                        assert(self0.owns_mapping(mem0, (va + j * 4096) as u64) == false);
                    } else {
                        assert(s1.spec_root().spec_unmap(m1, vb) == self0.spec_root().spec_unmap(mem0, vb));
                        assert(s1.owns_mapping(m1, vb));
                    }
                }
            }
        }
    }
}

impl AddressSpace {
    /// The kernel's address space: a fresh root, the direct map of every
    /// region it does not leave out (writable, not executable, kernel only),
    /// then each kernel segment at its virtual base with its permissions.
    /// If a range cannot be mapped, the page tables made so far are freed.
    pub fn new_kernel(
        direct_map: DirectMap,
        memory_regions: &[MemoryRegion],
        layout: &KernelMemoryLayout,
        paging_config: PagingConfig,
        allocator: &mut FrameAllocator,
        mem: &mut PhysicalMemory,
    ) -> (r: Result<Self, AddressSpaceCreateError>)
        requires
            paging_config.wf(),
            old(allocator).spec_direct_map() == direct_map,
            old(allocator).wf(),
            old(allocator).backed_by(old(mem)@),
        ensures
            final(allocator).wf(),
            final(allocator).backed_by(final(mem)@),
            final(allocator).spec_direct_map() == old(allocator).spec_direct_map(),
            final(allocator).spec_allocatable_frames() == old(allocator).spec_allocatable_frames(),
            final(mem)@.len() == old(mem)@.len(),
            match r {
                Ok(s) => {
                    &&& s.spec_kind() == AddressSpaceKind::Kernel
                    &&& s.wf(final(mem)@, final(allocator)@)
                    &&& s.spec_root().spec_config() == paging_config
                    &&& s.spec_root().spec_direct_map() == direct_map
                    &&& forall|i: int| 0 <= i < memory_regions@.len() ==> #[trigger] s.maps_region(
                        final(mem)@,
                        direct_map,
                        memory_regions@[i],
                    )
                    &&& forall|j: int| 0 <= j < 3 ==> #[trigger] s.maps_range(
                        final(mem)@,
                        layout.segments[j].physical_base.0,
                        layout.segments[j].virtual_base.0,
                        layout.segments[j].length,
                    )
                },
                Err(AddressSpaceCreateError::AddressOutsideDirectMap) => exists|i: int|
                    0 <= i < memory_regions@.len() && !spec_direct_map_excludes(#[trigger] memory_regions@[i].kind)
                        && direct_map.spec_translate(memory_regions@[i].start.0) is None,
                Err(AddressSpaceCreateError::OutOfMemory) => !has_free(old(allocator)@) && final(allocator)@ == old(allocator)@,
                Err(AddressSpaceCreateError::PhysicalAddressTooLarge) => final(allocator)@ == old(allocator)@,
                Err(AddressSpaceCreateError::Mapping(_)) => true,
            },
            spec_kernel_space_mappable(direct_map, memory_regions@, *layout, paging_config, old(allocator)@) ==> r is Ok,
    {
        let ghost a00 = allocator@;
        let root = match PageTable::new(direct_map, paging_config, allocator, mem) {
            Ok(t) => t,
            Err(e) => {
                proof {
                    if spec_kernel_space_mappable(direct_map, memory_regions@, *layout, paging_config, old(allocator)@) && !has_free(a00) {
                        crate::memory::frame::lemma_count_absent(a00, FrameState::Free);
                    }
                }
                return Err(AddressSpaceCreateError::from_page_table(e));
            },
        };
        let mut space = AddressSpace { root, kind: AddressSpaceKind::Kernel };
        proof {
            if spec_kernel_space_mappable(direct_map, memory_regions@, *layout, paging_config, old(allocator)@) {
                crate::memory::frame::lemma_count_update(a00, root.spec_root() as int, FrameState::Allocated, FrameState::Free);
                lemma_kernel_ranges_start(space, mem@, allocator@, direct_map, memory_regions@, *layout);
            }
        }
        let n = memory_regions.len();
        let mut i: usize = 0;
        while i < n
            invariant
                n == memory_regions@.len(),
                i <= n,
                space.wf(mem@, allocator@),
                space.spec_kind() == AddressSpaceKind::Kernel,
                space.spec_root().spec_config() == paging_config,
                space.spec_root().spec_direct_map() == direct_map,
                space.spec_root().spec_root_limit() == 512,
                allocator.wf(),
                allocator.backed_by(mem@),
                allocator.spec_direct_map() == old(allocator).spec_direct_map(),
                allocator.spec_allocatable_frames() == old(allocator).spec_allocatable_frames(),
                mem@.len() == old(mem)@.len(),
                forall|j: int| 0 <= j < i ==> #[trigger] space.maps_region(mem@, direct_map, memory_regions@[j]),
                allocator@.len() == old(allocator)@.len(),
                paging_config.wf(),
                spec_kernel_space_mappable(direct_map, memory_regions@, *layout, paging_config, old(allocator)@) ==> kernel_ranges_ready(space, mem@, allocator@, direct_map, memory_regions@, *layout, i as int),
            decreases n - i,
        {
            let region = memory_regions[i];
            let excluded = match region.kind {
                MemoryRegionKind::Reserved => true,
                MemoryRegionKind::BadMemory => true,
                MemoryRegionKind::KernelAndModules => true,
                _ => false,
            };
            if !excluded {
                let cache_policy = match region.kind {
                    MemoryRegionKind::MappedReserved => CachePolicy::Uncacheable,
                    MemoryRegionKind::Framebuffer => CachePolicy::Uncacheable,
                    _ => CachePolicy::WriteBack,
                };
                let virtual_start = match direct_map.translate(region.start) {
                    Some(v) => v,
                    None => return Err(AddressSpaceCreateError::AddressOutsideDirectMap),
                };
                let ghost s0 = space;
                let ghost m0 = mem@;
                let ghost a_s = allocator@;
                let permissions = PagePermissions::new(true, false, false);
                proof {
                    if spec_kernel_space_mappable(direct_map, memory_regions@, *layout, paging_config, old(allocator)@) {
                        let g = kernel_range(direct_map, memory_regions@, *layout, i as int);
                        assert(memory_regions@[i as int] == region);
                        assert(g.0 == region.start.0 && g.1 == virtual_start.0 && g.2 == region.length && g.3 == permissions && g.4 == cache_policy);
                        let nl = paging_config.spec_levels().len();
                        let pg = region.length / 4096;
                        assert(kernel_pages_from(direct_map, memory_regions@, *layout, i as int) == pg + kernel_pages_from(
                            direct_map,
                            memory_regions@,
                            *layout,
                            i + 1,
                        ));
                        assert((pg + kernel_pages_from(direct_map, memory_regions@, *layout, i + 1)) * nl >= pg * nl) by (nonlinear_arith);
                        if region.length != 0 {
                            assert(kernel_range_fits(paging_config, g));
                            assert forall|k: u64| k < region.length / 4096 implies #[trigger] s0.spec_page_mappable(
                                m0,
                                (region.start.0 + k * 4096) as u64,
                                (virtual_start.0 + k * 4096) as u64,
                                permissions,
                                cache_policy,
                            ) by {
                                assert(k < g.2 / 4096);
                            }
                            assert(s0.spec_range_mappable(m0, a_s, region.start.0, virtual_start.0, region.length, permissions, cache_policy));
                        }
                    }
                }
                let res = space.map_range(
                    mem,
                    region.start,
                    virtual_start,
                    region.length,
                    permissions,
                    allocator,
                    cache_policy,
                );
                match res {
                    Ok(()) => {
                        proof {
                            if spec_kernel_space_mappable(direct_map, memory_regions@, *layout, paging_config, old(allocator)@) {
                                lemma_kernel_range_done(s0, m0, a_s, space, mem@, allocator@, direct_map, memory_regions@, *layout, i as int);
                            }
                        }
                        proof {
                            assert forall|j: int| 0 <= j < i + 1 implies #[trigger] space.maps_region(mem@, direct_map, memory_regions@[j]) by {
                                if j < i && !spec_direct_map_excludes(memory_regions@[j].kind) {
                                    let rj = memory_regions@[j];
                                    assert(s0.maps_region(m0, direct_map, rj));
                                    s0.lemma_keep_range(m0, space, mem@, rj.start.0, direct_map.spec_translate(rj.start.0)->Some_0.0, rj.length);
                                }
                            }
                        }
                    },
                    Err(err) => {
                        space.destroy(mem, allocator);
                        return Err(AddressSpaceCreateError::Mapping(err));
                    },
                }
            } else {
                assert(space.maps_region(mem@, direct_map, memory_regions@[i as int]));
                proof {
                    if spec_kernel_space_mappable(direct_map, memory_regions@, *layout, paging_config, old(allocator)@) {
                        assert(memory_regions@[i as int] == region);
                        lemma_kernel_range_done(space, mem@, allocator@, space, mem@, allocator@, direct_map, memory_regions@, *layout, i as int);
                    }
                }
            }
            i = i + 1;
        }
        let mut k: usize = 0;
        while k < 3
            invariant
                n == memory_regions@.len(),
                k <= 3,
                space.wf(mem@, allocator@),
                space.spec_kind() == AddressSpaceKind::Kernel,
                space.spec_root().spec_config() == paging_config,
                space.spec_root().spec_direct_map() == direct_map,
                space.spec_root().spec_root_limit() == 512,
                allocator.wf(),
                allocator.backed_by(mem@),
                allocator.spec_direct_map() == old(allocator).spec_direct_map(),
                allocator.spec_allocatable_frames() == old(allocator).spec_allocatable_frames(),
                mem@.len() == old(mem)@.len(),
                forall|j: int| 0 <= j < n ==> #[trigger] space.maps_region(mem@, direct_map, memory_regions@[j]),
                forall|j: int| 0 <= j < k ==> #[trigger] space.maps_range(
                    mem@,
                    layout.segments[j].physical_base.0,
                    layout.segments[j].virtual_base.0,
                    layout.segments[j].length,
                ),
                allocator@.len() == old(allocator)@.len(),
                paging_config.wf(),
                spec_kernel_space_mappable(direct_map, memory_regions@, *layout, paging_config, old(allocator)@) ==> kernel_ranges_ready(space, mem@, allocator@, direct_map, memory_regions@, *layout, n + k),
            decreases 3 - k,
        {
            let segment = &layout.segments[k];
            let ghost s0 = space;
            let ghost m0 = mem@;
            let ghost a_s = allocator@;
            proof {
                if spec_kernel_space_mappable(direct_map, memory_regions@, *layout, paging_config, old(allocator)@) {
                    let r = n + k;
                    let g = kernel_range(direct_map, memory_regions@, *layout, r);
                    assert(r - memory_regions@.len() == k);
                    assert(g.0 == segment.physical_base.0 && g.1 == segment.virtual_base.0 && g.2 == segment.length && g.3 == segment.permissions
                        && g.4 == CachePolicy::WriteBack);
                    let nl = paging_config.spec_levels().len();
                    let pg = segment.length / 4096;
                    assert(kernel_pages_from(direct_map, memory_regions@, *layout, r) == pg + kernel_pages_from(direct_map, memory_regions@, *layout, r + 1));
                    assert((pg + kernel_pages_from(direct_map, memory_regions@, *layout, r + 1)) * nl >= pg * nl) by (nonlinear_arith);
                    if segment.length != 0 {
                        assert(kernel_range_fits(paging_config, g));
                        assert forall|j: u64| j < segment.length / 4096 implies #[trigger] s0.spec_page_mappable(
                            m0,
                            (segment.physical_base.0 + j * 4096) as u64,
                            (segment.virtual_base.0 + j * 4096) as u64,
                            segment.permissions,
                            CachePolicy::WriteBack,
                        ) by {
                            assert(j < g.2 / 4096);
                        }
                        assert(s0.spec_range_mappable(
                            m0,
                            a_s,
                            segment.physical_base.0,
                            segment.virtual_base.0,
                            segment.length,
                            segment.permissions,
                            CachePolicy::WriteBack,
                        ));
                    }
                }
            }
            let res = space.map_range(
                mem,
                segment.physical_base,
                segment.virtual_base,
                segment.length,
                segment.permissions,
                allocator,
                CachePolicy::WriteBack,
            );
            match res {
                Ok(()) => {
                    proof {
                        if spec_kernel_space_mappable(direct_map, memory_regions@, *layout, paging_config, old(allocator)@) {
                            lemma_kernel_range_done(s0, m0, a_s, space, mem@, allocator@, direct_map, memory_regions@, *layout, n + k);
                        }
                    }
                    proof {
                        assert forall|j: int| 0 <= j < n implies #[trigger] space.maps_region(mem@, direct_map, memory_regions@[j]) by {
                            if !spec_direct_map_excludes(memory_regions@[j].kind) {
                                let rj = memory_regions@[j];
                                assert(s0.maps_region(m0, direct_map, rj));
                                s0.lemma_keep_range(m0, space, mem@, rj.start.0, direct_map.spec_translate(rj.start.0)->Some_0.0, rj.length);
                            }
                        }
                        assert forall|j: int| 0 <= j < k + 1 implies #[trigger] space.maps_range(
                            mem@,
                            layout.segments[j].physical_base.0,
                            layout.segments[j].virtual_base.0,
                            layout.segments[j].length,
                        ) by {
                            if j < k {
                                let sj = &layout.segments[j];
                                s0.lemma_keep_range(m0, space, mem@, sj.physical_base.0, sj.virtual_base.0, sj.length);
                            }
                        }
                    }
                },
                Err(err) => {
                    space.destroy(mem, allocator);
                    return Err(AddressSpaceCreateError::Mapping(err));
                },
            }
            k = k + 1;
        }
        Ok(space)
    }
}

impl AddressSpace {
    /// Taking a free frame from the allocator and writing only into it
    /// keeps the space sound and every page it owns mapped as before.
    pub proof fn lemma_take_free_frame(&self, mem0: Seq<u64>, mem1: Seq<u64>, a0: Seq<FrameState>, a1: Seq<FrameState>, i: int)
        requires
            self.wf(mem0, a0),
            0 <= i < a0.len(),
            a0[i] == FrameState::Free,
            a1 == a0.update(i, FrameState::Allocated),
            mem1.len() == mem0.len(),
            forall|w: int| 0 <= w < mem0.len() && !(i * 512 <= w < i * 512 + 512) ==> #[trigger] mem1[w] == mem0[w],
        ensures
            self.wf(mem1, a1),
            forall|vb: u64| #[trigger] self.owns_mapping(mem0, vb) ==> self.spec_root().spec_unmap(mem1, vb) == self.spec_root().spec_unmap(mem0, vb),
            forall|vb: u64| #[trigger] self.owns_mapping(mem0, vb) ==> self.mapping_entry(mem1, vb) == self.mapping_entry(mem0, vb),
            forall|vb: u64|
                self.spec_root().root_index(vb) < self.spec_root().spec_root_limit() ==> #[trigger] self.translate(mem1, vb) == self.translate(
                    mem0,
                    vb,
                ),
            forall|t: nat| #[trigger] self.spec_root().spec_tables().contains_key(t) ==> t != i,
            forall|vb: u64|
                self.spec_root().root_index(vb) < self.spec_root().spec_root_limit() ==> #[trigger] self.spec_root().spec_page_open(mem1, vb)
                    == self.spec_root().spec_page_open(mem0, vb),
    {
        let root = self.spec_root();
        assert forall|w: int| 0 <= w < mem0.len() && #[trigger] mem1[w] != mem0[w] implies a0[w / 512] == FrameState::Free by {
            assert(w / 512 == i) by (nonlinear_arith)
                requires
                    i * 512 <= w < i * 512 + 512,
            ;
        }
        root.lemma_wf_free_writes(mem0, mem1, a0);
        assert forall|t: nat| #[trigger] root.spec_tables().contains_key(t) implies a1[t as int] == a0[t as int] && t != i by {
            root.lemma_owned_allocated(mem0, a0, t);
        }
        root.lemma_wf_frames_change(mem1, a0, a1);
        assert forall|vb: u64| #[trigger] self.owns_mapping(mem0, vb) implies root.spec_unmap(mem1, vb) == root.spec_unmap(mem0, vb) by {
            root.lemma_owned_same_unmap(root, mem0, mem1, a0, vb);
        }
        assert forall|vb: u64| #[trigger] self.owns_mapping(mem0, vb) implies self.mapping_entry(mem1, vb) == self.mapping_entry(mem0, vb) by {
            root.lemma_owned_same_entry(root, mem0, mem1, a0, vb);
        }
        assert forall|vb: u64| root.root_index(vb) < root.spec_root_limit() implies #[trigger] self.translate(mem1, vb) == self.translate(mem0, vb) by {
            root.lemma_wf_basics(mem0, a0);
            root.lemma_walk_owned_part(mem0, mem1, a0, 0, root.spec_root(), vb);
        }
        assert forall|vb: u64| root.root_index(vb) < root.spec_root_limit() implies #[trigger] root.spec_page_open(mem1, vb)
            == root.spec_page_open(mem0, vb) by {
            root.lemma_wf_free_writes(mem0, mem1, a0);
            root.lemma_page_open_owned_part(mem0, mem1, a0, vb);
        }
    }
}

impl AddressSpace {
    /// Writes to words of frames that are no page table of the space leave
    /// it well formed, with every page it maps mapped as before.
    pub proof fn lemma_foreign_writes(&self, mem0: Seq<u64>, mem1: Seq<u64>, frames: Seq<FrameState>)
        requires
            self.wf(mem0, frames),
            mem1.len() == mem0.len(),
            forall|w: int| 0 <= w < mem0.len() && #[trigger] mem1[w] != mem0[w] ==> !self.spec_root().spec_tables().contains_key((w / 512) as nat),
        ensures
            self.wf(mem1, frames),
            forall|vb: u64| #[trigger] self.owns_mapping(mem0, vb) ==> self.spec_root().spec_unmap(mem1, vb) == self.spec_root().spec_unmap(mem0, vb),
    {
        let root = self.spec_root();
        root.lemma_wf_foreign_writes(mem0, mem1, frames);
        assert forall|vb: u64| #[trigger] self.owns_mapping(mem0, vb) implies root.spec_unmap(mem1, vb) == root.spec_unmap(mem0, vb) by {
            root.lemma_owned_same_unmap(root, mem0, mem1, frames, vb);
        }
    }
}

/// How many address spaces the kernel keeps.
pub const MAX_ADDRESS_SPACES: usize = 32;

/// The address spaces by number.
pub struct AddressSpaceTable {
    spaces: Vec<Option<AddressSpace>>,
}

impl AddressSpaceTable {
    /// The slots, by number.
    pub closed spec fn view(&self) -> Seq<Option<AddressSpace>> {
        self.spaces@
    }

    pub open spec fn wf(&self) -> bool {
        self.view().len() == MAX_ADDRESS_SPACES
    }

    /// Every space in the table is sound in `mem` with frame states `frames`.
    pub open spec fn all_wf(&self, mem: Seq<u64>, frames: Seq<FrameState>) -> bool {
        forall|i: int| 0 <= i < self.view().len() ==> (#[trigger] self.view()[i] matches Some(s) ==> s.wf(mem, frames))
    }

    /// A table with no space.
    pub fn new() -> (r: Self)
        ensures
            r.wf(),
            forall|i: int| 0 <= i < MAX_ADDRESS_SPACES ==> (#[trigger] r.view()[i]) is None,
    {
        let mut spaces: Vec<Option<AddressSpace>> = Vec::new();
        let mut i: usize = 0;
        while i < MAX_ADDRESS_SPACES
            invariant
                i <= MAX_ADDRESS_SPACES,
                spaces@.len() == i,
                forall|j: int| 0 <= j < i ==> (#[trigger] spaces@[j]) is None,
            decreases MAX_ADDRESS_SPACES - i,
        {
            spaces.push(None);
            i = i + 1;
        }
        Self { spaces }
    }

    /// Puts `space` in the first free slot and returns its number; hands
    /// `space` back when every slot is taken.
    pub fn insert(&mut self, space: AddressSpace) -> (r: Result<AddressSpaceId, AddressSpace>)
        requires
            old(self).wf(),
        ensures
            final(self).wf(),
            match r {
                Ok(id) => {
                    &&& id.0 < MAX_ADDRESS_SPACES
                    &&& old(self).view()[id.0 as int] is None
                    &&& forall|j: int| 0 <= j < id.0 ==> (#[trigger] old(self).view()[j]) is Some
                    &&& final(self).view() == old(self).view().update(id.0 as int, Some(space))
                },
                Err(s) => s == space && final(self).view() == old(self).view() && forall|j: int|
                    0 <= j < MAX_ADDRESS_SPACES ==> (#[trigger] old(self).view()[j]) is Some,
            },
    {
        let mut i: usize = 0;
        while i < MAX_ADDRESS_SPACES
            invariant
                self.spaces@.len() == MAX_ADDRESS_SPACES,
                *self == *old(self),
                i <= MAX_ADDRESS_SPACES,
                forall|j: int| 0 <= j < i ==> (#[trigger] self.spaces@[j]) is Some,
            decreases MAX_ADDRESS_SPACES - i,
        {
            if self.spaces[i].is_none() {
                self.spaces.set(i, Some(space));
                return Ok(AddressSpaceId(i));
            }
            i = i + 1;
        }
        Err(space)
    }

    /// Empties slot `id` and returns the space it held.
    pub fn remove(&mut self, id: AddressSpaceId) -> (r: Option<AddressSpace>)
        requires
            old(self).wf(),
        ensures
            final(self).wf(),
            id.0 < MAX_ADDRESS_SPACES ==> r == old(self).view()[id.0 as int] && final(self).view() == old(self).view().update(
                id.0 as int,
                None,
            ),
            id.0 >= MAX_ADDRESS_SPACES ==> r is None && final(self).view() == old(self).view(),
    {
        if id.0 >= self.spaces.len() {
            return None;
        }
        let r = self.spaces.remove(id.0);
        self.spaces.insert(id.0, None);
        assert(self.spaces@ =~= old(self).spaces@.update(id.0 as int, None));
        r
    }

    /// The space with number `id`, if any.
    pub fn get(&self, id: AddressSpaceId) -> (r: Option<&AddressSpace>)
        requires
            self.wf(),
        ensures
            id.0 < MAX_ADDRESS_SPACES ==> r == match self.view()[id.0 as int] {
                Some(s) => Some(&s),
                None => None,
            },
            id.0 >= MAX_ADDRESS_SPACES ==> r is None,
    {
        if id.0 >= self.spaces.len() {
            return None;
        }
        match &self.spaces[id.0] {
            Some(s) => Some(s),
            None => None,
        }
    }

    /// Maps `physical_addr` at `virtual_addr` in space `id`, as
    /// [`AddressSpace::map`] does; `None` when there is no such space.
    pub fn map_in(
        &mut self,
        id: AddressSpaceId,
        mem: &mut PhysicalMemory,
        physical_addr: PhysicalAddr,
        virtual_addr: VirtualAddr,
        permissions: PagePermissions,
        allocator: &mut FrameAllocator,
        cache_policy: CachePolicy,
    ) -> (r: Option<Result<(), MapError>>)
        requires
            old(self).wf(),
            old(self).all_wf(old(mem)@, old(allocator)@),
            old(allocator).wf(),
            old(allocator).backed_by(old(mem)@),
        ensures
            final(self).wf(),
            final(allocator).wf(),
            final(allocator).backed_by(final(mem)@),
            final(allocator).spec_direct_map() == old(allocator).spec_direct_map(),
            final(allocator)@.len() == old(allocator)@.len(),
            final(mem)@.len() == old(mem)@.len(),
            r is None <==> id.0 >= MAX_ADDRESS_SPACES || old(self).view()[id.0 as int] is None,
            r is None ==> final(self).view() == old(self).view() && final(mem)@ == old(mem)@ && final(allocator)@ == old(allocator)@,
            forall|j: int| 0 <= j < MAX_ADDRESS_SPACES && j != id.0 ==> #[trigger] final(self).view()[j] == old(self).view()[j],
            r matches Some(res) ==> {
                let s0 = old(self).view()[id.0 as int]->Some_0;
                let s1 = final(self).view()[id.0 as int]->Some_0;
                &&& final(self).view()[id.0 as int] is Some
                &&& s1.wf(final(mem)@, final(allocator)@)
                &&& s1.spec_kind() == s0.spec_kind()
                &&& (s0.spec_map_refused(physical_addr.0, virtual_addr.0, permissions) matches Some(e) ==> res == Err::<(), MapError>(e))
                &&& s0.spec_map_succeeds(old(mem)@, old(allocator)@, physical_addr.0, virtual_addr.0, permissions, cache_policy) ==> res is Ok
                &&& res is Ok ==> s1.translate(final(mem)@, virtual_addr.0) == Some(physical_addr.0)
                &&& res is Ok ==> spec_leaf_entry(
                    physical_addr.0,
                    permissions,
                    cache_policy,
                    s0.spec_root().spec_config(),
                    s0.spec_kind() == AddressSpaceKind::Kernel,
                ) is Ok && s1.mapping_entry(final(mem)@, virtual_addr.0) == Some(
                    spec_leaf_entry(physical_addr.0, permissions, cache_policy, s0.spec_root().spec_config(), s0.spec_kind() == AddressSpaceKind::Kernel)->Ok_0,
                )
                &&& res is Err ==> forall|vb: u64| s0.spec_root().root_index(vb) < s0.spec_root().spec_root_limit() ==> #[trigger] s1.translate(
                    final(mem)@,
                    vb,
                ) == s0.translate(old(mem)@, vb)
                &&& forall|vb: u64| (res is Err || vb != virtual_addr.0) && #[trigger] s0.owns_mapping(old(mem)@, vb)
                    ==> s1.spec_root().spec_unmap(final(mem)@, vb) == s0.spec_root().spec_unmap(old(mem)@, vb)
            },
    {
        if id.0 >= self.spaces.len() {
            return None;
        }
        let r = self.spaces.remove(id.0);
        self.spaces.insert(id.0, None);
        match r {
            Some(mut space) => {
                proof {
                    assert(old(self).view()[id.0 as int] == Some(space));
                }
                let res = space.map(mem, physical_addr, virtual_addr, permissions, allocator, cache_policy);
                self.spaces.set(id.0, Some(space));
                Some(res)
            },
            None => {
                assert(self.spaces@ =~= old(self).spaces@);
                None
            },
        }
    }

    /// Unmaps `virtual_addr` in space `id`, as [`AddressSpace::unmap`]
    /// does, if the page translates there; `None` when there is no such
    /// space, `Some(None)` when the page does not translate.
    pub fn unmap_in(
        &mut self,
        id: AddressSpaceId,
        mem: &mut PhysicalMemory,
        virtual_addr: VirtualAddr,
        allocator: &mut FrameAllocator,
    ) -> (r: Option<Option<Result<FrameAddr, UnmapError>>>)
        requires
            old(self).wf(),
            old(self).all_wf(old(mem)@, old(allocator)@),
            old(allocator).wf(),
            old(allocator).backed_by(old(mem)@),
        ensures
            final(self).wf(),
            final(allocator).wf(),
            final(allocator).backed_by(final(mem)@),
            final(allocator).spec_direct_map() == old(allocator).spec_direct_map(),
            final(allocator)@.len() == old(allocator)@.len(),
            final(mem)@.len() == old(mem)@.len(),
            r is None <==> id.0 >= MAX_ADDRESS_SPACES || old(self).view()[id.0 as int] is None,
            forall|j: int| 0 <= j < MAX_ADDRESS_SPACES && j != id.0 ==> #[trigger] final(self).view()[j] == old(self).view()[j],
            r matches Some(inner) ==> {
                let s0 = old(self).view()[id.0 as int]->Some_0;
                let s1 = final(self).view()[id.0 as int]->Some_0;
                &&& final(self).view()[id.0 as int] is Some
                &&& s1.wf(final(mem)@, final(allocator)@)
                &&& (inner is None <==> s0.translate(old(mem)@, virtual_addr.0) is None)
                &&& !(s0.spec_kind() == AddressSpaceKind::User && virtual_addr.0 >= USER_SPACE_END) && s0.spec_root().spec_unmap(
                    old(mem)@,
                    virtual_addr.0,
                ) is Ok ==> (inner matches Some(Ok(_)))
                &&& inner is None ==> final(mem)@ == old(mem)@ && final(allocator)@ == old(allocator)@
                &&& (inner matches Some(Ok(f)) ==> s0.translate(old(mem)@, virtual_addr.0) == Some(f.0.0) && s1.translate(
                    final(mem)@,
                    virtual_addr.0,
                ) is None)
                &&& forall|vb: u64| vb != virtual_addr.0 && #[trigger] s0.owns_mapping(old(mem)@, vb)
                    ==> s1.spec_root().spec_unmap(final(mem)@, vb) == s0.spec_root().spec_unmap(old(mem)@, vb)
            },
            r is None ==> final(self).view() == old(self).view() && final(mem)@ == old(mem)@ && final(allocator)@ == old(allocator)@,
    {
        if id.0 >= self.spaces.len() {
            return None;
        }
        let r = self.spaces.remove(id.0);
        self.spaces.insert(id.0, None);
        match r {
            Some(mut space) => {
                proof {
                    assert(old(self).view()[id.0 as int] == Some(space));
                    space.spec_root().lemma_wf_basics(mem@, allocator@);
                }
                if space.to_physical(mem, virtual_addr).is_none() {
                    proof {
                        if space.spec_root().spec_unmap(mem@, virtual_addr.0) is Ok {
                            space.spec_root().lemma_unmap_ok_translates(mem@, virtual_addr.0);
                        }
                    }
                    self.spaces.set(id.0, Some(space));
                    assert(self.spaces@ =~= old(self).spaces@);
                    return Some(None);
                }
                let res = space.unmap(mem, virtual_addr, allocator);
                self.spaces.set(id.0, Some(space));
                Some(Some(res))
            },
            None => {
                assert(self.spaces@ =~= old(self).spaces@);
                None
            },
        }
    }
}

/// What a page is mapped to: the physical address and the access rights.
#[derive(Clone, Copy, Debug, PartialEq, Eq, Structural)]
pub struct Mapping {
    pub physical: PhysicalAddr,
    pub permissions: PagePermissions,
}

impl AddressSpace {
    /// What `va` is mapped to in `mem`, with the rights of the entry that
    /// maps it.
    pub open spec fn spec_mapping(&self, mem: Seq<u64>, va: u64) -> Option<Mapping> {
        match (
            self.translate(mem, va),
            crate::arch::paging::spec_mapping_entry(
                mem,
                self.spec_root().spec_direct_map(),
                self.spec_root().spec_config(),
                self.spec_root().spec_root(),
                va,
            ),
        ) {
            (Some(p), Some(e)) => Some(Mapping { physical: PhysicalAddr(p), permissions: crate::arch::paging::spec_entry_permissions(e) }),
            _ => None,
        }
    }

    /// What `virtual_addr` is mapped to, with the rights of the entry that
    /// maps it.
    pub fn mapping(&self, mem: &PhysicalMemory, virtual_addr: VirtualAddr) -> (r: Option<Mapping>)
        requires
            self.spec_root().inv(),
        ensures
            r == self.spec_mapping(mem@, virtual_addr.0),
    {
        let physical = match self.root.to_physical(mem, virtual_addr) {
            Some(p) => p,
            None => return None,
        };
        let entry = match self.root.mapping_entry(mem, virtual_addr) {
            Some(e) => e,
            None => return None,
        };
        Some(Mapping { physical, permissions: crate::arch::paging::entry_permissions(entry) })
    }
}

} // verus!
