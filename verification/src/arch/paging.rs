//! x86-64 four- and five-level page tables.

use vstd::prelude::*;
use crate::memory::{CachePolicy, DirectMap, FrameAddr, FrameAllocator, FrameState, OwnedFrame,
    PagePermissions, PhysicalAddr, PhysicalMemory, VirtualAddr};
use crate::memory::phys::{mem_entry, mem_frames, frame_is_zero};
use crate::memory::frame::{MAX_FRAME_INDEX, chosen_free, count_state, has_free};

verus! {

pub const PAGE_SIZE: u64 = 4096;
pub const PAGE_TABLE_ENTRIES: u64 = 512;

// ---------------------------------------------------------------------------
// Bits of a page-table entry.

pub const PTE_PRESENT: u64 = 1;
pub const PTE_WRITABLE: u64 = 2;
pub const PTE_USER_ACCESSIBLE: u64 = 4;
pub const PTE_WRITE_THROUGH: u64 = 8;
pub const PTE_CACHE_DISABLED: u64 = 16;
pub const PTE_HUGE_PAGE: u64 = 128;
pub const PTE_GLOBAL: u64 = 256;
pub const PTE_NX: u64 = 0x8000_0000_0000_0000;

pub open spec fn pte_present(e: u64) -> bool {
    e & 1u64 != 0
}

/// The zero entry maps nothing.
pub proof fn lemma_zero_entry_absent()
    ensures
        !pte_present(0u64),
{
    assert(0u64 & 1u64 == 0) by (bit_vector);
}

pub open spec fn pte_user(e: u64) -> bool {
    e & 4u64 != 0
}

pub open spec fn pte_huge(e: u64) -> bool {
    e & 128u64 != 0
}

/// The mask that selects the physical frame address of an entry, for
/// `bits`-bit physical addresses.
pub open spec fn address_mask(bits: u8) -> u64 {
    (((1u64 << bits) - 1) as u64) & 0xffff_ffff_ffff_f000u64
}

/// The physical address held in entry `e`.
pub open spec fn pte_address(e: u64, bits: u8) -> u64 {
    e & address_mask(bits)
}

/// The frame index held in entry `e`.
pub open spec fn pte_frame(e: u64, bits: u8) -> nat {
    pte_address(e, bits) as nat / 4096
}

pub proof fn lemma_index_bound(x: u64, s: u64)
    ensures
        (x >> s) & 0x1ffu64 < 512,
{
    assert((x >> s) & 0x1ffu64 < 512) by (bit_vector);
}

pub proof fn lemma_mask_facts(e: u64, bits: u8)
    requires
        bits < 64,
    ensures
        pte_address(e, bits) % 4096 == 0,
        pte_address(e, bits) < (1u64 << bits),
        pte_address(e | 4u64, bits) == pte_address(e, bits),
        pte_present(e | 4u64) == pte_present(e),
        pte_huge(e | 4u64) == pte_huge(e),
        pte_user(e | 4u64),
{
    assert((e & ((((1u64 << bits) - 1) as u64) & 0xffff_ffff_ffff_f000u64)) % 4096 == 0) by (bit_vector)
        requires
            bits < 64,
    ;
    assert((e & ((((1u64 << bits) - 1) as u64) & 0xffff_ffff_ffff_f000u64)) < (1u64 << bits)) by (bit_vector)
        requires
            bits < 64,
    ;
    assert(((e | 4u64) & ((((1u64 << bits) - 1) as u64) & 0xffff_ffff_ffff_f000u64)) == (e & ((((1u64
        << bits) - 1) as u64) & 0xffff_ffff_ffff_f000u64))) by (bit_vector)
        requires
            bits < 64,
    ;
    assert(((e | 4u64) & 1u64 != 0) == (e & 1u64 != 0) && ((e | 4u64) & 128u64 != 0) == (e & 128u64 != 0) && (e | 4u64) & 4u64
        != 0) by (bit_vector);
}

/// An entry that points at the frame at `a`, with extra flag bits `flags`
/// that lie outside the address field, reads back the address and the flags.
pub proof fn lemma_entry_compose(a: u64, flags: u64, bits: u8)
    requires
        bits < 64,
        a % 4096 == 0,
        a < (1u64 << bits),
        flags & address_mask(bits) == 0,
    ensures
        pte_address(a | flags, bits) == a,
        pte_present(a | flags) == (flags & 1u64 != 0),
        pte_user(a | flags) == (flags & 4u64 != 0),
        pte_huge(a | flags) == (flags & 128u64 != 0),
{
    assert((a | flags) & ((((1u64 << bits) - 1) as u64) & 0xffff_ffff_ffff_f000u64) == a) by (bit_vector)
        requires
            bits < 64,
            a % 4096 == 0,
            a < (1u64 << bits),
            flags & ((((1u64 << bits) - 1) as u64) & 0xffff_ffff_ffff_f000u64) == 0,
    ;
    assert(((a | flags) & 1u64 != 0) == (flags & 1u64 != 0) && ((a | flags) & 4u64 != 0) == (flags & 4u64 != 0) && ((a | flags)
        & 128u64 != 0) == (flags & 128u64 != 0)) by (bit_vector)
        requires
            a % 4096 == 0,
    ;
}

pub proof fn lemma_low_flags_outside_mask(flags: u64, bits: u8)
    requires
        bits < 64,
        flags < 4096 || (flags >= 0x8000_0000_0000_0000u64 && flags < 0x8000_0000_0000_1000u64),
    ensures
        flags & address_mask(bits) == 0,
{
    assert(flags & ((((1u64 << bits) - 1) as u64) & 0xffff_ffff_ffff_f000u64) == 0) by (bit_vector)
        requires
            bits < 64,
            flags < 4096 || (flags >= 0x8000_0000_0000_0000u64 && flags < 0x8000_0000_0000_1000u64),
    ;
}

// ---------------------------------------------------------------------------
// Paging configuration.

/// The number of page-table levels in use.
#[derive(Clone, Copy, Debug, PartialEq, Eq, Structural)]
pub enum PagingMode {
    FourLevel,
    FiveLevel,
}

/// The levels that hold tables rather than pages, from the root down.
#[derive(Clone, Copy, Debug, PartialEq, Eq, Structural)]
pub enum PageTableLevel {
    Pml5,
    Pml4,
    Pdpt,
    PageDirectory,
}

pub open spec fn spec_levels(mode: PagingMode) -> Seq<PageTableLevel> {
    match mode {
        PagingMode::FourLevel => seq![
            PageTableLevel::Pml4,
            PageTableLevel::Pdpt,
            PageTableLevel::PageDirectory,
        ],
        PagingMode::FiveLevel => seq![
            PageTableLevel::Pml5,
            PageTableLevel::Pml4,
            PageTableLevel::Pdpt,
            PageTableLevel::PageDirectory,
        ],
    }
}

pub open spec fn spec_virtual_address_bits(mode: PagingMode) -> u64 {
    match mode {
        PagingMode::FourLevel => 48,
        PagingMode::FiveLevel => 57,
    }
}

impl PagingMode {
    pub fn virtual_address_bits(&self) -> (r: u64)
        ensures
            r == spec_virtual_address_bits(*self),
    {
        match self {
            PagingMode::FourLevel => 48,
            PagingMode::FiveLevel => 57,
        }
    }

    pub fn intermediate_levels(&self) -> (r: Vec<PageTableLevel>)
        ensures
            r@ == spec_levels(*self),
    {
        let mut v: Vec<PageTableLevel> = Vec::new();
        match self {
            PagingMode::FourLevel => {
                v.push(PageTableLevel::Pml4);
                v.push(PageTableLevel::Pdpt);
                v.push(PageTableLevel::PageDirectory);
            },
            PagingMode::FiveLevel => {
                v.push(PageTableLevel::Pml5);
                v.push(PageTableLevel::Pml4);
                v.push(PageTableLevel::Pdpt);
                v.push(PageTableLevel::PageDirectory);
            },
        }
        assert(v@ =~= spec_levels(*self));
        v
    }
}

pub open spec fn level_shift(level: PageTableLevel) -> u64 {
    match level {
        PageTableLevel::Pml5 => 48,
        PageTableLevel::Pml4 => 39,
        PageTableLevel::Pdpt => 30,
        PageTableLevel::PageDirectory => 21,
    }
}

/// The index of `address` in a table of level `level`.
pub open spec fn level_index(level: PageTableLevel, address: u64) -> u64 {
    (address >> level_shift(level)) & 0x1ffu64
}

pub open spec fn spec_large_page_size(level: PageTableLevel) -> Option<u64> {
    match level {
        PageTableLevel::Pdpt => Some(0x4000_0000u64),
        PageTableLevel::PageDirectory => Some(0x20_0000u64),
        _ => None,
    }
}

impl PageTableLevel {
    pub fn index(self, address: u64) -> (r: u64)
        ensures
            r == level_index(self, address),
            r < 512,
    {
        let shift: u64 = match self {
            Self::Pml5 => 48,
            Self::Pml4 => 39,
            Self::Pdpt => 30,
            Self::PageDirectory => 21,
        };
        proof {
            lemma_index_bound(address, shift);
        }
        (address >> shift) & 0x1FF
    }

    pub fn large_page_size(self) -> (r: Option<u64>)
        ensures
            r == spec_large_page_size(self),
    {
        match self {
            Self::Pdpt => Some(0x4000_0000),
            Self::PageDirectory => Some(0x20_0000),
            Self::Pml5 | Self::Pml4 => None,
        }
    }
}

/// The index of `addr` in a last-level table.
pub open spec fn spec_p1_index(addr: u64) -> u64 {
    (addr >> 12u64) & 0x1ffu64
}

pub open spec fn spec_page_offset(addr: u64) -> u64 {
    addr & 0xfffu64
}

pub fn p1_index(addr: u64) -> (r: u64)
    ensures
        r == spec_p1_index(addr),
        r < 512,
{
    proof {
        lemma_index_bound(addr, 12);
    }
    (addr >> 12) & 0x1FF
}

pub fn page_offset(addr: u64) -> (r: u64)
    ensures
        r == spec_page_offset(addr),
        r < 4096,
{
    assert(addr & 0xfffu64 < 4096) by (bit_vector);
    addr & 0xFFF
}

/// The processor features that paging depends on.
#[derive(Clone, Copy, Debug, PartialEq, Eq, Structural)]
pub struct CpuFeatures {
    pub nx_supported: bool,
    pub nx_enabled: bool,
    pub global_pages: bool,
    pub physical_address_bits: u8,
    pub virtual_address_bits: u8,
    pub five_level_paging_active: bool,
}

/// How this processor's page tables are laid out and what they may hold.
#[derive(Clone, Copy, Debug)]
pub struct PagingConfig {
    physical_address_bits: u8,
    global_pages: bool,
    nx_enabled: bool,
    mode: PagingMode,
}

impl PagingConfig {
    pub closed spec fn spec_bits(self) -> u8 {
        self.physical_address_bits
    }

    pub closed spec fn spec_global_pages(self) -> bool {
        self.global_pages
    }

    pub closed spec fn spec_nx_enabled(self) -> bool {
        self.nx_enabled
    }

    pub closed spec fn spec_mode(self) -> PagingMode {
        self.mode
    }

    /// Physical addresses have fewer than 64 bits.
    pub open spec fn wf(self) -> bool {
        self.spec_bits() < 64
    }

    pub open spec fn spec_levels(self) -> Seq<PageTableLevel> {
        spec_levels(self.spec_mode())
    }

    pub open spec fn spec_limit(self) -> u64 {
        (1u64 << self.spec_bits()) as u64
    }

    pub fn from_features(features: CpuFeatures) -> (r: Self)
        requires
            features.physical_address_bits < 64,
        ensures
            r.wf(),
            r.spec_bits() == features.physical_address_bits,
            r.spec_nx_enabled() == features.nx_enabled,
            r.spec_global_pages() == features.global_pages,
            r.spec_mode() == if features.five_level_paging_active {
                PagingMode::FiveLevel
            } else {
                PagingMode::FourLevel
            },
    {
        Self {
            physical_address_bits: features.physical_address_bits,
            nx_enabled: features.nx_enabled,
            global_pages: features.global_pages,
            mode: if features.five_level_paging_active {
                PagingMode::FiveLevel
            } else {
                PagingMode::FourLevel
            },
        }
    }

    pub fn physical_address_mask(&self) -> (r: u64)
        requires
            self.wf(),
        ensures
            r == address_mask(self.spec_bits()),
    {
        let bits = self.physical_address_bits;
        assert((1u64 << bits) >= 1) by (bit_vector)
            requires
                bits < 64,
        ;
        ((1u64 << bits) - 1) & 0xffff_ffff_ffff_f000u64
    }

    pub fn physical_address_limit(&self) -> (r: u64)
        requires
            self.wf(),
        ensures
            r == self.spec_limit(),
    {
        1u64 << self.physical_address_bits
    }

    pub fn mode(&self) -> (r: PagingMode)
        ensures
            r == self.spec_mode(),
    {
        self.mode
    }
}


// ---------------------------------------------------------------------------
// Page-table entries.

/// Only flag bits: nothing in bits 12 to 62.
pub open spec fn flag_bits_only(f: u64) -> bool {
    f & 0x7fff_ffff_ffff_f000u64 == 0
}

pub proof fn lemma_flags_outside_mask(f: u64, bits: u8)
    requires
        flag_bits_only(f),
        bits < 64,
    ensures
        f & address_mask(bits) == 0,
{
    assert(f & ((((1u64 << bits) - 1) as u64) & 0xffff_ffff_ffff_f000u64) == 0) by (bit_vector)
        requires
            f & 0x7fff_ffff_ffff_f000u64 == 0,
            bits < 64,
    ;
}

/// The flag bits of a leaf entry.
pub open spec fn spec_leaf_flags(
    permissions: PagePermissions,
    cache_policy: CachePolicy,
    config: PagingConfig,
    global: bool,
) -> u64 {
    let f0 = 1u64;
    let f1 = if permissions.writable { f0 | 2u64 } else { f0 };
    let f2 = if permissions.user_accessible { f1 | 4u64 } else { f1 };
    let f3 = if !permissions.executable { f2 | 0x8000_0000_0000_0000u64 } else { f2 };
    let f4 = if global && config.spec_global_pages() { f3 | 256u64 } else { f3 };
    match cache_policy {
        CachePolicy::WriteBack => f4,
        CachePolicy::Uncacheable => f4 | 24u64,
    }
}

/// A leaf entry's flags are only flag bits, always include the present bit,
/// and include the user bit exactly for user-accessible pages.
pub proof fn lemma_leaf_flags(
    permissions: PagePermissions,
    cache_policy: CachePolicy,
    config: PagingConfig,
    global: bool,
)
    ensures
        flag_bits_only(spec_leaf_flags(permissions, cache_policy, config, global)),
        spec_leaf_flags(permissions, cache_policy, config, global) & 1u64 != 0,
        spec_leaf_flags(permissions, cache_policy, config, global) & 4u64 != 0
            <==> permissions.user_accessible,
{
    let f0 = 1u64;
    let f1 = if permissions.writable { f0 | 2u64 } else { f0 };
    let f2 = if permissions.user_accessible { f1 | 4u64 } else { f1 };
    let f3 = if !permissions.executable { f2 | 0x8000_0000_0000_0000u64 } else { f2 };
    let f4 = if global && config.spec_global_pages() { f3 | 256u64 } else { f3 };
    let f5 = match cache_policy {
        CachePolicy::WriteBack => f4,
        CachePolicy::Uncacheable => f4 | 24u64,
    };
    assert(f1 == 1u64 || f1 == 1u64 | 2u64);
    assert(1u64 | 2u64 == 3u64 && (f1 == 1u64 || f1 == 3u64 ==> f1 & 0x7fff_ffff_ffff_f000u64 == 0 && f1 & 1u64 != 0 && f1 & 4u64
        == 0)) by (bit_vector);
    assert(f2 & 0x7fff_ffff_ffff_f000u64 == 0 && f2 & 1u64 != 0 && (f2 & 4u64 != 0) == (f2 != f1)) by (bit_vector)
        requires
            f1 & 0x7fff_ffff_ffff_f000u64 == 0,
            f1 & 1u64 != 0,
            f1 & 4u64 == 0,
            f2 == f1 || f2 == f1 | 4u64,
    ;
    assert(f2 != f1 <==> permissions.user_accessible) by {
        if permissions.user_accessible {
            assert(f1 | 4u64 != f1) by (bit_vector)
                requires
                    f1 & 4u64 == 0,
            ;
        }
    }
    assert(f3 & 0x7fff_ffff_ffff_f000u64 == 0 && f3 & 1u64 != 0 && (f3 & 4u64) == (f2 & 4u64)) by (bit_vector)
        requires
            f2 & 0x7fff_ffff_ffff_f000u64 == 0,
            f2 & 1u64 != 0,
            f3 == f2 || f3 == f2 | 0x8000_0000_0000_0000u64,
    ;
    assert(f4 & 0x7fff_ffff_ffff_f000u64 == 0 && f4 & 1u64 != 0 && (f4 & 4u64) == (f3 & 4u64)) by (bit_vector)
        requires
            f3 & 0x7fff_ffff_ffff_f000u64 == 0,
            f3 & 1u64 != 0,
            f4 == f3 || f4 == f3 | 256u64,
    ;
    assert(f5 & 0x7fff_ffff_ffff_f000u64 == 0 && f5 & 1u64 != 0 && (f5 & 4u64) == (f4 & 4u64)) by (bit_vector)
        requires
            f4 & 0x7fff_ffff_ffff_f000u64 == 0,
            f4 & 1u64 != 0,
            f5 == f4 || f5 == f4 | 24u64,
    ;
}

/// Why a leaf entry cannot be built.
#[derive(Clone, Copy, Debug, PartialEq, Eq, Structural)]
pub enum PageTableEntryError {
    PhysicalAddressTooLarge,
    NoExecuteUnsupported,
}

/// The leaf entry that maps a page to `physical_address`, or why there is none.
pub open spec fn spec_leaf_entry(
    physical_address: u64,
    permissions: PagePermissions,
    cache_policy: CachePolicy,
    config: PagingConfig,
    global: bool,
) -> Result<u64, PageTableEntryError> {
    if physical_address >= config.spec_limit() {
        Err(PageTableEntryError::PhysicalAddressTooLarge)
    } else if !permissions.executable && !config.spec_nx_enabled() {
        Err(PageTableEntryError::NoExecuteUnsupported)
    } else {
        Ok(physical_address | spec_leaf_flags(permissions, cache_policy, config, global))
    }
}

/// The entry that links to the table in frame `frame`.
pub open spec fn spec_table_entry(frame: u64, user_accessible: bool) -> u64 {
    if user_accessible {
        frame | 7u64
    } else {
        frame | 3u64
    }
}

/// A page-table entry.
#[derive(Clone, Copy, Debug, PartialEq, Eq, Structural)]
pub struct PageTableEntry(pub u64);

impl PageTableEntry {
    pub fn new(
        physical_address: PhysicalAddr,
        permissions: PagePermissions,
        cache_policy: CachePolicy,
        config: PagingConfig,
        global: bool,
    ) -> (r: Result<Self, PageTableEntryError>)
        requires
            config.wf(),
        ensures
            match spec_leaf_entry(physical_address.0, permissions, cache_policy, config, global) {
                Ok(v) => r == Ok::<Self, PageTableEntryError>(PageTableEntry(v)),
                Err(e) => r == Err::<Self, PageTableEntryError>(e),
            },
    {
        if physical_address.as_usize() >= config.physical_address_limit() {
            return Err(PageTableEntryError::PhysicalAddressTooLarge);
        }
        let mut flags: u64 = PTE_PRESENT;
        assert(flag_bits_only(1u64) && 1u64 & 1u64 != 0 && 1u64 & 4u64 == 0) by (bit_vector);
        if permissions.writable {
            let f = flags;
            assert(flag_bits_only(f | 2u64) && ((f | 2u64) & 1u64 != 0) == (f & 1u64 != 0) && ((f | 2u64) & 4u64 != 0) == (f & 4u64 != 0)) by (bit_vector)
                requires
                    f & 0x7fff_ffff_ffff_f000u64 == 0,
            ;
            flags = flags | PTE_WRITABLE;
        }
        let ghost f1 = flags;
        if permissions.user_accessible {
            let f = flags;
            assert(flag_bits_only(f | 4u64) && ((f | 4u64) & 1u64 != 0) == (f & 1u64 != 0) && ((f | 4u64) & 4u64 != 0)) by (bit_vector)
                requires
                    f & 0x7fff_ffff_ffff_f000u64 == 0,
            ;
            flags = flags | PTE_USER_ACCESSIBLE;
        }
        if !permissions.executable {
            if !config.nx_enabled {
                return Err(PageTableEntryError::NoExecuteUnsupported);
            }
            let f = flags;
            assert(flag_bits_only(f | 0x8000_0000_0000_0000u64) && ((f | 0x8000_0000_0000_0000u64) & 1u64 != 0) == (f & 1u64 != 0) && ((f | 0x8000_0000_0000_0000u64) & 4u64 != 0) == (f & 4u64 != 0)) by (bit_vector)
                requires
                    f & 0x7fff_ffff_ffff_f000u64 == 0,
            ;
            flags = flags | PTE_NX;
        }
        if global && config.global_pages {
            let f = flags;
            assert(flag_bits_only(f | 256u64) && ((f | 256u64) & 1u64 != 0) == (f & 1u64 != 0) && ((f | 256u64) & 4u64 != 0) == (f & 4u64 != 0)) by (bit_vector)
                requires
                    f & 0x7fff_ffff_ffff_f000u64 == 0,
            ;
            flags = flags | PTE_GLOBAL;
        }
        match cache_policy {
            CachePolicy::WriteBack => {},
            CachePolicy::Uncacheable => {
                let f = flags;
                assert(flag_bits_only(f | 24u64) && ((f | 24u64) & 1u64 != 0) == (f & 1u64 != 0) && ((f | 24u64) & 4u64 != 0) == (f & 4u64 != 0)) by (bit_vector)
                    requires
                        f & 0x7fff_ffff_ffff_f000u64 == 0,
                ;
                flags = flags | PTE_CACHE_DISABLED | PTE_WRITE_THROUGH;
                assert(f | 16u64 | 8u64 == f | 24u64) by (bit_vector);
            },
        }
        assert(flags == spec_leaf_flags(permissions, cache_policy, config, global));
        Ok(Self(physical_address.as_usize() | flags))
    }

    /// An entry linking to the table in `frame`, writable, and
    /// user-accessible when `user_accessible` holds.
    pub fn new_table(frame: FrameAddr, user_accessible: bool, config: PagingConfig) -> (r: Result<Self, PageTableEntryError>)
        requires
            config.wf(),
        ensures
            frame.0.0 >= config.spec_limit() ==> r == Err::<Self, PageTableEntryError>(
                PageTableEntryError::PhysicalAddressTooLarge,
            ),
            frame.0.0 < config.spec_limit() ==> r == Ok::<Self, PageTableEntryError>(
                PageTableEntry(spec_table_entry(frame.0.0, user_accessible)),
            ),
    {
        if frame.start_address().as_usize() >= config.physical_address_limit() {
            return Err(PageTableEntryError::PhysicalAddressTooLarge);
        }
        let mut value = frame.start_address().as_usize() | PTE_PRESENT | PTE_WRITABLE;
        let ghost a = frame.0.0;
        assert(a | 1u64 | 2u64 == a | 3u64) by (bit_vector);
        if user_accessible {
            let v = value;
            assert(v | 4u64 == a | 7u64) by (bit_vector)
                requires
                    v == a | 3u64,
            ;
            value = value | PTE_USER_ACCESSIBLE;
        }
        Ok(Self(value))
    }

    pub fn null() -> (r: Self)
        ensures
            r.0 == 0,
    {
        Self(0)
    }

    pub fn physical_address(&self, config: PagingConfig) -> (r: PhysicalAddr)
        requires
            config.wf(),
        ensures
            r.0 == pte_address(self.0, config.spec_bits()),
    {
        PhysicalAddr::new(self.0 & config.physical_address_mask())
    }

    pub fn is_present(&self) -> (r: bool)
        ensures
            r == pte_present(self.0),
    {
        self.0 & PTE_PRESENT != 0
    }

    pub fn is_user_accessible(&self) -> (r: bool)
        ensures
            r == pte_user(self.0),
    {
        self.0 & PTE_USER_ACCESSIBLE != 0
    }

    pub fn is_huge(&self) -> (r: bool)
        ensures
            r == pte_huge(self.0),
    {
        self.0 & PTE_HUGE_PAGE != 0
    }

    pub fn is_global(&self) -> (r: bool)
        ensures
            r == (self.0 & 256u64 != 0),
    {
        self.0 & PTE_GLOBAL != 0
    }

    /// The next-level table this entry links to, if it is present and does
    /// not map a large page.
    pub fn table_frame(&self, config: PagingConfig) -> (r: Option<FrameAddr>)
        requires
            config.wf(),
        ensures
            r == if pte_present(self.0) && !pte_huge(self.0) {
                Some(FrameAddr(PhysicalAddr(pte_address(self.0, config.spec_bits()))))
            } else {
                None::<FrameAddr>
            },
    {
        if !self.is_present() || self.is_huge() {
            return None;
        }
        proof {
            lemma_mask_facts(self.0, config.spec_bits());
        }
        FrameAddr::from_start_address(self.physical_address(config))
    }

    /// The frame this entry maps or links to, if it is present.
    pub fn leaf_frame(&self, config: PagingConfig) -> (r: Option<FrameAddr>)
        requires
            config.wf(),
        ensures
            r == if pte_present(self.0) {
                Some(FrameAddr(PhysicalAddr(pte_address(self.0, config.spec_bits()))))
            } else {
                None::<FrameAddr>
            },
    {
        if !self.is_present() {
            return None;
        }
        proof {
            lemma_mask_facts(self.0, config.spec_bits());
        }
        FrameAddr::from_start_address(self.physical_address(config))
    }
}

// ---------------------------------------------------------------------------
// Reading page tables.

/// The frame `f` can be read as a page table: it lies in memory and the
/// direct map shows it.
pub open spec fn table_accessible(mem: Seq<u64>, dm: DirectMap, f: nat) -> bool {
    &&& f < mem_frames(mem)
    &&& f * 4096 + dm.spec_offset() <= u64::MAX
}

/// Whether `addr` is canonical for virtual addresses of `bits` bits.
pub open spec fn spec_canonical(addr: u64, bits: u64) -> bool {
    if bits == 48 {
        addr < 0x0000_8000_0000_0000u64 || addr >= 0xffff_8000_0000_0000u64
    } else {
        addr < 0x0100_0000_0000_0000u64 || addr >= 0xff00_0000_0000_0000u64
    }
}

/// The physical address that a large-page entry `e` gives `va`.
pub open spec fn spec_huge_translation(e: u64, va: u64, size: u64, bits: u8) -> Option<u64> {
    let base = pte_address(e, bits) & !((size - 1) as u64);
    let offset = va & ((size - 1) as u64);
    if base + offset <= u64::MAX {
        Some((base + offset) as u64)
    } else {
        None
    }
}

/// Translation of `va` by the table `table` at depth `depth` and the
/// tables below it.
pub open spec fn spec_walk(
    mem: Seq<u64>,
    dm: DirectMap,
    cfg: PagingConfig,
    depth: nat,
    table: nat,
    va: u64,
) -> Option<u64>
    decreases cfg.spec_levels().len() - depth,
{
    let levels = cfg.spec_levels();
    if !table_accessible(mem, dm, table) {
        None
    } else if depth >= levels.len() {
        let e = mem_entry(mem, table, spec_p1_index(va) as nat);
        if !pte_present(e) {
            None
        } else if pte_address(e, cfg.spec_bits()) + spec_page_offset(va) <= u64::MAX {
            Some((pte_address(e, cfg.spec_bits()) + spec_page_offset(va)) as u64)
        } else {
            None
        }
    } else {
        let level = levels[depth as int];
        let e = mem_entry(mem, table, level_index(level, va) as nat);
        if !pte_present(e) {
            None
        } else if pte_huge(e) {
            match spec_large_page_size(level) {
                Some(size) => spec_huge_translation(e, va, size, cfg.spec_bits()),
                None => None,
            }
        } else {
            spec_walk(mem, dm, cfg, depth + 1, pte_frame(e, cfg.spec_bits()), va)
        }
    }
}

/// The entry that maps `va` in the tables below `table` at depth `depth`:
/// the present last-level entry, or a large-page entry on the way.
pub open spec fn spec_walk_entry(
    mem: Seq<u64>,
    dm: DirectMap,
    cfg: PagingConfig,
    depth: nat,
    table: nat,
    va: u64,
) -> Option<u64>
    decreases cfg.spec_levels().len() - depth,
{
    let levels = cfg.spec_levels();
    if !table_accessible(mem, dm, table) {
        None
    } else if depth >= levels.len() {
        let e = mem_entry(mem, table, spec_p1_index(va) as nat);
        if !pte_present(e) {
            None
        } else {
            Some(e)
        }
    } else {
        let level = levels[depth as int];
        let e = mem_entry(mem, table, level_index(level, va) as nat);
        if !pte_present(e) {
            None
        } else if pte_huge(e) {
            match spec_large_page_size(level) {
                Some(_) => Some(e),
                None => None,
            }
        } else {
            spec_walk_entry(mem, dm, cfg, depth + 1, pte_frame(e, cfg.spec_bits()), va)
        }
    }
}

/// No entry of the table in frame `t` is present.
pub open spec fn table_empty(mem: Seq<u64>, t: nat) -> bool {
    forall|j: nat| j < 512 ==> !pte_present(#[trigger] mem_entry(mem, t, j))
}

/// The entry that maps `va` in the page tables rooted at `root`.
pub open spec fn spec_mapping_entry(mem: Seq<u64>, dm: DirectMap, cfg: PagingConfig, root: nat, va: u64) -> Option<u64> {
    if !spec_canonical(va, spec_virtual_address_bits(cfg.spec_mode())) {
        None
    } else {
        spec_walk_entry(mem, dm, cfg, 0, root, va)
    }
}

/// The access rights that entry `e` grants: write with bit 1, user access
/// with bit 2, execution unless bit 63 (no-execute) is set.
pub open spec fn spec_entry_permissions(e: u64) -> PagePermissions {
    PagePermissions { writable: e & 2u64 != 0, executable: e & 0x8000_0000_0000_0000u64 == 0, user_accessible: e & 4u64 != 0 }
}

/// The access rights that entry `e` grants.
pub fn entry_permissions(e: u64) -> (r: PagePermissions)
    ensures
        r == spec_entry_permissions(e),
{
    PagePermissions::new(e & 2 != 0, e & 0x8000_0000_0000_0000 == 0, e & 4 != 0)
}

/// The physical address that the page tables rooted at `root` give `va`.
pub open spec fn spec_translate(mem: Seq<u64>, dm: DirectMap, cfg: PagingConfig, root: nat, va: u64) -> Option<u64> {
    if !spec_canonical(va, spec_virtual_address_bits(cfg.spec_mode())) {
        None
    } else {
        spec_walk(mem, dm, cfg, 0, root, va)
    }
}

pub fn translate_huge_page(entry: PageTableEntry, virtual_addr: u64, page_size: u64, config: PagingConfig) -> (r: Option<PhysicalAddr>)
    requires
        config.wf(),
        page_size >= 1,
    ensures
        r == match spec_huge_translation(entry.0, virtual_addr, page_size, config.spec_bits()) {
            Some(p) => Some(PhysicalAddr(p)),
            None => None::<PhysicalAddr>,
        },
{
    let physical_base = entry.physical_address(config).as_usize() & !(page_size - 1);
    let offset = virtual_addr & (page_size - 1);
    match physical_base.checked_add(offset) {
        Some(p) => Some(PhysicalAddr::new(p)),
        None => None,
    }
}

/// Why a page table could not be created.
#[derive(Debug, PartialEq, Eq, Structural)]
pub enum PageTableCreateError {
    PhysicalAddressTooLarge,
    OutOfFrames,
}

/// A page-table hierarchy, owner of its root frame.
pub struct PageTable {
    pub direct_map: DirectMap,
    config: PagingConfig,
    frame: OwnedFrame,
    /// The table frames this hierarchy owns, each with its depth (the root
    /// has depth 0, the last-level tables the number of intermediate levels).
    tables: Ghost<Map<nat, nat>>,
    /// For each owned table but the root, the table and index of the one
    /// entry that links to it.
    parents: Ghost<Map<nat, (nat, nat)>>,
    /// Root entries below this index lead to owned tables; the rest, if
    /// any, are shared with the kernel's hierarchy.
    root_limit: Ghost<nat>,
}

impl PageTable {
    pub closed spec fn spec_config(&self) -> PagingConfig {
        self.config
    }

    pub closed spec fn spec_direct_map(&self) -> DirectMap {
        self.direct_map
    }

    pub closed spec fn spec_root(&self) -> nat {
        self.frame.spec_frame().spec_index()
    }

    pub closed spec fn spec_tables(&self) -> Map<nat, nat> {
        self.tables@
    }

    pub closed spec fn spec_parents(&self) -> Map<nat, (nat, nat)> {
        self.parents@
    }

    pub closed spec fn spec_root_limit(&self) -> nat {
        self.root_limit@
    }

    /// The configuration is valid and the root frame is a frame.
    pub closed spec fn inv(&self) -> bool {
        &&& self.config.wf()
        &&& self.frame.spec_frame().wf()
    }

    /// The translation of `va` by this hierarchy in `mem`.
    pub open spec fn translate(&self, mem: Seq<u64>, va: u64) -> Option<u64> {
        spec_translate(mem, self.spec_direct_map(), self.spec_config(), self.spec_root(), va)
    }

    pub fn config(&self) -> (r: PagingConfig)
        ensures
            r == self.spec_config(),
    {
        self.config
    }

    /// The direct map through which the tables are read.
    pub fn direct_map(&self) -> (r: DirectMap)
        ensures
            r == self.spec_direct_map(),
    {
        self.direct_map
    }

    /// The word index of the table in `frame`, when it can be read.
    fn table(&self, mem: &PhysicalMemory, frame: FrameAddr) -> (r: Option<u64>)
        requires
            frame.wf(),
        ensures
            r is Some <==> table_accessible(mem@, self.direct_map, frame.spec_index()),
            r is Some ==> r->Some_0 == frame.spec_index() * 512 && r->Some_0 + 512 <= mem@.len(),
    {
        let index = frame.index();
        match self.direct_map.translate(frame.start_address()) {
            None => None,
            Some(_) => {
                let frames = mem.frame_count();
                if index < frames {
                    proof {
                        assert(index * 512 + 512 <= mem@.len()) by (nonlinear_arith)
                            requires
                                index < mem@.len() / 512,
                        ;
                    }
                    Some(index * 512)
                } else {
                    None
                }
            },
        }
    }

    fn is_canonical(&self, addr: u64) -> (r: bool)
        ensures
            r == spec_canonical(addr, spec_virtual_address_bits(self.config.spec_mode())),
    {
        let bits = self.config.mode.virtual_address_bits();
        let shift = 64 - bits;
        let r = (((addr << shift) as i64 >> shift) as u64) == addr;
        proof {
            assert(((((addr << 16u64) as i64) >> 16u64) as u64 == addr) == (addr < 0x0000_8000_0000_0000u64 || addr >= 0xffff_8000_0000_0000u64)
                && ((((addr << 7u64) as i64) >> 7u64) as u64 == addr) == (addr < 0x0100_0000_0000_0000u64 || addr >= 0xff00_0000_0000_0000u64)) by (bit_vector);
        }
        r
    }

    /// The physical address that `addr` translates to.
    pub fn to_physical(&self, mem: &PhysicalMemory, addr: VirtualAddr) -> (r: Option<PhysicalAddr>)
        requires
            self.inv(),
        ensures
            r == match self.translate(mem@, addr.0) {
                Some(p) => Some(PhysicalAddr(p)),
                None => None::<PhysicalAddr>,
            },
    {
        let address = addr.as_usize();
        if !self.is_canonical(address) {
            return None;
        }
        let mut table_frame = self.frame.frame_address();
        let levels = self.config.mode.intermediate_levels();
        let mut depth: usize = 0;
        while depth < levels.len()
            invariant
                self.inv(),
                levels@ == self.config.spec_levels(),
                depth <= levels@.len(),
                table_frame.wf(),
                spec_canonical(address, spec_virtual_address_bits(self.config.spec_mode())),
                address == addr.0,
                spec_walk(mem@, self.direct_map, self.config, depth as nat, table_frame.spec_index(), address)
                    == spec_walk(mem@, self.direct_map, self.config, 0, self.spec_root(), address),
            decreases levels@.len() - depth,
        {
            let level = levels[depth];
            let base = match self.table(mem, table_frame) {
                Some(b) => b,
                None => return None,
            };
            let entry = PageTableEntry(mem.read_word(base + level.index(address)));
            proof {
                lemma_mask_facts(entry.0, self.config.spec_bits());
            }
            if !entry.is_present() {
                return None;
            }
            if entry.is_huge() {
                let size = match level.large_page_size() {
                    Some(s) => s,
                    None => return None,
                };
                return translate_huge_page(entry, address, size, self.config);
            }
            table_frame = match entry.table_frame(self.config) {
                Some(f) => f,
                None => return None,
            };
            depth = depth + 1;
        }
        let base = match self.table(mem, table_frame) {
            Some(b) => b,
            None => return None,
        };
        let entry = PageTableEntry(mem.read_word(base + p1_index(address)));
        let physical_base = match entry.leaf_frame(self.config) {
            Some(f) => f.start_address().as_usize(),
            None => return None,
        };
        match physical_base.checked_add(page_offset(address)) {
            Some(p) => Some(PhysicalAddr::new(p)),
            None => None,
        }
    }

    /// The entry that maps `addr`, if any.
    pub fn mapping_entry(&self, mem: &PhysicalMemory, addr: VirtualAddr) -> (r: Option<u64>)
        requires
            self.inv(),
        ensures
            r == spec_mapping_entry(mem@, self.spec_direct_map(), self.spec_config(), self.spec_root(), addr.0),
    {
        let address = addr.as_usize();
        if !self.is_canonical(address) {
            return None;
        }
        let mut table_frame = self.frame.frame_address();
        let levels = self.config.mode.intermediate_levels();
        let mut depth: usize = 0;
        while depth < levels.len()
            invariant
                self.inv(),
                levels@ == self.config.spec_levels(),
                depth <= levels@.len(),
                table_frame.wf(),
                spec_canonical(address, spec_virtual_address_bits(self.config.spec_mode())),
                address == addr.0,
                spec_walk_entry(mem@, self.direct_map, self.config, depth as nat, table_frame.spec_index(), address)
                    == spec_walk_entry(mem@, self.direct_map, self.config, 0, self.spec_root(), address),
            decreases levels@.len() - depth,
        {
            let level = levels[depth];
            let base = match self.table(mem, table_frame) {
                Some(b) => b,
                None => return None,
            };
            let entry = PageTableEntry(mem.read_word(base + level.index(address)));
            proof {
                lemma_mask_facts(entry.0, self.config.spec_bits());
            }
            if !entry.is_present() {
                return None;
            }
            if entry.is_huge() {
                return match level.large_page_size() {
                    Some(_) => Some(entry.0),
                    None => None,
                };
            }
            table_frame = match entry.table_frame(self.config) {
                Some(f) => f,
                None => return None,
            };
            depth = depth + 1;
        }
        let base = match self.table(mem, table_frame) {
            Some(b) => b,
            None => return None,
        };
        let entry = PageTableEntry(mem.read_word(base + p1_index(address)));
        if !entry.is_present() {
            return None;
        }
        Some(entry.0)
    }

    /// The direct-map address of `addr`.
    pub fn to_virtual(&self, addr: PhysicalAddr) -> (r: Option<VirtualAddr>)
        ensures
            r == self.spec_direct_map().spec_translate(addr.0),
    {
        self.direct_map.translate(addr)
    }

    /// The entries of table `p` that may lead to owned tables.
    pub open spec fn entry_limit(&self, p: nat) -> nat {
        if p == self.spec_root() {
            self.spec_root_limit()
        } else {
            512
        }
    }

    /// Owned table `t` is at most as deep as the hierarchy, readable, and
    /// allocated; unless it is the root, its recorded parent entry links to it.
    pub open spec fn table_ok(&self, mem: Seq<u64>, frames: Seq<FrameState>, t: nat) -> bool {
        let tables = self.spec_tables();
        let bits = self.spec_config().spec_bits();
        &&& tables[t] <= self.spec_config().spec_levels().len()
        &&& t < mem_frames(mem)
        &&& t < frames.len() && frames[t as int] == FrameState::Allocated
        &&& t != self.spec_root() ==> {
            let (p, i) = self.spec_parents()[t];
            &&& table_accessible(mem, self.spec_direct_map(), t)
            &&& self.spec_parents().contains_key(t)
            &&& tables.contains_key(p)
            &&& tables[t] == tables[p] + 1
            &&& i < self.entry_limit(p)
            &&& pte_present(mem_entry(mem, p, i))
            &&& !pte_huge(mem_entry(mem, p, i))
            &&& pte_frame(mem_entry(mem, p, i), bits) == t
        }
    }

    /// Entry `i` of owned table `p`, if it links to a table, links to an
    /// owned one whose recorded parent is this entry.
    pub open spec fn link_ok(&self, mem: Seq<u64>, p: nat, i: nat) -> bool {
        let tables = self.spec_tables();
        let bits = self.spec_config().spec_bits();
        let e = mem_entry(mem, p, i);
        tables.contains_key(p) && tables[p] < self.spec_config().spec_levels().len() && i < self.entry_limit(
            p,
        ) && pte_present(e) && !pte_huge(e) ==> {
            &&& tables.contains_key(pte_frame(e, bits))
            &&& self.spec_parents().contains_key(pte_frame(e, bits))
            &&& self.spec_parents()[pte_frame(e, bits)] == (p, i)
        }
    }

    /// The hierarchy's invariant in memory `mem`, with the allocator's frame
    /// states `frames`: the owned tables form a tree rooted at the root
    /// frame, every link out of an owned table leads to an owned table, and
    /// every owned table is an allocated frame.
    #[verifier::opaque]
    pub open spec fn wf(&self, mem: Seq<u64>, frames: Seq<FrameState>) -> bool {
        &&& self.inv()
        &&& self.spec_root_limit() == 256 || self.spec_root_limit() == 512
        &&& self.spec_tables().contains_key(self.spec_root())
        &&& self.spec_tables()[self.spec_root()] == 0
        &&& !self.spec_parents().contains_key(self.spec_root())
        &&& forall|t: nat| #[trigger] self.spec_parents().contains_key(t) ==> self.spec_tables().contains_key(t)
        &&& forall|t: nat| #[trigger] self.spec_tables().contains_key(t) ==> self.table_ok(mem, frames, t)
        &&& forall|p: nat, i: nat| #[trigger] self.link_ok(mem, p, i)
    }

    /// The root table's index for `va`.
    pub open spec fn root_index(&self, va: u64) -> nat {
        level_index(self.spec_config().spec_levels()[0], va) as nat
    }

    pub proof fn lemma_wf_basics(&self, mem: Seq<u64>, frames: Seq<FrameState>)
        requires
            self.wf(mem, frames),
        ensures
            self.inv(),
            self.spec_config().wf(),
            self.spec_root_limit() == 256 || self.spec_root_limit() == 512,
            self.spec_tables().contains_key(self.spec_root()),
            self.spec_tables()[self.spec_root()] == 0,
            self.spec_root() < frames.len(),
            self.spec_root() < mem_frames(mem),
            frames[self.spec_root() as int] == FrameState::Allocated,
            forall|t: nat| #[trigger] self.spec_tables().contains_key(t) ==> self.table_ok(mem, frames, t),
            forall|p: nat, i: nat| #[trigger] self.link_ok(mem, p, i),
            !self.spec_parents().contains_key(self.spec_root()),
            forall|t: nat| #[trigger] self.spec_parents().contains_key(t) ==> self.spec_tables().contains_key(t),
    {
        reveal(PageTable::wf);
        assert(self.table_ok(mem, frames, self.spec_root()));
    }

    /// An owned table of depth 0 is the root.
    pub proof fn lemma_depth_zero_is_root(&self, mem: Seq<u64>, frames: Seq<FrameState>, t: nat)
        requires
            self.wf(mem, frames),
            self.spec_tables().contains_key(t),
            self.spec_tables()[t] == 0,
        ensures
            t == self.spec_root(),
    {
        reveal(PageTable::wf);
        assert(self.table_ok(mem, frames, t));
    }

    /// A link out of an owned table leads to an owned table one level deeper.
    pub proof fn lemma_owned_child(&self, mem: Seq<u64>, frames: Seq<FrameState>, p: nat, i: nat)
        requires
            self.wf(mem, frames),
            self.spec_tables().contains_key(p),
            self.spec_tables()[p] < self.spec_config().spec_levels().len(),
            i < self.entry_limit(p),
            pte_present(mem_entry(mem, p, i)),
            !pte_huge(mem_entry(mem, p, i)),
        ensures
            ({
                let c = pte_frame(mem_entry(mem, p, i), self.spec_config().spec_bits());
                &&& self.spec_tables().contains_key(c)
                &&& self.spec_tables()[c] == self.spec_tables()[p] + 1
                &&& self.spec_parents()[c] == (p, i)
                &&& table_accessible(mem, self.spec_direct_map(), c)
                &&& c < frames.len()
                &&& frames[c as int] == FrameState::Allocated
            }),
    {
        reveal(PageTable::wf);
        assert(self.link_ok(mem, p, i));
        let c = pte_frame(mem_entry(mem, p, i), self.spec_config().spec_bits());
        assert(self.table_ok(mem, frames, c));
        if c == self.spec_root() {
            assert(self.spec_tables()[c] == 0);
        }
    }
}

/// The word of memory that holds entry `i` of table `t`.
pub open spec fn word_pos(t: nat, i: nat) -> nat {
    t * 512 + i
}

pub proof fn lemma_word_pos(t1: nat, i1: nat, t2: nat, i2: nat)
    requires
        i1 < 512,
        i2 < 512,
    ensures
        (word_pos(t1, i1) == word_pos(t2, i2)) <==> (t1 == t2 && i1 == i2),
        word_pos(t1, i1) / 512 == t1,
{
    assert((word_pos(t1, i1) == word_pos(t2, i2)) <==> (t1 == t2 && i1 == i2)) by (nonlinear_arith)
        requires
            i1 < 512,
            i2 < 512,
    ;
    assert(word_pos(t1, i1) / 512 == t1) by (nonlinear_arith)
        requires
            i1 < 512,
    ;
}

/// Why a page could not be mapped.
#[derive(Debug, PartialEq, Eq, Structural)]
pub enum MapError {
    InvalidVirtualAddress,
    VirtualAddressUnaligned,
    PhysicalAddressTooLarge,
    PageAlreadyMapped,
    HugePageConflict,
    NoExecuteUnsupported,
    OutOfFrames,
    PageTableOutsideDirectMap,
    InvalidPageTableEntry,
}

/// Why a page could not be unmapped.
#[derive(Debug, PartialEq, Eq, Structural)]
pub enum UnmapError {
    InvalidVirtualAddress,
    VirtualAddressUnaligned,
    PageNotMapped,
    HugePageConflict,
    PageTableOutsideDirectMap,
    InvalidPageTableEntry,
}

/// An entry of a table: the table's frame and the entry's index.
#[derive(Clone, Copy, Debug)]
pub struct EntryLocation {
    pub table: FrameAddr,
    pub index: u64,
}

pub open spec fn loc_pos(l: EntryLocation) -> nat {
    word_pos(l.table.spec_index(), l.index as nat)
}

/// The index of `va` in the table at depth `d`.
pub open spec fn path_index(cfg: PagingConfig, d: nat, va: u64) -> nat {
    level_index(cfg.spec_levels()[d as int], va) as nat
}

/// What the walk of `map` finds for `va`, from table `table` at depth `depth`.
pub enum MapWalk {
    /// The walk cannot go on.
    Blocked(MapError),
    /// Every intermediate table exists; the last-level table is this one.
    Complete(nat),
    /// The entry at (table, index) of the table at this depth is missing.
    Missing(nat, nat, nat),
}

pub open spec fn spec_map_walk(
    mem: Seq<u64>,
    dm: DirectMap,
    cfg: PagingConfig,
    depth: nat,
    table: nat,
    va: u64,
) -> MapWalk
    decreases cfg.spec_levels().len() - depth,
{
    let levels = cfg.spec_levels();
    if depth >= levels.len() {
        MapWalk::Complete(table)
    } else if !table_accessible(mem, dm, table) {
        MapWalk::Blocked(MapError::PageTableOutsideDirectMap)
    } else {
        let level = levels[depth as int];
        let idx = level_index(level, va) as nat;
        let e = mem_entry(mem, table, idx);
        if !pte_present(e) {
            MapWalk::Missing(depth, table, idx)
        } else if pte_huge(e) {
            MapWalk::Blocked(
                if spec_large_page_size(level) is Some {
                    MapError::HugePageConflict
                } else {
                    MapError::InvalidPageTableEntry
                },
            )
        } else {
            spec_map_walk(mem, dm, cfg, depth + 1, pte_frame(e, cfg.spec_bits()), va)
        }
    }
}

/// A walk stops at a missing entry only above the last level.
pub proof fn lemma_missing_depth(mem: Seq<u64>, dm: DirectMap, cfg: PagingConfig, depth: nat, table: nat, va: u64)
    ensures
        spec_map_walk(mem, dm, cfg, depth, table, va) matches MapWalk::Missing(d, _, _) ==> d < cfg.spec_levels().len(),
    decreases cfg.spec_levels().len() - depth,
{
    let levels = cfg.spec_levels();
    if depth < levels.len() && table_accessible(mem, dm, table) {
        let e = mem_entry(mem, table, level_index(levels[depth as int], va) as nat);
        if pte_present(e) && !pte_huge(e) {
            lemma_missing_depth(mem, dm, cfg, depth + 1, pte_frame(e, cfg.spec_bits()), va);
        }
    }
}

/// What `map`'s walk found leaves `va` open to mapping: a table is
/// missing on the way, or the last-level table is readable and holds no
/// entry for `va`.
pub open spec fn walk_ready(w: MapWalk, mem: Seq<u64>, dm: DirectMap, va: u64) -> bool {
    match w {
        MapWalk::Missing(_, _, _) => true,
        MapWalk::Complete(t) => table_accessible(mem, dm, t) && !pte_present(mem_entry(mem, t, spec_p1_index(va) as nat)),
        MapWalk::Blocked(_) => false,
    }
}

/// The links of `path` (a table per depth) follow `va` down to depth `upto`.
pub open spec fn path_links(mem: Seq<u64>, cfg: PagingConfig, path: Seq<nat>, va: u64, upto: nat) -> bool {
    forall|d: nat|
        d < upto ==> {
            let e = #[trigger] mem_entry(mem, path[d as int], path_index(cfg, d, va));
            pte_present(e) && !pte_huge(e) && pte_frame(e, cfg.spec_bits()) == path[d + 1int]
        }
}

/// The translation given by a last-level table.
pub open spec fn spec_leaf_translation(mem: Seq<u64>, cfg: PagingConfig, t: nat, va: u64) -> Option<u64> {
    let e = mem_entry(mem, t, spec_p1_index(va) as nat);
    if !pte_present(e) {
        None
    } else if pte_address(e, cfg.spec_bits()) + spec_page_offset(va) <= u64::MAX {
        Some((pte_address(e, cfg.spec_bits()) + spec_page_offset(va)) as u64)
    } else {
        None
    }
}

/// A walk down a path of linked, readable tables ends at the last one.
pub proof fn lemma_walk_along(mem: Seq<u64>, dm: DirectMap, cfg: PagingConfig, path: Seq<nat>, va: u64, d: nat)
    requires
        path.len() == cfg.spec_levels().len() + 1,
        d <= cfg.spec_levels().len(),
        path_links(mem, cfg, path, va, cfg.spec_levels().len()),
        forall|j: int| 0 <= j < path.len() ==> table_accessible(mem, dm, #[trigger] path[j]),
    ensures
        spec_walk(mem, dm, cfg, d, path[d as int], va) == spec_leaf_translation(
            mem,
            cfg,
            path[cfg.spec_levels().len() as int],
            va,
        ),
    decreases cfg.spec_levels().len() - d,
{
    if d < cfg.spec_levels().len() {
        let e = mem_entry(mem, path[d as int], path_index(cfg, d, va));
        assert(pte_present(e) && !pte_huge(e) && pte_frame(e, cfg.spec_bits()) == path[d + 1int]);
        lemma_walk_along(mem, dm, cfg, path, va, d + 1);
    }
}

/// The leaf entry for `frame` translates the page's first address to the
/// frame's start.
pub proof fn lemma_leaf_translation(mem: Seq<u64>, cfg: PagingConfig, t: nat, va: u64, frame: u64, flags: u64)
    requires
        cfg.wf(),
        frame % 4096 == 0,
        frame < cfg.spec_limit(),
        flag_bits_only(flags),
        flags & 1u64 != 0,
        va % 4096 == 0,
        mem_entry(mem, t, spec_p1_index(va) as nat) == frame | flags,
    ensures
        spec_leaf_translation(mem, cfg, t, va) == Some(frame),
{
    lemma_flags_outside_mask(flags, cfg.spec_bits());
    lemma_entry_compose(frame, flags, cfg.spec_bits());
    lemma_aligned_offset(va);
}

/// A page-aligned address has no offset in its page.
pub proof fn lemma_aligned_offset(va: u64)
    requires
        va % 4096 == 0,
    ensures
        spec_page_offset(va) == 0,
{
    assert(va & 0xfffu64 == 0) by (bit_vector)
        requires
            va % 4096 == 0,
    ;
}

/// The walk for the mapping entry along a path of linked, readable tables
/// ends at the last table's entry, if present.
pub proof fn lemma_walk_entry_along(mem: Seq<u64>, dm: DirectMap, cfg: PagingConfig, path: Seq<nat>, va: u64, d: nat)
    requires
        path.len() == cfg.spec_levels().len() + 1,
        d <= cfg.spec_levels().len(),
        path_links(mem, cfg, path, va, cfg.spec_levels().len()),
        forall|j: int| 0 <= j < path.len() ==> table_accessible(mem, dm, #[trigger] path[j]),
        pte_present(mem_entry(mem, path[cfg.spec_levels().len() as int], spec_p1_index(va) as nat)),
    ensures
        spec_walk_entry(mem, dm, cfg, d, path[d as int], va) == Some(
            mem_entry(mem, path[cfg.spec_levels().len() as int], spec_p1_index(va) as nat),
        ),
    decreases cfg.spec_levels().len() - d,
{
    if d < cfg.spec_levels().len() {
        let e = mem_entry(mem, path[d as int], path_index(cfg, d, va));
        assert(pte_present(e) && !pte_huge(e) && pte_frame(e, cfg.spec_bits()) == path[d + 1int]);
        lemma_walk_entry_along(mem, dm, cfg, path, va, d + 1);
    }
}

impl PageTable {
    /// Sets the user-accessible bit of each listed entry.
    fn apply_user_upgrades(&self, mem: &mut PhysicalMemory, upgrades: &Vec<EntryLocation>)
        requires
            forall|k: int|
                0 <= k < upgrades@.len() ==> {
                    &&& (#[trigger] upgrades@[k]).table.wf()
                    &&& upgrades@[k].index < 512
                    &&& table_accessible(old(mem)@, self.spec_direct_map(), upgrades@[k].table.spec_index())
                },
        ensures
            final(mem)@.len() == old(mem)@.len(),
            forall|w: int|
                0 <= w < old(mem)@.len() ==> #[trigger] final(mem)@[w] == if exists|k: int|
                    0 <= k < upgrades@.len() && loc_pos(#[trigger] upgrades@[k]) == w {
                    old(mem)@[w] | 4u64
                } else {
                    old(mem)@[w]
                },
    {
        let mut k: usize = 0;
        while k < upgrades.len()
            invariant
                k <= upgrades@.len(),
                mem@.len() == old(mem)@.len(),
                forall|j: int|
                    0 <= j < upgrades@.len() ==> {
                        &&& (#[trigger] upgrades@[j]).table.wf()
                        &&& upgrades@[j].index < 512
                        &&& table_accessible(old(mem)@, self.spec_direct_map(), upgrades@[j].table.spec_index())
                    },
                forall|w: int|
                    0 <= w < old(mem)@.len() ==> #[trigger] mem@[w] == if exists|j: int|
                        0 <= j < k && loc_pos(#[trigger] upgrades@[j]) == w {
                        old(mem)@[w] | 4u64
                    } else {
                        old(mem)@[w]
                    },
            decreases upgrades@.len() - k,
        {
            let location = upgrades[k];
            let base = match self.table(mem, location.table) {
                Some(b) => b,
                None => {
                    assert(false);
                    return;
                },
            };
            let pos = base + location.index;
            let ghost prev = mem@;
            let value = mem.read_word(pos);
            mem.write_word(pos, value | PTE_USER_ACCESSIBLE);
            proof {
                assert(pos == loc_pos(upgrades@[k as int]));
                assert forall|w: int|
                    0 <= w < old(mem)@.len() implies #[trigger] mem@[w] == if exists|j: int|
                        0 <= j < k + 1 && loc_pos(#[trigger] upgrades@[j]) == w {
                        old(mem)@[w] | 4u64
                    } else {
                        old(mem)@[w]
                    } by {
                    if w == pos {
                        let o = old(mem)@[w];
                        assert((o | 4u64) | 4u64 == o | 4u64) by (bit_vector);
                        assert(loc_pos(upgrades@[k as int]) == w);
                    } else {
                        if exists|j: int| 0 <= j < k + 1 && loc_pos(#[trigger] upgrades@[j]) == w {
                            let j = choose|j: int| 0 <= j < k + 1 && loc_pos(#[trigger] upgrades@[j]) == w;
                            assert(j < k);
                        }
                    }
                }
            }
            k = k + 1;
        }
    }
}

/// The frame indices of a list of owned frames.
pub open spec fn frame_indices(v: Seq<OwnedFrame>) -> Seq<nat> {
    Seq::new(v.len(), |j: int| v[j].spec_frame().spec_index())
}

/// Word `w` lies in one of the frames `ps`.
pub open spec fn in_frames(ps: Seq<nat>, w: int) -> bool {
    exists|j: int| 0 <= j < ps.len() && #[trigger] ps[j] * 512 <= w < ps[j] * 512 + 512
}

/// `after` is `before` with the frames `ps`, all free before, now allocated.
pub open spec fn allocated_from(before: Seq<FrameState>, after: Seq<FrameState>, ps: Seq<nat>) -> bool {
    &&& after.len() == before.len()
    &&& forall|j: int| 0 <= j < ps.len() ==> #[trigger] ps[j] < before.len() && before[ps[j] as int] == FrameState::Free
    &&& forall|j1: int, j2: int| 0 <= j1 < ps.len() && 0 <= j2 < ps.len() && j1 != j2 ==> ps[j1] != ps[j2]
    &&& forall|f: int| 0 <= f < before.len() ==> #[trigger] after[f] == if ps.contains(f as nat) {
        FrameState::Allocated
    } else {
        before[f]
    }
}

/// The content of private table `j` of a chain of `ps.len()` new tables
/// that starts at depth `first_depth + 1`.
pub open spec fn private_entry(cfg: PagingConfig, ps: Seq<nat>, first_depth: nat, va: u64, user: bool, leaf: u64, j: nat, i: nat) -> u64 {
    if j + 1 < ps.len() {
        if i == path_index(cfg, first_depth + 1 + j, va) {
            spec_table_entry((ps[j + 1int] * 4096) as u64, user)
        } else {
            0
        }
    } else {
        if i == spec_p1_index(va) as nat {
            leaf
        } else {
            0
        }
    }
}

impl PageTable {
    /// Allocates the `count` tables that `map` links below the first
    /// missing entry (at depth `first_depth`), each zeroed and holding the
    /// one entry that leads to the next, the last holding `leaf`; returns the
    /// entry that will link the first of them. The tables are recorded in
    /// `private` as they are allocated, so that they can be freed on failure.
    fn prepare_private_tables(
        &self,
        mem: &mut PhysicalMemory,
        allocator: &mut FrameAllocator,
        private: &mut Vec<OwnedFrame>,
        count: usize,
        first_depth: usize,
        levels: &Vec<PageTableLevel>,
        address: u64,
        user: bool,
        leaf: PageTableEntry,
    ) -> (r: Result<PageTableEntry, MapError>)
        requires
            self.inv(),
            old(private)@.len() == 0,
            count >= 1,
            first_depth + count == levels@.len(),
            levels@ == self.spec_config().spec_levels(),
            old(allocator).wf(),
            old(allocator).backed_by(old(mem)@),
        ensures
            final(allocator).wf(),
            final(allocator).backed_by(final(mem)@),
            final(allocator).spec_direct_map() == old(allocator).spec_direct_map(),
            final(allocator).spec_allocatable_frames() == old(allocator).spec_allocatable_frames(),
            final(private)@.len() <= count,
            forall|j: int| 0 <= j < final(private)@.len() ==> (#[trigger] final(private)@[j]).spec_frame().wf(),
            allocated_from(old(allocator)@, final(allocator)@, frame_indices(final(private)@)),
            r is Ok ==> count_state(final(allocator)@, FrameState::Free) + count == count_state(old(allocator)@, FrameState::Free),
            final(mem)@.len() == old(mem)@.len(),
            forall|w: int|
                0 <= w < old(mem)@.len() && !in_frames(frame_indices(final(private)@), w) ==> #[trigger] final(mem)@[w]
                    == old(mem)@[w],
            match r {
                Ok(e) => {
                    let ps = frame_indices(final(private)@);
                    &&& ps.len() == count
                    &&& e.0 == spec_table_entry((ps[0] * 4096) as u64, user)
                    &&& forall|j: int| 0 <= j < count ==> #[trigger] ps[j] * 4096 < self.spec_config().spec_limit()
                    &&& forall|j: int| 0 <= j < count ==> table_accessible(final(mem)@, self.spec_direct_map(), #[trigger] ps[j])
                    &&& forall|j: nat, i: nat|
                        j < count && i < 512 ==> #[trigger] mem_entry(final(mem)@, ps[j as int], i) == private_entry(
                            self.spec_config(),
                            ps,
                            first_depth as nat,
                            address,
                            user,
                            leaf.0,
                            j,
                            i,
                        )
                },
                Err(e) => {
                    ||| e == MapError::OutOfFrames && count_state(old(allocator)@, FrameState::Free) < count
                    ||| e == MapError::PhysicalAddressTooLarge && old(allocator)@.len() * 4096 > self.spec_config().spec_limit()
                    ||| e == MapError::PageTableOutsideDirectMap && old(allocator)@.len() * 4096
                        + self.spec_direct_map().spec_offset() > u64::MAX + 1
                },
            },
    {
        let ghost alloc0 = allocator@;
        let ghost mem0 = mem@;
        let mut j: usize = 0;
        while j < count
            invariant
                self.inv(),
                j <= count,
                private@.len() == j,
                allocator.wf(),
                allocator.backed_by(mem@),
                allocator.spec_direct_map() == old(allocator).spec_direct_map(),
                allocator.spec_allocatable_frames() == old(allocator).spec_allocatable_frames(),
                alloc0 == old(allocator)@,
                mem0 == old(mem)@,
                forall|k: int| 0 <= k < private@.len() ==> (#[trigger] private@[k]).spec_frame().wf(),
                allocated_from(alloc0, allocator@, frame_indices(private@)),
                count_state(allocator@, FrameState::Free) + j == count_state(alloc0, FrameState::Free),
                mem@.len() == mem0.len(),
                forall|w: int| 0 <= w < mem0.len() && !in_frames(frame_indices(private@), w) ==> #[trigger] mem@[w] == mem0[w],
                forall|k: int| 0 <= k < j ==> frame_is_zero(mem@, #[trigger] frame_indices(private@)[k]),
                forall|k: int| 0 <= k < j ==> #[trigger] frame_indices(private@)[k] * 4096 < self.spec_config().spec_limit(),
            decreases count - j,
        {
            let ghost before_alloc = allocator@;
            let ghost before_mem = mem@;
            let ghost before_ps = frame_indices(private@);
            let frame = match allocator.alloc_zeroed(mem) {
                Some(f) => f,
                None => {
                    proof {
                        lemma_count_absent_free(before_alloc);
                    }
                    return Err(MapError::OutOfFrames);
                },
            };
            let address_of_frame = frame.frame_address();
            let ghost f = frame.spec_frame().spec_index();
            private.push(frame);
            proof {
                let ps = frame_indices(private@);
                assert(ps =~= before_ps.push(f));
                lemma_count_update_free(before_alloc, f as int);
                assert(before_alloc[f as int] == FrameState::Free);
                assert forall|k: int| 0 <= k < before_ps.len() implies #[trigger] before_ps[k] != f by {
                    assert(before_alloc[before_ps[k] as int] == FrameState::Allocated);
                }
                assert forall|fi: int| 0 <= fi < alloc0.len() implies #[trigger] allocator@[fi] == if ps.contains(fi as nat) {
                    FrameState::Allocated
                } else {
                    alloc0[fi]
                } by {
                    if ps.contains(fi as nat) {
                        let k = choose|k: int| 0 <= k < ps.len() && ps[k] == fi as nat;
                        if k < before_ps.len() {
                            assert(before_ps.contains(fi as nat));
                        }
                    } else {
                        if before_ps.contains(fi as nat) {
                            let k = choose|k: int| 0 <= k < before_ps.len() && before_ps[k] == fi as nat;
                            assert(ps[k] == fi as nat);
                        }
                        assert(ps[before_ps.len() as int] == f);
                    }
                }
                assert forall|w: int| 0 <= w < mem0.len() && !in_frames(ps, w) implies #[trigger] mem@[w] == mem0[w] by {
                    assert(!(f * 512 <= w < f * 512 + 512)) by {
                        if f * 512 <= w < f * 512 + 512 {
                            assert(ps[before_ps.len() as int] == f);
                        }
                    }
                    assert(!in_frames(before_ps, w)) by {
                        if in_frames(before_ps, w) {
                            let k = choose|k: int| 0 <= k < before_ps.len() && #[trigger] before_ps[k] * 512 <= w < before_ps[k] * 512 + 512;
                            assert(ps[k] == before_ps[k]);
                        }
                    }
                }
                assert forall|k: int| 0 <= k < j + 1 implies frame_is_zero(mem@, #[trigger] ps[k]) by {
                    if k < j {
                        assert(ps[k] == before_ps[k]);
                        assert(frame_is_zero(before_mem, before_ps[k]));
                        assert forall|i: nat| i < 512 implies #[trigger] mem_entry(mem@, ps[k], i) == 0 by {
                            assert(ps[k] != f);
                            lemma_word_pos(ps[k], i, f, 0);
                            assert(mem_entry(before_mem, before_ps[k], i) == 0);
                            let w = word_pos(ps[k], i) as int;
                            assert(!(f * 512 <= w < f * 512 + 512)) by (nonlinear_arith)
                                requires
                                    ps[k] != f,
                                    i < 512,
                                    w == ps[k] * 512 + i,
                            ;
                            assert(ps[k] < mem_frames(before_mem));
                            assert(w < before_mem.len()) by (nonlinear_arith)
                                requires
                                    ps[k] < before_mem.len() / 512,
                                    i < 512,
                                    w == ps[k] * 512 + i,
                            ;
                        }
                    }
                }
            }
            match PageTableEntry::new_table(address_of_frame, user, self.config) {
                Err(_) => {
                    proof {
                        assert(f < alloc0.len());
                        assert(alloc0.len() * 4096 > self.spec_config().spec_limit()) by (nonlinear_arith)
                            requires
                                f < alloc0.len(),
                                f * 4096 >= self.spec_config().spec_limit(),
                        ;
                    }
                    return Err(MapError::PhysicalAddressTooLarge);
                },
                Ok(_) => {},
            }
            j = j + 1;
        }
        let ghost ps = frame_indices(private@);
        let ghost mem1 = mem@;
        let ghost bits = self.spec_config().spec_bits();
        let mut j: usize = 0;
        while j < count
            invariant
                self.inv(),
                j <= count,
                private@.len() == count,
                frame_indices(private@) == ps,
                first_depth + count == levels@.len(),
                levels@ == self.spec_config().spec_levels(),
                allocator.wf(),
                allocator.backed_by(mem@),
                allocator.spec_direct_map() == old(allocator).spec_direct_map(),
                allocator.spec_allocatable_frames() == old(allocator).spec_allocatable_frames(),
                alloc0 == old(allocator)@,
                mem0 == old(mem)@,
                allocated_from(alloc0, allocator@, ps),
                mem@.len() == mem0.len(),
                mem1.len() == mem0.len(),
                forall|k: int| 0 <= k < private@.len() ==> (#[trigger] private@[k]).spec_frame().wf(),
                forall|w: int| 0 <= w < mem0.len() && !in_frames(ps, w) ==> #[trigger] mem@[w] == mem0[w],
                forall|k: int| 0 <= k < count ==> frame_is_zero(mem1, #[trigger] ps[k]),
                forall|k: int| 0 <= k < count ==> #[trigger] ps[k] * 4096 < self.spec_config().spec_limit(),
                forall|k: int| 0 <= k < j ==> table_accessible(mem@, self.spec_direct_map(), #[trigger] ps[k]),
                forall|k: nat, i: nat|
                    k < count && i < 512 ==> #[trigger] mem_entry(mem@, ps[k as int], i) == if k < j {
                        private_entry(self.spec_config(), ps, first_depth as nat, address, user, leaf.0, k, i)
                    } else {
                        mem_entry(mem1, ps[k as int], i)
                    },
            decreases count - j,
        {
            let private_frame = private[j].frame_address();
            if j + 1 < count {
                let child = private[j + 1].frame_address();
                proof {
                    lemma_frame_start(child);
                    assert(ps[j + 1] * 4096 < self.spec_config().spec_limit());
                }
                let child_entry = match PageTableEntry::new_table(child, user, self.config) {
                    Ok(e) => e,
                    Err(_) => {
                        assert(false);
                        return Err(MapError::PhysicalAddressTooLarge);
                    },
                };
                let child_index = levels[first_depth + j + 1].index(address);
                let base = match self.table(mem, private_frame) {
                    Some(b) => b,
                    None => {
                        proof {
                            lemma_outside_direct_map(alloc0, ps[j as int], mem@, self.spec_direct_map());
                        }
                        return Err(MapError::PageTableOutsideDirectMap);
                    },
                };
                let ghost before = mem@;
                mem.write_word(base + child_index, child_entry.0);
                proof {
                    lemma_ps_in_memory(alloc0, ps, before, allocator@.len());
                    lemma_chain_write(before, mem@, ps, j as nat, child_index as nat, child_entry.0, mem0);
                    assert(child_entry.0 == spec_table_entry((ps[j + 1] * 4096) as u64, user));
                    assert(child_index as nat == path_index(self.spec_config(), (first_depth + 1 + j) as nat, address));
                }
            } else {
                let base = match self.table(mem, private_frame) {
                    Some(b) => b,
                    None => {
                        proof {
                            lemma_outside_direct_map(alloc0, ps[j as int], mem@, self.spec_direct_map());
                        }
                        return Err(MapError::PageTableOutsideDirectMap);
                    },
                };
                let leaf_index = p1_index(address);
                let ghost before = mem@;
                mem.write_word(base + leaf_index, leaf.0);
                proof {
                    lemma_ps_in_memory(alloc0, ps, before, allocator@.len());
                    lemma_chain_write(before, mem@, ps, j as nat, leaf_index as nat, leaf.0, mem0);
                }
            }
            proof {
                assert forall|k: nat, i: nat|
                    k < count && i < 512 implies #[trigger] mem_entry(mem@, ps[k as int], i) == if k < j + 1 {
                        private_entry(self.spec_config(), ps, first_depth as nat, address, user, leaf.0, k, i)
                    } else {
                        mem_entry(mem1, ps[k as int], i)
                    } by {
                    if k == j {
                        assert(mem_entry(mem1, ps[k as int], i) == 0);
                    }
                }
            }
            j = j + 1;
        }
        let first = private[0].frame_address();
        proof {
            lemma_frame_start(first);
            assert(ps[0] * 4096 < self.spec_config().spec_limit());
        }
        match PageTableEntry::new_table(first, user, self.config) {
            Ok(e) => Ok(e),
            Err(_) => {
                assert(false);
                Err(MapError::PhysicalAddressTooLarge)
            },
        }
    }
}

/// A frame's start address is its index times the frame size.
pub proof fn lemma_frame_start(f: FrameAddr)
    requires
        f.wf(),
    ensures
        f.0.0 == f.spec_index() * 4096,
{
}

/// A frame that the allocator manages but the direct map cannot show means
/// the allocator's frames overrun the direct map.
proof fn lemma_outside_direct_map(frames: Seq<FrameState>, f: nat, mem: Seq<u64>, dm: DirectMap)
    requires
        f < frames.len(),
        f < mem_frames(mem),
        !table_accessible(mem, dm, f),
    ensures
        frames.len() * 4096 + dm.spec_offset() > u64::MAX + 1,
{
    assert(frames.len() * 4096 + dm.spec_offset() > u64::MAX + 1) by (nonlinear_arith)
        requires
            f < frames.len(),
            f * 4096 + dm.spec_offset() > u64::MAX,
    ;
}

proof fn lemma_ps_in_memory(frames: Seq<FrameState>, ps: Seq<nat>, mem: Seq<u64>, n: nat)
    requires
        forall|j: int| 0 <= j < ps.len() ==> #[trigger] ps[j] < frames.len() && frames[ps[j] as int] == FrameState::Free,
        frames.len() == n,
        n <= mem_frames(mem),
    ensures
        forall|k: int| 0 <= k < ps.len() ==> #[trigger] ps[k] < mem_frames(mem),
{
}

/// Writing entry `i` of private table `ps[j]` changes that entry alone.
proof fn lemma_chain_write(before: Seq<u64>, after: Seq<u64>, ps: Seq<nat>, j: nat, i: nat, v: u64, mem0: Seq<u64>)
    requires
        j < ps.len(),
        i < 512,
        forall|k: int| 0 <= k < ps.len() ==> #[trigger] ps[k] < mem_frames(before),
        after == before.update(word_pos(ps[j as int], i) as int, v),
        forall|j1: int, j2: int| 0 <= j1 < ps.len() && 0 <= j2 < ps.len() && j1 != j2 ==> ps[j1] != ps[j2],
        before.len() == mem0.len(),
        forall|w: int| 0 <= w < mem0.len() && !in_frames(ps, w) ==> #[trigger] before[w] == mem0[w],
    ensures
        mem_entry(after, ps[j as int], i) == v,
        forall|k: nat, i2: nat| k < ps.len() && i2 < 512 && (k != j || i2 != i) ==> #[trigger] mem_entry(after, ps[k as int], i2) == mem_entry(before, ps[k as int], i2),
        forall|w: int| 0 <= w < mem0.len() && !in_frames(ps, w) ==> #[trigger] after[w] == mem0[w],
{
    assert forall|k: nat, i2: nat| k < ps.len() && i2 < 512 && (k != j || i2 != i) implies #[trigger] mem_entry(after, ps[k as int], i2) == mem_entry(before, ps[k as int], i2) by {
        lemma_word_pos(ps[k as int], i2, ps[j as int], i);
        if k != j {
            assert(ps[k as int] != ps[j as int]);
        }
        assert(ps[k as int] < mem_frames(before));
        assert(word_pos(ps[k as int], i2) < before.len()) by (nonlinear_arith)
            requires
                ps[k as int] < before.len() / 512,
                i2 < 512,
        ;
    }
    assert forall|w: int| 0 <= w < mem0.len() && !in_frames(ps, w) implies #[trigger] after[w] == mem0[w] by {
        let p = word_pos(ps[j as int], i) as int;
        if w == p {
            assert(ps[j as int] * 512 <= w < ps[j as int] * 512 + 512);
        }
    }
}

proof fn lemma_count_absent_free(s: Seq<FrameState>)
    requires
        !has_free(s),
    ensures
        count_state(s, FrameState::Free) == 0,
{
    crate::memory::frame::lemma_count_absent(s, FrameState::Free);
}

proof fn lemma_count_update_free(s: Seq<FrameState>, i: int)
    requires
        0 <= i < s.len(),
        s[i] == FrameState::Free,
    ensures
        count_state(s.update(i, FrameState::Allocated), FrameState::Free) + 1 == count_state(s, FrameState::Free),
{
    crate::memory::frame::lemma_count_update(s, i, FrameState::Allocated, FrameState::Free);
}

/// A word inside one of the frames `ps` belongs to the frame it lies in.
proof fn lemma_in_frames_index(ps: Seq<nat>, w: int) -> (j: int)
    requires
        in_frames(ps, w),
    ensures
        0 <= j < ps.len(),
        ps[j] == (w / 512) as nat,
        w >= 0,
{
    let j = choose|j: int| 0 <= j < ps.len() && #[trigger] ps[j] * 512 <= w < ps[j] * 512 + 512;
    let p = ps[j];
    assert(w / 512 == p) by (nonlinear_arith)
        requires
            p * 512 <= w < p * 512 + 512,
    ;
    j
}

/// Giving back the last frame of `ps` leaves the others allocated.
proof fn lemma_allocated_from_pop(before: Seq<FrameState>, after: Seq<FrameState>, ps: Seq<nat>)
    requires
        allocated_from(before, after, ps),
        ps.len() > 0,
    ensures
        ps.last() < after.len(),
        after[ps.last() as int] == FrameState::Allocated,
        allocated_from(before, after.update(ps.last() as int, FrameState::Free), ps.drop_last()),
{
    let last = ps.last();
    let rest = ps.drop_last();
    assert(ps[ps.len() - 1] == last);
    assert(ps.contains(last));
    let after2 = after.update(last as int, FrameState::Free);
    assert forall|j: int| 0 <= j < rest.len() implies #[trigger] rest[j] < before.len() && before[rest[j] as int] == FrameState::Free by {
        assert(rest[j] == ps[j]);
    }
    assert forall|j1: int, j2: int| 0 <= j1 < rest.len() && 0 <= j2 < rest.len() && j1 != j2 implies rest[j1] != rest[j2] by {
        assert(rest[j1] == ps[j1] && rest[j2] == ps[j2]);
    }
    assert forall|f: int| 0 <= f < before.len() implies #[trigger] after2[f] == if rest.contains(f as nat) {
        FrameState::Allocated
    } else {
        before[f]
    } by {
        if f == last {
            if rest.contains(f as nat) {
                let j = choose|j: int| 0 <= j < rest.len() && rest[j] == f as nat;
                assert(ps[j] == ps[ps.len() - 1]);
            }
        } else {
            if ps.contains(f as nat) {
                let j = choose|j: int| 0 <= j < ps.len() && ps[j] == f as nat;
                assert(j != ps.len() - 1);
                assert(rest[j] == f as nat);
            }
            if rest.contains(f as nat) {
                let j = choose|j: int| 0 <= j < rest.len() && rest[j] == f as nat;
                assert(ps[j] == f as nat);
            }
        }
    }
}

/// Gives back to `allocator` every frame of `frames`, which it allocated
/// from the states `before`; the states are `before` again.
fn release_frames(allocator: &mut FrameAllocator, frames: Vec<OwnedFrame>, Ghost(before): Ghost<Seq<FrameState>>)
    requires
        old(allocator).wf(),
        allocated_from(before, old(allocator)@, frame_indices(frames@)),
    ensures
        final(allocator).wf(),
        final(allocator)@ == before,
        final(allocator).spec_direct_map() == old(allocator).spec_direct_map(),
        final(allocator).spec_allocatable_frames() == old(allocator).spec_allocatable_frames(),
{
    let mut frames = frames;
    while frames.len() > 0
        invariant
            allocator.wf(),
            allocated_from(before, allocator@, frame_indices(frames@)),
            allocator.spec_direct_map() == old(allocator).spec_direct_map(),
            allocator.spec_allocatable_frames() == old(allocator).spec_allocatable_frames(),
        decreases frames.len(),
    {
        let ghost ps = frame_indices(frames@);
        let ghost prev = frames@;
        let f = match frames.pop() {
            Some(f) => f,
            None => {
                return;
            },
        };
        proof {
            lemma_allocated_from_pop(before, allocator@, ps);
            assert(frame_indices(frames@) =~= ps.drop_last());
            assert(f == prev[prev.len() - 1]);
        }
        allocator.dealloc(f);
    }
    proof {
        assert(allocator@ =~= before);
    }
}

/// The owned tables after publishing the private chain `ps` below depth `md`.
pub open spec fn extended_tables(tables: Map<nat, nat>, ps: Seq<nat>, md: nat) -> Map<nat, nat> {
    Map::new(
        |f: nat| tables.contains_key(f) || ps.contains(f),
        |f: nat|
            if tables.contains_key(f) {
                tables[f]
            } else {
                (md + 1 + choose|j: int| 0 <= j < ps.len() && ps[j] == f) as nat
            },
    )
}

/// The parent links after publishing the private chain `ps` at entry
/// (`pt`, `pi`).
pub open spec fn extended_parents(
    parents: Map<nat, (nat, nat)>,
    ps: Seq<nat>,
    cfg: PagingConfig,
    md: nat,
    va: u64,
    pt: nat,
    pi: nat,
) -> Map<nat, (nat, nat)> {
    Map::new(
        |f: nat| parents.contains_key(f) || ps.contains(f),
        |f: nat|
            if parents.contains_key(f) {
                parents[f]
            } else {
                let j = choose|j: int| 0 <= j < ps.len() && ps[j] == f;
                if j == 0 {
                    (pt, pi)
                } else {
                    (ps[j - 1], path_index(cfg, (md + j) as nat, va))
                }
            },
    )
}

impl PageTable {
    /// Why `map` refuses to map `va` before it allocates anything, if it does.
    pub open spec fn spec_map_blocked(
        &self,
        mem: Seq<u64>,
        va: u64,
        frame: FrameAddr,
        permissions: PagePermissions,
        cache_policy: CachePolicy,
        global: bool,
    ) -> Option<MapError> {
        let cfg = self.spec_config();
        if !spec_canonical(va, spec_virtual_address_bits(cfg.spec_mode())) {
            Some(MapError::InvalidVirtualAddress)
        } else if va % 4096 != 0 {
            Some(MapError::VirtualAddressUnaligned)
        } else {
            match spec_leaf_entry(frame.0.0, permissions, cache_policy, cfg, global) {
                Err(PageTableEntryError::PhysicalAddressTooLarge) => Some(MapError::PhysicalAddressTooLarge),
                Err(PageTableEntryError::NoExecuteUnsupported) => Some(MapError::NoExecuteUnsupported),
                Ok(_) => match spec_map_walk(mem, self.spec_direct_map(), cfg, 0, self.spec_root(), va) {
                    MapWalk::Blocked(e) => Some(e),
                    MapWalk::Complete(t) => if !table_accessible(mem, self.spec_direct_map(), t) {
                        Some(MapError::PageTableOutsideDirectMap)
                    } else if pte_present(mem_entry(mem, t, spec_p1_index(va) as nat)) {
                        Some(MapError::PageAlreadyMapped)
                    } else {
                        None
                    },
                    MapWalk::Missing(_, _, _) => None,
                },
            }
        }
    }

    /// Page `va` is open to mapping: a canonical page start whose walk
    /// meets a missing table or an empty last-level entry.
    pub open spec fn spec_page_open(&self, mem: Seq<u64>, va: u64) -> bool {
        &&& spec_canonical(va, spec_virtual_address_bits(self.spec_config().spec_mode()))
        &&& va % 4096 == 0
        &&& walk_ready(spec_map_walk(mem, self.spec_direct_map(), self.spec_config(), 0, self.spec_root(), va), mem, self.spec_direct_map(), va)
    }

    /// `map` never has to create more tables than there are levels above
    /// the last.
    pub proof fn lemma_missing_tables_bound(&self, mem: Seq<u64>, va: u64)
        ensures
            self.spec_missing_tables(mem, va) <= self.spec_config().spec_levels().len(),
    {
        lemma_missing_depth(mem, self.spec_direct_map(), self.spec_config(), 0, self.spec_root(), va);
    }

    /// The number of tables `map` must create for `va`.
    pub open spec fn spec_missing_tables(&self, mem: Seq<u64>, va: u64) -> nat {
        match spec_map_walk(mem, self.spec_direct_map(), self.spec_config(), 0, self.spec_root(), va) {
            MapWalk::Missing(d, _, _) => (self.spec_config().spec_levels().len() - d) as nat,
            _ => 0,
        }
    }

    /// Maps the page at `mapped_addr` to `frame`, creating the intermediate
    /// tables that are missing. A page mapped for user mode makes every
    /// table on its path user-accessible. Nothing changes when it fails.
    #[verifier::rlimit(100)]
    #[verifier::spinoff_prover]
    pub fn map(
        &mut self,
        mem: &mut PhysicalMemory,
        mapped_addr: VirtualAddr,
        frame: FrameAddr,
        permissions: PagePermissions,
        allocator: &mut FrameAllocator,
        cache_policy: CachePolicy,
        global: bool,
    ) -> (r: Result<(), MapError>)
        requires
            old(self).wf(old(mem)@, old(allocator)@),
            old(allocator).wf(),
            old(allocator).backed_by(old(mem)@),
            frame.wf(),
            old(self).root_index(mapped_addr.0) < old(self).spec_root_limit(),
        ensures
            final(allocator).wf(),
            final(allocator).backed_by(final(mem)@),
            final(allocator).spec_direct_map() == old(allocator).spec_direct_map(),
            final(allocator).spec_allocatable_frames() == old(allocator).spec_allocatable_frames(),
            final(allocator)@.len() == old(allocator)@.len(),
            final(self).spec_config() == old(self).spec_config(),
            final(self).spec_root() == old(self).spec_root(),
            final(self).spec_direct_map() == old(self).spec_direct_map(),
            final(self).spec_root_limit() == old(self).spec_root_limit(),
            final(self).wf(final(mem)@, final(allocator)@),
            final(mem)@.len() == old(mem)@.len(),
            forall|t: nat| old(self).spec_tables().contains_key(t) ==> #[trigger] final(self).spec_tables().contains_key(t),
            match old(self).spec_map_blocked(old(mem)@, mapped_addr.0, frame, permissions, cache_policy, global) {
                Some(e) => r == Err::<(), MapError>(e) && final(mem)@ == old(mem)@ && final(allocator)@
                    == old(allocator)@ && final(self).spec_tables() == old(self).spec_tables(),
                None => {
                    let k = old(self).spec_missing_tables(old(mem)@, mapped_addr.0);
                    &&& (k == 0 || (count_state(old(allocator)@, FrameState::Free) >= k && old(allocator)@.len()
                        * 4096 <= old(self).spec_config().spec_limit() && old(allocator)@.len() * 4096
                        + old(self).spec_direct_map().spec_offset() <= u64::MAX + 1)) ==> r is Ok
                    &&& r matches Err(e) ==> {
                        &&& k > 0
                        &&& final(allocator)@ == old(allocator)@
                        &&& final(self).spec_tables() == old(self).spec_tables()
                        &&& forall|w: int| 0 <= w < old(mem)@.len() && #[trigger] final(mem)@[w] != old(mem)@[w]
                            ==> old(allocator)@[w / 512] == FrameState::Free
                        &&& e == MapError::OutOfFrames && count_state(old(allocator)@, FrameState::Free) < k
                            || e == MapError::PhysicalAddressTooLarge && old(allocator)@.len() * 4096
                            > old(self).spec_config().spec_limit()
                            || e == MapError::PageTableOutsideDirectMap && old(allocator)@.len() * 4096
                            + old(self).spec_direct_map().spec_offset() > u64::MAX + 1
                    }
                },
            },
            r is Ok ==> final(self).translate(final(mem)@, mapped_addr.0) == Some(frame.0.0),
            r is Ok ==> forall|f: int| 0 <= f < old(allocator)@.len() && #[trigger] final(allocator)@[f]
                != old(allocator)@[f] ==> old(allocator)@[f] == FrameState::Free && final(allocator)@[f]
                == FrameState::Allocated && final(self).spec_tables().contains_key(f as nat),
            r is Ok ==> forall|w: int| 0 <= w < old(mem)@.len() && #[trigger] final(mem)@[w] != old(mem)@[w]
                ==> final(self).spec_tables().contains_key((w / 512) as nat),
            r is Ok ==> forall|t: nat| #[trigger] final(self).spec_tables().contains_key(t) && !old(self).spec_tables().contains_key(t)
                ==> t < old(allocator)@.len() && old(allocator)@[t as int] == FrameState::Free && final(allocator)@[t as int] == FrameState::Allocated,
            r is Ok ==> final(self).spec_unmap(final(mem)@, mapped_addr.0) == Ok::<u64, UnmapError>(frame.0.0),
            r is Ok ==> forall|vb: u64|
                vb != mapped_addr.0 && old(self).root_index(vb) < old(self).spec_root_limit() && old(self).spec_unmap(old(mem)@, vb) is Ok
                    ==> #[trigger] final(self).spec_unmap(final(mem)@, vb) == old(self).spec_unmap(old(mem)@, vb) && spec_mapping_entry(
                    final(mem)@,
                    final(self).spec_direct_map(),
                    final(self).spec_config(),
                    final(self).spec_root(),
                    vb,
                ) == spec_mapping_entry(old(mem)@, old(self).spec_direct_map(), old(self).spec_config(), old(self).spec_root(), vb),
            r is Ok ==> forall|vb: u64|
                vb != mapped_addr.0 && vb % 4096 == 0 && old(self).root_index(vb) < old(self).spec_root_limit() ==> #[trigger] final(self).translate(
                    final(mem)@,
                    vb,
                ) == old(self).translate(old(mem)@, vb),
            r is Ok ==> spec_leaf_entry(frame.0.0, permissions, cache_policy, old(self).spec_config(), global) is Ok
                && spec_mapping_entry(final(mem)@, final(self).spec_direct_map(), final(self).spec_config(), final(self).spec_root(), mapped_addr.0)
                == Some(spec_leaf_entry(frame.0.0, permissions, cache_policy, old(self).spec_config(), global)->Ok_0),
            r is Ok ==> count_state(final(allocator)@, FrameState::Free) + old(self).spec_missing_tables(old(mem)@, mapped_addr.0)
                == count_state(old(allocator)@, FrameState::Free),
            r is Ok ==> forall|vb: u64|
                vb != mapped_addr.0 && old(self).root_index(vb) < old(self).spec_root_limit() && #[trigger] old(self).spec_page_open(old(mem)@, vb)
                    ==> final(self).spec_page_open(final(mem)@, vb),
    {
        let address = mapped_addr.as_usize();
        proof {
            self.lemma_wf_basics(mem@, allocator@);
        }
        if !self.is_canonical(address) {
            return Err(MapError::InvalidVirtualAddress);
        }
        if address % PAGE_SIZE != 0 {
            return Err(MapError::VirtualAddressUnaligned);
        }
        let leaf_entry = match PageTableEntry::new(
            frame.start_address(),
            permissions,
            cache_policy,
            self.config,
            global,
        ) {
            Ok(e) => e,
            Err(PageTableEntryError::PhysicalAddressTooLarge) => return Err(MapError::PhysicalAddressTooLarge),
            Err(PageTableEntryError::NoExecuteUnsupported) => return Err(MapError::NoExecuteUnsupported),
        };
        proof {
            lemma_leaf_flags(permissions, cache_policy, self.config, global);
        }
        let ghost flags = spec_leaf_flags(permissions, cache_policy, self.config, global);
        proof {
            self.lemma_wf_basics(mem@, allocator@);
        }
        let ghost cfg = self.config;
        let ghost bits = cfg.spec_bits();
        let ghost dm = self.direct_map;
        let ghost root = self.spec_root();
        let levels = self.config.mode.intermediate_levels();
        let n = levels.len();
        let mut current = self.frame.frame_address();
        let mut first_missing: Option<(usize, EntryLocation)> = None;
        let mut user_upgrades: Vec<EntryLocation> = Vec::new();
        let ghost mut path: Seq<nat> = seq![root];
        let ghost mut up_depths: Seq<nat> = Seq::empty();
        let mut depth: usize = 0;
        while depth < n && first_missing.is_none()
            invariant
                *self == *old(self),
                mem@ == old(mem)@,
                *allocator == *old(allocator),
                allocator.wf(),
                allocator.backed_by(mem@),
                spec_leaf_entry(frame.0.0, permissions, cache_policy, cfg, global) == Ok::<u64, PageTableEntryError>(leaf_entry.0),
                address % 4096 == 0,
                self.wf(mem@, allocator@),
                self.inv(),
                cfg.wf(),
                cfg == self.spec_config(),
                dm == self.spec_direct_map(),
                root == self.spec_root(),
                bits == cfg.spec_bits(),
                levels@ == cfg.spec_levels(),
                n == levels@.len(),
                n >= 3,
                depth <= n,
                spec_canonical(address, spec_virtual_address_bits(cfg.spec_mode())),
                address == mapped_addr.0,
                self.root_index(address) < self.spec_root_limit(),
                current.wf(),
                path.len() == depth + 1,
                path[0] == root,
                path[depth as int] == current.spec_index(),
                forall|d: int| 0 <= d <= depth ==> #[trigger] self.spec_tables().contains_key(path[d]) && self.spec_tables()[path[d]] == d,
                forall|d: int| 0 <= d < depth ==> table_accessible(mem@, dm, #[trigger] path[d]),
                path_links(mem@, cfg, path, address, depth as nat),
                match first_missing {
                    None => spec_map_walk(mem@, dm, cfg, 0, root, address) == spec_map_walk(mem@, dm, cfg, depth as nat, path[depth as int], address),
                    Some((md, loc)) => {
                        &&& md == depth && depth < n
                        &&& loc.table == current
                        &&& loc.index as nat == path_index(cfg, depth as nat, address)
                        &&& loc.index < 512
                        &&& table_accessible(mem@, dm, current.spec_index())
                        &&& !pte_present(mem_entry(mem@, current.spec_index(), loc.index as nat))
                        &&& spec_map_walk(mem@, dm, cfg, 0, root, address) == MapWalk::Missing(depth as nat, current.spec_index(), loc.index as nat)
                    },
                },
                up_depths.len() == user_upgrades@.len(),
                upgrades_on_path(user_upgrades@, up_depths, path, cfg, address, depth as nat),
            decreases n - depth + if first_missing is None { 1int } else { 0int },
        {
            let level = levels[depth];
            let index = level.index(address);
            let base = match self.table(mem, current) {
                Some(b) => b,
                None => return Err(MapError::PageTableOutsideDirectMap),
            };
            let entry = PageTableEntry(mem.read_word(base + index));
            proof {
                lemma_mask_facts(entry.0, bits);
            }
            if !entry.is_present() {
                first_missing = Some((depth, EntryLocation { table: current, index }));
            } else {
                if entry.is_huge() {
                    return if level.large_page_size().is_some() {
                        Err(MapError::HugePageConflict)
                    } else {
                        Err(MapError::InvalidPageTableEntry)
                    };
                }
                let ghost old_ups = user_upgrades@;
                let ghost old_upd = up_depths;
                if permissions.user_accessible && !entry.is_user_accessible() {
                    user_upgrades.push(EntryLocation { table: current, index });
                    proof {
                        up_depths = up_depths.push(depth as nat);
                    }
                }
                let next = match entry.table_frame(self.config) {
                    Some(f) => f,
                    None => return Err(MapError::InvalidPageTableEntry),
                };
                proof {
                    let p = current.spec_index();
                    assert(self.spec_tables().contains_key(path[depth as int]));
                    self.lemma_wf_basics(mem@, allocator@);
                    if p == root {
                        assert(depth == 0);
                    }
                    self.lemma_owned_child(mem@, allocator@, p, index as nat);
                    let c = next.spec_index();
                    let old_path = path;
                    path = path.push(c);
                    assert forall|d: nat| d < depth + 1 implies {
                        let e = #[trigger] mem_entry(mem@, path[d as int], path_index(cfg, d, address));
                        pte_present(e) && !pte_huge(e) && pte_frame(e, bits) == path[d + 1int]
                    } by {
                        if d < depth {
                            assert(path[d as int] == old_path[d as int]);
                            assert(path[d + 1int] == old_path[d + 1int]);
                        }
                    }
                    assert forall|k: int| 0 <= k < up_depths.len() implies {
                        &&& #[trigger] up_depths[k] < depth + 1
                        &&& user_upgrades@[k].table.wf()
                        &&& user_upgrades@[k].table.spec_index() == path[up_depths[k] as int]
                        &&& user_upgrades@[k].index as nat == path_index(cfg, up_depths[k], address)
                        &&& user_upgrades@[k].index < 512
                    } by {
                        if k < old_upd.len() {
                            assert(up_depths[k] == old_upd[k]);
                            assert(user_upgrades@[k] == old_ups[k]);
                            assert(old_upd[k] < depth);
                            assert(path[old_upd[k] as int] == old_path[old_upd[k] as int]);
                        } else {
                            assert(up_depths[k] == depth);
                            assert(user_upgrades@[k] == EntryLocation { table: current, index });
                        }
                    }
                    assert(upgrades_on_path(user_upgrades@, up_depths, path, cfg, address, (depth + 1) as nat));
                }
                current = next;
                depth = depth + 1;
            }
        }
        match first_missing {
            None => {
                let base = match self.table(mem, current) {
                    Some(b) => b,
                    None => return Err(MapError::PageTableOutsideDirectMap),
                };
                let leaf_index = p1_index(address);
                if PageTableEntry(mem.read_word(base + leaf_index)).is_present() {
                    return Err(MapError::PageAlreadyMapped);
                }
                let ghost mem0 = mem@;
                proof {
                    assert forall|k: int| 0 <= k < user_upgrades@.len() implies {
                        &&& (#[trigger] user_upgrades@[k]).table.wf()
                        &&& user_upgrades@[k].index < 512
                        &&& table_accessible(mem0, self.spec_direct_map(), user_upgrades@[k].table.spec_index())
                    } by {
                        assert(up_depths[k] < depth);
                    }
                }
                self.apply_user_upgrades(mem, &user_upgrades);
                let ghost mid = mem@;
                mem.write_word(base + leaf_index, leaf_entry.0);
                proof {
                    let tn = path[n as int];
                    let leaf_pos = word_pos(tn, leaf_index as nat) as int;
                    assert(base + leaf_index == leaf_pos);
                    // Where the memory changed.
                    assert forall|w: int| 0 <= w < mem0.len() && #[trigger] mem@[w] != mem0[w] implies mem@[w] == mem0[w] | 4u64
                        || (self.spec_tables().contains_key((w / 512) as nat) && self.spec_tables()[(w / 512) as nat] == n) by {
                        if w == leaf_pos {
                            lemma_word_pos(tn, leaf_index as nat, tn, leaf_index as nat);
                            assert(self.spec_tables().contains_key(path[n as int]));
                        } else {
                            assert(mem@[w] == mid[w]);
                        }
                    }
                    self.lemma_wf_user_bits_and_leaves(mem0, mem@, allocator@);
                    // The path still leads to the new leaf.
                    assert forall|d: nat| d < n implies #[trigger] same_or_user(mem0, mem@, word_pos(path[d as int], path_index(cfg, d, address)) as int) by {
                        let w = word_pos(path[d as int], path_index(cfg, d, address)) as int;
                        lemma_index_bound(address, level_shift(cfg.spec_levels()[d as int]));
                        lemma_word_pos(path[d as int], path_index(cfg, d, address), tn, leaf_index as nat);
                        assert(self.spec_tables().contains_key(path[d as int]));
                        assert(self.spec_tables().contains_key(path[n as int]));
                        assert(path[d as int] != tn);
                    }
                    lemma_path_links_user_bits(mem0, mem@, cfg, path, address, n as nat);
                    assert forall|j: int| 0 <= j < path.len() implies table_accessible(mem@, dm, #[trigger] path[j]) by {
                        if j < n {
                            assert(table_accessible(mem0, dm, path[j]));
                        }
                    }
                    lemma_walk_along(mem@, dm, cfg, path, address, 0);
                    lemma_leaf_translation(mem@, cfg, tn, address, frame.0.0, flags);
                    lemma_index_bound(address, 12);
                    lemma_word_pos(tn, leaf_index as nat, tn, leaf_index as nat);
                    assert(mem_entry(mem@, tn, spec_p1_index(address) as nat) == leaf_entry.0);
                    lemma_walk_entry_along(mem@, dm, cfg, path, address, 0);
                    self.lemma_complete_laws(mem0, mid, mem@, allocator@, path, address, user_upgrades@, up_depths, frame.0.0, flags);
                    assert forall|w: int| 0 <= w < mem0.len() && #[trigger] mem@[w] != mem0[w] implies self.spec_tables().contains_key((w / 512) as nat) by {
                        if w != leaf_pos {
                            let k = choose|k: int| 0 <= k < user_upgrades@.len() && loc_pos(#[trigger] user_upgrades@[k]) == w;
                            lemma_word_pos(user_upgrades@[k].table.spec_index(), user_upgrades@[k].index as nat, 0, 0);
                            assert(up_depths[k] < depth);
                        } else {
                            lemma_word_pos(tn, leaf_index as nat, 0, 0);
                        }
                    }
                }
                Ok(())
            },
            Some((missing_depth, publication)) => {
                let pub_base = match self.table(mem, publication.table) {
                    Some(b) => b,
                    None => return Err(MapError::PageTableOutsideDirectMap),
                };
                let count = n - missing_depth;
                let user = permissions.user_accessible;
                let ghost mem0 = mem@;
                let ghost a0 = allocator@;
                let ghost md = missing_depth as nat;
                let ghost pt = publication.table.spec_index();
                let ghost pi = publication.index as nat;
                let mut private_tables: Vec<OwnedFrame> = Vec::new();
                let prepared = self.prepare_private_tables(
                    mem,
                    allocator,
                    &mut private_tables,
                    count,
                    missing_depth,
                    &levels,
                    address,
                    user,
                    leaf_entry,
                );
                let ghost ps = frame_indices(private_tables@);
                let ghost mem1 = mem@;
                let ghost a1 = allocator@;
                let table_entry = match prepared {
                    Ok(e) => e,
                    Err(e) => {
                        release_frames(allocator, private_tables, Ghost(a0));
                        proof {
                            assert forall|w: int| 0 <= w < mem0.len() && #[trigger] mem@[w] != mem0[w] implies a0[w / 512]
                                == FrameState::Free by {
                                let j = lemma_in_frames_index(ps, w);
                                assert(a0[ps[j] as int] == FrameState::Free);
                            }
                            self.lemma_wf_free_writes(mem0, mem@, a0);
                        }
                        return Err(e);
                    },
                };
                proof {
                    assert forall|k: int| 0 <= k < user_upgrades@.len() implies {
                        &&& (#[trigger] user_upgrades@[k]).table.wf()
                        &&& user_upgrades@[k].index < 512
                        &&& table_accessible(mem1, self.spec_direct_map(), user_upgrades@[k].table.spec_index())
                    } by {
                        assert(up_depths[k] < depth);
                        assert(table_accessible(mem0, dm, path[up_depths[k] as int]));
                    }
                }
                self.apply_user_upgrades(mem, &user_upgrades);
                let ghost mem2 = mem@;
                mem.write_word(pub_base + publication.index, table_entry.0);
                let ghost old_self = *self;
                self.tables = Ghost(extended_tables(self.tables@, ps, md));
                self.parents = Ghost(extended_parents(self.parents@, ps, cfg, md, address, pt, pi));
                proof {
                    assert(old_self.spec_tables().contains_key(path[md as int]));
                    if pt == root {
                        assert(md == 0);
                    }
                    assert forall|w: int| 0 <= w < mem0.len() && #[trigger] mem2[w] != mem1[w] implies mem2[w] == mem1[w] | 4u64
                        && old_self.spec_tables().contains_key((w / 512) as nat) by {
                        let k = choose|k: int| 0 <= k < user_upgrades@.len() && loc_pos(#[trigger] user_upgrades@[k]) == w;
                        lemma_word_pos(user_upgrades@[k].table.spec_index(), user_upgrades@[k].index as nat, 0, 0);
                        assert(up_depths[k] < depth);
                        assert(old_self.spec_tables().contains_key(path[up_depths[k] as int]));
                    }
                    assert(mem@ == mem2.update(word_pos(pt, pi) as int, spec_table_entry((ps[0] * 4096) as u64, user)));
                    assert(old_self.publish_setup(*self, mem0, mem1, mem2, mem@, a0, a1, ps, md, pt, pi, address, user, leaf_entry.0));
                    old_self.lemma_publish(*self, mem0, mem1, mem2, mem@, a0, a1, ps, md, pt, pi, address, user, leaf_entry.0);
                    assert forall|d: int| 0 <= d <= md implies table_accessible(mem0, dm, #[trigger] path[d]) by {
                        if d < md {
                            assert(table_accessible(mem0, dm, path[d]));
                        }
                    }
                    old_self.lemma_publish_translation(*self, mem0, mem1, mem2, mem@, a0, a1, ps, md, pt, pi, address, user,
                        leaf_entry.0, path, frame.0.0, flags);
                    old_self.lemma_missing_laws(*self, mem0, mem1, mem2, mem@, a0, a1, ps, md, pt, pi, address, user,
                        leaf_entry.0, path, user_upgrades@, up_depths, frame.0.0, flags);
                    assert forall|f: int| 0 <= f < a0.len() && #[trigger] allocator@[f] != a0[f] implies a0[f]
                        == FrameState::Free && allocator@[f] == FrameState::Allocated && self.spec_tables().contains_key(f as nat) by {
                        let j = choose|j: int| 0 <= j < ps.len() && ps[j] == f as nat;
                        assert(a0[ps[j] as int] == FrameState::Free);
                    }
                    assert forall|t: nat| #[trigger] self.spec_tables().contains_key(t) && !old_self.spec_tables().contains_key(t)
                        implies t < a0.len() && a0[t as int] == FrameState::Free && allocator@[t as int] == FrameState::Allocated by {
                        assert(ps.contains(t));
                        let j = choose|j: int| 0 <= j < ps.len() && ps[j] == t;
                        assert(a0[ps[j] as int] == FrameState::Free);
                    }
                    old_self.lemma_publish_disjoint(*self, mem0, mem1, mem2, mem@, a0, a1, ps, md, pt, pi, address, user, leaf_entry.0);
                    assert forall|w: int| 0 <= w < mem0.len() && #[trigger] mem@[w] != mem0[w] implies self.spec_tables().contains_key(
                        (w / 512) as nat) by {
                        lemma_word_pos(pt, pi, 0, 0);
                        if w == word_pos(pt, pi) {
                        } else if mem2[w] != mem1[w] {
                        } else {
                            let j = lemma_in_frames_index(ps, w);
                            assert(ps.contains(ps[j]));
                        }
                    }
                }
                Ok(())
            },
        }
    }
}

/// Each recorded user upgrade is the entry for `va` of the table at its
/// depth on `path`, above depth `depth`.
pub open spec fn upgrades_on_path(
    ups: Seq<EntryLocation>,
    depths: Seq<nat>,
    path: Seq<nat>,
    cfg: PagingConfig,
    va: u64,
    depth: nat,
) -> bool {
    forall|k: int| 0 <= k < depths.len() ==> {
        &&& #[trigger] depths[k] < depth
        &&& ups[k].table.wf()
        &&& ups[k].table.spec_index() == path[depths[k] as int]
        &&& ups[k].index as nat == path_index(cfg, depths[k], va)
        &&& ups[k].index < 512
    }
}

/// Word `w` is unchanged or has gained the user bit.
pub open spec fn same_or_user(mem0: Seq<u64>, mem1: Seq<u64>, w: int) -> bool {
    mem1[w] == mem0[w] || mem1[w] == mem0[w] | 4u64
}

/// Setting the user bit of entries along a path keeps the path's links.
pub proof fn lemma_path_links_user_bits(mem0: Seq<u64>, mem1: Seq<u64>, cfg: PagingConfig, path: Seq<nat>, va: u64, upto: nat)
    requires
        cfg.wf(),
        path_links(mem0, cfg, path, va, upto),
        forall|d: nat| d < upto ==> #[trigger] same_or_user(mem0, mem1, word_pos(path[d as int], path_index(cfg, d, va)) as int),
    ensures
        path_links(mem1, cfg, path, va, upto),
{
    assert forall|d: nat| d < upto implies {
        let e = #[trigger] mem_entry(mem1, path[d as int], path_index(cfg, d, va));
        pte_present(e) && !pte_huge(e) && pte_frame(e, cfg.spec_bits()) == path[d + 1int]
    } by {
        let w = word_pos(path[d as int], path_index(cfg, d, va)) as int;
        assert(same_or_user(mem0, mem1, w));
        let e0 = mem_entry(mem0, path[d as int], path_index(cfg, d, va));
        lemma_mask_facts(e0, cfg.spec_bits());
    }
}

impl PageTable {
    /// Setting user bits in owned tables above the last level, and writing
    /// entries of last-level owned tables, keeps the invariant.
    pub proof fn lemma_wf_user_bits_and_leaves(&self, mem0: Seq<u64>, mem1: Seq<u64>, frames: Seq<FrameState>)
        requires
            self.wf(mem0, frames),
            mem1.len() == mem0.len(),
            forall|w: int|
                0 <= w < mem0.len() && #[trigger] mem1[w] != mem0[w] ==> mem1[w] == mem0[w] | 4u64 || (
                self.spec_tables().contains_key((w / 512) as nat) && self.spec_tables()[(w / 512) as nat]
                    == self.spec_config().spec_levels().len()),
        ensures
            self.wf(mem1, frames),
    {
        reveal(PageTable::wf);
        let n = self.spec_config().spec_levels().len();
        let bits = self.spec_config().spec_bits();
        assert forall|t: nat| #[trigger] self.spec_tables().contains_key(t) implies self.table_ok(mem1, frames, t) by {
            assert(self.table_ok(mem0, frames, t));
            if t != self.spec_root() {
                let (p, i) = self.spec_parents()[t];
                assert(self.table_ok(mem0, frames, p));
                let w = word_pos(p, i) as int;
                lemma_word_pos(p, i, p, i);
                assert(w < mem0.len()) by (nonlinear_arith)
                    requires
                        p < mem0.len() / 512,
                        i < 512,
                        w == p * 512 + i,
                ;
                lemma_mask_facts(mem0[w], bits);
            }
        }
        assert forall|p: nat, i: nat| #[trigger] self.link_ok(mem1, p, i) by {
            assert(self.link_ok(mem0, p, i));
            if self.spec_tables().contains_key(p) && self.spec_tables()[p] < n && i < self.entry_limit(p) {
                assert(self.table_ok(mem0, frames, p));
                let w = word_pos(p, i) as int;
                lemma_word_pos(p, i, p, i);
                assert(w < mem0.len()) by (nonlinear_arith)
                    requires
                        p < mem0.len() / 512,
                        i < 512,
                        w == p * 512 + i,
                ;
                lemma_mask_facts(mem0[w], bits);
            }
        }
    }
}

impl PageTable {
    /// Writes to frames that are free leave the hierarchy as it was.
    pub proof fn lemma_wf_free_writes(&self, mem0: Seq<u64>, mem1: Seq<u64>, frames: Seq<FrameState>)
        requires
            self.wf(mem0, frames),
            mem1.len() == mem0.len(),
            forall|w: int| 0 <= w < mem0.len() && #[trigger] mem1[w] != mem0[w] ==> frames[w / 512] == FrameState::Free,
        ensures
            self.wf(mem1, frames),
            forall|t: nat, j: nat| self.spec_tables().contains_key(t) && j < 512 ==> #[trigger] mem_entry(mem1, t, j) == mem_entry(mem0, t, j),
    {
        reveal(PageTable::wf);
        let n = self.spec_config().spec_levels().len();
        let bits = self.spec_config().spec_bits();
        assert forall|t: nat, i: nat| self.spec_tables().contains_key(t) && i < 512 implies #[trigger] mem_entry(mem1, t, i)
            == mem_entry(mem0, t, i) by {
            assert(self.table_ok(mem0, frames, t));
            let w = word_pos(t, i) as int;
            lemma_word_pos(t, i, t, i);
            assert(w < mem0.len()) by (nonlinear_arith)
                requires
                    t < mem0.len() / 512,
                    i < 512,
                    w == t * 512 + i,
            ;
        }
        assert forall|t: nat| #[trigger] self.spec_tables().contains_key(t) implies self.table_ok(mem1, frames, t) by {
            assert(self.table_ok(mem0, frames, t));
            if t != self.spec_root() {
                let (p, i) = self.spec_parents()[t];
                assert(self.table_ok(mem0, frames, p));
                assert(mem_entry(mem1, p, i) == mem_entry(mem0, p, i));
            }
        }
        assert forall|p: nat, i: nat| #[trigger] self.link_ok(mem1, p, i) by {
            assert(self.link_ok(mem0, p, i));
            if self.spec_tables().contains_key(p) && self.spec_tables()[p] < n && i < self.entry_limit(p) {
                assert(self.table_ok(mem0, frames, p));
                assert(mem_entry(mem1, p, i) == mem_entry(mem0, p, i));
            }
        }
    }
}

/// The chain index of frame `ps[j]` is `j`.
pub proof fn lemma_chain_choose(ps: Seq<nat>, j: int)
    requires
        0 <= j < ps.len(),
        forall|j1: int, j2: int| 0 <= j1 < ps.len() && 0 <= j2 < ps.len() && j1 != j2 ==> ps[j1] != ps[j2],
    ensures
        (choose|k: int| 0 <= k < ps.len() && ps[k] == ps[j]) == j,
{
    let k = choose|k: int| 0 <= k < ps.len() && ps[k] == ps[j];
    assert(0 <= k < ps.len() && ps[k] == ps[j]);
}

impl PageTable {
    /// The situation right after `map` has filled the private chain `ps`
    /// (memory `mem1`), set user bits (memory `mem2`) and published the chain
    /// at entry (`pt`, `pi`) (memory `mem3`), with `new` the hierarchy that
    /// owns the chain.
    pub open spec fn publish_setup(
        &self,
        new: PageTable,
        mem0: Seq<u64>,
        mem1: Seq<u64>,
        mem2: Seq<u64>,
        mem3: Seq<u64>,
        a0: Seq<FrameState>,
        a1: Seq<FrameState>,
        ps: Seq<nat>,
        md: nat,
        pt: nat,
        pi: nat,
        va: u64,
        user: bool,
        leaf: u64,
    ) -> bool {
        &&& self.wf(mem0, a0)
        &&& new.spec_config() == self.spec_config()
        &&& new.spec_root() == self.spec_root()
        &&& new.spec_direct_map() == self.spec_direct_map()
        &&& new.spec_root_limit() == self.spec_root_limit()
        &&& new.inv() == self.inv()
        &&& new.spec_tables() == extended_tables(self.spec_tables(), ps, md)
        &&& new.spec_parents() == extended_parents(self.spec_parents(), ps, self.spec_config(), md, va, pt, pi)
        &&& md < self.spec_config().spec_levels().len()
        &&& ps.len() == self.spec_config().spec_levels().len() - md
        &&& allocated_from(a0, a1, ps)
        &&& a0.len() <= mem_frames(mem0)
        &&& mem1.len() == mem0.len()
        &&& mem2.len() == mem0.len()
        &&& (forall|w: int| 0 <= w < mem0.len() && !in_frames(ps, w) ==> #[trigger] mem1[w] == mem0[w])
        &&& (forall|j: nat, i: nat|
            j < ps.len() && i < 512 ==> #[trigger] mem_entry(mem1, ps[j as int], i) == private_entry(
                self.spec_config(),
                ps,
                md,
                va,
                user,
                leaf,
                j,
                i,
            ))
        &&& (forall|j: int| 0 <= j < ps.len() ==> #[trigger] ps[j] * 4096 < self.spec_config().spec_limit())
        &&& (forall|j: int| 0 <= j < ps.len() ==> table_accessible(mem1, self.spec_direct_map(), #[trigger] ps[j]))
        &&& (forall|w: int|
            0 <= w < mem0.len() && #[trigger] mem2[w] != mem1[w] ==> mem2[w] == mem1[w] | 4u64
                && self.spec_tables().contains_key((w / 512) as nat))
        &&& mem3 == mem2.update(word_pos(pt, pi) as int, spec_table_entry((ps[0] * 4096) as u64, user))
        &&& self.spec_tables().contains_key(pt)
        &&& self.spec_tables()[pt] == md
        &&& pi < self.entry_limit(pt)
        &&& pi == path_index(self.spec_config(), md, va)
        &&& !pte_present(mem_entry(mem0, pt, pi))
    }

    pub proof fn lemma_publish_disjoint(
        &self, new: PageTable, mem0: Seq<u64>, mem1: Seq<u64>, mem2: Seq<u64>, mem3: Seq<u64>,
        a0: Seq<FrameState>, a1: Seq<FrameState>, ps: Seq<nat>, md: nat, pt: nat, pi: nat, va: u64, user: bool, leaf: u64,
    )
        requires
            self.publish_setup(new, mem0, mem1, mem2, mem3, a0, a1, ps, md, pt, pi, va, user, leaf),
        ensures
            forall|t: nat| #[trigger] self.spec_tables().contains_key(t) ==> !ps.contains(t) && t < mem_frames(mem0),
            forall|j: int| 0 <= j < ps.len() ==> #[trigger] ps[j] < mem_frames(mem0) && !self.spec_tables().contains_key(ps[j]),
            pi < 512,
    {
        self.lemma_wf_basics(mem0, a0);
        lemma_index_bound(va, level_shift(self.spec_config().spec_levels()[md as int]));
        assert forall|t: nat| #[trigger] self.spec_tables().contains_key(t) implies !ps.contains(t) && t < mem_frames(mem0) by {
            assert(self.table_ok(mem0, a0, t));
            if ps.contains(t) {
                let j = choose|j: int| 0 <= j < ps.len() && ps[j] == t;
                assert(a0[ps[j] as int] == FrameState::Free);
            }
        }
        assert forall|j: int| 0 <= j < ps.len() implies #[trigger] ps[j] < mem_frames(mem0) && !self.spec_tables().contains_key(ps[j]) by {
            assert(a0[ps[j] as int] == FrameState::Free);
            if self.spec_tables().contains_key(ps[j]) {
                assert(self.table_ok(mem0, a0, ps[j]));
            }
        }
    }

    pub proof fn lemma_publish_owned_entries(
        &self, new: PageTable, mem0: Seq<u64>, mem1: Seq<u64>, mem2: Seq<u64>, mem3: Seq<u64>,
        a0: Seq<FrameState>, a1: Seq<FrameState>, ps: Seq<nat>, md: nat, pt: nat, pi: nat, va: u64, user: bool, leaf: u64,
    )
        requires
            self.publish_setup(new, mem0, mem1, mem2, mem3, a0, a1, ps, md, pt, pi, va, user, leaf),
        ensures
            forall|t: nat, i: nat|
                self.spec_tables().contains_key(t) && i < 512 ==> #[trigger] mem_entry(mem3, t, i) == if t == pt && i == pi {
                    spec_table_entry((ps[0] * 4096) as u64, user)
                } else if mem2[word_pos(t, i) as int] != mem1[word_pos(t, i) as int] {
                    mem0[word_pos(t, i) as int] | 4u64
                } else {
                    mem0[word_pos(t, i) as int]
                },
    {
        self.lemma_publish_disjoint(new, mem0, mem1, mem2, mem3, a0, a1, ps, md, pt, pi, va, user, leaf);
        assert forall|t: nat, i: nat| self.spec_tables().contains_key(t) && i < 512 implies #[trigger] mem_entry(mem3, t, i) == if t == pt && i == pi {
            spec_table_entry((ps[0] * 4096) as u64, user)
        } else if mem2[word_pos(t, i) as int] != mem1[word_pos(t, i) as int] {
            mem0[word_pos(t, i) as int] | 4u64
        } else {
            mem0[word_pos(t, i) as int]
        } by {
            let w = word_pos(t, i) as int;
            assert(t < mem_frames(mem0));
            assert(w < mem0.len()) by (nonlinear_arith)
                requires
                    t < mem0.len() / 512,
                    i < 512,
                    w == t * 512 + i,
            ;
            lemma_word_pos(t, i, pt, pi);
            assert(!in_frames(ps, w)) by {
                if in_frames(ps, w) {
                    let j = choose|j: int| 0 <= j < ps.len() && #[trigger] ps[j] * 512 <= w < ps[j] * 512 + 512;
                    assert(!ps.contains(t));
                    assert(ps[j] != t);
                    assert(false) by (nonlinear_arith)
                        requires
                            ps[j] != t,
                            ps[j] * 512 <= w < ps[j] * 512 + 512,
                            w == t * 512 + i,
                            i < 512,
                    ;
                }
            }
            assert(mem1[w] == mem0[w]);
        }
    }

    pub proof fn lemma_publish_chain_entries(
        &self, new: PageTable, mem0: Seq<u64>, mem1: Seq<u64>, mem2: Seq<u64>, mem3: Seq<u64>,
        a0: Seq<FrameState>, a1: Seq<FrameState>, ps: Seq<nat>, md: nat, pt: nat, pi: nat, va: u64, user: bool, leaf: u64,
    )
        requires
            self.publish_setup(new, mem0, mem1, mem2, mem3, a0, a1, ps, md, pt, pi, va, user, leaf),
        ensures
            forall|j: nat, i: nat|
                j < ps.len() && i < 512 ==> #[trigger] mem_entry(mem3, ps[j as int], i) == private_entry(
                    self.spec_config(),
                    ps,
                    md,
                    va,
                    user,
                    leaf,
                    j,
                    i,
                ),
    {
        self.lemma_publish_disjoint(new, mem0, mem1, mem2, mem3, a0, a1, ps, md, pt, pi, va, user, leaf);
        assert forall|j: nat, i: nat| j < ps.len() && i < 512 implies #[trigger] mem_entry(mem3, ps[j as int], i) == private_entry(
            self.spec_config(), ps, md, va, user, leaf, j, i) by {
            let t = ps[j as int];
            let w = word_pos(t, i) as int;
            assert(t < mem_frames(mem0) && !self.spec_tables().contains_key(t));
            assert(t != pt);
            lemma_word_pos(t, i, pt, pi);
            assert(w < mem0.len()) by (nonlinear_arith)
                requires
                    t < mem0.len() / 512,
                    i < 512,
                    w == t * 512 + i,
            ;
            lemma_word_pos(t, i, 0, 0);
            assert(mem_entry(mem1, ps[j as int], i) == private_entry(self.spec_config(), ps, md, va, user, leaf, j, i));
            if mem2[w] != mem1[w] {
                assert(self.spec_tables().contains_key((w / 512) as nat));
            }
        }
    }

    pub proof fn lemma_publish_old_tables_ok(
        &self, new: PageTable, mem0: Seq<u64>, mem1: Seq<u64>, mem2: Seq<u64>, mem3: Seq<u64>,
        a0: Seq<FrameState>, a1: Seq<FrameState>, ps: Seq<nat>, md: nat, pt: nat, pi: nat, va: u64, user: bool, leaf: u64,
    )
        requires
            self.publish_setup(new, mem0, mem1, mem2, mem3, a0, a1, ps, md, pt, pi, va, user, leaf),
        ensures
            forall|t: nat| #[trigger] self.spec_tables().contains_key(t) ==> new.table_ok(mem3, a1, t),
    {
        let bits = self.spec_config().spec_bits();
        let root = self.spec_root();
        let parents = self.spec_parents();
        self.lemma_wf_basics(mem0, a0);
        self.lemma_publish_disjoint(new, mem0, mem1, mem2, mem3, a0, a1, ps, md, pt, pi, va, user, leaf);
        self.lemma_publish_owned_entries(new, mem0, mem1, mem2, mem3, a0, a1, ps, md, pt, pi, va, user, leaf);
        assert forall|t: nat| #[trigger] self.spec_tables().contains_key(t) implies new.table_ok(mem3, a1, t) by {
            assert(self.table_ok(mem0, a0, t));
            assert(a1[t as int] == a0[t as int]);
            if t != root {
                let (p, i) = parents[t];
                assert(new.spec_parents()[t] == (p, i));
                assert(self.table_ok(mem0, a0, p));
                let w = word_pos(p, i) as int;
                lemma_mask_facts(mem0[w], bits);
            }
        }
    }

    pub proof fn lemma_publish_chain_tables_ok(
        &self, new: PageTable, mem0: Seq<u64>, mem1: Seq<u64>, mem2: Seq<u64>, mem3: Seq<u64>,
        a0: Seq<FrameState>, a1: Seq<FrameState>, ps: Seq<nat>, md: nat, pt: nat, pi: nat, va: u64, user: bool, leaf: u64,
    )
        requires
            self.publish_setup(new, mem0, mem1, mem2, mem3, a0, a1, ps, md, pt, pi, va, user, leaf),
        ensures
            forall|j: int| 0 <= j < ps.len() ==> new.table_ok(mem3, a1, #[trigger] ps[j]),
    {
        let cfg = self.spec_config();
        let bits = cfg.spec_bits();
        self.lemma_wf_basics(mem0, a0);
        self.lemma_publish_disjoint(new, mem0, mem1, mem2, mem3, a0, a1, ps, md, pt, pi, va, user, leaf);
        self.lemma_publish_owned_entries(new, mem0, mem1, mem2, mem3, a0, a1, ps, md, pt, pi, va, user, leaf);
        self.lemma_publish_chain_entries(new, mem0, mem1, mem2, mem3, a0, a1, ps, md, pt, pi, va, user, leaf);
        lemma_table_entry(((ps[0] * 4096) as u64), user, bits);
        assert forall|j: int| 0 <= j < ps.len() implies new.table_ok(mem3, a1, #[trigger] ps[j]) by {
            let t = ps[j];
            lemma_chain_choose(ps, j);
            assert(ps.contains(t));
            assert(!self.spec_tables().contains_key(t));
            assert(!self.spec_parents().contains_key(t));
            assert(a1[t as int] == FrameState::Allocated);
            if j == 0 {
                assert(new.spec_parents()[t] == (pt, pi));
            } else {
                assert(new.spec_parents()[t] == (ps[j - 1], path_index(cfg, (md + j) as nat, va)));
                lemma_chain_choose(ps, j - 1);
                let jj = (j - 1) as nat;
                let idx = path_index(cfg, md + 1 + jj, va);
                lemma_index_bound(va, level_shift(cfg.spec_levels()[(md + 1 + jj) as int]));
                assert(md + 1 + jj == (md + j) as nat);
                assert(mem_entry(mem3, ps[jj as int], idx) == private_entry(cfg, ps, md, va, user, leaf, jj, idx));
                lemma_table_entry(((ps[j] * 4096) as u64), user, bits);
            }
        }
    }

    pub proof fn lemma_publish_tables_ok(
        &self, new: PageTable, mem0: Seq<u64>, mem1: Seq<u64>, mem2: Seq<u64>, mem3: Seq<u64>,
        a0: Seq<FrameState>, a1: Seq<FrameState>, ps: Seq<nat>, md: nat, pt: nat, pi: nat, va: u64, user: bool, leaf: u64,
    )
        requires
            self.publish_setup(new, mem0, mem1, mem2, mem3, a0, a1, ps, md, pt, pi, va, user, leaf),
        ensures
            forall|t: nat| #[trigger] new.spec_tables().contains_key(t) ==> new.table_ok(mem3, a1, t),
    {
        self.lemma_publish_old_tables_ok(new, mem0, mem1, mem2, mem3, a0, a1, ps, md, pt, pi, va, user, leaf);
        self.lemma_publish_chain_tables_ok(new, mem0, mem1, mem2, mem3, a0, a1, ps, md, pt, pi, va, user, leaf);
        assert forall|t: nat| #[trigger] new.spec_tables().contains_key(t) implies new.table_ok(mem3, a1, t) by {
            if !self.spec_tables().contains_key(t) {
                let j = choose|j: int| 0 <= j < ps.len() && ps[j] == t;
                assert(new.table_ok(mem3, a1, ps[j]));
            }
        }
    }

    #[verifier::rlimit(40)]
    #[verifier::spinoff_prover]
    pub proof fn lemma_publish_links_ok(
        &self, new: PageTable, mem0: Seq<u64>, mem1: Seq<u64>, mem2: Seq<u64>, mem3: Seq<u64>,
        a0: Seq<FrameState>, a1: Seq<FrameState>, ps: Seq<nat>, md: nat, pt: nat, pi: nat, va: u64, user: bool, leaf: u64,
    )
        requires
            self.publish_setup(new, mem0, mem1, mem2, mem3, a0, a1, ps, md, pt, pi, va, user, leaf),
        ensures
            forall|p: nat, i: nat| #[trigger] new.link_ok(mem3, p, i),
    {
        let cfg = self.spec_config();
        let bits = cfg.spec_bits();
        let n = cfg.spec_levels().len();
        let tables = self.spec_tables();
        self.lemma_wf_basics(mem0, a0);
        self.lemma_publish_disjoint(new, mem0, mem1, mem2, mem3, a0, a1, ps, md, pt, pi, va, user, leaf);
        self.lemma_publish_owned_entries(new, mem0, mem1, mem2, mem3, a0, a1, ps, md, pt, pi, va, user, leaf);
        self.lemma_publish_chain_entries(new, mem0, mem1, mem2, mem3, a0, a1, ps, md, pt, pi, va, user, leaf);
        lemma_table_entry(((ps[0] * 4096) as u64), user, bits);
        assert forall|p: nat, i: nat| #[trigger] new.link_ok(mem3, p, i) by {
            if new.spec_tables().contains_key(p) && new.spec_tables()[p] < n && i < new.entry_limit(p) {
                let e = mem_entry(mem3, p, i);
                if pte_present(e) && !pte_huge(e) {
                    assert(i < 512);
                    if tables.contains_key(p) {
                        let w = word_pos(p, i) as int;
                        if p == pt && i == pi {
                            lemma_chain_choose(ps, 0);
                            assert(!self.spec_tables().contains_key(ps[0]));
                            assert(!self.spec_parents().contains_key(ps[0]));
                            assert(ps.contains(ps[0]));
                        } else {
                            lemma_mask_facts(mem0[w], bits);
                            assert(self.link_ok(mem0, p, i));
                        }
                    } else {
                        let j = choose|j: int| 0 <= j < ps.len() && ps[j] == p;
                        lemma_chain_choose(ps, j);
                        assert(e == private_entry(cfg, ps, md, va, user, leaf, j as nat, i));
                        assert(j + 1 < ps.len());
                        let idx = path_index(cfg, md + 1 + j as nat, va);
                        if i != idx {
                            lemma_zero_entry_absent();
                        } else {
                            lemma_chain_choose(ps, j + 1);
                            assert(md + 1 + j as nat == (md + (j + 1)) as nat);
                            lemma_table_entry(((ps[j + 1] * 4096) as u64), user, bits);
                            assert(!self.spec_tables().contains_key(ps[j + 1]));
                            assert(!self.spec_parents().contains_key(ps[j + 1]));
                            assert(ps.contains(ps[j + 1]));
                        }
                    }
                }
            }
        }
    }

    pub proof fn lemma_publish(
        &self, new: PageTable, mem0: Seq<u64>, mem1: Seq<u64>, mem2: Seq<u64>, mem3: Seq<u64>,
        a0: Seq<FrameState>, a1: Seq<FrameState>, ps: Seq<nat>, md: nat, pt: nat, pi: nat, va: u64, user: bool, leaf: u64,
    )
        requires
            self.publish_setup(new, mem0, mem1, mem2, mem3, a0, a1, ps, md, pt, pi, va, user, leaf),
        ensures
            new.wf(mem3, a1),
    {
        self.lemma_wf_basics(mem0, a0);
        self.lemma_publish_tables_ok(new, mem0, mem1, mem2, mem3, a0, a1, ps, md, pt, pi, va, user, leaf);
        self.lemma_publish_links_ok(new, mem0, mem1, mem2, mem3, a0, a1, ps, md, pt, pi, va, user, leaf);
        reveal(PageTable::wf);
        assert(new.spec_tables().contains_key(new.spec_root()));
        assert(!new.spec_parents().contains_key(new.spec_root())) by {
            assert(!ps.contains(self.spec_root()));
        }
    }
}

impl PageTable {
    /// After publishing, the old tables on `path` and then the new chain
    /// `ps` link `va` down to the last level.
    #[verifier::rlimit(40)]
    pub proof fn lemma_publish_path_links(
        &self, new: PageTable, mem0: Seq<u64>, mem1: Seq<u64>, mem2: Seq<u64>, mem3: Seq<u64>,
        a0: Seq<FrameState>, a1: Seq<FrameState>, ps: Seq<nat>, md: nat, pt: nat, pi: nat, va: u64, user: bool, leaf: u64,
        path: Seq<nat>,
    )
        requires
            self.publish_setup(new, mem0, mem1, mem2, mem3, a0, a1, ps, md, pt, pi, va, user, leaf),
            path.len() == md + 1,
            path[md as int] == pt,
            path_links(mem0, self.spec_config(), path, va, md),
            forall|d: int| 0 <= d <= md ==> #[trigger] self.spec_tables().contains_key(path[d]) && self.spec_tables()[path[d]] == d,
        ensures
            path_links(mem3, self.spec_config(), path + ps, va, self.spec_config().spec_levels().len()),
    {
        let cfg = self.spec_config();
        let bits = cfg.spec_bits();
        let n = cfg.spec_levels().len();
        let full = path + ps;
        self.lemma_wf_basics(mem0, a0);
        self.lemma_publish_disjoint(new, mem0, mem1, mem2, mem3, a0, a1, ps, md, pt, pi, va, user, leaf);
        self.lemma_publish_owned_entries(new, mem0, mem1, mem2, mem3, a0, a1, ps, md, pt, pi, va, user, leaf);
        self.lemma_publish_chain_entries(new, mem0, mem1, mem2, mem3, a0, a1, ps, md, pt, pi, va, user, leaf);
        assert forall|d: nat| d < n implies {
            let e = #[trigger] mem_entry(mem3, full[d as int], path_index(cfg, d, va));
            pte_present(e) && !pte_huge(e) && pte_frame(e, bits) == full[d + 1int]
        } by {
            let idx = path_index(cfg, d, va);
            lemma_index_bound(va, level_shift(cfg.spec_levels()[d as int]));
            if d < md {
                let t = path[d as int];
                assert(full[d as int] == t);
                assert(full[d + 1int] == path[d + 1int]);
                assert(self.spec_tables().contains_key(path[d as int]));
                assert(self.spec_tables().contains_key(path[md as int]));
                assert(t != pt);
                let e0 = mem_entry(mem0, t, idx);
                assert(pte_present(e0) && !pte_huge(e0) && pte_frame(e0, bits) == path[d + 1int]);
                lemma_mask_facts(e0, bits);
            } else if d == md {
                assert(full[d as int] == pt);
                assert(full[d + 1int] == ps[0]);
                lemma_table_entry(((ps[0] * 4096) as u64), user, bits);
            } else {
                let j = (d - md - 1) as nat;
                assert(full[d as int] == ps[j as int]);
                assert(full[d + 1int] == ps[j + 1int]);
                assert(md + 1 + j == d);
                assert(mem_entry(mem3, ps[j as int], idx) == private_entry(cfg, ps, md, va, user, leaf, j, idx));
                lemma_table_entry(((ps[j + 1int] * 4096) as u64), user, bits);
            }
        }
    }

    /// After publishing, `va` translates through the old tables on `path`
    /// and then the new chain `ps` to the leaf's frame.
    pub proof fn lemma_publish_translation(
        &self, new: PageTable, mem0: Seq<u64>, mem1: Seq<u64>, mem2: Seq<u64>, mem3: Seq<u64>,
        a0: Seq<FrameState>, a1: Seq<FrameState>, ps: Seq<nat>, md: nat, pt: nat, pi: nat, va: u64, user: bool, leaf: u64,
        path: Seq<nat>, frame: u64, flags: u64,
    )
        requires
            self.publish_setup(new, mem0, mem1, mem2, mem3, a0, a1, ps, md, pt, pi, va, user, leaf),
            path.len() == md + 1,
            path[0] == self.spec_root(),
            path[md as int] == pt,
            path_links(mem0, self.spec_config(), path, va, md),
            forall|d: int| 0 <= d <= md ==> #[trigger] self.spec_tables().contains_key(path[d]) && self.spec_tables()[path[d]] == d,
            forall|d: int| 0 <= d <= md ==> table_accessible(mem0, self.spec_direct_map(), #[trigger] path[d]),
            spec_canonical(va, spec_virtual_address_bits(self.spec_config().spec_mode())),
            va % 4096 == 0,
            leaf == frame | flags,
            flag_bits_only(flags),
            flags & 1u64 != 0,
            frame % 4096 == 0,
            frame < self.spec_config().spec_limit(),
        ensures
            new.translate(mem3, va) == Some(frame),
            spec_mapping_entry(mem3, self.spec_direct_map(), self.spec_config(), self.spec_root(), va) == Some(leaf),
    {
        let cfg = self.spec_config();
        let dm = self.spec_direct_map();
        let n = cfg.spec_levels().len();
        let full = path + ps;
        self.lemma_wf_basics(mem0, a0);
        self.lemma_publish_chain_entries(new, mem0, mem1, mem2, mem3, a0, a1, ps, md, pt, pi, va, user, leaf);
        self.lemma_publish_path_links(new, mem0, mem1, mem2, mem3, a0, a1, ps, md, pt, pi, va, user, leaf, path);
        assert(full.len() == n + 1);
        assert forall|j: int| 0 <= j < full.len() implies table_accessible(mem3, dm, #[trigger] full[j]) by {
            if j <= md {
                assert(full[j] == path[j]);
            } else {
                assert(full[j] == ps[j - md - 1]);
                assert(table_accessible(mem1, dm, ps[j - md - 1]));
            }
        }
        lemma_walk_along(mem3, dm, cfg, full, va, 0);
        let last = (ps.len() - 1) as nat;
        assert(full[n as int] == ps[last as int]);
        lemma_index_bound(va, 12);
        assert(mem_entry(mem3, ps[last as int], spec_p1_index(va) as nat) == private_entry(cfg, ps, md, va, user, leaf, last, spec_p1_index(va) as nat));
        lemma_leaf_translation(mem3, cfg, ps[last as int], va, frame, flags);
        assert(mem_entry(mem3, ps[last as int], spec_p1_index(va) as nat) == leaf);
        lemma_walk_entry_along(mem3, dm, cfg, full, va, 0);
    }
}

/// A table entry links to its frame.
pub proof fn lemma_table_entry(a: u64, user: bool, bits: u8)
    requires
        bits < 64,
        a % 4096 == 0,
        a < (1u64 << bits),
    ensures
        pte_present(spec_table_entry(a, user)),
        !pte_huge(spec_table_entry(a, user)),
        pte_address(spec_table_entry(a, user), bits) == a,
        pte_frame(spec_table_entry(a, user), bits) == a as nat / 4096,
{
    let f: u64 = if user { 7 } else { 3 };
    lemma_low_flags_outside_mask(f, bits);
    lemma_entry_compose(a, f, bits);
    assert(7u64 & 1u64 != 0 && 7u64 & 128u64 == 0 && 3u64 & 1u64 != 0 && 3u64 & 128u64 == 0) by (bit_vector);
}

impl PageTable {
    /// A hierarchy of one empty root table, taken from `allocator`:
    /// `OutOfFrames` when no frame is free, `PhysicalAddressTooLarge` (the
    /// frame given back) when the frame lies beyond what the configuration
    /// can address. A new hierarchy maps nothing.
    pub fn new(
        direct_map: DirectMap,
        config: PagingConfig,
        allocator: &mut FrameAllocator,
        mem: &mut PhysicalMemory,
    ) -> (r: Result<Self, PageTableCreateError>)
        requires
            config.wf(),
            old(allocator).spec_direct_map() == direct_map,
            old(allocator).wf(),
            old(allocator).backed_by(old(mem)@),
        ensures
            final(allocator).wf(),
            final(allocator).backed_by(final(mem)@),
            final(allocator).spec_direct_map() == old(allocator).spec_direct_map(),
            final(allocator).spec_allocatable_frames() == old(allocator).spec_allocatable_frames(),
            final(mem)@.len() == old(mem)@.len(),
            forall|w: int| 0 <= w < old(mem)@.len() && #[trigger] final(mem)@[w] != old(mem)@[w] ==> old(allocator)@[w / 512]
                == FrameState::Free,
            match r {
                Ok(t) => {
                    let i = t.spec_root();
                    &&& chosen_free(old(allocator)@, old(allocator).spec_next_search() as int, i as int)
                    &&& i * 4096 < config.spec_limit()
                    &&& final(allocator)@ == old(allocator)@.update(i as int, FrameState::Allocated)
                    &&& t.wf(final(mem)@, final(allocator)@)
                    &&& t.spec_config() == config
                    &&& t.spec_direct_map() == direct_map
                    &&& t.spec_root_limit() == 512
                    &&& t.spec_tables() == map![i => 0nat]
                    &&& frame_is_zero(final(mem)@, i)
                    &&& table_accessible(final(mem)@, direct_map, i)
                    &&& forall|va: u64| #[trigger] t.translate(final(mem)@, va) is None
                },
                Err(PageTableCreateError::OutOfFrames) => !has_free(old(allocator)@) && final(allocator)@ == old(
                    allocator,
                )@,
                Err(PageTableCreateError::PhysicalAddressTooLarge) => {
                    &&& final(allocator)@ == old(allocator)@
                    &&& exists|i: int| chosen_free(old(allocator)@, old(allocator).spec_next_search() as int, i) && i * 4096
                        >= config.spec_limit()
                },
            },
    {
        let ghost a0 = allocator@;
        let ghost mem0 = mem@;
        let frame = match allocator.alloc_zeroed(mem) {
            Some(f) => f,
            None => return Err(PageTableCreateError::OutOfFrames),
        };
        let ghost i = frame.spec_frame().spec_index();
        proof {
            assert forall|w: int| 0 <= w < mem0.len() && #[trigger] mem@[w] != mem0[w] implies a0[w / 512] == FrameState::Free by {
                assert(i * 512 <= w < i * 512 + 512);
                assert(w / 512 == i) by (nonlinear_arith)
                    requires
                        i * 512 <= w < i * 512 + 512,
                ;
            }
        }
        let start = frame.frame_address().start_address();
        proof {
            lemma_frame_start(frame.spec_frame());
        }
        if start.0 >= config.physical_address_limit() {
            allocator.dealloc(frame);
            proof {
                assert(allocator@ =~= a0);
            }
            return Err(PageTableCreateError::PhysicalAddressTooLarge);
        }
        let ghost tables: Map<nat, nat> = map![i => 0nat];
        let ghost parents: Map<nat, (nat, nat)> = Map::empty();
        let t = PageTable {
            direct_map,
            config,
            frame,
            tables: Ghost(tables),
            parents: Ghost(parents),
            root_limit: Ghost(512nat),
        };
        proof {
            allocator.lemma_wf_len();
            assert(t.table_ok(mem@, allocator@, i));
            assert forall|p: nat, j: nat| #[trigger] t.link_ok(mem@, p, j) by {
                if t.spec_tables().contains_key(p) && t.spec_tables()[p] < config.spec_levels().len() && j < t.entry_limit(p) {
                    assert(p == i);
                    assert(mem_entry(mem@, i, j) == 0);
                    lemma_zero_entry_absent();
                }
            }
            reveal(PageTable::wf);
            assert(t.wf(mem@, allocator@));
            assert forall|va: u64| #[trigger] t.translate(mem@, va) is None by {
                lemma_index_bound(va, level_shift(config.spec_levels()[0]));
                let idx = level_index(config.spec_levels()[0], va) as nat;
                assert(mem_entry(mem@, i, idx) == 0);
                lemma_zero_entry_absent();
            }
        }
        Ok(t)
    }
}

/// One step of `unmap`'s walk: the table that entry `va` of `table`, at
/// depth `depth`, links to.
pub open spec fn spec_unmap_step(mem: Seq<u64>, dm: DirectMap, cfg: PagingConfig, depth: nat, table: nat, va: u64) -> Result<nat, UnmapError> {
    let level = cfg.spec_levels()[depth as int];
    let e = mem_entry(mem, table, level_index(level, va) as nat);
    if !table_accessible(mem, dm, table) {
        Err(UnmapError::PageTableOutsideDirectMap)
    } else if pte_huge(e) {
        if spec_large_page_size(level) is Some {
            Err(UnmapError::HugePageConflict)
        } else {
            Err(UnmapError::InvalidPageTableEntry)
        }
    } else if !pte_present(e) {
        Err(UnmapError::PageNotMapped)
    } else {
        Ok(pte_frame(e, cfg.spec_bits()))
    }
}

/// The last-level table that `unmap`'s walk for `va` reaches from `table`
/// at depth `depth`, or why it stops.
pub open spec fn spec_unmap_walk(mem: Seq<u64>, dm: DirectMap, cfg: PagingConfig, depth: nat, table: nat, va: u64) -> Result<nat, UnmapError>
    decreases cfg.spec_levels().len() - depth,
{
    if depth >= cfg.spec_levels().len() {
        Ok(table)
    } else {
        match spec_unmap_step(mem, dm, cfg, depth, table, va) {
            Err(e) => Err(e),
            Ok(c) => spec_unmap_walk(mem, dm, cfg, depth + 1, c, va),
        }
    }
}

impl PageTable {
    /// What `unmap` of `va` gives: the start of the frame mapped there, or
    /// why it fails.
    pub open spec fn spec_unmap(&self, mem: Seq<u64>, va: u64) -> Result<u64, UnmapError> {
        let cfg = self.spec_config();
        if !spec_canonical(va, spec_virtual_address_bits(cfg.spec_mode())) {
            Err(UnmapError::InvalidVirtualAddress)
        } else if va % 4096 != 0 {
            Err(UnmapError::VirtualAddressUnaligned)
        } else {
            match spec_unmap_walk(mem, self.spec_direct_map(), cfg, 0, self.spec_root(), va) {
                Err(e) => Err(e),
                Ok(t) => {
                    let e = mem_entry(mem, t, spec_p1_index(va) as nat);
                    if !table_accessible(mem, self.spec_direct_map(), t) {
                        Err(UnmapError::PageTableOutsideDirectMap)
                    } else if !pte_present(e) {
                        Err(UnmapError::PageNotMapped)
                    } else {
                        Ok(pte_address(e, cfg.spec_bits()))
                    }
                },
            }
        }
    }

    /// The table that entry `index` of `parent` links to, as one step of
    /// `unmap`'s walk.
    fn get_next_level(&self, mem: &PhysicalMemory, parent: FrameAddr, index: u64, level: PageTableLevel, Ghost(depth): Ghost<nat>, Ghost(va): Ghost<u64>) -> (r: Result<FrameAddr, UnmapError>)
        requires
            self.inv(),
            parent.wf(),
            depth < self.spec_config().spec_levels().len(),
            level == self.spec_config().spec_levels()[depth as int],
            index == level_index(level, va),
        ensures
            match (r, spec_unmap_step(mem@, self.spec_direct_map(), self.spec_config(), depth, parent.spec_index(), va)) {
                (Ok(f), Ok(c)) => f.wf() && f.spec_index() == c,
                (Err(e), Err(x)) => e == x,
                _ => false,
            },
    {
        let base = match self.table(mem, parent) {
            Some(b) => b,
            None => return Err(UnmapError::PageTableOutsideDirectMap),
        };
        proof {
            lemma_index_bound(va, level_shift(level));
        }
        let entry = PageTableEntry(mem.read_word(base + index));
        proof {
            lemma_mask_facts(entry.0, self.spec_config().spec_bits());
        }
        if entry.is_huge() {
            return if level.large_page_size().is_some() {
                Err(UnmapError::HugePageConflict)
            } else {
                Err(UnmapError::InvalidPageTableEntry)
            };
        }
        match entry.table_frame(self.config) {
            Some(f) => Ok(f),
            None => Err(UnmapError::PageNotMapped),
        }
    }

    /// Whether every entry of the table in `frame` is absent.
    fn table_is_empty(&self, mem: &PhysicalMemory, frame: FrameAddr) -> (r: bool)
        requires
            frame.wf(),
            table_accessible(mem@, self.spec_direct_map(), frame.spec_index()),
        ensures
            r == forall|j: nat| j < 512 ==> !pte_present(#[trigger] mem_entry(mem@, frame.spec_index(), j)),
    {
        let base = match self.table(mem, frame) {
            Some(b) => b,
            None => return true,
        };
        let mut j: u64 = 0;
        while j < 512
            invariant
                j <= 512,
                base == frame.spec_index() * 512,
                base + 512 <= mem@.len(),
                forall|k: nat| k < j ==> !pte_present(#[trigger] mem_entry(mem@, frame.spec_index(), k)),
            decreases 512 - j,
        {
            if PageTableEntry(mem.read_word(base + j)).is_present() {
                assert(pte_present(mem_entry(mem@, frame.spec_index(), j as nat)));
                return false;
            }
            j = j + 1;
        }
        true
    }
}

impl PageTable {
    /// Taking out an owned table that no owned table hangs below, and
    /// clearing the entry that linked to it, keeps the hierarchy sound once
    /// its frame is free.
    pub proof fn lemma_remove_childless(
        &self,
        new: PageTable,
        mem0: Seq<u64>,
        mem1: Seq<u64>,
        a0: Seq<FrameState>,
        a1: Seq<FrameState>,
        c: nat,
        p: nat,
        i: nat,
    )
        requires
            self.wf(mem0, a0),
            self.spec_tables().contains_key(c),
            c != self.spec_root(),
            self.spec_parents()[c] == (p, i),
            forall|t: nat| #[trigger] self.spec_tables().contains_key(t) && t != self.spec_root() ==> self.spec_parents()[t].0 != c,
            mem1 == mem0.update(word_pos(p, i) as int, 0u64),
            a1 == a0.update(c as int, FrameState::Free),
            new.spec_tables() == self.spec_tables().remove(c),
            new.spec_parents() == self.spec_parents().remove(c),
            new.spec_config() == self.spec_config(),
            new.spec_root() == self.spec_root(),
            new.spec_direct_map() == self.spec_direct_map(),
            new.spec_root_limit() == self.spec_root_limit(),
            new.inv() == self.inv(),
        ensures
            new.wf(mem1, a1),
    {
        reveal(PageTable::wf);
        let n = self.spec_config().spec_levels().len();
        let bits = self.spec_config().spec_bits();
        let tables = self.spec_tables();
        let parents = self.spec_parents();
        assert(self.table_ok(mem0, a0, c));
        assert(self.table_ok(mem0, a0, p));
        lemma_word_pos(p, i, p, i);
        assert(word_pos(p, i) < mem0.len()) by (nonlinear_arith)
            requires
                p < mem0.len() / 512,
                i < 512,
        ;
        lemma_zero_entry_absent();
        assert forall|t: nat, j: nat| tables.contains_key(t) && j < 512 && (t != p || j != i) implies #[trigger] mem_entry(mem1, t, j)
            == mem_entry(mem0, t, j) by {
            lemma_word_pos(t, j, p, i);
        }
        assert forall|t: nat| #[trigger] new.spec_tables().contains_key(t) implies new.table_ok(mem1, a1, t) by {
            assert(self.table_ok(mem0, a0, t));
            if t != self.spec_root() {
                let (pt, it) = parents[t];
                assert(self.table_ok(mem0, a0, pt));
                if pt == p && it == i {
                    assert(t == c);
                }
                assert(mem_entry(mem1, pt, it) == mem_entry(mem0, pt, it));
            }
        }
        assert forall|q: nat, j: nat| #[trigger] new.link_ok(mem1, q, j) by {
            if new.spec_tables().contains_key(q) && new.spec_tables()[q] < n && j < new.entry_limit(q) {
                let e = mem_entry(mem1, q, j);
                if pte_present(e) && !pte_huge(e) {
                    if q == p && j == i {
                        assert(e == 0);
                    } else {
                        assert(e == mem_entry(mem0, q, j));
                        assert(self.link_ok(mem0, q, j));
                        let t = pte_frame(e, bits);
                        if t == c {
                            assert(parents[c] == (q, j));
                        }
                    }
                }
            }
        }
        assert(new.spec_tables().contains_key(new.spec_root()));
    }
}

/// Adding an offset `o` within a page to a page-aligned `va` changes
/// neither its table indices nor its canonical form, and adds `o` to its
/// offset in a page of any size.
proof fn lemma_offset_bits(va: u64, o: u64, x: u64)
    by (bit_vector)
    requires
        va % 4096 == 0,
        o < 4096,
        x % 4096 == 0,
    ensures
        va + o <= u64::MAX,
        (((va + o) as u64) >> 12u64) & 0x1ffu64 == (va >> 12u64) & 0x1ffu64,
        (((va + o) as u64) >> 21u64) & 0x1ffu64 == (va >> 21u64) & 0x1ffu64,
        (((va + o) as u64) >> 30u64) & 0x1ffu64 == (va >> 30u64) & 0x1ffu64,
        (((va + o) as u64) >> 39u64) & 0x1ffu64 == (va >> 39u64) & 0x1ffu64,
        (((va + o) as u64) >> 48u64) & 0x1ffu64 == (va >> 48u64) & 0x1ffu64,
        ((va + o) as u64) & 0xfffu64 == o,
        ((va + o) as u64) & 0x1f_ffffu64 == (va & 0x1f_ffffu64) + o,
        ((va + o) as u64) & 0x3fff_ffffu64 == (va & 0x3fff_ffffu64) + o,
        (((va + o) as u64) < 0x0000_8000_0000_0000u64) == (va < 0x0000_8000_0000_0000u64),
        (((va + o) as u64) >= 0xffff_8000_0000_0000u64) == (va >= 0xffff_8000_0000_0000u64),
        (((va + o) as u64) < 0x0100_0000_0000_0000u64) == (va < 0x0100_0000_0000_0000u64),
        (((va + o) as u64) >= 0xff00_0000_0000_0000u64) == (va >= 0xff00_0000_0000_0000u64),
        (x & !0x1f_ffffu64) + (va & 0x1f_ffffu64) <= u64::MAX ==> (x & !0x1f_ffffu64) + (va & 0x1f_ffffu64) + o <= u64::MAX,
        (x & !0x3fff_ffffu64) + (va & 0x3fff_ffffu64) <= u64::MAX ==> (x & !0x3fff_ffffu64) + (va & 0x3fff_ffffu64) + o
            <= u64::MAX,
        x + o <= u64::MAX,
{
}

/// A walk that translates a page-aligned `va` translates each address of
/// the same page to the same place plus the address's offset.
pub proof fn lemma_walk_offset(mem: Seq<u64>, dm: DirectMap, cfg: PagingConfig, depth: nat, table: nat, va: u64, o: u64)
    requires
        cfg.wf(),
        va % 4096 == 0,
        o < 4096,
        spec_walk(mem, dm, cfg, depth, table, va) is Some,
    ensures
        va + o <= u64::MAX,
        spec_walk(mem, dm, cfg, depth, table, (va + o) as u64) == Some(
            (spec_walk(mem, dm, cfg, depth, table, va)->Some_0 + o) as u64,
        ),
    decreases cfg.spec_levels().len() - depth,
{
    let levels = cfg.spec_levels();
    let vo = (va + o) as u64;
    lemma_aligned_offset(va);
    lemma_offset_bits(va, o, 0);
    if depth >= levels.len() {
        let e = mem_entry(mem, table, spec_p1_index(va) as nat);
        lemma_mask_facts(e, cfg.spec_bits());
        lemma_offset_bits(va, o, pte_address(e, cfg.spec_bits()));
        assert(spec_p1_index(vo) == spec_p1_index(va));
    } else {
        let level = levels[depth as int];
        assert(level_index(level, vo) == level_index(level, va)) by {
            match level {
                PageTableLevel::Pml5 => {},
                PageTableLevel::Pml4 => {},
                PageTableLevel::Pdpt => {},
                PageTableLevel::PageDirectory => {},
            }
        }
        let e = mem_entry(mem, table, level_index(level, va) as nat);
        if pte_present(e) {
            if pte_huge(e) {
                lemma_mask_facts(e, cfg.spec_bits());
                lemma_offset_bits(va, o, pte_address(e, cfg.spec_bits()));
            } else {
                lemma_walk_offset(mem, dm, cfg, depth + 1, pte_frame(e, cfg.spec_bits()), va, o);
            }
        }
    }
}

/// Clearing words of memory never makes a walk succeed: where `m2` differs
/// from `m1` it holds zero, so a walk that finds nothing in `m1` finds
/// nothing in `m2`.
pub proof fn lemma_walk_zeroed(m1: Seq<u64>, m2: Seq<u64>, dm: DirectMap, cfg: PagingConfig, depth: nat, table: nat, va: u64)
    requires
        m2.len() == m1.len(),
        forall|w: int| 0 <= w < m1.len() && #[trigger] m2[w] != m1[w] ==> m2[w] == 0,
        spec_walk(m1, dm, cfg, depth, table, va) is None,
    ensures
        spec_walk(m2, dm, cfg, depth, table, va) is None,
    decreases cfg.spec_levels().len() - depth,
{
    let levels = cfg.spec_levels();
    lemma_zero_entry_absent();
    if table_accessible(m1, dm, table) {
        let i: u64 = if depth >= levels.len() {
            spec_p1_index(va)
        } else {
            level_index(levels[depth as int], va)
        };
        if depth >= levels.len() {
            lemma_index_bound(va, 12u64);
        } else {
            lemma_index_bound(va, level_shift(levels[depth as int]));
        }
        let w = (table * 512 + i) as int;
        assert(0 <= w < m1.len()) by (nonlinear_arith)
            requires
                table < m1.len() / 512,
                i < 512,
                w == table * 512 + i,
        ;
        assert(mem_entry(m1, table, i as nat) == m1[w]);
        assert(mem_entry(m2, table, i as nat) == m2[w]);
        if depth < levels.len() && m2[w] == m1[w] {
            let e = m1[w];
            if pte_present(e) && !pte_huge(e) {
                lemma_walk_zeroed(m1, m2, dm, cfg, depth + 1, pte_frame(e, cfg.spec_bits()), va);
            }
        }
    }
}

/// A walk down linked, readable tables on `path` reaches depth `d` with
/// the same result as from the root.
pub proof fn lemma_walk_prefix(mem: Seq<u64>, dm: DirectMap, cfg: PagingConfig, path: Seq<nat>, va: u64, d: nat)
    requires
        d < path.len(),
        d <= cfg.spec_levels().len(),
        path_links(mem, cfg, path, va, d),
        forall|j: int| 0 <= j < d ==> table_accessible(mem, dm, #[trigger] path[j]),
    ensures
        spec_walk(mem, dm, cfg, 0, path[0], va) == spec_walk(mem, dm, cfg, d, path[d as int], va),
    decreases d,
{
    if d > 0 {
        lemma_walk_prefix(mem, dm, cfg, path, va, (d - 1) as nat);
        let e = mem_entry(mem, path[d - 1], path_index(cfg, (d - 1) as nat, va));
        assert(pte_present(e) && !pte_huge(e) && pte_frame(e, cfg.spec_bits()) == path[d as int]);
        assert(table_accessible(mem, dm, path[d - 1]));
    }
}

/// Where `unmap`'s walk ends, the translation's walk ends too.
pub proof fn lemma_unmap_walk_translate(mem: Seq<u64>, dm: DirectMap, cfg: PagingConfig, d: nat, table: nat, va: u64, t: nat)
    requires
        spec_unmap_walk(mem, dm, cfg, d, table, va) == Ok::<nat, UnmapError>(t),
    ensures
        spec_walk(mem, dm, cfg, d, table, va) == spec_walk(mem, dm, cfg, cfg.spec_levels().len(), t, va),
    decreases cfg.spec_levels().len() - d,
{
    if d < cfg.spec_levels().len() {
        let c = spec_unmap_step(mem, dm, cfg, d, table, va)->Ok_0;
        lemma_unmap_walk_translate(mem, dm, cfg, d + 1, c, va, t);
    }
}

/// Where `unmap`'s walk ends, the walk for the mapping entry ends too.
pub proof fn lemma_unmap_walk_entry(mem: Seq<u64>, dm: DirectMap, cfg: PagingConfig, d: nat, table: nat, va: u64, t: nat)
    requires
        spec_unmap_walk(mem, dm, cfg, d, table, va) == Ok::<nat, UnmapError>(t),
    ensures
        spec_walk_entry(mem, dm, cfg, d, table, va) == spec_walk_entry(mem, dm, cfg, cfg.spec_levels().len(), t, va),
    decreases cfg.spec_levels().len() - d,
{
    if d < cfg.spec_levels().len() {
        let c = spec_unmap_step(mem, dm, cfg, d, table, va)->Ok_0;
        lemma_unmap_walk_entry(mem, dm, cfg, d + 1, c, va, t);
    }
}

impl PageTable {
    /// Every address of a mapped page translates to the page's translation
    /// plus the address's offset in the page.
    pub proof fn lemma_translate_offset(&self, mem: Seq<u64>, va: u64, o: u64)
        requires
            self.inv(),
            va % 4096 == 0,
            o < 4096,
            self.translate(mem, va) is Some,
        ensures
            va + o <= u64::MAX,
            self.translate(mem, (va + o) as u64) == Some((self.translate(mem, va)->Some_0 + o) as u64),
    {
        lemma_aligned_offset(va);
        lemma_offset_bits(va, o, 0);
        lemma_walk_offset(mem, self.spec_direct_map(), self.spec_config(), 0, self.spec_root(), va, o);
    }

    /// The frame that `unmap` would give back starts a page.
    pub proof fn lemma_unmap_ok_aligned(&self, mem: Seq<u64>, va: u64)
        requires
            self.inv(),
            self.spec_unmap(mem, va) is Ok,
        ensures
            self.spec_unmap(mem, va)->Ok_0 % 4096 == 0,
    {
        let cfg = self.spec_config();
        let t = spec_unmap_walk(mem, self.spec_direct_map(), cfg, 0, self.spec_root(), va)->Ok_0;
        lemma_mask_facts(mem_entry(mem, t, spec_p1_index(va) as nat), cfg.spec_bits());
    }

    /// A page that `unmap` would take down is mapped: it translates to the
    /// frame `unmap` gives.
    pub proof fn lemma_unmap_ok_translates(&self, mem: Seq<u64>, va: u64)
        requires
            self.spec_unmap(mem, va) is Ok,
        ensures
            self.translate(mem, va) == Some(self.spec_unmap(mem, va)->Ok_0),
    {
        let cfg = self.spec_config();
        let t = spec_unmap_walk(mem, self.spec_direct_map(), cfg, 0, self.spec_root(), va)->Ok_0;
        lemma_unmap_walk_translate(mem, self.spec_direct_map(), cfg, 0, self.spec_root(), va, t);
        lemma_aligned_offset(va);
    }
}

impl PageTable {
    /// Unmaps the page at `mapped_addr` and returns the frame it mapped;
    /// tables left empty on its path are freed, bottom-up, up to the first
    /// one that still holds an entry (the root is never freed). Nothing
    /// changes when it fails.
    #[verifier::spinoff_prover]
    #[verifier::rlimit(100)]
    pub fn unmap(&mut self, mem: &mut PhysicalMemory, mapped_addr: VirtualAddr, allocator: &mut FrameAllocator) -> (r: Result<FrameAddr, UnmapError>)
        requires
            old(self).wf(old(mem)@, old(allocator)@),
            old(allocator).wf(),
            old(allocator).backed_by(old(mem)@),
            old(self).root_index(mapped_addr.0) < old(self).spec_root_limit(),
        ensures
            final(allocator).wf(),
            final(allocator).backed_by(final(mem)@),
            final(allocator).spec_direct_map() == old(allocator).spec_direct_map(),
            final(allocator).spec_allocatable_frames() == old(allocator).spec_allocatable_frames(),
            final(allocator)@.len() == old(allocator)@.len(),
            final(self).spec_config() == old(self).spec_config(),
            final(self).spec_root() == old(self).spec_root(),
            final(self).spec_direct_map() == old(self).spec_direct_map(),
            final(self).spec_root_limit() == old(self).spec_root_limit(),
            final(self).wf(final(mem)@, final(allocator)@),
            final(mem)@.len() == old(mem)@.len(),
            match (r, old(self).spec_unmap(old(mem)@, mapped_addr.0)) {
                (Ok(f), Ok(a)) => f.0.0 == a,
                (Err(e), Err(x)) => e == x,
                _ => false,
            },
            r is Err ==> final(mem)@ == old(mem)@ && final(allocator)@ == old(allocator)@ && final(self).spec_tables()
                == old(self).spec_tables(),
            r matches Ok(f) ==> old(self).translate(old(mem)@, mapped_addr.0) == Some(f.0.0) && final(self).translate(
                final(mem)@,
                mapped_addr.0,
            ) is None,
            r is Ok ==> forall|t: nat| #[trigger] final(self).spec_tables().contains_key(t) ==> old(self).spec_tables().contains_key(t),
            r is Ok ==> forall|f: int| 0 <= f < old(allocator)@.len() && #[trigger] final(allocator)@[f] != old(allocator)@[f]
                ==> old(allocator)@[f] == FrameState::Allocated && final(allocator)@[f] == FrameState::Free
                && old(self).spec_tables().contains_key(f as nat) && !final(self).spec_tables().contains_key(f as nat),
            r is Ok ==> forall|w: int| 0 <= w < old(mem)@.len() && #[trigger] final(mem)@[w] != old(mem)@[w]
                ==> old(self).spec_tables().contains_key((w / 512) as nat),
            r is Ok ==> forall|vb: u64|
                vb != mapped_addr.0 && old(self).root_index(vb) < old(self).spec_root_limit() && old(self).spec_unmap(old(mem)@, vb) is Ok
                    ==> #[trigger] final(self).spec_unmap(final(mem)@, vb) == old(self).spec_unmap(old(mem)@, vb),
            r is Ok ==> forall|w: int| 0 <= w < old(mem)@.len() && #[trigger] final(mem)@[w] != old(mem)@[w] ==> final(mem)@[w] == 0,
            r is Ok ==> forall|vb: u64|
                old(self).translate(old(mem)@, vb) is None ==> #[trigger] final(self).translate(final(mem)@, vb) is None,
            r is Ok ==> forall|t: nat|
                old(self).spec_tables().contains_key(t) && !#[trigger] final(self).spec_tables().contains_key(t) ==> final(allocator)@[t as int]
                    == FrameState::Free,
            r is Ok ==> forall|t: nat|
                #[trigger] final(self).spec_tables().contains_key(t) && t != final(self).spec_root() && table_empty(final(mem)@, t)
                    ==> table_empty(old(mem)@, t),
    {
        let address = mapped_addr.as_usize();
        proof {
            self.lemma_wf_basics(mem@, allocator@);
        }
        if !self.is_canonical(address) {
            return Err(UnmapError::InvalidVirtualAddress);
        }
        if address % PAGE_SIZE != 0 {
            return Err(UnmapError::VirtualAddressUnaligned);
        }
        let ghost cfg = self.config;
        let ghost bits = cfg.spec_bits();
        let ghost dm = self.direct_map;
        let ghost root = self.spec_root();
        let levels = self.config.mode.intermediate_levels();
        let n = levels.len();
        let mut current = self.frame.frame_address();
        let mut frames: Vec<FrameAddr> = Vec::new();
        frames.push(current);
        let ghost mut path: Seq<nat> = seq![root];
        let mut depth: usize = 0;
        while depth < n
            invariant
                *self == *old(self),
                mem@ == old(mem)@,
                *allocator == *old(allocator),
                allocator.wf(),
                allocator.backed_by(mem@),
                self.wf(mem@, allocator@),
                self.inv(),
                cfg.wf(),
                cfg == self.spec_config(),
                dm == self.spec_direct_map(),
                root == self.spec_root(),
                bits == cfg.spec_bits(),
                levels@ == cfg.spec_levels(),
                n == levels@.len(),
                n >= 3,
                depth <= n,
                address == mapped_addr.0,
                address % 4096 == 0,
                spec_canonical(address, spec_virtual_address_bits(cfg.spec_mode())),
                self.root_index(address) < self.spec_root_limit(),
                current.wf(),
                path.len() == depth + 1,
                path[0] == root,
                path[depth as int] == current.spec_index(),
                frames@.len() == depth + 1,
                forall|k: int| 0 <= k <= depth ==> (#[trigger] frames@[k]).wf() && frames@[k].spec_index() == path[k],
                forall|d: int| 0 <= d <= depth ==> #[trigger] self.spec_tables().contains_key(path[d]) && self.spec_tables()[path[d]] == d,
                forall|d: int| 0 <= d < depth ==> table_accessible(mem@, dm, #[trigger] path[d]),
                path_links(mem@, cfg, path, address, depth as nat),
                spec_unmap_walk(mem@, dm, cfg, 0, root, address) == spec_unmap_walk(mem@, dm, cfg, depth as nat, path[depth as int], address),
            decreases n - depth,
        {
            let level = levels[depth];
            let index = level.index(address);
            let next = match self.get_next_level(mem, current, index, level, Ghost(depth as nat), Ghost(address)) {
                Ok(f) => f,
                Err(e) => return Err(e),
            };
            proof {
                let p = current.spec_index();
                assert(self.spec_tables().contains_key(path[depth as int]));
                if p == root {
                    assert(depth == 0) by {
                        if depth != 0 {
                            assert(self.spec_tables()[root] == 0);
                        }
                    }
                }
                lemma_index_bound(address, level_shift(level));
                let e = mem_entry(mem@, p, index as nat);
                lemma_mask_facts(e, bits);
                self.lemma_owned_child(mem@, allocator@, p, index as nat);
                let old_path = path;
                path = path.push(next.spec_index());
                assert forall|d: nat| d < depth + 1 implies {
                    let e = #[trigger] mem_entry(mem@, path[d as int], path_index(cfg, d, address));
                    pte_present(e) && !pte_huge(e) && pte_frame(e, bits) == path[d + 1int]
                } by {
                    if d < depth {
                        assert(path[d as int] == old_path[d as int]);
                        assert(path[d + 1int] == old_path[d + 1int]);
                    }
                }
            }
            frames.push(next);
            current = next;
            depth = depth + 1;
        }
        let base = match self.table(mem, current) {
            Some(b) => b,
            None => return Err(UnmapError::PageTableOutsideDirectMap),
        };
        let leaf_index = p1_index(address);
        let entry = PageTableEntry(mem.read_word(base + leaf_index));
        let frame = match entry.leaf_frame(self.config) {
            Some(f) => f,
            None => return Err(UnmapError::PageNotMapped),
        };
        let ghost mem0 = mem@;
        let ghost a0 = allocator@;
        let ghost tables0 = self.spec_tables();
        let ghost self0 = *self;
        proof {
            lemma_unmap_walk_translate(mem0, dm, cfg, 0, root, address, path[n as int]);
            lemma_mask_facts(entry.0, bits);
            lemma_aligned_offset(address);
        }
        mem.write_word(base + leaf_index, 0);
        proof {
            let tn = path[n as int];
            let leaf_pos = word_pos(tn, leaf_index as nat) as int;
            assert(base + leaf_index == leaf_pos);
            lemma_word_pos(tn, leaf_index as nat, tn, leaf_index as nat);
            assert(self.spec_tables().contains_key(path[n as int]));
            self.lemma_wf_user_bits_and_leaves(mem0, mem@, allocator@);
            assert forall|k: nat, j: nat| k < n && j < 512 implies #[trigger] mem_entry(mem@, path[k as int], j) == mem_entry(mem0, path[k as int], j) by {
                assert(self.spec_tables().contains_key(path[k as int]));
                lemma_word_pos(path[k as int], j, tn, leaf_index as nat);
            }
            assert forall|d: nat| d < n implies {
                let e = #[trigger] mem_entry(mem@, path[d as int], path_index(cfg, d, address));
                pte_present(e) && !pte_huge(e) && pte_frame(e, bits) == path[d + 1int]
            } by {
                lemma_index_bound(address, level_shift(cfg.spec_levels()[d as int]));
                assert(mem_entry(mem@, path[d as int], path_index(cfg, d, address)) == mem_entry(mem0, path[d as int], path_index(cfg, d, address)));
            }
            lemma_zero_entry_absent();
            assert(self0.owned_path(mem0, path, n as nat, address));
            assert forall|k: nat, i: nat|
                self0.spec_tables().contains_key(k) && i < 512 && #[trigger] mem_entry(mem@, k, i) != mem_entry(mem0, k, i) implies {
                    &&& self0.spec_tables()[k] >= n
                    &&& k == path[self0.spec_tables()[k] as int]
                    &&& i == va_index(cfg, self0.spec_tables()[k], address)
                } by {
                self0.lemma_owned_allocated(mem0, allocator@, k);
                lemma_word_pos(k, i, tn, leaf_index as nat);
                assert(word_pos(k, i) < mem0.len()) by (nonlinear_arith)
                    requires
                        k < mem0.len() / 512,
                        i < 512,
                ;
            }
            assert(self0.changes_below(mem0, mem@, path, n as nat, address));
        }
        let mut child_is_empty = self.table_is_empty(mem, current);
        let mut d: usize = n;
        proof {
            assert(forall|k: int| 0 <= k <= d ==> #[trigger] self.spec_tables().contains_key(path[k]) && self.spec_tables()[path[k]] == k);
            assert(child_is_empty <==> table_empty(mem@, path[d as int]));
        }
        while d > 0 && child_is_empty
            invariant
                self.spec_config() == cfg,
                self.spec_root() == root,
                self.spec_direct_map() == dm,
                self.spec_root_limit() == self0.spec_root_limit(),
                self.inv(),
                self.frame == self0.frame,
                self.config == self0.config,
                self.direct_map == self0.direct_map,
                self.wf(mem@, allocator@),
                allocator.wf(),
                allocator.backed_by(mem@),
                allocator.spec_direct_map() == old(allocator).spec_direct_map(),
                allocator.spec_allocatable_frames() == old(allocator).spec_allocatable_frames(),
                cfg.wf(),
                bits == cfg.spec_bits(),
                levels@ == cfg.spec_levels(),
                n == levels@.len(),
                d <= n,
                path.len() == n + 1,
                path[0] == root,
                frames@.len() == n + 1,
                forall|k: int| 0 <= k <= n ==> (#[trigger] frames@[k]).wf() && frames@[k].spec_index() == path[k],
                forall|k: int| 0 <= k <= d ==> #[trigger] self.spec_tables().contains_key(path[k]) && self.spec_tables()[path[k]] == k,
                forall|k: int| 0 <= k <= n ==> table_accessible(mem0, dm, #[trigger] path[k]),
                mem@.len() == mem0.len(),
                path_links(mem@, cfg, path, address, d as nat),
                spec_walk(mem@, dm, cfg, d as nat, path[d as int], address) is None,
                child_is_empty ==> forall|j: nat| j < 512 ==> !pte_present(#[trigger] mem_entry(mem@, path[d as int], j)),
                self.root_index(address) < self.spec_root_limit(),
                a0 == old(allocator)@,
                tables0 == old(self).spec_tables(),
                allocator@.len() == a0.len(),
                forall|t: nat| #[trigger] self.spec_tables().contains_key(t) ==> tables0.contains_key(t),
                forall|f: int| 0 <= f < a0.len() && #[trigger] allocator@[f] != a0[f] ==> a0[f] == FrameState::Allocated
                    && allocator@[f] == FrameState::Free && tables0.contains_key(f as nat) && !self.spec_tables().contains_key(f as nat),
                forall|w: int| 0 <= w < mem0.len() && #[trigger] mem@[w] != old(mem)@[w] ==> tables0.contains_key((w / 512) as nat),
                forall|w: int| 0 <= w < mem0.len() && #[trigger] mem@[w] != old(mem)@[w] ==> mem@[w] == 0,
                self0.wf(mem0, a0),
                self0.spec_tables() == tables0,
                self0.spec_config() == cfg,
                mem0 == old(mem)@,
                address % 4096 == 0,
                self0.owned_path(mem0, path, n as nat, address),
                self0.changes_below(mem0, mem@, path, d as nat, address),
                self0.path_otherwise_empty(mem0, path, d as nat, address),
                d > 0 ==> (child_is_empty <==> table_empty(mem@, path[d as int])),
                forall|t: nat| tables0.contains_key(t) && !#[trigger] self.spec_tables().contains_key(t) ==> allocator@[t as int] == FrameState::Free,
                forall|k: int| d < k <= n ==> !#[trigger] self.spec_tables().contains_key(path[k]),
            decreases d,
        {
            d = d - 1;
            let parent = frames[d];
            let child = frames[d + 1];
            let idx = levels[d].index(address);
            let ghost p = path[d as int];
            let ghost c = path[d + 1];
            let ghost memb = mem@;
            let ghost ab = allocator@;
            let ghost selfb = *self;
            proof {
                self.lemma_wf_basics(mem@, allocator@);
                assert(self.spec_tables().contains_key(path[d as int]));
                assert(self.spec_tables().contains_key(path[d + 1]));
                lemma_index_bound(address, level_shift(levels@[d as int]));
                if p == root {
                    assert(d == 0) by {
                        if d != 0 {
                            assert(self.spec_tables()[root] == 0);
                        }
                    }
                }
                assert(idx as nat == path_index(cfg, d as nat, address));
                let e = mem_entry(mem@, path[d as int], path_index(cfg, d as nat, address));
                assert(pte_present(e) && !pte_huge(e) && pte_frame(e, bits) == path[d + 1int]);
                self.lemma_owned_child(mem@, allocator@, p, idx as nat);
                assert(c != root) by {
                    if c == root {
                        assert(self.spec_tables()[root] == 0);
                    }
                }
                assert(self.table_ok(mem@, allocator@, c));
            }
            let pbase = match self.table(mem, parent) {
                Some(b) => b,
                None => {
                    assert(table_accessible(mem@, dm, p));
                    return Err(UnmapError::PageTableOutsideDirectMap);
                },
            };
            mem.write_word(pbase + idx, 0);
            self.tables = Ghost(self.tables@.remove(c));
            self.parents = Ghost(self.parents@.remove(c));
            allocator.dealloc(OwnedFrame::from_raw(child));
            proof {
                assert(pbase + idx == word_pos(p, idx as nat));
                selfb.lemma_empty_is_childless(memb, ab, c);
                selfb.lemma_remove_childless(*self, memb, mem@, ab, allocator@, c, p, idx as nat);
                lemma_word_pos(p, idx as nat, p, idx as nat);
                assert forall|k: nat, j: nat| k < d && j < 512 implies #[trigger] mem_entry(mem@, path[k as int], j) == mem_entry(memb, path[k as int], j) by {
                    assert(selfb.spec_tables().contains_key(path[k as int]));
                    lemma_word_pos(path[k as int], j, p, idx as nat);
                }
                assert forall|k: nat| k < d implies {
                    let e = #[trigger] mem_entry(mem@, path[k as int], path_index(cfg, k, address));
                    pte_present(e) && !pte_huge(e) && pte_frame(e, bits) == path[k + 1int]
                } by {
                    lemma_index_bound(address, level_shift(cfg.spec_levels()[k as int]));
                    assert(mem_entry(mem@, path[k as int], path_index(cfg, k, address)) == mem_entry(memb, path[k as int], path_index(cfg, k, address)));
                }
                assert(mem_entry(mem@, p, idx as nat) == 0);
                lemma_zero_entry_absent();
                assert forall|k: int| 0 <= k <= d implies #[trigger] self.spec_tables().contains_key(path[k]) && self.spec_tables()[path[k]] == k by {
                    assert(selfb.spec_tables().contains_key(path[k]));
                    assert(path[k] != c) by {
                        if path[k] == c {
                            assert(selfb.spec_tables()[c] == d + 1);
                        }
                    }
                }
                assert(word_pos(p, idx as nat) / 512 == p);
                assert forall|w: int| 0 <= w < mem0.len() && #[trigger] mem@[w] != old(mem)@[w] implies tables0.contains_key((w / 512) as nat) by {
                    if w == word_pos(p, idx as nat) {
                        assert(selfb.spec_tables().contains_key(p));
                    } else {
                        assert(mem@[w] == memb[w]);
                    }
                }
                assert forall|w: int| 0 <= w < mem0.len() && #[trigger] mem@[w] != old(mem)@[w] implies mem@[w] == 0 by {
                    if w != word_pos(p, idx as nat) {
                        assert(mem@[w] == memb[w]);
                    }
                }
                assert(self0.spec_tables().contains_key(p) && tables0[p] == d);
                assert(idx as nat == va_index(cfg, d as nat, address));
                assert forall|k: nat, i: nat|
                    self0.spec_tables().contains_key(k) && i < 512 && #[trigger] mem_entry(mem@, k, i) != mem_entry(mem0, k, i) implies {
                        &&& self0.spec_tables()[k] >= d
                        &&& k == path[self0.spec_tables()[k] as int]
                        &&& i == va_index(cfg, self0.spec_tables()[k], address)
                    } by {
                    self0.lemma_owned_allocated(mem0, a0, k);
                    lemma_word_pos(k, i, p, idx as nat);
                    assert(word_pos(k, i) < mem0.len()) by (nonlinear_arith)
                        requires
                            k < mem0.len() / 512,
                            i < 512,
                    ;
                    if word_pos(k, i) != word_pos(p, idx as nat) {
                        assert(mem_entry(mem@, k, i) == mem_entry(memb, k, i));
                    }
                }
                assert forall|e: nat, i: nat|
                    d < e <= n && i < 512 && i != va_index(cfg, e, address) implies !pte_present(
                        #[trigger] mem_entry(mem0, path[e as int], i),
                    ) by {
                    if e == d + 1 {
                        assert(tables0.contains_key(path[e as int]) && tables0[path[e as int]] == e);
                        assert(!pte_present(mem_entry(memb, path[d + 1], i)));
                        if mem_entry(memb, path[e as int], i) != mem_entry(mem0, path[e as int], i) {
                            assert(i == va_index(cfg, tables0[path[e as int]], address));
                        }
                    }
                }
            }
            proof {
                assert forall|t: nat| tables0.contains_key(t) && !#[trigger] self.spec_tables().contains_key(t) implies allocator@[t as int]
                    == FrameState::Free by {
                    self0.lemma_owned_allocated(mem0, a0, t);
                    if t != c {
                        assert(!selfb.spec_tables().contains_key(t));
                        assert(ab[t as int] == FrameState::Free);
                    }
                }
                assert forall|k: int| d < k <= n implies !#[trigger] self.spec_tables().contains_key(path[k]) by {
                    if k > d + 1 {
                        assert(!selfb.spec_tables().contains_key(path[k]));
                    }
                }
            }
            if d > 0 {
                child_is_empty = self.table_is_empty(mem, parent);
            } else {
                child_is_empty = false;
            }
        }
        proof {
            assert forall|k: int| 0 <= k < d implies table_accessible(mem@, dm, #[trigger] path[k]) by {
                assert(table_accessible(mem0, dm, path[k]));
            }
            lemma_walk_prefix(mem@, dm, cfg, path, address, d as nat);
            assert forall|t: nat| #[trigger] self.spec_tables().contains_key(t) && t != root && table_empty(mem@, t) implies table_empty(mem0, t) by {
                if !table_empty(mem0, t) {
                    let j = choose|j: nat| j < 512 && pte_present(#[trigger] mem_entry(mem0, t, j));
                    assert(!pte_present(mem_entry(mem@, t, j)));
                    assert(mem_entry(mem@, t, j) != mem_entry(mem0, t, j));
                    let k = tables0[t];
                    assert(t == path[k as int] && k >= d);
                    if k > d {
                        assert(!self.spec_tables().contains_key(path[k as int]));
                    } else {
                        assert(d > 0);
                        assert(!child_is_empty);
                    }
                }
            }
            assert forall|vb: u64|
                vb != mapped_addr.0 && self0.root_index(vb) < self0.spec_root_limit() && self0.spec_unmap(mem0, vb) is Ok implies #[trigger] self.spec_unmap(mem@, vb)
                    == self0.spec_unmap(mem0, vb) by {
                self0.lemma_unmap_keep_mapping(*self, mem0, mem@, a0, path, d as nat, address, vb);
            }
            assert forall|vb: u64| self0.translate(mem0, vb) is None implies #[trigger] self.translate(mem@, vb) is None by {
                if spec_canonical(vb, spec_virtual_address_bits(cfg.spec_mode())) {
                    lemma_walk_zeroed(mem0, mem@, dm, cfg, 0, root, vb);
                }
            }
        }
        Ok(frame)
    }
}

impl PageTable {
    /// An owned table without entries has no owned table below it.
    pub proof fn lemma_empty_is_childless(&self, mem: Seq<u64>, frames: Seq<FrameState>, c: nat)
        requires
            self.wf(mem, frames),
            forall|j: nat| j < 512 ==> !pte_present(#[trigger] mem_entry(mem, c, j)),
        ensures
            forall|t: nat| #[trigger] self.spec_tables().contains_key(t) && t != self.spec_root() ==> self.spec_parents()[t].0 != c,
    {
        reveal(PageTable::wf);
        assert forall|t: nat| #[trigger] self.spec_tables().contains_key(t) && t != self.spec_root() implies self.spec_parents()[t].0 != c by {
            assert(self.table_ok(mem, frames, t));
            let (pt, it) = self.spec_parents()[t];
            if pt == c {
                assert(it < 512);
                assert(pte_present(mem_entry(mem, c, it)));
            }
        }
    }
}


/// `after` (in memory `m1`, with frame states `a1`) is `before` (in `m0`,
/// `a0`) with some of its tables freed: the tables that remain are as they
/// were, none of depth at most `keep` went, every frame that changed state
/// is a freed table, every freed table is free, and memory changed only in
/// table `t` and in freed tables.
#[verifier::opaque]
pub open spec fn shrunk(
    before: PageTable,
    m0: Seq<u64>,
    a0: Seq<FrameState>,
    after: PageTable,
    m1: Seq<u64>,
    a1: Seq<FrameState>,
    keep: nat,
    t: nat,
) -> bool {
    &&& m1.len() == m0.len()
    &&& a1.len() == a0.len()
    &&& forall|k: nat| #[trigger] after.spec_tables().contains_key(k) ==> before.spec_tables().contains_key(k)
        && after.spec_tables()[k] == before.spec_tables()[k] && after.spec_parents()[k] == before.spec_parents()[k]
    &&& forall|k: nat| #[trigger] before.spec_tables().contains_key(k) && before.spec_tables()[k] <= keep
        ==> after.spec_tables().contains_key(k)
    &&& forall|f: int| 0 <= f < a0.len() && #[trigger] a1[f] != a0[f] ==> a0[f] == FrameState::Allocated && a1[f]
        == FrameState::Free && before.spec_tables().contains_key(f as nat) && !after.spec_tables().contains_key(f as nat)
    &&& forall|k: nat| #[trigger] before.spec_tables().contains_key(k) && !after.spec_tables().contains_key(k) ==> k < a1.len()
        && a1[k as int] == FrameState::Free
    &&& forall|w: int| 0 <= w < m0.len() && #[trigger] m1[w] != m0[w] ==> (w / 512) as nat == t || (
        before.spec_tables().contains_key((w / 512) as nat) && !after.spec_tables().contains_key((w / 512) as nat))
}

pub proof fn lemma_shrunk_refl(p: PageTable, m: Seq<u64>, a: Seq<FrameState>, keep: nat, t: nat)
    ensures
        shrunk(p, m, a, p, m, a, keep, t),
{
    reveal(shrunk);
}

pub proof fn lemma_shrunk_trans(
    p0: PageTable, m0: Seq<u64>, a0: Seq<FrameState>,
    p1: PageTable, m1: Seq<u64>, a1: Seq<FrameState>,
    p2: PageTable, m2: Seq<u64>, a2: Seq<FrameState>,
    keep: nat,
    t: nat,
)
    requires
        shrunk(p0, m0, a0, p1, m1, a1, keep, t),
        shrunk(p1, m1, a1, p2, m2, a2, keep, t),
    ensures
        shrunk(p0, m0, a0, p2, m2, a2, keep, t),
{
    reveal(shrunk);
    assert forall|f: int| 0 <= f < a0.len() && #[trigger] a2[f] != a0[f] implies a0[f] == FrameState::Allocated && a2[f]
        == FrameState::Free && p0.spec_tables().contains_key(f as nat) && !p2.spec_tables().contains_key(f as nat) by {
        if a1[f] != a0[f] {
            if a2[f] != a1[f] {
                assert(!p1.spec_tables().contains_key(f as nat));
            }
        }
    }
    assert forall|k: nat| #[trigger] p0.spec_tables().contains_key(k) && !p2.spec_tables().contains_key(k) implies k < a2.len()
        && a2[k as int] == FrameState::Free by {
        if p1.spec_tables().contains_key(k) {
        } else {
            if a2[k as int] != a1[k as int] {
                assert(p1.spec_tables().contains_key(k));
            }
        }
    }
    assert forall|w: int| 0 <= w < m0.len() && #[trigger] m2[w] != m0[w] implies (w / 512) as nat == t || (
        p0.spec_tables().contains_key((w / 512) as nat) && !p2.spec_tables().contains_key((w / 512) as nat)) by {
        if m1[w] != m0[w] {
        } else {
            assert(m2[w] != m1[w]);
        }
    }
}

impl PageTable {
    /// The child `c` of `t`, whose own subtree is gone, is taken out: its
    /// entry in `t` cleared and its frame freed.
    pub proof fn lemma_destroy_step(
        &self,
        s2: PageTable, m2: Seq<u64>, a2: Seq<FrameState>,
        s3: PageTable, m3: Seq<u64>, a3: Seq<FrameState>,
        m1: Seq<u64>, a1: Seq<FrameState>,
        c: nat, t: nat, i: nat, depth: nat,
    )
        requires
            shrunk(*self, m1, a1, s2, m2, a2, depth + 1, c),
            self.spec_tables().contains_key(c),
            self.spec_tables()[c] == depth + 1,
            self.spec_tables().contains_key(t),
            self.spec_tables()[t] == depth,
            c < a1.len(),
            a1[c as int] == FrameState::Allocated,
            s2.spec_tables().contains_key(c),
            i < 512,
            t * 512 + i < m2.len(),
            m3 == m2.update(word_pos(t, i) as int, 0u64),
            a3 == a2.update(c as int, FrameState::Free),
            s3.spec_tables() == s2.spec_tables().remove(c),
            s3.spec_parents() == s2.spec_parents().remove(c),
            a2[c as int] == FrameState::Allocated,
        ensures
            shrunk(*self, m1, a1, s3, m3, a3, depth, t),
    {
        reveal(shrunk);
        lemma_word_pos(t, i, 0, 0);
        assert forall|f: int| 0 <= f < a1.len() && #[trigger] a3[f] != a1[f] implies a1[f] == FrameState::Allocated && a3[f]
            == FrameState::Free && self.spec_tables().contains_key(f as nat) && !s3.spec_tables().contains_key(f as nat) by {
            if f != c as int {
                assert(a3[f] == a2[f]);
            }
        }
        assert forall|k: nat| #[trigger] self.spec_tables().contains_key(k) && !s3.spec_tables().contains_key(k) implies k < a3.len()
            && a3[k as int] == FrameState::Free by {
            if k != c {
                assert(!s2.spec_tables().contains_key(k));
            }
        }
        assert forall|k: nat| #[trigger] self.spec_tables().contains_key(k) && self.spec_tables()[k] <= depth implies s3.spec_tables().contains_key(k) by {
            assert(s2.spec_tables().contains_key(k));
        }
        assert forall|w: int| 0 <= w < m1.len() && #[trigger] m3[w] != m1[w] implies (w / 512) as nat == t || (
            self.spec_tables().contains_key((w / 512) as nat) && !s3.spec_tables().contains_key((w / 512) as nat)) by {
            if w != word_pos(t, i) {
                assert(m3[w] == m2[w]);
            }
        }
    }
}

impl PageTable {
    /// Frees every table below entries `0..limit` of owned table `table` (at
    /// depth `depth`), deepest first, clearing the entries that linked to
    /// them. Entries that map pages stay as they are.
    #[verifier::rlimit(100)]
    #[verifier::spinoff_prover]
    fn destroy_entries(&mut self, mem: &mut PhysicalMemory, table: FrameAddr, depth: usize, limit: u64, allocator: &mut FrameAllocator)
        requires
            old(self).wf(old(mem)@, old(allocator)@),
            old(allocator).wf(),
            old(allocator).backed_by(old(mem)@),
            table.wf(),
            table_accessible(old(mem)@, old(self).spec_direct_map(), table.spec_index()),
            old(self).spec_tables().contains_key(table.spec_index()),
            old(self).spec_tables()[table.spec_index()] == depth,
            depth <= old(self).spec_config().spec_levels().len(),
            limit <= old(self).entry_limit(table.spec_index()),
        ensures
            final(allocator).wf(),
            final(allocator).backed_by(final(mem)@),
            final(allocator).spec_direct_map() == old(allocator).spec_direct_map(),
            final(allocator).spec_allocatable_frames() == old(allocator).spec_allocatable_frames(),
            final(self).spec_root_limit() == old(self).spec_root_limit(),
            final(self).frame == old(self).frame,
            final(self).config == old(self).config,
            final(self).direct_map == old(self).direct_map,
            final(self).wf(final(mem)@, final(allocator)@),
            shrunk(*old(self), old(mem)@, old(allocator)@, *final(self), final(mem)@, final(allocator)@, depth as nat, table.spec_index()),
            limit == old(self).entry_limit(table.spec_index()) ==> forall|k: nat| #[trigger] final(self).spec_tables().contains_key(k)
                && k != final(self).spec_root() ==> final(self).spec_parents()[k].0 != table.spec_index(),
        decreases old(self).spec_config().spec_levels().len() - depth,
    {
        let ghost t = table.spec_index();
        let ghost self0 = *self;
        let ghost mem0 = mem@;
        let ghost a0 = allocator@;
        proof {
            self.lemma_wf_basics(mem@, allocator@);
            lemma_shrunk_refl(self0, mem0, a0, depth as nat, t);
        }
        let levels = self.config.mode.intermediate_levels();
        if depth == levels.len() {
            proof {
                reveal(PageTable::wf);
                assert forall|k: nat| #[trigger] self.spec_tables().contains_key(k) && k != self.spec_root() implies self.spec_parents()[k].0 != t by {
                    assert(self.table_ok(mem@, allocator@, k));
                    let (pk, ik) = self.spec_parents()[k];
                    if pk == t {
                        assert(self.spec_tables()[k] == depth + 1);
                    }
                }
            }
            return;
        }
        let base = match self.table(mem, table) {
            Some(b) => b,
            None => return,
        };
        let mut idx: u64 = 0;
        while idx < limit
            invariant
                self.spec_root_limit() == self0.spec_root_limit(),
                self.config == self0.config,
                self.frame == self0.frame,
                self.direct_map == self0.direct_map,
                self.wf(mem@, allocator@),
                allocator.wf(),
                allocator.backed_by(mem@),
                allocator.spec_direct_map() == old(allocator).spec_direct_map(),
                allocator.spec_allocatable_frames() == old(allocator).spec_allocatable_frames(),
                self0 == *old(self),
                mem0 == old(mem)@,
                a0 == old(allocator)@,
                table.wf(),
                t == table.spec_index(),
                base == t * 512,
                base + 512 <= mem@.len(),
                depth < self.spec_config().spec_levels().len(),
                levels@ == self.spec_config().spec_levels(),
                idx <= limit,
                limit <= self.entry_limit(t),
                limit <= 512,
                self.spec_config().wf(),
                self.spec_tables().contains_key(t),
                self.spec_tables()[t] == depth,
                table_accessible(mem@, self.spec_direct_map(), t),
                forall|k: nat| #[trigger] self.spec_tables().contains_key(k) && k != self.spec_root() && self.spec_parents()[k].0 == t
                    ==> self.spec_parents()[k].1 >= idx,
                shrunk(self0, mem0, a0, *self, mem@, allocator@, depth as nat, t),
            decreases limit - idx,
        {
            let entry = PageTableEntry(mem.read_word(base + idx));
            proof {
                lemma_mask_facts(entry.0, self.spec_config().spec_bits());
            }
            if entry.is_present() && !entry.is_huge() {
                let child = match entry.table_frame(self.config) {
                    Some(f) => f,
                    None => return,
                };
                let ghost c = child.spec_index();
                let ghost s1 = *self;
                let ghost m1 = mem@;
                let ghost a1 = allocator@;
                proof {
                    assert(mem_entry(mem@, t, idx as nat) == entry.0);
                    self.lemma_owned_child(mem@, allocator@, t, idx as nat);
                    self.lemma_wf_basics(mem@, allocator@);
                    reveal(PageTable::wf);
                    assert(self.table_ok(mem@, allocator@, c));
                }
                self.destroy_entries(mem, child, depth + 1, 512, allocator);
                let ghost s2 = *self;
                let ghost m2 = mem@;
                let ghost a2 = allocator@;
                proof {
                    reveal(shrunk);
                    assert(s1.spec_tables()[t] == depth);
                    assert(self.spec_tables().contains_key(t));
                    assert(self.spec_tables().contains_key(c));
                    assert(self.spec_parents()[c] == (t, idx as nat));
                    lemma_word_pos(t, idx as nat, t, idx as nat);
                    self.lemma_wf_basics(mem@, allocator@);
                    reveal(PageTable::wf);
                    assert(self.table_ok(mem@, allocator@, c));
                }
                mem.write_word(base + idx, 0);
                self.tables = Ghost(self.tables@.remove(c));
                self.parents = Ghost(self.parents@.remove(c));
                allocator.dealloc(OwnedFrame::from_raw(child));
                proof {
                    assert(base + idx == word_pos(t, idx as nat));
                    s2.lemma_remove_childless(*self, m2, mem@, a2, allocator@, c, t, idx as nat);
                    s1.lemma_destroy_step(s2, m2, a2, *self, mem@, allocator@, m1, a1, c, t, idx as nat, depth as nat);
                    lemma_shrunk_trans(self0, mem0, a0, s1, m1, a1, *self, mem@, allocator@, depth as nat, t);
                    assert forall|k: nat| #[trigger] self.spec_tables().contains_key(k) && k != self.spec_root() && self.spec_parents()[k].0
                        == t implies self.spec_parents()[k].1 >= idx + 1 by {
                        reveal(shrunk);
                        assert(s1.spec_tables().contains_key(k));
                        if self.spec_parents()[k].1 == idx {
                            s1.lemma_wf_basics(m1, a1);
                            reveal(PageTable::wf);
                            assert(s1.table_ok(m1, a1, k));
                            assert(s1.spec_parents()[k] == (t, idx as nat));
                        }
                    }
                }
            } else {
                proof {
                    assert forall|k: nat| #[trigger] self.spec_tables().contains_key(k) && k != self.spec_root() && self.spec_parents()[k].0
                        == t implies self.spec_parents()[k].1 >= idx + 1 by {
                        if self.spec_parents()[k].1 == idx {
                            reveal(PageTable::wf);
                            assert(self.table_ok(mem@, allocator@, k));
                            assert(mem_entry(mem@, t, idx as nat) == entry.0);
                        }
                    }
                }
            }
            idx = idx + 1;
        }
        proof {
            reveal(PageTable::wf);
            assert forall|k: nat| #[trigger] self.spec_tables().contains_key(k) && k != self.spec_root() implies (limit == self0.entry_limit(t)
                ==> self.spec_parents()[k].0 != t) by {
                assert(self.table_ok(mem@, allocator@, k));
            }
        }
    }
}

impl PageTable {
    /// With no owned table below the root, the root is the only table.
    pub proof fn lemma_only_root(&self, mem: Seq<u64>, frames: Seq<FrameState>, k: nat)
        requires
            self.wf(mem, frames),
            forall|j: nat| #[trigger] self.spec_tables().contains_key(j) && j != self.spec_root() ==> self.spec_parents()[j].0 != self.spec_root(),
            self.spec_tables().contains_key(k),
        ensures
            k == self.spec_root(),
        decreases self.spec_tables()[k],
    {
        reveal(PageTable::wf);
        if k != self.spec_root() {
            assert(self.table_ok(mem, frames, k));
            let p = self.spec_parents()[k].0;
            if self.spec_tables()[p] == 0 {
                self.lemma_depth_zero_is_root(mem, frames, p);
            } else {
                self.lemma_only_root(mem, frames, p);
            }
        }
    }

    /// Frees the tables below entry `0..limit` of the root and then the
    /// root: every table the hierarchy owned.
    fn destroy_below(self, mem: &mut PhysicalMemory, allocator: &mut FrameAllocator, limit: u64)
        requires
            self.wf(old(mem)@, old(allocator)@),
            old(allocator).wf(),
            old(allocator).backed_by(old(mem)@),
            table_accessible(old(mem)@, self.spec_direct_map(), self.spec_root()),
            limit == self.spec_root_limit(),
        ensures
            final(allocator).wf(),
            final(allocator).backed_by(final(mem)@),
            final(allocator).spec_direct_map() == old(allocator).spec_direct_map(),
            final(allocator).spec_allocatable_frames() == old(allocator).spec_allocatable_frames(),
            final(allocator)@.len() == old(allocator)@.len(),
            final(mem)@.len() == old(mem)@.len(),
            forall|k: nat| #[trigger] self.spec_tables().contains_key(k) ==> k < final(allocator)@.len() && final(allocator)@[k as int]
                == FrameState::Free,
            forall|f: int| 0 <= f < old(allocator)@.len() && #[trigger] final(allocator)@[f] != old(allocator)@[f]
                ==> old(allocator)@[f] == FrameState::Allocated && final(allocator)@[f] == FrameState::Free
                && self.spec_tables().contains_key(f as nat),
            forall|w: int| 0 <= w < old(mem)@.len() && #[trigger] final(mem)@[w] != old(mem)@[w] ==> self.spec_tables().contains_key(
                (w / 512) as nat),
    {
        let ghost self0 = self;
        let ghost mem0 = mem@;
        let ghost a0 = allocator@;
        let mut pt = self;
        let root = pt.frame.frame_address();
        proof {
            pt.lemma_wf_basics(mem@, allocator@);
        }
        pt.destroy_entries(mem, root, 0, limit, allocator);
        proof {
            reveal(shrunk);
            pt.lemma_wf_basics(mem@, allocator@);
            assert forall|k: nat| #[trigger] pt.spec_tables().contains_key(k) implies k == pt.spec_root() by {
                pt.lemma_only_root(mem@, allocator@, k);
            }
            reveal(PageTable::wf);
            assert(pt.table_ok(mem@, allocator@, pt.spec_root()));
        }
        let PageTable { frame, .. } = pt;
        let ghost r = frame.spec_frame().spec_index();
        allocator.dealloc(frame);
        proof {
            reveal(shrunk);
            assert forall|k: nat| #[trigger] self0.spec_tables().contains_key(k) implies k < allocator@.len() && allocator@[k as int]
                == FrameState::Free by {
                if k != r {
                    assert(!pt.spec_tables().contains_key(k));
                }
            }
            assert forall|f: int| 0 <= f < a0.len() && #[trigger] allocator@[f] != a0[f] implies a0[f] == FrameState::Allocated
                && allocator@[f] == FrameState::Free && self0.spec_tables().contains_key(f as nat) by {
                if f == r as int {
                    assert(self0.spec_tables().contains_key(r));
                    self0.lemma_wf_basics(mem0, a0);
                }
            }
            assert forall|w: int| 0 <= w < mem0.len() && #[trigger] mem@[w] != mem0[w] implies self0.spec_tables().contains_key((w / 512) as nat) by {
                if (w / 512) as nat == r {
                    self0.lemma_wf_basics(mem0, a0);
                }
            }
        }
    }

    /// Frees every table of the hierarchy, which shares nothing.
    pub fn destroy(self, mem: &mut PhysicalMemory, allocator: &mut FrameAllocator)
        requires
            self.wf(old(mem)@, old(allocator)@),
            old(allocator).wf(),
            old(allocator).backed_by(old(mem)@),
            table_accessible(old(mem)@, self.spec_direct_map(), self.spec_root()),
            self.spec_root_limit() == 512,
        ensures
            final(allocator).wf(),
            final(allocator).backed_by(final(mem)@),
            final(allocator).spec_direct_map() == old(allocator).spec_direct_map(),
            final(allocator).spec_allocatable_frames() == old(allocator).spec_allocatable_frames(),
            final(allocator)@.len() == old(allocator)@.len(),
            final(mem)@.len() == old(mem)@.len(),
            forall|k: nat| #[trigger] self.spec_tables().contains_key(k) ==> k < final(allocator)@.len() && final(allocator)@[k as int]
                == FrameState::Free,
            forall|f: int| 0 <= f < old(allocator)@.len() && #[trigger] final(allocator)@[f] != old(allocator)@[f]
                ==> old(allocator)@[f] == FrameState::Allocated && final(allocator)@[f] == FrameState::Free
                && self.spec_tables().contains_key(f as nat),
            forall|w: int| 0 <= w < old(mem)@.len() && #[trigger] final(mem)@[w] != old(mem)@[w] ==> self.spec_tables().contains_key(
                (w / 512) as nat),
    {
        self.destroy_below(mem, allocator, 512);
    }

    /// Frees every table that a user hierarchy owns: those below the user
    /// half of the root, and the root. The kernel half is shared and stays.
    pub fn destroy_user(self, mem: &mut PhysicalMemory, allocator: &mut FrameAllocator)
        requires
            self.wf(old(mem)@, old(allocator)@),
            old(allocator).wf(),
            old(allocator).backed_by(old(mem)@),
            table_accessible(old(mem)@, self.spec_direct_map(), self.spec_root()),
            self.spec_root_limit() == 256,
        ensures
            final(allocator).wf(),
            final(allocator).backed_by(final(mem)@),
            final(allocator).spec_direct_map() == old(allocator).spec_direct_map(),
            final(allocator).spec_allocatable_frames() == old(allocator).spec_allocatable_frames(),
            final(allocator)@.len() == old(allocator)@.len(),
            final(mem)@.len() == old(mem)@.len(),
            forall|k: nat| #[trigger] self.spec_tables().contains_key(k) ==> k < final(allocator)@.len() && final(allocator)@[k as int]
                == FrameState::Free,
            forall|f: int| 0 <= f < old(allocator)@.len() && #[trigger] final(allocator)@[f] != old(allocator)@[f]
                ==> old(allocator)@[f] == FrameState::Allocated && final(allocator)@[f] == FrameState::Free
                && self.spec_tables().contains_key(f as nat),
            forall|w: int| 0 <= w < old(mem)@.len() && #[trigger] final(mem)@[w] != old(mem)@[w] ==> self.spec_tables().contains_key(
                (w / 512) as nat),
    {
        self.destroy_below(mem, allocator, 256);
    }
}

impl PageTable {
    /// Writes outside the owned tables leave the hierarchy as it was.
    pub proof fn lemma_wf_foreign_writes(&self, mem0: Seq<u64>, mem1: Seq<u64>, frames: Seq<FrameState>)
        requires
            self.wf(mem0, frames),
            mem1.len() == mem0.len(),
            forall|w: int| 0 <= w < mem0.len() && #[trigger] mem1[w] != mem0[w] ==> !self.spec_tables().contains_key((w / 512) as nat),
        ensures
            self.wf(mem1, frames),
            forall|t: nat, j: nat| self.spec_tables().contains_key(t) && j < 512 ==> #[trigger] mem_entry(mem1, t, j) == mem_entry(mem0, t, j),
    {
        reveal(PageTable::wf);
        let n = self.spec_config().spec_levels().len();
        assert forall|t: nat, j: nat| self.spec_tables().contains_key(t) && j < 512 implies #[trigger] mem_entry(mem1, t, j)
            == mem_entry(mem0, t, j) by {
            assert(self.table_ok(mem0, frames, t));
            let w = word_pos(t, j) as int;
            lemma_word_pos(t, j, t, j);
            assert(w < mem0.len()) by (nonlinear_arith)
                requires
                    t < mem0.len() / 512,
                    j < 512,
                    w == t * 512 + j,
            ;
        }
        assert forall|t: nat| #[trigger] self.spec_tables().contains_key(t) implies self.table_ok(mem1, frames, t) by {
            assert(self.table_ok(mem0, frames, t));
            if t != self.spec_root() {
                let (p, i) = self.spec_parents()[t];
                assert(self.table_ok(mem0, frames, p));
                assert(mem_entry(mem1, p, i) == mem_entry(mem0, p, i));
            }
        }
        assert forall|p: nat, i: nat| #[trigger] self.link_ok(mem1, p, i) by {
            assert(self.link_ok(mem0, p, i));
            if self.spec_tables().contains_key(p) && self.spec_tables()[p] < n && i < self.entry_limit(p) {
                assert(self.table_ok(mem0, frames, p));
                assert(mem_entry(mem1, p, i) == mem_entry(mem0, p, i));
            }
        }
    }

    /// A walk from an owned table of a hierarchy that shares nothing reads
    /// only owned tables, so memory that agrees on them gives the same walk.
    pub proof fn lemma_walk_owned_frame(&self, mem0: Seq<u64>, mem1: Seq<u64>, frames: Seq<FrameState>, d: nat, t: nat, va: u64)
        requires
            self.wf(mem0, frames),
            self.spec_root_limit() == 512,
            self.spec_tables().contains_key(t),
            self.spec_tables()[t] == d,
            mem1.len() == mem0.len(),
            forall|k: nat, j: nat| self.spec_tables().contains_key(k) && j < 512 ==> #[trigger] mem_entry(mem1, k, j) == mem_entry(mem0, k, j),
        ensures
            spec_walk(mem1, self.spec_direct_map(), self.spec_config(), d, t, va) == spec_walk(mem0, self.spec_direct_map(), self.spec_config(), d, t, va),
        decreases self.spec_config().spec_levels().len() - d,
    {
        reveal(PageTable::wf);
        let cfg = self.spec_config();
        let n = cfg.spec_levels().len();
        assert(self.table_ok(mem0, frames, t));
        if d < n {
            let level = cfg.spec_levels()[d as int];
            let idx = level_index(level, va) as nat;
            lemma_index_bound(va, level_shift(level));
            assert(mem_entry(mem1, t, idx) == mem_entry(mem0, t, idx));
            let e = mem_entry(mem0, t, idx);
            if pte_present(e) && !pte_huge(e) {
                assert(self.link_ok(mem0, t, idx));
                let c = pte_frame(e, cfg.spec_bits());
                assert(self.table_ok(mem0, frames, c));
                self.lemma_walk_owned_frame(mem0, mem1, frames, d + 1, c, va);
            }
        } else {
            lemma_index_bound(va, 12);
            assert(mem_entry(mem1, t, spec_p1_index(va) as nat) == mem_entry(mem0, t, spec_p1_index(va) as nat));
        }
    }

    /// A walk into the part of the hierarchy it owns reads only owned
    /// tables, so memory that agrees on them gives the same walk.
    pub proof fn lemma_walk_owned_part(&self, mem0: Seq<u64>, mem1: Seq<u64>, frames: Seq<FrameState>, d: nat, t: nat, va: u64)
        requires
            self.wf(mem0, frames),
            self.spec_tables().contains_key(t),
            self.spec_tables()[t] == d,
            t == self.spec_root() ==> self.root_index(va) < self.spec_root_limit(),
            mem1.len() == mem0.len(),
            forall|k: nat, j: nat| self.spec_tables().contains_key(k) && j < 512 ==> #[trigger] mem_entry(mem1, k, j) == mem_entry(mem0, k, j),
        ensures
            spec_walk(mem1, self.spec_direct_map(), self.spec_config(), d, t, va) == spec_walk(mem0, self.spec_direct_map(), self.spec_config(), d, t, va),
        decreases self.spec_config().spec_levels().len() - d,
    {
        reveal(PageTable::wf);
        let cfg = self.spec_config();
        let n = cfg.spec_levels().len();
        let tables = self.spec_tables();
        assert(self.table_ok(mem0, frames, t));
        if d < n {
            let level = cfg.spec_levels()[d as int];
            let idx = level_index(level, va) as nat;
            lemma_index_bound(va, level_shift(level));
            assert(mem_entry(mem1, t, idx) == mem_entry(mem0, t, idx));
            let e = mem_entry(mem0, t, idx);
            if t == self.spec_root() {
                assert(d == 0) by {
                    if d != 0 {
                        assert(tables[t] == 0);
                    }
                }
            }
            if pte_present(e) && !pte_huge(e) {
                assert(idx < self.entry_limit(t));
                assert(self.link_ok(mem0, t, idx));
                let c = pte_frame(e, cfg.spec_bits());
                assert(tables.contains_key(c) && tables[c] == d + 1);
                self.lemma_walk_owned_part(mem0, mem1, frames, d + 1, c, va);
            }
        } else {
            lemma_index_bound(va, 12);
            assert(mem_entry(mem1, t, spec_p1_index(va) as nat) == mem_entry(mem0, t, spec_p1_index(va) as nat));
        }
    }

    /// `map`'s walk into the owned part reads only owned tables, and where
    /// it completes it ends at one: memory that agrees on them gives the same
    /// walk.
    pub proof fn lemma_map_walk_owned_part(&self, mem0: Seq<u64>, mem1: Seq<u64>, frames: Seq<FrameState>, d: nat, t: nat, va: u64)
        requires
            self.wf(mem0, frames),
            self.spec_tables().contains_key(t),
            self.spec_tables()[t] == d,
            t == self.spec_root() ==> self.root_index(va) < self.spec_root_limit(),
            mem1.len() == mem0.len(),
            forall|k: nat, j: nat| self.spec_tables().contains_key(k) && j < 512 ==> #[trigger] mem_entry(mem1, k, j) == mem_entry(mem0, k, j),
        ensures
            spec_map_walk(mem1, self.spec_direct_map(), self.spec_config(), d, t, va) == spec_map_walk(mem0, self.spec_direct_map(), self.spec_config(), d, t, va),
            spec_map_walk(mem0, self.spec_direct_map(), self.spec_config(), d, t, va) matches MapWalk::Complete(tn) ==> self.spec_tables().contains_key(tn),
        decreases self.spec_config().spec_levels().len() - d,
    {
        reveal(PageTable::wf);
        let cfg = self.spec_config();
        let n = cfg.spec_levels().len();
        let tables = self.spec_tables();
        assert(self.table_ok(mem0, frames, t));
        if d < n {
            let level = cfg.spec_levels()[d as int];
            let idx = level_index(level, va) as nat;
            lemma_index_bound(va, level_shift(level));
            assert(mem_entry(mem1, t, idx) == mem_entry(mem0, t, idx));
            let e = mem_entry(mem0, t, idx);
            if t == self.spec_root() {
                assert(d == 0) by {
                    if d != 0 {
                        assert(tables[t] == 0);
                    }
                }
            }
            if pte_present(e) && !pte_huge(e) {
                assert(idx < self.entry_limit(t));
                assert(self.link_ok(mem0, t, idx));
                let c = pte_frame(e, cfg.spec_bits());
                assert(tables.contains_key(c) && tables[c] == d + 1);
                self.lemma_map_walk_owned_part(mem0, mem1, frames, d + 1, c, va);
            }
        }
    }

    /// Whether an owned page is open to mapping depends only on the owned
    /// tables.
    pub proof fn lemma_page_open_owned_part(&self, mem0: Seq<u64>, mem1: Seq<u64>, frames: Seq<FrameState>, va: u64)
        requires
            self.wf(mem0, frames),
            self.root_index(va) < self.spec_root_limit(),
            mem1.len() == mem0.len(),
            forall|k: nat, j: nat| self.spec_tables().contains_key(k) && j < 512 ==> #[trigger] mem_entry(mem1, k, j) == mem_entry(mem0, k, j),
        ensures
            self.spec_page_open(mem1, va) == self.spec_page_open(mem0, va),
    {
        self.lemma_wf_basics(mem0, frames);
        self.lemma_map_walk_owned_part(mem0, mem1, frames, 0, self.spec_root(), va);
        lemma_index_bound(va, 12);
    }

    /// Copies the kernel half (entries 256 to 511) of this hierarchy's root
    /// into the fresh root of `destination`, which then shares those tables
    /// and owns only what hangs below its user half.
    pub fn copy_kernel_mappings_to(&self, mem: &mut PhysicalMemory, destination: &mut PageTable, Ghost(frames): Ghost<Seq<FrameState>>)
        requires
            self.wf(old(mem)@, frames),
            table_accessible(old(mem)@, self.spec_direct_map(), self.spec_root()),
            old(destination).wf(old(mem)@, frames),
            old(destination).spec_tables() == map![old(destination).spec_root() => 0nat],
            old(destination).spec_root_limit() == 512,
            table_accessible(old(mem)@, old(destination).spec_direct_map(), old(destination).spec_root()),
            !self.spec_tables().contains_key(old(destination).spec_root()),
            old(destination).spec_config() == self.spec_config(),
            old(destination).spec_direct_map() == self.spec_direct_map(),
            forall|i: nat| i < 256 ==> !pte_present(#[trigger] mem_entry(old(mem)@, old(destination).spec_root(), i)),
        ensures
            final(destination).spec_config() == old(destination).spec_config(),
            final(destination).spec_root() == old(destination).spec_root(),
            final(destination).spec_direct_map() == old(destination).spec_direct_map(),
            final(destination).spec_tables() == old(destination).spec_tables(),
            final(destination).spec_root_limit() == 256,
            final(destination).wf(final(mem)@, frames),
            self.wf(final(mem)@, frames),
            final(mem)@.len() == old(mem)@.len(),
            forall|w: int| 0 <= w < old(mem)@.len() && #[trigger] final(mem)@[w] != old(mem)@[w] ==> (w / 512) as nat == old(
                destination,
            ).spec_root(),
            self.spec_root_limit() == 512 ==> forall|va: u64| #[trigger] self.translate(final(mem)@, va) == self.translate(old(mem)@, va),
            self.spec_root_limit() == 512 ==> forall|va: u64| self.root_index(va) >= 256 ==> #[trigger] final(destination).translate(
                final(mem)@,
                va,
            ) == self.translate(old(mem)@, va),
            forall|va: u64| self.root_index(va) < 256 ==> #[trigger] final(destination).translate(final(mem)@, va) is None,
            forall|j: nat| j < 512 ==> #[trigger] mem_entry(final(mem)@, old(destination).spec_root(), j) == if 256 <= j {
                mem_entry(old(mem)@, self.spec_root(), j)
            } else {
                mem_entry(old(mem)@, old(destination).spec_root(), j)
            },
    {
        let ghost mem0 = mem@;
        let ghost sroot = self.spec_root();
        let ghost droot = destination.spec_root();
        proof {
            self.lemma_wf_basics(mem@, frames);
            destination.lemma_wf_basics(mem@, frames);
        }
        let src = match self.table(mem, self.frame.frame_address()) {
            Some(b) => b,
            None => return,
        };
        let dest = match destination.table(mem, destination.frame.frame_address()) {
            Some(b) => b,
            None => return,
        };
        let mut i: u64 = 256;
        while i < 512
            invariant
                256 <= i <= 512,
                src == sroot * 512,
                dest == droot * 512,
                src + 512 <= mem0.len(),
                dest + 512 <= mem0.len(),
                sroot != droot,
                mem@.len() == mem0.len(),
                forall|j: nat| j < 512 ==> #[trigger] mem_entry(mem@, droot, j) == if 256 <= j < i {
                    mem_entry(mem0, sroot, j)
                } else {
                    mem_entry(mem0, droot, j)
                },
                forall|w: int| 0 <= w < mem0.len() && #[trigger] mem@[w] != mem0[w] ==> (w / 512) as nat == droot,
                forall|j: nat| j < 512 ==> #[trigger] mem_entry(mem@, sroot, j) == mem_entry(mem0, sroot, j),
            decreases 512 - i,
        {
            let ghost before = mem@;
            let v = mem.read_word(src + i);
            assert(v == mem_entry(mem0, sroot, i as nat));
            mem.write_word(dest + i, v);
            proof {
                lemma_word_pos(droot, i as nat, 0, 0);
                assert forall|j: nat| j < 512 implies #[trigger] mem_entry(mem@, droot, j) == if 256 <= j < i + 1 {
                    mem_entry(mem0, sroot, j)
                } else {
                    mem_entry(mem0, droot, j)
                } by {
                    lemma_word_pos(droot, j, droot, i as nat);
                    assert(word_pos(droot, j) < mem0.len());
                    if j == i as nat {
                        assert(mem_entry(mem@, droot, j) == v);
                    } else {
                        assert(mem_entry(mem@, droot, j) == mem_entry(before, droot, j));
                    }
                }
                assert forall|j: nat| j < 512 implies #[trigger] mem_entry(mem@, sroot, j) == mem_entry(mem0, sroot, j) by {
                    lemma_word_pos(sroot, j, droot, i as nat);
                }
                assert forall|w: int| 0 <= w < mem0.len() && #[trigger] mem@[w] != mem0[w] implies (w / 512) as nat == droot by {
                    if w != dest + i {
                        assert(mem@[w] == before[w]);
                    }
                }
            }
            i = i + 1;
        }
        proof {
            assert forall|w: int| 0 <= w < mem0.len() && #[trigger] mem@[w] != mem0[w] implies !self.spec_tables().contains_key((w / 512) as nat) by {
            }
            self.lemma_wf_foreign_writes(mem0, mem@, frames);
        }
        destination.root_limit = Ghost(256nat);
        proof {
            let bits = self.spec_config().spec_bits();
            reveal(PageTable::wf);
            lemma_zero_entry_absent();
            assert forall|p: nat, j: nat| #[trigger] destination.link_ok(mem@, p, j) by {
                if destination.spec_tables().contains_key(p) && destination.spec_tables()[p] < self.spec_config().spec_levels().len()
                    && j < destination.entry_limit(p) {
                    assert(p == droot);
                    assert(mem_entry(mem@, droot, j) == mem_entry(mem0, droot, j));
                }
            }
            assert(destination.table_ok(mem@, frames, droot));
            assert(destination.wf(mem@, frames));
            let cfg = self.spec_config();
            let dm = self.spec_direct_map();
            if self.spec_root_limit() == 512 {
            assert forall|va: u64| #[trigger] self.translate(mem@, va) == self.translate(mem0, va) by {
                self.lemma_walk_owned_frame(mem0, mem@, frames, 0, sroot, va);
            }
            assert forall|va: u64| self.root_index(va) >= 256 implies #[trigger] destination.translate(mem@, va) == self.translate(mem0, va) by {
                let level = cfg.spec_levels()[0];
                let idx = level_index(level, va) as nat;
                lemma_index_bound(va, level_shift(level));
                assert(mem_entry(mem@, droot, idx) == mem_entry(mem0, sroot, idx));
                let e = mem_entry(mem0, sroot, idx);
                if pte_present(e) && !pte_huge(e) {
                    assert(self.link_ok(mem0, sroot, idx));
                    let c = pte_frame(e, bits);
                    assert(self.table_ok(mem0, frames, c));
                    self.lemma_walk_owned_frame(mem0, mem@, frames, 1, c, va);
                }
            }
            }
            assert forall|va: u64| self.root_index(va) < 256 implies #[trigger] destination.translate(mem@, va) is None by {
                let level = cfg.spec_levels()[0];
                let idx = level_index(level, va) as nat;
                lemma_index_bound(va, level_shift(level));
                assert(mem_entry(mem@, droot, idx) == mem_entry(mem0, droot, idx));
            }
        }
    }
}

impl PageTable {
    /// The hierarchy does not depend on the state of frames it does not own.
    pub proof fn lemma_wf_frames_change(&self, mem: Seq<u64>, a0: Seq<FrameState>, a1: Seq<FrameState>)
        requires
            self.wf(mem, a0),
            a1.len() == a0.len(),
            forall|t: nat| #[trigger] self.spec_tables().contains_key(t) ==> a1[t as int] == a0[t as int],
        ensures
            self.wf(mem, a1),
    {
        reveal(PageTable::wf);
        assert forall|t: nat| #[trigger] self.spec_tables().contains_key(t) implies self.table_ok(mem, a1, t) by {
            assert(self.table_ok(mem, a0, t));
        }
    }

    /// A frame the hierarchy owns is allocated.
    pub proof fn lemma_owned_allocated(&self, mem: Seq<u64>, frames: Seq<FrameState>, t: nat)
        requires
            self.wf(mem, frames),
            self.spec_tables().contains_key(t),
        ensures
            t < frames.len(),
            frames[t as int] == FrameState::Allocated,
            t < mem_frames(mem),
    {
        reveal(PageTable::wf);
        assert(self.table_ok(mem, frames, t));
    }
}

/// A user address (below bit 47) has a root index below 256 in either
/// paging mode.
pub proof fn lemma_user_half(cfg: PagingConfig, va: u64)
    requires
        cfg.wf(),
        va < 0x0000_8000_0000_0000,
    ensures
        level_index(cfg.spec_levels()[0], va) < 256,
{
    let level = cfg.spec_levels()[0];
    assert((va >> 39u64) & 0x1ffu64 < 256 && (va >> 48u64) & 0x1ffu64 < 256) by (bit_vector)
        requires
            va < 0x0000_8000_0000_0000u64,
    ;
}

/// The index of `va` in the table at depth `e` of its walk: a level's
/// index above the last level, the page's index in the last-level table.
pub open spec fn va_index(cfg: PagingConfig, e: nat, va: u64) -> nat {
    if e < cfg.spec_levels().len() {
        path_index(cfg, e, va)
    } else {
        spec_p1_index(va) as nat
    }
}

/// Two canonical page addresses with the same index at every level are
/// the same page.
pub proof fn lemma_same_indices_same_page(cfg: PagingConfig, va: u64, vb: u64)
    requires
        cfg.wf(),
        spec_canonical(va, spec_virtual_address_bits(cfg.spec_mode())),
        spec_canonical(vb, spec_virtual_address_bits(cfg.spec_mode())),
        va % 4096 == 0,
        vb % 4096 == 0,
        forall|e: nat| e <= cfg.spec_levels().len() ==> #[trigger] va_index(cfg, e, va) == va_index(cfg, e, vb),
    ensures
        va == vb,
{
    let n = cfg.spec_levels().len();
    assert(va_index(cfg, 0, va) == va_index(cfg, 0, vb));
    assert(va_index(cfg, 1, va) == va_index(cfg, 1, vb));
    assert(va_index(cfg, 2, va) == va_index(cfg, 2, vb));
    assert(va_index(cfg, 3, va) == va_index(cfg, 3, vb));
    match cfg.spec_mode() {
        PagingMode::FourLevel => {
            assert(va == vb) by (bit_vector)
                requires
                    (va >> 39u64) & 0x1ffu64 == (vb >> 39u64) & 0x1ffu64,
                    (va >> 30u64) & 0x1ffu64 == (vb >> 30u64) & 0x1ffu64,
                    (va >> 21u64) & 0x1ffu64 == (vb >> 21u64) & 0x1ffu64,
                    (va >> 12u64) & 0x1ffu64 == (vb >> 12u64) & 0x1ffu64,
                    va % 4096 == 0,
                    vb % 4096 == 0,
                    va < 0x0000_8000_0000_0000u64 || va >= 0xffff_8000_0000_0000u64,
                    vb < 0x0000_8000_0000_0000u64 || vb >= 0xffff_8000_0000_0000u64,
            ;
        },
        PagingMode::FiveLevel => {
            assert(va_index(cfg, 4, va) == va_index(cfg, 4, vb));
            assert(va == vb) by (bit_vector)
                requires
                    (va >> 48u64) & 0x1ffu64 == (vb >> 48u64) & 0x1ffu64,
                    (va >> 39u64) & 0x1ffu64 == (vb >> 39u64) & 0x1ffu64,
                    (va >> 30u64) & 0x1ffu64 == (vb >> 30u64) & 0x1ffu64,
                    (va >> 21u64) & 0x1ffu64 == (vb >> 21u64) & 0x1ffu64,
                    (va >> 12u64) & 0x1ffu64 == (vb >> 12u64) & 0x1ffu64,
                    va % 4096 == 0,
                    vb % 4096 == 0,
                    va < 0x0100_0000_0000_0000u64 || va >= 0xff00_0000_0000_0000u64,
                    vb < 0x0100_0000_0000_0000u64 || vb >= 0xff00_0000_0000_0000u64,
            ;
        },
    }
}

impl PageTable {
    /// The entries of owned tables that differ between `mem0` and `mem1`
    /// are entries of `va`'s path `path` (which reaches depth `m`); above
    /// depth `m` they differ only in the user bit.
    pub open spec fn changes_on_path(&self, mem0: Seq<u64>, mem1: Seq<u64>, path: Seq<nat>, m: nat, va: u64) -> bool {
        forall|k: nat, i: nat|
            self.spec_tables().contains_key(k) && i < 512 && #[trigger] mem_entry(mem1, k, i) != mem_entry(mem0, k, i) ==> {
                &&& self.spec_tables()[k] <= m
                &&& k == path[self.spec_tables()[k] as int]
                &&& i == va_index(self.spec_config(), self.spec_tables()[k], va)
                &&& self.spec_tables()[k] < m ==> mem_entry(mem1, k, i) == mem_entry(mem0, k, i) | 4u64
            }
    }

    /// `path` is `va`'s walk down to depth `m` through owned tables, and if
    /// it stops above the last level, the entry it stops at is absent.
    pub open spec fn owned_path(&self, mem0: Seq<u64>, path: Seq<nat>, m: nat, va: u64) -> bool {
        &&& m <= self.spec_config().spec_levels().len()
        &&& path.len() == m + 1
        &&& path[0] == self.spec_root()
        &&& forall|e: int| 0 <= e <= m ==> #[trigger] self.spec_tables().contains_key(path[e]) && self.spec_tables()[path[e]] == e
        &&& path_links(mem0, self.spec_config(), path, va, m)
        &&& m < self.spec_config().spec_levels().len() ==> !pte_present(mem_entry(mem0, path[m as int], path_index(self.spec_config(), m, va)))
    }

    /// A page `vb` other than `va` that the walk reaches keeps its leaf when
    /// only entries of `va`'s path change: followed from table `t` at depth
    /// `d`, on `va`'s path or off it.
    pub proof fn lemma_keep_walk(
        &self,
        mem0: Seq<u64>,
        mem1: Seq<u64>,
        a0: Seq<FrameState>,
        path: Seq<nat>,
        m: nat,
        va: u64,
        vb: u64,
        d: nat,
        t: nat,
        on_path: bool,
        tn: nat,
    )
        requires
            self.wf(mem0, a0),
            mem1.len() == mem0.len(),
            self.owned_path(mem0, path, m, va),
            self.changes_on_path(mem0, mem1, path, m, va),
            vb != va,
            va % 4096 == 0,
            vb % 4096 == 0,
            spec_canonical(va, spec_virtual_address_bits(self.spec_config().spec_mode())),
            spec_canonical(vb, spec_virtual_address_bits(self.spec_config().spec_mode())),
            self.root_index(vb) < self.spec_root_limit(),
            self.root_index(va) < self.spec_root_limit(),
            self.spec_tables().contains_key(t),
            self.spec_tables()[t] == d,
            on_path ==> d <= m && t == path[d as int] && forall|e: nat| e < d ==> #[trigger] va_index(self.spec_config(), e, vb) == va_index(self.spec_config(), e, va),
            !on_path ==> d > m || t != path[d as int],
            spec_unmap_walk(mem0, self.spec_direct_map(), self.spec_config(), d, t, vb) == Ok::<nat, UnmapError>(tn),
            pte_present(mem_entry(mem0, tn, spec_p1_index(vb) as nat)),
        ensures
            spec_unmap_walk(mem1, self.spec_direct_map(), self.spec_config(), d, t, vb) == Ok::<nat, UnmapError>(tn),
            mem_entry(mem1, tn, spec_p1_index(vb) as nat) == mem_entry(mem0, tn, spec_p1_index(vb) as nat),
        decreases self.spec_config().spec_levels().len() - d,
    {
        reveal(PageTable::wf);
        let cfg = self.spec_config();
        let bits = cfg.spec_bits();
        let dm = self.spec_direct_map();
        let n = cfg.spec_levels().len();
        let tables = self.spec_tables();
        assert(self.table_ok(mem0, a0, t));
        if d >= n {
            lemma_index_bound(vb, 12);
            let i = spec_p1_index(vb) as nat;
            if mem_entry(mem1, t, i) != mem_entry(mem0, t, i) {
                assert(tables[t] <= m && t == path[tables[t] as int] && i == va_index(cfg, tables[t], va));
                if on_path {
                    assert forall|e: nat| e <= n implies #[trigger] va_index(cfg, e, va) == va_index(cfg, e, vb) by {
                        if e < d {
                            assert(va_index(cfg, e, vb) == va_index(cfg, e, va));
                        }
                    }
                    lemma_same_indices_same_page(cfg, va, vb);
                }
            }
        } else {
            let level = cfg.spec_levels()[d as int];
            let idx = level_index(level, vb) as nat;
            lemma_index_bound(vb, level_shift(level));
            let e0 = mem_entry(mem0, t, idx);
            let e1 = mem_entry(mem1, t, idx);
            assert(pte_present(e0) && !pte_huge(e0));
            let c = pte_frame(e0, bits);
            if t == self.spec_root() {
                assert(d == 0) by {
                    if d != 0 {
                        assert(tables[t] == 0);
                    }
                }
            }
            assert(idx < self.entry_limit(t));
            assert(self.link_ok(mem0, t, idx));
            assert(tables.contains_key(c) && tables[c] == d + 1 && self.spec_parents()[c] == (t, idx));
            if e1 != e0 {
                assert(tables[t] <= m && t == path[tables[t] as int] && idx == va_index(cfg, d, va));
                if d == m {
                    assert(path_index(cfg, m, va) == idx);
                } else {
                    lemma_mask_facts(e0, bits);
                }
            }
            assert(pte_present(e1) && !pte_huge(e1) && pte_frame(e1, bits) == c) by {
                if e1 != e0 {
                    lemma_mask_facts(e0, bits);
                }
            }
            let next = spec_unmap_step(mem0, dm, cfg, d, t, vb)->Ok_0;
            assert(next == c);
            if on_path && idx == va_index(cfg, d, va) {
                assert(d < m) by {
                    if d == m {
                        assert(mem_entry(mem0, path[m as int], path_index(cfg, m, va)) == e0);
                    }
                }
                let pe = mem_entry(mem0, path[d as int], path_index(cfg, d, va));
                assert(pte_present(pe) && !pte_huge(pe) && pte_frame(pe, bits) == path[d + 1int]);
                assert forall|e: nat| e < d + 1 implies #[trigger] va_index(cfg, e, vb) == va_index(cfg, e, va) by {
                }
                self.lemma_keep_walk(mem0, mem1, a0, path, m, va, vb, d + 1, c, true, tn);
            } else {
                if d + 1 <= m {
                    assert(tables.contains_key(path[d + 1int]));
                    let pe = mem_entry(mem0, path[d as int], path_index(cfg, d, va));
                    assert(pte_present(pe) && !pte_huge(pe) && pte_frame(pe, bits) == path[d + 1int]);
                    assert(tables.contains_key(path[d as int]));
                    if path[d as int] == self.spec_root() {
                        assert(d == 0) by {
                            if d != 0 {
                                assert(tables[path[d as int]] == 0);
                            }
                        }
                    }
                    lemma_index_bound(va, level_shift(level));
                    assert(self.link_ok(mem0, path[d as int], path_index(cfg, d, va)));
                    assert(self.spec_parents()[path[d + 1int]] == (path[d as int], path_index(cfg, d, va)));
                }
                self.lemma_keep_walk(mem0, mem1, a0, path, m, va, vb, d + 1, c, false, tn);
            }
        }
    }

    /// A page `vb` other than `va` translates as before when only entries of
    /// `va`'s path change, and, where the path was cut at depth `m`, the new
    /// entry there leads only to `va`: followed from table `t` at depth `d`.
    #[verifier::rlimit(60)]
    #[verifier::spinoff_prover]
    pub proof fn lemma_keep_translation_walk(
        &self,
        mem0: Seq<u64>,
        mem1: Seq<u64>,
        a0: Seq<FrameState>,
        path: Seq<nat>,
        m: nat,
        va: u64,
        vb: u64,
        d: nat,
        t: nat,
        on_path: bool,
    )
        requires
            self.wf(mem0, a0),
            mem1.len() == mem0.len(),
            self.owned_path(mem0, path, m, va),
            self.changes_on_path(mem0, mem1, path, m, va),
            vb != va,
            va % 4096 == 0,
            vb % 4096 == 0,
            spec_canonical(va, spec_virtual_address_bits(self.spec_config().spec_mode())),
            spec_canonical(vb, spec_virtual_address_bits(self.spec_config().spec_mode())),
            self.root_index(vb) < self.spec_root_limit(),
            self.root_index(va) < self.spec_root_limit(),
            self.spec_tables().contains_key(t),
            self.spec_tables()[t] == d,
            on_path ==> d <= m && t == path[d as int] && forall|e: nat| e < d ==> #[trigger] va_index(self.spec_config(), e, vb) == va_index(self.spec_config(), e, va),
            !on_path ==> d > m || t != path[d as int],
            m < self.spec_config().spec_levels().len() ==> {
                let e1 = mem_entry(mem1, path[m as int], va_index(self.spec_config(), m, va));
                &&& pte_present(e1)
                &&& !pte_huge(e1)
                &&& forall|w: u64|
                    w % 4096 == 0 && w != va && spec_canonical(w, spec_virtual_address_bits(self.spec_config().spec_mode())) && (forall|e: nat|
                        e <= m ==> #[trigger] va_index(self.spec_config(), e, w) == va_index(self.spec_config(), e, va)) ==> #[trigger] spec_walk(
                        mem1,
                        self.spec_direct_map(),
                        self.spec_config(),
                        m + 1,
                        pte_frame(e1, self.spec_config().spec_bits()),
                        w,
                    ) is None
            },
        ensures
            spec_walk(mem1, self.spec_direct_map(), self.spec_config(), d, t, vb) == spec_walk(mem0, self.spec_direct_map(), self.spec_config(), d, t, vb),
        decreases self.spec_config().spec_levels().len() - d,
    {
        reveal(PageTable::wf);
        let cfg = self.spec_config();
        let bits = cfg.spec_bits();
        let dm = self.spec_direct_map();
        let n = cfg.spec_levels().len();
        let tables = self.spec_tables();
        assert(self.table_ok(mem0, a0, t));
        if d >= n {
            lemma_index_bound(vb, 12);
            let i = spec_p1_index(vb) as nat;
            if mem_entry(mem1, t, i) != mem_entry(mem0, t, i) {
                assert(tables[t] <= m && t == path[tables[t] as int] && i == va_index(cfg, tables[t], va));
                if on_path {
                    assert forall|e: nat| e <= n implies #[trigger] va_index(cfg, e, va) == va_index(cfg, e, vb) by {
                        if e < d {
                            assert(va_index(cfg, e, vb) == va_index(cfg, e, va));
                        }
                    }
                    self.lemma_wf_basics(mem0, a0);
                    lemma_same_indices_same_page(cfg, va, vb);
                }
            }
        } else {
            let level = cfg.spec_levels()[d as int];
            let idx = level_index(level, vb) as nat;
            lemma_index_bound(vb, level_shift(level));
            let e0 = mem_entry(mem0, t, idx);
            let e1 = mem_entry(mem1, t, idx);
            if t == self.spec_root() {
                assert(d == 0) by {
                    if d != 0 {
                        assert(tables[t] == 0);
                    }
                }
            }
            assert(idx < self.entry_limit(t));
            if e1 != e0 {
                assert(tables[t] <= m && t == path[tables[t] as int] && idx == va_index(cfg, d, va));
                assert(on_path);
                if d == m {
                    assert(path_index(cfg, m, va) == idx);
                    assert(!pte_present(e0));
                    assert forall|e: nat| e <= m implies #[trigger] va_index(cfg, e, vb) == va_index(cfg, e, va) by {
                        if e < d {
                            assert(va_index(cfg, e, vb) == va_index(cfg, e, va));
                        }
                    }
                    self.lemma_wf_basics(mem0, a0);
                    assert(spec_walk(mem1, dm, cfg, m + 1, pte_frame(e1, bits), vb) is None);
                } else {
                    let pe = mem_entry(mem0, path[d as int], path_index(cfg, d, va));
                    assert(pte_present(pe) && !pte_huge(pe) && pte_frame(pe, bits) == path[d + 1int]);
                    assert(pe == e0);
                    lemma_mask_facts(e0, bits);
                    assert(self.link_ok(mem0, t, idx));
                    assert(tables.contains_key(path[d + 1int]) && tables[path[d + 1int]] == d + 1);
                    assert forall|e: nat| e < d + 1 implies #[trigger] va_index(cfg, e, vb) == va_index(cfg, e, va) by {
                    }
                    self.lemma_keep_translation_walk(mem0, mem1, a0, path, m, va, vb, d + 1, path[d + 1int], true);
                }
            } else if pte_present(e0) && !pte_huge(e0) {
                assert(self.link_ok(mem0, t, idx));
                let c = pte_frame(e0, bits);
                assert(tables.contains_key(c) && tables[c] == d + 1 && self.spec_parents()[c] == (t, idx));
                if on_path && idx == va_index(cfg, d, va) {
                    assert(d < m) by {
                        if d == m {
                            assert(mem_entry(mem0, path[m as int], path_index(cfg, m, va)) == e0);
                        }
                    }
                    let pe = mem_entry(mem0, path[d as int], path_index(cfg, d, va));
                    assert(pte_present(pe) && !pte_huge(pe) && pte_frame(pe, bits) == path[d + 1int]);
                    assert forall|e: nat| e < d + 1 implies #[trigger] va_index(cfg, e, vb) == va_index(cfg, e, va) by {
                    }
                    self.lemma_keep_translation_walk(mem0, mem1, a0, path, m, va, vb, d + 1, c, true);
                } else {
                    if d + 1 <= m {
                        assert(tables.contains_key(path[d + 1int]));
                        let pe = mem_entry(mem0, path[d as int], path_index(cfg, d, va));
                        assert(pte_present(pe) && !pte_huge(pe) && pte_frame(pe, bits) == path[d + 1int]);
                        assert(tables.contains_key(path[d as int]));
                        if path[d as int] == self.spec_root() {
                            assert(d == 0) by {
                                if d != 0 {
                                    assert(tables[path[d as int]] == 0);
                                }
                            }
                        }
                        lemma_index_bound(va, level_shift(level));
                        assert(self.link_ok(mem0, path[d as int], path_index(cfg, d, va)));
                        assert(self.spec_parents()[path[d + 1int]] == (path[d as int], path_index(cfg, d, va)));
                    }
                    self.lemma_keep_translation_walk(mem0, mem1, a0, path, m, va, vb, d + 1, c, false);
                }
            }
        }
    }

    /// A page `vb` other than `va` that `map` could take stays so when only
    /// entries of `va`'s path change, and, where the path was cut at depth
    /// `m`, the new entry there leads only to `va`: followed from table `t` at
    /// depth `d`.
    #[verifier::rlimit(60)]
    #[verifier::spinoff_prover]
    pub proof fn lemma_keep_ready_walk(
        &self,
        mem0: Seq<u64>,
        mem1: Seq<u64>,
        a0: Seq<FrameState>,
        path: Seq<nat>,
        m: nat,
        va: u64,
        vb: u64,
        d: nat,
        t: nat,
        on_path: bool,
    )
        requires
            self.wf(mem0, a0),
            mem1.len() == mem0.len(),
            self.owned_path(mem0, path, m, va),
            self.changes_on_path(mem0, mem1, path, m, va),
            vb != va,
            va % 4096 == 0,
            vb % 4096 == 0,
            spec_canonical(va, spec_virtual_address_bits(self.spec_config().spec_mode())),
            spec_canonical(vb, spec_virtual_address_bits(self.spec_config().spec_mode())),
            self.root_index(vb) < self.spec_root_limit(),
            self.root_index(va) < self.spec_root_limit(),
            self.spec_tables().contains_key(t),
            self.spec_tables()[t] == d,
            on_path ==> d <= m && t == path[d as int] && forall|e: nat| e < d ==> #[trigger] va_index(self.spec_config(), e, vb) == va_index(self.spec_config(), e, va),
            !on_path ==> d > m || t != path[d as int],
            m < self.spec_config().spec_levels().len() ==> {
                let e1 = mem_entry(mem1, path[m as int], va_index(self.spec_config(), m, va));
                &&& pte_present(e1)
                &&& !pte_huge(e1)
                &&& forall|w: u64|
                    w % 4096 == 0 && w != va && spec_canonical(w, spec_virtual_address_bits(self.spec_config().spec_mode())) && (forall|e: nat|
                        e <= m ==> #[trigger] va_index(self.spec_config(), e, w) == va_index(self.spec_config(), e, va)) ==> walk_ready(
                        #[trigger] spec_map_walk(mem1, self.spec_direct_map(), self.spec_config(), m + 1, pte_frame(e1, self.spec_config().spec_bits()), w),
                        mem1,
                        self.spec_direct_map(),
                        w,
                    )
            },
            walk_ready(spec_map_walk(mem0, self.spec_direct_map(), self.spec_config(), d, t, vb), mem0, self.spec_direct_map(), vb),
        ensures
            walk_ready(spec_map_walk(mem1, self.spec_direct_map(), self.spec_config(), d, t, vb), mem1, self.spec_direct_map(), vb),
        decreases self.spec_config().spec_levels().len() - d,
    {
        reveal(PageTable::wf);
        let cfg = self.spec_config();
        let bits = cfg.spec_bits();
        let dm = self.spec_direct_map();
        let n = cfg.spec_levels().len();
        let tables = self.spec_tables();
        assert(self.table_ok(mem0, a0, t));
        if d >= n {
            lemma_index_bound(vb, 12);
            let i = spec_p1_index(vb) as nat;
            if mem_entry(mem1, t, i) != mem_entry(mem0, t, i) {
                assert(tables[t] <= m && t == path[tables[t] as int] && i == va_index(cfg, tables[t], va));
                if on_path {
                    assert forall|e: nat| e <= n implies #[trigger] va_index(cfg, e, va) == va_index(cfg, e, vb) by {
                        if e < d {
                            assert(va_index(cfg, e, vb) == va_index(cfg, e, va));
                        }
                    }
                    self.lemma_wf_basics(mem0, a0);
                    lemma_same_indices_same_page(cfg, va, vb);
                }
            }
        } else {
            let level = cfg.spec_levels()[d as int];
            let idx = level_index(level, vb) as nat;
            lemma_index_bound(vb, level_shift(level));
            let e0 = mem_entry(mem0, t, idx);
            let e1 = mem_entry(mem1, t, idx);
            if t == self.spec_root() {
                assert(d == 0) by {
                    if d != 0 {
                        assert(tables[t] == 0);
                    }
                }
            }
            assert(idx < self.entry_limit(t));
            if e1 != e0 {
                assert(tables[t] <= m && t == path[tables[t] as int] && idx == va_index(cfg, d, va));
                assert(on_path);
                if d == m {
                    assert(path_index(cfg, m, va) == idx);
                    assert(!pte_present(e0));
                    assert forall|e: nat| e <= m implies #[trigger] va_index(cfg, e, vb) == va_index(cfg, e, va) by {
                        if e < d {
                            assert(va_index(cfg, e, vb) == va_index(cfg, e, va));
                        }
                    }
                    self.lemma_wf_basics(mem0, a0);
                    assert(walk_ready(spec_map_walk(mem1, dm, cfg, m + 1, pte_frame(e1, bits), vb), mem1, dm, vb));
                } else {
                    let pe = mem_entry(mem0, path[d as int], path_index(cfg, d, va));
                    assert(pte_present(pe) && !pte_huge(pe) && pte_frame(pe, bits) == path[d + 1int]);
                    assert(pe == e0);
                    lemma_mask_facts(e0, bits);
                    assert(self.link_ok(mem0, t, idx));
                    assert(tables.contains_key(path[d + 1int]) && tables[path[d + 1int]] == d + 1);
                    assert forall|e: nat| e < d + 1 implies #[trigger] va_index(cfg, e, vb) == va_index(cfg, e, va) by {
                    }
                    self.lemma_keep_ready_walk(mem0, mem1, a0, path, m, va, vb, d + 1, path[d + 1int], true);
                }
            } else if pte_present(e0) && !pte_huge(e0) {
                assert(self.link_ok(mem0, t, idx));
                let c = pte_frame(e0, bits);
                assert(tables.contains_key(c) && tables[c] == d + 1 && self.spec_parents()[c] == (t, idx));
                if on_path && idx == va_index(cfg, d, va) {
                    assert(d < m) by {
                        if d == m {
                            assert(mem_entry(mem0, path[m as int], path_index(cfg, m, va)) == e0);
                        }
                    }
                    let pe = mem_entry(mem0, path[d as int], path_index(cfg, d, va));
                    assert(pte_present(pe) && !pte_huge(pe) && pte_frame(pe, bits) == path[d + 1int]);
                    assert forall|e: nat| e < d + 1 implies #[trigger] va_index(cfg, e, vb) == va_index(cfg, e, va) by {
                    }
                    self.lemma_keep_ready_walk(mem0, mem1, a0, path, m, va, vb, d + 1, c, true);
                } else {
                    if d + 1 <= m {
                        assert(tables.contains_key(path[d + 1int]));
                        let pe = mem_entry(mem0, path[d as int], path_index(cfg, d, va));
                        assert(pte_present(pe) && !pte_huge(pe) && pte_frame(pe, bits) == path[d + 1int]);
                        assert(tables.contains_key(path[d as int]));
                        if path[d as int] == self.spec_root() {
                            assert(d == 0) by {
                                if d != 0 {
                                    assert(tables[path[d as int]] == 0);
                                }
                            }
                        }
                        lemma_index_bound(va, level_shift(level));
                        assert(self.link_ok(mem0, path[d as int], path_index(cfg, d, va)));
                        assert(self.spec_parents()[path[d + 1int]] == (path[d as int], path_index(cfg, d, va)));
                    }
                    self.lemma_keep_ready_walk(mem0, mem1, a0, path, m, va, vb, d + 1, c, false);
                }
            }
        }
    }

    /// Below the cut at depth `md`, the chain `ps` that `map` links in leads
    /// nowhere but to `va`: another page whose indices agree with `va`'s down
    /// to table `j` of the chain does not translate.
    #[verifier::rlimit(60)]
    #[verifier::spinoff_prover]
    pub proof fn lemma_chain_leads_only_to(
        &self, new: PageTable, mem0: Seq<u64>, mem1: Seq<u64>, mem2: Seq<u64>, mem3: Seq<u64>,
        a0: Seq<FrameState>, a1: Seq<FrameState>, ps: Seq<nat>, md: nat, pt: nat, pi: nat, va: u64, user: bool, leaf: u64,
        j: nat, w: u64,
    )
        requires
            self.publish_setup(new, mem0, mem1, mem2, mem3, a0, a1, ps, md, pt, pi, va, user, leaf),
            j < ps.len(),
            w % 4096 == 0,
            va % 4096 == 0,
            w != va,
            spec_canonical(va, spec_virtual_address_bits(self.spec_config().spec_mode())),
            spec_canonical(w, spec_virtual_address_bits(self.spec_config().spec_mode())),
            forall|e: nat| e <= md + j ==> #[trigger] va_index(self.spec_config(), e, w) == va_index(self.spec_config(), e, va),
        ensures
            spec_walk(mem3, self.spec_direct_map(), self.spec_config(), md + 1 + j, ps[j as int], w) is None,
        decreases ps.len() - j,
    {
        let cfg = self.spec_config();
        let bits = cfg.spec_bits();
        let dm = self.spec_direct_map();
        let n = cfg.spec_levels().len();
        let dd = md + 1 + j;
        self.lemma_publish_chain_entries(new, mem0, mem1, mem2, mem3, a0, a1, ps, md, pt, pi, va, user, leaf);
        self.lemma_wf_basics(mem0, a0);
        lemma_zero_entry_absent();
        if table_accessible(mem3, dm, ps[j as int]) {
            if dd >= n {
                lemma_index_bound(w, 12);
                let i = spec_p1_index(w) as nat;
                assert(j + 1 == ps.len());
                assert(mem_entry(mem3, ps[j as int], i) == private_entry(cfg, ps, md, va, user, leaf, j, i));
                if i == spec_p1_index(va) as nat {
                    assert forall|e: nat| e <= n implies #[trigger] va_index(cfg, e, va) == va_index(cfg, e, w) by {
                        if e < n {
                            assert(va_index(cfg, e, w) == va_index(cfg, e, va));
                        }
                    }
                    lemma_same_indices_same_page(cfg, va, w);
                }
            } else {
                let level = cfg.spec_levels()[dd as int];
                let idx = level_index(level, w) as nat;
                lemma_index_bound(w, level_shift(level));
                assert(j + 1 < ps.len());
                assert(mem_entry(mem3, ps[j as int], idx) == private_entry(cfg, ps, md, va, user, leaf, j, idx));
                if idx == path_index(cfg, dd, va) {
                    lemma_table_entry(((ps[j + 1int] * 4096) as u64), user, bits);
                    assert forall|e: nat| e <= md + (j + 1) implies #[trigger] va_index(cfg, e, w) == va_index(cfg, e, va) by {
                        if e < dd {
                            assert(va_index(cfg, e, w) == va_index(cfg, e, va));
                        }
                    }
                    self.lemma_chain_leads_only_to(new, mem0, mem1, mem2, mem3, a0, a1, ps, md, pt, pi, va, user, leaf, j + 1, w);
                    assert(md + 1 + (j + 1) == dd + 1);
                }
            }
        }
    }

    /// Below the cut at depth `md`, the chain `ps` that `map` links in
    /// leaves every other page open to mapping: a page whose indices agree
    /// with `va`'s down to table `j` of the chain meets an empty entry.
    #[verifier::rlimit(60)]
    #[verifier::spinoff_prover]
    pub proof fn lemma_chain_ready(
        &self, new: PageTable, mem0: Seq<u64>, mem1: Seq<u64>, mem2: Seq<u64>, mem3: Seq<u64>,
        a0: Seq<FrameState>, a1: Seq<FrameState>, ps: Seq<nat>, md: nat, pt: nat, pi: nat, va: u64, user: bool, leaf: u64,
        j: nat, w: u64,
    )
        requires
            self.publish_setup(new, mem0, mem1, mem2, mem3, a0, a1, ps, md, pt, pi, va, user, leaf),
            j < ps.len(),
            w % 4096 == 0,
            va % 4096 == 0,
            w != va,
            spec_canonical(va, spec_virtual_address_bits(self.spec_config().spec_mode())),
            spec_canonical(w, spec_virtual_address_bits(self.spec_config().spec_mode())),
            forall|e: nat| e <= md + j ==> #[trigger] va_index(self.spec_config(), e, w) == va_index(self.spec_config(), e, va),
        ensures
            walk_ready(spec_map_walk(mem3, self.spec_direct_map(), self.spec_config(), md + 1 + j, ps[j as int], w), mem3, self.spec_direct_map(), w),
        decreases ps.len() - j,
    {
        let cfg = self.spec_config();
        let bits = cfg.spec_bits();
        let dm = self.spec_direct_map();
        let n = cfg.spec_levels().len();
        let dd = md + 1 + j;
        self.lemma_publish_chain_entries(new, mem0, mem1, mem2, mem3, a0, a1, ps, md, pt, pi, va, user, leaf);
        self.lemma_wf_basics(mem0, a0);
        lemma_zero_entry_absent();
        assert(table_accessible(mem1, dm, ps[j as int]));
        assert(table_accessible(mem3, dm, ps[j as int]));
        if dd >= n {
            lemma_index_bound(w, 12);
            let i = spec_p1_index(w) as nat;
            assert(j + 1 == ps.len());
            assert(mem_entry(mem3, ps[j as int], i) == private_entry(cfg, ps, md, va, user, leaf, j, i));
            if i == spec_p1_index(va) as nat {
                assert forall|e: nat| e <= n implies #[trigger] va_index(cfg, e, va) == va_index(cfg, e, w) by {
                    if e < n {
                        assert(va_index(cfg, e, w) == va_index(cfg, e, va));
                    }
                }
                lemma_same_indices_same_page(cfg, va, w);
            }
        } else {
            let level = cfg.spec_levels()[dd as int];
            let idx = level_index(level, w) as nat;
            lemma_index_bound(w, level_shift(level));
            assert(j + 1 < ps.len());
            assert(mem_entry(mem3, ps[j as int], idx) == private_entry(cfg, ps, md, va, user, leaf, j, idx));
            if idx == path_index(cfg, dd, va) {
                lemma_table_entry(((ps[j + 1int] * 4096) as u64), user, bits);
                assert forall|e: nat| e <= md + (j + 1) implies #[trigger] va_index(cfg, e, w) == va_index(cfg, e, va) by {
                    if e < dd {
                        assert(va_index(cfg, e, w) == va_index(cfg, e, va));
                    }
                }
                self.lemma_chain_ready(new, mem0, mem1, mem2, mem3, a0, a1, ps, md, pt, pi, va, user, leaf, j + 1, w);
                assert(md + 1 + (j + 1) == dd + 1);
            }
        }
    }

    /// When only entries of `va`'s path change, every other page the
    /// hierarchy maps (in the part it owns) keeps its frame.
    pub proof fn lemma_keep_mapping(
        &self,
        new: PageTable,
        mem0: Seq<u64>,
        mem1: Seq<u64>,
        a0: Seq<FrameState>,
        path: Seq<nat>,
        m: nat,
        va: u64,
        vb: u64,
    )
        requires
            self.wf(mem0, a0),
            new.spec_config() == self.spec_config(),
            new.spec_root() == self.spec_root(),
            new.spec_direct_map() == self.spec_direct_map(),
            mem1.len() == mem0.len(),
            self.owned_path(mem0, path, m, va),
            self.changes_on_path(mem0, mem1, path, m, va),
            vb != va,
            va % 4096 == 0,
            spec_canonical(va, spec_virtual_address_bits(self.spec_config().spec_mode())),
            self.root_index(vb) < self.spec_root_limit(),
            self.root_index(va) < self.spec_root_limit(),
            self.spec_unmap(mem0, vb) is Ok,
        ensures
            new.spec_unmap(mem1, vb) == self.spec_unmap(mem0, vb),
            spec_mapping_entry(mem1, new.spec_direct_map(), new.spec_config(), new.spec_root(), vb) == spec_mapping_entry(
                mem0,
                self.spec_direct_map(),
                self.spec_config(),
                self.spec_root(),
                vb,
            ),
    {
        let cfg = self.spec_config();
        let dm = self.spec_direct_map();
        let tn = spec_unmap_walk(mem0, dm, cfg, 0, self.spec_root(), vb)->Ok_0;
        self.lemma_wf_basics(mem0, a0);
        self.lemma_keep_walk(mem0, mem1, a0, path, m, va, vb, 0, self.spec_root(), true, tn);
        lemma_unmap_walk_entry(mem0, dm, cfg, 0, self.spec_root(), vb, tn);
        lemma_unmap_walk_entry(mem1, dm, cfg, 0, self.spec_root(), vb, tn);
    }
}

impl PageTable {
    /// The changes `map` makes lie on `va`'s path: user bits set at the
    /// recorded upgrades above depth `m`, one entry written at depth `m`,
    /// and writes to frames the hierarchy does not own.
    pub proof fn lemma_map_changes_on_path(
        &self,
        mem0: Seq<u64>,
        mid: Seq<u64>,
        memf: Seq<u64>,
        a0: Seq<FrameState>,
        path: Seq<nat>,
        m: nat,
        va: u64,
        ups: Seq<EntryLocation>,
        upd: Seq<nat>,
        v: u64,
    )
        requires
            self.wf(mem0, a0),
            self.owned_path(mem0, path, m, va),
            self.root_index(va) < self.spec_root_limit(),
            upd.len() == ups.len(),
            upgrades_on_path(ups, upd, path, self.spec_config(), va, m),
            mid.len() == mem0.len(),
            forall|w: int| 0 <= w < mem0.len() && #[trigger] mid[w] != mem0[w] ==> (exists|j: int| 0 <= j < ups.len() && loc_pos(
                #[trigger] ups[j]) == w) && mid[w] == mem0[w] | 4u64 || !self.spec_tables().contains_key((w / 512) as nat),
            memf == mid.update(word_pos(path[m as int], va_index(self.spec_config(), m, va)) as int, v),
        ensures
            self.changes_on_path(mem0, memf, path, m, va),
            memf.len() == mem0.len(),
    {
        let cfg = self.spec_config();
        let n = cfg.spec_levels().len();
        let tables = self.spec_tables();
        let pm = path[m as int];
        let im = va_index(cfg, m, va);
        self.lemma_wf_basics(mem0, a0);
        assert(im < 512) by {
            if m < n {
                lemma_index_bound(va, level_shift(cfg.spec_levels()[m as int]));
            } else {
                lemma_index_bound(va, 12);
            }
        }
        assert(tables.contains_key(path[m as int]));
        assert forall|k: nat, i: nat|
            tables.contains_key(k) && i < 512 && #[trigger] mem_entry(memf, k, i) != mem_entry(mem0, k, i) implies {
                &&& tables[k] <= m
                &&& k == path[tables[k] as int]
                &&& i == va_index(cfg, tables[k], va)
                &&& tables[k] < m ==> mem_entry(memf, k, i) == mem_entry(mem0, k, i) | 4u64
            } by {
            let w = word_pos(k, i) as int;
            self.lemma_owned_allocated(mem0, a0, k);
            assert(w < mem0.len()) by (nonlinear_arith)
                requires
                    k < mem0.len() / 512,
                    i < 512,
                    w == k * 512 + i,
            ;
            lemma_word_pos(k, i, pm, im);
            if w == word_pos(pm, im) {
                assert(k == pm && i == im);
            } else {
                assert(memf[w] == mid[w]);
                assert(mid[w] != mem0[w]);
                assert(w / 512 == k);
                let j = choose|j: int| 0 <= j < ups.len() && loc_pos(#[trigger] ups[j]) == w;
                let l = ups[j];
                assert(upd[j] < m);
                lemma_word_pos(l.table.spec_index(), l.index as nat, k, i);
                assert(k == path[upd[j] as int]);
                assert(tables[k] == upd[j]);
                assert(i == path_index(cfg, upd[j], va));
            }
        }
    }
}

/// A walk down linked, readable tables is also `unmap`'s walk.
pub proof fn lemma_unmap_walk_along(mem: Seq<u64>, dm: DirectMap, cfg: PagingConfig, path: Seq<nat>, va: u64, d: nat)
    requires
        path.len() == cfg.spec_levels().len() + 1,
        d <= cfg.spec_levels().len(),
        path_links(mem, cfg, path, va, cfg.spec_levels().len()),
        forall|j: int| 0 <= j < path.len() ==> table_accessible(mem, dm, #[trigger] path[j]),
    ensures
        spec_unmap_walk(mem, dm, cfg, d, path[d as int], va) == Ok::<nat, UnmapError>(path[cfg.spec_levels().len() as int]),
    decreases cfg.spec_levels().len() - d,
{
    if d < cfg.spec_levels().len() {
        let e = mem_entry(mem, path[d as int], path_index(cfg, d, va));
        assert(pte_present(e) && !pte_huge(e) && pte_frame(e, cfg.spec_bits()) == path[d + 1int]);
        lemma_unmap_walk_along(mem, dm, cfg, path, va, d + 1);
    }
}

/// A leaf entry for `frame` is present and gives `frame`.
pub proof fn lemma_leaf_entry_frame(cfg: PagingConfig, frame: u64, flags: u64)
    requires
        cfg.wf(),
        frame % 4096 == 0,
        frame < cfg.spec_limit(),
        flag_bits_only(flags),
        flags & 1u64 != 0,
    ensures
        pte_present(frame | flags),
        pte_address(frame | flags, cfg.spec_bits()) == frame,
{
    lemma_flags_outside_mask(flags, cfg.spec_bits());
    lemma_entry_compose(frame, flags, cfg.spec_bits());
}

impl PageTable {
    /// After `map` filled an existing last-level table: `va` can be
    /// unmapped again to `frame`, and every other page keeps its frame.
    pub proof fn lemma_complete_laws(
        &self,
        mem0: Seq<u64>,
        mid: Seq<u64>,
        memf: Seq<u64>,
        a0: Seq<FrameState>,
        path: Seq<nat>,
        va: u64,
        ups: Seq<EntryLocation>,
        upd: Seq<nat>,
        frame: u64,
        flags: u64,
    )
        requires
            self.wf(mem0, a0),
            self.owned_path(mem0, path, self.spec_config().spec_levels().len(), va),
            self.root_index(va) < self.spec_root_limit(),
            spec_canonical(va, spec_virtual_address_bits(self.spec_config().spec_mode())),
            va % 4096 == 0,
            upd.len() == ups.len(),
            upgrades_on_path(ups, upd, path, self.spec_config(), va, self.spec_config().spec_levels().len()),
            mid.len() == mem0.len(),
            forall|w: int| 0 <= w < mem0.len() ==> #[trigger] mid[w] == if exists|j: int| 0 <= j < ups.len() && loc_pos(
                #[trigger] ups[j]) == w {
                mem0[w] | 4u64
            } else {
                mem0[w]
            },
            memf == mid.update(word_pos(path[self.spec_config().spec_levels().len() as int], spec_p1_index(va) as nat) as int, frame | flags),
            path_links(memf, self.spec_config(), path, va, self.spec_config().spec_levels().len()),
            forall|j: int| 0 <= j < path.len() ==> table_accessible(memf, self.spec_direct_map(), #[trigger] path[j]),
            frame % 4096 == 0,
            frame < self.spec_config().spec_limit(),
            flag_bits_only(flags),
            flags & 1u64 != 0,
        ensures
            self.spec_unmap(memf, va) == Ok::<u64, UnmapError>(frame),
            forall|vb: u64|
                vb != va && self.root_index(vb) < self.spec_root_limit() && self.spec_unmap(mem0, vb) is Ok ==> #[trigger] self.spec_unmap(memf, vb)
                    == self.spec_unmap(mem0, vb) && spec_mapping_entry(memf, self.spec_direct_map(), self.spec_config(), self.spec_root(), vb)
                    == spec_mapping_entry(mem0, self.spec_direct_map(), self.spec_config(), self.spec_root(), vb),
            forall|vb: u64|
                vb != va && vb % 4096 == 0 && self.root_index(vb) < self.spec_root_limit() ==> #[trigger] self.translate(memf, vb)
                    == self.translate(mem0, vb),
            forall|vb: u64|
                vb != va && self.root_index(vb) < self.spec_root_limit() && #[trigger] self.spec_page_open(mem0, vb) ==> self.spec_page_open(memf, vb),
    {
        let cfg = self.spec_config();
        let n = cfg.spec_levels().len();
        self.lemma_wf_basics(mem0, a0);
        lemma_unmap_walk_along(memf, self.spec_direct_map(), cfg, path, va, 0);
        lemma_leaf_entry_frame(cfg, frame, flags);
        assert(self.spec_tables().contains_key(path[n as int]));
        self.lemma_owned_allocated(mem0, a0, path[n as int]);
        lemma_index_bound(va, 12);
        assert(word_pos(path[n as int], spec_p1_index(va) as nat) < memf.len()) by (nonlinear_arith)
            requires
                path[n as int] < mem0.len() / 512,
                spec_p1_index(va) < 512,
                memf.len() == mem0.len(),
        ;
        assert(mem_entry(memf, path[n as int], spec_p1_index(va) as nat) == frame | flags);
        assert(va_index(cfg, n, va) == spec_p1_index(va) as nat);
        assert forall|w: int| 0 <= w < mem0.len() && #[trigger] mid[w] != mem0[w] implies (exists|j: int| 0 <= j < ups.len() && loc_pos(
            #[trigger] ups[j]) == w) && mid[w] == mem0[w] | 4u64 || !self.spec_tables().contains_key((w / 512) as nat) by {
        }
        self.lemma_map_changes_on_path(mem0, mid, memf, a0, path, n, va, ups, upd, frame | flags);
        assert forall|vb: u64|
            vb != va && self.root_index(vb) < self.spec_root_limit() && self.spec_unmap(mem0, vb) is Ok implies #[trigger] self.spec_unmap(memf, vb)
                == self.spec_unmap(mem0, vb) && spec_mapping_entry(memf, self.spec_direct_map(), self.spec_config(), self.spec_root(), vb)
                == spec_mapping_entry(mem0, self.spec_direct_map(), self.spec_config(), self.spec_root(), vb) by {
            self.lemma_keep_mapping(*self, mem0, memf, a0, path, n, va, vb);
        }
        assert forall|vb: u64|
            vb != va && vb % 4096 == 0 && self.root_index(vb) < self.spec_root_limit() implies #[trigger] self.translate(memf, vb)
                == self.translate(mem0, vb) by {
            if spec_canonical(vb, spec_virtual_address_bits(cfg.spec_mode())) {
                self.lemma_keep_translation_walk(mem0, memf, a0, path, n, va, vb, 0, self.spec_root(), true);
            }
        }
        assert forall|vb: u64|
            vb != va && self.root_index(vb) < self.spec_root_limit() && #[trigger] self.spec_page_open(mem0, vb) implies self.spec_page_open(memf, vb) by {
            self.lemma_keep_ready_walk(mem0, memf, a0, path, n, va, vb, 0, self.spec_root(), true);
        }
    }

    /// After `map` published a new chain of tables: `va` can be unmapped
    /// again to `frame`, and every other page keeps its frame.
    pub proof fn lemma_missing_laws(
        &self, new: PageTable, mem0: Seq<u64>, mem1: Seq<u64>, mem2: Seq<u64>, mem3: Seq<u64>,
        a0: Seq<FrameState>, a1: Seq<FrameState>, ps: Seq<nat>, md: nat, pt: nat, pi: nat, va: u64, user: bool, leaf: u64,
        path: Seq<nat>, ups: Seq<EntryLocation>, upd: Seq<nat>, frame: u64, flags: u64,
    )
        requires
            self.publish_setup(new, mem0, mem1, mem2, mem3, a0, a1, ps, md, pt, pi, va, user, leaf),
            self.owned_path(mem0, path, md, va),
            path[md as int] == pt,
            self.root_index(va) < self.spec_root_limit(),
            spec_canonical(va, spec_virtual_address_bits(self.spec_config().spec_mode())),
            va % 4096 == 0,
            upd.len() == ups.len(),
            upgrades_on_path(ups, upd, path, self.spec_config(), va, md),
            forall|w: int| 0 <= w < mem0.len() ==> #[trigger] mem2[w] == if exists|j: int| 0 <= j < ups.len() && loc_pos(
                #[trigger] ups[j]) == w {
                mem1[w] | 4u64
            } else {
                mem1[w]
            },
            forall|d: int| 0 <= d <= md ==> table_accessible(mem0, self.spec_direct_map(), #[trigger] path[d]),
            leaf == frame | flags,
            frame % 4096 == 0,
            frame < self.spec_config().spec_limit(),
            flag_bits_only(flags),
            flags & 1u64 != 0,
        ensures
            new.spec_unmap(mem3, va) == Ok::<u64, UnmapError>(frame),
            forall|vb: u64|
                vb != va && self.root_index(vb) < self.spec_root_limit() && self.spec_unmap(mem0, vb) is Ok ==> #[trigger] new.spec_unmap(mem3, vb)
                    == self.spec_unmap(mem0, vb) && spec_mapping_entry(mem3, new.spec_direct_map(), new.spec_config(), new.spec_root(), vb)
                    == spec_mapping_entry(mem0, self.spec_direct_map(), self.spec_config(), self.spec_root(), vb),
            forall|vb: u64|
                vb != va && vb % 4096 == 0 && self.root_index(vb) < self.spec_root_limit() ==> #[trigger] new.translate(mem3, vb)
                    == self.translate(mem0, vb),
            forall|vb: u64|
                vb != va && self.root_index(vb) < self.spec_root_limit() && #[trigger] self.spec_page_open(mem0, vb) ==> new.spec_page_open(mem3, vb),
    {
        let cfg = self.spec_config();
        let dm = self.spec_direct_map();
        let n = cfg.spec_levels().len();
        let full = path + ps;
        self.lemma_wf_basics(mem0, a0);
        self.lemma_publish_disjoint(new, mem0, mem1, mem2, mem3, a0, a1, ps, md, pt, pi, va, user, leaf);
        self.lemma_publish_chain_entries(new, mem0, mem1, mem2, mem3, a0, a1, ps, md, pt, pi, va, user, leaf);
        self.lemma_publish_path_links(new, mem0, mem1, mem2, mem3, a0, a1, ps, md, pt, pi, va, user, leaf, path);
        assert forall|j: int| 0 <= j < full.len() implies table_accessible(mem3, dm, #[trigger] full[j]) by {
            if j <= md {
                assert(full[j] == path[j]);
            } else {
                assert(full[j] == ps[j - md - 1]);
                assert(table_accessible(mem1, dm, ps[j - md - 1]));
            }
        }
        lemma_unmap_walk_along(mem3, dm, cfg, full, va, 0);
        let last = (ps.len() - 1) as nat;
        assert(full[n as int] == ps[last as int]);
        lemma_index_bound(va, 12);
        assert(mem_entry(mem3, ps[last as int], spec_p1_index(va) as nat) == private_entry(cfg, ps, md, va, user, leaf, last, spec_p1_index(va) as nat));
        lemma_leaf_entry_frame(cfg, frame, flags);
        assert(path_index(cfg, md, va) == pi);
        assert(va_index(cfg, md, va) == pi);
        assert forall|w: int| 0 <= w < mem0.len() && #[trigger] mem2[w] != mem0[w] implies (exists|j: int| 0 <= j < ups.len() && loc_pos(
            #[trigger] ups[j]) == w) && mem2[w] == mem0[w] | 4u64 || !self.spec_tables().contains_key((w / 512) as nat) by {
            if self.spec_tables().contains_key((w / 512) as nat) {
                assert(!in_frames(ps, w)) by {
                    if in_frames(ps, w) {
                        let j = lemma_in_frames_index(ps, w);
                        assert(!self.spec_tables().contains_key(ps[j]));
                    }
                }
                assert(mem1[w] == mem0[w]);
            }
        }
        self.lemma_map_changes_on_path(mem0, mem2, mem3, a0, path, md, va, ups, upd, spec_table_entry((ps[0] * 4096) as u64, user));
        assert forall|vb: u64|
            vb != va && self.root_index(vb) < self.spec_root_limit() && self.spec_unmap(mem0, vb) is Ok implies #[trigger] new.spec_unmap(mem3, vb)
                == self.spec_unmap(mem0, vb) && spec_mapping_entry(mem3, new.spec_direct_map(), new.spec_config(), new.spec_root(), vb)
                == spec_mapping_entry(mem0, self.spec_direct_map(), self.spec_config(), self.spec_root(), vb) by {
            self.lemma_keep_mapping(new, mem0, mem3, a0, path, md, va, vb);
        }
        let e1 = mem_entry(mem3, path[md as int], va_index(cfg, md, va));
        assert(e1 == spec_table_entry((ps[0] * 4096) as u64, user)) by {
            lemma_word_pos(pt, pi, pt, pi);
        }
        lemma_table_entry(((ps[0] * 4096) as u64), user, cfg.spec_bits());
        assert forall|w: u64|
            w % 4096 == 0 && w != va && spec_canonical(w, spec_virtual_address_bits(cfg.spec_mode())) && (forall|e: nat|
                e <= md ==> #[trigger] va_index(cfg, e, w) == va_index(cfg, e, va)) implies #[trigger] spec_walk(
            mem3,
            dm,
            cfg,
            md + 1,
            pte_frame(e1, cfg.spec_bits()),
            w,
        ) is None by {
            self.lemma_chain_leads_only_to(new, mem0, mem1, mem2, mem3, a0, a1, ps, md, pt, pi, va, user, leaf, 0, w);
        }
        assert forall|vb: u64|
            vb != va && vb % 4096 == 0 && self.root_index(vb) < self.spec_root_limit() implies #[trigger] new.translate(mem3, vb)
                == self.translate(mem0, vb) by {
            if spec_canonical(vb, spec_virtual_address_bits(cfg.spec_mode())) {
                self.lemma_keep_translation_walk(mem0, mem3, a0, path, md, va, vb, 0, self.spec_root(), true);
            }
        }
        assert forall|w: u64|
            w % 4096 == 0 && w != va && spec_canonical(w, spec_virtual_address_bits(cfg.spec_mode())) && (forall|e: nat|
                e <= md ==> #[trigger] va_index(cfg, e, w) == va_index(cfg, e, va)) implies walk_ready(
            #[trigger] spec_map_walk(mem3, dm, cfg, md + 1, pte_frame(e1, cfg.spec_bits()), w),
            mem3,
            dm,
            w,
        ) by {
            self.lemma_chain_ready(new, mem0, mem1, mem2, mem3, a0, a1, ps, md, pt, pi, va, user, leaf, 0, w);
        }
        assert forall|vb: u64|
            vb != va && self.root_index(vb) < self.spec_root_limit() && #[trigger] self.spec_page_open(mem0, vb) implies new.spec_page_open(mem3, vb) by {
            self.lemma_keep_ready_walk(mem0, mem3, a0, path, md, va, vb, 0, self.spec_root(), true);
        }
    }
}

impl PageTable {
    /// The tables of `va`'s path below depth `s` hold nothing but `va`'s
    /// own entries.
    pub open spec fn path_otherwise_empty(&self, mem0: Seq<u64>, path: Seq<nat>, s: nat, va: u64) -> bool {
        forall|e: nat, i: nat|
            s < e <= self.spec_config().spec_levels().len() && i < 512 && i != va_index(self.spec_config(), e, va) ==> !pte_present(
                #[trigger] mem_entry(mem0, path[e as int], i),
            )
    }

    /// The owned entries that differ between `mem0` and `mem1` are `va`'s
    /// entries in the tables of its path at depth `s` or deeper.
    pub open spec fn changes_below(&self, mem0: Seq<u64>, mem1: Seq<u64>, path: Seq<nat>, s: nat, va: u64) -> bool {
        forall|k: nat, i: nat|
            self.spec_tables().contains_key(k) && i < 512 && #[trigger] mem_entry(mem1, k, i) != mem_entry(mem0, k, i) ==> {
                &&& self.spec_tables()[k] >= s
                &&& k == path[self.spec_tables()[k] as int]
                &&& i == va_index(self.spec_config(), self.spec_tables()[k], va)
            }
    }

    /// A page other than `va` whose walk follows `va`'s path into the
    /// tables below depth `s`, which hold only `va`'s entries, is not mapped.
    pub proof fn lemma_no_walk_below(
        &self,
        mem0: Seq<u64>,
        a0: Seq<FrameState>,
        path: Seq<nat>,
        s: nat,
        va: u64,
        vb: u64,
        d: nat,
        tn: nat,
    )
        requires
            self.wf(mem0, a0),
            self.owned_path(mem0, path, self.spec_config().spec_levels().len(), va),
            self.path_otherwise_empty(mem0, path, s, va),
            s < d <= self.spec_config().spec_levels().len(),
            vb != va,
            va % 4096 == 0,
            vb % 4096 == 0,
            spec_canonical(va, spec_virtual_address_bits(self.spec_config().spec_mode())),
            spec_canonical(vb, spec_virtual_address_bits(self.spec_config().spec_mode())),
            forall|e: nat| e < d ==> #[trigger] va_index(self.spec_config(), e, vb) == va_index(self.spec_config(), e, va),
        ensures
            !(spec_unmap_walk(mem0, self.spec_direct_map(), self.spec_config(), d, path[d as int], vb) == Ok::<nat, UnmapError>(tn)
                && pte_present(mem_entry(mem0, tn, spec_p1_index(vb) as nat))),
        decreases self.spec_config().spec_levels().len() - d,
    {
        if spec_unmap_walk(mem0, self.spec_direct_map(), self.spec_config(), d, path[d as int], vb) == Ok::<nat, UnmapError>(tn)
            && pte_present(mem_entry(mem0, tn, spec_p1_index(vb) as nat)) {
        let cfg = self.spec_config();
        let n = cfg.spec_levels().len();
        let bits = cfg.spec_bits();
        if d >= n {
            lemma_index_bound(vb, 12);
            if va_index(cfg, n, vb) == va_index(cfg, n, va) {
                assert forall|e: nat| e <= n implies #[trigger] va_index(cfg, e, va) == va_index(cfg, e, vb) by {
                    if e < d {
                        assert(va_index(cfg, e, vb) == va_index(cfg, e, va));
                    }
                }
                self.lemma_wf_basics(mem0, a0);
                lemma_same_indices_same_page(cfg, va, vb);
            } else {
                assert(!pte_present(mem_entry(mem0, path[n as int], spec_p1_index(vb) as nat)));
            }
        } else {
            let level = cfg.spec_levels()[d as int];
            let idx = level_index(level, vb) as nat;
            lemma_index_bound(vb, level_shift(level));
            if idx != va_index(cfg, d, va) {
                assert(!pte_present(mem_entry(mem0, path[d as int], idx)));
            } else {
                let pe = mem_entry(mem0, path[d as int], path_index(cfg, d, va));
                assert(pte_present(pe) && !pte_huge(pe) && pte_frame(pe, bits) == path[d + 1int]);
                assert forall|e: nat| e < d + 1 implies #[trigger] va_index(cfg, e, vb) == va_index(cfg, e, va) by {
                }
                self.lemma_no_walk_below(mem0, a0, path, s, va, vb, d + 1, tn);
            }
        }
        }
    }

    /// A page `vb` other than `va` keeps its leaf when `unmap` of `va`
    /// clears `va`'s entries at depth `s` and below and frees the tables
    /// under them, which held nothing else: followed from table `t` at
    /// depth `d`.
    pub proof fn lemma_unmap_keep_walk(
        &self,
        mem0: Seq<u64>,
        mem1: Seq<u64>,
        a0: Seq<FrameState>,
        path: Seq<nat>,
        s: nat,
        va: u64,
        vb: u64,
        d: nat,
        t: nat,
        on_path: bool,
        tn: nat,
    )
        requires
            self.wf(mem0, a0),
            mem1.len() == mem0.len(),
            self.owned_path(mem0, path, self.spec_config().spec_levels().len(), va),
            self.path_otherwise_empty(mem0, path, s, va),
            self.changes_below(mem0, mem1, path, s, va),
            s <= self.spec_config().spec_levels().len(),
            vb != va,
            va % 4096 == 0,
            vb % 4096 == 0,
            spec_canonical(va, spec_virtual_address_bits(self.spec_config().spec_mode())),
            spec_canonical(vb, spec_virtual_address_bits(self.spec_config().spec_mode())),
            self.root_index(vb) < self.spec_root_limit(),
            self.root_index(va) < self.spec_root_limit(),
            self.spec_tables().contains_key(t),
            self.spec_tables()[t] == d,
            on_path ==> t == path[d as int] && forall|e: nat| e < d ==> #[trigger] va_index(self.spec_config(), e, vb) == va_index(self.spec_config(), e, va),
            !on_path ==> t != path[d as int],
            spec_unmap_walk(mem0, self.spec_direct_map(), self.spec_config(), d, t, vb) == Ok::<nat, UnmapError>(tn),
            pte_present(mem_entry(mem0, tn, spec_p1_index(vb) as nat)),
        ensures
            spec_unmap_walk(mem1, self.spec_direct_map(), self.spec_config(), d, t, vb) == Ok::<nat, UnmapError>(tn),
            mem_entry(mem1, tn, spec_p1_index(vb) as nat) == mem_entry(mem0, tn, spec_p1_index(vb) as nat),
        decreases self.spec_config().spec_levels().len() - d,
    {
        reveal(PageTable::wf);
        let cfg = self.spec_config();
        let bits = cfg.spec_bits();
        let n = cfg.spec_levels().len();
        let tables = self.spec_tables();
        assert(self.table_ok(mem0, a0, t));
        if d >= n {
            lemma_index_bound(vb, 12);
            let i = spec_p1_index(vb) as nat;
            if mem_entry(mem1, t, i) != mem_entry(mem0, t, i) {
                assert(tables[t] >= s && t == path[tables[t] as int] && i == va_index(cfg, tables[t], va));
                if on_path {
                    assert forall|e: nat| e <= n implies #[trigger] va_index(cfg, e, va) == va_index(cfg, e, vb) by {
                        if e < d {
                            assert(va_index(cfg, e, vb) == va_index(cfg, e, va));
                        }
                    }
                    lemma_same_indices_same_page(cfg, va, vb);
                }
            }
        } else {
            let level = cfg.spec_levels()[d as int];
            let idx = level_index(level, vb) as nat;
            lemma_index_bound(vb, level_shift(level));
            let e0 = mem_entry(mem0, t, idx);
            let e1 = mem_entry(mem1, t, idx);
            assert(pte_present(e0) && !pte_huge(e0));
            let c = pte_frame(e0, bits);
            if t == self.spec_root() {
                assert(d == 0) by {
                    if d != 0 {
                        assert(tables[t] == 0);
                    }
                }
            }
            assert(idx < self.entry_limit(t));
            assert(self.link_ok(mem0, t, idx));
            assert(tables.contains_key(c) && tables[c] == d + 1 && self.spec_parents()[c] == (t, idx));
            let next = spec_unmap_step(mem0, self.spec_direct_map(), cfg, d, t, vb)->Ok_0;
            assert(next == c);
            if on_path && idx == va_index(cfg, d, va) {
                let pe = mem_entry(mem0, path[d as int], path_index(cfg, d, va));
                assert(pte_present(pe) && !pte_huge(pe) && pte_frame(pe, bits) == path[d + 1int]);
                assert forall|e: nat| e < d + 1 implies #[trigger] va_index(cfg, e, vb) == va_index(cfg, e, va) by {
                }
                if d >= s {
                    self.lemma_no_walk_below(mem0, a0, path, s, va, vb, d + 1, tn);
                }
                assert(e1 == e0);
                self.lemma_unmap_keep_walk(mem0, mem1, a0, path, s, va, vb, d + 1, c, true, tn);
            } else {
                assert(e1 == e0);
                assert(tables.contains_key(path[d + 1int]));
                let pe = mem_entry(mem0, path[d as int], path_index(cfg, d, va));
                assert(pte_present(pe) && !pte_huge(pe) && pte_frame(pe, bits) == path[d + 1int]);
                assert(tables.contains_key(path[d as int]));
                if path[d as int] == self.spec_root() {
                    assert(d == 0) by {
                        if d != 0 {
                            assert(tables[path[d as int]] == 0);
                        }
                    }
                }
                lemma_index_bound(va, level_shift(level));
                assert(self.link_ok(mem0, path[d as int], path_index(cfg, d, va)));
                assert(self.spec_parents()[path[d + 1int]] == (path[d as int], path_index(cfg, d, va)));
                self.lemma_unmap_keep_walk(mem0, mem1, a0, path, s, va, vb, d + 1, c, false, tn);
            }
        }
    }

    /// When `unmap` of `va` clears `va`'s entries at depth `s` and below,
    /// freeing tables that held nothing else, every other mapped page (in
    /// the part the hierarchy owns) keeps its frame.
    pub proof fn lemma_unmap_keep_mapping(
        &self,
        new: PageTable,
        mem0: Seq<u64>,
        mem1: Seq<u64>,
        a0: Seq<FrameState>,
        path: Seq<nat>,
        s: nat,
        va: u64,
        vb: u64,
    )
        requires
            self.wf(mem0, a0),
            new.spec_config() == self.spec_config(),
            new.spec_root() == self.spec_root(),
            new.spec_direct_map() == self.spec_direct_map(),
            mem1.len() == mem0.len(),
            self.owned_path(mem0, path, self.spec_config().spec_levels().len(), va),
            self.path_otherwise_empty(mem0, path, s, va),
            self.changes_below(mem0, mem1, path, s, va),
            s <= self.spec_config().spec_levels().len(),
            vb != va,
            va % 4096 == 0,
            spec_canonical(va, spec_virtual_address_bits(self.spec_config().spec_mode())),
            self.root_index(vb) < self.spec_root_limit(),
            self.root_index(va) < self.spec_root_limit(),
            self.spec_unmap(mem0, vb) is Ok,
        ensures
            new.spec_unmap(mem1, vb) == self.spec_unmap(mem0, vb),
    {
        let cfg = self.spec_config();
        let dm = self.spec_direct_map();
        let tn = spec_unmap_walk(mem0, dm, cfg, 0, self.spec_root(), vb)->Ok_0;
        self.lemma_wf_basics(mem0, a0);
        self.lemma_unmap_keep_walk(mem0, mem1, a0, path, s, va, vb, 0, self.spec_root(), true, tn);
    }
}

impl PageTable {
    /// Memory that agrees on the owned tables gives every page of the
    /// owned part the same `unmap` walk and leaf.
    pub proof fn lemma_owned_same_walk(&self, mem0: Seq<u64>, mem1: Seq<u64>, a0: Seq<FrameState>, vb: u64, d: nat, t: nat, tn: nat)
        requires
            self.wf(mem0, a0),
            mem1.len() == mem0.len(),
            forall|k: nat, j: nat| self.spec_tables().contains_key(k) && j < 512 ==> #[trigger] mem_entry(mem1, k, j) == mem_entry(mem0, k, j),
            self.root_index(vb) < self.spec_root_limit(),
            self.spec_tables().contains_key(t),
            self.spec_tables()[t] == d,
            spec_unmap_walk(mem0, self.spec_direct_map(), self.spec_config(), d, t, vb) == Ok::<nat, UnmapError>(tn),
        ensures
            spec_unmap_walk(mem1, self.spec_direct_map(), self.spec_config(), d, t, vb) == Ok::<nat, UnmapError>(tn),
            self.spec_tables().contains_key(tn),
        decreases self.spec_config().spec_levels().len() - d,
    {
        reveal(PageTable::wf);
        let cfg = self.spec_config();
        let bits = cfg.spec_bits();
        let n = cfg.spec_levels().len();
        let tables = self.spec_tables();
        assert(self.table_ok(mem0, a0, t));
        if d < n {
            let level = cfg.spec_levels()[d as int];
            let idx = level_index(level, vb) as nat;
            lemma_index_bound(vb, level_shift(level));
            let e0 = mem_entry(mem0, t, idx);
            assert(mem_entry(mem1, t, idx) == e0);
            if t == self.spec_root() {
                assert(d == 0) by {
                    if d != 0 {
                        assert(tables[t] == 0);
                    }
                }
            }
            assert(self.link_ok(mem0, t, idx));
            let c = pte_frame(e0, bits);
            assert(tables.contains_key(c) && tables[c] == d + 1);
            self.lemma_owned_same_walk(mem0, mem1, a0, vb, d + 1, c, tn);
        }
    }

    /// Memory that agrees on the owned tables leaves every mapped page of
    /// the owned part as it was.
    pub proof fn lemma_owned_same_unmap(&self, new: PageTable, mem0: Seq<u64>, mem1: Seq<u64>, a0: Seq<FrameState>, vb: u64)
        requires
            self.wf(mem0, a0),
            new.spec_config() == self.spec_config(),
            new.spec_root() == self.spec_root(),
            new.spec_direct_map() == self.spec_direct_map(),
            mem1.len() == mem0.len(),
            forall|k: nat, j: nat| self.spec_tables().contains_key(k) && j < 512 ==> #[trigger] mem_entry(mem1, k, j) == mem_entry(mem0, k, j),
            self.root_index(vb) < self.spec_root_limit(),
            self.spec_unmap(mem0, vb) is Ok,
        ensures
            new.spec_unmap(mem1, vb) == self.spec_unmap(mem0, vb),
    {
        let cfg = self.spec_config();
        let dm = self.spec_direct_map();
        self.lemma_wf_basics(mem0, a0);
        let tn = spec_unmap_walk(mem0, dm, cfg, 0, self.spec_root(), vb)->Ok_0;
        self.lemma_owned_same_walk(mem0, mem1, a0, vb, 0, self.spec_root(), tn);
        self.lemma_owned_allocated(mem0, a0, tn);
        lemma_index_bound(vb, 12);
        assert(mem_entry(mem1, tn, spec_p1_index(vb) as nat) == mem_entry(mem0, tn, spec_p1_index(vb) as nat));
    }

    /// Memory that agrees on the owned tables gives every mapped page of
    /// the owned part the entry it had.
    pub proof fn lemma_owned_same_entry(&self, new: PageTable, mem0: Seq<u64>, mem1: Seq<u64>, a0: Seq<FrameState>, vb: u64)
        requires
            self.wf(mem0, a0),
            new.spec_config() == self.spec_config(),
            new.spec_root() == self.spec_root(),
            new.spec_direct_map() == self.spec_direct_map(),
            mem1.len() == mem0.len(),
            forall|k: nat, j: nat| self.spec_tables().contains_key(k) && j < 512 ==> #[trigger] mem_entry(mem1, k, j) == mem_entry(mem0, k, j),
            self.root_index(vb) < self.spec_root_limit(),
            self.spec_unmap(mem0, vb) is Ok,
        ensures
            spec_mapping_entry(mem1, new.spec_direct_map(), new.spec_config(), new.spec_root(), vb) == spec_mapping_entry(
                mem0,
                self.spec_direct_map(),
                self.spec_config(),
                self.spec_root(),
                vb,
            ),
    {
        let cfg = self.spec_config();
        let dm = self.spec_direct_map();
        self.lemma_wf_basics(mem0, a0);
        let tn = spec_unmap_walk(mem0, dm, cfg, 0, self.spec_root(), vb)->Ok_0;
        self.lemma_owned_same_walk(mem0, mem1, a0, vb, 0, self.spec_root(), tn);
        lemma_index_bound(vb, 12);
        assert(mem_entry(mem1, tn, spec_p1_index(vb) as nat) == mem_entry(mem0, tn, spec_p1_index(vb) as nat));
        lemma_unmap_walk_entry(mem0, dm, cfg, 0, self.spec_root(), vb, tn);
        lemma_unmap_walk_entry(mem1, dm, cfg, 0, self.spec_root(), vb, tn);
    }

    /// A page that can be unmapped is mapped: `map` refuses it.
    pub proof fn lemma_mapped_blocks_map(&self, mem: Seq<u64>, a: Seq<FrameState>, va: u64, d: nat, t: nat)
        requires
            self.wf(mem, a),
            spec_unmap_walk(mem, self.spec_direct_map(), self.spec_config(), d, t, va) is Ok,
        ensures
            spec_map_walk(mem, self.spec_direct_map(), self.spec_config(), d, t, va) == MapWalk::Complete(
                spec_unmap_walk(mem, self.spec_direct_map(), self.spec_config(), d, t, va)->Ok_0,
            ),
        decreases self.spec_config().spec_levels().len() - d,
    {
        let cfg = self.spec_config();
        if d < cfg.spec_levels().len() {
            let c = spec_unmap_step(mem, self.spec_direct_map(), cfg, d, t, va)->Ok_0;
            self.lemma_mapped_blocks_map(mem, a, va, d + 1, c);
        }
    }
}

} // verus!
