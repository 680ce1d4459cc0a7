//! Physical and virtual addresses, memory regions and the direct map.

pub mod address_space;
pub mod frame;
pub mod phys;
pub mod stack;
pub mod user;

pub use frame::{FRAME_SIZE, FrameAddr, FrameAllocator, FrameAllocatorInitError, FrameState, OwnedFrame};
pub use phys::PhysicalMemory;

use vstd::prelude::*;

verus! {

/// The number of memory regions that a [`MemoryMap`] can hold.
pub const MAX_MEMORY_REGIONS: usize = 128;

/// One segment of the kernel image: where it lies in physical memory, where
/// it is mapped, and with which permissions.
pub struct KernelSegment {
    pub physical_base: PhysicalAddr,
    pub virtual_base: VirtualAddr,
    pub length: u64,
    pub permissions: PagePermissions,
}

/// The kernel image's text, read-only data and data segments.
pub struct KernelMemoryLayout {
    pub segments: [KernelSegment; 3],
}

/// Access rights of a mapped page.
#[derive(Clone, Copy, Debug, PartialEq, Eq, Structural)]
pub struct PagePermissions {
    pub writable: bool,
    pub executable: bool,
    pub user_accessible: bool,
}

impl PagePermissions {
    pub fn new(writable: bool, executable: bool, user_accessible: bool) -> (r: Self)
        ensures
            r.writable == writable,
            r.executable == executable,
            r.user_accessible == user_accessible,
    {
        Self { writable, executable, user_accessible }
    }
}

/// A physical address. On the kernel's target a machine word is 64 bits
/// wide, so addresses are held as `u64`.
#[derive(Clone, Copy, Debug, PartialEq, Eq, Structural)]
pub struct PhysicalAddr(pub u64);

impl PhysicalAddr {
    pub fn new(addr: u64) -> (r: Self)
        ensures
            r.0 == addr,
    {
        Self(addr)
    }

    /// The address as a machine word.
    pub fn as_usize(self) -> (r: u64)
        ensures
            r == self.0,
    {
        self.0
    }
}

/// A virtual address, held as a 64-bit machine word.
#[derive(Clone, Copy, Debug, PartialEq, Eq, Structural)]
pub struct VirtualAddr(pub u64);

impl VirtualAddr {
    pub fn new(addr: u64) -> (r: Self)
        ensures
            r.0 == addr,
    {
        Self(addr)
    }

    /// The address as a machine word.
    pub fn as_usize(self) -> (r: u64)
        ensures
            r == self.0,
    {
        self.0
    }
}

/// The kind of a region of the boot memory map.
#[derive(Clone, Copy, Debug, PartialEq, Eq, Structural)]
pub enum MemoryRegionKind {
    Usable,
    Reserved,
    AcpiReclaimable,
    AcpiNvs,
    BadMemory,
    BootloaderReclaimable,
    KernelAndModules,
    Framebuffer,
    MappedReserved,
}

/// The spec-level reading of a Limine memory map entry type code.
pub open spec fn spec_kind_from_boot_type(entry_type: u64) -> MemoryRegionKind {
    if entry_type == 0 {
        MemoryRegionKind::Usable
    } else if entry_type == 2 {
        MemoryRegionKind::AcpiReclaimable
    } else if entry_type == 3 {
        MemoryRegionKind::AcpiNvs
    } else if entry_type == 4 {
        MemoryRegionKind::BadMemory
    } else if entry_type == 5 {
        MemoryRegionKind::BootloaderReclaimable
    } else if entry_type == 6 {
        MemoryRegionKind::KernelAndModules
    } else if entry_type == 7 {
        MemoryRegionKind::Framebuffer
    } else if entry_type == 8 {
        MemoryRegionKind::MappedReserved
    } else {
        MemoryRegionKind::Reserved
    }
}

impl MemoryRegionKind {
    /// Reads a Limine memory map entry type code (usable 0, reserved 1, ACPI
    /// reclaimable 2, ACPI NVS 3, bad memory 4, bootloader reclaimable 5,
    /// executable and modules 6, framebuffer 7, mapped reserved 8); an
    /// unknown code is treated as reserved.
    pub fn from_boot_type(entry_type: u64) -> (r: Self)
        ensures
            r == spec_kind_from_boot_type(entry_type),
    {
        if entry_type == 0 {
            MemoryRegionKind::Usable
        } else if entry_type == 2 {
            MemoryRegionKind::AcpiReclaimable
        } else if entry_type == 3 {
            MemoryRegionKind::AcpiNvs
        } else if entry_type == 4 {
            MemoryRegionKind::BadMemory
        } else if entry_type == 5 {
            MemoryRegionKind::BootloaderReclaimable
        } else if entry_type == 6 {
            MemoryRegionKind::KernelAndModules
        } else if entry_type == 7 {
            MemoryRegionKind::Framebuffer
        } else if entry_type == 8 {
            MemoryRegionKind::MappedReserved
        } else {
            MemoryRegionKind::Reserved
        }
    }
}

/// How the processor may cache a mapping.
#[derive(Clone, Copy, Debug, PartialEq, Eq, Structural)]
pub enum CachePolicy {
    Uncacheable,
    WriteBack,
}

/// A region of the boot memory map.
#[derive(Clone, Copy, Debug, PartialEq, Eq, Structural)]
pub struct MemoryRegion {
    pub start: PhysicalAddr,
    pub length: u64,
    pub kind: MemoryRegionKind,
}

/// The higher-half direct map: every physical address `p` is also visible at
/// virtual address `p + offset`.
#[derive(Debug, Clone, Copy)]
pub struct DirectMap {
    offset: u64,
}

impl DirectMap {
    /// The offset of the direct map.
    pub closed spec fn spec_offset(self) -> u64 {
        self.offset
    }

    /// The virtual address at which the direct map shows `addr`, if it is
    /// representable.
    pub open spec fn spec_translate(self, addr: u64) -> Option<VirtualAddr> {
        if addr + self.spec_offset() <= u64::MAX {
            Some(VirtualAddr((addr + self.spec_offset()) as u64))
        } else {
            None
        }
    }

    pub fn new(offset: u64) -> (r: Self)
        ensures
            r.spec_offset() == offset,
    {
        Self { offset }
    }

    /// The offset of the direct map.
    pub fn offset(self) -> (r: u64)
        ensures
            r == self.spec_offset(),
    {
        self.offset
    }

    pub fn translate(self, addr: PhysicalAddr) -> (r: Option<VirtualAddr>)
        ensures
            r == self.spec_translate(addr.0),
    {
        match addr.0.checked_add(self.offset) {
            Some(v) => Some(VirtualAddr::new(v)),
            None => None,
        }
    }
}

/// The error of a [`MemoryMap`] that is full.
#[derive(Debug, PartialEq, Eq, Structural)]
pub enum MemoryMapError {
    TooManyRegions,
}

/// A memory map of at most [`MAX_MEMORY_REGIONS`] regions.
pub struct MemoryMap {
    entries: Vec<MemoryRegion>,
}

impl View for MemoryMap {
    type V = Seq<MemoryRegion>;

    closed spec fn view(&self) -> Seq<MemoryRegion> {
        self.entries@
    }
}

impl MemoryMap {
    pub closed spec fn wf(&self) -> bool {
        self.entries.len() <= MAX_MEMORY_REGIONS
    }

    pub fn new() -> (r: Self)
        ensures
            r.wf(),
            r@ == Seq::<MemoryRegion>::empty(),
    {
        Self { entries: Vec::new() }
    }

    /// Appends a region; a full map refuses it and stays as it was.
    pub fn push(&mut self, entry: MemoryRegion) -> (r: Result<(), MemoryMapError>)
        requires
            old(self).wf(),
        ensures
            final(self).wf(),
            old(self)@.len() >= MAX_MEMORY_REGIONS ==> r == Err::<(), MemoryMapError>(
                MemoryMapError::TooManyRegions,
            ) && final(self)@ == old(self)@,
            old(self)@.len() < MAX_MEMORY_REGIONS ==> r is Ok && final(self)@ == old(self)@.push(
                entry,
            ),
    {
        if self.entries.len() >= MAX_MEMORY_REGIONS {
            return Err(MemoryMapError::TooManyRegions);
        }
        self.entries.push(entry);
        Ok(())
    }

    /// The regions, in the order in which they were pushed.
    pub fn iter(&self) -> (r: &[MemoryRegion])
        ensures
            r@ == self@,
    {
        self.entries.as_slice()
    }
}

} // verus!
