//! The decisions the kernel makes on the bootloader's responses: whether the
//! protocol revision is supported, which responses are missing, the layout of
//! the kernel image and the physical memory map.
//!
//! Reading the responses and the linker's section symbols is the caller's
//! part; this module takes what was read as plain values.

use crate::memory::{
    spec_kind_from_boot_type, KernelMemoryLayout, KernelSegment, MemoryRegion, MemoryRegionKind,
    PagePermissions, PhysicalAddr, VirtualAddr,
};
use vstd::prelude::*;

verus! {

/// Why the boot information could not be gathered.
#[derive(Clone, Copy, Debug, PartialEq, Eq, Structural)]
pub enum BootError {
    UnsupportedBaseRevision,
    FailedToGetKernelAddress,
    FailedToGetHHDMAddress,
    FailedToGetMemmap,
    FailedToLocateKernel,
}

/// The executable address response: where the kernel image was loaded, in
/// physical and in virtual memory.
#[derive(Clone, Copy, Debug, PartialEq, Eq, Structural)]
pub struct KernelAddress {
    pub physical_base: u64,
    pub virtual_base: u64,
}

/// The virtual bounds of the kernel's sections, as the linker script
/// places them.
#[derive(Clone, Copy, Debug, PartialEq, Eq, Structural)]
pub struct KernelSections {
    pub text_start: u64,
    pub text_end: u64,
    pub rodata_start: u64,
    pub rodata_end: u64,
    pub data_start: u64,
    pub data_end: u64,
}

/// One entry of the bootloader's memory map.
#[derive(Clone, Copy, Debug, PartialEq, Eq, Structural)]
pub struct MemmapEntry {
    pub base: u64,
    pub length: u64,
    pub entry_type: u64,
}

/// What the kernel keeps of the bootloader's responses.
pub struct BootInfo {
    pub kernel_layout: KernelMemoryLayout,
    pub hhdm_offset: u64,
    entries: Vec<MemmapEntry>,
}

/// The memory region that a memory map entry describes.
pub open spec fn spec_region(entry: MemmapEntry) -> MemoryRegion {
    MemoryRegion {
        start: PhysicalAddr(entry.base),
        length: entry.length,
        kind: spec_kind_from_boot_type(entry.entry_type),
    }
}

impl BootInfo {
    /// The memory map entries, in the bootloader's order.
    pub closed spec fn spec_entries(&self) -> Seq<MemmapEntry> {
        self.entries@
    }

    /// The direct-map offset.
    pub closed spec fn spec_hhdm_offset(&self) -> u64 {
        self.hhdm_offset
    }

    /// The kernel image's layout.
    pub closed spec fn spec_kernel_layout(&self) -> KernelMemoryLayout {
        self.kernel_layout
    }

    /// The physical memory map: one region per entry, in the bootloader's
    /// order, with the entry's type code read as a region kind.
    pub fn memory_regions(&self) -> (r: Vec<MemoryRegion>)
        ensures
            r@.len() == self.spec_entries().len(),
            forall|i: int|
                0 <= i < r@.len() ==> #[trigger] r@[i] == spec_region(self.spec_entries()[i]),
    {
        let mut regions: Vec<MemoryRegion> = Vec::new();
        let mut i: usize = 0;
        while i < self.entries.len()
            invariant
                i <= self.entries@.len(),
                regions@.len() == i,
                forall|j: int| 0 <= j < i ==> #[trigger] regions@[j] == spec_region(self.entries@[j]),
            decreases self.entries@.len() - i,
        {
            let entry = self.entries[i];
            regions.push(
                MemoryRegion {
                    start: PhysicalAddr::new(entry.base),
                    length: entry.length,
                    kind: MemoryRegionKind::from_boot_type(entry.entry_type),
                },
            );
            i = i + 1;
        }
        regions
    }
}

/// The physical address of a section that starts at virtual address `start`,
/// at the same offset from the image's physical base as from its virtual base.
pub open spec fn spec_section_physical(kernel: KernelAddress, start: u64) -> int {
    kernel.physical_base + (start - kernel.virtual_base)
}

/// The section bounds are ordered and every section's physical address is a
/// machine word.
pub open spec fn sections_fit(kernel: KernelAddress, sections: KernelSections) -> bool {
    &&& sections.text_start <= sections.text_end
    &&& sections.rodata_start <= sections.rodata_end
    &&& sections.data_start <= sections.data_end
    &&& kernel.virtual_base <= sections.rodata_start
    &&& kernel.virtual_base <= sections.data_start
    &&& spec_section_physical(kernel, sections.rodata_start) <= u64::MAX
    &&& spec_section_physical(kernel, sections.data_start) <= u64::MAX
}

/// A kernel segment with the given placement and rights.
pub open spec fn spec_segment(
    physical: int,
    start: u64,
    end: u64,
    writable: bool,
    executable: bool,
) -> KernelSegment {
    KernelSegment {
        physical_base: PhysicalAddr(physical as u64),
        virtual_base: VirtualAddr(start),
        length: (end - start) as u64,
        permissions: PagePermissions { writable, executable, user_accessible: false },
    }
}

/// The text segment is executable and read-only and starts at the image's
/// physical base; read-only data is neither writable nor executable; data is
/// writable. None is open to user mode.
pub open spec fn spec_kernel_layout_ok(
    layout: KernelMemoryLayout,
    kernel: KernelAddress,
    sections: KernelSections,
) -> bool {
    &&& layout.segments[0] == spec_segment(
        kernel.physical_base as int,
        sections.text_start,
        sections.text_end,
        false,
        true,
    )
    &&& layout.segments[1] == spec_segment(
        spec_section_physical(kernel, sections.rodata_start),
        sections.rodata_start,
        sections.rodata_end,
        false,
        false,
    )
    &&& layout.segments[2] == spec_segment(
        spec_section_physical(kernel, sections.data_start),
        sections.data_start,
        sections.data_end,
        true,
        false,
    )
}

/// Gathers the boot information from the bootloader's responses: the base
/// revision check first, then the executable address, the direct-map offset
/// and the memory map, each refused with its own error when missing. The
/// kernel's three segments are placed from the section bounds.
pub fn load_boot_info(
    base_revision_supported: bool,
    kernel_address: Option<KernelAddress>,
    hhdm_offset: Option<u64>,
    memmap: Option<Vec<MemmapEntry>>,
    sections: KernelSections,
) -> (r: Result<BootInfo, BootError>)
    requires
        base_revision_supported && hhdm_offset is Some && memmap is Some ==> (
        kernel_address matches Some(kernel) ==> sections_fit(kernel, sections)),
    ensures
        !base_revision_supported ==> r == Err::<BootInfo, BootError>(BootError::UnsupportedBaseRevision),
        base_revision_supported && kernel_address is None ==> r == Err::<BootInfo, BootError>(
            BootError::FailedToGetKernelAddress,
        ),
        base_revision_supported && kernel_address is Some && hhdm_offset is None ==> r == Err::<
            BootInfo,
            BootError,
        >(BootError::FailedToGetHHDMAddress),
        base_revision_supported && kernel_address is Some && hhdm_offset is Some && memmap is None
            ==> r == Err::<BootInfo, BootError>(BootError::FailedToGetMemmap),
        base_revision_supported && kernel_address is Some && hhdm_offset is Some && memmap is Some
            ==> r is Ok,
        r matches Ok(info) ==> {
            &&& kernel_address matches Some(kernel)
            &&& hhdm_offset == Some(info.spec_hhdm_offset())
            &&& memmap matches Some(entries)
            &&& info.spec_entries() == entries@
            &&& spec_kernel_layout_ok(info.spec_kernel_layout(), kernel, sections)
        },
{
    if !base_revision_supported {
        return Err(BootError::UnsupportedBaseRevision);
    }
    let kernel = match kernel_address {
        Some(kernel) => kernel,
        None => return Err(BootError::FailedToGetKernelAddress),
    };
    let offset = match hhdm_offset {
        Some(offset) => offset,
        None => return Err(BootError::FailedToGetHHDMAddress),
    };
    let entries = match memmap {
        Some(entries) => entries,
        None => return Err(BootError::FailedToGetMemmap),
    };

    let text = KernelSegment {
        physical_base: PhysicalAddr::new(kernel.physical_base),
        virtual_base: VirtualAddr::new(sections.text_start),
        length: sections.text_end - sections.text_start,
        permissions: PagePermissions::new(false, true, false),
    };
    let rodata = KernelSegment {
        physical_base: PhysicalAddr::new(
            kernel.physical_base + (sections.rodata_start - kernel.virtual_base),
        ),
        virtual_base: VirtualAddr::new(sections.rodata_start),
        length: sections.rodata_end - sections.rodata_start,
        permissions: PagePermissions::new(false, false, false),
    };
    let data = KernelSegment {
        physical_base: PhysicalAddr::new(
            kernel.physical_base + (sections.data_start - kernel.virtual_base),
        ),
        virtual_base: VirtualAddr::new(sections.data_start),
        length: sections.data_end - sections.data_start,
        permissions: PagePermissions::new(true, false, false),
    };

    Ok(
        BootInfo {
            kernel_layout: KernelMemoryLayout { segments: [text, rodata, data] },
            hhdm_offset: offset,
            entries,
        },
    )
}

} // verus!
