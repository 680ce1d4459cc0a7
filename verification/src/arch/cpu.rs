//! What the processor must support: the checks on the CPUID leaves and
//! control register that paging and system calls depend on. Reading CPUID
//! and writing the model-specific registers is the caller's.

use vstd::prelude::*;

use crate::arch::paging::{CpuFeatures, PagingConfig, PagingMode};

verus! {

/// Why the processor cannot run the kernel.
#[derive(Clone, Copy, Debug, PartialEq, Eq, Structural)]
pub enum CpuFeaturesError {
    CpuidFeaturesNotSupported,
    SyscallNotSupported,
    InvalidPhysicalAddressWidth,
    InvalidVirtualAddressWidth,
}

/// The per-processor block that the system-call entry reads through GS:
/// the kernel stack to switch to, a place for the user stack pointer, and
/// the processor's number.
pub struct CpuLocal {
    pub kernel_stack_top: u64,
    pub user_rsp_scratch: u64,
    pub cpu_id: u32,
}

/// What the processor's CPUID leaves and CR4 say: the highest extended leaf
/// (from leaf 0x80000000), EDX of leaf 0x80000001, EAX of leaf 0x80000008,
/// CR4, and EDX of leaf 1. The extended leaves up to 0x80000008 and the
/// SYSCALL instruction (bit 11) are needed; the physical address width
/// (bits 0-7) must lie in 12..=52 and the virtual one (bits 8-15) reach 48,
/// or 57 with five-level paging (CR4 bit 12); with NX (bit 20) the MSRs
/// (leaf 1 bit 5) are needed to turn it on; global pages are leaf 1 bit 13.
/// NX is reported as supported but not yet enabled.
pub open spec fn spec_check_features(
    max_extended_leaf: u32,
    extended_edx: u32,
    address_sizes: u32,
    cr4: u64,
    features_edx: u32,
) -> Result<CpuFeatures, CpuFeaturesError> {
    let nx = extended_edx & 0x10_0000u32 != 0;
    let physical = (address_sizes & 0xffu32) as u8;
    let virtual_bits = ((address_sizes >> 8u32) & 0xffu32) as u8;
    let five_level = cr4 & 0x1000u64 != 0;
    if max_extended_leaf < 0x8000_0008 {
        Err(CpuFeaturesError::CpuidFeaturesNotSupported)
    } else if extended_edx & 0x800u32 == 0 {
        Err(CpuFeaturesError::SyscallNotSupported)
    } else if !(12 <= physical <= 52) {
        Err(CpuFeaturesError::InvalidPhysicalAddressWidth)
    } else if virtual_bits < (if five_level { 57u8 } else { 48u8 }) {
        Err(CpuFeaturesError::InvalidVirtualAddressWidth)
    } else if nx && features_edx & 0x20u32 == 0 {
        Err(CpuFeaturesError::CpuidFeaturesNotSupported)
    } else {
        Ok(CpuFeatures {
            nx_supported: nx,
            nx_enabled: false,
            global_pages: features_edx & 0x2000u32 != 0,
            physical_address_bits: physical,
            virtual_address_bits: virtual_bits,
            five_level_paging_active: five_level,
        })
    }
}

/// Checks the processor's CPUID leaves and CR4 and reads its features.
pub fn check_features(max_extended_leaf: u32, extended_edx: u32, address_sizes: u32, cr4: u64, features_edx: u32) -> (r: Result<
    CpuFeatures,
    CpuFeaturesError,
>)
    ensures
        r == spec_check_features(max_extended_leaf, extended_edx, address_sizes, cr4, features_edx),
{
    if max_extended_leaf < 0x8000_0008 {
        return Err(CpuFeaturesError::CpuidFeaturesNotSupported);
    }
    let nx = extended_edx & 0x10_0000 != 0;
    if extended_edx & 0x800 == 0 {
        return Err(CpuFeaturesError::SyscallNotSupported);
    }
    let physical = (address_sizes & 0xff) as u8;
    if physical < 12 || physical > 52 {
        return Err(CpuFeaturesError::InvalidPhysicalAddressWidth);
    }
    let virtual_bits = ((address_sizes >> 8) & 0xff) as u8;
    let five_level = cr4 & 0x1000 != 0;
    let required: u8 = if five_level {
        57
    } else {
        48
    };
    if virtual_bits < required {
        return Err(CpuFeaturesError::InvalidVirtualAddressWidth);
    }
    if nx && features_edx & 0x20 == 0 {
        return Err(CpuFeaturesError::CpuidFeaturesNotSupported);
    }
    Ok(CpuFeatures {
        nx_supported: nx,
        nx_enabled: false,
        global_pages: features_edx & 0x2000 != 0,
        physical_address_bits: physical,
        virtual_address_bits: virtual_bits,
        five_level_paging_active: five_level,
    })
}

/// What the architecture's start-up leaves for the rest of the kernel: how
/// page tables are laid out on this processor.
pub struct ArchState {
    pub paging: PagingConfig,
}

impl ArchState {
    /// The state for a processor whose features passed
    /// [`check_features`] (whose physical address width is at most 52).
    pub fn from_features(features: CpuFeatures) -> (r: Self)
        requires
            features.physical_address_bits < 64,
        ensures
            r.paging.wf(),
            r.paging.spec_bits() == features.physical_address_bits,
            r.paging.spec_nx_enabled() == features.nx_enabled,
            r.paging.spec_global_pages() == features.global_pages,
            r.paging.spec_mode() == if features.five_level_paging_active {
                PagingMode::FiveLevel
            } else {
                PagingMode::FourLevel
            },
    {
        ArchState { paging: PagingConfig::from_features(features) }
    }
}

/// EFER's system-call enable bit (0) and no-execute enable bit (11), and
/// CR4's global-pages enable bit (7).
pub const EFER_SCE: u64 = 0x1;
pub const EFER_NXE: u64 = 0x800;
pub const CR4_PGE: u64 = 0x80;

/// What the checks turn on, given what EFER and CR4 read: EFER with system
/// calls enabled (done once SYSCALL is known to be there) and, where NX is
/// supported, no-execute enabled; CR4 with global pages enabled, where they
/// are supported (`None`: CR4 is not written).
pub fn enable_writes(features: CpuFeatures, efer: u64, cr4: u64) -> (r: (u64, Option<u64>))
    ensures
        r.0 == if features.nx_supported {
            efer | EFER_SCE | EFER_NXE
        } else {
            efer | EFER_SCE
        },
        r.1 == if features.global_pages {
            Some(cr4 | CR4_PGE)
        } else {
            None::<u64>
        },
{
    let e = if features.nx_supported {
        efer | EFER_SCE | EFER_NXE
    } else {
        efer | EFER_SCE
    };
    let c = if features.global_pages {
        Some(cr4 | CR4_PGE)
    } else {
        None
    };
    (e, c)
}

/// The features once NX is turned on: NX is enabled when EFER, read back,
/// has its no-execute bit.
pub fn with_nx_state(features: CpuFeatures, efer_read_back: u64) -> (r: CpuFeatures)
    ensures
        r == (CpuFeatures { nx_enabled: features.nx_supported && efer_read_back & EFER_NXE != 0, ..features }),
{
    CpuFeatures { nx_enabled: features.nx_supported && efer_read_back & EFER_NXE != 0, ..features }
}

} // verus!
