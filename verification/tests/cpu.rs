use dusk::arch::cpu::{check_features, ArchState, CpuFeaturesError};
use dusk::arch::paging::{CpuFeatures, PagingMode};

const SYSCALL: u32 = 1 << 11;
const NX: u32 = 1 << 20;
const MSR: u32 = 1 << 5;
const PGE: u32 = 1 << 13;
const LA57: u64 = 1 << 12;

#[test]
fn cpu_features_are_read_from_the_leaves() {
    let r = check_features(0x8000_0008, SYSCALL | NX, 48 << 8 | 40, 0, MSR | PGE);
    assert_eq!(
        r,
        Ok(CpuFeatures {
            nx_supported: true,
            nx_enabled: false,
            global_pages: true,
            physical_address_bits: 40,
            virtual_address_bits: 48,
            five_level_paging_active: false,
        })
    );
}

#[test]
fn cpu_features_need_the_extended_leaves() {
    assert_eq!(check_features(0x8000_0007, SYSCALL, 48 << 8 | 40, 0, 0), Err(CpuFeaturesError::CpuidFeaturesNotSupported));
}

#[test]
fn cpu_features_need_syscall() {
    assert_eq!(check_features(0x8000_0008, 0, 48 << 8 | 40, 0, 0), Err(CpuFeaturesError::SyscallNotSupported));
}

#[test]
fn cpu_features_check_the_physical_width() {
    assert_eq!(check_features(0x8000_0008, SYSCALL, 48 << 8 | 11, 0, 0), Err(CpuFeaturesError::InvalidPhysicalAddressWidth));
    assert_eq!(check_features(0x8000_0008, SYSCALL, 48 << 8 | 53, 0, 0), Err(CpuFeaturesError::InvalidPhysicalAddressWidth));
    assert!(check_features(0x8000_0008, SYSCALL, 48 << 8 | 52, 0, 0).is_ok());
}

#[test]
fn cpu_features_need_57_virtual_bits_with_five_levels() {
    assert_eq!(check_features(0x8000_0008, SYSCALL, 48 << 8 | 40, LA57, 0), Err(CpuFeaturesError::InvalidVirtualAddressWidth));
    assert_eq!(check_features(0x8000_0008, SYSCALL, 47 << 8 | 40, 0, 0), Err(CpuFeaturesError::InvalidVirtualAddressWidth));
    let r = check_features(0x8000_0008, SYSCALL, 57 << 8 | 40, LA57, 0).unwrap();
    assert!(r.five_level_paging_active);
    assert!(!r.nx_supported && !r.global_pages);
}

#[test]
fn cpu_features_with_nx_need_msrs() {
    assert_eq!(check_features(0x8000_0008, SYSCALL | NX, 48 << 8 | 40, 0, 0), Err(CpuFeaturesError::CpuidFeaturesNotSupported));
}

#[test]
fn the_arch_state_lays_out_paging_for_the_features_found() {
    let f = check_features(0x8000_0008, SYSCALL, 57 << 8 | 40, LA57, 0).unwrap();
    let state = ArchState::from_features(f);
    assert_eq!(state.paging.mode(), PagingMode::FiveLevel);
    assert_eq!(state.paging.physical_address_limit(), 1 << 40);
    let f = check_features(0x8000_0008, SYSCALL, 48 << 8 | 36, 0, 0).unwrap();
    assert_eq!(ArchState::from_features(f).paging.mode(), PagingMode::FourLevel);
    assert_eq!(ArchState::from_features(f).paging.physical_address_limit(), 1 << 36);
}
