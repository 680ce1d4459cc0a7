//! The local APIC: the checks on the APIC base register at start-up, how
//! its identification register reads in each access mode, where each
//! register lives, and the register writes that set it up, run its timer
//! and send an interrupt to itself. Performing the accesses is the
//! caller's.

use vstd::prelude::*;

use crate::memory::address_space::{AddressSpace, MapError};
use crate::memory::{CachePolicy, FrameAllocator, PagePermissions, PhysicalAddr, PhysicalMemory, VirtualAddr};

verus! {

/// Where the kernel maps the local APIC's registers in xAPIC mode.
pub const LOCAL_APIC_VIRTUAL_ADDRESS: u64 = 0xFFFF_FFFD_0000_0000;

/// The base register's bit that marks the bootstrap processor.
pub const APIC_BASE_BSP: u64 = 0x100;

/// The base register's bit that turns on x2APIC mode.
pub const APIC_BASE_X2APIC_ENABLE: u64 = 0x400;

/// The base register's bit that enables the APIC.
pub const APIC_BASE_GLOBAL_ENABLE: u64 = 0x800;

/// The base register's address field.
pub const APIC_BASE_ADDRESS_MASK: u64 = 0x000F_FFFF_FFFF_F000;

/// Register offsets in the local APIC's register page.
pub const APIC_ID: u32 = 0x20;
pub const APIC_VERSION: u32 = 0x30;
pub const APIC_TPR: u32 = 0x80;
pub const APIC_EOI: u32 = 0xB0;
pub const APIC_SVR: u32 = 0xF0;
pub const APIC_ESR: u32 = 0x280;
pub const APIC_ICR1: u32 = 0x300;
pub const APIC_LVT_TIMER: u32 = 0x320;
pub const APIC_LVT_ERROR: u32 = 0x370;
pub const APIC_TIMER_INITIAL_COUNT: u32 = 0x380;
pub const APIC_TIMER_CURRENT_COUNT: u32 = 0x390;
pub const X2APIC_SELF_IPI: u32 = 0x3F0;
pub const APIC_TIMER_DIVIDE_CONFIG: u32 = 0x3E0;

/// A local vector table entry's mask bit.
pub const APIC_LVT_MASKED: u64 = 0x1_0000;

/// The vectors of the local APIC's own interrupts and of the PIT.
pub const PIT_CALIBRATION_VECTOR: u8 = 0xF1;
pub const APIC_TIMER_VECTOR: u8 = 0xFD;
pub const APIC_ERROR_VECTOR: u8 = 0xFE;
pub const APIC_SPURIOUS_VECTOR: u8 = 0xFF;

/// Why the local APIC could not be set up or used.
#[derive(Clone, Copy, Debug, PartialEq, Eq, Structural)]
pub enum LocalApicError {
    AddressMismatch,
    ApicDisabled,
    TimerTestFailed,
    FailedToMapApic,
    FailedToSendSelfIpi,
    NotBootSystemProcessor,
}

/// How the local APIC's registers are reached: through memory (xAPIC) or
/// through model-specific registers (x2APIC).
#[derive(Clone, Copy, Debug, PartialEq, Eq, Structural)]
pub enum LocalApicAccess {
    XApic,
    X2Apic,
}

/// The local APIC of the processor: its id and how it is reached.
#[derive(Clone, Copy, Debug, PartialEq, Eq, Structural)]
pub struct LocalApic {
    id: u32,
    access: LocalApicAccess,
}

/// What the APIC base register `apic_base` says, given the address the
/// MADT gives: the access mode, or why the APIC cannot be used.
pub open spec fn spec_check_apic_base(apic_base: u64, local_apic_address: u64) -> Result<LocalApicAccess, LocalApicError> {
    if apic_base & APIC_BASE_ADDRESS_MASK != local_apic_address {
        Err(LocalApicError::AddressMismatch)
    } else if apic_base & APIC_BASE_GLOBAL_ENABLE == 0 {
        Err(LocalApicError::ApicDisabled)
    } else if apic_base & APIC_BASE_BSP == 0 {
        Err(LocalApicError::NotBootSystemProcessor)
    } else if apic_base & APIC_BASE_X2APIC_ENABLE != 0 {
        Ok(LocalApicAccess::X2Apic)
    } else {
        Ok(LocalApicAccess::XApic)
    }
}

/// Checks the APIC base register against the MADT's address and reads the
/// access mode.
pub fn check_apic_base(apic_base: u64, local_apic_address: PhysicalAddr) -> (r: Result<LocalApicAccess, LocalApicError>)
    ensures
        r == spec_check_apic_base(apic_base, local_apic_address.0),
{
    if apic_base & APIC_BASE_ADDRESS_MASK != local_apic_address.0 {
        return Err(LocalApicError::AddressMismatch);
    }
    if apic_base & APIC_BASE_GLOBAL_ENABLE == 0 {
        return Err(LocalApicError::ApicDisabled);
    }
    if apic_base & APIC_BASE_BSP == 0 {
        return Err(LocalApicError::NotBootSystemProcessor);
    }
    if apic_base & APIC_BASE_X2APIC_ENABLE != 0 {
        Ok(LocalApicAccess::X2Apic)
    } else {
        Ok(LocalApicAccess::XApic)
    }
}

impl LocalApic {
    pub closed spec fn spec_id(&self) -> u32 {
        self.id
    }

    pub closed spec fn spec_access(&self) -> LocalApicAccess {
        self.access
    }

    /// Checks the APIC base register and, in xAPIC mode, maps the registers
    /// at [`LOCAL_APIC_VIRTUAL_ADDRESS`] (writable, uncacheable, kernel
    /// only), which succeeds whenever the address space can map the page.
    /// Returns the access mode.
    pub fn init(
        local_apic_address: PhysicalAddr,
        apic_base: u64,
        mem: &mut PhysicalMemory,
        allocator: &mut FrameAllocator,
        address_space: &mut AddressSpace,
    ) -> (r: Result<LocalApicAccess, LocalApicError>)
        requires
            old(address_space).wf(old(mem)@, old(allocator)@),
            old(allocator).wf(),
            old(allocator).backed_by(old(mem)@),
        ensures
            final(allocator).wf(),
            final(allocator).backed_by(final(mem)@),
            final(address_space).wf(final(mem)@, final(allocator)@),
            final(address_space).spec_kind() == old(address_space).spec_kind(),
            match spec_check_apic_base(apic_base, local_apic_address.0) {
                Err(e) => r == Err::<LocalApicAccess, LocalApicError>(e) && final(mem)@ == old(mem)@ && final(allocator)@ == old(
                    allocator,
                )@,
                Ok(LocalApicAccess::X2Apic) => r == Ok::<LocalApicAccess, LocalApicError>(LocalApicAccess::X2Apic) && final(mem)@
                    == old(mem)@ && final(allocator)@ == old(allocator)@,
                Ok(LocalApicAccess::XApic) => {
                    &&& r is Ok ==> r == Ok::<LocalApicAccess, LocalApicError>(LocalApicAccess::XApic) && final(address_space).translate(
                        final(mem)@,
                        LOCAL_APIC_VIRTUAL_ADDRESS,
                    ) == Some(local_apic_address.0)
                    &&& r is Err ==> r == Err::<LocalApicAccess, LocalApicError>(LocalApicError::FailedToMapApic)
                    &&& old(address_space).spec_map_succeeds(
                        old(mem)@,
                        old(allocator)@,
                        local_apic_address.0,
                        LOCAL_APIC_VIRTUAL_ADDRESS,
                        PagePermissions { writable: true, executable: false, user_accessible: false },
                        CachePolicy::Uncacheable,
                    ) ==> r is Ok
                },
            },
    {
        let access = match check_apic_base(apic_base, local_apic_address) {
            Ok(a) => a,
            Err(e) => return Err(e),
        };
        match access {
            LocalApicAccess::X2Apic => Ok(access),
            LocalApicAccess::XApic => {
                let mapped: Result<(), MapError> = address_space.map(
                    mem,
                    local_apic_address,
                    VirtualAddr::new(LOCAL_APIC_VIRTUAL_ADDRESS),
                    PagePermissions::new(true, false, false),
                    allocator,
                    CachePolicy::Uncacheable,
                );
                match mapped {
                    Ok(()) => Ok(access),
                    Err(_) => Err(LocalApicError::FailedToMapApic),
                }
            },
        }
    }

    /// The local APIC reached by `access` whose identification register
    /// reads `raw_id`: the id is its top byte in xAPIC mode and the whole
    /// register in x2APIC mode.
    pub fn from_id_register(access: LocalApicAccess, raw_id: u64) -> (r: Self)
        ensures
            r.spec_access() == access,
            r.spec_id() == match access {
                LocalApicAccess::XApic => (raw_id >> 24u64) as u32,
                LocalApicAccess::X2Apic => raw_id as u32,
            },
    {
        let id = match access {
            LocalApicAccess::XApic => (raw_id >> 24) as u32,
            LocalApicAccess::X2Apic => raw_id as u32,
        };
        LocalApic { id, access }
    }

    /// The APIC's id.
    pub fn id(&self) -> (r: u32)
        ensures
            r == self.spec_id(),
    {
        self.id
    }

    /// How the APIC's registers are reached.
    pub fn access(&self) -> (r: LocalApicAccess)
        ensures
            r == self.spec_access(),
    {
        self.access
    }
}

/// Where a local APIC register is reached: a model-specific register
/// (x2APIC) or an address in the mapped register page (xAPIC).
#[derive(Clone, Copy, Debug, PartialEq, Eq, Structural)]
pub enum ApicRegister {
    Msr(u32),
    Mmio(u64),
}

/// One write to a local APIC register: its offset and the value.
#[derive(Clone, Copy, Debug, PartialEq, Eq, Structural)]
pub struct ApicWrite {
    pub offset: u32,
    pub value: u64,
}

/// The register at `offset`: in x2APIC mode MSR 0x800 plus a sixteenth of
/// the offset, in xAPIC mode the offset into the mapped page.
pub open spec fn spec_register(access: LocalApicAccess, offset: u32) -> ApicRegister {
    match access {
        LocalApicAccess::X2Apic => ApicRegister::Msr((0x800 + offset / 16) as u32),
        LocalApicAccess::XApic => ApicRegister::Mmio((LOCAL_APIC_VIRTUAL_ADDRESS + offset) as u64),
    }
}

impl LocalApicAccess {
    /// Where the register at `offset` is reached in this mode.
    pub fn register(self, offset: u32) -> (r: ApicRegister)
        ensures
            r == spec_register(self, offset),
    {
        match self {
            LocalApicAccess::X2Apic => ApicRegister::Msr(0x800 + offset / 16),
            LocalApicAccess::XApic => ApicRegister::Mmio(LOCAL_APIC_VIRTUAL_ADDRESS + offset as u64),
        }
    }

    /// The write that sends interrupt `vector` to this processor: the
    /// x2APIC self-IPI register takes the vector; in xAPIC mode the
    /// interrupt command register takes it with the destination shorthand
    /// "self" (bit 18).
    pub fn self_ipi_write(self, vector: u8) -> (r: (ApicRegister, u64))
        ensures
            r == match self {
                LocalApicAccess::X2Apic => (spec_register(self, X2APIC_SELF_IPI), vector as u64),
                LocalApicAccess::XApic => (spec_register(self, APIC_ICR1), (vector as u64) | 0x4_0000),
            },
    {
        match self {
            LocalApicAccess::X2Apic => (self.register(X2APIC_SELF_IPI), vector as u64),
            LocalApicAccess::XApic => (self.register(APIC_ICR1), (vector as u64) | 0x4_0000),
        }
    }

    /// The write that ends the interrupt being handled.
    pub fn end_of_interrupt(self) -> (r: ApicWrite)
        ensures
            r == (ApicWrite { offset: APIC_EOI, value: 0 }),
    {
        ApicWrite { offset: APIC_EOI, value: 0 }
    }
}

/// The timer's local vector entry, masked.
pub open spec fn timer_masked() -> u64 {
    (APIC_TIMER_VECTOR as u64) | APIC_LVT_MASKED
}

impl LocalApic {
    /// The writes that finish setting the APIC up once it is reached: the
    /// error interrupt's entry, masked; the error status cleared; all
    /// priorities accepted; the APIC software-enabled (bit 8) with its
    /// spurious vector.
    pub fn setup_writes() -> (r: Vec<ApicWrite>)
        ensures
            r@ == seq![
                ApicWrite { offset: APIC_LVT_ERROR, value: (APIC_ERROR_VECTOR as u64) | APIC_LVT_MASKED },
                ApicWrite { offset: APIC_ESR, value: 0 },
                ApicWrite { offset: APIC_TPR, value: 0 },
                ApicWrite { offset: APIC_SVR, value: 0x100 | (APIC_SPURIOUS_VECTOR as u64) },
            ],
    {
        let mut v: Vec<ApicWrite> = Vec::new();
        v.push(ApicWrite { offset: APIC_LVT_ERROR, value: (APIC_ERROR_VECTOR as u64) | APIC_LVT_MASKED });
        v.push(ApicWrite { offset: APIC_ESR, value: 0 });
        v.push(ApicWrite { offset: APIC_TPR, value: 0 });
        v.push(ApicWrite { offset: APIC_SVR, value: 0x100 | (APIC_SPURIOUS_VECTOR as u64) });
        v
    }

    /// The write that lets the timer interrupt through.
    pub fn start_timer(&self) -> (r: Vec<ApicWrite>)
        ensures
            r@ == seq![ApicWrite { offset: APIC_LVT_TIMER, value: APIC_TIMER_VECTOR as u64 }],
    {
        let mut v: Vec<ApicWrite> = Vec::new();
        v.push(ApicWrite { offset: APIC_LVT_TIMER, value: APIC_TIMER_VECTOR as u64 });
        v
    }

    /// The writes that start the timer counting down from `u32::MAX`,
    /// divided by 16, with its interrupt masked.
    pub fn start_calibration_counter(&self) -> (r: Vec<ApicWrite>)
        ensures
            r@ == seq![
                ApicWrite { offset: APIC_LVT_TIMER, value: timer_masked() },
                ApicWrite { offset: APIC_TIMER_DIVIDE_CONFIG, value: 3 },
                ApicWrite { offset: APIC_TIMER_INITIAL_COUNT, value: 0xffff_ffff },
            ],
    {
        let mut v: Vec<ApicWrite> = Vec::new();
        v.push(ApicWrite { offset: APIC_LVT_TIMER, value: (APIC_TIMER_VECTOR as u64) | APIC_LVT_MASKED });
        v.push(ApicWrite { offset: APIC_TIMER_DIVIDE_CONFIG, value: 3 });
        v.push(ApicWrite { offset: APIC_TIMER_INITIAL_COUNT, value: 0xffff_ffff });
        v
    }

    /// The writes that mask the timer and stop its count.
    pub fn stop_timer(&self) -> (r: Vec<ApicWrite>)
        ensures
            r@ == seq![
                ApicWrite { offset: APIC_LVT_TIMER, value: timer_masked() },
                ApicWrite { offset: APIC_TIMER_INITIAL_COUNT, value: 0 },
            ],
    {
        let mut v: Vec<ApicWrite> = Vec::new();
        v.push(ApicWrite { offset: APIC_LVT_TIMER, value: (APIC_TIMER_VECTOR as u64) | APIC_LVT_MASKED });
        v.push(ApicWrite { offset: APIC_TIMER_INITIAL_COUNT, value: 0 });
        v
    }

    /// The writes that arm the timer to interrupt once after `count` ticks
    /// (divided by 16); none for a count of zero, which waits for nothing.
    /// The caller waits for the interrupt, then stops the timer.
    pub fn delay_ticks(&self, count: u32) -> (r: Vec<ApicWrite>)
        ensures
            count == 0 ==> r@.len() == 0,
            count != 0 ==> r@ == seq![
                ApicWrite { offset: APIC_LVT_TIMER, value: timer_masked() },
                ApicWrite { offset: APIC_TIMER_DIVIDE_CONFIG, value: 3 },
                ApicWrite { offset: APIC_TIMER_INITIAL_COUNT, value: count as u64 },
                ApicWrite { offset: APIC_LVT_TIMER, value: APIC_TIMER_VECTOR as u64 },
            ],
    {
        let mut v: Vec<ApicWrite> = Vec::new();
        if count == 0 {
            return v;
        }
        v.push(ApicWrite { offset: APIC_LVT_TIMER, value: (APIC_TIMER_VECTOR as u64) | APIC_LVT_MASKED });
        v.push(ApicWrite { offset: APIC_TIMER_DIVIDE_CONFIG, value: 3 });
        v.push(ApicWrite { offset: APIC_TIMER_INITIAL_COUNT, value: count as u64 });
        v.push(ApicWrite { offset: APIC_LVT_TIMER, value: APIC_TIMER_VECTOR as u64 });
        v
    }

    /// The writes that arm the timer test: a count of 123456, divided by 16,
    /// with the interrupt let through last.
    pub fn timer_test_writes(&self) -> (r: Vec<ApicWrite>)
        ensures
            r@ == seq![
                ApicWrite { offset: APIC_LVT_TIMER, value: timer_masked() },
                ApicWrite { offset: APIC_TIMER_DIVIDE_CONFIG, value: 3 },
                ApicWrite { offset: APIC_TIMER_INITIAL_COUNT, value: 123456 },
                ApicWrite { offset: APIC_LVT_TIMER, value: APIC_TIMER_VECTOR as u64 },
            ],
    {
        let mut v: Vec<ApicWrite> = Vec::new();
        v.push(ApicWrite { offset: APIC_LVT_TIMER, value: (APIC_TIMER_VECTOR as u64) | APIC_LVT_MASKED });
        v.push(ApicWrite { offset: APIC_TIMER_DIVIDE_CONFIG, value: 3 });
        v.push(ApicWrite { offset: APIC_TIMER_INITIAL_COUNT, value: 123456 });
        v.push(ApicWrite { offset: APIC_LVT_TIMER, value: APIC_TIMER_VECTOR as u64 });
        v
    }

    /// The timer test's verdict from how many timer interrupts arrived while
    /// it waited: exactly one passes.
    pub fn test_timer_interrupt(&self, interrupts_seen: u64) -> (r: Result<(), LocalApicError>)
        ensures
            r == if interrupts_seen == 1 {
                Ok::<(), LocalApicError>(())
            } else {
                Err(LocalApicError::TimerTestFailed)
            },
    {
        if interrupts_seen != 1 {
            return Err(LocalApicError::TimerTestFailed);
        }
        Ok(())
    }

    /// The self-IPI's verdict from how many self-IPIs arrived while it
    /// waited: exactly one passes.
    pub fn send_self_ipi(&self, interrupts_seen: u64) -> (r: Result<(), LocalApicError>)
        ensures
            r == if interrupts_seen == 1 {
                Ok::<(), LocalApicError>(())
            } else {
                Err(LocalApicError::FailedToSendSelfIpi)
            },
    {
        if interrupts_seen != 1 {
            return Err(LocalApicError::FailedToSendSelfIpi);
        }
        Ok(())
    }
}

/// The timer's current count, from the value its register reads.
pub fn current_timer_count(register_value: u64) -> (r: u32)
    ensures
        r == register_value as u32,
{
    register_value as u32
}

} // verus!
