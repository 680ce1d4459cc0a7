//! The I/O APIC's register layout: which redirection entry serves a global
//! system interrupt, and how an entry is encoded. Reading and writing the
//! registers themselves is memory-mapped I/O done by the caller.

use vstd::prelude::*;

use crate::memory::address_space::{AddressSpace, MapError};
use crate::memory::{CachePolicy, FrameAllocator, PagePermissions, PhysicalAddr, PhysicalMemory, VirtualAddr};
use crate::platform::acpi::{InterruptPolarity, TriggerMode};

verus! {

/// The window register, at this offset from the I/O APIC's base.
pub const IOWIN: u64 = 0x10;

/// The identification register.
pub const IOAPIC_ID: u8 = 0x00;

/// The version register.
pub const IOAPIC_VERSION: u8 = 0x01;

/// The first redirection register.
pub const IOAPIC_REDIRECTION_BASE: u8 = 0x10;

/// The mask bit of a redirection entry's low half.
pub const MASKED: u32 = 0x1_0000;

/// Where the kernel maps the I/O APIC.
pub const IOAPIC_VIRTUAL_ADDRESS: u64 = 0xFFFF_FFFD_1000_0000;

/// Why the I/O APIC could not be set up or used.
#[derive(Clone, Copy, Debug, PartialEq, Eq, Structural)]
pub enum IoApicError {
    IdMismatch { expected: u8, actual: u8 },
    GsiOutsideRange,
    FailedToMapIoApic,
    InvalidRedirectionIndex,
}

/// How an interrupt is to be delivered: its vector, the destination APIC,
/// its polarity and its trigger mode.
#[derive(Clone, Copy, Debug, PartialEq, Eq, Structural)]
pub struct RedirectionConfig {
    pub vector: u8,
    pub destination: u8,
    pub polarity: InterruptPolarity,
    pub trigger: TriggerMode,
}

/// An I/O APIC: where its registers are mapped, the first global system
/// interrupt it serves and how many it serves.
#[derive(Clone, Copy, Debug, PartialEq, Eq, Structural)]
pub struct IoApic {
    pub base: VirtualAddr,
    pub global_interrupt_base: u32,
    pub redirection_entry_count: u32,
}

/// The registers to write to program a redirection entry: first
/// `masked_current_low` (the low register's current value with the mask bit
/// set) into the low register, then `high` into the high register, then
/// `low` into the low register; so the entry is never unmasked on the way.
#[derive(Clone, Copy, Debug, PartialEq, Eq, Structural)]
pub struct RedirectionUpdate {
    pub masked_current_low: u32,
    pub low_register: u8,
    pub high_register: u8,
    pub high: u32,
    pub low: u32,
}

/// The 64-bit redirection entry for `config`, masked: the vector in bits
/// 0-7, active-low polarity in bit 13, level trigger in bit 15, the mask in
/// bit 16, the destination in bits 56-63.
pub open spec fn spec_redirection_entry(config: RedirectionConfig) -> u64 {
    (config.vector as u64) | (if config.polarity == InterruptPolarity::ActiveLow {
        0x2000u64
    } else {
        0u64
    }) | (if config.trigger == TriggerMode::Level {
        0x8000u64
    } else {
        0u64
    }) | 0x1_0000u64 | ((config.destination as u64) << 56u64)
}

/// The redirection entry for `config`.
pub fn redirection_entry(config: RedirectionConfig) -> (r: u64)
    ensures
        r == spec_redirection_entry(config),
{
    let mut entry = config.vector as u64;
    match config.polarity {
        InterruptPolarity::ActiveHigh => {},
        InterruptPolarity::ActiveLow => {
            entry = entry | 0x2000;
        },
    }
    match config.trigger {
        TriggerMode::Edge => {},
        TriggerMode::Level => {
            entry = entry | 0x8000;
        },
    }
    entry = entry | 0x1_0000;
    entry = entry | ((config.destination as u64) << 56u64);
    proof {
        let v = config.vector as u64;
        let d = config.destination as u64;
        assert(v | 0u64 == v && (v | 0u64) | 0u64 == v && v | 0x2000u64 | 0u64 == v | 0x2000u64) by (bit_vector);
    }
    entry
}

impl IoApic {
    /// The I/O APIC at `base` whose first interrupt is
    /// `global_interrupt_base`, from the values read from its version and
    /// identification registers: it serves one more interrupt than bits
    /// 16-23 of the version say, and bits 24-27 of the identification must
    /// be `expected_id`.
    pub fn from_registers(
        base: VirtualAddr,
        global_interrupt_base: u32,
        version: u32,
        id_register: u32,
        expected_id: u8,
    ) -> (r: Result<Self, IoApicError>)
        ensures
            ((id_register >> 24u32) & 0xfu32) as u8 != expected_id ==> r == Err::<Self, IoApicError>(
                IoApicError::IdMismatch { expected: expected_id, actual: ((id_register >> 24u32) & 0xfu32) as u8 },
            ),
            ((id_register >> 24u32) & 0xfu32) as u8 == expected_id ==> r == Ok::<Self, IoApicError>(
                IoApic { base, global_interrupt_base, redirection_entry_count: (((version >> 16u32) & 0xffu32) + 1) as u32 },
            ),
    {
        proof {
            assert((version >> 16u32) & 0xffu32 <= 0xff) by (bit_vector);
        }
        let count = ((version >> 16) & 0xff) + 1;
        let id = ((id_register >> 24) & 0xf) as u8;
        if id != expected_id {
            return Err(IoApicError::IdMismatch { expected: expected_id, actual: id });
        }
        Ok(IoApic { base, global_interrupt_base, redirection_entry_count: count })
    }

    /// Maps the I/O APIC's registers at `physical_address` to
    /// `virtual_address` (writable, uncacheable, kernel only), before they
    /// are read; `FailedToMapIoApic` when the mapping is refused.
    pub fn map_registers(
        physical_address: PhysicalAddr,
        virtual_address: VirtualAddr,
        mem: &mut PhysicalMemory,
        allocator: &mut FrameAllocator,
        address_space: &mut AddressSpace,
    ) -> (r: Result<(), IoApicError>)
        requires
            old(address_space).wf(old(mem)@, old(allocator)@),
            old(allocator).wf(),
            old(allocator).backed_by(old(mem)@),
        ensures
            final(allocator).wf(),
            final(allocator).backed_by(final(mem)@),
            final(address_space).wf(final(mem)@, final(allocator)@),
            final(address_space).spec_kind() == old(address_space).spec_kind(),
            r is Ok ==> final(address_space).translate(final(mem)@, virtual_address.0) == Some(physical_address.0),
            r is Err ==> r == Err::<(), IoApicError>(IoApicError::FailedToMapIoApic),
            old(address_space).spec_map_succeeds(
                old(mem)@,
                old(allocator)@,
                physical_address.0,
                virtual_address.0,
                PagePermissions { writable: true, executable: false, user_accessible: false },
                CachePolicy::Uncacheable,
            ) ==> r is Ok,
    {
        let mapped: Result<(), MapError> = address_space.map(
            mem,
            physical_address,
            virtual_address,
            PagePermissions::new(true, false, false),
            allocator,
            CachePolicy::Uncacheable,
        );
        match mapped {
            Ok(()) => Ok(()),
            Err(_) => Err(IoApicError::FailedToMapIoApic),
        }
    }

    /// The redirection entry that serves `gsi`, if this I/O APIC serves it.
    pub open spec fn spec_redirection_index(&self, gsi: u32) -> Option<u32> {
        if gsi >= self.global_interrupt_base && gsi - self.global_interrupt_base < self.redirection_entry_count {
            Some((gsi - self.global_interrupt_base) as u32)
        } else {
            None
        }
    }

    /// Whether this I/O APIC serves `gsi`.
    pub fn handles_gsi(&self, gsi: u32) -> (r: bool)
        ensures
            r == self.spec_redirection_index(gsi) is Some,
    {
        match gsi.checked_sub(self.global_interrupt_base) {
            Some(index) => index < self.redirection_entry_count,
            None => false,
        }
    }

    /// The index of the redirection entry that serves `gsi`.
    pub fn redirection_index(&self, gsi: u32) -> (r: Result<u32, IoApicError>)
        ensures
            r == match self.spec_redirection_index(gsi) {
                Some(i) => Ok::<u32, IoApicError>(i),
                None => Err(IoApicError::GsiOutsideRange),
            },
    {
        let index = match gsi.checked_sub(self.global_interrupt_base) {
            Some(i) => i,
            None => return Err(IoApicError::GsiOutsideRange),
        };
        if index >= self.redirection_entry_count {
            return Err(IoApicError::GsiOutsideRange);
        }
        Ok(index)
    }

    /// The low and high registers of the redirection entry that serves
    /// `gsi`: registers 0x10 + 2i and 0x11 + 2i for entry i, which must fit
    /// in a byte.
    pub open spec fn redirection_registers_spec(&self, gsi: u32) -> Result<(u8, u8), IoApicError> {
        match self.spec_redirection_index(gsi) {
            None => Err(IoApicError::GsiOutsideRange),
            Some(i) => if 0x10 + 2 * i + 1 <= 0xff {
                Ok(((0x10 + 2 * i) as u8, (0x11 + 2 * i) as u8))
            } else {
                Err(IoApicError::InvalidRedirectionIndex)
            },
        }
    }

    /// The low and high registers of the redirection entry that serves
    /// `gsi`: registers 0x10 + 2i and 0x11 + 2i for entry i, which must fit
    /// in a byte.
    pub fn redirection_registers(&self, gsi: u32) -> (r: Result<(u8, u8), IoApicError>)
        ensures
            r == self.redirection_registers_spec(gsi),
    {
        let index = match self.redirection_index(gsi) {
            Ok(i) => i,
            Err(e) => return Err(e),
        };
        if index > 0x77 {
            return Err(IoApicError::InvalidRedirectionIndex);
        }
        let low = (0x10 + index * 2) as u8;
        let high = (0x11 + index * 2) as u8;
        Ok((low, high))
    }

    /// The writes that program the entry serving `gsi` with `config`,
    /// masked: the entry's registers, the entry's high half, and its low
    /// half with the mask bit set.
    pub open spec fn spec_configure_masked(&self, gsi: u32, config: RedirectionConfig, current_low: u32) -> Result<RedirectionUpdate, IoApicError> {
        match self.redirection_registers_spec(gsi) {
            Err(e) => Err(e),
            Ok((low_register, high_register)) => Ok(
                RedirectionUpdate {
                    masked_current_low: current_low | MASKED,
                    low_register,
                    high_register,
                    high: (spec_redirection_entry(config) >> 32u64) as u32,
                    low: (spec_redirection_entry(config) as u32) | MASKED,
                },
            ),
        }
    }

    /// The writes that program the entry serving `gsi`, whose low register
    /// reads `current_low`, with `config`, masked.
    pub fn configure_masked(&self, gsi: u32, config: RedirectionConfig, current_low: u32) -> (r: Result<RedirectionUpdate, IoApicError>)
        ensures
            r == self.spec_configure_masked(gsi, config, current_low),
    {
        let entry = redirection_entry(config);
        let (low_register, high_register) = match self.redirection_registers(gsi) {
            Ok(p) => p,
            Err(e) => return Err(e),
        };
        Ok(RedirectionUpdate { masked_current_low: masked(current_low), low_register, high_register, high: (entry >> 32) as u32, low: (entry as u32) | MASKED })
    }

    /// The write that unmasks the entry serving `gsi`, whose low register
    /// reads `current_low`: that register, and the value with the mask bit
    /// cleared.
    pub fn unmask(&self, gsi: u32, current_low: u32) -> (r: Result<(u8, u32), IoApicError>)
        ensures
            match self.redirection_registers_spec(gsi) {
                Err(e) => r == Err::<(u8, u32), IoApicError>(e),
                Ok((low_register, _)) => r == Ok::<(u8, u32), IoApicError>((low_register, current_low & !MASKED)),
            },
    {
        match self.redirection_registers(gsi) {
            Ok((low_register, _)) => Ok((low_register, unmasked(current_low))),
            Err(e) => Err(e),
        }
    }

    /// The write that masks the entry serving `gsi`, whose low register
    /// reads `current_low`: that register, and the value with the mask bit
    /// set.
    pub fn mask(&self, gsi: u32, current_low: u32) -> (r: Result<(u8, u32), IoApicError>)
        ensures
            match self.redirection_registers_spec(gsi) {
                Err(e) => r == Err::<(u8, u32), IoApicError>(e),
                Ok((low_register, _)) => r == Ok::<(u8, u32), IoApicError>((low_register, current_low | MASKED)),
            },
    {
        match self.redirection_registers(gsi) {
            Ok((low_register, _)) => Ok((low_register, masked(current_low))),
            Err(e) => Err(e),
        }
    }
}

/// A redirection entry's low half with the mask bit set.
pub fn masked(low: u32) -> (r: u32)
    ensures
        r == low | MASKED,
{
    low | MASKED
}

/// A redirection entry's low half with the mask bit clear.
pub fn unmasked(low: u32) -> (r: u32)
    ensures
        r == low & !MASKED,
{
    low & !MASKED
}

} // verus!
