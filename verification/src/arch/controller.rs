//! Bringing up the interrupt controllers: the decisions between the
//! hardware steps. The local APIC's address comes from the MADT; once the
//! local APIC is reached, the MADT names the one I/O APIC and the PIT's
//! route; once the I/O APIC is reached, the PIT's interrupt is routed to
//! the local APIC, masked, for the timer's calibration.

use vstd::prelude::*;

use crate::arch::apic::{LocalApic, LocalApicError, PIT_CALIBRATION_VECTOR};
use crate::arch::io_apic::{IoApic, IoApicError, RedirectionConfig, RedirectionUpdate};
use crate::arch::timer::TimerCalibrationError;
use crate::memory::{PhysicalAddr, PhysicalMemory};
use crate::platform::acpi::{
    spec_effective_address, spec_io_apics, spec_isa_route, spec_madt_entries, spec_sole, AcpiError, IoApicInfo, IsaIrqRoute,
    Madt, MadtEntry,
};

verus! {

/// Why the interrupt controllers could not be brought up.
#[derive(Clone, Copy, Debug, PartialEq, Eq, Structural)]
pub enum InterruptInitError {
    InvalidLocalApicId,
    InvalidLocalApicAddress,
    FailedToGetIoApic,
    IoApicError(IoApicError),
    LocalApicError(LocalApicError),
    TimerCalibrationError(TimerCalibrationError),
    MalformedMadt,
    PitNotHandled,
}

/// The interrupt controllers once they are up, with the local timer's rate
/// in ticks per second.
#[derive(Clone, Copy, Debug)]
pub struct InterruptController {
    local_apic: LocalApic,
    io_apic: IoApic,
    local_timer_frequency: u64,
}

impl InterruptController {
    pub closed spec fn spec_local_apic(&self) -> LocalApic {
        self.local_apic
    }

    pub closed spec fn spec_io_apic(&self) -> IoApic {
        self.io_apic
    }

    pub closed spec fn spec_local_timer_frequency(&self) -> u64 {
        self.local_timer_frequency
    }

    /// The controllers, once calibrated.
    pub fn new(local_apic: LocalApic, io_apic: IoApic, local_timer_frequency: u64) -> (r: Self)
        ensures
            r.spec_local_apic() == local_apic,
            r.spec_io_apic() == io_apic,
            r.spec_local_timer_frequency() == local_timer_frequency,
    {
        InterruptController { local_apic, io_apic, local_timer_frequency }
    }

    pub fn local_apic(&self) -> (r: LocalApic)
        ensures
            r == self.spec_local_apic(),
    {
        self.local_apic
    }

    pub fn io_apic(&self) -> (r: IoApic)
        ensures
            r == self.spec_io_apic(),
    {
        self.io_apic
    }

    pub fn local_timer_frequency(&self) -> (r: u64)
        ensures
            r == self.spec_local_timer_frequency(),
    {
        self.local_timer_frequency
    }
}

/// The entries of `madt` as they read in `mem`.
pub open spec fn madt_entries(madt: Madt, mem: Seq<u64>) -> Result<Seq<Result<MadtEntry, AcpiError>>, AcpiError> {
    spec_madt_entries(mem, madt.acpi.direct_map, madt.table)
}

/// The local APICs' address, as the MADT gives it after its overrides.
pub open spec fn spec_controller_local_apic_address(madt: Madt, mem: Seq<u64>) -> Result<PhysicalAddr, InterruptInitError> {
    match madt_entries(madt, mem) {
        Err(_) => Err(InterruptInitError::InvalidLocalApicAddress),
        Ok(s) => match spec_effective_address(s, madt.local_apic_address.0) {
            Ok(a) => Ok(PhysicalAddr(a)),
            Err(_) => Err(InterruptInitError::InvalidLocalApicAddress),
        },
    }
}

/// The first step: the local APICs' address; `InvalidLocalApicAddress`
/// when the MADT cannot be read for it.
pub fn controller_local_apic_address(madt: &Madt, mem: &PhysicalMemory) -> (r: Result<PhysicalAddr, InterruptInitError>)
    ensures
        r == spec_controller_local_apic_address(*madt, mem@),
{
    match madt.effective_local_apic_address(mem) {
        Ok(a) => Ok(a),
        Err(_) => Err(InterruptInitError::InvalidLocalApicAddress),
    }
}

/// The system's one I/O APIC and the route of ISA interrupt 0, the PIT's.
pub open spec fn spec_io_apic_and_pit_route(madt: Madt, mem: Seq<u64>) -> Result<(IoApicInfo, IsaIrqRoute), InterruptInitError> {
    match madt_entries(madt, mem) {
        Err(_) => Err(InterruptInitError::FailedToGetIoApic),
        Ok(s) => match spec_sole(spec_io_apics(s)) {
            Err(_) => Err(InterruptInitError::FailedToGetIoApic),
            Ok(info) => match spec_isa_route(s, 0) {
                Err(_) => Err(InterruptInitError::MalformedMadt),
                Ok(route) => Ok((info, route)),
            },
        },
    }
}

/// The second step, once the local APIC is up: the one I/O APIC
/// (`FailedToGetIoApic` unless the MADT lists exactly one) and the PIT's
/// route (`MalformedMadt` when it cannot be read).
pub fn io_apic_and_pit_route(madt: &Madt, mem: &PhysicalMemory) -> (r: Result<(IoApicInfo, IsaIrqRoute), InterruptInitError>)
    ensures
        r == spec_io_apic_and_pit_route(*madt, mem@),
{
    let info = match madt.sole_io_apic(mem) {
        Ok(i) => i,
        Err(_) => return Err(InterruptInitError::FailedToGetIoApic),
    };
    match madt.isa_irq_route(mem, 0) {
        Ok(route) => Ok((info, route)),
        Err(_) => Err(InterruptInitError::MalformedMadt),
    }
}

/// The PIT's interrupt sent to the local APIC with id `local_apic_id` on
/// the calibration vector, with the route's polarity and trigger mode.
pub open spec fn spec_pit_config(route: IsaIrqRoute, local_apic_id: u32) -> RedirectionConfig {
    RedirectionConfig {
        vector: PIT_CALIBRATION_VECTOR,
        destination: local_apic_id as u8,
        polarity: route.polarity,
        trigger: route.trigger,
    }
}

/// The third step, once the I/O APIC is reached: the writes that route the
/// PIT's interrupt, masked, to the local APIC. `PitNotHandled` when the I/O
/// APIC does not serve the PIT's interrupt, `InvalidLocalApicId` when the
/// local APIC's id does not fit the entry's one-byte destination.
/// `current_low` is what the entry's low register reads.
pub fn pit_redirection(io_apic: &IoApic, route: IsaIrqRoute, local_apic_id: u32, current_low: u32) -> (r: Result<RedirectionUpdate, InterruptInitError>)
    ensures
        io_apic.spec_redirection_index(route.gsi) is None ==> r == Err::<RedirectionUpdate, InterruptInitError>(
            InterruptInitError::PitNotHandled,
        ),
        io_apic.spec_redirection_index(route.gsi) is Some && local_apic_id > 0xff ==> r == Err::<
            RedirectionUpdate,
            InterruptInitError,
        >(InterruptInitError::InvalidLocalApicId),
        io_apic.spec_redirection_index(route.gsi) is Some && local_apic_id <= 0xff ==> r == match io_apic.spec_configure_masked(
            route.gsi,
            spec_pit_config(route, local_apic_id),
            current_low,
        ) {
            Ok(u) => Ok::<RedirectionUpdate, InterruptInitError>(u),
            Err(e) => Err(InterruptInitError::IoApicError(e)),
        },
{
    if !io_apic.handles_gsi(route.gsi) {
        return Err(InterruptInitError::PitNotHandled);
    }
    if local_apic_id > 0xff {
        return Err(InterruptInitError::InvalidLocalApicId);
    }
    let config = RedirectionConfig {
        vector: PIT_CALIBRATION_VECTOR,
        destination: local_apic_id as u8,
        polarity: route.polarity,
        trigger: route.trigger,
    };
    match io_apic.configure_masked(route.gsi, config, current_low) {
        Ok(u) => Ok(u),
        Err(e) => Err(InterruptInitError::IoApicError(e)),
    }
}

} // verus!
