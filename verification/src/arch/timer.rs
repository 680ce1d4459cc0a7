//! Calibrating the local APIC timer against the PIT: the writes that start
//! and end the measurement, the PIT's one-shot programming, and, from how
//! far the APIC's counter fell while the PIT counted down, its rate in
//! ticks per second. Waiting for the PIT's interrupt is the caller's.

use vstd::prelude::*;

use crate::arch::io_apic::{IoApic, MASKED};

verus! {

/// The PIT's input frequency in Hz.
pub const PIT_FREQUENCY: u64 = 1_193_182;

/// The PIT count used for calibration.
pub const PIT_CALIBRATION_COUNT: u16 = 0xffff;

/// Why the timer could not be calibrated.
#[derive(Clone, Copy, Debug, PartialEq, Eq, Structural)]
pub enum TimerCalibrationError {
    PitTimeout,
    IoApicNotHandled,
    FrequencyOverflow,
    InvalidTimerCount,
}

/// The local APIC timer's rate when its counter, started at `u32::MAX`,
/// read `count_at_pit` as the PIT's one-shot count of
/// [`PIT_CALIBRATION_COUNT`] ran out.
pub open spec fn spec_ticks_per_second(count_at_pit: u32) -> Result<u64, TimerCalibrationError> {
    let elapsed = u32::MAX - count_at_pit;
    if elapsed == 0 {
        Err(TimerCalibrationError::InvalidTimerCount)
    } else if elapsed * PIT_FREQUENCY > u64::MAX {
        Err(TimerCalibrationError::FrequencyOverflow)
    } else {
        Ok(((elapsed * PIT_FREQUENCY) / (PIT_CALIBRATION_COUNT as int)) as u64)
    }
}

/// The calibrated rate is the APIC counter's fall scaled from the PIT's
/// count to a second: when the counter fell by `e > 0` while the PIT
/// counted 65535 of its 1193182 ticks a second, the rate is the whole part
/// of `e * 1193182 / 65535`.
pub proof fn lemma_ticks_per_second_rate(count_at_pit: u32)
    requires
        count_at_pit < u32::MAX,
    ensures
        spec_ticks_per_second(count_at_pit) matches Ok(v) && v * 65535 <= (u32::MAX - count_at_pit) * 1193182 < (v + 1) * 65535,
{
    let e: int = u32::MAX - count_at_pit;
    assert(e * 1193182 <= u64::MAX) by (nonlinear_arith)
        requires
            0 < e <= u32::MAX,
    ;
    let v = (e * 1193182) / 65535;
    assert(v * 65535 <= e * 1193182 < (v + 1) * 65535) by (nonlinear_arith)
        requires
            e >= 0,
            v == (e * 1193182) / 65535,
    ;
}

/// The rate grows with the counter's fall: twice the fall gives twice the
/// rate, up to rounding.
pub proof fn lemma_ticks_per_second_double(c1: u32, c2: u32)
    requires
        c1 < u32::MAX,
        c2 < u32::MAX,
        u32::MAX - c2 == 2 * (u32::MAX - c1),
    ensures
        spec_ticks_per_second(c1) matches Ok(v1) && spec_ticks_per_second(c2) matches Ok(v2) && (v2 == 2 * v1 || v2 == 2 * v1 + 1),
{
    lemma_ticks_per_second_rate(c1);
    lemma_ticks_per_second_rate(c2);
    let v1 = spec_ticks_per_second(c1)->Ok_0;
    let v2 = spec_ticks_per_second(c2)->Ok_0;
    let e1: int = u32::MAX - c1;
    assert(v2 == 2 * v1 || v2 == 2 * v1 + 1) by (nonlinear_arith)
        requires
            v1 * 65535 <= e1 * 1193182 < (v1 + 1) * 65535,
            v2 * 65535 <= 2 * e1 * 1193182 < (v2 + 1) * 65535,
            v1 >= 0,
            v2 >= 0,
    ;
}

/// The local APIC timer's rate in ticks per second, from its count when
/// the PIT fired.
pub fn ticks_per_second(count_at_pit: u32) -> (r: Result<u64, TimerCalibrationError>)
    ensures
        r == spec_ticks_per_second(count_at_pit),
{
    let elapsed = u32::MAX - count_at_pit;
    if elapsed == 0 {
        return Err(TimerCalibrationError::InvalidTimerCount);
    }
    let scaled = match (elapsed as u64).checked_mul(PIT_FREQUENCY) {
        Some(v) => v,
        None => return Err(TimerCalibrationError::FrequencyOverflow),
    };
    Ok(scaled / (PIT_CALIBRATION_COUNT as u64))
}

/// The PIT's command and channel 0 data ports.
pub const PIT_COMMAND: u16 = 0x43;
pub const PIT_CHANNEL_0: u16 = 0x40;

/// The programmable interval timer.
pub struct Pit;

impl Pit {
    /// The port writes that start a one-shot count of `count` on channel 0:
    /// the command (channel 0, low then high byte, interrupt on terminal
    /// count, binary) and the count's low and high bytes.
    pub fn start_one_shot(count: u16) -> (r: Vec<(u16, u8)>)
        ensures
            r@ == seq![(PIT_COMMAND, 0x30u8), (PIT_CHANNEL_0, count as u8), (PIT_CHANNEL_0, (count >> 8u16) as u8)],
    {
        let mut v: Vec<(u16, u8)> = Vec::new();
        v.push((PIT_COMMAND, 0x30));
        v.push((PIT_CHANNEL_0, count as u8));
        v.push((PIT_CHANNEL_0, (count >> 8) as u8));
        v
    }
}

/// How the wait for the PIT ended: its interrupt came with the local
/// APIC's counter at a value, or the counter ran out first.
#[derive(Clone, Copy, Debug, PartialEq, Eq, Structural)]
pub enum PitWait {
    Fired(u32),
    TimedOut,
}

/// The end of a calibration: the write that masks the PIT's entry again,
/// if any, whether the local APIC timer is stopped, and the rate.
#[derive(Clone, Copy, Debug)]
pub struct CalibrationEnd {
    pub mask: Option<(u8, u32)>,
    pub stop_timer: bool,
    pub result: Result<u64, TimerCalibrationError>,
}

/// The write that lets the PIT's interrupt through before the measurement:
/// the PIT's entry, whose low register reads `current_low`, unmasked;
/// `IoApicNotHandled` when the I/O APIC does not serve `gsi`.
pub fn start_calibration(io_apic: &IoApic, gsi: u32, current_low: u32) -> (r: Result<(u8, u32), TimerCalibrationError>)
    ensures
        r == match io_apic.redirection_registers_spec(gsi) {
            Err(_) => Err(TimerCalibrationError::IoApicNotHandled),
            Ok((low_register, _)) => Ok((low_register, current_low & !MASKED)),
        },
{
    match io_apic.unmask(gsi, current_low) {
        Ok(w) => Ok(w),
        Err(_) => Err(TimerCalibrationError::IoApicNotHandled),
    }
}

/// What ends a calibration once the wait is over. A timeout masks the PIT's
/// entry again where it can, stops the timer and fails with `PitTimeout`.
/// Otherwise the entry is masked (`IoApicNotHandled`, with the timer left
/// running, when it cannot be), the timer stopped, and the rate computed
/// from the count at the PIT's interrupt.
pub fn finish_calibration(io_apic: &IoApic, gsi: u32, current_low: u32, wait: PitWait) -> (r: CalibrationEnd)
    ensures
        ({
            let mask = match io_apic.redirection_registers_spec(gsi) {
                Err(_) => None,
                Ok((low_register, _)) => Some((low_register, current_low | MASKED)),
            };
            r == match wait {
                PitWait::TimedOut => CalibrationEnd { mask, stop_timer: true, result: Err(TimerCalibrationError::PitTimeout) },
                PitWait::Fired(count) => if mask is None {
                    CalibrationEnd { mask: None, stop_timer: false, result: Err(TimerCalibrationError::IoApicNotHandled) }
                } else {
                    CalibrationEnd { mask, stop_timer: true, result: spec_ticks_per_second(count) }
                },
            }
        }),
{
    let mask = match io_apic.mask(gsi, current_low) {
        Ok(w) => Some(w),
        Err(_) => None,
    };
    match wait {
        PitWait::TimedOut => CalibrationEnd { mask, stop_timer: true, result: Err(TimerCalibrationError::PitTimeout) },
        PitWait::Fired(count) => match mask {
            None => CalibrationEnd { mask: None, stop_timer: false, result: Err(TimerCalibrationError::IoApicNotHandled) },
            Some(w) => CalibrationEnd { mask: Some(w), stop_timer: true, result: ticks_per_second(count) },
        },
    }
}

} // verus!
