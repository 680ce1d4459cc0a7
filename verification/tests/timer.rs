use dusk::arch::timer::{TimerCalibrationError, ticks_per_second};

#[test]
fn ticks_per_second_scales_elapsed_count() {
    // The counter fell by 65535 while the PIT counted 65535 ticks.
    assert_eq!(ticks_per_second(u32::MAX - 65535), Ok(1_193_182));
}

#[test]
fn ticks_per_second_rejects_a_counter_that_did_not_move() {
    assert_eq!(ticks_per_second(u32::MAX), Err(TimerCalibrationError::InvalidTimerCount));
}
