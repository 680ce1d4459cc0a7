use dusk::arch::apic::{
    ApicRegister, ApicWrite, LocalApic, LocalApicAccess, LocalApicError, current_timer_count, APIC_ESR, APIC_LVT_ERROR,
    APIC_LVT_TIMER, APIC_SVR, APIC_TIMER_DIVIDE_CONFIG, APIC_TIMER_INITIAL_COUNT, APIC_TPR,
};
use dusk::arch::controller::{pit_redirection, InterruptController, InterruptInitError};
use dusk::arch::io_apic::{IoApic, IoApicError, RedirectionUpdate};
use dusk::arch::timer::{finish_calibration, start_calibration, Pit, PitWait, TimerCalibrationError};
use dusk::memory::VirtualAddr;
use dusk::platform::acpi::{InterruptPolarity, IsaIrqRoute, TriggerMode};

fn io_apic() -> IoApic {
    IoApic::from_registers(VirtualAddr(0xFFFF_FFFD_1000_0000), 0, 0x0017_0020, 0x0200_0000, 2).unwrap()
}

fn pit_route() -> IsaIrqRoute {
    IsaIrqRoute { gsi: 2, polarity: InterruptPolarity::ActiveHigh, trigger: TriggerMode::Edge }
}

#[test]
fn the_pit_is_routed_masked_to_the_local_apic() {
    let r = pit_redirection(&io_apic(), pit_route(), 3, 0x0001_0000);
    assert_eq!(
        r,
        Ok(RedirectionUpdate { masked_current_low: 0x0001_0000, low_register: 0x14, high_register: 0x15, high: 0x0300_0000, low: 0x0001_00F1 })
    );
}

#[test]
fn the_pit_route_must_be_served_and_the_id_fit_a_byte() {
    let far = IsaIrqRoute { gsi: 30, ..pit_route() };
    assert_eq!(pit_redirection(&io_apic(), far, 3, 0), Err(InterruptInitError::PitNotHandled));
    assert_eq!(pit_redirection(&io_apic(), pit_route(), 256, 0), Err(InterruptInitError::InvalidLocalApicId));
    let huge = IoApic::from_registers(VirtualAddr(0), 0, 0x00FF_0020, 0x0200_0000, 2).unwrap();
    let late = IsaIrqRoute { gsi: 120, ..pit_route() };
    assert_eq!(
        pit_redirection(&huge, late, 3, 0),
        Err(InterruptInitError::IoApicError(IoApicError::InvalidRedirectionIndex))
    );
}

#[test]
fn calibration_unmasks_then_masks_the_pit_and_computes_the_rate() {
    let a = io_apic();
    assert_eq!(start_calibration(&a, 2, 0x0001_00F1), Ok((0x14, 0x0000_00F1)));
    let end = finish_calibration(&a, 2, 0x0000_00F1, PitWait::Fired(u32::MAX - 65535));
    assert_eq!(end.mask, Some((0x14, 0x0001_00F1)));
    assert!(end.stop_timer);
    assert_eq!(end.result, Ok(1_193_182));
}

#[test]
fn calibration_reports_a_timeout_and_an_unserved_pit() {
    let a = io_apic();
    let end = finish_calibration(&a, 2, 0, PitWait::TimedOut);
    assert_eq!(end.result, Err(TimerCalibrationError::PitTimeout));
    assert!(end.stop_timer);
    assert_eq!(end.mask, Some((0x14, 0x0001_0000)));
    assert_eq!(start_calibration(&a, 40, 0), Err(TimerCalibrationError::IoApicNotHandled));
    let end = finish_calibration(&a, 40, 0, PitWait::Fired(5));
    assert_eq!(end.result, Err(TimerCalibrationError::IoApicNotHandled));
    assert!(!end.stop_timer);
    assert_eq!(end.mask, None);
}

#[test]
fn the_pit_one_shot_writes_command_then_count_bytes() {
    assert_eq!(Pit::start_one_shot(0xffff), vec![(0x43, 0x30), (0x40, 0xff), (0x40, 0xff)]);
    assert_eq!(Pit::start_one_shot(0x1234), vec![(0x43, 0x30), (0x40, 0x34), (0x40, 0x12)]);
}

#[test]
fn apic_registers_are_msrs_in_x2apic_mode_and_memory_in_xapic_mode() {
    assert_eq!(LocalApicAccess::X2Apic.register(0x20), ApicRegister::Msr(0x802));
    assert_eq!(LocalApicAccess::X2Apic.register(0x380), ApicRegister::Msr(0x838));
    assert_eq!(LocalApicAccess::XApic.register(0x20), ApicRegister::Mmio(0xFFFF_FFFD_0000_0020));
    assert_eq!(LocalApicAccess::X2Apic.self_ipi_write(0x40), (ApicRegister::Msr(0x83F), 0x40));
    assert_eq!(LocalApicAccess::XApic.self_ipi_write(0x40), (ApicRegister::Mmio(0xFFFF_FFFD_0000_0300), 0x4_0040));
    assert_eq!(LocalApicAccess::XApic.end_of_interrupt(), ApicWrite { offset: 0xB0, value: 0 });
}

#[test]
fn apic_setup_and_timer_writes_come_in_order() {
    assert_eq!(
        LocalApic::setup_writes(),
        vec![
            ApicWrite { offset: APIC_LVT_ERROR, value: 0x1_00FE },
            ApicWrite { offset: APIC_ESR, value: 0 },
            ApicWrite { offset: APIC_TPR, value: 0 },
            ApicWrite { offset: APIC_SVR, value: 0x1FF },
        ]
    );
    let apic = LocalApic::from_id_register(LocalApicAccess::X2Apic, 0);
    assert_eq!(apic.start_timer(), vec![ApicWrite { offset: APIC_LVT_TIMER, value: 0xFD }]);
    assert_eq!(
        apic.start_calibration_counter(),
        vec![
            ApicWrite { offset: APIC_LVT_TIMER, value: 0x1_00FD },
            ApicWrite { offset: APIC_TIMER_DIVIDE_CONFIG, value: 3 },
            ApicWrite { offset: APIC_TIMER_INITIAL_COUNT, value: 0xffff_ffff },
        ]
    );
    assert_eq!(
        apic.stop_timer(),
        vec![ApicWrite { offset: APIC_LVT_TIMER, value: 0x1_00FD }, ApicWrite { offset: APIC_TIMER_INITIAL_COUNT, value: 0 }]
    );
    assert!(apic.delay_ticks(0).is_empty());
    assert_eq!(apic.delay_ticks(500)[2], ApicWrite { offset: APIC_TIMER_INITIAL_COUNT, value: 500 });
    assert_eq!(apic.delay_ticks(500)[3], ApicWrite { offset: APIC_LVT_TIMER, value: 0xFD });
    assert_eq!(apic.timer_test_writes()[2], ApicWrite { offset: APIC_TIMER_INITIAL_COUNT, value: 123456 });
}

#[test]
fn apic_tests_pass_on_exactly_one_interrupt() {
    let apic = LocalApic::from_id_register(LocalApicAccess::XApic, 0);
    assert_eq!(apic.test_timer_interrupt(1), Ok(()));
    assert_eq!(apic.test_timer_interrupt(0), Err(LocalApicError::TimerTestFailed));
    assert_eq!(apic.test_timer_interrupt(2), Err(LocalApicError::TimerTestFailed));
    assert_eq!(apic.send_self_ipi(1), Ok(()));
    assert_eq!(apic.send_self_ipi(0), Err(LocalApicError::FailedToSendSelfIpi));
    assert_eq!(current_timer_count(0x1_0000_0005), 5);
}

#[test]
fn the_controller_keeps_what_it_was_built_from() {
    let apic = LocalApic::from_id_register(LocalApicAccess::XApic, 0x0500_0000);
    let c = InterruptController::new(apic, io_apic(), 1_000_000);
    assert_eq!(c.local_apic().id(), 5);
    assert_eq!(c.io_apic().redirection_entry_count, 24);
    assert_eq!(c.local_timer_frequency(), 1_000_000);
}
