use dusk::arch::gdt::{
    kernel_code_descriptor, kernel_data_descriptor, tss_descriptor, user_code_descriptor, user_data_descriptor, Gdt,
    TaskStateSegment, USER_CODE_SELECTOR, USER_DATA_SELECTOR,
};
use dusk::arch::interrupts::{
    dispatch, install_apic_vectors, install_exceptions, page_fault_cause, Exception, Idt, InterruptAction, InterruptFrame,
    InterruptStackFrame, KERNEL_INTERRUPT_GATE, USER_INTERRUPT_GATE,
};
use dusk::memory::VirtualAddr;

#[test]
fn segment_descriptors_have_the_usual_values() {
    assert_eq!(kernel_code_descriptor(), 0x00A0_9A00_0000_0000);
    assert_eq!(kernel_data_descriptor(), 0x00C0_9200_0000_0000);
    assert_eq!(user_code_descriptor(), 0x00A0_FA00_0000_0000);
    assert_eq!(user_data_descriptor(), 0x00C0_F200_0000_0000);
    assert_eq!(USER_CODE_SELECTOR & 3, 3);
    assert_eq!(USER_DATA_SELECTOR, 4 * 8 + 3);
}

#[test]
fn the_tss_descriptor_splits_the_base() {
    let [low, high] = tss_descriptor(0xFFFF_8000_1234_5678);
    assert_eq!(low, 0x1200_8934_5678_0067);
    assert_eq!(high, 0xFFFF_8000);
    assert_eq!(low & 0xFFFF, 103);
    assert_eq!((low >> 16) & 0xFF_FFFF, 0x34_5678);
    assert_eq!(low >> 56, 0x12);
    assert_eq!((low >> 40) & 0xFF, 0x89);
}

#[test]
fn the_gdt_holds_the_segments_then_the_tss() {
    let g = Gdt::new(0x1000);
    assert_eq!(g.entries[0], 0);
    assert_eq!(g.entries[1], kernel_code_descriptor());
    assert_eq!(g.entries[4], user_data_descriptor());
    assert_eq!(g.entries[5], tss_descriptor(0x1000)[0]);
    assert_eq!(g.entries[6], 0);
}

#[test]
fn the_tss_keeps_the_kernel_and_double_fault_stacks() {
    let mut t = TaskStateSegment::new();
    assert_eq!(t.iomap_base, 104);
    t.set_kernel_stack(0xFFFF_FF00_0000_8000);
    t.set_double_fault_stack(0xFFFF_FF00_0001_0000);
    assert_eq!(t.privilege_stacks, [0xFFFF_FF00_0000_8000, 0, 0]);
    assert_eq!(t.interrupt_stacks[0], 0xFFFF_FF00_0001_0000);
    assert_eq!(t.interrupt_stacks[1], 0);
}

fn frame(vector: u64, error_code: u64, code_segment: u64) -> InterruptFrame {
    InterruptFrame {
        rax: 0,
        rcx: 0,
        rdx: 0,
        rsi: 0,
        rdi: 0,
        r8: 0,
        r9: 0,
        r10: 0,
        r11: 0,
        rbx: 0,
        rbp: 0,
        r12: 0,
        r13: 0,
        r14: 0,
        r15: 0,
        vector,
        error_code,
        stack_frame: InterruptStackFrame {
            instruction_pointer: VirtualAddr(0x40_1000),
            code_segment,
            cpu_flags: 0x202,
            stack_pointer: VirtualAddr(0x7fff_0000),
            stack_segment: 35,
        },
    }
}

#[test]
fn exceptions_are_dispatched_with_their_error_codes() {
    assert_eq!(dispatch(&frame(14, 6, 27)), InterruptAction::Exception { exception: Exception::PageFault, error_code: Some(6) });
    assert_eq!(dispatch(&frame(0, 9, 8)), InterruptAction::Exception { exception: Exception::DivideError, error_code: None });
    assert_eq!(dispatch(&frame(8, 0, 8)), InterruptAction::Exception { exception: Exception::DoubleFault, error_code: Some(0) });
    assert_eq!(dispatch(&frame(3, 0, 27)), InterruptAction::Exception { exception: Exception::Breakpoint, error_code: None });
    assert_eq!(dispatch(&frame(9, 0, 8)), InterruptAction::UnhandledException(9));
    assert_eq!(dispatch(&frame(31, 0, 8)), InterruptAction::UnhandledException(31));
    assert_eq!(Exception::GeneralProtection.name(), "GENERAL PROTECTION FAULT");
    assert_eq!(Exception::X87FloatingPoint.name(), "X87 FLOATING-POINT EXCEPTION");
}

#[test]
fn the_test_exit_must_come_from_user_mode() {
    assert_eq!(dispatch(&frame(0x80, 0, 27)), InterruptAction::UserTestExit);
    assert_eq!(dispatch(&frame(0x80, 0, 8)), InterruptAction::TestExitFromKernel);
}

#[test]
fn apic_vectors_are_dispatched_by_their_low_byte() {
    assert_eq!(dispatch(&frame(0xF1, 0, 8)), InterruptAction::PitCalibration);
    assert_eq!(dispatch(&frame(0xFD, 0, 8)), InterruptAction::ApicTimer);
    assert_eq!(dispatch(&frame(0xFE, 0, 8)), InterruptAction::ApicError);
    assert_eq!(dispatch(&frame(0xFF, 0, 8)), InterruptAction::Spurious);
    assert_eq!(dispatch(&frame(0x40, 0, 8)), InterruptAction::Unhandled(0x40));
    assert_eq!(dispatch(&frame(0x1FD, 0, 8)), InterruptAction::ApicTimer);
}

#[test]
fn page_fault_error_codes_are_read_bit_by_bit() {
    let c = page_fault_cause(0b0000_0111);
    assert!(c.protection_violation && c.write && c.user);
    assert!(!c.reserved_bit && !c.instruction_fetch && !c.sgx);
    let c = page_fault_cause(0x8010);
    assert!(!c.protection_violation && !c.write && !c.user);
    assert!(c.instruction_fetch && c.sgx && !c.shadow_stack && !c.protection_key);
}

#[test]
fn gates_hold_the_handler_address_whole() {
    let mut idt = Idt::new();
    assert_eq!(idt.entry(14).attributes, 0);
    let handlers: Vec<u64> = (0..256u64).map(|v| 0xFFFF_FFFF_8012_0000 + v * 16).collect();
    install_exceptions(&mut idt, &handlers);
    install_apic_vectors(&mut idt, &handlers);
    let pf = idt.entry(14);
    assert_eq!(pf.attributes, KERNEL_INTERRUPT_GATE);
    assert_eq!(pf.code_selector, 8);
    let addr = (pf.offset_low as u64) | ((pf.offset_middle as u64) << 16) | ((pf.offset_high as u64) << 32);
    assert_eq!(addr, 0xFFFF_FFFF_8012_0000 + 14 * 16);
    assert_eq!(idt.entry(3).attributes, USER_INTERRUPT_GATE);
    assert_eq!(idt.entry(0x80).attributes, USER_INTERRUPT_GATE);
    assert_eq!(idt.entry(8).ist, 1);
    assert_eq!(idt.entry(9).attributes, 0);
    assert_eq!(idt.entry(0xFD).attributes, KERNEL_INTERRUPT_GATE);
    assert_eq!(idt.entry(0x40).attributes, 0);
}
