//! Interrupts: the frame the common entry saves, the interrupt descriptor
//! table's gates, which handler each vector goes to and what it does, and
//! how a page fault's error code reads. Entering and leaving handlers, and
//! printing, are the caller's.

use vstd::prelude::*;

use crate::arch::apic::{APIC_ERROR_VECTOR, APIC_SPURIOUS_VECTOR, APIC_TIMER_VECTOR, PIT_CALIBRATION_VECTOR};
use crate::arch::gdt::{lemma_address_pieces, KERNEL_CODE_SELECTOR};
use crate::memory::VirtualAddr;

verus! {

/// What the processor pushes on an interrupt: where it was, its code
/// segment, flags, stack pointer and stack segment.
#[derive(Clone, Copy, Debug)]
pub struct InterruptStackFrame {
    pub instruction_pointer: VirtualAddr,
    pub code_segment: u64,
    pub cpu_flags: u64,
    pub stack_pointer: VirtualAddr,
    pub stack_segment: u64,
}

/// What the common entry saves: the general registers, the vector, the
/// error code (zero where the processor pushes none) and the processor's
/// frame.
#[derive(Clone, Copy, Debug)]
pub struct InterruptFrame {
    pub rax: u64,
    pub rcx: u64,
    pub rdx: u64,
    pub rsi: u64,
    pub rdi: u64,
    pub r8: u64,
    pub r9: u64,
    pub r10: u64,
    pub r11: u64,
    pub rbx: u64,
    pub rbp: u64,
    pub r12: u64,
    pub r13: u64,
    pub r14: u64,
    pub r15: u64,
    pub vector: u64,
    pub error_code: u64,
    pub stack_frame: InterruptStackFrame,
}

impl InterruptStackFrame {
    /// Whether the interrupt came from user mode (privilege level 3).
    pub fn from_user(&self) -> (r: bool)
        ensures
            r == (self.code_segment & 3 == 3),
    {
        self.code_segment & 3 == 3
    }
}

/// The processor exceptions the kernel installs handlers for.
#[derive(Clone, Copy, Debug, PartialEq, Eq, Structural)]
pub enum Exception {
    DivideError,
    Debug,
    NonMaskableInterrupt,
    Breakpoint,
    InvalidOpcode,
    DeviceNotAvailable,
    DoubleFault,
    InvalidTss,
    SegmentNotPresent,
    StackSegmentFault,
    GeneralProtection,
    PageFault,
    X87FloatingPoint,
    AlignmentCheck,
    MachineCheck,
    SimdFloatingPoint,
}

/// The exception with vector `v`, if the kernel handles it.
pub open spec fn spec_exception(v: u8) -> Option<Exception> {
    if v == 0 {
        Some(Exception::DivideError)
    } else if v == 1 {
        Some(Exception::Debug)
    } else if v == 2 {
        Some(Exception::NonMaskableInterrupt)
    } else if v == 3 {
        Some(Exception::Breakpoint)
    } else if v == 6 {
        Some(Exception::InvalidOpcode)
    } else if v == 7 {
        Some(Exception::DeviceNotAvailable)
    } else if v == 8 {
        Some(Exception::DoubleFault)
    } else if v == 10 {
        Some(Exception::InvalidTss)
    } else if v == 11 {
        Some(Exception::SegmentNotPresent)
    } else if v == 12 {
        Some(Exception::StackSegmentFault)
    } else if v == 13 {
        Some(Exception::GeneralProtection)
    } else if v == 14 {
        Some(Exception::PageFault)
    } else if v == 16 {
        Some(Exception::X87FloatingPoint)
    } else if v == 17 {
        Some(Exception::AlignmentCheck)
    } else if v == 18 {
        Some(Exception::MachineCheck)
    } else if v == 19 {
        Some(Exception::SimdFloatingPoint)
    } else {
        None
    }
}

/// Whether the processor pushes an error code for `e`.
pub open spec fn spec_has_error_code(e: Exception) -> bool {
    match e {
        Exception::DoubleFault | Exception::InvalidTss | Exception::SegmentNotPresent | Exception::StackSegmentFault
        | Exception::GeneralProtection | Exception::PageFault | Exception::AlignmentCheck => true,
        _ => false,
    }
}

/// The heading an exception's report carries.
pub open spec fn spec_exception_name(e: Exception) -> Seq<char> {
    match e {
        Exception::DivideError => "DIVIDE ERROR"@,
        Exception::Debug => "DEBUG EXCEPTION"@,
        Exception::NonMaskableInterrupt => "NON-MASKABLE INTERRUPT"@,
        Exception::Breakpoint => "BREAKPOINT"@,
        Exception::InvalidOpcode => "INVALID OPCODE"@,
        Exception::DeviceNotAvailable => "DEVICE NOT AVAILABLE"@,
        Exception::DoubleFault => "DOUBLE FAULT"@,
        Exception::InvalidTss => "INVALID TSS"@,
        Exception::SegmentNotPresent => "SEGMENT NOT PRESENT"@,
        Exception::StackSegmentFault => "STACK-SEGMENT FAULT"@,
        Exception::GeneralProtection => "GENERAL PROTECTION FAULT"@,
        Exception::PageFault => "PAGE FAULT"@,
        Exception::X87FloatingPoint => "X87 FLOATING-POINT EXCEPTION"@,
        Exception::AlignmentCheck => "ALIGNMENT CHECK"@,
        Exception::MachineCheck => "MACHINE CHECK"@,
        Exception::SimdFloatingPoint => "SIMD FLOATING-POINT EXCEPTION"@,
    }
}

impl Exception {
    /// The heading of the exception's report.
    pub fn name(self) -> (r: &'static str)
        ensures
            r@ == spec_exception_name(self),
    {
        match self {
            Exception::DivideError => "DIVIDE ERROR",
            Exception::Debug => "DEBUG EXCEPTION",
            Exception::NonMaskableInterrupt => "NON-MASKABLE INTERRUPT",
            Exception::Breakpoint => "BREAKPOINT",
            Exception::InvalidOpcode => "INVALID OPCODE",
            Exception::DeviceNotAvailable => "DEVICE NOT AVAILABLE",
            Exception::DoubleFault => "DOUBLE FAULT",
            Exception::InvalidTss => "INVALID TSS",
            Exception::SegmentNotPresent => "SEGMENT NOT PRESENT",
            Exception::StackSegmentFault => "STACK-SEGMENT FAULT",
            Exception::GeneralProtection => "GENERAL PROTECTION FAULT",
            Exception::PageFault => "PAGE FAULT",
            Exception::X87FloatingPoint => "X87 FLOATING-POINT EXCEPTION",
            Exception::AlignmentCheck => "ALIGNMENT CHECK",
            Exception::MachineCheck => "MACHINE CHECK",
            Exception::SimdFloatingPoint => "SIMD FLOATING-POINT EXCEPTION",
        }
    }
}

/// What an interrupt comes to.
#[derive(Clone, Copy, Debug, PartialEq, Eq, Structural)]
pub enum InterruptAction {
    /// Report the exception, with its error code where it has one; a
    /// breakpoint then returns, a page fault also reports the faulting
    /// address and its cause, and every other exception halts.
    Exception { exception: Exception, error_code: Option<u64> },
    /// The user-mode test exit: report it and halt.
    UserTestExit,
    /// The user-mode test exit reached from the kernel: a kernel bug.
    TestExitFromKernel,
    /// An exception vector with no handler: report it and halt.
    UnhandledException(u8),
    /// The PIT fired during calibration: record the timer's count, then
    /// end the interrupt.
    PitCalibration,
    /// The local timer fired: count it, then end the interrupt.
    ApicTimer,
    /// The local APIC reported an error: read and record it, then end the
    /// interrupt.
    ApicError,
    /// A spurious interrupt: nothing, not even its end.
    Spurious,
    /// Any other vector: report it.
    Unhandled(u8),
}

/// What the interrupt with (truncated) vector `vector`, error code
/// `error_code`, from code segment `code_segment`, comes to.
pub open spec fn spec_dispatch(vector: u8, error_code: u64, code_segment: u64) -> InterruptAction {
    if vector < 32 {
        match spec_exception(vector) {
            Some(e) => InterruptAction::Exception {
                exception: e,
                error_code: if spec_has_error_code(e) {
                    Some(error_code)
                } else {
                    None
                },
            },
            None => InterruptAction::UnhandledException(vector),
        }
    } else if vector == 0x80 {
        if code_segment & 3 == 3 {
            InterruptAction::UserTestExit
        } else {
            InterruptAction::TestExitFromKernel
        }
    } else if vector == PIT_CALIBRATION_VECTOR {
        InterruptAction::PitCalibration
    } else if vector == APIC_TIMER_VECTOR {
        InterruptAction::ApicTimer
    } else if vector == APIC_ERROR_VECTOR {
        InterruptAction::ApicError
    } else if vector == APIC_SPURIOUS_VECTOR {
        InterruptAction::Spurious
    } else {
        InterruptAction::Unhandled(vector)
    }
}

/// The exception with vector `v`, if the kernel handles it.
fn exception(v: u8) -> (r: Option<Exception>)
    ensures
        r == spec_exception(v),
{
    match v {
        0 => Some(Exception::DivideError),
        1 => Some(Exception::Debug),
        2 => Some(Exception::NonMaskableInterrupt),
        3 => Some(Exception::Breakpoint),
        6 => Some(Exception::InvalidOpcode),
        7 => Some(Exception::DeviceNotAvailable),
        8 => Some(Exception::DoubleFault),
        10 => Some(Exception::InvalidTss),
        11 => Some(Exception::SegmentNotPresent),
        12 => Some(Exception::StackSegmentFault),
        13 => Some(Exception::GeneralProtection),
        14 => Some(Exception::PageFault),
        16 => Some(Exception::X87FloatingPoint),
        17 => Some(Exception::AlignmentCheck),
        18 => Some(Exception::MachineCheck),
        19 => Some(Exception::SimdFloatingPoint),
        _ => None,
    }
}

/// Decides what the interrupt that saved `frame` comes to, by the low byte
/// of its vector: exceptions (0-31) and the test exit (0x80), then the
/// APIC's and the PIT's vectors.
pub fn dispatch(frame: &InterruptFrame) -> (r: InterruptAction)
    ensures
        r == spec_dispatch(frame.vector as u8, frame.error_code, frame.stack_frame.code_segment),
{
    let vector = frame.vector as u8;
    if vector < 32 {
        match exception(vector) {
            Some(e) => {
                let error_code = match e {
                    Exception::DoubleFault | Exception::InvalidTss | Exception::SegmentNotPresent | Exception::StackSegmentFault
                    | Exception::GeneralProtection | Exception::PageFault | Exception::AlignmentCheck => Some(frame.error_code),
                    _ => None,
                };
                InterruptAction::Exception { exception: e, error_code }
            },
            None => InterruptAction::UnhandledException(vector),
        }
    } else if vector == 0x80 {
        if frame.stack_frame.from_user() {
            InterruptAction::UserTestExit
        } else {
            InterruptAction::TestExitFromKernel
        }
    } else if vector == PIT_CALIBRATION_VECTOR {
        InterruptAction::PitCalibration
    } else if vector == APIC_TIMER_VECTOR {
        InterruptAction::ApicTimer
    } else if vector == APIC_ERROR_VECTOR {
        InterruptAction::ApicError
    } else if vector == APIC_SPURIOUS_VECTOR {
        InterruptAction::Spurious
    } else {
        InterruptAction::Unhandled(vector)
    }
}

/// What a page fault's error code says.
#[derive(Clone, Copy, Debug, PartialEq, Eq, Structural)]
pub struct PageFaultCause {
    /// A protection violation (bit 0 set) or a page not present.
    pub protection_violation: bool,
    /// A write (bit 1) or a read.
    pub write: bool,
    /// From user mode (bit 2) or supervisor mode.
    pub user: bool,
    /// A reserved page-table bit was set (bit 3).
    pub reserved_bit: bool,
    /// An instruction fetch (bit 4).
    pub instruction_fetch: bool,
    /// A protection-key violation (bit 5).
    pub protection_key: bool,
    /// A shadow-stack access (bit 6).
    pub shadow_stack: bool,
    /// A Software Guard Extensions violation (bit 15).
    pub sgx: bool,
}

/// Reads a page fault's error code.
pub fn page_fault_cause(error_code: u64) -> (r: PageFaultCause)
    ensures
        r.protection_violation == (error_code & 0x1 != 0),
        r.write == (error_code & 0x2 != 0),
        r.user == (error_code & 0x4 != 0),
        r.reserved_bit == (error_code & 0x8 != 0),
        r.instruction_fetch == (error_code & 0x10 != 0),
        r.protection_key == (error_code & 0x20 != 0),
        r.shadow_stack == (error_code & 0x40 != 0),
        r.sgx == (error_code & 0x8000 != 0),
{
    PageFaultCause {
        protection_violation: error_code & 0x1 != 0,
        write: error_code & 0x2 != 0,
        user: error_code & 0x4 != 0,
        reserved_bit: error_code & 0x8 != 0,
        instruction_fetch: error_code & 0x10 != 0,
        protection_key: error_code & 0x20 != 0,
        shadow_stack: error_code & 0x40 != 0,
        sgx: error_code & 0x8000 != 0,
    }
}

/// Gate attributes: a present interrupt gate, reachable from privilege
/// level 0 only or from user mode too.
pub const KERNEL_INTERRUPT_GATE: u8 = 0x8E;
pub const USER_INTERRUPT_GATE: u8 = 0xEE;

/// One gate of the interrupt descriptor table.
#[derive(Clone, Copy, Debug, PartialEq, Eq, Structural)]
pub struct IdtEntry {
    pub offset_low: u16,
    pub code_selector: u16,
    pub ist: u8,
    pub attributes: u8,
    pub offset_middle: u16,
    pub offset_high: u32,
    pub reserved: u32,
}

/// The handler address a gate holds.
pub open spec fn gate_address(e: IdtEntry) -> u64 {
    (e.offset_low as u64) | ((e.offset_middle as u64) << 16u64) | ((e.offset_high as u64) << 32u64)
}

impl IdtEntry {
    /// A gate that is not present.
    pub fn missing() -> (r: Self)
        ensures
            r == (IdtEntry {
                offset_low: 0,
                code_selector: 0,
                ist: 0,
                attributes: 0,
                offset_middle: 0,
                offset_high: 0,
                reserved: 0,
            }),
    {
        IdtEntry { offset_low: 0, code_selector: 0, ist: 0, attributes: 0, offset_middle: 0, offset_high: 0, reserved: 0 }
    }
}

/// The interrupt descriptor table: one gate per vector.
pub struct Idt {
    entries: Vec<IdtEntry>,
}

/// The entry that sends an interrupt to the kernel's code at `address`, on
/// interrupt stack `ist` (its low three bits), with `attributes`.
pub open spec fn spec_gate(address: u64, ist: u8, attributes: u8) -> IdtEntry {
    IdtEntry {
        offset_low: address as u16,
        code_selector: KERNEL_CODE_SELECTOR,
        ist: ist & 7,
        attributes,
        offset_middle: (address >> 16u64) as u16,
        offset_high: (address >> 32u64) as u32,
        reserved: 0,
    }
}

impl Idt {
    /// The gates by vector.
    pub closed spec fn view(&self) -> Seq<IdtEntry> {
        self.entries@
    }

    /// A table of 256 gates, none present.
    pub fn new() -> (r: Self)
        ensures
            r@.len() == 256,
            forall|i: int| 0 <= i < 256 ==> #[trigger] r@[i] == IdtEntry::missing_spec(),
    {
        let mut entries: Vec<IdtEntry> = Vec::new();
        let mut i: usize = 0;
        while i < 256
            invariant
                i <= 256,
                entries@.len() == i,
                forall|j: int| 0 <= j < i ==> #[trigger] entries@[j] == IdtEntry::missing_spec(),
            decreases 256 - i,
        {
            entries.push(IdtEntry::missing());
            i = i + 1;
        }
        Idt { entries }
    }

    /// Points `vector` at the handler at `address`: the entry holds the
    /// address whole, in three pieces.
    fn set_handler_address(&mut self, vector: u8, address: u64, ist: u8, attributes: u8)
        requires
            old(self)@.len() == 256,
        ensures
            final(self)@ == old(self)@.update(vector as int, spec_gate(address, ist, attributes)),
            gate_address(spec_gate(address, ist, attributes)) == address,
    {
        proof {
            lemma_address_pieces(address);
        }
        self.entries.set(
            vector as usize,
            IdtEntry {
                offset_low: address as u16,
                offset_middle: (address >> 16) as u16,
                offset_high: (address >> 32) as u32,
                code_selector: KERNEL_CODE_SELECTOR,
                ist: ist & 0b111,
                attributes,
                reserved: 0,
            },
        );
    }

    /// Points `vector` at the handler at `address`, for the kernel only.
    pub fn set_handler(&mut self, vector: u8, address: u64, ist: u8)
        requires
            old(self)@.len() == 256,
        ensures
            final(self)@ == old(self)@.update(vector as int, spec_gate(address, ist, KERNEL_INTERRUPT_GATE)),
            gate_address(final(self)@[vector as int]) == address,
    {
        self.set_handler_address(vector, address, ist, KERNEL_INTERRUPT_GATE);
    }

    /// Points `vector` at the handler at `address`, which user mode may
    /// also raise.
    pub fn set_user_handler(&mut self, vector: u8, address: u64, ist: u8)
        requires
            old(self)@.len() == 256,
        ensures
            final(self)@ == old(self)@.update(vector as int, spec_gate(address, ist, USER_INTERRUPT_GATE)),
            gate_address(final(self)@[vector as int]) == address,
    {
        self.set_handler_address(vector, address, ist, USER_INTERRUPT_GATE);
    }

    /// The entry of `vector`.
    pub fn entry(&self, vector: u8) -> (r: IdtEntry)
        requires
            self@.len() == 256,
        ensures
            r == self@[vector as int],
    {
        self.entries[vector as usize]
    }
}

impl IdtEntry {
    pub open spec fn missing_spec() -> IdtEntry {
        IdtEntry { offset_low: 0, code_selector: 0, ist: 0, attributes: 0, offset_middle: 0, offset_high: 0, reserved: 0 }
    }
}

/// How an exception's gate is installed: for user mode too, and on which
/// interrupt stack. Breakpoints and the test exit may be raised from user
/// mode; the double fault runs on interrupt stack 1.
pub open spec fn spec_exception_gate(vector: u8) -> Option<(bool, u8)> {
    if vector == 3 || vector == 0x80 {
        Some((true, 0))
    } else if vector == 8 {
        Some((false, 1))
    } else if spec_exception(vector) is Some {
        Some((false, 0))
    } else {
        None
    }
}

/// Installs the exception handlers at `handlers`, one address per vector
/// that has a handler (the others are left as they were): the entry of each
/// handled vector holds its handler, open to user mode and on the interrupt
/// stack that [`spec_exception_gate`] gives.
pub fn install_exceptions(idt: &mut Idt, handlers: &Vec<u64>)
    requires
        old(idt)@.len() == 256,
        handlers@.len() == 256,
    ensures
        final(idt)@.len() == 256,
        forall|v: int|
            0 <= v < 256 ==> #[trigger] final(idt)@[v] == match spec_exception_gate(v as u8) {
                None => old(idt)@[v],
                Some((user, ist)) => spec_gate(
                    handlers@[v],
                    ist,
                    if user {
                        USER_INTERRUPT_GATE
                    } else {
                        KERNEL_INTERRUPT_GATE
                    },
                ),
            },
{
    let mut v: usize = 0;
    while v < 256
        invariant
            v <= 256,
            idt@.len() == 256,
            handlers@.len() == 256,
            forall|w: int|
                0 <= w < v ==> #[trigger] idt@[w] == match spec_exception_gate(w as u8) {
                    None => old(idt)@[w],
                    Some((user, ist)) => spec_gate(
                        handlers@[w],
                        ist,
                        if user {
                            USER_INTERRUPT_GATE
                        } else {
                            KERNEL_INTERRUPT_GATE
                        },
                    ),
                },
            forall|w: int| v <= w < 256 ==> #[trigger] idt@[w] == old(idt)@[w],
        decreases 256 - v,
    {
        let vector = v as u8;
        let address = handlers[v];
        if vector == 3 || vector == 0x80 {
            idt.set_user_handler(vector, address, 0);
        } else if vector == 8 {
            idt.set_handler(vector, address, 1);
        } else if exception(vector).is_some() {
            idt.set_handler(vector, address, 0);
        }
        v = v + 1;
    }
}

/// Installs the handlers of the PIT's and the local APIC's vectors, kernel
/// only, from `handlers` (one address per vector); the other gates are
/// left as they were.
pub fn install_apic_vectors(idt: &mut Idt, handlers: &Vec<u64>)
    requires
        old(idt)@.len() == 256,
        handlers@.len() == 256,
    ensures
        final(idt)@.len() == 256,
        forall|v: int|
            0 <= v < 256 ==> #[trigger] final(idt)@[v] == if v == PIT_CALIBRATION_VECTOR || v == APIC_ERROR_VECTOR || v
                == APIC_TIMER_VECTOR || v == APIC_SPURIOUS_VECTOR {
                spec_gate(handlers@[v], 0, KERNEL_INTERRUPT_GATE)
            } else {
                old(idt)@[v]
            },
{
    idt.set_handler(PIT_CALIBRATION_VECTOR, handlers[PIT_CALIBRATION_VECTOR as usize], 0);
    idt.set_handler(APIC_ERROR_VECTOR, handlers[APIC_ERROR_VECTOR as usize], 0);
    idt.set_handler(APIC_TIMER_VECTOR, handlers[APIC_TIMER_VECTOR as usize], 0);
    idt.set_handler(APIC_SPURIOUS_VECTOR, handlers[APIC_SPURIOUS_VECTOR as usize], 0);
}

} // verus!
