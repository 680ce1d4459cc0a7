//! The global descriptor table and the task state segment: the kernel and
//! user code and data descriptors, the TSS descriptor that points at the
//! task state segment, and the stacks the task state segment names. Loading
//! the table into the processor is the caller's.

use vstd::prelude::*;

verus! {

/// The selectors of the table's descriptors; user selectors ask for
/// privilege level 3.
pub const KERNEL_CODE_SELECTOR: u16 = 8;
pub const KERNEL_DATA_SELECTOR: u16 = 16;
pub const USER_CODE_SELECTOR: u16 = 27;
pub const USER_DATA_SELECTOR: u16 = 35;
pub const TSS_SELECTOR: u16 = 40;

/// The size of the task state segment in bytes.
pub const TSS_SIZE: u64 = 104;

/// Descriptor bits: present, code or data (not system), privilege level 3,
/// executable, readable or writable, 4 KiB granularity, 32-bit default
/// size, 64-bit code.
pub const PRESENT: u64 = 0x0000_8000_0000_0000;
pub const CODE_DATA_DESCRIPTOR: u64 = 0x0000_1000_0000_0000;
pub const USER_PRIVILEGE: u64 = 0x0000_6000_0000_0000;
pub const EXECUTABLE: u64 = 0x0000_0800_0000_0000;
pub const READ_WRITE: u64 = 0x0000_0200_0000_0000;
pub const GRANULARITY: u64 = 0x0080_0000_0000_0000;
pub const SIZE: u64 = 0x0040_0000_0000_0000;
pub const LONG_MODE: u64 = 0x0020_0000_0000_0000;

/// The kernel's code segment: present, executable, readable, 64-bit.
pub fn kernel_code_descriptor() -> (r: u64)
    ensures
        r == PRESENT | CODE_DATA_DESCRIPTOR | EXECUTABLE | READ_WRITE | LONG_MODE | GRANULARITY,
{
    PRESENT | CODE_DATA_DESCRIPTOR | EXECUTABLE | READ_WRITE | LONG_MODE | GRANULARITY
}

/// The kernel's data segment: present, writable.
pub fn kernel_data_descriptor() -> (r: u64)
    ensures
        r == PRESENT | CODE_DATA_DESCRIPTOR | READ_WRITE | SIZE | GRANULARITY,
{
    PRESENT | CODE_DATA_DESCRIPTOR | READ_WRITE | SIZE | GRANULARITY
}

/// User code: as the kernel's, at privilege level 3.
pub fn user_code_descriptor() -> (r: u64)
    ensures
        r == PRESENT | CODE_DATA_DESCRIPTOR | USER_PRIVILEGE | EXECUTABLE | READ_WRITE | LONG_MODE | GRANULARITY,
{
    PRESENT | CODE_DATA_DESCRIPTOR | USER_PRIVILEGE | EXECUTABLE | READ_WRITE | LONG_MODE | GRANULARITY
}

/// User data: as the kernel's, at privilege level 3.
pub fn user_data_descriptor() -> (r: u64)
    ensures
        r == PRESENT | CODE_DATA_DESCRIPTOR | USER_PRIVILEGE | READ_WRITE | SIZE | GRANULARITY,
{
    PRESENT | CODE_DATA_DESCRIPTOR | USER_PRIVILEGE | READ_WRITE | SIZE | GRANULARITY
}

/// The low word of the TSS descriptor for a task state segment at `base`:
/// the limit (size less one) in bits 0-15 and 48-51, the base's low 24 bits
/// in bits 16-39 and its next 8 in bits 56-63, type 9 (available 64-bit
/// TSS) in bits 40-43, present in bit 47.
pub open spec fn tss_low(base: u64) -> u64 {
    ((TSS_SIZE - 1) as u64 & 0xFFFF) | ((base & 0x00FF_FFFF) << 16u64) | (0x09u64 << 40u64) | (1u64 << 47u64) | ((((TSS_SIZE
        - 1) as u64 >> 16u64) & 0x0F) << 48u64) | (((base >> 24u64) & 0xFF) << 56u64)
}

/// A 64-bit address cut into the pieces that descriptors hold reads back
/// whole: the TSS descriptor's base fields with the high word, and an
/// interrupt gate's three offset fields.
pub proof fn lemma_address_pieces(base: u64)
    by (bit_vector)
    ensures
        ((tss_low(base) >> 16u64) & 0x00FF_FFFF) | (((tss_low(base) >> 56u64) & 0xFF) << 24u64) | ((base >> 32u64) << 32u64)
            == base,
        tss_low(base) & 0xFFFF == 103,
        (tss_low(base) >> 40u64) & 0xF == 9,
        (tss_low(base) >> 47u64) & 1 == 1,
        (tss_low(base) >> 48u64) & 0xF == 0,
        ((base as u16) as u64) | ((((base >> 16u64) as u16) as u64) << 16u64) | ((((base >> 32u64) as u32) as u64) << 32u64)
            == base,
{
}

/// The two words of the TSS descriptor for a task state segment at `base`.
/// Its base fields read `base` back, its limit is the segment's size less
/// one, and it is a present, available 64-bit TSS.
pub fn tss_descriptor(base: u64) -> (r: [u64; 2])
    ensures
        r[0] == tss_low(base),
        r[1] == base >> 32u64,
        ((r[0] >> 16u64) & 0x00FF_FFFF) | (((r[0] >> 56u64) & 0xFF) << 24u64) | (r[1] << 32u64) == base,
        r[0] & 0xFFFF == TSS_SIZE - 1,
        (r[0] >> 40u64) & 0xF == 9,
        (r[0] >> 47u64) & 1 == 1,
{
    let limit: u64 = TSS_SIZE - 1;
    let low = (limit & 0xFFFF) | ((base & 0x00FF_FFFF) << 16) | (0x09 << 40) | (1 << 47) | (((limit >> 16) & 0x0F) << 48) | (((base
        >> 24) & 0xFF) << 56);
    let high = base >> 32;
    proof {
        lemma_address_pieces(base);
    }
    [low, high]
}

/// The task state segment: the stack the processor switches to on entering
/// the kernel from user mode, the interrupt stacks, and where the I/O
/// permission map would start (at the segment's end: there is none).
pub struct TaskStateSegment {
    pub privilege_stacks: [u64; 3],
    pub interrupt_stacks: [u64; 7],
    pub iomap_base: u16,
}

impl TaskStateSegment {
    /// A segment with no stacks set.
    pub fn new() -> (r: Self)
        ensures
            forall|i: int| 0 <= i < 3 ==> r.privilege_stacks[i] == 0,
            forall|i: int| 0 <= i < 7 ==> r.interrupt_stacks[i] == 0,
            r.iomap_base == TSS_SIZE,
    {
        TaskStateSegment { privilege_stacks: [0; 3], interrupt_stacks: [0; 7], iomap_base: 104 }
    }

    /// Sets the stack that entering the kernel from user mode switches to.
    pub fn set_kernel_stack(&mut self, stack_top: u64)
        ensures
            final(self).privilege_stacks[0] == stack_top,
            forall|i: int| 1 <= i < 3 ==> final(self).privilege_stacks[i] == old(self).privilege_stacks[i],
            final(self).interrupt_stacks == old(self).interrupt_stacks,
            final(self).iomap_base == old(self).iomap_base,
    {
        self.privilege_stacks[0] = stack_top;
    }

    /// Sets the first interrupt stack, which the double fault runs on.
    pub fn set_double_fault_stack(&mut self, stack_top: u64)
        ensures
            final(self).interrupt_stacks[0] == stack_top,
            forall|i: int| 1 <= i < 7 ==> final(self).interrupt_stacks[i] == old(self).interrupt_stacks[i],
            final(self).privilege_stacks == old(self).privilege_stacks,
            final(self).iomap_base == old(self).iomap_base,
    {
        self.interrupt_stacks[0] = stack_top;
    }
}

/// The global descriptor table: null, kernel code, kernel data, user code,
/// user data, and the two words of the TSS descriptor.
pub struct Gdt {
    pub entries: [u64; 7],
}

impl Gdt {
    /// The table for a task state segment at `tss_base`.
    pub fn new(tss_base: u64) -> (r: Self)
        ensures
            r.entries[0] == 0,
            r.entries[1] == PRESENT | CODE_DATA_DESCRIPTOR | EXECUTABLE | READ_WRITE | LONG_MODE | GRANULARITY,
            r.entries[2] == PRESENT | CODE_DATA_DESCRIPTOR | READ_WRITE | SIZE | GRANULARITY,
            r.entries[3] == PRESENT | CODE_DATA_DESCRIPTOR | USER_PRIVILEGE | EXECUTABLE | READ_WRITE | LONG_MODE | GRANULARITY,
            r.entries[4] == PRESENT | CODE_DATA_DESCRIPTOR | USER_PRIVILEGE | READ_WRITE | SIZE | GRANULARITY,
            r.entries[5] == tss_low(tss_base),
            r.entries[6] == tss_base >> 32u64,
    {
        let tss = tss_descriptor(tss_base);
        let tss_low_word = tss[0];
        let tss_high_word = tss[1];
        Gdt {
            entries: [
                0,
                kernel_code_descriptor(),
                kernel_data_descriptor(),
                user_code_descriptor(),
                user_data_descriptor(),
                tss_low_word,
                tss_high_word,
            ],
        }
    }
}

} // verus!
