//! The saved context of a thread that is not running.

use vstd::prelude::*;

use crate::memory::address_space::AddressSpace;
use crate::memory::phys::PhysicalMemory;
use crate::memory::VirtualAddr;

verus! {

/// What a switch to a thread restores: its kernel stack pointer. The rest
/// of its registers lie on that stack.
#[derive(Debug)]
pub struct ThreadContext {
    pub rsp: u64,
}

/// The bytes of kernel stack that a new thread's first switch pops: six
/// callee-saved registers and a return address.
pub const INITIAL_FRAME_BYTES: u64 = 56;

/// Where word `i` of the initial frame below `top` lies in `space`.
pub open spec fn frame_word_phys(space: AddressSpace, mem: Seq<u64>, top: u64, i: int) -> Option<u64> {
    space.translate(mem, (top - INITIAL_FRAME_BYTES + 8 * i) as u64)
}

/// The word of memory that word `i` of the initial frame below `top`
/// reaches in `space`.
pub open spec fn frame_word(space: AddressSpace, mem: Seq<u64>, top: u64, i: int) -> int {
    (frame_word_phys(space, mem, top, i)->Some_0 / 8) as int
}

/// Each of the seven words below `top` is mapped in `space` to a whole
/// word of memory.
pub open spec fn frame_words_mapped(space: AddressSpace, mem: Seq<u64>, top: u64) -> bool {
    &&& top >= INITIAL_FRAME_BYTES
    &&& forall|i: int|
        0 <= i < 7 ==> (#[trigger] frame_word_phys(space, mem, top, i) matches Some(p) && p % 8 == 0 && p / 8 < mem.len())
}

/// The words of a new thread's initial frame, from its stack pointer up:
/// r15, r14, r13, r12 (the user entry), rbx (the user stack), rbp and the
/// address at which the thread first runs.
pub open spec fn initial_frame_words(user_entry: u64, user_stack: u64, return_address: u64) -> Seq<u64> {
    seq![0u64, 0u64, 0u64, user_entry, user_stack, 0u64, return_address]
}

/// `mem` with `vals[i]` written to word `addrs[i]`, first to last.
pub open spec fn words_written(mem: Seq<u64>, addrs: Seq<int>, vals: Seq<u64>) -> Seq<u64>
    decreases addrs.len(),
{
    if addrs.len() == 0 {
        mem
    } else {
        words_written(mem, addrs.drop_last(), vals.drop_last()).update(addrs.last(), vals[addrs.len() - 1])
    }
}

/// After words are written in order, each word that no later write hits
/// holds its value, and every word that none hits is as it was.
pub proof fn lemma_words_written(mem: Seq<u64>, addrs: Seq<int>, vals: Seq<u64>)
    requires
        addrs.len() == vals.len(),
        forall|i: int| 0 <= i < addrs.len() ==> 0 <= #[trigger] addrs[i] < mem.len(),
    ensures
        words_written(mem, addrs, vals).len() == mem.len(),
        forall|w: int|
            0 <= w < mem.len() && (forall|i: int| 0 <= i < addrs.len() ==> addrs[i] != w) ==> #[trigger] words_written(
                mem,
                addrs,
                vals,
            )[w] == mem[w],
        forall|i: int|
            0 <= i < addrs.len() && (forall|j: int| i < j < addrs.len() ==> addrs[j] != addrs[i]) ==> words_written(
                mem,
                addrs,
                vals,
            )[#[trigger] addrs[i]] == vals[i],
    decreases addrs.len(),
{
    if addrs.len() > 0 {
        let a = addrs.drop_last();
        let v = vals.drop_last();
        lemma_words_written(mem, a, v);
        assert forall|i: int| 0 <= i < a.len() implies 0 <= #[trigger] a[i] < mem.len() by {
            assert(a[i] == addrs[i]);
        }
        assert forall|i: int|
            0 <= i < addrs.len() && (forall|j: int| i < j < addrs.len() ==> addrs[j] != addrs[i]) implies words_written(
            mem,
            addrs,
            vals,
        )[#[trigger] addrs[i]] == vals[i] by {
            if i < addrs.len() - 1 {
                assert(addrs[addrs.len() - 1] != addrs[i]);
                assert(a[i] == addrs[i]);
                assert forall|j: int| i < j < a.len() implies a[j] != a[i] by {
                    assert(a[j] == addrs[j]);
                }
            }
        }
        assert forall|w: int|
            0 <= w < mem.len() && (forall|i: int| 0 <= i < addrs.len() ==> addrs[i] != w) implies #[trigger] words_written(
            mem,
            addrs,
            vals,
        )[w] == mem[w] by {
            assert(addrs[addrs.len() - 1] != w);
            assert forall|i: int| 0 <= i < a.len() implies a[i] != w by {
                assert(a[i] == addrs[i]);
            }
        }
    }
}

impl ThreadContext {
    pub open spec fn spec_new(user_entry: VirtualAddr, user_stack: VirtualAddr, kernel_stack_top: VirtualAddr) -> ThreadContext {
        ThreadContext { rsp: (kernel_stack_top.0 - INITIAL_FRAME_BYTES) as u64 }
    }

    /// The context of a new user thread whose kernel stack ends at
    /// `kernel_stack_top` in `kernel_space`: the initial frame
    /// ([`initial_frame_words`]) is written, word by word from the lowest,
    /// to the memory that the seven words below the top reach, and the
    /// stack pointer points at it.
    pub fn new(
        user_entry: VirtualAddr,
        user_stack: VirtualAddr,
        kernel_stack_top: VirtualAddr,
        kernel_space: &AddressSpace,
        mem: &mut PhysicalMemory,
        return_address: u64,
    ) -> (r: Self)
        requires
            kernel_space.spec_root().inv(),
            frame_words_mapped(*kernel_space, old(mem)@, kernel_stack_top.0),
        ensures
            r == Self::spec_new(user_entry, user_stack, kernel_stack_top),
            final(mem)@ == words_written(
                old(mem)@,
                Seq::new(7, |i: int| frame_word(*kernel_space, old(mem)@, kernel_stack_top.0, i)),
                initial_frame_words(user_entry.0, user_stack.0, return_address),
            ),
    {
        let top = kernel_stack_top.0;
        let base = top - INITIAL_FRAME_BYTES;
        let vals = Self::initial_frame(user_entry, user_stack, return_address);
        let ghost m0 = mem@;
        let ghost ws = Seq::new(7, |i: int| frame_word(*kernel_space, m0, top, i));
        let mut addrs: Vec<u64> = Vec::new();
        let mut i: u64 = 0;
        while i < 7
            invariant
                mem@ == m0,
                kernel_space.spec_root().inv(),
                frame_words_mapped(*kernel_space, m0, top),
                base == top - INITIAL_FRAME_BYTES,
                ws == Seq::new(7, |i: int| frame_word(*kernel_space, m0, top, i)),
                i <= 7,
                addrs@.len() == i,
                forall|j: int| 0 <= j < i ==> #[trigger] addrs@[j] as int == ws[j] && addrs@[j] < m0.len(),
            decreases 7 - i,
        {
            proof {
                assert(frame_word_phys(*kernel_space, m0, top, i as int) is Some);
                assert((top - INITIAL_FRAME_BYTES + 8 * i) as u64 == base + 8 * i);
            }
            let p = kernel_space.to_physical(mem, VirtualAddr::new(base + 8 * i)).unwrap();
            addrs.push(p.0 / 8);
            i = i + 1;
        }
        let ghost vs = initial_frame_words(user_entry.0, user_stack.0, return_address);
        let mut k: usize = 0;
        while k < 7
            invariant
                addrs@.len() == 7,
                vals@ == vs,
                vs.len() == 7,
                ws.len() == 7,
                forall|j: int| 0 <= j < 7 ==> #[trigger] addrs@[j] as int == ws[j] && addrs@[j] < m0.len(),
                k <= 7,
                mem@.len() == m0.len(),
                mem@ == words_written(m0, ws.take(k as int), vs.take(k as int)),
            decreases 7 - k,
        {
            mem.write_word(addrs[k], vals[k]);
            proof {
                assert(ws.take(k + 1).drop_last() =~= ws.take(k as int));
                assert(vs.take(k + 1).drop_last() =~= vs.take(k as int));
            }
            k = k + 1;
        }
        proof {
            assert(ws.take(7) =~= ws);
            assert(vs.take(7) =~= vs);
        }
        ThreadContext { rsp: base }
    }

    /// The words of a new thread's initial frame, from its stack pointer up.
    pub fn initial_frame(user_entry: VirtualAddr, user_stack: VirtualAddr, return_address: u64) -> (r: Vec<u64>)
        ensures
            r@ == initial_frame_words(user_entry.0, user_stack.0, return_address),
    {
        let r = vec![0u64, 0u64, 0u64, user_entry.0, user_stack.0, 0u64, return_address];
        assert(r@ =~= initial_frame_words(user_entry.0, user_stack.0, return_address));
        r
    }

    /// The context that a switch from the boot thread saves into.
    pub fn empty() -> (r: Self)
        ensures
            r.rsp == 0,
    {
        ThreadContext { rsp: 0 }
    }
}

} // verus!
