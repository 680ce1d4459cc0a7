//! A model of physical memory: the machine's RAM as a sequence of 64-bit
//! words, frame after frame. Page tables are read and written as words;
//! file images and firmware tables as little-endian bytes.

use vstd::prelude::*;

verus! {

/// Number of 64-bit words in one 4 KiB frame.
pub const WORDS_PER_FRAME: u64 = 512;

/// Byte `k` (0 = least significant) of the word `w`.
pub open spec fn byte_of_word(w: u64, k: u64) -> u8 {
    ((w >> (k * 8)) & 0xffu64) as u8
}

/// The word `w` with its byte `k` replaced by `v`.
pub open spec fn set_byte_of_word(w: u64, k: u64, v: u8) -> u64 {
    (w & !(0xffu64 << (k * 8))) | ((v as u64) << (k * 8))
}

/// Word `idx` of the page-table frame `frame`.
pub open spec fn mem_entry(m: Seq<u64>, frame: nat, idx: nat) -> u64 {
    m[(frame * 512 + idx) as int]
}

/// The byte at physical address `addr`.
pub open spec fn mem_byte(m: Seq<u64>, addr: nat) -> u8 {
    byte_of_word(m[(addr / 8) as int], (addr % 8) as u64)
}

/// The number of whole frames that `m` holds.
pub open spec fn mem_frames(m: Seq<u64>) -> nat {
    m.len() / 512
}

/// Whether every word of frame `frame` is zero.
pub open spec fn frame_is_zero(m: Seq<u64>, frame: nat) -> bool {
    forall|i: nat| i < 512 ==> #[trigger] mem_entry(m, frame, i) == 0
}

pub proof fn lemma_set_byte(w: u64, k: u64, v: u8)
    requires
        k < 8,
    ensures
        byte_of_word(set_byte_of_word(w, k, v), k) == v,
        forall|j: u64| j < 8 && j != k ==> #[trigger] byte_of_word(set_byte_of_word(w, k, v), j) == byte_of_word(w, j),
{
    assert(((((w & !(0xffu64 << (k * 8))) | ((v as u64) << (k * 8))) >> (k * 8)) & 0xffu64) as u8 == v) by (bit_vector)
        requires
            k < 8,
    ;
    assert forall|j: u64| j < 8 && j != k implies #[trigger] byte_of_word(set_byte_of_word(w, k, v), j) == byte_of_word(w, j) by {
        assert(((((w & !(0xffu64 << (k * 8))) | ((v as u64) << (k * 8))) >> (j * 8)) & 0xffu64) == ((w >> (j * 8)) & 0xffu64)) by (bit_vector)
            requires
                k < 8,
                j < 8,
                j != k,
        ;
    }
}

/// Physical memory, `mem_frames` frames of 512 words each.
pub struct PhysicalMemory {
    words: Vec<u64>,
}

impl View for PhysicalMemory {
    type V = Seq<u64>;

    closed spec fn view(&self) -> Seq<u64> {
        self.words@
    }
}

impl PhysicalMemory {
    /// Memory of `frame_count` frames, all zero.
    pub fn new(frame_count: u64) -> (r: Self)
        requires
            frame_count * 512 <= usize::MAX,
        ensures
            r@.len() == frame_count * 512,
            forall|i: int| 0 <= i < r@.len() ==> r@[i] == 0,
    {
        let total = (frame_count * 512) as usize;
        let mut words: Vec<u64> = Vec::new();
        let mut i: usize = 0;
        while i < total
            invariant
                i <= total,
                words@.len() == i,
                forall|j: int| 0 <= j < i ==> words@[j] == 0,
            decreases total - i,
        {
            words.push(0);
            i = i + 1;
        }
        Self { words }
    }

    /// The number of whole frames.
    pub fn frame_count(&self) -> (r: u64)
        ensures
            r == mem_frames(self@),
    {
        (self.words.len() / 512) as u64
    }

    /// The number of words.
    pub fn word_count(&self) -> (r: usize)
        ensures
            r == self@.len(),
    {
        self.words.len()
    }

    pub fn read_word(&self, index: u64) -> (r: u64)
        requires
            index < self@.len(),
        ensures
            r == self@[index as int],
    {
        let n = self.words.len();
        assert(index < n);
        self.words[index as usize]
    }

    pub fn write_word(&mut self, index: u64, value: u64)
        requires
            index < old(self)@.len(),
        ensures
            final(self)@ == old(self)@.update(index as int, value),
    {
        let n = self.words.len();
        assert(index < n);
        self.words.set(index as usize, value);
    }

    /// The byte at physical address `addr`.
    pub fn read_u8(&self, addr: u64) -> (r: u8)
        requires
            addr / 8 < self@.len(),
        ensures
            r == mem_byte(self@, addr as nat),
    {
        let n = self.words.len();
        assert(addr / 8 < n);
        let w = self.words[(addr / 8) as usize];
        let k = addr % 8;
        ((w >> (k * 8)) & 0xff) as u8
    }

    /// Stores `value` at physical address `addr`.
    pub fn write_u8(&mut self, addr: u64, value: u8)
        requires
            addr / 8 < old(self)@.len(),
        ensures
            final(self)@ == old(self)@.update(
                (addr / 8) as int,
                set_byte_of_word(old(self)@[(addr / 8) as int], addr % 8, value),
            ),
            mem_byte(final(self)@, addr as nat) == value,
            forall|a: nat| a != addr && a / 8 < old(self)@.len() ==> #[trigger] mem_byte(final(self)@, a) == mem_byte(old(self)@, a),
    {
        let n = self.words.len();
        assert(addr / 8 < n);
        let i = (addr / 8) as usize;
        let k = addr % 8;
        let w = self.words[i];
        let nw = (w & !(0xffu64 << (k * 8))) | ((value as u64) << (k * 8));
        self.words.set(i, nw);
        proof {
            lemma_set_byte(w, k, value);
            assert forall|a: nat| a != addr && a / 8 < old(self)@.len() implies #[trigger] mem_byte(self@, a) == mem_byte(old(self)@, a) by {
                if a / 8 == addr / 8 {
                    assert((a % 8) as u64 != k);
                }
            }
        }
    }

    /// Sets every word of frame `frame` to zero.
    pub fn zero_frame(&mut self, frame: u64)
        requires
            frame < mem_frames(old(self)@),
        ensures
            final(self)@.len() == old(self)@.len(),
            frame_is_zero(final(self)@, frame as nat),
            forall|i: int| 0 <= i < old(self)@.len() && !(frame * 512 <= i < frame * 512 + 512) ==> #[trigger] final(self)@[i] == old(self)@[i],
    {
        let n = self.words.len();
        assert(frame * 512 + 512 <= n) by (nonlinear_arith)
            requires
                frame < n / 512,
        ;
        let base = frame * 512;
        let mut i: u64 = 0;
        while i < 512
            invariant
                base == frame * 512,
                base + 512 <= n,
                n == old(self)@.len(),
                frame < mem_frames(old(self)@),
                i <= 512,
                self@.len() == old(self)@.len(),
                forall|j: nat| j < i ==> #[trigger] mem_entry(self@, frame as nat, j) == 0,
                forall|j: int| 0 <= j < old(self)@.len() && !(base <= j < base + i) ==> #[trigger] self@[j] == old(self)@[j],
            decreases 512 - i,
        {
            let ghost prev = self@;
            self.words.set((base + i) as usize, 0);
            assert forall|j: nat| j < i + 1 implies #[trigger] mem_entry(self@, frame as nat, j) == 0 by {
                if j < i {
                    assert(mem_entry(prev, frame as nat, j) == 0);
                }
            }
            i = i + 1;
        }
    }
}

} // verus!
