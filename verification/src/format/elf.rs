//! Static ELF64 executables for x86-64: the header checks and the loadable
//! segments.

use vstd::prelude::*;

use crate::format::{le16, le32, le64, u16_at, u32_at, u64_at};

verus! {

/// The image is not an executable the kernel can load.
#[derive(Clone, Copy, Debug, PartialEq, Eq, Structural)]
pub struct ElfError;

/// The ELF machine number of x86-64.
pub const MACHINE: u16 = 62;

/// The size of a program header.
pub const PROGRAM_HEADER_SIZE: u64 = 56;

/// A parsed executable: the image, where its program headers lie, and its
/// entry point.
pub struct Elf<'a> {
    bytes: &'a [u8],
    headers_offset: u64,
    header_count: u64,
    pub entry: u64,
}

/// A loadable segment: the bytes it takes from the image, where it goes,
/// how much memory it spans, and its access rights.
pub struct Segment<'a> {
    pub data: &'a [u8],
    pub address: u64,
    pub memory_size: u64,
    pub writable: bool,
    pub executable: bool,
}

/// The identification bytes of a little-endian ELF64 image of the current
/// version.
pub open spec fn elf_ident_ok(b: Seq<u8>) -> bool {
    &&& b[0] == 0x7f
    &&& b[1] == 0x45
    &&& b[2] == 0x4c
    &&& b[3] == 0x46
    &&& b[4] == 2
    &&& b[5] == 1
    &&& b[6] == 1
}

/// The fixed fields of the header describe a static x86-64 executable with
/// 64-byte headers and 56-byte program headers.
pub open spec fn elf_header_ok(b: Seq<u8>) -> bool {
    &&& elf_ident_ok(b)
    &&& le16(b, 16) == 2
    &&& le16(b, 18) == MACHINE
    &&& le32(b, 20) == 1
    &&& le16(b, 52) == 64
    &&& le16(b, 54) == 56
}

/// The type of program header `i` of the table at `off`.
pub open spec fn ph_type(b: Seq<u8>, off: int, i: int) -> nat {
    le32(b, off + i * 56)
}

/// No program header asks for dynamic linking (type 2) or an interpreter
/// (type 3).
pub open spec fn no_dynamic_headers(b: Seq<u8>, off: int, count: int) -> bool {
    forall|i: int| 0 <= i < count ==> #[trigger] ph_type(b, off, i) != 2 && ph_type(b, off, i) != 3
}

/// What [`Elf::parse`] makes of `b`: the program headers' offset and count
/// and the entry point, or an error.
pub open spec fn spec_parse(b: Seq<u8>) -> Result<(nat, nat, nat), ElfError> {
    if b.len() < 64 || !elf_header_ok(b) {
        Err(ElfError)
    } else {
        let off = le64(b, 32);
        let count = le16(b, 56);
        if off + count * 56 > u64::MAX || off + count * 56 > b.len() || !no_dynamic_headers(b, off as int, count as int) {
            Err(ElfError)
        } else {
            Ok((off, count, le64(b, 24)))
        }
    }
}

/// The numbers, in order, of the loadable (type 1) program headers among
/// the first `n` of the table at `off`.
pub open spec fn load_indices(b: Seq<u8>, off: int, n: nat) -> Seq<int>
    decreases n,
{
    if n == 0 {
        Seq::empty()
    } else {
        let before = load_indices(b, off, (n - 1) as nat);
        if ph_type(b, off, n - 1) == 1 {
            before.push(n - 1)
        } else {
            before
        }
    }
}

/// A segment as the program header at `h` describes it: where its bytes
/// start and end in the image, its address and memory size, and whether it
/// is writable and executable. Its file size may not exceed its memory
/// size; an alignment above 1 must be a power of two (no bit in common with
/// the alignment less one) to which address and offset are congruent; its
/// bytes must lie in the image.
pub open spec fn spec_segment(b: Seq<u8>, h: int) -> Result<(nat, nat, u64, u64, bool, bool), ElfError> {
    let offset = le64(b, h + 8);
    let address = le64(b, h + 16);
    let file_size = le64(b, h + 32);
    let memory_size = le64(b, h + 40);
    let alignment = le64(b, h + 48);
    let flags = le32(b, h + 4) as u32;
    if file_size > memory_size || (alignment > 1 && ((alignment as u64) & ((alignment - 1) as u64) != 0
        || address % alignment != offset % alignment)) {
        Err(ElfError)
    } else if offset + file_size > u64::MAX || offset + file_size > b.len() {
        Err(ElfError)
    } else {
        Ok((offset, offset + file_size, address as u64, memory_size as u64, flags & 2 != 0, flags & 1 != 0))
    }
}

/// A program header whose file size does not exceed its memory size, whose
/// alignment is at most 1 or a power of two (no bit in common with itself
/// less one) to which its address and offset are congruent, and whose bytes
/// lie in the image, is a segment: at that address, of that memory size,
/// holding those bytes, writable and executable as its flags say. The
/// address itself need not be aligned.
pub proof fn lemma_segment_accepted(b: Seq<u8>, h: int)
    requires
        le64(b, h + 32) <= le64(b, h + 40),
        le64(b, h + 48) <= 1 || ((le64(b, h + 48) as u64) & ((le64(b, h + 48) - 1) as u64) == 0 && le64(b, h + 16) % le64(b, h + 48)
            == le64(b, h + 8) % le64(b, h + 48)),
        le64(b, h + 8) + le64(b, h + 32) <= b.len(),
        b.len() <= u64::MAX,
    ensures
        spec_segment(b, h) matches Ok((start, end, address, memory_size, writable, executable)) && start == le64(b, h + 8) && end == le64(
            b,
            h + 8,
        ) + le64(b, h + 32) && address == le64(b, h + 16) as u64 && memory_size == le64(b, h + 40) as u64 && writable == (le32(b, h + 4) as u32
            & 2 != 0) && executable == (le32(b, h + 4) as u32 & 1 != 0),
{
}

/// `seg` is the segment that `spec_segment` describes.
pub open spec fn segment_matches(b: Seq<u8>, seg: Result<Segment, ElfError>, spec: Result<(nat, nat, u64, u64, bool, bool), ElfError>) -> bool {
    match (seg, spec) {
        (Ok(s), Ok((start, end, address, memory_size, writable, executable))) => {
            &&& s.data@ == b.subrange(start as int, end as int)
            &&& s.address == address
            &&& s.memory_size == memory_size
            &&& s.writable == writable
            &&& s.executable == executable
        },
        (Err(_), Err(_)) => true,
        _ => false,
    }
}

impl<'a> Elf<'a> {
    pub closed spec fn spec_bytes(&self) -> Seq<u8> {
        self.bytes@
    }

    pub closed spec fn spec_headers_offset(&self) -> nat {
        self.headers_offset as nat
    }

    pub closed spec fn spec_header_count(&self) -> nat {
        self.header_count as nat
    }

    pub closed spec fn spec_entry(&self) -> u64 {
        self.entry
    }

    /// Checks that `bytes` is a static x86-64 ELF64 executable whose
    /// program headers lie in the image, and that none of them asks for
    /// dynamic linking.
    pub fn parse(bytes: &'a [u8]) -> (r: Result<Self, ElfError>)
        ensures
            match (r, spec_parse(bytes@)) {
                (Ok(e), Ok((off, count, entry))) => e.spec_bytes() == bytes@ && e.spec_headers_offset() == off
                    && e.spec_header_count() == count && e.spec_entry() == entry,
                (Err(_), Err(_)) => true,
                _ => false,
            },
    {
        if bytes.len() < 64 {
            return Err(ElfError);
        }
        if !(bytes[0] == 0x7f && bytes[1] == 0x45 && bytes[2] == 0x4c && bytes[3] == 0x46 && bytes[4] == 2
            && bytes[5] == 1 && bytes[6] == 1) || u16_at(bytes, 16) != 2 || u16_at(bytes, 18) != MACHINE
            || u32_at(bytes, 20) != 1 || u16_at(bytes, 52) != 64 || u16_at(bytes, 54) != 56 {
            return Err(ElfError);
        }
        let offset = u64_at(bytes, 32);
        let count = u16_at(bytes, 56) as u64;
        let end = match offset.checked_add(count * 56) {
            Some(e) => e,
            None => return Err(ElfError),
        };
        if end > bytes.len() as u64 {
            return Err(ElfError);
        }
        let mut i: u64 = 0;
        while i < count
            invariant
                i <= count,
                offset + count * 56 <= bytes@.len(),
                bytes@.len() <= usize::MAX,
                count == le16(bytes@, 56),
                offset == le64(bytes@, 32),
                forall|j: int| 0 <= j < i ==> #[trigger] ph_type(bytes@, offset as int, j) != 2 && ph_type(bytes@, offset as int, j) != 3,
            decreases count - i,
        {
            assert(i * 56 + 56 <= count * 56) by (nonlinear_arith)
                requires
                    i < count,
            ;
            let pos = (offset + i * 56) as usize;
            assert(pos == offset + i * 56);
            let kind = u32_at(bytes, pos);
            if kind == 2 || kind == 3 {
                assert(ph_type(bytes@, offset as int, i as int) == kind);
                assert(!no_dynamic_headers(bytes@, offset as int, count as int));
                return Err(ElfError);
            }
            i = i + 1;
        }
        Ok(Self { bytes, headers_offset: offset, header_count: count, entry: u64_at(bytes, 24) })
    }

    /// The entry point.
    pub fn entry(&self) -> (r: u64)
        ensures
            r == self.spec_entry(),
    {
        self.entry
    }

    pub closed spec fn wf(&self) -> bool {
        &&& self.headers_offset + self.header_count * 56 <= self.bytes@.len()
    }

    /// A parsed executable's header table lies in its image.
    pub proof fn lemma_parsed_wf(&self)
        requires
            spec_parse(self.spec_bytes()) == Ok::<(nat, nat, nat), ElfError>(
                (self.spec_headers_offset(), self.spec_header_count(), self.spec_entry() as nat),
            ),
        ensures
            self.wf(),
    {
    }

    /// The loadable segments, in the order of their program headers, each
    /// with the error that makes it unusable, if any.
    pub fn segments(&self) -> (r: Vec<Result<Segment<'a>, ElfError>>)
        requires
            self.wf(),
        ensures
            ({
                let idx = load_indices(self.spec_bytes(), self.spec_headers_offset() as int, self.spec_header_count());
                &&& r@.len() == idx.len()
                &&& forall|k: int| 0 <= k < idx.len() ==> segment_matches(self.spec_bytes(), #[trigger] r@[k], spec_segment(self.spec_bytes(), self.spec_headers_offset() + idx[k] * 56))
            }),
    {
        let bytes = self.bytes;
        let off = self.headers_offset;
        let count = self.header_count;
        let ghost b = bytes@;
        let n = bytes.len();
        let mut out: Vec<Result<Segment<'a>, ElfError>> = Vec::new();
        let mut i: u64 = 0;
        while i < count
            invariant
                i <= count,
                bytes@ == b,
                off + count * 56 <= b.len(),
                b.len() <= usize::MAX,
                ({
                    let idx = load_indices(b, off as int, i as nat);
                    &&& out@.len() == idx.len()
                    &&& forall|k: int| 0 <= k < idx.len() ==> segment_matches(b, #[trigger] out@[k], spec_segment(b, off + idx[k] * 56))
                }),
            decreases count - i,
        {
            assert(i * 56 + 56 <= count * 56) by (nonlinear_arith)
                requires
                    i < count,
            ;
            let h = (off + i * 56) as usize;
            assert(h == off + i * 56);
            let ghost before = load_indices(b, off as int, i as nat);
            if u32_at(bytes, h) == 1 {
                let seg = Self::segment_at(bytes, h);
                out.push(seg);
                proof {
                    let idx = load_indices(b, off as int, (i + 1) as nat);
                    assert(idx == before.push(i as int));
                    assert forall|k: int| 0 <= k < idx.len() implies segment_matches(b, #[trigger] out@[k], spec_segment(b, off + idx[k] * 56)) by {
                        if k < before.len() {
                            assert(idx[k] == before[k]);
                        }
                    }
                }
            } else {
                proof {
                    assert(load_indices(b, off as int, (i + 1) as nat) == before);
                }
            }
            i = i + 1;
        }
        out
    }

    /// The segment of the program header at `h`.
    fn segment_at(bytes: &'a [u8], h: usize) -> (r: Result<Segment<'a>, ElfError>)
        requires
            h + 56 <= bytes@.len(),
        ensures
            segment_matches(bytes@, r, spec_segment(bytes@, h as int)),
    {
        let n = bytes.len();
        let offset = u64_at(bytes, h + 8);
        let address = u64_at(bytes, h + 16);
        let file_size = u64_at(bytes, h + 32);
        let memory_size = u64_at(bytes, h + 40);
        let alignment = u64_at(bytes, h + 48);
        if file_size > memory_size || (alignment > 1 && (alignment & (alignment - 1) != 0 || address % alignment
            != offset % alignment)) {
            return Err(ElfError);
        }
        let end = match offset.checked_add(file_size) {
            Some(e) => e,
            None => return Err(ElfError),
        };
        if end > bytes.len() as u64 {
            return Err(ElfError);
        }
        let data = vstd::slice::slice_subrange(bytes, offset as usize, end as usize);
        let flags = u32_at(bytes, h + 4);
        Ok(Segment { data, address, memory_size, writable: flags & 2 != 0, executable: flags & 1 != 0 })
    }
}

} // verus!
