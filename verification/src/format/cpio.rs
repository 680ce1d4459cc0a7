//! CPIO archives in the "newc" format: a sequence of 110-byte ASCII
//! headers, each followed by a NUL-padded name and the file's bytes, both
//! padded to four bytes; the entry named `TRAILER!!!` ends the archive.

use vstd::prelude::*;
use vstd::string::StringSliceAdditionalSpecFns;
use vstd::utf8::valid_utf8;

verus! {

/// The size of a newc header.
pub const HEADER_SIZE: u64 = 110;

/// Where the file size lies in a header.
pub const FILESIZE_OFFSET: u64 = 54;

/// Where the name size lies in a header.
pub const NAMESIZE_OFFSET: u64 = 94;

/// The value of the hexadecimal digit `c`, either case.
pub open spec fn hex_digit(c: u8) -> Option<nat> {
    if 48 <= c <= 57 {
        Some((c - 48) as nat)
    } else if 97 <= c <= 102 {
        Some((c - 87) as nat)
    } else if 65 <= c <= 70 {
        Some((c - 55) as nat)
    } else {
        None
    }
}

/// The value of the `n` hexadecimal digits from `start` in `s`, if all are
/// digits.
pub open spec fn hex_value(s: Seq<u8>, start: int, n: nat) -> Option<nat>
    decreases n,
{
    if n == 0 {
        Some(0)
    } else {
        match (hex_value(s, start, (n - 1) as nat), hex_digit(s[start + n - 1])) {
            (Some(v), Some(d)) => Some(v * 16 + d),
            _ => None,
        }
    }
}

/// The number that an 8-byte header field at `start` reads as: hexadecimal
/// digits, possibly after one `+`.
pub open spec fn field_value(s: Seq<u8>, start: int) -> Option<nat> {
    if s[start] == 43 {
        hex_value(s, start + 1, 7)
    } else {
        hex_value(s, start, 8)
    }
}

/// `s` without its trailing NUL bytes.
pub open spec fn strip_nul(s: Seq<u8>) -> Seq<u8>
    decreases s.len(),
{
    if s.len() > 0 && s.last() == 0 {
        strip_nul(s.drop_last())
    } else {
        s
    }
}

/// The name that ends an archive.
pub open spec fn trailer_name() -> Seq<u8> {
    seq![84u8, 82u8, 65u8, 73u8, 76u8, 69u8, 82u8, 33u8, 33u8, 33u8]
}

/// `n` rounded up to a multiple of four.
pub open spec fn align4(n: nat) -> nat {
    ((n + 3) / 4 * 4) as nat
}

/// The start and length of the file named `target` in `a`, searching from
/// the header at `off`; `None` if the archive ends, is malformed, or holds
/// no such file before its trailer.
pub open spec fn spec_find(a: Seq<u8>, target: Seq<u8>, off: nat) -> Option<(nat, nat)>
    decreases a.len() - off,
{
    if off + HEADER_SIZE > a.len() {
        None
    } else if a.subrange(off as int, off + 6int) != seq![48u8, 55u8, 48u8, 55u8, 48u8, 49u8] {
        None
    } else {
        match (field_value(a, off + FILESIZE_OFFSET), field_value(a, off + NAMESIZE_OFFSET)) {
            (Some(file_len), Some(name_len)) => {
                let name_start = off + HEADER_SIZE;
                if name_start + name_len > a.len() {
                    None
                } else {
                    let name = a.subrange(name_start as int, name_start + name_len);
                    if !valid_utf8(name) || strip_nul(name) == trailer_name() {
                        None
                    } else {
                        let data_start = off + align4((HEADER_SIZE + name_len) as nat);
                        if data_start + file_len > a.len() {
                            None
                        } else if strip_nul(name) == target {
                            Some((data_start as nat, file_len))
                        } else {
                            let next = data_start + align4(file_len);
                            if next > a.len() {
                                None
                            } else {
                                spec_find(a, target, next as nat)
                            }
                        }
                    }
                }
            },
            _ => None,
        }
    }
}

/// `n` followed by the zero bytes that bring it to a multiple of four.
pub open spec fn padded_to_four(n: nat) -> nat {
    (n + (4 - n % 4) % 4) as nat
}

proof fn lemma_align4_padded(n: nat)
    ensures
        align4(n) == padded_to_four(n),
{
    assert(((n + 3) / 4 * 4) as nat == n + (4 - n % 4) % 4) by (nonlinear_arith);
}

/// A well-formed entry at `off` whose name (its `name_len` bytes, NUL
/// padding included) is neither `target` nor the trailer's is passed over:
/// the search goes on at the next header, which starts after the 110-byte
/// header and the name padded to four bytes, and then the file's
/// `file_len` bytes padded to four bytes.
pub proof fn lemma_find_passes_entry(a: Seq<u8>, target: Seq<u8>, off: nat, file_len: nat, name_len: nat)
    requires
        off + 110 <= a.len(),
        a.subrange(off as int, off + 6int) == seq![48u8, 55u8, 48u8, 55u8, 48u8, 49u8],
        field_value(a, off + 54int) == Some(file_len),
        field_value(a, off + 94int) == Some(name_len),
        off + 110 + name_len <= a.len(),
        valid_utf8(a.subrange(off + 110int, off + 110int + name_len)),
        strip_nul(a.subrange(off + 110int, off + 110int + name_len)) != trailer_name(),
        strip_nul(a.subrange(off + 110int, off + 110int + name_len)) != target,
        off + padded_to_four(110 + name_len) + padded_to_four(file_len) <= a.len(),
    ensures
        spec_find(a, target, off) == spec_find(a, target, off + padded_to_four(110 + name_len) + padded_to_four(file_len)),
{
    lemma_align4_padded((110 + name_len) as nat);
    lemma_align4_padded(file_len);
}

/// A well-formed entry at `off` named `target` (without its NUL padding)
/// is found: its file is the `file_len` bytes after the 110-byte header and
/// the name padded to four bytes.
pub proof fn lemma_find_hits_entry(a: Seq<u8>, target: Seq<u8>, off: nat, file_len: nat, name_len: nat)
    requires
        off + 110 <= a.len(),
        a.subrange(off as int, off + 6int) == seq![48u8, 55u8, 48u8, 55u8, 48u8, 49u8],
        field_value(a, off + 54int) == Some(file_len),
        field_value(a, off + 94int) == Some(name_len),
        off + 110 + name_len <= a.len(),
        valid_utf8(a.subrange(off + 110int, off + 110int + name_len)),
        strip_nul(a.subrange(off + 110int, off + 110int + name_len)) != trailer_name(),
        strip_nul(a.subrange(off + 110int, off + 110int + name_len)) == target,
        off + padded_to_four(110 + name_len) + file_len <= a.len(),
    ensures
        spec_find(a, target, off) == Some((off + padded_to_four(110 + name_len), file_len)),
{
    lemma_align4_padded((110 + name_len) as nat);
}

/// Whether `bytes` is valid UTF-8: `core::str::from_utf8` succeeds exactly
/// on such input, as its documentation says, and vstd's `valid_utf8` states
/// the encoding's rules.
#[verifier::external_body]
fn is_valid_utf8(bytes: &[u8]) -> (r: bool)
    ensures
        r == valid_utf8(bytes@),
{
    core::str::from_utf8(bytes).is_ok()
}

/// The value of the 8-byte header field at `start`, as `field_value`
/// reads it.
fn parse_field(a: &[u8], start: usize) -> (r: Option<u64>)
    requires
        start + 8 <= a@.len(),
    ensures
        match (r, field_value(a@, start as int)) {
            (Some(v), Some(w)) => v == w,
            (None, None) => true,
            _ => false,
        },
        r matches Some(v) ==> v < 0x1_0000_0000,
{
    let n = a.len();
    let (first, count): (usize, usize) = if a[start] == 43 { (start + 1, 7) } else { (start, 8) };
    assert(field_value(a@, start as int) == hex_value(a@, first as int, count as nat));
    let mut value: u64 = 0;
    let mut i: usize = 0;
    while i < count
        invariant
            i <= count,
            first + count <= a@.len(),
            n == a@.len(),
            count <= 8,
            hex_value(a@, first as int, i as nat) == Some(value as nat),
            field_value(a@, start as int) == hex_value(a@, first as int, count as nat),
            value < pow16(i as nat),
        decreases count - i,
    {
        let c = a[first + i];
        let d: u64 = if 48 <= c && c <= 57 {
            (c - 48) as u64
        } else if 97 <= c && c <= 102 {
            (c - 87) as u64
        } else if 65 <= c && c <= 70 {
            (c - 55) as u64
        } else {
            assert(hex_value(a@, first as int, (i + 1) as nat) is None);
            proof {
                lemma_hex_none(a@, first as int, (i + 1) as nat, count as nat);
            }
            return None;
        };
        proof {
            lemma_pow16_step(i as nat);
            assert(value * 16 + d < pow16((i + 1) as nat)) by (nonlinear_arith)
                requires
                    value < pow16(i as nat),
                    d < 16,
                    pow16((i + 1) as nat) == pow16(i as nat) * 16,
            ;
            lemma_pow16_bound((i + 1) as nat);
        }
        value = value * 16 + d;
        i = i + 1;
    }
    proof {
        lemma_pow16_bound(count as nat);
    }
    Some(value)
}

/// 16 to the power `n`.
pub open spec fn pow16(n: nat) -> nat
    decreases n,
{
    if n == 0 {
        1
    } else {
        16 * pow16((n - 1) as nat)
    }
}

proof fn lemma_pow16_step(n: nat)
    ensures
        pow16(n + 1) == pow16(n) * 16,
{
}

proof fn lemma_pow16_bound(n: nat)
    requires
        n <= 8,
    ensures
        pow16(n) <= 0x1_0000_0000,
{
    reveal_with_fuel(pow16, 9);
    if n == 0 {
    } else if n == 1 {
    } else if n == 2 {
    } else if n == 3 {
    } else if n == 4 {
    } else if n == 5 {
    } else if n == 6 {
    } else if n == 7 {
    } else {
    }
}

/// A digit that is not hexadecimal spoils every longer run of digits.
proof fn lemma_hex_none(s: Seq<u8>, start: int, i: nat, n: nat)
    requires
        hex_value(s, start, i) is None,
        i <= n,
    ensures
        hex_value(s, start, n) is None,
    decreases n - i,
{
    if i < n {
        lemma_hex_none(s, start, i, (n - 1) as nat);
    }
}

/// The file named `target` in the newc archive `archive`: the first entry
/// before the trailer whose name, without its NUL padding, is `target`.
/// `None` when there is none, or when the archive is malformed before it.
pub fn find_file<'a>(archive: &'a [u8], target: &str) -> (r: Option<&'a [u8]>)
    requires
        archive@.len() < 0x8000_0000_0000_0000,
    ensures
        match (r, spec_find(archive@, target.spec_bytes(), 0)) {
            (Some(data), Some((start, len))) => data@ == archive@.subrange(start as int, (start + len) as int),
            (None, None) => true,
            _ => false,
        },
{
    let len = archive.len() as u64;
    let target_bytes = target.as_bytes();
    let mut offset: u64 = 0;
    while offset + HEADER_SIZE <= len
        invariant
            len == archive@.len(),
            len < 0x8000_0000_0000_0000,
            offset <= len,
            target_bytes@ == target.spec_bytes(),
            spec_find(archive@, target.spec_bytes(), 0) == spec_find(archive@, target.spec_bytes(), offset as nat),
        decreases len - offset,
    {
        let o = offset as usize;
        let ghost a = archive@;
        if !(archive[o] == 48 && archive[o + 1] == 55 && archive[o + 2] == 48 && archive[o + 3] == 55
            && archive[o + 4] == 48 && archive[o + 5] == 49) {
            proof {
                if a.subrange(o as int, o + 6) == seq![48u8, 55u8, 48u8, 55u8, 48u8, 49u8] {
                    assert(a[o as int] == a.subrange(o as int, o + 6)[0]);
                    assert(a[o + 1] == a.subrange(o as int, o + 6)[1]);
                    assert(a[o + 2] == a.subrange(o as int, o + 6)[2]);
                    assert(a[o + 3] == a.subrange(o as int, o + 6)[3]);
                    assert(a[o + 4] == a.subrange(o as int, o + 6)[4]);
                    assert(a[o + 5] == a.subrange(o as int, o + 6)[5]);
                }
            }
            return None;
        }
        assert(a.subrange(o as int, o + 6) =~= seq![48u8, 55u8, 48u8, 55u8, 48u8, 49u8]);
        let file_len = match parse_field(archive, o + 54) {
            Some(v) => v,
            None => return None,
        };
        let name_len = match parse_field(archive, o + 94) {
            Some(v) => v,
            None => return None,
        };
        let name_start = offset + HEADER_SIZE;
        if name_start + name_len > len {
            return None;
        }
        let name = vstd::slice::slice_subrange(archive, name_start as usize, (name_start + name_len) as usize);
        if !is_valid_utf8(name) {
            return None;
        }
        let trimmed = strip_nul_len(name);
        if bytes_equal(name, trimmed, &[84u8, 82u8, 65u8, 73u8, 76u8, 69u8, 82u8, 33u8, 33u8, 33u8]) {
            return None;
        }
        let data_start = offset + ((HEADER_SIZE + name_len + 3) / 4 * 4);
        if data_start + file_len > len {
            return None;
        }
        if bytes_equal(name, trimmed, target_bytes) {
            return Some(vstd::slice::slice_subrange(archive, data_start as usize, (data_start + file_len) as usize));
        }
        let next = data_start + ((file_len + 3) / 4 * 4);
        if next > len {
            return None;
        }
        offset = next;
    }
    None
}

/// The length of `s` without its trailing NUL bytes.
fn strip_nul_len(s: &[u8]) -> (r: usize)
    ensures
        r <= s@.len(),
        strip_nul(s@) == s@.subrange(0, r as int),
{
    let mut n = s.len();
    assert(s@.subrange(0, n as int) =~= s@);
    while n > 0 && s[n - 1] == 0
        invariant
            n <= s@.len(),
            strip_nul(s@) == strip_nul(s@.subrange(0, n as int)),
        decreases n,
    {
        assert(s@.subrange(0, n as int).drop_last() =~= s@.subrange(0, n - 1));
        n = n - 1;
    }
    assert(strip_nul(s@.subrange(0, n as int)) == s@.subrange(0, n as int));
    n
}

/// Whether the first `n` bytes of `s` are exactly `t`.
fn bytes_equal(s: &[u8], n: usize, t: &[u8]) -> (r: bool)
    requires
        n <= s@.len(),
    ensures
        r == (s@.subrange(0, n as int) == t@),
{
    if n != t.len() {
        assert(s@.subrange(0, n as int).len() != t@.len());
        return false;
    }
    let mut i: usize = 0;
    while i < n
        invariant
            i <= n,
            n == t@.len(),
            n <= s@.len(),
            forall|j: int| 0 <= j < i ==> s@[j] == t@[j],
        decreases n - i,
    {
        if s[i] != t[i] {
            assert(s@.subrange(0, n as int)[i as int] != t@[i as int]);
            return false;
        }
        i = i + 1;
    }
    assert(s@.subrange(0, n as int) =~= t@);
    true
}

} // verus!
