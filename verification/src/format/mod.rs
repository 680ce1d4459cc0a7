//! The file formats the kernel reads at boot: ELF executables and CPIO
//! (newc) archives, and the little-endian integers they are made of.

pub mod cpio;
pub mod elf;

use vstd::prelude::*;

verus! {

/// The 16-bit little-endian integer at `off` in `s`.
pub open spec fn le16(s: Seq<u8>, off: int) -> nat {
    (s[off] + 256 * s[off + 1]) as nat
}

/// The 32-bit little-endian integer at `off` in `s`.
pub open spec fn le32(s: Seq<u8>, off: int) -> nat {
    le16(s, off) + 65536 * le16(s, off + 2)
}

/// The 64-bit little-endian integer at `off` in `s`.
pub open spec fn le64(s: Seq<u8>, off: int) -> nat {
    le32(s, off) + 0x1_0000_0000 * le32(s, off + 4)
}

/// The 16-bit little-endian integer at `offset` in `bytes`.
pub fn u16_at(bytes: &[u8], offset: usize) -> (r: u16)
    requires
        offset + 2 <= bytes@.len(),
    ensures
        r == le16(bytes@, offset as int),
{
    let n = bytes.len();
    bytes[offset] as u16 + (bytes[offset + 1] as u16) * 256
}

/// The 32-bit little-endian integer at `offset` in `bytes`.
pub fn u32_at(bytes: &[u8], offset: usize) -> (r: u32)
    requires
        offset + 4 <= bytes@.len(),
    ensures
        r == le32(bytes@, offset as int),
{
    let n = bytes.len();
    u16_at(bytes, offset) as u32 + (u16_at(bytes, offset + 2) as u32) * 65536
}

/// The 64-bit little-endian integer at `offset` in `bytes`.
pub fn u64_at(bytes: &[u8], offset: usize) -> (r: u64)
    requires
        offset + 8 <= bytes@.len(),
    ensures
        r == le64(bytes@, offset as int),
{
    let n = bytes.len();
    u32_at(bytes, offset) as u64 + (u32_at(bytes, offset + 4) as u64) * 0x1_0000_0000
}

} // verus!
