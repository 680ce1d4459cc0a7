//! ACPI: the root pointer, the root table of system description tables,
//! and the MADT's interrupt-controller entries. Tables are read from
//! physical memory through the direct map; an address that the direct map
//! cannot show, or that lies past the end of memory, is an
//! `AddressOverflow`.

use vstd::prelude::*;

use crate::memory::phys::mem_byte;
use crate::memory::{DirectMap, PhysicalAddr, PhysicalMemory};

verus! {

/// Why the ACPI tables could not be read.
#[derive(Clone, Copy, Debug, PartialEq, Eq, Structural)]
pub enum AcpiError {
    InvalidInput,
    AddressOverflow,
    InvalidSdtLength,
    InvalidRootTableLength,
    MalformedAcpiTable,
    MalformedMadt,
    MissingIoApic,
    MultipleIoApicsUnsupported,
}

/// The size of a system description table's header.
pub const SDT_HEADER_SIZE: u64 = 36;

/// The size of the root pointer of ACPI 1.0.
pub const RSDP_SIZE: u64 = 20;

/// The size of the extended root pointer of ACPI 2.0.
pub const XSDP_SIZE: u64 = 36;

/// Where the MADT's entries start, past its header and body.
pub const MADT_ENTRIES_OFFSET: u64 = 44;

/// The `n` bytes at `p` can be read: the direct map shows each of them and
/// they lie in memory.
pub open spec fn readable(mem: Seq<u64>, dm: DirectMap, p: nat, n: nat) -> bool {
    &&& p + dm.spec_offset() <= u64::MAX
    &&& n > 0 ==> p + dm.spec_offset() + n - 1 <= u64::MAX && (p + n - 1) / 8 < mem.len()
}

/// The little-endian number in the `n` bytes at `p`.
pub open spec fn le_at(mem: Seq<u64>, p: nat, n: nat) -> nat
    decreases n,
{
    if n == 0 {
        0
    } else {
        (mem_byte(mem, p) + 256 * le_at(mem, p + 1, (n - 1) as nat)) as nat
    }
}

/// The sum of the `n` bytes at `p`.
pub open spec fn byte_sum(mem: Seq<u64>, p: nat, n: nat) -> nat
    decreases n,
{
    if n == 0 {
        0
    } else {
        (byte_sum(mem, p, (n - 1) as nat) + mem_byte(mem, (p + n - 1) as nat)) as nat
    }
}

/// The `n` bytes at `p` sum to zero modulo 256, as an ACPI checksum wants.
pub open spec fn checksum_ok(mem: Seq<u64>, p: nat, n: nat) -> bool {
    byte_sum(mem, p, n) % 256 == 0
}

/// The bytes `s` lie at `p`.
pub open spec fn bytes_at(mem: Seq<u64>, p: nat, s: Seq<u8>) -> bool {
    forall|i: int| 0 <= i < s.len() ==> #[trigger] mem_byte(mem, (p + i) as nat) == s[i]
}

pub open spec fn pow256(n: nat) -> nat
    decreases n,
{
    if n == 0 {
        1
    } else {
        256 * pow256((n - 1) as nat)
    }
}

proof fn lemma_pow256_le8(n: nat)
    requires
        n <= 8,
    ensures
        pow256(n) <= 0x1_0000_0000_0000_0000,
{
    reveal_with_fuel(pow256, 9);
    if n == 0 {
    } else if n == 1 {
    } else if n == 2 {
    } else if n == 3 {
    } else if n == 4 {
    } else if n == 5 {
    } else if n == 6 {
    } else if n == 7 {
    } else {
    }
}

proof fn lemma_le_at_bound(mem: Seq<u64>, p: nat, n: nat)
    ensures
        le_at(mem, p, n) < pow256(n),
    decreases n,
{
    if n > 0 {
        lemma_le_at_bound(mem, p + 1, (n - 1) as nat);
    }
}

/// Whether the `n` bytes at `p` can be read.
fn can_read(mem: &PhysicalMemory, dm: DirectMap, p: u64, n: u64) -> (r: bool)
    ensures
        r == readable(mem@, dm, p as nat, n as nat),
{
    let offset = dm.offset();
    let start = match p.checked_add(offset) {
        Some(v) => v,
        None => return false,
    };
    if n == 0 {
        return true;
    }
    match start.checked_add(n - 1) {
        Some(_) => {},
        None => return false,
    }
    let last = match p.checked_add(n - 1) {
        Some(v) => v,
        None => return false,
    };
    last / 8 < mem.word_count() as u64
}

/// The little-endian number in the `n` bytes at `p`, or `AddressOverflow`
/// when they cannot be read.
fn read_le(mem: &PhysicalMemory, dm: DirectMap, p: u64, n: u64) -> (r: Result<u64, AcpiError>)
    requires
        1 <= n <= 8,
    ensures
        readable(mem@, dm, p as nat, n as nat) ==> r == Ok::<u64, AcpiError>(le_at(mem@, p as nat, n as nat) as u64),
        !readable(mem@, dm, p as nat, n as nat) ==> r == Err::<u64, AcpiError>(AcpiError::AddressOverflow),
        r matches Ok(v) ==> v == le_at(mem@, p as nat, n as nat),
{
    if !can_read(mem, dm, p, n) {
        return Err(AcpiError::AddressOverflow);
    }
    let mut value: u64 = 0;
    let mut i: u64 = n;
    while i > 0
        invariant
            i <= n,
            n <= 8,
            readable(mem@, dm, p as nat, n as nat),
            value == le_at(mem@, (p + i) as nat, (n - i) as nat),
        decreases i,
    {
        i = i - 1;
        let b = mem.read_u8(p + i);
        proof {
            lemma_le_at_bound(mem@, (p + i + 1) as nat, (n - i - 1) as nat);
            lemma_pow256_le8((n - i - 1) as nat);
            lemma_pow256_le8((n - i) as nat);
            lemma_le_at_bound(mem@, (p + i) as nat, (n - i) as nat);
            assert(le_at(mem@, (p + i) as nat, (n - i) as nat) == b + 256 * value);
        }
        value = b as u64 + 256 * value;
    }
    proof {
        lemma_le_at_bound(mem@, p as nat, n as nat);
        lemma_pow256_le8(n as nat);
    }
    Ok(value)
}

/// Whether the `n` bytes at `p` sum to zero modulo 256, or
/// `AddressOverflow` when they cannot be read.
#[verifier::rlimit(40)]
#[verifier::spinoff_prover]
fn checksum(mem: &PhysicalMemory, dm: DirectMap, p: u64, n: u64) -> (r: Result<bool, AcpiError>)
    ensures
        readable(mem@, dm, p as nat, n as nat) ==> r == Ok::<bool, AcpiError>(checksum_ok(mem@, p as nat, n as nat)),
        !readable(mem@, dm, p as nat, n as nat) ==> r == Err::<bool, AcpiError>(AcpiError::AddressOverflow),
{
    if !can_read(mem, dm, p, n) {
        return Err(AcpiError::AddressOverflow);
    }
    let mut sum: u8 = 0;
    let mut i: u64 = 0;
    while i < n
        invariant
            i <= n,
            readable(mem@, dm, p as nat, n as nat),
            sum == byte_sum(mem@, p as nat, i as nat) % 256,
        decreases n - i,
    {
        let b = mem.read_u8(p + i);
        sum = sum.wrapping_add(b);
        i = i + 1;
    }
    Ok(sum == 0)
}

/// The signature of the root pointer, `RSD PTR `.
pub open spec fn rsdp_signature() -> Seq<u8> {
    seq![82u8, 83u8, 68u8, 32u8, 80u8, 84u8, 82u8, 32u8]
}

/// The signature `XSDT`.
pub open spec fn xsdt_signature() -> Seq<u8> {
    seq![88u8, 83u8, 68u8, 84u8]
}

/// The signature `RSDT`.
pub open spec fn rsdt_signature() -> Seq<u8> {
    seq![82u8, 83u8, 68u8, 84u8]
}

/// The signature `APIC` of the MADT.
pub open spec fn madt_signature() -> Seq<u8> {
    seq![65u8, 80u8, 73u8, 67u8]
}

/// The four signature bytes of the table at `p`.
pub open spec fn signature_at(mem: Seq<u64>, p: nat) -> Seq<u8> {
    seq![mem_byte(mem, p), mem_byte(mem, p + 1), mem_byte(mem, p + 2), mem_byte(mem, p + 3)]
}

/// A system description table: where it lies, its length and signature.
#[derive(Clone, Copy, Debug)]
pub struct Sdt {
    pub physical_addr: PhysicalAddr,
    pub length: u64,
    pub signature: [u8; 4],
}

/// The root table: 32-bit entries (RSDT) or 64-bit entries (XSDT).
#[derive(Clone, Copy, Debug)]
pub enum RootTable {
    Rsdt(Sdt),
    Xsdt(Sdt),
}

/// What the header at `p` gives as a root table with signature `sig`: its
/// length, if the header can be read, its bytes sum to zero and it has
/// that signature.
pub open spec fn spec_root_sdt(mem: Seq<u64>, dm: DirectMap, p: nat, sig: Seq<u8>) -> Result<nat, AcpiError> {
    if !readable(mem, dm, p, SDT_HEADER_SIZE as nat) {
        Err(AcpiError::AddressOverflow)
    } else {
        let length = le_at(mem, p + 4, 4);
        if !readable(mem, dm, p, length) {
            Err(AcpiError::AddressOverflow)
        } else if !checksum_ok(mem, p, length) {
            Err(AcpiError::MalformedAcpiTable)
        } else if signature_at(mem, p) != sig {
            Err(AcpiError::MalformedAcpiTable)
        } else {
            Ok(length)
        }
    }
}

/// The root table that the root pointer at `p` leads to: whether it is an
/// XSDT, its address and its length.
pub open spec fn spec_from_rsdp(mem: Seq<u64>, dm: DirectMap, p: nat) -> Result<(bool, nat, nat), AcpiError> {
    if !readable(mem, dm, p, RSDP_SIZE as nat) {
        Err(AcpiError::AddressOverflow)
    } else if !checksum_ok(mem, p, RSDP_SIZE as nat) || !bytes_at(mem, p, rsdp_signature()) {
        Err(AcpiError::MalformedAcpiTable)
    } else if mem_byte(mem, p + 15) >= 2 {
        if !readable(mem, dm, p, XSDP_SIZE as nat) {
            Err(AcpiError::AddressOverflow)
        } else {
            let length = le_at(mem, p + 20, 4);
            if length < XSDP_SIZE {
                Err(AcpiError::MalformedAcpiTable)
            } else if !readable(mem, dm, p, length) {
                Err(AcpiError::AddressOverflow)
            } else if !checksum_ok(mem, p, length) {
                Err(AcpiError::MalformedAcpiTable)
            } else {
                let x = le_at(mem, p + 24, 8);
                match spec_root_sdt(mem, dm, x, xsdt_signature()) {
                    Ok(l) => Ok((true, x, l)),
                    Err(e) => Err(e),
                }
            }
        }
    } else {
        let r = le_at(mem, p + 16, 4);
        match spec_root_sdt(mem, dm, r, rsdt_signature()) {
            Ok(l) => Ok((false, r, l)),
            Err(e) => Err(e),
        }
    }
}

/// The ACPI tables: the direct map they are read through and the root
/// table.
#[derive(Debug)]
pub struct AcpiTables {
    pub direct_map: DirectMap,
    pub root: RootTable,
}

/// The four bytes at `p`, which can be read.
fn read_signature(mem: &PhysicalMemory, dm: DirectMap, p: u64) -> (r: [u8; 4])
    requires
        readable(mem@, dm, p as nat, 4),
    ensures
        r@ == signature_at(mem@, p as nat),
{
    let r = [mem.read_u8(p), mem.read_u8(p + 1), mem.read_u8(p + 2), mem.read_u8(p + 3)];
    assert(r@ =~= signature_at(mem@, p as nat));
    r
}

/// Whether the bytes at `p` are `s`, which can be read.
fn bytes_match(mem: &PhysicalMemory, dm: DirectMap, p: u64, s: &[u8]) -> (r: bool)
    requires
        readable(mem@, dm, p as nat, s@.len() as nat),
        s@.len() > 0,
    ensures
        r == bytes_at(mem@, p as nat, s@),
{
    let mut i: usize = 0;
    while i < s.len()
        invariant
            i <= s@.len(),
            readable(mem@, dm, p as nat, s@.len() as nat),
            forall|j: int| 0 <= j < i ==> #[trigger] mem_byte(mem@, (p + j) as nat) == s@[j],
        decreases s@.len() - i,
    {
        let b = mem.read_u8(p + i as u64);
        if b != s[i] {
            assert(mem_byte(mem@, (p + i as int) as nat) != s@[i as int]);
            return false;
        }
        i = i + 1;
    }
    true
}

/// The root table with signature `sig` whose header is at `p`.
fn root_sdt(mem: &PhysicalMemory, dm: DirectMap, p: u64, sig: &[u8; 4]) -> (r: Result<Sdt, AcpiError>)
    ensures
        match (r, spec_root_sdt(mem@, dm, p as nat, sig@)) {
            (Ok(t), Ok(l)) => t.physical_addr.0 == p && t.length == l && t.signature@ == sig@,
            (Err(e), Err(f)) => e == f,
            _ => false,
        },
{
    if !can_read(mem, dm, p, SDT_HEADER_SIZE) {
        return Err(AcpiError::AddressOverflow);
    }
    let length = match read_le(mem, dm, p + 4, 4) {
        Ok(v) => v,
        Err(e) => return Err(e),
    };
    match checksum(mem, dm, p, length) {
        Ok(true) => {},
        Ok(false) => return Err(AcpiError::MalformedAcpiTable),
        Err(e) => return Err(e),
    }
    let signature = read_signature(mem, dm, p);
    if !(signature[0] == sig[0] && signature[1] == sig[1] && signature[2] == sig[2] && signature[3] == sig[3]) {
        assert(signature@ != sig@) by {
            if signature@ == sig@ {
                assert(signature@[0] == sig@[0]);
                assert(signature@[1] == sig@[1]);
                assert(signature@[2] == sig@[2]);
                assert(signature@[3] == sig@[3]);
            }
        }
        return Err(AcpiError::MalformedAcpiTable);
    }
    assert(signature@ =~= sig@);
    Ok(Sdt { physical_addr: PhysicalAddr::new(p), length, signature })
}

impl AcpiTables {
    /// Reads the root pointer at `rsdp` and the root table it leads to,
    /// checking checksums and signatures: the XSDT for revision 2 and
    /// later, the RSDT before.
    pub fn from_rsdp(mem: &PhysicalMemory, rsdp: PhysicalAddr, direct_map: DirectMap) -> (r: Result<Self, AcpiError>)
        ensures
            match (r, spec_from_rsdp(mem@, direct_map, rsdp.0 as nat)) {
                (Ok(t), Ok((x, a, l))) => t.direct_map == direct_map && match t.root {
                    RootTable::Xsdt(s) => x && s.physical_addr.0 == a && s.length == l && s.signature@ == xsdt_signature(),
                    RootTable::Rsdt(s) => !x && s.physical_addr.0 == a && s.length == l && s.signature@ == rsdt_signature(),
                },
                (Err(e), Err(f)) => e == f,
                _ => false,
            },
    {
        let p = rsdp.0;
        let dm = direct_map;
        if !can_read(mem, dm, p, RSDP_SIZE) {
            return Err(AcpiError::AddressOverflow);
        }
        match checksum(mem, dm, p, RSDP_SIZE) {
            Ok(true) => {},
            _ => return Err(AcpiError::MalformedAcpiTable),
        }
        if !bytes_match(mem, dm, p, &[82u8, 83u8, 68u8, 32u8, 80u8, 84u8, 82u8, 32u8]) {
            return Err(AcpiError::MalformedAcpiTable);
        }
        let revision = mem.read_u8(p + 15);
        let root = if revision >= 2 {
            if !can_read(mem, dm, p, XSDP_SIZE) {
                return Err(AcpiError::AddressOverflow);
            }
            let length = match read_le(mem, dm, p + 20, 4) {
                Ok(v) => v,
                Err(e) => return Err(e),
            };
            if length < XSDP_SIZE {
                return Err(AcpiError::MalformedAcpiTable);
            }
            match checksum(mem, dm, p, length) {
                Ok(true) => {},
                Ok(false) => return Err(AcpiError::MalformedAcpiTable),
                Err(e) => return Err(e),
            }
            let xsdt = match read_le(mem, dm, p + 24, 8) {
                Ok(v) => v,
                Err(e) => return Err(e),
            };
            match root_sdt(mem, dm, xsdt, &[88u8, 83u8, 68u8, 84u8]) {
                Ok(t) => RootTable::Xsdt(t),
                Err(e) => return Err(e),
            }
        } else {
            let rsdt = match read_le(mem, dm, p + 16, 4) {
                Ok(v) => v,
                Err(e) => return Err(e),
            };
            match root_sdt(mem, dm, rsdt, &[82u8, 83u8, 68u8, 84u8]) {
                Ok(t) => RootTable::Rsdt(t),
                Err(e) => return Err(e),
            }
        };
        Ok(Self { direct_map, root })
    }
}

/// Reading part of what can be read.
proof fn lemma_readable_sub(mem: Seq<u64>, dm: DirectMap, p: nat, n: nat, q: nat, m: nat)
    requires
        readable(mem, dm, p, n),
        p <= q,
        q + m <= p + n,
        m >= 1,
    ensures
        readable(mem, dm, q, m),
{
    assert((q + m - 1) / 8 <= (p + n - 1) / 8) by (nonlinear_arith)
        requires
            q + m - 1 <= p + n - 1,
    ;
}

/// The number in the `n` bytes at `p`, which can be read.
fn read_known(mem: &PhysicalMemory, dm: DirectMap, p: u64, n: u64) -> (r: u64)
    requires
        readable(mem@, dm, p as nat, n as nat),
        1 <= n <= 8,
    ensures
        r == le_at(mem@, p as nat, n as nat),
{
    match read_le(mem, dm, p, n) {
        Ok(v) => v,
        Err(_) => 0,
    }
}

impl RootTable {
    pub open spec fn spec_table(self) -> Sdt {
        match self {
            RootTable::Rsdt(t) => t,
            RootTable::Xsdt(t) => t,
        }
    }

    pub open spec fn spec_entry_width(self) -> nat {
        match self {
            RootTable::Rsdt(_) => 4,
            RootTable::Xsdt(_) => 8,
        }
    }

    /// The root table's header.
    pub fn table(&self) -> (r: &Sdt)
        ensures
            *r == self.spec_table(),
    {
        match self {
            RootTable::Rsdt(t) => t,
            RootTable::Xsdt(t) => t,
        }
    }

    /// The size of an entry: 4 bytes in an RSDT, 8 in an XSDT.
    pub fn entry_width(&self) -> (r: u64)
        ensures
            r == self.spec_entry_width(),
    {
        match self {
            RootTable::Rsdt(_) => 4,
            RootTable::Xsdt(_) => 8,
        }
    }

    /// The number of entries: `InvalidSdtLength` when the table is shorter
    /// than its header, `InvalidRootTableLength` when the rest is not a
    /// whole number of entries.
    pub fn entry_count(&self) -> (r: Result<u64, AcpiError>)
        ensures
            self.spec_table().length < SDT_HEADER_SIZE ==> r == Err::<u64, AcpiError>(AcpiError::InvalidSdtLength),
            self.spec_table().length >= SDT_HEADER_SIZE && (self.spec_table().length - SDT_HEADER_SIZE)
                % (self.spec_entry_width() as int) != 0 ==> r == Err::<u64, AcpiError>(AcpiError::InvalidRootTableLength),
            self.spec_table().length >= SDT_HEADER_SIZE && (self.spec_table().length - SDT_HEADER_SIZE)
                % (self.spec_entry_width() as int) == 0 ==> r == Ok::<u64, AcpiError>(
                ((self.spec_table().length - SDT_HEADER_SIZE) / (self.spec_entry_width() as int)) as u64,
            ),
    {
        let length = self.table().length;
        if length < SDT_HEADER_SIZE {
            return Err(AcpiError::InvalidSdtLength);
        }
        let payload = length - SDT_HEADER_SIZE;
        let width = self.entry_width();
        if payload % width != 0 {
            return Err(AcpiError::InvalidRootTableLength);
        }
        Ok(payload / width)
    }
}

/// What the search for `sig` finds from entry `i` of a root table whose
/// `count` entries of `w` bytes start at `start`: the address and length of
/// the first table with that signature, `None`, or an error.
pub open spec fn spec_find_table(
    mem: Seq<u64>,
    dm: DirectMap,
    start: nat,
    w: nat,
    count: nat,
    i: nat,
    sig: Seq<u8>,
) -> Result<Option<(nat, nat)>, AcpiError>
    decreases count - i,
{
    if i >= count {
        Ok(None)
    } else if start + i * w > u64::MAX {
        Err(AcpiError::AddressOverflow)
    } else if !readable(mem, dm, start + i * w, w) {
        Err(AcpiError::AddressOverflow)
    } else {
        let t = le_at(mem, start + i * w, w);
        if !readable(mem, dm, t, SDT_HEADER_SIZE as nat) {
            Err(AcpiError::AddressOverflow)
        } else {
            let length = le_at(mem, t + 4, 4);
            if length < SDT_HEADER_SIZE {
                Err(AcpiError::InvalidSdtLength)
            } else if signature_at(mem, t) != sig {
                spec_find_table(mem, dm, start, w, count, i + 1, sig)
            } else if !readable(mem, dm, t, length) {
                Err(AcpiError::AddressOverflow)
            } else if !checksum_ok(mem, t, length) {
                Err(AcpiError::MalformedAcpiTable)
            } else {
                Ok(Some((t, length)))
            }
        }
    }
}

/// What [`AcpiTables::find_table`] finds for `sig` under `root`.
pub open spec fn spec_lookup(mem: Seq<u64>, dm: DirectMap, root: RootTable, sig: Seq<u8>) -> Result<Option<(nat, nat)>, AcpiError> {
    let t = root.spec_table();
    let w = root.spec_entry_width();
    if t.physical_addr.0 + SDT_HEADER_SIZE > u64::MAX {
        Err(AcpiError::AddressOverflow)
    } else if t.length < SDT_HEADER_SIZE {
        Err(AcpiError::InvalidSdtLength)
    } else if (t.length - SDT_HEADER_SIZE) % (w as int) != 0 {
        Err(AcpiError::InvalidRootTableLength)
    } else {
        spec_find_table(mem, dm, (t.physical_addr.0 + SDT_HEADER_SIZE) as nat, w, ((t.length - SDT_HEADER_SIZE) / (w as int)) as nat, 0, sig)
    }
}

impl AcpiTables {
    /// The table with signature `signature` that the root table lists
    /// first, checked for its length and checksum; `None` if there is none.
    pub fn find_table(&self, mem: &PhysicalMemory, signature: [u8; 4]) -> (r: Result<Option<Sdt>, AcpiError>)
        ensures
            match (r, spec_lookup(mem@, self.direct_map, self.root, signature@)) {
                (Ok(Some(t)), Ok(Some((a, l)))) => t.physical_addr.0 == a && t.length == l && t.signature@ == signature@,
                (Ok(None), Ok(None)) => true,
                (Err(e), Err(f)) => e == f,
                _ => false,
            },
    {
        let dm = self.direct_map;
        let root = self.root.table();
        let width = self.root.entry_width();
        let entries_start = match root.physical_addr.0.checked_add(SDT_HEADER_SIZE) {
            Some(v) => v,
            None => return Err(AcpiError::AddressOverflow),
        };
        let count = match self.root.entry_count() {
            Ok(c) => c,
            Err(e) => return Err(e),
        };
        let ghost sig = signature@;
        proof {
            let payload = (self.root.spec_table().length - SDT_HEADER_SIZE) as int;
            assert(count * width <= payload) by (nonlinear_arith)
                requires
                    count == payload / (width as int),
                    width > 0,
                    payload >= 0,
            ;
        }
        let mut i: u64 = 0;
        while i < count
            invariant
                i <= count,
                count * width <= u64::MAX,
                width == 4 || width == 8,
                width == self.root.spec_entry_width(),
                dm == self.direct_map,
                sig == signature@,
                spec_lookup(mem@, dm, self.root, sig) == spec_find_table(mem@, dm, entries_start as nat, width as nat, count as nat, i as nat, sig),
            decreases count - i,
        {
            let offset = match i.checked_mul(width) {
                Some(v) => v,
                None => {
                    assert(false) by (nonlinear_arith)
                        requires
                            i < count,
                            count * width <= u64::MAX,
                            i * width > u64::MAX,
                    ;
                    return Err(AcpiError::AddressOverflow);
                },
            };
            let entry_addr = match entries_start.checked_add(offset) {
                Some(v) => v,
                None => return Err(AcpiError::AddressOverflow),
            };
            let table_addr = match read_le(mem, dm, entry_addr, width) {
                Ok(v) => v,
                Err(e) => return Err(e),
            };
            if !can_read(mem, dm, table_addr, SDT_HEADER_SIZE) {
                return Err(AcpiError::AddressOverflow);
            }
            proof {
                lemma_readable_sub(mem@, dm, table_addr as nat, 36, (table_addr + 4) as nat, 4);
                lemma_readable_sub(mem@, dm, table_addr as nat, 36, table_addr as nat, 4);
            }
            let length = read_known(mem, dm, table_addr + 4, 4);
            if length < SDT_HEADER_SIZE {
                return Err(AcpiError::InvalidSdtLength);
            }
            let found = read_signature(mem, dm, table_addr);
            if found[0] == signature[0] && found[1] == signature[1] && found[2] == signature[2] && found[3] == signature[3] {
                assert(found@ =~= signature@);
                match checksum(mem, dm, table_addr, length) {
                    Ok(true) => {},
                    Ok(false) => return Err(AcpiError::MalformedAcpiTable),
                    Err(e) => return Err(e),
                }
                return Ok(Some(Sdt { physical_addr: PhysicalAddr::new(table_addr), length, signature: found }));
            }
            assert(found@ != signature@) by {
                if found@ == signature@ {
                    assert(found@[0] == signature@[0] && found@[1] == signature@[1] && found@[2] == signature@[2] && found@[3] == signature@[3]);
                }
            }
            i = i + 1;
        }
        Ok(None)
    }
}

/// The header of a MADT entry: its kind and its length in bytes.
#[derive(Clone, Copy, Debug, PartialEq, Eq, Structural)]
pub struct MadtEntryHeader {
    pub kind: u8,
    pub length: u8,
}

/// A processor's local APIC.
#[derive(Clone, Copy, Debug, PartialEq, Eq, Structural)]
pub struct LocalApicEntry {
    pub processor_id: u8,
    pub id: u8,
    pub flags: u32,
}

/// An I/O APIC as the MADT lists it.
#[derive(Clone, Copy, Debug, PartialEq, Eq, Structural)]
pub struct IoApicEntry {
    pub id: u8,
    pub reserved: u8,
    pub apic_address: u32,
    pub global_system_interrupt_base: u32,
}

/// An ISA interrupt that is routed other than identity.
#[derive(Clone, Copy, Debug, PartialEq, Eq, Structural)]
pub struct InterruptSourceOverride {
    pub bus: u8,
    pub source: u8,
    pub global_interrupt: u32,
    pub flags: u16,
}

/// An interrupt of an I/O APIC that is an NMI.
#[derive(Clone, Copy, Debug, PartialEq, Eq, Structural)]
pub struct IoApicNmiEntry {
    pub nmi_source: u8,
    pub reserved: u8,
    pub flags: u16,
    pub global_system_interrupt: u32,
}

/// A local APIC input that is an NMI.
#[derive(Clone, Copy, Debug, PartialEq, Eq, Structural)]
pub struct LocalApicNmiEntry {
    pub processor_id: u8,
    pub flags: u16,
    pub lint_num: u8,
}

/// A 64-bit address of the local APICs that replaces the MADT's.
#[derive(Clone, Copy, Debug, PartialEq, Eq, Structural)]
pub struct LocalApicAddressOverride {
    pub reserved: u16,
    pub local_apic_address: u64,
}

/// A processor's x2APIC.
#[derive(Clone, Copy, Debug, PartialEq, Eq, Structural)]
pub struct LocalX2ApicEntry {
    pub reserved: u16,
    pub local_x2apic_id: u32,
    pub flags: u32,
    pub acpi_processor_uid: u32,
}

/// An entry of the MADT.
#[derive(Clone, Copy, Debug, PartialEq, Eq, Structural)]
pub enum MadtEntry {
    LocalApic(LocalApicEntry),
    IoApic(IoApicEntry),
    InterruptSourceOverride(InterruptSourceOverride),
    IoApicNmi(IoApicNmiEntry),
    LocalApicNmi(LocalApicNmiEntry),
    LocalApicAddressOverride(LocalApicAddressOverride),
    LocalX2Apic(LocalX2ApicEntry),
    Unknown { kind: u8, length: u8 },
}

/// The size of the body of an entry of kind `kind`, for the kinds the
/// kernel knows.
pub open spec fn body_size(kind: u8) -> Option<nat> {
    if kind == 0 {
        Some(6)
    } else if kind == 1 {
        Some(10)
    } else if kind == 2 {
        Some(8)
    } else if kind == 3 {
        Some(8)
    } else if kind == 4 {
        Some(4)
    } else if kind == 5 {
        Some(10)
    } else if kind == 9 {
        Some(14)
    } else {
        None
    }
}

/// The entry of kind `kind` whose body is at `b`.
pub open spec fn decode_body(mem: Seq<u64>, kind: u8, length: u8, b: nat) -> MadtEntry {
    let byte = |i: nat| mem_byte(mem, b + i);
    if kind == 0 {
        MadtEntry::LocalApic(LocalApicEntry { processor_id: byte(0), id: byte(1), flags: le_at(mem, b + 2, 4) as u32 })
    } else if kind == 1 {
        MadtEntry::IoApic(IoApicEntry {
            id: byte(0),
            reserved: byte(1),
            apic_address: le_at(mem, b + 2, 4) as u32,
            global_system_interrupt_base: le_at(mem, b + 6, 4) as u32,
        })
    } else if kind == 2 {
        MadtEntry::InterruptSourceOverride(InterruptSourceOverride {
            bus: byte(0),
            source: byte(1),
            global_interrupt: le_at(mem, b + 2, 4) as u32,
            flags: le_at(mem, b + 6, 2) as u16,
        })
    } else if kind == 3 {
        MadtEntry::IoApicNmi(IoApicNmiEntry {
            nmi_source: byte(0),
            reserved: byte(1),
            flags: le_at(mem, b + 2, 2) as u16,
            global_system_interrupt: le_at(mem, b + 4, 4) as u32,
        })
    } else if kind == 4 {
        MadtEntry::LocalApicNmi(LocalApicNmiEntry { processor_id: byte(0), flags: le_at(mem, b + 1, 2) as u16, lint_num: byte(3) })
    } else if kind == 5 {
        MadtEntry::LocalApicAddressOverride(LocalApicAddressOverride {
            reserved: le_at(mem, b, 2) as u16,
            local_apic_address: le_at(mem, b + 2, 8) as u64,
        })
    } else if kind == 9 {
        MadtEntry::LocalX2Apic(LocalX2ApicEntry {
            reserved: le_at(mem, b, 2) as u16,
            local_x2apic_id: le_at(mem, b + 2, 4) as u32,
            flags: le_at(mem, b + 6, 4) as u32,
            acpi_processor_uid: le_at(mem, b + 10, 4) as u32,
        })
    } else {
        MadtEntry::Unknown { kind, length }
    }
}

/// The entry whose header, of kind `kind` and length `length`, is at `cur`:
/// an entry too short for its kind's body is malformed.
pub open spec fn spec_entry(mem: Seq<u64>, dm: DirectMap, cur: nat, kind: u8, length: u8) -> Result<MadtEntry, AcpiError> {
    match body_size(kind) {
        None => Ok(MadtEntry::Unknown { kind, length }),
        Some(size) => if length < 2 + size {
            Err(AcpiError::MalformedAcpiTable)
        } else if !readable(mem, dm, cur + 2, size) {
            Err(AcpiError::AddressOverflow)
        } else {
            Ok(decode_body(mem, kind, length, cur + 2))
        },
    }
}

/// What the entry iterator yields from `cur`, with the entries ending at
/// `end`, and where it goes on from: nothing at the end; after an error,
/// the end.
pub open spec fn spec_next(mem: Seq<u64>, dm: DirectMap, cur: nat, end: nat) -> Option<(Result<MadtEntry, AcpiError>, nat)> {
    if cur == end {
        None
    } else if cur > end || end - cur < 2 {
        Some((Err(AcpiError::MalformedAcpiTable), end))
    } else if !readable(mem, dm, cur, 2) {
        Some((Err(AcpiError::AddressOverflow), end))
    } else {
        let kind = mem_byte(mem, cur);
        let length = mem_byte(mem, cur + 1);
        if length < 2 || length > end - cur {
            Some((Err(AcpiError::MalformedAcpiTable), end))
        } else {
            match spec_entry(mem, dm, cur, kind, length) {
                Ok(e) => Some((Ok(e), (cur + length) as nat)),
                Err(x) => Some((Err(x), end)),
            }
        }
    }
}

/// Every entry the iterator yields from `cur` on.
pub open spec fn spec_entries(mem: Seq<u64>, dm: DirectMap, cur: nat, end: nat) -> Seq<Result<MadtEntry, AcpiError>>
    decreases end - cur,
{
    match spec_next(mem, dm, cur, end) {
        None => Seq::empty(),
        Some((r, next)) => if cur < next <= end && r is Ok {
            seq![r] + spec_entries(mem, dm, next, end)
        } else {
            seq![r]
        },
    }
}

/// A walk over the entries of a MADT, from `current` to `end`.
pub struct MadtEntries<'a> {
    pub acpi: &'a AcpiTables,
    pub current: u64,
    pub end: u64,
}

impl<'a> MadtEntries<'a> {
    /// The entries this walk has left to yield.
    pub open spec fn remaining(&self, mem: Seq<u64>) -> Seq<Result<MadtEntry, AcpiError>> {
        spec_entries(mem, self.acpi.direct_map, self.current as nat, self.end as nat)
    }

    /// The body of the entry at `current`, of kind `kind` and length
    /// `length`.
    fn read_body(&self, mem: &PhysicalMemory, kind: u8, length: u8) -> (r: Result<MadtEntry, AcpiError>)
        requires
            self.current + 2 <= u64::MAX,
        ensures
            r == spec_entry(mem@, self.acpi.direct_map, self.current as nat, kind, length),
    {
        let dm = self.acpi.direct_map;
        let size: u64 = if kind == 0 {
            6
        } else if kind == 1 {
            10
        } else if kind == 2 {
            8
        } else if kind == 3 {
            8
        } else if kind == 4 {
            4
        } else if kind == 5 {
            10
        } else if kind == 9 {
            14
        } else {
            return Ok(MadtEntry::Unknown { kind, length });
        };
        if (length as u64) < 2 + size {
            return Err(AcpiError::MalformedAcpiTable);
        }
        let b = self.current + 2;
        if !can_read(mem, dm, b, size) {
            return Err(AcpiError::AddressOverflow);
        }
        proof {
            assert forall|q: nat, m: nat| b <= q && q + m <= b + size && m >= 1 implies #[trigger] readable(mem@, dm, q, m) by {
                lemma_readable_sub(mem@, dm, b as nat, size as nat, q, m);
            }
        }
        let e = if kind == 0 {
            MadtEntry::LocalApic(LocalApicEntry {
                processor_id: read_known(mem, dm, b, 1) as u8,
                id: read_known(mem, dm, b + 1, 1) as u8,
                flags: read_known(mem, dm, b + 2, 4) as u32,
            })
        } else if kind == 1 {
            MadtEntry::IoApic(IoApicEntry {
                id: read_known(mem, dm, b, 1) as u8,
                reserved: read_known(mem, dm, b + 1, 1) as u8,
                apic_address: read_known(mem, dm, b + 2, 4) as u32,
                global_system_interrupt_base: read_known(mem, dm, b + 6, 4) as u32,
            })
        } else if kind == 2 {
            MadtEntry::InterruptSourceOverride(InterruptSourceOverride {
                bus: read_known(mem, dm, b, 1) as u8,
                source: read_known(mem, dm, b + 1, 1) as u8,
                global_interrupt: read_known(mem, dm, b + 2, 4) as u32,
                flags: read_known(mem, dm, b + 6, 2) as u16,
            })
        } else if kind == 3 {
            MadtEntry::IoApicNmi(IoApicNmiEntry {
                nmi_source: read_known(mem, dm, b, 1) as u8,
                reserved: read_known(mem, dm, b + 1, 1) as u8,
                flags: read_known(mem, dm, b + 2, 2) as u16,
                global_system_interrupt: read_known(mem, dm, b + 4, 4) as u32,
            })
        } else if kind == 4 {
            MadtEntry::LocalApicNmi(LocalApicNmiEntry {
                processor_id: read_known(mem, dm, b, 1) as u8,
                flags: read_known(mem, dm, b + 1, 2) as u16,
                lint_num: read_known(mem, dm, b + 3, 1) as u8,
            })
        } else if kind == 5 {
            MadtEntry::LocalApicAddressOverride(LocalApicAddressOverride {
                reserved: read_known(mem, dm, b, 2) as u16,
                local_apic_address: read_known(mem, dm, b + 2, 8),
            })
        } else {
            MadtEntry::LocalX2Apic(LocalX2ApicEntry {
                reserved: read_known(mem, dm, b, 2) as u16,
                local_x2apic_id: read_known(mem, dm, b + 2, 4) as u32,
                flags: read_known(mem, dm, b + 6, 4) as u32,
                acpi_processor_uid: read_known(mem, dm, b + 10, 4) as u32,
            })
        };
        proof {
            reveal_with_fuel(le_at, 2);
            lemma_le_at_bound(mem@, b as nat, 1);
            lemma_le_at_bound(mem@, (b + 1) as nat, 1);
            lemma_le_at_bound(mem@, (b + 3) as nat, 1);
        }
        Ok(e)
    }

    /// The next entry, with the error that ends the walk if the table is
    /// malformed or cannot be read; `None` at the end.
    pub fn next(&mut self, mem: &PhysicalMemory) -> (r: Option<Result<MadtEntry, AcpiError>>)
        ensures
            final(self).acpi == old(self).acpi,
            final(self).end == old(self).end,
            match spec_next(mem@, old(self).acpi.direct_map, old(self).current as nat, old(self).end as nat) {
                None => r is None && final(self).current == old(self).current,
                Some((x, n)) => r == Some(x) && final(self).current == n,
            },
    {
        let dm = self.acpi.direct_map;
        let current = self.current;
        let end = self.end;
        if current == end {
            return None;
        }
        if current > end || end - current < 2 {
            self.current = end;
            return Some(Err(AcpiError::MalformedAcpiTable));
        }
        if !can_read(mem, dm, current, 2) {
            self.current = end;
            return Some(Err(AcpiError::AddressOverflow));
        }
        proof {
            lemma_readable_sub(mem@, dm, current as nat, 2, current as nat, 1);
            lemma_readable_sub(mem@, dm, current as nat, 2, (current + 1) as nat, 1);
            reveal_with_fuel(le_at, 2);
        }
        let kind = read_known(mem, dm, current, 1) as u8;
        let length = read_known(mem, dm, current + 1, 1) as u8;
        proof {
            lemma_le_at_bound(mem@, current as nat, 1);
            lemma_le_at_bound(mem@, (current + 1) as nat, 1);
        }
        if length < 2 || length as u64 > end - current {
            self.current = end;
            return Some(Err(AcpiError::MalformedAcpiTable));
        }
        let res = self.read_body(mem, kind, length);
        match res {
            Ok(e) => {
                self.current = current + length as u64;
                Some(Ok(e))
            },
            Err(x) => {
                self.current = end;
                Some(Err(x))
            },
        }
    }

    /// What `next` yields is the first of the remaining entries, and the
    /// rest remain.
    pub proof fn lemma_next_remaining(&self, after: &Self, mem: Seq<u64>, r: Option<Result<MadtEntry, AcpiError>>)
        requires
            after.acpi == self.acpi,
            after.end == self.end,
            match spec_next(mem, self.acpi.direct_map, self.current as nat, self.end as nat) {
                None => r is None && after.current == self.current,
                Some((x, n)) => r == Some(x) && after.current == n,
            },
        ensures
            r is None <==> self.remaining(mem).len() == 0,
            r matches Some(x) ==> self.remaining(mem).len() > 0 && x == self.remaining(mem)[0] && after.remaining(mem)
                == self.remaining(mem).drop_first(),
    {
        let dm = self.acpi.direct_map;
        let cur = self.current as nat;
        let end = self.end as nat;
        match spec_next(mem, dm, cur, end) {
            None => {},
            Some((x, n)) => {
                if cur < n <= end && x is Ok {
                    assert(self.remaining(mem) == seq![x] + spec_entries(mem, dm, n, end));
                    assert((seq![x] + spec_entries(mem, dm, n, end)).drop_first() =~= spec_entries(mem, dm, n, end));
                } else {
                    assert(n == end);
                    assert(spec_entries(mem, dm, end, end) =~= Seq::<Result<MadtEntry, AcpiError>>::empty());
                    assert(seq![x].drop_first() =~= Seq::<Result<MadtEntry, AcpiError>>::empty());
                }
            },
        }
    }
}

/// The MADT: the table, the local APICs' address and the flags.
pub struct Madt<'a> {
    pub acpi: &'a AcpiTables,
    pub table: Sdt,
    pub local_apic_address: PhysicalAddr,
    pub flags: u32,
}

/// An I/O APIC: its id, its registers' address and its first interrupt.
#[derive(Clone, Copy, Debug, PartialEq, Eq, Structural)]
pub struct IoApicInfo {
    pub id: u8,
    pub apic_address: PhysicalAddr,
    pub global_system_interrupt_base: u32,
}

/// The level at which an interrupt line is active.
#[derive(Clone, Copy, Debug, PartialEq, Eq, Structural)]
pub enum InterruptPolarity {
    ActiveHigh,
    ActiveLow,
}

/// Whether an interrupt is signalled by an edge or a level.
#[derive(Clone, Copy, Debug, PartialEq, Eq, Structural)]
pub enum TriggerMode {
    Edge,
    Level,
}

/// Where an ISA interrupt arrives: its global system interrupt, polarity
/// and trigger mode.
#[derive(Clone, Copy, Debug, PartialEq, Eq, Structural)]
pub struct IsaIrqRoute {
    pub gsi: u32,
    pub polarity: InterruptPolarity,
    pub trigger: TriggerMode,
}

/// The MADT that [`Madt::parse`] reads from table `t`: its local APIC
/// address and flags.
pub open spec fn spec_parse_madt(mem: Seq<u64>, dm: DirectMap, a: nat, length: nat, sig: Seq<u8>) -> Result<(u64, u32), AcpiError> {
    if sig != madt_signature() {
        Err(AcpiError::InvalidInput)
    } else if length < MADT_ENTRIES_OFFSET {
        Err(AcpiError::MalformedAcpiTable)
    } else if a + SDT_HEADER_SIZE > u64::MAX || !readable(mem, dm, (a + SDT_HEADER_SIZE) as nat, 8) {
        Err(AcpiError::AddressOverflow)
    } else {
        let b = (a + SDT_HEADER_SIZE) as nat;
        Ok((le_at(mem, b, 4) as u64, le_at(mem, b + 4, 4) as u32))
    }
}

/// The entries of the MADT in table `t`.
pub open spec fn spec_madt_entries(mem: Seq<u64>, dm: DirectMap, t: Sdt) -> Result<Seq<Result<MadtEntry, AcpiError>>, AcpiError> {
    if t.physical_addr.0 + MADT_ENTRIES_OFFSET > u64::MAX || t.physical_addr.0 + t.length > u64::MAX {
        Err(AcpiError::AddressOverflow)
    } else {
        Ok(spec_entries(mem, dm, (t.physical_addr.0 + MADT_ENTRIES_OFFSET) as nat, (t.physical_addr.0 + t.length) as nat))
    }
}

/// The local APIC address after the overrides among `s`, starting from
/// `base`; the first error among them ends the walk.
pub open spec fn spec_effective_address(s: Seq<Result<MadtEntry, AcpiError>>, base: u64) -> Result<u64, AcpiError>
    decreases s.len(),
{
    if s.len() == 0 {
        Ok(base)
    } else {
        match s[0] {
            Err(e) => Err(e),
            Ok(MadtEntry::LocalApicAddressOverride(o)) => spec_effective_address(s.drop_first(), o.local_apic_address),
            Ok(_) => spec_effective_address(s.drop_first(), base),
        }
    }
}

/// `e` overrides the local APICs' address.
pub open spec fn is_address_override(e: Result<MadtEntry, AcpiError>) -> bool {
    e matches Ok(MadtEntry::LocalApicAddressOverride(_))
}

/// Among entries that all parse, none of which overrides the local APICs'
/// address, the address stays the one the walk starts from.
pub proof fn lemma_effective_address_without_override(s: Seq<Result<MadtEntry, AcpiError>>, base: u64)
    requires
        forall|i: int| 0 <= i < s.len() ==> #[trigger] s[i] is Ok,
        forall|i: int| 0 <= i < s.len() ==> !is_address_override(#[trigger] s[i]),
    ensures
        spec_effective_address(s, base) == Ok::<u64, AcpiError>(base),
    decreases s.len(),
{
    if s.len() > 0 {
        assert(s[0] is Ok && !is_address_override(s[0]));
        let t = s.drop_first();
        assert forall|i: int| 0 <= i < t.len() implies #[trigger] t[i] is Ok && !is_address_override(t[i]) by {
            assert(t[i] == s[i + 1]);
        }
        lemma_effective_address_without_override(t, base);
    }
}

/// Among entries that all parse, the last that overrides the local APICs'
/// address gives the address, whatever came before it and whatever the
/// walk starts from.
pub proof fn lemma_effective_address_last_override(s: Seq<Result<MadtEntry, AcpiError>>, base: u64, j: int)
    requires
        forall|i: int| 0 <= i < s.len() ==> #[trigger] s[i] is Ok,
        0 <= j < s.len(),
        s[j] matches Ok(MadtEntry::LocalApicAddressOverride(o)),
        forall|i: int| j < i < s.len() ==> !is_address_override(#[trigger] s[i]),
    ensures
        s[j] matches Ok(MadtEntry::LocalApicAddressOverride(o)) && spec_effective_address(s, base) == Ok::<u64, AcpiError>(
            o.local_apic_address,
        ),
    decreases s.len(),
{
    let t = s.drop_first();
    assert(s[0] is Ok);
    assert forall|i: int| 0 <= i < t.len() implies #[trigger] t[i] is Ok by {
        assert(t[i] == s[i + 1]);
    }
    if j == 0 {
        assert forall|i: int| 0 <= i < t.len() implies !is_address_override(#[trigger] t[i]) by {
            assert(t[i] == s[i + 1]);
        }
        if let Ok(MadtEntry::LocalApicAddressOverride(o)) = s[0] {
            lemma_effective_address_without_override(t, o.local_apic_address);
        }
    } else {
        assert(t[j - 1] == s[j]);
        assert forall|i: int| j - 1 < i < t.len() implies !is_address_override(#[trigger] t[i]) by {
            assert(t[i] == s[i + 1]);
        }
        if let Ok(MadtEntry::LocalApicAddressOverride(o)) = s[0] {
            lemma_effective_address_last_override(t, o.local_apic_address, j - 1);
        } else {
            lemma_effective_address_last_override(t, base, j - 1);
        }
    }
}

/// The I/O APICs among `s`, and its errors, in order.
pub open spec fn spec_io_apics(s: Seq<Result<MadtEntry, AcpiError>>) -> Seq<Result<IoApicInfo, AcpiError>>
    decreases s.len(),
{
    if s.len() == 0 {
        Seq::empty()
    } else {
        let rest = spec_io_apics(s.drop_first());
        match s[0] {
            Err(e) => seq![Err(e)] + rest,
            Ok(MadtEntry::IoApic(a)) => seq![
                Ok(
                    IoApicInfo {
                        id: a.id,
                        apic_address: PhysicalAddr(a.apic_address as u64),
                        global_system_interrupt_base: a.global_system_interrupt_base,
                    },
                ),
            ] + rest,
            Ok(_) => rest,
        }
    }
}

/// The one I/O APIC among `f`, the I/O APICs and errors of a MADT.
pub open spec fn spec_sole(f: Seq<Result<IoApicInfo, AcpiError>>) -> Result<IoApicInfo, AcpiError> {
    if f.len() == 0 {
        Err(AcpiError::MissingIoApic)
    } else {
        match f[0] {
            Err(e) => Err(e),
            Ok(first) => if f.len() == 1 {
                Ok(first)
            } else {
                match f[1] {
                    Err(e) => Err(e),
                    Ok(_) => Err(AcpiError::MultipleIoApicsUnsupported),
                }
            },
        }
    }
}

/// The route of ISA interrupt `irq` that an override with `flags` to `gsi`
/// gives: polarity in bits 0-1 and trigger mode in bits 2-3, where 0 means
/// the bus's default (active high, edge) and 2 is reserved.
pub open spec fn spec_override_route(gsi: u32, flags: u16) -> Result<IsaIrqRoute, AcpiError> {
    let p = flags & 3;
    let t = (flags >> 2u16) & 3;
    if p == 2 || t == 2 {
        Err(AcpiError::MalformedMadt)
    } else {
        Ok(IsaIrqRoute {
            gsi,
            polarity: if p == 3 { InterruptPolarity::ActiveLow } else { InterruptPolarity::ActiveHigh },
            trigger: if t == 3 { TriggerMode::Level } else { TriggerMode::Edge },
        })
    }
}

/// The route of ISA interrupt `irq` that `s` gives: the first override of
/// bus 0 for it, or the identity route, active high and edge-triggered.
pub open spec fn spec_isa_route(s: Seq<Result<MadtEntry, AcpiError>>, irq: u8) -> Result<IsaIrqRoute, AcpiError>
    decreases s.len(),
{
    if s.len() == 0 {
        Ok(IsaIrqRoute { gsi: irq as u32, polarity: InterruptPolarity::ActiveHigh, trigger: TriggerMode::Edge })
    } else {
        match s[0] {
            Err(e) => Err(e),
            Ok(MadtEntry::InterruptSourceOverride(o)) => if o.bus == 0 && o.source == irq {
                spec_override_route(o.global_interrupt, o.flags)
            } else {
                spec_isa_route(s.drop_first(), irq)
            },
            Ok(_) => spec_isa_route(s.drop_first(), irq),
        }
    }
}

impl AcpiTables {
    /// The MADT, if the root table lists one.
    pub fn madt(&self, mem: &PhysicalMemory) -> (r: Result<Option<Madt<'_>>, AcpiError>)
        ensures
            match spec_lookup(mem@, self.direct_map, self.root, madt_signature()) {
                Err(e) => r == Err::<Option<Madt>, AcpiError>(e),
                Ok(None) => r matches Ok(None),
                Ok(Some((a, l))) => match spec_parse_madt(mem@, self.direct_map, a, l, madt_signature()) {
                    Err(e) => r == Err::<Option<Madt>, AcpiError>(e),
                    Ok((address, flags)) => r matches Ok(Some(m)) && m.acpi == self && m.table.physical_addr.0 == a
                        && m.table.length == l && m.table.signature@ == madt_signature() && m.local_apic_address.0 == address
                        && m.flags == flags,
                },
            },
    {
        let sig: [u8; 4] = [65u8, 80u8, 73u8, 67u8];
        assert(sig@ =~= madt_signature());
        match self.find_table(mem, sig) {
            Err(e) => Err(e),
            Ok(None) => Ok(None),
            Ok(Some(table)) => match Madt::parse(self, mem, table) {
                Ok(m) => Ok(Some(m)),
                Err(e) => Err(e),
            },
        }
    }
}

impl<'a> Madt<'a> {
    /// Reads the MADT in `table`: the signature must be `APIC`, the table
    /// long enough for its body, and the body readable.
    pub fn parse(acpi: &'a AcpiTables, mem: &PhysicalMemory, table: Sdt) -> (r: Result<Self, AcpiError>)
        ensures
            match spec_parse_madt(mem@, acpi.direct_map, table.physical_addr.0 as nat, table.length as nat, table.signature@) {
                Err(e) => r == Err::<Madt, AcpiError>(e),
                Ok((address, flags)) => r matches Ok(m) && m.acpi == acpi && m.table == table
                    && m.local_apic_address.0 == address && m.flags == flags,
            },
    {
        let dm = acpi.direct_map;
        if !(table.signature[0] == 65 && table.signature[1] == 80 && table.signature[2] == 73 && table.signature[3] == 67) {
            assert(table.signature@ != madt_signature()) by {
                if table.signature@ == madt_signature() {
                    assert(table.signature@[0] == 65 && table.signature@[1] == 80 && table.signature@[2] == 73 && table.signature@[3] == 67);
                }
            }
            return Err(AcpiError::InvalidInput);
        }
        assert(table.signature@ =~= madt_signature());
        if table.length < MADT_ENTRIES_OFFSET {
            return Err(AcpiError::MalformedAcpiTable);
        }
        let body = match table.physical_addr.0.checked_add(SDT_HEADER_SIZE) {
            Some(b) => b,
            None => return Err(AcpiError::AddressOverflow),
        };
        if !can_read(mem, dm, body, 8) {
            return Err(AcpiError::AddressOverflow);
        }
        proof {
            lemma_readable_sub(mem@, dm, body as nat, 8, body as nat, 4);
            lemma_readable_sub(mem@, dm, body as nat, 8, (body + 4) as nat, 4);
        }
        let address = read_known(mem, dm, body, 4);
        let flags = read_known(mem, dm, body + 4, 4);
        proof {
            lemma_le_at_bound(mem@, (body + 4) as nat, 4);
            reveal_with_fuel(pow256, 5);
        }
        Ok(Madt { acpi, table, local_apic_address: PhysicalAddr::new(address), flags: flags as u32 })
    }

    /// A walk over the MADT's entries.
    pub fn entries(&self) -> (r: Result<MadtEntries<'a>, AcpiError>)
        ensures
            match spec_madt_entries(Seq::empty(), self.acpi.direct_map, self.table) {
                Err(e) => r == Err::<MadtEntries, AcpiError>(e),
                Ok(_) => r matches Ok(it) && it.acpi == self.acpi && it.current == self.table.physical_addr.0
                    + MADT_ENTRIES_OFFSET && it.end == self.table.physical_addr.0 + self.table.length,
            },
    {
        let current = match self.table.physical_addr.0.checked_add(MADT_ENTRIES_OFFSET) {
            Some(v) => v,
            None => return Err(AcpiError::AddressOverflow),
        };
        let end = match self.table.physical_addr.0.checked_add(self.table.length) {
            Some(v) => v,
            None => return Err(AcpiError::AddressOverflow),
        };
        Ok(MadtEntries { acpi: self.acpi, current, end })
    }

    /// Every entry of the MADT, up to the first error.
    pub fn collect_entries(&self, mem: &PhysicalMemory) -> (r: Result<Vec<Result<MadtEntry, AcpiError>>, AcpiError>)
        ensures
            match spec_madt_entries(mem@, self.acpi.direct_map, self.table) {
                Err(e) => r == Err::<Vec<Result<MadtEntry, AcpiError>>, AcpiError>(e),
                Ok(s) => r matches Ok(v) && v@ == s,
            },
    {
        let mut it = match self.entries() {
            Ok(it) => it,
            Err(e) => return Err(e),
        };
        let ghost all = it.remaining(mem@);
        assert(spec_madt_entries(mem@, self.acpi.direct_map, self.table) == Ok::<Seq<Result<MadtEntry, AcpiError>>, AcpiError>(all));
        let mut out: Vec<Result<MadtEntry, AcpiError>> = Vec::new();
        loop
            invariant
                it.acpi == self.acpi,
                spec_madt_entries(mem@, self.acpi.direct_map, self.table) == Ok::<Seq<Result<MadtEntry, AcpiError>>, AcpiError>(all),
                out@ + it.remaining(mem@) == all,
            decreases it.remaining(mem@).len(),
        {
            let ghost before = it;
            let r = it.next(mem);
            proof {
                before.lemma_next_remaining(&it, mem@, r);
            }
            match r {
                None => {
                    assert(out@ =~= all);
                    return Ok(out);
                },
                Some(x) => {
                    proof {
                        assert(out@.push(x) + it.remaining(mem@) =~= out@ + before.remaining(mem@));
                    }
                    out.push(x);
                },
            }
        }
    }

    /// The local APICs' address: the MADT's, unless an entry overrides it
    /// (the last override wins).
    pub fn effective_local_apic_address(&self, mem: &PhysicalMemory) -> (r: Result<PhysicalAddr, AcpiError>)
        ensures
            match spec_madt_entries(mem@, self.acpi.direct_map, self.table) {
                Err(e) => r == Err::<PhysicalAddr, AcpiError>(e),
                Ok(s) => match spec_effective_address(s, self.local_apic_address.0) {
                    Ok(a) => r == Ok::<PhysicalAddr, AcpiError>(PhysicalAddr(a)),
                    Err(e) => r == Err::<PhysicalAddr, AcpiError>(e),
                },
            },
    {
        let entries = match self.collect_entries(mem) {
            Ok(v) => v,
            Err(e) => return Err(e),
        };
        let ghost s = entries@;
        assert(s.subrange(0, s.len() as int) =~= s);
        let mut address = self.local_apic_address.0;
        let mut i: usize = 0;
        while i < entries.len()
            invariant
                i <= s.len(),
                entries@ == s,
                spec_effective_address(s, self.local_apic_address.0) == spec_effective_address(s.subrange(i as int, s.len() as int), address),
                spec_madt_entries(mem@, self.acpi.direct_map, self.table) == Ok::<Seq<Result<MadtEntry, AcpiError>>, AcpiError>(s),
            decreases s.len() - i,
        {
            let ghost rest = s.subrange(i as int, s.len() as int);
            assert(rest.drop_first() =~= s.subrange(i + 1, s.len() as int));
            assert(rest[0] == s[i as int]);
            match entries[i] {
                Err(e) => return Err(e),
                Ok(MadtEntry::LocalApicAddressOverride(o)) => {
                    address = o.local_apic_address;
                },
                Ok(_) => {},
            }
            i = i + 1;
        }
        assert(s.subrange(i as int, s.len() as int) =~= Seq::<Result<MadtEntry, AcpiError>>::empty());
        Ok(PhysicalAddr::new(address))
    }

    /// The I/O APICs the MADT lists, in order, with the error that ends the
    /// walk, if any.
    pub fn io_apics(&self, mem: &PhysicalMemory) -> (r: Result<Vec<Result<IoApicInfo, AcpiError>>, AcpiError>)
        ensures
            match spec_madt_entries(mem@, self.acpi.direct_map, self.table) {
                Err(e) => r == Err::<Vec<Result<IoApicInfo, AcpiError>>, AcpiError>(e),
                Ok(s) => r matches Ok(v) && v@ == spec_io_apics(s),
            },
    {
        let entries = match self.collect_entries(mem) {
            Ok(v) => v,
            Err(e) => return Err(e),
        };
        let ghost s = entries@;
        assert(s.subrange(0, s.len() as int) =~= s);
        let mut out: Vec<Result<IoApicInfo, AcpiError>> = Vec::new();
        let mut i: usize = 0;
        while i < entries.len()
            invariant
                i <= s.len(),
                entries@ == s,
                out@ + spec_io_apics(s.subrange(i as int, s.len() as int)) == spec_io_apics(s),
                spec_madt_entries(mem@, self.acpi.direct_map, self.table) == Ok::<Seq<Result<MadtEntry, AcpiError>>, AcpiError>(s),
            decreases s.len() - i,
        {
            let ghost rest = s.subrange(i as int, s.len() as int);
            assert(rest.drop_first() =~= s.subrange(i + 1, s.len() as int));
            assert(rest[0] == s[i as int]);
            let ghost tail = spec_io_apics(s.subrange(i + 1, s.len() as int));
            match entries[i] {
                Err(e) => {
                    out.push(Err(e));
                    assert(out@ + tail =~= spec_io_apics(s));
                },
                Ok(MadtEntry::IoApic(a)) => {
                    out.push(Ok(IoApicInfo {
                        id: a.id,
                        apic_address: PhysicalAddr::new(a.apic_address as u64),
                        global_system_interrupt_base: a.global_system_interrupt_base,
                    }));
                    assert(out@ + tail =~= spec_io_apics(s));
                },
                Ok(_) => {},
            }
            i = i + 1;
        }
        assert(spec_io_apics(s.subrange(i as int, s.len() as int)) =~= Seq::<Result<IoApicInfo, AcpiError>>::empty());
        assert(out@ =~= out@ + Seq::<Result<IoApicInfo, AcpiError>>::empty());
        Ok(out)
    }

    /// The system's one I/O APIC: `MissingIoApic` if the MADT lists none,
    /// `MultipleIoApicsUnsupported` if it lists more.
    pub fn sole_io_apic(&self, mem: &PhysicalMemory) -> (r: Result<IoApicInfo, AcpiError>)
        ensures
            match spec_madt_entries(mem@, self.acpi.direct_map, self.table) {
                Err(e) => r == Err::<IoApicInfo, AcpiError>(e),
                Ok(s) => r == spec_sole(spec_io_apics(s)),
            },
    {
        let apics = match self.io_apics(mem) {
            Ok(v) => v,
            Err(e) => return Err(e),
        };
        if apics.len() == 0 {
            return Err(AcpiError::MissingIoApic);
        }
        let first = match apics[0] {
            Ok(a) => a,
            Err(e) => return Err(e),
        };
        if apics.len() == 1 {
            return Ok(first);
        }
        match apics[1] {
            Ok(_) => Err(AcpiError::MultipleIoApicsUnsupported),
            Err(e) => Err(e),
        }
    }

    /// Where ISA interrupt `irq` arrives: as the first override for it on
    /// bus 0 says, or identity-mapped, active high and edge-triggered.
    pub fn isa_irq_route(&self, mem: &PhysicalMemory, irq: u8) -> (r: Result<IsaIrqRoute, AcpiError>)
        ensures
            match spec_madt_entries(mem@, self.acpi.direct_map, self.table) {
                Err(e) => r == Err::<IsaIrqRoute, AcpiError>(e),
                Ok(s) => r == spec_isa_route(s, irq),
            },
    {
        let entries = match self.collect_entries(mem) {
            Ok(v) => v,
            Err(e) => return Err(e),
        };
        let ghost s = entries@;
        assert(s.subrange(0, s.len() as int) =~= s);
        let mut i: usize = 0;
        while i < entries.len()
            invariant
                i <= s.len(),
                entries@ == s,
                spec_isa_route(s, irq) == spec_isa_route(s.subrange(i as int, s.len() as int), irq),
                spec_madt_entries(mem@, self.acpi.direct_map, self.table) == Ok::<Seq<Result<MadtEntry, AcpiError>>, AcpiError>(s),
            decreases s.len() - i,
        {
            let ghost rest = s.subrange(i as int, s.len() as int);
            assert(rest.drop_first() =~= s.subrange(i + 1, s.len() as int));
            assert(rest[0] == s[i as int]);
            match entries[i] {
                Err(e) => return Err(e),
                Ok(MadtEntry::InterruptSourceOverride(o)) => {
                    if o.bus == 0 && o.source == irq {
                        return override_route(o.global_interrupt, o.flags);
                    }
                },
                Ok(_) => {},
            }
            i = i + 1;
        }
        Ok(IsaIrqRoute { gsi: irq as u32, polarity: InterruptPolarity::ActiveHigh, trigger: TriggerMode::Edge })
    }
}

/// The route that an override to `gsi` with `flags` describes.
fn override_route(gsi: u32, flags: u16) -> (r: Result<IsaIrqRoute, AcpiError>)
    ensures
        r == spec_override_route(gsi, flags),
{
    assert(flags & 3u16 <= 3 && (flags >> 2u16) & 3u16 <= 3) by (bit_vector);
    let polarity = match flags & 0b11 {
        0 => InterruptPolarity::ActiveHigh,
        1 => InterruptPolarity::ActiveHigh,
        3 => InterruptPolarity::ActiveLow,
        _ => return Err(AcpiError::MalformedMadt),
    };
    let trigger = match flags >> 2 & 0b11 {
        0 => TriggerMode::Edge,
        1 => TriggerMode::Edge,
        3 => TriggerMode::Level,
        _ => return Err(AcpiError::MalformedMadt),
    };
    Ok(IsaIrqRoute { gsi, polarity, trigger })
}

} // verus!
