//! Checking that a range of user memory may be read or written by the
//! thread that names it, and reading it through the thread's page tables.

use vstd::prelude::*;

use crate::memory::address_space::{AddressSpaceId, AddressSpaceTable, MAX_ADDRESS_SPACES, USER_SPACE_END};
use crate::memory::address_space::AddressSpace;
use crate::memory::phys::mem_byte;
use crate::memory::{PhysicalMemory, VirtualAddr};
use crate::syscall::Status;

verus! {

/// Every page that the `len` bytes at `start` touch is mapped in `space`,
/// user-accessible, and writable when `writable`.
pub open spec fn pages_accessible(
    space: crate::memory::address_space::AddressSpace,
    mem: Seq<u64>,
    start: u64,
    len: u64,
    writable: bool,
) -> bool {
    forall|q: u64|
        start - start % 4096 <= q < start + len && q % 4096 == 0 ==> (#[trigger] space.spec_mapping(mem, q) matches Some(m)
            && m.permissions.user_accessible && (!writable || m.permissions.writable))
}

/// Whether the `len` bytes at `start` may be read (or, with `writable`,
/// written) by a thread of address space `as_id`: they lie in the user
/// half, and, unless there are none, the space exists and each page they
/// touch is mapped, user-accessible and, if asked, writable.
pub open spec fn spec_user_range_ok(spaces: AddressSpaceTable, mem: Seq<u64>, as_id: AddressSpaceId, start: u64, len: u64, writable: bool) -> bool {
    &&& start + len <= USER_SPACE_END
    &&& start < USER_SPACE_END
    &&& len > 0 ==> as_id.0 < MAX_ADDRESS_SPACES && (spaces.view()[as_id.0 as int] matches Some(s) && pages_accessible(
        s,
        mem,
        start,
        len,
        writable,
    ))
}

/// Checks that the `len` bytes at `start` may be read (or, with
/// `writable`, written) by a thread of address space `as_id`; `BadAddress`
/// when they may not.
pub fn validate_user_range(
    spaces: &AddressSpaceTable,
    mem: &PhysicalMemory,
    as_id: AddressSpaceId,
    start: VirtualAddr,
    len: u64,
    writable: bool,
) -> (r: Result<(), Status>)
    requires
        spaces.wf(),
        forall|i: int| 0 <= i < spaces.view().len() ==> (#[trigger] spaces.view()[i] matches Some(s) ==> s.spec_root().inv()),
    ensures
        r == if spec_user_range_ok(*spaces, mem@, as_id, start.0, len, writable) {
            Ok::<(), Status>(())
        } else {
            Err(Status::BadAddress)
        },
{
    let start_addr = start.as_usize();
    let end_addr = match start_addr.checked_add(len) {
        Some(e) => e,
        None => return Err(Status::BadAddress),
    };
    if start_addr >= USER_SPACE_END || end_addr > USER_SPACE_END {
        return Err(Status::BadAddress);
    }
    if len == 0 {
        return Ok(());
    }
    let space = match spaces.get(as_id) {
        Some(s) => s,
        None => return Err(Status::BadAddress),
    };
    let first = start_addr & !0xfffu64;
    proof {
        assert(start_addr & !0xfffu64 == start_addr - start_addr % 4096) by (bit_vector);
        assert((start_addr - start_addr % 4096) % 4096 == 0) by (nonlinear_arith);
    }
    let mut page = first;
    while page < end_addr
        invariant
            end_addr == start_addr + len,
            end_addr <= USER_SPACE_END,
            page % 4096 == 0,
            first == start_addr - start_addr % 4096,
            first <= page <= end_addr + 4096,
            space.spec_root().inv(),
            as_id.0 < MAX_ADDRESS_SPACES,
            spaces.view()[as_id.0 as int] == Some(*space),
            start_addr == start.0,
            len > 0,
            forall|q: u64| first <= q < page && q % 4096 == 0 ==> (#[trigger] space.spec_mapping(mem@, q) matches Some(m)
                && m.permissions.user_accessible && (!writable || m.permissions.writable)),
        decreases end_addr + 4096 - page,
    {
        let ok = match space.mapping(mem, VirtualAddr::new(page)) {
            Some(m) => m.permissions.user_accessible && (!writable || m.permissions.writable),
            None => false,
        };
        if !ok {
            proof {
                assert(!(space.spec_mapping(mem@, page) matches Some(m) && m.permissions.user_accessible && (!writable
                    || m.permissions.writable)));
            }
            return Err(Status::BadAddress);
        }
        proof {
            assert forall|q: u64| first <= q < page + 4096 && q % 4096 == 0 implies (#[trigger] space.spec_mapping(mem@, q) matches Some(m)
                && m.permissions.user_accessible && (!writable || m.permissions.writable)) by {
                if q >= page {
                    assert(q == page) by (nonlinear_arith)
                        requires
                            page <= q < page + 4096,
                            q % 4096 == 0,
                            page % 4096 == 0,
                    ;
                }
            }
        }
        page = page + 4096;
    }
    Ok(())
}

/// User address `addr` of `space` translates to a byte of memory.
pub open spec fn user_byte_present(space: AddressSpace, mem: Seq<u64>, addr: int) -> bool {
    space.translate(mem, addr as u64) matches Some(p) && p / 8 < mem.len()
}

/// The byte that user address `addr` of `space` reads.
pub open spec fn user_byte(space: AddressSpace, mem: Seq<u64>, addr: int) -> u8 {
    mem_byte(mem, space.translate(mem, addr as u64)->Some_0 as nat)
}

/// Whether the `len` bytes at `start` can be read by a thread of address
/// space `as_id`: the range passes [`validate_user_range`] and each of its
/// bytes translates to memory.
pub open spec fn spec_user_readable(spaces: AddressSpaceTable, mem: Seq<u64>, as_id: AddressSpaceId, start: u64, len: u64) -> bool {
    &&& spec_user_range_ok(spaces, mem, as_id, start, len, false)
    &&& len > 0 ==> forall|i: int| 0 <= i < len ==> #[trigger] user_byte_present(spaces.view()[as_id.0 as int]->Some_0, mem, start + i)
}

/// The `len` bytes at user address `src` of address space `as_id`, read
/// through its page tables; `BadAddress` when they may not be read.
pub fn copy_from_user(
    spaces: &AddressSpaceTable,
    mem: &PhysicalMemory,
    as_id: AddressSpaceId,
    src: VirtualAddr,
    len: u64,
) -> (r: Result<Vec<u8>, Status>)
    requires
        spaces.wf(),
        forall|i: int| 0 <= i < spaces.view().len() ==> (#[trigger] spaces.view()[i] matches Some(s) ==> s.spec_root().inv()),
    ensures
        r is Ok <==> spec_user_readable(*spaces, mem@, as_id, src.0, len),
        r matches Err(e) ==> e == Status::BadAddress,
        r matches Ok(bytes) ==> bytes@.len() == len && forall|i: int|
            0 <= i < len ==> #[trigger] bytes@[i] == user_byte(spaces.view()[as_id.0 as int]->Some_0, mem@, src.0 + i),
{
    match validate_user_range(spaces, mem, as_id, src, len, false) {
        Ok(()) => {},
        Err(e) => return Err(e),
    }
    let mut bytes: Vec<u8> = Vec::new();
    if len == 0 {
        return Ok(bytes);
    }
    let space = match spaces.get(as_id) {
        Some(s) => s,
        None => return Err(Status::BadAddress),
    };
    let words = mem.word_count() as u64;
    let mut i: u64 = 0;
    while i < len
        invariant
            spaces.view()[as_id.0 as int] == Some(*space),
            as_id.0 < MAX_ADDRESS_SPACES,
            space.spec_root().inv(),
            spec_user_range_ok(*spaces, mem@, as_id, src.0, len, false),
            src.0 + len <= USER_SPACE_END,
            words == mem@.len(),
            i <= len,
            bytes@.len() == i,
            forall|j: int| 0 <= j < i ==> #[trigger] user_byte_present(*space, mem@, src.0 + j),
            forall|j: int| 0 <= j < i ==> #[trigger] bytes@[j] == user_byte(*space, mem@, src.0 + j),
        decreases len - i,
    {
        let addr = src.0 + i;
        let p = match space.to_physical(mem, VirtualAddr::new(addr)) {
            Some(p) => p,
            None => {
                proof {
                    assert(!user_byte_present(*space, mem@, src.0 + i));
                }
                return Err(Status::BadAddress);
            },
        };
        if p.0 / 8 >= words {
            proof {
                assert(!user_byte_present(*space, mem@, src.0 + i));
            }
            return Err(Status::BadAddress);
        }
        let b = mem.read_u8(p.0);
        bytes.push(b);
        proof {
            assert(bytes@[i as int] == user_byte(*space, mem@, src.0 + i));
        }
        i = i + 1;
    }
    Ok(bytes)
}

/// Checks that a machine word may be stored at user address `dst`, as a
/// system call does before it hands a result back: `InvalidArgument` when
/// `dst` is not 8-byte aligned, `BadAddress` when the word would reach past
/// the user half.
pub fn check_word_destination(dst: VirtualAddr) -> (r: Result<(), Status>)
    ensures
        dst.0 % 8 != 0 ==> r == Err::<(), Status>(Status::InvalidArgument),
        dst.0 % 8 == 0 && dst.0 + 8 > USER_SPACE_END ==> r == Err::<(), Status>(Status::BadAddress),
        dst.0 % 8 == 0 && dst.0 + 8 <= USER_SPACE_END ==> r == Ok::<(), Status>(()),
{
    if dst.0 % 8 != 0 {
        return Err(Status::InvalidArgument);
    }
    let end = match dst.0.checked_add(8) {
        Some(e) => e,
        None => return Err(Status::BadAddress),
    };
    if end > USER_SPACE_END {
        return Err(Status::BadAddress);
    }
    Ok(())
}

/// Whether the `len` bytes at `start` can be written by a thread of address
/// space `as_id`: the range passes [`validate_user_range`] for writing and
/// each of its bytes translates to memory.
pub open spec fn spec_user_writable(spaces: AddressSpaceTable, mem: Seq<u64>, as_id: AddressSpaceId, start: u64, len: u64) -> bool {
    &&& spec_user_range_ok(spaces, mem, as_id, start, len, true)
    &&& len > 0 ==> forall|i: int| 0 <= i < len ==> #[trigger] user_byte_present(spaces.view()[as_id.0 as int]->Some_0, mem, start + i)
}

/// The physical address that user address `addr` of `space` reaches.
pub open spec fn user_phys(space: AddressSpace, mem: Seq<u64>, addr: int) -> nat {
    space.translate(mem, addr as u64)->Some_0 as nat
}

/// The physical addresses that the `n` user addresses from `start` of
/// `space` reach, in order.
pub open spec fn user_phys_seq(space: AddressSpace, mem: Seq<u64>, start: u64, n: nat) -> Seq<nat> {
    Seq::new(n, |i: int| user_phys(space, mem, start + i))
}

/// Memory `after` is `before` with `bytes` written, in order, at the
/// physical addresses that the user addresses from `dst` of `space` reach in
/// `before`: each byte that no later one overwrites reads back, and every
/// byte reached by none is as it was.
pub open spec fn bytes_stored(space: AddressSpace, before: Seq<u64>, after: Seq<u64>, dst: u64, bytes: Seq<u8>) -> bool {
    let ps = user_phys_seq(space, before, dst, bytes.len());
    &&& forall|i: int|
        0 <= i < bytes.len() && (forall|j: int| i < j < bytes.len() ==> #[trigger] ps[j] != ps[i]) ==> mem_byte(after, #[trigger] ps[i])
            == bytes[i]
    &&& forall|a: nat|
        a / 8 < before.len() && (forall|i: int| 0 <= i < bytes.len() ==> #[trigger] ps[i] != a) ==> #[trigger] mem_byte(after, a)
            == mem_byte(before, a)
}

/// Writes `bytes` at user address `dst` of address space `as_id`, through
/// its page tables, byte after byte; `BadAddress`, with nothing written,
/// when they may not be written. Each byte goes to the physical address
/// its user address translated to when the call began; where two user
/// addresses reach one physical byte, the later byte stays.
#[verifier::spinoff_prover]
#[verifier::rlimit(40)]
pub fn copy_to_user(
    spaces: &AddressSpaceTable,
    mem: &mut PhysicalMemory,
    as_id: AddressSpaceId,
    dst: VirtualAddr,
    bytes: &[u8],
) -> (r: Result<(), Status>)
    requires
        spaces.wf(),
        forall|i: int| 0 <= i < spaces.view().len() ==> (#[trigger] spaces.view()[i] matches Some(s) ==> s.spec_root().inv()),
        bytes@.len() <= u64::MAX,
    ensures
        final(mem)@.len() == old(mem)@.len(),
        r is Ok <==> spec_user_writable(*spaces, old(mem)@, as_id, dst.0, bytes@.len() as u64),
        r matches Err(e) ==> e == Status::BadAddress && final(mem)@ == old(mem)@,
        r is Ok ==> bytes_stored(spaces.view()[as_id.0 as int]->Some_0, old(mem)@, final(mem)@, dst.0, bytes@),
{
    let len = bytes.len() as u64;
    match validate_user_range(spaces, mem, as_id, dst, len, true) {
        Ok(()) => {},
        Err(e) => return Err(e),
    }
    if len == 0 {
        return Ok(());
    }
    let space = match spaces.get(as_id) {
        Some(s) => s,
        None => return Err(Status::BadAddress),
    };
    let words = mem.word_count() as u64;
    let mut addrs: Vec<u64> = Vec::new();
    let mut i: u64 = 0;
    while i < len
        invariant
            spaces.view()[as_id.0 as int] == Some(*space),
            as_id.0 < MAX_ADDRESS_SPACES,
            space.spec_root().inv(),
            spec_user_range_ok(*spaces, mem@, as_id, dst.0, len, true),
            dst.0 + len <= USER_SPACE_END,
            len == bytes@.len(),
            words == mem@.len(),
            i <= len,
            addrs@.len() == i,
            forall|j: int| 0 <= j < i ==> #[trigger] user_byte_present(*space, mem@, dst.0 + j),
            forall|j: int| 0 <= j < i ==> #[trigger] addrs@[j] == user_phys(*space, mem@, dst.0 + j) && addrs@[j] / 8 < words,
        decreases len - i,
    {
        let p = match space.to_physical(mem, VirtualAddr::new(dst.0 + i)) {
            Some(p) => p,
            None => {
                proof {
                    assert(!user_byte_present(*space, mem@, dst.0 + i));
                }
                return Err(Status::BadAddress);
            },
        };
        if p.0 / 8 >= words {
            proof {
                assert(!user_byte_present(*space, mem@, dst.0 + i));
            }
            return Err(Status::BadAddress);
        }
        addrs.push(p.0);
        i = i + 1;
    }
    let ghost m0 = mem@;
    let ghost ps = user_phys_seq(*space, m0, dst.0, bytes@.len());
    let mut k: usize = 0;
    while k < addrs.len()
        invariant
            addrs@.len() == len,
            len == bytes@.len(),
            words == m0.len(),
            mem@.len() == m0.len(),
            k <= len,
            forall|j: int| 0 <= j < len ==> #[trigger] addrs@[j] == user_phys(*space, m0, dst.0 + j) && addrs@[j] / 8 < words,
            forall|j: int| 0 <= j < len ==> #[trigger] ps[j] == addrs@[j],
            ps.len() == len,
            forall|q: int|
                0 <= q < k && (forall|j: int| q < j < k ==> addrs@[j] != addrs@[q]) ==> mem_byte(mem@, #[trigger] addrs@[q] as nat)
                    == bytes@[q],
            forall|a: nat| a / 8 < m0.len() && (forall|q: int| 0 <= q < k ==> addrs@[q] != a) ==> #[trigger] mem_byte(mem@, a)
                == mem_byte(m0, a),
        decreases len - k,
    {
        let ghost mb = mem@;
        mem.write_u8(addrs[k], bytes[k]);
        proof {
            assert forall|q: int|
                0 <= q < k + 1 && (forall|j: int| q < j < k + 1 ==> addrs@[j] != addrs@[q]) implies mem_byte(mem@, #[trigger] addrs@[q] as nat)
                == bytes@[q] by {
                if q < k {
                    assert(addrs@[k as int] != addrs@[q]);
                    assert(mem_byte(mem@, addrs@[q] as nat) == mem_byte(mb, addrs@[q] as nat));
                }
            }
        }
        k = k + 1;
    }
    proof {
        assert forall|q: int|
            0 <= q < len && (forall|j: int| q < j < len ==> #[trigger] ps[j] != ps[q]) implies mem_byte(mem@, #[trigger] ps[q])
            == bytes@[q] by {
            assert forall|j: int| q < j < len implies addrs@[j] != addrs@[q] by {
                assert(ps[j] != ps[q]);
            }
        }
        assert forall|a: nat| a / 8 < m0.len() && (forall|q: int| 0 <= q < len ==> #[trigger] ps[q] != a) implies #[trigger] mem_byte(mem@, a)
            == mem_byte(m0, a) by {
            assert forall|q: int| 0 <= q < len implies addrs@[q] != a by {
                assert(ps[q] != a);
            }
        }
    }
    Ok(())
}

/// The eight bytes of `v`, least significant first.
pub open spec fn le_bytes(v: u64) -> Seq<u8> {
    seq![
        v as u8,
        (v >> 8u64) as u8,
        (v >> 16u64) as u8,
        (v >> 24u64) as u8,
        (v >> 32u64) as u8,
        (v >> 40u64) as u8,
        (v >> 48u64) as u8,
        (v >> 56u64) as u8,
    ]
}

/// Stores the machine word `value` at user address `dst` of address space
/// `as_id`, as a system call hands back a count or a handle:
/// `InvalidArgument` when `dst` is not 8-byte aligned, `BadAddress` when the
/// word may not be written there; nothing is written then.
pub fn copy_val_to_user(
    spaces: &AddressSpaceTable,
    mem: &mut PhysicalMemory,
    as_id: AddressSpaceId,
    dst: VirtualAddr,
    value: u64,
) -> (r: Result<(), Status>)
    requires
        spaces.wf(),
        forall|i: int| 0 <= i < spaces.view().len() ==> (#[trigger] spaces.view()[i] matches Some(s) ==> s.spec_root().inv()),
    ensures
        final(mem)@.len() == old(mem)@.len(),
        dst.0 % 8 != 0 ==> r == Err::<(), Status>(Status::InvalidArgument),
        dst.0 % 8 == 0 ==> (r is Ok <==> spec_user_writable(*spaces, old(mem)@, as_id, dst.0, 8)),
        dst.0 % 8 == 0 && r is Err ==> r == Err::<(), Status>(Status::BadAddress),
        r is Err ==> final(mem)@ == old(mem)@,
        r is Ok ==> bytes_stored(spaces.view()[as_id.0 as int]->Some_0, old(mem)@, final(mem)@, dst.0, le_bytes(value)),
{
    match check_word_destination(dst) {
        Ok(()) => {},
        Err(e) => {
            proof {
                if dst.0 % 8 == 0 {
                    assert(!spec_user_range_ok(*spaces, mem@, as_id, dst.0, 8, true));
                }
            }
            return Err(e);
        },
    }
    let b: [u8; 8] = [
        value as u8,
        (value >> 8) as u8,
        (value >> 16) as u8,
        (value >> 24) as u8,
        (value >> 32) as u8,
        (value >> 40) as u8,
        (value >> 48) as u8,
        (value >> 56) as u8,
    ];
    assert(b@ =~= le_bytes(value));
    copy_to_user(spaces, mem, as_id, dst, &b)
}

} // verus!
