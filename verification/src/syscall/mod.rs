//! The system-call interface: numbers, status codes, the decoding and
//! checking of a call's arguments, and the lookup of the handles it names.

pub mod table;

use vstd::prelude::*;

use crate::memory::address_space::AddressSpaceId;
use crate::memory::{FrameAddr, PagePermissions};
use crate::task::tcb::{HandleTable, KernelObject, MAX_HANDLES, MAX_MSG_SIZE, RIGHT_EXECUTE};

verus! {

/// The end of the user half of the address space.
pub const USER_SPACE_END: u64 = 0x0000_8000_0000_0000;

/// Why a system call failed. A call that succeeds returns 0; one that fails
/// returns the status's code.
#[derive(Clone, Copy, Debug, PartialEq, Eq, Structural)]
pub enum Status {
    InvalidArgument,
    BadAddress,
    BadFileDescriptor,
    NoSuchTask,
    OutOfMemory,
    BadHandle,
}

impl Status {
    pub open spec fn spec_code(self) -> u64 {
        match self {
            Status::InvalidArgument => 1,
            Status::BadAddress => 2,
            Status::BadFileDescriptor => 3,
            Status::NoSuchTask => 4,
            Status::OutOfMemory => 5,
            Status::BadHandle => 6,
        }
    }

    /// The number by which user code sees this status.
    pub fn code(self) -> (r: u64)
        ensures
            r == self.spec_code(),
    {
        match self {
            Status::InvalidArgument => 1,
            Status::BadAddress => 2,
            Status::BadFileDescriptor => 3,
            Status::NoSuchTask => 4,
            Status::OutOfMemory => 5,
            Status::BadHandle => 6,
        }
    }
}

/// The status that user code reads from a nonzero return value; a number
/// that names no status reads as `InvalidArgument`.
pub open spec fn spec_status_from_code(value: u64) -> Status {
    if value == 2 {
        Status::BadAddress
    } else if value == 3 {
        Status::BadFileDescriptor
    } else if value == 4 {
        Status::NoSuchTask
    } else if value == 5 {
        Status::OutOfMemory
    } else if value == 6 {
        Status::BadHandle
    } else {
        Status::InvalidArgument
    }
}

impl Status {
    /// The status that user code reads from a nonzero return value.
    pub fn from_code(value: u64) -> (r: Status)
        ensures
            r == spec_status_from_code(value),
    {
        match value {
            2 => Status::BadAddress,
            3 => Status::BadFileDescriptor,
            4 => Status::NoSuchTask,
            5 => Status::OutOfMemory,
            6 => Status::BadHandle,
            _ => Status::InvalidArgument,
        }
    }
}

/// User code reads back the status the kernel reported: decoding a
/// status's code gives the status.
pub proof fn lemma_status_code_round_trip(s: Status)
    ensures
        spec_status_from_code(s.spec_code()) == s,
        s.spec_code() != 0,
{
}

/// A handle number naming an address space, as user code holds it.
#[derive(Clone, Copy, Debug, PartialEq, Eq, Structural)]
pub struct AddressSpaceHandle(pub usize);

/// A handle number naming a frame, as user code holds it.
#[derive(Clone, Copy, Debug, PartialEq, Eq, Structural)]
pub struct FrameHandle(pub usize);

/// A handle number naming a mapping, as user code holds it.
#[derive(Clone, Copy, Debug, PartialEq, Eq, Structural)]
pub struct MappingHandle(pub usize);

/// A handle number naming a thread, as user code holds it.
#[derive(Clone, Copy, Debug, PartialEq, Eq, Structural)]
pub struct ThreadHandle(pub usize);

/// The number of the handle on its own address space that every thread
/// holds.
pub const SELF_AS: usize = 0;

/// The number of the handle on itself that every thread holds.
pub const SELF_THREAD: usize = 1;

/// The system calls.
#[derive(Clone, Copy, Debug, PartialEq, Eq, Structural)]
pub enum SyscallNumber {
    Yield,
    Exit,
    Write,
    Send,
    Recv,
    FrameAlloc,
    FrameDealloc,
    AsCreate,
    MapPage,
    Unmap,
    TaskCreate,
}

impl SyscallNumber {
    pub open spec fn spec_number(self) -> u64 {
        match self {
            SyscallNumber::Yield => 1,
            SyscallNumber::Exit => 2,
            SyscallNumber::Write => 3,
            SyscallNumber::Send => 4,
            SyscallNumber::Recv => 5,
            SyscallNumber::FrameAlloc => 6,
            SyscallNumber::FrameDealloc => 7,
            SyscallNumber::AsCreate => 8,
            SyscallNumber::MapPage => 9,
            SyscallNumber::Unmap => 10,
            SyscallNumber::TaskCreate => 11,
        }
    }

    /// The call's number, as user code passes it.
    pub fn number(self) -> (r: u64)
        ensures
            r == self.spec_number(),
    {
        match self {
            SyscallNumber::Yield => 1,
            SyscallNumber::Exit => 2,
            SyscallNumber::Write => 3,
            SyscallNumber::Send => 4,
            SyscallNumber::Recv => 5,
            SyscallNumber::FrameAlloc => 6,
            SyscallNumber::FrameDealloc => 7,
            SyscallNumber::AsCreate => 8,
            SyscallNumber::MapPage => 9,
            SyscallNumber::Unmap => 10,
            SyscallNumber::TaskCreate => 11,
        }
    }

    /// The call with number `val`; `InvalidArgument` for any other number.
    pub fn try_from(val: u64) -> (r: Result<Self, Status>)
        ensures
            1 <= val <= 11 <==> r is Ok,
            r matches Ok(n) ==> n.spec_number() == val,
            r matches Err(e) ==> e == Status::InvalidArgument,
    {
        match val {
            1 => Ok(Self::Yield),
            2 => Ok(Self::Exit),
            3 => Ok(Self::Write),
            4 => Ok(Self::Send),
            5 => Ok(Self::Recv),
            6 => Ok(Self::FrameAlloc),
            7 => Ok(Self::FrameDealloc),
            8 => Ok(Self::AsCreate),
            9 => Ok(Self::MapPage),
            10 => Ok(Self::Unmap),
            11 => Ok(Self::TaskCreate),
            _ => Err(Status::InvalidArgument),
        }
    }
}

/// User code and the kernel agree on the calls' numbers: every call has a
/// number in 1..=11, and no two calls share one, so decoding a call's
/// number with [`SyscallNumber::try_from`] gives back that call.
pub proof fn lemma_syscall_number_round_trip(a: SyscallNumber, b: SyscallNumber)
    ensures
        1 <= a.spec_number() <= 11,
        a.spec_number() == b.spec_number() ==> a == b,
{
}

/// A system call with its arguments decoded and checked as far as they can
/// be without the kernel's state.
#[derive(Clone, Copy, Debug, PartialEq, Eq, Structural)]
pub enum SyscallRequest {
    Yield,
    Exit { code: u64 },
    Write { fd: u64, buffer: u64, length: u64, written_out: u64 },
    Send { destination: u64, message: u64, length: u64 },
    Recv { buffer: u64, max_length: u64, length_out: u64, sender_out: u64 },
    FrameAlloc { handle_out: u64 },
    FrameDealloc { frame_handle: u64 },
    AsCreate { handle_out: u64 },
    MapPage { as_handle: u64, frame_handle: u64, virtual_addr: u64, permissions: PagePermissions },
    Unmap { as_handle: u64, virtual_addr: u64 },
    TaskCreate { as_handle: u64, entry: u64, user_stack: u64, handle_out: u64 },
}

/// The permissions that a map call asks for: bit 0 writable, bit 1
/// executable; user pages always.
pub open spec fn spec_map_permissions(bits: u64) -> PagePermissions {
    PagePermissions { writable: bits & 1 != 0, executable: bits & 2 != 0, user_accessible: true }
}

/// A map call of a user page asks to map the frame that its second handle
/// names at its address in the space its first handle names, with the
/// rights its permission word gives: bit 0 (the word is odd) makes the page
/// writable, bit 1 executable, and the page is always reachable from user
/// mode.
pub proof fn lemma_map_request(a0: u64, a1: u64, a2: u64, a3: u64)
    requires
        a2 % 4096 == 0,
        a2 < USER_SPACE_END,
    ensures
        spec_decode(9, a0, a1, a2, a3) matches Ok(SyscallRequest::MapPage { as_handle, frame_handle, virtual_addr, permissions })
            && as_handle == a0 && frame_handle == a1 && virtual_addr == a2 && permissions.writable == (a3 % 2 == 1)
            && permissions.executable == ((a3 / 2) % 2 == 1) && permissions.user_accessible,
{
    assert((a3 & 1 != 0) == (a3 % 2 == 1) && (a3 & 2 != 0) == ((a3 / 2) % 2 == 1)) by (bit_vector);
}

/// What a call with number `num` and arguments `a0`..`a4` asks for, or the
/// status it fails with before the kernel's state is consulted.
pub open spec fn spec_decode(num: u64, a0: u64, a1: u64, a2: u64, a3: u64) -> Result<SyscallRequest, Status> {
    if num == 1 {
        Ok(SyscallRequest::Yield)
    } else if num == 2 {
        Ok(SyscallRequest::Exit { code: a0 })
    } else if num == 3 {
        if a0 != 1 && a0 != 2 {
            Err(Status::BadFileDescriptor)
        } else {
            Ok(SyscallRequest::Write { fd: a0, buffer: a1, length: a2, written_out: a3 })
        }
    } else if num == 4 {
        if a2 > MAX_MSG_SIZE {
            Err(Status::InvalidArgument)
        } else {
            Ok(SyscallRequest::Send { destination: a0, message: a1, length: a2 })
        }
    } else if num == 5 {
        if a0 == 0 {
            Err(Status::InvalidArgument)
        } else {
            Ok(SyscallRequest::Recv { buffer: a0, max_length: a1, length_out: a2, sender_out: a3 })
        }
    } else if num == 6 {
        if a0 == 0 {
            Err(Status::InvalidArgument)
        } else {
            Ok(SyscallRequest::FrameAlloc { handle_out: a0 })
        }
    } else if num == 7 {
        Ok(SyscallRequest::FrameDealloc { frame_handle: a0 })
    } else if num == 8 {
        if a0 == 0 {
            Err(Status::InvalidArgument)
        } else {
            Ok(SyscallRequest::AsCreate { handle_out: a0 })
        }
    } else if num == 9 {
        if a2 % 4096 != 0 || a2 >= USER_SPACE_END {
            Err(Status::InvalidArgument)
        } else {
            Ok(SyscallRequest::MapPage { as_handle: a0, frame_handle: a1, virtual_addr: a2, permissions: spec_map_permissions(a3) })
        }
    } else if num == 10 {
        if a1 % 4096 != 0 || a1 >= USER_SPACE_END {
            Err(Status::InvalidArgument)
        } else {
            Ok(SyscallRequest::Unmap { as_handle: a0, virtual_addr: a1 })
        }
    } else if num == 11 {
        if a3 == 0 || a1 == 0 || a2 == 0 {
            Err(Status::InvalidArgument)
        } else if a1 >= USER_SPACE_END || a2 >= USER_SPACE_END {
            Err(Status::BadAddress)
        } else {
            Ok(SyscallRequest::TaskCreate { as_handle: a0, entry: a1, user_stack: a2, handle_out: a3 })
        }
    } else {
        Err(Status::InvalidArgument)
    }
}

/// Decodes a system call from its number and arguments and makes the checks
/// that need no kernel state. The kernel then performs the request and
/// reports the outcome with [`result_code`].
pub fn handle(num: u64, arg0: u64, arg1: u64, arg2: u64, arg3: u64, arg4: u64, arg5: u64) -> (r: Result<
    SyscallRequest,
    Status,
>)
    ensures
        r == spec_decode(num, arg0, arg1, arg2, arg3),
{
    let syscall = match SyscallNumber::try_from(num) {
        Ok(s) => s,
        Err(e) => return Err(e),
    };
    match syscall {
        SyscallNumber::Yield => Ok(SyscallRequest::Yield),
        SyscallNumber::Exit => Ok(SyscallRequest::Exit { code: arg0 }),
        SyscallNumber::Write => {
            if arg0 != 1 && arg0 != 2 {
                return Err(Status::BadFileDescriptor);
            }
            Ok(SyscallRequest::Write { fd: arg0, buffer: arg1, length: arg2, written_out: arg3 })
        },
        SyscallNumber::Send => {
            if arg2 > 128 {
                return Err(Status::InvalidArgument);
            }
            Ok(SyscallRequest::Send { destination: arg0, message: arg1, length: arg2 })
        },
        SyscallNumber::Recv => {
            if arg0 == 0 {
                return Err(Status::InvalidArgument);
            }
            Ok(SyscallRequest::Recv { buffer: arg0, max_length: arg1, length_out: arg2, sender_out: arg3 })
        },
        SyscallNumber::FrameAlloc => {
            if arg0 == 0 {
                return Err(Status::InvalidArgument);
            }
            Ok(SyscallRequest::FrameAlloc { handle_out: arg0 })
        },
        SyscallNumber::FrameDealloc => Ok(SyscallRequest::FrameDealloc { frame_handle: arg0 }),
        SyscallNumber::AsCreate => {
            if arg0 == 0 {
                return Err(Status::InvalidArgument);
            }
            Ok(SyscallRequest::AsCreate { handle_out: arg0 })
        },
        SyscallNumber::MapPage => {
            if arg2 % 4096 != 0 || arg2 >= USER_SPACE_END {
                return Err(Status::InvalidArgument);
            }
            let permissions = PagePermissions::new(arg3 & 1 != 0, arg3 & 2 != 0, true);
            Ok(SyscallRequest::MapPage { as_handle: arg0, frame_handle: arg1, virtual_addr: arg2, permissions })
        },
        SyscallNumber::Unmap => {
            if arg1 % 4096 != 0 || arg1 >= USER_SPACE_END {
                return Err(Status::InvalidArgument);
            }
            Ok(SyscallRequest::Unmap { as_handle: arg0, virtual_addr: arg1 })
        },
        SyscallNumber::TaskCreate => {
            if arg3 == 0 || arg1 == 0 || arg2 == 0 {
                return Err(Status::InvalidArgument);
            }
            if arg1 >= USER_SPACE_END || arg2 >= USER_SPACE_END {
                return Err(Status::BadAddress);
            }
            Ok(SyscallRequest::TaskCreate { as_handle: arg0, entry: arg1, user_stack: arg2, handle_out: arg3 })
        },
    }
}

/// The value a system call returns to user code: 0, or the status's code.
pub fn result_code(result: Result<(), Status>) -> (r: u64)
    ensures
        r == match result {
            Ok(()) => 0,
            Err(e) => e.spec_code(),
        },
{
    match result {
        Ok(()) => 0,
        Err(e) => e.code(),
    }
}

/// The address space that handle `id` of `handles` names: `BadHandle` for
/// an empty or absent slot, `InvalidArgument` for another kind of object.
/// With `need_execute`, the handle must also carry the execute right.
pub fn address_space_of(handles: &HandleTable, id: u64, need_execute: bool) -> (r: Result<AddressSpaceId, Status>)
    requires
        handles.wf(),
    ensures
        id >= MAX_HANDLES || handles.view()[id as int] is None ==> r == Err::<AddressSpaceId, Status>(Status::BadHandle),
        id < MAX_HANDLES ==> (handles.view()[id as int] matches Some(h) ==> r == match h.object {
            KernelObject::AddressSpace(a) => if need_execute && h.rights.0 & RIGHT_EXECUTE == 0 {
                Err(Status::InvalidArgument)
            } else {
                Ok(a)
            },
            _ => Err(Status::InvalidArgument),
        }),
{
    if id >= MAX_HANDLES as u64 {
        return Err(Status::BadHandle);
    }
    let handle = match handles.get(id as usize) {
        Some(h) => h,
        None => return Err(Status::BadHandle),
    };
    match handle.object {
        KernelObject::AddressSpace(a) => {
            if need_execute && handle.rights.0 & RIGHT_EXECUTE == 0 {
                return Err(Status::InvalidArgument);
            }
            Ok(a)
        },
        _ => Err(Status::InvalidArgument),
    }
}

/// The frame that handle `id` of `handles` names: `BadHandle` for an empty
/// or absent slot, `InvalidArgument` for another kind of object.
pub fn frame_of(handles: &HandleTable, id: u64) -> (r: Result<FrameAddr, Status>)
    requires
        handles.wf(),
    ensures
        id >= MAX_HANDLES || handles.view()[id as int] is None ==> r == Err::<FrameAddr, Status>(Status::BadHandle),
        id < MAX_HANDLES ==> (handles.view()[id as int] matches Some(h) ==> r == match h.object {
            KernelObject::Frame(f) => Ok(f.spec_frame()),
            _ => Err(Status::InvalidArgument),
        }),
{
    if id >= MAX_HANDLES as u64 {
        return Err(Status::BadHandle);
    }
    let handle = match handles.get(id as usize) {
        Some(h) => h,
        None => return Err(Status::BadHandle),
    };
    match &handle.object {
        KernelObject::Frame(f) => Ok(f.frame_address()),
        _ => Err(Status::InvalidArgument),
    }
}

} // verus!
