//! The system calls that act on the kernel's state. A write reads its
//! buffer from user memory here; copying the other calls' arguments in and
//! every call's results out is left to the caller: these functions take the
//! bytes a call brought and return what it gives back.

use vstd::prelude::*;

use crate::memory::address_space::{AddressSpace, AddressSpaceId, AddressSpaceKind, AddressSpaceTable, MAX_ADDRESS_SPACES, USER_SPACE_END};
use crate::memory::frame::{FrameState, chosen_free, has_free};
use crate::memory::stack::{
    KernelStackPool, MAX_KERNEL_STACKS, STACK_SIZE, kernel_stack_permissions, kernel_stack_top, lemma_frame_words_in_top_page, page_frame,
    spec_stack_mappable, spec_stack_refused,
};
use crate::arch::context::{frame_word, frame_words_mapped, initial_frame_words, lemma_words_written};
use crate::memory::user::{bytes_stored, copy_from_user, copy_to_user, copy_val_to_user, le_bytes, spec_user_readable, spec_user_writable, user_byte};
use crate::memory::{CachePolicy, FrameAddr, FrameAllocator, OwnedFrame, PagePermissions, PhysicalMemory, VirtualAddr};
use crate::memory::phys::mem_entry;
use crate::syscall::{Status, address_space_of, frame_of};
use crate::task::scheduler::{MAX_TASKS, Scheduler, Switch, TaskId, with_state};
use crate::task::tcb::{
    BlockReason, ExitReason, Handle, KernelObject, MAX_HANDLES, MAX_MSG_SIZE, Message, RIGHT_EXECUTE, RIGHT_READ, RIGHT_WRITE,
    Rights, Tcb, ThreadState, first_empty_handle, full_rights,
};

verus! {

/// The rights a system call grants on an object it creates.
fn all_rights() -> (r: Rights)
    ensures
        r.0 == full_rights(),
{
    Rights(RIGHT_READ).bitor(Rights(RIGHT_WRITE)).bitor(Rights(RIGHT_EXECUTE))
}

/// The running thread gives way to the next ready one, if any.
pub fn sys_yield(scheduler: &mut Scheduler) -> (r: Option<Switch>)
    requires
        old(scheduler).wf(),
        old(scheduler).spec_current() is Some,
    ensures
        final(scheduler).wf(),
        old(scheduler).spec_ready().len() == 0 ==> r is None && *final(scheduler) == *old(scheduler),
        old(scheduler).spec_ready().len() > 0 ==> r == Some(
            old(scheduler).spec_switch(old(scheduler).spec_current()->Some_0, old(scheduler).spec_ready()[0]),
        ) && final(scheduler).spec_current() == Some(old(scheduler).spec_ready()[0]) && final(scheduler).spec_ready()
            == old(scheduler).spec_ready().drop_first().push(old(scheduler).spec_current()->Some_0),
{
    scheduler.yield_current()
}

/// The running thread ends with `exit_code`; the next ready thread runs.
/// `None` says that no thread is left to run.
pub fn sys_exit(scheduler: &mut Scheduler, exit_code: usize) -> (r: Option<Switch>)
    requires
        old(scheduler).wf(),
        old(scheduler).spec_current() is Some,
    ensures
        final(scheduler).wf(),
        old(scheduler).spec_ready().len() == 0 ==> r is None && *final(scheduler) == *old(scheduler),
        old(scheduler).spec_ready().len() > 0 ==> {
            let c = old(scheduler).spec_current()->Some_0;
            let n = old(scheduler).spec_ready()[0];
            &&& r == Some(old(scheduler).spec_switch(c, n))
            &&& final(scheduler).spec_current() == Some(n)
            &&& final(scheduler).spec_ready() == old(scheduler).spec_ready().drop_first()
            &&& final(scheduler).spec_tasks() == old(scheduler).spec_tasks().update(
                c.0 as int,
                Some(with_state(old(scheduler).spec_tasks()[c.0 as int]->Some_0, ThreadState::Dead(ExitReason::Exited(exit_code)))),
            ).update(n.0 as int, Some(with_state(old(scheduler).spec_tasks()[n.0 as int]->Some_0, ThreadState::Running)))
        },
{
    scheduler.exit_current(ExitReason::Exited(exit_code))
}

/// What a write by the running thread sends down the serial line: the
/// `length` bytes at `buffer` of the thread's address space, in order. The
/// whole count is written, so the caller reports `length` back.
/// `BadFileDescriptor` unless `fd` is standard output (1) or standard error
/// (2); `BadAddress` when the bytes cannot be read.
pub fn sys_write(
    scheduler: &Scheduler,
    spaces: &AddressSpaceTable,
    mem: &PhysicalMemory,
    fd: u64,
    buffer: u64,
    length: u64,
) -> (r: Result<Vec<u8>, Status>)
    requires
        scheduler.wf(),
        scheduler.spec_current() is Some,
        spaces.wf(),
        forall|i: int| 0 <= i < spaces.view().len() ==> (#[trigger] spaces.view()[i] matches Some(s) ==> s.spec_root().inv()),
    ensures
        fd != 1 && fd != 2 ==> r == Err::<Vec<u8>, Status>(Status::BadFileDescriptor),
        fd == 1 || fd == 2 ==> {
            let a = current_task(*scheduler).as_id;
            &&& (r is Ok <==> spec_user_readable(*spaces, mem@, a, buffer, length))
            &&& r matches Err(e) ==> e == Status::BadAddress
            &&& r matches Ok(bytes) ==> bytes@.len() == length && forall|i: int|
                0 <= i < length ==> #[trigger] bytes@[i] == user_byte(spaces.view()[a.0 as int]->Some_0, mem@, buffer + i)
        },
{
    if fd != 1 && fd != 2 {
        return Err(Status::BadFileDescriptor);
    }
    let c = scheduler.current();
    let t = match scheduler.task(c) {
        Some(t) => t,
        None => return Err(Status::NoSuchTask),
    };
    copy_from_user(spaces, mem, t.as_id, VirtualAddr::new(buffer), length)
}

/// The message buffer that a send of the `length` bytes at user address
/// `message` of address space `as_id` carries: those bytes, then zeros.
/// `BadAddress` when they cannot be read.
pub fn read_message(
    spaces: &AddressSpaceTable,
    mem: &PhysicalMemory,
    as_id: AddressSpaceId,
    message: u64,
    length: u64,
) -> (r: Result<[u8; 128], Status>)
    requires
        length <= MAX_MSG_SIZE,
        spaces.wf(),
        forall|i: int| 0 <= i < spaces.view().len() ==> (#[trigger] spaces.view()[i] matches Some(s) ==> s.spec_root().inv()),
    ensures
        r is Ok <==> spec_user_readable(*spaces, mem@, as_id, message, length),
        r matches Err(e) ==> e == Status::BadAddress,
        r matches Ok(data) ==> {
            &&& forall|i: int| 0 <= i < length ==> #[trigger] data[i] == user_byte(spaces.view()[as_id.0 as int]->Some_0, mem@, message + i)
            &&& forall|i: int| length <= i < 128 ==> #[trigger] data[i] == 0
        },
{
    let bytes = match copy_from_user(spaces, mem, as_id, VirtualAddr::new(message), length) {
        Ok(b) => b,
        Err(e) => return Err(e),
    };
    let mut data = [0u8; 128];
    let mut i: usize = 0;
    while i < bytes.len()
        invariant
            bytes@.len() == length,
            length <= 128,
            i <= length,
            forall|j: int| 0 <= j < i ==> #[trigger] data[j] == bytes@[j],
            forall|j: int| i <= j < 128 ==> #[trigger] data[j] == 0,
        decreases length - i,
    {
        data[i] = bytes[i];
        i = i + 1;
    }
    Ok(data)
}

/// Queues a message of `length` bytes from `data`, sent by the running
/// thread, in the mailbox of thread `destination`, and wakes that thread if
/// it waits for a message. `NoSuchTask` when there is no such thread,
/// `OutOfMemory` when its mailbox is full.
pub fn sys_send(scheduler: &mut Scheduler, destination: u64, data: [u8; 128], length: usize) -> (r: Result<(), Status>)
    requires
        old(scheduler).wf(),
        old(scheduler).spec_current() is Some,
        length <= MAX_MSG_SIZE,
    ensures
        final(scheduler).wf(),
        final(scheduler).spec_current() == old(scheduler).spec_current(),
        destination >= MAX_TASKS || old(scheduler).spec_tasks()[destination as int] is None ==> r == Err::<(), Status>(
            Status::NoSuchTask,
        ) && *final(scheduler) == *old(scheduler),
        destination < MAX_TASKS && old(scheduler).spec_tasks()[destination as int] is Some ==> {
            let t0 = old(scheduler).spec_tasks()[destination as int]->Some_0;
            let msg = Message { sender: old(scheduler).spec_current()->Some_0, length, data };
            &&& (r is Ok <==> t0.mailbox.view().len() < crate::task::tcb::MAILBOX_CAPACITY)
            &&& r is Err ==> r == Err::<(), Status>(Status::OutOfMemory)
            &&& final(scheduler).spec_tasks()[destination as int] matches Some(t) && t.mailbox.view() == if r is Ok {
                t0.mailbox.view().push(msg)
            } else {
                t0.mailbox.view()
            } && t.state == if r is Ok && t0.state == ThreadState::Blocked(BlockReason::Recv) {
                ThreadState::Ready
            } else {
                t0.state
            }
            &&& final(scheduler).spec_ready() == if r is Ok && t0.state == ThreadState::Blocked(BlockReason::Recv) {
                old(scheduler).spec_ready().push(TaskId(destination as usize))
            } else {
                old(scheduler).spec_ready()
            }
        },
{
    if destination >= MAX_TASKS as u64 {
        return Err(Status::NoSuchTask);
    }
    let dest = TaskId(destination as usize);
    let waiting = match scheduler.task(dest) {
        Some(t) => t.state == ThreadState::Blocked(BlockReason::Recv),
        None => return Err(Status::NoSuchTask),
    };
    let sender = scheduler.current();
    let msg = Message { sender, length, data };
    if !scheduler.push_message(dest, msg) {
        return Err(Status::OutOfMemory);
    }
    if waiting {
        scheduler.unblock(dest);
    }
    Ok(())
}

/// What a receive comes to: the oldest message of the running thread's
/// mailbox, or, with the mailbox empty, the running thread waits and the
/// processor goes to the next ready thread (`None`: every thread waits).
pub enum RecvStep {
    Message(Message),
    Wait(Option<Switch>),
}

/// Takes the oldest message from the running thread's mailbox; with none
/// there, blocks the thread until a message comes.
pub fn sys_recv(scheduler: &mut Scheduler) -> (r: RecvStep)
    requires
        old(scheduler).wf(),
        old(scheduler).spec_current() is Some,
    ensures
        final(scheduler).wf(),
        ({
            let c = old(scheduler).spec_current()->Some_0;
            let t0 = old(scheduler).spec_tasks()[c.0 as int]->Some_0;
            if t0.mailbox.view().len() > 0 {
                &&& r == RecvStep::Message(t0.mailbox.view()[0])
                &&& final(scheduler).spec_current() == old(scheduler).spec_current()
                &&& final(scheduler).spec_tasks()[c.0 as int] matches Some(t) && t.mailbox.view() == t0.mailbox.view().drop_first()
            } else {
                &&& old(scheduler).spec_ready().len() == 0 ==> r == RecvStep::Wait(None)
                &&& old(scheduler).spec_ready().len() > 0 ==> r == RecvStep::Wait(Some(old(scheduler).spec_switch(c, old(scheduler).spec_ready()[0])))
                    && (final(scheduler).spec_tasks()[c.0 as int] matches Some(t) && t.state == ThreadState::Blocked(BlockReason::Recv))
            }
        }),
{
    let c = scheduler.current();
    match scheduler.pop_message(c) {
        Some(msg) => RecvStep::Message(msg),
        None => RecvStep::Wait(scheduler.block_current(BlockReason::Recv)),
    }
}

/// The bytes of a message of `length` bytes that a buffer of `max` bytes
/// takes.
pub open spec fn cut_length(length: u64, max: u64) -> u64 {
    if length <= max {
        length
    } else {
        max
    }
}

/// Memory goes from `before` through `m1` and `m2` to `after` as a message
/// is handed over: `data` stored at `buffer`, then `length` at
/// `length_out` and `sender` at `sender_out`, each unless that address is 0.
pub open spec fn delivery_steps(
    space: AddressSpace,
    before: Seq<u64>,
    m1: Seq<u64>,
    m2: Seq<u64>,
    after: Seq<u64>,
    buffer: u64,
    data: Seq<u8>,
    length_out: u64,
    length: u64,
    sender_out: u64,
    sender: u64,
) -> bool {
    &&& bytes_stored(space, before, m1, buffer, data)
    &&& (length_out == 0 ==> m2 == m1)
    &&& (length_out != 0 ==> bytes_stored(space, m1, m2, length_out, le_bytes(length)))
    &&& (sender_out == 0 ==> after == m2)
    &&& (sender_out != 0 ==> bytes_stored(space, m2, after, sender_out, le_bytes(sender)))
}

/// Hands a received message to the running thread of address space
/// `as_id`: its data, cut to `max_length` bytes, goes to `buffer`; its full
/// length to the word at `length_out` and its sender to the word at
/// `sender_out`, each unless that address is 0. The writes are made in that
/// order and the first that fails ends the call with its error; what was
/// written before it stays.
pub fn deliver_message(
    spaces: &AddressSpaceTable,
    mem: &mut PhysicalMemory,
    as_id: AddressSpaceId,
    m: &Message,
    buffer: u64,
    max_length: u64,
    length_out: u64,
    sender_out: u64,
) -> (r: Result<(), Status>)
    requires
        spaces.wf(),
        forall|i: int| 0 <= i < spaces.view().len() ==> (#[trigger] spaces.view()[i] matches Some(s) ==> s.spec_root().inv()),
        m.length <= MAX_MSG_SIZE,
    ensures
        final(mem)@.len() == old(mem)@.len(),
        ({
            let n = cut_length(m.length as u64, max_length) as int;
            let data = m.data@.take(n);
            let space = spaces.view()[as_id.0 as int]->Some_0;
            &&& !spec_user_writable(*spaces, old(mem)@, as_id, buffer, n as u64) ==> r == Err::<(), Status>(Status::BadAddress)
                && final(mem)@ == old(mem)@
            &&& spec_user_writable(*spaces, old(mem)@, as_id, buffer, n as u64) && length_out == 0 && sender_out == 0 ==> r is Ok
                && bytes_stored(space, old(mem)@, final(mem)@, buffer, data)
            &&& r is Err ==> r == Err::<(), Status>(Status::BadAddress) || r == Err::<(), Status>(Status::InvalidArgument)
            &&& r is Ok ==> exists|m1: Seq<u64>, m2: Seq<u64>|
                #[trigger] delivery_steps(space, old(mem)@, m1, m2, final(mem)@, buffer, data, length_out, m.length as u64, sender_out, m.sender.0 as u64)
        }),
{
    let n64: u64 = if (m.length as u64) <= max_length { m.length as u64 } else { max_length };
    let n: usize = n64 as usize;
    let data = vstd::slice::slice_subrange(m.data.as_slice(), 0, n);
    proof {
        assert(data@ =~= m.data@.take(n as int));
    }
    match copy_to_user(spaces, mem, as_id, VirtualAddr::new(buffer), data) {
        Ok(()) => {},
        Err(e) => return Err(e),
    }
    let ghost m1 = mem@;
    if length_out != 0 {
        match copy_val_to_user(spaces, mem, as_id, VirtualAddr::new(length_out), m.length as u64) {
            Ok(()) => {},
            Err(e) => return Err(e),
        }
    }
    let ghost m2 = mem@;
    if sender_out != 0 {
        match copy_val_to_user(spaces, mem, as_id, VirtualAddr::new(sender_out), m.sender.0 as u64) {
            Ok(()) => {},
            Err(e) => return Err(e),
        }
    }
    proof {
        let space = spaces.view()[as_id.0 as int]->Some_0;
        assert(n64 == cut_length(m.length as u64, max_length));
        let data = m.data@.take(cut_length(m.length as u64, max_length) as int);
        assert(delivery_steps(space, old(mem)@, m1, m2, mem@, buffer, data, length_out, m.length as u64, sender_out, m.sender.0 as u64));
    }
    Ok(())
}

/// Allocates a zeroed frame and gives the running thread a handle on it
/// (read, write, execute); returns the handle's number. `OutOfMemory` when
/// no frame is free or the thread's handle table is full, and then the
/// frame goes back to the allocator.
pub fn sys_frame_alloc(scheduler: &mut Scheduler, allocator: &mut FrameAllocator, mem: &mut PhysicalMemory) -> (r: Result<
    usize,
    Status,
>)
    requires
        old(scheduler).wf(),
        old(scheduler).spec_current() is Some,
        old(allocator).wf(),
        old(allocator).backed_by(old(mem)@),
    ensures
        final(scheduler).wf(),
        final(scheduler).spec_current() == old(scheduler).spec_current(),
        final(scheduler).spec_ready() == old(scheduler).spec_ready(),
        final(allocator).wf(),
        final(allocator).spec_direct_map() == old(allocator).spec_direct_map(),
        final(allocator)@.len() == old(allocator)@.len(),
        final(mem)@.len() == old(mem)@.len(),
        r is Err ==> r == Err::<usize, Status>(Status::OutOfMemory) && final(allocator)@ == old(allocator)@,
        has_free(old(allocator)@) && (exists|j: int| 0 <= j < MAX_HANDLES && #[trigger] current_task(*old(scheduler)).handles.view()[j] is None)
            ==> r is Ok,
        r matches Ok(i) ==> {
            let c = old(scheduler).spec_current()->Some_0;
            let t0 = old(scheduler).spec_tasks()[c.0 as int]->Some_0;
            &&& i < MAX_HANDLES
            &&& first_empty_handle(t0.handles.view(), i as int)
            &&& t0.handles.view()[i as int] is None
            &&& final(scheduler).spec_tasks()[c.0 as int] matches Some(t) && (t.handles.view()[i as int] matches Some(h)
                && h.rights.0 == full_rights() && (h.object matches KernelObject::Frame(f) && final(allocator)@[f.spec_frame().spec_index() as int]
                == FrameState::Allocated && old(allocator)@[f.spec_frame().spec_index() as int] == FrameState::Free))
        },
{
    let frame = match allocator.alloc_zeroed(mem) {
        Some(f) => f,
        None => return Err(Status::OutOfMemory),
    };
    let c = scheduler.current();
    let ghost a1 = allocator@;
    let ghost fi = frame.spec_frame().spec_index();
    let rights = all_rights();
    let ghost handle = Handle { object: KernelObject::Frame(frame), rights };
    match scheduler.push_handle(c, Handle { object: KernelObject::Frame(frame), rights }) {
        Ok(i) => {
            proof {
                assert(a1[fi as int] == FrameState::Allocated);
                assert(old(allocator)@[fi as int] == FrameState::Free);
                assert(scheduler.spec_tasks()[c.0 as int]->Some_0.handles.view()[i as int] == Some(handle));
                old(scheduler).spec_tasks()[c.0 as int]->Some_0.handles.lemma_len();
            }
            Ok(i)
        },
        Err(h) => {
            match h.object {
                KernelObject::Frame(f) => {
                    allocator.dealloc(f);
                    proof {
                        assert(allocator@ =~= old(allocator)@);
                    }
                },
                _ => {},
            }
            Err(Status::OutOfMemory)
        },
    }
}

/// Returns to the allocator the frame that handle `frame_handle` of the
/// running thread names. The handle stays in the table.
pub fn sys_frame_dealloc(scheduler: &Scheduler, allocator: &mut FrameAllocator, frame_handle: u64) -> (r: Result<(), Status>)
    requires
        scheduler.wf(),
        scheduler.spec_current() is Some,
        old(allocator).wf(),
        ({
            let c = scheduler.spec_current()->Some_0;
            let t = scheduler.spec_tasks()[c.0 as int]->Some_0;
            frame_of_spec(t, frame_handle) matches Ok(f) ==> f.spec_index() < old(allocator)@.len() && old(allocator)@[f.spec_index() as int]
                == FrameState::Allocated
        }),
    ensures
        final(allocator).wf(),
        final(allocator).spec_direct_map() == old(allocator).spec_direct_map(),
        final(allocator)@.len() == old(allocator)@.len(),
        ({
            let c = scheduler.spec_current()->Some_0;
            let t = scheduler.spec_tasks()[c.0 as int]->Some_0;
            match frame_of_spec(t, frame_handle) {
                Err(e) => r == Err::<(), Status>(e) && final(allocator)@ == old(allocator)@,
                Ok(f) => r is Ok && final(allocator)@ == old(allocator)@.update(f.spec_index() as int, FrameState::Free),
            }
        }),
{
    let c = scheduler.current();
    let frame = match scheduler.task(c) {
        Some(t) => frame_of(&t.handles, frame_handle),
        None => Err(Status::NoSuchTask),
    };
    match frame {
        Ok(f) => {
            allocator.dealloc(OwnedFrame::from_raw(f));
            Ok(())
        },
        Err(e) => Err(e),
    }
}

/// The frame that handle `id` of thread `t` names, or the status a lookup
/// fails with.
pub open spec fn frame_of_spec(t: Tcb, id: u64) -> Result<FrameAddr, Status> {
    if id >= MAX_HANDLES || t.handles.view()[id as int] is None {
        Err(Status::BadHandle)
    } else {
        match t.handles.view()[id as int]->Some_0.object {
            KernelObject::Frame(f) => Ok(f.spec_frame()),
            _ => Err(Status::InvalidArgument),
        }
    }
}

/// The address space that handle `id` of thread `t` names, or the status
/// a lookup fails with; with `need_execute` the handle must carry the
/// execute right.
pub open spec fn address_space_of_spec(t: Tcb, id: u64, need_execute: bool) -> Result<AddressSpaceId, Status> {
    if id >= MAX_HANDLES || t.handles.view()[id as int] is None {
        Err(Status::BadHandle)
    } else {
        let h = t.handles.view()[id as int]->Some_0;
        match h.object {
            KernelObject::AddressSpace(a) => if need_execute && h.rights.0 & RIGHT_EXECUTE == 0 {
                Err(Status::InvalidArgument)
            } else {
                Ok(a)
            },
            _ => Err(Status::InvalidArgument),
        }
    }
}

/// The running thread's record.
pub open spec fn current_task(scheduler: Scheduler) -> Tcb {
    scheduler.spec_tasks()[scheduler.spec_current()->Some_0.0 as int]->Some_0
}

/// Maps the frame that handle `frame_handle` names at `virtual_addr` in the
/// address space that handle `as_handle` names, with `permissions`.
/// `BadHandle` or `InvalidArgument` when a handle does not name what it
/// should, `BadHandle` when the address space is gone, `OutOfMemory` when
/// the mapping is refused.
pub fn sys_map(
    scheduler: &Scheduler,
    spaces: &mut AddressSpaceTable,
    allocator: &mut FrameAllocator,
    mem: &mut PhysicalMemory,
    as_handle: u64,
    frame_handle: u64,
    virtual_addr: u64,
    permissions: PagePermissions,
) -> (r: Result<(), Status>)
    requires
        scheduler.wf(),
        scheduler.spec_current() is Some,
        old(spaces).wf(),
        old(spaces).all_wf(old(mem)@, old(allocator)@),
        old(allocator).wf(),
        old(allocator).backed_by(old(mem)@),
    ensures
        final(spaces).wf(),
        final(allocator).wf(),
        final(allocator).backed_by(final(mem)@),
        final(allocator).spec_direct_map() == old(allocator).spec_direct_map(),
        final(allocator)@.len() == old(allocator)@.len(),
        final(mem)@.len() == old(mem)@.len(),
        match (address_space_of_spec(current_task(*scheduler), as_handle, false), frame_of_spec(current_task(*scheduler), frame_handle)) {
            (Err(e), _) => r == Err::<(), Status>(e) && final(spaces).view() == old(spaces).view() && final(mem)@ == old(mem)@
                && final(allocator)@ == old(allocator)@,
            (Ok(_), Err(e)) => r == Err::<(), Status>(e) && final(spaces).view() == old(spaces).view() && final(mem)@ == old(mem)@
                && final(allocator)@ == old(allocator)@,
            (Ok(a), Ok(f)) => if a.0 >= MAX_ADDRESS_SPACES || old(spaces).view()[a.0 as int] is None {
                r == Err::<(), Status>(Status::BadHandle) && final(spaces).view() == old(spaces).view()
            } else {
                let s1 = final(spaces).view()[a.0 as int]->Some_0;
                &&& final(spaces).view()[a.0 as int] is Some
                &&& s1.wf(final(mem)@, final(allocator)@)
                &&& r is Err ==> r == Err::<(), Status>(Status::OutOfMemory)
                &&& old(spaces).view()[a.0 as int]->Some_0.spec_map_succeeds(
                    old(mem)@,
                    old(allocator)@,
                    f.0.0,
                    virtual_addr,
                    permissions,
                    CachePolicy::WriteBack,
                ) ==> r is Ok
                &&& r is Ok ==> s1.translate(final(mem)@, virtual_addr) == Some(f.0.0)
                &&& r is Err ==> forall|vb: u64|
                    old(spaces).view()[a.0 as int]->Some_0.spec_root().root_index(vb) < old(spaces).view()[a.0 as int]->Some_0.spec_root().spec_root_limit()
                        ==> #[trigger] s1.translate(final(mem)@, vb) == old(spaces).view()[a.0 as int]->Some_0.translate(old(mem)@, vb)
                &&& r is Ok ==> s1.mapping_entry(final(mem)@, virtual_addr) == Some(
                    crate::arch::paging::spec_leaf_entry(
                        f.0.0,
                        permissions,
                        CachePolicy::WriteBack,
                        old(spaces).view()[a.0 as int]->Some_0.spec_root().spec_config(),
                        old(spaces).view()[a.0 as int]->Some_0.spec_kind() == AddressSpaceKind::Kernel,
                    )->Ok_0,
                )
                &&& forall|j: int| 0 <= j < MAX_ADDRESS_SPACES && j != a.0 ==> #[trigger] final(spaces).view()[j] == old(spaces).view()[j]
            },
        },
{
    let c = scheduler.current();
    let t = match scheduler.task(c) {
        Some(t) => t,
        None => return Err(Status::NoSuchTask),
    };
    let as_id = match address_space_of(&t.handles, as_handle, false) {
        Ok(a) => a,
        Err(e) => return Err(e),
    };
    let frame = match frame_of(&t.handles, frame_handle) {
        Ok(f) => f,
        Err(e) => return Err(e),
    };
    match spaces.map_in(as_id, mem, frame.start_address(), VirtualAddr::new(virtual_addr), permissions, allocator, CachePolicy::WriteBack) {
        None => Err(Status::BadHandle),
        Some(Ok(())) => Ok(()),
        Some(Err(_)) => Err(Status::OutOfMemory),
    }
}

/// Unmaps the page at `virtual_addr` in the address space that handle
/// `as_handle` names. The frame stays with whoever holds it. `BadHandle` or
/// `InvalidArgument` when the handle does not name an address space,
/// `BadHandle` when the space is gone, `OutOfMemory` when the page does not
/// translate or cannot be unmapped.
pub fn sys_unmap(
    scheduler: &Scheduler,
    spaces: &mut AddressSpaceTable,
    allocator: &mut FrameAllocator,
    mem: &mut PhysicalMemory,
    as_handle: u64,
    virtual_addr: u64,
) -> (r: Result<(), Status>)
    requires
        scheduler.wf(),
        scheduler.spec_current() is Some,
        old(spaces).wf(),
        old(spaces).all_wf(old(mem)@, old(allocator)@),
        old(allocator).wf(),
        old(allocator).backed_by(old(mem)@),
    ensures
        final(spaces).wf(),
        final(allocator).wf(),
        final(allocator).backed_by(final(mem)@),
        final(allocator).spec_direct_map() == old(allocator).spec_direct_map(),
        final(allocator)@.len() == old(allocator)@.len(),
        final(mem)@.len() == old(mem)@.len(),
        match address_space_of_spec(current_task(*scheduler), as_handle, false) {
            Err(e) => r == Err::<(), Status>(e) && final(spaces).view() == old(spaces).view() && final(mem)@ == old(mem)@
                && final(allocator)@ == old(allocator)@,
            Ok(a) => if a.0 >= MAX_ADDRESS_SPACES || old(spaces).view()[a.0 as int] is None {
                r == Err::<(), Status>(Status::BadHandle) && final(spaces).view() == old(spaces).view()
            } else {
                let s0 = old(spaces).view()[a.0 as int]->Some_0;
                let s1 = final(spaces).view()[a.0 as int]->Some_0;
                &&& final(spaces).view()[a.0 as int] is Some
                &&& s1.wf(final(mem)@, final(allocator)@)
                &&& s0.translate(old(mem)@, virtual_addr) is None ==> r == Err::<(), Status>(Status::OutOfMemory) && final(mem)@
                    == old(mem)@ && final(allocator)@ == old(allocator)@
                &&& r is Err ==> r == Err::<(), Status>(Status::OutOfMemory)
                &&& !(s0.spec_kind() == AddressSpaceKind::User && virtual_addr >= USER_SPACE_END) && s0.spec_root().spec_unmap(
                    old(mem)@,
                    virtual_addr,
                ) is Ok ==> r is Ok
                &&& r is Ok ==> s0.translate(old(mem)@, virtual_addr) is Some && s1.translate(final(mem)@, virtual_addr) is None
                &&& forall|j: int| 0 <= j < MAX_ADDRESS_SPACES && j != a.0 ==> #[trigger] final(spaces).view()[j] == old(spaces).view()[j]
            },
        },
{
    let c = scheduler.current();
    let t = match scheduler.task(c) {
        Some(t) => t,
        None => return Err(Status::NoSuchTask),
    };
    let as_id = match address_space_of(&t.handles, as_handle, false) {
        Ok(a) => a,
        Err(e) => return Err(e),
    };
    match spaces.unmap_in(as_id, mem, VirtualAddr::new(virtual_addr), allocator) {
        None => Err(Status::BadHandle),
        Some(Some(Ok(_))) => Ok(()),
        Some(_) => Err(Status::OutOfMemory),
    }
}

/// Every space in the table reads its tables through `dm`.
pub open spec fn spaces_use_direct_map(spaces: AddressSpaceTable, dm: crate::memory::DirectMap) -> bool {
    forall|i: int| 0 <= i < spaces.view().len() ==> (#[trigger] spaces.view()[i] matches Some(s) ==> s.spec_root().spec_direct_map() == dm)
}

/// Makes a user address space that shares the kernel half of the running
/// thread's space, files it in the table and gives the thread a handle on
/// it (read, write, execute); returns the handle's number. `OutOfMemory`
/// when the thread's space is gone, no root table can be had, the table of
/// spaces is full, or the thread's handle table is full (the new space is
/// then taken out again).
pub fn sys_as_create(
    scheduler: &mut Scheduler,
    spaces: &mut AddressSpaceTable,
    allocator: &mut FrameAllocator,
    mem: &mut PhysicalMemory,
) -> (r: Result<usize, Status>)
    requires
        old(scheduler).wf(),
        old(scheduler).spec_current() is Some,
        old(spaces).wf(),
        old(spaces).all_wf(old(mem)@, old(allocator)@),
        spaces_use_direct_map(*old(spaces), old(allocator).spec_direct_map()),
        old(allocator).wf(),
        old(allocator).backed_by(old(mem)@),
    ensures
        final(scheduler).wf(),
        final(scheduler).spec_current() == old(scheduler).spec_current(),
        final(scheduler).spec_ready() == old(scheduler).spec_ready(),
        final(spaces).wf(),
        final(allocator).wf(),
        final(allocator).backed_by(final(mem)@),
        final(allocator).spec_direct_map() == old(allocator).spec_direct_map(),
        final(mem)@.len() == old(mem)@.len(),
        r is Err ==> r == Err::<usize, Status>(Status::OutOfMemory) && final(spaces).view() == old(spaces).view(),
        ({
            let t0 = current_task(*old(scheduler));
            &&& t0.as_id.0 < MAX_ADDRESS_SPACES
            &&& old(spaces).view()[t0.as_id.0 as int] is Some
            &&& has_free(old(allocator)@)
            &&& forall|f: int|
                chosen_free(old(allocator)@, old(allocator).spec_next_search() as int, f) ==> f * 4096 < old(spaces).view()[t0.as_id.0 as int]->Some_0.spec_root().spec_config().spec_limit()
            &&& exists|j: int| 0 <= j < MAX_ADDRESS_SPACES && #[trigger] old(spaces).view()[j] is None
            &&& exists|j: int| 0 <= j < MAX_HANDLES && #[trigger] t0.handles.view()[j] is None
        }) ==> r is Ok,
        r matches Ok(i) ==> {
            let c = old(scheduler).spec_current()->Some_0;
            let t0 = current_task(*old(scheduler));
            &&& i < MAX_HANDLES
            &&& first_empty_handle(t0.handles.view(), i as int)
            &&& t0.handles.view()[i as int] is None
            &&& final(scheduler).spec_tasks()[c.0 as int] matches Some(t) && (t.handles.view()[i as int] matches Some(h)
                && h.rights.0 == full_rights() && (h.object matches KernelObject::AddressSpace(a) && a.0 < MAX_ADDRESS_SPACES
                && old(spaces).view()[a.0 as int] is None && (forall|j: int| 0 <= j < a.0 ==> (#[trigger] old(spaces).view()[j]) is Some)
                && (final(spaces).view()[a.0 as int] matches Some(s) && s.spec_kind() == AddressSpaceKind::User && s.wf(
                final(mem)@,
                final(allocator)@,
            ) && forall|j: nat| 256 <= j < 512 ==> #[trigger] mem_entry(final(mem)@, s.spec_root().spec_root(), j) == mem_entry(
                old(mem)@,
                old(spaces).view()[t0.as_id.0 as int]->Some_0.spec_root().spec_root(),
                j,
            ))))
        },
{
    let c = scheduler.current();
    let caller = match scheduler.task(c) {
        Some(t) => t.as_id,
        None => return Err(Status::OutOfMemory),
    };
    let created = match spaces.get(caller) {
        Some(space) => {
            proof {
                assert(space.wf(mem@, allocator@));
            }
            space.new_user(mem, allocator)
        },
        None => return Err(Status::OutOfMemory),
    };
    let new_space = match created {
        Ok(s) => s,
        Err(_) => return Err(Status::OutOfMemory),
    };
    let ghost ns = new_space;
    let id = match spaces.insert(new_space) {
        Ok(id) => id,
        Err(_) => return Err(Status::OutOfMemory),
    };
    let ghost spaces1 = spaces.view();
    match scheduler.push_handle(c, Handle { object: KernelObject::AddressSpace(id), rights: all_rights() }) {
        Ok(i) => {
            proof {
                old(scheduler).spec_tasks()[c.0 as int]->Some_0.handles.lemma_len();
            }
            Ok(i)
        },
        Err(_) => {
            let _ = spaces.remove(id);
            proof {
                assert(spaces.view() =~= old(spaces).view());
            }
            Err(Status::OutOfMemory)
        },
    }
}

/// Creates a thread in the address space that handle `as_handle` names
/// (which must carry the execute right), starting at `entry` with stack
/// `user_stack`, on a fresh kernel stack from the kernel's space, whose
/// initial frame ends in `return_address`, where the thread first runs;
/// queues it and gives the running thread a handle on it (read, write,
/// execute).
/// Returns the handle's number. `BadHandle` or `InvalidArgument` when the
/// handle does not name what it should, `BadHandle` when the space is gone,
/// `OutOfMemory` when no kernel stack can be had, the scheduler is full, or
/// the running thread's handle table is full (the new thread is then taken
/// out again).
pub fn sys_task_create(
    scheduler: &mut Scheduler,
    stacks: &mut KernelStackPool,
    spaces: &AddressSpaceTable,
    kernel_space: &mut AddressSpace,
    allocator: &mut FrameAllocator,
    mem: &mut PhysicalMemory,
    as_handle: u64,
    entry: u64,
    user_stack: u64,
    return_address: u64,
) -> (r: Result<usize, Status>)
    requires
        old(scheduler).wf(),
        old(scheduler).spec_current() is Some,
        old(stacks).wf(),
        spaces.wf(),
        old(kernel_space).wf(old(mem)@, old(allocator)@),
        old(kernel_space).spec_kind() == AddressSpaceKind::Kernel,
        old(allocator).wf(),
        old(allocator).backed_by(old(mem)@),
    ensures
        final(scheduler).wf(),
        final(stacks).wf(),
        final(scheduler).spec_current() == old(scheduler).spec_current(),
        final(allocator).wf(),
        final(allocator).backed_by(final(mem)@),
        final(allocator).spec_direct_map() == old(allocator).spec_direct_map(),
        final(mem)@.len() == old(mem)@.len(),
        final(kernel_space).wf(final(mem)@, final(allocator)@),
        final(kernel_space).spec_kind() == AddressSpaceKind::Kernel,
        forall|vb: u64| #[trigger] old(kernel_space).owns_mapping(old(mem)@, vb) ==> final(kernel_space).spec_root().spec_unmap(
            final(mem)@,
            vb,
        ) == old(kernel_space).spec_root().spec_unmap(old(mem)@, vb),
        match address_space_of_spec(current_task(*old(scheduler)), as_handle, true) {
            Err(e) => r == Err::<usize, Status>(e) && *final(scheduler) == *old(scheduler) && final(mem)@ == old(mem)@
                && final(allocator)@ == old(allocator)@ && *final(stacks) == *old(stacks),
            Ok(a) => if a.0 >= MAX_ADDRESS_SPACES || spaces.view()[a.0 as int] is None {
                r == Err::<usize, Status>(Status::BadHandle) && *final(scheduler) == *old(scheduler) && final(mem)@ == old(mem)@
                    && final(allocator)@ == old(allocator)@ && *final(stacks) == *old(stacks)
            } else {
                &&& r is Err ==> r == Err::<usize, Status>(Status::OutOfMemory) && final(scheduler).spec_tasks() == old(scheduler).spec_tasks()
                &&& old(stacks).spec_next() < MAX_KERNEL_STACKS && spec_stack_mappable(
                    *old(kernel_space),
                    old(mem)@,
                    old(allocator)@,
                    kernel_stack_top(old(stacks).spec_next()),
                    kernel_stack_permissions(),
                ) && (exists|j: int| 0 <= j < MAX_TASKS && (#[trigger] old(scheduler).spec_tasks()[j]) is None) && (exists|j: int|
                    0 <= j < MAX_HANDLES && (#[trigger] current_task(*old(scheduler)).handles.view()[j]) is None) ==> r is Ok
                &&& r matches Ok(i) ==> {
                    let c = old(scheduler).spec_current()->Some_0;
                    let top = kernel_stack_top(old(stacks).spec_next());
                    let t0 = current_task(*old(scheduler));
                    &&& i < MAX_HANDLES
                    &&& t0.handles.view()[i as int] is None
                    &&& final(scheduler).spec_tasks()[c.0 as int] matches Some(t) && (t.handles.view()[i as int] matches Some(h)
                        && h.rights.0 == full_rights() && (h.object matches KernelObject::Thread(n) && n.0 < MAX_TASKS && n != c
                        && old(scheduler).spec_tasks()[n.0 as int] is None && final(scheduler).spec_ready() == old(scheduler).spec_ready().push(n)
                        && (final(scheduler).spec_tasks()[n.0 as int] matches Some(nt) && nt.id == n && nt.as_id == a
                        && nt.state == ThreadState::Ready && nt.context == crate::arch::context::ThreadContext::spec_new(
                        VirtualAddr(entry),
                        VirtualAddr(user_stack),
                        nt.kernel_stack.spec_top(),
                    ) && nt.kernel_stack.spec_top().0 == top && frame_words_mapped(*final(kernel_space), final(mem)@, top)
                        && forall|k: int| 0 <= k < 7 ==> final(mem)@[#[trigger] frame_word(*final(kernel_space), final(mem)@, top, k)]
                        == initial_frame_words(entry, user_stack, return_address)[k])))
                }
            },
        },
{
    let c = scheduler.current();
    let as_id = match scheduler.task(c) {
        Some(t) => match address_space_of(&t.handles, as_handle, true) {
            Ok(a) => a,
            Err(e) => return Err(e),
        },
        None => return Err(Status::NoSuchTask),
    };
    if spaces.get(as_id).is_none() {
        return Err(Status::BadHandle);
    }
    let ghost top = kernel_stack_top(old(stacks).spec_next());
    let kernel_stack = match stacks.allocate(kernel_space, mem, allocator) {
        Ok(s) => s,
        Err(_) => return Err(Status::OutOfMemory),
    };
    proof {
        let n = old(stacks).spec_next();
        assert(top % 4096 == 0 && top >= 0x1_0000_0000) by (nonlinear_arith)
            requires
                n < 32,
                top == (0xFFFF_FFFE_0000_0000u64 - n * 0x20000) as u64,
        ;
    }
    let ghost k1 = *kernel_space;
    let ghost m1 = mem@;
    let ghost a1 = allocator@;
    let ghost page = (top - 4096) as u64;
    let ghost start = (top - STACK_SIZE) as u64;
    proof {
        assert(page == (start + 15nat * 4096) as u64);
        assert(k1.spec_root().spec_unmap(m1, (start + 15nat * 4096) as u64) is Ok);
        assert(0 <= page_frame(k1, m1, (start + 15nat * 4096) as u64) < a1.len());
        lemma_frame_words_in_top_page(k1, m1, a1, top);
        k1.spec_root().lemma_wf_basics(m1, a1);
    }
    let tcb = Tcb::new_user(as_id, kernel_stack, VirtualAddr::new(entry), VirtualAddr::new(user_stack), kernel_space, mem, return_address);
    proof {
        let m2 = mem@;
        let pf = page_frame(k1, m1, page);
        let ws = Seq::new(7, |i: int| frame_word(k1, m1, top, i));
        let vs = initial_frame_words(entry, user_stack, return_address);
        lemma_words_written(m1, ws, vs);
        assert forall|w: int| 0 <= w < m1.len() && #[trigger] m2[w] != m1[w] implies !k1.spec_root().spec_tables().contains_key((w / 512) as nat) by {
            if forall|i: int| 0 <= i < ws.len() ==> ws[i] != w {
                assert(m2[w] == m1[w]);
            }
            let i = choose|i: int| 0 <= i < ws.len() && ws[i] == w;
            assert(ws[i] == frame_word(k1, m1, top, i));
            assert(w / 512 == pf) by (nonlinear_arith)
                requires
                    w == k1.spec_root().spec_unmap(m1, page)->Ok_0 / 8 + 505 + i,
                    0 <= i < 7,
                    pf == k1.spec_root().spec_unmap(m1, page)->Ok_0 as int / 4096,
                    k1.spec_root().spec_unmap(m1, page)->Ok_0 % 4096 == 0,
            ;
        }
        k1.lemma_foreign_writes(m1, m2, a1);
        crate::arch::paging::lemma_index_bound(page, crate::arch::paging::level_shift(k1.spec_root().spec_config().spec_levels()[0]));
        assert(k1.owns_mapping(m1, page));
        assert forall|vb: u64| #[trigger] old(kernel_space).owns_mapping(old(mem)@, vb) implies k1.spec_root().spec_unmap(m2, vb)
            == old(kernel_space).spec_root().spec_unmap(old(mem)@, vb) by {
            assert(k1.owns_mapping(m1, vb));
        }
        assert(k1.spec_root().spec_unmap(m2, page) == k1.spec_root().spec_unmap(m1, page));
        lemma_frame_words_in_top_page(k1, m2, a1, top);
        assert forall|k: int| 0 <= k < 7 implies m2[#[trigger] frame_word(k1, m2, top, k)] == vs[k] by {
            assert(ws[k] == frame_word(k1, m2, top, k));
            assert forall|j: int| k < j < ws.len() implies ws[j] != ws[k] by {}
        }
        assert(tcb.handles.view()[1] is None);
    }
    let ghost s1 = *scheduler;
    let new_id = match scheduler.add_task(tcb) {
        Ok(id) => id,
        Err(_) => return Err(Status::OutOfMemory),
    };
    let ghost s2 = *scheduler;
    proof {
        assert(s1.spec_tasks()[c.0 as int] is Some);
        assert(new_id != c);
    }
    match scheduler.push_handle(c, Handle { object: KernelObject::Thread(new_id), rights: all_rights() }) {
        Ok(i) => {
            proof {
                old(scheduler).spec_tasks()[c.0 as int]->Some_0.handles.lemma_len();
            }
            Ok(i)
        },
        Err(_) => {
            let removed = scheduler.remove_task(new_id);
            proof {
                assert(removed);
                assert(scheduler.spec_tasks() =~= old(scheduler).spec_tasks());
            }
            Err(Status::OutOfMemory)
        },
    }
}

} // verus!
