//! Thread control blocks, message mailboxes and handle tables.

use vstd::prelude::*;

use crate::arch::context::{frame_word, frame_words_mapped, initial_frame_words, words_written, ThreadContext};
use crate::memory::address_space::{AddressSpace, AddressSpaceId};
use crate::memory::phys::PhysicalMemory;
use crate::memory::stack::KernelStack;
use crate::memory::{OwnedFrame, VirtualAddr};
use crate::task::scheduler::TaskId;

verus! {

/// Why a thread was stopped by the kernel.
#[derive(Clone, Copy, Debug, PartialEq, Eq, Structural)]
pub enum Fault {
    SegmentationFault,
    IllegalInstruction,
    Abort,
    BadSystemCall,
}

/// How a thread ended.
#[derive(Clone, Copy, Debug, PartialEq, Eq, Structural)]
pub enum ExitReason {
    Exited(usize),
    Killed,
    Fault(Fault),
}

/// What a blocked thread waits for.
#[derive(Clone, Copy, Debug, PartialEq, Eq, Structural)]
pub enum BlockReason {
    Recv,
}

/// The scheduling state of a thread.
#[derive(Clone, Copy, Debug, PartialEq, Eq, Structural)]
pub enum ThreadState {
    Ready,
    Running,
    Blocked(BlockReason),
    Dead(ExitReason),
}

/// The largest message, in bytes.
pub const MAX_MSG_SIZE: usize = 128;

/// How many messages a mailbox holds.
pub const MAILBOX_CAPACITY: usize = 4;

/// A message between threads: its sender, its length and its bytes.
#[derive(Clone, Copy)]
pub struct Message {
    pub sender: TaskId,
    pub length: usize,
    pub data: [u8; MAX_MSG_SIZE],
}

/// A bounded FIFO of messages, kept in a ring of `MAILBOX_CAPACITY` slots:
/// `len` messages starting at slot `head`.
pub struct Mailbox {
    pub messages: Vec<Option<Message>>,
    pub head: usize,
    pub len: usize,
}

impl Mailbox {
    /// The ring's shape is sound and every queued slot holds a message.
    pub open spec fn wf(&self) -> bool {
        &&& self.messages@.len() == MAILBOX_CAPACITY
        &&& self.head < MAILBOX_CAPACITY
        &&& self.len <= MAILBOX_CAPACITY
        &&& forall|i: int| 0 <= i < self.len ==> (#[trigger] self.messages@[(self.head + i) % 4]) is Some
    }

    /// The queued messages, oldest first.
    pub open spec fn view(&self) -> Seq<Message> {
        Seq::new(self.len as nat, |i: int| self.messages@[(self.head + i) % 4]->Some_0)
    }

    /// An empty mailbox.
    pub fn new() -> (r: Self)
        ensures
            r.wf(),
            r.view() == Seq::<Message>::empty(),
    {
        let mut messages: Vec<Option<Message>> = Vec::new();
        let mut i: usize = 0;
        while i < MAILBOX_CAPACITY
            invariant
                i <= MAILBOX_CAPACITY,
                messages@.len() == i,
            decreases MAILBOX_CAPACITY - i,
        {
            messages.push(None);
            i = i + 1;
        }
        let r = Self { messages, head: 0, len: 0 };
        assert(r.view() =~= Seq::<Message>::empty());
        r
    }

    /// Takes the oldest message, if there is one.
    pub fn pop(&mut self) -> (r: Option<Message>)
        requires
            old(self).wf(),
        ensures
            final(self).wf(),
            old(self).view().len() == 0 ==> r is None && final(self).view() == old(self).view(),
            old(self).view().len() > 0 ==> r == Some(old(self).view()[0]) && final(self).view() == old(
                self,
            ).view().drop_first(),
            old(self).len == 0 ==> *final(self) == *old(self),
            old(self).len > 0 ==> final(self).head == (old(self).head + 1) % (MAILBOX_CAPACITY as int) && final(self).len == old(self).len - 1
                && final(self).messages@ == old(self).messages@,
    {
        if self.len == 0 {
            return None;
        }
        let ghost before = self.view();
        let msg = self.messages[self.head];
        assert(self.messages@[(self.head + 0) % 4] is Some);
        self.head = (self.head + 1) % MAILBOX_CAPACITY;
        self.len = self.len - 1;
        proof {
            assert forall|i: int| 0 <= i < self.len implies (#[trigger] self.messages@[(self.head + i) % 4]) is Some by {
                assert((self.head + i) % 4 == (old(self).head + (i + 1)) % 4);
            }
            assert forall|i: int| 0 <= i < self.len implies #[trigger] self.view()[i] == before.drop_first()[i] by {
                assert((self.head + i) % 4 == (old(self).head + (i + 1)) % 4);
            }
            assert(self.view() =~= before.drop_first());
        }
        msg
    }

    /// Queues `msg` unless the mailbox is full; says whether it did.
    pub fn push(&mut self, msg: Message) -> (r: bool)
        requires
            old(self).wf(),
        ensures
            final(self).wf(),
            r == (old(self).view().len() < MAILBOX_CAPACITY),
            r ==> final(self).view() == old(self).view().push(msg),
            !r ==> final(self).view() == old(self).view(),
            !r ==> *final(self) == *old(self),
            r ==> final(self).head == old(self).head && final(self).len == old(self).len + 1 && final(self).messages@ == old(
                self,
            ).messages@.update((old(self).head + old(self).len) % (MAILBOX_CAPACITY as int), Some(msg)),
    {
        if self.len == MAILBOX_CAPACITY {
            return false;
        }
        let ghost before = self.view();
        let tail = (self.head + self.len) % MAILBOX_CAPACITY;
        self.messages.set(tail, Some(msg));
        self.len = self.len + 1;
        proof {
            assert forall|i: int| 0 <= i < self.len implies (#[trigger] self.messages@[(self.head + i) % 4]) is Some by {
                if i < self.len - 1 {
                    assert((self.head + i) % 4 != tail);
                    assert(old(self).messages@[(self.head + i) % 4] is Some);
                }
            }
            assert forall|i: int| 0 <= i < self.len implies #[trigger] self.view()[i] == before.push(msg)[i] by {
                if i < self.len - 1 {
                    assert((self.head + i) % 4 != tail);
                }
            }
            assert(self.view() =~= before.push(msg));
        }
        true
    }
}

/// The number of slots in a handle table.
pub const MAX_HANDLES: usize = 32;

/// What a handle refers to.
pub enum KernelObject {
    AddressSpace(AddressSpaceId),
    Frame(OwnedFrame),
    Mapping { frame: OwnedFrame, address_space: AddressSpaceId, virtual_addr: VirtualAddr },
    Thread(TaskId),
}

/// A reference to a kernel object with the rights it grants.
pub struct Handle {
    pub object: KernelObject,
    pub rights: Rights,
}

/// A set of access rights, one bit each.
#[derive(Clone, Copy, Debug, PartialEq, Eq, Structural)]
pub struct Rights(pub u32);

/// The bit of the right to read.
pub const RIGHT_READ: u32 = 1;

/// The bit of the right to write.
pub const RIGHT_WRITE: u32 = 2;

/// The bit of the right to execute.
pub const RIGHT_EXECUTE: u32 = 4;

/// The bit of the right to map.
pub const RIGHT_MAP: u32 = 8;

impl Rights {
    /// The rights of both sets.
    pub fn bitor(self, rhs: Rights) -> (r: Rights)
        ensures
            r.0 == self.0 | rhs.0,
    {
        Rights(self.0 | rhs.0)
    }

    /// Whether every right of `other` is in this set.
    pub fn contains(self, other: Rights) -> (r: bool)
        ensures
            r == (self.0 & other.0 == other.0),
    {
        self.0 & other.0 == other.0
    }
}

/// A thread's handles, in `MAX_HANDLES` numbered slots.
pub struct HandleTable {
    handles: Vec<Option<Handle>>,
}

/// `i` is the first empty slot of `s`.
pub open spec fn first_empty(s: Seq<Option<Handle>>, i: int) -> bool {
    &&& 0 <= i < s.len()
    &&& s[i] is None
    &&& forall|j: int| 0 <= j < i ==> (#[trigger] s[j]) is Some
}

/// `i` is the first empty slot of `s`.
pub open spec fn first_empty_handle(s: Seq<Option<Handle>>, i: int) -> bool {
    first_empty(s, i)
}

impl HandleTable {
    /// The slots, by number.
    pub closed spec fn view(&self) -> Seq<Option<Handle>> {
        self.handles@
    }

    pub closed spec fn wf(&self) -> bool {
        self.handles@.len() == MAX_HANDLES
    }

    /// A table with every slot empty.
    pub fn new() -> (r: Self)
        ensures
            r.wf(),
            r.view().len() == MAX_HANDLES,
            forall|i: int| 0 <= i < MAX_HANDLES ==> (#[trigger] r.view()[i]) is None,
    {
        let mut handles: Vec<Option<Handle>> = Vec::new();
        let mut i: usize = 0;
        while i < MAX_HANDLES
            invariant
                i <= MAX_HANDLES,
                handles@.len() == i,
                forall|j: int| 0 <= j < i ==> (#[trigger] handles@[j]) is None,
            decreases MAX_HANDLES - i,
        {
            handles.push(None);
            i = i + 1;
        }
        Self { handles }
    }

    pub proof fn lemma_len(&self)
        requires
            self.wf(),
        ensures
            self.view().len() == MAX_HANDLES,
    {
    }

    /// Puts `handle` in the first empty slot and returns its number; hands
    /// `handle` back when every slot is taken.
    pub fn push(&mut self, handle: Handle) -> (r: Result<usize, Handle>)
        requires
            old(self).wf(),
        ensures
            final(self).wf(),
            match r {
                Ok(i) => first_empty(old(self).view(), i as int) && final(self).view() == old(self).view().update(
                    i as int,
                    Some(handle),
                ),
                Err(h) => h == handle && final(self).view() == old(self).view() && *final(self) == *old(self) && forall|j: int|
                    0 <= j < MAX_HANDLES ==> (#[trigger] old(self).view()[j]) is Some,
            },
    {
        let mut i: usize = 0;
        while i < MAX_HANDLES
            invariant
                self.handles@.len() == MAX_HANDLES,
                *self == *old(self),
                i <= MAX_HANDLES,
                forall|j: int| 0 <= j < i ==> (#[trigger] self.handles@[j]) is Some,
            decreases MAX_HANDLES - i,
        {
            if self.handles[i].is_none() {
                self.handles.set(i, Some(handle));
                return Ok(i);
            }
            i = i + 1;
        }
        Err(handle)
    }

    /// Empties slot `id` and returns what it held.
    pub fn remove(&mut self, id: usize) -> (r: Option<Handle>)
        requires
            old(self).wf(),
        ensures
            final(self).wf(),
            id < MAX_HANDLES ==> r == old(self).view()[id as int] && final(self).view() == old(self).view().update(
                id as int,
                None,
            ),
            id >= MAX_HANDLES ==> r is None && final(self).view() == old(self).view(),
    {
        self.take(id)
    }

    /// Empties slot `id` and returns what it held.
    pub fn take(&mut self, id: usize) -> (r: Option<Handle>)
        requires
            old(self).wf(),
        ensures
            final(self).wf(),
            id < MAX_HANDLES ==> r == old(self).view()[id as int] && final(self).view() == old(self).view().update(
                id as int,
                None,
            ),
            id >= MAX_HANDLES ==> r is None && final(self).view() == old(self).view(),
    {
        if id >= self.handles.len() {
            return None;
        }
        let r = self.handles.remove(id);
        self.handles.insert(id, None);
        assert(self.handles@ =~= old(self).handles@.update(id as int, None));
        r
    }

    /// Puts `handle` in slot `id` if the slot exists and is empty; hands
    /// `handle` back otherwise.
    pub fn put(&mut self, id: usize, handle: Handle) -> (r: Result<(), Handle>)
        requires
            old(self).wf(),
        ensures
            final(self).wf(),
            r is Ok <==> id < MAX_HANDLES && old(self).view()[id as int] is None,
            r is Ok ==> final(self).view() == old(self).view().update(id as int, Some(handle)),
            r matches Err(h) ==> h == handle && final(self).view() == old(self).view(),
    {
        if id >= self.handles.len() {
            return Err(handle);
        }
        if self.handles[id].is_some() {
            return Err(handle);
        }
        self.handles.set(id, Some(handle));
        Ok(())
    }

    /// The handle in slot `id`, if any.
    pub fn get(&self, id: usize) -> (r: Option<&Handle>)
        requires
            self.wf(),
        ensures
            id < MAX_HANDLES ==> r == match self.view()[id as int] {
                Some(h) => Some(&h),
                None => None,
            },
            id >= MAX_HANDLES ==> r is None,
    {
        if id >= self.handles.len() {
            return None;
        }
        match &self.handles[id] {
            Some(h) => Some(h),
            None => None,
        }
    }
}

/// A thread: its identity and address space, its scheduling state, its
/// kernel stack and saved context, its mailbox and its handles.
pub struct Tcb {
    pub id: TaskId,
    pub as_id: AddressSpaceId,
    pub state: ThreadState,
    pub kernel_stack: KernelStack,
    pub context: ThreadContext,
    pub mailbox: Mailbox,
    pub handles: HandleTable,
}

/// The rights a thread holds on the objects it is created with.
pub open spec fn full_rights() -> u32 {
    1u32 | 2u32 | 4u32
}

impl Tcb {
    /// A ready user thread in address space `as_id` that starts at `entry`
    /// with stack `user_stack`, on `kernel_stack`; its first handle (number
    /// 0) is its address space, with read, write and execute rights. Its
    /// identity is given when the scheduler takes it. The initial frame that
    /// its first switch pops, ending in `return_address`, is written below
    /// the kernel stack's top, which lies in `kernel_space`.
    pub fn new_user(
        as_id: AddressSpaceId,
        kernel_stack: KernelStack,
        entry: VirtualAddr,
        user_stack: VirtualAddr,
        kernel_space: &AddressSpace,
        mem: &mut PhysicalMemory,
        return_address: u64,
    ) -> (r: Self)
        requires
            kernel_space.spec_root().inv(),
            frame_words_mapped(*kernel_space, old(mem)@, kernel_stack.spec_top().0),
        ensures
            final(mem)@ == words_written(
                old(mem)@,
                Seq::new(7, |i: int| frame_word(*kernel_space, old(mem)@, kernel_stack.spec_top().0, i)),
                initial_frame_words(entry.0, user_stack.0, return_address),
            ),
            r.id == TaskId(0),
            r.as_id == as_id,
            r.state == ThreadState::Ready,
            r.kernel_stack == kernel_stack,
            r.context == ThreadContext::spec_new(entry, user_stack, kernel_stack.spec_top()),
            r.mailbox.wf(),
            r.mailbox.view() == Seq::<Message>::empty(),
            r.handles.wf(),
            r.handles.view()[0] matches Some(h) && h.object == KernelObject::AddressSpace(as_id) && h.rights.0
                == full_rights(),
            forall|i: int| 1 <= i < MAX_HANDLES ==> (#[trigger] r.handles.view()[i]) is None,
    {
        let context = ThreadContext::new(entry, user_stack, kernel_stack.top(), kernel_space, mem, return_address);
        let mut handles = HandleTable::new();
        let ghost empty = handles.view();
        let rights = Rights(RIGHT_READ).bitor(Rights(RIGHT_WRITE)).bitor(Rights(RIGHT_EXECUTE));
        assert(rights.0 == full_rights());
        let pushed = handles.push(Handle { object: KernelObject::AddressSpace(as_id), rights });
        proof {
            assert(empty[0] is None);
            match pushed {
                Ok(i) => {
                    if i > 0 {
                        assert(empty[0] is Some);
                    }
                },
                Err(_) => {
                    assert(empty[0] is Some);
                },
            }
        }
        Self {
            id: TaskId(0),
            as_id,
            state: ThreadState::Ready,
            kernel_stack,
            context,
            mailbox: Mailbox::new(),
            handles,
        }
    }
}

} // verus!
