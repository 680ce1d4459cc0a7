//! The run queue and the scheduler's decisions.

use vstd::prelude::*;

use crate::memory::VirtualAddr;
use crate::memory::address_space::AddressSpaceId;
use crate::task::tcb::{
    BlockReason, ExitReason, Handle, KernelObject, MAILBOX_CAPACITY, MAX_HANDLES, Message, Rights, Tcb, ThreadState,
    first_empty_handle, full_rights,
};

verus! {

/// The number of threads the scheduler can hold.
pub const MAX_TASKS: usize = 32;

/// A thread's number in the scheduler's table.
#[derive(Clone, Copy, Debug, PartialEq, Eq, Structural)]
pub struct TaskId(pub usize);

impl TaskId {
    pub fn new(id: usize) -> (r: Self)
        ensures
            r.0 == id,
    {
        Self(id)
    }
}

/// The slot of the ring that holds position `k` of a queue starting at `head`.
pub open spec fn ring_slot(head: int, k: int) -> int {
    (head + k) % (MAX_TASKS as int)
}

proof fn lemma_ring_slots_distinct(head: int, a: int, b: int)
    requires
        0 <= head < 32,
        0 <= a < 32,
        0 <= b < 32,
        a != b,
    ensures
        ring_slot(head, a) != ring_slot(head, b),
        0 <= ring_slot(head, a) < 32,
{
}

/// The threads that are ready to run, in the order they will run: a ring of
/// `MAX_TASKS` slots holding `len` entries from slot `head`.
pub struct ReadyQueue {
    entries: Vec<TaskId>,
    head: usize,
    len: usize,
}

impl ReadyQueue {
    pub closed spec fn wf(&self) -> bool {
        &&& self.entries@.len() == MAX_TASKS
        &&& self.head < MAX_TASKS
        &&& self.len <= MAX_TASKS
    }

    /// The ring slot of the first queued thread.
    pub closed spec fn spec_head(&self) -> usize {
        self.head
    }

    /// The queued threads, first to run first.
    pub closed spec fn view(&self) -> Seq<TaskId> {
        Seq::new(self.len as nat, |k: int| self.entries@[ring_slot(self.head as int, k)])
    }

    pub proof fn lemma_len(&self)
        requires
            self.wf(),
        ensures
            self.view().len() <= MAX_TASKS,
    {
    }

    /// An empty queue.
    pub fn new() -> (r: Self)
        ensures
            r.wf(),
            r.view() == Seq::<TaskId>::empty(),
    {
        let mut entries: Vec<TaskId> = Vec::new();
        let mut i: usize = 0;
        while i < MAX_TASKS
            invariant
                i <= MAX_TASKS,
                entries@.len() == i,
            decreases MAX_TASKS - i,
        {
            entries.push(TaskId(0));
            i = i + 1;
        }
        let r = Self { entries, head: 0, len: 0 };
        assert(r.view() =~= Seq::<TaskId>::empty());
        r
    }

    /// Queues `task` last unless the queue is full; says whether it did.
    pub fn push_back(&mut self, task: TaskId) -> (r: bool)
        requires
            old(self).wf(),
        ensures
            final(self).wf(),
            r == (old(self).view().len() < MAX_TASKS),
            r ==> final(self).view() == old(self).view().push(task),
            !r ==> final(self).view() == old(self).view(),
    {
        if self.len == MAX_TASKS {
            return false;
        }
        let ghost before = self.view();
        let tail = (self.head + self.len) % MAX_TASKS;
        self.entries.set(tail, task);
        self.len = self.len + 1;
        proof {
            assert forall|k: int| 0 <= k < self.len implies #[trigger] self.view()[k] == before.push(task)[k] by {
                if k < self.len - 1 {
                    lemma_ring_slots_distinct(self.head as int, k, self.len - 1);
                }
            }
            assert(self.view() =~= before.push(task));
        }
        true
    }

    /// Takes the first thread, if there is one.
    pub fn pop_front(&mut self) -> (r: Option<TaskId>)
        requires
            old(self).wf(),
        ensures
            final(self).wf(),
            old(self).view().len() == 0 ==> r is None && final(self).view() == old(self).view() && *final(self) == *old(self),
            old(self).view().len() > 0 ==> r == Some(old(self).view()[0]) && final(self).view() == old(
                self,
            ).view().drop_first(),
    {
        if self.len == 0 {
            return None;
        }
        let ghost before = self.view();
        let task = self.entries[self.head];
        assert(ring_slot(self.head as int, 0) == self.head);
        self.head = (self.head + 1) % MAX_TASKS;
        self.len = self.len - 1;
        proof {
            assert forall|k: int| 0 <= k < self.len implies #[trigger] self.view()[k] == before.drop_first()[k] by {
                assert(ring_slot(self.head as int, k) == ring_slot(old(self).head as int, k + 1));
            }
            assert(self.view() =~= before.drop_first());
        }
        Some(task)
    }

    /// Takes the first occurrence of `task` out of the queue, keeping the
    /// order of the others; says whether `task` was queued.
    pub fn remove(&mut self, task: TaskId) -> (r: bool)
        requires
            old(self).wf(),
        ensures
            final(self).wf(),
            r == old(self).view().contains(task),
            final(self).spec_head() == old(self).spec_head(),
            !r ==> final(self).view() == old(self).view(),
            r ==> exists|i: int|
                0 <= i < old(self).view().len() && old(self).view()[i] == task && (forall|j: int|
                    0 <= j < i ==> old(self).view()[j] != task) && final(self).view() == old(self).view().remove(i),
    {
        let ghost before = self.view();
        let mut i: usize = 0;
        while i < self.len
            invariant
                self.wf(),
                *self == *old(self),
                before == self.view(),
                i <= self.len,
                forall|j: int| 0 <= j < i ==> before[j] != task,
            decreases self.len - i,
        {
            let idx = (self.head + i) % MAX_TASKS;
            if self.entries[idx] == task {
                assert(before[i as int] == task);
                let ghost removed = before.remove(i as int);
                let mut j: usize = i;
                while j + 1 < self.len
                    invariant
                        self.wf(),
                        self.head == old(self).head,
                        self.len == old(self).len,
                        i <= j < self.len,
                        before == old(self).view(),
                        removed == before.remove(i as int),
                        forall|k: int| 0 <= k < j ==> #[trigger] self.entries@[ring_slot(self.head as int, k)] == removed[k],
                        forall|k: int| j <= k < self.len ==> #[trigger] self.entries@[ring_slot(self.head as int, k)] == before[k],
                    decreases self.len - j,
                {
                    let from = (self.head + j + 1) % MAX_TASKS;
                    let to = (self.head + j) % MAX_TASKS;
                    let moved = self.entries[from];
                    proof {
                        assert(ring_slot(self.head as int, j + 1) == from);
                        assert(ring_slot(self.head as int, j as int) == to);
                    }
                    let ghost prev = self.entries@;
                    self.entries.set(to, moved);
                    proof {
                        assert forall|k: int| 0 <= k < j + 1 implies #[trigger] self.entries@[ring_slot(self.head as int, k)] == removed[k] by {
                            if k < j {
                                lemma_ring_slots_distinct(self.head as int, k, j as int);
                            }
                        }
                        assert forall|k: int| j + 1 <= k < self.len implies #[trigger] self.entries@[ring_slot(self.head as int, k)] == before[k] by {
                            lemma_ring_slots_distinct(self.head as int, k, j as int);
                        }
                    }
                    j = j + 1;
                }
                self.len = self.len - 1;
                proof {
                    assert forall|k: int| 0 <= k < self.len implies #[trigger] self.view()[k] == removed[k] by {
                    }
                    assert(self.view() =~= removed);
                }
                return true;
            }
            i = i + 1;
        }
        proof {
            assert(!before.contains(task)) by {
                if before.contains(task) {
                    let k = choose|k: int| 0 <= k < before.len() && before[k] == task;
                    assert(before[k] != task);
                }
            }
        }
        false
    }
}

/// Distinct thread numbers below [`MAX_TASKS`] that leave out `x` number
/// fewer than [`MAX_TASKS`].
proof fn lemma_distinct_ids_short(s: Seq<TaskId>, x: TaskId)
    requires
        s.no_duplicates(),
        x.0 < MAX_TASKS,
        forall|k: int| 0 <= k < s.len() ==> (#[trigger] s[k]).0 < MAX_TASKS && s[k] != x,
    ensures
        s.len() < MAX_TASKS,
{
    let t = s.map_values(|id: TaskId| id.0 as int);
    assert(t.no_duplicates()) by {
        assert forall|i: int, j: int| 0 <= i < t.len() && 0 <= j < t.len() && i != j implies t[i] != t[j] by {
            assert(s[i] != s[j]);
        }
    }
    t.unique_seq_to_set();
    let range = vstd::set_lib::set_int_range(0, MAX_TASKS as int).remove(x.0 as int);
    vstd::set_lib::lemma_int_range(0, MAX_TASKS as int);
    assert(t.to_set().subset_of(range)) by {
        assert forall|v: int| t.to_set().contains(v) implies range.contains(v) by {
            let k = choose|k: int| 0 <= k < t.len() && t[k] == v;
            assert(s[k] != x);
        }
    }
    vstd::set_lib::lemma_len_subset(t.to_set(), range);
}

/// A thread that is no longer queued and runs no more: `t` with state `s`.
pub open spec fn with_state(t: Tcb, s: ThreadState) -> Tcb {
    Tcb { state: s, ..t }
}

/// What the processor must do to run another thread: save the context of
/// `previous` (the boot context when there is none), load that of `next`,
/// switch to `next`'s kernel stack, and, where the address space changes,
/// activate `next`'s address space.
#[derive(Clone, Copy, Debug, PartialEq, Eq, Structural)]
pub struct Switch {
    pub previous: Option<TaskId>,
    pub next: TaskId,
    pub next_as_id: AddressSpaceId,
    pub next_kernel_stack: VirtualAddr,
    pub activate_address_space: bool,
}

/// The threads, the order in which the ready ones run, and the one that
/// runs.
pub struct Scheduler {
    current: Option<TaskId>,
    tasks: Vec<Option<Tcb>>,
    ready: ReadyQueue,
}

impl Scheduler {
    pub closed spec fn spec_current(&self) -> Option<TaskId> {
        self.current
    }

    /// The threads by number.
    pub closed spec fn spec_tasks(&self) -> Seq<Option<Tcb>> {
        self.tasks@
    }

    /// The ready threads, first to run first.
    pub closed spec fn spec_ready(&self) -> Seq<TaskId> {
        self.ready.view()
    }

    pub closed spec fn queue_ok(&self) -> bool {
        self.ready.wf()
    }

    /// The table has a slot per thread number; each thread sits in the slot
    /// of its number; the queue holds each ready thread at most once and
    /// only ready threads; the running thread is not queued.
    pub open spec fn wf(&self) -> bool {
        &&& self.queue_ok()
        &&& self.spec_tasks().len() == MAX_TASKS
        &&& self.spec_ready().no_duplicates()
        &&& forall|k: int| 0 <= k < self.spec_ready().len() ==> {
            let id = #[trigger] self.spec_ready()[k];
            &&& id.0 < MAX_TASKS
            &&& self.spec_tasks()[id.0 as int] matches Some(t) && t.state == ThreadState::Ready
        }
        &&& forall|i: int|
            0 <= i < MAX_TASKS ==> (#[trigger] self.spec_tasks()[i] matches Some(t) ==> t.id.0 == i && t.handles.wf() && t.mailbox.wf())
        &&& self.spec_current() matches Some(c) ==> {
            &&& c.0 < MAX_TASKS
            &&& self.spec_tasks()[c.0 as int] matches Some(t) && t.state == ThreadState::Running
            &&& !self.spec_ready().contains(c)
        }
    }

    proof fn lemma_queue_len(&self)
        requires
            self.queue_ok(),
        ensures
            self.spec_ready().len() <= MAX_TASKS,
    {
        self.ready.lemma_len();
    }

    /// No threads, none running.
    pub fn new() -> (r: Self)
        ensures
            r.wf(),
            r.spec_current() is None,
            r.spec_ready() == Seq::<TaskId>::empty(),
            forall|i: int| 0 <= i < MAX_TASKS ==> (#[trigger] r.spec_tasks()[i]) is None,
    {
        let mut tasks: Vec<Option<Tcb>> = Vec::new();
        let mut i: usize = 0;
        while i < MAX_TASKS
            invariant
                i <= MAX_TASKS,
                tasks@.len() == i,
                forall|j: int| 0 <= j < i ==> (#[trigger] tasks@[j]) is None,
            decreases MAX_TASKS - i,
        {
            tasks.push(None);
            i = i + 1;
        }
        Self { current: None, tasks, ready: ReadyQueue::new() }
    }

    /// The thread with number `id`, if there is one.
    pub fn task(&self, id: TaskId) -> (r: Option<&Tcb>)
        requires
            self.wf(),
        ensures
            id.0 < MAX_TASKS ==> r == match self.spec_tasks()[id.0 as int] {
                Some(t) => Some(&t),
                None => None,
            },
            id.0 >= MAX_TASKS ==> r is None,
    {
        if id.0 >= self.tasks.len() {
            return None;
        }
        match &self.tasks[id.0] {
            Some(t) => Some(t),
            None => None,
        }
    }

    /// The running thread.
    pub fn current(&self) -> (r: TaskId)
        requires
            self.spec_current() is Some,
        ensures
            r == self.spec_current()->Some_0,
    {
        match self.current {
            Some(c) => c,
            None => TaskId(0),
        }
    }

    /// Takes thread `i` out of its slot.
    fn take_task(&mut self, i: usize) -> (r: Option<Tcb>)
        requires
            i < old(self).tasks@.len(),
        ensures
            r == old(self).tasks@[i as int],
            final(self).tasks@ == old(self).tasks@.update(i as int, None),
            final(self).current == old(self).current,
            final(self).ready == old(self).ready,
    {
        let r = self.tasks.remove(i);
        self.tasks.insert(i, None);
        assert(self.tasks@ =~= old(self).tasks@.update(i as int, None));
        r
    }

    /// Sets the state of thread `i`, which exists.
    fn set_state(&mut self, i: usize, state: ThreadState)
        requires
            i < old(self).tasks@.len(),
            old(self).tasks@[i as int] is Some,
        ensures
            final(self).tasks@ == old(self).tasks@.update(i as int, Some(with_state(old(self).tasks@[i as int]->Some_0, state))),
            final(self).current == old(self).current,
            final(self).ready == old(self).ready,
    {
        match self.take_task(i) {
            Some(mut t) => {
                t.state = state;
                self.tasks.set(i, Some(t));
            },
            None => {},
        }
    }

    /// The first free thread number.
    fn free_slot(&self) -> (r: Option<usize>)
        requires
            self.tasks@.len() == MAX_TASKS,
        ensures
            match r {
                Some(i) => i < MAX_TASKS && self.tasks@[i as int] is None && forall|j: int| 0 <= j < i ==> (#[trigger] self.tasks@[j]) is Some,
                None => forall|j: int| 0 <= j < MAX_TASKS ==> (#[trigger] self.tasks@[j]) is Some,
            },
    {
        let mut i: usize = 0;
        while i < MAX_TASKS
            invariant
                self.tasks@.len() == MAX_TASKS,
                i <= MAX_TASKS,
                forall|j: int| 0 <= j < i ==> (#[trigger] self.tasks@[j]) is Some,
            decreases MAX_TASKS - i,
        {
            if self.tasks[i].is_none() {
                return Some(i);
            }
            i = i + 1;
        }
        None
    }

    /// Takes in `task` under the first free number, as a ready thread queued
    /// last, with a handle on itself (read, write and execute) in the first
    /// free slot of its handle table. Hands `task` back when every number is
    /// taken.
    pub fn add_task(&mut self, task: Tcb) -> (r: Result<TaskId, Tcb>)
        requires
            old(self).wf(),
            task.handles.wf(),
            task.mailbox.wf(),
            exists|j: int| 0 <= j < MAX_HANDLES && (#[trigger] task.handles.view()[j]) is None,
        ensures
            final(self).wf(),
            final(self).spec_current() == old(self).spec_current(),
            match r {
                Ok(id) => {
                    &&& id.0 < MAX_TASKS
                    &&& old(self).spec_tasks()[id.0 as int] is None
                    &&& forall|j: int| 0 <= j < id.0 ==> (#[trigger] old(self).spec_tasks()[j]) is Some
                    &&& final(self).spec_ready() == old(self).spec_ready().push(id)
                    &&& final(self).spec_tasks()[id.0 as int] matches Some(t) && {
                        &&& t.id == id
                        &&& t.state == ThreadState::Ready
                        &&& t.as_id == task.as_id
                        &&& t.kernel_stack == task.kernel_stack
                        &&& t.context == task.context
                        &&& t.mailbox == task.mailbox
                        &&& t.handles.wf()
                        &&& exists|h: int| first_empty_handle(task.handles.view(), h) && t.handles.view() == task.handles.view().update(
                            h,
                            Some(Handle { object: KernelObject::Thread(id), rights: Rights(full_rights()) }),
                        )
                    }
                    &&& forall|j: int| 0 <= j < MAX_TASKS && j != id.0 ==> #[trigger] final(self).spec_tasks()[j] == old(self).spec_tasks()[j]
                },
                Err(t) => {
                    &&& t == task
                    &&& forall|j: int| 0 <= j < MAX_TASKS ==> (#[trigger] old(self).spec_tasks()[j]) is Some
                    &&& final(self).spec_tasks() == old(self).spec_tasks()
                    &&& final(self).spec_ready() == old(self).spec_ready()
                },
            },
    {
        let i = match self.free_slot() {
            Some(i) => i,
            None => return Err(task),
        };
        let id = TaskId(i);
        let mut task = task;
        task.id = id;
        let rights = Rights(crate::task::tcb::RIGHT_READ).bitor(Rights(crate::task::tcb::RIGHT_WRITE)).bitor(
            Rights(crate::task::tcb::RIGHT_EXECUTE),
        );
        let ghost before = task.handles.view();
        let pushed = task.handles.push(Handle { object: KernelObject::Thread(id), rights });
        proof {
            if pushed is Err {
                let j = choose|j: int| 0 <= j < MAX_HANDLES && (#[trigger] before[j]) is None;
                assert(before[j] is Some);
            }
        }
        task.state = ThreadState::Ready;
        self.tasks.set(i, Some(task));
        proof {
            assert forall|k: int| 0 <= k < self.ready.view().len() implies (#[trigger] self.ready.view()[k]) != id by {
                let q = self.ready.view()[k];
                assert(old(self).spec_tasks()[q.0 as int] is Some);
            }
            lemma_distinct_ids_short(self.ready.view(), id);
        }
        let ghost q0 = self.ready.view();
        let queued = self.ready.push_back(id);
        proof {
            assert(queued);
            assert(self.spec_ready() == q0.push(id));
            assert(!q0.contains(id)) by {
                if q0.contains(id) {
                    let k = choose|k: int| 0 <= k < q0.len() && q0[k] == id;
                    assert(q0[k] != id);
                }
            }
            assert forall|a: int, b: int| 0 <= a < self.spec_ready().len() && 0 <= b < self.spec_ready().len() && a != b
                implies self.spec_ready()[a] != self.spec_ready()[b] by {
                if a < q0.len() && b < q0.len() {
                    assert(q0[a] != q0[b]);
                }
            }
            if let Some(c) = self.current {
                assert(c != id);
                assert(!self.spec_ready().contains(c)) by {
                    if self.spec_ready().contains(c) {
                        let k = choose|k: int| 0 <= k < self.spec_ready().len() && self.spec_ready()[k] == c;
                        if k < q0.len() {
                            assert(q0.contains(c));
                        }
                    }
                }
            }
            match pushed {
                Ok(h) => {
                    assert(first_empty_handle(before, h as int));
                },
                Err(_) => {},
            }
        }
        Ok(id)
    }

    /// The switch from thread `c` to thread `n`.
    pub open spec fn spec_switch(&self, c: TaskId, n: TaskId) -> Switch {
        let ct = self.spec_tasks()[c.0 as int]->Some_0;
        let nt = self.spec_tasks()[n.0 as int]->Some_0;
        Switch {
            previous: Some(c),
            next: n,
            next_as_id: nt.as_id,
            next_kernel_stack: nt.kernel_stack.spec_top(),
            activate_address_space: nt.as_id != ct.as_id,
        }
    }

    fn make_switch(&self, current_id: TaskId, next_id: TaskId) -> (r: Switch)
        requires
            current_id != next_id,
            current_id.0 < self.tasks@.len(),
            next_id.0 < self.tasks@.len(),
            self.tasks@[current_id.0 as int] is Some,
            self.tasks@[next_id.0 as int] is Some,
        ensures
            r == self.spec_switch(current_id, next_id),
    {
        let (prev_as_id, next_as_id, next_kernel_stack) = match (&self.tasks[current_id.0], &self.tasks[next_id.0]) {
            (Some(c), Some(n)) => (c.as_id, n.as_id, n.kernel_stack.top()),
            _ => (AddressSpaceId(0), AddressSpaceId(0), VirtualAddr(0)),
        };
        Switch {
            previous: Some(current_id),
            next: next_id,
            next_as_id,
            next_kernel_stack,
            activate_address_space: next_as_id.0 != prev_as_id.0,
        }
    }

    /// Moves the running thread `c` to state `state` and runs the first
    /// ready thread `n`, which leaves the queue.
    fn hand_over(&mut self, c: TaskId, state: ThreadState) -> (r: Option<Switch>)
        requires
            old(self).wf(),
            old(self).spec_current() == Some(c),
            !(state is Running),
        ensures
            old(self).spec_ready().len() == 0 ==> r is None && *final(self) == *old(self),
            old(self).spec_ready().len() > 0 ==> {
                let n = old(self).spec_ready()[0];
                &&& r == Some(old(self).spec_switch(c, n))
                &&& final(self).spec_current() == Some(n)
                &&& final(self).spec_ready() == old(self).spec_ready().drop_first()
                &&& final(self).spec_tasks() == old(self).spec_tasks().update(
                    c.0 as int,
                    Some(with_state(old(self).spec_tasks()[c.0 as int]->Some_0, state)),
                ).update(n.0 as int, Some(with_state(old(self).spec_tasks()[n.0 as int]->Some_0, ThreadState::Running)))
                &&& n != c
            },
            final(self).queue_ok(),
            final(self).spec_tasks().len() == MAX_TASKS,
    {
        let ghost q0 = self.ready.view();
        let next_id = match self.ready.pop_front() {
            Some(n) => n,
            None => return None,
        };
        proof {
            assert(q0[0] == next_id);
            assert(q0.contains(next_id));
        }
        let switch = self.make_switch(c, next_id);
        self.set_state(c.0, state);
        self.set_state(next_id.0, ThreadState::Running);
        self.current = Some(next_id);
        Some(switch)
    }

    /// The ready queue and states after thread `c` gives way to `n`: `c`
    /// leaves the running state, `n` runs, and `q` is the new queue.
    proof fn lemma_hand_over_wf(old_s: Scheduler, new_s: Scheduler, c: TaskId, n: TaskId, state: ThreadState)
        requires
            old_s.wf(),
            old_s.spec_current() == Some(c),
            old_s.spec_ready().len() > 0,
            n == old_s.spec_ready()[0],
            n != c,
            new_s.queue_ok(),
            new_s.spec_current() == Some(n),
            new_s.spec_ready() == old_s.spec_ready().drop_first(),
            new_s.spec_tasks() == old_s.spec_tasks().update(
                c.0 as int,
                Some(with_state(old_s.spec_tasks()[c.0 as int]->Some_0, state)),
            ).update(n.0 as int, Some(with_state(old_s.spec_tasks()[n.0 as int]->Some_0, ThreadState::Running))),
        ensures
            new_s.wf(),
    {
        let q0 = old_s.spec_ready();
        let q = new_s.spec_ready();
        assert(q.no_duplicates()) by {
            assert forall|a: int, b: int| 0 <= a < q.len() && 0 <= b < q.len() && a != b implies q[a] != q[b] by {
                assert(q0[a + 1] != q0[b + 1]);
            }
        }
        assert forall|k: int| 0 <= k < q.len() implies {
            let id = #[trigger] q[k];
            &&& id.0 < MAX_TASKS
            &&& new_s.spec_tasks()[id.0 as int] matches Some(t) && t.state == ThreadState::Ready
        } by {
            assert(q[k] == q0[k + 1]);
            assert(q0[k + 1] != q0[0]);
            assert(q0[k + 1] != c) by {
                assert(q0.contains(q0[k + 1]));
            }
        }
        assert(!q.contains(n)) by {
            if q.contains(n) {
                let k = choose|k: int| 0 <= k < q.len() && q[k] == n;
                assert(q0[k + 1] != q0[0]);
            }
        }
    }

    /// Gives the processor to the first ready thread and queues the running
    /// one last; with no other thread ready, nothing changes and the running
    /// thread goes on.
    pub fn yield_current(&mut self) -> (r: Option<Switch>)
        requires
            old(self).wf(),
            old(self).spec_current() is Some,
        ensures
            final(self).wf(),
            old(self).spec_ready().len() == 0 ==> r is None && *final(self) == *old(self),
            old(self).spec_ready().len() > 0 ==> {
                let c = old(self).spec_current()->Some_0;
                let n = old(self).spec_ready()[0];
                &&& r == Some(old(self).spec_switch(c, n))
                &&& final(self).spec_current() == Some(n)
                &&& final(self).spec_ready() == old(self).spec_ready().drop_first().push(c)
                &&& final(self).spec_tasks() == old(self).spec_tasks().update(
                    c.0 as int,
                    Some(with_state(old(self).spec_tasks()[c.0 as int]->Some_0, ThreadState::Ready)),
                ).update(n.0 as int, Some(with_state(old(self).spec_tasks()[n.0 as int]->Some_0, ThreadState::Running)))
            },
    {
        let c = self.current();
        let ghost s0 = *self;
        let r = self.hand_over(c, ThreadState::Ready);
        if r.is_none() {
            return r;
        }
        let ghost s1 = *self;
        proof {
            let n = s0.spec_ready()[0];
            Self::lemma_hand_over_wf(s0, s1, c, n, ThreadState::Ready);
            self.lemma_queue_len();
            assert forall|k: int| 0 <= k < s1.spec_ready().len() implies (#[trigger] s1.spec_ready()[k]) != c by {
                assert(s0.spec_ready()[k + 1] != c) by {
                    assert(s0.spec_ready().contains(s0.spec_ready()[k + 1]));
                }
            }
            lemma_distinct_ids_short(s1.spec_ready(), c);
        }
        let queued = self.ready.push_back(c);
        proof {
            assert(queued);
            let q1 = s1.spec_ready();
            let q = self.spec_ready();
            assert(!q1.contains(c)) by {
                if q1.contains(c) {
                    let k = choose|k: int| 0 <= k < q1.len() && q1[k] == c;
                    assert(q1[k] != c);
                }
            }
            assert(q.no_duplicates()) by {
                assert forall|a: int, b: int| 0 <= a < q.len() && 0 <= b < q.len() && a != b implies q[a] != q[b] by {
                    if a < q1.len() && b < q1.len() {
                        assert(q1[a] != q1[b]);
                    }
                }
            }
            let n = s0.spec_ready()[0];
            assert(!q.contains(n)) by {
                if q.contains(n) {
                    let k = choose|k: int| 0 <= k < q.len() && q[k] == n;
                    if k < q1.len() {
                        assert(q1.contains(n));
                    }
                }
            }
        }
        r
    }

    /// Blocks the running thread for `reason` and runs the first ready
    /// thread. With no thread ready, nothing changes and `None` says that
    /// every thread waits.
    pub fn block_current(&mut self, reason: BlockReason) -> (r: Option<Switch>)
        requires
            old(self).wf(),
            old(self).spec_current() is Some,
        ensures
            final(self).wf(),
            old(self).spec_ready().len() == 0 ==> r is None && *final(self) == *old(self),
            old(self).spec_ready().len() > 0 ==> {
                let c = old(self).spec_current()->Some_0;
                let n = old(self).spec_ready()[0];
                &&& r == Some(old(self).spec_switch(c, n))
                &&& final(self).spec_current() == Some(n)
                &&& final(self).spec_ready() == old(self).spec_ready().drop_first()
                &&& final(self).spec_tasks() == old(self).spec_tasks().update(
                    c.0 as int,
                    Some(with_state(old(self).spec_tasks()[c.0 as int]->Some_0, ThreadState::Blocked(reason))),
                ).update(n.0 as int, Some(with_state(old(self).spec_tasks()[n.0 as int]->Some_0, ThreadState::Running)))
            },
    {
        let c = self.current();
        let ghost s0 = *self;
        let r = self.hand_over(c, ThreadState::Blocked(reason));
        proof {
            if r is Some {
                Self::lemma_hand_over_wf(s0, *self, c, s0.spec_ready()[0], ThreadState::Blocked(reason));
            }
        }
        r
    }

    /// Ends the running thread for `reason` and runs the first ready thread.
    /// With no thread ready, nothing changes and `None` says that no thread
    /// is left to run.
    pub fn exit_current(&mut self, reason: ExitReason) -> (r: Option<Switch>)
        requires
            old(self).wf(),
            old(self).spec_current() is Some,
        ensures
            final(self).wf(),
            old(self).spec_ready().len() == 0 ==> r is None && *final(self) == *old(self),
            old(self).spec_ready().len() > 0 ==> {
                let c = old(self).spec_current()->Some_0;
                let n = old(self).spec_ready()[0];
                &&& r == Some(old(self).spec_switch(c, n))
                &&& final(self).spec_current() == Some(n)
                &&& final(self).spec_ready() == old(self).spec_ready().drop_first()
                &&& final(self).spec_tasks() == old(self).spec_tasks().update(
                    c.0 as int,
                    Some(with_state(old(self).spec_tasks()[c.0 as int]->Some_0, ThreadState::Dead(reason))),
                ).update(n.0 as int, Some(with_state(old(self).spec_tasks()[n.0 as int]->Some_0, ThreadState::Running)))
            },
    {
        let c = self.current();
        let ghost s0 = *self;
        let r = self.hand_over(c, ThreadState::Dead(reason));
        proof {
            if r is Some {
                Self::lemma_hand_over_wf(s0, *self, c, s0.spec_ready()[0], ThreadState::Dead(reason));
            }
        }
        r
    }

    /// Makes a blocked thread `id` ready again, queued last; any other
    /// thread is left as it is.
    pub fn unblock(&mut self, id: TaskId)
        requires
            old(self).wf(),
            id.0 < MAX_TASKS,
        ensures
            final(self).wf(),
            final(self).spec_current() == old(self).spec_current(),
            match old(self).spec_tasks()[id.0 as int] {
                Some(t) if t.state is Blocked => {
                    &&& final(self).spec_ready() == old(self).spec_ready().push(id)
                    &&& final(self).spec_tasks() == old(self).spec_tasks().update(
                        id.0 as int,
                        Some(with_state(t, ThreadState::Ready)),
                    )
                },
                _ => *final(self) == *old(self),
            },
    {
        let blocked = match &self.tasks[id.0] {
            Some(t) => match t.state {
                ThreadState::Blocked(_) => true,
                _ => false,
            },
            None => false,
        };
        if !blocked {
            return;
        }
        let ghost s0 = *self;
        proof {
            assert forall|k: int| 0 <= k < s0.spec_ready().len() implies (#[trigger] s0.spec_ready()[k]) != id by {
            }
            lemma_distinct_ids_short(s0.spec_ready(), id);
        }
        self.set_state(id.0, ThreadState::Ready);
        let queued = self.ready.push_back(id);
        proof {
            assert(queued);
            let q0 = s0.spec_ready();
            let q = self.spec_ready();
            assert(!q0.contains(id)) by {
                if q0.contains(id) {
                    let k = choose|k: int| 0 <= k < q0.len() && q0[k] == id;
                    assert(q0[k] != id);
                }
            }
            assert(q.no_duplicates()) by {
                assert forall|a: int, b: int| 0 <= a < q.len() && 0 <= b < q.len() && a != b implies q[a] != q[b] by {
                    if a < q0.len() && b < q0.len() {
                        assert(q0[a] != q0[b]);
                    }
                }
            }
            if let Some(c) = s0.spec_current() {
                assert(!q.contains(c)) by {
                    if q.contains(c) {
                        let k = choose|k: int| 0 <= k < q.len() && q[k] == c;
                        if k < q0.len() {
                            assert(q0.contains(c));
                        }
                    }
                }
            }
        }
    }

    /// Runs the first ready thread from the boot context.
    pub fn start(&mut self) -> (r: Switch)
        requires
            old(self).wf(),
            old(self).spec_current() is None,
            old(self).spec_ready().len() > 0,
        ensures
            final(self).wf(),
            ({
                let n = old(self).spec_ready()[0];
                let nt = old(self).spec_tasks()[n.0 as int]->Some_0;
                &&& r == Switch {
                    previous: None,
                    next: n,
                    next_as_id: nt.as_id,
                    next_kernel_stack: nt.kernel_stack.spec_top(),
                    activate_address_space: true,
                }
                &&& final(self).spec_current() == Some(n)
                &&& final(self).spec_ready() == old(self).spec_ready().drop_first()
                &&& final(self).spec_tasks() == old(self).spec_tasks().update(n.0 as int, Some(with_state(nt, ThreadState::Running)))
            }),
    {
        let ghost q0 = self.ready.view();
        let next_id = match self.ready.pop_front() {
            Some(n) => n,
            None => TaskId(0),
        };
        proof {
            assert(q0[0] == next_id);
        }
        let (next_as_id, next_kernel_stack) = match &self.tasks[next_id.0] {
            Some(t) => (t.as_id, t.kernel_stack.top()),
            None => (AddressSpaceId(0), VirtualAddr(0)),
        };
        self.set_state(next_id.0, ThreadState::Running);
        self.current = Some(next_id);
        proof {
            let q = self.spec_ready();
            assert(q.no_duplicates()) by {
                assert forall|a: int, b: int| 0 <= a < q.len() && 0 <= b < q.len() && a != b implies q[a] != q[b] by {
                    assert(q0[a + 1] != q0[b + 1]);
                }
            }
            assert forall|k: int| 0 <= k < q.len() implies {
                let id = #[trigger] q[k];
                &&& id.0 < MAX_TASKS
                &&& self.spec_tasks()[id.0 as int] matches Some(t) && t.state == ThreadState::Ready
            } by {
                assert(q0[k + 1] != q0[0]);
            }
            assert(!q.contains(next_id)) by {
                if q.contains(next_id) {
                    let k = choose|k: int| 0 <= k < q.len() && q[k] == next_id;
                    assert(q0[k + 1] != q0[0]);
                }
            }
        }
        Switch { previous: None, next: next_id, next_as_id, next_kernel_stack, activate_address_space: true }
    }

    /// Takes thread `id` out of the scheduler, unless it is the running
    /// one or there is no such thread; says whether it did.
    pub fn remove_task(&mut self, id: TaskId) -> (r: bool)
        requires
            old(self).wf(),
        ensures
            final(self).wf(),
            final(self).spec_current() == old(self).spec_current(),
            r == (old(self).spec_current() != Some(id) && id.0 < MAX_TASKS && old(self).spec_tasks()[id.0 as int] is Some),
            !r ==> *final(self) == *old(self),
            r ==> final(self).spec_tasks() == old(self).spec_tasks().update(id.0 as int, None),
            r ==> !final(self).spec_ready().contains(id),
            r ==> (old(self).spec_ready().contains(id) ==> exists|i: int|
                0 <= i < old(self).spec_ready().len() && old(self).spec_ready()[i] == id && final(self).spec_ready()
                    == old(self).spec_ready().remove(i)),
            r ==> (!old(self).spec_ready().contains(id) ==> final(self).spec_ready() == old(self).spec_ready()),
    {
        if let Some(c) = self.current {
            if c == id {
                return false;
            }
        }
        if id.0 >= MAX_TASKS {
            return false;
        }
        if self.tasks[id.0].is_none() {
            return false;
        }
        let ghost q0 = self.ready.view();
        let _removed = self.take_task(id.0);
        let was_queued = self.ready.remove(id);
        proof {
            let q = self.spec_ready();
            if was_queued {
                let i = choose|i: int| 0 <= i < q0.len() && q0[i] == id && (forall|j: int| 0 <= j < i ==> q0[j] != id) && q == q0.remove(i);
                assert(q.no_duplicates()) by {
                    assert forall|a: int, b: int| 0 <= a < q.len() && 0 <= b < q.len() && a != b implies q[a] != q[b] by {
                        let a2 = if a < i { a } else { a + 1 };
                        let b2 = if b < i { b } else { b + 1 };
                        assert(q0[a2] != q0[b2]);
                    }
                }
                assert forall|k: int| 0 <= k < q.len() implies {
                    let t = #[trigger] q[k];
                    &&& t.0 < MAX_TASKS
                    &&& self.spec_tasks()[t.0 as int] matches Some(x) && x.state == ThreadState::Ready
                } by {
                    let k2 = if k < i { k } else { k + 1 };
                    assert(q[k] == q0[k2]);
                    assert(q0[k2] != q0[i]);
                }
                assert(!q.contains(id)) by {
                    if q.contains(id) {
                        let k = choose|k: int| 0 <= k < q.len() && q[k] == id;
                        let k2 = if k < i { k } else { k + 1 };
                        assert(q0[k2] != q0[i]);
                    }
                }
                if let Some(c) = self.current {
                    assert(!q.contains(c)) by {
                        if q.contains(c) {
                            let k = choose|k: int| 0 <= k < q.len() && q[k] == c;
                            let k2 = if k < i { k } else { k + 1 };
                            assert(q0.contains(q0[k2]));
                        }
                    }
                }
            } else {
                assert forall|k: int| 0 <= k < q.len() implies {
                    let t = #[trigger] q[k];
                    &&& t.0 < MAX_TASKS
                    &&& self.spec_tasks()[t.0 as int] matches Some(x) && x.state == ThreadState::Ready
                } by {
                    assert(q0.contains(q[k]));
                }
            }
        }
        true
    }

    /// Puts `handle` in the first empty slot of thread `id`'s handle table
    /// and returns its number; hands `handle` back when the table is full.
    pub fn push_handle(&mut self, id: TaskId, handle: Handle) -> (r: Result<usize, Handle>)
        requires
            old(self).wf(),
            id.0 < MAX_TASKS,
            old(self).spec_tasks()[id.0 as int] is Some,
        ensures
            final(self).wf(),
            final(self).spec_current() == old(self).spec_current(),
            final(self).spec_ready() == old(self).spec_ready(),
            ({
                let t0 = old(self).spec_tasks()[id.0 as int]->Some_0;
                match r {
                    Ok(i) => first_empty_handle(t0.handles.view(), i as int) && (final(self).spec_tasks()[id.0 as int] matches Some(t)
                        && t.handles.view() == t0.handles.view().update(i as int, Some(handle)) && t.id == t0.id && t.state == t0.state
                        && t.as_id == t0.as_id && t.mailbox == t0.mailbox && t.kernel_stack == t0.kernel_stack && t.context == t0.context),
                    Err(h) => h == handle && final(self).spec_tasks() == old(self).spec_tasks() && forall|j: int|
                        0 <= j < MAX_HANDLES ==> (#[trigger] t0.handles.view()[j]) is Some,
                }
            }),
            forall|j: int| 0 <= j < MAX_TASKS && j != id.0 ==> #[trigger] final(self).spec_tasks()[j] == old(self).spec_tasks()[j],
    {
        let ghost s0 = *self;
        match self.take_task(id.0) {
            Some(mut t) => {
                let r = t.handles.push(handle);
                match r {
                    Ok(i) => {
                        self.tasks.set(id.0, Some(t));
                        Ok(i)
                    },
                    Err(h) => {
                        self.tasks.set(id.0, Some(t));
                        proof {
                            assert(self.tasks@ =~= s0.tasks@);
                        }
                        Err(h)
                    },
                }
            },
            None => Err(handle),
        }
    }

    /// Queues `msg` in thread `id`'s mailbox unless it is full; says whether
    /// it did.
    pub fn push_message(&mut self, id: TaskId, msg: Message) -> (r: bool)
        requires
            old(self).wf(),
            id.0 < MAX_TASKS,
            old(self).spec_tasks()[id.0 as int] is Some,
        ensures
            final(self).wf(),
            final(self).spec_current() == old(self).spec_current(),
            final(self).spec_ready() == old(self).spec_ready(),
            ({
                let t0 = old(self).spec_tasks()[id.0 as int]->Some_0;
                &&& r == (t0.mailbox.view().len() < MAILBOX_CAPACITY)
                &&& final(self).spec_tasks()[id.0 as int] matches Some(t) && t.id == t0.id && t.state == t0.state && t.as_id == t0.as_id
                    && t.handles == t0.handles && t.kernel_stack == t0.kernel_stack && t.context == t0.context
                    && t.mailbox.view() == if r {
                    t0.mailbox.view().push(msg)
                } else {
                    t0.mailbox.view()
                }
            }),
            forall|j: int| 0 <= j < MAX_TASKS && j != id.0 ==> #[trigger] final(self).spec_tasks()[j] == old(self).spec_tasks()[j],
    {
        match self.take_task(id.0) {
            Some(mut t) => {
                let r = t.mailbox.push(msg);
                self.tasks.set(id.0, Some(t));
                r
            },
            None => false,
        }
    }

    /// Takes the oldest message from thread `id`'s mailbox.
    pub fn pop_message(&mut self, id: TaskId) -> (r: Option<Message>)
        requires
            old(self).wf(),
            id.0 < MAX_TASKS,
            old(self).spec_tasks()[id.0 as int] is Some,
        ensures
            final(self).wf(),
            final(self).spec_current() == old(self).spec_current(),
            final(self).spec_ready() == old(self).spec_ready(),
            ({
                let t0 = old(self).spec_tasks()[id.0 as int]->Some_0;
                &&& t0.mailbox.view().len() == 0 ==> r is None
                &&& t0.mailbox.view().len() > 0 ==> r == Some(t0.mailbox.view()[0])
                &&& final(self).spec_tasks()[id.0 as int] matches Some(t) && t.id == t0.id && t.state == t0.state && t.as_id == t0.as_id
                    && t.handles == t0.handles && t.kernel_stack == t0.kernel_stack && t.context == t0.context
                    && t.mailbox.view() == if t0.mailbox.view().len() > 0 {
                    t0.mailbox.view().drop_first()
                } else {
                    t0.mailbox.view()
                }
            }),
            forall|j: int| 0 <= j < MAX_TASKS && j != id.0 ==> #[trigger] final(self).spec_tasks()[j] == old(self).spec_tasks()[j],
    {
        match self.take_task(id.0) {
            Some(mut t) => {
                let r = t.mailbox.pop();
                self.tasks.set(id.0, Some(t));
                r
            },
            None => None,
        }
    }
}

/// A thread made by [`Tcb::new_user`] and taken in by
/// [`Scheduler::add_task`] holds its address space as handle
/// [`crate::syscall::SELF_AS`] and itself as handle
/// [`crate::syscall::SELF_THREAD`].
pub proof fn lemma_new_thread_self_handles(made: Tcb, added: Tcb, a: AddressSpaceId, id: TaskId, h: int)
    requires
        made.handles.view().len() == MAX_HANDLES,
        made.handles.view()[0] matches Some(x) && x.object == KernelObject::AddressSpace(a),
        forall|i: int| 1 <= i < MAX_HANDLES ==> (#[trigger] made.handles.view()[i]) is None,
        first_empty_handle(made.handles.view(), h),
        added.handles.view() == made.handles.view().update(
            h,
            Some(Handle { object: KernelObject::Thread(id), rights: Rights(full_rights()) }),
        ),
    ensures
        added.handles.view()[crate::syscall::SELF_AS as int] matches Some(x) && x.object == KernelObject::AddressSpace(a),
        added.handles.view()[crate::syscall::SELF_THREAD as int] matches Some(x) && x.object == KernelObject::Thread(id),
{
    assert(h == 1) by {
        if h > 1 {
            assert(made.handles.view()[1] is None);
        }
        assert(made.handles.view()[0] is Some);
    }
}

} // verus!
