use dusk::arch::paging::{CpuFeatures, PagingConfig};
use dusk::memory::address_space::{AddressSpace, AddressSpaceId};
use dusk::memory::stack::{KERNEL_STACK_TOP, KernelStack};
use dusk::memory::{
    DirectMap, FrameAllocator, KernelMemoryLayout, KernelSegment, MemoryRegion, MemoryRegionKind, PagePermissions, PhysicalAddr,
    PhysicalMemory, VirtualAddr,
};
use dusk::task::scheduler::{ReadyQueue, Scheduler, TaskId};
use dusk::task::tcb::{
    BlockReason, ExitReason, Handle, HandleTable, KernelObject, MAILBOX_CAPACITY, MAX_HANDLES, MAX_MSG_SIZE, Mailbox, Message,
    Rights, Tcb, ThreadState,
};

const HHDM: u64 = 0xffff_8000_0000_0000;
const KERNEL_BASE: u64 = 0xffff_ffff_8000_0000;

fn config() -> PagingConfig {
    PagingConfig::from_features(CpuFeatures {
        nx_supported: true,
        nx_enabled: true,
        global_pages: true,
        physical_address_bits: 40,
        virtual_address_bits: 48,
        five_level_paging_active: false,
    })
}

fn regions() -> Vec<MemoryRegion> {
    vec![
        MemoryRegion { start: PhysicalAddr(0), length: 96 * 4096, kind: MemoryRegionKind::Usable },
        MemoryRegion { start: PhysicalAddr(96 * 4096), length: 8 * 4096, kind: MemoryRegionKind::KernelAndModules },
    ]
}

fn layout() -> KernelMemoryLayout {
    KernelMemoryLayout {
        segments: [
            KernelSegment {
                physical_base: PhysicalAddr(96 * 4096),
                virtual_base: VirtualAddr(KERNEL_BASE),
                length: 3 * 4096,
                permissions: PagePermissions::new(false, true, false),
            },
            KernelSegment {
                physical_base: PhysicalAddr(99 * 4096),
                virtual_base: VirtualAddr(KERNEL_BASE + 3 * 4096),
                length: 2 * 4096,
                permissions: PagePermissions::new(false, false, false),
            },
            KernelSegment {
                physical_base: PhysicalAddr(101 * 4096),
                virtual_base: VirtualAddr(KERNEL_BASE + 5 * 4096),
                length: 3 * 4096,
                permissions: PagePermissions::new(true, false, false),
            },
        ],
    }
}

fn boot() -> (PhysicalMemory, FrameAllocator, AddressSpace) {
    let mut mem = PhysicalMemory::new(104);
    let dm = DirectMap::new(HHDM);
    let regions = regions();
    let mut allocator = match FrameAllocator::new(&regions, dm) {
        Ok(a) => a,
        Err(e) => panic!("allocator: {:?}", e),
    };
    let space = AddressSpace::new_kernel(dm, &regions, &layout(), config(), &mut allocator, &mut mem).unwrap();
    (mem, allocator, space)
}

fn task(as_id: usize) -> Tcb {
    let (mut mem, mut allocator, mut kernel) = boot();
    let stack = KernelStack::allocate(&mut kernel, &mut mem, &mut allocator).ok().unwrap();
    Tcb::new_user(AddressSpaceId(as_id), stack, VirtualAddr(0x40_1000), VirtualAddr(0x7fff_ffff_f000), &kernel, &mut mem, 0)
}

fn message(sender: usize, first: u8) -> Message {
    let mut data = [0u8; MAX_MSG_SIZE];
    data[0] = first;
    Message { sender: TaskId(sender), length: 1, data }
}

fn state(s: &Scheduler, id: usize) -> ThreadState {
    s.task(TaskId(id)).unwrap().state
}

#[test]
fn ready_queue_is_first_in_first_out() {
    let mut q = ReadyQueue::new();
    assert!(q.push_back(TaskId(3)));
    assert!(q.push_back(TaskId(1)));
    assert!(q.push_back(TaskId(2)));
    assert!(q.remove(TaskId(1)));
    assert!(!q.remove(TaskId(9)));
    assert_eq!(q.pop_front(), Some(TaskId(3)));
    assert_eq!(q.pop_front(), Some(TaskId(2)));
    assert_eq!(q.pop_front(), None);
}

#[test]
fn ready_queue_holds_at_most_max_tasks() {
    let mut q = ReadyQueue::new();
    for i in 0..32 {
        assert!(q.push_back(TaskId(i)));
    }
    assert!(!q.push_back(TaskId(99)));
    assert_eq!(q.pop_front(), Some(TaskId(0)));
    assert!(q.push_back(TaskId(99)));
}

#[test]
fn mailbox_is_first_in_first_out_and_bounded() {
    let mut m = Mailbox::new();
    for i in 0..MAILBOX_CAPACITY {
        assert!(m.push(message(0, i as u8)));
    }
    assert!(!m.push(message(0, 99)));
    for i in 0..MAILBOX_CAPACITY {
        assert_eq!(m.pop().unwrap().data[0], i as u8);
    }
    assert!(m.pop().is_none());
}

#[test]
fn handle_table_fills_the_first_empty_slot() {
    let mut t = HandleTable::new();
    let h = |i: usize| Handle { object: KernelObject::AddressSpace(AddressSpaceId(i)), rights: Rights(1) };
    assert_eq!(t.push(h(0)).ok(), Some(0));
    assert_eq!(t.push(h(1)).ok(), Some(1));
    assert!(t.take(0).is_some());
    assert_eq!(t.push(h(2)).ok(), Some(0));
    assert!(t.put(1, h(3)).is_err());
    assert!(t.put(5, h(3)).is_ok());
    assert!(t.get(5).is_some());
    assert!(t.get(MAX_HANDLES).is_none());
    assert!(t.remove(MAX_HANDLES + 1).is_none());
    for _ in 0..MAX_HANDLES - 3 {
        assert!(t.push(h(9)).is_ok());
    }
    assert!(t.push(h(10)).is_err());
}

#[test]
fn rights_combine_bitwise() {
    let r = Rights(1).bitor(Rights(4));
    assert_eq!(r, Rights(5));
    assert!(r.contains(Rights(4)));
    assert!(!r.contains(Rights(2)));
}

#[test]
fn new_user_thread_is_ready_with_its_address_space_handle() {
    let t = task(7);
    assert_eq!(t.state, ThreadState::Ready);
    assert_eq!(t.context.rsp, KERNEL_STACK_TOP - 56);
    match &t.handles.get(0).unwrap().object {
        KernelObject::AddressSpace(a) => assert_eq!(*a, AddressSpaceId(7)),
        _ => panic!("handle 0 is not the address space"),
    }
    assert_eq!(t.handles.get(0).unwrap().rights, Rights(7));
    assert!(t.handles.get(1).is_none());
}

#[test]
fn scheduler_runs_threads_round_robin() {
    let mut s = Scheduler::new();
    assert_eq!(s.add_task(task(0)).ok(), Some(TaskId(0)));
    assert_eq!(s.add_task(task(1)).ok(), Some(TaskId(1)));
    assert_eq!(s.add_task(task(1)).ok(), Some(TaskId(2)));
    let sw = s.start();
    assert_eq!(sw.previous, None);
    assert_eq!(sw.next, TaskId(0));
    assert!(sw.activate_address_space);
    assert_eq!(s.current(), TaskId(0));
    let sw = s.yield_current().unwrap();
    assert_eq!(sw.previous, Some(TaskId(0)));
    assert_eq!(sw.next, TaskId(1));
    assert!(sw.activate_address_space);
    let sw = s.yield_current().unwrap();
    assert_eq!(sw.next, TaskId(2));
    // Threads 1 and 2 share an address space.
    assert!(!sw.activate_address_space);
    assert_eq!(s.yield_current().unwrap().next, TaskId(0));
    assert_eq!(state(&s, 0), ThreadState::Running);
    assert_eq!(state(&s, 1), ThreadState::Ready);
}

#[test]
fn a_thread_added_gets_a_handle_on_itself() {
    let mut s = Scheduler::new();
    let id = s.add_task(task(0)).ok().unwrap();
    match &s.task(id).unwrap().handles.get(1).unwrap().object {
        KernelObject::Thread(t) => assert_eq!(*t, id),
        _ => panic!("handle 1 is not the thread"),
    }
}

#[test]
fn yield_with_nothing_else_ready_keeps_running() {
    let mut s = Scheduler::new();
    s.add_task(task(0)).ok().unwrap();
    s.start();
    assert!(s.yield_current().is_none());
    assert_eq!(s.current(), TaskId(0));
}

#[test]
fn blocking_and_unblocking() {
    let mut s = Scheduler::new();
    s.add_task(task(0)).ok().unwrap();
    s.add_task(task(1)).ok().unwrap();
    s.start();
    let sw = s.block_current(BlockReason::Recv).unwrap();
    assert_eq!(sw.next, TaskId(1));
    assert_eq!(state(&s, 0), ThreadState::Blocked(BlockReason::Recv));
    // Nothing else is ready: blocking now would leave no thread to run.
    assert!(s.block_current(BlockReason::Recv).is_none());
    assert_eq!(s.current(), TaskId(1));
    s.unblock(TaskId(0));
    assert_eq!(state(&s, 0), ThreadState::Ready);
    assert_eq!(s.yield_current().unwrap().next, TaskId(0));
    // Unblocking a thread that is not blocked changes nothing.
    s.unblock(TaskId(1));
    assert_eq!(state(&s, 1), ThreadState::Ready);
}

#[test]
fn exit_and_remove() {
    let mut s = Scheduler::new();
    s.add_task(task(0)).ok().unwrap();
    s.add_task(task(1)).ok().unwrap();
    s.add_task(task(2)).ok().unwrap();
    s.start();
    let sw = s.exit_current(ExitReason::Exited(3)).unwrap();
    assert_eq!(sw.next, TaskId(1));
    assert_eq!(state(&s, 0), ThreadState::Dead(ExitReason::Exited(3)));
    assert!(!s.remove_task(TaskId(1)));
    assert!(s.remove_task(TaskId(2)));
    assert!(s.task(TaskId(2)).is_none());
    assert!(!s.remove_task(TaskId(2)));
    assert!(!s.remove_task(TaskId(40)));
    // Thread 2 is no longer queued.
    assert!(s.yield_current().is_none());
    // Its number is free again.
    assert_eq!(s.add_task(task(0)).ok(), Some(TaskId(2)));
}
