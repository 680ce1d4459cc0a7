use dusk::arch::paging::{CpuFeatures, PagingConfig};
use dusk::memory::address_space::{AddressSpace, AddressSpaceId, AddressSpaceTable};
use dusk::memory::stack::{KERNEL_STACK_STRIDE, KERNEL_STACK_TOP, KernelStack, KernelStackPool};
use dusk::memory::user::check_word_destination;
use dusk::memory::{
    DirectMap, FrameAllocator, KernelMemoryLayout, KernelSegment, MemoryRegion, MemoryRegionKind, PagePermissions, PhysicalAddr,
    PhysicalMemory, VirtualAddr,
};
use dusk::syscall::table::{
    RecvStep, deliver_message, read_message, sys_as_create, sys_write, sys_exit, sys_frame_alloc, sys_frame_dealloc, sys_map, sys_recv, sys_send, sys_task_create, sys_unmap,
    sys_yield,
};
use dusk::syscall::{Status, SyscallNumber, SyscallRequest, handle, result_code};
use dusk::task::scheduler::{Scheduler, TaskId};
use dusk::task::tcb::{BlockReason, ExitReason, KernelObject, MAX_MSG_SIZE, Message, Tcb, ThreadState};

const HHDM: u64 = 0xffff_8000_0000_0000;
const KERNEL_BASE: u64 = 0xffff_ffff_8000_0000;

fn config() -> PagingConfig {
    PagingConfig::from_features(CpuFeatures {
        nx_supported: true,
        nx_enabled: true,
        global_pages: true,
        physical_address_bits: 40,
        virtual_address_bits: 48,
        five_level_paging_active: false,
    })
}

fn regions() -> Vec<MemoryRegion> {
    vec![
        MemoryRegion { start: PhysicalAddr(0), length: 96 * 4096, kind: MemoryRegionKind::Usable },
        MemoryRegion { start: PhysicalAddr(96 * 4096), length: 8 * 4096, kind: MemoryRegionKind::KernelAndModules },
    ]
}

fn layout() -> KernelMemoryLayout {
    KernelMemoryLayout {
        segments: [
            KernelSegment {
                physical_base: PhysicalAddr(96 * 4096),
                virtual_base: VirtualAddr(KERNEL_BASE),
                length: 3 * 4096,
                permissions: PagePermissions::new(false, true, false),
            },
            KernelSegment {
                physical_base: PhysicalAddr(99 * 4096),
                virtual_base: VirtualAddr(KERNEL_BASE + 3 * 4096),
                length: 2 * 4096,
                permissions: PagePermissions::new(false, false, false),
            },
            KernelSegment {
                physical_base: PhysicalAddr(101 * 4096),
                virtual_base: VirtualAddr(KERNEL_BASE + 5 * 4096),
                length: 3 * 4096,
                permissions: PagePermissions::new(true, false, false),
            },
        ],
    }
}

fn boot() -> (PhysicalMemory, FrameAllocator, AddressSpace) {
    let mut mem = PhysicalMemory::new(104);
    let dm = DirectMap::new(HHDM);
    let regions = regions();
    let mut allocator = match FrameAllocator::new(&regions, dm) {
        Ok(a) => a,
        Err(e) => panic!("allocator: {:?}", e),
    };
    let space = AddressSpace::new_kernel(dm, &regions, &layout(), config(), &mut allocator, &mut mem).unwrap();
    (mem, allocator, space)
}

fn task(as_id: usize) -> Tcb {
    let (mut mem, mut allocator, mut kernel) = boot();
    let stack = KernelStack::allocate(&mut kernel, &mut mem, &mut allocator).ok().unwrap();
    Tcb::new_user(AddressSpaceId(as_id), stack, VirtualAddr(0x40_1000), VirtualAddr(0x7fff_ffff_f000), &kernel, &mut mem, 0)
}

/// Two threads, 0 and 1, in address space 0, with thread 0 running.
fn two_threads() -> Scheduler {
    let mut s = Scheduler::new();
    s.add_task(task(0)).ok().unwrap();
    s.add_task(task(0)).ok().unwrap();
    s.start();
    s
}

#[test]
fn decoding_refuses_bad_numbers_and_arguments() {
    assert_eq!(handle(0, 0, 0, 0, 0, 0, 0), Err(Status::InvalidArgument));
    assert_eq!(handle(12, 0, 0, 0, 0, 0, 0), Err(Status::InvalidArgument));
    assert_eq!(handle(3, 5, 0, 0, 0, 0, 0), Err(Status::BadFileDescriptor));
    assert_eq!(handle(4, 1, 0x1000, 129, 0, 0, 0), Err(Status::InvalidArgument));
    assert_eq!(handle(5, 0, 0, 0, 0, 0, 0), Err(Status::InvalidArgument));
    assert_eq!(handle(6, 0, 0, 0, 0, 0, 0), Err(Status::InvalidArgument));
    assert_eq!(handle(8, 0, 0, 0, 0, 0, 0), Err(Status::InvalidArgument));
    assert_eq!(handle(9, 0, 1, 0x1001, 0, 0, 0), Err(Status::InvalidArgument));
    assert_eq!(handle(9, 0, 1, 0x8000_0000_0000, 0, 0, 0), Err(Status::InvalidArgument));
    assert_eq!(handle(10, 0, 0x10, 0, 0, 0, 0), Err(Status::InvalidArgument));
    assert_eq!(handle(11, 0, 0, 0x1000, 8, 0, 0), Err(Status::InvalidArgument));
    assert_eq!(handle(11, 0, 0x8000_0000_0000, 0x1000, 8, 0, 0), Err(Status::BadAddress));
}

#[test]
fn decoding_reads_each_call() {
    assert_eq!(handle(1, 0, 0, 0, 0, 0, 0), Ok(SyscallRequest::Yield));
    assert_eq!(handle(2, 7, 0, 0, 0, 0, 0), Ok(SyscallRequest::Exit { code: 7 }));
    assert_eq!(handle(3, 1, 0x1000, 5, 0, 0, 0), Ok(SyscallRequest::Write { fd: 1, buffer: 0x1000, length: 5, written_out: 0 }));
    assert_eq!(
        handle(9, 2, 3, 0x40_0000, 1, 0, 0),
        Ok(SyscallRequest::MapPage {
            as_handle: 2,
            frame_handle: 3,
            virtual_addr: 0x40_0000,
            permissions: PagePermissions::new(true, false, true),
        })
    );
    assert_eq!(SyscallNumber::try_from(10), Ok(SyscallNumber::Unmap));
}

#[test]
fn result_codes_are_zero_or_the_status_number() {
    assert_eq!(result_code(Ok(())), 0);
    assert_eq!(result_code(Err(Status::InvalidArgument)), 1);
    assert_eq!(result_code(Err(Status::BadAddress)), 2);
    assert_eq!(result_code(Err(Status::BadFileDescriptor)), 3);
    assert_eq!(result_code(Err(Status::NoSuchTask)), 4);
    assert_eq!(result_code(Err(Status::OutOfMemory)), 5);
    assert_eq!(result_code(Err(Status::BadHandle)), 6);
}

#[test]
fn a_message_sent_is_received_in_order_with_its_sender() {
    let mut s = two_threads();
    let mut a = [0u8; MAX_MSG_SIZE];
    a[0] = 1;
    let mut b = [0u8; MAX_MSG_SIZE];
    b[0] = 2;
    assert_eq!(sys_send(&mut s, 1, a, 3), Ok(()));
    assert_eq!(sys_send(&mut s, 1, b, 4), Ok(()));
    sys_yield(&mut s).unwrap();
    assert_eq!(s.current(), TaskId(1));
    match sys_recv(&mut s) {
        RecvStep::Message(m) => {
            assert_eq!(m.sender, TaskId(0));
            assert_eq!(m.length, 3);
            assert_eq!(m.data[0], 1);
        },
        RecvStep::Wait(_) => panic!("a message was queued"),
    }
    match sys_recv(&mut s) {
        RecvStep::Message(m) => assert_eq!(m.data[0], 2),
        RecvStep::Wait(_) => panic!("a message was queued"),
    }
}

#[test]
fn receiving_from_an_empty_mailbox_waits_until_a_send() {
    let mut s = two_threads();
    match sys_recv(&mut s) {
        RecvStep::Wait(Some(sw)) => assert_eq!(sw.next, TaskId(1)),
        _ => panic!("the mailbox is empty"),
    }
    assert_eq!(s.task(TaskId(0)).unwrap().state, ThreadState::Blocked(BlockReason::Recv));
    assert_eq!(sys_send(&mut s, 0, [7u8; MAX_MSG_SIZE], 1), Ok(()));
    assert_eq!(s.task(TaskId(0)).unwrap().state, ThreadState::Ready);
}

#[test]
fn sending_needs_a_thread_and_room() {
    let mut s = two_threads();
    assert_eq!(sys_send(&mut s, 5, [0u8; MAX_MSG_SIZE], 1), Err(Status::NoSuchTask));
    assert_eq!(sys_send(&mut s, 99, [0u8; MAX_MSG_SIZE], 1), Err(Status::NoSuchTask));
    for _ in 0..4 {
        assert_eq!(sys_send(&mut s, 1, [0u8; MAX_MSG_SIZE], 1), Ok(()));
    }
    assert_eq!(sys_send(&mut s, 1, [0u8; MAX_MSG_SIZE], 1), Err(Status::OutOfMemory));
}

#[test]
fn exit_ends_the_thread_and_runs_the_next() {
    let mut s = two_threads();
    let sw = sys_exit(&mut s, 9).unwrap();
    assert_eq!(sw.next, TaskId(1));
    assert_eq!(s.task(TaskId(0)).unwrap().state, ThreadState::Dead(ExitReason::Exited(9)));
    assert!(sys_exit(&mut s, 0).is_none());
}

struct World {
    mem: PhysicalMemory,
    allocator: FrameAllocator,
    kernel: AddressSpace,
    spaces: AddressSpaceTable,
    scheduler: Scheduler,
    stacks: KernelStackPool,
}

/// A thread 0 in user address space 0, running.
fn world() -> World {
    let (mut mem, mut allocator, kernel) = boot();
    let user = kernel.new_user(&mut mem, &mut allocator).unwrap();
    let mut spaces = AddressSpaceTable::new();
    assert_eq!(spaces.insert(user).ok(), Some(AddressSpaceId(0)));
    let mut scheduler = Scheduler::new();
    scheduler.add_task(task(0)).ok().unwrap();
    scheduler.start();
    World { mem, allocator, kernel, spaces, scheduler, stacks: KernelStackPool::new() }
}

#[test]
fn frames_can_be_had_mapped_unmapped_and_returned() {
    let mut w = world();
    // Handle 0 is the thread's address space, 1 the thread itself.
    let frame = sys_frame_alloc(&mut w.scheduler, &mut w.allocator, &mut w.mem).unwrap();
    assert_eq!(frame, 2);
    let p = match &w.scheduler.task(TaskId(0)).unwrap().handles.get(2).unwrap().object {
        KernelObject::Frame(f) => f.frame_address().start_address(),
        _ => panic!("handle 2 is not a frame"),
    };
    let rw = PagePermissions::new(true, false, true);
    assert_eq!(sys_map(&w.scheduler, &mut w.spaces, &mut w.allocator, &mut w.mem, 0, 2, 0x40_0000, rw), Ok(()));
    let space = w.spaces.get(AddressSpaceId(0)).unwrap();
    assert_eq!(space.to_physical(&w.mem, VirtualAddr(0x40_0004)), Some(PhysicalAddr(p.0 + 4)));
    assert_eq!(sys_map(&w.scheduler, &mut w.spaces, &mut w.allocator, &mut w.mem, 0, 2, 0x40_0000, rw), Err(Status::OutOfMemory));
    assert_eq!(sys_map(&w.scheduler, &mut w.spaces, &mut w.allocator, &mut w.mem, 0, 7, 0x40_1000, rw), Err(Status::BadHandle));
    assert_eq!(sys_map(&w.scheduler, &mut w.spaces, &mut w.allocator, &mut w.mem, 2, 2, 0x40_1000, rw), Err(Status::InvalidArgument));
    assert_eq!(sys_map(&w.scheduler, &mut w.spaces, &mut w.allocator, &mut w.mem, 0, 0, 0x40_1000, rw), Err(Status::InvalidArgument));
    assert_eq!(sys_unmap(&w.scheduler, &mut w.spaces, &mut w.allocator, &mut w.mem, 0, 0x40_0000), Ok(()));
    assert_eq!(w.spaces.get(AddressSpaceId(0)).unwrap().to_physical(&w.mem, VirtualAddr(0x40_0004)), None);
    assert_eq!(sys_unmap(&w.scheduler, &mut w.spaces, &mut w.allocator, &mut w.mem, 0, 0x40_0000), Err(Status::OutOfMemory));
    assert_eq!(sys_unmap(&w.scheduler, &mut w.spaces, &mut w.allocator, &mut w.mem, 9, 0x40_0000), Err(Status::BadHandle));
    assert_eq!(sys_frame_dealloc(&w.scheduler, &mut w.allocator, 2), Ok(()));
    assert_eq!(sys_frame_dealloc(&w.scheduler, &mut w.allocator, 0), Err(Status::InvalidArgument));
    assert_eq!(sys_frame_dealloc(&w.scheduler, &mut w.allocator, 40), Err(Status::BadHandle));
}

#[test]
fn an_address_space_created_gets_a_handle_and_a_slot() {
    let mut w = world();
    let h = sys_as_create(&mut w.scheduler, &mut w.spaces, &mut w.allocator, &mut w.mem).unwrap();
    assert_eq!(h, 2);
    match &w.scheduler.task(TaskId(0)).unwrap().handles.get(2).unwrap().object {
        KernelObject::AddressSpace(a) => assert_eq!(*a, AddressSpaceId(1)),
        _ => panic!("handle 2 is not an address space"),
    }
    let new_space = w.spaces.get(AddressSpaceId(1)).unwrap();
    assert_eq!(new_space.to_physical(&w.mem, VirtualAddr(HHDM + 0x5000)), Some(PhysicalAddr(0x5000)));
}

#[test]
fn a_thread_created_is_queued_and_handed_to_its_creator() {
    let mut w = world();
    let h = sys_task_create(&mut w.scheduler, &mut w.stacks, &w.spaces, &mut w.kernel, &mut w.allocator, &mut w.mem, 0, 0x40_2000, 0x7fff_0000_0000, 0xffff_ffff_8000_1234)
        .unwrap();
    assert_eq!(h, 2);
    let new_id = match &w.scheduler.task(TaskId(0)).unwrap().handles.get(2).unwrap().object {
        KernelObject::Thread(t) => *t,
        _ => panic!("handle 2 is not a thread"),
    };
    assert_eq!(new_id, TaskId(1));
    let t = w.scheduler.task(new_id).unwrap();
    assert_eq!(t.state, ThreadState::Ready);
    assert_eq!(t.as_id, AddressSpaceId(0));
    assert_eq!(sys_yield(&mut w.scheduler).unwrap().next, TaskId(1));
}

#[test]
fn a_new_thread_finds_its_initial_frame_on_its_kernel_stack() {
    let mut w = world();
    let h = sys_task_create(&mut w.scheduler, &mut w.stacks, &w.spaces, &mut w.kernel, &mut w.allocator, &mut w.mem, 0, 0x40_2000, 0x7fff_0000_0000, 0xffff_ffff_8000_1234)
        .unwrap();
    let new_id = match &w.scheduler.task(TaskId(0)).unwrap().handles.get(h).unwrap().object {
        KernelObject::Thread(t) => *t,
        _ => panic!("not a thread"),
    };
    let t = w.scheduler.task(new_id).unwrap();
    let top = t.kernel_stack.top().0;
    assert_eq!(t.context.rsp, top - 56);
    let expected = [0u64, 0, 0, 0x40_2000, 0x7fff_0000_0000, 0, 0xffff_ffff_8000_1234];
    for (i, want) in expected.iter().enumerate() {
        let p = w.kernel.to_physical(&w.mem, VirtualAddr(top - 56 + 8 * i as u64)).unwrap();
        assert_eq!(w.mem.read_word(p.0 / 8), *want);
    }
}

#[test]
fn creating_a_thread_checks_the_handle() {
    let mut w = world();
    let r = sys_task_create(&mut w.scheduler, &mut w.stacks, &w.spaces, &mut w.kernel, &mut w.allocator, &mut w.mem, 5, 0x40_2000, 0x7fff_0000_0000, 0xffff_ffff_8000_1234);
    assert_eq!(r, Err(Status::BadHandle));
    let r = sys_task_create(&mut w.scheduler, &mut w.stacks, &w.spaces, &mut w.kernel, &mut w.allocator, &mut w.mem, 1, 0x40_2000, 0x7fff_0000_0000, 0xffff_ffff_8000_1234);
    assert_eq!(r, Err(Status::InvalidArgument));
}

#[test]
fn a_status_code_reads_back_as_the_status() {
    for s in [Status::InvalidArgument, Status::BadAddress, Status::BadFileDescriptor, Status::NoSuchTask, Status::OutOfMemory, Status::BadHandle] {
        assert_eq!(Status::from_code(s.code()), s);
    }
    assert_eq!(Status::from_code(77), Status::InvalidArgument);
}

#[test]
fn a_write_reads_the_threads_buffer_through_its_page_tables() {
    let mut w = world();
    sys_frame_alloc(&mut w.scheduler, &mut w.allocator, &mut w.mem).unwrap();
    let rw = PagePermissions::new(true, false, true);
    sys_map(&w.scheduler, &mut w.spaces, &mut w.allocator, &mut w.mem, 0, 2, 0x40_0000, rw).unwrap();
    let p = w.spaces.get(AddressSpaceId(0)).unwrap().to_physical(&w.mem, VirtualAddr(0x40_0010)).unwrap();
    for (i, b) in b"hello".iter().enumerate() {
        w.mem.write_u8(p.0 + i as u64, *b);
    }
    assert_eq!(sys_write(&w.scheduler, &w.spaces, &w.mem, 1, 0x40_0010, 5), Ok(b"hello".to_vec()));
    assert_eq!(sys_write(&w.scheduler, &w.spaces, &w.mem, 2, 0x40_0011, 3), Ok(b"ell".to_vec()));
    assert_eq!(sys_write(&w.scheduler, &w.spaces, &w.mem, 1, 0x40_0010, 0), Ok(Vec::new()));
}

#[test]
fn a_write_checks_the_descriptor_and_the_buffer() {
    let w = world();
    assert_eq!(sys_write(&w.scheduler, &w.spaces, &w.mem, 0, 0x40_0000, 5), Err(Status::BadFileDescriptor));
    assert_eq!(sys_write(&w.scheduler, &w.spaces, &w.mem, 3, 0x40_0000, 5), Err(Status::BadFileDescriptor));
    assert_eq!(sys_write(&w.scheduler, &w.spaces, &w.mem, 1, 0x40_0000, 5), Err(Status::BadAddress));
    assert_eq!(sys_write(&w.scheduler, &w.spaces, &w.mem, 1, HHDM, 5), Err(Status::BadAddress));
}

#[test]
fn a_result_word_needs_an_aligned_user_slot() {
    assert_eq!(check_word_destination(VirtualAddr(0x40_0008)), Ok(()));
    assert_eq!(check_word_destination(VirtualAddr(0x40_0004)), Err(Status::InvalidArgument));
    assert_eq!(check_word_destination(VirtualAddr(0x7fff_ffff_fff8)), Ok(()));
    assert_eq!(check_word_destination(VirtualAddr(0x8000_0000_0000)), Err(Status::BadAddress));
    assert_eq!(check_word_destination(VirtualAddr(u64::MAX - 7)), Err(Status::BadAddress));
}

#[test]
fn a_calls_number_decodes_to_the_call() {
    let all = [
        SyscallNumber::Yield,
        SyscallNumber::Exit,
        SyscallNumber::Write,
        SyscallNumber::Send,
        SyscallNumber::Recv,
        SyscallNumber::FrameAlloc,
        SyscallNumber::FrameDealloc,
        SyscallNumber::AsCreate,
        SyscallNumber::MapPage,
        SyscallNumber::Unmap,
        SyscallNumber::TaskCreate,
    ];
    for (i, n) in all.iter().enumerate() {
        assert_eq!(n.number(), i as u64 + 1);
        assert_eq!(SyscallNumber::try_from(n.number()), Ok(*n));
    }
    assert_eq!(SyscallNumber::try_from(0), Err(Status::InvalidArgument));
    assert_eq!(SyscallNumber::try_from(12), Err(Status::InvalidArgument));
}

#[test]
fn a_message_is_read_from_user_memory_and_padded_with_zeros() {
    let mut w = world();
    sys_frame_alloc(&mut w.scheduler, &mut w.allocator, &mut w.mem).unwrap();
    let rw = PagePermissions::new(true, false, true);
    sys_map(&w.scheduler, &mut w.spaces, &mut w.allocator, &mut w.mem, 0, 2, 0x40_0000, rw).unwrap();
    let p = w.spaces.get(AddressSpaceId(0)).unwrap().to_physical(&w.mem, VirtualAddr(0x40_0100)).unwrap();
    for (i, b) in b"ping".iter().enumerate() {
        w.mem.write_u8(p.0 + i as u64, *b);
    }
    let data = read_message(&w.spaces, &w.mem, AddressSpaceId(0), 0x40_0100, 4).unwrap();
    assert_eq!(&data[..4], b"ping");
    assert!(data[4..].iter().all(|b| *b == 0));
    assert_eq!(read_message(&w.spaces, &w.mem, AddressSpaceId(0), 0x40_1000, 4).err(), Some(Status::BadAddress));
    assert_eq!(read_message(&w.spaces, &w.mem, AddressSpaceId(0), 0x40_0100, 0).map(|d| d[0]), Ok(0));
}

#[test]
fn a_received_message_is_cut_to_the_buffer_and_its_length_and_sender_stored() {
    let mut w = world();
    sys_frame_alloc(&mut w.scheduler, &mut w.allocator, &mut w.mem).unwrap();
    let rw = PagePermissions::new(true, false, true);
    assert_eq!(sys_map(&w.scheduler, &mut w.spaces, &mut w.allocator, &mut w.mem, 0, 2, 0x40_0000, rw), Ok(()));
    let mut data = [0u8; MAX_MSG_SIZE];
    data[..5].copy_from_slice(b"hello");
    let m = Message { sender: TaskId(3), length: 5, data };
    assert_eq!(deliver_message(&w.spaces, &mut w.mem, AddressSpaceId(0), &m, 0x40_0100, 3, 0x40_0200, 0x40_0208), Ok(()));
    let space = w.spaces.get(AddressSpaceId(0)).unwrap();
    let base = space.to_physical(&w.mem, VirtualAddr(0x40_0000)).unwrap().0;
    assert_eq!(w.mem.read_u8(base + 0x100), b'h');
    assert_eq!(w.mem.read_u8(base + 0x102), b'l');
    assert_eq!(w.mem.read_u8(base + 0x103), 0);
    assert_eq!(w.mem.read_word((base + 0x200) / 8), 5);
    assert_eq!(w.mem.read_word((base + 0x208) / 8), 3);
    // An unmapped buffer is refused before anything is written.
    assert_eq!(deliver_message(&w.spaces, &mut w.mem, AddressSpaceId(0), &m, 0x50_0000, 8, 0x40_0300, 0), Err(Status::BadAddress));
    assert_eq!(w.mem.read_word((base + 0x300) / 8), 0);
    // A misaligned length word is refused after the data went in.
    assert_eq!(deliver_message(&w.spaces, &mut w.mem, AddressSpaceId(0), &m, 0x40_0400, 8, 0x40_0301, 0), Err(Status::InvalidArgument));
    assert_eq!(w.mem.read_u8(base + 0x404), b'o');
}

#[test]
fn a_page_mapped_by_a_thread_has_the_rights_it_asked_for() {
    let mut w = world();
    sys_frame_alloc(&mut w.scheduler, &mut w.allocator, &mut w.mem).unwrap();
    let rx = PagePermissions::new(false, true, true);
    assert_eq!(sys_map(&w.scheduler, &mut w.spaces, &mut w.allocator, &mut w.mem, 0, 2, 0x40_0000, rx), Ok(()));
    let space = w.spaces.get(AddressSpaceId(0)).unwrap();
    assert_eq!(space.mapping(&w.mem, VirtualAddr(0x40_0000)).unwrap().permissions, rx);
}

#[test]
fn each_new_thread_gets_a_kernel_stack_of_its_own() {
    let mut w = world();
    let a = sys_task_create(&mut w.scheduler, &mut w.stacks, &w.spaces, &mut w.kernel, &mut w.allocator, &mut w.mem, 0, 0x40_2000, 0x7fff_0000_0000, 1)
        .unwrap();
    let b = sys_task_create(&mut w.scheduler, &mut w.stacks, &w.spaces, &mut w.kernel, &mut w.allocator, &mut w.mem, 0, 0x40_3000, 0x7fff_0000_0000, 1)
        .unwrap();
    let thread = |w: &World, h: usize| match &w.scheduler.task(TaskId(0)).unwrap().handles.get(h).unwrap().object {
        KernelObject::Thread(t) => *t,
        _ => panic!("not a thread"),
    };
    let ta = w.scheduler.task(thread(&w, a)).unwrap().kernel_stack.top().0;
    let tb = w.scheduler.task(thread(&w, b)).unwrap().kernel_stack.top().0;
    assert_eq!(ta, KERNEL_STACK_TOP);
    assert_eq!(tb, KERNEL_STACK_TOP - KERNEL_STACK_STRIDE);
    assert!(w.kernel.to_physical(&w.mem, VirtualAddr(tb - 8)).is_some());
    assert_ne!(w.kernel.to_physical(&w.mem, VirtualAddr(ta - 8)), w.kernel.to_physical(&w.mem, VirtualAddr(tb - 8)));
}
