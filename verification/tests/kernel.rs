use alaphios::arch::interrupts::{pop_scancode, push_scancode, tick, user_selectors, InterruptIndex, ScancodeQueue};
use alaphios::arch::syscall::TrapFrame;
use alaphios::ipc::channel::{IpcChannel, IpcError};
use alaphios::ipc::msg_queue::{MsgQueue, MSG_SIZE};
use alaphios::ipc::pipe::{Pipe, PIPE_BUF};
use alaphios::ipc::shm::{SharedMem, ShmRegistry};
use alaphios::ipc::table::{IpcObject, IpcTable};
use alaphios::process::lifecycle::{exit, wait};
use alaphios::process::loader::{code_chunks, heap_start_for, load_flat, USER_CODE_BASE, USER_STACK_TOP};
use alaphios::process::pid::{Pid, Tid};
use alaphios::process::signal::{deliver_pending_signal, trampoline_bytes, Delivery, SignalState};
use alaphios::process::table::BTreeTaskRegistry;
use alaphios::process::task::{Task, TaskIds, TaskState};
use alaphios::scheduler::mlfq::MlfqScheduler;
use alaphios::scheduler::{current_pid, current_tid, init, schedule, spawn};
use alaphios::security::{AccessControl, RbacAccessControl, Rights};
use alaphios::sync::atomic::KernelAtomicUsize;
use alaphios::sync::resource_table::ResourceTable;
use alaphios::sync::spinlock::Spinlock;
use alaphios::sync::monitor::Monitor;
use alaphios::syscall::dispatch::{
    buffer_ok, chmod_modes, fs_err, getdents_records, ipc_call, ipc_err, ipc_syscall, IpcOutcome, resource_syscall, shm_open, user_str_ok,
    SysOutcome, EAGAIN, EBADF, EBUSY, EMSGSIZE, ENOENT, ENOSYS, EPIPE, RECORD_SIZE,
};
use alaphios::fs::vfs::FsError;
use alaphios::syscall::numbers::{
    SYS_GETRESOURCE, SYS_MSG_RECV, SYS_MSG_SEND, SYS_MUTEX_LOCK, SYS_MUTEX_TRYLOCK, SYS_MUTEX_UNLOCK, SYS_PIPE_CLOSE,
    SYS_PIPE_CREATE, SYS_PIPE_READ, SYS_PIPE_WRITE, SYS_SHM_CLOSE, SYS_TRYLOCK, SYS_YIELD,
};

fn booted() -> (MlfqScheduler, BTreeTaskRegistry, TaskIds) {
    let mut sched = MlfqScheduler::new();
    let mut table = BTreeTaskRegistry::new();
    let mut ids = TaskIds::new();
    let boot = Task::new(&mut ids, 0, None, 0, 0x10_0000);
    let idle = Task::new(&mut ids, 7, None, 0, 0x20_0000);
    init(&mut sched, &mut table, boot, idle);
    (sched, table, ids)
}

fn zero_frame() -> TrapFrame {
    TrapFrame {
        r15: 0, r14: 0, r13: 0, r12: 0, rbp: 0, rbx: 0, r11: 0, r10: 0, r9: 0, r8: 0, rdi: 0, rsi: 0, rdx: 0,
        rcx: 0, rax: 0, user_rsp: 0x8000,
    }
}

#[test]
fn mutex_syscalls() {
    let (mut sched, mut table, _) = booted();
    let mut res = ResourceTable::new();
    let h = match resource_syscall(SYS_GETRESOURCE, 0, &mut res, &mut sched, &mut table) {
        SysOutcome::Value(v) => v as u64,
        SysOutcome::Blocked => panic!("getresource blocked"),
    };
    assert_eq!(resource_syscall(SYS_MUTEX_LOCK, h, &mut res, &mut sched, &mut table), SysOutcome::Value(0));
    assert_eq!(resource_syscall(SYS_MUTEX_TRYLOCK, h, &mut res, &mut sched, &mut table), SysOutcome::Value(EAGAIN));
    assert_eq!(resource_syscall(SYS_MUTEX_UNLOCK, h, &mut res, &mut sched, &mut table), SysOutcome::Value(0));
    assert_eq!(resource_syscall(SYS_TRYLOCK, h, &mut res, &mut sched, &mut table), SysOutcome::Value(0));
    assert_eq!(resource_syscall(SYS_MUTEX_LOCK, h, &mut res, &mut sched, &mut table), SysOutcome::Blocked);
    assert_eq!(resource_syscall(SYS_MUTEX_LOCK, h + 1, &mut res, &mut sched, &mut table), SysOutcome::Value(EBADF));
    assert_eq!(resource_syscall(SYS_YIELD, h, &mut res, &mut sched, &mut table), SysOutcome::Value(ENOSYS));
}

#[test]
fn error_numbers_and_argument_checks() {
    assert_eq!(fs_err(FsError::NotFound), ENOENT);
    assert_eq!(fs_err(FsError::Locked), EBUSY);
    assert_eq!(ipc_err(IpcError::Closed), EPIPE);
    assert_eq!(ipc_err(IpcError::WouldBlock), EAGAIN);
    assert!(buffer_ok(0, 0));
    assert!(!buffer_ok(0, 4));
    assert!(buffer_ok(0x1000, 4));
    assert!(!user_str_ok(0x1000, 0));
    assert!(user_str_ok(0x1000, 1));
    assert_eq!(chmod_modes(0o754), (3, 5, 4));
    assert_eq!(chmod_modes(0o354), (3, 5, 4));
    assert_eq!(chmod_modes(0o1777), (3, 7, 7));
}

#[test]
fn getdents_encoding() {
    let entries = vec![(String::from("a.txt"), false), (String::from("dir"), true), (String::from("c"), false)];
    let (bytes, n) = getdents_records(&entries, 2 * RECORD_SIZE + 10);
    assert_eq!(n, 2);
    assert_eq!(bytes.len(), 2 * RECORD_SIZE);
    assert_eq!(&bytes[0..5], b"a.txt");
    assert!(bytes[5..64].iter().all(|&b| b == 0));
    assert_eq!(bytes[64], 0);
    assert_eq!(&bytes[65..68], b"dir");
    assert_eq!(bytes[129], 1);
    let long = vec![("x".repeat(70), true)];
    let (bytes, n) = getdents_records(&long, 100);
    assert_eq!(n, 1);
    assert!(bytes[..64].iter().all(|&b| b == b'x'));
    assert_eq!(bytes[64], 1);
}

#[test]
fn security_access_matrix() {
    let mut ac = RbacAccessControl::new();
    ac.set_rights(1, 42, Rights(Rights::READ | Rights::WRITE | Rights::OWNER));
    let r = ac.access(1, 42);
    assert!(r.contains(Rights::READ));
    assert!(r.contains(Rights::WRITE));
    assert!(r.contains(Rights::OWNER));

    assert!(ac.grant(1, 2, 42, Rights(Rights::READ)).is_ok());
    assert!(ac.access(2, 42).contains(Rights::READ));

    assert!(ac.revoke(1, 2, 42, Rights(Rights::READ)).is_ok());
    assert!(!ac.access(2, 42).contains(Rights::READ));

    ac.define_role(1, Rights(Rights::READ | Rights::EXECUTE));
    ac.assign_role(3, 1);
    let r3 = ac.access(3, 99);
    assert!(r3.contains(Rights::READ));
    assert!(r3.contains(Rights::EXECUTE));
}

#[test]
fn security_grant_needs_authority() {
    let mut ac = RbacAccessControl::new();
    assert!(ac.grant(5, 6, 1, Rights(Rights::READ)).is_err());
    assert!(ac.revoke(5, 6, 1, Rights(Rights::READ)).is_err());
    ac.set_rights(5, 1, Rights(Rights::COPY | Rights::READ));
    assert!(ac.grant(5, 6, 1, Rights(Rights::READ)).is_ok());
    assert!(ac.grant(5, 6, 1, Rights(Rights::WRITE)).is_err());
    assert!(ac.revoke(5, 6, 1, Rights(Rights::READ)).is_err());
    assert_eq!(ac.access(6, 1).0, Rights::READ);
    ac.set_rights(6, 1, Rights::none());
    assert_eq!(ac.access(6, 1).0, 0);
}

#[test]
fn pipe_is_fifo_and_bounded() {
    let mut p = Pipe::new();
    assert_eq!(p.send(b"hello"), Ok(5));
    assert_eq!(p.send(b" world"), Ok(6));
    let mut out = [0u8; 8];
    assert_eq!(p.recv(&mut out), Ok(8));
    assert_eq!(&out, b"hello wo");
    let mut rest = [0u8; 8];
    assert_eq!(p.recv(&mut rest), Ok(3));
    assert_eq!(&rest[..3], b"rld");
    assert_eq!(p.recv(&mut rest), Err(IpcError::WouldBlock));
    let big = vec![1u8; PIPE_BUF + 10];
    assert_eq!(p.send(&big), Ok(PIPE_BUF));
    assert_eq!(p.send(b"x"), Ok(0));
    p.close();
    assert_eq!(p.send(b"x"), Err(IpcError::Closed));
    assert_eq!(p.send(b""), Ok(0));
    let mut drain = vec![0u8; PIPE_BUF];
    assert_eq!(p.recv(&mut drain), Ok(PIPE_BUF));
    assert_eq!(p.recv(&mut drain), Ok(0));
}

#[test]
fn message_queue_pads_and_bounds() {
    let mut q = MsgQueue::new();
    assert_eq!(q.send(&[0u8; MSG_SIZE + 1]), Err(IpcError::TooLarge));
    assert_eq!(q.send(b"ping"), Ok(4));
    let mut out = [9u8; 8];
    assert_eq!(q.recv(&mut out), Ok(8));
    assert_eq!(&out, b"ping\0\0\0\0");
    assert_eq!(q.recv(&mut out), Err(IpcError::WouldBlock));
    for _ in 0..128 {
        assert!(q.send(b"m").is_ok());
    }
    assert_eq!(q.send(b"m"), Err(IpcError::WouldBlock));
    q.close();
    assert_eq!(q.send(b"m"), Err(IpcError::Closed));
    let mut big = vec![0u8; 300];
    assert_eq!(q.recv(&mut big), Ok(MSG_SIZE));
}

#[test]
fn shared_memory_is_not_a_stream() {
    let mut s = SharedMem::new(String::from("region"), 16);
    assert_eq!(s.data, vec![0u8; 16]);
    assert_eq!(s.send(b"x"), Err(IpcError::WouldBlock));
    let mut buf = [0u8; 4];
    assert_eq!(s.recv(&mut buf), Err(IpcError::WouldBlock));
}

#[test]
fn ipc_table_handles() {
    let mut t = IpcTable::new();
    let a = t.insert(IpcObject::Pipe(Pipe::new()));
    let b = t.insert(IpcObject::Queue(MsgQueue::new()));
    assert_eq!((a, b), (0, 1));
    assert!(matches!(t.get(b), Some(IpcObject::Queue(_))));
    t.remove(a);
    assert!(t.get(a).is_none());
    assert_eq!(t.insert(IpcObject::Shared(SharedMem::new(String::from("s"), 1))), 2);
}

#[test]
fn ipc_table_send_recv_close_by_handle() {
    let mut t = IpcTable::new();
    let p = t.insert(IpcObject::Pipe(Pipe::new()));
    let q = t.insert(IpcObject::Queue(MsgQueue::new()));
    let s = t.insert(IpcObject::Shared(SharedMem::new(String::from("m"), 8)));
    assert_eq!(t.send(p, b"hello"), Some(Ok(5)));
    let mut buf = [0u8; 3];
    assert_eq!(t.recv(p, &mut buf), Some(Ok(3)));
    assert_eq!(&buf, b"hel");
    assert_eq!(t.send(q, b"ab"), Some(Ok(2)));
    let mut m = [9u8; 4];
    assert_eq!(t.recv(q, &mut m), Some(Ok(4)));
    assert_eq!(m, [b'a', b'b', 0, 0]);
    assert_eq!(t.send(s, b"x"), Some(Err(IpcError::WouldBlock)));
    assert_eq!(t.send(99, b"x"), None);
    assert_eq!(t.recv(99, &mut buf), None);
    assert!(t.close(p));
    assert!(t.get(p).is_none());
    assert!(!t.close(p));
}

#[test]
fn scancode_ring_is_fifo_and_drops_when_full() {
    let mut q = ScancodeQueue::new();
    assert_eq!(pop_scancode(&mut q), None);
    for i in 0..300u32 {
        push_scancode(&mut q, (i % 256) as u8);
    }
    for i in 0..255u32 {
        assert_eq!(pop_scancode(&mut q), Some(i as u8));
    }
    assert_eq!(pop_scancode(&mut q), None);
}

#[test]
fn interrupt_bookkeeping() {
    let mut ticks = KernelAtomicUsize::new(usize::MAX);
    tick(&mut ticks);
    assert_eq!(ticks.load(), 0);
    assert_eq!(InterruptIndex::Timer.as_u8(), 0x20);
    assert_eq!(InterruptIndex::Keyboard.as_u8(), 0x21);
    assert_eq!(user_selectors(0x18, 0x20), (0x1B, 0x23));
}

#[test]
fn signals_lowest_first() {
    let mut s = SignalState::new();
    assert_eq!(s.next_pending(), None);
    s.set_pending(15);
    s.set_pending(3);
    s.set_pending(40);
    s.set_handler(3, 0x4000);
    assert_eq!(s.next_pending(), Some((3, 0x4000)));
    s.clear_pending(3);
    assert_eq!(s.next_pending(), Some((15, 0)));
    assert_eq!(s.pending, 1 << 15);
}

#[test]
fn signal_delivery_frames() {
    let mut s = SignalState::new();
    let mut frame = zero_frame();
    assert!(matches!(deliver_pending_signal(&mut s, &mut frame), Delivery::Nothing));
    s.set_pending(15);
    assert!(matches!(deliver_pending_signal(&mut s, &mut frame), Delivery::Exit(-15)));
    assert_eq!(s.pending, 0);
    s.set_handler(2, 0x40_1000);
    s.set_pending(2);
    frame.rcx = 0x40_0010;
    match deliver_pending_signal(&mut s, &mut frame) {
        Delivery::Handler { new_rsp, tramp_addr, saved_addr, saved } => {
            assert_eq!(new_rsp, (0x8000 - 128 - 16 - 8) & !0xF);
            assert_eq!(tramp_addr, new_rsp + 8);
            assert_eq!(saved_addr, new_rsp + 24);
            assert_eq!(saved.rcx, 0x40_0010);
        },
        _ => panic!("expected handler delivery"),
    }
    assert_eq!((frame.rcx, frame.rdi), (0x40_1000, 2));
    assert_eq!(frame.user_rsp % 16, 0);
    let t = trampoline_bytes();
    assert_eq!(&t[..7], &[0xB8, 54, 0, 0, 0, 0x0F, 0x05]);
    assert_eq!(t.len(), 16);
}

#[test]
fn flat_binary_layout() {
    assert_eq!(heap_start_for(0), USER_CODE_BASE);
    assert_eq!(heap_start_for(1), USER_CODE_BASE + 4096);
    assert_eq!(heap_start_for(4096), USER_CODE_BASE + 4096);
    let chunks = code_chunks(5000);
    assert_eq!(chunks.len(), 2);
    assert_eq!((chunks[0].page, chunks[0].offset, chunks[0].len), (USER_CODE_BASE, 0, 4096));
    assert_eq!((chunks[1].page, chunks[1].offset, chunks[1].len), (USER_CODE_BASE + 4096, 4096, 904));
    let mut ids = TaskIds::new();
    let t = load_flat(&mut ids, 5000, 0x7000, 2, 0x9_0000);
    assert_eq!(t.user_entry, USER_CODE_BASE);
    assert_eq!(t.user_stack, USER_STACK_TOP);
    assert_eq!(t.heap_start, USER_CODE_BASE + 8192);
    assert_eq!(t.brk, t.heap_start);
    assert_eq!(t.vmm.areas().len(), 1);
    assert_eq!(t.vmm.areas()[0].end, USER_STACK_TOP);
}

#[test]
fn scheduler_boot_and_identities() {
    let (mut sched, mut table, mut ids) = booted();
    assert_eq!(current_tid(&sched), Tid(1));
    assert_eq!(current_pid(&sched, &table), Pid(1));
    let worker = Task::new(&mut ids, 0, Some(Pid(1)), 0, 0x30_0000);
    let wtid = worker.tid;
    spawn(&mut sched, &mut table, worker);
    assert!(table.get(wtid).is_some());
    assert!(schedule(&mut sched, &mut table, 1).is_none());
}

#[test]
fn exit_then_wait_reaps_zombie() {
    let (mut sched, mut table, mut ids) = booted();
    let child = Task::new(&mut ids, 0, Some(Pid(1)), 0, 0x30_0000);
    let (cpid, ctid) = (child.pid, child.tid);
    spawn(&mut sched, &mut table, child);
    // run the child and let it exit
    sched.set_current(&mut table, ctid);
    exit(&mut sched, &mut table, 42);
    assert_eq!(table.get(ctid).map(|t| t.state), Some(TaskState::Zombie));
    sched.set_current(&mut table, Tid(1));
    assert_eq!(wait(&sched, &mut table, cpid), Some(42));
    assert!(table.get(ctid).is_none());
    assert_eq!(wait(&sched, &mut table, cpid), Some(-1));
}

#[test]
fn spinlock_counts_preemption() {
    let mut preempt = KernelAtomicUsize::new(0);
    let mut l = Spinlock::new(5u32);
    l.lock(&mut preempt);
    assert_eq!(preempt.load(), 1);
    assert!(!l.try_lock(&mut preempt));
    *l.get_mut() += 1;
    l.unlock(&mut preempt);
    assert_eq!(preempt.load(), 0);
    assert_eq!(*l.get(), 6);
    assert!(l.try_lock(&mut preempt));
}

#[test]
fn atomic_operations() {
    let mut a = KernelAtomicUsize::new(5);
    assert_eq!(a.fetch_add(3), 5);
    assert_eq!(a.fetch_sub(10), 8);
    assert_eq!(a.load(), usize::MAX - 1);
    assert_eq!(a.compare_exchange(1, 2), Err(usize::MAX - 1));
    assert_eq!(a.compare_exchange(usize::MAX - 1, 2), Ok(usize::MAX - 1));
    a.increment();
    a.decrement();
    a.store(9);
    assert_eq!(a.load(), 9);
}

#[test]
fn task_vmm_is_swapped_in_place() {
    let (sched, mut table, mut ids) = booted();
    assert_eq!(sched.running(), Some(Tid(1)));
    let mut fresh = alaphios::memory::vmm::Vmm::new();
    fresh.add_area(alaphios::memory::vmm::VmArea {
        start: 0x1000,
        end: 0x3000,
        flags: 7,
        kind: alaphios::memory::vmm::VmAreaKind::Anonymous,
    });
    let prev = table.replace_vmm(Tid(1), fresh);
    assert_eq!(prev.areas().len(), 0);
    assert_eq!(table.get(Tid(1)).map(|t| t.vmm.areas().len()), Some(1));
    let stranger = alaphios::memory::vmm::Vmm::new();
    let back = table.replace_vmm(Tid(77), stranger);
    assert_eq!(back.areas().len(), 0);
    let worker = Task::new(&mut ids, 0, Some(Pid(1)), 0, 0x30_0000);
    assert_eq!(worker.vmm.areas().len(), 0);
}

#[test]
fn handles_count_up_from_zero() {
    let mut res = ResourceTable::new();
    assert_eq!(res.next_handle(), 0);
    res.insert(alaphios::sync::resource::QueuedResource::new());
    assert_eq!(res.next_handle(), 1);
    let mut t = IpcTable::new();
    assert_eq!(t.next_handle(), 0);
    t.insert(IpcObject::Pipe(Pipe::new()));
    assert_eq!(t.next_handle(), 1);
}

#[test]
fn pipe_syscalls_by_handle() {
    let mut ipc = IpcTable::new();
    let h = ipc_syscall(SYS_PIPE_CREATE, 0, &mut [], &mut ipc);
    assert_eq!(h, 0);
    let mut data = [7u8, 8, 9];
    assert_eq!(ipc_syscall(SYS_PIPE_WRITE, 0, &mut data, &mut ipc), 0);
    let mut out = [0u8; 2];
    assert_eq!(ipc_syscall(SYS_PIPE_READ, 0, &mut out, &mut ipc), 2);
    assert_eq!(out, [7, 8]);
    assert_eq!(ipc_syscall(SYS_PIPE_READ, 0, &mut out, &mut ipc), 1);
    assert_eq!(out, [9, 8]);
    assert_eq!(ipc_syscall(SYS_PIPE_READ, 0, &mut out, &mut ipc), EAGAIN);
    assert_eq!(ipc_syscall(SYS_PIPE_READ, 5, &mut out, &mut ipc), EBADF);
    assert_eq!(ipc_syscall(SYS_PIPE_WRITE, 5, &mut data, &mut ipc), EBADF);
    assert_eq!(ipc_syscall(SYS_PIPE_CLOSE, 0, &mut [], &mut ipc), 0);
    assert_eq!(ipc_syscall(SYS_PIPE_CLOSE, 0, &mut [], &mut ipc), EBADF);
    assert_eq!(ipc_syscall(SYS_YIELD, 0, &mut [], &mut ipc), ENOSYS);
    assert_eq!(ipc_syscall(SYS_PIPE_CREATE, 0, &mut [], &mut ipc), 1);
}

#[test]
fn message_syscalls_by_handle() {
    let mut ipc = IpcTable::new();
    let h = ipc.insert(IpcObject::Queue(MsgQueue::new()));
    let mut big = vec![1u8; MSG_SIZE + 1];
    assert_eq!(ipc_syscall(SYS_MSG_SEND, h, &mut big, &mut ipc), EMSGSIZE);
    let mut msg = [4u8, 5];
    assert_eq!(ipc_syscall(SYS_MSG_SEND, h, &mut msg, &mut ipc), 0);
    let mut out = [9u8; 4];
    assert_eq!(ipc_syscall(SYS_MSG_RECV, h, &mut out, &mut ipc), 4);
    assert_eq!(out, [4, 5, 0, 0]);
    let shm = ipc.insert(IpcObject::Shared(SharedMem::new(String::from("s"), 8)));
    assert_eq!(ipc_syscall(SYS_MSG_RECV, shm, &mut out, &mut ipc), EAGAIN);
    assert_eq!(ipc_syscall(SYS_SHM_CLOSE, shm, &mut [], &mut ipc), 0);
    assert_eq!(ipc_syscall(SYS_SHM_CLOSE, shm, &mut [], &mut ipc), 0);
    assert!(ipc.get(shm).is_none());
}

#[test]
fn shared_memory_keeps_first_size() {
    let mut ipc = IpcTable::new();
    let mut reg = ShmRegistry::new();
    let a = shm_open(String::from("buf"), 16, &mut reg, &mut ipc);
    let b = shm_open(String::from("buf"), 64, &mut reg, &mut ipc);
    let c = shm_open(String::from("other"), 4, &mut reg, &mut ipc);
    assert_eq!((a, b, c), (0, 1, 2));
    let size_of = |h: isize| match ipc.get(h as u64) {
        Some(IpcObject::Shared(m)) => m.data.len(),
        _ => usize::MAX,
    };
    assert_eq!(size_of(a), 16);
    assert_eq!(size_of(b), 16);
    assert_eq!(size_of(c), 4);
    assert_eq!(reg.size_for(&String::from("buf"), 1), 16);
    assert_eq!(reg.size_for(&String::from("new"), 3), 3);
}

#[test]
fn lock_then_unlock_restores_depth_at_wraparound() {
    let mut preempt = KernelAtomicUsize::new(usize::MAX);
    let mut l = Spinlock::new(1u8);
    l.lock(&mut preempt);
    assert_eq!(preempt.load(), 0);
    l.unlock(&mut preempt);
    assert_eq!(preempt.load(), usize::MAX);
    assert_eq!(*l.get(), 1);
}

#[test]
fn ipc_calls_block_and_wake() {
    let (mut sched, mut table, _) = booted();
    let mut ipc = IpcTable::new();
    let h = ipc.insert(IpcObject::Pipe(Pipe::new()));
    let running = sched.running().expect("a running task");
    let mut out = [0u8; 4];
    // Reading an empty pipe makes the reader wait for data.
    assert_eq!(ipc_call(SYS_PIPE_READ, h, &mut out, &mut ipc, &mut sched, &mut table), IpcOutcome::Blocked(0));
    assert_eq!(table.get(running).map(|t| t.state), Some(TaskState::Blocked));
    // A write wakes it and goes through whole.
    let mut data = [1u8, 2, 3];
    assert_eq!(ipc_call(SYS_PIPE_WRITE, h, &mut data, &mut ipc, &mut sched, &mut table), IpcOutcome::Value(0));
    assert_eq!(table.get(running).map(|t| t.state), Some(TaskState::Ready));
    assert_eq!(ipc_call(SYS_PIPE_READ, h, &mut out, &mut ipc, &mut sched, &mut table), IpcOutcome::Value(3));
    assert_eq!(&out[..3], &[1, 2, 3]);
    // A write larger than the room left is taken in part and the writer waits for room.
    let mut big = vec![7u8; PIPE_BUF + 5];
    assert_eq!(ipc_call(SYS_PIPE_WRITE, h, &mut big, &mut ipc, &mut sched, &mut table), IpcOutcome::Blocked(PIPE_BUF));
    let mut rest = vec![7u8; 5];
    assert_eq!(ipc_call(SYS_PIPE_WRITE, h, &mut rest, &mut ipc, &mut sched, &mut table), IpcOutcome::Blocked(0));
    let mut drain = vec![0u8; PIPE_BUF];
    assert_eq!(ipc_call(SYS_PIPE_READ, h, &mut drain, &mut ipc, &mut sched, &mut table), IpcOutcome::Value(PIPE_BUF as isize));
    assert_eq!(ipc_call(SYS_PIPE_WRITE, h, &mut rest, &mut ipc, &mut sched, &mut table), IpcOutcome::Value(0));
    // Closing wakes everyone; a closed handle is gone.
    assert_eq!(ipc_call(SYS_PIPE_CLOSE, h, &mut [], &mut ipc, &mut sched, &mut table), IpcOutcome::Value(0));
    assert_eq!(ipc_call(SYS_PIPE_READ, h, &mut out, &mut ipc, &mut sched, &mut table), IpcOutcome::Value(EBADF));
    // Shared memory is no stream: it never blocks.
    let m = ipc.insert(IpcObject::Shared(SharedMem::new(String::from("m"), 4)));
    assert_eq!(ipc_call(SYS_MSG_RECV, m, &mut out, &mut ipc, &mut sched, &mut table), IpcOutcome::Value(EAGAIN));
}

#[test]
fn lock_state_follows_the_calls() {
    let (mut sched, mut table, _) = booted();
    let mut res = ResourceTable::new();
    let h = match resource_syscall(SYS_GETRESOURCE, 0, &mut res, &mut sched, &mut table) {
        SysOutcome::Value(v) => v as u64,
        SysOutcome::Blocked => panic!("getresource blocked"),
    };
    assert_eq!(resource_syscall(SYS_MUTEX_LOCK, h, &mut res, &mut sched, &mut table), SysOutcome::Value(0));
    assert!(res.get(h).map(|r| r.is_held()).unwrap_or(false));
    assert_eq!(resource_syscall(SYS_MUTEX_TRYLOCK, h, &mut res, &mut sched, &mut table), SysOutcome::Value(EAGAIN));
    assert_eq!(resource_syscall(SYS_MUTEX_UNLOCK, h, &mut res, &mut sched, &mut table), SysOutcome::Value(0));
    assert!(!res.get(h).map(|r| r.is_held()).unwrap_or(true));
    assert_eq!(resource_syscall(SYS_MUTEX_TRYLOCK, h, &mut res, &mut sched, &mut table), SysOutcome::Value(0));
}

#[test]
fn registered_device_is_blocking() {
    let mut t = alaphios::io::device::DeviceTable::new();
    assert_eq!(t.register("kbd"), 0);
    assert_eq!(t.register("disk"), 1);
    assert!(t.is_blocking(1));
    assert_eq!(t.find("disk"), Some(1));
}

#[test]
fn ids_count_up_from_one() {
    let mut ids = TaskIds::new();
    let a = Pid::next(&mut ids.next_pid);
    let b = Pid::next(&mut ids.next_pid);
    let c = Tid::next(&mut ids.next_tid);
    assert_eq!((a.as_u64(), b.as_u64(), c.as_u64()), (1, 2, 1));
}

#[test]
fn default_signal_ends_a_thread_whatever_its_stack() {
    let mut s = SignalState::new();
    let mut frame = zero_frame();
    frame.user_rsp = 16;
    s.set_pending(9);
    assert!(matches!(deliver_pending_signal(&mut s, &mut frame), Delivery::Exit(-9)));
    assert_eq!(frame.user_rsp, 16);
    assert_eq!(s.pending, 0);
    assert!(matches!(deliver_pending_signal(&mut s, &mut frame), Delivery::Nothing));
}

#[test]
fn ids_drawn_in_turn_increase() {
    let mut counter: u64 = 1;
    let mut last = 0;
    for _ in 0..100 {
        let p = Pid::next(&mut counter);
        assert!(p.as_u64() >= 1);
        assert!(p.as_u64() > last);
        assert!(p.as_u64() < counter);
        last = p.as_u64();
    }
    assert_eq!(last, 100);
}

#[test]
fn scancodes_come_out_in_the_order_pushed() {
    let mut q = ScancodeQueue::new();
    for c in 1..=255u8 {
        push_scancode(&mut q, c);
    }
    push_scancode(&mut q, 0);
    for c in 1..=255u8 {
        assert_eq!(pop_scancode(&mut q), Some(c));
    }
    assert_eq!(pop_scancode(&mut q), None);
    assert_eq!(pop_scancode(&mut q), None);
}

#[test]
fn a_waiter_takes_the_monitor_back() {
    let (mut sched, mut table, _) = booted();
    let me = sched.current_tid();
    let mut depth = KernelAtomicUsize::new(0);
    let mut m = Monitor::new(41u32);
    m.lock(&mut depth);
    *m.get_mut() += 1;
    m.wait(&sched, &mut table, &mut depth);
    assert_eq!(depth.load(), 0);
    assert_eq!(table.get(me).map(|t| t.state), Some(TaskState::Blocked));
    m.signal(&mut sched, &mut table);
    assert_eq!(table.get(me).map(|t| t.state), Some(TaskState::Ready));
    assert!(m.try_lock(&mut depth));
    assert_eq!(depth.load(), 1);
    assert_eq!(*m.get(), 42);
    assert!(!m.try_lock(&mut depth));
    m.unlock(&mut depth);
    assert_eq!(depth.load(), 0);
}
