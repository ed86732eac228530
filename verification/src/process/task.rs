//! The task control block: one schedulable thread of execution.
use vstd::prelude::*;
use crate::arch::syscall::PerCpuScratch;
use crate::memory::vmm::Vmm;
use crate::process::pid::{Pid, Tid};

verus! {

pub const KERNEL_STACK_SIZE: usize = 65536;

#[derive(Clone, Copy, PartialEq, Eq, Structural, Debug)]
pub enum TaskState {
    Running,
    Ready,
    Blocked,
    Zombie,
}

pub struct Task {
    pub pid: Pid,
    pub tid: Tid,
    pub thread_group: Pid,
    pub state: TaskState,
    pub rsp: u64,
    pub cr3: u64,
    pub preempt_count: u32,
    pub priority: u8,
    pub parent: Option<Pid>,
    pub children: Vec<Pid>,
    pub exit_code: Option<i32>,
    pub vmm: Vmm,
    pub kernel_stack_top: u64,
    pub scratch: PerCpuScratch,
    /// ring-3 entry point; 0 for kernel tasks
    pub user_entry: u64,
    /// ring-3 stack pointer; 0 for kernel tasks
    pub user_stack: u64,
    /// first page after the code; 0 for kernel tasks
    pub heap_start: u64,
    /// current program break
    pub brk: u64,
}

/// The process and thread identifier counters (both start at 1; 0 is the idle task).
pub struct TaskIds {
    pub next_pid: u64,
    pub next_tid: u64,
}

impl TaskIds {
    pub fn new() -> (r: Self)
        ensures
            r.next_pid == 1,
            r.next_tid == 1,
    {
        TaskIds { next_pid: 1, next_tid: 1 }
    }
}

/// Kernel stack pointer of a fresh task: the initial frame takes eight words below the top.
pub open spec fn initial_rsp(top: u64) -> u64 {
    (top - 64) as u64
}

/// Little-endian bytes of a word.
pub open spec fn le_bytes(x: u64) -> Seq<u8> {
    Seq::new(8, |i: int| ((x >> ((8 * i) as u64)) & 0xff) as u8)
}

/// The eight words a fresh task's kernel stack holds, from the stack pointer up: the six
/// callee-saved registers (zero), the trampoline `switch_to` returns into, and the entry point
/// the trampoline returns into.
pub open spec fn initial_frame(entry: u64, trampoline: u64) -> Seq<u64> {
    seq![0u64, 0u64, 0u64, 0u64, 0u64, 0u64, trampoline, entry]
}

/// Writes the initial frame into the last 64 bytes below `top_offset` of `stack` (the byte
/// offset of the 16-byte aligned top) and returns the offset of the new stack pointer.
pub fn setup_stack(stack: &mut Vec<u8>, top_offset: usize, entry: u64, trampoline: u64) -> (rsp_offset: usize)
    requires
        64 <= top_offset <= old(stack)@.len(),
    ensures
        rsp_offset == top_offset - 64,
        final(stack)@.len() == old(stack)@.len(),
        forall|w: int, b: int| 0 <= w < 8 && 0 <= b < 8 ==> #[trigger] final(stack)@[rsp_offset + 8 * w + b]
            == le_bytes(initial_frame(entry, trampoline)[w])[b],
        forall|i: int| 0 <= i < old(stack)@.len() && !(rsp_offset <= i < top_offset) ==> final(stack)@[i]
            == old(stack)@[i],
{
    let rsp = top_offset - 64;
    let words: [u64; 8] = [0, 0, 0, 0, 0, 0, trampoline, entry];
    assert(words@ =~= initial_frame(entry, trampoline));
    let mut w: usize = 0;
    while w < 8
        invariant
            w <= 8,
            rsp == top_offset - 64,
            64 <= top_offset <= stack@.len(),
            stack@.len() == old(stack)@.len(),
            words@ == initial_frame(entry, trampoline),
            forall|w2: int, b: int| 0 <= w2 < w && 0 <= b < 8 ==> #[trigger] stack@[rsp + 8 * w2 + b]
                == le_bytes(words@[w2])[b],
            forall|i: int| 0 <= i < old(stack)@.len() && !(rsp <= i < top_offset) ==> stack@[i] == old(stack)@[i],
        decreases 8 - w,
    {
        let x = words[w];
        let mut b: usize = 0;
        while b < 8
            invariant
                w < 8,
                b <= 8,
                rsp == top_offset - 64,
                64 <= top_offset <= stack@.len(),
                stack@.len() == old(stack)@.len(),
                x == words@[w as int],
                forall|w2: int, b2: int| 0 <= w2 < w && 0 <= b2 < 8 ==> #[trigger] stack@[rsp + 8 * w2 + b2]
                    == le_bytes(words@[w2])[b2],
                forall|b2: int| 0 <= b2 < b ==> #[trigger] stack@[rsp + 8 * w + b2] == le_bytes(x)[b2],
                forall|i: int| 0 <= i < old(stack)@.len() && !(rsp <= i < top_offset) ==> stack@[i] == old(stack)@[i],
            decreases 8 - b,
        {
            let byte = ((x >> ((8 * b) as u64)) & 0xff) as u8;
            stack.set(rsp + 8 * w + b, byte);
            b = b + 1;
        }
        w = w + 1;
    }
    rsp
}

impl Task {
    /// A fresh kernel task with its own process: new pid (its own thread group) and tid,
    /// `Ready`, its kernel stack topped at `kernel_stack_top` with the initial frame in place.
    pub fn new(ids: &mut TaskIds, priority: u8, parent: Option<Pid>, cr3: u64, kernel_stack_top: u64) -> (r: Task)
        requires
            kernel_stack_top >= 64,
        ensures
            r.pid.0 == old(ids).next_pid,
            r.tid.0 == old(ids).next_tid,
            final(ids).next_pid == old(ids).next_pid.wrapping_add(1),
            final(ids).next_tid == old(ids).next_tid.wrapping_add(1),
            r.thread_group == r.pid,
            r.state == TaskState::Ready,
            r.rsp == initial_rsp(kernel_stack_top),
            r.cr3 == cr3,
            r.preempt_count == 0,
            r.priority == priority,
            r.parent == parent,
            r.children@.len() == 0,
            r.exit_code is None,
            r.vmm.area_seq().len() == 0,
            r.kernel_stack_top == kernel_stack_top,
            r.scratch.kernel_rsp == kernel_stack_top,
            r.scratch.user_rsp_scratch == 0,
            r.user_entry == 0,
            r.user_stack == 0,
            r.heap_start == 0,
            r.brk == 0,
    {
        let pid = Pid::next(&mut ids.next_pid);
        Task {
            pid,
            tid: Tid::next(&mut ids.next_tid),
            thread_group: pid,
            state: TaskState::Ready,
            rsp: kernel_stack_top - 64,
            cr3,
            preempt_count: 0,
            priority,
            parent,
            children: Vec::new(),
            exit_code: None,
            vmm: Vmm::new(),
            kernel_stack_top,
            scratch: PerCpuScratch::new(kernel_stack_top),
            user_entry: 0,
            user_stack: 0,
            heap_start: 0,
            brk: 0,
        }
    }

    /// A new thread in the process of `self`: same pid, thread group, address space and parent,
    /// a new tid, an empty memory map of its own.
    pub fn clone_thread(&self, ids: &mut TaskIds, priority: u8, kernel_stack_top: u64) -> (r: Task)
        requires
            kernel_stack_top >= 64,
        ensures
            r.pid == self.pid,
            r.tid.0 == old(ids).next_tid,
            final(ids).next_pid == old(ids).next_pid,
            final(ids).next_tid == old(ids).next_tid.wrapping_add(1),
            r.thread_group == self.thread_group,
            r.state == TaskState::Ready,
            r.rsp == initial_rsp(kernel_stack_top),
            r.cr3 == self.cr3,
            r.preempt_count == 0,
            r.priority == priority,
            r.parent == self.parent,
            r.children@.len() == 0,
            r.exit_code is None,
            r.vmm.area_seq().len() == 0,
            r.kernel_stack_top == kernel_stack_top,
            r.scratch.kernel_rsp == kernel_stack_top,
            r.scratch.user_rsp_scratch == 0,
            r.user_entry == 0,
            r.user_stack == 0,
            r.heap_start == 0,
            r.brk == 0,
    {
        Task {
            pid: self.pid,
            tid: Tid::next(&mut ids.next_tid),
            thread_group: self.thread_group,
            state: TaskState::Ready,
            rsp: kernel_stack_top - 64,
            cr3: self.cr3,
            preempt_count: 0,
            priority,
            parent: self.parent,
            children: Vec::new(),
            exit_code: None,
            vmm: Vmm::new(),
            kernel_stack_top,
            scratch: PerCpuScratch::new(kernel_stack_top),
            user_entry: 0,
            user_stack: 0,
            heap_start: 0,
            brk: 0,
        }
    }

    /// A forked child: a new process (pid, thread group, tid) whose parent is the process of
    /// `self`, keeping the heap bounds; address space and memory map are filled in by the
    /// fork path (cr3 0, empty map here).
    pub fn fork_kernel(&self, ids: &mut TaskIds, priority: u8, kernel_stack_top: u64) -> (r: Task)
        requires
            kernel_stack_top >= 64,
        ensures
            r.pid.0 == old(ids).next_pid,
            r.tid.0 == old(ids).next_tid,
            final(ids).next_pid == old(ids).next_pid.wrapping_add(1),
            final(ids).next_tid == old(ids).next_tid.wrapping_add(1),
            r.thread_group == r.pid,
            r.state == TaskState::Ready,
            r.rsp == initial_rsp(kernel_stack_top),
            r.cr3 == 0,
            r.preempt_count == 0,
            r.priority == priority,
            r.parent == Some(self.pid),
            r.children@.len() == 0,
            r.exit_code is None,
            r.vmm.area_seq().len() == 0,
            r.kernel_stack_top == kernel_stack_top,
            r.scratch.kernel_rsp == kernel_stack_top,
            r.scratch.user_rsp_scratch == 0,
            r.user_entry == 0,
            r.user_stack == 0,
            r.heap_start == self.heap_start,
            r.brk == self.brk,
    {
        let pid = Pid::next(&mut ids.next_pid);
        Task {
            pid,
            tid: Tid::next(&mut ids.next_tid),
            thread_group: pid,
            state: TaskState::Ready,
            rsp: kernel_stack_top - 64,
            cr3: 0,
            preempt_count: 0,
            priority,
            parent: Some(self.pid),
            children: Vec::new(),
            exit_code: None,
            vmm: Vmm::new(),
            kernel_stack_top,
            scratch: PerCpuScratch::new(kernel_stack_top),
            user_entry: 0,
            user_stack: 0,
            heap_start: self.heap_start,
            brk: self.brk,
        }
    }

    /// A fresh user process entering ring 3 at `entry` with stack `user_stack` in the address
    /// space rooted at `cr3`, with memory map `vmm`; no parent.
    pub fn new_user(ids: &mut TaskIds, entry: u64, user_stack: u64, cr3: u64, vmm: Vmm, priority: u8, kernel_stack_top: u64) -> (r: Task)
        requires
            kernel_stack_top >= 64,
        ensures
            r.pid.0 == old(ids).next_pid,
            r.tid.0 == old(ids).next_tid,
            final(ids).next_pid == old(ids).next_pid.wrapping_add(1),
            final(ids).next_tid == old(ids).next_tid.wrapping_add(1),
            r.thread_group == r.pid,
            r.state == TaskState::Ready,
            r.rsp == initial_rsp(kernel_stack_top),
            r.cr3 == cr3,
            r.preempt_count == 0,
            r.priority == priority,
            r.parent is None,
            r.children@.len() == 0,
            r.exit_code is None,
            r.vmm == vmm,
            r.kernel_stack_top == kernel_stack_top,
            r.scratch.kernel_rsp == kernel_stack_top,
            r.scratch.user_rsp_scratch == 0,
            r.user_entry == entry,
            r.user_stack == user_stack,
            r.heap_start == 0,
            r.brk == 0,
    {
        let pid = Pid::next(&mut ids.next_pid);
        Task {
            pid,
            tid: Tid::next(&mut ids.next_tid),
            thread_group: pid,
            state: TaskState::Ready,
            rsp: kernel_stack_top - 64,
            cr3,
            preempt_count: 0,
            priority,
            parent: None,
            children: Vec::new(),
            exit_code: None,
            vmm,
            kernel_stack_top,
            scratch: PerCpuScratch::new(kernel_stack_top),
            user_entry: entry,
            user_stack,
            heap_start: 0,
            brk: 0,
        }
    }
}

/// Raises the preemption depth (wrapping, as the hardware counter does).
pub fn preempt_disable(count: &mut u32)
    ensures
        *final(count) == old(count).wrapping_add(1),
{
    *count = count.wrapping_add(1);
}

/// Lowers the preemption depth (wrapping, as the hardware counter does).
pub fn preempt_enable(count: &mut u32)
    ensures
        *final(count) == old(count).wrapping_sub(1),
{
    *count = count.wrapping_sub(1);
}

pub fn preempt_count(count: &u32) -> (r: u32)
    ensures
        r == *count,
{
    *count
}

} // verus!
