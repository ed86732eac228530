//! Per-task scratch area and the register frame saved on system-call entry.
use vstd::prelude::*;

verus! {

/// The block `GS_BASE` points at after `swapgs`: a slot for the user stack pointer and the top
/// of the task's kernel stack.
pub struct PerCpuScratch {
    pub user_rsp_scratch: u64,
    pub kernel_rsp: u64,
}

impl PerCpuScratch {
    pub fn new(kernel_stack_top: u64) -> (r: Self)
        ensures
            r.user_rsp_scratch == 0,
            r.kernel_rsp == kernel_stack_top,
    {
        Self { user_rsp_scratch: 0, kernel_rsp: kernel_stack_top }
    }
}

/// Register state captured on system-call entry, in push order.
#[derive(Debug, Clone, Copy)]
pub struct TrapFrame {
    pub r15: u64,
    pub r14: u64,
    pub r13: u64,
    pub r12: u64,
    pub rbp: u64,
    pub rbx: u64,
    /// user RFLAGS, saved by the CPU into r11
    pub r11: u64,
    pub r10: u64,
    pub r9: u64,
    pub r8: u64,
    pub rdi: u64,
    pub rsi: u64,
    pub rdx: u64,
    /// user RIP, saved by the CPU into rcx
    pub rcx: u64,
    /// system-call number on entry, return value on exit
    pub rax: u64,
    pub user_rsp: u64,
}

} // verus!
