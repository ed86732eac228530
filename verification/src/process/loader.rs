//! The flat-binary loader. A flat binary has no headers: its bytes are the code, linked to run
//! at a fixed address. The code is mapped eagerly, page by page (the caller copies each chunk
//! into a fresh zeroed frame); the stack is one anonymous area left to the demand pager.
use vstd::prelude::*;
use crate::memory::vmm::{Vmm, VmArea, VmAreaKind, PAGE_SIZE, FLAG_PRESENT, FLAG_WRITABLE, FLAG_USER_ACCESSIBLE};
use crate::process::task::{Task, TaskIds};

verus! {

/// Where flat binaries are linked to run: 4 MiB.
pub const USER_CODE_BASE: u64 = 0x40_0000;

/// The top of the user half of the address space, page-aligned.
pub const USER_STACK_TOP: u64 = 0x0000_7FFF_FFFF_F000;

pub const USER_STACK_SIZE: u64 = 65536;

/// The largest flat binary the user half can hold below the stack.
pub const MAX_CODE_LEN: u64 = 0x0000_7FFF_0000_0000;

/// The first page boundary at or after `x`.
pub open spec fn page_align_up(x: int) -> int {
    ((x + PAGE_SIZE - 1) / PAGE_SIZE as int) * PAGE_SIZE as int
}

/// Where the heap of a program of `len` bytes starts: the first page after its code.
pub fn heap_start_for(len: u64) -> (r: u64)
    requires
        len <= MAX_CODE_LEN,
    ensures
        r == page_align_up(USER_CODE_BASE + len),
        r % PAGE_SIZE == 0,
        USER_CODE_BASE + len <= r < USER_CODE_BASE + len + PAGE_SIZE,
{
    let end = USER_CODE_BASE + len + PAGE_SIZE - 1;
    let r = end & !(PAGE_SIZE - 1);
    proof {
        assert(end & !4095u64 == (end / 4096) * 4096) by (bit_vector);
        assert((end / 4096) * 4096 <= end && end - (end / 4096) * 4096 < 4096) by (nonlinear_arith);
        assert(((end / 4096) * 4096) % 4096 == 0) by (nonlinear_arith);
    }
    r
}

/// One page of code to map: the page's address, and how many bytes of the binary, from which
/// offset, go to its start (the rest of the page is zero).
#[derive(Debug, Clone, Copy, PartialEq, Eq, Structural)]
pub struct CodeChunk {
    pub page: u64,
    pub offset: usize,
    pub len: usize,
}

/// The chunks of a binary of `len` bytes, one per page, in order.
pub open spec fn code_chunks_spec(len: nat) -> Seq<CodeChunk>
{
    let n = ((len + PAGE_SIZE - 1) / (PAGE_SIZE as int)) as nat;
    Seq::new(
        n,
        |i: int| CodeChunk {
            page: (USER_CODE_BASE + i * PAGE_SIZE) as u64,
            offset: (i * PAGE_SIZE) as usize,
            len: (if len - i * PAGE_SIZE < PAGE_SIZE { len - i * PAGE_SIZE } else { PAGE_SIZE as int }) as usize,
        },
    )
}

/// The pages the code of a binary of `len` bytes occupies.
pub fn code_chunks(len: usize) -> (r: Vec<CodeChunk>)
    requires
        len <= MAX_CODE_LEN,
        len + PAGE_SIZE <= usize::MAX,
    ensures
        r@ == code_chunks_spec(len as nat),
{
    let mut out: Vec<CodeChunk> = Vec::new();
    let mut off: usize = 0;
    let ghost n = ((len + PAGE_SIZE - 1) / (PAGE_SIZE as int)) as nat;
    while off < len
        invariant
            len <= MAX_CODE_LEN,
            len + PAGE_SIZE <= usize::MAX,
            off % 4096 == 0,
            off <= len + 4095,
            off == out@.len() * 4096,
            out@.len() <= n,
            n == (len + PAGE_SIZE - 1) / (PAGE_SIZE as int),
            off < len ==> out@.len() < n,
            off >= len ==> out@.len() == n,
            forall|i: int| 0 <= i < out@.len() ==> #[trigger] out@[i] == code_chunks_spec(len as nat)[i],
        decreases len + 4096 - off,
    {
        let n_bytes = if len - off < 4096 { len - off } else { 4096 };
        let ghost k = out@.len();
        out.push(CodeChunk { page: USER_CODE_BASE + off as u64, offset: off, len: n_bytes });
        off = off + 4096;
        proof {
            assert(off == out@.len() * 4096);
            assert(off < len ==> out@.len() < n) by (nonlinear_arith)
                requires
                    off == out@.len() * 4096,
                    n == (len + 4095) / 4096,
            ;
            assert(off >= len ==> out@.len() == n) by (nonlinear_arith)
                requires
                    off == out@.len() * 4096,
                    off - 4096 < len,
                    n == (len + 4095) / 4096,
            ;
        }
    }
    proof {
        assert(out@ =~= code_chunks_spec(len as nat));
    }
    out
}

/// The stack area of a fresh program: anonymous, writable, user-accessible, just below the
/// top of the user half.
pub open spec fn user_stack_area() -> VmArea {
    VmArea {
        start: (USER_STACK_TOP - USER_STACK_SIZE) as u64,
        end: USER_STACK_TOP,
        flags: FLAG_PRESENT | FLAG_WRITABLE | FLAG_USER_ACCESSIBLE,
        kind: VmAreaKind::Anonymous,
    }
}

/// The task of a flat binary of `len` bytes whose code is mapped in the address space
/// `cr3`: user entry at the load address, stack at the top of the user half with its area
/// registered, heap (and program break) on the first page after the code.
pub fn load_flat(ids: &mut TaskIds, len: u64, cr3: u64, priority: u8, kernel_stack_top: u64) -> (t: Task)
    requires
        len <= MAX_CODE_LEN,
        kernel_stack_top >= 64,
    ensures
        t.pid.0 == old(ids).next_pid,
        t.tid.0 == old(ids).next_tid,
        final(ids).next_pid == old(ids).next_pid.wrapping_add(1),
        final(ids).next_tid == old(ids).next_tid.wrapping_add(1),
        t.user_entry == USER_CODE_BASE,
        t.user_stack == USER_STACK_TOP,
        t.cr3 == cr3,
        t.priority == priority,
        t.vmm.area_seq() == seq![user_stack_area()],
        t.vmm.swapped_map() == Map::<u64, (u64, u64)>::empty(),
        t.heap_start == page_align_up(USER_CODE_BASE + len),
        t.brk == t.heap_start,
        t.kernel_stack_top == kernel_stack_top,
{
    let heap_start = heap_start_for(len);
    let mut vmm = Vmm::new();
    vmm.add_area(
        VmArea {
            start: USER_STACK_TOP - USER_STACK_SIZE,
            end: USER_STACK_TOP,
            flags: FLAG_PRESENT | FLAG_WRITABLE | FLAG_USER_ACCESSIBLE,
            kind: VmAreaKind::Anonymous,
        },
    );
    proof {
        assert(vmm.area_seq() =~= seq![user_stack_area()]);
    }
    let mut task = Task::new_user(ids, USER_CODE_BASE, USER_STACK_TOP, cr3, vmm, priority, kernel_stack_top);
    task.heap_start = heap_start;
    task.brk = heap_start;
    task
}

} // verus!
