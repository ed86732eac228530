//! Signals: a pending bit and a handler address per signal, and the delivery plan that makes a
//! user thread enter its handler on the way back from the kernel.
use vstd::prelude::*;
use vstd::std_specs::bits::{u32_trailing_zeros, axiom_u32_trailing_zeros};
use crate::arch::syscall::TrapFrame;

verus! {

pub const MAX_SIGNALS: usize = 32;

pub const SIGTERM: u8 = 15;

/// The system-call number the trampoline issues to return from a handler.
pub const SYS_SIGRETURN_NR: u8 = 54;

/// Bytes reserved on the user stack for the trampoline.
pub const TRAMPOLINE_PAD: u64 = 16;

/// Bytes of a saved `TrapFrame` (sixteen 64-bit registers).
pub const TRAP_FRAME_SIZE: u64 = 128;

/// Whether signal `s` is pending in the bit set `p`.
pub open spec fn is_pending(p: u32, s: u32) -> bool {
    (p >> s) & 1u32 == 1u32
}

pub struct SignalState {
    pub pending: u32,
    pub handlers: [u64; 32],
}

impl SignalState {
    /// No signal pending, no handler installed.
    pub fn new() -> (r: Self)
        ensures
            r.pending == 0,
            forall|i: int| 0 <= i < 32 ==> r.handlers@[i] == 0,
    {
        Self { pending: 0, handlers: [0u64; 32] }
    }

    /// Marks `signum` pending; a number out of range is ignored.
    pub fn set_pending(&mut self, signum: u8)
        ensures
            final(self).handlers == old(self).handlers,
            signum < 32 ==> final(self).pending == old(self).pending | (1u32 << signum),
            signum >= 32 ==> final(self).pending == old(self).pending,
    {
        if (signum as usize) < MAX_SIGNALS {
            self.pending = self.pending | (1u32 << signum);
        }
    }

    /// Clears `signum`; a number out of range is ignored.
    pub fn clear_pending(&mut self, signum: u8)
        ensures
            final(self).handlers == old(self).handlers,
            signum < 32 ==> final(self).pending == old(self).pending & !(1u32 << signum),
            signum >= 32 ==> final(self).pending == old(self).pending,
    {
        if (signum as usize) < MAX_SIGNALS {
            self.pending = self.pending & !(1u32 << signum);
        }
    }

    /// Installs `handler` (0: none) for `signum`; a number out of range is ignored.
    pub fn set_handler(&mut self, signum: u8, handler: u64)
        ensures
            final(self).pending == old(self).pending,
            signum < 32 ==> final(self).handlers@ == old(self).handlers@.update(signum as int, handler),
            signum >= 32 ==> final(self).handlers == old(self).handlers,
    {
        if (signum as usize) < MAX_SIGNALS {
            self.handlers[signum as usize] = handler;
        }
    }

    /// The lowest-numbered pending signal and its handler.
    pub fn next_pending(&self) -> (r: Option<(u8, u64)>)
        ensures
            self.pending == 0 ==> r is None,
            self.pending != 0 ==> {
                let s = u32_trailing_zeros(self.pending);
                &&& s < 32
                &&& r == Some((s as u8, self.handlers@[s as int]))
            },
    {
        if self.pending == 0 {
            return None;
        }
        proof {
            axiom_u32_trailing_zeros(self.pending);
        }
        let signum = self.pending.trailing_zeros() as u8;
        Some((signum, self.handlers[signum as usize]))
    }
}

/// The signal `next_pending` picks is pending, and no lower-numbered signal is.
pub proof fn lemma_next_pending_is_lowest(p: u32)
    requires
        p != 0,
    ensures
        u32_trailing_zeros(p) < 32,
        is_pending(p, u32_trailing_zeros(p)),
        forall|j: u32| j < u32_trailing_zeros(p) ==> !is_pending(p, j),
{
    axiom_u32_trailing_zeros(p);
}

/// Setting a signal makes it pending and leaves the others as they were.
pub proof fn lemma_set_then_pending(p: u32, s: u32, t: u32)
    requires
        s < 32,
        t < 32,
    ensures
        is_pending(p | (1u32 << s), s),
        t != s ==> (is_pending(p | (1u32 << s), t) == is_pending(p, t)),
{
    assert(((p | (1u32 << s)) >> s) & 1u32 == 1u32) by (bit_vector)
        requires
            s < 32,
    ;
    assert(t != s ==> ((((p | (1u32 << s)) >> t) & 1u32 == 1u32) == (((p >> t) & 1u32) == 1u32))) by (bit_vector)
        requires
            s < 32,
            t < 32,
    ;
}

/// Clearing a signal makes it not pending and leaves the others as they were.
pub proof fn lemma_clear_then_not_pending(p: u32, s: u32, t: u32)
    requires
        s < 32,
        t < 32,
    ensures
        !is_pending(p & !(1u32 << s), s),
        t != s ==> (is_pending(p & !(1u32 << s), t) == is_pending(p, t)),
{
    assert(((p & !(1u32 << s)) >> s) & 1u32 == 0u32) by (bit_vector)
        requires
            s < 32,
    ;
    assert(t != s ==> ((((p & !(1u32 << s)) >> t) & 1u32 == 1u32) == (((p >> t) & 1u32) == 1u32))) by (bit_vector)
        requires
            s < 32,
            t < 32,
    ;
}

/// The trampoline a handler returns into: `mov eax, SYS_SIGRETURN; syscall; jmp $`, then
/// no-ops up to the reserved size.
pub open spec fn trampoline_spec() -> Seq<u8> {
    seq![0xB8u8, SYS_SIGRETURN_NR, 0u8, 0u8, 0u8, 0x0Fu8, 0x05u8, 0xEBu8, 0xFEu8, 0x90u8, 0x90u8, 0x90u8, 0x90u8, 0x90u8, 0x90u8, 0x90u8]
}

pub fn trampoline_bytes() -> (r: Vec<u8>)
    ensures
        r@ == trampoline_spec(),
        r@.len() == TRAMPOLINE_PAD,
{
    let r = vec![0xB8u8, SYS_SIGRETURN_NR, 0u8, 0u8, 0u8, 0x0Fu8, 0x05u8, 0xEBu8, 0xFEu8, 0x90u8, 0x90u8, 0x90u8, 0x90u8, 0x90u8, 0x90u8, 0x90u8];
    assert(r@ =~= trampoline_spec());
    r
}

/// What delivering the next pending signal asks for.
#[derive(Debug, Clone, Copy)]
pub enum Delivery {
    /// No signal is pending.
    Nothing,
    /// The signal has no handler: the thread exits with this code.
    Exit(i32),
    /// Enter the handler: write `saved` at `saved_addr`, the trampoline at `tramp_addr` and
    /// `tramp_addr` itself (the handler's return address) at the new stack pointer.
    Handler { new_rsp: u64, tramp_addr: u64, saved_addr: u64, saved: TrapFrame },
}

/// The stack pointer a handler starts with: below the saved frame, the trampoline and a return
/// address, 16-byte aligned.
pub open spec fn handler_rsp(old_rsp: u64) -> u64 {
    ((old_rsp - TRAP_FRAME_SIZE - TRAMPOLINE_PAD - 8) as u64) & !0xFu64
}

/// Takes the next pending signal off `signals` and plans its delivery to the thread whose
/// saved registers are `frame`. When it has a handler, `frame` is changed to enter it: the
/// handler's address as the return address, the new stack, the signal number as argument;
/// the user stack must then have room below it for the saved frame and the trampoline.
pub fn deliver_pending_signal(signals: &mut SignalState, frame: &mut TrapFrame) -> (r: Delivery)
    requires
        old(signals).pending != 0 && old(signals).handlers@[u32_trailing_zeros(old(signals).pending) as int] != 0
            ==> old(frame).user_rsp >= TRAP_FRAME_SIZE + TRAMPOLINE_PAD + 8,
    ensures
        final(signals).handlers == old(signals).handlers,
        old(signals).pending == 0 ==> r is Nothing && *final(frame) == *old(frame) && final(signals).pending == 0,
        old(signals).pending != 0 ==> {
            let s = u32_trailing_zeros(old(signals).pending);
            let h = old(signals).handlers@[s as int];
            let rsp = handler_rsp(old(frame).user_rsp);
            &&& s < 32
            &&& final(signals).pending == old(signals).pending & !(1u32 << s)
            &&& h == 0 ==> r == Delivery::Exit((-(s as int)) as i32) && *final(frame) == *old(frame)
            &&& h != 0 ==> {
                &&& r == Delivery::Handler { new_rsp: rsp, tramp_addr: (rsp + 8) as u64, saved_addr: (rsp + 8 + TRAMPOLINE_PAD) as u64, saved: *old(frame) }
                &&& *final(frame) == TrapFrame { rcx: h, user_rsp: rsp, rdi: s as u64, ..*old(frame) }
            }
        },
{
    let (signum, handler) = match signals.next_pending() {
        Some(p) => p,
        None => return Delivery::Nothing,
    };
    signals.clear_pending(signum);
    if handler == 0 {
        return Delivery::Exit(-(signum as i32));
    }
    let old_rsp = frame.user_rsp;
    let below = old_rsp - TRAP_FRAME_SIZE - TRAMPOLINE_PAD - 8;
    let new_rsp = below & !0xFu64;
    proof {
        assert(new_rsp <= below) by (bit_vector)
            requires
                new_rsp == below & !0xFu64,
        ;
    }
    let tramp_addr = new_rsp + 8;
    let saved_addr = new_rsp + 8 + TRAMPOLINE_PAD;
    let saved = *frame;
    frame.rcx = handler;
    frame.user_rsp = new_rsp;
    frame.rdi = signum as u64;
    Delivery::Handler { new_rsp, tramp_addr, saved_addr, saved }
}

/// The handler's stack is 16-byte aligned and the saved frame it writes ends below the
/// thread's stack pointer: nothing the thread had on its stack is overwritten.
pub proof fn lemma_handler_frame_below_stack(old_rsp: u64)
    requires
        old_rsp >= TRAP_FRAME_SIZE + TRAMPOLINE_PAD + 8,
    ensures
        handler_rsp(old_rsp) % 16 == 0,
        handler_rsp(old_rsp) + 8 + TRAMPOLINE_PAD + TRAP_FRAME_SIZE <= old_rsp,
{
    let x = (old_rsp - TRAP_FRAME_SIZE - TRAMPOLINE_PAD - 8) as u64;
    assert((x & !0xFu64) % 16 == 0 && (x & !0xFu64) <= x) by (bit_vector);
}

} // verus!
