//! Interrupt bookkeeping: the timer tick count and the ring of raw keyboard scancodes that the
//! keyboard handler deposits and the console drains.
use vstd::prelude::*;
use crate::sync::atomic::KernelAtomicUsize;

verus! {

/// Slots in the scancode ring; one stays free, so it holds one code fewer.
pub const SCANCODE_SLOTS: usize = 256;

/// A ring buffer of scancodes: `head` is the oldest, `tail` the next free slot.
pub struct ScancodeQueue {
    buf: Vec<u8>,
    head: usize,
    tail: usize,
}

impl ScancodeQueue {
    /// The queued scancodes, oldest first.
    pub closed spec fn codes(&self) -> Seq<u8> {
        let n = if self.head <= self.tail { self.tail - self.head } else { self.tail + SCANCODE_SLOTS - self.head };
        Seq::new(n as nat, |i: int| self.buf@[(self.head + i) % (SCANCODE_SLOTS as int)])
    }

    pub closed spec fn wf(&self) -> bool {
        &&& self.buf@.len() == SCANCODE_SLOTS
        &&& self.head < SCANCODE_SLOTS
        &&& self.tail < SCANCODE_SLOTS
    }

    pub fn new() -> (r: Self)
        ensures
            r.wf(),
            r.codes() == Seq::<u8>::empty(),
    {
        let mut buf: Vec<u8> = Vec::new();
        let mut i: usize = 0;
        while i < SCANCODE_SLOTS
            invariant
                i <= SCANCODE_SLOTS,
                buf@.len() == i,
            decreases SCANCODE_SLOTS - i,
        {
            buf.push(0);
            i = i + 1;
        }
        let r = Self { buf, head: 0, tail: 0 };
        assert(r.codes() =~= Seq::<u8>::empty());
        r
    }
}

/// Appends `scancode` to the ring; when the ring is full the code is dropped.
/// One `push_scancode`, from the codes `a` to the codes `b`: the code joins the back of the
/// ring unless the ring is full (255 codes), when it is dropped.
pub open spec fn push_step(a: Seq<u8>, c: u8, b: Seq<u8>) -> bool {
    &&& a.len() < SCANCODE_SLOTS
    &&& a.len() < SCANCODE_SLOTS - 1 ==> b == a.push(c)
    &&& a.len() == SCANCODE_SLOTS - 1 ==> b == a
}

/// One `pop_scancode`, from the codes `a` to the codes `b`, returning `r`: the oldest code
/// leaves the ring; an empty ring gives nothing and stays empty.
pub open spec fn pop_step(a: Seq<u8>, r: Option<u8>, b: Seq<u8>) -> bool {
    &&& a.len() == 0 ==> r is None && b == a
    &&& a.len() > 0 ==> r == Some(a[0]) && b == a.drop_first()
}

pub fn push_scancode(q: &mut ScancodeQueue, scancode: u8)
    requires
        old(q).wf(),
    ensures
        final(q).wf(),
        push_step(old(q).codes(), scancode, final(q).codes()),
{
    let tail = q.tail;
    let next_tail = (tail + 1) % SCANCODE_SLOTS;
    if next_tail != q.head {
        let ghost old_codes = q.codes();
        q.buf.set(tail, scancode);
        q.tail = next_tail;
        proof {
            assert(q.codes() =~= old_codes.push(scancode)) by {
                let n = old_codes.len();
                assert forall|i: int| 0 <= i < n implies q.codes()[i] == old_codes[i] by {
                    assert((q.head + i) % 256 != tail as int);
                }
                assert(q.codes()[n as int] == scancode);
            }
        }
    }
}

/// Takes the oldest scancode, if any.
pub fn pop_scancode(q: &mut ScancodeQueue) -> (r: Option<u8>)
    requires
        old(q).wf(),
    ensures
        final(q).wf(),
        pop_step(old(q).codes(), r, final(q).codes()),
{
    let head = q.head;
    if head == q.tail {
        return None;
    }
    let scancode = q.buf[head];
    q.head = (head + 1) % SCANCODE_SLOTS;
    proof {
        assert(q.codes() =~= old(q).codes().drop_first());
    }
    Some(scancode)
}

/// Counts a timer interrupt.
pub fn tick(ticks: &mut KernelAtomicUsize)
    ensures
        final(ticks)@ == old(ticks)@.wrapping_add(1),
{
    ticks.increment();
}

/// The user code and data selectors, at privilege level 3, from their table positions.
pub fn user_selectors(user_code: u16, user_data: u16) -> (r: (u16, u16))
    ensures
        r == (user_code | 3, user_data | 3),
{
    (user_code | 3, user_data | 3)
}

/// The interrupt vectors of the hardware interrupts the kernel handles.
#[derive(Debug, Clone, Copy, PartialEq, Eq, Structural)]
pub enum InterruptIndex {
    Timer,
    Keyboard,
}

impl InterruptIndex {
    /// The vector number: the timer at 0x20, the keyboard right after it.
    pub fn as_u8(self) -> (r: u8)
        ensures
            r == (match self {
                InterruptIndex::Timer => 0x20u8,
                InterruptIndex::Keyboard => 0x21u8,
            }),
    {
        match self {
            InterruptIndex::Timer => 0x20,
            InterruptIndex::Keyboard => 0x21,
        }
    }
}

/// The codes a queue holding `start` holds after `push_scancode` of each of `cs` in turn (a code
/// that finds the ring full is dropped).
pub open spec fn after_pushes(start: Seq<u8>, cs: Seq<u8>) -> Seq<u8>
    decreases cs.len(),
{
    if cs.len() == 0 {
        start
    } else {
        let s = after_pushes(start, cs.drop_last());
        if s.len() < SCANCODE_SLOTS - 1 {
            s.push(cs.last())
        } else {
            s
        }
    }
}

/// What `k` calls of `pop_scancode` on a queue holding `codes` return, in order, and the codes
/// left.
pub open spec fn pop_results(codes: Seq<u8>, k: nat) -> (Seq<Option<u8>>, Seq<u8>)
    decreases k,
{
    if k == 0 {
        (Seq::empty(), codes)
    } else {
        let (rs, c) = pop_results(codes, (k - 1) as nat);
        if c.len() == 0 {
            (rs.push(None), c)
        } else {
            (rs.push(Some(c[0])), c.drop_first())
        }
    }
}

proof fn lemma_after_pushes_empty(cs: Seq<u8>)
    requires
        cs.len() <= SCANCODE_SLOTS - 1,
    ensures
        after_pushes(Seq::empty(), cs) == cs,
    decreases cs.len(),
{
    if cs.len() > 0 {
        lemma_after_pushes_empty(cs.drop_last());
        assert(cs.drop_last().push(cs.last()) =~= cs);
    }
}

proof fn lemma_pop_results(cs: Seq<u8>, k: nat)
    requires
        k <= cs.len(),
    ensures
        pop_results(cs, k) == (Seq::new(k, |i: int| Some(cs[i])), cs.skip(k as int)),
    decreases k,
{
    if k > 0 {
        lemma_pop_results(cs, (k - 1) as nat);
        let c = cs.skip(k - 1);
        assert(c[0] == cs[k - 1]);
        assert(c.drop_first() =~= cs.skip(k as int));
        assert(Seq::new((k - 1) as nat, |i: int| Some(cs[i])).push(Some(cs[k - 1])) =~= Seq::new(k, |i: int| Some(cs[i])));
    } else {
        assert(cs.skip(0) =~= cs);
        assert(Seq::new(0, |i: int| Some(cs[i])) =~= Seq::<Option<u8>>::empty());
    }
}

/// The scancode ring is first in, first out: on an empty ring, pushing up to 255 codes and then
/// popping one more time than there are codes returns each code in the order pushed, then
/// nothing, and leaves the ring empty.
pub proof fn lemma_scancodes_fifo(cs: Seq<u8>)
    requires
        cs.len() <= SCANCODE_SLOTS - 1,
    ensures
        pop_results(after_pushes(Seq::empty(), cs), cs.len() + 1) == (
            Seq::new(cs.len(), |i: int| Some(cs[i])).push(None),
            Seq::<u8>::empty(),
        ),
{
    lemma_after_pushes_empty(cs);
    lemma_pop_results(cs, cs.len());
    assert(cs.skip(cs.len() as int) =~= Seq::<u8>::empty());
}

proof fn lemma_pushed_prefix(cs: Seq<u8>, states: Seq<Seq<u8>>, k: int)
    requires
        cs.len() <= SCANCODE_SLOTS - 1,
        states.len() > cs.len(),
        states[0] == Seq::<u8>::empty(),
        forall|j: int| 0 <= j < cs.len() ==> #[trigger] push_step(states[j], cs[j], states[j + 1]),
        0 <= k <= cs.len(),
    ensures
        states[k] == cs.take(k),
    decreases k,
{
    if k > 0 {
        lemma_pushed_prefix(cs, states, k - 1);
        let j = k - 1;
        assert(push_step(states[j], cs[j], states[j + 1]));
        assert(cs.take(k - 1).push(cs[k - 1]) =~= cs.take(k));
    } else {
        assert(cs.take(0) =~= Seq::<u8>::empty());
    }
}

proof fn lemma_popped_suffix(cs: Seq<u8>, states: Seq<Seq<u8>>, pops: Seq<Option<u8>>, k: int)
    requires
        states.len() == 2 * cs.len() + 2,
        pops.len() == cs.len() + 1,
        states[cs.len() as int] == cs,
        forall|j: int| 0 <= j <= cs.len() ==> #[trigger] pop_step(states[cs.len() + j], pops[j], states[cs.len() + j + 1]),
        0 <= k <= cs.len(),
    ensures
        states[cs.len() + k] == cs.skip(k),
        forall|j: int| 0 <= j < k ==> pops[j] == Some(cs[j]),
    decreases k,
{
    if k > 0 {
        lemma_popped_suffix(cs, states, pops, k - 1);
        assert(pop_step(states[cs.len() + (k - 1)], pops[k - 1], states[cs.len() + (k - 1) + 1]));
        assert(cs.skip(k - 1)[0] == cs[k - 1]);
        assert(cs.skip(k - 1).drop_first() =~= cs.skip(k));
    } else {
        assert(cs.skip(0) =~= cs);
    }
}

/// The scancode ring is first in, first out, as its calls behave: on a ring that starts empty,
/// `push_scancode` of each of `cs` in turn (up to 255 codes) and then `pop_scancode` one more
/// time than there are codes, each call as its contract states (`states` the ring's codes
/// before, between and after the calls), returns every code in the order pushed, then
/// nothing, and leaves the ring empty.
pub proof fn lemma_scancode_calls_fifo(cs: Seq<u8>, states: Seq<Seq<u8>>, pops: Seq<Option<u8>>)
    requires
        cs.len() <= SCANCODE_SLOTS - 1,
        states.len() == 2 * cs.len() + 2,
        pops.len() == cs.len() + 1,
        states[0] == Seq::<u8>::empty(),
        forall|j: int| 0 <= j < cs.len() ==> #[trigger] push_step(states[j], cs[j], states[j + 1]),
        forall|j: int| 0 <= j <= cs.len() ==> #[trigger] pop_step(states[cs.len() + j], pops[j], states[cs.len() + j + 1]),
    ensures
        pops == Seq::new(cs.len(), |i: int| Some(cs[i])).push(None),
        states.last() == Seq::<u8>::empty(),
{
    let m = cs.len() as int;
    lemma_pushed_prefix(cs, states, m);
    assert(cs.take(m) =~= cs);
    lemma_popped_suffix(cs, states, pops, m);
    assert(cs.skip(m) =~= Seq::<u8>::empty());
    assert(pop_step(states[m + m], pops[m], states[m + m + 1]));
    assert(pops =~= Seq::new(cs.len(), |i: int| Some(cs[i])).push(None));
}

} // verus!
