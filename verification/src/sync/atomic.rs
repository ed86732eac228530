//! A word-sized counter with the operations of a hardware atomic integer.
//!
//! The kernel runs on a single core; the counter is modelled as a plain
//! value whose every operation is one indivisible step on `&mut self`.
use vstd::prelude::*;

verus! {

/// Word-sized counter used for shared kernel metrics (tick counts,
/// preemption depth, allocator cursors).
pub struct KernelAtomicUsize {
    value: usize,
}

impl View for KernelAtomicUsize {
    type V = usize;

    open spec fn view(&self) -> usize {
        self.spec_value()
    }
}

impl KernelAtomicUsize {
    pub closed spec fn spec_value(&self) -> usize {
        self.value
    }

    pub fn new(val: usize) -> (r: Self)
        ensures
            r@ == val,
    {
        Self { value: val }
    }

    pub fn load(&self) -> (r: usize)
        ensures
            r == self@,
    {
        self.value
    }

    pub fn store(&mut self, val: usize)
        ensures
            final(self)@ == val,
    {
        self.value = val;
    }

    /// Adds `val` with wraparound and returns the previous value.
    pub fn fetch_add(&mut self, val: usize) -> (prev: usize)
        ensures
            prev == old(self)@,
            final(self)@ == old(self)@.wrapping_add(val),
    {
        let prev = self.value;
        self.value = self.value.wrapping_add(val);
        prev
    }

    /// Subtracts `val` with wraparound and returns the previous value.
    pub fn fetch_sub(&mut self, val: usize) -> (prev: usize)
        ensures
            prev == old(self)@,
            final(self)@ == old(self)@.wrapping_sub(val),
    {
        let prev = self.value;
        self.value = self.value.wrapping_sub(val);
        prev
    }

    pub fn increment(&mut self)
        ensures
            final(self)@ == old(self)@.wrapping_add(1),
    {
        self.value = self.value.wrapping_add(1);
    }

    pub fn decrement(&mut self)
        ensures
            final(self)@ == old(self)@.wrapping_sub(1),
    {
        self.value = self.value.wrapping_sub(1);
    }

    /// Replaces the value with `new` when it equals `expected`.
    /// `Ok` carries the previous value on success, `Err` the current value on failure.
    pub fn compare_exchange(&mut self, expected: usize, new: usize) -> (r: Result<usize, usize>)
        ensures
            old(self)@ == expected ==> r == Ok::<usize, usize>(expected) && final(self)@ == new,
            old(self)@ != expected ==> r == Err::<usize, usize>(old(self)@) && final(self)@ == old(self)@,
    {
        if self.value == expected {
            self.value = new;
            Ok(expected)
        } else {
            Err(self.value)
        }
    }
}

proof fn lemma_adds_value(values: Seq<usize>, v0: usize, x: usize, n: nat, k: int)
    requires
        values.len() == n + 1,
        values[0] == v0,
        forall|i: int| 0 <= i < n ==> #[trigger] values[i + 1] == values[i].wrapping_add(x),
        v0 + n * x <= usize::MAX,
        0 <= k <= n,
    ensures
        values[k] == v0 + k * x,
    decreases k,
{
    if k > 0 {
        lemma_adds_value(values, v0, x, n, k - 1);
        assert(k * x == (k - 1) * x + x && k * x <= n * x) by (nonlinear_arith)
            requires
                0 < k <= n,
        ;
        assert(values[(k - 1) + 1] == values[k - 1].wrapping_add(x));
    }
}

/// Each `fetch_add` is one indivisible step on the counter, so `n` of them in a row, each
/// adding `x` to a counter that starts at `v0`, leave `v0 + n * x` and hand back
/// `v0, v0 + x, ..., v0 + (n - 1) * x`: for `x > 0` every caller gets a different value. Stated
/// where the sum does not wrap; past that, the values repeat modulo the word size.
pub proof fn lemma_fetch_adds(values: Seq<usize>, prevs: Seq<usize>, v0: usize, x: usize)
    requires
        values.len() == prevs.len() + 1,
        values[0] == v0,
        forall|i: int| 0 <= i < prevs.len() ==> #[trigger] prevs[i] == values[i],
        forall|i: int| 0 <= i < prevs.len() ==> #[trigger] values[i + 1] == values[i].wrapping_add(x),
        v0 + prevs.len() * x <= usize::MAX,
    ensures
        values[prevs.len() as int] == v0 + prevs.len() * x,
        forall|i: int| 0 <= i < prevs.len() ==> #[trigger] prevs[i] == v0 + i * x,
        x > 0 ==> forall|i: int, j: int| 0 <= i < j < prevs.len() ==> #[trigger] prevs[i] < #[trigger] prevs[j],
{
    let n = prevs.len();
    lemma_adds_value(values, v0, x, n, n as int);
    assert forall|i: int| 0 <= i < n implies #[trigger] prevs[i] == v0 + i * x by {
        lemma_adds_value(values, v0, x, n, i);
    }
    if x > 0 {
        assert forall|i: int, j: int| 0 <= i < j < n implies #[trigger] prevs[i] < #[trigger] prevs[j] by {
            assert(prevs[i] == v0 + i * x);
            assert(prevs[j] == v0 + j * x);
            assert(i * x < j * x) by (nonlinear_arith)
                requires
                    0 <= i < j,
                    x > 0,
            ;
        }
    }
}

} // verus!
