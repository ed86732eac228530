//! Process and thread identifiers.
use vstd::prelude::*;

verus! {

/// Process identifier; 0 is reserved for the idle task.
#[derive(Debug, Clone, Copy, PartialEq, Eq, Structural, PartialOrd, Ord)]
pub struct Pid(pub u64);

/// Thread identifier.
#[derive(Debug, Clone, Copy, PartialEq, Eq, Structural, PartialOrd, Ord)]
pub struct Tid(pub u64);

impl Pid {
    /// Takes the next identifier from `counter` (which starts at 1) and advances it. Until the
    /// counter runs out, the identifier is never 0 and every later call returns a larger one:
    /// each call returns the counter and leaves it above what it returned.
    pub fn next(counter: &mut u64) -> (r: Self)
        ensures
            r.0 == *old(counter),
            *final(counter) == old(counter).wrapping_add(1),
            1 <= *old(counter) < u64::MAX ==> 1 <= r.0 < *final(counter),
    {
        let id = *counter;
        *counter = counter.wrapping_add(1);
        Pid(id)
    }

    pub fn from_u64(v: u64) -> (r: Self)
        ensures
            r.0 == v,
    {
        Pid(v)
    }

    pub fn as_u64(self) -> (r: u64)
        ensures
            r == self.0,
    {
        self.0
    }
}

impl Tid {
    /// Takes the next identifier from `counter` (which starts at 1) and advances it. Until the
    /// counter runs out, the identifier is never 0 and every later call returns a larger one:
    /// each call returns the counter and leaves it above what it returned.
    pub fn next(counter: &mut u64) -> (r: Self)
        ensures
            r.0 == *old(counter),
            *final(counter) == old(counter).wrapping_add(1),
            1 <= *old(counter) < u64::MAX ==> 1 <= r.0 < *final(counter),
    {
        let id = *counter;
        *counter = counter.wrapping_add(1);
        Tid(id)
    }

    pub fn from_u64(v: u64) -> (r: Self)
        ensures
            r.0 == v,
    {
        Tid(v)
    }

    pub fn as_u64(self) -> (r: u64)
        ensures
            r == self.0,
    {
        self.0
    }
}

proof fn lemma_counter_values(counters: Seq<u64>, n: nat, i: int)
    requires
        counters.len() == n + 1,
        counters[0] == 1,
        forall|k: int| 0 <= k < n ==> #[trigger] counters[k + 1] == counters[k].wrapping_add(1),
        n < u64::MAX,
        0 <= i <= n,
    ensures
        counters[i] == i + 1,
    decreases i,
{
    if i > 0 {
        lemma_counter_values(counters, n, i - 1);
        assert(counters[(i - 1) + 1] == counters[i - 1].wrapping_add(1));
    }
}

/// Identifiers drawn one after another (`Pid::next` or `Tid::next`) from a counter that starts
/// at 1 are 1, 2, 3, ...: none is 0, the identifier reserved for the idle task, and each is
/// larger than every one drawn before it, so none repeats (up to `u64::MAX - 1` draws).
pub proof fn lemma_ids_increase(counters: Seq<u64>, ids: Seq<u64>)
    requires
        counters.len() == ids.len() + 1,
        counters[0] == 1,
        forall|k: int| 0 <= k < ids.len() ==> #[trigger] ids[k] == counters[k],
        forall|k: int| 0 <= k < ids.len() ==> #[trigger] counters[k + 1] == counters[k].wrapping_add(1),
        ids.len() < u64::MAX,
    ensures
        forall|k: int| 0 <= k < ids.len() ==> #[trigger] ids[k] == k + 1,
        forall|a: int, b: int| 0 <= a < b < ids.len() ==> #[trigger] ids[a] < #[trigger] ids[b],
{
    assert forall|k: int| 0 <= k < ids.len() implies #[trigger] ids[k] == k + 1 by {
        lemma_counter_values(counters, ids.len(), k);
    }
    assert forall|a: int, b: int| 0 <= a < b < ids.len() implies #[trigger] ids[a] < #[trigger] ids[b] by {
        assert(ids[a] == a + 1);
        assert(ids[b] == b + 1);
    }
}

} // verus!
