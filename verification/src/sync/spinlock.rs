//! Spinlock that disables preemption while it is held.
//!
//! The kernel runs on one core, so the lock is modelled as a flag beside the
//! protected value; taking it and giving it back move the preemption depth.
use vstd::prelude::*;
use crate::sync::atomic::KernelAtomicUsize;

verus! {

/// Raises the preemption depth by one.
pub fn preempt_disable(count: &mut KernelAtomicUsize)
    ensures
        final(count)@ == old(count)@.wrapping_add(1),
{
    count.increment();
}

/// Lowers the preemption depth by one.
pub fn preempt_enable(count: &mut KernelAtomicUsize)
    ensures
        final(count)@ == old(count)@.wrapping_sub(1),
{
    count.decrement();
}

pub struct Spinlock<T> {
    locked: bool,
    data: T,
}

impl<T> Spinlock<T> {
    pub closed spec fn is_locked(&self) -> bool {
        self.locked
    }

    pub closed spec fn value(&self) -> T {
        self.data
    }

    pub fn new(val: T) -> (r: Self)
        ensures
            !r.is_locked(),
            r.value() == val,
    {
        Self { locked: false, data: val }
    }

    /// Takes the lock; the lock must be free. The kernel runs on one core, and a holder keeps
    /// preemption disabled until it unlocks, so while one task spins on a held lock the holder
    /// never runs again to release it: the spin would not end. A caller that cannot know the
    /// lock is free uses `try_lock` and, on failure, lets the holder run before trying again.
    pub fn lock(&mut self, preempt: &mut KernelAtomicUsize)
        requires
            !old(self).is_locked(),
        ensures
            final(self).is_locked(),
            final(self).value() == old(self).value(),
            final(preempt)@ == old(preempt)@.wrapping_add(1),
    {
        self.locked = true;
        preempt_disable(preempt);
    }

    /// One attempt to take the lock; preemption is disabled only on success.
    pub fn try_lock(&mut self, preempt: &mut KernelAtomicUsize) -> (acquired: bool)
        ensures
            acquired == !old(self).is_locked(),
            final(self).is_locked(),
            final(self).value() == old(self).value(),
            acquired ==> final(preempt)@ == old(preempt)@.wrapping_add(1),
            !acquired ==> final(preempt)@ == old(preempt)@,
    {
        if self.locked {
            false
        } else {
            self.locked = true;
            preempt_disable(preempt);
            true
        }
    }

    /// Releases the lock and re-enables preemption (what dropping the guard does).
    pub fn unlock(&mut self, preempt: &mut KernelAtomicUsize)
        requires
            old(self).is_locked(),
        ensures
            !final(self).is_locked(),
            final(self).value() == old(self).value(),
            final(preempt)@ == old(preempt)@.wrapping_sub(1),
    {
        self.locked = false;
        preempt_enable(preempt);
    }

    /// Shared access to the protected value.
    pub fn get(&self) -> (r: &T)
        ensures
            *r == self.value(),
    {
        &self.data
    }

    /// Exclusive access to the protected value.
    pub fn get_mut(&mut self) -> (r: &mut T)
        ensures
            *r == old(self).value(),
            final(self).value() == *final(r),
            final(self).is_locked() == old(self).is_locked(),
    {
        &mut self.data
    }
}

/// Taking a lock and then giving it back leaves it free, its value as it was, and the
/// preemption depth where it started, whatever that depth was (the two steps wrap alike).
pub proof fn lemma_lock_then_unlock<T>(a: Spinlock<T>, b: Spinlock<T>, c: Spinlock<T>, d0: usize, d1: usize, d2: usize)
    requires
        !a.is_locked(),
        b.is_locked(),
        b.value() == a.value(),
        d1 == d0.wrapping_add(1),
        !c.is_locked(),
        c.value() == b.value(),
        d2 == d1.wrapping_sub(1),
    ensures
        !c.is_locked(),
        c.value() == a.value(),
        d2 == d0,
{
}

} // verus!
