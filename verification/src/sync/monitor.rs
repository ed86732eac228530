//! Monitor: a spinlock-protected value with a condition variable.
use vstd::prelude::*;
use crate::process::table::{BTreeTaskRegistry, with_state};
use crate::process::task::TaskState;
use crate::process::pid::Tid;
use crate::scheduler::mlfq::{MlfqScheduler, NUM_QUEUES};
use crate::scheduler::{woken, woken_all, woken_queues};
use crate::sync::atomic::KernelAtomicUsize;
use crate::sync::condvar::CondVar;
use crate::sync::spinlock::Spinlock;

verus! {

pub struct Monitor<T> {
    lock: Spinlock<T>,
    cond: CondVar,
}

impl<T> Monitor<T> {
    pub closed spec fn is_locked(&self) -> bool {
        self.lock.is_locked()
    }

    pub closed spec fn value(&self) -> T {
        self.lock.value()
    }

    pub closed spec fn waiting(&self) -> Seq<Tid> {
        self.cond.waiting()
    }

    pub fn new(val: T) -> (r: Self)
        ensures
            !r.is_locked(),
            r.value() == val,
            r.waiting() == Seq::<Tid>::empty(),
    {
        Self { lock: Spinlock::new(val), cond: CondVar::new() }
    }

    pub fn lock(&mut self, preempt: &mut KernelAtomicUsize)
        requires
            !old(self).is_locked(),
        ensures
            final(self).is_locked(),
            final(self).value() == old(self).value(),
            final(self).waiting() == old(self).waiting(),
            final(preempt)@ == old(preempt)@.wrapping_add(1),
    {
        self.lock.lock(preempt);
    }

    pub fn try_lock(&mut self, preempt: &mut KernelAtomicUsize) -> (acquired: bool)
        ensures
            acquired == !old(self).is_locked(),
            final(self).is_locked(),
            final(self).value() == old(self).value(),
            final(self).waiting() == old(self).waiting(),
            acquired ==> final(preempt)@ == old(preempt)@.wrapping_add(1),
            !acquired ==> final(preempt)@ == old(preempt)@,
    {
        self.lock.try_lock(preempt)
    }

    pub fn unlock(&mut self, preempt: &mut KernelAtomicUsize)
        requires
            old(self).is_locked(),
        ensures
            !final(self).is_locked(),
            final(self).value() == old(self).value(),
            final(self).waiting() == old(self).waiting(),
            final(preempt)@ == old(preempt)@.wrapping_sub(1),
    {
        self.lock.unlock(preempt);
    }

    pub fn get(&self) -> (r: &T)
        ensures
            *r == self.value(),
    {
        self.lock.get()
    }

    pub fn get_mut(&mut self) -> (r: &mut T)
        ensures
            *r == old(self).value(),
            final(self).value() == *final(r),
            final(self).is_locked() == old(self).is_locked(),
            final(self).waiting() == old(self).waiting(),
    {
        self.lock.get_mut()
    }

    /// The running thread, holding the lock, waits: it queues on the condition, is marked blocked
    /// and gives the lock up. The caller schedules and, once the thread runs again, takes the
    /// lock again (`lock`, or `try_lock` until it succeeds); `lemma_wait_then_relock` states
    /// what the two steps leave.
    pub fn wait(&mut self, sched: &MlfqScheduler, table: &mut BTreeTaskRegistry, preempt: &mut KernelAtomicUsize)
        requires
            old(self).is_locked(),
            old(table).wf(),
            sched.current() is Some,
        ensures
            final(table).wf(),
            !final(self).is_locked(),
            final(self).value() == old(self).value(),
            final(self).waiting() == old(self).waiting().push(sched.current().unwrap()),
            final(table).tasks() == with_state(old(table).tasks(), sched.current().unwrap(), TaskState::Blocked),
            final(preempt)@ == old(preempt)@.wrapping_sub(1),
            sched.wf(old(table)) ==> sched.wf(final(table)),
    {
        self.cond.wait(sched, table);
        self.lock.unlock(preempt);
    }

    pub fn signal(&mut self, sched: &mut MlfqScheduler, table: &mut BTreeTaskRegistry)
        requires
            old(table).wf(),
            old(sched).queues().len() == NUM_QUEUES,
        ensures
            final(table).wf(),
            final(self).is_locked() == old(self).is_locked(),
            final(self).value() == old(self).value(),
            old(self).waiting().len() == 0 ==> final(self).waiting() == old(self).waiting()
                && final(table).tasks() == old(table).tasks() && final(sched).queues() == old(sched).queues(),
            old(self).waiting().len() > 0 ==> {
                let t = old(self).waiting()[0];
                &&& final(self).waiting() == old(self).waiting().subrange(1, old(self).waiting().len() as int)
                &&& final(table).tasks() == woken(old(table).tasks(), t)
                &&& final(sched).queues() == woken_queues(old(sched).queues(), old(table).tasks(), t)
            },
            old(sched).wf(old(table)) ==> final(sched).wf(final(table)),
    {
        self.cond.signal(sched, table);
    }

    pub fn broadcast(&mut self, sched: &mut MlfqScheduler, table: &mut BTreeTaskRegistry)
        requires
            old(table).wf(),
            old(sched).queues().len() == NUM_QUEUES,
        ensures
            final(table).wf(),
            final(self).is_locked() == old(self).is_locked(),
            final(self).value() == old(self).value(),
            final(self).waiting() == Seq::<Tid>::empty(),
            (final(table).tasks(), final(sched).queues()) == woken_all(old(table).tasks(), old(sched).queues(), old(self).waiting()),
            old(sched).wf(old(table)) ==> final(sched).wf(final(table)),
    {
        self.cond.broadcast(sched, table);
    }
}

/// A `wait` followed, once the waiter runs again, by taking the lock back (`lock`, or a
/// `try_lock` that succeeds) returns holding the monitor's own lock, with its value and the
/// preemption depth as they were before the wait, and the waiter queued at the back of the
/// condition, so a signal given after the wait released the lock reaches it.
pub proof fn lemma_wait_then_relock<T>(
    m0: Monitor<T>,
    m1: Monitor<T>,
    m2: Monitor<T>,
    t: Tid,
    d0: usize,
    d1: usize,
    d2: usize,
)
    requires
        m0.is_locked(),
        !m1.is_locked(),
        m1.value() == m0.value(),
        m1.waiting() == m0.waiting().push(t),
        d1 == d0.wrapping_sub(1),
        m2.is_locked(),
        m2.value() == m1.value(),
        m2.waiting() == m1.waiting(),
        d2 == d1.wrapping_add(1),
    ensures
        m2.is_locked(),
        m2.value() == m0.value(),
        m2.waiting() == m0.waiting().push(t),
        m2.waiting().last() == t,
        d2 == d0,
{
}

} // verus!
