//! User-visible mutex with a condition queue, reached by a handle. Holding it does not disable
//! preemption and can span several system calls.
use vstd::prelude::*;
use crate::process::pid::Tid;
use crate::process::table::{BTreeTaskRegistry, with_state};
use crate::process::task::TaskState;
use crate::scheduler::mlfq::{MlfqScheduler, NUM_QUEUES};
use crate::scheduler::{unblock_tid, woken, woken_all, woken_queues};
use crate::sync::condvar::wake_all;

verus! {

/// Operations of a lock reachable from user space. `lock` and `wait` are one step each: when
/// they leave the caller blocked the caller schedules and repeats.
pub trait LockHandle {
    /// Whether the lock is held.
    spec fn held(&self) -> bool;

    /// Takes the lock when it is free (`true`); otherwise the running thread waits for it
    /// (`false`) and tries again once scheduled.
    fn lock(&mut self, sched: &MlfqScheduler, table: &mut BTreeTaskRegistry) -> (acquired: bool)
        requires
            old(table).wf(),
            sched.current() is Some,
        ensures
            final(table).wf(),
            acquired == !old(self).held(),
            final(self).held(),
            sched.wf(old(table)) ==> sched.wf(final(table)),
    ;

    /// Takes the lock when it is free; never waits.
    fn try_lock(&mut self) -> (acquired: bool)
        ensures
            acquired == !old(self).held(),
            final(self).held(),
    ;

    /// Releases the lock, waking a thread waiting for it.
    fn unlock(&mut self, sched: &mut MlfqScheduler, table: &mut BTreeTaskRegistry)
        requires
            old(table).wf(),
            old(sched).queues().len() == NUM_QUEUES,
        ensures
            final(table).wf(),
            !final(self).held(),
            final(sched).queues().len() == NUM_QUEUES,
            old(sched).wf(old(table)) ==> final(sched).wf(final(table)),
    ;

    /// The running thread waits on the condition, releasing the lock.
    fn wait(&mut self, sched: &mut MlfqScheduler, table: &mut BTreeTaskRegistry)
        requires
            old(table).wf(),
            old(sched).queues().len() == NUM_QUEUES,
            old(sched).current() is Some,
        ensures
            final(table).wf(),
            !final(self).held(),
            final(sched).queues().len() == NUM_QUEUES,
            old(sched).wf(old(table)) ==> final(sched).wf(final(table)),
    ;

    /// Wakes one thread waiting on the condition.
    fn signal(&mut self, sched: &mut MlfqScheduler, table: &mut BTreeTaskRegistry)
        requires
            old(table).wf(),
            old(sched).queues().len() == NUM_QUEUES,
        ensures
            final(table).wf(),
            final(self).held() == old(self).held(),
            final(sched).queues().len() == NUM_QUEUES,
            old(sched).wf(old(table)) ==> final(sched).wf(final(table)),
    ;

    /// Wakes every thread waiting on the condition.
    fn broadcast(&mut self, sched: &mut MlfqScheduler, table: &mut BTreeTaskRegistry)
        requires
            old(table).wf(),
            old(sched).queues().len() == NUM_QUEUES,
        ensures
            final(table).wf(),
            final(self).held() == old(self).held(),
            final(sched).queues().len() == NUM_QUEUES,
            old(sched).wf(old(table)) ==> final(sched).wf(final(table)),
    ;
}

pub struct QueuedResource {
    locked: bool,
    waiters: Vec<Tid>,
    cond_waiters: Vec<Tid>,
}

impl QueuedResource {
    pub closed spec fn is_locked(&self) -> bool {
        self.locked
    }

    /// Threads waiting to take the lock, front first.
    pub closed spec fn lock_waiters(&self) -> Seq<Tid> {
        self.waiters@
    }

    /// Threads waiting on the condition, front first.
    pub closed spec fn cond_waiting(&self) -> Seq<Tid> {
        self.cond_waiters@
    }

    /// Whether the lock is held.
    pub fn is_held(&self) -> (r: bool)
        ensures
            r == self.is_locked(),
    {
        self.locked
    }

    pub fn new() -> (r: Self)
        ensures
            !r.is_locked(),
            r.lock_waiters() == Seq::<Tid>::empty(),
            r.cond_waiting() == Seq::<Tid>::empty(),
    {
        Self { locked: false, waiters: Vec::new(), cond_waiters: Vec::new() }
    }

    /// Takes the lock when it is free. Otherwise the running thread joins the lock queue and is
    /// marked blocked (`false`): the caller schedules and tries again.
    pub fn lock_step(&mut self, sched: &MlfqScheduler, table: &mut BTreeTaskRegistry) -> (acquired: bool)
        requires
            old(table).wf(),
            sched.current() is Some,
        ensures
            final(table).wf(),
            acquired == !old(self).is_locked(),
            final(self).is_locked(),
            final(self).cond_waiting() == old(self).cond_waiting(),
            acquired ==> final(self).lock_waiters() == old(self).lock_waiters() && final(table).tasks() == old(table).tasks(),
            !acquired ==> final(self).lock_waiters() == old(self).lock_waiters().push(sched.current().unwrap())
                && final(table).tasks() == with_state(old(table).tasks(), sched.current().unwrap(), TaskState::Blocked),
            sched.wf(old(table)) ==> sched.wf(final(table)),
    {
        let curr = sched.current_tid();
        if self.locked {
            self.waiters.push(curr);
            mark_blocked(sched, table, curr);
            false
        } else {
            self.locked = true;
            true
        }
    }

    pub fn try_lock_step(&mut self) -> (acquired: bool)
        ensures
            acquired == !old(self).is_locked(),
            final(self).is_locked(),
            final(self).lock_waiters() == old(self).lock_waiters(),
            final(self).cond_waiting() == old(self).cond_waiting(),
    {
        if self.locked {
            false
        } else {
            self.locked = true;
            true
        }
    }

    /// Releases the lock and wakes the first thread of the lock queue, if any.
    pub fn unlock_step(&mut self, sched: &mut MlfqScheduler, table: &mut BTreeTaskRegistry)
        requires
            old(table).wf(),
            old(sched).queues().len() == NUM_QUEUES,
        ensures
            final(table).wf(),
            final(sched).queues().len() == NUM_QUEUES,
            final(sched).current() == old(sched).current(),
            !final(self).is_locked(),
            final(self).cond_waiting() == old(self).cond_waiting(),
            old(self).lock_waiters().len() == 0 ==> final(self).lock_waiters() == old(self).lock_waiters()
                && final(table).tasks() == old(table).tasks() && final(sched).queues() == old(sched).queues(),
            old(self).lock_waiters().len() > 0 ==> {
                let t = old(self).lock_waiters()[0];
                &&& final(self).lock_waiters() == old(self).lock_waiters().subrange(1, old(self).lock_waiters().len() as int)
                &&& final(table).tasks() == woken(old(table).tasks(), t)
                &&& final(sched).queues() == woken_queues(old(sched).queues(), old(table).tasks(), t)
            },
            old(sched).wf(old(table)) ==> final(sched).wf(final(table)),
    {
        self.locked = false;
        if self.waiters.len() > 0 {
            let t = self.waiters.remove(0);
            unblock_tid(sched, table, t);
        }
    }

    /// The running thread (holding the lock) joins the condition queue, is marked blocked and
    /// releases the lock. The caller schedules and then takes the lock again.
    pub fn wait_step(&mut self, sched: &mut MlfqScheduler, table: &mut BTreeTaskRegistry)
        requires
            old(table).wf(),
            old(sched).queues().len() == NUM_QUEUES,
            old(sched).current() is Some,
        ensures
            final(table).wf(),
            final(sched).queues().len() == NUM_QUEUES,
            final(sched).current() == old(sched).current(),
            !final(self).is_locked(),
            final(self).cond_waiting() == old(self).cond_waiting().push(old(sched).current().unwrap()),
            old(sched).wf(old(table)) ==> final(sched).wf(final(table)),
    {
        let curr = sched.current_tid();
        self.cond_waiters.push(curr);
        mark_blocked(sched, table, curr);
        self.unlock_step(sched, table);
    }

    /// Wakes the first thread of the condition queue, if any.
    pub fn signal_step(&mut self, sched: &mut MlfqScheduler, table: &mut BTreeTaskRegistry)
        requires
            old(table).wf(),
            old(sched).queues().len() == NUM_QUEUES,
        ensures
            final(table).wf(),
            final(sched).queues().len() == NUM_QUEUES,
            final(self).is_locked() == old(self).is_locked(),
            final(self).lock_waiters() == old(self).lock_waiters(),
            old(self).cond_waiting().len() > 0 ==> {
                let t = old(self).cond_waiting()[0];
                &&& final(self).cond_waiting() == old(self).cond_waiting().subrange(1, old(self).cond_waiting().len() as int)
                &&& final(table).tasks() == woken(old(table).tasks(), t)
                &&& final(sched).queues() == woken_queues(old(sched).queues(), old(table).tasks(), t)
            },
            old(self).cond_waiting().len() == 0 ==> final(self).cond_waiting() == old(self).cond_waiting()
                && final(table).tasks() == old(table).tasks() && final(sched).queues() == old(sched).queues(),
            old(sched).wf(old(table)) ==> final(sched).wf(final(table)),
    {
        if self.cond_waiters.len() > 0 {
            let t = self.cond_waiters.remove(0);
            unblock_tid(sched, table, t);
        }
    }

    /// Wakes every thread of the condition queue, front to back.
    pub fn broadcast_step(&mut self, sched: &mut MlfqScheduler, table: &mut BTreeTaskRegistry)
        requires
            old(table).wf(),
            old(sched).queues().len() == NUM_QUEUES,
        ensures
            final(table).wf(),
            final(sched).queues().len() == NUM_QUEUES,
            final(self).is_locked() == old(self).is_locked(),
            final(self).lock_waiters() == old(self).lock_waiters(),
            final(self).cond_waiting() == Seq::<Tid>::empty(),
            (final(table).tasks(), final(sched).queues()) == woken_all(old(table).tasks(), old(sched).queues(), old(self).cond_waiting()),
            old(sched).wf(old(table)) ==> final(sched).wf(final(table)),
    {
        let mut all: Vec<Tid> = Vec::new();
        std::mem::swap(&mut all, &mut self.cond_waiters);
        wake_all(sched, table, &all);
    }
}

/// Marks `tid` blocked.
fn mark_blocked(sched: &MlfqScheduler, table: &mut BTreeTaskRegistry, tid: Tid)
    requires
        old(table).wf(),
    ensures
        final(table).wf(),
        final(table).tasks() == with_state(old(table).tasks(), tid, TaskState::Blocked),
        sched.wf(old(table)) ==> sched.wf(final(table)),
{
    table.set_state(tid, TaskState::Blocked);
    proof {
        crate::scheduler::mlfq::lemma_state_keeps(old(table).tasks(), tid, TaskState::Blocked);
        assert forall|u: Tid| old(table).contains(u) implies table.contains(u) && #[trigger] table.task(u).priority
            == old(table).task(u).priority by {
            crate::process::table::lemma_tid_index(old(table).tasks(), u);
        }
    }
}

impl LockHandle for QueuedResource {
    open spec fn held(&self) -> bool {
        self.is_locked()
    }

    fn lock(&mut self, sched: &MlfqScheduler, table: &mut BTreeTaskRegistry) -> (acquired: bool) {
        self.lock_step(sched, table)
    }

    fn try_lock(&mut self) -> bool {
        self.try_lock_step()
    }

    fn unlock(&mut self, sched: &mut MlfqScheduler, table: &mut BTreeTaskRegistry) {
        self.unlock_step(sched, table)
    }

    fn wait(&mut self, sched: &mut MlfqScheduler, table: &mut BTreeTaskRegistry) {
        self.wait_step(sched, table)
    }

    fn signal(&mut self, sched: &mut MlfqScheduler, table: &mut BTreeTaskRegistry)
        ensures
            final(self).is_locked() == old(self).is_locked(),
            final(self).lock_waiters() == old(self).lock_waiters(),
            old(self).cond_waiting().len() > 0 ==> {
                let t = old(self).cond_waiting()[0];
                &&& final(self).cond_waiting() == old(self).cond_waiting().subrange(1, old(self).cond_waiting().len() as int)
                &&& final(table).tasks() == woken(old(table).tasks(), t)
                &&& final(sched).queues() == woken_queues(old(sched).queues(), old(table).tasks(), t)
            },
            old(self).cond_waiting().len() == 0 ==> final(self).cond_waiting() == old(self).cond_waiting()
                && final(table).tasks() == old(table).tasks() && final(sched).queues() == old(sched).queues(),
    {
        self.signal_step(sched, table)
    }

    fn broadcast(&mut self, sched: &mut MlfqScheduler, table: &mut BTreeTaskRegistry)
        ensures
            final(self).is_locked() == old(self).is_locked(),
            final(self).lock_waiters() == old(self).lock_waiters(),
            final(self).cond_waiting() == Seq::<Tid>::empty(),
            (final(table).tasks(), final(sched).queues()) == woken_all(old(table).tasks(), old(sched).queues(), old(self).cond_waiting()),
    {
        self.broadcast_step(sched, table)
    }
}

} // verus!
