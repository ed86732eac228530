//! Condition variable: a queue of waiting threads.
use vstd::prelude::*;
use crate::process::pid::Tid;
use crate::process::table::{BTreeTaskRegistry, with_state};
use crate::process::task::TaskState;
use crate::scheduler::mlfq::{MlfqScheduler, NUM_QUEUES};
use crate::scheduler::{unblock_tid, woken, woken_all, woken_queues};

verus! {

pub struct CondVar {
    waiters: Vec<Tid>,
}

/// Wakes every tid of `tids`, front to back.
pub fn wake_all(sched: &mut MlfqScheduler, table: &mut BTreeTaskRegistry, tids: &Vec<Tid>)
    requires
        old(table).wf(),
        old(sched).queues().len() == NUM_QUEUES,
    ensures
        final(table).wf(),
        final(sched).queues().len() == NUM_QUEUES,
        final(sched).current() == old(sched).current(),
        (final(table).tasks(), final(sched).queues()) == woken_all(old(table).tasks(), old(sched).queues(), tids@),
        old(sched).wf(old(table)) ==> final(sched).wf(final(table)),
{
    let mut i: usize = 0;
    while i < tids.len()
        invariant
            i <= tids@.len(),
            table.wf(),
            sched.queues().len() == NUM_QUEUES,
            sched.current() == old(sched).current(),
            (table.tasks(), sched.queues()) == woken_all(old(table).tasks(), old(sched).queues(), tids@.subrange(0, i as int)),
            old(sched).wf(old(table)) ==> sched.wf(table),
        decreases tids@.len() - i,
    {
        let t = tids[i];
        proof {
            assert(tids@.subrange(0, i as int + 1).drop_last() =~= tids@.subrange(0, i as int));
        }
        unblock_tid(sched, table, t);
        i = i + 1;
    }
    proof {
        assert(tids@.subrange(0, tids@.len() as int) =~= tids@);
    }
}

impl CondVar {
    pub closed spec fn waiting(&self) -> Seq<Tid> {
        self.waiters@
    }

    pub fn new() -> (r: Self)
        ensures
            r.waiting() == Seq::<Tid>::empty(),
    {
        Self { waiters: Vec::new() }
    }

    /// The running thread joins the back of the queue and is marked blocked. The caller then
    /// releases the lock it holds, schedules, and takes the lock again.
    pub fn wait(&mut self, sched: &MlfqScheduler, table: &mut BTreeTaskRegistry)
        requires
            old(table).wf(),
            sched.current() is Some,
        ensures
            final(table).wf(),
            final(self).waiting() == old(self).waiting().push(sched.current().unwrap()),
            final(table).tasks() == with_state(old(table).tasks(), sched.current().unwrap(), TaskState::Blocked),
            sched.wf(old(table)) ==> sched.wf(final(table)),
    {
        let curr = sched.current_tid();
        self.waiters.push(curr);
        table.set_state(curr, TaskState::Blocked);
        proof {
            crate::scheduler::mlfq::lemma_state_keeps(old(table).tasks(), curr, TaskState::Blocked);
            assert forall|u: Tid| old(table).contains(u) implies table.contains(u) && #[trigger] table.task(u).priority
                == old(table).task(u).priority by {
                crate::process::table::lemma_tid_index(old(table).tasks(), u);
            }
        }
    }

    /// Wakes the thread at the front of the queue, if any.
    pub fn signal(&mut self, sched: &mut MlfqScheduler, table: &mut BTreeTaskRegistry)
        requires
            old(table).wf(),
            old(sched).queues().len() == NUM_QUEUES,
        ensures
            final(table).wf(),
            final(sched).current() == old(sched).current(),
            final(sched).queues().len() == NUM_QUEUES,
            old(self).waiting().len() == 0 ==> final(self).waiting() == old(self).waiting()
                && final(table).tasks() == old(table).tasks() && final(sched).queues() == old(sched).queues(),
            old(self).waiting().len() > 0 ==> {
                let t = old(self).waiting()[0];
                &&& final(self).waiting() == old(self).waiting().subrange(1, old(self).waiting().len() as int)
                &&& final(table).tasks() == woken(old(table).tasks(), t)
                &&& final(sched).queues() == woken_queues(old(sched).queues(), old(table).tasks(), t)
            },
            old(sched).wf(old(table)) ==> final(sched).wf(final(table)),
    {
        if self.waiters.len() > 0 {
            let t = self.waiters.remove(0);
            unblock_tid(sched, table, t);
        }
    }

    /// Wakes every waiting thread, front to back, and empties the queue.
    pub fn broadcast(&mut self, sched: &mut MlfqScheduler, table: &mut BTreeTaskRegistry)
        requires
            old(table).wf(),
            old(sched).queues().len() == NUM_QUEUES,
        ensures
            final(table).wf(),
            final(sched).current() == old(sched).current(),
            final(sched).queues().len() == NUM_QUEUES,
            final(self).waiting() == Seq::<Tid>::empty(),
            (final(table).tasks(), final(sched).queues()) == woken_all(old(table).tasks(), old(sched).queues(), old(self).waiting()),
            old(sched).wf(old(table)) ==> final(sched).wf(final(table)),
    {
        let mut all: Vec<Tid> = Vec::new();
        std::mem::swap(&mut all, &mut self.waiters);
        wake_all(sched, table, &all);
    }
}

} // verus!
