//! Multilevel feedback queue scheduler: eight round-robin queues, queue 0 first.
//!
//! The queues hold thread identifiers; priority and state live in the task table.
use vstd::prelude::*;
use crate::process::pid::{Pid, Tid};
use crate::process::table::{
    BTreeTaskRegistry, lemma_same_tids, lemma_tid_index, tid_index, with_priority, with_state,
};
use crate::process::task::{Task, TaskState};

verus! {

pub const NUM_QUEUES: usize = 8;
/// Every `BOOST_PERIOD` ticks every queued task moves up one queue.
pub const BOOST_PERIOD: u32 = 100;

/// Time slice, in ticks, of queue `i`: `(i + 1)^2`.
pub open spec fn time_slice(i: int) -> int {
    (i + 1) * (i + 1)
}

fn time_slice_of(i: usize) -> (r: u32)
    requires
        i < NUM_QUEUES,
    ensures
        r == time_slice(i as int),
{
    assert((i + 1) * (i + 1) <= 64) by (nonlinear_arith)
        requires
            i < 8,
    ;
    ((i + 1) * (i + 1)) as u32
}

/// First queue at or after `i` that is not empty, or `NUM_QUEUES` when all are empty.
pub open spec fn first_ready_queue(qs: Seq<Seq<Tid>>, i: int) -> int
    decreases NUM_QUEUES - i,
{
    if i >= NUM_QUEUES {
        NUM_QUEUES as int
    } else if qs[i].len() > 0 {
        i
    } else {
        first_ready_queue(qs, i + 1)
    }
}

/// Applies priority updates in order, as successive `set_priority` calls do.
pub open spec fn apply_priorities(tasks: Seq<Task>, updates: Seq<(Tid, u8)>) -> Seq<Task>
    decreases updates.len(),
{
    if updates.len() == 0 {
        tasks
    } else {
        let u = updates.last();
        with_priority(apply_priorities(tasks, updates.drop_last()), u.0, u.1)
    }
}

/// The priority updates a boost performs, in order: each task of queue `i >= 1` gets `i - 1`.
pub open spec fn boost_updates(qs: Seq<Seq<Tid>>, upto: int) -> Seq<(Tid, u8)>
    decreases upto,
{
    if upto <= 1 {
        Seq::empty()
    } else {
        boost_updates(qs, upto - 1) + qs[upto - 1].map_values(|t: Tid| (t, (upto - 2) as u8))
    }
}

/// The queues after a boost: queue 0 gains queue 1 behind its own tasks, every other queue
/// takes the tasks of the queue below it, the lowest queue is left empty.
pub open spec fn boosted_queues(qs: Seq<Seq<Tid>>) -> Seq<Seq<Tid>> {
    Seq::new(
        NUM_QUEUES as nat,
        |i: int|
            if i == 0 {
                qs[0] + qs[1]
            } else if i < NUM_QUEUES - 1 {
                qs[i + 1]
            } else {
                Seq::empty()
            },
    )
}

pub struct MlfqScheduler {
    queues: Vec<Vec<Tid>>,
    current: Option<Tid>,
    ticks_remaining: u32,
    total_ticks: u32,
    needs_reschedule: bool,
}

impl MlfqScheduler {
    pub closed spec fn queues(&self) -> Seq<Seq<Tid>> {
        Seq::new(self.queues@.len(), |i: int| self.queues@[i]@)
    }

    pub closed spec fn current(&self) -> Option<Tid> {
        self.current
    }

    pub closed spec fn ticks_left(&self) -> u32 {
        self.ticks_remaining
    }

    pub closed spec fn ticks(&self) -> u32 {
        self.total_ticks
    }

    pub closed spec fn reschedule_pending(&self) -> bool {
        self.needs_reschedule
    }

    /// Every task the scheduler knows (queued or current) is in the table with a priority that
    /// names a queue.
    pub open spec fn wf(&self, table: &BTreeTaskRegistry) -> bool {
        &&& self.queues().len() == NUM_QUEUES
        &&& table.wf()
        &&& forall|k: int| 0 <= k < table.tasks().len() ==> (#[trigger] table.tasks()[k]).priority < NUM_QUEUES
        &&& forall|i: int, j: int|
            0 <= i < NUM_QUEUES && 0 <= j < self.queues()[i].len() ==> table.contains(
                #[trigger] self.queues()[i][j],
            ) && table.task(self.queues()[i][j]).priority < NUM_QUEUES
        &&& self.current() matches Some(t) ==> table.contains(t) && table.task(t).priority < NUM_QUEUES
    }

    pub fn new() -> (r: Self)
        ensures
            r.queues() == Seq::new(NUM_QUEUES as nat, |i: int| Seq::<Tid>::empty()),
            r.current() is None,
            r.ticks_left() == time_slice(0),
            r.ticks() == 0,
            !r.reschedule_pending(),
    {
        let mut queues: Vec<Vec<Tid>> = Vec::new();
        let mut i: usize = 0;
        while i < NUM_QUEUES
            invariant
                i <= NUM_QUEUES,
                queues@.len() == i,
                forall|k: int| 0 <= k < i ==> (#[trigger] queues@[k])@.len() == 0,
            decreases NUM_QUEUES - i,
        {
            queues.push(Vec::new());
            i = i + 1;
        }
        let r = Self {
            queues,
            current: None,
            ticks_remaining: time_slice_of(0),
            total_ticks: 0,
            needs_reschedule: false,
        };
        assert forall|k: int| 0 <= k < NUM_QUEUES implies #[trigger] r.queues()[k] =~= Seq::<Tid>::empty() by {}
        assert(r.queues() =~= Seq::new(NUM_QUEUES as nat, |i: int| Seq::<Tid>::empty()));
        r
    }

    /// Timer ticks counted so far.
    pub fn total_ticks(&self) -> (r: u32)
        ensures
            r == self.ticks(),
    {
        self.total_ticks
    }

    /// The running task, if any.
    pub fn running(&self) -> (r: Option<Tid>)
        ensures
            r == self.current(),
    {
        self.current
    }

    pub fn current_tid(&self) -> (r: Tid)
        requires
            self.current() is Some,
        ensures
            Some(r) == self.current(),
    {
        self.current.unwrap()
    }

    pub fn current_pid(&self, table: &BTreeTaskRegistry) -> (r: Pid)
        requires
            self.current() matches Some(t) && table.contains(t),
        ensures
            r == table.task(self.current().unwrap()).pid,
    {
        let t = self.current.unwrap();
        table.get(t).unwrap().pid
    }

    pub fn current_ppid(&self, table: &BTreeTaskRegistry) -> (r: Option<Pid>)
        requires
            self.current() matches Some(t) && table.contains(t),
        ensures
            r == table.task(self.current().unwrap()).parent,
    {
        let t = self.current.unwrap();
        table.get(t).unwrap().parent
    }

    /// Makes `tid` the running task with a fresh slice of its queue.
    pub fn set_current(&mut self, table: &mut BTreeTaskRegistry, tid: Tid)
        requires
            old(table).wf(),
            old(table).contains(tid),
            old(table).task(tid).priority < NUM_QUEUES,
        ensures
            final(table).wf(),
            final(table).tasks() == with_state(old(table).tasks(), tid, TaskState::Running),
            final(self).current() == Some(tid),
            final(self).ticks_left() == time_slice(old(table).task(tid).priority as int),
            final(self).queues() == old(self).queues(),
            final(self).ticks() == old(self).ticks(),
            final(self).reschedule_pending() == old(self).reschedule_pending(),
            old(self).wf(old(table)) ==> final(self).wf(final(table)),
    {
        let priority = table.get(tid).unwrap().priority;
        table.set_state(tid, TaskState::Running);
        proof {
            lemma_state_keeps(old(table).tasks(), tid, TaskState::Running);
            lemma_tid_index(old(table).tasks(), tid);
        }
        self.current = Some(tid);
        self.ticks_remaining = time_slice_of(priority as usize);
        proof {
            if old(self).wf(old(table)) {
                assert forall|t: Tid| old(table).contains(t) implies table.contains(t) && #[trigger] table.task(t).priority
                    == old(table).task(t).priority by {
                    lemma_tid_index(old(table).tasks(), t);
                    assert(table.tasks()[tid_index(old(table).tasks(), t)].priority == old(table).tasks()[tid_index(old(table).tasks(), t)].priority);
                }
                assert(self.queues() == old(self).queues());
                assert forall|i: int, j: int| 0 <= i < NUM_QUEUES && 0 <= j < self.queues()[i].len()
                    implies table.contains(#[trigger] self.queues()[i][j]) && table.task(self.queues()[i][j]).priority < NUM_QUEUES by {
                    assert(old(table).contains(old(self).queues()[i][j]));
                    assert(table.task(old(self).queues()[i][j]).priority == old(table).task(old(self).queues()[i][j]).priority);
                }
            }
        }
    }

    /// Gives up the running task (it exited): the slice is spent and a switch is due. The run
    /// queues are left as they are. The running task is normally in none of them, but one that
    /// blocked and was woken before its switch (`unblock` queues a blocked task whether or not
    /// it is still running) is in one, and runs again from there.
    pub fn remove_current(&mut self) -> (r: Option<Tid>)
        ensures
            r == old(self).current(),
            final(self).current() is None,
            final(self).queues() == old(self).queues(),
            final(self).ticks() == old(self).ticks(),
            old(self).current() is Some ==> final(self).ticks_left() == 0 && final(self).reschedule_pending(),
            old(self).current() is None ==> final(self).ticks_left() == old(self).ticks_left()
                && final(self).reschedule_pending() == old(self).reschedule_pending(),
    {
        if self.current.is_some() {
            self.ticks_remaining = 0;
            self.needs_reschedule = true;
        }
        self.current.take()
    }

    /// Queues `tid` at the back of the queue of its priority (the lowest queue for priorities
    /// past it).
    pub fn push(&mut self, table: &BTreeTaskRegistry, tid: Tid)
        requires
            old(self).queues().len() == NUM_QUEUES,
            table.contains(tid),
        ensures
            ({
                let p = table.task(tid).priority as int;
                let q = if p < NUM_QUEUES { p } else { NUM_QUEUES - 1 };
                final(self).queues() == old(self).queues().update(q, old(self).queues()[q].push(tid))
            }),
            final(self).current() == old(self).current(),
            final(self).ticks_left() == old(self).ticks_left(),
            final(self).ticks() == old(self).ticks(),
            final(self).reschedule_pending() == old(self).reschedule_pending(),
            old(self).wf(table) && table.task(tid).priority < NUM_QUEUES ==> final(self).wf(table),
    {
        let priority = table.get(tid).unwrap().priority as usize;
        let q = if priority < NUM_QUEUES { priority } else { NUM_QUEUES - 1 };
        self.queues[q].push(tid);
        proof {
            assert(self.queues() =~= old(self).queues().update(q as int, old(self).queues()[q as int].push(tid)));
        }
    }

    pub fn needs_reschedule(&self) -> (r: bool)
        ensures
            r == self.reschedule_pending(),
    {
        self.needs_reschedule
    }
}

/// Setting a state keeps every tid at its index and every priority.
pub proof fn lemma_state_keeps(s: Seq<Task>, tid: Tid, state: TaskState)
    ensures
        with_state(s, tid, state).len() == s.len(),
        forall|t: Tid| tid_index(with_state(s, tid, state), t) == tid_index(s, t),
        forall|i: int| 0 <= i < s.len() ==> (#[trigger] with_state(s, tid, state)[i]).priority == s[i].priority
            && with_state(s, tid, state)[i].tid == s[i].tid && with_state(s, tid, state)[i].pid == s[i].pid
            && with_state(s, tid, state)[i].parent == s[i].parent,
{
    lemma_tid_index(s, tid);
    let s2 = with_state(s, tid, state);
    assert forall|i: int| 0 <= i < s.len() implies (#[trigger] s2[i]).tid == s[i].tid by {}
    assert forall|t: Tid| tid_index(s2, t) == tid_index(s, t) by {
        lemma_same_tids(s2, s, t);
    }
}

/// Setting a priority keeps every tid at its index.
pub proof fn lemma_priority_keeps(s: Seq<Task>, tid: Tid, p: u8)
    ensures
        with_priority(s, tid, p).len() == s.len(),
        forall|t: Tid| tid_index(with_priority(s, tid, p), t) == tid_index(s, t),
        forall|i: int| 0 <= i < s.len() ==> (#[trigger] with_priority(s, tid, p)[i]).tid == s[i].tid,
        forall|i: int|
            0 <= i < s.len() && i != tid_index(s, tid) ==> (#[trigger] with_priority(s, tid, p)[i]).priority
                == s[i].priority,
        tid_index(s, tid) >= 0 ==> with_priority(s, tid, p)[tid_index(s, tid)].priority == p,
{
    lemma_tid_index(s, tid);
    let s2 = with_priority(s, tid, p);
    assert forall|i: int| 0 <= i < s.len() implies (#[trigger] s2[i]).tid == s[i].tid by {}
    assert forall|t: Tid| tid_index(s2, t) == tid_index(s, t) by {
        lemma_same_tids(s2, s, t);
    }
}


/// Priority updates carry priorities that name a queue, so applying them keeps every tid where it
/// was and leaves every priority either unchanged or below `NUM_QUEUES`.
pub proof fn lemma_apply_keeps(tasks: Seq<Task>, updates: Seq<(Tid, u8)>)
    requires
        forall|k: int| 0 <= k < updates.len() ==> (#[trigger] updates[k]).1 < NUM_QUEUES,
    ensures
        apply_priorities(tasks, updates).len() == tasks.len(),
        forall|t: Tid| tid_index(apply_priorities(tasks, updates), t) == tid_index(tasks, t),
        forall|i: int| 0 <= i < tasks.len() ==> (#[trigger] apply_priorities(tasks, updates)[i]).tid == tasks[i].tid,
        forall|i: int|
            0 <= i < tasks.len() ==> (#[trigger] apply_priorities(tasks, updates)[i]).priority == tasks[i].priority
                || apply_priorities(tasks, updates)[i].priority < NUM_QUEUES,
    decreases updates.len(),
{
    if updates.len() > 0 {
        let d = updates.drop_last();
        assert forall|k: int| 0 <= k < d.len() implies (#[trigger] d[k]).1 < NUM_QUEUES by {
            assert(d[k] == updates[k]);
        }
        lemma_apply_keeps(tasks, d);
        let u = updates.last();
        assert(u == updates[updates.len() - 1]);
        lemma_priority_keeps(apply_priorities(tasks, d), u.0, u.1);
    }
}

impl MlfqScheduler {
    /// Takes the task at the front of the highest-priority non-empty queue.
    fn pick_next(&mut self) -> (r: Option<Tid>)
        requires
            old(self).queues().len() == NUM_QUEUES,
        ensures
            ({
                let qs = old(self).queues();
                let f = first_ready_queue(qs, 0);
                if f < NUM_QUEUES {
                    r == Some(qs[f][0]) && final(self).queues() == qs.update(f, qs[f].subrange(1, qs[f].len() as int))
                } else {
                    r is None && final(self).queues() == qs
                }
            }),
            final(self).current() == old(self).current(),
            final(self).ticks_left() == old(self).ticks_left(),
            final(self).ticks() == old(self).ticks(),
            final(self).reschedule_pending() == old(self).reschedule_pending(),
    {
        let mut i: usize = 0;
        while i < NUM_QUEUES
            invariant
                i <= NUM_QUEUES,
                self.queues() == old(self).queues(),
                self.queues@.len() == NUM_QUEUES,
                self.current == old(self).current,
                self.ticks_remaining == old(self).ticks_remaining,
                self.total_ticks == old(self).total_ticks,
                self.needs_reschedule == old(self).needs_reschedule,
                first_ready_queue(self.queues(), i as int) == first_ready_queue(self.queues(), 0),
            decreases NUM_QUEUES - i,
        {
            assert(self.queues()[i as int] == self.queues@[i as int]@);
            if self.queues[i].len() > 0 {
                let t = self.queues[i].remove(0);
                proof {
                    assert(self.queues() =~= old(self).queues().update(
                        i as int,
                        old(self).queues()[i as int].subrange(1, old(self).queues()[i as int].len() as int),
                    ));
                }
                return Some(t);
            }
            i = i + 1;
        }
        None
    }

    /// Moves every queued task up one queue and sets its priority accordingly.
    fn boost_priorities(&mut self, table: &mut BTreeTaskRegistry)
        requires
            old(self).queues().len() == NUM_QUEUES,
            old(table).wf(),
        ensures
            final(table).wf(),
            final(self).queues() == boosted_queues(old(self).queues()),
            final(table).tasks() == apply_priorities(old(table).tasks(), boost_updates(old(self).queues(), NUM_QUEUES as int)),
            final(self).current() == old(self).current(),
            final(self).ticks_left() == old(self).ticks_left(),
            final(self).ticks() == old(self).ticks(),
            final(self).reschedule_pending() == old(self).reschedule_pending(),
    {
        let ghost qs = self.queues();
        let mut i: usize = 1;
        assert(table.tasks() == apply_priorities(old(table).tasks(), boost_updates(qs, 1)));
        while i < NUM_QUEUES
            invariant
                1 <= i <= NUM_QUEUES,
                self.queues() == qs,
                qs.len() == NUM_QUEUES,
                self.queues@.len() == NUM_QUEUES,
                self.current == old(self).current,
                self.ticks_remaining == old(self).ticks_remaining,
                self.total_ticks == old(self).total_ticks,
                self.needs_reschedule == old(self).needs_reschedule,
                table.wf(),
                table.tasks() == apply_priorities(old(table).tasks(), boost_updates(qs, i as int)),
            decreases NUM_QUEUES - i,
        {
            let n = self.queues[i].len();
            let mut j: usize = 0;
            let ghost base = boost_updates(qs, i as int);
            while j < n
                invariant
                    1 <= i < NUM_QUEUES,
                    j <= n,
                    n == qs[i as int].len(),
                    self.queues() == qs,
                    self.queues@.len() == NUM_QUEUES,
                    table.wf(),
                    table.tasks() == apply_priorities(
                        old(table).tasks(),
                        base + qs[i as int].subrange(0, j as int).map_values(|t: Tid| (t, (i - 1) as u8)),
                    ),
                decreases n - j,
            {
                assert(self.queues()[i as int] == self.queues@[i as int]@);
                let t = self.queues[i][j];
                table.set_priority(t, (i - 1) as u8);
                proof {
                    let u0 = base + qs[i as int].subrange(0, j as int).map_values(|t: Tid| (t, (i - 1) as u8));
                    let u1 = base + qs[i as int].subrange(0, j as int + 1).map_values(|t: Tid| (t, (i - 1) as u8));
                    assert(u1.drop_last() =~= u0);
                    assert(u1.last() == (t, (i - 1) as u8));
                }
                j = j + 1;
            }
            proof {
                assert(qs[i as int].subrange(0, n as int) =~= qs[i as int]);
                assert(boost_updates(qs, i as int + 1) =~= base + qs[i as int].map_values(|t: Tid| (t, (i - 1) as u8)));
            }
            i = i + 1;
        }
        // queue 0 takes queue 1 behind its own tasks
        let n1 = self.queues[1].len();
        let mut j: usize = 0;
        while j < n1
            invariant
                j <= n1,
                n1 == qs[1].len(),
                qs.len() == NUM_QUEUES,
                self.queues@.len() == NUM_QUEUES,
                self.queues@[0]@ == qs[0] + qs[1].subrange(0, j as int),
                forall|k: int| 1 <= k < NUM_QUEUES ==> (#[trigger] self.queues@[k])@ == qs[k],
                self.current == old(self).current,
                self.ticks_remaining == old(self).ticks_remaining,
                self.total_ticks == old(self).total_ticks,
                self.needs_reschedule == old(self).needs_reschedule,
            decreases n1 - j,
        {
            let t = self.queues[1][j];
            self.queues[0].push(t);
            proof {
                assert(self.queues@[0]@ =~= qs[0] + qs[1].subrange(0, j as int + 1));
            }
            j = j + 1;
        }
        let mut k: usize = 1;
        while k < NUM_QUEUES - 1
            invariant
                1 <= k <= NUM_QUEUES - 1,
                qs.len() == NUM_QUEUES,
                self.queues@.len() == NUM_QUEUES,
                self.queues@[0]@ == qs[0] + qs[1].subrange(0, qs[1].len() as int),
                forall|m: int| 1 <= m < k ==> (#[trigger] self.queues@[m])@ == qs[m + 1],
                forall|m: int| k + 1 <= m < NUM_QUEUES ==> (#[trigger] self.queues@[m])@ == qs[m],
                self.current == old(self).current,
                self.ticks_remaining == old(self).ticks_remaining,
                self.total_ticks == old(self).total_ticks,
                self.needs_reschedule == old(self).needs_reschedule,
            decreases NUM_QUEUES - 1 - k,
        {
            let mut next: Vec<Tid> = Vec::new();
            std::mem::swap(&mut next, &mut self.queues[k + 1]);
            self.queues.set(k, next);
            k = k + 1;
        }
        self.queues.set(NUM_QUEUES - 1, Vec::new());
        proof {
            assert(qs[1].subrange(0, qs[1].len() as int) =~= qs[1]);
            assert(self.queues() =~= boosted_queues(qs));
        }
    }

    /// One timer tick: counts it, boosts every `BOOST_PERIOD` ticks, spends the running task's
    /// slice and asks for a switch when it is used up.
    pub fn tick(&mut self, table: &mut BTreeTaskRegistry)
        requires
            old(self).queues().len() == NUM_QUEUES,
            old(table).wf(),
            old(self).ticks() < u32::MAX,
        ensures
            final(table).wf(),
            final(self).ticks() == old(self).ticks() + 1,
            tick_outcome(*old(self), *final(self), old(table).tasks(), final(table).tasks()),
            old(self).wf(old(table)) ==> final(self).wf(final(table)),
    {
        self.total_ticks = self.total_ticks + 1;
        if self.total_ticks % BOOST_PERIOD == 0 {
            self.boost_priorities(table);
            proof {
                let qs = old(self).queues();
                let ups = boost_updates(qs, NUM_QUEUES as int);
                lemma_boost_updates_small(qs, NUM_QUEUES as int);
                lemma_apply_keeps(old(table).tasks(), ups);
                if old(self).wf(old(table)) {
                    lemma_boost_wf(qs, old(table).tasks(), table.tasks());
                    assert forall|i: int, j: int| 0 <= i < NUM_QUEUES && 0 <= j < self.queues()[i].len()
                        implies table.contains(#[trigger] self.queues()[i][j]) && table.task(self.queues()[i][j]).priority < NUM_QUEUES by {
                        let t = self.queues()[i][j];
                        if i == 0 {
                            if j < qs[0].len() {
                                assert(t == qs[0][j]);
                            } else {
                                assert(t == qs[1][j - qs[0].len()]);
                            }
                        } else {
                            assert(t == qs[i + 1][j]);
                        }
                    }
                    if let Some(c) = self.current {
                        let x = tid_index(old(table).tasks(), c);
                        lemma_tid_index(old(table).tasks(), c);
                        assert(tid_index(table.tasks(), c) == x);
                        assert(table.tasks()[x].priority == old(table).tasks()[x].priority || table.tasks()[x].priority < NUM_QUEUES);
                    }
                }
            }
        }
        if self.current.is_some() {
            if self.ticks_remaining > 0 {
                self.ticks_remaining = self.ticks_remaining - 1;
            }
            if self.ticks_remaining == 0 {
                self.needs_reschedule = true;
            }
        }
    }
}

proof fn lemma_boost_updates_small(qs: Seq<Seq<Tid>>, upto: int)
    requires
        upto <= NUM_QUEUES,
    ensures
        forall|k: int| 0 <= k < boost_updates(qs, upto).len() ==> (#[trigger] boost_updates(qs, upto)[k]).1 < NUM_QUEUES,
    decreases upto,
{
    if upto > 1 {
        lemma_boost_updates_small(qs, upto - 1);
        let a = boost_updates(qs, upto - 1);
        let b = qs[upto - 1].map_values(|t: Tid| (t, (upto - 2) as u8));
        assert forall|k: int| 0 <= k < (a + b).len() implies (#[trigger] (a + b)[k]).1 < NUM_QUEUES by {
            if k >= a.len() {
                assert((a + b)[k] == b[k - a.len()]);
            }
        }
    }
}

/// After a boost every task that was queued is still in the table with a priority naming a queue.
proof fn lemma_boost_wf(qs: Seq<Seq<Tid>>, before: Seq<Task>, after: Seq<Task>)
    requires
        qs.len() == NUM_QUEUES,
        after == apply_priorities(before, boost_updates(qs, NUM_QUEUES as int)),
        forall|i: int, j: int|
            0 <= i < NUM_QUEUES && 0 <= j < qs[i].len() ==> tid_index(before, #[trigger] qs[i][j]) >= 0
                && before[tid_index(before, qs[i][j])].priority < NUM_QUEUES,
    ensures
        forall|i: int, j: int|
            0 <= i < NUM_QUEUES && 0 <= j < qs[i].len() ==> tid_index(after, #[trigger] qs[i][j]) >= 0
                && after[tid_index(after, qs[i][j])].priority < NUM_QUEUES,
{
    lemma_boost_updates_small(qs, NUM_QUEUES as int);
    lemma_apply_keeps(before, boost_updates(qs, NUM_QUEUES as int));
    assert forall|i: int, j: int| 0 <= i < NUM_QUEUES && 0 <= j < qs[i].len() implies tid_index(after, #[trigger] qs[i][j]) >= 0
        && after[tid_index(after, qs[i][j])].priority < NUM_QUEUES by {
        let t = qs[i][j];
        lemma_tid_index(before, t);
        let x = tid_index(before, t);
        assert(after[x].priority == before[x].priority || after[x].priority < NUM_QUEUES);
    }
}


/// Queue an outgoing task drops to: one below its own, the lowest queue at most.
pub open spec fn demoted(p: u8) -> int {
    if p as int + 1 < NUM_QUEUES { p as int + 1 } else { NUM_QUEUES - 1 }
}

/// Table after the switch bookkeeping for the outgoing task `out` (if any).
pub open spec fn outgoing_tasks(tasks: Seq<Task>, out: Option<Tid>) -> Seq<Task> {
    match out {
        Some(o) => with_state(
            with_priority(tasks, o, demoted(tasks[tid_index(tasks, o)].priority) as u8),
            o,
            TaskState::Ready,
        ),
        None => tasks,
    }
}

/// What one timer tick does: `a`/`ta` are the scheduler and the tasks before it, `b`/`tb`
/// after it. The tick is counted; every `BOOST_PERIOD` ticks the queues are boosted; a running
/// task's slice shrinks by one and a switch is requested when it is spent.
pub open spec fn tick_outcome(a: MlfqScheduler, b: MlfqScheduler, ta: Seq<Task>, tb: Seq<Task>) -> bool {
    &&& b.ticks() == a.ticks() + 1
    &&& b.current() == a.current()
    &&& (a.ticks() + 1) % (BOOST_PERIOD as int) == 0 ==> b.queues() == boosted_queues(a.queues())
        && tb == apply_priorities(ta, boost_updates(a.queues(), NUM_QUEUES as int))
    &&& (a.ticks() + 1) % (BOOST_PERIOD as int) != 0 ==> b.queues() == a.queues()
        && tb == ta
    &&& a.current() is Some ==> {
        let left = if a.ticks_left() > 0 { a.ticks_left() - 1 } else { 0 };
        &&& b.ticks_left() == left
        &&& b.reschedule_pending() == (a.reschedule_pending() || left == 0)
    }
    &&& a.current() is None ==> b.ticks_left() == a.ticks_left()
        && b.reschedule_pending() == a.reschedule_pending()
}

/// What the switch bookkeeping does: `a`/`ta` are the scheduler and the tasks before it, `b`/`tb`
/// after it, `r` the result. With no switch due nothing changes; with every queue empty the
/// request is dropped; otherwise the front task of the highest-priority non-empty queue comes
/// in, the running task is demoted one queue and queued at its back.
pub open spec fn switch_outcome(
    a: MlfqScheduler,
    b: MlfqScheduler,
    ta: Seq<Task>,
    tb: Seq<Task>,
    r: Option<(Option<Tid>, Tid)>,
) -> bool {
    let qs = a.queues();
    let f = first_ready_queue(qs, 0);
    let t0 = ta;
    if !a.reschedule_pending() {
        &&& r is None
        &&& b == a
        &&& tb == t0
    } else if f >= NUM_QUEUES {
        &&& r is None
        &&& !b.reschedule_pending()
        &&& b.queues() == qs
        &&& b.current() == a.current()
        &&& b.ticks_left() == a.ticks_left()
        &&& b.ticks() == a.ticks()
        &&& tb == t0
    } else {
        let inc = qs[f][0];
        let qs1 = qs.update(f, qs[f].subrange(1, qs[f].len() as int));
        let out = a.current();
        let t1 = outgoing_tasks(t0, out);
        let qs2 = match out {
            Some(o) => qs1.update(
                demoted(t0[tid_index(t0, o)].priority),
                qs1[demoted(t0[tid_index(t0, o)].priority)].push(o),
            ),
            None => qs1,
        };
        let t2 = with_state(t1, inc, TaskState::Running);
        &&& r == Some((out, inc))
        &&& b.queues() == qs2
        &&& tb == t2
        &&& b.current() == Some(inc)
        &&& b.ticks_left() == time_slice(t2[tid_index(t2, inc)].priority as int)
        &&& !b.reschedule_pending()
        &&& b.ticks() == a.ticks()
    }
}

impl MlfqScheduler {
    /// When a switch is due: takes the front task of the highest-priority non-empty queue as the
    /// incoming task, demotes the outgoing (running) task by one queue and queues it at the back,
    /// marks the incoming task running with a fresh slice. Returns (outgoing, incoming).
    pub fn prepare_switch(&mut self, table: &mut BTreeTaskRegistry) -> (r: Option<(Option<Tid>, Tid)>)
        requires
            old(self).wf(old(table)),
        ensures
            final(self).wf(final(table)),
            switch_outcome(*old(self), *final(self), old(table).tasks(), final(table).tasks(), r),
    {
        if !self.needs_reschedule {
            return None;
        }
        let ghost qs = self.queues();
        let ghost t0 = table.tasks();
        let inc = match self.pick_next() {
            Some(t) => t,
            None => {
                self.needs_reschedule = false;
                return None;
            },
        };
        proof {
            let f = first_ready_queue(qs, 0);
            lemma_first_ready(qs, 0);
            assert(qs[f].len() > 0);
            assert(qs[f][0] == inc);
            assert(table.contains(inc) && table.task(inc).priority < NUM_QUEUES);
            lemma_tid_index(t0, inc);
        }
        let out = self.current.take();
        match out {
            Some(o) => {
                proof {
                    lemma_tid_index(t0, o);
                }
                let p0 = table.get(o).unwrap().priority;
                let p: usize = if (p0 + 1) as usize <= NUM_QUEUES - 1 { (p0 + 1) as usize } else { NUM_QUEUES - 1 };
                table.set_priority(o, p as u8);
                let ghost tp = table.tasks();
                proof {
                    lemma_priority_keeps(t0, o, p as u8);
                }
                table.set_state(o, TaskState::Ready);
                proof {
                    lemma_state_keeps(tp, o, TaskState::Ready);
                }
                let ghost before = self.queues();
                assert(before.len() == self.queues@.len());
                self.queues[p].push(o);
                proof {
                    assert(self.queues() =~= before.update(p as int, before[p as int].push(o)));
                }
            },
            None => {},
        }
        let ghost t1 = table.tasks();
        proof {
            assert(t1 == outgoing_tasks(t0, out));
            lemma_tid_index(t0, inc);
        }
        table.set_state(inc, TaskState::Running);
        proof {
            lemma_state_keeps(t1, inc, TaskState::Running);
            lemma_tid_index(t1, inc);
        }
        let prio_in = table.get(inc).unwrap().priority;
        proof {
            // the incoming task's priority names a queue: queued tasks' priorities do, and a
            // demotion yields one too
            let x = tid_index(t0, inc);
            assert(tid_index(t1, inc) == x);
            match out {
                Some(o) => {
                    lemma_tid_index(t0, o);
                    assert(t1[x].priority == t0[x].priority || x == tid_index(t0, o));
                },
                None => {},
            }
        }
        self.current = Some(inc);
        self.ticks_remaining = time_slice_of(prio_in as usize);
        self.needs_reschedule = false;
        proof {
            let f = first_ready_queue(qs, 0);
            let qs1 = qs.update(f, qs[f].subrange(1, qs[f].len() as int));
            assert forall|t: Tid| #[trigger] tid_index(table.tasks(), t) == tid_index(t0, t) by {
                match out {
                    Some(o) => {
                        lemma_priority_keeps(t0, o, demoted(t0[tid_index(t0, o)].priority) as u8);
                        lemma_state_keeps(with_priority(t0, o, demoted(t0[tid_index(t0, o)].priority) as u8), o, TaskState::Ready);
                    },
                    None => {},
                }
            }
            assert forall|y: int| 0 <= y < t0.len() implies (#[trigger] table.tasks()[y]).priority == t0[y].priority
                || table.tasks()[y].priority < NUM_QUEUES by {
                match out {
                    Some(o) => {
                        lemma_priority_keeps(t0, o, demoted(t0[tid_index(t0, o)].priority) as u8);
                        lemma_state_keeps(with_priority(t0, o, demoted(t0[tid_index(t0, o)].priority) as u8), o, TaskState::Ready);
                    },
                    None => {},
                }
            }
            assert forall|i: int, j: int| 0 <= i < NUM_QUEUES && 0 <= j < self.queues()[i].len()
                implies table.contains(#[trigger] self.queues()[i][j]) && table.task(self.queues()[i][j]).priority < NUM_QUEUES by {
                let t = self.queues()[i][j];
                let in_old = old(table).contains(t) && old(table).task(t).priority < NUM_QUEUES;
                if out == Some(t) && i == demoted(t0[tid_index(t0, t)].priority) && j == qs1[i].len() {
                    assert(old(table).contains(t) && old(table).task(t).priority < NUM_QUEUES);
                } else if i == f && j >= 0 {
                    assert(t == qs1[i][j]);
                    assert(t == qs[i][j + 1]);
                } else {
                    assert(t == qs1[i][j]);
                    assert(t == qs[i][j]);
                }
                lemma_tid_index(t0, t);
            }
        }
        Some((out, inc))
    }
}

proof fn lemma_first_ready(qs: Seq<Seq<Tid>>, i: int)
    requires
        0 <= i,
    ensures
        i <= first_ready_queue(qs, i) <= NUM_QUEUES || first_ready_queue(qs, i) == NUM_QUEUES,
        first_ready_queue(qs, i) < NUM_QUEUES ==> qs[first_ready_queue(qs, i)].len() > 0,
    decreases NUM_QUEUES - i,
{
    if i < NUM_QUEUES && qs[i].len() == 0 {
        lemma_first_ready(qs, i + 1);
    }
}

/// A switch demotes the task it takes off the processor: an outgoing task of priority `p`
/// leaves with priority `p + 1` (the lowest priority, `NUM_QUEUES - 1`, at most) and is queued
/// last in the queue of that priority, a lower queue than its own unless it was in the lowest.
pub proof fn lemma_switch_demotes(
    a: MlfqScheduler,
    b: MlfqScheduler,
    ta: Seq<Task>,
    tb: Seq<Task>,
    r: Option<(Option<Tid>, Tid)>,
    o: Tid,
    inc: Tid,
)
    requires
        a.queues().len() == NUM_QUEUES,
        switch_outcome(a, b, ta, tb, r),
        r == Some((Some(o), inc)),
        tid_index(ta, o) >= 0,
    ensures
        tid_index(tb, o) == tid_index(ta, o),
        ({
            let p = ta[tid_index(ta, o)].priority as int;
            let q = tb[tid_index(tb, o)].priority as int;
            &&& p < NUM_QUEUES - 1 ==> q == p + 1
            &&& p >= NUM_QUEUES - 1 ==> q == NUM_QUEUES - 1
            &&& 0 <= q < b.queues().len()
            &&& b.queues()[q].len() > 0
            &&& b.queues()[q].last() == o
        }),
{
    let qs = a.queues();
    let f = first_ready_queue(qs, 0);
    lemma_first_ready(qs, 0);
    let i = tid_index(ta, o);
    lemma_tid_index(ta, o);
    assert(a.reschedule_pending() && f < NUM_QUEUES);
    assert(a.current() == Some(o));
    let p = ta[i].priority;
    let d = demoted(p);
    let tp = with_priority(ta, o, d as u8);
    lemma_priority_keeps(ta, o, d as u8);
    let t1 = with_state(tp, o, TaskState::Ready);
    lemma_state_keeps(tp, o, TaskState::Ready);
    lemma_state_keeps(t1, inc, TaskState::Running);
    assert(t1 == outgoing_tasks(ta, Some(o)));
    assert(tb == with_state(t1, inc, TaskState::Running));
    assert(tb[i].priority == t1[i].priority);
    assert(t1[i].priority == tp[i].priority);
    assert(tp[i].priority == d as u8);
    let qs1 = qs.update(f, qs[f].subrange(1, qs[f].len() as int));
    assert(b.queues() == qs1.update(d, qs1[d].push(o)));
}

} // verus!
