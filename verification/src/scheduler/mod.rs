pub mod mlfq;

use vstd::prelude::*;
use crate::process::pid::{Pid, Tid};
use crate::process::table::{
    BTreeTaskRegistry, first_index_of_pid, insert_pos, lemma_insert_keeps, lemma_insert_pos, lemma_tid_index, tid_index,
    with_state,
};
use crate::process::task::{Task, TaskState};
use mlfq::{lemma_state_keeps, switch_outcome, tick_outcome, MlfqScheduler, NUM_QUEUES};

verus! {

/// Puts a new task in the task table and queues it.
pub fn spawn(sched: &mut MlfqScheduler, table: &mut BTreeTaskRegistry, task: Task)
    requires
        old(table).wf(),
        old(sched).queues().len() == NUM_QUEUES,
        !old(table).contains(task.tid),
    ensures
        final(table).wf(),
        final(table).tasks() == old(table).tasks().insert(insert_pos(old(table).tasks(), task.tid.0), task),
        ({
            let p = task.priority as int;
            let q = if p < NUM_QUEUES { p } else { NUM_QUEUES - 1 };
            final(sched).queues() == old(sched).queues().update(q, old(sched).queues()[q].push(task.tid))
        }),
        final(sched).current() == old(sched).current(),
        final(sched).ticks_left() == old(sched).ticks_left(),
        final(sched).ticks() == old(sched).ticks(),
        final(sched).reschedule_pending() == old(sched).reschedule_pending(),
        old(sched).wf(old(table)) && task.priority < NUM_QUEUES ==> final(sched).wf(final(table)),
{
    let tid = task.tid;
    let ghost s = table.tasks();
    let ghost tk = task;
    proof {
        lemma_insert_pos(s, task.tid.0);
    }
    table.insert(task);
    proof {
        let n = table.tasks();
        lemma_tid_index_unique_inserted(s, tk);
        assert forall|t: Tid| old(table).contains(t) implies table.contains(t) && #[trigger] table.task(t) == old(table).task(t) by {
            lemma_insert_keeps(s, tk, t);
        }
    }
    sched.push(table, tid);
}

proof fn lemma_tid_index_unique_inserted(s: Seq<Task>, task: Task)
    requires
        0 <= insert_pos(s, task.tid.0) <= s.len(),
        crate::process::table::sorted_by_tid(s.insert(insert_pos(s, task.tid.0), task)),
    ensures
        ({
            let n = s.insert(insert_pos(s, task.tid.0), task);
            tid_index(n, task.tid) == insert_pos(s, task.tid.0) && n[insert_pos(s, task.tid.0)] == task
        }),
{
    let p = insert_pos(s, task.tid.0);
    let n = s.insert(p, task);
    crate::process::table::lemma_tid_index_unique(n, p);
}

/// One timer tick of the scheduler.
pub fn tick(sched: &mut MlfqScheduler, table: &mut BTreeTaskRegistry)
    requires
        old(sched).wf(old(table)),
        old(sched).ticks() < u32::MAX,
    ensures
        final(sched).wf(final(table)),
        final(sched).ticks() == old(sched).ticks() + 1,
        tick_outcome(*old(sched), *final(sched), old(table).tasks(), final(table).tasks()),
{
    sched.tick(table);
}

/// The switch to perform, unless preemption is disabled (`preempt_count > 0`).
pub fn schedule(sched: &mut MlfqScheduler, table: &mut BTreeTaskRegistry, preempt_count: u32) -> (r: Option<(Option<Tid>, Tid)>)
    requires
        old(sched).wf(old(table)),
    ensures
        final(sched).wf(final(table)),
        preempt_count > 0 ==> r is None && *final(sched) == *old(sched) && final(table).tasks() == old(table).tasks(),
        preempt_count == 0 ==> switch_outcome(*old(sched), *final(sched), old(table).tasks(), final(table).tasks(), r),
        r matches Some((_, inc)) ==> final(sched).current() == Some(inc),
{
    if preempt_count > 0 {
        return None;
    }
    sched.prepare_switch(table)
}

pub fn current_pid(sched: &MlfqScheduler, table: &BTreeTaskRegistry) -> (r: Pid)
    requires
        sched.current() matches Some(t) && table.contains(t),
    ensures
        r == table.task(sched.current().unwrap()).pid,
{
    sched.current_pid(table)
}

pub fn current_ppid(sched: &MlfqScheduler, table: &BTreeTaskRegistry) -> (r: Option<Pid>)
    requires
        sched.current() matches Some(t) && table.contains(t),
    ensures
        r == table.task(sched.current().unwrap()).parent,
{
    sched.current_ppid(table)
}

pub fn current_tid(sched: &MlfqScheduler) -> (r: Tid)
    requires
        sched.current() is Some,
    ensures
        Some(r) == sched.current(),
{
    sched.current_tid()
}

pub fn remove_current(sched: &mut MlfqScheduler)
    ensures
        final(sched).current() is None,
        final(sched).queues() == old(sched).queues(),
        final(sched).ticks() == old(sched).ticks(),
        old(sched).current() is Some ==> final(sched).reschedule_pending() && final(sched).ticks_left() == 0,
        old(sched).current() is None ==> final(sched).ticks_left() == old(sched).ticks_left()
            && final(sched).reschedule_pending() == old(sched).reschedule_pending(),
{
    let _ = sched.remove_current();
}

/// `tid` is in the table and blocked.
pub open spec fn is_blocked(s: Seq<Task>, tid: Tid) -> bool {
    tid_index(s, tid) >= 0 && s[tid_index(s, tid)].state == TaskState::Blocked
}

/// The table after waking `tid`.
pub open spec fn woken(s: Seq<Task>, tid: Tid) -> Seq<Task> {
    if is_blocked(s, tid) {
        with_state(s, tid, TaskState::Ready)
    } else {
        s
    }
}

/// The run queues after waking `tid`.
pub open spec fn woken_queues(qs: Seq<Seq<Tid>>, s: Seq<Task>, tid: Tid) -> Seq<Seq<Tid>> {
    if is_blocked(s, tid) {
        let p = s[tid_index(s, tid)].priority as int;
        let q = if p < NUM_QUEUES { p } else { NUM_QUEUES - 1 };
        qs.update(q, qs[q].push(tid))
    } else {
        qs
    }
}

/// Table and run queues after waking each of `tids` in order.
pub open spec fn woken_all(s: Seq<Task>, qs: Seq<Seq<Tid>>, tids: Seq<Tid>) -> (Seq<Task>, Seq<Seq<Tid>>)
    decreases tids.len(),
{
    if tids.len() == 0 {
        (s, qs)
    } else {
        let (s1, q1) = woken_all(s, qs, tids.drop_last());
        (woken(s1, tids.last()), woken_queues(q1, s1, tids.last()))
    }
}

/// Wakes `tid` if it is blocked: it becomes ready and is queued. Anything else is left alone.
pub fn unblock_tid(sched: &mut MlfqScheduler, table: &mut BTreeTaskRegistry, tid: Tid)
    requires
        old(table).wf(),
        old(sched).queues().len() == NUM_QUEUES,
    ensures
        final(table).wf(),
        final(sched).current() == old(sched).current(),
        final(table).tasks() == woken(old(table).tasks(), tid),
        final(sched).queues() == woken_queues(old(sched).queues(), old(table).tasks(), tid),
        ({
            let s = old(table).tasks();
            if old(table).contains(tid) && old(table).task(tid).state == TaskState::Blocked {
                let p = old(table).task(tid).priority as int;
                let q = if p < NUM_QUEUES { p } else { NUM_QUEUES - 1 };
                &&& final(table).tasks() == with_state(s, tid, TaskState::Ready)
                &&& final(sched).queues() == old(sched).queues().update(q, old(sched).queues()[q].push(tid))
            } else {
                &&& final(table).tasks() == s
                &&& final(sched).queues() == old(sched).queues()
            }
        }),
        old(sched).wf(old(table)) ==> final(sched).wf(final(table)),
{
    let blocked = match table.get(tid) {
        Some(t) => match t.state {
            TaskState::Blocked => true,
            _ => false,
        },
        None => false,
    };
    if blocked {
        table.set_state(tid, TaskState::Ready);
        proof {
            lemma_state_keeps(old(table).tasks(), tid, TaskState::Ready);
            lemma_tid_index(old(table).tasks(), tid);
            assert forall|t: Tid| old(table).contains(t) implies table.contains(t) && #[trigger] table.task(t).priority
                == old(table).task(t).priority by {
                lemma_tid_index(old(table).tasks(), t);
            }
        }
        sched.push(table, tid);
    }
}

/// The table after waking the first task of process `pid`, if it is blocked.
pub open spec fn unblocked(s: Seq<Task>, pid: Pid) -> Seq<Task> {
    let i = first_index_of_pid(s, pid, 0);
    if i < s.len() && s[i].state == TaskState::Blocked {
        with_state(s, s[i].tid, TaskState::Ready)
    } else {
        s
    }
}

/// The run queues after waking the first task of process `pid`, if it is blocked: it is queued
/// at the back of the queue of its priority.
pub open spec fn unblocked_queues(qs: Seq<Seq<Tid>>, s: Seq<Task>, pid: Pid) -> Seq<Seq<Tid>> {
    let i = first_index_of_pid(s, pid, 0);
    if i < s.len() && s[i].state == TaskState::Blocked {
        let p = s[i].priority as int;
        let q = if p < NUM_QUEUES { p } else { NUM_QUEUES - 1 };
        qs.update(q, qs[q].push(s[i].tid))
    } else {
        qs
    }
}

/// Wakes the first (lowest-tid) task of process `pid`, as `unblock_tid` does.
pub fn unblock_pid(sched: &mut MlfqScheduler, table: &mut BTreeTaskRegistry, pid: Pid)
    requires
        old(table).wf(),
        old(sched).queues().len() == NUM_QUEUES,
    ensures
        final(table).wf(),
        final(sched).current() == old(sched).current(),
        old(sched).wf(old(table)) ==> final(sched).wf(final(table)),
        final(table).tasks() == unblocked(old(table).tasks(), pid),
        final(sched).queues() == unblocked_queues(old(sched).queues(), old(table).tasks(), pid),
        ({
            let s = old(table).tasks();
            let i = first_index_of_pid(s, pid, 0);
            if i < s.len() && s[i].state == TaskState::Blocked {
                let p = s[i].priority as int;
                let q = if p < NUM_QUEUES { p } else { NUM_QUEUES - 1 };
                &&& final(table).tasks() == with_state(s, s[i].tid, TaskState::Ready)
                &&& final(sched).queues() == old(sched).queues().update(q, old(sched).queues()[q].push(s[i].tid))
            } else {
                &&& final(table).tasks() == s
                &&& final(sched).queues() == old(sched).queues()
            }
        }),
{
    proof {
        lemma_first_index_of_pid(table.tasks(), pid, 0);
    }
    match table.first_tid_of(pid) {
        Some(t) => {
            proof {
                let s = old(table).tasks();
                let i = first_index_of_pid(s, pid, 0);
                crate::process::table::lemma_tid_index_unique(s, i);
            }
            unblock_tid(sched, table, t);
        },
        None => {},
    }
}

pub proof fn lemma_first_index_of_pid(s: Seq<Task>, pid: Pid, from: int)
    requires
        0 <= from,
    ensures
        from <= first_index_of_pid(s, pid, from) <= s.len() || first_index_of_pid(s, pid, from) == s.len(),
        first_index_of_pid(s, pid, from) < s.len() ==> s[first_index_of_pid(s, pid, from)].pid == pid,
    decreases s.len() - from,
{
    if from < s.len() && s[from].pid != pid {
        lemma_first_index_of_pid(s, pid, from + 1);
    }
}

/// Installs the boot task as the running task and queues the idle task.
pub fn init(sched: &mut MlfqScheduler, table: &mut BTreeTaskRegistry, boot_task: Task, idle_task: Task)
    requires
        old(table).wf(),
        old(table).tasks().len() == 0,
        old(sched).wf(old(table)),
        boot_task.priority < NUM_QUEUES,
        idle_task.priority < NUM_QUEUES,
        boot_task.tid != idle_task.tid,
    ensures
        final(sched).wf(final(table)),
        final(sched).current() == Some(boot_task.tid),
        final(table).contains(boot_task.tid),
        final(table).contains(idle_task.tid),
{
    let boot = boot_task.tid;
    let ghost bt = boot_task;
    table.insert(boot_task);
    proof {
        assert(old(table).tasks().insert(0, bt) =~= seq![bt]);
        lemma_tid_index(table.tasks(), boot);
        lemma_tid_index_unique_inserted(old(table).tasks(), bt);
    }
    sched.set_current(table, boot);
    proof {
        lemma_tid_index(table.tasks(), idle_task.tid);
        lemma_tid_index(table.tasks(), boot);
    }
    let ghost it = idle_task;
    let ghost before = table.tasks();
    spawn(sched, table, idle_task);
    proof {
        lemma_insert_pos(before, it.tid.0);
        lemma_insert_keeps(before, it, boot);
        lemma_tid_index_unique_inserted(before, it);
    }
}

} // verus!
