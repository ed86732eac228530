//! Task exit and the waits for a child process or a thread.
use vstd::prelude::*;
use crate::process::pid::{Pid, Tid};
use crate::process::table::{
    BTreeTaskRegistry, first_index_of_pid, lemma_remove_keeps_task, lemma_tid_index, tid_index,
    with_state,
};
use crate::process::task::{Task, TaskState};
use crate::scheduler::mlfq::{lemma_state_keeps, MlfqScheduler, NUM_QUEUES};
use crate::scheduler::{lemma_first_index_of_pid, unblock_pid, unblocked, unblocked_queues};

verus! {

/// The table after task `tid` exits with `code`.
pub open spec fn exited(s: Seq<Task>, tid: Tid, code: i32) -> Seq<Task> {
    let i = tid_index(s, tid);
    if i >= 0 {
        s.update(i, Task { state: TaskState::Zombie, exit_code: Some(code), ..s[i] })
    } else {
        s
    }
}

/// `tid` is in some run queue.
pub open spec fn is_queued(sched: &MlfqScheduler, tid: Tid) -> bool {
    exists|i: int, j: int| 0 <= i < sched.queues().len() && 0 <= j < sched.queues()[i].len() && sched.queues()[i][j] == tid
}

/// The running task exits with `exit_code`: it becomes a zombie holding the code, the first task
/// of its parent process is woken, and it stops being the running task (a switch is due). The
/// caller then schedules away and never returns to it.
pub fn exit(sched: &mut MlfqScheduler, table: &mut BTreeTaskRegistry, exit_code: i32)
    requires
        old(sched).wf(old(table)),
        old(sched).current() is Some,
    ensures
        final(sched).wf(final(table)),
        final(sched).current() is None,
        final(sched).reschedule_pending(),
        ({
            let c = old(sched).current().unwrap();
            let e = exited(old(table).tasks(), c, exit_code);
            &&& final(table).tasks() == match old(table).task(c).parent {
                Some(p) => unblocked(e, p),
                None => e,
            }
            &&& final(sched).queues() == match old(table).task(c).parent {
                Some(p) => unblocked_queues(old(sched).queues(), e, p),
                None => old(sched).queues(),
            }
        }),
{
    let curr = sched.current_tid();
    proof {
        lemma_tid_index(table.tasks(), curr);
    }
    let parent = table.set_exited(curr, exit_code);
    proof {
        let s = old(table).tasks();
        let e = table.tasks();
        assert(e == exited(s, curr, exit_code));
        assert forall|k: int| 0 <= k < e.len() implies (#[trigger] e[k]).priority == s[k].priority && e[k].tid == s[k].tid by {}
        assert forall|t: Tid| #[trigger] tid_index(e, t) == tid_index(s, t) by {
            crate::process::table::lemma_same_tids(e, s, t);
        }
        assert forall|u: Tid| old(table).contains(u) implies table.contains(u) && #[trigger] table.task(u).priority
            == old(table).task(u).priority by {
            lemma_tid_index(s, u);
        }
        assert(sched.wf(table));
    }
    match parent {
        Some(p) => {
            unblock_pid(sched, table, p);
        },
        None => {},
    }
    assert(sched.current() == Some(curr));
    let _ = sched.remove_current();
}

/// One attempt to reap child process `child_pid` (its first task): `Some(-1)` when there is no
/// such task; `Some(code)` when it is a zombie, which is then removed from the table (a missing
/// code reads -1); otherwise `None`, with the caller marked blocked: it schedules and tries again.
pub fn wait(sched: &MlfqScheduler, table: &mut BTreeTaskRegistry, child_pid: Pid) -> (r: Option<i32>)
    requires
        old(table).wf(),
        sched.current() is Some,
    ensures
        final(table).wf(),
        ({
            let s = old(table).tasks();
            let i = first_index_of_pid(s, child_pid, 0);
            if i >= s.len() {
                r == Some(-1i32) && final(table).tasks() == s
            } else if s[i].state == TaskState::Zombie {
                &&& r == Some(match s[i].exit_code { Some(c) => c, None => -1i32 })
                &&& final(table).tasks() == s.remove(i)
            } else {
                r is None && final(table).tasks() == with_state(s, sched.current().unwrap(), TaskState::Blocked)
            }
        }),
        sched.wf(old(table)) && (r is Some ==> !is_queued(sched, first_child(old(table).tasks(), child_pid))
            && sched.current() != Some(first_child(old(table).tasks(), child_pid))) ==> sched.wf(final(table)),
{
    let curr = sched.current_tid();
    proof {
        lemma_first_index_of_pid(table.tasks(), child_pid, 0);
    }
    match table.first_tid_of(child_pid) {
        None => Some(-1),
        Some(t) => {
            proof {
                crate::process::table::lemma_tid_index_unique(table.tasks(), first_index_of_pid(table.tasks(), child_pid, 0));
            }
            let (zombie, code) = match table.get(t) {
                Some(task) => match task.state {
                    TaskState::Zombie => (true, match task.exit_code { Some(c) => c, None => -1 }),
                    _ => (false, 0),
                },
                None => (false, 0),
            };
            if zombie {
                table.remove(t);
                proof {
                    reap_keeps_wf(sched, *old(table), *table, t);
                }
                Some(code)
            } else {
                table.set_state(curr, TaskState::Blocked);
                proof {
                    blocking_keeps_wf(sched, *old(table), *table, curr);
                }
                None
            }
        },
    }
}

/// Tid of the first task of `pid` (meaningful when there is one).
pub open spec fn first_child(s: Seq<Task>, pid: Pid) -> Tid {
    s[first_index_of_pid(s, pid, 0)].tid
}

/// One attempt to join thread `target`: `Some(-1)` when it is not in the table; `Some(code)` when
/// it is a zombie, which is then removed; otherwise `None`, with the caller marked blocked.
pub fn wait_tid(sched: &MlfqScheduler, table: &mut BTreeTaskRegistry, target: Tid) -> (r: Option<i32>)
    requires
        old(table).wf(),
        sched.current() is Some,
    ensures
        final(table).wf(),
        ({
            let s = old(table).tasks();
            let i = tid_index(s, target);
            if i < 0 {
                r == Some(-1i32) && final(table).tasks() == s
            } else if s[i].state == TaskState::Zombie {
                &&& r == Some(match s[i].exit_code { Some(c) => c, None => -1i32 })
                &&& final(table).tasks() == s.remove(i)
            } else {
                r is None && final(table).tasks() == with_state(s, sched.current().unwrap(), TaskState::Blocked)
            }
        }),
        sched.wf(old(table)) && (r is Some ==> !is_queued(sched, target) && sched.current() != Some(target))
            ==> sched.wf(final(table)),
{
    let curr = sched.current_tid();
    proof {
        lemma_tid_index(table.tasks(), target);
    }
    let (present, zombie, code) = match table.get(target) {
        Some(task) => match task.state {
            TaskState::Zombie => (true, true, match task.exit_code { Some(c) => c, None => -1 }),
            _ => (true, false, 0),
        },
        None => (false, false, 0),
    };
    if !present {
        Some(-1)
    } else if zombie {
        table.remove(target);
        proof {
            reap_keeps_wf(sched, *old(table), *table, target);
        }
        Some(code)
    } else {
        table.set_state(curr, TaskState::Blocked);
        proof {
            blocking_keeps_wf(sched, *old(table), *table, curr);
        }
        None
    }
}

proof fn reap_keeps_wf(sched: &MlfqScheduler, before: BTreeTaskRegistry, after: BTreeTaskRegistry, t: Tid)
    requires
        before.wf(),
        after.wf(),
        before.contains(t),
        after.tasks() == before.tasks().remove(tid_index(before.tasks(), t)),
    ensures
        sched.wf(&before) && !is_queued(sched, t) && sched.current() != Some(t) ==> sched.wf(&after),
{
    lemma_tid_index(before.tasks(), t);
    if sched.wf(&before) && !is_queued(sched, t) && sched.current() != Some(t) {
        let k = tid_index(before.tasks(), t);
        assert forall|u: Tid| before.contains(u) && u != t implies after.contains(u) && #[trigger] after.task(u) == before.task(u) by {
            lemma_tid_index(before.tasks(), u);
            lemma_remove_keeps_task(before.tasks(), k, u);
        }
        assert forall|i: int, j: int| 0 <= i < NUM_QUEUES && 0 <= j < sched.queues()[i].len()
            implies after.contains(#[trigger] sched.queues()[i][j]) && after.task(sched.queues()[i][j]).priority < NUM_QUEUES by {
            assert(sched.queues()[i][j] != t);
        }
        assert forall|m: int| 0 <= m < after.tasks().len() implies (#[trigger] after.tasks()[m]).priority < NUM_QUEUES by {
            let om = if m >= k { m + 1 } else { m };
            assert(after.tasks()[m] == before.tasks()[om]);
        }
    }
}

proof fn blocking_keeps_wf(sched: &MlfqScheduler, before: BTreeTaskRegistry, after: BTreeTaskRegistry, c: Tid)
    requires
        before.wf(),
        after.tasks() == with_state(before.tasks(), c, TaskState::Blocked),
    ensures
        sched.wf(&before) ==> sched.wf(&after),
{
    lemma_state_keeps(before.tasks(), c, TaskState::Blocked);
    if sched.wf(&before) {
        assert forall|u: Tid| before.contains(u) implies after.contains(u) && #[trigger] after.task(u).priority == before.task(u).priority by {
            lemma_tid_index(before.tasks(), u);
        }
    }
}

} // verus!
