//! The system-wide task table, ordered by thread identifier.
use vstd::prelude::*;
use crate::process::pid::{Pid, Tid};
use crate::process::task::{Task, TaskState};
use crate::memory::vmm::Vmm;

verus! {

/// Index of the task with `tid` in `s`, or -1.
pub open spec fn tid_index(s: Seq<Task>, tid: Tid) -> int
    decreases s.len(),
{
    if s.len() == 0 {
        -1
    } else if s.last().tid == tid {
        s.len() - 1
    } else {
        tid_index(s.drop_last(), tid)
    }
}

/// `s` with the state of the task `tid` (if present) replaced.
pub open spec fn with_state(s: Seq<Task>, tid: Tid, state: TaskState) -> Seq<Task> {
    let i = tid_index(s, tid);
    if i >= 0 {
        s.update(i, Task { state, ..s[i] })
    } else {
        s
    }
}

/// `s` with the priority of the task `tid` (if present) replaced.
pub open spec fn with_priority(s: Seq<Task>, tid: Tid, priority: u8) -> Seq<Task> {
    let i = tid_index(s, tid);
    if i >= 0 {
        s.update(i, Task { priority, ..s[i] })
    } else {
        s
    }
}

/// Index of the first task at or after `from` that belongs to process `pid`, or `s.len()`.
pub open spec fn first_index_of_pid(s: Seq<Task>, pid: Pid, from: int) -> int
    decreases s.len() - from,
{
    if from < 0 || from >= s.len() {
        s.len() as int
    } else if s[from].pid == pid {
        from
    } else {
        first_index_of_pid(s, pid, from + 1)
    }
}

/// Tasks are kept in strictly increasing thread-identifier order.
pub open spec fn sorted_by_tid(s: Seq<Task>) -> bool {
    forall|i: int, j: int| 0 <= i < j < s.len() ==> (#[trigger] s[i]).tid.0 < (#[trigger] s[j]).tid.0
}

/// Number of tasks whose thread identifier is below `t` (the position a task with `t` goes to).
pub open spec fn insert_pos(s: Seq<Task>, t: u64) -> int
    decreases s.len(),
{
    if s.len() == 0 {
        0
    } else if s.last().tid.0 < t {
        s.len() as int
    } else {
        insert_pos(s.drop_last(), t)
    }
}

pub proof fn lemma_tid_index(s: Seq<Task>, tid: Tid)
    ensures
        -1 <= tid_index(s, tid) < s.len(),
        tid_index(s, tid) >= 0 ==> s[tid_index(s, tid)].tid == tid,
        tid_index(s, tid) < 0 ==> forall|i: int| 0 <= i < s.len() ==> (#[trigger] s[i]).tid != tid,
    decreases s.len(),
{
    if s.len() > 0 {
        lemma_tid_index(s.drop_last(), tid);
        if s.last().tid != tid {
            assert forall|i: int| 0 <= i < s.len() - 1 implies #[trigger] s[i] == s.drop_last()[i] by {}
        }
    }
}

/// In a sorted table the task with a given tid sits at the only position holding that tid.
pub proof fn lemma_tid_index_unique(s: Seq<Task>, i: int)
    requires
        sorted_by_tid(s),
        0 <= i < s.len(),
    ensures
        tid_index(s, s[i].tid) == i,
{
    lemma_tid_index(s, s[i].tid);
    let j = tid_index(s, s[i].tid);
    if j != i && j >= 0 {
        assert(s[j].tid.0 == s[i].tid.0);
    }
}

pub proof fn lemma_insert_pos(s: Seq<Task>, t: u64)
    requires
        sorted_by_tid(s),
    ensures
        0 <= insert_pos(s, t) <= s.len(),
        forall|i: int| 0 <= i < insert_pos(s, t) ==> (#[trigger] s[i]).tid.0 < t,
        forall|i: int| insert_pos(s, t) <= i < s.len() ==> (#[trigger] s[i]).tid.0 >= t,
    decreases s.len(),
{
    if s.len() > 0 {
        let d = s.drop_last();
        assert forall|i: int, j: int| 0 <= i < j < d.len() implies (#[trigger] d[i]).tid.0 < (#[trigger] d[j]).tid.0 by {
            assert(d[i] == s[i] && d[j] == s[j]);
        }
        lemma_insert_pos(d, t);
        if s.last().tid.0 < t {
            assert forall|i: int| 0 <= i < s.len() implies (#[trigger] s[i]).tid.0 < t by {
                if i < s.len() - 1 {
                    assert(s[i].tid.0 < s[s.len() - 1].tid.0);
                }
            }
        } else {
            assert forall|i: int| 0 <= i < insert_pos(s, t) implies (#[trigger] s[i]).tid.0 < t by {
                assert(s[i] == d[i]);
            }
            assert forall|i: int| insert_pos(s, t) <= i < s.len() implies (#[trigger] s[i]).tid.0 >= t by {
                if i < s.len() - 1 {
                    assert(s[i] == d[i]);
                }
            }
        }
    }
}

/// Operations a task table offers.
pub trait TaskRegistry {
    spec fn registry_wf(&self) -> bool;

    /// Whether the table holds a task with `tid`.
    spec fn has_task(&self, tid: Tid) -> bool;

    /// The task with `tid` (meaningful when there is one).
    spec fn task_of(&self, tid: Tid) -> Task;

    /// Adds `task`, replacing any task with its tid.
    fn insert(&mut self, task: Task)
        requires
            old(self).registry_wf(),
        ensures
            final(self).registry_wf(),
            final(self).has_task(task.tid),
            final(self).task_of(task.tid) == task,
    ;

    fn get(&self, tid: Tid) -> (r: Option<&Task>)
        ensures
            match r {
                Some(t) => self.has_task(tid) && *t == self.task_of(tid),
                None => !self.has_task(tid),
            },
    ;

    /// Takes the task with `tid` out.
    fn remove(&mut self, tid: Tid) -> (r: Option<Task>)
        requires
            old(self).registry_wf(),
        ensures
            final(self).registry_wf(),
            !final(self).has_task(tid),
            match r {
                Some(t) => old(self).has_task(tid) && t == old(self).task_of(tid),
                None => !old(self).has_task(tid),
            },
    ;

    /// The tids of all tasks.
    fn all_tids(&self) -> (r: Vec<Tid>)
        requires
            self.registry_wf(),
        ensures
            forall|i: int| 0 <= i < r@.len() ==> self.has_task(#[trigger] r@[i]),
            forall|t: Tid| self.has_task(t) ==> r@.contains(t),
    ;
}

pub struct BTreeTaskRegistry {
    tasks: Vec<Task>,
}

impl BTreeTaskRegistry {
    /// The tasks, in increasing tid order.
    pub closed spec fn tasks(&self) -> Seq<Task> {
        self.tasks@
    }

    pub open spec fn wf(&self) -> bool {
        sorted_by_tid(self.tasks())
    }

    pub open spec fn contains(&self, tid: Tid) -> bool {
        tid_index(self.tasks(), tid) >= 0
    }

    pub open spec fn task(&self, tid: Tid) -> Task {
        self.tasks()[tid_index(self.tasks(), tid)]
    }

    pub fn new() -> (r: Self)
        ensures
            r.wf(),
            r.tasks() == Seq::<Task>::empty(),
    {
        Self { tasks: Vec::new() }
    }

    fn find(&self, tid: Tid) -> (r: Option<usize>)
        ensures
            match r {
                Some(i) => i as int == tid_index(self.tasks(), tid),
                None => tid_index(self.tasks(), tid) < 0,
            },
    {
        proof {
            lemma_tid_index(self.tasks(), tid);
        }
        let mut i = self.tasks.len();
        assert(self.tasks@.subrange(0, i as int) =~= self.tasks@);
        while i > 0
            invariant
                i <= self.tasks@.len(),
                tid_index(self.tasks@.subrange(0, i as int), tid) == tid_index(self.tasks@, tid),
            decreases i,
        {
            proof {
                assert(self.tasks@.subrange(0, i as int).drop_last() =~= self.tasks@.subrange(0, i as int - 1));
            }
            if self.tasks[i - 1].tid.0 == tid.0 {
                return Some(i - 1);
            }
            i = i - 1;
        }
        None
    }

    /// Adds `task`, replacing the task with the same tid if there is one.
    pub fn insert(&mut self, task: Task)
        requires
            old(self).wf(),
        ensures
            final(self).wf(),
            ({
                let s = old(self).tasks();
                let i = tid_index(s, task.tid);
                final(self).tasks() == if i >= 0 {
                    s.update(i, task)
                } else {
                    s.insert(insert_pos(s, task.tid.0), task)
                }
            }),
    {
        let ghost s = self.tasks@;
        proof {
            lemma_tid_index(s, task.tid);
            lemma_insert_pos(s, task.tid.0);
        }
        match self.find(task.tid) {
            Some(i) => {
                self.tasks.set(i, task);
                proof {
                    assert forall|a: int, b: int| 0 <= a < b < self.tasks@.len() implies (#[trigger] self.tasks@[a]).tid.0
                        < (#[trigger] self.tasks@[b]).tid.0 by {
                        assert(s[a].tid.0 < s[b].tid.0);
                    }
                }
            },
            None => {
                let mut p: usize = self.tasks.len();
                assert(s.subrange(0, p as int) =~= s);
                while p > 0 && self.tasks[p - 1].tid.0 >= task.tid.0
                    invariant
                        p <= s.len(),
                        self.tasks@ == s,
                        insert_pos(s.subrange(0, p as int), task.tid.0) == insert_pos(s, task.tid.0),
                    decreases p,
                {
                    proof {
                        assert(s.subrange(0, p as int).drop_last() =~= s.subrange(0, p as int - 1));
                    }
                    p = p - 1;
                }
                proof {
                    if p > 0 {
                        assert(s.subrange(0, p as int).last() == s[p - 1]);
                    }
                }
                self.tasks.insert(p, task);
                proof {
                    let n = self.tasks@;
                    assert forall|a: int, b: int| 0 <= a < b < n.len() implies (#[trigger] n[a]).tid.0 < (#[trigger] n[b]).tid.0 by {
                        let ip = p as int;
                        if a < ip && b < ip {
                            assert(s[a].tid.0 < s[b].tid.0);
                        } else if a < ip && b == ip {
                        } else if a < ip {
                            assert(s[a].tid.0 < s[b - 1].tid.0 || a == b - 1);
                        } else if a == ip {
                            assert(s[b - 1].tid.0 >= task.tid.0);
                            assert(s[b - 1].tid != task.tid);
                        } else {
                            assert(s[a - 1].tid.0 < s[b - 1].tid.0);
                        }
                    }
                }
            },
        }
    }

    pub fn get(&self, tid: Tid) -> (r: Option<&Task>)
        ensures
            match r {
                Some(t) => self.contains(tid) && *t == self.task(tid),
                None => !self.contains(tid),
            },
    {
        match self.find(tid) {
            Some(i) => {
                proof {
                    lemma_tid_index(self.tasks(), tid);
                }
                Some(&self.tasks[i])
            },
            None => None,
        }
    }

    /// Takes the task with `tid` out of the table.
    pub fn remove(&mut self, tid: Tid) -> (r: Option<Task>)
        requires
            old(self).wf(),
        ensures
            final(self).wf(),
            match r {
                Some(t) => old(self).contains(tid) && t == old(self).task(tid) && final(self).tasks()
                    == old(self).tasks().remove(tid_index(old(self).tasks(), tid)),
                None => !old(self).contains(tid) && final(self).tasks() == old(self).tasks(),
            },
    {
        proof {
            lemma_tid_index(self.tasks(), tid);
        }
        match self.find(tid) {
            Some(i) => {
                let ghost s = self.tasks@;
                let t = self.tasks.remove(i);
                proof {
                    let n = self.tasks@;
                    assert forall|a: int, b: int| 0 <= a < b < n.len() implies (#[trigger] n[a]).tid.0 < (#[trigger] n[b]).tid.0 by {
                        let oa = if a >= i { a + 1 } else { a };
                        let ob = if b >= i { b + 1 } else { b };
                        assert(n[a] == s[oa] && n[b] == s[ob]);
                    }
                }
                Some(t)
            },
            None => None,
        }
    }

    /// Every tid in the table, in increasing order.
    pub fn all_tids(&self) -> (r: Vec<Tid>)
        ensures
            r@ == self.tasks().map_values(|t: Task| t.tid),
    {
        let mut r: Vec<Tid> = Vec::new();
        let mut i: usize = 0;
        while i < self.tasks.len()
            invariant
                i <= self.tasks@.len(),
                r@ == self.tasks@.subrange(0, i as int).map_values(|t: Task| t.tid),
            decreases self.tasks@.len() - i,
        {
            r.push(self.tasks[i].tid);
            proof {
                assert(r@ =~= self.tasks@.subrange(0, i as int + 1).map_values(|t: Task| t.tid));
            }
            i = i + 1;
        }
        proof {
            assert(self.tasks@.subrange(0, self.tasks@.len() as int) =~= self.tasks@);
        }
        r
    }

    /// Tid of the first task (lowest tid) belonging to process `pid`.
    pub fn first_tid_of(&self, pid: Pid) -> (r: Option<Tid>)
        ensures
            ({
                let i = first_index_of_pid(self.tasks(), pid, 0);
                if i < self.tasks().len() {
                    r == Some(self.tasks()[i].tid)
                } else {
                    r is None
                }
            }),
    {
        let mut i: usize = 0;
        while i < self.tasks.len()
            invariant
                i <= self.tasks@.len(),
                first_index_of_pid(self.tasks@, pid, i as int) == first_index_of_pid(self.tasks@, pid, 0),
            decreases self.tasks@.len() - i,
        {
            if self.tasks[i].pid.0 == pid.0 {
                return Some(self.tasks[i].tid);
            }
            i = i + 1;
        }
        None
    }

    fn update_at(&mut self, i: usize, t: Task)
        requires
            old(self).wf(),
            i < old(self).tasks().len(),
            t.tid == old(self).tasks()[i as int].tid,
        ensures
            final(self).wf(),
            final(self).tasks() == old(self).tasks().update(i as int, t),
    {
        let ghost s = self.tasks@;
        self.tasks.set(i, t);
        proof {
            assert forall|a: int, b: int| 0 <= a < b < self.tasks@.len() implies (#[trigger] self.tasks@[a]).tid.0
                < (#[trigger] self.tasks@[b]).tid.0 by {
                assert(s[a].tid.0 < s[b].tid.0);
            }
        }
    }

    /// Sets the state of the task with `tid`; a missing tid leaves the table alone.
    pub fn set_state(&mut self, tid: Tid, state: TaskState)
        requires
            old(self).wf(),
        ensures
            final(self).wf(),
            final(self).tasks() == with_state(old(self).tasks(), tid, state),
    {
        proof {
            lemma_tid_index(self.tasks(), tid);
        }
        if let Some(i) = self.find(tid) {
            let mut t = self.tasks.remove(i);
            let ghost s = old(self).tasks@;
            t.state = state;
            self.tasks.insert(i, t);
            proof {
                assert(self.tasks@ =~= s.update(i as int, Task { state, ..s[i as int] }));
                assert forall|a: int, b: int| 0 <= a < b < self.tasks@.len() implies (#[trigger] self.tasks@[a]).tid.0
                    < (#[trigger] self.tasks@[b]).tid.0 by {
                    assert(s[a].tid.0 < s[b].tid.0);
                }
            }
        }
    }

    /// Gives the task with `tid` the address-space record `vmm` and returns the one it had; a
    /// missing tid leaves the table alone and hands `vmm` back.
    pub fn replace_vmm(&mut self, tid: Tid, vmm: Vmm) -> (r: Vmm)
        requires
            old(self).wf(),
        ensures
            final(self).wf(),
            old(self).contains(tid) ==> r == old(self).task(tid).vmm && final(self).tasks() == old(self).tasks().update(
                tid_index(old(self).tasks(), tid),
                Task { vmm, ..old(self).task(tid) },
            ),
            !old(self).contains(tid) ==> r == vmm && final(self).tasks() == old(self).tasks(),
    {
        proof {
            lemma_tid_index(self.tasks(), tid);
        }
        match self.find(tid) {
            Some(i) => {
                let mut t = self.tasks.remove(i);
                let ghost s = old(self).tasks@;
                let mut other = vmm;
                std::mem::swap(&mut t.vmm, &mut other);
                self.tasks.insert(i, t);
                proof {
                    assert(self.tasks@ =~= s.update(i as int, Task { vmm, ..s[i as int] }));
                    assert forall|a: int, b: int| 0 <= a < b < self.tasks@.len() implies (#[trigger] self.tasks@[a]).tid.0
                        < (#[trigger] self.tasks@[b]).tid.0 by {
                        assert(s[a].tid.0 < s[b].tid.0);
                    }
                }
                other
            },
            None => vmm,
        }
    }

    /// Sets the priority of the task with `tid`; a missing tid leaves the table alone.
    pub fn set_priority(&mut self, tid: Tid, priority: u8)
        requires
            old(self).wf(),
        ensures
            final(self).wf(),
            final(self).tasks() == with_priority(old(self).tasks(), tid, priority),
    {
        proof {
            lemma_tid_index(self.tasks(), tid);
        }
        if let Some(i) = self.find(tid) {
            let mut t = self.tasks.remove(i);
            let ghost s = old(self).tasks@;
            t.priority = priority;
            self.tasks.insert(i, t);
            proof {
                assert(self.tasks@ =~= s.update(i as int, Task { priority, ..s[i as int] }));
                assert forall|a: int, b: int| 0 <= a < b < self.tasks@.len() implies (#[trigger] self.tasks@[a]).tid.0
                    < (#[trigger] self.tasks@[b]).tid.0 by {
                    assert(s[a].tid.0 < s[b].tid.0);
                }
            }
        }
    }

    /// Marks the task with `tid` a zombie carrying `code`; returns its parent.
    pub fn set_exited(&mut self, tid: Tid, code: i32) -> (parent: Option<Pid>)
        requires
            old(self).wf(),
        ensures
            final(self).wf(),
            final(self).tasks() == if old(self).contains(tid) {
                old(self).tasks().update(
                    tid_index(old(self).tasks(), tid),
                    Task { state: TaskState::Zombie, exit_code: Some(code), ..old(self).task(tid) },
                )
            } else {
                old(self).tasks()
            },
            parent == if old(self).contains(tid) { old(self).task(tid).parent } else { None },
    {
        proof {
            lemma_tid_index(self.tasks(), tid);
        }
        if let Some(i) = self.find(tid) {
            let mut t = self.tasks.remove(i);
            let ghost s = old(self).tasks@;
            t.state = TaskState::Zombie;
            t.exit_code = Some(code);
            let parent = t.parent;
            self.tasks.insert(i, t);
            proof {
                assert(self.tasks@ =~= s.update(i as int, Task { state: TaskState::Zombie, exit_code: Some(code), ..s[i as int] }));
                assert forall|a: int, b: int| 0 <= a < b < self.tasks@.len() implies (#[trigger] self.tasks@[a]).tid.0
                    < (#[trigger] self.tasks@[b]).tid.0 by {
                    assert(s[a].tid.0 < s[b].tid.0);
                }
            }
            parent
        } else {
            None
        }
    }
}

impl TaskRegistry for BTreeTaskRegistry {
    open spec fn registry_wf(&self) -> bool {
        self.wf()
    }

    open spec fn has_task(&self, tid: Tid) -> bool {
        self.contains(tid)
    }

    open spec fn task_of(&self, tid: Tid) -> Task {
        self.task(tid)
    }

    fn insert(&mut self, task: Task) {
        BTreeTaskRegistry::insert(self, task);
        proof {
            let s = old(self).tasks();
            let i = tid_index(s, task.tid);
            lemma_tid_index(s, task.tid);
            if i >= 0 {
                lemma_tid_index_unique(self.tasks(), i);
            } else {
                let p = insert_pos(s, task.tid.0);
                lemma_insert_pos(s, task.tid.0);
                assert(self.tasks()[p] == task);
                lemma_tid_index_unique(self.tasks(), p);
            }
        }
    }

    fn get(&self, tid: Tid) -> Option<&Task> {
        BTreeTaskRegistry::get(self, tid)
    }

    fn remove(&mut self, tid: Tid) -> Option<Task> {
        let r = BTreeTaskRegistry::remove(self, tid);
        proof {
            lemma_tid_index(self.tasks(), tid);
            lemma_tid_index(old(self).tasks(), tid);
            if tid_index(self.tasks(), tid) >= 0 {
                let s = old(self).tasks();
                let k = tid_index(s, tid);
                let j = tid_index(self.tasks(), tid);
                let oj = if j >= k { j + 1 } else { j };
                assert(self.tasks()[j] == s[oj]);
                lemma_tid_index_unique(s, oj);
            }
        }
        r
    }

    fn all_tids(&self) -> Vec<Tid> {
        let r = BTreeTaskRegistry::all_tids(self);
        proof {
            assert forall|i: int| 0 <= i < r@.len() implies self.has_task(#[trigger] r@[i]) by {
                lemma_tid_index_unique(self.tasks(), i);
            }
            assert forall|t: Tid| self.has_task(t) implies r@.contains(t) by {
                lemma_tid_index(self.tasks(), t);
                let k = tid_index(self.tasks(), t);
                assert(r@[k] == t);
            }
        }
        r
    }
}

} // verus!

verus! {

/// Two task sequences holding the same tids at the same positions find every tid at the same index.
pub proof fn lemma_same_tids(s1: Seq<Task>, s2: Seq<Task>, tid: Tid)
    requires
        s1.len() == s2.len(),
        forall|i: int| 0 <= i < s1.len() ==> (#[trigger] s1[i]).tid == s2[i].tid,
    ensures
        tid_index(s1, tid) == tid_index(s2, tid),
    decreases s1.len(),
{
    if s1.len() > 0 {
        assert(s1.last().tid == s2.last().tid);
        assert forall|i: int| 0 <= i < s1.drop_last().len() implies (#[trigger] s1.drop_last()[i]).tid
            == s2.drop_last()[i].tid by {
            assert(s1.drop_last()[i] == s1[i]);
            assert(s2.drop_last()[i] == s2[i]);
        }
        lemma_same_tids(s1.drop_last(), s2.drop_last(), tid);
    }
}

} // verus!

verus! {

/// Inserting a task with a new tid keeps every other task findable and unchanged.
pub proof fn lemma_insert_keeps(s: Seq<Task>, task: Task, t: Tid)
    requires
        sorted_by_tid(s),
        tid_index(s, task.tid) < 0,
        sorted_by_tid(s.insert(insert_pos(s, task.tid.0), task)),
        0 <= insert_pos(s, task.tid.0) <= s.len(),
        tid_index(s, t) >= 0,
    ensures
        ({
            let n = s.insert(insert_pos(s, task.tid.0), task);
            tid_index(n, t) >= 0 && n[tid_index(n, t)] == s[tid_index(s, t)]
        }),
{
    let p = insert_pos(s, task.tid.0);
    let n = s.insert(p, task);
    lemma_tid_index(s, t);
    let i = tid_index(s, t);
    let j = if i < p { i } else { i + 1 };
    assert(n[j] == s[i]);
    lemma_tid_index_unique(n, j);
}

} // verus!

verus! {

/// Removing the task at index `k` keeps every other task findable and unchanged.
pub proof fn lemma_remove_keeps_task(s: Seq<Task>, k: int, t: Tid)
    requires
        sorted_by_tid(s),
        0 <= k < s.len(),
        tid_index(s, t) >= 0,
        s[k].tid != t,
    ensures
        ({
            let n = s.remove(k);
            tid_index(n, t) >= 0 && n[tid_index(n, t)] == s[tid_index(s, t)]
        }),
{
    let n = s.remove(k);
    lemma_tid_index(s, t);
    let i = tid_index(s, t);
    let j = if i < k { i } else { i - 1 };
    assert(n[j] == s[i]);
    assert(sorted_by_tid(n)) by {
        assert forall|a: int, b: int| 0 <= a < b < n.len() implies (#[trigger] n[a]).tid.0 < (#[trigger] n[b]).tid.0 by {
            let oa = if a >= k { a + 1 } else { a };
            let ob = if b >= k { b + 1 } else { b };
            assert(n[a] == s[oa] && n[b] == s[ob]);
        }
    }
    lemma_tid_index_unique(n, j);
}

} // verus!
