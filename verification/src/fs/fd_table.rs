//! The two-level file-descriptor table: per process, descriptor to path.
use vstd::prelude::*;
use std::collections::BTreeMap;
use crate::process::pid::Pid;

verus! {

broadcast use {vstd::std_specs::btree::group_btree_axioms, vstd::laws_cmp::group_laws_cmp};

/// Descriptors 0, 1 and 2 are standard input, output and error; files get descriptors from
/// here on.
pub const FIRST_FILE_FD: u64 = 3;

pub struct FdEntry {
    pub path: String,
}

/// One process's open files.
pub struct ProcFdTable {
    next_fd: u64,
    map: BTreeMap<u64, FdEntry>,
}

impl ProcFdTable {
    /// The descriptor the next `alloc_fd` returns.
    pub closed spec fn next(&self) -> u64 {
        self.next_fd
    }

    /// The path of each open descriptor.
    pub closed spec fn view_map(&self) -> Map<u64, Seq<char>> {
        Map::new(|fd: u64| self.map@.contains_key(fd), |fd: u64| self.map@[fd].path@)
    }

    /// Every open descriptor was handed out before, never below the first file descriptor.
    pub open spec fn wf(&self) -> bool {
        &&& FIRST_FILE_FD <= self.next()
        &&& forall|fd: u64| #[trigger] self.view_map().contains_key(fd) ==> FIRST_FILE_FD <= fd < self.next()
    }

    /// The descriptor the next `alloc_fd` returns.
    pub fn next_fd(&self) -> (r: u64)
        ensures
            r == self.next(),
    {
        self.next_fd
    }

    pub fn new() -> (r: Self)
        ensures
            r.wf(),
            r.next() == FIRST_FILE_FD,
            r.view_map() == Map::<u64, Seq<char>>::empty(),
    {
        let r = Self { next_fd: FIRST_FILE_FD, map: BTreeMap::new() };
        assert(r.view_map() =~= Map::<u64, Seq<char>>::empty());
        r
    }

    /// Opens `path` under a fresh descriptor and returns it.
    pub fn alloc_fd(&mut self, path: String) -> (fd: u64)
        requires
            old(self).wf(),
            old(self).next() < u64::MAX,
        ensures
            final(self).wf(),
            fd == old(self).next(),
            !old(self).view_map().contains_key(fd),
            final(self).next() == old(self).next() + 1,
            final(self).view_map() == old(self).view_map().insert(fd, path@),
    {
        let fd = self.next_fd;
        self.next_fd = self.next_fd + 1;
        let ghost p = path@;
        self.map.insert(fd, FdEntry { path });
        proof {
            assert(self.view_map() =~= old(self).view_map().insert(fd, p));
        }
        fd
    }

    pub fn get(&self, fd: u64) -> (r: Option<&FdEntry>)
        ensures
            match r {
                Some(e) => self.view_map().contains_key(fd) && e.path@ == self.view_map()[fd],
                None => !self.view_map().contains_key(fd),
            },
    {
        self.map.get(&fd)
    }

    /// Closes `fd`, handing back its entry.
    pub fn remove(&mut self, fd: u64) -> (r: Option<FdEntry>)
        requires
            old(self).wf(),
        ensures
            final(self).wf(),
            final(self).next() == old(self).next(),
            final(self).view_map() == old(self).view_map().remove(fd),
            match r {
                Some(e) => old(self).view_map().contains_key(fd) && e.path@ == old(self).view_map()[fd],
                None => !old(self).view_map().contains_key(fd),
            },
    {
        let r = self.map.remove(&fd);
        proof {
            assert(self.view_map() =~= old(self).view_map().remove(fd));
        }
        r
    }
}

/// The tables of all processes, one per process, created on first use.
pub struct FdRegistry {
    tables: Vec<(Pid, ProcFdTable)>,
}

impl FdRegistry {
    /// The processes with a table, in the order their tables were made.
    pub closed spec fn pids(&self) -> Seq<Pid> {
        Seq::new(self.tables@.len(), |i: int| self.tables@[i].0)
    }

    /// The tables, in the same order.
    pub closed spec fn tables_view(&self) -> Seq<ProcFdTable> {
        Seq::new(self.tables@.len(), |i: int| self.tables@[i].1)
    }

    /// The path open under `fd` in the table of `pid`, if any.
    pub open spec fn lookup(&self, pid: Pid, fd: u64) -> Option<Seq<char>> {
        if self.pids().contains(pid) {
            let i = choose|i: int| 0 <= i < self.pids().len() && self.pids()[i] == pid;
            if self.tables_view()[i].view_map().contains_key(fd) {
                Some(self.tables_view()[i].view_map()[fd])
            } else {
                None
            }
        } else {
            None
        }
    }

    /// The descriptor the next file opened by `pid` gets.
    pub open spec fn next_for(&self, pid: Pid) -> u64 {
        if self.pids().contains(pid) {
            let i = choose|i: int| 0 <= i < self.pids().len() && self.pids()[i] == pid;
            self.tables_view()[i].next()
        } else {
            FIRST_FILE_FD
        }
    }

    /// Each process has at most one table, and every table is well formed.
    pub open spec fn wf(&self) -> bool {
        &&& self.pids().len() == self.tables_view().len()
        &&& forall|i: int, j: int| 0 <= i < j < self.pids().len() ==> #[trigger] self.pids()[i] != #[trigger] self.pids()[j]
        &&& forall|i: int| 0 <= i < self.tables_view().len() ==> (#[trigger] self.tables_view()[i]).wf()
    }

    pub fn new() -> (r: Self)
        ensures
            r.wf(),
            r.pids() == Seq::<Pid>::empty(),
    {
        let r = Self { tables: Vec::new() };
        assert(r.pids() =~= Seq::<Pid>::empty());
        r
    }

    fn find(&self, pid: Pid) -> (r: Option<usize>)
        ensures
            match r {
                Some(i) => i < self.pids().len() && self.pids()[i as int] == pid,
                None => !self.pids().contains(pid),
            },
    {
        let mut i: usize = 0;
        while i < self.tables.len()
            invariant
                i <= self.tables@.len(),
                forall|k: int| 0 <= k < i ==> self.tables@[k].0 != pid,
            decreases self.tables@.len() - i,
        {
            if self.tables[i].0 == pid {
                return Some(i);
            }
            i = i + 1;
        }
        proof {
            if self.pids().contains(pid) {
                let k = choose|k: int| 0 <= k < self.pids().len() && self.pids()[k] == pid;
                assert(self.tables@[k].0 == pid);
            }
        }
        None
    }

    /// The table of `pid`, made empty if it has none yet.
    pub fn table_for(&mut self, pid: Pid) -> (r: &mut ProcFdTable)
        requires
            old(self).wf(),
        ensures
            r.wf(),
            old(self).pids().contains(pid) ==> {
                let i = choose|i: int| 0 <= i < old(self).pids().len() && old(self).pids()[i] == pid;
                &&& *r == old(self).tables_view()[i]
                &&& final(self).pids() == old(self).pids()
                &&& final(self).tables_view() == old(self).tables_view().update(i, *final(r))
            },
            !old(self).pids().contains(pid) ==> {
                &&& r.next() == FIRST_FILE_FD
                &&& r.view_map() == Map::<u64, Seq<char>>::empty()
                &&& final(self).pids() == old(self).pids().push(pid)
                &&& final(self).tables_view() == old(self).tables_view().push(*final(r))
            },
            final(self).pids().contains(pid),
            final(r).wf() ==> final(self).wf(),
    {
        match self.find(pid) {
            Some(i) => {
                proof {
                    let j = choose|j: int| 0 <= j < self.pids().len() && self.pids()[j] == pid;
                    if j != i {
                        if j < i {
                            assert(self.pids()[j] != self.pids()[i as int]);
                        } else {
                            assert(self.pids()[i as int] != self.pids()[j]);
                        }
                    }
                    assert(self.tables_view()[i as int].wf());
                    assert(self.pids().contains(pid));
                    lemma_update_tables_wf(self.tables_view(), i as int);
                }
                proof {
                    lemma_wf_after_update(*self, pid, i as int);
                }
                &mut self.tables[i].1
            },
            None => {
                proof {
                    lemma_push_unique_pids(self.pids(), pid);
                    lemma_push_tables_wf(self.tables_view());
                    lemma_wf_after_push(*self, pid);
                    assert(self.pids().push(pid)[self.pids().len() as int] == pid);
                }
                self.tables.push((pid, ProcFdTable::new()));
                let n = self.tables.len() - 1;
                proof {
                    assert(self.pids()[n as int] == pid);
                }
                &mut self.tables[n].1
            },
        }
    }

    proof fn lemma_index_of(&self, pid: Pid, i: int)
        requires
            self.wf(),
            0 <= i < self.pids().len(),
            self.pids()[i] == pid,
        ensures
            self.pids().contains(pid),
            (choose|j: int| 0 <= j < self.pids().len() && self.pids()[j] == pid) == i,
    {
        assert(self.pids().contains(pid));
        let j = choose|j: int| 0 <= j < self.pids().len() && self.pids()[j] == pid;
        if j < i {
            assert(self.pids()[j] != self.pids()[i]);
        } else if i < j {
            assert(self.pids()[i] != self.pids()[j]);
        }
    }

    /// The descriptor the next file opened by `pid` gets.
    pub fn next_fd_for(&self, pid: Pid) -> (r: u64)
        requires
            self.wf(),
        ensures
            r == self.next_for(pid),
    {
        match self.find(pid) {
            Some(i) => {
                proof {
                    self.lemma_index_of(pid, i as int);
                }
                self.tables[i].1.next_fd()
            },
            None => FIRST_FILE_FD,
        }
    }

    /// The path open under `fd` in the table of `pid` (made empty if it had none).
    pub fn get_path(&mut self, pid: Pid, fd: u64) -> (r: Option<String>)
        requires
            old(self).wf(),
        ensures
            final(self).wf(),
            match r {
                Some(p) => old(self).lookup(pid, fd) == Some(p@),
                None => old(self).lookup(pid, fd) is None,
            },
            forall|q: Pid, f: u64| #[trigger] final(self).lookup(q, f) == old(self).lookup(q, f),
            forall|q: Pid| #[trigger] final(self).next_for(q) == old(self).next_for(q),
    {
        let ghost old_self = *self;
        let t = self.table_for(pid);
        let r = match t.get(fd) {
            Some(e) => Some(e.path.clone()),
            None => None,
        };
        proof {
            if !old_self.pids().contains(pid) {
                assert(self.tables_view().subrange(0, old_self.tables_view().len() as int) =~= old_self.tables_view());
            }
            self.lemma_after_table_for(old_self, pid);
        }
        r
    }

    /// After `table_for(pid)`, with the table of `pid` left as it was, nothing visible changed.
    proof fn lemma_after_table_for(&self, old_self: FdRegistry, pid: Pid)
        requires
            old_self.wf(),
            old_self.pids().contains(pid) ==> {
                let i = choose|i: int| 0 <= i < old_self.pids().len() && old_self.pids()[i] == pid;
                &&& self.pids() == old_self.pids()
                &&& self.tables_view() == old_self.tables_view().update(i, old_self.tables_view()[i])
            },
            !old_self.pids().contains(pid) ==> {
                &&& self.pids() == old_self.pids().push(pid)
                &&& self.tables_view().len() == old_self.tables_view().len() + 1
                &&& self.tables_view().subrange(0, old_self.tables_view().len() as int) == old_self.tables_view()
                &&& self.tables_view().last().next() == FIRST_FILE_FD
                &&& self.tables_view().last().view_map() == Map::<u64, Seq<char>>::empty()
                &&& self.tables_view().last().wf()
            },
        ensures
            self.wf(),
            forall|q: Pid, f: u64| #[trigger] self.lookup(q, f) == old_self.lookup(q, f),
            forall|q: Pid| #[trigger] self.next_for(q) == old_self.next_for(q),
    {
        if old_self.pids().contains(pid) {
            let i = choose|i: int| 0 <= i < old_self.pids().len() && old_self.pids()[i] == pid;
            assert(self.tables_view() =~= old_self.tables_view());
        } else {
            let n = old_self.pids().len() as int;
            assert forall|a: int, b: int| 0 <= a < b < self.pids().len() implies #[trigger] self.pids()[a] != #[trigger] self.pids()[b] by {
                if b == n {
                    assert(old_self.pids()[a] != pid);
                } else {
                    assert(old_self.pids()[a] != old_self.pids()[b]);
                }
            }
            assert forall|a: int| 0 <= a < self.tables_view().len() implies (#[trigger] self.tables_view()[a]).wf() by {
                if a < n {
                    assert(self.tables_view()[a] == self.tables_view().subrange(0, n)[a]);
                    assert(old_self.tables_view()[a].wf());
                }
            }
            assert forall|q: Pid, f: u64| #[trigger] self.lookup(q, f) == old_self.lookup(q, f) by {
                if q == pid {
                    self.lemma_index_of(pid, n);
                } else if old_self.pids().contains(q) {
                    let j = choose|j: int| 0 <= j < old_self.pids().len() && old_self.pids()[j] == q;
                    self.lemma_index_of(q, j);
                    assert(self.tables_view()[j] == self.tables_view().subrange(0, n)[j]);
                } else {
                    if self.pids().contains(q) {
                        let j = choose|j: int| 0 <= j < self.pids().len() && self.pids()[j] == q;
                        if j < n {
                            assert(old_self.pids()[j] == q);
                        }
                    }
                }
            }
            assert forall|q: Pid| #[trigger] self.next_for(q) == old_self.next_for(q) by {
                if q == pid {
                    self.lemma_index_of(pid, n);
                } else if old_self.pids().contains(q) {
                    let j = choose|j: int| 0 <= j < old_self.pids().len() && old_self.pids()[j] == q;
                    self.lemma_index_of(q, j);
                    assert(self.tables_view()[j] == self.tables_view().subrange(0, n)[j]);
                } else {
                    if self.pids().contains(q) {
                        let j = choose|j: int| 0 <= j < self.pids().len() && self.pids()[j] == q;
                        if j < n {
                            assert(old_self.pids()[j] == q);
                        }
                    }
                }
            }
        }
    }

    /// Once the table of `pid` is `t` (and the others are as they were), lookups and next
    /// descriptors of `pid` are those of `t`, and those of other processes did not change.
    proof fn lemma_after_update(&self, old_self: FdRegistry, pid: Pid, t: ProcFdTable)
        requires
            old_self.wf(),
            t.wf(),
            old_self.pids().contains(pid) ==> {
                let i = choose|i: int| 0 <= i < old_self.pids().len() && old_self.pids()[i] == pid;
                &&& self.pids() == old_self.pids()
                &&& self.tables_view() == old_self.tables_view().update(i, t)
            },
            !old_self.pids().contains(pid) ==> {
                &&& self.pids() == old_self.pids().push(pid)
                &&& self.tables_view() == old_self.tables_view().push(t)
            },
        ensures
            self.wf(),
            self.pids().contains(pid),
            forall|q: Pid, f: u64| #[trigger] self.lookup(q, f) == (if q == pid {
                if t.view_map().contains_key(f) { Some(t.view_map()[f]) } else { None }
            } else {
                old_self.lookup(q, f)
            }),
            forall|q: Pid| #[trigger] self.next_for(q) == (if q == pid { t.next() } else { old_self.next_for(q) }),
    {
        let n = old_self.pids().len() as int;
        let i = if old_self.pids().contains(pid) {
            choose|i: int| 0 <= i < old_self.pids().len() && old_self.pids()[i] == pid
        } else {
            n
        };
        assert(self.pids()[i] == pid);
        assert forall|a: int, b: int| 0 <= a < b < self.pids().len() implies #[trigger] self.pids()[a] != #[trigger] self.pids()[b] by {
            if b == n {
                assert(old_self.pids()[a] != pid);
            } else {
                assert(old_self.pids()[a] != old_self.pids()[b]);
            }
        }
        assert forall|a: int| 0 <= a < self.tables_view().len() implies (#[trigger] self.tables_view()[a]).wf() by {
            if a != i {
                assert(old_self.tables_view()[a].wf());
            }
        }
        self.lemma_index_of(pid, i);
        assert forall|q: Pid, f: u64| #[trigger] self.lookup(q, f) == (if q == pid {
            if t.view_map().contains_key(f) { Some(t.view_map()[f]) } else { None }
        } else {
            old_self.lookup(q, f)
        }) by {
            if q != pid {
                if old_self.pids().contains(q) {
                    let j = choose|j: int| 0 <= j < old_self.pids().len() && old_self.pids()[j] == q;
                    self.lemma_index_of(q, j);
                } else if self.pids().contains(q) {
                    let j = choose|j: int| 0 <= j < self.pids().len() && self.pids()[j] == q;
                    assert(j != i);
                    assert(old_self.pids()[j] == q);
                }
            }
        }
        assert forall|q: Pid| #[trigger] self.next_for(q) == (if q == pid { t.next() } else { old_self.next_for(q) }) by {
            if q != pid {
                if old_self.pids().contains(q) {
                    let j = choose|j: int| 0 <= j < old_self.pids().len() && old_self.pids()[j] == q;
                    self.lemma_index_of(q, j);
                } else if self.pids().contains(q) {
                    let j = choose|j: int| 0 <= j < self.pids().len() && self.pids()[j] == q;
                    assert(j != i);
                    assert(old_self.pids()[j] == q);
                }
            }
        }
    }

    /// Opens `path` for `pid` under its next descriptor and returns it.
    pub fn alloc_for(&mut self, pid: Pid, path: String) -> (fd: u64)
        requires
            old(self).wf(),
            old(self).next_for(pid) < u64::MAX,
        ensures
            final(self).wf(),
            fd == old(self).next_for(pid),
            old(self).lookup(pid, fd) is None,
            forall|q: Pid, f: u64| #[trigger] final(self).lookup(q, f) == (if q == pid && f == fd {
                Some(path@)
            } else {
                old(self).lookup(q, f)
            }),
            forall|q: Pid| #[trigger] final(self).next_for(q) == (if q == pid { (fd + 1) as u64 } else { old(self).next_for(q) }),
    {
        let ghost old_self = *self;
        let ghost p = path@;
        let t = self.table_for(pid);
        let ghost t0 = *t;
        let fd = t.alloc_fd(path);
        proof {
            self.lemma_after_update(old_self, pid, *t);
            if old_self.pids().contains(pid) {
                let i = choose|i: int| 0 <= i < old_self.pids().len() && old_self.pids()[i] == pid;
                assert(t0 == old_self.tables_view()[i]);
            }
            assert(t.view_map() =~= t0.view_map().insert(fd, p));
        }
        fd
    }

    /// Closes `fd` of `pid`, handing back its entry.
    pub fn remove_for(&mut self, pid: Pid, fd: u64) -> (r: Option<FdEntry>)
        requires
            old(self).wf(),
        ensures
            final(self).wf(),
            match r {
                Some(e) => old(self).lookup(pid, fd) == Some(e.path@),
                None => old(self).lookup(pid, fd) is None,
            },
            forall|q: Pid, f: u64| #[trigger] final(self).lookup(q, f) == (if q == pid && f == fd {
                None
            } else {
                old(self).lookup(q, f)
            }),
            forall|q: Pid| #[trigger] final(self).next_for(q) == old(self).next_for(q),
    {
        let ghost old_self = *self;
        let t = self.table_for(pid);
        let ghost t0 = *t;
        let r = t.remove(fd);
        proof {
            self.lemma_after_update(old_self, pid, *t);
            if old_self.pids().contains(pid) {
                let i = choose|i: int| 0 <= i < old_self.pids().len() && old_self.pids()[i] == pid;
                assert(t0 == old_self.tables_view()[i]);
            }
        }
        r
    }

    /// Drops the table of `pid`.
    pub fn remove_process(&mut self, pid: Pid)
        requires
            old(self).wf(),
        ensures
            final(self).wf(),
            !final(self).pids().contains(pid),
            forall|p: Pid| p != pid ==> (#[trigger] final(self).pids().contains(p) <==> old(self).pids().contains(p)),
            forall|f: u64| #[trigger] final(self).lookup(pid, f) is None,
            final(self).next_for(pid) == FIRST_FILE_FD,
            forall|q: Pid, f: u64| q != pid ==> #[trigger] final(self).lookup(q, f) == old(self).lookup(q, f),
            forall|q: Pid| q != pid ==> #[trigger] final(self).next_for(q) == old(self).next_for(q),
    {
        match self.find(pid) {
            Some(i) => {
                let ghost before = self.tables@;
                self.tables.remove(i);
                proof {
                    assert forall|a: int, b: int| 0 <= a < b < self.pids().len() implies #[trigger] self.pids()[a]
                        != #[trigger] self.pids()[b] by {
                        let oa = if a < i { a } else { a + 1 };
                        let ob = if b < i { b } else { b + 1 };
                        assert(old(self).pids()[oa] != old(self).pids()[ob]);
                    }
                    assert forall|a: int| 0 <= a < self.tables_view().len() implies (#[trigger] self.tables_view()[a]).wf() by {
                        let oa = if a < i { a } else { a + 1 };
                        assert(old(self).tables_view()[oa].wf());
                    }
                    if self.pids().contains(pid) {
                        let k = choose|k: int| 0 <= k < self.pids().len() && self.pids()[k] == pid;
                        let ok = if k < i { k } else { k + 1 };
                        if ok < i {
                            assert(old(self).pids()[ok] != old(self).pids()[i as int]);
                        } else {
                            assert(old(self).pids()[i as int] != old(self).pids()[ok]);
                        }
                    }
                    assert forall|p: Pid| p != pid implies (#[trigger] self.pids().contains(p) <==> old(self).pids().contains(p)) by {
                        if self.pids().contains(p) {
                            let k = choose|k: int| 0 <= k < self.pids().len() && self.pids()[k] == p;
                            let ok = if k < i { k } else { k + 1 };
                            assert(old(self).pids()[ok] == p);
                        }
                        if old(self).pids().contains(p) {
                            let k = choose|k: int| 0 <= k < old(self).pids().len() && old(self).pids()[k] == p;
                            assert(k != i);
                            let nk = if k < i { k } else { k - 1 };
                            assert(self.pids()[nk] == p);
                        }
                    }
                    assert forall|q: Pid| q != pid && #[trigger] old(self).pids().contains(q) implies ({
                        let k = choose|k: int| 0 <= k < old(self).pids().len() && old(self).pids()[k] == q;
                        let nk = choose|k: int| 0 <= k < self.pids().len() && self.pids()[k] == q;
                        self.tables_view()[nk] == old(self).tables_view()[k]
                    }) by {
                        let k = choose|k: int| 0 <= k < old(self).pids().len() && old(self).pids()[k] == q;
                        assert(k != i);
                        let nk = if k < i { k } else { k - 1 };
                        assert(self.pids()[nk] == q);
                        self.lemma_index_of(q, nk);
                        old(self).lemma_index_of(q, k);
                    }
                    assert forall|q: Pid, f: u64| q != pid implies #[trigger] self.lookup(q, f) == old(self).lookup(q, f) by {
                        if old(self).pids().contains(q) {
                            assert(old(self).pids().contains(q));
                        }
                    }
                    assert forall|q: Pid| q != pid implies #[trigger] self.next_for(q) == old(self).next_for(q) by {
                        if old(self).pids().contains(q) {
                            assert(old(self).pids().contains(q));
                        }
                    }
                }
            },
            None => {},
        }
    }
}

/// Each pid occurs at most once in `ps`.
pub open spec fn unique_pids(ps: Seq<Pid>) -> bool {
    forall|i: int, j: int| 0 <= i < j < ps.len() ==> #[trigger] ps[i] != #[trigger] ps[j]
}

proof fn lemma_wf_after_update(a: FdRegistry, pid: Pid, i: int)
    requires
        a.wf(),
        0 <= i < a.pids().len(),
        a.pids()[i] == pid,
    ensures
        forall|b: FdRegistry|
            #![trigger b.wf()]
            b.pids() =~= a.pids() && b.tables_view().len() == a.tables_view().len() && (forall|k: int|
                0 <= k < a.tables_view().len() && k != i ==> b.tables_view()[k] == a.tables_view()[k])
                && b.tables_view()[i].wf() ==> b.wf(),
        forall|b: FdRegistry| #![trigger b.pids()] b.pids() =~= a.pids() ==> b.pids().contains(pid),
{
    lemma_update_tables_wf(a.tables_view(), i);
    assert forall|b: FdRegistry| #![trigger b.pids()] b.pids() =~= a.pids() implies b.pids().contains(pid) by {
        assert(b.pids()[i] == pid);
    }
}

proof fn lemma_wf_after_push(a: FdRegistry, pid: Pid)
    requires
        a.wf(),
        !a.pids().contains(pid),
    ensures
        forall|b: FdRegistry|
            #![trigger b.wf()]
            b.pids() =~= a.pids().push(pid) && b.tables_view().len() == a.tables_view().len() + 1 && (forall|k: int|
                0 <= k < a.tables_view().len() ==> b.tables_view()[k] == a.tables_view()[k])
                && b.tables_view()[a.tables_view().len() as int].wf() ==> b.wf(),
        forall|b: FdRegistry| #![trigger b.pids()] b.pids() =~= a.pids().push(pid) ==> b.pids().contains(pid),
{
    lemma_push_tables_wf(a.tables_view());
    lemma_push_unique_pids(a.pids(), pid);
    assert forall|b: FdRegistry| #![trigger b.pids()] b.pids() =~= a.pids().push(pid) implies b.pids().contains(pid) by {
        assert(b.pids()[a.pids().len() as int] == pid);
    }
}

proof fn lemma_update_tables_wf(ts: Seq<ProcFdTable>, i: int)
    requires
        forall|k: int| 0 <= k < ts.len() ==> (#[trigger] ts[k]).wf(),
        0 <= i < ts.len(),
    ensures
        forall|t: ProcFdTable| t.wf() ==> forall|k: int| 0 <= k < ts.len() ==> (#[trigger] ts.update(i, t)[k]).wf(),
{
}

proof fn lemma_push_tables_wf(ts: Seq<ProcFdTable>)
    requires
        forall|k: int| 0 <= k < ts.len() ==> (#[trigger] ts[k]).wf(),
    ensures
        forall|t: ProcFdTable| t.wf() ==> forall|k: int| 0 <= k < ts.len() + 1 ==> (#[trigger] ts.push(t)[k]).wf(),
{
    assert forall|t: ProcFdTable| t.wf() implies forall|k: int| 0 <= k < ts.len() + 1 ==> (#[trigger] ts.push(
        t,
    )[k]).wf() by {
        assert forall|k: int| 0 <= k < ts.len() + 1 implies (#[trigger] ts.push(t)[k]).wf() by {
            if k < ts.len() {
                assert(ts.push(t)[k] == ts[k]);
            }
        }
    }
}

proof fn lemma_push_unique_pids(ps: Seq<Pid>, q: Pid)
    requires
        unique_pids(ps),
        !ps.contains(q),
    ensures
        unique_pids(ps.push(q)),
{
    assert forall|i: int, j: int| 0 <= i < j < ps.push(q).len() implies #[trigger] ps.push(q)[i]
        != #[trigger] ps.push(q)[j] by {
        assert(ps.push(q)[i] == ps[i]);
        if j < ps.len() {
            assert(ps.push(q)[j] == ps[j]);
        }
    }
}

proof fn lemma_pick(ps: Seq<Pid>, q: Pid, k: int)
    requires
        unique_pids(ps),
        0 <= k < ps.len(),
        ps[k] == q,
    ensures
        ps.contains(q),
        (choose|j: int| 0 <= j < ps.len() && ps[j] == q) == k,
{
    assert(ps.contains(q));
    let j = choose|j: int| 0 <= j < ps.len() && ps[j] == q;
    if j < k {
        assert(ps[j] != ps[k]);
    } else if k < j {
        assert(ps[k] != ps[j]);
    }
}

/// The tables are per process (the first level of the two-level table): whatever is done
/// through the table that `table_for(pid)` hands out, ending as `t` (`b` is the registry then),
/// every other process keeps its descriptors and the descriptor it gets next, and `pid` sees
/// exactly the descriptors of `t`; a later `table_for(pid)` hands out `t` again.
pub proof fn lemma_table_for_isolates(a: FdRegistry, b: FdRegistry, pid: Pid, t: ProcFdTable)
    requires
        a.wf(),
        a.pids().contains(pid) ==> {
            let i = choose|i: int| 0 <= i < a.pids().len() && a.pids()[i] == pid;
            &&& b.pids() == a.pids()
            &&& b.tables_view() == a.tables_view().update(i, t)
        },
        !a.pids().contains(pid) ==> b.pids() == a.pids().push(pid) && b.tables_view() == a.tables_view().push(t),
    ensures
        forall|q: Pid, f: u64| q != pid ==> #[trigger] b.lookup(q, f) == a.lookup(q, f),
        forall|q: Pid| q != pid ==> #[trigger] b.next_for(q) == a.next_for(q),
        forall|f: u64| #[trigger] b.lookup(pid, f) == (if t.view_map().contains_key(f) {
            Some(t.view_map()[f])
        } else {
            None
        }),
        b.next_for(pid) == t.next(),
        b.pids().contains(pid),
        b.tables_view()[choose|i: int| 0 <= i < b.pids().len() && b.pids()[i] == pid] == t,
        t.wf() ==> b.wf(),
{
    let ap = a.pids();
    let bp = b.pids();
    assert(unique_pids(ap));
    assert(unique_pids(bp)) by {
        if !ap.contains(pid) {
            assert forall|i: int, j: int| 0 <= i < j < bp.len() implies #[trigger] bp[i] != #[trigger] bp[j] by {
                if j == ap.len() {
                    assert(ap[i] == bp[i]);
                }
            }
        }
    }
    let ib: int = if ap.contains(pid) {
        choose|i: int| 0 <= i < ap.len() && ap[i] == pid
    } else {
        ap.len() as int
    };
    assert(bp[ib] == pid);
    lemma_pick(bp, pid, ib);
    assert(b.tables_view()[ib] == t);
    assert forall|q: Pid, f: u64| q != pid implies #[trigger] b.lookup(q, f) == a.lookup(q, f) by {
        if ap.contains(q) {
            let k = choose|k: int| 0 <= k < ap.len() && ap[k] == q;
            lemma_pick(ap, q, k);
            assert(bp[k] == q);
            lemma_pick(bp, q, k);
            assert(k != ib);
            assert(b.tables_view()[k] == a.tables_view()[k]);
        } else if bp.contains(q) {
            let k = choose|k: int| 0 <= k < bp.len() && bp[k] == q;
            if k < ap.len() {
                assert(ap[k] == q);
            }
        }
    }
    assert forall|q: Pid| q != pid implies #[trigger] b.next_for(q) == a.next_for(q) by {
        if ap.contains(q) {
            let k = choose|k: int| 0 <= k < ap.len() && ap[k] == q;
            lemma_pick(ap, q, k);
            assert(bp[k] == q);
            lemma_pick(bp, q, k);
            assert(b.tables_view()[k] == a.tables_view()[k]);
        } else if bp.contains(q) {
            let k = choose|k: int| 0 <= k < bp.len() && bp[k] == q;
            if k < ap.len() {
                assert(ap[k] == q);
            }
        }
    }
}

} // verus!
