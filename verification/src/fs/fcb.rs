//! File control blocks: the kernel's state of each open file, by path.
use vstd::prelude::*;
use vstd::string::*;
use crate::fs::overlay::{path_index, lemma_path_index};
use crate::process::pid::Pid;

verus! {

pub struct Fcb {
    pub path: String,
    pub cursor: u64,
    pub open_count: u32,
    pub dirty: bool,
    /// The process holding the file's exclusive lock.
    pub locked_by: Option<Pid>,
    /// Set once, never cleared: a shared file is immutable.
    pub is_shared: bool,
}

/// The paths of `s`, in order.
pub open spec fn fcb_paths(s: Seq<Fcb>) -> Seq<Seq<char>> {
    Seq::new(s.len(), |i: int| s[i].path@)
}

/// No path occurs twice in `s`.
pub open spec fn unique_paths(s: Seq<Fcb>) -> bool {
    forall|i: int, j: int| 0 <= i < j < s.len() ==> #[trigger] s[i].path@ != #[trigger] s[j].path@
}

/// Whether `f` is the control block a file gets when first opened.
pub open spec fn is_fresh_fcb(f: Fcb, path: Seq<char>) -> bool {
    &&& f.path@ == path
    &&& f.cursor == 0
    &&& f.open_count == 0
    &&& !f.dirty
    &&& f.locked_by is None
    &&& !f.is_shared
}

pub struct FcbTable {
    entries: Vec<Fcb>,
}

impl FcbTable {
    /// The control blocks, in the order the table keeps them.
    pub closed spec fn fcbs(&self) -> Seq<Fcb> {
        self.entries@
    }

    pub open spec fn paths_view(&self) -> Seq<Seq<char>> {
        fcb_paths(self.fcbs())
    }

    pub open spec fn wf(&self) -> bool {
        unique_paths(self.fcbs())
    }

    pub fn new() -> (r: Self)
        ensures
            r.wf(),
            r.fcbs() == Seq::<Fcb>::empty(),
    {
        Self { entries: Vec::new() }
    }

    /// The position of `path`, as `path_index` over the paths.
    fn find(&self, path: &String) -> (r: Option<usize>)
        requires
            self.wf(),
        ensures
            match r {
                Some(i) => i == path_index(self.paths_view(), path@) && i < self.fcbs().len(),
                None => path_index(self.paths_view(), path@) == -1,
            },
    {
        proof {
            lemma_path_index(self.paths_view(), path@);
        }
        let mut i: usize = 0;
        while i < self.entries.len()
            invariant
                i <= self.entries@.len(),
                self.wf(),
                -1 <= path_index(self.paths_view(), path@) < self.paths_view().len(),
                path_index(self.paths_view(), path@) >= 0 ==> self.paths_view()[path_index(self.paths_view(), path@)] == path@,
                path_index(self.paths_view(), path@) == -1 <==> !self.paths_view().contains(path@),
                forall|k: int| 0 <= k < i ==> self.entries@[k].path@ != path@,
            decreases self.entries@.len() - i,
        {
            if self.entries[i].path == *path {
                proof {
                    let p = self.paths_view();
                    let j = path_index(p, path@);
                    assert(p[i as int] == path@);
                    assert(p.contains(path@));
                    if j != i {
                        assert(j > i);
                        assert(self.fcbs()[i as int].path@ != self.fcbs()[j].path@);
                    }
                }
                return Some(i);
            }
            i = i + 1;
        }
        proof {
            let p = self.paths_view();
            if p.contains(path@) {
                let j = choose|j: int| 0 <= j < p.len() && p[j] == path@;
                assert(self.entries@[j].path@ == path@);
            }
        }
        None
    }

    /// The control block of `path`, made fresh if the file has none. The caller keeps its
    /// path as it is.
    pub fn open(&mut self, path: &str) -> (r: &mut Fcb)
        requires
            old(self).wf(),
        ensures
            ({
                let i = path_index(old(self).paths_view(), path@);
                if i >= 0 {
                    &&& *r == old(self).fcbs()[i]
                    &&& final(self).fcbs() == old(self).fcbs().update(i, *final(r))
                } else {
                    &&& is_fresh_fcb(*r, path@)
                    &&& final(self).fcbs() == old(self).fcbs().push(*final(r))
                }
            }),
            final(r).path@ == path@ ==> final(self).wf(),
    {
        proof {
            lemma_path_index(self.paths_view(), path@);
        }
        let key = path.to_owned();
        match self.find(&key) {
            Some(i) => {
                proof {
                    assert(self.paths_view()[i as int] == self.fcbs()[i as int].path@);
                    assert(self.fcbs()[i as int].path@ == path@);
                    lemma_update_keeps_unique_all(self.fcbs(), i as int);
                }
                &mut self.entries[i]
            },
            None => {
                proof {
                    lemma_push_keeps_unique_all(self.fcbs(), path@);
                }
                self.entries.push(
                    Fcb { path: key, cursor: 0, open_count: 0, dirty: false, locked_by: None, is_shared: false },
                );
                let n = self.entries.len() - 1;
                &mut self.entries[n]
            },
        }
    }

    /// The control block of `path`, if it has one. The caller keeps its path as it is.
    pub fn get_mut(&mut self, path: &str) -> (r: Option<&mut Fcb>)
        requires
            old(self).wf(),
        ensures
            ({
                let i = path_index(old(self).paths_view(), path@);
                match r {
                    Some(f) => i >= 0 && *f == old(self).fcbs()[i] && final(self).fcbs() == old(self).fcbs().update(
                        i,
                        *final(f),
                    ),
                    None => i == -1 && final(self).fcbs() == old(self).fcbs(),
                }
            }),
    {
        let key = path.to_owned();
        match self.find(&key) {
            Some(i) => Some(&mut self.entries[i]),
            None => None,
        }
    }

    /// The control block of `path`, if it has one.
    pub fn get(&self, path: &str) -> (r: Option<&Fcb>)
        requires
            self.wf(),
        ensures
            ({
                let i = path_index(self.paths_view(), path@);
                match r {
                    Some(f) => i >= 0 && *f == self.fcbs()[i],
                    None => i == -1,
                }
            }),
    {
        let key = path.to_owned();
        match self.find(&key) {
            Some(i) => Some(&self.entries[i]),
            None => None,
        }
    }

    /// Whether the file `path` is shared, if it has a control block.
    pub fn find_shared(&self, path: &str) -> (r: Option<bool>)
        requires
            self.wf(),
        ensures
            ({
                let i = path_index(self.paths_view(), path@);
                match r {
                    Some(b) => i >= 0 && b == self.fcbs()[i].is_shared,
                    None => i == -1,
                }
            }),
    {
        let key = path.to_owned();
        match self.find(&key) {
            Some(i) => Some(self.entries[i].is_shared),
            None => None,
        }
    }

    /// The number of control blocks.
    pub fn len(&self) -> (r: usize)
        ensures
            r == self.fcbs().len(),
    {
        self.entries.len()
    }

    /// Drops the control block of `path`, if any.
    pub fn remove(&mut self, path: &str)
        requires
            old(self).wf(),
        ensures
            final(self).wf(),
            ({
                let i = path_index(old(self).paths_view(), path@);
                if i >= 0 {
                    final(self).fcbs() == old(self).fcbs().remove(i)
                } else {
                    final(self).fcbs() == old(self).fcbs()
                }
            }),
    {
        let key = path.to_owned();
        match self.find(&key) {
            Some(i) => {
                let ghost before = self.entries@;
                self.entries.remove(i);
                proof {
                    assert forall|a: int, b: int| 0 <= a < b < self.entries@.len() implies #[trigger] self.entries@[a].path@
                        != #[trigger] self.entries@[b].path@ by {
                        let oa = if a < i { a } else { a + 1 };
                        let ob = if b < i { b } else { b + 1 };
                        assert(before[oa].path@ != before[ob].path@);
                    }
                }
            },
            None => {},
        }
    }

    /// The paths of the open files, in ascending order (see `chars_lt`).
    pub fn paths(&self) -> (r: Vec<String>)
        requires
            self.wf(),
        ensures
            r@.len() == self.fcbs().len(),
            strictly_ascending(string_views(r@)),
            string_views(r@).to_set() == self.paths_view().to_set(),
    {
        let mut out: Vec<String> = Vec::new();
        let n = self.entries.len();
        let ghost all = fcb_paths(self.entries@);
        let mut i: usize = 0;
        proof {
            assert(string_views(out@).to_set() =~= all.subrange(0, 0).to_set());
        }
        while i < n
            invariant
                i <= n,
                n == self.entries@.len(),
                all == fcb_paths(self.entries@),
                unique_paths(self.entries@),
                out@.len() == i,
                strictly_ascending(string_views(out@)),
                string_views(out@).to_set() == all.subrange(0, i as int).to_set(),
            decreases n - i,
        {
            let x = self.entries[i].path.clone();
            let ghost xv = all[i as int];
            let ghost v0 = string_views(out@);
            proof {
                assert(x@ == xv);
                assert(!all.subrange(0, i as int).contains(xv)) by {
                    if all.subrange(0, i as int).contains(xv) {
                        let m = choose|m: int| 0 <= m < i && all.subrange(0, i as int)[m] == xv;
                        assert(self.entries@[m].path@ != self.entries@[i as int].path@);
                    }
                }
                assert(!v0.to_set().contains(xv));
                assert(!v0.contains(xv));
            }
            let mut p: usize = 0;
            while p < out.len() && str_lt(out[p].as_str(), x.as_str())
                invariant
                    p <= out@.len(),
                    x@ == xv,
                    v0 == string_views(out@),
                    forall|a: int| 0 <= a < p ==> chars_lt(#[trigger] v0[a], xv),
                decreases out@.len() - p,
            {
                p = p + 1;
            }
            proof {
                if p < out@.len() {
                    assert(!chars_lt(v0[p as int], xv));
                }
                lemma_insert_sorted(v0, p as int, xv);
                lemma_insert_to_set(v0, p as int, xv);
                assert(all.subrange(0, i + 1) =~= all.subrange(0, i as int).push(xv));
                lemma_push_to_set(all.subrange(0, i as int), xv);
            }
            out.insert(p, x);
            proof {
                assert(string_views(out@) =~= v0.insert(p as int, xv));
            }
            i = i + 1;
        }
        proof {
            assert(all.subrange(0, n as int) =~= all);
        }
        out
    }
}

/// Inserting into an ascending sequence, after what comes before `x` and before the rest, keeps
/// it ascending.
proof fn lemma_insert_sorted(v: Seq<Seq<char>>, p: int, x: Seq<char>)
    requires
        strictly_ascending(v),
        0 <= p <= v.len(),
        forall|a: int| 0 <= a < p ==> chars_lt(#[trigger] v[a], x),
        p < v.len() ==> !chars_lt(v[p], x),
        !v.contains(x),
    ensures
        strictly_ascending(v.insert(p, x)),
{
    let w = v.insert(p, x);
    if p < v.len() {
        lemma_chars_lt_total(v[p], x);
    }
    assert forall|a: int, b: int| 0 <= a < b < w.len() implies chars_lt(#[trigger] w[a], #[trigger] w[b]) by {
        if b < p {
        } else if b == p {
        } else if a < p {
            lemma_chars_lt_trans(w[a], x, v[p]);
            if b - 1 > p {
                lemma_chars_lt_trans(w[a], v[p], v[b - 1]);
            }
        } else if a == p {
            if b - 1 > p {
                lemma_chars_lt_trans(x, v[p], v[b - 1]);
            }
        } else {
        }
    }
}

proof fn lemma_insert_to_set(v: Seq<Seq<char>>, p: int, x: Seq<char>)
    requires
        0 <= p <= v.len(),
    ensures
        v.insert(p, x).to_set() == v.to_set().insert(x),
{
    let w = v.insert(p, x);
    assert forall|q: Seq<char>| w.contains(q) implies v.to_set().insert(x).contains(q) by {
        let a = choose|a: int| 0 <= a < w.len() && w[a] == q;
        if a < p {
            assert(v[a] == q);
        } else if a > p {
            assert(v[a - 1] == q);
        }
    }
    assert forall|q: Seq<char>| v.to_set().insert(x).contains(q) implies w.contains(q) by {
        if q == x {
            assert(w[p] == x);
        } else {
            let a = choose|a: int| 0 <= a < v.len() && v[a] == q;
            if a < p {
                assert(w[a] == q);
            } else {
                assert(w[a + 1] == q);
            }
        }
    }
    assert(w.to_set() =~= v.to_set().insert(x));
}

proof fn lemma_push_to_set(v: Seq<Seq<char>>, x: Seq<char>)
    ensures
        v.push(x).to_set() == v.to_set().insert(x),
{
    let w = v.push(x);
    assert forall|q: Seq<char>| w.contains(q) implies v.to_set().insert(x).contains(q) by {
        let a = choose|a: int| 0 <= a < w.len() && w[a] == q;
        if a < v.len() {
            assert(v[a] == q);
        }
    }
    assert forall|q: Seq<char>| v.to_set().insert(x).contains(q) implies w.contains(q) by {
        if q == x {
            assert(w[v.len() as int] == x);
        } else {
            let a = choose|a: int| 0 <= a < v.len() && v[a] == q;
            assert(w[a] == q);
        }
    }
    assert(w.to_set() =~= v.to_set().insert(x));
}

/// Changing a control block in place, its path kept, keeps the paths unique.
pub proof fn lemma_update_keeps_unique(s: Seq<Fcb>, i: int, f: Fcb)
    requires
        unique_paths(s),
        0 <= i < s.len(),
        f.path@ == s[i].path@,
    ensures
        unique_paths(s.update(i, f)),
        fcb_paths(s.update(i, f)) == fcb_paths(s),
{
    assert(fcb_paths(s.update(i, f)) =~= fcb_paths(s));
    assert forall|a: int, b: int| 0 <= a < b < s.len() implies #[trigger] s.update(i, f)[a].path@
        != #[trigger] s.update(i, f)[b].path@ by {
        assert(s[a].path@ != s[b].path@);
    }
}

/// Adding a control block for a path not yet present keeps the paths unique.
pub proof fn lemma_push_keeps_unique(s: Seq<Fcb>, f: Fcb)
    requires
        unique_paths(s),
        !fcb_paths(s).contains(f.path@),
    ensures
        unique_paths(s.push(f)),
        fcb_paths(s.push(f)) == fcb_paths(s).push(f.path@),
{
    assert(fcb_paths(s.push(f)) =~= fcb_paths(s).push(f.path@));
    assert forall|a: int, b: int| 0 <= a < b < s.len() + 1 implies #[trigger] s.push(f)[a].path@
        != #[trigger] s.push(f)[b].path@ by {
        if b == s.len() {
            assert(fcb_paths(s)[a] == s[a].path@);
        } else {
            assert(s[a].path@ != s[b].path@);
        }
    }
}

/// Whether `a` comes strictly before `b` in lexicographic order of their characters' code
/// points; this is also the order of their UTF-8 bytes, the order of `String` keys.
pub open spec fn chars_lt(a: Seq<char>, b: Seq<char>) -> bool
    decreases a.len(),
{
    if a.len() == 0 {
        b.len() > 0
    } else if b.len() == 0 {
        false
    } else if a[0] != b[0] {
        (a[0] as int) < (b[0] as int)
    } else {
        chars_lt(a.drop_first(), b.drop_first())
    }
}

/// The contents of each string of `s`.
pub open spec fn string_views(s: Seq<String>) -> Seq<Seq<char>> {
    Seq::new(s.len(), |i: int| s[i]@)
}

/// Every element of `s` comes strictly before every later one.
pub open spec fn strictly_ascending(s: Seq<Seq<char>>) -> bool {
    forall|i: int, j: int| 0 <= i < j < s.len() ==> chars_lt(#[trigger] s[i], #[trigger] s[j])
}

/// The order is strict: nothing comes before itself, and of two strings at most one comes first.
pub proof fn lemma_chars_lt_asym(a: Seq<char>, b: Seq<char>)
    ensures
        chars_lt(a, b) ==> !chars_lt(b, a),
    decreases a.len(),
{
    if a.len() > 0 && b.len() > 0 && a[0] == b[0] {
        lemma_chars_lt_asym(a.drop_first(), b.drop_first());
    }
}

/// The order is total: of two different strings one comes first.
pub proof fn lemma_chars_lt_total(a: Seq<char>, b: Seq<char>)
    ensures
        a != b ==> chars_lt(a, b) || chars_lt(b, a),
    decreases a.len(),
{
    if a.len() > 0 && b.len() > 0 && a[0] == b[0] {
        lemma_chars_lt_total(a.drop_first(), b.drop_first());
        if a.drop_first() == b.drop_first() {
            assert(a =~= seq![a[0]] + a.drop_first());
            assert(b =~= seq![b[0]] + b.drop_first());
        }
    } else if a.len() > 0 && b.len() > 0 {
        assert((a[0] as int) != (b[0] as int));
    } else if a.len() == 0 && b.len() == 0 {
        assert(a =~= b);
    }
}

/// The order is transitive.
pub proof fn lemma_chars_lt_trans(a: Seq<char>, b: Seq<char>, c: Seq<char>)
    requires
        chars_lt(a, b),
        chars_lt(b, c),
    ensures
        chars_lt(a, c),
    decreases a.len(),
{
    if a.len() > 0 && b.len() > 0 && c.len() > 0 && a[0] == b[0] && b[0] == c[0] {
        lemma_chars_lt_trans(a.drop_first(), b.drop_first(), c.drop_first());
    }
}

/// Whether `a` comes strictly before `b` (see `chars_lt`).
pub fn str_lt(a: &str, b: &str) -> (r: bool)
    ensures
        r == chars_lt(a@, b@),
{
    let la = a.unicode_len();
    let lb = b.unicode_len();
    let mut i: usize = 0;
    assert(a@.skip(0) =~= a@);
    assert(b@.skip(0) =~= b@);
    while i < la && i < lb
        invariant
            i <= la,
            i <= lb,
            la == a@.len(),
            lb == b@.len(),
            chars_lt(a@, b@) == chars_lt(a@.skip(i as int), b@.skip(i as int)),
        decreases la - i,
    {
        let ca = a.get_char(i);
        let cb = b.get_char(i);
        assert(a@.skip(i as int)[0] == ca);
        assert(b@.skip(i as int)[0] == cb);
        if ca != cb {
            return (ca as u32) < (cb as u32);
        }
        assert(a@.skip(i as int).drop_first() =~= a@.skip(i + 1));
        assert(b@.skip(i as int).drop_first() =~= b@.skip(i + 1));
        i = i + 1;
    }
    la < lb
}

/// What `open` leaves, the caller keeping the path: the table stays well formed and has a block
/// for the path, the one the caller left. So a second `open` of the path returns that block
/// as it was left and adds no block.
pub proof fn lemma_open_again(a: FcbTable, b: FcbTable, path: Seq<char>, r: Fcb, f: Fcb)
    requires
        a.wf(),
        f.path@ == path,
        ({
            let i = path_index(a.paths_view(), path);
            if i >= 0 {
                &&& r == a.fcbs()[i]
                &&& b.fcbs() == a.fcbs().update(i, f)
            } else {
                &&& is_fresh_fcb(r, path)
                &&& b.fcbs() == a.fcbs().push(f)
            }
        }),
    ensures
        b.wf(),
        path_index(b.paths_view(), path) >= 0,
        b.fcbs()[path_index(b.paths_view(), path)] == f,
{
    lemma_path_index(a.paths_view(), path);
    lemma_path_index(b.paths_view(), path);
    let i = path_index(a.paths_view(), path);
    let k: int = if i >= 0 { i } else { a.fcbs().len() as int };
    assert(b.paths_view()[k] == path);
    if i >= 0 {
        assert(a.paths_view()[i] == path);
        assert forall|x: int| 0 <= x < b.fcbs().len() implies #[trigger] b.fcbs()[x].path@ == a.fcbs()[x].path@ by {
            assert(a.paths_view()[x] == a.fcbs()[x].path@);
        }
    } else {
        assert forall|x: int| 0 <= x < a.fcbs().len() implies #[trigger] a.fcbs()[x].path@ != path by {
            assert(a.paths_view()[x] == a.fcbs()[x].path@);
        }
    }
    assert forall|x: int, y: int| 0 <= x < y < b.fcbs().len() implies #[trigger] b.fcbs()[x].path@
        != #[trigger] b.fcbs()[y].path@ by {
        if i < 0 && y == a.fcbs().len() {
            assert(b.fcbs()[x] == a.fcbs()[x]);
        } else if i < 0 {
            assert(b.fcbs()[x] == a.fcbs()[x]);
            assert(b.fcbs()[y] == a.fcbs()[y]);
        }
    }
    assert(b.wf());
    let j = path_index(b.paths_view(), path);
    if j != k {
        assert(b.fcbs()[j].path@ == b.fcbs()[k].path@);
        if j < k {
            assert(b.fcbs()[j].path@ != b.fcbs()[k].path@);
        } else {
            assert(b.fcbs()[k].path@ != b.fcbs()[j].path@);
        }
    }
}

proof fn lemma_update_keeps_unique_all(s: Seq<Fcb>, i: int)
    requires
        unique_paths(s),
        0 <= i < s.len(),
    ensures
        forall|f: Fcb| f.path@ == s[i].path@ ==> #[trigger] unique_paths(s.update(i, f)),
{
    assert forall|f: Fcb| f.path@ == s[i].path@ implies #[trigger] unique_paths(s.update(i, f)) by {
        assert forall|x: int, y: int| 0 <= x < y < s.update(i, f).len() implies #[trigger] s.update(i, f)[x].path@
            != #[trigger] s.update(i, f)[y].path@ by {
            assert(s[x].path@ != s[y].path@);
        }
    }
}

proof fn lemma_push_keeps_unique_all(s: Seq<Fcb>, p: Seq<char>)
    requires
        unique_paths(s),
        path_index(fcb_paths(s), p) == -1,
    ensures
        forall|f: Fcb| f.path@ == p ==> #[trigger] unique_paths(s.push(f)),
{
    lemma_path_index(fcb_paths(s), p);
    assert forall|f: Fcb| f.path@ == p implies #[trigger] unique_paths(s.push(f)) by {
        assert forall|x: int, y: int| 0 <= x < y < s.push(f).len() implies #[trigger] s.push(f)[x].path@
            != #[trigger] s.push(f)[y].path@ by {
            assert(s.push(f)[x] == s[x]);
            assert(fcb_paths(s)[x] == s[x].path@);
            if y < s.len() {
                assert(s.push(f)[y] == s[y]);
            }
        }
    }
}

} // verus!
