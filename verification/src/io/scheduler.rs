//! Disk request scheduling: C-SCAN for spinning disks, first-come first-served with merging of
//! adjacent writes for solid-state ones.
use vstd::prelude::*;

verus! {

#[derive(Debug, Clone, Copy, PartialEq, Eq, Structural)]
pub struct DiskRequest {
    pub lba: u64,
    pub count: u64,
    pub is_write: bool,
}

/// Every request ends within the sector numbers.
pub open spec fn in_range(s: Seq<DiskRequest>) -> bool {
    forall|i: int| 0 <= i < s.len() ==> (#[trigger] s[i]).lba + s[i].count <= u64::MAX
}

pub trait RequestScheduler {
    /// The requests waiting, in submission order.
    spec fn pending_view(&self) -> Seq<DiskRequest>;

    fn submit(&mut self, req: DiskRequest)
        requires
            req.lba + req.count <= u64::MAX,
        ensures
            final(self).pending_view() == old(self).pending_view().push(req),
    ;

    /// Hands out every waiting request, in service order.
    fn drain(&mut self) -> (r: Vec<DiskRequest>)
        requires
            in_range(old(self).pending_view()),
        ensures
            final(self).pending_view() == Seq::<DiskRequest>::empty(),
    ;
}

/// `x` put into the sequence `s`, sorted by sector, after every request at or below its sector.
pub open spec fn insert_by_lba(s: Seq<DiskRequest>, x: DiskRequest) -> Seq<DiskRequest>
    decreases s.len(),
{
    if s.len() == 0 {
        seq![x]
    } else if s.last().lba <= x.lba {
        s.push(x)
    } else {
        insert_by_lba(s.drop_last(), x).push(s.last())
    }
}

/// `s` sorted by sector, requests on the same sector kept in submission order.
pub open spec fn sort_by_lba(s: Seq<DiskRequest>) -> Seq<DiskRequest>
    decreases s.len(),
{
    if s.len() == 0 {
        s
    } else {
        insert_by_lba(sort_by_lba(s.drop_last()), s.last())
    }
}

/// Whether `s` is in increasing sector order.
pub open spec fn sorted_by_lba(s: Seq<DiskRequest>) -> bool {
    forall|i: int, j: int| 0 <= i < j < s.len() ==> (#[trigger] s[i]).lba <= (#[trigger] s[j]).lba
}

/// The C-SCAN service order from head position `head`: the requests at or above the head in
/// sector order, then those below it, in sector order.
pub open spec fn cscan_order(s: Seq<DiskRequest>, head: u64) -> Seq<DiskRequest> {
    let sorted = sort_by_lba(s);
    sorted.filter(|r: DiskRequest| r.lba >= head) + sorted.filter(|r: DiskRequest| r.lba < head)
}

proof fn lemma_insert_sorted(s: Seq<DiskRequest>, x: DiskRequest)
    requires
        sorted_by_lba(s),
    ensures
        sorted_by_lba(insert_by_lba(s, x)),
        insert_by_lba(s, x).len() == s.len() + 1,
        insert_by_lba(s, x).to_multiset() == s.to_multiset().insert(x),
    decreases s.len(),
{
    broadcast use vstd::seq_lib::group_to_multiset_ensures;
    if s.len() == 0 {
        assert(seq![x] =~= Seq::<DiskRequest>::empty().push(x));
    } else if s.last().lba <= x.lba {
    } else {
        let t = s.drop_last();
        assert(s =~= t.push(s.last()));
        lemma_insert_sorted(t, x);
        let r = insert_by_lba(t, x);
        assert forall|i: int, j: int| 0 <= i < j < r.len() + 1 implies (#[trigger] r.push(s.last())[i]).lba
            <= (#[trigger] r.push(s.last())[j]).lba by {
            if j == r.len() {
                if i < r.len() {
                    assert(r.to_multiset().count(r[i]) > 0);
                    assert(t.to_multiset().insert(x).count(r[i]) > 0);
                    if r[i] != x {
                        assert(t.to_multiset().count(r[i]) > 0);
                        assert(t.contains(r[i]));
                        let k = choose|k: int| 0 <= k < t.len() && t[k] == r[i];
                        assert(s[k] == t[k]);
                    }
                }
            }
        }
    }
}

/// The order `sort_by_lba` gives is sorted and holds the same requests.
pub proof fn lemma_sort_by_lba(s: Seq<DiskRequest>)
    ensures
        sorted_by_lba(sort_by_lba(s)),
        sort_by_lba(s).to_multiset() == s.to_multiset(),
    decreases s.len(),
{
    broadcast use vstd::seq_lib::group_to_multiset_ensures;
    if s.len() > 0 {
        lemma_sort_by_lba(s.drop_last());
        lemma_insert_sorted(sort_by_lba(s.drop_last()), s.last());
        assert(s =~= s.drop_last().push(s.last()));
    }
}

/// Inserts `x` into the sorted `v` after every request at or below its sector.
fn insert_sorted(v: &mut Vec<DiskRequest>, x: DiskRequest)
    ensures
        final(v)@ == insert_by_lba(old(v)@, x),
{
    let mut i = v.len();
    proof {
        assert(old(v)@.subrange(0, i as int) =~= old(v)@);
        assert(insert_by_lba(old(v)@, x) + old(v)@.subrange(i as int, i as int) =~= insert_by_lba(old(v)@, x));
    }
    while i > 0 && v[i - 1].lba > x.lba
        invariant
            i <= v@.len(),
            v@ == old(v)@,
            forall|k: int| i <= k < v@.len() ==> v@[k].lba > x.lba,
            insert_by_lba(old(v)@, x) == insert_by_lba(old(v)@.subrange(0, i as int), x) + old(v)@.subrange(
                i as int,
                old(v)@.len() as int,
            ),
        decreases i,
    {
        proof {
            let s = old(v)@.subrange(0, i as int);
            assert(s.last().lba > x.lba);
            assert(s.drop_last() =~= old(v)@.subrange(0, i - 1));
            assert(insert_by_lba(s, x) == insert_by_lba(s.drop_last(), x).push(s.last()));
            assert(insert_by_lba(s.drop_last(), x).push(s.last()) + old(v)@.subrange(i as int, old(v)@.len() as int)
                =~= insert_by_lba(s.drop_last(), x) + old(v)@.subrange(i - 1, old(v)@.len() as int));
        }
        i = i - 1;
    }
    proof {
        let s = old(v)@.subrange(0, i as int);
        if i == 0 {
            assert(s =~= Seq::<DiskRequest>::empty());
        } else {
            assert(s.last().lba <= x.lba);
        }
        assert(insert_by_lba(s, x) =~= s.push(x));
    }
    v.insert(i, x);
    proof {
        assert(v@ =~= old(v)@.subrange(0, i as int).push(x) + old(v)@.subrange(i as int, old(v)@.len() as int));
    }
}

/// C-SCAN: serves requests from the head position upward, then wraps to sector 0.
pub struct CscanScheduler {
    pending: Vec<DiskRequest>,
    head: u64,
}

impl CscanScheduler {
    /// The head position the next batch starts from.
    pub closed spec fn head_pos(&self) -> u64 {
        self.head
    }

    pub fn new() -> (r: Self)
        ensures
            r.pending_view() == Seq::<DiskRequest>::empty(),
            r.head_pos() == 0,
    {
        Self { pending: Vec::new(), head: 0 }
    }
}

impl RequestScheduler for CscanScheduler {
    closed spec fn pending_view(&self) -> Seq<DiskRequest> {
        self.pending@
    }

    fn submit(&mut self, req: DiskRequest)
        ensures
            final(self).head_pos() == old(self).head_pos(),
    {
        self.pending.push(req);
    }

    /// The waiting requests in C-SCAN order from the head; the head moves to the end of the
    /// last one served.
    fn drain(&mut self) -> (r: Vec<DiskRequest>)
        ensures
            r@ == cscan_order(old(self).pending_view(), old(self).head_pos()),
            r@.len() == 0 ==> final(self).head_pos() == old(self).head_pos(),
            r@.len() > 0 ==> final(self).head_pos() == r@.last().lba + r@.last().count,
    {
        let mut batch: Vec<DiskRequest> = Vec::new();
        std::mem::swap(&mut batch, &mut self.pending);
        let h = self.head;
        let ghost s = batch@;
        let mut sorted: Vec<DiskRequest> = Vec::new();
        let mut i: usize = 0;
        while i < batch.len()
            invariant
                i <= batch@.len(),
                batch@ == s,
                sorted@ == sort_by_lba(s.subrange(0, i as int)),
            decreases batch@.len() - i,
        {
            proof {
                assert(s.subrange(0, i + 1).drop_last() =~= s.subrange(0, i as int));
            }
            insert_sorted(&mut sorted, batch[i]);
            i = i + 1;
        }
        proof {
            assert(s.subrange(0, s.len() as int) =~= s);
        }
        let mut above: Vec<DiskRequest> = Vec::new();
        let mut below: Vec<DiskRequest> = Vec::new();
        let mut j: usize = 0;
        while j < sorted.len()
            invariant
                j <= sorted@.len(),
                sorted@ == sort_by_lba(s),
                above@ == sorted@.subrange(0, j as int).filter(|r: DiskRequest| r.lba >= h),
                below@ == sorted@.subrange(0, j as int).filter(|r: DiskRequest| r.lba < h),
            decreases sorted@.len() - j,
        {
            let r = sorted[j];
            proof {
                let t = sorted@.subrange(0, j + 1);
                assert(t.drop_last() =~= sorted@.subrange(0, j as int));
                reveal(Seq::filter);
            }
            if r.lba >= h {
                above.push(r);
            } else {
                below.push(r);
            }
            j = j + 1;
        }
        proof {
            assert(sorted@.subrange(0, sorted@.len() as int) =~= sorted@);
        }
        let mut k: usize = 0;
        let ghost above0 = above@;
        while k < below.len()
            invariant
                k <= below@.len(),
                above@ == above0 + below@.subrange(0, k as int),
            decreases below@.len() - k,
        {
            above.push(below[k]);
            k = k + 1;
            proof {
                assert(above@ =~= above0 + below@.subrange(0, k as int));
            }
        }
        proof {
            assert(below@.subrange(0, below@.len() as int) =~= below@);
        }
        if above.len() > 0 {
            let last = above[above.len() - 1];
            proof {
                broadcast use vstd::seq_lib::group_to_multiset_ensures;
                lemma_sort_by_lba(s);
                let sorted_s = sort_by_lba(s);
                let fa = sorted_s.filter(|r: DiskRequest| r.lba >= h);
                let fb = sorted_s.filter(|r: DiskRequest| r.lba < h);
                assert(above@ == fa + fb);
                assert(above@.contains(last));
                if fb.len() > 0 {
                    assert(fb[fb.len() - 1] == last);
                    assert(fb.contains(last));
                    sorted_s.lemma_filter_contains_rev(|r: DiskRequest| r.lba < h, last);
                } else {
                    assert(fa[fa.len() - 1] == last);
                    assert(fa.contains(last));
                    sorted_s.lemma_filter_contains_rev(|r: DiskRequest| r.lba >= h, last);
                }
                assert(sorted_s.to_multiset().count(last) > 0);
                assert(s.to_multiset().count(last) > 0);
                let k = choose|k: int| 0 <= k < s.len() && s[k] == last;
                assert(s[k].lba + s[k].count <= u64::MAX);
            }
            self.head = last.lba + last.count;
        }
        above
    }
}

/// Whether `next` is a write that starts where the write `last` ends.
pub open spec fn extends(last: DiskRequest, next: DiskRequest) -> bool {
    next.is_write && last.is_write && next.lba == last.lba + last.count
}

/// First-come first-served order with each write that continues the write before it merged
/// into it.
pub open spec fn merge_writes(s: Seq<DiskRequest>) -> Seq<DiskRequest>
    decreases s.len(),
{
    if s.len() == 0 {
        s
    } else {
        let m = merge_writes(s.drop_last());
        let r = s.last();
        if m.len() > 0 && extends(m.last(), r) {
            m.update(m.len() - 1, DiskRequest { count: (m.last().count + r.count) as u64, ..m.last() })
        } else {
            m.push(r)
        }
    }
}

/// FCFS: keeps submission order, but coalesces consecutive writes to adjacent sectors into
/// one request.
pub struct FcfsScheduler {
    pending: Vec<DiskRequest>,
}

impl FcfsScheduler {
    pub fn new() -> (r: Self)
        ensures
            r.pending_view() == Seq::<DiskRequest>::empty(),
    {
        Self { pending: Vec::new() }
    }
}

proof fn lemma_merge_in_range(s: Seq<DiskRequest>)
    requires
        in_range(s),
    ensures
        in_range(merge_writes(s)),
    decreases s.len(),
{
    if s.len() > 0 {
        assert(in_range(s.drop_last())) by {
            assert forall|i: int| 0 <= i < s.drop_last().len() implies (#[trigger] s.drop_last()[i]).lba + s.drop_last()[i].count
                <= u64::MAX by {
                assert(s[i] == s.drop_last()[i]);
            }
        }
        lemma_merge_in_range(s.drop_last());
        assert(s[s.len() - 1] == s.last());
    }
}

impl RequestScheduler for FcfsScheduler {
    closed spec fn pending_view(&self) -> Seq<DiskRequest> {
        self.pending@
    }

    fn submit(&mut self, req: DiskRequest) {
        self.pending.push(req);
    }

    /// The waiting requests in submission order, adjacent writes merged.
    fn drain(&mut self) -> (r: Vec<DiskRequest>)
        ensures
            r@ == merge_writes(old(self).pending_view()),
    {
        let mut batch: Vec<DiskRequest> = Vec::new();
        std::mem::swap(&mut batch, &mut self.pending);
        let ghost s = batch@;
        let mut merged: Vec<DiskRequest> = Vec::new();
        let mut i: usize = 0;
        while i < batch.len()
            invariant
                i <= batch@.len(),
                batch@ == s,
                in_range(s),
                merged@ == merge_writes(s.subrange(0, i as int)),
            decreases batch@.len() - i,
        {
            let req = batch[i];
            proof {
                assert(s.subrange(0, i + 1).drop_last() =~= s.subrange(0, i as int));
                assert(s.subrange(0, i + 1).last() == req);
                assert(in_range(s.subrange(0, i as int))) by {
                    assert forall|k: int| 0 <= k < i implies (#[trigger] s.subrange(0, i as int)[k]).lba + s.subrange(0, i as int)[k].count
                        <= u64::MAX by {
                        assert(s[k] == s.subrange(0, i as int)[k]);
                    }
                }
                lemma_merge_in_range(s.subrange(0, i as int));
                assert(req.lba + req.count <= u64::MAX) by {
                    assert(s[i as int] == req);
                }
            }
            let n = merged.len();
            if req.is_write && n > 0 && merged[n - 1].is_write && req.lba == merged[n - 1].lba + merged[n - 1].count {
                let last = merged[n - 1];
                proof {
                    assert(in_range(merged@));
                    assert(merged@[n - 1] == last);
                }
                merged.set(n - 1, DiskRequest { count: last.count + req.count, ..last });
            } else {
                merged.push(req);
            }
            i = i + 1;
        }
        proof {
            assert(s.subrange(0, s.len() as int) =~= s);
        }
        merged
    }
}

/// Whether request `q` covers sector `x`.
pub open spec fn covers(q: DiskRequest, x: int) -> bool {
    q.lba <= x < q.lba + q.count
}

/// The FCFS merge loses no write and invents no read or write: every request it hands out that
/// reads is one that was submitted, unchanged; every sector of every submitted write lies in a
/// request it hands out that writes; and every sector a request it hands out writes is a
/// sector of a submitted write.
pub proof fn lemma_merge_keeps_reads_and_writes(s: Seq<DiskRequest>)
    requires
        in_range(s),
    ensures
        forall|k: int| 0 <= k < merge_writes(s).len() && !(#[trigger] merge_writes(s)[k]).is_write
            ==> s.contains(merge_writes(s)[k]),
        forall|i: int, x: int| 0 <= i < s.len() && s[i].is_write && #[trigger] covers(s[i], x)
            ==> exists|k: int| 0 <= k < merge_writes(s).len() && merge_writes(s)[k].is_write
                && #[trigger] covers(merge_writes(s)[k], x),
        forall|k: int, x: int| 0 <= k < merge_writes(s).len() && merge_writes(s)[k].is_write
            && #[trigger] covers(merge_writes(s)[k], x)
            ==> exists|i: int| 0 <= i < s.len() && s[i].is_write && #[trigger] covers(s[i], x),
    decreases s.len(),
{
    let m = merge_writes(s);
    if s.len() > 0 {
        let t = s.drop_last();
        let r = s.last();
        assert(in_range(t)) by {
            assert forall|i: int| 0 <= i < t.len() implies (#[trigger] t[i]).lba + t[i].count <= u64::MAX by {
                assert(s[i] == t[i]);
            }
        }
        assert(r.lba + r.count <= u64::MAX) by {
            assert(s[s.len() - 1] == r);
        }
        lemma_merge_keeps_reads_and_writes(t);
        let m0 = merge_writes(t);
        if m0.len() > 0 && extends(m0.last(), r) {
            let n = m0.len() - 1;
            let big = DiskRequest { count: (m0.last().count + r.count) as u64, ..m0.last() };
            assert(m == m0.update(n, big));
            assert(m0.last().count + r.count <= u64::MAX);
            assert forall|k: int| 0 <= k < m.len() && !(#[trigger] m[k]).is_write implies s.contains(m[k]) by {
                assert(k != n);
                assert(m[k] == m0[k]);
                let w = choose|w: int| 0 <= w < t.len() && t[w] == m0[k];
                assert(s[w] == t[w]);
            }
            assert forall|i: int, x: int| 0 <= i < s.len() && s[i].is_write && #[trigger] covers(s[i], x)
                implies exists|k: int| 0 <= k < m.len() && m[k].is_write && #[trigger] covers(m[k], x) by {
                if i == s.len() - 1 {
                    assert(m[n] == big);
                    assert(m0[n] == m0.last());
                    assert(big.count == m0.last().count + r.count);
                    assert(covers(m[n], x));
                } else {
                    assert(t[i] == s[i]);
                    let k = choose|k: int| 0 <= k < m0.len() && m0[k].is_write && #[trigger] covers(m0[k], x);
                    if k == n {
                        assert(m[n] == big);
                        assert(m0[n] == m0.last());
                        assert(big.count == m0.last().count + r.count);
                        assert(covers(m[n], x));
                    } else {
                        assert(m[k] == m0[k]);
                        assert(covers(m[k], x));
                    }
                }
            }
            assert forall|k: int, x: int| 0 <= k < m.len() && m[k].is_write && #[trigger] covers(m[k], x)
                implies exists|i: int| 0 <= i < s.len() && s[i].is_write && #[trigger] covers(s[i], x) by {
                if k == n {
                    assert(m[n] == big);
                    assert(m0[n] == m0.last());
                    if x < m0.last().lba + m0.last().count {
                        assert(covers(m0[n], x));
                        let i = choose|i: int| 0 <= i < t.len() && t[i].is_write && #[trigger] covers(t[i], x);
                        assert(s[i] == t[i]);
                    } else {
                        assert(s[s.len() - 1] == r);
                        assert(covers(s[s.len() - 1], x));
                    }
                } else {
                    assert(m[k] == m0[k]);
                    let i = choose|i: int| 0 <= i < t.len() && t[i].is_write && #[trigger] covers(t[i], x);
                    assert(s[i] == t[i]);
                }
            }
        } else {
            assert(m == m0.push(r));
            assert forall|k: int, x: int| 0 <= k < m.len() && m[k].is_write && #[trigger] covers(m[k], x)
                implies exists|i: int| 0 <= i < s.len() && s[i].is_write && #[trigger] covers(s[i], x) by {
                if k == m0.len() {
                    assert(s[s.len() - 1] == r);
                    assert(covers(s[s.len() - 1], x));
                } else {
                    assert(m[k] == m0[k]);
                    let i = choose|i: int| 0 <= i < t.len() && t[i].is_write && #[trigger] covers(t[i], x);
                    assert(s[i] == t[i]);
                }
            }
            assert forall|k: int| 0 <= k < m.len() && !(#[trigger] m[k]).is_write implies s.contains(m[k]) by {
                if k == m0.len() {
                    assert(s[s.len() - 1] == r);
                } else {
                    assert(m[k] == m0[k]);
                    let w = choose|w: int| 0 <= w < t.len() && t[w] == m0[k];
                    assert(s[w] == t[w]);
                }
            }
            assert forall|i: int, x: int| 0 <= i < s.len() && s[i].is_write && #[trigger] covers(s[i], x)
                implies exists|k: int| 0 <= k < m.len() && m[k].is_write && #[trigger] covers(m[k], x) by {
                if i == s.len() - 1 {
                    assert(m[m0.len() as int] == r);
                    assert(covers(m[m0.len() as int], x));
                } else {
                    assert(t[i] == s[i]);
                    let k = choose|k: int| 0 <= k < m0.len() && m0[k].is_write && #[trigger] covers(m0[k], x);
                    assert(m[k] == m0[k]);
                    assert(covers(m[k], x));
                }
            }
        }
    }
}

} // verus!
