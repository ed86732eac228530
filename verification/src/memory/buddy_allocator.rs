//! Buddy allocator over a contiguous arena, with power-of-two block sizes.
//!
//! `free_lists[k]` holds the start addresses of the free blocks of
//! `MIN_BLOCK_SIZE << k` bytes; the head of each list is its last element.
use vstd::prelude::*;
use crate::sync::atomic::KernelAtomicUsize;
use crate::sync::spinlock::Spinlock;

verus! {

pub const MAX_ORDER: usize = 18;
pub const MIN_BLOCK_SIZE: usize = 32;

/// Size in bytes of a block of order `ord`.
pub open spec fn order_size(ord: int) -> int
    decreases ord,
{
    if ord <= 0 {
        MIN_BLOCK_SIZE as int
    } else {
        2 * order_size(ord - 1)
    }
}

pub proof fn lemma_order_size_pos(ord: int)
    ensures
        order_size(ord) >= MIN_BLOCK_SIZE,
    decreases ord,
{
    if ord > 0 {
        lemma_order_size_pos(ord - 1);
    }
}

pub proof fn lemma_order_size_mono(a: int, b: int)
    requires
        0 <= a <= b,
    ensures
        order_size(a) <= order_size(b),
    decreases b - a,
{
    if a < b {
        lemma_order_size_mono(a, b - 1);
        lemma_order_size_pos(b - 1);
    }
}

proof fn lemma_max_order_size()
    ensures
        order_size(MAX_ORDER as int) == 8388608,
{
    reveal_with_fuel(order_size, 20);
}

/// `MIN_BLOCK_SIZE << ord` computes `order_size(ord)` for every order up to `MAX_ORDER`.
fn shifted_size(ord: usize) -> (r: usize)
    requires
        ord <= MAX_ORDER,
    ensures
        r == order_size(ord as int),
{
    proof {
        lemma_max_order_size();
        lemma_order_size_mono(ord as int, MAX_ORDER as int);
    }
    let r = MIN_BLOCK_SIZE << ord;
    assert(r == order_size(ord as int)) by {
        shift_matches_order_size(ord);
    }
    r
}

proof fn shift_matches_order_size(ord: usize)
    requires
        ord <= MAX_ORDER,
    ensures
        (32usize << ord) == order_size(ord as int),
    decreases ord,
{
    if ord == 0 {
        assert((32usize << 0usize) == 32usize) by (bit_vector);
    } else {
        shift_matches_order_size((ord - 1) as usize);
        let p = (ord - 1) as usize;
        assert((32usize << ord) == 2 * (32usize << p)) by (bit_vector)
            requires
                ord == p + 1,
                p < 18,
        ;
    }
}

} // verus!

verus! {

/// Block `(a, ka)` and block `(b, kb)` share no byte.
pub open spec fn blocks_disjoint(a: int, ka: int, b: int, kb: int) -> bool {
    a + order_size(ka) <= b || b + order_size(kb) <= a
}

/// Every free block lies inside `[start, start + size)`.
pub open spec fn lists_in_heap(lists: Seq<Seq<usize>>, start: int, size: int) -> bool {
    forall|k: int, i: int|
        0 <= k < lists.len() && 0 <= i < lists[k].len() ==> start <= #[trigger] lists[k][i] && lists[k][i]
            + order_size(k) <= start + size
}

/// No two free blocks (at distinct list positions) overlap.
pub open spec fn lists_disjoint(lists: Seq<Seq<usize>>) -> bool {
    forall|k1: int, i1: int, k2: int, i2: int|
        0 <= k1 < lists.len() && 0 <= i1 < lists[k1].len() && 0 <= k2 < lists.len() && 0 <= i2
            < lists[k2].len() && (k1 != k2 || i1 != i2) ==> blocks_disjoint(
            #[trigger] lists[k1][i1] as int,
            k1,
            #[trigger] lists[k2][i2] as int,
            k2,
        )
}

/// Block `(a, ka)` overlaps none of the free blocks.
pub open spec fn disjoint_from_free(lists: Seq<Seq<usize>>, a: int, ka: int) -> bool {
    forall|k: int, i: int|
        0 <= k < lists.len() && 0 <= i < lists[k].len() ==> blocks_disjoint(
            a,
            ka,
            #[trigger] lists[k][i] as int,
            k,
        )
}

/// Every free block starts at a multiple of its own size.
pub open spec fn lists_aligned(lists: Seq<Seq<usize>>) -> bool {
    forall|k: int, i: int|
        0 <= k < lists.len() && 0 <= i < lists[k].len() ==> aligned_to(
            #[trigger] lists[k][i],
            k as usize,
        )
}

/// Smallest order `>= ord` whose block holds `req` bytes, capped at `MAX_ORDER`.
pub open spec fn order_from(ord: int, req: int) -> int
    decreases MAX_ORDER - ord,
{
    if ord >= MAX_ORDER || order_size(ord) >= req {
        ord
    } else {
        order_from(ord + 1, req)
    }
}

/// The order that a request of `req` bytes is served from.
pub open spec fn order_for(req: int) -> int {
    order_from(0, req)
}

/// Bytes actually requested: the larger of size and alignment, at least one minimum block.
pub open spec fn request_bytes(size: usize, align: usize) -> int {
    let a = if size >= align { size as int } else { align as int };
    if a >= MIN_BLOCK_SIZE { a } else { MIN_BLOCK_SIZE as int }
}

/// First order `>= ord` whose free list is not empty, or `MAX_ORDER + 1` when there is none.
pub open spec fn first_nonempty(lists: Seq<Seq<usize>>, ord: int) -> int
    decreases MAX_ORDER + 1 - ord,
{
    if ord > MAX_ORDER {
        MAX_ORDER + 1
    } else if lists[ord].len() > 0 {
        ord
    } else {
        first_nonempty(lists, ord + 1)
    }
}

/// The free lists after block `b` was taken from list `f` and split down to order `ord`:
/// each order `k` in `ord..f` receives the upper half `b + order_size(k)`.
pub open spec fn split_result(lists: Seq<Seq<usize>>, b: usize, ord: int, f: int) -> Seq<
    Seq<usize>,
> {
    Seq::new(
        lists.len(),
        |k: int|
            if k == f {
                lists[k].drop_last()
            } else if ord <= k < f {
                lists[k].push((b + order_size(k)) as usize)
            } else {
                lists[k]
            },
    )
}

/// Position of the free-list entry nearest the head (the largest index) equal to `x`, or -1.
pub open spec fn head_index_of(s: Seq<usize>, x: usize, upto: int) -> int
    decreases upto,
{
    if upto <= 0 {
        -1
    } else if s[upto - 1] == x {
        upto - 1
    } else {
        head_index_of(s, x, upto - 1)
    }
}

pub proof fn lemma_head_index(s: Seq<usize>, x: usize, upto: int)
    requires
        upto <= s.len(),
    ensures
        head_index_of(s, x, upto) >= 0 ==> head_index_of(s, x, upto) < upto && s[head_index_of(s, x, upto)] == x,
        head_index_of(s, x, upto) < 0 ==> head_index_of(s, x, upto) == -1,
    decreases upto,
{
    if upto > 0 {
        lemma_head_index(s, x, upto - 1);
    }
}

/// Address of the buddy of the block at `cur` of order `ord`.
pub open spec fn buddy_of(cur: usize, ord: int) -> usize {
    cur ^ (order_size(ord) as usize)
}

/// The free lists after freeing the block at `cur` of order `ord`: while the buddy is free it is
/// unlinked and the pair merges one order up; the result is pushed on the list it stops at.
pub open spec fn coalesce(lists: Seq<Seq<usize>>, cur: usize, ord: int) -> Seq<Seq<usize>>
    decreases MAX_ORDER - ord,
{
    if ord < MAX_ORDER && 0 <= ord && head_index_of(lists[ord], buddy_of(cur, ord), lists[ord].len() as int)
        >= 0 {
        let j = head_index_of(lists[ord], buddy_of(cur, ord), lists[ord].len() as int);
        let b = buddy_of(cur, ord);
        coalesce(
            lists.update(ord, lists[ord].remove(j)),
            if cur <= b { cur } else { b },
            ord + 1,
        )
    } else {
        lists.update(ord, lists[ord].push(cur))
    }
}

/// The blocks that `init` carves out of `[curr, end)`: at each step the largest order whose
/// block is aligned at `curr` and fits (order 0 without the alignment test).
pub open spec fn carve_order(curr: int, end: int, ord: int) -> int
    decreases ord,
{
    if ord <= 0 {
        0
    } else if curr + order_size(ord) <= end && aligned_to(curr as usize, ord as usize) {
        ord
    } else {
        carve_order(curr, end, ord - 1)
    }
}

pub open spec fn carve(lists: Seq<Seq<usize>>, curr: int, end: int) -> Seq<Seq<usize>>
    decreases end - curr,
{
    if curr >= end {
        lists
    } else {
        let ord = carve_order(curr, end, MAX_ORDER as int);
        if curr + order_size(ord) > end {
            lists
        } else {
            proof {
                lemma_order_size_pos(ord);
            }
            carve(lists.update(ord, lists[ord].push(curr as usize)), curr + order_size(ord), end)
        }
    }
}

} // verus!

verus! {

proof fn lemma_xor_adjacent(cur: usize, k: usize)
    requires
        k < 19,
    ensures
        (cur & (32usize << k)) == 0 ==> (cur ^ (32usize << k)) == cur + (32usize << k),
        (cur & (32usize << k)) != 0 ==> (cur ^ (32usize << k)) == cur - (32usize << k),
{
    assert((cur & (32usize << k)) == 0 ==> (cur ^ (32usize << k)) == cur + (32usize << k))
        by (bit_vector)
        requires
            k < 19usize,
    ;
    assert((cur & (32usize << k)) != 0 ==> (cur ^ (32usize << k)) == cur - (32usize << k))
        by (bit_vector)
        requires
            k < 19usize,
    ;
}

/// Block alignment in the form the allocator tests it: the low bits below the block size are zero.
pub open spec fn aligned_to(x: usize, k: usize) -> bool {
    x & (((32usize << k) - 1) as usize) == 0
}

proof fn lemma_split_aligned(b: usize, k: usize)
    requires
        k < 18,
        aligned_to(b, (k + 1) as usize),
        b + (32usize << k) <= usize::MAX,
    ensures
        aligned_to(b, k),
        aligned_to((b + (32usize << k)) as usize, k),
{
    let k1 = (k + 1) as usize;
    assert(b & (((32usize << k1) - 1) as usize) == 0 ==> b & (((32usize << k) - 1) as usize) == 0
        && ((b + (32usize << k)) as usize) & (((32usize << k) - 1) as usize) == 0) by (bit_vector)
        requires
            k < 18usize,
            k1 == k + 1,
    ;
}

proof fn lemma_merge_aligned(cur: usize, k: usize)
    requires
        k < 18,
        aligned_to(cur, k),
    ensures
        aligned_to(if cur <= (cur ^ (32usize << k)) { cur } else { cur ^ (32usize << k) }, (k + 1) as usize),
{
    let k1 = (k + 1) as usize;
    assert(cur & (((32usize << k) - 1) as usize) == 0 ==> (if cur <= (cur ^ (32usize << k)) { cur } else { cur ^ (32usize << k) }) & (((32usize << k1) - 1) as usize) == 0) by (bit_vector)
        requires
            k < 18usize,
            k1 == k + 1,
    ;
}

proof fn lemma_aligned_step(curr: usize, k: usize)
    requires
        k < 19,
        curr & 31 == 0,
        curr + (32usize << k) <= usize::MAX,
    ensures
        ((curr + (32usize << k)) as usize) & 31 == 0,
        k == 0 ==> aligned_to(curr, k),
{
    assert(curr & 31 == 0 ==> ((curr + (32usize << k)) as usize) & 31 == 0 && (k == 0 ==> curr & (((32usize << k) - 1) as usize) == 0)) by (bit_vector)
        requires
            k < 19usize,
    ;
}

} // verus!

verus! {

proof fn lemma_push_keeps(lists: Seq<Seq<usize>>, k: int, x: usize, start: int, size: int)
    requires
        0 <= k < lists.len(),
        lists_disjoint(lists),
        lists_in_heap(lists, start, size),
        disjoint_from_free(lists, x as int, k),
        start <= x,
        x + order_size(k) <= start + size,
    ensures
        lists_disjoint(lists.update(k, lists[k].push(x))),
        lists_in_heap(lists.update(k, lists[k].push(x)), start, size),
        lists_aligned(lists) && aligned_to(x, k as usize) ==> lists_aligned(
            lists.update(k, lists[k].push(x)),
        ),
{
    let l2 = lists.update(k, lists[k].push(x));
    assert forall|k1: int, i1: int, k2: int, i2: int|
        0 <= k1 < l2.len() && 0 <= i1 < l2[k1].len() && 0 <= k2 < l2.len() && 0 <= i2 < l2[k2].len()
            && (k1 != k2 || i1 != i2) implies blocks_disjoint(
        #[trigger] l2[k1][i1] as int,
        k1,
        #[trigger] l2[k2][i2] as int,
        k2,
    ) by {
        let n = lists[k].len() as int;
        if k1 == k && i1 == n {
            assert(blocks_disjoint(x as int, k, lists[k2][i2] as int, k2));
        } else if k2 == k && i2 == n {
            assert(blocks_disjoint(x as int, k, lists[k1][i1] as int, k1));
        } else {
            assert(l2[k1][i1] == lists[k1][i1]);
            assert(l2[k2][i2] == lists[k2][i2]);
        }
    }
    assert forall|k1: int, i1: int| 0 <= k1 < l2.len() && 0 <= i1 < l2[k1].len() implies start
        <= #[trigger] l2[k1][i1] && l2[k1][i1] + order_size(k1) <= start + size by {
        if !(k1 == k && i1 == lists[k].len()) {
            assert(l2[k1][i1] == lists[k1][i1]);
        }
    }
    if lists_aligned(lists) && aligned_to(x, k as usize) {
        assert forall|k1: int, i1: int| 0 <= k1 < l2.len() && 0 <= i1 < l2[k1].len() implies aligned_to(
            #[trigger] l2[k1][i1],
            k1 as usize,
        ) by {
            if !(k1 == k && i1 == lists[k].len()) {
                assert(l2[k1][i1] == lists[k1][i1]);
            }
        }
    }
}

proof fn lemma_remove_keeps(lists: Seq<Seq<usize>>, k: int, j: int, start: int, size: int)
    requires
        0 <= k < lists.len(),
        0 <= j < lists[k].len(),
        lists_disjoint(lists),
        lists_in_heap(lists, start, size),
    ensures
        lists_disjoint(lists.update(k, lists[k].remove(j))),
        lists_in_heap(lists.update(k, lists[k].remove(j)), start, size),
        disjoint_from_free(lists.update(k, lists[k].remove(j)), lists[k][j] as int, k),
        lists_aligned(lists) ==> lists_aligned(lists.update(k, lists[k].remove(j))),
        forall|a: int, ka: int|
            disjoint_from_free(lists, a, ka) ==> #[trigger] disjoint_from_free(
                lists.update(k, lists[k].remove(j)),
                a,
                ka,
            ),
{
    let l2 = lists.update(k, lists[k].remove(j));
    // each position of the new lists names a position of the old lists
    assert forall|k1: int, i1: int| 0 <= k1 < l2.len() && 0 <= i1 < l2[k1].len() implies (#[trigger] l2[k1][i1])
        == lists[k1][if k1 == k && i1 >= j { i1 + 1 } else { i1 }] by {}
    assert forall|k1: int, i1: int, k2: int, i2: int|
        0 <= k1 < l2.len() && 0 <= i1 < l2[k1].len() && 0 <= k2 < l2.len() && 0 <= i2 < l2[k2].len()
            && (k1 != k2 || i1 != i2) implies blocks_disjoint(
        #[trigger] l2[k1][i1] as int,
        k1,
        #[trigger] l2[k2][i2] as int,
        k2,
    ) by {
        let o1 = if k1 == k && i1 >= j { i1 + 1 } else { i1 };
        let o2 = if k2 == k && i2 >= j { i2 + 1 } else { i2 };
        assert(l2[k1][i1] == lists[k1][o1]);
        assert(l2[k2][i2] == lists[k2][o2]);
    }
    assert forall|k1: int, i1: int| 0 <= k1 < l2.len() && 0 <= i1 < l2[k1].len() implies start
        <= #[trigger] l2[k1][i1] && l2[k1][i1] + order_size(k1) <= start + size by {
        let o1 = if k1 == k && i1 >= j { i1 + 1 } else { i1 };
        assert(l2[k1][i1] == lists[k1][o1]);
    }
    assert forall|k1: int, i1: int| 0 <= k1 < l2.len() && 0 <= i1 < l2[k1].len() implies blocks_disjoint(
        lists[k][j] as int,
        k,
        #[trigger] l2[k1][i1] as int,
        k1,
    ) by {
        let o1 = if k1 == k && i1 >= j { i1 + 1 } else { i1 };
        assert(l2[k1][i1] == lists[k1][o1]);
        assert(blocks_disjoint(lists[k1][o1] as int, k1, lists[k][j] as int, k));
    }
    if lists_aligned(lists) {
        assert forall|k1: int, i1: int| 0 <= k1 < l2.len() && 0 <= i1 < l2[k1].len() implies aligned_to(
            #[trigger] l2[k1][i1],
            k1 as usize,
        ) by {
            let o1 = if k1 == k && i1 >= j { i1 + 1 } else { i1 };
            assert(l2[k1][i1] == lists[k1][o1]);
        }
    }
    assert forall|a: int, ka: int| disjoint_from_free(lists, a, ka) implies #[trigger] disjoint_from_free(
        l2,
        a,
        ka,
    ) by {
        assert forall|k1: int, i1: int| 0 <= k1 < l2.len() && 0 <= i1 < l2[k1].len() implies blocks_disjoint(
            a,
            ka,
            #[trigger] l2[k1][i1] as int,
            k1,
        ) by {
            let o1 = if k1 == k && i1 >= j { i1 + 1 } else { i1 };
            assert(l2[k1][i1] == lists[k1][o1]);
        }
    }
}

/// A block inside a block that overlaps no free block overlaps no free block either.
proof fn lemma_sub_block_free(lists: Seq<Seq<usize>>, a: int, ka: int, p: int, kp: int)
    requires
        disjoint_from_free(lists, a, ka),
        a <= p,
        p + order_size(kp) <= a + order_size(ka),
    ensures
        disjoint_from_free(lists, p, kp),
{
    assert forall|k: int, i: int| 0 <= k < lists.len() && 0 <= i < lists[k].len() implies blocks_disjoint(
        p,
        kp,
        #[trigger] lists[k][i] as int,
        k,
    ) by {
        assert(blocks_disjoint(a, ka, lists[k][i] as int, k));
        lemma_order_size_pos(k);
        lemma_order_size_pos(kp);
    }
}

} // verus!

verus! {

pub struct BuddyAllocator {
    free_lists: Vec<Vec<usize>>,
    heap_start: usize,
    heap_size: usize,
}

impl BuddyAllocator {
    /// The free lists, one sequence of block addresses per order (head last).
    pub closed spec fn lists(&self) -> Seq<Seq<usize>> {
        Seq::new(self.free_lists@.len(), |k: int| self.free_lists@[k]@)
    }

    pub closed spec fn start(&self) -> int {
        self.heap_start as int
    }

    pub closed spec fn size(&self) -> int {
        self.heap_size as int
    }

    /// Free blocks lie inside the arena and never overlap.
    pub open spec fn wf(&self) -> bool {
        &&& self.lists().len() == MAX_ORDER + 1
        &&& self.start() + self.size() <= usize::MAX
        &&& lists_in_heap(self.lists(), self.start(), self.size())
        &&& lists_disjoint(self.lists())
    }

    pub fn empty() -> (r: Self)
        ensures
            r.wf(),
            r.lists() == Seq::new((MAX_ORDER + 1) as nat, |k: int| Seq::<usize>::empty()),
            r.start() == 0,
            r.size() == 0,
    {
        let mut free_lists: Vec<Vec<usize>> = Vec::new();
        let mut k: usize = 0;
        while k <= MAX_ORDER
            invariant
                k <= MAX_ORDER + 1,
                free_lists@.len() == k,
                forall|i: int| 0 <= i < k ==> (#[trigger] free_lists@[i])@.len() == 0,
            decreases MAX_ORDER + 1 - k,
        {
            free_lists.push(Vec::new());
            k = k + 1;
        }
        let r = Self { free_lists, heap_start: 0, heap_size: 0 };
        assert forall|i: int| 0 <= i <= MAX_ORDER implies #[trigger] r.lists()[i] =~= Seq::<usize>::empty() by {}
        assert(r.lists() =~= Seq::new((MAX_ORDER + 1) as nat, |k: int| Seq::<usize>::empty()));
        r
    }

    fn push_block(&mut self, ord: usize, addr: usize)
        requires
            ord < old(self).lists().len(),
        ensures
            final(self).lists() == old(self).lists().update(
                ord as int,
                old(self).lists()[ord as int].push(addr),
            ),
            final(self).start() == old(self).start(),
            final(self).size() == old(self).size(),
    {
        self.free_lists[ord].push(addr);
        assert(self.lists() =~= old(self).lists().update(
            ord as int,
            old(self).lists()[ord as int].push(addr),
        ));
    }

    fn remove_block(&mut self, ord: usize, j: usize) -> (r: usize)
        requires
            ord < old(self).lists().len(),
            j < old(self).lists()[ord as int].len(),
        ensures
            r == old(self).lists()[ord as int][j as int],
            final(self).lists() == old(self).lists().update(
                ord as int,
                old(self).lists()[ord as int].remove(j as int),
            ),
            final(self).start() == old(self).start(),
            final(self).size() == old(self).size(),
    {
        let r = self.free_lists[ord].remove(j);
        assert(self.lists() =~= old(self).lists().update(
            ord as int,
            old(self).lists()[ord as int].remove(j as int),
        ));
        r
    }

    /// Position nearest the head of list `ord` that holds `x`.
    fn find_from_head(&self, ord: usize, x: usize) -> (r: Option<usize>)
        requires
            ord < self.lists().len(),
        ensures
            match r {
                Some(j) => j as int == head_index_of(
                    self.lists()[ord as int],
                    x,
                    self.lists()[ord as int].len() as int,
                ) && j < self.lists()[ord as int].len(),
                None => head_index_of(
                    self.lists()[ord as int],
                    x,
                    self.lists()[ord as int].len() as int,
                ) < 0,
            },
    {
        let ghost s = self.lists()[ord as int];
        let n = self.free_lists[ord].len();
        let mut j = n;
        while j > 0
            invariant
                j <= n,
                ord < self.free_lists@.len(),
                n == s.len(),
                s == self.free_lists@[ord as int]@,
                head_index_of(s, x, j as int) == head_index_of(s, x, n as int),
            decreases j,
        {
            if self.free_lists[ord][j - 1] == x {
                return Some(j - 1);
            }
            j = j - 1;
        }
        None
    }
}

/// Smallest order serving `req` bytes (capped at `MAX_ORDER`).
fn order_of_request(req: usize) -> (ord: usize)
    ensures
        ord as int == order_for(req as int),
        ord <= MAX_ORDER,
{
    let mut ord: usize = 0;
    while ord < MAX_ORDER && shifted_size(ord) < req
        invariant
            ord <= MAX_ORDER,
            order_from(ord as int, req as int) == order_for(req as int),
        decreases MAX_ORDER - ord,
    {
        ord = ord + 1;
    }
    ord
}

fn request_of(size: usize, align: usize) -> (req: usize)
    ensures
        req as int == request_bytes(size, align),
{
    let a = if size >= align { size } else { align };
    if a >= MIN_BLOCK_SIZE { a } else { MIN_BLOCK_SIZE }
}

} // verus!

verus! {

impl BuddyAllocator {
    /// Serves a request of `size` bytes aligned to `align`: takes the head of the first non-empty
    /// list at or above the needed order and splits it down, pushing each upper half.
    pub fn alloc_inner(&mut self, size: usize, align: usize) -> (r: Option<usize>)
        requires
            old(self).wf(),
        ensures
            final(self).wf(),
            final(self).start() == old(self).start(),
            final(self).size() == old(self).size(),
            ({
                let req = request_bytes(size, align);
                let ord = order_for(req);
                let f = first_nonempty(old(self).lists(), ord);
                if order_size(ord) < req || f > MAX_ORDER {
                    r is None && final(self).lists() == old(self).lists()
                } else {
                    let b = old(self).lists()[f].last();
                    &&& r == Some(b)
                    &&& final(self).lists() == split_result(old(self).lists(), b, ord, f)
                }
            }),
            r matches Some(b) ==> {
                let ord = order_for(request_bytes(size, align));
                &&& order_size(ord) >= request_bytes(size, align)
                &&& final(self).start() <= b
                &&& b + order_size(ord) <= final(self).start() + final(self).size()
                &&& disjoint_from_free(final(self).lists(), b as int, ord)
                &&& lists_aligned(old(self).lists()) ==> aligned_to(b, ord as usize)
            },
            lists_aligned(old(self).lists()) ==> lists_aligned(final(self).lists()),
    {
        let req = request_of(size, align);
        let ord = order_of_request(req);
        if shifted_size(ord) < req {
            return None;
        }
        let ghost l0 = self.lists();
        let ghost aligned0 = lists_aligned(l0);
        let mut found = ord;
        while found <= MAX_ORDER && self.free_lists[found].len() == 0
            invariant
                ord <= found <= MAX_ORDER + 1,
                self.lists() == l0,
                l0 == old(self).lists(),
                self.start() == old(self).start(),
                self.size() == old(self).size(),
                self.free_lists@.len() == MAX_ORDER + 1,
                l0.len() == MAX_ORDER + 1,
                first_nonempty(l0, found as int) == first_nonempty(l0, ord as int),
            decreases MAX_ORDER + 1 - found,
        {
            assert(self.lists()[found as int] == self.free_lists@[found as int]@);
            found = found + 1;
        }
        if found > MAX_ORDER {
            return None;
        }
        assert(self.lists()[found as int] == self.free_lists@[found as int]@);
        let ghost f = found as int;
        let last = self.free_lists[found].len() - 1;
        let block = self.remove_block(found, last);
        proof {
            lemma_remove_keeps(l0, f, last as int, self.start(), self.size());
            assert(l0[f].remove(last as int) =~= l0[f].drop_last());
            assert(self.lists() =~= split_result(l0, block, f, f));
            lemma_order_size_mono(ord as int, f);
        }
        while found > ord
            invariant
                ord <= found <= f,
                f <= MAX_ORDER,
                l0[f].len() > 0,
                block == l0[f].last(),
                l0.len() == MAX_ORDER + 1,
                self.start() == old(self).start(),
                self.size() == old(self).size(),
                self.lists() == split_result(l0, block, found as int, f),
                self.start() + self.size() <= usize::MAX,
                self.start() <= block,
                block + order_size(f) <= self.start() + self.size(),
                lists_disjoint(self.lists()),
                lists_in_heap(self.lists(), self.start(), self.size()),
                disjoint_from_free(self.lists(), block as int, found as int),
                aligned0 ==> lists_aligned(self.lists()) && aligned_to(block, found),
            decreases found,
        {
            found = found - 1;
            proof {
                lemma_order_size_mono(found as int, f);
                lemma_order_size_mono(found as int + 1, f);
            }
            let piece = block + shifted_size(found);
            proof {
                lemma_sub_block_free(self.lists(), block as int, found as int + 1, piece as int, found as int);
                lemma_push_keeps(self.lists(), found as int, piece, self.start(), self.size());
                if aligned0 {
                    shift_matches_order_size(found);
                    lemma_split_aligned(block, found);
                }
            }
            let ghost before = self.lists();
            self.push_block(found, piece);
            proof {
                assert(self.lists() =~= split_result(l0, block, found as int, f));
                assert forall|k: int, i: int| 0 <= k < self.lists().len() && 0 <= i < self.lists()[k].len()
                    implies blocks_disjoint(block as int, found as int, #[trigger] self.lists()[k][i] as int, k) by {
                    if k == found as int && i == before[k].len() {
                        lemma_order_size_pos(k);
                    } else {
                        assert(self.lists()[k][i] == before[k][i]);
                        assert(blocks_disjoint(block as int, found as int + 1, before[k][i] as int, k));
                    }
                }
            }
        }
        proof {
            if aligned0 {
                shift_matches_order_size(ord);
            }
        }
        Some(block)
    }
}

} // verus!

verus! {

impl BuddyAllocator {
    /// A block of the order a `(size, align)` request is served from, starting at `ptr`, that
    /// lies in the arena and overlaps no free block: what an allocation handed out looks like.
    pub open spec fn is_allocated_block(&self, ptr: usize, size: usize, align: usize) -> bool {
        let ord = order_for(request_bytes(size, align));
        &&& self.start() <= ptr
        &&& ptr + order_size(ord) <= self.start() + self.size()
        &&& disjoint_from_free(self.lists(), ptr as int, ord)
    }

    /// Returns a block: while its buddy is free the buddy is unlinked and the two merge one
    /// order up; the merged block goes on the list where merging stops.
    pub fn dealloc_inner(&mut self, ptr: usize, size: usize, align: usize)
        requires
            old(self).wf(),
            old(self).is_allocated_block(ptr, size, align),
        ensures
            final(self).wf(),
            final(self).start() == old(self).start(),
            final(self).size() == old(self).size(),
            final(self).lists() == coalesce(
                old(self).lists(),
                ptr,
                order_for(request_bytes(size, align)),
            ),
            lists_aligned(old(self).lists()) && aligned_to(
                ptr,
                order_for(request_bytes(size, align)) as usize,
            ) ==> lists_aligned(final(self).lists()),
            no_free_buddies(old(self).lists()) ==> no_free_buddies(final(self).lists()),
    {
        let ghost before = self.lists();
        let req = request_of(size, align);
        let mut ord = order_of_request(req);
        let ghost ord0 = ord as int;
        proof {
            if no_free_buddies(before) {
                lemma_coalesce_keeps_buddies_apart(before, ptr, ord0);
            }
        }
        let ghost aligned0 = lists_aligned(self.lists()) && aligned_to(ptr, ord);
        let mut cur = ptr;
        let mut done = false;
        while !done && ord < MAX_ORDER
            invariant
                ord <= MAX_ORDER,
                self.lists().len() == MAX_ORDER + 1,
                self.start() == old(self).start(),
                self.size() == old(self).size(),
                self.start() + self.size() <= usize::MAX,
                coalesce(self.lists(), cur, ord as int) == coalesce(old(self).lists(), ptr, ord0),
                lists_disjoint(self.lists()),
                lists_in_heap(self.lists(), self.start(), self.size()),
                self.start() <= cur,
                cur + order_size(ord as int) <= self.start() + self.size(),
                disjoint_from_free(self.lists(), cur as int, ord as int),
                aligned0 ==> lists_aligned(self.lists()) && aligned_to(cur, ord),
                done ==> head_index_of(
                    self.lists()[ord as int],
                    buddy_of(cur, ord as int),
                    self.lists()[ord as int].len() as int,
                ) < 0,
            decreases MAX_ORDER - ord, if done { 0int } else { 1int },
        {
            let s = shifted_size(ord);
            let buddy = cur ^ s;
            match self.find_from_head(ord, buddy) {
                None => {
                    done = true;
                },
                Some(j) => {
                    let ghost l = self.lists();
                    proof {
                        lemma_head_index(l[ord as int], buddy, l[ord as int].len() as int);
                        lemma_remove_keeps(l, ord as int, j as int, self.start(), self.size());
                        shift_matches_order_size(ord);
                        lemma_xor_adjacent(cur, ord);
                        lemma_order_size_pos(ord as int);
                    }
                    self.remove_block(ord, j);
                    let merged = if cur <= buddy { cur } else { buddy };
                    proof {
                        let l2 = self.lists();
                        let so = order_size(ord as int);
                        assert(l[ord as int][j as int] == buddy);
                        assert(s == (32usize << ord));
                        assert(buddy as int == cur + so || buddy as int == cur - so);
                        assert(order_size(ord as int + 1) == 2 * so);
                        assert(disjoint_from_free(l2, cur as int, ord as int));
                        assert(disjoint_from_free(l2, buddy as int, ord as int));
                        assert forall|k: int, i: int| 0 <= k < l2.len() && 0 <= i < l2[k].len()
                            implies blocks_disjoint(merged as int, ord as int + 1, #[trigger] l2[k][i] as int, k) by {
                            assert(blocks_disjoint(cur as int, ord as int, l2[k][i] as int, k));
                            assert(blocks_disjoint(buddy as int, ord as int, l2[k][i] as int, k));
                            lemma_order_size_pos(k);
                            if buddy as int == cur + so {
                                assert(merged == cur);
                            } else {
                                assert(merged == buddy);
                            }
                        }
                        assert(l[ord as int].len() > j);
                        if aligned0 {
                            lemma_merge_aligned(cur, ord);
                        }
                    }
                    cur = merged;
                    ord = ord + 1;
                },
            }
        }
        proof {
            lemma_push_keeps(self.lists(), ord as int, cur, self.start(), self.size());
        }
        self.push_block(ord, cur);
    }
}

} // verus!

verus! {

impl BuddyAllocator {
    /// Hands the arena `[heap_start, heap_start + heap_size)` to the allocator, carving it into
    /// the largest aligned blocks that fit, front to back.
    pub fn init(&mut self, heap_start: usize, heap_size: usize)
        requires
            old(self).lists().len() == MAX_ORDER + 1,
            heap_start + heap_size <= usize::MAX,
        ensures
            final(self).start() == heap_start,
            final(self).size() == heap_size,
            final(self).lists() == carve(
                old(self).lists(),
                heap_start as int,
                heap_start + heap_size,
            ),
            old(self).lists() == Seq::new((MAX_ORDER + 1) as nat, |k: int| Seq::<usize>::empty())
                ==> final(self).wf(),
            old(self).lists() == Seq::new((MAX_ORDER + 1) as nat, |k: int| Seq::<usize>::empty())
                && heap_start & 31 == 0 ==> lists_aligned(final(self).lists()),
    {
        let ghost fresh = old(self).lists() == Seq::new(
            (MAX_ORDER + 1) as nat,
            |k: int| Seq::<usize>::empty(),
        );
        let ghost al = fresh && heap_start & 31 == 0;
        let ghost target = carve(old(self).lists(), heap_start as int, heap_start + heap_size);
        self.heap_start = heap_start;
        self.heap_size = heap_size;
        let end = heap_start + heap_size;
        let mut curr = heap_start;
        let mut stop = false;
        proof {
            assert(self.lists() == old(self).lists());
        }
        while !stop && curr < end
            invariant
                heap_start <= curr,
                end == heap_start + heap_size,
                self.start() == heap_start,
                self.size() == heap_size,
                self.lists().len() == MAX_ORDER + 1,
                carve(self.lists(), curr as int, end as int) == target,
                stop ==> carve(self.lists(), curr as int, end as int) == self.lists(),
                fresh ==> lists_in_heap(self.lists(), heap_start as int, curr - heap_start)
                    && lists_disjoint(self.lists()),
                al ==> curr & 31 == 0 && lists_aligned(self.lists()),
                curr <= end,
            decreases end - curr, if stop { 0int } else { 1int },
        {
            let mut ord: usize = MAX_ORDER;
            let mut fits = false;
            while !fits && ord > 0
                invariant
                    ord <= MAX_ORDER,
                    curr < end,
                    carve_order(curr as int, end as int, ord as int) == carve_order(
                        curr as int,
                        end as int,
                        MAX_ORDER as int,
                    ),
                    fits ==> ord > 0 && curr + order_size(ord as int) <= end && aligned_to(curr, ord),
                decreases ord, if fits { 0int } else { 1int },
            {
                let size = shifted_size(ord);
                proof {
                    shift_matches_order_size(ord);
                    lemma_order_size_pos(ord as int);
                }
                if size <= end - curr && curr & (size - 1) == 0 {
                    fits = true;
                } else {
                    ord = ord - 1;
                }
            }
            let size = shifted_size(ord);
            proof {
                shift_matches_order_size(ord);
                lemma_order_size_pos(ord as int);
            }
            if size > end - curr {
                stop = true;
            } else {
                proof {
                    if fresh {
                        let l = self.lists();
                        assert forall|k: int, i: int| 0 <= k < l.len() && 0 <= i < l[k].len()
                            implies blocks_disjoint(curr as int, ord as int, #[trigger] l[k][i] as int, k) by {}
                        lemma_push_keeps(l, ord as int, curr, heap_start as int, curr + size - heap_start);
                        assert forall|k: int, i: int| 0 <= k < l.len() && 0 <= i < l[k].len()
                            implies #[trigger] l[k][i] + order_size(k) <= curr + size - heap_start + heap_start by {}
                    }
                    if al {
                        lemma_aligned_step(curr, ord);
                    }
                }
                self.push_block(ord, curr);
                proof {
                    if fresh {
                        let l = self.lists();
                        assert forall|k: int, i: int| 0 <= k < l.len() && 0 <= i < l[k].len()
                            implies heap_start <= #[trigger] l[k][i] && l[k][i] + order_size(k) <= heap_start + (curr + size - heap_start) by {}
                    }
                }
                curr = curr + size;
            }
        }
        proof {
            if fresh {
                let l = self.lists();
                assert forall|k: int, i: int| 0 <= k < l.len() && 0 <= i < l[k].len()
                    implies heap_start <= #[trigger] l[k][i] && l[k][i] + order_size(k) <= heap_start + heap_size by {}
            }
        }
    }
}


/// The kernel heap allocator: a buddy allocator behind a spinlock.
pub struct LockedBuddyAllocator(Spinlock<BuddyAllocator>);

impl LockedBuddyAllocator {
    /// The allocator behind the lock.
    pub closed spec fn inner(&self) -> BuddyAllocator {
        self.0.value()
    }

    pub closed spec fn is_locked(&self) -> bool {
        self.0.is_locked()
    }

    /// An unlocked allocator over no memory.
    pub fn new() -> (r: Self)
        ensures
            !r.is_locked(),
            r.inner().wf(),
            r.inner().lists() == Seq::new((MAX_ORDER + 1) as nat, |k: int| Seq::<usize>::empty()),
            r.inner().start() == 0,
            r.inner().size() == 0,
    {
        LockedBuddyAllocator(Spinlock::new(BuddyAllocator::empty()))
    }

    /// Gives the allocator the arena `[heap_start, heap_start + heap_size)`, under the lock.
    pub fn init(&mut self, heap_start: usize, heap_size: usize, preempt: &mut KernelAtomicUsize)
        requires
            !old(self).is_locked(),
            old(self).inner().lists() == Seq::new((MAX_ORDER + 1) as nat, |k: int| Seq::<usize>::empty()),
            heap_start + heap_size <= usize::MAX,
        ensures
            !final(self).is_locked(),
            final(preempt)@ == old(preempt)@,
            final(self).inner().wf(),
            final(self).inner().start() == heap_start,
            final(self).inner().size() == heap_size,
            final(self).inner().lists() == carve(old(self).inner().lists(), heap_start as int, heap_start + heap_size),
            heap_start & 31 == 0 ==> lists_aligned(final(self).inner().lists()),
    {
        self.0.lock(preempt);
        self.0.get_mut().init(heap_start, heap_size);
        self.0.unlock(preempt);
        proof {
            let p0 = old(preempt)@;
            assert(p0.wrapping_add(1).wrapping_sub(1) == p0);
        }
    }

    /// Allocates `size` bytes aligned to `align`, under the lock.
    pub fn allocate(&mut self, size: usize, align: usize, preempt: &mut KernelAtomicUsize) -> (r: Option<usize>)
        requires
            !old(self).is_locked(),
            old(self).inner().wf(),
        ensures
            !final(self).is_locked(),
            final(preempt)@ == old(preempt)@,
            final(self).inner().wf(),
            final(self).inner().start() == old(self).inner().start(),
            final(self).inner().size() == old(self).inner().size(),
            ({
                let req = request_bytes(size, align);
                let ord = order_for(req);
                let f = first_nonempty(old(self).inner().lists(), ord);
                if order_size(ord) < req || f > MAX_ORDER {
                    r is None && final(self).inner().lists() == old(self).inner().lists()
                } else {
                    let b = old(self).inner().lists()[f].last();
                    &&& r == Some(b)
                    &&& final(self).inner().lists() == split_result(old(self).inner().lists(), b, ord, f)
                }
            }),
    {
        self.0.lock(preempt);
        let r = self.0.get_mut().alloc_inner(size, align);
        self.0.unlock(preempt);
        proof {
            let p0 = old(preempt)@;
            assert(p0.wrapping_add(1).wrapping_sub(1) == p0);
        }
        r
    }

    /// Frees the block at `ptr` of `size` bytes aligned to `align`, under the lock.
    pub fn deallocate(&mut self, ptr: usize, size: usize, align: usize, preempt: &mut KernelAtomicUsize)
        requires
            !old(self).is_locked(),
            old(self).inner().wf(),
            old(self).inner().is_allocated_block(ptr, size, align),
        ensures
            !final(self).is_locked(),
            final(preempt)@ == old(preempt)@,
            final(self).inner().wf(),
            final(self).inner().start() == old(self).inner().start(),
            final(self).inner().size() == old(self).inner().size(),
            final(self).inner().lists() == coalesce(old(self).inner().lists(), ptr, order_for(request_bytes(size, align))),
    {
        self.0.lock(preempt);
        self.0.get_mut().dealloc_inner(ptr, size, align);
        self.0.unlock(preempt);
        proof {
            let p0 = old(preempt)@;
            assert(p0.wrapping_add(1).wrapping_sub(1) == p0);
        }
    }
}

/// Whether no free block is free beside its buddy: for every order below the largest, the
/// buddy of a block on the list of that order is not on that list.
pub open spec fn no_free_buddies(lists: Seq<Seq<usize>>) -> bool {
    forall|k: int, i: int, j: int|
        0 <= k < MAX_ORDER && k < lists.len() && 0 <= i < lists[k].len() && 0 <= j < lists[k].len()
            ==> #[trigger] lists[k][j] != buddy_of(#[trigger] lists[k][i], k)
}

proof fn lemma_xor_twice(x: usize, m: usize)
    ensures
        (x ^ m) ^ m == x,
        m != 0 ==> x ^ m != x,
{
    assert((x ^ m) ^ m == x) by (bit_vector);
    assert(m != 0 ==> x ^ m != x) by (bit_vector);
}

proof fn lemma_head_index_absent(s: Seq<usize>, x: usize, upto: int)
    requires
        upto <= s.len(),
        head_index_of(s, x, upto) < 0,
    ensures
        forall|i: int| 0 <= i < upto ==> s[i] != x,
    decreases upto,
{
    if upto > 0 {
        lemma_head_index_absent(s, x, upto - 1);
    }
}

/// Freeing merges a block with its free buddy, order after order, so it never leaves two free
/// buddies side by side: if no free block had its buddy free before a free, none has after it.
pub proof fn lemma_coalesce_keeps_buddies_apart(lists: Seq<Seq<usize>>, cur: usize, ord: int)
    requires
        lists.len() == MAX_ORDER + 1,
        0 <= ord <= MAX_ORDER,
        no_free_buddies(lists),
    ensures
        no_free_buddies(coalesce(lists, cur, ord)),
    decreases MAX_ORDER - ord,
{
    let s = lists[ord];
    let b = buddy_of(cur, ord);
    if ord < MAX_ORDER && head_index_of(s, b, s.len() as int) >= 0 {
        let j = head_index_of(s, b, s.len() as int);
        lemma_head_index(s, b, s.len() as int);
        let l2 = lists.update(ord, s.remove(j));
        assert forall|k: int, i1: int, j1: int|
            0 <= k < MAX_ORDER && k < l2.len() && 0 <= i1 < l2[k].len() && 0 <= j1 < l2[k].len()
            implies #[trigger] l2[k][j1] != buddy_of(#[trigger] l2[k][i1], k) by {
            let o1 = if k == ord && i1 >= j { i1 + 1 } else { i1 };
            let o2 = if k == ord && j1 >= j { j1 + 1 } else { j1 };
            assert(l2[k][i1] == lists[k][o1]);
            assert(l2[k][j1] == lists[k][o2]);
        }
        lemma_coalesce_keeps_buddies_apart(l2, if cur <= b { cur } else { b }, ord + 1);
    } else {
        let l2 = lists.update(ord, s.push(cur));
        assert(coalesce(lists, cur, ord) == l2);
        if ord < MAX_ORDER {
            lemma_head_index_absent(s, b, s.len() as int);
            lemma_order_size_pos(ord);
            lemma_order_size_mono(ord, MAX_ORDER as int);
            lemma_max_order_size();
            let m = order_size(ord) as usize;
            assert(m != 0);
            lemma_xor_twice(cur, m);
            assert forall|k: int, i1: int, j1: int|
                0 <= k < MAX_ORDER && k < l2.len() && 0 <= i1 < l2[k].len() && 0 <= j1 < l2[k].len()
                implies #[trigger] l2[k][j1] != buddy_of(#[trigger] l2[k][i1], k) by {
                if k == ord {
                    let n = s.len() as int;
                    if i1 < n && j1 < n {
                        assert(l2[k][i1] == s[i1]);
                        assert(l2[k][j1] == s[j1]);
                    } else if i1 == n && j1 < n {
                        assert(l2[k][j1] == s[j1]);
                    } else if i1 < n && j1 == n {
                        assert(l2[k][i1] == s[i1]);
                        lemma_xor_twice(s[i1], m);
                        if cur == buddy_of(s[i1], k) {
                            assert(s[i1] == b);
                        }
                    }
                }
            }
        }
    }
}

} // verus!
