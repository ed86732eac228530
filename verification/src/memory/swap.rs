//! Swapping: a partition of page-sized slots on a RAM disk, allocated next-fit, and the
//! reaper's rules for choosing which resident pages to evict.
use vstd::prelude::*;
use crate::io::crc::crc32_spec;
use crate::io::disk::{DiskDevice, RamDisk};
use crate::process::pid::Tid;

verus! {

pub const PAGE_BYTES: usize = 4096;

pub const SECTOR_SIZE: usize = 512;

pub const SECTORS_PER_PAGE: u64 = 8;

/// Slots of the swap partition the kernel sets up.
pub const SWAP_PAGES: usize = 1024;

/// The reaper refills the free-frame pool when it drops below this ...
pub const POOL_MIN: usize = 64;

/// ... up to this.
pub const POOL_MAX: usize = 256;

/// Where swapped-out pages go.
pub trait SwapBackend {
    /// The backend's own consistency condition, kept by every operation.
    spec fn backend_ok(&self) -> bool;

    /// The number of slots.
    spec fn slot_total(&self) -> nat;

    /// Stores a page; returns its slot, or `None` when the backend is full.
    fn swap_out(&mut self, page: &[u8]) -> (r: Option<u64>)
        requires
            old(self).backend_ok(),
            page@.len() == PAGE_BYTES,
        ensures
            final(self).backend_ok(),
            final(self).slot_total() == old(self).slot_total(),
            r matches Some(s) ==> s < old(self).slot_total(),
    ;

    /// Reads the page in `slot` into `page` and frees the slot.
    fn swap_in(&mut self, slot: u64, page: &mut [u8])
        requires
            old(self).backend_ok(),
            slot < old(self).slot_total(),
            old(page)@.len() == PAGE_BYTES,
        ensures
            final(self).backend_ok(),
            final(self).slot_total() == old(self).slot_total(),
            final(page)@.len() == PAGE_BYTES,
    ;

    /// Frees `slot` (a slot out of range is ignored).
    fn free_slot(&mut self, slot: u64)
        requires
            old(self).backend_ok(),
        ensures
            final(self).backend_ok(),
            final(self).slot_total() == old(self).slot_total(),
    ;
}

/// The slot next-fit allocation picks: the first free one at or after `cursor`, wrapping
/// around; `k` is how far past the cursor it is.
pub open spec fn next_fit(free: Seq<bool>, cursor: int, k: int) -> bool {
    &&& 0 <= k < free.len()
    &&& free[(cursor + k) % (free.len() as int)]
    &&& forall|j: int| 0 <= j < k ==> !#[trigger] free[(cursor + j) % (free.len() as int)]
}

pub struct SwapPartition {
    disk: RamDisk,
    free: Vec<bool>,
    cursor: usize,
}

/// Sector `k` of `bytes`.
pub open spec fn sector(bytes: Seq<u8>, k: int) -> Seq<u8> {
    bytes.subrange(k * SECTOR_SIZE, k * SECTOR_SIZE + SECTOR_SIZE)
}

/// Page `s` of `bytes`.
pub open spec fn page(bytes: Seq<u8>, s: int) -> Seq<u8> {
    bytes.subrange(s * PAGE_BYTES, s * PAGE_BYTES + PAGE_BYTES)
}

proof fn lemma_sector_after_write(old_bytes: Seq<u8>, lba: int, buf: Seq<u8>, k: int)
    requires
        buf.len() == SECTOR_SIZE,
        0 <= lba,
        (lba + 1) * SECTOR_SIZE <= old_bytes.len(),
        0 <= k,
        (k + 1) * SECTOR_SIZE <= old_bytes.len(),
    ensures
        ({
            let new_bytes = old_bytes.subrange(0, lba * SECTOR_SIZE) + buf + old_bytes.subrange(
                (lba + 1) * SECTOR_SIZE,
                old_bytes.len() as int,
            );
            &&& new_bytes.len() == old_bytes.len()
            &&& sector(new_bytes, k) == (if k == lba { buf } else { sector(old_bytes, k) })
        }),
{
    let new_bytes = old_bytes.subrange(0, lba * SECTOR_SIZE) + buf + old_bytes.subrange(
        (lba + 1) * SECTOR_SIZE,
        old_bytes.len() as int,
    );
    assert((lba + 1) * 512 == lba * 512 + 512);
    assert((k + 1) * 512 == k * 512 + 512);
    if k < lba {
        assert(k * 512 + 512 <= lba * 512) by (nonlinear_arith)
            requires
                k < lba,
        ;
    } else if k > lba {
        assert(k * 512 >= lba * 512 + 512) by (nonlinear_arith)
            requires
                k > lba,
        ;
    }
    assert(sector(new_bytes, k) =~= (if k == lba { buf } else { sector(old_bytes, k) }));
}

/// What storing page `data` does to partition `a`: `b` is the partition after it, `r` the
/// result. With no free slot nothing changes and the result is `None`; otherwise a free slot is
/// taken, holds `data` afterwards, and every other slot's page is untouched.
pub open spec fn swap_out_post(a: SwapPartition, b: SwapPartition, data: Seq<u8>, r: Option<u64>) -> bool {
    &&& r is None <==> forall|i: int| 0 <= i < a.slots().len() ==> !#[trigger] a.slots()[i]
    &&& r is None ==> b.slots() == a.slots() && b.bytes() == a.bytes()
    &&& r matches Some(s) ==> {
        &&& s < a.slots().len()
        &&& a.slots()[s as int]
        &&& b.slots() == a.slots().update(s as int, false)
        &&& page(b.bytes(), s as int) == data
        &&& forall|t: int| 0 <= t < a.slots().len() && t != s ==> #[trigger] page(b.bytes(), t) == page(a.bytes(), t)
    }
}

/// What reading back `slot` of partition `a` does: `out` is the page read, `b` the partition
/// after it, with the slot free again and the bytes unchanged.
pub open spec fn swap_in_post(a: SwapPartition, b: SwapPartition, slot: u64, out: Seq<u8>) -> bool {
    &&& out == page(a.bytes(), slot as int)
    &&& b.bytes() == a.bytes()
    &&& b.slots() == a.slots().update(slot as int, true)
}

/// A page swapped out comes back unchanged: reading in the slot that `swap_out` chose gives the
/// bytes that were stored, leaves every slot free or taken as it was before, and every other
/// slot's page as it was.
pub proof fn lemma_swap_round_trip(
    a: SwapPartition,
    b: SwapPartition,
    c: SwapPartition,
    data: Seq<u8>,
    slot: u64,
    out: Seq<u8>,
)
    requires
        a.wf(),
        data.len() == PAGE_BYTES,
        swap_out_post(a, b, data, Some(slot)),
        swap_in_post(b, c, slot, out),
    ensures
        out == data,
        c.slots() == a.slots(),
        forall|t: int| 0 <= t < a.slots().len() && t != slot ==> #[trigger] page(c.bytes(), t) == page(a.bytes(), t),
{
    assert(c.slots() =~= a.slots());
}

/// The kernel's swap partition: `SWAP_PAGES` free, zeroed slots.
pub fn init() -> (r: SwapPartition)
    ensures
        r.wf(),
        r.slots() == Seq::new(SWAP_PAGES as nat, |i: int| true),
        r.next_slot() == 0,
{
    SwapPartition::new(SWAP_PAGES)
}

impl SwapPartition {
    /// Which slots are free.
    pub closed spec fn slots(&self) -> Seq<bool> {
        self.free@
    }

    /// What the partition holds, slot after slot.
    pub closed spec fn bytes(&self) -> Seq<u8> {
        self.disk.bytes()
    }

    /// Where the next allocation starts looking.
    pub closed spec fn next_slot(&self) -> nat {
        self.cursor as nat
    }

    /// Every sector's checksum matches its bytes.
    spec fn checksums_match(&self) -> bool {
        forall|k: int| 0 <= k < self.disk.checksums().len() ==> #[trigger] self.disk.checksums()[k] == crc32_spec(
            sector(self.disk.bytes(), k),
        )
    }

    pub closed spec fn wf(&self) -> bool {
        &&& self.disk.wf()
        &&& self.disk.sector_bytes() == SECTOR_SIZE
        &&& self.free@.len() > 0
        &&& self.disk.bytes().len() == self.free@.len() * PAGE_BYTES
        &&& self.disk.checksums().len() == self.free@.len() * SECTORS_PER_PAGE
        &&& self.free@.len() * PAGE_BYTES + PAGE_BYTES <= usize::MAX
        &&& self.cursor < self.free@.len()
        &&& self.checksums_match()
    }

    /// A partition of `pages` zeroed slots, all free.
    pub fn new(pages: usize) -> (r: Self)
        requires
            pages > 0,
            pages * PAGE_BYTES + PAGE_BYTES <= usize::MAX,
        ensures
            r.wf(),
            r.slots() == Seq::new(pages as nat, |i: int| true),
            r.bytes() == Seq::new((pages * PAGE_BYTES) as nat, |i: int| 0u8),
            r.next_slot() == 0,
    {
        let disk = RamDisk::new(pages * 8, SECTOR_SIZE);
        let mut free: Vec<bool> = Vec::new();
        let mut i: usize = 0;
        while i < pages
            invariant
                i <= pages,
                free@ == Seq::new(i as nat, |k: int| true),
            decreases pages - i,
        {
            free.push(true);
            i = i + 1;
            proof {
                assert(free@ =~= Seq::new(i as nat, |k: int| true));
            }
        }
        let r = Self { disk, free, cursor: 0 };
        proof {
            assert forall|k: int| 0 <= k < r.disk.checksums().len() implies #[trigger] r.disk.checksums()[k] == crc32_spec(
                sector(r.disk.bytes(), k),
            ) by {
                assert((k + 1) * 512 <= pages * 8 * 512) by (nonlinear_arith)
                    requires
                        k < pages * 8,
                ;
                assert(sector(r.disk.bytes(), k) =~= Seq::new(512, |j: int| 0u8));
            }
        }
        r
    }

    /// Takes the first free slot at or after the cursor (wrapping around) and moves the cursor
    /// past it.
    fn alloc_slot(&mut self) -> (r: Option<u64>)
        requires
            old(self).wf(),
        ensures
            final(self).wf(),
            final(self).bytes() == old(self).bytes(),
            match r {
                None => final(self).slots() == old(self).slots() && final(self).next_slot() == old(self).next_slot()
                    && forall|i: int| 0 <= i < old(self).slots().len() ==> !#[trigger] old(self).slots()[i],
                Some(s) => exists|k: int|
                    next_fit(old(self).slots(), old(self).next_slot() as int, k) && s == (old(self).next_slot() + k) % (
                    old(self).slots().len() as int) && final(self).slots() == old(self).slots().update(s as int, false)
                        && final(self).next_slot() == (s + 1) % (old(self).slots().len() as int),
            },
    {
        let n = self.free.len();
        let mut i: usize = 0;
        while i < n
            invariant
                n == self.free@.len(),
                self.wf(),
                *self == *old(self),
                i <= n,
                forall|j: int| 0 <= j < i ==> !#[trigger] self.free@[(self.cursor + j) % (n as int)],
            decreases n - i,
        {
            let idx = (self.cursor + i) % n;
            if self.free[idx] {
                self.free.set(idx, false);
                self.cursor = (idx + 1) % n;
                proof {
                    assert(next_fit(old(self).slots(), old(self).cursor as int, i as int));
                    assert(self.free@ == old(self).slots().update(idx as int, false));
                    let k = i as int;
                    assert(next_fit(old(self).slots(), old(self).next_slot() as int, k) && idx == (old(self).next_slot() + k) % (
                    old(self).slots().len() as int) && self.slots() == old(self).slots().update(idx as int, false)
                        && self.next_slot() == (idx + 1) % (old(self).slots().len() as int));
                }
                return Some(idx as u64);
            }
            i = i + 1;
        }
        proof {
            assert forall|x: int| 0 <= x < n implies !#[trigger] old(self).slots()[x] by {
                let j = if x >= self.cursor { x - self.cursor } else { x + n - self.cursor };
                assert((self.cursor + j) % (n as int) == x) by (nonlinear_arith)
                    requires
                        0 <= x < n,
                        self.cursor < n,
                        j == (if x >= self.cursor { x - self.cursor } else { x + n - self.cursor }),
                ;
                assert(!self.free@[(self.cursor + j) % (n as int)]);
            }
        }
        None
    }
}

impl SwapBackend for SwapPartition {
    open spec fn backend_ok(&self) -> bool {
        self.wf()
    }

    open spec fn slot_total(&self) -> nat {
        self.slots().len()
    }

    /// Takes a slot and writes the page into it, sector by sector.
    fn swap_out(&mut self, page_bytes: &[u8]) -> (r: Option<u64>)
        ensures
            swap_out_post(*old(self), *final(self), page_bytes@, r),
    {
        let slot = match self.alloc_slot() {
            Some(s) => s,
            None => return None,
        };
        let ghost bytes0 = self.disk.bytes();
        let mut i: u64 = 0;
        while i < SECTORS_PER_PAGE
            invariant
                self.wf(),
                i <= SECTORS_PER_PAGE,
                slot < self.free@.len(),
                self.free@ == old(self).slots().update(slot as int, false),
                page_bytes@.len() == PAGE_BYTES,
                bytes0.len() == self.disk.bytes().len(),
                forall|b: int| 0 <= b < bytes0.len() ==> #[trigger] self.disk.bytes()[b] == (if slot * 4096 <= b < slot * 4096 + i * 512 {
                    page_bytes@[b - slot * 4096]
                } else {
                    bytes0[b]
                }),
                bytes0 == old(self).bytes(),
            decreases SECTORS_PER_PAGE - i,
        {
            let mut buf: Vec<u8> = Vec::new();
            let base = (i as usize) * SECTOR_SIZE;
            let mut j: usize = 0;
            while j < SECTOR_SIZE
                invariant
                    j <= SECTOR_SIZE,
                    base == i * 512,
                    i < 8,
                    page_bytes@.len() == PAGE_BYTES,
                    buf@.len() == j,
                    forall|k: int| 0 <= k < j ==> #[trigger] buf@[k] == page_bytes@[base + k],
                decreases SECTOR_SIZE - j,
            {
                buf.push(page_bytes[base + j]);
                j = j + 1;
            }
            let lba = slot * SECTORS_PER_PAGE + i;
            let ghost before = self.disk.bytes();
            proof {
                assert((slot * 8 + i + 1) * 512 <= self.free@.len() * 4096) by (nonlinear_arith)
                    requires
                        slot < self.free@.len(),
                        i < 8,
                ;
                assert(lba * 512 + 512 <= usize::MAX) by (nonlinear_arith)
                    requires
                        lba == slot * 8 + i,
                        (slot * 8 + i + 1) * 512 <= self.free@.len() * 4096,
                        self.free@.len() * 4096 + 4096 <= usize::MAX,
                ;
            }
            let res = self.disk.write_sector(lba, buf.as_slice());
            match res {
                Ok(()) => {},
                Err(_) => {
                    proof {
                        assert(false);
                    }
                    return None;
                },
            }
            proof {
                assert(buf@.subrange(0, 512) =~= buf@);
                assert forall|k: int| 0 <= k < self.disk.checksums().len() implies #[trigger] self.disk.checksums()[k]
                    == crc32_spec(sector(self.disk.bytes(), k)) by {
                    assert((k + 1) * 512 <= before.len()) by (nonlinear_arith)
                        requires
                            k < self.free@.len() * 8,
                            before.len() == self.free@.len() * 4096,
                    ;
                    lemma_sector_after_write(before, lba as int, buf@, k);
                }
                assert forall|b: int| 0 <= b < bytes0.len() implies #[trigger] self.disk.bytes()[b] == (if slot * 4096 <= b < slot * 4096 + (i + 1) * 512 {
                    page_bytes@[b - slot * 4096]
                } else {
                    bytes0[b]
                }) by {
                    let lo = lba * 512;
                    assert(lo == slot * 4096 + i * 512) by (nonlinear_arith)
                        requires
                            lba == slot * 8 + i,
                            lo == lba * 512,
                    ;
                    if lo <= b < lo + 512 {
                        assert(self.disk.bytes()[b] == buf@[b - lo]);
                    } else if b < lo {
                        assert(self.disk.bytes()[b] == before[b]);
                    } else {
                        assert(self.disk.bytes()[b] == before[b]);
                    }
                }
            }
            i = i + 1;
        }
        proof {
            let s = slot as int;
            assert(page(self.disk.bytes(), s) =~= page_bytes@) by {
                assert((s + 1) * 4096 <= bytes0.len()) by (nonlinear_arith)
                    requires
                        s < self.free@.len(),
                        bytes0.len() == self.free@.len() * 4096,
                ;
            }
            assert forall|t: int| 0 <= t < old(self).slots().len() && t != s implies #[trigger] page(self.disk.bytes(), t)
                == page(old(self).bytes(), t) by {
                assert((t + 1) * 4096 <= bytes0.len()) by (nonlinear_arith)
                    requires
                        t < self.free@.len(),
                        bytes0.len() == self.free@.len() * 4096,
                ;
                if t < s {
                    assert(t * 4096 + 4096 <= s * 4096) by (nonlinear_arith)
                        requires
                            t < s,
                    ;
                } else {
                    assert(t * 4096 >= s * 4096 + 4096) by (nonlinear_arith)
                        requires
                            t > s,
                    ;
                }
                assert(page(self.disk.bytes(), t) =~= page(old(self).bytes(), t));
            }
            let k = choose|k: int|
                next_fit(old(self).slots(), old(self).next_slot() as int, k) && s == (old(self).next_slot() + k) % (
                old(self).slots().len() as int);
            assert(old(self).slots()[s]);
        }
        Some(slot)
    }

    /// Reads the page in `slot` into `page_bytes`, sector by sector, and frees the slot.
    fn swap_in(&mut self, slot: u64, page_bytes: &mut [u8])
        ensures
            swap_in_post(*old(self), *final(self), slot, final(page_bytes)@),
    {
        let mut i: u64 = 0;
        while i < SECTORS_PER_PAGE
            invariant
                self.wf(),
                *self == *old(self),
                i <= SECTORS_PER_PAGE,
                slot < self.free@.len(),
                page_bytes@.len() == PAGE_BYTES,
                forall|b: int| 0 <= b < i * 512 ==> #[trigger] page_bytes@[b] == self.disk.bytes()[slot * 4096 + b],
            decreases SECTORS_PER_PAGE - i,
        {
            let mut buf: Vec<u8> = Vec::new();
            let mut z: usize = 0;
            while z < SECTOR_SIZE
                invariant
                    z <= SECTOR_SIZE,
                    buf@.len() == z,
                decreases SECTOR_SIZE - z,
            {
                buf.push(0);
                z = z + 1;
            }
            let lba = slot * SECTORS_PER_PAGE + i;
            proof {
                assert((slot * 8 + i + 1) * 512 <= self.free@.len() * 4096) by (nonlinear_arith)
                    requires
                        slot < self.free@.len(),
                        i < 8,
                ;
                assert(lba * 512 + 512 <= usize::MAX) by (nonlinear_arith)
                    requires
                        lba == slot * 8 + i,
                        (slot * 8 + i + 1) * 512 <= self.free@.len() * 4096,
                        self.free@.len() * 4096 + 4096 <= usize::MAX,
                ;
                assert(lba < self.disk.checksums().len()) by (nonlinear_arith)
                    requires
                        lba == slot * 8 + i,
                        slot < self.free@.len(),
                        i < 8,
                        self.disk.checksums().len() == self.free@.len() * 8,
                ;
            }
            let res = self.disk.read_sector(lba, buf.as_mut_slice());
            proof {
                let contents = self.disk.bytes();
                assert(buf@.subrange(0, 512) =~= buf@);
                assert(buf@ == sector(contents, lba as int));
                assert(self.disk.checksums()[lba as int] == crc32_spec(sector(contents, lba as int)));
            }
            match res {
                Ok(()) => {},
                Err(_) => {
                    proof {
                        assert(false);
                    }
                },
            }
            let base = (i as usize) * SECTOR_SIZE;
            let mut j: usize = 0;
            while j < SECTOR_SIZE
                invariant
                    j <= SECTOR_SIZE,
                    base == i * 512,
                    i < 8,
                    page_bytes@.len() == PAGE_BYTES,
                    buf@.len() == SECTOR_SIZE,
                    forall|b: int| 0 <= b < i * 512 ==> #[trigger] page_bytes@[b] == self.disk.bytes()[slot * 4096 + b],
                    forall|k: int| 0 <= k < j ==> #[trigger] page_bytes@[base + k] == buf@[k],
                decreases SECTOR_SIZE - j,
            {
                page_bytes[base + j] = buf[j];
                j = j + 1;
            }
            proof {
                assert forall|b: int| 0 <= b < (i + 1) * 512 implies #[trigger] page_bytes@[b] == self.disk.bytes()[slot * 4096 + b] by {
                    if b >= i * 512 {
                        let k = b - base;
                        assert(page_bytes@[base + k] == buf@[k]);
                        assert(buf@[k] == sector(self.disk.bytes(), lba as int)[k]);
                        assert(lba * 512 + k == slot * 4096 + b) by (nonlinear_arith)
                            requires
                                lba == slot * 8 + i,
                                k == b - i * 512,
                        ;
                    }
                }
            }
            i = i + 1;
        }
        proof {
            assert((slot + 1) * 4096 <= self.disk.bytes().len()) by (nonlinear_arith)
                requires
                    slot < self.free@.len(),
                    self.disk.bytes().len() == self.free@.len() * 4096,
            ;
            assert(page_bytes@ =~= page(old(self).bytes(), slot as int));
        }
        self.free_slot(slot);
    }

    /// Marks `slot` free; a slot out of range is ignored.
    fn free_slot(&mut self, slot: u64)
        ensures
            final(self).bytes() == old(self).bytes(),
            final(self).next_slot() == old(self).next_slot(),
            slot < old(self).slots().len() ==> final(self).slots() == old(self).slots().update(slot as int, true),
            slot >= old(self).slots().len() ==> final(self).slots() == old(self).slots(),
    {
        if slot < self.free.len() as u64 {
            self.free.set(slot as usize, true);
        }
    }
}

/// What the reaper knows of a user task: its thread, address space, the bytes its areas span
/// and the pages of them now resident.
pub struct TaskPages {
    pub tid: Tid,
    pub cr3: u64,
    pub vsize: u64,
    pub resident: Vec<u64>,
}

/// A page the reaper may evict.
#[derive(Debug, Clone, Copy, PartialEq, Eq, Structural)]
pub struct Candidate {
    pub tid: Tid,
    pub cr3: u64,
    pub vaddr: u64,
}

/// A task's proportional share of the resident pages: its part of the total virtual size.
pub open spec fn share(vsize: int, total_vsize: int, total_resident: int) -> int {
    if total_vsize > 0 {
        vsize * total_resident / total_vsize
    } else {
        0
    }
}

/// The sum of the virtual sizes.
pub open spec fn total_vsize(tasks: Seq<(Tid, u64, u64, Seq<u64>)>) -> int
    decreases tasks.len(),
{
    if tasks.len() == 0 {
        0
    } else {
        total_vsize(tasks.drop_last()) + tasks.last().2
    }
}

/// The number of resident pages.
pub open spec fn total_resident(tasks: Seq<(Tid, u64, u64, Seq<u64>)>) -> int
    decreases tasks.len(),
{
    if tasks.len() == 0 {
        0
    } else {
        total_resident(tasks.drop_last()) + tasks.last().3.len()
    }
}

/// Every resident page with the excess of its task over its share, task by task.
pub open spec fn scored(tasks: Seq<(Tid, u64, u64, Seq<u64>)>, tv: int, tr: int) -> Seq<(int, Candidate)>
    decreases tasks.len(),
{
    if tasks.len() == 0 {
        Seq::empty()
    } else {
        let t = tasks.last();
        let ex = t.3.len() - share(t.2 as int, tv, tr);
        scored(tasks.drop_last(), tv, tr) + Seq::new(t.3.len(), |i: int| (ex, Candidate { tid: t.0, cr3: t.1, vaddr: t.3[i] }))
    }
}

/// `x` put into `s` (in decreasing excess) after every entry with at least its excess.
pub open spec fn insert_by_excess(s: Seq<(int, Candidate)>, x: (int, Candidate)) -> Seq<(int, Candidate)>
    decreases s.len(),
{
    if s.len() == 0 {
        seq![x]
    } else if s.last().0 >= x.0 {
        s.push(x)
    } else {
        insert_by_excess(s.drop_last(), x).push(s.last())
    }
}

/// `s` in decreasing excess, entries of equal excess in their original order.
pub open spec fn sort_by_excess(s: Seq<(int, Candidate)>) -> Seq<(int, Candidate)>
    decreases s.len(),
{
    if s.len() == 0 {
        s
    } else {
        insert_by_excess(sort_by_excess(s.drop_last()), s.last())
    }
}

/// The tasks as plain values.
pub open spec fn tasks_view(tasks: Seq<TaskPages>) -> Seq<(Tid, u64, u64, Seq<u64>)> {
    Seq::new(tasks.len(), |i: int| (tasks[i].tid, tasks[i].cr3, tasks[i].vsize, tasks[i].resident@))
}

/// The victim list: every resident page, pages of tasks holding more than their
/// proportional share first (by how much), in task and page order otherwise.
pub open spec fn victim_order(tasks: Seq<TaskPages>) -> Seq<Candidate> {
    let v = tasks_view(tasks);
    let s = sort_by_excess(scored(v, total_vsize(v), total_resident(v)));
    Seq::new(s.len(), |i: int| s[i].1)
}

fn insert_excess(v: &mut Vec<(i64, Candidate)>, x: (i64, Candidate))
    ensures
        excess_view(final(v)@) == insert_by_excess(excess_view(old(v)@), (x.0 as int, x.1)),
{
    let ghost xv = (x.0 as int, x.1);
    let mut i = v.len();
    proof {
        assert(excess_view(old(v)@).subrange(0, i as int) =~= excess_view(old(v)@));
        assert(insert_by_excess(excess_view(old(v)@), xv) + excess_view(old(v)@).subrange(i as int, i as int)
            =~= insert_by_excess(excess_view(old(v)@), xv));
    }
    while i > 0 && v[i - 1].0 < x.0
        invariant
            i <= v@.len(),
            v@ == old(v)@,
            xv == (x.0 as int, x.1),
            insert_by_excess(excess_view(old(v)@), xv) == insert_by_excess(excess_view(old(v)@).subrange(0, i as int), xv)
                + excess_view(old(v)@).subrange(i as int, old(v)@.len() as int),
        decreases i,
    {
        proof {
            let s = excess_view(old(v)@).subrange(0, i as int);
            assert(s.last() == excess_view(old(v)@)[i - 1]);
            assert(excess_view(old(v)@)[i - 1].0 == old(v)@[i - 1].0 as int);
            assert(s.last().0 < xv.0);
            assert(s.drop_last() =~= excess_view(old(v)@).subrange(0, i - 1));
            assert(insert_by_excess(s.drop_last(), xv).push(s.last()) + excess_view(old(v)@).subrange(i as int, old(v)@.len() as int)
                =~= insert_by_excess(s.drop_last(), xv) + excess_view(old(v)@).subrange(i - 1, old(v)@.len() as int));
        }
        i = i - 1;
    }
    proof {
        let s = excess_view(old(v)@).subrange(0, i as int);
        if i == 0 {
            assert(s =~= Seq::<(int, Candidate)>::empty());
        } else {
            assert(s.last().0 >= xv.0);
        }
        assert(insert_by_excess(s, xv) =~= s.push(xv));
    }
    v.insert(i, x);
    proof {
        assert(excess_view(v@) =~= excess_view(old(v)@).subrange(0, i as int).push(xv) + excess_view(old(v)@).subrange(
            i as int,
            old(v)@.len() as int,
        ));
    }
}

/// The entries with their excess as mathematical integers.
pub open spec fn excess_view(s: Seq<(i64, Candidate)>) -> Seq<(int, Candidate)> {
    Seq::new(s.len(), |i: int| (s[i].0 as int, s[i].1))
}

/// Builds the global victim list from what each user task has resident: pages of tasks over
/// their proportional share come first, most over first.
pub fn gather_candidates(tasks: &Vec<TaskPages>) -> (r: Vec<Candidate>)
    requires
        total_vsize(tasks_view(tasks@)) <= u64::MAX,
        total_resident(tasks_view(tasks@)) <= i64::MAX,
    ensures
        r@ == victim_order(tasks@),
{
    let ghost v = tasks_view(tasks@);
    let mut total_v: u64 = 0;
    let mut total_r: u64 = 0;
    let mut t: usize = 0;
    while t < tasks.len()
        invariant
            t <= tasks@.len(),
            v == tasks_view(tasks@),
            total_vsize(v) <= u64::MAX,
            total_resident(v) <= i64::MAX,
            total_v == total_vsize(v.subrange(0, t as int)),
            total_r == total_resident(v.subrange(0, t as int)),
        decreases tasks@.len() - t,
    {
        proof {
            assert(v.subrange(0, t + 1).drop_last() =~= v.subrange(0, t as int));
            lemma_totals_prefix(v, t as int + 1);
        }
        total_v = total_v + tasks[t].vsize;
        total_r = total_r + tasks[t].resident.len() as u64;
        t = t + 1;
    }
    proof {
        assert(v.subrange(0, v.len() as int) =~= v);
    }
    let mut sorted: Vec<(i64, Candidate)> = Vec::new();
    let ghost all = scored(v, total_v as int, total_r as int);
    let mut t: usize = 0;
    while t < tasks.len()
        invariant
            t <= tasks@.len(),
            v == tasks_view(tasks@),
            total_v == total_vsize(v),
            total_r == total_resident(v),
            total_r <= i64::MAX,
            excess_view(sorted@) == sort_by_excess(scored(v.subrange(0, t as int), total_v as int, total_r as int)),
        decreases tasks@.len() - t,
    {
        let task = &tasks[t];
        proof {
            lemma_share_bound(task.vsize as int, total_v as int, total_r as int, v, t as int);
            assert(task.vsize as u128 * total_r as u128 <= 0xFFFF_FFFF_FFFF_FFFFu128 * 0xFFFF_FFFF_FFFF_FFFFu128) by (nonlinear_arith)
                requires
                    task.vsize <= 0xFFFF_FFFF_FFFF_FFFFu64,
                    total_r <= 0xFFFF_FFFF_FFFF_FFFFu64,
            ;
        }
        let share_now: u64 = if total_v > 0 {
            ((task.vsize as u128 * total_r as u128) / total_v as u128) as u64
        } else {
            0
        };
        let excess: i64 = task.resident.len() as i64 - share_now as i64;
        let ghost base = scored(v.subrange(0, t as int), total_v as int, total_r as int);
        let ghost block = Seq::new(task.resident@.len(), |i: int| (excess as int, Candidate { tid: task.tid, cr3: task.cr3, vaddr: task.resident@[i] }));
        let mut k: usize = 0;
        while k < task.resident.len()
            invariant
                k <= task.resident@.len(),
                excess_view(sorted@) == sort_by_excess(base + block.subrange(0, k as int)),
                block.len() == task.resident@.len(),
                forall|i: int| 0 <= i < block.len() ==> #[trigger] block[i] == (excess as int, Candidate { tid: task.tid, cr3: task.cr3, vaddr: task.resident@[i] }),
            decreases task.resident@.len() - k,
        {
            let c = Candidate { tid: task.tid, cr3: task.cr3, vaddr: task.resident[k] };
            proof {
                let pre = base + block.subrange(0, k as int);
                assert((base + block.subrange(0, k + 1)).drop_last() =~= pre);
                assert((base + block.subrange(0, k + 1)).last() == (excess as int, c));
            }
            insert_excess(&mut sorted, (excess, c));
            k = k + 1;
        }
        proof {
            assert(block.subrange(0, block.len() as int) =~= block);
            let vt = v.subrange(0, t + 1);
            assert(vt.drop_last() =~= v.subrange(0, t as int));
            assert(vt.last() == v[t as int]);
            let ex = v[t as int].3.len() - share(v[t as int].2 as int, total_v as int, total_r as int);
            assert(ex == excess as int);
            assert(Seq::new(v[t as int].3.len(), |i: int| (ex, Candidate { tid: v[t as int].0, cr3: v[t as int].1, vaddr: v[t as int].3[i] })) =~= block);
        }
        t = t + 1;
    }
    proof {
        assert(v.subrange(0, v.len() as int) =~= v);
    }
    let mut out: Vec<Candidate> = Vec::new();
    let mut i: usize = 0;
    while i < sorted.len()
        invariant
            i <= sorted@.len(),
            out@.len() == i,
            forall|j: int| 0 <= j < i ==> #[trigger] out@[j] == sorted@[j].1,
        decreases sorted@.len() - i,
    {
        out.push(sorted[i].1);
        i = i + 1;
    }
    proof {
        assert(out@ =~= victim_order(tasks@));
    }
    out
}

proof fn lemma_totals_prefix(v: Seq<(Tid, u64, u64, Seq<u64>)>, n: int)
    requires
        0 <= n <= v.len(),
    ensures
        0 <= total_vsize(v.subrange(0, n)) <= total_vsize(v),
        0 <= total_resident(v.subrange(0, n)) <= total_resident(v),
    decreases v.len(),
{
    if n < v.len() {
        assert(v.drop_last().subrange(0, n) =~= v.subrange(0, n));
        lemma_totals_prefix(v.drop_last(), n);
    } else {
        assert(v.subrange(0, n) =~= v);
        lemma_totals_nonneg(v);
    }
}

proof fn lemma_totals_nonneg(v: Seq<(Tid, u64, u64, Seq<u64>)>)
    ensures
        0 <= total_vsize(v),
        0 <= total_resident(v),
        forall|i: int| 0 <= i < v.len() ==> (#[trigger] v[i]).2 <= total_vsize(v) && v[i].3.len() <= total_resident(v),
    decreases v.len(),
{
    if v.len() > 0 {
        lemma_totals_nonneg(v.drop_last());
        assert forall|i: int| 0 <= i < v.len() implies (#[trigger] v[i]).2 <= total_vsize(v) && v[i].3.len() <= total_resident(v) by {
            if i < v.len() - 1 {
                assert(v.drop_last()[i] == v[i]);
            }
        }
    }
}

proof fn lemma_share_bound(vsize: int, tv: int, tr: int, v: Seq<(Tid, u64, u64, Seq<u64>)>, t: int)
    requires
        0 <= t < v.len(),
        vsize == v[t].2,
        tv == total_vsize(v),
        tr == total_resident(v),
        tr <= i64::MAX,
    ensures
        0 <= share(vsize, tv, tr) <= tr,
        v[t].3.len() <= tr,
{
    lemma_totals_nonneg(v);
    if tv > 0 {
        assert(0 <= vsize * tr / tv <= tr) by (nonlinear_arith)
            requires
                0 <= vsize <= tv,
                tv > 0,
                0 <= tr,
        ;
    }
}

/// Whether sweep `sweep` of the enhanced second-chance scan takes a page with these reference
/// and dirty bits: sweep 0 only clean unreferenced pages, sweep 1 any unreferenced page,
/// sweep 2 anything.
pub open spec fn takes(sweep: u8, accessed: bool, dirty: bool) -> bool {
    if sweep == 0 {
        !accessed && !dirty
    } else if sweep == 1 {
        !accessed
    } else {
        true
    }
}

pub fn sweep_takes(sweep: u8, accessed: bool, dirty: bool) -> (r: bool)
    ensures
        r == takes(sweep, accessed, dirty),
{
    match sweep {
        0 => !accessed && !dirty,
        1 => !accessed,
        _ => true,
    }
}

/// Whether the reaper must refill the pool given `free_count` free frames, and to how many.
pub fn reap_if_needed(free_count: usize) -> (r: Option<usize>)
    ensures
        free_count < POOL_MIN ==> r == Some(POOL_MAX),
        free_count >= POOL_MIN ==> r is None,
{
    if free_count < POOL_MIN {
        Some(POOL_MAX)
    } else {
        None
    }
}

/// What the reaper asks its caller to do next.
#[derive(Debug, Clone, Copy, PartialEq, Eq, Structural)]
pub enum ReapAction {
    /// Report the number of free frames.
    CheckFree,
    /// Build the victim list (`gather_candidates`) and report its length.
    Gather,
    /// Report the reference and dirty bits of this victim.
    ReadBits(usize),
    /// Evict this victim and report whether it worked.
    Evict(usize),
    /// Clear the reference bit of this victim.
    ClearAccessed(usize),
    /// Finished, having evicted this many pages.
    Done(usize),
}

/// The reference and dirty bits of a page.
#[derive(Debug, Clone, Copy, PartialEq, Eq, Structural)]
pub struct PageBits {
    pub accessed: bool,
    pub dirty: bool,
}

/// What the caller reports back.
#[derive(Debug, Clone, Copy, PartialEq, Eq, Structural)]
pub enum ReapEvent {
    Free(usize),
    Gathered(usize),
    /// `None`: the page is no longer mapped.
    Bits(Option<PageBits>),
    Evicted(bool),
    Cleared,
}

#[derive(Debug, Clone, Copy, PartialEq, Eq, Structural)]
pub enum ReapPhase {
    AwaitFree,
    AwaitGather,
    AwaitBits,
    AwaitEvict,
    AwaitFreeAfterEvict,
    AwaitClear,
    Finished,
}

/// The reaper's progress through `reap_to`: rounds of up to three sweeps over a fresh victim
/// list, until the pool holds `target` free frames, no victims are left, or a whole round
/// evicted nothing.
#[derive(Debug, Clone, Copy, PartialEq, Eq, Structural)]
pub struct Reaper {
    pub target: usize,
    pub reaped: usize,
    pub count: usize,
    pub sweep: u8,
    pub index: usize,
    pub progress: bool,
    pub phase: ReapPhase,
}

/// The action that stands for phase `p` of `r`.
pub open spec fn pending_action(r: Reaper) -> ReapAction {
    match r.phase {
        ReapPhase::AwaitFree => ReapAction::CheckFree,
        ReapPhase::AwaitFreeAfterEvict => ReapAction::CheckFree,
        ReapPhase::AwaitGather => ReapAction::Gather,
        ReapPhase::AwaitBits => ReapAction::ReadBits(r.index),
        ReapPhase::AwaitEvict => ReapAction::Evict(r.index),
        ReapPhase::AwaitClear => ReapAction::ClearAccessed(r.index),
        ReapPhase::Finished => ReapAction::Done(r.reaped),
    }
}

/// The end of a round: another round if this one evicted something, else done.
pub open spec fn end_round(r: Reaper) -> (Reaper, ReapAction) {
    if r.progress {
        (Reaper { phase: ReapPhase::AwaitFree, ..r }, ReapAction::CheckFree)
    } else {
        (Reaper { phase: ReapPhase::Finished, ..r }, ReapAction::Done(r.reaped))
    }
}

/// On to victim `r.index` (moving to the next sweep past the end of the list).
pub open spec fn next_victim(r: Reaper) -> (Reaper, ReapAction) {
    if r.index >= r.count {
        if r.sweep < 2 {
            let r2 = Reaper { sweep: (r.sweep + 1) as u8, index: 0, phase: ReapPhase::AwaitBits, ..r };
            (r2, ReapAction::ReadBits(0))
        } else {
            end_round(r)
        }
    } else {
        (Reaper { phase: ReapPhase::AwaitBits, ..r }, ReapAction::ReadBits(r.index))
    }
}

/// One step of the reaper.
pub open spec fn reap_transition(r: Reaper, e: ReapEvent) -> (Reaper, ReapAction) {
    match (r.phase, e) {
        (ReapPhase::AwaitFree, ReapEvent::Free(n)) => if n >= r.target {
            (Reaper { phase: ReapPhase::Finished, ..r }, ReapAction::Done(r.reaped))
        } else {
            (Reaper { phase: ReapPhase::AwaitGather, ..r }, ReapAction::Gather)
        },
        (ReapPhase::AwaitGather, ReapEvent::Gathered(c)) => if c == 0 {
            (Reaper { phase: ReapPhase::Finished, ..r }, ReapAction::Done(r.reaped))
        } else {
            (Reaper { count: c, progress: false, sweep: 0, index: 0, phase: ReapPhase::AwaitBits, ..r }, ReapAction::ReadBits(0))
        },
        (ReapPhase::AwaitBits, ReapEvent::Bits(None)) => next_victim(Reaper { index: (r.index + 1) as usize, ..r }),
        (ReapPhase::AwaitBits, ReapEvent::Bits(Some(b))) => if takes(r.sweep, b.accessed, b.dirty) {
            (Reaper { phase: ReapPhase::AwaitEvict, ..r }, ReapAction::Evict(r.index))
        } else if b.accessed && r.sweep >= 1 {
            (Reaper { phase: ReapPhase::AwaitClear, ..r }, ReapAction::ClearAccessed(r.index))
        } else {
            next_victim(Reaper { index: (r.index + 1) as usize, ..r })
        },
        (ReapPhase::AwaitEvict, ReapEvent::Evicted(ok)) => if ok {
            (
                Reaper { reaped: (r.reaped + 1) as usize, progress: true, phase: ReapPhase::AwaitFreeAfterEvict, ..r },
                ReapAction::CheckFree,
            )
        } else {
            next_victim(Reaper { index: (r.index + 1) as usize, ..r })
        },
        (ReapPhase::AwaitFreeAfterEvict, ReapEvent::Free(n)) => if n >= r.target {
            end_round(r)
        } else {
            next_victim(Reaper { index: (r.index + 1) as usize, ..r })
        },
        (ReapPhase::AwaitClear, ReapEvent::Cleared) => next_victim(Reaper { index: (r.index + 1) as usize, ..r }),
        _ => (r, pending_action(r)),
    }
}

/// Starts reaping towards `target` free frames: first the pool is checked. The caller carries
/// out each action and hands the result to `Reaper::step` until it says `Done`.
pub fn reap_to(target: usize) -> (r: (Reaper, ReapAction))
    ensures
        r.0.target == target,
        r.0.reaped == 0,
        r.0.phase == ReapPhase::AwaitFree,
        r.0.index == 0,
        r.0.count == 0,
        r.0.sweep == 0,
        !r.0.progress,
        r.1 == ReapAction::CheckFree,
{
    (Reaper { target, reaped: 0, count: 0, sweep: 0, index: 0, progress: false, phase: ReapPhase::AwaitFree }, ReapAction::CheckFree)
}

impl Reaper {
    /// The reaper's index stays within the list while it works through it.
    pub open spec fn wf(&self) -> bool {
        &&& self.sweep <= 2
        &&& self.index <= self.count
        &&& (self.phase == ReapPhase::AwaitBits || self.phase == ReapPhase::AwaitEvict || self.phase
            == ReapPhase::AwaitClear || self.phase == ReapPhase::AwaitFreeAfterEvict) ==> self.index < self.count
    }

    fn next_victim_exec(&mut self) -> (a: ReapAction)
        requires
            old(self).sweep <= 2,
            old(self).index <= old(self).count,
            old(self).count > 0,
        ensures
            (*final(self), a) == next_victim(*old(self)),
            final(self).wf(),
    {
        if self.index >= self.count {
            if self.sweep < 2 {
                self.sweep = self.sweep + 1;
                self.index = 0;
                self.phase = ReapPhase::AwaitBits;
                return ReapAction::ReadBits(0);
            }
            return self.end_round_exec();
        }
        self.phase = ReapPhase::AwaitBits;
        ReapAction::ReadBits(self.index)
    }

    fn end_round_exec(&mut self) -> (a: ReapAction)
        requires
            old(self).sweep <= 2,
            old(self).index <= old(self).count,
        ensures
            (*final(self), a) == end_round(*old(self)),
            final(self).wf(),
    {
        if self.progress {
            self.phase = ReapPhase::AwaitFree;
            ReapAction::CheckFree
        } else {
            self.phase = ReapPhase::Finished;
            ReapAction::Done(self.reaped)
        }
    }

    /// Takes the caller's report of the last action and says what to do next.
    pub fn step(&mut self, e: ReapEvent) -> (a: ReapAction)
        requires
            old(self).wf(),
            old(self).reaped < usize::MAX,
        ensures
            (*final(self), a) == reap_transition(*old(self), e),
            final(self).wf(),
    {
        match (self.phase, e) {
            (ReapPhase::AwaitFree, ReapEvent::Free(n)) => {
                if n >= self.target {
                    self.phase = ReapPhase::Finished;
                    ReapAction::Done(self.reaped)
                } else {
                    self.phase = ReapPhase::AwaitGather;
                    ReapAction::Gather
                }
            },
            (ReapPhase::AwaitGather, ReapEvent::Gathered(c)) => {
                if c == 0 {
                    self.phase = ReapPhase::Finished;
                    ReapAction::Done(self.reaped)
                } else {
                    self.count = c;
                    self.progress = false;
                    self.sweep = 0;
                    self.index = 0;
                    self.phase = ReapPhase::AwaitBits;
                    ReapAction::ReadBits(0)
                }
            },
            (ReapPhase::AwaitBits, ReapEvent::Bits(None)) => {
                self.index = self.index + 1;
                self.next_victim_exec()
            },
            (ReapPhase::AwaitBits, ReapEvent::Bits(Some(b))) => {
                if sweep_takes(self.sweep, b.accessed, b.dirty) {
                    self.phase = ReapPhase::AwaitEvict;
                    ReapAction::Evict(self.index)
                } else if b.accessed && self.sweep >= 1 {
                    self.phase = ReapPhase::AwaitClear;
                    ReapAction::ClearAccessed(self.index)
                } else {
                    self.index = self.index + 1;
                    self.next_victim_exec()
                }
            },
            (ReapPhase::AwaitEvict, ReapEvent::Evicted(ok)) => {
                if ok {
                    self.reaped = self.reaped + 1;
                    self.progress = true;
                    self.phase = ReapPhase::AwaitFreeAfterEvict;
                    ReapAction::CheckFree
                } else {
                    self.index = self.index + 1;
                    self.next_victim_exec()
                }
            },
            (ReapPhase::AwaitFreeAfterEvict, ReapEvent::Free(n)) => {
                if n >= self.target {
                    self.end_round_exec()
                } else {
                    self.index = self.index + 1;
                    self.next_victim_exec()
                }
            },
            (ReapPhase::AwaitClear, ReapEvent::Cleared) => {
                self.index = self.index + 1;
                self.next_victim_exec()
            },
            _ => match self.phase {
                ReapPhase::AwaitFree => ReapAction::CheckFree,
                ReapPhase::AwaitFreeAfterEvict => ReapAction::CheckFree,
                ReapPhase::AwaitGather => ReapAction::Gather,
                ReapPhase::AwaitBits => ReapAction::ReadBits(self.index),
                ReapPhase::AwaitEvict => ReapAction::Evict(self.index),
                ReapPhase::AwaitClear => ReapAction::ClearAccessed(self.index),
                ReapPhase::Finished => ReapAction::Done(self.reaped),
            },
        }
    }
}

/// The reaper evicts only what the current sweep allows: in sweep 0 only pages neither
/// referenced nor dirty, in sweep 1 only unreferenced pages; and it asks to evict only a
/// page whose bits it was just given.
pub proof fn lemma_evicts_only_allowed(r: Reaper, e: ReapEvent)
    requires
        r.phase != ReapPhase::AwaitEvict,
        reap_transition(r, e).1 is Evict,
    ensures
        e matches ReapEvent::Bits(Some(b)) && takes(r.sweep, b.accessed, b.dirty),
        r.phase == ReapPhase::AwaitBits,
        reap_transition(r, e).1 == ReapAction::Evict(r.index),
{
}

/// The count of evicted pages never goes down, and goes up only on a reported eviction.
pub proof fn lemma_reaped_counts_evictions(r: Reaper, e: ReapEvent)
    requires
        r.reaped < usize::MAX,
    ensures
        reap_transition(r, e).0.reaped == (if r.phase == ReapPhase::AwaitEvict && e == ReapEvent::Evicted(true) {
            r.reaped + 1
        } else {
            r.reaped as int
        }),
{
}

/// Once finished, the reaper stays finished and keeps reporting the same count.
pub proof fn lemma_finished_stays(r: Reaper, e: ReapEvent)
    requires
        r.phase == ReapPhase::Finished,
    ensures
        reap_transition(r, e) == (r, ReapAction::Done(r.reaped)),
{
}

} // verus!
