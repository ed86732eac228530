//! Per-task virtual memory: the list of mapped areas and the pages that were swapped out.
//!
//! Page-table flags are the raw bits of an x86-64 page-table entry.
use vstd::prelude::*;

verus! {

pub const PAGE_SIZE: u64 = 4096;
pub const FLAG_PRESENT: u64 = 1;
pub const FLAG_WRITABLE: u64 = 2;
pub const FLAG_USER_ACCESSIBLE: u64 = 4;
pub const FLAG_ACCESSED: u64 = 32;
pub const FLAG_DIRTY: u64 = 64;

#[derive(Clone, Copy, PartialEq, Eq, Structural, Debug)]
pub enum VmAreaKind {
    /// zero-fill-on-demand
    Anonymous,
}

#[derive(Clone, Copy, PartialEq, Eq, Structural, Debug)]
pub struct VmArea {
    pub start: u64,
    /// exclusive
    pub end: u64,
    pub flags: u64,
    pub kind: VmAreaKind,
}

/// A page that was written out to swap: its address, its swap slot and the flags to restore.
#[derive(Clone, Copy, PartialEq, Eq, Structural, Debug)]
pub struct SwapRecord {
    pub page: u64,
    pub slot: u64,
    pub flags: u64,
}

/// What the page-fault path has to do for a fault the address space can serve.
#[derive(Clone, Copy, PartialEq, Eq, Structural, Debug)]
pub enum FaultAction {
    /// read the page back from `slot` into a fresh frame and map it with `flags`
    SwapIn { page: u64, slot: u64, flags: u64 },
    /// copy the frame at `phys` into a fresh frame and map it writable with `flags`
    CopyOnWrite { page: u64, phys: u64, flags: u64 },
    /// map a zeroed fresh frame with `flags`
    ZeroFill { page: u64, flags: u64 },
}

/// Start of the page holding `addr`.
pub open spec fn page_of(addr: u64) -> u64 {
    (addr - addr % PAGE_SIZE) as u64
}

/// Addresses `start, start + PAGE_SIZE, ...` below `end`: the pages a loop stepping one page at a
/// time from `start` visits.
pub open spec fn page_steps(start: u64, end: u64) -> Seq<u64> {
    let n = if end > start { ((end - start + PAGE_SIZE - 1) / PAGE_SIZE as int) as nat } else { 0nat };
    Seq::new(n, |i: int| (start + i * PAGE_SIZE) as u64)
}

/// Index of the first area that contains `addr`, or -1.
pub open spec fn area_index(areas: Seq<VmArea>, addr: u64, from: int) -> int
    decreases areas.len() - from,
{
    if from < 0 || from >= areas.len() {
        -1
    } else if areas[from].start <= addr && addr < areas[from].end {
        from
    } else {
        area_index(areas, addr, from + 1)
    }
}

/// Index of the first area starting at `start`, or -1.
pub open spec fn area_starting_at(areas: Seq<VmArea>, start: u64, from: int) -> int
    decreases areas.len() - from,
{
    if from < 0 || from >= areas.len() {
        -1
    } else if areas[from].start == start {
        from
    } else {
        area_starting_at(areas, start, from + 1)
    }
}

/// The swap records keyed by page address.
pub open spec fn swap_map(records: Seq<SwapRecord>) -> Map<u64, (u64, u64)>
    decreases records.len(),
{
    if records.len() == 0 {
        Map::empty()
    } else {
        let r = records.last();
        swap_map(records.drop_last()).insert(r.page, (r.slot, r.flags))
    }
}

/// The areas that replace `a` when `[addr, end)` inside it gets `new_flags`.
pub open spec fn split_area(a: VmArea, addr: u64, end: u64, new_flags: u64) -> Seq<VmArea> {
    let below = if addr > a.start {
        seq![VmArea { start: a.start, end: addr, flags: a.flags, kind: a.kind }]
    } else {
        Seq::empty()
    };
    let above = if end < a.end {
        seq![VmArea { start: end, end: a.end, flags: a.flags, kind: a.kind }]
    } else {
        Seq::empty()
    };
    below + seq![VmArea { start: addr, end: end, flags: new_flags, kind: a.kind }] + above
}

proof fn lemma_page_steps_next(start: u64, end: u64)
    requires
        start < end,
        end + PAGE_SIZE <= u64::MAX,
    ensures
        page_steps(start, end) == seq![start] + page_steps((start + PAGE_SIZE) as u64, end),
{
    let a = page_steps(start, end);
    let b = seq![start] + page_steps((start + PAGE_SIZE) as u64, end);
    assert(a.len() == b.len());
    assert forall|i: int| 0 <= i < a.len() implies a[i] == b[i] by {
        if i > 0 {
            assert(b[i] == page_steps((start + PAGE_SIZE) as u64, end)[i - 1]);
        }
    }
    assert(a =~= b);
}

/// Walks the pages of `[start, end)` one page at a time.
fn collect_pages(start: u64, end: u64, out: &mut Vec<u64>)
    requires
        end + PAGE_SIZE <= u64::MAX,
    ensures
        final(out)@ == old(out)@ + page_steps(start, end),
{
    let mut addr = start;
    let ghost base = out@;
    while addr < end
        invariant
            end + PAGE_SIZE <= u64::MAX,
            base + page_steps(start, end) == out@ + page_steps(addr, end),
            addr == start || addr <= end + PAGE_SIZE,
        decreases end + PAGE_SIZE - addr,
    {
        proof {
            lemma_page_steps_next(addr, end);
            assert(out@ + page_steps(addr, end) =~= out@.push(addr) + page_steps((addr + PAGE_SIZE) as u64, end));
        }
        out.push(addr);
        addr = addr + PAGE_SIZE;
    }
    assert(page_steps(addr, end) =~= Seq::<u64>::empty());
    assert(out@ =~= base + page_steps(start, end));
}

pub struct Vmm {
    areas: Vec<VmArea>,
    swapped: Vec<SwapRecord>,
}

impl Vmm {
    pub closed spec fn area_seq(&self) -> Seq<VmArea> {
        self.areas@
    }

    /// page address -> (swap slot, flags to restore)
    pub closed spec fn swapped_map(&self) -> Map<u64, (u64, u64)> {
        swap_map(self.swapped@)
    }

    pub fn new() -> (r: Self)
        ensures
            r.area_seq() == Seq::<VmArea>::empty(),
            r.swapped_map() == Map::<u64, (u64, u64)>::empty(),
    {
        Self { areas: Vec::new(), swapped: Vec::new() }
    }

    pub fn add_area(&mut self, area: VmArea)
        ensures
            final(self).area_seq() == old(self).area_seq().push(area),
            final(self).swapped_map() == old(self).swapped_map(),
    {
        self.areas.push(area);
    }

    pub fn areas(&self) -> (r: &[VmArea])
        ensures
            r@ == self.area_seq(),
    {
        self.areas.as_slice()
    }

    pub fn record_swapped(&mut self, page_vaddr: u64, slot: u64, flags: u64)
        ensures
            final(self).swapped_map() == old(self).swapped_map().insert(page_vaddr, (slot, flags)),
            final(self).area_seq() == old(self).area_seq(),
    {
        self.swapped.push(SwapRecord { page: page_vaddr, slot, flags });
        proof {
            assert(self.swapped@.drop_last() =~= old(self).swapped@);
        }
    }
}


/// The pages a fork visits: every page of every area, in area order, with the flags the
/// mapping gets (`clear` removed from the area's flags).
pub open spec fn fork_pages(areas: Seq<VmArea>, clear: u64) -> Seq<(u64, u64)>
    decreases areas.len(),
{
    if areas.len() == 0 {
        Seq::empty()
    } else {
        let a = areas.last();
        fork_pages(areas.drop_last(), clear) + page_steps(a.start, a.end).map_values(
            |p: u64| (p, a.flags & !clear),
        )
    }
}

/// Every area ends at least a page below the top of the address space, so stepping a page at a
/// time through it never overflows.
pub open spec fn areas_steppable(areas: Seq<VmArea>) -> bool {
    forall|i: int| 0 <= i < areas.len() ==> #[trigger] areas[i].end + PAGE_SIZE <= u64::MAX
}

impl Vmm {
    /// Removes the record for `page`, returning its (slot, flags).
    fn take_swapped(&mut self, page: u64) -> (r: Option<(u64, u64)>)
        ensures
            r == (if old(self).swapped_map().contains_key(page) {
                Some(old(self).swapped_map()[page])
            } else {
                None
            }),
            final(self).swapped_map() == old(self).swapped_map().remove(page),
            final(self).area_seq() == old(self).area_seq(),
    {
        let ghost s = self.swapped@;
        let mut kept: Vec<SwapRecord> = Vec::new();
        let mut res: Option<(u64, u64)> = None;
        let mut i: usize = 0;
        while i < self.swapped.len()
            invariant
                i <= s.len(),
                s == self.swapped@,
                swap_map(kept@) == swap_map(s.subrange(0, i as int)).remove(page),
                res == (if swap_map(s.subrange(0, i as int)).contains_key(page) {
                    Some(swap_map(s.subrange(0, i as int))[page])
                } else {
                    None
                }),
            decreases s.len() - i,
        {
            let rec = self.swapped[i];
            proof {
                assert(s.subrange(0, i as int + 1).drop_last() =~= s.subrange(0, i as int));
                assert(s.subrange(0, i as int + 1).last() == rec);
            }
            if rec.page == page {
                res = Some((rec.slot, rec.flags));
                proof {
                    assert(swap_map(kept@) =~= swap_map(s.subrange(0, i as int + 1)).remove(page));
                }
            } else {
                let ghost kept0 = kept@;
                kept.push(rec);
                proof {
                    assert(kept@.drop_last() =~= kept0);
                    assert(swap_map(kept@) =~= swap_map(s.subrange(0, i as int + 1)).remove(page));
                }
            }
            i = i + 1;
        }
        proof {
            assert(s.subrange(0, s.len() as int) =~= s);
        }
        self.swapped = kept;
        res
    }

    /// First area containing `addr`.
    fn find_area(&self, addr: u64) -> (r: Option<usize>)
        ensures
            match r {
                Some(i) => i as int == area_index(self.area_seq(), addr, 0) && i < self.area_seq().len(),
                None => area_index(self.area_seq(), addr, 0) < 0,
            },
    {
        let mut i: usize = 0;
        while i < self.areas.len()
            invariant
                i <= self.areas@.len(),
                area_index(self.areas@, addr, i as int) == area_index(self.areas@, addr, 0),
            decreases self.areas@.len() - i,
        {
            if self.areas[i].start <= addr && addr < self.areas[i].end {
                return Some(i);
            }
            i = i + 1;
        }
        None
    }

    /// Decides how a page fault at `fault_addr` is served. A swapped-out page is read back
    /// (its record is dropped); otherwise the first area holding the address decides: a present
    /// page (`mapped_phys`) is copied on a write to a writable area, an absent one is zero-filled.
    pub fn handle_fault(&mut self, fault_addr: u64, is_write: bool, mapped_phys: Option<u64>) -> (r: Result<FaultAction, ()>)
        ensures
            final(self).area_seq() == old(self).area_seq(),
            ({
                let page = page_of(fault_addr);
                let areas = old(self).area_seq();
                if old(self).swapped_map().contains_key(page) {
                    &&& r == Ok::<FaultAction, ()>(FaultAction::SwapIn {
                        page,
                        slot: old(self).swapped_map()[page].0,
                        flags: old(self).swapped_map()[page].1,
                    })
                    &&& final(self).swapped_map() == old(self).swapped_map().remove(page)
                } else {
                    &&& final(self).swapped_map() == old(self).swapped_map()
                    &&& r == (if area_index(areas, fault_addr, 0) < 0 {
                        Err::<FaultAction, ()>(())
                    } else {
                        let a = areas[area_index(areas, fault_addr, 0)];
                        match mapped_phys {
                            Some(phys) => if is_write && a.flags & FLAG_WRITABLE != 0 {
                                Ok(FaultAction::CopyOnWrite { page, phys, flags: a.flags })
                            } else {
                                Err(())
                            },
                            None => Ok(FaultAction::ZeroFill { page, flags: a.flags }),
                        }
                    })
                }
            }),
    {
        let page = fault_addr - fault_addr % PAGE_SIZE;
        match self.take_swapped(page) {
            Some((slot, flags)) => {
                return Ok(FaultAction::SwapIn { page, slot, flags });
            },
            None => {},
        }
        proof {
            assert(self.swapped_map() =~= old(self).swapped_map());
        }
        let idx = match self.find_area(fault_addr) {
            Some(i) => i,
            None => {
                return Err(());
            },
        };
        let a = self.areas[idx];
        match mapped_phys {
            Some(phys) => {
                if !is_write || a.flags & FLAG_WRITABLE == 0 {
                    return Err(());
                }
                Ok(FaultAction::CopyOnWrite { page, phys, flags: a.flags })
            },
            None => Ok(FaultAction::ZeroFill { page, flags: a.flags }),
        }
    }

    /// Moves the end of the heap area (the first area starting at `heap_start`) to `new_end`,
    /// creating the area when there is none and the heap is not empty.
    pub fn set_heap_end(&mut self, heap_start: u64, new_end: u64, flags: u64)
        ensures
            final(self).swapped_map() == old(self).swapped_map(),
            ({
                let areas = old(self).area_seq();
                let i = area_starting_at(areas, heap_start, 0);
                final(self).area_seq() == if i >= 0 {
                    areas.update(i, VmArea { end: new_end, ..areas[i] })
                } else if new_end > heap_start {
                    areas.push(VmArea { start: heap_start, end: new_end, flags, kind: VmAreaKind::Anonymous })
                } else {
                    areas
                }
            }),
    {
        let mut i: usize = 0;
        while i < self.areas.len()
            invariant
                i <= self.areas@.len(),
                self.areas@ == old(self).areas@,
                self.swapped@ == old(self).swapped@,
                area_starting_at(self.areas@, heap_start, i as int) == area_starting_at(self.areas@, heap_start, 0),
            decreases self.areas@.len() - i,
        {
            if self.areas[i].start == heap_start {
                let mut a = self.areas[i];
                a.end = new_end;
                self.areas.set(i, a);
                return;
            }
            i = i + 1;
        }
        if new_end > heap_start {
            self.add_area(VmArea { start: heap_start, end: new_end, flags, kind: VmAreaKind::Anonymous });
        }
    }

    /// Shrinks the heap to `new_end`. Returns the addresses, one per page from `new_end` up to
    /// `old_end`, whose pages the caller unmaps (where mapped) and frees.
    pub fn shrink_heap(&mut self, heap_start: u64, new_end: u64, old_end: u64, flags: u64) -> (pages: Vec<u64>)
        requires
            old_end + PAGE_SIZE <= u64::MAX,
        ensures
            pages@ == page_steps(new_end, old_end),
            final(self).swapped_map() == old(self).swapped_map(),
            ({
                let areas = old(self).area_seq();
                let i = area_starting_at(areas, heap_start, 0);
                final(self).area_seq() == if i >= 0 {
                    areas.update(i, VmArea { end: new_end, ..areas[i] })
                } else if new_end > heap_start {
                    areas.push(VmArea { start: heap_start, end: new_end, flags, kind: VmAreaKind::Anonymous })
                } else {
                    areas
                }
            }),
    {
        let mut pages: Vec<u64> = Vec::new();
        collect_pages(new_end, old_end, &mut pages);
        assert(pages@ =~= page_steps(new_end, old_end));
        self.set_heap_end(heap_start, new_end, flags);
        pages
    }

    /// Gives `[addr, addr + len)` the flags `new_flags`. The range must lie in one area, which is
    /// split around it. Returns the addresses, one per page of the range, whose mappings the
    /// caller re-flags (where mapped).
    pub fn mprotect(&mut self, addr: u64, len: u64, new_flags: u64) -> (r: Result<Vec<u64>, ()>)
        requires
            addr + len + PAGE_SIZE <= u64::MAX,
        ensures
            final(self).swapped_map() == old(self).swapped_map(),
            ({
                let areas = old(self).area_seq();
                let idx = area_index(areas, addr, 0);
                let end = (addr + len) as u64;
                if idx < 0 || end > areas[idx].end {
                    r is Err && final(self).area_seq() == areas
                } else {
                    &&& r matches Ok(pages) && pages@ == page_steps(addr, end)
                    &&& final(self).area_seq() == areas.subrange(0, idx) + split_area(areas[idx], addr, end, new_flags)
                        + areas.subrange(idx + 1, areas.len() as int)
                }
            }),
    {
        let end = addr + len;
        let idx = match self.find_area(addr) {
            Some(i) => i,
            None => {
                return Err(());
            },
        };
        let area = self.areas[idx];
        if end > area.end {
            return Err(());
        }
        let ghost areas = self.areas@;
        let mut replacements: Vec<VmArea> = Vec::new();
        if addr > area.start {
            replacements.push(VmArea { start: area.start, end: addr, flags: area.flags, kind: area.kind });
        }
        replacements.push(VmArea { start: addr, end, flags: new_flags, kind: area.kind });
        if end < area.end {
            replacements.push(VmArea { start: end, end: area.end, flags: area.flags, kind: area.kind });
        }
        assert(replacements@ =~= split_area(area, addr, end, new_flags));
        self.areas.remove(idx);
        let mut i: usize = 0;
        while i < replacements.len()
            invariant
                i <= replacements@.len(),
                replacements@.len() <= 3,
                idx < areas.len(),
                idx + i <= self.areas@.len(),
                self.areas@ == areas.subrange(0, idx as int) + replacements@.subrange(0, i as int)
                    + areas.subrange(idx + 1, areas.len() as int),
                self.swapped@ == old(self).swapped@,
            decreases replacements@.len() - i,
        {
            let n = self.areas.len();
            assert(idx + i <= n);
            self.areas.insert(idx + i, replacements[i]);
            proof {
                assert(self.areas@ =~= areas.subrange(0, idx as int) + replacements@.subrange(0, i as int + 1)
                    + areas.subrange(idx + 1, areas.len() as int));
            }
            i = i + 1;
        }
        proof {
            assert(replacements@.subrange(0, replacements@.len() as int) =~= replacements@);
        }
        let mut pages: Vec<u64> = Vec::new();
        collect_pages(addr, end, &mut pages);
        assert(pages@ =~= page_steps(addr, end));
        Ok(pages)
    }

    /// Whether every area ends at least a page below the top of the address space (see
    /// `areas_steppable`), so that its pages can be walked for a fork.
    pub fn steppable(&self) -> (r: bool)
        ensures
            r == areas_steppable(self.area_seq()),
    {
        let mut i: usize = 0;
        while i < self.areas.len()
            invariant
                i <= self.area_seq().len(),
                self.areas@ == self.area_seq(),
                forall|k: int| 0 <= k < i ==> #[trigger] self.area_seq()[k].end + PAGE_SIZE <= u64::MAX,
            decreases self.area_seq().len() - i,
        {
            if self.areas[i].end > u64::MAX - PAGE_SIZE {
                return false;
            }
            i = i + 1;
        }
        true
    }

    /// Copy-on-write fork: the child gets the same areas and no swap records; returns with it
    /// every page of every area and the read-only flags both sides map it with. The caller
    /// re-flags the parent's present pages and maps them into the child.
    pub fn fork_cow(&self) -> (r: (Vmm, Vec<(u64, u64)>))
        requires
            areas_steppable(self.area_seq()),
        ensures
            r.0.area_seq() == self.area_seq(),
            r.0.swapped_map() == Map::<u64, (u64, u64)>::empty(),
            r.1@ == fork_pages(self.area_seq(), FLAG_WRITABLE),
            forall|k: int| 0 <= k < r.1@.len() ==> (#[trigger] r.1@[k]).1 & FLAG_WRITABLE == 0,
    {
        proof {
            lemma_fork_cow_read_only(self.area_seq());
        }
        self.fork_pages_with(FLAG_WRITABLE)
    }

    /// Eager fork: the child gets the same areas; returns with it every page of every area and
    /// the flags the copied frames are mapped with in the child.
    pub fn fork_eager(&self) -> (r: (Vmm, Vec<(u64, u64)>))
        requires
            areas_steppable(self.area_seq()),
        ensures
            r.0.area_seq() == self.area_seq(),
            r.0.swapped_map() == Map::<u64, (u64, u64)>::empty(),
            r.1@ == fork_pages(self.area_seq(), 0),
    {
        self.fork_pages_with(0)
    }

    fn fork_pages_with(&self, clear: u64) -> (r: (Vmm, Vec<(u64, u64)>))
        requires
            areas_steppable(self.area_seq()),
        ensures
            r.0.area_seq() == self.area_seq(),
            r.0.swapped_map() == Map::<u64, (u64, u64)>::empty(),
            r.1@ == fork_pages(self.area_seq(), clear),
    {
        let mut child = Vmm::new();
        let mut pages: Vec<(u64, u64)> = Vec::new();
        let mut i: usize = 0;
        assert(self.areas@.subrange(0, 0) =~= Seq::<VmArea>::empty());
        while i < self.areas.len()
            invariant
                i <= self.areas@.len(),
                areas_steppable(self.areas@),
                child.area_seq() == self.areas@.subrange(0, i as int),
                child.swapped_map() == Map::<u64, (u64, u64)>::empty(),
                pages@ == fork_pages(self.areas@.subrange(0, i as int), clear),
            decreases self.areas@.len() - i,
        {
            let a = self.areas[i];
            child.add_area(a);
            let mut steps: Vec<u64> = Vec::new();
            assert(self.areas@[i as int].end + PAGE_SIZE <= u64::MAX);
            collect_pages(a.start, a.end, &mut steps);
            let ghost base = pages@;
            let mut j: usize = 0;
            while j < steps.len()
                invariant
                    j <= steps@.len(),
                    steps@ =~= page_steps(a.start, a.end),
                    pages@ == base + page_steps(a.start, a.end).map_values(|p: u64| (p, a.flags & !clear)).subrange(0, j as int),
                decreases steps@.len() - j,
            {
                pages.push((steps[j], a.flags & !clear));
                proof {
                    assert(pages@ =~= base + page_steps(a.start, a.end).map_values(|p: u64| (p, a.flags & !clear)).subrange(0, j as int + 1));
                }
                j = j + 1;
            }
            proof {
                let sub = self.areas@.subrange(0, i as int + 1);
                assert(sub.drop_last() =~= self.areas@.subrange(0, i as int));
                assert(sub.last() == a);
                assert(page_steps(a.start, a.end).map_values(|p: u64| (p, a.flags & !clear)).subrange(0, j as int)
                    =~= page_steps(a.start, a.end).map_values(|p: u64| (p, a.flags & !clear)));
                assert(pages@ =~= fork_pages(sub, clear));
                assert(child.area_seq() =~= sub);
            }
            i = i + 1;
        }
        proof {
            assert(self.areas@.subrange(0, self.areas@.len() as int) =~= self.areas@);
        }
        (child, pages)
    }
}

proof fn lemma_page_step_in_area(start: u64, end: u64, j: int)
    requires
        0 <= j < page_steps(start, end).len(),
    ensures
        start <= page_steps(start, end)[j] < end,
{
    let d = end - start;
    let n = (d + PAGE_SIZE - 1) / PAGE_SIZE as int;
    assert(j * 4096 < d) by (nonlinear_arith)
        requires
            d > 0,
            0 <= j < n,
            n == (d + 4095) / 4096,
    ;
}

/// A copy-on-write fork shares no page writable: every page it hands back lies in one of the
/// areas and carries that area's flags with the writable bit cleared, so the first write on
/// either side faults and is copied.
pub proof fn lemma_fork_cow_read_only(areas: Seq<VmArea>)
    ensures
        forall|k: int| 0 <= k < fork_pages(areas, FLAG_WRITABLE).len() ==> {
            let (p, f) = #[trigger] fork_pages(areas, FLAG_WRITABLE)[k];
            &&& f & FLAG_WRITABLE == 0
            &&& exists|i: int| 0 <= i < areas.len() && areas[i].start <= p < areas[i].end
                && f == areas[i].flags & !FLAG_WRITABLE
        },
    decreases areas.len(),
{
    let pages = fork_pages(areas, FLAG_WRITABLE);
    if areas.len() > 0 {
        let init = areas.drop_last();
        let a = areas.last();
        lemma_fork_cow_read_only(init);
        let front = fork_pages(init, FLAG_WRITABLE);
        let tail = page_steps(a.start, a.end).map_values(|p: u64| (p, a.flags & !FLAG_WRITABLE));
        assert(pages == front + tail);
        assert forall|k: int| 0 <= k < pages.len() implies {
            let (p, f) = #[trigger] pages[k];
            &&& f & FLAG_WRITABLE == 0
            &&& exists|i: int| 0 <= i < areas.len() && areas[i].start <= p < areas[i].end
                && f == areas[i].flags & !FLAG_WRITABLE
        } by {
            if k < front.len() {
                assert(pages[k] == front[k]);
                let (p, f) = front[k];
                let i = choose|i: int| 0 <= i < init.len() && init[i].start <= p < init[i].end
                    && f == init[i].flags & !FLAG_WRITABLE;
                assert(areas[i] == init[i]);
            } else {
                let j = k - front.len();
                assert(pages[k] == tail[j]);
                lemma_page_step_in_area(a.start, a.end, j);
                let fl = a.flags;
                assert((fl & !2u64) & 2u64 == 0) by (bit_vector);
                assert(areas[areas.len() - 1] == a);
            }
        }
    }
}

} // verus!
