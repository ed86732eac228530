//! The run-time frame allocator: a last-in first-out list of free frames.
use vstd::prelude::*;
use crate::memory::frame_allocator::{FrameAlloc, MemRegion, FRAME_SIZE, PHYS_LIMIT};

verus! {

/// The frames of a usable region as the free list takes them: from its start, every whole
/// frame that fits before its end.
pub open spec fn list_frames(r: MemRegion) -> Seq<u64> {
    if r.usable && r.start <= r.end {
        Seq::new(((r.end - r.start) / (FRAME_SIZE as int)) as nat, |i: int| (r.start + i * FRAME_SIZE) as u64)
    } else {
        Seq::empty()
    }
}

/// The frames of every region of `regions`, in map order.
pub open spec fn map_frames(regions: Seq<MemRegion>) -> Seq<u64>
    decreases regions.len(),
{
    if regions.len() == 0 {
        Seq::empty()
    } else {
        map_frames(regions.drop_last()) + list_frames(regions.last())
    }
}

pub struct FreeListAllocator {
    free: Vec<u64>,
    phys_offset: u64,
}

impl FreeListAllocator {
    /// The free frames; the last is handed out first.
    pub closed spec fn stack(&self) -> Seq<u64> {
        self.free@
    }

    pub closed spec fn offset(&self) -> u64 {
        self.phys_offset
    }

    pub fn empty() -> (r: Self)
        ensures
            r.stack() == Seq::<u64>::empty(),
            r.offset() == 0,
    {
        Self { free: Vec::new(), phys_offset: 0 }
    }

    /// Frees every frame of the usable regions of `regions` but the first `skip` (those the
    /// boot allocator already handed out), in map order.
    pub fn init(&mut self, regions: &Vec<MemRegion>, phys_offset: u64, skip: usize)
        requires
            forall|i: int| 0 <= i < regions@.len() ==> (#[trigger] regions@[i]).end <= PHYS_LIMIT,
        ensures
            final(self).offset() == phys_offset,
            final(self).stack() == old(self).stack() + map_frames(regions@).skip(
                if skip < map_frames(regions@).len() { skip as int } else { map_frames(regions@).len() as int },
            ),
    {
        self.phys_offset = phys_offset;
        let ghost start = self.free@;
        let mut skip = skip;
        let ghost skip0 = skip as int;
        let mut ri: usize = 0;
        while ri < regions.len()
            invariant
                ri <= regions@.len(),
                forall|i: int| 0 <= i < regions@.len() ==> (#[trigger] regions@[i]).end <= PHYS_LIMIT,
                self.phys_offset == phys_offset,
                0 <= skip0,
                ({
                    let done = map_frames(regions@.subrange(0, ri as int));
                    let taken = if skip0 < done.len() { skip0 } else { done.len() as int };
                    &&& skip == skip0 - taken
                    &&& self.free@ == start + done.skip(taken)
                }),
            decreases regions@.len() - ri,
        {
            let region = regions[ri];
            let ghost before = map_frames(regions@.subrange(0, ri as int));
            proof {
                assert(regions@.subrange(0, ri + 1).drop_last() =~= regions@.subrange(0, ri as int));
                assert(regions@.subrange(0, ri + 1).last() == region);
            }
            if region.usable && region.start <= region.end {
                let mut addr = region.start;
                let ghost lf = list_frames(region);
                let mut j: u64 = 0;
                while addr <= region.end && region.end - addr >= FRAME_SIZE
                    invariant
                        region.end <= PHYS_LIMIT,
                        region.usable,
                        region.start <= region.end,
                        lf == list_frames(region),
                        region.start <= addr,
                        addr == region.start + j * FRAME_SIZE,
                        j <= lf.len(),
                        self.phys_offset == phys_offset,
                        0 <= skip0,
                        ({
                            let done = before + lf.subrange(0, j as int);
                            let taken = if skip0 < done.len() { skip0 } else { done.len() as int };
                            &&& skip == skip0 - taken
                            &&& self.free@ == start + done.skip(taken)
                        }),
                    decreases region.end - addr,
                {
                    proof {
                        assert(j < lf.len()) by (nonlinear_arith)
                            requires
                                addr == region.start + j * 4096,
                                region.end - addr >= 4096,
                                lf.len() == (region.end - region.start) / 4096,
                        ;
                        assert(lf[j as int] == addr);
                    }
                    let ghost done = before + lf.subrange(0, j as int);
                    let ghost done2 = before + lf.subrange(0, j + 1);
                    proof {
                        assert(done2 =~= done.push(addr));
                    }
                    if skip > 0 {
                        skip = skip - 1;
                        proof {
                            assert(done.skip(done.len() as int) =~= Seq::<u64>::empty());
                            assert(done2.skip(done2.len() as int) =~= Seq::<u64>::empty());
                        }
                    } else {
                        self.deallocate(addr);
                        proof {
                            assert(0 <= skip0 <= done.len());
                            let a = done.push(addr).skip(skip0);
                            let b = done.skip(skip0).push(addr);
                            assert(a.len() == b.len());
                            assert forall|k: int| 0 <= k < a.len() implies a[k] == b[k] by {
                                if k < done.len() - skip0 {
                                    assert(a[k] == done.push(addr)[skip0 + k]);
                                    assert(b[k] == done.skip(skip0)[k]);
                                }
                            }
                            assert(a =~= b);
                            assert(done2 == done.push(addr));
                        }
                    }
                    addr = addr + FRAME_SIZE;
                    j = j + 1;
                }
                proof {
                    assert(j == lf.len()) by (nonlinear_arith)
                        requires
                            addr == region.start + j * 4096,
                            region.end < addr + 4096,
                            j <= lf.len(),
                            lf.len() == (region.end - region.start) / 4096,
                            region.start <= addr,
                    ;
                    assert(lf.subrange(0, j as int) =~= lf);
                }
            } else {
                proof {
                    assert(before + list_frames(region) =~= before);
                }
            }
            ri = ri + 1;
        }
        proof {
            assert(regions@.subrange(0, regions@.len() as int) =~= regions@);
        }
    }

    /// How many frames are free.
    pub fn free_count(&self) -> (r: usize)
        ensures
            r == self.stack().len(),
    {
        self.free.len()
    }
}

impl FrameAlloc for FreeListAllocator {
    open spec fn alloc_ok(&self) -> bool {
        true
    }

    /// The most recently freed frame.
    fn allocate(&mut self) -> (r: Option<u64>)
        ensures
            final(self).offset() == old(self).offset(),
            old(self).stack().len() == 0 ==> r is None && final(self).stack() == old(self).stack(),
            old(self).stack().len() > 0 ==> r == Some(old(self).stack().last()) && final(self).stack() == old(self).stack().drop_last(),
    {
        self.free.pop()
    }

    /// Puts `frame` on top of the list.
    fn deallocate(&mut self, frame: u64)
        ensures
            final(self).offset() == old(self).offset(),
            final(self).stack() == old(self).stack().push(frame),
    {
        self.free.push(frame);
    }
}

/// Freeing a frame and allocating gives that frame back, and leaves the list as it was.
pub proof fn lemma_free_then_allocate(stack: Seq<u64>, frame: u64)
    ensures
        stack.push(frame).len() > 0,
        stack.push(frame).last() == frame,
        stack.push(frame).drop_last() == stack,
{
    assert(stack.push(frame).drop_last() =~= stack);
}

} // verus!
