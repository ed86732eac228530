//! Physical frame allocation at boot: frames are handed out one after the other from the usable
//! regions of the memory map, in map order. Frames are 4 KiB and named by their start address.
use vstd::prelude::*;

verus! {

pub const FRAME_SIZE: u64 = 4096;

/// Physical addresses have at most 52 bits.
pub const PHYS_LIMIT: u64 = 0x10_0000_0000_0000;

/// A region of the boot memory map: `[start, end)`, usable or not.
#[derive(Debug, Clone, Copy, PartialEq, Eq, Structural)]
pub struct MemRegion {
    pub start: u64,
    pub end: u64,
    pub usable: bool,
}

/// Every region lies below the physical address limit and is not empty.
pub open spec fn regions_ok(regions: Seq<MemRegion>) -> bool {
    forall|i: int| 0 <= i < regions.len() ==> 0 < (#[trigger] regions[i]).end <= PHYS_LIMIT && regions[i].start <= regions[i].end
}

/// A source of physical frames.
pub trait FrameAlloc {
    /// The allocator's own consistency condition, kept by every operation.
    spec fn alloc_ok(&self) -> bool;

    fn allocate(&mut self) -> (r: Option<u64>)
        requires
            old(self).alloc_ok(),
        ensures
            final(self).alloc_ok(),
    ;

    fn deallocate(&mut self, frame: u64)
        requires
            old(self).alloc_ok(),
        ensures
            final(self).alloc_ok(),
    ;
}

/// The frame holding address `a`.
pub open spec fn frame_of(a: u64) -> u64 {
    a & !0xFFFu64
}

/// The frames of region `r` from the frame `c` on (`c` a frame start), in increasing order.
pub open spec fn frames_from_frame(r: MemRegion, c: u64) -> Seq<u64> {
    let last = frame_of((r.end - 1) as u64);
    let n = if c <= last { (last - c) / (FRAME_SIZE as int) + 1 } else { 0 };
    Seq::new(n as nat, |i: int| (c + i * FRAME_SIZE) as u64)
}

/// The frames of region `r`: none unless it is usable, else from its first frame to the frame
/// of its last byte.
pub open spec fn region_frames(r: MemRegion) -> Seq<u64> {
    if r.usable {
        frames_from_frame(r, frame_of(r.start))
    } else {
        Seq::empty()
    }
}

/// The frames of the regions from `idx` on, region by region.
pub open spec fn frames_from(regions: Seq<MemRegion>, idx: int) -> Seq<u64>
    decreases regions.len() - idx,
{
    if idx < 0 || idx >= regions.len() {
        Seq::empty()
    } else {
        region_frames(regions[idx]) + frames_from(regions, idx + 1)
    }
}

/// Hands out the usable frames of the memory map in order; never takes a frame back.
pub struct BootFrameAllocator {
    regions: Vec<MemRegion>,
    region_idx: usize,
    cursor: Option<u64>,
    frames_consumed: usize,
}

impl BootFrameAllocator {
    /// The memory map.
    pub closed spec fn map(&self) -> Seq<MemRegion> {
        self.regions@
    }

    /// The frames still to be handed out, in the order they will be.
    pub closed spec fn remaining(&self) -> Seq<u64> {
        match self.cursor {
            Some(c) => frames_from_frame(self.regions@[self.region_idx as int], c) + frames_from(
                self.regions@,
                self.region_idx + 1,
            ),
            None => frames_from(self.regions@, self.region_idx as int),
        }
    }

    pub closed spec fn consumed(&self) -> nat {
        self.frames_consumed as nat
    }

    pub closed spec fn wf(&self) -> bool {
        &&& regions_ok(self.regions@)
        &&& frames_from(self.regions@, 0).len() < usize::MAX
        &&& self.frames_consumed <= frames_from(self.regions@, 0).len()
        &&& self.region_idx <= self.regions@.len()
        &&& self.cursor is None ==> self.region_idx == self.regions@.len()
        &&& self.cursor matches Some(c) ==> {
            &&& self.region_idx < self.regions@.len()
            &&& self.regions@[self.region_idx as int].usable
            &&& c % FRAME_SIZE == 0
            &&& frame_of(self.regions@[self.region_idx as int].start) <= c
            &&& c <= frame_of((self.regions@[self.region_idx as int].end - 1) as u64)
        }
        &&& frames_from(self.regions@, 0) == frames_from(self.regions@, 0).subrange(0, self.frames_consumed as int)
            + self.remaining()
    }

    /// An allocator over the memory map `regions`, none of whose usable frames is in use yet.
    pub fn new(regions: Vec<MemRegion>) -> (r: Self)
        requires
            regions_ok(regions@),
            frames_from(regions@, 0).len() < usize::MAX,
        ensures
            r.wf(),
            r.map() == regions@,
            r.remaining() == frames_from(regions@, 0),
            r.consumed() == 0,
    {
        let mut a = Self { regions, region_idx: 0, cursor: None, frames_consumed: 0 };
        proof {
            assert(frames_from(a.regions@, 0).subrange(0, 0) =~= Seq::<u64>::empty());
            assert(frames_from(a.regions@, 0) =~= Seq::<u64>::empty() + a.remaining());
        }
        a.seek_to_first_usable_frame();
        a
    }

    proof fn lemma_frame_bounds(r: MemRegion)
        requires
            0 < r.end <= PHYS_LIMIT,
        ensures
            frame_of(r.start) % FRAME_SIZE == 0,
            frame_of((r.end - 1) as u64) % FRAME_SIZE == 0,
            frame_of((r.end - 1) as u64) < PHYS_LIMIT,
            frame_of(r.start) <= r.start,
    {
        let s = r.start;
        let e = (r.end - 1) as u64;
        assert(frame_of(s) % 4096 == 0 && frame_of(s) <= s) by (bit_vector);
        assert(frame_of(e) % 4096 == 0 && frame_of(e) <= e) by (bit_vector);
    }

    proof fn lemma_step(r: MemRegion, c: u64)
        requires
            0 < r.end <= PHYS_LIMIT,
            c % FRAME_SIZE == 0,
            c <= frame_of((r.end - 1) as u64),
        ensures
            frames_from_frame(r, c).len() > 0,
            frames_from_frame(r, c)[0] == c,
            frames_from_frame(r, c).drop_first() == frames_from_frame(r, (c + FRAME_SIZE) as u64),
            c + FRAME_SIZE < PHYS_LIMIT + FRAME_SIZE,
    {
        Self::lemma_frame_bounds(r);
        let last = frame_of((r.end - 1) as u64);
        let d = (last - c) as int;
        assert(d % 4096 == 0) by (nonlinear_arith)
            requires
                d == last - c,
                last % 4096 == 0,
                c % 4096 == 0,
                c <= last,
        ;
        let a = frames_from_frame(r, c);
        let b = frames_from_frame(r, (c + FRAME_SIZE) as u64);
        if c + FRAME_SIZE <= last {
            assert((d - 4096) / 4096 + 1 == d / 4096) by (nonlinear_arith)
                requires
                    d % 4096 == 0,
                    d >= 4096,
            ;
        } else {
            assert(d / 4096 == 0) by (nonlinear_arith)
                requires
                    d % 4096 == 0,
                    0 <= d < 4096,
            ;
        }
        assert(a.drop_first() =~= b);
    }

    /// Moves to the first frame that can be handed out, skipping regions with none left.
    fn seek_to_first_usable_frame(&mut self)
        requires
            regions_ok(old(self).regions@),
            frames_from(old(self).regions@, 0).len() < usize::MAX,
            old(self).frames_consumed <= frames_from(old(self).regions@, 0).len(),
            old(self).region_idx <= old(self).regions@.len(),
            old(self).cursor matches Some(c) ==> {
                &&& old(self).region_idx < old(self).regions@.len()
                &&& old(self).regions@[old(self).region_idx as int].usable
                &&& c % FRAME_SIZE == 0
                &&& frame_of(old(self).regions@[old(self).region_idx as int].start) <= c
            },
            frames_from(old(self).regions@, 0) == frames_from(old(self).regions@, 0).subrange(0, old(self).frames_consumed as int)
                + old(self).remaining(),
        ensures
            final(self).wf(),
            final(self).map() == old(self).map(),
            final(self).remaining() == old(self).remaining(),
            final(self).consumed() == old(self).consumed(),
    {
        let ghost rem = self.remaining();
        while self.region_idx < self.regions.len()
            invariant
                regions_ok(self.regions@),
                self.regions@ == old(self).regions@,
                self.frames_consumed == old(self).frames_consumed,
                self.region_idx <= self.regions@.len(),
                self.cursor matches Some(c) ==> {
                    &&& self.region_idx < self.regions@.len()
                    &&& self.regions@[self.region_idx as int].usable
                    &&& c % FRAME_SIZE == 0
                    &&& frame_of(self.regions@[self.region_idx as int].start) <= c
                },
                self.remaining() == rem,
            ensures
                regions_ok(self.regions@),
                self.regions@ == old(self).regions@,
                self.frames_consumed == old(self).frames_consumed,
                self.remaining() == rem,
                self.region_idx <= self.regions@.len(),
                self.cursor is None ==> self.region_idx == self.regions@.len(),
                self.cursor matches Some(c) ==> {
                    &&& self.region_idx < self.regions@.len()
                    &&& self.regions@[self.region_idx as int].usable
                    &&& c % FRAME_SIZE == 0
                    &&& frame_of(self.regions@[self.region_idx as int].start) <= c
                    &&& c <= frame_of((self.regions@[self.region_idx as int].end - 1) as u64)
                },
            decreases self.regions@.len() - self.region_idx,
        {
            let region = self.regions[self.region_idx];
            proof {
                Self::lemma_frame_bounds(region);
            }
            if region.usable {
                let start_frame = region.start & !0xFFFu64;
                let end_frame = (region.end - 1) & !0xFFFu64;
                let candidate = match self.cursor {
                    Some(c) => c,
                    None => start_frame,
                };
                if candidate <= end_frame {
                    self.cursor = Some(candidate);
                    proof {
                        if old(self).cursor is None || self.cursor != old(self).cursor {
                            assert(frames_from_frame(region, start_frame) =~= region_frames(region));
                        }
                    }
                    break;
                }
                proof {
                    assert(frames_from_frame(region, candidate) =~= Seq::<u64>::empty());
                    assert(frames_from(self.regions@, self.region_idx as int) =~= region_frames(region) + frames_from(
                        self.regions@,
                        self.region_idx + 1,
                    ));
                    if self.cursor is None {
                        assert(frames_from_frame(region, start_frame) =~= region_frames(region));
                    }
                }
            } else {
                proof {
                    assert(region_frames(region) =~= Seq::<u64>::empty());
                }
            }
            proof {
                assert(frames_from(self.regions@, self.region_idx as int) == region_frames(region) + frames_from(
                    self.regions@,
                    self.region_idx + 1,
                ));
            }
            self.region_idx = self.region_idx + 1;
            self.cursor = None;
            proof {
                assert(self.remaining() =~= rem);
            }
        }
        proof {
            if self.region_idx == self.regions@.len() {
                assert(frames_from(self.regions@, self.region_idx as int) =~= Seq::<u64>::empty());
            }
        }
    }

    /// How many frames have been handed out.
    pub fn frames_consumed(&self) -> (r: usize)
        ensures
            r == self.consumed(),
    {
        self.frames_consumed
    }
}

impl FrameAlloc for BootFrameAllocator {
    open spec fn alloc_ok(&self) -> bool {
        self.wf()
    }

    /// The next usable frame of the map, in order.
    fn allocate(&mut self) -> (r: Option<u64>)
        ensures
            final(self).map() == old(self).map(),
            old(self).remaining().len() == 0 ==> r is None && final(self).remaining() == old(self).remaining()
                && final(self).consumed() == old(self).consumed(),
            old(self).remaining().len() > 0 ==> r == Some(old(self).remaining()[0]) && final(self).remaining()
                == old(self).remaining().drop_first() && final(self).consumed() == old(self).consumed() + 1,
    {
        let frame = match self.cursor {
            Some(f) => f,
            None => {
                proof {
                    assert(frames_from(self.regions@, self.region_idx as int) =~= Seq::<u64>::empty());
                }
                return None;
            },
        };
        let ghost r = self.regions@[self.region_idx as int];
        let ghost last = frame_of((r.end - 1) as u64);
        let ghost rem = self.remaining();
        proof {
            Self::lemma_frame_bounds(r);
            Self::lemma_step(r, frame);
            assert(rem[0] == frame);
            assert(rem.drop_first() =~= frames_from_frame(r, (frame + FRAME_SIZE) as u64) + frames_from(self.regions@, self.region_idx + 1));
            let all = frames_from(self.regions@, 0);
            let k = self.frames_consumed as int;
            let s1 = all.subrange(0, k);
            assert(all == s1 + rem);
            assert(all.len() == k + rem.len());
            assert((s1 + rem)[k] == rem[0]);
            assert(all[k] == frame);
            assert(all.subrange(0, k + 1) =~= s1.push(frame));
            assert(all.subrange(0, k + 1) + rem.drop_first() =~= s1 + rem);
        }
        self.cursor = Some(frame + FRAME_SIZE);
        self.frames_consumed = self.frames_consumed + 1;
        self.seek_to_first_usable_frame();
        Some(frame)
    }

    /// Boot frames are permanent: giving one back does nothing.
    fn deallocate(&mut self, frame: u64)
        ensures
            *final(self) == *old(self),
    {
    }
}

} // verus!
