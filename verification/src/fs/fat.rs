//! A byte stream with a cursor over a sector device: what the FAT driver reads, writes and
//! seeks. Each access goes through whole sectors; a write reads the sector, changes the bytes
//! and writes the sector back.
use vstd::prelude::*;
use crate::io::disk::DiskDevice;

verus! {

/// The error the FAT driver sees for any failed device access.
#[derive(Debug, Clone, Copy, PartialEq, Eq, Structural)]
pub struct FatIoError;

/// Where a seek goes: from the start, from the end or from the cursor.
#[derive(Debug, Clone, Copy, PartialEq, Eq, Structural)]
pub enum SeekTarget {
    Start(u64),
    End(i64),
    Current(i64),
}

pub struct DiskIo<D: DiskDevice> {
    dev: D,
    pos: u64,
    sector_buf: Vec<u8>,
}

/// `s` with `part` written over it from `at` on.
pub open spec fn overwrite(s: Seq<u8>, at: int, part: Seq<u8>) -> Seq<u8> {
    s.subrange(0, at) + part + s.subrange(at + part.len(), s.len() as int)
}

/// The bytes of the device's whole sectors.
pub open spec fn whole_sectors<D: DiskDevice>(d: D) -> int {
    (d.contents().len() / d.sector_len()) as int * d.sector_len() as int
}

impl<D: DiskDevice> DiskIo<D> {
    pub closed spec fn device(&self) -> D {
        self.dev
    }

    /// The cursor.
    pub closed spec fn position(&self) -> u64 {
        self.pos
    }

    /// The device is usable and the sector buffer holds a whole sector.
    pub closed spec fn wf(&self) -> bool {
        &&& self.dev.device_ok()
        &&& self.dev.sector_len() > 0
        &&& self.sector_buf@.len() == self.dev.sector_len()
    }

    pub fn new(dev: D) -> (r: Self)
        requires
            dev.device_ok(),
            dev.sector_len() > 0,
        ensures
            r.wf(),
            r.device() == dev,
            r.position() == 0,
    {
        let n = dev.sector_size();
        let mut sector_buf: Vec<u8> = Vec::new();
        let mut i: usize = 0;
        while i < n
            invariant
                i <= n,
                sector_buf@.len() == i,
            decreases n - i,
        {
            sector_buf.push(0);
            i = i + 1;
        }
        Self { dev, pos: 0, sector_buf }
    }

    /// Fills `buf` from the cursor on, advancing the cursor; fails on the first sector the
    /// device cannot read (past the end, or a checksum mismatch).
    pub fn read(&mut self, buf: &mut [u8]) -> (r: Result<usize, FatIoError>)
        requires
            old(self).wf(),
            old(self).position() + old(buf)@.len() + 2 * old(self).device().sector_len() <= usize::MAX,
        ensures
            final(self).wf(),
            final(self).device().contents() == old(self).device().contents(),
            final(self).device().sector_len() == old(self).device().sector_len(),
            final(buf)@.len() == old(buf)@.len(),
            old(buf)@.len() == 0 ==> r == Ok::<usize, FatIoError>(0) && final(self).position() == old(self).position(),
            r is Ok && old(buf)@.len() > 0 ==> {
                let p = old(self).position() as int;
                &&& r == Ok::<usize, FatIoError>(old(buf)@.len() as usize)
                &&& p + old(buf)@.len() <= old(self).device().contents().len()
                &&& final(buf)@ == old(self).device().contents().subrange(p, p + old(buf)@.len())
                &&& final(self).position() == p + old(buf)@.len()
            },
    {
        let ss = self.dev.sector_size();
        let ghost pos0 = self.pos as int;
        let ghost contents = self.dev.contents();
        let len = buf.len();
        let mut done: usize = 0;
        while done < len
            invariant
                self.wf(),
                ss == self.dev.sector_len(),
                ss > 0,
                len == buf@.len(),
                buf@.len() == old(buf)@.len(),
                done <= len,
                self.pos == pos0 + done,
                pos0 + len + 2 * ss <= usize::MAX,
                self.dev.contents() == contents,
                contents == old(self).device().contents(),
                ss == old(self).device().sector_len(),
                done > 0 ==> pos0 + done <= contents.len(),
                forall|k: int| 0 <= k < done ==> #[trigger] buf@[k] == contents[pos0 + k],
            decreases len - done,
        {
            let lba = self.pos / (ss as u64);
            let off = (self.pos % (ss as u64)) as usize;
            proof {
                vstd::arithmetic::div_mod::lemma_fundamental_div_mod(self.pos as int, ss as int);
                assert(lba * ss + off == self.pos && (lba + 1) * ss == lba * ss + ss) by (nonlinear_arith)
                    requires
                        self.pos as int == ss as int * (self.pos as int / ss as int) + self.pos as int % ss as int,
                        lba as int == self.pos as int / ss as int,
                        off as int == self.pos as int % ss as int,
                ;
            }
            let res = self.dev.read_sector(lba, &mut self.sector_buf);
            if res.is_err() {
                return Err(FatIoError);
            }
            let avail = ss - off;
            let to_copy = if avail < len - done { avail } else { len - done };
            let ghost sector = self.sector_buf@;
            let mut i: usize = 0;
            while i < to_copy
                invariant
                    i <= to_copy,
                    done + to_copy <= len,
                    off + to_copy <= ss,
                    len == buf@.len(),
                    buf@.len() == old(buf)@.len(),
                    self.sector_buf@ == sector,
                    sector.len() == ss,
                    (lba + 1) * ss <= contents.len(),
                    (lba + 1) * ss == lba * ss + ss,
                    lba * ss + off == pos0 + done,
                    sector.subrange(0, ss as int) == contents.subrange(lba * ss, (lba + 1) * ss),
                    forall|k: int| 0 <= k < done + i ==> #[trigger] buf@[k] == contents[pos0 + k],
                decreases to_copy - i,
            {
                proof {
                    assert(sector.subrange(0, ss as int)[off + i] == sector[off + i]);
                    assert(contents.subrange(lba * ss, (lba + 1) * ss)[off + i] == contents[lba * ss + (off + i)]);
                }
                buf[done + i] = self.sector_buf[off + i];
                i = i + 1;
            }
            done = done + to_copy;
            self.pos = self.pos + to_copy as u64;
        }
        proof {
            if len > 0 {
                assert(buf@ =~= contents.subrange(pos0, pos0 + len));
            }
        }
        Ok(len)
    }

    /// Writes `buf` from the cursor on, advancing the cursor: each sector touched is read,
    /// changed and written back. Fails on the first sector the device cannot read or write.
    pub fn write(&mut self, buf: &[u8]) -> (r: Result<usize, FatIoError>)
        requires
            old(self).wf(),
            old(self).position() + buf@.len() + 2 * old(self).device().sector_len() <= usize::MAX,
        ensures
            final(self).wf(),
            final(self).device().contents().len() == old(self).device().contents().len(),
            final(self).device().sector_len() == old(self).device().sector_len(),
            buf@.len() == 0 ==> r == Ok::<usize, FatIoError>(0) && final(self).position() == old(self).position()
                && final(self).device().contents() == old(self).device().contents(),
            r is Ok && buf@.len() > 0 ==> {
                let p = old(self).position() as int;
                &&& r == Ok::<usize, FatIoError>(buf@.len() as usize)
                &&& p + buf@.len() <= old(self).device().contents().len()
                &&& final(self).device().contents() == overwrite(old(self).device().contents(), p, buf@)
                &&& final(self).position() == p + buf@.len()
            },
    {
        let ss = self.dev.sector_size();
        let ghost pos0 = self.pos as int;
        let ghost contents0 = self.dev.contents();
        let len = buf.len();
        let mut done: usize = 0;
        while done < len
            invariant
                self.wf(),
                ss == self.dev.sector_len(),
                ss > 0,
                len == buf@.len(),
                done <= len,
                self.pos == pos0 + done,
                pos0 + len + 2 * ss <= usize::MAX,
                contents0 == old(self).device().contents(),
                ss == old(self).device().sector_len(),
                self.dev.contents().len() == contents0.len(),
                done > 0 ==> pos0 + done <= contents0.len(),
                forall|k: int|
                    0 <= k < contents0.len() ==> #[trigger] self.dev.contents()[k] == (if pos0 <= k < pos0 + done {
                        buf@[k - pos0]
                    } else {
                        contents0[k]
                    }),
            decreases len - done,
        {
            let lba = self.pos / (ss as u64);
            let off = (self.pos % (ss as u64)) as usize;
            proof {
                vstd::arithmetic::div_mod::lemma_fundamental_div_mod(self.pos as int, ss as int);
                assert(lba * ss + off == self.pos && (lba + 1) * ss == lba * ss + ss) by (nonlinear_arith)
                    requires
                        self.pos as int == ss as int * (self.pos as int / ss as int) + self.pos as int % ss as int,
                        lba as int == self.pos as int / ss as int,
                        off as int == self.pos as int % ss as int,
                ;
            }
            let ghost before = self.dev.contents();
            let res = self.dev.read_sector(lba, &mut self.sector_buf);
            if res.is_err() {
                return Err(FatIoError);
            }
            let avail = ss - off;
            let to_copy = if avail < len - done { avail } else { len - done };
            let ghost sector = self.sector_buf@;
            let ghost base = lba * ss;
            proof {
                assert forall|j: int| 0 <= j < ss implies sector[j] == before[base + j] by {
                    assert(sector.subrange(0, ss as int)[j] == sector[j]);
                    assert(before.subrange(base, base + ss)[j] == before[base + j]);
                }
            }
            let mut i: usize = 0;
            while i < to_copy
                invariant
                    i <= to_copy,
                    done + to_copy <= len,
                    off + to_copy <= ss,
                    len == buf@.len(),
                    self.sector_buf@.len() == ss,
                    self.wf(),
                    ss == self.dev.sector_len(),
                    self.dev.contents() == before,
                    self.pos == pos0 + done,
                    forall|j: int| 0 <= j < ss ==> #[trigger] self.sector_buf@[j] == (if off <= j < off + i {
                        buf@[done + j - off]
                    } else {
                        sector[j]
                    }),
                decreases to_copy - i,
            {
                self.sector_buf.set(off + i, buf[done + i]);
                i = i + 1;
            }
            proof {
                assert((lba + 1) * ss <= before.len());
            }
            let wres = self.dev.write_sector(lba, &self.sector_buf);
            if wres.is_err() {
                return Err(FatIoError);
            }
            proof {
                let now = self.dev.contents();
                assert forall|k: int| 0 <= k < contents0.len() implies #[trigger] now[k] == (if pos0 <= k < pos0 + done + to_copy {
                    buf@[k - pos0]
                } else {
                    contents0[k]
                }) by {
                    if base <= k < base + ss {
                        assert(now[k] == self.sector_buf@.subrange(0, ss as int)[k - base]);
                        assert(self.sector_buf@[k - base] == self.sector_buf@.subrange(0, ss as int)[k - base]);
                    } else if k < base {
                        assert(now[k] == before.subrange(0, base)[k]);
                        assert(before[k] == before.subrange(0, base)[k]);
                    } else {
                        assert(now[k] == before.subrange(base + ss, before.len() as int)[k - base - ss]);
                        assert(before[k] == before.subrange(base + ss, before.len() as int)[k - base - ss]);
                    }
                }
            }
            done = done + to_copy;
            self.pos = self.pos + to_copy as u64;
        }
        proof {
            if len > 0 {
                assert(self.dev.contents() =~= overwrite(contents0, pos0, buf@));
            } else {
                assert(self.dev.contents() =~= contents0);
            }
        }
        Ok(len)
    }

    /// Moves the cursor; returns the new position.
    pub fn seek(&mut self, target: SeekTarget) -> (r: Result<u64, FatIoError>)
        requires
            old(self).wf(),
            match target {
                SeekTarget::Start(_) => true,
                SeekTarget::End(n) => i64::MIN <= whole_sectors(old(self).device()) + n <= i64::MAX
                    && old(self).device().contents().len() <= i64::MAX,
                SeekTarget::Current(n) => i64::MIN <= old(self).position() + n <= i64::MAX && old(self).position() <= i64::MAX,
            },
        ensures
            final(self).wf(),
            final(self).device() == old(self).device(),
            r == Ok::<u64, FatIoError>(final(self).position()),
            match target {
                SeekTarget::Start(n) => final(self).position() == n,
                SeekTarget::End(n) => final(self).position() == (whole_sectors(old(self).device()) + n) as u64,
                SeekTarget::Current(n) => final(self).position() == (old(self).position() + n) as u64,
            },
    {
        self.pos = match target {
            SeekTarget::Start(n) => n,
            SeekTarget::End(n) => {
                let count = self.dev.sector_count();
                let size = self.dev.sector_size() as u64;
                proof {
                    let len = self.dev.contents().len() as int;
                    let ss = self.dev.sector_len() as int;
                    vstd::arithmetic::div_mod::lemma_fundamental_div_mod(len, ss);
                    assert(count * ss <= len) by (nonlinear_arith)
                        requires
                            count == len / ss,
                            len == ss * (len / ss) + len % ss,
                            0 <= len % ss,
                    ;
                }
                let total = count * size;
                (total as i64 + n) as u64
            },
            SeekTarget::Current(n) => (self.pos as i64 + n) as u64,
        };
        Ok(self.pos)
    }
}

} // verus!
