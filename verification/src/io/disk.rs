//! Sector devices and the memory-backed disk (RAM disk) with a CRC per sector.
use vstd::prelude::*;
use crate::io::crc::{crc32, crc32_spec};
use crate::io::device::{BlockDevice, DeviceError};

verus! {

#[derive(Debug, Clone, Copy, PartialEq, Eq, Structural)]
pub enum DiskError {
    OutOfBounds,
    IoError,
    CrcMismatch,
}

/// How many bytes a cursor transfer moves: what fits in the buffer of what remains after the
/// cursor.
pub open spec fn transfer_len(cursor: int, len: int, buf_len: int) -> int {
    let avail = if cursor < len { len - cursor } else { 0 };
    if buf_len < avail { buf_len } else { avail }
}

/// A device read and written a whole sector at a time.
pub trait DiskDevice {
    /// Bytes per sector.
    spec fn sector_len(&self) -> nat;

    /// The device's bytes.
    spec fn contents(&self) -> Seq<u8>;

    /// The device's own consistency condition, kept by every operation.
    spec fn device_ok(&self) -> bool;

    fn sector_size(&self) -> (r: usize)
        ensures
            r == self.sector_len(),
    ;

    fn sector_count(&self) -> (r: u64)
        ensures
            self.sector_len() > 0 ==> r == self.contents().len() / self.sector_len(),
    ;

    /// Reads sector `lba` into the front of `buf`. On success those bytes are the sector's.
    fn read_sector(&mut self, lba: u64, buf: &mut [u8]) -> (r: Result<(), DiskError>)
        requires
            old(self).device_ok(),
            old(buf)@.len() >= old(self).sector_len(),
            lba * old(self).sector_len() + old(self).sector_len() <= usize::MAX,
        ensures
            final(self).device_ok(),
            final(self).contents() == old(self).contents(),
            final(self).sector_len() == old(self).sector_len(),
            final(buf)@.len() == old(buf)@.len(),
            r is Ok ==> (lba + 1) * old(self).sector_len() <= old(self).contents().len()
                && final(buf)@.subrange(0, old(self).sector_len() as int) == old(self).contents().subrange(
                lba * old(self).sector_len(),
                (lba + 1) * old(self).sector_len(),
            ),
    ;

    /// Writes the front of `buf` to sector `lba`; fails, changing nothing, past the end.
    fn write_sector(&mut self, lba: u64, buf: &[u8]) -> (r: Result<(), DiskError>)
        requires
            old(self).device_ok(),
            buf@.len() >= old(self).sector_len(),
            lba * old(self).sector_len() + old(self).sector_len() <= usize::MAX,
        ensures
            final(self).device_ok(),
            final(self).sector_len() == old(self).sector_len(),
            final(self).contents().len() == old(self).contents().len(),
            r is Ok <==> (lba + 1) * old(self).sector_len() <= old(self).contents().len(),
            r is Ok ==> final(self).contents() == old(self).contents().subrange(0, lba * old(self).sector_len())
                + buf@.subrange(0, old(self).sector_len() as int) + old(self).contents().subrange(
                (lba + 1) * old(self).sector_len(),
                old(self).contents().len() as int,
            ),
            r is Err ==> final(self).contents() == old(self).contents(),
    ;
}

/// What reading sector `lba` of disk `d` into a buffer holding `buf0` gives: the buffer after it
/// and the result. Past the end nothing is copied and the result is `OutOfBounds`; otherwise
/// the sector's bytes replace the front of the buffer, and the result is `CrcMismatch` unless
/// the buffer's checksum is the one stored for the sector.
pub open spec fn sector_read(d: RamDisk, lba: u64, buf0: Seq<u8>) -> (Seq<u8>, Result<(), DiskError>) {
    let ss = d.sector_bytes() as int;
    if (lba + 1) * ss <= d.bytes().len() {
        let out = d.bytes().subrange(lba * ss, (lba + 1) * ss) + buf0.subrange(ss, buf0.len() as int);
        (out, if crc32_spec(out) == d.checksums()[lba as int] {
            Ok::<(), DiskError>(())
        } else {
            Err::<(), DiskError>(DiskError::CrcMismatch)
        })
    } else {
        (buf0, Err::<(), DiskError>(DiskError::OutOfBounds))
    }
}

/// A sector reads back what was written to it: when a write of `data`, one sector long, to
/// sector `lba` of disk `a` leaves disk `b` (bytes and checksums as `write_sector` leaves them),
/// reading that sector of `b` into a one-sector buffer succeeds and yields `data`.
pub proof fn lemma_sector_write_then_read(a: RamDisk, b: RamDisk, lba: u64, data: Seq<u8>, buf0: Seq<u8>)
    requires
        a.wf(),
        data.len() == a.sector_bytes(),
        buf0.len() == a.sector_bytes(),
        (lba + 1) * a.sector_bytes() <= a.bytes().len(),
        b.sector_bytes() == a.sector_bytes(),
        b.bytes() == a.bytes().subrange(0, lba * a.sector_bytes()) + data.subrange(0, a.sector_bytes() as int)
            + a.bytes().subrange((lba + 1) * a.sector_bytes(), a.bytes().len() as int),
        b.checksums() == a.checksums().update(lba as int, crc32_spec(data)),
    ensures
        b.wf(),
        sector_read(b, lba, buf0) == (data, Ok::<(), DiskError>(())),
{
    let ss = a.sector_bytes() as int;
    assert((lba + 1) * ss == lba * ss + ss) by (nonlinear_arith);
    assert(data.subrange(0, ss) =~= data);
    assert(buf0.subrange(ss, buf0.len() as int) =~= Seq::<u8>::empty());
    assert(b.bytes().subrange(lba * ss, (lba + 1) * ss) =~= data);
    assert(lba < a.checksums().len()) by (nonlinear_arith)
        requires
            (lba + 1) * ss <= a.bytes().len(),
            a.bytes().len() == a.checksums().len() * ss,
            ss > 0,
    ;
    assert(b.bytes().subrange(lba * ss, (lba + 1) * ss) + buf0.subrange(ss, buf0.len() as int) =~= data);
}

/// A disk held in memory. Each sector carries the CRC-32 of the bytes last written to it; a
/// read whose bytes disagree with it reports `CrcMismatch`.
pub struct RamDisk {
    data: Vec<u8>,
    sector_size: usize,
    cursor: u64,
    crcs: Vec<u32>,
}

impl RamDisk {
    pub closed spec fn bytes(&self) -> Seq<u8> {
        self.data@
    }

    pub closed spec fn sector_bytes(&self) -> nat {
        self.sector_size as nat
    }

    pub closed spec fn checksums(&self) -> Seq<u32> {
        self.crcs@
    }

    pub closed spec fn position(&self) -> u64 {
        self.cursor
    }

    /// Sector sizes are positive, the disk holds whole sectors, one checksum per sector.
    pub open spec fn wf(&self) -> bool {
        &&& self.sector_bytes() > 0
        &&& self.bytes().len() == self.checksums().len() * self.sector_bytes()
    }

    /// A zeroed disk of `sector_count` sectors of `sector_size` bytes.
    pub fn new(sector_count: usize, sector_size: usize) -> (r: Self)
        requires
            sector_size > 0,
            sector_count > 0,
            sector_count * sector_size <= usize::MAX,
        ensures
            r.wf(),
            r.bytes() == Seq::new((sector_count * sector_size) as nat, |i: int| 0u8),
            r.sector_bytes() == sector_size,
            r.checksums() == Seq::new(sector_count as nat, |i: int| crc32_spec(Seq::new(sector_size as nat, |j: int| 0u8))),
            r.position() == 0,
    {
        let byte_len = sector_count * sector_size;
        let mut data: Vec<u8> = Vec::new();
        let mut i: usize = 0;
        while i < byte_len
            invariant
                i <= byte_len,
                data@ == Seq::new(i as nat, |k: int| 0u8),
            decreases byte_len - i,
        {
            data.push(0);
            i = i + 1;
            proof {
                assert(data@ =~= Seq::new(i as nat, |k: int| 0u8));
            }
        }
        let mut zero: Vec<u8> = Vec::new();
        let mut j: usize = 0;
        while j < sector_size
            invariant
                j <= sector_size,
                zero@ == Seq::new(j as nat, |k: int| 0u8),
            decreases sector_size - j,
        {
            zero.push(0);
            j = j + 1;
            proof {
                assert(zero@ =~= Seq::new(j as nat, |k: int| 0u8));
            }
        }
        let zero_crc = crc32(zero.as_slice());
        let mut crcs: Vec<u32> = Vec::new();
        let mut k: usize = 0;
        while k < sector_count
            invariant
                k <= sector_count,
                crcs@ == Seq::new(k as nat, |x: int| zero_crc),
            decreases sector_count - k,
        {
            crcs.push(zero_crc);
            k = k + 1;
            proof {
                assert(crcs@ =~= Seq::new(k as nat, |x: int| zero_crc));
            }
        }
        Self { data, sector_size, cursor: 0, crcs }
    }
}

impl DiskDevice for RamDisk {
    open spec fn sector_len(&self) -> nat {
        self.sector_bytes()
    }

    open spec fn contents(&self) -> Seq<u8> {
        self.bytes()
    }

    open spec fn device_ok(&self) -> bool {
        self.wf()
    }

    fn sector_size(&self) -> (r: usize) {
        self.sector_size
    }

    fn sector_count(&self) -> (r: u64) {
        if self.sector_size == 0 {
            0
        } else {
            (self.data.len() / self.sector_size) as u64
        }
    }

    fn read_sector(&mut self, lba: u64, buf: &mut [u8]) -> (r: Result<(), DiskError>)
        ensures
            *final(self) == *old(self),
            (final(buf)@, r) == sector_read(*old(self), lba, old(buf)@),
    {
        let ss = self.sector_size;
        let lba_u = lba as usize;
        assert(lba_u == lba) by (nonlinear_arith)
            requires
                lba * ss + ss <= usize::MAX,
                ss > 0,
                lba_u == lba as usize,
        ;
        let start = lba_u * ss;
        if start + ss > self.data.len() {
            proof {
                assert((lba + 1) * ss == start + ss) by (nonlinear_arith)
                    requires
                        start == lba * ss,
                ;
            }
            return Err(DiskError::OutOfBounds);
        }
        proof {
            assert(lba < self.crcs@.len()) by (nonlinear_arith)
                requires
                    start == lba * ss,
                    start + ss <= self.data@.len(),
                    self.data@.len() == self.crcs@.len() * ss,
                    ss > 0,
            ;
            assert((lba + 1) * ss == start + ss) by (nonlinear_arith)
                requires
                    start == lba * ss,
            ;
        }
        let dlen = self.data.len();
        let mut i: usize = 0;
        while i < ss
            invariant
                i <= ss,
                ss == self.sector_size,
                start == lba * ss,
                start + ss <= dlen,
                self.data@.len() == dlen,
                buf@.len() == old(buf)@.len(),
                buf@.len() >= ss,
                forall|k: int| 0 <= k < i ==> #[trigger] buf@[k] == self.data@[start + k],
                forall|k: int| i <= k < buf@.len() ==> #[trigger] buf@[k] == old(buf)@[k],
            decreases ss - i,
        {
            buf[i] = self.data[start + i];
            i = i + 1;
        }
        proof {
            assert(buf@ =~= self.data@.subrange(start as int, start + ss) + old(buf)@.subrange(ss as int, old(buf)@.len() as int));
        }
        if crc32(buf) != self.crcs[lba_u] {
            return Err(DiskError::CrcMismatch);
        }
        Ok(())
    }

    fn write_sector(&mut self, lba: u64, buf: &[u8]) -> (r: Result<(), DiskError>)
        ensures
            final(self).position() == old(self).position(),
            r is Ok ==> final(self).checksums() == old(self).checksums().update(lba as int, crc32_spec(buf@)),
            r is Err ==> *final(self) == *old(self),
    {
        let ss = self.sector_size;
        let lba_u = lba as usize;
        assert(lba_u == lba) by (nonlinear_arith)
            requires
                lba * ss + ss <= usize::MAX,
                ss > 0,
                lba_u == lba as usize,
        ;
        let start = lba_u * ss;
        if start + ss > self.data.len() {
            proof {
                assert((lba + 1) * ss == start + ss) by (nonlinear_arith)
                    requires
                        start == lba * ss,
                ;
            }
            return Err(DiskError::OutOfBounds);
        }
        proof {
            assert(lba < self.crcs@.len()) by (nonlinear_arith)
                requires
                    start == lba * ss,
                    start + ss <= self.data@.len(),
                    self.data@.len() == self.crcs@.len() * ss,
                    ss > 0,
            ;
            assert((lba + 1) * ss == start + ss) by (nonlinear_arith)
                requires
                    start == lba * ss,
            ;
        }
        let c = crc32(buf);
        self.crcs.set(lba_u, c);
        let ghost d0 = self.data@;
        let dlen = self.data.len();
        let mut i: usize = 0;
        while i < ss
            invariant
                i <= ss,
                ss == self.sector_size,
                start == lba * ss,
                start + ss <= dlen,
                dlen == d0.len(),
                self.data@.len() == d0.len(),
                self.crcs@ == old(self).crcs@.update(lba as int, c),
                self.cursor == old(self).cursor,
                self.sector_size == old(self).sector_size,
                buf@.len() >= ss,
                forall|k: int| 0 <= k < start ==> #[trigger] self.data@[k] == d0[k],
                forall|k: int| start + ss <= k < d0.len() ==> #[trigger] self.data@[k] == d0[k],
                forall|k: int| start <= k < start + i ==> #[trigger] self.data@[k] == buf@[k - start],
                forall|k: int| start + i <= k < start + ss ==> #[trigger] self.data@[k] == d0[k],
            decreases ss - i,
        {
            self.data.set(start + i, buf[i]);
            i = i + 1;
        }
        proof {
            assert(self.data@ =~= d0.subrange(0, start as int) + buf@.subrange(0, ss as int) + d0.subrange(start + ss, d0.len() as int));
        }
        Ok(())
    }
}

impl BlockDevice for RamDisk {
    open spec fn cursor(&self) -> u64 {
        self.position()
    }

    /// Copies bytes from the cursor on into `buf`, as many as fit and remain; advances the cursor.
    fn read(&mut self, buf: &mut [u8]) -> (r: Result<usize, DeviceError>)
        ensures
            ({
                let off = old(self).position() as int;
                let n = transfer_len(off, old(self).bytes().len() as int, old(buf)@.len() as int);
                &&& r == Ok::<usize, DeviceError>(n as usize)
                &&& n > 0 ==> final(buf)@ == old(self).bytes().subrange(off, off + n) + old(buf)@.subrange(n, old(buf)@.len() as int)
                &&& n == 0 ==> final(buf)@ == old(buf)@
                &&& final(self).bytes() == old(self).bytes()
                &&& final(self).checksums() == old(self).checksums()
                &&& final(self).sector_bytes() == old(self).sector_bytes()
                &&& final(self).position() == off + n
            }),
    {
        let len = self.data.len();
        let offset = self.cursor;
        let avail: usize = if offset < len as u64 { len - offset as usize } else { 0 };
        let n = if buf.len() < avail { buf.len() } else { avail };
        if n == 0 {
            return Ok(0);
        }
        let off = offset as usize;
        assert(off == offset);
        let mut i: usize = 0;
        while i < n
            invariant
                i <= n,
                off + n <= len,
                self.data@.len() == len,
                n <= buf@.len(),
                buf@.len() == old(buf)@.len(),
                forall|k: int| 0 <= k < i ==> #[trigger] buf@[k] == self.data@[off + k],
                forall|k: int| i <= k < buf@.len() ==> #[trigger] buf@[k] == old(buf)@[k],
            decreases n - i,
        {
            buf[i] = self.data[off + i];
            i = i + 1;
        }
        proof {
            assert(buf@ =~= self.data@.subrange(off as int, off + n) + old(buf)@.subrange(n as int, old(buf)@.len() as int));
        }
        self.cursor = self.cursor + n as u64;
        Ok(n)
    }

    /// Copies `buf` to the bytes from the cursor on, as many as fit; advances the cursor. The
    /// sector checksums are not updated.
    fn write(&mut self, buf: &[u8]) -> (r: Result<usize, DeviceError>)
        ensures
            ({
                let off = old(self).position() as int;
                let n = transfer_len(off, old(self).bytes().len() as int, buf@.len() as int);
                &&& r == Ok::<usize, DeviceError>(n as usize)
                &&& n > 0 ==> final(self).bytes() == old(self).bytes().subrange(0, off) + buf@.subrange(0, n)
                    + old(self).bytes().subrange(off + n, old(self).bytes().len() as int)
                &&& n == 0 ==> final(self).bytes() == old(self).bytes()
                &&& final(self).checksums() == old(self).checksums()
                &&& final(self).sector_bytes() == old(self).sector_bytes()
                &&& final(self).position() == off + n
            }),
    {
        let len = self.data.len();
        let offset = self.cursor;
        let avail: usize = if offset < len as u64 { len - offset as usize } else { 0 };
        let n = if buf.len() < avail { buf.len() } else { avail };
        if n == 0 {
            return Ok(0);
        }
        let off = offset as usize;
        assert(off == offset);
        let ghost d0 = self.data@;
        let mut i: usize = 0;
        while i < n
            invariant
                i <= n,
                off + n <= len,
                len == d0.len(),
                self.cursor == offset,
                self.crcs@ == old(self).crcs@,
                self.sector_size == old(self).sector_size,
                n <= buf@.len(),
                self.data@.len() == d0.len(),
                forall|k: int| 0 <= k < off ==> #[trigger] self.data@[k] == d0[k],
                forall|k: int| off + n <= k < d0.len() ==> #[trigger] self.data@[k] == d0[k],
                forall|k: int| off <= k < off + i ==> #[trigger] self.data@[k] == buf@[k - off],
                forall|k: int| off + i <= k < off + n ==> #[trigger] self.data@[k] == d0[k],
            decreases n - i,
        {
            self.data.set(off + i, buf[i]);
            i = i + 1;
        }
        proof {
            assert(self.data@ =~= d0.subrange(0, off as int) + buf@.subrange(0, n as int) + d0.subrange(off + n, d0.len() as int));
        }
        self.cursor = self.cursor + n as u64;
        Ok(n)
    }

    fn seek(&mut self, offset: u64)
        ensures
            final(self).position() == offset,
            final(self).bytes() == old(self).bytes(),
            final(self).checksums() == old(self).checksums(),
            final(self).sector_bytes() == old(self).sector_bytes(),
    {
        self.cursor = offset;
    }
}

} // verus!
