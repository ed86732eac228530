//! Device interfaces and the device-status table (blocking or non-blocking per device).
use vstd::prelude::*;

verus! {

#[derive(Debug, Clone, Copy, PartialEq, Eq, Structural)]
pub enum DeviceError {
    NotFound,
    IoError,
}

/// A block device read and written through a cursor.
pub trait BlockDevice {
    /// The cursor.
    spec fn cursor(&self) -> u64;

    /// Reads into `buf` from the cursor on; the cursor moves past the bytes read, which are no
    /// more than `buf` holds.
    fn read(&mut self, buf: &mut [u8]) -> (r: Result<usize, DeviceError>)
        ensures
            final(buf)@.len() == old(buf)@.len(),
            r matches Ok(n) ==> n <= old(buf)@.len() && final(self).cursor() == old(self).cursor() + n,
    ;

    /// Writes `buf` from the cursor on; the cursor moves past the bytes written, which are no
    /// more than `buf` holds.
    fn write(&mut self, buf: &[u8]) -> (r: Result<usize, DeviceError>)
        ensures
            r matches Ok(n) ==> n <= buf@.len() && final(self).cursor() == old(self).cursor() + n,
    ;

    /// Moves the cursor to `offset`.
    fn seek(&mut self, offset: u64)
        ensures
            final(self).cursor() == offset,
    ;
}

/// A character-stream device.
pub trait CharDevice {
    /// The device's own consistency condition, kept by every operation.
    spec fn char_ok(&self) -> bool;

    /// The next byte, if one is available.
    fn get(&mut self) -> (r: Option<u8>)
        requires
            old(self).char_ok(),
        ensures
            final(self).char_ok(),
    ;

    /// Sends one byte.
    fn put(&mut self, byte: u8)
        requires
            old(self).char_ok(),
        ensures
            final(self).char_ok(),
    ;
}

/// Device file descriptors start here.
pub const DEV_FD_OFFSET: u64 = 0x1_0000;
pub const IOCTL_SET_NONBLOCK: usize = 1;
pub const IOCTL_SET_BLOCK: usize = 2;

pub struct DeviceStatus {
    pub name: String,
    pub blocking: bool,
}

pub struct DeviceTable {
    entries: Vec<DeviceStatus>,
}

/// Index of the first device called `name`, or -1.
pub open spec fn device_index(names: Seq<Seq<char>>, name: Seq<char>, from: int) -> int
    decreases names.len() - from,
{
    if from < 0 || from >= names.len() {
        -1
    } else if names[from] == name {
        from
    } else {
        device_index(names, name, from + 1)
    }
}

impl DeviceTable {
    pub closed spec fn names(&self) -> Seq<Seq<char>> {
        Seq::new(self.entries@.len(), |i: int| self.entries@[i].name@)
    }

    pub closed spec fn blocking_flags(&self) -> Seq<bool> {
        Seq::new(self.entries@.len(), |i: int| self.entries@[i].blocking)
    }

    pub fn new() -> (r: Self)
        ensures
            r.names() == Seq::<Seq<char>>::empty(),
            r.blocking_flags() == Seq::<bool>::empty(),
    {
        let r = Self { entries: Vec::new() };
        assert(r.names() =~= Seq::<Seq<char>>::empty());
        assert(r.blocking_flags() =~= Seq::<bool>::empty());
        r
    }

    /// Adds a device, blocking by default, and returns its index.
    pub fn register(&mut self, name: &str) -> (idx: usize)
        ensures
            idx == old(self).names().len(),
            final(self).names() == old(self).names().push(name@),
            final(self).blocking_flags() == old(self).blocking_flags().push(true),
            final(self).names().len() == final(self).blocking_flags().len(),
    {
        let idx = self.entries.len();
        self.entries.push(DeviceStatus { name: name.to_owned(), blocking: true });
        assert(self.names() =~= old(self).names().push(name@));
        assert(self.blocking_flags() =~= old(self).blocking_flags().push(true));
        idx
    }

    pub fn find(&self, name: &str) -> (r: Option<usize>)
        ensures
            match r {
                Some(i) => i as int == device_index(self.names(), name@, 0),
                None => device_index(self.names(), name@, 0) < 0,
            },
    {
        let target = name.to_owned();
        let mut i: usize = 0;
        while i < self.entries.len()
            invariant
                i <= self.entries@.len(),
                target@ == name@,
                device_index(self.names(), name@, i as int) == device_index(self.names(), name@, 0),
            decreases self.entries@.len() - i,
        {
            if self.entries[i].name == target {
                return Some(i);
            }
            i = i + 1;
        }
        None
    }

    /// Sets the blocking flag of device `idx`; `false` when there is no such device.
    /// The status of device `idx`, to change in place (`ioctl` sets blocking mode).
    pub fn get_mut(&mut self, idx: usize) -> (r: Option<&mut DeviceStatus>)
        ensures
            match r {
                Some(e) => {
                    &&& idx < old(self).names().len()
                    &&& e.name@ == old(self).names()[idx as int]
                    &&& e.blocking == old(self).blocking_flags()[idx as int]
                    &&& final(self).names() == old(self).names().update(idx as int, final(e).name@)
                    &&& final(self).blocking_flags() == old(self).blocking_flags().update(idx as int, final(e).blocking)
                },
                None => idx >= old(self).names().len() && final(self).names() == old(self).names()
                    && final(self).blocking_flags() == old(self).blocking_flags(),
            },
    {
        if idx < self.entries.len() {
            Some(&mut self.entries[idx])
        } else {
            None
        }
    }

    /// Every registered device has a blocking flag: the two lists are equally long.
    pub proof fn lemma_one_flag_per_name(&self)
        ensures
            self.names().len() == self.blocking_flags().len(),
    {
    }

    pub fn is_blocking(&self, idx: usize) -> (r: bool)
        ensures
            r == (if idx < self.names().len() { self.blocking_flags()[idx as int] } else { true }),
    {
        if idx < self.entries.len() {
            self.entries[idx].blocking
        } else {
            true
        }
    }
}

} // verus!
