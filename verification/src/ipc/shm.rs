//! A named shared-memory region. It travels through the IPC table with the other objects but
//! is not a stream: it is mapped, never sent to or received from.
use vstd::prelude::*;
use crate::ipc::channel::{IpcChannel, IpcError};

verus! {

pub struct SharedMem {
    pub name: String,
    pub data: Vec<u8>,
}

impl SharedMem {
    /// A zero-filled region of `size` bytes.
    pub fn new(name: String, size: usize) -> (r: Self)
        ensures
            r.name@ == name@,
            r.data@ == Seq::new(size as nat, |i: int| 0u8),
    {
        let mut data: Vec<u8> = Vec::new();
        let mut i: usize = 0;
        while i < size
            invariant
                i <= size,
                data@ == Seq::new(i as nat, |k: int| 0u8),
            decreases size - i,
        {
            data.push(0);
            i = i + 1;
            proof {
                assert(data@ =~= Seq::new(i as nat, |k: int| 0u8));
            }
        }
        Self { name, data }
    }
}

impl IpcChannel for SharedMem {
    open spec fn channel_ok(&self) -> bool {
        true
    }

    /// Stream writes do not apply to shared memory.
    fn send(&mut self, data: &[u8]) -> (r: Result<usize, IpcError>)
        ensures
            r == Err::<usize, IpcError>(IpcError::WouldBlock),
            final(self).data@ == old(self).data@,
    {
        Err(IpcError::WouldBlock)
    }

    /// Stream reads do not apply to shared memory.
    fn recv(&mut self, out: &mut [u8]) -> (r: Result<usize, IpcError>)
        ensures
            r == Err::<usize, IpcError>(IpcError::WouldBlock),
            final(out)@ == old(out)@,
            final(self).data@ == old(self).data@,
    {
        Err(IpcError::WouldBlock)
    }

    /// Nothing to do: the region goes away with its last handle.
    fn close(&mut self)
        ensures
            final(self).data@ == old(self).data@,
    {
    }
}

/// The size registered for `name` in `entries`: that of its first entry, if any.
pub open spec fn registered_size(entries: Seq<(Seq<char>, usize)>, name: Seq<char>) -> Option<usize>
    decreases entries.len(),
{
    if entries.len() == 0 {
        None
    } else if entries[0].0 == name {
        Some(entries[0].1)
    } else {
        registered_size(entries.drop_first(), name)
    }
}

/// The size each shared-memory name was first opened with, oldest first. A name keeps that
/// size for good, closed or not.
pub struct ShmRegistry {
    entries: Vec<(String, usize)>,
}

impl ShmRegistry {
    /// The registered names and sizes, oldest first.
    pub closed spec fn entries(&self) -> Seq<(Seq<char>, usize)> {
        Seq::new(self.entries@.len(), |i: int| (self.entries@[i].0@, self.entries@[i].1))
    }

    pub fn new() -> (r: Self)
        ensures
            r.entries() == Seq::<(Seq<char>, usize)>::empty(),
    {
        let r = Self { entries: Vec::new() };
        assert(r.entries() =~= Seq::<(Seq<char>, usize)>::empty());
        r
    }

    /// The size of the region `name`: the one it was first opened with, or, on its first open,
    /// `size`, which it is registered with from now on.
    pub fn size_for(&mut self, name: &String, size: usize) -> (r: usize)
        ensures
            match registered_size(old(self).entries(), name@) {
                Some(s) => r == s && final(self).entries() == old(self).entries(),
                None => r == size && final(self).entries() == old(self).entries().push((name@, size)),
            },
    {
        let n = self.entries.len();
        let mut i: usize = 0;
        assert(self.entries().subrange(0, n as int) =~= self.entries());
        while i < n
            invariant
                i <= n,
                n == self.entries@.len(),
                *self == *old(self),
                registered_size(self.entries(), name@) == registered_size(
                    self.entries().subrange(i as int, n as int),
                    name@,
                ),
            decreases n - i,
        {
            let ghost rest = self.entries().subrange(i as int, n as int);
            assert(rest[0] == self.entries()[i as int]);
            if self.entries[i].0 == *name {
                return self.entries[i].1;
            }
            assert(rest.drop_first() =~= self.entries().subrange(i + 1, n as int));
            i = i + 1;
        }
        assert(self.entries().subrange(n as int, n as int) =~= Seq::<(Seq<char>, usize)>::empty());
        self.entries.push((name.clone(), size));
        assert(self.entries() =~= old(self).entries().push((name@, size)));
        size
    }
}

} // verus!
