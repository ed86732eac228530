//! Table of objects reached by handle numbers handed out in increasing order from 0.
use vstd::prelude::*;

verus! {

/// Index of the entry with handle `h`, or -1.
pub open spec fn handle_index<T>(s: Seq<(u64, T)>, h: u64) -> int
    decreases s.len(),
{
    if s.len() == 0 {
        -1
    } else if s.last().0 == h {
        s.len() - 1
    } else {
        handle_index(s.drop_last(), h)
    }
}

pub proof fn lemma_handle_index<T>(s: Seq<(u64, T)>, h: u64)
    ensures
        -1 <= handle_index(s, h) < s.len(),
        handle_index(s, h) >= 0 ==> s[handle_index(s, h)].0 == h,
        handle_index(s, h) < 0 ==> forall|i: int| 0 <= i < s.len() ==> (#[trigger] s[i]).0 != h,
    decreases s.len(),
{
    if s.len() > 0 {
        lemma_handle_index(s.drop_last(), h);
        if s.last().0 != h {
            assert forall|i: int| 0 <= i < s.len() - 1 implies #[trigger] s[i] == s.drop_last()[i] by {}
        }
    }
}

pub struct HandleTable<T> {
    next_handle: u64,
    entries: Vec<(u64, T)>,
}

impl<T> HandleTable<T> {
    pub closed spec fn next(&self) -> u64 {
        self.next_handle
    }

    /// (handle, object) pairs in the order the handles were handed out.
    pub closed spec fn entries(&self) -> Seq<(u64, T)> {
        self.entries@
    }

    pub open spec fn lookup(&self, h: u64) -> Option<T> {
        let i = handle_index(self.entries(), h);
        if i >= 0 {
            Some(self.entries()[i].1)
        } else {
            None
        }
    }

    /// The handle the next insert hands out.
    pub fn next_handle(&self) -> (r: u64)
        ensures
            r == self.next(),
    {
        self.next_handle
    }

    pub fn new() -> (r: Self)
        ensures
            r.next() == 0,
            r.entries() == Seq::<(u64, T)>::empty(),
    {
        Self { next_handle: 0, entries: Vec::new() }
    }

    /// Stores `item` under the next handle, which is returned. The handle counter must not be
    /// exhausted (handing out `u64::MAX + 1` handles is refused by a panic).
    pub fn insert(&mut self, item: T) -> (h: u64)
        requires
            old(self).next() < u64::MAX,
        ensures
            h == old(self).next(),
            final(self).next() == old(self).next() + 1,
            final(self).entries() == old(self).entries().push((h, item)),
    {
        let h = self.next_handle;
        self.next_handle = self.next_handle + 1;
        self.entries.push((h, item));
        h
    }

    pub fn index_of(&self, h: u64) -> (r: Option<usize>)
        ensures
            match r {
                Some(i) => i as int == handle_index(self.entries(), h) && i < self.entries().len(),
                None => handle_index(self.entries(), h) < 0,
            },
    {
        proof {
            lemma_handle_index(self.entries(), h);
        }
        let mut i = self.entries.len();
        assert(self.entries@.subrange(0, i as int) =~= self.entries@);
        while i > 0
            invariant
                i <= self.entries@.len(),
                handle_index(self.entries@.subrange(0, i as int), h) == handle_index(self.entries@, h),
            decreases i,
        {
            proof {
                assert(self.entries@.subrange(0, i as int).drop_last() =~= self.entries@.subrange(0, i as int - 1));
            }
            if self.entries[i - 1].0 == h {
                return Some(i - 1);
            }
            i = i - 1;
        }
        None
    }

    pub fn get(&self, h: u64) -> (r: Option<&T>)
        ensures
            match r {
                Some(x) => self.lookup(h) == Some(*x),
                None => self.lookup(h) is None,
            },
    {
        match self.index_of(h) {
            Some(i) => Some(&self.entries[i].1),
            None => None,
        }
    }

    pub fn entry_mut(&mut self, i: usize) -> (r: &mut T)
        requires
            i < old(self).entries().len(),
        ensures
            *r == old(self).entries()[i as int].1,
            final(self).entries() == old(self).entries().update(i as int, (old(self).entries()[i as int].0, *final(r))),
            final(self).next() == old(self).next(),
    {
        &mut self.entries[i].1
    }

    /// Drops the object under `h` (if any).
    pub fn remove(&mut self, h: u64) -> (r: Option<T>)
        ensures
            final(self).next() == old(self).next(),
            match r {
                Some(x) => old(self).lookup(h) == Some(x) && final(self).entries() == old(self).entries().remove(
                    handle_index(old(self).entries(), h),
                ),
                None => old(self).lookup(h) is None && final(self).entries() == old(self).entries(),
            },
    {
        match self.index_of(h) {
            Some(i) => {
                let (_, x) = self.entries.remove(i);
                Some(x)
            },
            None => None,
        }
    }
}

} // verus!
