//! The table of user-visible locks, by handle.
use vstd::prelude::*;
use crate::sync::handle_table::{HandleTable, handle_index};
use crate::sync::resource::QueuedResource;

verus! {

pub struct ResourceTable {
    table: HandleTable<QueuedResource>,
}

impl ResourceTable {
    pub closed spec fn next(&self) -> u64 {
        self.table.next()
    }

    pub closed spec fn entries(&self) -> Seq<(u64, QueuedResource)> {
        self.table.entries()
    }

    /// The handle the next insert hands out.
    pub fn next_handle(&self) -> (r: u64)
        ensures
            r == self.next(),
    {
        self.table.next_handle()
    }

    pub fn new() -> (r: Self)
        ensures
            r.next() == 0,
            r.entries() == Seq::<(u64, QueuedResource)>::empty(),
    {
        Self { table: HandleTable::new() }
    }

    /// Registers `res` under the next handle and returns it (handles start at 0).
    pub fn insert(&mut self, res: QueuedResource) -> (h: u64)
        requires
            old(self).next() < u64::MAX,
        ensures
            h == old(self).next(),
            final(self).next() == old(self).next() + 1,
            final(self).entries() == old(self).entries().push((h, res)),
    {
        self.table.insert(res)
    }

    pub fn get(&self, handle: u64) -> (r: Option<&QueuedResource>)
        ensures
            match r {
                Some(x) => handle_index(self.entries(), handle) >= 0 && *x == self.entries()[handle_index(self.entries(), handle)].1,
                None => handle_index(self.entries(), handle) < 0,
            },
    {
        self.table.get(handle)
    }

    pub fn index_of(&self, handle: u64) -> (r: Option<usize>)
        ensures
            match r {
                Some(i) => i as int == handle_index(self.entries(), handle) && i < self.entries().len(),
                None => handle_index(self.entries(), handle) < 0,
            },
    {
        self.table.index_of(handle)
    }

    pub fn entry_mut(&mut self, i: usize) -> (r: &mut QueuedResource)
        requires
            i < old(self).entries().len(),
        ensures
            *r == old(self).entries()[i as int].1,
            final(self).entries() == old(self).entries().update(i as int, (old(self).entries()[i as int].0, *final(r))),
            final(self).next() == old(self).next(),
    {
        self.table.entry_mut(i)
    }

    pub fn remove(&mut self, handle: u64)
        ensures
            final(self).next() == old(self).next(),
            handle_index(old(self).entries(), handle) >= 0 ==> final(self).entries() == old(self).entries().remove(
                handle_index(old(self).entries(), handle),
            ),
            handle_index(old(self).entries(), handle) < 0 ==> final(self).entries() == old(self).entries(),
    {
        let _ = self.table.remove(handle);
    }
}

} // verus!
