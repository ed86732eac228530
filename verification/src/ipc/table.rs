//! The table of open IPC objects, by handle. Handles are handed out in increasing order and
//! never reused.
use vstd::prelude::*;
use std::collections::BTreeMap;
use crate::ipc::channel::{IpcChannel, IpcError};
use crate::ipc::msg_queue::{queue_recv_post, queue_send_post, MsgQueue};
use crate::ipc::pipe::{pipe_recv_post, pipe_send_post, Pipe};
use crate::ipc::shm::SharedMem;
use crate::process::pid::Tid;
use crate::process::table::{with_state, BTreeTaskRegistry};
use crate::process::task::TaskState;
use crate::scheduler::mlfq::{MlfqScheduler, NUM_QUEUES};
use crate::scheduler::{woken, woken_all, woken_queues};
use crate::sync::condvar::{wake_all, CondVar};

verus! {

broadcast use {vstd::std_specs::btree::group_btree_axioms, vstd::laws_cmp::group_laws_cmp};

/// Any IPC object.
pub enum IpcObject {
    Pipe(Pipe),
    Queue(MsgQueue),
    Shared(SharedMem),
}

impl IpcObject {
    pub open spec fn object_ok(&self) -> bool {
        match self {
            IpcObject::Pipe(p) => p.channel_ok(),
            IpcObject::Queue(q) => q.channel_ok(),
            IpcObject::Shared(m) => m.channel_ok(),
        }
    }
}

/// What a send of `data` does to object `a`: `b` is the object after it, `r` the result.
/// Shared memory is not a stream and refuses with `WouldBlock`.
pub open spec fn object_send_post(a: IpcObject, b: IpcObject, data: Seq<u8>, r: Result<usize, IpcError>) -> bool {
    match (a, b) {
        (IpcObject::Pipe(x), IpcObject::Pipe(y)) => pipe_send_post(x, y, data, r),
        (IpcObject::Queue(x), IpcObject::Queue(y)) => queue_send_post(x, y, data, r),
        (IpcObject::Shared(x), IpcObject::Shared(y)) => r == Err::<usize, IpcError>(IpcError::WouldBlock) && y.data@
            == x.data@,
        _ => false,
    }
}

/// What a receive into a buffer holding `out0` does to object `a`: `b` is the object after it,
/// `out1` the buffer after it.
pub open spec fn object_recv_post(
    a: IpcObject,
    b: IpcObject,
    out0: Seq<u8>,
    out1: Seq<u8>,
    r: Result<usize, IpcError>,
) -> bool {
    match (a, b) {
        (IpcObject::Pipe(x), IpcObject::Pipe(y)) => pipe_recv_post(x, y, out0, out1, r),
        (IpcObject::Queue(x), IpcObject::Queue(y)) => queue_recv_post(x, y, out0, out1, r),
        (IpcObject::Shared(x), IpcObject::Shared(y)) => r == Err::<usize, IpcError>(IpcError::WouldBlock) && out1
            == out0 && y.data@ == x.data@,
        _ => false,
    }
}

/// What closing object `a` does: `b` is the object after it. Streams refuse writers from then
/// on and keep what they hold.
pub open spec fn object_close_post(a: IpcObject, b: IpcObject) -> bool {
    match (a, b) {
        (IpcObject::Pipe(x), IpcObject::Pipe(y)) => y.is_closed() && y.contents() == x.contents(),
        (IpcObject::Queue(x), IpcObject::Queue(y)) => y.is_closed() && y.messages() == x.messages(),
        (IpcObject::Shared(x), IpcObject::Shared(y)) => y.data@ == x.data@,
        _ => false,
    }
}


/// Which of a stream's two queues of waiting threads: readers waiting for data, or writers
/// waiting for room.
#[derive(Debug, Clone, Copy, PartialEq, Eq, Structural)]
pub enum Cond {
    NotEmpty,
    NotFull,
}

/// The threads waiting on queue `which` of `o`; shared memory has none.
pub open spec fn cond_waiting(o: IpcObject, which: Cond) -> Seq<Tid> {
    match o {
        IpcObject::Pipe(p) => p.waiting_on(which == Cond::NotEmpty),
        IpcObject::Queue(q) => q.waiting_on(which == Cond::NotEmpty),
        IpcObject::Shared(_) => Seq::empty(),
    }
}

/// `b` is the stream `a` with queue `which` holding `w` and everything else unchanged.
pub open spec fn with_waiting(a: IpcObject, b: IpcObject, which: Cond, w: Seq<Tid>) -> bool {
    let other = match which {
        Cond::NotEmpty => Cond::NotFull,
        Cond::NotFull => Cond::NotEmpty,
    };
    &&& match (a, b) {
        (IpcObject::Pipe(x), IpcObject::Pipe(y)) => y.contents() == x.contents() && y.is_closed() == x.is_closed(),
        (IpcObject::Queue(x), IpcObject::Queue(y)) => y.messages() == x.messages() && y.is_closed() == x.is_closed(),
        _ => false,
    }
    &&& cond_waiting(b, which) == w
    &&& cond_waiting(b, other) == cond_waiting(a, other)
}

pub struct IpcTable {
    next_handle: u64,
    map: BTreeMap<u64, IpcObject>,
}

impl IpcTable {
    /// The handle the next insert returns.
    pub closed spec fn next(&self) -> u64 {
        self.next_handle
    }

    /// The open objects by handle.
    pub closed spec fn objects(&self) -> Map<u64, IpcObject> {
        self.map@
    }

    /// Every open handle was handed out before, and every object is in working order.
    pub open spec fn wf(&self) -> bool {
        forall|h: u64| #[trigger] self.objects().contains_key(h) ==> h < self.next() && self.objects()[h].object_ok()
    }

    /// The handle the next insert hands out.
    pub fn next_handle(&self) -> (r: u64)
        ensures
            r == self.next(),
    {
        self.next_handle
    }

    pub fn new() -> (r: Self)
        ensures
            r.wf(),
            r.next() == 0,
            r.objects() == Map::<u64, IpcObject>::empty(),
    {
        Self { next_handle: 0, map: BTreeMap::new() }
    }

    /// Stores `ch` under a fresh handle and returns it.
    pub fn insert(&mut self, ch: IpcObject) -> (h: u64)
        requires
            old(self).wf(),
            old(self).next() < u64::MAX,
            ch.object_ok(),
        ensures
            final(self).wf(),
            h == old(self).next(),
            !old(self).objects().contains_key(h),
            final(self).next() == old(self).next() + 1,
            final(self).objects() == old(self).objects().insert(h, ch),
    {
        let h = self.next_handle;
        self.next_handle = self.next_handle + 1;
        self.map.insert(h, ch);
        proof {
            assert forall|k: u64| #[trigger] self.objects().contains_key(k) implies k < self.next()
                && self.objects()[k].object_ok() by {
                if k != h {
                    assert(old(self).objects().contains_key(k));
                }
            }
        }
        h
    }

    pub fn get(&self, handle: u64) -> (r: Option<&IpcObject>)
        ensures
            match r {
                Some(o) => self.objects().contains_key(handle) && *o == self.objects()[handle],
                None => !self.objects().contains_key(handle),
            },
    {
        self.map.get(&handle)
    }

    /// Drops the object under `handle`, if any.
    pub fn remove(&mut self, handle: u64)
        requires
            old(self).wf(),
        ensures
            final(self).wf(),
            final(self).next() == old(self).next(),
            final(self).objects() == old(self).objects().remove(handle),
    {
        self.map.remove(&handle);
        proof {
            assert forall|k: u64| #[trigger] self.objects().contains_key(k) implies k < self.next()
                && self.objects()[k].object_ok() by {
                assert(old(self).objects().contains_key(k));
            }
        }
    }

    /// Sends `data` on the object under `handle`; `None` when no object has that handle.
    pub fn send(&mut self, handle: u64, data: &[u8]) -> (r: Option<Result<usize, IpcError>>)
        requires
            old(self).wf(),
        ensures
            final(self).wf(),
            final(self).next() == old(self).next(),
            !old(self).objects().contains_key(handle) ==> r is None && final(self).objects() == old(self).objects(),
            old(self).objects().contains_key(handle) ==> {
                &&& r is Some
                &&& final(self).objects() == old(self).objects().insert(handle, final(self).objects()[handle])
                &&& object_send_post(old(self).objects()[handle], final(self).objects()[handle], data@, r.unwrap())
                &&& cond_waiting(final(self).objects()[handle], Cond::NotEmpty) == cond_waiting(old(self).objects()[handle], Cond::NotEmpty)
                &&& cond_waiting(final(self).objects()[handle], Cond::NotFull) == cond_waiting(old(self).objects()[handle], Cond::NotFull)
            },
    {
        match self.map.remove(&handle) {
            None => {
                assert(self.map@ =~= old(self).map@);
                None
            },
            Some(obj) => {
                assert(old(self).objects().contains_key(handle) && obj == old(self).objects()[handle]);
                let (obj2, r) = match obj {
                    IpcObject::Pipe(mut p) => {
                        let r = p.send(data);
                        (IpcObject::Pipe(p), r)
                    },
                    IpcObject::Queue(mut q) => {
                        let r = q.send(data);
                        (IpcObject::Queue(q), r)
                    },
                    IpcObject::Shared(mut m) => {
                        let r = m.send(data);
                        (IpcObject::Shared(m), r)
                    },
                };
                self.map.insert(handle, obj2);
                proof {
                    assert(self.objects() =~= old(self).objects().insert(handle, obj2));
                    assert forall|k: u64| #[trigger] self.objects().contains_key(k) implies k < self.next()
                        && self.objects()[k].object_ok() by {
                        assert(old(self).objects().contains_key(k));
                    }
                }
                Some(r)
            },
        }
    }

    /// Receives into `out` from the object under `handle`; `None` when no object has that
    /// handle.
    pub fn recv(&mut self, handle: u64, out: &mut [u8]) -> (r: Option<Result<usize, IpcError>>)
        requires
            old(self).wf(),
        ensures
            final(self).wf(),
            final(self).next() == old(self).next(),
            final(out)@.len() == old(out)@.len(),
            !old(self).objects().contains_key(handle) ==> r is None && final(self).objects() == old(self).objects()
                && final(out)@ == old(out)@,
            old(self).objects().contains_key(handle) ==> {
                &&& r is Some
                &&& final(self).objects() == old(self).objects().insert(handle, final(self).objects()[handle])
                &&& object_recv_post(old(self).objects()[handle], final(self).objects()[handle], old(out)@, final(out)@, r.unwrap())
                &&& cond_waiting(final(self).objects()[handle], Cond::NotEmpty) == cond_waiting(old(self).objects()[handle], Cond::NotEmpty)
                &&& cond_waiting(final(self).objects()[handle], Cond::NotFull) == cond_waiting(old(self).objects()[handle], Cond::NotFull)
            },
    {
        match self.map.remove(&handle) {
            None => {
                assert(self.map@ =~= old(self).map@);
                None
            },
            Some(obj) => {
                assert(old(self).objects().contains_key(handle) && obj == old(self).objects()[handle]);
                let (obj2, r) = match obj {
                    IpcObject::Pipe(mut p) => {
                        let r = p.recv(out);
                        (IpcObject::Pipe(p), r)
                    },
                    IpcObject::Queue(mut q) => {
                        let r = q.recv(out);
                        (IpcObject::Queue(q), r)
                    },
                    IpcObject::Shared(mut m) => {
                        let r = m.recv(out);
                        (IpcObject::Shared(m), r)
                    },
                };
                self.map.insert(handle, obj2);
                proof {
                    assert(self.objects() =~= old(self).objects().insert(handle, obj2));
                    assert forall|k: u64| #[trigger] self.objects().contains_key(k) implies k < self.next()
                        && self.objects()[k].object_ok() by {
                        assert(old(self).objects().contains_key(k));
                    }
                }
                Some(r)
            },
        }
    }

    /// Closes the object under `handle`, so that blocked peers see the end, and drops it from
    /// the table; `false` when no object has that handle.
    pub fn close(&mut self, handle: u64) -> (found: bool)
        requires
            old(self).wf(),
        ensures
            final(self).wf(),
            final(self).next() == old(self).next(),
            found == old(self).objects().contains_key(handle),
            final(self).objects() == old(self).objects().remove(handle),
    {
        match self.map.remove(&handle) {
            None => {
                assert(self.map@ =~= old(self).map@.remove(handle));
                false
            },
            Some(obj) => {
                assert(old(self).objects().contains_key(handle) && obj == old(self).objects()[handle]);
                match obj {
                    IpcObject::Pipe(mut p) => p.close(),
                    IpcObject::Queue(mut q) => q.close(),
                    IpcObject::Shared(mut m) => m.close(),
                }
                proof {
                    assert forall|k: u64| #[trigger] self.objects().contains_key(k) implies k < self.next()
                        && self.objects()[k].object_ok() by {
                        assert(old(self).objects().contains_key(k));
                    }
                }
                true
            },
        }
    }

    /// Whether `handle` names a stream (a pipe or a message queue).
    pub fn is_stream(&self, handle: u64) -> (r: bool)
        ensures
            r == (self.objects().contains_key(handle) && !(self.objects()[handle] is Shared)),
    {
        match self.map.get(&handle) {
            Some(IpcObject::Shared(_)) => false,
            Some(_) => true,
            None => false,
        }
    }

    /// The running thread waits on queue `which` of the stream under `handle`: it joins the
    /// back of the queue and is marked blocked.
    pub fn cond_wait(&mut self, handle: u64, which: Cond, sched: &MlfqScheduler, table: &mut BTreeTaskRegistry)
        requires
            old(self).wf(),
            old(self).objects().contains_key(handle),
            !(old(self).objects()[handle] is Shared),
            old(table).wf(),
            sched.current() is Some,
        ensures
            final(self).wf(),
            final(self).next() == old(self).next(),
            final(self).objects() == old(self).objects().insert(handle, final(self).objects()[handle]),
            with_waiting(
                old(self).objects()[handle],
                final(self).objects()[handle],
                which,
                cond_waiting(old(self).objects()[handle], which).push(sched.current().unwrap()),
            ),
            final(table).wf(),
            final(table).tasks() == with_state(old(table).tasks(), sched.current().unwrap(), TaskState::Blocked),
            sched.wf(old(table)) ==> sched.wf(final(table)),
    {
        let obj = self.map.remove(&handle).unwrap();
        assert(obj == old(self).objects()[handle]);
        let obj2 = match obj {
            IpcObject::Pipe(mut p) => {
                p.waiters_mut(which == Cond::NotEmpty).wait(sched, table);
                IpcObject::Pipe(p)
            },
            IpcObject::Queue(mut q) => {
                q.waiters_mut(which == Cond::NotEmpty).wait(sched, table);
                IpcObject::Queue(q)
            },
            IpcObject::Shared(m) => IpcObject::Shared(m),
        };
        self.map.insert(handle, obj2);
        proof {
            assert(self.objects() =~= old(self).objects().insert(handle, obj2));
            assert forall|k: u64| #[trigger] self.objects().contains_key(k) implies k < self.next()
                && self.objects()[k].object_ok() by {
                assert(old(self).objects().contains_key(k));
            }
        }
    }

    /// Wakes the thread at the front of queue `which` of the stream under `handle`, if any.
    pub fn cond_signal(&mut self, handle: u64, which: Cond, sched: &mut MlfqScheduler, table: &mut BTreeTaskRegistry)
        requires
            old(self).wf(),
            old(self).objects().contains_key(handle),
            !(old(self).objects()[handle] is Shared),
            old(table).wf(),
            old(sched).queues().len() == NUM_QUEUES,
        ensures
            final(self).wf(),
            final(self).next() == old(self).next(),
            final(self).objects() == old(self).objects().insert(handle, final(self).objects()[handle]),
            final(table).wf(),
            final(sched).current() == old(sched).current(),
            final(sched).queues().len() == NUM_QUEUES,
            ({
                let w = cond_waiting(old(self).objects()[handle], which);
                if w.len() == 0 {
                    &&& with_waiting(old(self).objects()[handle], final(self).objects()[handle], which, w)
                    &&& final(table).tasks() == old(table).tasks()
                    &&& final(sched).queues() == old(sched).queues()
                } else {
                    &&& with_waiting(
                        old(self).objects()[handle],
                        final(self).objects()[handle],
                        which,
                        w.subrange(1, w.len() as int),
                    )
                    &&& final(table).tasks() == woken(old(table).tasks(), w[0])
                    &&& final(sched).queues() == woken_queues(old(sched).queues(), old(table).tasks(), w[0])
                }
            }),
            old(sched).wf(old(table)) ==> final(sched).wf(final(table)),
    {
        let obj = self.map.remove(&handle).unwrap();
        assert(obj == old(self).objects()[handle]);
        let obj2 = match obj {
            IpcObject::Pipe(mut p) => {
                p.waiters_mut(which == Cond::NotEmpty).signal(sched, table);
                IpcObject::Pipe(p)
            },
            IpcObject::Queue(mut q) => {
                q.waiters_mut(which == Cond::NotEmpty).signal(sched, table);
                IpcObject::Queue(q)
            },
            IpcObject::Shared(m) => IpcObject::Shared(m),
        };
        self.map.insert(handle, obj2);
        proof {
            assert(self.objects() =~= old(self).objects().insert(handle, obj2));
            assert forall|k: u64| #[trigger] self.objects().contains_key(k) implies k < self.next()
                && self.objects()[k].object_ok() by {
                assert(old(self).objects().contains_key(k));
            }
        }
    }

    /// Closes the object under `handle` and drops it, first waking every thread waiting on it
    /// (readers, then writers), so that they see the end; `false` when no object has that
    /// handle.
    pub fn close_waking(&mut self, handle: u64, sched: &mut MlfqScheduler, table: &mut BTreeTaskRegistry) -> (found: bool)
        requires
            old(self).wf(),
            old(table).wf(),
            old(sched).queues().len() == NUM_QUEUES,
        ensures
            final(self).wf(),
            final(self).next() == old(self).next(),
            found == old(self).objects().contains_key(handle),
            final(self).objects() == old(self).objects().remove(handle),
            final(table).wf(),
            final(sched).current() == old(sched).current(),
            final(sched).queues().len() == NUM_QUEUES,
            ({
                let o = old(self).objects()[handle];
                let (t1, q1) = woken_all(old(table).tasks(), old(sched).queues(), cond_waiting(o, Cond::NotEmpty));
                if found {
                    (final(table).tasks(), final(sched).queues()) == woken_all(t1, q1, cond_waiting(o, Cond::NotFull))
                } else {
                    final(table).tasks() == old(table).tasks() && final(sched).queues() == old(sched).queues()
                }
            }),
            old(sched).wf(old(table)) ==> final(sched).wf(final(table)),
    {
        match self.map.remove(&handle) {
            None => {
                assert(self.map@ =~= old(self).map@.remove(handle));
                false
            },
            Some(obj) => {
                assert(old(self).objects().contains_key(handle) && obj == old(self).objects()[handle]);
                match obj {
                    IpcObject::Pipe(mut p) => {
                        p.close();
                        p.waiters_mut(true).broadcast(sched, table);
                        p.waiters_mut(false).broadcast(sched, table);
                    },
                    IpcObject::Queue(mut q) => {
                        q.close();
                        q.waiters_mut(true).broadcast(sched, table);
                        q.waiters_mut(false).broadcast(sched, table);
                    },
                    IpcObject::Shared(mut m) => {
                        m.close();
                        proof {
                            assert(Seq::<Tid>::empty().len() == 0);
                        }
                        wake_none(sched, table);
                    },
                }
                proof {
                    assert forall|k: u64| #[trigger] self.objects().contains_key(k) implies k < self.next()
                        && self.objects()[k].object_ok() by {
                        assert(old(self).objects().contains_key(k));
                    }
                }
                true
            },
        }
    }
}

/// Wakes nobody: `woken_all` of an empty list, twice over.
fn wake_none(sched: &mut MlfqScheduler, table: &mut BTreeTaskRegistry)
    requires
        old(table).wf(),
        old(sched).queues().len() == NUM_QUEUES,
    ensures
        final(table).wf(),
        final(sched).current() == old(sched).current(),
        final(sched).queues().len() == NUM_QUEUES,
        ({
            let (t1, q1) = woken_all(old(table).tasks(), old(sched).queues(), Seq::<Tid>::empty());
            (final(table).tasks(), final(sched).queues()) == woken_all(t1, q1, Seq::<Tid>::empty())
        }),
        old(sched).wf(old(table)) ==> final(sched).wf(final(table)),
{
    let none: Vec<Tid> = Vec::new();
    wake_all(sched, table, &none);
    wake_all(sched, table, &none);
}

} // verus!
