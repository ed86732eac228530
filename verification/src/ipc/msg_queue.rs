//! Message passing: fixed-size messages through a bounded mailbox, first in first out.
use vstd::prelude::*;
use std::collections::VecDeque;
use crate::ipc::channel::{IpcChannel, IpcError};
use crate::sync::condvar::CondVar;
use crate::process::pid::Tid;

verus! {

/// Bytes in every message.
pub const MSG_SIZE: usize = 256;

/// Messages a queue holds at most.
pub const MAX_MESSAGES: usize = 128;

pub struct MsgQueue {
    queue: VecDeque<Vec<u8>>,
    closed: bool,
    /// Receivers wait here while the queue is empty.
    pub not_empty: CondVar,
    /// Senders wait here while the queue is full.
    pub not_full: CondVar,
}

/// `data` zero-padded to a whole message.
pub open spec fn padded(data: Seq<u8>) -> Seq<u8> {
    data + Seq::new((MSG_SIZE - data.len()) as nat, |i: int| 0u8)
}

impl MsgQueue {
    /// The queued messages, oldest first.
    pub closed spec fn messages(&self) -> Seq<Seq<u8>> {
        Seq::new(self.queue@.len(), |i: int| self.queue@[i]@)
    }

    pub closed spec fn is_closed(&self) -> bool {
        self.closed
    }

    pub open spec fn wf(&self) -> bool {
        &&& self.messages().len() <= MAX_MESSAGES
        &&& forall|i: int| 0 <= i < self.messages().len() ==> (#[trigger] self.messages()[i]).len() == MSG_SIZE
    }

    /// The threads waiting for data (`readers`) or for room.
    pub closed spec fn waiting_on(&self, readers: bool) -> Seq<Tid> {
        if readers {
            self.not_empty.waiting()
        } else {
            self.not_full.waiting()
        }
    }

    /// The queue of threads waiting for data (`readers`) or for room, to wait on or wake.
    pub fn waiters_mut(&mut self, readers: bool) -> (r: &mut CondVar)
        ensures
            r.waiting() == old(self).waiting_on(readers),
            final(self).messages() == old(self).messages(),
            final(self).is_closed() == old(self).is_closed(),
            final(self).waiting_on(readers) == final(r).waiting(),
            final(self).waiting_on(!readers) == old(self).waiting_on(!readers),
    {
        if readers {
            &mut self.not_empty
        } else {
            &mut self.not_full
        }
    }

    pub fn new() -> (r: Self)
        ensures
            r.wf(),
            r.messages() == Seq::<Seq<u8>>::empty(),
            !r.is_closed(),
    {
        let r = Self { queue: VecDeque::new(), closed: false, not_empty: CondVar::new(), not_full: CondVar::new() };
        assert(r.messages() =~= Seq::<Seq<u8>>::empty());
        r
    }
}

/// What a send of `data` on queue `a` does: `b` is the queue after it, `r` the result. Data
/// longer than a message is `TooLarge`; a closed queue refuses; a full one is `WouldBlock`;
/// otherwise `data`, zero-padded, joins the end and its length comes back.
pub open spec fn queue_send_post(a: MsgQueue, b: MsgQueue, data: Seq<u8>, r: Result<usize, IpcError>) -> bool {
    &&& b.is_closed() == a.is_closed()
    &&& data.len() > MSG_SIZE ==> r == Err::<usize, IpcError>(IpcError::TooLarge)
    &&& data.len() <= MSG_SIZE && a.is_closed() ==> r == Err::<usize, IpcError>(IpcError::Closed)
    &&& data.len() <= MSG_SIZE && !a.is_closed() && a.messages().len() == MAX_MESSAGES ==> r == Err::<usize, IpcError>(
        IpcError::WouldBlock,
    )
    &&& r is Err ==> b.messages() == a.messages()
    &&& data.len() <= MSG_SIZE && !a.is_closed() && a.messages().len() < MAX_MESSAGES ==> r == Ok::<usize, IpcError>(
        data.len() as usize,
    ) && b.messages() == a.messages().push(padded(data))
}

/// What a receive into a buffer holding `out0` does on queue `a`: `b` is the queue after it,
/// `out1` the buffer after it. The oldest message leaves and as much of it as the buffer
/// holds is copied; on an empty queue nothing moves and the result is `Ok(0)` once closed,
/// else `WouldBlock`.
pub open spec fn queue_recv_post(a: MsgQueue, b: MsgQueue, out0: Seq<u8>, out1: Seq<u8>, r: Result<usize, IpcError>) -> bool {
    &&& b.is_closed() == a.is_closed()
    &&& out1.len() == out0.len()
    &&& a.messages().len() == 0 ==> b.messages() == a.messages() && out1 == out0 && r == (if a.is_closed() {
        Ok::<usize, IpcError>(0)
    } else {
        Err::<usize, IpcError>(IpcError::WouldBlock)
    })
    &&& a.messages().len() > 0 ==> {
        let n = if out0.len() < MSG_SIZE { out0.len() as int } else { MSG_SIZE as int };
        &&& r == Ok::<usize, IpcError>(n as usize)
        &&& out1 == a.messages()[0].subrange(0, n) + out0.subrange(n, out0.len() as int)
        &&& b.messages() == a.messages().drop_first()
    }
}

impl IpcChannel for MsgQueue {
    open spec fn channel_ok(&self) -> bool {
        self.wf()
    }

    /// Queues `data`, zero-padded to a whole message. Refuses a payload longer than a message,
    /// then a closed queue; a full queue would block.
    fn send(&mut self, data: &[u8]) -> (r: Result<usize, IpcError>)
        ensures
            queue_send_post(*old(self), *final(self), data@, r),
            final(self).waiting_on(true) == old(self).waiting_on(true),
            final(self).waiting_on(false) == old(self).waiting_on(false),
    {
        if data.len() > MSG_SIZE {
            return Err(IpcError::TooLarge);
        }
        if self.closed {
            return Err(IpcError::Closed);
        }
        if self.queue.len() >= MAX_MESSAGES {
            return Err(IpcError::WouldBlock);
        }
        let mut msg: Vec<u8> = Vec::new();
        let mut i: usize = 0;
        while i < MSG_SIZE
            invariant
                i <= MSG_SIZE,
                data@.len() <= MSG_SIZE,
                msg@.len() == i,
                forall|k: int| 0 <= k < i ==> #[trigger] msg@[k] == (if k < data@.len() { data@[k] } else { 0u8 }),
            decreases MSG_SIZE - i,
        {
            if i < data.len() {
                msg.push(data[i]);
            } else {
                msg.push(0);
            }
            i = i + 1;
        }
        proof {
            assert(msg@ =~= padded(data@));
        }
        self.queue.push_back(msg);
        proof {
            assert(self.messages() =~= old(self).messages().push(padded(data@)));
        }
        Ok(data.len())
    }

    /// Takes the oldest message and copies as much of it as `out` holds. On an empty queue:
    /// `Ok(0)` once closed, else `WouldBlock`.
    fn recv(&mut self, out: &mut [u8]) -> (r: Result<usize, IpcError>)
        ensures
            final(out)@.len() == old(out)@.len(),
            queue_recv_post(*old(self), *final(self), old(out)@, final(out)@, r),
            final(self).waiting_on(true) == old(self).waiting_on(true),
            final(self).waiting_on(false) == old(self).waiting_on(false),
    {
        match self.queue.pop_front() {
            None => {
                if self.closed {
                    Ok(0)
                } else {
                    Err(IpcError::WouldBlock)
                }
            },
            Some(msg) => {
                proof {
                    assert(self.messages() =~= old(self).messages().drop_first());
                    assert(msg@ == old(self).messages()[0]);
                }
                let n = if out.len() < MSG_SIZE { out.len() } else { MSG_SIZE };
                let mut i: usize = 0;
                while i < n
                    invariant
                        i <= n,
                        n <= msg@.len(),
                        n <= out@.len(),
                        out@.len() == old(out)@.len(),
                        forall|k: int| 0 <= k < i ==> #[trigger] out@[k] == msg@[k],
                        forall|k: int| i <= k < out@.len() ==> #[trigger] out@[k] == old(out)@[k],
                    decreases n - i,
                {
                    out[i] = msg[i];
                    i = i + 1;
                }
                proof {
                    assert(out@ =~= msg@.subrange(0, n as int) + old(out)@.subrange(n as int, old(out)@.len() as int));
                }
                Ok(n)
            },
        }
    }

    fn close(&mut self)
        ensures
            final(self).is_closed(),
            final(self).messages() == old(self).messages(),
            final(self).waiting_on(true) == old(self).waiting_on(true),
            final(self).waiting_on(false) == old(self).waiting_on(false),
    {
        self.closed = true;
    }
}

/// Messages leave a queue in the order they came: after a send to an open queue with room,
/// the next receive into a one-message buffer returns the oldest message held before the send,
/// or, when the queue was empty, the sent data zero-padded to a whole message.
pub proof fn lemma_queue_fifo(
    a: MsgQueue,
    b: MsgQueue,
    c: MsgQueue,
    data: Seq<u8>,
    out0: Seq<u8>,
    out1: Seq<u8>,
    sent: Result<usize, IpcError>,
    got: Result<usize, IpcError>,
)
    requires
        a.wf(),
        !a.is_closed(),
        data.len() <= MSG_SIZE,
        a.messages().len() < MAX_MESSAGES,
        out0.len() == MSG_SIZE,
        queue_send_post(a, b, data, sent),
        queue_recv_post(b, c, out0, out1, got),
    ensures
        sent == Ok::<usize, IpcError>(data.len() as usize),
        got == Ok::<usize, IpcError>(MSG_SIZE),
        a.messages().len() == 0 ==> out1 == padded(data) && c.messages().len() == 0,
        a.messages().len() > 0 ==> out1 == a.messages()[0] && c.messages() == a.messages().drop_first().push(
            padded(data),
        ),
{
    assert(out0.subrange(MSG_SIZE as int, MSG_SIZE as int) =~= Seq::<u8>::empty());
    let first = b.messages()[0];
    if a.messages().len() == 0 {
        assert(first == padded(data));
    } else {
        assert(first == a.messages()[0]);
        assert(b.messages().drop_first() =~= a.messages().drop_first().push(padded(data)));
    }
    assert(first.len() == MSG_SIZE);
    assert(first.subrange(0, MSG_SIZE as int) =~= first);
}

} // verus!
