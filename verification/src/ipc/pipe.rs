//! An ordinary pipe: a bounded byte stream, first in first out.
use vstd::prelude::*;
use std::collections::VecDeque;
use crate::ipc::channel::{IpcChannel, IpcError};
use crate::sync::condvar::CondVar;
use crate::process::pid::Tid;

verus! {

/// Bytes a pipe holds at most.
pub const PIPE_BUF: usize = 4096;

pub struct Pipe {
    buf: VecDeque<u8>,
    closed: bool,
    /// Readers wait here while the pipe is empty.
    pub not_empty: CondVar,
    /// Writers wait here while the pipe is full.
    pub not_full: CondVar,
}

impl Pipe {
    /// The bytes in the pipe, oldest first.
    pub closed spec fn contents(&self) -> Seq<u8> {
        self.buf@
    }

    pub closed spec fn is_closed(&self) -> bool {
        self.closed
    }

    pub open spec fn wf(&self) -> bool {
        self.contents().len() <= PIPE_BUF
    }

    /// The threads waiting for data (`readers`) or for room.
    pub closed spec fn waiting_on(&self, readers: bool) -> Seq<Tid> {
        if readers {
            self.not_empty.waiting()
        } else {
            self.not_full.waiting()
        }
    }

    /// The queue of threads waiting for data (`readers`) or for room, to wait on or wake.
    pub fn waiters_mut(&mut self, readers: bool) -> (r: &mut CondVar)
        ensures
            r.waiting() == old(self).waiting_on(readers),
            final(self).contents() == old(self).contents(),
            final(self).is_closed() == old(self).is_closed(),
            final(self).waiting_on(readers) == final(r).waiting(),
            final(self).waiting_on(!readers) == old(self).waiting_on(!readers),
    {
        if readers {
            &mut self.not_empty
        } else {
            &mut self.not_full
        }
    }

    pub fn new() -> (r: Self)
        ensures
            r.wf(),
            r.contents() == Seq::<u8>::empty(),
            !r.is_closed(),
    {
        Self { buf: VecDeque::new(), closed: false, not_empty: CondVar::new(), not_full: CondVar::new() }
    }

    /// Bytes held now.
    pub fn len(&self) -> (r: usize)
        ensures
            r == self.contents().len(),
    {
        self.buf.len()
    }
}

/// How many bytes a send of `data_len` bytes moves into a pipe holding `held`.
pub open spec fn pipe_take(held: int, data_len: int) -> int {
    if data_len < PIPE_BUF - held { data_len } else { PIPE_BUF - held }
}

/// What a send of `data` on pipe `a` does: `b` is the pipe after it, `r` the result. An empty
/// `data` succeeds even on a closed pipe; otherwise a closed pipe refuses, and an open one
/// takes as much of `data` as there is room for.
pub open spec fn pipe_send_post(a: Pipe, b: Pipe, data: Seq<u8>, r: Result<usize, IpcError>) -> bool {
    &&& b.is_closed() == a.is_closed()
    &&& data.len() == 0 ==> r == Ok::<usize, IpcError>(0) && b.contents() == a.contents()
    &&& data.len() > 0 && a.is_closed() ==> r == Err::<usize, IpcError>(IpcError::Closed) && b.contents() == a.contents()
    &&& data.len() > 0 && !a.is_closed() ==> {
        let n = pipe_take(a.contents().len() as int, data.len() as int);
        &&& r == Ok::<usize, IpcError>(n as usize)
        &&& b.contents() == a.contents() + data.subrange(0, n)
    }
}

/// What a receive into a buffer holding `out0` does on pipe `a`: `b` is the pipe after it,
/// `out1` the buffer after it, `r` the result. The oldest bytes are taken, as many as the buffer
/// holds; on an empty pipe nothing moves and the result is `Ok(0)` once closed, else
/// `WouldBlock`.
pub open spec fn pipe_recv_post(a: Pipe, b: Pipe, out0: Seq<u8>, out1: Seq<u8>, r: Result<usize, IpcError>) -> bool {
    &&& b.is_closed() == a.is_closed()
    &&& out1.len() == out0.len()
    &&& a.contents().len() == 0 ==> b.contents() == a.contents() && out1 == out0 && r == (if a.is_closed() {
        Ok::<usize, IpcError>(0)
    } else {
        Err::<usize, IpcError>(IpcError::WouldBlock)
    })
    &&& a.contents().len() > 0 ==> {
        let n = if out0.len() < a.contents().len() { out0.len() as int } else { a.contents().len() as int };
        &&& r == Ok::<usize, IpcError>(n as usize)
        &&& out1 == a.contents().subrange(0, n) + out0.subrange(n, out0.len() as int)
        &&& b.contents() == a.contents().subrange(n, a.contents().len() as int)
    }
}

impl IpcChannel for Pipe {
    open spec fn channel_ok(&self) -> bool {
        self.wf()
    }

    /// Appends as much of `data` as there is room for. An empty `data` succeeds even on a
    /// closed pipe; otherwise a closed pipe refuses.
    fn send(&mut self, data: &[u8]) -> (r: Result<usize, IpcError>)
        ensures
            pipe_send_post(*old(self), *final(self), data@, r),
            final(self).waiting_on(true) == old(self).waiting_on(true),
            final(self).waiting_on(false) == old(self).waiting_on(false),
    {
        if data.len() == 0 {
            return Ok(0);
        }
        if self.closed {
            return Err(IpcError::Closed);
        }
        let space = PIPE_BUF - self.buf.len();
        let n = if data.len() < space { data.len() } else { space };
        let ghost c0 = self.buf@;
        let mut i: usize = 0;
        while i < n
            invariant
                i <= n,
                n <= data@.len(),
                c0.len() + n <= PIPE_BUF,
                self.buf@ == c0 + data@.subrange(0, i as int),
                self.closed == old(self).closed,
                self.not_empty == old(self).not_empty,
                self.not_full == old(self).not_full,
            decreases n - i,
        {
            self.buf.push_back(data[i]);
            i = i + 1;
            proof {
                assert(self.buf@ =~= c0 + data@.subrange(0, i as int));
            }
        }
        Ok(n)
    }

    /// Takes the oldest bytes, as many as `out` holds. On an empty pipe: `Ok(0)` once closed,
    /// else `WouldBlock`.
    fn recv(&mut self, out: &mut [u8]) -> (r: Result<usize, IpcError>)
        ensures
            final(out)@.len() == old(out)@.len(),
            pipe_recv_post(*old(self), *final(self), old(out)@, final(out)@, r),
            final(self).waiting_on(true) == old(self).waiting_on(true),
            final(self).waiting_on(false) == old(self).waiting_on(false),
    {
        if self.buf.len() == 0 {
            if self.closed {
                return Ok(0);
            }
            return Err(IpcError::WouldBlock);
        }
        let n = if out.len() < self.buf.len() { out.len() } else { self.buf.len() };
        let ghost c0 = self.buf@;
        let mut i: usize = 0;
        while i < n
            invariant
                i <= n,
                n <= c0.len(),
                n <= out@.len(),
                out@.len() == old(out)@.len(),
                self.buf@ == c0.subrange(i as int, c0.len() as int),
                self.closed == old(self).closed,
                self.not_empty == old(self).not_empty,
                self.not_full == old(self).not_full,
                c0.len() <= PIPE_BUF,
                forall|k: int| 0 <= k < i ==> #[trigger] out@[k] == c0[k],
                forall|k: int| i <= k < out@.len() ==> #[trigger] out@[k] == old(out)@[k],
            decreases n - i,
        {
            let b = self.buf.pop_front();
            match b {
                Some(byte) => {
                    out[i] = byte;
                },
                None => {},
            }
            i = i + 1;
            proof {
                assert(self.buf@ =~= c0.subrange(i as int, c0.len() as int));
            }
        }
        proof {
            assert(out@ =~= c0.subrange(0, n as int) + old(out)@.subrange(n as int, old(out)@.len() as int));
        }
        Ok(n)
    }

    fn close(&mut self)
        ensures
            final(self).is_closed(),
            final(self).contents() == old(self).contents(),
            final(self).waiting_on(true) == old(self).waiting_on(true),
            final(self).waiting_on(false) == old(self).waiting_on(false),
    {
        self.closed = true;
    }
}

/// A pipe gives bytes back in the order it took them: once `data` is sent into an open pipe
/// with room for all of it, a receive into a buffer as long as everything held returns the
/// bytes held before, then `data`, and empties the pipe.
pub proof fn lemma_pipe_fifo(
    a: Pipe,
    b: Pipe,
    c: Pipe,
    data: Seq<u8>,
    out0: Seq<u8>,
    out1: Seq<u8>,
    sent: Result<usize, IpcError>,
    got: Result<usize, IpcError>,
)
    requires
        a.wf(),
        !a.is_closed(),
        data.len() > 0,
        a.contents().len() + data.len() <= PIPE_BUF,
        out0.len() == a.contents().len() + data.len(),
        pipe_send_post(a, b, data, sent),
        pipe_recv_post(b, c, out0, out1, got),
    ensures
        sent == Ok::<usize, IpcError>(data.len() as usize),
        got == Ok::<usize, IpcError>(out0.len() as usize),
        out1 == a.contents() + data,
        c.contents().len() == 0,
{
    assert(data.subrange(0, data.len() as int) =~= data);
    assert(b.contents() == a.contents() + data);
    assert(out0.subrange(out0.len() as int, out0.len() as int) =~= Seq::<u8>::empty());
    assert(b.contents().subrange(0, out0.len() as int) =~= b.contents());
    assert(out1 =~= a.contents() + data);
}

} // verus!
