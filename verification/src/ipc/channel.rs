//! The interface every IPC object offers to the system-call layer.
//!
//! Calls never block: where the object cannot take or give anything yet, `send` reports how
//! much it took (possibly nothing) or `WouldBlock`, and the caller waits on the object's
//! condition variables and tries again.
use vstd::prelude::*;

verus! {

#[derive(Debug, Clone, Copy, PartialEq, Eq, Structural)]
pub enum IpcError {
    Closed,
    WouldBlock,
    TooLarge,
}

pub trait IpcChannel {
    /// The object's own consistency condition, kept by every operation.
    spec fn channel_ok(&self) -> bool;

    /// Hands bytes to the channel; returns how many it took.
    fn send(&mut self, buf: &[u8]) -> (r: Result<usize, IpcError>)
        requires
            old(self).channel_ok(),
        ensures
            final(self).channel_ok(),
    ;

    /// Takes bytes from the channel into `buf`; returns how many.
    fn recv(&mut self, buf: &mut [u8]) -> (r: Result<usize, IpcError>)
        requires
            old(self).channel_ok(),
        ensures
            final(self).channel_ok(),
            final(buf)@.len() == old(buf)@.len(),
            r matches Ok(n) ==> n <= old(buf)@.len(),
    ;

    /// Closes the channel: later sends fail, receives drain what is left.
    fn close(&mut self)
        requires
            old(self).channel_ok(),
        ensures
            final(self).channel_ok(),
    ;
}

} // verus!
