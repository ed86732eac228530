//! The keyboard console: scancodes become ASCII, collected into a line that is echoed as it
//! is typed and handed to readers once Enter completes it.
use vstd::prelude::*;
use crate::arch::interrupts::{ScancodeQueue, pop_scancode, push_scancode, SCANCODE_SLOTS};
use crate::io::device::CharDevice;

verus! {

/// Bytes a line holds at most.
pub const LINE_MAX: usize = 256;

/// The ASCII of each scancode of the set-1 main block (0 where there is none).
pub open spec fn scancode_ascii(code: u8) -> u8 {
    match code {
        0x02 => 49u8,
        0x03 => 50u8,
        0x04 => 51u8,
        0x05 => 52u8,
        0x06 => 53u8,
        0x07 => 54u8,
        0x08 => 55u8,
        0x09 => 56u8,
        0x0A => 57u8,
        0x0B => 48u8,
        0x0C => 45u8,
        0x0D => 61u8,
        0x0E => 8u8,
        0x0F => 9u8,
        0x10 => 113u8,
        0x11 => 119u8,
        0x12 => 101u8,
        0x13 => 114u8,
        0x14 => 116u8,
        0x15 => 121u8,
        0x16 => 117u8,
        0x17 => 105u8,
        0x18 => 111u8,
        0x19 => 112u8,
        0x1A => 91u8,
        0x1B => 93u8,
        0x1C => 10u8,
        0x1E => 97u8,
        0x1F => 115u8,
        0x20 => 100u8,
        0x21 => 102u8,
        0x22 => 103u8,
        0x23 => 104u8,
        0x24 => 106u8,
        0x25 => 107u8,
        0x26 => 108u8,
        0x27 => 59u8,
        0x28 => 39u8,
        0x29 => 96u8,
        0x2B => 92u8,
        0x2C => 122u8,
        0x2D => 120u8,
        0x2E => 99u8,
        0x2F => 118u8,
        0x30 => 98u8,
        0x31 => 110u8,
        0x32 => 109u8,
        0x33 => 44u8,
        0x34 => 46u8,
        0x35 => 47u8,
        0x39 => 32u8,
        _ => 0u8,
    }
}

/// The character a scancode types: none for a key release (top bit set) or a key without one.
pub open spec fn decode_spec(code: u8) -> Option<u8> {
    if code & 0x80 != 0 || scancode_ascii(code) == 0 {
        None
    } else {
        Some(scancode_ascii(code))
    }
}

/// Looks up the ASCII of a scancode.
fn ascii_of(code: u8) -> (r: u8)
    ensures
        r == scancode_ascii(code),
{
    match code {
        0x02 => 49,
        0x03 => 50,
        0x04 => 51,
        0x05 => 52,
        0x06 => 53,
        0x07 => 54,
        0x08 => 55,
        0x09 => 56,
        0x0A => 57,
        0x0B => 48,
        0x0C => 45,
        0x0D => 61,
        0x0E => 8,
        0x0F => 9,
        0x10 => 113,
        0x11 => 119,
        0x12 => 101,
        0x13 => 114,
        0x14 => 116,
        0x15 => 121,
        0x16 => 117,
        0x17 => 105,
        0x18 => 111,
        0x19 => 112,
        0x1A => 91,
        0x1B => 93,
        0x1C => 10,
        0x1E => 97,
        0x1F => 115,
        0x20 => 100,
        0x21 => 102,
        0x22 => 103,
        0x23 => 104,
        0x24 => 106,
        0x25 => 107,
        0x26 => 108,
        0x27 => 59,
        0x28 => 39,
        0x29 => 96,
        0x2B => 92,
        0x2C => 122,
        0x2D => 120,
        0x2E => 99,
        0x2F => 118,
        0x30 => 98,
        0x31 => 110,
        0x32 => 109,
        0x33 => 44,
        0x34 => 46,
        0x35 => 47,
        0x39 => 32,
        _ => 0,
    }
}

/// The console state as (line being typed, completed line, read position in it, bytes
/// echoed), after one more scancode.
pub open spec fn feed(s: (Seq<u8>, Seq<u8>, int, Seq<u8>), code: u8) -> (Seq<u8>, Seq<u8>, int, Seq<u8>) {
    match decode_spec(code) {
        None => s,
        Some(ch) => {
            let (line, echo) = if s.0.len() < LINE_MAX { (s.0.push(ch), s.3.push(ch)) } else { (s.0, s.3) };
            if ch == 10 {
                (Seq::empty(), line, 0, echo)
            } else {
                (line, s.1, s.2, echo)
            }
        },
    }
}

/// The console state after a run of scancodes.
pub open spec fn feed_all(s: (Seq<u8>, Seq<u8>, int, Seq<u8>), codes: Seq<u8>) -> (Seq<u8>, Seq<u8>, int, Seq<u8>)
    decreases codes.len(),
{
    if codes.len() == 0 {
        s
    } else {
        feed_all(feed(s, codes[0]), codes.drop_first())
    }
}

pub struct Console {
    line_buf: Vec<u8>,
    ready_buf: Vec<u8>,
    ready_pos: usize,
    scancodes: ScancodeQueue,
    output: Vec<u8>,
}

impl Console {
    /// (line being typed, completed line, read position, bytes to send to the terminal).
    pub closed spec fn state(&self) -> (Seq<u8>, Seq<u8>, int, Seq<u8>) {
        (self.line_buf@, self.ready_buf@, self.ready_pos as int, self.output@)
    }

    /// The scancodes not yet drained.
    pub closed spec fn pending(&self) -> Seq<u8> {
        self.scancodes.codes()
    }

    pub closed spec fn wf(&self) -> bool {
        &&& self.scancodes.wf()
        &&& self.line_buf@.len() <= LINE_MAX
        &&& self.ready_buf@.len() <= LINE_MAX
        &&& self.ready_pos <= self.ready_buf@.len()
    }

    pub fn new() -> (r: Self)
        ensures
            r.wf(),
            r.state() == (Seq::<u8>::empty(), Seq::<u8>::empty(), 0int, Seq::<u8>::empty()),
            r.pending() == Seq::<u8>::empty(),
    {
        Self { line_buf: Vec::new(), ready_buf: Vec::new(), ready_pos: 0, scancodes: ScancodeQueue::new(), output: Vec::new() }
    }

    /// The character a scancode types, if any.
    pub fn decode_scancode(code: u8) -> (r: Option<u8>)
        ensures
            r == decode_spec(code),
    {
        if code & 0x80 != 0 {
            return None;
        }
        let c = ascii_of(code);
        if c == 0 {
            None
        } else {
            Some(c)
        }
    }

    /// Queues a scancode from the keyboard (dropped when the queue is full).
    pub fn push_scancode(&mut self, code: u8)
        requires
            old(self).wf(),
        ensures
            final(self).wf(),
            final(self).state() == old(self).state(),
            old(self).pending().len() < SCANCODE_SLOTS - 1 ==> final(self).pending() == old(self).pending().push(code),
            old(self).pending().len() == SCANCODE_SLOTS - 1 ==> final(self).pending() == old(self).pending(),
    {
        push_scancode(&mut self.scancodes, code);
    }

    /// Types every queued scancode into the line.
    fn drain_scancodes(&mut self)
        requires
            old(self).wf(),
        ensures
            final(self).wf(),
            final(self).pending() == Seq::<u8>::empty(),
            final(self).state() == feed_all(old(self).state(), old(self).pending()),
    {
        let ghost codes0 = self.scancodes.codes();
        loop
            invariant
                self.wf(),
                feed_all(self.state(), self.scancodes.codes()) == feed_all(old(self).state(), codes0),
                codes0 == old(self).pending(),
            ensures
                self.wf(),
                self.scancodes.codes() == Seq::<u8>::empty(),
                self.state() == feed_all(old(self).state(), codes0),
            decreases self.scancodes.codes().len(),
        {
            let ghost before = self.scancodes.codes();
            let code = match pop_scancode(&mut self.scancodes) {
                Some(c) => c,
                None => break,
            };
            match Self::decode_scancode(code) {
                Some(ch) => {
                    if self.line_buf.len() < LINE_MAX {
                        self.line_buf.push(ch);
                        self.output.push(ch);
                    }
                    if ch == 10 {
                        self.ready_buf = self.line_buf.clone();
                        self.ready_pos = 0;
                        self.line_buf = Vec::new();
                    }
                },
                None => {},
            }
        }
    }

    /// Bytes waiting to be sent to the terminal: the echo of typed characters and what was
    /// put. Hands them out and forgets them.
    pub fn take_output(&mut self) -> (r: Vec<u8>)
        requires
            old(self).wf(),
        ensures
            final(self).wf(),
            r@ == old(self).state().3,
            final(self).state() == (old(self).state().0, old(self).state().1, old(self).state().2, Seq::<u8>::empty()),
            final(self).pending() == old(self).pending(),
    {
        let mut out: Vec<u8> = Vec::new();
        std::mem::swap(&mut out, &mut self.output);
        out
    }
}

impl CharDevice for Console {
    open spec fn char_ok(&self) -> bool {
        self.wf()
    }

    /// The next byte of the completed line; when it is used up, the queued scancodes are
    /// typed first and the (possibly new) completed line is read.
    fn get(&mut self) -> (r: Option<u8>)
        ensures
            ({
                let s = old(self).state();
                if s.2 < s.1.len() {
                    &&& r == Some(s.1[s.2])
                    &&& final(self).state() == (s.0, s.1, s.2 + 1, s.3)
                    &&& final(self).pending() == old(self).pending()
                } else {
                    let t = feed_all(s, old(self).pending());
                    &&& final(self).pending() == Seq::<u8>::empty()
                    &&& if t.2 < t.1.len() {
                        r == Some(t.1[t.2]) && final(self).state() == (t.0, t.1, t.2 + 1, t.3)
                    } else {
                        r is None && final(self).state() == t
                    }
                }
            }),
    {
        if self.ready_pos < self.ready_buf.len() {
            let ch = self.ready_buf[self.ready_pos];
            self.ready_pos = self.ready_pos + 1;
            return Some(ch);
        }
        self.drain_scancodes();
        if self.ready_pos < self.ready_buf.len() {
            let ch = self.ready_buf[self.ready_pos];
            self.ready_pos = self.ready_pos + 1;
            Some(ch)
        } else {
            None
        }
    }

    /// Queues `byte` for the terminal.
    fn put(&mut self, byte: u8)
        ensures
            ({
                let s = old(self).state();
                final(self).state() == (s.0, s.1, s.2, s.3.push(byte))
            }),
            final(self).pending() == old(self).pending(),
    {
        self.output.push(byte);
    }
}

} // verus!
