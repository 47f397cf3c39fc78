pub mod frame;
pub mod laws;
pub mod wire;

use crate::frame::{copy_range, push_all, Check, Error, Frame};
use crate::wire::{parse_at, Parsed};
use vstd::prelude::*;

verus! {

broadcast use vstd::seq::group_seq_axioms;

/// Upper bound on the receive buffer, guarding against unbounded growth
/// from a hostile or buggy peer.
pub const MAX_BUFFER_BYTES: usize = 64 * 1024 * 1024;

/// Buffered frame assembly for one byte-stream connection: owns the
/// receive buffer, accumulates transport reads, and hands out complete
/// frames in arrival order. The transport itself stays outside; it feeds
/// bytes in and learns from `stream_end` how a close is to be read.
pub struct Connection {
    buffer: Vec<u8>,
}

impl View for Connection {
    type V = Seq<u8>;

    closed spec fn view(&self) -> Seq<u8> {
        self.buffer@
    }
}

impl Connection {
    pub fn new() -> (c: Connection)
        ensures
            c@ == Seq::<u8>::empty(),
    {
        Connection { buffer: Vec::new() }
    }

    /// Number of buffered bytes not yet consumed by a decoded frame.
    pub fn pending(&self) -> (n: usize)
        ensures
            n == self@.len(),
    {
        self.buffer.len()
    }

    /// Append bytes read from the transport to the receive buffer;
    /// refused, with the buffer untouched, when the bound would be
    /// exceeded.
    pub fn feed(&mut self, data: &Vec<u8>) -> (r: Result<(), Error>)
        ensures
            match r {
                Ok(()) => {
                    &&& old(self)@.len() + data@.len() <= MAX_BUFFER_BYTES
                    &&& final(self)@ == old(self)@ + data@
                },
                Err(e) => {
                    &&& e is Protocol
                    &&& old(self)@.len() + data@.len() > MAX_BUFFER_BYTES
                    &&& final(self)@ == old(self)@
                },
            },
    {
        if data.len() > MAX_BUFFER_BYTES || self.buffer.len() > MAX_BUFFER_BYTES - data.len() {
            return Err(Error::due_to_protocol("receive buffer bound exceeded"));
        }
        push_all(&mut self.buffer, data);
        Ok(())
    }

    /// Try to take one frame off the front of the receive buffer.
    ///
    /// `Ok(Some(frame))` discards exactly the frame's bytes and leaves
    /// the rest buffered; `Ok(None)` asks the caller to read more bytes
    /// from the transport first; an error reports a protocol violation,
    /// after which the connection is unusable.
    pub fn try_read_frame(&mut self) -> (r: Result<Option<Frame>, Error>)
        ensures
            match r {
                Ok(Some(f)) => {
                    &&& parse_at(old(self)@, 0) matches Parsed::Done { val, end } && val == f@
                        && final(self)@ == old(self)@.subrange(end, old(self)@.len() as int)
                },
                Ok(None) => {
                    &&& parse_at(old(self)@, 0) is Incomplete
                    &&& final(self)@ == old(self)@
                },
                Err(e) => {
                    &&& e is Protocol
                    &&& parse_at(old(self)@, 0) is Bad
                    &&& final(self)@ == old(self)@
                },
            },
    {
        match Frame::check(&self.buffer, 0) {
            Check::Incomplete => Ok(None),
            Check::Malformed => Err(Error::due_to_protocol("malformed frame")),
            Check::Complete(_) => {
                match Frame::parse(&self.buffer, 0) {
                    Ok(pair) => {
                        let (f, end) = pair;
                        let rest = copy_range(&self.buffer, end, self.buffer.len());
                        self.buffer = rest;
                        Ok(Some(f))
                    },
                    Err(e) => {
                        proof {
                            assert(false);
                        }
                        Err(e)
                    },
                }
            },
        }
    }

    /// Classify the transport reporting end of stream: a clean close
    /// when no bytes are pending, a frame truncated by the peer
    /// otherwise.
    pub fn stream_end(&self) -> (r: Result<(), Error>)
        ensures
            match r {
                Ok(()) => self@.len() == 0,
                Err(e) => e is StreamEndedEarly && self@.len() > 0,
            },
    {
        if self.buffer.len() == 0 {
            Ok(())
        } else {
            Err(Error::StreamEndedEarly)
        }
    }
}

} // verus!
