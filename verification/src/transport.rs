//! The two directions of a byte stream, held in memory: what arrived and
//! waits to be decoded, and what was written and waits to be sent.

use vstd::prelude::*;
use crate::error::WebSocketError;
use crate::text::push_all;

verus! {

/// What one read on the transport gave.
pub enum ReadOutcome {
    /// The bytes that were read. None at all means that the stream has ended.
    Read(Vec<u8>),
    /// Nothing arrived in time; more may arrive later.
    WouldBlock,
    /// The read failed.
    Failed,
}

/// The reading side of a connection: bytes that arrived from the transport
/// and were not yet decoded, and whether the transport reported its end.
pub struct Inbound {
    data: Vec<u8>,
    pos: usize,
    closed: bool,
}

/// The mathematical value of an [`Inbound`].
#[verifier::ext_equal]
pub struct InboundView {
    /// The bytes that arrived and were not consumed yet, oldest first.
    pub unread: Seq<u8>,
    /// True once the transport reported end of stream.
    pub closed: bool,
}

impl View for Inbound {
    type V = InboundView;

    closed spec fn view(&self) -> InboundView {
        InboundView { unread: self.data@.skip(self.pos as int), closed: self.closed }
    }
}

impl Inbound {
    #[verifier::type_invariant]
    spec fn cursor_in_bounds(self) -> bool {
        self.pos <= self.data@.len()
    }

    /// An open source with nothing received yet.
    pub fn new() -> (r: Inbound)
        ensures
            r@.unread == Seq::<u8>::empty(),
            !r@.closed,
    {
        Inbound { data: Vec::new(), pos: 0, closed: false }
    }

    /// Appends bytes that the transport delivered.
    pub fn feed(&mut self, bytes: &[u8])
        ensures
            final(self)@.unread == old(self)@.unread + bytes@,
            final(self)@.closed == old(self)@.closed,
    {
        proof {
            use_type_invariant(&*self);
        }
        let mut fresh: Vec<u8> = Vec::new();
        let mut i: usize = self.pos;
        while i < self.data.len()
            invariant
                self.pos <= i <= self.data@.len(),
                fresh@ == self.data@.subrange(self.pos as int, i as int),
            decreases self.data@.len() - i,
        {
            fresh.push(self.data[i]);
            i += 1;
        }
        push_all(&mut fresh, bytes);
        *self = Inbound { data: fresh, pos: 0, closed: self.closed };
    }

    /// Takes in what one read on the transport gave, as `after_read` says.
    pub fn take_in(&mut self, outcome: ReadOutcome)
        ensures
            final(self)@ == old(self)@.after_read(outcome),
    {
        match outcome {
            ReadOutcome::Read(bytes) => {
                if bytes.len() == 0 {
                    self.close();
                } else {
                    self.feed(bytes.as_slice());
                }
            },
            ReadOutcome::WouldBlock => {},
            ReadOutcome::Failed => {
                self.close();
            },
        }
    }

    /// Records that the transport reported end of stream.
    pub fn close(&mut self)
        ensures
            final(self)@.unread == old(self)@.unread,
            final(self)@.closed,
    {
        proof {
            use_type_invariant(&*self);
        }
        self.closed = true;
    }

    /// Whether the transport reported end of stream.
    pub fn is_closed(&self) -> (b: bool)
        ensures
            b == self@.closed,
    {
        self.closed
    }

    /// How many bytes wait to be decoded.
    pub fn available(&self) -> (n: usize)
        ensures
            n == self@.unread.len(),
    {
        proof {
            use_type_invariant(self);
        }
        self.data.len() - self.pos
    }

    /// The bytes that wait to be decoded.
    pub fn unread(&self) -> (bytes: &[u8])
        ensures
            bytes@ == self@.unread,
    {
        proof {
            use_type_invariant(self);
        }
        vstd::slice::slice_subrange(self.data.as_slice(), self.pos, self.data.len())
    }

    /// Drops the first `n` waiting bytes.
    pub fn consume(&mut self, n: usize)
        requires
            n <= old(self)@.unread.len(),
        ensures
            final(self)@.unread == old(self)@.unread.skip(n as int),
            final(self)@.closed == old(self)@.closed,
    {
        proof {
            use_type_invariant(&*self);
        }
        let len = self.data.len();
        assert(self@.unread.len() == len - self.pos);
        self.pos = self.pos + n;
    }

    /// One read from the transport: hands out at most `max` waiting bytes.
    /// With nothing waiting the result is empty at end of stream, and
    /// `WouldBlock` while more may still arrive.
    pub fn read(&mut self, max: usize) -> (res: Result<Vec<u8>, WebSocketError>)
        ensures
            final(self)@.closed == old(self)@.closed,
            old(self)@.unread.len() == 0 && !old(self)@.closed ==> res == Err::<
                Vec<u8>,
                WebSocketError,
            >(WebSocketError::WouldBlock) && final(self)@ == old(self)@,
            old(self)@.unread.len() > 0 || old(self)@.closed ==> res is Ok && {
                let n = if max <= old(self)@.unread.len() {
                    max as int
                } else {
                    old(self)@.unread.len() as int
                };
                &&& res->Ok_0@ == old(self)@.unread.take(n)
                &&& final(self)@.unread == old(self)@.unread.skip(n)
            },
    {
        let avail = self.available();
        if avail == 0 && !self.closed {
            return Err(WebSocketError::WouldBlock);
        }
        let n: usize = if max <= avail { max } else { avail };
        let out = vstd::slice::slice_to_vec(vstd::slice::slice_subrange(self.unread(), 0, n));
        self.consume(n);
        Ok(out)
    }
}

/// The writing side of a connection: bytes the protocol wants sent and that
/// the transport did not take yet, and whether the writing direction was shut.
pub struct Outbound {
    pending: Vec<u8>,
    shut_down: bool,
}

/// The mathematical value of an [`Outbound`].
#[verifier::ext_equal]
pub struct OutboundView {
    /// The bytes written and not yet taken by the transport, oldest first.
    pub pending: Seq<u8>,
    /// True once the writing direction was shut down.
    pub shut_down: bool,
}

impl OutboundView {
    /// The sink after a write of `bytes`: with them queued behind what was
    /// queued before, or unchanged where the writing direction was shut down.
    pub open spec fn written(self, bytes: Seq<u8>) -> OutboundView {
        if self.shut_down {
            self
        } else {
            OutboundView { pending: self.pending + bytes, ..self }
        }
    }

    /// What a write returns.
    pub open spec fn write_result(self) -> Result<(), WebSocketError> {
        if self.shut_down {
            Err(WebSocketError::UnknownError)
        } else {
            Ok(())
        }
    }
}

impl InboundView {
    /// The source after one read on the transport: bytes that were read wait
    /// behind those that waited before; a read of no bytes, and a read that
    /// failed, end the stream; a read that would block changes nothing.
    pub open spec fn after_read(self, outcome: ReadOutcome) -> InboundView {
        match outcome {
            ReadOutcome::Read(bytes) => if bytes@.len() == 0 {
                InboundView { closed: true, ..self }
            } else {
                InboundView { unread: self.unread + bytes@, ..self }
            },
            ReadOutcome::WouldBlock => self,
            ReadOutcome::Failed => InboundView { closed: true, ..self },
        }
    }

    /// The source without its first `n` waiting bytes.
    pub open spec fn advanced(self, n: nat) -> InboundView {
        InboundView { unread: self.unread.skip(n as int), ..self }
    }
}

impl View for Outbound {
    type V = OutboundView;

    closed spec fn view(&self) -> OutboundView {
        OutboundView { pending: self.pending@, shut_down: self.shut_down }
    }
}

impl Outbound {
    /// A sink that is open and holds nothing.
    pub fn new() -> (w: Outbound)
        ensures
            w@.pending == Seq::<u8>::empty(),
            !w@.shut_down,
    {
        Outbound { pending: Vec::new(), shut_down: false }
    }

    /// Queues all of `bytes`, or nothing at all when the writing direction
    /// was shut down before.
    pub fn write_all(&mut self, bytes: &[u8]) -> (res: Result<(), WebSocketError>)
        ensures
            final(self)@ == old(self)@.written(bytes@),
            res == old(self)@.write_result(),
    {
        if self.shut_down {
            return Err(WebSocketError::UnknownError);
        }
        push_all(&mut self.pending, bytes);
        Ok(())
    }

    /// Shuts the writing direction down. What was queued before still goes out.
    pub fn shutdown(&mut self)
        ensures
            final(self)@.pending == old(self)@.pending,
            final(self)@.shut_down,
    {
        self.shut_down = true;
    }

    /// Whether the writing direction was shut down.
    pub fn is_shut_down(&self) -> (b: bool)
        ensures
            b == self@.shut_down,
    {
        self.shut_down
    }

    /// Another handle to the same transport: it holds nothing yet, and the
    /// writing direction is shut down for it if it is for this one at the
    /// time of this call. The two queues share nothing afterwards.
    pub fn handle(&self) -> (w: Outbound)
        ensures
            w@.pending == Seq::<u8>::empty(),
            w@.shut_down == self@.shut_down,
    {
        Outbound { pending: Vec::new(), shut_down: self.shut_down }
    }

    /// Hands the queued bytes to the transport and leaves the queue empty.
    pub fn take_pending(&mut self) -> (bytes: Vec<u8>)
        ensures
            bytes@ == old(self)@.pending,
            final(self)@.pending == Seq::<u8>::empty(),
            final(self)@.shut_down == old(self)@.shut_down,
    {
        let mut out: Vec<u8> = Vec::new();
        out.append(&mut self.pending);
        out
    }
}

} // verus!
