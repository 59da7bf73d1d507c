//! The contract a non-blocking byte stream must meet to back a connection.
//!
//! A stream is a byte source/sink with queryable `readable`/`writable`
//! readiness flags, a stable routing token, and non-blocking `write` and
//! `read_chunk` operations that signal would-block as a distinct outcome, not
//! as an error. The specification views a stream through four quantities:
//! the bytes it has accepted so far (`wire`), the inbound bytes it has yet to
//! deliver (`incoming`), its token, and its two readiness flags.

use vstd::prelude::*;

verus! {

/// A readiness notification delivered by an external event loop, routed by
/// token.
#[derive(Clone, Copy, Debug, PartialEq, Eq, Structural)]
pub struct Event {
    /// The token of the stream the event is for.
    pub token: usize,
    /// Whether the stream has become readable.
    pub readable: bool,
    /// Whether the stream has become writable.
    pub writable: bool,
}

/// What one non-blocking write attempt did.
pub enum WriteOutcome {
    /// The stream accepted the first `n` bytes of the buffer.
    Accepted(usize),
    /// The stream accepted nothing for now; retry on the next writability
    /// event.
    WouldBlock,
    /// The stream is unusable; no bytes were accepted.
    Closed,
}

/// What one non-blocking read attempt returned.
pub enum ReadOutcome {
    /// A non-empty chunk of inbound bytes.
    Data(Vec<u8>),
    /// Nothing available for now; retry on the next readability event.
    WouldBlock,
    /// The stream is unusable; nothing was read.
    Closed,
}

/// An exclusively owned, non-blocking byte stream.
///
/// `wire` is the sequence of outbound bytes the stream has accepted so far;
/// `incoming` the inbound bytes it has yet to deliver. No operation may be
/// invoked while the corresponding readiness flag is false: the connection
/// never blocks the thread that drives it.
pub trait ByteStream: Sized {
    /// The outbound bytes accepted so far, in order. A verified
    /// implementation overrides this with its own model; the default stands
    /// only so that unverified code can implement the trait.
    open spec fn wire(&self) -> Seq<u8> {
        Seq::empty()
    }

    /// The inbound bytes not yet delivered, in arrival order. Overridden by
    /// verified implementations, as `wire` is.
    open spec fn incoming(&self) -> Seq<u8> {
        Seq::empty()
    }

    /// The routing token; stable for the life of the stream. Overridden by
    /// verified implementations, as `wire` is.
    open spec fn tok(&self) -> usize {
        0
    }

    /// The readable readiness flag. Overridden by verified implementations,
    /// as `wire` is.
    open spec fn is_readable(&self) -> bool {
        true
    }

    /// The writable readiness flag. Overridden by verified implementations,
    /// as `wire` is.
    open spec fn is_writable(&self) -> bool {
        true
    }

    /// Whether the stream has reported itself unusable: set the moment a
    /// write or read attempt returns `Closed`, and never cleared.
    /// Overridden by verified implementations, as `wire` is.
    open spec fn is_closed(&self) -> bool {
        false
    }

    fn readable(&self) -> (b: bool)
        ensures
            b == self.is_readable(),
    ;

    fn writable(&self) -> (b: bool)
        ensures
            b == self.is_writable(),
    ;

    fn token(&self) -> (t: usize)
        ensures
            t == self.tok(),
    ;

    /// Attempt one non-blocking write. The stream decides how many bytes it
    /// accepts; whatever it returns, it appends exactly the bytes it accepted
    /// and touches nothing else.
    fn write(&mut self, buf: &[u8]) -> (r: WriteOutcome)
        requires
            old(self).is_writable(),
        ensures
            final(self).tok() == old(self).tok(),
            final(self).incoming() == old(self).incoming(),
            final(self).is_readable() == old(self).is_readable(),
            final(self).is_closed() == (old(self).is_closed() || r is Closed),
            match r {
                WriteOutcome::Accepted(n) => n <= buf@.len() && final(self).wire()
                    == old(self).wire() + buf@.take(n as int),
                WriteOutcome::WouldBlock => final(self).wire() == old(self).wire(),
                WriteOutcome::Closed => final(self).wire() == old(self).wire(),
            },
    ;

    /// Attempt one non-blocking read. A delivered chunk is non-empty and is
    /// the next stretch of the inbound byte sequence.
    fn read_chunk(&mut self) -> (r: ReadOutcome)
        requires
            old(self).is_readable(),
        ensures
            final(self).tok() == old(self).tok(),
            final(self).wire() == old(self).wire(),
            final(self).is_writable() == old(self).is_writable(),
            final(self).is_closed() == (old(self).is_closed() || r is Closed),
            match r {
                ReadOutcome::Data(v) => v@.len() > 0 && old(self).incoming() == v@
                    + final(self).incoming(),
                ReadOutcome::WouldBlock => final(self).incoming() == old(self).incoming(),
                ReadOutcome::Closed => final(self).incoming() == old(self).incoming(),
            },
    ;

    /// Fold a delivered readiness event for this stream into its flags.
    fn on_event(&mut self, ev: &Event)
        requires
            ev.token == old(self).tok(),
        ensures
            final(self).tok() == old(self).tok(),
            final(self).wire() == old(self).wire(),
            final(self).incoming() == old(self).incoming(),
            final(self).is_readable() == ev.readable,
            final(self).is_writable() == ev.writable,
            final(self).is_closed() == old(self).is_closed(),
    ;
}

} // verus!
