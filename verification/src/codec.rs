//! The codec contract: framed decoding of an inbound byte stream and
//! serialization of one outbound message.
//!
//! A codec owns the parse state for one connection. `decode` pulls whatever
//! bytes the stream currently offers and accumulates completed decode
//! outcomes — successfully framed messages or malformed frames — in decode
//! order. `drain` hands the accumulated outcomes over and leaves the queue
//! empty. `encode` is a pure function from one message to its wire bytes.

use std::collections::VecDeque;
use vstd::prelude::*;
use crate::buf::content;
use crate::stream::ByteStream;

verus! {

/// The prefix of `older` that was consumed to leave `newer` behind: the
/// bytes a decode burst took off the front of the inbound stream.
pub open spec fn taken_from(older: Seq<u8>, newer: Seq<u8>) -> Seq<u8> {
    older.take(older.len() - newer.len())
}

/// A recoverable, per-frame decode failure. The offending raw bytes are kept
/// for diagnostics; decoding continues past the bad frame.
#[derive(Debug)]
pub enum CodecError {
    MalformedMessage(bytes::Bytes),
}

/// What one decode attempt did.
#[derive(Debug)]
pub enum Decoding {
    /// The underlying read failed in a way that makes the stream unusable.
    ConnectionError,
    /// No bytes were available; wait for the next readiness event.
    Blocked,
    /// Bytes were consumed and the parse state advanced.
    Succeeded,
}

/// The framing contract between a connection and its wire format.
///
/// `pending` is the queue of decode outcomes accumulated so far, in decode
/// order; `decode` may only append to it, and `drain` empties it. `encoding`
/// fixes the wire bytes of each message, so `encode` is deterministic and
/// stateless.
pub trait Codec: Sized {
    /// The application message type this codec frames.
    type Message;

    /// The decode outcomes accumulated so far, in decode order.
    spec fn pending(&self) -> Seq<Result<Self::Message, CodecError>>;

    /// The wire bytes of one outbound message.
    spec fn encoding(m: Self::Message) -> Seq<u8>;

    /// The messages this codec can carry. Encoding is total over these; any
    /// validation happens before encode is called.
    spec fn encodable(m: Self::Message) -> bool;

    /// Read whatever the stream currently offers, without blocking, and
    /// advance the parse state. Accumulated outcomes are only ever appended,
    /// so decode order is preserved; the stream's outbound side is untouched.
    fn decode<R: ByteStream>(&mut self, reader: &mut R) -> (d: Decoding)
        requires
            old(reader).is_readable(),
        ensures
            old(self).pending().is_prefix_of(final(self).pending()),
            final(reader).tok() == old(reader).tok(),
            final(reader).wire() == old(reader).wire(),
            final(reader).is_writable() == old(reader).is_writable(),
            final(reader).incoming().is_suffix_of(old(reader).incoming()),
            d is Blocked ==> final(reader).incoming() == old(reader).incoming()
                && final(self).pending() == old(self).pending(),
            d is Succeeded ==> final(reader).incoming().len() < old(reader).incoming().len(),
            d is ConnectionError ==> final(reader).is_closed(),
            !(d is ConnectionError) ==> final(reader).is_closed() == old(reader).is_closed(),
    ;

    /// Remove and return every accumulated outcome, in decode order. A drain
    /// with nothing pending returns the empty sequence, so draining twice in
    /// a row yields nothing the second time.
    fn drain(&mut self) -> (out: VecDeque<Result<Self::Message, CodecError>>)
        ensures
            out@ == old(self).pending(),
            final(self).pending() == Seq::<Result<Self::Message, CodecError>>::empty(),
    ;

    /// Serialize one message into its wire bytes.
    fn encode(m: &Self::Message) -> (b: bytes::Bytes)
        requires
            Self::encodable(*m),
        ensures
            content(b) == Self::encoding(*m),
    ;
}

} // verus!
