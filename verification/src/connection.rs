//! The connection state machine: one non-blocking stream, a FIFO write
//! queue, a FIFO queue of decoded inbound outcomes, and a codec.
//!
//! A connection is driven by repeated reactions. An outbound submission is
//! queued and flushed; a readiness event for this connection's token updates
//! the stream's flags, flushes writes, then decodes reads; a bare re-poll
//! only decodes. One decoded outcome at most is delivered per reaction, in
//! decode order. Outbound bytes are never reordered, duplicated or lost: a
//! partial write re-queues the unwritten remainder at the front of the queue.

use std::collections::VecDeque;

use vstd::prelude::*;
use vstd::seq_lib::*;

use crate::buf::{bytes_as_slice, bytes_len, bytes_slice_from, content};
use crate::codec::{Codec, CodecError, Decoding};
use crate::stream::{ByteStream, Event, WriteOutcome};

verus! {

/// An unrecoverable, connection-level I/O failure. Terminal: the caller
/// should deregister and drop the connection.
#[derive(Clone, Copy, Debug, PartialEq, Eq, Structural)]
pub enum ConnectionError {
    ConnectionClosed,
}

/// A stimulus handed to a connection, or an outcome handed back: an
/// application value, a readiness event to be routed by token, or a bare
/// "keep going" signal.
#[derive(Debug)]
pub enum Reaction<T> {
    Value(T),
    Event(Event),
    Continue,
}

/// The concatenation of a sequence of byte buffers, front first.
pub open spec fn concat_bufs(bufs: Seq<Seq<u8>>) -> Seq<u8> {
    bufs.flatten()
}

/// One legal stopping point of a flush pass: the first `k` buffers were sent
/// whole, `n` bytes of buffer `k` were sent, its remainder was re-queued at
/// the front, and everything behind it is untouched. `n == 0` is a stop
/// before buffer `k` (not writable, would-block, or a write failure); a
/// partial write stops with `0 < n < len`.
pub open spec fn flush_stop(
    old_q: Seq<Seq<u8>>,
    new_q: Seq<Seq<u8>>,
    sent: Seq<u8>,
    k: int,
    n: int,
) -> bool {
    &&& 0 <= k < old_q.len()
    &&& 0 <= n <= old_q[k].len()
    &&& (n == 0 || n < old_q[k].len())
    &&& new_q == seq![old_q[k].skip(n)] + old_q.skip(k + 1)
    &&& sent == concat_bufs(old_q.take(k)) + old_q[k].take(n)
}

/// How one flush pass may transform the write queue: either every queued
/// byte was sent, or the pass stopped at some buffer with its unsent
/// remainder re-queued at the front. In either case the bytes sent are a
/// prefix of the queued bytes in queue order.
pub open spec fn flush_shape(old_q: Seq<Seq<u8>>, new_q: Seq<Seq<u8>>, sent: Seq<u8>) -> bool {
    ||| (new_q == Seq::<Seq<u8>>::empty() && sent == concat_bufs(old_q))
    ||| exists|k: int, n: int| flush_stop(old_q, new_q, sent, k, n)
}

/// The outcomes a reaction result delivers: one for a delivered value, none
/// otherwise.
pub open spec fn deliveries<M>(
    r: Result<Reaction<Result<M, CodecError>>, ConnectionError>,
) -> Seq<Result<M, CodecError>> {
    match r {
        Ok(Reaction::Value(m)) => seq![m],
        _ => Seq::empty(),
    }
}

proof fn lemma_concat_push(bufs: Seq<Seq<u8>>, last: Seq<u8>)
    ensures
        concat_bufs(bufs.push(last)) == concat_bufs(bufs) + last,
{
    bufs.lemma_flatten_push(last);
}

proof fn lemma_concat_split(bufs: Seq<Seq<u8>>, i: int)
    requires
        0 <= i <= bufs.len(),
    ensures
        concat_bufs(bufs) == concat_bufs(bufs.take(i)) + concat_bufs(bufs.skip(i)),
{
    lemma_flatten_concat(bufs.take(i), bufs.skip(i));
    assert(bufs.take(i) + bufs.skip(i) =~= bufs);
}

/// No byte is lost, duplicated or reordered by a flush pass: the bytes it
/// sent, followed by the bytes still queued, are exactly the bytes that were
/// queued before, in queue order. Submissions therefore reach the wire as
/// their concatenation in submission order once the queue drains.
pub proof fn lemma_flush_preserves_bytes(old_q: Seq<Seq<u8>>, new_q: Seq<Seq<u8>>, sent: Seq<u8>)
    requires
        flush_shape(old_q, new_q, sent),
    ensures
        sent + concat_bufs(new_q) == concat_bufs(old_q),
{
    if new_q == Seq::<Seq<u8>>::empty() && sent == concat_bufs(old_q) {
        assert(concat_bufs(new_q) =~= Seq::<u8>::empty());
        assert(sent + concat_bufs(new_q) =~= concat_bufs(old_q));
    } else {
        let (k, n) = choose|k: int, n: int| flush_stop(old_q, new_q, sent, k, n);
        lemma_concat_split(old_q, k);
        lemma_flatten_concat(seq![old_q[k]], old_q.skip(k + 1));
        assert(seq![old_q[k]] + old_q.skip(k + 1) =~= old_q.skip(k));
        seq![old_q[k]].lemma_flatten_singleton();
        lemma_flatten_concat(seq![old_q[k].skip(n)], old_q.skip(k + 1));
        seq![old_q[k].skip(n)].lemma_flatten_singleton();
        assert(old_q[k].take(n) + old_q[k].skip(n) =~= old_q[k]);
        assert(sent + concat_bufs(new_q) =~= concat_bufs(old_q));
    }
}

/// When a flush pass leaves the queue empty, the bytes it sent are exactly
/// the concatenation of the queued buffers, in submission order: a stream
/// that eventually accepts everything sees every submitted byte once, in
/// order.
pub proof fn lemma_drained_queue_sent_everything(old_q: Seq<Seq<u8>>, sent: Seq<u8>)
    requires
        flush_shape(old_q, Seq::<Seq<u8>>::empty(), sent),
    ensures
        sent == concat_bufs(old_q),
{
    lemma_flush_preserves_bytes(old_q, Seq::<Seq<u8>>::empty(), sent);
    assert(concat_bufs(Seq::<Seq<u8>>::empty()) =~= Seq::<u8>::empty());
    assert(sent + concat_bufs(Seq::<Seq<u8>>::empty()) =~= sent);
}

/// One step of the outbound side, at the specification level: a submission
/// appends one buffer to the queue, as `add_write_buffer` ensures; a flush
/// pass transforms the queue and the wire as `flush_shape` allows, which is
/// what `write_buffers` and `react` ensure of every pass, with partial
/// counts and would-block stops at arbitrary points.
pub enum OutboundStep {
    Submitted(Seq<u8>),
    Flushed(Seq<Seq<u8>>, Seq<u8>),
}

/// The wire and queue evolve from `(w0, q0)` to `(w1, q1)` along the given
/// steps: each submission enqueues at the back, each flush pass meets
/// `flush_shape` and appends what it sent to the wire.
pub open spec fn outbound_run(
    w0: Seq<u8>,
    q0: Seq<Seq<u8>>,
    steps: Seq<OutboundStep>,
    w1: Seq<u8>,
    q1: Seq<Seq<u8>>,
) -> bool
    decreases steps.len(),
{
    if steps.len() == 0 {
        w1 == w0 && q1 == q0
    } else {
        match steps[0] {
            OutboundStep::Submitted(b) => outbound_run(w0, q0.push(b), steps.skip(1), w1, q1),
            OutboundStep::Flushed(q, sent) => flush_shape(q0, q, sent) && outbound_run(
                w0 + sent,
                q,
                steps.skip(1),
                w1,
                q1,
            ),
        }
    }
}

/// The buffers a sequence of steps submits, in submission order.
pub open spec fn submitted_bufs(steps: Seq<OutboundStep>) -> Seq<Seq<u8>>
    decreases steps.len(),
{
    if steps.len() == 0 {
        Seq::empty()
    } else {
        (match steps[0] {
            OutboundStep::Submitted(b) => seq![b],
            OutboundStep::Flushed(q, sent) => Seq::empty(),
        }) + submitted_bufs(steps.skip(1))
    }
}

/// Across any interleaving of submissions and flush passes, the wire plus
/// the queued bytes grow by exactly the submitted bytes, in submission
/// order: no byte is duplicated, lost or reordered. In particular, when the
/// queue started and ended empty, the wire received exactly the
/// concatenation of the submitted buffers.
pub proof fn lemma_outbound_conservation(
    w0: Seq<u8>,
    q0: Seq<Seq<u8>>,
    steps: Seq<OutboundStep>,
    w1: Seq<u8>,
    q1: Seq<Seq<u8>>,
)
    requires
        outbound_run(w0, q0, steps, w1, q1),
    ensures
        w1 + concat_bufs(q1) == w0 + concat_bufs(q0) + concat_bufs(submitted_bufs(steps)),
    decreases steps.len(),
{
    if steps.len() == 0 {
        assert(submitted_bufs(steps) =~= Seq::<Seq<u8>>::empty());
        assert(concat_bufs(Seq::<Seq<u8>>::empty()) =~= Seq::<u8>::empty());
        assert(w1 + concat_bufs(q1) =~= w0 + concat_bufs(q0) + concat_bufs(
            submitted_bufs(steps),
        ));
    } else {
        match steps[0] {
            OutboundStep::Submitted(b) => {
                lemma_outbound_conservation(w0, q0.push(b), steps.skip(1), w1, q1);
                lemma_concat_push(q0, b);
                lemma_flatten_concat(seq![b], submitted_bufs(steps.skip(1)));
                seq![b].lemma_flatten_singleton();
                assert(submitted_bufs(steps) == seq![b] + submitted_bufs(steps.skip(1)));
                assert(w1 + concat_bufs(q1) =~= w0 + concat_bufs(q0) + concat_bufs(
                    submitted_bufs(steps),
                ));
            },
            OutboundStep::Flushed(q, sent) => {
                lemma_outbound_conservation(w0 + sent, q, steps.skip(1), w1, q1);
                lemma_flush_preserves_bytes(q0, q, sent);
                assert(submitted_bufs(steps) == Seq::<Seq<u8>>::empty() + submitted_bufs(
                    steps.skip(1),
                ));
                assert(submitted_bufs(steps) =~= submitted_bufs(steps.skip(1)));
                assert(w1 + concat_bufs(q1) =~= w0 + concat_bufs(q0) + concat_bufs(
                    submitted_bufs(steps),
                ));
            },
        }
    }
}

/// The eventual-delivery reading of the conservation law: starting from an
/// empty queue, after any interleaving of submissions and flush passes
/// whose last state has an empty queue — the stream eventually accepted all
/// bytes — the wire grew by exactly the concatenation of the submitted
/// buffers, in submission order.
pub proof fn lemma_all_submissions_reach_wire(
    w0: Seq<u8>,
    steps: Seq<OutboundStep>,
    w1: Seq<u8>,
)
    requires
        outbound_run(w0, Seq::<Seq<u8>>::empty(), steps, w1, Seq::<Seq<u8>>::empty()),
    ensures
        w1 == w0 + concat_bufs(submitted_bufs(steps)),
{
    lemma_outbound_conservation(
        w0,
        Seq::<Seq<u8>>::empty(),
        steps,
        w1,
        Seq::<Seq<u8>>::empty(),
    );
    assert(concat_bufs(Seq::<Seq<u8>>::empty()) =~= Seq::<u8>::empty());
    assert(w1 =~= w1 + concat_bufs(Seq::<Seq<u8>>::empty()));
    assert(w0 + Seq::<u8>::empty() + concat_bufs(submitted_bufs(steps)) =~= w0 + concat_bufs(
        submitted_bufs(steps),
    ));
}

/// One connection: an exclusively owned stream, the FIFO queue of outbound
/// buffers, the FIFO queue of decoded inbound outcomes awaiting delivery,
/// and the codec's parse state.
pub struct Connection<T, C> where T: ByteStream, C: Codec {
    inner: T,
    write_buffers: VecDeque<bytes::Bytes>,
    message_buffer: VecDeque<Result<C::Message, CodecError>>,
    codec: C,
}

impl<T, C> Connection<T, C> where T: ByteStream, C: Codec {
    /// The owned stream.
    pub closed spec fn stream(&self) -> T {
        self.inner
    }

    /// The queued outbound buffers as byte sequences, next-to-send first.
    pub closed spec fn queued(&self) -> Seq<Seq<u8>> {
        self.write_buffers@.map(|i: int, b: bytes::Bytes| content(b))
    }

    /// The decoded outcomes awaiting delivery, next-to-deliver first.
    pub closed spec fn inbox(&self) -> Seq<Result<C::Message, CodecError>> {
        self.message_buffer@
    }

    /// The codec's parse state.
    pub closed spec fn codec_state(&self) -> C {
        self.codec
    }

    proof fn lemma_queued_is_map(self)
        ensures
            self.queued().len() == self.write_buffers@.len(),
            forall|i: int|
                0 <= i < self.write_buffers@.len() ==> self.queued()[i] == content(
                    #[trigger] self.write_buffers@[i],
                ),
    {
    }

    /// Every decode outcome the connection already holds, in delivery order:
    /// the inbox first, then what the codec has accumulated but not drained.
    pub open spec fn backlog(&self) -> Seq<Result<C::Message, CodecError>> {
        self.inbox() + self.codec_state().pending()
    }

    /// Create a connection over a caller-supplied stream and codec, with
    /// empty queues.
    pub fn new(stream: T, codec: C) -> (c: Self)
        ensures
            c.stream() == stream,
            c.codec_state() == codec,
            c.queued() == Seq::<Seq<u8>>::empty(),
            c.inbox() == Seq::<Result<C::Message, CodecError>>::empty(),
    {
        let c = Connection {
            inner: stream,
            write_buffers: VecDeque::new(),
            message_buffer: VecDeque::new(),
            codec,
        };
        proof {
            assert(c.queued() =~= Seq::<Seq<u8>>::empty());
        }
        c
    }

    /// Borrow the stream.
    pub fn stream_ref(&self) -> (r: &T)
        ensures
            *r == self.stream(),
    {
        &self.inner
    }

    /// Borrow the stream mutably; the queues and the codec are untouched.
    pub fn stream_mut(&mut self) -> (r: &mut T)
        ensures
            *r == old(self).stream(),
            final(self).stream() == *final(r),
            final(self).queued() == old(self).queued(),
            final(self).inbox() == old(self).inbox(),
            final(self).codec_state() == old(self).codec_state(),
    {
        &mut self.inner
    }

    /// Give up the connection and hand the stream back; queued buffers and
    /// undelivered outcomes are discarded.
    pub fn into_inner(self) -> (r: T)
        ensures
            r == self.stream(),
    {
        self.inner
    }

    /// The routing token of the owned stream.
    pub fn token(&self) -> (t: usize)
        ensures
            t == self.stream().tok(),
    {
        self.inner.token()
    }

    /// Borrow the queue of outbound buffers still to be sent, next first.
    pub fn pending_writes(&self) -> (r: &VecDeque<bytes::Bytes>)
        ensures
            r@.len() == self.queued().len(),
            forall|i: int|
                0 <= i < r@.len() ==> content(#[trigger] r@[i]) == self.queued()[i],
    {
        proof {
            self.lemma_queued_is_map();
        }
        &self.write_buffers
    }

    /// Enqueue one outbound buffer at the back of the write queue. No I/O
    /// happens here.
    pub fn add_write_buffer(&mut self, buffer: bytes::Bytes)
        ensures
            final(self).queued() == old(self).queued().push(content(buffer)),
            final(self).stream() == old(self).stream(),
            final(self).inbox() == old(self).inbox(),
            final(self).codec_state() == old(self).codec_state(),
    {
        self.write_buffers.push_back(buffer);
        proof {
            assert(self.queued() =~= old(self).queued().push(content(buffer)));
        }
    }

    /// Flush queued buffers while the stream is writable: pop the front
    /// buffer and write it; on a full write go on to the next; on a partial
    /// write re-queue the unwritten remainder at the front and stop; on
    /// would-block re-queue the buffer unchanged and stop. A write failure
    /// also re-queues the buffer and reports the connection closed. The
    /// bytes accepted by the stream are exactly the flushed prefix of the
    /// queue, so no byte is lost, duplicated or reordered.
    pub fn write_buffers(&mut self) -> (r: Result<(), ConnectionError>)
        ensures
            final(self).stream().tok() == old(self).stream().tok(),
            final(self).stream().incoming() == old(self).stream().incoming(),
            final(self).stream().is_readable() == old(self).stream().is_readable(),
            final(self).codec_state() == old(self).codec_state(),
            final(self).inbox() == old(self).inbox(),
            old(self).stream().wire().is_prefix_of(final(self).stream().wire()),
            flush_shape(
                old(self).queued(),
                final(self).queued(),
                final(self).stream().wire().skip(old(self).stream().wire().len() as int),
            ),
            !old(self).stream().is_writable() ==> r is Ok && final(self).stream() == old(
                self,
            ).stream() && final(self).queued() == old(self).queued(),
            old(self).queued().len() == 0 ==> r is Ok && final(self).stream() == old(
                self,
            ).stream() && final(self).queued() == old(self).queued(),
            r is Err ==> old(self).stream().is_writable(),
            r is Err ==> final(self).stream().is_closed(),
            r is Ok ==> final(self).stream().is_closed() == old(self).stream().is_closed(),
    {
        let ghost pre = *self;
        let ghost mut j: int = 0;
        loop
            invariant
                pre == *old(self),
                !pre.inner.is_writable() ==> *self == pre,
                pre.queued().len() == 0 ==> *self == pre,
                0 <= j <= pre.queued().len(),
                self.inner.tok() == pre.inner.tok(),
                self.inner.incoming() == pre.inner.incoming(),
                self.inner.is_readable() == pre.inner.is_readable(),
                self.inner.is_closed() == pre.inner.is_closed(),
                self.codec == pre.codec,
                self.message_buffer == pre.message_buffer,
                self.queued() == pre.queued().skip(j),
                self.inner.wire() == pre.inner.wire() + concat_bufs(pre.queued().take(j)),
            decreases pre.queued().len() - j,
        {
            proof {
                assert(pre.inner.wire().is_prefix_of(self.inner.wire()));
                assert(self.inner.wire().skip(pre.inner.wire().len() as int) =~= concat_bufs(
                    pre.queued().take(j),
                ));
            }
            if !self.inner.writable() {
                proof {
                    if j == pre.queued().len() {
                        assert(self.queued() =~= Seq::<Seq<u8>>::empty());
                        assert(pre.queued().take(j) =~= pre.queued());
                    } else {
                        assert(pre.queued()[j].skip(0) =~= pre.queued()[j]);
                        assert(self.queued() =~= seq![pre.queued()[j].skip(0)] + pre.queued().skip(
                            j + 1,
                        ));
                        assert(pre.queued()[j].take(0) =~= Seq::<u8>::empty());
                        assert(concat_bufs(pre.queued().take(j)) =~= concat_bufs(
                            pre.queued().take(j),
                        ) + pre.queued()[j].take(0));
                        assert(flush_stop(
                            pre.queued(),
                            self.queued(),
                            self.inner.wire().skip(pre.inner.wire().len() as int),
                            j,
                            0,
                        ));
                    }
                }
                return Ok(());
            }
            if self.write_buffers.len() == 0 {
                proof {
                    assert(self.queued() =~= Seq::<Seq<u8>>::empty());
                    assert(j == pre.queued().len());
                    assert(pre.queued().take(j) =~= pre.queued());
                }
                return Ok(());
            }
            proof {
                self.lemma_queued_is_map();
                assert(j < pre.queued().len());
            }
            let ghost prev_v = self.write_buffers@;
            let buf = self.write_buffers.pop_front().unwrap();
            proof {
                assert(pre.queued().skip(j)[0] == content(prev_v[0]));
                assert(content(buf) == pre.queued()[j]);
                self.lemma_queued_is_map();
                assert(self.queued() =~= pre.queued().skip(j + 1));
            }
            let total = bytes_len(&buf);
            match self.inner.write(bytes_as_slice(&buf)) {
                WriteOutcome::Accepted(n) => {
                    if n < total {
                        let rest = bytes_slice_from(&buf, n);
                        self.write_buffers.push_front(rest);
                        proof {
                            self.lemma_queued_is_map();
                            assert(self.queued() =~= seq![pre.queued()[j].skip(n as int)]
                                + pre.queued().skip(j + 1));
                            lemma_concat_push(pre.queued().take(j), pre.queued()[j].take(n as int));
                            assert(self.inner.wire().skip(pre.inner.wire().len() as int)
                                =~= concat_bufs(pre.queued().take(j)) + pre.queued()[j].take(
                                n as int,
                            ));
                            assert(flush_stop(
                                pre.queued(),
                                self.queued(),
                                self.inner.wire().skip(pre.inner.wire().len() as int),
                                j,
                                n as int,
                            ));
                            assert(pre.inner.wire().is_prefix_of(self.inner.wire()));
                        }
                        return Ok(());
                    }
                    proof {
                        assert(pre.queued()[j].take(n as int) =~= pre.queued()[j]);
                        lemma_concat_push(pre.queued().take(j), pre.queued()[j]);
                        assert(pre.queued().take(j).push(pre.queued()[j]) =~= pre.queued().take(
                            j + 1,
                        ));
                        j = j + 1;
                        assert(self.inner.wire() =~= pre.inner.wire() + concat_bufs(
                            pre.queued().take(j),
                        ));
                    }
                }
                WriteOutcome::WouldBlock => {
                    self.write_buffers.push_front(buf);
                    proof {
                        self.lemma_queued_is_map();
                        assert(pre.queued()[j].skip(0) =~= pre.queued()[j]);
                        assert(self.queued() =~= seq![pre.queued()[j].skip(0)] + pre.queued().skip(
                            j + 1,
                        ));
                        assert(pre.queued()[j].take(0) =~= Seq::<u8>::empty());
                        assert(concat_bufs(pre.queued().take(j)) =~= concat_bufs(
                            pre.queued().take(j),
                        ) + pre.queued()[j].take(0));
                        assert(flush_stop(
                            pre.queued(),
                            self.queued(),
                            self.inner.wire().skip(pre.inner.wire().len() as int),
                            j,
                            0,
                        ));
                    }
                    return Ok(());
                }
                WriteOutcome::Closed => {
                    self.write_buffers.push_front(buf);
                    proof {
                        self.lemma_queued_is_map();
                        assert(pre.queued()[j].skip(0) =~= pre.queued()[j]);
                        assert(self.queued() =~= seq![pre.queued()[j].skip(0)] + pre.queued().skip(
                            j + 1,
                        ));
                        assert(pre.queued()[j].take(0) =~= Seq::<u8>::empty());
                        assert(concat_bufs(pre.queued().take(j)) =~= concat_bufs(
                            pre.queued().take(j),
                        ) + pre.queued()[j].take(0));
                        assert(flush_stop(
                            pre.queued(),
                            self.queued(),
                            self.inner.wire().skip(pre.inner.wire().len() as int),
                            j,
                            0,
                        ));
                    }
                    return Err(ConnectionError::ConnectionClosed);
                }
            }
        }
    }

    /// If the stream is readable, run one decode burst and move every
    /// drained outcome to the back of the inbox, preserving decode order. A
    /// decode-level connection failure is reported; outcomes drained before
    /// it are kept.
    fn read_and_decode(&mut self) -> (r: Result<(), ConnectionError>)
        ensures
            final(self).stream().tok() == old(self).stream().tok(),
            final(self).stream().wire() == old(self).stream().wire(),
            final(self).stream().is_writable() == old(self).stream().is_writable(),
            final(self).queued() == old(self).queued(),
            final(self).stream().incoming().is_suffix_of(old(self).stream().incoming()),
            old(self).inbox().is_prefix_of(final(self).inbox()),
            old(self).stream().is_readable() ==> (old(self).backlog()).is_prefix_of(
                final(self).inbox(),
            ) && final(self).codec_state().pending() == Seq::<
                Result<C::Message, CodecError>,
            >::empty(),
            !old(self).stream().is_readable() ==> final(self).stream() == old(self).stream()
                && final(self).inbox() == old(self).inbox() && final(self).codec_state() == old(
                self,
            ).codec_state(),
            r is Err ==> old(self).stream().is_readable(),
            r is Err ==> final(self).stream().is_closed(),
            r is Ok ==> final(self).stream().is_closed() == old(self).stream().is_closed(),
            r is Ok && old(self).stream().is_readable() && final(self).stream().incoming() == old(
                self,
            ).stream().incoming() ==> final(self).inbox() == old(self).backlog(),
    {
        if self.inner.readable() {
            let d = self.codec.decode(&mut self.inner);
            let mut drained = self.codec.drain();
            proof {
                assert((old(self).inbox() + old(self).codec_state().pending()).is_prefix_of(
                    self.message_buffer@ + drained@,
                ));
            }
            self.message_buffer.append(&mut drained);
            match d {
                Decoding::ConnectionError => Err(ConnectionError::ConnectionClosed),
                _ => Ok(()),
            }
        } else {
            Ok(())
        }
    }

    /// The reaction state machine.
    ///
    /// An outbound value is queued and flushed, and never itself delivers an
    /// inbound outcome. A readiness event whose token is not this
    /// connection's is handed back unchanged with the connection untouched.
    /// A matching event updates the stream's readiness flags, flushes
    /// writes, runs one decode burst, and delivers the oldest undelivered
    /// outcome, if any; a bare `Continue` re-poll does the same without
    /// touching the outbound side. A connection-level failure of the stream
    /// is surfaced as an error, never swallowed.
    pub fn react(&mut self, input: Reaction<bytes::Bytes>) -> (r: Result<
        Reaction<Result<C::Message, CodecError>>,
        ConnectionError,
    >)
        ensures
            final(self).stream().tok() == old(self).stream().tok(),
            r is Err ==> final(self).stream().is_closed(),
            r is Ok ==> final(self).stream().is_closed() == old(self).stream().is_closed(),
            match input {
                Reaction::Value(b) => {
                    &&& final(self).inbox() == old(self).inbox()
                    &&& final(self).codec_state() == old(self).codec_state()
                    &&& final(self).stream().incoming() == old(self).stream().incoming()
                    &&& final(self).stream().is_readable() == old(self).stream().is_readable()
                    &&& old(self).stream().wire().is_prefix_of(final(self).stream().wire())
                    &&& flush_shape(
                        old(self).queued().push(content(b)),
                        final(self).queued(),
                        final(self).stream().wire().skip(old(self).stream().wire().len() as int),
                    )
                    &&& (r is Ok ==> r == Ok::<
                        Reaction<Result<C::Message, CodecError>>,
                        ConnectionError,
                    >(Reaction::Continue))
                    &&& (r is Err ==> old(self).stream().is_writable())
                    &&& (!old(self).stream().is_writable() ==> r is Ok && final(self).stream()
                        == old(self).stream() && final(self).queued() == old(self).queued().push(
                        content(b),
                    ))
                },
                Reaction::Event(ev) => {
                    if ev.token != old(self).stream().tok() {
                        &&& r == Ok::<
                            Reaction<Result<C::Message, CodecError>>,
                            ConnectionError,
                        >(Reaction::Event(ev))
                        &&& final(self).stream() == old(self).stream()
                        &&& final(self).queued() == old(self).queued()
                        &&& final(self).inbox() == old(self).inbox()
                        &&& final(self).codec_state() == old(self).codec_state()
                    } else {
                        &&& old(self).stream().wire().is_prefix_of(final(self).stream().wire())
                        &&& flush_shape(
                            old(self).queued(),
                            final(self).queued(),
                            final(self).stream().wire().skip(
                                old(self).stream().wire().len() as int,
                            ),
                        )
                        &&& final(self).stream().incoming().is_suffix_of(
                            old(self).stream().incoming(),
                        )
                        &&& (!ev.writable ==> final(self).stream().wire() == old(
                            self,
                        ).stream().wire() && final(self).queued() == old(self).queued())
                        &&& (!ev.readable ==> final(self).stream().incoming() == old(
                            self,
                        ).stream().incoming())
                        &&& (r is Err ==> ev.readable || ev.writable)
                        &&& (r is Ok ==> {
                            let known = if ev.readable {
                                old(self).backlog()
                            } else {
                                old(self).inbox()
                            };
                            &&& known.is_prefix_of(deliveries(r) + final(self).inbox())
                            &&& (ev.readable ==> final(self).codec_state().pending() == Seq::<
                                Result<C::Message, CodecError>,
                            >::empty())
                            &&& (!ev.readable ==> final(self).codec_state() == old(
                                self,
                            ).codec_state())
                            &&& (known.len() > 0 ==> r matches Ok(Reaction::Value(_)))
                            &&& (final(self).inbox().len() > 0 ==> r matches Ok(
                                Reaction::Value(_),
                            ))
                            &&& (final(self).stream().incoming() == old(self).stream().incoming()
                                ==> deliveries(r) + final(self).inbox() == known)
                            &&& (!ev.readable && old(self).inbox().len() == 0 ==> r == Ok::<
                                Reaction<Result<C::Message, CodecError>>,
                                ConnectionError,
                            >(Reaction::Continue))
                        })
                        &&& (r is Err ==> old(self).inbox().is_prefix_of(final(self).inbox()))
                    }
                },
                Reaction::Continue => {
                    &&& final(self).queued() == old(self).queued()
                    &&& final(self).stream().wire() == old(self).stream().wire()
                    &&& final(self).stream().is_writable() == old(self).stream().is_writable()
                    &&& final(self).stream().incoming().is_suffix_of(old(self).stream().incoming())
                    &&& (r is Ok ==> {
                        let known = if old(self).stream().is_readable() {
                            old(self).backlog()
                        } else {
                            old(self).inbox()
                        };
                        &&& known.is_prefix_of(deliveries(r) + final(self).inbox())
                        &&& (old(self).stream().is_readable()
                            ==> final(self).codec_state().pending() == Seq::<
                            Result<C::Message, CodecError>,
                        >::empty())
                        &&& (!old(self).stream().is_readable() ==> final(self).codec_state()
                            == old(self).codec_state())
                        &&& (known.len() > 0 ==> r matches Ok(Reaction::Value(_)))
                        &&& (final(self).inbox().len() > 0 ==> r matches Ok(Reaction::Value(_)))
                        &&& (final(self).stream().incoming() == old(self).stream().incoming()
                            ==> deliveries(r) + final(self).inbox() == known)
                        &&& (!old(self).stream().is_readable() && old(self).inbox().len() == 0
                            ==> r == Ok::<
                            Reaction<Result<C::Message, CodecError>>,
                            ConnectionError,
                        >(Reaction::Continue))
                    })
                    &&& (!old(self).stream().is_readable() ==> r is Ok)
                    &&& (r is Err ==> old(self).stream().is_readable())
                    &&& (r is Err ==> old(self).inbox().is_prefix_of(final(self).inbox()))
                },
            },
    {
        match input {
            Reaction::Value(b) => {
                self.add_write_buffer(b);
                match self.write_buffers() {
                    Ok(()) => Ok(Reaction::Continue),
                    Err(e) => Err(e),
                }
            },
            Reaction::Event(ev) => {
                if ev.token != self.inner.token() {
                    return Ok(Reaction::Event(ev));
                }
                self.inner.on_event(&ev);
                match self.write_buffers() {
                    Err(e) => {
                        return Err(e);
                    },
                    Ok(()) => {},
                }
                match self.read_and_decode() {
                    Err(e) => {
                        return Err(e);
                    },
                    Ok(()) => {},
                }
                self.deliver_front()
            },
            Reaction::Continue => {
                match self.read_and_decode() {
                    Err(e) => {
                        return Err(e);
                    },
                    Ok(()) => {},
                }
                self.deliver_front()
            },
        }
    }

    /// Pop and deliver the oldest undelivered outcome, or report that there
    /// is nothing to deliver yet.
    fn deliver_front(&mut self) -> (r: Result<
        Reaction<Result<C::Message, CodecError>>,
        ConnectionError,
    >)
        ensures
            final(self).stream() == old(self).stream(),
            final(self).queued() == old(self).queued(),
            final(self).codec_state() == old(self).codec_state(),
            r is Ok,
            deliveries(r) + final(self).inbox() == old(self).inbox(),
            old(self).inbox().len() > 0 ==> r matches Ok(Reaction::Value(_)),
            old(self).inbox().len() == 0 ==> r == Ok::<
                Reaction<Result<C::Message, CodecError>>,
                ConnectionError,
            >(Reaction::Continue),
    {
        match self.message_buffer.pop_front() {
            Some(msg) => {
                proof {
                    assert(seq![old(self).inbox()[0]] + self.inbox() =~= old(self).inbox());
                }
                Ok(Reaction::Value(msg))
            },
            None => {
                proof {
                    assert(Seq::<Result<C::Message, CodecError>>::empty() + self.inbox()
                        =~= old(self).inbox());
                }
                Ok(Reaction::Continue)
            },
        }
    }
}

} // verus!
