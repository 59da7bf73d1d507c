//! A small length-prefixed wire format and its codec.
//!
//! A frame is a header byte followed by its payload: a header `h <= 127`
//! announces a payload of `h` bytes, which decodes as one message. A header
//! with the high bit set is not a legal frame start; that single byte is
//! reported as one malformed segment and decoding resumes at the next byte,
//! so one bad frame never halts the stream. `frame_outcomes` and
//! `frame_rest` are the exact model of this parse: the outcomes a byte
//! sequence yields in order, and the incomplete tail it leaves behind.

use std::collections::VecDeque;

use vstd::prelude::*;
use vstd::seq_lib::*;

use crate::buf::{bytes_from_vec, content};
use crate::codec::{taken_from, Codec, CodecError, Decoding};
use crate::stream::{ByteStream, ReadOutcome};

verus! {

/// The longest payload one frame can carry.
pub const MAX_PAYLOAD: u8 = 127;

/// The wire bytes of one well-formed frame: its length header, then its
/// payload.
pub open spec fn frame_encoding(m: Seq<u8>) -> Seq<u8> {
    seq![m.len() as u8] + m
}

/// The decode outcomes a byte sequence yields, in stream order: `Ok` with
/// the payload of each complete well-formed frame, `Err` with the raw bytes
/// of each malformed segment.
pub open spec fn frame_outcomes(s: Seq<u8>) -> Seq<Result<Seq<u8>, Seq<u8>>>
    decreases s.len(),
{
    if s.len() == 0 {
        Seq::empty()
    } else if s[0] > MAX_PAYLOAD {
        seq![Err(seq![s[0]])] + frame_outcomes(s.skip(1))
    } else if s.len() >= 1 + s[0] {
        seq![Ok(s.subrange(1, 1 + s[0]))] + frame_outcomes(s.skip(1 + s[0]))
    } else {
        Seq::empty()
    }
}

/// The incomplete tail a byte sequence leaves after every complete frame and
/// malformed segment has been taken: a well-formed header whose payload has
/// not fully arrived, or nothing.
pub open spec fn frame_rest(s: Seq<u8>) -> Seq<u8>
    decreases s.len(),
{
    if s.len() == 0 {
        s
    } else if s[0] > MAX_PAYLOAD {
        frame_rest(s.skip(1))
    } else if s.len() >= 1 + s[0] {
        frame_rest(s.skip(1 + s[0]))
    } else {
        s
    }
}

/// A decode outcome seen at the specification level: payload bytes on
/// success, raw offending bytes on a malformed segment.
pub open spec fn outcome_view(r: Result<Vec<u8>, CodecError>) -> Result<Seq<u8>, Seq<u8>> {
    match r {
        Ok(v) => Ok(v@),
        Err(CodecError::MalformedMessage(b)) => Err(content(b)),
    }
}

/// The specification-level view of a queue of decode outcomes.
pub open spec fn outcome_views(s: Seq<Result<Vec<u8>, CodecError>>) -> Seq<
    Result<Seq<u8>, Seq<u8>>,
> {
    s.map(|i: int, r: Result<Vec<u8>, CodecError>| outcome_view(r))
}

proof fn lemma_views_push(s: Seq<Result<Vec<u8>, CodecError>>, x: Result<Vec<u8>, CodecError>)
    ensures
        outcome_views(s.push(x)) == outcome_views(s).push(outcome_view(x)),
{
    assert(outcome_views(s.push(x)) =~= outcome_views(s).push(outcome_view(x)));
}

/// The codec for the length-prefixed format: the unparsed tail of the
/// inbound byte stream, and the outcomes decoded so far.
pub struct FrameCodec {
    acc: Vec<u8>,
    outq: VecDeque<Result<Vec<u8>, CodecError>>,
}

impl FrameCodec {
    /// The bytes received but not yet part of a completed outcome.
    pub closed spec fn leftover(&self) -> Seq<u8> {
        self.acc@
    }

    /// The kept tail is fully parsed down: it holds no complete frame or
    /// malformed segment. Construction and feeding keep a codec reduced.
    pub open spec fn reduced(&self) -> bool {
        &&& frame_outcomes(self.leftover()) == Seq::<Result<Seq<u8>, Seq<u8>>>::empty()
        &&& frame_rest(self.leftover()) == self.leftover()
    }

    /// A fresh codec: nothing buffered, nothing pending.
    pub fn new() -> (c: Self)
        ensures
            c.pending() == Seq::<Result<Vec<u8>, CodecError>>::empty(),
            c.leftover() == Seq::<u8>::empty(),
            c.reduced(),
    {
        FrameCodec { acc: Vec::new(), outq: VecDeque::new() }
    }

    /// Feed one chunk of inbound bytes to the parser. Every frame and
    /// malformed segment completed by these bytes is appended to the pending
    /// outcomes, in stream order, and the incomplete tail is kept for the
    /// next chunk.
    pub fn feed(&mut self, chunk: &Vec<u8>)
        ensures
            old(self).pending().is_prefix_of(final(self).pending()),
            outcome_views(final(self).pending()) == outcome_views(old(self).pending())
                + frame_outcomes(old(self).leftover() + chunk@),
            final(self).leftover() == frame_rest(old(self).leftover() + chunk@),
            final(self).reduced(),
    {
        let ghost pre = *self;
        let mut i: usize = 0;
        while i < chunk.len()
            invariant
                i <= chunk@.len(),
                self.acc@ == pre.acc@ + chunk@.take(i as int),
                self.outq@ == pre.outq@,
            decreases chunk@.len() - i,
        {
            let b = chunk[i];
            self.acc.push(b);
            i = i + 1;
            proof {
                assert(self.acc@ =~= pre.acc@ + chunk@.take(i as int));
            }
        }
        proof {
            assert(chunk@.take(chunk@.len() as int) =~= chunk@);
            assert(self.acc@ == pre.acc@ + chunk@);
        }
        let ghost full = self.acc@;
        let mut p: usize = 0;
        let ghost mut done_now: Seq<Result<Seq<u8>, Seq<u8>>> = Seq::empty();
        proof {
            assert(full.skip(0) =~= full);
            assert(self.outq@.subrange(0, self.outq@.len() as int) =~= self.outq@);
            assert(outcome_views(self.outq@) =~= outcome_views(pre.outq@) + done_now);
        }
        loop
            invariant
                pre == *old(self),
                full == pre.acc@ + chunk@,
                self.acc@ == full,
                p <= full.len(),
                self.outq@.len() >= pre.outq@.len(),
                pre.outq@.is_prefix_of(self.outq@),
                outcome_views(self.outq@) == outcome_views(pre.outq@) + done_now,
                frame_outcomes(full) == done_now + frame_outcomes(full.skip(p as int)),
                frame_rest(full) == frame_rest(full.skip(p as int)),
            ensures
                p <= full.len(),
                self.acc@ == full,
                pre.outq@.is_prefix_of(self.outq@),
                outcome_views(self.outq@) == outcome_views(pre.outq@) + done_now,
                frame_outcomes(full) == done_now + frame_outcomes(full.skip(p as int)),
                frame_rest(full) == frame_rest(full.skip(p as int)),
                frame_outcomes(full.skip(p as int)) == Seq::<Result<Seq<u8>, Seq<u8>>>::empty(),
                frame_rest(full.skip(p as int)) == full.skip(p as int),
            decreases full.len() - p,
        {
            if p == self.acc.len() {
                proof {
                    assert(full.skip(p as int) =~= Seq::<u8>::empty());
                }
                break ;
            }
            let h = self.acc[p];
            if h > MAX_PAYLOAD {
                let mut raw: Vec<u8> = Vec::new();
                raw.push(h);
                let outcome: Result<Vec<u8>, CodecError> = Err(
                    CodecError::MalformedMessage(bytes_from_vec(raw)),
                );
                proof {
                    lemma_views_push(self.outq@, outcome);
                    assert(full.skip(p as int)[0] == full[p as int]);
                    assert(full.skip(p as int).skip(1) =~= full.skip(p as int + 1));
                    assert(outcome_view(outcome) == Err::<Seq<u8>, Seq<u8>>(seq![full[p as int]]));
                    assert(frame_outcomes(full.skip(p as int)) == seq![
                        Err::<Seq<u8>, Seq<u8>>(seq![full[p as int]]),
                    ] + frame_outcomes(full.skip(p as int + 1)));
                    assert(done_now + frame_outcomes(full.skip(p as int)) =~= done_now.push(
                        outcome_view(outcome),
                    ) + frame_outcomes(full.skip(p as int + 1)));
                    assert(outcome_views(pre.outq@) + done_now.push(outcome_view(outcome))
                        =~= outcome_views(self.outq@.push(outcome)));
                    done_now = done_now.push(outcome_view(outcome));
                }
                self.outq.push_back(outcome);
                p = p + 1;
            } else {
                let h_us = h as usize;
                if self.acc.len() - p - 1 < h_us {
                    proof {
                        let s = full.skip(p as int);
                        assert(s[0] == full[p as int]);
                        assert(s.len() < 1 + s[0]);
                    }
                    break ;
                }
                let mut payload: Vec<u8> = Vec::new();
                let mut q: usize = 0;
                while q < h_us
                    invariant
                        q <= h_us,
                        p + 1 + h_us <= usize::MAX,
                        p + 1 + h_us <= self.acc@.len(),
                        payload@ == self.acc@.subrange(p as int + 1, p as int + 1 + q as int),
                        self.acc@ == full,
                    decreases h_us - q,
                {
                    let b = self.acc[p + 1 + q];
                    payload.push(b);
                    q = q + 1;
                    proof {
                        assert(payload@ =~= self.acc@.subrange(p as int + 1, p as int + 1 + q));
                    }
                }
                let outcome: Result<Vec<u8>, CodecError> = Ok(payload);
                proof {
                    lemma_views_push(self.outq@, outcome);
                    let s = full.skip(p as int);
                    assert(s[0] == full[p as int]);
                    assert(s.len() >= 1 + s[0]);
                    assert(s.subrange(1, 1 + s[0]) =~= full.subrange(
                        p as int + 1,
                        p as int + 1 + h_us as int,
                    ));
                    assert(s.skip(1 + s[0]) =~= full.skip(p as int + 1 + h_us as int));
                    assert(frame_outcomes(s) == seq![
                        Ok::<Seq<u8>, Seq<u8>>(s.subrange(1, 1 + s[0])),
                    ] + frame_outcomes(s.skip(1 + s[0])));
                    assert(outcome_view(outcome) == Ok::<Seq<u8>, Seq<u8>>(s.subrange(1, 1 + s[0])));
                    assert(done_now + frame_outcomes(s) =~= done_now.push(outcome_view(outcome))
                        + frame_outcomes(full.skip(p as int + 1 + h_us as int)));
                    assert(outcome_views(pre.outq@) + done_now.push(outcome_view(outcome))
                        =~= outcome_views(self.outq@.push(outcome)));
                    done_now = done_now.push(outcome_view(outcome));
                }
                self.outq.push_back(outcome);
                p = p + 1 + h_us;
            }
        }
        let mut tail: Vec<u8> = Vec::new();
        let mut t: usize = p;
        while t < self.acc.len()
            invariant
                p <= t <= self.acc@.len(),
                self.acc@ == full,
                tail@ == full.subrange(p as int, t as int),
            decreases self.acc@.len() - t,
        {
            let b = self.acc[t];
            tail.push(b);
            t = t + 1;
            proof {
                assert(tail@ =~= full.subrange(p as int, t as int));
            }
        }
        proof {
            assert(tail@ =~= full.skip(p as int));
        }
        self.acc = tail;
        proof {
            assert(frame_outcomes(full.skip(p as int)) == Seq::<
                Result<Seq<u8>, Seq<u8>>,
            >::empty());
            assert(done_now =~= done_now + frame_outcomes(full.skip(p as int)));
            assert(frame_rest(full.skip(p as int)) == full.skip(p as int));
        }
    }
}


/// Incremental parsing equals whole-stream parsing: a sequence already
/// reduced to its kept tail decodes, together with newly arrived bytes,
/// exactly what the whole sequence would have decoded at once.
pub proof fn lemma_parse_extend(s: Seq<u8>, t: Seq<u8>)
    ensures
        frame_outcomes(s + t) == frame_outcomes(s) + frame_outcomes(frame_rest(s) + t),
        frame_rest(s + t) == frame_rest(frame_rest(s) + t),
    decreases s.len(),
{
    if s.len() == 0 {
        assert(s + t =~= t);
        assert(frame_rest(s) + t =~= t);
        assert(frame_outcomes(s + t) =~= frame_outcomes(s) + frame_outcomes(frame_rest(s) + t));
    } else if s[0] > MAX_PAYLOAD {
        lemma_parse_extend(s.skip(1), t);
        assert((s + t)[0] == s[0]);
        assert((s + t).skip(1) =~= s.skip(1) + t);
        assert(frame_outcomes(s + t) == seq![Err::<Seq<u8>, Seq<u8>>(seq![s[0]])]
            + frame_outcomes(s.skip(1) + t));
        assert(frame_outcomes(s) == seq![Err::<Seq<u8>, Seq<u8>>(seq![s[0]])] + frame_outcomes(
            s.skip(1),
        ));
        assert(frame_rest(s) == frame_rest(s.skip(1)));
        assert(frame_outcomes(s + t) =~= frame_outcomes(s) + frame_outcomes(frame_rest(s) + t));
        assert(frame_rest(s + t) == frame_rest(s.skip(1) + t));
    } else if s.len() >= 1 + s[0] {
        lemma_parse_extend(s.skip(1 + s[0]), t);
        assert((s + t)[0] == s[0]);
        assert((s + t).len() >= 1 + (s + t)[0]);
        assert((s + t).subrange(1, 1 + s[0]) =~= s.subrange(1, 1 + s[0]));
        assert((s + t).skip(1 + s[0]) =~= s.skip(1 + s[0]) + t);
        assert(frame_outcomes(s + t) == seq![
            Ok::<Seq<u8>, Seq<u8>>(s.subrange(1, 1 + s[0])),
        ] + frame_outcomes(s.skip(1 + s[0]) + t));
        assert(frame_outcomes(s) == seq![Ok::<Seq<u8>, Seq<u8>>(s.subrange(1, 1 + s[0]))]
            + frame_outcomes(s.skip(1 + s[0])));
        assert(frame_rest(s) == frame_rest(s.skip(1 + s[0])));
        assert(frame_outcomes(s + t) =~= frame_outcomes(s) + frame_outcomes(frame_rest(s) + t));
        assert(frame_rest(s + t) == frame_rest(s.skip(1 + s[0]) + t));
    } else {
        assert(frame_outcomes(s) =~= Seq::<Result<Seq<u8>, Seq<u8>>>::empty());
        assert(frame_rest(s) == s);
        assert(frame_rest(s) + t =~= s + t);
        assert(frame_outcomes(s + t) =~= frame_outcomes(s) + frame_outcomes(frame_rest(s) + t));
    }
}

impl Codec for FrameCodec {
    type Message = Vec<u8>;

    closed spec fn pending(&self) -> Seq<Result<Vec<u8>, CodecError>> {
        self.outq@
    }

    open spec fn encoding(m: Vec<u8>) -> Seq<u8> {
        frame_encoding(m@)
    }

    open spec fn encodable(m: Vec<u8>) -> bool {
        m@.len() <= MAX_PAYLOAD
    }

    fn decode<R: ByteStream>(&mut self, reader: &mut R) -> (d: Decoding)
        ensures
            old(self).reduced() ==> outcome_views(final(self).pending()) == outcome_views(
                old(self).pending(),
            ) + frame_outcomes(
                old(self).leftover() + taken_from(
                    old(reader).incoming(),
                    final(reader).incoming(),
                ),
            ),
            old(self).reduced() ==> final(self).leftover() == frame_rest(
                old(self).leftover() + taken_from(
                    old(reader).incoming(),
                    final(reader).incoming(),
                ),
            ),
            old(self).reduced() ==> final(self).reduced(),
    {
        let ghost pre_c = *self;
        let ghost pre_r = *reader;
        let mut progressed = false;
        let ghost mut eaten: Seq<u8> = Seq::empty();
        proof {
            assert(pre_r.incoming() =~= eaten + pre_r.incoming());
            if pre_c.reduced() {
                assert(pre_c.acc@ + eaten =~= pre_c.acc@);
                assert(outcome_views(self.outq@) =~= outcome_views(pre_c.outq@)
                    + frame_outcomes(pre_c.acc@ + eaten));
            }
        }
        loop
            invariant
                pre_c == *old(self),
                pre_r == *old(reader),
                pre_r.is_readable(),
                pre_c.pending().is_prefix_of(self.pending()),
                reader.tok() == pre_r.tok(),
                reader.wire() == pre_r.wire(),
                reader.is_writable() == pre_r.is_writable(),
                reader.is_closed() == pre_r.is_closed(),
                reader.incoming().is_suffix_of(pre_r.incoming()),
                pre_r.incoming() == eaten + reader.incoming(),
                !progressed ==> *self == pre_c && reader.incoming() == pre_r.incoming(),
                progressed ==> reader.incoming().len() < pre_r.incoming().len(),
                progressed ==> self.reduced(),
                pre_c.reduced() ==> outcome_views(self.outq@) == outcome_views(pre_c.outq@)
                    + frame_outcomes(pre_c.acc@ + eaten),
                pre_c.reduced() ==> self.acc@ == frame_rest(pre_c.acc@ + eaten),
            decreases reader.incoming().len(),
        {
            if !reader.readable() {
                proof {
                    finish_burst(pre_r.incoming(), eaten, reader.incoming());
                }
                if progressed {
                    return Decoding::Succeeded;
                } else {
                    return Decoding::Blocked;
                }
            }
            let ghost prev_inc = reader.incoming();
            match reader.read_chunk() {
                ReadOutcome::Data(v) => {
                    proof {
                        assert(prev_inc == v@ + reader.incoming());
                        assert(reader.incoming() =~= prev_inc.subrange(
                            v@.len() as int,
                            prev_inc.len() as int,
                        ));
                        assert(reader.incoming().is_suffix_of(pre_r.incoming()));
                        assert(pre_r.incoming() =~= (eaten + v@) + reader.incoming());
                        if pre_c.reduced() {
                            lemma_parse_extend(pre_c.acc@ + eaten, v@);
                            assert((pre_c.acc@ + eaten) + v@ =~= pre_c.acc@ + (eaten + v@));
                        }
                    }
                    let ghost fed_from = *self;
                    self.feed(&v);
                    progressed = true;
                    proof {
                        if pre_c.reduced() {
                            assert(outcome_views(self.outq@) =~= outcome_views(pre_c.outq@)
                                + frame_outcomes(pre_c.acc@ + (eaten + v@)));
                        }
                        eaten = eaten + v@;
                    }
                },
                ReadOutcome::WouldBlock => {
                    proof {
                        finish_burst(pre_r.incoming(), eaten, reader.incoming());
                    }
                    if progressed {
                        return Decoding::Succeeded;
                    } else {
                        return Decoding::Blocked;
                    }
                },
                ReadOutcome::Closed => {
                    proof {
                        finish_burst(pre_r.incoming(), eaten, reader.incoming());
                    }
                    return Decoding::ConnectionError;
                },
            }
        }
    }

    fn drain(&mut self) -> (out: VecDeque<Result<Vec<u8>, CodecError>>) {
        let mut out: VecDeque<Result<Vec<u8>, CodecError>> = VecDeque::new();
        out.append(&mut self.outq);
        proof {
            assert(out@ =~= old(self).pending());
        }
        out
    }

    fn encode(m: &Vec<u8>) -> (b: bytes::Bytes) {
        let mut wire: Vec<u8> = Vec::new();
        wire.push(m.len() as u8);
        let mut i: usize = 0;
        while i < m.len()
            invariant
                i <= m@.len(),
                wire@ == seq![m@.len() as u8] + m@.take(i as int),
            decreases m@.len() - i,
        {
            let b = m[i];
            wire.push(b);
            i = i + 1;
            proof {
                assert(wire@ =~= seq![m@.len() as u8] + m@.take(i as int));
            }
        }
        proof {
            assert(m@.take(m@.len() as int) =~= m@);
            assert(wire@ =~= frame_encoding(m@));
        }
        bytes_from_vec(wire)
    }
}

/// With the whole inbound sequence split as the eaten prefix plus the rest,
/// the eaten prefix is exactly what `taken_from` names.
proof fn finish_burst(whole: Seq<u8>, eaten: Seq<u8>, rest: Seq<u8>)
    requires
        whole == eaten + rest,
    ensures
        taken_from(whole, rest) == eaten,
{
    assert(whole.take(whole.len() - rest.len()) =~= eaten);
}

/// One stretch of inbound traffic: a well-formed payload, or one byte that
/// cannot start a frame.
pub open spec fn segment_wire(seg: Result<Seq<u8>, u8>) -> Seq<u8> {
    match seg {
        Ok(p) => frame_encoding(p),
        Err(b) => seq![b],
    }
}

/// The whole wire image of an interleaving of payloads and malformed bytes.
pub open spec fn segments_wire(segs: Seq<Result<Seq<u8>, u8>>) -> Seq<u8> {
    segs.map(|i: int, s: Result<Seq<u8>, u8>| segment_wire(s)).flatten()
}

/// The decode outcome each segment must yield.
pub open spec fn segment_outcome(seg: Result<Seq<u8>, u8>) -> Result<Seq<u8>, Seq<u8>> {
    match seg {
        Ok(p) => Ok(p),
        Err(b) => Err(seq![b]),
    }
}

/// The decode outcomes an interleaving must yield, in its own order.
pub open spec fn segments_outcomes(segs: Seq<Result<Seq<u8>, u8>>) -> Seq<
    Result<Seq<u8>, Seq<u8>>,
> {
    segs.map(|i: int, s: Result<Seq<u8>, u8>| segment_outcome(s))
}

/// Every segment is one this format can carry: a payload that fits one
/// frame, or a byte no frame can start with.
pub open spec fn segments_wellformed(segs: Seq<Result<Seq<u8>, u8>>) -> bool {
    forall|i: int|
        0 <= i < segs.len() ==> match #[trigger] segs[i] {
            Ok(p) => p.len() <= MAX_PAYLOAD,
            Err(b) => b > MAX_PAYLOAD,
        }
}

/// A byte stream made of any interleaving of `k` well-formed frames and `m`
/// malformed bytes decodes to exactly those `k` successes and `m` malformed
/// outcomes, in the order they appear in the stream, with nothing left over.
pub proof fn lemma_interleaving_decodes(segs: Seq<Result<Seq<u8>, u8>>)
    requires
        segments_wellformed(segs),
    ensures
        frame_outcomes(segments_wire(segs)) == segments_outcomes(segs),
        frame_rest(segments_wire(segs)) == Seq::<u8>::empty(),
    decreases segs.len(),
{
    let fw = |i: int, s: Result<Seq<u8>, u8>| segment_wire(s);
    let fo = |i: int, s: Result<Seq<u8>, u8>| segment_outcome(s);
    if segs.len() == 0 {
        assert(segs.map(fw) =~= Seq::<Seq<u8>>::empty());
        assert(segments_wire(segs) =~= Seq::<u8>::empty());
        assert(frame_outcomes(segments_wire(segs)) =~= segments_outcomes(segs));
    } else {
        let s0 = segs[0];
        let rest = segs.skip(1);
        assert(segments_wellformed(rest)) by {
            assert(forall|i: int| 0 <= i < rest.len() ==> rest[i] == segs[i + 1]);
        }
        lemma_interleaving_decodes(rest);
        let w0 = segment_wire(s0);
        assert(segs.map(fw) =~= seq![w0] + rest.map(fw));
        lemma_flatten_concat(seq![w0], rest.map(fw));
        seq![w0].lemma_flatten_singleton();
        let wire = segments_wire(segs);
        assert(wire == w0 + segments_wire(rest));
        match s0 {
            Ok(p) => {
                assert(p.len() <= MAX_PAYLOAD);
                assert(p.len() as u8 == p.len());
                assert(wire[0] == p.len() as u8);
                assert(wire.len() >= 1 + wire[0]);
                assert(wire.subrange(1, 1 + wire[0]) =~= p);
                assert(wire.skip(1 + wire[0]) =~= segments_wire(rest));
                assert(frame_outcomes(wire) == seq![Ok::<Seq<u8>, Seq<u8>>(p)] + frame_outcomes(
                    segments_wire(rest),
                ));
                assert(segments_outcomes(segs) =~= seq![Ok::<Seq<u8>, Seq<u8>>(p)]
                    + segments_outcomes(rest));
                assert(frame_outcomes(wire) =~= segments_outcomes(segs));
                assert(frame_rest(wire) == frame_rest(segments_wire(rest)));
            },
            Err(b) => {
                assert(wire[0] == b);
                assert(wire.skip(1) =~= segments_wire(rest));
                assert(frame_outcomes(wire) == seq![Err::<Seq<u8>, Seq<u8>>(seq![b])]
                    + frame_outcomes(segments_wire(rest)));
                assert(segments_outcomes(segs) =~= seq![Err::<Seq<u8>, Seq<u8>>(seq![b])]
                    + segments_outcomes(rest));
                assert(frame_outcomes(wire) =~= segments_outcomes(segs));
                assert(frame_rest(wire) == frame_rest(segments_wire(rest)));
            },
        }
    }
}

/// The burst-level reading of the interleaving law: a codec whose kept tail
/// is empty that consumes exactly the wire image of an interleaving of
/// well-formed frames and malformed bytes accumulates exactly their
/// outcomes, in stream order, and keeps nothing — the form `decode`'s
/// contract produces when `leftover()` is empty.
pub proof fn lemma_burst_decodes_interleaving(segs: Seq<Result<Seq<u8>, u8>>)
    requires
        segments_wellformed(segs),
    ensures
        frame_outcomes(Seq::<u8>::empty() + segments_wire(segs)) == segments_outcomes(segs),
        frame_rest(Seq::<u8>::empty() + segments_wire(segs)) == Seq::<u8>::empty(),
{
    lemma_interleaving_decodes(segs);
    assert(Seq::<u8>::empty() + segments_wire(segs) =~= segments_wire(segs));
}

/// Encoding one message that fits a frame and decoding the result yields
/// exactly that message back.
pub proof fn lemma_encode_decode_roundtrip(p: Seq<u8>)
    requires
        p.len() <= MAX_PAYLOAD,
    ensures
        frame_outcomes(frame_encoding(p)) == seq![Ok::<Seq<u8>, Seq<u8>>(p)],
        frame_rest(frame_encoding(p)) == Seq::<u8>::empty(),
{
    let segs: Seq<Result<Seq<u8>, u8>> = seq![Ok(p)];
    lemma_interleaving_decodes(segs);
    let fw = |i: int, s: Result<Seq<u8>, u8>| segment_wire(s);
    assert(segs.map(fw) =~= seq![frame_encoding(p)]);
    seq![frame_encoding(p)].lemma_flatten_singleton();
    assert(segments_wire(segs) == frame_encoding(p));
    assert(segments_outcomes(segs) =~= seq![Ok::<Seq<u8>, Seq<u8>>(p)]);
}

} // verus!
