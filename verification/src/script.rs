//! A deterministic, scripted in-memory stream.
//!
//! The stream follows a script: each write attempt consumes the next step of
//! the write plan, each read attempt the next step of the read plan. It
//! records every byte it accepts, so a caller can hold what reached the wire
//! against what was submitted. It backs the connection in tests and shows
//! that the stream contract is satisfiable.

use std::collections::VecDeque;

use vstd::prelude::*;

use crate::stream::{ByteStream, Event, ReadOutcome, WriteOutcome};

verus! {

/// What the next write attempt does: accept up to `n` bytes, report
/// would-block, or fail terminally.
pub enum WriteStep {
    Accept(usize),
    Refuse,
    Fail,
}

/// What the next read attempt does: deliver a non-empty chunk, report
/// would-block, or fail terminally.
pub enum ReadStep {
    Deliver(Vec<u8>),
    Pause,
    Fail,
}

/// The inbound bytes a read plan still holds, in order.
pub open spec fn planned_bytes(plan: Seq<ReadStep>) -> Seq<u8>
    decreases plan.len(),
{
    if plan.len() == 0 {
        Seq::empty()
    } else {
        (match plan[0] {
            ReadStep::Deliver(v) => v@,
            _ => Seq::empty(),
        }) + planned_bytes(plan.skip(1))
    }
}

/// A scripted stream: readiness flags, a routing token, the bytes accepted
/// so far, and the two plans still to be played.
pub struct ScriptStream {
    token_id: usize,
    can_read: bool,
    can_write: bool,
    failed: bool,
    sent: Vec<u8>,
    write_plan: VecDeque<WriteStep>,
    read_plan: VecDeque<ReadStep>,
}

impl ScriptStream {
    /// The write plan still to be played, next step first.
    pub closed spec fn write_script(&self) -> Seq<WriteStep> {
        self.write_plan@
    }

    /// The read plan still to be played, next step first.
    pub closed spec fn read_script(&self) -> Seq<ReadStep> {
        self.read_plan@
    }

    /// A fresh stream with the given token: not ready in either direction,
    /// nothing sent, empty plans.
    pub fn new(token: usize) -> (s: Self)
        ensures
            s.tok() == token,
            !s.is_readable(),
            !s.is_writable(),
            s.wire() == Seq::<u8>::empty(),
            s.incoming() == Seq::<u8>::empty(),
            s.write_script() == Seq::<WriteStep>::empty(),
            s.read_script() == Seq::<ReadStep>::empty(),
            !s.is_closed(),
    {
        ScriptStream {
            token_id: token,
            can_read: false,
            can_write: false,
            failed: false,
            sent: Vec::new(),
            write_plan: VecDeque::new(),
            read_plan: VecDeque::new(),
        }
    }

    /// Set both readiness flags directly.
    pub fn set_ready(&mut self, readable: bool, writable: bool)
        ensures
            final(self).tok() == old(self).tok(),
            final(self).wire() == old(self).wire(),
            final(self).incoming() == old(self).incoming(),
            final(self).is_readable() == readable,
            final(self).is_writable() == writable,
            final(self).write_script() == old(self).write_script(),
            final(self).read_script() == old(self).read_script(),
            final(self).is_closed() == old(self).is_closed(),
    {
        self.can_read = readable;
        self.can_write = writable;
    }

    /// Script the next write attempt to accept at most `n` bytes.
    pub fn plan_write_accept(&mut self, n: usize)
        ensures
            final(self).tok() == old(self).tok(),
            final(self).wire() == old(self).wire(),
            final(self).incoming() == old(self).incoming(),
            final(self).is_readable() == old(self).is_readable(),
            final(self).is_writable() == old(self).is_writable(),
            final(self).write_script() == old(self).write_script().push(WriteStep::Accept(n)),
            final(self).read_script() == old(self).read_script(),
            final(self).is_closed() == old(self).is_closed(),
    {
        self.write_plan.push_back(WriteStep::Accept(n));
    }

    /// Script the next write attempt to report would-block.
    pub fn plan_write_refusal(&mut self)
        ensures
            final(self).tok() == old(self).tok(),
            final(self).wire() == old(self).wire(),
            final(self).incoming() == old(self).incoming(),
            final(self).is_readable() == old(self).is_readable(),
            final(self).is_writable() == old(self).is_writable(),
            final(self).write_script() == old(self).write_script().push(WriteStep::Refuse),
            final(self).read_script() == old(self).read_script(),
            final(self).is_closed() == old(self).is_closed(),
    {
        self.write_plan.push_back(WriteStep::Refuse);
    }

    /// Script the next write attempt to fail terminally.
    pub fn plan_write_failure(&mut self)
        ensures
            final(self).tok() == old(self).tok(),
            final(self).wire() == old(self).wire(),
            final(self).incoming() == old(self).incoming(),
            final(self).is_readable() == old(self).is_readable(),
            final(self).is_writable() == old(self).is_writable(),
            final(self).write_script() == old(self).write_script().push(WriteStep::Fail),
            final(self).read_script() == old(self).read_script(),
            final(self).is_closed() == old(self).is_closed(),
    {
        self.write_plan.push_back(WriteStep::Fail);
    }

    /// Script the next read attempt to deliver the given chunk. An empty
    /// chunk is played as a would-block.
    pub fn plan_read_chunk(&mut self, chunk: Vec<u8>)
        ensures
            final(self).tok() == old(self).tok(),
            final(self).wire() == old(self).wire(),
            final(self).incoming() == old(self).incoming() + chunk@,
            final(self).is_readable() == old(self).is_readable(),
            final(self).write_script() == old(self).write_script(),
            final(self).read_script() == old(self).read_script().push(ReadStep::Deliver(chunk)),
            final(self).is_writable() == old(self).is_writable(),
            final(self).is_closed() == old(self).is_closed(),
    {
        let ghost pre_plan = self.read_plan@;
        self.read_plan.push_back(ReadStep::Deliver(chunk));
        proof {
            lemma_planned_bytes_push(pre_plan, self.read_plan@[pre_plan.len() as int]);
        }
    }

    /// Script the next read attempt to report would-block.
    pub fn plan_read_pause(&mut self)
        ensures
            final(self).tok() == old(self).tok(),
            final(self).wire() == old(self).wire(),
            final(self).incoming() == old(self).incoming(),
            final(self).is_readable() == old(self).is_readable(),
            final(self).write_script() == old(self).write_script(),
            final(self).read_script() == old(self).read_script().push(ReadStep::Pause),
            final(self).is_writable() == old(self).is_writable(),
            final(self).is_closed() == old(self).is_closed(),
    {
        let ghost pre_plan = self.read_plan@;
        self.read_plan.push_back(ReadStep::Pause);
        proof {
            lemma_planned_bytes_push(pre_plan, self.read_plan@[pre_plan.len() as int]);
        }
    }

    /// Script the next read attempt to fail terminally.
    pub fn plan_read_failure(&mut self)
        ensures
            final(self).tok() == old(self).tok(),
            final(self).wire() == old(self).wire(),
            final(self).incoming() == old(self).incoming(),
            final(self).is_readable() == old(self).is_readable(),
            final(self).write_script() == old(self).write_script(),
            final(self).read_script() == old(self).read_script().push(ReadStep::Fail),
            final(self).is_writable() == old(self).is_writable(),
            final(self).is_closed() == old(self).is_closed(),
    {
        let ghost pre_plan = self.read_plan@;
        self.read_plan.push_back(ReadStep::Fail);
        proof {
            lemma_planned_bytes_push(pre_plan, self.read_plan@[pre_plan.len() as int]);
        }
    }

    /// The bytes this stream has accepted, in order.
    pub fn sent_bytes(&self) -> (r: &Vec<u8>)
        ensures
            r@ == self.wire(),
    {
        &self.sent
    }
}

proof fn lemma_planned_bytes_push(plan: Seq<ReadStep>, step: ReadStep)
    ensures
        planned_bytes(plan.push(step)) == planned_bytes(plan) + (match step {
            ReadStep::Deliver(v) => v@,
            _ => Seq::<u8>::empty(),
        }),
    decreases plan.len(),
{
    if plan.len() == 0 {
        assert(plan.push(step).skip(1) =~= Seq::<ReadStep>::empty());
        assert(planned_bytes(Seq::<ReadStep>::empty()) == Seq::<u8>::empty());
        assert(plan.push(step)[0] == step);
        assert(planned_bytes(plan.push(step)) =~= planned_bytes(plan) + (match step {
            ReadStep::Deliver(v) => v@,
            _ => Seq::<u8>::empty(),
        }));
    } else {
        assert(plan.push(step).skip(1) =~= plan.skip(1).push(step));
        lemma_planned_bytes_push(plan.skip(1), step);
        assert(plan.push(step)[0] == plan[0]);
        assert(planned_bytes(plan.push(step)) =~= planned_bytes(plan) + (match step {
            ReadStep::Deliver(v) => v@,
            _ => Seq::<u8>::empty(),
        }));
    }
}

impl ByteStream for ScriptStream {
    closed spec fn wire(&self) -> Seq<u8> {
        self.sent@
    }

    closed spec fn incoming(&self) -> Seq<u8> {
        planned_bytes(self.read_plan@)
    }

    closed spec fn tok(&self) -> usize {
        self.token_id
    }

    closed spec fn is_readable(&self) -> bool {
        self.can_read
    }

    closed spec fn is_writable(&self) -> bool {
        self.can_write
    }

    closed spec fn is_closed(&self) -> bool {
        self.failed
    }

    fn readable(&self) -> (b: bool) {
        self.can_read
    }

    fn writable(&self) -> (b: bool) {
        self.can_write
    }

    fn token(&self) -> (t: usize) {
        self.token_id
    }

    fn write(&mut self, buf: &[u8]) -> (r: WriteOutcome)
        ensures
            final(self).read_script() == old(self).read_script(),
            old(self).write_script().len() == 0 ==> final(self).write_script() == old(
                self,
            ).write_script() && (match r {
                WriteOutcome::Accepted(n) => n == buf@.len(),
                _ => false,
            }),
            old(self).write_script().len() > 0 ==> final(self).write_script() == old(
                self,
            ).write_script().skip(1) && (match (old(self).write_script()[0], r) {
                (WriteStep::Accept(limit), WriteOutcome::Accepted(n)) => n as int == (
                if limit < buf@.len() {
                    limit as int
                } else {
                    buf@.len() as int
                }),
                (WriteStep::Refuse, WriteOutcome::WouldBlock) => true,
                (WriteStep::Fail, WriteOutcome::Closed) => true,
                _ => false,
            }),
    {
        let ghost pre = *self;
        let step = match self.write_plan.pop_front() {
            None => WriteStep::Accept(buf.len()),
            Some(st) => st,
        };
        let ghost plan_after = self.write_plan@;
        match step {
            WriteStep::Accept(limit) => {
                let n = if limit < buf.len() {
                    limit
                } else {
                    buf.len()
                };
                let mut i: usize = 0;
                while i < n
                    invariant
                        i <= n,
                        n <= buf@.len(),
                        self.sent@ == pre.sent@ + buf@.take(i as int),
                        self.token_id == pre.token_id,
                        self.can_read == pre.can_read,
                        self.can_write == pre.can_write,
                        self.read_plan@ == pre.read_plan@,
                        self.write_plan@ == plan_after,
                        self.failed == pre.failed,
                    decreases n - i,
                {
                    let b = buf[i];
                    self.sent.push(b);
                    i = i + 1;
                    proof {
                        assert(self.sent@ =~= pre.sent@ + buf@.take(i as int));
                    }
                }
                WriteOutcome::Accepted(n)
            },
            WriteStep::Refuse => WriteOutcome::WouldBlock,
            WriteStep::Fail => {
                self.failed = true;
                WriteOutcome::Closed
            },
        }
    }

    fn read_chunk(&mut self) -> (r: ReadOutcome)
        ensures
            final(self).write_script() == old(self).write_script(),
            old(self).read_script().len() == 0 ==> final(self).read_script() == old(
                self,
            ).read_script() && r is WouldBlock,
            old(self).read_script().len() > 0 ==> final(self).read_script() == old(
                self,
            ).read_script().skip(1) && (match (old(self).read_script()[0], r) {
                (ReadStep::Deliver(v), ReadOutcome::Data(w)) => w == v && v@.len() > 0,
                (ReadStep::Deliver(v), ReadOutcome::WouldBlock) => v@.len() == 0,
                (ReadStep::Pause, ReadOutcome::WouldBlock) => true,
                (ReadStep::Fail, ReadOutcome::Closed) => true,
                _ => false,
            }),
    {
        let ghost pre_plan = self.read_plan@;
        match self.read_plan.pop_front() {
            None => ReadOutcome::WouldBlock,
            Some(ReadStep::Deliver(v)) => {
                proof {
                    assert(pre_plan[0] == ReadStep::Deliver(v));
                    assert(pre_plan.skip(1) =~= self.read_plan@);
                    assert(planned_bytes(pre_plan) == v@ + planned_bytes(self.read_plan@));
                }
                if v.len() == 0 {
                    proof {
                        assert(planned_bytes(pre_plan) =~= planned_bytes(self.read_plan@));
                    }
                    ReadOutcome::WouldBlock
                } else {
                    ReadOutcome::Data(v)
                }
            },
            Some(ReadStep::Pause) => {
                proof {
                    assert(pre_plan.skip(1) =~= self.read_plan@);
                    assert(planned_bytes(pre_plan) == Seq::<u8>::empty() + planned_bytes(
                        self.read_plan@,
                    ));
                    assert(planned_bytes(pre_plan) =~= planned_bytes(self.read_plan@));
                }
                ReadOutcome::WouldBlock
            },
            Some(ReadStep::Fail) => {
                proof {
                    assert(pre_plan.skip(1) =~= self.read_plan@);
                    assert(planned_bytes(pre_plan) == Seq::<u8>::empty() + planned_bytes(
                        self.read_plan@,
                    ));
                    assert(planned_bytes(pre_plan) =~= planned_bytes(self.read_plan@));
                }
                self.failed = true;
                ReadOutcome::Closed
            },
        }
    }

    fn on_event(&mut self, ev: &Event)
        ensures
            final(self).write_script() == old(self).write_script(),
            final(self).read_script() == old(self).read_script(),
    {
        self.can_read = ev.readable;
        self.can_write = ev.writable;
    }
}

} // verus!
