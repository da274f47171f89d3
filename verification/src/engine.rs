//! The demultiplexing engine: one connection, one buffer store, and
//! read/write keyed by stream identifier.

use vstd::prelude::*;

use crate::Sid;
use crate::queue::Queue;
use crate::sid_eq;
use crate::sock::ReadExactError;
use crate::sock::Sock;
use crate::wire::demux;
use crate::wire::extend_bytes;
use crate::wire::frame_payload;
use crate::wire::frame_size;
use crate::wire::wire_of;

verus! {

/// The demultiplexing engine: owns one connection capability and one buffer
/// store capability, and serves every logical stream over them.
#[derive(Clone)]
pub struct Core<S, Q> {
    /// The shared connection.
    pub sock: S,
    /// The per-stream backlog store.
    pub queue: Q,
}

/// The bytes a read for `id` can obtain from `c` before any new write by the
/// peer: the backlog held for `id`, then whatever the connection's pending
/// bytes hold for `id`.
pub open spec fn avail<S: Sock, Q: Queue>(c: Core<S, Q>, id: Seq<u8>) -> Seq<u8> {
    c.queue.backlog(id) + demux(c.sock.inbox(), id)
}

/// Taking `a + b` elements is taking `a`, then `b` of what is left.
proof fn lemma_take_skip_split(s: Seq<u8>, a: int, b: int)
    requires
        0 <= a,
        0 <= b,
        a + b <= s.len(),
    ensures
        s.take(a + b) == s.take(a) + s.skip(a).take(b),
{
    assert(s.take(a + b) =~= s.take(a) + s.skip(a).take(b));
}

/// Skipping `a`, then `b` elements is skipping `a + b`.
proof fn lemma_skip_skip(s: Seq<u8>, a: int, b: int)
    requires
        0 <= a,
        0 <= b,
        a + b <= s.len(),
    ensures
        s.skip(a).skip(b) == s.skip(a + b),
{
    assert(s.skip(a).skip(b) =~= s.skip(a + b));
}

impl<S: Clone, Q: Clone> Core<S, Q> {
    /// A handle on the logical stream `a`, sharing this engine's connection
    /// and store through their own sharing discipline.
    pub fn stream(&self, a: Sid) -> (r: Stream<S, Q>)
        ensures
            r.sid@ == a@,
    {
        Stream { core: self.clone(), sid: a }
    }
}

impl<S: Sock, Q: Queue> Core<S, Q> {
    /// Sends `x` for stream `s`: frames on the wire, no store interaction.
    /// A failure aborts the remaining chunks; what went out stays out, a
    /// prefix of the full encoding.
    pub fn write(&mut self, s: &Sid, x: &[u8]) -> (r: Result<(), S::Error>)
        ensures
            final(self).queue == old(self).queue,
            final(self).sock.inbox() == old(self).sock.inbox(),
            r is Ok ==> final(self).sock.outbox() == old(self).sock.outbox() + wire_of(s@, x@),
            r is Err ==> exists|k: int|
                0 <= k <= wire_of(s@, x@).len() && final(self).sock.outbox() == old(
                    self,
                ).sock.outbox() + wire_of(s@, x@).take(k),
    {
        self.sock.send_packet(s, x)
    }

    /// Reads exactly `want` bytes for stream `s`, appending them to `buf`.
    ///
    /// Previously buffered bytes for `s` are drained first; if more is
    /// needed, frames are received from the connection: a matching frame's
    /// payload goes to `buf` (any excess beyond `want` back into the store
    /// for a later read), a foreign frame's payload goes whole into the
    /// store for its own stream's later read. A request the backlog alone
    /// can satisfy succeeds without touching the connection. On any failure
    /// the bytes appended so far stay in `buf`, frames routed to other
    /// streams stay routed, and nothing is lost: what was not delivered is
    /// still available.
    pub fn read(&mut self, s: &Sid, buf: &mut Vec<u8>, want: usize) -> (r: Result<
        (),
        ReadExactError<S::Error>,
    >)
        requires
            old(buf)@.len() + want <= usize::MAX,
        ensures
            final(self).sock.outbox() == old(self).sock.outbox(),
            final(buf)@.len() >= old(buf)@.len(),
            ({
                let got = final(buf)@.len() - old(buf)@.len();
                &&& got <= want
                &&& got <= avail(*old(self), s@).len()
                &&& final(buf)@ == old(buf)@ + avail(*old(self), s@).take(got)
                &&& avail(*final(self), s@) == avail(*old(self), s@).skip(got)
                &&& forall|t: Seq<u8>| t != s@ ==> avail(*final(self), t) == avail(*old(self), t)
                &&& (r is Ok <==> got == want)
                &&& ((r matches Err(ReadExactError::UnexpectedEof)) ==> got == avail(
                    *old(self),
                    s@,
                ).len() && got < want)
            }),
            old(self).queue.backlog(s@).len() >= want ==> r is Ok && final(self).sock.inbox()
                == old(self).sock.inbox(),
    {
        let ghost c0 = *old(self);
        let ghost avail0 = avail(c0, s@);
        let ghost bl0 = c0.queue.backlog(s@);
        let base = buf.len();
        let mut popped = self.queue.pop(s, want);
        let npop = popped.len();
        buf.append(&mut popped);
        proof {
            if bl0.len() <= want {
                assert(avail0.take(npop as int) =~= bl0);
            } else {
                assert(avail0.take(npop as int) =~= bl0.take(want as int));
            }
            assert(avail(*self, s@) =~= avail0.skip(npop as int));
        }
        if npop == want {
            proof {
                assert(buf@ == old(buf)@ + avail0.take(npop as int));
            }
            return Ok(());
        }
        proof {
            assert(npop == bl0.len());
            assert(npop <= avail0.len());
            assert(self.queue.backlog(s@) =~= Seq::<u8>::empty());
        }
        loop
            invariant
                c0 == *old(self),
                bl0 == c0.queue.backlog(s@),
                bl0.len() < want,
                base == old(buf)@.len(),
                base + want <= usize::MAX,
                buf@.len() >= base,
                buf@.len() - base < want,
                buf@.len() - base <= avail0.len(),
                self.queue.backlog(s@) == Seq::<u8>::empty(),
                buf@ == old(buf)@ + avail0.take(buf@.len() - base),
                avail(*self, s@) == avail0.skip(buf@.len() - base),
                forall|t: Seq<u8>| t != s@ ==> avail(*self, t) == avail(c0, t),
                self.sock.outbox() == c0.sock.outbox(),
                avail0 == avail(c0, s@),
            decreases self.sock.inbox().len(),
        {
            let ghost pre = *self;
            let ghost w = pre.sock.inbox();
            let ghost fill = buf@.len() - base;
            match self.sock.recv_packet() {
                Err(e) => {
                    proof {
                        if e is UnexpectedEof {
                            assert(demux(self.sock.inbox(), s@) == Seq::<u8>::empty());
                            assert(avail(*self, s@) =~= Seq::<u8>::empty());
                            assert(avail0.skip(fill).len() == avail0.len() - fill);
                            assert(fill == avail0.len());
                        }
                    }
                    return Err(e);
                },
                Ok((sid2, mut payload)) => {
                    proof {
                        assert(self.sock.inbox() == w.skip(frame_size(w) as int));
                        assert(frame_size(w) >= 34);
                        assert(demux(w, s@) == avail0.skip(fill));
                    }
                    if !sid_eq(&sid2, s) {
                        self.queue.push(&sid2, payload.as_slice());
                        proof {
                            let w1 = w.skip(frame_size(w) as int);
                            assert(demux(w, s@) == Seq::<u8>::empty() + demux(w1, s@));
                            assert(Seq::<u8>::empty() + demux(w1, s@) =~= demux(w1, s@));
                            assert(avail(*self, s@) =~= avail0.skip(fill));
                            assert forall|t: Seq<u8>| t != s@ implies avail(*self, t) == avail(
                                c0,
                                t,
                            ) by {
                                if t == sid2@ {
                                    assert(demux(w, t) == frame_payload(w) + demux(w1, t));
                                    assert(self.queue.backlog(t) == pre.queue.backlog(t)
                                        + payload@);
                                    assert(avail(*self, t) =~= avail(pre, t));
                                } else {
                                    assert(demux(w, t) == Seq::<u8>::empty() + demux(w1, t));
                                    assert(avail(*self, t) =~= avail(pre, t));
                                }
                            }
                        }
                    } else {
                        let filled = buf.len() - base;
                        let room = want - filled;
                        let plen = payload.len();
                        proof {
                            let w1 = w.skip(frame_size(w) as int);
                            assert(demux(w, s@) == payload@ + demux(w1, s@));
                            assert(avail0.take(fill).len() == fill);
                            assert(fill <= avail0.len());
                            assert(avail0.skip(fill).len() == avail0.len() - fill);
                            assert(payload@.len() <= avail0.skip(fill).len());
                            assert(fill + payload@.len() <= avail0.len());
                        }
                        if plen <= room {
                            buf.append(&mut payload);
                            proof {
                                let w1 = w.skip(frame_size(w) as int);
                                lemma_take_skip_split(avail0, fill, plen as int);
                                assert((frame_payload(w) + demux(w1, s@)).take(plen as int)
                                    =~= frame_payload(w));
                                assert(avail0.take(fill + plen) == avail0.take(fill)
                                    + frame_payload(w));
                                assert(buf@ =~= old(buf)@ + avail0.take(fill + plen));
                                lemma_skip_skip(avail0, fill, plen as int);
                                assert((frame_payload(w) + demux(w1, s@)).skip(plen as int)
                                    =~= demux(w1, s@));
                                assert(avail(*self, s@) =~= avail0.skip(fill + plen));
                                assert forall|t: Seq<u8>| t != s@ implies avail(*self, t) == avail(
                                    c0,
                                    t,
                                ) by {
                                    assert(demux(w, t) == Seq::<u8>::empty() + demux(w1, t));
                                    assert(avail(*self, t) =~= avail(pre, t));
                                }
                            }
                            if buf.len() - base == want {
                                return Ok(());
                            }
                        } else {
                            let ps = payload.as_slice();
                            extend_bytes(buf, &ps[0..room]);
                            let ghost qpre = *self;
                            self.queue.push(s, &ps[room..plen]);
                            proof {
                                let w1 = w.skip(frame_size(w) as int);
                                lemma_take_skip_split(avail0, fill, room as int);
                                assert((payload@ + demux(w1, s@)).take(room as int)
                                    =~= payload@.take(room as int));
                                assert(avail0.take(fill + room) == avail0.take(fill)
                                    + payload@.take(room as int));
                                assert(buf@ =~= old(buf)@ + avail0.take(fill + room));
                                assert(self.queue.backlog(s@) =~= payload@.skip(room as int));
                                lemma_skip_skip(avail0, fill, room as int);
                                assert((payload@ + demux(w1, s@)).skip(room as int)
                                    =~= payload@.skip(room as int) + demux(w1, s@));
                                assert(avail(*self, s@) =~= avail0.skip(fill + room));
                                assert forall|t: Seq<u8>| t != s@ implies avail(*self, t) == avail(
                                    c0,
                                    t,
                                ) by {
                                    assert(demux(w, t) == Seq::<u8>::empty() + demux(w1, t));
                                    assert(self.queue.backlog(t) == qpre.queue.backlog(t));
                                    assert(avail(*self, t) =~= avail(pre, t));
                                }
                            }
                            return Ok(());
                        }
                    }
                },
            }
        }
    }
}

/// Where one received frame must go, decided against the stream being read
/// and the room left in its buffer.
pub enum Routed {
    /// The frame is the target stream's and fits whole: deliver its payload.
    Deliver(Vec<u8>),
    /// The frame is the target stream's but exceeds the room: deliver the
    /// first part, requeue the rest under the same stream for a later read.
    Split(Vec<u8>, Vec<u8>),
    /// The frame belongs to another stream: buffer all of it under that
    /// stream's identifier.
    Steal(Sid, Vec<u8>),
}

/// The receive loop's routing decision for one frame, as a step a driver can
/// call: a loop that must suspend at its connection and store receives a
/// frame, routes it by this function, and performs the resulting delivery,
/// requeue or steal itself. `Core::read` takes the same decisions.
pub fn route_frame(s: &Sid, sid2: Sid, payload: Vec<u8>, room: usize) -> (r: Routed)
    ensures
        match r {
            Routed::Deliver(d) => sid2@ == s@ && payload@.len() <= room && d@ == payload@,
            Routed::Split(d, q) => sid2@ == s@ && payload@.len() > room && d@ == payload@.take(
                room as int,
            ) && q@ == payload@.skip(room as int),
            Routed::Steal(t, q) => t@ == sid2@ && sid2@ != s@ && q@ == payload@,
        },
{
    if !sid_eq(&sid2, s) {
        return Routed::Steal(sid2, payload);
    }
    if payload.len() <= room {
        return Routed::Deliver(payload);
    }
    let ps = payload.as_slice();
    let mut d: Vec<u8> = Vec::new();
    extend_bytes(&mut d, &ps[0..room]);
    let mut q: Vec<u8> = Vec::new();
    extend_bytes(&mut q, &ps[room..payload.len()]);
    proof {
        assert(d@ =~= payload@.take(room as int));
        assert(q@ =~= payload@.skip(room as int));
    }
    Routed::Split(d, q)
}

/// A lightweight handle on one logical stream: an engine plus one bound
/// identifier, itself carrying no buffered state.
#[derive(Clone)]
pub struct Stream<S, Q> {
    /// The engine this handle reads and writes through.
    pub core: Core<S, Q>,
    /// The identifier of the logical stream.
    pub sid: Sid,
}

impl<S: Sock, Q: Queue> Stream<S, Q> {
    /// Writes all of `buf` on this handle's stream.
    pub fn write(&mut self, buf: &[u8]) -> (r: Result<usize, S::Error>)
        ensures
            final(self).sid == old(self).sid,
            final(self).core.queue == old(self).core.queue,
            final(self).core.sock.inbox() == old(self).core.sock.inbox(),
            match r {
                Ok(nw) => nw == buf@.len() && final(self).core.sock.outbox() == old(
                    self,
                ).core.sock.outbox() + wire_of(old(self).sid@, buf@),
                Err(_) => exists|k: int|
                    0 <= k <= wire_of(old(self).sid@, buf@).len() && final(self).core.sock.outbox()
                        == old(self).core.sock.outbox() + wire_of(old(self).sid@, buf@).take(k),
            },
    {
        match self.core.write(&self.sid, buf) {
            Ok(()) => Ok(buf.len()),
            Err(e) => Err(e),
        }
    }

    /// Reads up to `want` bytes from this handle's stream.
    ///
    /// A short result (fewer than `want` bytes, possibly none) means the
    /// connection reached its end first: end of stream is a short read, not
    /// an error. Any other connection failure is returned as the error it
    /// was, with bytes already routed to other streams left in place.
    pub fn read(&mut self, want: usize) -> (r: Result<Vec<u8>, S::Error>)
        ensures
            final(self).sid == old(self).sid,
            final(self).core.sock.outbox() == old(self).core.sock.outbox(),
            old(self).core.queue.backlog(old(self).sid@).len() >= want ==> r is Ok
                && final(self).core.sock.inbox() == old(self).core.sock.inbox(),
            match r {
                Ok(v) => {
                    &&& v@.len() <= want
                    &&& v@.len() <= avail(old(self).core, old(self).sid@).len()
                    &&& (v@.len() == want || v@.len() == avail(old(self).core, old(self).sid@).len())
                    &&& v@ == avail(old(self).core, old(self).sid@).take(v@.len() as int)
                    &&& avail(final(self).core, old(self).sid@) == avail(
                        old(self).core,
                        old(self).sid@,
                    ).skip(v@.len() as int)
                    &&& forall|t: Seq<u8>| t != old(self).sid@ ==> avail(final(self).core, t)
                        == avail(old(self).core, t)
                },
                Err(_) => {
                    &&& exists|k: int|
                        0 <= k <= want && avail(final(self).core, old(self).sid@) == avail(
                            old(self).core,
                            old(self).sid@,
                        ).skip(k)
                    &&& forall|t: Seq<u8>| t != old(self).sid@ ==> avail(final(self).core, t)
                        == avail(old(self).core, t)
                },
            },
    {
        let mut v: Vec<u8> = Vec::new();
        let ghost a0 = avail(self.core, self.sid@);
        let res = self.core.read(&self.sid, &mut v, want);
        proof {
            assert(Seq::<u8>::empty() + a0.take(v@.len() as int) =~= a0.take(v@.len() as int));
        }
        match res {
            Ok(()) => Ok(v),
            Err(ReadExactError::UnexpectedEof) => Ok(v),
            Err(ReadExactError::Other(e)) => {
                proof {
                    let k = v@.len() as int;
                    assert(0 <= k <= want && avail(self.core, self.sid@) == a0.skip(k));
                }
                Err(e)
            },
        }
    }

    /// Sending is unbuffered, so there is nothing to flush.
    pub fn flush(&mut self) -> (r: Result<(), S::Error>)
        ensures
            r is Ok,
            *final(self) == *old(self),
    {
        Ok(())
    }
}

} // verus!
