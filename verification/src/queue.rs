//! The buffer store: a per-identifier byte backlog, appended at the tail and
//! consumed at the head, and a verified implementation over a vector of
//! segments.

use vstd::prelude::*;

use crate::Sid;
use crate::sid_eq;
use crate::wire::extend_bytes;

verus! {

/// The first `n` bytes of `s`, or all of `s` if it is shorter.
pub open spec fn take_at_most(s: Seq<u8>, n: int) -> Seq<u8> {
    if s.len() <= n {
        s
    } else {
        s.take(n)
    }
}

/// The buffer store capability: one byte backlog per stream identifier.
///
/// An implementation is modelled by `backlog`, the bytes held for each
/// identifier. Bytes are never reordered, duplicated or moved between
/// identifiers: `push` appends at one identifier's tail and `pop` consumes
/// at its head, leaving every other identifier's backlog untouched.
pub trait Queue: Sized {
    /// The bytes currently held for stream `id`, oldest first.
    spec fn backlog(self, id: Seq<u8>) -> Seq<u8>;

    /// Appends `a` to the backlog of `s`.
    fn push(&mut self, s: &Sid, a: &[u8])
        ensures
            final(self).backlog(s@) == old(self).backlog(s@) + a@,
            forall|t: Seq<u8>| t != s@ ==> final(self).backlog(t) == old(self).backlog(t),
    ;

    /// Removes and returns up to `len` bytes from the head of the backlog of
    /// `s`: fewer only if the backlog holds fewer, and never waiting for
    /// bytes still to come.
    fn pop(&mut self, s: &Sid, len: usize) -> (r: Vec<u8>)
        ensures
            r@ == take_at_most(old(self).backlog(s@), len as int),
            final(self).backlog(s@) == old(self).backlog(s@).skip(r@.len() as int),
            forall|t: Seq<u8>| t != s@ ==> final(self).backlog(t) == old(self).backlog(t),
    ;
}

/// One stretch of pushed bytes, remembered with its stream identifier.
#[derive(Clone)]
pub struct Segment {
    /// The stream the bytes belong to.
    pub sid: Sid,
    /// The bytes themselves.
    pub buf: Vec<u8>,
}

/// The bytes that a run of segments holds for stream `id`, in segment order.
pub open spec fn backlog_of(segs: Seq<Segment>, id: Seq<u8>) -> Seq<u8>
    decreases segs.len(),
{
    if segs.len() == 0 {
        Seq::empty()
    } else {
        (if segs[0].sid@ == id {
            segs[0].buf@
        } else {
            Seq::empty()
        }) + backlog_of(segs.skip(1), id)
    }
}

/// Appending a segment at the tail appends its bytes to its own stream's
/// backlog and leaves every other stream's backlog unchanged.
proof fn lemma_backlog_of_snoc(segs: Seq<Segment>, seg: Segment, id: Seq<u8>)
    ensures
        backlog_of(segs.push(seg), id) == backlog_of(segs, id) + (if seg.sid@ == id {
            seg.buf@
        } else {
            Seq::<u8>::empty()
        }),
    decreases segs.len(),
{
    let tail = if seg.sid@ == id {
        seg.buf@
    } else {
        Seq::<u8>::empty()
    };
    if segs.len() == 0 {
        assert(segs.push(seg).skip(1) =~= Seq::<Segment>::empty());
        assert(backlog_of(Seq::<Segment>::empty(), id) == Seq::<u8>::empty());
        assert(segs.push(seg)[0] == seg);
        assert(backlog_of(segs.push(seg), id) == tail + Seq::<u8>::empty());
        assert(backlog_of(segs, id) == Seq::<u8>::empty());
        assert(tail + Seq::<u8>::empty() =~= Seq::<u8>::empty() + tail);
    } else {
        assert(segs.push(seg).skip(1) =~= segs.skip(1).push(seg));
        lemma_backlog_of_snoc(segs.skip(1), seg, id);
        let head = if segs[0].sid@ == id {
            segs[0].buf@
        } else {
            Seq::<u8>::empty()
        };
        assert(segs.push(seg)[0] == segs[0]);
        assert(backlog_of(segs.push(seg), id) == head + (backlog_of(segs.skip(1), id) + tail));
        assert(head + (backlog_of(segs.skip(1), id) + tail) =~= (head + backlog_of(
            segs.skip(1),
            id,
        )) + tail);
    }
}

/// The buffer store as an ordered keyed collection of byte stretches: every
/// push becomes one segment, and pop consumes segments from the front.
#[derive(Clone)]
pub struct VecQueue {
    /// The stored stretches, oldest first.
    pub segments: Vec<Segment>,
}

impl VecQueue {
    /// An empty store: every stream's backlog is empty.
    pub fn new() -> (r: VecQueue)
        ensures
            forall|t: Seq<u8>| r.backlog(t) == Seq::<u8>::empty(),
    {
        VecQueue { segments: Vec::new() }
    }
}

impl Queue for VecQueue {
    open spec fn backlog(self, id: Seq<u8>) -> Seq<u8> {
        backlog_of(self.segments@, id)
    }

    fn push(&mut self, s: &Sid, a: &[u8]) {
        let mut buf: Vec<u8> = Vec::new();
        extend_bytes(&mut buf, a);
        proof {
            assert(buf@ =~= a@);
        }
        let ghost segs0 = self.segments@;
        let seg = Segment { sid: *s, buf };
        let ghost gseg = seg;
        self.segments.push(seg);
        proof {
            lemma_backlog_of_snoc(segs0, gseg, s@);
            assert forall|t: Seq<u8>| t != s@ implies self.backlog(t) == backlog_of(
                segs0,
                t,
            ) by {
                lemma_backlog_of_snoc(segs0, gseg, t);
                assert(backlog_of(segs0, t) + Seq::<u8>::empty() =~= backlog_of(segs0, t));
            }
        }
    }

    fn pop(&mut self, s: &Sid, len: usize) -> (r: Vec<u8>) {
        let ghost segs0 = self.segments@;
        let mut out: Vec<u8> = Vec::new();
        let mut rest: Vec<Segment> = Vec::new();
        let n = self.segments.len();
        let mut i: usize = 0;
        while i < n
            invariant
                n == segs0.len(),
                self.segments@ == segs0,
                i <= n,
                out@.len() <= len,
                out@ == take_at_most(backlog_of(segs0.take(i as int), s@), len as int),
                backlog_of(rest@, s@) == backlog_of(segs0.take(i as int), s@).skip(
                    out@.len() as int,
                ),
                forall|t: Seq<u8>| t != s@ ==> backlog_of(rest@, t) == backlog_of(
                    segs0.take(i as int),
                    t,
                ),
            decreases n - i,
        {
            proof {
                assert(segs0.take(i + 1) =~= segs0.take(i as int).push(segs0[i as int]));
            }
            let ghost blp = backlog_of(segs0.take(i as int), s@);
            let seg = &self.segments[i];
            let matching = sid_eq(&seg.sid, s);
            if matching && out.len() < len {
                proof {
                    // out is shorter than asked, so everything matched so far
                    // was consumed whole.
                    assert(out@ == blp);
                    assert(blp.skip(blp.len() as int) =~= Seq::<u8>::empty());
                }
                let want = len - out.len();
                if seg.buf.len() <= want {
                    extend_bytes(&mut out, seg.buf.as_slice());
                    proof {
                        lemma_backlog_of_snoc(segs0.take(i as int), segs0[i as int], s@);
                        let bln = backlog_of(segs0.take(i + 1), s@);
                        assert(out@ == bln);
                        assert(bln.skip(bln.len() as int) =~= Seq::<u8>::empty());
                        assert forall|t: Seq<u8>| t != s@ implies backlog_of(rest@, t)
                            == backlog_of(segs0.take(i + 1), t) by {
                            lemma_backlog_of_snoc(segs0.take(i as int), segs0[i as int], t);
                            assert(backlog_of(segs0.take(i as int), t) + Seq::<u8>::empty()
                                =~= backlog_of(segs0.take(i as int), t));
                        }
                    }
                } else {
                    let bs = seg.buf.as_slice();
                    extend_bytes(&mut out, &bs[0..want]);
                    let mut rem: Vec<u8> = Vec::new();
                    extend_bytes(&mut rem, &bs[want..seg.buf.len()]);
                    let keep = Segment { sid: seg.sid, buf: rem };
                    let ghost gkeep = keep;
                    let ghost rest0 = rest@;
                    rest.push(keep);
                    proof {
                        lemma_backlog_of_snoc(segs0.take(i as int), segs0[i as int], s@);
                        lemma_backlog_of_snoc(rest0, gkeep, s@);
                        let bln = backlog_of(segs0.take(i + 1), s@);
                        let buf = segs0[i as int].buf@;
                        assert(bln == blp + buf);
                        assert(out@ =~= bln.take(len as int));
                        assert(out@ == take_at_most(bln, len as int));
                        assert(backlog_of(rest@, s@) =~= bln.skip(len as int));
                        assert forall|t: Seq<u8>| t != s@ implies backlog_of(rest@, t)
                            == backlog_of(segs0.take(i + 1), t) by {
                            lemma_backlog_of_snoc(segs0.take(i as int), segs0[i as int], t);
                            lemma_backlog_of_snoc(rest0, gkeep, t);
                        }
                    }
                }
            } else {
                let mut copybuf: Vec<u8> = Vec::new();
                extend_bytes(&mut copybuf, seg.buf.as_slice());
                let keep = Segment { sid: seg.sid, buf: copybuf };
                let ghost gkeep = keep;
                let ghost rest0 = rest@;
                rest.push(keep);
                proof {
                    lemma_backlog_of_snoc(segs0.take(i as int), segs0[i as int], s@);
                    lemma_backlog_of_snoc(rest0, gkeep, s@);
                    let bln = backlog_of(segs0.take(i + 1), s@);
                    if segs0[i as int].sid@ == s@ {
                        // out is already full.
                        assert(out@.len() == len);
                        assert(blp.len() >= len);
                        assert(out@ == blp.take(len as int));
                        assert(out@ =~= bln.take(len as int));
                        assert(out@ == take_at_most(bln, len as int));
                        assert(backlog_of(rest@, s@) =~= bln.skip(out@.len() as int));
                    } else {
                        assert(bln =~= blp);
                        assert(backlog_of(rest@, s@) =~= bln.skip(out@.len() as int));
                    }
                    assert forall|t: Seq<u8>| t != s@ implies backlog_of(rest@, t) == backlog_of(
                        segs0.take(i + 1),
                        t,
                    ) by {
                        lemma_backlog_of_snoc(segs0.take(i as int), segs0[i as int], t);
                        lemma_backlog_of_snoc(rest0, gkeep, t);
                    }
                }
            }
            i += 1;
        }
        proof {
            assert(segs0.take(n as int) =~= segs0);
        }
        self.segments = rest;
        out
    }
}

} // verus!
