//! Laws of the wire format: what holds of every write and every wire, proved
//! once and for all over the spec-level model.

use vstd::arithmetic::div_mod::lemma_fundamental_div_mod;
use vstd::prelude::*;

use crate::wire::HEADER_LEN;
use crate::wire::MAX_PAYLOAD;
use crate::wire::demux;
use crate::wire::frame_bytes;
use crate::wire::frame_complete;
use crate::wire::frame_id;
use crate::wire::frame_len;
use crate::wire::frame_payload;
use crate::wire::frame_size;
use crate::wire::wire_of;

verus! {

/// A frame's bytes parse back to exactly the identifier and payload they
/// were built from.
pub proof fn lemma_frame_parse(id: Seq<u8>, payload: Seq<u8>)
    requires
        id.len() == 32,
        payload.len() <= MAX_PAYLOAD,
    ensures
        frame_complete(frame_bytes(id, payload)),
        frame_id(frame_bytes(id, payload)) == id,
        frame_payload(frame_bytes(id, payload)) == payload,
        frame_size(frame_bytes(id, payload)) == HEADER_LEN + payload.len(),
{
    let w = frame_bytes(id, payload);
    let n = payload.len() as int;
    assert(w.len() == HEADER_LEN + payload.len());
    assert(w[32] == (n % 256) as u8);
    assert(w[33] == ((n / 256) % 256) as u8);
    lemma_fundamental_div_mod(n, 256);
    assert(n / 256 < 256) by (nonlinear_arith)
        requires
            0 <= n <= 65535,
    ;
    assert((n / 256) % 256 == n / 256);
    assert(frame_len(w) == n % 256 + 256 * (n / 256));
    assert(frame_len(w) == payload.len());
    assert(frame_id(w) =~= id);
    assert(frame_payload(w) =~= payload);
}

/// A wire that starts with one whole frame demultiplexes as that frame's
/// payload (for its own identifier, nothing for any other), followed by
/// whatever the rest of the wire holds.
pub proof fn lemma_demux_prepend_frame(id: Seq<u8>, payload: Seq<u8>, rest: Seq<u8>, t: Seq<u8>)
    requires
        id.len() == 32,
        payload.len() <= MAX_PAYLOAD,
    ensures
        demux(frame_bytes(id, payload) + rest, t) == (if id == t {
            payload
        } else {
            Seq::<u8>::empty()
        }) + demux(rest, t),
{
    let f = frame_bytes(id, payload);
    let w = f + rest;
    lemma_frame_parse(id, payload);
    assert(w[32] == f[32]);
    assert(w[33] == f[33]);
    assert(frame_len(w) == frame_len(f));
    assert(frame_complete(w));
    assert(frame_id(w) =~= frame_id(f));
    assert(frame_payload(w) =~= frame_payload(f));
    assert(w.skip(frame_size(w) as int) =~= rest);
}

/// Round-trip: whatever one write call for `id` puts on the wire — however
/// many frames, including none for empty data — reading the wire back for
/// `id` yields exactly the written bytes.
pub proof fn lemma_wire_round_trip(id: Seq<u8>, data: Seq<u8>)
    requires
        id.len() == 32,
    ensures
        demux(wire_of(id, data), id) == data,
    decreases data.len(),
{
    if data.len() == 0 {
        assert(demux(wire_of(id, data), id) =~= data);
    } else if data.len() <= MAX_PAYLOAD {
        assert(wire_of(id, data) =~= frame_bytes(id, data) + Seq::<u8>::empty());
        lemma_demux_prepend_frame(id, data, Seq::empty(), id);
        assert(!frame_complete(Seq::<u8>::empty()));
        assert(data + demux(Seq::<u8>::empty(), id) =~= data);
    } else {
        let head = data.take(MAX_PAYLOAD as int);
        let tail = data.skip(MAX_PAYLOAD as int);
        lemma_demux_prepend_frame(id, head, wire_of(id, tail), id);
        lemma_wire_round_trip(id, tail);
        assert(head + tail =~= data);
    }
}

/// Nothing of a write for `id` is ever delivered to a different identifier.
pub proof fn lemma_wire_no_leak(id: Seq<u8>, t: Seq<u8>, data: Seq<u8>)
    requires
        id.len() == 32,
        t != id,
    ensures
        demux(wire_of(id, data), t) == Seq::<u8>::empty(),
    decreases data.len(),
{
    if data.len() == 0 {
        assert(demux(wire_of(id, data), t) =~= Seq::<u8>::empty());
    } else if data.len() <= MAX_PAYLOAD {
        assert(wire_of(id, data) =~= frame_bytes(id, data) + Seq::<u8>::empty());
        lemma_demux_prepend_frame(id, data, Seq::empty(), t);
        assert(!frame_complete(Seq::<u8>::empty()));
        assert(Seq::<u8>::empty() + demux(Seq::<u8>::empty(), t) =~= Seq::<u8>::empty());
    } else {
        let head = data.take(MAX_PAYLOAD as int);
        let tail = data.skip(MAX_PAYLOAD as int);
        lemma_demux_prepend_frame(id, head, wire_of(id, tail), t);
        lemma_wire_no_leak(id, t, tail);
        assert(Seq::<u8>::empty() + Seq::<u8>::empty() =~= Seq::<u8>::empty());
    }
}

/// Steal and replay: after a frame for `idb` and then one for `ida`, a read
/// of the wire for `ida` obtains exactly `pa` (buffering `pb` past it), and
/// the wire still holds exactly `pb` for `idb`.
pub proof fn lemma_steal_replay(ida: Seq<u8>, idb: Seq<u8>, pa: Seq<u8>, pb: Seq<u8>)
    requires
        ida.len() == 32,
        idb.len() == 32,
        ida != idb,
        pa.len() <= MAX_PAYLOAD,
        pb.len() <= MAX_PAYLOAD,
    ensures
        demux(frame_bytes(idb, pb) + frame_bytes(ida, pa), ida) == pa,
        demux(frame_bytes(idb, pb) + frame_bytes(ida, pa), idb) == pb,
{
    let fa = frame_bytes(ida, pa);
    lemma_demux_prepend_frame(idb, pb, fa, ida);
    lemma_demux_prepend_frame(idb, pb, fa, idb);
    assert(fa =~= fa + Seq::<u8>::empty());
    lemma_demux_prepend_frame(ida, pa, Seq::empty(), ida);
    lemma_demux_prepend_frame(ida, pa, Seq::empty(), idb);
    assert(!frame_complete(Seq::<u8>::empty()));
    assert(Seq::<u8>::empty() + (pa + Seq::<u8>::empty()) =~= pa);
    assert(pb + (Seq::<u8>::empty() + Seq::<u8>::empty()) =~= pb);
}

/// Whether every frame of the run carries a 32-byte identifier and at most
/// 65535 payload bytes. A frame is a pair of identifier and payload.
pub open spec fn frames_wf(fs: Seq<(Seq<u8>, Seq<u8>)>) -> bool {
    forall|i: int|
        0 <= i < fs.len() ==> (#[trigger] fs[i]).0.len() == 32 && fs[i].1.len() <= MAX_PAYLOAD
}

/// The wire bytes of a run of frames, in order.
pub open spec fn frames_bytes(fs: Seq<(Seq<u8>, Seq<u8>)>) -> Seq<u8>
    decreases fs.len(),
{
    if fs.len() == 0 {
        Seq::empty()
    } else {
        frame_bytes(fs[0].0, fs[0].1) + frames_bytes(fs.skip(1))
    }
}

/// The bytes a run of frames carries for stream `id`, in order.
pub open spec fn frames_payloads(fs: Seq<(Seq<u8>, Seq<u8>)>, id: Seq<u8>) -> Seq<u8>
    decreases fs.len(),
{
    if fs.len() == 0 {
        Seq::empty()
    } else {
        (if fs[0].0 == id {
            fs[0].1
        } else {
            Seq::empty()
        }) + frames_payloads(fs.skip(1), id)
    }
}

/// Demultiplexing the bytes of a run of frames delivers exactly that run's
/// payloads for the identifier, in order.
pub proof fn lemma_demux_frames(fs: Seq<(Seq<u8>, Seq<u8>)>, id: Seq<u8>)
    requires
        frames_wf(fs),
    ensures
        demux(frames_bytes(fs), id) == frames_payloads(fs, id),
    decreases fs.len(),
{
    if fs.len() == 0 {
        assert(!frame_complete(Seq::<u8>::empty()));
        assert(demux(frames_bytes(fs), id) =~= frames_payloads(fs, id));
    } else {
        lemma_demux_prepend_frame(fs[0].0, fs[0].1, frames_bytes(fs.skip(1)), id);
        lemma_demux_frames(fs.skip(1), id);
    }
}

/// Whether `c` interleaves `a` and `b`: `c` holds exactly the items of both,
/// and each side's items keep their own order.
pub open spec fn is_interleaving<A>(c: Seq<A>, a: Seq<A>, b: Seq<A>) -> bool
    decreases c.len(),
{
    if c.len() == 0 {
        a.len() == 0 && b.len() == 0
    } else {
        ||| (a.len() > 0 && c[0] == a[0] && is_interleaving(c.skip(1), a.skip(1), b))
        ||| (b.len() > 0 && c[0] == b[0] && is_interleaving(c.skip(1), a, b.skip(1)))
    }
}

/// Interleaving is symmetric in its two sources.
pub proof fn lemma_interleaving_sym<A>(c: Seq<A>, a: Seq<A>, b: Seq<A>)
    requires
        is_interleaving(c, a, b),
    ensures
        is_interleaving(c, b, a),
    decreases c.len(),
{
    if c.len() > 0 {
        if a.len() > 0 && c[0] == a[0] && is_interleaving(c.skip(1), a.skip(1), b) {
            lemma_interleaving_sym(c.skip(1), a.skip(1), b);
        } else {
            lemma_interleaving_sym(c.skip(1), a, b.skip(1));
        }
    }
}

/// An interleaving of two well-formed frame runs is well-formed.
pub proof fn lemma_interleaving_wf(
    c: Seq<(Seq<u8>, Seq<u8>)>,
    a: Seq<(Seq<u8>, Seq<u8>)>,
    b: Seq<(Seq<u8>, Seq<u8>)>,
)
    requires
        is_interleaving(c, a, b),
        frames_wf(a),
        frames_wf(b),
    ensures
        frames_wf(c),
    decreases c.len(),
{
    if c.len() > 0 {
        if a.len() > 0 && c[0] == a[0] && is_interleaving(c.skip(1), a.skip(1), b) {
            assert(frames_wf(a.skip(1)));
            lemma_interleaving_wf(c.skip(1), a.skip(1), b);
            assert(c[0].0.len() == 32 && c[0].1.len() <= MAX_PAYLOAD);
        } else {
            assert(frames_wf(b.skip(1)));
            lemma_interleaving_wf(c.skip(1), a, b.skip(1));
            assert(c[0].0.len() == 32 && c[0].1.len() <= MAX_PAYLOAD);
        }
        assert forall|i: int| 0 <= i < c.len() implies ((#[trigger] c[i]).0.len() == 32
            && c[i].1.len() <= MAX_PAYLOAD) by {
            if i >= 1 {
                assert(c.skip(1)[i - 1] == c[i]);
                assert((#[trigger] c.skip(1)[i - 1]).0.len() == 32 && c.skip(1)[i - 1].1.len()
                    <= MAX_PAYLOAD);
            }
        }
    }
}

/// Frames whose identifiers all differ from `id` contribute nothing for
/// `id`: the interleaved run carries exactly what the other side carries.
pub proof fn lemma_interleaving_payloads(
    c: Seq<(Seq<u8>, Seq<u8>)>,
    a: Seq<(Seq<u8>, Seq<u8>)>,
    b: Seq<(Seq<u8>, Seq<u8>)>,
    id: Seq<u8>,
)
    requires
        is_interleaving(c, a, b),
        forall|i: int| 0 <= i < b.len() ==> (#[trigger] b[i]).0 != id,
    ensures
        frames_payloads(c, id) == frames_payloads(a, id),
    decreases c.len(),
{
    if c.len() == 0 {
        assert(frames_payloads(c, id) =~= frames_payloads(a, id));
    } else if a.len() > 0 && c[0] == a[0] && is_interleaving(c.skip(1), a.skip(1), b) {
        lemma_interleaving_payloads(c.skip(1), a.skip(1), b, id);
    } else {
        assert(b.len() > 0 && c[0] == b[0]);
        assert(forall|i: int| 1 <= i < b.len() ==> b[i] == #[trigger] b.skip(1)[i - 1]);
        assert(forall|i: int| 0 <= i < b.skip(1).len() ==> (#[trigger] b.skip(1)[i]).0 != id);
        lemma_interleaving_payloads(c.skip(1), a, b.skip(1), id);
        assert(c[0].0 != id);
        assert(Seq::<u8>::empty() + frames_payloads(c.skip(1), id) =~= frames_payloads(
            c.skip(1),
            id,
        ));
    }
}

/// The frames one write call for `id` cuts `data` into: maximal chunks of
/// 65535 bytes, in order, none at all for empty data.
pub open spec fn write_frames(id: Seq<u8>, data: Seq<u8>) -> Seq<(Seq<u8>, Seq<u8>)>
    decreases data.len(),
{
    if data.len() == 0 {
        Seq::empty()
    } else if data.len() <= MAX_PAYLOAD {
        seq![(id, data)]
    } else {
        seq![(id, data.take(MAX_PAYLOAD as int))] + write_frames(id, data.skip(MAX_PAYLOAD as int))
    }
}

/// One write call's frames: they are well-formed, their bytes are the
/// write's wire bytes, and their payloads reassemble the written data — for
/// the writer's identifier and for no other.
pub proof fn lemma_write_frames(id: Seq<u8>, data: Seq<u8>)
    requires
        id.len() == 32,
    ensures
        frames_wf(write_frames(id, data)),
        frames_bytes(write_frames(id, data)) == wire_of(id, data),
        frames_payloads(write_frames(id, data), id) == data,
        forall|i: int| 0 <= i < write_frames(id, data).len() ==> (#[trigger] write_frames(
            id,
            data,
        )[i]).0 == id,
    decreases data.len(),
{
    let fs = write_frames(id, data);
    if data.len() == 0 {
        assert(frames_bytes(fs) =~= wire_of(id, data));
        assert(frames_payloads(fs, id) =~= data);
    } else if data.len() <= MAX_PAYLOAD {
        assert(fs.skip(1) =~= Seq::<(Seq<u8>, Seq<u8>)>::empty());
        assert(frames_bytes(fs) == frame_bytes(id, data) + frames_bytes(fs.skip(1)));
        assert(frame_bytes(id, data) + Seq::<u8>::empty() =~= frame_bytes(id, data));
        assert(frames_payloads(fs, id) == data + frames_payloads(fs.skip(1), id));
        assert(data + Seq::<u8>::empty() =~= data);
    } else {
        let head = data.take(MAX_PAYLOAD as int);
        let tail = data.skip(MAX_PAYLOAD as int);
        lemma_write_frames(id, tail);
        assert(fs[0] == (id, head));
        assert(fs.skip(1) =~= write_frames(id, tail));
        assert(frames_bytes(fs) == frame_bytes(id, head) + frames_bytes(fs.skip(1)));
        assert(frames_payloads(fs, id) == head + frames_payloads(fs.skip(1), id));
        assert(head + tail =~= data);
    }
}

/// Non-interference: interleave, frame by frame, what a writer sends for
/// `ida` with what a writer sends for `idb`; reading the combined wire back
/// for each identifier yields exactly that identifier's written bytes, in
/// their own order, with nothing crossing between the two.
pub proof fn lemma_non_interference(
    c: Seq<(Seq<u8>, Seq<u8>)>,
    ida: Seq<u8>,
    idb: Seq<u8>,
    da: Seq<u8>,
    db: Seq<u8>,
)
    requires
        ida.len() == 32,
        idb.len() == 32,
        ida != idb,
        is_interleaving(c, write_frames(ida, da), write_frames(idb, db)),
    ensures
        demux(frames_bytes(c), ida) == da,
        demux(frames_bytes(c), idb) == db,
{
    let fa = write_frames(ida, da);
    let fb = write_frames(idb, db);
    lemma_write_frames(ida, da);
    lemma_write_frames(idb, db);
    lemma_interleaving_wf(c, fa, fb);
    lemma_demux_frames(c, ida);
    lemma_interleaving_payloads(c, fa, fb, ida);
    lemma_demux_frames(c, idb);
    lemma_interleaving_sym(c, fa, fb);
    lemma_interleaving_payloads(c, fb, fa, idb);
}

/// Partial carry-over: a read of `a` bytes and then one of `b` bytes deliver
/// consecutive stretches of what was available — together exactly the first
/// `a + b` bytes, nothing lost and nothing repeated.
pub proof fn lemma_partial_carry_over(s: Seq<u8>, a: int, b: int)
    requires
        0 <= a,
        0 <= b,
        a + b <= s.len(),
    ensures
        s.take(a) + s.skip(a).take(b) == s.take(a + b),
{
    assert(s.take(a) + s.skip(a).take(b) =~= s.take(a + b));
}

} // verus!
