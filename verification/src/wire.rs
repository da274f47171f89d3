//! The wire format: frames of `[32-byte id][2-byte little-endian length]
//! [payload]`, and the spec-level model of a wire byte sequence.

use vstd::prelude::*;

use crate::Sid;

verus! {

/// Length of a stream identifier on the wire, in bytes.
pub const SID_LEN: usize = 32;

/// Length of a frame header (identifier plus length field), in bytes.
pub const HEADER_LEN: usize = 34;

/// Largest payload one frame can carry: the length field is 16 bits.
pub const MAX_PAYLOAD: usize = 65535;

/// The two bytes of a 16-bit length, little-endian.
pub open spec fn le16_bytes(n: nat) -> Seq<u8> {
    seq![(n % 256) as u8, ((n / 256) % 256) as u8]
}

/// The bytes of one frame: identifier, little-endian length, payload.
/// Meaningful when `id` has 32 bytes and `payload` at most 65535.
pub open spec fn frame_bytes(id: Seq<u8>, payload: Seq<u8>) -> Seq<u8> {
    id + le16_bytes(payload.len()) + payload
}

/// Everything one write call for `id` puts on the wire: `data` cut into
/// maximal chunks of 65535 bytes, one frame per chunk. Empty data sends
/// nothing at all.
pub open spec fn wire_of(id: Seq<u8>, data: Seq<u8>) -> Seq<u8>
    decreases data.len(),
{
    if data.len() == 0 {
        Seq::empty()
    } else if data.len() <= MAX_PAYLOAD {
        frame_bytes(id, data)
    } else {
        frame_bytes(id, data.take(MAX_PAYLOAD as int)) + wire_of(id, data.skip(MAX_PAYLOAD as int))
    }
}

/// The payload length declared by the frame at the head of `w`.
pub open spec fn frame_len(w: Seq<u8>) -> nat
    recommends
        w.len() >= HEADER_LEN,
{
    w[SID_LEN as int] as nat + 256 * (w[SID_LEN + 1] as nat)
}

/// Total size of the frame at the head of `w`, header included.
pub open spec fn frame_size(w: Seq<u8>) -> nat
    recommends
        w.len() >= HEADER_LEN,
{
    HEADER_LEN as nat + frame_len(w)
}

/// Whether `w` starts with one whole frame.
pub open spec fn frame_complete(w: Seq<u8>) -> bool {
    w.len() >= HEADER_LEN && w.len() >= frame_size(w)
}

/// The identifier of the frame at the head of `w`.
pub open spec fn frame_id(w: Seq<u8>) -> Seq<u8>
    recommends
        w.len() >= HEADER_LEN,
{
    w.take(SID_LEN as int)
}

/// The payload of the frame at the head of `w`.
pub open spec fn frame_payload(w: Seq<u8>) -> Seq<u8>
    recommends
        frame_complete(w),
{
    w.subrange(HEADER_LEN as int, frame_size(w) as int)
}

/// The bytes that the wire `w` still holds for stream `id`: the payloads of
/// the complete frames at the head of `w` whose identifier is `id`, in wire
/// order, up to the first incomplete frame (or the end).
pub open spec fn demux(w: Seq<u8>, id: Seq<u8>) -> Seq<u8>
    decreases w.len(),
{
    if frame_complete(w) {
        (if frame_id(w) == id {
            frame_payload(w)
        } else {
            Seq::empty()
        }) + demux(w.skip(frame_size(w) as int), id)
    } else {
        Seq::empty()
    }
}

/// Appends a copy of `x` to `out`.
pub fn extend_bytes(out: &mut Vec<u8>, x: &[u8])
    ensures
        final(out)@ == old(out)@ + x@,
{
    let mut k: usize = 0;
    while k < x.len()
        invariant
            k <= x@.len(),
            out@ == old(out)@ + x@.take(k as int),
        decreases x@.len() - k,
    {
        out.push(x[k]);
        proof {
            assert(old(out)@ + x@.take(k as int) + seq![x@[k as int]] =~= old(out)@ + x@.take(
                k + 1,
            ));
        }
        k += 1;
    }
    proof {
        assert(x@.take(x@.len() as int) =~= x@);
    }
}

/// Appends one frame for `s` carrying `chunk` to `out`.
fn append_frame(out: &mut Vec<u8>, s: &Sid, chunk: &[u8])
    requires
        chunk@.len() <= MAX_PAYLOAD,
    ensures
        final(out)@ == old(out)@ + frame_bytes(s@, chunk@),
{
    extend_bytes(out, s.as_slice());
    let n = chunk.len();
    out.push((n % 256) as u8);
    out.push(((n / 256) % 256) as u8);
    proof {
        assert(out@ =~= old(out)@ + s@ + le16_bytes(chunk@.len()));
    }
    extend_bytes(out, chunk);
    proof {
        assert(out@ =~= old(out)@ + frame_bytes(s@, chunk@));
    }
}

/// Encodes everything one write call for `s` sends: `x` cut into maximal
/// chunks of 65535 bytes, one frame per chunk.
pub fn encode_packets(s: &Sid, x: &[u8]) -> (r: Vec<u8>)
    ensures
        r@ == wire_of(s@, x@),
{
    let mut out: Vec<u8> = Vec::new();
    let mut i: usize = 0;
    proof {
        assert(x@.skip(0) =~= x@);
        assert(Seq::<u8>::empty() + wire_of(s@, x@) =~= wire_of(s@, x@));
    }
    while i < x.len()
        invariant
            i <= x@.len(),
            out@ + wire_of(s@, x@.skip(i as int)) == wire_of(s@, x@),
        decreases x@.len() - i,
    {
        let j: usize = if x.len() - i > MAX_PAYLOAD {
            i + MAX_PAYLOAD
        } else {
            x.len()
        };
        let chunk = &x[i..j];
        proof {
            let rest = x@.skip(i as int);
            assert(chunk@ =~= if rest.len() <= MAX_PAYLOAD {
                rest
            } else {
                rest.take(MAX_PAYLOAD as int)
            });
            if rest.len() > MAX_PAYLOAD {
                assert(x@.skip(j as int) =~= rest.skip(MAX_PAYLOAD as int));
            }
        }
        append_frame(&mut out, s, chunk);
        proof {
            let rest = x@.skip(i as int);
            if rest.len() <= MAX_PAYLOAD {
                assert(wire_of(s@, rest) == frame_bytes(s@, chunk@));
                assert(x@.skip(j as int).len() == 0);
                assert(wire_of(s@, x@.skip(j as int)) == Seq::<u8>::empty());
                assert(out@ + wire_of(s@, x@.skip(j as int)) =~= out@);
            } else {
                assert(wire_of(s@, rest) == frame_bytes(s@, chunk@) + wire_of(
                    s@,
                    rest.skip(MAX_PAYLOAD as int),
                ));
            }
            assert(out@ + wire_of(s@, x@.skip(j as int)) =~= wire_of(s@, x@));
        }
        i = j;
    }
    proof {
        assert(x@.skip(i as int).len() == 0);
        assert(out@ + Seq::<u8>::empty() =~= out@);
    }
    out
}

/// Parses the frame at offset `start` of `w`, if one whole frame is there.
pub fn parse_frame(w: &[u8], start: usize) -> (r: Option<(Sid, Vec<u8>)>)
    ensures
        match r {
            Some(f) => {
                &&& start <= w@.len()
                &&& frame_complete(w@.skip(start as int))
                &&& f.0@ == frame_id(w@.skip(start as int))
                &&& f.1@ == frame_payload(w@.skip(start as int))
            },
            None => start > w@.len() || !frame_complete(w@.skip(start as int)),
        },
{
    if start > w.len() || w.len() - start < HEADER_LEN {
        return None;
    }
    let ghost rest = w@.skip(start as int);
    let mut sid: Sid = [0u8; 32];
    let mut i: usize = 0;
    while i < SID_LEN
        invariant
            i <= SID_LEN,
            start + HEADER_LEN <= w@.len(),
            w@.len() <= usize::MAX,
            forall|j: int| 0 <= j < i ==> sid@[j] == w@[start + j],
        decreases SID_LEN - i,
    {
        sid[i] = w[start + i];
        i += 1;
    }
    proof {
        assert(sid@ =~= frame_id(rest));
    }
    let len: usize = w[start + SID_LEN] as usize + 256 * (w[start + SID_LEN + 1] as usize);
    proof {
        assert(len == frame_len(rest));
    }
    if w.len() - start - HEADER_LEN < len {
        proof {
            assert(!frame_complete(rest));
        }
        return None;
    }
    let mut payload: Vec<u8> = Vec::new();
    let mut k: usize = 0;
    while k < len
        invariant
            k <= len,
            start + HEADER_LEN + len <= w@.len(),
            w@.len() <= usize::MAX,
            payload@.len() == k,
            forall|j: int| 0 <= j < k ==> payload@[j] == w@[start + HEADER_LEN + j],
        decreases len - k,
    {
        payload.push(w[start + HEADER_LEN + k]);
        k += 1;
    }
    proof {
        assert(frame_complete(rest));
        assert(payload@ =~= frame_payload(rest));
    }
    Some((sid, payload))
}

} // verus!
