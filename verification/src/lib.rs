//! Multiplexing of many logical byte-streams over one shared byte connection.
//!
//! Each logical stream is named by a 256-bit caller-chosen identifier. On the
//! wire every write is cut into frames of `[32-byte id][2-byte little-endian
//! length][payload]`. A read for one identifier drains that identifier's
//! backlog first and then receives frames from the connection, handing
//! matching payloads to the caller and stashing frames for other identifiers
//! in a buffer store for their own later reads.

use vstd::prelude::*;

mod engine;
mod laws;
mod queue;
mod sock;
mod wire;

pub use engine::Core;
pub use engine::Routed;
pub use engine::Stream;
pub use engine::avail;
pub use engine::route_frame;
pub use laws::frames_bytes;
pub use laws::frames_payloads;
pub use laws::frames_wf;
pub use laws::is_interleaving;
pub use laws::lemma_demux_frames;
pub use laws::lemma_demux_prepend_frame;
pub use laws::lemma_frame_parse;
pub use laws::lemma_interleaving_payloads;
pub use laws::lemma_interleaving_sym;
pub use laws::lemma_interleaving_wf;
pub use laws::lemma_non_interference;
pub use laws::lemma_partial_carry_over;
pub use laws::lemma_steal_replay;
pub use laws::lemma_wire_no_leak;
pub use laws::lemma_wire_round_trip;
pub use laws::lemma_write_frames;
pub use laws::write_frames;
pub use queue::Queue;
pub use queue::Segment;
pub use queue::VecQueue;
pub use queue::take_at_most;
pub use sock::MemSock;
pub use sock::ReadExactError;
pub use sock::Sock;
pub use wire::HEADER_LEN;
pub use wire::MAX_PAYLOAD;
pub use wire::SID_LEN;
pub use wire::demux;
pub use wire::encode_packets;
pub use wire::frame_bytes;
pub use wire::frame_complete;
pub use wire::frame_id;
pub use wire::frame_len;
pub use wire::frame_payload;
pub use wire::frame_size;
pub use wire::wire_of;

verus! {

/// A 256-bit stream identifier, chosen by the caller and opaque to the
/// multiplexer. The multiplexer only ever compares identifiers for equality.
pub type Sid = [u8; 32];

/// Equality of two stream identifiers, byte for byte.
pub fn sid_eq(a: &Sid, b: &Sid) -> (r: bool)
    ensures
        r <==> a@ == b@,
{
    let mut i: usize = 0;
    while i < 32
        invariant
            i <= 32,
            forall|j: int| 0 <= j < i ==> a@[j] == b@[j],
        decreases 32 - i,
    {
        if a[i] != b[i] {
            return false;
        }
        i += 1;
    }
    proof {
        assert(a@ =~= b@);
    }
    true
}

} // verus!
