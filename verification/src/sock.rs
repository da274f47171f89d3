//! The byte-oriented connection capability that the multiplexer drives, and
//! an in-memory endpoint implementing it.

use vstd::prelude::*;

use crate::Sid;
use crate::wire::HEADER_LEN;
use crate::wire::frame_complete;
use crate::wire::frame_id;
use crate::wire::frame_len;
use crate::wire::frame_payload;
use crate::wire::frame_size;
use crate::wire::encode_packets;
use crate::wire::parse_frame;
use crate::wire::wire_of;

verus! {

/// Error of a read that needed more bytes than the connection will deliver:
/// either the connection closed first (`UnexpectedEof`), or it failed with
/// its own error.
#[derive(Debug)]
pub enum ReadExactError<E> {
    UnexpectedEof,
    Other(E),
}

/// A bidirectional byte connection able to send and receive whole frames.
///
/// An implementation is modelled by two byte sequences: `inbox`, the bytes it
/// will still deliver, and `outbox`, the bytes sent so far. A frame must go
/// out contiguously and come in contiguously: on a shared connection the
/// implementation holds its exclusive-access primitive across each whole
/// frame, never splitting one frame's bytes with another writer's.
pub trait Sock: Sized {
    /// The connection's own transport error.
    type Error;

    /// The bytes this connection will still deliver, in order. The default
    /// stands only for implementations outside the verifier, which carry no
    /// model; a verified implementation gives its own.
    open spec fn inbox(self) -> Seq<u8> {
        Seq::empty()
    }

    /// The bytes sent over this connection so far, in order. Defaulted as
    /// `inbox` is.
    open spec fn outbox(self) -> Seq<u8> {
        Seq::empty()
    }

    /// Sends `x` for stream `s`: cut into maximal chunks of 65535 bytes, one
    /// frame per chunk. A failure aborts the remaining chunks: what did go
    /// out is a prefix of the full encoding, and it stays out (no rollback).
    fn send_packet(&mut self, s: &Sid, x: &[u8]) -> (r: Result<(), Self::Error>)
        ensures
            final(self).inbox() == old(self).inbox(),
            r is Ok ==> final(self).outbox() == old(self).outbox() + wire_of(s@, x@),
            r is Err ==> exists|k: int|
                0 <= k <= wire_of(s@, x@).len() && final(self).outbox() == old(self).outbox()
                    + wire_of(s@, x@).take(k),
    ;

    /// Receives one whole frame: its identifier and its payload. On any
    /// failure nothing is consumed; in particular a frame is never left half
    /// read behind a success path. End of input may be reported only while
    /// no whole frame is pending: it means the connection closed first, not
    /// that a deliverable frame was passed over.
    fn recv_packet(&mut self) -> (r: Result<(Sid, Vec<u8>), ReadExactError<Self::Error>>)
        ensures
            final(self).outbox() == old(self).outbox(),
            match r {
                Ok(f) => {
                    &&& frame_complete(old(self).inbox())
                    &&& f.0@ == frame_id(old(self).inbox())
                    &&& f.1@ == frame_payload(old(self).inbox())
                    &&& final(self).inbox() == old(self).inbox().skip(
                        frame_size(old(self).inbox()) as int,
                    )
                },
                Err(e) => {
                    &&& final(self).inbox() == old(self).inbox()
                    &&& (e is UnexpectedEof ==> !frame_complete(old(self).inbox()))
                },
            },
    ;
}

/// One in-memory endpoint: it delivers the bytes of `input` (from `pos` on)
/// and records sent bytes in `output`. Wiring one endpoint's `output` to the
/// other's `input` gives an in-memory connection between two peers.
#[derive(Clone)]
pub struct MemSock {
    /// Bytes this endpoint will deliver.
    pub input: Vec<u8>,
    /// How many bytes of `input` were already delivered.
    pub pos: usize,
    /// Bytes sent through this endpoint so far.
    pub output: Vec<u8>,
}

impl MemSock {
    /// An endpoint with nothing to deliver and nothing sent.
    pub fn new() -> (r: MemSock)
        ensures
            r.inbox() == Seq::<u8>::empty(),
            r.outbox() == Seq::<u8>::empty(),
    {
        MemSock { input: Vec::new(), pos: 0, output: Vec::new() }
    }

    /// An endpoint that will deliver exactly `input`.
    pub fn with_input(input: Vec<u8>) -> (r: MemSock)
        ensures
            r.inbox() == input@,
            r.outbox() == Seq::<u8>::empty(),
    {
        proof {
            assert(input@.skip(0) =~= input@);
        }
        MemSock { input, pos: 0, output: Vec::new() }
    }
}

impl Sock for MemSock {
    type Error = ();

    open spec fn inbox(self) -> Seq<u8> {
        if self.pos <= self.input@.len() {
            self.input@.skip(self.pos as int)
        } else {
            Seq::empty()
        }
    }

    open spec fn outbox(self) -> Seq<u8> {
        self.output@
    }

    /// In memory nothing can go wrong: sending always succeeds.
    fn send_packet(&mut self, s: &Sid, x: &[u8]) -> (r: Result<(), Self::Error>)
        ensures
            r is Ok,
    {
        let mut w = encode_packets(s, x);
        self.output.append(&mut w);
        Ok(())
    }

    /// In memory the outcome is decided by the bytes alone: a whole pending
    /// frame is received, anything less is the end of the input.
    fn recv_packet(&mut self) -> (r: Result<(Sid, Vec<u8>), ReadExactError<Self::Error>>)
        ensures
            frame_complete(old(self).inbox()) ==> r is Ok,
            !frame_complete(old(self).inbox()) ==> (r matches Err(
                ReadExactError::UnexpectedEof,
            )),
    {
        match parse_frame(self.input.as_slice(), self.pos) {
            None => Err(ReadExactError::UnexpectedEof),
            Some((sid, payload)) => {
                let ghost before = self.inbox();
                let total = self.input.len();
                proof {
                    let rest = self.input@.skip(self.pos as int);
                    assert(before == rest);
                    assert(rest.len() == self.input@.len() - self.pos);
                    assert(rest.len() >= frame_size(rest));
                    assert(payload@.len() == frame_len(rest));
                    assert(self.pos + HEADER_LEN + payload@.len() <= total);
                }
                self.pos = self.pos + HEADER_LEN + payload.len();
                proof {
                    assert(self.inbox() =~= before.skip(frame_size(before) as int));
                }
                Ok((sid, payload))
            },
        }
    }
}

} // verus!
