//! Framing: dividing an ordered byte stream into discrete, completely
//! received message payloads.
//!
//! A frame is an 8-byte little-endian payload length followed by the
//! payload, so the stream is self-delimiting: a receiver holding any
//! prefix of the stream can tell whether a complete message is available.
//! The incrementality lemma below shows that chunking does not matter:
//! feeding the stream byte by byte extracts the same payloads, in the same
//! order, as feeding it all at once.

use vstd::bytes::{
    lemma_auto_spec_u64_to_from_le_bytes, spec_u64_from_le_bytes, spec_u64_to_le_bytes,
    u64_from_le_bytes, u64_to_le_bytes,
};
use vstd::prelude::*;
use vstd::slice::slice_subrange;

verus! {

/// A payload's wire frame: its length as 8 little-endian bytes, then the
/// payload itself.
pub open spec fn spec_frame(payload: Seq<u8>) -> Seq<u8> {
    spec_u64_to_le_bytes(payload.len() as u64) + payload
}

/// The first complete frame's payload, and the bytes that follow it, if
/// the buffer holds a complete frame.
pub open spec fn spec_take_frame(b: Seq<u8>) -> Option<(Seq<u8>, Seq<u8>)> {
    if b.len() >= 8 {
        let n = spec_u64_from_le_bytes(b.subrange(0, 8)) as int;
        if b.len() >= 8 + n {
            Some((b.subrange(8, 8 + n), b.skip(8 + n)))
        } else {
            None
        }
    } else {
        None
    }
}

/// Every complete frame payload held in the buffer, in arrival order.
pub open spec fn spec_frames(b: Seq<u8>) -> Seq<Seq<u8>>
    decreases b.len(),
{
    if b.len() >= 8 && b.len() >= 8 + spec_u64_from_le_bytes(b.subrange(0, 8)) as int {
        let n = spec_u64_from_le_bytes(b.subrange(0, 8)) as int;
        seq![b.subrange(8, 8 + n)] + spec_frames(b.skip(8 + n))
    } else {
        Seq::empty()
    }
}

/// The trailing partial frame left in the buffer once every complete
/// frame has been extracted.
pub open spec fn spec_frames_rest(b: Seq<u8>) -> Seq<u8>
    decreases b.len(),
{
    if b.len() >= 8 && b.len() >= 8 + spec_u64_from_le_bytes(b.subrange(0, 8)) as int {
        let n = spec_u64_from_le_bytes(b.subrange(0, 8)) as int;
        spec_frames_rest(b.skip(8 + n))
    } else {
        b
    }
}

/// Framing is insensitive to chunking. Whatever bytes have arrived so far
/// (`b1`) and whatever arrives next (`b2`), extracting the complete frames
/// of `b1` eagerly and keeping only the rest buffered loses nothing: the
/// frames of the whole stream are the frames of `b1` followed by the
/// frames of the buffered rest plus `b2`. Applied repeatedly, feeding a
/// stream one byte at a time yields exactly the frames of the whole
/// stream.
pub proof fn lemma_frames_incremental(b1: Seq<u8>, b2: Seq<u8>)
    ensures
        spec_frames(b1 + b2) == spec_frames(b1) + spec_frames(spec_frames_rest(b1) + b2),
        spec_frames_rest(b1 + b2) == spec_frames_rest(spec_frames_rest(b1) + b2),
    decreases b1.len(),
{
    if b1.len() >= 8 && b1.len() >= 8 + spec_u64_from_le_bytes(b1.subrange(0, 8)) as int {
        let n = spec_u64_from_le_bytes(b1.subrange(0, 8)) as int;
        let p = b1.subrange(8, 8 + n);
        let r = b1.skip(8 + n);
        assert((b1 + b2).subrange(0, 8) =~= b1.subrange(0, 8));
        assert((b1 + b2).subrange(8, 8 + n) =~= p);
        assert((b1 + b2).skip(8 + n) =~= r + b2);
        lemma_frames_incremental(r, b2);
        assert(spec_frames(b1 + b2) =~~= spec_frames(b1) + spec_frames(
            spec_frames_rest(b1) + b2,
        ));
    } else {
        assert(spec_frames(b1) + spec_frames(spec_frames_rest(b1) + b2) =~~= spec_frames(b1 + b2));
    }
}

/// Wrap a payload in its frame, ready to be written to the stream.
pub fn frame_payload(payload: Vec<u8>) -> (r: Vec<u8>)
    ensures
        r@ == spec_frame(payload@),
{
    let mut p = payload;
    let mut out = u64_to_le_bytes(p.len() as u64);
    out.append(&mut p);
    out
}

/// Remove the first complete frame from the buffer and return its payload,
/// or leave the buffer unchanged when no complete frame has arrived yet.
pub fn try_take_frame(buf: &mut Vec<u8>) -> (r: Option<Vec<u8>>)
    ensures
        match r {
            Some(p) => spec_take_frame(old(buf)@) == Some((p@, final(buf)@)),
            None => final(buf)@ == old(buf)@ && spec_take_frame(old(buf)@) is None,
        },
{
    proof {
        lemma_auto_spec_u64_to_from_le_bytes();
    }
    if buf.len() < 8 {
        return None;
    }
    let n = u64_from_le_bytes(slice_subrange(buf.as_slice(), 0, 8));
    if n > buf.len() as u64 - 8 {
        return None;
    }
    let n = n as usize;
    let ghost orig = buf@;
    let rest = buf.split_off(8 + n);
    let payload = buf.split_off(8);
    proof {
        assert(payload@ =~= orig.subrange(8, 8 + n as int));
        assert(rest@ =~= orig.skip(8 + n as int));
    }
    *buf = rest;
    Some(payload)
}

/// Extract every complete frame from the buffer, in arrival order, leaving
/// any trailing partial frame buffered.
pub fn take_frames(buf: &mut Vec<u8>) -> (r: Vec<Vec<u8>>)
    ensures
        r.deep_view() == spec_frames(old(buf)@),
        final(buf)@ == spec_frames_rest(old(buf)@),
{
    let mut frames: Vec<Vec<u8>> = Vec::new();
    loop
        invariant
            spec_frames(old(buf)@) == frames.deep_view() + spec_frames(buf@),
            spec_frames_rest(old(buf)@) == spec_frames_rest(buf@),
        ensures
            spec_take_frame(buf@) is None,
        decreases buf@.len(),
    {
        let ghost before = buf@;
        let ghost fdv = frames.deep_view();
        match try_take_frame(buf) {
            Some(p) => {
                proof {
                    assert(spec_frames(before) == seq![p@] + spec_frames(buf@));
                    assert(spec_frames_rest(before) == spec_frames_rest(buf@));
                }
                frames.push(p);
                proof {
                    assert(frames.deep_view() =~~= fdv.push(p@));
                    assert(fdv.push(p@) + spec_frames(buf@) =~~= fdv + (seq![p@] + spec_frames(
                        buf@,
                    )));
                }
            },
            None => {
                break ;
            },
        }
    }
    proof {
        assert(spec_frames(buf@) =~~= Seq::<Seq<u8>>::empty());
        assert(frames.deep_view() =~~= spec_frames(old(buf)@));
    }
    frames
}

} // verus!
