//! One framed, bidirectional channel over one byte stream.
//!
//! A connection owns the inbound buffering state (partially received
//! bytes) and an outbound queue of already-framed bytes. The host hands
//! whatever bytes the stream produced to [`Connection::feed`] and writes
//! whatever [`Connection::take_outgoing`] returns back to the stream;
//! everything in between — framing, decoding, ordering, at-most-once
//! delivery, dropping the connection on a malformed frame — is verified
//! here.

use vstd::prelude::*;

use crate::codec::{
    decode_client_message, decode_server_message, encode_client_message, encode_server_message,
    spec_decode_client_msg, spec_decode_server_msg, spec_encode_client_msg, spec_encode_server_msg,
};
use crate::framing::{frame_payload, spec_frame, spec_frames, spec_frames_rest, take_frames};
use crate::msg::{ClientMessage, ServerMessage, ServerMessageView};

verus! {

/// A framed channel over one byte stream, plus its liveness: a connection
/// stops being live when the peer closes or errors the stream (reported by
/// the host through [`Connection::mark_closed`]) or when a malformed frame
/// arrives and the stream can no longer be trusted to be in sync.
pub struct Connection {
    recv: Vec<u8>,
    send: Vec<u8>,
    alive: bool,
}

/// The model of a connection: the buffered inbound bytes, the queued
/// outbound bytes, and liveness.
#[verifier::ext_equal]
pub struct ConnectionView {
    pub recv: Seq<u8>,
    pub send: Seq<u8>,
    pub alive: bool,
}

impl View for Connection {
    type V = ConnectionView;

    closed spec fn view(&self) -> ConnectionView {
        ConnectionView { recv: self.recv@, send: self.send@, alive: self.alive }
    }
}

impl DeepView for Connection {
    type V = ConnectionView;

    open spec fn deep_view(&self) -> ConnectionView {
        self.view()
    }
}

/// The client messages decoded, in arrival order, from a sequence of frame
/// payloads, up to but not including the first malformed frame.
pub open spec fn spec_decoded_client_msgs(frames: Seq<Seq<u8>>) -> Seq<ClientMessage>
    decreases frames.len(),
{
    if frames.len() == 0 {
        Seq::empty()
    } else {
        match spec_decode_client_msg(frames[0]) {
            Some(m) => seq![m] + spec_decoded_client_msgs(frames.drop_first()),
            None => Seq::empty(),
        }
    }
}

/// Whether every frame payload decodes as a client message.
pub open spec fn spec_all_client_frames_ok(frames: Seq<Seq<u8>>) -> bool {
    forall|i: int| 0 <= i < frames.len() ==> spec_decode_client_msg(#[trigger] frames[i]) is Some
}

/// The server messages decoded, in arrival order, from a sequence of frame
/// payloads, up to but not including the first malformed frame.
pub open spec fn spec_decoded_server_msgs(frames: Seq<Seq<u8>>) -> Seq<ServerMessageView>
    decreases frames.len(),
{
    if frames.len() == 0 {
        Seq::empty()
    } else {
        match spec_decode_server_msg(frames[0]) {
            Some(m) => seq![m] + spec_decoded_server_msgs(frames.drop_first()),
            None => Seq::empty(),
        }
    }
}

/// Whether every frame payload decodes as a server message.
pub open spec fn spec_all_server_frames_ok(frames: Seq<Seq<u8>>) -> bool {
    forall|i: int| 0 <= i < frames.len() ==> spec_decode_server_msg(#[trigger] frames[i]) is Some
}

impl Connection {
    /// A fresh connection over a newly established stream: nothing
    /// buffered, nothing queued, live.
    pub fn new() -> (c: Connection)
        ensures
            c@.recv == Seq::<u8>::empty(),
            c@.send == Seq::<u8>::empty(),
            c@.alive,
    {
        Connection { recv: Vec::new(), send: Vec::new(), alive: true }
    }

    /// Whether the connection is still live.
    pub fn is_alive(&self) -> (r: bool)
        ensures
            r == self@.alive,
    {
        self.alive
    }

    /// The host reports that the underlying stream closed or failed; the
    /// connection leaves the live set.
    pub fn mark_closed(&mut self)
        ensures
            final(self)@.alive == false,
            final(self)@.recv == old(self)@.recv,
            final(self)@.send == old(self)@.send,
    {
        self.alive = false;
    }

    /// Append bytes that arrived on the stream to the inbound buffer.
    pub fn feed(&mut self, bytes: &[u8])
        ensures
            final(self)@.recv == old(self)@.recv + bytes@,
            final(self)@.send == old(self)@.send,
            final(self)@.alive == old(self)@.alive,
    {
        let n = bytes.len();
        let mut i: usize = 0;
        while i < n
            invariant
                i <= n,
                n == bytes@.len(),
                self.recv@ == old(self)@.recv + bytes@.take(i as int),
                self.send@ == old(self)@.send,
                self.alive == old(self)@.alive,
            decreases n - i,
        {
            let b = bytes[i];
            self.recv.push(b);
            proof {
                assert(self.recv@ =~= old(self)@.recv + bytes@.take(i + 1));
            }
            i = i + 1;
        }
        proof {
            assert(bytes@.take(n as int) =~= bytes@);
        }
    }

    /// Take the queued outbound bytes for the host to write to the stream.
    pub fn take_outgoing(&mut self) -> (r: Vec<u8>)
        ensures
            r@ == old(self)@.send,
            final(self)@.send == Seq::<u8>::empty(),
            final(self)@.recv == old(self)@.recv,
            final(self)@.alive == old(self)@.alive,
    {
        let out = self.send.split_off(0);
        proof {
            assert(out@ =~= old(self)@.send);
            assert(self.send@ =~= Seq::<u8>::empty());
        }
        out
    }

    /// Serialize, frame and queue one server message.
    pub fn send_server_message(&mut self, m: &ServerMessage)
        ensures
            final(self)@.send == old(self)@.send + spec_frame(spec_encode_server_msg(m@)),
            final(self)@.recv == old(self)@.recv,
            final(self)@.alive == old(self)@.alive,
    {
        let payload = encode_server_message(m);
        let mut framed = frame_payload(payload);
        self.send.append(&mut framed);
    }

    /// Serialize, frame and queue one client message.
    pub fn send_client_message(&mut self, m: &ClientMessage)
        ensures
            final(self)@.send == old(self)@.send + spec_frame(spec_encode_client_msg(*m)),
            final(self)@.recv == old(self)@.recv,
            final(self)@.alive == old(self)@.alive,
    {
        let payload = encode_client_message(m);
        let mut framed = frame_payload(payload);
        self.send.append(&mut framed);
    }

    /// Extract every complete frame buffered so far and decode the client
    /// messages in them, in arrival order, each delivered exactly once. A
    /// malformed frame ends decoding and drops the connection; the
    /// messages that preceded it are still delivered.
    pub fn poll_client_messages(&mut self) -> (r: Vec<ClientMessage>)
        ensures
            r@ == spec_decoded_client_msgs(spec_frames(old(self)@.recv)),
            final(self)@.recv == spec_frames_rest(old(self)@.recv),
            final(self)@.send == old(self)@.send,
            final(self)@.alive == (old(self)@.alive && spec_all_client_frames_ok(
                spec_frames(old(self)@.recv),
            )),
    {
        let frames = take_frames(&mut self.recv);
        let ghost fr = frames.deep_view();
        let mut msgs: Vec<ClientMessage> = Vec::new();
        let mut ok = true;
        let n = frames.len();
        let mut i: usize = 0;
        proof {
            assert(fr.skip(0) =~= fr);
            assert(msgs@ + spec_decoded_client_msgs(fr) =~= spec_decoded_client_msgs(fr));
        }
        while i < n
            invariant
                i <= n,
                n == frames@.len(),
                fr == frames.deep_view(),
                fr.len() == n,
                msgs@ + (if ok {
                    spec_decoded_client_msgs(fr.skip(i as int))
                } else {
                    Seq::<ClientMessage>::empty()
                }) == spec_decoded_client_msgs(fr),
                ok ==> self.alive == old(self)@.alive,
                !ok ==> !spec_all_client_frames_ok(fr) && self.alive == false && msgs@
                    == spec_decoded_client_msgs(fr),
                ok ==> (forall|j: int|
                    0 <= j < i ==> spec_decode_client_msg(#[trigger] fr[j]) is Some),
                self.recv@ == spec_frames_rest(old(self)@.recv),
                self.send@ == old(self)@.send,
            decreases n - i,
        {
            if ok {
                proof {
                    assert(frames@[i as int].deep_view() == fr[i as int]);
                    assert(fr[i as int] =~= frames@[i as int]@);
                }
                match decode_client_message(frames[i].as_slice()) {
                    Ok(m) => {
                        proof {
                            assert(fr.skip(i as int)[0] == fr[i as int]);
                            assert(fr.skip(i as int).drop_first() =~= fr.skip(i + 1));
                        }
                        let ghost mv = msgs@;
                        msgs.push(m);
                        proof {
                            assert(mv.push(m) + spec_decoded_client_msgs(fr.skip(i + 1)) =~= mv + (
                            seq![m] + spec_decoded_client_msgs(fr.skip(i + 1))));
                        }
                    },
                    Err(_) => {
                        ok = false;
                        self.alive = false;
                        proof {
                            assert(spec_decode_client_msg(fr[i as int]) is None);
                            assert(fr.skip(i as int)[0] == fr[i as int]);
                            assert(spec_decoded_client_msgs(fr.skip(i as int))
                                =~= Seq::<ClientMessage>::empty());
                        }
                    },
                }
            }
            i = i + 1;
        }
        proof {
            if ok {
                assert(fr.skip(n as int) =~= Seq::<Seq<u8>>::empty());
                assert(spec_decoded_client_msgs(fr.skip(n as int)) =~= Seq::<ClientMessage>::empty());
                assert(msgs@ =~= spec_decoded_client_msgs(fr));
                assert(spec_all_client_frames_ok(fr));
            }
        }
        msgs
    }

    /// Extract every complete frame buffered so far and decode the server
    /// messages in them, in arrival order, each delivered exactly once. A
    /// malformed frame ends decoding and drops the connection; the
    /// messages that preceded it are still delivered.
    pub fn poll_server_messages(&mut self) -> (r: Vec<ServerMessage>)
        ensures
            r.deep_view() == spec_decoded_server_msgs(spec_frames(old(self)@.recv)),
            final(self)@.recv == spec_frames_rest(old(self)@.recv),
            final(self)@.send == old(self)@.send,
            final(self)@.alive == (old(self)@.alive && spec_all_server_frames_ok(
                spec_frames(old(self)@.recv),
            )),
    {
        let frames = take_frames(&mut self.recv);
        let ghost fr = frames.deep_view();
        let mut msgs: Vec<ServerMessage> = Vec::new();
        let mut ok = true;
        let n = frames.len();
        let mut i: usize = 0;
        proof {
            assert(fr.skip(0) =~= fr);
            assert(msgs.deep_view() =~~= Seq::<ServerMessageView>::empty());
            assert(msgs.deep_view() + spec_decoded_server_msgs(fr) =~= spec_decoded_server_msgs(fr));
        }
        while i < n
            invariant
                i <= n,
                n == frames@.len(),
                fr == frames.deep_view(),
                fr.len() == n,
                msgs.deep_view() + (if ok {
                    spec_decoded_server_msgs(fr.skip(i as int))
                } else {
                    Seq::<ServerMessageView>::empty()
                }) == spec_decoded_server_msgs(fr),
                ok ==> self.alive == old(self)@.alive,
                !ok ==> !spec_all_server_frames_ok(fr) && self.alive == false && msgs.deep_view()
                    == spec_decoded_server_msgs(fr),
                ok ==> (forall|j: int|
                    0 <= j < i ==> spec_decode_server_msg(#[trigger] fr[j]) is Some),
                self.recv@ == spec_frames_rest(old(self)@.recv),
                self.send@ == old(self)@.send,
            decreases n - i,
        {
            if ok {
                proof {
                    assert(frames@[i as int].deep_view() == fr[i as int]);
                    assert(fr[i as int] =~= frames@[i as int]@);
                }
                let ghost mdv = msgs.deep_view();
                match decode_server_message(frames[i].as_slice()) {
                    Ok(m) => {
                        proof {
                            assert(fr.skip(i as int)[0] == fr[i as int]);
                            assert(fr.skip(i as int).drop_first() =~= fr.skip(i + 1));
                        }
                        msgs.push(m);
                        proof {
                            assert(msgs.deep_view() =~~= mdv.push(m@));
                            assert(mdv.push(m@) + spec_decoded_server_msgs(fr.skip(i + 1)) =~= mdv
                                + (seq![m@] + spec_decoded_server_msgs(fr.skip(i + 1))));
                        }
                    },
                    Err(_) => {
                        ok = false;
                        self.alive = false;
                        proof {
                            assert(spec_decode_server_msg(fr[i as int]) is None);
                            assert(fr.skip(i as int)[0] == fr[i as int]);
                            assert(spec_decoded_server_msgs(fr.skip(i as int))
                                =~= Seq::<ServerMessageView>::empty());
                        }
                    },
                }
            }
            i = i + 1;
        }
        proof {
            if ok {
                assert(fr.skip(n as int) =~= Seq::<Seq<u8>>::empty());
                assert(spec_decoded_server_msgs(fr.skip(n as int))
                    =~= Seq::<ServerMessageView>::empty());
                assert(msgs.deep_view() =~~= spec_decoded_server_msgs(fr));
                assert(spec_all_server_frames_ok(fr));
            }
        }
        msgs
    }
}

} // verus!
