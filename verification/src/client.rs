//! The client: exactly one connection to a known server.
//!
//! The host establishes the byte stream (or fails with its connect error)
//! and hands the resulting fresh connection in; the client then sends
//! `ClientMessage`s and receives `ServerMessage`s over it with the same
//! framing and decoding guarantees as the server side.

use vstd::prelude::*;

use crate::codec::spec_encode_client_msg;
use crate::connection::{
    spec_all_server_frames_ok, spec_decoded_server_msgs, Connection, ConnectionView,
};
use crate::framing::{spec_frame, spec_frames, spec_frames_rest};
use crate::msg::{ClientMessage, ServerMessage, ServerMessageView};

verus! {

/// A client: one connection to the server, no cache.
pub struct Client {
    connection: Connection,
}

impl View for Client {
    type V = ConnectionView;

    closed spec fn view(&self) -> ConnectionView {
        self.connection@
    }
}

/// A client connection's state after a read pass: complete frames
/// consumed, the partial tail kept, and the client disconnected if a frame
/// was malformed.
pub open spec fn spec_client_after_read(c: ConnectionView) -> ConnectionView {
    if c.alive {
        ConnectionView {
            recv: spec_frames_rest(c.recv),
            send: c.send,
            alive: spec_all_server_frames_ok(spec_frames(c.recv)),
        }
    } else {
        c
    }
}

/// The server messages a read pass delivers: everything the buffered
/// complete frames decode to, in arrival order — or nothing, if the client
/// is already disconnected.
pub open spec fn spec_client_incoming(c: ConnectionView) -> Seq<ServerMessageView> {
    if c.alive {
        spec_decoded_server_msgs(spec_frames(c.recv))
    } else {
        Seq::empty()
    }
}

impl Client {
    /// Own the one connection the host established to the server's
    /// address. (Reaching the address at all is the host's part; a failure
    /// there is its connect error and no client exists.)
    pub fn connect(connection: Connection) -> (c: Client)
        ensures
            c@ == connection@,
    {
        Client { connection }
    }

    /// Whether the client still holds a live connection to the server.
    pub fn is_connected(&self) -> (r: bool)
        ensures
            r == self@.alive,
    {
        self.connection.is_alive()
    }

    /// The host reports that the stream to the server closed or failed;
    /// the client is disconnected.
    pub fn mark_disconnected(&mut self)
        ensures
            final(self)@.alive == false,
            final(self)@.recv == old(self)@.recv,
            final(self)@.send == old(self)@.send,
    {
        self.connection.mark_closed();
    }

    /// Append bytes that arrived from the server to the inbound buffer.
    pub fn feed(&mut self, bytes: &[u8])
        ensures
            final(self)@.recv == old(self)@.recv + bytes@,
            final(self)@.send == old(self)@.send,
            final(self)@.alive == old(self)@.alive,
    {
        self.connection.feed(bytes);
    }

    /// Take the queued outbound bytes for the host to write to the stream.
    pub fn take_outgoing(&mut self) -> (r: Vec<u8>)
        ensures
            r@ == old(self)@.send,
            final(self)@.send == Seq::<u8>::empty(),
            final(self)@.recv == old(self)@.recv,
            final(self)@.alive == old(self)@.alive,
    {
        self.connection.take_outgoing()
    }

    /// Read every server message received so far: the buffered complete
    /// frames decoded in arrival order, each delivered exactly once. A
    /// malformed frame disconnects the client; the messages that preceded
    /// it are still delivered.
    pub fn read_messages(&mut self) -> (r: Vec<ServerMessage>)
        ensures
            r.deep_view() == spec_client_incoming(old(self)@),
            final(self)@ == spec_client_after_read(old(self)@),
    {
        if self.connection.is_alive() {
            let r = self.connection.poll_server_messages();
            proof {
                assert(self@ =~= spec_client_after_read(old(self)@));
            }
            r
        } else {
            let r: Vec<ServerMessage> = Vec::new();
            proof {
                assert(r.deep_view() =~= spec_client_incoming(old(self)@));
            }
            r
        }
    }

    /// Serialize, frame and queue one message to the server.
    pub fn send_message_to_server(&mut self, message: &ClientMessage)
        ensures
            final(self)@.send == old(self)@.send + spec_frame(spec_encode_client_msg(*message)),
            final(self)@.recv == old(self)@.recv,
            final(self)@.alive == old(self)@.alive,
    {
        self.connection.send_client_message(message);
    }
}

} // verus!
