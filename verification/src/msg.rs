//! The message protocol's data model: the replication unit and the two
//! message families exchanged between server and client.

use vstd::prelude::*;

verus! {

/// The three components of an entity's position, each stored as the bit
/// pattern of one IEEE-754 single-precision number. Keeping the raw bits
/// makes equality exact (bitwise), which is what both the wire round trip
/// and delta compression's change detection require.
#[derive(Clone, Copy, PartialEq, Eq, Structural, Debug)]
pub struct Vec3Bits {
    pub x: u32,
    pub y: u32,
    pub z: u32,
}

/// The four components of an entity's rotation (a unit quaternion), each
/// stored as an IEEE-754 single-precision bit pattern.
#[derive(Clone, Copy, PartialEq, Eq, Structural, Debug)]
pub struct QuatBits {
    pub x: u32,
    pub y: u32,
    pub z: u32,
    pub w: u32,
}

/// One replication unit: the state of one entity, keyed by a stable
/// identifier that is meaningful across process boundaries (never a
/// process-local store handle).
#[derive(Clone, Copy, PartialEq, Eq, Structural, Debug)]
pub struct NodeState {
    pub id: u64,
    pub position: Vec3Bits,
    pub rotation: QuatBits,
}

/// Messages sent from the server to its clients.
#[derive(Debug, PartialEq)]
pub enum ServerMessage {
    /// Command the client to load the named level.
    LoadLevel { path: String },
    /// A full or partial snapshot of entity states, in entity-store order.
    Sync { entity_states: Vec<NodeState> },
}

/// The mathematical model of a [`ServerMessage`]: the same shape over
/// `Seq` instead of `String` and `Vec`.
#[verifier::ext_equal]
pub enum ServerMessageView {
    LoadLevel { path: Seq<char> },
    Sync { entity_states: Seq<NodeState> },
}

impl View for ServerMessage {
    type V = ServerMessageView;

    open spec fn view(&self) -> ServerMessageView {
        match self {
            ServerMessage::LoadLevel { path } => ServerMessageView::LoadLevel { path: path@ },
            ServerMessage::Sync { entity_states } => ServerMessageView::Sync {
                entity_states: entity_states@,
            },
        }
    }
}

impl DeepView for ServerMessage {
    type V = ServerMessageView;

    open spec fn deep_view(&self) -> ServerMessageView {
        self.view()
    }
}

/// Messages sent from a client to the server.
#[derive(Clone, Copy, PartialEq, Eq, Structural, Debug)]
pub enum ClientMessage {
    PlayerInput { left: bool, right: bool },
}

/// A malformed or unknown message was found on an otherwise healthy
/// stream. The connection that produced it is dropped, since its byte
/// stream can no longer be trusted to be in sync.
#[derive(Clone, Copy, PartialEq, Eq, Structural, Debug)]
pub struct DecodeError;

} // verus!
