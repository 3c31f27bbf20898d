//! The wire encoding of the message protocol.
//!
//! Every message encodes to a finite byte sequence: a one-byte tag, an
//! eight-byte little-endian length or count, and the body. Entity states
//! are fixed-size records; level paths travel as UTF-8. Decoding rejects
//! unknown tags, malformed bodies and length mismatches, so a receiver can
//! never silently misread a desynchronized stream. The round-trip law
//! (decoding an encoding yields the original message) is proved below.

use vstd::bytes::*;
use vstd::prelude::*;
use vstd::slice::{slice_subrange, slice_to_vec};
use vstd::string::StrSliceExecFns;
use vstd::utf8::{decode_utf8, encode_utf8, encode_utf8_decode_utf8, encode_utf8_valid_utf8, valid_utf8};

use crate::msg::{ClientMessage, DecodeError, NodeState, QuatBits, ServerMessage, ServerMessageView, Vec3Bits};

verus! {

/// Wire tag of `ServerMessage::LoadLevel`.
pub const TAG_LOAD_LEVEL: u8 = 0;

/// Wire tag of `ServerMessage::Sync`.
pub const TAG_SYNC: u8 = 1;

/// Wire tag of `ClientMessage::PlayerInput`.
pub const TAG_PLAYER_INPUT: u8 = 0;

// ---------------------------------------------------------------------
// Specification of the encoding
// ---------------------------------------------------------------------

/// The bytes of one entity state: id, position x/y/z, rotation x/y/z/w,
/// each little-endian.
pub open spec fn spec_encode_node(n: NodeState) -> Seq<u8> {
    spec_u64_to_le_bytes(n.id) + spec_u32_to_le_bytes(n.position.x) + spec_u32_to_le_bytes(
        n.position.y,
    ) + spec_u32_to_le_bytes(n.position.z) + spec_u32_to_le_bytes(n.rotation.x)
        + spec_u32_to_le_bytes(n.rotation.y) + spec_u32_to_le_bytes(n.rotation.z)
        + spec_u32_to_le_bytes(n.rotation.w)
}

/// The entity state read back from 36 bytes.
pub open spec fn spec_decode_node(b: Seq<u8>) -> NodeState
    recommends
        b.len() == 36,
{
    NodeState {
        id: spec_u64_from_le_bytes(b.subrange(0, 8)),
        position: Vec3Bits {
            x: spec_u32_from_le_bytes(b.subrange(8, 12)),
            y: spec_u32_from_le_bytes(b.subrange(12, 16)),
            z: spec_u32_from_le_bytes(b.subrange(16, 20)),
        },
        rotation: QuatBits {
            x: spec_u32_from_le_bytes(b.subrange(20, 24)),
            y: spec_u32_from_le_bytes(b.subrange(24, 28)),
            z: spec_u32_from_le_bytes(b.subrange(28, 32)),
            w: spec_u32_from_le_bytes(b.subrange(32, 36)),
        },
    }
}

/// The bytes of a list of entity states, in order.
pub open spec fn spec_encode_nodes(ns: Seq<NodeState>) -> Seq<u8>
    decreases ns.len(),
{
    if ns.len() == 0 {
        Seq::empty()
    } else {
        spec_encode_node(ns[0]) + spec_encode_nodes(ns.drop_first())
    }
}

/// The list of `n` entity states read back from a body, which must hold
/// exactly `36 * n` bytes.
pub open spec fn spec_decode_nodes(b: Seq<u8>, n: nat) -> Option<Seq<NodeState>> {
    if b.len() == n * 36 {
        Some(Seq::new(n, |i: int| spec_decode_node(b.subrange(i * 36, i * 36 + 36))))
    } else {
        None
    }
}

/// The wire form of a server message: tag, 8-byte length or count, body.
pub open spec fn spec_encode_server_msg(m: ServerMessageView) -> Seq<u8> {
    match m {
        ServerMessageView::LoadLevel { path } => seq![TAG_LOAD_LEVEL] + spec_u64_to_le_bytes(
            encode_utf8(path).len() as u64,
        ) + encode_utf8(path),
        ServerMessageView::Sync { entity_states } => seq![TAG_SYNC] + spec_u64_to_le_bytes(
            entity_states.len() as u64,
        ) + spec_encode_nodes(entity_states),
    }
}

/// The server message read back from a payload, or `None` when the payload
/// is malformed: too short, an unknown tag, a length mismatch, or a level
/// path that is not UTF-8.
pub open spec fn spec_decode_server_msg(b: Seq<u8>) -> Option<ServerMessageView> {
    if b.len() < 9 {
        None
    } else {
        let tag = b[0];
        let n = spec_u64_from_le_bytes(b.subrange(1, 9)) as int;
        let body = b.skip(9);
        if tag == TAG_LOAD_LEVEL {
            if body.len() == n && valid_utf8(body) {
                Some(ServerMessageView::LoadLevel { path: decode_utf8(body) })
            } else {
                None
            }
        } else if tag == TAG_SYNC {
            match spec_decode_nodes(body, n as nat) {
                Some(states) => Some(ServerMessageView::Sync { entity_states: states }),
                None => None,
            }
        } else {
            None
        }
    }
}

/// The byte a boolean travels as.
pub open spec fn spec_bool_byte(v: bool) -> u8 {
    if v {
        1
    } else {
        0
    }
}

/// The wire form of a client message: tag and one byte per flag.
pub open spec fn spec_encode_client_msg(m: ClientMessage) -> Seq<u8> {
    match m {
        ClientMessage::PlayerInput { left, right } => seq![
            TAG_PLAYER_INPUT,
            spec_bool_byte(left),
            spec_bool_byte(right),
        ],
    }
}

/// The client message read back from a payload; flag bytes other than 0
/// and 1 are rejected, as are unknown tags and wrong lengths.
pub open spec fn spec_decode_client_msg(b: Seq<u8>) -> Option<ClientMessage> {
    if b.len() == 3 && b[0] == TAG_PLAYER_INPUT && (b[1] == 0 || b[1] == 1) && (b[2] == 0 || b[2]
        == 1) {
        Some(ClientMessage::PlayerInput { left: b[1] == 1, right: b[2] == 1 })
    } else {
        None
    }
}

/// Whether a message's body length fits the 8-byte wire header. Every
/// message actually constructed in a process satisfies this, since a
/// `String` or `Vec` is never longer than `usize::MAX`.
pub open spec fn server_msg_fits_wire(m: ServerMessageView) -> bool {
    match m {
        ServerMessageView::LoadLevel { path } => encode_utf8(path).len() <= u64::MAX,
        ServerMessageView::Sync { entity_states } => entity_states.len() <= u64::MAX,
    }
}

// ---------------------------------------------------------------------
// The round-trip law
// ---------------------------------------------------------------------

/// An encoded entity state is 36 bytes and decodes to the original state.
pub proof fn lemma_node_round_trip(n: NodeState)
    ensures
        spec_encode_node(n).len() == 36,
        spec_decode_node(spec_encode_node(n)) == n,
{
    lemma_auto_spec_u64_to_from_le_bytes();
    lemma_auto_spec_u32_to_from_le_bytes();
    let e = spec_encode_node(n);
    assert(e.subrange(0, 8) =~= spec_u64_to_le_bytes(n.id));
    assert(e.subrange(8, 12) =~= spec_u32_to_le_bytes(n.position.x));
    assert(e.subrange(12, 16) =~= spec_u32_to_le_bytes(n.position.y));
    assert(e.subrange(16, 20) =~= spec_u32_to_le_bytes(n.position.z));
    assert(e.subrange(20, 24) =~= spec_u32_to_le_bytes(n.rotation.x));
    assert(e.subrange(24, 28) =~= spec_u32_to_le_bytes(n.rotation.y));
    assert(e.subrange(28, 32) =~= spec_u32_to_le_bytes(n.rotation.z));
    assert(e.subrange(32, 36) =~= spec_u32_to_le_bytes(n.rotation.w));
}

/// Appending one state to a list appends its 36 bytes to the encoding.
pub proof fn lemma_encode_nodes_push(ns: Seq<NodeState>, n: NodeState)
    ensures
        spec_encode_nodes(ns.push(n)) == spec_encode_nodes(ns) + spec_encode_node(n),
    decreases ns.len(),
{
    if ns.len() == 0 {
        assert(ns.push(n)[0] == n);
        assert(ns.push(n).drop_first() =~= ns);
        assert(spec_encode_nodes(ns.push(n)) =~= spec_encode_nodes(ns) + spec_encode_node(n));
    } else {
        assert(ns.push(n).drop_first() =~= ns.drop_first().push(n));
        lemma_encode_nodes_push(ns.drop_first(), n);
        assert(spec_encode_nodes(ns.push(n)) =~= spec_encode_nodes(ns) + spec_encode_node(n));
    }
}

/// The encoding of a list of states is 36 bytes per state.
pub proof fn lemma_encode_nodes_len(ns: Seq<NodeState>)
    ensures
        spec_encode_nodes(ns).len() == 36 * ns.len(),
    decreases ns.len(),
{
    if ns.len() == 0 {
    } else {
        lemma_node_round_trip(ns[0]);
        lemma_encode_nodes_len(ns.drop_first());
    }
}

/// The `i`-th 36-byte slice of an encoded list is the `i`-th state's
/// encoding.
pub proof fn lemma_encode_nodes_index(ns: Seq<NodeState>, i: int)
    requires
        0 <= i < ns.len(),
    ensures
        spec_encode_nodes(ns).subrange(i * 36, i * 36 + 36) == spec_encode_node(ns[i]),
    decreases i,
{
    lemma_encode_nodes_len(ns);
    lemma_node_round_trip(ns[0]);
    lemma_encode_nodes_len(ns.drop_first());
    if i == 0 {
        assert(spec_encode_nodes(ns).subrange(0, 36) =~= spec_encode_node(ns[0]));
    } else {
        lemma_encode_nodes_index(ns.drop_first(), i - 1);
        assert(spec_encode_nodes(ns).subrange(i * 36, i * 36 + 36) =~= spec_encode_nodes(
            ns.drop_first(),
        ).subrange((i - 1) * 36, (i - 1) * 36 + 36));
        assert(ns.drop_first()[i - 1] == ns[i]);
    }
}

/// An encoded list of states decodes back to the original list.
pub proof fn lemma_nodes_round_trip(ns: Seq<NodeState>)
    ensures
        spec_decode_nodes(spec_encode_nodes(ns), ns.len()) == Some(ns),
{
    lemma_encode_nodes_len(ns);
    let e = spec_encode_nodes(ns);
    let decoded = Seq::new(ns.len(), |i: int| spec_decode_node(e.subrange(i * 36, i * 36 + 36)));
    assert forall|i: int| 0 <= i < ns.len() implies decoded[i] == ns[i] by {
        lemma_encode_nodes_index(ns, i);
        lemma_node_round_trip(ns[i]);
    }
    assert(decoded =~= ns);
}

/// The round-trip law for server messages: decoding an encoding yields the
/// original message, for every message whose body length fits the wire
/// header (as every constructible message does).
pub proof fn lemma_server_msg_round_trip(m: ServerMessageView)
    requires
        server_msg_fits_wire(m),
    ensures
        spec_decode_server_msg(spec_encode_server_msg(m)) == Some(m),
{
    lemma_auto_spec_u64_to_from_le_bytes();
    let e = spec_encode_server_msg(m);
    match m {
        ServerMessageView::LoadLevel { path } => {
            let body = encode_utf8(path);
            let lenb = spec_u64_to_le_bytes(body.len() as u64);
            assert(e.subrange(1, 9) =~= lenb);
            assert(e.skip(9) =~= body);
            encode_utf8_valid_utf8(path);
            encode_utf8_decode_utf8(path);
        },
        ServerMessageView::Sync { entity_states } => {
            lemma_encode_nodes_len(entity_states);
            let body = spec_encode_nodes(entity_states);
            let lenb = spec_u64_to_le_bytes(entity_states.len() as u64);
            assert(e.subrange(1, 9) =~= lenb);
            assert(e.skip(9) =~= body);
            lemma_nodes_round_trip(entity_states);
        },
    }
}

/// The round-trip law for client messages.
pub proof fn lemma_client_msg_round_trip(m: ClientMessage)
    ensures
        spec_decode_client_msg(spec_encode_client_msg(m)) == Some(m),
{
}

// ---------------------------------------------------------------------
// Executable encoding
// ---------------------------------------------------------------------

/// Append the little-endian bytes of a `u64`.
fn push_u64_le(out: &mut Vec<u8>, x: u64)
    ensures
        final(out)@ == old(out)@ + spec_u64_to_le_bytes(x),
{
    let mut b = u64_to_le_bytes(x);
    out.append(&mut b);
}

/// Append the little-endian bytes of a `u32`.
fn push_u32_le(out: &mut Vec<u8>, x: u32)
    ensures
        final(out)@ == old(out)@ + spec_u32_to_le_bytes(x),
{
    let mut b = u32_to_le_bytes(x);
    out.append(&mut b);
}

/// Append the 36-byte encoding of one entity state.
fn push_node_state(out: &mut Vec<u8>, n: &NodeState)
    ensures
        final(out)@ == old(out)@ + spec_encode_node(*n),
{
    push_u64_le(out, n.id);
    push_u32_le(out, n.position.x);
    push_u32_le(out, n.position.y);
    push_u32_le(out, n.position.z);
    push_u32_le(out, n.rotation.x);
    push_u32_le(out, n.rotation.y);
    push_u32_le(out, n.rotation.z);
    push_u32_le(out, n.rotation.w);
    assert(out@ =~= old(out)@ + spec_encode_node(*n));
}

/// Encode a server message to its wire payload.
pub fn encode_server_message(m: &ServerMessage) -> (r: Vec<u8>)
    ensures
        r@ == spec_encode_server_msg(m@),
{
    match m {
        ServerMessage::LoadLevel { path } => {
            let mut out: Vec<u8> = Vec::new();
            out.push(TAG_LOAD_LEVEL);
            let mut body = path.as_str().as_bytes_vec();
            push_u64_le(&mut out, body.len() as u64);
            out.append(&mut body);
            proof {
                assert(out@ =~= spec_encode_server_msg(m@));
            }
            out
        },
        ServerMessage::Sync { entity_states } => {
            let mut out: Vec<u8> = Vec::new();
            out.push(TAG_SYNC);
            push_u64_le(&mut out, entity_states.len() as u64);
            let ghost header = out@;
            let n = entity_states.len();
            let mut i: usize = 0;
            while i < n
                invariant
                    n == entity_states@.len(),
                    i <= n,
                    out@ == header + spec_encode_nodes(entity_states@.take(i as int)),
                decreases n - i,
            {
                let st = entity_states[i];
                push_node_state(&mut out, &st);
                proof {
                    lemma_encode_nodes_push(entity_states@.take(i as int), st);
                    assert(entity_states@.take(i + 1) =~= entity_states@.take(i as int).push(st));
                    assert(out@ =~= header + spec_encode_nodes(entity_states@.take(i + 1)));
                }
                i = i + 1;
            }
            proof {
                assert(entity_states@.take(n as int) =~= entity_states@);
                assert(out@ =~= spec_encode_server_msg(m@));
            }
            out
        },
    }
}

/// Encode a client message to its wire payload.
pub fn encode_client_message(m: &ClientMessage) -> (r: Vec<u8>)
    ensures
        r@ == spec_encode_client_msg(*m),
{
    match m {
        ClientMessage::PlayerInput { left, right } => {
            let mut out: Vec<u8> = Vec::new();
            out.push(TAG_PLAYER_INPUT);
            out.push(if *left {
                1
            } else {
                0
            });
            out.push(if *right {
                1
            } else {
                0
            });
            proof {
                assert(out@ =~= spec_encode_client_msg(*m));
            }
            out
        },
    }
}

// ---------------------------------------------------------------------
// Executable decoding
// ---------------------------------------------------------------------

/// Relies on `String::from_utf8`: it succeeds exactly when the bytes are
/// valid UTF-8, and then returns the string those bytes encode.
#[verifier::external_body]
fn string_from_utf8(bytes: Vec<u8>) -> (r: Option<String>)
    ensures
        match r {
            Some(s) => valid_utf8(bytes@) && s@ == decode_utf8(bytes@),
            None => !valid_utf8(bytes@),
        },
{
    String::from_utf8(bytes).ok()
}

/// Decode one entity state from exactly 36 bytes.
fn decode_node_state(b: &[u8]) -> (r: NodeState)
    requires
        b@.len() == 36,
    ensures
        r == spec_decode_node(b@),
{
    NodeState {
        id: u64_from_le_bytes(slice_subrange(b, 0, 8)),
        position: Vec3Bits {
            x: u32_from_le_bytes(slice_subrange(b, 8, 12)),
            y: u32_from_le_bytes(slice_subrange(b, 12, 16)),
            z: u32_from_le_bytes(slice_subrange(b, 16, 20)),
        },
        rotation: QuatBits {
            x: u32_from_le_bytes(slice_subrange(b, 20, 24)),
            y: u32_from_le_bytes(slice_subrange(b, 24, 28)),
            z: u32_from_le_bytes(slice_subrange(b, 28, 32)),
            w: u32_from_le_bytes(slice_subrange(b, 32, 36)),
        },
    }
}

/// Decode a server message from a complete wire payload. Succeeds exactly
/// on the payloads the specification decodes; every malformed payload is
/// a `DecodeError`.
pub fn decode_server_message(b: &[u8]) -> (r: Result<ServerMessage, DecodeError>)
    ensures
        match r {
            Ok(m) => spec_decode_server_msg(b@) == Some(m@),
            Err(_) => spec_decode_server_msg(b@) is None,
        },
{
    if b.len() < 9 {
        return Err(DecodeError);
    }
    let tag = b[0];
    let n = u64_from_le_bytes(slice_subrange(b, 1, 9));
    let body = slice_subrange(b, 9, b.len());
    assert(body@ =~= b@.skip(9));
    if tag == TAG_LOAD_LEVEL {
        if body.len() as u64 != n {
            return Err(DecodeError);
        }
        let bytes = slice_to_vec(body);
        match string_from_utf8(bytes) {
            Some(path) => Ok(ServerMessage::LoadLevel { path }),
            None => Err(DecodeError),
        }
    } else if tag == TAG_SYNC {
        if n > u64::MAX / 36 {
            return Err(DecodeError);
        }
        if body.len() as u64 != n * 36 {
            return Err(DecodeError);
        }
        let count = n as usize;
        let mut states: Vec<NodeState> = Vec::with_capacity(count);
        let mut i: usize = 0;
        while i < count
            invariant
                body@.len() == count * 36,
                count * 36 <= usize::MAX,
                i <= count,
                states@ == Seq::new(
                    i as nat,
                    |j: int| spec_decode_node(body@.subrange(j * 36, j * 36 + 36)),
                ),
            decreases count - i,
        {
            assert(i * 36 + 36 <= count * 36);
            let st = decode_node_state(slice_subrange(body, i * 36, i * 36 + 36));
            states.push(st);
            proof {
                assert(states@ =~= Seq::new(
                    (i + 1) as nat,
                    |j: int| spec_decode_node(body@.subrange(j * 36, j * 36 + 36)),
                ));
            }
            i = i + 1;
        }
        proof {
            assert(body@.len() == (n as nat) * 36);
            assert(states@ =~= Seq::new(
                n as nat,
                |j: int| spec_decode_node(body@.subrange(j * 36, j * 36 + 36)),
            ));
            assert(spec_decode_nodes(body@, n as nat) == Some(states@));
        }
        Ok(ServerMessage::Sync { entity_states: states })
    } else {
        Err(DecodeError)
    }
}

/// Decode a client message from a complete wire payload. Succeeds exactly
/// on the payloads the specification decodes.
pub fn decode_client_message(b: &[u8]) -> (r: Result<ClientMessage, DecodeError>)
    ensures
        match r {
            Ok(m) => spec_decode_client_msg(b@) == Some(m),
            Err(_) => spec_decode_client_msg(b@) is None,
        },
{
    if b.len() != 3 {
        return Err(DecodeError);
    }
    if b[0] != TAG_PLAYER_INPUT {
        return Err(DecodeError);
    }
    let lb = b[1];
    let rb = b[2];
    if lb > 1 || rb > 1 {
        return Err(DecodeError);
    }
    Ok(ClientMessage::PlayerInput { left: lb == 1, right: rb == 1 })
}

} // verus!
