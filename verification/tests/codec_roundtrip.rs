//! Wire-format tests: round trips for every message family, and rejection
//! of every kind of malformed payload.

use netsync::codec::{
    decode_client_message, decode_server_message, encode_client_message, encode_server_message,
};
use netsync::msg::{ClientMessage, NodeState, QuatBits, ServerMessage, Vec3Bits};

fn node(id: u64, px: f32, py: f32, pz: f32) -> NodeState {
    NodeState {
        id,
        position: Vec3Bits { x: px.to_bits(), y: py.to_bits(), z: pz.to_bits() },
        rotation: QuatBits {
            x: 0.0f32.to_bits(),
            y: 0.0f32.to_bits(),
            z: 0.0f32.to_bits(),
            w: 1.0f32.to_bits(),
        },
    }
}

#[test]
fn round_trip_load_level() {
    let m = ServerMessage::LoadLevel { path: String::from("data/scenes/scene.rgs") };
    let bytes = encode_server_message(&m);
    let back = decode_server_message(&bytes).expect("decode failed");
    assert_eq!(back, m);
}

#[test]
fn round_trip_load_level_empty_path() {
    let m = ServerMessage::LoadLevel { path: String::new() };
    let bytes = encode_server_message(&m);
    assert_eq!(decode_server_message(&bytes).expect("decode failed"), m);
}

#[test]
fn round_trip_load_level_unicode_path() {
    let m = ServerMessage::LoadLevel { path: String::from("data/sc\u{e8}nes/\u{1F3AE}.rgs") };
    let bytes = encode_server_message(&m);
    assert_eq!(decode_server_message(&bytes).expect("decode failed"), m);
}

#[test]
fn round_trip_sync_empty() {
    let m = ServerMessage::Sync { entity_states: vec![] };
    let bytes = encode_server_message(&m);
    assert_eq!(decode_server_message(&bytes).expect("decode failed"), m);
}

#[test]
fn round_trip_sync_multiple_entities() {
    let m = ServerMessage::Sync {
        entity_states: vec![
            node(1, 0.0, 1.0, 2.0),
            node(u64::MAX, -3.25, 1e30, f32::NAN),
            node(42, f32::MIN, f32::MAX, -0.0),
        ],
    };
    let bytes = encode_server_message(&m);
    assert_eq!(decode_server_message(&bytes).expect("decode failed"), m);
}

#[test]
fn round_trip_player_input_all_flag_combinations() {
    for &(left, right) in &[(false, false), (false, true), (true, false), (true, true)] {
        let m = ClientMessage::PlayerInput { left, right };
        let bytes = encode_client_message(&m);
        assert_eq!(decode_client_message(&bytes).expect("decode failed"), m);
    }
}

#[test]
fn sync_encoding_is_exact() {
    // tag 1, count 2 little-endian over 8 bytes, then 36 bytes per state.
    let m = ServerMessage::Sync { entity_states: vec![node(7, 1.0, 2.0, 3.0), node(8, 0.0, 0.0, 0.0)] };
    let bytes = encode_server_message(&m);
    assert_eq!(bytes.len(), 1 + 8 + 2 * 36);
    assert_eq!(bytes[0], 1);
    assert_eq!(&bytes[1..9], &[2, 0, 0, 0, 0, 0, 0, 0]);
    assert_eq!(&bytes[9..17], &[7, 0, 0, 0, 0, 0, 0, 0]);
    assert_eq!(&bytes[17..21], &1.0f32.to_bits().to_le_bytes());
}

#[test]
fn load_level_encoding_is_exact() {
    let m = ServerMessage::LoadLevel { path: String::from("ab") };
    let bytes = encode_server_message(&m);
    assert_eq!(bytes, vec![0, 2, 0, 0, 0, 0, 0, 0, 0, b'a', b'b']);
}

#[test]
fn decode_rejects_unknown_tag() {
    let mut bytes = encode_client_message(&ClientMessage::PlayerInput { left: true, right: false });
    bytes[0] = 9;
    assert!(decode_client_message(&bytes).is_err());

    let mut sbytes =
        encode_server_message(&ServerMessage::LoadLevel { path: String::from("x") });
    sbytes[0] = 250;
    assert!(decode_server_message(&sbytes).is_err());
}

#[test]
fn decode_rejects_truncated_payload() {
    assert!(decode_server_message(&[]).is_err());
    assert!(decode_server_message(&[1, 0, 0]).is_err());
    assert!(decode_client_message(&[0, 1]).is_err());
}

#[test]
fn decode_rejects_length_mismatch() {
    let mut bytes = encode_server_message(&ServerMessage::LoadLevel { path: String::from("abc") });
    // Claim four path bytes where three follow.
    bytes[1] = 4;
    assert!(decode_server_message(&bytes).is_err());

    let mut sync = encode_server_message(&ServerMessage::Sync {
        entity_states: vec![node(1, 0.0, 0.0, 0.0)],
    });
    sync.pop();
    assert!(decode_server_message(&sync).is_err());
}

#[test]
fn decode_rejects_trailing_bytes() {
    let mut bytes = encode_client_message(&ClientMessage::PlayerInput { left: true, right: true });
    bytes.push(0);
    assert!(decode_client_message(&bytes).is_err());
}

#[test]
fn decode_rejects_bad_flag_byte() {
    let mut bytes = encode_client_message(&ClientMessage::PlayerInput { left: true, right: false });
    bytes[1] = 2;
    assert!(decode_client_message(&bytes).is_err());
}

#[test]
fn decode_rejects_invalid_utf8_path() {
    let mut bytes = vec![0u8];
    bytes.extend_from_slice(&2u64.to_le_bytes());
    bytes.push(0xC0);
    bytes.push(0x20);
    assert!(decode_server_message(&bytes).is_err());
}
