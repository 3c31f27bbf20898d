//! End-to-end protocol tests: framing under arbitrary chunking, server
//! bookkeeping, fault isolation, broadcast fan-out, full sync, and
//! delta-compressed sync.

use netsync::client::Client;
use netsync::codec::encode_client_message;
use netsync::connection::Connection;
use netsync::framing::frame_payload;
use netsync::msg::{ClientMessage, NodeState, QuatBits, ServerMessage, Vec3Bits};
use netsync::server::Server;

fn node(id: u64, px: f32, py: f32, pz: f32) -> NodeState {
    NodeState {
        id,
        position: Vec3Bits { x: px.to_bits(), y: py.to_bits(), z: pz.to_bits() },
        rotation: QuatBits {
            x: 0.0f32.to_bits(),
            y: 0.0f32.to_bits(),
            z: 0.0f32.to_bits(),
            w: 1.0f32.to_bits(),
        },
    }
}

fn framed_client_message(m: &ClientMessage) -> Vec<u8> {
    frame_payload(encode_client_message(m))
}

fn server_with_connections(k: usize) -> Server {
    let mut server = Server::new();
    let mut incoming = Vec::new();
    for _ in 0..k {
        incoming.push(Connection::new());
    }
    server.accept_connections(incoming);
    server
}

/// Feed a server's outgoing bytes for one connection into a client and
/// return the server messages the client decodes from them.
fn deliver_to_client(server: &mut Server, index: usize) -> Vec<ServerMessage> {
    let bytes = server.take_connection_outgoing(index);
    let mut client = Client::connect(Connection::new());
    client.feed(&bytes);
    client.read_messages()
}

#[test]
fn byte_by_byte_equals_all_at_once() {
    let mut stream = Vec::new();
    stream.extend_from_slice(&framed_client_message(&ClientMessage::PlayerInput {
        left: true,
        right: false,
    }));
    stream.extend_from_slice(&framed_client_message(&ClientMessage::PlayerInput {
        left: false,
        right: true,
    }));

    let mut whole = Connection::new();
    whole.feed(&stream);
    let expected = whole.poll_client_messages();

    let mut trickled = Connection::new();
    let mut got = Vec::new();
    for b in &stream {
        trickled.feed(&[*b]);
        got.extend(trickled.poll_client_messages());
    }
    assert_eq!(got, expected);
    assert_eq!(got.len(), 2);
}

#[test]
fn partial_frame_stays_buffered() {
    let framed = framed_client_message(&ClientMessage::PlayerInput { left: true, right: true });
    let mut conn = Connection::new();
    conn.feed(&framed[..framed.len() - 1]);
    assert_eq!(conn.poll_client_messages().len(), 0);
    assert!(conn.is_alive());
    conn.feed(&framed[framed.len() - 1..]);
    let msgs = conn.poll_client_messages();
    assert_eq!(msgs, vec![ClientMessage::PlayerInput { left: true, right: true }]);
    assert!(conn.is_alive());
}

#[test]
fn messages_arrive_in_order_and_once() {
    let mut conn = Connection::new();
    let inputs = [
        ClientMessage::PlayerInput { left: true, right: true },
        ClientMessage::PlayerInput { left: false, right: false },
        ClientMessage::PlayerInput { left: true, right: false },
    ];
    for m in &inputs {
        conn.feed(&framed_client_message(m));
    }
    assert_eq!(conn.poll_client_messages(), inputs.to_vec());
    assert_eq!(conn.poll_client_messages().len(), 0);
}

#[test]
fn client_send_reaches_server() {
    let mut server = server_with_connections(1);
    let mut client = Client::connect(Connection::new());
    client.send_message_to_server(&ClientMessage::PlayerInput { left: true, right: false });
    let wire = client.take_outgoing();
    server.feed_connection(0, &wire);
    let msgs = server.read_messages();
    assert_eq!(msgs, vec![ClientMessage::PlayerInput { left: true, right: false }]);
}

#[test]
fn bad_frame_on_one_connection_does_not_block_another() {
    let mut server = server_with_connections(2);
    // Connection 0 receives a complete but malformed frame, then a valid one
    // that must not be delivered (the stream is no longer trusted).
    server.feed_connection(0, &frame_payload(vec![7, 7, 7]));
    server.feed_connection(
        0,
        &framed_client_message(&ClientMessage::PlayerInput { left: true, right: true }),
    );
    // Connection 1 is healthy.
    server.feed_connection(
        1,
        &framed_client_message(&ClientMessage::PlayerInput { left: false, right: true }),
    );
    let msgs = server.read_messages();
    assert_eq!(msgs, vec![ClientMessage::PlayerInput { left: false, right: true }]);
    assert!(!server.connection_is_alive(0));
    assert!(server.connection_is_alive(1));
}

#[test]
fn closed_connection_is_skipped_on_read() {
    let mut server = server_with_connections(2);
    server.feed_connection(
        0,
        &framed_client_message(&ClientMessage::PlayerInput { left: true, right: false }),
    );
    server.mark_connection_closed(0);
    server.feed_connection(
        1,
        &framed_client_message(&ClientMessage::PlayerInput { left: false, right: false }),
    );
    let msgs = server.read_messages();
    assert_eq!(msgs, vec![ClientMessage::PlayerInput { left: false, right: false }]);
}

#[test]
fn broadcast_reaches_every_live_connection_once() {
    let mut server = server_with_connections(3);
    server.mark_connection_closed(1);
    let m = ServerMessage::LoadLevel { path: String::from("data/scenes/scene.rgs") };
    server.send_message_to_clients(&m);

    let got0 = deliver_to_client(&mut server, 0);
    assert_eq!(got0.len(), 1);
    assert_eq!(got0[0], ServerMessage::LoadLevel { path: String::from("data/scenes/scene.rgs") });

    // The dead connection got no send attempt...
    assert_eq!(server.take_connection_outgoing(1).len(), 0);

    // ...and the failure in the middle did not suppress the next attempt.
    let got2 = deliver_to_client(&mut server, 2);
    assert_eq!(got2.len(), 1);
}

#[test]
fn remove_closed_connections_keeps_live_ones() {
    let mut server = server_with_connections(3);
    server.mark_connection_closed(1);
    server.remove_closed_connections();
    assert_eq!(server.connection_count(), 2);
    assert!(server.connection_is_alive(0));
    assert!(server.connection_is_alive(1));
}

#[test]
fn full_sync_sends_one_message_with_every_entity() {
    let mut server = server_with_connections(2);
    let entities = vec![node(1, 1.0, 0.0, 0.0), node(2, 0.0, 2.0, 0.0), node(3, 0.0, 0.0, 3.0)];
    server.sync(&entities);
    for index in 0..2 {
        let got = deliver_to_client(&mut server, index);
        assert_eq!(got.len(), 1);
        assert_eq!(got[0], ServerMessage::Sync { entity_states: entities.clone() });
    }
}

#[test]
fn delta_sync_first_call_is_silent_baseline() {
    let mut server = server_with_connections(1);
    let entities = vec![node(1, 1.0, 0.0, 0.0), node(2, 0.0, 2.0, 0.0), node(3, 0.0, 0.0, 3.0)];
    server.sync_with_delta_compression(&entities);
    let got = deliver_to_client(&mut server, 0);
    assert_eq!(got, vec![ServerMessage::Sync { entity_states: vec![] }]);
    for e in &entities {
        assert_eq!(server.cached_node_state(e.id), Some(*e));
    }
    assert_eq!(server.cached_node_state(99), None);
}

#[test]
fn delta_sync_emits_exactly_the_moved_entity() {
    let mut server = server_with_connections(1);
    let entities = vec![node(1, 1.0, 0.0, 0.0), node(2, 0.0, 2.0, 0.0), node(3, 0.0, 0.0, 3.0)];
    server.sync_with_delta_compression(&entities);
    let _ = deliver_to_client(&mut server, 0);

    let mut moved = entities.clone();
    moved[1] = node(2, 0.5, 2.0, 0.0);
    server.sync_with_delta_compression(&moved);
    let got = deliver_to_client(&mut server, 0);
    assert_eq!(got, vec![ServerMessage::Sync { entity_states: vec![moved[1]] }]);
    assert_eq!(server.cached_node_state(2), Some(moved[1]));
    assert_eq!(server.cached_node_state(1), Some(entities[0]));
}

#[test]
fn delta_sync_unchanged_snapshot_emits_empty_sync() {
    let mut server = server_with_connections(1);
    let entities = vec![node(1, 1.0, 0.0, 0.0), node(2, 0.0, 2.0, 0.0)];
    server.sync_with_delta_compression(&entities);
    let _ = deliver_to_client(&mut server, 0);
    server.sync_with_delta_compression(&entities);
    let got = deliver_to_client(&mut server, 0);
    assert_eq!(got, vec![ServerMessage::Sync { entity_states: vec![] }]);
}

#[test]
fn malformed_server_frame_disconnects_client() {
    let mut client = Client::connect(Connection::new());
    client.feed(&frame_payload(vec![42]));
    assert_eq!(client.read_messages().len(), 0);
    assert!(!client.is_connected());
    // Nothing more is ever delivered.
    let m = ServerMessage::LoadLevel { path: String::from("x") };
    client.feed(&frame_payload(netsync::codec::encode_server_message(&m)));
    assert_eq!(client.read_messages().len(), 0);
}

#[test]
fn late_joiner_gets_full_snapshot_then_deltas() {
    let mut server = server_with_connections(1);
    let entities = vec![node(1, 1.0, 0.0, 0.0), node(2, 0.0, 2.0, 0.0)];
    server.sync_with_delta_compression(&entities);
    let _ = deliver_to_client(&mut server, 0);

    // A new connection joins after the baseline; the shared cache would
    // never replay unchanged entities to it, so it gets one full snapshot.
    server.accept_connections(vec![Connection::new()]);
    server.sync_connection(1, &entities);
    let got = deliver_to_client(&mut server, 1);
    assert_eq!(got, vec![ServerMessage::Sync { entity_states: entities.clone() }]);
    // The first connection saw nothing from that targeted snapshot.
    assert_eq!(server.take_connection_outgoing(0).len(), 0);

    // From now on both connections ride the same delta stream.
    let mut moved = entities.clone();
    moved[0] = node(1, 9.0, 0.0, 0.0);
    server.sync_with_delta_compression(&moved);
    for index in 0..2 {
        let got = deliver_to_client(&mut server, index);
        assert_eq!(got, vec![ServerMessage::Sync { entity_states: vec![moved[0]] }]);
    }
}
