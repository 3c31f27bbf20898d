//! The server: one growable set of live connections plus the
//! synchronization engine and its per-entity snapshot cache.
//!
//! The host's listener accepts streams and hands them in as fresh
//! connections; the host also feeds each connection the bytes its stream
//! produced and writes back the bytes each connection queued. Everything
//! else — reading client messages with per-connection fault isolation,
//! broadcasting, full sync, and delta-compressed sync — is verified here.

use std::collections::HashMap;

use vstd::prelude::*;

use crate::codec::spec_encode_server_msg;
use crate::connection::{
    spec_all_client_frames_ok, spec_decoded_client_msgs, Connection, ConnectionView,
};
use crate::framing::{spec_frame, spec_frames, spec_frames_rest};
use crate::msg::{ClientMessage, NodeState, ServerMessage, ServerMessageView};

verus! {

broadcast use vstd::std_specs::hash::group_hash_axioms;

/// A server: its live connections, in acceptance order, and the snapshot
/// cache used by delta-compressed sync — for each entity identifier, the
/// state most recently sent to clients.
pub struct Server {
    connections: Vec<Connection>,
    prev_node_states: HashMap<u64, NodeState>,
}

/// The model of a server.
#[verifier::ext_equal]
pub struct ServerView {
    pub connections: Seq<ConnectionView>,
    pub prev_node_states: Map<u64, NodeState>,
}

impl View for Server {
    type V = ServerView;

    closed spec fn view(&self) -> ServerView {
        ServerView {
            connections: self.connections.deep_view(),
            prev_node_states: self.prev_node_states@,
        }
    }
}

// ---------------------------------------------------------------------
// Reading: per-connection decoding with fault isolation
// ---------------------------------------------------------------------

/// The messages one connection contributes to a read pass: everything its
/// buffered complete frames decode to, in arrival order — or nothing, if
/// the connection is no longer live.
pub open spec fn spec_conn_incoming(c: ConnectionView) -> Seq<ClientMessage> {
    if c.alive {
        spec_decoded_client_msgs(spec_frames(c.recv))
    } else {
        Seq::empty()
    }
}

/// A connection's state after a read pass: complete frames consumed, the
/// partial tail kept, and the connection dropped if a frame was malformed.
pub open spec fn spec_conn_after_read(c: ConnectionView) -> ConnectionView {
    if c.alive {
        ConnectionView {
            recv: spec_frames_rest(c.recv),
            send: c.send,
            alive: spec_all_client_frames_ok(spec_frames(c.recv)),
        }
    } else {
        c
    }
}

/// All messages of a read pass: each connection's contribution, connection
/// by connection in acceptance order.
pub open spec fn spec_read_all(conns: Seq<ConnectionView>) -> Seq<ClientMessage>
    decreases conns.len(),
{
    if conns.len() == 0 {
        Seq::empty()
    } else {
        spec_conn_incoming(conns[0]) + spec_read_all(conns.drop_first())
    }
}

/// Reading one more connection appends exactly its own contribution.
proof fn lemma_read_all_push(conns: Seq<ConnectionView>, c: ConnectionView)
    ensures
        spec_read_all(conns.push(c)) == spec_read_all(conns) + spec_conn_incoming(c),
    decreases conns.len(),
{
    if conns.len() == 0 {
        assert(conns.push(c)[0] == c);
        assert(conns.push(c).drop_first() =~= conns);
        assert(spec_read_all(conns.push(c)) =~= spec_read_all(conns) + spec_conn_incoming(c));
    } else {
        assert(conns.push(c).drop_first() =~= conns.drop_first().push(c));
        lemma_read_all_push(conns.drop_first(), c);
        assert(spec_read_all(conns.push(c)) =~= spec_read_all(conns) + spec_conn_incoming(c));
    }
}

/// Fault isolation of a read pass: whatever every other connection holds —
/// garbage, partial frames, nothing — connection `j`'s own decoded
/// messages appear in the result, in full and in place.
pub proof fn lemma_read_messages_isolation(conns: Seq<ConnectionView>, j: int)
    requires
        0 <= j < conns.len(),
    ensures
        spec_read_all(conns) == spec_read_all(conns.take(j)) + spec_conn_incoming(conns[j])
            + spec_read_all(conns.skip(j + 1)),
    decreases j,
{
    if j == 0 {
        assert(conns.take(0) =~= Seq::<ConnectionView>::empty());
        assert(conns.skip(1) =~= conns.drop_first());
        assert(spec_read_all(conns) =~= spec_read_all(conns.take(0)) + spec_conn_incoming(conns[0])
            + spec_read_all(conns.skip(1)));
    } else {
        let rest = conns.drop_first();
        lemma_read_messages_isolation(rest, j - 1);
        assert(conns.take(j)[0] == conns[0]);
        assert(conns.take(j).drop_first() =~= rest.take(j - 1));
        assert(rest[j - 1] == conns[j]);
        assert(rest.skip(j) =~= conns.skip(j + 1));
        assert(spec_read_all(conns) =~= spec_read_all(conns.take(j)) + spec_conn_incoming(conns[j])
            + spec_read_all(conns.skip(j + 1)));
    }
}

// ---------------------------------------------------------------------
// Broadcasting
// ---------------------------------------------------------------------

/// A connection's state after one send attempt of a framed payload: a live
/// connection queues the frame, a dead one is left alone.
pub open spec fn spec_conn_after_send(c: ConnectionView, framed: Seq<u8>) -> ConnectionView {
    if c.alive {
        ConnectionView { recv: c.recv, send: c.send + framed, alive: true }
    } else {
        c
    }
}

// ---------------------------------------------------------------------
// Delta compression
// ---------------------------------------------------------------------

/// The entity states a delta-compressed sync emits: walking the snapshot
/// in store order, exactly those entities that were observed before and
/// whose state differs from the cached baseline. A first-seen entity only
/// establishes its baseline and is not emitted.
pub open spec fn spec_delta_list(cache: Map<u64, NodeState>, es: Seq<NodeState>) -> Seq<NodeState>
    decreases es.len(),
{
    if es.len() == 0 {
        Seq::empty()
    } else {
        let e = es[0];
        let rest = spec_delta_list(cache.insert(e.id, e), es.drop_first());
        if cache.contains_key(e.id) && cache[e.id] != e {
            seq![e] + rest
        } else {
            rest
        }
    }
}

/// The snapshot cache after a delta-compressed sync: every entity of the
/// snapshot now maps to the state that was just observed (and, for changed
/// or first-seen entities, sent or established as baseline).
pub open spec fn spec_delta_cache(cache: Map<u64, NodeState>, es: Seq<NodeState>) -> Map<
    u64,
    NodeState,
>
    decreases es.len(),
{
    if es.len() == 0 {
        cache
    } else {
        spec_delta_cache(cache.insert(es[0].id, es[0]), es.drop_first())
    }
}

/// Observing one more entity extends the emitted list by that entity
/// exactly when its cached baseline exists and differs, and updates the
/// cache with its state.
proof fn lemma_delta_push(cache: Map<u64, NodeState>, es: Seq<NodeState>, e: NodeState)
    ensures
        spec_delta_cache(cache, es.push(e)) == spec_delta_cache(cache, es).insert(e.id, e),
        spec_delta_list(cache, es.push(e)) == spec_delta_list(cache, es) + (
        if spec_delta_cache(cache, es).contains_key(e.id) && spec_delta_cache(cache, es)[e.id]
            != e {
            seq![e]
        } else {
            Seq::<NodeState>::empty()
        }),
    decreases es.len(),
{
    if es.len() == 0 {
        assert(es.push(e)[0] == e);
        assert(es.push(e).drop_first() =~= es);
        assert(spec_delta_list(cache.insert(e.id, e), es) == Seq::<NodeState>::empty());
        assert(spec_delta_cache(cache.insert(e.id, e), es) == cache.insert(e.id, e));
        assert(spec_delta_cache(cache, es) == cache);
        assert(spec_delta_list(cache, es.push(e)) =~= spec_delta_list(cache, es) + (
        if cache.contains_key(e.id) && cache[e.id] != e {
            seq![e]
        } else {
            Seq::<NodeState>::empty()
        }));
    } else {
        assert(es.push(e)[0] == es[0]);
        assert(es.push(e).drop_first() =~= es.drop_first().push(e));
        lemma_delta_push(cache.insert(es[0].id, es[0]), es.drop_first(), e);
        assert(spec_delta_list(cache, es.push(e)) =~= spec_delta_list(cache, es) + (
        if spec_delta_cache(cache, es).contains_key(e.id) && spec_delta_cache(cache, es)[e.id]
            != e {
            seq![e]
        } else {
            Seq::<NodeState>::empty()
        }));
    }
}

/// Whether no two entities of a snapshot share an identifier.
pub open spec fn spec_distinct_ids(es: Seq<NodeState>) -> bool {
    forall|i: int, j: int| 0 <= i < j < es.len() ==> es[i].id != es[j].id
}

/// Whether some entity of the snapshot has the given identifier.
pub open spec fn spec_has_id(es: Seq<NodeState>, k: u64) -> bool {
    exists|i: int| 0 <= i < es.len() && es[i].id == k
}

/// An identifier that appears nowhere in the snapshot keeps its cache
/// entry (or its absence) across a delta-compressed sync.
proof fn lemma_delta_cache_untouched(cache: Map<u64, NodeState>, es: Seq<NodeState>, k: u64)
    requires
        !spec_has_id(es, k),
    ensures
        spec_delta_cache(cache, es).contains_key(k) <==> cache.contains_key(k),
        cache.contains_key(k) ==> spec_delta_cache(cache, es)[k] == cache[k],
    decreases es.len(),
{
    if es.len() == 0 {
    } else {
        assert(es[0].id != k);
        assert(!spec_has_id(es.drop_first(), k)) by {
            if spec_has_id(es.drop_first(), k) {
                let i = choose|i: int| 0 <= i < es.drop_first().len() && es.drop_first()[i].id == k;
                assert(es[i + 1].id == k);
            }
        }
        lemma_delta_cache_untouched(cache.insert(es[0].id, es[0]), es.drop_first(), k);
    }
}

/// The baseline law of delta compression: a sync over entities none of
/// which has been observed before emits nothing, and afterwards the cache
/// holds exactly each entity's current state as its baseline.
pub proof fn lemma_delta_baseline(cache: Map<u64, NodeState>, es: Seq<NodeState>)
    requires
        spec_distinct_ids(es),
        forall|i: int| 0 <= i < es.len() ==> !cache.contains_key(#[trigger] es[i].id),
    ensures
        spec_delta_list(cache, es) == Seq::<NodeState>::empty(),
        forall|i: int|
            0 <= i < es.len() ==> spec_delta_cache(cache, es).contains_key(#[trigger] es[i].id)
                && spec_delta_cache(cache, es)[es[i].id] == es[i],
    decreases es.len(),
{
    if es.len() == 0 {
        assert(spec_delta_list(cache, es) =~= Seq::<NodeState>::empty());
    } else {
        let e = es[0];
        let cache2 = cache.insert(e.id, e);
        let rest = es.drop_first();
        assert(forall|i: int| 0 <= i < rest.len() ==> rest[i] == es[i + 1]);
        assert(forall|i: int| 0 <= i < rest.len() ==> !cache2.contains_key(#[trigger] rest[i].id));
        lemma_delta_baseline(cache2, rest);
        assert(!spec_has_id(rest, e.id)) by {
            if spec_has_id(rest, e.id) {
                let i = choose|i: int| 0 <= i < rest.len() && rest[i].id == e.id;
                assert(es[i + 1].id == es[0].id);
            }
        }
        lemma_delta_cache_untouched(cache2, rest, e.id);
        assert forall|i: int| 0 <= i < es.len() implies spec_delta_cache(cache, es).contains_key(
            #[trigger] es[i].id,
        ) && spec_delta_cache(cache, es)[es[i].id] == es[i] by {
            if i > 0 {
                assert(rest[i - 1] == es[i]);
            }
        }
    }
}

/// The stability law of delta compression: a sync over entities whose
/// states all equal their cached baselines emits nothing and leaves the
/// cache as it was.
pub proof fn lemma_delta_unchanged(cache: Map<u64, NodeState>, es: Seq<NodeState>)
    requires
        forall|i: int|
            0 <= i < es.len() ==> cache.contains_key(#[trigger] es[i].id) && cache[es[i].id]
                == es[i],
    ensures
        spec_delta_list(cache, es) == Seq::<NodeState>::empty(),
        spec_delta_cache(cache, es) == cache,
    decreases es.len(),
{
    if es.len() == 0 {
        assert(spec_delta_list(cache, es) =~= Seq::<NodeState>::empty());
    } else {
        let e = es[0];
        assert(cache.insert(e.id, e) =~= cache);
        let rest = es.drop_first();
        assert(forall|i: int| 0 <= i < rest.len() ==> rest[i] == es[i + 1]);
        lemma_delta_unchanged(cache, rest);
        assert(spec_delta_list(cache, es) =~= Seq::<NodeState>::empty());
    }
}

/// The change-detection law of delta compression: when exactly one entity
/// of the snapshot differs from its cached baseline and every other one
/// matches its baseline, the sync emits exactly that entity's new state,
/// and only its cache entry moves.
pub proof fn lemma_delta_one_changed(cache: Map<u64, NodeState>, es: Seq<NodeState>, k: int)
    requires
        spec_distinct_ids(es),
        0 <= k < es.len(),
        cache.contains_key(es[k].id),
        cache[es[k].id] != es[k],
        forall|i: int|
            0 <= i < es.len() && i != k ==> cache.contains_key(#[trigger] es[i].id)
                && cache[es[i].id] == es[i],
    ensures
        spec_delta_list(cache, es) == seq![es[k]],
        spec_delta_cache(cache, es) == cache.insert(es[k].id, es[k]),
    decreases es.len(),
{
    let e = es[0];
    let rest = es.drop_first();
    assert(forall|i: int| 0 <= i < rest.len() ==> rest[i] == es[i + 1]);
    if k == 0 {
        let cache2 = cache.insert(e.id, e);
        assert forall|i: int|
            0 <= i < rest.len() implies cache2.contains_key(#[trigger] rest[i].id)
            && cache2[rest[i].id] == rest[i] by {
            assert(rest[i] == es[i + 1]);
            assert(es[i + 1].id != es[0].id);
        }
        lemma_delta_unchanged(cache2, rest);
        assert(spec_delta_list(cache, es) =~= seq![es[k]]);
    } else {
        assert(cache[e.id] == e);
        assert(cache.insert(e.id, e) =~= cache);
        lemma_delta_one_changed(cache, rest, k - 1);
        assert(rest[k - 1] == es[k]);
        assert(spec_delta_list(cache, es) =~= seq![es[k]]);
    }
}

/// The live connections of a set, in order.
pub open spec fn spec_live_connections(conns: Seq<ConnectionView>) -> Seq<ConnectionView>
    decreases conns.len(),
{
    if conns.len() == 0 {
        Seq::empty()
    } else if conns[0].alive {
        seq![conns[0]] + spec_live_connections(conns.drop_first())
    } else {
        spec_live_connections(conns.drop_first())
    }
}

/// Keeping one more connection extends the live subsequence by it exactly
/// when it is live.
proof fn lemma_live_connections_push(conns: Seq<ConnectionView>, c: ConnectionView)
    ensures
        spec_live_connections(conns.push(c)) == spec_live_connections(conns) + (if c.alive {
            seq![c]
        } else {
            Seq::<ConnectionView>::empty()
        }),
    decreases conns.len(),
{
    if conns.len() == 0 {
        assert(conns.push(c)[0] == c);
        assert(conns.push(c).drop_first() =~= conns);
        assert(spec_live_connections(conns.push(c)) =~= spec_live_connections(conns) + (
        if c.alive {
            seq![c]
        } else {
            Seq::<ConnectionView>::empty()
        }));
    } else {
        assert(conns.push(c)[0] == conns[0]);
        assert(conns.push(c).drop_first() =~= conns.drop_first().push(c));
        lemma_live_connections_push(conns.drop_first(), c);
        assert(spec_live_connections(conns.push(c)) =~= spec_live_connections(conns) + (
        if c.alive {
            seq![c]
        } else {
            Seq::<ConnectionView>::empty()
        }));
    }
}

/// Removing a vector's first element drops the first element of its deep
/// view.
proof fn lemma_vec_remove_front_deep_view<T: DeepView>(v0: Vec<T>, v1: Vec<T>)
    requires
        v0@.len() > 0,
        v1@ == v0@.remove(0),
    ensures
        v1.deep_view() == v0.deep_view().drop_first(),
        v0.deep_view()[0] == v0@[0].deep_view(),
        v0.deep_view().len() == v0@.len(),
{
    assert forall|j: int| 0 <= j < v1@.len() implies v1.deep_view()[j]
        == v0.deep_view().drop_first()[j] by {
        assert(v1@[j] == v0@[j + 1]);
        assert(v1.deep_view()[j] == v1@[j].deep_view());
        assert(v0.deep_view()[j + 1] == v0@[j + 1].deep_view());
    }
    assert(v1.deep_view() =~= v0.deep_view().drop_first());
}

/// Pushing onto a vector pushes onto its deep view.
proof fn lemma_vec_push_deep_view<T: DeepView>(v0: Vec<T>, v1: Vec<T>, x: T)
    requires
        v1@ == v0@.push(x),
    ensures
        v1.deep_view() == v0.deep_view().push(x.deep_view()),
{
    assert forall|j: int| 0 <= j < v1@.len() implies v1.deep_view()[j] == v0.deep_view().push(
        x.deep_view(),
    )[j] by {
        assert(v1.deep_view()[j] == v1@[j].deep_view());
        if j < v0@.len() {
            assert(v1@[j] == v0@[j]);
            assert(v0.deep_view()[j] == v0@[j].deep_view());
        } else {
            assert(v1@[j] == x);
        }
    }
    assert(v1.deep_view() =~= v0.deep_view().push(x.deep_view()));
}

// ---------------------------------------------------------------------
// The server itself
// ---------------------------------------------------------------------

impl Server {
    /// A fresh server: no connections yet, an empty snapshot cache.
    pub fn new() -> (s: Server)
        ensures
            s@.connections == Seq::<ConnectionView>::empty(),
            s@.prev_node_states == Map::<u64, NodeState>::empty(),
    {
        let s = Server { connections: Vec::new(), prev_node_states: HashMap::new() };
        proof {
            assert(s@.connections =~= Seq::<ConnectionView>::empty());
        }
        s
    }

    /// How many connections the server holds, live or not yet swept.
    pub fn connection_count(&self) -> (n: usize)
        ensures
            n == self@.connections.len(),
    {
        self.connections.len()
    }

    /// Whether the connection at `index` is still live.
    pub fn connection_is_alive(&self, index: usize) -> (r: bool)
        requires
            index < self@.connections.len(),
        ensures
            r == self@.connections[index as int].alive,
    {
        self.connections[index].is_alive()
    }

    /// Move newly accepted connections from the host's listener into the
    /// live set, after any existing ones.
    pub fn accept_connections(&mut self, incoming: Vec<Connection>)
        ensures
            final(self)@.connections == old(self)@.connections + incoming.deep_view(),
            final(self)@.prev_node_states == old(self)@.prev_node_states,
    {
        let mut incoming = incoming;
        let ghost inc = incoming.deep_view();
        self.connections.append(&mut incoming);
        proof {
            assert(self.connections.deep_view() =~= old(self)@.connections + inc);
        }
    }

    /// The host reports bytes that arrived on one connection's stream;
    /// they join that connection's inbound buffer.
    pub fn feed_connection(&mut self, index: usize, bytes: &[u8])
        requires
            index < old(self)@.connections.len(),
        ensures
            final(self)@.connections.len() == old(self)@.connections.len(),
            final(self)@.connections[index as int].recv == old(self)@.connections[index as int].recv
                + bytes@,
            final(self)@.connections[index as int].send == old(self)@.connections[index as int].send,
            final(self)@.connections[index as int].alive == old(self)@.connections[index as int].alive,
            forall|j: int|
                0 <= j < old(self)@.connections.len() && j != index ==> final(self)@.connections[j]
                    == old(self)@.connections[j],
            final(self)@.prev_node_states == old(self)@.prev_node_states,
    {
        let mut c = self.connections.remove(index);
        c.feed(bytes);
        self.connections.insert(index, c);
        proof {
            assert(forall|j: int|
                0 <= j < old(self)@.connections.len() ==> #[trigger] self.connections.deep_view()[j]
                    == self.connections@[j].deep_view());
        }
    }

    /// The host reports that one connection's stream closed or failed
    /// (a transport error); that connection leaves the live set.
    pub fn mark_connection_closed(&mut self, index: usize)
        requires
            index < old(self)@.connections.len(),
        ensures
            final(self)@.connections.len() == old(self)@.connections.len(),
            final(self)@.connections[index as int].alive == false,
            final(self)@.connections[index as int].recv == old(self)@.connections[index as int].recv,
            final(self)@.connections[index as int].send == old(self)@.connections[index as int].send,
            forall|j: int|
                0 <= j < old(self)@.connections.len() && j != index ==> final(self)@.connections[j]
                    == old(self)@.connections[j],
            final(self)@.prev_node_states == old(self)@.prev_node_states,
    {
        let mut c = self.connections.remove(index);
        c.mark_closed();
        self.connections.insert(index, c);
    }

    /// Take the bytes one connection has queued, for the host to write to
    /// that connection's stream.
    pub fn take_connection_outgoing(&mut self, index: usize) -> (r: Vec<u8>)
        requires
            index < old(self)@.connections.len(),
        ensures
            r@ == old(self)@.connections[index as int].send,
            final(self)@.connections.len() == old(self)@.connections.len(),
            final(self)@.connections[index as int].send == Seq::<u8>::empty(),
            final(self)@.connections[index as int].recv == old(self)@.connections[index as int].recv,
            final(self)@.connections[index as int].alive == old(self)@.connections[index as int].alive,
            forall|j: int|
                0 <= j < old(self)@.connections.len() && j != index ==> final(self)@.connections[j]
                    == old(self)@.connections[j],
            final(self)@.prev_node_states == old(self)@.prev_node_states,
    {
        let mut c = self.connections.remove(index);
        let out = c.take_outgoing();
        self.connections.insert(index, c);
        out
    }

    /// Drop every connection that is no longer live from the set, keeping
    /// the live ones in order.
    pub fn remove_closed_connections(&mut self)
        ensures
            final(self)@.connections == spec_live_connections(old(self)@.connections),
            final(self)@.prev_node_states == old(self)@.prev_node_states,
    {
        let ghost orig = old(self)@.connections;
        let mut remaining = self.connections.split_off(0);
        proof {
            assert(remaining.deep_view() =~= orig);
            assert(spec_live_connections(orig.take(0)) =~= Seq::<ConnectionView>::empty());
        }
        let mut kept: Vec<Connection> = Vec::new();
        let n = remaining.len();
        let mut i: usize = 0;
        while i < n
            invariant
                i <= n,
                n == orig.len(),
                i + remaining@.len() == n,
                remaining.deep_view() == orig.skip(i as int),
                kept.deep_view() == spec_live_connections(orig.take(i as int)),
                self.prev_node_states@ == old(self)@.prev_node_states,
            decreases n - i,
        {
            let ghost r0 = remaining;
            let ghost k0 = kept;
            let c = remaining.remove(0);
            proof {
                lemma_vec_remove_front_deep_view(r0, remaining);
                assert(c.deep_view() == orig[i as int]);
                assert(orig.skip(i as int).drop_first() =~= orig.skip(i + 1));
                assert(orig.take(i + 1) =~= orig.take(i as int).push(orig[i as int]));
                lemma_live_connections_push(orig.take(i as int), orig[i as int]);
            }
            if c.is_alive() {
                kept.push(c);
                proof {
                    lemma_vec_push_deep_view(k0, kept, c);
                    assert(kept.deep_view() =~= spec_live_connections(orig.take(i + 1)));
                }
            } else {
                proof {
                    assert(kept.deep_view() =~= spec_live_connections(orig.take(i + 1)));
                }
            }
            i = i + 1;
        }
        self.connections = kept;
        proof {
            assert(orig.take(n as int) =~= orig);
        }
    }

    /// Read everything every live connection has received: each
    /// connection's complete frames are decoded in arrival order and the
    /// messages concatenated connection by connection. A malformed frame
    /// drops only its own connection; every other connection's messages
    /// are decoded and delivered in the same call.
    pub fn read_messages(&mut self) -> (r: Vec<ClientMessage>)
        ensures
            r@ == spec_read_all(old(self)@.connections),
            final(self)@.connections.len() == old(self)@.connections.len(),
            forall|i: int|
                0 <= i < old(self)@.connections.len() ==> final(self)@.connections[i]
                    == spec_conn_after_read(#[trigger] old(self)@.connections[i]),
            final(self)@.prev_node_states == old(self)@.prev_node_states,
    {
        let ghost orig = old(self)@.connections;
        let mut remaining = self.connections.split_off(0);
        proof {
            assert(remaining.deep_view() =~= orig);
            assert(spec_read_all(orig.take(0)) =~= Seq::<ClientMessage>::empty());
        }
        let mut done: Vec<Connection> = Vec::new();
        let mut msgs: Vec<ClientMessage> = Vec::new();
        let n = remaining.len();
        let mut i: usize = 0;
        while i < n
            invariant
                i <= n,
                n == orig.len(),
                i + remaining@.len() == n,
                remaining.deep_view() == orig.skip(i as int),
                done.deep_view().len() == i,
                forall|j: int|
                    0 <= j < i ==> done.deep_view()[j] == spec_conn_after_read(#[trigger] orig[j]),
                msgs@ == spec_read_all(orig.take(i as int)),
                self.connections@.len() == 0,
                self.prev_node_states@ == old(self)@.prev_node_states,
            decreases n - i,
        {
            let ghost r0 = remaining;
            let ghost d0 = done;
            let ghost msgs0 = msgs@;
            let mut c = remaining.remove(0);
            proof {
                lemma_vec_remove_front_deep_view(r0, remaining);
                assert(c.deep_view() == orig[i as int]);
                assert(orig.skip(i as int).drop_first() =~= orig.skip(i + 1));
            }
            if c.is_alive() {
                let mut part = c.poll_client_messages();
                proof {
                    assert(part@ == spec_conn_incoming(orig[i as int]));
                    assert(c@ =~= spec_conn_after_read(orig[i as int]));
                }
                msgs.append(&mut part);
            } else {
                proof {
                    assert(spec_conn_incoming(orig[i as int]) =~= Seq::<ClientMessage>::empty());
                    assert(msgs@ =~= msgs0 + spec_conn_incoming(orig[i as int]));
                    assert(c@ == spec_conn_after_read(orig[i as int]));
                }
            }
            done.push(c);
            proof {
                lemma_vec_push_deep_view(d0, done, c);
                assert(orig.take(i + 1) =~= orig.take(i as int).push(orig[i as int]));
                lemma_read_all_push(orig.take(i as int), orig[i as int]);
            }
            i = i + 1;
        }
        self.connections = done;
        proof {
            assert(orig.take(n as int) =~= orig);
        }
        msgs
    }

    /// Send one message to every live connection: exactly one send attempt
    /// per live connection, in order, each queueing exactly one frame. A
    /// connection that has already failed is skipped, and no connection's
    /// attempt affects any other's.
    pub fn send_message_to_clients(&mut self, message: &ServerMessage)
        ensures
            final(self)@.connections.len() == old(self)@.connections.len(),
            forall|i: int|
                0 <= i < old(self)@.connections.len() ==> final(self)@.connections[i]
                    == spec_conn_after_send(
                    #[trigger] old(self)@.connections[i],
                    spec_frame(spec_encode_server_msg(message@)),
                ),
            final(self)@.prev_node_states == old(self)@.prev_node_states,
    {
        let ghost orig = old(self)@.connections;
        let ghost framed = spec_frame(spec_encode_server_msg(message@));
        let mut remaining = self.connections.split_off(0);
        proof {
            assert(remaining.deep_view() =~= orig);
        }
        let mut done: Vec<Connection> = Vec::new();
        let n = remaining.len();
        let mut i: usize = 0;
        while i < n
            invariant
                i <= n,
                n == orig.len(),
                i + remaining@.len() == n,
                remaining.deep_view() == orig.skip(i as int),
                done.deep_view().len() == i,
                framed == spec_frame(spec_encode_server_msg(message@)),
                forall|j: int|
                    0 <= j < i ==> done.deep_view()[j] == spec_conn_after_send(
                        #[trigger] orig[j],
                        framed,
                    ),
                self.prev_node_states@ == old(self)@.prev_node_states,
            decreases n - i,
        {
            let ghost r0 = remaining;
            let ghost d0 = done;
            let mut c = remaining.remove(0);
            proof {
                lemma_vec_remove_front_deep_view(r0, remaining);
                assert(c.deep_view() == orig[i as int]);
                assert(orig.skip(i as int).drop_first() =~= orig.skip(i + 1));
            }
            if c.is_alive() {
                c.send_server_message(message);
                proof {
                    assert(c@ =~= spec_conn_after_send(orig[i as int], framed));
                }
            }
            done.push(c);
            proof {
                lemma_vec_push_deep_view(d0, done, c);
            }
            i = i + 1;
        }
        self.connections = done;
    }

    /// The snapshot cache's entry for an entity: the state most recently
    /// sent to clients (or established as a first-observation baseline).
    pub fn cached_node_state(&self, id: u64) -> (r: Option<NodeState>)
        ensures
            match r {
                Some(s) => self@.prev_node_states.contains_key(id) && s
                    == self@.prev_node_states[id],
                None => !self@.prev_node_states.contains_key(id),
            },
    {
        match self.prev_node_states.get(&id) {
            Some(s) => Some(*s),
            None => None,
        }
    }

    /// Full synchronization: broadcast one `Sync` message holding one
    /// state per entity of the snapshot, in store order, unfiltered. The
    /// snapshot cache is not consulted and not changed.
    pub fn sync(&mut self, entities: &Vec<NodeState>)
        ensures
            final(self)@.connections.len() == old(self)@.connections.len(),
            forall|i: int|
                0 <= i < old(self)@.connections.len() ==> final(self)@.connections[i]
                    == spec_conn_after_send(
                    #[trigger] old(self)@.connections[i],
                    spec_frame(spec_encode_server_msg(spec_sync_msg(entities@))),
                ),
            final(self)@.prev_node_states == old(self)@.prev_node_states,
    {
        let mut states: Vec<NodeState> = Vec::new();
        let n = entities.len();
        let mut i: usize = 0;
        while i < n
            invariant
                i <= n,
                n == entities@.len(),
                states@ == entities@.take(i as int),
            decreases n - i,
        {
            states.push(entities[i]);
            proof {
                assert(states@ =~= entities@.take(i + 1));
            }
            i = i + 1;
        }
        proof {
            assert(states@ =~= entities@);
        }
        let message = ServerMessage::Sync { entity_states: states };
        self.send_message_to_clients(&message);
    }

    /// Send one full snapshot to a single connection. The snapshot cache of
    /// delta-compressed sync is shared across all connections, so a newly
    /// accepted connection would otherwise never hear about entities that
    /// happen not to change after it joined; giving each new connection one
    /// full snapshot before it takes part in delta sync closes that gap.
    /// The cache itself is not consulted and not changed.
    pub fn sync_connection(&mut self, index: usize, entities: &Vec<NodeState>)
        requires
            index < old(self)@.connections.len(),
        ensures
            final(self)@.connections.len() == old(self)@.connections.len(),
            final(self)@.connections[index as int] == spec_conn_after_send(
                old(self)@.connections[index as int],
                spec_frame(spec_encode_server_msg(spec_sync_msg(entities@))),
            ),
            forall|j: int|
                0 <= j < old(self)@.connections.len() && j != index ==> final(self)@.connections[j]
                    == old(self)@.connections[j],
            final(self)@.prev_node_states == old(self)@.prev_node_states,
    {
        let mut states: Vec<NodeState> = Vec::new();
        let n = entities.len();
        let mut i: usize = 0;
        while i < n
            invariant
                i <= n,
                n == entities@.len(),
                states@ == entities@.take(i as int),
            decreases n - i,
        {
            states.push(entities[i]);
            proof {
                assert(states@ =~= entities@.take(i + 1));
            }
            i = i + 1;
        }
        proof {
            assert(states@ =~= entities@);
        }
        let message = ServerMessage::Sync { entity_states: states };
        let mut c = self.connections.remove(index);
        if c.is_alive() {
            c.send_server_message(&message);
            proof {
                assert(c@ =~= spec_conn_after_send(
                    old(self)@.connections[index as int],
                    spec_frame(spec_encode_server_msg(spec_sync_msg(entities@))),
                ));
            }
        }
        self.connections.insert(index, c);
        proof {
            assert(forall|j: int|
                0 <= j < old(self)@.connections.len() ==> #[trigger] self.connections.deep_view()[j]
                    == self.connections@[j].deep_view());
        }
    }

    /// Delta-compressed synchronization: walk the snapshot in store order,
    /// compare each entity against its cached baseline, and broadcast
    /// exactly one `Sync` message holding exactly the changed entities'
    /// new states. First-seen entities establish their baseline silently;
    /// unchanged entities are omitted and their cache entries untouched;
    /// changed entities are emitted and their cache entries updated, so
    /// the cache always holds the states most recently sent.
    pub fn sync_with_delta_compression(&mut self, entities: &Vec<NodeState>)
        ensures
            final(self)@.prev_node_states == spec_delta_cache(
                old(self)@.prev_node_states,
                entities@,
            ),
            final(self)@.connections.len() == old(self)@.connections.len(),
            forall|i: int|
                0 <= i < old(self)@.connections.len() ==> final(self)@.connections[i]
                    == spec_conn_after_send(
                    #[trigger] old(self)@.connections[i],
                    spec_frame(
                        spec_encode_server_msg(
                            spec_sync_msg(
                                spec_delta_list(old(self)@.prev_node_states, entities@),
                            ),
                        ),
                    ),
                ),
    {
        let ghost cache0 = old(self)@.prev_node_states;
        let mut changed: Vec<NodeState> = Vec::new();
        let n = entities.len();
        let mut i: usize = 0;
        proof {
            assert(entities@.take(0) =~= Seq::<NodeState>::empty());
        }
        while i < n
            invariant
                i <= n,
                n == entities@.len(),
                self.prev_node_states@ == spec_delta_cache(cache0, entities@.take(i as int)),
                changed@ == spec_delta_list(cache0, entities@.take(i as int)),
                self.connections == old(self).connections,
            decreases n - i,
        {
            let ghost taken = entities@.take(i as int);
            let ghost cachei = self.prev_node_states@;
            let e = entities[i];
            match self.prev_node_states.get(&e.id) {
                Some(prev) => {
                    if *prev != e {
                        changed.push(e);
                        self.prev_node_states.insert(e.id, e);
                    } else {
                        proof {
                            assert(cachei.insert(e.id, e) =~= cachei);
                        }
                    }
                },
                None => {
                    self.prev_node_states.insert(e.id, e);
                },
            }
            proof {
                lemma_delta_push(cache0, taken, e);
                assert(entities@.take(i + 1) =~= taken.push(e));
                if cachei.contains_key(e.id) && cachei[e.id] != e {
                    assert(changed@ =~= spec_delta_list(cache0, taken) + seq![e]);
                } else {
                    assert(changed@ =~= spec_delta_list(cache0, taken) + Seq::<
                        NodeState,
                    >::empty());
                }
            }
            i = i + 1;
        }
        proof {
            assert(entities@.take(n as int) =~= entities@);
        }
        let message = ServerMessage::Sync { entity_states: changed };
        self.send_message_to_clients(&message);
    }
}

/// The `Sync` message that carries a given list of entity states.
pub open spec fn spec_sync_msg(es: Seq<NodeState>) -> ServerMessageView {
    ServerMessageView::Sync { entity_states: es }
}

} // verus!
