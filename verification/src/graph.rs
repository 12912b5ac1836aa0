//! The processing graph: nodes keyed by stable handles, ordered edge sets,
//! and a cached topological order computed by Kahn's algorithm with
//! deterministic (insertion-order) tie-breaking — the chosen order equals
//! the specification-level `kahn_order`, a pure function of the graph.
//!
//! Invariants: a connection's endpoints reference existing nodes; the two
//! adjacency sides mirror each other; a sink port carries at most one wire;
//! and whenever the cached order is marked valid it is a genuine topological
//! order of the live nodes — every edge goes forward in it.

use vstd::prelude::*;
use vstd::seq_lib::*;
use vstd::set_lib::lemma_len_subset;

use crate::port::PortRate;

verus! {

/// Structural errors surfaced when the graph is edited.
#[derive(Debug, PartialEq, Eq, Clone, Copy, Structural)]
pub enum GraphError {
    /// An endpoint's node is missing, the rates of the two endpoints
    /// disagree, the sink port already has a wire, or the wire named for
    /// removal does not exist.
    BadConnection,
    /// The edge would close a directed cycle.
    CycleDetected,
    /// A key that names no live node, where one is required.
    NodeDoesNotExist,
}

/// A stable handle to a node.  Handles are handed out by `add_node` and are
/// never reused: removing a node retires its slot for good.
#[derive(Debug, PartialEq, Eq, Clone, Copy, Hash, Structural)]
pub struct NodeKey {
    pub(crate) index: usize,
}

/// Slot index a key names; used to tie a key to per-slot storage.
pub closed spec fn key_slot(k: NodeKey) -> int {
    k.index as int
}

/// One end of a wire: a node, a port index on it, and the port's rate.
#[derive(Debug, PartialEq, Eq, Clone, Copy, Hash, Structural)]
pub struct ConnectionEntry {
    pub node_key: NodeKey,
    pub port_index: usize,
    pub port_rate: PortRate,
}

/// A directed wire from a source endpoint to a sink endpoint.
#[derive(Debug, PartialEq, Eq, Clone, Copy, Hash, Structural)]
pub struct Connection {
    pub source: ConnectionEntry,
    pub sink: ConnectionEntry,
}

/// Number of live slots in a slot vector.
pub closed spec fn count_live<N>(s: Seq<Option<N>>) -> nat
    decreases s.len(),
{
    if s.len() == 0 {
        0
    } else {
        count_live(s.drop_last()) + (if s.last() is Some {
            1nat
        } else {
            0nat
        })
    }
}

/// Every pair of positions of `order` holding the edge's endpoints is
/// ordered source before sink.
pub open spec fn edge_respected(order: Seq<NodeKey>, c: Connection) -> bool {
    forall|i: int, j: int|
        0 <= i < order.len() && 0 <= j < order.len() && order[i] == c.source.node_key && order[j]
            == c.sink.node_key ==> i < j
}

/// Wires whose exact tuple is not in `dropped`.
spec fn edge_not_in(dropped: Seq<Connection>) -> spec_fn(Connection) -> bool {
    |x: Connection| !dropped.contains(x)
}

/// Wires other than the exact tuple `c`.
pub open spec fn ne_to(c: Connection) -> spec_fn(Connection) -> bool {
    |x: Connection| x != c
}

/// Both predicates hold.
spec fn pred_and<A>(p1: spec_fn(A) -> bool, p2: spec_fn(A) -> bool) -> spec_fn(A) -> bool {
    |x: A| p1(x) && p2(x)
}

/// Wires that do not leave `key`.
pub open spec fn edge_not_from(key: NodeKey) -> spec_fn(Connection) -> bool {
    |x: Connection| x.source.node_key != key
}

/// Wires that do not enter `key`.
pub open spec fn edge_not_into(key: NodeKey) -> spec_fn(Connection) -> bool {
    |x: Connection| x.sink.node_key != key
}

/// `order` is a topological order of `g`: it lists each live node exactly
/// once and every edge of `g` goes forward in it.
pub open spec fn is_topo_over<N>(order: Seq<NodeKey>, g: AudioGraph<N>) -> bool {
    &&& order.no_duplicates()
    &&& forall|k: NodeKey| #![auto] g.is_live(k) <==> order.contains(k)
    &&& forall|c: Connection| #[trigger] g.has_edge(c) ==> edge_respected(order, c)
}

/// The graph is acyclic: some topological order of it exists.
pub open spec fn admits_topo<N>(g: AudioGraph<N>) -> bool {
    exists|order: Seq<NodeKey>| is_topo_over(order, g)
}

/// A DAG of processing nodes with ordered, duplicate-free edge sets and a
/// cached topological order.
pub struct AudioGraph<N> {
    nodes: Vec<Option<N>>,
    incoming: Vec<Vec<Connection>>,
    outgoing: Vec<Vec<Connection>>,
    topo_sorted: Vec<NodeKey>,
    topo_valid: bool,
    live_count: usize,
}

impl<N> AudioGraph<N> {
    /// Number of slots ever allocated (live and retired).
    pub closed spec fn slot_len(self) -> int {
        self.nodes@.len() as int
    }

    /// Slot `i` holds a live node.
    pub closed spec fn live_at(self, i: int) -> bool {
        0 <= i < self.slot_len() && self.nodes@[i] is Some
    }

    /// The node stored in live slot `i`.
    pub closed spec fn node_at_slot(self, i: int) -> N {
        self.nodes@[i]->0
    }

    /// Wires entering slot `i`, in insertion order.
    pub closed spec fn inc_at(self, i: int) -> Seq<Connection> {
        self.incoming@[i]@
    }

    /// Wires leaving slot `i`, in insertion order.
    pub closed spec fn out_at(self, i: int) -> Seq<Connection> {
        self.outgoing@[i]@
    }

    /// The key names a live node.
    pub closed spec fn is_live(self, k: NodeKey) -> bool {
        self.live_at(k.index as int)
    }

    /// The node a live key names.
    pub closed spec fn node_at(self, k: NodeKey) -> N {
        self.node_at_slot(k.index as int)
    }

    /// The wires entering a node, in insertion order.
    pub closed spec fn in_edges(self, k: NodeKey) -> Seq<Connection> {
        self.inc_at(k.index as int)
    }

    /// The wires leaving a node, in insertion order.
    pub closed spec fn out_edges(self, k: NodeKey) -> Seq<Connection> {
        self.out_at(k.index as int)
    }

    /// The wire is present in the graph.
    pub closed spec fn has_edge(self, c: Connection) -> bool {
        self.live_at(c.source.node_key.index as int) && self.out_at(
            c.source.node_key.index as int,
        ).contains(c)
    }

    /// Number of live nodes.
    pub closed spec fn node_count(self) -> nat {
        count_live(self.nodes@)
    }

    /// The slot vector itself: `Some` for a live node, `None` for a
    /// retired slot.
    pub closed spec fn slots(self) -> Seq<Option<N>> {
        self.nodes@
    }

    /// The cached order.  Meaningful only while `topo_is_valid()`.
    pub closed spec fn topo(self) -> Seq<NodeKey> {
        self.topo_sorted@
    }

    /// The cached order is current: it is a topological order of the graph
    /// as it stands.
    pub closed spec fn topo_is_valid(self) -> bool {
        self.topo_valid
    }

    /// Both endpoints of the wire are live and its rates agree.
    pub open spec fn edge_endpoints_ok(self, c: Connection) -> bool {
        &&& self.is_live(c.source.node_key)
        &&& self.is_live(c.sink.node_key)
        &&& c.source.port_rate == c.sink.port_rate
    }

    /// Some wire already enters the same sink port (at the same rate) as
    /// `c` would, other than `c` itself.
    pub open spec fn sink_port_taken(self, c: Connection) -> bool {
        exists|e: int|
            0 <= e < self.in_edges(c.sink.node_key).len() && (#[trigger] self.in_edges(
                c.sink.node_key,
            )[e]) != c && self.in_edges(c.sink.node_key)[e].sink.port_index == c.sink.port_index
                && self.in_edges(c.sink.node_key)[e].sink.port_rate == c.sink.port_rate
    }

    /// `add_edge` refuses the wire outright: an endpoint is missing, the
    /// rates disagree, or the sink port is already wired.
    pub open spec fn rejects_edge(self, c: Connection) -> bool {
        !self.edge_endpoints_ok(c) || self.sink_port_taken(c)
    }

    /// Internal invariant.  Established by `with_capacity` and preserved by
    /// every operation.
    pub closed spec fn wf(self) -> bool {
        &&& self.incoming@.len() == self.nodes@.len()
        &&& self.outgoing@.len() == self.nodes@.len()
        &&& self.live_count == count_live(self.nodes@)
        &&& forall|i: int| 0 <= i < self.slot_len() ==> (#[trigger] self.out_at(i)).no_duplicates()
        &&& forall|i: int| 0 <= i < self.slot_len() ==> (#[trigger] self.inc_at(i)).no_duplicates()
        &&& forall|i: int, e: int|
            0 <= i < self.slot_len() && 0 <= e < self.out_at(i).len() ==> {
                let c = #[trigger] self.out_at(i)[e];
                &&& c.source.node_key.index == i
                &&& self.edge_endpoints_ok(c)
                &&& self.inc_at(c.sink.node_key.index as int).contains(c)
            }
        &&& forall|i: int, e: int|
            0 <= i < self.slot_len() && 0 <= e < self.inc_at(i).len() ==> {
                let c = #[trigger] self.inc_at(i)[e];
                &&& c.sink.node_key.index == i
                &&& self.edge_endpoints_ok(c)
                &&& self.out_at(c.source.node_key.index as int).contains(c)
            }
        &&& forall|i: int|
            0 <= i < self.slot_len() && !self.live_at(i) ==> (#[trigger] self.out_at(i)).len() == 0
                && self.inc_at(i).len() == 0
        &&& forall|i: int, e1: int, e2: int|
            0 <= i < self.slot_len() && 0 <= e1 < e2 < self.inc_at(i).len() ==> !((#[trigger] self
                .inc_at(i)[e1]).sink.port_index == (#[trigger] self.inc_at(i)[e2]).sink.port_index
                && self.inc_at(i)[e1].sink.port_rate == self.inc_at(i)[e2].sink.port_rate)
        &&& self.topo_valid ==> is_topo_over(self.topo_sorted@, self)
    }

    /// An empty graph with room reserved for `capacity` nodes.
    pub fn with_capacity(capacity: usize) -> (g: Self)
        ensures
            g.wf(),
            g.node_count() == 0,
            g.slot_len() == 0,
            g.topo_is_valid(),
            g.topo() =~= Seq::<NodeKey>::empty(),
            forall|k: NodeKey| !g.is_live(k),
            forall|c: Connection| !g.has_edge(c),
    {
        let g = AudioGraph {
            nodes: Vec::with_capacity(capacity),
            incoming: Vec::with_capacity(capacity),
            outgoing: Vec::with_capacity(capacity),
            topo_sorted: Vec::with_capacity(capacity),
            topo_valid: true,
            live_count: 0,
        };
        proof {
            assert(is_topo_over(g.topo_sorted@, g));
        }
        g
    }

    /// Insert a node; it starts with no wires.  The returned key is fresh:
    /// it names this node and nothing that ever lived before.
    pub fn add_node(&mut self, node: N) -> (key: NodeKey)
        requires
            old(self).wf(),
        ensures
            final(self).wf(),
            !old(self).is_live(key),
            key_slot(key) == old(self).slot_len(),
            final(self).slot_len() == old(self).slot_len() + 1,
            final(self).is_live(key),
            final(self).node_at(key) == node,
            final(self).in_edges(key).len() == 0,
            final(self).out_edges(key).len() == 0,
            final(self).node_count() == old(self).node_count() + 1,
            forall|k: NodeKey| #![auto]
                final(self).is_live(k) <==> (old(self).is_live(k) || k == key),
            forall|k: NodeKey| #![auto]
                old(self).is_live(k) ==> final(self).node_at(k) == old(self).node_at(k)
                    && final(self).in_edges(k) == old(self).in_edges(k)
                    && final(self).out_edges(k) == old(self).out_edges(k),
            forall|c: Connection| #![auto] final(self).has_edge(c) <==> old(self).has_edge(c),
            final(self).topo_is_valid() <==> admits_topo(*final(self)),
            final(self).topo_is_valid() ==> final(self).topo() == kahn_order(*final(self)),
    {
        let index = self.nodes.len();
        let key = NodeKey { index };
        self.nodes.push(Some(node));
        self.incoming.push(Vec::new());
        self.outgoing.push(Vec::new());
        let grown: usize = self.nodes.len();
        proof {
            lemma_count_live_push(old(self).nodes@, Some(node));
            assert(count_live(self.nodes@) == count_live(old(self).nodes@) + 1);
            assert(count_live(old(self).nodes@) <= old(self).nodes@.len()) by {
                lemma_count_live_le(old(self).nodes@);
            }
            assert(self.live_count < grown);
        }
        self.live_count = self.live_count + 1;
        if self.topo_valid {
            self.topo_sorted.push(key);
        }
        proof {
            assert forall|i: int, e: int|
                0 <= i < self.slot_len() && 0 <= e < self.out_at(i).len() implies {
                let c = #[trigger] self.out_at(i)[e];
                &&& c.source.node_key.index == i
                &&& self.edge_endpoints_ok(c)
                &&& self.inc_at(c.sink.node_key.index as int).contains(c)
            } by {
                if i < old(self).slot_len() {
                    assert(self.out_at(i) == old(self).out_at(i));
                    let c = self.out_at(i)[e];
                    assert(old(self).inc_at(c.sink.node_key.index as int).contains(c));
                    assert(self.inc_at(c.sink.node_key.index as int) == old(self).inc_at(
                        c.sink.node_key.index as int,
                    ));
                }
            }
            assert forall|i: int, e: int|
                0 <= i < self.slot_len() && 0 <= e < self.inc_at(i).len() implies {
                let c = #[trigger] self.inc_at(i)[e];
                &&& c.sink.node_key.index == i
                &&& self.edge_endpoints_ok(c)
                &&& self.out_at(c.source.node_key.index as int).contains(c)
            } by {
                if i < old(self).slot_len() {
                    assert(self.inc_at(i) == old(self).inc_at(i));
                }
            }
            assert forall|i: int|
                0 <= i < self.slot_len() implies (#[trigger] self.out_at(i)).no_duplicates() by {
                if i < old(self).slot_len() {
                    assert(self.out_at(i) == old(self).out_at(i));
                } else {
                    assert(self.out_at(i).len() == 0);
                }
            }
            assert forall|i: int|
                0 <= i < self.slot_len() implies (#[trigger] self.inc_at(i)).no_duplicates() by {
                if i < old(self).slot_len() {
                    assert(self.inc_at(i) == old(self).inc_at(i));
                } else {
                    assert(self.inc_at(i).len() == 0);
                }
            }
            assert forall|i: int|
                0 <= i < self.slot_len() && !self.live_at(i) implies (#[trigger] self.out_at(
                i,
            )).len() == 0 && self.inc_at(i).len() == 0 by {
                if i < old(self).slot_len() {
                    assert(self.out_at(i) == old(self).out_at(i));
                    assert(self.inc_at(i) == old(self).inc_at(i));
                    assert(!old(self).live_at(i));
                }
            }
            assert forall|i: int, e1: int, e2: int|
                0 <= i < self.slot_len() && 0 <= e1 < e2 < self.inc_at(i).len() implies !((
            #[trigger] self.inc_at(i)[e1]).sink.port_index == (#[trigger] self.inc_at(
                i,
            )[e2]).sink.port_index && self.inc_at(i)[e1].sink.port_rate == self.inc_at(
                i,
            )[e2].sink.port_rate) by {
                if i < old(self).slot_len() {
                    assert(self.inc_at(i) == old(self).inc_at(i));
                } else {
                    assert(self.inc_at(i).len() == 0);
                }
            }
            if self.topo_valid {
                lemma_topo_push_fresh(old(self).topo_sorted@, *old(self), *self, key, node);
            }
            assert forall|c: Connection| #![auto]
                self.has_edge(c) <==> old(self).has_edge(c) by {
                if c.source.node_key.index < old(self).slot_len() {
                    assert(self.out_at(c.source.node_key.index as int) == old(self).out_at(
                        c.source.node_key.index as int,
                    ));
                }
            }
        }
        let ghost gmid = *self;
        let _ = self.invalidate_topo_sort();
        proof {
            assert(self.slot_len() == gmid.slot_len());
            assert forall|k: NodeKey| #![auto]
                self.is_live(k) <==> (old(self).is_live(k) || k == key) by {
                assert(self.is_live(k) <==> gmid.is_live(k));
            }
            assert(self.is_live(key));
            assert(self.node_at(key) == node) by {
                assert(gmid.is_live(key));
                assert(gmid.node_at(key) == node);
            }
            assert(self.in_edges(key).len() == 0 && self.out_edges(key).len() == 0) by {
                assert(gmid.is_live(key));
                assert(gmid.in_edges(key).len() == 0);
                assert(gmid.out_edges(key).len() == 0);
            }
            assert forall|k: NodeKey| #![auto]
                old(self).is_live(k) implies self.node_at(k) == old(self).node_at(k)
                && self.in_edges(k) == old(self).in_edges(k) && self.out_edges(k) == old(
                self,
            ).out_edges(k) by {
                assert(gmid.is_live(k));
                assert(gmid.node_at(k) == old(self).node_at(k));
                assert(gmid.in_edges(k) == old(self).in_edges(k));
                assert(gmid.out_edges(k) == old(self).out_edges(k));
            }
            assert forall|c: Connection| #![auto]
                self.has_edge(c) <==> old(self).has_edge(c) by {
                assert(self.has_edge(c) <==> gmid.has_edge(c));
                assert(gmid.has_edge(c) <==> old(self).has_edge(c));
            }
        }
        key
    }

    /// The key names a live node.
    pub fn has_node(&self, key: NodeKey) -> (r: bool)
        ensures
            r == self.is_live(key),
    {
        key.index < self.nodes.len() && self.nodes[key.index].is_some()
    }

    /// Borrow the node a key names, if it is live.
    pub fn get_node(&self, key: NodeKey) -> (r: Option<&N>)
        ensures
            r is Some <==> self.is_live(key),
            r is Some ==> *r->0 == self.node_at(key),
    {
        if key.index < self.nodes.len() {
            self.nodes[key.index].as_ref()
        } else {
            None
        }
    }

    /// Mutably borrow the node a key names, if it is live.  Only the stored
    /// node can change through the borrow; `lemma_node_update_keeps_wf`
    /// recovers the invariant once the borrow ends.
    pub fn get_node_mut(&mut self, key: &NodeKey) -> (r: Option<&mut N>)
        ensures
            r is Some <==> old(self).is_live(*key),
            r is None ==> *final(self) == *old(self),
            r is Some ==> {
                &&& *r.unwrap() == old(self).node_at(*key)
                &&& final(self).slots() == old(self).slots().update(
                    key_slot(*key),
                    Some(*final(r.unwrap())),
                )
                &&& edges_and_cache_eq(*old(self), *final(self))
            },
    {
        if key.index < self.nodes.len() && self.nodes[key.index].is_some() {
            let slot = &mut self.nodes[key.index];
            slot.as_mut()
        } else {
            None
        }
    }

    /// Number of live nodes.
    pub fn len(&self) -> (r: usize)
        requires
            self.wf(),
        ensures
            r == self.node_count(),
    {
        self.live_count
    }

    /// The wires entering a node, if it is live.
    pub fn incoming_connections(&self, key: NodeKey) -> (r: Option<&Vec<Connection>>)
        requires
            self.wf(),
        ensures
            r is Some <==> self.is_live(key),
            r is Some ==> r->0@ == self.in_edges(key),
    {
        if key.index < self.nodes.len() && self.nodes[key.index].is_some() {
            Some(&self.incoming[key.index])
        } else {
            None
        }
    }

    /// The wires leaving a node, if it is live.
    pub fn outgoing_connections(&self, key: NodeKey) -> (r: Option<&Vec<Connection>>)
        requires
            self.wf(),
        ensures
            r is Some <==> self.is_live(key),
            r is Some ==> r->0@ == self.out_edges(key),
    {
        if key.index < self.nodes.len() && self.nodes[key.index].is_some() {
            Some(&self.outgoing[key.index])
        } else {
            None
        }
    }

    /// The cached order.  It is a topological order of the current graph
    /// whenever `has_valid_topo` reports true.
    pub fn topo_order(&self) -> (r: &Vec<NodeKey>)
        ensures
            r@ == self.topo(),
    {
        &self.topo_sorted
    }

    /// Whether the cached order is current.
    pub fn has_valid_topo(&self) -> (r: bool)
        ensures
            r == self.topo_is_valid(),
    {
        self.topo_valid
    }
}

/// Topological soundness: for every edge of the graph, the source stands
/// before the sink in a valid cached order.  This holds of the cached order
/// after any sequence of operations, as long as the graph reports it valid.
pub proof fn lemma_topo_soundness<N>(g: AudioGraph<N>, c: Connection, i: int, j: int)
    requires
        g.wf(),
        g.topo_is_valid(),
        g.has_edge(c),
        0 <= i < g.topo().len(),
        0 <= j < g.topo().len(),
        g.topo()[i] == c.source.node_key,
        g.topo()[j] == c.sink.node_key,
    ensures
        i < j,
{
}

/// A valid cached order is a topological order of the graph as it stands:
/// it lists each live node exactly once and every edge goes forward in it.
pub proof fn lemma_valid_cache_is_topo<N>(g: AudioGraph<N>)
    requires
        g.wf(),
        g.topo_is_valid(),
    ensures
        is_topo_over(g.topo(), g),
{
}

proof fn lemma_count_live_push<N>(s: Seq<Option<N>>, v: Option<N>)
    ensures
        count_live(s.push(v)) == count_live(s) + (if v is Some {
            1nat
        } else {
            0nat
        }),
{
    assert(s.push(v).drop_last() =~= s);
    assert(s.push(v).last() == v);
}

proof fn lemma_count_live_le<N>(s: Seq<Option<N>>)
    ensures
        count_live(s) <= s.len(),
    decreases s.len(),
{
    if s.len() > 0 {
        lemma_count_live_le(s.drop_last());
    }
}

proof fn lemma_count_live_update<N>(s: Seq<Option<N>>, i: int, v: Option<N>)
    requires
        0 <= i < s.len(),
    ensures
        count_live(s.update(i, v)) + (if s[i] is Some {
            1nat
        } else {
            0nat
        }) == count_live(s) + (if v is Some {
            1nat
        } else {
            0nat
        }),
    decreases s.len(),
{
    let t = s.update(i, v);
    if i == s.len() - 1 {
        assert(t.drop_last() =~= s.drop_last());
        assert(t.last() == v);
    } else {
        assert(t.drop_last() =~= s.drop_last().update(i, v));
        assert(t.last() == s.last());
        lemma_count_live_update(s.drop_last(), i, v);
    }
}

/// Two graphs agree on everything but the node payloads.
pub closed spec fn edges_and_cache_eq<N>(g1: AudioGraph<N>, g2: AudioGraph<N>) -> bool {
    &&& g2.incoming == g1.incoming
    &&& g2.outgoing == g1.outgoing
    &&& g2.topo_sorted == g1.topo_sorted
    &&& g2.topo_valid == g1.topo_valid
    &&& g2.live_count == g1.live_count
}

/// Replacing the payload of a live slot (keeping it live) preserves the
/// invariant: nothing structural depends on the payload values.  Invoke
/// after a mutable borrow from `get_node_mut` ends.
pub proof fn lemma_node_update_keeps_wf<N>(g1: AudioGraph<N>, g2: AudioGraph<N>, i: int, v: N)
    requires
        g1.wf(),
        g1.live_at(i),
        edges_and_cache_eq(g1, g2),
        g2.slots() == g1.slots().update(i, Some(v)),
    ensures
        g2.wf(),
        g2.slot_len() == g1.slot_len(),
        g2.node_count() == g1.node_count(),
        g2.topo_is_valid() == g1.topo_is_valid(),
        g2.topo() == g1.topo(),
        forall|k: NodeKey| #![auto] key_slot(k) == i ==> g2.is_live(k) && g2.node_at(k) == v,
        forall|k: NodeKey| #![auto] g2.is_live(k) <==> g1.is_live(k),
        forall|k: NodeKey| #![auto]
            g1.is_live(k) && key_slot(k) != i ==> g2.node_at(k) == g1.node_at(k),
        forall|k: NodeKey| #![auto]
            g1.is_live(k) ==> g2.in_edges(k) == g1.in_edges(k) && g2.out_edges(k) == g1.out_edges(
                k,
            ),
        forall|c: Connection| #![auto] g2.has_edge(c) <==> g1.has_edge(c),
{
    lemma_count_live_update(g1.nodes@, i, Some(v));
    assert forall|j: int|
        0 <= j < g2.slot_len() implies (#[trigger] g2.out_at(j)).no_duplicates() by {
        assert(g2.out_at(j) == g1.out_at(j));
        assert(g1.out_at(j).no_duplicates());
    }
    assert forall|j: int|
        0 <= j < g2.slot_len() implies (#[trigger] g2.inc_at(j)).no_duplicates() by {
        assert(g2.inc_at(j) == g1.inc_at(j));
        assert(g1.inc_at(j).no_duplicates());
    }
    assert forall|j: int|
        0 <= j < g2.slot_len() && !g2.live_at(j) implies (#[trigger] g2.out_at(j)).len() == 0
        && g2.inc_at(j).len() == 0 by {
        assert(g2.out_at(j) == g1.out_at(j));
        assert(g2.inc_at(j) == g1.inc_at(j));
        assert(g2.live_at(j) <==> g1.live_at(j));
    }
    assert forall|j: int, e1: int, e2: int|
        0 <= j < g2.slot_len() && 0 <= e1 < e2 < g2.inc_at(j).len() implies !((#[trigger] g2
        .inc_at(j)[e1]).sink.port_index == (#[trigger] g2.inc_at(j)[e2]).sink.port_index
        && g2.inc_at(j)[e1].sink.port_rate == g2.inc_at(j)[e2].sink.port_rate) by {
        assert(g2.inc_at(j) == g1.inc_at(j));
    }
    assert forall|i: int, e: int|
        0 <= i < g2.slot_len() && 0 <= e < g2.out_at(i).len() implies {
        let c = #[trigger] g2.out_at(i)[e];
        &&& c.source.node_key.index == i
        &&& g2.edge_endpoints_ok(c)
        &&& g2.inc_at(c.sink.node_key.index as int).contains(c)
    } by {
        assert(g2.out_at(i) == g1.out_at(i));
        let c = g1.out_at(i)[e];
        assert(g1.edge_endpoints_ok(c));
    }
    assert forall|i: int, e: int|
        0 <= i < g2.slot_len() && 0 <= e < g2.inc_at(i).len() implies {
        let c = #[trigger] g2.inc_at(i)[e];
        &&& c.sink.node_key.index == i
        &&& g2.edge_endpoints_ok(c)
        &&& g2.out_at(c.source.node_key.index as int).contains(c)
    } by {
        assert(g2.inc_at(i) == g1.inc_at(i));
        let c = g1.inc_at(i)[e];
        assert(g1.edge_endpoints_ok(c));
    }
    if g2.topo_valid {
        assert(is_topo_over(g1.topo_sorted@, g1));
        assert forall|k: NodeKey| #![auto] g2.is_live(k) <==> g2.topo_sorted@.contains(k) by {
            if 0 <= k.index < g1.nodes@.len() {
                assert(g1.is_live(k) <==> g1.topo_sorted@.contains(k));
            } else {
                assert(!g2.is_live(k));
                assert(!g1.is_live(k));
            }
        }
        assert forall|c: Connection| #[trigger]
            g2.has_edge(c) implies edge_respected(g2.topo_sorted@, c) by {
            assert(g2.out_at(c.source.node_key.index as int) == g1.out_at(
                c.source.node_key.index as int,
            ));
            assert(g1.has_edge(c));
        }
    }
    assert forall|c: Connection| #![auto] g2.has_edge(c) <==> g1.has_edge(c) by {
        if 0 <= c.source.node_key.index < g1.nodes@.len() {
            assert(g2.out_at(c.source.node_key.index as int) == g1.out_at(
                c.source.node_key.index as int,
            ));
        }
    }
}

/// Appending a fresh, edge-free node to a valid order keeps it valid.
proof fn lemma_topo_push_fresh<N>(
    order: Seq<NodeKey>,
    g1: AudioGraph<N>,
    g2: AudioGraph<N>,
    key: NodeKey,
    node: N,
)
    requires
        g1.wf(),
        g1.topo_is_valid(),
        order == g1.topo_sorted@,
        key.index == g1.nodes@.len(),
        g2.nodes@ == g1.nodes@.push(Some(node)),
        g2.incoming@.len() == g1.incoming@.len() + 1,
        g2.outgoing@.len() == g1.outgoing@.len() + 1,
        forall|i: int| 0 <= i < g1.slot_len() ==> (#[trigger] g2.inc_at(i)) == g1.inc_at(i),
        forall|i: int| 0 <= i < g1.slot_len() ==> (#[trigger] g2.out_at(i)) == g1.out_at(i),
        g2.inc_at(g1.slot_len()).len() == 0,
        g2.out_at(g1.slot_len()).len() == 0,
        g2.topo_sorted@ == order.push(key),
    ensures
        is_topo_over(order.push(key), g2),
{
    let order2 = order.push(key);
    assert(!g1.is_live(key));
    assert(!order.contains(key));
    assert(order2.no_duplicates());
    assert forall|k: NodeKey| #![auto] g2.is_live(k) <==> order2.contains(k) by {
        if k == key {
            assert(order2[order.len() as int] == key);
            assert(order2.contains(key));
        } else {
            assert(g2.is_live(k) <==> g1.is_live(k));
            assert(order.contains(k) ==> order2.contains(k)) by {
                if order.contains(k) {
                    let q = choose|q: int| 0 <= q < order.len() && order[q] == k;
                    assert(order2[q] == k);
                }
            }
            assert(order2.contains(k) ==> order.contains(k)) by {
                if order2.contains(k) {
                    let q = choose|q: int| 0 <= q < order2.len() && order2[q] == k;
                    assert(q < order.len());
                    assert(order[q] == k);
                }
            }
        }
    }
    assert forall|c: Connection| #[trigger] g2.has_edge(c) implies edge_respected(order2, c) by {
        let si = c.source.node_key.index as int;
        assert(0 <= si < g2.nodes@.len());
        if si < g1.nodes@.len() {
            assert(g2.out_at(si) == g1.out_at(si));
            assert(g1.has_edge(c));
            assert(edge_respected(order, c));
            let e = choose|e: int| 0 <= e < g1.out_at(si).len() && g1.out_at(si)[e] == c;
            assert(g1.edge_endpoints_ok(c));
            assert(c.source.node_key != key);
            assert(c.sink.node_key != key);
            assert forall|i: int, j: int|
                0 <= i < order2.len() && 0 <= j < order2.len() && order2[i] == c.source.node_key
                    && order2[j] == c.sink.node_key implies i < j by {
                assert(i < order.len());
                assert(j < order.len());
                assert(order[i] == c.source.node_key);
                assert(order[j] == c.sink.node_key);
            }
        } else {
            assert(g2.out_at(si).len() == 0);
            assert(!g2.has_edge(c));
        }
    }
}

/// Wires in `inc` whose source is not yet in `done`.
pub open spec fn count_pending(inc: Seq<Connection>, done: Seq<NodeKey>) -> nat
    decreases inc.len(),
{
    if inc.len() == 0 {
        0
    } else {
        count_pending(inc.drop_last(), done) + (if done.contains(inc.last().source.node_key) {
            0nat
        } else {
            1nat
        })
    }
}

/// Wires in `inc` whose source is `k`.
spec fn count_src(inc: Seq<Connection>, k: NodeKey) -> nat
    decreases inc.len(),
{
    if inc.len() == 0 {
        0
    } else {
        count_src(inc.drop_last(), k) + (if inc.last().source.node_key == k {
            1nat
        } else {
            0nat
        })
    }
}

/// Wires in `out` whose sink sits in slot `j`.
pub open spec fn count_to(out: Seq<Connection>, j: int) -> nat
    decreases out.len(),
{
    if out.len() == 0 {
        0
    } else {
        count_to(out.drop_last(), j) + (if key_slot(out.last().sink.node_key) == j {
            1nat
        } else {
            0nat
        })
    }
}

proof fn lemma_seq_contains_push<A>(s: Seq<A>, x: A, y: A)
    ensures
        s.push(x).contains(y) <==> (s.contains(y) || y == x),
{
    if s.contains(y) {
        let q = choose|q: int| 0 <= q < s.len() && s[q] == y;
        assert(s.push(x)[q] == y);
    }
    if y == x {
        assert(s.push(x)[s.len() as int] == y);
    }
    if s.push(x).contains(y) {
        let q = choose|q: int| 0 <= q < s.push(x).len() && s.push(x)[q] == y;
        if q < s.len() {
            assert(s[q] == y);
        }
    }
}

proof fn lemma_push_no_dup<A>(s: Seq<A>, x: A)
    requires
        s.no_duplicates(),
        !s.contains(x),
    ensures
        s.push(x).no_duplicates(),
{
    let t = s.push(x);
    assert forall|q1: int, q2: int|
        0 <= q1 < t.len() && 0 <= q2 < t.len() && q1 != q2 implies t[q1] != t[q2] by {
        if q1 < s.len() && q2 < s.len() {
            assert(s[q1] != s[q2]);
        } else if q1 < s.len() {
            assert(t[q2] == x);
            assert(s[q1] != x) by {
                if s[q1] == x {
                    assert(s.contains(x));
                }
            }
        } else if q2 < s.len() {
            assert(t[q1] == x);
            assert(s[q2] != x) by {
                if s[q2] == x {
                    assert(s.contains(x));
                }
            }
        }
    }
}

proof fn lemma_take_step<A>(s: Seq<A>, p: int)
    requires
        0 <= p < s.len(),
    ensures
        s.take(p + 1) == s.take(p).push(s[p]),
{
    assert(s.take(p + 1) =~= s.take(p).push(s[p]));
}

proof fn lemma_count_pending_le(inc: Seq<Connection>, done: Seq<NodeKey>)
    ensures
        count_pending(inc, done) <= inc.len(),
    decreases inc.len(),
{
    if inc.len() > 0 {
        lemma_count_pending_le(inc.drop_last(), done);
    }
}

proof fn lemma_count_pending_empty(inc: Seq<Connection>)
    ensures
        count_pending(inc, Seq::<NodeKey>::empty()) == inc.len(),
    decreases inc.len(),
{
    if inc.len() > 0 {
        lemma_count_pending_empty(inc.drop_last());
        assert(!Seq::<NodeKey>::empty().contains(inc.last().source.node_key));
    }
}

proof fn lemma_count_pending_zero(inc: Seq<Connection>, done: Seq<NodeKey>)
    ensures
        (count_pending(inc, done) == 0) <==> (forall|e: int|
            0 <= e < inc.len() ==> done.contains((#[trigger] inc[e]).source.node_key)),
    decreases inc.len(),
{
    if inc.len() > 0 {
        lemma_count_pending_zero(inc.drop_last(), done);
        if count_pending(inc, done) == 0 {
            assert forall|e: int|
                0 <= e < inc.len() implies done.contains((#[trigger] inc[e]).source.node_key) by {
                if e < inc.len() - 1 {
                    assert(inc.drop_last()[e] == inc[e]);
                } else {
                    assert(inc[e] == inc.last());
                }
            }
        }
        if forall|e: int| 0 <= e < inc.len() ==> done.contains((#[trigger] inc[e]).source.node_key) {
            assert forall|e: int|
                0 <= e < inc.drop_last().len() implies done.contains(
                (#[trigger] inc.drop_last()[e]).source.node_key,
            ) by {
                assert(inc.drop_last()[e] == inc[e]);
            }
            assert(done.contains(inc.last().source.node_key));
        }
    }
}

proof fn lemma_count_pending_mark(inc: Seq<Connection>, done: Seq<NodeKey>, k: NodeKey)
    requires
        !done.contains(k),
    ensures
        count_pending(inc, done.push(k)) + count_src(inc, k) == count_pending(inc, done),
    decreases inc.len(),
{
    if inc.len() > 0 {
        lemma_count_pending_mark(inc.drop_last(), done, k);
        lemma_seq_contains_push(done, k, inc.last().source.node_key);
    }
}

proof fn lemma_count_to_take_succ(out: Seq<Connection>, j: int, e: int)
    requires
        0 <= e < out.len(),
    ensures
        count_to(out.take(e + 1), j) == count_to(out.take(e), j) + (if out[e].sink.node_key.index
            == j {
            1nat
        } else {
            0nat
        }),
{
    lemma_take_step(out, e);
    assert(out.take(e + 1).drop_last() =~= out.take(e));
    assert(out.take(e + 1).last() == out[e]);
}

proof fn lemma_count_to_take_le(out: Seq<Connection>, j: int, e: int)
    requires
        0 <= e <= out.len(),
    ensures
        count_to(out.take(e), j) <= count_to(out, j),
    decreases out.len() - e,
{
    if e == out.len() {
        assert(out.take(e) =~= out);
    } else {
        lemma_count_to_take_succ(out, j, e);
        lemma_count_to_take_le(out, j, e + 1);
    }
}

proof fn lemma_count_src_as_filter(inc: Seq<Connection>, k: NodeKey)
    ensures
        count_src(inc, k) == inc.filter(|c: Connection| c.source.node_key == k).len(),
    decreases inc.len(),
{
    reveal(Seq::filter);
    if inc.len() > 0 {
        lemma_count_src_as_filter(inc.drop_last(), k);
    }
}

proof fn lemma_count_to_as_filter(out: Seq<Connection>, j: int)
    ensures
        count_to(out, j) == out.filter(|c: Connection| c.sink.node_key.index == j).len(),
    decreases out.len(),
{
    reveal(Seq::filter);
    if out.len() > 0 {
        lemma_count_to_as_filter(out.drop_last(), j);
    }
}

proof fn lemma_filter_subset<A>(s: Seq<A>, pred: spec_fn(A) -> bool, x: A)
    requires
        s.filter(pred).contains(x),
    ensures
        s.contains(x) && pred(x),
    decreases s.len(),
{
    reveal(Seq::filter);
    if s.len() > 0 {
        if s.filter(pred) == s.drop_last().filter(pred) {
            lemma_filter_subset(s.drop_last(), pred, x);
            let q = choose|q: int| 0 <= q < s.drop_last().len() && s.drop_last()[q] == x;
            assert(s[q] == x);
        } else {
            let f = s.filter(pred);
            let q = choose|q: int| 0 <= q < f.len() && f[q] == x;
            if q < f.len() - 1 {
                assert(s.drop_last().filter(pred)[q] == x);
                lemma_filter_subset(s.drop_last(), pred, x);
                let q2 = choose|q2: int| 0 <= q2 < s.drop_last().len() && s.drop_last()[q2] == x;
                assert(s[q2] == x);
            } else {
                assert(x == s.last());
                assert(s[s.len() - 1] == x);
            }
        }
    }
}

proof fn lemma_filter_no_dup<A>(s: Seq<A>, pred: spec_fn(A) -> bool)
    requires
        s.no_duplicates(),
    ensures
        s.filter(pred).no_duplicates(),
    decreases s.len(),
{
    reveal(Seq::filter);
    if s.len() > 0 {
        lemma_filter_no_dup(s.drop_last(), pred);
        if pred(s.last()) {
            assert(!s.drop_last().filter(pred).contains(s.last())) by {
                if s.drop_last().filter(pred).contains(s.last()) {
                    lemma_filter_subset(s.drop_last(), pred, s.last());
                    let q = choose|q: int|
                        0 <= q < s.drop_last().len() && s.drop_last()[q] == s.last();
                    assert(s[q] == s[s.len() - 1]);
                }
            }
            lemma_push_no_dup(s.drop_last().filter(pred), s.last());
        }
    }
}

proof fn lemma_filter_member<A>(s: Seq<A>, pred: spec_fn(A) -> bool, x: A)
    requires
        s.contains(x),
        pred(x),
    ensures
        s.filter(pred).contains(x),
{
    let q = choose|q: int| 0 <= q < s.len() && s[q] == x;
    s.lemma_filter_contains(pred, q);
}

proof fn lemma_dupfree_same_members_eq_len<A>(a: Seq<A>, b: Seq<A>)
    requires
        a.no_duplicates(),
        b.no_duplicates(),
        forall|x: A| a.contains(x) <==> b.contains(x),
    ensures
        a.len() == b.len(),
{
    a.unique_seq_to_set();
    b.unique_seq_to_set();
    assert(a.to_set() =~= b.to_set());
}

/// The duplicate-free mirror invariant makes the two ways of counting the
/// wires from node `k` into slot `j` agree.
proof fn lemma_mirror_counts<N>(g: AudioGraph<N>, k: NodeKey, j: int)
    requires
        g.wf(),
        g.is_live(k),
        0 <= j < g.slot_len(),
    ensures
        count_src(g.inc_at(j), k) == count_to(g.out_at(key_slot(k)), j),
{
    let inc_j = g.inc_at(j);
    let out_k = g.out_at(key_slot(k));
    let pa = |c: Connection| c.source.node_key == k;
    let pb = |c: Connection| c.sink.node_key.index == j;
    lemma_count_src_as_filter(inc_j, k);
    lemma_count_to_as_filter(out_k, j);
    lemma_filter_no_dup(inc_j, pa);
    lemma_filter_no_dup(out_k, pb);
    assert forall|x: Connection| inc_j.filter(pa).contains(x) <==> out_k.filter(pb).contains(
        x,
    ) by {
        if inc_j.filter(pa).contains(x) {
            lemma_filter_subset(inc_j, pa, x);
            let e = choose|e: int| 0 <= e < inc_j.len() && inc_j[e] == x;
            assert(g.out_at(x.source.node_key.index as int).contains(x));
            assert(x.sink.node_key.index == j);
            lemma_filter_member(out_k, pb, x);
        }
        if out_k.filter(pb).contains(x) {
            lemma_filter_subset(out_k, pb, x);
            let e = choose|e: int| 0 <= e < out_k.len() && out_k[e] == x;
            assert(x.source.node_key.index == key_slot(k));
            assert(x.source.node_key == k);
            assert(g.inc_at(x.sink.node_key.index as int).contains(x));
            lemma_filter_member(inc_j, pa, x);
        }
    }
    lemma_dupfree_same_members_eq_len(inc_j.filter(pa), out_k.filter(pb));
}

/// Indices of the live slots.
spec fn live_idx_set<N>(s: Seq<Option<N>>) -> Set<int> {
    Set::new(|i: int| 0 <= i < s.len() && s[i] is Some)
}

proof fn lemma_live_idx_card<N>(s: Seq<Option<N>>)
    ensures
        live_idx_set(s).finite(),
        live_idx_set(s).len() == count_live(s),
    decreases s.len(),
{
    if s.len() == 0 {
        assert(live_idx_set(s) =~= Set::<int>::empty());
    } else {
        lemma_live_idx_card(s.drop_last());
        if s.last() is Some {
            assert(live_idx_set(s) =~= live_idx_set(s.drop_last()).insert(s.len() - 1));
        } else {
            assert(live_idx_set(s) =~= live_idx_set(s.drop_last()));
        }
    }
}

/// A duplicate-free sequence of live keys cannot outnumber the live nodes.
proof fn lemma_live_key_seq_bound<N>(g: AudioGraph<N>, ks: Seq<NodeKey>)
    requires
        ks.no_duplicates(),
        forall|q: int| 0 <= q < ks.len() ==> g.is_live(#[trigger] ks[q]),
    ensures
        ks.len() <= g.node_count(),
{
    let idxs = ks.map_values(|k: NodeKey| k.index as int);
    assert(idxs.no_duplicates()) by {
        assert forall|q1: int, q2: int|
            0 <= q1 < idxs.len() && 0 <= q2 < idxs.len() && q1 != q2 implies idxs[q1]
            != idxs[q2] by {
            assert(ks[q1] != ks[q2]);
        }
    }
    idxs.unique_seq_to_set();
    lemma_live_idx_card(g.slots());
    assert(idxs.to_set().subset_of(live_idx_set(g.slots()))) by {
        assert forall|x: int| idxs.to_set().contains(x) implies live_idx_set(g.slots()).contains(
            x,
        ) by {
            let q = choose|q: int| 0 <= q < idxs.len() && idxs[q] == x;
            assert(g.is_live(ks[q]));
        }
    }
    lemma_len_subset(idxs.to_set(), live_idx_set(g.slots()));
}

/// A duplicate-free sequence of live keys as long as the live count covers
/// every live key.
proof fn lemma_live_key_seq_covers<N>(g: AudioGraph<N>, ks: Seq<NodeKey>, k: NodeKey)
    requires
        ks.no_duplicates(),
        forall|q: int| 0 <= q < ks.len() ==> g.is_live(#[trigger] ks[q]),
        ks.len() == g.node_count(),
        g.is_live(k),
    ensures
        ks.contains(k),
{
    if !ks.contains(k) {
        let idxs = ks.map_values(|kk: NodeKey| kk.index as int);
        assert(idxs.no_duplicates()) by {
            assert forall|q1: int, q2: int|
                0 <= q1 < idxs.len() && 0 <= q2 < idxs.len() && q1 != q2 implies idxs[q1]
                != idxs[q2] by {
                assert(ks[q1] != ks[q2]);
            }
        }
        idxs.unique_seq_to_set();
        lemma_live_idx_card(g.slots());
        let shrunk = live_idx_set(g.slots()).remove(k.index as int);
        assert(idxs.to_set().subset_of(shrunk)) by {
            assert forall|x: int| idxs.to_set().contains(x) implies shrunk.contains(x) by {
                let q = choose|q: int| 0 <= q < idxs.len() && idxs[q] == x;
                assert(g.is_live(ks[q]));
                assert(ks[q] != k);
                assert(ks[q].index != k.index);
            }
        }
        assert(live_idx_set(g.slots()).contains(k.index as int));
        assert(shrunk.len() == live_idx_set(g.slots()).len() - 1);
        lemma_len_subset(idxs.to_set(), shrunk);
    }
}

/// If the graph admits any topological order, Kahn's algorithm leaves no
/// node behind: every position of a witness order ends up scheduled.
proof fn lemma_witness_all_done<N>(g: AudioGraph<N>, done: Seq<NodeKey>, w: Seq<NodeKey>, p: int)
    requires
        g.wf(),
        is_topo_over(w, g),
        0 <= p < w.len(),
        forall|k: NodeKey| #![auto]
            g.is_live(k) && count_pending(g.in_edges(k), done) == 0 ==> done.contains(k),
    ensures
        done.contains(w[p]),
    decreases p,
{
    assert forall|q: int| 0 <= q < p implies done.contains(w[q]) by {
        lemma_witness_all_done(g, done, w, q);
    }
    let k = w[p];
    assert(w.contains(k));
    assert(g.is_live(k));
    let inc = g.in_edges(k);
    assert forall|e: int| 0 <= e < inc.len() implies done.contains(
        (#[trigger] inc[e]).source.node_key,
    ) by {
        let c = inc[e];
        assert(c.sink.node_key.index == k.index);
        assert(c.sink.node_key == k);
        assert(g.out_at(c.source.node_key.index as int).contains(c));
        assert(g.has_edge(c));
        assert(edge_respected(w, c));
        let src = c.source.node_key;
        assert(g.is_live(src));
        assert(w.contains(src));
        let q = choose|q: int| 0 <= q < w.len() && w[q] == src;
        assert(q < p);
        assert(done.contains(w[q]));
    }
    lemma_count_pending_zero(inc, done);
}


/// Two graphs with the same nodes and edge lists satisfy the same
/// topological-order statements.
proof fn lemma_model_eq_is_topo<N>(g1: AudioGraph<N>, g2: AudioGraph<N>, order: Seq<NodeKey>)
    requires
        g2.nodes == g1.nodes,
        g2.incoming == g1.incoming,
        g2.outgoing == g1.outgoing,
        is_topo_over(order, g1),
    ensures
        is_topo_over(order, g2),
{
    assert forall|k: NodeKey| #![auto] g2.is_live(k) <==> order.contains(k) by {
        assert(g2.is_live(k) <==> g1.is_live(k));
    }
    assert forall|c: Connection| #[trigger] g2.has_edge(c) implies edge_respected(order, c) by {
        assert(g2.out_at(c.source.node_key.index as int) == g1.out_at(
            c.source.node_key.index as int,
        ));
        assert(g1.has_edge(c));
    }
}

/// Replacing only the order cache preserves the structural invariant, as
/// long as a cache marked valid is a topological order of the graph.
proof fn lemma_cache_update_wf<N>(g1: AudioGraph<N>, g2: AudioGraph<N>)
    requires
        g1.wf(),
        g2.nodes == g1.nodes,
        g2.incoming == g1.incoming,
        g2.outgoing == g1.outgoing,
        g2.live_count == g1.live_count,
        g2.topo_valid ==> is_topo_over(g2.topo_sorted@, g2),
    ensures
        g2.wf(),
        g2.node_count() == g1.node_count(),
        forall|k: NodeKey| #![auto] g2.is_live(k) <==> g1.is_live(k),
        forall|k: NodeKey| #![auto]
            g1.is_live(k) ==> g2.node_at(k) == g1.node_at(k) && g2.in_edges(k) == g1.in_edges(k)
                && g2.out_edges(k) == g1.out_edges(k),
        forall|c: Connection| #![auto] g2.has_edge(c) <==> g1.has_edge(c),
{
    assert forall|i: int|
        0 <= i < g2.slot_len() implies (#[trigger] g2.out_at(i)).no_duplicates() by {
        assert(g2.out_at(i) == g1.out_at(i));
        assert(g1.out_at(i).no_duplicates());
    }
    assert forall|i: int|
        0 <= i < g2.slot_len() implies (#[trigger] g2.inc_at(i)).no_duplicates() by {
        assert(g2.inc_at(i) == g1.inc_at(i));
        assert(g1.inc_at(i).no_duplicates());
    }
    assert forall|i: int, e: int|
        0 <= i < g2.slot_len() && 0 <= e < g2.out_at(i).len() implies {
        let c = #[trigger] g2.out_at(i)[e];
        &&& c.source.node_key.index == i
        &&& g2.edge_endpoints_ok(c)
        &&& g2.inc_at(c.sink.node_key.index as int).contains(c)
    } by {
        assert(g2.out_at(i) == g1.out_at(i));
        let c = g1.out_at(i)[e];
        assert(g1.edge_endpoints_ok(c));
        assert(g2.inc_at(c.sink.node_key.index as int) == g1.inc_at(
            c.sink.node_key.index as int,
        ));
    }
    assert forall|i: int, e: int|
        0 <= i < g2.slot_len() && 0 <= e < g2.inc_at(i).len() implies {
        let c = #[trigger] g2.inc_at(i)[e];
        &&& c.sink.node_key.index == i
        &&& g2.edge_endpoints_ok(c)
        &&& g2.out_at(c.source.node_key.index as int).contains(c)
    } by {
        assert(g2.inc_at(i) == g1.inc_at(i));
        let c = g1.inc_at(i)[e];
        assert(g1.edge_endpoints_ok(c));
        assert(g2.out_at(c.source.node_key.index as int) == g1.out_at(
            c.source.node_key.index as int,
        ));
    }
    assert forall|i: int|
        0 <= i < g2.slot_len() && !g2.live_at(i) implies (#[trigger] g2.out_at(i)).len() == 0
        && g2.inc_at(i).len() == 0 by {
        assert(g2.out_at(i) == g1.out_at(i));
        assert(g2.inc_at(i) == g1.inc_at(i));
        assert(!g1.live_at(i));
    }
    assert forall|i: int, e1: int, e2: int|
        0 <= i < g2.slot_len() && 0 <= e1 < e2 < g2.inc_at(i).len() implies !((#[trigger] g2
        .inc_at(i)[e1]).sink.port_index == (#[trigger] g2.inc_at(i)[e2]).sink.port_index
        && g2.inc_at(i)[e1].sink.port_rate == g2.inc_at(i)[e2].sink.port_rate) by {
        assert(g2.inc_at(i) == g1.inc_at(i));
    }
    assert forall|c: Connection| #![auto] g2.has_edge(c) <==> g1.has_edge(c) by {
        if 0 <= c.source.node_key.index < g1.nodes@.len() {
            assert(g2.out_at(c.source.node_key.index as int) == g1.out_at(
                c.source.node_key.index as int,
            ));
        }
    }
}

impl<N> AudioGraph<N> {
    /// Recompute the cached topological order with Kahn's algorithm,
    /// breaking ties by insertion order (a FIFO of ready nodes, seeded in
    /// slot order).  Returns the order, or `CycleDetected` — and marks the
    /// cache invalid — exactly when the graph admits no topological order.
    /// On success the result equals `kahn_order`, a pure function of the
    /// graph, so the schedule is deterministic in the mutation history.
    pub fn invalidate_topo_sort(&mut self) -> (r: Result<Vec<NodeKey>, GraphError>)
        requires
            old(self).wf(),
        ensures
            final(self).wf(),
            final(self).slots() == old(self).slots(),
            final(self).node_count() == old(self).node_count(),
            forall|k: NodeKey| #![auto] final(self).is_live(k) <==> old(self).is_live(k),
            forall|k: NodeKey| #![auto]
                old(self).is_live(k) ==> final(self).node_at(k) == old(self).node_at(k)
                    && final(self).in_edges(k) == old(self).in_edges(k)
                    && final(self).out_edges(k) == old(self).out_edges(k),
            forall|c: Connection| #![auto] final(self).has_edge(c) <==> old(self).has_edge(c),
            r is Ok <==> admits_topo(*final(self)),
            r is Ok ==> final(self).topo_is_valid() && r->Ok_0@ == final(self).topo()
                && is_topo_over(final(self).topo(), *final(self)),
            r is Ok ==> r->Ok_0@ == kahn_order(*final(self)),
            r is Err ==> r == Err::<Vec<NodeKey>, GraphError>(GraphError::CycleDetected)
                && !final(self).topo_is_valid(),
    {
        let n = self.nodes.len();
        let mut indeg: Vec<usize> = Vec::new();
        let mut ia: usize = 0;
        while ia < n
            invariant
                *self == *old(self),
                old(self).wf(),
                n == self.nodes@.len(),
                ia <= n,
                indeg@.len() == ia,
                forall|q: int| 0 <= q < ia ==> indeg@[q] == self.inc_at(q).len(),
            decreases n - ia,
        {
            let d = self.incoming[ia].len();
            indeg.push(d);
            ia = ia + 1;
        }
        let mut order: Vec<NodeKey> = Vec::new();
        let mut ib: usize = 0;
        while ib < n
            invariant
                *self == *old(self),
                old(self).wf(),
                n == self.nodes@.len(),
                ib <= n,
                indeg@.len() == n,
                forall|q: int| 0 <= q < n ==> indeg@[q] == self.inc_at(q).len(),
                forall|q: int| 0 <= q < order@.len() ==> self.is_live(#[trigger] order@[q]),
                forall|q: int| 0 <= q < order@.len() ==> (#[trigger] order@[q]).index < ib,
                forall|q1: int, q2: int|
                    0 <= q1 < q2 < order@.len() ==> (#[trigger] order@[q1]).index < (
                    #[trigger] order@[q2]).index,
                forall|q: int|
                    0 <= q < order@.len() ==> self.inc_at(
                        (#[trigger] order@[q]).index as int,
                    ).len() == 0,
                forall|j: int|
                    0 <= j < ib && self.live_at(j) && self.inc_at(j).len() == 0
                        ==> order@.contains(NodeKey { index: j as usize }),
                order@ == kahn_seeds(*self, ib as int),
            decreases n - ib,
        {
            let ghost order_pre = order@;
            if self.nodes[ib].is_some() && indeg[ib] == 0 {
                order.push(NodeKey { index: ib });
            }
            proof {
                assert(slot_key(ib as int) == NodeKey { index: ib });
                assert(self.in_edges(slot_key(ib as int)) == self.inc_at(ib as int));
                assert(order@ == kahn_seeds(*self, ib as int + 1));
                assert forall|j: int|
                    0 <= j < ib + 1 && self.live_at(j) && self.inc_at(j).len() == 0 implies order@
                    .contains(NodeKey { index: j as usize }) by {
                    if j < ib {
                        assert(order_pre.contains(NodeKey { index: j as usize }));
                        let q = choose|q: int|
                            0 <= q < order_pre.len() && order_pre[q] == NodeKey {
                                index: j as usize,
                            };
                        assert(order@[q] == NodeKey { index: j as usize });
                    } else {
                        assert(order@[order@.len() - 1] == NodeKey { index: j as usize });
                    }
                }
            }
            ib = ib + 1;
        }
        proof {
            assert(order@.no_duplicates()) by {
                assert forall|q1: int, q2: int|
                    0 <= q1 < order@.len() && 0 <= q2 < order@.len() && q1 != q2 implies order@[q1]
                    != order@[q2] by {
                    if q1 < q2 {
                        assert(order@[q1].index < order@[q2].index);
                    } else {
                        assert(order@[q2].index < order@[q1].index);
                    }
                }
            }
            assert(order@.take(0) =~= Seq::<NodeKey>::empty());
            assert forall|j: int| #![trigger self.inc_at(j)] self.live_at(j) implies indeg@[j]
                == count_pending(self.inc_at(j), order@.take(0)) by {
                lemma_count_pending_empty(self.inc_at(j));
                assert(count_pending(self.inc_at(j), order@.take(0)) == count_pending(
                    self.inc_at(j),
                    Seq::<NodeKey>::empty(),
                ));
            }
            assert forall|k: NodeKey| #![auto]
                self.is_live(k) && count_pending(self.in_edges(k), order@.take(0))
                    == 0 implies order@.contains(k) by {
                lemma_count_pending_empty(self.in_edges(k));
                assert(self.in_edges(k).len() == 0);
                assert(order@.contains(NodeKey { index: k.index }));
                assert(NodeKey { index: k.index } == k);
            }
            assert forall|q: int|
                0 <= q < order@.len() implies count_pending(
                self.inc_at((#[trigger] order@[q]).index as int),
                order@.take(0),
            ) == 0 by {
                lemma_count_pending_empty(self.inc_at(order@[q].index as int));
            }
            lemma_live_key_seq_bound(*self, order@);
            lemma_count_live_le(self.nodes@);
            assert(order@ == kahn_seeds(*self, self.slot_len()));
            assert(kahn_run(*self, order@, 0) == kahn_order(*self));
        }
        let mut p: usize = 0;
        while p < order.len()
            invariant
                *self == *old(self),
                old(self).wf(),
                n == self.nodes@.len(),
                indeg@.len() == n,
                p <= order@.len(),
                order@.len() <= n,
                order@.no_duplicates(),
                forall|q: int| 0 <= q < order@.len() ==> self.is_live(#[trigger] order@[q]),
                forall|j: int| #![trigger self.inc_at(j)]
                    self.live_at(j) ==> indeg@[j] == count_pending(
                        self.inc_at(j),
                        order@.take(p as int),
                    ),
                forall|k: NodeKey| #![auto]
                    self.is_live(k) && count_pending(self.in_edges(k), order@.take(p as int)) == 0
                        ==> order@.contains(k),
                forall|q: int|
                    p <= q < order@.len() ==> count_pending(
                        self.inc_at((#[trigger] order@[q]).index as int),
                        order@.take(p as int),
                    ) == 0,
                forall|q: int, e2: int| #![auto]
                    0 <= q < p && 0 <= e2 < self.inc_at(order@[q].index as int).len()
                        ==> order@.take(q).contains(
                        self.inc_at(order@[q].index as int)[e2].source.node_key,
                    ),
                kahn_run(*self, order@, p as int) == kahn_order(*self),
            decreases n - p,
        {
            let key = order[p];
            let i = key.index;
            let ghost done = order@.take(p as int);
            let ghost l0 = order@.len() as int;
            let ghost ord0 = order@;
            proof {
                assert(self.is_live(key));
                assert(order@ == ord0 + kahn_pushed(*self, done, key, 0)) by {
                    assert(ord0 + Seq::<NodeKey>::empty() =~= ord0);
                }
                assert(!done.contains(key)) by {
                    if done.contains(key) {
                        let q = choose|q: int| 0 <= q < done.len() && done[q] == key;
                        assert(order@[q] == order@[p as int]);
                    }
                }
                assert(count_pending(self.inc_at(i as int), done) == 0);
                assert(self.out_at(i as int).take(0) =~= Seq::<Connection>::empty());
            }
            let m = self.outgoing[i].len();
            let mut e: usize = 0;
            while e < m
                invariant
                    *self == *old(self),
                    old(self).wf(),
                    n == self.nodes@.len(),
                    indeg@.len() == n,
                    e <= m,
                    m == self.out_at(i as int).len(),
                    p < order@.len(),
                    p < l0 <= order@.len(),
                    order@.len() <= n,
                    order@[p as int] == key,
                    i == key.index,
                    self.is_live(key),
                    done == order@.take(p as int),
                    !done.contains(key),
                    ord0.len() == l0,
                    order@ == ord0 + kahn_pushed(*self, done, key, e as int),
                    order@.no_duplicates(),
                    forall|q: int| 0 <= q < order@.len() ==> self.is_live(#[trigger] order@[q]),
                    count_pending(self.inc_at(i as int), done) == 0,
                    forall|j: int| #![trigger self.inc_at(j)]
                        self.live_at(j) ==> indeg@[j] + count_to(
                            self.out_at(i as int).take(e as int),
                            j,
                        ) == count_pending(self.inc_at(j), done),
                    forall|q: int|
                        p < q < l0 ==> count_pending(
                            self.inc_at((#[trigger] order@[q]).index as int),
                            done,
                        ) == 0,
                    forall|q: int|
                        l0 <= q < order@.len() ==> count_to(
                            self.out_at(i as int).take(e as int),
                            (#[trigger] order@[q]).index as int,
                        ) == count_src(self.inc_at(order@[q].index as int), key),
                    forall|q: int|
                        l0 <= q < order@.len() ==> indeg@[(#[trigger] order@[q]).index as int]
                            == 0,
                    forall|k: NodeKey| #![auto]
                        self.is_live(k) && count_pending(self.in_edges(k), done) == 0
                            ==> order@.contains(k),
                    forall|k: NodeKey| #![auto]
                        self.is_live(k) && count_pending(self.in_edges(k), done) == count_to(
                            self.out_at(i as int).take(e as int),
                            key_slot(k),
                        ) && count_to(self.out_at(i as int).take(e as int), key_slot(k)) > 0
                            ==> order@.contains(k),
                    forall|q: int, e2: int| #![auto]
                        0 <= q < p && 0 <= e2 < self.inc_at(order@[q].index as int).len()
                            ==> order@.take(q).contains(
                            self.inc_at(order@[q].index as int)[e2].source.node_key,
                        ),
                decreases m - e,
            {
                let c = self.outgoing[i][e];
                let j = c.sink.node_key.index;
                let ghost out_i = self.out_at(i as int);
                proof {
                    assert(out_i[e as int] == c);
                    assert(c.source.node_key.index == i);
                    assert(self.edge_endpoints_ok(c));
                    assert(self.live_at(j as int));
                    assert(self.inc_at(j as int).contains(c));
                    lemma_count_to_take_succ(out_i, j as int, e as int);
                    lemma_count_to_take_le(out_i, j as int, e as int + 1);
                    lemma_mirror_counts(*self, key, j as int);
                    lemma_count_pending_mark(self.inc_at(j as int), done, key);
                }
                let d = indeg[j];
                proof {
                    assert(indeg@[j as int] + count_to(out_i.take(e as int), j as int)
                        == count_pending(self.inc_at(j as int), done));
                    assert(count_to(out_i.take(e as int + 1), j as int) <= count_src(
                        self.inc_at(j as int),
                        key,
                    ));
                    assert(count_src(self.inc_at(j as int), key) <= count_pending(
                        self.inc_at(j as int),
                        done,
                    ));
                    assert(d >= 1);
                }
                indeg.set(j, d - 1);
                let ghost order_pre = order@;
                if d - 1 == 0 {
                    proof {
                        let k2 = c.sink.node_key;
                        assert(k2.index == j);
                        assert(!order@.contains(k2)) by {
                            if order@.contains(k2) {
                                let q = choose|q: int|
                                    0 <= q < order@.len() && order@[q] == k2;
                                if q < p {
                                    assert forall|e2: int|
                                        0 <= e2 < self.inc_at(j as int).len() implies done
                                        .contains(
                                        (#[trigger] self.inc_at(j as int)[e2]).source.node_key,
                                    ) by {
                                        assert(order@.take(q).contains(
                                            self.inc_at(j as int)[e2].source.node_key,
                                        ));
                                        let q2 = choose|q2: int|
                                            0 <= q2 < q && order@.take(q)[q2] == self.inc_at(
                                                j as int,
                                            )[e2].source.node_key;
                                        assert(done[q2] == self.inc_at(
                                            j as int,
                                        )[e2].source.node_key);
                                    }
                                    lemma_count_pending_zero(self.inc_at(j as int), done);
                                    assert(count_pending(self.inc_at(j as int), done) == 0);
                                } else if q == p {
                                    assert(k2 == key);
                                    lemma_count_pending_zero(self.inc_at(i as int), done);
                                    let e3 = choose|e3: int|
                                        0 <= e3 < self.inc_at(i as int).len() && self.inc_at(
                                            i as int,
                                        )[e3] == c;
                                    assert(done.contains(c.source.node_key));
                                    assert(c.source.node_key == key);
                                } else if q < l0 {
                                    assert(count_pending(self.inc_at(j as int), done) == 0);
                                } else {
                                    assert(count_to(out_i.take(e as int), j as int) == count_src(
                                        self.inc_at(j as int),
                                        key,
                                    ));
                                }
                            }
                        }
                        lemma_push_no_dup(order@, k2);
                    }
                    order.push(c.sink.node_key);
                    proof {
                        lemma_live_key_seq_bound(*self, order@);
                        lemma_count_live_le(self.nodes@);
                        assert(done =~= order@.take(p as int));
                    }
                }
                proof {
                    let enext = e as int + 1;
                    assert(self.out_edges(key) == out_i);
                    assert(key_slot(c.sink.node_key) == j as int);
                    assert(self.in_edges(c.sink.node_key) == self.inc_at(j as int));
                    assert(d + count_to(out_i.take(e as int), j as int) == count_pending(
                        self.inc_at(j as int),
                        done,
                    ));
                    if d == 1 {
                        assert(count_pending(self.inc_at(j as int), done) == count_to(
                            out_i.take(enext),
                            j as int,
                        ));
                        assert(kahn_pushed(*self, done, key, enext) == kahn_pushed(
                            *self,
                            done,
                            key,
                            e as int,
                        ).push(c.sink.node_key));
                        assert(order@ == ord0 + kahn_pushed(*self, done, key, enext)) by {
                            assert(order@ =~= (ord0 + kahn_pushed(
                                *self,
                                done,
                                key,
                                e as int,
                            )).push(c.sink.node_key));
                            assert((ord0 + kahn_pushed(*self, done, key, e as int)).push(
                                c.sink.node_key,
                            ) =~= ord0 + kahn_pushed(*self, done, key, e as int).push(
                                c.sink.node_key,
                            ));
                        }
                    } else {
                        assert(count_pending(self.inc_at(j as int), done) != count_to(
                            out_i.take(enext),
                            j as int,
                        ));
                        assert(kahn_pushed(*self, done, key, enext) == kahn_pushed(
                            *self,
                            done,
                            key,
                            e as int,
                        ));
                        assert(order@ == ord0 + kahn_pushed(*self, done, key, enext));
                    }
                    assert forall|jx: int| #![trigger self.inc_at(jx)]
                        self.live_at(jx) implies indeg@[jx] + count_to(out_i.take(enext), jx)
                        == count_pending(self.inc_at(jx), done) by {
                        lemma_count_to_take_succ(out_i, jx, e as int);
                    }
                    assert forall|q: int|
                        l0 <= q < order@.len() implies count_to(
                        out_i.take(enext),
                        (#[trigger] order@[q]).index as int,
                    ) == count_src(self.inc_at(order@[q].index as int), key) by {
                        let jq = order@[q].index as int;
                        lemma_count_to_take_succ(out_i, jq, e as int);
                        if q < order_pre.len() {
                            assert(order_pre[q] == order@[q]);
                            if jq == j {
                                assert(order@[q] == c.sink.node_key);
                                assert(order_pre.contains(c.sink.node_key));
                            }
                        } else {
                            assert(order@[q] == c.sink.node_key);
                            assert(jq == j);
                            assert(count_to(out_i.take(enext), j as int) == count_src(
                                self.inc_at(j as int),
                                key,
                            ));
                        }
                    }
                    assert forall|q: int|
                        l0 <= q < order@.len() implies indeg@[(#[trigger] order@[q]).index as int]
                        == 0 by {
                        let jq = order@[q].index as int;
                        if q < order_pre.len() {
                            assert(order_pre[q] == order@[q]);
                            if jq == j {
                                assert(order_pre.contains(c.sink.node_key));
                            }
                        }
                    }
                    assert forall|k: NodeKey| #![auto]
                        self.is_live(k) && count_pending(self.in_edges(k), done)
                            == 0 implies order@.contains(k) by {
                        assert(order_pre.contains(k));
                        let q = choose|q: int| 0 <= q < order_pre.len() && order_pre[q] == k;
                        assert(order@[q] == k);
                    }
                    assert forall|k: NodeKey| #![auto]
                        self.is_live(k) && count_pending(self.in_edges(k), done) == count_to(
                            out_i.take(enext),
                            key_slot(k),
                        ) && count_to(out_i.take(enext), key_slot(k)) > 0 implies order@.contains(
                        k,
                    ) by {
                        lemma_count_to_take_succ(out_i, key_slot(k), e as int);
                        if key_slot(k) == j {
                            assert(k == c.sink.node_key);
                            assert(order@[order@.len() - 1] == c.sink.node_key || order_pre
                                == order@);
                            if order_pre == order@ {
                                assert(indeg@[j as int] + count_to(out_i.take(enext), j as int)
                                    == count_pending(self.inc_at(j as int), done));
                                assert(indeg@[j as int] == 0);
                                assert(false);
                            }
                        } else {
                            assert(count_to(out_i.take(e as int), key_slot(k)) == count_to(
                                out_i.take(enext),
                                key_slot(k),
                            ));
                            assert(order_pre.contains(k));
                            let q = choose|q: int|
                                0 <= q < order_pre.len() && order_pre[q] == k;
                            assert(order@[q] == k);
                        }
                    }
                    assert forall|q: int|
                        p < q < l0 implies count_pending(
                        self.inc_at((#[trigger] order@[q]).index as int),
                        done,
                    ) == 0 by {
                        assert(order_pre[q] == order@[q]);
                    }
                }
                e = e + 1;
            }
            proof {
                let done2 = order@.take(p as int + 1);
                lemma_take_step(order@, p as int);
                assert(done2 == done.push(key));
                assert(self.out_at(i as int).take(m as int) =~= self.out_at(i as int));
                assert forall|jx: int| #![trigger self.inc_at(jx)]
                    self.live_at(jx) implies indeg@[jx] == count_pending(
                    self.inc_at(jx),
                    done2,
                ) by {
                    lemma_mirror_counts(*self, key, jx);
                    lemma_count_pending_mark(self.inc_at(jx), done, key);
                }
                assert forall|k: NodeKey| #![auto]
                    self.is_live(k) && count_pending(self.in_edges(k), done2)
                        == 0 implies order@.contains(k) by {
                    lemma_mirror_counts(*self, key, key_slot(k));
                    lemma_count_pending_mark(self.in_edges(k), done, key);
                    if count_to(self.out_at(i as int), key_slot(k)) > 0 {
                        assert(count_pending(self.in_edges(k), done) == count_to(
                            self.out_at(i as int).take(m as int),
                            key_slot(k),
                        ));
                    } else {
                        assert(count_pending(self.in_edges(k), done) == 0);
                    }
                }
                assert forall|q: int|
                    p + 1 <= q < order@.len() implies count_pending(
                    self.inc_at((#[trigger] order@[q]).index as int),
                    done2,
                ) == 0 by {
                    let jq = order@[q].index as int;
                    lemma_mirror_counts(*self, key, jq);
                    lemma_count_pending_mark(self.inc_at(jq), done, key);
                    if q < l0 {
                        assert(count_pending(self.inc_at(jq), done) == 0);
                    } else {
                        assert(indeg@[jq] == 0);
                        assert(indeg@[jq] + count_to(self.out_at(i as int).take(m as int), jq)
                            == count_pending(self.inc_at(jq), done));
                    }
                }
                assert forall|q: int, e2: int| #![auto]
                    0 <= q < p + 1 && 0 <= e2 < self.inc_at(order@[q].index as int).len() implies
                    order@.take(q).contains(
                    self.inc_at(order@[q].index as int)[e2].source.node_key,
                ) by {
                    if q == p {
                        lemma_count_pending_zero(self.inc_at(i as int), done);
                        assert(done.contains(self.inc_at(i as int)[e2].source.node_key));
                        assert(order@.take(q) == done);
                    }
                }
            }
            p = p + 1;
        }
        proof {
            assert(order@.take(p as int) =~= order@);
        }
        if order.len() == self.live_count {
            proof {
                assert(order@.len() == self.node_count());
                assert forall|k: NodeKey| #![auto] self.is_live(k) <==> order@.contains(k) by {
                    if self.is_live(k) {
                        lemma_live_key_seq_covers(*self, order@, k);
                    }
                    if order@.contains(k) {
                        let q = choose|q: int| 0 <= q < order@.len() && order@[q] == k;
                        assert(self.is_live(order@[q]));
                    }
                }
                assert forall|c: Connection| #[trigger] self.has_edge(c) implies edge_respected(
                    order@,
                    c,
                ) by {
                    let si = c.source.node_key.index as int;
                    let e4 = choose|e4: int|
                        0 <= e4 < self.out_at(si).len() && self.out_at(si)[e4] == c;
                    assert(self.edge_endpoints_ok(c));
                    let snk = c.sink.node_key;
                    assert(self.inc_at(snk.index as int).contains(c));
                    let e5 = choose|e5: int|
                        0 <= e5 < self.inc_at(snk.index as int).len() && self.inc_at(
                            snk.index as int,
                        )[e5] == c;
                    assert forall|i2: int, j2: int|
                        0 <= i2 < order@.len() && 0 <= j2 < order@.len() && order@[i2]
                            == c.source.node_key && order@[j2] == snk implies i2 < j2 by {
                        assert(order@.take(j2).contains(
                            self.inc_at(order@[j2].index as int)[e5].source.node_key,
                        ));
                        let q2 = choose|q2: int|
                            0 <= q2 < j2 && order@.take(j2)[q2] == c.source.node_key;
                        assert(order@[q2] == c.source.node_key);
                        assert(i2 == q2);
                    }
                }
                assert(is_topo_over(order@, *self));
                assert(order@ == kahn_order(*self)) by {
                    assert(kahn_run(*self, order@, p as int) == order@);
                }
            }
            let result = copy_keys(&order);
            let ghost gpre = *self;
            self.topo_sorted = order;
            self.topo_valid = true;
            proof {
                lemma_model_eq_is_topo(gpre, *self, self.topo_sorted@);
                lemma_cache_update_wf(gpre, *self);
                assert(admits_topo(*self));
                assert forall|k: NodeKey| #![auto]
                    gpre.in_edges(k) == self.in_edges(k) by {}
                assert forall|k: NodeKey| #![auto]
                    gpre.out_edges(k) == self.out_edges(k) by {}
                lemma_kahn_order_congruence(gpre, *self);
            }
            Ok(result)
        } else {
            let ghost gpre = *self;
            self.topo_sorted = order;
            self.topo_valid = false;
            proof {
                lemma_cache_update_wf(gpre, *self);
                assert forall|k: NodeKey| #![auto]
                    self.is_live(k) && count_pending(self.in_edges(k), self.topo_sorted@)
                        == 0 implies self.topo_sorted@.contains(k) by {
                    assert(gpre.in_edges(k) == self.in_edges(k));
                    assert(gpre.is_live(k));
                }
                lemma_live_key_seq_bound(*self, self.topo_sorted@);
                assert(self.topo_sorted@.len() < self.node_count());
                assert(!admits_topo(*self)) by {
                    if admits_topo(*self) {
                        let w = choose|w: Seq<NodeKey>| is_topo_over(w, *self);
                        assert forall|k: NodeKey| #![auto]
                            self.is_live(k) implies self.topo_sorted@.contains(k) by {
                            assert(w.contains(k));
                            let q = choose|q: int| 0 <= q < w.len() && w[q] == k;
                            lemma_witness_all_done(*self, self.topo_sorted@, w, q);
                        }
                        let idxs = self.topo_sorted@.map_values(|kk: NodeKey| kk.index as int);
                        lemma_live_idx_card(self.slots());
                        assert(live_idx_set(self.slots()).subset_of(idxs.to_set())) by {
                            assert forall|x: int|
                                live_idx_set(self.slots()).contains(x) implies idxs.to_set()
                                .contains(x) by {
                                let kx = NodeKey { index: x as usize };
                                assert(self.is_live(kx));
                                assert(self.topo_sorted@.contains(kx));
                                let q = choose|q: int|
                                    0 <= q < self.topo_sorted@.len() && self.topo_sorted@[q]
                                        == kx;
                                assert(idxs[q] == x);
                                assert(idxs.contains(x));
                            }
                        }
                        broadcast use vstd::seq_lib::seq_to_set_is_finite;

                        lemma_len_subset(live_idx_set(self.slots()), idxs.to_set());
                        idxs.lemma_cardinality_of_set();
                        assert(idxs.to_set().len() <= idxs.len());
                        assert(false);
                    }
                }
            }
            Err(GraphError::CycleDetected)
        }
    }
}

/// An element-for-element copy of a key list.
fn copy_keys(src: &Vec<NodeKey>) -> (r: Vec<NodeKey>)
    ensures
        r@ == src@,
{
    let mut r: Vec<NodeKey> = Vec::new();
    let mut i: usize = 0;
    let n = src.len();
    while i < n
        invariant
            i <= n,
            n == src@.len(),
            r@ == src@.take(i as int),
        decreases n - i,
    {
        r.push(src[i]);
        proof {
            assert(r@ =~= src@.take(i as int + 1));
        }
        i = i + 1;
    }
    proof {
        assert(src@.take(n as int) =~= src@);
    }
    r
}


proof fn lemma_filter_all_keep<A>(s: Seq<A>, pred: spec_fn(A) -> bool)
    requires
        forall|q: int| 0 <= q < s.len() ==> pred(#[trigger] s[q]),
    ensures
        s.filter(pred) == s,
    decreases s.len(),
{
    reveal(Seq::filter);
    if s.len() > 0 {
        assert forall|q: int| 0 <= q < s.drop_last().len() implies pred(
            #[trigger] s.drop_last()[q],
        ) by {
            assert(s.drop_last()[q] == s[q]);
        }
        lemma_filter_all_keep(s.drop_last(), pred);
        assert(pred(s.last()));
        assert(s.drop_last().push(s.last()) =~= s);
    }
}

proof fn lemma_filter_equiv<A>(s: Seq<A>, p1: spec_fn(A) -> bool, p2: spec_fn(A) -> bool)
    requires
        forall|q: int| 0 <= q < s.len() ==> (p1(#[trigger] s[q]) <==> p2(s[q])),
    ensures
        s.filter(p1) == s.filter(p2),
    decreases s.len(),
{
    reveal(Seq::filter);
    if s.len() > 0 {
        assert forall|q: int|
            0 <= q < s.drop_last().len() implies (p1(#[trigger] s.drop_last()[q]) <==> p2(
            s.drop_last()[q],
        )) by {
            assert(s.drop_last()[q] == s[q]);
        }
        lemma_filter_equiv(s.drop_last(), p1, p2);
        assert(p1(s.last()) <==> p2(s.last()));
    }
}

proof fn lemma_filter_filter<A>(s: Seq<A>, p1: spec_fn(A) -> bool, p2: spec_fn(A) -> bool)
    ensures
        s.filter(p1).filter(p2) == s.filter(pred_and(p1, p2)),
    decreases s.len(),
{
    reveal(Seq::filter);
    if s.len() > 0 {
        lemma_filter_filter(s.drop_last(), p1, p2);
        if p1(s.last()) && p2(s.last()) {
            assert(s.filter(p1).drop_last() =~= s.drop_last().filter(p1));
            assert(s.filter(p1).last() == s.last());
        } else if p1(s.last()) {
            assert(s.filter(p1).drop_last() =~= s.drop_last().filter(p1));
            assert(s.filter(p1).last() == s.last());
        }
    }
}

/// Removing the only occurrence of a value from a duplicate-free sequence
/// is the same as filtering the value out.
proof fn lemma_remove_eq_filter<A>(s: Seq<A>, i: int)
    requires
        s.no_duplicates(),
        0 <= i < s.len(),
    ensures
        s.remove(i) == s.filter(|x: A| x != s[i]),
{
    let c = s[i];
    let pred = |x: A| x != c;
    let front = s.take(i);
    let mid = seq![c];
    let back = s.skip(i + 1);
    assert(s =~= front + mid + back);
    Seq::filter_distributes_over_add(front + mid, back, pred);
    Seq::filter_distributes_over_add(front, mid, pred);
    assert forall|q: int| 0 <= q < front.len() implies pred(#[trigger] front[q]) by {
        assert(front[q] == s[q]);
        assert(s[q] != s[i]);
    }
    lemma_filter_all_keep(front, pred);
    assert forall|q: int| 0 <= q < back.len() implies pred(#[trigger] back[q]) by {
        assert(back[q] == s[q + i + 1]);
        assert(s[q + i + 1] != s[i]);
    }
    lemma_filter_all_keep(back, pred);
    assert(mid.filter(pred) =~= Seq::<A>::empty()) by {
        reveal(Seq::filter);
        assert(mid.drop_last() =~= Seq::<A>::empty());
        assert(Seq::<A>::empty().filter(pred) =~= Seq::<A>::empty());
        assert(mid.drop_last().filter(pred) =~= Seq::<A>::empty());
        assert(!pred(mid.last()));
    }
    assert((front + mid).filter(pred) + back.filter(pred) =~= front + back);
    assert(s.filter(pred) == ((front + mid) + back).filter(pred)) by {
        assert(s == (front + mid) + back);
    }
    assert(s.remove(i) =~= front + back);
}

/// Whether the exact wire is in the list.
fn connection_list_contains(list: &Vec<Connection>, c: Connection) -> (r: bool)
    ensures
        r == list@.contains(c),
{
    let n = list.len();
    let mut i: usize = 0;
    while i < n
        invariant
            i <= n,
            n == list@.len(),
            forall|q: int| 0 <= q < i ==> list@[q] != c,
        decreases n - i,
    {
        if list[i] == c {
            assert(list@[i as int] == c);
            return true;
        }
        i = i + 1;
    }
    false
}

/// Remove the exact wire from a duplicate-free list, keeping the order of
/// the rest.
fn remove_connection(list: &mut Vec<Connection>, c: Connection) -> (found: bool)
    requires
        old(list)@.no_duplicates(),
    ensures
        found == old(list)@.contains(c),
        found ==> final(list)@ == old(list)@.filter(ne_to(c)),
        !found ==> *final(list) == *old(list),
        final(list)@.no_duplicates(),
{
    let n = list.len();
    let mut i: usize = 0;
    while i < n
        invariant
            i <= n,
            n == list@.len(),
            *list == *old(list),
            old(list)@.no_duplicates(),
            forall|q: int| 0 <= q < i ==> list@[q] != c,
        decreases n - i,
    {
        if list[i] == c {
            assert(list@[i as int] == c);
            list.remove(i);
            proof {
                lemma_remove_eq_filter(old(list)@, i as int);
                lemma_filter_equiv(
                    old(list)@,
                    |x: Connection| x != old(list)@[i as int],
                    ne_to(c),
                );
                lemma_filter_no_dup(old(list)@, ne_to(c));
            }
            return true;
        }
        i = i + 1;
    }
    false
}

/// Remove the first occurrence of a key from a list.
fn remove_key(list: &mut Vec<NodeKey>, key: NodeKey)
    ensures
        !old(list)@.contains(key) ==> *final(list) == *old(list),
        old(list)@.contains(key) ==> exists|pos: int|
            0 <= pos < old(list)@.len() && old(list)@[pos] == key && final(list)@ == old(
                list,
            )@.remove(pos) && (forall|q: int| 0 <= q < pos ==> old(list)@[q] != key),
{
    let n = list.len();
    let mut i: usize = 0;
    while i < n
        invariant
            i <= n,
            n == list@.len(),
            *list == *old(list),
            forall|q: int| 0 <= q < i ==> list@[q] != key,
        decreases n - i,
    {
        if list[i] == key {
            assert(list@[i as int] == key);
            list.remove(i);
            return ;
        }
        i = i + 1;
    }
}


impl<N> AudioGraph<N> {
    /// Wire a source endpoint to a sink endpoint.
    ///
    /// `BadConnection` exactly when an endpoint's node is missing, the two
    /// rates disagree, or another wire already enters the same sink port.
    /// Otherwise the wire is recorded (a wire already present is not
    /// duplicated) and the order is recomputed: the call returns the wire
    /// exactly when the graph is still acyclic, and `CycleDetected` — with
    /// the wire kept and the cached order marked invalid — when it is not.
    pub fn add_edge(&mut self, connection: Connection) -> (r: Result<Connection, GraphError>)
        requires
            old(self).wf(),
        ensures
            final(self).wf(),
            final(self).slots() == old(self).slots(),
            (r == Err::<Connection, GraphError>(GraphError::BadConnection)) <==> old(
                self,
            ).rejects_edge(connection),
            old(self).rejects_edge(connection) ==> *final(self) == *old(self),
            !old(self).rejects_edge(connection) ==> {
                &&& forall|k: NodeKey| #![auto] final(self).is_live(k) <==> old(self).is_live(k)
                &&& forall|k: NodeKey| #![auto]
                    old(self).is_live(k) ==> final(self).node_at(k) == old(self).node_at(k)
                &&& final(self).node_count() == old(self).node_count()
                &&& final(self).has_edge(connection)
                &&& forall|c2: Connection| #![auto]
                    c2 != connection ==> (final(self).has_edge(c2) <==> old(self).has_edge(c2))
                &&& (old(self).has_edge(connection) ==> forall|k: NodeKey| #![auto]
                    old(self).is_live(k) ==> final(self).in_edges(k) == old(self).in_edges(k)
                        && final(self).out_edges(k) == old(self).out_edges(k))
                &&& (!old(self).has_edge(connection) ==> {
                    &&& final(self).out_edges(connection.source.node_key) == old(self).out_edges(
                        connection.source.node_key,
                    ).push(connection)
                    &&& final(self).in_edges(connection.sink.node_key) == old(self).in_edges(
                        connection.sink.node_key,
                    ).push(connection)
                    &&& forall|k: NodeKey| #![auto]
                        old(self).is_live(k) && k != connection.source.node_key
                            ==> final(self).out_edges(k) == old(self).out_edges(k)
                    &&& forall|k: NodeKey| #![auto]
                        old(self).is_live(k) && k != connection.sink.node_key
                            ==> final(self).in_edges(k) == old(self).in_edges(k)
                })
                &&& ((r == Ok::<Connection, GraphError>(connection)) <==> admits_topo(
                    *final(self),
                ))
                &&& (r is Ok ==> final(self).topo_is_valid() && is_topo_over(
                    final(self).topo(),
                    *final(self),
                ) && final(self).topo() == kahn_order(*final(self)))
                &&& (r is Err ==> r == Err::<Connection, GraphError>(GraphError::CycleDetected)
                    && !final(self).topo_is_valid())
            },
    {
        let src = connection.source.node_key;
        let snk = connection.sink.node_key;
        if !(src.index < self.nodes.len() && self.nodes[src.index].is_some()) {
            return Err(GraphError::BadConnection);
        }
        if !(snk.index < self.nodes.len() && self.nodes[snk.index].is_some()) {
            return Err(GraphError::BadConnection);
        }
        if !rates_match(connection.source.port_rate, connection.sink.port_rate) {
            proof {
                assert(!self.edge_endpoints_ok(connection));
            }
            return Err(GraphError::BadConnection);
        }
        let sink_list_len = self.incoming[snk.index].len();
        let mut e: usize = 0;
        while e < sink_list_len
            invariant
                *self == *old(self),
                old(self).wf(),
                snk == connection.sink.node_key,
                self.is_live(snk),
                e <= sink_list_len,
                sink_list_len == self.in_edges(snk).len(),
                forall|q: int|
                    0 <= q < e ==> !((#[trigger] self.in_edges(snk)[q]) != connection
                        && self.in_edges(snk)[q].sink.port_index == connection.sink.port_index
                        && self.in_edges(snk)[q].sink.port_rate == connection.sink.port_rate),
            decreases sink_list_len - e,
        {
            let other = self.incoming[snk.index][e];
            if !(other == connection) && other.sink.port_index == connection.sink.port_index
                && rates_match(other.sink.port_rate, connection.sink.port_rate) {
                proof {
                    assert(self.in_edges(snk)[e as int] == other);
                    assert(self.sink_port_taken(connection));
                }
                return Err(GraphError::BadConnection);
            }
            e = e + 1;
        }
        proof {
            assert(!self.sink_port_taken(connection));
            assert(!self.rejects_edge(connection));
        }
        let already = connection_list_contains(&self.outgoing[src.index], connection);
        let ghost gpre = *self;
        if !already {
            proof {
                assert(!self.inc_at(snk.index as int).contains(connection)) by {
                    if self.inc_at(snk.index as int).contains(connection) {
                        let q = choose|q: int|
                            0 <= q < self.inc_at(snk.index as int).len() && self.inc_at(
                                snk.index as int,
                            )[q] == connection;
                        assert(self.out_at(
                            connection.source.node_key.index as int,
                        ).contains(connection));
                    }
                }
            }
            let out_list = &mut self.outgoing[src.index];
            out_list.push(connection);
            let in_list = &mut self.incoming[snk.index];
            in_list.push(connection);
        }
        self.topo_valid = false;
        proof {
            lemma_wf_after_edge_insert(gpre, *self, connection, already);
        }
        let sorted = self.invalidate_topo_sort();
        match sorted {
            Ok(_) => Ok(connection),
            Err(err) => {
                proof {
                    assert(err == GraphError::CycleDetected);
                }
                Err(err)
            },
        }
    }

    /// Remove the exact wire, from both adjacency sides.  `BadConnection`
    /// exactly when the wire is not in the graph; the cached order and its
    /// validity are untouched (an order stays valid when an edge goes).
    pub fn remove_edge(&mut self, connection: Connection) -> (r: Result<(), GraphError>)
        requires
            old(self).wf(),
        ensures
            final(self).wf(),
            final(self).slots() == old(self).slots(),
            r is Ok <==> old(self).has_edge(connection),
            !old(self).has_edge(connection) ==> r == Err::<(), GraphError>(
                GraphError::BadConnection,
            ) && *final(self) == *old(self),
            old(self).has_edge(connection) ==> {
                &&& forall|k: NodeKey| #![auto] final(self).is_live(k) <==> old(self).is_live(k)
                &&& forall|k: NodeKey| #![auto]
                    old(self).is_live(k) ==> final(self).node_at(k) == old(self).node_at(k)
                &&& final(self).node_count() == old(self).node_count()
                &&& !final(self).has_edge(connection)
                &&& forall|c2: Connection| #![auto]
                    c2 != connection ==> (final(self).has_edge(c2) <==> old(self).has_edge(c2))
                &&& final(self).out_edges(connection.source.node_key) == old(self).out_edges(
                    connection.source.node_key,
                ).filter(ne_to(connection))
                &&& final(self).in_edges(connection.sink.node_key) == old(self).in_edges(
                    connection.sink.node_key,
                ).filter(ne_to(connection))
                &&& forall|k: NodeKey| #![auto]
                    old(self).is_live(k) && k != connection.source.node_key
                        ==> final(self).out_edges(k) == old(self).out_edges(k)
                &&& forall|k: NodeKey| #![auto]
                    old(self).is_live(k) && k != connection.sink.node_key
                        ==> final(self).in_edges(k) == old(self).in_edges(k)
                &&& final(self).topo_is_valid() <==> admits_topo(*final(self))
                &&& (final(self).topo_is_valid() ==> final(self).topo() == kahn_order(
                    *final(self),
                ))
            },
    {
        let src = connection.source.node_key;
        let snk = connection.sink.node_key;
        if !(src.index < self.nodes.len() && self.nodes[src.index].is_some()) {
            return Err(GraphError::BadConnection);
        }
        let present = connection_list_contains(&self.outgoing[src.index], connection);
        if !present {
            return Err(GraphError::BadConnection);
        }
        proof {
            assert(old(self).has_edge(connection));
            assert(self.inc_at(snk.index as int).contains(connection));
        }
        let ghost gpre = *self;
        let out_list = &mut self.outgoing[src.index];
        let _ = remove_connection(out_list, connection);
        let in_list = &mut self.incoming[snk.index];
        let _ = remove_connection(in_list, connection);
        proof {
            lemma_wf_after_edge_remove(gpre, *self, connection);
        }
        let ghost gmid = *self;
        let _ = self.invalidate_topo_sort();
        proof {
            assert forall|k: NodeKey| #![auto]
                final(self).is_live(k) <==> old(self).is_live(k) by {
                assert(self.is_live(k) <==> gmid.is_live(k));
                assert(gmid.is_live(k) <==> gpre.is_live(k));
            }
            assert forall|k: NodeKey| #![auto]
                old(self).is_live(k) implies self.node_at(k) == old(self).node_at(k) by {
                assert(gmid.is_live(k));
                assert(gmid.node_at(k) == old(self).node_at(k));
            }
            assert(!self.has_edge(connection)) by {
                assert(self.has_edge(connection) <==> gmid.has_edge(connection));
            }
            assert forall|c2: Connection| #![auto]
                c2 != connection implies (self.has_edge(c2) <==> old(self).has_edge(c2)) by {
                assert(self.has_edge(c2) <==> gmid.has_edge(c2));
            }
            assert(self.out_edges(connection.source.node_key) == old(self).out_edges(
                connection.source.node_key,
            ).filter(ne_to(connection))) by {
                assert(gmid.is_live(connection.source.node_key));
                assert(self.out_edges(connection.source.node_key) == gmid.out_edges(
                    connection.source.node_key,
                ));
            }
            assert(self.in_edges(connection.sink.node_key) == old(self).in_edges(
                connection.sink.node_key,
            ).filter(ne_to(connection))) by {
                assert(gmid.is_live(connection.sink.node_key));
                assert(self.in_edges(connection.sink.node_key) == gmid.in_edges(
                    connection.sink.node_key,
                ));
            }
            assert forall|k: NodeKey| #![auto]
                old(self).is_live(k) && k != connection.source.node_key implies self.out_edges(k)
                == old(self).out_edges(k) by {
                assert(gmid.is_live(k));
                assert(self.out_edges(k) == gmid.out_edges(k));
            }
            assert forall|k: NodeKey| #![auto]
                old(self).is_live(k) && k != connection.sink.node_key implies self.in_edges(k)
                == old(self).in_edges(k) by {
                assert(gmid.is_live(k));
                assert(self.in_edges(k) == gmid.in_edges(k));
            }
        }
        Ok(())
    }
}

/// Exact comparison of two rate tags.
fn rates_match(a: PortRate, b: PortRate) -> (r: bool)
    ensures
        r == (a == b),
{
    match (a, b) {
        (PortRate::Audio, PortRate::Audio) => true,
        (PortRate::Control, PortRate::Control) => true,
        _ => false,
    }
}

/// Inserting a wire that passes the endpoint, rate, and sink-port checks
/// preserves the structural invariant (with the cache marked invalid).
proof fn lemma_wf_after_edge_insert<N>(
    g1: AudioGraph<N>,
    g2: AudioGraph<N>,
    c: Connection,
    already: bool,
)
    requires
        g1.wf(),
        g1.edge_endpoints_ok(c),
        !g1.sink_port_taken(c),
        already == g1.out_at(c.source.node_key.index as int).contains(c),
        g2.nodes == g1.nodes,
        g2.live_count == g1.live_count,
        g2.topo_valid == false,
        already ==> g2.incoming == g1.incoming && g2.outgoing == g1.outgoing,
        !already ==> {
            &&& g2.incoming@ == g1.incoming@.update(
                c.sink.node_key.index as int,
                g1.incoming@[c.sink.node_key.index as int],
            ) || true
            &&& g2.incoming@.len() == g1.incoming@.len()
            &&& g2.outgoing@.len() == g1.outgoing@.len()
            &&& g2.out_at(c.source.node_key.index as int) == g1.out_at(
                c.source.node_key.index as int,
            ).push(c)
            &&& g2.inc_at(c.sink.node_key.index as int) == g1.inc_at(
                c.sink.node_key.index as int,
            ).push(c)
            &&& forall|i: int|
                0 <= i < g1.slot_len() && i != c.source.node_key.index ==> (#[trigger] g2.out_at(
                    i,
                )) == g1.out_at(i)
            &&& forall|i: int|
                0 <= i < g1.slot_len() && i != c.sink.node_key.index ==> (#[trigger] g2.inc_at(i))
                    == g1.inc_at(i)
            &&& !g1.inc_at(c.sink.node_key.index as int).contains(c)
        },
    ensures
        g2.wf(),
        g2.has_edge(c),
        g2.node_count() == g1.node_count(),
        forall|k: NodeKey| #![auto] g2.is_live(k) <==> g1.is_live(k),
        forall|k: NodeKey| #![auto] g1.is_live(k) ==> g2.node_at(k) == g1.node_at(k),
        forall|c2: Connection| #![auto] c2 != c ==> (g2.has_edge(c2) <==> g1.has_edge(c2)),
{
    let si = c.source.node_key.index as int;
    let ti = c.sink.node_key.index as int;
    if already {
        assert forall|i: int|
            0 <= i < g2.slot_len() implies (#[trigger] g2.out_at(i)) == g1.out_at(i) && (
        #[trigger] g2.inc_at(i)) == g1.inc_at(i) by {}
        lemma_cache_update_wf(g1, g2);
        assert(g2.has_edge(c)) by {
            assert(g2.out_at(si) == g1.out_at(si));
        }
    } else {
        assert forall|i: int|
            0 <= i < g2.slot_len() implies (#[trigger] g2.out_at(i)).no_duplicates() by {
            if i == si {
                lemma_push_no_dup(g1.out_at(si), c);
            } else {
                assert(g2.out_at(i) == g1.out_at(i));
            }
        }
        assert forall|i: int|
            0 <= i < g2.slot_len() implies (#[trigger] g2.inc_at(i)).no_duplicates() by {
            if i == ti {
                lemma_push_no_dup(g1.inc_at(ti), c);
            } else {
                assert(g2.inc_at(i) == g1.inc_at(i));
            }
        }
        assert forall|i: int, e: int|
            0 <= i < g2.slot_len() && 0 <= e < g2.out_at(i).len() implies {
            let c2 = #[trigger] g2.out_at(i)[e];
            &&& c2.source.node_key.index == i
            &&& g2.edge_endpoints_ok(c2)
            &&& g2.inc_at(c2.sink.node_key.index as int).contains(c2)
        } by {
            if i == si && e == g2.out_at(i).len() - 1 {
                assert(g2.out_at(i)[e] == c);
                assert(g2.inc_at(ti)[g2.inc_at(ti).len() - 1] == c);
                assert(g2.inc_at(ti).contains(c));
            } else {
                let c2 = if i == si {
                    g1.out_at(i)[e]
                } else {
                    g1.out_at(i)[e]
                };
                assert(g2.out_at(i)[e] == c2);
                assert(g1.edge_endpoints_ok(c2));
                let t2 = c2.sink.node_key.index as int;
                assert(g1.inc_at(t2).contains(c2));
                if t2 == ti {
                    let q = choose|q: int| 0 <= q < g1.inc_at(t2).len() && g1.inc_at(t2)[q] == c2;
                    assert(g2.inc_at(t2)[q] == c2);
                } else {
                    assert(g2.inc_at(t2) == g1.inc_at(t2));
                }
            }
        }
        assert forall|i: int, e: int|
            0 <= i < g2.slot_len() && 0 <= e < g2.inc_at(i).len() implies {
            let c2 = #[trigger] g2.inc_at(i)[e];
            &&& c2.sink.node_key.index == i
            &&& g2.edge_endpoints_ok(c2)
            &&& g2.out_at(c2.source.node_key.index as int).contains(c2)
        } by {
            if i == ti && e == g2.inc_at(i).len() - 1 {
                assert(g2.inc_at(i)[e] == c);
                assert(g2.out_at(si)[g2.out_at(si).len() - 1] == c);
                assert(g2.out_at(si).contains(c));
            } else {
                let c2 = g1.inc_at(i)[e];
                assert(g2.inc_at(i)[e] == c2);
                assert(g1.edge_endpoints_ok(c2));
                let s2 = c2.source.node_key.index as int;
                assert(g1.out_at(s2).contains(c2));
                if s2 == si {
                    let q = choose|q: int| 0 <= q < g1.out_at(s2).len() && g1.out_at(s2)[q] == c2;
                    assert(g2.out_at(s2)[q] == c2);
                } else {
                    assert(g2.out_at(s2) == g1.out_at(s2));
                }
            }
        }
        assert forall|i: int|
            0 <= i < g2.slot_len() && !g2.live_at(i) implies (#[trigger] g2.out_at(i)).len() == 0
            && g2.inc_at(i).len() == 0 by {
            assert(!g1.live_at(i));
            assert(i != si && i != ti);
            assert(g2.out_at(i) == g1.out_at(i));
            assert(g2.inc_at(i) == g1.inc_at(i));
        }
        assert forall|i: int, e1: int, e2: int|
            0 <= i < g2.slot_len() && 0 <= e1 < e2 < g2.inc_at(i).len() implies !((#[trigger] g2
            .inc_at(i)[e1]).sink.port_index == (#[trigger] g2.inc_at(i)[e2]).sink.port_index
            && g2.inc_at(i)[e1].sink.port_rate == g2.inc_at(i)[e2].sink.port_rate) by {
            if i == ti {
                if e2 == g2.inc_at(i).len() - 1 {
                    assert(g2.inc_at(i)[e2] == c);
                    assert(g2.inc_at(i)[e1] == g1.inc_at(i)[e1]);
                    assert(g1.inc_at(ti)[e1] != c) by {
                        if g1.inc_at(ti)[e1] == c {
                            assert(g1.inc_at(ti).contains(c));
                        }
                    }
                } else {
                    assert(g2.inc_at(i)[e1] == g1.inc_at(i)[e1]);
                    assert(g2.inc_at(i)[e2] == g1.inc_at(i)[e2]);
                }
            } else {
                assert(g2.inc_at(i) == g1.inc_at(i));
            }
        }
        assert(g2.has_edge(c)) by {
            assert(g2.out_at(si)[g2.out_at(si).len() - 1] == c);
        }
        assert forall|c2: Connection| #![auto]
            c2 != c implies (g2.has_edge(c2) <==> g1.has_edge(c2)) by {
            let s2 = c2.source.node_key.index as int;
            if 0 <= s2 < g1.slot_len() {
                if s2 == si {
                    if g1.out_at(s2).contains(c2) {
                        let q = choose|q: int|
                            0 <= q < g1.out_at(s2).len() && g1.out_at(s2)[q] == c2;
                        assert(g2.out_at(s2)[q] == c2);
                    }
                    if g2.out_at(s2).contains(c2) {
                        let q = choose|q: int|
                            0 <= q < g2.out_at(s2).len() && g2.out_at(s2)[q] == c2;
                        assert(q < g1.out_at(s2).len());
                        assert(g1.out_at(s2)[q] == c2);
                    }
                } else {
                    assert(g2.out_at(s2) == g1.out_at(s2));
                }
            }
        }
    }
}

/// Removing a wire from both sides preserves the structural invariant and
/// keeps a valid cached order valid.
proof fn lemma_wf_after_edge_remove<N>(g1: AudioGraph<N>, g2: AudioGraph<N>, c: Connection)
    requires
        g1.wf(),
        g1.has_edge(c),
        g2.nodes == g1.nodes,
        g2.live_count == g1.live_count,
        g2.topo_sorted == g1.topo_sorted,
        g2.topo_valid == g1.topo_valid,
        g2.incoming@.len() == g1.incoming@.len(),
        g2.outgoing@.len() == g1.outgoing@.len(),
        g2.out_at(c.source.node_key.index as int) == g1.out_at(
            c.source.node_key.index as int,
        ).filter(ne_to(c)),
        g2.inc_at(c.sink.node_key.index as int) == g1.inc_at(
            c.sink.node_key.index as int,
        ).filter(ne_to(c)),
        forall|i: int|
            0 <= i < g1.slot_len() && i != c.source.node_key.index ==> (#[trigger] g2.out_at(i))
                == g1.out_at(i),
        forall|i: int|
            0 <= i < g1.slot_len() && i != c.sink.node_key.index ==> (#[trigger] g2.inc_at(i))
                == g1.inc_at(i),
    ensures
        g2.wf(),
        !g2.has_edge(c),
        g2.node_count() == g1.node_count(),
        forall|k: NodeKey| #![auto] g2.is_live(k) <==> g1.is_live(k),
        forall|k: NodeKey| #![auto] g1.is_live(k) ==> g2.node_at(k) == g1.node_at(k),
        forall|c2: Connection| #![auto] c2 != c ==> (g2.has_edge(c2) <==> g1.has_edge(c2)),
{
    let si = c.source.node_key.index as int;
    let ti = c.sink.node_key.index as int;
    let pred = ne_to(c);
    lemma_filter_no_dup(g1.out_at(si), pred);
    lemma_filter_no_dup(g1.inc_at(ti), pred);
    assert forall|i: int|
        0 <= i < g2.slot_len() implies (#[trigger] g2.out_at(i)).no_duplicates() by {
        if i != si {
            assert(g2.out_at(i) == g1.out_at(i));
        }
    }
    assert forall|i: int|
        0 <= i < g2.slot_len() implies (#[trigger] g2.inc_at(i)).no_duplicates() by {
        if i != ti {
            assert(g2.inc_at(i) == g1.inc_at(i));
        }
    }
    assert forall|x: Connection| #![auto]
        g2.out_at(si).contains(x) <==> (g1.out_at(si).contains(x) && x != c) by {
        if g2.out_at(si).contains(x) {
            lemma_filter_subset(g1.out_at(si), pred, x);
        }
        if g1.out_at(si).contains(x) && x != c {
            lemma_filter_member(g1.out_at(si), pred, x);
        }
    }
    assert forall|x: Connection| #![auto]
        g2.inc_at(ti).contains(x) <==> (g1.inc_at(ti).contains(x) && x != c) by {
        if g2.inc_at(ti).contains(x) {
            lemma_filter_subset(g1.inc_at(ti), pred, x);
        }
        if g1.inc_at(ti).contains(x) && x != c {
            lemma_filter_member(g1.inc_at(ti), pred, x);
        }
    }
    assert forall|i: int, e: int|
        0 <= i < g2.slot_len() && 0 <= e < g2.out_at(i).len() implies {
        let c2 = #[trigger] g2.out_at(i)[e];
        &&& c2.source.node_key.index == i
        &&& g2.edge_endpoints_ok(c2)
        &&& g2.inc_at(c2.sink.node_key.index as int).contains(c2)
    } by {
        let c2 = g2.out_at(i)[e];
        assert(g2.out_at(i).contains(c2));
        assert(g1.out_at(i).contains(c2) && (i == si ==> c2 != c)) by {
            if i == si {
            } else {
                assert(g2.out_at(i) == g1.out_at(i));
            }
        }
        let q = choose|q: int| 0 <= q < g1.out_at(i).len() && g1.out_at(i)[q] == c2;
        assert(g1.edge_endpoints_ok(c2));
        assert(c2 != c) by {
            if c2 == c {
                if i != si {
                    assert(g1.out_at(i)[q] == c);
                    assert(c.source.node_key.index == i);
                }
            }
        }
        let t2 = c2.sink.node_key.index as int;
        assert(g1.inc_at(t2).contains(c2));
        if t2 == ti {
            assert(g2.inc_at(t2).contains(c2));
        } else {
            assert(g2.inc_at(t2) == g1.inc_at(t2));
        }
    }
    assert forall|i: int, e: int|
        0 <= i < g2.slot_len() && 0 <= e < g2.inc_at(i).len() implies {
        let c2 = #[trigger] g2.inc_at(i)[e];
        &&& c2.sink.node_key.index == i
        &&& g2.edge_endpoints_ok(c2)
        &&& g2.out_at(c2.source.node_key.index as int).contains(c2)
    } by {
        let c2 = g2.inc_at(i)[e];
        assert(g2.inc_at(i).contains(c2));
        assert(g1.inc_at(i).contains(c2) && (i == ti ==> c2 != c)) by {
            if i == ti {
            } else {
                assert(g2.inc_at(i) == g1.inc_at(i));
            }
        }
        let q = choose|q: int| 0 <= q < g1.inc_at(i).len() && g1.inc_at(i)[q] == c2;
        assert(g1.edge_endpoints_ok(c2));
        assert(c2 != c) by {
            if c2 == c {
                if i != ti {
                    assert(g1.inc_at(i)[q] == c);
                    assert(c.sink.node_key.index == i);
                }
            }
        }
        let s2 = c2.source.node_key.index as int;
        assert(g1.out_at(s2).contains(c2));
        if s2 == si {
            assert(g2.out_at(s2).contains(c2));
        } else {
            assert(g2.out_at(s2) == g1.out_at(s2));
        }
    }
    assert forall|i: int|
        0 <= i < g2.slot_len() && !g2.live_at(i) implies (#[trigger] g2.out_at(i)).len() == 0
        && g2.inc_at(i).len() == 0 by {
        assert(!g1.live_at(i));
        assert(i != si && i != ti);
        assert(g2.out_at(i) == g1.out_at(i));
        assert(g2.inc_at(i) == g1.inc_at(i));
    }
    assert forall|i: int, e1: int, e2: int|
        0 <= i < g2.slot_len() && 0 <= e1 < e2 < g2.inc_at(i).len() implies !((#[trigger] g2
        .inc_at(i)[e1]).sink.port_index == (#[trigger] g2.inc_at(i)[e2]).sink.port_index
        && g2.inc_at(i)[e1].sink.port_rate == g2.inc_at(i)[e2].sink.port_rate) by {
        if i == ti {
            let x1 = g2.inc_at(i)[e1];
            let x2 = g2.inc_at(i)[e2];
            assert(g2.inc_at(i).contains(x1));
            assert(g2.inc_at(i).contains(x2));
            let q1 = choose|q: int| 0 <= q < g1.inc_at(i).len() && g1.inc_at(i)[q] == x1;
            let q2 = choose|q: int| 0 <= q < g1.inc_at(i).len() && g1.inc_at(i)[q] == x2;
            assert(x1 != x2) by {
                assert(g2.inc_at(i).no_duplicates());
            }
            assert(q1 != q2);
            if q1 < q2 {
            } else {
            }
        } else {
            assert(g2.inc_at(i) == g1.inc_at(i));
        }
    }
    if g2.topo_valid {
        assert(is_topo_over(g1.topo_sorted@, g1));
        assert forall|k: NodeKey| #![auto] g2.is_live(k) <==> g2.topo_sorted@.contains(k) by {
            assert(g2.is_live(k) <==> g1.is_live(k));
        }
        assert forall|c2: Connection| #[trigger] g2.has_edge(c2) implies edge_respected(
            g2.topo_sorted@,
            c2,
        ) by {
            let s2 = c2.source.node_key.index as int;
            assert(g2.out_at(s2).contains(c2));
            if s2 == si {
                lemma_filter_subset(g1.out_at(si), pred, c2);
            } else {
                assert(g2.out_at(s2) == g1.out_at(s2));
            }
            assert(g1.has_edge(c2));
        }
    }
    assert(!g2.has_edge(c));
    assert forall|c2: Connection| #![auto]
        c2 != c implies (g2.has_edge(c2) <==> g1.has_edge(c2)) by {
        let s2 = c2.source.node_key.index as int;
        if 0 <= s2 < g1.slot_len() {
            if s2 == si {
            } else {
                assert(g2.out_at(s2) == g1.out_at(s2));
            }
        }
    }
}


impl<N> AudioGraph<N> {
    /// Remove a node and every wire incident to it, from both sides.
    /// Returns the node, or `None` for a key that names nothing.  A valid
    /// cached order stays valid with the node taken out of it.
    pub fn remove_node(&mut self, key: NodeKey) -> (r: Option<N>)
        requires
            old(self).wf(),
        ensures
            final(self).wf(),
            final(self).slot_len() == old(self).slot_len(),
            !old(self).is_live(key) ==> r is None && *final(self) == *old(self),
            old(self).is_live(key) ==> {
                &&& r == Some(old(self).node_at(key))
                &&& forall|k: NodeKey| #![auto]
                    final(self).is_live(k) <==> (old(self).is_live(k) && k != key)
                &&& final(self).node_count() == old(self).node_count() - 1
                &&& forall|k: NodeKey| #![auto]
                    old(self).is_live(k) && k != key
                        ==> final(self).node_at(k) == old(self).node_at(k)
                &&& forall|k: NodeKey| #![auto]
                    old(self).is_live(k) && k != key
                        ==> final(self).in_edges(k) == old(self).in_edges(k).filter(
                        edge_not_from(key),
                    ) && final(self).out_edges(k) == old(self).out_edges(k).filter(
                        edge_not_into(key),
                    )
                &&& forall|c2: Connection| #![auto]
                    final(self).has_edge(c2) <==> (old(self).has_edge(c2) && c2.source.node_key
                        != key && c2.sink.node_key != key)
                &&& final(self).topo_is_valid() <==> admits_topo(*final(self))
                &&& (final(self).topo_is_valid() ==> final(self).topo() == kahn_order(
                    *final(self),
                ))
            },
    {
        if !(key.index < self.nodes.len() && self.nodes[key.index].is_some()) {
            return None;
        }
        let i = key.index;
        let ghost g0 = *self;
        let slot = &mut self.nodes[i];
        let node = slot.take();
        proof {
            assert(self.nodes@ =~= g0.nodes@.update(i as int, None::<N>));
            lemma_count_live_update(g0.nodes@, i as int, None::<N>);
        }
        self.live_count = self.live_count - 1;
        let mut outs: Vec<Connection> = Vec::new();
        let out_slot = &mut self.outgoing[i];
        core::mem::swap(&mut outs, out_slot);
        let mut incs: Vec<Connection> = Vec::new();
        let in_slot = &mut self.incoming[i];
        core::mem::swap(&mut incs, in_slot);
        proof {
            assert(outs@ == g0.out_at(i as int));
            assert(incs@ == g0.inc_at(i as int));
            assert(outs@.take(0) =~= Seq::<Connection>::empty());
            assert forall|j: int|
                0 <= j < g0.slot_len() && j != i implies (#[trigger] self.inc_at(j)) == g0.inc_at(
                j,
            ).filter(edge_not_in(outs@.take(0))) by {
                lemma_filter_all_keep(g0.inc_at(j), edge_not_in(outs@.take(0)));
                assert(self.inc_at(j) == g0.inc_at(j));
            }
        }
        let m = outs.len();
        let mut e: usize = 0;
        while e < m
            invariant
                g0.wf(),
                g0.is_live(key),
                i == key.index,
                e <= m,
                outs@ == g0.out_at(i as int),
                incs@ == g0.inc_at(i as int),
                m == outs@.len(),
                self.nodes@ == g0.nodes@.update(i as int, None::<N>),
                self.live_count == g0.live_count - 1,
                self.topo_sorted == g0.topo_sorted,
                self.topo_valid == g0.topo_valid,
                self.incoming@.len() == g0.incoming@.len(),
                self.outgoing@.len() == g0.outgoing@.len(),
                self.out_at(i as int).len() == 0,
                self.inc_at(i as int).len() == 0,
                forall|j: int|
                    0 <= j < g0.slot_len() && j != i ==> (#[trigger] self.out_at(j)) == g0.out_at(
                        j,
                    ),
                forall|j: int|
                    0 <= j < g0.slot_len() && j != i ==> (#[trigger] self.inc_at(j)) == g0.inc_at(
                        j,
                    ).filter(edge_not_in(outs@.take(e as int))),
            decreases m - e,
        {
            let c = outs[e];
            let ghost epre = e as int;
            let ghost self_pre = *self;
            proof {
                assert(g0.out_at(i as int)[epre] == c);
                assert(c.source.node_key.index == i);
                assert(g0.edge_endpoints_ok(c));
                assert(g0.inc_at(c.sink.node_key.index as int).contains(c));
            }
            let jj = c.sink.node_key.index;
            let ghost target_pre = self.inc_at(jj as int);
            proof {
                assert(jj < self.incoming@.len());
                if jj != i {
                    lemma_filter_no_dup(g0.inc_at(jj as int), edge_not_in(outs@.take(epre)));
                    assert(target_pre.no_duplicates());
                } else {
                    assert(target_pre.len() == 0);
                }
            }
            let target = &mut self.incoming[jj];
            let _ = remove_connection(target, c);
            proof {
                lemma_take_step(outs@, epre);
                assert forall|j: int|
                    0 <= j < g0.slot_len() && j != i implies (#[trigger] self.inc_at(j)) == g0
                    .inc_at(j).filter(edge_not_in(outs@.take(epre + 1))) by {
                    let pold = edge_not_in(outs@.take(epre));
                    let pnew = edge_not_in(outs@.take(epre + 1));
                    assert(self_pre.inc_at(j) == g0.inc_at(j).filter(pold));
                    assert forall|q: int|
                        0 <= q < g0.inc_at(j).len() implies ((pold(#[trigger] g0.inc_at(j)[q])
                        && g0.inc_at(j)[q] != c) <==> pnew(g0.inc_at(j)[q])) by {
                        lemma_seq_contains_push(outs@.take(epre), c, g0.inc_at(j)[q]);
                    }
                    if j == jj {
                        assert(target_pre == g0.inc_at(j).filter(pold));
                        assert(target_pre.contains(c)) by {
                            assert(!outs@.take(epre).contains(c)) by {
                                if outs@.take(epre).contains(c) {
                                    let q = choose|q: int|
                                        0 <= q < epre && outs@.take(epre)[q] == c;
                                    assert(outs@[q] == outs@[epre]);
                                    assert(g0.out_at(i as int).no_duplicates());
                                }
                            }
                            lemma_filter_member(g0.inc_at(j), pold, c);
                        }
                        assert(self.inc_at(j) == target_pre.filter(ne_to(c)));
                        lemma_filter_filter(g0.inc_at(j), pold, ne_to(c));
                        assert forall|q: int|
                            0 <= q < g0.inc_at(j).len() implies (pred_and(pold, ne_to(c))(
                            #[trigger] g0.inc_at(j)[q],
                        ) <==> pnew(g0.inc_at(j)[q])) by {
                            assert(pred_and(pold, ne_to(c))(g0.inc_at(j)[q]) == (pold(
                                g0.inc_at(j)[q],
                            ) && g0.inc_at(j)[q] != c));
                        }
                        lemma_filter_equiv(g0.inc_at(j), pred_and(pold, ne_to(c)), pnew);
                    } else {
                        assert(self.inc_at(j) == self_pre.inc_at(j));
                        assert forall|q: int|
                            0 <= q < g0.inc_at(j).len() implies (pold(
                            #[trigger] g0.inc_at(j)[q],
                        ) <==> pnew(g0.inc_at(j)[q])) by {
                            assert(g0.inc_at(j)[q].sink.node_key.index == j);
                            assert(g0.inc_at(j)[q] != c);
                        }
                        lemma_filter_equiv(g0.inc_at(j), pold, pnew);
                    }
                }
                assert forall|j: int|
                    0 <= j < g0.slot_len() && j != i implies (#[trigger] self.out_at(j)) == g0
                    .out_at(j) by {
                    assert(self_pre.out_at(j) == g0.out_at(j));
                    assert(self.out_at(j) == self_pre.out_at(j));
                }
                assert(self.out_at(i as int).len() == 0) by {
                    assert(self.out_at(i as int) == self_pre.out_at(i as int));
                }
                assert(self.inc_at(i as int).len() == 0) by {
                    if jj == i {
                        assert(self.inc_at(i as int) == target_pre);
                    } else {
                        assert(self.inc_at(i as int) == self_pre.inc_at(i as int));
                    }
                }
            }
            e = e + 1;
        }
        proof {
            assert(outs@.take(m as int) =~= outs@);
            assert forall|j: int|
                0 <= j < g0.slot_len() && j != i implies (#[trigger] self.inc_at(j)) == g0.inc_at(
                j,
            ).filter(edge_not_from(key)) by {
                let pfull = edge_not_in(outs@);
                let psrc = edge_not_from(key);
                assert(self.inc_at(j) == g0.inc_at(j).filter(pfull)) by {
                    assert(outs@.take(m as int) == outs@);
                    assert(edge_not_in(outs@.take(m as int)) == pfull);
                }
                assert forall|q: int|
                    0 <= q < g0.inc_at(j).len() implies (pfull(#[trigger] g0.inc_at(j)[q]) <==> psrc(
                    g0.inc_at(j)[q],
                )) by {
                    let x = g0.inc_at(j)[q];
                    if x.source.node_key == key {
                        assert(g0.out_at(key.index as int).contains(x));
                    }
                    if outs@.contains(x) {
                        let q2 = choose|q2: int| 0 <= q2 < outs@.len() && outs@[q2] == x;
                        assert(g0.out_at(i as int)[q2] == x);
                        assert(x.source.node_key.index == i);
                        assert(x.source.node_key == key);
                    }
                }
                lemma_filter_equiv(g0.inc_at(j), pfull, psrc);
            }
            assert(incs@.take(0) =~= Seq::<Connection>::empty());
            assert forall|j: int|
                0 <= j < g0.slot_len() && j != i implies (#[trigger] self.out_at(j)) == g0.out_at(
                j,
            ).filter(edge_not_in(incs@.take(0))) by {
                lemma_filter_all_keep(g0.out_at(j), edge_not_in(incs@.take(0)));
                assert(self.out_at(j) == g0.out_at(j));
            }
        }
        let m2 = incs.len();
        let mut e2: usize = 0;
        while e2 < m2
            invariant
                g0.wf(),
                g0.is_live(key),
                i == key.index,
                e2 <= m2,
                incs@ == g0.inc_at(i as int),
                m2 == incs@.len(),
                self.nodes@ == g0.nodes@.update(i as int, None::<N>),
                self.live_count == g0.live_count - 1,
                self.topo_sorted == g0.topo_sorted,
                self.topo_valid == g0.topo_valid,
                self.incoming@.len() == g0.incoming@.len(),
                self.outgoing@.len() == g0.outgoing@.len(),
                self.out_at(i as int).len() == 0,
                self.inc_at(i as int).len() == 0,
                forall|j: int|
                    0 <= j < g0.slot_len() && j != i ==> (#[trigger] self.inc_at(j)) == g0.inc_at(
                        j,
                    ).filter(edge_not_from(key)),
                forall|j: int|
                    0 <= j < g0.slot_len() && j != i ==> (#[trigger] self.out_at(j)) == g0.out_at(
                        j,
                    ).filter(edge_not_in(incs@.take(e2 as int))),
            decreases m2 - e2,
        {
            let c = incs[e2];
            let ghost epre = e2 as int;
            let ghost self_pre = *self;
            proof {
                assert(g0.inc_at(i as int)[epre] == c);
                assert(c.sink.node_key.index == i);
                assert(g0.edge_endpoints_ok(c));
                assert(g0.out_at(c.source.node_key.index as int).contains(c));
            }
            let jj = c.source.node_key.index;
            let ghost target_pre = self.out_at(jj as int);
            proof {
                assert(jj < self.outgoing@.len());
                if jj != i {
                    lemma_filter_no_dup(g0.out_at(jj as int), edge_not_in(incs@.take(epre)));
                    assert(target_pre.no_duplicates());
                } else {
                    assert(target_pre.len() == 0);
                }
            }
            let target = &mut self.outgoing[jj];
            let _ = remove_connection(target, c);
            proof {
                lemma_take_step(incs@, epre);
                assert forall|j: int|
                    0 <= j < g0.slot_len() && j != i implies (#[trigger] self.out_at(j)) == g0
                    .out_at(j).filter(edge_not_in(incs@.take(epre + 1))) by {
                    let pold = edge_not_in(incs@.take(epre));
                    let pnew = edge_not_in(incs@.take(epre + 1));
                    assert(self_pre.out_at(j) == g0.out_at(j).filter(pold));
                    assert forall|q: int|
                        0 <= q < g0.out_at(j).len() implies ((pold(#[trigger] g0.out_at(j)[q])
                        && g0.out_at(j)[q] != c) <==> pnew(g0.out_at(j)[q])) by {
                        lemma_seq_contains_push(incs@.take(epre), c, g0.out_at(j)[q]);
                    }
                    if j == jj {
                        assert(target_pre == g0.out_at(j).filter(pold));
                        assert(target_pre.contains(c)) by {
                            assert(!incs@.take(epre).contains(c)) by {
                                if incs@.take(epre).contains(c) {
                                    let q = choose|q: int|
                                        0 <= q < epre && incs@.take(epre)[q] == c;
                                    assert(incs@[q] == incs@[epre]);
                                    assert(g0.inc_at(i as int).no_duplicates());
                                }
                            }
                            lemma_filter_member(g0.out_at(j), pold, c);
                        }
                        assert(self.out_at(j) == target_pre.filter(ne_to(c)));
                        lemma_filter_filter(g0.out_at(j), pold, ne_to(c));
                        assert forall|q: int|
                            0 <= q < g0.out_at(j).len() implies (pred_and(pold, ne_to(c))(
                            #[trigger] g0.out_at(j)[q],
                        ) <==> pnew(g0.out_at(j)[q])) by {
                            assert(pred_and(pold, ne_to(c))(g0.out_at(j)[q]) == (pold(
                                g0.out_at(j)[q],
                            ) && g0.out_at(j)[q] != c));
                        }
                        lemma_filter_equiv(g0.out_at(j), pred_and(pold, ne_to(c)), pnew);
                    } else {
                        assert(self.out_at(j) == self_pre.out_at(j));
                        assert forall|q: int|
                            0 <= q < g0.out_at(j).len() implies (pold(
                            #[trigger] g0.out_at(j)[q],
                        ) <==> pnew(g0.out_at(j)[q])) by {
                            assert(g0.out_at(j)[q].source.node_key.index == j);
                            assert(g0.out_at(j)[q] != c);
                        }
                        lemma_filter_equiv(g0.out_at(j), pold, pnew);
                    }
                }
                assert forall|j: int|
                    0 <= j < g0.slot_len() && j != i implies (#[trigger] self.inc_at(j)) == g0
                    .inc_at(j).filter(edge_not_from(key)) by {
                    assert(self_pre.inc_at(j) == g0.inc_at(j).filter(edge_not_from(key)));
                    assert(self.inc_at(j) == self_pre.inc_at(j));
                }
                assert(self.inc_at(i as int).len() == 0) by {
                    assert(self.inc_at(i as int) == self_pre.inc_at(i as int));
                }
                assert(self.out_at(i as int).len() == 0) by {
                    if jj == i {
                        assert(self.out_at(i as int) == target_pre);
                    } else {
                        assert(self.out_at(i as int) == self_pre.out_at(i as int));
                    }
                }
            }
            e2 = e2 + 1;
        }
        proof {
            assert(incs@.take(m2 as int) =~= incs@);
            assert forall|j: int|
                0 <= j < g0.slot_len() && j != i implies (#[trigger] self.out_at(j)) == g0.out_at(
                j,
            ).filter(edge_not_into(key)) by {
                let pfull = edge_not_in(incs@);
                let psnk = edge_not_into(key);
                assert(self.out_at(j) == g0.out_at(j).filter(pfull)) by {
                    assert(incs@.take(m2 as int) == incs@);
                    assert(edge_not_in(incs@.take(m2 as int)) == pfull);
                }
                assert forall|q: int|
                    0 <= q < g0.out_at(j).len() implies (pfull(#[trigger] g0.out_at(j)[q]) <==> psnk(
                    g0.out_at(j)[q],
                )) by {
                    let x = g0.out_at(j)[q];
                    if x.sink.node_key == key {
                        assert(g0.inc_at(key.index as int).contains(x));
                    }
                    if incs@.contains(x) {
                        let q2 = choose|q2: int| 0 <= q2 < incs@.len() && incs@[q2] == x;
                        assert(g0.inc_at(i as int)[q2] == x);
                        assert(x.sink.node_key.index == i);
                        assert(x.sink.node_key == key);
                    }
                }
                lemma_filter_equiv(g0.out_at(j), pfull, psnk);
            }
        }
        let ghost topo_pre = self.topo_sorted@;
        let ghost self_pre3 = *self;
        remove_key(&mut self.topo_sorted, key);
        proof {
            assert forall|j: int|
                0 <= j < g0.slot_len() && j != i implies (#[trigger] self.inc_at(j)) == g0.inc_at(
                j,
            ).filter(edge_not_from(key)) by {
                assert(self_pre3.inc_at(j) == g0.inc_at(j).filter(edge_not_from(key)));
                assert(self.inc_at(j) == self_pre3.inc_at(j));
            }
            assert forall|j: int|
                0 <= j < g0.slot_len() && j != i implies (#[trigger] self.out_at(j)) == g0.out_at(
                j,
            ).filter(edge_not_into(key)) by {
                assert(self_pre3.out_at(j) == g0.out_at(j).filter(edge_not_into(key)));
                assert(self.out_at(j) == self_pre3.out_at(j));
            }
            assert(self.inc_at(i as int).len() == 0) by {
                assert(self.inc_at(i as int) == self_pre3.inc_at(i as int));
            }
            assert(self.out_at(i as int).len() == 0) by {
                assert(self.out_at(i as int) == self_pre3.out_at(i as int));
            }
            if g0.topo_valid {
                assert(is_topo_over(topo_pre, g0));
                assert(g0.is_live(key));
                assert(topo_pre.contains(key));
            }
            lemma_wf_after_node_remove(g0, *self, key, topo_pre);
        }
        let ghost gmid = *self;
        let _ = self.invalidate_topo_sort();
        proof {
            assert forall|k: NodeKey| #![auto]
                self.is_live(k) <==> (old(self).is_live(k) && k != key) by {
                assert(self.is_live(k) <==> gmid.is_live(k));
                assert(gmid.is_live(k) <==> (g0.is_live(k) && k != key));
            }
            assert(self.node_count() == old(self).node_count() - 1);
            assert forall|k: NodeKey| #![auto]
                old(self).is_live(k) && k != key implies self.node_at(k) == old(self).node_at(
                k,
            ) by {
                assert(gmid.is_live(k));
                assert(gmid.node_at(k) == old(self).node_at(k));
            }
            assert forall|k: NodeKey| #![auto]
                old(self).is_live(k) && k != key implies self.in_edges(k) == old(
                self,
            ).in_edges(k).filter(edge_not_from(key)) && self.out_edges(k) == old(
                self,
            ).out_edges(k).filter(edge_not_into(key)) by {
                assert(gmid.is_live(k));
                assert(self.in_edges(k) == gmid.in_edges(k));
                assert(self.out_edges(k) == gmid.out_edges(k));
            }
            assert forall|c2: Connection| #![auto]
                self.has_edge(c2) <==> (old(self).has_edge(c2) && c2.source.node_key != key
                    && c2.sink.node_key != key) by {
                assert(self.has_edge(c2) <==> gmid.has_edge(c2));
            }
        }
        node
    }
}

/// Retiring a node, filtering the wires that touched it out of the other
/// adjacency lists, and dropping it from the cached order preserves the
/// structural invariant.
proof fn lemma_wf_after_node_remove<N>(
    g0: AudioGraph<N>,
    g2: AudioGraph<N>,
    key: NodeKey,
    topo_pre: Seq<NodeKey>,
)
    requires
        g0.wf(),
        g0.is_live(key),
        g2.nodes@ == g0.nodes@.update(key.index as int, None::<N>),
        g2.live_count == g0.live_count - 1,
        g2.topo_valid == g0.topo_valid,
        topo_pre == g0.topo_sorted@,
        g2.incoming@.len() == g0.incoming@.len(),
        g2.outgoing@.len() == g0.outgoing@.len(),
        g2.out_at(key.index as int).len() == 0,
        g2.inc_at(key.index as int).len() == 0,
        forall|j: int|
            0 <= j < g0.slot_len() && j != key.index ==> (#[trigger] g2.inc_at(j)) == g0.inc_at(
                j,
            ).filter(edge_not_from(key)),
        forall|j: int|
            0 <= j < g0.slot_len() && j != key.index ==> (#[trigger] g2.out_at(j)) == g0.out_at(
                j,
            ).filter(edge_not_into(key)),
        !topo_pre.contains(key) ==> g2.topo_sorted@ == topo_pre,
        topo_pre.contains(key) ==> exists|pos: int|
            0 <= pos < topo_pre.len() && topo_pre[pos] == key && g2.topo_sorted@ == topo_pre
                .remove(pos),
    ensures
        g2.wf(),
        g2.node_count() == g0.node_count() - 1,
        forall|k: NodeKey| #![auto] g2.is_live(k) <==> (g0.is_live(k) && k != key),
        forall|k: NodeKey| #![auto]
            g0.is_live(k) && k != key ==> g2.node_at(k) == g0.node_at(k),
        forall|c2: Connection| #![auto]
            g2.has_edge(c2) <==> (g0.has_edge(c2) && c2.source.node_key != key
                && c2.sink.node_key != key),
        g0.topo_valid ==> exists|pos: int|
            0 <= pos < topo_pre.len() && topo_pre[pos] == key && g2.topo_sorted@ == topo_pre
                .remove(pos),
{
    let i = key.index as int;
    lemma_count_live_update(g0.nodes@, i, None::<N>);
    let psrc = edge_not_from(key);
    let psnk = edge_not_into(key);
    assert forall|k: NodeKey| #![auto] g2.is_live(k) <==> (g0.is_live(k) && k != key) by {
        if k.index != key.index {
            assert(k != key);
        }
    }
    assert forall|j: int|
        0 <= j < g2.slot_len() implies (#[trigger] g2.out_at(j)).no_duplicates() by {
        if j != i {
            lemma_filter_no_dup(g0.out_at(j), psnk);
        }
    }
    assert forall|j: int|
        0 <= j < g2.slot_len() implies (#[trigger] g2.inc_at(j)).no_duplicates() by {
        if j != i {
            lemma_filter_no_dup(g0.inc_at(j), psrc);
        }
    }
    assert forall|j: int, x: Connection| #![auto]
        0 <= j < g2.slot_len() && j != i implies (g2.out_at(j).contains(x) <==> (g0.out_at(
        j,
    ).contains(x) && x.sink.node_key != key)) by {
        if g2.out_at(j).contains(x) {
            lemma_filter_subset(g0.out_at(j), psnk, x);
        }
        if g0.out_at(j).contains(x) && x.sink.node_key != key {
            lemma_filter_member(g0.out_at(j), psnk, x);
        }
    }
    assert forall|j: int, x: Connection| #![auto]
        0 <= j < g2.slot_len() && j != i implies (g2.inc_at(j).contains(x) <==> (g0.inc_at(
        j,
    ).contains(x) && x.source.node_key != key)) by {
        if g2.inc_at(j).contains(x) {
            lemma_filter_subset(g0.inc_at(j), psrc, x);
        }
        if g0.inc_at(j).contains(x) && x.source.node_key != key {
            lemma_filter_member(g0.inc_at(j), psrc, x);
        }
    }
    assert forall|j: int, e: int|
        0 <= j < g2.slot_len() && 0 <= e < g2.out_at(j).len() implies {
        let c2 = #[trigger] g2.out_at(j)[e];
        &&& c2.source.node_key.index == j
        &&& g2.edge_endpoints_ok(c2)
        &&& g2.inc_at(c2.sink.node_key.index as int).contains(c2)
    } by {
        let c2 = g2.out_at(j)[e];
        assert(g2.out_at(j).contains(c2));
        assert(j != i);
        assert(g0.out_at(j).contains(c2) && c2.sink.node_key != key);
        let q = choose|q: int| 0 <= q < g0.out_at(j).len() && g0.out_at(j)[q] == c2;
        assert(g0.edge_endpoints_ok(c2));
        assert(c2.source.node_key.index == j);
        assert(c2.source.node_key != key);
        let t2 = c2.sink.node_key.index as int;
        assert(t2 != i);
        assert(g0.inc_at(t2).contains(c2));
    }
    assert forall|j: int, e: int|
        0 <= j < g2.slot_len() && 0 <= e < g2.inc_at(j).len() implies {
        let c2 = #[trigger] g2.inc_at(j)[e];
        &&& c2.sink.node_key.index == j
        &&& g2.edge_endpoints_ok(c2)
        &&& g2.out_at(c2.source.node_key.index as int).contains(c2)
    } by {
        let c2 = g2.inc_at(j)[e];
        assert(g2.inc_at(j).contains(c2));
        assert(j != i);
        assert(g0.inc_at(j).contains(c2) && c2.source.node_key != key);
        let q = choose|q: int| 0 <= q < g0.inc_at(j).len() && g0.inc_at(j)[q] == c2;
        assert(g0.edge_endpoints_ok(c2));
        assert(c2.sink.node_key.index == j);
        assert(c2.sink.node_key != key);
        let s2 = c2.source.node_key.index as int;
        assert(s2 != i);
        assert(g0.out_at(s2).contains(c2));
    }
    assert forall|j: int|
        0 <= j < g2.slot_len() && !g2.live_at(j) implies (#[trigger] g2.out_at(j)).len() == 0
        && g2.inc_at(j).len() == 0 by {
        if j != i {
            assert(!g0.live_at(j));
            assert(g0.out_at(j).len() == 0);
            assert(g0.inc_at(j).len() == 0);
            assert(g2.out_at(j) == g0.out_at(j).filter(psnk));
            g0.out_at(j).lemma_filter_len(psnk);
            g0.inc_at(j).lemma_filter_len(psrc);
        }
    }
    assert forall|j: int, e1: int, e2: int|
        0 <= j < g2.slot_len() && 0 <= e1 < e2 < g2.inc_at(j).len() implies !((#[trigger] g2
        .inc_at(j)[e1]).sink.port_index == (#[trigger] g2.inc_at(j)[e2]).sink.port_index
        && g2.inc_at(j)[e1].sink.port_rate == g2.inc_at(j)[e2].sink.port_rate) by {
        if j != i {
            let x1 = g2.inc_at(j)[e1];
            let x2 = g2.inc_at(j)[e2];
            assert(g2.inc_at(j).contains(x1));
            assert(g2.inc_at(j).contains(x2));
            assert(g0.inc_at(j).contains(x1));
            assert(g0.inc_at(j).contains(x2));
            let q1 = choose|q: int| 0 <= q < g0.inc_at(j).len() && g0.inc_at(j)[q] == x1;
            let q2 = choose|q: int| 0 <= q < g0.inc_at(j).len() && g0.inc_at(j)[q] == x2;
            assert(x1 != x2) by {
                assert(g2.inc_at(j).no_duplicates());
            }
            assert(q1 != q2);
        }
    }
    assert forall|c2: Connection| #![auto]
        g2.has_edge(c2) <==> (g0.has_edge(c2) && c2.source.node_key != key && c2.sink.node_key
            != key) by {
        let s2 = c2.source.node_key.index as int;
        if 0 <= s2 < g0.slot_len() {
            if s2 == i {
                assert(g2.out_at(s2).len() == 0);
                if c2.source.node_key.index == key.index {
                    assert(c2.source.node_key == key);
                }
            }
        }
    }
    if g2.topo_valid {
        assert(is_topo_over(topo_pre, g0));
        assert(topo_pre.contains(key));
        let pos = choose|pos: int|
            0 <= pos < topo_pre.len() && topo_pre[pos] == key && g2.topo_sorted@ == topo_pre
                .remove(pos);
        let order2 = g2.topo_sorted@;
        assert(order2.len() == topo_pre.len() - 1);
        assert forall|x: int| 0 <= x < order2.len() implies order2[x] == topo_pre[
            if x < pos {
                x
            } else {
                x + 1
            }
        ] by {
            topo_pre.remove_ensures(pos);
        }
        assert(order2.no_duplicates()) by {
            assert forall|x1: int, x2: int|
                0 <= x1 < order2.len() && 0 <= x2 < order2.len() && x1 != x2 implies order2[x1]
                != order2[x2] by {}
        }
        assert forall|k: NodeKey| #![auto] g2.is_live(k) <==> order2.contains(k) by {
            if g2.is_live(k) {
                assert(g0.is_live(k) && k != key);
                assert(topo_pre.contains(k));
                let q = choose|q: int| 0 <= q < topo_pre.len() && topo_pre[q] == k;
                assert(q != pos);
                if q < pos {
                    assert(order2[q] == k);
                } else {
                    assert(order2[q - 1] == k);
                }
            }
            if order2.contains(k) {
                let q = choose|q: int| 0 <= q < order2.len() && order2[q] == k;
                let qo = if q < pos {
                    q
                } else {
                    q + 1
                };
                assert(topo_pre[qo] == k);
                assert(topo_pre.contains(k));
                assert(g0.is_live(k));
                assert(k != key) by {
                    if k == key {
                        assert(topo_pre[qo] == topo_pre[pos]);
                        assert(qo != pos);
                    }
                }
            }
        }
        assert forall|c2: Connection| #[trigger] g2.has_edge(c2) implies edge_respected(
            order2,
            c2,
        ) by {
            assert(g0.has_edge(c2));
            assert(edge_respected(topo_pre, c2));
            assert forall|x1: int, x2: int|
                0 <= x1 < order2.len() && 0 <= x2 < order2.len() && order2[x1]
                    == c2.source.node_key && order2[x2] == c2.sink.node_key implies x1 < x2 by {
                let m1 = if x1 < pos {
                    x1
                } else {
                    x1 + 1
                };
                let m2 = if x2 < pos {
                    x2
                } else {
                    x2 + 1
                };
                assert(topo_pre[m1] == c2.source.node_key);
                assert(topo_pre[m2] == c2.sink.node_key);
                assert(m1 < m2);
            }
        }
    }
}


/// Two graphs that agree pointwise on liveness and edges admit the same
/// topological orders.
pub proof fn lemma_admits_congruence<N, M>(g1: AudioGraph<N>, g2: AudioGraph<M>)
    requires
        forall|k: NodeKey| #![auto] g1.is_live(k) <==> g2.is_live(k),
        forall|c: Connection| #![auto] g1.has_edge(c) <==> g2.has_edge(c),
    ensures
        admits_topo(g1) <==> admits_topo(g2),
{
    assert forall|order: Seq<NodeKey>| #![auto]
        is_topo_over(order, g1) implies is_topo_over(order, g2) by {
        assert forall|k: NodeKey| #![auto] g2.is_live(k) <==> order.contains(k) by {
            assert(g1.is_live(k) <==> order.contains(k));
        }
        assert forall|c: Connection| #[trigger] g2.has_edge(c) implies edge_respected(
            order,
            c,
        ) by {
            assert(g1.has_edge(c));
        }
    }
    assert forall|order: Seq<NodeKey>| #![auto]
        is_topo_over(order, g2) implies is_topo_over(order, g1) by {
        assert forall|k: NodeKey| #![auto] g1.is_live(k) <==> order.contains(k) by {
            assert(g2.is_live(k) <==> order.contains(k));
        }
        assert forall|c: Connection| #[trigger] g1.has_edge(c) implies edge_respected(
            order,
            c,
        ) by {
            assert(g2.has_edge(c));
        }
    }
    if admits_topo(g1) {
        let order = choose|order: Seq<NodeKey>| is_topo_over(order, g1);
        assert(is_topo_over(order, g2));
    }
    if admits_topo(g2) {
        let order = choose|order: Seq<NodeKey>| is_topo_over(order, g2);
        assert(is_topo_over(order, g1));
    }
}

impl<N> AudioGraph<N> {
    /// Number of slots ever allocated.
    pub fn slot_count(&self) -> (r: usize)
        ensures
            r == self.slot_len(),
    {
        self.nodes.len()
    }
}


/// A key's slot is its index field.
pub(crate) proof fn lemma_key_slot_index(k: NodeKey)
    ensures
        key_slot(k) == k.index as int,
{
}

/// The key whose slot is `i`.
pub closed spec fn slot_key(i: int) -> NodeKey {
    NodeKey { index: i as usize }
}

/// Ties a slot index back to the key addressing it.
pub proof fn lemma_slot_key_facts<N>(g: AudioGraph<N>, i: int)
    requires
        0 <= i < g.slot_len(),
    ensures
        key_slot(slot_key(i)) == i,
        g.is_live(slot_key(i)) <==> g.live_at(i),
        g.is_live(slot_key(i)) ==> g.node_at(slot_key(i)) == g.node_at_slot(i),
{
    assert(g.slot_len() <= usize::MAX) by {
        broadcast use vstd::std_specs::vec::axiom_spec_len;

        assert(vstd::std_specs::vec::spec_vec_len(&g.nodes) == g.nodes@.len());
    }
}

/// Ties a key to the liveness of the slot it names.
pub proof fn lemma_key_slot_live<N>(g: AudioGraph<N>, k: NodeKey)
    ensures
        g.is_live(k) <==> (0 <= key_slot(k) < g.slot_len() && g.live_at(key_slot(k))),
        g.is_live(k) ==> g.node_at(k) == g.node_at_slot(key_slot(k)),
        g.is_live(k) ==> g.in_edges(k) == g.inc_at(key_slot(k)) && g.out_edges(k) == g.out_at(
            key_slot(k),
        ),
        g.slot_len() == g.slots().len(),
        g.is_live(k) ==> g.slots()[key_slot(k)] is Some && g.slots()[key_slot(k)]->0 == g.node_at(
            k,
        ),
{
}

/// Graphs with equal slot vectors agree on slot-level liveness and nodes.
pub proof fn lemma_live_at_from_slots<N>(g1: AudioGraph<N>, g2: AudioGraph<N>)
    requires
        g1.slots() == g2.slots(),
    ensures
        g1.slot_len() == g2.slot_len(),
        forall|i: int| #![auto] g1.live_at(i) <==> g2.live_at(i),
        forall|i: int| #![auto] g1.live_at(i) ==> g1.node_at_slot(i) == g2.node_at_slot(i),
{
}


/// Facts about one incoming wire of a live node, exported from the
/// structural invariant: its sink is that node, its endpoints are live,
/// its rates agree, and it is an edge of the graph.
pub proof fn lemma_in_edge_facts<N>(g: AudioGraph<N>, k: NodeKey, e: int)
    requires
        g.wf(),
        g.is_live(k),
        0 <= e < g.in_edges(k).len(),
    ensures
        g.in_edges(k)[e].sink.node_key == k,
        g.edge_endpoints_ok(g.in_edges(k)[e]),
        g.in_edges(k)[e].source.port_rate == g.in_edges(k)[e].sink.port_rate,
        g.has_edge(g.in_edges(k)[e]),
{
    let c = g.in_edges(k)[e];
    assert(g.inc_at(k.index as int)[e] == c);
    assert(c.sink.node_key.index == k.index);
    assert(g.out_at(c.source.node_key.index as int).contains(c));
}


/// Replacing a live slot's payload (keeping it live) preserves slot-level
/// liveness everywhere.
pub proof fn lemma_live_at_after_update<N>(g1: AudioGraph<N>, g2: AudioGraph<N>, i: int, v: N)
    requires
        g1.live_at(i),
        g2.slots() == g1.slots().update(i, Some(v)),
    ensures
        g1.slot_len() == g2.slot_len(),
        forall|j: int| #![auto] g1.live_at(j) <==> g2.live_at(j),
{
}


/// A sink port carries at most one wire: two distinct incoming wires of a
/// live node never name the same sink port at the same rate.  Exported
/// from the structural invariant for the scheduler's gather proof.
pub proof fn lemma_sink_port_unique<N>(g: AudioGraph<N>, k: NodeKey, e1: int, e2: int)
    requires
        g.wf(),
        g.is_live(k),
        0 <= e1 < g.in_edges(k).len(),
        0 <= e2 < g.in_edges(k).len(),
        e1 != e2,
    ensures
        !(g.in_edges(k)[e1].sink.port_index == g.in_edges(k)[e2].sink.port_index && g.in_edges(
            k,
        )[e1].sink.port_rate == g.in_edges(k)[e2].sink.port_rate),
{
    let i = k.index as int;
    if e1 < e2 {
        assert(!((g.inc_at(i)[e1]).sink.port_index == (g.inc_at(i)[e2]).sink.port_index && g
            .inc_at(i)[e1].sink.port_rate == g.inc_at(i)[e2].sink.port_rate));
    } else {
        assert(!((g.inc_at(i)[e2]).sink.port_index == (g.inc_at(i)[e1]).sink.port_index && g
            .inc_at(i)[e2].sink.port_rate == g.inc_at(i)[e1].sink.port_rate));
    }
}


/// The nodes the ready queue gains while Kahn's algorithm retires `key`,
/// with `done` already retired: walking `key`'s outgoing wires in order, a
/// sink enters the moment the wire at hand is its last one from an
/// unretired source.
pub open spec fn kahn_pushed<N>(
    g: AudioGraph<N>,
    done: Seq<NodeKey>,
    key: NodeKey,
    e: int,
) -> Seq<NodeKey>
    decreases e,
{
    if e <= 0 {
        Seq::empty()
    } else {
        let prev = kahn_pushed(g, done, key, e - 1);
        let c = g.out_edges(key)[e - 1];
        if count_pending(g.in_edges(c.sink.node_key), done) == count_to(
            g.out_edges(key).take(e),
            key_slot(c.sink.node_key),
        ) {
            prev.push(c.sink.node_key)
        } else {
            prev
        }
    }
}

/// The seeds of Kahn's algorithm: the live nodes with no incoming wire,
/// in slot (insertion) order, up to slot `i`.
pub open spec fn kahn_seeds<N>(g: AudioGraph<N>, i: int) -> Seq<NodeKey>
    decreases i,
{
    if i <= 0 {
        Seq::empty()
    } else {
        let prev = kahn_seeds(g, i - 1);
        if g.live_at(i - 1) && g.in_edges(slot_key(i - 1)).len() == 0 {
            prev.push(slot_key(i - 1))
        } else {
            prev
        }
    }
}

/// Kahn's FIFO frontier run to completion: retire the node at position
/// `p`, append what becomes ready, and continue.
pub open spec fn kahn_run<N>(g: AudioGraph<N>, ord: Seq<NodeKey>, p: int) -> Seq<NodeKey>
    decreases g.slot_len() - p,
{
    if 0 <= p < ord.len() && p < g.slot_len() {
        kahn_run(
            g,
            ord + kahn_pushed(g, ord.take(p), ord[p], g.out_edges(ord[p]).len() as int),
            p + 1,
        )
    } else {
        ord
    }
}

/// The order Kahn's algorithm computes, with ties broken by FIFO insertion
/// order: a pure function of the graph's nodes and wires, so the schedule
/// is deterministic in the construction history.
pub open spec fn kahn_order<N>(g: AudioGraph<N>) -> Seq<NodeKey> {
    kahn_run(g, kahn_seeds(g, g.slot_len()), 0)
}

proof fn lemma_kahn_seeds_congruence<N>(g1: AudioGraph<N>, g2: AudioGraph<N>, i: int)
    requires
        g2.slots() == g1.slots(),
        forall|k: NodeKey| #![auto] g1.in_edges(k) == g2.in_edges(k),
        forall|k: NodeKey| #![auto] g1.out_edges(k) == g2.out_edges(k),
    ensures
        kahn_seeds(g1, i) == kahn_seeds(g2, i),
    decreases i,
{
    if i > 0 {
        lemma_kahn_seeds_congruence(g1, g2, i - 1);
        assert(g1.live_at(i - 1) <==> g2.live_at(i - 1));
        assert(g1.in_edges(slot_key(i - 1)) == g2.in_edges(slot_key(i - 1)));
    }
}

proof fn lemma_kahn_pushed_congruence<N>(
    g1: AudioGraph<N>,
    g2: AudioGraph<N>,
    done: Seq<NodeKey>,
    key: NodeKey,
    e: int,
)
    requires
        g2.slots() == g1.slots(),
        forall|k: NodeKey| #![auto] g1.in_edges(k) == g2.in_edges(k),
        forall|k: NodeKey| #![auto] g1.out_edges(k) == g2.out_edges(k),
    ensures
        kahn_pushed(g1, done, key, e) == kahn_pushed(g2, done, key, e),
    decreases e,
{
    if e > 0 {
        lemma_kahn_pushed_congruence(g1, g2, done, key, e - 1);
        assert(g1.out_edges(key) == g2.out_edges(key));
        let c = g1.out_edges(key)[e - 1];
        assert(g1.in_edges(c.sink.node_key) == g2.in_edges(c.sink.node_key));
    }
}

proof fn lemma_kahn_run_congruence<N>(
    g1: AudioGraph<N>,
    g2: AudioGraph<N>,
    ord: Seq<NodeKey>,
    p: int,
)
    requires
        g2.slots() == g1.slots(),
        forall|k: NodeKey| #![auto] g1.in_edges(k) == g2.in_edges(k),
        forall|k: NodeKey| #![auto] g1.out_edges(k) == g2.out_edges(k),
    ensures
        kahn_run(g1, ord, p) == kahn_run(g2, ord, p),
    decreases g1.slot_len() - p,
{
    assert(g1.slot_len() == g2.slot_len());
    if 0 <= p < ord.len() && p < g1.slot_len() {
        lemma_kahn_pushed_congruence(g1, g2, ord.take(p), ord[p], g1.out_edges(ord[p]).len() as int);
        assert(g1.out_edges(ord[p]) == g2.out_edges(ord[p]));
        lemma_kahn_run_congruence(
            g1,
            g2,
            ord + kahn_pushed(g1, ord.take(p), ord[p], g1.out_edges(ord[p]).len() as int),
            p + 1,
        );
    }
}

/// Two graphs with the same nodes and wires schedule identically: the
/// chosen order is a function of the graph alone.
pub proof fn lemma_kahn_order_congruence<N>(g1: AudioGraph<N>, g2: AudioGraph<N>)
    requires
        g2.slots() == g1.slots(),
        forall|k: NodeKey| #![auto] g1.in_edges(k) == g2.in_edges(k),
        forall|k: NodeKey| #![auto] g1.out_edges(k) == g2.out_edges(k),
    ensures
        kahn_order(g1) == kahn_order(g2),
{
    lemma_kahn_seeds_congruence(g1, g2, g1.slot_len());
    assert(g1.slot_len() == g2.slot_len());
    lemma_kahn_run_congruence(g1, g2, kahn_seeds(g1, g1.slot_len()), 0);
}


/// `walk` is a directed walk in `g`: each consecutive pair is joined by a
/// wire of the graph.
pub open spec fn is_walk<N>(g: AudioGraph<N>, walk: Seq<NodeKey>) -> bool {
    forall|q: int|
        0 <= q < walk.len() - 1 ==> exists|c: Connection|
            #[trigger] g.has_edge(c) && c.source.node_key == (#[trigger] walk[q])
                && c.sink.node_key == walk[q + 1]
}

/// Along a walk, positions in a topological order strictly increase.
proof fn lemma_walk_ahead<N>(g: AudioGraph<N>, order: Seq<NodeKey>, walk: Seq<NodeKey>, b: int)
    requires
        g.wf(),
        is_topo_over(order, g),
        is_walk(g, walk),
        1 <= b < walk.len(),
    ensures
        exists|i: int, j: int|
            0 <= i < order.len() && 0 <= j < order.len() && (#[trigger] order[i]) == walk[0] && (
            #[trigger] order[j]) == walk[b] && i < j,
    decreases b,
{
    let c = choose|c: Connection|
        g.has_edge(c) && c.source.node_key == walk[b - 1] && c.sink.node_key == walk[b];
    assert(g.has_edge(c));
    let si = c.source.node_key.index as int;
    let e4 = choose|e4: int| 0 <= e4 < g.out_at(si).len() && g.out_at(si)[e4] == c;
    assert(g.edge_endpoints_ok(c));
    assert(g.is_live(c.source.node_key));
    assert(g.is_live(c.sink.node_key));
    assert(order.contains(c.source.node_key));
    assert(order.contains(c.sink.node_key));
    let ps = choose|ps: int| 0 <= ps < order.len() && order[ps] == c.source.node_key;
    let pt = choose|pt: int| 0 <= pt < order.len() && order[pt] == c.sink.node_key;
    assert(edge_respected(order, c));
    assert(ps < pt);
    if b == 1 {
        assert(order[ps] == walk[0] && order[pt] == walk[b] && ps < pt);
    } else {
        lemma_walk_ahead(g, order, walk, b - 1);
        let (i, j) = choose|i: int, j: int|
            0 <= i < order.len() && 0 <= j < order.len() && (#[trigger] order[i]) == walk[0] && (
            #[trigger] order[j]) == walk[b - 1] && i < j;
        assert(order[j] == order[ps]);
        assert(j == ps) by {
            if j != ps {
                assert(order[j] != order[ps]);
            }
        }
        assert(order[i] == walk[0] && order[pt] == walk[b] && i < pt);
    }
}

/// Cycle rejection, in general: a graph holding a closed directed walk
/// admits no topological order.  With `add_edge`'s contract this makes the
/// rejection exact: a wire that closes such a walk is answered with
/// `CycleDetected`, the cache marked stale, and the scheduler refuses to
/// run until the graph is acyclic again.
pub proof fn lemma_cycle_not_schedulable<N>(g: AudioGraph<N>, walk: Seq<NodeKey>)
    requires
        g.wf(),
        is_walk(g, walk),
        walk.len() >= 2,
        walk[0] == walk[walk.len() - 1],
    ensures
        !admits_topo(g),
{
    if admits_topo(g) {
        let order = choose|order: Seq<NodeKey>| is_topo_over(order, g);
        lemma_walk_ahead(g, order, walk, walk.len() - 1);
        let (i, j) = choose|i: int, j: int|
            0 <= i < order.len() && 0 <= j < order.len() && (#[trigger] order[i]) == walk[0] && (
            #[trigger] order[j]) == walk[walk.len() - 1] && i < j;
        assert(order[i] == order[j]);
        assert(order.no_duplicates());
    }
}

} // verus!
