//! The scheduler: executes one block of the graph and returns the sink's
//! audio output frame.
//!
//! For each node in topological order it zeroes both scratch pools in
//! full, copies each producer's output buffer into the scratch slot its
//! wire names (`gather_node_inputs` carries that law as its contract),
//! invokes the node, and keeps the node's outputs for its consumers.  Port
//! counts are recorded once when a node is added, and output frames are
//! re-shaped after every call, so the scheduler's own bookkeeping stays
//! intact whatever a node does.

use vstd::prelude::*;

use crate::buffer::{Buffer, Frame, ensure_frame_shape, fill_frame_prefix, frame_shaped, frame_silent};
use crate::context::AudioContext;
use crate::graph::{
    AudioGraph,
    lemma_in_edge_facts,
    lemma_live_at_after_update,
    Connection,
    GraphError,
    NodeKey,
    admits_topo,
    is_topo_over,
    key_slot,
    lemma_admits_congruence,
    lemma_key_slot_index,
    lemma_key_slot_live,
    lemma_live_at_from_slots,
    lemma_node_update_keeps_wf,
    lemma_sink_port_unique,
    lemma_slot_key_facts,
    lemma_valid_cache_is_topo,
    slot_key,
};
use crate::node::Node;
use crate::port::PortRate;

verus! {

/// Upper bound on scratch input ports per node; the scratch pools are
/// allocated once at this size.
pub const MAX_INITIAL_INPUTS: usize = 32;

/// A node's port counts, recorded when the node is added and used by the
/// scheduler from then on.
#[derive(Debug, PartialEq, Eq, Clone, Copy, Structural)]
pub struct PortCounts {
    pub audio_in: usize,
    pub audio_out: usize,
    pub control_in: usize,
    pub control_out: usize,
}

/// Read a node's port counts through its erased port queries.
fn query_counts<S, N: Node<S>>(node: &N) -> PortCounts {
    let audio_in = match node.get_audio_inputs() {
        Some(l) => l.len(),
        None => 0,
    };
    let audio_out = match node.get_audio_outputs() {
        Some(l) => l.len(),
        None => 0,
    };
    let control_in = match node.get_control_inputs() {
        Some(l) => l.len(),
        None => 0,
    };
    let control_out = match node.get_control_outputs() {
        Some(l) => l.len(),
        None => 0,
    };
    PortCounts { audio_in, audio_out, control_in, control_out }
}

/// Owns the graph, the audio context, per-node output storage and the
/// pre-allocated scratch input pools.
pub struct Runtime<S, N> {
    context: AudioContext<S>,
    graph: AudioGraph<N>,
    counts: Vec<PortCounts>,
    port_sources_audio: Vec<Frame<S>>,
    port_sources_control: Vec<Frame<S>>,
    audio_scratch: Frame<S>,
    control_scratch: Frame<S>,
    audio_frame: usize,
    control_frame: usize,
    silence: S,
    sink_key: Option<NodeKey>,
}

impl<S: Copy, N: Node<S>> Runtime<S, N> {
    /// The graph as the scheduler sees it.
    pub closed spec fn graph_spec(self) -> AudioGraph<N> {
        self.graph
    }

    /// The audio context.
    pub closed spec fn ctx_spec(self) -> AudioContext<S> {
        self.context
    }

    /// Recorded port counts, per slot.
    pub closed spec fn counts_spec(self) -> Seq<PortCounts> {
        self.counts@
    }

    /// Audio block length in samples.
    pub closed spec fn audio_frame_spec(self) -> nat {
        self.audio_frame as nat
    }

    /// Control block length in samples.
    pub closed spec fn control_frame_spec(self) -> nat {
        self.control_frame as nat
    }

    /// The designated sink, once set.
    pub closed spec fn sink_spec(self) -> Option<NodeKey> {
        self.sink_key
    }

    /// The silence value for the sample type, as given at construction.
    pub closed spec fn silence_spec(self) -> S {
        self.silence
    }

    /// The audio output storage of a slot.
    pub closed spec fn audio_out_at(self, i: int) -> Seq<Buffer<S>> {
        self.port_sources_audio@[i]@
    }

    /// The control output storage of a slot.
    pub closed spec fn control_out_at(self, i: int) -> Seq<Buffer<S>> {
        self.port_sources_control@[i]@
    }

    /// The audio scratch input pool.
    pub closed spec fn audio_scratch_spec(self) -> Seq<Buffer<S>> {
        self.audio_scratch@
    }

    /// The control scratch input pool.
    pub closed spec fn control_scratch_spec(self) -> Seq<Buffer<S>> {
        self.control_scratch@
    }

    /// Wire `c` delivers a producer's audio buffer into input port `p` of
    /// node `k`: it is an incoming audio-rate wire of `k` naming sink port
    /// `p` within the scratch pool, and its producer's output buffer
    /// exists at the block length.
    pub open spec fn audio_wire_feeds(self, k: NodeKey, p: int, c: Connection) -> bool {
        &&& self.graph_spec().in_edges(k).contains(c)
        &&& c.sink.port_index == p
        &&& c.sink.port_index < MAX_INITIAL_INPUTS
        &&& c.source.port_rate == PortRate::Audio
        &&& c.sink.port_rate == PortRate::Audio
        &&& self.graph_spec().is_live(c.source.node_key)
        &&& c.source.port_index < self.audio_out_at(key_slot(c.source.node_key)).len()
        &&& self.audio_out_at(key_slot(c.source.node_key))[c.source.port_index as int]@.len()
            == self.audio_frame_spec()
    }

    /// The control-rate twin of `audio_wire_feeds`.
    pub open spec fn control_wire_feeds(self, k: NodeKey, p: int, c: Connection) -> bool {
        &&& self.graph_spec().in_edges(k).contains(c)
        &&& c.sink.port_index == p
        &&& c.sink.port_index < MAX_INITIAL_INPUTS
        &&& c.source.port_rate == PortRate::Control
        &&& c.sink.port_rate == PortRate::Control
        &&& self.graph_spec().is_live(c.source.node_key)
        &&& c.source.port_index < self.control_out_at(key_slot(c.source.node_key)).len()
        &&& self.control_out_at(key_slot(c.source.node_key))[c.source.port_index as int]@.len()
            == self.control_frame_spec()
    }

    /// Internal invariant: the graph is well-formed, the bookkeeping
    /// vectors run parallel to its slots, every live node's output storage
    /// matches its recorded counts and the block length, and the scratch
    /// pools have their fixed shape.
    pub closed spec fn wf(self) -> bool {
        &&& self.graph.wf()
        &&& self.counts@.len() == self.graph.slot_len()
        &&& self.port_sources_audio@.len() == self.graph.slot_len()
        &&& self.port_sources_control@.len() == self.graph.slot_len()
        &&& forall|i: int|
            0 <= i < self.graph.slot_len() && self.graph.live_at(i) ==> frame_shaped(
                #[trigger] self.port_sources_audio@[i]@,
                self.counts@[i].audio_out as int,
                self.audio_frame as int,
            )
        &&& forall|i: int|
            0 <= i < self.graph.slot_len() && self.graph.live_at(i) ==> frame_shaped(
                #[trigger] self.port_sources_control@[i]@,
                self.counts@[i].control_out as int,
                self.control_frame as int,
            )
        &&& frame_shaped(self.audio_scratch@, MAX_INITIAL_INPUTS as int, self.audio_frame as int)
        &&& frame_shaped(
            self.control_scratch@,
            MAX_INITIAL_INPUTS as int,
            self.control_frame as int,
        )
    }

    /// Build a runtime over an existing context and graph, with the given
    /// audio and control block lengths.
    pub fn new(
        context: AudioContext<S>,
        graph: AudioGraph<N>,
        audio_frame: usize,
        control_frame: usize,
    ) -> (r: Self)
        requires
            graph.wf(),
        ensures
            r.wf(),
            r.graph_spec() == graph,
            r.ctx_spec() == context,
            r.audio_frame_spec() == audio_frame,
            r.control_frame_spec() == control_frame,
            r.silence_spec() == context.silence_spec(),
            r.sink_spec() is None,
    {
        let silence = context.silence_value();
        let slots = graph.slot_count();
        let mut counts: Vec<PortCounts> = Vec::new();
        let mut port_sources_audio: Vec<Frame<S>> = Vec::new();
        let mut port_sources_control: Vec<Frame<S>> = Vec::new();
        let mut i: usize = 0;
        while i < slots
            invariant
                i <= slots,
                slots == graph.slot_len(),
                graph.wf(),
                counts@.len() == i,
                port_sources_audio@.len() == i,
                port_sources_control@.len() == i,
                forall|j: int|
                    0 <= j < i && graph.live_at(j) ==> frame_shaped(
                        #[trigger] port_sources_audio@[j]@,
                        counts@[j].audio_out as int,
                        audio_frame as int,
                    ),
                forall|j: int|
                    0 <= j < i && graph.live_at(j) ==> frame_shaped(
                        #[trigger] port_sources_control@[j]@,
                        counts@[j].control_out as int,
                        control_frame as int,
                    ),
            decreases slots - i,
        {
            let key = NodeKey { index: i };
            match graph.get_node(key) {
                Some(node) => {
                    let cnt = query_counts(node);
                    counts.push(cnt);
                    port_sources_audio.push(frame_silent(cnt.audio_out, audio_frame, silence));
                    port_sources_control.push(
                        frame_silent(cnt.control_out, control_frame, silence),
                    );
                },
                None => {
                    let cnt = PortCounts { audio_in: 0, audio_out: 0, control_in: 0, control_out: 0 };
                    counts.push(cnt);
                    port_sources_audio.push(Vec::new());
                    port_sources_control.push(Vec::new());
                },
            }
            i = i + 1;
        }
        Runtime {
            context,
            graph,
            counts,
            port_sources_audio,
            port_sources_control,
            audio_scratch: frame_silent(MAX_INITIAL_INPUTS, audio_frame, silence),
            control_scratch: frame_silent(MAX_INITIAL_INPUTS, control_frame, silence),
            audio_frame,
            control_frame,
            silence,
            sink_key: None,
        }
    }

    /// Audio block length in samples.
    pub fn audio_frame_len(&self) -> (r: usize)
        ensures
            r == self.audio_frame_spec(),
    {
        self.audio_frame
    }

    /// Control block length in samples.
    pub fn control_frame_len(&self) -> (r: usize)
        ensures
            r == self.control_frame_spec(),
    {
        self.control_frame
    }

    /// Borrow the audio context, e.g. to install resources while building.
    pub fn get_context(&self) -> (r: &AudioContext<S>)
        ensures
            *r == self.ctx_spec(),
    {
        &self.context
    }

    /// Mutably borrow the audio context.  Only the context can change
    /// through the borrow.
    pub fn get_context_mut(&mut self) -> (r: &mut AudioContext<S>)
        ensures
            *r == old(self).ctx_spec(),
            final(self).ctx_spec() == *final(r),
            final(self).graph_spec() == old(self).graph_spec(),
            final(self).counts_spec() == old(self).counts_spec(),
            final(self).sink_spec() == old(self).sink_spec(),
            final(self).audio_frame_spec() == old(self).audio_frame_spec(),
            final(self).control_frame_spec() == old(self).control_frame_spec(),
            old(self).wf() ==> final(self).wf(),
            forall|i: int| #![auto]
                final(self).audio_out_at(i) == old(self).audio_out_at(i) && final(self).control_out_at(i) == old(self).control_out_at(i),
    {
        &mut self.context
    }

    /// Add a node: record its port counts, allocate its output storage and
    /// hand back its fresh key.
    pub fn add_node(&mut self, node: N) -> (key: NodeKey)
        requires
            old(self).wf(),
        ensures
            final(self).wf(),
            !old(self).graph_spec().is_live(key),
            final(self).graph_spec().is_live(key),
            final(self).graph_spec().node_count() == old(self).graph_spec().node_count() + 1,
            key_slot(key) == old(self).graph_spec().slot_len(),
            final(self).counts_spec().len() == old(self).counts_spec().len() + 1,
            final(self).counts_spec() == old(self).counts_spec().push(
                final(self).counts_spec()[key_slot(key)],
            ),
            frame_shaped(
                final(self).audio_out_at(key_slot(key)),
                final(self).counts_spec()[key_slot(key)].audio_out as int,
                final(self).audio_frame_spec() as int,
            ),
            forall|p: int, n: int|
                0 <= p < final(self).audio_out_at(key_slot(key)).len() && 0 <= n < final(self).audio_out_at(key_slot(key))[p]@.len() ==> (#[trigger] final(self).audio_out_at(
                    key_slot(key),
                )[p]@[n]) == final(self).silence_spec(),
            frame_shaped(
                final(self).control_out_at(key_slot(key)),
                final(self).counts_spec()[key_slot(key)].control_out as int,
                final(self).control_frame_spec() as int,
            ),
            forall|p: int, n: int|
                0 <= p < final(self).control_out_at(key_slot(key)).len() && 0 <= n < final(self).control_out_at(key_slot(key))[p]@.len() ==> (#[trigger] final(self).control_out_at(key_slot(key))[p]@[n]) == final(self).silence_spec(),
            final(self).silence_spec() == old(self).silence_spec(),
            forall|k: NodeKey| #![auto]
                final(self).graph_spec().is_live(k) <==> (old(self).graph_spec().is_live(k) || k
                    == key),
            forall|c: Connection| #![auto]
                final(self).graph_spec().has_edge(c) <==> old(self).graph_spec().has_edge(c),
            final(self).sink_spec() == old(self).sink_spec(),
            final(self).audio_frame_spec() == old(self).audio_frame_spec(),
            final(self).control_frame_spec() == old(self).control_frame_spec(),
    {
        let cnt = query_counts(&node);
        let key = self.graph.add_node(node);
        self.counts.push(cnt);
        self.port_sources_audio.push(frame_silent(cnt.audio_out, self.audio_frame, self.silence));
        self.port_sources_control.push(
            frame_silent(cnt.control_out, self.control_frame, self.silence),
        );
        proof {
            lemma_key_slot_index(key);
            assert(final(self).counts_spec() =~= old(self).counts_spec().push(
                final(self).counts_spec()[key_slot(key)],
            ));
            assert forall|i: int|
                0 <= i < self.graph.slot_len() && self.graph.live_at(i) implies frame_shaped(
                #[trigger] self.port_sources_audio@[i]@,
                self.counts@[i].audio_out as int,
                self.audio_frame as int,
            ) by {
                lemma_slot_key_facts(self.graph, i);
                if i < old(self).graph.slot_len() {
                    lemma_slot_key_facts(old(self).graph, i);
                    assert(slot_key(i) != key) by {
                        if slot_key(i) == key {
                            assert(key_slot(slot_key(i)) == key_slot(key));
                        }
                    }
                    assert(old(self).graph.live_at(i));
                } else {
                    assert(i == old(self).graph.slot_len());
                }
            }
            assert forall|i: int|
                0 <= i < self.graph.slot_len() && self.graph.live_at(i) implies frame_shaped(
                #[trigger] self.port_sources_control@[i]@,
                self.counts@[i].control_out as int,
                self.control_frame as int,
            ) by {
                lemma_slot_key_facts(self.graph, i);
                if i < old(self).graph.slot_len() {
                    lemma_slot_key_facts(old(self).graph, i);
                    assert(slot_key(i) != key) by {
                        if slot_key(i) == key {
                            assert(key_slot(slot_key(i)) == key_slot(key));
                        }
                    }
                    assert(old(self).graph.live_at(i));
                } else {
                    assert(i == old(self).graph.slot_len());
                }
            }
        }
        key
    }

    /// Remove a node and every wire incident to it.
    pub fn remove_node(&mut self, key: NodeKey)
        requires
            old(self).wf(),
        ensures
            final(self).wf(),
            forall|k: NodeKey| #![auto]
                final(self).graph_spec().is_live(k) <==> (old(self).graph_spec().is_live(k) && k
                    != key),
            final(self).sink_spec() == old(self).sink_spec(),
    {
        let _ = self.graph.remove_node(key);
        proof {
            assert forall|i: int|
                0 <= i < self.graph.slot_len() && self.graph.live_at(i) implies frame_shaped(
                #[trigger] self.port_sources_audio@[i]@,
                self.counts@[i].audio_out as int,
                self.audio_frame as int,
            ) by {
                lemma_slot_key_facts(self.graph, i);
                if old(self).graph.is_live(key) {
                    assert(old(self).graph.is_live(slot_key(i)));
                } else {
                    assert(*self == *old(self));
                }
                lemma_slot_key_facts(old(self).graph, i);
                assert(old(self).graph.live_at(i));
            }
            assert forall|i: int|
                0 <= i < self.graph.slot_len() && self.graph.live_at(i) implies frame_shaped(
                #[trigger] self.port_sources_control@[i]@,
                self.counts@[i].control_out as int,
                self.control_frame as int,
            ) by {
                lemma_slot_key_facts(self.graph, i);
                if old(self).graph.is_live(key) {
                    assert(old(self).graph.is_live(slot_key(i)));
                } else {
                    assert(*self == *old(self));
                }
                lemma_slot_key_facts(old(self).graph, i);
                assert(old(self).graph.live_at(i));
            }
        }
    }

    /// Both endpoints name ports their nodes declared, at the wire's rate,
    /// and the sink port fits the scratch pools.
    pub closed spec fn edge_ports_ok(self, c: Connection) -> bool {
        &&& self.graph.is_live(c.source.node_key)
        &&& self.graph.is_live(c.sink.node_key)
        &&& c.sink.port_index < MAX_INITIAL_INPUTS
        &&& (c.source.port_rate == PortRate::Audio ==> c.source.port_index < self.counts@[key_slot(
            c.source.node_key,
        )].audio_out && c.sink.port_index < self.counts@[key_slot(c.sink.node_key)].audio_in)
        &&& (c.source.port_rate == PortRate::Control ==> c.source.port_index
            < self.counts@[key_slot(c.source.node_key)].control_out && c.sink.port_index
            < self.counts@[key_slot(c.sink.node_key)].control_in)
    }

    /// Wire two ports.  Beyond the graph's own checks, the port indices
    /// must be in range for the nodes' declared counts.
    pub fn add_edge(&mut self, connection: Connection) -> (r: Result<Connection, GraphError>)
        requires
            old(self).wf(),
        ensures
            final(self).wf(),
            final(self).sink_spec() == old(self).sink_spec(),
            forall|k: NodeKey| #![auto]
                final(self).graph_spec().is_live(k) <==> old(self).graph_spec().is_live(k),
            (r == Err::<Connection, GraphError>(GraphError::BadConnection)) <==> (old(
                self,
            ).graph_spec().rejects_edge(connection) || !old(self).edge_ports_ok(connection)),
            !old(self).graph_spec().rejects_edge(connection) && old(self).edge_ports_ok(
                connection,
            ) ==> {
                &&& final(self).graph_spec().has_edge(connection)
                &&& ((r == Ok::<Connection, GraphError>(connection)) <==> admits_topo(
                    final(self).graph_spec(),
                ))
                &&& (r is Err ==> r == Err::<Connection, GraphError>(GraphError::CycleDetected))
            },
    {
        let src = connection.source.node_key;
        let snk = connection.sink.node_key;
        if self.graph.has_node(src) && self.graph.has_node(snk) {
            proof {
                lemma_key_slot_live(self.graph, src);
                lemma_key_slot_live(self.graph, snk);
                lemma_key_slot_index(src);
                lemma_key_slot_index(snk);
            }
            let sc = self.counts[src.index];
            let tc = self.counts[snk.index];
            let in_range = connection.sink.port_index < MAX_INITIAL_INPUTS && (
            match connection.source.port_rate {
                PortRate::Audio => connection.source.port_index < sc.audio_out
                    && connection.sink.port_index < tc.audio_in,
                PortRate::Control => connection.source.port_index < sc.control_out
                    && connection.sink.port_index < tc.control_in,
            });
            if !in_range {
                proof {
                    assert(!old(self).edge_ports_ok(connection));
                }
                return Err(GraphError::BadConnection);
            }
        } else {
            proof {
                assert(old(self).graph_spec().rejects_edge(connection));
                assert(!old(self).edge_ports_ok(connection));
            }
            return Err(GraphError::BadConnection);
        }
        proof {
            assert(old(self).edge_ports_ok(connection));
        }
        let ghost g1 = self.graph;
        let r = self.graph.add_edge(connection);
        proof {
            lemma_live_at_from_slots(g1, self.graph);
            assert forall|i: int|
                0 <= i < self.graph.slot_len() && self.graph.live_at(i) implies frame_shaped(
                #[trigger] self.port_sources_audio@[i]@,
                self.counts@[i].audio_out as int,
                self.audio_frame as int,
            ) by {
                assert(old(self).graph.live_at(i));
            }
            assert forall|i: int|
                0 <= i < self.graph.slot_len() && self.graph.live_at(i) implies frame_shaped(
                #[trigger] self.port_sources_control@[i]@,
                self.counts@[i].control_out as int,
                self.control_frame as int,
            ) by {
                assert(old(self).graph.live_at(i));
            }
        }
        r
    }

    /// Remove the exact wire.
    pub fn remove_edge(&mut self, connection: Connection) -> (r: Result<(), GraphError>)
        requires
            old(self).wf(),
        ensures
            final(self).wf(),
            final(self).sink_spec() == old(self).sink_spec(),
            r is Ok <==> old(self).graph_spec().has_edge(connection),
            old(self).graph_spec().has_edge(connection) ==> !final(self).graph_spec().has_edge(
                connection,
            ),
            !old(self).graph_spec().has_edge(connection) ==> r == Err::<(), GraphError>(
                GraphError::BadConnection,
            ),
    {
        let ghost g1 = self.graph;
        let r = self.graph.remove_edge(connection);
        proof {
            lemma_live_at_from_slots(g1, self.graph);
            assert forall|i: int|
                0 <= i < self.graph.slot_len() && self.graph.live_at(i) implies frame_shaped(
                #[trigger] self.port_sources_audio@[i]@,
                self.counts@[i].audio_out as int,
                self.audio_frame as int,
            ) by {
                assert(old(self).graph.live_at(i));
            }
            assert forall|i: int|
                0 <= i < self.graph.slot_len() && self.graph.live_at(i) implies frame_shaped(
                #[trigger] self.port_sources_control@[i]@,
                self.counts@[i].control_out as int,
                self.control_frame as int,
            ) by {
                assert(old(self).graph.live_at(i));
            }
        }
        r
    }

    /// Designate the node whose audio output each block returns.
    pub fn set_sink_key(&mut self, key: NodeKey) -> (r: Result<(), GraphError>)
        requires
            old(self).wf(),
        ensures
            final(self).wf(),
            r is Ok <==> old(self).graph_spec().is_live(key),
            r is Ok ==> final(self).sink_spec() == Some(key),
            r is Err ==> r == Err::<(), GraphError>(GraphError::NodeDoesNotExist) && *final(self)
                == *old(self),
            final(self).graph_spec() == old(self).graph_spec(),
    {
        if self.graph.has_node(key) {
            self.sink_key = Some(key);
            Ok(())
        } else {
            Err(GraphError::NodeDoesNotExist)
        }
    }
}


/// Copy a caller-provided frame over the front of a scratch pool, channel
/// by channel where the lengths line up.  Shapes are preserved.
fn copy_into_scratch<S: Copy>(scratch: &mut Frame<S>, src: &Frame<S>)
    ensures
        final(scratch)@.len() == old(scratch)@.len(),
        forall|c: int|
            0 <= c < final(scratch)@.len() ==> (#[trigger] final(scratch)@[c])@.len() == old(
                scratch,
            )@[c]@.len(),
{
    let limit = if src.len() < scratch.len() {
        src.len()
    } else {
        scratch.len()
    };
    let mut c: usize = 0;
    while c < limit
        invariant
            c <= limit,
            limit <= scratch@.len(),
            limit <= src@.len(),
            scratch@.len() == old(scratch)@.len(),
            forall|j: int|
                0 <= j < scratch@.len() ==> (#[trigger] scratch@[j])@.len() == old(
                    scratch,
                )@[j]@.len(),
        decreases limit - c,
    {
        let matching = {
            let sb: &Buffer<S> = &src[c];
            let db: &Buffer<S> = &scratch[c];
            sb.len() == db.len()
        };
        if matching {
            let sb: &Buffer<S> = &src[c];
            let db = &mut scratch[c];
            db.copy_from(sb);
        }
        c = c + 1;
    }
}

impl<S: Copy, N: Node<S>> Runtime<S, N> {
    /// The runtime has a sink and it is live.
    pub open spec fn sink_ready(self) -> bool {
        self.sink_spec() is Some && self.graph_spec().is_live(self.sink_spec().unwrap())
    }

    /// Assemble the scratch input pools for one node's `process` call:
    /// every slot of both pools is zeroed, then for each incoming wire the
    /// producer's output buffer is copied into the slot the wire's sink
    /// port names.  The gathering law: a slot fed by a wire holds exactly
    /// that producer buffer, and every other slot holds silence, so a node
    /// can never observe another node's inputs.
    fn gather_node_inputs(&mut self, key: NodeKey)
        requires
            old(self).wf(),
            old(self).graph_spec().is_live(key),
        ensures
            final(self).wf(),
            final(self).graph_spec() == old(self).graph_spec(),
            final(self).ctx_spec() == old(self).ctx_spec(),
            final(self).counts_spec() == old(self).counts_spec(),
            final(self).sink_spec() == old(self).sink_spec(),
            final(self).silence_spec() == old(self).silence_spec(),
            final(self).audio_frame_spec() == old(self).audio_frame_spec(),
            final(self).control_frame_spec() == old(self).control_frame_spec(),
            forall|i: int| #![auto]
                final(self).audio_out_at(i) == old(self).audio_out_at(i) && final(self).control_out_at(i) == old(self).control_out_at(i),
            forall|c: Connection| #![auto]
                old(self).audio_wire_feeds(key, c.sink.port_index as int, c) ==> final(self).audio_scratch_spec()[c.sink.port_index as int]@ == old(self).audio_out_at(
                    key_slot(c.source.node_key),
                )[c.source.port_index as int]@,
            forall|p: int, n: int|
                0 <= p < MAX_INITIAL_INPUTS && 0 <= n < old(self).audio_frame_spec() && !(
                exists|c: Connection| old(self).audio_wire_feeds(key, p, c)) ==> (#[trigger] final(self).audio_scratch_spec()[p]@[n]) == old(self).silence_spec(),
            forall|c: Connection| #![auto]
                old(self).control_wire_feeds(key, c.sink.port_index as int, c) ==> final(self).control_scratch_spec()[c.sink.port_index as int]@ == old(self).control_out_at(
                    key_slot(c.source.node_key),
                )[c.source.port_index as int]@,
            forall|p: int, n: int|
                0 <= p < MAX_INITIAL_INPUTS && 0 <= n < old(self).control_frame_spec() && !(
                exists|c: Connection| old(self).control_wire_feeds(key, p, c)) ==> (
                #[trigger] final(self).control_scratch_spec()[p]@[n]) == old(self).silence_spec(),
    {
        fill_frame_prefix(&mut self.audio_scratch, MAX_INITIAL_INPUTS, self.silence);
        fill_frame_prefix(&mut self.control_scratch, MAX_INITIAL_INPUTS, self.silence);
        let ghost g0 = *self;
        proof {
            lemma_key_slot_live(self.graph, key);
            lemma_key_slot_index(key);
        }
        match self.graph.incoming_connections(key) {
            Some(conns) => {
                let m = conns.len();
                let ghost edges = self.graph.in_edges(key);
                let mut e: usize = 0;
                while e < m
                    invariant
                        e <= m,
                        m == edges.len(),
                        conns@ == edges,
                        g0.wf(),
                        g0.graph_spec().is_live(key),
                        edges == g0.graph_spec().in_edges(key),
                        self.graph == g0.graph,
                        self.context == g0.context,
                        self.counts == g0.counts,
                        self.sink_key == g0.sink_key,
                        self.silence == g0.silence,
                        self.audio_frame == g0.audio_frame,
                        self.control_frame == g0.control_frame,
                        self.port_sources_audio == g0.port_sources_audio,
                        self.port_sources_control == g0.port_sources_control,
                        frame_shaped(
                            self.audio_scratch@,
                            MAX_INITIAL_INPUTS as int,
                            self.audio_frame as int,
                        ),
                        frame_shaped(
                            self.control_scratch@,
                            MAX_INITIAL_INPUTS as int,
                            self.control_frame as int,
                        ),
                        forall|e2: int|
                            0 <= e2 < e && g0.audio_wire_feeds(
                                key,
                                (#[trigger] edges[e2]).sink.port_index as int,
                                edges[e2],
                            ) ==> self.audio_scratch@[edges[e2].sink.port_index as int]@ == g0
                                .audio_out_at(key_slot(edges[e2].source.node_key))[edges[e2].source.port_index as int]@,
                        forall|p: int, n: int|
                            0 <= p < MAX_INITIAL_INPUTS && 0 <= n < self.audio_frame as int && (
                            forall|e2: int|
                                0 <= e2 < e ==> !g0.audio_wire_feeds(
                                    key,
                                    p,
                                    #[trigger] edges[e2],
                                )) ==> (#[trigger] self.audio_scratch@[p]@[n]) == self.silence,
                        forall|e2: int|
                            0 <= e2 < e && g0.control_wire_feeds(
                                key,
                                (#[trigger] edges[e2]).sink.port_index as int,
                                edges[e2],
                            ) ==> self.control_scratch@[edges[e2].sink.port_index as int]@ == g0
                                .control_out_at(key_slot(edges[e2].source.node_key))[edges[e2].source.port_index as int]@,
                        forall|p: int, n: int|
                            0 <= p < MAX_INITIAL_INPUTS && 0 <= n < self.control_frame as int && (
                            forall|e2: int|
                                0 <= e2 < e ==> !g0.control_wire_feeds(
                                    key,
                                    p,
                                    #[trigger] edges[e2],
                                )) ==> (#[trigger] self.control_scratch@[p]@[n]) == self.silence,
                    decreases m - e,
                {
                    let c = conns[e];
                    proof {
                        lemma_in_edge_facts(self.graph, key, e as int);
                        lemma_key_slot_live(self.graph, c.source.node_key);
                        lemma_key_slot_index(c.source.node_key);
                        assert(edges.contains(c)) by {
                            assert(edges[e as int] == c);
                        }
                    }
                    let ghost scratch_a_pre = self.audio_scratch@;
                    let ghost scratch_c_pre = self.control_scratch@;
                    match (c.source.port_rate, c.sink.port_rate) {
                        (PortRate::Audio, PortRate::Audio) => {
                            let sp = c.sink.port_index;
                            let ss = c.source.node_key.index;
                            let op = c.source.port_index;
                            if sp < MAX_INITIAL_INPUTS {
                                let do_copy = {
                                    let src_frame: &Frame<S> = &self.port_sources_audio[ss];
                                    op < src_frame.len() && {
                                        let sb: &Buffer<S> = &src_frame[op];
                                        sb.len() == self.audio_frame
                                    }
                                };
                                if do_copy {
                                    let src_frame: &Frame<S> = &self.port_sources_audio[ss];
                                    let sb: &Buffer<S> = &src_frame[op];
                                    let dst = &mut self.audio_scratch[sp];
                                    dst.copy_from(sb);
                                    proof {
                                        assert(g0.audio_wire_feeds(key, sp as int, c));
                                    }
                                } else {
                                    proof {
                                        assert(!g0.audio_wire_feeds(key, sp as int, c));
                                    }
                                }
                            } else {
                                proof {
                                    assert(!g0.audio_wire_feeds(key, sp as int, c));
                                }
                            }
                        },
                        (PortRate::Control, PortRate::Control) => {
                            let sp = c.sink.port_index;
                            let ss = c.source.node_key.index;
                            let op = c.source.port_index;
                            if sp < MAX_INITIAL_INPUTS {
                                let do_copy = {
                                    let src_frame: &Frame<S> = &self.port_sources_control[ss];
                                    op < src_frame.len() && {
                                        let sb: &Buffer<S> = &src_frame[op];
                                        sb.len() == self.control_frame
                                    }
                                };
                                if do_copy {
                                    let src_frame: &Frame<S> = &self.port_sources_control[ss];
                                    let sb: &Buffer<S> = &src_frame[op];
                                    let dst = &mut self.control_scratch[sp];
                                    dst.copy_from(sb);
                                    proof {
                                        assert(g0.control_wire_feeds(key, sp as int, c));
                                    }
                                } else {
                                    proof {
                                        assert(!g0.control_wire_feeds(key, sp as int, c));
                                    }
                                }
                            } else {
                                proof {
                                    assert(!g0.control_wire_feeds(key, sp as int, c));
                                }
                            }
                        },
                        _ => {},
                    }
                    proof {
                        assert forall|e2: int|
                            0 <= e2 < e + 1 && g0.audio_wire_feeds(
                                key,
                                (#[trigger] edges[e2]).sink.port_index as int,
                                edges[e2],
                            ) implies self.audio_scratch@[edges[e2].sink.port_index as int]@ == g0
                            .audio_out_at(key_slot(edges[e2].source.node_key))[edges[e2].source.port_index as int]@ by {
                            let p2 = edges[e2].sink.port_index as int;
                            if e2 < e {
                                if p2 == c.sink.port_index as int && c.sink.port_rate
                                    == PortRate::Audio && c.source.port_rate == PortRate::Audio
                                    && g0.audio_wire_feeds(key, p2, c) {
                                    lemma_sink_port_unique(g0.graph, key, e2, e as int);
                                    assert(false);
                                } else {
                                    assert(self.audio_scratch@[p2] == scratch_a_pre[p2]);
                                }
                            }
                        }
                        assert forall|e2: int|
                            0 <= e2 < e + 1 && g0.control_wire_feeds(
                                key,
                                (#[trigger] edges[e2]).sink.port_index as int,
                                edges[e2],
                            ) implies self.control_scratch@[edges[e2].sink.port_index as int]@
                            == g0.control_out_at(key_slot(edges[e2].source.node_key))[edges[e2].source.port_index as int]@ by {
                            let p2 = edges[e2].sink.port_index as int;
                            if e2 < e {
                                if p2 == c.sink.port_index as int && c.sink.port_rate
                                    == PortRate::Control && c.source.port_rate
                                    == PortRate::Control && g0.control_wire_feeds(key, p2, c) {
                                    lemma_sink_port_unique(g0.graph, key, e2, e as int);
                                    assert(false);
                                } else {
                                    assert(self.control_scratch@[p2] == scratch_c_pre[p2]);
                                }
                            }
                        }
                    }
                    e = e + 1;
                }
                proof {
                    assert forall|c2: Connection| #![auto]
                        g0.audio_wire_feeds(key, c2.sink.port_index as int, c2) implies self
                        .audio_scratch@[c2.sink.port_index as int]@ == g0.audio_out_at(
                        key_slot(c2.source.node_key),
                    )[c2.source.port_index as int]@ by {
                        let e2 = choose|e2: int| 0 <= e2 < edges.len() && edges[e2] == c2;
                        assert(edges[e2] == c2);
                    }
                    assert forall|p: int, n: int|
                        0 <= p < MAX_INITIAL_INPUTS && 0 <= n < self.audio_frame as int && !(
                        exists|c2: Connection|
                            g0.audio_wire_feeds(key, p, c2)) implies (#[trigger] self
                        .audio_scratch@[p]@[n]) == self.silence by {
                        assert forall|e2: int| 0 <= e2 < m implies !g0.audio_wire_feeds(
                            key,
                            p,
                            #[trigger] edges[e2],
                        ) by {
                            if g0.audio_wire_feeds(key, p, edges[e2]) {
                                assert(exists|c2: Connection| g0.audio_wire_feeds(key, p, c2));
                            }
                        }
                    }
                    assert forall|c2: Connection| #![auto]
                        g0.control_wire_feeds(key, c2.sink.port_index as int, c2) implies self
                        .control_scratch@[c2.sink.port_index as int]@ == g0.control_out_at(
                        key_slot(c2.source.node_key),
                    )[c2.source.port_index as int]@ by {
                        let e2 = choose|e2: int| 0 <= e2 < edges.len() && edges[e2] == c2;
                        assert(edges[e2] == c2);
                    }
                    assert forall|p: int, n: int|
                        0 <= p < MAX_INITIAL_INPUTS && 0 <= n < self.control_frame as int && !(
                        exists|c2: Connection|
                            g0.control_wire_feeds(key, p, c2)) implies (#[trigger] self
                        .control_scratch@[p]@[n]) == self.silence by {
                        assert forall|e2: int| 0 <= e2 < m implies !g0.control_wire_feeds(
                            key,
                            p,
                            #[trigger] edges[e2],
                        ) by {
                            if g0.control_wire_feeds(key, p, edges[e2]) {
                                assert(exists|c2: Connection| g0.control_wire_feeds(key, p, c2));
                            }
                        }
                    }
                }
            },
            None => {
                proof {
                    assert(self.graph.is_live(key));
                    assert(false);
                }
            },
        }
        proof {
            assert forall|p: int, n: int|
                0 <= p < MAX_INITIAL_INPUTS && 0 <= n < old(self).audio_frame_spec() && !(
                exists|c: Connection|
                    old(self).audio_wire_feeds(key, p, c)) implies (#[trigger] self
                .audio_scratch@[p]@[n]) == old(self).silence_spec() by {
                assert(!(exists|c2: Connection| g0.audio_wire_feeds(key, p, c2))) by {
                    if exists|c2: Connection| g0.audio_wire_feeds(key, p, c2) {
                        let c2 = choose|c2: Connection| g0.audio_wire_feeds(key, p, c2);
                        assert(old(self).audio_wire_feeds(key, p, c2));
                    }
                }
            }
            assert forall|p: int, n: int|
                0 <= p < MAX_INITIAL_INPUTS && 0 <= n < old(self).control_frame_spec() && !(
                exists|c: Connection|
                    old(self).control_wire_feeds(key, p, c)) implies (#[trigger] self
                .control_scratch@[p]@[n]) == old(self).silence_spec() by {
                assert(!(exists|c2: Connection| g0.control_wire_feeds(key, p, c2))) by {
                    if exists|c2: Connection| g0.control_wire_feeds(key, p, c2) {
                        let c2 = choose|c2: Connection| g0.control_wire_feeds(key, p, c2);
                        assert(old(self).control_wire_feeds(key, p, c2));
                    }
                }
            }
        }
    }

    /// Execute one block: re-sort lazily if the cached order is stale, then
    /// run every node in topological order — zero the scratch inputs, copy
    /// each producer buffer along its wire, invoke the node, keep its
    /// outputs — and return the sink's audio frame.
    ///
    /// Fails with `CycleDetected` exactly when the graph admits no
    /// topological order, and with `NodeDoesNotExist` exactly when it does
    /// but no live sink is set.  When inputs are given, they replace the
    /// gathered inputs of the first node in the order.
    pub fn next_block_with_inputs(&mut self, inputs: Option<(&Frame<S>, &Frame<S>)>) -> (r: Result<
        &Frame<S>,
        GraphError,
    >)
        requires
            old(self).wf(),
        ensures
            final(self).wf(),
            final(self).sink_spec() == old(self).sink_spec(),
            final(self).counts_spec() == old(self).counts_spec(),
            final(self).audio_frame_spec() == old(self).audio_frame_spec(),
            final(self).control_frame_spec() == old(self).control_frame_spec(),
            forall|k: NodeKey| #![auto]
                final(self).graph_spec().is_live(k) <==> old(self).graph_spec().is_live(k),
            (r == Err::<&Frame<S>, GraphError>(GraphError::CycleDetected)) <==> !admits_topo(
                old(self).graph_spec(),
            ),
            admits_topo(old(self).graph_spec()) ==> ((r == Err::<&Frame<S>, GraphError>(
                GraphError::NodeDoesNotExist,
            )) <==> !old(self).sink_ready()),
            r is Ok <==> (admits_topo(old(self).graph_spec()) && old(self).sink_ready()),
            r is Ok ==> final(self).graph_spec().topo_is_valid() && is_topo_over(
                final(self).graph_spec().topo(),
                final(self).graph_spec(),
            ),
            r is Ok ==> {
                let si = key_slot(old(self).sink_spec().unwrap());
                &&& (*r.unwrap())@ == final(self).audio_out_at(si)
                &&& frame_shaped(
                    (*r.unwrap())@,
                    final(self).counts_spec()[si].audio_out as int,
                    final(self).audio_frame_spec() as int,
                )
            },
    {
        if !self.graph.has_valid_topo() {
            let ghost g1 = self.graph;
            let sorted = self.graph.invalidate_topo_sort();
            proof {
                lemma_admits_congruence(g1, self.graph);
                lemma_live_at_from_slots(g1, self.graph);
                assert forall|i: int|
                    0 <= i < self.graph.slot_len() && self.graph.live_at(i) implies frame_shaped(
                    #[trigger] self.port_sources_audio@[i]@,
                    self.counts@[i].audio_out as int,
                    self.audio_frame as int,
                ) by {
                    assert(old(self).graph.live_at(i));
                }
                assert forall|i: int|
                    0 <= i < self.graph.slot_len() && self.graph.live_at(i) implies frame_shaped(
                    #[trigger] self.port_sources_control@[i]@,
                    self.counts@[i].control_out as int,
                    self.control_frame as int,
                ) by {
                    assert(old(self).graph.live_at(i));
                }
            }
            match sorted {
                Ok(_) => {},
                Err(e) => {
                    proof {
                        assert(!admits_topo(old(self).graph_spec()));
                    }
                    return Err(e);
                },
            }
        } else {
            proof {
                lemma_valid_cache_is_topo(self.graph);
                assert(admits_topo(self.graph));
            }
        }
        proof {
            assert(admits_topo(old(self).graph_spec()));
        }
        let sk = match self.sink_key {
            Some(k) => k,
            None => {
                return Err(GraphError::NodeDoesNotExist);
            },
        };
        if !self.graph.has_node(sk) {
            return Err(GraphError::NodeDoesNotExist);
        }
        let ghost topo0 = self.graph.topo();
        let total = self.graph.topo_order().len();
        let mut p: usize = 0;
        while p < total
            invariant
                self.wf(),
                self.graph.topo_is_valid(),
                self.graph.topo() == topo0,
                total == topo0.len(),
                p <= total,
                self.audio_frame == old(self).audio_frame,
                self.control_frame == old(self).control_frame,
                self.silence == old(self).silence,
                self.counts@ == old(self).counts@,
                self.sink_key == old(self).sink_key,
                self.graph.is_live(sk),
                self.graph.slot_len() == old(self).graph.slot_len(),
                forall|k: NodeKey| #![auto]
                    self.graph.is_live(k) <==> old(self).graph.is_live(k),
                forall|i: int| #![auto] self.graph.live_at(i) <==> old(self).graph.live_at(i),
            decreases total - p,
        {
            let key = {
                let order: &Vec<NodeKey> = self.graph.topo_order();
                order[p]
            };
            proof {
                lemma_valid_cache_is_topo(self.graph);
                assert(topo0[p as int] == key);
                assert(topo0.contains(key));
                assert(self.graph.is_live(key));
                lemma_key_slot_live(self.graph, key);
                lemma_key_slot_index(key);
            }
            let i = key.index;
            let cnt = self.counts[i];
            let overridden = p == 0 && inputs.is_some();
            if overridden {
                fill_frame_prefix(&mut self.audio_scratch, MAX_INITIAL_INPUTS, self.silence);
                fill_frame_prefix(&mut self.control_scratch, MAX_INITIAL_INPUTS, self.silence);
                match inputs {
                    Some((ia, ic)) => {
                        copy_into_scratch(&mut self.audio_scratch, ia);
                        copy_into_scratch(&mut self.control_scratch, ic);
                    },
                    None => {},
                }
            } else {
                self.gather_node_inputs(key);
            }
            let ghost self_mid = *self;
            let ao_ref = &mut self.port_sources_audio[i];
            let co_ref = &mut self.port_sources_control[i];
            let ghost g1 = self_mid.graph;
            match self.graph.get_node_mut(&key) {
                Some(node) => {
                    node.process(
                        &mut self.context,
                        &self.audio_scratch,
                        ao_ref,
                        &self.control_scratch,
                        co_ref,
                    );
                },
                None => {},
            }
            proof {
                lemma_key_slot_live(g1, key);
                assert(g1.slots()[i as int] is Some);
                let v = self.graph.slots()[i as int]->0;
                assert(self.graph.slots() =~= g1.slots().update(i as int, Some(v)));
                lemma_node_update_keeps_wf(g1, self.graph, i as int, v);
            }
            let ghost self_post = *self;
            ensure_frame_shape(
                &mut self.port_sources_audio[i],
                cnt.audio_out,
                self.audio_frame,
                self.silence,
            );
            ensure_frame_shape(
                &mut self.port_sources_control[i],
                cnt.control_out,
                self.control_frame,
                self.silence,
            );
            proof {
                let v2 = self.graph.slots()[i as int]->0;
                assert(self.graph.slots() =~= g1.slots().update(i as int, Some(v2)));
                lemma_live_at_after_update(g1, self.graph, i as int, v2);
                assert forall|j: int|
                    0 <= j < self.graph.slot_len() && self.graph.live_at(j) implies frame_shaped(
                    #[trigger] self.port_sources_audio@[j]@,
                    self.counts@[j].audio_out as int,
                    self.audio_frame as int,
                ) by {
                    if j != i {
                        assert(self.port_sources_audio@[j] == self_mid.port_sources_audio@[j]);
                        assert(self_mid.graph.live_at(j));
                    }
                }
                assert forall|j: int|
                    0 <= j < self.graph.slot_len() && self.graph.live_at(j) implies frame_shaped(
                    #[trigger] self.port_sources_control@[j]@,
                    self.counts@[j].control_out as int,
                    self.control_frame as int,
                ) by {
                    if j != i {
                        assert(self.port_sources_control@[j]
                            == self_mid.port_sources_control@[j]);
                        assert(self_mid.graph.live_at(j));
                    }
                }
            }
            p = p + 1;
        }
        let sk_i = sk.index;
        proof {
            lemma_key_slot_live(self.graph, sk);
            lemma_key_slot_index(sk);
            lemma_valid_cache_is_topo(self.graph);
        }
        Ok(&self.port_sources_audio[sk_i])
    }

    /// Execute one block with no outside inputs.
    pub fn next_block(&mut self) -> (r: Result<&Frame<S>, GraphError>)
        requires
            old(self).wf(),
        ensures
            final(self).wf(),
            final(self).sink_spec() == old(self).sink_spec(),
            (r == Err::<&Frame<S>, GraphError>(GraphError::CycleDetected)) <==> !admits_topo(
                old(self).graph_spec(),
            ),
            admits_topo(old(self).graph_spec()) ==> ((r == Err::<&Frame<S>, GraphError>(
                GraphError::NodeDoesNotExist,
            )) <==> !old(self).sink_ready()),
            r is Ok <==> (admits_topo(old(self).graph_spec()) && old(self).sink_ready()),
            r is Ok ==> {
                let si = key_slot(old(self).sink_spec().unwrap());
                &&& (*r.unwrap())@ == final(self).audio_out_at(si)
                &&& frame_shaped(
                    (*r.unwrap())@,
                    final(self).counts_spec()[si].audio_out as int,
                    final(self).audio_frame_spec() as int,
                )
            },
    {
        self.next_block_with_inputs(None)
    }
}

/// Assemble a runtime with an empty graph and a fresh context.
pub fn build_runtime<S: Copy, N: Node<S>>(
    initial_capacity: usize,
    sample_rate: u32,
    control_rate: u32,
    audio_frame: usize,
    control_frame: usize,
    silence: S,
) -> (r: Runtime<S, N>)
    ensures
        r.wf(),
        r.ctx_spec().sample_rate_spec() == sample_rate,
        r.ctx_spec().control_rate_spec() == control_rate,
        r.ctx_spec().silence_spec() == silence,
        r.sink_spec() is None,
        r.graph_spec().node_count() == 0,
    {
    let graph: AudioGraph<N> = AudioGraph::with_capacity(initial_capacity);
    let context = AudioContext::new(sample_rate, control_rate, silence);
    Runtime::new(context, graph, audio_frame, control_frame)
}

} // verus!
