//! Legato: a block-rate, DAG-based audio processing engine.
//!
//! A graph of processing nodes connected by typed ports is evaluated in
//! topological order once per audio block.  The engine core — the graph, the
//! topological scheduler, the shared resource store (delay lines and sample
//! assets), the port model and the block primitives — is verified; it is
//! generic over the sample type, so the arithmetic a node performs on samples
//! stays outside the core.

use vstd::prelude::*;

mod buffer;
mod builder;
mod context;
mod graph;
mod node;
mod nodes;
mod port;
mod resample;
mod ring;
mod runtime;

pub use buffer::{Buffer, Frame, ensure_frame_shape, fill_frame_prefix, frame_shaped, frame_silent};
pub use builder::{AddNodeResponse, BuilderError};
pub use context::{
    AudioContext, AudioSample, AudioSampleError, DelayLine, DelayLineKey, SampleKey,
    delay_key_slot, lemma_delay_channel_len, lemma_delay_round_trip, lemma_ring_view_after_block,
    sample_key_slot, view_after_block,
};
pub use graph::{
    AudioGraph, Connection, ConnectionEntry, GraphError, NodeKey, admits_topo, count_pending,
    count_to, edge_not_from, edge_not_into, edge_respected, is_topo_over, is_walk, kahn_order,
    kahn_pushed, kahn_run, kahn_seeds, key_slot, lemma_cycle_not_schedulable,
    lemma_kahn_order_congruence, lemma_key_slot_live, lemma_sink_port_unique,
    lemma_topo_soundness, lemma_valid_cache_is_topo, ne_to, slot_key,
};
pub use node::Node;
pub use nodes::{DelayRead, DelayWrite, Sampler, Stereo, Wave, fan_out, sample_table_read};
pub use port::{
    AudioInputPort, AudioOutputPort, ControlInputPort, ControlOutputPort, Port, PortError,
    PortMeta, PortRate, PortedErased, Ports, StereoPorts, generate_audio_inputs,
    generate_audio_outputs,
};
pub use resample::{Oversample2X, Resampler, downsample_first_sample, upsample_zoh};
pub use ring::{RingBuffer, lemma_ring_view_len, view_after_push};
pub use runtime::{MAX_INITIAL_INPUTS, PortCounts, Runtime, build_runtime};

verus! {

} // verus!
