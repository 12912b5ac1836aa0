//! The uniform processing contract every node implements.

use vstd::prelude::*;

use crate::buffer::Frame;
use crate::context::AudioContext;
use crate::port::PortedErased;

verus! {

/// A leaf processing unit.  Given the audio context and four frames —
/// audio in, audio out, control in, control out — `process` advances the
/// node's internal state by exactly one block and writes every output
/// sample.  A node must not retain references to its inputs beyond the
/// call, and in the hot path must not allocate, lock or block.
///
/// The scheduler assumes nothing about an implementation: port counts are
/// recorded once when the node is added, and output frames are re-shaped
/// after every call, so a misbehaving node cannot corrupt the runtime.
pub trait Node<S>: PortedErased {
    fn process(
        &mut self,
        ctx: &mut AudioContext<S>,
        ai: &Frame<S>,
        ao: &mut Frame<S>,
        ci: &Frame<S>,
        co: &mut Frame<S>,
    );

    /// Advance slow control-rate state; called at most once per block,
    /// before `process`, for nodes that keep such state.
    fn tick_ctrl(&mut self) {
    }
}

} // verus!
