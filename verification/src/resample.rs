//! Rate adaptation: verified zero-order-hold upsampling and first-sample
//! decimation, the resampler contract, and the 2x oversampling sub-graph
//! adapter, which runs an inner runtime at twice the outer block length
//! and sample rate.

use vstd::prelude::*;

use crate::buffer::{Buffer, Frame, ensure_frame_shape, fill_frame_prefix, frame_shaped, frame_silent};
use crate::graph::{GraphError, admits_topo};
use crate::node::Node;
use crate::port::{
    AudioInputPort,
    AudioOutputPort,
    generate_audio_inputs,
    generate_audio_outputs,
};
use crate::runtime::Runtime;

verus! {

/// Zero-order-hold upsampling: every input sample is repeated over the
/// whole output stride, so output position `i` holds input `i / r` where
/// `r` is the rate ratio.
pub fn upsample_zoh<S: Copy>(inputs: &Buffer<S>, outputs: &mut Buffer<S>)
    requires
        0 < inputs@.len() < old(outputs)@.len(),
        old(outputs)@.len() % inputs@.len() == 0,
    ensures
        final(outputs)@.len() == old(outputs)@.len(),
        forall|i: int|
            0 <= i < final(outputs)@.len() ==> (#[trigger] final(outputs)@[i]) == inputs@[i / (
            (old(outputs)@.len() / inputs@.len()) as int)],
{
    let low = inputs.len();
    let high = outputs.len();
    let r = high / low;
    proof {
        vstd::arithmetic::div_mod::lemma_fundamental_div_mod(high as int, low as int);
        assert(high as int == (low as int) * (r as int) + (high as int) % (low as int));
        assert(high == r * low) by (nonlinear_arith)
            requires
                high as int == (low as int) * (r as int),
        ;
        vstd::arithmetic::div_mod::lemma_div_non_zero(high as int, low as int);
    }
    let mut i: usize = 0;
    while i < high
        invariant
            i <= high,
            high == outputs@.len(),
            low == inputs@.len(),
            low > 0,
            r == high as int / low as int,
            high == r * low,
            r > 0,
            outputs@.len() == old(outputs)@.len(),
            forall|j: int| 0 <= j < i ==> (#[trigger] outputs@[j]) == inputs@[j / (r as int)],
        decreases high - i,
    {
        let src = i / r;
        proof {
            assert(src < low) by (nonlinear_arith)
                requires
                    i < high,
                    high == r * low,
                    r > 0,
                    src == i as int / r as int,
                    low > 0,
            ;
        }
        let v = inputs.get(src);
        outputs.set(i, v);
        i = i + 1;
    }
}

/// Decimation that keeps the first sample of each stride: output position
/// `i` holds input `i * r` where `r` is the rate ratio.
pub fn downsample_first_sample<S: Copy>(inputs: &Buffer<S>, outputs: &mut Buffer<S>)
    requires
        0 < old(outputs)@.len() < inputs@.len(),
        inputs@.len() % old(outputs)@.len() == 0,
    ensures
        final(outputs)@.len() == old(outputs)@.len(),
        forall|i: int|
            0 <= i < final(outputs)@.len() ==> (#[trigger] final(outputs)@[i]) == inputs@[i * (
            (inputs@.len() / old(outputs)@.len()) as int)],
{
    let low = outputs.len();
    let high = inputs.len();
    let r = high / low;
    proof {
        vstd::arithmetic::div_mod::lemma_fundamental_div_mod(high as int, low as int);
        assert(high as int == (low as int) * (r as int) + (high as int) % (low as int));
        assert(high == r * low) by (nonlinear_arith)
            requires
                high as int == (low as int) * (r as int),
        ;
        vstd::arithmetic::div_mod::lemma_div_non_zero(high as int, low as int);
    }
    let mut i: usize = 0;
    while i < low
        invariant
            i <= low,
            low == outputs@.len(),
            high == inputs@.len(),
            low > 0,
            r == high as int / low as int,
            high == r * low,
            r > 0,
            outputs@.len() == old(outputs)@.len(),
            forall|j: int| 0 <= j < i ==> (#[trigger] outputs@[j]) == inputs@[j * (r as int)],
        decreases low - i,
    {
        proof {
            assert(i * r < high && i * r <= usize::MAX) by (nonlinear_arith)
                requires
                    i < low,
                    high == r * low,
                    r > 0,
                    low > 0,
                    high <= usize::MAX,
            ;
        }
        let src = i * r;
        let v = inputs.get(src);
        outputs.set(i, v);
        i = i + 1;
    }
}

/// A rate adapter: fills an output frame from an input frame at another
/// block length, keeping whatever filter state it needs between blocks.
/// Implementations carry the anti-imaging and anti-aliasing filters.
pub trait Resampler<S> {
    fn process_block(&mut self, ai: &Frame<S>, ao: &mut Frame<S>);
}

/// A 2x oversampling sub-graph adapter: owns an inner runtime whose block
/// length is twice the outer one, an upsampler for the way in and a
/// downsampler for the way out.
///
/// `step` drives one outer block.  The application embeds the adapter
/// behind the node processing contract by forwarding `process` to `step`.
pub struct Oversample2X<S, N, R> {
    runtime: Runtime<S, N>,
    upsampler: R,
    downsampler: R,
    upsampled_ai: Frame<S>,
    audio_inputs: Vec<AudioInputPort>,
    audio_outputs: Vec<AudioOutputPort>,
    channels: usize,
    outer_frame: usize,
    silence: S,
}

impl<S: Copy, N: Node<S>, R: Resampler<S>> Oversample2X<S, N, R> {
    /// The inner runtime is intact and the inner work frame matches its
    /// block length.
    pub open spec fn wf(self) -> bool {
        self.inner_spec().wf()
    }

    /// The inner runtime.
    pub closed spec fn inner_spec(self) -> Runtime<S, N> {
        self.runtime
    }

    /// Channel count on both sides.
    pub closed spec fn channels_spec(self) -> nat {
        self.channels as nat
    }

    /// Outer block length; the inner runtime runs at twice this.
    pub closed spec fn outer_frame_spec(self) -> nat {
        self.outer_frame as nat
    }

    /// The silence value, taken from the inner runtime's context.
    pub closed spec fn silence_spec(self) -> S {
        self.silence
    }

    /// Wrap an inner runtime.  `outer_frame` is the outer block length;
    /// the inner runtime is expected to run blocks of twice that.
    pub fn new(runtime: Runtime<S, N>, upsampler: R, downsampler: R, channels: usize, outer_frame: usize) -> (r: Self)
        requires
            runtime.wf(),
        ensures
            r.wf(),
            r.inner_spec() == runtime,
            r.channels_spec() == channels,
            r.outer_frame_spec() == outer_frame,
            r.silence_spec() == runtime.ctx_spec().silence_spec(),
    {
        let silence = runtime.get_context().silence_value();
        let inner_frame = runtime.audio_frame_len();
        let upsampled_ai = frame_silent(channels, inner_frame, silence);
        Oversample2X {
            runtime,
            upsampler,
            downsampler,
            upsampled_ai,
            audio_inputs: generate_audio_inputs(channels),
            audio_outputs: generate_audio_outputs(channels),
            channels,
            outer_frame,
            silence,
        }
    }

    /// The adapter's input port list.
    pub fn get_audio_inputs(&self) -> &Vec<AudioInputPort> {
        &self.audio_inputs
    }

    /// The adapter's output port list.
    pub fn get_audio_outputs(&self) -> &Vec<AudioOutputPort> {
        &self.audio_outputs
    }

    /// Drive one outer block: upsample the input frame into the inner work
    /// frame, step the inner runtime on it, and downsample its output into
    /// `ao`.  The call succeeds exactly when the inner graph admits a
    /// topological order and has a live sink; on failure the inner error
    /// is returned and the output frame is silence.
    pub fn step(&mut self, ai: &Frame<S>, ao: &mut Frame<S>, ci: &Frame<S>) -> (r: Result<
        (),
        GraphError,
    >)
        requires
            old(self).wf(),
        ensures
            final(self).wf(),
            final(self).channels_spec() == old(self).channels_spec(),
            final(self).outer_frame_spec() == old(self).outer_frame_spec(),
            final(self).silence_spec() == old(self).silence_spec(),
            frame_shaped(
                final(ao)@,
                old(self).channels_spec() as int,
                old(self).outer_frame_spec() as int,
            ),
            r is Ok <==> (admits_topo(old(self).inner_spec().graph_spec()) && old(self).inner_spec().sink_ready()),
            (r == Err::<(), GraphError>(GraphError::CycleDetected)) <==> !admits_topo(
                old(self).inner_spec().graph_spec(),
            ),
            admits_topo(old(self).inner_spec().graph_spec()) ==> ((r == Err::<(), GraphError>(
                GraphError::NodeDoesNotExist,
            )) <==> !old(self).inner_spec().sink_ready()),
            r is Err ==> forall|c: int, n: int|
                0 <= c < final(ao)@.len() && 0 <= n < final(ao)@[c]@.len() ==> (#[trigger] final(ao)@[c]@[n]) == old(self).silence_spec(),
    {
        let inner_frame = self.runtime.audio_frame_len();
        self.upsampler.process_block(ai, &mut self.upsampled_ai);
        ensure_frame_shape(&mut self.upsampled_ai, self.channels, inner_frame, self.silence);
        let stepped = self.runtime.next_block_with_inputs(Some((&self.upsampled_ai, ci)));
        let result: Result<(), GraphError> = match stepped {
            Ok(inner_out) => {
                self.downsampler.process_block(inner_out, ao);
                Ok(())
            },
            Err(e) => Err(e),
        };
        ensure_frame_shape(ao, self.channels, self.outer_frame, self.silence);
        if result.is_err() {
            fill_frame_prefix(ao, self.channels, self.silence);
        }
        result
    }
}

} // verus!
