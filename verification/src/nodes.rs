//! Built-in nodes whose work is moving samples: the mono-to-stereo fanout,
//! the delay writer and reader, and the sampler.  Nodes that compute new
//! sample values (oscillators, filters, mixers) live with the application,
//! behind the same `Node` trait.

use vstd::prelude::*;
use vstd::arithmetic::div_mod::{lemma_add_mod_noop, lemma_fundamental_div_mod_converse, lemma_small_mod};

use crate::buffer::{Buffer, Frame};
use crate::context::{AudioContext, AudioSample, DelayLineKey, SampleKey, delay_key_slot, sample_key_slot, view_after_block};
use crate::node::Node;
use crate::port::{
    AudioInputPort,
    AudioOutputPort,
    ControlInputPort,
    ControlOutputPort,
    PortedErased,
    Ports,
    StereoPorts,
    generate_audio_inputs,
    generate_audio_outputs,
};

verus! {

/// Waveform selector for oscillator nodes.
#[derive(Debug, PartialEq, Eq, Clone, Copy, Structural)]
pub enum Wave {
    Sine,
    Square,
    Saw,
    Triangle,
}

/// Fill every channel of a frame with `silence`.
fn silence_frame<S: Copy>(frame: &mut Frame<S>, silence: S)
    ensures
        final(frame)@.len() == old(frame)@.len(),
        forall|c: int|
            0 <= c < final(frame)@.len() ==> (#[trigger] final(frame)@[c])@.len() == old(
                frame,
            )@[c]@.len(),
        forall|c: int, n: int|
            0 <= c < final(frame)@.len() && 0 <= n < final(frame)@[c]@.len()
                ==> (#[trigger] final(frame)@[c]@[n]) == silence,
{
    let channels = frame.len();
    let mut c: usize = 0;
    while c < channels
        invariant
            c <= channels,
            channels == frame@.len(),
            forall|j: int|
                0 <= j < channels ==> (#[trigger] frame@[j])@.len() == old(frame)@[j]@.len(),
            forall|j: int, n: int|
                0 <= j < c && 0 <= n < frame@[j]@.len() ==> (#[trigger] frame@[j]@[n]) == silence,
        decreases channels - c,
    {
        let buf = &mut frame[c];
        buf.fill(silence);
        c = c + 1;
    }
}

/// Mono-to-stereo fanout: one audio input, two audio outputs that are
/// identical copies of it.
pub struct Stereo {
    ports: StereoPorts,
}

impl Stereo {
    /// The node's port lists: input "audio", outputs "l" and "r".
    pub closed spec fn ports_spec(self) -> StereoPorts {
        self.ports
    }
}

impl Default for Stereo {
    fn default() -> (r: Self)
        ensures
            r.ports_spec().audio_inputs@.len() == 1,
            r.ports_spec().audio_outputs@.len() == 2,
    {
        Stereo { ports: StereoPorts::new() }
    }
}

impl PortedErased for Stereo {
    fn get_audio_inputs(&self) -> Option<&Vec<AudioInputPort>> {
        Some(&self.ports.audio_inputs)
    }

    fn get_audio_outputs(&self) -> Option<&Vec<AudioOutputPort>> {
        Some(&self.ports.audio_outputs)
    }

    fn get_control_inputs(&self) -> Option<&Vec<ControlInputPort>> {
        None
    }

    fn get_control_outputs(&self) -> Option<&Vec<ControlOutputPort>> {
        None
    }
}

/// Copy one input channel over every output channel.  An output channel
/// whose length does not match the input is filled with silence instead.
pub fn fan_out<S: Copy>(input: &Buffer<S>, outputs: &mut Frame<S>, silence: S)
    ensures
        final(outputs)@.len() == old(outputs)@.len(),
        forall|c: int|
            0 <= c < final(outputs)@.len() ==> (#[trigger] final(outputs)@[c])@.len() == old(
                outputs,
            )@[c]@.len(),
        forall|c: int|
            0 <= c < final(outputs)@.len() && old(outputs)@[c]@.len() == input@.len()
                ==> (#[trigger] final(outputs)@[c])@ == input@,
        forall|c: int, n: int|
            0 <= c < final(outputs)@.len() && old(outputs)@[c]@.len() != input@.len() && 0 <= n
                < final(outputs)@[c]@.len() ==> (#[trigger] final(outputs)@[c]@[n]) == silence,
{
    let channels = outputs.len();
    let mut c: usize = 0;
    while c < channels
        invariant
            c <= channels,
            channels == outputs@.len(),
            forall|j: int|
                0 <= j < channels ==> (#[trigger] outputs@[j])@.len() == old(
                    outputs,
                )@[j]@.len(),
            forall|j: int|
                0 <= j < c && old(outputs)@[j]@.len() == input@.len() ==> (#[trigger] outputs@[j])@
                    == input@,
            forall|j: int, n: int|
                0 <= j < c && old(outputs)@[j]@.len() != input@.len() && 0 <= n
                    < outputs@[j]@.len() ==> (#[trigger] outputs@[j]@[n]) == silence,
        decreases channels - c,
    {
        let same = {
            let b: &Buffer<S> = &outputs[c];
            b.len() == input.len()
        };
        let buf = &mut outputs[c];
        if same {
            buf.copy_from(input);
        } else {
            buf.fill(silence);
        }
        c = c + 1;
    }
}

impl<S: Copy> Node<S> for Stereo {
    /// Broadcast input channel 0 over every output channel; with no input
    /// channel at all, or on an output channel of the wrong length, the
    /// output is silence.
    fn process(
        &mut self,
        ctx: &mut AudioContext<S>,
        ai: &Frame<S>,
        ao: &mut Frame<S>,
        ci: &Frame<S>,
        co: &mut Frame<S>,
    )
        ensures
            *final(self) == *old(self),
            *final(ctx) == *old(ctx),
            *final(co) == *old(co),
            final(ao)@.len() == old(ao)@.len(),
            forall|c: int|
                0 <= c < final(ao)@.len() ==> (#[trigger] final(ao)@[c])@.len() == old(ao)@[c]@.len(),
            ai@.len() >= 1 ==> forall|c: int|
                0 <= c < final(ao)@.len() && old(ao)@[c]@.len() == ai@[0]@.len()
                    ==> (#[trigger] final(ao)@[c])@ == ai@[0]@,
            ai@.len() >= 1 ==> forall|c: int, n: int|
                0 <= c < final(ao)@.len() && old(ao)@[c]@.len() != ai@[0]@.len() && 0 <= n
                    < final(ao)@[c]@.len() ==> (#[trigger] final(ao)@[c]@[n]) == old(ctx).silence_spec(),
            ai@.len() == 0 ==> forall|c: int, n: int|
                0 <= c < final(ao)@.len() && 0 <= n < final(ao)@[c]@.len() ==> (#[trigger] final(ao)@[c]@[n]) == old(ctx).silence_spec(),
    {
        let silence = ctx.silence_value();
        if ai.len() >= 1 {
            let input = &ai[0];
            fan_out(input, ao, silence);
        } else {
            silence_frame(ao, silence);
        }
    }
}

/// Writes its audio input frame into a shared delay line, one block per
/// call; it has no outputs of its own.
pub struct DelayWrite {
    delay_line_key: DelayLineKey,
    ports: Ports,
}

impl DelayWrite {
    /// The delay line this writer feeds.
    pub closed spec fn key_spec(self) -> DelayLineKey {
        self.delay_line_key
    }

    pub fn new(delay_line_key: DelayLineKey, channels: usize) -> (r: Self)
        ensures
            r.key_spec() == delay_line_key,
    {
        DelayWrite {
            delay_line_key,
            ports: Ports {
                audio_inputs: Some(generate_audio_inputs(channels)),
                audio_outputs: None,
                control_inputs: None,
                control_outputs: None,
            },
        }
    }
}

impl PortedErased for DelayWrite {
    fn get_audio_inputs(&self) -> Option<&Vec<AudioInputPort>> {
        self.ports.get_audio_inputs()
    }

    fn get_audio_outputs(&self) -> Option<&Vec<AudioOutputPort>> {
        self.ports.get_audio_outputs()
    }

    fn get_control_inputs(&self) -> Option<&Vec<ControlInputPort>> {
        self.ports.get_control_inputs()
    }

    fn get_control_outputs(&self) -> Option<&Vec<ControlOutputPort>> {
        self.ports.get_control_outputs()
    }
}

impl<S: Copy> Node<S> for DelayWrite {
    /// Commit the input frame into the delay line this writer holds a key
    /// for, exactly as `AudioContext::write_block` states; outputs and the
    /// node's own state are untouched.
    fn process(
        &mut self,
        ctx: &mut AudioContext<S>,
        ai: &Frame<S>,
        ao: &mut Frame<S>,
        ci: &Frame<S>,
        co: &mut Frame<S>,
    )
        ensures
            *final(self) == *old(self),
            *final(ao) == *old(ao),
            *final(co) == *old(co),
            final(ctx).sample_rate_spec() == old(ctx).sample_rate_spec(),
            final(ctx).control_rate_spec() == old(ctx).control_rate_spec(),
            final(ctx).silence_spec() == old(ctx).silence_spec(),
            final(ctx).delay_count() == old(ctx).delay_count(),
            final(ctx).sample_count() == old(ctx).sample_count(),
            forall|i: int|
                0 <= i < old(ctx).sample_count() ==> (#[trigger] final(ctx).sample_at(i)) == old(ctx).sample_at(i),
            forall|i: int|
                0 <= i < old(ctx).delay_count() && i != delay_key_slot(old(self).key_spec()) ==> (
                #[trigger] final(ctx).delay_at(i)) == old(ctx).delay_at(i),
            !old(ctx).has_delay(old(self).key_spec()) ==> *final(ctx) == *old(ctx),
            old(ctx).has_delay(old(self).key_spec()) ==> {
                let line0 = old(ctx).delay_at(delay_key_slot(old(self).key_spec()));
                let line1 = final(ctx).delay_at(delay_key_slot(old(self).key_spec()));
                &&& line1.channels() == line0.channels()
                &&& line1.capacity_spec() == line0.capacity_spec()
                &&& line1.silence_val() == line0.silence_val()
                &&& (line0.wf() ==> line1.wf())
                &&& (line0.wf() && line0.capacity_spec() > 0 ==> forall|c: int|
                    0 <= c < line0.channels() && c < ai@.len() ==> (#[trigger] line1.channel(c))
                        == view_after_block(line0.channel(c), ai@[c]@))
            },
    {
        ctx.write_block(self.delay_line_key, ai);
    }
}

/// Reads a shared delay line at fixed per-channel offsets, expressed in
/// samples backwards from the line's write cursor.  The `block - 1 - n`
/// term aligns sample `n` of the block with the logical write position at
/// that sample, even though the writer commits whole blocks.
pub struct DelayRead {
    delay_line_key: DelayLineKey,
    offsets: Vec<usize>,
    ports: Ports,
}

impl DelayRead {
    /// The delay line this reader taps.
    pub closed spec fn key_spec(self) -> DelayLineKey {
        self.delay_line_key
    }

    /// Per-channel offsets in samples.
    pub closed spec fn offsets_spec(self) -> Seq<usize> {
        self.offsets@
    }

    pub fn new(delay_line_key: DelayLineKey, offsets: Vec<usize>) -> (r: Self)
        ensures
            r.key_spec() == delay_line_key,
            r.offsets_spec() == offsets@,
    {
        let channels = offsets.len();
        DelayRead {
            delay_line_key,
            offsets,
            ports: Ports {
                audio_inputs: None,
                audio_outputs: Some(generate_audio_outputs(channels)),
                control_inputs: None,
                control_outputs: None,
            },
        }
    }

    /// Fill an output frame from the delay line: channel `c`, sample `n`
    /// of a block of length `L` reads the line at offset
    /// `offsets[c] + L - 1 - n`.  Channels without an offset read silence.
    pub fn read_block<S: Copy>(&self, ctx: &AudioContext<S>, ao: &mut Frame<S>)
        ensures
            final(ao)@.len() == old(ao)@.len(),
            forall|c: int|
                0 <= c < final(ao)@.len() ==> (#[trigger] final(ao)@[c])@.len() == old(ao)@[c]@.len(),
            forall|c: int, n: int|
                0 <= c < final(ao)@.len() && 0 <= n < final(ao)@[c]@.len() && c
                    < self.offsets_spec().len() && self.offsets_spec()[c] + final(ao)@[c]@.len()
                    <= usize::MAX && ctx.has_delay(self.key_spec()) && ctx.delay_at(
                    delay_key_slot(self.key_spec()),
                ).wf() && c < ctx.delay_at(delay_key_slot(self.key_spec())).channels()
                    && ctx.delay_at(delay_key_slot(self.key_spec())).capacity_spec() > 0
                    ==> (#[trigger] final(ao)@[c]@[n]) == ctx.delay_at(
                    delay_key_slot(self.key_spec()),
                ).channel(c)[(self.offsets_spec()[c] + final(ao)@[c]@.len() - 1 - n) % (ctx
                    .delay_at(delay_key_slot(self.key_spec())).capacity_spec() as int)],
            forall|c: int, n: int|
                0 <= c < final(ao)@.len() && 0 <= n < final(ao)@[c]@.len() && c
                    >= self.offsets_spec().len() ==> (#[trigger] final(ao)@[c]@[n]) == ctx
                    .silence_spec(),
    {
        let silence = ctx.silence_value();
        let channels = ao.len();
        let mut c: usize = 0;
        while c < channels
            invariant
                c <= channels,
                channels == ao@.len(),
                forall|j: int|
                    0 <= j < channels ==> (#[trigger] ao@[j])@.len() == old(ao)@[j]@.len(),
                silence == ctx.silence_spec(),
                forall|j: int, n: int|
                    0 <= j < c && 0 <= n < ao@[j]@.len() && j < self.offsets_spec().len()
                        && self.offsets_spec()[j] + ao@[j]@.len() <= usize::MAX && ctx.has_delay(
                        self.key_spec(),
                    ) && ctx.delay_at(delay_key_slot(self.key_spec())).wf() && j < ctx.delay_at(
                        delay_key_slot(self.key_spec()),
                    ).channels() && ctx.delay_at(delay_key_slot(self.key_spec())).capacity_spec()
                        > 0 ==> (#[trigger] ao@[j]@[n]) == ctx.delay_at(
                        delay_key_slot(self.key_spec()),
                    ).channel(j)[(self.offsets_spec()[j] + ao@[j]@.len() - 1 - n) % (ctx.delay_at(
                        delay_key_slot(self.key_spec()),
                    ).capacity_spec() as int)],
                forall|j: int, n: int|
                    0 <= j < c && 0 <= n < ao@[j]@.len() && j >= self.offsets_spec().len() ==> (
                    #[trigger] ao@[j]@[n]) == silence,
            decreases channels - c,
        {
            let blk = {
                let b: &Buffer<S> = &ao[c];
                b.len()
            };
            if c < self.offsets.len() {
                let off = self.offsets[c];
                if blk > 0 && off <= usize::MAX - blk {
                    let ghost ao_pre = ao@;
                    let mut n: usize = 0;
                    while n < blk
                        invariant
                            n <= blk,
                            c < channels,
                            channels == ao@.len(),
                            blk == ao@[c as int]@.len(),
                            blk > 0,
                            c < self.offsets_spec().len(),
                            off == self.offsets_spec()[c as int],
                            off + blk <= usize::MAX,
                            silence == ctx.silence_spec(),
                            ao_pre.len() == channels,
                            forall|j: int|
                                0 <= j < channels ==> (#[trigger] ao@[j])@.len() == old(ao)@[j]@.len(),
                            forall|j: int| 0 <= j < channels && j != c ==> (#[trigger] ao@[j])
                                == ao_pre[j],
                            forall|m: int|
                                0 <= m < n && ctx.has_delay(self.key_spec()) && ctx.delay_at(
                                    delay_key_slot(self.key_spec()),
                                ).wf() && (c as int) < ctx.delay_at(
                                    delay_key_slot(self.key_spec()),
                                ).channels() && ctx.delay_at(
                                    delay_key_slot(self.key_spec()),
                                ).capacity_spec() > 0 ==> (#[trigger] ao@[c as int]@[m]) == ctx
                                    .delay_at(delay_key_slot(self.key_spec())).channel(
                                    c as int,
                                )[(off + blk - 1 - m) % (ctx.delay_at(
                                    delay_key_slot(self.key_spec()),
                                ).capacity_spec() as int)],
                        decreases blk - n,
                    {
                        let k = off + (blk - 1 - n);
                        let v = ctx.get_delay_sample(self.delay_line_key, c, k);
                        let buf = &mut ao[c];
                        buf.set(n, v);
                        n = n + 1;
                    }
                } else {
                    let buf = &mut ao[c];
                    buf.fill(silence);
                }
            } else {
                let buf = &mut ao[c];
                buf.fill(silence);
            }
            c = c + 1;
        }
    }
}

impl PortedErased for DelayRead {
    fn get_audio_inputs(&self) -> Option<&Vec<AudioInputPort>> {
        self.ports.get_audio_inputs()
    }

    fn get_audio_outputs(&self) -> Option<&Vec<AudioOutputPort>> {
        self.ports.get_audio_outputs()
    }

    fn get_control_inputs(&self) -> Option<&Vec<ControlInputPort>> {
        self.ports.get_control_inputs()
    }

    fn get_control_outputs(&self) -> Option<&Vec<ControlOutputPort>> {
        self.ports.get_control_outputs()
    }
}

impl<S: Copy> Node<S> for DelayRead {
    /// Fill the output frame from the delay line at this reader's
    /// per-channel offsets, exactly as `read_block` states; the context
    /// and the node's own state are untouched.
    fn process(
        &mut self,
        ctx: &mut AudioContext<S>,
        ai: &Frame<S>,
        ao: &mut Frame<S>,
        ci: &Frame<S>,
        co: &mut Frame<S>,
    )
        ensures
            *final(self) == *old(self),
            *final(ctx) == *old(ctx),
            *final(co) == *old(co),
            final(ao)@.len() == old(ao)@.len(),
            forall|c: int|
                0 <= c < final(ao)@.len() ==> (#[trigger] final(ao)@[c])@.len() == old(ao)@[c]@.len(),
            forall|c: int, n: int|
                0 <= c < final(ao)@.len() && 0 <= n < final(ao)@[c]@.len() && c < old(self).offsets_spec().len() && old(self).offsets_spec()[c] + final(ao)@[c]@.len()
                    <= usize::MAX && old(ctx).has_delay(old(self).key_spec()) && old(ctx).delay_at(
                    delay_key_slot(old(self).key_spec()),
                ).wf() && c < old(ctx).delay_at(delay_key_slot(old(self).key_spec())).channels()
                    && old(ctx).delay_at(delay_key_slot(old(self).key_spec())).capacity_spec() > 0
                    ==> (#[trigger] final(ao)@[c]@[n]) == old(ctx).delay_at(
                    delay_key_slot(old(self).key_spec()),
                ).channel(c)[(old(self).offsets_spec()[c] + final(ao)@[c]@.len() - 1 - n) % (old(ctx).delay_at(delay_key_slot(old(self).key_spec())).capacity_spec() as int)],
            forall|c: int, n: int|
                0 <= c < final(ao)@.len() && 0 <= n < final(ao)@[c]@.len() && c >= old(self).offsets_spec().len() ==> (#[trigger] final(ao)@[c]@[n]) == old(ctx).silence_spec(),
    {
        self.read_block(ctx, ao);
    }
}


/// Plays a sample asset from the context's store: no inputs, one audio
/// output per channel.  A read cursor advances one block per call, wrapping
/// when looping and clamping at the end otherwise.  With nothing loaded it
/// emits silence.
pub struct Sampler {
    sample_key: SampleKey,
    read_pos: usize,
    is_looping: bool,
    ports: Ports,
}

impl Sampler {
    /// The sample slot this node plays.
    pub closed spec fn key_spec(self) -> SampleKey {
        self.sample_key
    }

    /// The read cursor, in frames from the start of the table.
    pub closed spec fn pos_spec(self) -> nat {
        self.read_pos as nat
    }

    /// Whether the cursor wraps at the end of the table.
    pub closed spec fn looping_spec(self) -> bool {
        self.is_looping
    }

    pub fn new(sample_key: SampleKey, channels: usize) -> (r: Self)
        ensures
            r.key_spec() == sample_key,
            r.pos_spec() == 0,
            r.looping_spec(),
    {
        Sampler {
            sample_key,
            read_pos: 0,
            is_looping: true,
            ports: Ports {
                audio_inputs: None,
                audio_outputs: Some(generate_audio_outputs(channels)),
                control_inputs: None,
                control_outputs: None,
            },
        }
    }

    /// Switch between looping and one-shot playback.
    pub fn set_looping(&mut self, looping: bool)
        ensures
            final(self).looping_spec() == looping,
            final(self).key_spec() == old(self).key_spec(),
            final(self).pos_spec() == old(self).pos_spec(),
    {
        self.is_looping = looping;
    }

    /// Render one block from a table snapshot and advance the cursor by
    /// the block length (channel 0's length).
    ///
    /// With a table of logical length `L > 0`, output channel `c` sample
    /// `n` is the table at `(pos + n) mod L` when looping, and the table at
    /// `pos + n` — silence past the end — otherwise; positions outside a
    /// channel's own data read as silence.  Without a table, or with an
    /// empty one, the output is silence and the cursor does not move.
    pub fn render<S: Copy>(&mut self, table: Option<&AudioSample<S>>, ao: &mut Frame<S>, silence: S)
        ensures
            final(self).key_spec() == old(self).key_spec(),
            final(self).looping_spec() == old(self).looping_spec(),
            final(ao)@.len() == old(ao)@.len(),
            forall|c: int|
                0 <= c < final(ao)@.len() ==> (#[trigger] final(ao)@[c])@.len() == old(ao)@[c]@.len(),
            (table is None || table.unwrap().frame_len_spec() == 0) ==> final(self).pos_spec()
                == old(self).pos_spec() && (forall|c: int, n: int|
                0 <= c < final(ao)@.len() && 0 <= n < final(ao)@[c]@.len()
                    ==> (#[trigger] final(ao)@[c]@[n]) == silence),
            (table is Some && table.unwrap().frame_len_spec() > 0) ==> {
                let t = *table.unwrap();
                let l = t.frame_len_spec() as int;
                &&& (old(self).looping_spec() ==> forall|c: int, n: int|
                    0 <= c < final(ao)@.len() && 0 <= n < final(ao)@[c]@.len()
                        ==> (#[trigger] final(ao)@[c]@[n]) == sample_table_read(
                        t,
                        c,
                        (old(self).pos_spec() + n) % l,
                        silence,
                    ))
                &&& (!old(self).looping_spec() ==> forall|c: int, n: int|
                    0 <= c < final(ao)@.len() && 0 <= n < final(ao)@[c]@.len()
                        ==> (#[trigger] final(ao)@[c]@[n]) == (if old(self).pos_spec() + n < l {
                        sample_table_read(t, c, old(self).pos_spec() + n, silence)
                    } else {
                        silence
                    }))
                &&& {
                    let blk = (if final(ao)@.len() > 0 {
                        final(ao)@[0]@.len()
                    } else {
                        0
                    }) as int;
                    &&& (old(self).looping_spec() ==> final(self).pos_spec() == (old(self).pos_spec() + blk) % l)
                    &&& (!old(self).looping_spec() ==> final(self).pos_spec() == (if old(self).pos_spec() + blk < l {
                        old(self).pos_spec() + blk
                    } else {
                        l
                    }))
                }
            },
    {
        match table {
            None => {
                silence_frame(ao, silence);
            },
            Some(t) => {
                let l = t.frame_len();
                if l == 0 {
                    silence_frame(ao, silence);
                } else {
                    let base = self.read_pos % l;
                    proof {
                        if !self.is_looping && self.read_pos < l {
                            lemma_small_mod(self.read_pos as nat, l as nat);
                        }
                    }
                    let channels = ao.len();
                    let mut c: usize = 0;
                    while c < channels
                        invariant
                            c <= channels,
                            channels == ao@.len(),
                            l == t.frame_len_spec(),
                            l > 0,
                            base == (old(self).pos_spec() as int) % (l as int),
                            self.read_pos == old(self).read_pos,
                            self.is_looping == old(self).is_looping,
                            self.sample_key == old(self).sample_key,
                            forall|j: int|
                                0 <= j < channels ==> (#[trigger] ao@[j])@.len() == old(ao)@[j]@.len(),
                            self.is_looping ==> forall|j: int, n: int|
                                0 <= j < c && 0 <= n < ao@[j]@.len() ==> (#[trigger] ao@[j]@[n])
                                    == sample_table_read(
                                    *t,
                                    j,
                                    (old(self).pos_spec() + n) % (l as int),
                                    silence,
                                ),
                            !self.is_looping ==> forall|j: int, n: int|
                                0 <= j < c && 0 <= n < ao@[j]@.len() ==> (#[trigger] ao@[j]@[n])
                                    == (if old(self).pos_spec() + n < l {
                                    sample_table_read(*t, j, old(self).pos_spec() + n, silence)
                                } else {
                                    silence
                                }),
                        decreases channels - c,
                    {
                        let blk = {
                            let b: &Buffer<S> = &ao[c];
                            b.len()
                        };
                        let ghost ao_pre = ao@;
                        let mut n: usize = 0;
                        while n < blk
                            invariant
                                n <= blk,
                                c < channels,
                                channels == ao@.len(),
                                ao_pre.len() == channels,
                                blk == ao@[c as int]@.len(),
                                l == t.frame_len_spec(),
                                l > 0,
                                base == (old(self).pos_spec() as int) % (l as int),
                                base < l,
                                self.read_pos == old(self).read_pos,
                                self.is_looping == old(self).is_looping,
                                self.sample_key == old(self).sample_key,
                                forall|j: int|
                                    0 <= j < channels ==> (#[trigger] ao@[j])@.len() == old(ao)@[j]@.len(),
                                forall|j: int| 0 <= j < channels && j != c ==> (#[trigger] ao@[j])
                                    == ao_pre[j],
                                self.is_looping ==> forall|m: int|
                                    0 <= m < n ==> (#[trigger] ao@[c as int]@[m])
                                        == sample_table_read(
                                        *t,
                                        c as int,
                                        (old(self).pos_spec() + m) % (l as int),
                                        silence,
                                    ),
                                !self.is_looping ==> forall|m: int|
                                    0 <= m < n ==> (#[trigger] ao@[c as int]@[m]) == (if old(self).pos_spec() + m < l {
                                        sample_table_read(*t, c as int, old(self).pos_spec() + m, silence)
                                    } else {
                                        silence
                                    }),
                            decreases blk - n,
                        {
                            let v: S;
                            if self.is_looping {
                                let nm = n % l;
                                let idx = if nm < l - base {
                                    base + nm
                                } else {
                                    nm - (l - base)
                                };
                                proof {
                                    lemma_add_mod_noop(
                                        old(self).pos_spec() as int,
                                        n as int,
                                        l as int,
                                    );
                                    assert(idx as int == (base + nm as int) % (l as int)) by {
                                        if nm < l - base {
                                            lemma_small_mod((base + nm) as nat, l as nat);
                                        } else {
                                            lemma_fundamental_div_mod_converse(
                                                base + nm as int,
                                                l as int,
                                                1,
                                                base + nm as int - l,
                                            );
                                        }
                                    }
                                    assert(idx as int == (old(self).pos_spec() + n) % (l as int));
                                }
                                v = t.get(c, idx, silence);
                            } else {
                                if self.read_pos < l && n < l - self.read_pos {
                                    v = t.get(c, self.read_pos + n, silence);
                                } else {
                                    v = silence;
                                }
                                proof {
                                    if old(self).pos_spec() + n < l {
                                        assert(self.read_pos < l);
                                    }
                                }
                            }
                            let buf = &mut ao[c];
                            buf.set(n, v);
                            n = n + 1;
                        }
                        c = c + 1;
                    }
                    let nblk = if channels > 0 {
                        let b: &Buffer<S> = &ao[0];
                        b.len()
                    } else {
                        0
                    };
                    if self.is_looping {
                        let bn = nblk % l;
                        let advanced = if bn < l - base {
                            base + bn
                        } else {
                            bn - (l - base)
                        };
                        proof {
                            lemma_add_mod_noop(old(self).pos_spec() as int, nblk as int, l as int);
                            assert(advanced as int == (base + bn as int) % (l as int)) by {
                                if bn < l - base {
                                    lemma_small_mod((base + bn) as nat, l as nat);
                                } else {
                                    lemma_fundamental_div_mod_converse(
                                        base + bn as int,
                                        l as int,
                                        1,
                                        base + bn as int - l,
                                    );
                                }
                            }
                        }
                        self.read_pos = advanced;
                    } else {
                        self.read_pos = if self.read_pos < l && nblk < l - self.read_pos {
                            self.read_pos + nblk
                        } else {
                            l
                        };
                    }
                }
            },
        }
    }
}

/// What a table read yields: the stored sample when the channel and index
/// exist, the fallback otherwise.
pub open spec fn sample_table_read<S: Copy>(t: AudioSample<S>, c: int, i: int, silence: S) -> S {
    if 0 <= c < t.channels() && 0 <= i < t.table()[c].len() {
        t.table()[c][i]
    } else {
        silence
    }
}

impl PortedErased for Sampler {
    fn get_audio_inputs(&self) -> Option<&Vec<AudioInputPort>> {
        self.ports.get_audio_inputs()
    }

    fn get_audio_outputs(&self) -> Option<&Vec<AudioOutputPort>> {
        self.ports.get_audio_outputs()
    }

    fn get_control_inputs(&self) -> Option<&Vec<ControlInputPort>> {
        self.ports.get_control_inputs()
    }

    fn get_control_outputs(&self) -> Option<&Vec<ControlOutputPort>> {
        self.ports.get_control_outputs()
    }
}

impl<S: Copy> Node<S> for Sampler {
    /// Render one block from the snapshot in this sampler's sample slot,
    /// exactly as `render` states, with the table taken from the context's
    /// store; the context itself is untouched.
    fn process(
        &mut self,
        ctx: &mut AudioContext<S>,
        ai: &Frame<S>,
        ao: &mut Frame<S>,
        ci: &Frame<S>,
        co: &mut Frame<S>,
    )
        ensures
            *final(ctx) == *old(ctx),
            *final(co) == *old(co),
            final(self).key_spec() == old(self).key_spec(),
            final(self).looping_spec() == old(self).looping_spec(),
            final(ao)@.len() == old(ao)@.len(),
            forall|c: int|
                0 <= c < final(ao)@.len() ==> (#[trigger] final(ao)@[c])@.len() == old(ao)@[c]@.len(),
            !(old(ctx).has_sample_slot(old(self).key_spec()) && old(ctx).sample_at(
                sample_key_slot(old(self).key_spec()),
            ) is Some && old(ctx).sample_at(
                sample_key_slot(old(self).key_spec()),
            ).unwrap().frame_len_spec() > 0) ==> final(self).pos_spec() == old(self).pos_spec() && (
            forall|c: int, n: int|
                0 <= c < final(ao)@.len() && 0 <= n < final(ao)@[c]@.len() ==> (#[trigger] final(ao)@[c]@[n]) == old(ctx).silence_spec()),
            (old(ctx).has_sample_slot(old(self).key_spec()) && old(ctx).sample_at(
                sample_key_slot(old(self).key_spec()),
            ) is Some && old(ctx).sample_at(
                sample_key_slot(old(self).key_spec()),
            ).unwrap().frame_len_spec() > 0) ==> {
                let t = old(ctx).sample_at(sample_key_slot(old(self).key_spec())).unwrap();
                let l = t.frame_len_spec() as int;
                &&& (old(self).looping_spec() ==> forall|c: int, n: int|
                    0 <= c < final(ao)@.len() && 0 <= n < final(ao)@[c]@.len()
                        ==> (#[trigger] final(ao)@[c]@[n]) == sample_table_read(
                        t,
                        c,
                        (old(self).pos_spec() + n) % l,
                        old(ctx).silence_spec(),
                    ))
                &&& (!old(self).looping_spec() ==> forall|c: int, n: int|
                    0 <= c < final(ao)@.len() && 0 <= n < final(ao)@[c]@.len()
                        ==> (#[trigger] final(ao)@[c]@[n]) == (if old(self).pos_spec() + n < l {
                        sample_table_read(t, c, old(self).pos_spec() + n, old(ctx).silence_spec())
                    } else {
                        old(ctx).silence_spec()
                    }))
                &&& {
                    let blk = (if final(ao)@.len() > 0 {
                        final(ao)@[0]@.len()
                    } else {
                        0
                    }) as int;
                    &&& (old(self).looping_spec() ==> final(self).pos_spec() == (old(self).pos_spec() + blk) % l)
                    &&& (!old(self).looping_spec() ==> final(self).pos_spec() == (if old(self).pos_spec() + blk < l {
                        old(self).pos_spec() + blk
                    } else {
                        l
                    }))
                }
            },
    {
        let silence = ctx.silence_value();
        let key = self.sample_key;
        let table = ctx.get_sample(key);
        self.render(table, ao, silence);
    }
}

} // verus!
