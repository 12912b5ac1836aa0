use legato::{
    AudioContext, AudioInputPort, AudioOutputPort, AudioSample, Buffer, Connection,
    ConnectionEntry, ControlInputPort, ControlOutputPort, DelayLine, DelayRead, DelayWrite, Frame,
    GraphError, Node, NodeKey, Oversample2X, PortRate, PortedErased, Resampler, Runtime, Sampler,
    Stereo, build_runtime, generate_audio_inputs, generate_audio_outputs,
};

const TAU: f32 = std::f32::consts::TAU;

/// The node set the scenarios run: float DSP lives here, behind the
/// library's processing contract.
enum TestNode {
    /// Sine oscillator with optional FM input on port 0.
    Sine {
        freq: f32,
        phase: f32,
        ins: Vec<AudioInputPort>,
        outs: Vec<AudioOutputPort>,
    },
    /// Adds a fixed operand to its input; with no wire attached the input
    /// is silence, which makes this a constant source.
    Add {
        operand: f32,
        ins: Vec<AudioInputPort>,
        outs: Vec<AudioOutputPort>,
    },
    /// Equal-power mixer: output o sums inputs i with i mod outs == o,
    /// scaled by 1/sqrt(ins/outs).
    Mixer {
        ins: Vec<AudioInputPort>,
        outs: Vec<AudioOutputPort>,
    },
    /// Per-channel FIR filter over a ring of the kernel's length.
    Fir {
        coeffs: Vec<f32>,
        state: Vec<legato::RingBuffer<f32>>,
        ins: Vec<AudioInputPort>,
        outs: Vec<AudioOutputPort>,
    },
    /// Emits a fixed sequence once, then silence.
    Pattern {
        data: Vec<f32>,
        pos: usize,
        outs: Vec<AudioOutputPort>,
    },
    /// Copies input to output (identity).
    Pass {
        ins: Vec<AudioInputPort>,
        outs: Vec<AudioOutputPort>,
    },
    Fan(Stereo),
    Writer(DelayWrite),
    Reader(DelayRead),
    Player(Sampler),
}

fn sine(freq: f32) -> TestNode {
    TestNode::Sine {
        freq,
        phase: 0.0,
        ins: generate_audio_inputs(1),
        outs: generate_audio_outputs(1),
    }
}

fn constant(value: f32) -> TestNode {
    TestNode::Add { operand: value, ins: generate_audio_inputs(1), outs: generate_audio_outputs(1) }
}

fn mixer(inputs: usize, outputs: usize) -> TestNode {
    TestNode::Mixer { ins: generate_audio_inputs(inputs), outs: generate_audio_outputs(outputs) }
}

fn fir(coeffs: Vec<f32>, channels: usize) -> TestNode {
    let mut state = Vec::new();
    for _ in 0..channels {
        state.push(legato::RingBuffer::with_capacity(coeffs.len(), 0.0));
    }
    TestNode::Fir {
        coeffs,
        state,
        ins: generate_audio_inputs(channels),
        outs: generate_audio_outputs(channels),
    }
}

fn seq_source(data: Vec<f32>) -> TestNode {
    TestNode::Pattern { data, pos: 0, outs: generate_audio_outputs(1) }
}

fn passthrough(channels: usize) -> TestNode {
    TestNode::Pass { ins: generate_audio_inputs(channels), outs: generate_audio_outputs(channels) }
}

impl PortedErased for TestNode {
    fn get_audio_inputs(&self) -> Option<&Vec<AudioInputPort>> {
        match self {
            TestNode::Sine { ins, .. } => Some(ins),
            TestNode::Add { ins, .. } => Some(ins),
            TestNode::Mixer { ins, .. } => Some(ins),
            TestNode::Fir { ins, .. } => Some(ins),
            TestNode::Pattern { .. } => None,
            TestNode::Pass { ins, .. } => Some(ins),
            TestNode::Fan(n) => n.get_audio_inputs(),
            TestNode::Writer(n) => n.get_audio_inputs(),
            TestNode::Reader(n) => n.get_audio_inputs(),
            TestNode::Player(n) => n.get_audio_inputs(),
        }
    }

    fn get_audio_outputs(&self) -> Option<&Vec<AudioOutputPort>> {
        match self {
            TestNode::Sine { outs, .. } => Some(outs),
            TestNode::Add { outs, .. } => Some(outs),
            TestNode::Mixer { outs, .. } => Some(outs),
            TestNode::Fir { outs, .. } => Some(outs),
            TestNode::Pattern { outs, .. } => Some(outs),
            TestNode::Pass { outs, .. } => Some(outs),
            TestNode::Fan(n) => n.get_audio_outputs(),
            TestNode::Writer(n) => n.get_audio_outputs(),
            TestNode::Reader(n) => n.get_audio_outputs(),
            TestNode::Player(n) => n.get_audio_outputs(),
        }
    }

    fn get_control_inputs(&self) -> Option<&Vec<ControlInputPort>> {
        None
    }

    fn get_control_outputs(&self) -> Option<&Vec<ControlOutputPort>> {
        None
    }
}

fn in_sample(ai: &Frame<f32>, c: usize, n: usize) -> f32 {
    if c < ai.len() && n < ai[c].len() { ai[c].get(n) } else { 0.0 }
}

impl Node<f32> for TestNode {
    fn process(
        &mut self,
        ctx: &mut AudioContext<f32>,
        ai: &Frame<f32>,
        ao: &mut Frame<f32>,
        ci: &Frame<f32>,
        co: &mut Frame<f32>,
    ) {
        match self {
            TestNode::Sine { freq, phase, .. } => {
                let fs = ctx.get_sample_rate() as f32;
                let channels = ao.len();
                let block = if channels > 0 { ao[0].len() } else { 0 };
                for n in 0..block {
                    let fm = in_sample(ai, 0, n);
                    let sample = (*phase * TAU).sin();
                    *phase = (*phase + (*freq + fm) / fs).fract();
                    for c in 0..channels {
                        if n < ao[c].len() {
                            ao[c].set(n, sample);
                        }
                    }
                }
            }
            TestNode::Add { operand, .. } => {
                for c in 0..ao.len() {
                    for n in 0..ao[c].len() {
                        let x = in_sample(ai, c, n);
                        ao[c].set(n, x + *operand);
                    }
                }
            }
            TestNode::Mixer { ins, outs, .. } => {
                let n_in = ins.len();
                let n_out = outs.len();
                let tracks = if n_out > 0 { n_in / n_out } else { 0 };
                let divisor = (tracks as f32).sqrt();
                for c in 0..ao.len() {
                    for n in 0..ao[c].len() {
                        ao[c].set(n, 0.0);
                    }
                }
                for n in 0..(if ao.is_empty() { 0 } else { ao[0].len() }) {
                    for i in 0..n_in {
                        let o = if n_out > 0 { i % n_out } else { 0 };
                        if o < ao.len() && n < ao[o].len() {
                            let acc = ao[o].get(n) + in_sample(ai, i, n) / divisor;
                            ao[o].set(n, acc);
                        }
                    }
                }
            }
            TestNode::Fir { coeffs, state, .. } => {
                for c in 0..ao.len() {
                    if c >= state.len() {
                        break;
                    }
                    for n in 0..ao[c].len() {
                        let x = in_sample(ai, c, n);
                        state[c].push(x);
                        let mut y = 0.0;
                        for (k, h) in coeffs.iter().enumerate() {
                            y += h * state[c].get(k);
                        }
                        ao[c].set(n, y);
                    }
                }
            }
            TestNode::Pattern { data, pos, .. } => {
                for c in 0..ao.len() {
                    for n in 0..ao[c].len() {
                        let idx = *pos + n;
                        let v = if idx < data.len() { data[idx] } else { 0.0 };
                        ao[c].set(n, v);
                    }
                }
                let block = if ao.is_empty() { 0 } else { ao[0].len() };
                *pos += block;
            }
            TestNode::Pass { .. } => {
                for c in 0..ao.len() {
                    for n in 0..ao[c].len() {
                        ao[c].set(n, in_sample(ai, c, n));
                    }
                }
            }
            TestNode::Fan(n) => n.process(ctx, ai, ao, ci, co),
            TestNode::Writer(n) => n.process(ctx, ai, ao, ci, co),
            TestNode::Reader(n) => n.process(ctx, ai, ao, ci, co),
            TestNode::Player(n) => n.process(ctx, ai, ao, ci, co),
        }
    }
}

fn audio_wire(a: NodeKey, ap: usize, b: NodeKey, bp: usize) -> Connection {
    Connection {
        source: ConnectionEntry { node_key: a, port_index: ap, port_rate: PortRate::Audio },
        sink: ConnectionEntry { node_key: b, port_index: bp, port_rate: PortRate::Audio },
    }
}

fn block_to_vec(frame: &Frame<f32>, channel: usize) -> Vec<f32> {
    let mut out = Vec::new();
    for n in 0..frame[channel].len() {
        out.push(frame[channel].get(n));
    }
    out
}

#[test]
fn single_oscillator_to_sink() {
    let mut rt: Runtime<f32, TestNode> = build_runtime(8, 48000, 48000, 64, 64, 0.0);
    let osc = rt.add_node(sine(480.0));
    rt.set_sink_key(osc).unwrap();

    let block0 = block_to_vec(rt.next_block().unwrap(), 0);
    assert_eq!(block0[0], 0.0);
    let expected1 = (TAU * 480.0 / 48000.0).sin();
    assert!((block0[1] - expected1).abs() < 1e-5);
    assert!((block0[1] - 0.06279).abs() < 1e-3);

    let block1 = block_to_vec(rt.next_block().unwrap(), 0);
    // sample 100 overall continues the phase without discontinuity
    let expected100 = (TAU * 480.0 * 100.0 / 48000.0).sin();
    assert!((block1[36] - expected100).abs() < 1e-4);
}

#[test]
fn stereo_mix_sum() {
    let mut rt: Runtime<f32, TestNode> = build_runtime(8, 48000, 48000, 32, 32, 0.0);
    let a = rt.add_node(constant(0.5));
    let b = rt.add_node(constant(-0.5));
    let mix = rt.add_node(mixer(2, 1));
    rt.add_edge(audio_wire(a, 0, mix, 0)).unwrap();
    rt.add_edge(audio_wire(b, 0, mix, 1)).unwrap();
    rt.set_sink_key(mix).unwrap();

    for _ in 0..3 {
        let out = block_to_vec(rt.next_block().unwrap(), 0);
        for v in out {
            assert!(v.abs() < 1e-7);
        }
    }
}

#[test]
fn mono_to_stereo_fanout() {
    let mut rt: Runtime<f32, TestNode> = build_runtime(8, 48000, 48000, 16, 16, 0.0);
    let src = rt.add_node(constant(0.25));
    let fan = rt.add_node(TestNode::Fan(Stereo::default()));
    rt.add_edge(audio_wire(src, 0, fan, 0)).unwrap();
    rt.set_sink_key(fan).unwrap();
    let out = rt.next_block().unwrap();
    assert_eq!(out.len(), 2);
    for c in 0..2 {
        for v in block_to_vec(out, c) {
            assert_eq!(v, 0.25);
        }
    }
}

#[test]
fn delay_echo() {
    const FS: u32 = 44100;
    const N: usize = 2048;
    const D: usize = 44100;
    let mut rt: Runtime<f32, TestNode> = build_runtime(8, FS, FS, N, N, 0.0);
    let line_key = rt.get_context_mut().add_delay_line(DelayLine::new(1, D + N, 0.0));

    let mut impulse = vec![0.0f32; N];
    impulse[0] = 1.0;
    let src = rt.add_node(seq_source(impulse));
    let writer = rt.add_node(TestNode::Writer(DelayWrite::new(line_key, 1)));
    let reader = rt.add_node(TestNode::Reader(DelayRead::new(line_key, vec![D])));
    rt.add_edge(audio_wire(src, 0, writer, 0)).unwrap();
    rt.set_sink_key(reader).unwrap();

    // The reader has no wire from the writer, so it precedes it in the
    // deterministic order and sees the previous block's contents: the
    // impulse emitted at sample 0 comes back at sample D + N.
    let echo_at = D + N;
    let echo_block = echo_at / N;
    let echo_sample = echo_at % N;
    for b in 0..(echo_block + 1) {
        let out = block_to_vec(rt.next_block().unwrap(), 0);
        for (n, v) in out.iter().enumerate() {
            if b == echo_block && n == echo_sample {
                assert_eq!(*v, 1.0, "echo expected at block {} sample {}", b, n);
            } else {
                assert_eq!(*v, 0.0, "unexpected signal at block {} sample {}", b, n);
            }
        }
    }
}

#[test]
fn cycle_rejection_at_runtime() {
    let mut rt: Runtime<f32, TestNode> = build_runtime(8, 48000, 48000, 16, 16, 0.0);
    let a = rt.add_node(passthrough(1));
    let b = rt.add_node(passthrough(1));
    rt.add_edge(audio_wire(a, 0, b, 0)).unwrap();
    let res = rt.add_edge(audio_wire(b, 0, a, 0));
    assert_eq!(res, Err(GraphError::CycleDetected));
    // the runtime refuses to produce a block while the cycle stands
    rt.set_sink_key(b).unwrap();
    assert_eq!(rt.next_block().err(), Some(GraphError::CycleDetected));
}

#[test]
fn sampler_loop() {
    const N: usize = 64;
    const LEN: usize = 1000;
    let mut rt: Runtime<f32, TestNode> = build_runtime(8, 44100, 44100, N, N, 0.0);
    let key = rt.get_context_mut().add_sample_resource();
    let mut channel = Vec::new();
    for i in 0..LEN {
        channel.push(i as f32 / LEN as f32);
    }
    let table = AudioSample::new(vec![channel.clone(), channel]);
    assert!(rt.get_context_mut().install_sample(key, table));

    let player = rt.add_node(TestNode::Player(Sampler::new(key, 2)));
    rt.set_sink_key(player).unwrap();

    let mut blocks: Vec<Vec<f32>> = Vec::new();
    for _ in 0..16 {
        blocks.push(block_to_vec(rt.next_block().unwrap(), 0));
    }
    // at block 15 sample 40, the read position wraps to 0
    assert_eq!(blocks[15][40], 0.0);
    assert!((blocks[15][41] - 1.0 / LEN as f32).abs() < 1e-9);
    assert_eq!(blocks[0][5], 5.0 / LEN as f32);
}

#[test]
fn fir_identity_kernel() {
    let data = vec![0.3, -0.7, 1.0, 0.25, -0.1, 0.9, 0.0, 0.5];
    let mut rt: Runtime<f32, TestNode> = build_runtime(8, 48000, 48000, 8, 8, 0.0);
    let src = rt.add_node(seq_source(data.clone()));
    let filt = rt.add_node(fir(vec![1.0], 1));
    rt.add_edge(audio_wire(src, 0, filt, 0)).unwrap();
    rt.set_sink_key(filt).unwrap();
    let out = block_to_vec(rt.next_block().unwrap(), 0);
    assert_eq!(out, data);
}

#[test]
fn fir_averaging_kernel_on_impulse() {
    let mut impulse = vec![0.0f32; 8];
    impulse[0] = 1.0;
    let mut rt: Runtime<f32, TestNode> = build_runtime(8, 48000, 48000, 8, 8, 0.0);
    let src = rt.add_node(seq_source(impulse));
    let filt = rt.add_node(fir(vec![0.5, 0.5], 1));
    rt.add_edge(audio_wire(src, 0, filt, 0)).unwrap();
    rt.set_sink_key(filt).unwrap();
    let out = block_to_vec(rt.next_block().unwrap(), 0);
    assert_eq!(out, vec![0.5, 0.5, 0.0, 0.0, 0.0, 0.0, 0.0, 0.0]);
}

fn run_fir_once(input: &[f32], coeffs: &[f32]) -> Vec<f32> {
    let mut rt: Runtime<f32, TestNode> = build_runtime(8, 48000, 48000, input.len(), 8, 0.0);
    let src = rt.add_node(seq_source(input.to_vec()));
    let filt = rt.add_node(fir(coeffs.to_vec(), 1));
    rt.add_edge(audio_wire(src, 0, filt, 0)).unwrap();
    rt.set_sink_key(filt).unwrap();
    block_to_vec(rt.next_block().unwrap(), 0)
}

#[test]
fn fir_linearity() {
    let x = [0.3, -0.7, 1.0, 0.25, -0.1, 0.9, 0.0, 0.5];
    let y = [-0.2, 0.4, 0.1, -0.9, 0.6, 0.3, -0.5, 0.8];
    let (a, b) = (0.7f32, -1.3f32);
    let coeffs = [0.25, 0.5, -0.125, 0.0625];

    let mut combined = Vec::new();
    for i in 0..x.len() {
        combined.push(a * x[i] + b * y[i]);
    }
    let lhs = run_fir_once(&combined, &coeffs);
    let fx = run_fir_once(&x, &coeffs);
    let fy = run_fir_once(&y, &coeffs);
    for i in 0..lhs.len() {
        let rhs = a * fx[i] + b * fy[i];
        assert!((lhs[i] - rhs).abs() < 1e-5, "linearity failed at {}", i);
    }
}

#[test]
fn mixer_preserves_unit_energy() {
    // A square mixer (inputs == outputs) routes one input to each output
    // with unit gain: unit-energy inputs come out with unit energy.
    const N: usize = 16;
    let mut rt: Runtime<f32, TestNode> = build_runtime(8, 48000, 48000, N, N, 0.0);
    let a = rt.add_node(constant(1.0));
    let b = rt.add_node(constant(1.0));
    let mix = rt.add_node(mixer(2, 2));
    rt.add_edge(audio_wire(a, 0, mix, 0)).unwrap();
    rt.add_edge(audio_wire(b, 0, mix, 1)).unwrap();
    rt.set_sink_key(mix).unwrap();
    let out = rt.next_block().unwrap();
    for c in 0..2 {
        let samples = block_to_vec(out, c);
        let energy: f32 = samples.iter().map(|v| v * v).sum::<f32>() / N as f32;
        assert!((energy - 1.0).abs() < 1e-6);
    }
}

/// Zero-stuffing upsampler / even-sample decimator: a matched pair with no
/// group delay, so the 2x adapter should be exactly transparent around an
/// identity inner graph.
struct StuffAndPick {
    take_even: bool,
}

impl Resampler<f32> for StuffAndPick {
    fn process_block(&mut self, ai: &Frame<f32>, ao: &mut Frame<f32>) {
        for c in 0..ao.len() {
            for m in 0..ao[c].len() {
                let v = if self.take_even {
                    // decimate: keep every second sample
                    if c < ai.len() && 2 * m < ai[c].len() { ai[c].get(2 * m) } else { 0.0 }
                } else {
                    // zero-stuff: spread input over even positions
                    if m % 2 == 0 && c < ai.len() && m / 2 < ai[c].len() {
                        ai[c].get(m / 2)
                    } else {
                        0.0
                    }
                };
                ao[c].set(m, v);
            }
        }
    }
}

#[test]
fn oversample_transparency() {
    const N: usize = 16;
    let mut inner: Runtime<f32, TestNode> = build_runtime(4, 96000, 96000, 2 * N, 2 * N, 0.0);
    let pass = inner.add_node(passthrough(1));
    inner.set_sink_key(pass).unwrap();

    let mut adapter = Oversample2X::new(
        inner,
        StuffAndPick { take_even: false },
        StuffAndPick { take_even: true },
        1,
        N,
    );

    let mut input_data = Vec::new();
    for i in 0..N {
        input_data.push((i as f32 / N as f32) - 0.5);
    }
    let ai = vec![Buffer::from_vec(input_data.clone())];
    let mut ao = vec![Buffer::silent(N, 0.0)];
    let ci: Frame<f32> = Vec::new();
    adapter.step(&ai, &mut ao, &ci).unwrap();
    assert_eq!(block_to_vec(&ao, 0), input_data);
}

#[test]
fn identical_histories_are_bit_identical() {
    let run = || -> Vec<u32> {
        let mut rt: Runtime<f32, TestNode> = build_runtime(8, 48000, 48000, 64, 64, 0.0);
        let osc = rt.add_node(sine(439.5));
        let fan = rt.add_node(TestNode::Fan(Stereo::default()));
        rt.add_edge(audio_wire(osc, 0, fan, 0)).unwrap();
        rt.set_sink_key(fan).unwrap();
        let mut bits = Vec::new();
        for _ in 0..4 {
            let out = rt.next_block().unwrap();
            for c in 0..out.len() {
                for v in block_to_vec(out, c) {
                    bits.push(v.to_bits());
                }
            }
        }
        bits
    };
    assert_eq!(run(), run());
}

#[test]
fn missing_sink_refuses_block() {
    let mut rt: Runtime<f32, TestNode> = build_runtime(4, 48000, 48000, 16, 16, 0.0);
    let _ = rt.add_node(constant(1.0));
    assert_eq!(rt.next_block().err(), Some(GraphError::NodeDoesNotExist));
}

#[test]
fn out_of_range_port_rejected_at_runtime() {
    let mut rt: Runtime<f32, TestNode> = build_runtime(8, 48000, 48000, 16, 16, 0.0);
    let a = rt.add_node(constant(1.0));
    let b = rt.add_node(passthrough(1));
    // the passthrough declares one input port; port 5 names nothing
    let res = rt.add_edge(audio_wire(a, 0, b, 5));
    assert_eq!(res, Err(GraphError::BadConnection));
    // and a source port beyond the producer's outputs is refused too
    let res2 = rt.add_edge(audio_wire(a, 3, b, 0));
    assert_eq!(res2, Err(GraphError::BadConnection));
    // the in-range wire still goes through
    assert!(rt.add_edge(audio_wire(a, 0, b, 0)).is_ok());
}

#[test]
fn sink_must_exist() {
    let mut rt: Runtime<f32, TestNode> = build_runtime(8, 48000, 48000, 16, 16, 0.0);
    let a = rt.add_node(constant(1.0));
    rt.remove_node(a);
    assert_eq!(rt.set_sink_key(a), Err(GraphError::NodeDoesNotExist));
}

#[test]
fn removing_cycle_edge_restores_valid_order() {
    let mut rt: Runtime<f32, TestNode> = build_runtime(8, 48000, 48000, 16, 16, 0.0);
    let a = rt.add_node(constant(0.5));
    let b = rt.add_node(passthrough(1));
    rt.add_edge(audio_wire(a, 0, b, 0)).unwrap();
    let back = audio_wire(b, 0, a, 0);
    assert_eq!(rt.add_edge(back), Err(GraphError::CycleDetected));
    // the offending wire is kept; removing it restores a schedulable graph
    rt.remove_edge(back).unwrap();
    rt.set_sink_key(b).unwrap();
    let out = block_to_vec(rt.next_block().unwrap(), 0);
    for v in out {
        assert_eq!(v, 0.5);
    }
}

#[test]
fn oversample_surfaces_inner_failure() {
    const N: usize = 16;
    let inner: Runtime<f32, TestNode> = build_runtime(4, 96000, 96000, 2 * N, 2 * N, 0.0);
    // no sink was designated on the inner runtime
    let mut adapter = Oversample2X::new(
        inner,
        StuffAndPick { take_even: false },
        StuffAndPick { take_even: true },
        1,
        N,
    );
    let ai = vec![Buffer::from_vec(vec![0.5; N])];
    let mut ao = vec![Buffer::from_vec(vec![9.0; N])];
    let ci: Frame<f32> = Vec::new();
    let res = adapter.step(&ai, &mut ao, &ci);
    assert_eq!(res, Err(GraphError::NodeDoesNotExist));
    for v in block_to_vec(&ao, 0) {
        assert_eq!(v, 0.0);
    }
}
