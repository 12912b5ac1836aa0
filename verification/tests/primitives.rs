use legato::{
    AudioContext, AudioSample, Buffer, DelayLine, Port, PortError, RingBuffer, Sampler,
    StereoPorts, downsample_first_sample, generate_audio_inputs, generate_audio_outputs,
    upsample_zoh,
};

const MAX_ERROR: f32 = 0.0001;

fn assert_roughly_eq(a: &[f32], b: &[f32]) {
    a.iter().zip(b).for_each(|(i, j)| {
        if (i - j).abs() > MAX_ERROR {
            panic!("Greater than maximum difference found!: {} : {}", i, j);
        }
    });
}

fn buffer_of(data: &[f32]) -> Buffer<f32> {
    Buffer::from_vec(data.to_vec())
}

fn buffer_to_vec(b: &Buffer<f32>) -> Vec<f32> {
    let mut out = Vec::new();
    let mut i = 0;
    while i < b.len() {
        out.push(b.get(i));
        i += 1;
    }
    out
}

#[test]
fn sanity() {
    let inputs = [0.0, 1.0, 2.0];
    assert_roughly_eq(&inputs, &inputs.clone());
}

#[test]
fn assert_upsample_zoh() {
    let inputs = buffer_of(&[0.0, 0.5, 1.0]);
    let mut outputs = Buffer::silent(6, 0.0);
    let expected_outputs = [0.0, 0.0, 0.5, 0.5, 1.0, 1.0];

    upsample_zoh(&inputs, &mut outputs);

    assert_roughly_eq(&expected_outputs, &buffer_to_vec(&outputs));
}

#[test]
fn assert_downsample_first() {
    let inputs = buffer_of(&[1.0, 2.0, 3.0, 4.0, 5.0, 6.0, 7.0, 8.0, 9.0, 10.0]);
    let mut outputs = Buffer::silent(5, 0.0);
    let expected_outputs = [1.0, 3.0, 5.0, 7.0, 9.0];

    downsample_first_sample(&inputs, &mut outputs);

    assert_roughly_eq(&expected_outputs, &buffer_to_vec(&outputs));
}

#[derive(PartialEq, Debug)]
enum OscillatorInputs {
    Freq,
    FM,
}

impl Port for OscillatorInputs {
    fn into_index(&self) -> usize {
        match self {
            OscillatorInputs::Freq => 0,
            OscillatorInputs::FM => 1,
        }
    }

    fn from_index(index: usize) -> Result<Self, PortError> {
        match index {
            0 => Ok(OscillatorInputs::Freq),
            1 => Ok(OscillatorInputs::FM),
            _ => Err(PortError::InvalidPort),
        }
    }
}

#[test]
fn macro_port_test_basic() {
    assert_eq!(OscillatorInputs::Freq.into_index(), 0);
    assert_eq!(OscillatorInputs::FM.into_index(), 1);

    assert_eq!(OscillatorInputs::from_index(0), Ok(OscillatorInputs::Freq));
    assert_eq!(OscillatorInputs::from_index(1), Ok(OscillatorInputs::FM));
    assert_eq!(OscillatorInputs::from_index(2), Err(PortError::InvalidPort));
}

#[test]
fn ring_buffer_push_and_get() {
    let mut ring: RingBuffer<f32> = RingBuffer::with_capacity(4, 0.0);
    assert_eq!(ring.len(), 4);
    assert_eq!(ring.get(0), 0.0);
    ring.push(1.0);
    ring.push(2.0);
    ring.push(3.0);
    assert_eq!(ring.get(0), 3.0);
    assert_eq!(ring.get(1), 2.0);
    assert_eq!(ring.get(2), 1.0);
    assert_eq!(ring.get(3), 0.0);
    // wraps past the capacity
    ring.push(4.0);
    ring.push(5.0);
    assert_eq!(ring.get(0), 5.0);
    assert_eq!(ring.get(3), 2.0);
    // offsets wrap modulo the capacity
    assert_eq!(ring.get(4), 5.0);
    ring.clear();
    assert_eq!(ring.get(0), 0.0);
}

#[test]
fn delay_line_round_trip() {
    let mut line: DelayLine<f32> = DelayLine::new(1, 8, 0.0);
    let block = vec![buffer_of(&[1.0, 2.0, 3.0])];
    line.write_block(&block);
    // offset 0 is the most recently written sample
    assert_eq!(line.get_delay_sample(0, 0), 3.0);
    assert_eq!(line.get_delay_sample(0, 1), 2.0);
    assert_eq!(line.get_delay_sample(0, 2), 1.0);
    // unwritten history reads back as silence
    assert_eq!(line.get_delay_sample(0, 3), 0.0);
    // a channel the line does not have reads as silence
    assert_eq!(line.get_delay_sample(5, 0), 0.0);
}

#[test]
fn context_delay_store() {
    let mut ctx: AudioContext<f32> = AudioContext::new(48000, 48000, 0.0);
    assert_eq!(ctx.get_sample_rate(), 48000);
    assert_eq!(ctx.get_control_rate(), 48000);
    let key = ctx.add_delay_line(DelayLine::new(2, 16, 0.0));
    let block = vec![buffer_of(&[0.25, 0.5]), buffer_of(&[-0.25, -0.5])];
    ctx.write_block(key, &block);
    assert_eq!(ctx.get_delay_sample(key, 0, 0), 0.5);
    assert_eq!(ctx.get_delay_sample(key, 1, 1), -0.25);
}

#[test]
fn context_sample_store() {
    let mut ctx: AudioContext<f32> = AudioContext::new(44100, 44100, 0.0);
    let key = ctx.add_sample_resource();
    assert!(ctx.get_sample(key).is_none());
    let table = AudioSample::new(vec![vec![0.1, 0.2, 0.3]]);
    assert!(ctx.install_sample(key, table));
    let snapshot = ctx.get_sample(key).expect("sample should be loaded");
    assert_eq!(snapshot.channel_count(), 1);
    assert_eq!(snapshot.frame_len(), 3);
    assert_eq!(snapshot.get(0, 1, 0.0), 0.2);
    // reads past the end yield the fallback
    assert_eq!(snapshot.get(0, 7, 0.0), 0.0);
}

#[test]
fn sampler_non_looping_clamps() {
    let mut ctx: AudioContext<f32> = AudioContext::new(44100, 44100, 0.0);
    let key = ctx.add_sample_resource();
    let table = AudioSample::new(vec![vec![1.0, 2.0, 3.0]]);
    let mut sampler = Sampler::new(key, 1);
    sampler.set_looping(false);
    let mut ao = vec![Buffer::silent(2, 0.0)];
    sampler.render(Some(&table), &mut ao, 0.0);
    assert_eq!(buffer_to_vec(&ao[0]), vec![1.0, 2.0]);
    sampler.render(Some(&table), &mut ao, 0.0);
    assert_eq!(buffer_to_vec(&ao[0]), vec![3.0, 0.0]);
    sampler.render(Some(&table), &mut ao, 0.0);
    assert_eq!(buffer_to_vec(&ao[0]), vec![0.0, 0.0]);
    // with nothing loaded, a sampler emits silence
    let mut fresh = Sampler::new(key, 1);
    let mut ao2 = vec![Buffer::silent(2, 7.0)];
    fresh.render(None, &mut ao2, 0.0);
    assert_eq!(buffer_to_vec(&ao2[0]), vec![0.0, 0.0]);
}

#[test]
fn generated_ports_are_dense() {
    let ins = generate_audio_inputs(3);
    assert_eq!(ins.len(), 3);
    for (i, p) in ins.iter().enumerate() {
        assert_eq!(p.meta.index, i);
        assert_eq!(p.meta.name, "in");
    }
    let stereo_outs = generate_audio_outputs(2);
    assert_eq!(stereo_outs[0].meta.name, "l");
    assert_eq!(stereo_outs[1].meta.name, "r");
    let ports = StereoPorts::new();
    assert_eq!(ports.audio_inputs.len(), 1);
    assert_eq!(ports.audio_inputs[0].meta.name, "audio");
    assert_eq!(ports.audio_outputs.len(), 2);
}
