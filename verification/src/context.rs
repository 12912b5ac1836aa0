//! Per-runtime shared state: sample rate, control rate, and the resource
//! store — delay lines shared between a writer node and its readers, and
//! immutable sample assets installed from outside the audio thread.

use vstd::prelude::*;

use crate::buffer::{Buffer, Frame};
use crate::ring::{RingBuffer, lemma_ring_view_len, view_after_push};

verus! {

broadcast use lemma_ring_view_len;

/// Stable handle to a delay line in the resource store.
#[derive(Debug, PartialEq, Eq, Clone, Copy, Hash, Structural)]
pub struct DelayLineKey {
    pub(crate) index: usize,
}

/// Stable handle to a sample slot in the resource store.
#[derive(Debug, PartialEq, Eq, Clone, Copy, Hash, Structural)]
pub struct SampleKey {
    pub(crate) index: usize,
}

/// Store position a delay-line key names.
pub closed spec fn delay_key_slot(k: DelayLineKey) -> int {
    k.index as int
}

/// Store position a sample key names.
pub closed spec fn sample_key_slot(k: SampleKey) -> int {
    k.index as int
}

/// Failure to fill a sample slot from a file: the path was missing, or the
/// decoder could not make sense of the data.
#[derive(Debug, PartialEq, Eq, Clone, Copy, Structural)]
pub enum AudioSampleError {
    PathNotFound,
    DecodeFailure,
}

/// The view of a ring after a whole block of pushes: the block reversed
/// (most recent first), then the older content, cut to the ring's length.
pub open spec fn view_after_block<S>(s: Seq<S>, block: Seq<S>) -> Seq<S> {
    (block.reverse() + s).take(s.len() as int)
}

/// Pushing a block sample by sample yields `view_after_block`: the delay
/// line's round-trip law.  A sample written `k` pushes ago is read back at
/// offset `k`, as long as `k` is within capacity.
pub proof fn lemma_ring_view_after_block<S>(s: Seq<S>, block: Seq<S>)
    requires
        block.len() > 0,
        s.len() > 0,
    ensures
        view_after_block(s, block) == view_after_push(
            view_after_block(s, block.take(block.len() - 1)),
            block.last(),
        ),
{
    let shorter = block.take(block.len() - 1);
    let prev = view_after_block(s, shorter);
    let full = view_after_block(s, block);
    assert(prev.len() == s.len());
    assert(full.len() == s.len());
    assert(block.reverse().len() == block.len());
    assert forall|k: int| 0 <= k < s.len() implies full[k] == view_after_push(
        prev,
        block.last(),
    )[k] by {
        if k == 0 {
            assert(full[0] == block.reverse()[0]);
            assert(block.reverse()[0] == block[block.len() - 1]);
        } else {
            if k - 1 < block.reverse().len() - 1 {
                assert(block.reverse()[k] == block[block.len() - 1 - k]);
                assert(shorter.reverse()[k - 1] == shorter[shorter.len() - k]);
                assert(shorter[block.len() - 1 - k] == block[block.len() - 1 - k]);
            } else {
                assert(full[k] == s[k - block.len()]);
                assert(prev[k - 1] == s[k - block.len()]);
            }
        }
    }
    assert(full =~= view_after_push(prev, block.last()));
}

/// Delay-line round trip: after a block is written, reading at offset `k`
/// yields the sample written `k` pushes ago — the block's own samples for
/// `k` within the block (its last sample at offset 0), and the older
/// content shifted back by the block length beyond that.
pub proof fn lemma_delay_round_trip<S>(s: Seq<S>, block: Seq<S>, k: int)
    requires
        0 <= k < s.len(),
    ensures
        view_after_block(s, block)[k] == (if k < block.len() {
            block[block.len() - 1 - k]
        } else {
            s[k - block.len()]
        }),
{
    if k < block.len() {
        assert(block.reverse()[k] == block[block.len() - 1 - k]);
    }
}

/// A well-formed delay line's channels each hold exactly `capacity`
/// samples; with this, the per-block round-trip law composes across
/// blocks outside this module.
pub proof fn lemma_delay_channel_len<S: Copy>(line: DelayLine<S>, c: int)
    requires
        line.wf(),
        0 <= c < line.channels(),
    ensures
        line.channel(c).len() == line.capacity_spec(),
{
    broadcast use lemma_ring_view_len;

    assert(line.lines@[c].capacity() == line.capacity);
}

/// A shared multi-channel delay line: one ring buffer per channel, all of
/// the same capacity, each with an independent cursor.  Readable at any
/// offset; slots never written read back as silence.
pub struct DelayLine<S> {
    lines: Vec<RingBuffer<S>>,
    capacity: usize,
    silence: S,
}

impl<S: Copy> DelayLine<S> {
    /// Number of channels.
    pub closed spec fn channels(self) -> nat {
        self.lines@.len()
    }

    /// Capacity in samples of every channel.
    pub closed spec fn capacity_spec(self) -> nat {
        self.capacity as nat
    }

    /// The fill value for unwritten history.
    pub closed spec fn silence_val(self) -> S {
        self.silence
    }

    /// Stored samples of one channel, most recently written first.
    pub closed spec fn channel(self, c: int) -> Seq<S> {
        self.lines@[c]@
    }

    /// Every channel ring has the line's capacity, a cursor in range and
    /// the line's fill value.
    pub closed spec fn wf(self) -> bool {
        forall|c: int|
            0 <= c < self.lines@.len() ==> (#[trigger] self.lines@[c]).capacity()
                == self.capacity && self.lines@[c].wf() && self.lines@[c].silence_val()
                == self.silence
    }

    /// A line of `channels` rings of `capacity` samples of silence.
    pub fn new(channels: usize, capacity: usize, silence: S) -> (r: Self)
        ensures
            r.wf(),
            r.channels() == channels,
            r.capacity_spec() == capacity,
            r.silence_val() == silence,
            forall|c: int| 0 <= c < channels ==> (#[trigger] r.channel(c)).len() == capacity,
            forall|c: int, k: int|
                0 <= c < channels && 0 <= k < capacity ==> (#[trigger] r.channel(c)[k]) == silence,
    {
        let mut lines: Vec<RingBuffer<S>> = Vec::new();
        let mut c: usize = 0;
        while c < channels
            invariant
                c <= channels,
                lines@.len() == c,
                forall|j: int|
                    0 <= j < c ==> (#[trigger] lines@[j]).capacity() == capacity && lines@[j].wf()
                        && lines@[j].silence_val() == silence,
                forall|j: int, k: int|
                    0 <= j < c && 0 <= k < capacity ==> (#[trigger] lines@[j]@[k]) == silence,
            decreases channels - c,
        {
            lines.push(RingBuffer::with_capacity(capacity, silence));
            c = c + 1;
        }
        DelayLine { lines, capacity, silence }
    }

    /// Write one block into every channel the frame provides: channel `c`
    /// of the line receives frame channel `c`, sample by sample in order.
    /// Channels the frame does not cover are untouched.
    pub fn write_block(&mut self, frame: &Frame<S>)
        ensures
            final(self).channels() == old(self).channels(),
            final(self).capacity_spec() == old(self).capacity_spec(),
            final(self).silence_val() == old(self).silence_val(),
            forall|c: int|
                0 <= c < old(self).channels() ==> (#[trigger] final(self).channel(c)).len() == old(
                    self,
                ).channel(c).len(),
            old(self).wf() ==> final(self).wf(),
            old(self).wf() && old(self).capacity_spec() > 0 ==> forall|c: int|
                0 <= c < old(self).channels() && c < frame@.len()
                    ==> (#[trigger] final(self).channel(c)) == view_after_block(
                    old(self).channel(c),
                    frame@[c]@,
                ),
            forall|c: int|
                frame@.len() <= c < old(self).channels() ==> (#[trigger] final(self).channel(c))
                    == old(self).channel(c),
    {
        let channels = self.lines.len();
        let limit = if frame.len() < channels {
            frame.len()
        } else {
            channels
        };
        let mut c: usize = 0;
        while c < limit
            invariant
                limit <= channels,
                limit <= frame@.len(),
                channels == self.lines@.len(),
                channels == old(self).lines@.len(),
                c <= limit,
                self.capacity == old(self).capacity,
                self.silence == old(self).silence,
                forall|j: int|
                    0 <= j < channels ==> (#[trigger] self.lines@[j]).capacity() == old(
                        self,
                    ).lines@[j].capacity() && self.lines@[j].silence_val() == old(
                        self,
                    ).lines@[j].silence_val(),
                forall|j: int| c <= j < channels ==> (#[trigger] self.lines@[j]) == old(
                    self,
                ).lines@[j],
                forall|j: int| 0 <= j < channels ==> (#[trigger] self.lines@[j]).wf() || !old(
                    self,
                ).lines@[j].wf(),
                old(self).wf() && old(self).capacity > 0 ==> forall|j: int|
                    0 <= j < c ==> (#[trigger] self.lines@[j])@ == view_after_block(
                        old(self).lines@[j]@,
                        frame@[j]@,
                    ),
            decreases limit - c,
        {
            let buf_len = {
                let b: &Buffer<S> = &frame[c];
                b.len()
            };
            let ghost line0 = self.lines@[c as int];
            let mut n: usize = 0;
            while n < buf_len
                invariant
                    n <= buf_len,
                    c < limit,
                    limit <= frame@.len(),
                    limit <= channels,
                    buf_len == frame@[c as int]@.len(),
                    line0 == old(self).lines@[c as int],
                    self.capacity == old(self).capacity,
                    self.silence == old(self).silence,
                    self.lines@.len() == channels,
                    channels == old(self).lines@.len(),
                    forall|j: int|
                        0 <= j < channels ==> (#[trigger] self.lines@[j]).capacity() == old(
                            self,
                        ).lines@[j].capacity() && self.lines@[j].silence_val() == old(
                            self,
                        ).lines@[j].silence_val(),
                    forall|j: int|
                        c < j < channels ==> (#[trigger] self.lines@[j]) == old(self).lines@[j],
                    forall|j: int|
                        0 <= j < channels ==> (#[trigger] self.lines@[j]).wf() || !old(
                            self,
                        ).lines@[j].wf(),
                    old(self).wf() && old(self).capacity > 0 ==> forall|j: int|
                        0 <= j < c ==> (#[trigger] self.lines@[j])@ == view_after_block(
                            old(self).lines@[j]@,
                            frame@[j]@,
                        ),
                    self.lines@[c as int].wf() || !line0.wf(),
                    line0.wf() && line0.capacity() > 0 ==> self.lines@[c as int]@
                        == view_after_block(line0@, frame@[c as int]@.take(n as int)),
                    line0.capacity() == 0 ==> self.lines@[c as int] == line0,
                decreases buf_len - n,
            {
                let val = {
                    let b: &Buffer<S> = &frame[c];
                    b.get(n)
                };
                let line = &mut self.lines[c];
                line.push(val);
                proof {
                    let blk = frame@[c as int]@;
                    if line0.wf() && line0.capacity() > 0 {
                        assert(blk.take(n as int + 1).take(n as int) =~= blk.take(n as int));
                        assert(blk.take(n as int + 1).last() == blk[n as int]);
                        if n == 0 {
                            assert(blk.take(0) =~= Seq::<S>::empty());
                            assert(view_after_block(line0@, blk.take(0)) =~= line0@) by {
                                assert(blk.take(0).reverse().len() == 0);
                                assert(blk.take(0).reverse() + line0@ =~= line0@);
                                assert(line0@.take(line0@.len() as int) =~= line0@);
                            }
                            lemma_ring_view_after_block(line0@, blk.take(1));
                        } else {
                            lemma_ring_view_after_block(line0@, blk.take(n as int + 1));
                        }
                    }
                }
                n = n + 1;
            }
            proof {
                if line0.wf() && line0.capacity() > 0 {
                    assert(frame@[c as int]@.take(buf_len as int) =~= frame@[c as int]@);
                }
                if line0.capacity() == 0 && line0.wf() {
                    assert(view_after_block(line0@, frame@[c as int]@) =~= line0@);
                }
            }
            c = c + 1;
        }
    }

    /// The sample written `offset` pushes ago on a channel (`offset` 0 is
    /// the most recent write; offsets wrap modulo the capacity).  Channels
    /// that do not exist read as silence.
    pub fn get_delay_sample(&self, channel: usize, offset: usize) -> (r: S)
        ensures
            self.wf() && channel < self.channels() && self.capacity_spec() > 0 ==> r
                == self.channel(channel as int)[(offset as int) % (self.capacity_spec() as int)],
            channel >= self.channels() ==> r == self.silence_val(),
            self.wf() && self.capacity_spec() == 0 ==> r == self.silence_val(),
    {
        if channel >= self.lines.len() {
            return self.silence;
        }
        let line = &self.lines[channel];
        if line.len() == 0 {
            return self.silence;
        }
        line.get(offset)
    }
}

/// An immutable decoded PCM table: one sample vector per channel.  The
/// logical length is channel 0's length; shorter channels read as silence
/// past their end.
pub struct AudioSample<S> {
    data: Vec<Vec<S>>,
}

impl<S: Copy> AudioSample<S> {
    /// Number of channels.
    pub closed spec fn channels(self) -> nat {
        self.data@.len()
    }

    /// The table contents.
    pub closed spec fn table(self) -> Seq<Seq<S>> {
        Seq::new(self.data@.len(), |c: int| self.data@[c]@)
    }

    /// The logical length: channel 0's length, zero when empty.
    pub open spec fn frame_len_spec(self) -> nat {
        if self.channels() > 0 {
            self.table()[0].len()
        } else {
            0
        }
    }

    /// Wrap decoded per-channel data.
    pub fn new(data: Vec<Vec<S>>) -> (r: Self)
        ensures
            r.channels() == data@.len(),
            forall|c: int| 0 <= c < data@.len() ==> (#[trigger] r.table()[c]) == data@[c]@,
    {
        AudioSample { data }
    }

    /// Number of channels.
    pub fn channel_count(&self) -> (r: usize)
        ensures
            r == self.channels(),
    {
        self.data.len()
    }

    /// The logical length in frames.
    pub fn frame_len(&self) -> (r: usize)
        ensures
            r == self.frame_len_spec(),
    {
        if self.data.len() == 0 {
            0
        } else {
            self.data[0].len()
        }
    }

    /// The sample at `(channel, index)`; out-of-range reads yield the given
    /// fallback.
    pub fn get(&self, channel: usize, index: usize, silence: S) -> (r: S)
        ensures
            channel < self.channels() && index < self.table()[channel as int].len() ==> r
                == self.table()[channel as int][index as int],
            !(channel < self.channels() && index < self.table()[channel as int].len()) ==> r
                == silence,
    {
        if channel < self.data.len() {
            let row = &self.data[channel];
            if index < row.len() {
                return row[index];
            }
        }
        silence
    }
}

/// Per-runtime shared state: rates, the silence value for the sample type,
/// and the stores of delay lines and sample assets.  Keys are indices into
/// stores that only ever grow, so a key stays valid for the context's life.
pub struct AudioContext<S> {
    sample_rate: u32,
    control_rate: u32,
    silence: S,
    delay_lines: Vec<DelayLine<S>>,
    samples: Vec<Option<AudioSample<S>>>,
}

impl<S: Copy> AudioContext<S> {
    /// Sample rate in Hz.
    pub closed spec fn sample_rate_spec(self) -> u32 {
        self.sample_rate
    }

    /// Control rate in Hz.
    pub closed spec fn control_rate_spec(self) -> u32 {
        self.control_rate
    }

    /// The silence value for the sample type.
    pub closed spec fn silence_spec(self) -> S {
        self.silence
    }

    /// Number of delay lines installed.
    pub closed spec fn delay_count(self) -> nat {
        self.delay_lines@.len()
    }

    /// The delay line a key names.
    pub closed spec fn delay_at(self, i: int) -> DelayLine<S> {
        self.delay_lines@[i]
    }

    /// The key names an installed delay line.
    pub closed spec fn has_delay(self, key: DelayLineKey) -> bool {
        key.index < self.delay_lines@.len()
    }

    /// Number of sample slots installed.
    pub closed spec fn sample_count(self) -> nat {
        self.samples@.len()
    }

    /// The sample slot a key names (`None` until something is loaded).
    pub closed spec fn sample_at(self, i: int) -> Option<AudioSample<S>> {
        self.samples@[i]
    }

    /// The key names an installed sample slot.
    pub closed spec fn has_sample_slot(self, key: SampleKey) -> bool {
        key.index < self.samples@.len()
    }

    pub fn new(sample_rate: u32, control_rate: u32, silence: S) -> (r: Self)
        ensures
            r.sample_rate_spec() == sample_rate,
            r.control_rate_spec() == control_rate,
            r.silence_spec() == silence,
            r.delay_count() == 0,
            r.sample_count() == 0,
    {
        AudioContext {
            sample_rate,
            control_rate,
            silence,
            delay_lines: Vec::new(),
            samples: Vec::new(),
        }
    }

    pub fn get_sample_rate(&self) -> (r: u32)
        ensures
            r == self.sample_rate_spec(),
    {
        self.sample_rate
    }

    pub fn get_control_rate(&self) -> (r: u32)
        ensures
            r == self.control_rate_spec(),
    {
        self.control_rate
    }

    /// The silence value nodes should emit for "no signal".
    pub fn silence_value(&self) -> (r: S)
        ensures
            r == self.silence_spec(),
    {
        self.silence
    }

    /// Install a delay line; the returned key addresses it from now on.
    pub fn add_delay_line(&mut self, line: DelayLine<S>) -> (key: DelayLineKey)
        ensures
            final(self).delay_count() == old(self).delay_count() + 1,
            !old(self).has_delay(key),
            final(self).has_delay(key),
            final(self).delay_at(delay_key_slot(key)) == line,
            forall|i: int|
                0 <= i < old(self).delay_count() ==> (#[trigger] final(self).delay_at(i)) == old(
                    self,
                ).delay_at(i),
            final(self).sample_rate_spec() == old(self).sample_rate_spec(),
            final(self).control_rate_spec() == old(self).control_rate_spec(),
            final(self).silence_spec() == old(self).silence_spec(),
            final(self).sample_count() == old(self).sample_count(),
            forall|i: int|
                0 <= i < old(self).sample_count() ==> (#[trigger] final(self).sample_at(i)) == old(
                    self,
                ).sample_at(i),
    {
        let index = self.delay_lines.len();
        self.delay_lines.push(line);
        DelayLineKey { index }
    }

    /// Write a block into the delay line a key names; an unknown key is
    /// ignored.
    pub fn write_block(&mut self, key: DelayLineKey, block: &Frame<S>)
        ensures
            final(self).sample_rate_spec() == old(self).sample_rate_spec(),
            final(self).control_rate_spec() == old(self).control_rate_spec(),
            final(self).silence_spec() == old(self).silence_spec(),
            final(self).delay_count() == old(self).delay_count(),
            final(self).sample_count() == old(self).sample_count(),
            forall|i: int|
                0 <= i < old(self).sample_count() ==> (#[trigger] final(self).sample_at(i)) == old(
                    self,
                ).sample_at(i),
            forall|i: int|
                0 <= i < old(self).delay_count() && i != delay_key_slot(key) ==> (#[trigger] final(self).delay_at(i)) == old(self).delay_at(i),
            !old(self).has_delay(key) ==> *final(self) == *old(self),
            old(self).has_delay(key) ==> {
                let line0 = old(self).delay_at(delay_key_slot(key));
                let line1 = final(self).delay_at(delay_key_slot(key));
                &&& line1.channels() == line0.channels()
                &&& line1.capacity_spec() == line0.capacity_spec()
                &&& line1.silence_val() == line0.silence_val()
                &&& (line0.wf() ==> line1.wf())
                &&& (line0.wf() && line0.capacity_spec() > 0 ==> forall|c: int|
                    0 <= c < line0.channels() && c < block@.len() ==> (#[trigger] line1.channel(
                        c,
                    )) == view_after_block(line0.channel(c), block@[c]@))
            },
    {
        if key.index < self.delay_lines.len() {
            let line = &mut self.delay_lines[key.index];
            line.write_block(block);
        }
    }

    /// Read the delay line a key names at an integer offset backwards from
    /// the write cursor (offset 0 is the most recently written sample).
    /// An unknown key reads as silence.
    pub fn get_delay_sample(&self, key: DelayLineKey, channel: usize, offset: usize) -> (r: S)
        ensures
            !self.has_delay(key) ==> r == self.silence_spec(),
            self.has_delay(key) ==> {
                let line = self.delay_at(delay_key_slot(key));
                &&& (line.wf() && channel < line.channels() && line.capacity_spec() > 0 ==> r
                    == line.channel(channel as int)[(offset as int) % (
                line.capacity_spec() as int)])
                &&& (channel >= line.channels() ==> r == line.silence_val())
                &&& (line.wf() && line.capacity_spec() == 0 ==> r == line.silence_val())
            },
    {
        if key.index >= self.delay_lines.len() {
            return self.silence;
        }
        let line = &self.delay_lines[key.index];
        line.get_delay_sample(channel, offset)
    }

    /// Create an empty sample slot for an external backend to fill.
    pub fn add_sample_resource(&mut self) -> (key: SampleKey)
        ensures
            final(self).sample_count() == old(self).sample_count() + 1,
            !old(self).has_sample_slot(key),
            final(self).has_sample_slot(key),
            final(self).sample_at(sample_key_slot(key)) is None,
            forall|i: int|
                0 <= i < old(self).sample_count() ==> (#[trigger] final(self).sample_at(i)) == old(
                    self,
                ).sample_at(i),
            final(self).sample_rate_spec() == old(self).sample_rate_spec(),
            final(self).control_rate_spec() == old(self).control_rate_spec(),
            final(self).silence_spec() == old(self).silence_spec(),
            final(self).delay_count() == old(self).delay_count(),
            forall|i: int|
                0 <= i < old(self).delay_count() ==> (#[trigger] final(self).delay_at(i)) == old(
                    self,
                ).delay_at(i),
    {
        let index = self.samples.len();
        self.samples.push(None);
        SampleKey { index }
    }

    /// Replace the content of a sample slot.  Readers from now on observe
    /// the new table; returns whether the key named a slot.
    pub fn install_sample(&mut self, key: SampleKey, sample: AudioSample<S>) -> (r: bool)
        ensures
            r == old(self).has_sample_slot(key),
            !r ==> *final(self) == *old(self),
            r ==> final(self).sample_at(sample_key_slot(key)) == Some(sample),
            forall|i: int|
                0 <= i < old(self).sample_count() && i != sample_key_slot(key) ==> (#[trigger] final(self).sample_at(i)) == old(self).sample_at(i),
            final(self).sample_count() == old(self).sample_count(),
            final(self).sample_rate_spec() == old(self).sample_rate_spec(),
            final(self).control_rate_spec() == old(self).control_rate_spec(),
            final(self).silence_spec() == old(self).silence_spec(),
            final(self).delay_count() == old(self).delay_count(),
            forall|i: int|
                0 <= i < old(self).delay_count() ==> (#[trigger] final(self).delay_at(i)) == old(
                    self,
                ).delay_at(i),
    {
        if key.index < self.samples.len() {
            self.samples.set(key.index, Some(sample));
            true
        } else {
            false
        }
    }

    /// A snapshot of the sample a key names; `None` while nothing is
    /// loaded, in which case a sampler emits silence.
    pub fn get_sample(&self, key: SampleKey) -> (r: Option<&AudioSample<S>>)
        ensures
            r is Some <==> (self.has_sample_slot(key) && self.sample_at(sample_key_slot(key))
                is Some),
            r is Some ==> *r.unwrap() == self.sample_at(sample_key_slot(key)).unwrap(),
    {
        if key.index < self.samples.len() {
            self.samples[key.index].as_ref()
        } else {
            None
        }
    }
}

} // verus!
