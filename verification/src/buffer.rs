//! Block primitives: a fixed-length buffer of samples and a multi-channel
//! frame (one buffer per channel), deinterleaved.
//!
//! The engine is generic over the sample type; a buffer only stores and
//! copies samples, it never computes with them.

use vstd::prelude::*;

verus! {

/// A fixed-length contiguous block of samples.  The view (`self@`) is the
/// stored sequence.
pub struct Buffer<S> {
    data: Vec<S>,
}

/// A block of samples across several channels: one `Buffer` per channel.
pub type Frame<S> = Vec<Buffer<S>>;

/// The frame has exactly `channels` channels of `n` samples each.
pub open spec fn frame_shaped<S>(frame: Seq<Buffer<S>>, channels: int, n: int) -> bool {
    &&& frame.len() == channels
    &&& forall|c: int| 0 <= c < channels ==> (#[trigger] frame[c])@.len() == n
}

impl<S: Copy> Buffer<S> {
    /// A buffer of `len` samples, every one equal to `silence`.
    pub fn silent(len: usize, silence: S) -> (r: Self)
        ensures
            r@.len() == len,
            forall|i: int| 0 <= i < len ==> r@[i] == silence,
    {
        let mut data: Vec<S> = Vec::new();
        let mut i: usize = 0;
        while i < len
            invariant
                i <= len,
                data@.len() == i,
                forall|j: int| 0 <= j < i ==> data@[j] == silence,
            decreases len - i,
        {
            data.push(silence);
            i = i + 1;
        }
        Buffer { data }
    }

    /// Wrap an existing block of samples.
    pub fn from_vec(data: Vec<S>) -> (r: Self)
        ensures
            r@ == data@,
    {
        Buffer { data }
    }

    /// Number of samples in the block.
    pub fn len(&self) -> (r: usize)
        ensures
            r == self@.len(),
    {
        self.data.len()
    }

    /// The sample at `i`.
    pub fn get(&self, i: usize) -> (r: S)
        requires
            i < self@.len(),
        ensures
            r == self@[i as int],
    {
        self.data[i]
    }

    /// Overwrite the sample at `i`.
    pub fn set(&mut self, i: usize, val: S)
        requires
            i < old(self)@.len(),
        ensures
            final(self)@ == old(self)@.update(i as int, val),
    {
        self.data.set(i, val);
    }

    /// Overwrite every sample with `val`.
    pub fn fill(&mut self, val: S)
        ensures
            final(self)@.len() == old(self)@.len(),
            forall|i: int| 0 <= i < final(self)@.len() ==> final(self)@[i] == val,
    {
        let len = self.data.len();
        let mut i: usize = 0;
        while i < len
            invariant
                i <= len,
                len == self.data@.len(),
                forall|j: int| 0 <= j < i ==> self.data@[j] == val,
            decreases len - i,
        {
            self.data.set(i, val);
            i = i + 1;
        }
    }

    /// Copy another block of the same length over this one.
    pub fn copy_from(&mut self, other: &Buffer<S>)
        requires
            old(self)@.len() == other@.len(),
        ensures
            final(self)@ == other@,
    {
        let len = self.data.len();
        let mut i: usize = 0;
        while i < len
            invariant
                i <= len,
                len == self.data@.len(),
                len == other@.len(),
                forall|j: int| 0 <= j < i ==> self.data@[j] == other@[j],
            decreases len - i,
        {
            self.data.set(i, other.data[i]);
            i = i + 1;
        }
        proof {
            assert(final(self)@ =~= other@);
        }
    }
}

impl<S> View for Buffer<S> {
    type V = Seq<S>;

    closed spec fn view(&self) -> Seq<S> {
        self.data@
    }
}

/// A frame of `channels` buffers, each `n` samples of `silence`.
pub fn frame_silent<S: Copy>(channels: usize, n: usize, silence: S) -> (r: Frame<S>)
    ensures
        frame_shaped(r@, channels as int, n as int),
        forall|c: int, i: int|
            0 <= c < channels && 0 <= i < n ==> (#[trigger] r@[c]@[i]) == silence,
{
    let mut frame: Frame<S> = Vec::new();
    let mut c: usize = 0;
    while c < channels
        invariant
            c <= channels,
            frame@.len() == c,
            forall|j: int| 0 <= j < c ==> (#[trigger] frame@[j])@.len() == n,
            forall|j: int, i: int|
                0 <= j < c && 0 <= i < n ==> (#[trigger] frame@[j]@[i]) == silence,
        decreases channels - c,
    {
        frame.push(Buffer::silent(n, silence));
        c = c + 1;
    }
    frame
}

/// Re-establish a frame's shape after it passed through code that Verus did
/// not check.  A frame that already has the shape is left untouched; any
/// other is replaced channel by channel with silence.
pub fn ensure_frame_shape<S: Copy>(frame: &mut Frame<S>, channels: usize, n: usize, silence: S)
    ensures
        frame_shaped(final(frame)@, channels as int, n as int),
        frame_shaped(old(frame)@, channels as int, n as int) ==> final(frame)@ == old(frame)@,
{
    if frame.len() != channels {
        let replacement = frame_silent(channels, n, silence);
        *frame = replacement;
        return;
    }
    let mut c: usize = 0;
    while c < channels
        invariant
            c <= channels,
            frame@.len() == channels,
            forall|j: int| 0 <= j < c ==> (#[trigger] frame@[j])@.len() == n,
            frame_shaped(old(frame)@, channels as int, n as int) ==> frame@ == old(frame)@,
        decreases channels - c,
    {
        if frame[c].len() != n {
            let replacement = Buffer::silent(n, silence);
            frame.set(c, replacement);
        }
        c = c + 1;
    }
}

/// Fill the first `count` channels of a frame with `val`; later channels
/// are untouched.  The scheduler uses this to zero the scratch inputs a
/// node is about to receive.
pub fn fill_frame_prefix<S: Copy>(frame: &mut Frame<S>, count: usize, val: S)
    requires
        count <= old(frame)@.len(),
    ensures
        final(frame)@.len() == old(frame)@.len(),
        forall|c: int|
            0 <= c < count ==> (#[trigger] final(frame)@[c])@.len() == old(frame)@[c]@.len(),
        forall|c: int, i: int|
            0 <= c < count && 0 <= i < final(frame)@[c]@.len()
                ==> (#[trigger] final(frame)@[c]@[i]) == val,
        forall|c: int|
            count <= c < old(frame)@.len() ==> (#[trigger] final(frame)@[c]) == old(frame)@[c],
{
    let mut c: usize = 0;
    while c < count
        invariant
            c <= count,
            count <= frame@.len(),
            frame@.len() == old(frame)@.len(),
            forall|j: int|
                0 <= j < c ==> (#[trigger] frame@[j])@.len() == old(frame)@[j]@.len(),
            forall|j: int, i: int|
                0 <= j < c && 0 <= i < frame@[j]@.len() ==> (#[trigger] frame@[j]@[i]) == val,
            forall|j: int| c <= j < frame@.len() ==> (#[trigger] frame@[j]) == old(frame)@[j],
        decreases count - c,
    {
        let buf = &mut frame[c];
        buf.fill(val);
        c = c + 1;
    }
}

} // verus!
