//! Fixed-length mono ring buffer with a write cursor.
//!
//! `push` writes at the cursor and advances with wrap; `get(k)` returns the
//! k-th most recent sample (`get(0)` is the last pushed).  FIR filters and
//! resamplers keep one of these per channel, and the shared delay lines are
//! built from one ring per channel.

use vstd::prelude::*;

verus! {

/// A ring buffer in the traditional sense (not an spsc queue): a fixed
/// block of samples and a cursor that wraps.
///
/// The abstract view (`self@`) is the stored block ordered most recent
/// first: `self@[0]` is the sample `push` wrote last, `self@[k]` the one
/// written `k` pushes before it.  Slots that were never written hold the
/// fill value the buffer was created with.
pub struct RingBuffer<S> {
    data: Vec<S>,
    write_index: usize,
    silence: S,
}

/// Position in `data` of the k-th most recent sample, for a cursor `wi`
/// that points at the slot the next push will write.
pub open spec fn ring_index(wi: int, len: int, k: int) -> int {
    if wi >= k + 1 {
        wi - k - 1
    } else {
        wi + len - k - 1
    }
}

/// The view of a ring after one push: the new sample in front, the oldest
/// stored sample dropped.
pub open spec fn view_after_push<S>(s: Seq<S>, val: S) -> Seq<S> {
    seq![val] + s.take(s.len() - 1)
}

impl<S: Copy> RingBuffer<S> {
    /// Number of samples the ring holds; fixed at construction.
    pub closed spec fn capacity(self) -> nat {
        self.data@.len()
    }

    /// The fill value given at construction: what `get` returns for slots
    /// never written, and what `clear` resets the contents to.
    pub closed spec fn silence_val(self) -> S {
        self.silence
    }

    /// The cursor is in range.  Constructors establish this and every
    /// mutating operation restores it, so it holds for any value built
    /// through this interface.
    pub closed spec fn wf(self) -> bool {
        self.data@.len() > 0 ==> self.write_index < self.data@.len()
    }

    /// A ring with every slot holding `silence` and the cursor at the start.
    pub fn with_capacity(capacity: usize, silence: S) -> (r: Self)
        ensures
            r.capacity() == capacity,
            r.silence_val() == silence,
            r.wf(),
            r@.len() == capacity,
            forall|k: int| 0 <= k < capacity ==> r@[k] == silence,
    {
        let mut data: Vec<S> = Vec::new();
        let mut i: usize = 0;
        while i < capacity
            invariant
                i <= capacity,
                data@.len() == i,
                forall|j: int| 0 <= j < i ==> data@[j] == silence,
            decreases capacity - i,
        {
            data.push(silence);
            i = i + 1;
        }
        RingBuffer { data, write_index: 0, silence }
    }

    /// The k-th most recent sample.  `k` wraps modulo the capacity; an
    /// empty ring yields the fill value.
    pub fn get(&self, k: usize) -> (r: S)
        ensures
            self.wf() && self.capacity() > 0 ==> r == self@[(k as int) % (self.capacity() as int)],
            self.capacity() == 0 ==> r == self.silence_val(),
    {
        let len = self.data.len();
        if len == 0 {
            return self.silence;
        }
        let wi = if self.write_index < len {
            self.write_index
        } else {
            // Can only arise for a value built outside this interface.
            0
        };
        let m = k % len;
        let back = m + 1;
        let idx = if wi >= back {
            wi - back
        } else {
            wi + (len - back)
        };
        assert(idx == ring_index(wi as int, len as int, m as int));
        self.data[idx]
    }

    /// Write `val` over the oldest slot: the view gains `val` in front and
    /// loses its last element.  A zero-capacity ring is left unchanged.
    pub fn push(&mut self, val: S)
        ensures
            final(self).capacity() == old(self).capacity(),
            final(self).silence_val() == old(self).silence_val(),
            final(self).wf(),
            final(self)@.len() == old(self)@.len(),
            old(self).wf() && old(self).capacity() > 0 ==> final(self)@ == view_after_push(
                old(self)@,
                val,
            ),
            old(self).capacity() == 0 ==> *final(self) == *old(self),
    {
        let len = self.data.len();
        if len == 0 {
            return;
        }
        let wi = if self.write_index < len {
            self.write_index
        } else {
            0
        };
        self.data.set(wi, val);
        self.write_index = if wi + 1 < len {
            wi + 1
        } else {
            0
        };
        proof {
            if old(self).wf() {
                assert(final(self)@ =~= view_after_push(old(self)@, val));
            }
        }
    }

    /// Capacity of the ring (the length of its backing block).
    pub fn len(&self) -> (r: usize)
        ensures
            r == self.capacity(),
    {
        self.data.len()
    }

    /// Reset every slot to the fill value and the cursor to the start.
    pub fn clear(&mut self)
        ensures
            final(self).capacity() == old(self).capacity(),
            final(self).silence_val() == old(self).silence_val(),
            final(self).wf(),
            final(self)@.len() == old(self)@.len(),
            forall|k: int|
                0 <= k < final(self).capacity() ==> final(self)@[k] == final(self).silence_val(),
    {
        let len = self.data.len();
        let mut i: usize = 0;
        while i < len
            invariant
                i <= len,
                len == self.data@.len(),
                self.silence == old(self).silence,
                forall|j: int| 0 <= j < i ==> self.data@[j] == self.silence,
            decreases len - i,
        {
            self.data.set(i, self.silence);
            i = i + 1;
        }
        self.write_index = 0;
    }
}

/// The view always has exactly `capacity` entries.
pub broadcast proof fn lemma_ring_view_len<S: Copy>(r: RingBuffer<S>)
    ensures
        (#[trigger] r@).len() == r.capacity(),
{
}

impl<S: Copy> View for RingBuffer<S> {
    type V = Seq<S>;

    /// The stored block, most recent sample first.
    closed spec fn view(&self) -> Seq<S> {
        Seq::new(
            self.data@.len(),
            |k: int| self.data@[ring_index(self.write_index as int, self.data@.len() as int, k)],
        )
    }
}

} // verus!
