//! Fixed-size blocks of stereo samples, as handed from the capture side
//! to the render side.

use vstd::prelude::*;
use crate::transform::MAX_SAMPLE;

verus! {

/// Two equally long channels of bounded fixed-point samples.
pub open spec fn channels_ok(l: Seq<i64>, r: Seq<i64>) -> bool {
    &&& l.len() == r.len()
    &&& forall|i: int| 0 <= i < l.len() ==> -MAX_SAMPLE <= #[trigger] l[i] <= MAX_SAMPLE
    &&& forall|i: int| 0 <= i < r.len() ==> -MAX_SAMPLE <= #[trigger] r[i] <= MAX_SAMPLE
}

/// An element-for-element copy of one channel.
fn copy_samples(v: &Vec<i64>) -> (r: Vec<i64>)
    ensures
        r@ == v@,
{
    let n = v.len();
    let mut r: Vec<i64> = Vec::new();
    let mut i: usize = 0;
    while i < n
        invariant
            i <= n,
            n == v@.len(),
            r@ == v@.subrange(0, i as int),
        decreases n - i,
    {
        r.push(v[i]);
        proof {
            assert(r@ =~= v@.subrange(0, i as int + 1));
        }
        i = i + 1;
    }
    proof {
        assert(r@ =~= v@);
    }
    r
}

/// One block of stereo samples, immutable once produced.
pub struct AudioFrame {
    pub left: Vec<i64>,
    pub right: Vec<i64>,
}

impl AudioFrame {
    pub open spec fn wf(&self) -> bool {
        channels_ok(self.left@, self.right@)
    }

    /// The frame as a sequence of (left, right) pairs.
    pub open spec fn samples(&self) -> Seq<(int, int)> {
        Seq::new(self.left@.len(), |i: int| (self.left@[i] as int, self.right@[i] as int))
    }

    /// Builds a frame from two channels; rejects channels of unequal
    /// length or with samples outside the accepted range.
    pub fn from_channels(left: Vec<i64>, right: Vec<i64>) -> (r: Option<AudioFrame>)
        ensures
            match r {
                Some(f) => {
                    &&& channels_ok(left@, right@)
                    &&& f.wf()
                    &&& f.left@ == left@
                    &&& f.right@ == right@
                },
                None => !channels_ok(left@, right@),
            },
    {
        if left.len() != right.len() {
            return None;
        }
        let n = left.len();
        let mut i: usize = 0;
        while i < n
            invariant
                i <= n,
                n == left@.len(),
                n == right@.len(),
                forall|j: int| 0 <= j < i ==> -MAX_SAMPLE <= #[trigger] left@[j] <= MAX_SAMPLE,
                forall|j: int| 0 <= j < i ==> -MAX_SAMPLE <= #[trigger] right@[j] <= MAX_SAMPLE,
            decreases n - i,
        {
            let a = left[i];
            let b = right[i];
            if a < -MAX_SAMPLE || a > MAX_SAMPLE || b < -MAX_SAMPLE || b > MAX_SAMPLE {
                return None;
            }
            i = i + 1;
        }
        Some(AudioFrame { left, right })
    }

    /// How many sample pairs the frame holds.
    pub fn sample_count(&self) -> (n: usize)
        ensures
            n == self.samples().len(),
    {
        self.left.len()
    }

    /// The sample pair at `i`.
    pub fn sample(&self, i: usize) -> (s: (i64, i64))
        requires
            self.wf(),
            i < self.samples().len(),
        ensures
            (s.0 as int, s.1 as int) == self.samples()[i as int],
    {
        (self.left[i], self.right[i])
    }

    /// An element-for-element copy of the frame.
    pub fn duplicate(&self) -> (r: AudioFrame)
        ensures
            r.left@ == self.left@,
            r.right@ == self.right@,
            r.samples() == self.samples(),
    {
        let left = copy_samples(&self.left);
        let right = copy_samples(&self.right);
        let r = AudioFrame { left, right };
        proof {
            assert(r.samples() =~= self.samples());
        }
        r
    }
}

/// The producer side's cursor state: sample pairs accumulate into a
/// partial frame, and each time the configured frame size is reached a
/// completed frame is handed out and the accumulation starts over.
pub struct FrameAssembler {
    pub frame_len: usize,
    pub left: Vec<i64>,
    pub right: Vec<i64>,
}

impl FrameAssembler {
    pub open spec fn wf(&self) -> bool {
        &&& 1 <= self.frame_len
        &&& self.left@.len() == self.right@.len()
        &&& self.left@.len() < self.frame_len
        &&& forall|i: int|
            0 <= i < self.left@.len() ==> -MAX_SAMPLE <= #[trigger] self.left@[i] <= MAX_SAMPLE
        &&& forall|i: int|
            0 <= i < self.right@.len() ==> -MAX_SAMPLE <= #[trigger] self.right@[i] <= MAX_SAMPLE
    }

    /// The sample pairs accumulated so far.
    pub open spec fn pending(&self) -> Seq<(int, int)> {
        Seq::new(self.left@.len(), |i: int| (self.left@[i] as int, self.right@[i] as int))
    }

    /// A fresh assembler; rejects a zero frame size.
    pub fn new(frame_len: usize) -> (r: Option<FrameAssembler>)
        ensures
            match r {
                Some(a) => {
                    &&& a.wf()
                    &&& a.frame_len == frame_len
                    &&& a.pending().len() == 0
                },
                None => frame_len < 1,
            },
    {
        if frame_len < 1 {
            return None;
        }
        Some(FrameAssembler { frame_len, left: Vec::new(), right: Vec::new() })
    }

    /// Appends one sample pair, clamped nowhere: out-of-range samples are
    /// the caller's to reject. When the pair completes a frame of
    /// `frame_len` samples, that frame is handed out, holding exactly the
    /// accumulated pairs in arrival order, and the assembler starts over.
    pub fn push_sample(&mut self, l: i64, r: i64) -> (out: Option<AudioFrame>)
        requires
            old(self).wf(),
            -MAX_SAMPLE <= l <= MAX_SAMPLE,
            -MAX_SAMPLE <= r <= MAX_SAMPLE,
        ensures
            final(self).wf(),
            final(self).frame_len == old(self).frame_len,
            match out {
                Some(f) => {
                    &&& old(self).pending().len() == old(self).frame_len - 1
                    &&& f.wf()
                    &&& f.samples() == old(self).pending().push((l as int, r as int))
                    &&& f.samples().len() == old(self).frame_len
                    &&& final(self).pending().len() == 0
                },
                None => {
                    &&& old(self).pending().len() < old(self).frame_len - 1
                    &&& final(self).pending() == old(self).pending().push((l as int, r as int))
                },
            },
    {
        self.left.push(l);
        self.right.push(r);
        if self.left.len() == self.frame_len {
            let mut left: Vec<i64> = Vec::new();
            let mut right: Vec<i64> = Vec::new();
            core::mem::swap(&mut left, &mut self.left);
            core::mem::swap(&mut right, &mut self.right);
            let f = AudioFrame { left, right };
            proof {
                assert(f.samples() =~= old(self).pending().push((l as int, r as int)));
                assert(self.pending() =~= Seq::<(int, int)>::empty());
            }
            Some(f)
        } else {
            proof {
                assert(self.pending() =~= old(self).pending().push((l as int, r as int)));
            }
            None
        }
    }
}

} // verus!
