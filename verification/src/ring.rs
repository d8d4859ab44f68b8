//! The bounded, lossy frame queue between the capture side and the render
//! side: a fixed arena of slots indexed by sequence number modulo capacity.
//! The producer installs each frame at its slot and advances a
//! monotonically increasing write counter; it never waits for readers and
//! never fails. Each reader keeps its own next sequence number, and a
//! reader that fell more than `capacity` frames behind skips forward,
//! dropping the overwritten frames rather than observing torn data.

use vstd::prelude::*;
use crate::frame::AudioFrame;
use vstd::arithmetic::div_mod::{
    lemma_fundamental_div_mod, lemma_mod_add_multiples_vanish,
    lemma_mod_division_less_than_divisor, lemma_small_mod,
};

verus! {

/// What one write does to the still-present frames: append the new frame,
/// dropping the oldest one first when the channel is full.
pub open spec fn model_write(buf: Seq<Seq<(int, int)>>, cap: int, f: Seq<(int, int)>) -> Seq<
    Seq<(int, int)>,
> {
    if buf.len() < cap {
        buf.push(f)
    } else {
        buf.subrange(1, buf.len() as int).push(f)
    }
}

/// A whole sequence of writes, oldest first.
pub open spec fn model_write_all(
    buf: Seq<Seq<(int, int)>>,
    cap: int,
    fs: Seq<Seq<(int, int)>>,
) -> Seq<Seq<(int, int)>>
    decreases fs.len(),
{
    if fs.len() == 0 {
        buf
    } else {
        model_write_all(model_write(buf, cap, fs[0]), cap, fs.skip(1))
    }
}

/// The consumer's position in the stream: the sequence number of the next
/// frame it wants.
pub struct RingReader {
    pub next_seq: u64,
}

/// The bounded, lossy frame queue.
pub struct RingChannel {
    pub capacity: usize,
    pub write_count: u64,
    pub slots: Vec<AudioFrame>,
}

impl RingChannel {
    pub open spec fn wf(&self) -> bool {
        &&& 1 <= self.capacity
        &&& self.slots@.len() == if self.write_count <= self.capacity {
            self.write_count as int
        } else {
            self.capacity as int
        }
        &&& forall|i: int| 0 <= i < self.slots@.len() ==> (#[trigger] self.slots@[i]).wf()
    }

    /// Which slot holds the `i`-th oldest still-present frame.
    pub open spec fn slot_of(&self, i: int) -> int {
        if self.write_count <= self.capacity {
            i
        } else {
            (self.write_count + i) % self.capacity as int
        }
    }

    /// The still-present frames, oldest first.
    pub open spec fn buffered(&self) -> Seq<Seq<(int, int)>> {
        Seq::new(self.slots@.len(), |i: int| self.slots@[self.slot_of(i)].samples())
    }

    /// How many frames were ever written.
    pub open spec fn count(&self) -> int {
        self.write_count as int
    }

    /// A fresh channel; rejects a zero capacity.
    pub fn new(capacity: usize) -> (r: Option<RingChannel>)
        ensures
            match r {
                Some(c) => {
                    &&& c.wf()
                    &&& c.capacity == capacity
                    &&& c.count() == 0
                    &&& c.buffered().len() == 0
                },
                None => capacity < 1,
            },
    {
        if capacity < 1 {
            return None;
        }
        Some(RingChannel { capacity, write_count: 0, slots: Vec::new() })
    }

    /// The producer's operation: installs the frame and publishes it by
    /// advancing the write counter. Total — it never blocks, never fails,
    /// and when the channel is full it overwrites the oldest slot.
    pub fn write(&mut self, frame: AudioFrame)
        requires
            old(self).wf(),
            frame.wf(),
            old(self).write_count < 0xFFFF_FFFF_FFFF_FFFFu64,
        ensures
            final(self).wf(),
            final(self).capacity == old(self).capacity,
            final(self).count() == old(self).count() + 1,
            final(self).buffered() == model_write(
                old(self).buffered(),
                old(self).capacity as int,
                frame.samples(),
            ),
    {
        let ghost pre = *self;
        if self.slots.len() < self.capacity {
            self.slots.push(frame);
            self.write_count = self.write_count + 1;
            proof {
                assert(self.buffered() =~= model_write(
                    pre.buffered(),
                    pre.capacity as int,
                    frame.samples(),
                ));
            }
        } else {
            let idx: usize = (self.write_count % self.capacity as u64) as usize;
            proof {
                lemma_mod_division_less_than_divisor(
                    self.write_count as int,
                    self.capacity as int,
                );
            }
            self.slots.set(idx, frame);
            self.write_count = self.write_count + 1;
            proof {
                let cap = pre.capacity as int;
                let wc = pre.write_count as int;
                assert forall|i: int| 0 <= i < cap - 1 implies #[trigger] self.buffered()[i]
                    == pre.buffered()[i + 1] by {
                    lemma_slot_shift(pre, *self, i, idx as int);
                }
                assert(self.slot_of(cap - 1) == idx as int) by {
                    lemma_mod_add_multiples_vanish(wc, cap);
                }
                assert(self.buffered()[cap - 1] == frame.samples());
                assert(self.buffered() =~= model_write(
                    pre.buffered(),
                    pre.capacity as int,
                    frame.samples(),
                ));
            }
        }
    }

    /// The consumer's operation: hands back the next unread frame in
    /// production order, or skips forward past overwritten frames if the
    /// reader fell behind, or reports that the reader has caught up.
    pub fn read(&self, reader: &mut RingReader) -> (r: Option<AudioFrame>)
        requires
            self.wf(),
            old(reader).next_seq <= self.write_count,
        ensures
            final(reader).next_seq <= self.write_count,
            match r {
                None => {
                    &&& old(reader).next_seq == self.write_count
                    &&& *final(reader) == *old(reader)
                },
                Some(f) => {
                    let lost = self.count() - self.buffered().len();
                    let pos = if old(reader).next_seq as int >= lost {
                        old(reader).next_seq as int
                    } else {
                        lost
                    };
                    &&& old(reader).next_seq < self.write_count
                    &&& f.wf()
                    &&& f.samples() == self.buffered()[pos - lost]
                    &&& final(reader).next_seq == pos + 1
                },
            },
    {
        if reader.next_seq >= self.write_count {
            return None;
        }
        let lost: u64 = self.write_count - self.slots.len() as u64;
        let pos: u64 = if reader.next_seq < lost {
            lost
        } else {
            reader.next_seq
        };
        let idx: usize = (pos % self.capacity as u64) as usize;
        proof {
            lemma_mod_division_less_than_divisor(pos as int, self.capacity as int);
            if self.write_count <= self.capacity {
                assert(lost == 0);
                lemma_small_mod(pos as nat, self.capacity as nat);
                assert(idx as int == self.slot_of(pos as int - lost as int));
            } else {
                assert(lost == self.write_count - self.capacity);
                lemma_mod_add_multiples_vanish(pos as int, self.capacity as int);
                assert((self.capacity as int + pos as int) % self.capacity as int == pos as int
                    % self.capacity as int);
                assert(self.slot_of(pos as int - lost as int) == (self.write_count as int + (
                pos as int - lost as int)) % self.capacity as int);
                assert(self.write_count as int + (pos as int - lost as int) == self.capacity as int
                    + pos as int);
            }
        }
        let f = self.slots[idx].duplicate();
        proof {
            assert(f.samples() == self.buffered()[pos as int - lost as int]);
        }
        reader.next_seq = pos + 1;
        Some(f)
    }
}

/// After an overwrite, the `i`-th oldest remaining frame is what was the
/// `i+1`-th oldest before.
proof fn lemma_slot_shift(pre: RingChannel, post: RingChannel, i: int, idx: int)
    requires
        pre.wf(),
        0 <= i < pre.capacity - 1,
        pre.write_count >= pre.capacity,
        pre.write_count < 0xFFFF_FFFF_FFFF_FFFFu64,
        idx == pre.write_count as int % pre.capacity as int,
        post.capacity == pre.capacity,
        post.write_count == pre.write_count + 1,
        post.slots@ == pre.slots@.update(idx, post.slots@[idx]),
    ensures
        post.slot_of(i) == pre.slot_of(i + 1),
        post.slot_of(i) != idx,
        post.buffered()[i] == pre.buffered()[i + 1],
{
    let cap = pre.capacity as int;
    let wc = pre.write_count as int;
    lemma_mod_division_less_than_divisor(wc + 1 + i, cap);
    if wc == cap {
        // both sides still use plain indexing before the wrap
        lemma_mod_add_multiples_vanish(1 + i, cap);
        lemma_small_mod((1 + i) as nat, cap as nat);
        assert(post.slot_of(i) == (cap + (1 + i)) % cap);
        assert(post.slot_of(i) == 1 + i);
        assert(pre.slot_of(i + 1) == i + 1);
        lemma_mod_add_multiples_vanish(0, cap);
        assert(idx == 0) by {
            lemma_small_mod(0nat, cap as nat);
            assert((cap + 0) % cap == 0int % cap);
        }
    } else {
        assert(post.slot_of(i) == (wc + 1 + i) % cap);
        assert(pre.slot_of(i + 1) == (wc + i + 1) % cap);
        lemma_mod_distinct(wc, 1 + i, cap);
    }
    assert(post.buffered()[i] == post.slots@[post.slot_of(i)].samples());
    assert(pre.buffered()[i + 1] == pre.slots@[pre.slot_of(i + 1)].samples());
}

/// Adding a positive amount smaller than the modulus always changes the
/// remainder.
proof fn lemma_mod_distinct(a: int, k: int, m: int)
    requires
        m > 0,
        1 <= k < m,
    ensures
        (a + k) % m != a % m,
{
    lemma_fundamental_div_mod(a, m);
    lemma_fundamental_div_mod(a + k, m);
    lemma_mod_division_less_than_divisor(a, m);
    lemma_mod_division_less_than_divisor(a + k, m);
    if (a + k) % m == a % m {
        let q1 = a / m;
        let q2 = (a + k) / m;
        assert(m * q2 - m * q1 == m * (q2 - q1)) by (nonlinear_arith);
        assert(k == m * (q2 - q1));
        if q2 - q1 >= 1 {
            assert(m * (q2 - q1) >= m) by (nonlinear_arith)
                requires
                    m > 0,
                    q2 - q1 >= 1,
            ;
        } else {
            assert(m * (q2 - q1) <= 0) by (nonlinear_arith)
                requires
                    m > 0,
                    q2 - q1 <= 0,
            ;
        }
    }
}

/// Law: the producer never blocks — `write` is total, with no
/// precondition on the channel's fullness — and overproduction costs
/// exactly the oldest frames: after at least `cap` writes into an empty
/// channel, the frames still present are exactly the newest `cap` of the
/// frames written, in production order; everything older is gone.
pub proof fn lemma_overflow_drops_oldest(cap: int, fs: Seq<Seq<(int, int)>>)
    requires
        1 <= cap,
        fs.len() >= cap,
    ensures
        model_write_all(Seq::empty(), cap, fs) == fs.skip(fs.len() - cap),
{
    lemma_model_write_all(Seq::empty(), cap, fs);
    assert(Seq::<Seq<(int, int)>>::empty() + fs =~= fs);
}

/// After any run of writes, the frames still present are the newest
/// `cap` of the old contents followed by the newly written frames.
proof fn lemma_model_write_all(buf: Seq<Seq<(int, int)>>, cap: int, fs: Seq<Seq<(int, int)>>)
    requires
        1 <= cap,
        buf.len() <= cap,
    ensures
        model_write_all(buf, cap, fs) == ({
            let total = buf.len() + fs.len();
            let dropped = if total > cap {
                total - cap
            } else {
                0
            };
            (buf + fs).skip(dropped)
        }),
    decreases fs.len(),
{
    let total = buf.len() + fs.len();
    let dropped: int = if total > cap {
        total - cap
    } else {
        0
    };
    if fs.len() == 0 {
        assert((buf + fs).skip(0) =~= buf);
    } else {
        let buf2 = model_write(buf, cap, fs[0]);
        lemma_model_write_all(buf2, cap, fs.skip(1));
        let total2 = buf2.len() + fs.skip(1).len();
        let dropped2: int = if total2 > cap {
            total2 - cap
        } else {
            0
        };
        if buf.len() < cap {
            assert(buf2 + fs.skip(1) =~= buf + fs);
            assert(dropped2 == dropped);
        } else {
            assert(buf2 + fs.skip(1) =~= (buf + fs).skip(1));
            assert(dropped2 == dropped - 1);
            assert(((buf + fs).skip(1)).skip(dropped2) =~= (buf + fs).skip(dropped));
        }
    }
}

} // verus!
