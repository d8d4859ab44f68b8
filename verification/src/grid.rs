//! The persistent pixel grid: three 8-bit accumulator channels per pixel,
//! decayed exponentially once per render pass and brightened additively by
//! the rasterizer.

use vstd::prelude::*;
use crate::fixed::{SCALE, HALF};

verus! {

/// One pixel: three independent additive accumulator channels. The fixed
/// opacity channel of the displayed image is supplied by the boundary layer.
#[derive(Clone, Copy, PartialEq, Eq, Structural)]
pub struct Pixel {
    pub r: u8,
    pub g: u8,
    pub b: u8,
}

/// How much one decay step subtracts from a channel holding `v`, at decay
/// rate `rate` (fixed-point, `SCALE` = 1.0): `round(v * rate)`, but at
/// least 1, so that decay never stalls on a small value.
pub open spec fn decay_amount(v: int, rate: int) -> int {
    let d = (v * rate + HALF) / SCALE as int;
    if d < 1 {
        1
    } else {
        d
    }
}

/// One decay step of a channel value: subtract `decay_amount`, saturating
/// at zero.
pub open spec fn decay_value(v: int, rate: int) -> int {
    if decay_amount(v, rate) >= v {
        0
    } else {
        v - decay_amount(v, rate)
    }
}

/// One decay step of a whole pixel.
pub open spec fn decay_pixel(p: Pixel, rate: int) -> Pixel {
    Pixel {
        r: decay_value(p.r as int, rate) as u8,
        g: decay_value(p.g as int, rate) as u8,
        b: decay_value(p.b as int, rate) as u8,
    }
}

/// One decay step of one 8-bit channel.
pub fn decay_channel(v: u8, rate: u64) -> (r: u8)
    requires
        rate <= SCALE,
    ensures
        r == decay_value(v as int, rate as int),
{
    proof {
        assert(v as u64 * rate <= 255 * SCALE) by (nonlinear_arith)
            requires
                v as u64 <= 255,
                rate <= SCALE,
        ;
    }
    let num: u64 = (v as u64) * rate + HALF;
    let d: u64 = num / SCALE;
    proof {
        assert((255int * SCALE as int + HALF as int) / SCALE as int == 255int);
        vstd::arithmetic::div_mod::lemma_div_is_ordered(
            num as int,
            (255 * SCALE + HALF) as int,
            SCALE as int,
        );
    }
    let d: u64 = if d < 1 {
        1
    } else {
        d
    };
    if d >= v as u64 {
        0
    } else {
        v - d as u8
    }
}

/// Repeated decay: `n` decay steps applied to a starting value `v`.
pub open spec fn decay_iter(v: int, rate: int, n: nat) -> int
    decreases n,
{
    if n == 0 {
        v
    } else {
        decay_iter(decay_value(v, rate), rate, (n - 1) as nat)
    }
}

/// Law: for every decay rate in (0, 1] and every nonzero channel value,
/// one decay step strictly decreases the value and never goes below zero.
pub proof fn lemma_decay_strictly_decreases(v: int, rate: int)
    requires
        0 < v <= 255,
        0 < rate <= SCALE,
    ensures
        0 <= decay_value(v, rate) < v,
{
}

/// Law: for every decay rate in (0, 1] and every starting channel value,
/// repeated decay reaches exactly zero within a bounded number of steps:
/// `v` steps always suffice (each step subtracts at least 1).
pub proof fn lemma_decay_reaches_zero(v: int, rate: int, n: nat)
    requires
        0 <= v <= 255,
        0 < rate <= SCALE,
        n >= v,
    ensures
        decay_iter(v, rate, n) == 0,
    decreases n,
{
    if v == 0 {
        if n > 0 {
            assert(decay_value(0, rate) == 0);
            lemma_decay_reaches_zero(0, rate, (n - 1) as nat);
        }
    } else {
        lemma_decay_strictly_decreases(v, rate);
        lemma_decay_reaches_zero(decay_value(v, rate), rate, (n - 1) as nat);
    }
}

/// The largest grid dimension, chosen so that squared pixel distances in
/// fixed-point coordinates stay within 64 bits.
pub const MAX_DIM: usize = 32768;

/// The persistent width x height pixel grid.
pub struct PixelGrid {
    pub width: usize,
    pub height: usize,
    pub pixels: Vec<Pixel>,
}

impl PixelGrid {
    pub open spec fn wf(&self) -> bool {
        &&& 1 <= self.width <= MAX_DIM
        &&& 1 <= self.height <= MAX_DIM
        &&& self.pixels@.len() == self.width * self.height
    }

    /// A fresh all-black grid; rejects dimensions that are zero or too
    /// large for fixed-point coordinates.
    pub fn new(width: usize, height: usize) -> (r: Option<PixelGrid>)
        ensures
            match r {
                Some(g) => {
                    &&& g.wf()
                    &&& g.width == width
                    &&& g.height == height
                    &&& forall|i: int|
                        0 <= i < g.pixels@.len() ==> #[trigger] g.pixels@[i] == (Pixel {
                            r: 0u8,
                            g: 0u8,
                            b: 0u8,
                        })
                },
                None => !(1 <= width <= MAX_DIM && 1 <= height <= MAX_DIM),
            },
    {
        if width < 1 || width > MAX_DIM || height < 1 || height > MAX_DIM {
            return None;
        }
        assert(width * height <= MAX_DIM * MAX_DIM) by (nonlinear_arith)
            requires
                width <= MAX_DIM,
                height <= MAX_DIM,
        ;
        let n: usize = width * height;
        let mut pixels: Vec<Pixel> = Vec::new();
        let mut i: usize = 0;
        while i < n
            invariant
                i <= n,
                pixels@.len() == i,
                forall|j: int|
                    0 <= j < i ==> #[trigger] pixels@[j] == (Pixel { r: 0u8, g: 0u8, b: 0u8 }),
            decreases n - i,
        {
            pixels.push(Pixel { r: 0, g: 0, b: 0 });
            i = i + 1;
        }
        Some(PixelGrid { width, height, pixels })
    }

    /// The decay half of a render pass: every pixel's three channels are
    /// reduced by `round(value * rate)`, at least 1, saturating at zero.
    /// Applied exactly once per render pass, before any new segment is
    /// drawn.
    pub fn decay_pass(&mut self, rate: u64)
        requires
            old(self).wf(),
            rate <= SCALE,
        ensures
            final(self).wf(),
            final(self).width == old(self).width,
            final(self).height == old(self).height,
            final(self).pixels@.len() == old(self).pixels@.len(),
            forall|i: int|
                0 <= i < old(self).pixels@.len() ==> #[trigger] final(self).pixels@[i]
                    == decay_pixel(old(self).pixels@[i], rate as int),
    {
        let n: usize = self.pixels.len();
        let mut i: usize = 0;
        while i < n
            invariant
                i <= n,
                rate <= SCALE,
                n == self.pixels@.len(),
                self.pixels@.len() == old(self).pixels@.len(),
                self.width == old(self).width,
                self.height == old(self).height,
                forall|j: int|
                    i <= j < n ==> #[trigger] self.pixels@[j] == old(self).pixels@[j],
                forall|j: int|
                    0 <= j < i ==> #[trigger] self.pixels@[j] == decay_pixel(
                        old(self).pixels@[j],
                        rate as int,
                    ),
            decreases n - i,
        {
            let p = self.pixels[i];
            let q = Pixel {
                r: decay_channel(p.r, rate),
                g: decay_channel(p.g, rate),
                b: decay_channel(p.b, rate),
            };
            self.pixels.set(i, q);
            i = i + 1;
        }
    }
}

} // verus!
