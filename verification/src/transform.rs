//! Per-sample signal transform: optional channel flip, rotation by a
//! multiple of 45 degrees, and optional logarithmic radial compression.
//! All values are fixed-point with 16 fractional bits.

use vstd::prelude::*;
use crate::fixed::{
    SCALE, div_scale_floor, flog2_q16, flog2_spec, isqrt64, pow2_exec,
};
use vstd::arithmetic::power2::pow2;
use vstd::arithmetic::div_mod::{
    lemma_div_is_ordered, lemma_div_multiples_vanish, lemma_div_nonincreasing,
    lemma_div_pos_is_pos,
};

verus! {

/// Largest sample magnitude the transform accepts: 16.0 in signal units,
/// generous headroom over the hardware's nominal [-1, 1] range.
pub const MAX_SAMPLE: i64 = 1048576;

/// Largest magnitude a transformed coordinate can reach.
pub const MAX_POINT: i64 = 0x1000_0000_0000;

/// cos(45 degrees) in fixed point.
pub const COS45: i64 = 46341;

/// cos(-step * 45 degrees) in fixed point, for rotation steps 0 to 8.
pub open spec fn cos_step(step: int) -> int {
    if step == 0 {
        65536
    } else if step == 1 {
        46341
    } else if step == 2 {
        0
    } else if step == 3 {
        -46341
    } else if step == 4 {
        -65536
    } else if step == 5 {
        -46341
    } else if step == 6 {
        0
    } else if step == 7 {
        46341
    } else {
        65536
    }
}

/// sin(-step * 45 degrees) in fixed point, for rotation steps 0 to 8.
pub open spec fn sin_step(step: int) -> int {
    if step == 0 {
        0
    } else if step == 1 {
        -46341
    } else if step == 2 {
        -65536
    } else if step == 3 {
        -46341
    } else if step == 4 {
        0
    } else if step == 5 {
        46341
    } else if step == 6 {
        65536
    } else if step == 7 {
        46341
    } else {
        0
    }
}

/// All tunable parameters of a render pass, plus the transformed sample
/// carried over from the previous pass so traces stay connected.
pub struct RenderState {
    /// Beam strength, fixed point, 0 to 100.
    pub exposure: u64,
    /// Input gain, fixed point, 0 to 100.
    pub gain: i64,
    /// Per-pass decay rate, fixed point, 0 to 1.
    pub decay: u64,
    /// Whether logarithmic radial compression is applied.
    pub logarithmic_enable: bool,
    /// Dynamic range of the compression in octaves, 0 to 30; a value
    /// below 1 behaves as 1, which keeps the compression well defined.
    pub logarithmic_range: u32,
    /// Rotation in 45-degree steps, 0 to 8.
    pub rotation: u8,
    /// Whether the two channels are swapped before rotation.
    pub flip: bool,
    /// The previous transformed sample, x coordinate.
    pub prev_x: i64,
    /// The previous transformed sample, y coordinate.
    pub prev_y: i64,
}

impl RenderState {
    pub open spec fn wf(&self) -> bool {
        &&& self.exposure <= 100 * SCALE
        &&& 0 <= self.gain <= 100 * SCALE as i64
        &&& self.decay <= SCALE
        &&& self.logarithmic_range <= 30
        &&& self.rotation <= 8
    }

    /// The startup defaults: exposure 5.0, gain 0.7, decay 0.3,
    /// compression off with range 15, one rotation step, flip on.
    pub fn new() -> (r: RenderState)
        ensures
            r.wf(),
            r.exposure == 327680u64,
            r.gain == 45875i64,
            r.decay == 19661u64,
            !r.logarithmic_enable,
            r.logarithmic_range == 15u32,
            r.rotation == 1u8,
            r.flip,
            r.prev_x == 0i64,
            r.prev_y == 0i64,
    {
        RenderState {
            exposure: 327680,
            gain: 45875,
            decay: 19661,
            logarithmic_enable: false,
            logarithmic_range: 15,
            rotation: 1,
            flip: true,
            prev_x: 0,
            prev_y: 0,
        }
    }

    /// Installs new control values if they are all within their documented
    /// ranges; otherwise leaves the state untouched. The carried-over
    /// sample is preserved either way.
    pub fn set_controls(
        &mut self,
        exposure: u64,
        gain: i64,
        decay: u64,
        logarithmic_enable: bool,
        logarithmic_range: u32,
        rotation: u8,
        flip: bool,
    ) -> (ok: bool)
        requires
            old(self).wf(),
        ensures
            final(self).wf(),
            ok <==> (exposure <= 100 * SCALE && 0 <= gain <= 100 * SCALE as i64 && decay <= SCALE
                && logarithmic_range <= 30 && rotation <= 8),
            ok ==> *final(self) == (RenderState {
                exposure,
                gain,
                decay,
                logarithmic_enable,
                logarithmic_range,
                rotation,
                flip,
                prev_x: old(self).prev_x,
                prev_y: old(self).prev_y,
            }),
            !ok ==> *final(self) == *old(self),
    {
        if exposure <= 100 * SCALE && gain >= 0 && gain <= 100 * (SCALE as i64) && decay <= SCALE
            && logarithmic_range <= 30 && rotation <= 8 {
            self.exposure = exposure;
            self.gain = gain;
            self.decay = decay;
            self.logarithmic_enable = logarithmic_enable;
            self.logarithmic_range = logarithmic_range;
            self.rotation = rotation;
            self.flip = flip;
            true
        } else {
            false
        }
    }
}

/// The optional channel swap, the first transform step.
pub open spec fn flip_spec(x: int, y: int, flip: bool) -> (int, int) {
    if flip {
        (y, x)
    } else {
        (x, y)
    }
}

/// Rotation by -step * 45 degrees, fixed point, rounded toward negative
/// infinity.
pub open spec fn rotate_spec(x: int, y: int, step: int) -> (int, int) {
    (
        (x * cos_step(step) + y * sin_step(step)) / SCALE as int,
        (-x * sin_step(step) + y * cos_step(step)) / SCALE as int,
    )
}

/// The square root of the sum of squares, rounded down: the length of the
/// vector (x, y) in fixed point.
pub open spec fn sqrt_floor(n: nat) -> nat
    decreases n,
{
    if n == 0 {
        0
    } else {
        let r = sqrt_floor((n - 1) as nat);
        if (r + 1) * (r + 1) <= n {
            r + 1
        } else {
            r
        }
    }
}

pub proof fn lemma_sqrt_floor_bounds(n: nat)
    ensures
        sqrt_floor(n) * sqrt_floor(n) <= n,
        n < (sqrt_floor(n) + 1) * (sqrt_floor(n) + 1),
    decreases n,
{
    if n == 0 {
        assert(sqrt_floor(n) == 0);
        assert(n < (sqrt_floor(n) + 1) * (sqrt_floor(n) + 1)) by (nonlinear_arith)
            requires
                n == 0,
                sqrt_floor(n) == 0,
        ;
    } else {
        lemma_sqrt_floor_bounds((n - 1) as nat);
        let r = sqrt_floor((n - 1) as nat);
        assert(r * r <= n - 1);
        assert(n - 1 < (r + 1) * (r + 1));
        if (r + 1) * (r + 1) <= n {
            assert(sqrt_floor(n) == r + 1);
            assert(sqrt_floor(n) * sqrt_floor(n) <= n);
            assert(n < ((r + 1) + 1) * ((r + 1) + 1)) by (nonlinear_arith)
                requires
                    n <= (r + 1) * (r + 1),
            ;
            assert(n < (sqrt_floor(n) + 1) * (sqrt_floor(n) + 1));
        } else {
            assert(sqrt_floor(n) == r);
            assert(sqrt_floor(n) * sqrt_floor(n) <= n);
            assert(n < (sqrt_floor(n) + 1) * (sqrt_floor(n) + 1));
        }
    }
}

/// A value whose square is at most `n` and whose successor's square
/// exceeds `n` is the floor square root.
pub proof fn lemma_sqrt_floor_unique(n: nat, r: nat)
    requires
        r * r <= n,
        n < (r + 1) * (r + 1),
    ensures
        r == sqrt_floor(n),
{
    lemma_sqrt_floor_bounds(n);
    let s = sqrt_floor(n);
    if r < s {
        assert((r + 1) * (r + 1) <= s * s) by (nonlinear_arith)
            requires
                r + 1 <= s,
        ;
    }
    if r > s {
        assert((s + 1) * (s + 1) <= r * r) by (nonlinear_arith)
            requires
                s + 1 <= r,
        ;
    }
}

/// The clamp floor for logarithmic compression: 2 to the power -range in
/// fixed point, and at least 1, so the length passed to the logarithm is
/// never zero.
pub open spec fn floor_len_spec(rr: int) -> int {
    let q = SCALE as int / pow2(rr as nat) as int;
    if q < 1 {
        1
    } else {
        q
    }
}

/// The shared scale factor of logarithmic compression, fixed point and
/// nonnegative: the compressed magnitude divided by the raw magnitude.
pub open spec fn compress_k(x: int, y: int, range: int) -> int {
    let rr = if range < 1 {
        1
    } else {
        range
    };
    let len = sqrt_floor((x * x + y * y) as nat) as int;
    let fl = floor_len_spec(rr);
    let lc = if len < fl {
        fl
    } else {
        len
    };
    let t0 = (flog2_spec(lc as nat) + rr * SCALE as int) / rr;
    let t = if t0 < 0 {
        0
    } else {
        t0
    };
    (t * SCALE as int) / lc
}

/// Multiplication by a fixed-point factor, rounded toward negative
/// infinity.
pub open spec fn scale_q16(k: int, v: int) -> int {
    (k * v) / SCALE as int
}

/// Logarithmic radial compression: both coordinates scaled by the one
/// shared factor `compress_k`, which depends on the vector's length alone.
pub open spec fn compress_spec(x: int, y: int, range: int) -> (int, int) {
    (scale_q16(compress_k(x, y, range), x), scale_q16(compress_k(x, y, range), y))
}

/// The whole per-sample transform: flip, then rotate, then optionally
/// compress.
pub open spec fn map_spec(x: int, y: int, st: RenderState) -> (int, int) {
    let f = flip_spec(x, y, st.flip);
    let r = rotate_spec(f.0, f.1, st.rotation as int);
    if st.logarithmic_enable {
        compress_spec(r.0, r.1, st.logarithmic_range as int)
    } else {
        r
    }
}

/// The magnitude of a signed value, as an unsigned value.
pub fn abs_u64(a: i64) -> (r: u64)
    ensures
        a >= 0 ==> r as int == a as int,
        a < 0 ==> r as int == -(a as int),
{
    if a >= 0 {
        a as u64
    } else {
        (-(a as i128)) as u64
    }
}

/// The rotation coefficients for a step: (cos, sin) of -step * 45 degrees.
fn rot_coeffs(step: u8) -> (r: (i64, i64))
    requires
        step <= 8,
    ensures
        r.0 == cos_step(step as int),
        r.1 == sin_step(step as int),
        -65536 <= r.0 <= 65536,
        -65536 <= r.1 <= 65536,
{
    match step {
        0 => (65536, 0),
        1 => (COS45, -COS45),
        2 => (0, -65536),
        3 => (-COS45, -COS45),
        4 => (-65536, 0),
        5 => (-COS45, COS45),
        6 => (0, 65536),
        7 => (COS45, COS45),
        _ => (65536, 0),
    }
}

/// The per-sample transform, matching `map_spec`.
pub fn map_sample(st: &RenderState, x: i64, y: i64) -> (r: (i64, i64))
    requires
        st.wf(),
        -MAX_SAMPLE <= x <= MAX_SAMPLE,
        -MAX_SAMPLE <= y <= MAX_SAMPLE,
    ensures
        r.0 == map_spec(x as int, y as int, *st).0,
        r.1 == map_spec(x as int, y as int, *st).1,
        -MAX_POINT <= r.0 <= MAX_POINT,
        -MAX_POINT <= r.1 <= MAX_POINT,
{
    let (x1, y1) = if st.flip {
        (y, x)
    } else {
        (x, y)
    };
    let (c, s) = rot_coeffs(st.rotation);
    proof {
        assert(x1 * c <= MAX_SAMPLE * 65536 && x1 * c >= -(MAX_SAMPLE * 65536)) by (nonlinear_arith)
            requires
                -MAX_SAMPLE <= x1 <= MAX_SAMPLE,
                -65536 <= c <= 65536,
        ;
        assert(y1 * s <= MAX_SAMPLE * 65536 && y1 * s >= -(MAX_SAMPLE * 65536)) by (nonlinear_arith)
            requires
                -MAX_SAMPLE <= y1 <= MAX_SAMPLE,
                -65536 <= s <= 65536,
        ;
        assert((-x1) * s <= MAX_SAMPLE * 65536 && (-x1) * s >= -(MAX_SAMPLE * 65536))
            by (nonlinear_arith)
            requires
                -MAX_SAMPLE <= x1 <= MAX_SAMPLE,
                -65536 <= s <= 65536,
        ;
        assert(y1 * c <= MAX_SAMPLE * 65536 && y1 * c >= -(MAX_SAMPLE * 65536)) by (nonlinear_arith)
            requires
                -MAX_SAMPLE <= y1 <= MAX_SAMPLE,
                -65536 <= c <= 65536,
        ;
    }
    let nx: i64 = x1 * c + y1 * s;
    let ny: i64 = (-x1) * s + y1 * c;
    let rx = div_scale_floor(nx);
    let ry = div_scale_floor(ny);
    proof {
        lemma_div_is_ordered(-0x20_0000_0000int, nx as int, SCALE as int);
        lemma_div_is_ordered(nx as int, 0x20_0000_0000int, SCALE as int);
        lemma_div_is_ordered(-0x20_0000_0000int, ny as int, SCALE as int);
        lemma_div_is_ordered(ny as int, 0x20_0000_0000int, SCALE as int);
        assert(0x20_0000_0000int / SCALE as int == 0x20_0000int);
        assert(-0x20_0000_0000int / SCALE as int == -0x20_0000int);
    }
    if !st.logarithmic_enable {
        return (rx, ry);
    }
    let ax = abs_u64(rx);
    let ay = abs_u64(ry);
    proof {
        assert(ax as int * ax as int == rx as int * rx as int && ax * ax <= 0x20_0000u64
            * 0x20_0000u64) by (nonlinear_arith)
            requires
                ax <= 0x20_0000u64,
                ax as int == rx as int || ax as int == -(rx as int),
        ;
        assert(ay as int * ay as int == ry as int * ry as int && ay * ay <= 0x20_0000u64
            * 0x20_0000u64) by (nonlinear_arith)
            requires
                ay <= 0x20_0000u64,
                ay as int == ry as int || ay as int == -(ry as int),
        ;
    }
    let n: u64 = ax * ax + ay * ay;
    let len = isqrt64(n);
    proof {
        lemma_sqrt_floor_unique(n as nat, len as nat);
    }
    let rr: u32 = if st.logarithmic_range < 1 {
        1
    } else {
        st.logarithmic_range
    };
    let p = pow2_exec(rr);
    proof {
        vstd::arithmetic::power2::lemma_pow2_pos(rr as nat);
    }
    let q: u64 = SCALE / p;
    let fl: u64 = if q < 1 {
        1
    } else {
        q
    };
    proof {
        lemma_div_nonincreasing(SCALE as int, p as int);
    }
    let lc: u64 = if len < fl {
        fl
    } else {
        len
    };
    let lg = flog2_q16(lc);
    let tnum: i64 = lg + (rr as i64) * 65536;
    let t: u64 = if tnum <= 0 {
        proof {
            if tnum < 0 {
                vstd::arithmetic::div_mod::lemma_fundamental_div_mod(tnum as int, rr as int);
                vstd::arithmetic::div_mod::lemma_mod_division_less_than_divisor(
                    tnum as int,
                    rr as int,
                );
                let qq = tnum as int / rr as int;
                assert(rr as int * qq < 0);
                assert(qq < 0) by (nonlinear_arith)
                    requires
                        rr as int > 0,
                        rr as int * qq < 0,
                ;
            }
        }
        0
    } else {
        (tnum as u64) / (rr as u64)
    };
    proof {
        if tnum > 0 {
            lemma_div_nonincreasing(tnum as int, rr as int);
            lemma_div_pos_is_pos(tnum as int, rr as int);
        }
    }
    let knum: u64 = t * 65536;
    let k: u64 = knum / lc;
    proof {
        lemma_div_nonincreasing(knum as int, lc as int);
        lemma_div_pos_is_pos(knum as int, lc as int);
        assert(k as int * rx as int <= 0x40_0000_0000 * 0x20_0000 && k as int * rx as int >= -(
        0x40_0000_0000 * 0x20_0000)) by (nonlinear_arith)
            requires
                0 <= k as int <= 0x40_0000_0000,
                -0x20_0000 <= rx as int <= 0x20_0000,
        ;
        assert(k as int * ry as int <= 0x40_0000_0000 * 0x20_0000 && k as int * ry as int >= -(
        0x40_0000_0000 * 0x20_0000)) by (nonlinear_arith)
            requires
                0 <= k as int <= 0x40_0000_0000,
                -0x20_0000 <= ry as int <= 0x20_0000,
        ;
    }
    let ox = div_scale_floor((k as i64) * rx);
    let oy = div_scale_floor((k as i64) * ry);
    proof {
        let big: int = 0x40_0000_0000int * 0x20_0000int;
        lemma_div_is_ordered(-big, (k as i64 * rx) as int, SCALE as int);
        lemma_div_is_ordered((k as i64 * rx) as int, big, SCALE as int);
        lemma_div_is_ordered(-big, (k as i64 * ry) as int, SCALE as int);
        lemma_div_is_ordered((k as i64 * ry) as int, big, SCALE as int);
        assert(big == 0x800_0000_0000_0000int);
        assert(0x800_0000_0000_0000int / SCALE as int <= MAX_POINT as int);
        assert((-0x800_0000_0000_0000int) / SCALE as int >= -(MAX_POINT as int));
    }
    (ox, oy)
}

/// Law: with rotation step 0, flip off and logarithmic compression
/// disabled, the transform is the identity.
pub proof fn lemma_map_identity(x: int, y: int, st: RenderState)
    requires
        st.rotation == 0,
        !st.flip,
        !st.logarithmic_enable,
    ensures
        map_spec(x, y, st) == (x, y),
{
    lemma_div_multiples_vanish(x, SCALE as int);
    lemma_div_multiples_vanish(y, SCALE as int);
    assert(x * 65536 + y * 0 == 65536 * x);
    assert(-x * 0 + y * 65536 == 65536 * y);
}

/// Law: rotation by step 8, a full circle, transforms every sample exactly
/// as rotation by step 0 does.
pub proof fn lemma_rotation_full_circle(x: int, y: int, st: RenderState)
    requires
        st.rotation == 8,
    ensures
        map_spec(x, y, st) == map_spec(x, y, (RenderState { rotation: 0u8, ..st })),
{
    assert(cos_step(8) == cos_step(0));
    assert(sin_step(8) == sin_step(0));
}

/// Law: logarithmic compression only rescales magnitude: both output
/// coordinates are the input coordinates multiplied by the one shared
/// nonnegative factor `compress_k`, so each output coordinate keeps the
/// sign of its input coordinate.
pub proof fn lemma_compress_preserves_direction(x: int, y: int, range: int)
    ensures
        compress_k(x, y, range) >= 0,
        compress_spec(x, y, range) == (
            scale_q16(compress_k(x, y, range), x),
            scale_q16(compress_k(x, y, range), y),
        ),
        x >= 0 ==> compress_spec(x, y, range).0 >= 0,
        x <= 0 ==> compress_spec(x, y, range).0 <= 0,
        y >= 0 ==> compress_spec(x, y, range).1 >= 0,
        y <= 0 ==> compress_spec(x, y, range).1 <= 0,
{
    let rr = if range < 1 {
        1
    } else {
        range
    };
    let len = sqrt_floor((x * x + y * y) as nat) as int;
    let fl = floor_len_spec(rr);
    let lc = if len < fl {
        fl
    } else {
        len
    };
    let t0 = (flog2_spec(lc as nat) + rr * SCALE as int) / rr;
    let t = if t0 < 0 {
        0
    } else {
        t0
    };
    assert(lc >= 1);
    lemma_div_pos_is_pos(t * SCALE as int, lc);
    assert(t * SCALE as int >= 0) by (nonlinear_arith)
        requires
            t >= 0,
    ;
    let k = compress_k(x, y, range);
    lemma_scale_sign(k, x);
    lemma_scale_sign(k, y);
}

/// Law: the compressed vector is collinear with the input vector up to
/// rounding: the cross product of output and input is at most one rounding
/// unit per coordinate, so the normalized output direction equals the
/// normalized input direction as closely as fixed-point rounding allows.
pub proof fn lemma_compress_collinear(x: int, y: int, range: int)
    ensures
        ({
            let o = compress_spec(x, y, range);
            let bound = (if x >= 0 {
                x
            } else {
                -x
            }) + (if y >= 0 {
                y
            } else {
                -y
            });
            -bound <= o.0 * y - o.1 * x <= bound
        }),
{
    let k = compress_k(x, y, range);
    let s = SCALE as int;
    vstd::arithmetic::div_mod::lemma_fundamental_div_mod(k * x, s);
    vstd::arithmetic::div_mod::lemma_mod_division_less_than_divisor(k * x, s);
    vstd::arithmetic::div_mod::lemma_fundamental_div_mod(k * y, s);
    vstd::arithmetic::div_mod::lemma_mod_division_less_than_divisor(k * y, s);
    let ox = (k * x) / s;
    let rx = (k * x) % s;
    let oy = (k * y) / s;
    let ry = (k * y) % s;
    let ax = if x >= 0 {
        x
    } else {
        -x
    };
    let ay = if y >= 0 {
        y
    } else {
        -y
    };
    let bound = ax + ay;
    assert(s * (ox * y - oy * x) == ry * x - rx * y) by (nonlinear_arith)
        requires
            k * x == s * ox + rx,
            k * y == s * oy + ry,
    ;
    assert(ry * x <= s * ax && ry * x >= -(s * ax)) by (nonlinear_arith)
        requires
            0 <= ry < s,
            ax >= 0,
            x == ax || x == -ax,
    ;
    assert(rx * y <= s * ay && rx * y >= -(s * ay)) by (nonlinear_arith)
        requires
            0 <= rx < s,
            ay >= 0,
            y == ay || y == -ay,
    ;
    assert(ox * y - oy * x <= bound && ox * y - oy * x >= -bound) by (nonlinear_arith)
        requires
            s > 0,
            s * (ox * y - oy * x) <= s * bound,
            s * (ox * y - oy * x) >= -(s * bound),
    ;
    assert(compress_spec(x, y, range).0 == ox);
    assert(compress_spec(x, y, range).1 == oy);
}

/// Scaling by a nonnegative fixed-point factor keeps the sign.
proof fn lemma_scale_sign(k: int, v: int)
    requires
        k >= 0,
    ensures
        v >= 0 ==> scale_q16(k, v) >= 0,
        v <= 0 ==> scale_q16(k, v) <= 0,
{
    if v >= 0 {
        assert(k * v >= 0) by (nonlinear_arith)
            requires
                k >= 0,
                v >= 0,
        ;
        lemma_div_pos_is_pos(k * v, SCALE as int);
    } else {
        assert(k * v <= 0) by (nonlinear_arith)
            requires
                k >= 0,
                v <= 0,
        ;
        if k * v < 0 {
            lemma_div_is_ordered(k * v, -1, SCALE as int);
            assert(-1int / SCALE as int == -1int);
        } else {
            assert(k * v == 0);
            assert(0int / SCALE as int == 0int);
        }
    }
}

} // verus!
