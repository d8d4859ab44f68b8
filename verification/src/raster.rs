//! Anti-aliased line segments in the style of Xiaolin Wu's algorithm, in
//! fixed-point arithmetic: the segment is classified as steep or shallow,
//! endpoints are ordered along the majority axis, and coverage is split
//! between the two minor-axis neighbours of each step. Each plotted pixel
//! is brightened additively with per-channel weights, saturating at the
//! 8-bit maximum. Following the standard form of the algorithm, the two
//! minor-axis neighbours of an interior step are distinct pixels, and each
//! endpoint's gap fraction comes from that endpoint's own coordinate.

use vstd::prelude::*;
use crate::fixed::{HALF, SCALE, isqrt64, lemma_div_mod_unique};
use crate::grid::{Pixel, PixelGrid};
use crate::transform::{lemma_sqrt_floor_unique, sqrt_floor};
use vstd::arithmetic::div_mod::{
    lemma_div_is_ordered, lemma_div_multiples_vanish, lemma_div_plus_one,
    lemma_fundamental_div_mod, lemma_mod_division_less_than_divisor, lemma_multiply_divide_le,
};

verus! {

/// The largest pixel coordinate the rasterizer accepts, fixed point:
/// `MAX_DIM` pixels.
pub const MAX_COORD: u64 = 0x8000_0000;

/// The internal margin, in pixels, that keeps every intermediate
/// coordinate nonnegative; plots inside the margin are off-grid and
/// discarded.
pub const OFF: u64 = 4;

/// The margin in fixed-point units.
pub const OFFQ: u64 = 262144;

/// The additive weight of the first channel: together the three weights
/// approximate a dominant-hue phosphor glow.
pub const WEIGHT_R: u64 = 16;

/// The additive weight of the second, dominant channel.
pub const WEIGHT_G: u64 = 255;

/// The additive weight of the third channel.
pub const WEIGHT_B: u64 = 32;

/// One channel brightened by a weighted coverage value, saturating at
/// the 8-bit maximum.
pub open spec fn bright_add(ch: int, v: int, w: int) -> int {
    let add = (v * w + HALF) / SCALE as int;
    if ch + add > 255 {
        255
    } else {
        ch + add
    }
}

/// A pixel brightened by coverage `c` at intensity `intensity`, both
/// fixed-point fractions of one.
pub open spec fn brightened(p: Pixel, c: int, intensity: int) -> Pixel {
    let v0 = (c * intensity) / SCALE as int;
    let v = if v0 > SCALE {
        SCALE as int
    } else {
        v0
    };
    Pixel {
        r: bright_add(p.r as int, v, WEIGHT_R as int) as u8,
        g: bright_add(p.g as int, v, WEIGHT_G as int) as u8,
        b: bright_add(p.b as int, v, WEIGHT_B as int) as u8,
    }
}

/// No channel is darker in `q` than in `p`.
pub open spec fn brighter_eq(p: Pixel, q: Pixel) -> bool {
    &&& p.r <= q.r
    &&& p.g <= q.g
    &&& p.b <= q.b
}

/// The pixels a segment from (x0, y0) to (x1, y1) may touch: its bounding
/// box, widened by one pixel of anti-aliasing spill and one of rounding.
pub open spec fn near_segment(px: int, py: int, x0: int, y0: int, x1: int, y1: int) -> bool {
    let s = SCALE as int;
    let xmin = if x0 < x1 {
        x0
    } else {
        x1
    };
    let xmax = if x0 < x1 {
        x1
    } else {
        x0
    };
    let ymin = if y0 < y1 {
        y0
    } else {
        y1
    };
    let ymax = if y0 < y1 {
        y1
    } else {
        y0
    };
    &&& xmin / s - 1 <= px <= xmax / s + 2
    &&& ymin / s - 1 <= py <= ymax / s + 2
}

/// `near_segment` read off a flat pixel index.
pub open spec fn near_idx(i: int, width: int, x0: int, y0: int, x1: int, y1: int) -> bool {
    near_segment(i % width, i / width, x0, y0, x1, y1)
}

/// Where a plot in margin coordinates lands in the grid: the flat pixel
/// index, or -1 when the plot is off-grid.
pub open spec fn plot_target(width: int, height: int, xo: int, yo: int) -> int {
    if xo < OFF || yo < OFF || xo - OFF >= width || yo - OFF >= height {
        -1
    } else {
        (yo - OFF) * width + (xo - OFF)
    }
}

/// One plot applied to the pixels as a whole: the target pixel, if any,
/// replaced by its brightened value.
pub open spec fn plot_apply(px: Seq<Pixel>, w: int, h: int, xo: int, yo: int, c: int, inten: int) -> Seq<Pixel> {
    let t = plot_target(w, h, xo, yo);
    if 0 <= t < px.len() {
        px.update(t, brightened(px[t], c, inten))
    } else {
        px
    }
}

/// The distance between two values.
pub open spec fn abs_diff(a: int, b: int) -> int {
    if a >= b {
        a - b
    } else {
        b - a
    }
}

/// The brightness of the whole segment: the exposure divided by the
/// segment's length (at least one pixel), capped at one.
pub open spec fn intensity_spec(x0: int, y0: int, x1: int, y1: int, exposure: int) -> int {
    let dxm = abs_diff(x1, x0);
    let dym = abs_diff(y1, y0);
    let seg = sqrt_floor((dxm * dxm + dym * dym) as nat) as int;
    let denom = if seg < SCALE as int {
        SCALE as int
    } else {
        seg
    };
    let qi = exposure * SCALE as int / denom;
    if qi > SCALE as int {
        SCALE as int
    } else {
        qi
    }
}

/// Whether the segment's minor axis is the screen's x axis.
pub open spec fn norm_steep(x0: int, y0: int, x1: int, y1: int) -> bool {
    abs_diff(y1, y0) > abs_diff(x1, x0)
}

/// The endpoints in margin coordinates, axes swapped for steep segments
/// and ordered along the majority axis.
pub open spec fn norm_coords(x0: int, y0: int, x1: int, y1: int) -> (int, int, int, int) {
    let q = OFFQ as int;
    let b = if norm_steep(x0, y0, x1, y1) {
        (y0 + q, x0 + q, y1 + q, x1 + q)
    } else {
        (x0 + q, y0 + q, x1 + q, y1 + q)
    };
    if b.0 > b.2 {
        (b.2, b.3, b.0, b.1)
    } else {
        b
    }
}

/// The minor-axis interpolation at a rounded majority coordinate.
pub open spec fn interp_spec(y: int, gneg: bool, gmag: int, xr: int, x: int) -> int {
    let dneg = !(xr >= x);
    let adj = gmag * abs_diff(xr, x) / SCALE as int;
    if gneg == dneg {
        y + adj
    } else {
        y - adj
    }
}

/// One clamped step of the minor-axis interpolator.
pub open spec fn advance_spec(v: int, gneg: bool, gmag: int, lo: int, hi: int) -> int {
    let t = if gneg {
        v - gmag
    } else {
        v + gmag
    };
    if t < lo {
        lo
    } else if t > hi {
        hi
    } else {
        t
    }
}

/// One pair of plots on the same majority coordinate: the high-coverage
/// plot at the minor pixel, the low-coverage plot at its distinct
/// neighbour.
pub open spec fn pair_apply(
    px: Seq<Pixel>,
    w: int,
    h: int,
    steep: bool,
    maj: int,
    mnr: int,
    ch: int,
    cl: int,
    inten: int,
) -> Seq<Pixel> {
    if steep {
        plot_apply(plot_apply(px, w, h, mnr, maj, ch, inten), w, h, mnr + 1, maj, cl, inten)
    } else {
        plot_apply(plot_apply(px, w, h, maj, mnr, ch, inten), w, h, maj, mnr + 1, cl, inten)
    }
}

/// One endpoint's pair of plots: coverage split between the two adjacent
/// minor-axis pixels by the interpolated fraction, weighted by the
/// endpoint's own gap fraction.
#[verifier::opaque]
pub open spec fn endpoint_apply(
    px: Seq<Pixel>,
    w: int,
    h: int,
    steep: bool,
    xe: int,
    ye: int,
    xg: int,
    inten: int,
) -> Seq<Pixel> {
    let s = SCALE as int;
    let yp = ye / s;
    let cf = ye % s;
    pair_apply(px, w, h, steep, xe, yp, (s - cf) * xg / s, cf * xg / s, inten)
}

/// The interior of the segment: one majority-axis pixel per step,
/// coverage split between the two distinct adjacent minor-axis pixels by
/// the running interpolated fraction.
#[verifier::opaque]
pub open spec fn interior_apply(
    px: Seq<Pixel>,
    w: int,
    h: int,
    steep: bool,
    x: int,
    xe2: int,
    intery: int,
    gneg: bool,
    gmag: int,
    lo: int,
    hi: int,
    inten: int,
) -> Seq<Pixel>
    decreases xe2 - x,
{
    if x >= xe2 {
        px
    } else {
        let s = SCALE as int;
        let yp = intery / s;
        let cf = intery % s;
        let px1 = pair_apply(px, w, h, steep, x, yp, (s - cf) * s / s, cf * s / s, inten);
        interior_apply(
            px1,
            w,
            h,
            steep,
            x + 1,
            xe2,
            advance_spec(intery, gneg, gmag, lo, hi),
            gneg,
            gmag,
            lo,
            hi,
            inten,
        )
    }
}

/// The whole draw on endpoints already normalized into margin
/// coordinates: the two endpoint plot pairs, then the interior steps.
#[verifier::opaque]
pub open spec fn draw_norm_spec(
    px: Seq<Pixel>,
    w: int,
    h: int,
    ax0: int,
    ay0: int,
    ax1: int,
    ay1: int,
    steep: bool,
    inten: int,
) -> Seq<Pixel> {
    let s = SCALE as int;
    let half = HALF as int;
    let dx = ax1 - ax0;
    let gneg = ay1 < ay0;
    let gmag = if dx == 0 {
        s
    } else {
        abs_diff(ay1, ay0) * s / dx
    };
    let xe1 = (ax0 + half) / s;
    let xg1 = s - (ax0 + half) % s;
    let ye1 = interp_spec(ay0, gneg, gmag, xe1 * s, ax0);
    let xe2 = (ax1 + half) / s;
    let xg2 = (ax1 + half) % s;
    let ye2 = interp_spec(ay1, gneg, gmag, xe2 * s, ax1);
    let lo = (if ay0 < ay1 {
        ay0
    } else {
        ay1
    }) - s;
    let hi = (if ay0 < ay1 {
        ay1
    } else {
        ay0
    }) + s;
    let px1 = endpoint_apply(px, w, h, steep, xe1, ye1, xg1, inten);
    let px2 = endpoint_apply(px1, w, h, steep, xe2, ye2, xg2, inten);
    interior_apply(
        px2,
        w,
        h,
        steep,
        xe1 + 1,
        xe2,
        advance_spec(ye1, gneg, gmag, lo, hi),
        gneg,
        gmag,
        lo,
        hi,
        inten,
    )
}

/// The whole draw: what `draw_line` does to the pixels, exactly.
#[verifier::opaque]
pub open spec fn draw_line_spec(
    px: Seq<Pixel>,
    w: int,
    h: int,
    x0: int,
    y0: int,
    x1: int,
    y1: int,
    exposure: int,
) -> Seq<Pixel> {
    let nc = norm_coords(x0, y0, x1, y1);
    draw_norm_spec(
        px,
        w,
        h,
        nc.0,
        nc.1,
        nc.2,
        nc.3,
        norm_steep(x0, y0, x1, y1),
        intensity_spec(x0, y0, x1, y1, exposure),
    )
}

/// Multiplies two fixed-point fractions of at most one; the result is
/// again at most one.
fn cov_mul(a: u64, b: u64) -> (r: u64)
    requires
        a <= SCALE,
        b <= SCALE,
    ensures
        r <= SCALE,
        r == a as int * b as int / SCALE as int,
{
    proof {
        assert(a * b <= SCALE * SCALE) by (nonlinear_arith)
            requires
                a <= SCALE,
                b <= SCALE,
        ;
        lemma_multiply_divide_le((a * b) as int, SCALE as int, SCALE as int);
    }
    a * b / SCALE
}

/// One channel brightened, matching `bright_add`.
fn bright_channel(ch: u8, v: u64, w: u64) -> (r: u8)
    requires
        v <= SCALE,
        w <= 255,
    ensures
        r as int == bright_add(ch as int, v as int, w as int),
{
    proof {
        assert(v * w <= SCALE * 255) by (nonlinear_arith)
            requires
                v <= SCALE,
                w <= 255,
        ;
        lemma_div_is_ordered((v * w + HALF) as int, (SCALE * 255 + HALF) as int, SCALE as int);
        assert((65536int * 255 + 32768) / 65536int == 255int);
    }
    let add: u64 = (v * w + HALF) / SCALE;
    ch.saturating_add(add as u8)
}

/// Brightens the pixel at margin coordinates (xo, yo) by coverage `c` at
/// intensity `intensity`; off-grid coordinates are silently discarded.
fn plot(grid: &mut PixelGrid, xo: u64, yo: u64, c: u64, intensity: u64)
    requires
        old(grid).wf(),
        c <= SCALE,
        intensity <= SCALE,
    ensures
        final(grid).wf(),
        final(grid).width == old(grid).width,
        final(grid).height == old(grid).height,
        final(grid).pixels@.len() == old(grid).pixels@.len(),
        forall|i: int|
            0 <= i < old(grid).pixels@.len() && i != plot_target(
                old(grid).width as int,
                old(grid).height as int,
                xo as int,
                yo as int,
            ) ==> final(grid).pixels@[i] == old(grid).pixels@[i],
        forall|i: int|
            0 <= i < old(grid).pixels@.len() ==> brighter_eq(
                old(grid).pixels@[i],
                #[trigger] final(grid).pixels@[i],
            ),
        ({
            let t = plot_target(
                old(grid).width as int,
                old(grid).height as int,
                xo as int,
                yo as int,
            );
            t >= 0 ==> {
                &&& 0 <= t < old(grid).pixels@.len()
                &&& final(grid).pixels@[t] == brightened(
                    old(grid).pixels@[t],
                    c as int,
                    intensity as int,
                )
            }
        }),
        final(grid).pixels@ == plot_apply(
            old(grid).pixels@,
            old(grid).width as int,
            old(grid).height as int,
            xo as int,
            yo as int,
            c as int,
            intensity as int,
        ),
{
    if xo < OFF || yo < OFF {
        return ;
    }
    let x = xo - OFF;
    let y = yo - OFF;
    if x >= grid.width as u64 || y >= grid.height as u64 {
        return ;
    }
    let xi = x as usize;
    let yi = y as usize;
    proof {
        assert(yi * grid.width + xi < grid.width * grid.height && yi * grid.width + xi
            < 0x4000_0000usize) by (nonlinear_arith)
            requires
                yi < grid.height,
                xi < grid.width,
                grid.width >= 1,
                grid.width <= 32768,
                grid.height <= 32768,
        ;
    }
    let idx: usize = yi * grid.width + xi;
    proof {
        assert(idx as int == grid.width as int * yi as int + xi as int) by (nonlinear_arith)
            requires
                idx == yi * grid.width + xi,
        ;
        lemma_div_mod_unique(idx as int, grid.width as int, yi as int, xi as int);
        assert(idx as int == plot_target(
            grid.width as int,
            grid.height as int,
            xo as int,
            yo as int,
        ));
    }
    let p = grid.pixels[idx];
    proof {
        assert(c * intensity <= SCALE * SCALE) by (nonlinear_arith)
            requires
                c <= SCALE,
                intensity <= SCALE,
        ;
        lemma_multiply_divide_le((c * intensity) as int, SCALE as int, SCALE as int);
    }
    let v0: u64 = c * intensity / SCALE;
    let v: u64 = if v0 > SCALE {
        SCALE
    } else {
        v0
    };
    let q = Pixel {
        r: bright_channel(p.r, v, WEIGHT_R),
        g: bright_channel(p.g, v, WEIGHT_G),
        b: bright_channel(p.b, v, WEIGHT_B),
    };
    grid.pixels.set(idx, q);
    proof {
        assert(v as int * WEIGHT_R as int >= 0 && v as int * WEIGHT_G as int >= 0 && v as int
            * WEIGHT_B as int >= 0) by (nonlinear_arith)
            requires
                v as int >= 0,
        ;
        vstd::arithmetic::div_mod::lemma_div_pos_is_pos(
            (v * WEIGHT_R + HALF) as int,
            SCALE as int,
        );
        vstd::arithmetic::div_mod::lemma_div_pos_is_pos(
            (v * WEIGHT_G + HALF) as int,
            SCALE as int,
        );
        vstd::arithmetic::div_mod::lemma_div_pos_is_pos(
            (v * WEIGHT_B + HALF) as int,
            SCALE as int,
        );
        assert(q == brightened(old(grid).pixels@[idx as int], c as int, intensity as int));
        assert(grid.pixels@ =~= plot_apply(
            old(grid).pixels@,
            old(grid).width as int,
            old(grid).height as int,
            xo as int,
            yo as int,
            c as int,
            intensity as int,
        ));
    }
}

/// A pixel channel that has reached a floor value never drops below it
/// under further brightening.
proof fn lemma_keep_floor(pre: PixelGrid, post: PixelGrid, tidx: int, gfloor: int)
    requires
        0 <= tidx < pre.pixels@.len(),
        post.pixels@.len() == pre.pixels@.len(),
        forall|i: int|
            0 <= i < pre.pixels@.len() ==> brighter_eq(pre.pixels@[i], #[trigger] post.pixels@[i]),
        pre.pixels@[tidx].g as int >= gfloor,
    ensures
        post.pixels@[tidx].g as int >= gfloor,
{
    assert(brighter_eq(pre.pixels@[tidx], post.pixels@[tidx]));
}

/// Carries the two grid invariants over one plot whose position is known
/// to lie inside the segment's widened box: pixels outside the box keep
/// their original value, and no pixel gets darker.
proof fn lemma_plot_step(
    pre: PixelGrid,
    post: PixelGrid,
    orig: PixelGrid,
    xo: int,
    yo: int,
    x0: int,
    y0: int,
    x1: int,
    y1: int,
)
    requires
        orig.wf(),
        pre.width == orig.width,
        pre.height == orig.height,
        pre.pixels@.len() == orig.pixels@.len(),
        post.pixels@.len() == pre.pixels@.len(),
        forall|i: int|
            0 <= i < pre.pixels@.len() && i != plot_target(
                pre.width as int,
                pre.height as int,
                xo,
                yo,
            ) ==> post.pixels@[i] == pre.pixels@[i],
        forall|i: int|
            0 <= i < pre.pixels@.len() ==> brighter_eq(
                pre.pixels@[i],
                #[trigger] post.pixels@[i],
            ),
        near_segment(xo - OFF, yo - OFF, x0, y0, x1, y1),
        forall|i: int|
            0 <= i < orig.pixels@.len() && !near_idx(i, orig.width as int, x0, y0, x1, y1)
                ==> pre.pixels@[i] == orig.pixels@[i],
        forall|i: int|
            0 <= i < orig.pixels@.len() ==> brighter_eq(
                orig.pixels@[i],
                #[trigger] pre.pixels@[i],
            ),
    ensures
        forall|i: int|
            0 <= i < orig.pixels@.len() && !near_idx(i, orig.width as int, x0, y0, x1, y1)
                ==> post.pixels@[i] == orig.pixels@[i],
        forall|i: int|
            0 <= i < orig.pixels@.len() ==> brighter_eq(
                orig.pixels@[i],
                #[trigger] post.pixels@[i],
            ),
{
    let w = orig.width as int;
    let t = plot_target(pre.width as int, pre.height as int, xo, yo);
    assert forall|i: int|
        0 <= i < orig.pixels@.len() && !near_idx(i, w, x0, y0, x1, y1)
        implies post.pixels@[i] == orig.pixels@[i] by {
        if i == t {
            assert(t >= 0);
            assert(t == (yo - OFF) * w + (xo - OFF));
            assert(t == w * (yo - OFF) + (xo - OFF)) by (nonlinear_arith)
                requires
                    t == (yo - OFF) * w + (xo - OFF),
            ;
            lemma_div_mod_unique(t, w, yo - OFF, xo - OFF);
            assert(near_idx(i, w, x0, y0, x1, y1));
        }
    }
    assert forall|i: int| 0 <= i < orig.pixels@.len() implies brighter_eq(
        orig.pixels@[i],
        #[trigger] post.pixels@[i],
    ) by {
        assert(brighter_eq(orig.pixels@[i], pre.pixels@[i]));
        assert(brighter_eq(pre.pixels@[i], post.pixels@[i]));
    }
}

/// A plot whose majority coordinate lies within one pixel of the ordered
/// majority span and whose minor coordinate lies within two pixels of the
/// minor span lands inside the segment's widened box.
proof fn lemma_coords_near(
    steep: bool,
    x0: int,
    y0: int,
    x1: int,
    y1: int,
    amin: int,
    amax: int,
    bmin: int,
    bmax: int,
    maj: int,
    mnr: int,
)
    requires
        0 <= x0 && 0 <= y0 && 0 <= x1 && 0 <= y1,
        amin <= amax,
        bmin <= bmax,
        (if steep {
            (amin == y0 + OFFQ && amax == y1 + OFFQ) || (amin == y1 + OFFQ && amax == y0 + OFFQ)
        } else {
            (amin == x0 + OFFQ && amax == x1 + OFFQ) || (amin == x1 + OFFQ && amax == x0 + OFFQ)
        }),
        (if steep {
            (bmin == x0 + OFFQ && bmax == x1 + OFFQ) || (bmin == x1 + OFFQ && bmax == x0 + OFFQ)
        } else {
            (bmin == y0 + OFFQ && bmax == y1 + OFFQ) || (bmin == y1 + OFFQ && bmax == y0 + OFFQ)
        }),
        amin / SCALE as int - 1 <= maj <= amax / SCALE as int + 2,
        bmin / SCALE as int - 1 <= mnr <= bmax / SCALE as int + 2,
    ensures
        steep ==> near_segment(mnr - OFF, maj - OFF, x0, y0, x1, y1),
        !steep ==> near_segment(maj - OFF, mnr - OFF, x0, y0, x1, y1),
{
    lemma_off_div(x0);
    lemma_off_div(y0);
    lemma_off_div(x1);
    lemma_off_div(y1);
}

/// The rounded majority coordinate and the interpolated minor pixel of an
/// endpoint lie inside the widened segment box.
proof fn lemma_plot_bounds(
    a: int,
    b: int,
    amin: int,
    amax: int,
    bmin: int,
    bmax: int,
    xe: int,
    ye: int,
)
    requires
        amin <= a <= amax,
        bmin <= b <= bmax,
        OFFQ <= amin,
        OFFQ <= bmin,
        amax <= MAX_COORD + OFFQ,
        bmax <= MAX_COORD + OFFQ,
        xe == (a + HALF) / SCALE as int,
        b - HALF <= ye <= b + HALF,
    ensures
        amin / SCALE as int <= xe <= amax / SCALE as int + 1,
        bmin / SCALE as int - 1 <= ye / SCALE as int <= bmax / SCALE as int + 1,
{
    let s = SCALE as int;
    lemma_div_is_ordered(amin, a + HALF as int, s);
    lemma_div_is_ordered(a + HALF as int, amax + s, s);
    lemma_div_plus_one(amax, s);
    lemma_div_is_ordered(bmin - s, ye, s);
    lemma_div_is_ordered(ye, bmax + s, s);
    lemma_div_plus_one(bmax, s);
    lemma_div_plus_one(bmin - s, s);
}

/// The interior interpolator's pixel lies inside the widened segment box.
proof fn lemma_interior_bounds(v: int, lo: int, hi: int, bmin: int, bmax: int, ypf: int)
    requires
        lo <= v <= hi,
        lo == bmin - SCALE as int,
        hi == bmax + SCALE as int,
        SCALE as int <= lo <= hi,
        ypf == v / SCALE as int,
    ensures
        bmin / SCALE as int - 1 <= ypf <= bmax / SCALE as int + 1,
{
    let s = SCALE as int;
    lemma_div_is_ordered(bmin - s, v, s);
    lemma_div_is_ordered(v, bmax + s, s);
    lemma_div_plus_one(bmax, s);
    lemma_div_plus_one(bmin - s, s);
}

/// Removing the four-pixel margin commutes with rounding down to pixels.
proof fn lemma_off_div(a: int)
    requires
        a >= 0,
    ensures
        (a + OFFQ) / SCALE as int == a / SCALE as int + 4,
{
    let s = SCALE as int;
    lemma_div_plus_one(a, s);
    lemma_div_plus_one(a + s, s);
    lemma_div_plus_one(a + 2 * s, s);
    lemma_div_plus_one(a + 3 * s, s);
}

/// Interpolates the minor axis at a rounded majority coordinate: `y`
/// adjusted by the gradient times the (at most half-pixel) rounding
/// offset.
fn interp(y: u64, gneg: bool, gmag: u64, xr: u64, x: u64) -> (r: u64)
    requires
        gmag <= SCALE,
        y >= 2 * SCALE,
        y <= MAX_COORD + OFFQ,
        xr <= x + HALF,
        x <= xr + HALF,
    ensures
        y - HALF <= r <= y + HALF,
        xr == x ==> r == y,
        r as int == interp_spec(y as int, gneg, gmag as int, xr as int, x as int),
{
    let (dneg, dm) = if xr >= x {
        (false, xr - x)
    } else {
        (true, x - xr)
    };
    proof {
        assert(gmag * dm <= SCALE * HALF) by (nonlinear_arith)
            requires
                gmag <= SCALE,
                dm <= HALF,
        ;
        lemma_multiply_divide_le((gmag * dm) as int, SCALE as int, HALF as int);
        if dm == 0 {
            assert(gmag * dm == 0) by (nonlinear_arith)
                requires
                    dm == 0,
            ;
        }
    }
    let adj = gmag * dm / SCALE;
    if gneg == dneg {
        y + adj
    } else {
        y - adj
    }
}

/// One step of the minor-axis interpolator, kept inside the segment's
/// minor-axis span widened by one pixel; mathematically the interpolator
/// never leaves that span, and the clamp makes the bound explicit.
fn advance(v: u64, gneg: bool, gmag: u64, lo: u64, hi: u64) -> (r: u64)
    requires
        gmag <= SCALE,
        SCALE <= lo <= hi,
        hi <= MAX_COORD + OFFQ + SCALE,
        lo <= v <= hi,
    ensures
        lo <= r <= hi,
        r as int == advance_spec(v as int, gneg, gmag as int, lo as int, hi as int),
{
    let t = if gneg {
        v - gmag
    } else {
        v + gmag
    };
    if t < lo {
        lo
    } else if t > hi {
        hi
    } else {
        t
    }
}

/// A plot at coverage or intensity zero adds zero to every channel and
/// leaves the pixels untouched.
proof fn lemma_plot_apply_zero(px: Seq<Pixel>, w: int, h: int, xo: int, yo: int, c: int)
    ensures
        plot_apply(px, w, h, xo, yo, c, 0) == px,
{
    let t = plot_target(w, h, xo, yo);
    if 0 <= t < px.len() {
        assert(c * 0 == 0) by (nonlinear_arith);
        assert(0int / SCALE as int == 0int);
        assert(brightened(px[t], c, 0) == px[t]);
        assert(px.update(t, px[t]) =~= px);
    }
}

/// The interior pass at intensity zero leaves the pixels untouched.
proof fn lemma_interior_zero(
    px: Seq<Pixel>,
    w: int,
    h: int,
    steep: bool,
    x: int,
    xe2: int,
    intery: int,
    gneg: bool,
    gmag: int,
    lo: int,
    hi: int,
)
    ensures
        interior_apply(px, w, h, steep, x, xe2, intery, gneg, gmag, lo, hi, 0) == px,
    decreases xe2 - x,
{
    reveal_with_fuel(interior_apply, 2);
    if x < xe2 {
        let s = SCALE as int;
        let yp = intery / s;
        if steep {
            lemma_plot_apply_zero(px, w, h, yp, x, (s - intery % s) * s / s);
            lemma_plot_apply_zero(px, w, h, yp + 1, x, (intery % s) * s / s);
        } else {
            lemma_plot_apply_zero(px, w, h, x, yp, (s - intery % s) * s / s);
            lemma_plot_apply_zero(px, w, h, x, yp + 1, (intery % s) * s / s);
        }
        lemma_interior_zero(
            px,
            w,
            h,
            steep,
            x + 1,
            xe2,
            advance_spec(intery, gneg, gmag, lo, hi),
            gneg,
            gmag,
            lo,
            hi,
        );
    }
}

/// Law: at exposure zero the intensity is zero, every channel increment
/// rounds to zero, and the draw leaves the image bit-for-bit unchanged.
pub proof fn lemma_draw_zero_exposure(
    px: Seq<Pixel>,
    w: int,
    h: int,
    x0: int,
    y0: int,
    x1: int,
    y1: int,
)
    ensures
        draw_line_spec(px, w, h, x0, y0, x1, y1, 0) == px,
{
    reveal(draw_line_spec);
    reveal(draw_norm_spec);
    reveal(endpoint_apply);
    let dxm = abs_diff(x1, x0);
    let dym = abs_diff(y1, y0);
    let seg = sqrt_floor((dxm * dxm + dym * dym) as nat) as int;
    let denom = if seg < SCALE as int {
        SCALE as int
    } else {
        seg
    };
    vstd::arithmetic::div_mod::lemma_div_of0(denom);
    assert(intensity_spec(x0, y0, x1, y1, 0) == 0);
    let nc = norm_coords(x0, y0, x1, y1);
    let steep = norm_steep(x0, y0, x1, y1);
    let s = SCALE as int;
    let half = HALF as int;
    let (ax0, ay0, ax1, ay1) = nc;
    let dx = ax1 - ax0;
    let gneg = ay1 < ay0;
    let gmag = if dx == 0 {
        s
    } else {
        abs_diff(ay1, ay0) * s / dx
    };
    let xe1 = (ax0 + half) / s;
    let xg1 = s - (ax0 + half) % s;
    let ye1 = interp_spec(ay0, gneg, gmag, xe1 * s, ax0);
    let xe2 = (ax1 + half) / s;
    let xg2 = (ax1 + half) % s;
    let ye2 = interp_spec(ay1, gneg, gmag, xe2 * s, ax1);
    if steep {
        lemma_plot_apply_zero(px, w, h, ye1 / s, xe1, (s - ye1 % s) * xg1 / s);
        lemma_plot_apply_zero(px, w, h, ye1 / s + 1, xe1, (ye1 % s) * xg1 / s);
        lemma_plot_apply_zero(px, w, h, ye2 / s, xe2, (s - ye2 % s) * xg2 / s);
        lemma_plot_apply_zero(px, w, h, ye2 / s + 1, xe2, (ye2 % s) * xg2 / s);
    } else {
        lemma_plot_apply_zero(px, w, h, xe1, ye1 / s, (s - ye1 % s) * xg1 / s);
        lemma_plot_apply_zero(px, w, h, xe1, ye1 / s + 1, (ye1 % s) * xg1 / s);
        lemma_plot_apply_zero(px, w, h, xe2, ye2 / s, (s - ye2 % s) * xg2 / s);
        lemma_plot_apply_zero(px, w, h, xe2, ye2 / s + 1, (ye2 % s) * xg2 / s);
    }
    let lo = (if ay0 < ay1 {
        ay0
    } else {
        ay1
    }) - s;
    let hi = (if ay0 < ay1 {
        ay1
    } else {
        ay0
    }) + s;
    lemma_interior_zero(
        px,
        w,
        h,
        steep,
        xe1 + 1,
        xe2,
        advance_spec(ye1, gneg, gmag, lo, hi),
        gneg,
        gmag,
        lo,
        hi,
    );
}

/// Law: the draw does not depend on the order of its endpoints: the axes
/// are classified and the endpoints ordered along the majority axis
/// before anything is plotted, and each endpoint carries its own gap
/// fraction, so swapping the endpoints gives the identical image.
pub proof fn lemma_draw_endpoint_symmetry(
    px: Seq<Pixel>,
    w: int,
    h: int,
    x0: int,
    y0: int,
    x1: int,
    y1: int,
    exposure: int,
)
    ensures
        draw_line_spec(px, w, h, x0, y0, x1, y1, exposure) == draw_line_spec(
            px,
            w,
            h,
            x1,
            y1,
            x0,
            y0,
            exposure,
        ),
{
    reveal(draw_line_spec);
    assert(intensity_spec(x0, y0, x1, y1, exposure) == intensity_spec(
        x1,
        y1,
        x0,
        y0,
        exposure,
    ));
    assert(norm_steep(x0, y0, x1, y1) == norm_steep(x1, y1, x0, y0));
    assert(norm_coords(x0, y0, x1, y1) == norm_coords(x1, y1, x0, y0));
}

/// The two plots of one majority-axis position, carried out with the
/// segment-box bookkeeping: both land inside the widened box given by
/// `coords`, so pixels outside it keep the value they have in `base`, and
/// nothing gets darker.
fn plot_pair(
    grid: &mut PixelGrid,
    steep: bool,
    maj: u64,
    mnr: u64,
    ch: u64,
    cl: u64,
    inten: u64,
    Ghost(coords): Ghost<(int, int, int, int)>,
    Ghost(base): Ghost<PixelGrid>,
)
    requires
        old(grid).wf(),
        ch <= SCALE,
        cl <= SCALE,
        inten <= SCALE,
        mnr < 0xFFFF_FFFF_FFFF_FFFFu64,
        base.wf(),
        old(grid).width == base.width,
        old(grid).height == base.height,
        old(grid).pixels@.len() == base.pixels@.len(),
        (if steep {
            near_segment(mnr as int - OFF, maj as int - OFF, coords.0, coords.1, coords.2,
                coords.3)
        } else {
            near_segment(maj as int - OFF, mnr as int - OFF, coords.0, coords.1, coords.2,
                coords.3)
        }),
        (if steep {
            near_segment(mnr as int + 1 - OFF, maj as int - OFF, coords.0, coords.1, coords.2,
                coords.3)
        } else {
            near_segment(maj as int - OFF, mnr as int + 1 - OFF, coords.0, coords.1, coords.2,
                coords.3)
        }),
        forall|i: int|
            0 <= i < base.pixels@.len() && !near_idx(i, base.width as int, coords.0, coords.1,
                coords.2, coords.3) ==> old(grid).pixels@[i] == base.pixels@[i],
        forall|i: int|
            0 <= i < base.pixels@.len() ==> brighter_eq(
                base.pixels@[i],
                #[trigger] old(grid).pixels@[i],
            ),
    ensures
        final(grid).wf(),
        final(grid).width == old(grid).width,
        final(grid).height == old(grid).height,
        final(grid).pixels@.len() == old(grid).pixels@.len(),
        final(grid).pixels@ == pair_apply(
            old(grid).pixels@,
            old(grid).width as int,
            old(grid).height as int,
            steep,
            maj as int,
            mnr as int,
            ch as int,
            cl as int,
            inten as int,
        ),
        forall|i: int|
            0 <= i < base.pixels@.len() && !near_idx(i, base.width as int, coords.0, coords.1,
                coords.2, coords.3) ==> final(grid).pixels@[i] == base.pixels@[i],
        forall|i: int|
            0 <= i < base.pixels@.len() ==> brighter_eq(
                base.pixels@[i],
                #[trigger] final(grid).pixels@[i],
            ),
        forall|i: int|
            0 <= i < old(grid).pixels@.len() ==> brighter_eq(
                old(grid).pixels@[i],
                #[trigger] final(grid).pixels@[i],
            ),
{
    let ghost pre = *grid;
    if steep {
        plot(grid, mnr, maj, ch, inten);
        proof {
            lemma_plot_step(pre, *grid, base, mnr as int, maj as int, coords.0, coords.1,
                coords.2, coords.3);
        }
        let ghost mid = *grid;
        plot(grid, mnr + 1, maj, cl, inten);
        proof {
            lemma_plot_step(mid, *grid, base, mnr as int + 1, maj as int, coords.0, coords.1,
                coords.2, coords.3);
            lemma_brighter_chain(pre, mid, *grid);
        }
    } else {
        plot(grid, maj, mnr, ch, inten);
        proof {
            lemma_plot_step(pre, *grid, base, maj as int, mnr as int, coords.0, coords.1,
                coords.2, coords.3);
        }
        let ghost mid = *grid;
        plot(grid, maj, mnr + 1, cl, inten);
        proof {
            lemma_plot_step(mid, *grid, base, maj as int, mnr as int + 1, coords.0, coords.1,
                coords.2, coords.3);
            lemma_brighter_chain(pre, mid, *grid);
        }
    }
}

/// Brightening twice still only brightens.
proof fn lemma_brighter_chain(pre: PixelGrid, mid: PixelGrid, post: PixelGrid)
    requires
        pre.pixels@.len() == mid.pixels@.len(),
        mid.pixels@.len() == post.pixels@.len(),
        forall|i: int|
            0 <= i < pre.pixels@.len() ==> brighter_eq(pre.pixels@[i], #[trigger] mid.pixels@[i]),
        forall|i: int|
            0 <= i < mid.pixels@.len() ==> brighter_eq(mid.pixels@[i], #[trigger] post.pixels@[i]),
    ensures
        forall|i: int|
            0 <= i < pre.pixels@.len() ==> brighter_eq(pre.pixels@[i], #[trigger] post.pixels@[i]),
{
    assert forall|i: int| 0 <= i < pre.pixels@.len() implies brighter_eq(
        pre.pixels@[i],
        #[trigger] post.pixels@[i],
    ) by {
        assert(brighter_eq(pre.pixels@[i], mid.pixels@[i]));
        assert(brighter_eq(mid.pixels@[i], post.pixels@[i]));
    }
}

/// Draws the anti-aliased segment from (x0, y0) to (x1, y1), both in
/// fixed-point pixel coordinates, into the grid. Coverage is further
/// scaled by `min(1, exposure / max(1, segment length))`, so short
/// segments are brighter per pixel and long ones are capped. Every pixel
/// can only get brighter, and no pixel outside the segment's immediate
/// neighbourhood changes at all; in particular a zero-length segment
/// touches at most the few pixels around its point.
#[verifier::rlimit(100)]
#[verifier::spinoff_prover]
pub fn draw_line(grid: &mut PixelGrid, x0: u64, y0: u64, x1: u64, y1: u64, exposure: u64)
    requires
        old(grid).wf(),
        x0 <= MAX_COORD,
        y0 <= MAX_COORD,
        x1 <= MAX_COORD,
        y1 <= MAX_COORD,
        exposure <= 100 * SCALE,
    ensures
        final(grid).wf(),
        final(grid).width == old(grid).width,
        final(grid).height == old(grid).height,
        final(grid).pixels@.len() == old(grid).pixels@.len(),
        forall|i: int|
            0 <= i < old(grid).pixels@.len() ==> brighter_eq(
                old(grid).pixels@[i],
                #[trigger] final(grid).pixels@[i],
            ),
        forall|i: int|
            0 <= i < old(grid).pixels@.len() && !near_idx(
                i,
                old(grid).width as int,
                x0 as int,
                y0 as int,
                x1 as int,
                y1 as int,
            ) ==> final(grid).pixels@[i] == old(grid).pixels@[i],
        // a stationary beam at a pixel centre, at full exposure, visibly
        // brightens that pixel's dominant channel
        ({
            let s = SCALE as int;
            (x0 == x1 && y0 == y1 && x0 as int % s == 0 && y0 as int % s == 0 && exposure >= SCALE
                && x0 as int / s < old(grid).width && y0 as int / s < old(grid).height) ==> ({
                let t = (y0 as int / s) * old(grid).width as int + (x0 as int / s);
                final(grid).pixels@[t].g as int >= bright_add(
                    old(grid).pixels@[t].g as int,
                    HALF as int,
                    255,
                )
            })
        }),
        final(grid).pixels@ == draw_line_spec(
            old(grid).pixels@,
            old(grid).width as int,
            old(grid).height as int,
            x0 as int,
            y0 as int,
            x1 as int,
            y1 as int,
            exposure as int,
        ),
{
    let ghost orig = *grid;
    let ghost orig = *grid;
    let ghost s_g: int = SCALE as int;
    let ghost degen: bool = x0 == x1 && y0 == y1 && x0 as int % s_g == 0 && y0 as int % s_g == 0
        && exposure >= SCALE && x0 as int / s_g < orig.width && y0 as int / s_g < orig.height;
    let ghost tidx: int = (y0 as int / s_g) * orig.width as int + (x0 as int / s_g);
    let ghost gfloor: int = if degen {
        bright_add(orig.pixels@[tidx].g as int, HALF as int, 255)
    } else {
        0
    };
    // intensity = min(1, exposure / max(1, length))
    let dxm = if x1 >= x0 {
        x1 - x0
    } else {
        x0 - x1
    };
    let dym = if y1 >= y0 {
        y1 - y0
    } else {
        y0 - y1
    };
    proof {
        assert(dxm * dxm <= MAX_COORD * MAX_COORD && dym * dym <= MAX_COORD * MAX_COORD)
            by (nonlinear_arith)
            requires
                dxm <= MAX_COORD,
                dym <= MAX_COORD,
        ;
    }
    let seg = isqrt64(dxm * dxm + dym * dym);
    let denom = if seg < SCALE {
        SCALE
    } else {
        seg
    };
    let qi = exposure * SCALE / denom;
    let intensity = if qi > SCALE {
        SCALE
    } else {
        qi
    };
    proof {
        lemma_sqrt_floor_unique((dxm * dxm + dym * dym) as nat, seg as nat);
        assert(intensity as int == intensity_spec(
            x0 as int,
            y0 as int,
            x1 as int,
            y1 as int,
            exposure as int,
        ));
    }
    // steep segments swap the axes so the majority step is one pixel
    let steep = dym > dxm;
    let (mut ax0, mut ay0, mut ax1, mut ay1) = if steep {
        (y0 + OFFQ, x0 + OFFQ, y1 + OFFQ, x1 + OFFQ)
    } else {
        (x0 + OFFQ, y0 + OFFQ, x1 + OFFQ, y1 + OFFQ)
    };
    if ax0 > ax1 {
        let tx = ax0;
        ax0 = ax1;
        ax1 = tx;
        let ty = ay0;
        ay0 = ay1;
        ay1 = ty;
    }
    proof {
        assert(steep == norm_steep(x0 as int, y0 as int, x1 as int, y1 as int));
        assert(norm_coords(x0 as int, y0 as int, x1 as int, y1 as int) == (
            ax0 as int,
            ay0 as int,
            ax1 as int,
            ay1 as int,
        ));
    }
    let ghost bmin: int = if ay0 < ay1 {
        ay0 as int
    } else {
        ay1 as int
    };
    let ghost bmax: int = if ay0 < ay1 {
        ay1 as int
    } else {
        ay0 as int
    };
    let ghost crd: (int, int, int, int) = (x0 as int, y0 as int, x1 as int, y1 as int);
    let dx = ax1 - ax0;
    let (gneg, dmin) = if ay1 >= ay0 {
        (false, ay1 - ay0)
    } else {
        (true, ay0 - ay1)
    };
    proof {
        assert(dmin <= dx);
    }
    let gmag = if dx == 0 {
        SCALE
    } else {
        proof {
            assert(dmin * SCALE <= dx * SCALE) by (nonlinear_arith)
                requires
                    dmin <= dx,
            ;
            lemma_multiply_divide_le((dmin * SCALE) as int, dx as int, SCALE as int);
        }
        dmin * SCALE / dx
    };
    // first endpoint
    let xe1 = (ax0 + HALF) / SCALE;
    let xg1 = SCALE - (ax0 + HALF) % SCALE;
    proof {
        lemma_fundamental_div_mod((ax0 + HALF) as int, SCALE as int);
        lemma_mod_division_less_than_divisor((ax0 + HALF) as int, SCALE as int);
        lemma_div_is_ordered((ax0 + HALF) as int, (MAX_COORD + OFFQ + HALF) as int, SCALE as int);
    }
    let xr1 = xe1 * SCALE;
    let ye1 = interp(ay0, gneg, gmag, xr1, ax0);
    let yp1 = ye1 / SCALE;
    let cf1 = ye1 % SCALE;
    proof {
        lemma_mod_division_less_than_divisor(ye1 as int, SCALE as int);
        lemma_plot_bounds(ax0 as int, ay0 as int, ax0 as int, ax1 as int, bmin, bmax, xe1 as int,
            ye1 as int);
        lemma_coords_near(steep, x0 as int, y0 as int, x1 as int, y1 as int, ax0 as int,
            ax1 as int, bmin, bmax, xe1 as int, yp1 as int);
        lemma_coords_near(steep, x0 as int, y0 as int, x1 as int, y1 as int, ax0 as int,
            ax1 as int, bmin, bmax, xe1 as int, yp1 as int + 1);
    }
    let ch1 = cov_mul(SCALE - cf1, xg1);
    let cl1 = cov_mul(cf1, xg1);
    plot_pair(grid, steep, xe1, yp1, ch1, cl1, intensity, Ghost(crd), Ghost(orig));
    proof {
        assert(grid.pixels@ == endpoint_apply(orig.pixels@, orig.width as int, orig.height as int,
            steep, xe1 as int, ye1 as int, xg1 as int, intensity as int)) by {
            reveal(endpoint_apply);
        }
        if degen {
            // a stationary beam at a pixel centre: the first endpoint
            // plot lands exactly on that pixel with coverage one half
            // at full intensity
            assert(dxm == 0 && dym == 0);
            assert(dxm * dxm == 0 && dym * dym == 0) by (nonlinear_arith)
                requires
                    dxm == 0,
                    dym == 0,
            ;
            assert(seg == 0) by (nonlinear_arith)
                requires
                    seg * seg <= 0,
            ;
            lemma_div_multiples_vanish(exposure as int, s_g);
            assert(qi == exposure);
            assert(intensity == SCALE);
            let q0 = x0 as int / s_g;
            let p0 = y0 as int / s_g;
            lemma_fundamental_div_mod(x0 as int, s_g);
            lemma_fundamental_div_mod(y0 as int, s_g);
            assert(ax0 as int == s_g * (q0 + 4) && ay0 as int == s_g * (p0 + 4));
            lemma_div_mod_unique(ax0 as int + HALF as int, s_g, q0 + 4, HALF as int);
            assert(xe1 as int == q0 + 4 && xg1 == HALF);
            assert(xr1 as int == ax0 as int);
            assert(ye1 == ay0);
            lemma_div_mod_unique(ay0 as int, s_g, p0 + 4, 0);
            assert(yp1 as int == p0 + 4 && cf1 == 0);
            lemma_div_multiples_vanish(HALF as int, s_g);
            assert(ch1 == HALF);
            assert(plot_target(orig.width as int, orig.height as int, xe1 as int, yp1 as int)
                == tidx);
            assert(0 <= tidx < orig.width * orig.height) by (nonlinear_arith)
                requires
                    tidx == p0 * orig.width as int + q0,
                    0 <= q0 < orig.width,
                    0 <= p0 < orig.height,
                    orig.width >= 1,
            ;
            assert((p0 + 1) * orig.width as int + q0 != tidx) by (nonlinear_arith)
                requires
                    tidx == p0 * orig.width as int + q0,
                    orig.width >= 1,
            ;
            assert(grid.pixels@[tidx] == brightened(
                orig.pixels@[tidx],
                ch1 as int,
                intensity as int,
            ));
            assert(grid.pixels@[tidx].g as int == gfloor);
        }
    }
    // second endpoint
    let xe2 = (ax1 + HALF) / SCALE;
    let xg2 = (ax1 + HALF) % SCALE;
    proof {
        lemma_fundamental_div_mod((ax1 + HALF) as int, SCALE as int);
        lemma_mod_division_less_than_divisor((ax1 + HALF) as int, SCALE as int);
        lemma_div_is_ordered((ax1 + HALF) as int, (MAX_COORD + OFFQ + HALF) as int, SCALE as int);
    }
    let xr2 = xe2 * SCALE;
    let ye2 = interp(ay1, gneg, gmag, xr2, ax1);
    let yp2 = ye2 / SCALE;
    let cf2 = ye2 % SCALE;
    proof {
        lemma_mod_division_less_than_divisor(ye2 as int, SCALE as int);
        lemma_plot_bounds(ax1 as int, ay1 as int, ax0 as int, ax1 as int, bmin, bmax, xe2 as int,
            ye2 as int);
        lemma_coords_near(steep, x0 as int, y0 as int, x1 as int, y1 as int, ax0 as int,
            ax1 as int, bmin, bmax, xe2 as int, yp2 as int);
        lemma_coords_near(steep, x0 as int, y0 as int, x1 as int, y1 as int, ax0 as int,
            ax1 as int, bmin, bmax, xe2 as int, yp2 as int + 1);
    }
    let ch2 = cov_mul(SCALE - cf2, xg2);
    let cl2 = cov_mul(cf2, xg2);
    let ghost g2 = *grid;
    plot_pair(grid, steep, xe2, yp2, ch2, cl2, intensity, Ghost(crd), Ghost(orig));
    proof {
        assert(grid.pixels@ == endpoint_apply(g2.pixels@, orig.width as int, orig.height as int,
            steep, xe2 as int, ye2 as int, xg2 as int, intensity as int)) by {
            reveal(endpoint_apply);
        }
        if degen {
            lemma_keep_floor(g2, *grid, tidx, gfloor);
        }
    }
    // interior: one majority-axis pixel at a time, splitting coverage
    // between the two distinct minor-axis neighbours
    let lo = (if ay0 < ay1 {
        ay0
    } else {
        ay1
    }) - SCALE;
    let hi = (if ay0 < ay1 {
        ay1
    } else {
        ay0
    }) + SCALE;
    let mut intery = advance(ye1, gneg, gmag, lo, hi);
    let ghost final_px = interior_apply(
        grid.pixels@,
        orig.width as int,
        orig.height as int,
        steep,
        xe1 as int + 1,
        xe2 as int,
        intery as int,
        gneg,
        gmag as int,
        lo as int,
        hi as int,
        intensity as int,
    );
    let mut x = xe1 + 1;
    while x < xe2
        invariant
            interior_apply(
                grid.pixels@,
                orig.width as int,
                orig.height as int,
                steep,
                x as int,
                xe2 as int,
                intery as int,
                gneg,
                gmag as int,
                lo as int,
                hi as int,
                intensity as int,
            ) == final_px,
            degen ==> (0 <= tidx < orig.pixels@.len() && grid.pixels@[tidx].g as int >= gfloor),
            grid.wf(),
            grid.width == orig.width,
            grid.height == orig.height,
            grid.pixels@.len() == orig.pixels@.len(),
            orig.wf(),
            forall|i: int|
                0 <= i < orig.pixels@.len() ==> brighter_eq(
                    orig.pixels@[i],
                    #[trigger] grid.pixels@[i],
                ),
            forall|i: int|
                0 <= i < orig.pixels@.len() && !near_idx(
                    i,
                    orig.width as int,
                    x0 as int,
                    y0 as int,
                    x1 as int,
                    y1 as int,
                ) ==> grid.pixels@[i] == orig.pixels@[i],
            gmag <= SCALE,
            SCALE <= lo <= hi,
            hi <= MAX_COORD + OFFQ + SCALE,
            lo <= intery <= hi,
            lo == bmin - SCALE,
            hi == bmax + SCALE,
            xe1 < x,
            ax0 as int / SCALE as int <= xe1,
            xe2 <= ax1 as int / SCALE as int + 1,
            intensity <= SCALE,
            x0 <= MAX_COORD && y0 <= MAX_COORD && x1 <= MAX_COORD && y1 <= MAX_COORD,
            OFFQ <= ax0 <= ax1,
            ax1 <= MAX_COORD + OFFQ,
            bmin <= bmax,
            OFFQ <= bmin,
            bmax <= MAX_COORD + OFFQ,
            crd == (x0 as int, y0 as int, x1 as int, y1 as int),
            (if steep {
                (ax0 as int == y0 + OFFQ && ax1 as int == y1 + OFFQ) || (ax0 as int == y1 + OFFQ
                    && ax1 as int == y0 + OFFQ)
            } else {
                (ax0 as int == x0 + OFFQ && ax1 as int == x1 + OFFQ) || (ax0 as int == x1 + OFFQ
                    && ax1 as int == x0 + OFFQ)
            }),
            (if steep {
                (bmin == x0 + OFFQ && bmax == x1 + OFFQ) || (bmin == x1 + OFFQ && bmax == x0
                    + OFFQ)
            } else {
                (bmin == y0 + OFFQ && bmax == y1 + OFFQ) || (bmin == y1 + OFFQ && bmax == y0
                    + OFFQ)
            }),
        decreases xe2 - x,
    {
        let ypf = intery / SCALE;
        let cff = intery % SCALE;
        proof {
            lemma_mod_division_less_than_divisor(intery as int, SCALE as int);
            lemma_interior_bounds(intery as int, lo as int, hi as int, bmin, bmax, ypf as int);
            lemma_coords_near(steep, x0 as int, y0 as int, x1 as int, y1 as int, ax0 as int,
                ax1 as int, bmin, bmax, x as int, ypf as int);
            lemma_coords_near(steep, x0 as int, y0 as int, x1 as int, y1 as int, ax0 as int,
                ax1 as int, bmin, bmax, x as int, ypf as int + 1);
        }
        let chh = cov_mul(SCALE - cff, SCALE);
        let cll = cov_mul(cff, SCALE);
        let ghost gp = *grid;
        let ghost iv: int = intery as int;
        plot_pair(grid, steep, x, ypf, chh, cll, intensity, Ghost(crd), Ghost(orig));
        proof {
            if degen {
                lemma_keep_floor(gp, *grid, tidx, gfloor);
            }
        }
        intery = advance(intery, gneg, gmag, lo, hi);
        proof {
            assert(interior_apply(gp.pixels@, orig.width as int, orig.height as int, steep,
                x as int, xe2 as int, iv, gneg, gmag as int, lo as int, hi as int,
                intensity as int) == interior_apply(grid.pixels@, orig.width as int,
                orig.height as int, steep, x as int + 1, xe2 as int, intery as int, gneg,
                gmag as int, lo as int, hi as int, intensity as int)) by {
                reveal_with_fuel(interior_apply, 2);
            }
        }
        x = x + 1;
    }
    proof {
        assert(interior_apply(grid.pixels@, orig.width as int, orig.height as int, steep,
            x as int, xe2 as int, intery as int, gneg, gmag as int, lo as int, hi as int,
            intensity as int) == grid.pixels@) by {
            reveal_with_fuel(interior_apply, 2);
        }
        assert(grid.pixels@ == draw_norm_spec(orig.pixels@, orig.width as int,
            orig.height as int, ax0 as int, ay0 as int, ax1 as int, ay1 as int, steep,
            intensity as int)) by {
            reveal(draw_norm_spec);
        }
        assert(grid.pixels@ == draw_line_spec(orig.pixels@, orig.width as int,
            orig.height as int, x0 as int, y0 as int, x1 as int, y1 as int, exposure as int))
            by {
            reveal(draw_line_spec);
        }
    }
}

} // verus!
