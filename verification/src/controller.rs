//! One render pass: decay the framebuffer exactly once, drain every
//! frame the channel currently holds, transform each sample, and draw the
//! connecting segments, carrying the last transformed sample into the
//! next pass so the trace stays continuous.

use vstd::prelude::*;
use crate::grid::{Pixel, PixelGrid, decay_pixel};
use crate::raster::{MAX_COORD, brighter_eq, draw_line, draw_line_spec};
use crate::ring::{RingChannel, RingReader};
use crate::transform::{RenderState, map_sample, map_spec};
use crate::fixed::SCALE;
use vstd::arithmetic::div_mod::{lemma_div_is_ordered, lemma_div_multiples_vanish};

verus! {

/// Where a signal coordinate lands on an axis of `dim` pixels, fixed
/// point: scaled by the gain, centred, clamped to the axis and stretched
/// to its pixel size. `dir` is 1 on the x axis and -1 on the inverted y
/// axis.
pub open spec fn to_axis_spec(gain: int, v: int, dim: int, dir: int) -> int {
    let t = 0x1_0000_0000 + dir * (gain * v);
    let c = if t < 0 {
        0
    } else if t > 0x2_0000_0000 {
        0x2_0000_0000
    } else {
        t
    };
    c * dim / 131072
}

/// The whole grid after one decay step.
pub open spec fn decayed_spec(px: Seq<Pixel>, rate: int) -> Seq<Pixel> {
    Seq::new(px.len(), |i: int| decay_pixel(px[i], rate))
}

/// One drained sample: the transformed point, and the segment drawn from
/// the previously transformed point to it.
pub open spec fn draw_sample_step(
    px: Seq<Pixel>,
    w: int,
    h: int,
    st: RenderState,
    prev: (int, int),
    s: (int, int),
) -> (Seq<Pixel>, (int, int)) {
    let cur = map_spec(s.0, s.1, st);
    let x0 = to_axis_spec(st.gain as int, prev.0, w, 1);
    let y0 = to_axis_spec(st.gain as int, prev.1, h, -1);
    let x1 = to_axis_spec(st.gain as int, cur.0, w, 1);
    let y1 = to_axis_spec(st.gain as int, cur.1, h, -1);
    (draw_line_spec(px, w, h, x0, y0, x1, y1, st.exposure as int), cur)
}

/// One drained frame, sample by sample in order.
pub open spec fn draw_samples(
    px: Seq<Pixel>,
    w: int,
    h: int,
    st: RenderState,
    prev: (int, int),
    samples: Seq<(int, int)>,
) -> (Seq<Pixel>, (int, int))
    decreases samples.len(),
{
    if samples.len() == 0 {
        (px, prev)
    } else {
        let t = draw_sample_step(px, w, h, st, prev, samples[0]);
        draw_samples(t.0, w, h, st, t.1, samples.skip(1))
    }
}

/// A run of drained frames, oldest first.
pub open spec fn draw_frames(
    px: Seq<Pixel>,
    w: int,
    h: int,
    st: RenderState,
    prev: (int, int),
    frames: Seq<Seq<(int, int)>>,
) -> (Seq<Pixel>, (int, int))
    decreases frames.len(),
{
    if frames.len() == 0 {
        (px, prev)
    } else {
        let t = draw_samples(px, w, h, st, prev, frames[0]);
        draw_frames(t.0, w, h, st, t.1, frames.skip(1))
    }
}

/// The frames one render pass drains: everything still buffered from the
/// reader's position on, skipping what was overwritten while the reader
/// lagged.
pub open spec fn drained_frames(ch: RingChannel, next: int) -> Seq<Seq<(int, int)>> {
    let lost = ch.count() - ch.buffered().len();
    let pos = if next >= lost {
        next
    } else {
        lost
    };
    ch.buffered().skip(pos - lost)
}

/// What one whole render pass does: one decay step, then every drained
/// sample drawn in order; the second component is the carried sample
/// after the pass.
pub open spec fn pass_spec(
    px: Seq<Pixel>,
    w: int,
    h: int,
    st: RenderState,
    frames: Seq<Seq<(int, int)>>,
) -> (Seq<Pixel>, (int, int)) {
    draw_frames(
        decayed_spec(px, st.decay as int),
        w,
        h,
        st,
        (st.prev_x as int, st.prev_y as int),
        frames,
    )
}

/// The viewport mapping, matching `to_axis_spec`.
pub fn to_axis(gain: i64, v: i64, dim: usize, invert: bool) -> (r: u64)
    requires
        0 <= gain <= 100 * SCALE as i64,
        1 <= dim <= 32768,
    ensures
        r == to_axis_spec(gain as int, v as int, dim as int, if invert { -1int } else { 1int }),
        r <= dim as u64 * SCALE,
        r <= MAX_COORD,
{
    proof {
        assert(gain as i128 * v as i128 <= 6553600i128 * 0x8000_0000_0000_0000i128 && gain as i128
            * v as i128 >= -(6553600i128 * 0x8000_0000_0000_0000i128)) by (nonlinear_arith)
            requires
                0 <= gain as i128 <= 6553600i128,
                -0x8000_0000_0000_0000i128 <= v as i128 <= 0x8000_0000_0000_0000i128,
        ;
    }
    let gv: i128 = (gain as i128) * (v as i128);
    let gv: i128 = if invert {
        -gv
    } else {
        gv
    };
    proof {
        if invert {
            assert(gv == -1 * (gain as int * v as int)) by (nonlinear_arith)
                requires
                    gv == -(gain as int * v as int),
            ;
        } else {
            assert(gv == 1 * (gain as int * v as int)) by (nonlinear_arith)
                requires
                    gv == gain as int * v as int,
            ;
        }
    }
    let t: i128 = 0x1_0000_0000i128 + gv;
    let c: i128 = if t < 0 {
        0
    } else if t > 0x2_0000_0000i128 {
        0x2_0000_0000i128
    } else {
        t
    };
    proof {
        assert(c as u64 * dim as u64 <= 0x2_0000_0000u64 * 32768u64) by (nonlinear_arith)
            requires
                c as u64 <= 0x2_0000_0000u64,
                dim as u64 <= 32768u64,
        ;
    }
    let cd: u64 = (c as u64) * (dim as u64);
    let r: u64 = cd / 131072;
    proof {
        assert(c as int * dim as int <= 0x2_0000_0000int * dim as int) by (nonlinear_arith)
            requires
                0 <= c as int <= 0x2_0000_0000int,
                dim as int >= 1,
        ;
        lemma_div_is_ordered(cd as int, 0x2_0000_0000int * dim as int, 131072int);
        assert(0x2_0000_0000int * dim as int == 131072int * (65536int * dim as int))
            by (nonlinear_arith);
        lemma_div_multiples_vanish(65536int * dim as int, 131072int);
    }
    r
}

/// No channel of any pixel is darker in `post` than in `pre`.
proof fn lemma_chain(pre: Seq<Pixel>, mid: Seq<Pixel>, post: Seq<Pixel>)
    requires
        pre.len() == mid.len(),
        mid.len() == post.len(),
        forall|i: int| 0 <= i < pre.len() ==> brighter_eq(pre[i], #[trigger] mid[i]),
        forall|i: int| 0 <= i < mid.len() ==> brighter_eq(mid[i], #[trigger] post[i]),
    ensures
        forall|i: int| 0 <= i < pre.len() ==> brighter_eq(pre[i], #[trigger] post[i]),
{
    assert forall|i: int| 0 <= i < pre.len() implies brighter_eq(pre[i], #[trigger] post[i]) by {
        assert(brighter_eq(pre[i], mid[i]));
        assert(brighter_eq(mid[i], post[i]));
    }
}

/// One render pass. The framebuffer is decayed exactly once, whether or
/// not any frames arrive; every frame the channel currently holds is
/// drained, in production order; each drained sample is transformed and
/// drawn as a segment from the previously transformed sample; and the
/// last transformed sample is carried in the state for the next pass.
/// The resulting framebuffer and carried sample are exactly `pass_spec`
/// of the drained frames: one decay step, then the drawn segments and
/// nothing else.
#[verifier::rlimit(100)]
pub fn render_pass(
    st: &mut RenderState,
    ch: &RingChannel,
    reader: &mut RingReader,
    grid: &mut PixelGrid,
)
    requires
        old(st).wf(),
        ch.wf(),
        old(reader).next_seq <= ch.write_count,
        old(grid).wf(),
    ensures
        final(st).wf(),
        final(st).exposure == old(st).exposure,
        final(st).gain == old(st).gain,
        final(st).decay == old(st).decay,
        final(st).logarithmic_enable == old(st).logarithmic_enable,
        final(st).logarithmic_range == old(st).logarithmic_range,
        final(st).rotation == old(st).rotation,
        final(st).flip == old(st).flip,
        final(grid).wf(),
        final(grid).width == old(grid).width,
        final(grid).height == old(grid).height,
        final(grid).pixels@.len() == old(grid).pixels@.len(),
        final(reader).next_seq == ch.write_count,
        ({
            let r = pass_spec(
                old(grid).pixels@,
                old(grid).width as int,
                old(grid).height as int,
                *old(st),
                drained_frames(*ch, old(reader).next_seq as int),
            );
            &&& final(grid).pixels@ == r.0
            &&& (final(st).prev_x as int, final(st).prev_y as int) == r.1
        }),
        forall|i: int|
            0 <= i < old(grid).pixels@.len() ==> brighter_eq(
                decay_pixel(old(grid).pixels@[i], old(st).decay as int),
                #[trigger] final(grid).pixels@[i],
            ),
        old(reader).next_seq == ch.write_count ==> {
            &&& *final(st) == *old(st)
            &&& forall|i: int|
                0 <= i < old(grid).pixels@.len() ==> #[trigger] final(grid).pixels@[i]
                    == decay_pixel(old(grid).pixels@[i], old(st).decay as int)
        },
        (old(reader).next_seq < ch.write_count && ch.buffered().last().len() > 0) ==> ({
            let last = ch.buffered().last().last();
            (final(st).prev_x as int, final(st).prev_y as int) == map_spec(
                last.0,
                last.1,
                *old(st),
            )
        }),
{
    grid.decay_pass(st.decay);
    let ghost decayed = *grid;
    proof {
        assert(decayed.pixels@ =~= decayed_spec(old(grid).pixels@, old(st).decay as int));
    }
    let mut px = st.prev_x;
    let mut py = st.prev_y;
    let ghost w: int = grid.width as int;
    let ghost h: int = grid.height as int;
    let ghost tgt = draw_frames(
        grid.pixels@,
        w,
        h,
        *st,
        (px as int, py as int),
        drained_frames(*ch, reader.next_seq as int),
    );
    let mut done = false;
    while !done
        invariant
            *st == *old(st),
            st.wf(),
            ch.wf(),
            grid.wf(),
            grid.width == old(grid).width,
            grid.height == old(grid).height,
            grid.pixels@.len() == old(grid).pixels@.len(),
            w == old(grid).width as int,
            h == old(grid).height as int,
            decayed.pixels@.len() == old(grid).pixels@.len(),
            forall|i: int|
                0 <= i < old(grid).pixels@.len() ==> #[trigger] decayed.pixels@[i] == decay_pixel(
                    old(grid).pixels@[i],
                    old(st).decay as int,
                ),
            forall|i: int|
                0 <= i < decayed.pixels@.len() ==> brighter_eq(
                    decayed.pixels@[i],
                    #[trigger] grid.pixels@[i],
                ),
            old(reader).next_seq <= reader.next_seq <= ch.write_count,
            done ==> reader.next_seq == ch.write_count,
            draw_frames(
                grid.pixels@,
                w,
                h,
                *old(st),
                (px as int, py as int),
                drained_frames(*ch, reader.next_seq as int),
            ) == tgt,
            reader.next_seq == old(reader).next_seq ==> {
                &&& grid.pixels@ == decayed.pixels@
                &&& px == old(st).prev_x
                &&& py == old(st).prev_y
            },
            (reader.next_seq == ch.write_count && old(reader).next_seq < ch.write_count
                && ch.buffered().last().len() > 0) ==> ({
                let last = ch.buffered().last().last();
                (px as int, py as int) == map_spec(last.0, last.1, *old(st))
            }),
        decreases ch.write_count - reader.next_seq + (if done {
            0int
        } else {
            1int
        }),
    {
        let ghost r_old: int = reader.next_seq as int;
        match ch.read(reader) {
            None => {
                done = true;
                proof {
                    assert(drained_frames(*ch, r_old) =~= Seq::<Seq<(int, int)>>::empty());
                }
            },
            Some(f) => {
                let ghost entry_px = grid.pixels@;
                let ghost entry_prev: (int, int) = (px as int, py as int);
                let ghost inner_tgt = draw_samples(
                    grid.pixels@,
                    w,
                    h,
                    *old(st),
                    entry_prev,
                    f.samples(),
                );
                proof {
                    assert(f.samples().skip(0) =~= f.samples());
                }
                let n = f.sample_count();
                let mut i: usize = 0;
                while i < n
                    invariant
                        *st == *old(st),
                        st.wf(),
                        f.wf(),
                        n == f.samples().len(),
                        i <= n,
                        grid.wf(),
                        grid.width == old(grid).width,
                        grid.height == old(grid).height,
                        grid.pixels@.len() == old(grid).pixels@.len(),
                        w == old(grid).width as int,
                        h == old(grid).height as int,
                        decayed.pixels@.len() == old(grid).pixels@.len(),
                        forall|j: int|
                            0 <= j < decayed.pixels@.len() ==> brighter_eq(
                                decayed.pixels@[j],
                                #[trigger] grid.pixels@[j],
                            ),
                        draw_samples(
                            grid.pixels@,
                            w,
                            h,
                            *old(st),
                            (px as int, py as int),
                            f.samples().skip(i as int),
                        ) == inner_tgt,
                        (i > 0 && n > 0) ==> ({
                            let s = f.samples()[i - 1];
                            (px as int, py as int) == map_spec(s.0, s.1, *old(st))
                        }),
                    decreases n - i,
                {
                    let s = f.sample(i);
                    let cur = map_sample(st, s.0, s.1);
                    let x0 = to_axis(st.gain, px, grid.width, false);
                    let y0 = to_axis(st.gain, py, grid.height, true);
                    let x1 = to_axis(st.gain, cur.0, grid.width, false);
                    let y1 = to_axis(st.gain, cur.1, grid.height, true);
                    let ghost pre = *grid;
                    let ghost prev_g: (int, int) = (px as int, py as int);
                    draw_line(grid, x0, y0, x1, y1, st.exposure);
                    proof {
                        lemma_chain(decayed.pixels@, pre.pixels@, grid.pixels@);
                        assert(f.samples().skip(i as int).len() > 0);
                        assert(f.samples().skip(i as int)[0] == f.samples()[i as int]);
                        assert((cur.0 as int, cur.1 as int) == map_spec(
                            f.samples()[i as int].0,
                            f.samples()[i as int].1,
                            *old(st),
                        ));
                        assert(draw_sample_step(
                            pre.pixels@,
                            w,
                            h,
                            *old(st),
                            prev_g,
                            f.samples()[i as int],
                        ) == (grid.pixels@, (cur.0 as int, cur.1 as int)));
                        assert(f.samples().skip(i as int).skip(1) =~= f.samples().skip(
                            i as int + 1,
                        ));
                        assert(draw_samples(
                            pre.pixels@,
                            w,
                            h,
                            *old(st),
                            prev_g,
                            f.samples().skip(i as int),
                        ) == draw_samples(
                            grid.pixels@,
                            w,
                            h,
                            *old(st),
                            (cur.0 as int, cur.1 as int),
                            f.samples().skip(i as int + 1),
                        ));
                    }
                    px = cur.0;
                    py = cur.1;
                    i = i + 1;
                }
                proof {
                    assert(f.samples().skip(n as int) =~= Seq::<(int, int)>::empty());
                    assert((grid.pixels@, (px as int, py as int)) == inner_tgt);
                    let dr = drained_frames(*ch, r_old);
                    assert(dr.len() > 0);
                    assert(dr[0] == f.samples());
                    assert(dr.skip(1) =~= drained_frames(*ch, reader.next_seq as int));
                    assert(draw_frames(entry_px, w, h, *old(st), entry_prev, dr) == draw_frames(
                        grid.pixels@,
                        w,
                        h,
                        *old(st),
                        (px as int, py as int),
                        drained_frames(*ch, reader.next_seq as int),
                    ));
                }
            },
        }
    }
    proof {
        assert(draw_frames(
            grid.pixels@,
            w,
            h,
            *old(st),
            (px as int, py as int),
            drained_frames(*ch, reader.next_seq as int),
        ) == (grid.pixels@, (px as int, py as int)));
    }
    st.prev_x = px;
    st.prev_y = py;
}

} // verus!
