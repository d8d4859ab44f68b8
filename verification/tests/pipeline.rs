use oszilloskop::controller::{render_pass, to_axis};
use oszilloskop::frame::AudioFrame;
use oszilloskop::grid::PixelGrid;
use oszilloskop::ring::{RingChannel, RingReader};
use oszilloskop::transform::RenderState;

#[test]
fn viewport_mapping_centres_and_scales() {
    // gain 1.0, value 0.5: x lands at 0.75 of the axis, y at 0.25
    assert_eq!(to_axis(65536, 32768, 512, false), 384 * 65536);
    assert_eq!(to_axis(65536, 32768, 512, true), 128 * 65536);
    // a zero sample sits in the middle of the screen
    assert_eq!(to_axis(65536, 0, 512, false), 256 * 65536);
    // saturated values clamp to the axis ends
    assert_eq!(to_axis(65536, 4 * 65536, 512, false), 512 * 65536);
    assert_eq!(to_axis(65536, -4 * 65536, 512, false), 0);
}

#[test]
fn one_pass_lights_the_trace_and_leaves_far_pixels_dark() {
    // a constant (0.5, 0.5) frame with gain 1, no rotation, no flip and
    // no compression lights the pixel at (384, 128) of a 512 by 512 grid
    let mut st = RenderState::new();
    assert!(st.set_controls(5 * 65536, 65536, 19661, false, 15, 0, false));
    let mut grid = PixelGrid::new(512, 512).unwrap();
    let mut ch = RingChannel::new(8).unwrap();
    let mut rd = RingReader { next_seq: 0 };
    let frame = AudioFrame::from_channels(vec![32768; 1024], vec![32768; 1024]).unwrap();
    ch.write(frame);
    render_pass(&mut st, &ch, &mut rd, &mut grid);
    let hit = grid.pixels[128 * 512 + 384];
    assert!(hit.g > 0);
    assert_eq!(hit.g, 255);
    let far = grid.pixels[0];
    assert_eq!((far.r, far.g, far.b), (0, 0, 0));
    // the carried sample continues from the transformed input
    assert_eq!((st.prev_x, st.prev_y), (32768, 32768));
    // the channel was fully drained
    assert!(ch.read(&mut rd).is_none());
}

#[test]
fn idle_passes_strictly_decay_the_trace() {
    let mut st = RenderState::new();
    assert!(st.set_controls(5 * 65536, 65536, 19661, false, 15, 0, false));
    let mut grid = PixelGrid::new(512, 512).unwrap();
    let mut ch = RingChannel::new(8).unwrap();
    let mut rd = RingReader { next_seq: 0 };
    let frame = AudioFrame::from_channels(vec![32768; 1024], vec![32768; 1024]).unwrap();
    ch.write(frame);
    render_pass(&mut st, &ch, &mut rd, &mut grid);
    let idx = 128 * 512 + 384;
    let v1 = grid.pixels[idx].g;
    assert!(v1 > 0);
    // two passes with nothing to drain: each strictly decreases every
    // nonzero pixel, and the carried sample stays put
    render_pass(&mut st, &ch, &mut rd, &mut grid);
    let v2 = grid.pixels[idx].g;
    assert!(v2 < v1);
    render_pass(&mut st, &ch, &mut rd, &mut grid);
    let v3 = grid.pixels[idx].g;
    assert!(v3 < v2);
    assert_eq!((st.prev_x, st.prev_y), (32768, 32768));
    // with rate 0.3: 255 -> 178 -> 125
    assert_eq!(v2, 178);
    assert_eq!(v3, 125);
}

#[test]
fn decay_happens_once_per_pass_not_once_per_frame() {
    // draw a trace, then feed two empty-of-light frames (all zero
    // samples) in one pass: the old trace decays by exactly one step
    let mut st = RenderState::new();
    assert!(st.set_controls(5 * 65536, 65536, 19661, false, 15, 0, false));
    let mut grid = PixelGrid::new(512, 512).unwrap();
    let mut ch = RingChannel::new(8).unwrap();
    let mut rd = RingReader { next_seq: 0 };
    ch.write(AudioFrame::from_channels(vec![32768; 64], vec![32768; 64]).unwrap());
    render_pass(&mut st, &ch, &mut rd, &mut grid);
    let idx = 128 * 512 + 384;
    let lit = grid.pixels[idx].g;
    assert_eq!(lit, 255);
    // zero samples trace the centre of the screen, far from (384, 128)
    st.prev_x = 0;
    st.prev_y = 0;
    ch.write(AudioFrame::from_channels(vec![0; 64], vec![0; 64]).unwrap());
    ch.write(AudioFrame::from_channels(vec![0; 64], vec![0; 64]).unwrap());
    render_pass(&mut st, &ch, &mut rd, &mut grid);
    // one decay step of 255 is 178; two steps would leave 125
    assert_eq!(grid.pixels[idx].g, 178);
}

#[test]
fn a_slow_consumer_sees_the_newest_frames() {
    // more frames than the channel holds arrive in one pass: the pass
    // completes, drains what is still there, and the trace reflects the
    // newest data (the producer never waited)
    let mut st = RenderState::new();
    assert!(st.set_controls(5 * 65536, 65536, 19661, false, 15, 0, false));
    let mut grid = PixelGrid::new(512, 512).unwrap();
    let mut ch = RingChannel::new(4).unwrap();
    let mut rd = RingReader { next_seq: 0 };
    for _ in 0..10 {
        ch.write(AudioFrame::from_channels(vec![32768; 16], vec![32768; 16]).unwrap());
    }
    render_pass(&mut st, &ch, &mut rd, &mut grid);
    assert!(grid.pixels[128 * 512 + 384].g > 0);
    assert!(ch.read(&mut rd).is_none());
    assert_eq!(rd.next_seq, 10);
}
