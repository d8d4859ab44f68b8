use oszilloskop::frame::{AudioFrame, FrameAssembler};
use oszilloskop::grid::{decay_channel, PixelGrid};
use oszilloskop::raster::draw_line;
use oszilloskop::ring::{RingChannel, RingReader};

fn frame_of(value: i64, n: usize) -> AudioFrame {
    AudioFrame::from_channels(vec![value; n], vec![value; n]).unwrap()
}

#[test]
fn decay_subtracts_rounded_share_and_at_least_one() {
    // 0.3 of 255, rounded, is 77
    assert_eq!(decay_channel(255, 19661), 178);
    // small values still lose at least one
    assert_eq!(decay_channel(1, 19661), 0);
    assert_eq!(decay_channel(2, 19661), 1);
    // zero stays zero
    assert_eq!(decay_channel(0, 19661), 0);
    assert_eq!(decay_channel(0, 65536), 0);
    // full rate clears any value in one step
    assert_eq!(decay_channel(255, 65536), 0);
}

#[test]
fn decay_strictly_decreases_until_zero_for_tiny_rates() {
    // even the smallest positive rate drains every value to zero
    let mut v: u8 = 200;
    let mut steps = 0;
    while v > 0 {
        let next = decay_channel(v, 1);
        assert!(next < v);
        v = next;
        steps += 1;
    }
    assert!(steps <= 200);
}

#[test]
fn grid_rejects_bad_dimensions() {
    assert!(PixelGrid::new(0, 5).is_none());
    assert!(PixelGrid::new(5, 0).is_none());
    assert!(PixelGrid::new(32769, 5).is_none());
    assert!(PixelGrid::new(16, 16).is_some());
}

#[test]
fn ring_rejects_zero_capacity() {
    assert!(RingChannel::new(0).is_none());
    assert!(RingChannel::new(1).is_some());
    assert!(RingChannel::new(65).is_some());
}

#[test]
fn frame_rejects_mismatched_or_oversized_channels() {
    assert!(AudioFrame::from_channels(vec![0; 4], vec![0; 5]).is_none());
    assert!(AudioFrame::from_channels(vec![1 << 21], vec![0]).is_none());
    assert!(AudioFrame::from_channels(vec![-(1 << 21)], vec![0]).is_none());
    assert!(AudioFrame::from_channels(vec![1 << 20], vec![-(1 << 20)]).is_some());
}

#[test]
fn ring_delivers_in_order_when_reader_keeps_up() {
    let mut ch = RingChannel::new(4).unwrap();
    let mut rd = RingReader { next_seq: 0 };
    ch.write(frame_of(1, 4));
    ch.write(frame_of(2, 4));
    assert_eq!(ch.read(&mut rd).unwrap().left[0], 1);
    assert_eq!(ch.read(&mut rd).unwrap().left[0], 2);
    assert!(ch.read(&mut rd).is_none());
    ch.write(frame_of(3, 4));
    assert_eq!(ch.read(&mut rd).unwrap().left[0], 3);
    assert!(ch.read(&mut rd).is_none());
}

#[test]
fn overfilling_drops_exactly_the_oldest_frames() {
    // writing six frames into a four-slot channel never blocks the
    // writer; the reader observes a skip over the two oldest frames and
    // intact data after it
    let mut ch = RingChannel::new(4).unwrap();
    let mut rd = RingReader { next_seq: 0 };
    for v in 1..=6 {
        ch.write(frame_of(v, 8));
    }
    for expected in 3..=6 {
        let f = ch.read(&mut rd).unwrap();
        assert_eq!(f.left[0], expected);
        assert_eq!(f.right[7], expected);
    }
    assert!(ch.read(&mut rd).is_none());
}

#[test]
fn wrapped_ring_keeps_production_order() {
    let mut ch = RingChannel::new(3).unwrap();
    let mut rd = RingReader { next_seq: 0 };
    for v in 1..=100 {
        ch.write(frame_of(v, 2));
    }
    assert_eq!(ch.read(&mut rd).unwrap().left[0], 98);
    assert_eq!(ch.read(&mut rd).unwrap().left[0], 99);
    assert_eq!(ch.read(&mut rd).unwrap().left[0], 100);
    assert!(ch.read(&mut rd).is_none());
}

#[test]
fn zero_length_segment_stays_in_a_small_neighbourhood() {
    let mut grid = PixelGrid::new(64, 64).unwrap();
    // a point at exactly pixel (32, 32), full intensity
    let c = 32 * 65536;
    draw_line(&mut grid, c, c, c, c, 5 * 65536);
    let mut lit = 0;
    for y in 0..64usize {
        for x in 0..64usize {
            let p = grid.pixels[y * 64 + x];
            let on = p.r != 0 || p.g != 0 || p.b != 0;
            if on {
                lit += 1;
                // nothing outside the immediate neighbourhood is touched
                assert!((x as i64 - 32).abs() <= 2 && (y as i64 - 32).abs() <= 2);
            }
        }
    }
    assert!(lit >= 1);
    // the point pixel itself is lit with the documented channel weights
    let p = grid.pixels[32 * 64 + 32];
    assert_eq!((p.r, p.g, p.b), (16, 255, 32));
}

#[test]
fn drawing_only_brightens_pixels() {
    let mut grid = PixelGrid::new(32, 32).unwrap();
    draw_line(&mut grid, 0, 0, 31 * 65536, 31 * 65536, 65536);
    let before: Vec<(u8, u8, u8)> = grid.pixels.iter().map(|p| (p.r, p.g, p.b)).collect();
    draw_line(&mut grid, 0, 31 * 65536, 31 * 65536, 0, 65536);
    for (i, p) in grid.pixels.iter().enumerate() {
        assert!(p.r >= before[i].0 && p.g >= before[i].1 && p.b >= before[i].2);
    }
}

#[test]
fn zero_exposure_draws_nothing() {
    let mut grid = PixelGrid::new(32, 32).unwrap();
    draw_line(&mut grid, 0, 0, 20 * 65536, 9 * 65536, 65536);
    let before: Vec<(u8, u8, u8)> = grid.pixels.iter().map(|p| (p.r, p.g, p.b)).collect();
    draw_line(&mut grid, 3 * 65536, 4 * 65536, 25 * 65536, 30 * 65536, 0);
    for (i, p) in grid.pixels.iter().enumerate() {
        assert_eq!((p.r, p.g, p.b), before[i]);
    }
}

#[test]
fn endpoint_order_does_not_matter() {
    let mut a = PixelGrid::new(48, 48).unwrap();
    let mut b = PixelGrid::new(48, 48).unwrap();
    let (x0, y0) = (5 * 65536 + 123, 7 * 65536 + 60000);
    let (x1, y1) = (40 * 65536 + 4321, 21 * 65536 + 7);
    draw_line(&mut a, x0, y0, x1, y1, 3 * 65536);
    draw_line(&mut b, x1, y1, x0, y0, 3 * 65536);
    for i in 0..a.pixels.len() {
        let (p, q) = (a.pixels[i], b.pixels[i]);
        assert_eq!((p.r, p.g, p.b), (q.r, q.g, q.b));
    }
}

#[test]
fn assembler_emits_full_frames_in_order() {
    assert!(FrameAssembler::new(0).is_none());
    let mut collector = FrameAssembler::new(2).unwrap();
    assert!(collector.push_sample(10, -10).is_none());
    let f = collector.push_sample(20, -20).unwrap();
    assert_eq!(f.left, vec![10, 20]);
    assert_eq!(f.right, vec![-10, -20]);
    // the assembler starts over after handing a frame out
    assert!(collector.push_sample(30, -30).is_none());
    let g = collector.push_sample(40, -40).unwrap();
    assert_eq!(g.left, vec![30, 40]);
    assert_eq!(g.right, vec![-30, -40]);
}
