use oszilloskop::fixed::{div_scale_floor, flog2_q16, isqrt64, pow2_exec};
use oszilloskop::transform::{RenderState, map_sample};

const SCALE: u64 = 65536;

fn state_with(rotation: u8, flip: bool, log: bool, range: u32) -> RenderState {
    let mut st = RenderState::new();
    let ok = st.set_controls(5 * 65536, 65536, 19661, log, range, rotation, flip);
    assert!(ok);
    st
}

#[test]
fn isqrt_exact_values() {
    assert_eq!(isqrt64(0), 0);
    assert_eq!(isqrt64(1), 1);
    assert_eq!(isqrt64(15), 3);
    assert_eq!(isqrt64(16), 4);
    assert_eq!(isqrt64(1 << 40), 1 << 20);
    assert_eq!(isqrt64((1 << 40) - 1), (1 << 20) - 1);
}

#[test]
fn pow2_and_flog2_exact_values() {
    assert_eq!(pow2_exec(0), 1);
    assert_eq!(pow2_exec(10), 1024);
    assert_eq!(pow2_exec(63), 1 << 63);
    // log2 of 1.0 is 0
    assert_eq!(flog2_q16(65536), 0);
    // log2 of 2.0 is 1
    assert_eq!(flog2_q16(131072), 65536);
    // log2 of 2^-15, the default compression floor
    assert_eq!(flog2_q16(2), -15 * 65536);
    // halfway between 1.0 and 2.0 interpolates linearly
    assert_eq!(flog2_q16(98304), 32768);
}

#[test]
fn floor_division_by_scale() {
    assert_eq!(div_scale_floor(65536), 1);
    assert_eq!(div_scale_floor(65535), 0);
    assert_eq!(div_scale_floor(-1), -1);
    assert_eq!(div_scale_floor(-65536), -1);
    assert_eq!(div_scale_floor(-65537), -2);
    assert_eq!(div_scale_floor(0), 0);
}

#[test]
fn map_is_identity_without_any_transform() {
    let st = state_with(0, false, false, 15);
    assert_eq!(map_sample(&st, 12345, -678), (12345, -678));
    assert_eq!(map_sample(&st, 0, 0), (0, 0));
    assert_eq!(map_sample(&st, -65536, 65536), (-65536, 65536));
}

#[test]
fn rotation_step_eight_equals_step_zero() {
    let st8 = state_with(8, false, false, 15);
    let st0 = state_with(0, false, false, 15);
    for &(x, y) in &[(1i64, 2i64), (-30000, 45000), (65536, -65536), (0, 0)] {
        assert_eq!(map_sample(&st8, x, y), map_sample(&st0, x, y));
    }
}

#[test]
fn rotation_one_step_turns_by_minus_45_degrees() {
    let st = state_with(1, false, false, 15);
    // one step turns (1, 0) onto the diagonal, cos and sin magnitudes equal
    let (x, y) = map_sample(&st, 65536, 0);
    assert_eq!((x, y), (46341, 46341));
    // and (0, 1) onto the opposite diagonal
    let (x2, y2) = map_sample(&st, 0, 65536);
    assert_eq!((x2, y2), (-46341, 46341));
}

#[test]
fn flip_swaps_channels_before_rotation() {
    let st = state_with(0, true, false, 15);
    assert_eq!(map_sample(&st, 111, 222), (222, 111));
}

#[test]
fn compression_keeps_direction() {
    let st = state_with(0, false, true, 15);
    // a vector on the x axis stays on the x axis
    let (x, y) = map_sample(&st, 30000, 0);
    assert!(x > 0);
    assert_eq!(y, 0);
    // a diagonal vector stays diagonal
    let (dx, dy) = map_sample(&st, 20000, 20000);
    assert_eq!(dx, dy);
    // signs are preserved componentwise
    let (nx, ny) = map_sample(&st, -20000, 10000);
    assert!(nx <= 0 && ny >= 0);
    // the zero vector collapses to the origin
    assert_eq!(map_sample(&st, 0, 0), (0, 0));
}

#[test]
fn compression_expands_quiet_signals() {
    let st = state_with(0, false, true, 15);
    // a quiet sample (about -60 dB) is pulled far up the visible range
    let (x, _) = map_sample(&st, 66, 0);
    assert!(x > 66);
    // full scale maps to exactly full scale
    let (f, _) = map_sample(&st, 65536, 0);
    assert_eq!(f, 65536);
}

#[test]
fn set_controls_rejects_out_of_range_values() {
    let mut st = RenderState::new();
    let before_rot = st.rotation;
    assert!(!st.set_controls(5 * 65536, 65536, 19661, false, 15, 9, false));
    assert_eq!(st.rotation, before_rot);
    assert!(!st.set_controls(101 * SCALE, 65536, 19661, false, 15, 0, false));
    assert!(!st.set_controls(5 * 65536, -1, 19661, false, 15, 0, false));
    assert!(!st.set_controls(5 * 65536, 65536, 65537, false, 15, 0, false));
    assert!(!st.set_controls(5 * 65536, 65536, 19661, false, 31, 0, false));
    assert!(st.set_controls(100 * SCALE, 0, 65536, true, 30, 8, true));
}

#[test]
fn default_state_matches_startup_settings() {
    let st = RenderState::new();
    assert_eq!(st.exposure, 327680);
    assert_eq!(st.gain, 45875);
    assert_eq!(st.decay, 19661);
    assert!(!st.logarithmic_enable);
    assert_eq!(st.logarithmic_range, 15);
    assert_eq!(st.rotation, 1);
    assert!(st.flip);
    assert_eq!((st.prev_x, st.prev_y), (0, 0));
}
