use flintec_lpp::window::{MAX_SIDE, TOLERANCE, WEIGHT_SCALE};
use flintec_lpp::{make_window, WindowError};

fn sum(w: &[u64]) -> u64 {
    w.iter().sum()
}

fn as_real(w: u64) -> f64 {
    w as f64 / WEIGHT_SCALE as f64
}

#[test]
fn a_peaked_window_rises_to_the_centre_and_falls_again() {
    let w = make_window(3_000_000, 1_000_000, 2).unwrap();
    assert_eq!(w.len(), 5);
    assert_eq!(w[0], w[4]);
    assert_eq!(w[1], w[3]);
    assert!(w[0] < w[1]);
    assert!(w[1] < w[2]);
    assert!(w[2] > w[3]);
    assert!(w[3] > w[4]);
    assert_eq!(
        w,
        vec![111_111_111_111, 222_222_222_222, 333_333_333_333, 222_222_222_222, 111_111_111_111]
    );
    assert!((as_real(sum(&w)) - 1.0).abs() <= 0.02);
}

#[test]
fn a_uniform_window_has_equal_weights_that_sum_to_one() {
    for side in [0usize, 1, 2, 3, 10, 180, 9_999, 10_000, 20_000, 250_000] {
        let w = make_window(1_000_000, 1_000_000, side).unwrap();
        assert_eq!(w.len(), 2 * side + 1);
        let each = WEIGHT_SCALE / (2 * side as u64 + 1);
        assert!(w.iter().all(|x| *x == each));
        assert!((as_real(sum(&w)) - 1.0).abs() <= 0.02);
        assert!(sum(&w) >= WEIGHT_SCALE - TOLERANCE);
        assert!(sum(&w) <= WEIGHT_SCALE + TOLERANCE);
    }
}

#[test]
fn the_widest_window_still_sums_to_one_within_the_tolerance() {
    let w = make_window(3, 1, MAX_SIDE).unwrap();
    assert_eq!(w.len(), 2 * MAX_SIDE + 1);
    assert!(sum(&w) <= WEIGHT_SCALE);
    assert!(sum(&w) > WEIGHT_SCALE - 2 * MAX_SIDE as u64 - 1);
    assert_eq!(w[0], w[2 * MAX_SIDE]);
    assert!(w[0] < w[MAX_SIDE]);
}

#[test]
fn a_uniform_window_does_not_depend_on_the_weight() {
    let third = 333_333_333_333u64;
    assert_eq!(make_window(500_000, 500_000, 1), Ok(vec![third; 3]));
    assert_eq!(make_window(7, 7, 1), Ok(vec![third; 3]));
    assert_eq!(make_window(1, 1, 2), Ok(vec![200_000_000_000; 5]));
    assert_eq!(make_window(u64::MAX, u64::MAX, 2), Ok(vec![200_000_000_000; 5]));
}

#[test]
fn only_the_ratio_of_the_two_weights_matters() {
    assert_eq!(make_window(3, 1, 4), make_window(3_000_000, 1_000_000, 4));
    assert_eq!(make_window(6, 2, 4), make_window(3, 1, 4));
}

#[test]
fn a_window_of_half_width_zero_is_the_single_weight_one() {
    assert_eq!(make_window(3_000_000, 1_000_000, 0), Ok(vec![WEIGHT_SCALE]));
    assert_eq!(make_window(1, 1, 0), Ok(vec![WEIGHT_SCALE]));
    assert_eq!(make_window(0, 0, 0), Ok(vec![WEIGHT_SCALE]));
}

#[test]
fn a_window_may_fall_to_the_centre() {
    let w = make_window(1, 3, 1).unwrap();
    assert_eq!(w, vec![428_571_428_571, 142_857_142_857, 428_571_428_571]);
}

#[test]
fn a_window_with_zero_edges() {
    let w = make_window(1, 0, 2).unwrap();
    assert_eq!(w, vec![0, 250_000_000_000, 500_000_000_000, 250_000_000_000, 0]);
}

#[test]
fn a_wide_window_is_symmetric_and_does_not_fall_towards_the_centre() {
    let w = make_window(3, 1, 180).unwrap();
    assert_eq!(w.len(), 361);
    let total = sum(&w);
    assert!(total <= WEIGHT_SCALE);
    assert!(total > WEIGHT_SCALE - 361);
    for i in 0..361 {
        assert_eq!(w[i], w[360 - i]);
    }
    for i in 0..180 {
        assert!(w[i] <= w[i + 1]);
    }
}

#[test]
fn no_window_without_weight() {
    assert_eq!(make_window(0, 0, 1), Err(WindowError::NoWeight));
    assert_eq!(make_window(0, 0, 180), Err(WindowError::NoWeight));
}

#[test]
fn no_window_above_the_largest_half_width() {
    assert_eq!(make_window(3, 1, MAX_SIDE + 1), Err(WindowError::TooWide));
    assert_eq!(make_window(1, 1, usize::MAX), Err(WindowError::TooWide));
    assert_eq!(make_window(0, 0, MAX_SIDE + 1), Err(WindowError::TooWide));
}

#[test]
fn the_largest_weights_do_not_overflow() {
    let w = make_window(u64::MAX, 0, MAX_SIDE).unwrap();
    assert_eq!(w[0], 0);
    assert_eq!(w[MAX_SIDE], 1_000_000);
    let v = make_window(u64::MAX, u64::MAX - 1, 3).unwrap();
    assert_eq!(v.len(), 7);
    assert!(v[0] <= v[3]);
}
