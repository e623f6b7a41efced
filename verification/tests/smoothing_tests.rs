use flintec_lpp::{mavg, window_total, SCALE};

fn load(x: f64) -> Option<i64> {
    Some((x * SCALE as f64).round() as i64)
}

#[test]
fn imputer_fills_a_gap_between_two_neighbours() {
    let v = vec![load(1.0), None, load(3.0), None, load(5.0)];
    let w = vec![250_000u64, 500_000, 250_000];
    let out = mavg(&v, &w, 1, 50 * SCALE);
    assert_eq!(out[1], load(2.0));
    assert_eq!(out, vec![None, load(2.0), None, load(4.0), None]);
}

#[test]
fn imputer_rejects_every_position_next_to_a_gap() {
    let v = vec![load(1.0), None, load(3.0), None, load(5.0)];
    let w = vec![250_000u64, 500_000, 250_000];
    let out = mavg(&v, &w, 0, 50 * SCALE);
    assert_eq!(out, vec![None, None, None, None, None]);
}

#[test]
fn smoothing_keeps_the_length() {
    let v = vec![load(1.0), load(2.0), load(3.0), load(4.0), load(5.0), None, load(7.0)];
    let w = vec![1u64, 1, 1];
    let out = mavg(&v, &w, 3, 100 * SCALE);
    assert_eq!(out.len(), v.len());
}

#[test]
fn present_loads_are_smoothed_too() {
    let v = vec![load(1.0), load(2.0), load(6.0), load(4.0), load(5.0)];
    let w = vec![250_000u64, 500_000, 250_000];
    let out = mavg(&v, &w, 1, 50 * SCALE);
    // inner positions: the weighted mean of three loads
    assert_eq!(out[1], load(2.75));
    assert_eq!(out[2], load(4.5));
    assert_eq!(out[3], load(4.75));
    // at the ends one slot lies outside: the mean of the two that are there
    assert_eq!(out[0], Some(1_333_333));
    assert_eq!(out[4], Some(4_666_666));
}

#[test]
fn a_slot_beyond_the_end_counts_as_missing() {
    let v = vec![load(1.0), load(2.0), load(3.0), load(4.0)];
    let w = vec![1u64, 1, 1];
    let out = mavg(&v, &w, 0, 100 * SCALE);
    assert_eq!(out, vec![None, load(2.0), load(3.0), None]);
}

#[test]
fn the_weight_limit_is_a_share_of_the_whole_window() {
    let v = vec![load(2.0), None, load(4.0), load(6.0), load(8.0)];
    let w = vec![1u64, 2, 1];
    // at position 1 the missing load carries half of the weight
    assert_eq!(mavg(&v, &w, 3, 50 * SCALE)[1], load(3.0));
    assert_eq!(mavg(&v, &w, 3, 49 * SCALE)[1], None);
    assert_eq!(mavg(&v, &w, 3, 49_999_999)[1], None);
    // at position 2 it carries a quarter
    assert_eq!(mavg(&v, &w, 3, 25 * SCALE)[2], Some(4_666_666));
    assert_eq!(mavg(&v, &w, 3, 24 * SCALE)[2], None);
}

#[test]
fn a_negative_weight_limit_rejects_everything() {
    let v = vec![load(1.0), load(2.0), load(3.0), load(4.0)];
    let w = vec![1u64, 1, 1];
    assert_eq!(mavg(&v, &w, 3, -1), vec![None, None, None, None]);
}

#[test]
fn nothing_present_under_the_window_gives_a_missing_load() {
    let v = vec![None, None, None, load(1.0), load(2.0)];
    let w = vec![1u64, 1, 1];
    let out = mavg(&v, &w, 3, 100 * SCALE);
    assert_eq!(out[0], None);
    assert_eq!(out[1], None);
    assert_eq!(out[2], load(1.0));
}

#[test]
fn present_loads_without_weight_give_a_missing_load() {
    let v = vec![None, load(5.0), None, load(1.0)];
    let w = vec![1u64, 0, 1];
    let out = mavg(&v, &w, 3, 100 * SCALE);
    assert_eq!(out[1], None);
}

#[test]
fn the_mean_is_rounded_down() {
    let v = vec![Some(1), Some(2), Some(2), Some(-1), Some(-2), Some(-2), Some(0)];
    let w = vec![1u64, 1, 1];
    let out = mavg(&v, &w, 0, 100 * SCALE);
    // 5 / 3, then 3 / 3, -1 / 3, -5 / 3 and -4 / 3, each rounded down
    assert_eq!(out[1], Some(1));
    assert_eq!(out[2], Some(1));
    assert_eq!(out[3], Some(-1));
    assert_eq!(out[4], Some(-2));
    assert_eq!(out[5], Some(-2));
}

#[test]
fn a_window_of_one_weight_passes_the_loads_through() {
    let v = vec![load(1.5), None, load(-3.25)];
    let w = vec![SCALE as u64];
    assert_eq!(mavg(&v, &w, 0, 0), vec![load(1.5), None, load(-3.25)]);
    assert_eq!(mavg(&v, &w, 1, 100 * SCALE), vec![load(1.5), None, load(-3.25)]);
}

#[test]
fn a_constant_series_stays_constant() {
    let v = vec![load(14000.5); 9];
    let w = vec![111_111u64, 222_222, 333_333, 222_222, 111_111];
    let out = mavg(&v, &w, 2, 50 * SCALE);
    assert_eq!(out, v);
}

#[test]
fn the_largest_loads_and_weights_do_not_overflow() {
    let v = vec![Some(i64::MAX), Some(i64::MAX), Some(i64::MIN), Some(i64::MIN)];
    let w = vec![u64::MAX / 2, 1, u64::MAX / 2];
    let out = mavg(&v, &w, 1, 100 * SCALE);
    assert_eq!(out[0], Some(i64::MAX));
    assert_eq!(out[3], Some(i64::MIN));
    assert_eq!(out[1], Some(0));
    assert_eq!(out[2], Some(-1));
}

#[test]
fn the_whole_weight_of_a_window() {
    assert_eq!(window_total(&[250_000, 500_000, 250_000]), Some(1_000_000));
    assert_eq!(window_total(&[]), Some(0));
    assert_eq!(window_total(&[u64::MAX, 0]), Some(u64::MAX));
    assert_eq!(window_total(&[u64::MAX, 1]), None);
}
