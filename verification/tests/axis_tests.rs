use flintec_lpp::axis::{axis_range, min_and_max};
use flintec_lpp::{suitable_xfmt, TimeLoad, Timestamp};

fn series(loads: Vec<Option<i64>>) -> TimeLoad {
    let time = (0..loads.len() as i64).map(|i| Timestamp { secs: 60 * i, offset: 0 }).collect();
    TimeLoad { time, load: loads }
}

#[test]
fn the_label_format_goes_by_the_span() {
    assert_eq!(suitable_xfmt(604_801), "%y-%m-%d");
    assert_eq!(suitable_xfmt(604_800), "%m-%d %H");
    assert_eq!(suitable_xfmt(86_401), "%m-%d %H");
    assert_eq!(suitable_xfmt(86_400), "%d %H:%M");
    assert_eq!(suitable_xfmt(0), "%d %H:%M");
    assert_eq!(suitable_xfmt(-5), "%d %H:%M");
    assert_eq!(suitable_xfmt(i64::MAX), "%y-%m-%d");
}

#[test]
fn the_smallest_and_the_largest_are_found() {
    assert_eq!(min_and_max(&[3, 1, 4, 1, 5, 9, 2, 6]), (1, 9));
    assert_eq!(min_and_max(&[7]), (7, 7));
    assert_eq!(min_and_max(&[-1, -5, -3]), (-5, -1));
    assert_eq!(min_and_max(&[5, 4, 3, 2, 1]), (1, 5));
    assert_eq!(min_and_max(&[i64::MAX, i64::MIN]), (i64::MIN, i64::MAX));
}

#[test]
fn the_value_axis_has_a_margin_of_a_tenth() {
    assert_eq!(axis_range(13_000, 15_000), (12_800, 15_200));
    assert_eq!(axis_range(5, 5), (5, 5));
    assert_eq!(axis_range(0, 9), (0, 9));
    assert_eq!(axis_range(-10, 10), (-12, 12));
    let span = i64::MAX as i128 - i64::MIN as i128;
    assert_eq!(
        axis_range(i64::MIN, i64::MAX),
        (i64::MIN as i128 - span / 10, i64::MAX as i128 + span / 10)
    );
}

#[test]
fn the_present_loads_are_picked_out() {
    let s = series(vec![None, Some(1), Some(2), None, None, Some(3), None]);
    assert_eq!(s.present_loads(), vec![1, 2, 3]);
    assert_eq!(series(vec![None, None]).present_loads(), Vec::<i64>::new());
    assert_eq!(series(vec![]).present_loads(), Vec::<i64>::new());
}

#[test]
fn missing_loads_break_the_series_into_stretches() {
    let s = series(vec![None, Some(1), Some(2), None, None, Some(3), None, Some(4)]);
    assert_eq!(s.present_runs(), vec![(1, 3), (5, 6), (7, 8)]);
}

#[test]
fn a_series_without_missing_loads_is_one_stretch() {
    let s = series(vec![Some(1), Some(2), Some(3)]);
    assert_eq!(s.present_runs(), vec![(0, 3)]);
}

#[test]
fn a_series_without_present_loads_has_no_stretch() {
    assert_eq!(series(vec![None, None, None]).present_runs(), vec![]);
    assert_eq!(series(vec![]).present_runs(), vec![]);
}

#[test]
fn stretches_at_the_ends_of_the_series() {
    let s = series(vec![Some(1), None, Some(2), Some(3)]);
    assert_eq!(s.present_runs(), vec![(0, 1), (2, 4)]);
    let t = series(vec![Some(1), Some(2), None]);
    assert_eq!(t.present_runs(), vec![(0, 2)]);
}
