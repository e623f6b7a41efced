use flintec_lpp::{SeriesError, TimeLoad, Timestamp, SCALE};

fn load(x: f64) -> Option<i64> {
    Some((x * SCALE as f64).round() as i64)
}

fn at(secs: i64) -> Timestamp {
    Timestamp { secs, offset: 0 }
}

const T0: i64 = 1_636_243_200;

#[test]
fn repair_fills_a_gap_of_three_steps_with_two_missing_loads() {
    let d = 120;
    let s = TimeLoad {
        time: vec![at(T0 - d), at(T0), at(T0 + 3 * d)],
        load: vec![load(4.0), load(5.0), load(7.0)],
    };
    let r = s.fill_missing_with_nan();
    assert_eq!(r.time, vec![at(T0 - d), at(T0), at(T0 + d), at(T0 + 2 * d), at(T0 + 3 * d)]);
    assert_eq!(r.load, vec![load(4.0), load(5.0), None, None, load(7.0)]);
}

#[test]
fn repair_leaves_a_regular_series_as_it_is() {
    let s = TimeLoad {
        time: (0..6).map(|i| at(T0 + 60 * i)).collect(),
        load: vec![load(1.0), None, load(3.0), load(4.0), None, load(6.0)],
    };
    let r = s.fill_missing_with_nan();
    assert_eq!(r.time, s.time);
    assert_eq!(r.load, s.load);
}

#[test]
fn repairing_twice_is_repairing_once() {
    let s = TimeLoad {
        time: vec![at(T0), at(T0 + 60), at(T0 + 240), at(T0 + 300), at(T0 + 600)],
        load: vec![load(1.0), load(2.0), load(3.0), None, load(5.0)],
    };
    let once = s.fill_missing_with_nan();
    let twice = once.fill_missing_with_nan();
    assert_eq!(once.time, twice.time);
    assert_eq!(once.load, twice.load);
    assert_eq!(once.time.len(), 11);
    assert_eq!(once.is_ordered_and_continuous(), Ok(()));
}

#[test]
fn repair_of_two_samples_changes_nothing() {
    let s = TimeLoad { time: vec![at(T0), at(T0 + 3_600)], load: vec![load(1.0), load(2.0)] };
    let r = s.fill_missing_with_nan();
    assert_eq!(r.time, s.time);
    assert_eq!(r.load, s.load);
}

#[test]
fn filled_timestamps_keep_the_clock_of_the_sample_before_the_gap() {
    let s = TimeLoad {
        time: vec![
            Timestamp { secs: T0, offset: -28_800 },
            Timestamp { secs: T0 + 60, offset: -28_800 },
            Timestamp { secs: T0 + 180, offset: -25_200 },
        ],
        load: vec![load(1.0), load(2.0), load(3.0)],
    };
    let r = s.fill_missing_with_nan();
    assert_eq!(
        r.time,
        vec![
            Timestamp { secs: T0, offset: -28_800 },
            Timestamp { secs: T0 + 60, offset: -28_800 },
            Timestamp { secs: T0 + 120, offset: -28_800 },
            Timestamp { secs: T0 + 180, offset: -25_200 },
        ]
    );
    assert_eq!(r.load, vec![load(1.0), load(2.0), None, load(3.0)]);
}

#[test]
fn a_step_that_is_no_multiple_of_the_smallest_leaves_the_series_uneven() {
    let s = TimeLoad {
        time: vec![at(0), at(2), at(5)],
        load: vec![load(1.0), load(2.0), load(3.0)],
    };
    let r = s.fill_missing_with_nan();
    assert_eq!(r.time, vec![at(0), at(2), at(4), at(5)]);
    assert_eq!(r.load, vec![load(1.0), load(2.0), None, load(3.0)]);
    assert_eq!(r.is_ordered_and_continuous(), Err(SeriesError::NotContinuous { index: 3 }));
    let again = r.fill_missing_with_nan();
    assert_eq!(again.time, vec![at(0), at(1), at(2), at(3), at(4), at(5)]);
}

#[test]
fn repair_works_across_the_epoch_and_at_the_edges_of_64_bits() {
    let s = TimeLoad {
        time: vec![at(-5), at(-3), at(3)],
        load: vec![load(1.0), load(2.0), load(3.0)],
    };
    let r = s.fill_missing_with_nan();
    assert_eq!(r.time, vec![at(-5), at(-3), at(-1), at(1), at(3)]);
    let wide = TimeLoad {
        time: vec![at(i64::MIN), at(0), at(i64::MAX)],
        load: vec![load(1.0), load(2.0), load(3.0)],
    };
    let w = wide.fill_missing_with_nan();
    assert_eq!(w.time, vec![at(i64::MIN), at(-1), at(0), at(i64::MAX)]);
    assert_eq!(w.load, vec![load(1.0), None, load(2.0), load(3.0)]);
}

#[test]
fn an_ordered_series_passes_the_check() {
    let s = TimeLoad { time: vec![at(1), at(2), at(10)], load: vec![None; 3] };
    assert_eq!(s.is_ordered(), Ok(()));
    assert_eq!(TimeLoad::new(0).is_ordered(), Ok(()));
    let one = TimeLoad { time: vec![at(1)], load: vec![None] };
    assert_eq!(one.is_ordered(), Ok(()));
}

#[test]
fn the_first_timestamp_out_of_order_is_named() {
    let s = TimeLoad { time: vec![at(1), at(2), at(2), at(1)], load: vec![None; 4] };
    assert_eq!(s.is_ordered(), Err(SeriesError::NotOrdered { index: 2 }));
    let back = TimeLoad { time: vec![at(5), at(4)], load: vec![None; 2] };
    assert_eq!(back.is_ordered(), Err(SeriesError::NotOrdered { index: 1 }));
}

#[test]
fn order_goes_by_the_instant_and_not_by_the_clock() {
    let s = TimeLoad {
        time: vec![Timestamp { secs: 100, offset: 3_600 }, Timestamp { secs: 200, offset: -3_600 }],
        load: vec![None; 2],
    };
    assert_eq!(s.is_ordered(), Ok(()));
}

#[test]
fn a_regular_series_passes_the_continuity_check() {
    let s = TimeLoad { time: (0..5).map(|i| at(T0 + 60 * i)).collect(), load: vec![None; 5] };
    assert_eq!(s.is_ordered_and_continuous(), Ok(()));
    assert_eq!(TimeLoad::new(0).is_ordered_and_continuous(), Ok(()));
    let two = TimeLoad { time: vec![at(0), at(7)], load: vec![None; 2] };
    assert_eq!(two.is_ordered_and_continuous(), Ok(()));
}

#[test]
fn the_first_uneven_step_is_named() {
    let s = TimeLoad { time: vec![at(0), at(60), at(120), at(240), at(250)], load: vec![None; 5] };
    assert_eq!(s.is_ordered_and_continuous(), Err(SeriesError::NotContinuous { index: 3 }));
}

#[test]
fn disorder_is_named_before_an_uneven_step_at_the_same_place() {
    let s = TimeLoad { time: vec![at(0), at(60), at(50), at(10)], load: vec![None; 4] };
    assert_eq!(s.is_ordered_and_continuous(), Err(SeriesError::NotOrdered { index: 2 }));
    let t = TimeLoad { time: vec![at(0), at(60), at(180), at(170)], load: vec![None; 4] };
    assert_eq!(t.is_ordered_and_continuous(), Err(SeriesError::NotContinuous { index: 2 }));
}

#[test]
fn a_new_series_is_empty() {
    let s = TimeLoad::new(16);
    assert!(s.time.is_empty());
    assert!(s.load.is_empty());
    let t = TimeLoad::new(usize::MAX);
    assert!(t.time.is_empty());
    assert!(t.load.is_empty());
}
