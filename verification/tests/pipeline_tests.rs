use flintec_lpp::pipeline::{process, Config, ProcessError};
use flintec_lpp::{SeriesError, TimeLoad, Timestamp, WindowError, SCALE};

fn load(x: f64) -> Option<i64> {
    Some((x * SCALE as f64).round() as i64)
}

fn at(secs: i64) -> Timestamp {
    Timestamp { secs, offset: 0 }
}

const T0: i64 = 1_636_243_200;

fn config(side: usize) -> Config {
    Config {
        side,
        central_weight: 2,
        side_weight: 1,
        max_missing_values: 1,
        max_missing_weight_pct: 50 * SCALE,
        min_load: 13_000 * SCALE,
        max_load: 15_000 * SCALE,
        error_floor: 999_994 * SCALE,
        bad_datetimes: None,
        bad_time_interval: None,
    }
}

#[test]
fn a_raw_series_is_masked_repaired_and_smoothed() {
    // one load out of range, and one step missing between the fifth and sixth sample
    let raw = TimeLoad {
        time: vec![at(T0), at(T0 + 60), at(T0 + 120), at(T0 + 180), at(T0 + 240), at(T0 + 360),
            at(T0 + 420), at(T0 + 480)],
        load: vec![load(14_000.0), load(14_000.0), load(20_000.0), load(14_000.0),
            load(14_000.0), load(14_400.0), load(14_000.0), load(14_000.0)],
    };
    let first = raw.time[0].secs;
    let last = raw.time[7].secs;
    let out = process(raw, config(1)).ok().unwrap();
    assert_eq!(out.series.time.len() as i64, (last - first) / 60 + 1);
    assert_eq!(out.series.time, (0..9).map(|i| at(T0 + 60 * i)).collect::<Vec<_>>());
    // every position has at most one missing load under its window, with at most half
    // of the weight: no missing load is left
    assert!(out.series.load.iter().all(|x| x.is_some()));
    assert_eq!(out.series.load[2], load(14_000.0));
    assert_eq!(out.series.load[4], load(14_000.0));
    assert_eq!(out.series.load[5], load(14_200.0));
    assert_eq!(out.series.load[6], Some(14_266_666_666));
    assert!(out.not_found.is_empty());
}

#[test]
fn too_much_missing_stays_missing() {
    let raw = TimeLoad {
        time: vec![at(T0), at(T0 + 60), at(T0 + 240), at(T0 + 300), at(T0 + 360)],
        load: vec![load(14_000.0); 5],
    };
    let out = process(raw, config(1)).ok().unwrap();
    assert_eq!(out.series.time.len(), 7);
    // two missing loads in a row: the positions between them see two missing loads or
    // more than half of the weight missing
    assert_eq!(out.series.load[2], None);
    assert_eq!(out.series.load[3], None);
    assert_eq!(out.series.load[1], load(14_000.0));
    assert_eq!(out.series.load[4], load(14_000.0));
}

#[test]
fn bad_timestamps_and_the_bad_interval_are_masked_in_the_pipeline() {
    let raw = TimeLoad {
        time: (0..6).map(|i| at(T0 + 60 * i)).collect(),
        load: vec![load(14_000.0), load(14_100.0), load(14_200.0), load(14_300.0),
            load(14_400.0), load(14_500.0)],
    };
    let mut c = config(0);
    c.bad_datetimes = Some(vec![at(T0 + 60), at(T0 + 61)]);
    c.bad_time_interval = Some((179, 181));
    let out = process(raw, c).ok().unwrap();
    assert_eq!(
        out.series.load,
        vec![load(14_000.0), None, load(14_200.0), None, load(14_400.0), load(14_500.0)]
    );
    assert_eq!(out.not_found, vec![at(T0 + 61)]);
}

#[test]
fn a_series_out_of_order_is_refused() {
    let raw = TimeLoad {
        time: vec![at(T0), at(T0 + 60), at(T0 + 60)],
        load: vec![load(14_000.0); 3],
    };
    assert_eq!(
        process(raw, config(1)).err(),
        Some(ProcessError::Series(SeriesError::NotOrdered { index: 2 }))
    );
}

#[test]
fn a_series_of_one_sample_is_refused() {
    let raw = TimeLoad { time: vec![at(T0)], load: vec![load(14_000.0)] };
    assert_eq!(process(raw, config(1)).err(), Some(ProcessError::TooShort));
    assert_eq!(process(TimeLoad::new(0), config(1)).err(), Some(ProcessError::TooShort));
}

#[test]
fn a_series_that_stays_uneven_is_refused() {
    let raw = TimeLoad {
        time: vec![at(0), at(2), at(5), at(7)],
        load: vec![load(14_000.0); 4],
    };
    assert_eq!(
        process(raw, config(1)).err(),
        Some(ProcessError::Series(SeriesError::NotContinuous { index: 3 }))
    );
}

#[test]
fn a_window_that_cannot_be_built_is_refused() {
    let raw = TimeLoad {
        time: (0..6).map(|i| at(T0 + 60 * i)).collect(),
        load: vec![load(14_000.0); 6],
    };
    let mut c = config(1);
    c.central_weight = 0;
    c.side_weight = 0;
    assert_eq!(process(raw, c).err(), Some(ProcessError::Window(WindowError::NoWeight)));
}

#[test]
fn a_window_as_long_as_the_series_is_refused() {
    let raw = TimeLoad {
        time: (0..5).map(|i| at(T0 + 60 * i)).collect(),
        load: vec![load(14_000.0); 5],
    };
    assert_eq!(process(raw, config(2)).err(), Some(ProcessError::WindowTooLong));
    let longer = TimeLoad {
        time: (0..6).map(|i| at(T0 + 60 * i)).collect(),
        load: vec![load(14_000.0); 6],
    };
    assert!(process(longer, config(2)).is_ok());
}
