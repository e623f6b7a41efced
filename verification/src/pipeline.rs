//! The whole transformation of a raw series: mask, repair, smooth.

use vstd::prelude::*;
use crate::masking::{
    datetimes_masked, datetimes_not_found, errors_masked, interval_masked, outliers_masked,
};
use crate::repair::{canonical_step, repair_loads, repair_times};
use crate::series::{continuous, ordered, step_at, SeriesError, TimeLoad};
use crate::smoothing::{mavg, neighbourhood, smoothed};
use crate::timestamp::Timestamp;
use crate::window::{make_window, window_for, WindowError};

verus! {

/// The parameters of the transformation. Loads and the percentage are
/// fixed-point numbers of millionths; of the two weights only the ratio
/// matters.
pub struct Config {
    /// The half-width of the smoothing window.
    pub side: usize,
    /// The weight at the centre of the window.
    pub central_weight: u64,
    /// The weight at both edges of the window.
    pub side_weight: u64,
    /// How many loads under the window may be missing.
    pub max_missing_values: usize,
    /// How much of the window's weight may fall on missing loads, in percent.
    pub max_missing_weight_pct: i64,
    /// The smallest load that is accepted.
    pub min_load: i64,
    /// The largest load that is accepted.
    pub max_load: i64,
    /// The largest value that is no error code.
    pub error_floor: i64,
    /// Timestamps whose loads are to be taken out.
    pub bad_datetimes: Option<Vec<Timestamp>>,
    /// The daily interval, in seconds from midnight, whose loads are to be
    /// taken out.
    pub bad_time_interval: Option<(u32, u32)>,
}

/// Why a series could not be transformed.
#[derive(Clone, Copy, Debug, PartialEq, Eq, Structural)]
pub enum ProcessError {
    /// The series has fewer than two samples, so it has no step.
    TooShort,
    /// The timestamps are out of order, or still not evenly spaced after the
    /// repair.
    Series(SeriesError),
    /// No window could be built.
    Window(WindowError),
    /// The window has at least as many weights as the repaired series has
    /// samples.
    WindowTooLong,
}

/// The result of the transformation.
pub struct Processed {
    /// The repaired and smoothed series.
    pub series: TimeLoad,
    /// The bad timestamps at whose instant the raw series had no sample.
    pub not_found: Vec<Timestamp>,
}

/// The loads after all masking rules that the parameters ask for.
pub open spec fn masked_loads(time: Seq<Timestamp>, load: Seq<Option<i64>>, config: Config) -> Seq<
    Option<i64>,
> {
    let by_datetime = match config.bad_datetimes {
        Some(bad) => datetimes_masked(time, load, bad@),
        None => load,
    };
    let by_interval = match config.bad_time_interval {
        Some((time_init, time_stop)) => interval_masked(time, by_datetime, time_init, time_stop),
        None => by_datetime,
    };
    outliers_masked(
        errors_masked(by_interval, config.error_floor),
        config.min_load,
        config.max_load,
    )
}

/// Transform a raw series: mask its invalid loads, repair its spacing, and
/// smooth it.
///
/// The timestamps must be in order and at least two. The loads at the bad
/// timestamps and in the bad daily interval, the error codes and the outliers
/// are taken out. The gaps are then filled with missing loads at the smallest
/// step of the series; a series that is not evenly spaced after that, because
/// one of its steps is no whole number of smallest steps, is refused. At last
/// every load is replaced by the weighted mean of the loads under the window
/// around it.
pub fn process(raw: TimeLoad, config: Config) -> (done: Result<Processed, ProcessError>)
    requires
        raw.wf(),
    ensures
        match done {
            Ok(out) => {
                &&& raw.time.len() >= 2
                &&& ordered(raw.time@)
                &&& continuous(repair_times(raw.time@))
                &&& out.series.wf()
                &&& out.series.time@ == repair_times(raw.time@)
                &&& out.series.time.len() == (raw.time@.last().secs - raw.time[0].secs)
                    / canonical_step(raw.time@) + 1
                &&& out.not_found@ == match config.bad_datetimes {
                    Some(bad) => datetimes_not_found(raw.time@, bad@),
                    None => Seq::empty(),
                }
                &&& window_for(config.central_weight, config.side_weight, config.side) is Ok
                &&& 2 * config.side + 1 < out.series.load.len()
                &&& forall|i: int|
                    0 <= i < out.series.load.len() ==> #[trigger] out.series.load[i] == smoothed(
                        neighbourhood(
                            repair_loads(raw.time@, masked_loads(raw.time@, raw.load@, config)),
                            i,
                            config.side as int,
                        ),
                        window_for(config.central_weight, config.side_weight, config.side).unwrap(),
                        config.max_missing_values as int,
                        config.max_missing_weight_pct as int,
                    )
            },
            Err(ProcessError::Series(SeriesError::NotOrdered { index })) => {
                &&& 1 <= index < raw.time.len()
                &&& ordered(raw.time@.take(index as int))
                &&& raw.time[index as int].secs <= raw.time[index - 1].secs
            },
            Err(ProcessError::TooShort) => raw.time.len() < 2,
            Err(ProcessError::Series(SeriesError::NotContinuous { index })) => {
                &&& raw.time.len() >= 2
                &&& ordered(raw.time@)
                &&& !continuous(repair_times(raw.time@))
                &&& 2 <= index < repair_times(raw.time@).len()
                &&& continuous(repair_times(raw.time@).take(index as int))
                &&& step_at(repair_times(raw.time@), index - 1) != step_at(
                    repair_times(raw.time@),
                    index - 2,
                )
            },
            Err(ProcessError::Window(e)) => {
                &&& raw.time.len() >= 2
                &&& ordered(raw.time@)
                &&& continuous(repair_times(raw.time@))
                &&& window_for(config.central_weight, config.side_weight, config.side) == Err::<
                    Seq<u64>,
                    WindowError,
                >(e)
            },
            Err(ProcessError::WindowTooLong) => {
                &&& raw.time.len() >= 2
                &&& ordered(raw.time@)
                &&& continuous(repair_times(raw.time@))
                &&& window_for(config.central_weight, config.side_weight, config.side) is Ok
                &&& 2 * config.side + 1 >= repair_times(raw.time@).len()
            },
        },
{
    let mut series = raw;
    match series.is_ordered() {
        Err(e) => {
            return Err(ProcessError::Series(e));
        },
        Ok(_) => {},
    }
    if series.time.len() < 2 {
        return Err(ProcessError::TooShort);
    }
    let not_found: Vec<Timestamp> = match config.bad_datetimes {
        Some(bad) => series.replace_bad_datetimes_with_nan(bad),
        None => Vec::new(),
    };
    match config.bad_time_interval {
        Some((time_init, time_stop)) => {
            series.replace_bad_time_interval_with_nan(time_init, time_stop);
        },
        None => {},
    }
    series.replace_errors_with_nan(config.error_floor);
    series.replace_outliers_with_nan(config.min_load, config.max_load);
    assert(series.load@ == masked_loads(raw.time@, raw.load@, config));
    let mut filled: TimeLoad = series.fill_missing_with_nan();
    match filled.is_ordered_and_continuous() {
        Err(e) => {
            proof {
                crate::repair_laws::lemma_repair_ordered(raw.time@);
                if let SeriesError::NotOrdered { index } = e {
                    assert(step_at(filled.time@, index - 1) > 0);
                }
            }
            return Err(ProcessError::Series(e));
        },
        Ok(_) => {},
    }
    let window: Vec<u64> = match make_window(
        config.central_weight,
        config.side_weight,
        config.side,
    ) {
        Err(e) => {
            return Err(ProcessError::Window(e));
        },
        Ok(w) => w,
    };
    if window.len() >= filled.load.len() {
        return Err(ProcessError::WindowTooLong);
    }
    let smooth: Vec<Option<i64>> = mavg(
        filled.load.as_slice(),
        window.as_slice(),
        config.max_missing_values,
        config.max_missing_weight_pct,
    );
    filled.load = smooth;
    proof {
        crate::repair_laws::lemma_repair_length(raw.time@);
    }
    Ok(Processed { series: filled, not_found })
}

} // verus!
