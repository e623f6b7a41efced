//! What the masking rules guarantee: each may be applied twice without
//! further effect, and any two may be applied in either order.

use vstd::prelude::*;
use crate::masking::{datetimes_masked, errors_masked, interval_masked, outliers_masked};
use crate::timestamp::Timestamp;

verus! {

/// Masking the error codes twice is the same as masking them once.
pub proof fn lemma_errors_idempotent(load: Seq<Option<i64>>, max_value: i64)
    ensures
        errors_masked(errors_masked(load, max_value), max_value) == errors_masked(load, max_value),
{
    assert(errors_masked(errors_masked(load, max_value), max_value) =~= errors_masked(
        load,
        max_value,
    ));
}

/// Masking the outliers twice is the same as masking them once.
pub proof fn lemma_outliers_idempotent(load: Seq<Option<i64>>, min_load: i64, max_load: i64)
    ensures
        outliers_masked(outliers_masked(load, min_load, max_load), min_load, max_load)
            == outliers_masked(load, min_load, max_load),
{
    assert(outliers_masked(outliers_masked(load, min_load, max_load), min_load, max_load)
        =~= outliers_masked(load, min_load, max_load));
}

/// Masking a daily interval twice is the same as masking it once.
pub proof fn lemma_interval_idempotent(
    time: Seq<Timestamp>,
    load: Seq<Option<i64>>,
    time_init: u32,
    time_stop: u32,
)
    ensures
        interval_masked(time, interval_masked(time, load, time_init, time_stop), time_init, time_stop)
            == interval_masked(time, load, time_init, time_stop),
{
    assert(interval_masked(
        time,
        interval_masked(time, load, time_init, time_stop),
        time_init,
        time_stop,
    ) =~= interval_masked(time, load, time_init, time_stop));
}

/// Masking the bad timestamps twice is the same as masking them once.
pub proof fn lemma_datetimes_idempotent(
    time: Seq<Timestamp>,
    load: Seq<Option<i64>>,
    bad: Seq<Timestamp>,
)
    ensures
        datetimes_masked(time, datetimes_masked(time, load, bad), bad) == datetimes_masked(
            time,
            load,
            bad,
        ),
{
    assert(datetimes_masked(time, datetimes_masked(time, load, bad), bad) =~= datetimes_masked(
        time,
        load,
        bad,
    ));
}

/// Error codes and outliers may be masked in either order.
pub proof fn lemma_errors_outliers_commute(
    load: Seq<Option<i64>>,
    max_value: i64,
    min_load: i64,
    max_load: i64,
)
    ensures
        errors_masked(outliers_masked(load, min_load, max_load), max_value) == outliers_masked(
            errors_masked(load, max_value),
            min_load,
            max_load,
        ),
{
    assert(errors_masked(outliers_masked(load, min_load, max_load), max_value) =~= outliers_masked(
        errors_masked(load, max_value),
        min_load,
        max_load,
    ));
}

/// A daily interval and the error codes may be masked in either order.
pub proof fn lemma_interval_errors_commute(
    time: Seq<Timestamp>,
    load: Seq<Option<i64>>,
    time_init: u32,
    time_stop: u32,
    max_value: i64,
)
    ensures
        errors_masked(interval_masked(time, load, time_init, time_stop), max_value)
            == interval_masked(time, errors_masked(load, max_value), time_init, time_stop),
{
    assert(errors_masked(interval_masked(time, load, time_init, time_stop), max_value)
        =~= interval_masked(time, errors_masked(load, max_value), time_init, time_stop));
}

/// A daily interval and the outliers may be masked in either order.
pub proof fn lemma_interval_outliers_commute(
    time: Seq<Timestamp>,
    load: Seq<Option<i64>>,
    time_init: u32,
    time_stop: u32,
    min_load: i64,
    max_load: i64,
)
    ensures
        outliers_masked(interval_masked(time, load, time_init, time_stop), min_load, max_load)
            == interval_masked(
            time,
            outliers_masked(load, min_load, max_load),
            time_init,
            time_stop,
        ),
{
    assert(outliers_masked(interval_masked(time, load, time_init, time_stop), min_load, max_load)
        =~= interval_masked(
        time,
        outliers_masked(load, min_load, max_load),
        time_init,
        time_stop,
    ));
}

/// The bad timestamps and the error codes may be masked in either order.
pub proof fn lemma_datetimes_errors_commute(
    time: Seq<Timestamp>,
    load: Seq<Option<i64>>,
    bad: Seq<Timestamp>,
    max_value: i64,
)
    ensures
        errors_masked(datetimes_masked(time, load, bad), max_value) == datetimes_masked(
            time,
            errors_masked(load, max_value),
            bad,
        ),
{
    assert(errors_masked(datetimes_masked(time, load, bad), max_value) =~= datetimes_masked(
        time,
        errors_masked(load, max_value),
        bad,
    ));
}

/// The bad timestamps and the outliers may be masked in either order.
pub proof fn lemma_datetimes_outliers_commute(
    time: Seq<Timestamp>,
    load: Seq<Option<i64>>,
    bad: Seq<Timestamp>,
    min_load: i64,
    max_load: i64,
)
    ensures
        outliers_masked(datetimes_masked(time, load, bad), min_load, max_load) == datetimes_masked(
            time,
            outliers_masked(load, min_load, max_load),
            bad,
        ),
{
    assert(outliers_masked(datetimes_masked(time, load, bad), min_load, max_load)
        =~= datetimes_masked(time, outliers_masked(load, min_load, max_load), bad));
}

/// The bad timestamps and a daily interval may be masked in either order.
pub proof fn lemma_datetimes_interval_commute(
    time: Seq<Timestamp>,
    load: Seq<Option<i64>>,
    bad: Seq<Timestamp>,
    time_init: u32,
    time_stop: u32,
)
    ensures
        interval_masked(time, datetimes_masked(time, load, bad), time_init, time_stop)
            == datetimes_masked(time, interval_masked(time, load, time_init, time_stop), bad),
{
    assert(interval_masked(time, datetimes_masked(time, load, bad), time_init, time_stop)
        =~= datetimes_masked(time, interval_masked(time, load, time_init, time_stop), bad));
}

} // verus!
