//! Masking rules: each turns the loads that it finds invalid into missing
//! loads and leaves the timestamps, and every other load, as they are.

use vstd::prelude::*;
use crate::series::TimeLoad;
use crate::timestamp::Timestamp;

verus! {

/// The loads with every value above `max_value` taken out.
pub open spec fn errors_masked(load: Seq<Option<i64>>, max_value: i64) -> Seq<Option<i64>> {
    Seq::new(
        load.len(),
        |i: int|
            match load[i] {
                Some(x) => if x > max_value {
                    None
                } else {
                    Some(x)
                },
                None => None,
            },
    )
}

/// The loads with every value above `max_load` or below `min_load` taken out.
pub open spec fn outliers_masked(load: Seq<Option<i64>>, min_load: i64, max_load: i64) -> Seq<
    Option<i64>,
> {
    Seq::new(
        load.len(),
        |i: int|
            match load[i] {
                Some(x) => if x > max_load || x < min_load {
                    None
                } else {
                    Some(x)
                },
                None => None,
            },
    )
}

/// Whether the local time of day of `t` lies after `time_init` and before
/// `time_stop`, both in seconds from midnight and both excluded.
pub open spec fn in_daily_interval(t: Timestamp, time_init: u32, time_stop: u32) -> bool {
    time_init < t.spec_time_of_day() < time_stop
}

/// The loads with every sample taken out whose time of day lies inside the
/// daily interval. A load without a timestamp stays.
pub open spec fn interval_masked(
    time: Seq<Timestamp>,
    load: Seq<Option<i64>>,
    time_init: u32,
    time_stop: u32,
) -> Seq<Option<i64>> {
    Seq::new(
        load.len(),
        |i: int|
            if i < time.len() && in_daily_interval(time[i], time_init, time_stop) {
                None
            } else {
                load[i]
            },
    )
}

/// Whether some sample of the series was taken at the instant `secs`.
pub open spec fn instant_present(time: Seq<Timestamp>, secs: i64) -> bool {
    exists|i: int| 0 <= i < time.len() && (#[trigger] time[i]).secs == secs
}

/// Whether sample `i` is the first of the series at its instant, and that
/// instant is among `bad`.
pub open spec fn first_at_bad_instant(time: Seq<Timestamp>, bad: Seq<Timestamp>, i: int) -> bool {
    &&& 0 <= i < time.len()
    &&& exists|k: int| 0 <= k < bad.len() && (#[trigger] bad[k]).secs == time[i].secs
    &&& forall|j: int| 0 <= j < i ==> (#[trigger] time[j]).secs != time[i].secs
}

/// The loads with, for each instant among `bad`, the first sample taken at
/// that instant taken out.
pub open spec fn datetimes_masked(
    time: Seq<Timestamp>,
    load: Seq<Option<i64>>,
    bad: Seq<Timestamp>,
) -> Seq<Option<i64>> {
    Seq::new(
        load.len(),
        |i: int|
            if first_at_bad_instant(time, bad, i) {
                None
            } else {
                load[i]
            },
    )
}

/// Those of `bad`, in their order, at whose instant the series has no sample.
pub open spec fn datetimes_not_found(time: Seq<Timestamp>, bad: Seq<Timestamp>) -> Seq<Timestamp> {
    bad.filter(|b: Timestamp| !instant_present(time, b.secs))
}

impl TimeLoad {
    /// The index of the first sample taken at the instant `secs`, if any.
    pub fn position(&self, secs: i64) -> (found: Option<usize>)
        ensures
            match found {
                Some(i) => {
                    &&& i < self.time.len()
                    &&& self.time[i as int].secs == secs
                    &&& forall|j: int| 0 <= j < i ==> (#[trigger] self.time[j]).secs != secs
                },
                None => !instant_present(self.time@, secs),
            },
    {
        let mut i: usize = 0;
        while i < self.time.len()
            invariant
                i <= self.time.len(),
                forall|j: int| 0 <= j < i ==> (#[trigger] self.time[j]).secs != secs,
            decreases self.time.len() - i,
        {
            if self.time[i].secs == secs {
                return Some(i);
            }
            i += 1;
        }
        None
    }

    /// Take out the load of the sample at each of the bad timestamps.
    ///
    /// A bad timestamp is looked up by its instant, whatever its offset, and
    /// the first sample at that instant loses its load. The bad timestamps at
    /// whose instant the series has no sample are handed back, in their order:
    /// that is no failure, the series may never have had that slot.
    pub fn replace_bad_datetimes_with_nan(&mut self, bad_datetimes: Vec<Timestamp>) -> (not_found:
        Vec<Timestamp>)
        requires
            old(self).wf(),
        ensures
            final(self).wf(),
            final(self).time@ == old(self).time@,
            final(self).load@ == datetimes_masked(
                old(self).time@,
                old(self).load@,
                bad_datetimes@,
            ),
            not_found@ == datetimes_not_found(old(self).time@, bad_datetimes@),
    {
        let ghost time = self.time@;
        let ghost load = self.load@;
        let ghost pred = |b: Timestamp| !instant_present(time, b.secs);
        let mut not_found: Vec<Timestamp> = Vec::new();
        let mut m: usize = 0;
        assert(bad_datetimes@.take(0) =~= Seq::<Timestamp>::empty());
        assert(self.load@ =~= datetimes_masked(time, load, bad_datetimes@.take(0)));
        assert(Seq::<Timestamp>::empty().filter(pred) =~= Seq::<Timestamp>::empty()) by {
            reveal(Seq::filter);
        }
        while m < bad_datetimes.len()
            invariant
                m <= bad_datetimes.len(),
                self.time@ == time,
                self.load.len() == time.len(),
                load.len() == time.len(),
                pred == |b: Timestamp| !instant_present(time, b.secs),
                self.load@ == datetimes_masked(time, load, bad_datetimes@.take(m as int)),
                not_found@ == bad_datetimes@.take(m as int).filter(pred),
            decreases bad_datetimes.len() - m,
        {
            let bdt: Timestamp = bad_datetimes[m];
            let ghost seen = bad_datetimes@.take(m as int);
            let ghost next = bad_datetimes@.take(m + 1);
            proof {
                assert(next =~= seen.push(bdt));
                seen.lemma_filter_push(bdt, pred);
            }
            match self.position(bdt.secs) {
                Some(i) => {
                    self.load[i] = None;
                    proof {
                        assert(instant_present(time, bdt.secs));
                        assert(next[m as int].secs == time[i as int].secs);
                        assert(first_at_bad_instant(time, next, i as int));
                        assert forall|p: int| 0 <= p < time.len() implies first_at_bad_instant(
                            time,
                            next,
                            p,
                        ) == (p == i || first_at_bad_instant(time, seen, p)) by {
                            if first_at_bad_instant(time, seen, p) {
                                let k = choose|k: int|
                                    0 <= k < seen.len() && (#[trigger] seen[k]).secs
                                        == time[p].secs;
                                assert(next[k].secs == time[p].secs);
                            }
                            if first_at_bad_instant(time, next, p) && p != i {
                                let k = choose|k: int|
                                    0 <= k < next.len() && (#[trigger] next[k]).secs
                                        == time[p].secs;
                                if k == m {
                                    assert(time[p].secs == time[i as int].secs);
                                    if p < i {
                                        assert(time[p].secs != bdt.secs);
                                    } else {
                                        assert(time[i as int].secs != time[p].secs);
                                    }
                                } else {
                                    assert(seen[k].secs == time[p].secs);
                                }
                            }
                        }
                        assert(self.load@ =~= datetimes_masked(time, load, next));
                    }
                },
                None => {
                    not_found.push(bdt);
                    proof {
                        assert forall|p: int| 0 <= p < time.len() implies first_at_bad_instant(
                            time,
                            next,
                            p,
                        ) == first_at_bad_instant(time, seen, p) by {
                            if first_at_bad_instant(time, seen, p) {
                                let k = choose|k: int|
                                    0 <= k < seen.len() && (#[trigger] seen[k]).secs
                                        == time[p].secs;
                                assert(next[k].secs == time[p].secs);
                            }
                            if first_at_bad_instant(time, next, p) {
                                let k = choose|k: int|
                                    0 <= k < next.len() && (#[trigger] next[k]).secs
                                        == time[p].secs;
                                if k == m {
                                    assert(time[p].secs == bdt.secs);
                                } else {
                                    assert(seen[k].secs == time[p].secs);
                                }
                            }
                        }
                        assert(self.load@ =~= datetimes_masked(time, load, next));
                    }
                },
            }
            m += 1;
        }
        assert(bad_datetimes@.take(m as int) =~= bad_datetimes@);
        not_found
    }

    /// Take out every load measured at a time of day inside the daily interval
    /// from `time_init` to `time_stop`, both given in seconds from midnight on
    /// the clock of the sample and both excluded, whatever the date.
    pub fn replace_bad_time_interval_with_nan(&mut self, time_init: u32, time_stop: u32)
        ensures
            final(self).time@ == old(self).time@,
            final(self).load@ == interval_masked(
                old(self).time@,
                old(self).load@,
                time_init,
                time_stop,
            ),
    {
        let ghost time = self.time@;
        let ghost load = self.load@;
        let n: usize = if self.time.len() < self.load.len() {
            self.time.len()
        } else {
            self.load.len()
        };
        let mut i: usize = 0;
        while i < n
            invariant
                i <= n,
                n <= time.len(),
                n <= load.len(),
                self.time@ == time,
                self.load.len() == load.len(),
                forall|p: int|
                    0 <= p < i ==> #[trigger] self.load[p] == interval_masked(
                        time,
                        load,
                        time_init,
                        time_stop,
                    )[p],
                forall|p: int| i <= p < load.len() ==> #[trigger] self.load[p] == load[p],
            decreases n - i,
        {
            let tod: u32 = self.time[i].time_of_day();
            if tod > time_init && tod < time_stop {
                self.load[i] = None;
            }
            i += 1;
        }
        assert(self.load@ =~= interval_masked(time, load, time_init, time_stop));
    }

    /// Take out every load above `max_load` or below `min_load`.
    pub fn replace_outliers_with_nan(&mut self, min_load: i64, max_load: i64)
        ensures
            final(self).time@ == old(self).time@,
            final(self).load@ == outliers_masked(old(self).load@, min_load, max_load),
    {
        let ghost load = self.load@;
        let mut i: usize = 0;
        while i < self.load.len()
            invariant
                i <= load.len(),
                self.time@ == old(self).time@,
                self.load.len() == load.len(),
                forall|p: int|
                    0 <= p < i ==> #[trigger] self.load[p] == outliers_masked(
                        load,
                        min_load,
                        max_load,
                    )[p],
                forall|p: int| i <= p < load.len() ==> #[trigger] self.load[p] == load[p],
            decreases load.len() - i,
        {
            match self.load[i] {
                Some(x) => {
                    if x > max_load || x < min_load {
                        self.load[i] = None;
                    }
                },
                None => {},
            }
            i += 1;
        }
        assert(self.load@ =~= outliers_masked(load, min_load, max_load));
    }

    /// Take out every load above `max_value`: the source reports its faults as
    /// values above any load that it can measure.
    pub fn replace_errors_with_nan(&mut self, max_value: i64)
        ensures
            final(self).time@ == old(self).time@,
            final(self).load@ == errors_masked(old(self).load@, max_value),
    {
        let ghost load = self.load@;
        let mut i: usize = 0;
        while i < self.load.len()
            invariant
                i <= load.len(),
                self.time@ == old(self).time@,
                self.load.len() == load.len(),
                forall|p: int|
                    0 <= p < i ==> #[trigger] self.load[p] == errors_masked(load, max_value)[p],
                forall|p: int| i <= p < load.len() ==> #[trigger] self.load[p] == load[p],
            decreases load.len() - i,
        {
            match self.load[i] {
                Some(x) => {
                    if x > max_value {
                        self.load[i] = None;
                    }
                },
                None => {},
            }
            i += 1;
        }
        assert(self.load@ =~= errors_masked(load, max_value));
    }
}

} // verus!
