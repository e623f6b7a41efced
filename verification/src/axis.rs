//! Helpers for laying out a chart of the series.

use vstd::prelude::*;
use crate::series::TimeLoad;

verus! {

/// Seconds in one day.
pub const DAY_SECS: i64 = 86_400;

/// Seconds in one week.
pub const WEEK_SECS: i64 = 604_800;

/// The label format for a time axis that spans `span_secs` seconds.
///
/// A span of more than a week is labelled by date only, a span of more than a
/// day by date and hour, and anything shorter by day, hour and minute.
pub fn suitable_xfmt(span_secs: i64) -> (xfmt: &'static str)
    ensures
        span_secs > WEEK_SECS ==> xfmt@ == "%y-%m-%d"@,
        DAY_SECS < span_secs <= WEEK_SECS ==> xfmt@ == "%m-%d %H"@,
        span_secs <= DAY_SECS ==> xfmt@ == "%d %H:%M"@,
{
    if span_secs > WEEK_SECS {
        "%y-%m-%d"
    } else if span_secs > DAY_SECS {
        "%m-%d %H"
    } else {
        "%d %H:%M"
    }
}

/// The smallest and the largest of the numbers.
pub fn min_and_max(s: &[i64]) -> (range: (i64, i64))
    requires
        s.len() > 0,
    ensures
        forall|i: int| 0 <= i < s.len() ==> range.0 <= #[trigger] s[i] <= range.1,
        exists|i: int| 0 <= i < s.len() && #[trigger] s[i] == range.0,
        exists|i: int| 0 <= i < s.len() && #[trigger] s[i] == range.1,
{
    let mut min: i64 = s[0];
    let mut max: i64 = s[0];
    let mut k: usize = 1;
    while k < s.len()
        invariant
            1 <= k <= s.len(),
            forall|i: int| 0 <= i < k ==> min <= #[trigger] s[i] <= max,
            exists|i: int| 0 <= i < k && #[trigger] s[i] == min,
            exists|i: int| 0 <= i < k && #[trigger] s[i] == max,
        decreases s.len() - k,
    {
        if s[k] > max {
            max = s[k];
        } else if s[k] < min {
            min = s[k];
        }
        k += 1;
    }
    (min, max)
}

/// The range of a value axis for loads from `min` to `max`: a tenth of their
/// span, rounded down, is added as a margin below and above.
pub fn axis_range(min: i64, max: i64) -> (range: (i128, i128))
    requires
        min <= max,
    ensures
        range.0 == min - (max - min) / 10,
        range.1 == max + (max - min) / 10,
{
    let span: i128 = max as i128 - min as i128;
    let margin: i128 = span / 10;
    (min as i128 - margin, max as i128 + margin)
}

/// Whether the loads from index `from` up to, and without, index `to` are all
/// present, and the run cannot be made longer at either end.
pub open spec fn is_present_run(load: Seq<Option<i64>>, from: int, to: int) -> bool {
    &&& 0 <= from < to <= load.len()
    &&& forall|i: int| from <= i < to ==> (#[trigger] load[i]) is Some
    &&& from > 0 ==> load[from - 1] is None
    &&& to < load.len() ==> load[to] is None
}

impl TimeLoad {
    /// The loads that are present, in their order.
    pub fn present_loads(&self) -> (present: Vec<i64>)
        ensures
            present@ == self.load@.filter(|x: Option<i64>| x is Some).map_values(
                |x: Option<i64>| x.unwrap(),
            ),
    {
        let ghost pred = |x: Option<i64>| x is Some;
        let ghost get = |x: Option<i64>| x.unwrap();
        let mut present: Vec<i64> = Vec::new();
        let mut i: usize = 0;
        assert(self.load@.take(0).filter(pred) =~= Seq::<Option<i64>>::empty()) by {
            reveal(Seq::filter);
        }
        assert(present@ =~= self.load@.take(0).filter(pred).map_values(get));
        while i < self.load.len()
            invariant
                i <= self.load.len(),
                pred == |x: Option<i64>| x is Some,
                get == |x: Option<i64>| x.unwrap(),
                present@ == self.load@.take(i as int).filter(pred).map_values(get),
            decreases self.load.len() - i,
        {
            proof {
                assert(self.load@.take(i + 1) =~= self.load@.take(i as int).push(
                    self.load[i as int],
                ));
                self.load@.take(i as int).lemma_filter_push(self.load[i as int], pred);
            }
            match self.load[i] {
                Some(x) => {
                    present.push(x);
                    assert(present@ =~= self.load@.take(i + 1).filter(pred).map_values(get));
                },
                None => {},
            }
            i += 1;
        }
        assert(self.load@.take(i as int) =~= self.load@);
        present
    }

    /// The stretches of present loads, each as the index where it starts and
    /// the index where it ends, the end excluded.
    ///
    /// A missing load breaks the line of a chart: each stretch is drawn on its
    /// own, and nothing is drawn across the missing loads between two of them.
    pub fn present_runs(&self) -> (runs: Vec<(usize, usize)>)
        ensures
            forall|k: int|
                0 <= k < runs.len() ==> is_present_run(
                    self.load@,
                    (#[trigger] runs[k]).0 as int,
                    runs[k].1 as int,
                ),
            forall|k: int, m: int| 0 <= k < m < runs.len() ==> runs[k].1 < runs[m].0,
            forall|i: int|
                0 <= i < self.load.len() && (#[trigger] self.load[i]) is Some ==> exists|k: int|
                    0 <= k < runs.len() && (#[trigger] runs[k]).0 <= i < runs[k].1,
    {
        let n: usize = self.load.len();
        let mut runs: Vec<(usize, usize)> = Vec::new();
        let mut i: usize = 0;
        while i < n
            invariant
                n == self.load.len(),
                i <= n,
                i > 0 && i < n ==> self.load[i - 1] is None,
                forall|k: int|
                    0 <= k < runs.len() ==> is_present_run(
                        self.load@,
                        (#[trigger] runs[k]).0 as int,
                        runs[k].1 as int,
                    ),
                forall|k: int|
                    0 <= k < runs.len() ==> (#[trigger] runs[k]).1 < i || (runs[k].1 == i && i
                        == n),
                forall|k: int, m: int| 0 <= k < m < runs.len() ==> runs[k].1 < runs[m].0,
                forall|p: int|
                    0 <= p < i && (#[trigger] self.load[p]) is Some ==> exists|k: int|
                        0 <= k < runs.len() && (#[trigger] runs[k]).0 <= p < runs[k].1,
            decreases n - i,
        {
            if self.load[i].is_none() {
                i += 1;
            } else {
                let from: usize = i;
                while i < n && self.load[i].is_some()
                    invariant
                        n == self.load.len(),
                        from <= i <= n,
                        from < n,
                        self.load[from as int] is Some,
                        forall|p: int| from <= p < i ==> (#[trigger] self.load[p]) is Some,
                    decreases n - i,
                {
                    i += 1;
                }
                let ghost before = runs@;
                runs.push((from, i));
                proof {
                    assert(runs[before.len() as int] == (from, i));
                    assert forall|p: int| 0 <= p < i && (#[trigger] self.load[p]) is Some implies exists|
                        k: int,
                    | 0 <= k < runs.len() && (#[trigger] runs[k]).0 <= p < runs[k].1 by {
                        if p < from {
                            let k = choose|k: int|
                                0 <= k < before.len() && (#[trigger] before[k]).0 <= p
                                    < before[k].1;
                            assert(runs[k] == before[k]);
                        } else {
                            assert(runs[before.len() as int].0 <= p < runs[before.len() as int].1);
                        }
                    }
                }
                if i < n {
                    i += 1;
                }
            }
        }
        runs
    }
}

} // verus!
