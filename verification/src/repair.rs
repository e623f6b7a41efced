//! Continuity repair: fill the gaps of a series with missing loads, so that
//! its timestamps step evenly.

use vstd::prelude::*;
use vstd::arithmetic::div_mod::lemma_fundamental_div_mod_converse;
use crate::series::{ordered, step_at, TimeLoad};
use crate::timestamp::Timestamp;

verus! {

/// The smallest of the first `n` steps between neighbours.
pub open spec fn min_step(t: Seq<Timestamp>, n: int) -> int
    decreases n,
{
    if n <= 1 {
        step_at(t, 0)
    } else {
        let before = min_step(t, n - 1);
        let last = step_at(t, n - 1);
        if last < before {
            last
        } else {
            before
        }
    }
}

/// The step of the repaired series: the smallest step between neighbours
/// anywhere in `t`.
pub open spec fn canonical_step(t: Seq<Timestamp>) -> int {
    min_step(t, t.len() - 1)
}

/// How many timestamps are put in between `from` and `to`, going from `from`
/// in steps of `step` and staying before `to`.
pub open spec fn gap_count(from: int, to: int, step: int) -> int {
    (to - from - 1) / step
}

/// A sample's timestamp, followed by the timestamps put in between it and the
/// next sample at `next`.
pub open spec fn filled_times(t: Timestamp, next: int, step: int) -> Seq<Timestamp> {
    Seq::new(
        (1 + gap_count(t.secs as int, next, step)) as nat,
        |k: int| Timestamp { secs: (t.secs + k * step) as i64, offset: t.offset },
    )
}

/// A sample's load, followed by a missing load for each timestamp put in
/// between it and the next sample at `next`.
pub open spec fn filled_loads(t: Timestamp, v: Option<i64>, next: int, step: int) -> Seq<
    Option<i64>,
> {
    Seq::new(
        (1 + gap_count(t.secs as int, next, step)) as nat,
        |k: int|
            if k == 0 {
                v
            } else {
                None
            },
    )
}

/// The repaired timestamps up to, and without, sample `n` of `t`.
pub open spec fn repaired_times(t: Seq<Timestamp>, step: int, n: int) -> Seq<Timestamp>
    decreases n,
{
    if n <= 0 {
        Seq::empty()
    } else {
        repaired_times(t, step, n - 1) + filled_times(t[n - 1], t[n].secs as int, step)
    }
}

/// The repaired loads up to, and without, sample `n`.
pub open spec fn repaired_loads(
    t: Seq<Timestamp>,
    v: Seq<Option<i64>>,
    step: int,
    n: int,
) -> Seq<Option<i64>>
    decreases n,
{
    if n <= 0 {
        Seq::empty()
    } else {
        repaired_loads(t, v, step, n - 1) + filled_loads(t[n - 1], v[n - 1], t[n].secs as int, step)
    }
}

/// The timestamps of the repaired series.
pub open spec fn repair_times(t: Seq<Timestamp>) -> Seq<Timestamp> {
    repaired_times(t, canonical_step(t), t.len() - 1).push(t.last())
}

/// The loads of the repaired series.
pub open spec fn repair_loads(t: Seq<Timestamp>, v: Seq<Option<i64>>) -> Seq<Option<i64>> {
    repaired_loads(t, v, canonical_step(t), t.len() - 1).push(v.last())
}

/// The smallest step is a step of the series, and no step is smaller.
pub proof fn lemma_min_step(t: Seq<Timestamp>, n: int)
    requires
        1 <= n <= t.len() - 1,
    ensures
        forall|i: int| 0 <= i < n ==> min_step(t, n) <= #[trigger] step_at(t, i),
        exists|i: int| 0 <= i < n && min_step(t, n) == #[trigger] step_at(t, i),
    decreases n,
{
    if n > 1 {
        lemma_min_step(t, n - 1);
        let w = choose|i: int| 0 <= i < n - 1 && min_step(t, n - 1) == #[trigger] step_at(t, i);
        if step_at(t, n - 1) < min_step(t, n - 1) {
            assert(min_step(t, n) == step_at(t, n - 1));
        } else {
            assert(min_step(t, n) == step_at(t, w));
        }
    } else {
        assert(min_step(t, n) == step_at(t, 0));
    }
}

/// The number of timestamps put into a gap, from how far the walk got.
proof fn lemma_gap_count(from: int, to: int, step: int, k: int)
    requires
        step >= 1,
        k >= 0,
        from + k * step < to,
        from + k * step + step >= to,
    ensures
        gap_count(from, to, step) == k,
{
    let r = to - from - 1 - k * step;
    assert(to - from - 1 == step * k + r) by (nonlinear_arith)
        requires
            r == to - from - 1 - k * step,
    ;
    lemma_fundamental_div_mod_converse(to - from - 1, step, k, r);
}

impl TimeLoad {
    /// Fill the gaps of the series with missing loads.
    ///
    /// The step of the result is the smallest step between neighbours in the
    /// series. Each sample is kept with its load. After it, as long as the
    /// next sample is more than one step away, a missing load is put in one
    /// step later, on the clock of the sample before the gap.
    pub fn fill_missing_with_nan(&self) -> (filled: TimeLoad)
        requires
            self.wf(),
            self.time.len() >= 2,
            ordered(self.time@),
        ensures
            filled.wf(),
            filled.time@ == repair_times(self.time@),
            filled.load@ == repair_loads(self.time@, self.load@),
    {
        let n: usize = self.time.len();
        let ghost t = self.time@;
        let ghost v = self.load@;
        let mut min_delta: i128 = self.time[1].secs as i128 - self.time[0].secs as i128;
        let mut p: usize = 2;
        assert(step_at(t, 0) > 0);
        while p < n
            invariant
                n == self.time.len(),
                t == self.time@,
                2 <= p <= n,
                ordered(t),
                min_delta == min_step(t, p - 1),
                1 <= min_delta <= u64::MAX,
            decreases n - p,
        {
            let step: i128 = self.time[p].secs as i128 - self.time[p - 1].secs as i128;
            assert(step == step_at(t, p - 1));
            if step < min_delta {
                min_delta = step;
            }
            p += 1;
        }
        let mut filled = TimeLoad::new(n);
        let mut i: usize = 0;
        while i < n - 1
            invariant
                n == self.time.len(),
                n == self.load.len(),
                n >= 2,
                t == self.time@,
                v == self.load@,
                i <= n - 1,
                ordered(t),
                min_delta == canonical_step(t),
                1 <= min_delta <= u64::MAX,
                filled.time@ == repaired_times(t, min_delta as int, i as int),
                filled.load@ == repaired_loads(t, v, min_delta as int, i as int),
            decreases n - 1 - i,
        {
            let start: Timestamp = self.time[i];
            let next: i64 = self.time[i + 1].secs;
            let ghost base_times = filled.time@;
            let ghost base_loads = filled.load@;
            assert(step_at(t, i as int) > 0);
            filled.time.push(start);
            filled.load.push(self.load[i]);
            let mut current: i64 = start.secs;
            let ghost mut k: int = 0;
            assert(filled.time@ =~= base_times + Seq::new(
                1,
                |j: int| Timestamp { secs: (start.secs + j * min_delta) as i64, offset: start.offset },
            )) by {
                assert(0 * min_delta == 0) by (nonlinear_arith);
            }
            assert(filled.load@ =~= base_loads + Seq::new(
                1,
                |j: int|
                    if j == 0 {
                        v[i as int]
                    } else {
                        None
                    },
            ));
            while (current as i128) + min_delta < (next as i128)
                invariant
                    1 <= min_delta <= u64::MAX,
                    k >= 0,
                    current == start.secs + k * min_delta,
                    current < next,
                    filled.time@ == base_times + Seq::new(
                        (k + 1) as nat,
                        |j: int|
                            Timestamp {
                                secs: (start.secs + j * min_delta) as i64,
                                offset: start.offset,
                            },
                    ),
                    filled.load@ == base_loads + Seq::new(
                        (k + 1) as nat,
                        |j: int|
                            if j == 0 {
                                v[i as int]
                            } else {
                                None
                            },
                    ),
                decreases next - current,
            {
                let ghost before_times = filled.time@;
                let ghost before_loads = filled.load@;
                current = ((current as i128) + min_delta) as i64;
                filled.time.push(Timestamp { secs: current, offset: start.offset });
                filled.load.push(None);
                proof {
                    assert((k + 1) * min_delta == k * min_delta + min_delta) by (nonlinear_arith);
                    k = k + 1;
                    assert(filled.time@ =~= base_times + Seq::new(
                        (k + 1) as nat,
                        |j: int|
                            Timestamp {
                                secs: (start.secs + j * min_delta) as i64,
                                offset: start.offset,
                            },
                    ));
                    assert(filled.load@ =~= base_loads + Seq::new(
                        (k + 1) as nat,
                        |j: int|
                            if j == 0 {
                                v[i as int]
                            } else {
                                None
                            },
                    ));
                }
            }
            proof {
                lemma_gap_count(start.secs as int, next as int, min_delta as int, k);
                assert(filled.time@ =~= base_times + filled_times(
                    t[i as int],
                    t[i + 1].secs as int,
                    min_delta as int,
                ));
                assert(filled.load@ =~= base_loads + filled_loads(
                    t[i as int],
                    v[i as int],
                    t[i + 1].secs as int,
                    min_delta as int,
                ));
            }
            i += 1;
        }
        filled.time.push(self.time[n - 1]);
        filled.load.push(self.load[n - 1]);
        proof {
            assert(t.last() == t[n - 1]);
            assert(v.last() == v[n - 1]);
            lemma_repaired_lengths(t, v, min_delta as int, n - 1);
        }
        filled
    }
}

/// The repaired timestamps and loads are equally many.
pub proof fn lemma_repaired_lengths(t: Seq<Timestamp>, v: Seq<Option<i64>>, step: int, n: int)
    ensures
        repaired_times(t, step, n).len() == repaired_loads(t, v, step, n).len(),
    decreases n,
{
    if n > 0 {
        lemma_repaired_lengths(t, v, step, n - 1);
    }
}

} // verus!
