//! What continuity repair guarantees.

use vstd::prelude::*;
use crate::repair::{
    canonical_step, filled_loads, filled_times, gap_count, lemma_min_step, repair_loads,
    repair_times, repaired_loads, repaired_times,
};
use vstd::arithmetic::div_mod::{lemma_fundamental_div_mod, lemma_fundamental_div_mod_converse};
use crate::series::{continuous, evenly_spaced, ordered, step_at};
use crate::masking::{
    datetimes_masked, errors_masked, first_at_bad_instant, in_daily_interval, interval_masked,
    outliers_masked,
};
use crate::timestamp::Timestamp;

verus! {

/// Every step between neighbours is a whole number of `step`s long.
pub open spec fn steps_divisible(t: Seq<Timestamp>, step: int) -> bool {
    forall|i: int| 0 <= i < t.len() - 1 ==> #[trigger] step_at(t, i) % step == 0
}

/// The canonical step of an ordered series is at least one second.
pub proof fn lemma_canonical_step_positive(t: Seq<Timestamp>)
    requires
        t.len() >= 2,
        ordered(t),
    ensures
        canonical_step(t) >= 1,
{
    lemma_min_step(t, t.len() - 1);
}

/// The canonical step of an evenly spaced series is its step.
pub proof fn lemma_canonical_step_of_even(t: Seq<Timestamp>, step: int)
    requires
        t.len() >= 2,
        evenly_spaced(t, step),
    ensures
        canonical_step(t) == step,
{
    lemma_min_step(t, t.len() - 1);
}

proof fn lemma_gap_of_multiple(from: int, to: int, step: int)
    requires
        step >= 1,
        to > from,
        (to - from) % step == 0,
    ensures
        gap_count(from, to, step) == (to - from) / step - 1,
        ((to - from) / step) * step == to - from,
        (to - from) / step >= 1,
{
    let len = to - from;
    let q = len / step;
    lemma_fundamental_div_mod(len, step);
    assert(q >= 1 && q * step == len) by (nonlinear_arith)
        requires
            len == step * q + 0,
            len > 0,
            step >= 1,
    ;
    assert(len - 1 == step * (q - 1) + (step - 1)) by (nonlinear_arith)
        requires
            q * step == len,
    ;
    lemma_fundamental_div_mod_converse(len - 1, step, q - 1, step - 1);
}

proof fn lemma_repaired_regular(t: Seq<Timestamp>, v: Seq<Option<i64>>, step: int, n: int)
    requires
        0 <= n <= t.len() - 1,
        v.len() == t.len(),
        step >= 1,
        evenly_spaced(t, step),
    ensures
        repaired_times(t, step, n) == t.take(n),
        repaired_loads(t, v, step, n) == v.take(n),
    decreases n,
{
    if n > 0 {
        lemma_repaired_regular(t, v, step, n - 1);
        let from = t[n - 1].secs as int;
        let to = t[n].secs as int;
        assert(step_at(t, n - 1) == step);
        assert(gap_count(from, to, step) == 0) by {
            assert(step - 1 == step * 0 + (step - 1)) by (nonlinear_arith);
            lemma_fundamental_div_mod_converse(step - 1, step, 0, step - 1);
        }
        assert(0 * step == 0) by (nonlinear_arith);
        assert(filled_times(t[n - 1], to, step) =~= seq![t[n - 1]]);
        assert(filled_loads(t[n - 1], v[n - 1], to, step) =~= seq![v[n - 1]]);
        assert(t.take(n) =~= t.take(n - 1) + seq![t[n - 1]]);
        assert(v.take(n) =~= v.take(n - 1) + seq![v[n - 1]]);
    } else {
        assert(t.take(0) =~= Seq::<Timestamp>::empty());
        assert(v.take(0) =~= Seq::<Option<i64>>::empty());
    }
}

/// Repair leaves a series that already steps evenly as it is.
pub proof fn lemma_repair_keeps_regular(t: Seq<Timestamp>, v: Seq<Option<i64>>)
    requires
        t.len() >= 2,
        v.len() == t.len(),
        ordered(t),
        continuous(t),
    ensures
        repair_times(t) == t,
        repair_loads(t, v) == v,
{
    let step = step_at(t, 0);
    lemma_canonical_step_of_even(t, step);
    lemma_repaired_regular(t, v, step, t.len() - 1);
    assert(t.take(t.len() - 1).push(t.last()) =~= t);
    assert(v.take(v.len() - 1).push(v.last()) =~= v);
}

proof fn lemma_repaired_progression(t: Seq<Timestamp>, step: int, n: int)
    requires
        0 <= n <= t.len() - 1,
        step >= 1,
        ordered(t),
        steps_divisible(t, step),
    ensures
        repaired_times(t, step, n).len() * step == t[n].secs - t[0].secs,
        forall|j: int|
            0 <= j < repaired_times(t, step, n).len() ==> (#[trigger] repaired_times(
                t,
                step,
                n,
            )[j]).secs == t[0].secs + j * step,
    decreases n,
{
    if n > 0 {
        lemma_repaired_progression(t, step, n - 1);
        let before = repaired_times(t, step, n - 1);
        let from = t[n - 1].secs as int;
        let to = t[n].secs as int;
        let fill = filled_times(t[n - 1], to, step);
        let all = repaired_times(t, step, n);
        assert(step_at(t, n - 1) > 0);
        assert(step_at(t, n - 1) % step == 0);
        lemma_gap_of_multiple(from, to, step);
        let q = (to - from) / step;
        assert(fill.len() == q);
        assert(all.len() == before.len() + q);
        assert(all.len() * step == t[n].secs - t[0].secs) by (nonlinear_arith)
            requires
                all.len() == before.len() + q,
                before.len() * step == from - t[0].secs,
                q * step == to - from,
                to == t[n].secs,
        ;
        assert forall|j: int| 0 <= j < all.len() implies (#[trigger] all[j]).secs == t[0].secs + j
            * step by {
            if j >= before.len() {
                let k = j - before.len();
                assert(all[j] == fill[k]);
                assert(from + k * step == t[0].secs + j * step) by (nonlinear_arith)
                    requires
                        before.len() * step == from - t[0].secs,
                        k == j - before.len(),
                ;
                assert(from + k * step < to) by (nonlinear_arith)
                    requires
                        0 <= k < q,
                        q * step == to - from,
                        step >= 1,
                ;
            } else {
                assert(all[j] == before[j]);
            }
        }
    } else {
        assert(0 * step == 0) by (nonlinear_arith);
    }
}

/// Where every step of the series is a whole number of canonical steps long,
/// the repaired series runs from the first timestamp to the last in canonical
/// steps, without a gap: sample `j` lies `j` steps after the first, and there
/// are `(last - first) / step + 1` samples.
pub proof fn lemma_repair_is_regular(t: Seq<Timestamp>)
    requires
        t.len() >= 2,
        ordered(t),
        steps_divisible(t, canonical_step(t)),
    ensures
        repair_times(t).len() == (t.last().secs - t[0].secs) / canonical_step(t) + 1,
        repair_times(t).len() >= 2,
        forall|j: int|
            0 <= j < repair_times(t).len() ==> (#[trigger] repair_times(t)[j]).secs == t[0].secs
                + j * canonical_step(t),
        evenly_spaced(repair_times(t), canonical_step(t)),
        ordered(repair_times(t)),
        continuous(repair_times(t)),
{
    let step = canonical_step(t);
    let n = t.len() - 1;
    lemma_canonical_step_positive(t);
    lemma_repaired_progression(t, step, n);
    let body = repaired_times(t, step, n);
    let r = repair_times(t);
    let span = t.last().secs - t[0].secs;
    assert(step * body.len() + 0 == span) by (nonlinear_arith)
        requires
            body.len() * step == span,
    ;
    lemma_fundamental_div_mod_converse(span, step, body.len() as int, 0);
    crate::series::lemma_ordered_pairs(t, 0, n);
    assert(body.len() >= 1) by (nonlinear_arith)
        requires
            body.len() * step == span,
            span > 0,
            step >= 1,
    ;
    assert forall|j: int| 0 <= j < r.len() implies (#[trigger] r[j]).secs == t[0].secs + j
        * step by {
        if j < body.len() {
            assert(r[j] == body[j]);
        }
    }
    assert forall|i: int| 0 <= i < r.len() - 1 implies #[trigger] step_at(r, i) == step by {
        assert(r[i].secs == t[0].secs + i * step);
        assert(r[i + 1].secs == t[0].secs + (i + 1) * step);
        assert((i + 1) * step == i * step + step) by (nonlinear_arith);
    }
    assert(step_at(r, 0) == step);
}

/// Repairing a repaired series changes nothing, where every step of the
/// series that was repaired is a whole number of canonical steps long.
pub proof fn lemma_repair_idempotent(t: Seq<Timestamp>, v: Seq<Option<i64>>)
    requires
        t.len() >= 2,
        v.len() == t.len(),
        ordered(t),
        steps_divisible(t, canonical_step(t)),
    ensures
        repair_times(repair_times(t)) == repair_times(t),
        repair_loads(repair_times(t), repair_loads(t, v)) == repair_loads(t, v),
{
    lemma_repair_is_regular(t);
    crate::repair::lemma_repaired_lengths(t, v, canonical_step(t), t.len() - 1);
    lemma_repair_keeps_regular(repair_times(t), repair_loads(t, v));
}

/// The repaired timestamps up to sample `n` are in order, start at the
/// first timestamp of the series, and all lie before sample `n`.
proof fn lemma_repaired_ordered(t: Seq<Timestamp>, step: int, n: int)
    requires
        0 <= n <= t.len() - 1,
        step >= 1,
        ordered(t),
    ensures
        ordered(repaired_times(t, step, n)),
        forall|j: int|
            0 <= j < repaired_times(t, step, n).len() ==> (#[trigger] repaired_times(
                t,
                step,
                n,
            )[j]).secs < t[n].secs,
    decreases n,
{
    if n > 0 {
        lemma_repaired_ordered(t, step, n - 1);
        let before = repaired_times(t, step, n - 1);
        let from = t[n - 1].secs as int;
        let to = t[n].secs as int;
        let fill = filled_times(t[n - 1], to, step);
        let all = repaired_times(t, step, n);
        let m = gap_count(from, to, step);
        assert(step_at(t, n - 1) > 0);
        vstd::arithmetic::div_mod::lemma_fundamental_div_mod(to - from - 1, step);
        assert(m >= 0 && m * step <= to - from - 1) by (nonlinear_arith)
            requires
                to - from - 1 == step * m + (to - from - 1) % step,
                0 <= (to - from - 1) % step < step,
                to - from - 1 >= 0,
                step >= 1,
        ;
        assert forall|k: int| 0 <= k < fill.len() implies from + k * step < to && (
        #[trigger] fill[k]).secs == from + k * step by {
            assert(k * step <= m * step) by (nonlinear_arith)
                requires
                    0 <= k <= m,
                    step >= 1,
            ;
        }
        assert forall|j: int| 0 <= j < all.len() implies (#[trigger] all[j]).secs < t[n].secs by {
            if j < before.len() {
                assert(all[j] == before[j]);
            } else {
                assert(all[j] == fill[j - before.len()]);
            }
        }
        assert forall|i: int| 0 <= i < all.len() - 1 implies #[trigger] step_at(all, i) > 0 by {
            if i + 1 < before.len() {
                assert(all[i] == before[i]);
                assert(all[i + 1] == before[i + 1]);
                assert(step_at(before, i) > 0);
            } else if i < before.len() {
                assert(all[i] == before[i]);
                assert(all[i + 1] == fill[0]);
                assert(0 * step == 0) by (nonlinear_arith);
            } else {
                let k = i - before.len();
                assert(all[i] == fill[k]);
                assert(all[i + 1] == fill[k + 1]);
                assert((k + 1) * step == k * step + step) by (nonlinear_arith);
            }
        }
    }
}

/// The repaired series of an ordered series is in order.
pub proof fn lemma_repair_ordered(t: Seq<Timestamp>)
    requires
        t.len() >= 2,
        ordered(t),
    ensures
        ordered(repair_times(t)),
{
    let step = canonical_step(t);
    let n = t.len() - 1;
    lemma_canonical_step_positive(t);
    lemma_repaired_ordered(t, step, n);
    let body = repaired_times(t, step, n);
    let r = repair_times(t);
    assert forall|i: int| 0 <= i < r.len() - 1 implies #[trigger] step_at(r, i) > 0 by {
        if i + 1 < body.len() {
            assert(r[i] == body[i]);
            assert(r[i + 1] == body[i + 1]);
            assert(step_at(body, i) > 0);
        } else {
            assert(r[i] == body[i]);
            assert(r[i + 1] == t[n]);
        }
    }
}

/// In an evenly spaced series, sample `j` lies `j` steps after the first.
pub proof fn lemma_even_progression(r: Seq<Timestamp>, step: int, j: int)
    requires
        evenly_spaced(r, step),
        0 <= j < r.len(),
    ensures
        r[j].secs == r[0].secs + j * step,
    decreases j,
{
    if j > 0 {
        lemma_even_progression(r, step, j - 1);
        assert(step_at(r, j - 1) == step);
        assert(j * step == (j - 1) * step + step) by (nonlinear_arith);
    } else {
        assert(0 * step == 0) by (nonlinear_arith);
    }
}

/// The repaired series begins with the first sample of the series, and its
/// first step is the canonical step.
pub proof fn lemma_repair_first_step(t: Seq<Timestamp>)
    requires
        t.len() >= 2,
        ordered(t),
    ensures
        repair_times(t).len() >= 2,
        repair_times(t)[0] == t[0],
        repair_times(t).last() == t.last(),
        step_at(repair_times(t), 0) == canonical_step(t),
{
    let step = canonical_step(t);
    let n = t.len() - 1;
    lemma_canonical_step_positive(t);
    lemma_min_step(t, n);
    let from = t[0].secs as int;
    let to = t[1].secs as int;
    let first = filled_times(t[0], to, step);
    let m = gap_count(from, to, step);
    assert(step_at(t, 0) >= step);
    vstd::arithmetic::div_mod::lemma_fundamental_div_mod(to - from - 1, step);
    assert(m >= 0) by (nonlinear_arith)
        requires
            to - from - 1 == step * m + (to - from - 1) % step,
            0 <= (to - from - 1) % step < step,
            to - from - 1 >= 0,
            step >= 1,
    ;
    assert(0 * step == 0) by (nonlinear_arith);
    assert(1 * step == step) by (nonlinear_arith);
    assert(first[0] == t[0]);
    lemma_repaired_starts(t, step, n);
    let body = repaired_times(t, step, n);
    let r = repair_times(t);
    assert(r[0] == body[0]);
    if m >= 1 {
        assert(first[1].secs == from + step);
        assert(r[1] == body[1]);
    } else {
        assert(to - from == step) by (nonlinear_arith)
            requires
                to - from - 1 == step * m + (to - from - 1) % step,
                0 <= (to - from - 1) % step < step,
                m == 0,
                to - from >= step,
        ;
        if n == 1 {
            assert(repaired_times(t, step, 0) =~= Seq::<Timestamp>::empty());
            assert(body =~= first);
            assert(r[1] == t[1]);
        } else {
            let second = filled_times(t[1], t[2].secs as int, step);
            let m2 = gap_count(t[1].secs as int, t[2].secs as int, step);
            assert(step_at(t, 1) > 0);
            vstd::arithmetic::div_mod::lemma_fundamental_div_mod(
                t[2].secs - t[1].secs - 1,
                step,
            );
            assert(m2 >= 0) by (nonlinear_arith)
                requires
                    t[2].secs - t[1].secs - 1 == step * m2 + (t[2].secs - t[1].secs - 1) % step,
                    0 <= (t[2].secs - t[1].secs - 1) % step < step,
                    t[2].secs - t[1].secs - 1 >= 0,
                    step >= 1,
            ;
            assert(second[0] == t[1]);
            lemma_repaired_second(t, step, n);
            assert(r[1] == body[1]);
        }
    }
}

/// The repaired timestamps up to sample `n` begin with what fills the first
/// gap.
proof fn lemma_repaired_starts(t: Seq<Timestamp>, step: int, n: int)
    requires
        1 <= n <= t.len() - 1,
    ensures
        repaired_times(t, step, n).len() >= filled_times(t[0], t[1].secs as int, step).len(),
        forall|j: int|
            0 <= j < filled_times(t[0], t[1].secs as int, step).len() ==> #[trigger] repaired_times(
                t,
                step,
                n,
            )[j] == filled_times(t[0], t[1].secs as int, step)[j],
    decreases n,
{
    if n > 1 {
        lemma_repaired_starts(t, step, n - 1);
    } else {
        assert(repaired_times(t, step, 0) =~= Seq::<Timestamp>::empty());
        assert(repaired_times(t, step, 1) =~= filled_times(t[0], t[1].secs as int, step));
    }
}

/// Where the first gap is filled by the first sample alone, the repaired
/// timestamps up to sample `n` go on with what fills the second gap.
proof fn lemma_repaired_second(t: Seq<Timestamp>, step: int, n: int)
    requires
        2 <= n <= t.len() - 1,
        filled_times(t[0], t[1].secs as int, step).len() == 1,
        filled_times(t[1], t[2].secs as int, step).len() >= 1,
    ensures
        repaired_times(t, step, n).len() >= 2,
        repaired_times(t, step, n)[1] == filled_times(t[1], t[2].secs as int, step)[0],
    decreases n,
{
    if n > 2 {
        lemma_repaired_second(t, step, n - 1);
    } else {
        assert(repaired_times(t, step, 0) =~= Seq::<Timestamp>::empty());
        assert(repaired_times(t, step, 1) =~= filled_times(t[0], t[1].secs as int, step));
    }
}

/// A repaired series that steps evenly does so in canonical steps, and has
/// `(last - first) / step + 1` samples.
pub proof fn lemma_repair_length(t: Seq<Timestamp>)
    requires
        t.len() >= 2,
        ordered(t),
        continuous(repair_times(t)),
    ensures
        evenly_spaced(repair_times(t), canonical_step(t)),
        repair_times(t).len() == (t.last().secs - t[0].secs) / canonical_step(t) + 1,
{
    let step = canonical_step(t);
    let r = repair_times(t);
    lemma_canonical_step_positive(t);
    lemma_repair_first_step(t);
    lemma_even_progression(r, step, r.len() - 1);
    let span = t.last().secs - t[0].secs;
    assert(span == (r.len() - 1) * step + 0);
    lemma_fundamental_div_mod_converse(span, step, r.len() - 1, 0);
}

/// The repaired timestamps up to an earlier sample begin those up to a later
/// sample, which go on with the earlier sample itself.
proof fn lemma_repaired_prefix(t: Seq<Timestamp>, step: int, n: int, m: int)
    requires
        0 <= n <= m <= t.len() - 1,
        step >= 1,
        ordered(t),
    ensures
        repaired_times(t, step, n).len() <= repaired_times(t, step, m).len(),
        forall|j: int|
            0 <= j < repaired_times(t, step, n).len() ==> #[trigger] repaired_times(t, step, m)[j]
                == repaired_times(t, step, n)[j],
        n < m ==> repaired_times(t, step, n).len() < repaired_times(t, step, m).len()
            && repaired_times(t, step, m)[repaired_times(t, step, n).len() as int] == t[n],
    decreases m - n,
{
    if n < m {
        lemma_repaired_prefix(t, step, n, m - 1);
        let from = t[m - 1].secs as int;
        let to = t[m].secs as int;
        let fill = filled_times(t[m - 1], to, step);
        let count = gap_count(from, to, step);
        assert(step_at(t, m - 1) > 0);
        vstd::arithmetic::div_mod::lemma_fundamental_div_mod(to - from - 1, step);
        assert(count >= 0) by (nonlinear_arith)
            requires
                to - from - 1 == step * count + (to - from - 1) % step,
                0 <= (to - from - 1) % step < step,
                to - from - 1 >= 0,
                step >= 1,
        ;
        assert(0 * step == 0) by (nonlinear_arith);
        assert(fill[0] == t[m - 1]);
        let before = repaired_times(t, step, m - 1);
        let all = repaired_times(t, step, m);
        assert(all[before.len() as int] == fill[0]);
        assert forall|j: int| 0 <= j < repaired_times(t, step, n).len() implies #[trigger] all[j]
            == repaired_times(t, step, n)[j] by {
            assert(all[j] == before[j]);
        }
        if n < m - 1 {
            assert(all[repaired_times(t, step, n).len() as int] == before[repaired_times(
                t,
                step,
                n,
            ).len() as int]);
        }
    }
}

/// A repaired series steps evenly only where every step of the series that
/// was repaired is a whole number of canonical steps long.
pub proof fn lemma_repair_regular_only_if_divisible(t: Seq<Timestamp>)
    requires
        t.len() >= 2,
        ordered(t),
        continuous(repair_times(t)),
    ensures
        steps_divisible(t, canonical_step(t)),
{
    let step = canonical_step(t);
    let last = t.len() - 1;
    let r = repair_times(t);
    let body = repaired_times(t, step, last);
    lemma_canonical_step_positive(t);
    lemma_repair_length(t);
    assert forall|i: int| 0 <= i < t.len() - 1 implies #[trigger] step_at(t, i) % step == 0 by {
        let p = repaired_times(t, step, i).len() as int;
        let q = repaired_times(t, step, i + 1).len() as int;
        lemma_repaired_prefix(t, step, i, last);
        lemma_repaired_prefix(t, step, i + 1, last);
        lemma_repaired_prefix(t, step, i, i + 1);
        assert(r[p] == body[p]);
        lemma_even_progression(r, step, p);
        if i + 1 < last {
            assert(r[q] == body[q]);
        } else {
            assert(r[q] == t[last]);
        }
        lemma_even_progression(r, step, q);
        assert(step_at(t, i) == (q - p) * step + 0) by (nonlinear_arith)
            requires
                t[i].secs == r[0].secs + p * step,
                t[i + 1].secs == r[0].secs + q * step,
                step_at(t, i) == t[i + 1].secs - t[i].secs,
        ;
        lemma_fundamental_div_mod_converse(step_at(t, i), step, q - p, 0);
    }
}

/// A rule that looks at one load at a time, and leaves a missing load
/// missing, may be applied before or after the repair.
pub proof fn lemma_repair_commutes_with_rule(
    t: Seq<Timestamp>,
    v: Seq<Option<i64>>,
    rule: spec_fn(Option<i64>) -> Option<i64>,
)
    requires
        t.len() >= 1,
        v.len() == t.len(),
        rule(None) is None,
    ensures
        repair_loads(t, v.map_values(rule)) == repair_loads(t, v).map_values(rule),
{
    let step = canonical_step(t);
    lemma_repaired_rule(t, v, rule, step, t.len() - 1);
    assert(v.map_values(rule).last() == rule(v.last()));
    assert(repair_loads(t, v.map_values(rule)) =~= repair_loads(t, v).map_values(rule));
}

proof fn lemma_repaired_rule(
    t: Seq<Timestamp>,
    v: Seq<Option<i64>>,
    rule: spec_fn(Option<i64>) -> Option<i64>,
    step: int,
    n: int,
)
    requires
        0 <= n <= t.len() - 1,
        v.len() == t.len(),
        rule(None) is None,
    ensures
        repaired_loads(t, v.map_values(rule), step, n) == repaired_loads(t, v, step, n).map_values(
            rule,
        ),
    decreases n,
{
    if n > 0 {
        lemma_repaired_rule(t, v, rule, step, n - 1);
        let to = t[n].secs as int;
        assert(filled_loads(t[n - 1], v.map_values(rule)[n - 1], to, step) =~= filled_loads(
            t[n - 1],
            v[n - 1],
            to,
            step,
        ).map_values(rule));
        assert(repaired_loads(t, v.map_values(rule), step, n) =~= repaired_loads(
            t,
            v,
            step,
            n,
        ).map_values(rule));
    } else {
        assert(repaired_loads(t, v.map_values(rule), step, n) =~= repaired_loads(
            t,
            v,
            step,
            n,
        ).map_values(rule));
    }
}

/// The error codes may be masked before or after the repair.
pub proof fn lemma_repair_errors_commute(t: Seq<Timestamp>, v: Seq<Option<i64>>, max_value: i64)
    requires
        t.len() >= 1,
        v.len() == t.len(),
    ensures
        repair_loads(t, errors_masked(v, max_value)) == errors_masked(
            repair_loads(t, v),
            max_value,
        ),
{
    let rule = |x: Option<i64>|
        match x {
            Some(l) => if l > max_value {
                None
            } else {
                Some(l)
            },
            None => None,
        };
    lemma_repair_commutes_with_rule(t, v, rule);
    assert(errors_masked(v, max_value) =~= v.map_values(rule));
    assert(errors_masked(repair_loads(t, v), max_value) =~= repair_loads(t, v).map_values(rule));
}

/// The outliers may be masked before or after the repair.
pub proof fn lemma_repair_outliers_commute(
    t: Seq<Timestamp>,
    v: Seq<Option<i64>>,
    min_load: i64,
    max_load: i64,
)
    requires
        t.len() >= 1,
        v.len() == t.len(),
    ensures
        repair_loads(t, outliers_masked(v, min_load, max_load)) == outliers_masked(
            repair_loads(t, v),
            min_load,
            max_load,
        ),
{
    let rule = |x: Option<i64>|
        match x {
            Some(l) => if l > max_load || l < min_load {
                None
            } else {
                Some(l)
            },
            None => None,
        };
    lemma_repair_commutes_with_rule(t, v, rule);
    assert(outliers_masked(v, min_load, max_load) =~= v.map_values(rule));
    assert(outliers_masked(repair_loads(t, v), min_load, max_load) =~= repair_loads(
        t,
        v,
    ).map_values(rule));
}

/// The loads with every sample taken out whose timestamp is `bad`.
pub open spec fn masked_at_times(
    time: Seq<Timestamp>,
    load: Seq<Option<i64>>,
    bad: spec_fn(Timestamp) -> bool,
) -> Seq<Option<i64>> {
    Seq::new(
        load.len(),
        |i: int|
            if i < time.len() && bad(time[i]) {
                None
            } else {
                load[i]
            },
    )
}

proof fn lemma_repaired_masked_at_times(
    t: Seq<Timestamp>,
    v: Seq<Option<i64>>,
    bad: spec_fn(Timestamp) -> bool,
    step: int,
    n: int,
)
    requires
        0 <= n <= t.len() - 1,
        v.len() == t.len(),
        step >= 1,
        ordered(t),
    ensures
        repaired_times(t, step, n).len() == repaired_loads(t, v, step, n).len(),
        masked_at_times(repaired_times(t, step, n), repaired_loads(t, v, step, n), bad)
            == repaired_loads(t, masked_at_times(t, v, bad), step, n),
    decreases n,
{
    crate::repair::lemma_repaired_lengths(t, v, step, n);
    if n > 0 {
        lemma_repaired_masked_at_times(t, v, bad, step, n - 1);
        crate::repair::lemma_repaired_lengths(t, v, step, n - 1);
        let from = t[n - 1].secs as int;
        let to = t[n].secs as int;
        let count = gap_count(from, to, step);
        assert(step_at(t, n - 1) > 0);
        vstd::arithmetic::div_mod::lemma_fundamental_div_mod(to - from - 1, step);
        assert(count >= 0) by (nonlinear_arith)
            requires
                to - from - 1 == step * count + (to - from - 1) % step,
                0 <= (to - from - 1) % step < step,
                to - from - 1 >= 0,
                step >= 1,
        ;
        assert(0 * step == 0) by (nonlinear_arith);
        let times_before = repaired_times(t, step, n - 1);
        let loads_before = repaired_loads(t, v, step, n - 1);
        let fill_times = filled_times(t[n - 1], to, step);
        let fill_loads = filled_loads(t[n - 1], v[n - 1], to, step);
        let masked_fill = filled_loads(t[n - 1], masked_at_times(t, v, bad)[n - 1], to, step);
        assert(fill_times[0] == t[n - 1]);
        let left = masked_at_times(
            repaired_times(t, step, n),
            repaired_loads(t, v, step, n),
            bad,
        );
        let right = repaired_loads(t, masked_at_times(t, v, bad), step, n);
        assert(right == repaired_loads(t, masked_at_times(t, v, bad), step, n - 1) + masked_fill);
        assert(left.len() == right.len());
        assert forall|j: int| 0 <= j < left.len() implies left[j] == right[j] by {
            if j < times_before.len() {
                assert(repaired_times(t, step, n)[j] == times_before[j]);
                assert(repaired_loads(t, v, step, n)[j] == loads_before[j]);
                assert(masked_at_times(times_before, loads_before, bad)[j] == right[j]);
            } else {
                let k = j - times_before.len();
                assert(repaired_times(t, step, n)[j] == fill_times[k]);
                assert(repaired_loads(t, v, step, n)[j] == fill_loads[k]);
                assert(right[j] == masked_fill[k]);
            }
        }
        assert(left =~= right);
    } else {
        assert(masked_at_times(
            repaired_times(t, step, n),
            repaired_loads(t, v, step, n),
            bad,
        ) =~= repaired_loads(t, masked_at_times(t, v, bad), step, n));
    }
}

/// A rule that takes out a load by its timestamp alone may be applied before
/// or after the repair.
pub proof fn lemma_repair_commutes_with_times(
    t: Seq<Timestamp>,
    v: Seq<Option<i64>>,
    bad: spec_fn(Timestamp) -> bool,
)
    requires
        t.len() >= 2,
        v.len() == t.len(),
        ordered(t),
    ensures
        masked_at_times(repair_times(t), repair_loads(t, v), bad) == repair_loads(
            t,
            masked_at_times(t, v, bad),
        ),
{
    let step = canonical_step(t);
    let n = t.len() - 1;
    lemma_canonical_step_positive(t);
    lemma_repaired_masked_at_times(t, v, bad, step, n);
    let left = masked_at_times(repair_times(t), repair_loads(t, v), bad);
    let right = repair_loads(t, masked_at_times(t, v, bad));
    let body_times = repaired_times(t, step, n);
    let body_loads = repaired_loads(t, v, step, n);
    assert(masked_at_times(t, v, bad).last() == masked_at_times(t, v, bad)[n]);
    assert forall|j: int| 0 <= j < left.len() implies left[j] == right[j] by {
        if j < body_times.len() {
            assert(repair_times(t)[j] == body_times[j]);
            assert(repair_loads(t, v)[j] == body_loads[j]);
            assert(masked_at_times(body_times, body_loads, bad)[j] == right[j]);
        }
    }
    assert(left =~= right);
}

/// A daily interval may be masked before or after the repair.
pub proof fn lemma_repair_interval_commute(
    t: Seq<Timestamp>,
    v: Seq<Option<i64>>,
    time_init: u32,
    time_stop: u32,
)
    requires
        t.len() >= 2,
        v.len() == t.len(),
        ordered(t),
    ensures
        interval_masked(repair_times(t), repair_loads(t, v), time_init, time_stop) == repair_loads(
            t,
            interval_masked(t, v, time_init, time_stop),
        ),
{
    let bad = |x: Timestamp| in_daily_interval(x, time_init, time_stop);
    lemma_repair_commutes_with_times(t, v, bad);
    assert(interval_masked(t, v, time_init, time_stop) =~= masked_at_times(t, v, bad));
    assert(interval_masked(repair_times(t), repair_loads(t, v), time_init, time_stop)
        =~= masked_at_times(repair_times(t), repair_loads(t, v), bad));
}

/// In an ordered series, the samples at bad instants are masked, each being
/// the first at its instant.
proof fn lemma_datetimes_masked_ordered(
    t: Seq<Timestamp>,
    v: Seq<Option<i64>>,
    bad: Seq<Timestamp>,
)
    requires
        v.len() == t.len(),
        ordered(t),
    ensures
        datetimes_masked(t, v, bad) == masked_at_times(
            t,
            v,
            |x: Timestamp| exists|k: int| 0 <= k < bad.len() && (#[trigger] bad[k]).secs == x.secs,
        ),
{
    let among = |x: Timestamp| exists|k: int| 0 <= k < bad.len() && (#[trigger] bad[k]).secs == x.secs;
    assert forall|i: int| 0 <= i < v.len() implies datetimes_masked(t, v, bad)[i]
        == masked_at_times(t, v, among)[i] by {
        assert forall|j: int| 0 <= j < i implies (#[trigger] t[j]).secs != t[i].secs by {
            crate::series::lemma_ordered_pairs(t, j, i);
        }
        assert(first_at_bad_instant(t, bad, i) == among(t[i]));
    }
    assert(datetimes_masked(t, v, bad) =~= masked_at_times(t, v, among));
}

/// The bad timestamps may be masked before or after the repair.
pub proof fn lemma_repair_datetimes_commute(
    t: Seq<Timestamp>,
    v: Seq<Option<i64>>,
    bad: Seq<Timestamp>,
)
    requires
        t.len() >= 2,
        v.len() == t.len(),
        ordered(t),
    ensures
        datetimes_masked(repair_times(t), repair_loads(t, v), bad) == repair_loads(
            t,
            datetimes_masked(t, v, bad),
        ),
{
    let among = |x: Timestamp| exists|k: int| 0 <= k < bad.len() && (#[trigger] bad[k]).secs == x.secs;
    lemma_repair_commutes_with_times(t, v, among);
    lemma_datetimes_masked_ordered(t, v, bad);
    lemma_repair_ordered(t);
    crate::repair::lemma_repaired_lengths(t, v, canonical_step(t), t.len() - 1);
    lemma_datetimes_masked_ordered(repair_times(t), repair_loads(t, v), bad);
}

} // verus!
