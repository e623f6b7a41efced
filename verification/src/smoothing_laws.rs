//! What the moving average guarantees.

use vstd::prelude::*;
use vstd::arithmetic::div_mod::{lemma_div_is_ordered, lemma_div_multiples_vanish};
use crate::smoothing::{
    lemma_missing_grows, lemma_weighted_sum_bounds, lemma_weights_split, missing_count,
    missing_weight, neighbourhood, present_weight, smoothed, too_much_missing, total_weight,
    weighted_sum, SCALE,
};

verus! {

/// Whether, after the first `n` slots of the window, more loads are missing
/// than allowed, or more weight than allowed has fallen on missing loads.
pub open spec fn exceeded_after(
    nb: Seq<Option<i64>>,
    w: Seq<u64>,
    n: int,
    max_missing: int,
    max_missing_pct: int,
) -> bool {
    ||| missing_count(nb, n) > max_missing
    ||| missing_weight(nb, w, n) * 100 * SCALE > total_weight(w, w.len() as int) * max_missing_pct
}

/// Once a limit is exceeded part of the way through the window, it stays
/// exceeded to the end: giving up at the first slot where a limit is exceeded
/// gives the same result as looking at the whole window.
pub proof fn lemma_exceeded_stays(
    nb: Seq<Option<i64>>,
    w: Seq<u64>,
    n: int,
    max_missing: int,
    max_missing_pct: int,
)
    requires
        0 <= n <= w.len(),
        exceeded_after(nb, w, n, max_missing, max_missing_pct),
    ensures
        too_much_missing(nb, w, max_missing, max_missing_pct),
        smoothed(nb, w, max_missing, max_missing_pct) is None,
{
    lemma_missing_grows(nb, w, n, w.len() as int);
    assert(missing_weight(nb, w, n) * 100 * SCALE <= missing_weight(nb, w, w.len() as int) * 100
        * SCALE) by (nonlinear_arith)
        requires
            missing_weight(nb, w, n) <= missing_weight(nb, w, w.len() as int),
    ;
}

/// A position keeps or gets a load exactly where the limits on missing loads
/// are kept and some present load under the window has weight.
pub proof fn lemma_smoothed_present(
    nb: Seq<Option<i64>>,
    w: Seq<u64>,
    max_missing: int,
    max_missing_pct: int,
)
    ensures
        smoothed(nb, w, max_missing, max_missing_pct) is Some <==> !too_much_missing(
            nb,
            w,
            max_missing,
            max_missing_pct,
        ) && present_weight(nb, w, w.len() as int) > 0,
{
    lemma_weights_split(nb, w, w.len() as int);
}

/// The smoothed load lies between the smallest and the largest present load
/// under the window.
pub proof fn lemma_smoothed_between(
    nb: Seq<Option<i64>>,
    w: Seq<u64>,
    max_missing: int,
    max_missing_pct: int,
    lo: i64,
    hi: i64,
)
    requires
        forall|k: int| 0 <= k < w.len() ==> ((#[trigger] nb[k]) matches Some(x) ==> lo <= x <= hi),
    ensures
        smoothed(nb, w, max_missing, max_missing_pct) matches Some(y) ==> lo <= y <= hi,
{
    let n = w.len() as int;
    let pw = present_weight(nb, w, n);
    let ws = weighted_sum(nb, w, n);
    lemma_weights_split(nb, w, n);
    if smoothed(nb, w, max_missing, max_missing_pct) is Some {
        lemma_weighted_sum_bounds(nb, w, n, lo as int, hi as int);
        lemma_div_is_ordered(lo * pw, ws, pw);
        lemma_div_is_ordered(ws, hi * pw, pw);
        assert(lo * pw == pw * lo && hi * pw == pw * hi) by (nonlinear_arith);
        lemma_div_multiples_vanish(lo as int, pw);
        lemma_div_multiples_vanish(hi as int, pw);
    }
}

/// Where all present loads under the window are the same, the smoothed load,
/// if there is one, is that load.
pub proof fn lemma_smoothed_constant(
    nb: Seq<Option<i64>>,
    w: Seq<u64>,
    max_missing: int,
    max_missing_pct: int,
    c: i64,
)
    requires
        forall|k: int| 0 <= k < w.len() ==> ((#[trigger] nb[k]) matches Some(x) ==> x == c),
    ensures
        smoothed(nb, w, max_missing, max_missing_pct) matches Some(y) ==> y == c,
{
    lemma_smoothed_between(nb, w, max_missing, max_missing_pct, c, c);
}

/// A window of a single weight that is not zero passes every present load
/// through as it is, and leaves every missing load missing.
pub proof fn lemma_single_weight_passes(
    v: Seq<Option<i64>>,
    i: int,
    weight: u64,
    max_missing: int,
    max_missing_pct: int,
)
    requires
        0 <= i < v.len(),
        weight > 0,
    ensures
        v[i] is None ==> smoothed(neighbourhood(v, i, 0), seq![weight], max_missing, max_missing_pct)
            is None,
        v[i] is Some ==> max_missing >= 0 && max_missing_pct >= 0 ==> smoothed(
            neighbourhood(v, i, 0),
            seq![weight],
            max_missing,
            max_missing_pct,
        ) == v[i],
{
    let nb = neighbourhood(v, i, 0);
    let w = seq![weight];
    assert(nb[0] == v[i]);
    assert(w[0] == weight);
    assert(present_weight(nb, w, 0) == 0);
    assert(weighted_sum(nb, w, 0) == 0);
    assert(missing_count(nb, 0) == 0);
    assert(missing_weight(nb, w, 0) == 0);
    assert(total_weight(w, 0) == 0);
    assert(total_weight(w, 1) == weight);
    match v[i] {
        None => {
            assert(present_weight(nb, w, 1) == 0);
        },
        Some(x) => {
            assert(present_weight(nb, w, 1) == weight);
            assert(weighted_sum(nb, w, 1) == x * weight);
            assert(missing_count(nb, 1) == 0);
            assert(missing_weight(nb, w, 1) == 0);
            if max_missing >= 0 && max_missing_pct >= 0 {
                assert(weight * max_missing_pct >= 0) by (nonlinear_arith)
                    requires
                        weight > 0,
                        max_missing_pct >= 0,
                ;
                assert(x * weight == weight * x) by (nonlinear_arith);
                lemma_div_multiples_vanish(x as int, weight as int);
            }
        },
    }
}

} // verus!
