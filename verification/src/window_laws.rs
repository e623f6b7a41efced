//! What the window builder guarantees.

use vstd::prelude::*;
use vstd::arithmetic::div_mod::{
    lemma_div_denominator, lemma_div_is_ordered, lemma_div_multiples_vanish,
};
use crate::window::{
    arm, lemma_raw_total_grows, lemma_raw_weight_bounds, lemma_share_at_most_one,
    lemma_window_sum, raw_sum, raw_total, raw_weight, window_for, window_weights,
    within_tolerance, WindowError, MAX_SIDE, WEIGHT_SCALE,
};

verus! {

/// A window of half-width up to `MAX_SIDE` with some weight in it is always
/// built, has `2 * side + 1` weights, and these sum to one within the
/// tolerance.
pub proof fn lemma_window_built(w_central: u64, w_side: u64, side: usize)
    requires
        side <= MAX_SIDE,
        raw_sum(w_central, w_side, side as int) > 0,
    ensures
        window_for(w_central, w_side, side) == Ok::<Seq<u64>, WindowError>(
            window_weights(w_central, w_side, side as int),
        ),
        window_weights(w_central, w_side, side as int).len() == 2 * side + 1,
        within_tolerance(window_weights(w_central, w_side, side as int)),
{
    lemma_window_sum(w_central, w_side, side as int);
}

/// A window has weight in it exactly where it has a single slot, or one of
/// the two weights is not zero: these are the windows that are built, the
/// half-width allowing.
pub proof fn lemma_window_has_weight(w_central: u64, w_side: u64, side: usize)
    ensures
        raw_sum(w_central, w_side, side as int) > 0 <==> side == 0 || w_central > 0 || w_side > 0,
        side <= MAX_SIDE ==> (window_for(w_central, w_side, side) is Ok <==> side == 0 || w_central
            > 0 || w_side > 0),
{
    let n = 2 * side + 1;
    if side == 0 {
        lemma_raw_total_grows(w_central, w_side, 0, 1, 1);
    } else if w_central == 0 && w_side == 0 {
        lemma_no_weight(side as int, n);
    } else {
        lemma_raw_total_grows(w_central, w_side, side as int, 0, 1);
        lemma_raw_total_grows(w_central, w_side, side as int, 1, n);
        lemma_raw_total_grows(w_central, w_side, side as int, side as int, side + 1);
        lemma_raw_total_grows(w_central, w_side, side as int, side + 1, n);
        lemma_raw_weight_bounds(w_central, w_side, side as int, 0);
        lemma_raw_weight_bounds(w_central, w_side, side as int, side as int);
        assert(raw_weight(w_central, w_side, side as int, 0) == w_side * side) by {
            assert(w_central * 0 == 0) by (nonlinear_arith);
        }
        assert(raw_weight(w_central, w_side, side as int, side as int) == w_central * side) by {
            assert(w_side * 0 == 0) by (nonlinear_arith);
        }
        assert(raw_total(w_central, w_side, side as int, 0) == 0);
        if w_side > 0 {
            assert(w_side * side > 0) by (nonlinear_arith)
                requires
                    w_side > 0,
                    side >= 1,
            ;
        } else {
            assert(w_central * side > 0) by (nonlinear_arith)
                requires
                    w_central > 0,
                    side >= 1,
            ;
        }
    }
}

proof fn lemma_no_weight(side: int, n: int)
    requires
        1 <= side,
        0 <= n <= 2 * side + 1,
    ensures
        raw_total(0, 0, side, n) == 0,
    decreases n,
{
    if n > 0 {
        lemma_no_weight(side, n - 1);
        let k = arm(side, n - 1);
        assert(0 * (side - k) + 0 * k == 0) by (nonlinear_arith);
    }
}

proof fn lemma_uniform_raw_total(weight: u64, side: int, n: int)
    requires
        1 <= side,
        0 <= n <= 2 * side + 1,
    ensures
        raw_total(weight, weight, side, n) == n * (weight * side),
    decreases n,
{
    if n > 0 {
        lemma_uniform_raw_total(weight, side, n - 1);
        let k = arm(side, n - 1);
        assert(weight * (side - k) + weight * k == weight * side) by (nonlinear_arith);
        assert(n * (weight * side) == (n - 1) * (weight * side) + weight * side)
            by (nonlinear_arith);
    } else {
        assert(0 * (weight * side) == 0) by (nonlinear_arith);
    }
}

/// With equal central and edge weights, not zero, and a half-width up to
/// `MAX_SIDE`, the window is built and is uniform: it has `2 * side + 1`
/// weights, each is one divided by their number, in million-millionths and
/// rounded down, and they sum to one within the tolerance.
pub proof fn lemma_uniform_window(weight: u64, side: usize)
    requires
        weight > 0,
        side <= MAX_SIDE,
    ensures
        window_for(weight, weight, side) == Ok::<Seq<u64>, WindowError>(
            window_weights(weight, weight, side as int),
        ),
        window_weights(weight, weight, side as int).len() == 2 * side + 1,
        within_tolerance(window_weights(weight, weight, side as int)),
        forall|i: int|
            0 <= i < 2 * side + 1 ==> #[trigger] window_weights(weight, weight, side as int)[i]
                == (WEIGHT_SCALE as int) / (2 * side + 1),
{
    let n = 2 * side + 1;
    let weights = window_weights(weight, weight, side as int);
    if side == 0 {
        assert(raw_total(weight, weight, 0, 0) == 0);
        assert(raw_total(weight, weight, 0, 1) == 1);
        assert(raw_sum(weight, weight, 0) == 1);
        assert forall|i: int| 0 <= i < n implies #[trigger] weights[i] == (WEIGHT_SCALE as int) / n by {
            assert(WEIGHT_SCALE * 1 / 1 == (WEIGHT_SCALE as int) / 1);
        }
    } else {
        let unit = weight * side;
        lemma_uniform_raw_total(weight, side as int, n);
        assert(unit > 0) by (nonlinear_arith)
            requires
                unit == weight * side,
                weight > 0,
                side >= 1,
        ;
        assert(n * unit > 0) by (nonlinear_arith)
            requires
                unit > 0,
                n >= 1,
        ;
        assert forall|i: int| 0 <= i < n implies #[trigger] weights[i] == (WEIGHT_SCALE as int) / n by {
            let k = arm(side as int, i);
            assert(weight * (side - k) + weight * k == unit) by (nonlinear_arith)
                requires
                    unit == weight * side,
            ;
            assert(raw_weight(weight, weight, side as int, i) == unit);
            assert(WEIGHT_SCALE * unit == unit * WEIGHT_SCALE) by (nonlinear_arith);
            assert(n * unit == unit * n) by (nonlinear_arith);
            lemma_div_denominator(unit * WEIGHT_SCALE, unit, n);
            lemma_div_multiples_vanish(WEIGHT_SCALE as int, unit);
            assert((WEIGHT_SCALE as int) / n <= WEIGHT_SCALE) by {
                lemma_share_at_most_one(1, n);
                assert(WEIGHT_SCALE * 1 == WEIGHT_SCALE);
            }
        }
    }
    lemma_window_built(weight, weight, side);
}

/// A window reads the same from either end.
pub proof fn lemma_window_symmetric(w_central: u64, w_side: u64, side: int, i: int)
    requires
        0 <= i <= 2 * side,
    ensures
        window_weights(w_central, w_side, side)[i] == window_weights(w_central, w_side, side)[2
            * side - i],
{
}

/// Where the central weight is not below the edge weight, the weights of a
/// window do not fall on the way from an edge to the centre.
pub proof fn lemma_window_rises(w_central: u64, w_side: u64, side: int, i: int)
    requires
        w_side <= w_central,
        raw_sum(w_central, w_side, side) > 0,
        0 <= i < side,
    ensures
        window_weights(w_central, w_side, side)[i] <= window_weights(w_central, w_side, side)[i
            + 1],
{
    let sum = raw_sum(w_central, w_side, side);
    let a = raw_weight(w_central, w_side, side, i);
    let b = raw_weight(w_central, w_side, side, i + 1);
    assert(a <= b) by (nonlinear_arith)
        requires
            a == w_side * (side - i) + w_central * i,
            b == w_side * (side - (i + 1)) + w_central * (i + 1),
            w_side <= w_central,
    ;
    assert(WEIGHT_SCALE * a <= WEIGHT_SCALE * b) by (nonlinear_arith)
        requires
            a <= b,
    ;
    lemma_div_is_ordered(WEIGHT_SCALE * a, WEIGHT_SCALE * b, sum);
    lemma_raw_weight_bounds(w_central, w_side, side, i);
    lemma_raw_weight_bounds(w_central, w_side, side, i + 1);
    lemma_raw_total_grows(w_central, w_side, side, i + 1, 2 * side + 1);
    lemma_raw_total_grows(w_central, w_side, side, i + 2, 2 * side + 1);
    lemma_raw_total_grows(w_central, w_side, side, i, i + 1);
    lemma_raw_total_grows(w_central, w_side, side, i + 1, i + 2);
    lemma_share_at_most_one(a, sum);
    lemma_share_at_most_one(b, sum);
}

} // verus!
