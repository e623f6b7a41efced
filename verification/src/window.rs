//! The window builder: a symmetric weight vector for the moving average.

use vstd::prelude::*;
use vstd::arithmetic::div_mod::{
    lemma_div_is_ordered, lemma_div_multiples_vanish, lemma_fundamental_div_mod,
};
use crate::smoothing::total_weight;

verus! {

/// The largest half-width of a window.
pub const MAX_SIDE: usize = 1_000_000;

/// The integer that stands for the weight one: a normalized weight is a
/// whole number of million-millionths.
pub const WEIGHT_SCALE: u64 = 1_000_000_000_000;

/// How far the sum of a window's weights may lie from one: two hundredths.
pub const TOLERANCE: u64 = 20_000_000_000;

/// Why no window was built.
#[derive(Clone, Copy, Debug, PartialEq, Eq, Structural)]
pub enum WindowError {
    /// The half-width is above `MAX_SIDE`.
    TooWide,
    /// All weights are zero, so there is nothing to normalize.
    NoWeight,
}

/// How many steps slot `i` of a window of half-width `side` lies from the
/// nearer edge.
pub open spec fn arm(side: int, i: int) -> int {
    if i <= side {
        i
    } else {
        2 * side - i
    }
}

/// The weight of slot `i` before normalizing, times `side`: it goes in a
/// straight line from `w_side` at both edges to `w_central` at the centre. A
/// window of one slot has the weight one.
pub open spec fn raw_weight(w_central: u64, w_side: u64, side: int, i: int) -> int {
    if side == 0 {
        1
    } else {
        w_side * (side - arm(side, i)) + w_central * arm(side, i)
    }
}

/// The sum of the raw weights of the first `n` slots.
pub open spec fn raw_total(w_central: u64, w_side: u64, side: int, n: int) -> int
    decreases n,
{
    if n <= 0 {
        0
    } else {
        raw_total(w_central, w_side, side, n - 1) + raw_weight(w_central, w_side, side, n - 1)
    }
}

/// The sum of the raw weights of the whole window.
pub open spec fn raw_sum(w_central: u64, w_side: u64, side: int) -> int {
    raw_total(w_central, w_side, side, 2 * side + 1)
}

/// The normalized weights: each raw weight as a share of their sum, in
/// million-millionths, rounded down.
pub open spec fn window_weights(w_central: u64, w_side: u64, side: int) -> Seq<u64> {
    Seq::new(
        (2 * side + 1) as nat,
        |i: int|
            (WEIGHT_SCALE * raw_weight(w_central, w_side, side, i) / raw_sum(
                w_central,
                w_side,
                side,
            )) as u64,
    )
}

/// The weights sum to one within the tolerance.
pub open spec fn within_tolerance(w: Seq<u64>) -> bool {
    WEIGHT_SCALE - TOLERANCE <= total_weight(w, w.len() as int) <= WEIGHT_SCALE + TOLERANCE
}

/// The window for a central weight, an edge weight and a half-width, or the
/// reason why there is none.
pub open spec fn window_for(w_central: u64, w_side: u64, side: usize) -> Result<
    Seq<u64>,
    WindowError,
> {
    if side > MAX_SIDE {
        Err(WindowError::TooWide)
    } else if raw_sum(w_central, w_side, side as int) == 0 {
        Err(WindowError::NoWeight)
    } else {
        Ok(window_weights(w_central, w_side, side as int))
    }
}

/// A raw weight is not negative and at most `side` times the largest 64-bit
/// weight.
pub proof fn lemma_raw_weight_bounds(w_central: u64, w_side: u64, side: int, i: int)
    requires
        0 <= i <= 2 * side,
    ensures
        0 <= raw_weight(w_central, w_side, side, i),
        side >= 1 ==> raw_weight(w_central, w_side, side, i) <= u64::MAX * side,
        side == 0 ==> raw_weight(w_central, w_side, side, i) == 1,
{
    if side >= 1 {
        let k = arm(side, i);
        assert(0 <= w_side * (side - k) <= u64::MAX * (side - k)) by (nonlinear_arith)
            requires
                0 <= w_side <= u64::MAX,
                0 <= k <= side,
        ;
        assert(0 <= w_central * k <= u64::MAX * k) by (nonlinear_arith)
            requires
                0 <= w_central <= u64::MAX,
                0 <= k <= side,
        ;
        assert(u64::MAX * (side - k) + u64::MAX * k == u64::MAX * side) by (nonlinear_arith);
    }
}

/// The running sum of raw weights never shrinks, and stays below the number of
/// slots times the bound of one raw weight.
pub proof fn lemma_raw_total_grows(w_central: u64, w_side: u64, side: int, a: int, b: int)
    requires
        0 <= a <= b <= 2 * side + 1,
    ensures
        0 <= raw_total(w_central, w_side, side, a) <= raw_total(w_central, w_side, side, b),
        side >= 1 ==> raw_total(w_central, w_side, side, b) <= b * (u64::MAX * side),
        side == 0 ==> raw_total(w_central, w_side, side, b) == b,
    decreases b,
{
    if b > 0 {
        lemma_raw_weight_bounds(w_central, w_side, side, b - 1);
        if a < b {
            lemma_raw_total_grows(w_central, w_side, side, a, b - 1);
        } else {
            lemma_raw_total_grows(w_central, w_side, side, a - 1, b - 1);
        }
        assert(b * (u64::MAX * side) == (b - 1) * (u64::MAX * side) + u64::MAX * side)
            by (nonlinear_arith);
    }
}

/// A share of the whole, in million-millionths and rounded down, is at most
/// one.
pub proof fn lemma_share_at_most_one(raw: int, sum: int)
    requires
        0 <= raw <= sum,
        0 < sum,
    ensures
        0 <= WEIGHT_SCALE * raw / sum <= WEIGHT_SCALE,
{
    assert(0 <= WEIGHT_SCALE * raw <= WEIGHT_SCALE * sum) by (nonlinear_arith)
        requires
            0 <= raw <= sum,
    ;
    lemma_div_is_ordered(WEIGHT_SCALE * raw, WEIGHT_SCALE * sum, sum);
    lemma_div_is_ordered(0, WEIGHT_SCALE * raw, sum);
    assert(WEIGHT_SCALE * sum == sum * WEIGHT_SCALE) by (nonlinear_arith);
    lemma_div_multiples_vanish(WEIGHT_SCALE as int, sum);
}

/// What rounding down takes from the first `n` weights, in units of one
/// million-millionth of the sum of the raw weights.
pub closed spec fn rounding_loss(w_central: u64, w_side: u64, side: int, n: int) -> int
    decreases n,
{
    if n <= 0 {
        0
    } else {
        rounding_loss(w_central, w_side, side, n - 1) + (WEIGHT_SCALE * raw_weight(
            w_central,
            w_side,
            side,
            n - 1,
        )) % raw_sum(w_central, w_side, side)
    }
}

proof fn lemma_rounding_loss(w_central: u64, w_side: u64, side: int, n: int)
    requires
        0 <= n <= 2 * side + 1,
        raw_sum(w_central, w_side, side) > 0,
    ensures
        WEIGHT_SCALE * raw_total(w_central, w_side, side, n) == raw_sum(w_central, w_side, side)
            * total_weight(window_weights(w_central, w_side, side), n) + rounding_loss(
            w_central,
            w_side,
            side,
            n,
        ),
        0 <= rounding_loss(w_central, w_side, side, n) <= n * (raw_sum(w_central, w_side, side)
            - 1),
    decreases n,
{
    let sum = raw_sum(w_central, w_side, side);
    if n > 0 {
        lemma_rounding_loss(w_central, w_side, side, n - 1);
        let raw = raw_weight(w_central, w_side, side, n - 1);
        let before = raw_total(w_central, w_side, side, n - 1);
        let weights = window_weights(w_central, w_side, side);
        let sum_before = total_weight(weights, n - 1);
        let loss_before = rounding_loss(w_central, w_side, side, n - 1);
        lemma_raw_weight_bounds(w_central, w_side, side, n - 1);
        lemma_raw_total_grows(w_central, w_side, side, n, 2 * side + 1);
        lemma_raw_total_grows(w_central, w_side, side, n - 1, n);
        lemma_share_at_most_one(raw, sum);
        let q = WEIGHT_SCALE * raw / sum;
        let r = (WEIGHT_SCALE * raw) % sum;
        lemma_fundamental_div_mod(WEIGHT_SCALE * raw, sum);
        assert(weights[n - 1] == q);
        assert(WEIGHT_SCALE * (before + raw) == sum * (sum_before + q) + (loss_before + r))
            by (nonlinear_arith)
            requires
                WEIGHT_SCALE * before == sum * sum_before + loss_before,
                WEIGHT_SCALE * raw == sum * q + r,
        ;
        assert(n * (sum - 1) == (n - 1) * (sum - 1) + (sum - 1)) by (nonlinear_arith);
    } else {
        assert(WEIGHT_SCALE * 0 == 0);
        assert(sum * 0 == 0) by (nonlinear_arith);
    }
}

/// The weights of a window sum to at most one, and fall short of one by less
/// than one million-millionth for each weight.
pub proof fn lemma_window_sum(w_central: u64, w_side: u64, side: int)
    requires
        0 <= side,
        raw_sum(w_central, w_side, side) > 0,
    ensures
        WEIGHT_SCALE - (2 * side + 1) < total_weight(
            window_weights(w_central, w_side, side),
            2 * side + 1,
        ) <= WEIGHT_SCALE,
{
    let n = 2 * side + 1;
    let sum = raw_sum(w_central, w_side, side);
    let total = total_weight(window_weights(w_central, w_side, side), n);
    let loss = rounding_loss(w_central, w_side, side, n);
    lemma_rounding_loss(w_central, w_side, side, n);
    assert(WEIGHT_SCALE - n < total <= WEIGHT_SCALE) by (nonlinear_arith)
        requires
            WEIGHT_SCALE * sum == sum * total + loss,
            0 <= loss <= n * (sum - 1),
            sum > 0,
            n >= 1,
    ;
}

/// The raw weight of slot `i`.
fn raw_at(w_central: u64, w_side: u64, side: usize, i: usize) -> (raw: u128)
    requires
        side <= MAX_SIDE,
        i <= 2 * side,
    ensures
        raw == raw_weight(w_central, w_side, side as int, i as int),
{
    if side == 0 {
        1
    } else {
        let k: usize = if i <= side {
            i
        } else {
            2 * side - i
        };
        proof {
            lemma_raw_weight_bounds(w_central, w_side, side as int, i as int);
            assert(0 <= w_side * (side - k) <= u64::MAX * MAX_SIDE) by (nonlinear_arith)
                requires
                    0 <= w_side <= u64::MAX,
                    0 <= k <= side <= MAX_SIDE,
            ;
            assert(0 <= w_central * k <= u64::MAX * MAX_SIDE) by (nonlinear_arith)
                requires
                    0 <= w_central <= u64::MAX,
                    0 <= k <= side <= MAX_SIDE,
            ;
        }
        (w_side as u128) * ((side - k) as u128) + (w_central as u128) * (k as u128)
    }
}

/// Build the window for the moving average.
///
/// The weights go in a straight line from `w_side` at both edges up, or down,
/// to `w_central` at the centre, over `side` steps on each arm, and are then
/// normalized: each becomes its share of their sum, in million-millionths,
/// rounded down. Only the ratio of `w_central` to `w_side` matters. With equal
/// weights the window is uniform. With `side == 0` the window is the single
/// weight one.
///
/// The window has `2 * side + 1` weights, and they sum to one within
/// `TOLERANCE`. No window is built where `side` is above `MAX_SIDE`, or where
/// all weights are zero.
pub fn make_window(w_central: u64, w_side: u64, side: usize) -> (window: Result<
    Vec<u64>,
    WindowError,
>)
    ensures
        match window {
            Ok(w) => window_for(w_central, w_side, side) == Ok::<Seq<u64>, WindowError>(w@),
            Err(e) => window_for(w_central, w_side, side) == Err::<Seq<u64>, WindowError>(e),
        },
        window matches Ok(w) ==> {
            &&& w.len() == 2 * side + 1
            &&& within_tolerance(w@)
        },
{
    if side > MAX_SIDE {
        return Err(WindowError::TooWide);
    }
    let len: usize = 2 * side + 1;
    let ghost full = raw_sum(w_central, w_side, side as int);
    let mut sum_raw: u128 = 0;
    let mut i: usize = 0;
    while i < len
        invariant
            side <= MAX_SIDE,
            len == 2 * side + 1,
            i <= len,
            sum_raw == raw_total(w_central, w_side, side as int, i as int),
        decreases len - i,
    {
        let raw: u128 = raw_at(w_central, w_side, side, i);
        proof {
            lemma_raw_total_grows(w_central, w_side, side as int, i as int, i + 1);
            assert((i + 1) * (u64::MAX * side) <= (2 * MAX_SIDE + 1) * (u64::MAX * MAX_SIDE))
                by (nonlinear_arith)
                requires
                    0 <= i + 1 <= 2 * MAX_SIDE + 1,
                    0 <= side <= MAX_SIDE,
            ;
        }
        sum_raw = sum_raw + raw;
        i += 1;
    }
    if sum_raw == 0 {
        return Err(WindowError::NoWeight);
    }
    let ghost target = window_weights(w_central, w_side, side as int);
    let mut window: Vec<u64> = Vec::with_capacity(len);
    i = 0;
    while i < len
        invariant
            side <= MAX_SIDE,
            len == 2 * side + 1,
            i <= len,
            sum_raw == full,
            full == raw_sum(w_central, w_side, side as int),
            full > 0,
            target == window_weights(w_central, w_side, side as int),
            window.len() == i,
            forall|p: int| 0 <= p < i ==> #[trigger] window[p] == target[p],
        decreases len - i,
    {
        let raw: u128 = raw_at(w_central, w_side, side, i);
        proof {
            lemma_raw_weight_bounds(w_central, w_side, side as int, i as int);
            lemma_raw_total_grows(w_central, w_side, side as int, i + 1, len as int);
            lemma_raw_total_grows(w_central, w_side, side as int, i as int, i + 1);
            lemma_share_at_most_one(raw as int, full);
            assert(raw <= u64::MAX * MAX_SIDE) by (nonlinear_arith)
                requires
                    side >= 1 ==> raw <= u64::MAX * side,
                    side == 0 ==> raw == 1,
                    side <= MAX_SIDE,
            ;
        }
        let share: u128 = (WEIGHT_SCALE as u128) * raw / sum_raw;
        window.push(share as u64);
        i += 1;
    }
    proof {
        assert(window@ =~= target);
        lemma_window_sum(w_central, w_side, side as int);
    }
    Ok(window)
}

} // verus!
