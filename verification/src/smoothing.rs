//! Weighted moving average that smooths present samples and fills missing ones.
//!
//! A load is a fixed-point number: an integer counts millionths, so that
//! `SCALE` stands for one, and a missing load is `None`. Weights are whole
//! numbers in any unit: only their ratios matter.

use vstd::prelude::*;
use crate::arith::floor_div;

verus! {

/// The integer that stands for the number one.
pub const SCALE: i64 = 1_000_000;

/// The loads under a window of half-width `side` centred on position `i`.
///
/// Entry `k` of the result is the load at position `i - side + k`, or `None`
/// where that position lies before the start or after the end of `v`.
pub open spec fn neighbourhood(v: Seq<Option<i64>>, i: int, side: int) -> Seq<Option<i64>> {
    Seq::new(
        (2 * side + 1) as nat,
        |k: int|
            {
                let j = i - side + k;
                if 0 <= j < v.len() {
                    v[j]
                } else {
                    None
                }
            },
    )
}

/// The sum of the first `n` weights.
pub open spec fn total_weight(w: Seq<u64>, n: int) -> int
    decreases n,
{
    if n <= 0 {
        0
    } else {
        total_weight(w, n - 1) + w[n - 1]
    }
}

/// How many of the first `n` loads under the window are missing.
pub open spec fn missing_count(nb: Seq<Option<i64>>, n: int) -> int
    decreases n,
{
    if n <= 0 {
        0
    } else {
        missing_count(nb, n - 1) + if nb[n - 1] is None {
            1int
        } else {
            0int
        }
    }
}

/// The weight that the first `n` window slots give to missing loads.
pub open spec fn missing_weight(nb: Seq<Option<i64>>, w: Seq<u64>, n: int) -> int
    decreases n,
{
    if n <= 0 {
        0
    } else {
        missing_weight(nb, w, n - 1) + if nb[n - 1] is None {
            w[n - 1] as int
        } else {
            0int
        }
    }
}

/// The weight that the first `n` window slots give to present loads.
pub open spec fn present_weight(nb: Seq<Option<i64>>, w: Seq<u64>, n: int) -> int
    decreases n,
{
    if n <= 0 {
        0
    } else {
        present_weight(nb, w, n - 1) + if nb[n - 1] is None {
            0int
        } else {
            w[n - 1] as int
        }
    }
}

/// The sum of load times weight over the present loads among the first `n`
/// window slots.
pub open spec fn weighted_sum(nb: Seq<Option<i64>>, w: Seq<u64>, n: int) -> int
    decreases n,
{
    if n <= 0 {
        0
    } else {
        weighted_sum(nb, w, n - 1) + match nb[n - 1] {
            None => 0int,
            Some(x) => x * w[n - 1],
        }
    }
}

/// Whether too much is missing under the window to give an estimate.
///
/// `max_missing_pct` is the share of the window's whole weight, in percent and
/// in fixed point, that may fall on missing loads.
pub open spec fn too_much_missing(
    nb: Seq<Option<i64>>,
    w: Seq<u64>,
    max_missing: int,
    max_missing_pct: int,
) -> bool {
    let n = w.len() as int;
    ||| missing_count(nb, n) > max_missing
    ||| missing_weight(nb, w, n) * 100 * SCALE > total_weight(w, n) * max_missing_pct
}

/// The smoothed load for one position, given the loads `nb` under the window.
///
/// It is missing when too much is missing under the window, or when the
/// present loads carry no weight at all. Otherwise it is the weighted mean of
/// the present loads, rounded down to the next millionth.
pub open spec fn smoothed(
    nb: Seq<Option<i64>>,
    w: Seq<u64>,
    max_missing: int,
    max_missing_pct: int,
) -> Option<i64> {
    let n = w.len() as int;
    if too_much_missing(nb, w, max_missing, max_missing_pct) {
        None
    } else if present_weight(nb, w, n) == 0 {
        None
    } else {
        Some((weighted_sum(nb, w, n) / present_weight(nb, w, n)) as i64)
    }
}

/// Counts and weights of missing loads never shrink as the window is walked.
pub proof fn lemma_missing_grows(nb: Seq<Option<i64>>, w: Seq<u64>, a: int, b: int)
    requires
        0 <= a <= b,
    ensures
        missing_count(nb, a) <= missing_count(nb, b),
        missing_weight(nb, w, a) <= missing_weight(nb, w, b),
        total_weight(w, a) <= total_weight(w, b),
    decreases b - a,
{
    if a < b {
        lemma_missing_grows(nb, w, a, b - 1);
    }
}

/// Every window slot gives its weight either to a missing or to a present load.
pub proof fn lemma_weights_split(nb: Seq<Option<i64>>, w: Seq<u64>, n: int)
    requires
        0 <= n,
    ensures
        missing_weight(nb, w, n) + present_weight(nb, w, n) == total_weight(w, n),
        0 <= missing_weight(nb, w, n),
        0 <= present_weight(nb, w, n),
        0 <= missing_count(nb, n) <= n,
    decreases n,
{
    if n > 0 {
        lemma_weights_split(nb, w, n - 1);
    }
}

/// The weighted sum of loads that all lie between `lo` and `hi` lies between
/// `lo` and `hi` times the weight that it was taken over.
pub proof fn lemma_weighted_sum_bounds(
    nb: Seq<Option<i64>>,
    w: Seq<u64>,
    n: int,
    lo: int,
    hi: int,
)
    requires
        0 <= n,
        forall|k: int| 0 <= k < n ==> ((#[trigger] nb[k]) matches Some(x) ==> lo <= x <= hi),
    ensures
        lo * present_weight(nb, w, n) <= weighted_sum(nb, w, n) <= hi * present_weight(nb, w, n),
    decreases n,
{
    if n > 0 {
        lemma_weighted_sum_bounds(nb, w, n - 1, lo, hi);
        match nb[n - 1] {
            None => {},
            Some(x) => {
                let we = w[n - 1] as int;
                let pw = present_weight(nb, w, n - 1);
                assert(lo * we <= x * we <= hi * we) by (nonlinear_arith)
                    requires
                        lo <= x <= hi,
                        0 <= we,
                ;
                assert(lo * (pw + we) == lo * pw + lo * we) by (nonlinear_arith);
                assert(hi * (pw + we) == hi * pw + hi * we) by (nonlinear_arith);
            },
        }
    } else {
        assert(lo * 0 == 0 && hi * 0 == 0) by (nonlinear_arith);
    }
}

/// The whole weight of a window, or `None` where it does not fit in 64 bits.
pub fn window_total(w: &[u64]) -> (total: Option<u64>)
    ensures
        match total {
            Some(t) => t == total_weight(w@, w.len() as int),
            None => total_weight(w@, w.len() as int) > u64::MAX,
        },
{
    let mut total: u64 = 0;
    let mut k: usize = 0;
    while k < w.len()
        invariant
            k <= w.len(),
            total == total_weight(w@, k as int),
        decreases w.len() - k,
    {
        match total.checked_add(w[k]) {
            Some(t) => {
                total = t;
            },
            None => {
                proof {
                    lemma_missing_grows(Seq::empty(), w@, k as int + 1, w.len() as int);
                }
                return None;
            },
        }
        k += 1;
    }
    Some(total)
}

/// The smoothed load for position `i` of `v`.
fn smooth_at(
    v: &[Option<i64>],
    w: &[u64],
    i: usize,
    sum_all_w: u64,
    max_missing_v: usize,
    max_missing_wpct: i64,
) -> (out: Option<i64>)
    requires
        w.len() % 2 == 1,
        i < v.len(),
        sum_all_w == total_weight(w@, w.len() as int),
    ensures
        out == smoothed(
            neighbourhood(v@, i as int, (w.len() - 1) / 2),
            w@,
            max_missing_v as int,
            max_missing_wpct as int,
        ),
{
    let len_v: usize = v.len();
    let len_w: usize = w.len();
    let side: usize = (len_w - 1) / 2;
    let ghost nb = neighbourhood(v@, i as int, side as int);
    assert(i64::MIN * u64::MAX <= sum_all_w * max_missing_wpct <= i64::MAX * u64::MAX)
        by (nonlinear_arith)
        requires
            0 <= sum_all_w <= u64::MAX,
            i64::MIN <= max_missing_wpct <= i64::MAX,
    ;
    let limit: i128 = (sum_all_w as i128) * (max_missing_wpct as i128);
    let mut missing_v: usize = 0;
    let mut missing_w: u64 = 0;
    let mut sum_ve_we: i128 = 0;
    let mut sum_we: u64 = 0;
    let mut k: usize = 0;
    assert(limit == total_weight(w@, len_w as int) * max_missing_wpct) by (nonlinear_arith)
        requires
            limit == sum_all_w * max_missing_wpct,
            sum_all_w == total_weight(w@, len_w as int),
    ;
    while k < len_w
        invariant
            len_v == v.len(),
            len_w == w.len(),
            len_w == 2 * side + 1,
            i < len_v,
            k <= len_w,
            nb == neighbourhood(v@, i as int, side as int),
            sum_all_w == total_weight(w@, len_w as int),
            limit == total_weight(w@, len_w as int) * max_missing_wpct,
            missing_v == missing_count(nb, k as int),
            missing_w == missing_weight(nb, w@, k as int),
            sum_we == present_weight(nb, w@, k as int),
            sum_ve_we == weighted_sum(nb, w@, k as int),
            missing_v <= max_missing_v,
            k > 0 ==> missing_w * 100 * SCALE <= limit,
        decreases len_w - k,
    {
        let we: u64 = w[k];
        let absent: bool = if k < side {
            i < side - k
        } else {
            k - side >= len_v - i
        };
        let slot: Option<i64> = if absent {
            None
        } else if k < side {
            v[i - (side - k)]
        } else {
            v[i + (k - side)]
        };
        proof {
            assert(slot == nb[k as int]);
            lemma_weights_split(nb, w@, k as int + 1);
            lemma_missing_grows(nb, w@, k as int + 1, len_w as int);
            lemma_weighted_sum_bounds(nb, w@, k as int + 1, i64::MIN as int, i64::MAX as int);
            assert(i64::MAX * present_weight(nb, w@, k as int + 1) <= i64::MAX * u64::MAX
                && i64::MIN * present_weight(nb, w@, k as int + 1) >= i64::MIN * u64::MAX)
                by (nonlinear_arith)
                requires
                    0 <= present_weight(nb, w@, k as int + 1) <= u64::MAX,
            ;
        }
        match slot {
            None => {
                missing_v = missing_v + 1;
                missing_w = missing_w + we;
            },
            Some(ve) => {
                assert(i64::MIN * u64::MAX <= ve * we <= i64::MAX * u64::MAX)
                    by (nonlinear_arith)
                    requires
                        0 <= we <= u64::MAX,
                        i64::MIN <= ve <= i64::MAX,
                ;
                let term: i128 = (ve as i128) * (we as i128);
                sum_ve_we = sum_ve_we + term;
                sum_we = sum_we + we;
            },
        }
        if missing_v > max_missing_v || (missing_w as i128) * 100 * (SCALE as i128) > limit {
            return None;
        }
        k += 1;
    }
    if sum_we == 0 {
        None
    } else {
        proof {
            lemma_weighted_sum_bounds(nb, w@, len_w as int, i64::MIN as int, i64::MAX as int);
        }
        Some(floor_div(sum_ve_we, sum_we))
    }
}

/// Roll the weighted window `w` over the loads `v`.
///
/// Every position of the result is computed from the loads under the window
/// centred on it, whether the load there was present or missing: it is the
/// weighted mean of the present loads, rounded down to the next millionth. A
/// window slot beyond either end of `v` counts as missing. The result is
/// missing at a position where more than `max_missing_v` loads under the window
/// are missing, where the missing loads carry more than `max_missing_wpct`
/// percent of the window's whole weight, or where the present loads carry no
/// weight.
///
/// `max_missing_wpct` is the share of weight that is allowed to be missing, in
/// fixed point like the loads: `80 * SCALE` lets up to 80 percent be missing.
pub fn mavg(v: &[Option<i64>], w: &[u64], max_missing_v: usize, max_missing_wpct: i64) -> (vout:
    Vec<Option<i64>>)
    requires
        w.len() % 2 == 1,
        w.len() < v.len(),
        total_weight(w@, w.len() as int) <= u64::MAX,
    ensures
        vout.len() == v.len(),
        forall|i: int|
            0 <= i < v.len() ==> #[trigger] vout[i] == smoothed(
                neighbourhood(v@, i, (w.len() - 1) / 2),
                w@,
                max_missing_v as int,
                max_missing_wpct as int,
            ),
{
    let len_v: usize = v.len();
    let sum_all_w: u64 = match window_total(w) {
        Some(t) => t,
        None => vstd::pervasive::unreached(),
    };
    let mut vout: Vec<Option<i64>> = Vec::new();
    let mut i: usize = 0;
    while i < len_v
        invariant
            len_v == v.len(),
            w.len() % 2 == 1,
            i <= len_v,
            sum_all_w == total_weight(w@, w.len() as int),
            vout.len() == i,
            forall|p: int|
                0 <= p < i ==> #[trigger] vout[p] == smoothed(
                    neighbourhood(v@, p, (w.len() - 1) / 2),
                    w@,
                    max_missing_v as int,
                    max_missing_wpct as int,
                ),
        decreases len_v - i,
    {
        let out = smooth_at(v, w, i, sum_all_w, max_missing_v, max_missing_wpct);
        vout.push(out);
        i += 1;
    }
    vout
}

} // verus!
