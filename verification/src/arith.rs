//! Whole-number division that rounds down.

use vstd::prelude::*;
use vstd::arithmetic::div_mod::lemma_fundamental_div_mod_converse;

verus! {

/// The quotient of `num` by `den`, rounded down, where it fits in 64 bits.
pub fn floor_div(num: i128, den: u64) -> (q: i64)
    requires
        den > 0,
        i64::MIN * den <= num <= i64::MAX * den,
    ensures
        q == (num as int) / (den as int),
{
    let d: i128 = den as i128;
    if num >= 0 {
        let q: i128 = num / d;
        proof {
            assert(q <= i64::MAX) by (nonlinear_arith)
                requires
                    q == (num as int) / (d as int),
                    num <= i64::MAX * d,
                    d > 0,
            ;
        }
        q as i64
    } else {
        assert(i64::MIN * den >= i64::MIN * u64::MAX) by (nonlinear_arith)
            requires
                0 < den <= u64::MAX,
        ;
        let m: i128 = -num;
        let down: i128 = m / d;
        let r: i128 = m % d;
        let up: i128 = if r == 0 {
            down
        } else {
            down + 1
        };
        let rest: i128 = if r == 0 {
            0
        } else {
            d - r
        };
        proof {
            assert(m == d * down + r && 0 <= r < d) by (nonlinear_arith)
                requires
                    down == (m as int) / (d as int),
                    r == (m as int) % (d as int),
                    d > 0,
            ;
            assert(num == (-up) * d + rest) by (nonlinear_arith)
                requires
                    m == -num,
                    m == d * down + r,
                    r == 0 ==> up == down && rest == 0,
                    r != 0 ==> up == down + 1 && rest == d - r,
            ;
            lemma_fundamental_div_mod_converse(num as int, d as int, -up as int, rest as int);
            assert(-up >= i64::MIN) by (nonlinear_arith)
                requires
                    num == (-up) * d + rest,
                    0 <= rest < d,
                    i64::MIN * d <= num,
                    d > 0,
            ;
        }
        (-up) as i64
    }
}

} // verus!
