//! What the text form of a load guarantees.

use vstd::prelude::*;
use crate::decimal::{
    decimal_value, digit_char, digit_of, digits_of, digits_value, fraction_digits, fraction_value,
    is_digit, lemma_run_end, load_text, padded_digits, parsed_load, run_end, FRACTION_DIGITS,
};
use crate::smoothing::SCALE;

verus! {

/// Ten to the power of `w`.
pub open spec fn pow10(w: int) -> int
    decreases w,
{
    if w <= 0 {
        1
    } else {
        10 * pow10(w - 1)
    }
}

proof fn lemma_digit_char(d: int)
    requires
        0 <= d <= 9,
    ensures
        is_digit(digit_char(d)),
        digit_of(digit_char(d)) == d,
        digit_char(d) != '-',
        digit_char(d) != '+',
        digit_char(d) != '.',
{
}

/// The digits of a number are digits, at least one, and stand for the number.
pub proof fn lemma_digits_of(n: int)
    requires
        0 <= n,
    ensures
        digits_of(n).len() >= 1,
        forall|i: int| 0 <= i < digits_of(n).len() ==> is_digit(#[trigger] digits_of(n)[i]),
        digits_value(digits_of(n)) == n,
    decreases n,
{
    if n < 10 {
        lemma_digit_char(n);
        let s = digits_of(n);
        assert(s.drop_last().len() == 0);
        assert(digits_value(s.drop_last()) == 0);
    } else {
        lemma_digits_of(n / 10);
        lemma_digit_char(n % 10);
        let s = digits_of(n);
        assert(s.drop_last() =~= digits_of(n / 10));
        assert(s.last() == digit_char(n % 10));
    }
}

/// The last `w` digits of a number below ten to the `w` are `w` digits and
/// stand for the number.
pub proof fn lemma_padded_digits(x: int, w: int)
    requires
        0 <= w,
        0 <= x < pow10(w),
    ensures
        padded_digits(x, w).len() == w,
        forall|i: int| 0 <= i < w ==> is_digit(#[trigger] padded_digits(x, w)[i]),
        digits_value(padded_digits(x, w)) == x,
    decreases w,
{
    if w > 0 {
        lemma_padded_digits(x / 10, w - 1);
        lemma_digit_char(x % 10);
        let s = padded_digits(x, w);
        assert(s.drop_last() =~= padded_digits(x / 10, w - 1));
        assert(s.last() == digit_char(x % 10));
    }
}

/// Dropping the trailing zeros leaves the beginning of the padded digits, and
/// what was dropped were zeros.
pub proof fn lemma_fraction_digits(x: int, w: int)
    requires
        0 <= w,
        0 <= x < pow10(w),
    ensures
        fraction_digits(x, w).len() <= w,
        x > 0 ==> fraction_digits(x, w).len() >= 1,
        forall|i: int|
            0 <= i < w ==> #[trigger] padded_digits(x, w)[i] == (if i < fraction_digits(
                x,
                w,
            ).len() {
                fraction_digits(x, w)[i]
            } else {
                '0'
            }),
    decreases w,
{
    lemma_padded_digits(x, w);
    if w > 0 && x % 10 == 0 {
        lemma_fraction_digits(x / 10, w - 1);
        lemma_padded_digits(x / 10, w - 1);
        let p = padded_digits(x, w);
        assert(p.drop_last() =~= padded_digits(x / 10, w - 1));
        assert forall|i: int| 0 <= i < w implies #[trigger] p[i] == (if i < fraction_digits(
            x,
            w,
        ).len() {
            fraction_digits(x, w)[i]
        } else {
            '0'
        }) by {
            if i < w - 1 {
                assert(p[i] == p.drop_last()[i]);
            }
        }
    }
}

/// Reading the text of a load gives the load back.
pub proof fn lemma_load_reads_back(load: Option<i64>)
    ensures
        parsed_load(load_text(load)) == load,
{
    let s = load_text(load);
    match load {
        None => {
            assert(s.len() == 3 && s[0] == 'N');
            assert(run_end(s, 0) == 0);
            assert(decimal_value(s) is None);
        },
        Some(x) => {
            let magnitude: int = if x < 0 {
                -x
            } else {
                x as int
            };
            let sign: Seq<char> = if x < 0 {
                seq!['-']
            } else {
                Seq::empty()
            };
            let whole_number = magnitude / (SCALE as int);
            let fraction = magnitude % (SCALE as int);
            let whole = digits_of(whole_number);
            let tail = fraction_digits(fraction, FRACTION_DIGITS as int);
            let padded = padded_digits(fraction, FRACTION_DIGITS as int);
            assert(pow10(6) == 1_000_000) by {
                reveal_with_fuel(pow10, 8);
            }
            lemma_digits_of(whole_number);
            lemma_padded_digits(fraction, FRACTION_DIGITS as int);
            lemma_fraction_digits(fraction, FRACTION_DIGITS as int);
            vstd::arithmetic::div_mod::lemma_fundamental_div_mod(magnitude, SCALE as int);
            let start = sign.len() as int;
            let dot = start + whole.len();
            assert(whole[0] != '-' && whole[0] != '+');
            assert(s[0] == if x < 0 {
                '-'
            } else {
                whole[0]
            });
            assert forall|k: int| start <= k < dot implies is_digit(#[trigger] s[k]) by {
                assert(s[k] == whole[k - start]);
            }
            lemma_run_end(s, start, dot);
            assert(s.subrange(start, dot) =~= whole);
            if fraction == 0 {
                assert(s =~= sign + whole);
                assert(run_end(s, dot) == dot);
                let none = s.subrange(dot, dot);
                assert(none.len() == 0);
                let zeros = Seq::new(
                    FRACTION_DIGITS as nat,
                    |i: int|
                        if i < none.len() {
                            none[i]
                        } else {
                            '0'
                        },
                );
                assert(zeros =~= padded) by {
                    lemma_zero_digits(FRACTION_DIGITS as int);
                }
                assert(fraction_value(none) == 0);
                assert(decimal_value(s) == Some(if x < 0 {
                    -magnitude
                } else {
                    magnitude
                }));
            } else {
                assert(s =~= sign + whole + seq!['.'] + tail);
                assert(s[dot] == '.');
                assert(run_end(s, dot) == dot);
                let rest = dot + 1;
                let end = rest + tail.len();
                assert(end == s.len());
                assert forall|k: int| rest <= k < end implies is_digit(#[trigger] s[k]) by {
                    assert(s[k] == tail[k - rest]);
                    assert(padded[k - rest] == tail[k - rest]);
                }
                lemma_run_end(s, rest, end);
                assert(run_end(s, end) == end);
                assert(s.subrange(rest, end) =~= tail);
                let filled = Seq::new(
                    FRACTION_DIGITS as nat,
                    |i: int|
                        if i < tail.len() {
                            tail[i]
                        } else {
                            '0'
                        },
                );
                assert(filled =~= padded);
                assert(fraction_value(tail) == fraction);
                assert(decimal_value(s) == Some(if x < 0 {
                    -magnitude
                } else {
                    magnitude
                }));
            }
        },
    }
}

/// The last `w` digits of zero are zeros.
proof fn lemma_zero_digits(w: int)
    requires
        0 <= w,
    ensures
        padded_digits(0, w).len() == w,
        forall|i: int| 0 <= i < w ==> #[trigger] padded_digits(0, w)[i] == '0',
    decreases w,
{
    if w > 0 {
        lemma_zero_digits(w - 1);
        let p = padded_digits(0, w);
        assert(p.drop_last() =~= padded_digits(0, w - 1));
        assert forall|i: int| 0 <= i < w implies #[trigger] p[i] == '0' by {
            if i < w - 1 {
                assert(p[i] == p.drop_last()[i]);
            }
        }
    }
}

} // verus!
