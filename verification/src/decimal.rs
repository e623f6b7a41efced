//! The text form of a load: a decimal number with up to six digits after the
//! point, or `NaN` for a missing load.
//!
//! A load is kept as a whole number of millionths.

use vstd::prelude::*;
use crate::smoothing::SCALE;

verus! {

/// How many digits after the decimal point a load keeps.
pub const FRACTION_DIGITS: usize = 6;

/// Whether `c` is one of the ten decimal digits.
pub open spec fn is_digit(c: char) -> bool {
    '0' <= c && c <= '9'
}

/// The number that a decimal digit stands for.
pub open spec fn digit_of(c: char) -> int {
    c as int - '0' as int
}

/// The number that a run of decimal digits stands for; zero for no digits.
pub open spec fn digits_value(s: Seq<char>) -> int
    decreases s.len(),
{
    if s.len() == 0 {
        0
    } else {
        digits_value(s.drop_last()) * 10 + digit_of(s.last())
    }
}

/// Where the run of digits that starts at `from` ends: the index of the first
/// character at or after `from` that is no digit, or the length of `s`.
pub open spec fn run_end(s: Seq<char>, from: int) -> int
    decreases s.len() - from,
{
    if 0 <= from < s.len() && is_digit(s[from]) {
        run_end(s, from + 1)
    } else {
        from
    }
}

/// The digits after the point as a number of millionths: the first six of
/// them, with zeros in the place of those that are not there.
pub open spec fn fraction_value(f: Seq<char>) -> int {
    digits_value(
        Seq::new(
            FRACTION_DIGITS as nat,
            |i: int|
                if i < f.len() {
                    f[i]
                } else {
                    '0'
                },
        ),
    )
}

/// The number of millionths that a decimal text stands for.
///
/// The text is an optional sign, then digits, then optionally a point and
/// more digits, with at least one digit before or after the point. Digits
/// beyond the sixth after the point are dropped. Any other text stands for
/// nothing.
pub open spec fn decimal_value(s: Seq<char>) -> Option<int> {
    let signed = s.len() > 0 && (s[0] == '-' || s[0] == '+');
    let start: int = if signed {
        1
    } else {
        0
    };
    let dot = run_end(s, start);
    let pointed = dot < s.len() && s[dot] == '.';
    let rest: int = if pointed {
        dot + 1
    } else {
        dot
    };
    let end = run_end(s, rest);
    if end != s.len() || (dot - start) + (end - rest) == 0 {
        None
    } else {
        let magnitude = digits_value(s.subrange(start, dot)) * SCALE + fraction_value(
            s.subrange(rest, end),
        );
        if s[0] == '-' {
            Some(-magnitude)
        } else {
            Some(magnitude)
        }
    }
}

/// The load that a text stands for: its decimal value where it has one that
/// fits in 64 bits, and a missing load for any other text.
pub open spec fn parsed_load(s: Seq<char>) -> Option<i64> {
    match decimal_value(s) {
        Some(x) => if i64::MIN <= x <= i64::MAX {
            Some(x as i64)
        } else {
            None
        },
        None => None,
    }
}

/// The characters of a text, one by one.
pub fn chars_of(text: &str) -> (chars: Vec<char>)
    ensures
        chars@ == text@,
{
    let mut chars: Vec<char> = Vec::new();
    for c in it: text.chars()
        invariant
            chars@ == it.seq().take(it.index()),
            it.seq() == text@,
    {
        chars.push(c);
    }
    chars
}

/// A run of digits stands for no less than any of its beginnings.
proof fn lemma_digits_grow(s: Seq<char>, a: int, i: int, j: int)
    requires
        0 <= a <= i <= j <= s.len(),
        forall|k: int| a <= k < j ==> is_digit(#[trigger] s[k]),
    ensures
        0 <= digits_value(s.subrange(a, i)) <= digits_value(s.subrange(a, j)),
    decreases j - a,
{
    if a < j {
        assert(s.subrange(a, j).drop_last() =~= s.subrange(a, j - 1));
        if i < j {
            lemma_digits_grow(s, a, i, j - 1);
        } else {
            lemma_digits_grow(s, a, i - 1, j - 1);
        }
    } else {
        assert(s.subrange(a, j).len() == 0);
    }
}

/// A run of digits ends where `run_end` says.
pub proof fn lemma_run_end(s: Seq<char>, from: int, i: int)
    requires
        0 <= from <= i <= s.len(),
        forall|k: int| from <= k < i ==> is_digit(#[trigger] s[k]),
    ensures
        run_end(s, from) == run_end(s, i),
    decreases i - from,
{
    if from < i {
        lemma_run_end(s, from + 1, i);
    }
}

/// Walk over the digits that start at `from`.
fn scan_digits(s: &[char], from: usize) -> (end: usize)
    requires
        from <= s.len(),
    ensures
        end == run_end(s@, from as int),
        from <= end <= s.len(),
        forall|k: int| from <= k < end ==> is_digit(#[trigger] s[k]),
{
    let mut i: usize = from;
    while i < s.len() && '0' <= s[i] && s[i] <= '9'
        invariant
            from <= i <= s.len(),
            forall|k: int| from <= k < i ==> is_digit(#[trigger] s[k]),
        decreases s.len() - i,
    {
        i += 1;
    }
    proof {
        lemma_run_end(s@, from as int, i as int);
    }
    i
}

/// The largest whole part that a load can have.
const MAX_WHOLE: u64 = 9_223_372_036_854;

/// The number that the digits from `start` to `dot` stand for, or `None`
/// where it is above `MAX_WHOLE`.
fn read_whole(s: &[char], start: usize, dot: usize) -> (whole: Option<u64>)
    requires
        start <= dot <= s.len(),
        forall|k: int| start <= k < dot ==> is_digit(#[trigger] s[k]),
    ensures
        match whole {
            Some(w) => w == digits_value(s@.subrange(start as int, dot as int)) && w <= MAX_WHOLE,
            None => digits_value(s@.subrange(start as int, dot as int)) > MAX_WHOLE,
        },
{
    let mut whole: u64 = 0;
    let mut i: usize = start;
    assert(s@.subrange(start as int, start as int).len() == 0);
    while i < dot
        invariant
            start <= i <= dot <= s.len(),
            forall|k: int| start <= k < dot ==> is_digit(#[trigger] s[k]),
            whole == digits_value(s@.subrange(start as int, i as int)),
            whole <= MAX_WHOLE,
        decreases dot - i,
    {
        let d: u64 = (s[i] as u32 - '0' as u32) as u64;
        proof {
            assert(s@.subrange(start as int, i + 1).drop_last() =~= s@.subrange(
                start as int,
                i as int,
            ));
            assert(is_digit(s[i as int]));
        }
        whole = whole * 10 + d;
        i += 1;
        if whole > MAX_WHOLE {
            proof {
                lemma_digits_grow(s@, start as int, i as int, dot as int);
            }
            return None;
        }
    }
    Some(whole)
}

/// The millionths that the digits from `rest` to `end` stand for when they
/// follow the point.
fn read_fraction(s: &[char], rest: usize, end: usize) -> (fraction: u64)
    requires
        rest <= end <= s.len(),
        forall|k: int| rest <= k < end ==> is_digit(#[trigger] s[k]),
    ensures
        fraction == fraction_value(s@.subrange(rest as int, end as int)),
        fraction < SCALE,
{
    let ghost digits = s@.subrange(rest as int, end as int);
    let ghost padded = Seq::new(
        FRACTION_DIGITS as nat,
        |i: int|
            if i < digits.len() {
                digits[i]
            } else {
                '0'
            },
    );
    let mut fraction: u64 = 0;
    let mut k: usize = 0;
    assert(padded.take(0).len() == 0);
    while k < FRACTION_DIGITS
        invariant
            k <= FRACTION_DIGITS,
            rest <= end <= s.len(),
            forall|p: int| rest <= p < end ==> is_digit(#[trigger] s[p]),
            digits == s@.subrange(rest as int, end as int),
            padded == Seq::new(
                FRACTION_DIGITS as nat,
                |i: int|
                    if i < digits.len() {
                        digits[i]
                    } else {
                        '0'
                    },
            ),
            fraction == digits_value(padded.take(k as int)),
            fraction < 1_000_000,
            k == 0 ==> fraction == 0,
            k == 1 ==> fraction < 10,
            k == 2 ==> fraction < 100,
            k == 3 ==> fraction < 1_000,
            k == 4 ==> fraction < 10_000,
            k == 5 ==> fraction < 100_000,
        decreases FRACTION_DIGITS - k,
    {
        let d: u64 = if k < end - rest {
            (s[rest + k] as u32 - '0' as u32) as u64
        } else {
            0
        };
        proof {
            assert(padded.take(k + 1).drop_last() =~= padded.take(k as int));
            assert(padded.take(k + 1).last() == padded[k as int]);
            if k < end - rest {
                assert(is_digit(s[rest + k]));
                assert(padded[k as int] == s[rest + k]);
            }
        }
        fraction = fraction * 10 + d;
        k += 1;
    }
    proof {
        assert(padded.take(FRACTION_DIGITS as int) =~= padded);
    }
    fraction
}

/// Read a load from its text.
///
/// The text is an optional sign, then digits, then optionally a point and
/// more digits, with at least one digit before or after the point; it stands
/// for that number in millionths, digits beyond the sixth after the point
/// dropped. Any other text, `NaN` among them, and a number too large for 64
/// bits, gives a missing load.
pub fn parse_load(text: &str) -> (load: Option<i64>)
    ensures
        load == parsed_load(text@),
{
    let chars: Vec<char> = chars_of(text);
    let s: &[char] = chars.as_slice();
    let n: usize = s.len();
    let negative: bool = n > 0 && s[0] == '-';
    let start: usize = if n > 0 && (s[0] == '-' || s[0] == '+') {
        1
    } else {
        0
    };
    let dot: usize = scan_digits(s, start);
    let rest: usize = if dot < n && s[dot] == '.' {
        dot + 1
    } else {
        dot
    };
    let end: usize = scan_digits(s, rest);
    if end != n || (dot - start) + (end - rest) == 0 {
        return None;
    }
    let fraction: u64 = read_fraction(s, rest, end);
    match read_whole(s, start, dot) {
        None => {
            assert(digits_value(s@.subrange(start as int, dot as int)) * SCALE > i64::MAX + 1)
                by (nonlinear_arith)
                requires
                    digits_value(s@.subrange(start as int, dot as int)) >= MAX_WHOLE + 1,
            ;
            None
        },
        Some(whole) => {
            let magnitude: u128 = (whole as u128) * (SCALE as u128) + (fraction as u128);
            if negative {
                if magnitude > 9_223_372_036_854_775_808u128 {
                    None
                } else {
                    Some((-(magnitude as i128)) as i64)
                }
            } else {
                if magnitude > 9_223_372_036_854_775_807u128 {
                    None
                } else {
                    Some(magnitude as i64)
                }
            }
        },
    }
}

/// The character for a digit from zero to nine.
pub open spec fn digit_char(d: int) -> char {
    (d + '0' as int) as char
}

/// The decimal digits of a number that is not negative, without leading
/// zeros; `0` for zero.
pub open spec fn digits_of(n: int) -> Seq<char>
    decreases n,
{
    if n < 10 {
        seq![digit_char(n)]
    } else {
        digits_of(n / 10).push(digit_char(n % 10))
    }
}

/// The last `width` decimal digits of `x`, with leading zeros.
pub open spec fn padded_digits(x: int, width: int) -> Seq<char>
    decreases width,
{
    if width <= 0 {
        Seq::empty()
    } else {
        padded_digits(x / 10, width - 1).push(digit_char(x % 10))
    }
}

/// The last `width` decimal digits of `x`, with leading zeros and without
/// trailing zeros.
pub open spec fn fraction_digits(x: int, width: int) -> Seq<char>
    decreases width,
{
    if width <= 0 {
        Seq::empty()
    } else if x % 10 == 0 {
        fraction_digits(x / 10, width - 1)
    } else {
        padded_digits(x, width)
    }
}

/// The text of a load: `NaN` for a missing load, else its decimal number,
/// with a point and the digits after it only where they are not all zero.
pub open spec fn load_text(load: Option<i64>) -> Seq<char> {
    match load {
        None => seq!['N', 'a', 'N'],
        Some(x) => {
            let magnitude: int = if x < 0 {
                -x
            } else {
                x as int
            };
            let sign: Seq<char> = if x < 0 {
                seq!['-']
            } else {
                Seq::empty()
            };
            let whole = digits_of(magnitude / (SCALE as int));
            let fraction = magnitude % (SCALE as int);
            if fraction == 0 {
                sign + whole
            } else {
                sign + whole + seq!['.'] + fraction_digits(fraction, FRACTION_DIGITS as int)
            }
        },
    }
}

/// The text of one digit.
fn digit_text(d: u64) -> (text: &'static str)
    requires
        d < 10,
    ensures
        text@ == seq![digit_char(d as int)],
{
    proof {
        reveal_strlit("0");
        reveal_strlit("1");
        reveal_strlit("2");
        reveal_strlit("3");
        reveal_strlit("4");
        reveal_strlit("5");
        reveal_strlit("6");
        reveal_strlit("7");
        reveal_strlit("8");
        reveal_strlit("9");
    }
    let text = if d == 0 {
        "0"
    } else if d == 1 {
        "1"
    } else if d == 2 {
        "2"
    } else if d == 3 {
        "3"
    } else if d == 4 {
        "4"
    } else if d == 5 {
        "5"
    } else if d == 6 {
        "6"
    } else if d == 7 {
        "7"
    } else if d == 8 {
        "8"
    } else {
        "9"
    };
    assert(text@ =~= seq![digit_char(d as int)]);
    text
}

/// Append the decimal digits of `n`.
fn push_digits(text: &mut String, n: u64)
    ensures
        final(text)@ == old(text)@ + digits_of(n as int),
    decreases n,
{
    if n >= 10 {
        push_digits(text, n / 10);
    }
    text.append(digit_text(n % 10));
    assert(text@ =~= old(text)@ + digits_of(n as int));
}

/// Append the last `width` digits of `x`.
fn push_padded(text: &mut String, x: u64, width: usize)
    ensures
        final(text)@ == old(text)@ + padded_digits(x as int, width as int),
    decreases width,
{
    if width > 0 {
        push_padded(text, x / 10, width - 1);
        text.append(digit_text(x % 10));
    }
    assert(text@ =~= old(text)@ + padded_digits(x as int, width as int));
}

/// Append the last `width` digits of `x`, without trailing zeros.
fn push_fraction(text: &mut String, x: u64, width: usize)
    ensures
        final(text)@ == old(text)@ + fraction_digits(x as int, width as int),
    decreases width,
{
    if width == 0 {
        assert(text@ =~= old(text)@ + fraction_digits(x as int, width as int));
    } else if x % 10 == 0 {
        push_fraction(text, x / 10, width - 1);
    } else {
        push_padded(text, x, width);
    }
}

/// Write a load as text.
///
/// A missing load is written `NaN`. A number is written with its sign where
/// it is negative, its whole part, and, where the part after the point is not
/// zero, a point and up to six digits, without trailing zeros.
pub fn format_load(load: Option<i64>) -> (text: String)
    ensures
        text@ == load_text(load),
{
    match load {
        None => {
            proof {
                reveal_strlit("NaN");
            }
            let text = String::from_str("NaN");
            assert(text@ =~= seq!['N', 'a', 'N']);
            text
        },
        Some(x) => {
            proof {
                reveal_strlit("-");
                reveal_strlit(".");
            }
            let mut text = String::new();
            let magnitude: u64 = if x < 0 {
                text.append("-");
                (-(x as i128)) as u64
            } else {
                x as u64
            };
            let ghost sign = text@;
            assert(sign =~= if x < 0 {
                seq!['-']
            } else {
                Seq::<char>::empty()
            });
            push_digits(&mut text, magnitude / (SCALE as u64));
            let fraction: u64 = magnitude % (SCALE as u64);
            if fraction != 0 {
                text.append(".");
                assert(text@ =~= sign + digits_of(magnitude as int / (SCALE as int)) + seq!['.']);
                push_fraction(&mut text, fraction, FRACTION_DIGITS);
            }
            text
        },
    }
}

} // verus!
