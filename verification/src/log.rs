//! What the acquisition loop needs besides its connection: the error codes
//! that stand in for a reading, the value of a raw reading, and the times at
//! which readings are due.

use vstd::prelude::*;
use crate::decimal::{parse_load, parsed_load};

verus! {

/// Written in the place of a reading when the connection failed.
pub const ERROR_STR_GENERAL: &'static str = "E+999999.";

/// Written in the place of a reading when the source sent nothing.
pub const ERROR_STR_NONE: &'static str = "E+999998.";

/// Written in the place of a reading when the source sent no valid text.
pub const ERROR_STR_INVALID: &'static str = "E+999997.";

/// Written in the place of a reading whose time had passed.
pub const ERROR_STR_SKIPPED: &'static str = "E+999996.";

/// Written in the place of a reading that could not be read as a number.
pub const ERROR_STR_PARSE: &'static str = "E+999995.";

/// The load that stands for a failed connection.
pub const ERROR_GENERAL: i64 = 999_999_000_000;

/// The load that stands for a source that sent nothing.
pub const ERROR_NONE: i64 = 999_998_000_000;

/// The load that stands for a source that sent no valid text.
pub const ERROR_INVALID: i64 = 999_997_000_000;

/// The load that stands for a reading whose time had passed.
pub const ERROR_SKIPPED: i64 = 999_996_000_000;

/// The load that stands for a reading that could not be read as a number.
pub const ERROR_PARSE: i64 = 999_995_000_000;

/// How an attempt to read from the source failed.
#[derive(Clone, Copy, Debug, PartialEq, Eq, Structural)]
pub enum ReadFailure {
    /// The source sent nothing.
    NoData,
    /// The source sent bytes that are no valid text.
    NotText,
    /// The connection failed.
    Connection,
}

/// The text that is written in the place of a reading that failed. After any
/// of these failures the connection is to be made anew.
pub fn failure_text(failure: ReadFailure) -> (text: &'static str)
    ensures
        failure == ReadFailure::NoData ==> text@ == ERROR_STR_NONE@,
        failure == ReadFailure::NotText ==> text@ == ERROR_STR_INVALID@,
        failure == ReadFailure::Connection ==> text@ == ERROR_STR_GENERAL@,
{
    match failure {
        ReadFailure::NoData => ERROR_STR_NONE,
        ReadFailure::NotText => ERROR_STR_INVALID,
        ReadFailure::Connection => ERROR_STR_GENERAL,
    }
}

/// The load of a raw reading: the number that follows its first two
/// characters, or `ERROR_PARSE` where there is none.
pub open spec fn reading_value(raw: Seq<char>) -> i64 {
    if raw.len() < 2 {
        ERROR_PARSE
    } else {
        match parsed_load(raw.skip(2)) {
            Some(x) => x,
            None => ERROR_PARSE,
        }
    }
}

/// The load of a raw reading from the source.
///
/// The source sends a two-character prefix and then the number. A reading
/// too short for that, or without a number after the prefix, gives
/// `ERROR_PARSE`.
pub fn decode_reading(raw: &str) -> (load: i64)
    ensures
        load == reading_value(raw@),
{
    let n: usize = raw.unicode_len();
    if n < 2 {
        return ERROR_PARSE;
    }
    let number: &str = raw.substring_char(2, n);
    assert(number@ =~= raw@.skip(2));
    match parse_load(number) {
        Some(x) => x,
        None => ERROR_PARSE,
    }
}

/// The quotient of `a` by `b`, rounded towards zero.
pub open spec fn div_towards_zero(a: int, b: int) -> int {
    if a >= 0 {
        a / b
    } else {
        -((-a) / b)
    }
}

/// The instant of the first reading: on the local clock, `rounding_secs`
/// times the quotient, rounded towards zero, of the local time plus
/// `rounding_secs` by `rounding_secs`.
pub open spec fn first_rounded(utc_secs: i64, offset_secs: i32, rounding_secs: i64) -> int {
    let local = utc_secs + offset_secs;
    rounding_secs * div_towards_zero(local + rounding_secs, rounding_secs as int) - offset_secs
}

/// The instant at which the first reading is due, or `None` where that
/// instant does not fit in 64 bits.
///
/// For a time that is not before the epoch on the clock that is `offset_secs`
/// ahead of UTC, this is the next time after `utc_secs` that is a whole
/// multiple of `rounding_secs` on that clock. Before the epoch the quotient is
/// rounded towards zero, so that the first reading may fall one interval
/// later than that.
pub fn chrono_first_rounded(utc_secs: i64, offset_secs: i32, rounding_secs: i64) -> (first: Option<
    i64,
>)
    requires
        rounding_secs > 0,
    ensures
        match first {
            Some(t) => t == first_rounded(utc_secs, offset_secs, rounding_secs),
            None => !(i64::MIN <= first_rounded(utc_secs, offset_secs, rounding_secs)
                <= i64::MAX),
        },
{
    let offset: i128 = offset_secs as i128;
    let rounding: i128 = rounding_secs as i128;
    let local: i128 = utc_secs as i128 + offset;
    let shifted: i128 = local + rounding;
    let quotient: i128 = if shifted >= 0 {
        shifted / rounding
    } else {
        -((-shifted) / rounding)
    };
    proof {
        let magnitude: int = if shifted >= 0 {
            shifted as int
        } else {
            -shifted
        };
        vstd::arithmetic::div_mod::lemma_fundamental_div_mod(magnitude, rounding as int);
        assert(0 <= rounding * (magnitude / (rounding as int)) <= magnitude) by (nonlinear_arith)
            requires
                magnitude == rounding * (magnitude / (rounding as int)) + magnitude % (
                rounding as int),
                0 <= magnitude % (rounding as int) < rounding,
                rounding > 0,
                magnitude >= 0,
        ;
        assert(rounding * (-(magnitude / (rounding as int))) == -(rounding * (magnitude / (
        rounding as int)))) by (nonlinear_arith);
    }
    let first: i128 = rounding * quotient - offset;
    if first < i64::MIN as i128 || first > i64::MAX as i128 {
        None
    } else {
        Some(first as i64)
    }
}

/// For a time that is not before the epoch on the local clock, the first
/// reading falls on a whole multiple of the interval on that clock, after the
/// given time and no more than one interval after it.
pub proof fn lemma_first_rounded_is_next(utc_secs: i64, offset_secs: i32, rounding_secs: i64)
    requires
        rounding_secs > 0,
        utc_secs + offset_secs >= 0,
    ensures
        utc_secs < first_rounded(utc_secs, offset_secs, rounding_secs) <= utc_secs + rounding_secs,
        (first_rounded(utc_secs, offset_secs, rounding_secs) + offset_secs) % (rounding_secs as int)
            == 0,
{
    let local = utc_secs + offset_secs;
    let shifted = local + rounding_secs;
    let q = shifted / (rounding_secs as int);
    let r = shifted % (rounding_secs as int);
    vstd::arithmetic::div_mod::lemma_fundamental_div_mod(shifted, rounding_secs as int);
    assert(rounding_secs * q == shifted - r);
    assert(rounding_secs * q == q * rounding_secs + 0) by (nonlinear_arith);
    vstd::arithmetic::div_mod::lemma_fundamental_div_mod_converse(
        rounding_secs * q,
        rounding_secs as int,
        q,
        0,
    );
}

/// How many readings were missed, where the next one was due at `due` and it
/// is `now`: the readings due at `due`, one interval later, and so on, up to
/// and with `now`.
pub open spec fn missed_readings(due: i64, now: i64, interval_secs: i64) -> int {
    if now < due {
        0
    } else {
        (now - due) / (interval_secs as int) + 1
    }
}

/// How many readings were missed by `now`, where the next was due at `due`
/// and one is due every `interval_secs` seconds. The reading after those is
/// due that many intervals after `due`.
pub fn skipped_readings(due: i64, now: i64, interval_secs: i64) -> (missed: u128)
    requires
        interval_secs > 0,
    ensures
        missed == missed_readings(due, now, interval_secs),
        due + missed * interval_secs > now,
        missed > 0 ==> due + (missed - 1) * interval_secs <= now,
{
    if now < due {
        assert(0 * interval_secs == 0) by (nonlinear_arith);
        0
    } else {
        let late: i128 = now as i128 - due as i128;
        let whole: i128 = late / (interval_secs as i128);
        proof {
            vstd::arithmetic::div_mod::lemma_fundamental_div_mod(late as int, interval_secs as int);
            assert(0 <= whole <= late && whole * interval_secs <= late < (whole + 1)
                * interval_secs) by (nonlinear_arith)
                requires
                    late == interval_secs * whole + (late as int) % (interval_secs as int),
                    0 <= (late as int) % (interval_secs as int) < interval_secs,
                    interval_secs > 0,
                    late >= 0,
            ;
        }
        (whole + 1) as u128
    }
}

} // verus!
