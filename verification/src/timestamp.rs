//! Instants of time at whole seconds, and their two text forms.

use std::fmt::Write;
use vstd::prelude::*;

verus! {

/// Seconds in one day.
pub const SECS_PER_DAY: i64 = 86_400;

/// The format of a timestamp without offset.
pub const NAIVE_FORMAT: &'static str = "%Y-%m-%d %H:%M:%S";

/// An instant at a whole second, with the offset of the clock that showed it.
///
/// Two timestamps denote the same instant when their `secs` agree; `offset`
/// only says which wall clock the text form shows. Order and spacing of
/// timestamps go by `secs` alone.
#[derive(Clone, Copy, Debug, PartialEq, Eq, Structural)]
pub struct Timestamp {
    /// Seconds since 1970-01-01T00:00:00Z, leap seconds not counted.
    pub secs: i64,
    /// Seconds that the local clock is ahead of UTC.
    pub offset: i32,
}

/// The text form in which timestamps are read and written.
#[derive(Clone, Copy, Debug, PartialEq, Eq, Structural)]
pub enum TimeFormat {
    /// RFC 3339, such as `2021-11-07T01:30:00-08:00`.
    Rfc3339,
    /// `%Y-%m-%d %H:%M:%S` without an offset, such as `2021-11-07 01:30:00`.
    /// The text is taken as UTC when read; the local wall clock is written.
    Naive,
}

/// What `chrono::DateTime::parse_from_rfc3339` makes of `text`: seconds since
/// the epoch, nanoseconds within the second, and the offset in seconds, or
/// `None` where it rejects the text.
pub uninterp spec fn rfc3339_instant(text: Seq<char>) -> Option<(i64, u32, i32)>;

/// What `chrono::NaiveDateTime::parse_from_str` makes of `text` under the
/// format `format`, the result taken as a time in UTC: seconds since the
/// epoch and nanoseconds within the second, or `None` where it rejects the
/// text.
pub uninterp spec fn naive_instant(text: Seq<char>, format: Seq<char>) -> Option<(i64, u32)>;

/// The text that `chrono::DateTime::to_rfc3339` writes for the instant `secs`
/// on a clock `offset` seconds ahead of UTC, or `None` where chrono cannot
/// hold that instant or that offset.
pub uninterp spec fn rfc3339_text(secs: i64, offset: i32) -> Option<Seq<char>>;

/// The text that `chrono::DateTime::format` writes under the format `format`
/// for the instant `secs` on a clock `offset` seconds ahead of UTC, or `None`
/// where chrono cannot hold that instant or that offset, or cannot write
/// under that format.
pub uninterp spec fn naive_text(secs: i64, offset: i32, format: Seq<char>) -> Option<Seq<char>>;

/// Calls `chrono::DateTime::parse_from_rfc3339` and takes the parsed value
/// apart. Trusted: the result is what chrono returns for this text, which
/// depends on the text alone.
#[verifier::external_body]
fn chrono_parse_rfc3339(text: &str) -> (parts: Option<(i64, u32, i32)>)
    ensures
        parts == rfc3339_instant(text@),
{
    match chrono::DateTime::parse_from_rfc3339(text) {
        Ok(dt) => Some(
            (dt.timestamp(), dt.timestamp_subsec_nanos(), dt.offset().local_minus_utc()),
        ),
        Err(_) => None,
    }
}

/// Calls `chrono::NaiveDateTime::parse_from_str` and takes the parsed value
/// apart, as a time in UTC. Trusted: the result is what chrono returns for
/// this text and format, which depends on these two alone.
#[verifier::external_body]
fn chrono_parse_naive(text: &str, format: &str) -> (parts: Option<(i64, u32)>)
    ensures
        parts == naive_instant(text@, format@),
{
    match chrono::NaiveDateTime::parse_from_str(text, format) {
        Ok(dt) => Some((dt.and_utc().timestamp(), dt.and_utc().timestamp_subsec_nanos())),
        Err(_) => None,
    }
}

/// Builds the chrono value for `secs` and `offset` and calls
/// `chrono::DateTime::to_rfc3339` on it. Trusted: the result is the text that
/// chrono writes, or `None` where `chrono::DateTime::from_timestamp` or
/// `chrono::FixedOffset::east_opt` refuses the numbers.
#[verifier::external_body]
fn chrono_to_rfc3339(secs: i64, offset: i32) -> (text: Option<String>)
    ensures
        match text {
            Some(s) => rfc3339_text(secs, offset) == Some(s@),
            None => rfc3339_text(secs, offset) is None,
        },
{
    let utc = chrono::DateTime::from_timestamp(secs, 0)?;
    let east = chrono::FixedOffset::east_opt(offset)?;
    Some(utc.with_timezone(&east).to_rfc3339())
}

/// Builds the chrono value for `secs` and `offset` and writes what
/// `chrono::DateTime::format` makes of it under `format`. Trusted: the result
/// is the text that chrono writes, or `None` where
/// `chrono::DateTime::from_timestamp` or `chrono::FixedOffset::east_opt`
/// refuses the numbers, or where chrono reports an error in the format.
#[verifier::external_body]
fn chrono_to_naive(secs: i64, offset: i32, format: &str) -> (text: Option<String>)
    ensures
        match text {
            Some(s) => naive_text(secs, offset, format@) == Some(s@),
            None => naive_text(secs, offset, format@) is None,
        },
{
    let utc = chrono::DateTime::from_timestamp(secs, 0)?;
    let east = chrono::FixedOffset::east_opt(offset)?;
    let mut text = String::new();
    write!(text, "{}", utc.with_timezone(&east).format(format)).ok()?;
    Some(text)
}

/// The timestamp for what chrono made of an RFC 3339 text: none where chrono
/// rejected the text, and none where the time has a fraction of a second or
/// is a leap second.
pub open spec fn timestamp_of_rfc3339(parts: Option<(i64, u32, i32)>) -> Option<Timestamp> {
    match parts {
        Some((secs, nanos, offset)) => if nanos == 0 {
            Some(Timestamp { secs, offset })
        } else {
            None
        },
        None => None,
    }
}

/// The timestamp for what chrono made of a text without offset: none where
/// chrono rejected the text, and none where the time is a leap second. The
/// time is taken as UTC.
pub open spec fn timestamp_of_naive(parts: Option<(i64, u32)>) -> Option<Timestamp> {
    match parts {
        Some((secs, nanos)) => if nanos == 0 {
            Some(Timestamp { secs, offset: 0 })
        } else {
            None
        },
        None => None,
    }
}

/// The timestamp that `text` denotes in the given format, if any.
///
/// Text that chrono rejects denotes none, and neither does text with a
/// fraction of a second or a leap second: the series is held at whole seconds.
pub open spec fn parsed_timestamp(text: Seq<char>, format: TimeFormat) -> Option<Timestamp> {
    match format {
        TimeFormat::Rfc3339 => timestamp_of_rfc3339(rfc3339_instant(text)),
        TimeFormat::Naive => timestamp_of_naive(naive_instant(text, NAIVE_FORMAT@)),
    }
}

/// The timestamp made from what chrono parsed out of an RFC 3339 text.
pub fn timestamp_from_rfc3339_parts(parts: Option<(i64, u32, i32)>) -> (t: Option<Timestamp>)
    ensures
        t == timestamp_of_rfc3339(parts),
{
    match parts {
        Some((secs, nanos, offset)) => if nanos == 0 {
            Some(Timestamp { secs, offset })
        } else {
            None
        },
        None => None,
    }
}

/// The timestamp made from what chrono parsed out of a text without offset.
pub fn timestamp_from_naive_parts(parts: Option<(i64, u32)>) -> (t: Option<Timestamp>)
    ensures
        t == timestamp_of_naive(parts),
{
    match parts {
        Some((secs, nanos)) => if nanos == 0 {
            Some(Timestamp { secs, offset: 0 })
        } else {
            None
        },
        None => None,
    }
}

/// The text of a timestamp in the given format, if chrono can write it.
pub open spec fn timestamp_text(t: Timestamp, format: TimeFormat) -> Option<Seq<char>> {
    match format {
        TimeFormat::Rfc3339 => rfc3339_text(t.secs, t.offset),
        TimeFormat::Naive => naive_text(t.secs, t.offset, NAIVE_FORMAT@),
    }
}

impl Timestamp {
    /// The second of the local day at which this instant falls.
    pub open spec fn spec_time_of_day(self) -> int {
        (self.secs + self.offset) % (SECS_PER_DAY as int)
    }

    /// Read a timestamp from `text` in the given format.
    pub fn parse(text: &str, format: TimeFormat) -> (t: Option<Timestamp>)
        ensures
            t == parsed_timestamp(text@, format),
    {
        match format {
            TimeFormat::Rfc3339 => timestamp_from_rfc3339_parts(chrono_parse_rfc3339(text)),
            TimeFormat::Naive => timestamp_from_naive_parts(
                chrono_parse_naive(text, NAIVE_FORMAT),
            ),
        }
    }

    /// Write this timestamp in the given format.
    pub fn format(&self, format: TimeFormat) -> (text: Option<String>)
        ensures
            match text {
                Some(s) => timestamp_text(*self, format) == Some(s@),
                None => timestamp_text(*self, format) is None,
            },
    {
        match format {
            TimeFormat::Rfc3339 => chrono_to_rfc3339(self.secs, self.offset),
            TimeFormat::Naive => chrono_to_naive(self.secs, self.offset, NAIVE_FORMAT),
        }
    }

    /// The second of the local day at which this instant falls, counted from
    /// midnight on the clock that is `offset` seconds ahead of UTC.
    pub fn time_of_day(&self) -> (tod: u32)
        ensures
            tod == self.spec_time_of_day(),
            0 <= tod < SECS_PER_DAY,
    {
        let local: i128 = self.secs as i128 + self.offset as i128;
        let day: i128 = SECS_PER_DAY as i128;
        if local >= 0 {
            (local % day) as u32
        } else {
            let back: i128 = (-local) % day;
            proof {
                let q = (-local) / (day as int);
                assert(-local == day * q + back && 0 <= back < day) by (nonlinear_arith)
                    requires
                        q == (-local) / (day as int),
                        back == (-local) % (day as int),
                        day > 0,
                ;
                if back == 0 {
                    assert(local == day * (-q) + 0) by (nonlinear_arith)
                        requires
                            -local == day * q + back,
                            back == 0,
                    ;
                    vstd::arithmetic::div_mod::lemma_fundamental_div_mod_converse(
                        local as int,
                        day as int,
                        -q,
                        0,
                    );
                } else {
                    assert(local == day * (-q - 1) + (day - back)) by (nonlinear_arith)
                        requires
                            -local == day * q + back,
                    ;
                    vstd::arithmetic::div_mod::lemma_fundamental_div_mod_converse(
                        local as int,
                        day as int,
                        -q - 1,
                        day - back,
                    );
                }
            }
            if back == 0 {
                0
            } else {
                (day - back) as u32
            }
        }
    }
}

} // verus!
