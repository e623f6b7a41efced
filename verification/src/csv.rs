//! Reading a series from rows of text, and writing it back.

use vstd::prelude::*;
use crate::decimal::{chars_of, format_load, load_text, parse_load, parsed_load};
use crate::series::TimeLoad;
use crate::timestamp::{parsed_timestamp, timestamp_text, TimeFormat, Timestamp};

verus! {

/// Why a series could not be read or written.
#[derive(Clone, Copy, Debug, PartialEq, Eq, Structural)]
pub enum CsvError {
    /// Line `line` has no comma, so it has no load field.
    MissingField { line: usize },
    /// The timestamp of line `line` cannot be read.
    BadTimestamp { line: usize },
    /// The timestamp of sample `index` has no text form.
    UnwritableTimestamp { index: usize },
}

/// Where the field that starts at `from` ends: the index of the first comma
/// at or after `from`, or the length of the line.
pub open spec fn field_end(line: Seq<char>, from: int) -> int
    decreases line.len() - from,
{
    if 0 <= from < line.len() && line[from] != ',' {
        field_end(line, from + 1)
    } else {
        from
    }
}

/// Whether the line has a comma, and with it a second field.
pub open spec fn has_two_fields(line: Seq<char>) -> bool {
    field_end(line, 0) < line.len()
}

/// The text before the first comma of the line.
pub open spec fn first_field(line: Seq<char>) -> Seq<char> {
    line.subrange(0, field_end(line, 0))
}

/// The text between the first comma of the line and the second, or the end
/// of the line where there is no second comma.
pub open spec fn second_field(line: Seq<char>) -> Seq<char> {
    line.subrange(field_end(line, 0) + 1, field_end(line, field_end(line, 0) + 1))
}

/// Whether a line of a file can be read as a sample.
pub open spec fn line_readable(line: Seq<char>, format: TimeFormat) -> bool {
    has_two_fields(line) && parsed_timestamp(first_field(line), format) is Some
}

/// The header line of a file of loads.
pub open spec fn csv_header() -> Seq<char> {
    "datetime,load_kg"@
}

/// The line of a file for one sample, given the text of its timestamp.
pub open spec fn csv_line(time_text: Seq<char>, load: Option<i64>) -> Seq<char> {
    time_text + seq![','] + load_text(load)
}

/// The series as one text: a heading, then one line for each of the first
/// `n` samples, each ended by a line feed.
pub open spec fn series_text(time: Seq<Timestamp>, load: Seq<Option<i64>>, n: int) -> Seq<char>
    decreases n,
{
    if n <= 0 {
        "datetime, load [kg]\n"@
    } else {
        series_text(time, load, n - 1) + csv_line(
            timestamp_text(time[n - 1], TimeFormat::Rfc3339).unwrap(),
            load[n - 1],
        ) + seq!['\n']
    }
}

proof fn lemma_field_end(line: Seq<char>, from: int, i: int)
    requires
        0 <= from <= i <= line.len(),
        forall|k: int| from <= k < i ==> #[trigger] line[k] != ',',
    ensures
        field_end(line, from) == field_end(line, i),
    decreases i - from,
{
    if from < i {
        lemma_field_end(line, from + 1, i);
    }
}

/// Find the end of the field that starts at `from`.
fn scan_field(s: &[char], from: usize) -> (end: usize)
    requires
        from <= s.len(),
    ensures
        end == field_end(s@, from as int),
        from <= end <= s.len(),
{
    let mut i: usize = from;
    while i < s.len() && s[i] != ','
        invariant
            from <= i <= s.len(),
            forall|k: int| from <= k < i ==> #[trigger] s[k] != ',',
        decreases s.len() - i,
    {
        i += 1;
    }
    proof {
        lemma_field_end(s@, from as int, i as int);
    }
    i
}

/// The first two fields of a line, or `None` where the line has no comma.
pub fn split_line(line: &str) -> (fields: Option<(&str, &str)>)
    ensures
        match fields {
            Some((first, second)) => {
                &&& has_two_fields(line@)
                &&& first@ == first_field(line@)
                &&& second@ == second_field(line@)
            },
            None => !has_two_fields(line@),
        },
{
    let chars: Vec<char> = chars_of(line);
    let s: &[char] = chars.as_slice();
    let comma: usize = scan_field(s, 0);
    if comma >= s.len() {
        return None;
    }
    let end: usize = scan_field(s, comma + 1);
    Some((line.substring_char(0, comma), line.substring_char(comma + 1, end)))
}

impl TimeLoad {
    /// Read a series from rows of timestamp text and load text.
    ///
    /// A load that cannot be read becomes a missing load for its timestamp. A
    /// timestamp that cannot be read ends the reading with the number of its
    /// row: where in time the row belongs cannot be made up.
    pub fn from_rows(rows: &Vec<(String, String)>, format: TimeFormat) -> (read: Result<
        TimeLoad,
        CsvError,
    >)
        ensures
            match read {
                Ok(series) => {
                    &&& series.wf()
                    &&& series.time.len() == rows.len()
                    &&& forall|i: int|
                        0 <= i < rows.len() ==> {
                            &&& parsed_timestamp((#[trigger] rows[i]).0@, format) == Some(
                                series.time[i],
                            )
                            &&& series.load[i] == parsed_load(rows[i].1@)
                        }
                },
                Err(CsvError::BadTimestamp { line }) => {
                    &&& line < rows.len()
                    &&& parsed_timestamp(rows[line as int].0@, format) is None
                    &&& forall|i: int|
                        0 <= i < line ==> parsed_timestamp((#[trigger] rows[i]).0@, format) is Some
                },
                Err(_) => false,
            },
    {
        let mut series = TimeLoad::new(rows.len());
        let mut i: usize = 0;
        while i < rows.len()
            invariant
                i <= rows.len(),
                series.time.len() == i,
                series.load.len() == i,
                forall|p: int|
                    0 <= p < i ==> {
                        &&& parsed_timestamp((#[trigger] rows[p]).0@, format) == Some(
                            series.time[p],
                        )
                        &&& series.load[p] == parsed_load(rows[p].1@)
                    },
            decreases rows.len() - i,
        {
            match Timestamp::parse(rows[i].0.as_str(), format) {
                Some(t) => {
                    series.time.push(t);
                    series.load.push(parse_load(rows[i].1.as_str()));
                },
                None => {
                    return Err(CsvError::BadTimestamp { line: i });
                },
            }
            i += 1;
        }
        Ok(series)
    }

    /// Write the series as rows of timestamp text and load text.
    ///
    /// A missing load is written `NaN`. A timestamp that has no text form ends
    /// the writing with the index of its sample.
    pub fn to_rows(&self, format: TimeFormat) -> (written: Result<Vec<(String, String)>, CsvError>)
        requires
            self.wf(),
        ensures
            match written {
                Ok(rows) => {
                    &&& rows.len() == self.time.len()
                    &&& forall|i: int|
                        0 <= i < rows.len() ==> {
                            &&& timestamp_text(#[trigger] self.time[i], format) == Some(rows[i].0@)
                            &&& rows[i].1@ == load_text(self.load[i])
                        }
                },
                Err(CsvError::UnwritableTimestamp { index }) => {
                    &&& index < self.time.len()
                    &&& timestamp_text(self.time[index as int], format) is None
                    &&& forall|i: int|
                        0 <= i < index ==> timestamp_text(#[trigger] self.time[i], format) is Some
                },
                Err(_) => false,
            },
    {
        let mut rows: Vec<(String, String)> = Vec::new();
        let mut i: usize = 0;
        while i < self.time.len()
            invariant
                self.wf(),
                i <= self.time.len(),
                rows.len() == i,
                forall|p: int|
                    0 <= p < i ==> {
                        &&& timestamp_text(#[trigger] self.time[p], format) == Some(rows[p].0@)
                        &&& rows[p].1@ == load_text(self.load[p])
                    },
            decreases self.time.len() - i,
        {
            match self.time[i].format(format) {
                Some(text) => {
                    rows.push((text, format_load(self.load[i])));
                },
                None => {
                    return Err(CsvError::UnwritableTimestamp { index: i });
                },
            }
            i += 1;
        }
        Ok(rows)
    }

    /// Read a series from the lines of a file of loads.
    ///
    /// The first line is the header and is passed over. Of every other line
    /// the text before the first comma is the timestamp, in RFC 3339, and the
    /// text after it, up to the next comma, is the load. A load that cannot be
    /// read becomes a missing load. A line without a comma, or with a
    /// timestamp that cannot be read, ends the reading with the number of the
    /// line, counted from zero for the header.
    ///
    /// Neither the order nor the spacing of the timestamps is looked at here.
    pub fn from_csv(lines: &Vec<String>) -> (read: Result<TimeLoad, CsvError>)
        ensures
            match read {
                Ok(series) => {
                    &&& series.wf()
                    &&& (series.time.len() + 1 == lines.len() || (series.time.len() == 0
                        && lines.len() == 0))
                    &&& forall|i: int|
                        1 <= i < lines.len() ==> {
                            &&& has_two_fields((#[trigger] lines[i])@)
                            &&& parsed_timestamp(first_field(lines[i]@), TimeFormat::Rfc3339)
                                == Some(series.time[i - 1])
                            &&& series.load[i - 1] == parsed_load(second_field(lines[i]@))
                        }
                },
                Err(CsvError::MissingField { line }) => {
                    &&& 1 <= line < lines.len()
                    &&& !has_two_fields(lines[line as int]@)
                    &&& forall|i: int|
                        1 <= i < line ==> line_readable((#[trigger] lines[i])@, TimeFormat::Rfc3339)
                },
                Err(CsvError::BadTimestamp { line }) => {
                    &&& 1 <= line < lines.len()
                    &&& has_two_fields(lines[line as int]@)
                    &&& parsed_timestamp(first_field(lines[line as int]@), TimeFormat::Rfc3339)
                        is None
                    &&& forall|i: int|
                        1 <= i < line ==> line_readable((#[trigger] lines[i])@, TimeFormat::Rfc3339)
                },
                Err(_) => false,
            },
    {
        let mut series = TimeLoad::new(lines.len());
        if lines.len() == 0 {
            return Ok(series);
        }
        let mut i: usize = 1;
        while i < lines.len()
            invariant
                1 <= i <= lines.len(),
                series.time.len() == i - 1,
                series.load.len() == i - 1,
                forall|p: int|
                    1 <= p < i ==> {
                        &&& has_two_fields((#[trigger] lines[p])@)
                        &&& parsed_timestamp(first_field(lines[p]@), TimeFormat::Rfc3339) == Some(
                            series.time[p - 1],
                        )
                        &&& series.load[p - 1] == parsed_load(second_field(lines[p]@))
                    },
            decreases lines.len() - i,
        {
            match split_line(lines[i].as_str()) {
                None => {
                    return Err(CsvError::MissingField { line: i });
                },
                Some((time_text, load_text)) => {
                    match Timestamp::parse(time_text, TimeFormat::Rfc3339) {
                        Some(t) => {
                            series.time.push(t);
                            series.load.push(parse_load(load_text));
                        },
                        None => {
                            return Err(CsvError::BadTimestamp { line: i });
                        },
                    }
                },
            }
            i += 1;
        }
        Ok(series)
    }

    /// Write the series as the lines of a file of loads: the header
    /// `datetime,load_kg`, then one line for each sample, with the timestamp
    /// in RFC 3339, a comma and the load.
    ///
    /// A missing load is written `NaN`. A timestamp that has no text form ends
    /// the writing with the index of its sample.
    pub fn to_csv(&self) -> (written: Result<Vec<String>, CsvError>)
        requires
            self.wf(),
        ensures
            match written {
                Ok(lines) => {
                    &&& lines.len() == self.time.len() + 1
                    &&& lines[0]@ == csv_header()
                    &&& forall|i: int|
                        1 <= i < lines.len() ==> {
                            &&& timestamp_text(self.time[i - 1], TimeFormat::Rfc3339) is Some
                            &&& (#[trigger] lines[i])@ == csv_line(
                                timestamp_text(self.time[i - 1], TimeFormat::Rfc3339).unwrap(),
                                self.load[i - 1],
                            )
                        }
                },
                Err(CsvError::UnwritableTimestamp { index }) => {
                    &&& index < self.time.len()
                    &&& timestamp_text(self.time[index as int], TimeFormat::Rfc3339) is None
                    &&& forall|i: int|
                        0 <= i < index ==> timestamp_text(
                            #[trigger] self.time[i],
                            TimeFormat::Rfc3339,
                        ) is Some
                },
                Err(_) => false,
            },
    {
        let mut lines: Vec<String> = Vec::new();
        lines.push(String::from_str("datetime,load_kg"));
        let mut i: usize = 0;
        while i < self.time.len()
            invariant
                self.wf(),
                i <= self.time.len(),
                lines.len() == i + 1,
                lines[0]@ == csv_header(),
                forall|p: int|
                    0 <= p < i ==> timestamp_text(#[trigger] self.time[p], TimeFormat::Rfc3339)
                        is Some,
                forall|p: int|
                    1 <= p <= i ==> {
                        &&& timestamp_text(self.time[p - 1], TimeFormat::Rfc3339) is Some
                        &&& (#[trigger] lines[p])@ == csv_line(
                            timestamp_text(self.time[p - 1], TimeFormat::Rfc3339).unwrap(),
                            self.load[p - 1],
                        )
                    },
            decreases self.time.len() - i,
        {
            match self.time[i].format(TimeFormat::Rfc3339) {
                Some(text) => {
                    proof {
                        reveal_strlit(",");
                    }
                    let mut line: String = text;
                    line.append(",");
                    line.append(format_load(self.load[i]).as_str());
                    assert(line@ =~= csv_line(
                        timestamp_text(self.time[i as int], TimeFormat::Rfc3339).unwrap(),
                        self.load[i as int],
                    ));
                    lines.push(line);
                },
                None => {
                    return Err(CsvError::UnwritableTimestamp { index: i });
                },
            }
            i += 1;
        }
        Ok(lines)
    }
}

impl TimeLoad {
    /// The series as one text for a reader: the heading `datetime, load [kg]`,
    /// then one line for each sample, with the timestamp in RFC 3339, a comma
    /// and the load.
    ///
    /// A timestamp that has no text form ends the writing with the index of
    /// its sample.
    pub fn to_text(&self) -> (written: Result<String, CsvError>)
        requires
            self.wf(),
        ensures
            match written {
                Ok(text) => {
                    &&& forall|i: int|
                        0 <= i < self.time.len() ==> timestamp_text(
                            #[trigger] self.time[i],
                            TimeFormat::Rfc3339,
                        ) is Some
                    &&& text@ == series_text(self.time@, self.load@, self.time.len() as int)
                },
                Err(CsvError::UnwritableTimestamp { index }) => {
                    &&& index < self.time.len()
                    &&& timestamp_text(self.time[index as int], TimeFormat::Rfc3339) is None
                    &&& forall|i: int|
                        0 <= i < index ==> timestamp_text(
                            #[trigger] self.time[i],
                            TimeFormat::Rfc3339,
                        ) is Some
                },
                Err(_) => false,
            },
    {
        let mut text: String = String::from_str("datetime, load [kg]\n");
        let mut i: usize = 0;
        while i < self.time.len()
            invariant
                self.wf(),
                i <= self.time.len(),
                forall|p: int|
                    0 <= p < i ==> timestamp_text(#[trigger] self.time[p], TimeFormat::Rfc3339)
                        is Some,
                text@ == series_text(self.time@, self.load@, i as int),
            decreases self.time.len() - i,
        {
            match self.time[i].format(TimeFormat::Rfc3339) {
                Some(time_text) => {
                    proof {
                        reveal_strlit(",");
                        reveal_strlit("\n");
                    }
                    let ghost before = text@;
                    text.append(time_text.as_str());
                    text.append(",");
                    text.append(format_load(self.load[i]).as_str());
                    text.append("\n");
                    assert(text@ =~= before + csv_line(
                        timestamp_text(self.time[i as int], TimeFormat::Rfc3339).unwrap(),
                        self.load[i as int],
                    ) + seq!['\n']);
                },
                None => {
                    return Err(CsvError::UnwritableTimestamp { index: i });
                },
            }
            i += 1;
        }
        Ok(text)
    }
}

/// Read the bad timestamps from the lines of a file, one timestamp to a
/// line. A line that cannot be read ends the reading with its number.
pub fn read_bad_datetimes(lines: &Vec<String>, format: TimeFormat) -> (read: Result<
    Vec<Timestamp>,
    CsvError,
>)
    ensures
        match read {
            Ok(bad) => {
                &&& bad.len() == lines.len()
                &&& forall|i: int|
                    0 <= i < lines.len() ==> parsed_timestamp((#[trigger] lines[i])@, format)
                        == Some(bad[i])
            },
            Err(CsvError::BadTimestamp { line }) => {
                &&& line < lines.len()
                &&& parsed_timestamp(lines[line as int]@, format) is None
                &&& forall|i: int|
                    0 <= i < line ==> parsed_timestamp((#[trigger] lines[i])@, format) is Some
            },
            Err(_) => false,
        },
{
    let mut bad: Vec<Timestamp> = Vec::new();
    let mut i: usize = 0;
    while i < lines.len()
        invariant
            i <= lines.len(),
            bad.len() == i,
            forall|p: int|
                0 <= p < i ==> parsed_timestamp((#[trigger] lines[p])@, format) == Some(bad[p]),
        decreases lines.len() - i,
    {
        match Timestamp::parse(lines[i].as_str(), format) {
            Some(t) => {
                bad.push(t);
            },
            None => {
                return Err(CsvError::BadTimestamp { line: i });
            },
        }
        i += 1;
    }
    Ok(bad)
}

} // verus!
