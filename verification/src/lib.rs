//! Continuity repair, masking and moving-average smoothing of the time series
//! of a load cell.
//!
//! A series is a run of timestamps, each with a load or with none where there
//! is no valid measurement. The library checks that the timestamps are in
//! order, takes out loads that are invalid, fills the gaps of the series so
//! that it steps evenly, and smooths it with a weighted moving average that
//! also fills in missing loads where enough of their neighbours are there.
//!
//! All arithmetic is exact. A load is a fixed-point number, held as a whole
//! number of millionths, and a timestamp is a whole number of seconds. Every
//! function states what it returns over plain sequences and integers, and the
//! modules whose names end in `_laws` hold what follows from that for the
//! rules, the repair, the window and the moving average.
//!
//! Timestamps are read and written by the chrono crate; the four functions
//! that call it are the only part of the library that is taken on trust.

pub mod arith;
pub mod axis;
pub mod csv;
pub mod decimal;
pub mod decimal_laws;
pub mod log;
pub mod masking;
pub mod masking_laws;
pub mod pipeline;
pub mod realiterator;
pub mod repair;
pub mod repair_laws;
pub mod series;
pub mod smoothing;
pub mod smoothing_laws;
pub mod timestamp;
pub mod window;
pub mod window_laws;

pub use crate::axis::{min_and_max, suitable_xfmt};
pub use crate::csv::{read_bad_datetimes, CsvError};
pub use crate::decimal::{format_load, parse_load};
pub use crate::log::{
    ERROR_GENERAL, ERROR_INVALID, ERROR_NONE, ERROR_PARSE, ERROR_SKIPPED, ERROR_STR_GENERAL,
    ERROR_STR_INVALID, ERROR_STR_NONE, ERROR_STR_PARSE, ERROR_STR_SKIPPED,
};
pub use crate::series::{SeriesError, TimeLoad};
pub use crate::smoothing::{mavg, window_total, SCALE};
pub use crate::timestamp::{TimeFormat, Timestamp};
pub use crate::window::{make_window, WindowError};
