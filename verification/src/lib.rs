//! Work-time logging core: parsing of daily work-log files, parsing of
//! holiday/vacation declarations, consolidation of the required work time
//! per calendar day, and aggregation of logged durations by activity key.
#![verifier::loop_isolation(false)]

pub mod dates;
pub mod required_time;
pub mod util;
pub mod work_day;

use vstd::prelude::*;

verus! {

/// Every failure the library can report.  File names and line numbers locate
/// the offending input; line numbers are 1-based.
#[derive(Clone, Debug, PartialEq, Eq)]
pub enum Error {
    /// A malformed command-line value (reported by callers that parse flags).
    CommandLine(String),
    /// An input file could not be read; the payload describes the failure.
    IO(String),
    /// A numeric field could not be parsed as an integer.
    ParseInt,
    /// A year/month/day triple does not name a valid calendar date.
    ParseDay,
    /// An hour/minute pair does not name a valid clock time.
    ParseTime,
    /// A file name that could not be interpreted at all.
    InvalidFileName { file: String },
    /// A holiday-file line with a date prefix whose tail is not a valid
    /// declaration, or a date range running backwards.
    ParseDayType { file: String, line_nr: u32 },
    /// An entry header whose time is earlier than its predecessor's.
    TimeNotMonotonic { file: String, line_nr: u32 },
    /// Two irreconcilable day-type declarations for the same date.
    DuplicateDate { file: String, line_nr: u32 },
    /// An entry header showing up after the blank line that closed the
    /// entries block.
    EntryAfterSeparator { file: String, line_nr: u32 },
    /// A work-day file from which no date could be determined.
    MissingDate { file: String },
    /// A non-empty work-day file whose last entry is not the "Pause" entry
    /// (fatal only in strict mode).
    MissingFinalPause { file: String },
    /// An entry header dated differently from the day the file is for.
    UnexpectedDate {
        file: String,
        line_nr: u32,
        expected_date: dates::Date,
        found_date: dates::Date,
    },
}

} // verus!
