//! Instants on the UTC time line, read and written by the `chrono` crate.

use vstd::prelude::*;
use crate::error::FormatError;

verus! {

/// The pattern every record's timestamp is written in.
pub const TIMESTAMP_PATTERN: &'static str = "%Y-%m-%d %H:%M:%S%.3f UTC";

/// An instant: whole seconds since the start of 1970 in UTC, and the nanoseconds
/// that follow within that second (a billion or more inside a leap second).
#[derive(Debug, Clone, Copy, PartialEq, Eq, Structural)]
pub struct Timestamp {
    pub seconds: i64,
    pub nanos: u32,
}

/// What `chrono` makes of `text` under the strftime pattern `pattern`: the seconds
/// and nanoseconds of the instant it denotes in UTC, or nothing where the text does
/// not match.
pub uninterp spec fn parsed_datetime(text: Seq<char>, pattern: Seq<char>) -> Option<(i64, u32)>;

/// How `chrono` writes the UTC instant with these seconds and nanoseconds, or
/// nothing where they lie outside the dates it can represent.
pub uninterp spec fn displayed_datetime(seconds: i64, nanos: u32) -> Option<Seq<char>>;

/// Calls `chrono::NaiveDateTime::parse_from_str` and reads the result as UTC through
/// `and_utc`, `timestamp` and `timestamp_subsec_nanos`. Nothing is proved of it: the
/// contract only names the outcome, which depends on the two texts alone.
#[verifier::external_body]
fn parse_datetime(text: &str, pattern: &str) -> (result: Option<(i64, u32)>)
    ensures
        result == parsed_datetime(text@, pattern@),
{
    match chrono::NaiveDateTime::parse_from_str(text, pattern) {
        Ok(naive) => {
            let moment = naive.and_utc();
            Some((moment.timestamp(), moment.timestamp_subsec_nanos()))
        },
        Err(_) => None,
    }
}

/// Calls `chrono::DateTime::<Utc>::from_timestamp` and writes the instant with its
/// `Display` implementation. Nothing is proved of it: the contract only names the
/// outcome, which depends on the two numbers alone.
#[verifier::external_body]
fn display_datetime(seconds: i64, nanos: u32) -> (result: Option<String>)
    ensures
        match result {
            Some(text) => displayed_datetime(seconds, nanos) == Some(text@),
            None => displayed_datetime(seconds, nanos) is None,
        },
{
    match chrono::DateTime::<chrono::Utc>::from_timestamp(seconds, nanos) {
        Some(moment) => Some(format!("{}", moment)),
        None => None,
    }
}

/// The instant a parse outcome stands for, or the error that an unmatched field is.
pub open spec fn timestamp_from(parsed: Option<(i64, u32)>) -> Result<Timestamp, FormatError> {
    match parsed {
        Some((seconds, nanos)) => Ok(Timestamp { seconds, nanos }),
        None => Err(FormatError::Timestamp),
    }
}

impl Timestamp {
    /// Whether this instant lies strictly before `other`.
    pub open spec fn before(self, other: Timestamp) -> bool {
        self.seconds < other.seconds || (self.seconds == other.seconds && self.nanos
            < other.nanos)
    }

    /// Whether this instant lies before `other` or coincides with it.
    pub open spec fn at_or_before(self, other: Timestamp) -> bool {
        !other.before(self)
    }

    /// Turns the outcome of a parse into an instant or a format error.
    pub fn from_parsed(parsed: Option<(i64, u32)>) -> (result: Result<Timestamp, FormatError>)
        ensures
            result == timestamp_from(parsed),
    {
        match parsed {
            Some((seconds, nanos)) => Ok(Timestamp { seconds, nanos }),
            None => Err(FormatError::Timestamp),
        }
    }

    /// Reads a timestamp written in [`TIMESTAMP_PATTERN`].
    pub fn parse(text: &str) -> (result: Result<Timestamp, FormatError>)
        ensures
            result == timestamp_from(parsed_datetime(text@, TIMESTAMP_PATTERN@)),
    {
        Timestamp::from_parsed(parse_datetime(text, TIMESTAMP_PATTERN))
    }

    /// Writes the instant as `chrono` displays a UTC date and time, where it can.
    pub fn render(&self) -> (result: Option<String>)
        ensures
            match result {
                Some(text) => displayed_datetime(self.seconds, self.nanos) == Some(text@),
                None => displayed_datetime(self.seconds, self.nanos) is None,
            },
    {
        display_datetime(self.seconds, self.nanos)
    }

    /// Decides [`Timestamp::before`].
    pub fn is_before(&self, other: &Timestamp) -> (result: bool)
        ensures
            result == self.before(*other),
    {
        self.seconds < other.seconds || (self.seconds == other.seconds && self.nanos
            < other.nanos)
    }

    /// Decides [`Timestamp::at_or_before`].
    pub fn is_at_or_before(&self, other: &Timestamp) -> (result: bool)
        ensures
            result == self.at_or_before(*other),
    {
        !other.is_before(self)
    }
}

} // verus!
