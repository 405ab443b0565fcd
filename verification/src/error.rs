//! The ways in which a record can be malformed.

use vstd::prelude::*;

verus! {

/// Why a line could not be read as a record. Any of these is fatal to a run.
#[derive(Debug, Clone, Copy, PartialEq, Eq, Structural)]
pub enum FormatError {
    /// The line holds a byte outside ASCII.
    Encoding,
    /// The line holds neither four nor six commas.
    DelimiterCount,
    /// The first field does not match the timestamp pattern.
    Timestamp,
    /// The location payload is too short to hold its enclosing bracket pair.
    Payload,
    /// A coordinate is not an unsigned 32-bit decimal number.
    Number,
}

impl FormatError {
    /// A short description for an operator.
    pub fn describe(&self) -> (text: &'static str)
        ensures
            text@ == match *self {
                FormatError::Encoding => "line holds a byte outside ASCII"@,
                FormatError::DelimiterCount => "line holds neither 4 nor 6 commas"@,
                FormatError::Timestamp => "timestamp does not match the pattern"@,
                FormatError::Payload => "location payload lacks its brackets"@,
                FormatError::Number => "coordinate is not an unsigned number"@,
            },
    {
        match self {
            FormatError::Encoding => "line holds a byte outside ASCII",
            FormatError::DelimiterCount => "line holds neither 4 nor 6 commas",
            FormatError::Timestamp => "timestamp does not match the pattern",
            FormatError::Payload => "location payload lacks its brackets",
            FormatError::Number => "coordinate is not an unsigned number",
        }
    }
}

} // verus!
