//! One line of a shard read as a record: the fields are found once, as offsets
//! into the line, and handed out as slices of it.
//!
//! A record is ASCII text. [`Access::new`] refuses a line with any other byte, so
//! that every offset into a record is a character boundary and no slice of it needs
//! to be checked again.

use vstd::prelude::*;
use vstd::string::*;
use vstd::utf8::is_ascii_chars;
use crate::decimal::{decimal_digits, decimal_u32, parse_decimal, push_decimal};
use crate::error::FormatError;
use crate::timestamp::{parsed_datetime, timestamp_from, Timestamp, TIMESTAMP_PATTERN};

verus! {

/// Where an edit took place.
#[derive(Debug, Clone, Copy, PartialEq, Eq, Structural)]
pub enum Location {
    /// A single pixel, as `x` and `y`.
    Coords(u32, u32),
    /// A rectangle, as `x1`, `y1`, `x2` and `y2` in the order the line gives them.
    Range(u32, u32, u32, u32),
}

impl Location {
    /// The location written as its variant's name and its numbers in brackets.
    pub open spec fn text(self) -> Seq<char> {
        match self {
            Location::Coords(x, y) => "Coords("@ + decimal_digits(x as nat) + ", "@
                + decimal_digits(y as nat) + ")"@,
            Location::Range(x1, y1, x2, y2) => "Range("@ + decimal_digits(x1 as nat) + ", "@
                + decimal_digits(y1 as nat) + ", "@ + decimal_digits(x2 as nat) + ", "@
                + decimal_digits(y2 as nat) + ")"@,
        }
    }

    /// Writes the location out.
    pub fn describe(&self) -> (text: String)
        ensures
            text@ == self.text(),
    {
        match *self {
            Location::Coords(x, y) => {
                let mut text: String = String::from_str("Coords(");
                push_decimal(&mut text, x as u64);
                text.append(", ");
                push_decimal(&mut text, y as u64);
                text.append(")");
                text
            },
            Location::Range(x1, y1, x2, y2) => {
                let mut text: String = String::from_str("Range(");
                push_decimal(&mut text, x1 as u64);
                text.append(", ");
                push_decimal(&mut text, y1 as u64);
                text.append(", ");
                push_decimal(&mut text, x2 as u64);
                text.append(", ");
                push_decimal(&mut text, y2 as u64);
                text.append(")");
                text
            },
        }
    }
}

/// Whether every byte is an ASCII character.
pub open spec fn is_ascii_bytes(bytes: Seq<u8>) -> bool {
    forall|i: int| 0 <= i < bytes.len() ==> #[trigger] bytes[i] < 128
}

/// The text that ASCII bytes spell, one character for each byte.
pub open spec fn ascii_text(bytes: Seq<u8>) -> Seq<char> {
    Seq::new(bytes.len(), |i: int| bytes[i] as char)
}

/// The positions of the commas in `text`, in rising order.
pub open spec fn delimiters(text: Seq<char>) -> Seq<int>
    decreases text.len(),
{
    if text.len() == 0 {
        Seq::empty()
    } else if text.last() == ',' {
        delimiters(text.drop_last()).push(text.len() - 1)
    } else {
        delimiters(text.drop_last())
    }
}

/// Whether `text` has the comma count of a record: four for a pixel, six for a
/// rectangle.
pub open spec fn has_record_arity(text: Seq<char>) -> bool {
    delimiters(text).len() == 4 || delimiters(text).len() == 6
}

/// What keeps a line from being a record, if anything does.
pub open spec fn line_fault(bytes: Seq<u8>) -> Option<FormatError> {
    if !is_ascii_bytes(bytes) {
        Some(FormatError::Encoding)
    } else if !has_record_arity(ascii_text(bytes)) {
        Some(FormatError::DelimiterCount)
    } else {
        None
    }
}

/// The timestamp field: everything before the first comma.
pub open spec fn time_field(text: Seq<char>) -> Seq<char> {
    text.subrange(0, delimiters(text)[0])
}

/// The agent field: between the first and the second comma.
pub open spec fn user_field(text: Seq<char>) -> Seq<char> {
    text.subrange(delimiters(text)[0] + 1, delimiters(text)[1])
}

/// The colour field: between the second and the third comma.
pub open spec fn colour_field(text: Seq<char>) -> Seq<char> {
    text.subrange(delimiters(text)[1] + 1, delimiters(text)[2])
}

/// The line from its first comma on: all that follows the timestamp.
pub open spec fn tail_field(text: Seq<char>) -> Seq<char> {
    text.subrange(delimiters(text)[0], text.len() as int)
}

/// The location payload without its bracket pair, or the error where the line
/// ends before both brackets are there.
pub open spec fn payload_of(text: Seq<char>) -> Result<Seq<char>, FormatError> {
    if delimiters(text)[2] + 3 <= text.len() {
        Ok(text.subrange(delimiters(text)[2] + 2, text.len() - 1))
    } else {
        Err(FormatError::Payload)
    }
}

/// The location a record's text gives. The first coordinate stands between the
/// opening bracket and the fourth comma, the last one between the last comma and the
/// closing bracket, and a rectangle's two middle ones between the commas in between.
pub open spec fn location_of(text: Seq<char>) -> Result<Location, FormatError> {
    let d = delimiters(text);
    let n = text.len() as int;
    if d[2] + 2 > d[3] || d.last() + 2 > n {
        Err(FormatError::Payload)
    } else {
        let first = decimal_u32(text.subrange(d[2] + 2, d[3]));
        let last = decimal_u32(text.subrange(d.last() + 1, n - 1));
        if d.len() == 4 {
            match (first, last) {
                (Some(x), Some(y)) => Ok(Location::Coords(x, y)),
                _ => Err(FormatError::Number),
            }
        } else {
            let second = decimal_u32(text.subrange(d[3] + 1, d[4]));
            let third = decimal_u32(text.subrange(d[4] + 1, d[5]));
            match (first, second, third, last) {
                (Some(x1), Some(y1), Some(x2), Some(y2)) => Ok(Location::Range(x1, y1, x2, y2)),
                _ => Err(FormatError::Number),
            }
        }
    }
}

/// The comma positions lie inside the text, name commas, rise strictly, and miss no
/// comma.
pub proof fn lemma_delimiters(text: Seq<char>)
    ensures
        forall|k: int|
            0 <= k < delimiters(text).len() ==> 0 <= #[trigger] delimiters(text)[k] < text.len()
                && text[delimiters(text)[k]] == ',',
        forall|j: int, k: int|
            0 <= j < k < delimiters(text).len() ==> #[trigger] delimiters(text)[j]
                < #[trigger] delimiters(text)[k],
        forall|i: int|
            0 <= i < text.len() && #[trigger] text[i] == ',' ==> delimiters(text).contains(i),
    decreases text.len(),
{
    if text.len() > 0 {
        let shorter = text.drop_last();
        lemma_delimiters(shorter);
        let d = delimiters(text);
        let e = delimiters(shorter);
        assert forall|i: int| 0 <= i < text.len() && #[trigger] text[i] == ',' implies d.contains(
            i,
        ) by {
            if i < text.len() - 1 {
                assert(shorter[i] == ',');
                let k = choose|k: int| 0 <= k < e.len() && e[k] == i;
                assert(d[k] == i);
            } else {
                assert(d[d.len() - 1] == i);
            }
        }
    }
}

/// Calls `String::from_utf8`. The contract claims only that ASCII bytes are valid
/// text and come back as the characters with the same codes.
#[verifier::external_body]
fn text_of_bytes(bytes: Vec<u8>) -> (result: Option<String>)
    ensures
        match result {
            Some(text) => is_ascii_bytes(bytes@) ==> text@ == ascii_text(bytes@),
            None => !is_ascii_bytes(bytes@),
        },
{
    match String::from_utf8(bytes) {
        Ok(text) => Some(text),
        Err(_) => None,
    }
}

/// What the standard library's `Debug` makes of a text: the text between double
/// quotes, with escapes where it holds what cannot stand there as it is.
pub uninterp spec fn debug_quoted(text: Seq<char>) -> Seq<char>;

/// Calls `format!` with `{:?}` on a `str`, which is the standard library's `Debug`
/// for it. Nothing is proved of it: the contract only names the outcome, which
/// depends on the text alone.
#[verifier::external_body]
fn quote(text: &str) -> (quoted: String)
    ensures
        quoted@ == debug_quoted(text@),
{
    format!("{:?}", text)
}

/// A record spelled out field by field, each text field as it was quoted.
pub open spec fn described(
    time: Seq<char>,
    user_id: Seq<char>,
    colour: Seq<char>,
    location: Location,
) -> Seq<char> {
    "Access { time: "@ + time + ", user_id: "@ + user_id + ", colour: "@ + colour + ", coords: "@
        + location.text() + " }"@
}

/// Spells a record out from its quoted text fields and its location.
pub fn describe_fields(time: &str, user_id: &str, colour: &str, location: Location) -> (text:
    String)
    ensures
        text@ == described(time@, user_id@, colour@, location),
{
    let mut text: String = String::from_str("Access { time: ");
    text.append(time);
    text.append(", user_id: ");
    text.append(user_id);
    text.append(", colour: ");
    text.append(colour);
    text.append(", coords: ");
    let place: String = location.describe();
    text.append(place.as_str());
    text.append(" }");
    text
}

/// One record, held as its line and the offsets of the commas in it.
#[derive(Debug)]
pub struct Access {
    contents: String,
    commas: Vec<usize>,
}

impl View for Access {
    type V = Seq<char>;

    /// The text of the line.
    closed spec fn view(&self) -> Seq<char> {
        self.contents@
    }
}

impl Access {
    #[verifier::type_invariant]
    spec fn well_formed(self) -> bool {
        &&& is_ascii_chars(self.contents@)
        &&& has_record_arity(self.contents@)
        &&& self.commas@.len() == delimiters(self.contents@).len()
        &&& forall|k: int|
            0 <= k < self.commas@.len() ==> #[trigger] self.commas@[k] as int == delimiters(
                self.contents@,
            )[k]
    }

    /// Reads a line, without its newline, as a record. The line must be ASCII and
    /// hold four or six commas; nothing else is asked of it here.
    pub fn new(contents: Vec<u8>) -> (result: Result<Access, FormatError>)
        ensures
            match result {
                Ok(record) => line_fault(contents@) is None && record@ == ascii_text(contents@),
                Err(fault) => line_fault(contents@) == Some(fault),
            },
    {
        let n: usize = contents.len();
        let ghost text = ascii_text(contents@);
        let mut commas: Vec<usize> = Vec::new();
        let mut i: usize = 0;
        while i < n
            invariant
                i <= n,
                n == contents@.len(),
                text == ascii_text(contents@),
                is_ascii_bytes(contents@.subrange(0, i as int)),
                commas@.len() == delimiters(text.subrange(0, i as int)).len(),
                forall|k: int|
                    0 <= k < commas@.len() ==> #[trigger] commas@[k] as int == delimiters(
                        text.subrange(0, i as int),
                    )[k],
            decreases n - i,
        {
            let b: u8 = contents[i];
            if b >= 128u8 {
                return Err(FormatError::Encoding);
            }
            proof {
                let longer = text.subrange(0, i + 1);
                assert(longer.drop_last() =~= text.subrange(0, i as int));
                assert(longer.last() == b as char);
                assert forall|j: int| 0 <= j < i + 1 implies #[trigger] contents@.subrange(
                    0,
                    i + 1,
                )[j] < 128 by {
                    if j < i {
                        assert(contents@.subrange(0, i as int)[j] < 128);
                    }
                }
            }
            if b == 44u8 {
                commas.push(i);
            }
            i = i + 1;
        }
        assert(contents@.subrange(0, n as int) =~= contents@);
        assert(text.subrange(0, n as int) =~= text);
        if commas.len() != 4 && commas.len() != 6 {
            return Err(FormatError::DelimiterCount);
        }
        match text_of_bytes(contents) {
            Some(line) => {
                assert(is_ascii_chars(line@));
                Ok(Access { contents: line, commas })
            },
            None => Err(FormatError::Encoding),
        }
    }

    /// Reads a borrowed line as [`Access::new`] reads an owned one.
    pub fn read(line: &[u8]) -> (result: Result<Access, FormatError>)
        ensures
            match result {
                Ok(record) => line_fault(line@) is None && record@ == ascii_text(line@),
                Err(fault) => line_fault(line@) == Some(fault),
            },
    {
        Access::new(vstd::slice::slice_to_vec(line))
    }

    /// The number of commas in the line: four or six.
    pub fn arity(&self) -> (count: usize)
        ensures
            count == delimiters(self@).len(),
            count == 4 || count == 6,
    {
        proof {
            use_type_invariant(self);
        }
        self.commas.len()
    }

    /// The length of the line in characters.
    pub fn len(&self) -> (count: usize)
        ensures
            count == self@.len(),
    {
        proof {
            use_type_invariant(self);
            vstd::utf8::is_ascii_chars_encode_utf8(self.contents@);
        }
        self.contents.as_str().as_bytes().len()
    }

    /// The whole line.
    pub fn line(&self) -> (text: &str)
        ensures
            text@ == self@,
    {
        self.contents.as_str()
    }

    /// The part of the line from `start` up to `end`, where that is a part of it.
    pub fn get(&self, start: usize, end: usize) -> (result: Option<&str>)
        ensures
            match result {
                Some(part) => start <= end <= self@.len() && part@ == self@.subrange(
                    start as int,
                    end as int,
                ),
                None => !(start <= end <= self@.len()),
            },
    {
        proof {
            use_type_invariant(self);
        }
        if start <= end && end <= self.len() {
            Some(self.contents.as_str().substring_ascii(start, end))
        } else {
            None
        }
    }

    /// The timestamp as the line writes it.
    pub fn time_raw(&self) -> (field: &str)
        ensures
            field@ == time_field(self@),
    {
        proof {
            use_type_invariant(self);
            lemma_delimiters(self.contents@);
        }
        self.contents.as_str().substring_ascii(0, self.commas[0])
    }

    /// The instant of the edit, or the error where the timestamp does not match
    /// [`TIMESTAMP_PATTERN`].
    pub fn time(&self) -> (result: Result<Timestamp, FormatError>)
        ensures
            result == timestamp_from(parsed_datetime(time_field(self@), TIMESTAMP_PATTERN@)),
    {
        Timestamp::parse(self.time_raw())
    }

    /// The agent that made the edit.
    pub fn user_id(&self) -> (field: &str)
        ensures
            field@ == user_field(self@),
    {
        proof {
            use_type_invariant(self);
            lemma_delimiters(self.contents@);
        }
        let n: usize = self.len();
        self.contents.as_str().substring_ascii(self.commas[0] + 1, self.commas[1])
    }

    /// The colour's key in the colour table.
    pub fn colour(&self) -> (field: &str)
        ensures
            field@ == colour_field(self@),
    {
        proof {
            use_type_invariant(self);
            lemma_delimiters(self.contents@);
        }
        let n: usize = self.len();
        self.contents.as_str().substring_ascii(self.commas[1] + 1, self.commas[2])
    }

    /// The line from its first comma on, as a rewritten record keeps it.
    pub fn tail(&self) -> (field: &str)
        ensures
            field@ == tail_field(self@),
    {
        proof {
            use_type_invariant(self);
            lemma_delimiters(self.contents@);
        }
        self.contents.as_str().substring_ascii(self.commas[0], self.len())
    }

    /// The location payload with its bracket pair taken off.
    pub fn coords_raw(&self) -> (result: Result<&str, FormatError>)
        ensures
            match result {
                Ok(field) => payload_of(self@) == Ok::<Seq<char>, FormatError>(field@),
                Err(fault) => payload_of(self@) == Err::<Seq<char>, FormatError>(fault),
            },
    {
        proof {
            use_type_invariant(self);
            lemma_delimiters(self.contents@);
        }
        let n: usize = self.len();
        let third: usize = self.commas[2];
        if n - third >= 3 {
            Ok(self.contents.as_str().substring_ascii(third + 2, n - 1))
        } else {
            Err(FormatError::Payload)
        }
    }

    /// The record spelled out for a reader, where it has a location.
    pub fn describe(&self) -> (result: Result<String, FormatError>)
        ensures
            match result {
                Ok(text) => location_of(self@) matches Ok(location) && text@ == described(
                    debug_quoted(time_field(self@)),
                    debug_quoted(user_field(self@)),
                    debug_quoted(colour_field(self@)),
                    location,
                ),
                Err(fault) => location_of(self@) == Err::<Location, FormatError>(fault),
            },
    {
        match self.coords() {
            Ok(location) => {
                let time: String = quote(self.time_raw());
                let user_id: String = quote(self.user_id());
                let colour: String = quote(self.colour());
                Ok(describe_fields(time.as_str(), user_id.as_str(), colour.as_str(), location))
            },
            Err(fault) => Err(fault),
        }
    }

    /// The location of the edit: a pixel for a line of four commas, a rectangle for
    /// one of six.
    pub fn coords(&self) -> (result: Result<Location, FormatError>)
        ensures
            result == location_of(self@),
    {
        proof {
            use_type_invariant(self);
            lemma_delimiters(self.contents@);
        }
        let line: &str = self.contents.as_str();
        let n: usize = self.len();
        let count: usize = self.commas.len();
        let third: usize = self.commas[2];
        let fourth: usize = self.commas[3];
        let last: usize = self.commas[count - 1];
        if third + 2 > fourth || n - last < 2 {
            return Err(FormatError::Payload);
        }
        let first_number = parse_decimal(line.substring_ascii(third + 2, fourth));
        let last_number = parse_decimal(line.substring_ascii(last + 1, n - 1));
        if count == 4 {
            match (first_number, last_number) {
                (Some(x), Some(y)) => Ok(Location::Coords(x, y)),
                _ => Err(FormatError::Number),
            }
        } else {
            let fifth: usize = self.commas[4];
            let second_number = parse_decimal(line.substring_ascii(fourth + 1, fifth));
            let third_number = parse_decimal(line.substring_ascii(fifth + 1, last));
            match (first_number, second_number, third_number, last_number) {
                (Some(x1), Some(y1), Some(x2), Some(y2)) => Ok(Location::Range(x1, y1, x2, y2)),
                _ => Err(FormatError::Number),
            }
        }
    }
}

} // verus!
