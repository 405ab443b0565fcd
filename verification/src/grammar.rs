//! The grammar of record lines, and what the parser makes of every line of it.

use vstd::prelude::*;
use crate::access::{
    ascii_text, colour_field, delimiters, has_record_arity, is_ascii_bytes, line_fault,
    location_of, payload_of, time_field, user_field, Location,
};
use crate::decimal::{
    decimal_digits, decimal_u32, digits_value, is_canonical, lemma_read_number_writes_back,
    unsigned_part,
};
use crate::error::FormatError;

verus! {

/// Whether `text` holds no comma.
pub open spec fn comma_free(text: Seq<char>) -> bool {
    forall|i: int| 0 <= i < text.len() ==> #[trigger] text[i] != ','
}

/// The three fields that every record begins with, each followed by a comma, and
/// the bracket that opens the location payload.
pub open spec fn line_start(
    time: Seq<char>,
    agent: Seq<char>,
    colour: Seq<char>,
    opening: char,
) -> Seq<char> {
    time + seq![','] + agent + seq![','] + colour + seq![','] + seq![opening]
}

/// The line of an edit of a single pixel: `time,agent,colour,"x,y"`, with any
/// character but a comma for either bracket.
pub open spec fn point_line(
    time: Seq<char>,
    agent: Seq<char>,
    colour: Seq<char>,
    opening: char,
    x: Seq<char>,
    y: Seq<char>,
    closing: char,
) -> Seq<char> {
    line_start(time, agent, colour, opening) + x + seq![','] + y + seq![closing]
}

/// The line of an edit of a rectangle: `time,agent,colour,"x1,y1,x2,y2"`.
pub open spec fn rect_line(
    time: Seq<char>,
    agent: Seq<char>,
    colour: Seq<char>,
    opening: char,
    x1: Seq<char>,
    y1: Seq<char>,
    x2: Seq<char>,
    y2: Seq<char>,
    closing: char,
) -> Seq<char> {
    line_start(time, agent, colour, opening) + x1 + seq![','] + y1 + seq![','] + x2 + seq![',']
        + y2 + seq![closing]
}

/// A piece without a comma adds no comma position.
pub proof fn lemma_append_piece(prefix: Seq<char>, piece: Seq<char>)
    requires
        comma_free(piece),
    ensures
        delimiters(prefix + piece) == delimiters(prefix),
    decreases piece.len(),
{
    if piece.len() == 0 {
        assert(prefix + piece =~= prefix);
    } else {
        let shorter = piece.drop_last();
        assert forall|i: int| 0 <= i < shorter.len() implies #[trigger] shorter[i] != ',' by {
            assert(shorter[i] == piece[i]);
        }
        lemma_append_piece(prefix, shorter);
        assert((prefix + piece).drop_last() =~= prefix + shorter);
        assert((prefix + piece).last() == piece[piece.len() - 1]);
    }
}

/// A comma adds its own position.
pub proof fn lemma_append_comma(prefix: Seq<char>)
    ensures
        delimiters(prefix + seq![',']) == delimiters(prefix).push(prefix.len() as int),
{
    assert((prefix + seq![',']).drop_last() =~= prefix);
}

/// Any other single character adds no position.
pub proof fn lemma_append_char(prefix: Seq<char>, c: char)
    requires
        c != ',',
    ensures
        delimiters(prefix + seq![c]) == delimiters(prefix),
{
    assert((prefix + seq![c]).drop_last() =~= prefix);
}

/// The commas of the start of a line are the three that end its fields.
pub proof fn lemma_line_start(time: Seq<char>, agent: Seq<char>, colour: Seq<char>, opening: char)
    requires
        comma_free(time),
        comma_free(agent),
        comma_free(colour),
        opening != ',',
    ensures
        delimiters(line_start(time, agent, colour, opening)) == seq![
            time.len() as int,
            (time.len() + 1 + agent.len()) as int,
            (time.len() + 1 + agent.len() + 1 + colour.len()) as int,
        ],
        line_start(time, agent, colour, opening).len() == time.len() + agent.len()
            + colour.len() + 4,
{
    let empty = Seq::<char>::empty();
    lemma_append_piece(empty, time);
    assert(empty + time =~= time);
    assert(delimiters(empty) =~= Seq::<int>::empty());
    let a = time + seq![','];
    lemma_append_comma(time);
    let b = a + agent;
    lemma_append_piece(a, agent);
    let c = b + seq![','];
    lemma_append_comma(b);
    let d = c + colour;
    lemma_append_piece(c, colour);
    let e = d + seq![','];
    lemma_append_comma(d);
    lemma_append_char(e, opening);
    assert(delimiters(e) =~= seq![
        time.len() as int,
        (time.len() + 1 + agent.len()) as int,
        (time.len() + 1 + agent.len() + 1 + colour.len()) as int,
    ]);
}

/// Every line of a single pixel reads as what it was written from: the three
/// leading fields come back as they are, the payload comes back without its
/// brackets, and the location is the pixel whose coordinates are the numbers that
/// `x` and `y` write. Where either writes no number, the line has no location.
pub proof fn lemma_point_line(
    time: Seq<char>,
    agent: Seq<char>,
    colour: Seq<char>,
    opening: char,
    x: Seq<char>,
    y: Seq<char>,
    closing: char,
)
    requires
        comma_free(time),
        comma_free(agent),
        comma_free(colour),
        comma_free(x),
        comma_free(y),
        opening != ',',
        closing != ',',
    ensures
        ({
            let line = point_line(time, agent, colour, opening, x, y, closing);
            &&& delimiters(line).len() == 4
            &&& time_field(line) == time
            &&& user_field(line) == agent
            &&& colour_field(line) == colour
            &&& payload_of(line) == Ok::<Seq<char>, FormatError>(x + seq![','] + y)
            &&& location_of(line) == match (decimal_u32(x), decimal_u32(y)) {
                (Some(column), Some(row)) => Ok::<Location, FormatError>(
                    Location::Coords(column, row),
                ),
                _ => Err::<Location, FormatError>(FormatError::Number),
            }
        }),
{
    let start = line_start(time, agent, colour, opening);
    let line = point_line(time, agent, colour, opening, x, y, closing);
    lemma_line_start(time, agent, colour, opening);
    let a = start + x;
    lemma_append_piece(start, x);
    let b = a + seq![','];
    lemma_append_comma(a);
    let c = b + y;
    lemma_append_piece(b, y);
    lemma_append_char(c, closing);
    let d = delimiters(line);
    let t = time.len() as int;
    let u = agent.len() as int;
    let v = colour.len() as int;
    assert(d =~= seq![t, t + 1 + u, t + u + v + 2, t + u + v + 4 + x.len()]);
    assert(line.subrange(0, d[0]) =~= time);
    assert(line.subrange(d[0] + 1, d[1]) =~= agent);
    assert(line.subrange(d[1] + 1, d[2]) =~= colour);
    assert(line.subrange(d[2] + 2, line.len() - 1) =~= x + seq![','] + y);
    assert(line.subrange(d[2] + 2, d[3]) =~= x);
    assert(d.last() == d[3]);
    assert(line.subrange(d[3] + 1, line.len() - 1) =~= y);
}

/// A line of a single pixel whose coordinates are written in the shortest form,
/// without sign or leading zeros, gives back those numerals when the coordinates
/// it is read to are written out again.
pub proof fn lemma_point_line_round_trip(
    time: Seq<char>,
    agent: Seq<char>,
    colour: Seq<char>,
    opening: char,
    x: Seq<char>,
    y: Seq<char>,
    closing: char,
)
    requires
        comma_free(time),
        comma_free(agent),
        comma_free(colour),
        opening != ',',
        closing != ',',
        is_canonical(x),
        is_canonical(y),
        digits_value(x) <= u32::MAX,
        digits_value(y) <= u32::MAX,
    ensures
        location_of(point_line(time, agent, colour, opening, x, y, closing)) matches Ok(
            Location::Coords(column, row),
        ) && decimal_digits(column as nat) == x && decimal_digits(row as nat) == y,
{
    assert(comma_free(x)) by {
        assert forall|i: int| 0 <= i < x.len() implies #[trigger] x[i] != ',' by {
            assert(crate::decimal::is_digit(x[i]));
        }
    }
    assert(comma_free(y)) by {
        assert forall|i: int| 0 <= i < y.len() implies #[trigger] y[i] != ',' by {
            assert(crate::decimal::is_digit(y[i]));
        }
    }
    lemma_point_line(time, agent, colour, opening, x, y, closing);
    assert(crate::decimal::is_digit(x[0]));
    assert(crate::decimal::is_digit(y[0]));
    assert(unsigned_part(x) == x);
    assert(unsigned_part(y) == y);
    lemma_read_number_writes_back(x);
    lemma_read_number_writes_back(y);
}

/// The commas of a rectangle's line: the three of its start and the three between
/// its coordinates.
proof fn lemma_rect_delimiters(
    time: Seq<char>,
    agent: Seq<char>,
    colour: Seq<char>,
    opening: char,
    x1: Seq<char>,
    y1: Seq<char>,
    x2: Seq<char>,
    y2: Seq<char>,
    closing: char,
)
    requires
        comma_free(time),
        comma_free(agent),
        comma_free(colour),
        comma_free(x1),
        comma_free(y1),
        comma_free(x2),
        comma_free(y2),
        opening != ',',
        closing != ',',
    ensures
        ({
            let line = rect_line(time, agent, colour, opening, x1, y1, x2, y2, closing);
            let start = time.len() + agent.len() + colour.len() + 4;
            &&& line.len() == start + x1.len() + y1.len() + x2.len() + y2.len() + 4
            &&& delimiters(line) == seq![
                time.len() as int,
                (time.len() + 1 + agent.len()) as int,
                (start - 2) as int,
                (start + x1.len()) as int,
                (start + x1.len() + 1 + y1.len()) as int,
                (start + x1.len() + 1 + y1.len() + 1 + x2.len()) as int,
            ]
        }),
{
    let start = line_start(time, agent, colour, opening);
    lemma_line_start(time, agent, colour, opening);
    let a = start + x1;
    lemma_append_piece(start, x1);
    let b = a + seq![','];
    lemma_append_comma(a);
    let c = b + y1;
    lemma_append_piece(b, y1);
    let e = c + seq![','];
    lemma_append_comma(c);
    let f = e + x2;
    lemma_append_piece(e, x2);
    let g = f + seq![','];
    lemma_append_comma(f);
    let h = g + y2;
    lemma_append_piece(g, y2);
    lemma_append_char(h, closing);
    let p = time.len() + agent.len() + colour.len() + 4;
    assert(delimiters(h + seq![closing]) =~= seq![
        time.len() as int,
        (time.len() + 1 + agent.len()) as int,
        (p - 2) as int,
        (p + x1.len()) as int,
        (p + x1.len() + 1 + y1.len()) as int,
        (p + x1.len() + 1 + y1.len() + 1 + x2.len()) as int,
    ]);
}

/// A text begins with itself, and goes on beginning with what it began with when
/// more is added.
proof fn lemma_begins(whole: Seq<char>, part: Seq<char>, more: Seq<char>)
    requires
        part.is_prefix_of(whole),
    ensures
        part.is_prefix_of(whole + more),
        whole.is_prefix_of(whole + more),
{
    assert(part =~= (whole + more).subrange(0, part.len() as int));
    assert(whole =~= (whole + more).subrange(0, whole.len() as int));
}

/// A text begins with whatever begins a text it begins with.
proof fn lemma_joins(part: Seq<char>, stage: Seq<char>, line: Seq<char>)
    requires
        part.is_prefix_of(stage),
        stage.is_prefix_of(line),
    ensures
        part.is_prefix_of(line),
{
    assert(part =~= stage.subrange(0, part.len() as int));
    assert(stage =~= line.subrange(0, stage.len() as int));
    assert forall|i: int| 0 <= i < part.len() implies part[i] == line[i] by {
        assert(stage.subrange(0, part.len() as int)[i] == stage[i]);
        assert(line.subrange(0, stage.len() as int)[i] == line[i]);
    }
    assert(part =~= line.subrange(0, part.len() as int));
}

/// A piece is found again in every text that begins with what ends in it.
proof fn lemma_piece(line: Seq<char>, before: Seq<char>, piece: Seq<char>)
    requires
        (before + piece).is_prefix_of(line),
    ensures
        line.subrange(before.len() as int, (before.len() + piece.len()) as int) == piece,
{
    let stage = before + piece;
    let found = line.subrange(before.len() as int, (before.len() + piece.len()) as int);
    assert(stage =~= line.subrange(0, stage.len() as int));
    assert forall|i: int| 0 <= i < piece.len() implies found[i] == piece[i] by {
        assert(line.subrange(0, stage.len() as int)[before.len() + i] == stage[before.len() + i]);
    }
    assert(found =~= piece);
}

/// Where the fields of a rectangle's line lie in it.
proof fn lemma_rect_fields(
    time: Seq<char>,
    agent: Seq<char>,
    colour: Seq<char>,
    opening: char,
    x1: Seq<char>,
    y1: Seq<char>,
    x2: Seq<char>,
    y2: Seq<char>,
    closing: char,
)
    ensures
        ({
            let line = rect_line(time, agent, colour, opening, x1, y1, x2, y2, closing);
            let a = time.len() + 1;
            let b = a + agent.len() + 1;
            let c = b + colour.len() + 2;
            let d = c + x1.len() + 1;
            let e = d + y1.len() + 1;
            let f = e + x2.len() + 1;
            &&& line.len() == f + y2.len() + 1
            &&& line.subrange(0, a - 1) == time
            &&& line.subrange(a as int, b - 1) == agent
            &&& line.subrange(b as int, c - 2) == colour
            &&& line.subrange(c as int, d - 1) == x1
            &&& line.subrange(d as int, e - 1) == y1
            &&& line.subrange(e as int, f - 1) == x2
            &&& line.subrange(f as int, line.len() - 1) == y2
            &&& line.subrange(c as int, line.len() - 1) == x1 + seq![','] + y1 + seq![','] + x2
                + seq![','] + y2
        }),
{
    let comma = seq![','];
    let line = rect_line(time, agent, colour, opening, x1, y1, x2, y2, closing);
    let s1 = time + comma;
    let s2 = s1 + agent;
    let s3 = s2 + comma;
    let s4 = s3 + colour;
    let s5 = s4 + comma;
    let s6 = s5 + seq![opening];
    let s7 = s6 + x1;
    let s8 = s7 + comma;
    let s9 = s8 + y1;
    let s10 = s9 + comma;
    let s11 = s10 + x2;
    let s12 = s11 + comma;
    let s13 = s12 + y2;
    assert(line == s13 + seq![closing]);
    lemma_begins(s13, s13, seq![closing]);
    lemma_begins(s12, s12, y2);
    lemma_begins(s11, s11, comma);
    lemma_begins(s10, s10, x2);
    lemma_begins(s9, s9, comma);
    lemma_begins(s8, s8, y1);
    lemma_begins(s7, s7, comma);
    lemma_begins(s6, s6, x1);
    lemma_begins(s5, s5, seq![opening]);
    lemma_begins(s4, s4, comma);
    lemma_begins(s3, s3, colour);
    lemma_begins(s2, s2, comma);
    lemma_begins(s1, s1, agent);
    lemma_begins(time, time, comma);
    lemma_joins(s11, s13, line);
    lemma_joins(s9, s11, line);
    lemma_joins(s7, s9, line);
    lemma_joins(s4, s7, line);
    lemma_joins(s2, s4, line);
    lemma_joins(time, s2, line);
    lemma_piece(line, Seq::empty(), time);
    lemma_piece(line, s1, agent);
    lemma_piece(line, s3, colour);
    lemma_piece(line, s6, x1);
    lemma_piece(line, s8, y1);
    lemma_piece(line, s10, x2);
    lemma_piece(line, s12, y2);
    let payload = x1 + comma + y1 + comma + x2 + comma + y2;
    assert(s13 == s6 + payload) by {
        vstd::seq_lib::lemma_concat_associative(s6, x1, comma);
        vstd::seq_lib::lemma_concat_associative(s6, x1 + comma, y1);
        vstd::seq_lib::lemma_concat_associative(s6, x1 + comma + y1, comma);
        vstd::seq_lib::lemma_concat_associative(s6, x1 + comma + y1 + comma, x2);
        vstd::seq_lib::lemma_concat_associative(s6, x1 + comma + y1 + comma + x2, comma);
        vstd::seq_lib::lemma_concat_associative(s6, x1 + comma + y1 + comma + x2 + comma, y2);
    }
    lemma_piece(line, s6, payload);
}

/// Every line of a rectangle reads as what it was written from: its location is
/// the rectangle whose coordinates are the numbers that the four fields write, in
/// the order the line gives them. Where one of them writes no number, the line has
/// no location.
pub proof fn lemma_rect_line(
    time: Seq<char>,
    agent: Seq<char>,
    colour: Seq<char>,
    opening: char,
    x1: Seq<char>,
    y1: Seq<char>,
    x2: Seq<char>,
    y2: Seq<char>,
    closing: char,
)
    requires
        comma_free(time),
        comma_free(agent),
        comma_free(colour),
        comma_free(x1),
        comma_free(y1),
        comma_free(x2),
        comma_free(y2),
        opening != ',',
        closing != ',',
    ensures
        ({
            let line = rect_line(time, agent, colour, opening, x1, y1, x2, y2, closing);
            &&& delimiters(line).len() == 6
            &&& time_field(line) == time
            &&& user_field(line) == agent
            &&& colour_field(line) == colour
            &&& payload_of(line) == Ok::<Seq<char>, FormatError>(
                x1 + seq![','] + y1 + seq![','] + x2 + seq![','] + y2,
            )
            &&& location_of(line) == match (
                decimal_u32(x1),
                decimal_u32(y1),
                decimal_u32(x2),
                decimal_u32(y2),
            ) {
                (Some(left), Some(top), Some(right), Some(bottom)) => Ok::<Location, FormatError>(
                    Location::Range(left, top, right, bottom),
                ),
                _ => Err::<Location, FormatError>(FormatError::Number),
            }
        }),
{
    let line = rect_line(time, agent, colour, opening, x1, y1, x2, y2, closing);
    lemma_rect_delimiters(time, agent, colour, opening, x1, y1, x2, y2, closing);
    lemma_rect_fields(time, agent, colour, opening, x1, y1, x2, y2, closing);
    assert(delimiters(line).last() == delimiters(line)[5]);
}

/// A line whose comma count is neither four nor six is no record, whatever else
/// it holds.
pub proof fn lemma_other_arity_is_no_record(line: Seq<u8>)
    requires
        !has_record_arity(ascii_text(line)),
    ensures
        line_fault(line) is Some,
        is_ascii_bytes(line) ==> line_fault(line) == Some(FormatError::DelimiterCount),
{
}

} // verus!
