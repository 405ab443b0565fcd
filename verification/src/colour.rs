//! Colour names of the form `#RRGGBB` and the table that maps them to samples.

use vstd::prelude::*;
use vstd::string::*;
use crate::decimal::unsigned_part;

verus! {

/// Whether `c` is a hexadecimal digit, in either case.
pub open spec fn is_hex_digit(c: char) -> bool {
    ('0' <= c && c <= '9') || ('a' <= c && c <= 'f') || ('A' <= c && c <= 'F')
}

/// The number a hexadecimal digit stands for.
pub open spec fn hex_digit_value(c: char) -> nat {
    if c <= '9' {
        (c as int - '0' as int) as nat
    } else if c >= 'a' {
        (c as int - 'a' as int + 10) as nat
    } else {
        (c as int - 'A' as int + 10) as nat
    }
}

/// Whether every character of `text` is a hexadecimal digit.
pub open spec fn all_hex_digits(text: Seq<char>) -> bool {
    forall|i: int| 0 <= i < text.len() ==> is_hex_digit(#[trigger] text[i])
}

/// The value of a run of hexadecimal digits, most significant digit first.
pub open spec fn hex_value(text: Seq<char>) -> nat
    decreases text.len(),
{
    if text.len() == 0 {
        0
    } else {
        hex_value(text.drop_last()) * 16 + hex_digit_value(text.last())
    }
}

/// `text` without the hash signs it begins with.
pub open spec fn strip_hashes(text: Seq<char>) -> Seq<char>
    decreases text.len(),
{
    if text.len() > 0 && text[0] == '#' {
        strip_hashes(text.drop_first())
    } else {
        text
    }
}

/// The number a colour name writes, if it is one: seven characters in all, made of
/// leading hash signs, an optional plus sign, and at least one hexadecimal digit.
pub open spec fn colour_number(text: Seq<char>) -> Option<nat> {
    let digits = unsigned_part(strip_hashes(text));
    if text.len() == 7 && digits.len() > 0 && all_hex_digits(digits) {
        Some(hex_value(digits))
    } else {
        None
    }
}

/// The red, green and blue samples of a colour number: its bits 16 to 23, 8 to 15
/// and 0 to 7.
pub open spec fn colour_samples(number: nat) -> Seq<u8> {
    seq![((number / 65536) % 256) as u8, ((number / 256) % 256) as u8, (number % 256) as u8]
}

/// The samples a colour name stands for, if it is one.
pub open spec fn colour_of(text: Seq<char>) -> Option<Seq<u8>> {
    match colour_number(text) {
        Some(number) => Some(colour_samples(number)),
        None => None,
    }
}

/// Sixteen to the power `k`.
pub open spec fn sixteen_to(k: nat) -> nat
    decreases k,
{
    if k == 0 {
        1
    } else {
        16 * sixteen_to((k - 1) as nat)
    }
}

/// A run of `k` hexadecimal digits has a value below sixteen to the `k`.
pub proof fn lemma_hex_value_bound(text: Seq<char>)
    requires
        all_hex_digits(text),
    ensures
        hex_value(text) < sixteen_to(text.len()),
    decreases text.len(),
{
    if text.len() > 0 {
        let shorter = text.drop_last();
        assert forall|i: int| 0 <= i < shorter.len() implies is_hex_digit(
            #[trigger] shorter[i],
        ) by {
            assert(shorter[i] == text[i]);
        }
        lemma_hex_value_bound(shorter);
        assert(is_hex_digit(text[text.len() - 1]));
        assert(hex_digit_value(text.last()) < 16);
    }
}

/// Whether two texts are the same, decided on their bytes.
pub fn same_text(a: &str, b: &str) -> (same: bool)
    ensures
        same == (a@ == b@),
{
    let left: &[u8] = a.as_bytes();
    let right: &[u8] = b.as_bytes();
    proof {
        vstd::utf8::encode_utf8_decode_utf8(a@);
        vstd::utf8::encode_utf8_decode_utf8(b@);
    }
    if left.len() != right.len() {
        return false;
    }
    let n: usize = left.len();
    let mut i: usize = 0;
    while i < n
        invariant
            i <= n,
            n == left@.len(),
            n == right@.len(),
            forall|j: int| 0 <= j < i ==> left@[j] == right@[j],
            left@ == a.spec_bytes(),
            right@ == b.spec_bytes(),
            a@ == b@ ==> left@ == right@,
        decreases n - i,
    {
        if left[i] != right[i] {
            return false;
        }
        i = i + 1;
    }
    assert(left@ =~= right@);
    true
}

/// Reads one colour name.
pub fn parse_colour(name: &str) -> (result: Option<[u8; 3]>)
    ensures
        match result {
            Some(samples) => colour_of(name@) == Some(samples@),
            None => colour_of(name@) is None,
        },
{
    if !name.is_ascii() {
        proof {
            lemma_non_ascii_is_no_colour(name@);
        }
        return None;
    }
    let n: usize = name.as_bytes().len();
    proof {
        vstd::utf8::is_ascii_chars_encode_utf8(name@);
    }
    if n != 7 {
        return None;
    }
    let mut start: usize = 0;
    assert(name@.subrange(0, 7) =~= name@);
    while start < 7 && name.get_ascii(start) == 35u8
        invariant
            start <= 7,
            name@.len() == 7,
            name.is_ascii(),
            strip_hashes(name@) == strip_hashes(name@.subrange(start as int, 7)),
        decreases 7 - start,
    {
        proof {
            let rest = name@.subrange(start as int, 7);
            assert(rest[0] == '#');
            assert(rest.drop_first() =~= name@.subrange(start + 1, 7));
        }
        start = start + 1;
    }
    let ghost stripped = name@.subrange(start as int, 7);
    assert(strip_hashes(name@) == stripped) by {
        if start < 7 {
            assert(stripped[0] == name@[start as int]);
            assert('\0' <= name@[start as int] <= '\u{7f}');
        }
    }
    if start < 7 && name.get_ascii(start) == 43u8 {
        assert('\0' <= name@[start as int] <= '\u{7f}');
        start = start + 1;
    }
    let ghost digits = unsigned_part(stripped);
    assert(digits =~= name@.subrange(start as int, 7)) by {
        if start < 7 {
            assert('\0' <= name@[start as int] <= '\u{7f}');
        }
    }
    if start == 7 {
        return None;
    }
    let mut value: u32 = 0;
    let mut i: usize = start;
    while i < 7
        invariant
            start <= i <= 7,
            name@.len() == 7,
            name.is_ascii(),
            digits == unsigned_part(strip_hashes(name@)),
            digits == name@.subrange(start as int, 7),
            all_hex_digits(digits.subrange(0, i - start)),
            value == hex_value(digits.subrange(0, i - start)),
        decreases 7 - i,
    {
        let b: u8 = name.get_ascii(i);
        let ghost c = name@[i as int];
        let ghost seen = digits.subrange(0, i - start);
        let ghost next = digits.subrange(0, i + 1 - start);
        assert('\0' <= c <= '\u{7f}');
        assert(b as int == c as int);
        assert(digits[i - start] == c);
        assert(next.drop_last() =~= seen);
        assert(next.last() == c);
        let d: u32 = if 48u8 <= b && b <= 57u8 {
            (b - 48u8) as u32
        } else if 97u8 <= b && b <= 102u8 {
            (b - 87u8) as u32
        } else if 65u8 <= b && b <= 70u8 {
            (b - 55u8) as u32
        } else {
            assert(!is_hex_digit(digits[i - start]));
            return None;
        };
        assert(is_hex_digit(c));
        assert(d == hex_digit_value(c));
        proof {
            lemma_hex_value_bound(seen);
            reveal_with_fuel(sixteen_to, 8);
            assert(sixteen_to(seen.len()) <= 16777216);
        }
        value = value * 16 + d;
        i = i + 1;
        assert(all_hex_digits(next)) by {
            assert forall|j: int| 0 <= j < next.len() implies is_hex_digit(#[trigger] next[j]) by {
                if j < seen.len() {
                    assert(next[j] == seen[j]);
                }
            }
        }
    }
    assert(digits.subrange(0, 7 - start) =~= digits);
    let red: u8 = ((value / 65536) % 256) as u8;
    let green: u8 = ((value / 256) % 256) as u8;
    let blue: u8 = (value % 256) as u8;
    let samples: [u8; 3] = [red, green, blue];
    assert(samples@ =~= colour_samples(value as nat));
    Some(samples)
}

/// A text with a character outside ASCII is no colour name.
proof fn lemma_non_ascii_is_no_colour(text: Seq<char>)
    requires
        !vstd::utf8::is_ascii_chars(text),
    ensures
        colour_of(text) is None,
{
    let i = choose|i: int| 0 <= i < text.len() && !('\0' <= #[trigger] text[i] <= '\u{7f}');
    lemma_strip_hashes_is_suffix(text);
    let stripped = strip_hashes(text);
    let skipped = text.len() - stripped.len();
    assert(i >= skipped);
    assert(stripped[i - skipped] == text[i]);
    let digits = unsigned_part(stripped);
    if digits.len() > 0 && all_hex_digits(digits) {
        if stripped.len() > 0 && stripped[0] == '+' {
            assert(i - skipped != 0);
            assert(is_hex_digit(digits[i - skipped - 1]));
        } else {
            assert(is_hex_digit(digits[i - skipped]));
        }
    }
}

/// Stripping the hash signs leaves the end of the text, after hash signs only.
pub proof fn lemma_strip_hashes_is_suffix(text: Seq<char>)
    ensures
        strip_hashes(text).len() <= text.len(),
        strip_hashes(text) == text.subrange(
            text.len() - strip_hashes(text).len(),
            text.len() as int,
        ),
        forall|i: int| 0 <= i < text.len() - strip_hashes(text).len() ==> text[i] == '#',
    decreases text.len(),
{
    if text.len() > 0 && text[0] == '#' {
        let rest = text.drop_first();
        lemma_strip_hashes_is_suffix(rest);
        let kept = strip_hashes(rest).len();
        assert(rest.subrange(rest.len() - kept, rest.len() as int) =~= text.subrange(
            text.len() - kept,
            text.len() as int,
        ));
        assert forall|i: int| 0 <= i < text.len() - kept implies text[i] == '#' by {
            if i > 0 {
                assert(rest[i - 1] == text[i]);
            }
        }
    } else {
        assert(text.subrange(0, text.len() as int) =~= text);
    }
}

/// The texts of a list of names.
pub open spec fn texts(names: Seq<&str>) -> Seq<Seq<char>> {
    Seq::new(names.len(), |i: int| names[i]@)
}

/// Whether every text is a colour name.
pub open spec fn all_colour_names(names: Seq<Seq<char>>) -> bool {
    forall|i: int| 0 <= i < names.len() ==> colour_of(#[trigger] names[i]) is Some
}

/// Reads a list of colour names into their samples, in the same order. There is a
/// result exactly when every entry is a colour name.
pub fn parse_colours(colours: &[&str]) -> (result: Option<Vec<[u8; 3]>>)
    ensures
        match result {
            Some(values) => {
                &&& values@.len() == colours@.len()
                &&& forall|i: int|
                    0 <= i < colours@.len() ==> colour_of(colours@[i]@) == Some(
                        #[trigger] values@[i]@,
                    )
            },
            None => !all_colour_names(texts(colours@)),
        },
{
    let n: usize = colours.len();
    let mut values: Vec<[u8; 3]> = Vec::new();
    let mut i: usize = 0;
    while i < n
        invariant
            i <= n,
            n == colours@.len(),
            values@.len() == i,
            forall|j: int|
                0 <= j < i ==> colour_of(colours@[j]@) == Some(#[trigger] values@[j]@),
        decreases n - i,
    {
        match parse_colour(colours[i]) {
            Some(samples) => {
                values.push(samples);
            },
            None => {
                assert(colour_of(texts(colours@)[i as int]) is None);
                return None;
            },
        }
        i = i + 1;
    }
    Some(values)
}

/// Colour names, each with the samples it stands for.
#[derive(Debug)]
pub struct ColourTable {
    names: Vec<String>,
    values: Vec<[u8; 3]>,
}

impl ColourTable {
    #[verifier::type_invariant]
    spec fn well_formed(self) -> bool {
        &&& self.names@.len() == self.values@.len()
        &&& forall|i: int|
            0 <= i < self.names@.len() ==> colour_of(self.names@[i]@) == Some(
                #[trigger] self.values@[i]@,
            )
    }

    /// The names in the table, in the order they were given.
    pub closed spec fn names(&self) -> Seq<Seq<char>> {
        Seq::new(self.names@.len(), |i: int| self.names@[i]@)
    }

    /// Whether `name` is in the table.
    pub open spec fn knows(&self, name: Seq<char>) -> bool {
        self.names().contains(name)
    }

    /// The number of entries.
    pub fn len(&self) -> (count: usize)
        ensures
            count == self.names().len(),
    {
        self.names.len()
    }

    /// The samples of `name`, where the table holds it.
    pub fn lookup(&self, name: &str) -> (result: Option<[u8; 3]>)
        ensures
            match result {
                Some(samples) => self.knows(name@) && colour_of(name@) == Some(samples@),
                None => !self.knows(name@),
            },
    {
        proof {
            use_type_invariant(self);
        }
        let n: usize = self.names.len();
        let mut i: usize = 0;
        while i < n
            invariant
                i <= n,
                n == self.names@.len(),
                n == self.values@.len(),
                forall|j: int| 0 <= j < i ==> self.names@[j]@ != name@,
            decreases n - i,
        {
            if same_text(self.names[i].as_str(), name) {
                proof {
                    use_type_invariant(self);
                }
                assert(self.names()[i as int] == name@);
                assert(colour_of(self.names@[i as int]@) == Some(self.values@[i as int]@));
                return Some(self.values[i]);
            }
            i = i + 1;
        }
        assert forall|j: int| 0 <= j < self.names().len() implies self.names()[j] != name@ by {
            assert(self.names@[j]@ != name@);
        }
        None
    }
}

/// Builds the colour table of a list of colour names. There is a table exactly
/// when every entry is a colour name.
pub fn create_colour_map(colours: &[&str]) -> (result: Option<ColourTable>)
    ensures
        match result {
            Some(table) => all_colour_names(texts(colours@)) && table.names() == texts(colours@),
            None => !all_colour_names(texts(colours@)),
        },
{
    let values = match parse_colours(colours) {
        Some(values) => values,
        None => {
            return None;
        },
    };
    let n: usize = colours.len();
    let mut names: Vec<String> = Vec::new();
    let mut i: usize = 0;
    while i < n
        invariant
            i <= n,
            n == colours@.len(),
            names@.len() == i,
            forall|j: int| 0 <= j < i ==> (#[trigger] names@[j])@ == colours@[j]@,
        decreases n - i,
    {
        names.push(String::from_str(colours[i]));
        i = i + 1;
    }
    assert forall|j: int| 0 <= j < texts(colours@).len() implies colour_of(
        #[trigger] texts(colours@)[j],
    ) is Some by {
        assert(colour_of(colours@[j]@) == Some(values@[j]@));
    }
    let table = ColourTable { names, values };
    assert(table.names() =~= texts(colours@));
    Some(table)
}

} // verus!
