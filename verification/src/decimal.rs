//! Unsigned decimal numerals: reading them from text and writing them back.

use vstd::prelude::*;
use vstd::string::*;

verus! {

/// Whether `c` is one of the ten decimal digits.
pub open spec fn is_digit(c: char) -> bool {
    '0' <= c && c <= '9'
}

/// The number a decimal digit stands for.
pub open spec fn digit_value(c: char) -> nat {
    (c as int - '0' as int) as nat
}

/// The character that writes a number below ten.
pub open spec fn digit_char(d: nat) -> char {
    if d == 0 {
        '0'
    } else if d == 1 {
        '1'
    } else if d == 2 {
        '2'
    } else if d == 3 {
        '3'
    } else if d == 4 {
        '4'
    } else if d == 5 {
        '5'
    } else if d == 6 {
        '6'
    } else if d == 7 {
        '7'
    } else if d == 8 {
        '8'
    } else {
        '9'
    }
}

/// Whether every character of `text` is a decimal digit.
pub open spec fn all_digits(text: Seq<char>) -> bool {
    forall|i: int| 0 <= i < text.len() ==> is_digit(#[trigger] text[i])
}

/// The value of a run of digits read in base ten, most significant digit first.
pub open spec fn digits_value(text: Seq<char>) -> nat
    decreases text.len(),
{
    if text.len() == 0 {
        0
    } else {
        digits_value(text.drop_last()) * 10 + digit_value(text.last())
    }
}

/// The digits of a numeral once an optional leading plus sign is taken off.
pub open spec fn unsigned_part(text: Seq<char>) -> Seq<char> {
    if text.len() > 0 && text[0] == '+' {
        text.subrange(1, text.len() as int)
    } else {
        text
    }
}

/// The number that `text` denotes as a 32-bit unsigned numeral, if it denotes one:
/// an optional plus sign, then at least one digit and nothing else, with a value
/// that fits in 32 bits.
pub open spec fn decimal_u32(text: Seq<char>) -> Option<u32> {
    let digits = unsigned_part(text);
    if digits.len() > 0 && all_digits(digits) && digits_value(digits) <= u32::MAX {
        Some(digits_value(digits) as u32)
    } else {
        None
    }
}

/// The shortest decimal numeral of `n`.
pub open spec fn decimal_digits(n: nat) -> Seq<char>
    decreases n,
{
    if n < 10 {
        seq![digit_char(n)]
    } else {
        decimal_digits(n / 10).push(digit_char(n % 10))
    }
}

/// Whether `text` is the shortest numeral of its value: digits only, at least one,
/// and no leading zero unless it is the single digit zero.
pub open spec fn is_canonical(text: Seq<char>) -> bool {
    &&& text.len() > 0
    &&& all_digits(text)
    &&& (text.len() > 1 ==> text[0] != '0')
}

/// Adding digits to a numeral never lowers its value.
pub proof fn lemma_digits_value_prefix(text: Seq<char>, k: int)
    requires
        0 <= k <= text.len(),
    ensures
        digits_value(text.subrange(0, k)) <= digits_value(text),
    decreases text.len() - k,
{
    if k == text.len() {
        assert(text.subrange(0, k) =~= text);
    } else {
        lemma_digits_value_prefix(text, k + 1);
        let longer = text.subrange(0, k + 1);
        assert(longer.drop_last() =~= text.subrange(0, k));
    }
}

/// Reads a 32-bit unsigned decimal numeral.
pub fn parse_decimal(text: &str) -> (result: Option<u32>)
    ensures
        result == decimal_u32(text@),
{
    if !text.is_ascii() {
        proof {
            lemma_non_ascii_is_no_numeral(text@);
        }
        return None;
    }
    let n: usize = text.unicode_len();
    let mut start: usize = 0;
    if n > 0 && text.get_ascii(0) == 43u8 {
        start = 1;
    }
    if start == n {
        return None;
    }
    let ghost digits = unsigned_part(text@);
    assert(digits =~= text@.subrange(start as int, n as int));
    let mut value: u32 = 0;
    let mut i: usize = start;
    while i < n
        invariant
            start <= i <= n,
            n == text@.len(),
            text.is_ascii(),
            digits == unsigned_part(text@),
            digits == text@.subrange(start as int, n as int),
            all_digits(digits.subrange(0, i - start)),
            value == digits_value(digits.subrange(0, i - start)),
        decreases n - i,
    {
        let b: u8 = text.get_ascii(i);
        let ghost c = text@[i as int];
        assert('\0' <= c <= '\u{7f}');
        assert(b as int == c as int);
        assert(digits[i - start] == c);
        let ghost seen = digits.subrange(0, i - start);
        let ghost next = digits.subrange(0, i + 1 - start);
        assert(next.drop_last() =~= seen);
        assert(next.last() == text@[i as int]);
        if b < 48u8 || b > 57u8 {
            assert(!is_digit(digits[i - start]));
            return None;
        }
        let d: u32 = (b - 48u8) as u32;
        assert(d == digit_value(text@[i as int]));
        assert(is_digit(text@[i as int]));
        proof {
            lemma_digits_value_prefix(digits, i + 1 - start);
        }
        if value > 429496729u32 || (value == 429496729u32 && d > 5u32) {
            assert(digits_value(next) > u32::MAX);
            return None;
        }
        value = value * 10 + d;
        i = i + 1;
        assert(all_digits(next)) by {
            assert forall|j: int| 0 <= j < next.len() implies is_digit(#[trigger] next[j]) by {
                if j < seen.len() {
                    assert(next[j] == seen[j]);
                }
            }
        }
    }
    assert(digits.subrange(0, n - start) =~= digits);
    Some(value)
}

/// A text with a character outside ASCII denotes no number.
proof fn lemma_non_ascii_is_no_numeral(text: Seq<char>)
    requires
        !vstd::utf8::is_ascii_chars(text),
    ensures
        decimal_u32(text) is None,
{
    let digits = unsigned_part(text);
    if digits.len() > 0 && all_digits(digits) {
        let i = choose|i: int| 0 <= i < text.len() && !('\0' <= #[trigger] text[i] <= '\u{7f}');
        if text.len() > 0 && text[0] == '+' {
            assert(i != 0);
            assert(is_digit(digits[i - 1]));
        } else {
            assert(is_digit(digits[i]));
        }
    }
}

/// The numeral of `n` filled up on the left with zeros to `width` characters; a
/// longer numeral stays as it is.
pub open spec fn zero_padded(n: nat, width: nat) -> Seq<char> {
    let digits = decimal_digits(n);
    if digits.len() >= width {
        digits
    } else {
        Seq::new((width - digits.len()) as nat, |i: int| '0') + digits
    }
}

/// The text of one digit.
fn digit_text(d: u8) -> (text: &'static str)
    requires
        d < 10,
    ensures
        text@ == seq![digit_char(d as nat)],
{
    proof {
        reveal_strlit("0");
        reveal_strlit("1");
        reveal_strlit("2");
        reveal_strlit("3");
        reveal_strlit("4");
        reveal_strlit("5");
        reveal_strlit("6");
        reveal_strlit("7");
        reveal_strlit("8");
        reveal_strlit("9");
    }
    let text: &'static str = if d == 0 {
        "0"
    } else if d == 1 {
        "1"
    } else if d == 2 {
        "2"
    } else if d == 3 {
        "3"
    } else if d == 4 {
        "4"
    } else if d == 5 {
        "5"
    } else if d == 6 {
        "6"
    } else if d == 7 {
        "7"
    } else if d == 8 {
        "8"
    } else {
        "9"
    };
    assert(text@ =~= seq![digit_char(d as nat)]);
    text
}

/// Writes the shortest numeral of `n` at the end of `text`.
pub fn push_decimal(text: &mut String, n: u64)
    ensures
        final(text)@ == old(text)@ + decimal_digits(n as nat),
    decreases n,
{
    if n >= 10 {
        push_decimal(text, n / 10);
    }
    text.append(digit_text((n % 10) as u8));
    assert(final(text)@ =~= old(text)@ + decimal_digits(n as nat)) by {
        if n >= 10 {
            assert(decimal_digits(n as nat) == decimal_digits((n / 10) as nat).push(
                digit_char((n % 10) as nat),
            ));
        }
    }
}

/// The shortest numeral of `n`.
pub fn format_decimal(n: u64) -> (text: String)
    ensures
        text@ == decimal_digits(n as nat),
{
    let mut text = String::new();
    push_decimal(&mut text, n);
    assert(Seq::<char>::empty() + decimal_digits(n as nat) =~= decimal_digits(n as nat));
    text
}

/// The numeral of `n` filled up on the left with zeros to `width` characters.
pub fn pad_decimal(n: u64, width: usize) -> (text: String)
    ensures
        text@ == zero_padded(n as nat, width as nat),
{
    let numeral: String = format_decimal(n);
    let digits: usize = numeral.as_str().unicode_len();
    let mut text = String::new();
    let mut filled: usize = digits;
    while filled < width
        invariant
            digits <= filled,
            filled <= width || filled == digits,
            text@ == Seq::new((filled - digits) as nat, |i: int| '0'),
            digits == decimal_digits(n as nat).len(),
        decreases width - filled,
    {
        proof {
            reveal_strlit("0");
        }
        text.append("0");
        filled = filled + 1;
        assert(text@ =~= Seq::new((filled - digits) as nat, |i: int| '0'));
    }
    text.append(numeral.as_str());
    assert(text@ =~= zero_padded(n as nat, width as nat));
    text
}

/// The digits of a numeral are digits, and read back they give the number.
pub proof fn lemma_decimal_digits(n: nat)
    ensures
        is_canonical(decimal_digits(n)),
        digits_value(decimal_digits(n)) == n,
    decreases n,
{
    let text = decimal_digits(n);
    if n < 10 {
        assert(text.drop_last() =~= Seq::<char>::empty());
        assert(digits_value(text.drop_last()) == 0);
    } else {
        lemma_decimal_digits(n / 10);
        let head = decimal_digits(n / 10);
        assert(text.drop_last() =~= head);
        assert(text[0] == head[0]);
        if head.len() == 1 {
            assert(head.drop_last() =~= Seq::<char>::empty());
            assert(digits_value(head.drop_last()) == 0);
            assert(head[0] != '0');
        }
        assert forall|i: int| 0 <= i < text.len() implies is_digit(#[trigger] text[i]) by {
            if i < head.len() {
                assert(text[i] == head[i]);
            }
        }
    }
}

/// Writing a number and reading it back gives the number.
pub proof fn lemma_written_number_reads_back(n: u32)
    ensures
        decimal_u32(decimal_digits(n as nat)) == Some(n),
{
    lemma_decimal_digits(n as nat);
    let text = decimal_digits(n as nat);
    assert(is_digit(text[0]));
    assert(unsigned_part(text) == text);
}

/// A run of digits that does not begin with zero has a value above zero.
pub proof fn lemma_leading_digit(text: Seq<char>)
    requires
        text.len() > 0,
        all_digits(text),
        text[0] != '0',
    ensures
        digits_value(text) > 0,
    decreases text.len(),
{
    let shorter = text.drop_last();
    if shorter.len() == 0 {
        assert(is_digit(text[0]));
        assert(digits_value(shorter) == 0);
    } else {
        assert forall|i: int| 0 <= i < shorter.len() implies is_digit(#[trigger] shorter[i]) by {
            assert(shorter[i] == text[i]);
        }
        assert(shorter[0] == text[0]);
        lemma_leading_digit(shorter);
    }
}

/// Reading a numeral and writing the number back gives the numeral, where the
/// numeral is the shortest one of its value: without a sign and without leading
/// zeros.
pub proof fn lemma_read_number_writes_back(text: Seq<char>)
    requires
        is_canonical(text),
    ensures
        decimal_digits(digits_value(text)) == text,
    decreases text.len(),
{
    let shorter = text.drop_last();
    let last = text.last();
    assert(is_digit(text[text.len() - 1]));
    assert(digit_char(digit_value(last)) == last);
    if shorter.len() == 0 {
        assert(digits_value(shorter) == 0);
        assert(decimal_digits(digits_value(text)) =~= text);
    } else {
        assert forall|i: int| 0 <= i < shorter.len() implies is_digit(#[trigger] shorter[i]) by {
            assert(shorter[i] == text[i]);
        }
        assert(shorter[0] == text[0]);
        lemma_leading_digit(shorter);
        lemma_read_number_writes_back(shorter);
        let value = digits_value(text);
        assert(value == digits_value(shorter) * 10 + digit_value(last));
        assert(value / 10 == digits_value(shorter));
        assert(value % 10 == digit_value(last));
        assert(decimal_digits(value) =~= text);
    }
}

} // verus!
