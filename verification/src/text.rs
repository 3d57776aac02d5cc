//! Text: decimal numbers, UTF-8, and white space.
use vstd::prelude::*;
use vstd::utf8::{decode_utf8, encode_scalar, encode_utf8, valid_utf8};

verus! {

/// The digit for a number below ten.
pub open spec fn digit(value: nat) -> char {
    ('0' as u32 + value) as char
}

/// A number in decimal, without leading zeros.
pub open spec fn decimal(value: nat) -> Seq<char>
    decreases value,
{
    if value < 10 {
        seq![digit(value)]
    } else {
        decimal(value / 10).push(digit(value % 10))
    }
}

fn digit_text(value: u64) -> (text: &'static str)
    requires
        value < 10,
    ensures
        text@ == seq![digit(value as nat)],
{
    proof {
        reveal_strlit("0");
        reveal_strlit("1");
        reveal_strlit("2");
        reveal_strlit("3");
        reveal_strlit("4");
        reveal_strlit("5");
        reveal_strlit("6");
        reveal_strlit("7");
        reveal_strlit("8");
        reveal_strlit("9");
    }
    let text: &'static str = match value {
        0 => "0",
        1 => "1",
        2 => "2",
        3 => "3",
        4 => "4",
        5 => "5",
        6 => "6",
        7 => "7",
        8 => "8",
        _ => "9",
    };
    assert(text@ =~= seq![digit(value as nat)]);
    text
}

/// Append a number in decimal.
pub fn push_decimal(out: &mut String, value: u64)
    ensures
        final(out)@ == old(out)@ + decimal(value as nat),
    decreases value,
{
    if value >= 10 {
        push_decimal(out, value / 10);
    }
    let ghost before = out@;
    out.append(digit_text(value % 10));
    assert(out@ =~= old(out)@ + decimal(value as nat));
}

/// A number in decimal.
pub fn decimal_text(value: u64) -> (text: String)
    ensures
        text@ == decimal(value as nat),
{
    let mut text = String::new();
    push_decimal(&mut text, value);
    assert(text@ =~= decimal(value as nat));
    text
}

/// A decimal digit.
pub open spec fn is_digit(c: char) -> bool {
    '0' <= c <= '9'
}

/// A number in decimal is made of digits.
pub proof fn lemma_decimal_is_digits(value: nat)
    ensures
        decimal(value).len() > 0,
        forall|i: int| 0 <= i < decimal(value).len() ==> is_digit(#[trigger] decimal(value)[i]),
    decreases value,
{
    if value >= 10 {
        lemma_decimal_is_digits(value / 10);
    }
}

/// Different numbers are different in decimal.
pub proof fn lemma_decimal_tells_numbers_apart(first: nat, second: nat)
    requires
        decimal(first) == decimal(second),
    ensures
        first == second,
    decreases first,
{
    lemma_decimal_is_digits(first / 10);
    lemma_decimal_is_digits(second / 10);
    assert(decimal(first).last() == digit(first % 10));
    assert(decimal(second).last() == digit(second % 10));
    assert(decimal(first).len() == decimal(second).len());
    if first >= 10 && second >= 10 {
        assert(decimal(first).drop_last() =~= decimal(first / 10));
        assert(decimal(second).drop_last() =~= decimal(second / 10));
        lemma_decimal_tells_numbers_apart(first / 10, second / 10);
    }
}

/// Whether two texts are the same.
pub fn same_text(first: &str, second: &str) -> (same: bool)
    ensures
        same == (first@ == second@),
{
    first.to_owned() == second.to_owned()
}

/// The parts one after the other, with the separator between them.
pub open spec fn joined(parts: Seq<Seq<char>>, separator: Seq<char>) -> Seq<char>
    decreases parts.len(),
{
    if parts.len() == 0 {
        Seq::empty()
    } else if parts.len() == 1 {
        parts[0]
    } else {
        joined(parts.drop_last(), separator) + separator + parts.last()
    }
}

/// What the texts say.
pub open spec fn texts(parts: Seq<String>) -> Seq<Seq<char>> {
    parts.map_values(|part: String| part@)
}

/// Put the parts one after the other, with the separator between them.
pub fn join(parts: &Vec<String>, separator: &str) -> (whole: String)
    ensures
        whole@ == joined(texts(parts@), separator@),
{
    let mut whole = String::new();
    let mut i: usize = 0;
    while i < parts.len()
        invariant
            i <= parts@.len(),
            whole@ == joined(texts(parts@).take(i as int), separator@),
        decreases parts@.len() - i,
    {
        if i > 0 {
            whole.append(separator);
        }
        whole.append(parts[i].as_str());
        assert(texts(parts@).take(i + 1).drop_last() =~= texts(parts@).take(i as int));
        assert(whole@ =~= joined(texts(parts@).take(i + 1), separator@));
        i = i + 1;
    }
    assert(texts(parts@).take(i as int) =~= texts(parts@));
    whole
}

/// The text that bytes are in UTF-8, through [`String::from_utf8`]: there is one
/// exactly where the bytes are valid UTF-8, and it is what they decode to.
#[verifier::external_body]
pub(crate) fn utf8_text(bytes: Vec<u8>) -> (text: Option<String>)
    ensures
        text is Some <==> valid_utf8(bytes@),
        text matches Some(text) ==> text@ == decode_utf8(bytes@),
{
    String::from_utf8(bytes).ok()
}

/// The Unicode property `White_Space`.
pub open spec fn is_white_space(c: char) -> bool {
    ||| '\u{9}' <= c <= '\u{d}'
    ||| c == '\u{20}'
    ||| c == '\u{85}'
    ||| c == '\u{a0}'
    ||| c == '\u{1680}'
    ||| '\u{2000}' <= c <= '\u{200a}'
    ||| c == '\u{2028}'
    ||| c == '\u{2029}'
    ||| c == '\u{202f}'
    ||| c == '\u{205f}'
    ||| c == '\u{3000}'
}

/// Text without the white space that it begins with.
pub open spec fn trimmed_start(text: Seq<char>) -> Seq<char>
    decreases text.len(),
{
    if text.len() > 0 && is_white_space(text[0]) {
        trimmed_start(text.drop_first())
    } else {
        text
    }
}

/// Text without the white space that it ends in.
pub open spec fn trimmed_end(text: Seq<char>) -> Seq<char>
    decreases text.len(),
{
    if text.len() > 0 && is_white_space(text.last()) {
        trimmed_end(text.drop_last())
    } else {
        text
    }
}

/// Text without the white space that it begins with and ends in.
pub open spec fn trimmed(text: Seq<char>) -> Seq<char> {
    trimmed_end(trimmed_start(text))
}

/// Text without leading and trailing white space, through [`str::trim`], which
/// goes by the Unicode property `White_Space`.
#[verifier::external_body]
pub(crate) fn trim(text: &str) -> (inner: &str)
    ensures
        inner@ == trimmed(text@),
{
    text.trim()
}

/// No byte of a character's code is a line feed, but that of the line feed.
proof fn lemma_no_line_feed_in_code(c: char)
    requires
        c != '\n',
    ensures
        !encode_scalar(c as u32).contains(10u8),
{
    let v = c as u32;
    let code = encode_scalar(v);
    assert(v != 10);
    assert(v <= 0x7f && v != 10 ==> (v & 0x7F) as u8 != 10) by (bit_vector);
    assert((0xC0 | ((v >> 6) & 0x1F) as u8) >= 0x80) by (bit_vector);
    assert((0xE0 | ((v >> 12) & 0x0F) as u8) >= 0x80) by (bit_vector);
    assert((0xF0 | ((v >> 18) & 0x7) as u8) >= 0x80) by (bit_vector);
    assert((0x80 | (v & 0x3F) as u8) >= 0x80) by (bit_vector);
    assert((0x80 | ((v >> 6) & 0x3F) as u8) >= 0x80) by (bit_vector);
    assert((0x80 | ((v >> 12) & 0x3F) as u8) >= 0x80) by (bit_vector);
    assert forall|i: int| 0 <= i < code.len() implies code[i] != 10 by {}
}

/// Text without a line feed has none in UTF-8.
pub proof fn lemma_no_line_feed_in_utf8(text: Seq<char>)
    requires
        !text.contains('\n'),
    ensures
        !encode_utf8(text).contains(10u8),
    decreases text.len(),
{
    if text.len() > 0 {
        assert(text.contains(text[0]));
        lemma_no_line_feed_in_code(text[0]);
        let rest = text.drop_first();
        assert forall|i: int| 0 <= i < rest.len() implies rest[i] != '\n' by {
            assert(text.contains(text[i + 1]));
        }
        lemma_no_line_feed_in_utf8(rest);
        let code = encode_scalar(text[0] as u32);
        let bytes = encode_utf8(text);
        assert forall|i: int| 0 <= i < bytes.len() implies bytes[i] != 10 by {
            if i < code.len() {
                assert(code.contains(code[i]));
            } else {
                assert(encode_utf8(rest).contains(encode_utf8(rest)[i - code.len()]));
            }
        }
    }
}

/// No character takes more than four bytes.
pub proof fn lemma_utf8_length(text: Seq<char>)
    ensures
        encode_utf8(text).len() <= 4 * text.len(),
    decreases text.len(),
{
    if text.len() > 0 {
        lemma_utf8_length(text.drop_first());
    }
}

} // verus!
