//! Colours as six hexadecimal digits.

use vstd::prelude::*;
use vstd::string::StringExecFns;
use vstd::utf8::{
    encode_utf8, encode_utf8_decode_utf8, is_ascii_chars, is_ascii_chars_encode_utf8,
};
use crate::colour::Color;

verus! {

/// The value of a hexadecimal digit given as an ASCII byte, in either case;
/// -1 for any other byte.
pub open spec fn hex_value(b: u8) -> int {
    if 48 <= b <= 57 {
        b - 48
    } else if 65 <= b <= 70 {
        b - 55
    } else if 97 <= b <= 102 {
        b - 87
    } else {
        -1
    }
}

/// The byte is a hexadecimal digit, in either case.
pub open spec fn is_hex_digit(b: u8) -> bool {
    hex_value(b) >= 0
}

/// The byte is a decimal digit or one of `A` to `F`.
pub open spec fn is_upper_hex_digit(b: u8) -> bool {
    48 <= b <= 57 || 65 <= b <= 70
}

/// The channel value that two hexadecimal digits spell.
pub open spec fn hex_pair(high: u8, low: u8) -> u8 {
    (16 * hex_value(high) + hex_value(low)) as u8
}

/// The text without its leading `#`, if it has one.
pub open spec fn strip_hash(s: Seq<u8>) -> Seq<u8> {
    if s.len() > 0 && s[0] == 35 {
        s.skip(1)
    } else {
        s
    }
}

/// The colour that a text spells: after one optional leading `#`, exactly
/// six hexadecimal digits, two per channel, red first. Any other text
/// spells none.
pub open spec fn parse_hex_color(s: Seq<u8>) -> Option<Color> {
    let d = strip_hash(s);
    if d.len() == 6 && forall|i: int| 0 <= i < 6 ==> is_hex_digit(#[trigger] d[i]) {
        Some(
            Color { r: hex_pair(d[0], d[1]), g: hex_pair(d[2], d[3]), b: hex_pair(d[4], d[5]) },
        )
    } else {
        None
    }
}

/// The upper-case hexadecimal digit for a value below 16, as an ASCII
/// byte.
pub open spec fn upper_digit(n: int) -> u8 {
    if n < 10 {
        (48 + n) as u8
    } else {
        (55 + n) as u8
    }
}

/// The six upper-case hexadecimal digits of a colour, two per channel, red
/// first, as ASCII bytes.
pub open spec fn hex_bytes(c: Color) -> Seq<u8> {
    seq![
        upper_digit(c.r as int / 16),
        upper_digit(c.r as int % 16),
        upper_digit(c.g as int / 16),
        upper_digit(c.g as int % 16),
        upper_digit(c.b as int / 16),
        upper_digit(c.b as int % 16),
    ]
}

/// The six upper-case hexadecimal digits of a colour as characters.
pub open spec fn hex_text(c: Color) -> Seq<char> {
    Seq::new(6, |i: int| hex_bytes(c)[i] as char)
}

/// Writing a colour and reading the text back gives the colour.
pub proof fn lemma_parse_of_hex_bytes(c: Color)
    ensures
        parse_hex_color(hex_bytes(c)) == Some(c),
{
    let d = hex_bytes(c);
    assert(strip_hash(d) == d);
    assert forall|i: int| 0 <= i < 6 implies is_hex_digit(#[trigger] d[i]) by {}
}

/// Reading six upper-case hexadecimal digits and writing the colour back
/// gives the same six digits.
pub proof fn lemma_hex_round_trip(s: Seq<u8>)
    requires
        s.len() == 6,
        forall|i: int| 0 <= i < 6 ==> is_upper_hex_digit(#[trigger] s[i]),
    ensures
        parse_hex_color(s) is Some,
        hex_bytes(parse_hex_color(s)->Some_0) == s,
{
    assert(is_upper_hex_digit(s[0]));
    assert(is_upper_hex_digit(s[1]));
    assert(is_upper_hex_digit(s[2]));
    assert(is_upper_hex_digit(s[3]));
    assert(is_upper_hex_digit(s[4]));
    assert(is_upper_hex_digit(s[5]));
    assert(strip_hash(s) == s);
    assert forall|i: int| 0 <= i < 6 implies is_hex_digit(#[trigger] s[i]) by {
        assert(is_upper_hex_digit(s[i]));
    }
    assert(hex_bytes(parse_hex_color(s)->Some_0) =~= s);
}

/// The text of a colour is ASCII, and its bytes are `hex_bytes`.
pub proof fn lemma_hex_text_bytes(c: Color)
    ensures
        is_ascii_chars(hex_text(c)),
        encode_utf8(hex_text(c)) == hex_bytes(c),
{
    let t = hex_text(c);
    assert forall|i: int| 0 <= i < t.len() implies '\0' <= #[trigger] t[i] <= '\u{7f}' by {
        assert(t[i] == hex_bytes(c)[i] as char);
    }
    is_ascii_chars_encode_utf8(t);
    assert forall|i: int| 0 <= i < 6 implies encode_utf8(t)[i] == hex_bytes(c)[i] by {
        assert(t[i] as u8 == encode_utf8(t)[i]);
        assert(t[i] == hex_bytes(c)[i] as char);
    }
    assert(encode_utf8(t) =~= hex_bytes(c));
}

/// Reading a text of six upper-case hexadecimal digits and writing the
/// colour back gives the same text.
pub proof fn lemma_hex_text_round_trip(text: Seq<char>)
    requires
        encode_utf8(text).len() == 6,
        forall|i: int| 0 <= i < 6 ==> is_upper_hex_digit(#[trigger] encode_utf8(text)[i]),
    ensures
        parse_hex_color(encode_utf8(text)) is Some,
        hex_text(parse_hex_color(encode_utf8(text))->Some_0) == text,
{
    let bytes = encode_utf8(text);
    lemma_hex_round_trip(bytes);
    let c = parse_hex_color(bytes)->Some_0;
    lemma_hex_text_bytes(c);
    encode_utf8_decode_utf8(text);
    encode_utf8_decode_utf8(hex_text(c));
}

/// Writing a colour as text and reading the text back gives the colour.
pub proof fn lemma_parse_of_hex_text(c: Color)
    ensures
        parse_hex_color(encode_utf8(hex_text(c))) == Some(c),
{
    lemma_hex_text_bytes(c);
    lemma_parse_of_hex_bytes(c);
}

/// Reads the value of a hexadecimal digit.
pub fn digit_value(b: u8) -> (v: Option<u8>)
    ensures
        v is Some <==> is_hex_digit(b),
        v is Some ==> v->Some_0 as int == hex_value(b),
{
    if 48 <= b && b <= 57 {
        Some(b - 48)
    } else if 65 <= b && b <= 70 {
        Some(b - 55)
    } else if 97 <= b && b <= 102 {
        Some(b - 87)
    } else {
        None
    }
}

/// Reads the colour that the bytes at positions `start..end` spell.
pub fn parse_hex_at(bytes: &[u8], start: usize, end: usize) -> (c: Option<Color>)
    requires
        start <= end <= bytes@.len(),
    ensures
        c == parse_hex_color(bytes@.subrange(start as int, end as int)),
{
    let ghost text = bytes@.subrange(start as int, end as int);
    let first = if start < end && bytes[start] == 35 {
        start + 1
    } else {
        start
    };
    let ghost d = strip_hash(text);
    proof {
        assert(d =~= bytes@.subrange(first as int, end as int));
    }
    if end - first != 6 {
        return None;
    }
    let mut values: Vec<u8> = Vec::new();
    let mut i: usize = 0;
    while i < 6
        invariant
            i <= 6,
            start <= first,
            first + 6 == end <= bytes@.len(),
            d == bytes@.subrange(first as int, end as int),
            d == strip_hash(bytes@.subrange(start as int, end as int)),
            values@.len() == i,
            forall|k: int| 0 <= k < i ==> is_hex_digit(#[trigger] d[k]),
            forall|k: int| 0 <= k < i ==> (#[trigger] values@[k]) as int == hex_value(d[k]),
        decreases 6 - i,
    {
        match digit_value(bytes[first + i]) {
            Some(v) => {
                values.push(v);
            },
            None => {
                assert(!is_hex_digit(d[i as int]));
                return None;
            },
        }
        i = i + 1;
    }
    Some(
        Color {
            r: 16 * values[0] + values[1],
            g: 16 * values[2] + values[3],
            b: 16 * values[4] + values[5],
        },
    )
}

/// The upper-case hexadecimal digit for a value below 16, as text.
pub(crate) fn digit_text(n: u8) -> (s: &'static str)
    requires
        n < 16,
    ensures
        s@ == seq![upper_digit(n as int) as char],
{
    proof {
        reveal_strlit("0");
        reveal_strlit("1");
        reveal_strlit("2");
        reveal_strlit("3");
        reveal_strlit("4");
        reveal_strlit("5");
        reveal_strlit("6");
        reveal_strlit("7");
        reveal_strlit("8");
        reveal_strlit("9");
        reveal_strlit("A");
        reveal_strlit("B");
        reveal_strlit("C");
        reveal_strlit("D");
        reveal_strlit("E");
        reveal_strlit("F");
    }
    let s = if n == 0 {
        "0"
    } else if n == 1 {
        "1"
    } else if n == 2 {
        "2"
    } else if n == 3 {
        "3"
    } else if n == 4 {
        "4"
    } else if n == 5 {
        "5"
    } else if n == 6 {
        "6"
    } else if n == 7 {
        "7"
    } else if n == 8 {
        "8"
    } else if n == 9 {
        "9"
    } else if n == 10 {
        "A"
    } else if n == 11 {
        "B"
    } else if n == 12 {
        "C"
    } else if n == 13 {
        "D"
    } else if n == 14 {
        "E"
    } else {
        "F"
    };
    proof {
        assert(s@ =~= seq![upper_digit(n as int) as char]);
    }
    s
}

/// Appends the six upper-case hexadecimal digits of a colour to a text.
pub fn push_hex(text: &mut String, c: Color)
    ensures
        final(text)@ == old(text)@ + hex_text(c),
{
    text.append(digit_text(c.r / 16));
    text.append(digit_text(c.r % 16));
    text.append(digit_text(c.g / 16));
    text.append(digit_text(c.g % 16));
    text.append(digit_text(c.b / 16));
    text.append(digit_text(c.b % 16));
    proof {
        assert(text@ =~= old(text)@ + hex_text(c));
    }
}

} // verus!
