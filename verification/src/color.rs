//! Colors, and the hexadecimal texts that stand for them.

use vstd::prelude::*;
use vstd::utf8::{encode_utf8, is_ascii_chars, is_ascii_chars_encode_utf8};

use crate::text::{hex_char, hex_digits_are_the_usual_ones, text_of};

verus! {

/// A color of the terminal.
#[derive(Debug, Clone, Copy, PartialEq, Eq, Structural)]
pub enum Color {
    Rgb(u8, u8, u8),
    Green,
    Red,
    DarkGray,
    Cyan,
    Gray,
    White,
}

/// The value of a hexadecimal digit, in either case.
pub open spec fn hex_value(b: u8) -> Option<int> {
    if 48 <= b <= 57 {
        Some(b - 48)
    } else if 65 <= b <= 70 {
        Some(b - 55)
    } else if 97 <= b <= 102 {
        Some(b - 87)
    } else {
        None
    }
}

/// The value of two hexadecimal digits.
pub open spec fn hex_pair(hi: u8, lo: u8) -> Option<int> {
    match (hex_value(hi), hex_value(lo)) {
        (Some(h), Some(l)) => Some(16 * h + l),
        _ => None,
    }
}

/// A byte string without the number signs at its start.
pub open spec fn without_hashes(bytes: Seq<u8>) -> Seq<u8>
    decreases bytes.len(),
{
    if bytes.len() > 0 && bytes[0] == 35 {
        without_hashes(bytes.drop_first())
    } else {
        bytes
    }
}

/// The color that a text like `#ff8800` stands for, given its bytes.
pub open spec fn hex_color(bytes: Seq<u8>) -> Option<Color> {
    let digits = without_hashes(bytes);
    if digits.len() != 6 {
        None
    } else {
        match (
            hex_pair(digits[0], digits[1]),
            hex_pair(digits[2], digits[3]),
            hex_pair(digits[4], digits[5]),
        ) {
            (Some(r), Some(g), Some(b)) => Some(Color::Rgb(r as u8, g as u8, b as u8)),
            _ => None,
        }
    }
}

fn digit_value(b: u8) -> (value: Option<u8>)
    ensures
        match value {
            Some(v) => hex_value(b) == Some(v as int) && v < 16,
            None => hex_value(b) is None,
        },
{
    if 48 <= b && b <= 57 {
        Some(b - 48)
    } else if 65 <= b && b <= 70 {
        Some(b - 55)
    } else if 97 <= b && b <= 102 {
        Some(b - 87)
    } else {
        None
    }
}

fn pair_value(hi: u8, lo: u8) -> (value: Option<u8>)
    ensures
        match value {
            Some(v) => hex_pair(hi, lo) == Some(v as int),
            None => hex_pair(hi, lo) is None,
        },
{
    match (digit_value(hi), digit_value(lo)) {
        (Some(h), Some(l)) => Some(16 * h + l),
        _ => None,
    }
}

/// The color that a text like `#ff8800` or `ff8800` stands for.
pub fn parse_hex_color(hex: &str) -> (color: Option<Color>)
    ensures
        color == hex_color(encode_utf8(hex@)),
{
    let bytes = hex.as_bytes();
    let mut start: usize = 0;
    assert(bytes@.skip(0) =~= bytes@);
    while start < bytes.len() && bytes[start] == 35
        invariant
            start <= bytes@.len(),
            without_hashes(bytes@.skip(start as int)) == without_hashes(bytes@),
        decreases bytes.len() - start,
    {
        assert(bytes@.skip(start as int).drop_first() =~= bytes@.skip(start + 1));
        start += 1;
    }
    let ghost digits = bytes@.skip(start as int);
    assert(without_hashes(bytes@) == digits);
    if bytes.len() - start != 6 {
        return None;
    }
    let r = pair_value(bytes[start], bytes[start + 1]);
    let g = pair_value(bytes[start + 2], bytes[start + 3]);
    let b = pair_value(bytes[start + 4], bytes[start + 5]);
    match (r, g, b) {
        (Some(r), Some(g), Some(b)) => Some(Color::Rgb(r, g, b)),
        _ => None,
    }
}

/// The color of a palette value, or the fallback where there is none or it is
/// not a color.
pub open spec fn color_or(value: Option<Seq<char>>, fallback: Color) -> Color {
    match value {
        Some(value) => match hex_color(encode_utf8(value)) {
            Some(color) => color,
            None => fallback,
        },
        None => fallback,
    }
}

/// The color of a palette value, or the fallback.
pub fn color_from_hex(value: &Option<String>, fallback: Color) -> (color: Color)
    ensures
        color == color_or(text_of(*value), fallback),
{
    match value {
        Some(value) => match parse_hex_color(value.as_str()) {
            Some(color) => color,
            None => fallback,
        },
        None => fallback,
    }
}

/// A hexadecimal digit, in either case.
pub open spec fn is_hex_digit(c: char) -> bool {
    '0' <= c <= '9' || 'A' <= c <= 'F' || 'a' <= c <= 'f'
}

/// Six hexadecimal digits and nothing else.
pub open spec fn is_hex_value(text: Seq<char>) -> bool {
    text.len() == 6 && forall|i: int| 0 <= i < text.len() ==> is_hex_digit(#[trigger] text[i])
}

/// Six hex digits stand for a color.
pub proof fn lemma_hex_value_is_a_color(text: Seq<char>)
    requires
        is_hex_value(text),
    ensures
        hex_color(encode_utf8(text)) matches Some(color) && color is Rgb,
{
    let bytes = encode_utf8(text);
    assert(is_ascii_chars(text));
    is_ascii_chars_encode_utf8(text);
    assert forall|i: int| 0 <= i < 6 implies hex_value(#[trigger] bytes[i]) is Some by {
        assert(is_hex_digit(text[i]));
        assert(bytes[i] == text[i] as u8);
    }
    assert(hex_value(bytes[0]) is Some);
    assert(without_hashes(bytes) == bytes);
    assert(hex_value(bytes[1]) is Some && hex_value(bytes[2]) is Some);
    assert(hex_value(bytes[3]) is Some && hex_value(bytes[4]) is Some);
    assert(hex_value(bytes[5]) is Some);
}

/// The six hex digits of a color, in either case, stand for that color, with or
/// without a number sign in front.
pub proof fn hex_digits_give_the_color_back(r: u8, g: u8, b: u8, upper: bool)
    ensures
        ({
            let digits = seq![
                hex_char(r as int / 16, upper) as u8,
                hex_char(r as int % 16, upper) as u8,
                hex_char(g as int / 16, upper) as u8,
                hex_char(g as int % 16, upper) as u8,
                hex_char(b as int / 16, upper) as u8,
                hex_char(b as int % 16, upper) as u8,
            ];
            &&& hex_color(digits) == Some(Color::Rgb(r, g, b))
            &&& hex_color(seq![35u8] + digits) == Some(Color::Rgb(r, g, b))
        }),
{
    let digits = seq![
        hex_char(r as int / 16, upper) as u8,
        hex_char(r as int % 16, upper) as u8,
        hex_char(g as int / 16, upper) as u8,
        hex_char(g as int % 16, upper) as u8,
        hex_char(b as int / 16, upper) as u8,
        hex_char(b as int % 16, upper) as u8,
    ];
    lemma_hex_value(r as int / 16, upper);
    lemma_hex_value(r as int % 16, upper);
    lemma_hex_value(g as int / 16, upper);
    lemma_hex_value(g as int % 16, upper);
    lemma_hex_value(b as int / 16, upper);
    lemma_hex_value(b as int % 16, upper);
    assert(digits[0] != 35);
    assert(without_hashes(digits) == digits);
    let marked = seq![35u8] + digits;
    assert(marked.drop_first() =~= digits);
    assert(without_hashes(marked) == without_hashes(digits));
}

proof fn lemma_hex_value(d: int, upper: bool)
    requires
        0 <= d < 16,
    ensures
        hex_value(hex_char(d, upper) as u8) == Some(d),
{
}

/// A text that stands for a color is six hexadecimal digits, after any number
/// signs: one that holds anything else is rejected.
pub proof fn only_hex_digits_make_a_color(bytes: Seq<u8>, i: int)
    requires
        0 <= i < without_hashes(bytes).len(),
        hex_value(without_hashes(bytes)[i]) is None,
    ensures
        hex_color(bytes) is None,
{
    let digits = without_hashes(bytes);
    if digits.len() == 6 {
        assert(i == 0 || i == 1 || i == 2 || i == 3 || i == 4 || i == 5);
    }
}

/// Six hex digits stand for a color by the value of each pair, whatever the case of each
/// digit and however many number signs stand in front.
pub proof fn hex_digits_in_any_case_are_a_color(r: u8, g: u8, b: u8, upper: Seq<bool>, n: nat)
    requires
        upper.len() == 6,
    ensures
        ({
            let parts = seq![
                r as int / 16,
                r as int % 16,
                g as int / 16,
                g as int % 16,
                b as int / 16,
                b as int % 16,
            ];
            let digits = Seq::new(
                6,
                |i: int|
                    (if upper[i] {
                        "0123456789ABCDEF"@[parts[i]]
                    } else {
                        "0123456789abcdef"@[parts[i]]
                    }) as u8,
            );
            hex_color(Seq::new(n, |i: int| '#' as u8) + digits) == Some(Color::Rgb(r, g, b))
        }),
{
    let parts = seq![
        r as int / 16,
        r as int % 16,
        g as int / 16,
        g as int % 16,
        b as int / 16,
        b as int % 16,
    ];
    let digits = Seq::new(
        6,
        |i: int|
            (if upper[i] {
                "0123456789ABCDEF"@[parts[i]]
            } else {
                "0123456789abcdef"@[parts[i]]
            }) as u8,
    );
    assert forall|i: int| 0 <= i < 6 implies #[trigger] hex_value(digits[i]) == Some(parts[i]) by {
        assert(0 <= parts[i] < 16);
        hex_digits_are_the_usual_ones(parts[i]);
        lemma_hex_value(parts[i], upper[i]);
    }
    assert(hex_value(digits[0]) == Some(parts[0]) && hex_value(digits[1]) == Some(parts[1]));
    assert(hex_value(digits[2]) == Some(parts[2]) && hex_value(digits[3]) == Some(parts[3]));
    assert(hex_value(digits[4]) == Some(parts[4]) && hex_value(digits[5]) == Some(parts[5]));
    assert(without_hashes(digits) == digits);
    lemma_hashes_drop(digits, n);
}

proof fn lemma_hashes_drop(digits: Seq<u8>, n: nat)
    ensures
        without_hashes(Seq::new(n, |i: int| '#' as u8) + digits) == without_hashes(digits),
    decreases n,
{
    let marked = Seq::new(n, |i: int| '#' as u8) + digits;
    if n > 0 {
        lemma_hashes_drop(digits, (n - 1) as nat);
        assert(marked.drop_first() =~= Seq::new((n - 1) as nat, |i: int| '#' as u8) + digits);
    } else {
        assert(marked =~= digits);
    }
}

/// Nothing else stands for a color: a text that does is number signs and then six hex
/// digits, and the color is one of red, green and blue.
pub proof fn only_six_hex_digits_are_a_color(bytes: Seq<u8>)
    requires
        hex_color(bytes) is Some,
    ensures
        hex_color(bytes)->0 is Rgb,
        bytes.len() >= 6,
        forall|i: int| 0 <= i < bytes.len() - 6 ==> #[trigger] bytes[i] == '#' as u8,
        forall|i: int|
            bytes.len() - 6 <= i < bytes.len() ==> is_hex_digit(#[trigger] bytes[i] as char),
{
    let digits = without_hashes(bytes);
    lemma_without_hashes(bytes);
    let n = bytes.len() - 6;
    assert(digits[0] == bytes[n] && digits[1] == bytes[n + 1] && digits[2] == bytes[n + 2]);
    assert(digits[3] == bytes[n + 3] && digits[4] == bytes[n + 4] && digits[5] == bytes[n + 5]);
    assert forall|i: int| n <= i < bytes.len() implies is_hex_digit(
        #[trigger] bytes[i] as char,
    ) by {
        assert(hex_value(bytes[i]) is Some);
    }
}

proof fn lemma_without_hashes(bytes: Seq<u8>)
    ensures
        without_hashes(bytes).len() <= bytes.len(),
        without_hashes(bytes) == bytes.skip(bytes.len() - without_hashes(bytes).len()),
        forall|i: int|
            0 <= i < bytes.len() - without_hashes(bytes).len() ==> #[trigger] bytes[i]
                == '#' as u8,
    decreases bytes.len(),
{
    let out = without_hashes(bytes);
    if bytes.len() > 0 && bytes[0] == 35 {
        let rest = bytes.drop_first();
        lemma_without_hashes(rest);
        assert(rest.skip(rest.len() - out.len()) =~= bytes.skip(bytes.len() - out.len()));
        assert forall|i: int| 0 <= i < bytes.len() - out.len() implies #[trigger] bytes[i]
            == '#' as u8 by {
            if i > 0 {
                assert(rest[i - 1] == bytes[i]);
            }
        }
    } else {
        assert(bytes.skip(0) =~= bytes);
    }
}

/// The fallback is used exactly where there is no value or the value is no color.
pub proof fn the_fallback_stands_in_for_no_color(value: Option<Seq<char>>, fallback: Color)
    ensures
        value is None ==> color_or(value, fallback) == fallback,
        value is Some && hex_color(encode_utf8(value->0)) is None ==> color_or(value, fallback)
            == fallback,
        value is Some && hex_color(encode_utf8(value->0)) is Some ==> Some(
            color_or(value, fallback),
        ) == hex_color(encode_utf8(value->0)),
{
}

} // verus!
