//! Text primitives: numbers, hex digits, ASCII case, trimming, lossy decoding
//! and the byte order of names.

use vstd::prelude::*;
use vstd::utf8::{decode_utf8, encode_utf8, encode_utf8_decode_utf8, encode_utf8_valid_utf8, valid_utf8};

verus! {

/// `String::push` appends one character at the end.
pub assume_specification[ String::push ](s: &mut String, c: char)
    ensures
        final(s)@ == old(s)@.push(c),
;

// ---------------------------------------------------------------------------
// Numbers
// ---------------------------------------------------------------------------

/// The character of a decimal digit.
pub open spec fn digit_char(d: nat) -> char {
    (48 + d) as char
}

/// A number written in base ten, without sign or leading zeros.
pub open spec fn decimal_text(n: nat) -> Seq<char>
    decreases n,
{
    if n < 10 {
        seq![digit_char(n)]
    } else {
        decimal_text(n / 10).push(digit_char(n % 10))
    }
}

/// Appends `n` in base ten.
pub fn push_decimal(out: &mut String, n: u64)
    ensures
        final(out)@ == old(out)@ + decimal_text(n as nat),
    decreases n,
{
    if n >= 10 {
        push_decimal(out, n / 10);
    }
    let d: u8 = (n % 10) as u8;
    out.push((48 + d) as char);
}

/// The character of a hexadecimal digit, `A`..`F` when `upper`, else `a`..`f`.
pub open spec fn hex_char(d: int, upper: bool) -> char {
    if d < 10 {
        (48 + d) as char
    } else if upper {
        (55 + d) as char
    } else {
        (87 + d) as char
    }
}

/// A byte as two hexadecimal digits.
pub open spec fn hex_byte(b: u8, upper: bool) -> Seq<char> {
    seq![hex_char(b as int / 16, upper), hex_char(b as int % 16, upper)]
}

/// The hexadecimal digits of every byte, one byte after the other.
pub open spec fn hex_text(bytes: Seq<u8>, upper: bool) -> Seq<char>
    decreases bytes.len(),
{
    if bytes.len() == 0 {
        seq![]
    } else {
        hex_text(bytes.drop_last(), upper) + hex_byte(bytes.last(), upper)
    }
}

fn hex_digit(d: u8, upper: bool) -> (c: char)
    requires
        d < 16,
    ensures
        c == hex_char(d as int, upper),
{
    if d < 10 {
        (48 + d) as char
    } else if upper {
        (55 + d) as char
    } else {
        (87 + d) as char
    }
}

/// Appends a byte as two hexadecimal digits.
pub fn push_hex(out: &mut String, b: u8, upper: bool)
    ensures
        final(out)@ == old(out)@ + hex_byte(b, upper),
{
    out.push(hex_digit(b / 16, upper));
    out.push(hex_digit(b % 16, upper));
    assert(out@ =~= old(out)@ + hex_byte(b, upper));
}

/// Every byte in hexadecimal, without separators.
pub fn hex_string(bytes: &[u8], upper: bool) -> (out: String)
    ensures
        out@ == hex_text(bytes@, upper),
{
    let mut out = String::new();
    let mut i: usize = 0;
    while i < bytes.len()
        invariant
            i <= bytes.len(),
            out@ == hex_text(bytes@.take(i as int), upper),
        decreases bytes.len() - i,
    {
        push_hex(&mut out, bytes[i], upper);
        i += 1;
        assert(bytes@.take(i as int).drop_last() =~= bytes@.take(i - 1));
    }
    assert(bytes@.take(bytes.len() as int) =~= bytes@);
    out
}

// ---------------------------------------------------------------------------
// Strings and bytes
// ---------------------------------------------------------------------------

/// The text of an optional string.
pub open spec fn text_of(s: Option<String>) -> Option<Seq<char>> {
    match s {
        Some(s) => Some(s@),
        None => None,
    }
}

/// The characters of a string, in order.
pub fn chars_of(s: &str) -> (out: Vec<char>)
    ensures
        out@ == s@,
{
    let mut out: Vec<char> = Vec::new();
    for c in it: s.chars()
        invariant
            it.seq() == s@,
            out@ == s@.take(it.index() as int),
    {
        out.push(c);
        assert(out@ =~= s@.take(it.index() + 1));
    }
    assert(s@.take(s@.len() as int) =~= s@);
    out
}

/// The string of a run of characters.
pub fn string_of(chars: &[char]) -> (out: String)
    ensures
        out@ == chars@,
{
    let mut out = String::new();
    let mut i: usize = 0;
    while i < chars.len()
        invariant
            i <= chars.len(),
            out@ == chars@.take(i as int),
        decreases chars.len() - i,
    {
        out.push(chars[i]);
        i += 1;
        assert(out@ =~= chars@.take(i as int));
    }
    assert(chars@.take(chars.len() as int) =~= chars@);
    out
}

/// Whether two byte strings are equal.
pub fn bytes_eq(a: &[u8], b: &[u8]) -> (eq: bool)
    ensures
        eq == (a@ == b@),
{
    if a.len() != b.len() {
        return false;
    }
    let mut i: usize = 0;
    while i < a.len()
        invariant
            a.len() == b.len(),
            i <= a.len(),
            forall|k: int| 0 <= k < i ==> a@[k] == b@[k],
        decreases a.len() - i,
    {
        if a[i] != b[i] {
            return false;
        }
        i += 1;
    }
    assert(a@ =~= b@);
    true
}

/// Two texts with the same UTF-8 bytes are the same text.
pub proof fn lemma_utf8_injective(a: Seq<char>, b: Seq<char>)
    requires
        encode_utf8(a) == encode_utf8(b),
    ensures
        a == b,
{
    encode_utf8_decode_utf8(a);
    encode_utf8_decode_utf8(b);
}

/// Whether two strings are equal.
pub fn str_eq(a: &str, b: &str) -> (eq: bool)
    ensures
        eq == (a@ == b@),
{
    let eq = bytes_eq(a.as_bytes(), b.as_bytes());
    proof {
        if eq {
            lemma_utf8_injective(a@, b@);
        }
    }
    eq
}

/// `A`..`Z` in lower case; every other character as it is.
pub open spec fn ascii_lower(c: char) -> char {
    if 'A' <= c <= 'Z' {
        (c as int + 32) as char
    } else {
        c
    }
}

/// A text with its ASCII capitals in lower case.
pub open spec fn ascii_lower_text(s: Seq<char>) -> Seq<char> {
    s.map_values(|c: char| ascii_lower(c))
}

/// The string with its ASCII capitals in lower case.
pub fn to_ascii_lowercase(s: &str) -> (out: String)
    ensures
        out@ == ascii_lower_text(s@),
{
    let chars = chars_of(s);
    let mut out = String::new();
    let mut i: usize = 0;
    while i < chars.len()
        invariant
            chars@ == s@,
            i <= chars.len(),
            out@ == ascii_lower_text(s@.take(i as int)),
        decreases chars.len() - i,
    {
        let c = chars[i];
        if 'A' <= c && c <= 'Z' {
            out.push((c as u8 + 32) as char);
        } else {
            out.push(c);
        }
        i += 1;
        assert(out@ =~= ascii_lower_text(s@.take(i as int)));
    }
    assert(s@.take(s@.len() as int) =~= s@);
    out
}

/// The control characters: U+0000..U+001F and U+007F..U+009F.
pub open spec fn is_control_char(c: char) -> bool {
    (c as int) <= 0x1f || 0x7f <= (c as int) <= 0x9f
}

/// Whether a character is a control character.
pub fn is_control(c: char) -> (b: bool)
    ensures
        b == is_control_char(c),
{
    let n: u32 = c as u32;
    n <= 0x1f || (0x7f <= n && n <= 0x9f)
}

/// The characters with the Unicode property `White_Space`.
pub open spec fn is_white_space_char(c: char) -> bool {
    let n = c as int;
    ||| 0x09 <= n <= 0x0d
    ||| n == 0x20
    ||| n == 0x85
    ||| n == 0xa0
    ||| n == 0x1680
    ||| 0x2000 <= n <= 0x200a
    ||| n == 0x2028
    ||| n == 0x2029
    ||| n == 0x202f
    ||| n == 0x205f
    ||| n == 0x3000
}

/// Whether a character is white space.
pub fn is_white_space(c: char) -> (b: bool)
    ensures
        b == is_white_space_char(c),
{
    let n: u32 = c as u32;
    (0x09 <= n && n <= 0x0d) || n == 0x20 || n == 0x85 || n == 0xa0 || n == 0x1680 || (0x2000 <= n
        && n <= 0x200a) || n == 0x2028 || n == 0x2029 || n == 0x202f || n == 0x205f || n == 0x3000
}

/// A text without its leading white space.
pub open spec fn trim_start_text(s: Seq<char>) -> Seq<char>
    decreases s.len(),
{
    if s.len() > 0 && is_white_space_char(s[0]) {
        trim_start_text(s.drop_first())
    } else {
        s
    }
}

/// A text without its trailing white space.
pub open spec fn trim_end_text(s: Seq<char>) -> Seq<char>
    decreases s.len(),
{
    if s.len() > 0 && is_white_space_char(s.last()) {
        trim_end_text(s.drop_last())
    } else {
        s
    }
}

/// A text without its leading and trailing white space.
pub open spec fn trim_text(s: Seq<char>) -> Seq<char> {
    trim_end_text(trim_start_text(s))
}

/// The string without its leading and trailing white space.
pub fn trim(s: &str) -> (out: String)
    ensures
        out@ == trim_text(s@),
{
    let chars = chars_of(s);
    let mut i: usize = 0;
    assert(s@.skip(0) =~= s@);
    while i < chars.len() && is_white_space(chars[i])
        invariant
            chars@ == s@,
            i <= chars.len(),
            trim_start_text(s@.skip(i as int)) == trim_start_text(s@),
        decreases chars.len() - i,
    {
        assert(s@.skip(i as int).drop_first() =~= s@.skip(i + 1));
        i += 1;
    }
    let ghost rest = s@.skip(i as int);
    assert(trim_start_text(s@) == rest);
    let mut j: usize = chars.len();
    assert(s@.subrange(i as int, j as int) =~= rest);
    while i < j && is_white_space(chars[j - 1])
        invariant
            chars@ == s@,
            i <= j <= chars.len(),
            trim_end_text(s@.subrange(i as int, j as int)) == trim_end_text(rest),
        decreases j,
    {
        assert(s@.subrange(i as int, j as int).drop_last() =~= s@.subrange(i as int, j - 1));
        j -= 1;
    }
    assert(trim_end_text(rest) == s@.subrange(i as int, j as int));
    let mut out = String::new();
    let mut k: usize = i;
    while k < j
        invariant
            chars@ == s@,
            i <= k <= j <= chars.len(),
            out@ == s@.subrange(i as int, k as int),
        decreases j - k,
    {
        out.push(chars[k]);
        k += 1;
        assert(out@ =~= s@.subrange(i as int, k as int));
    }
    out
}

/// What `String::from_utf8_lossy` decodes a byte string to.
pub uninterp spec fn utf8_lossy(bytes: Seq<u8>) -> Seq<char>;

/// `String::from_utf8_lossy` decodes bytes as UTF-8 and puts U+FFFD where they
/// are not UTF-8. The result depends on the bytes alone; bytes that are valid
/// UTF-8 decode to the text that they encode. How many replacement characters
/// stand for a malformed run is left unsaid.
#[verifier::external_body]
fn from_utf8_lossy(bytes: &[u8]) -> (out: String)
    ensures
        out@ == utf8_lossy(bytes@),
        valid_utf8(bytes@) ==> out@ == decode_utf8(bytes@),
{
    String::from_utf8_lossy(bytes).into_owned()
}

/// A best-effort decode of bytes as UTF-8: exact where they are valid.
pub open spec fn lossy_text(bytes: Seq<u8>) -> Seq<char> {
    if valid_utf8(bytes) {
        decode_utf8(bytes)
    } else {
        utf8_lossy(bytes)
    }
}

/// A best-effort decode of bytes as UTF-8.
pub fn lossy_string(bytes: &[u8]) -> (out: String)
    ensures
        out@ == lossy_text(bytes@),
{
    from_utf8_lossy(bytes)
}

/// A text survives a trip through its bytes.
pub proof fn lossy_text_of_utf8(text: Seq<char>)
    ensures
        lossy_text(encode_utf8(text)) == text,
{
    encode_utf8_valid_utf8(text);
    encode_utf8_decode_utf8(text);
}

// ---------------------------------------------------------------------------
// The order of names
// ---------------------------------------------------------------------------

/// Lexicographic order of byte strings: `a` comes strictly before `b`.
pub open spec fn bytes_before(a: Seq<u8>, b: Seq<u8>) -> bool
    decreases a.len(),
{
    if b.len() == 0 {
        false
    } else if a.len() == 0 {
        true
    } else if a[0] != b[0] {
        a[0] < b[0]
    } else {
        bytes_before(a.drop_first(), b.drop_first())
    }
}

/// The order of strings: that of their UTF-8 bytes.
pub open spec fn name_before(a: Seq<char>, b: Seq<char>) -> bool {
    bytes_before(encode_utf8(a), encode_utf8(b))
}

proof fn lemma_bytes_before_irreflexive(a: Seq<u8>)
    ensures
        !bytes_before(a, a),
    decreases a.len(),
{
    if a.len() > 0 {
        lemma_bytes_before_irreflexive(a.drop_first());
    }
}

proof fn lemma_bytes_before_transitive(a: Seq<u8>, b: Seq<u8>, c: Seq<u8>)
    requires
        bytes_before(a, b),
        bytes_before(b, c),
    ensures
        bytes_before(a, c),
    decreases a.len(),
{
    if a.len() > 0 && a[0] == b[0] && b[0] == c[0] {
        lemma_bytes_before_transitive(a.drop_first(), b.drop_first(), c.drop_first());
    }
}

proof fn lemma_bytes_before_total(a: Seq<u8>, b: Seq<u8>)
    ensures
        bytes_before(a, b) || bytes_before(b, a) || a == b,
    decreases a.len(),
{
    if a.len() == 0 {
        if b.len() == 0 {
            assert(a =~= b);
        }
    } else if b.len() > 0 && a[0] == b[0] {
        lemma_bytes_before_total(a.drop_first(), b.drop_first());
        if a.drop_first() == b.drop_first() {
            assert(a =~= seq![a[0]] + a.drop_first());
            assert(b =~= seq![b[0]] + b.drop_first());
        }
    }
}

/// The order of strings is a strict total order.
pub proof fn name_before_is_strict_total_order()
    ensures
        forall|a: Seq<char>| !#[trigger] name_before(a, a),
        forall|a: Seq<char>, b: Seq<char>, c: Seq<char>|
            #[trigger] name_before(a, b) && #[trigger] name_before(b, c) ==> name_before(a, c),
        forall|a: Seq<char>, b: Seq<char>|
            #[trigger] name_before(a, b) || name_before(b, a) || a == b,
{
    assert forall|a: Seq<char>| !#[trigger] name_before(a, a) by {
        lemma_bytes_before_irreflexive(encode_utf8(a));
    }
    assert forall|a: Seq<char>, b: Seq<char>, c: Seq<char>|
        #[trigger] name_before(a, b) && #[trigger] name_before(b, c) implies name_before(a, c) by {
        lemma_bytes_before_transitive(encode_utf8(a), encode_utf8(b), encode_utf8(c));
    }
    assert forall|a: Seq<char>, b: Seq<char>|
        #[trigger] name_before(a, b) || name_before(b, a) || a == b by {
        lemma_bytes_before_total(encode_utf8(a), encode_utf8(b));
        if encode_utf8(a) == encode_utf8(b) {
            lemma_utf8_injective(a, b);
        }
    }
}

/// Whether `a` comes strictly before `b`.
pub fn str_before(a: &str, b: &str) -> (before: bool)
    ensures
        before == name_before(a@, b@),
{
    let x = a.as_bytes();
    let y = b.as_bytes();
    let mut i: usize = 0;
    assert(x@.skip(0) =~= x@);
    assert(y@.skip(0) =~= y@);
    while i < x.len() && i < y.len()
        invariant
            x@ == encode_utf8(a@),
            y@ == encode_utf8(b@),
            i <= x.len(),
            i <= y.len(),
            bytes_before(x@, y@) == bytes_before(x@.skip(i as int), y@.skip(i as int)),
        decreases x.len() - i,
    {
        if x[i] != y[i] {
            return x[i] < y[i];
        }
        assert(x@.skip(i as int).drop_first() =~= x@.skip(i + 1));
        assert(y@.skip(i as int).drop_first() =~= y@.skip(i + 1));
        i += 1;
    }
    i < y.len()
}

// ---------------------------------------------------------------------------
// Laws
// ---------------------------------------------------------------------------

/// The number that decimal digits stand for.
pub open spec fn decimal_value(text: Seq<char>) -> int
    decreases text.len(),
{
    if text.len() == 0 {
        0
    } else {
        10 * decimal_value(text.drop_last()) + (text.last() as int - '0' as int)
    }
}

/// A number in base ten reads back as that number; it is written with the digits
/// `0` to `9` alone, at least one, and no zero in front.
pub proof fn decimals_read_back(n: nat)
    ensures
        decimal_value(decimal_text(n)) == n,
        decimal_text(n).len() > 0,
        forall|i: int| 0 <= i < decimal_text(n).len() ==> '0' <= #[trigger] decimal_text(n)[i] <= '9',
        n > 0 ==> decimal_text(n)[0] != '0',
        n == 0 ==> decimal_text(n) == "0"@,
    decreases n,
{
    reveal_strlit("0");
    let text = decimal_text(n);
    if n < 10 {
        assert(text.drop_last() =~= seq![]);
        assert(decimal_value(text.drop_last()) == 0);
        if n == 0 {
            assert(text =~= "0"@);
        }
    } else {
        decimals_read_back(n / 10);
        assert(text.drop_last() =~= decimal_text(n / 10));
        assert(text[0] == decimal_text(n / 10)[0]);
    }
}

/// The digits of base sixteen, in upper and in lower case.
pub proof fn hex_digits_are_the_usual_ones(d: int)
    requires
        0 <= d < 16,
    ensures
        hex_char(d, true) == "0123456789ABCDEF"@[d],
        hex_char(d, false) == "0123456789abcdef"@[d],
{
    reveal_strlit("0123456789ABCDEF");
    reveal_strlit("0123456789abcdef");
}

/// Bytes in hex are two digits for every byte, in order: first how many sixteens it
/// holds, then what is left.
pub proof fn every_byte_has_two_hex_digits(bytes: Seq<u8>, upper: bool, k: int)
    requires
        0 <= k < bytes.len(),
    ensures
        hex_text(bytes, upper).len() == 2 * bytes.len(),
        ({
            let digits = if upper {
                "0123456789ABCDEF"@
            } else {
                "0123456789abcdef"@
            };
            &&& hex_text(bytes, upper)[2 * k] == digits[bytes[k] as int / 16]
            &&& hex_text(bytes, upper)[2 * k + 1] == digits[bytes[k] as int % 16]
        }),
    decreases bytes.len(),
{
    hex_digits_are_the_usual_ones(bytes[k] as int / 16);
    hex_digits_are_the_usual_ones(bytes[k] as int % 16);
    let before = bytes.drop_last();
    if before.len() > 0 {
        every_byte_has_two_hex_digits(
            before,
            upper,
            if k < before.len() {
                k
            } else {
                0
            },
        );
    } else {
        assert(hex_text(before, upper) =~= seq![]);
    }
}

/// Lower case touches the capitals `A` to `Z` alone: each becomes the small letter of
/// its place in the alphabet, and every other character stays.
pub proof fn lower_case_touches_capitals_alone(s: Seq<char>, i: int)
    requires
        0 <= i < s.len(),
    ensures
        ascii_lower_text(s).len() == s.len(),
        'A' <= s[i] <= 'Z' ==> ascii_lower_text(s)[i] as int - 'a' as int == s[i] as int
            - 'A' as int,
        !('A' <= s[i] <= 'Z') ==> ascii_lower_text(s)[i] == s[i],
{
}

/// A text is this word in any mix of cases, given the word in small letters and in
/// capitals.
pub open spec fn is_word(text: Seq<char>, small: Seq<char>, capital: Seq<char>) -> bool {
    &&& text.len() == small.len()
    &&& forall|i: int|
        0 <= i < text.len() ==> #[trigger] text[i] == small[i] || text[i] == capital[i]
}

/// A text in lower case is a word of small letters exactly when it is that word in
/// any mix of cases.
pub proof fn lemma_is_word(text: Seq<char>, small: Seq<char>, capital: Seq<char>)
    requires
        small.len() == capital.len(),
        forall|i: int|
            0 <= i < small.len() ==> {
                &&& !('A' <= #[trigger] small[i] <= 'Z')
                &&& ({
                    ||| 'a' <= small[i] <= 'z' && capital[i] as int == small[i] as int - 32
                    ||| !('a' <= small[i] <= 'z') && capital[i] == small[i]
                })
            },
    ensures
        ascii_lower_text(text) == small <==> is_word(text, small, capital),
{
    let lower = ascii_lower_text(text);
    if lower == small {
        assert forall|i: int| 0 <= i < text.len() implies #[trigger] text[i] == small[i] || text[i]
            == capital[i] by {
            assert(lower[i] == small[i]);
        }
    }
    if is_word(text, small, capital) {
        assert forall|i: int| 0 <= i < text.len() implies lower[i] == small[i] by {
            assert(text[i] == small[i] || text[i] == capital[i]);
        }
        assert(lower =~= small);
    }
}

/// White space is these characters and no others.
pub proof fn white_space_characters(c: char)
    ensures
        is_white_space_char(c)
            <==> "\t\n\u{b}\u{c}\r \u{85}\u{a0}\u{1680}\u{2000}\u{2001}\u{2002}\u{2003}\u{2004}\u{2005}\u{2006}\u{2007}\u{2008}\u{2009}\u{200a}\u{2028}\u{2029}\u{202f}\u{205f}\u{3000}"@.contains(
            c,
        ),
{
    reveal_strlit(
        "\t\n\u{b}\u{c}\r \u{85}\u{a0}\u{1680}\u{2000}\u{2001}\u{2002}\u{2003}\u{2004}\u{2005}\u{2006}\u{2007}\u{2008}\u{2009}\u{200a}\u{2028}\u{2029}\u{202f}\u{205f}\u{3000}",
    );
    let all =
        "\t\n\u{b}\u{c}\r \u{85}\u{a0}\u{1680}\u{2000}\u{2001}\u{2002}\u{2003}\u{2004}\u{2005}\u{2006}\u{2007}\u{2008}\u{2009}\u{200a}\u{2028}\u{2029}\u{202f}\u{205f}\u{3000}"@;
    let n = c as int;
    if is_white_space_char(c) {
        let i: int = if n <= 0x0d {
            n - 0x09
        } else if n == 0x20 {
            5
        } else if n == 0x85 {
            6
        } else if n == 0xa0 {
            7
        } else if n == 0x1680 {
            8
        } else if n <= 0x200a {
            n - 0x2000 + 9
        } else if n == 0x2028 {
            20
        } else if n == 0x2029 {
            21
        } else if n == 0x202f {
            22
        } else if n == 0x205f {
            23
        } else {
            24
        };
        assert(all[i] == c);
    }
}

/// Trimming takes off white space and nothing else, all of it at either end: the text
/// is white space, what stays, and white space, and what stays has none at its ends.
pub proof fn trimming_takes_off_white_space(s: Seq<char>)
    ensures
        exists|front: Seq<char>, back: Seq<char>| #[trigger]
            is_trimmed_by(s, trim_text(s), front, back),
        trim_text(s).len() > 0 ==> !is_white_space_char(trim_text(s)[0]) && !is_white_space_char(
            trim_text(s).last(),
        ),
{
    let middle = trim_start_text(s);
    lemma_trim_start(s);
    lemma_trim_end(middle);
    let out = trim_text(s);
    let front = s.take(s.len() - middle.len());
    let back = middle.skip(out.len() as int);
    assert(s =~= front + out + back);
    assert(is_trimmed_by(s, out, front, back));
    if out.len() > 0 {
        assert(out[0] == middle[0]);
    }
}

/// A text is white space in front, a rest, and white space behind.
pub open spec fn is_trimmed_by(
    s: Seq<char>,
    rest: Seq<char>,
    front: Seq<char>,
    back: Seq<char>,
) -> bool {
    &&& s == front + rest + back
    &&& forall|i: int| 0 <= i < front.len() ==> is_white_space_char(#[trigger] front[i])
    &&& forall|i: int| 0 <= i < back.len() ==> is_white_space_char(#[trigger] back[i])
}

proof fn lemma_trim_start(s: Seq<char>)
    ensures
        trim_start_text(s).len() <= s.len(),
        trim_start_text(s) == s.skip(s.len() - trim_start_text(s).len()),
        forall|i: int|
            0 <= i < s.len() - trim_start_text(s).len() ==> is_white_space_char(#[trigger] s[i]),
        trim_start_text(s).len() > 0 ==> !is_white_space_char(trim_start_text(s)[0]),
    decreases s.len(),
{
    let out = trim_start_text(s);
    if s.len() > 0 && is_white_space_char(s[0]) {
        let rest = s.drop_first();
        lemma_trim_start(rest);
        assert(rest.skip(rest.len() - out.len()) =~= s.skip(s.len() - out.len()));
        assert forall|i: int| 0 <= i < s.len() - out.len() implies is_white_space_char(
            #[trigger] s[i],
        ) by {
            if i > 0 {
                assert(rest[i - 1] == s[i]);
            }
        }
    } else {
        assert(s.skip(0) =~= s);
    }
}

proof fn lemma_trim_end(s: Seq<char>)
    ensures
        trim_end_text(s).len() <= s.len(),
        trim_end_text(s) == s.take(trim_end_text(s).len() as int),
        forall|i: int|
            trim_end_text(s).len() <= i < s.len() ==> is_white_space_char(#[trigger] s[i]),
        trim_end_text(s).len() > 0 ==> !is_white_space_char(trim_end_text(s).last()),
    decreases s.len(),
{
    let out = trim_end_text(s);
    if s.len() > 0 && is_white_space_char(s.last()) {
        let rest = s.drop_last();
        lemma_trim_end(rest);
        assert(rest.take(out.len() as int) =~= s.take(out.len() as int));
        assert forall|i: int| out.len() <= i < s.len() implies is_white_space_char(
            #[trigger] s[i],
        ) by {
            if i < rest.len() {
                assert(rest[i] == s[i]);
            }
        }
    } else {
        assert(s.take(s.len() as int) =~= s);
    }
}

/// Decoding gives the text that bytes encode where they encode one, and what the
/// lossy decoder makes of all of them where they do not.
pub proof fn decoding_takes_all_bytes(bytes: Seq<u8>)
    ensures
        forall|text: Seq<char>|
            bytes == #[trigger] encode_utf8(text) ==> lossy_text(bytes) == text,
        !valid_utf8(bytes) ==> lossy_text(bytes) == utf8_lossy(bytes),
{
    assert forall|text: Seq<char>| bytes == #[trigger] encode_utf8(text) implies lossy_text(bytes)
        == text by {
        lossy_text_of_utf8(text);
    }
}

/// One name comes before another exactly when its bytes are the front of the other's,
/// or smaller at the first byte in which they differ.
pub proof fn names_are_ordered_by_their_bytes(a: Seq<char>, b: Seq<char>)
    ensures
        name_before(a, b) <==> exists|k: int|
            #[trigger] first_difference(encode_utf8(a), encode_utf8(b), k) && k < encode_utf8(
                b,
            ).len() && (k == encode_utf8(a).len() || encode_utf8(a)[k] < encode_utf8(b)[k]),
{
    let x = encode_utf8(a);
    let y = encode_utf8(b);
    lemma_bytes_before(x, y);
}

/// Two byte strings agree up to here, and no further.
pub open spec fn first_difference(a: Seq<u8>, b: Seq<u8>, k: int) -> bool {
    &&& 0 <= k <= a.len()
    &&& k <= b.len()
    &&& forall|i: int| 0 <= i < k ==> #[trigger] a[i] == b[i]
    &&& k < a.len() && k < b.len() ==> a[k] != b[k]
}

proof fn lemma_bytes_before(a: Seq<u8>, b: Seq<u8>)
    ensures
        bytes_before(a, b) <==> exists|k: int|
            #[trigger] first_difference(a, b, k) && k < b.len() && (k == a.len() || a[k] < b[k]),
    decreases a.len(),
{
    if a.len() == 0 || b.len() == 0 || a[0] != b[0] {
        assert(first_difference(a, b, 0));
        assert forall|k: int| #[trigger] first_difference(a, b, k) implies k == 0 by {
            if k > 0 {
                assert(a[0] == b[0]);
            }
        }
    } else {
        let x = a.drop_first();
        let y = b.drop_first();
        lemma_bytes_before(x, y);
        assert forall|k: int| 0 <= k implies (#[trigger] first_difference(x, y, k)
            <==> first_difference(a, b, k + 1)) by {
            if first_difference(x, y, k) {
                assert forall|i: int| 0 <= i < k + 1 implies #[trigger] a[i] == b[i] by {
                    if i > 0 {
                        assert(x[i - 1] == y[i - 1]);
                    }
                }
            }
            if first_difference(a, b, k + 1) {
                assert forall|i: int| 0 <= i < k implies #[trigger] x[i] == y[i] by {
                    assert(a[i + 1] == b[i + 1]);
                }
            }
        }
        if bytes_before(x, y) {
            let k = choose|k: int|
                #[trigger] first_difference(x, y, k) && k < y.len() && (k == x.len() || x[k]
                    < y[k]);
            assert(first_difference(a, b, k + 1));
        }
        if exists|k: int|
            #[trigger] first_difference(a, b, k) && k < b.len() && (k == a.len() || a[k] < b[k]) {
            let k = choose|k: int|
                #[trigger] first_difference(a, b, k) && k < b.len() && (k == a.len() || a[k]
                    < b[k]);
            if k == 0 {
                assert(a[0] != b[0]);
            }
            assert(first_difference(x, y, k - 1));
        }
    }
}

/// The text of a string is all of its characters, and an absent string has none.
pub proof fn the_text_of_a_string_is_all_of_it(s: Option<String>)
    ensures
        text_of(s) is Some <==> s is Some,
        s matches Some(string) ==> text_of(s) == Some(string@),
{
}

} // verus!
