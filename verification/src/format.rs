//! Packets as text: a hexdump, JSON, decoded text, base64, or one line.

use vstd::prelude::*;
use vstd::utf8::encode_utf8;

use crate::filter::{matches_at, occurs, occurs_at};
use crate::json::{
    colored_text, compact_objects_stay_on_one_line, compact_text_determines_the_object,
    insert_number, insert_text, is_flat, is_one_line, json_fields, new_object, object_text,
    pretty_text, pretty_text_determines_the_object, read_compact, read_pretty,
    reading_gives_the_object_back, to_colored, to_compact, to_pretty, Json,
};
use crate::packet::{Direction, Packet};
use crate::palette::{Theme, ThemeCodes};
use crate::text::{
    ascii_lower_text, chars_of, decimal_text, every_byte_has_two_hex_digits, hex_byte, hex_char, hex_digits_are_the_usual_ones,
    hex_string, hex_text, is_control, is_control_char, is_word, lemma_is_word, lossy_string, lossy_text, push_decimal, push_hex, str_eq, text_of,
    to_ascii_lowercase,
};

verus! {

/// How a captured packet gets turned into text.
#[derive(Debug, Clone, Copy, PartialEq, Eq, Structural)]
pub enum OutputFormat {
    /// A hex and ASCII dump.
    Hexdump,
    /// A structured record: pipeline, direction, timestamp, length, a best-effort
    /// UTF-8 decode, and the raw bytes in hex.
    Json,
    /// A lossy UTF-8 decode, readable when the payload actually is text.
    Raw,
    /// Standard base64 of the raw bytes, one line.
    Base64,
    /// One line per packet: direction, length, and a truncated preview, for
    /// scanning a busy pipeline at a glance.
    Compact,
}

/// The format that a name stands for, in any mix of ASCII cases.
pub open spec fn format_named(name: Seq<char>) -> Option<OutputFormat> {
    let name = ascii_lower_text(name);
    if name == "hexdump"@ || name == "hex"@ {
        Some(OutputFormat::Hexdump)
    } else if name == "json"@ {
        Some(OutputFormat::Json)
    } else if name == "raw"@ || name == "text"@ {
        Some(OutputFormat::Raw)
    } else if name == "base64"@ {
        Some(OutputFormat::Base64)
    } else if name == "compact"@ || name == "summary"@ {
        Some(OutputFormat::Compact)
    } else {
        None
    }
}

impl OutputFormat {
    /// The format that a name stands for.
    pub fn parse(s: &str) -> (format: Option<Self>)
        ensures
            format == format_named(s@),
    {
        let name = to_ascii_lowercase(s);
        let name = name.as_str();
        if str_eq(name, "hexdump") || str_eq(name, "hex") {
            Some(OutputFormat::Hexdump)
        } else if str_eq(name, "json") {
            Some(OutputFormat::Json)
        } else if str_eq(name, "raw") || str_eq(name, "text") {
            Some(OutputFormat::Raw)
        } else if str_eq(name, "base64") {
            Some(OutputFormat::Base64)
        } else if str_eq(name, "compact") || str_eq(name, "summary") {
            Some(OutputFormat::Compact)
        } else {
            None
        }
    }
}

// ---------------------------------------------------------------------------
// Highlighting
// ---------------------------------------------------------------------------

/// What a byte is to the highlighting.
#[derive(Debug, Clone, Copy, PartialEq, Eq, Structural)]
pub enum Mark {
    /// No match holds it.
    Free,
    /// A match of this length starts at it.
    Start(usize),
    /// It is a later byte of a match.
    Inside,
}

/// The bytes from `at` on, `n` of them, are in no match.
pub open spec fn all_free(marks: Seq<Mark>, at: int, n: int) -> bool {
    forall|k: int| at <= k < at + n ==> #[trigger] marks[k] == Mark::Free
}

/// The marks with a match of length `n` at `at`.
pub open spec fn with_match(marks: Seq<Mark>, at: int, n: int) -> Seq<Mark> {
    Seq::new(
        marks.len(),
        |k: int|
            if k == at {
                Mark::Start(n as usize)
            } else if at < k < at + n {
                Mark::Inside
            } else {
                marks[k]
            },
    )
}

/// The marks after a pattern has taken its matches, from left to right and from
/// `at` on, among the bytes that are still free.
pub open spec fn claimed_from(
    bytes: Seq<u8>,
    marks: Seq<Mark>,
    pattern: Seq<u8>,
    at: int,
) -> Seq<Mark>
    decreases bytes.len() - at,
{
    if pattern.len() == 0 || at + pattern.len() > bytes.len() {
        marks
    } else if occurs_at(bytes, pattern, at) && all_free(marks, at, pattern.len() as int) {
        claimed_from(
            bytes,
            with_match(marks, at, pattern.len() as int),
            pattern,
            at + pattern.len(),
        )
    } else {
        claimed_from(bytes, marks, pattern, at + 1)
    }
}

/// The marks of some bytes: every pattern takes its matches in turn, so that of
/// two that overlap the first of the list wins.
pub open spec fn claimed(bytes: Seq<u8>, patterns: Seq<Vec<u8>>) -> Seq<Mark>
    decreases patterns.len(),
{
    if patterns.len() == 0 {
        Seq::new(bytes.len(), |k: int| Mark::Free)
    } else {
        claimed_from(bytes, claimed(bytes, patterns.drop_last()), patterns.last()@, 0)
    }
}

/// The place, from `at` on, where the next match starts, or the end.
pub open spec fn next_match(marks: Seq<Mark>, at: int) -> int
    decreases marks.len() - at,
{
    if at >= marks.len() || marks[at] is Start {
        at
    } else {
        next_match(marks, at + 1)
    }
}

/// Where the piece that starts at `at` ends: a match at its own end, and anything
/// else where the next match starts.
pub open spec fn piece_end(marks: Seq<Mark>, at: int) -> int {
    match marks[at] {
        Mark::Start(n) if 0 < n <= marks.len() - at => at + n,
        _ => next_match(marks, at + 1),
    }
}

proof fn lemma_next_match(marks: Seq<Mark>, at: int)
    requires
        at <= marks.len(),
    ensures
        at <= next_match(marks, at) <= marks.len(),
        forall|k: int| at <= k < next_match(marks, at) ==> !(#[trigger] marks[k] is Start),
    decreases marks.len() - at,
{
    if at < marks.len() && !(marks[at] is Start) {
        lemma_next_match(marks, at + 1);
    }
}

/// The bytes from `at` on in pieces: every match is a piece, and so is every run
/// between matches.
pub open spec fn pieces_from(bytes: Seq<u8>, marks: Seq<Mark>, at: int) -> Seq<(Seq<u8>, bool)>
    decreases bytes.len() - at,
{
    if at >= bytes.len() {
        seq![]
    } else {
        let end = piece_end(marks, at);
        if at < end <= bytes.len() {
            seq![(bytes.subrange(at, end), marks[at] is Start)] + pieces_from(bytes, marks, end)
        } else {
            seq![]
        }
    }
}

/// The bytes in pieces, each with whether it is a match of the patterns.
pub open spec fn pieces(bytes: Seq<u8>, patterns: Seq<Vec<u8>>) -> Seq<(Seq<u8>, bool)> {
    pieces_from(bytes, claimed(bytes, patterns), 0)
}

/// Pieces put together, with `on` in front of every match and `off` behind it.
pub open spec fn spliced(pieces: Seq<(Seq<u8>, bool)>, on: Seq<u8>, off: Seq<u8>) -> Seq<u8>
    decreases pieces.len(),
{
    if pieces.len() == 0 {
        seq![]
    } else {
        let (bytes, hit) = pieces.last();
        let before = spliced(pieces.drop_last(), on, off);
        if hit {
            before + on + bytes + off
        } else {
            before + bytes
        }
    }
}

/// The bytes with `on` in front of every match and `off` behind it. The first
/// pattern takes its matches from left to right, without overlap; every later one
/// takes its own among the bytes that are left.
pub open spec fn highlighted(
    bytes: Seq<u8>,
    patterns: Seq<Vec<u8>>,
    on: Seq<u8>,
    off: Seq<u8>,
) -> Seq<u8> {
    spliced(pieces(bytes, patterns), on, off)
}

/// Whether the bytes from `at` on, `n` of them, are in no match.
fn is_free(marks: &[Mark], at: usize, n: usize) -> (free: bool)
    requires
        at + n <= marks@.len(),
    ensures
        free == all_free(marks@, at as int, n as int),
{
    let mut k: usize = 0;
    while k < n
        invariant
            k <= n,
            at + n <= marks.len(),
            all_free(marks@, at as int, k as int),
        decreases n - k,
    {
        if marks[at + k] != Mark::Free {
            return false;
        }
        k += 1;
    }
    true
}

/// Lets a pattern take its matches.
fn claim(bytes: &[u8], marks: &mut Vec<Mark>, pattern: &[u8])
    requires
        old(marks)@.len() == bytes@.len(),
    ensures
        final(marks)@.len() == bytes@.len(),
        final(marks)@ == claimed_from(bytes@, old(marks)@, pattern@, 0),
{
    let n = pattern.len();
    if n == 0 {
        return;
    }
    let mut at: usize = 0;
    while n <= bytes.len() - at
        invariant
            n == pattern@.len(),
            n > 0,
            at <= bytes@.len(),
            marks@.len() == bytes@.len(),
            claimed_from(bytes@, marks@, pattern@, at as int) == claimed_from(
                bytes@,
                old(marks)@,
                pattern@,
                0,
            ),
        decreases bytes.len() - at,
    {
        if matches_at(bytes, pattern, at) && is_free(marks.as_slice(), at, n) {
            let ghost before = marks@;
            marks.set(at, Mark::Start(n));
            let mut k: usize = 1;
            while k < n
                invariant
                    1 <= k <= n,
                    at + n <= bytes.len(),
                    before.len() == bytes@.len(),
                    marks@ == with_match(before, at as int, k as int).update(
                        at as int,
                        Mark::Start(n),
                    ),
                decreases n - k,
            {
                marks.set(at + k, Mark::Inside);
                k += 1;
                assert(marks@ =~= with_match(before, at as int, k as int).update(
                    at as int,
                    Mark::Start(n),
                ));
            }
            assert(marks@ =~= with_match(before, at as int, n as int));
            at += n;
        } else {
            at += 1;
        }
    }
}

/// The marks of some bytes.
fn marks_of(bytes: &[u8], patterns: &[Vec<u8>]) -> (marks: Vec<Mark>)
    ensures
        marks@ == claimed(bytes@, patterns@),
        marks@.len() == bytes@.len(),
{
    let mut marks: Vec<Mark> = Vec::new();
    let mut i: usize = 0;
    while i < bytes.len()
        invariant
            i <= bytes@.len(),
            marks@ == Seq::new(i as nat, |k: int| Mark::Free),
        decreases bytes.len() - i,
    {
        marks.push(Mark::Free);
        i += 1;
        assert(marks@ =~= Seq::new(i as nat, |k: int| Mark::Free));
    }
    let mut p: usize = 0;
    while p < patterns.len()
        invariant
            p <= patterns@.len(),
            marks@.len() == bytes@.len(),
            marks@ == claimed(bytes@, patterns@.take(p as int)),
        decreases patterns.len() - p,
    {
        assert(patterns@.take(p + 1).drop_last() =~= patterns@.take(p as int));
        claim(bytes, &mut marks, patterns[p].as_slice());
        p += 1;
    }
    assert(patterns@.take(patterns@.len() as int) =~= patterns@);
    marks
}

/// A piece, by where it starts and ends.
pub struct Span {
    pub start: usize,
    pub end: usize,
    pub hit: bool,
}

/// The pieces of some bytes that spans stand for.
pub open spec fn span_pieces(bytes: Seq<u8>, spans: Seq<Span>) -> Seq<(Seq<u8>, bool)> {
    spans.map_values(|s: Span| (bytes.subrange(s.start as int, s.end as int), s.hit))
}

/// Where the pieces of some bytes stand.
fn spans_of(bytes: &[u8], patterns: &[Vec<u8>]) -> (spans: Vec<Span>)
    ensures
        span_pieces(bytes@, spans@) == pieces(bytes@, patterns@),
        forall|i: int|
            0 <= i < spans@.len() ==> (#[trigger] spans@[i]).start < spans@[i].end
                <= bytes@.len(),
{
    let marks = marks_of(bytes, patterns);
    let mut spans: Vec<Span> = Vec::new();
    let mut at: usize = 0;
    assert(span_pieces(bytes@, spans@) + pieces_from(bytes@, marks@, 0) =~= pieces_from(
        bytes@,
        marks@,
        0,
    ));
    while at < bytes.len()
        invariant
            at <= bytes@.len(),
            marks@.len() == bytes@.len(),
            span_pieces(bytes@, spans@) + pieces_from(bytes@, marks@, at as int) == pieces_from(
                bytes@,
                marks@,
                0,
            ),
            forall|i: int|
                0 <= i < spans@.len() ==> (#[trigger] spans@[i]).start < spans@[i].end
                    <= bytes@.len(),
        decreases bytes.len() - at,
    {
        let (fixed, hit): (usize, bool) = match marks[at] {
            Mark::Start(n) => (
                if 0 < n && n <= bytes.len() - at {
                    n
                } else {
                    0
                },
                true,
            ),
            _ => (0, false),
        };
        let mut end: usize = at + 1;
        if fixed > 0 {
            end = at + fixed;
        } else {
            while end < bytes.len() && !is_start(marks[end])
                invariant
                    at < end <= bytes@.len(),
                    marks@.len() == bytes@.len(),
                    next_match(marks@, end as int) == next_match(marks@, at + 1),
                decreases bytes.len() - end,
            {
                end += 1;
            }
        }
        let ghost before = span_pieces(bytes@, spans@);
        let ghost rest = pieces_from(bytes@, marks@, end as int);
        let ghost piece = (bytes@.subrange(at as int, end as int), hit);
        proof {
            assert(piece_end(marks@, at as int) == end);
            assert(pieces_from(bytes@, marks@, at as int) == seq![piece] + rest);
        }
        spans.push(Span { start: at, end, hit });
        proof {
            assert(span_pieces(bytes@, spans@) =~= before.push(piece));
            assert(before + (seq![piece] + rest) =~= before.push(piece) + rest);
        }
        at = end;
    }
    assert(span_pieces(bytes@, spans@) + seq![] =~= span_pieces(bytes@, spans@));
    spans
}

/// Whether a match starts here.
fn is_start(mark: Mark) -> (b: bool)
    ensures
        b == (mark is Start),
{
    match mark {
        Mark::Start(_) => true,
        _ => false,
    }
}

/// Splices `on` and `off` around every match of every pattern.
pub fn apply_highlight(bytes: &[u8], patterns: &[Vec<u8>], on: &[u8], off: &[u8]) -> (out: Vec<u8>)
    ensures
        out@ == highlighted(bytes@, patterns@, on@, off@),
{
    let spans = spans_of(bytes, patterns);
    let ghost all = span_pieces(bytes@, spans@);
    let mut out: Vec<u8> = Vec::new();
    let mut i: usize = 0;
    assert(out@ =~= seq![]);
    while i < spans.len()
        invariant
            i <= spans@.len(),
            all == span_pieces(bytes@, spans@),
            forall|i: int|
                0 <= i < spans@.len() ==> (#[trigger] spans@[i]).start < spans@[i].end
                    <= bytes@.len(),
            out@ == spliced(all.take(i as int), on@, off@),
        decreases spans.len() - i,
    {
        proof {
            assert(all.take(i + 1).drop_last() =~= all.take(i as int));
            assert(all.take(i + 1).last() == all[i as int]);
        }
        let piece = vstd::slice::slice_subrange(bytes, spans[i].start, spans[i].end);
        if spans[i].hit {
            out.extend_from_slice(on);
            out.extend_from_slice(piece);
            out.extend_from_slice(off);
        } else {
            out.extend_from_slice(piece);
        }
        i += 1;
    }
    assert(all.take(all.len() as int) =~= all);
    out
}

/// The bytes of pieces, one after the other.
pub open spec fn piece_bytes(pieces: Seq<(Seq<u8>, bool)>) -> Seq<u8> {
    spliced(pieces, seq![], seq![])
}

proof fn lemma_spliced_add(
    a: Seq<(Seq<u8>, bool)>,
    b: Seq<(Seq<u8>, bool)>,
    on: Seq<u8>,
    off: Seq<u8>,
)
    ensures
        spliced(a + b, on, off) == spliced(a, on, off) + spliced(b, on, off),
    decreases b.len(),
{
    if b.len() == 0 {
        assert(a + b =~= a);
        assert(spliced(a, on, off) + seq![] =~= spliced(a, on, off));
    } else {
        lemma_spliced_add(a, b.drop_last(), on, off);
        assert((a + b).drop_last() =~= a + b.drop_last());
        let x = spliced(a, on, off);
        let y = spliced(b.drop_last(), on, off);
        let bytes = b.last().0;
        assert(x + y + on + bytes + off =~= x + (y + on + bytes + off));
        assert(x + y + bytes =~= x + (y + bytes));
    }
}

proof fn lemma_spliced_one(piece: (Seq<u8>, bool), on: Seq<u8>, off: Seq<u8>)
    ensures
        spliced(seq![piece], on, off) == (if piece.1 {
            on + piece.0 + off
        } else {
            piece.0
        }),
{
    let one = seq![piece];
    assert(one.drop_last() =~= seq![]);
    assert(spliced(one.drop_last(), on, off) =~= seq![]);
    assert(seq![] + on + piece.0 + off =~= on + piece.0 + off);
    assert(seq![] + piece.0 =~= piece.0);
}

proof fn lemma_pieces_cover(bytes: Seq<u8>, marks: Seq<Mark>, at: int)
    requires
        marks.len() == bytes.len(),
        0 <= at <= bytes.len(),
    ensures
        piece_bytes(pieces_from(bytes, marks, at)) == bytes.skip(at),
    decreases bytes.len() - at,
{
    if at < bytes.len() {
        let end = piece_end(marks, at);
        lemma_next_match(marks, at + 1);
        lemma_pieces_cover(bytes, marks, end);
        let piece = (bytes.subrange(at, end), marks[at] is Start);
        let first = seq![piece];
        lemma_spliced_add(first, pieces_from(bytes, marks, end), seq![], seq![]);
        lemma_spliced_one(piece, seq![], seq![]);
        assert(seq![] + piece.0 + seq![] =~= piece.0);
        assert(piece.0 + bytes.skip(end) =~= bytes.skip(at));
    } else {
        assert(bytes.skip(at) =~= seq![]);
    }
}

proof fn lemma_claimed_len(bytes: Seq<u8>, patterns: Seq<Vec<u8>>)
    ensures
        claimed(bytes, patterns).len() == bytes.len(),
    decreases patterns.len(),
{
    if patterns.len() > 0 {
        lemma_claimed_len(bytes, patterns.drop_last());
        lemma_claim_keeps(
            bytes,
            claimed(bytes, patterns.drop_last()),
            patterns.last()@,
            0,
        );
    }
}

/// Highlighting only inserts codes: with empty codes, the bytes come out as they
/// went in.
pub proof fn highlighting_keeps_the_bytes(bytes: Seq<u8>, patterns: Seq<Vec<u8>>)
    ensures
        highlighted(bytes, patterns, seq![], seq![]) == bytes,
{
    lemma_claimed_len(bytes, patterns);
    lemma_pieces_cover(bytes, claimed(bytes, patterns), 0);
    assert(bytes.skip(0) =~= bytes);
}

/// A pattern leaves the bytes that are taken as they are.
proof fn lemma_claim_keeps(bytes: Seq<u8>, marks: Seq<Mark>, pattern: Seq<u8>, at: int)
    requires
        marks.len() == bytes.len(),
        0 <= at,
    ensures
        claimed_from(bytes, marks, pattern, at).len() == marks.len(),
        forall|k: int|
            0 <= k < marks.len() && marks[k] != Mark::Free ==> #[trigger] claimed_from(
                bytes,
                marks,
                pattern,
                at,
            )[k] == marks[k],
    decreases bytes.len() - at,
{
    let n = pattern.len() as int;
    if n == 0 || at + n > bytes.len() {
    } else if occurs_at(bytes, pattern, at) && all_free(marks, at, n) {
        let next = with_match(marks, at, n);
        lemma_claim_keeps(bytes, next, pattern, at + n);
        assert forall|k: int| 0 <= k < marks.len() && marks[k] != Mark::Free implies
            #[trigger] claimed_from(bytes, marks, pattern, at)[k] == marks[k] by {
            assert(next[k] == marks[k]);
        }
    } else {
        lemma_claim_keeps(bytes, marks, pattern, at + 1);
    }
}

/// The first pattern of the list wins: what the first patterns have taken stays
/// as it is, whatever patterns follow.
pub proof fn earlier_patterns_win(bytes: Seq<u8>, patterns: Seq<Vec<u8>>, n: int)
    requires
        0 <= n <= patterns.len(),
    ensures
        claimed(bytes, patterns).len() == bytes.len(),
        forall|k: int|
            0 <= k < bytes.len() && claimed(bytes, patterns.take(n))[k] != Mark::Free ==>
                #[trigger] claimed(bytes, patterns)[k] == claimed(bytes, patterns.take(n))[k],
    decreases patterns.len(),
{
    lemma_claimed_len(bytes, patterns);
    if n < patterns.len() {
        let rest = patterns.drop_last();
        assert(rest.take(n) =~= patterns.take(n));
        earlier_patterns_win(bytes, rest, n);
        lemma_claim_keeps(bytes, claimed(bytes, rest), patterns.last()@, 0);
        assert forall|k: int|
            0 <= k < bytes.len() && claimed(bytes, patterns.take(n))[k] != Mark::Free implies
            #[trigger] claimed(bytes, patterns)[k] == claimed(bytes, patterns.take(n))[k] by {
            assert(claimed(bytes, rest)[k] == claimed(bytes, patterns.take(n))[k]);
        }
    } else {
        assert(patterns.take(n) =~= patterns);
    }
}

/// A pattern misses nothing: after it, every place where it occurs holds a byte
/// that some match has taken.
proof fn lemma_claim_misses_nothing(
    bytes: Seq<u8>,
    marks: Seq<Mark>,
    pattern: Seq<u8>,
    from: int,
    at: int,
)
    requires
        marks.len() == bytes.len(),
        pattern.len() > 0,
        0 <= from <= at,
        occurs_at(bytes, pattern, at),
    ensures
        !all_free(claimed_from(bytes, marks, pattern, from), at, pattern.len() as int),
    decreases bytes.len() - from,
{
    let n = pattern.len() as int;
    let after = claimed_from(bytes, marks, pattern, from);
    if occurs_at(bytes, pattern, from) && all_free(marks, from, n) {
        let next = with_match(marks, from, n);
        lemma_claim_keeps(bytes, next, pattern, from + n);
        if at < from + n {
            assert(next[at] != Mark::Free);
            assert(after[at] != Mark::Free);
        } else {
            lemma_claim_misses_nothing(bytes, next, pattern, from + n, at);
        }
    } else if from == at {
        lemma_claim_keeps(bytes, marks, pattern, from);
        let k = choose|k: int| at <= k < at + n && #[trigger] marks[k] != Mark::Free;
        assert(after[k] == marks[k]);
    } else {
        lemma_claim_misses_nothing(bytes, marks, pattern, from + 1, at);
    }
}

/// Nothing that is to be highlighted is passed over: wherever a pattern occurs, a
/// match, its own or that of a pattern in front of it, holds one of the bytes.
pub proof fn every_occurrence_is_highlighted(
    bytes: Seq<u8>,
    patterns: Seq<Vec<u8>>,
    p: int,
    at: int,
)
    requires
        0 <= p < patterns.len(),
        patterns[p]@.len() > 0,
        occurs_at(bytes, patterns[p]@, at),
    ensures
        !all_free(claimed(bytes, patterns.take(p + 1)), at, patterns[p]@.len() as int),
        !all_free(claimed(bytes, patterns), at, patterns[p]@.len() as int),
{
    let upto = patterns.take(p + 1);
    let n = patterns[p]@.len() as int;
    lemma_claimed_len(bytes, upto.drop_last());
    lemma_claim_misses_nothing(
        bytes,
        claimed(bytes, upto.drop_last()),
        patterns[p]@,
        0,
        at,
    );
    earlier_patterns_win(bytes, patterns, p + 1);
    let k = choose|k: int| at <= k < at + n && #[trigger] claimed(bytes, upto)[k] != Mark::Free;
    assert(claimed(bytes, patterns)[k] == claimed(bytes, upto)[k]);
}

/// Where a match starts, a pattern of its length occurs.
pub open spec fn starts_are_occurrences(
    bytes: Seq<u8>,
    patterns: Seq<Vec<u8>>,
    marks: Seq<Mark>,
) -> bool {
    forall|i: int|
        0 <= i < marks.len() ==> (#[trigger] marks[i] matches Mark::Start(n) ==> 0 < n && exists|
            p: int,
        |
            0 <= p < patterns.len() && (#[trigger] patterns[p])@.len() == n && occurs_at(
                bytes,
                patterns[p]@,
                i,
            ))
}

proof fn lemma_claim_starts(
    bytes: Seq<u8>,
    patterns: Seq<Vec<u8>>,
    marks: Seq<Mark>,
    p: int,
    at: int,
)
    requires
        marks.len() == bytes.len(),
        bytes.len() <= usize::MAX,
        0 <= p < patterns.len(),
        0 <= at,
        starts_are_occurrences(bytes, patterns, marks),
    ensures
        starts_are_occurrences(
            bytes,
            patterns,
            claimed_from(bytes, marks, patterns[p]@, at),
        ),
    decreases bytes.len() - at,
{
    let pattern = patterns[p]@;
    let n = pattern.len() as int;
    if n == 0 || at + n > bytes.len() {
    } else if occurs_at(bytes, pattern, at) && all_free(marks, at, n) {
        let next = with_match(marks, at, n);
        assert forall|i: int| 0 <= i < next.len() implies (#[trigger] next[i] matches Mark::Start(m)
            ==> 0 < m && exists|q: int|
            0 <= q < patterns.len() && (#[trigger] patterns[q])@.len() == m && occurs_at(
                bytes,
                patterns[q]@,
                i,
            )) by {
            if i == at {
                assert(patterns[p]@.len() == n);
            } else if !(at < i < at + n) {
                assert(next[i] == marks[i]);
            }
        }
        lemma_claim_starts(bytes, patterns, next, p, at + n);
    } else {
        lemma_claim_starts(bytes, patterns, marks, p, at + 1);
    }
}

proof fn lemma_claimed_starts(bytes: Seq<u8>, patterns: Seq<Vec<u8>>)
    requires
        bytes.len() <= usize::MAX,
    ensures
        starts_are_occurrences(bytes, patterns, claimed(bytes, patterns)),
    decreases patterns.len(),
{
    if patterns.len() > 0 {
        let rest = patterns.drop_last();
        let marks = claimed(bytes, rest);
        lemma_claimed_len(bytes, rest);
        lemma_claimed_starts(bytes, rest);
        assert forall|i: int| 0 <= i < marks.len() implies (#[trigger] marks[i] matches Mark::Start(
            n,
        ) ==> 0 < n && exists|p: int|
            0 <= p < patterns.len() && (#[trigger] patterns[p])@.len() == n && occurs_at(
                bytes,
                patterns[p]@,
                i,
            )) by {
            if let Mark::Start(n) = marks[i] {
                let p = choose|p: int|
                    0 <= p < rest.len() && (#[trigger] rest[p])@.len() == n && occurs_at(
                        bytes,
                        rest[p]@,
                        i,
                    );
                assert(patterns[p] == rest[p]);
            }
        }
        lemma_claim_starts(bytes, patterns, marks, patterns.len() - 1, 0);
    }
}

proof fn lemma_hit_pieces(bytes: Seq<u8>, patterns: Seq<Vec<u8>>, marks: Seq<Mark>, at: int, i: int)
    requires
        marks.len() == bytes.len(),
        0 <= at,
        starts_are_occurrences(bytes, patterns, marks),
        0 <= i < pieces_from(bytes, marks, at).len(),
        pieces_from(bytes, marks, at)[i].1,
    ensures
        exists|p: int|
            0 <= p < patterns.len() && (#[trigger] patterns[p])@ == pieces_from(
                bytes,
                marks,
                at,
            )[i].0,
    decreases bytes.len() - at,
{
    let end = piece_end(marks, at);
    lemma_next_match(marks, at + 1);
    if i == 0 {
        let n = marks[at]->Start_0;
        let p = choose|p: int|
            0 <= p < patterns.len() && (#[trigger] patterns[p])@.len() == n && occurs_at(
                bytes,
                patterns[p]@,
                at,
            );
        assert(patterns[p]@ == bytes.subrange(at, end));
    } else {
        lemma_hit_pieces(bytes, patterns, marks, end, i - 1);
    }
}

/// Nothing but matches is highlighted: every piece that is, is one of the
/// patterns.
pub proof fn only_patterns_are_highlighted(bytes: Seq<u8>, patterns: Seq<Vec<u8>>, i: int)
    requires
        bytes.len() <= usize::MAX,
        0 <= i < pieces(bytes, patterns).len(),
        pieces(bytes, patterns)[i].1,
    ensures
        exists|p: int|
            0 <= p < patterns.len() && (#[trigger] patterns[p])@ == pieces(bytes, patterns)[i].0,
{
    lemma_claimed_len(bytes, patterns);
    lemma_claimed_starts(bytes, patterns);
    lemma_hit_pieces(bytes, patterns, claimed(bytes, patterns), 0, i);
}

/// Bytes in which no pattern occurs come out as they went in, whatever the codes
/// are.
pub proof fn highlighting_leaves_clean_bytes(
    bytes: Seq<u8>,
    patterns: Seq<Vec<u8>>,
    on: Seq<u8>,
    off: Seq<u8>,
)
    requires
        forall|k: int|
            0 <= k < patterns.len() && (#[trigger] patterns[k])@.len() > 0 ==> !occurs(
                bytes,
                patterns[k]@,
            ),
    ensures
        highlighted(bytes, patterns, on, off) == bytes,
{
    if bytes.len() > 0 {
        lemma_clean_pieces(bytes, patterns);
        lemma_spliced_one((bytes, false), on, off);
    } else {
        assert(bytes =~= seq![]);
    }
}

/// Bytes in which no pattern occurs are one piece.
proof fn lemma_clean_pieces(bytes: Seq<u8>, patterns: Seq<Vec<u8>>)
    requires
        bytes.len() > 0,
        forall|k: int|
            0 <= k < patterns.len() && (#[trigger] patterns[k])@.len() > 0 ==> !occurs(
                bytes,
                patterns[k]@,
            ),
    ensures
        pieces(bytes, patterns) == seq![(bytes, false)],
{
    let marks = claimed(bytes, patterns);
    lemma_claimed_clean(bytes, patterns);
    let end = bytes.len() as int;
    lemma_no_next_match(marks, 1);
    assert(marks[0] == Mark::Free);
    assert(piece_end(marks, 0) == end);
    assert(bytes.subrange(0, end) =~= bytes);
    assert(pieces_from(bytes, marks, end) =~= seq![]);
    assert(pieces(bytes, patterns) =~= seq![(bytes, false)]);
}

proof fn lemma_no_next_match(marks: Seq<Mark>, at: int)
    requires
        0 <= at <= marks.len(),
        forall|k: int| 0 <= k < marks.len() ==> #[trigger] marks[k] == Mark::Free,
    ensures
        next_match(marks, at) == marks.len(),
    decreases marks.len() - at,
{
    if at < marks.len() {
        lemma_no_next_match(marks, at + 1);
    }
}

proof fn lemma_claim_nothing(bytes: Seq<u8>, marks: Seq<Mark>, pattern: Seq<u8>, at: int)
    requires
        0 <= at,
        pattern.len() > 0 ==> !occurs(bytes, pattern),
    ensures
        claimed_from(bytes, marks, pattern, at) == marks,
    decreases bytes.len() - at,
{
    if pattern.len() > 0 && at + pattern.len() <= bytes.len() {
        assert(!occurs_at(bytes, pattern, at));
        lemma_claim_nothing(bytes, marks, pattern, at + 1);
    }
}

proof fn lemma_claimed_clean(bytes: Seq<u8>, patterns: Seq<Vec<u8>>)
    requires
        forall|k: int|
            0 <= k < patterns.len() && (#[trigger] patterns[k])@.len() > 0 ==> !occurs(
                bytes,
                patterns[k]@,
            ),
    ensures
        claimed(bytes, patterns) == Seq::new(bytes.len(), |k: int| Mark::Free),
    decreases patterns.len(),
{
    if patterns.len() > 0 {
        let rest = patterns.drop_last();
        assert forall|k: int|
            0 <= k < rest.len() && (#[trigger] rest[k])@.len() > 0 implies !occurs(
            bytes,
            rest[k]@,
        ) by {
            assert(rest[k] == patterns[k]);
        }
        lemma_claimed_clean(bytes, rest);
        assert(patterns.last() == patterns[patterns.len() - 1]);
        lemma_claim_nothing(bytes, claimed(bytes, rest), patterns.last()@, 0);
    }
}

/// What a pattern takes from an offset on is what it takes of the bytes behind that
/// offset, and nothing in front.
proof fn lemma_claim_shift(
    bytes: Seq<u8>,
    marks: Seq<Mark>,
    pattern: Seq<u8>,
    from: int,
    at: int,
)
    requires
        marks.len() == bytes.len(),
        0 <= from <= at,
        from <= bytes.len(),
    ensures
        claimed_from(bytes, marks, pattern, at).take(from) == marks.take(from),
        claimed_from(bytes, marks, pattern, at).skip(from) == claimed_from(
            bytes.skip(from),
            marks.skip(from),
            pattern,
            at - from,
        ),
    decreases bytes.len() - at,
{
    let n = pattern.len() as int;
    let tail = bytes.skip(from);
    let back = marks.skip(from);
    if n == 0 || at + n > bytes.len() {
    } else {
        assert(tail.subrange(at - from, at - from + n) =~= bytes.subrange(at, at + n));
        assert(occurs_at(bytes, pattern, at) == occurs_at(tail, pattern, at - from));
        assert(all_free(marks, at, n) == all_free(back, at - from, n)) by {
            if all_free(marks, at, n) {
                assert forall|k: int| at - from <= k < at - from + n implies #[trigger] back[k]
                    == Mark::Free by {
                    assert(back[k] == marks[k + from]);
                }
            }
            if all_free(back, at - from, n) {
                assert forall|k: int| at <= k < at + n implies #[trigger] marks[k]
                    == Mark::Free by {
                    assert(back[k - from] == marks[k]);
                }
            }
        }
        if occurs_at(bytes, pattern, at) && all_free(marks, at, n) {
            let next = with_match(marks, at, n);
            lemma_claim_shift(bytes, next, pattern, from, at + n);
            assert(next.take(from) =~= marks.take(from));
            assert(next.skip(from) =~= with_match(back, at - from, n));
        } else {
            lemma_claim_shift(bytes, marks, pattern, from, at + 1);
        }
    }
}

/// A match that is taken parts the bytes: what a pattern takes in front of it is what
/// it takes of the bytes in front alone, and the same behind.
proof fn lemma_claim_parts(
    bytes: Seq<u8>,
    marks: Seq<Mark>,
    pattern: Seq<u8>,
    at: int,
    start: int,
    end: int,
)
    requires
        marks.len() == bytes.len(),
        0 <= at <= start < end <= bytes.len(),
        forall|k: int| start <= k < end ==> #[trigger] marks[k] != Mark::Free,
    ensures
        claimed_from(bytes, marks, pattern, at) == claimed_from(
            bytes.take(start),
            marks.take(start),
            pattern,
            at,
        ) + marks.subrange(start, end) + claimed_from(bytes.skip(end), marks.skip(end), pattern, 0),
    decreases start - at,
{
    let n = pattern.len() as int;
    let front = bytes.take(start);
    let ahead = marks.take(start);
    let after = claimed_from(bytes, marks, pattern, at);
    lemma_claim_keeps(bytes, marks, pattern, at);
    if n == 0 {
        assert(after =~= ahead + marks.subrange(start, end) + marks.skip(end));
    } else if at + n > start {
        // Nothing fits in front any more: every match from here on lies behind.
        lemma_claim_passes(bytes, marks, pattern, at, start, end);
        lemma_claim_shift(bytes, marks, pattern, end, end);
        let behind = claimed_from(bytes, marks, pattern, end);
        lemma_claim_keeps(bytes, marks, pattern, end);
        assert(claimed_from(front, ahead, pattern, at) == ahead);
        assert(behind =~= behind.take(end) + behind.skip(end));
        assert(marks.take(end) =~= ahead + marks.subrange(start, end));
    } else {
        assert(front.subrange(at, at + n) =~= bytes.subrange(at, at + n));
        assert(occurs_at(front, pattern, at) == occurs_at(bytes, pattern, at));
        assert(all_free(ahead, at, n) == all_free(marks, at, n)) by {
            if all_free(marks, at, n) {
                assert forall|k: int| at <= k < at + n implies #[trigger] ahead[k]
                    == Mark::Free by {
                    assert(ahead[k] == marks[k]);
                }
            }
            if all_free(ahead, at, n) {
                assert forall|k: int| at <= k < at + n implies #[trigger] marks[k]
                    == Mark::Free by {
                    assert(ahead[k] == marks[k]);
                }
            }
        }
        if occurs_at(bytes, pattern, at) && all_free(marks, at, n) {
            let next = with_match(marks, at, n);
            assert forall|k: int| start <= k < end implies #[trigger] next[k] != Mark::Free by {
                assert(next[k] == marks[k]);
            }
            lemma_claim_parts(bytes, next, pattern, at + n, start, end);
            assert(next.take(start) =~= with_match(ahead, at, n));
            assert(next.subrange(start, end) =~= marks.subrange(start, end));
            assert(next.skip(end) =~= marks.skip(end));
        } else {
            lemma_claim_parts(bytes, marks, pattern, at + 1, start, end);
        }
    }
}

/// A pattern that no longer fits in front of a match takes nothing up to its end.
proof fn lemma_claim_passes(
    bytes: Seq<u8>,
    marks: Seq<Mark>,
    pattern: Seq<u8>,
    at: int,
    start: int,
    end: int,
)
    requires
        marks.len() == bytes.len(),
        0 <= at <= end,
        0 <= start < end <= bytes.len(),
        pattern.len() > 0,
        at + pattern.len() > start,
        forall|k: int| start <= k < end ==> #[trigger] marks[k] != Mark::Free,
    ensures
        claimed_from(bytes, marks, pattern, at) == claimed_from(bytes, marks, pattern, end),
    decreases end - at,
{
    let n = pattern.len() as int;
    if at < end {
        if at + n <= bytes.len() {
            let k = if at < start {
                start
            } else {
                at
            };
            assert(marks[k] != Mark::Free);
            assert(!all_free(marks, at, n));
            lemma_claim_passes(bytes, marks, pattern, at + 1, start, end);
        }
    }
}

/// A pattern passes over the places where it does not occur.
proof fn lemma_claim_skips(bytes: Seq<u8>, marks: Seq<Mark>, pattern: Seq<u8>, from: int, at: int)
    requires
        0 <= from <= at,
        at + pattern.len() <= bytes.len(),
        pattern.len() > 0,
        forall|j: int| from <= j < at ==> !#[trigger] occurs_at(bytes, pattern, j),
    ensures
        claimed_from(bytes, marks, pattern, from) == claimed_from(bytes, marks, pattern, at),
    decreases at - from,
{
    if from < at {
        assert(!occurs_at(bytes, pattern, from));
        lemma_claim_skips(bytes, marks, pattern, from + 1, at);
    }
}

/// The marks of a match.
spec fn match_marks(n: int) -> Seq<Mark> {
    with_match(Seq::new(n as nat, |k: int| Mark::Free), 0, n)
}

/// The first match of the first pattern parts the marks.
proof fn lemma_claimed_parts(bytes: Seq<u8>, patterns: Seq<Vec<u8>>, at: int)
    requires
        patterns.len() > 0,
        patterns[0]@.len() > 0,
        occurs_at(bytes, patterns[0]@, at),
        forall|j: int| 0 <= j < at ==> !#[trigger] occurs_at(bytes, patterns[0]@, j),
    ensures
        claimed(bytes, patterns) == claimed(bytes.take(at), patterns.drop_first()) + match_marks(
            patterns[0]@.len() as int,
        ) + claimed(bytes.skip(at + patterns[0]@.len()), patterns),
    decreases patterns.len(),
{
    let first = patterns[0]@;
    let n = first.len() as int;
    let end = at + n;
    let front = bytes.take(at);
    let back = bytes.skip(end);
    let rest = patterns.drop_last();
    if patterns.len() == 1 {
        let free = Seq::new(bytes.len(), |k: int| Mark::Free);
        assert(claimed(bytes, rest) == free);
        assert(claimed(back, rest) =~= free.skip(end));
        lemma_claim_skips(bytes, free, first, 0, at);
        let next = with_match(free, at, n);
        assert(claimed(bytes, patterns) == claimed_from(bytes, next, first, end));
        lemma_claim_shift(bytes, next, first, end, end);
        assert(next.skip(end) =~= free.skip(end));
        assert(patterns.drop_first() =~= seq![]);
        let after = claimed(bytes, patterns);
        lemma_claimed_len(bytes, patterns);
        assert(claimed(front, patterns.drop_first()) =~= free.take(at));
        assert(next.take(end) =~= free.take(at) + match_marks(n));
        assert(after =~= after.take(end) + after.skip(end));
    } else {
        assert(rest[0] == patterns[0]);
        lemma_claimed_parts(bytes, rest, at);
        let marks = claimed(bytes, rest);
        let a = claimed(front, rest.drop_first());
        let m = match_marks(n);
        let b = claimed(back, rest);
        lemma_claimed_len(bytes, rest);
        lemma_claimed_len(front, rest.drop_first());
        lemma_claimed_len(back, rest);
        assert(marks == a + m + b);
        assert forall|k: int| at <= k < end implies #[trigger] marks[k] != Mark::Free by {
            assert(marks[k] == m[k - at]);
        }
        let last = patterns.last()@;
        lemma_claim_parts(bytes, marks, last, 0, at, end);
        assert(marks.take(at) =~= a);
        assert(marks.subrange(at, end) =~= m);
        assert(marks.skip(end) =~= b);
        assert(patterns.drop_first().drop_last() =~= rest.drop_first());
        assert(patterns.drop_first().last() == patterns.last());
    }
}

/// Every match that is marked lies within the bytes.
spec fn matches_fit(marks: Seq<Mark>) -> bool {
    forall|k: int|
        0 <= k < marks.len() ==> (#[trigger] marks[k] matches Mark::Start(n) ==> 0 < n && k + n
            <= marks.len())
}

proof fn lemma_matches_fit(bytes: Seq<u8>, patterns: Seq<Vec<u8>>)
    requires
        bytes.len() <= usize::MAX,
    ensures
        matches_fit(claimed(bytes, patterns)),
{
    let marks = claimed(bytes, patterns);
    lemma_claimed_len(bytes, patterns);
    lemma_claimed_starts(bytes, patterns);
    assert forall|k: int| 0 <= k < marks.len() implies (#[trigger] marks[k] matches Mark::Start(n)
        ==> 0 < n && k + n <= marks.len()) by {
        if let Mark::Start(n) = marks[k] {
            let p = choose|p: int|
                0 <= p < patterns.len() && (#[trigger] patterns[p])@.len() == n && occurs_at(
                    bytes,
                    patterns[p]@,
                    k,
                );
            assert(occurs_at(bytes, patterns[p]@, k));
        }
    }
}

/// Pieces up to the start of a match are those of the bytes in front of it.
proof fn lemma_pieces_part(bytes: Seq<u8>, marks: Seq<Mark>, at: int, start: int)
    requires
        marks.len() == bytes.len(),
        0 <= at <= start < bytes.len(),
        marks[start] is Start,
        matches_fit(marks.take(start)),
    ensures
        pieces_from(bytes, marks, at) == pieces_from(
            bytes.take(start),
            marks.take(start),
            at,
        ) + pieces_from(bytes, marks, start),
    decreases start - at,
{
    let front = bytes.take(start);
    let ahead = marks.take(start);
    let tail = pieces_from(bytes, marks, start);
    if at < start {
        assert(ahead[at] == marks[at]);
        lemma_next_match_part(marks, at + 1, start);
        lemma_next_match(ahead, at + 1);
        let end = piece_end(marks, at);
        assert(end == piece_end(ahead, at));
        assert(at < end <= start);
        lemma_pieces_part(bytes, marks, end, start);
        let piece = (bytes.subrange(at, end), marks[at] is Start);
        assert(front.subrange(at, end) =~= bytes.subrange(at, end));
        let middle = pieces_from(front, ahead, end);
        assert(pieces_from(bytes, marks, at) == seq![piece] + (middle + tail));
        assert(seq![piece] + (middle + tail) =~= (seq![piece] + middle) + tail);
    } else {
        assert(pieces_from(front, ahead, at) =~= seq![]);
        assert(seq![] + tail =~= tail);
    }
}

proof fn lemma_next_match_part(marks: Seq<Mark>, at: int, start: int)
    requires
        0 <= at <= start < marks.len(),
        marks[start] is Start,
    ensures
        next_match(marks, at) == next_match(marks.take(start), at),
        next_match(marks, at) <= start,
    decreases start - at,
{
    if at < start {
        assert(marks.take(start)[at] == marks[at]);
        lemma_next_match_part(marks, at + 1, start);
    }
}

proof fn lemma_next_match_shift(marks: Seq<Mark>, from: int, at: int)
    requires
        0 <= from <= at,
        from <= marks.len(),
    ensures
        next_match(marks, at) == next_match(marks.skip(from), at - from) + from,
    decreases marks.len() - at,
{
    if at < marks.len() {
        assert(marks.skip(from)[at - from] == marks[at]);
        if !(marks[at] is Start) {
            lemma_next_match_shift(marks, from, at + 1);
        }
    }
}

/// Pieces from an offset on are those of the bytes behind it.
proof fn lemma_pieces_shift(bytes: Seq<u8>, marks: Seq<Mark>, from: int, at: int)
    requires
        marks.len() == bytes.len(),
        0 <= from <= at,
        from <= bytes.len(),
    ensures
        pieces_from(bytes, marks, at) == pieces_from(
            bytes.skip(from),
            marks.skip(from),
            at - from,
        ),
    decreases bytes.len() - at,
{
    if at < bytes.len() {
        let tail = bytes.skip(from);
        let back = marks.skip(from);
        assert(back[at - from] == marks[at]);
        lemma_next_match_shift(marks, from, at + 1);
        lemma_next_match(marks, at + 1);
        let end = piece_end(marks, at);
        assert(piece_end(back, at - from) == end - from);
        lemma_pieces_shift(bytes, marks, from, end);
        assert(tail.subrange(at - from, end - from) =~= bytes.subrange(at, end));
    }
}

/// The first match of the first pattern is a highlighted piece of its own. What
/// stands in front of it is left to the other patterns, and what stands behind it is
/// highlighted in its turn.
pub proof fn the_first_match_is_a_piece(bytes: Seq<u8>, patterns: Seq<Vec<u8>>, at: int)
    requires
        bytes.len() <= usize::MAX,
        patterns.len() > 0,
        patterns[0]@.len() > 0,
        occurs_at(bytes, patterns[0]@, at),
        forall|j: int| 0 <= j < at ==> !#[trigger] occurs_at(bytes, patterns[0]@, j),
    ensures
        pieces(bytes, patterns) == pieces(bytes.take(at), patterns.drop_first()) + seq![
            (patterns[0]@, true),
        ] + pieces(bytes.skip(at + patterns[0]@.len()), patterns),
{
    let first = patterns[0]@;
    let n = first.len() as int;
    let end = at + n;
    let front = bytes.take(at);
    let back = bytes.skip(end);
    let marks = claimed(bytes, patterns);
    let a = claimed(front, patterns.drop_first());
    let b = claimed(back, patterns);
    lemma_claimed_len(bytes, patterns);
    lemma_claimed_len(front, patterns.drop_first());
    lemma_claimed_len(back, patterns);
    lemma_claimed_parts(bytes, patterns, at);
    lemma_matches_fit(front, patterns.drop_first());
    assert(marks[at] == match_marks(n)[0]);
    assert(marks[at] == Mark::Start(n as usize));
    assert(marks.take(at) =~= a);
    assert(marks.skip(end) =~= b);
    lemma_pieces_part(bytes, marks, 0, at);
    lemma_pieces_shift(bytes, marks, end, end);
    assert(piece_end(marks, at) == end);
    assert(bytes.subrange(at, end) == first);
    assert(pieces_from(bytes, marks, at) == seq![(first, true)] + pieces_from(bytes, marks, end));
    let x = pieces(front, patterns.drop_first());
    let y = pieces(back, patterns);
    assert(x + (seq![(first, true)] + y) =~= x + seq![(first, true)] + y);
}

/// A pattern at the front of the list that is empty or occurs nowhere highlights
/// nothing, and leaves everything to the others; without patterns everything is one
/// plain piece.
pub proof fn an_absent_pattern_highlights_nothing(bytes: Seq<u8>, patterns: Seq<Vec<u8>>)
    ensures
        patterns.len() > 0 && (patterns[0]@.len() == 0 || !occurs(bytes, patterns[0]@)) ==> pieces(
            bytes,
            patterns,
        ) == pieces(bytes, patterns.drop_first()),
        patterns.len() == 0 && bytes.len() > 0 ==> pieces(bytes, patterns) == seq![(bytes, false)],
        bytes.len() == 0 ==> pieces(bytes, patterns) == Seq::<(Seq<u8>, bool)>::empty(),
{
    if patterns.len() > 0 {
        if patterns[0]@.len() == 0 || !occurs(bytes, patterns[0]@) {
            lemma_claimed_without(bytes, patterns);
        }
    } else if bytes.len() > 0 {
        lemma_clean_pieces(bytes, patterns);
    }
}

proof fn lemma_claimed_without(bytes: Seq<u8>, patterns: Seq<Vec<u8>>)
    requires
        patterns.len() > 0,
        patterns[0]@.len() == 0 || !occurs(bytes, patterns[0]@),
    ensures
        claimed(bytes, patterns) == claimed(bytes, patterns.drop_first()),
    decreases patterns.len(),
{
    let rest = patterns.drop_last();
    if patterns.len() == 1 {
        assert(patterns.drop_first() =~= rest);
        lemma_claim_nothing(bytes, claimed(bytes, rest), patterns[0]@, 0);
    } else {
        assert(rest[0] == patterns[0]);
        lemma_claimed_without(bytes, rest);
        assert(patterns.drop_first().drop_last() =~= rest.drop_first());
        assert(patterns.drop_first().last() == patterns.last());
    }
}

/// The text with the codes: the first match of the first pattern has `on` in front
/// of it and `off` behind it, whatever its length; the bytes in front of it carry the
/// codes of the other patterns, and the bytes behind it those of all.
pub proof fn the_first_match_is_highlighted(
    bytes: Seq<u8>,
    patterns: Seq<Vec<u8>>,
    on: Seq<u8>,
    off: Seq<u8>,
    at: int,
)
    requires
        bytes.len() <= usize::MAX,
        patterns.len() > 0,
        patterns[0]@.len() > 0,
        occurs_at(bytes, patterns[0]@, at),
        forall|j: int| 0 <= j < at ==> !#[trigger] occurs_at(bytes, patterns[0]@, j),
    ensures
        highlighted(bytes, patterns, on, off) == highlighted(
            bytes.take(at),
            patterns.drop_first(),
            on,
            off,
        ) + on + patterns[0]@ + off + highlighted(
            bytes.skip(at + patterns[0]@.len()),
            patterns,
            on,
            off,
        ),
{
    let first = patterns[0]@;
    let x = pieces(bytes.take(at), patterns.drop_first());
    let y = pieces(bytes.skip(at + first.len()), patterns);
    let one = seq![(first, true)];
    the_first_match_is_a_piece(bytes, patterns, at);
    lemma_spliced_add(x + one, y, on, off);
    lemma_spliced_add(x, one, on, off);
    lemma_spliced_one((first, true), on, off);
    assert(spliced(x, on, off) + (on + first + off) + spliced(y, on, off) =~= spliced(x, on, off)
        + on + first + off + spliced(y, on, off));
}

/// With one pattern, everything in front of its first match is plain.
pub proof fn a_single_pattern_is_highlighted(
    bytes: Seq<u8>,
    pattern: Vec<u8>,
    on: Seq<u8>,
    off: Seq<u8>,
    at: int,
)
    requires
        bytes.len() <= usize::MAX,
        pattern@.len() > 0,
        occurs_at(bytes, pattern@, at),
        forall|j: int| 0 <= j < at ==> !#[trigger] occurs_at(bytes, pattern@, j),
    ensures
        highlighted(bytes, seq![pattern], on, off) == bytes.take(at) + on + pattern@ + off
            + highlighted(bytes.skip(at + pattern@.len()), seq![pattern], on, off),
{
    let patterns = seq![pattern];
    the_first_match_is_highlighted(bytes, patterns, on, off, at);
    assert(patterns.drop_first() =~= seq![]);
    highlighting_leaves_clean_bytes(bytes.take(at), seq![], on, off);
}

// ---------------------------------------------------------------------------
// Hexdump
// ---------------------------------------------------------------------------

/// How many bytes stand on a line of a hexdump.
pub const DUMP_WIDTH: usize = 16;

/// How wide the hex column of a hexdump is.
pub const HEX_COLUMN: usize = 48;

/// The bytes in hex, with spaces between them.
pub open spec fn spaced_hex(bytes: Seq<u8>) -> Seq<char>
    decreases bytes.len(),
{
    if bytes.len() == 0 {
        seq![]
    } else if bytes.len() == 1 {
        hex_byte(bytes[0], true)
    } else {
        spaced_hex(bytes.drop_last()) + seq![' '] + hex_byte(bytes.last(), true)
    }
}

/// A byte as a printable character: itself where it is one, else a dot.
pub open spec fn printable(b: u8) -> char {
    if 32 <= b <= 126 {
        b as char
    } else {
        '.'
    }
}

/// `n` spaces.
pub open spec fn spaces(n: int) -> Seq<char> {
    Seq::new(
        if n > 0 {
            n as nat
        } else {
            0
        },
        |i: int| ' ',
    )
}

/// A text with spaces behind it, up to `width` characters.
pub open spec fn padded(text: Seq<char>, width: int) -> Seq<char> {
    text + spaces(width - text.len())
}

/// One line of a hexdump.
pub open spec fn dump_line(chunk: Seq<u8>) -> Seq<char> {
    "  "@ + padded(spaced_hex(chunk), HEX_COLUMN as int) + " | "@ + chunk.map_values(
        |b: u8| printable(b),
    ) + "\n"@
}

/// The lines of a hexdump, sixteen bytes to a line.
pub open spec fn dump_lines(bytes: Seq<u8>) -> Seq<char>
    decreases bytes.len(),
{
    if bytes.len() == 0 {
        seq![]
    } else if bytes.len() <= DUMP_WIDTH {
        dump_line(bytes)
    } else {
        dump_line(bytes.take(DUMP_WIDTH as int)) + dump_lines(bytes.skip(DUMP_WIDTH as int))
    }
}

/// A hexdump: a headline between two color codes, and the lines.
pub open spec fn hexdump_text(
    direction: Direction,
    bytes: Seq<u8>,
    on: Seq<char>,
    off: Seq<char>,
) -> Seq<char> {
    "\n"@ + on + "["@ + direction.label() + " Payload - "@ + decimal_text(bytes.len())
        + " bytes]"@ + off + "\n"@ + dump_lines(bytes)
}

/// Appends one line of a hexdump.
fn push_dump_line(out: &mut String, chunk: &[u8])
    requires
        chunk@.len() <= DUMP_WIDTH,
    ensures
        final(out)@ == old(out)@ + dump_line(chunk@),
{
    let ghost start = out@;
    out.append("  ");
    let ghost indented = out@;
    let mut width: usize = 0;
    let mut i: usize = 0;
    while i < chunk.len()
        invariant
            chunk@.len() <= DUMP_WIDTH,
            i <= chunk@.len(),
            width == spaced_hex(chunk@.take(i as int)).len(),
            width == (if i == 0 {
                0
            } else {
                3 * i - 1
            }),
            out@ == indented + spaced_hex(chunk@.take(i as int)),
        decreases chunk.len() - i,
    {
        let ghost before = spaced_hex(chunk@.take(i as int));
        proof {
            assert(chunk@.take(i + 1).drop_last() =~= chunk@.take(i as int));
        }
        if i > 0 {
            out.push(' ');
            width += 1;
        }
        push_hex(out, chunk[i], true);
        width += 2;
        proof {
            if i == 0 {
                assert(out@ =~= indented + hex_byte(chunk@[0], true));
            } else {
                assert(out@ =~= indented + (before + seq![' '] + hex_byte(chunk@[i as int], true)));
            }
        }
        i += 1;
    }
    let ghost hex = spaced_hex(chunk@);
    assert(chunk@.take(chunk@.len() as int) =~= chunk@);
    let ghost filled = width;
    while width < HEX_COLUMN
        invariant
            filled == hex.len(),
            filled <= width,
            filled <= HEX_COLUMN ==> width <= HEX_COLUMN,
            out@ == indented + hex + spaces(width - filled),
        decreases HEX_COLUMN - width,
    {
        out.push(' ');
        width += 1;
        assert(out@ =~= indented + hex + spaces(width - filled));
    }
    proof {
        assert(out@ =~= indented + padded(hex, HEX_COLUMN as int));
    }
    out.append(" | ");
    let ghost piped = out@;
    let mut k: usize = 0;
    assert(chunk@.take(0).map_values(|b: u8| printable(b)) =~= seq![]);
    while k < chunk.len()
        invariant
            k <= chunk@.len(),
            out@ == piped + chunk@.take(k as int).map_values(|b: u8| printable(b)),
        decreases chunk.len() - k,
    {
        let b: u8 = chunk[k];
        if 32 <= b && b <= 126 {
            out.push(b as char);
        } else {
            out.push('.');
        }
        k += 1;
        proof {
            assert(out@ =~= piped + chunk@.take(k as int).map_values(|b: u8| printable(b)));
        }
    }
    out.append("\n");
    proof {
        assert(chunk@.take(chunk@.len() as int) =~= chunk@);
        assert(out@ =~= start + dump_line(chunk@));
    }
}

/// A hexdump of the packet, its headline in the color of its direction.
pub fn render_hexdump(packet: &Packet, theme: &Theme) -> (out: String)
    ensures
        out@ == hexdump_text(
            packet.direction,
            packet.bytes@,
            theme@.direction_code(packet.direction),
            theme@.reset,
        ),
{
    let mut out = "\n".to_owned();
    out.append(theme.direction_color(packet.direction));
    out.append("[");
    out.append(packet.direction.as_str());
    out.append(" Payload - ");
    push_decimal(&mut out, packet.len() as u64);
    out.append(" bytes]");
    out.append(theme.reset.as_str());
    out.append("\n");
    let ghost head = out@;
    let bytes = packet.bytes.as_slice();
    let mut i: usize = 0;
    assert(bytes@.skip(0) =~= bytes@);
    assert(out@ + dump_lines(bytes@) =~= head + dump_lines(bytes@));
    while i < bytes.len()
        invariant
            i <= bytes@.len(),
            out@ + dump_lines(bytes@.skip(i as int)) == head + dump_lines(bytes@),
        decreases bytes.len() - i,
    {
        let ghost before = out@;
        let ghost rest = bytes@.skip(i as int);
        let left: usize = bytes.len() - i;
        let n: usize = if left <= DUMP_WIDTH {
            left
        } else {
            DUMP_WIDTH
        };
        let chunk = vstd::slice::slice_subrange(bytes, i, i + n);
        push_dump_line(&mut out, chunk);
        proof {
            assert(chunk@ =~= rest.take(n as int));
            assert(bytes@.skip(i + n) =~= rest.skip(n as int));
            if left <= DUMP_WIDTH {
                assert(rest.take(n as int) =~= rest);
                assert(rest.skip(n as int) =~= seq![]);
                assert(out@ + seq![] =~= out@);
            } else {
                assert(before + (dump_line(chunk@) + dump_lines(rest.skip(n as int))) =~= out@
                    + dump_lines(rest.skip(n as int)));
            }
        }
        i += n;
    }
    proof {
        assert(bytes@.skip(i as int) =~= seq![]);
        assert(out@ + seq![] =~= out@);
    }
    out
}

proof fn lemma_spaced_hex(bytes: Seq<u8>)
    requires
        bytes.len() > 0,
    ensures
        spaced_hex(bytes).len() == 3 * bytes.len() - 1,
        forall|j: int|
            0 <= j < bytes.len() ==> {
                &&& spaced_hex(bytes)[3 * j] == hex_char(#[trigger] bytes[j] as int / 16, true)
                &&& spaced_hex(bytes)[3 * j + 1] == hex_char(bytes[j] as int % 16, true)
            },
        forall|j: int| 0 <= j < bytes.len() - 1 ==> #[trigger] spaced_hex(bytes)[3 * j + 2] == ' ',
    decreases bytes.len(),
{
    let text = spaced_hex(bytes);
    if bytes.len() > 1 {
        let rest = bytes.drop_last();
        let n = rest.len() as int;
        lemma_spaced_hex(rest);
        let before = spaced_hex(rest);
        assert(before.len() == 3 * n - 1);
        assert forall|j: int| 0 <= j < bytes.len() implies {
            &&& text[3 * j] == hex_char(#[trigger] bytes[j] as int / 16, true)
            &&& text[3 * j + 1] == hex_char(bytes[j] as int % 16, true)
        } by {
            if j < n {
                assert(rest[j] == bytes[j]);
                assert(text[3 * j] == before[3 * j]);
                assert(text[3 * j + 1] == before[3 * j + 1]);
            }
        }
        assert forall|j: int| 0 <= j < bytes.len() - 1 implies #[trigger] text[3 * j + 2] == ' ' by {
            if j < n - 1 {
                assert(text[3 * j + 2] == before[3 * j + 2]);
            }
        }
    }
}

/// One line of a hexdump, column by column: an indent of two, the hex digits of the
/// bytes with a space between them in a column of forty-eight, a bar, a character for
/// every byte, and a line feed.
pub proof fn a_hexdump_line_is_laid_out_in_columns(chunk: Seq<u8>)
    requires
        0 < chunk.len() <= 16,
    ensures
        dump_line(chunk).len() == 54 + chunk.len(),
        forall|i: int|
            0 <= i < 54 + chunk.len() ==> #[trigger] dump_line(chunk)[i] == (if 2 <= i < 50 && (i
                - 2) / 3 < chunk.len() && (i - 2) % 3 != 2 {
                if (i - 2) % 3 == 0 {
                    "0123456789ABCDEF"@[chunk[(i - 2) / 3] as int / 16]
                } else {
                    "0123456789ABCDEF"@[chunk[(i - 2) / 3] as int % 16]
                }
            } else if i < 51 || i == 52 {
                ' '
            } else if i == 51 {
                '|'
            } else if i == 53 + chunk.len() {
                '\n'
            } else if 32 <= chunk[i - 53] <= 126 {
                chunk[i - 53] as char
            } else {
                '.'
            }),
{
    let line = dump_line(chunk);
    let hex = spaced_hex(chunk);
    let column = padded(hex, HEX_COLUMN as int);
    let n = chunk.len() as int;
    lemma_spaced_hex(chunk);
    reveal_strlit("  ");
    reveal_strlit(" | ");
    reveal_strlit("\n");
    assert(column.len() == 48);
    assert forall|i: int| 0 <= i < 54 + n implies #[trigger] line[i] == (if 2 <= i < 50 && (i - 2)
        / 3 < n && (i - 2) % 3 != 2 {
        if (i - 2) % 3 == 0 {
            "0123456789ABCDEF"@[chunk[(i - 2) / 3] as int / 16]
        } else {
            "0123456789ABCDEF"@[chunk[(i - 2) / 3] as int % 16]
        }
    } else if i < 51 || i == 52 {
        ' '
    } else if i == 51 {
        '|'
    } else if i == 53 + n {
        '\n'
    } else if 32 <= chunk[i - 53] <= 126 {
        chunk[i - 53] as char
    } else {
        '.'
    }) by {
        if 2 <= i < 50 {
            let j = (i - 2) / 3;
            assert(line[i] == column[i - 2]);
            if j < n {
                let b = chunk[j];
                hex_digits_are_the_usual_ones(b as int / 16);
                hex_digits_are_the_usual_ones(b as int % 16);
                if (i - 2) % 3 == 0 {
                    assert(i - 2 == 3 * j);
                } else if (i - 2) % 3 == 1 {
                    assert(i - 2 == 3 * j + 1);
                } else {
                    assert(i - 2 == 3 * j + 2);
                    if j < n - 1 {
                        assert(hex[3 * j + 2] == ' ');
                    }
                }
            }
        } else if 53 <= i < 53 + n {
            let shown = chunk.map_values(|b: u8| printable(b));
            assert(line[i] == shown[i - 53]);
        }
    }
}

/// Where a line of a hexdump stands.
proof fn lemma_dump_lines(bytes: Seq<u8>, l: int)
    requires
        0 <= l,
        16 * l < bytes.len(),
    ensures
        ({
            let n = if bytes.len() - 16 * l < 16 {
                bytes.len() - 16 * l
            } else {
                16
            };
            &&& 70 * l + 54 + n <= dump_lines(bytes).len()
            &&& dump_lines(bytes).subrange(70 * l, 70 * l + 54 + n) == dump_line(
                bytes.subrange(16 * l, 16 * l + n),
            )
            &&& 16 * l + n == bytes.len() ==> dump_lines(bytes).len() == 70 * l + 54 + n
        }),
    decreases bytes.len(),
{
    let text = dump_lines(bytes);
    let n = if bytes.len() - 16 * l < 16 {
        bytes.len() - 16 * l
    } else {
        16
    };
    if bytes.len() <= 16 {
        a_hexdump_line_is_laid_out_in_columns(bytes);
        assert(bytes.subrange(0, n) =~= bytes);
        assert(text.subrange(0, 54 + n) =~= text);
    } else {
        let first = bytes.take(16);
        let rest = bytes.skip(16);
        a_hexdump_line_is_laid_out_in_columns(first);
        let line = dump_line(first);
        assert(text == line + dump_lines(rest));
        assert(line.len() == 70);
        if l == 0 {
            assert(bytes.subrange(0, 16) =~= first);
            assert(text.subrange(0, 70) =~= line);
        } else {
            lemma_dump_lines(rest, l - 1);
            assert(rest.subrange(16 * (l - 1), 16 * (l - 1) + n) =~= bytes.subrange(
                16 * l,
                16 * l + n,
            ));
            assert(text.subrange(70 * l, 70 * l + 54 + n) =~= dump_lines(rest).subrange(
                70 * (l - 1),
                70 * (l - 1) + 54 + n,
            ));
        }
    }
}

/// A hexdump shows the whole payload: every sixteen bytes fill a line of seventy
/// characters, the last line holds what is left, and every byte stands on its line in
/// hex and as a character.
pub proof fn a_hexdump_shows_every_byte(bytes: Seq<u8>, k: int)
    requires
        0 <= k < bytes.len(),
    ensures
        dump_lines(bytes).len() == 70 * (bytes.len() / 16) + (if bytes.len() % 16 == 0 {
            0nat
        } else {
            54 + bytes.len() % 16
        }),
        ({
            let text = dump_lines(bytes);
            let line = 70 * (k / 16);
            let column = k % 16;
            &&& text[line + 2 + 3 * column] == "0123456789ABCDEF"@[bytes[k] as int / 16]
            &&& text[line + 3 + 3 * column] == "0123456789ABCDEF"@[bytes[k] as int % 16]
            &&& text[line + 53 + column] == (if 32 <= bytes[k] <= 126 {
                bytes[k] as char
            } else {
                '.'
            })
        }),
{
    let text = dump_lines(bytes);
    let l = k / 16;
    let n = if bytes.len() - 16 * l < 16 {
        bytes.len() - 16 * l
    } else {
        16
    };
    lemma_dump_len(bytes);
    lemma_dump_lines(bytes, l);
    let chunk = bytes.subrange(16 * l, 16 * l + n);
    let shown = text.subrange(70 * l, 70 * l + 54 + n);
    let c = k % 16;
    lemma_line_shows(chunk, c);
    assert(chunk[c] == bytes[k]);
    assert(shown[2 + 3 * c] == text[70 * l + 2 + 3 * c]);
    assert(shown[3 + 3 * c] == text[70 * l + 3 + 3 * c]);
    assert(shown[53 + c] == text[70 * l + 53 + c]);
}

proof fn lemma_line_shows(chunk: Seq<u8>, c: int)
    requires
        0 <= c < chunk.len() <= 16,
    ensures
        dump_line(chunk)[2 + 3 * c] == "0123456789ABCDEF"@[chunk[c] as int / 16],
        dump_line(chunk)[3 + 3 * c] == "0123456789ABCDEF"@[chunk[c] as int % 16],
        dump_line(chunk)[53 + c] == (if 32 <= chunk[c] <= 126 {
            chunk[c] as char
        } else {
            '.'
        }),
{
    a_hexdump_line_is_laid_out_in_columns(chunk);
    assert((2 + 3 * c - 2) / 3 == c && (2 + 3 * c - 2) % 3 == 0);
    assert((3 + 3 * c - 2) / 3 == c && (3 + 3 * c - 2) % 3 == 1);
}

/// Every line of a hexdump is a line of sixteen bytes, or of what is left, in order.
pub proof fn every_line_of_a_hexdump_stands_in_order(bytes: Seq<u8>, l: int)
    requires
        0 <= l,
        16 * l < bytes.len(),
    ensures
        ({
            let end = if 16 * l + 16 < bytes.len() {
                16 * l + 16
            } else {
                bytes.len() as int
            };
            dump_lines(bytes).subrange(70 * l, 70 * l + 54 + (end - 16 * l)) == dump_line(
                bytes.subrange(16 * l, end),
            )
        }),
        dump_lines(seq![]) == Seq::<char>::empty(),
{
    lemma_dump_lines(bytes, l);
}

/// A hexdump tells everything: two payloads with the same lines are the same.
pub proof fn the_hexdump_determines_the_payload(a: Seq<u8>, b: Seq<u8>)
    requires
        dump_lines(a) == dump_lines(b),
    ensures
        a == b,
{
    assert(a.len() == b.len()) by {
        lemma_dump_len(a);
        lemma_dump_len(b);
        lemma_dump_len_injective(
            a.len() as int / 16,
            a.len() as int % 16,
            b.len() as int / 16,
            b.len() as int % 16,
        );
    }
    assert forall|k: int| 0 <= k < a.len() implies a[k] == b[k] by {
        lemma_dump_byte(a, b, k);
    }
    assert(a =~= b);
}

proof fn lemma_dump_len_injective(p: int, r: int, q: int, t: int)
    requires
        0 <= r < 16,
        0 <= t < 16,
        70 * p + (if r == 0 {
            0
        } else {
            54 + r
        }) == 70 * q + (if t == 0 {
            0
        } else {
            54 + t
        }),
    ensures
        p == q,
        r == t,
{
}

proof fn lemma_dump_byte(a: Seq<u8>, b: Seq<u8>, k: int)
    requires
        dump_lines(a) == dump_lines(b),
        0 <= k < a.len(),
        k < b.len(),
    ensures
        a[k] == b[k],
{
    let (x, y) = (a[k] as int, b[k] as int);
    a_hexdump_shows_every_byte(a, k);
    a_hexdump_shows_every_byte(b, k);
    hex_digits_are_the_usual_ones(x / 16);
    hex_digits_are_the_usual_ones(y / 16);
    hex_digits_are_the_usual_ones(x % 16);
    hex_digits_are_the_usual_ones(y % 16);
    lemma_hex_char_injective(x / 16, y / 16, true);
    lemma_hex_char_injective(x % 16, y % 16, true);
}

proof fn lemma_dump_len(bytes: Seq<u8>)
    ensures
        dump_lines(bytes).len() == 70 * (bytes.len() / 16) + (if bytes.len() % 16 == 0 {
            0nat
        } else {
            54 + bytes.len() % 16
        }),
{
    if bytes.len() > 0 {
        let l = (bytes.len() - 1) / 16;
        lemma_dump_lines(bytes, l);
        if bytes.len() % 16 == 0 {
            assert(l == bytes.len() / 16 - 1);
        } else {
            assert(l == bytes.len() / 16);
        }
    }
}

// ---------------------------------------------------------------------------
// Text
// ---------------------------------------------------------------------------

/// A text behind the label of a direction, the label between two color codes.
pub open spec fn labelled_text(
    direction: Direction,
    on: Seq<char>,
    off: Seq<char>,
    text: Seq<char>,
) -> Seq<char> {
    on + "["@ + direction.label() + "]"@ + off + " "@ + text
}

/// The bytes as they are shown: in color, with the highlight codes of the theme
/// around every match.
pub open spec fn shown_bytes(
    bytes: Seq<u8>,
    color: bool,
    highlight: Seq<Vec<u8>>,
    theme: ThemeCodes,
) -> Seq<u8> {
    if color {
        highlighted(bytes, highlight, encode_utf8(theme.highlight), encode_utf8(theme.reset))
    } else {
        bytes
    }
}

/// The bytes as they are shown.
fn show(bytes: &[u8], color: bool, highlight: &[Vec<u8>], theme: &Theme) -> (out: Vec<u8>)
    ensures
        out@ == shown_bytes(bytes@, color, highlight@, theme@),
{
    if color {
        apply_highlight(
            bytes,
            highlight,
            theme.highlight.as_str().as_bytes(),
            theme.reset.as_str().as_bytes(),
        )
    } else {
        vstd::slice::slice_to_vec(bytes)
    }
}

/// A packet as decoded text.
pub open spec fn raw_text(
    packet: Packet,
    color: bool,
    highlight: Seq<Vec<u8>>,
    theme: ThemeCodes,
) -> Seq<char> {
    labelled_text(
        packet.direction,
        theme.direction_code(packet.direction),
        theme.reset,
        lossy_text(shown_bytes(packet.bytes@, color, highlight, theme)),
    )
}

fn label_of(direction: Direction, on: &str, off: &str) -> (out: String)
    ensures
        out@ == on@ + "["@ + direction.label() + "]"@ + off@ + " "@,
{
    let mut out = on.to_owned();
    out.append("[");
    out.append(direction.as_str());
    out.append("]");
    out.append(off);
    out.append(" ");
    out
}

/// The packet as decoded text, with the matches highlighted in color.
pub fn render_raw(packet: &Packet, color: bool, highlight: &[Vec<u8>], theme: &Theme) -> (out:
    String)
    ensures
        out@ == raw_text(*packet, color, highlight@, theme@),
{
    let shown = show(packet.bytes.as_slice(), color, highlight, theme);
    let mut out = label_of(
        packet.direction,
        theme.direction_color(packet.direction),
        theme.reset.as_str(),
    );
    out.append(lossy_string(shown.as_slice()).as_str());
    out
}

/// How many characters a preview shows at most.
pub const COMPACT_PREVIEW_LEN: usize = 60;

/// A text with a dot for every control character, so that it stays on one line.
pub open spec fn one_line_text(text: Seq<char>) -> Seq<char> {
    text.map_values(
        |c: char|
            if is_control_char(c) {
                '.'
            } else {
                c
            },
    )
}

/// The first `n` characters of a text, or all where there are fewer.
pub open spec fn at_most(text: Seq<char>, n: int) -> Seq<char> {
    if text.len() > n {
        text.take(n)
    } else {
        text
    }
}

/// The preview of a text: on one line, and cut with an ellipsis where it is too
/// long.
pub open spec fn preview_text(text: Seq<char>) -> Seq<char> {
    let shown = at_most(one_line_text(text), COMPACT_PREVIEW_LEN as int);
    if text.len() > COMPACT_PREVIEW_LEN {
        shown.push('…')
    } else {
        shown
    }
}

/// The text of pieces, each decoded, one after the other.
pub open spec fn pieces_text(pieces: Seq<(Seq<u8>, bool)>) -> Seq<char>
    decreases pieces.len(),
{
    if pieces.len() == 0 {
        seq![]
    } else {
        pieces_text(pieces.drop_last()) + lossy_text(pieces.last().0)
    }
}

/// The first `room` characters of pieces, on one line, with `on` in front of what
/// is shown of a match and `off` behind it.
pub open spec fn shown_pieces(
    pieces: Seq<(Seq<u8>, bool)>,
    room: int,
    on: Seq<char>,
    off: Seq<char>,
) -> Seq<char>
    decreases pieces.len(),
{
    if pieces.len() == 0 {
        seq![]
    } else {
        let (bytes, hit) = pieces.last();
        let before = pieces.drop_last();
        let left = room - pieces_text(before).len();
        let text = at_most(
            one_line_text(lossy_text(bytes)),
            if left > 0 {
                left
            } else {
                0
            },
        );
        shown_pieces(before, room, on, off) + (if hit && left > 0 {
            on + text + off
        } else {
            text
        })
    }
}

/// The preview of pieces: as that of their text, with codes around what is shown
/// of the matches. The codes are neither replaced nor counted nor cut.
pub open spec fn pieces_preview(
    pieces: Seq<(Seq<u8>, bool)>,
    on: Seq<char>,
    off: Seq<char>,
) -> Seq<char> {
    let shown = shown_pieces(pieces, COMPACT_PREVIEW_LEN as int, on, off);
    if pieces_text(pieces).len() > COMPACT_PREVIEW_LEN {
        shown.push('…')
    } else {
        shown
    }
}

/// A packet on one line. In color, the matches are looked for in the payload, and
/// what the preview shows of them is highlighted.
pub open spec fn compact_text(
    packet: Packet,
    color: bool,
    highlight: Seq<Vec<u8>>,
    theme: ThemeCodes,
) -> Seq<char> {
    let shown = if color {
        pieces_preview(pieces(packet.bytes@, highlight), theme.highlight, theme.reset)
    } else {
        preview_text(lossy_text(packet.bytes@))
    };
    labelled_text(
        packet.direction,
        theme.direction_code(packet.direction),
        theme.reset,
        decimal_text(packet.bytes@.len()) + "B \""@ + shown + "\""@,
    )
}

/// Appends at most `room` characters of a text, on one line.
fn push_one_line(out: &mut String, chars: &[char], room: usize)
    ensures
        final(out)@ == old(out)@ + at_most(one_line_text(chars@), room as int),
{
    let ghost start = out@;
    let ghost clean = one_line_text(chars@);
    let mut i: usize = 0;
    assert(start + clean.take(0) =~= start);
    while i < chars.len() && i < room
        invariant
            clean == one_line_text(chars@),
            i <= chars@.len(),
            i <= room,
            out@ == start + clean.take(i as int),
        decreases chars.len() - i,
    {
        let c = chars[i];
        if is_control(c) {
            out.push('.');
        } else {
            out.push(c);
        }
        i += 1;
        assert(out@ =~= start + clean.take(i as int));
    }
    assert(at_most(clean, room as int) =~= clean.take(i as int));
}

/// The preview of a text.
fn preview(text: &str) -> (out: String)
    ensures
        out@ == preview_text(text@),
{
    let chars = chars_of(text);
    let mut out = String::new();
    push_one_line(&mut out, chars.as_slice(), COMPACT_PREVIEW_LEN);
    assert(out@ =~= at_most(one_line_text(text@), COMPACT_PREVIEW_LEN as int));
    if chars.len() > COMPACT_PREVIEW_LEN {
        out.push('…');
    }
    out
}

/// The preview of some bytes, with the matches of the patterns highlighted.
fn highlighted_preview(bytes: &[u8], patterns: &[Vec<u8>], on: &str, off: &str) -> (out: String)
    ensures
        out@ == pieces_preview(pieces(bytes@, patterns@), on@, off@),
{
    let spans = spans_of(bytes, patterns);
    let ghost all = span_pieces(bytes@, spans@);
    let ghost limit = COMPACT_PREVIEW_LEN as int;
    let mut out = String::new();
    let mut room: usize = COMPACT_PREVIEW_LEN;
    let mut cut = false;
    let mut i: usize = 0;
    assert(out@ =~= seq![]);
    while i < spans.len()
        invariant
            i <= spans@.len(),
            limit == COMPACT_PREVIEW_LEN,
            all == span_pieces(bytes@, spans@),
            forall|i: int|
                0 <= i < spans@.len() ==> (#[trigger] spans@[i]).start < spans@[i].end
                    <= bytes@.len(),
            out@ == shown_pieces(all.take(i as int), limit, on@, off@),
            cut == (pieces_text(all.take(i as int)).len() > limit),
            cut ==> room == 0,
            !cut ==> room == limit - pieces_text(all.take(i as int)).len(),
        decreases spans.len() - i,
    {
        let ghost before = out@;
        let ghost seen = all.take(i as int);
        let piece = vstd::slice::slice_subrange(bytes, spans[i].start, spans[i].end);
        proof {
            assert(all.take(i + 1).drop_last() =~= seen);
            assert(all.take(i + 1).last() == all[i as int]);
            assert(all[i as int].0 == piece@);
        }
        let text = lossy_string(piece);
        let chars = chars_of(text.as_str());
        if spans[i].hit && room > 0 {
            out.append(on);
            push_one_line(&mut out, chars.as_slice(), room);
            out.append(off);
            proof {
                let shown = at_most(one_line_text(text@), room as int);
                assert(before + (on@ + shown + off@) =~= before + on@ + shown + off@);
            }
        } else {
            push_one_line(&mut out, chars.as_slice(), room);
        }
        if chars.len() > room {
            cut = true;
            room = 0;
        } else {
            room = room - chars.len();
        }
        i += 1;
    }
    assert(all.take(all.len() as int) =~= all);
    if cut {
        out.push('…');
    }
    out
}

/// The packet on one line: direction, length, and a preview, with the matches
/// highlighted in color.
pub fn render_compact(packet: &Packet, color: bool, highlight: &[Vec<u8>], theme: &Theme) -> (out:
    String)
    ensures
        out@ == compact_text(*packet, color, highlight@, theme@),
{
    let bytes = packet.bytes.as_slice();
    let shown = if color {
        highlighted_preview(bytes, highlight, theme.highlight.as_str(), theme.reset.as_str())
    } else {
        preview(lossy_string(bytes).as_str())
    };
    let mut out = label_of(
        packet.direction,
        theme.direction_color(packet.direction),
        theme.reset.as_str(),
    );
    let ghost label = out@;
    push_decimal(&mut out, packet.len() as u64);
    out.append("B \"");
    out.append(shown.as_str());
    out.append("\"");
    assert(out@ =~= label + (decimal_text(packet.bytes@.len()) + "B \""@ + shown@ + "\""@));
    out
}

// ---------------------------------------------------------------------------
// Base64
// ---------------------------------------------------------------------------

/// The character of a base64 digit, in the standard alphabet of RFC 4648.
pub open spec fn base64_char(d: int) -> char {
    if d < 26 {
        (65 + d) as char
    } else if d < 52 {
        (71 + d) as char
    } else if d < 62 {
        (d - 4) as char
    } else if d == 62 {
        '+'
    } else {
        '/'
    }
}

/// Bytes in the standard base64 of RFC 4648, padded.
pub open spec fn base64_text(bytes: Seq<u8>) -> Seq<char>
    decreases bytes.len(),
{
    if bytes.len() == 0 {
        seq![]
    } else if bytes.len() == 1 {
        let a = bytes[0] as int;
        seq![base64_char(a / 4), base64_char(a % 4 * 16), '=', '=']
    } else if bytes.len() == 2 {
        let a = bytes[0] as int;
        let b = bytes[1] as int;
        seq![base64_char(a / 4), base64_char(a % 4 * 16 + b / 16), base64_char(b % 16 * 4), '=']
    } else {
        let a = bytes[0] as int;
        let b = bytes[1] as int;
        let c = bytes[2] as int;
        seq![
            base64_char(a / 4),
            base64_char(a % 4 * 16 + b / 16),
            base64_char(b % 16 * 4 + c / 64),
            base64_char(c % 64),
        ] + base64_text(bytes.skip(3))
    }
}

/// The base64 of so many bytes fits in memory.
pub open spec fn base64_fits(len: nat) -> bool {
    (len + 2) / 3 * 4 <= isize::MAX
}

/// `base64::engine::Engine::encode` with the engine
/// `base64::engine::general_purpose::STANDARD` writes bytes in the standard
/// base64 of RFC 4648, with padding. It panics where the text cannot be
/// allocated.
#[verifier::external_body]
fn base64_encode(bytes: &[u8]) -> (text: String)
    requires
        base64_fits(bytes@.len()),
    ensures
        text@ == base64_text(bytes@),
{
    base64::Engine::encode(&base64::engine::general_purpose::STANDARD, bytes)
}

/// The packet in base64.
pub fn render_base64(packet: &Packet, theme: &Theme) -> (out: String)
    requires
        base64_fits(packet.bytes@.len()),
    ensures
        out@ == labelled_text(
            packet.direction,
            theme@.encoded,
            theme@.reset,
            base64_text(packet.bytes@),
        ),
{
    let mut out = label_of(packet.direction, theme.encoded.as_str(), theme.reset.as_str());
    out.append(base64_encode(packet.bytes.as_slice()).as_str());
    out
}

// ---------------------------------------------------------------------------
// JSON
// ---------------------------------------------------------------------------

/// The record of a packet.
pub open spec fn record_fields(packet: Packet) -> Seq<(Seq<char>, Json)> {
    seq![
        ("pipeline"@, Json::Text(packet.pipeline@)),
        ("direction"@, Json::Text(packet.direction.label())),
        ("timestamp"@, Json::Text(packet.timestamp.rfc3339())),
        ("length"@, Json::Number(packet.bytes@.len() as u64)),
        ("text"@, Json::Text(lossy_text(packet.bytes@))),
        ("hex"@, Json::Text(hex_text(packet.bytes@, false))),
    ]
}

/// The record of a packet as an object of `serde_json`.
fn packet_record(packet: &Packet) -> (object: serde_json::Map<String, serde_json::Value>)
    ensures
        json_fields(object) == record_fields(*packet),
        is_flat(json_fields(object)),
{
    proof {
        reveal_strlit("pipeline");
        reveal_strlit("direction");
        reveal_strlit("timestamp");
        reveal_strlit("length");
        reveal_strlit("text");
        reveal_strlit("hex");
        assert("pipeline"@[0] != "direction"@[0]);
        assert("pipeline"@[0] != "timestamp"@[0]);
        assert("direction"@[0] != "timestamp"@[0]);
        assert("text"@.len() == 4);
        assert("hex"@.len() == 3);
    }
    let mut object = new_object();
    insert_text(&mut object, "pipeline", packet.pipeline.as_str());
    insert_text(&mut object, "direction", packet.direction.as_str());
    insert_text(&mut object, "timestamp", packet.timestamp.to_rfc3339().as_str());
    insert_number(&mut object, "length", packet.len() as u64);
    insert_text(&mut object, "text", lossy_string(packet.bytes.as_slice()).as_str());
    insert_text(&mut object, "hex", hex_string(packet.bytes.as_slice(), false).as_str());
    assert(json_fields(object) =~= record_fields(*packet));
    object
}

/// The record of a packet on one line.
pub fn record_line(packet: &Packet) -> (line: String)
    ensures
        line@ == object_text(record_fields(*packet)),
{
    to_compact(&packet_record(packet))
}

/// A packet as JSON: in color the outcome of the coloring writer, or the compact
/// form where that failed; else the pretty or the compact form.
pub open spec fn json_text(
    packet: Packet,
    pretty: bool,
    color: bool,
    colored: Option<Seq<char>>,
) -> Seq<char> {
    let fields = record_fields(packet);
    if color {
        match colored {
            Some(text) => text,
            None => object_text(fields),
        }
    } else if pretty {
        pretty_text(fields)
    } else {
        object_text(fields)
    }
}

/// What the coloring writer comes back with for a packet: the pretty form, in
/// color or not.
pub open spec fn coloring_outcome(packet: Packet, colored: Option<Seq<char>>) -> bool {
    let fields = record_fields(packet);
    colored == Some(pretty_text(fields)) || colored == Some(colored_text(fields))
}

/// The packet's record as the coloring writer writes it.
fn color_record(packet: &Packet) -> (colored: Option<String>)
    ensures
        coloring_outcome(*packet, text_of(colored)),
{
    to_colored(&packet_record(packet))
}

/// The packet as JSON, given what came back from the coloring writer.
pub fn render_json(packet: &Packet, pretty: bool, color: bool, colored: Option<String>) -> (out:
    String)
    ensures
        out@ == json_text(*packet, pretty, color, text_of(colored)),
{
    let object = packet_record(packet);
    if color {
        match colored {
            Some(text) => text,
            None => to_compact(&object),
        }
    } else if pretty {
        to_pretty(&object)
    } else {
        to_compact(&object)
    }
}

// ---------------------------------------------------------------------------
// All formats
// ---------------------------------------------------------------------------

/// A packet as text, given the codes of a theme and what the coloring writer of
/// JSON came back with.
pub open spec fn rendered(
    packet: Packet,
    format: OutputFormat,
    pretty: bool,
    color: bool,
    highlight: Seq<Vec<u8>>,
    theme: ThemeCodes,
    colored: Option<Seq<char>>,
) -> Seq<char> {
    let code = theme.direction_code(packet.direction);
    match format {
        OutputFormat::Hexdump => hexdump_text(packet.direction, packet.bytes@, code, theme.reset),
        OutputFormat::Json => json_text(packet, pretty, color, colored),
        OutputFormat::Raw => raw_text(packet, color, highlight, theme),
        OutputFormat::Base64 => labelled_text(
            packet.direction,
            theme.encoded,
            theme.reset,
            base64_text(packet.bytes@),
        ),
        OutputFormat::Compact => compact_text(packet, color, highlight, theme),
    }
}

/// A payload of this length can be rendered in this format.
pub open spec fn renderable(format: OutputFormat, len: nat) -> bool {
    format == OutputFormat::Base64 ==> base64_fits(len)
}

/// The packet as text, given a theme and what the coloring writer of JSON came
/// back with.
pub fn render_with(
    packet: &Packet,
    format: OutputFormat,
    pretty: bool,
    color: bool,
    highlight: &[Vec<u8>],
    theme: &Theme,
    colored: Option<String>,
) -> (out: String)
    requires
        renderable(format, packet.bytes@.len()),
    ensures
        out@ == rendered(
            *packet,
            format,
            pretty,
            color,
            highlight@,
            theme@,
            text_of(colored),
        ),
{
    match format {
        OutputFormat::Hexdump => render_hexdump(packet, theme),
        OutputFormat::Json => render_json(packet, pretty, color, colored),
        OutputFormat::Raw => render_raw(packet, color, highlight, theme),
        OutputFormat::Base64 => render_base64(packet, theme),
        OutputFormat::Compact => render_compact(packet, color, highlight, theme),
    }
}

/// A text is what a packet renders to: exactly one text without color, and in
/// color one of those that the themes and the coloring writer allow.
pub open spec fn is_rendering(
    out: Seq<char>,
    packet: Packet,
    format: OutputFormat,
    pretty: bool,
    color: bool,
    highlight: Seq<Vec<u8>>,
) -> bool {
    if color {
        exists|theme: ThemeCodes, colored: Option<Seq<char>>|
            theme.is_colored() && coloring_outcome(packet, colored) && out == #[trigger] rendered(
                packet,
                format,
                pretty,
                true,
                highlight,
                theme,
                colored,
            )
    } else {
        out == rendered(packet, format, pretty, false, highlight, ThemeCodes::none(), None)
    }
}

/// The packet as text, in the colors of the current theme when `color`.
pub fn render(
    packet: &Packet,
    format: OutputFormat,
    pretty: bool,
    color: bool,
    highlight: &[Vec<u8>],
) -> (out: String)
    requires
        renderable(format, packet.bytes@.len()),
    ensures
        is_rendering(out@, *packet, format, pretty, color, highlight@),
{
    if color {
        let theme = Theme::current();
        let colored = match format {
            OutputFormat::Json => color_record(packet),
            _ => None,
        };
        let ghost given = text_of(colored);
        let out = render_with(packet, format, pretty, true, highlight, &theme, colored);
        proof {
            // Other formats than JSON do not look at what the writer gave.
            let outcome = if format == OutputFormat::Json {
                given
            } else {
                Some(pretty_text(record_fields(*packet)))
            };
            assert(coloring_outcome(*packet, outcome));
            assert(out@ == rendered(
                *packet,
                format,
                pretty,
                true,
                highlight@,
                theme@,
                outcome,
            ));
        }
        out
    } else {
        render_with(packet, format, pretty, false, highlight, &Theme::none(), None)
    }
}

// ---------------------------------------------------------------------------
// Laws
// ---------------------------------------------------------------------------

/// Without color, decoded text is the label and the text, and one line is the
/// label, the length and the preview: no codes, whatever is to be highlighted.
pub proof fn uncolored_text_has_no_codes(packet: Packet, pretty: bool, highlight: Seq<Vec<u8>>)
    ensures
        rendered(
            packet,
            OutputFormat::Raw,
            pretty,
            false,
            highlight,
            ThemeCodes::none(),
            None,
        ) == "["@ + packet.direction.label() + "]"@ + " "@ + lossy_text(packet.bytes@),
        rendered(
            packet,
            OutputFormat::Compact,
            pretty,
            false,
            highlight,
            ThemeCodes::none(),
            None,
        ) == "["@ + packet.direction.label() + "]"@ + " "@ + decimal_text(packet.bytes@.len())
            + "B \""@ + preview_text(lossy_text(packet.bytes@)) + "\""@,
{
    let none = ThemeCodes::none();
    let label = packet.direction.label();
    let raw = lossy_text(packet.bytes@);
    assert(none.direction_code(packet.direction) =~= seq![]);
    assert(none.reset =~= seq![]);
    assert(labelled_text(packet.direction, seq![], seq![], raw) =~= "["@ + label + "]"@ + " "@ + raw);
    let preview = preview_text(raw);
    let line = decimal_text(packet.bytes@.len()) + "B \""@ + preview + "\""@;
    assert(labelled_text(packet.direction, seq![], seq![], line) =~= "["@ + label + "]"@ + " "@
        + decimal_text(packet.bytes@.len()) + "B \""@ + preview + "\""@);
}

/// A preview is one line and short: it holds no control characters, and at most
/// sixty characters and an ellipsis.
pub proof fn preview_is_one_short_line(text: Seq<char>)
    ensures
        preview_text(text).len() <= COMPACT_PREVIEW_LEN + 1,
        forall|i: int|
            0 <= i < preview_text(text).len() ==> !is_control_char(#[trigger] preview_text(text)[i]),
{
}

/// The codes are all that color adds to a preview: with empty codes, it is the
/// preview of the pieces' text.
pub proof fn highlighting_keeps_the_preview(pieces: Seq<(Seq<u8>, bool)>)
    ensures
        pieces_preview(pieces, seq![], seq![]) == preview_text(pieces_text(pieces)),
{
    lemma_shown_pieces(pieces, COMPACT_PREVIEW_LEN as int);
}

proof fn lemma_shown_pieces(pieces: Seq<(Seq<u8>, bool)>, room: int)
    requires
        room >= 0,
    ensures
        shown_pieces(pieces, room, seq![], seq![]) == at_most(
            one_line_text(pieces_text(pieces)),
            room,
        ),
    decreases pieces.len(),
{
    if pieces.len() > 0 {
        let before = pieces.drop_last();
        lemma_shown_pieces(before, room);
        let x = one_line_text(pieces_text(before));
        let y = one_line_text(lossy_text(pieces.last().0));
        assert(one_line_text(pieces_text(pieces)) =~= x + y);
        let left = room - x.len();
        let text = at_most(
            y,
            if left > 0 {
                left
            } else {
                0
            },
        );
        assert(seq![] + text + seq![] =~= text);
        assert(at_most(x, room) + text =~= at_most(x + y, room));
    } else {
        assert(one_line_text(pieces_text(pieces)) =~= seq![]);
    }
}

/// Without a match to highlight, a preview is the same in color and without.
pub proof fn a_clean_preview_needs_no_codes(
    bytes: Seq<u8>,
    patterns: Seq<Vec<u8>>,
    on: Seq<char>,
    off: Seq<char>,
)
    requires
        bytes.len() > 0,
        forall|k: int|
            0 <= k < patterns.len() && (#[trigger] patterns[k])@.len() > 0 ==> !occurs(
                bytes,
                patterns[k]@,
            ),
    ensures
        pieces_preview(pieces(bytes, patterns), on, off) == preview_text(lossy_text(bytes)),
{
    lemma_clean_pieces(bytes, patterns);
    let all = seq![(bytes, false)];
    assert(all.drop_last() =~= seq![]);
    assert(pieces_text(all) =~= lossy_text(bytes)) by {
        assert(pieces_text(all.drop_last()) =~= seq![]);
        assert(seq![] + lossy_text(bytes) =~= lossy_text(bytes));
    }
    let limit = COMPACT_PREVIEW_LEN as int;
    assert(shown_pieces(all.drop_last(), limit, on, off) =~= seq![]);
    assert(pieces_text(all.drop_last()) =~= seq![]);
    let text = at_most(one_line_text(lossy_text(bytes)), limit);
    assert(seq![] + text =~= text);
    assert(shown_pieces(all, limit, on, off) =~= text);
}

/// The hex digits of a payload determine its bytes.
pub proof fn hex_text_is_injective(a: Seq<u8>, b: Seq<u8>, upper: bool)
    requires
        hex_text(a, upper) == hex_text(b, upper),
    ensures
        a == b,
    decreases a.len(),
{
    lemma_hex_text_len(a, upper);
    lemma_hex_text_len(b, upper);
    if a.len() > 0 {
        let x = hex_text(a, upper);
        let y = hex_text(b, upper);
        let n = 2 * a.len();
        assert(x.take(n - 2) =~= hex_text(a.drop_last(), upper));
        assert(y.take(n - 2) =~= hex_text(b.drop_last(), upper));
        hex_text_is_injective(a.drop_last(), b.drop_last(), upper);
        assert(hex_byte(a.last(), upper)[0] == x[n - 2]);
        assert(hex_byte(b.last(), upper)[0] == y[n - 2]);
        assert(hex_byte(a.last(), upper)[1] == x[n - 1]);
        assert(hex_byte(b.last(), upper)[1] == y[n - 1]);
        lemma_hex_char_injective(a.last() as int / 16, b.last() as int / 16, upper);
        lemma_hex_char_injective(a.last() as int % 16, b.last() as int % 16, upper);
        assert(a =~= a.drop_last().push(a.last()));
        assert(b =~= b.drop_last().push(b.last()));
    } else {
        assert(a =~= b);
    }
}

proof fn lemma_hex_char_injective(a: int, b: int, upper: bool)
    requires
        0 <= a < 16,
        0 <= b < 16,
        hex_char(a, upper) == hex_char(b, upper),
    ensures
        a == b,
{
}

proof fn lemma_hex_text_len(bytes: Seq<u8>, upper: bool)
    ensures
        hex_text(bytes, upper).len() == 2 * bytes.len(),
    decreases bytes.len(),
{
    if bytes.len() > 0 {
        lemma_hex_text_len(bytes.drop_last(), upper);
    }
}

/// The base64 of a payload determines its bytes.
pub proof fn base64_text_is_injective(a: Seq<u8>, b: Seq<u8>)
    requires
        base64_text(a) == base64_text(b),
    ensures
        a == b,
    decreases a.len(),
{
    lemma_base64_len(a);
    lemma_base64_len(b);
    let x = base64_text(a);
    let y = base64_text(b);
    if a.len() == 0 {
        assert(a =~= b);
    } else {
        if a.len() >= 3 && b.len() >= 3 {
            assert(x.skip(4) =~= base64_text(a.skip(3)));
            assert(y.skip(4) =~= base64_text(b.skip(3)));
            base64_text_is_injective(a.skip(3), b.skip(3));
            assert(a =~= a.take(3) + a.skip(3));
            assert(b =~= b.take(3) + b.skip(3));
            let (a0, a1, a2) = (a[0] as int, a[1] as int, a[2] as int);
            let (b0, b1, b2) = (b[0] as int, b[1] as int, b[2] as int);
            assert(x[0] == y[0] && x[1] == y[1] && x[2] == y[2] && x[3] == y[3]);
            lemma_base64_char_injective(a0 / 4, b0 / 4);
            lemma_base64_char_injective(a0 % 4 * 16 + a1 / 16, b0 % 4 * 16 + b1 / 16);
            lemma_base64_char_injective(a1 % 16 * 4 + a2 / 64, b1 % 16 * 4 + b2 / 64);
            lemma_base64_char_injective(a2 % 64, b2 % 64);
            assert(a0 == b0 && a1 == b1 && a2 == b2);
            assert(a.take(3) =~= b.take(3));
        } else {
            assert(a =~= b);
        }
    }
}

proof fn lemma_base64_char_injective(a: int, b: int)
    requires
        0 <= a < 64,
        0 <= b < 64,
    ensures
        base64_char(a) == base64_char(b) ==> a == b,
{
}

proof fn lemma_base64_len(bytes: Seq<u8>)
    ensures
        base64_text(bytes).len() == (bytes.len() + 2) / 3 * 4,
    decreases bytes.len(),
{
    if bytes.len() >= 3 {
        lemma_base64_len(bytes.skip(3));
    }
}

/// A JSON record tells everything, in the pretty form and in the compact one: the
/// text determines the pipeline, the direction, the time as it is written, and
/// every byte of the payload.
pub proof fn the_json_text_determines_the_packet(p: Packet, q: Packet, pretty: bool)
    requires
        json_text(p, pretty, false, None) == json_text(q, pretty, false, None),
    ensures
        record_fields(p) == record_fields(q),
        p.pipeline@ == q.pipeline@,
        p.direction == q.direction,
        p.timestamp.rfc3339() == q.timestamp.rfc3339(),
        p.bytes@ == q.bytes@,
{
    let a = record_fields(p);
    let b = record_fields(q);
    if pretty {
        pretty_text_determines_the_object(a, b);
    } else {
        compact_text_determines_the_object(a, b);
    }
    assert(a[0] == b[0] && a[1] == b[1] && a[2] == b[2] && a[5] == b[5]);
    reveal_strlit("INBOUND");
    reveal_strlit("OUTBOUND");
    assert("INBOUND"@.len() != "OUTBOUND"@.len());
    hex_text_is_injective(p.bytes@, q.bytes@, false);
}

/// A JSON record gives the packet's fields back, the same ones in the pretty form
/// and in the compact one.
pub proof fn reading_a_record_gives_its_fields(packet: Packet)
    ensures
        read_compact(json_text(packet, false, false, None)) == record_fields(packet),
        read_pretty(json_text(packet, true, false, None)) == record_fields(packet),
{
    reading_gives_the_object_back(record_fields(packet));
}

/// A compact record stays on one line.
pub proof fn compact_records_stay_on_one_line(packet: Packet)
    ensures
        is_one_line(json_text(packet, false, false, None)),
{
    compact_objects_stay_on_one_line(record_fields(packet));
}

/// Every format has its names, in any mix of cases, and every other name is refused.
pub proof fn formats_have_their_names(name: Seq<char>)
    ensures
        format_named(name) == Some(OutputFormat::Hexdump) <==> is_word(
            name,
            "hexdump"@,
            "HEXDUMP"@,
        ) || is_word(name, "hex"@, "HEX"@),
        format_named(name) == Some(OutputFormat::Json) <==> is_word(name, "json"@, "JSON"@),
        format_named(name) == Some(OutputFormat::Raw) <==> is_word(name, "raw"@, "RAW"@)
            || is_word(name, "text"@, "TEXT"@),
        format_named(name) == Some(OutputFormat::Base64) <==> is_word(name, "base64"@, "BASE64"@),
        format_named(name) == Some(OutputFormat::Compact) <==> is_word(
            name,
            "compact"@,
            "COMPACT"@,
        ) || is_word(name, "summary"@, "SUMMARY"@),
{
    reveal_strlit("hexdump");
    reveal_strlit("HEXDUMP");
    reveal_strlit("hex");
    reveal_strlit("HEX");
    reveal_strlit("json");
    reveal_strlit("JSON");
    reveal_strlit("raw");
    reveal_strlit("RAW");
    reveal_strlit("text");
    reveal_strlit("TEXT");
    reveal_strlit("base64");
    reveal_strlit("BASE64");
    reveal_strlit("compact");
    reveal_strlit("COMPACT");
    reveal_strlit("summary");
    reveal_strlit("SUMMARY");
    lemma_is_word(name, "hexdump"@, "HEXDUMP"@);
    lemma_is_word(name, "hex"@, "HEX"@);
    lemma_is_word(name, "json"@, "JSON"@);
    lemma_is_word(name, "raw"@, "RAW"@);
    lemma_is_word(name, "text"@, "TEXT"@);
    lemma_is_word(name, "base64"@, "BASE64"@);
    lemma_is_word(name, "compact"@, "COMPACT"@);
    lemma_is_word(name, "summary"@, "SUMMARY"@);
    assert("hexdump"@.len() == 7 && "compact"@.len() == 7 && "summary"@.len() == 7);
    assert("hexdump"@[0] != "compact"@[0] && "hexdump"@[0] != "summary"@[0]);
    assert("json"@.len() == 4 && "text"@.len() == 4 && "json"@[0] != "text"@[0]);
    assert("hex"@.len() == 3 && "raw"@.len() == 3 && "hex"@[0] != "raw"@[0]);
    assert("base64"@.len() == 6);
}

/// What each format renders a packet to, given the codes of a theme: the label of the
/// direction in its code, or in that of base64, with the reset behind it, and then
/// the payload in that format. JSON has no label.
pub proof fn every_format_renders_the_payload(
    packet: Packet,
    pretty: bool,
    color: bool,
    highlight: Seq<Vec<u8>>,
    theme: ThemeCodes,
    colored: Option<Seq<char>>,
)
    ensures
        ({
            let code = if packet.direction == Direction::Outbound {
                theme.outbound
            } else {
                theme.inbound
            };
            let label = if packet.direction == Direction::Outbound {
                "OUTBOUND"@
            } else {
                "INBOUND"@
            };
            let shown = |format: OutputFormat|
                rendered(packet, format, pretty, color, highlight, theme, colored);
            let size = decimal_text(packet.bytes@.len());
            let text = if color {
                lossy_text(
                    highlighted(
                        packet.bytes@,
                        highlight,
                        encode_utf8(theme.highlight),
                        encode_utf8(theme.reset),
                    ),
                )
            } else {
                lossy_text(packet.bytes@)
            };
            let preview = if color {
                pieces_preview(pieces(packet.bytes@, highlight), theme.highlight, theme.reset)
            } else {
                preview_text(lossy_text(packet.bytes@))
            };
            &&& shown(OutputFormat::Hexdump) == "\n"@ + code + "["@ + label + " Payload - "@ + size
                + " bytes]"@ + theme.reset + "\n"@ + dump_lines(packet.bytes@)
            &&& shown(OutputFormat::Raw) == code + "["@ + label + "]"@ + theme.reset + " "@ + text
            &&& shown(OutputFormat::Base64) == theme.encoded + "["@ + label + "]"@ + theme.reset
                + " "@ + base64_text(packet.bytes@)
            &&& shown(OutputFormat::Compact) == code + "["@ + label + "]"@ + theme.reset + " "@
                + size + "B \""@ + preview + "\""@
            &&& shown(OutputFormat::Json) == (if color && colored is Some {
                colored->0
            } else if pretty && !color {
                pretty_text(record_fields(packet))
            } else {
                object_text(record_fields(packet))
            })
        }),
{
    let code = theme.direction_code(packet.direction);
    let label = packet.direction.label();
    let size = decimal_text(packet.bytes@.len());
    let preview = if color {
        pieces_preview(pieces(packet.bytes@, highlight), theme.highlight, theme.reset)
    } else {
        preview_text(lossy_text(packet.bytes@))
    };
    assert(labelled_text(packet.direction, code, theme.reset, size + "B \""@ + preview + "\""@)
        =~= code + "["@ + label + "]"@ + theme.reset + " "@ + size + "B \""@ + preview + "\""@);
}

/// A preview shows the text character for character: all of it up to sixty characters,
/// else the first sixty and an ellipsis, with a dot for every control character.
pub proof fn a_preview_shows_the_text(text: Seq<char>)
    ensures
        text.len() <= 60 ==> preview_text(text).len() == text.len(),
        text.len() > 60 ==> preview_text(text).len() == 61 && preview_text(text)[60] == '…',
        forall|i: int|
            0 <= i < text.len() && i < 60 ==> #[trigger] preview_text(text)[i] == (if text[i]
                < '\u{20}' || '\u{7f}' <= text[i] <= '\u{9f}' {
                '.'
            } else {
                text[i]
            }),
{
}

/// A preview takes one piece after the other: each shows what there is room for in
/// sixty characters, with `on` in front of it and `off` behind it where it is a match,
/// and an ellipsis once where something is cut off. A piece for which no room is left
/// shows nothing, not even codes.
pub proof fn a_preview_takes_one_piece_after_the_other(
    front: Seq<(Seq<u8>, bool)>,
    bytes: Seq<u8>,
    hit: bool,
    on: Seq<char>,
    off: Seq<char>,
)
    ensures
        pieces_preview(seq![], on, off) == Seq::<char>::empty(),
        pieces_text(seq![]) == Seq::<char>::empty(),
        pieces_text(front.push((bytes, hit))) == pieces_text(front) + lossy_text(bytes),
        ({
            let before = pieces_preview(front, on, off);
            let after = pieces_preview(front.push((bytes, hit)), on, off);
            let text = lossy_text(bytes);
            let room = 60 - pieces_text(front).len();
            let shown = if text.len() > room {
                preview_text(text.take(room))
            } else {
                preview_text(text)
            };
            let ellipsis = if text.len() > room {
                seq!['…']
            } else {
                seq![]
            };
            &&& room > 0 && hit ==> after == before + on + shown + off + ellipsis
            &&& room > 0 && !hit ==> after == before + shown + ellipsis
            &&& room == 0 ==> after == before + ellipsis
            &&& room < 0 ==> after == before
        }),
{
    let limit = COMPACT_PREVIEW_LEN as int;
    let all = front.push((bytes, hit));
    assert(all.drop_last() =~= front);
    let text = lossy_text(bytes);
    let room = 60 - pieces_text(front).len();
    let before = shown_pieces(front, limit, on, off);
    let shown = at_most(
        one_line_text(text),
        if room > 0 {
            room
        } else {
            0
        },
    );
    if room > 0 {
        if text.len() > room {
            assert(shown =~= preview_text(text.take(room)));
        } else {
            assert(shown =~= preview_text(text));
        }
        if hit {
            assert(before + (on + shown + off) =~= before + on + shown + off);
            assert((before + on + shown + off).push('…') =~= before + on + shown + off + seq!['…']);
            assert(before + on + shown + off =~= before + on + shown + off + seq![]);
        } else {
            assert((before + shown).push('…') =~= before + shown + seq!['…']);
            assert(before + shown =~= before + shown + seq![]);
        }
    } else {
        assert(shown =~= seq![]);
        assert(before + shown =~= before);
        assert(before.push('…') =~= before + seq!['…']);
        assert(before =~= before + seq![]);
    }
}

/// A record read back holds the pipeline, the direction by its label, the time, the
/// length of the payload, its text, and every byte of it in hex, under these keys and in
/// this order, and nothing else.
pub proof fn a_record_tells_everything(packet: Packet, pretty: bool)
    ensures
        ({
            let text = json_text(packet, pretty, false, None);
            let fields = if pretty {
                read_pretty(text)
            } else {
                read_compact(text)
            };
            let label = if packet.direction == Direction::Outbound {
                "OUTBOUND"@
            } else {
                "INBOUND"@
            };
            &&& fields.len() == 6
            &&& fields[0] == ("pipeline"@, Json::Text(packet.pipeline@))
            &&& fields[1] == ("direction"@, Json::Text(label))
            &&& fields[2] == ("timestamp"@, Json::Text(packet.timestamp.rfc3339()))
            &&& fields[3].0 == "length"@
            &&& fields[3].1 == Json::Number(packet.bytes@.len() as u64)
            &&& fields[4] == ("text"@, Json::Text(lossy_text(packet.bytes@)))
            &&& fields[5].0 == "hex"@
            &&& fields[5].1 is Text
            &&& fields[5].1->Text_0.len() == 2 * packet.bytes@.len()
            &&& forall|k: int|
                #![trigger packet.bytes@[k]]
                0 <= k < packet.bytes@.len() ==> {
                    let b = packet.bytes@[k] as int;
                    &&& fields[5].1->Text_0[2 * k] == "0123456789abcdef"@[b / 16]
                    &&& fields[5].1->Text_0[2 * k + 1] == "0123456789abcdef"@[b % 16]
                }
        }),
{
    reading_a_record_gives_its_fields(packet);
    let bytes = packet.bytes@;
    let hex = hex_text(bytes, false);
    lemma_hex_text_len(bytes, false);
    assert forall|k: int|
        #![trigger bytes[k]]
        0 <= k < bytes.len() implies hex[2 * k] == "0123456789abcdef"@[bytes[k] as int / 16] && hex[
        2 * k + 1] == "0123456789abcdef"@[bytes[k] as int % 16] by {
        every_byte_has_two_hex_digits(bytes, false, k);
    }
}

/// In color a rendering uses one theme for everything, and JSON is what the coloring
/// writer made of the record; without color there are no codes.
pub proof fn a_rendering_has_one_theme(
    out: Seq<char>,
    packet: Packet,
    format: OutputFormat,
    pretty: bool,
    color: bool,
    highlight: Seq<Vec<u8>>,
)
    requires
        is_rendering(out, packet, format, pretty, color, highlight),
    ensures
        !color ==> out == rendered(
            packet,
            format,
            pretty,
            false,
            highlight,
            ThemeCodes {
                outbound: seq![],
                inbound: seq![],
                encoded: seq![],
                highlight: seq![],
                reset: seq![],
            },
            None,
        ),
        color ==> exists|theme: ThemeCodes, colored: Seq<char>|
            {
                &&& theme.is_colored()
                &&& colored == pretty_text(record_fields(packet)) || colored == colored_text(
                    record_fields(packet),
                )
                &&& out == #[trigger] rendered(
                    packet,
                    format,
                    pretty,
                    true,
                    highlight,
                    theme,
                    Some(colored),
                )
            },
{
    if color {
        let (theme, colored) = choose|theme: ThemeCodes, colored: Option<Seq<char>>|
            theme.is_colored() && coloring_outcome(packet, colored) && out == #[trigger] rendered(
                packet,
                format,
                pretty,
                true,
                highlight,
                theme,
                colored,
            );
        assert(colored == Some(colored->0));
        assert(out == rendered(packet, format, pretty, true, highlight, theme, Some(colored->0)));
    }
}

} // verus!
