//! Masking of substrings.

use vstd::prelude::*;
use vstd::utf8::encode_utf8;

use crate::filter::{matches_at, occurs, occurs_at};
use crate::text::lemma_utf8_injective;

verus! {

/// The byte `*`.
pub const MASK: u8 = 42;

/// `n` mask bytes.
pub open spec fn mask_run(n: nat) -> Seq<u8> {
    Seq::new(n, |i: int| MASK)
}

/// The bytes with every match of `pattern` masked: matches are taken from left
/// to right and do not overlap.
pub open spec fn masked(bytes: Seq<u8>, pattern: Seq<u8>) -> Seq<u8>
    decreases bytes.len(),
{
    if pattern.len() == 0 || bytes.len() < pattern.len() {
        bytes
    } else if occurs_at(bytes, pattern, 0) {
        mask_run(pattern.len()) + masked(bytes.skip(pattern.len() as int), pattern)
    } else {
        seq![bytes[0]] + masked(bytes.skip(1), pattern)
    }
}

/// The bytes with the matches of every pattern masked, one pattern after the
/// other.
pub open spec fn redacted(bytes: Seq<u8>, patterns: Seq<Vec<u8>>) -> Seq<u8>
    decreases patterns.len(),
{
    if patterns.len() == 0 {
        bytes
    } else {
        masked(redacted(bytes, patterns.drop_last()), patterns.last()@)
    }
}

proof fn lemma_masked_len(bytes: Seq<u8>, pattern: Seq<u8>)
    ensures
        masked(bytes, pattern).len() == bytes.len(),
    decreases bytes.len(),
{
    if pattern.len() == 0 || bytes.len() < pattern.len() {
    } else if occurs_at(bytes, pattern, 0) {
        lemma_masked_len(bytes.skip(pattern.len() as int), pattern);
    } else {
        lemma_masked_len(bytes.skip(1), pattern);
    }
}

/// Masks every match of `pattern` in place.
fn mask_pattern(bytes: &mut [u8], pattern: &[u8])
    ensures
        final(bytes)@ == masked(old(bytes)@, pattern@),
{
    let plen = pattern.len();
    if plen == 0 || plen > bytes.len() {
        return;
    }
    let ghost whole = bytes@;
    let mut i: usize = 0;
    assert(bytes@.take(0) =~= Seq::<u8>::empty());
    assert(whole.skip(0) =~= whole);
    while plen <= bytes.len() - i
        invariant
            plen == pattern@.len(),
            plen > 0,
            bytes@.len() == whole.len(),
            i <= bytes@.len(),
            bytes@.skip(i as int) == whole.skip(i as int),
            masked(whole, pattern@) == bytes@.take(i as int) + masked(
                whole.skip(i as int),
                pattern@,
            ),
        decreases bytes.len() - i,
    {
        let ghost rest = whole.skip(i as int);
        let hit = matches_at(bytes, pattern, i);
        proof {
            assert(bytes@.subrange(i as int, i + plen) =~= bytes@.skip(i as int).subrange(
                0,
                plen as int,
            ));
            assert(hit == occurs_at(rest, pattern@, 0));
        }
        if hit {
            let ghost before = bytes@;
            let mut k: usize = 0;
            while k < plen
                invariant
                    plen > 0,
                    before.len() == whole.len(),
                    bytes@.len() == before.len(),
                    i + plen <= bytes.len(),
                    k <= plen,
                    forall|j: int| 0 <= j < before.len() && !(i <= j < i + k) ==> bytes@[j]
                        == before[j],
                    forall|j: int| i <= j < i + k ==> bytes@[j] == MASK,
                decreases plen - k,
            {
                bytes[i + k] = MASK;
                k += 1;
            }
            proof {
                assert(bytes@.take(i + plen) =~= before.take(i as int) + mask_run(plen as nat));
                assert(rest.skip(plen as int) =~= whole.skip(i + plen));
                assert(bytes@.skip(i + plen) =~= before.skip(i as int).skip(plen as int));
            }
            i += plen;
        } else {
            proof {
                assert(rest.skip(1) =~= whole.skip(i + 1));
                assert(bytes@.take(i + 1) =~= bytes@.take(i as int) + seq![rest[0]]);
                assert(bytes@.skip(i + 1) =~= bytes@.skip(i as int).skip(1));
            }
            i += 1;
        }
    }
    assert(masked(whole.skip(i as int), pattern@) == whole.skip(i as int));
    assert(bytes@ =~= bytes@.take(i as int) + bytes@.skip(i as int));
}

/// Masks matched substrings in a packet's bytes with `*`, in place and with the
/// length preserved, so that every format still renders a correctly sized
/// structure around the masked region.
///
/// It runs after the packet filter, which still sees the real bytes.
#[derive(Debug, Clone)]
pub struct Redactor {
    patterns: Vec<Vec<u8>>,
}

/// The patterns made of configured strings: their UTF-8 bytes, without the
/// empty ones.
pub open spec fn pattern_bytes(strings: Seq<String>) -> Seq<Seq<u8>>
    decreases strings.len(),
{
    if strings.len() == 0 {
        seq![]
    } else if strings.last()@.len() == 0 {
        pattern_bytes(strings.drop_last())
    } else {
        pattern_bytes(strings.drop_last()).push(encode_utf8(strings.last()@))
    }
}

/// The byte strings of a list of vectors.
pub open spec fn contents(patterns: Seq<Vec<u8>>) -> Seq<Seq<u8>> {
    patterns.map_values(|p: Vec<u8>| p@)
}

/// The patterns made of configured strings: their UTF-8 bytes, without the
/// empty ones.
pub fn patterns_of(strings: &[String]) -> (patterns: Vec<Vec<u8>>)
    ensures
        contents(patterns@) == pattern_bytes(strings@),
{
    let mut patterns: Vec<Vec<u8>> = Vec::new();
    let mut i: usize = 0;
    assert(contents(patterns@) =~= seq![]);
    while i < strings.len()
        invariant
            i <= strings@.len(),
            contents(patterns@) == pattern_bytes(strings@.take(i as int)),
        decreases strings.len() - i,
    {
        let ghost before = patterns@;
        let s = strings[i].as_str();
        proof {
            assert(strings@.take(i + 1).drop_last() =~= strings@.take(i as int));
        }
        if !s.is_empty() {
            let p = vstd::slice::slice_to_vec(s.as_bytes());
            patterns.push(p);
            assert(contents(patterns@) =~= contents(before).push(p@));
        }
        i += 1;
    }
    assert(strings@.take(strings@.len() as int) =~= strings@);
    patterns
}

impl Redactor {
    /// The patterns, in the order in which they are applied.
    pub closed spec fn patterns(&self) -> Seq<Vec<u8>> {
        self.patterns@
    }

    /// A redactor of the given strings; empty ones are ignored.
    pub fn new(patterns: &[String]) -> (redactor: Self)
        ensures
            contents(redactor.patterns()) == pattern_bytes(patterns@),
    {
        Redactor { patterns: patterns_of(patterns) }
    }

    /// Whether there is nothing to mask.
    pub fn is_empty(&self) -> (b: bool)
        ensures
            b == (self.patterns().len() == 0),
    {
        self.patterns.len() == 0
    }

    /// Overwrite every match of every pattern with `*` bytes. Patterns are
    /// applied in order; a byte already masked by an earlier pattern can still be
    /// scanned, and masked again, by a later one.
    pub fn apply(&self, bytes: &mut [u8])
        ensures
            final(bytes)@ == redacted(old(bytes)@, self.patterns()),
    {
        let ghost whole = bytes@;
        let mut i: usize = 0;
        while i < self.patterns.len()
            invariant
                i <= self.patterns@.len(),
                bytes@ == redacted(whole, self.patterns@.take(i as int)),
            decreases self.patterns.len() - i,
        {
            assert(self.patterns@.take(i + 1).drop_last() =~= self.patterns@.take(i as int));
            mask_pattern(bytes, self.patterns[i].as_slice());
            i += 1;
        }
        assert(self.patterns@.take(self.patterns@.len() as int) =~= self.patterns@);
    }
}

impl Default for Redactor {
    /// The redactor without patterns.
    fn default() -> (redactor: Self)
        ensures
            redactor.patterns() == Seq::<Vec<u8>>::empty(),
    {
        Redactor { patterns: Vec::new() }
    }
}

// ---------------------------------------------------------------------------
// Laws
// ---------------------------------------------------------------------------

/// Every byte of the masked text is the byte that stood there or a mask byte.
proof fn lemma_masked_bytes(bytes: Seq<u8>, pattern: Seq<u8>)
    ensures
        masked(bytes, pattern).len() == bytes.len(),
        forall|i: int|
            0 <= i < bytes.len() ==> (#[trigger] masked(bytes, pattern)[i] == bytes[i] || masked(
                bytes,
                pattern,
            )[i] == MASK),
    decreases bytes.len(),
{
    lemma_masked_len(bytes, pattern);
    if pattern.len() == 0 || bytes.len() < pattern.len() {
    } else {
        let n: int = if occurs_at(bytes, pattern, 0) {
            pattern.len() as int
        } else {
            1
        };
        lemma_masked_bytes(bytes.skip(n), pattern);
        assert forall|i: int| 0 <= i < bytes.len() implies (#[trigger] masked(bytes, pattern)[i]
            == bytes[i] || masked(bytes, pattern)[i] == MASK) by {
            if i >= n {
                assert(masked(bytes, pattern)[i] == masked(bytes.skip(n), pattern)[i - n]);
                assert(bytes.skip(n)[i - n] == bytes[i]);
            }
        }
    }
}

/// Redaction preserves the length, and every byte either stays or becomes `*`.
pub proof fn redaction_only_masks(bytes: Seq<u8>, patterns: Seq<Vec<u8>>)
    ensures
        redacted(bytes, patterns).len() == bytes.len(),
        forall|i: int|
            0 <= i < bytes.len() ==> (#[trigger] redacted(bytes, patterns)[i] == bytes[i]
                || redacted(bytes, patterns)[i] == MASK),
    decreases patterns.len(),
{
    if patterns.len() > 0 {
        redaction_only_masks(bytes, patterns.drop_last());
        lemma_masked_bytes(redacted(bytes, patterns.drop_last()), patterns.last()@);
    }
}

/// A pattern without `*` cannot occur across masked bytes, so once masked it
/// occurs nowhere.
proof fn lemma_masked_away(bytes: Seq<u8>, pattern: Seq<u8>, at: int)
    requires
        pattern.len() > 0,
        !pattern.contains(MASK),
    ensures
        !occurs_at(masked(bytes, pattern), pattern, at),
    decreases bytes.len(),
{
    let out = masked(bytes, pattern);
    lemma_masked_bytes(bytes, pattern);
    if occurs_at(out, pattern, at) {
        let n: int = if occurs_at(bytes, pattern, 0) {
            pattern.len() as int
        } else {
            1
        };
        assert(out.subrange(at, at + pattern.len())[0] == out[at]);
        if at >= n {
            let rest = masked(bytes.skip(n), pattern);
            lemma_masked_away(bytes.skip(n), pattern, at - n);
            assert(out =~= out.take(n) + rest);
            assert(rest.subrange(at - n, at - n + pattern.len()) =~= out.subrange(
                at,
                at + pattern.len(),
            ));
            assert(occurs_at(rest, pattern, at - n));
        } else if occurs_at(bytes, pattern, 0) {
            assert(out[at] == MASK);
            assert(pattern[0] == MASK);
        } else {
            // The pattern stands at the very start of the output and none of
            // its bytes is a mask byte, so the input had the same bytes there.
            assert(at == 0);
            assert forall|k: int| 0 <= k < pattern.len() implies bytes[k] == pattern[k] by {
                assert(out.subrange(0, pattern.len() as int)[k] == out[k]);
                assert(out[k] == pattern[k]);
                assert(pattern.contains(pattern[k]));
            }
            assert(bytes.subrange(0, pattern.len() as int) =~= pattern);
        }
    }
}

/// Masking more bytes creates no occurrence of a pattern without `*`.
proof fn lemma_masking_creates_nothing(bytes: Seq<u8>, other: Seq<u8>, pattern: Seq<u8>, at: int)
    requires
        !pattern.contains(MASK),
        occurs_at(masked(bytes, other), pattern, at),
    ensures
        occurs_at(bytes, pattern, at),
{
    let out = masked(bytes, other);
    lemma_masked_bytes(bytes, other);
    assert forall|k: int| 0 <= k < pattern.len() implies bytes[at + k] == pattern[k] by {
        assert(out.subrange(at, at + pattern.len())[k] == out[at + k]);
        assert(pattern.contains(pattern[k]));
    }
    assert(bytes.subrange(at, at + pattern.len()) =~= pattern);
}

/// What is redacted never reaches the log: a pattern that is not empty and holds
/// no `*` of its own occurs nowhere in the redacted bytes, whatever the other
/// patterns are.
pub proof fn redacted_patterns_never_occur(bytes: Seq<u8>, patterns: Seq<Vec<u8>>, k: int)
    requires
        0 <= k < patterns.len(),
        patterns[k]@.len() > 0,
        !patterns[k]@.contains(MASK),
    ensures
        !occurs(redacted(bytes, patterns), patterns[k]@),
    decreases patterns.len(),
{
    let before = redacted(bytes, patterns.drop_last());
    let out = redacted(bytes, patterns);
    let pattern = patterns[k]@;
    assert forall|at: int| !occurs_at(out, pattern, at) by {
        if k == patterns.len() - 1 {
            lemma_masked_away(before, pattern, at);
        } else {
            redacted_patterns_never_occur(bytes, patterns.drop_last(), k);
            if occurs_at(out, pattern, at) {
                lemma_masking_creates_nothing(before, patterns.last()@, pattern, at);
            }
        }
    }
}

/// Bytes in which no pattern occurs are left alone.
pub proof fn redaction_leaves_clean_bytes(bytes: Seq<u8>, patterns: Seq<Vec<u8>>)
    requires
        forall|k: int|
            0 <= k < patterns.len() && (#[trigger] patterns[k])@.len() > 0 ==> !occurs(
                bytes,
                patterns[k]@,
            ),
    ensures
        redacted(bytes, patterns) == bytes,
    decreases patterns.len(),
{
    if patterns.len() > 0 {
        let rest = patterns.drop_last();
        assert forall|k: int|
            0 <= k < rest.len() && (#[trigger] rest[k])@.len() > 0 implies !occurs(
            bytes,
            rest[k]@,
        ) by {
            assert(rest[k] == patterns[k]);
        }
        redaction_leaves_clean_bytes(bytes, rest);
        assert(patterns.last() == patterns[patterns.len() - 1]);
        lemma_masked_clean(bytes, patterns.last()@);
    }
}

/// Redacting twice is redacting once, where no pattern holds a `*` of its own.
pub proof fn redaction_is_idempotent(bytes: Seq<u8>, patterns: Seq<Vec<u8>>)
    requires
        forall|k: int| 0 <= k < patterns.len() ==> !(#[trigger] patterns[k])@.contains(MASK),
    ensures
        redacted(redacted(bytes, patterns), patterns) == redacted(bytes, patterns),
{
    let once = redacted(bytes, patterns);
    assert forall|k: int|
        0 <= k < patterns.len() && (#[trigger] patterns[k])@.len() > 0 implies !occurs(
        once,
        patterns[k]@,
    ) by {
        redacted_patterns_never_occur(bytes, patterns, k);
    }
    redaction_leaves_clean_bytes(once, patterns);
}

proof fn lemma_masked_clean(bytes: Seq<u8>, pattern: Seq<u8>)
    requires
        pattern.len() > 0 ==> !occurs(bytes, pattern),
    ensures
        masked(bytes, pattern) == bytes,
    decreases bytes.len(),
{
    if pattern.len() == 0 || bytes.len() < pattern.len() {
    } else {
        assert(!occurs_at(bytes, pattern, 0));
        let rest = bytes.skip(1);
        assert forall|at: int| !occurs_at(rest, pattern, at) by {
            if occurs_at(rest, pattern, at) {
                assert(rest.subrange(at, at + pattern.len()) =~= bytes.subrange(
                    at + 1,
                    at + 1 + pattern.len(),
                ));
                assert(occurs_at(bytes, pattern, at + 1));
            }
        }
        lemma_masked_clean(rest, pattern);
        assert(seq![bytes[0]] + rest =~= bytes);
    }
}

/// Masking changes a byte only inside an occurrence of the pattern.
proof fn lemma_masked_inside(bytes: Seq<u8>, pattern: Seq<u8>, i: int)
    requires
        0 <= i < bytes.len(),
        masked(bytes, pattern)[i] != bytes[i],
    ensures
        exists|at: int| #[trigger] occurs_at(bytes, pattern, at) && at <= i < at + pattern.len(),
    decreases bytes.len(),
{
    lemma_masked_len(bytes, pattern);
    if pattern.len() == 0 || bytes.len() < pattern.len() {
    } else {
        let n: int = if occurs_at(bytes, pattern, 0) {
            pattern.len() as int
        } else {
            1
        };
        if i < n {
            assert(occurs_at(bytes, pattern, 0));
        } else {
            let rest = bytes.skip(n);
            assert(masked(bytes, pattern)[i] == masked(rest, pattern)[i - n]);
            lemma_masked_inside(rest, pattern, i - n);
            let at = choose|at: int| #[trigger]
                occurs_at(rest, pattern, at) && at <= i - n < at + pattern.len();
            assert(bytes.subrange(at + n, at + n + pattern.len()) =~= rest.subrange(
                at,
                at + pattern.len(),
            ));
            assert(occurs_at(bytes, pattern, at + n));
        }
    }
}

/// A byte is masked only inside a match: where a byte changes, one of the patterns
/// stands around it, in the bytes as the patterns in front of it left them.
pub proof fn only_matches_are_masked(bytes: Seq<u8>, patterns: Seq<Vec<u8>>, i: int)
    requires
        0 <= i < bytes.len(),
        redacted(bytes, patterns)[i] != bytes[i],
    ensures
        exists|k: int, at: int|
            0 <= k < patterns.len() && at <= i < at + patterns[k]@.len() && #[trigger] occurs_at(
                redacted(bytes, patterns.take(k)),
                patterns[k]@,
                at,
            ),
    decreases patterns.len(),
{
    if patterns.len() > 0 {
        let rest = patterns.drop_last();
        let last = patterns.len() - 1;
        let before = redacted(bytes, rest);
        redaction_only_masks(bytes, rest);
        assert(patterns.take(last) =~= rest);
        if before[i] != bytes[i] {
            only_matches_are_masked(bytes, rest, i);
            let (k, at) = choose|k: int, at: int|
                0 <= k < rest.len() && at <= i < at + rest[k]@.len() && #[trigger] occurs_at(
                    redacted(bytes, rest.take(k)),
                    rest[k]@,
                    at,
                );
            assert(rest.take(k) =~= patterns.take(k));
            assert(occurs_at(redacted(bytes, patterns.take(k)), patterns[k]@, at));
        } else {
            lemma_masked_inside(before, patterns[last]@, i);
            let at = choose|at: int| #[trigger]
                occurs_at(before, patterns[last]@, at) && at <= i < at + patterns[last]@.len();
            assert(occurs_at(redacted(bytes, patterns.take(last)), patterns[last]@, at));
        }
    }
}

/// Every byte that stands in no occurrence of any pattern comes out as it went in,
/// whatever is masked elsewhere, where no pattern holds a `*` of its own.
pub proof fn bytes_outside_of_matches_stay(bytes: Seq<u8>, patterns: Seq<Vec<u8>>, i: int)
    requires
        0 <= i < bytes.len(),
        forall|k: int| 0 <= k < patterns.len() ==> !(#[trigger] patterns[k])@.contains(MASK),
        forall|k: int, at: int|
            0 <= k < patterns.len() && at <= i < at + patterns[k]@.len() ==> !#[trigger] occurs_at(
                bytes,
                patterns[k]@,
                at,
            ),
    ensures
        redacted(bytes, patterns)[i] == bytes[i],
{
    if redacted(bytes, patterns)[i] != bytes[i] {
        only_matches_are_masked(bytes, patterns, i);
        let (k, at) = choose|k: int, at: int|
            0 <= k < patterns.len() && at <= i < at + patterns[k]@.len() && #[trigger] occurs_at(
                redacted(bytes, patterns.take(k)),
                patterns[k]@,
                at,
            );
        lemma_redacting_creates_nothing(bytes, patterns.take(k), patterns[k]@, at);
        assert(!occurs_at(bytes, patterns[k]@, at));
    }
}

proof fn lemma_redacting_creates_nothing(
    bytes: Seq<u8>,
    patterns: Seq<Vec<u8>>,
    pattern: Seq<u8>,
    at: int,
)
    requires
        !pattern.contains(MASK),
        occurs_at(redacted(bytes, patterns), pattern, at),
    ensures
        occurs_at(bytes, pattern, at),
    decreases patterns.len(),
{
    if patterns.len() > 0 {
        let before = redacted(bytes, patterns.drop_last());
        lemma_masking_creates_nothing(before, patterns.last()@, pattern, at);
        lemma_redacting_creates_nothing(bytes, patterns.drop_last(), pattern, at);
    }
}

/// The first match of a pattern is masked byte for byte, what stands in front of it
/// stays, and what stands behind it is redacted in its turn.
pub proof fn the_first_match_is_masked(bytes: Seq<u8>, pattern: Vec<u8>, at: int)
    requires
        pattern@.len() > 0,
        occurs_at(bytes, pattern@, at),
        forall|j: int| 0 <= j < at ==> !#[trigger] occurs_at(bytes, pattern@, j),
    ensures
        redacted(bytes, seq![pattern]) == bytes.take(at) + Seq::new(
            pattern@.len(),
            |k: int| 42u8,
        ) + redacted(bytes.skip(at + pattern@.len()), seq![pattern]),
{
    let rest = bytes.skip(at + pattern@.len());
    lemma_redacted_one(bytes, pattern);
    lemma_redacted_one(rest, pattern);
    lemma_first_masked(bytes, pattern@, at);
    assert(mask_run(pattern@.len()) =~= Seq::new(pattern@.len(), |k: int| 42u8));
}

proof fn lemma_redacted_one(bytes: Seq<u8>, pattern: Vec<u8>)
    ensures
        redacted(bytes, seq![pattern]) == masked(bytes, pattern@),
{
    let one = seq![pattern];
    assert(one.drop_last() =~= seq![]);
    assert(redacted(bytes, one.drop_last()) == bytes);
}

proof fn lemma_first_masked(bytes: Seq<u8>, pattern: Seq<u8>, at: int)
    requires
        pattern.len() > 0,
        occurs_at(bytes, pattern, at),
        forall|j: int| 0 <= j < at ==> !#[trigger] occurs_at(bytes, pattern, j),
    ensures
        masked(bytes, pattern) == bytes.take(at) + mask_run(pattern.len()) + masked(
            bytes.skip(at + pattern.len()),
            pattern,
        ),
    decreases at,
{
    if at == 0 {
        assert(bytes.take(0) + mask_run(pattern.len()) =~= mask_run(pattern.len()));
    } else {
        let rest = bytes.skip(1);
        assert(!occurs_at(bytes, pattern, 0));
        assert forall|j: int| 0 <= j < at - 1 implies !#[trigger] occurs_at(rest, pattern, j) by {
            if occurs_at(rest, pattern, j) {
                assert(bytes.subrange(j + 1, j + 1 + pattern.len()) =~= rest.subrange(
                    j,
                    j + pattern.len(),
                ));
                assert(occurs_at(bytes, pattern, j + 1));
            }
        }
        assert(rest.subrange(at - 1, at - 1 + pattern.len()) =~= bytes.subrange(
            at,
            at + pattern.len(),
        ));
        lemma_first_masked(rest, pattern, at - 1);
        let tail = bytes.skip(at + pattern.len());
        assert(rest.skip(at - 1 + pattern.len()) =~= tail);
        assert(seq![bytes[0]] + (rest.take(at - 1) + mask_run(pattern.len()) + masked(
            tail,
            pattern,
        )) =~= bytes.take(at) + mask_run(pattern.len()) + masked(tail, pattern));
    }
}

/// Patterns are applied in order: redacting with two lists one after the other is
/// redacting with both in one, and redacting with none changes nothing.
pub proof fn patterns_are_applied_in_order(bytes: Seq<u8>, a: Seq<Vec<u8>>, b: Seq<Vec<u8>>)
    ensures
        redacted(bytes, seq![]) == bytes,
        redacted(bytes, a + b) == redacted(redacted(bytes, a), b),
    decreases b.len(),
{
    if b.len() == 0 {
        assert(a + b =~= a);
    } else {
        patterns_are_applied_in_order(bytes, a, b.drop_last());
        assert((a + b).drop_last() =~= a + b.drop_last());
    }
}

/// Every configured string that is not empty is a pattern, by all of its bytes and in
/// its place in the list; nothing else is.
pub proof fn configured_strings_are_the_patterns(a: Seq<String>, s: String, b: Seq<String>)
    ensures
        pattern_bytes(seq![]) == Seq::<Seq<u8>>::empty(),
        pattern_bytes(a + seq![s] + b) == pattern_bytes(a) + (if s@.len() == 0 {
            seq![]
        } else {
            seq![encode_utf8(s@)]
        }) + pattern_bytes(b),
    decreases b.len(),
{
    let one: Seq<Seq<u8>> = if s@.len() == 0 {
        seq![]
    } else {
        seq![encode_utf8(s@)]
    };
    let all = a + seq![s] + b;
    if b.len() == 0 {
        assert(all.drop_last() =~= a);
        assert(pattern_bytes(b) =~= seq![]);
        assert(pattern_bytes(all) =~= pattern_bytes(a) + one + pattern_bytes(b));
    } else {
        configured_strings_are_the_patterns(a, s, b.drop_last());
        assert(all.drop_last() =~= a + seq![s] + b.drop_last());
        assert(all.last() == b.last());
        assert(pattern_bytes(all) =~= pattern_bytes(a) + one + pattern_bytes(b));
    }
}

/// The contents of a list of vectors are their bytes, each in its place.
pub proof fn contents_are_the_bytes(patterns: Seq<Vec<u8>>, i: int)
    requires
        0 <= i < patterns.len(),
    ensures
        contents(patterns).len() == patterns.len(),
        contents(patterns)[i] == patterns[i]@,
{
}

/// Where a configured string stands among the patterns.
proof fn lemma_pattern_of_string(strings: Seq<String>, k: int) -> (j: int)
    requires
        0 <= k < strings.len(),
        strings[k]@.len() > 0,
    ensures
        0 <= j < pattern_bytes(strings).len(),
        pattern_bytes(strings)[j] == encode_utf8(strings[k]@),
    decreases strings.len(),
{
    if k == strings.len() - 1 {
        pattern_bytes(strings.drop_last()).len() as int
    } else {
        let rest = strings.drop_last();
        assert(rest[k] == strings[k]);
        lemma_pattern_of_string(rest, k)
    }
}

/// A configured string is masked wherever it stands: with the patterns of a list of
/// strings, none of them that is not empty and holds no `*` is left in the bytes.
pub proof fn configured_strings_never_occur(
    bytes: Seq<u8>,
    patterns: Seq<Vec<u8>>,
    strings: Seq<String>,
    k: int,
)
    requires
        contents(patterns) == pattern_bytes(strings),
        0 <= k < strings.len(),
        strings[k]@.len() > 0,
        !encode_utf8(strings[k]@).contains(MASK),
    ensures
        !occurs(redacted(bytes, patterns), encode_utf8(strings[k]@)),
{
    let j = lemma_pattern_of_string(strings, k);
    assert(contents(patterns).len() == patterns.len());
    assert(contents(patterns)[j] == patterns[j]@);
    if encode_utf8(strings[k]@).len() == 0 {
        let none = Seq::<char>::empty();
        assert(encode_utf8(none) =~= encode_utf8(strings[k]@));
        lemma_utf8_injective(none, strings[k]@);
    }
    redacted_patterns_never_occur(bytes, patterns, j);
}

} // verus!
