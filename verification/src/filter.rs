//! Which packets are worth rendering.

use vstd::prelude::*;

use crate::packet::{Direction, Packet};

verus! {

/// `needle` stands in `haystack` at offset `at`.
pub open spec fn occurs_at(haystack: Seq<u8>, needle: Seq<u8>, at: int) -> bool {
    0 <= at && at + needle.len() <= haystack.len() && haystack.subrange(at, at + needle.len())
        == needle
}

/// `needle` stands somewhere in `haystack`.
pub open spec fn occurs(haystack: Seq<u8>, needle: Seq<u8>) -> bool {
    exists|at: int| occurs_at(haystack, needle, at)
}

/// Whether `needle` stands in `haystack` at offset `at`.
pub fn matches_at(haystack: &[u8], needle: &[u8], at: usize) -> (hit: bool)
    requires
        at <= haystack@.len(),
    ensures
        hit == occurs_at(haystack@, needle@, at as int),
{
    if needle.len() > haystack.len() - at {
        return false;
    }
    let mut k: usize = 0;
    while k < needle.len()
        invariant
            at + needle@.len() <= haystack.len(),
            k <= needle@.len(),
            forall|j: int| 0 <= j < k ==> haystack@[at + j] == needle@[j],
        decreases needle.len() - k,
    {
        if haystack[at + k] != needle[k] {
            assert(haystack@.subrange(at as int, at + needle@.len())[k as int] != needle@[k as int]);
            return false;
        }
        k += 1;
    }
    assert(haystack@.subrange(at as int, at + needle@.len()) =~= needle@);
    true
}

/// Whether `needle` stands somewhere in `haystack`; an empty needle always does.
pub fn contains_bytes(haystack: &[u8], needle: &[u8]) -> (found: bool)
    ensures
        found == occurs(haystack@, needle@),
        needle@.len() == 0 ==> found,
{
    if needle.len() == 0 {
        assert(haystack@.subrange(0, 0) =~= needle@);
        assert(occurs_at(haystack@, needle@, 0));
        return true;
    }
    let mut i: usize = 0;
    while i < haystack.len()
        invariant
            needle@.len() > 0,
            i <= haystack@.len(),
            forall|at: int| 0 <= at < i ==> !occurs_at(haystack@, needle@, at),
        decreases haystack.len() - i,
    {
        if matches_at(haystack, needle, i) {
            return true;
        }
        i += 1;
    }
    false
}

/// Decides whether a captured packet is worth rendering at all. All conditions
/// must hold; the default filter matches everything.
#[derive(Debug, Clone)]
pub struct PacketFilter {
    /// Drop anything smaller than this many bytes.
    pub min_bytes: usize,
    /// Only match one direction. `None` is both.
    pub direction: Option<Direction>,
    /// Only match packets whose raw bytes contain this substring.
    pub contains: Option<Vec<u8>>,
}

impl PacketFilter {
    /// What the filter lets through.
    pub open spec fn accepts(&self, direction: Direction, bytes: Seq<u8>) -> bool {
        &&& bytes.len() >= self.min_bytes
        &&& self.direction matches Some(wanted) ==> direction == wanted
        &&& self.contains matches Some(needle) ==> occurs(bytes, needle@)
    }

    /// Whether the packet passes every condition.
    pub fn matches(&self, packet: &Packet) -> (pass: bool)
        ensures
            pass == self.accepts(packet.direction, packet.bytes@),
    {
        if packet.len() < self.min_bytes {
            return false;
        }
        if let Some(wanted) = self.direction {
            if packet.direction != wanted {
                return false;
            }
        }
        if let Some(needle) = &self.contains {
            if !contains_bytes(packet.bytes.as_slice(), needle.as_slice()) {
                return false;
            }
        }
        true
    }
}

impl Default for PacketFilter {
    /// The filter without conditions.
    fn default() -> (filter: Self)
        ensures
            filter.min_bytes == 0,
            filter.direction is None,
            filter.contains is None,
    {
        PacketFilter { min_bytes: 0, direction: None, contains: None }
    }
}

/// A filter without conditions matches everything.
pub proof fn empty_filter_accepts_everything(
    filter: PacketFilter,
    direction: Direction,
    bytes: Seq<u8>,
)
    requires
        filter.min_bytes == 0,
        filter.direction is None,
        filter.contains matches Some(needle) ==> needle@.len() == 0,
    ensures
        filter.accepts(direction, bytes),
{
    if let Some(needle) = filter.contains {
        assert(bytes.subrange(0, 0) =~= needle@);
        assert(occurs_at(bytes, needle@, 0));
    }
}

/// To stand at an offset is to have the same bytes there, one by one.
pub proof fn an_occurrence_has_the_same_bytes(haystack: Seq<u8>, needle: Seq<u8>, at: int)
    ensures
        occurs_at(haystack, needle, at) <==> 0 <= at && at + needle.len() <= haystack.len() && (
        forall|k: int| 0 <= k < needle.len() ==> haystack[at + k] == #[trigger] needle[k]),
{
    if 0 <= at && at + needle.len() <= haystack.len() {
        let part = haystack.subrange(at, at + needle.len());
        if part == needle {
            assert forall|k: int| 0 <= k < needle.len() implies haystack[at + k]
                == #[trigger] needle[k] by {
                assert(part[k] == haystack[at + k]);
            }
        }
        if forall|k: int| 0 <= k < needle.len() ==> haystack[at + k] == #[trigger] needle[k] {
            assert(part =~= needle);
        }
    }
}

/// A needle stands somewhere in a haystack exactly where the haystack is something,
/// then the needle, then something.
pub proof fn an_occurrence_splits_the_haystack(haystack: Seq<u8>, needle: Seq<u8>)
    ensures
        occurs(haystack, needle) <==> exists|front: Seq<u8>, back: Seq<u8>|
            haystack == #[trigger] (front + needle + back),
{
    if occurs(haystack, needle) {
        let at = choose|at: int| occurs_at(haystack, needle, at);
        let front = haystack.take(at);
        let back = haystack.skip(at + needle.len());
        assert(haystack =~= front + needle + back);
    }
    if exists|front: Seq<u8>, back: Seq<u8>| haystack == #[trigger] (front + needle + back) {
        let (front, back) = choose|front: Seq<u8>, back: Seq<u8>|
            haystack == #[trigger] (front + needle + back);
        let at = front.len() as int;
        assert(haystack.subrange(at, at + needle.len()) =~= needle);
        assert(occurs_at(haystack, needle, at));
    }
}

/// A filter lets a packet through exactly when it is long enough, goes the wanted
/// way where one is wanted, and holds the wanted bytes where some are wanted.
pub proof fn a_filter_checks_every_condition(
    filter: PacketFilter,
    direction: Direction,
    bytes: Seq<u8>,
)
    ensures
        bytes.len() < filter.min_bytes ==> !filter.accepts(direction, bytes),
        filter.direction is Some && filter.direction != Some(direction) ==> !filter.accepts(
            direction,
            bytes,
        ),
        filter.contains matches Some(needle) ==> !occurs(bytes, needle@) ==> !filter.accepts(
            direction,
            bytes,
        ),
        ({
            &&& bytes.len() >= filter.min_bytes
            &&& filter.direction is None || filter.direction == Some(direction)
            &&& filter.contains is None || occurs(bytes, filter.contains->0@)
        }) ==> filter.accepts(direction, bytes),
{
}

} // verus!
