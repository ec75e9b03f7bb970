use wraithflow::filter::{contains_bytes, PacketFilter};
use wraithflow::packet::{Direction, Packet};
use wraithflow::redact::Redactor;

#[test]
fn min_bytes_filters_small_packets() {
    let filter = PacketFilter { min_bytes: 10, ..Default::default() };
    let small = Packet::new("p", Direction::Outbound, b"hi");
    let big = Packet::new("p", Direction::Outbound, b"hello world!");
    assert!(!filter.matches(&small));
    assert!(filter.matches(&big));
}

#[test]
fn contains_matches_substring() {
    let filter = PacketFilter {
        contains: Some(b"GET /".to_vec()),
        ..Default::default()
    };
    let hit = Packet::new("p", Direction::Outbound, b"GET /index.html HTTP/1.1");
    let miss = Packet::new("p", Direction::Outbound, b"POST /submit HTTP/1.1");
    assert!(filter.matches(&hit));
    assert!(!filter.matches(&miss));
}

#[test]
fn direction_filters() {
    let filter = PacketFilter {
        direction: Some(Direction::Inbound),
        ..Default::default()
    };
    let inb = Packet::new("p", Direction::Inbound, b"x");
    let outb = Packet::new("p", Direction::Outbound, b"x");
    assert!(filter.matches(&inb));
    assert!(!filter.matches(&outb));
}

#[test]
fn the_default_filter_matches_everything() {
    let filter = PacketFilter::default();
    assert!(filter.matches(&Packet::new("p", Direction::Inbound, b"")));
    assert!(filter.matches(&Packet::new("p", Direction::Outbound, b"anything")));
    let empty = PacketFilter { contains: Some(vec![]), ..Default::default() };
    assert!(empty.matches(&Packet::new("p", Direction::Inbound, b"")));
}

#[test]
fn all_conditions_must_hold() {
    let filter = PacketFilter {
        min_bytes: 3,
        direction: Some(Direction::Outbound),
        contains: Some(b"b".to_vec()),
    };
    assert!(filter.matches(&Packet::new("p", Direction::Outbound, b"abc")));
    assert!(!filter.matches(&Packet::new("p", Direction::Inbound, b"abc")));
    assert!(!filter.matches(&Packet::new("p", Direction::Outbound, b"ab")));
    assert!(!filter.matches(&Packet::new("p", Direction::Outbound, b"acc")));
}

#[test]
fn substrings_are_found_wherever_they_stand() {
    assert!(contains_bytes(b"abc", b"abc"));
    assert!(contains_bytes(b"xxabc", b"abc"));
    assert!(contains_bytes(b"aaab", b"aab"));
    assert!(contains_bytes(b"", b""));
    assert!(!contains_bytes(b"", b"a"));
    assert!(!contains_bytes(b"ab", b"abc"));
}

#[test]
fn masks_every_occurrence() {
    let redactor = Redactor::new(&["secret".to_string()]);
    let mut bytes = b"the secret is secret".to_vec();
    redactor.apply(&mut bytes);
    assert_eq!(&bytes, b"the ****** is ******");
}

#[test]
fn preserves_length_and_leaves_other_bytes_alone() {
    let redactor = Redactor::new(&["X".to_string()]);
    let mut bytes = b"aXbXc".to_vec();
    redactor.apply(&mut bytes);
    assert_eq!(&bytes, b"a*b*c");
}

#[test]
fn empty_patterns_is_a_noop() {
    let redactor = Redactor::default();
    assert!(redactor.is_empty());
    let mut bytes = b"unchanged".to_vec();
    redactor.apply(&mut bytes);
    assert_eq!(&bytes, b"unchanged");
}

#[test]
fn empty_strings_are_no_patterns() {
    let redactor = Redactor::new(&["".to_string()]);
    assert!(redactor.is_empty());
    let redactor = Redactor::new(&["".to_string(), "a".to_string()]);
    assert!(!redactor.is_empty());
    let mut bytes = b"banana".to_vec();
    redactor.apply(&mut bytes);
    assert_eq!(&bytes, b"b*n*n*");
}

#[test]
fn matches_are_taken_from_left_to_right_without_overlap() {
    let redactor = Redactor::new(&["aa".to_string()]);
    let mut bytes = b"aaa".to_vec();
    redactor.apply(&mut bytes);
    assert_eq!(&bytes, b"**a");
}

#[test]
fn patterns_are_applied_in_order() {
    let redactor = Redactor::new(&["ab".to_string(), "bc".to_string()]);
    let mut bytes = b"abc bc".to_vec();
    redactor.apply(&mut bytes);
    assert_eq!(&bytes, b"**c **");
    let redactor = Redactor::new(&["b".to_string(), "a*".to_string()]);
    let mut bytes = b"ab".to_vec();
    redactor.apply(&mut bytes);
    assert_eq!(&bytes, b"**");
}

#[test]
fn a_pattern_longer_than_the_payload_masks_nothing() {
    let redactor = Redactor::new(&["longer".to_string()]);
    let mut bytes = b"long".to_vec();
    redactor.apply(&mut bytes);
    assert_eq!(&bytes, b"long");
}

#[test]
fn redacting_twice_is_redacting_once() {
    let redactor = Redactor::new(&["ab".to_string(), "c".to_string()]);
    let mut bytes = b"xabcab".to_vec();
    redactor.apply(&mut bytes);
    assert_eq!(&bytes, b"x*****");
    redactor.apply(&mut bytes);
    assert_eq!(&bytes, b"x*****");
}
