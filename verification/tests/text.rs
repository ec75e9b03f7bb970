use wraithflow::names::NameTable;
use wraithflow::text::{
    bytes_eq, chars_of, hex_string, is_control, is_white_space, push_decimal, str_before, str_eq,
    string_of, to_ascii_lowercase, trim,
};

#[test]
fn character_classes_are_those_of_unicode() {
    for c in (0..=0x10ffffu32).filter_map(char::from_u32) {
        assert_eq!(is_white_space(c), c.is_whitespace());
        assert_eq!(is_control(c), c.is_control());
    }
}

#[test]
fn strings_behave_as_the_standard_ones() {
    let samples = ["", "a", "A b", "  x ", "\u{e9}Z", "Z\u{e9}", "zz", "\u{1f47b}", "\t\n", "aB\u{3000}"];
    for a in samples {
        assert_eq!(to_ascii_lowercase(a), a.to_ascii_lowercase());
        assert_eq!(trim(a), a.trim());
        assert_eq!(string_of(&chars_of(a)), a);
        for b in samples {
            assert_eq!(str_eq(a, b), a == b);
            assert_eq!(str_before(a, b), a < b);
            assert_eq!(bytes_eq(a.as_bytes(), b.as_bytes()), a == b);
        }
    }
}

#[test]
fn numbers_are_written_in_base_ten_and_sixteen() {
    for n in [0u64, 9, 10, 99, 100, 4096, u64::MAX] {
        let mut out = "n=".to_string();
        push_decimal(&mut out, n);
        assert_eq!(out, format!("n={n}"));
    }
    assert_eq!(hex_string(&[0x00, 0x9a, 0xff], false), "009aff");
    assert_eq!(hex_string(&[0x00, 0x9a, 0xff], true), "009AFF");
}

#[test]
fn a_table_has_one_value_for_a_name() {
    let mut table: NameTable<u32> = NameTable::new();
    *table.get_or_insert("a", 1) += 10;
    *table.get_or_insert("b", 2) += 20;
    *table.get_or_insert("a", 3) += 100;
    assert_eq!(table.len(), 2);
    assert_eq!(table.get("a"), Some(&111));
    assert_eq!(table.get("b"), Some(&22));
    assert_eq!(table.get("c"), None);
    assert_eq!(table.at(1), (&"b".to_string(), &22));
}
