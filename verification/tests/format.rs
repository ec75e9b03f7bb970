use wraithflow::format::{
    apply_highlight, record_line, render, render_with, OutputFormat,
};
use wraithflow::packet::{Direction, Packet, Timestamp};
use wraithflow::palette::Theme;
use wraithflow::text::{lossy_string, trim};

fn packet(bytes: &[u8]) -> Packet {
    Packet {
        pipeline: "gate".to_string(),
        direction: Direction::Outbound,
        timestamp: Timestamp::from_parts(0, 0).unwrap(),
        bytes: bytes.to_vec(),
    }
}

fn theme() -> Theme {
    Theme {
        outbound: "<o>".to_string(),
        inbound: "<i>".to_string(),
        encoded: "<e>".to_string(),
        highlight: "<h>".to_string(),
        reset: "</>".to_string(),
    }
}

#[test]
fn formats_have_names_and_aliases() {
    assert_eq!(OutputFormat::parse("hexdump"), Some(OutputFormat::Hexdump));
    assert_eq!(OutputFormat::parse("HEX"), Some(OutputFormat::Hexdump));
    assert_eq!(OutputFormat::parse("Json"), Some(OutputFormat::Json));
    assert_eq!(OutputFormat::parse("raw"), Some(OutputFormat::Raw));
    assert_eq!(OutputFormat::parse("text"), Some(OutputFormat::Raw));
    assert_eq!(OutputFormat::parse("base64"), Some(OutputFormat::Base64));
    assert_eq!(OutputFormat::parse("compact"), Some(OutputFormat::Compact));
    assert_eq!(OutputFormat::parse("SUMMARY"), Some(OutputFormat::Compact));
    assert_eq!(OutputFormat::parse(""), None);
    assert_eq!(OutputFormat::parse("hex "), None);
}

#[test]
fn a_hexdump_has_sixteen_bytes_to_a_line() {
    let bytes: Vec<u8> = (0x3c..0x3c + 18).collect();
    let out = render(&packet(&bytes), OutputFormat::Hexdump, false, false, &[]);
    assert_eq!(
        out,
        "\n[OUTBOUND Payload - 18 bytes]\n  \
         3C 3D 3E 3F 40 41 42 43 44 45 46 47 48 49 4A 4B  | <=>?@ABCDEFGHIJK\n  \
         4C 4D                                            | LM\n"
    );
}

#[test]
fn a_hexdump_of_nothing_is_its_headline() {
    let out = render(&packet(b""), OutputFormat::Hexdump, false, false, &[]);
    assert_eq!(out, "\n[OUTBOUND Payload - 0 bytes]\n");
}

#[test]
fn a_hexdump_shows_dots_for_what_cannot_be_printed() {
    let out = render(&packet(b"\x1f ~\x7f\xff"), OutputFormat::Hexdump, false, false, &[]);
    assert!(out.ends_with("| . ~..\n"));
    assert!(out.contains("1F 20 7E 7F FF "));
}

#[test]
fn raw_text_follows_its_label() {
    let out = render(&packet("h\u{e9}!".as_bytes()), OutputFormat::Raw, false, false, &[b"h".to_vec()]);
    assert_eq!(out, "[OUTBOUND] h\u{e9}!");
    let out = render(&packet(b"a\xffb"), OutputFormat::Raw, false, false, &[]);
    assert_eq!(out, "[OUTBOUND] a\u{fffd}b");
}

#[test]
fn matches_are_highlighted_in_color() {
    let patterns = vec![b"err".to_vec(), b"error".to_vec(), vec![]];
    let out = render_with(
        &packet(b"an error, no err"),
        OutputFormat::Raw,
        false,
        true,
        &patterns,
        &theme(),
        None,
    );
    assert_eq!(out, "<o>[OUTBOUND]</> an <h>err</>or, no <h>err</>");
}

#[test]
fn highlighting_inserts_codes_and_nothing_else() {
    let patterns = vec![b"aa".to_vec(), b"b".to_vec()];
    assert_eq!(apply_highlight(b"aaab", &patterns, b"<", b">"), b"<aa>a<b>");
    assert_eq!(apply_highlight(b"aaab", &patterns, b"", b""), b"aaab");
    assert_eq!(apply_highlight(b"aaab", &[], b"<", b">"), b"aaab");
    assert_eq!(apply_highlight(b"xyz", &patterns, b"<", b">"), b"xyz");
}

#[test]
fn one_line_shows_a_preview() {
    let out = render(&packet(b"a\tb\nc"), OutputFormat::Compact, false, false, &[]);
    assert_eq!(out, "[OUTBOUND] 5B \"a.b.c\"");
    let out = render(&packet(&[b'x'; 60]), OutputFormat::Compact, false, false, &[]);
    assert_eq!(out, format!("[OUTBOUND] 60B \"{}\"", "x".repeat(60)));
    let out = render(&packet(&[b'x'; 61]), OutputFormat::Compact, false, false, &[]);
    assert_eq!(out, format!("[OUTBOUND] 61B \"{}\u{2026}\"", "x".repeat(60)));
}

#[test]
fn a_preview_keeps_its_highlight_codes() {
    let mut bytes = vec![b'.'; 58];
    bytes.extend_from_slice(b"hitxx");
    let out = render_with(
        &packet(&bytes),
        OutputFormat::Compact,
        false,
        true,
        &[b"hi".to_vec()],
        &theme(),
        None,
    );
    assert_eq!(
        out,
        format!("<o>[OUTBOUND]</> 63B \"{}<h>hi</>\u{2026}\"", ".".repeat(58))
    );
}

#[test]
fn the_first_pattern_of_the_list_wins_on_overlap() {
    let highlight = |bytes: &[u8], patterns: &[&str]| {
        let patterns: Vec<Vec<u8>> = patterns.iter().map(|p| p.as_bytes().to_vec()).collect();
        String::from_utf8(apply_highlight(bytes, &patterns, b"<", b">")).unwrap()
    };
    assert_eq!(highlight(b"abc", &["bc", "ab"]), "a<bc>");
    assert_eq!(highlight(b"abc", &["ab", "bc"]), "<ab>c");
    assert_eq!(highlight(b"error", &["error", "err"]), "<error>");
    assert_eq!(highlight(b"error", &["err", "error"]), "<err>or");
    assert_eq!(highlight(b"aab bab", &["b", "", "a"]), "<a><a><b> <b><a><b>");
    assert_eq!(highlight(b"xaaax", &["aa", "ax"]), "x<aa><ax>");
    assert_eq!(highlight(b"", &["a"]), "");
}

fn colored_line(bytes: &[u8], pattern: &str) -> String {
    let patterns = vec![pattern.as_bytes().to_vec()];
    let out = render_with(
        &packet(bytes),
        OutputFormat::Compact,
        false,
        true,
        &patterns,
        &theme(),
        None,
    );
    out.strip_prefix("<o>[OUTBOUND]</> ").unwrap().to_string()
}

#[test]
fn one_line_highlights_what_the_payload_holds() {
    assert_eq!(colored_line(b"a\nb", "."), "3B \"a.b\"");
    assert_eq!(colored_line(b"a\nb", "\n"), "3B \"a<h>.</>b\"");
    assert_eq!(colored_line(b"a.b", "."), "3B \"a<h>.</>b\"");
    assert_eq!(colored_line("h\u{e9}h\u{e9}".as_bytes(), "\u{e9}"), "6B \"h<h>\u{e9}</>h<h>\u{e9}</>\"");
    assert_eq!(colored_line(b"", "x"), "0B \"\"");
}

#[test]
fn a_match_that_is_cut_is_highlighted_as_far_as_it_shows() {
    let mut bytes = vec![b'x'; 58];
    bytes.extend_from_slice(b"match");
    assert_eq!(
        colored_line(&bytes, "match"),
        format!("63B \"{}<h>ma</>\u{2026}\"", "x".repeat(58))
    );
    bytes.truncate(60);
    assert_eq!(colored_line(&bytes, "ma"), format!("60B \"{}<h>ma</>\"", "x".repeat(58)));
    let mut bytes = vec![b'x'; 60];
    bytes.extend_from_slice(b"y");
    assert_eq!(colored_line(&bytes, "y"), format!("61B \"{}\u{2026}\"", "x".repeat(60)));
}

#[test]
fn base64_is_the_standard_one_with_padding() {
    let base64 = |bytes: &[u8]| render(&packet(bytes), OutputFormat::Base64, false, false, &[]);
    assert_eq!(base64(b""), "[OUTBOUND] ");
    assert_eq!(base64(b"f"), "[OUTBOUND] Zg==");
    assert_eq!(base64(b"fo"), "[OUTBOUND] Zm8=");
    assert_eq!(base64(b"foo"), "[OUTBOUND] Zm9v");
    assert_eq!(base64(b"\xfb\xff\xbf\x00"), "[OUTBOUND] +/+/AA==");
    let out = render_with(&packet(b"f"), OutputFormat::Base64, false, true, &[], &theme(), None);
    assert_eq!(out, "<e>[OUTBOUND]</> Zg==");
}

#[test]
fn json_records_hold_text_and_hex() {
    let out = render(&packet(b"a\"\\\n\x01\xff"), OutputFormat::Json, false, false, &[]);
    assert_eq!(
        out,
        "{\"pipeline\":\"gate\",\"direction\":\"OUTBOUND\",\
         \"timestamp\":\"1970-01-01T00:00:00+00:00\",\"length\":6,\
         \"text\":\"a\\\"\\\\\\n\\u0001\u{fffd}\",\"hex\":\"61225c0a01ff\"}"
    );
    assert_eq!(record_line(&packet(b"a\"\\\n\x01\xff")), out);
    assert!(!out.contains('\n'));
}

#[test]
fn pretty_json_has_one_field_to_a_line() {
    let out = render(&packet(b"hi"), OutputFormat::Json, true, false, &[]);
    assert_eq!(
        out,
        "{\n  \"pipeline\": \"gate\",\n  \"direction\": \"OUTBOUND\",\n  \
         \"timestamp\": \"1970-01-01T00:00:00+00:00\",\n  \"length\": 2,\n  \
         \"text\": \"hi\",\n  \"hex\": \"6869\"\n}"
    );
}

#[test]
fn json_in_color_is_what_the_coloring_writer_gives() {
    let p = packet(b"hi");
    let out = render_with(&p, OutputFormat::Json, false, true, &[], &theme(), Some("X".to_string()));
    assert_eq!(out, "X");
    let out = render_with(&p, OutputFormat::Json, true, true, &[], &theme(), None);
    assert_eq!(out, record_line(&p));
    // In color the text is the pretty form, with or without codes in it.
    let out = render(&p, OutputFormat::Json, false, true, &[]);
    assert!(out.contains("pipeline") && out.contains('\n'));
}

#[test]
fn colors_depend_on_the_direction() {
    let mut p = packet(b"x");
    let out = render_with(&p, OutputFormat::Hexdump, false, true, &[], &theme(), None);
    assert!(out.starts_with("\n<o>[OUTBOUND Payload - 1 bytes]</>\n"));
    p.direction = Direction::Inbound;
    let out = render_with(&p, OutputFormat::Hexdump, false, true, &[], &theme(), None);
    assert!(out.starts_with("\n<i>[INBOUND Payload - 1 bytes]</>\n"));
    let out = render(&p, OutputFormat::Raw, false, true, &[]);
    assert!(out.starts_with("\u{1b}[38;2;"));
    assert!(out.ends_with("m[INBOUND]\u{1b}[0m x"));
}

#[test]
fn the_current_theme_is_made_of_escape_codes() {
    let theme = Theme::current();
    for code in [&theme.outbound, &theme.inbound, &theme.encoded, &theme.highlight] {
        assert!(code.starts_with("\u{1b}[38;2;") && code.ends_with('m'));
    }
    assert_eq!(theme.outbound, cybercore::palette::acid_green());
    assert_eq!(theme.inbound, cybercore::palette::cyan());
    assert_eq!(theme.encoded, cybercore::palette::purple());
    assert_eq!(theme.highlight, cybercore::palette::red());
    assert_eq!(theme.reset, "\u{1b}[0m");
    assert_eq!(Theme::none().reset, "");
}

#[test]
fn lossy_text_is_exact_for_valid_utf8() {
    assert_eq!(lossy_string("\u{1f47b} ghost".as_bytes()), "\u{1f47b} ghost");
    assert_eq!(lossy_string(b"\xf0\x9f"), "\u{fffd}");
}

#[test]
fn trimming_takes_white_space_off_both_ends() {
    assert_eq!(trim(" \t a b\u{2003}\r\n"), "a b");
    assert_eq!(trim("\u{3000}\u{85}"), "");
    assert_eq!(trim("a"), "a");
}
