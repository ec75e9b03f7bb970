use wraithflow::app::App;
use wraithflow::color::{color_from_hex, parse_hex_color, Color};
use wraithflow::dashboard::{PipelineStat, SortField};
use wraithflow::view::{
    build_rows, cybercore_color, detail_text, detail_title, footer_line, header_cells, marked_row,
    marked_style, row_style, summary_line, summary_style, table_rows, table_title, Palette, Style,
};

#[test]
fn parse_hex_color_accepts_a_leading_hash_or_not() {
    assert_eq!(parse_hex_color("#ff0000"), Some(Color::Rgb(255, 0, 0)));
    assert_eq!(parse_hex_color("ff0000"), Some(Color::Rgb(255, 0, 0)));
    assert_eq!(parse_hex_color("00ff88"), Some(Color::Rgb(0, 255, 136)));
}

#[test]
fn parse_hex_color_rejects_the_wrong_length() {
    assert_eq!(parse_hex_color("fff"), None);
    assert_eq!(parse_hex_color("ff00"), None);
    assert_eq!(parse_hex_color(""), None);
}

#[test]
fn parse_hex_color_rejects_non_hex_characters() {
    assert_eq!(parse_hex_color("zzzzzz"), None);
}

#[test]
fn parse_hex_color_takes_six_hex_digits_and_nothing_else() {
    assert_eq!(parse_hex_color("##FFaa09"), Some(Color::Rgb(255, 170, 9)));
    for text in ["+f+f+f", "-f0000", "f+0000", "++0000", "0 0000", "00000g", "/:@`G0"] {
        assert_eq!(parse_hex_color(text), None);
    }
}

#[test]
fn parse_hex_color_never_fails_on_other_text() {
    assert_eq!(parse_hex_color("\u{20ac}\u{20ac}"), None);
    assert_eq!(parse_hex_color("a\u{e9}abc"), None);
    assert_eq!(parse_hex_color("######"), None);
}

#[test]
fn colors_come_from_the_theme_or_fall_back() {
    assert_eq!(cybercore_color("no such color", Color::Red), Color::Red);
    assert!(matches!(cybercore_color("acid_green", Color::Green), Color::Rgb(_, _, _)));
    let role = |name: &str| parse_hex_color(&cybercore::palette::hex(name).unwrap()).unwrap();
    let palette = Palette::current();
    assert_eq!(palette.healthy, role("acid_green"));
    assert_eq!(palette.error, role("red"));
    assert_eq!(palette.muted, role("muted"));
    assert_eq!(palette.accent, role("cyan"));
    assert_eq!(palette.border, role("line"));
    assert_eq!(palette.text, role("white"));
    assert_eq!(Palette::plain().healthy, Color::Green);
    assert_eq!(color_from_hex(&Some("102030".to_string()), Color::Red), Color::Rgb(16, 32, 48));
    assert_eq!(color_from_hex(&Some("what".to_string()), Color::Red), Color::Red);
    assert_eq!(color_from_hex(&None, Color::Cyan), Color::Cyan);
}

fn stat(name: &str, active: u64, errors: u64) -> PipelineStat {
    PipelineStat {
        name: name.to_string(),
        bytes_in: 0,
        bytes_out: 0,
        connections_total: active,
        connections_active: active,
        errors_total: errors,
    }
}

#[test]
fn row_style_flags_errors_red_even_when_idle() {
    let healthy = Color::Green;
    let error = Color::Red;
    let muted = Color::DarkGray;
    let s = row_style(&stat("p", 0, 1), healthy, error, muted);
    assert_eq!(s.fg, Some(error));
}

#[test]
fn row_style_marks_active_pipelines_healthy() {
    let healthy = Color::Green;
    let error = Color::Red;
    let muted = Color::DarkGray;
    let s = row_style(&stat("p", 3, 0), healthy, error, muted);
    assert_eq!(s.fg, Some(healthy));
}

#[test]
fn row_style_marks_idle_error_free_pipelines_muted() {
    let healthy = Color::Green;
    let error = Color::Red;
    let muted = Color::DarkGray;
    let s = row_style(&stat("p", 0, 0), healthy, error, muted);
    assert_eq!(s.fg, Some(muted));
}

#[test]
fn build_rows_produces_one_row_per_pipeline() {
    let pipelines = vec![stat("a", 1, 0), stat("b", 0, 2)];
    let rows = build_rows(&pipelines, Color::Green, Color::Red, Color::DarkGray);
    assert_eq!(rows.len(), 2);
    assert_eq!(rows[0].cells, vec!["a", "1/1", "0B", "0B", "0"]);
    assert_eq!(rows[1].cells, vec!["b", "0/0", "0B", "0B", "2"]);
    assert_eq!(rows[1].style.fg, Some(Color::Red));
}

#[test]
fn the_table_shows_histories() {
    let mut app = App::new();
    let mut row = stat("a", 1, 0);
    for n in [0u64, 7] {
        row.bytes_in = n;
        app.update(vec![row.clone()]);
    }
    let rows = table_rows(&app, &Palette::plain());
    assert_eq!(rows.len(), 1);
    assert_eq!(rows[0].cells, vec!["a", "1/1", "7B", "0B", "0", "▁█"]);
    assert_eq!(rows[0].style, Style { fg: Some(Color::Green), bg: None, bold: false });
}

#[test]
fn headings_show_the_order_of_names() {
    assert_eq!(
        header_cells(SortField::Name, false),
        vec!["Pipeline▲", "Active/Total", "In", "Out", "Errors", "History"]
    );
    assert_eq!(header_cells(SortField::Name, true)[0], "Pipeline▼");
    assert_eq!(header_cells(SortField::Errors, true)[0], "Pipeline");
}

#[test]
fn titles_tell_how_polling_goes() {
    let mut app = App::new();
    assert_eq!(table_title(&app), " live ");
    assert_eq!(marked_row(&app), None);
    app.paused = true;
    assert_eq!(table_title(&app), " PAUSED ");
    app.last_error = Some("refused".to_string());
    assert_eq!(table_title(&app), " disconnected (refused) ");
    app.update(vec![stat("a", 0, 0)]);
    assert_eq!(marked_row(&app), Some(0));
}

#[test]
fn lines_around_the_table() {
    let mut total = stat("TOTAL", 2, 0);
    total.bytes_in = 3;
    total.bytes_out = 4;
    assert_eq!(
        summary_line(5, &total),
        " WraithFlow — 5 pipeline(s) — active=2 total=2 in=3B out=4B errors=0 "
    );
    let palette = Palette::plain();
    assert_eq!(
        summary_style(&total, &palette),
        Style { fg: Some(palette.accent), bg: None, bold: true }
    );
    assert_eq!(summary_style(&stat("t", 0, 1), &palette).fg, Some(palette.error));
    assert_eq!(
        marked_style(&palette),
        Style { fg: Some(palette.text), bg: Some(palette.accent), bold: true }
    );
    assert_eq!(
        footer_line(SortField::BytesIn, false),
        " q quit | ↑/k ↓/j move | s sort (In) | r reverse | p pause | Enter detail | ? help "
    );
    assert_eq!(
        footer_line(SortField::Name, true),
        " q quit | ↑/k ↓/j move | s sort (Name) | r reverse | p resume | Enter detail | ? help "
    );
    assert_eq!(detail_title(&total), " TOTAL — Enter/Esc to close ");
    assert_eq!(
        detail_text(&total),
        "active/total: 2/2\nbytes in:     3B\nbytes out:    4B\nerrors:       0"
    );
}
