//! What the dashboard puts on the screen.

use vstd::prelude::*;

use crate::app::App;
use crate::color::{color_from_hex, color_or, lemma_hex_value_is_a_color, Color};
use crate::dashboard::{sparkline_chars, sparkline_text, PipelineStat, SortField};
use crate::palette::{
    are_values_of, fits_name, is_palette_name, palette_hex, theme_palette,
};
use crate::text::{decimal_text, decimal_value, decimals_read_back, push_decimal, text_of};

verus! {

// ---------------------------------------------------------------------------
// Colors
// ---------------------------------------------------------------------------

/// A color is what some theme has for a name, or the fallback where it has none.
pub open spec fn is_role_color(color: Color, name: Seq<char>, fallback: Color) -> bool {
    exists|theme: Seq<char>|
        color == color_or((#[trigger] theme_palette(theme)).get(name), fallback)
}

/// The color that the current theme has for a name, or the fallback for a name
/// that the palette does not know: this is decoration, and nothing that it finds
/// makes it fail.
pub fn cybercore_color(name: &str, fallback: Color) -> (color: Color)
    ensures
        is_role_color(color, name@, fallback),
        is_palette_name(name@) ==> color is Rgb,
        !is_palette_name(name@) ==> color == fallback,
{
    let names: [&str; 1] = [name];
    let values = palette_hex(&names);
    let color = color_from_hex(&values[0], fallback);
    proof {
        let theme = choose|theme: Seq<char>|
            are_values_of(#[trigger] theme_palette(theme), names@, values@);
        lemma_value_gives_color(theme_palette(theme), names@, values@, 0, fallback);
    }
    color
}

/// What a palette's value makes of a fallback.
proof fn lemma_value_gives_color(
    palette: Map<Seq<char>, Seq<char>>,
    names: Seq<&str>,
    values: Seq<Option<String>>,
    i: int,
    fallback: Color,
)
    requires
        0 <= i < names.len(),
        are_values_of(palette, names, values),
        fits_name(text_of(values[i]), names[i]@),
    ensures
        color_or(text_of(values[i]), fallback) == color_or(palette.get(names[i]@), fallback),
        is_palette_name(names[i]@) ==> color_or(text_of(values[i]), fallback) is Rgb,
        !is_palette_name(names[i]@) ==> color_or(text_of(values[i]), fallback) == fallback,
{
    if values[i] is Some {
        lemma_hex_value_is_a_color(values[i]->0@);
    }
}

/// Every color that the dashboard uses.
#[derive(Debug, Clone, Copy)]
pub struct Palette {
    pub healthy: Color,
    pub error: Color,
    pub muted: Color,
    pub accent: Color,
    pub border: Color,
    pub text: Color,
}

impl Palette {
    /// The plain colors that every terminal has.
    pub open spec fn fallbacks() -> Palette {
        Palette {
            healthy: Color::Green,
            error: Color::Red,
            muted: Color::DarkGray,
            accent: Color::Cyan,
            border: Color::Gray,
            text: Color::White,
        }
    }

    /// The plain colors that every terminal has.
    pub fn plain() -> (palette: Self)
        ensures
            palette == Palette::fallbacks(),
    {
        Palette {
            healthy: Color::Green,
            error: Color::Red,
            muted: Color::DarkGray,
            accent: Color::Cyan,
            border: Color::Gray,
            text: Color::White,
        }
    }

    /// Each color is what a palette has for its role, or the plain one where it
    /// has none.
    pub open spec fn is_of(self, palette: Map<Seq<char>, Seq<char>>) -> bool {
        let plain = Palette::fallbacks();
        &&& self.healthy == color_or(palette.get("acid_green"@), plain.healthy)
        &&& self.error == color_or(palette.get("red"@), plain.error)
        &&& self.muted == color_or(palette.get("muted"@), plain.muted)
        &&& self.accent == color_or(palette.get("cyan"@), plain.accent)
        &&& self.border == color_or(palette.get("line"@), plain.border)
        &&& self.text == color_or(palette.get("white"@), plain.text)
    }

    /// The colors of the current theme, each with a plain one to fall back to: all
    /// of the same theme, which has every one of them.
    pub fn current() -> (palette: Self)
        ensures
            exists|theme: Seq<char>| palette.is_of(#[trigger] theme_palette(theme)),
            palette.healthy is Rgb,
            palette.error is Rgb,
            palette.muted is Rgb,
            palette.accent is Rgb,
            palette.border is Rgb,
            palette.text is Rgb,
    {
        let names: [&str; 6] = ["acid_green", "red", "muted", "cyan", "line", "white"];
        let values = palette_hex(&names);
        let palette = Palette {
            healthy: color_from_hex(&values[0], Color::Green),
            error: color_from_hex(&values[1], Color::Red),
            muted: color_from_hex(&values[2], Color::DarkGray),
            accent: color_from_hex(&values[3], Color::Cyan),
            border: color_from_hex(&values[4], Color::Gray),
            text: color_from_hex(&values[5], Color::White),
        };
        proof {
            let theme = choose|theme: Seq<char>|
                are_values_of(#[trigger] theme_palette(theme), names@, values@);
            let colors = theme_palette(theme);
            lemma_value_gives_color(colors, names@, values@, 0, Color::Green);
            lemma_value_gives_color(colors, names@, values@, 1, Color::Red);
            lemma_value_gives_color(colors, names@, values@, 2, Color::DarkGray);
            lemma_value_gives_color(colors, names@, values@, 3, Color::Cyan);
            lemma_value_gives_color(colors, names@, values@, 4, Color::Gray);
            lemma_value_gives_color(colors, names@, values@, 5, Color::White);
            assert(palette.is_of(colors));
        }
        palette
    }
}

/// How a piece of text looks.
#[derive(Debug, Clone, Copy, PartialEq, Eq, Structural)]
pub struct Style {
    pub fg: Option<Color>,
    pub bg: Option<Color>,
    pub bold: bool,
}

impl Style {
    /// Text in one color.
    pub open spec fn colored(color: Color) -> Style {
        Style { fg: Some(color), bg: None, bold: false }
    }

    /// Text in one color.
    pub fn in_color(color: Color) -> (style: Self)
        ensures
            style == Style::colored(color),
    {
        Style { fg: Some(color), bg: None, bold: false }
    }
}

/// The color of a row: errors show whatever else is going on, and an idle row
/// without errors is muted, so that the healthy color means that traffic is
/// being carried right now.
pub open spec fn row_color(row: PipelineStat, healthy: Color, error: Color, muted: Color) -> Color {
    if row.errors_total > 0 {
        error
    } else if row.connections_active > 0 {
        healthy
    } else {
        muted
    }
}

/// How a row looks.
pub fn row_style(pipeline: &PipelineStat, healthy: Color, error: Color, muted: Color) -> (style:
    Style)
    ensures
        style == Style::colored(row_color(*pipeline, healthy, error, muted)),
{
    if pipeline.errors_total > 0 {
        Style::in_color(error)
    } else if pipeline.connections_active > 0 {
        Style::in_color(healthy)
    } else {
        Style::in_color(muted)
    }
}

// ---------------------------------------------------------------------------
// Rows
// ---------------------------------------------------------------------------

/// One row of a table.
#[derive(Debug, Clone)]
pub struct Row {
    pub cells: Vec<String>,
    pub style: Style,
}

/// The texts of the cells of a row.
pub open spec fn cell_texts(cells: Seq<String>) -> Seq<Seq<char>> {
    cells.map_values(|s: String| s@)
}

/// The cells of a pipeline.
pub open spec fn row_cells(row: PipelineStat) -> Seq<Seq<char>> {
    seq![
        row.name@,
        decimal_text(row.connections_active as nat) + "/"@ + decimal_text(
            row.connections_total as nat,
        ),
        decimal_text(row.bytes_in as nat) + "B"@,
        decimal_text(row.bytes_out as nat) + "B"@,
        decimal_text(row.errors_total as nat),
    ]
}

/// A number in base ten.
fn number_text(n: u64) -> (text: String)
    ensures
        text@ == decimal_text(n as nat),
{
    let mut text = String::new();
    push_decimal(&mut text, n);
    assert(text@ =~= decimal_text(n as nat));
    text
}

/// A number of bytes.
fn byte_text(n: u64) -> (text: String)
    ensures
        text@ == decimal_text(n as nat) + "B"@,
{
    let mut text = number_text(n);
    text.append("B");
    text
}

/// Two numbers with a slash between them.
fn ratio_text(a: u64, b: u64) -> (text: String)
    ensures
        text@ == decimal_text(a as nat) + "/"@ + decimal_text(b as nat),
{
    let mut text = number_text(a);
    text.append("/");
    push_decimal(&mut text, b);
    text
}

/// The cells of a pipeline.
fn cells_of(row: &PipelineStat) -> (cells: Vec<String>)
    ensures
        cell_texts(cells@) == row_cells(*row),
{
    let mut cells: Vec<String> = Vec::new();
    cells.push(row.name.clone());
    cells.push(ratio_text(row.connections_active, row.connections_total));
    cells.push(byte_text(row.bytes_in));
    cells.push(byte_text(row.bytes_out));
    cells.push(number_text(row.errors_total));
    assert(cell_texts(cells@) =~= row_cells(*row));
    cells
}

/// The rows of a table of pipelines, one for each and in their order.
pub fn build_rows(pipelines: &[PipelineStat], healthy: Color, error: Color, muted: Color) -> (rows:
    Vec<Row>)
    ensures
        rows@.len() == pipelines@.len(),
        forall|i: int|
            0 <= i < rows@.len() ==> {
                &&& cell_texts((#[trigger] rows@[i]).cells@) == row_cells(pipelines@[i])
                &&& rows@[i].style == Style::colored(
                    row_color(pipelines@[i], healthy, error, muted),
                )
            },
{
    let mut rows: Vec<Row> = Vec::new();
    let mut i: usize = 0;
    while i < pipelines.len()
        invariant
            i <= pipelines@.len(),
            rows@.len() == i,
            forall|k: int|
                0 <= k < i ==> {
                    &&& cell_texts((#[trigger] rows@[k]).cells@) == row_cells(pipelines@[k])
                    &&& rows@[k].style == Style::colored(
                        row_color(pipelines@[k], healthy, error, muted),
                    )
                },
        decreases pipelines.len() - i,
    {
        let row = Row {
            cells: cells_of(&pipelines[i]),
            style: row_style(&pipelines[i], healthy, error, muted),
        };
        rows.push(row);
        i += 1;
    }
    rows
}

/// How many samples the history column shows.
pub const HISTORY_COLUMN: usize = 12;

/// The rows of the dashboard's table: the cells of each pipeline and its history.
pub fn table_rows(app: &App, palette: &Palette) -> (rows: Vec<Row>)
    requires
        app.wf(),
    ensures
        rows@.len() == app.pipelines@.len(),
        forall|i: int|
            0 <= i < rows@.len() ==> {
                &&& cell_texts((#[trigger] rows@[i]).cells@) == row_cells(app.pipelines@[i]).push(
                    sparkline_text(
                        app.samples_of(app.pipelines@[i].name@),
                        HISTORY_COLUMN as int,
                    ),
                )
                &&& rows@[i].style == Style::colored(
                    row_color(app.pipelines@[i], palette.healthy, palette.error, palette.muted),
                )
            },
{
    let mut rows: Vec<Row> = Vec::new();
    let mut i: usize = 0;
    while i < app.pipelines.len()
        invariant
            app.wf(),
            i <= app.pipelines@.len(),
            rows@.len() == i,
            forall|k: int|
                0 <= k < i ==> {
                    &&& cell_texts((#[trigger] rows@[k]).cells@) == row_cells(
                        app.pipelines@[k],
                    ).push(
                        sparkline_text(
                            app.samples_of(app.pipelines@[k].name@),
                            HISTORY_COLUMN as int,
                        ),
                    )
                    &&& rows@[k].style == Style::colored(
                        row_color(
                            app.pipelines@[k],
                            palette.healthy,
                            palette.error,
                            palette.muted,
                        ),
                    )
                },
        decreases app.pipelines.len() - i,
    {
        let pipeline = &app.pipelines[i];
        let mut cells = cells_of(pipeline);
        let ghost before = cells@;
        let history = app.history_of(pipeline.name.as_str());
        let line = sparkline_chars(history.as_slice(), HISTORY_COLUMN);
        cells.push(line);
        assert(cell_texts(cells@) =~= cell_texts(before).push(line@));
        let style = row_style(pipeline, palette.healthy, palette.error, palette.muted);
        rows.push(Row { cells, style });
        i += 1;
    }
    rows
}

/// The headings of the dashboard's table; an arrow shows the direction where the
/// rows are sorted by name.
pub fn header_cells(field: SortField, desc: bool) -> (cells: Vec<String>)
    ensures
        cell_texts(cells@) == seq![
            "Pipeline"@ + (if field != SortField::Name {
                seq![]
            } else if desc {
                seq!['▼']
            } else {
                seq!['▲']
            }),
            "Active/Total"@,
            "In"@,
            "Out"@,
            "Errors"@,
            "History"@,
        ],
{
    let mut first = "Pipeline".to_owned();
    if let SortField::Name = field {
        first.push(
            if desc {
                '▼'
            } else {
                '▲'
            },
        );
    }
    let ghost arrow: Seq<char> = if field != SortField::Name {
        seq![]
    } else if desc {
        seq!['▼']
    } else {
        seq!['▲']
    };
    assert(first@ =~= "Pipeline"@ + arrow);
    let mut cells: Vec<String> = Vec::new();
    cells.push(first);
    cells.push("Active/Total".to_owned());
    cells.push("In".to_owned());
    cells.push("Out".to_owned());
    cells.push("Errors".to_owned());
    cells.push("History".to_owned());
    assert(cell_texts(cells@) =~= seq![
        "Pipeline"@ + arrow,
        "Active/Total"@,
        "In"@,
        "Out"@,
        "Errors"@,
        "History"@,
    ]);
    cells
}

/// The row that is marked as selected: none where there are no rows.
pub fn marked_row(app: &App) -> (row: Option<usize>)
    ensures
        row == (if app.pipelines@.len() == 0 {
            None
        } else {
            Some(app.selected)
        }),
{
    if app.pipelines.len() == 0 {
        None
    } else {
        Some(app.selected)
    }
}

// ---------------------------------------------------------------------------
// Texts
// ---------------------------------------------------------------------------

/// The title of the dashboard's table: what went wrong with the last poll, or
/// whether polling is paused.
pub fn table_title(app: &App) -> (title: String)
    ensures
        title@ == (match app.last_error {
            Some(error) => " disconnected ("@ + error@ + ") "@,
            None => if app.paused {
                " PAUSED "@
            } else {
                " live "@
            },
        }),
{
    match &app.last_error {
        Some(error) => {
            let mut title = " disconnected (".to_owned();
            title.append(error.as_str());
            title.append(") ");
            title
        },
        None => if app.paused {
            " PAUSED ".to_owned()
        } else {
            " live ".to_owned()
        },
    }
}

/// The line above the table: how many pipelines there are, and their totals.
pub fn summary_line(pipelines: usize, total: &PipelineStat) -> (line: String)
    ensures
        line@ == " WraithFlow — "@ + decimal_text(pipelines as nat) + " pipeline(s) — active="@
            + decimal_text(total.connections_active as nat) + " total="@ + decimal_text(
            total.connections_total as nat,
        ) + " in="@ + decimal_text(total.bytes_in as nat) + "B out="@ + decimal_text(
            total.bytes_out as nat,
        ) + "B errors="@ + decimal_text(total.errors_total as nat) + " "@,
{
    let mut line = " WraithFlow — ".to_owned();
    push_decimal(&mut line, pipelines as u64);
    line.append(" pipeline(s) — active=");
    push_decimal(&mut line, total.connections_active);
    line.append(" total=");
    push_decimal(&mut line, total.connections_total);
    line.append(" in=");
    push_decimal(&mut line, total.bytes_in);
    line.append("B out=");
    push_decimal(&mut line, total.bytes_out);
    line.append("B errors=");
    push_decimal(&mut line, total.errors_total);
    line.append(" ");
    line
}

/// How the line above the table looks: bold, and in the color of errors where
/// there are any.
pub fn summary_style(total: &PipelineStat, palette: &Palette) -> (style: Style)
    ensures
        style == (Style {
            fg: Some(
                if total.errors_total > 0 {
                    palette.error
                } else {
                    palette.accent
                },
            ),
            bg: None,
            bold: true,
        }),
{
    let color = if total.errors_total > 0 {
        palette.error
    } else {
        palette.accent
    };
    Style { fg: Some(color), bg: None, bold: true }
}

/// How the headings and the selected row look: text and background both set, so
/// that a selected row can be read whatever its own color is.
pub fn marked_style(palette: &Palette) -> (style: Style)
    ensures
        style == (Style { fg: Some(palette.text), bg: Some(palette.accent), bold: true }),
{
    Style { fg: Some(palette.text), bg: Some(palette.accent), bold: true }
}

/// The line below the table: the keys.
pub fn footer_line(field: SortField, paused: bool) -> (line: String)
    ensures
        line@ == " q quit | ↑/k ↓/j move | s sort ("@ + field.label_text() + ") | r reverse | "@
            + (if paused {
            "p resume"@
        } else {
            "p pause"@
        }) + " | Enter detail | ? help "@,
{
    let mut line = " q quit | ↑/k ↓/j move | s sort (".to_owned();
    line.append(field.label());
    line.append(") | r reverse | ");
    line.append(
        if paused {
            "p resume"
        } else {
            "p pause"
        },
    );
    line.append(" | Enter detail | ? help ");
    line
}

/// The title of the popup on one pipeline.
pub fn detail_title(row: &PipelineStat) -> (title: String)
    ensures
        title@ == " "@ + row.name@ + " — Enter/Esc to close "@,
{
    let mut title = " ".to_owned();
    title.append(row.name.as_str());
    title.append(" — Enter/Esc to close ");
    title
}

/// The text of the popup on one pipeline.
pub fn detail_text(row: &PipelineStat) -> (text: String)
    ensures
        text@ == "active/total: "@ + decimal_text(row.connections_active as nat) + "/"@
            + decimal_text(row.connections_total as nat) + "\nbytes in:     "@ + decimal_text(
            row.bytes_in as nat,
        ) + "B\nbytes out:    "@ + decimal_text(row.bytes_out as nat) + "B\nerrors:       "@
            + decimal_text(row.errors_total as nat),
{
    let mut text = "active/total: ".to_owned();
    push_decimal(&mut text, row.connections_active);
    text.append("/");
    push_decimal(&mut text, row.connections_total);
    text.append("\nbytes in:     ");
    push_decimal(&mut text, row.bytes_in);
    text.append("B\nbytes out:    ");
    push_decimal(&mut text, row.bytes_out);
    text.append("B\nerrors:       ");
    push_decimal(&mut text, row.errors_total);
    text
}

// ---------------------------------------------------------------------------
// Laws
// ---------------------------------------------------------------------------

/// A row shows what is going on: errors in the error color whatever else happens, open
/// connections without errors in the healthy one, and neither in the muted one.
pub proof fn a_row_shows_what_is_going_on(
    row: PipelineStat,
    healthy: Color,
    error: Color,
    muted: Color,
)
    ensures
        row.errors_total != 0 ==> row_color(row, healthy, error, muted) == error,
        row.errors_total == 0 && row.connections_active != 0 ==> row_color(
            row,
            healthy,
            error,
            muted,
        ) == healthy,
        row.errors_total == 0 && row.connections_active == 0 ==> row_color(
            row,
            healthy,
            error,
            muted,
        ) == muted,
        Style::colored(healthy).fg == Some(healthy),
        Style::colored(healthy).bg is None,
        !Style::colored(healthy).bold,
{
}

/// The cells of a row: the name, how many connections are open of how many, the bytes in
/// and out, and the errors, each counter in base ten.
pub proof fn the_cells_show_every_counter(row: PipelineStat)
    ensures
        ({
            let cells = row_cells(row);
            let ratio = cells[1];
            let slash = decimal_text(row.connections_active as nat).len() as int;
            &&& cells.len() == 5
            &&& cells[0] == row.name@
            &&& ratio[slash] == '/'
            &&& decimal_value(ratio.take(slash)) == row.connections_active
            &&& decimal_value(ratio.skip(slash + 1)) == row.connections_total
            &&& cells[2].last() == 'B' && decimal_value(cells[2].drop_last()) == row.bytes_in
            &&& cells[3].last() == 'B' && decimal_value(cells[3].drop_last()) == row.bytes_out
            &&& decimal_value(cells[4]) == row.errors_total
        }),
{
    reveal_strlit("/");
    reveal_strlit("B");
    let cells = row_cells(row);
    let active = decimal_text(row.connections_active as nat);
    let total = decimal_text(row.connections_total as nat);
    let slash = active.len() as int;
    decimals_read_back(row.connections_active as nat);
    decimals_read_back(row.connections_total as nat);
    decimals_read_back(row.bytes_in as nat);
    decimals_read_back(row.bytes_out as nat);
    decimals_read_back(row.errors_total as nat);
    assert(cells[1].take(slash) =~= active);
    assert(cells[1].skip(slash + 1) =~= total);
    assert(cells[2].drop_last() =~= decimal_text(row.bytes_in as nat));
    assert(cells[3].drop_last() =~= decimal_text(row.bytes_out as nat));
}

/// Each color of the dashboard has its role in the palette, and its own plain color where
/// the palette has none.
pub proof fn every_color_has_its_role(
    colors: Palette,
    palette: Map<Seq<char>, Seq<char>>,
    role: int,
)
    requires
        colors.is_of(palette),
        0 <= role < 6,
    ensures
        ({
            let names = seq!["acid_green"@, "red"@, "muted"@, "cyan"@, "line"@, "white"@];
            let plain = seq![
                Color::Green,
                Color::Red,
                Color::DarkGray,
                Color::Cyan,
                Color::Gray,
                Color::White,
            ];
            let own = seq![
                colors.healthy,
                colors.error,
                colors.muted,
                colors.accent,
                colors.border,
                colors.text,
            ];
            own[role] == color_or(palette.get(names[role]), plain[role])
        }),
        Palette::fallbacks().healthy == Color::Green,
        Palette::fallbacks().error == Color::Red,
        Palette::fallbacks().muted == Color::DarkGray,
        Palette::fallbacks().accent == Color::Cyan,
        Palette::fallbacks().border == Color::Gray,
        Palette::fallbacks().text == Color::White,
{
}

/// The texts of cells are their characters, each in its place.
pub proof fn cell_texts_are_the_cells(cells: Seq<String>, i: int)
    requires
        0 <= i < cells.len(),
    ensures
        cell_texts(cells).len() == cells.len(),
        cell_texts(cells)[i] == cells[i]@,
        HISTORY_COLUMN == 12,
{
}

/// A color is looked up under its own name: where every theme has one value there, the
/// color is that of the value, and where none has a value, it is the fallback.
pub proof fn a_color_is_looked_up_by_its_name(
    color: Color,
    name: Seq<char>,
    fallback: Color,
    value: Option<Seq<char>>,
)
    requires
        is_role_color(color, name, fallback),
        forall|theme: Seq<char>| (#[trigger] theme_palette(theme)).get(name) == value,
    ensures
        value is None ==> color == fallback,
        value is Some ==> color == color_or(value, fallback),
{
}

} // verus!
