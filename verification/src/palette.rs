//! Terminal colors, from the CYBERGRID palette.

use vstd::prelude::*;
use vstd::utf8::encode_utf8;

use crate::color::{hex_color, is_hex_value, Color};
use crate::packet::Direction;
use crate::text::{decimal_text, text_of};

verus! {

/// The escape code that sets a 24-bit foreground color.
pub open spec fn truecolor_code(r: u8, g: u8, b: u8) -> Seq<char> {
    "\u{1b}[38;2;"@ + decimal_text(r as nat) + ";"@ + decimal_text(g as nat) + ";"@ + decimal_text(
        b as nat,
    ) + "m"@
}

/// The palette of a theme of `cybercore`: its values by name. The table of themes is
/// fixed when the program is built.
pub uninterp spec fn theme_palette(theme: Seq<char>) -> Map<Seq<char>, Seq<char>>;

/// The escape code of the color that a palette has under a name.
pub open spec fn role_code(
    palette: Map<Seq<char>, Seq<char>>,
    name: Seq<char>,
) -> Option<Seq<char>> {
    match palette.get(name) {
        Some(value) => match hex_color(encode_utf8(value)) {
            Some(Color::Rgb(r, g, b)) => Some(truecolor_code(r, g, b)),
            _ => None,
        },
        None => None,
    }
}

/// The escape codes of the colors that the formatter uses, by the palette's names.
struct RoleCodes {
    acid_green: String,
    cyan: String,
    purple: String,
    red: String,
}

impl RoleCodes {
    /// Each code is that of its color in a palette.
    spec fn is_of(self, palette: Map<Seq<char>, Seq<char>>) -> bool {
        &&& role_code(palette, "acid_green"@) == Some(self.acid_green@)
        &&& role_code(palette, "cyan"@) == Some(self.cyan@)
        &&& role_code(palette, "purple"@) == Some(self.purple@)
        &&& role_code(palette, "red"@) == Some(self.red@)
    }
}

/// `cybercore::palette::acid_green`, `cyan`, `purple` and `red` give the escape
/// codes of the colors that the theme has under these names. The environment picks
/// the theme, once for the whole process, so all four codes come from the same one.
#[verifier::external_body]
fn role_codes() -> (codes: RoleCodes)
    ensures
        exists|theme: Seq<char>| codes.is_of(#[trigger] theme_palette(theme)),
{
    RoleCodes {
        acid_green: cybercore::palette::acid_green(),
        cyan: cybercore::palette::cyan(),
        purple: cybercore::palette::purple(),
        red: cybercore::palette::red(),
    }
}

/// `cybercore::palette::RESET` is the escape code that ends all styling.
#[verifier::external_body]
fn reset() -> (code: &'static str)
    ensures
        code@ == "\u{1b}[0m"@,
{
    cybercore::palette::RESET
}

/// The names that the palette knows.
pub open spec fn is_palette_name(name: Seq<char>) -> bool {
    ||| name == "bg"@
    ||| name == "acid_green"@
    ||| name == "hot_pink"@
    ||| name == "purple"@
    ||| name == "cyan"@
    ||| name == "orange"@
    ||| name == "red"@
    ||| name == "white"@
    ||| name == "panel"@
    ||| name == "line"@
    ||| name == "muted"@
}

/// A value is what a palette can hold under a name: six bare hex digits for the
/// names that it knows, and none for the others.
pub open spec fn fits_name(value: Option<Seq<char>>, name: Seq<char>) -> bool {
    match value {
        Some(value) => is_palette_name(name) && is_hex_value(value),
        None => !is_palette_name(name),
    }
}

/// Values are those that a palette has under the names, one for one.
pub open spec fn are_values_of(
    palette: Map<Seq<char>, Seq<char>>,
    names: Seq<&str>,
    values: Seq<Option<String>>,
) -> bool {
    &&& values.len() == names.len()
    &&& forall|i: int|
        0 <= i < names.len() ==> text_of(#[trigger] values[i]) == palette.get(names[i]@)
}

/// `cybercore::palette::hex` gives the value that the theme has under a name, for
/// exactly the names that the palette knows. In every theme a value is six bare
/// hex digits. The environment picks the theme, once for the whole process, so
/// the values of several names all come from the same one.
#[verifier::external_body]
pub(crate) fn palette_hex(names: &[&str]) -> (values: Vec<Option<String>>)
    ensures
        exists|theme: Seq<char>| are_values_of(#[trigger] theme_palette(theme), names@, values@),
        forall|i: int|
            0 <= i < names@.len() ==> fits_name(text_of(#[trigger] values@[i]), names@[i]@),
{
    names.iter().map(|name| cybercore::palette::hex(name)).collect()
}

/// The escape codes that color a rendered packet.
#[derive(Debug, Clone)]
pub struct Theme {
    /// In front of the label of an outbound packet.
    pub outbound: String,
    /// In front of the label of an inbound packet.
    pub inbound: String,
    /// In front of the label of a packet in base64.
    pub encoded: String,
    /// In front of a highlighted match.
    pub highlight: String,
    /// Behind whatever was colored.
    pub reset: String,
}

/// The codes of a theme, as texts.
pub struct ThemeCodes {
    pub outbound: Seq<char>,
    pub inbound: Seq<char>,
    pub encoded: Seq<char>,
    pub highlight: Seq<char>,
    pub reset: Seq<char>,
}

impl View for Theme {
    type V = ThemeCodes;

    open spec fn view(&self) -> ThemeCodes {
        ThemeCodes {
            outbound: self.outbound@,
            inbound: self.inbound@,
            encoded: self.encoded@,
            highlight: self.highlight@,
            reset: self.reset@,
        }
    }
}

impl ThemeCodes {
    /// Every code is that of its role in a palette, and the reset code ends it.
    pub open spec fn is_of(self, palette: Map<Seq<char>, Seq<char>>) -> bool {
        &&& role_code(palette, "acid_green"@) == Some(self.outbound)
        &&& role_code(palette, "cyan"@) == Some(self.inbound)
        &&& role_code(palette, "purple"@) == Some(self.encoded)
        &&& role_code(palette, "red"@) == Some(self.highlight)
        &&& self.reset == "\u{1b}[0m"@
    }

    /// The codes are those of some theme: all of the same one.
    pub open spec fn is_colored(self) -> bool {
        exists|theme: Seq<char>| self.is_of(#[trigger] theme_palette(theme))
    }

    /// No codes at all.
    pub open spec fn none() -> ThemeCodes {
        ThemeCodes {
            outbound: seq![],
            inbound: seq![],
            encoded: seq![],
            highlight: seq![],
            reset: seq![],
        }
    }

    /// The code of a direction.
    pub open spec fn direction_code(self, direction: Direction) -> Seq<char> {
        match direction {
            Direction::Outbound => self.outbound,
            Direction::Inbound => self.inbound,
        }
    }
}

impl Theme {
    /// The theme that the environment picks: outbound reads as going and active,
    /// inbound as arriving and informational.
    pub fn current() -> (theme: Self)
        ensures
            theme@.is_colored(),
    {
        let codes = role_codes();
        let ghost named = codes;
        let theme = Theme {
            outbound: codes.acid_green,
            inbound: codes.cyan,
            encoded: codes.purple,
            highlight: codes.red,
            reset: reset().to_owned(),
        };
        proof {
            let picked = choose|picked: Seq<char>| named.is_of(#[trigger] theme_palette(picked));
            assert(theme@.is_of(theme_palette(picked)));
        }
        theme
    }

    /// The theme without colors.
    pub fn none() -> (theme: Self)
        ensures
            theme@ == ThemeCodes::none(),
    {
        let theme = Theme {
            outbound: String::new(),
            inbound: String::new(),
            encoded: String::new(),
            highlight: String::new(),
            reset: String::new(),
        };
        proof {
            let codes = theme@;
            assert(codes.outbound =~= seq![]);
            assert(codes.inbound =~= seq![]);
            assert(codes.encoded =~= seq![]);
            assert(codes.highlight =~= seq![]);
            assert(codes.reset =~= seq![]);
        }
        theme
    }

    /// The code of a direction.
    pub fn direction_color(&self, direction: Direction) -> (code: &str)
        ensures
            code@ == self@.direction_code(direction),
    {
        match direction {
            Direction::Outbound => self.outbound.as_str(),
            Direction::Inbound => self.inbound.as_str(),
        }
    }
}

// ---------------------------------------------------------------------------
// Laws
// ---------------------------------------------------------------------------

/// The codes of a palette: outbound is its acid green, inbound its cyan, base64 its
/// purple and a match its red, each as the code of that color in 24 bits.
pub proof fn every_role_has_its_color(
    codes: ThemeCodes,
    palette: Map<Seq<char>, Seq<char>>,
    role: int,
    r: u8,
    g: u8,
    b: u8,
)
    requires
        codes.is_of(palette),
        0 <= role < 4,
        ({
            let name = seq!["acid_green"@, "cyan"@, "purple"@, "red"@][role];
            palette.contains_key(name) && hex_color(encode_utf8(palette[name])) == Some(
                Color::Rgb(r, g, b),
            )
        }),
    ensures
        seq![codes.outbound, codes.inbound, codes.encoded, codes.highlight][role]
            == "\u{1b}[38;2;"@ + decimal_text(r as nat) + ";"@ + decimal_text(g as nat) + ";"@
            + decimal_text(b as nat) + "m"@,
        codes.reset == "\u{1b}[0m"@,
        codes.direction_code(Direction::Outbound) == codes.outbound,
        codes.direction_code(Direction::Inbound) == codes.inbound,
{
}

} // verus!
