//! Where the configuration is looked for, and what is said about it.

use vstd::prelude::*;

use crate::stats::StatsSnapshot;
use crate::text::{chars_of, decimal_text, push_decimal, str_eq, string_of, text_of};

verus! {

// ---------------------------------------------------------------------------
// Paths
// ---------------------------------------------------------------------------

/// One path behind another: an absolute path stands for itself, and there is one
/// slash between the two parts of any other.
pub open spec fn joined(base: Seq<char>, rest: Seq<char>) -> Seq<char> {
    if rest.len() > 0 && rest[0] == '/' {
        rest
    } else if base.len() == 0 || base.last() == '/' {
        base + rest
    } else {
        base + seq!['/'] + rest
    }
}

/// One path behind another.
pub fn join_path(base: &str, rest: &str) -> (path: String)
    ensures
        path@ == joined(base@, rest@),
{
    let base_chars = chars_of(base);
    let rest_chars = chars_of(rest);
    if rest_chars.len() > 0 && rest_chars[0] == '/' {
        return rest.to_owned();
    }
    let mut path = base.to_owned();
    if base_chars.len() > 0 && base_chars[base_chars.len() - 1] != '/' {
        path.push('/');
    }
    path.append(rest);
    proof {
        assert(base@.push('/') + rest@ =~= base@ + seq!['/'] + rest@);
    }
    path
}

/// A path with a leading `~/` in the home directory, where that is known.
pub open spec fn expanded(path: Seq<char>, home: Option<Seq<char>>) -> Seq<char> {
    if path.len() >= 2 && path[0] == '~' && path[1] == '/' {
        match home {
            Some(home) => joined(home, path.skip(2)),
            None => path,
        }
    } else {
        path
    }
}

/// The text of an optional string.
pub open spec fn str_text(s: Option<&str>) -> Option<Seq<char>> {
    match s {
        Some(s) => Some(s@),
        None => None,
    }
}

/// The path with a leading `~/` in the home directory.
pub fn expand_home(path: &str, home: Option<&str>) -> (out: String)
    ensures
        out@ == expanded(path@, str_text(home)),
{
    let chars = chars_of(path);
    if chars.len() >= 2 && chars[0] == '~' && chars[1] == '/' {
        if let Some(home) = home {
            let rest = vstd::slice::slice_subrange(chars.as_slice(), 2, chars.len());
            assert(rest@ =~= path@.skip(2));
            return join_path(home, string_of(rest).as_str());
        }
    }
    path.to_owned()
}

/// The texts of a list of strings.
pub open spec fn texts(strings: Seq<String>) -> Seq<Seq<char>> {
    strings.map_values(|s: String| s@)
}

/// The configuration file under a configuration directory.
pub open spec fn config_in(dir: Seq<char>) -> Seq<char> {
    joined(joined(dir, "wraithflow"@), "config.toml"@)
}

/// Where a configuration is looked for, in order: under `$XDG_CONFIG_HOME`, under
/// `~/.config`, and in the working directory.
pub open spec fn candidates(xdg: Option<Seq<char>>, home: Option<Seq<char>>) -> Seq<Seq<char>> {
    let under_xdg = match xdg {
        Some(dir) => seq![config_in(dir)],
        None => seq![],
    };
    let under_home = match home {
        Some(dir) => seq![config_in(joined(dir, ".config"@))],
        None => seq![],
    };
    under_xdg + under_home + seq!["config.toml"@, "config.json"@]
}

fn config_under(dir: &str) -> (path: String)
    ensures
        path@ == config_in(dir@),
{
    let dir = join_path(dir, "wraithflow");
    join_path(dir.as_str(), "config.toml")
}

/// Where a configuration is looked for, in order.
pub fn config_candidates(xdg: Option<&str>, home: Option<&str>) -> (paths: Vec<String>)
    ensures
        texts(paths@) == candidates(str_text(xdg), str_text(home)),
{
    let mut paths: Vec<String> = Vec::new();
    if let Some(dir) = xdg {
        paths.push(config_under(dir));
    }
    if let Some(dir) = home {
        let dir = join_path(dir, ".config");
        paths.push(config_under(dir.as_str()));
    }
    paths.push("config.toml".to_owned());
    paths.push("config.json".to_owned());
    assert(texts(paths@) =~= candidates(str_text(xdg), str_text(home)));
    paths
}

/// The first of the paths that exists.
pub open spec fn first_existing(paths: Seq<Seq<char>>, present: Seq<bool>) -> Option<Seq<char>>
    decreases paths.len(),
{
    if paths.len() == 0 {
        None
    } else if present[0] {
        Some(paths[0])
    } else {
        first_existing(paths.drop_first(), present.drop_first())
    }
}

/// The first of the paths that exists.
fn pick_existing(paths: &[String], present: &[bool]) -> (path: Option<String>)
    requires
        present@.len() == paths@.len(),
    ensures
        text_of(path) == first_existing(texts(paths@), present@),
{
    let ghost all = texts(paths@);
    let mut i: usize = 0;
    proof {
        assert(all.skip(0) =~= all);
        assert(present@.skip(0) =~= present@);
    }
    while i < paths.len()
        invariant
            present@.len() == paths@.len(),
            all == texts(paths@),
            i <= paths@.len(),
            first_existing(all.skip(i as int), present@.skip(i as int)) == first_existing(
                all,
                present@,
            ),
        decreases paths.len() - i,
    {
        proof {
            assert(all.skip(i as int)[0] == paths@[i as int]@);
            assert(all.skip(i as int).drop_first() =~= all.skip(i + 1));
            assert(present@.skip(i as int).drop_first() =~= present@.skip(i + 1));
        }
        if present[i] {
            return Some(paths[i].clone());
        }
        i += 1;
    }
    None
}

/// The configuration to load: the one asked for, or the first candidate that
/// exists.
pub fn choose_config(asked: Option<String>, paths: &[String], present: &[bool]) -> (path: Option<
    String,
>)
    requires
        present@.len() == paths@.len(),
    ensures
        text_of(path) == (match asked {
            Some(asked) => Some(asked@),
            None => first_existing(texts(paths@), present@),
        }),
{
    match asked {
        Some(asked) => Some(asked),
        None => pick_existing(paths, present),
    }
}

/// The path that is chosen exists, and no candidate in front of it does.
pub proof fn the_first_existing_path_wins(paths: Seq<Seq<char>>, present: Seq<bool>)
    requires
        present.len() == paths.len(),
    ensures
        match first_existing(paths, present) {
            Some(path) => exists|i: int|
                0 <= i < paths.len() && #[trigger] paths[i] == path && present[i] && forall|k: int|
                    0 <= k < i ==> !#[trigger] present[k],
            None => forall|k: int| 0 <= k < paths.len() ==> !#[trigger] present[k],
        },
    decreases paths.len(),
{
    if paths.len() > 0 {
        let rest = present.drop_first();
        the_first_existing_path_wins(paths.drop_first(), rest);
        if present[0] {
            assert(paths[0] == first_existing(paths, present)->0);
        } else {
            match first_existing(paths, present) {
                Some(path) => {
                    let i = choose|i: int|
                        0 <= i < paths.len() - 1 && #[trigger] paths.drop_first()[i] == path
                            && rest[i] && forall|k: int| 0 <= k < i ==> !#[trigger] rest[k];
                    assert(paths[i + 1] == path && present[i + 1]);
                    assert forall|k: int| 0 <= k < i + 1 implies !#[trigger] present[k] by {
                        if k > 0 {
                            assert(rest[k - 1] == present[k]);
                        }
                    }
                },
                None => {
                    assert forall|k: int| 0 <= k < paths.len() implies !#[trigger] present[k] by {
                        if k > 0 {
                            assert(rest[k - 1] == present[k]);
                        }
                    }
                },
            }
        }
    }
}

/// The languages in which a configuration can be written.
#[derive(Debug, Clone, Copy, PartialEq, Eq, Structural)]
pub enum ConfigLanguage {
    Toml,
    Json,
}

/// The language of a configuration file, by the extension of its name: JSON for
/// `json`, TOML for anything else.
pub fn config_language(extension: Option<&str>) -> (language: ConfigLanguage)
    ensures
        language == (if str_text(extension) == Some("json"@) {
            ConfigLanguage::Json
        } else {
            ConfigLanguage::Toml
        }),
{
    match extension {
        Some(extension) => if str_eq(extension, "json") {
            ConfigLanguage::Json
        } else {
            ConfigLanguage::Toml
        },
        None => ConfigLanguage::Toml,
    }
}

// ---------------------------------------------------------------------------
// Messages
// ---------------------------------------------------------------------------

/// The summary of one pipeline.
pub open spec fn stats_line_text(name: Seq<char>, snap: StatsSnapshot) -> Seq<char> {
    "\u{1b}[34m[STATS]\u{1b}[0m "@ + name + " — active="@ + decimal_text(
        snap.connections_active as nat,
    ) + " total="@ + decimal_text(snap.connections_total as nat) + " in="@ + decimal_text(
        snap.bytes_in as nat,
    ) + "B out="@ + decimal_text(snap.bytes_out as nat) + "B errors="@ + decimal_text(
        snap.errors_total as nat,
    )
}

/// The summary of one pipeline.
pub fn stats_line(name: &str, snap: &StatsSnapshot) -> (line: String)
    ensures
        line@ == stats_line_text(name@, *snap),
{
    let mut line = "\u{1b}[34m[STATS]\u{1b}[0m ".to_owned();
    line.append(name);
    line.append(" — active=");
    push_decimal(&mut line, snap.connections_active);
    line.append(" total=");
    push_decimal(&mut line, snap.connections_total);
    line.append(" in=");
    push_decimal(&mut line, snap.bytes_in);
    line.append("B out=");
    push_decimal(&mut line, snap.bytes_out);
    line.append("B errors=");
    push_decimal(&mut line, snap.errors_total);
    line
}

/// What is said when the pipelines start.
pub fn spawning_line(enabled: usize, disabled: usize) -> (line: String)
    ensures
        line@ == "\u{1b}[35m[Configuration Processed]\u{1b}[0m Spawning "@ + decimal_text(
            enabled as nat,
        ) + " independent pipelines ("@ + decimal_text(disabled as nat) + " disabled)..."@,
{
    let mut line = "\u{1b}[35m[Configuration Processed]\u{1b}[0m Spawning ".to_owned();
    push_decimal(&mut line, enabled as u64);
    line.append(" independent pipelines (");
    push_decimal(&mut line, disabled as u64);
    line.append(" disabled)...");
    line
}

// ---------------------------------------------------------------------------
// Laws
// ---------------------------------------------------------------------------

/// Joining puts one slash between two paths, and none where the first is empty or ends in
/// one; an absolute path replaces the first.
pub proof fn paths_are_joined_with_one_slash(base: Seq<char>, rest: Seq<char>)
    ensures
        joined(base, seq!['/'] + rest) == seq!['/'] + rest,
        joined(base, seq![]) == (if base.len() == 0 || base.last() == '/' {
            base
        } else {
            base.push('/')
        }),
        rest.len() > 0 && rest[0] != '/' ==> {
            &&& joined(seq![], rest) == rest
            &&& joined(base.push('/'), rest) == base.push('/') + rest
            &&& base.len() > 0 && base.last() != '/' ==> joined(base, rest) == joined(
                base.push('/'),
                rest,
            )
        },
{
    assert((seq!['/'] + rest)[0] == '/');
    assert(base + seq![] =~= base);
    assert(base + seq!['/'] + seq![] =~= base.push('/'));
    assert(seq![] + rest =~= rest);
    assert(base + seq!['/'] + rest =~= base.push('/') + rest);
}

/// A tilde and a slash in front stand for the home directory; every other path, and every
/// path where no home is known, stays as it is.
pub proof fn a_tilde_stands_for_the_home(path: Seq<char>, home: Seq<char>)
    ensures
        home.len() > 0 && home.last() != '/' && (path.len() == 0 || path[0] != '/') ==> expanded(
            seq!['~', '/'] + path,
            Some(home),
        ) == home + seq!['/'] + path,
        expanded(path, None) == path,
        !(path.len() >= 2 && path[0] == '~' && path[1] == '/') ==> expanded(path, Some(home))
            == path,
{
    assert((seq!['~', '/'] + path).skip(2) =~= path);
}

/// A configuration is looked for under the configuration directory, then in `.config`
/// under the home directory, then as TOML and as JSON in the working directory; a
/// directory that is not known is left out.
pub proof fn configurations_are_looked_for_in_order(xdg: Seq<char>, home: Seq<char>)
    requires
        xdg.len() > 0 && xdg.last() != '/',
        home.len() > 0 && home.last() != '/',
    ensures
        candidates(Some(xdg), Some(home)) == seq![
            xdg + "/wraithflow/config.toml"@,
            home + "/.config/wraithflow/config.toml"@,
            "config.toml"@,
            "config.json"@,
        ],
        candidates(Some(xdg), None) == seq![
            xdg + "/wraithflow/config.toml"@,
            "config.toml"@,
            "config.json"@,
        ],
        candidates(None, Some(home)) == seq![
            home + "/.config/wraithflow/config.toml"@,
            "config.toml"@,
            "config.json"@,
        ],
        candidates(None, None) == seq!["config.toml"@, "config.json"@],
{
    reveal_strlit("wraithflow");
    reveal_strlit("config.toml");
    reveal_strlit(".config");
    reveal_strlit("/wraithflow/config.toml");
    reveal_strlit("/.config/wraithflow/config.toml");
    lemma_config_in(xdg);
    lemma_config_in(joined(home, ".config"@));
    assert(joined(home, ".config"@).last() == 'g');
    assert(joined(home, ".config"@) + "/wraithflow/config.toml"@ =~= home
        + "/.config/wraithflow/config.toml"@);
    assert(candidates(Some(xdg), Some(home)) =~= seq![
        xdg + "/wraithflow/config.toml"@,
        home + "/.config/wraithflow/config.toml"@,
        "config.toml"@,
        "config.json"@,
    ]);
    assert(candidates(Some(xdg), None) =~= seq![
        xdg + "/wraithflow/config.toml"@,
        "config.toml"@,
        "config.json"@,
    ]);
    assert(candidates(None, Some(home)) =~= seq![
        home + "/.config/wraithflow/config.toml"@,
        "config.toml"@,
        "config.json"@,
    ]);
    assert(candidates(None, None) =~= seq!["config.toml"@, "config.json"@]);
}

proof fn lemma_config_in(dir: Seq<char>)
    requires
        dir.len() > 0,
        dir.last() != '/',
    ensures
        config_in(dir) == dir + "/wraithflow/config.toml"@,
{
    reveal_strlit("wraithflow");
    reveal_strlit("config.toml");
    reveal_strlit("/wraithflow/config.toml");
    let under = joined(dir, "wraithflow"@);
    assert(under.last() == 'w');
    assert(config_in(dir) =~= dir + "/wraithflow/config.toml"@);
}

/// The summary of a pipeline shows its name and every counter behind its own word.
pub proof fn a_summary_shows_every_counter(name: Seq<char>, snap: StatsSnapshot)
    ensures
        stats_line_text(name, snap) == "\u{1b}[34m[STATS]\u{1b}[0m "@ + (name + (" — active="@
            + decimal_text(snap.connections_active as nat) + (" total="@ + decimal_text(
            snap.connections_total as nat,
        ) + (" in="@ + decimal_text(snap.bytes_in as nat) + ("B out="@ + decimal_text(
            snap.bytes_out as nat,
        ) + ("B errors="@ + decimal_text(snap.errors_total as nat))))))),
{
    assert(stats_line_text(name, snap) =~= "\u{1b}[34m[STATS]\u{1b}[0m "@ + (name + (" — active="@
        + decimal_text(snap.connections_active as nat) + (" total="@ + decimal_text(
        snap.connections_total as nat,
    ) + (" in="@ + decimal_text(snap.bytes_in as nat) + ("B out="@ + decimal_text(
        snap.bytes_out as nat,
    ) + ("B errors="@ + decimal_text(snap.errors_total as nat))))))));
}

/// The texts of strings are their characters, each in its place.
pub proof fn texts_are_the_strings(strings: Seq<String>, i: int)
    requires
        0 <= i < strings.len(),
    ensures
        texts(strings).len() == strings.len(),
        texts(strings)[i] == strings[i]@,
{
}

} // verus!
