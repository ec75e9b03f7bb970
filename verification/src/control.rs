//! The control socket: one command in, one line of JSON out.

use vstd::prelude::*;

use crate::json::{
    compact_objects_stay_on_one_line, compact_text_determines_the_object, escaped, escaped_char, field_view, fields_of_all,
    fields_text, insert_number, insert_rows, insert_text, is_one_line, is_written, json_fields, new_object,
    object_text, read_compact, reading_gives_the_object_back, single_text, string_field,
    string_field_of, string_text, to_compact, value_text, Json,
};
use crate::stats::StatsSnapshot;
use crate::text::{str_eq, trim, trim_end_text, trim_start_text, trim_text};

verus! {

/// Every supported request.
#[derive(Debug, Clone, Copy, PartialEq, Eq, Structural)]
pub enum Command {
    Stats,
}

/// The command that a request asks for, given the string under `cmd` in it, or
/// why there is none.
pub open spec fn command_of(field: Result<Option<Seq<char>>, Seq<char>>) -> Result<
    Command,
    Seq<char>,
> {
    match field {
        Err(message) => Err("invalid JSON: "@ + message),
        Ok(None) => Err("missing \"cmd\" field"@),
        Ok(Some(name)) => if name == "stats"@ {
            Ok(Command::Stats)
        } else {
            Err("unknown command: "@ + name)
        },
    }
}

/// A command or the text of a refusal.
pub open spec fn command_view(command: Result<Command, String>) -> Result<Command, Seq<char>> {
    match command {
        Ok(command) => Ok(command),
        Err(message) => Err(message@),
    }
}

/// The command that a request asks for, given the string under `cmd` in it.
pub fn command_from_field(field: Result<Option<String>, String>) -> (command: Result<
    Command,
    String,
>)
    ensures
        command_view(command) == command_of(field_view(field)),
{
    match field {
        Err(message) => {
            let mut refusal = "invalid JSON: ".to_owned();
            refusal.append(message.as_str());
            Err(refusal)
        },
        Ok(None) => Err("missing \"cmd\" field".to_owned()),
        Ok(Some(name)) => if str_eq(name.as_str(), "stats") {
            Ok(Command::Stats)
        } else {
            let mut refusal = "unknown command: ".to_owned();
            refusal.append(name.as_str());
            Err(refusal)
        },
    }
}

/// The command that a line asks for.
pub fn parse_command(line: &str) -> (command: Result<Command, String>)
    ensures
        command_view(command) == command_of(string_field_of(line@, "cmd"@)),
        forall|name: Seq<char>|
            line@ == #[trigger] single_text("cmd"@, name) ==> command_view(command) == command_of(
                Ok(Some(name)),
            ),
        line@ == object_text(seq![]) ==> command_view(command) == command_of(Ok(None)),
{
    command_from_field(string_field(line, "cmd"))
}

// ---------------------------------------------------------------------------
// Responses
// ---------------------------------------------------------------------------

/// The counters of one pipeline, as a row of the response.
pub open spec fn pipeline_fields(name: Seq<char>, snap: StatsSnapshot) -> Seq<(Seq<char>, Json)> {
    seq![
        ("name"@, Json::Text(name)),
        ("bytes_in"@, Json::Number(snap.bytes_in)),
        ("bytes_out"@, Json::Number(snap.bytes_out)),
        ("connections_total"@, Json::Number(snap.connections_total)),
        ("connections_active"@, Json::Number(snap.connections_active)),
        ("errors_total"@, Json::Number(snap.errors_total)),
    ]
}

/// The rows of the response, in the order of the snapshots.
pub open spec fn stats_rows(snapshots: Seq<(String, StatsSnapshot)>) -> Seq<
    Seq<(Seq<char>, Json)>,
> {
    snapshots.map_values(|entry: (String, StatsSnapshot)| pipeline_fields(entry.0@, entry.1))
}

/// The response to a request for the counters.
pub open spec fn stats_text(snapshots: Seq<(String, StatsSnapshot)>) -> Seq<char> {
    object_text(seq![("pipelines"@, Json::List(stats_rows(snapshots)))])
}

proof fn lemma_stats_written(snapshots: Seq<(String, StatsSnapshot)>)
    ensures
        is_written(seq![("pipelines"@, Json::List(stats_rows(snapshots)))]),
{
    let rows = stats_rows(snapshots);
    assert forall|k: int| 0 <= k < rows.len() implies is_written(#[trigger] rows[k]) by {
        assert(rows[k] == pipeline_fields(snapshots[k].0@, snapshots[k].1));
    }
}

fn pipeline_object(name: &str, snap: &StatsSnapshot) -> (object: serde_json::Map<
    String,
    serde_json::Value,
>)
    ensures
        json_fields(object) == pipeline_fields(name@, *snap),
{
    proof {
        reveal_strlit("name");
        reveal_strlit("bytes_in");
        reveal_strlit("bytes_out");
        reveal_strlit("connections_total");
        reveal_strlit("connections_active");
        reveal_strlit("errors_total");
        assert("name"@.len() == 4);
        assert("bytes_in"@.len() == 8);
        assert("bytes_out"@.len() == 9);
        assert("connections_total"@.len() == 17);
        assert("connections_active"@.len() == 18);
        assert("errors_total"@.len() == 12);
    }
    let mut object = new_object();
    insert_text(&mut object, "name", name);
    insert_number(&mut object, "bytes_in", snap.bytes_in);
    insert_number(&mut object, "bytes_out", snap.bytes_out);
    insert_number(&mut object, "connections_total", snap.connections_total);
    insert_number(&mut object, "connections_active", snap.connections_active);
    insert_number(&mut object, "errors_total", snap.errors_total);
    assert(json_fields(object) =~= pipeline_fields(name@, *snap));
    object
}

/// The response to a request for the counters: every pipeline with every
/// counter.
pub fn stats_response(snapshots: &[(String, StatsSnapshot)]) -> (response: String)
    ensures
        response@ == stats_text(snapshots@),
{
    let mut rows: Vec<serde_json::Map<String, serde_json::Value>> = Vec::new();
    let mut i: usize = 0;
    while i < snapshots.len()
        invariant
            i <= snapshots@.len(),
            rows@.len() == i,
            forall|k: int|
                0 <= k < i ==> json_fields(#[trigger] rows@[k]) == pipeline_fields(
                    snapshots@[k].0@,
                    snapshots@[k].1,
                ),
        decreases snapshots.len() - i,
    {
        let row = pipeline_object(snapshots[i].0.as_str(), &snapshots[i].1);
        rows.push(row);
        i += 1;
    }
    let mut object = new_object();
    assert(fields_of_all(rows@) =~= stats_rows(snapshots@));
    insert_rows(&mut object, "pipelines", rows);
    assert(json_fields(object) =~= seq![("pipelines"@, Json::List(stats_rows(snapshots@)))]);
    proof {
        lemma_stats_written(snapshots@);
    }
    to_compact(&object)
}

/// The response to a refused request.
fn error_response(message: &str) -> (response: String)
    ensures
        response@ == single_text("error"@, message@),
{
    let mut object = new_object();
    insert_text(&mut object, "error", message);
    assert(json_fields(object) =~= seq![("error"@, Json::Text(message@))]);
    to_compact(&object)
}

/// The line that answers a command or a refusal.
pub open spec fn response_text(
    command: Result<Command, Seq<char>>,
    snapshots: Seq<(String, StatsSnapshot)>,
) -> Seq<char> {
    (match command {
        Ok(Command::Stats) => stats_text(snapshots),
        Err(message) => single_text("error"@, message),
    }).push('\n')
}

/// The line that answers a command or a refusal.
pub fn respond(command: Result<Command, String>, snapshots: &[(String, StatsSnapshot)]) -> (response:
    String)
    ensures
        response@ == response_text(command_view(command), snapshots@),
{
    let mut response = match command {
        Ok(Command::Stats) => stats_response(snapshots),
        Err(message) => error_response(message.as_str()),
    };
    response.push('\n');
    response
}

/// The line that answers a request line, whatever white space stands around it.
pub fn control_response(line: &str, snapshots: &[(String, StatsSnapshot)]) -> (response: String)
    ensures
        response@ == response_text(
            command_of(string_field_of(trim_text(line@), "cmd"@)),
            snapshots@,
        ),
        forall|name: Seq<char>|
            trim_text(line@) == #[trigger] single_text("cmd"@, name) ==> response@
                == response_text(command_of(Ok(Some(name))), snapshots@),
        trim_text(line@) == object_text(seq![]) ==> response@ == response_text(
            command_of(Ok(None)),
            snapshots@,
        ),
{
    let request = trim(line);
    respond(parse_command(request.as_str()), snapshots)
}

/// The line with which a client asks for the counters.
pub open spec fn request_text() -> Seq<char> {
    "{\"cmd\":\"stats\"}\n"@
}

/// The line with which a client asks for the counters.
pub fn stats_request() -> (line: &'static str)
    ensures
        line@ == request_text(),
{
    "{\"cmd\":\"stats\"}\n"
}

// ---------------------------------------------------------------------------
// Laws
// ---------------------------------------------------------------------------

/// Whatever is asked, the answer is one line: nothing below U+0020 in it but the
/// line feed at its end.
pub proof fn every_response_is_one_line(
    command: Result<Command, Seq<char>>,
    snapshots: Seq<(String, StatsSnapshot)>,
)
    ensures
        response_text(command, snapshots).len() > 0,
        response_text(command, snapshots).last() == '\n',
        is_one_line(response_text(command, snapshots).drop_last()),
{
    let response = response_text(command, snapshots);
    match command {
        Ok(Command::Stats) => {
            let fields = seq![("pipelines"@, Json::List(stats_rows(snapshots)))];
            compact_objects_stay_on_one_line(fields);
            assert(response.drop_last() =~= object_text(fields));
        },
        Err(message) => {
            let fields = seq![("error"@, Json::Text(message))];
            compact_objects_stay_on_one_line(fields);
            assert(response.drop_last() =~= object_text(fields));
        },
    }
}

/// A request that names another command, names none, or is not JSON is answered
/// with the error that says so, and never with counters.
pub proof fn other_requests_are_refused(
    name: Seq<char>,
    message: Seq<char>,
    snapshots: Seq<(String, StatsSnapshot)>,
)
    ensures
        name != "stats"@ ==> response_text(command_of(Ok(Some(name))), snapshots) == single_text(
            "error"@,
            "unknown command: "@ + name,
        ).push('\n'),
        response_text(command_of(Ok(None)), snapshots) == single_text(
            "error"@,
            "missing \"cmd\" field"@,
        ).push('\n'),
        response_text(command_of(Err(message)), snapshots) == single_text(
            "error"@,
            "invalid JSON: "@ + message,
        ).push('\n'),
{
}

/// Reading the response gives the list of rows back.
pub proof fn reading_the_stats_gives_the_rows(snapshots: Seq<(String, StatsSnapshot)>)
    ensures
        read_compact(stats_text(snapshots)) == seq![
            ("pipelines"@, Json::List(stats_rows(snapshots))),
        ],
{
    lemma_stats_written(snapshots);
    reading_gives_the_object_back(seq![("pipelines"@, Json::List(stats_rows(snapshots)))]);
}

/// The response tells a client everything: the text determines the rows, their
/// order, their names and every counter.
pub proof fn the_stats_text_determines_the_rows(
    a: Seq<(String, StatsSnapshot)>,
    b: Seq<(String, StatsSnapshot)>,
)
    requires
        stats_text(a) == stats_text(b),
    ensures
        a.len() == b.len(),
        forall|i: int|
            0 <= i < a.len() ==> (#[trigger] a[i]).0@ == b[i].0@ && a[i].1 == b[i].1,
{
    let f = seq![("pipelines"@, Json::List(stats_rows(a)))];
    let g = seq![("pipelines"@, Json::List(stats_rows(b)))];
    lemma_stats_written(a);
    lemma_stats_written(b);
    compact_text_determines_the_object(f, g);
    assert(f[0] == g[0]);
    assert(stats_rows(a) == stats_rows(b));
    assert(stats_rows(a).len() == a.len() && stats_rows(b).len() == b.len());
    assert forall|i: int| 0 <= i < a.len() implies (#[trigger] a[i]).0@ == b[i].0@ && a[i].1
        == b[i].1 by {
        let x = pipeline_fields(a[i].0@, a[i].1);
        let y = pipeline_fields(b[i].0@, b[i].1);
        assert(stats_rows(a)[i] == x && stats_rows(b)[i] == y);
        assert(x[0] == y[0] && x[1] == y[1] && x[2] == y[2]);
        assert(x[3] == y[3] && x[4] == y[4] && x[5] == y[5]);
    }
}

/// The request that clients send asks for the counters, with or without the line
/// feed at its end.
pub proof fn the_request_asks_for_stats()
    ensures
        "{\"cmd\":\"stats\"}"@ == single_text("cmd"@, "stats"@),
        trim_text(request_text()) == single_text("cmd"@, "stats"@),
        command_of(Ok(Some("stats"@))) == Ok::<Command, Seq<char>>(Command::Stats),
{
    reveal_strlit("{\"cmd\":\"stats\"}\n");
    reveal_strlit("{\"cmd\":\"stats\"}");
    reveal_strlit("cmd");
    reveal_strlit("stats");
    let request = request_text();
    let line = request.drop_last();
    assert(request.last() == '\n');
    assert(line.last() == '}');
    assert(request[0] == '{');
    assert(trim_start_text(request) == request);
    assert(trim_end_text(line) == line);
    assert(trim_end_text(request) == line);
    lemma_escaped_cmd();
    lemma_escaped_stats();
    let fields = seq![("cmd"@, Json::Text("stats"@))];
    assert(fields_text(fields) == string_text("cmd"@) + seq![':'] + value_text(
        Json::Text("stats"@),
    ));
    assert(single_text("cmd"@, "stats"@) =~= line);
    assert("{\"cmd\":\"stats\"}"@ =~= line);
}

proof fn lemma_escaped_plain(text: Seq<char>)
    requires
        forall|i: int| 0 <= i < text.len() ==> #[trigger] text[i] as int >= 0x61,
        forall|i: int| 0 <= i < text.len() ==> #[trigger] text[i] as int <= 0x7a,
    ensures
        escaped(text) == text,
    decreases text.len(),
{
    if text.len() > 0 {
        lemma_escaped_plain(text.drop_last());
        assert(escaped_char(text.last()) == seq![text.last()]);
        assert(text.drop_last() + seq![text.last()] =~= text);
    } else {
        assert(text =~= seq![]);
    }
}

proof fn lemma_escaped_cmd()
    ensures
        escaped("cmd"@) == "cmd"@,
{
    reveal_strlit("cmd");
    lemma_escaped_plain("cmd"@);
}

proof fn lemma_escaped_stats()
    ensures
        escaped("stats"@) == "stats"@,
{
    reveal_strlit("stats");
    lemma_escaped_plain("stats"@);
}

/// The answer to a request for the counters, read back: one list, with one row for
/// every pipeline in order, which holds its name and each of its counters under its own
/// key.
pub proof fn the_response_holds_every_counter(snapshots: Seq<(String, StatsSnapshot)>, i: int)
    requires
        0 <= i < snapshots.len(),
    ensures
        ({
            let response = response_text(Ok(Command::Stats), snapshots);
            let fields = read_compact(response.drop_last());
            let rows = fields[0].1->List_0;
            let name = snapshots[i].0@;
            let snap = snapshots[i].1;
            &&& response.last() == '\n'
            &&& fields.len() == 1
            &&& fields[0].0 == "pipelines"@
            &&& fields[0].1 is List
            &&& rows.len() == snapshots.len()
            &&& rows[i] == seq![
                ("name"@, Json::Text(name)),
                ("bytes_in"@, Json::Number(snap.bytes_in)),
                ("bytes_out"@, Json::Number(snap.bytes_out)),
                ("connections_total"@, Json::Number(snap.connections_total)),
                ("connections_active"@, Json::Number(snap.connections_active)),
                ("errors_total"@, Json::Number(snap.errors_total)),
            ]
        }),
{
    let response = response_text(Ok(Command::Stats), snapshots);
    assert(response.drop_last() =~= stats_text(snapshots));
    reading_the_stats_gives_the_rows(snapshots);
    assert(stats_rows(snapshots)[i] == pipeline_fields(snapshots[i].0@, snapshots[i].1));
}

/// Without pipelines the list is empty.
pub proof fn no_pipelines_give_no_rows()
    ensures
        read_compact(response_text(Ok(Command::Stats), seq![]).drop_last()) == seq![
            ("pipelines"@, Json::List(seq![])),
        ],
{
    let none = Seq::<(String, StatsSnapshot)>::empty();
    let response = response_text(Ok(Command::Stats), none);
    assert(response.drop_last() =~= stats_text(none));
    reading_the_stats_gives_the_rows(none);
    assert(stats_rows(none) =~= seq![]);
}

/// A refusal, read back, is one message under `error`.
pub proof fn a_refusal_says_why(message: Seq<char>, snapshots: Seq<(String, StatsSnapshot)>)
    ensures
        ({
            let response = response_text(Err(message), snapshots);
            &&& response.last() == '\n'
            &&& read_compact(response.drop_last()) == seq![("error"@, Json::Text(message))]
        }),
{
    let response = response_text(Err(message), snapshots);
    let fields = seq![("error"@, Json::Text(message))];
    assert(response.drop_last() =~= object_text(fields));
    reading_gives_the_object_back(fields);
}

/// The counters are owed to exactly one command, whatever else a request asks for.
pub proof fn only_stats_is_a_command(name: Seq<char>, message: Seq<char>)
    ensures
        command_of(Ok(Some(name))) is Ok <==> name == "stats"@,
        command_of(Ok(None)) is Err,
        command_of(Err(message)) is Err,
{
}

/// A command or a refusal is seen as it is.
pub proof fn a_command_is_seen_as_it_is(command: Result<Command, String>)
    ensures
        command matches Ok(c) ==> command_view(command) == Ok::<Command, Seq<char>>(c),
        command matches Err(m) ==> command_view(command) == Err::<Command, Seq<char>>(m@),
{
}

} // verus!
