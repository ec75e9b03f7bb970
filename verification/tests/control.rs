use wraithflow::control::{
    command_from_field, control_response, parse_command, respond, stats_request, stats_response,
    Command,
};
use wraithflow::stats::{StatsRegistry, StatsSnapshot};

#[test]
fn parse_command_recognizes_stats() {
    assert_eq!(parse_command(r#"{"cmd":"stats"}"#), Ok(Command::Stats));
}

#[test]
fn parse_command_rejects_an_unknown_command() {
    assert!(parse_command(r#"{"cmd":"reload"}"#).is_err());
}

#[test]
fn parse_command_rejects_missing_cmd_field() {
    assert!(parse_command(r#"{}"#).is_err());
}

#[test]
fn parse_command_rejects_malformed_json() {
    assert!(parse_command("not json").is_err());
}

#[test]
fn refusals_say_what_is_wrong() {
    assert_eq!(
        parse_command(r#"{"cmd":"reload"}"#),
        Err("unknown command: reload".to_string())
    );
    assert_eq!(parse_command("{}"), Err("missing \"cmd\" field".to_string()));
    assert_eq!(parse_command("{\"cmd\":7}"), Err("missing \"cmd\" field".to_string()));
    assert_eq!(parse_command("[1]"), Err("missing \"cmd\" field".to_string()));
    assert_eq!(
        parse_command("not json"),
        Err("invalid JSON: expected ident at line 1 column 2".to_string())
    );
    assert_eq!(
        parse_command(""),
        Err("invalid JSON: EOF while parsing a value at line 1 column 0".to_string())
    );
    assert_eq!(
        command_from_field(Err("why".to_string())),
        Err("invalid JSON: why".to_string())
    );
    assert_eq!(command_from_field(Ok(Some("stats".to_string()))), Ok(Command::Stats));
}

#[test]
fn escaped_command_names_are_decoded() {
    assert_eq!(parse_command("{ \"cmd\" : \"st\\u0061ts\" }"), Ok(Command::Stats));
    assert_eq!(
        parse_command("{\"cmd\":\"a\\n\"}"),
        Err("unknown command: a\n".to_string())
    );
}

#[test]
fn stats_response_includes_every_field_for_every_pipeline() {
    let mut registry = StatsRegistry::new();
    let s = registry.get_or_create("http-traffic-gateway");
    s.bytes_in.fetch_add(10);
    s.bytes_out.fetch_add(20);

    let json = stats_response(&registry.snapshot_all());
    assert!(json.contains("\"name\":\"http-traffic-gateway\""));
    assert!(json.contains("\"bytes_in\":10"));
    assert!(json.contains("\"bytes_out\":20"));
    assert!(json.contains("\"connections_total\":0"));
    assert!(json.contains("\"connections_active\":0"));
    assert!(json.contains("\"errors_total\":0"));
}

#[test]
fn stats_response_with_no_pipelines_is_an_empty_list() {
    assert_eq!(stats_response(&[]), r#"{"pipelines":[]}"#);
}

#[test]
fn rows_stand_in_order_and_so_do_their_fields() {
    let snap = StatsSnapshot {
        bytes_in: 1,
        bytes_out: 2,
        connections_total: 3,
        connections_active: 4,
        errors_total: u64::MAX,
    };
    assert_eq!(
        stats_response(&[("a\"".to_string(), snap), ("b".to_string(), snap)]),
        "{\"pipelines\":[{\"name\":\"a\\\"\",\"bytes_in\":1,\"bytes_out\":2,\
         \"connections_total\":3,\"connections_active\":4,\"errors_total\":18446744073709551615},\
         {\"name\":\"b\",\"bytes_in\":1,\"bytes_out\":2,\"connections_total\":3,\
         \"connections_active\":4,\"errors_total\":18446744073709551615}]}"
    );
}

#[test]
fn a_request_is_answered_with_one_line() {
    let mut registry = StatsRegistry::new();
    registry.get_or_create("test-pipeline").connections_total.fetch_add(1);
    let snapshots = registry.snapshot_all();
    let response = control_response(stats_request(), &snapshots);
    assert!(response.contains("\"name\":\"test-pipeline\""));
    assert!(response.contains("\"connections_total\":1"));
    assert_eq!(response.find('\n'), Some(response.len() - 1));
    assert_eq!(response, control_response("  {\"cmd\":\"stats\"}\r\n", &snapshots));
}

#[test]
fn a_refused_request_is_answered_with_the_error() {
    assert_eq!(
        control_response("{\"cmd\":\"x\\\"y\"}\n", &[]),
        "{\"error\":\"unknown command: x\\\"y\"}\n"
    );
    assert_eq!(
        control_response("{}", &[]),
        "{\"error\":\"missing \\\"cmd\\\" field\"}\n"
    );
    assert_eq!(
        respond(Err("bad".to_string()), &[]),
        "{\"error\":\"bad\"}\n"
    );
    assert_eq!(respond(Ok(Command::Stats), &[]), "{\"pipelines\":[]}\n");
}
