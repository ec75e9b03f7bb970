use std::sync::Arc;
use wraithflow::admin::{admin_command, exit_code, resolve_admin_action};
use wraithflow::config::{
    count_enabled, default_color, default_enabled, default_format, default_log_payloads,
    default_shutdown_drain_secs, default_stats_interval, resolve_output, validate, AppConfig,
    OutputProfile, ProxyConfig,
};
use wraithflow::format::OutputFormat;
use wraithflow::packet::Direction;
use wraithflow::proxy::CaptureLog;
use wraithflow::startup::{
    choose_config, config_candidates, config_language, expand_home, join_path, spawning_line,
    stats_line, ConfigLanguage,
};
use wraithflow::stats::StatsSnapshot;

fn proxy(name: &str, listen: &str, target: &str) -> ProxyConfig {
    ProxyConfig {
        name: name.to_string(),
        listen: listen.to_string(),
        target: target.to_string(),
        enabled: true,
        log_payloads: true,
        output: None,
    }
}

fn profile(name: &str, format: &str) -> OutputProfile {
    OutputProfile {
        name: name.to_string(),
        format: format.to_string(),
        pretty: false,
        color: false,
        min_bytes: 0,
        direction: None,
        contains: None,
        redact: vec![],
        highlight: vec![],
    }
}

fn config(proxies: Vec<ProxyConfig>, output: Vec<OutputProfile>) -> AppConfig {
    AppConfig {
        proxies,
        output,
        stats_interval_secs: 30,
        control_socket: None,
        shutdown_drain_secs: 8,
        capture_log: None,
    }
}

/// Validates with the ports of the listen addresses that these tests use.
fn check(config: &AppConfig) -> Result<(), String> {
    let ports: Vec<Option<u16>> = config
        .proxies
        .iter()
        .map(|p| match p.listen.as_str() {
            "127.0.0.1:1000" | "0.0.0.0:1000" | "[::1]:1000" => Some(1000),
            "127.0.0.1:1001" => Some(1001),
            "1.2.3.4:5" => Some(5),
            _ => None,
        })
        .collect();
    validate(config, &ports)
}

#[test]
fn resolve_admin_action_maps_each_single_flag() {
    assert_eq!(resolve_admin_action(true, false, false, false), Ok("start"));
    assert_eq!(resolve_admin_action(false, true, false, false), Ok("stop"));
    assert_eq!(
        resolve_admin_action(false, false, true, false),
        Ok("restart")
    );
    assert_eq!(
        resolve_admin_action(false, false, false, true),
        Ok("status")
    );
}

#[test]
fn resolve_admin_action_rejects_no_flags_and_multiple_flags() {
    assert!(resolve_admin_action(false, false, false, false).is_err());
    assert!(resolve_admin_action(true, true, false, false).is_err());
}

#[test]
fn only_changes_to_the_service_need_sudo() {
    let status = admin_command("status");
    assert_eq!(status.program, "systemctl");
    assert_eq!(status.args, vec!["status", "wraithflow"]);
    assert_eq!(status.banner, "[admin] running: systemctl status wraithflow");
    let restart = admin_command("restart");
    assert_eq!(restart.program, "sudo");
    assert_eq!(restart.args, vec!["systemctl", "restart", "wraithflow"]);
    assert_eq!(restart.banner, "[admin] running: sudo systemctl restart wraithflow");
    assert_eq!(exit_code(Some(3)), 3);
    assert_eq!(exit_code(None), 1);
}

#[test]
fn validate_accepts_a_normal_config() {
    let config = config(vec![proxy("a", "127.0.0.1:1000", "127.0.0.1:2000")], vec![]);
    assert!(check(&config).is_ok());
}

#[test]
fn validate_rejects_duplicate_listen_ports_among_enabled_proxies() {
    let config = config(
        vec![
            proxy("a", "127.0.0.1:1000", "127.0.0.1:2000"),
            proxy("b", "127.0.0.1:1000", "127.0.0.1:3000"),
        ],
        vec![],
    );
    assert!(check(&config).is_err());
    assert_eq!(
        check(&config),
        Err("pipelines \"a\" and \"b\" both listen on 127.0.0.1:1000".to_string())
    );
}

#[test]
fn one_port_on_two_hosts_is_a_duplicate() {
    let on = |second: &str| {
        check(&config(
            vec![proxy("a", "127.0.0.1:1000", "t"), proxy("b", second, "t")],
            vec![],
        ))
    };
    assert_eq!(
        on("0.0.0.0:1000"),
        Err("pipelines \"a\" and \"b\" both listen on 0.0.0.0:1000".to_string())
    );
    assert!(on("[::1]:1000").is_err());
    assert!(on("127.0.0.1:1001").is_ok());
}

#[test]
fn validate_ignores_a_disabled_proxy_sharing_a_port() {
    let mut disabled = proxy("b", "127.0.0.1:1000", "127.0.0.1:3000");
    disabled.enabled = false;
    let config = config(
        vec![proxy("a", "127.0.0.1:1000", "127.0.0.1:2000"), disabled],
        vec![],
    );
    assert!(check(&config).is_ok());
}

#[test]
fn validate_rejects_an_invalid_listen_address() {
    let config = config(vec![proxy("a", "not-an-address", "127.0.0.1:2000")], vec![]);
    assert!(check(&config).is_err());
    assert_eq!(
        check(&config),
        Err("pipeline \"a\" has an invalid listen address: not-an-address".to_string())
    );
}

#[test]
fn validate_rejects_a_dangling_output_reference() {
    let mut p = proxy("a", "127.0.0.1:1000", "127.0.0.1:2000");
    p.output = Some("missing".to_string());
    let config = config(vec![p], vec![]);
    assert!(check(&config).is_err());
    assert_eq!(
        check(&config),
        Err("pipeline \"a\" references output profile \"missing\", which doesn't exist".to_string())
    );
}

#[test]
fn validate_rejects_an_unknown_output_format() {
    let config = config(vec![], vec![profile("p", "not-a-format")]);
    assert!(check(&config).is_err());
    assert_eq!(
        check(&config),
        Err("output profile \"p\" has an unknown format \"not-a-format\" (expected hexdump, json, raw, base64, or compact)".to_string())
    );
}

#[test]
fn validate_rejects_an_unknown_direction() {
    let mut p = profile("p", "json");
    p.direction = Some("sideways".to_string());
    let config = config(vec![], vec![p]);
    assert!(check(&config).is_err());
    assert_eq!(
        check(&config),
        Err("output profile \"p\" has an unknown direction \"sideways\" (expected inbound or outbound)".to_string())
    );
}

#[test]
fn an_empty_direction_is_both_directions() {
    let mut prof = profile("p", "json");
    prof.direction = Some("".to_string());
    let mut p = proxy("a", "127.0.0.1:1000", "127.0.0.1:2000");
    p.output = Some("p".to_string());
    let config = config(vec![p], vec![prof]);
    assert!(check(&config).is_ok());
    let output = resolve_output(&config.proxies[0], &config.output, None);
    assert_eq!(output.filter.direction, None);
}

#[test]
fn the_first_problem_is_reported() {
    let mut p = proxy("c", "bad", "t");
    p.output = Some("missing".to_string());
    let config = config(
        vec![proxy("a", "1.2.3.4:5", "t"), proxy("b", "1.2.3.4:5", "t"), p],
        vec![profile("p", "nope")],
    );
    assert_eq!(
        check(&config),
        Err("pipelines \"a\" and \"b\" both listen on 1.2.3.4:5".to_string())
    );
    assert_eq!(check(&AppConfig::default()), Ok(()));
}

#[test]
fn resolve_output_with_no_profile_uses_log_payloads_and_defaults() {
    let mut p = proxy("a", "127.0.0.1:1000", "127.0.0.1:2000");
    p.log_payloads = false;
    let output = resolve_output(&p, &[], None);
    assert!(!output.enabled);
    assert_eq!(output.format, OutputFormat::Hexdump);
}

#[test]
fn resolve_output_maps_a_named_profiles_fields() {
    let mut p = proxy("a", "127.0.0.1:1000", "127.0.0.1:2000");
    p.output = Some("prof".to_string());
    let mut prof = profile("prof", "json");
    prof.pretty = true;
    prof.min_bytes = 10;
    prof.direction = Some("outbound".to_string());
    prof.contains = Some("GET".to_string());

    let output = resolve_output(&p, &[prof], None);
    assert_eq!(output.format, OutputFormat::Json);
    assert!(output.pretty);
    assert_eq!(output.filter.min_bytes, 10);
    assert_eq!(output.filter.direction, Some(Direction::Outbound));
    assert_eq!(output.filter.contains, Some(b"GET".to_vec()));
}

#[test]
fn resolve_output_falls_back_to_both_directions_on_an_unknown_string() {
    let mut p = proxy("a", "127.0.0.1:1000", "127.0.0.1:2000");
    p.output = Some("prof".to_string());
    let mut prof = profile("prof", "json");
    prof.direction = Some("sideways".to_string());

    let output = resolve_output(&p, &[prof], None);
    assert_eq!(output.filter.direction, None);
}

#[test]
fn the_first_profile_of_a_name_is_used_with_its_patterns() {
    let mut p = proxy("a", "127.0.0.1:1000", "127.0.0.1:2000");
    p.output = Some("prof".to_string());
    let mut first = profile("prof", "RAW");
    first.color = true;
    first.redact = vec!["".to_string(), "x".to_string()];
    first.highlight = vec!["y".to_string(), "".to_string()];
    let second = profile("prof", "json");
    let log = Arc::new(CaptureLog { path: "c".to_string() });
    let output = resolve_output(&p, &[profile("other", "json"), first, second], Some(log));
    assert_eq!(output.format, OutputFormat::Raw);
    assert!(output.color);
    assert_eq!(output.highlight, vec![b"y".to_vec()]);
    assert_eq!(output.capture_log.unwrap().path, "c");
    let mut bytes = b"xyx".to_vec();
    output.redact.apply(&mut bytes);
    assert_eq!(bytes, b"*y*");
    assert_eq!(output.filter.contains, None);
}

#[test]
fn defaults_are_the_documented_ones() {
    assert!(default_log_payloads() && default_enabled() && default_color());
    assert_eq!(default_format(), "hexdump");
    assert_eq!(default_stats_interval(), 30);
    assert_eq!(default_shutdown_drain_secs(), 8);
    assert_eq!(AppConfig::default().stats_period(), None);
    assert_eq!(config(vec![], vec![]).stats_period(), Some(30));
}

#[test]
fn enabled_pipelines_are_counted() {
    let mut off = proxy("b", "x", "y");
    off.enabled = false;
    assert_eq!(count_enabled(&[proxy("a", "x", "y"), off, proxy("c", "x", "y")]), 2);
    assert_eq!(count_enabled(&[]), 0);
    assert_eq!(
        spawning_line(2, 1),
        "\u{1b}[35m[Configuration Processed]\u{1b}[0m Spawning 2 independent pipelines (1 disabled)..."
    );
}

#[test]
fn configurations_are_looked_for_in_order() {
    assert_eq!(
        config_candidates(Some("/x"), Some("/home/me")),
        vec![
            "/x/wraithflow/config.toml",
            "/home/me/.config/wraithflow/config.toml",
            "config.toml",
            "config.json"
        ]
    );
    assert_eq!(config_candidates(None, None), vec!["config.toml", "config.json"]);
}

#[test]
fn the_first_configuration_that_exists_is_loaded() {
    let paths = config_candidates(Some("/x/"), None);
    assert_eq!(
        choose_config(None, &paths, &[false, true, true]),
        Some("config.toml".to_string())
    );
    assert_eq!(choose_config(None, &paths, &[false, false, false]), None);
    assert_eq!(
        choose_config(Some("other.toml".to_string()), &paths, &[true, true, true]),
        Some("other.toml".to_string())
    );
    assert_eq!(
        choose_config(None, &paths, &[true, true, true]),
        Some("/x/wraithflow/config.toml".to_string())
    );
}

#[test]
fn paths_join_as_the_platform_joins_them() {
    for base in ["", "/", "/a", "/a/", "a"] {
        for rest in ["", "b", "b/c", "/b"] {
            let wanted = std::path::PathBuf::from(base).join(rest);
            assert_eq!(join_path(base, rest), wanted.to_str().unwrap());
        }
    }
}

#[test]
fn a_leading_tilde_is_the_home_directory() {
    assert_eq!(expand_home("~/log", Some("/home/me")), "/home/me/log");
    assert_eq!(expand_home("~/log", None), "~/log");
    assert_eq!(expand_home("~x/log", Some("/home/me")), "~x/log");
    assert_eq!(expand_home("/log", Some("/home/me")), "/log");
    assert_eq!(expand_home("~", Some("/home/me")), "~");
}

#[test]
fn the_extension_decides_the_language() {
    assert_eq!(config_language(Some("json")), ConfigLanguage::Json);
    assert_eq!(config_language(Some("toml")), ConfigLanguage::Toml);
    assert_eq!(config_language(Some("JSON")), ConfigLanguage::Toml);
    assert_eq!(config_language(None), ConfigLanguage::Toml);
}

#[test]
fn a_summary_holds_every_counter() {
    let snap = StatsSnapshot {
        bytes_in: 10,
        bytes_out: 20,
        connections_total: 5,
        connections_active: 1,
        errors_total: 0,
    };
    assert_eq!(
        stats_line("gate", &snap),
        "\u{1b}[34m[STATS]\u{1b}[0m gate \u{2014} active=1 total=5 in=10B out=20B errors=0"
    );
}
