//! The configuration: what it holds, when it is sound, and what a pipeline makes
//! of it.

use std::sync::Arc;

use vstd::prelude::*;
use vstd::utf8::encode_utf8;

use crate::filter::{occurs, PacketFilter};
use crate::format::{format_named, formats_have_their_names, OutputFormat};
use crate::packet::{Direction, Packet};
use crate::proxy::{is_logged_packet, CaptureLog, OutputSpec};
use crate::redact::{
    configured_strings_never_occur, contents, pattern_bytes, patterns_of, redacted, Redactor, MASK,
};
use crate::text::{ascii_lower_text, is_word, lemma_is_word, str_eq, to_ascii_lowercase};

verus! {

// ---------------------------------------------------------------------------
// The file
// ---------------------------------------------------------------------------

/// Whether a pipeline logs payloads when nothing is said.
pub fn default_log_payloads() -> (b: bool)
    ensures
        b,
{
    true
}

/// Whether a pipeline runs when nothing is said.
pub fn default_enabled() -> (b: bool)
    ensures
        b,
{
    true
}

/// The format of an output profile when nothing is said.
pub fn default_format() -> (s: String)
    ensures
        s@ == "hexdump"@,
{
    "hexdump".to_owned()
}

/// Whether an output profile colors when nothing is said.
pub fn default_color() -> (b: bool)
    ensures
        b,
{
    true
}

/// The seconds between two summaries when nothing is said.
pub fn default_stats_interval() -> (secs: u64)
    ensures
        secs == 30,
{
    30
}

/// The seconds to wait for open sessions on shutdown when nothing is said.
pub fn default_shutdown_drain_secs() -> (secs: u64)
    ensures
        secs == 8,
{
    8
}

/// One pipeline.
#[derive(Debug, Clone)]
pub struct ProxyConfig {
    pub name: String,
    pub listen: String,
    pub target: String,
    pub enabled: bool,
    /// Master switch for payload logging on this pipeline. Leave it off for
    /// anything that carries credentials.
    pub log_payloads: bool,
    /// Name of an output profile. `None` is a plain hexdump with no filter.
    pub output: Option<String>,
}

/// A named formatting and filtering profile, which several pipelines can share.
#[derive(Debug, Clone)]
pub struct OutputProfile {
    pub name: String,
    /// "hexdump", "json", "raw", "base64" or "compact".
    pub format: String,
    /// Pretty-print JSON. Other formats ignore it.
    pub pretty: bool,
    /// Color the output.
    pub color: bool,
    /// Drop packets smaller than this many bytes.
    pub min_bytes: usize,
    /// Only log one direction: "inbound" or "outbound". Absent or empty is both.
    pub direction: Option<String>,
    /// Only log packets whose bytes contain this substring.
    pub contains: Option<String>,
    /// Mask every occurrence of these substrings before logging.
    pub redact: Vec<String>,
    /// Color matches of these substrings, in decoded text and one-line output.
    pub highlight: Vec<String>,
}

/// The whole configuration.
#[derive(Debug)]
pub struct AppConfig {
    pub proxies: Vec<ProxyConfig>,
    pub output: Vec<OutputProfile>,
    /// Seconds between two summaries of each pipeline; 0 turns them off.
    pub stats_interval_secs: u64,
    /// Path of the control socket. Absent turns it off.
    pub control_socket: Option<String>,
    /// Seconds to wait for open sessions on shutdown.
    pub shutdown_drain_secs: u64,
    /// Path of the capture log. Absent turns it off.
    pub capture_log: Option<String>,
}

impl Default for AppConfig {
    /// The configuration with nothing in it.
    fn default() -> (config: Self)
        ensures
            config.proxies@ == Seq::<ProxyConfig>::empty(),
            config.output@ == Seq::<OutputProfile>::empty(),
            config.stats_interval_secs == 0,
            config.control_socket is None,
            config.shutdown_drain_secs == 0,
            config.capture_log is None,
    {
        AppConfig {
            proxies: Vec::new(),
            output: Vec::new(),
            stats_interval_secs: 0,
            control_socket: None,
            shutdown_drain_secs: 0,
            capture_log: None,
        }
    }
}

impl AppConfig {
    /// The seconds between two summaries; `None` where they are turned off.
    pub fn stats_period(&self) -> (secs: Option<u64>)
        ensures
            secs == (if self.stats_interval_secs > 0 {
                Some(self.stats_interval_secs)
            } else {
                None
            }),
    {
        if self.stats_interval_secs > 0 {
            Some(self.stats_interval_secs)
        } else {
            None
        }
    }
}

// ---------------------------------------------------------------------------
// Directions and profiles by name
// ---------------------------------------------------------------------------

/// The direction that a name stands for, in any mix of ASCII cases.
pub open spec fn direction_named(name: Seq<char>) -> Option<Direction> {
    let name = ascii_lower_text(name);
    if name == "inbound"@ {
        Some(Direction::Inbound)
    } else if name == "outbound"@ {
        Some(Direction::Outbound)
    } else {
        None
    }
}

/// The direction that a name stands for.
pub fn parse_direction(name: &str) -> (direction: Option<Direction>)
    ensures
        direction == direction_named(name@),
{
    let name = to_ascii_lowercase(name);
    if str_eq(name.as_str(), "inbound") {
        Some(Direction::Inbound)
    } else if str_eq(name.as_str(), "outbound") {
        Some(Direction::Outbound)
    } else {
        None
    }
}

/// Where the first profile of a name stands.
pub open spec fn profile_index(profiles: Seq<OutputProfile>, name: Seq<char>) -> Option<int>
    decreases profiles.len(),
{
    if profiles.len() == 0 {
        None
    } else {
        match profile_index(profiles.drop_last(), name) {
            Some(i) => Some(i),
            None => if profiles.last().name@ == name {
                Some(profiles.len() - 1)
            } else {
                None
            },
        }
    }
}

proof fn lemma_profile_index(profiles: Seq<OutputProfile>, name: Seq<char>)
    ensures
        match profile_index(profiles, name) {
            Some(i) => 0 <= i < profiles.len() && profiles[i].name@ == name && forall|k: int|
                0 <= k < i ==> (#[trigger] profiles[k]).name@ != name,
            None => forall|k: int|
                0 <= k < profiles.len() ==> (#[trigger] profiles[k]).name@ != name,
        },
    decreases profiles.len(),
{
    if profiles.len() > 0 {
        let rest = profiles.drop_last();
        lemma_profile_index(rest, name);
        match profile_index(rest, name) {
            Some(i) => {
                assert forall|k: int| 0 <= k < i implies (#[trigger] profiles[k]).name@ != name by {
                    assert(rest[k] == profiles[k]);
                }
            },
            None => {
                assert forall|k: int| 0 <= k < rest.len() implies (#[trigger] profiles[k]).name@
                    != name by {
                    assert(rest[k] == profiles[k]);
                }
            },
        }
    }
}

/// The first profile of a name.
fn find_profile(profiles: &[OutputProfile], name: &str) -> (at: Option<usize>)
    ensures
        profile_index(profiles@, name@) == (match at {
            Some(i) => Some(i as int),
            None => None,
        }),
        at matches Some(i) ==> i < profiles@.len(),
{
    let mut i: usize = 0;
    while i < profiles.len()
        invariant
            i <= profiles@.len(),
            profile_index(profiles@.take(i as int), name@) is None,
        decreases profiles.len() - i,
    {
        proof {
            assert(profiles@.take(i + 1).drop_last() =~= profiles@.take(i as int));
        }
        if str_eq(profiles[i].name.as_str(), name) {
            proof {
                lemma_profile_prefix(profiles@, i + 1, name@);
            }
            return Some(i);
        }
        i += 1;
    }
    assert(profiles@.take(profiles@.len() as int) =~= profiles@);
    None
}

proof fn lemma_profile_prefix(profiles: Seq<OutputProfile>, n: int, name: Seq<char>)
    requires
        0 <= n <= profiles.len(),
        profile_index(profiles.take(n), name) is Some,
    ensures
        profile_index(profiles, name) == profile_index(profiles.take(n), name),
    decreases profiles.len(),
{
    if n < profiles.len() {
        assert(profiles.drop_last().take(n) =~= profiles.take(n));
        lemma_profile_prefix(profiles.drop_last(), n, name);
    } else {
        assert(profiles.take(n) =~= profiles);
    }
}

// ---------------------------------------------------------------------------
// Validation
// ---------------------------------------------------------------------------

/// The last of the first `n` pipelines that is enabled and listens on `port`.
pub open spec fn listener_before(
    proxies: Seq<ProxyConfig>,
    ports: Seq<Option<u16>>,
    n: int,
    port: u16,
) -> Option<int>
    decreases n,
{
    if n <= 0 {
        None
    } else if proxies[n - 1].enabled && ports[n - 1] == Some(port) {
        Some(n - 1)
    } else {
        listener_before(proxies, ports, n - 1, port)
    }
}

/// What is wrong with the `i`-th pipeline, given the port of each listen address
/// that is one. A pipeline that is not enabled is never wrong.
pub open spec fn proxy_problem(config: AppConfig, ports: Seq<Option<u16>>, i: int) -> Option<
    Seq<char>,
> {
    let proxy = config.proxies@[i];
    if !proxy.enabled {
        None
    } else if ports[i] is None {
        Some(
            "pipeline \""@ + proxy.name@ + "\" has an invalid listen address: "@ + proxy.listen@,
        )
    } else if let Some(j) = listener_before(config.proxies@, ports, i, ports[i]->0) {
        Some(
            "pipelines \""@ + config.proxies@[j].name@ + "\" and \""@ + proxy.name@
                + "\" both listen on "@ + proxy.listen@,
        )
    } else {
        match proxy.output {
            Some(output) => if profile_index(config.output@, output@) is None {
                Some(
                    "pipeline \""@ + proxy.name@ + "\" references output profile \""@ + output@
                        + "\", which doesn't exist"@,
                )
            } else {
                None
            },
            None => None,
        }
    }
}

/// What is wrong with the first pipeline, among the first `n`, with which
/// something is.
pub open spec fn proxies_problem(config: AppConfig, ports: Seq<Option<u16>>, n: int) -> Option<
    Seq<char>,
>
    decreases n,
{
    if n <= 0 {
        None
    } else {
        match proxies_problem(config, ports, n - 1) {
            Some(problem) => Some(problem),
            None => proxy_problem(config, ports, n - 1),
        }
    }
}

/// A direction of a profile is known: absent, empty, or the name of one.
pub open spec fn direction_ok(direction: Option<String>) -> bool {
    direction matches Some(name) ==> name@.len() == 0 || direction_named(name@) is Some
}

/// What is wrong with a profile.
pub open spec fn profile_problem(profile: OutputProfile) -> Option<Seq<char>> {
    if format_named(profile.format@) is None {
        Some(
            "output profile \""@ + profile.name@ + "\" has an unknown format \""@ + profile.format@
                + "\" (expected hexdump, json, raw, base64, or compact)"@,
        )
    } else if !direction_ok(profile.direction) {
        Some(
            "output profile \""@ + profile.name@ + "\" has an unknown direction \""@
                + profile.direction->0@ + "\" (expected inbound or outbound)"@,
        )
    } else {
        None
    }
}

/// What is wrong with the first profile, among the first `n`, with which
/// something is.
pub open spec fn profiles_problem(profiles: Seq<OutputProfile>, n: int) -> Option<Seq<char>>
    decreases n,
{
    if n <= 0 {
        None
    } else {
        match profiles_problem(profiles, n - 1) {
            Some(problem) => Some(problem),
            None => profile_problem(profiles[n - 1]),
        }
    }
}

/// The first thing that is wrong with a configuration: pipelines come first, in
/// order, and then profiles.
pub open spec fn config_problem(config: AppConfig, ports: Seq<Option<u16>>) -> Option<Seq<char>> {
    match proxies_problem(config, ports, config.proxies@.len() as int) {
        Some(problem) => Some(problem),
        None => profiles_problem(config.output@, config.output@.len() as int),
    }
}

fn find_listener(proxies: &[ProxyConfig], ports: &[Option<u16>], n: usize, port: u16) -> (at: Option<
    usize,
>)
    requires
        n <= proxies@.len(),
        ports@.len() == proxies@.len(),
    ensures
        listener_before(proxies@, ports@, n as int, port) == (match at {
            Some(i) => Some(i as int),
            None => None,
        }),
        at matches Some(i) ==> i < n,
{
    let mut i: usize = n;
    while i > 0
        invariant
            i <= n <= proxies@.len(),
            ports@.len() == proxies@.len(),
            listener_before(proxies@, ports@, i as int, port) == listener_before(
                proxies@,
                ports@,
                n as int,
                port,
            ),
        decreases i,
    {
        if proxies[i - 1].enabled {
            if let Some(taken) = ports[i - 1] {
                if taken == port {
                    return Some(i - 1);
                }
            }
        }
        i -= 1;
    }
    None
}

/// What is wrong with the `i`-th pipeline.
fn check_proxy(config: &AppConfig, ports: &[Option<u16>], i: usize) -> (result: Result<(), String>)
    requires
        i < config.proxies@.len(),
        ports@.len() == config.proxies@.len(),
    ensures
        problem_of(result) == proxy_problem(*config, ports@, i as int),
{
    let proxy = &config.proxies[i];
    if !proxy.enabled {
        return Ok(());
    }
    let port = match ports[i] {
        Some(port) => port,
        None => {
            let mut problem = "pipeline \"".to_owned();
            problem.append(proxy.name.as_str());
            problem.append("\" has an invalid listen address: ");
            problem.append(proxy.listen.as_str());
            return Err(problem);
        },
    };
    if let Some(j) = find_listener(config.proxies.as_slice(), ports, i, port) {
        let mut problem = "pipelines \"".to_owned();
        problem.append(config.proxies[j].name.as_str());
        problem.append("\" and \"");
        problem.append(proxy.name.as_str());
        problem.append("\" both listen on ");
        problem.append(proxy.listen.as_str());
        return Err(problem);
    }
    if let Some(output) = &proxy.output {
        if find_profile(config.output.as_slice(), output.as_str()).is_none() {
            let mut problem = "pipeline \"".to_owned();
            problem.append(proxy.name.as_str());
            problem.append("\" references output profile \"");
            problem.append(output.as_str());
            problem.append("\", which doesn't exist");
            return Err(problem);
        }
    }
    Ok(())
}

/// What is wrong with a profile.
fn check_profile(profile: &OutputProfile) -> (result: Result<(), String>)
    ensures
        problem_of(result) == profile_problem(*profile),
{
    if OutputFormat::parse(profile.format.as_str()).is_none() {
        let mut problem = "output profile \"".to_owned();
        problem.append(profile.name.as_str());
        problem.append("\" has an unknown format \"");
        problem.append(profile.format.as_str());
        problem.append("\" (expected hexdump, json, raw, base64, or compact)");
        return Err(problem);
    }
    if let Some(direction) = &profile.direction {
        if !direction.as_str().is_empty() && parse_direction(direction.as_str()).is_none() {
            let mut problem = "output profile \"".to_owned();
            problem.append(profile.name.as_str());
            problem.append("\" has an unknown direction \"");
            problem.append(direction.as_str());
            problem.append("\" (expected inbound or outbound)");
            return Err(problem);
        }
    }
    Ok(())
}

/// The problem that a check reports.
pub open spec fn problem_of(result: Result<(), String>) -> Option<Seq<char>> {
    match result {
        Ok(_) => None,
        Err(problem) => Some(problem@),
    }
}

/// Fails on the first problem that would otherwise surface one pipeline at a time
/// as an opaque bind error. `ports` holds the port of each pipeline's listen
/// address, and `None` where that is no address.
pub fn validate(config: &AppConfig, ports: &[Option<u16>]) -> (result: Result<(), String>)
    requires
        ports@.len() == config.proxies@.len(),
    ensures
        problem_of(result) == config_problem(*config, ports@),
{
    let mut i: usize = 0;
    while i < config.proxies.len()
        invariant
            ports@.len() == config.proxies@.len(),
            i <= config.proxies@.len(),
            proxies_problem(*config, ports@, i as int) is None,
        decreases config.proxies.len() - i,
    {
        if let Err(problem) = check_proxy(config, ports, i) {
            proof {
                assert(proxies_problem(*config, ports@, i + 1) == Some(problem@));
                lemma_first_proxy_problem(*config, ports@, i + 1, config.proxies@.len() as int);
            }
            return Err(problem);
        }
        i += 1;
    }
    let mut k: usize = 0;
    while k < config.output.len()
        invariant
            proxies_problem(*config, ports@, config.proxies@.len() as int) is None,
            k <= config.output@.len(),
            profiles_problem(config.output@, k as int) is None,
        decreases config.output.len() - k,
    {
        if let Err(problem) = check_profile(&config.output[k]) {
            proof {
                assert(profiles_problem(config.output@, k + 1) == Some(problem@));
                lemma_first_profile_problem(config.output@, k + 1, config.output@.len() as int);
            }
            return Err(problem);
        }
        k += 1;
    }
    Ok(())
}

proof fn lemma_first_proxy_problem(config: AppConfig, ports: Seq<Option<u16>>, m: int, n: int)
    requires
        0 <= m <= n,
        proxies_problem(config, ports, m) is Some,
    ensures
        proxies_problem(config, ports, n) == proxies_problem(config, ports, m),
    decreases n,
{
    if m < n {
        lemma_first_proxy_problem(config, ports, m, n - 1);
    }
}

proof fn lemma_first_profile_problem(profiles: Seq<OutputProfile>, m: int, n: int)
    requires
        0 <= m <= n,
        profiles_problem(profiles, m) is Some,
    ensures
        profiles_problem(profiles, n) == profiles_problem(profiles, m),
    decreases n,
{
    if m < n {
        lemma_first_profile_problem(profiles, m, n - 1);
    }
}

/// A configuration can be run: no two enabled pipelines listen on one port,
/// every enabled pipeline has a proper listen address and an output profile that
/// exists if it names one, and every profile has a known format and direction.
pub open spec fn is_sound(config: AppConfig, ports: Seq<Option<u16>>) -> bool {
    let proxies = config.proxies@;
    &&& forall|i: int, j: int|
        0 <= i < j < proxies.len() && (#[trigger] proxies[i]).enabled && (
        #[trigger] proxies[j]).enabled ==> ports[i] != ports[j]
    &&& forall|i: int|
        0 <= i < proxies.len() && (#[trigger] proxies[i]).enabled ==> ports[i] is Some && (
        proxies[i].output matches Some(name) ==> profile_index(config.output@, name@) is Some)
    &&& forall|k: int|
        0 <= k < config.output@.len() ==> format_named((#[trigger] config.output@[k]).format@) is Some
            && direction_ok(config.output@[k].direction)
}

/// Validation accepts exactly the configurations that can be run.
pub proof fn validation_accepts_sound_configurations(config: AppConfig, ports: Seq<Option<u16>>)
    ensures
        config_problem(config, ports) is None <==> is_sound(config, ports),
{
    let proxies = config.proxies@;
    let n = proxies.len() as int;
    lemma_no_proxy_problem(config, ports, n);
    lemma_no_profile_problem(config.output@, config.output@.len() as int);
    if config_problem(config, ports) is None {
        assert forall|i: int, j: int|
            0 <= i < j < n && (#[trigger] proxies[i]).enabled && (
            #[trigger] proxies[j]).enabled implies ports[i] != ports[j] by {
            assert(proxy_problem(config, ports, j) is None);
            lemma_listener_before(proxies, ports, j, ports[j]->0);
        }
        assert forall|i: int| 0 <= i < n && (#[trigger] proxies[i]).enabled implies ports[i] is Some && (
        proxies[i].output matches Some(name) ==> profile_index(config.output@, name@) is Some) by {
            assert(proxy_problem(config, ports, i) is None);
        }
        assert forall|k: int| 0 <= k < config.output@.len() implies format_named(
            (#[trigger] config.output@[k]).format@,
        ) is Some && direction_ok(config.output@[k].direction) by {
            assert(profile_problem(config.output@[k]) is None);
        }
    }
    if is_sound(config, ports) {
        assert forall|i: int| 0 <= i < n implies #[trigger] proxy_problem(
            config,
            ports,
            i,
        ) is None by {
            lemma_listener_before(proxies, ports, i, ports[i]->0);
        }
        assert forall|k: int| 0 <= k < config.output@.len() implies #[trigger] profile_problem(
            config.output@[k],
        ) is None by {
            assert(direction_ok(config.output@[k].direction));
        }
    }
}

proof fn lemma_listener_before(
    proxies: Seq<ProxyConfig>,
    ports: Seq<Option<u16>>,
    n: int,
    port: u16,
)
    requires
        0 <= n <= proxies.len(),
    ensures
        match listener_before(proxies, ports, n, port) {
            Some(j) => 0 <= j < n && proxies[j].enabled && ports[j] == Some(port),
            None => forall|j: int|
                0 <= j < n && (#[trigger] proxies[j]).enabled ==> ports[j] != Some(port),
        },
    decreases n,
{
    if n > 0 {
        lemma_listener_before(proxies, ports, n - 1, port);
    }
}

proof fn lemma_no_proxy_problem(config: AppConfig, ports: Seq<Option<u16>>, n: int)
    ensures
        proxies_problem(config, ports, n) is None <==> forall|i: int|
            0 <= i < n ==> #[trigger] proxy_problem(config, ports, i) is None,
    decreases n,
{
    if n > 0 {
        lemma_no_proxy_problem(config, ports, n - 1);
    }
}

proof fn lemma_no_profile_problem(profiles: Seq<OutputProfile>, n: int)
    requires
        n <= profiles.len(),
    ensures
        profiles_problem(profiles, n) is None <==> forall|k: int|
            0 <= k < n ==> #[trigger] profile_problem(profiles[k]) is None,
    decreases n,
{
    if n > 0 {
        lemma_no_profile_problem(profiles, n - 1);
    }
}

/// Two enabled pipelines on one port are never accepted, whatever hosts they
/// listen on and whatever else the configuration holds.
pub proof fn duplicate_ports_are_rejected(
    config: AppConfig,
    ports: Seq<Option<u16>>,
    i: int,
    j: int,
)
    requires
        0 <= i < j < config.proxies@.len(),
        config.proxies@[i].enabled,
        config.proxies@[j].enabled,
        ports[i] == ports[j],
    ensures
        config_problem(config, ports) is Some,
{
    validation_accepts_sound_configurations(config, ports);
}

/// Switching off a pipeline of a sound configuration leaves it sound: what is
/// not enabled is never a problem.
pub proof fn disabling_keeps_soundness(
    config: AppConfig,
    other: AppConfig,
    ports: Seq<Option<u16>>,
    i: int,
)
    requires
        is_sound(config, ports),
        0 <= i < config.proxies@.len(),
        other.output == config.output,
        other.proxies@ == config.proxies@.update(
            i,
            ProxyConfig { enabled: false, ..config.proxies@[i] },
        ),
    ensures
        is_sound(other, ports),
{
    let a = config.proxies@;
    let b = other.proxies@;
    assert forall|j: int, k: int|
        0 <= j < k < b.len() && (#[trigger] b[j]).enabled && (
        #[trigger] b[k]).enabled implies ports[j] != ports[k] by {
        assert(b[j] == a[j] && b[k] == a[k]);
    }
    assert forall|j: int| 0 <= j < b.len() && (#[trigger] b[j]).enabled implies ports[j] is Some && (
    b[j].output matches Some(name) ==> profile_index(other.output@, name@) is Some) by {
        assert(b[j] == a[j]);
    }
}

// ---------------------------------------------------------------------------
// What a pipeline runs with
// ---------------------------------------------------------------------------

/// The profile that a pipeline uses.
pub open spec fn profile_for(proxy: ProxyConfig, profiles: Seq<OutputProfile>) -> Option<
    OutputProfile,
> {
    match proxy.output {
        Some(name) => match profile_index(profiles, name@) {
            Some(i) => Some(profiles[i]),
            None => None,
        },
        None => None,
    }
}

/// An output does what a profile says. A format or a direction that is not known
/// falls back to a hexdump and to both directions.
pub open spec fn follows_profile(spec: OutputSpec, profile: OutputProfile) -> bool {
    &&& spec.format == (match format_named(profile.format@) {
        Some(format) => format,
        None => OutputFormat::Hexdump,
    })
    &&& spec.pretty == profile.pretty
    &&& spec.color == profile.color
    &&& spec.filter.min_bytes == profile.min_bytes
    &&& spec.filter.direction == (match profile.direction {
        Some(name) => direction_named(name@),
        None => None,
    })
    &&& match (spec.filter.contains, profile.contains) {
        (Some(needle), Some(text)) => needle@ == encode_utf8(text@),
        (None, None) => true,
        _ => false,
    }
    &&& contents(spec.redact.patterns()) == pattern_bytes(profile.redact@)
    &&& contents(spec.highlight@) == pattern_bytes(profile.highlight@)
}

/// An output is the plain one: a hexdump in color of everything.
pub open spec fn is_plain_output(spec: OutputSpec) -> bool {
    &&& spec.format == OutputFormat::Hexdump
    &&& !spec.pretty
    &&& spec.color
    &&& spec.filter.min_bytes == 0
    &&& spec.filter.direction is None
    &&& spec.filter.contains is None
    &&& spec.redact.patterns().len() == 0
    &&& spec.highlight@.len() == 0
}

/// Turns a named profile, or the absence of one, into what a pipeline runs with.
pub fn resolve_output(
    proxy: &ProxyConfig,
    profiles: &[OutputProfile],
    capture_log: Option<Arc<CaptureLog>>,
) -> (spec: OutputSpec)
    ensures
        spec.enabled == proxy.log_payloads,
        spec.capture_log == capture_log,
        match profile_for(*proxy, profiles@) {
            Some(profile) => follows_profile(spec, profile),
            None => is_plain_output(spec),
        },
{
    let at = match &proxy.output {
        Some(name) => find_profile(profiles, name.as_str()),
        None => None,
    };
    match at {
        None => {
            let mut spec = OutputSpec::default();
            spec.enabled = proxy.log_payloads;
            spec.capture_log = capture_log;
            spec
        },
        Some(i) => {
            let profile = &profiles[i];
            let direction = match &profile.direction {
                Some(name) => parse_direction(name.as_str()),
                None => None,
            };
            let format = match OutputFormat::parse(profile.format.as_str()) {
                Some(format) => format,
                None => OutputFormat::Hexdump,
            };
            let contains = match &profile.contains {
                Some(text) => Some(vstd::slice::slice_to_vec(text.as_str().as_bytes())),
                None => None,
            };
            OutputSpec {
                enabled: proxy.log_payloads,
                format,
                pretty: profile.pretty,
                color: profile.color,
                filter: PacketFilter { min_bytes: profile.min_bytes, direction, contains },
                redact: Redactor::new(profile.redact.as_slice()),
                highlight: patterns_of(profile.highlight.as_slice()),
                capture_log,
            }
        },
    }
}

/// In a sound configuration nothing falls back: a pipeline that names a profile
/// gets it, in the format and the direction that the profile names.
pub proof fn sound_configurations_never_fall_back(
    config: AppConfig,
    ports: Seq<Option<u16>>,
    i: int,
    spec: OutputSpec,
)
    requires
        is_sound(config, ports),
        0 <= i < config.proxies@.len(),
        config.proxies@[i].enabled,
        config.proxies@[i].output is Some,
        match profile_for(config.proxies@[i], config.output@) {
            Some(profile) => follows_profile(spec, profile),
            None => is_plain_output(spec),
        },
    ensures
        ({
            let name = config.proxies@[i].output->0@;
            let profile = profile_for(config.proxies@[i], config.output@);
            &&& profile is Some
            &&& profile->0.name@ == name
            &&& format_named(profile->0.format@) == Some(spec.format)
            &&& profile->0.direction matches Some(d) ==> d@.len() == 0 || (spec.filter.direction
                is Some && spec.filter.direction == direction_named(d@))
        }),
{
    let proxy = config.proxies@[i];
    lemma_profile_index(config.output@, proxy.output->0@);
    let k = profile_index(config.output@, proxy.output->0@)->0;
    assert(format_named(config.output@[k].format@) is Some);
    assert(direction_ok(config.output@[k].direction));
}

/// How many pipelines are enabled.
pub open spec fn enabled_count(proxies: Seq<ProxyConfig>) -> nat {
    proxies.filter(|proxy: ProxyConfig| proxy.enabled).len()
}

/// How many pipelines are enabled.
pub fn count_enabled(proxies: &[ProxyConfig]) -> (n: usize)
    ensures
        n == enabled_count(proxies@),
        n <= proxies@.len(),
{
    let mut n: usize = 0;
    let mut i: usize = 0;
    proof {
        reveal(Seq::filter);
        assert(proxies@.take(0) =~= seq![]);
    }
    while i < proxies.len()
        invariant
            n <= i <= proxies@.len(),
            n == enabled_count(proxies@.take(i as int)),
        decreases proxies.len() - i,
    {
        proof {
            reveal(Seq::filter);
            assert(proxies@.take(i + 1).drop_last() =~= proxies@.take(i as int));
        }
        if proxies[i].enabled {
            n += 1;
        }
        i += 1;
    }
    assert(proxies@.take(proxies@.len() as int) =~= proxies@);
    n
}

// ---------------------------------------------------------------------------
// Laws
// ---------------------------------------------------------------------------

/// A direction is named by its own word, in any mix of cases, its label among them;
/// every other name is refused.
pub proof fn directions_have_their_names(name: Seq<char>, direction: Direction)
    ensures
        direction_named(name) == Some(Direction::Inbound) <==> is_word(
            name,
            "inbound"@,
            "INBOUND"@,
        ),
        direction_named(name) == Some(Direction::Outbound) <==> is_word(
            name,
            "outbound"@,
            "OUTBOUND"@,
        ),
        direction_named(direction.label()) == Some(direction),
        Direction::Inbound.label() == "INBOUND"@,
        Direction::Outbound.label() == "OUTBOUND"@,
{
    reveal_strlit("inbound");
    reveal_strlit("INBOUND");
    reveal_strlit("outbound");
    reveal_strlit("OUTBOUND");
    lemma_is_word(name, "inbound"@, "INBOUND"@);
    lemma_is_word(name, "outbound"@, "OUTBOUND"@);
    lemma_is_word("INBOUND"@, "inbound"@, "INBOUND"@);
    lemma_is_word("OUTBOUND"@, "outbound"@, "OUTBOUND"@);
    assert("inbound"@.len() == 7 && "outbound"@.len() == 8);
}

/// A pipeline gets the first profile of the name that it asks for, and none where no
/// profile has that name or it asks for none.
pub proof fn the_first_profile_of_a_name_is_used(
    proxy: ProxyConfig,
    profiles: Seq<OutputProfile>,
)
    ensures
        match profile_for(proxy, profiles) {
            Some(profile) => proxy.output is Some && exists|i: int|
                0 <= i < profiles.len() && #[trigger] profiles[i] == profile && profile.name@
                    == proxy.output->0@ && forall|k: int|
                    0 <= k < i ==> (#[trigger] profiles[k]).name@ != proxy.output->0@,
            None => proxy.output is None || forall|k: int|
                0 <= k < profiles.len() ==> (#[trigger] profiles[k]).name@ != proxy.output->0@,
        },
{
    if proxy.output is Some {
        lemma_profile_index(profiles, proxy.output->0@);
    }
}

/// What a profile says is what a pipeline does: the format by its name, pretty and
/// color as set, packets filtered by size, direction and content, and every string to
/// mask or to highlight taken over.
pub proof fn a_profile_is_followed(spec: OutputSpec, profile: OutputProfile)
    requires
        follows_profile(spec, profile),
    ensures
        is_word(profile.format@, "hexdump"@, "HEXDUMP"@) ==> spec.format == OutputFormat::Hexdump,
        is_word(profile.format@, "json"@, "JSON"@) ==> spec.format == OutputFormat::Json,
        is_word(profile.format@, "raw"@, "RAW"@) ==> spec.format == OutputFormat::Raw,
        is_word(profile.format@, "base64"@, "BASE64"@) ==> spec.format == OutputFormat::Base64,
        is_word(profile.format@, "compact"@, "COMPACT"@) ==> spec.format == OutputFormat::Compact,
        format_named(profile.format@) is None ==> spec.format == OutputFormat::Hexdump,
        spec.pretty == profile.pretty,
        spec.color == profile.color,
        forall|direction: Direction, bytes: Seq<u8>|
            #![trigger spec.filter.accepts(direction, bytes)]
            spec.filter.accepts(direction, bytes) <==> {
                &&& bytes.len() >= profile.min_bytes
                &&& profile.direction matches Some(name) ==> {
                    &&& is_word(name@, "inbound"@, "INBOUND"@) ==> direction == Direction::Inbound
                    &&& is_word(name@, "outbound"@, "OUTBOUND"@) ==> direction
                        == Direction::Outbound
                }
                &&& profile.contains matches Some(text) ==> occurs(bytes, encode_utf8(text@))
            },
        contents(spec.redact.patterns()) == pattern_bytes(profile.redact@),
        contents(spec.highlight@) == pattern_bytes(profile.highlight@),
{
    formats_have_their_names(profile.format@);
    if let Some(name) = profile.direction {
        directions_have_their_names(name@, Direction::Inbound);
    }
    reveal_strlit("inbound");
    reveal_strlit("outbound");
}

/// A pipeline without a profile logs everything, as a hexdump in color, with nothing
/// masked and nothing highlighted.
pub proof fn a_plain_output_shows_everything(spec: OutputSpec)
    requires
        is_plain_output(spec),
    ensures
        spec.format == OutputFormat::Hexdump,
        spec.color,
        !spec.pretty,
        forall|direction: Direction, bytes: Seq<u8>| #[trigger]
            spec.filter.accepts(direction, bytes),
        forall|bytes: Seq<u8>| #[trigger] redacted(bytes, spec.redact.patterns()) == bytes,
        spec.highlight@.len() == 0,
{
}

/// An enabled pipeline whose listen address is none is never accepted, whatever else
/// the configuration holds.
pub proof fn bad_addresses_are_rejected(config: AppConfig, ports: Seq<Option<u16>>, i: int)
    requires
        0 <= i < config.proxies@.len(),
        config.proxies@[i].enabled,
        ports[i] is None,
    ensures
        config_problem(config, ports) is Some,
{
    validation_accepts_sound_configurations(config, ports);
}

/// An enabled pipeline that asks for a profile which nobody defines is never accepted.
pub proof fn missing_profiles_are_rejected(config: AppConfig, ports: Seq<Option<u16>>, i: int)
    requires
        0 <= i < config.proxies@.len(),
        config.proxies@[i].enabled,
        config.proxies@[i].output is Some,
        forall|k: int|
            0 <= k < config.output@.len() ==> (#[trigger] config.output@[k]).name@
                != config.proxies@[i].output->0@,
    ensures
        config_problem(config, ports) is Some,
{
    validation_accepts_sound_configurations(config, ports);
    lemma_profile_index(config.output@, config.proxies@[i].output->0@);
}

/// A profile whose format or direction is no known word is never accepted, whether or
/// not a pipeline uses it.
pub proof fn unknown_words_are_rejected(config: AppConfig, ports: Seq<Option<u16>>, k: int)
    requires
        0 <= k < config.output@.len(),
        ({
            let profile = config.output@[k];
            ||| format_named(profile.format@) is None
            ||| profile.direction matches Some(name) && name@.len() > 0 && !is_word(
                name@,
                "inbound"@,
                "INBOUND"@,
            ) && !is_word(name@, "outbound"@, "OUTBOUND"@)
        }),
    ensures
        config_problem(config, ports) is Some,
{
    validation_accepts_sound_configurations(config, ports);
    if let Some(name) = config.output@[k].direction {
        directions_have_their_names(name@, Direction::Inbound);
    }
}

/// A configuration in which nothing of that is wrong is accepted.
pub proof fn good_configurations_are_accepted(config: AppConfig, ports: Seq<Option<u16>>)
    requires
        forall|i: int, j: int|
            0 <= i < j < config.proxies@.len() && (#[trigger] config.proxies@[i]).enabled && (
            #[trigger] config.proxies@[j]).enabled ==> ports[i] != ports[j],
        forall|i: int|
            0 <= i < config.proxies@.len() && (#[trigger] config.proxies@[i]).enabled ==> ports[i]
                is Some,
        forall|i: int|
            0 <= i < config.proxies@.len() && (#[trigger] config.proxies@[i]).enabled
                && config.proxies@[i].output is Some ==> exists|k: int|
                0 <= k < config.output@.len() && (#[trigger] config.output@[k]).name@
                    == config.proxies@[i].output->0@,
        forall|k: int|
            0 <= k < config.output@.len() ==> format_named((#[trigger] config.output@[k]).format@)
                is Some,
        forall|k: int|
            0 <= k < config.output@.len() && (#[trigger] config.output@[k]).direction is Some ==> {
                let name = config.output@[k].direction->0@;
                ||| name.len() == 0
                ||| is_word(name, "inbound"@, "INBOUND"@)
                ||| is_word(name, "outbound"@, "OUTBOUND"@)
            },
    ensures
        config_problem(config, ports) is None,
{
    let proxies = config.proxies@;
    assert forall|i: int| 0 <= i < proxies.len() && (#[trigger] proxies[i]).enabled implies ports[i]
        is Some && (proxies[i].output matches Some(name) ==> profile_index(config.output@, name@)
        is Some) by {
        if let Some(name) = proxies[i].output {
            lemma_profile_index(config.output@, name@);
        }
    }
    assert forall|k: int| 0 <= k < config.output@.len() implies format_named(
        (#[trigger] config.output@[k]).format@,
    ) is Some && direction_ok(config.output@[k].direction) by {
        if let Some(name) = config.output@[k].direction {
            directions_have_their_names(name@, Direction::Inbound);
        }
    }
    assert(is_sound(config, ports));
    validation_accepts_sound_configurations(config, ports);
}

/// What is said about an enabled pipeline: that its address is none, else which
/// pipeline in front of it has its port, else that its profile does not exist.
pub proof fn the_problem_of_a_pipeline_is_named(
    config: AppConfig,
    ports: Seq<Option<u16>>,
    i: int,
    j: int,
)
    requires
        0 <= j < i < config.proxies@.len() || j == i && 0 <= i < config.proxies@.len(),
        config.proxies@[i].enabled,
    ensures
        ({
            let proxies = config.proxies@;
            let proxy = proxies[i];
            let problem = proxy_problem(config, ports, i);
            &&& ports[i] is None ==> problem == Some(
                "pipeline \""@ + proxy.name@ + "\" has an invalid listen address: "@ + proxy.listen@,
            )
            &&& ports[i] is Some && j < i && proxies[j].enabled && ports[j] == ports[i] && (
            forall|k: int|
                j < k < i && (#[trigger] proxies[k]).enabled ==> ports[k] != ports[i])
                ==> problem == Some(
                "pipelines \""@ + proxies[j].name@ + "\" and \""@ + proxy.name@
                    + "\" both listen on "@ + proxy.listen@,
            )
            &&& ports[i] is Some && proxy.output is Some && (forall|k: int|
                0 <= k < i && (#[trigger] proxies[k]).enabled ==> ports[k] != ports[i]) && (
            forall|k: int|
                0 <= k < config.output@.len() ==> (#[trigger] config.output@[k]).name@
                    != proxy.output->0@) ==> problem == Some(
                "pipeline \""@ + proxy.name@ + "\" references output profile \""@
                    + proxy.output->0@ + "\", which doesn't exist"@,
            )
        }),
{
    let proxies = config.proxies@;
    if ports[i] is Some {
        lemma_listener_before(proxies, ports, i, ports[i]->0);
        if j < i && proxies[j].enabled && ports[j] == ports[i] {
            if forall|k: int| j < k < i && (#[trigger] proxies[k]).enabled ==> ports[k] != ports[i] {
                lemma_nearest_listener(proxies, ports, i, j, ports[i]->0);
            }
        }
        if proxies[i].output is Some {
            lemma_profile_index(config.output@, proxies[i].output->0@);
        }
    }
}

proof fn lemma_nearest_listener(
    proxies: Seq<ProxyConfig>,
    ports: Seq<Option<u16>>,
    n: int,
    j: int,
    port: u16,
)
    requires
        0 <= j < n <= proxies.len(),
        proxies[j].enabled,
        ports[j] == Some(port),
        forall|k: int| j < k < n && (#[trigger] proxies[k]).enabled ==> ports[k] != Some(port),
    ensures
        listener_before(proxies, ports, n, port) == Some(j),
    decreases n,
{
    if j < n - 1 {
        assert(proxies[n - 1].enabled ==> ports[n - 1] != Some(port));
        lemma_nearest_listener(proxies, ports, n - 1, j, port);
    }
}

/// What is said about a profile: that its format is unknown, else that its direction
/// is.
pub proof fn the_problem_of_a_profile_is_named(profile: OutputProfile)
    ensures
        format_named(profile.format@) is None ==> profile_problem(profile) == Some(
            "output profile \""@ + profile.name@ + "\" has an unknown format \""@
                + profile.format@ + "\" (expected hexdump, json, raw, base64, or compact)"@,
        ),
        format_named(profile.format@) is Some && profile.direction is Some
            && profile.direction->0@.len() > 0 && direction_named(profile.direction->0@) is None
            ==> profile_problem(profile) == Some(
            "output profile \""@ + profile.name@ + "\" has an unknown direction \""@
                + profile.direction->0@ + "\" (expected inbound or outbound)"@,
        ),
{
}

/// The first problem is the one that is reported: of the pipelines in order, and then
/// of the profiles in order.
pub proof fn the_first_problem_is_reported(config: AppConfig, ports: Seq<Option<u16>>, n: int)
    ensures
        0 <= n < config.proxies@.len() && (forall|i: int|
            0 <= i < n ==> #[trigger] proxy_problem(config, ports, i) is None) && proxy_problem(
            config,
            ports,
            n,
        ) is Some ==> config_problem(config, ports) == proxy_problem(config, ports, n),
        0 <= n < config.output@.len() && (forall|i: int|
            0 <= i < config.proxies@.len() ==> #[trigger] proxy_problem(config, ports, i) is None)
            && (forall|k: int|
            0 <= k < n ==> #[trigger] profile_problem(config.output@[k]) is None)
            && profile_problem(config.output@[n]) is Some ==> config_problem(config, ports)
            == profile_problem(config.output@[n]),
{
    let all = config.proxies@.len() as int;
    if 0 <= n < all {
        lemma_no_proxy_problem(config, ports, n);
        if proxies_problem(config, ports, n + 1) is Some {
            lemma_first_proxy_problem(config, ports, n + 1, all);
        }
    }
    lemma_no_proxy_problem(config, ports, all);
    if 0 <= n < config.output@.len() {
        lemma_no_profile_problem(config.output@, n);
        if profiles_problem(config.output@, n + 1) is Some {
            lemma_first_profile_problem(config.output@, n + 1, config.output@.len() as int);
        }
    }
}

/// Every enabled pipeline counts for one, and no other counts.
pub proof fn enabled_pipelines_are_counted(a: Seq<ProxyConfig>, proxy: ProxyConfig)
    ensures
        enabled_count(seq![]) == 0,
        enabled_count(a.push(proxy)) == enabled_count(a) + (if proxy.enabled {
            1nat
        } else {
            0nat
        }),
{
    reveal(Seq::filter);
    assert(a.push(proxy).drop_last() =~= a);
}

/// What a profile masks never reaches the log: of a pipeline that follows the profile, no
/// packet that is rendered or captured holds a string that the profile masks, where that
/// is not empty and holds no `*`.
pub proof fn configured_strings_never_reach_the_log(
    spec: OutputSpec,
    profile: OutputProfile,
    packet: Packet,
    pipeline: Seq<char>,
    direction: Direction,
    bytes: Seq<u8>,
    k: int,
)
    requires
        follows_profile(spec, profile),
        is_logged_packet(packet, pipeline, direction, bytes, spec),
        0 <= k < profile.redact@.len(),
        profile.redact@[k]@.len() > 0,
        !encode_utf8(profile.redact@[k]@).contains(MASK),
    ensures
        !occurs(packet.bytes@, encode_utf8(profile.redact@[k]@)),
{
    configured_strings_never_occur(bytes, spec.redact.patterns(), profile.redact@, k);
}

/// A check that fails says what is wrong in its own words; one that passes says nothing.
pub proof fn a_failed_check_says_what_is_wrong(result: Result<(), String>)
    ensures
        problem_of(result) is Some <==> result is Err,
        result matches Err(message) ==> problem_of(result) == Some(message@),
{
}

} // verus!
