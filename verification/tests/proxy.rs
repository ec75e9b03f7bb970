use std::sync::Arc;
use wraithflow::buffer::BufferPool;
use wraithflow::filter::PacketFilter;
use wraithflow::format::OutputFormat;
use wraithflow::packet::Direction;
use wraithflow::proxy::{
    log_chunk, on_event, on_read, CaptureLog, OutputSpec, PipelineAction, PipelineEvent, ReadStep,
};
use wraithflow::redact::Redactor;
use wraithflow::stats::PipelineStats;

fn raw() -> OutputSpec {
    OutputSpec { format: OutputFormat::Raw, color: false, ..OutputSpec::default() }
}

#[test]
fn the_default_output_is_a_colored_hexdump_of_everything() {
    let output = OutputSpec::default();
    assert!(output.enabled && output.color && !output.pretty);
    assert_eq!(output.format, OutputFormat::Hexdump);
    assert_eq!(output.filter.min_bytes, 0);
    assert!(output.redact.is_empty() && output.highlight.is_empty());
    assert!(output.capture_log.is_none());
}

#[test]
fn a_muted_pipeline_logs_nothing() {
    let mut pool = BufferPool::default();
    let output = OutputSpec { enabled: false, ..raw() };
    assert!(log_chunk("p", Direction::Inbound, b"x", &output, &mut pool).is_none());
    assert_eq!(pool.idle(), 0);
}

#[test]
fn a_chunk_is_redacted_and_rendered() {
    let mut pool = BufferPool::default();
    let output = OutputSpec { redact: Redactor::new(&["pw".to_string()]), ..raw() };
    let entry = log_chunk("p", Direction::Outbound, b"pw=pwd", &output, &mut pool).unwrap();
    assert_eq!(entry.line, "[OUTBOUND] **=**d");
    assert!(entry.record.is_none());
    assert_eq!(pool.idle(), 1);
}

#[test]
fn the_filter_sees_the_real_bytes() {
    let mut pool = BufferPool::default();
    let output = OutputSpec {
        filter: PacketFilter { contains: Some(b"pw".to_vec()), ..Default::default() },
        redact: Redactor::new(&["pw".to_string()]),
        ..raw()
    };
    let entry = log_chunk("p", Direction::Outbound, b"a pw", &output, &mut pool).unwrap();
    assert_eq!(entry.line, "[OUTBOUND] a **");
    assert!(log_chunk("p", Direction::Outbound, b"a **", &output, &mut pool).is_none());
    assert_eq!(pool.idle(), 1);
}

#[test]
fn a_capture_log_gets_one_record_to_a_line() {
    let mut pool = BufferPool::default();
    let output = OutputSpec {
        capture_log: Some(Arc::new(CaptureLog { path: "capture.jsonl".to_string() })),
        redact: Redactor::new(&["pw".to_string()]),
        ..raw()
    };
    let entry = log_chunk("p", Direction::Inbound, b"pw\n", &output, &mut pool).unwrap();
    let record = entry.record.unwrap();
    assert!(record.starts_with("{\"pipeline\":\"p\",\"direction\":\"INBOUND\",\"timestamp\":\""));
    assert!(record.ends_with(",\"length\":3,\"text\":\"**\\n\",\"hex\":\"2a2a0a\"}"));
    assert!(!record.contains('\n'));
}

#[test]
fn an_empty_read_ends_the_session() {
    let mut pool = BufferPool::default();
    let mut stats = PipelineStats::default();
    let step = on_read("p", Direction::Inbound, b"", &raw(), &mut stats, &mut pool);
    assert!(matches!(step, ReadStep::Finished));
    assert_eq!(stats.snapshot().bytes_in, 0);
}

#[test]
fn every_read_is_counted_and_forwarded_as_it_is() {
    let mut pool = BufferPool::default();
    let mut stats = PipelineStats::default();
    let output = OutputSpec { redact: Redactor::new(&["x".to_string()]), ..raw() };
    match on_read("p", Direction::Outbound, b"xyz", &output, &mut stats, &mut pool) {
        ReadStep::Forward { entry, bytes } => {
            assert_eq!(bytes, b"xyz");
            assert_eq!(entry.unwrap().line, "[OUTBOUND] *yz");
        }
        ReadStep::Finished => panic!("the read was not empty"),
    }
    let muted = OutputSpec { enabled: false, ..raw() };
    match on_read("p", Direction::Inbound, b"12345", &muted, &mut stats, &mut pool) {
        ReadStep::Forward { entry, bytes } => {
            assert_eq!(bytes, b"12345");
            assert!(entry.is_none());
        }
        ReadStep::Finished => panic!("the read was not empty"),
    }
    assert_eq!(stats.snapshot().bytes_out, 3);
    assert_eq!(stats.snapshot().bytes_in, 5);
}

#[test]
fn a_stopped_pipeline_starts_no_session_but_lets_open_ones_finish() {
    let mut accepting = true;
    let mut stats = PipelineStats::default();
    let mut take = |event| on_event(&mut accepting, &mut stats, event);
    assert_eq!(take(PipelineEvent::Connected), PipelineAction::StartSession);
    assert_eq!(take(PipelineEvent::Connected), PipelineAction::StartSession);
    assert_eq!(take(PipelineEvent::ShutdownRequested), PipelineAction::Drain);
    assert_eq!(take(PipelineEvent::Connected), PipelineAction::Nothing);
    assert_eq!(take(PipelineEvent::SessionEnded { failed: true }), PipelineAction::Nothing);
    assert_eq!(take(PipelineEvent::ShutdownRequested), PipelineAction::Nothing);
    assert!(!accepting);
    let snap = stats.snapshot();
    assert_eq!(snap.connections_total, 2);
    assert_eq!(snap.connections_active, 1);
    assert_eq!(snap.errors_total, 1);
}

#[test]
fn a_broken_listener_fails_the_pipeline() {
    let mut accepting = true;
    let mut stats = PipelineStats::default();
    assert_eq!(
        on_event(&mut accepting, &mut stats, PipelineEvent::AcceptFailed),
        PipelineAction::Fail
    );
    assert!(!accepting);
}

#[test]
fn counters_follow_a_run_of_pipeline_events() {
    let mut accepting = true;
    let mut stats = PipelineStats::default();
    let events = [
        PipelineEvent::Connected,
        PipelineEvent::Connected,
        PipelineEvent::SessionEnded { failed: true },
        PipelineEvent::Connected,
        PipelineEvent::ShutdownRequested,
        PipelineEvent::Connected,
        PipelineEvent::SessionEnded { failed: false },
    ];
    let mut started = 0;
    for event in events {
        if on_event(&mut accepting, &mut stats, event) == PipelineAction::StartSession {
            started += 1;
        }
    }
    let snap = stats.snapshot();
    assert_eq!(started, 3);
    assert_eq!(snap.connections_total, 3);
    assert_eq!(snap.connections_active, 1);
    assert_eq!(snap.errors_total, 1);
    assert_eq!((snap.bytes_in, snap.bytes_out), (0, 0));
}
