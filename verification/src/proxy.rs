//! What a pipeline does with the traffic that crosses it.

use std::sync::Arc;

use vstd::prelude::*;

use crate::buffer::BufferPool;
use crate::filter::{occurs, PacketFilter};
use crate::format::{
    is_rendering, json_text, record_fields, record_line, render, renderable, OutputFormat,
};
use crate::json::object_text;
use crate::packet::{Direction, Packet};
use crate::redact::{
    redacted, redacted_patterns_never_occur, redaction_only_masks, Redactor, MASK,
};
use crate::stats::{PipelineStats, StatsSnapshot};
use crate::text::text_of;

verus! {

/// A file to which every logged packet is added, one JSON record to a line. All
/// pipelines share one.
#[derive(Debug)]
pub struct CaptureLog {
    pub path: String,
}

/// Everything that controls how a pipeline logs the traffic crossing it.
/// `enabled: false` is the fast path: no packet gets built at all, so a muted
/// pipeline pays no formatting cost per byte.
#[derive(Clone)]
pub struct OutputSpec {
    pub enabled: bool,
    pub format: OutputFormat,
    pub pretty: bool,
    pub color: bool,
    pub filter: PacketFilter,
    /// Applied to bytes that pass `filter`, before rendering, so that what it
    /// masks never reaches the log.
    pub redact: Redactor,
    /// Colors matching substrings, in decoded text and one-line output. Applied
    /// after `redact`, so a highlight pattern cannot un-hide a redacted one.
    pub highlight: Vec<Vec<u8>>,
    /// Where logged packets are captured as well.
    pub capture_log: Option<Arc<CaptureLog>>,
}

impl Default for OutputSpec {
    /// A hexdump in color of everything.
    fn default() -> (spec: Self)
        ensures
            spec.enabled,
            spec.format == OutputFormat::Hexdump,
            !spec.pretty,
            spec.color,
            spec.filter.min_bytes == 0,
            spec.filter.direction is None,
            spec.filter.contains is None,
            spec.redact.patterns() == Seq::<Vec<u8>>::empty(),
            spec.highlight@ == Seq::<Vec<u8>>::empty(),
            spec.capture_log is None,
    {
        OutputSpec {
            enabled: true,
            format: OutputFormat::Hexdump,
            pretty: false,
            color: true,
            filter: PacketFilter::default(),
            redact: Redactor::default(),
            highlight: Vec::new(),
            capture_log: None,
        }
    }
}

impl OutputSpec {
    /// The pipeline logs a chunk with these bytes.
    pub open spec fn logs(&self, direction: Direction, bytes: Seq<u8>) -> bool {
        self.enabled && self.filter.accepts(direction, bytes)
    }
}

/// What is written for one logged chunk: the rendered text, and the record for
/// the capture log where there is one.
pub struct LogEntry {
    pub line: String,
    pub record: Option<String>,
}

/// An entry is what the output asks for of a packet.
pub open spec fn is_entry_of(entry: LogEntry, packet: Packet, output: OutputSpec) -> bool {
    &&& is_rendering(
        entry.line@,
        packet,
        output.format,
        output.pretty,
        output.color,
        output.highlight@,
    )
    &&& text_of(entry.record) == (if output.capture_log is Some {
        Some(object_text(record_fields(packet)))
    } else {
        None
    })
}

/// A packet is the chunk as it goes to the log: the bytes redacted.
pub open spec fn is_logged_packet(
    packet: Packet,
    pipeline: Seq<char>,
    direction: Direction,
    bytes: Seq<u8>,
    output: OutputSpec,
) -> bool {
    &&& packet.pipeline@ == pipeline
    &&& packet.direction == direction
    &&& packet.bytes@ == redacted(bytes, output.redact.patterns())
}

/// A pool after one buffer was borrowed and given back.
pub open spec fn pool_after_use(before: BufferPool, after: BufferPool) -> bool {
    &&& after.wf()
    &&& after.max_idle() == before.max_idle()
    &&& after.buf_size() == before.buf_size()
    &&& after.parked().len() == (if before.parked().len() == 0 && before.max_idle() > 0 {
        1
    } else {
        before.parked().len()
    })
}

/// The entry of a packet.
fn entry_for(packet: &Packet, output: &OutputSpec) -> (entry: LogEntry)
    requires
        renderable(output.format, packet.bytes@.len()),
    ensures
        is_entry_of(entry, *packet, *output),
{
    let line = render(
        packet,
        output.format,
        output.pretty,
        output.color,
        output.highlight.as_slice(),
    );
    let record = match &output.capture_log {
        Some(_) => Some(record_line(packet)),
        None => None,
    };
    LogEntry { line, record }
}

/// Logs one chunk of payload: nothing when the pipeline is muted or the filter,
/// which sees the real bytes, drops it; else the redacted packet, rendered.
pub fn log_chunk(
    pipeline_name: &str,
    direction: Direction,
    bytes: &[u8],
    output: &OutputSpec,
    pool: &mut BufferPool,
) -> (entry: Option<LogEntry>)
    requires
        old(pool).wf(),
        renderable(output.format, bytes@.len()),
    ensures
        entry is Some <==> output.logs(direction, bytes@),
        entry matches Some(entry) ==> exists|packet: Packet|
            is_logged_packet(packet, pipeline_name@, direction, bytes@, *output)
                && #[trigger] is_entry_of(entry, packet, *output),
        !output.enabled ==> *final(pool) == *old(pool),
        output.enabled ==> pool_after_use(*old(pool), *final(pool)),
{
    if !output.enabled {
        return None;
    }
    proof {
        pool.parked_buffers_are_few_and_empty();
        redaction_only_masks(bytes@, output.redact.patterns());
    }
    let mut packet = Packet::pooled(pool, pipeline_name, direction, bytes);
    if !output.filter.matches(&packet) {
        packet.recycle(pool);
        return None;
    }
    if !output.redact.is_empty() {
        output.redact.apply(packet.bytes.as_mut_slice());
    }
    let entry = entry_for(&packet, output);
    packet.recycle(pool);
    Some(entry)
}

/// What is redacted never reaches the log: a pattern that is not empty and holds
/// no `*` occurs nowhere in the packet that is rendered and captured.
pub proof fn redacted_patterns_are_never_logged(
    packet: Packet,
    pipeline: Seq<char>,
    direction: Direction,
    bytes: Seq<u8>,
    output: OutputSpec,
    k: int,
)
    requires
        is_logged_packet(packet, pipeline, direction, bytes, output),
        0 <= k < output.redact.patterns().len(),
        output.redact.patterns()[k]@.len() > 0,
        !output.redact.patterns()[k]@.contains(MASK),
    ensures
        !occurs(packet.bytes@, output.redact.patterns()[k]@),
{
    redacted_patterns_never_occur(bytes, output.redact.patterns(), k);
}

// ---------------------------------------------------------------------------
// Forwarding
// ---------------------------------------------------------------------------

impl StatsSnapshot {
    /// The counters after so many bytes were carried in a direction.
    pub open spec fn carried(self, direction: Direction, n: u64) -> StatsSnapshot {
        match direction {
            Direction::Outbound => StatsSnapshot {
                bytes_out: self.bytes_out.wrapping_add(n),
                ..self
            },
            Direction::Inbound => StatsSnapshot { bytes_in: self.bytes_in.wrapping_add(n), ..self },
        }
    }
}

/// What to do after one read from one side of a connection.
pub enum ReadStep<'a> {
    /// The side is at its end, so the session ends.
    Finished,
    /// Write the entry, if any, to the log, and all of the bytes to the other
    /// side.
    Forward { entry: Option<LogEntry>, bytes: &'a [u8] },
}

/// One read of a session: an empty read ends the session; any other is counted,
/// whether or not it is logged, and forwarded byte for byte, whatever the log
/// masks.
pub fn on_read<'a>(
    pipeline_name: &str,
    direction: Direction,
    bytes: &'a [u8],
    output: &OutputSpec,
    stats: &mut PipelineStats,
    pool: &mut BufferPool,
) -> (step: ReadStep<'a>)
    requires
        old(pool).wf(),
        renderable(output.format, bytes@.len()),
    ensures
        step is Finished <==> bytes@.len() == 0,
        step is Finished ==> *final(pool) == *old(pool) && *final(stats) == *old(stats),
        step matches ReadStep::Forward { entry, bytes: forwarded } ==> {
            &&& forwarded@ == bytes@
            &&& final(stats)@ == old(stats)@.carried(direction, bytes@.len() as u64)
            &&& entry is Some <==> output.logs(direction, bytes@)
            &&& entry matches Some(entry) ==> exists|packet: Packet|
                is_logged_packet(packet, pipeline_name@, direction, bytes@, *output)
                    && #[trigger] is_entry_of(entry, packet, *output)
            &&& !output.enabled ==> *final(pool) == *old(pool)
            &&& output.enabled ==> pool_after_use(*old(pool), *final(pool))
        },
{
    if bytes.len() == 0 {
        return ReadStep::Finished;
    }
    let n: u64 = bytes.len() as u64;
    match direction {
        Direction::Outbound => {
            stats.bytes_out.fetch_add(n);
        },
        Direction::Inbound => {
            stats.bytes_in.fetch_add(n);
        },
    }
    let entry = log_chunk(pipeline_name, direction, bytes, output, pool);
    ReadStep::Forward { entry, bytes }
}

/// The counters after a run of chunks.
pub open spec fn after_chunks(
    start: StatsSnapshot,
    chunks: Seq<(Direction, Seq<u8>)>,
) -> StatsSnapshot
    decreases chunks.len(),
{
    if chunks.len() == 0 {
        start
    } else {
        after_chunks(start, chunks.drop_last()).carried(
            chunks.last().0,
            chunks.last().1.len() as u64,
        )
    }
}

/// All bytes that moved in a direction.
pub open spec fn stream(chunks: Seq<(Direction, Seq<u8>)>, direction: Direction) -> Seq<u8>
    decreases chunks.len(),
{
    if chunks.len() == 0 {
        seq![]
    } else {
        let before = stream(chunks.drop_last(), direction);
        if chunks.last().0 == direction {
            before + chunks.last().1
        } else {
            before
        }
    }
}

/// `bytes_out` is the length of everything that clients sent, and `bytes_in` that
/// of everything that the target sent, as long as the lengths fit.
pub proof fn counters_track_bytes(chunks: Seq<(Direction, Seq<u8>)>)
    requires
        stream(chunks, Direction::Outbound).len() <= u64::MAX,
        stream(chunks, Direction::Inbound).len() <= u64::MAX,
    ensures
        after_chunks(StatsSnapshot::zero(), chunks).bytes_out == stream(
            chunks,
            Direction::Outbound,
        ).len(),
        after_chunks(StatsSnapshot::zero(), chunks).bytes_in == stream(
            chunks,
            Direction::Inbound,
        ).len(),
        after_chunks(StatsSnapshot::zero(), chunks).connections_active == 0,
        after_chunks(StatsSnapshot::zero(), chunks).connections_total == 0,
        after_chunks(StatsSnapshot::zero(), chunks).errors_total == 0,
    decreases chunks.len(),
{
    if chunks.len() > 0 {
        counters_track_bytes(chunks.drop_last());
    }
}

// ---------------------------------------------------------------------------
// Accepting and draining
// ---------------------------------------------------------------------------

/// What happens to a pipeline.
pub enum PipelineEvent {
    /// A client connected.
    Connected,
    /// A session ended, in an error when `failed`.
    SessionEnded { failed: bool },
    /// The listener broke.
    AcceptFailed,
    /// The process is asked to stop.
    ShutdownRequested,
}

/// What a pipeline does about it.
#[derive(Debug, Clone, Copy, PartialEq, Eq, Structural)]
pub enum PipelineAction {
    /// Serve the client.
    StartSession,
    /// Stop accepting and report the failure.
    Fail,
    /// Stop accepting; sessions that are open go on.
    Drain,
    /// Nothing.
    Nothing,
}

/// A pipeline: whether it accepts connections, and its counters.
pub struct PipelineState {
    pub accepting: bool,
    pub stats: StatsSnapshot,
}

/// What becomes of a pipeline, and what it does.
pub open spec fn pipeline_step(state: PipelineState, event: PipelineEvent) -> (
    PipelineState,
    PipelineAction,
) {
    let stopped = PipelineState { accepting: false, ..state };
    match event {
        PipelineEvent::Connected => if state.accepting {
            (
                PipelineState { stats: state.stats.opened(), ..state },
                PipelineAction::StartSession,
            )
        } else {
            (state, PipelineAction::Nothing)
        },
        PipelineEvent::SessionEnded { failed } => (
            PipelineState { stats: state.stats.closed(failed), ..state },
            PipelineAction::Nothing,
        ),
        PipelineEvent::AcceptFailed => (
            stopped,
            if state.accepting {
                PipelineAction::Fail
            } else {
                PipelineAction::Nothing
            },
        ),
        PipelineEvent::ShutdownRequested => (
            stopped,
            if state.accepting {
                PipelineAction::Drain
            } else {
                PipelineAction::Nothing
            },
        ),
    }
}

/// Takes one event.
pub fn on_event(accepting: &mut bool, stats: &mut PipelineStats, event: PipelineEvent) -> (action:
    PipelineAction)
    ensures
        ({
            let before = PipelineState { accepting: *old(accepting), stats: old(stats)@ };
            let (after, wanted) = pipeline_step(before, event);
            &&& *final(accepting) == after.accepting
            &&& final(stats)@ == after.stats
            &&& action == wanted
        }),
{
    match event {
        PipelineEvent::Connected => if *accepting {
            stats.connection_opened();
            PipelineAction::StartSession
        } else {
            PipelineAction::Nothing
        },
        PipelineEvent::SessionEnded { failed } => {
            stats.connection_closed(failed);
            PipelineAction::Nothing
        },
        PipelineEvent::AcceptFailed => {
            let was = *accepting;
            *accepting = false;
            if was {
                PipelineAction::Fail
            } else {
                PipelineAction::Nothing
            }
        },
        PipelineEvent::ShutdownRequested => {
            let was = *accepting;
            *accepting = false;
            if was {
                PipelineAction::Drain
            } else {
                PipelineAction::Nothing
            }
        },
    }
}

/// The pipeline after a run of events.
pub open spec fn pipeline_after(state: PipelineState, events: Seq<PipelineEvent>) -> PipelineState
    decreases events.len(),
{
    if events.len() == 0 {
        state
    } else {
        pipeline_step(pipeline_after(state, events.drop_last()), events.last()).0
    }
}

/// What the pipeline does at the `i`-th event of a run.
pub open spec fn action_at(
    state: PipelineState,
    events: Seq<PipelineEvent>,
    i: int,
) -> PipelineAction {
    pipeline_step(pipeline_after(state, events.take(i)), events[i]).1
}

/// Once a pipeline was asked to stop, or its listener broke, it accepts nothing:
/// no later event starts a session, and the count of connections stays.
pub proof fn no_session_starts_after_shutdown(
    state: PipelineState,
    events: Seq<PipelineEvent>,
    stop: int,
    later: int,
)
    requires
        0 <= stop < later < events.len(),
        events[stop] is ShutdownRequested || events[stop] is AcceptFailed,
    ensures
        action_at(state, events, later) == PipelineAction::Nothing,
        pipeline_after(state, events.take(later + 1)).stats.connections_total == pipeline_after(
            state,
            events.take(stop),
        ).stats.connections_total,
{
    lemma_stays_stopped(state, events, stop, later);
    let before = events.take(later);
    assert(events.take(later + 1).drop_last() =~= before);
    assert(events.take(later + 1).last() == events[later]);
}

proof fn lemma_stays_stopped(
    state: PipelineState,
    events: Seq<PipelineEvent>,
    stop: int,
    later: int,
)
    requires
        0 <= stop < later <= events.len(),
        events[stop] is ShutdownRequested || events[stop] is AcceptFailed,
    ensures
        !pipeline_after(state, events.take(later)).accepting,
        pipeline_after(state, events.take(later)).stats.connections_total == pipeline_after(
            state,
            events.take(stop),
        ).stats.connections_total,
    decreases later,
{
    assert(events.take(later).drop_last() =~= events.take(later - 1));
    assert(events.take(later).last() == events[later - 1]);
    if later > stop + 1 {
        lemma_stays_stopped(state, events, stop, later - 1);
    }
}

/// How many sessions a run of events starts.
pub open spec fn sessions_started(state: PipelineState, events: Seq<PipelineEvent>) -> nat
    decreases events.len(),
{
    if events.len() == 0 {
        0
    } else {
        let before = sessions_started(state, events.drop_last());
        if action_at(state, events, events.len() - 1) == PipelineAction::StartSession {
            before + 1
        } else {
            before
        }
    }
}

/// How many sessions end in a run of events.
pub open spec fn sessions_ended(events: Seq<PipelineEvent>) -> nat {
    events.filter(|e: PipelineEvent| e is SessionEnded).len()
}

/// How many sessions end in an error in a run of events.
pub open spec fn sessions_failed(events: Seq<PipelineEvent>) -> nat {
    events.filter(
        |e: PipelineEvent| e == (PipelineEvent::SessionEnded { failed: true }),
    ).len()
}

/// Over every run of events from zero, `connections_total` is the number of
/// sessions that were started, `connections_active` the number of those that have
/// not ended yet, and `errors_total` the number of those that failed, as long as no
/// session ends that was not started and the counts fit. A client that connects
/// after the pipeline stopped counts nowhere, nor does a listener that breaks.
pub proof fn counters_track_sessions(accepting: bool, events: Seq<PipelineEvent>)
    requires
        ({
            let start = PipelineState { accepting, stats: StatsSnapshot::zero() };
            sessions_ended(events) <= sessions_started(start, events) <= u64::MAX
        }),
    ensures
        ({
            let start = PipelineState { accepting, stats: StatsSnapshot::zero() };
            let stats = pipeline_after(start, events).stats;
            &&& stats.connections_total == sessions_started(start, events)
            &&& stats.connections_active == sessions_started(start, events) - sessions_ended(events)
            &&& stats.errors_total == sessions_failed(events)
            &&& stats.bytes_in == 0
            &&& stats.bytes_out == 0
        }),
{
    let start = PipelineState { accepting, stats: StatsSnapshot::zero() };
    lemma_sessions_modulo(accepting, events);
    let m = 0x1_0000_0000_0000_0000int;
    let open = sessions_started(start, events) - sessions_ended(events);
    assert(sessions_started(start, events) as int % m == sessions_started(start, events));
    assert(open % m == open);
    assert(sessions_failed(events) as int % m == sessions_failed(events));
}

proof fn lemma_sessions_modulo(accepting: bool, events: Seq<PipelineEvent>)
    ensures
        ({
            let m = 0x1_0000_0000_0000_0000int;
            let start = PipelineState { accepting, stats: StatsSnapshot::zero() };
            let stats = pipeline_after(start, events).stats;
            let started = sessions_started(start, events);
            &&& stats.connections_total == started as int % m
            &&& stats.connections_active == (started - sessions_ended(events)) % m
            &&& stats.errors_total == sessions_failed(events) as int % m
            &&& stats.bytes_in == 0
            &&& stats.bytes_out == 0
            &&& sessions_failed(events) <= sessions_ended(events)
        }),
    decreases events.len(),
{
    reveal(Seq::filter);
    if events.len() > 0 {
        lemma_sessions_modulo(accepting, events.drop_last());
        assert(events.take(events.len() - 1) =~= events.drop_last());
    }
}

/// A request to stop leaves the sessions that are open alone: no counter moves.
pub proof fn shutdown_leaves_sessions_alone(state: PipelineState)
    ensures
        pipeline_step(state, PipelineEvent::ShutdownRequested).0.stats == state.stats,
{
}

/// A session that is open when the pipeline stops can still end and be counted.
pub proof fn open_sessions_end_after_shutdown(state: PipelineState, failed: bool)
    ensures
        ({
            let stopped = pipeline_step(state, PipelineEvent::ShutdownRequested).0;
            let ended = pipeline_step(stopped, PipelineEvent::SessionEnded { failed }).0;
            ended.stats == state.stats.closed(failed)
        }),
{
}

/// Bytes are counted where they go: what clients send moves `bytes_out`, what the target
/// sends moves `bytes_in`, each by the number of bytes, and no other counter moves.
pub proof fn bytes_are_counted_where_they_go(snap: StatsSnapshot, n: u64)
    ensures
        ({
            let m = 0x1_0000_0000_0000_0000int;
            let sent = snap.carried(Direction::Outbound, n);
            let received = snap.carried(Direction::Inbound, n);
            &&& sent.bytes_out == (snap.bytes_out + n) % m
            &&& sent == (StatsSnapshot { bytes_out: sent.bytes_out, ..snap })
            &&& received.bytes_in == (snap.bytes_in + n) % m
            &&& received == (StatsSnapshot { bytes_in: received.bytes_in, ..snap })
        }),
{
}

/// A chunk is logged exactly when the pipeline is not muted and the filter takes the
/// real bytes, whatever is masked of them.
pub proof fn the_filter_sees_the_real_bytes(
    output: OutputSpec,
    direction: Direction,
    bytes: Seq<u8>,
)
    ensures
        !output.enabled ==> !output.logs(direction, bytes),
        output.enabled ==> output.logs(direction, bytes) == output.filter.accepts(
            direction,
            bytes,
        ),
{
}

/// What is logged is the redacted chunk under the pipeline's name and direction: the line
/// in the format of the output, and for the capture log, where there is one, the record
/// of the same packet.
pub proof fn a_logged_chunk_is_redacted(
    entry: LogEntry,
    packet: Packet,
    pipeline: Seq<char>,
    direction: Direction,
    bytes: Seq<u8>,
    output: OutputSpec,
)
    requires
        is_logged_packet(packet, pipeline, direction, bytes, output),
        is_entry_of(entry, packet, output),
    ensures
        packet.pipeline@ == pipeline,
        packet.direction == direction,
        packet.bytes@ == redacted(bytes, output.redact.patterns()),
        packet.bytes@.len() == bytes.len(),
        is_rendering(
            entry.line@,
            packet,
            output.format,
            output.pretty,
            output.color,
            output.highlight@,
        ),
        output.capture_log is None ==> entry.record is None,
        output.capture_log is Some ==> entry.record is Some && entry.record->0@ == json_text(
            packet,
            false,
            false,
            None,
        ),
{
    redaction_only_masks(bytes, output.redact.patterns());
}

/// A pipeline serves every client until it is asked to stop or its listener breaks, which
/// it answers once: by draining, or by failing.
pub proof fn a_pipeline_serves_until_it_stops(
    state: PipelineState,
    events: Seq<PipelineEvent>,
    i: int,
)
    requires
        state.accepting,
        0 <= i < events.len(),
        forall|k: int|
            0 <= k < i ==> (#[trigger] events[k]) is Connected || events[k] is SessionEnded,
    ensures
        events[i] is Connected ==> action_at(state, events, i) == PipelineAction::StartSession,
        events[i] is SessionEnded ==> action_at(state, events, i) == PipelineAction::Nothing,
        events[i] is ShutdownRequested ==> action_at(state, events, i) == PipelineAction::Drain,
        events[i] is AcceptFailed ==> action_at(state, events, i) == PipelineAction::Fail,
{
    lemma_still_accepting(state, events, i);
}

proof fn lemma_still_accepting(state: PipelineState, events: Seq<PipelineEvent>, i: int)
    requires
        state.accepting,
        0 <= i <= events.len(),
        forall|k: int|
            0 <= k < i ==> (#[trigger] events[k]) is Connected || events[k] is SessionEnded,
    ensures
        pipeline_after(state, events.take(i)).accepting,
    decreases i,
{
    if i > 0 {
        lemma_still_accepting(state, events, i - 1);
        assert(events.take(i).drop_last() =~= events.take(i - 1));
        assert(events.take(i).last() == events[i - 1]);
    }
}

/// An event moves the counters of its own connection alone: one that starts a session
/// opens one, one that ends a session closes one, and no other event counts.
pub proof fn events_count_their_own_connection(state: PipelineState, failed: bool)
    ensures
        ({
            let step = |event: PipelineEvent| pipeline_step(state, event).0;
            &&& step(PipelineEvent::Connected).accepting == state.accepting
            &&& step(PipelineEvent::Connected).stats == (if state.accepting {
                state.stats.opened()
            } else {
                state.stats
            })
            &&& step(PipelineEvent::SessionEnded { failed }).accepting == state.accepting
            &&& step(PipelineEvent::SessionEnded { failed }).stats == state.stats.closed(failed)
            &&& step(PipelineEvent::AcceptFailed).stats == state.stats
            &&& !step(PipelineEvent::AcceptFailed).accepting
            &&& step(PipelineEvent::ShutdownRequested).stats == state.stats
            &&& !step(PipelineEvent::ShutdownRequested).accepting
        }),
{
}

/// Logging loses no buffer: a pool comes out of it with as many as it had, or with one
/// where it had none and may keep any.
pub proof fn logging_loses_no_buffer(before: BufferPool, after: BufferPool)
    requires
        pool_after_use(before, after),
    ensures
        before.parked().len() > 0 ==> after.parked().len() == before.parked().len(),
        before.parked().len() == 0 && before.max_idle() > 0 ==> after.parked().len() == 1,
        before.parked().len() == 0 && before.max_idle() == 0 ==> after.parked().len() == 0,
        after.max_idle() == before.max_idle(),
        after.buf_size() == before.buf_size(),
        after.wf(),
{
}

} // verus!
