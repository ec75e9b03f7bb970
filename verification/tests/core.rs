use wraithflow::buffer::BufferPool;
use wraithflow::packet::{Direction, Packet, Timestamp};
use wraithflow::stats::{PipelineStats, StatsRegistry, StatsSnapshot};

#[test]
fn acquire_on_an_empty_pool_allocates_fresh_with_the_configured_capacity() {
    let mut pool = BufferPool::new(128, 4);
    let buf = pool.acquire();
    assert!(buf.is_empty());
    assert!(buf.capacity() >= 128);
}

#[test]
fn release_then_acquire_reuses_the_same_buffer() {
    let mut pool = BufferPool::new(64, 4);
    let buf = pool.acquire();
    let ptr = buf.as_ptr();
    pool.release(buf);

    let reused = pool.acquire();
    assert_eq!(reused.as_ptr(), ptr);
    assert!(reused.is_empty());
}

#[test]
fn release_beyond_max_idle_drops_the_extra_instead_of_growing_the_pool() {
    let mut pool = BufferPool::new(16, 2);
    pool.release(vec![1]);
    pool.release(vec![2]);
    pool.release(vec![3]); // two are parked already, this one is dropped

    assert_eq!(pool.idle(), 2);
}

#[test]
fn released_buffers_come_back_empty_and_last_in_first_out() {
    let mut pool = BufferPool::default();
    let mut first = Vec::with_capacity(10);
    first.push(1);
    let mut second = Vec::with_capacity(20);
    second.push(2);
    let ptr = second.as_ptr();
    pool.release(first);
    pool.release(second);
    let buf = pool.acquire();
    assert!(buf.is_empty());
    assert_eq!(buf.as_ptr(), ptr);
    assert_eq!(pool.idle(), 1);
}

#[test]
fn a_pool_that_parks_nothing_drops_every_buffer() {
    let mut pool = BufferPool::new(16, 0);
    pool.release(vec![1, 2, 3]);
    assert_eq!(pool.idle(), 0);
}

#[test]
fn get_or_create_returns_the_same_instance_for_a_repeated_name() {
    let mut registry = StatsRegistry::new();
    let a = registry.get_or_create("pipeline-a");
    a.bytes_in.fetch_add(42);

    let b = registry.get_or_create("pipeline-a");
    assert_eq!(b.bytes_in.load(), 42);
}

#[test]
fn snapshot_reflects_live_counters() {
    let mut stats = PipelineStats::default();
    stats.bytes_in.fetch_add(10);
    stats.bytes_out.fetch_add(20);
    stats.connections_total.fetch_add(1);
    stats.connections_active.fetch_add(1);
    stats.errors_total.fetch_add(2);

    let snap = stats.snapshot();
    assert_eq!(snap.bytes_in, 10);
    assert_eq!(snap.bytes_out, 20);
    assert_eq!(snap.connections_total, 1);
    assert_eq!(snap.connections_active, 1);
    assert_eq!(snap.errors_total, 2);
}

#[test]
fn snapshot_all_is_sorted_by_pipeline_name() {
    let mut registry = StatsRegistry::new();
    registry.get_or_create("zeta");
    registry.get_or_create("alpha");
    registry.get_or_create("mid");

    let names: Vec<_> = registry
        .snapshot_all()
        .into_iter()
        .map(|(name, _)| name)
        .collect();
    assert_eq!(names, vec!["alpha", "mid", "zeta"]);
}

#[test]
fn snapshots_are_in_byte_order_of_the_names() {
    let mut registry = StatsRegistry::default();
    for name in ["b", "a\u{e9}", "B", "", "ab", "a"] {
        registry.get_or_create(name);
    }
    let names: Vec<_> = registry
        .snapshot_all()
        .into_iter()
        .map(|(name, _)| name)
        .collect();
    assert_eq!(names, vec!["", "B", "a", "ab", "a\u{e9}", "b"]);
}

#[test]
fn counters_of_one_pipeline_leave_the_others_alone() {
    let mut registry = StatsRegistry::new();
    registry.get_or_create("a").bytes_in.fetch_add(1);
    registry.get_or_create("b").bytes_in.fetch_add(2);
    registry.get_or_create("a").bytes_in.fetch_add(3);
    let all = registry.snapshot_all();
    assert_eq!(all.len(), 2);
    assert_eq!(all[0].1.bytes_in, 4);
    assert_eq!(all[1].1.bytes_in, 2);
}

#[test]
fn counters_wrap_around() {
    let mut stats = PipelineStats::default();
    assert_eq!(stats.bytes_in.fetch_sub(1), 0);
    assert_eq!(stats.bytes_in.load(), u64::MAX);
    assert_eq!(stats.bytes_in.fetch_add(3), u64::MAX);
    assert_eq!(stats.bytes_in.load(), 2);
}

#[test]
fn a_connection_that_came_and_went_is_counted_once() {
    let mut stats = PipelineStats::default();
    stats.connection_opened();
    assert_eq!(stats.snapshot().connections_active, 1);
    stats.connection_opened();
    stats.connection_closed(true);
    stats.connection_closed(false);
    assert_eq!(
        stats.snapshot(),
        StatsSnapshot {
            bytes_in: 0,
            bytes_out: 0,
            connections_total: 2,
            connections_active: 0,
            errors_total: 1,
        }
    );
}

#[test]
fn directions_have_labels() {
    assert_eq!(Direction::Inbound.as_str(), "INBOUND");
    assert_eq!(Direction::Outbound.as_str(), "OUTBOUND");
}

#[test]
fn packets_carry_what_they_were_made_of() {
    let packet = Packet::new("p", Direction::Inbound, b"abc");
    assert_eq!(packet.pipeline, "p");
    assert_eq!(packet.direction, Direction::Inbound);
    assert_eq!(packet.bytes, b"abc");
    assert_eq!(packet.len(), 3);
    assert!(!packet.is_empty());
    assert!(Packet::new("p", Direction::Inbound, b"").is_empty());
}

#[test]
fn pooled_packets_borrow_and_return_a_buffer() {
    let mut pool = BufferPool::new(16, 2);
    pool.release(vec![7; 8]);
    let packet = Packet::pooled(&mut pool, "p", Direction::Outbound, b"xyz");
    assert_eq!(pool.idle(), 0);
    assert_eq!(packet.bytes, b"xyz");
    packet.recycle(&mut pool);
    assert_eq!(pool.idle(), 1);
    assert!(pool.acquire().is_empty());
}

#[test]
fn timestamps_are_written_in_rfc3339() {
    let t = Timestamp::from_parts(0, 0).unwrap();
    assert_eq!(t.to_rfc3339(), "1970-01-01T00:00:00+00:00");
    let t = Timestamp::from_parts(1_700_000_000, 500_000_000).unwrap();
    assert_eq!(t.to_rfc3339(), "2023-11-14T22:13:20.500+00:00");
    assert!(Timestamp::from_parts(i64::MAX, 0).is_none());
    assert!(Timestamp::now().to_rfc3339().ends_with("+00:00"));
    assert!(Timestamp::now().to_rfc3339().as_str() > "2020");
}
