//! Live counters, per pipeline.

use vstd::prelude::*;

use crate::names::NameTable;
use crate::text::{name_before, name_before_is_strict_total_order, str_before};

verus! {

/// A counter of 64 bits that wraps around.
#[derive(Debug, Clone, Copy)]
pub struct Counter {
    value: u64,
}

impl View for Counter {
    type V = u64;

    closed spec fn view(&self) -> u64 {
        self.value
    }
}

impl Counter {
    /// A counter at zero.
    pub fn new() -> (c: Self)
        ensures
            c@ == 0,
    {
        Counter { value: 0 }
    }

    /// The count.
    pub fn load(&self) -> (n: u64)
        ensures
            n == self@,
    {
        self.value
    }

    /// Adds `n`, wrapping around, and returns the count before.
    pub fn fetch_add(&mut self, n: u64) -> (before: u64)
        ensures
            before == old(self)@,
            final(self)@ == old(self)@.wrapping_add(n),
    {
        let before = self.value;
        self.value = before.wrapping_add(n);
        before
    }

    /// Takes `n` off, wrapping around, and returns the count before.
    pub fn fetch_sub(&mut self, n: u64) -> (before: u64)
        ensures
            before == old(self)@,
            final(self)@ == old(self)@.wrapping_sub(n),
    {
        let before = self.value;
        self.value = before.wrapping_sub(n);
        before
    }
}

/// Live counters for one pipeline.
#[derive(Debug, Clone, Copy)]
pub struct PipelineStats {
    /// Bytes from the target to clients.
    pub bytes_in: Counter,
    /// Bytes from clients to the target.
    pub bytes_out: Counter,
    /// Connections since the start.
    pub connections_total: Counter,
    /// Connections open now.
    pub connections_active: Counter,
    /// Connections that ended in an error.
    pub errors_total: Counter,
}

/// The counters of one pipeline at one moment.
#[derive(Debug, Clone, Copy, PartialEq, Eq, Structural)]
pub struct StatsSnapshot {
    pub bytes_in: u64,
    pub bytes_out: u64,
    pub connections_total: u64,
    pub connections_active: u64,
    pub errors_total: u64,
}

impl View for PipelineStats {
    type V = StatsSnapshot;

    open spec fn view(&self) -> StatsSnapshot {
        StatsSnapshot {
            bytes_in: self.bytes_in@,
            bytes_out: self.bytes_out@,
            connections_total: self.connections_total@,
            connections_active: self.connections_active@,
            errors_total: self.errors_total@,
        }
    }
}

impl StatsSnapshot {
    /// All counters at zero.
    pub open spec fn zero() -> StatsSnapshot {
        StatsSnapshot {
            bytes_in: 0,
            bytes_out: 0,
            connections_total: 0,
            connections_active: 0,
            errors_total: 0,
        }
    }

    /// The counters after a connection was accepted.
    pub open spec fn opened(self) -> StatsSnapshot {
        StatsSnapshot {
            connections_total: self.connections_total.wrapping_add(1),
            connections_active: self.connections_active.wrapping_add(1),
            ..self
        }
    }

    /// The counters after a connection ended, in an error when `failed`.
    pub open spec fn closed(self, failed: bool) -> StatsSnapshot {
        StatsSnapshot {
            connections_active: self.connections_active.wrapping_sub(1),
            errors_total: if failed {
                self.errors_total.wrapping_add(1)
            } else {
                self.errors_total
            },
            ..self
        }
    }
}

impl Default for PipelineStats {
    /// All counters at zero.
    fn default() -> (stats: Self)
        ensures
            stats@ == StatsSnapshot::zero(),
    {
        PipelineStats {
            bytes_in: Counter::new(),
            bytes_out: Counter::new(),
            connections_total: Counter::new(),
            connections_active: Counter::new(),
            errors_total: Counter::new(),
        }
    }
}

impl PipelineStats {
    /// The counters as they stand.
    pub fn snapshot(&self) -> (snap: StatsSnapshot)
        ensures
            snap == self@,
    {
        StatsSnapshot {
            bytes_in: self.bytes_in.load(),
            bytes_out: self.bytes_out.load(),
            connections_total: self.connections_total.load(),
            connections_active: self.connections_active.load(),
            errors_total: self.errors_total.load(),
        }
    }

    /// Counts a connection that was accepted.
    pub fn connection_opened(&mut self)
        ensures
            final(self)@ == old(self)@.opened(),
    {
        self.connections_total.fetch_add(1);
        self.connections_active.fetch_add(1);
    }

    /// Counts the end of a connection, in an error when `failed`.
    pub fn connection_closed(&mut self, failed: bool)
        ensures
            final(self)@ == old(self)@.closed(failed),
    {
        if failed {
            self.errors_total.fetch_add(1);
        }
        self.connections_active.fetch_sub(1);
    }
}

/// A connection that has come and gone leaves `connections_active` as it was,
/// one more in `connections_total`, and one more in `errors_total` exactly when
/// it failed.
pub proof fn closing_undoes_opening(before: StatsSnapshot, failed: bool)
    ensures
        ({
            let after = before.opened().closed(failed);
            &&& after.connections_active == before.connections_active
            &&& after.connections_total == before.connections_total.wrapping_add(1)
            &&& after.errors_total == (if failed {
                before.errors_total.wrapping_add(1)
            } else {
                before.errors_total
            })
            &&& after.bytes_in == before.bytes_in
            &&& after.bytes_out == before.bytes_out
        }),
{
}

/// What can happen to the connections of a pipeline.
pub enum ConnectionEvent {
    Opened,
    Closed { failed: bool },
}

/// The counters after a run of events.
pub open spec fn after_events(start: StatsSnapshot, events: Seq<ConnectionEvent>) -> StatsSnapshot
    decreases events.len(),
{
    if events.len() == 0 {
        start
    } else {
        let before = after_events(start, events.drop_last());
        match events.last() {
            ConnectionEvent::Opened => before.opened(),
            ConnectionEvent::Closed { failed } => before.closed(failed),
        }
    }
}

/// How many of the events are openings.
pub open spec fn openings(events: Seq<ConnectionEvent>) -> nat {
    events.filter(|e: ConnectionEvent| e is Opened).len()
}

/// How many of the events are endings.
pub open spec fn endings(events: Seq<ConnectionEvent>) -> nat {
    events.filter(|e: ConnectionEvent| e is Closed).len()
}

/// How many of the events are endings in an error.
pub open spec fn failures(events: Seq<ConnectionEvent>) -> nat {
    events.filter(|e: ConnectionEvent| e == (ConnectionEvent::Closed { failed: true })).len()
}

/// From zero, `connections_total` is the number of openings,
/// `connections_active` the number of connections opened and not yet ended, and
/// `errors_total` the number of failures, as long as no connection ends that was
/// not opened and the counts fit.
pub proof fn counters_track_connections(events: Seq<ConnectionEvent>)
    requires
        endings(events) <= openings(events) <= u64::MAX,
    ensures
        ({
            let snap = after_events(StatsSnapshot::zero(), events);
            &&& snap.connections_total == openings(events)
            &&& snap.connections_active == openings(events) - endings(events)
            &&& snap.errors_total == failures(events)
            &&& snap.bytes_in == 0 && snap.bytes_out == 0
        }),
{
    lemma_counters_modulo(events);
    lemma_failures_are_endings(events);
    let m = 0x1_0000_0000_0000_0000int;
    assert(openings(events) as int % m == openings(events));
    assert((openings(events) - endings(events)) % m == openings(events) - endings(events));
    assert(failures(events) as int % m == failures(events));
}

proof fn lemma_failures_are_endings(events: Seq<ConnectionEvent>)
    ensures
        failures(events) <= endings(events),
    decreases events.len(),
{
    reveal(Seq::filter);
    if events.len() > 0 {
        lemma_failures_are_endings(events.drop_last());
    }
}

proof fn lemma_counters_modulo(events: Seq<ConnectionEvent>)
    ensures
        ({
            let m = 0x1_0000_0000_0000_0000int;
            let snap = after_events(StatsSnapshot::zero(), events);
            &&& snap.connections_total == openings(events) as int % m
            &&& snap.connections_active == (openings(events) - endings(events)) % m
            &&& snap.errors_total == failures(events) as int % m
            &&& snap.bytes_in == 0 && snap.bytes_out == 0
        }),
    decreases events.len(),
{
    reveal(Seq::filter);
    if events.len() > 0 {
        lemma_counters_modulo(events.drop_last());
    }
}

/// Counters of every pipeline, by name.
pub struct StatsRegistry {
    table: NameTable<PipelineStats>,
}

impl View for StatsRegistry {
    type V = Map<Seq<char>, StatsSnapshot>;

    closed spec fn view(&self) -> Map<Seq<char>, StatsSnapshot> {
        self.table@.map_values(|s: PipelineStats| s@)
    }
}

/// The entries of a registry in order of name: every name once.
pub open spec fn lists_by_name(
    list: Seq<(String, StatsSnapshot)>,
    stats: Map<Seq<char>, StatsSnapshot>,
) -> bool {
    &&& forall|i: int, j: int|
        0 <= i < j < list.len() ==> name_before(
            (#[trigger] list[i]).0@,
            (#[trigger] list[j]).0@,
        )
    &&& forall|i: int|
        0 <= i < list.len() ==> stats.contains_pair((#[trigger] list[i]).0@, list[i].1)
    &&& forall|name: Seq<char>| #[trigger]
        stats.contains_key(name) ==> exists|i: int|
            0 <= i < list.len() && (#[trigger] list[i]).0@ == name
}

/// The counters that a registry has under a name: at zero when the name is new.
pub open spec fn counters_of(stats: Map<Seq<char>, StatsSnapshot>, name: Seq<char>) -> StatsSnapshot {
    if stats.contains_key(name) {
        stats[name]
    } else {
        StatsSnapshot::zero()
    }
}

/// A name has one set of counters: what was counted under it is there the next
/// time, a name that was not used before starts at zero, and what is counted under
/// one name leaves every other as it was.
pub proof fn a_name_has_its_own_counters(
    stats: Map<Seq<char>, StatsSnapshot>,
    name: Seq<char>,
    counted: StatsSnapshot,
    other: Seq<char>,
)
    ensures
        counters_of(stats.insert(name, counted), name) == counted,
        other != name ==> counters_of(stats.insert(name, counted), other) == counters_of(
            stats,
            other,
        ),
        !stats.contains_key(name) ==> counters_of(stats, name) == StatsSnapshot::zero(),
{
}

impl StatsRegistry {
    /// No pipeline has two sets of counters.
    pub closed spec fn wf(&self) -> bool {
        self.table.wf()
    }

    /// An empty registry.
    pub fn new() -> (registry: Self)
        ensures
            registry.wf(),
            registry@ == Map::<Seq<char>, StatsSnapshot>::empty(),
    {
        let registry = StatsRegistry { table: NameTable::new() };
        assert(registry@ =~= Map::<Seq<char>, StatsSnapshot>::empty());
        registry
    }

    /// The counters of a pipeline, at zero when it is new.
    pub fn get_or_create(&mut self, pipeline: &str) -> (stats: &mut PipelineStats)
        requires
            old(self).wf(),
        ensures
            stats@ == counters_of(old(self)@, pipeline@),
            final(self).wf(),
            final(self)@ == old(self)@.insert(pipeline@, final(stats)@),
    {
        proof {
            let t = self.table@;
            let f = |s: PipelineStats| s@;
            assert forall|v: PipelineStats| #[trigger]
                t.insert(pipeline@, v).map_values(f) == t.map_values(f).insert(pipeline@, v@) by {
                assert(t.insert(pipeline@, v).map_values(f) =~= t.map_values(f).insert(
                    pipeline@,
                    v@,
                ));
            }
        }
        self.table.get_or_insert(pipeline, PipelineStats::default())
    }

    /// A snapshot of every pipeline, in order of name.
    pub fn snapshot_all(&self) -> (list: Vec<(String, StatsSnapshot)>)
        requires
            self.wf(),
        ensures
            lists_by_name(list@, self@),
    {
        let mut list: Vec<(String, StatsSnapshot)> = Vec::new();
        let ghost names = self.table.names();
        proof {
            self.table.names_are_the_domain();
            name_before_is_strict_total_order();
        }
        let n = self.table.len();
        let mut i: usize = 0;
        while i < n
            invariant
                self.wf(),
                names == self.table.names(),
                n == names.len(),
                names.no_duplicates(),
                i <= n,
                forall|a: int, b: int|
                    0 <= a < b < list@.len() ==> name_before(
                        (#[trigger] list@[a]).0@,
                        (#[trigger] list@[b]).0@,
                    ),
                forall|a: int|
                    0 <= a < list@.len() ==> self@.contains_pair(
                        (#[trigger] list@[a]).0@,
                        list@[a].1,
                    ) && names.take(i as int).contains(list@[a].0@),
                forall|k: int|
                    0 <= k < i ==> exists|a: int|
                        0 <= a < list@.len() && (#[trigger] list@[a]).0@ == #[trigger] names[k],
            decreases n - i,
        {
            let (name, stats) = self.table.at(i);
            let ghost before = list@;
            let mut j: usize = 0;
            while j < list.len() && str_before(list[j].0.as_str(), name.as_str())
                invariant
                    list@ == before,
                    j <= list@.len(),
                    forall|a: int| 0 <= a < j ==> name_before((#[trigger] list@[a]).0@, name@),
                decreases list.len() - j,
            {
                j += 1;
            }
            let entry = (name.clone(), stats.snapshot());
            list.insert(j, entry);
            proof {
                name_before_is_strict_total_order();
                assert(list@ == before.insert(j as int, entry));
                assert forall|a: int| j <= a < before.len() implies name_before(
                    name@,
                    (#[trigger] before[a]).0@,
                ) by {
                    if before[a].0@ == name@ {
                        assert(names.take(i as int).contains(name@));
                        let k = choose|k: int|
                            0 <= k < i && names.take(i as int)[k] == name@;
                        assert(names[k] == names[i as int]);
                    }
                    if a > j {
                        assert(name_before(before[j as int].0@, before[a].0@));
                    }
                }
                assert(names.take(i + 1) =~= names.take(i as int).push(names[i as int]));
                assert forall|a: int| 0 <= a < list@.len() implies names.take(i + 1).contains(
                    (#[trigger] list@[a]).0@,
                ) by {
                    if a == j {
                        assert(names.take(i + 1)[i as int] == name@);
                    } else {
                        let b = if a < j { a } else { a - 1 };
                        assert(list@[a] == before[b]);
                        let k = choose|k: int|
                            0 <= k < i && names.take(i as int)[k] == before[b].0@;
                        assert(names.take(i + 1)[k] == before[b].0@);
                    }
                }
                assert forall|k: int| 0 <= k < i + 1 implies exists|a: int|
                    0 <= a < list@.len() && (#[trigger] list@[a]).0@ == #[trigger] names[k] by {
                    if k == i {
                        assert(list@[j as int].0@ == names[k]);
                    } else {
                        let b = choose|b: int|
                            0 <= b < before.len() && (#[trigger] before[b]).0@ == names[k];
                        let a = if b < j { b } else { b + 1 };
                        assert(list@[a] == before[b]);
                    }
                }
            }
            i += 1;
        }
        assert forall|name: Seq<char>| #[trigger] self@.contains_key(name) implies exists|a: int|
            0 <= a < list@.len() && (#[trigger] list@[a]).0@ == name by {
            assert(self.table@.contains_key(name));
            assert(names.contains(name));
            let k = choose|k: int| 0 <= k < names.len() && names[k] == name;
            assert(names[k] == name);
        }
        list
    }
}

/// The order of the snapshots is predictable: there is exactly one list of a
/// registry by name.
pub proof fn snapshots_have_one_order(
    a: Seq<(String, StatsSnapshot)>,
    b: Seq<(String, StatsSnapshot)>,
    stats: Map<Seq<char>, StatsSnapshot>,
)
    requires
        lists_by_name(a, stats),
        lists_by_name(b, stats),
    ensures
        a.len() == b.len(),
        forall|i: int|
            0 <= i < a.len() ==> (#[trigger] a[i]).0@ == b[i].0@ && a[i].1 == b[i].1,
{
    let n = if a.len() < b.len() {
        a.len()
    } else {
        b.len()
    };
    lemma_same_prefix(a, b, stats, n as int);
    if n == b.len() {
        lemma_no_name_beyond(a, b, stats, n as int);
    } else {
        lemma_same_prefix(b, a, stats, n as int);
        lemma_no_name_beyond(b, a, stats, n as int);
    }
}

/// Two lists of one registry agree as far as both go.
proof fn lemma_same_prefix(
    a: Seq<(String, StatsSnapshot)>,
    b: Seq<(String, StatsSnapshot)>,
    stats: Map<Seq<char>, StatsSnapshot>,
    n: int,
)
    requires
        lists_by_name(a, stats),
        lists_by_name(b, stats),
        0 <= n <= a.len(),
        n <= b.len(),
    ensures
        forall|i: int|
            0 <= i < n ==> (#[trigger] a[i]).0@ == b[i].0@ && a[i].1 == b[i].1,
    decreases n,
{
    if n > 0 {
        lemma_same_prefix(a, b, stats, n - 1);
        name_before_is_strict_total_order();
        let x = a[n - 1].0@;
        let y = b[n - 1].0@;
        assert(stats.contains_pair(x, a[n - 1].1));
        assert(stats.contains_pair(y, b[n - 1].1));
        let i = choose|i: int| 0 <= i < b.len() && (#[trigger] b[i]).0@ == x;
        let j = choose|j: int| 0 <= j < a.len() && (#[trigger] a[j]).0@ == y;
        assert(stats.contains_key(x) && stats.contains_key(y));
        if i < n - 1 {
            assert(a[i].0@ == b[i].0@);
            assert(name_before(a[i].0@, a[n - 1].0@));
        }
        if j < n - 1 {
            assert(a[j].0@ == b[j].0@);
            assert(name_before(b[j].0@, b[n - 1].0@));
        }
        if i > n - 1 {
            assert(name_before(b[n - 1].0@, b[i].0@));
        }
        if j > n - 1 {
            assert(name_before(a[n - 1].0@, a[j].0@));
        }
        assert(x == y);
    }
}

/// A list that agrees with all of another one has nothing more.
proof fn lemma_no_name_beyond(
    a: Seq<(String, StatsSnapshot)>,
    b: Seq<(String, StatsSnapshot)>,
    stats: Map<Seq<char>, StatsSnapshot>,
    n: int,
)
    requires
        lists_by_name(a, stats),
        lists_by_name(b, stats),
        n == b.len(),
        n <= a.len(),
        forall|i: int|
            0 <= i < n ==> (#[trigger] a[i]).0@ == b[i].0@ && a[i].1 == b[i].1,
    ensures
        a.len() == n,
{
    if n < a.len() {
        name_before_is_strict_total_order();
        let x = a[n].0@;
        assert(stats.contains_pair(x, a[n].1));
        assert(stats.contains_key(x));
        let i = choose|i: int| 0 <= i < b.len() && (#[trigger] b[i]).0@ == x;
        assert(a[i].0@ == b[i].0@);
        assert(name_before(a[i].0@, a[n].0@));
    }
}

impl Default for StatsRegistry {
    /// An empty registry.
    fn default() -> (registry: Self)
        ensures
            registry.wf(),
            registry@ == Map::<Seq<char>, StatsSnapshot>::empty(),
    {
        StatsRegistry::new()
    }
}

/// Opening and ending a connection move their own counters by one and leave every other
/// as it was; a counter at its end starts again at zero, and one at zero at its end.
pub proof fn events_move_their_own_counters(snap: StatsSnapshot, failed: bool)
    ensures
        ({
            let next = |n: u64| if n == u64::MAX { 0int } else { n + 1 };
            let after = snap.opened();
            &&& after.connections_total == next(snap.connections_total)
            &&& after.connections_active == next(snap.connections_active)
            &&& after.errors_total == snap.errors_total
            &&& after.bytes_in == snap.bytes_in
            &&& after.bytes_out == snap.bytes_out
        }),
        ({
            let next = |n: u64| if n == u64::MAX { 0int } else { n + 1 };
            let after = snap.closed(failed);
            &&& after.connections_total == snap.connections_total
            &&& after.connections_active == (if snap.connections_active == 0 {
                u64::MAX as int
            } else {
                snap.connections_active - 1
            })
            &&& failed ==> after.errors_total == next(snap.errors_total)
            &&& !failed ==> after.errors_total == snap.errors_total
            &&& after.bytes_in == snap.bytes_in
            &&& after.bytes_out == snap.bytes_out
        }),
        StatsSnapshot::zero().bytes_in == 0,
        StatsSnapshot::zero().bytes_out == 0,
        StatsSnapshot::zero().connections_total == 0,
        StatsSnapshot::zero().connections_active == 0,
        StatsSnapshot::zero().errors_total == 0,
{
}

/// Every pipeline of a registry is listed exactly once, with its counters, and nothing
/// else is; names stand in order.
pub proof fn every_pipeline_is_listed_once(
    list: Seq<(String, StatsSnapshot)>,
    stats: Map<Seq<char>, StatsSnapshot>,
    name: Seq<char>,
)
    requires
        lists_by_name(list, stats),
    ensures
        stats.contains_key(name) <==> exists|i: int|
            0 <= i < list.len() && (#[trigger] list[i]).0@ == name,
        forall|i: int|
            0 <= i < list.len() && (#[trigger] list[i]).0@ == name ==> list[i].1 == stats[name],
        forall|i: int, j: int|
            0 <= i < list.len() && 0 <= j < list.len() && (#[trigger] list[i]).0@ == (
            #[trigger] list[j]).0@ ==> i == j,
        forall|i: int|
            0 < i < list.len() ==> name_before(list[i - 1].0@, (#[trigger] list[i]).0@),
{
    name_before_is_strict_total_order();
    if exists|i: int| 0 <= i < list.len() && (#[trigger] list[i]).0@ == name {
        let i = choose|i: int| 0 <= i < list.len() && (#[trigger] list[i]).0@ == name;
        assert(stats.contains_pair(list[i].0@, list[i].1));
    }
    assert forall|i: int, j: int|
        0 <= i < list.len() && 0 <= j < list.len() && (#[trigger] list[i]).0@ == (
        #[trigger] list[j]).0@ implies i == j by {
        if i < j {
            assert(name_before(list[i].0@, list[j].0@));
        } else if j < i {
            assert(name_before(list[j].0@, list[i].0@));
        }
    }
    assert forall|i: int| 0 < i < list.len() implies name_before(
        list[i - 1].0@,
        (#[trigger] list[i]).0@,
    ) by {
        let k = i - 1;
        assert(name_before(list[k].0@, list[i].0@));
    }
    assert forall|i: int| 0 <= i < list.len() && (#[trigger] list[i]).0@ == name implies list[i].1
        == stats[name] by {
        assert(stats.contains_pair(list[i].0@, list[i].1));
    }
}

} // verus!
