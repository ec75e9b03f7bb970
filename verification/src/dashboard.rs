//! The dashboard: its state and every decision that it takes, without a terminal
//! or a socket.

use vstd::prelude::*;

use crate::double::{
    a_level_is_the_nearest_share, distance, half_of_the_largest_is_rounded_up,
    lemma_double_of_small, scaled_level, scaled_level_is_monotone, scaled_level_of,
    scaled_level_of_max_is_highest,
};
use crate::text::{name_before, name_before_is_strict_total_order, str_before};

verus! {

/// How many samples of history are kept for each pipeline.
pub const HISTORY_LEN: usize = 30;

/// The counters of one pipeline, as the control socket reports them.
#[derive(Debug, Clone)]
pub struct PipelineStat {
    pub name: String,
    pub bytes_in: u64,
    pub bytes_out: u64,
    pub connections_total: u64,
    pub connections_active: u64,
    pub errors_total: u64,
}

/// What the control socket answers to a request for the counters.
#[derive(Debug)]
pub struct StatsResponse {
    pub pipelines: Vec<PipelineStat>,
}

impl Default for StatsResponse {
    /// No pipelines.
    fn default() -> (response: Self)
        ensures
            response.pipelines@ == Seq::<PipelineStat>::empty(),
    {
        StatsResponse { pipelines: Vec::new() }
    }
}

// ---------------------------------------------------------------------------
// Sorting
// ---------------------------------------------------------------------------

/// What the rows can be sorted by.
#[derive(Debug, Clone, Copy, PartialEq, Eq, Structural)]
pub enum SortField {
    Name,
    Active,
    Total,
    BytesIn,
    BytesOut,
    Errors,
}

impl SortField {
    /// The heading of the field.
    pub open spec fn label_text(self) -> Seq<char> {
        match self {
            SortField::Name => "Name"@,
            SortField::Active => "Active"@,
            SortField::Total => "Total"@,
            SortField::BytesIn => "In"@,
            SortField::BytesOut => "Out"@,
            SortField::Errors => "Errors"@,
        }
    }

    /// The heading of the field.
    pub fn label(&self) -> (label: &'static str)
        ensures
            label@ == self.label_text(),
    {
        match self {
            SortField::Name => "Name",
            SortField::Active => "Active",
            SortField::Total => "Total",
            SortField::BytesIn => "In",
            SortField::BytesOut => "Out",
            SortField::Errors => "Errors",
        }
    }

    /// The field after this one, in a fixed order that wraps around.
    pub open spec fn next(self) -> SortField {
        match self {
            SortField::Name => SortField::Active,
            SortField::Active => SortField::Total,
            SortField::Total => SortField::BytesIn,
            SortField::BytesIn => SortField::BytesOut,
            SortField::BytesOut => SortField::Errors,
            SortField::Errors => SortField::Name,
        }
    }
}

/// Cycles through every sort field in a fixed order, wrapping back to the start.
pub fn next_sort_field(current: SortField) -> (field: SortField)
    ensures
        field == current.next(),
{
    match current {
        SortField::Name => SortField::Active,
        SortField::Active => SortField::Total,
        SortField::Total => SortField::BytesIn,
        SortField::BytesIn => SortField::BytesOut,
        SortField::BytesOut => SortField::Errors,
        SortField::Errors => SortField::Name,
    }
}

/// Cycling visits every field, and comes back to where it started after six
/// steps and no sooner.
pub proof fn cycling_visits_every_field(field: SortField, other: SortField)
    ensures
        field.next().next().next().next().next().next() == field,
        ({
            ||| other == field
            ||| other == field.next()
            ||| other == field.next().next()
            ||| other == field.next().next().next()
            ||| other == field.next().next().next().next()
            ||| other == field.next().next().next().next().next()
        }),
        field.next() != field,
        field.next().next() != field,
        field.next().next().next() != field,
        field.next().next().next().next() != field,
        field.next().next().next().next().next() != field,
{
}

impl PipelineStat {
    /// The counter that a field stands for; `Name` stands for none.
    pub open spec fn counter(self, field: SortField) -> u64 {
        match field {
            SortField::Name => 0,
            SortField::Active => self.connections_active,
            SortField::Total => self.connections_total,
            SortField::BytesIn => self.bytes_in,
            SortField::BytesOut => self.bytes_out,
            SortField::Errors => self.errors_total,
        }
    }
}

/// One row comes strictly before another: by the field, the other way round when
/// `desc`, and by name where the field does not decide.
pub open spec fn row_before(a: PipelineStat, b: PipelineStat, field: SortField, desc: bool) -> bool {
    if field == SortField::Name {
        if desc {
            name_before(b.name@, a.name@)
        } else {
            name_before(a.name@, b.name@)
        }
    } else if a.counter(field) != b.counter(field) {
        if desc {
            b.counter(field) < a.counter(field)
        } else {
            a.counter(field) < b.counter(field)
        }
    } else {
        name_before(a.name@, b.name@)
    }
}

/// Two rows between which neither the field nor the name decides.
pub open spec fn rows_tie(a: PipelineStat, b: PipelineStat, field: SortField) -> bool {
    a.counter(field) == b.counter(field) && a.name@ == b.name@
}

/// Every row is in its place.
pub open spec fn is_sorted(rows: Seq<PipelineStat>, field: SortField, desc: bool) -> bool {
    forall|i: int, j: int|
        0 <= i < j < rows.len() ==> !row_before(#[trigger] rows[j], #[trigger] rows[i], field, desc)
}

/// The rows that tie with `row`, in order.
pub open spec fn ties_of(
    rows: Seq<PipelineStat>,
    row: PipelineStat,
    field: SortField,
) -> Seq<PipelineStat> {
    rows.filter(|r: PipelineStat| rows_tie(r, row, field))
}

/// `after` is `before` sorted: the same rows, in order, and rows that tie in the
/// order in which they were.
pub open spec fn is_sort_of(
    before: Seq<PipelineStat>,
    after: Seq<PipelineStat>,
    field: SortField,
    desc: bool,
) -> bool {
    &&& after.to_multiset() == before.to_multiset()
    &&& is_sorted(after, field, desc)
    &&& forall|row: PipelineStat| #[trigger]
        ties_of(after, row, field) == ties_of(before, row, field)
}

proof fn lemma_row_order(field: SortField, desc: bool)
    ensures
        forall|a: PipelineStat, b: PipelineStat| #[trigger]
            row_before(a, b, field, desc) ==> !row_before(b, a, field, desc) && !rows_tie(
                a,
                b,
                field,
            ),
        forall|a: PipelineStat, b: PipelineStat|
            #![trigger row_before(a, b, field, desc)]
            row_before(a, b, field, desc) || row_before(b, a, field, desc) || rows_tie(a, b, field),
{
    name_before_is_strict_total_order();
}

/// Whether one row comes strictly before another.
fn comes_before(a: &PipelineStat, b: &PipelineStat, field: SortField, desc: bool) -> (before: bool)
    ensures
        before == row_before(*a, *b, field, desc),
{
    let (x, y): (u64, u64) = match field {
        SortField::Name => {
            return if desc {
                str_before(b.name.as_str(), a.name.as_str())
            } else {
                str_before(a.name.as_str(), b.name.as_str())
            };
        },
        SortField::Active => (a.connections_active, b.connections_active),
        SortField::Total => (a.connections_total, b.connections_total),
        SortField::BytesIn => (a.bytes_in, b.bytes_in),
        SortField::BytesOut => (a.bytes_out, b.bytes_out),
        SortField::Errors => (a.errors_total, b.errors_total),
    };
    if x != y {
        if desc {
            y < x
        } else {
            x < y
        }
    } else {
        str_before(a.name.as_str(), b.name.as_str())
    }
}

/// Swaps two neighbours.
fn swap_with_previous(rows: &mut [PipelineStat], j: usize)
    requires
        0 < j < old(rows)@.len(),
    ensures
        final(rows)@ == old(rows)@.update(j - 1, old(rows)@[j as int]).update(
            j as int,
            old(rows)@[j - 1],
        ),
{
    let ghost before = rows@;
    let (left, right) = rows.split_at_mut(j);
    core::mem::swap(&mut left[j - 1], &mut right[0]);
    assert(left@ + right@ =~= before.update(j - 1, before[j as int]).update(
        j as int,
        before[j - 1],
    ));
}

/// Swapping two neighbours that do not tie keeps the rows, and the order of
/// those that tie.
proof fn lemma_swap(rows: Seq<PipelineStat>, j: int, field: SortField)
    requires
        0 < j < rows.len(),
        !rows_tie(rows[j], rows[j - 1], field),
    ensures
        ({
            let after = rows.update(j - 1, rows[j]).update(j, rows[j - 1]);
            &&& after.to_multiset() == rows.to_multiset()
            &&& forall|row: PipelineStat| #[trigger]
                ties_of(after, row, field) == ties_of(rows, row, field)
        }),
{
    let a = rows[j - 1];
    let b = rows[j];
    let mid = rows.update(j - 1, b);
    let after = mid.update(j, a);
    vstd::seq_lib::to_multiset_update(rows, j - 1, b);
    vstd::seq_lib::to_multiset_update(mid, j, a);
    vstd::seq_lib::to_multiset_contains(rows, a);
    assert(rows.contains(a));
    assert(after.to_multiset() =~= rows.to_multiset());
    assert forall|row: PipelineStat| #[trigger]
        ties_of(after, row, field) == ties_of(rows, row, field) by {
        let f = |r: PipelineStat| rows_tie(r, row, field);
        let front = rows.take(j - 1);
        let back = rows.skip(j + 1);
        assert(rows =~= front + seq![a, b] + back);
        assert(after =~= front + seq![b, a] + back);
        Seq::filter_distributes_over_add(front + seq![a, b], back, f);
        Seq::filter_distributes_over_add(front, seq![a, b], f);
        Seq::filter_distributes_over_add(front + seq![b, a], back, f);
        Seq::filter_distributes_over_add(front, seq![b, a], f);
        assert(seq![a, b].filter(f) =~= seq![b, a].filter(f)) by {
            reveal(Seq::filter);
            reveal_with_fuel(Seq::filter, 3);
            assert(seq![a, b].drop_last() =~= seq![a]);
            assert(seq![b, a].drop_last() =~= seq![b]);
            assert(seq![a].drop_last() =~= seq![]);
            assert(seq![b].drop_last() =~= seq![]);
            assert(!(f(a) && f(b)));
        }
    }
}

/// Sorts in place by `field`, ascending unless `desc`. Ties fall back to name
/// order, so that the row order stays stable and predictable when two pipelines
/// have equal values.
pub fn sort_pipelines(pipelines: &mut [PipelineStat], field: SortField, desc: bool)
    ensures
        is_sort_of(old(pipelines)@, final(pipelines)@, field, desc),
{
    let ghost start = pipelines@;
    let n = pipelines.len();
    let mut i: usize = 0;
    while i < n
        invariant
            n == pipelines@.len(),
            i <= n,
            pipelines@.to_multiset() == start.to_multiset(),
            forall|row: PipelineStat| #[trigger]
                ties_of(pipelines@, row, field) == ties_of(start, row, field),
            forall|a: int, b: int|
                0 <= a < b < i ==> !row_before(
                    #[trigger] pipelines@[b],
                    #[trigger] pipelines@[a],
                    field,
                    desc,
                ),
        decreases n - i,
    {
        let mut j: usize = i;
        while j > 0 && comes_before(&pipelines[j], &pipelines[j - 1], field, desc)
            invariant
                n == pipelines@.len(),
                j <= i < n,
                pipelines@.to_multiset() == start.to_multiset(),
                forall|row: PipelineStat| #[trigger]
                    ties_of(pipelines@, row, field) == ties_of(start, row, field),
                forall|a: int, b: int|
                    0 <= a < b <= i && b != j ==> !row_before(
                        #[trigger] pipelines@[b],
                        #[trigger] pipelines@[a],
                        field,
                        desc,
                    ),
            decreases j,
        {
            let ghost before = pipelines@;
            proof {
                lemma_row_order(field, desc);
                lemma_swap(before, j as int, field);
            }
            swap_with_previous(pipelines, j);
            proof {
                assert forall|a: int, b: int|
                    0 <= a < b <= i && b != j - 1 implies !row_before(
                    #[trigger] pipelines@[b],
                    #[trigger] pipelines@[a],
                    field,
                    desc,
                ) by {
                    if b == j {
                        if a == j - 1 {
                            assert(row_before(before[j as int], before[j - 1], field, desc));
                        } else {
                            assert(!row_before(before[j - 1], before[a], field, desc));
                        }
                    } else {
                        let c = if a == j {
                            j - 1
                        } else if a == j - 1 {
                            j as int
                        } else {
                            a
                        };
                        assert(pipelines@[a] == before[c] && pipelines@[b] == before[b]);
                        assert(c < b);
                    }
                }
            }
            j -= 1;
        }
        proof {
            lemma_row_order(field, desc);
            let rows = pipelines@;
            assert forall|a: int, b: int|
                0 <= a < b < i + 1 implies !row_before(
                #[trigger] rows[b],
                #[trigger] rows[a],
                field,
                desc,
            ) by {
                if b == j && a < j - 1 {
                    lemma_not_before_transitive(rows[a], rows[j - 1], rows[j as int], field, desc);
                }
            }
        }
        i += 1;
    }
}

proof fn lemma_not_before_transitive(
    a: PipelineStat,
    b: PipelineStat,
    c: PipelineStat,
    field: SortField,
    desc: bool,
)
    requires
        !row_before(b, a, field, desc),
        !row_before(c, b, field, desc),
    ensures
        !row_before(c, a, field, desc),
{
    name_before_is_strict_total_order();
}

proof fn lemma_same_order(
    a: Seq<PipelineStat>,
    b: Seq<PipelineStat>,
    field: SortField,
    desc: bool,
)
    requires
        a.to_multiset() == b.to_multiset(),
        is_sorted(a, field, desc),
        is_sorted(b, field, desc),
        forall|row: PipelineStat| #[trigger] ties_of(a, row, field) == ties_of(b, row, field),
    ensures
        a == b,
    decreases a.len(),
{
    vstd::seq_lib::to_multiset_len(a);
    vstd::seq_lib::to_multiset_len(b);
    if a.len() == 0 {
        assert(a =~= b);
    } else {
        let x = a[0];
        let y = b[0];
        vstd::seq_lib::to_multiset_contains(a, y);
        vstd::seq_lib::to_multiset_contains(b, y);
        vstd::seq_lib::to_multiset_contains(a, x);
        vstd::seq_lib::to_multiset_contains(b, x);
        assert(b.contains(y) && a.contains(x));
        let i = choose|i: int| 0 <= i < a.len() && a[i] == y;
        let j = choose|j: int| 0 <= j < b.len() && b[j] == x;
        lemma_row_order(field, desc);
        assert(!row_before(x, x, field, desc));
        assert(!row_before(a[i], a[0], field, desc));
        assert(!row_before(b[j], b[0], field, desc));
        assert(rows_tie(x, y, field));
        lemma_ties_of_first(a, x, field);
        lemma_ties_of_first(b, x, field);
        assert(x == y);
        vstd::seq_lib::to_multiset_remove(a, 0);
        vstd::seq_lib::to_multiset_remove(b, 0);
        assert(a.remove(0) =~= a.drop_first());
        assert(b.remove(0) =~= b.drop_first());
        assert forall|row: PipelineStat| #[trigger]
            ties_of(a.drop_first(), row, field) == ties_of(b.drop_first(), row, field) by {
            lemma_ties_of_first(a, row, field);
            lemma_ties_of_first(b, row, field);
        }
        lemma_same_order(a.drop_first(), b.drop_first(), field, desc);
        assert(a =~= seq![x] + a.drop_first());
        assert(b =~= seq![y] + b.drop_first());
    }
}

/// The ties of a list begin with its first row, where that is one of them.
proof fn lemma_ties_of_first(rows: Seq<PipelineStat>, row: PipelineStat, field: SortField)
    requires
        rows.len() > 0,
    ensures
        rows_tie(rows[0], row, field) ==> {
            &&& ties_of(rows, row, field).len() > 0
            &&& ties_of(rows, row, field)[0] == rows[0]
            &&& ties_of(rows.drop_first(), row, field) == ties_of(rows, row, field).drop_first()
        },
        !rows_tie(rows[0], row, field) ==> ties_of(rows.drop_first(), row, field) == ties_of(
            rows,
            row,
            field,
        ),
{
    let f = |r: PipelineStat| rows_tie(r, row, field);
    let first = seq![rows[0]];
    let rest = rows.drop_first();
    assert(rows =~= first + rest);
    Seq::filter_distributes_over_add(first, rest, f);
    assert(first.filter(f) == if f(rows[0]) {
        first
    } else {
        seq![]
    }) by {
        reveal(Seq::filter);
        reveal_with_fuel(Seq::filter, 2);
        assert(first.drop_last() =~= seq![]);
        assert(seq![].push(rows[0]) =~= first);
    }
    if f(rows[0]) {
        assert((first + rest.filter(f)).drop_first() =~= rest.filter(f));
    } else {
        assert(seq![] + rest.filter(f) =~= rest.filter(f));
    }
}

/// The order of the rows is predictable: there is exactly one way to sort them.
pub proof fn sorting_is_predictable(
    before: Seq<PipelineStat>,
    after: Seq<PipelineStat>,
    other: Seq<PipelineStat>,
    field: SortField,
    desc: bool,
)
    requires
        is_sort_of(before, after, field, desc),
        is_sort_of(before, other, field, desc),
    ensures
        after == other,
{
    assert forall|row: PipelineStat| #[trigger]
        ties_of(after, row, field) == ties_of(other, row, field) by {
        assert(ties_of(after, row, field) == ties_of(before, row, field));
    }
    lemma_same_order(after, other, field, desc);
}

/// Rows that are in order stay where they are.
pub proof fn sorted_rows_stay(
    before: Seq<PipelineStat>,
    after: Seq<PipelineStat>,
    field: SortField,
    desc: bool,
)
    requires
        is_sorted(before, field, desc),
        is_sort_of(before, after, field, desc),
    ensures
        after == before,
{
    assert(is_sort_of(before, before, field, desc));
    sorting_is_predictable(before, after, before, field, desc);
}

// ---------------------------------------------------------------------------
// Totals
// ---------------------------------------------------------------------------

/// The sum of one counter over all rows.
pub open spec fn counter_sum(rows: Seq<PipelineStat>, field: SortField) -> nat
    decreases rows.len(),
{
    if rows.len() == 0 {
        0
    } else {
        counter_sum(rows.drop_last(), field) + rows.last().counter(field) as nat
    }
}

/// Every sum fits in a counter.
pub open spec fn sums_fit(rows: Seq<PipelineStat>) -> bool {
    &&& counter_sum(rows, SortField::Active) <= u64::MAX
    &&& counter_sum(rows, SortField::Total) <= u64::MAX
    &&& counter_sum(rows, SortField::BytesIn) <= u64::MAX
    &&& counter_sum(rows, SortField::BytesOut) <= u64::MAX
    &&& counter_sum(rows, SortField::Errors) <= u64::MAX
}

proof fn lemma_sum_of_prefix(rows: Seq<PipelineStat>, n: int, field: SortField)
    requires
        0 <= n <= rows.len(),
    ensures
        counter_sum(rows.take(n), field) <= counter_sum(rows, field),
    decreases rows.len(),
{
    if n < rows.len() {
        assert(rows.drop_last().take(n) =~= rows.take(n));
        lemma_sum_of_prefix(rows.drop_last(), n, field);
    } else {
        assert(rows.take(n) =~= rows);
    }
}

/// A row is the sum of the rows.
pub open spec fn is_total_of(total: PipelineStat, rows: Seq<PipelineStat>) -> bool {
    &&& total.name@ == "TOTAL"@
    &&& total.connections_active == counter_sum(rows, SortField::Active)
    &&& total.connections_total == counter_sum(rows, SortField::Total)
    &&& total.bytes_in == counter_sum(rows, SortField::BytesIn)
    &&& total.bytes_out == counter_sum(rows, SortField::BytesOut)
    &&& total.errors_total == counter_sum(rows, SortField::Errors)
}

/// Sums every counter across all pipelines into one row named "TOTAL", where
/// every sum fits.
pub fn try_aggregate(pipelines: &[PipelineStat]) -> (total: Option<PipelineStat>)
    ensures
        total is Some <==> sums_fit(pipelines@),
        total matches Some(total) ==> is_total_of(total, pipelines@),
{
    let mut total = PipelineStat {
        name: "TOTAL".to_owned(),
        bytes_in: 0,
        bytes_out: 0,
        connections_total: 0,
        connections_active: 0,
        errors_total: 0,
    };
    let mut i: usize = 0;
    while i < pipelines.len()
        invariant
            i <= pipelines@.len(),
            is_total_of(total, pipelines@.take(i as int)),
        decreases pipelines.len() - i,
    {
        let p = &pipelines[i];
        proof {
            assert(pipelines@.take(i + 1).drop_last() =~= pipelines@.take(i as int));
            lemma_sum_of_prefix(pipelines@, i + 1, SortField::Active);
            lemma_sum_of_prefix(pipelines@, i + 1, SortField::Total);
            lemma_sum_of_prefix(pipelines@, i + 1, SortField::BytesIn);
            lemma_sum_of_prefix(pipelines@, i + 1, SortField::BytesOut);
            lemma_sum_of_prefix(pipelines@, i + 1, SortField::Errors);
        }
        if p.bytes_in > u64::MAX - total.bytes_in || p.bytes_out > u64::MAX - total.bytes_out
            || p.connections_total > u64::MAX - total.connections_total || p.connections_active
            > u64::MAX - total.connections_active || p.errors_total > u64::MAX
            - total.errors_total {
            return None;
        }
        total.bytes_in = total.bytes_in + p.bytes_in;
        total.bytes_out = total.bytes_out + p.bytes_out;
        total.connections_total = total.connections_total + p.connections_total;
        total.connections_active = total.connections_active + p.connections_active;
        total.errors_total = total.errors_total + p.errors_total;
        i += 1;
    }
    assert(pipelines@.take(pipelines@.len() as int) =~= pipelines@);
    Some(total)
}

/// Sums every counter across all pipelines into one row named "TOTAL": a view at
/// a glance, not a pipeline.
pub fn aggregate(pipelines: &[PipelineStat]) -> (total: PipelineStat)
    requires
        sums_fit(pipelines@),
    ensures
        is_total_of(total, pipelines@),
{
    try_aggregate(pipelines).unwrap()
}

proof fn lemma_sum_without(rows: Seq<PipelineStat>, k: int, field: SortField)
    requires
        0 <= k < rows.len(),
    ensures
        counter_sum(rows, field) == counter_sum(rows.remove(k), field) + rows[k].counter(field),
    decreases rows.len(),
{
    if k < rows.len() - 1 {
        assert(rows.drop_last().remove(k) =~= rows.remove(k).drop_last());
        lemma_sum_without(rows.drop_last(), k, field);
    } else {
        assert(rows.remove(k) =~= rows.drop_last());
    }
}

/// The totals do not depend on the order of the rows.
pub proof fn totals_ignore_order(a: Seq<PipelineStat>, b: Seq<PipelineStat>, field: SortField)
    requires
        a.to_multiset() == b.to_multiset(),
    ensures
        counter_sum(a, field) == counter_sum(b, field),
    decreases a.len(),
{
    vstd::seq_lib::to_multiset_len(a);
    vstd::seq_lib::to_multiset_len(b);
    if a.len() > 0 {
        let last = a.last();
        vstd::seq_lib::to_multiset_contains(a, last);
        vstd::seq_lib::to_multiset_contains(b, last);
        assert(a.contains(last));
        let k = choose|k: int| 0 <= k < b.len() && b[k] == last;
        vstd::seq_lib::to_multiset_remove(a, a.len() - 1);
        vstd::seq_lib::to_multiset_remove(b, k);
        assert(a.remove(a.len() - 1) =~= a.drop_last());
        totals_ignore_order(a.drop_last(), b.remove(k), field);
        lemma_sum_without(b, k, field);
    }
}

// ---------------------------------------------------------------------------
// Sparkline
// ---------------------------------------------------------------------------

/// The block of a level: from the lowest, one eighth, to the full one.
pub open spec fn block(level: int) -> char {
    (0x2581 + level) as char
}

/// The largest of the values, and at least 1.
pub open spec fn peak(values: Seq<u64>) -> u64
    decreases values.len(),
{
    if values.len() == 0 {
        1
    } else {
        let before = peak(values.drop_last());
        if values.last() > before {
            values.last()
        } else {
            before
        }
    }
}

/// The last `width` values, or all where there are fewer.
pub open spec fn window(values: Seq<u64>, width: int) -> Seq<u64> {
    if values.len() > width {
        values.skip(values.len() - width)
    } else {
        values
    }
}

/// The last `width` values as blocks, each as high as the value is beside the
/// largest of them. Without values the line is flat.
pub open spec fn sparkline_text(values: Seq<u64>, width: int) -> Seq<char> {
    if values.len() == 0 {
        Seq::new(
            if width > 1 {
                width as nat
            } else {
                1
            },
            |i: int| block(0),
        )
    } else {
        let shown = window(values, width);
        shown.map_values(
            |v: u64| block(scaled_level(v as nat, peak(shown) as nat, 7) as int),
        )
    }
}

proof fn lemma_peak(values: Seq<u64>)
    ensures
        peak(values) >= 1,
        forall|i: int| 0 <= i < values.len() ==> #[trigger] values[i] <= peak(values),
        values.len() > 0 && peak(values) > 1 ==> values.contains(peak(values)),
    decreases values.len(),
{
    if values.len() > 0 {
        let rest = values.drop_last();
        lemma_peak(rest);
        assert forall|i: int| 0 <= i < values.len() implies #[trigger] values[i] <= peak(
            values,
        ) by {
            if i < rest.len() {
                assert(rest[i] == values[i]);
            }
        }
        if peak(values) > 1 {
            if values.last() > peak(rest) {
                assert(values[values.len() - 1] == peak(values));
            } else {
                let k = choose|k: int| 0 <= k < rest.len() && rest[k] == peak(rest);
                assert(rest.len() > 0 ==> rest.contains(peak(rest)));
                if rest.len() > 0 {
                    assert(values[k] == peak(values));
                }
            }
        }
    }
}

/// The block of a level.
fn block_of(level: u64) -> (c: char)
    requires
        level <= 7,
    ensures
        c == block(level as int),
{
    match level {
        0 => '▁',
        1 => '▂',
        2 => '▃',
        3 => '▄',
        4 => '▅',
        5 => '▆',
        6 => '▇',
        _ => '█',
    }
}

/// Renders up to the last `width` values as Unicode block-height characters, low
/// to high. Empty input or a flat all-zero series renders as the lowest bar
/// throughout.
pub fn sparkline_chars(values: &[u64], width: usize) -> (out: String)
    ensures
        out@ == sparkline_text(values@, width as int),
{
    let mut out = String::new();
    if values.len() == 0 {
        out.push('▁');
        let mut i: usize = 1;
        assert(out@ =~= Seq::new(1, |k: int| block(0)));
        while i < width
            invariant
                1 <= i,
                width >= 1 ==> i <= width,
                width < 1 ==> i == 1,
                out@ == Seq::new(i as nat, |k: int| block(0)),
            decreases width - i,
        {
            out.push('▁');
            i += 1;
            assert(out@ =~= Seq::new(i as nat, |k: int| block(0)));
        }
        assert(out@ =~= sparkline_text(values@, width as int));
        return out;
    }
    let start: usize = if values.len() > width {
        values.len() - width
    } else {
        0
    };
    let ghost shown = window(values@, width as int);
    assert(values@.skip(start as int) =~= shown);
    let mut max: u64 = 1;
    let mut i: usize = start;
    assert(shown.take(0) =~= seq![]);
    while i < values.len()
        invariant
            start <= i <= values@.len(),
            shown == values@.skip(start as int),
            max == peak(shown.take(i - start)),
        decreases values.len() - i,
    {
        assert(shown.take(i + 1 - start).drop_last() =~= shown.take(i - start));
        if values[i] > max {
            max = values[i];
        }
        i += 1;
    }
    assert(shown.take(shown.len() as int) =~= shown);
    proof {
        lemma_peak(shown);
    }
    let mut k: usize = start;
    while k < values.len()
        invariant
            start <= k <= values@.len(),
            shown == values@.skip(start as int),
            max == peak(shown),
            max >= 1,
            forall|j: int| 0 <= j < shown.len() ==> #[trigger] shown[j] <= max,
            out@ == shown.take(k - start).map_values(
                |v: u64| block(scaled_level(v as nat, peak(shown) as nat, 7) as int),
            ),
        decreases values.len() - k,
    {
        let v: u64 = values[k];
        proof {
            assert(shown[k - start] == v);
            scaled_level_is_monotone(v as nat, max as nat, max as nat, 7);
            scaled_level_of_max_is_highest(max as nat);
        }
        let level = scaled_level_of(v, max, 7);
        out.push(block_of(level));
        k += 1;
        assert(out@ =~= shown.take(k - start).map_values(
            |v: u64| block(scaled_level(v as nat, peak(shown) as nat, 7) as int),
        ));
    }
    out
}

/// A sparkline is as wide as it may be, or as it has values; every character is
/// one of the eight blocks; a larger value never gets a lower block; and the
/// largest value gets the full one.
pub proof fn sparkline_shows_the_values(values: Seq<u64>, width: int)
    requires
        values.len() > 0,
        width >= 0,
    ensures
        ({
            let text = sparkline_text(values, width);
            let shown = window(values, width);
            &&& text.len() == if values.len() < width {
                values.len() as int
            } else {
                width
            }
            &&& forall|i: int|
                0 <= i < text.len() ==> block(0) <= #[trigger] text[i] <= block(7)
            &&& forall|i: int, j: int|
                0 <= i < text.len() && 0 <= j < text.len() && shown[i] <= shown[j] ==> (
                #[trigger] text[i]) <= (#[trigger] text[j])
            &&& forall|i: int|
                0 <= i < text.len() && shown[i] > 0 && shown[i] == peak(shown) ==> #[trigger] text[i]
                    == block(7)
        }),
{
    let text = sparkline_text(values, width);
    let shown = window(values, width);
    let max = peak(shown) as nat;
    lemma_peak(shown);
    scaled_level_of_max_is_highest(max);
    assert forall|i: int| 0 <= i < text.len() implies block(0) <= #[trigger] text[i] <= block(
        7,
    ) by {
        scaled_level_is_monotone(shown[i] as nat, max, max, 7);
    }
    assert forall|i: int, j: int|
        0 <= i < text.len() && 0 <= j < text.len() && shown[i] <= shown[j] implies (
    #[trigger] text[i]) <= (#[trigger] text[j]) by {
        scaled_level_is_monotone(shown[i] as nat, shown[j] as nat, max, 7);
        scaled_level_is_monotone(shown[j] as nat, max, max, 7);
    }
}

/// A series of zeros is a flat line, as is no series at all.
pub proof fn flat_series_give_flat_lines(values: Seq<u64>, width: int)
    requires
        width >= 0,
        forall|i: int| 0 <= i < values.len() ==> #[trigger] values[i] == 0,
    ensures
        forall|i: int|
            0 <= i < sparkline_text(values, width).len() ==> #[trigger] sparkline_text(
                values,
                width,
            )[i] == block(0),
{
    if values.len() > 0 {
        let shown = window(values, width);
        let text = sparkline_text(values, width);
        assert forall|i: int| 0 <= i < text.len() implies #[trigger] text[i] == block(0) by {
            let at = if values.len() > width {
                values.len() - width + i
            } else {
                i
            };
            assert(shown[i] == values[at]);
            lemma_double_of_small(0);
            assert(scaled_level(0, peak(shown) as nat, 7) == 0);
        }
    }
}

// ---------------------------------------------------------------------------
// Laws
// ---------------------------------------------------------------------------

/// The order in which the sort fields follow each other, with their headings.
pub proof fn sort_fields_follow_a_fixed_order(k: int)
    requires
        0 <= k < 6,
    ensures
        ({
            let fields = seq![
                SortField::Name,
                SortField::Active,
                SortField::Total,
                SortField::BytesIn,
                SortField::BytesOut,
                SortField::Errors,
            ];
            let headings = seq!["Name"@, "Active"@, "Total"@, "In"@, "Out"@, "Errors"@];
            &&& fields[k].next() == fields[(k + 1) % 6]
            &&& fields[k].label_text() == headings[k]
        }),
{
}

/// Sorted rows stand in the order of the counter itself, from the smallest to the
/// largest, or from the largest to the smallest when `desc`; among equal counters they
/// stand in the order of their names. By name they stand in the order of the names, or
/// the other way round.
pub proof fn sorted_rows_are_in_order(
    before: Seq<PipelineStat>,
    after: Seq<PipelineStat>,
    field: SortField,
    desc: bool,
    i: int,
    j: int,
)
    requires
        is_sort_of(before, after, field, desc),
        0 <= i < j < after.len(),
    ensures
        ({
            let (a, b) = if desc {
                (after[j], after[i])
            } else {
                (after[i], after[j])
            };
            &&& field == SortField::Active ==> a.connections_active <= b.connections_active
            &&& field == SortField::Total ==> a.connections_total <= b.connections_total
            &&& field == SortField::BytesIn ==> a.bytes_in <= b.bytes_in
            &&& field == SortField::BytesOut ==> a.bytes_out <= b.bytes_out
            &&& field == SortField::Errors ==> a.errors_total <= b.errors_total
            &&& field == SortField::Name ==> a.name@ == b.name@ || name_before(a.name@, b.name@)
        }),
        ({
            let (a, b) = (after[i], after[j]);
            ({
                ||| field == SortField::Active && a.connections_active == b.connections_active
                ||| field == SortField::Total && a.connections_total == b.connections_total
                ||| field == SortField::BytesIn && a.bytes_in == b.bytes_in
                ||| field == SortField::BytesOut && a.bytes_out == b.bytes_out
                ||| field == SortField::Errors && a.errors_total == b.errors_total
            }) ==> a.name@ == b.name@ || name_before(a.name@, b.name@)
        }),
{
    name_before_is_strict_total_order();
    assert(!row_before(after[j], after[i], field, desc));
}

/// Sorting loses no row and invents none: every row occurs as often as before.
pub proof fn sorting_keeps_the_rows(
    before: Seq<PipelineStat>,
    after: Seq<PipelineStat>,
    field: SortField,
    desc: bool,
    row: PipelineStat,
)
    requires
        is_sort_of(before, after, field, desc),
    ensures
        after.len() == before.len(),
        after.contains(row) <==> before.contains(row),
        after.to_multiset().count(row) == before.to_multiset().count(row),
{
    vstd::seq_lib::to_multiset_len(before);
    vstd::seq_lib::to_multiset_len(after);
    vstd::seq_lib::to_multiset_contains(before, row);
    vstd::seq_lib::to_multiset_contains(after, row);
}

/// Rows that have one name, and one value of the counter that they are sorted by, stay
/// in the order in which they were.
pub proof fn sorting_is_stable(
    before: Seq<PipelineStat>,
    after: Seq<PipelineStat>,
    field: SortField,
    desc: bool,
    row: PipelineStat,
    same: spec_fn(PipelineStat) -> bool,
)
    requires
        is_sort_of(before, after, field, desc),
        forall|r: PipelineStat| #[trigger]
            same(r) <==> r.name@ == row.name@ && match field {
                SortField::Name => true,
                SortField::Active => r.connections_active == row.connections_active,
                SortField::Total => r.connections_total == row.connections_total,
                SortField::BytesIn => r.bytes_in == row.bytes_in,
                SortField::BytesOut => r.bytes_out == row.bytes_out,
                SortField::Errors => r.errors_total == row.errors_total,
            },
    ensures
        after.filter(same) == before.filter(same),
{
    let f = |r: PipelineStat| rows_tie(r, row, field);
    assert(f =~= same);
    assert(ties_of(after, row, field) == after.filter(f));
    assert(ties_of(before, row, field) == before.filter(f));
}

/// The total adds up every row: it is named "TOTAL", and each of its counters is the
/// sum of that counter over all rows, of which there is one exactly when all sums fit.
pub proof fn the_total_adds_up_every_row(rows: Seq<PipelineStat>, total: PipelineStat)
    ensures
        is_total_of(total, rows) <==> {
            &&& total.name@ == "TOTAL"@
            &&& total.bytes_in == rows.fold_left(0int, |n: int, r: PipelineStat| n + r.bytes_in)
            &&& total.bytes_out == rows.fold_left(0int, |n: int, r: PipelineStat| n + r.bytes_out)
            &&& total.connections_total == rows.fold_left(
                0int,
                |n: int, r: PipelineStat| n + r.connections_total,
            )
            &&& total.connections_active == rows.fold_left(
                0int,
                |n: int, r: PipelineStat| n + r.connections_active,
            )
            &&& total.errors_total == rows.fold_left(
                0int,
                |n: int, r: PipelineStat| n + r.errors_total,
            )
        },
        sums_fit(rows) <==> {
            &&& rows.fold_left(0int, |n: int, r: PipelineStat| n + r.bytes_in) <= u64::MAX
            &&& rows.fold_left(0int, |n: int, r: PipelineStat| n + r.bytes_out) <= u64::MAX
            &&& rows.fold_left(0int, |n: int, r: PipelineStat| n + r.connections_total) <= u64::MAX
            &&& rows.fold_left(0int, |n: int, r: PipelineStat| n + r.connections_active) <= u64::MAX
            &&& rows.fold_left(0int, |n: int, r: PipelineStat| n + r.errors_total) <= u64::MAX
        },
    decreases rows.len(),
{
    lemma_sum_is_fold(rows, SortField::BytesIn, |n: int, r: PipelineStat| n + r.bytes_in);
    lemma_sum_is_fold(rows, SortField::BytesOut, |n: int, r: PipelineStat| n + r.bytes_out);
    lemma_sum_is_fold(rows, SortField::Total, |n: int, r: PipelineStat| n + r.connections_total);
    lemma_sum_is_fold(rows, SortField::Active, |n: int, r: PipelineStat| n + r.connections_active);
    lemma_sum_is_fold(rows, SortField::Errors, |n: int, r: PipelineStat| n + r.errors_total);
}

proof fn lemma_sum_is_fold(
    rows: Seq<PipelineStat>,
    field: SortField,
    f: spec_fn(int, PipelineStat) -> int,
)
    requires
        forall|n: int, r: PipelineStat| #[trigger] f(n, r) == n + r.counter(field),
    ensures
        counter_sum(rows, field) == rows.fold_left(0int, f),
    decreases rows.len(),
{
    reveal(Seq::fold_left);
    if rows.len() > 0 {
        lemma_sum_is_fold(rows.drop_last(), field, f);
    }
}

/// The line of a series shows its last values, as many as fit, each in its own place:
/// a value is never shown lower than a smaller one, zero is the lowest block, and the
/// largest value shown is the full block.
pub proof fn a_sparkline_shows_the_last_values(values: Seq<u64>, width: int, i: int, j: int)
    requires
        values.len() > 0,
        0 <= i,
        0 <= j,
        i < width && i < values.len(),
        j < width && j < values.len(),
    ensures
        ({
            let text = sparkline_text(values, width);
            let n = if values.len() < width {
                values.len() as int
            } else {
                width
            };
            let first = values.len() - n;
            &&& text.len() == n
            &&& '▁' <= text[i] <= '█'
            &&& values[first + i] <= values[first + j] ==> text[i] <= text[j]
            &&& values[first + i] == 0 ==> text[i] == '▁'
            &&& values[first + i] > 0 && (forall|k: int|
                first <= k < values.len() ==> #[trigger] values[k] <= values[first + i])
                ==> text[i] == '█'
            &&& values[first + j] > 0 && (forall|k: int|
                first <= k < values.len() ==> #[trigger] values[k] <= values[first + j]) ==> {
                // How far the block is off the value's share of the largest, in
                // fourteenths of the full height.
                let off = distance(
                    2 * (text[i] as int - '▁' as int) * values[first + j],
                    14 * values[first + i] as int,
                );
                &&& off * 0x10_0000_0000_0000 <= values[first + j] * 0x10_0000_0000_0040
                &&& values[first + j] < 0x4000_0000_0000 ==> off <= values[first + j]
                &&& 2 * values[first + i] == values[first + j] ==> text[i] == '▅'
            }
        }),
{
    let shown = window(values, width);
    let text = sparkline_text(values, width);
    sparkline_shows_the_values(values, width);
    lemma_peak(shown);
    let first = values.len() - shown.len();
    assert forall|k: int| 0 <= k < shown.len() implies shown[k] == #[trigger] values[first + k] by {}
    assert(values[first + i] == shown[i] && values[first + j] == shown[j]);
    lemma_double_of_small(0);
    assert(scaled_level(0, peak(shown) as nat, 7) == 0);
    if shown[i] > 0 && forall|k: int|
        first <= k < values.len() ==> #[trigger] values[k] <= values[first + i] {
        if peak(shown) > 1 {
            let k = choose|k: int| 0 <= k < shown.len() && shown[k] == peak(shown);
            assert(shown.contains(peak(shown)));
            assert(values[first + k] == peak(shown));
        }
        assert(shown[i] == peak(shown));
    }
    if shown[j] > 0 && forall|k: int|
        first <= k < values.len() ==> #[trigger] values[k] <= values[first + j] {
        if peak(shown) > 1 {
            let k = choose|k: int| 0 <= k < shown.len() && shown[k] == peak(shown);
            assert(shown.contains(peak(shown)));
            assert(values[first + k] == peak(shown));
        }
        assert(shown[j] == peak(shown));
        a_level_is_the_nearest_share(shown[i] as nat, peak(shown) as nat);
        scaled_level_is_monotone(shown[i] as nat, peak(shown) as nat, peak(shown) as nat, 7);
        scaled_level_of_max_is_highest(peak(shown) as nat);
        let level = scaled_level(shown[i] as nat, peak(shown) as nat, 7);
        assert(text[i] as int - '▁' as int == level);
        if 2 * shown[i] == shown[j] {
            half_of_the_largest_is_rounded_up(shown[i] as nat);
        }
    }
}

/// Without values the line is flat: the lowest block, as often as is wide, and at least
/// once.
pub proof fn no_values_give_a_flat_line(width: int)
    ensures
        sparkline_text(seq![], width) == Seq::new(
            if width > 1 {
                width as nat
            } else {
                1
            },
            |i: int| '▁',
        ),
{
    assert(sparkline_text(seq![], width) =~= Seq::new(
        if width > 1 {
            width as nat
        } else {
            1
        },
        |i: int| '▁',
    ));
}

} // verus!
