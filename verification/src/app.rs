//! The state of the dashboard, and what keys and fresh counters do to it.

use std::collections::VecDeque;

use vstd::prelude::*;

use crate::dashboard::{
    is_sort_of, next_sort_field, sort_pipelines, PipelineStat, SortField, HISTORY_LEN,
};
use crate::names::NameTable;

verus! {

// ---------------------------------------------------------------------------
// Keys
// ---------------------------------------------------------------------------

/// What the dashboard shows.
#[derive(Debug, Clone, Copy, PartialEq, Eq, Structural)]
pub enum Mode {
    Normal,
    Help,
    Detail,
}

/// Every effect that a key press can have.
#[derive(Debug, Clone, Copy, PartialEq, Eq, Structural)]
pub enum Action {
    Quit,
    MoveUp,
    MoveDown,
    CycleSort,
    ReverseSort,
    TogglePause,
    OpenHelp,
    OpenDetail,
    Close,
    Nothing,
}

/// A key, as far as the dashboard tells keys apart.
#[derive(Debug, Clone, Copy, PartialEq, Eq, Structural)]
pub enum KeyCode {
    Esc,
    Up,
    Down,
    Enter,
    Char(char),
    Other,
}

/// What a key means: `q` quits from anywhere, and every other binding depends on
/// the mode.
pub open spec fn key_action(mode: Mode, key: KeyCode) -> Action {
    if key == KeyCode::Char('q') {
        Action::Quit
    } else if mode == Mode::Normal {
        if key == KeyCode::Esc {
            Action::Quit
        } else if key == KeyCode::Up || key == KeyCode::Char('k') {
            Action::MoveUp
        } else if key == KeyCode::Down || key == KeyCode::Char('j') {
            Action::MoveDown
        } else if key == KeyCode::Char('s') {
            Action::CycleSort
        } else if key == KeyCode::Char('r') {
            Action::ReverseSort
        } else if key == KeyCode::Char('p') {
            Action::TogglePause
        } else if key == KeyCode::Char('?') {
            Action::OpenHelp
        } else if key == KeyCode::Enter {
            Action::OpenDetail
        } else {
            Action::Nothing
        }
    } else if key == KeyCode::Esc || key == KeyCode::Char('?') || key == KeyCode::Enter {
        Action::Close
    } else {
        Action::Nothing
    }
}

/// What a key means in a mode.
pub fn handle_key(mode: Mode, key: KeyCode) -> (action: Action)
    ensures
        action == key_action(mode, key),
{
    if let KeyCode::Char('q') = key {
        return Action::Quit;
    }
    match mode {
        Mode::Normal => match key {
            KeyCode::Esc => Action::Quit,
            KeyCode::Up => Action::MoveUp,
            KeyCode::Down => Action::MoveDown,
            KeyCode::Enter => Action::OpenDetail,
            KeyCode::Char(c) => if c == 'k' {
                Action::MoveUp
            } else if c == 'j' {
                Action::MoveDown
            } else if c == 's' {
                Action::CycleSort
            } else if c == 'r' {
                Action::ReverseSort
            } else if c == 'p' {
                Action::TogglePause
            } else if c == '?' {
                Action::OpenHelp
            } else {
                Action::Nothing
            },
            KeyCode::Other => Action::Nothing,
        },
        Mode::Help | Mode::Detail => match key {
            KeyCode::Esc => Action::Close,
            KeyCode::Enter => Action::Close,
            KeyCode::Char(c) => if c == '?' {
                Action::Close
            } else {
                Action::Nothing
            },
            _ => Action::Nothing,
        },
    }
}

/// `q` quits whatever is shown, and a popup has no other way out of the
/// dashboard.
pub proof fn only_q_quits_a_popup(mode: Mode, key: KeyCode)
    ensures
        key_action(mode, KeyCode::Char('q')) == Action::Quit,
        mode != Mode::Normal && key_action(mode, key) == Action::Quit ==> key == KeyCode::Char('q'),
{
}

// ---------------------------------------------------------------------------
// State
// ---------------------------------------------------------------------------

/// The state of the dashboard.
pub struct App {
    pub pipelines: Vec<PipelineStat>,
    pub history: NameTable<VecDeque<u64>>,
    pub selected: usize,
    pub sort_field: SortField,
    pub sort_desc: bool,
    pub paused: bool,
    pub mode: Mode,
    pub last_error: Option<String>,
}

/// A history with one more sample, the oldest ones dropped where it grows too
/// long.
pub open spec fn sampled(history: Seq<u64>, sample: u64) -> Seq<u64> {
    let longer = history.push(sample);
    if longer.len() > HISTORY_LEN {
        longer.skip(longer.len() - HISTORY_LEN)
    } else {
        longer
    }
}

/// The histories after one sample of each row, in order of the rows.
pub open spec fn history_after(
    history: Map<Seq<char>, Seq<u64>>,
    rows: Seq<PipelineStat>,
) -> Map<Seq<char>, Seq<u64>>
    decreases rows.len(),
{
    if rows.len() == 0 {
        history
    } else {
        let before = history_after(history, rows.drop_last());
        let row = rows.last();
        let old_samples = if before.contains_key(row.name@) {
            before[row.name@]
        } else {
            seq![]
        };
        before.insert(row.name@, sampled(old_samples, (row.bytes_in + row.bytes_out) as u64))
    }
}

/// The traffic of every row fits in a sample.
pub open spec fn samples_fit(rows: Seq<PipelineStat>) -> bool {
    forall|i: int|
        0 <= i < rows.len() ==> (#[trigger] rows[i]).bytes_in + rows[i].bytes_out <= u64::MAX
}

/// Whether the traffic of every row fits in a sample.
pub fn check_samples(rows: &[PipelineStat]) -> (fit: bool)
    ensures
        fit == samples_fit(rows@),
{
    let mut i: usize = 0;
    while i < rows.len()
        invariant
            i <= rows@.len(),
            forall|k: int|
                0 <= k < i ==> (#[trigger] rows@[k]).bytes_in + rows@[k].bytes_out <= u64::MAX,
        decreases rows.len() - i,
    {
        if rows[i].bytes_in > u64::MAX - rows[i].bytes_out {
            assert(rows@[i as int].bytes_in + rows@[i as int].bytes_out > u64::MAX);
            return false;
        }
        i += 1;
    }
    true
}

/// The place of the selection among `n` rows: the last one where it is past the
/// end, and the first where there are none.
pub open spec fn clamped(selected: usize, n: nat) -> int {
    if n == 0 {
        0
    } else if selected >= n {
        n - 1
    } else {
        selected as int
    }
}

impl App {
    /// The samples of every pipeline, oldest first.
    pub open spec fn histories(&self) -> Map<Seq<char>, Seq<u64>> {
        self.history@.map_values(|h: VecDeque<u64>| h@)
    }

    /// The history table is proper, and no history is longer than it may be.
    pub open spec fn wf(&self) -> bool {
        &&& self.history.wf()
        &&& forall|name: Seq<char>| #[trigger]
            self.histories().contains_key(name) ==> self.histories()[name].len() <= HISTORY_LEN
    }

    /// The selection points at a row, or at nothing where there are no rows.
    pub open spec fn selection_in_range(&self) -> bool {
        self.selected < self.pipelines@.len() || (self.pipelines@.len() == 0 && self.selected == 0)
    }

    /// Everything but the rows, the histories and the selection.
    pub open spec fn same_settings(&self, other: &App) -> bool {
        &&& self.sort_field == other.sort_field
        &&& self.sort_desc == other.sort_desc
        &&& self.paused == other.paused
        &&& self.mode == other.mode
        &&& self.last_error == other.last_error
    }

    /// The dashboard before the first poll.
    pub fn new() -> (app: Self)
        ensures
            app.wf(),
            app.pipelines@ == Seq::<PipelineStat>::empty(),
            app.histories() == Map::<Seq<char>, Seq<u64>>::empty(),
            app.selected == 0,
            app.sort_field == SortField::Name,
            !app.sort_desc,
            !app.paused,
            app.mode == Mode::Normal,
            app.last_error is None,
    {
        let app = App {
            pipelines: Vec::new(),
            history: NameTable::new(),
            selected: 0,
            sort_field: SortField::Name,
            sort_desc: false,
            paused: false,
            mode: Mode::Normal,
            last_error: None,
        };
        assert(app.histories() =~= Map::<Seq<char>, Seq<u64>>::empty());
        app
    }

    /// Adds one sample to the history of a pipeline.
    fn add_sample(&mut self, i: usize)
        requires
            old(self).wf(),
            i < old(self).pipelines@.len(),
            samples_fit(old(self).pipelines@),
        ensures
            final(self).wf(),
            final(self).pipelines == old(self).pipelines,
            final(self).selected == old(self).selected,
            final(self).same_settings(old(self)),
            ({
                let row = old(self).pipelines@[i as int];
                let before = old(self).histories();
                let samples = if before.contains_key(row.name@) {
                    before[row.name@]
                } else {
                    seq![]
                };
                final(self).histories() == before.insert(
                    row.name@,
                    sampled(samples, (row.bytes_in + row.bytes_out) as u64),
                )
            }),
    {
        let ghost before = self.histories();
        let ghost row = self.pipelines@[i as int];
        let sample: u64 = self.pipelines[i].bytes_in + self.pipelines[i].bytes_out;
        let entry = self.history.get_or_insert(self.pipelines[i].name.as_str(), VecDeque::new());
        let ghost samples = entry@;
        entry.push_back(sample);
        while entry.len() > HISTORY_LEN
            invariant
                entry@.len() <= samples.len() + 1,
                entry@ == samples.push(sample).skip(samples.len() + 1 - entry@.len()),
                samples.len() + 1 >= HISTORY_LEN ==> entry@.len() >= HISTORY_LEN,
                samples.len() + 1 < HISTORY_LEN ==> entry@.len() == samples.len() + 1,
            decreases entry@.len(),
        {
            entry.pop_front();
        }
        assert(entry@ =~= sampled(samples, sample));
        proof {
            assert(self.histories() =~= before.insert(row.name@, sampled(samples, sample)));
        }
    }

    /// Replaces the current pipeline set, re-sorts, pushes one new history sample
    /// per pipeline, and clamps `selected` so that it never points past the new
    /// row count.
    pub fn update(&mut self, pipelines: Vec<PipelineStat>)
        requires
            old(self).wf(),
            samples_fit(pipelines@),
        ensures
            final(self).wf(),
            is_sort_of(pipelines@, final(self).pipelines@, old(self).sort_field, old(self).sort_desc),
            final(self).histories() == history_after(old(self).histories(), final(self).pipelines@),
            final(self).selected == clamped(old(self).selected, pipelines@.len()),
            final(self).selection_in_range(),
            final(self).same_settings(old(self)),
    {
        let ghost given = pipelines@;
        let ghost before = self.histories();
        self.pipelines = pipelines;
        sort_pipelines(self.pipelines.as_mut_slice(), self.sort_field, self.sort_desc);
        let ghost rows = self.pipelines@;
        proof {
            lemma_samples_fit(given, rows);
            vstd::seq_lib::to_multiset_len(given);
            vstd::seq_lib::to_multiset_len(rows);
            assert(self.histories() =~= before);
        }
        let mut i: usize = 0;
        while i < self.pipelines.len()
            invariant
                self.wf(),
                rows == self.pipelines@,
                samples_fit(rows),
                i <= rows.len(),
                self.histories() == history_after(before, rows.take(i as int)),
                self.selected == old(self).selected,
                self.same_settings(old(self)),
            decreases self.pipelines.len() - i,
        {
            assert(rows.take(i + 1).drop_last() =~= rows.take(i as int));
            self.add_sample(i);
            i += 1;
        }
        assert(rows.take(rows.len() as int) =~= rows);
        if self.pipelines.len() == 0 {
            self.selected = 0;
        } else if self.selected >= self.pipelines.len() {
            self.selected = self.pipelines.len() - 1;
        }
    }

    /// Whether to poll: when a poll is due, unless the refresh is paused.
    pub fn wants_poll(&self, due: bool) -> (poll: bool)
        ensures
            poll == (due && !self.paused),
    {
        due && !self.paused
    }

    /// Takes what a poll brought. New rows replace the old ones and clear the last
    /// error; a failure is kept as the last error, and the old rows stay.
    pub fn take_poll(&mut self, outcome: Result<Vec<PipelineStat>, String>)
        requires
            old(self).wf(),
            outcome matches Ok(rows) ==> samples_fit(rows@),
        ensures
            final(self).wf(),
            final(self).sort_field == old(self).sort_field,
            final(self).sort_desc == old(self).sort_desc,
            final(self).paused == old(self).paused,
            final(self).mode == old(self).mode,
            match outcome {
                Ok(rows) => {
                    &&& is_sort_of(
                        rows@,
                        final(self).pipelines@,
                        old(self).sort_field,
                        old(self).sort_desc,
                    )
                    &&& final(self).histories() == history_after(
                        old(self).histories(),
                        final(self).pipelines@,
                    )
                    &&& final(self).selected == clamped(old(self).selected, rows@.len())
                    &&& final(self).selection_in_range()
                    &&& final(self).last_error is None
                },
                Err(error) => {
                    &&& final(self).pipelines@ == old(self).pipelines@
                    &&& final(self).histories() == old(self).histories()
                    &&& final(self).selected == old(self).selected
                    &&& final(self).last_error == Some(error)
                },
            },
    {
        match outcome {
            Ok(rows) => {
                self.update(rows);
                let ghost after = self.histories();
                self.last_error = None;
                assert(self.histories() =~= after);
            },
            Err(error) => {
                self.last_error = Some(error);
                assert(self.histories() =~= old(self).histories());
            },
        }
    }

    /// The selected row.
    pub fn selected_pipeline(&self) -> (row: Option<&PipelineStat>)
        ensures
            row == (if self.selected < self.pipelines@.len() {
                Some(&self.pipelines@[self.selected as int])
            } else {
                None
            }),
    {
        if self.selected < self.pipelines.len() {
            Some(&self.pipelines[self.selected])
        } else {
            None
        }
    }

    /// The samples of a pipeline, oldest first; none where it has no history.
    pub open spec fn samples_of(&self, name: Seq<char>) -> Seq<u64> {
        if self.histories().contains_key(name) {
            self.histories()[name]
        } else {
            seq![]
        }
    }

    /// The samples of a pipeline, oldest first.
    pub fn history_of(&self, name: &str) -> (samples: Vec<u64>)
        requires
            self.wf(),
        ensures
            samples@ == self.samples_of(name@),
    {
        let mut samples: Vec<u64> = Vec::new();
        if let Some(history) = self.history.get(name) {
            let mut i: usize = 0;
            while i < history.len()
                invariant
                    i <= history@.len(),
                    samples@ == history@.take(i as int),
                decreases history@.len() - i,
            {
                samples.push(history[i]);
                i += 1;
                assert(samples@ =~= history@.take(i as int));
            }
            assert(history@.take(history@.len() as int) =~= history@);
        }
        samples
    }

    /// A copy of the selected pipeline's history.
    pub fn selected_history(&self) -> (samples: Vec<u64>)
        requires
            self.wf(),
        ensures
            samples@ == (if self.selected < self.pipelines@.len() {
                self.samples_of(self.pipelines@[self.selected as int].name@)
            } else {
                seq![]
            }),
    {
        match self.selected_pipeline() {
            Some(row) => self.history_of(row.name.as_str()),
            None => Vec::new(),
        }
    }

    /// Does what an action asks for, and says whether to go on. A new order
    /// shows at once.
    pub fn perform(&mut self, action: Action) -> (go_on: bool)
        ensures
            go_on == (action != Action::Quit),
            final(self).history == old(self).history,
            final(self).last_error == old(self).last_error,
            final(self).selected == (if action == Action::MoveUp && old(self).selected > 0 {
                old(self).selected - 1
            } else if action == Action::MoveDown && old(self).selected + 1 < old(
                self,
            ).pipelines@.len() {
                old(self).selected + 1
            } else {
                old(self).selected as int
            }),
            final(self).sort_field == (if action == Action::CycleSort {
                old(self).sort_field.next()
            } else {
                old(self).sort_field
            }),
            final(self).sort_desc == (old(self).sort_desc != (action == Action::ReverseSort)),
            final(self).paused == (old(self).paused != (action == Action::TogglePause)),
            final(self).mode == (match action {
                Action::OpenHelp => Mode::Help,
                Action::OpenDetail => Mode::Detail,
                Action::Close => Mode::Normal,
                _ => old(self).mode,
            }),
            if action == Action::CycleSort || action == Action::ReverseSort {
                is_sort_of(
                    old(self).pipelines@,
                    final(self).pipelines@,
                    final(self).sort_field,
                    final(self).sort_desc,
                )
            } else {
                final(self).pipelines == old(self).pipelines
            },
            old(self).wf() ==> final(self).wf(),
            old(self).selection_in_range() ==> final(self).selection_in_range(),
    {
        let ghost rows = self.pipelines@;
        match action {
            Action::Quit => {
                return false;
            },
            Action::MoveUp => {
                if self.selected > 0 {
                    self.selected = self.selected - 1;
                }
            },
            Action::MoveDown => {
                if self.selected < self.pipelines.len() && self.selected + 1
                    < self.pipelines.len() {
                    self.selected = self.selected + 1;
                }
            },
            Action::CycleSort => {
                self.sort_field = next_sort_field(self.sort_field);
                sort_pipelines(self.pipelines.as_mut_slice(), self.sort_field, self.sort_desc);
            },
            Action::ReverseSort => {
                self.sort_desc = !self.sort_desc;
                sort_pipelines(self.pipelines.as_mut_slice(), self.sort_field, self.sort_desc);
            },
            Action::TogglePause => {
                self.paused = !self.paused;
            },
            Action::OpenHelp => {
                self.mode = Mode::Help;
            },
            Action::OpenDetail => {
                self.mode = Mode::Detail;
            },
            Action::Close => {
                self.mode = Mode::Normal;
            },
            Action::Nothing => {},
        }
        proof {
            vstd::seq_lib::to_multiset_len(rows);
            vstd::seq_lib::to_multiset_len(self.pipelines@);
            assert(self.histories() =~= old(self).histories());
        }
        true
    }
}

impl Default for App {
    /// The dashboard before the first poll.
    fn default() -> (app: Self)
        ensures
            app.wf(),
            app.pipelines@ == Seq::<PipelineStat>::empty(),
            app.histories() == Map::<Seq<char>, Seq<u64>>::empty(),
            app.selected == 0,
            app.sort_field == SortField::Name,
            !app.sort_desc,
            !app.paused,
            app.mode == Mode::Normal,
            app.last_error is None,
    {
        App::new()
    }
}

proof fn lemma_samples_fit(a: Seq<PipelineStat>, b: Seq<PipelineStat>)
    requires
        a.to_multiset() == b.to_multiset(),
        samples_fit(a),
    ensures
        samples_fit(b),
{
    assert forall|i: int| 0 <= i < b.len() implies (#[trigger] b[i]).bytes_in + b[i].bytes_out
        <= u64::MAX by {
        vstd::seq_lib::to_multiset_contains(a, b[i]);
        vstd::seq_lib::to_multiset_contains(b, b[i]);
        assert(b.contains(b[i]));
        let k = choose|k: int| 0 <= k < a.len() && a[k] == b[i];
        assert(a[k] == b[i]);
    }
}

// ---------------------------------------------------------------------------
// Laws
// ---------------------------------------------------------------------------

/// A history never grows past its limit, its newest sample is the last one, and
/// what stays of the older ones is their end.
pub proof fn histories_are_bounded(history: Seq<u64>, sample: u64)
    requires
        history.len() <= HISTORY_LEN,
    ensures
        sampled(history, sample).len() <= HISTORY_LEN,
        sampled(history, sample).len() > 0,
        sampled(history, sample).last() == sample,
        sampled(history, sample).drop_last() == history.skip(
            history.len() + 1 - sampled(history, sample).len(),
        ),
{
    let out = sampled(history, sample);
    assert(out.drop_last() =~= history.skip(history.len() + 1 - out.len()));
}

/// The samples of one pipeline over a run of polls.
pub open spec fn polled(history: Seq<u64>, samples: Seq<u64>) -> Seq<u64>
    decreases samples.len(),
{
    if samples.len() == 0 {
        history
    } else {
        sampled(polled(history, samples.drop_last()), samples.last())
    }
}

/// From an empty history, the history is always the last samples polled, as many
/// as are kept.
pub proof fn history_is_the_last_samples(samples: Seq<u64>)
    ensures
        polled(seq![], samples) == (if samples.len() > HISTORY_LEN {
            samples.skip(samples.len() - HISTORY_LEN)
        } else {
            samples
        }),
    decreases samples.len(),
{
    if samples.len() > 0 {
        let before = samples.drop_last();
        history_is_the_last_samples(before);
        let n = HISTORY_LEN as int;
        if samples.len() > n {
            assert(polled(seq![], samples) =~= samples.skip(samples.len() - n));
        } else {
            assert(polled(seq![], samples) =~= samples);
        }
    } else {
        assert(samples =~= seq![]);
    }
}

/// Every effect has its keys and no others: what moves, sorts, pauses and opens works on
/// the table alone, and what closes works on a popup alone.
pub proof fn every_effect_has_its_keys(mode: Mode, key: KeyCode)
    ensures
        ({
            let action = key_action(mode, key);
            let table = mode == Mode::Normal;
            &&& action == Action::Quit <==> key == KeyCode::Char('q') || (table && key
                == KeyCode::Esc)
            &&& action == Action::MoveUp <==> table && (key == KeyCode::Up || key
                == KeyCode::Char('k'))
            &&& action == Action::MoveDown <==> table && (key == KeyCode::Down || key
                == KeyCode::Char('j'))
            &&& action == Action::CycleSort <==> table && key == KeyCode::Char('s')
            &&& action == Action::ReverseSort <==> table && key == KeyCode::Char('r')
            &&& action == Action::TogglePause <==> table && key == KeyCode::Char('p')
            &&& action == Action::OpenHelp <==> table && key == KeyCode::Char('?')
            &&& action == Action::OpenDetail <==> table && key == KeyCode::Enter
            &&& action == Action::Close <==> !table && (key == KeyCode::Esc || key
                == KeyCode::Enter || key == KeyCode::Char('?'))
        }),
{
}

/// The selection stays where it is while there is a row there, else it moves to the last
/// row, and to the top where there is none.
pub proof fn the_selection_stays_on_a_row(selected: usize, n: nat)
    ensures
        selected < n ==> clamped(selected, n) == selected,
        0 < n <= selected ==> clamped(selected, n) == n - 1,
        n == 0 ==> clamped(selected, n) == 0,
{
}

/// Fresh rows add one sample to the history of each pipeline, the sum of its bytes both
/// ways, and keep the last thirty; the history of every other name stays as it was.
pub proof fn fresh_rows_add_one_sample_each(
    history: Map<Seq<char>, Seq<u64>>,
    rows: Seq<PipelineStat>,
    name: Seq<char>,
    i: int,
)
    requires
        samples_fit(rows),
    ensures
        (forall|k: int| 0 <= k < rows.len() ==> (#[trigger] rows[k]).name@ != name) ==> (
        history_after(history, rows).contains_key(name) <==> history.contains_key(name)) && (
        history.contains_key(name) ==> history_after(history, rows)[name] == history[name]),
        0 <= i < rows.len() && rows[i].name@ == name && (forall|k: int|
            0 <= k < rows.len() && k != i ==> (#[trigger] rows[k]).name@ != name) ==> {
            let old_samples = if history.contains_key(name) {
                history[name]
            } else {
                seq![]
            };
            let new_samples = history_after(history, rows)[name];
            &&& history_after(history, rows).contains_key(name)
            &&& new_samples.len() > 0
            &&& new_samples.last() == rows[i].bytes_in + rows[i].bytes_out
            &&& old_samples.len() < 30 ==> new_samples.drop_last() == old_samples
            &&& old_samples.len() >= 30 ==> new_samples.drop_last() == old_samples.skip(
                old_samples.len() - 29,
            )
        },
    decreases rows.len(),
{
    if rows.len() > 0 {
        let rest = rows.drop_last();
        let last = rows.len() - 1;
        assert(samples_fit(rest)) by {
            assert forall|k: int| 0 <= k < rest.len() implies (#[trigger] rest[k]).bytes_in
                + rest[k].bytes_out <= u64::MAX by {
                assert(rest[k] == rows[k]);
            }
        }
        fresh_rows_add_one_sample_each(history, rest, name, i);
        assert(rows.last() == rows[last]);
        if forall|k: int| 0 <= k < rows.len() ==> (#[trigger] rows[k]).name@ != name {
            assert forall|k: int| 0 <= k < rest.len() implies (#[trigger] rest[k]).name@
                != name by {
                assert(rest[k] == rows[k]);
            }
        }
        if 0 <= i < rows.len() && rows[i].name@ == name && forall|k: int|
            0 <= k < rows.len() && k != i ==> (#[trigger] rows[k]).name@ != name {
            assert forall|k: int| 0 <= k < rest.len() && k != i implies (#[trigger] rest[k]).name@
                != name by {
                assert(rest[k] == rows[k]);
            }
            if i == last {
                let old_samples = if history.contains_key(name) {
                    history[name]
                } else {
                    seq![]
                };
                let sample = (rows[i].bytes_in + rows[i].bytes_out) as u64;
                let out = sampled(old_samples, sample);
                assert(history_after(history, rows)[name] == out);
                if old_samples.len() < 30 {
                    assert(out.drop_last() =~= old_samples);
                } else {
                    assert(out.drop_last() =~= old_samples.skip(old_samples.len() - 29));
                }
            } else {
                assert(rest[i] == rows[i]);
                assert(rows[last].name@ != name);
            }
        }
    }
}

/// A history is shown as it was sampled, oldest first, and a name without one shows none.
pub proof fn a_history_is_shown_as_sampled(app: App, name: Seq<char>)
    ensures
        app.history@.contains_key(name) ==> app.samples_of(name) == app.history@[name]@,
        !app.history@.contains_key(name) ==> app.samples_of(name) == Seq::<u64>::empty(),
{
}

/// Samples fit exactly when the bytes of every row, both ways together, do.
pub proof fn samples_fit_when_every_sum_does(rows: Seq<PipelineStat>, row: PipelineStat)
    ensures
        samples_fit(seq![]),
        samples_fit(rows.push(row)) <==> samples_fit(rows) && row.bytes_in + row.bytes_out
            <= 0xffff_ffff_ffff_ffff,
{
    let all = rows.push(row);
    if samples_fit(all) {
        assert forall|i: int| 0 <= i < rows.len() implies (#[trigger] rows[i]).bytes_in
            + rows[i].bytes_out <= u64::MAX by {
            assert(all[i] == rows[i]);
        }
        assert(all[rows.len() as int] == row);
    }
}

/// Fresh rows are sampled in order, every one of them: sampling two lists one after the
/// other is sampling both in one, so a name that stands twice is sampled twice.
pub proof fn rows_are_sampled_in_order(
    history: Map<Seq<char>, Seq<u64>>,
    a: Seq<PipelineStat>,
    b: Seq<PipelineStat>,
)
    ensures
        history_after(history, seq![]) == history,
        history_after(history, a + b) == history_after(history_after(history, a), b),
    decreases b.len(),
{
    if b.len() == 0 {
        assert(a + b =~= a);
    } else {
        rows_are_sampled_in_order(history, a, b.drop_last());
        assert((a + b).drop_last() =~= a + b.drop_last());
        assert((a + b).last() == b.last());
    }
}

} // verus!
