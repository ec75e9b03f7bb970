use wraithflow::app::{check_samples, handle_key, Action, App, KeyCode, Mode};
use wraithflow::dashboard::{
    aggregate, next_sort_field, sort_pipelines, sparkline_chars, try_aggregate, PipelineStat,
    SortField, StatsResponse, HISTORY_LEN,
};
use wraithflow::double::scaled_level_of;

fn stat(name: &str, active: u64, total: u64, bin: u64, bout: u64, errors: u64) -> PipelineStat {
    PipelineStat {
        name: name.to_string(),
        bytes_in: bin,
        bytes_out: bout,
        connections_total: total,
        connections_active: active,
        errors_total: errors,
    }
}

fn names(rows: &[PipelineStat]) -> Vec<&str> {
    rows.iter().map(|r| r.name.as_str()).collect()
}

#[test]
fn next_sort_field_cycles_through_every_field_and_wraps() {
    let mut f = SortField::Name;
    let mut seen = vec![f];
    for _ in 0..5 {
        f = next_sort_field(f);
        seen.push(f);
    }
    assert_eq!(next_sort_field(f), SortField::Name);
    assert_eq!(seen.len(), 6);
}

#[test]
fn fields_have_labels() {
    let labels: Vec<&str> = [
        SortField::Name,
        SortField::Active,
        SortField::Total,
        SortField::BytesIn,
        SortField::BytesOut,
        SortField::Errors,
    ]
    .iter()
    .map(|f| f.label())
    .collect();
    assert_eq!(labels, vec!["Name", "Active", "Total", "In", "Out", "Errors"]);
}

#[test]
fn sort_pipelines_by_name_ascending() {
    let mut p = vec![stat("b", 0, 0, 0, 0, 0), stat("a", 0, 0, 0, 0, 0)];
    sort_pipelines(&mut p, SortField::Name, false);
    assert_eq!(p[0].name, "a");
}

#[test]
fn sort_pipelines_by_errors_descending() {
    let mut p = vec![stat("a", 0, 0, 0, 0, 1), stat("b", 0, 0, 0, 0, 5)];
    sort_pipelines(&mut p, SortField::Errors, true);
    assert_eq!(p[0].name, "b");
}

#[test]
fn sort_pipelines_breaks_ties_by_name() {
    let mut p = vec![stat("z", 1, 0, 0, 0, 0), stat("a", 1, 0, 0, 0, 0)];
    sort_pipelines(&mut p, SortField::Active, false);
    assert_eq!(p[0].name, "a");
}

#[test]
fn every_field_sorts_by_its_own_counter() {
    let rows = vec![
        stat("a", 1, 2, 3, 4, 0),
        stat("b", 2, 3, 4, 0, 1),
        stat("c", 3, 4, 0, 1, 2),
        stat("d", 4, 0, 1, 2, 3),
        stat("e", 0, 1, 2, 3, 4),
    ];
    let order = |field, desc| {
        let mut p = rows.clone();
        sort_pipelines(&mut p, field, desc);
        p.iter().map(|r| r.name.clone()).collect::<String>()
    };
    assert_eq!(order(SortField::Name, true), "edcba");
    assert_eq!(order(SortField::Active, false), "eabcd");
    assert_eq!(order(SortField::Total, false), "deabc");
    assert_eq!(order(SortField::BytesIn, false), "cdeab");
    assert_eq!(order(SortField::BytesOut, false), "bcdea");
    assert_eq!(order(SortField::Errors, true), "edcba");
}

#[test]
fn ties_stay_in_name_order_when_the_field_is_reversed() {
    let mut p = vec![
        stat("c", 1, 0, 0, 0, 0),
        stat("a", 1, 0, 0, 0, 0),
        stat("b", 2, 0, 0, 0, 0),
    ];
    sort_pipelines(&mut p, SortField::Active, true);
    assert_eq!(names(&p), vec!["b", "a", "c"]);
}

#[test]
fn rows_that_tie_altogether_keep_their_order() {
    let mut p = vec![
        stat("a", 1, 7, 0, 0, 0),
        stat("a", 1, 3, 0, 0, 0),
        stat("a", 0, 5, 0, 0, 0),
    ];
    sort_pipelines(&mut p, SortField::Active, false);
    let totals: Vec<u64> = p.iter().map(|r| r.connections_total).collect();
    assert_eq!(totals, vec![5, 7, 3]);
}

#[test]
fn aggregate_sums_every_field() {
    let p = vec![stat("a", 1, 2, 3, 4, 5), stat("b", 10, 20, 30, 40, 50)];
    let total = aggregate(&p);
    assert_eq!(total.name, "TOTAL");
    assert_eq!(total.connections_active, 11);
    assert_eq!(total.connections_total, 22);
    assert_eq!(total.bytes_in, 33);
    assert_eq!(total.bytes_out, 44);
    assert_eq!(total.errors_total, 55);
}

#[test]
fn aggregate_of_empty_is_all_zero() {
    let total = aggregate(&[]);
    assert_eq!(total.connections_active, 0);
}

#[test]
fn sums_that_do_not_fit_have_no_total() {
    let p = vec![stat("a", 0, 0, u64::MAX, 0, 0), stat("b", 0, 0, 1, 0, 0)];
    assert!(try_aggregate(&p).is_none());
    assert_eq!(try_aggregate(&p[..1]).unwrap().bytes_in, u64::MAX);
    assert!(StatsResponse::default().pipelines.is_empty());
}

#[test]
fn sparkline_chars_empty_input_is_flat() {
    assert_eq!(sparkline_chars(&[], 4), "▁▁▁▁");
}

#[test]
fn sparkline_chars_all_zero_is_flat_not_a_panic() {
    assert_eq!(sparkline_chars(&[0, 0, 0], 3), "▁▁▁");
}

#[test]
fn sparkline_chars_shows_only_the_last_width_values() {
    let values: Vec<u64> = (1..=10).collect();
    let out = sparkline_chars(&values, 3);
    assert_eq!(out.chars().count(), 3);
}

#[test]
fn sparkline_chars_highest_value_is_the_tallest_block() {
    let out = sparkline_chars(&[0, 5, 10], 3);
    assert_eq!(out.chars().last(), Some('█'));
}

#[test]
fn sparklines_have_every_height() {
    assert_eq!(sparkline_chars(&[0, 1, 2, 3, 4, 5, 6, 7], 8), "▁▂▃▄▅▆▇█");
    assert_eq!(sparkline_chars(&[9, 1, 2], 2), "▅█");
    assert_eq!(sparkline_chars(&[5], 0), "");
    assert_eq!(sparkline_chars(&[], 0), "▁");
    assert_eq!(sparkline_chars(&[1], 5), "█");
}

#[test]
fn levels_are_those_of_double_precision() {
    let double = |v: u64, max: u64| ((v as f64 / max as f64) * 7f64).round() as u64;
    let mut x: u64 = 0x9e37_79b9_7f4a_7c15;
    for i in 0..20000u32 {
        x = x.wrapping_mul(6364136223846793005).wrapping_add(1442695040888963407);
        let max = (x >> (i % 64)).max(1);
        x = x.wrapping_mul(6364136223846793005).wrapping_add(1442695040888963407);
        let v = x % max + (x >> 63).min(max - x % max);
        assert_eq!(scaled_level_of(v, max, 7), double(v, max));
    }
    for max in [1u64, 2, 14, 1 << 53, (1 << 53) + 1, u64::MAX - 1, u64::MAX] {
        for k in 0..=14u64 {
            for d in [0u64, 1] {
                let v = (max / 14).saturating_mul(k).saturating_add(d).min(max);
                assert_eq!(scaled_level_of(v, max, 7), double(v, max));
            }
        }
    }
}

#[test]
fn handle_key_quits_from_every_mode() {
    for mode in [Mode::Normal, Mode::Help, Mode::Detail] {
        assert_eq!(handle_key(mode, KeyCode::Char('q')), Action::Quit);
    }
}

#[test]
fn handle_key_normal_mode_bindings() {
    assert_eq!(handle_key(Mode::Normal, KeyCode::Esc), Action::Quit);
    assert_eq!(handle_key(Mode::Normal, KeyCode::Up), Action::MoveUp);
    assert_eq!(handle_key(Mode::Normal, KeyCode::Char('k')), Action::MoveUp);
    assert_eq!(handle_key(Mode::Normal, KeyCode::Down), Action::MoveDown);
    assert_eq!(
        handle_key(Mode::Normal, KeyCode::Char('j')),
        Action::MoveDown
    );
    assert_eq!(
        handle_key(Mode::Normal, KeyCode::Char('s')),
        Action::CycleSort
    );
    assert_eq!(
        handle_key(Mode::Normal, KeyCode::Char('r')),
        Action::ReverseSort
    );
    assert_eq!(
        handle_key(Mode::Normal, KeyCode::Char('p')),
        Action::TogglePause
    );
    assert_eq!(
        handle_key(Mode::Normal, KeyCode::Char('?')),
        Action::OpenHelp
    );
    assert_eq!(handle_key(Mode::Normal, KeyCode::Enter), Action::OpenDetail);
    assert_eq!(handle_key(Mode::Normal, KeyCode::Char('z')), Action::Nothing);
    assert_eq!(handle_key(Mode::Normal, KeyCode::Other), Action::Nothing);
}

#[test]
fn handle_key_help_and_detail_close_on_esc_question_or_enter() {
    for mode in [Mode::Help, Mode::Detail] {
        assert_eq!(handle_key(mode, KeyCode::Esc), Action::Close);
        assert_eq!(handle_key(mode, KeyCode::Char('?')), Action::Close);
        assert_eq!(handle_key(mode, KeyCode::Enter), Action::Close);
        assert_eq!(handle_key(mode, KeyCode::Char('z')), Action::Nothing);
    }
}

#[test]
fn app_update_clamps_selection_when_pipelines_shrink() {
    let mut app = App::new();
    app.update(vec![
        stat("a", 0, 0, 0, 0, 0),
        stat("b", 0, 0, 0, 0, 0),
        stat("c", 0, 0, 0, 0, 0),
    ]);
    app.selected = 2;
    app.update(vec![stat("a", 0, 0, 0, 0, 0)]);
    assert_eq!(app.selected, 0);
}

#[test]
fn app_update_builds_bounded_history() {
    let mut app = App::new();
    for i in 0..(HISTORY_LEN as u64 + 10) {
        app.update(vec![stat("a", 0, 0, i, 0, 0)]);
    }
    assert_eq!(app.history.get("a").unwrap().len(), HISTORY_LEN);
}

#[test]
fn histories_hold_the_last_samples_of_their_own_pipeline() {
    let mut app = App::default();
    for i in 0..35u64 {
        app.update(vec![stat("b", 0, 0, i, 1, 0), stat("a", 0, 0, 100, i, 0)]);
    }
    assert_eq!(app.selected_pipeline().unwrap().name, "a");
    let wanted: Vec<u64> = (105..135).collect();
    assert_eq!(app.selected_history(), wanted);
    assert_eq!(app.history_of("b"), (6..36).collect::<Vec<u64>>());
    assert!(app.history_of("c").is_empty());
}

#[test]
fn an_empty_dashboard_selects_nothing() {
    let mut app = App::new();
    app.selected = 4;
    assert!(app.selected_pipeline().is_none());
    assert!(app.selected_history().is_empty());
    app.update(vec![]);
    assert_eq!(app.selected, 0);
    assert!(app.selected_pipeline().is_none());
}

#[test]
fn samples_that_do_not_fit_are_noticed() {
    assert!(check_samples(&[stat("a", 0, 0, u64::MAX, 0, 0)]));
    assert!(!check_samples(&[stat("a", 0, 0, u64::MAX, 1, 0)]));
}

#[test]
fn a_paused_dashboard_does_not_poll() {
    let mut app = App::new();
    assert!(app.wants_poll(true));
    assert!(!app.wants_poll(false));
    assert!(app.perform(Action::TogglePause));
    assert!(!app.wants_poll(true));
    assert!(!app.wants_poll(false));
}

#[test]
fn a_failed_poll_keeps_the_rows_and_the_next_one_clears_the_error() {
    let mut app = App::new();
    app.take_poll(Ok(vec![stat("b", 0, 0, 1, 1, 0), stat("a", 0, 0, 2, 2, 0)]));
    assert_eq!(names(&app.pipelines), ["a", "b"]);
    app.selected = 1;
    app.take_poll(Err("gone".to_string()));
    assert_eq!(app.last_error.as_deref(), Some("gone"));
    assert_eq!(names(&app.pipelines), ["a", "b"]);
    assert_eq!(app.selected, 1);
    assert_eq!(app.history_of("a"), vec![4]);
    app.take_poll(Ok(vec![stat("a", 0, 0, 3, 3, 0)]));
    assert!(app.last_error.is_none());
    assert_eq!(app.selected, 0);
    assert_eq!(app.history_of("a"), vec![4, 6]);
}

#[test]
fn actions_change_the_dashboard() {
    let mut app = App::new();
    app.update(vec![stat("a", 1, 0, 0, 0, 0), stat("b", 2, 0, 0, 0, 0)]);
    assert!(app.perform(Action::MoveDown));
    assert_eq!(app.selected, 1);
    assert!(app.perform(Action::MoveDown));
    assert_eq!(app.selected, 1);
    app.perform(Action::MoveUp);
    app.perform(Action::MoveUp);
    assert_eq!(app.selected, 0);
    app.perform(Action::CycleSort);
    assert_eq!(app.sort_field, SortField::Active);
    assert_eq!(names(&app.pipelines), vec!["a", "b"]);
    app.perform(Action::ReverseSort);
    assert!(app.sort_desc);
    assert_eq!(names(&app.pipelines), vec!["b", "a"]);
    app.perform(Action::TogglePause);
    assert!(app.paused);
    app.perform(Action::OpenHelp);
    assert_eq!(app.mode, Mode::Help);
    app.perform(Action::Close);
    assert_eq!(app.mode, Mode::Normal);
    app.perform(Action::OpenDetail);
    assert_eq!(app.mode, Mode::Detail);
    assert!(app.perform(Action::Nothing));
    assert!(!app.perform(Action::Quit));
}
