use gymticks::dispatch::Command;
use gymticks::ledger::Snapshot;
use gymticks::order::sort_entries;
use gymticks::reltime::{rel_time, time_diff_in_words};
use gymticks::route::{Route, Tick, TickKind};
use gymticks::stats::{ascent_summary, attempt_summary, route_stats};
use gymticks::taxonomy::{Color, Grade, Section, Settings};

fn tick(kind: TickKind, timestamp: i64) -> Tick {
    Tick { kind, timestamp }
}

fn snapshot_with_routes(routes: Vec<(u128, &str, &str, &str, &str)>) -> Snapshot {
    let mut s = Snapshot::new_default();
    for (id, title, color, section, grade) in routes {
        s.insert_route(
            id,
            title.to_string(),
            color.to_string(),
            section.to_string(),
            grade.to_string(),
        );
    }
    s
}

fn ids(s: &Snapshot) -> Vec<u128> {
    s.routes.iter().map(|e| e.0).collect()
}

// ---- sort policy ----

#[test]
fn sort_orders_by_section_then_color_then_grade_then_title() {
    let s = snapshot_with_routes(vec![
        (1, "b", "red", "SLB", "V3"),
        (2, "a", "red", "AB1", "V3"),
        (3, "a", "blue", "AB1", "V3"),
        (4, "a", "red", "AB1", "V2"),
        (5, "a", "red", "AB1", "V3"),
    ]);
    // AB1 before SLB; red (1) before blue (5); V2 before V3; "a" before itself stably
    assert_eq!(ids(&s), vec![4, 2, 5, 3, 1]);
}

#[test]
fn sort_twice_equals_sort_once() {
    let mut s = snapshot_with_routes(vec![
        (10, "x", "green", "CAN", "V5"),
        (11, "y", "red", "AB2", "9"),
        (12, "z", "blue", "AB2", "5"),
    ]);
    let once = ids(&s);
    sort_entries(&s.settings, &mut s.routes);
    assert_eq!(ids(&s), once);
}

#[test]
fn sort_keeps_relative_order_of_tied_routes() {
    let s = snapshot_with_routes(vec![
        (7, "same", "red", "AB3", "V1"),
        (8, "same", "red", "AB3", "V1"),
        (9, "same", "red", "AB3", "V1"),
    ]);
    assert_eq!(ids(&s), vec![7, 8, 9]);
}

#[test]
fn absent_taxonomy_keys_rank_zero_and_sort_first() {
    let s = snapshot_with_routes(vec![
        (1, "known", "red", "AB1", "5"),
        (2, "ghostly", "no-such-color", "no-such-section", "no-such-grade"),
    ]);
    // rank 0 sorts before rank 1
    assert_eq!(ids(&s), vec![2, 1]);
}

// ---- stats engine ----

#[test]
fn flash_detection() {
    let ticks = vec![tick(TickKind::Ascent, 100)];
    assert_eq!(ascent_summary(&ticks), "1 snd (flsh)");
}

#[test]
fn attempts_before_send() {
    let ticks = vec![
        tick(TickKind::Attempt, 1),
        tick(TickKind::Attempt, 2),
        tick(TickKind::Ascent, 3),
    ];
    let st = route_stats(&ticks);
    assert_eq!(st.attempts_to_ascent, 2);
    assert_eq!(ascent_summary(&ticks), "1 snd (2 att)");
}

#[test]
fn unattempted_route() {
    let ticks: Vec<Tick> = vec![];
    assert_eq!(ascent_summary(&ticks), "unsent");
    assert_eq!(attempt_summary(&ticks, 1000), "unattempted");
}

#[test]
fn attempt_summary_cases() {
    // attempts only: count of all attempts, relative to the last attempt
    let only_attempts = vec![tick(TickKind::Attempt, 0), tick(TickKind::Attempt, 100)];
    assert_eq!(attempt_summary(&only_attempts, 130), "2 att (att now)");
    // last event is an ascent: attempts since ascent, relative to the ascent
    let sent = vec![
        tick(TickKind::Attempt, 0),
        tick(TickKind::Ascent, 50),
        tick(TickKind::Attempt, 60),
        tick(TickKind::Ascent, 70),
    ];
    assert_eq!(attempt_summary(&sent, 100), "0 att (snd now)");
    // attempts after the last ascent: counted since the ascent, dated by the attempt
    let after = vec![tick(TickKind::Ascent, 0), tick(TickKind::Attempt, 7200)];
    assert_eq!(attempt_summary(&after, 7260), "1 att (att 1m)");
}

#[test]
fn fold_state_matches_history() {
    let ticks = vec![
        tick(TickKind::Attempt, 10),
        tick(TickKind::Ascent, 20),
        tick(TickKind::Attempt, 30),
        tick(TickKind::Attempt, 40),
        tick(TickKind::Ascent, 50),
        tick(TickKind::Attempt, 60),
    ];
    let st = route_stats(&ticks);
    assert_eq!(st.num_ascents, 2);
    assert_eq!(st.num_attempts, 4);
    assert_eq!(st.attempts_to_ascent, 1);
    assert_eq!(st.attempts_since_ascent, 1);
    assert_eq!(st.last_ascent_ts, 50);
    assert_eq!(st.last_attempt_ts, 60);
}

// ---- aggregate ----

#[test]
fn retire_preserves_aggregate() {
    let mut s = snapshot_with_routes(vec![(1, "proj", "red", "AB1", "V4")]);
    s.record_tick(1, TickKind::Ascent, 100);
    s.record_tick(1, TickKind::Ascent, 200);
    s.record_tick(1, TickKind::Ascent, 300);
    let before = s.sends(0);
    assert_eq!(before, (3, 3));
    assert_eq!(s.iterate_active().len(), 1);
    assert_eq!(s.iterate_all().len(), 1);

    s.retire(1);
    assert_eq!(s.sends(0), before);
    assert_eq!(s.iterate_active().len(), 0);
    assert_eq!(s.iterate_all().len(), 1);
}

#[test]
fn sends_today_counts_strictly_after_midnight() {
    let mut s = snapshot_with_routes(vec![(1, "r", "red", "AB1", "5")]);
    s.record_tick(1, TickKind::Ascent, 999);
    s.record_tick(1, TickKind::Ascent, 1000);
    s.record_tick(1, TickKind::Ascent, 1001);
    s.record_tick(1, TickKind::Attempt, 5000);
    let (today, total) = s.sends(1000);
    assert_eq!(today, 1);
    assert_eq!(total, 3);
}

// ---- relative time ----

#[test]
fn rel_time_boundaries_compact() {
    assert_eq!(time_diff_in_words(0, 59), "now");
    assert_eq!(time_diff_in_words(0, 60), "1m");
    assert_eq!(time_diff_in_words(0, 119), "1m");
    assert_eq!(time_diff_in_words(0, 120), "2m");
    assert_eq!(time_diff_in_words(0, 3599), "59m");
    assert_eq!(time_diff_in_words(0, 3600), "1h");
    assert_eq!(time_diff_in_words(0, 7199), "1h");
    assert_eq!(time_diff_in_words(0, 7200), "2h");
    assert_eq!(time_diff_in_words(0, 86399), "23h");
    assert_eq!(time_diff_in_words(0, 86400), "1d");
    assert_eq!(time_diff_in_words(0, 172799), "1d");
    assert_eq!(time_diff_in_words(0, 172800), "2d");
}

#[test]
fn rel_time_boundaries_long() {
    assert_eq!(rel_time(0, 59, true), "now");
    assert_eq!(rel_time(0, 60, true), "1 min");
    assert_eq!(rel_time(0, 180, true), "3 min");
    assert_eq!(rel_time(0, 3600, true), "1 hr");
    assert_eq!(rel_time(0, 10800, true), "3 hr");
    assert_eq!(rel_time(0, 86400, true), "1 day");
    assert_eq!(rel_time(0, 259200, true), "3 days");
}

#[test]
fn rel_time_negative_duration_reads_now() {
    assert_eq!(time_diff_in_words(100, 0), "now");
    assert_eq!(time_diff_in_words(i64::MAX, i64::MIN), "now");
}

// ---- ledger commands ----

#[test]
fn edit_absent_id_is_a_noop() {
    let mut s = snapshot_with_routes(vec![(1, "a", "red", "AB1", "5")]);
    s.edit(99, "x".to_string(), "blue".to_string(), "SLB".to_string(), "V1".to_string());
    assert_eq!(s.routes.len(), 1);
    assert_eq!(s.routes[0].1.title, "a");
}

#[test]
fn edit_overwrites_and_resorts() {
    let mut s = snapshot_with_routes(vec![
        (1, "a", "red", "AB1", "5"),
        (2, "b", "red", "SLB", "5"),
    ]);
    assert_eq!(ids(&s), vec![1, 2]);
    s.edit(1, "a".to_string(), "red".to_string(), "VRT".to_string(), "5".to_string());
    assert_eq!(ids(&s), vec![2, 1]);
    assert_eq!(s.routes[1].1.section, "VRT");
}

#[test]
fn retire_absent_id_is_a_noop() {
    let mut s = snapshot_with_routes(vec![(1, "a", "red", "AB1", "5")]);
    s.retire(99);
    assert!(!s.routes[0].1.retired);
}

#[test]
fn record_tick_appends_in_order() {
    let mut s = snapshot_with_routes(vec![(1, "a", "red", "AB1", "5")]);
    s.record_tick(1, TickKind::Attempt, 10);
    s.record_tick(1, TickKind::Ascent, 20);
    s.record_tick(99, TickKind::Ascent, 30);
    let r: &Route = &s.routes[0].1;
    assert_eq!(r.ticks.len(), 2);
    assert_eq!(r.ticks[0], tick(TickKind::Attempt, 10));
    assert_eq!(r.ticks[1], tick(TickKind::Ascent, 20));
}

#[test]
fn create_assigns_fresh_ids() {
    let mut s = Snapshot::new_default();
    let a = s.create("one".to_string(), "red".to_string(), "AB1".to_string(), "5".to_string());
    let b = s.create("two".to_string(), "red".to_string(), "AB1".to_string(), "5".to_string());
    assert_ne!(a, b);
    assert_eq!(s.routes.len(), 2);
}

#[test]
fn apply_dispatches_commands() {
    let mut s = Snapshot::new_default();
    s.apply(Command::CreateRoute {
        title: "proj".to_string(),
        color: "blue".to_string(),
        section: "CAN".to_string(),
        grade: "V6".to_string(),
        first_tick: Some(TickKind::Attempt),
    });
    assert_eq!(s.routes.len(), 1);
    let id = s.routes[0].0;
    assert_eq!(s.routes[0].1.ticks.len(), 1);
    assert_eq!(s.routes[0].1.ticks[0].kind, TickKind::Attempt);

    s.apply(Command::RecordTick { id, kind: TickKind::Ascent });
    assert_eq!(s.routes[0].1.ticks.len(), 2);

    s.apply(Command::RetireRoute { id });
    assert!(s.routes[0].1.retired);
}

#[test]
fn sends_now_reports_all_ascents() {
    let mut s = snapshot_with_routes(vec![(1, "a", "red", "AB1", "5")]);
    s.record_tick(1, TickKind::Ascent, 100);
    if let Some((_, total)) = s.sends_now() {
        assert_eq!(total, 1);
    }
}

#[test]
fn active_view_groups_consecutive_sections() {
    let mut s = snapshot_with_routes(vec![
        (1, "a", "red", "AB1", "5"),
        (2, "b", "blue", "AB1", "6"),
        (3, "c", "red", "SLB", "7"),
        (4, "d", "red", "SLB", "8"),
    ]);
    s.retire(4);
    let blocks = s.active_section_blocks();
    assert_eq!(blocks.len(), 2);
    assert_eq!(blocks[0].len(), 2);
    assert_eq!(blocks[0][0].title, "a");
    assert_eq!(blocks[0][1].title, "b");
    assert_eq!(blocks[1].len(), 1);
    assert_eq!(blocks[1][0].title, "c");
}

// ---- taxonomy ----

#[test]
fn default_catalogs_match_the_shipped_data() {
    let colors = Color::defaults();
    assert_eq!(colors.len(), 10);
    assert_eq!(colors[0].0, "red");
    assert_eq!(colors[9].1.sort, 10);

    let sections = Section::defaults();
    assert_eq!(sections.len(), 15);
    assert_eq!(sections[1].0, "AB2");
    assert_eq!(sections[1].1.label, "MAP");
    assert_eq!(sections[8].1.group, "B");

    let grades = Grade::defaults();
    assert_eq!(grades.len(), 24);
    assert_eq!(grades[0].0, "5");
    assert_eq!(grades[23].0, "V7");
    assert_eq!(grades[23].1.sort, 24);

    let settings = Settings::default();
    assert_eq!(settings.colors.len(), 10);
    assert_eq!(settings.sections.len(), 15);
    assert_eq!(settings.grades.len(), 24);
}
