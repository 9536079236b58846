//! The state of the view: rows, selection, verbs, mouse and keys.
use std::sync::Arc;

use marina::model::{Snapshot, Target, TargetKey};
use marina::ui::entries::{same_entry, Entry, SortMode};
use marina::ui::format::{centered_rect, fmt_cpu, fmt_mem, fmt_uptime, rect_contains, tildify, Rect};
use marina::ui::input::{Key, KeyAct, TailAct};
use marina::ui::state::{
    App, MouseEvent, MouseKind, FLASH, FREEZE, LOG_LINES, STATUS_TTL, SUPPRESS_TTL,
};

/// A moment well after the start of the clock.
const NOW: u64 = 1_000_000;
const UNIX: u64 = 1_700_000_000;

fn app_with_sample() -> App {
    let mut app = App::new(NOW);
    let mut snap = Snapshot::sample();
    snap.seq = 1; // a real snapshot, not the initial empty one
    app.apply(Arc::new(snap), NOW, UNIX);
    app
}

/// The sample with a process behind every target.
fn app_with_processes() -> App {
    let mut app = App::new(NOW);
    let mut snap = Snapshot::sample();
    snap.seq = 1;
    for (i, t) in snap.targets.iter_mut().enumerate() {
        t.pids = vec![100 + i as u32];
        t.pid_starts = vec![(100 + i as u32, 7)];
    }
    app.apply(Arc::new(snap), NOW, UNIX);
    app
}

fn click(column: u16, row: u16) -> MouseEvent {
    MouseEvent { kind: MouseKind::LeftDown, column, row }
}

#[test]
fn mem_scales_to_gb() {
    assert_eq!(fmt_mem(300 * 1024 * 1024), "300MB");
    assert_eq!(fmt_mem(1024 * 1024 * 1024 + 512 * 1024 * 1024), "1.5GB");
}

#[test]
fn figures_and_paths_are_short() {
    assert_eq!(fmt_mem(1023 * 1024 * 1024), "1023MB");
    assert_eq!(fmt_cpu(3_400_000_000), "3.4%");
    assert_eq!(fmt_cpu(0), "0.0%");
    assert_eq!(fmt_uptime(0, UNIX), "—");
    assert_eq!(tildify("/home/me/web", Some("/home/me")), "~/web");
    assert_eq!(tildify("/srv/web", Some("/home/me")), "/srv/web");
    let area = Rect { x: 0, y: 0, width: 100, height: 30 };
    assert_eq!(centered_rect(58, 10, area), Rect { x: 21, y: 10, width: 58, height: 10 });
    assert_eq!(centered_rect(200, 10, area).width, 100);
    assert!(rect_contains(area, 99, 29) && !rect_contains(area, 100, 0));
}

// -------------------------------------------------------------------------- rows

#[test]
fn multi_target_project_gets_a_group_single_does_not() {
    let entries = app_with_sample().compute_entries(NOW);
    // client-portal (next dev + postgres) -> a group header
    assert!(entries.iter().any(|e| matches!(e, Entry::Group(p) if p == "client-portal")));
    // billing-api has one target -> a standalone row, no header
    assert!(!entries.iter().any(|e| matches!(e, Entry::Group(p) if p == "billing-api")));
    assert!(entries.iter().filter(|e| matches!(e, Entry::Member(_))).count() >= 2);
}

#[test]
fn collapsing_a_group_hides_its_members() {
    let mut app = app_with_sample();
    app.collapsed.push("client-portal".into());
    let entries = app.compute_entries(NOW);
    assert!(entries.iter().any(|e| matches!(e, Entry::Group(p) if p == "client-portal")));
    assert_eq!(entries.iter().filter(|e| matches!(e, Entry::Member(_))).count(), 0);
}

#[test]
fn group_selection_targets_all_members() {
    let mut app = app_with_sample();
    app.selected = Some(Entry::Group("client-portal".into()));
    assert_eq!(app.selected_targets().len(), 2);
    assert_eq!(app.selection_label(), "client-portal");
}

#[test]
fn move_selection_wraps_around() {
    let mut app = app_with_sample();
    app.reconcile(NOW);
    assert!(app.display.len() > 1);
    app.selected = Some(app.display[0].clone());
    app.select_prev(NOW); // wraps to last
    assert_eq!(app.selected.as_ref(), app.display.last());
}

#[test]
fn vanished_selection_falls_to_nearest_neighbor_not_top() {
    let mut app = app_with_sample();
    app.reconcile(NOW);
    let last = app.display.len() - 1;
    app.jump_bottom(NOW);
    // the selected (last) row vanishes: keep a snapshot without it
    let victim = app.display[last].clone();
    let mut snap = Snapshot::sample();
    snap.seq = 2;
    snap.targets.retain(|t| match &victim {
        Entry::Target(k) | Entry::Member(k) => &t.key != k,
        Entry::Group(p) => &t.project != p,
    });
    app.apply(Arc::new(snap), NOW, UNIX);
    app.reconcile(NOW);
    // cursor stays at the end of the (shorter) list, not at index 0
    assert_eq!(app.table_selected, Some(app.display.len() - 1));
    assert!(app.display.len() > 1, "test needs remaining rows");
}

#[test]
fn cpu_sort_orders_busiest_first() {
    let mut app = app_with_sample();
    app.sort = SortMode::Cpu;
    let entries = app.compute_entries(NOW);
    // client-portal's aggregate cpu (3.4 + 0.2) is highest -> its header first
    assert!(matches!(&entries[0], Entry::Group(p) if p == "client-portal"));
}

#[test]
fn selection_matches_target_and_member_by_key() {
    let k = TargetKey::Port(3000);
    assert!(same_entry(&Entry::Target(k.clone()), &Entry::Member(k.clone())));
    assert!(!same_entry(&Entry::Group("a".into()), &Entry::Group("b".into())));
}

#[test]
fn sort_change_bypasses_the_navigation_freeze() {
    let mut app = app_with_sample();
    app.last_input = NOW; // pretend we just navigated (freeze active)
    app.cycle_sort();
    // the new sort must apply immediately, not after the freeze window
    assert!(NOW - app.last_input >= FREEZE);
}

#[test]
fn volatile_sorts_hold_still_after_a_keystroke() {
    let mut app = app_with_sample();
    app.set_sort(SortMode::Mem);
    app.reconcile(NOW);
    let shown = app.display.clone();
    app.select_next(NOW);
    let mut snap = Snapshot::sample();
    snap.seq = 2;
    for t in &mut snap.targets {
        if t.project == "worker" {
            t.mem_bytes = 1 << 40; // now the largest by far
        }
    }
    app.apply(Arc::new(snap), NOW + 1, UNIX);
    assert_eq!(app.compute_entries(NOW + 1), shown);
    let later = app.compute_entries(NOW + FREEZE);
    assert_eq!(later[0], Entry::Target(TargetKey::Port(5555)));
    assert_eq!(later.len(), shown.len());
}

#[test]
fn a_new_row_comes_behind_those_that_hold_still() {
    let mut app = app_with_sample();
    app.set_sort(SortMode::Mem);
    app.reconcile(NOW);
    let shown = app.display.clone();
    app.select_next(NOW);
    let mut snap = Snapshot::sample();
    snap.seq = 2;
    let mut extra = snap.targets[0].clone();
    extra.key = TargetKey::Port(9999);
    extra.ports = vec![9999];
    extra.project = "newcomer".into();
    extra.mem_bytes = 1 << 40; // the largest by far
    snap.targets.push(extra);
    app.apply(Arc::new(snap), NOW + 1, UNIX);
    let held = app.compute_entries(NOW + 1);
    assert_eq!(held[..shown.len()], shown[..]);
    assert_eq!(held[shown.len()..], [Entry::Target(TargetKey::Port(9999))]);
    let later = app.compute_entries(NOW + FREEZE);
    assert_eq!(later[0], Entry::Target(TargetKey::Port(9999)));
    assert!(later.len() == held.len() && later.iter().all(|e| held.contains(e)));
}

#[test]
fn the_cursor_follows_its_target_into_a_group() {
    let mut app = app_with_sample();
    app.selected = Some(Entry::Target(TargetKey::Port(8000)));
    app.reconcile(NOW);
    let mut snap = Snapshot::sample();
    snap.seq = 2;
    for t in &mut snap.targets {
        if t.project == "worker" {
            t.project = "billing-api".into();
        }
    }
    app.apply(Arc::new(snap), NOW, UNIX);
    app.reconcile(NOW);
    assert_eq!(app.selected, Some(Entry::Member(TargetKey::Port(8000))));
}

#[test]
fn moving_down_and_up_returns() {
    let mut app = app_with_sample();
    app.reconcile(NOW);
    let at = app.selected.clone();
    app.select_next(NOW);
    assert_ne!(app.selected, at);
    app.select_prev(NOW);
    assert_eq!(app.selected, at);
}

#[test]
fn folding_twice_shows_the_members_again() {
    let mut app = app_with_sample();
    app.selected = Some(Entry::Group("client-portal".into()));
    let before = app.compute_entries(NOW);
    app.toggle_collapse();
    assert!(app.compute_entries(NOW).len() < before.len());
    app.toggle_collapse();
    assert_eq!(app.compute_entries(NOW), before);
}

// ------------------------------------------------------------------------ filter

#[test]
fn escape_clears_a_committed_filter() {
    let mut app = app_with_sample();
    app.filter = "billing".into(); // committed (not in input mode)
    app.escape(NOW);
    assert!(app.filter.is_empty(), "Esc must clear a committed filter");
}

#[test]
fn escape_closes_panes_before_clearing_filter() {
    let mut app = app_with_sample();
    app.inspect = true;
    app.filter = "x".into();
    app.escape(NOW);
    assert!(!app.inspect);
    assert_eq!(app.filter, "x"); // untouched on the first Esc
    app.escape(NOW);
    assert!(app.filter.is_empty());
}

#[test]
fn filter_also_matches_cwd_and_branch() {
    let app = app_with_sample();
    let t: &Target = &app.snapshot.targets[0].clone();
    let mut a = app;
    a.filter = "users/dev".into(); // cwd substring (case-insensitive)
    assert!(a.matches(t));
    a.filter = "main".into(); // branch
    assert!(a.matches(t));
    a.filter = "nope-xyz".into();
    assert!(!a.matches(t));
    a.filter = "NEXT".into(); // in any case
    assert!(a.matches(t));
    a.filter = "300".into(); // part of a port
    assert!(a.matches(t));
}

#[test]
fn a_filter_is_typed_and_left() {
    let mut app = app_with_sample();
    assert_eq!(app.on_key(Key::Char('/'), false, NOW), KeyAct::Stay);
    assert!(app.is_filtering());
    app.on_key(Key::Char('K'), false, NOW); // text, not a verb
    app.on_key(Key::Char('x'), false, NOW);
    app.on_key(Key::Backspace, false, NOW);
    assert_eq!(app.filter, "K");
    app.on_key(Key::Enter, false, NOW);
    assert!(!app.is_filtering());
    assert_eq!(app.filter, "K");
    app.start_filter(NOW);
    app.on_key(Key::Esc, false, NOW);
    assert!(app.filter.is_empty() && !app.is_filtering());
}

// ----------------------------------------------------------------- kill and exits

#[test]
fn undo_cancels_a_pending_kill() {
    let mut app = App::new(NOW);
    app.note_pending_kill("web", vec![TargetKey::Port(1)], NOW);
    assert!(app.is_dying(&TargetKey::Port(1)));
    assert!(app.undo_kill(NOW)); // escalation cancelled
    assert!(!app.undo_kill(NOW)); // nothing left
    assert_eq!(app.status.as_deref(), Some("nothing to undo"));
}

#[test]
fn a_kill_is_asked_for_and_announced() {
    let mut app = app_with_processes();
    app.selected = Some(Entry::Group("client-portal".into()));
    let request = app.begin_kill(NOW).expect("two targets");
    assert_eq!(request.label, "client-portal");
    assert_eq!(request.keys, vec![TargetKey::Port(3000), TargetKey::Port(5432)]);
    assert_eq!(request.pid_starts, vec![(100, 7), (103, 7)]);
    app.kill_begun(request, None, NOW);
    assert!(app.is_dying(&TargetKey::Port(3000)) && app.is_dying(&TargetKey::Port(5432)));
    assert_eq!(
        app.status.as_deref(),
        Some("killing client-portal (2 processes) — SIGTERM sent, SIGKILL in 4s · u cancels the SIGKILL")
    );
    app.selected = None;
    assert!(app.begin_kill(NOW).is_none());
    assert_eq!(app.status.as_deref(), Some("nothing to kill"));
}

#[test]
fn a_refused_kill_says_why() {
    let mut app = app_with_processes();
    app.selected = Some(Entry::Target(TargetKey::Port(8000)));
    let request = app.begin_kill(NOW).unwrap();
    app.kill_begun(request, Some("already exited"), NOW);
    assert!(!app.is_dying(&TargetKey::Port(8000)));
    assert!(app.status.as_deref().unwrap().ends_with(": already exited"));
}

#[test]
fn status_expires_after_ttl() {
    let mut app = App::new(NOW);
    app.set_status("hi".into(), NOW);
    assert!(app.status.is_some());
    app.tick(NOW + STATUS_TTL + 1000);
    assert!(app.status.is_none());
}

#[test]
fn an_idle_tick_asks_for_no_redraw() {
    let mut app = app_with_sample();
    app.dirty = false;
    app.tick(NOW + 60_000);
    assert!(!app.dirty && !app.has_transient() && !app.wants_draw());
    app.set_status("hi".into(), NOW);
    assert!(app.wants_draw());
}

fn aged(seq: u64, start: u64) -> Snapshot {
    let mut snap = Snapshot::sample();
    snap.seq = seq;
    for t in &mut snap.targets {
        t.anchor.start_time = start; // old enough to count as a crash
    }
    snap
}

#[test]
fn unexpected_exit_is_reported_but_marina_kills_are_not() {
    let mut app = App::new(NOW);
    let old_uptime = UNIX - 3600; // ran for an hour
    app.apply(Arc::new(aged(1, old_uptime)), NOW, UNIX);
    // next snapshot: billing-api (:8000) is gone
    let mut gone = aged(2, old_uptime);
    gone.targets.retain(|t| t.project != "billing-api");
    app.apply(Arc::new(gone), NOW, UNIX);
    assert!(
        app.status.as_deref().unwrap_or("").contains("billing-api"),
        "an unexpected exit must be reported; got {:?}",
        app.status
    );
    assert_eq!(app.status.as_deref(), Some("⚠ billing-api (:8000) exited unexpectedly"));

    // now client-portal vanishes, but marina killed it -> no report
    app.status = None;
    let keys: Vec<TargetKey> = app
        .snapshot
        .targets
        .iter()
        .filter(|t| t.project == "client-portal")
        .map(|t| t.key.clone())
        .collect();
    app.mark_marina_action(&keys, NOW);
    app.tick(NOW + SUPPRESS_TTL - 1);
    let mut gone2 = aged(3, old_uptime);
    gone2.targets.retain(|t| t.project != "billing-api" && t.project != "client-portal");
    app.apply(Arc::new(gone2), NOW, UNIX);
    assert!(
        app.status.is_none(),
        "a marina-initiated kill must not be reported as a crash; got {:?}",
        app.status
    );
}

#[test]
fn a_short_lived_process_may_go_silently() {
    let mut app = App::new(NOW);
    app.apply(Arc::new(aged(1, UNIX - 59)), NOW, UNIX);
    let mut gone = aged(2, UNIX - 59);
    gone.targets.retain(|t| t.project != "billing-api");
    app.apply(Arc::new(gone), NOW, UNIX);
    assert!(app.status.is_none());
}

#[test]
fn new_rows_flash_and_expire() {
    let mut app = app_with_sample();
    // add a target in the next snapshot
    let mut snap = Snapshot::sample();
    snap.seq = 2;
    let mut extra = snap.targets[0].clone();
    extra.key = TargetKey::Port(9999);
    extra.ports = vec![9999];
    extra.project = "newcomer".into();
    snap.targets.push(extra);
    app.apply(Arc::new(snap), NOW, UNIX);
    assert!(app.is_flashing(&TargetKey::Port(9999), NOW));
    assert!(app.has_transient());
    // age it out
    let later = NOW + FLASH + 1;
    app.tick(later);
    assert!(!app.is_flashing(&TargetKey::Port(9999), later));
    assert!(!app.has_transient());
}

#[test]
fn sampler_death_sets_a_persistent_warning() {
    let mut app = App::new(NOW);
    app.sampler_died();
    assert!(app.data_warning.as_deref().unwrap().contains("sampler"));
    app.dirty = false;
    app.sampler_died(); // no redraw churn
    assert!(!app.dirty);
}

// ------------------------------------------------------------------------- mouse

#[test]
fn header_click_sorts_and_wheel_moves() {
    let mut app = app_with_sample();
    app.reconcile(NOW);
    app.table_rect = Rect { x: 0, y: 0, width: 100, height: 20 };
    app.header_hits = vec![(50, 57, SortMode::Cpu)];
    app.on_mouse(click(52, 1), NOW);
    assert_eq!(app.sort, SortMode::Cpu);
    // wheel over the table moves the selection
    let before = app.selected.clone();
    app.on_mouse(MouseEvent { kind: MouseKind::ScrollDown, column: 10, row: 5 }, NOW);
    assert_ne!(app.selected, before);
}

#[test]
fn click_selects_a_row() {
    let mut app = app_with_sample();
    app.reconcile(NOW);
    app.table_rect = Rect { x: 0, y: 0, width: 100, height: 20 };
    // row 0 of the list renders at y = table.y + 2
    app.on_mouse(click(5, 2), NOW);
    assert_eq!(app.selected.as_ref(), app.display.first());
}

#[test]
fn a_second_click_on_a_group_folds_it() {
    let mut app = app_with_sample();
    app.reconcile(NOW);
    app.table_rect = Rect { x: 0, y: 0, width: 100, height: 20 };
    let row = app.display.iter().position(|e| matches!(e, Entry::Group(_))).unwrap() as u16;
    app.selected = None;
    app.on_mouse(click(5, 2 + row), NOW);
    assert!(app.collapsed.is_empty());
    app.on_mouse(click(5, 2 + row), NOW);
    assert_eq!(app.collapsed, vec!["client-portal".to_string()]);
    // the rows that a scrolled table shows are found through its offset
    app.table_offset = 1;
    app.on_mouse(click(5, 2), NOW);
    assert_eq!(app.selected, Some(app.display[1].clone()));
}

// -------------------------------------------------------------------------- keys

#[test]
fn keys_move_and_ask_for_verbs() {
    let mut app = app_with_sample();
    app.reconcile(NOW);
    assert_eq!(app.on_key(Key::Char('c'), true, NOW), KeyAct::Quit);
    assert_eq!(app.on_key(Key::Char('q'), false, NOW), KeyAct::Quit);
    assert_eq!(app.on_key(Key::Char('K'), false, NOW), KeyAct::Kill);
    assert_eq!(app.on_key(Key::Char('R'), false, NOW), KeyAct::Restart);
    assert_eq!(app.on_key(Key::Char('Y'), false, NOW), KeyAct::Copy);
    assert_eq!(app.on_key(Key::Char('O'), false, NOW), KeyAct::Open);
    assert_eq!(app.on_key(Key::Char('T'), false, NOW), KeyAct::Tail);
    app.on_key(Key::Char('G'), false, NOW);
    assert_eq!(app.selected.as_ref(), app.display.last());
    app.on_key(Key::Char('g'), false, NOW);
    assert_eq!(app.selected.as_ref(), app.display.first());
    app.on_key(Key::Down, false, NOW);
    assert_eq!(app.selected.as_ref(), app.display.get(1));
    app.on_key(Key::Char('s'), false, NOW);
    assert_eq!(app.sort, SortMode::Cpu);
    app.on_key(Key::Char('?'), false, NOW);
    assert!(app.help_open());
    assert_eq!(app.on_key(Key::Char('q'), false, NOW), KeyAct::Stay); // any key closes it
    assert!(!app.help_open());
}

#[test]
fn urls_are_copied_and_only_web_urls_opened() {
    let mut app = app_with_sample();
    app.selected = Some(Entry::Group("client-portal".into()));
    assert_eq!(app.begin_copy(NOW), None);
    assert_eq!(app.status.as_deref(), Some("select a service (not a group) to copy a URL"));
    app.selected = Some(Entry::Member(TargetKey::Port(5432)));
    assert_eq!(app.begin_copy(NOW).as_deref(), Some("postgres://localhost:5432"));
    assert_eq!(app.begin_open(NOW), None);
    assert_eq!(app.status.as_deref(), Some("postgres://localhost:5432 is not a web URL"));
    app.copied("postgres://localhost:5432", None, NOW);
    assert_eq!(app.status.as_deref(), Some("copied postgres://localhost:5432"));
    app.copied("x", Some("no tool"), NOW);
    assert_eq!(app.status.as_deref(), Some("copy failed: no tool"));
    app.selected = Some(Entry::Target(TargetKey::Port(8000)));
    assert_eq!(app.begin_open(NOW).as_deref(), Some("http://localhost:8000"));
    assert_eq!(app.status.as_deref(), Some("opening http://localhost:8000"));
}

// -------------------------------------------------------------------------- logs

#[test]
fn log_scroll_pins_and_resumes_follow() {
    let mut app = App::new(NOW);
    app.open_log("test".into(), NOW);
    {
        let l = app.log.as_mut().unwrap();
        for i in 0..100 {
            l.lines.push(format!("line {i}"));
        }
    }
    app.log_scroll_up(5);
    let pinned = app.log.as_ref().unwrap().scroll;
    assert!(pinned.is_some());
    app.log_scroll_down(500); // way past the bottom -> resume follow
    assert!(app.log.as_ref().unwrap().scroll.is_none());
}

#[test]
fn a_log_pane_keeps_the_latest_lines() {
    let mut app = App::new(NOW);
    app.open_log("test".into(), NOW);
    let lines: Vec<String> = (0..LOG_LINES + 3).map(|i| format!("{i}")).collect();
    app.pump_log(lines);
    let l = app.log.as_ref().unwrap();
    assert_eq!(l.lines.len(), LOG_LINES);
    assert_eq!(l.lines[0], "3");
    assert_eq!(l.lines[LOG_LINES - 1], format!("{}", LOG_LINES + 2));
}

#[test]
fn a_pinned_log_pane_stays_on_its_line() {
    let mut app = App::new(NOW);
    app.open_log("test".into(), NOW);
    app.pump_log((0..LOG_LINES).map(|i| format!("{i}")).collect());
    app.log_scroll_up(50);
    let at = app.log.as_ref().unwrap().scroll.unwrap();
    let line = app.log.as_ref().unwrap().lines[at].clone();
    app.pump_log((0..7).map(|i| format!("new {i}")).collect());
    let l = app.log.as_ref().unwrap();
    assert_eq!(l.scroll, Some(at - 7));
    assert_eq!(l.lines[at - 7], line);
}

#[test]
fn three_escapes_leave_nothing_open() {
    let mut app = app_with_sample();
    app.open_log("test".into(), NOW);
    app.inspect = true;
    app.filter = "web".into();
    assert!(app.escape(NOW)); // the tail of the closed pane is to be stopped
    assert!(!app.escape(NOW));
    assert!(!app.escape(NOW));
    assert!(!app.log_open() && !app.inspect && app.filter.is_empty());
}

#[test]
fn tailing_searches_opens_and_closes() {
    let mut app = app_with_sample();
    app.selected = Some(Entry::Target(TargetKey::Port(8000)));
    match app.begin_tail(NOW) {
        TailAct::Search { project, .. } => assert_eq!(project, "billing-api"),
        other => panic!("{other:?}"),
    }
    assert_eq!(app.status.as_deref(), Some("looking for billing-api logs…"));
    assert!(matches!(app.begin_tail(NOW), TailAct::Nothing)); // already searching
    assert!(app.on_log_ready("billing-api", Some("/home/me/b.log"), Some("/home/me"), NOW));
    assert_eq!(app.log.as_ref().unwrap().title, "~/b.log");
    assert!(matches!(app.begin_tail(NOW), TailAct::StopTail));
    assert!(!app.log_open());
    assert!(!app.on_log_ready("billing-api", None, None, NOW));
    assert!(app.status.as_deref().unwrap().starts_with("no log file found for billing-api"));
}

#[test]
fn a_restart_is_asked_for_by_command() {
    let mut app = app_with_sample();
    app.selected = Some(Entry::Group("nothing".into()));
    assert!(app.begin_restart(NOW).is_none());
    assert_eq!(
        app.status.as_deref(),
        Some("can't restart nothing: command not captured")
    );
}
