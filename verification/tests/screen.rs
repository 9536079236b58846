//! What the screen shows, drawn on an off-screen terminal.
use std::sync::Arc;

use marina::model::{Snapshot, TargetKey};
use marina::ui::entries::{Entry, SortMode};
use marina::ui::format::Rect;
use marina::ui::render::{
    arrange, header_hits, infra_tag, pane_heights_of, render, visible_columns, Screen, Span, COLW, HINT,
};
use marina::ui::state::App;
use ratatui::backend::TestBackend;
use ratatui::layout::{Constraint, Rect as Area};
use ratatui::text::Line;
use ratatui::widgets::{Block, Cell, Clear, HighlightSpacing, Paragraph, Row, Table, TableState};
use ratatui::{Frame, Terminal};

const NOW: u64 = 1_000_000;
const UNIX: u64 = 1_700_000_000;
const VERSION: &str = "0.1.0";

fn app_with_sample() -> App {
    let mut app = App::new(NOW);
    let mut snap = Snapshot::sample();
    snap.seq = 1;
    app.apply(Arc::new(snap), NOW, UNIX); // client-portal has 2 targets
    app
}

fn area_of(r: Rect) -> Area {
    Area::new(r.x, r.y, r.width, r.height)
}

fn line_of(spans: &[Span]) -> Line<'static> {
    Line::from(spans.iter().map(|s| s.text.clone()).collect::<Vec<String>>().concat())
}

fn show(app: &mut App, w: u16, h: u16) -> Screen {
    let area = Rect { x: 0, y: 0, width: w, height: h };
    render(app, area, NOW, UNIX, Some("/home/me"), VERSION, Some("/home/me/.config/marina/config.toml"))
}

fn draw(frame: &mut Frame, screen: &Screen, selected: Option<usize>) {
    let table_area = area_of(screen.panes.table);
    let block = Block::bordered().title(screen.title.clone());
    match screen.message {
        Some(m) => {
            let lines = vec![Line::from(""), Line::from(m), Line::from(HINT)];
            frame.render_widget(Paragraph::new(lines).block(block), table_area);
        }
        None => {
            let header: Vec<Cell> = screen.header.iter().map(|h| Cell::from(h.clone())).collect();
            let rows: Vec<Row> = screen
                .rows
                .iter()
                .map(|r| Row::new(r.cells.iter().map(|c| Cell::from(line_of(c))).collect::<Vec<Cell>>()))
                .collect();
            let widths: Vec<Constraint> =
                COLW[..screen.columns].iter().map(|w| Constraint::Length(*w)).collect();
            let table = Table::new(rows, widths)
                .header(Row::new(header))
                .block(block)
                .highlight_symbol("▌ ")
                .highlight_spacing(HighlightSpacing::Always);
            let mut state = TableState::default().with_selected(selected);
            frame.render_stateful_widget(table, table_area, &mut state);
        }
    }
    if let (Some(r), Some(lines)) = (screen.panes.inspect, screen.inspect.as_ref()) {
        let text: Vec<Line> = lines.iter().map(|l| line_of(l)).collect();
        let block = Block::bordered().title(" inspect — i / Esc to close ");
        frame.render_widget(Paragraph::new(text).block(block), area_of(r));
    }
    if let (Some(r), Some(log)) = (screen.panes.log, screen.log.as_ref()) {
        let text: Vec<Line> = log.lines.iter().map(|l| Line::from(l.clone())).collect();
        let block = Block::bordered().title(log.title.clone());
        frame.render_widget(Paragraph::new(text).block(block), area_of(r));
    }
    frame.render_widget(line_of(&screen.detail), area_of(screen.panes.detail));
    frame.render_widget(Line::from(screen.footer.text.clone()), area_of(screen.panes.footer));
    if let Some(help) = &screen.help {
        let text: Vec<Line> = help.lines.iter().map(|l| line_of(l)).collect();
        frame.render_widget(Clear, area_of(help.area));
        frame.render_widget(
            Paragraph::new(text).block(Block::bordered().title(" keys ")),
            area_of(help.area),
        );
    }
}

/// Draw the app to an off-screen buffer and flatten it to text.
fn render_to_string(app: &mut App, w: u16, h: u16) -> String {
    let screen = show(app, w, h);
    let selected = app.table_selected;
    let mut term = Terminal::new(TestBackend::new(w, h)).unwrap();
    term.draw(|f| draw(f, &screen, selected)).unwrap();
    let buf = term.backend().buffer();
    let mut s = String::new();
    for y in 0..buf.area.height {
        for x in 0..buf.area.width {
            if let Some(cell) = buf.cell((x, y)) {
                s.push_str(cell.symbol());
            }
        }
        s.push('\n');
    }
    s
}

#[test]
fn render_empty_shows_hint() {
    let out = render_to_string(&mut App::new(NOW), 100, 12);
    assert!(out.contains("No dev processes detected"));
}

#[test]
fn render_sample_shows_group_header_members_and_chrome() {
    let out = render_to_string(&mut app_with_sample(), 120, 20);
    assert!(out.contains("client-portal")); // group header
    assert!(out.contains("next dev") && out.contains("postgres")); // members
    assert!(out.contains("billing-api") && out.contains(":3000")); // a single + a port
    assert!(out.contains("PROJECT") && out.contains("COMMAND")); // header row
    assert!(out.contains("j/k move")); // footer keymap
    assert!(out.contains('▾')); // expanded-group arrow
}

#[test]
fn render_collapsed_group_hides_members() {
    let mut app = app_with_sample();
    app.collapsed.push("client-portal".into());
    let out = render_to_string(&mut app, 120, 20);
    assert!(out.contains('▸')); // collapsed arrow
    assert!(!out.contains("next dev")); // member hidden
}

#[test]
fn render_filter_shows_only_matches() {
    let mut app = app_with_sample();
    app.filter = "billing".into();
    let out = render_to_string(&mut app, 120, 20);
    assert!(out.contains("billing-api"));
    assert!(!out.contains("next dev"));
}

#[test]
fn lan_exposed_port_gets_a_marker() {
    // billing-api (:8000) is exposed in the sample data
    let out = render_to_string(&mut app_with_sample(), 120, 20);
    assert!(out.contains(":8000!"), "exposed port must carry the ! badge");
    assert!(!out.contains(":3000!")); // loopback ports don't
}

#[test]
fn infra_commands_get_a_category_tag() {
    assert_eq!(infra_tag("postgres"), Some("db"));
    assert_eq!(infra_tag("redis"), Some("cache"));
    assert_eq!(infra_tag("vite"), None);
}

#[test]
fn visible_columns_drop_from_the_right_when_narrow() {
    assert_eq!(visible_columns(120), 7);
    assert_eq!(visible_columns(80), 6);
    assert_eq!(visible_columns(60), 5);
}

#[test]
fn help_overlay_lists_keys_version_and_config() {
    let mut app = app_with_sample();
    app.toggle_help();
    let out = render_to_string(&mut app, 120, 28);
    assert!(out.contains("keys"));
    assert!(out.contains("fold / unfold"));
    assert!(out.contains("tail logs"));
    assert!(out.contains(VERSION));
    assert!(out.contains("config:"));
}

#[test]
fn active_sort_marks_its_column_header() {
    let mut app = app_with_sample();
    app.set_sort(SortMode::Mem);
    assert!(render_to_string(&mut app, 120, 20).contains("MEM ▾"));
}

#[test]
fn narrow_pane_drops_the_branch_column() {
    let mut app = app_with_sample();
    assert!(render_to_string(&mut app, 120, 20).contains("BRANCH"));
    assert!(!render_to_string(&mut app, 64, 20).contains("BRANCH"));
}

#[test]
fn inspect_panel_shows_selection_details() {
    let mut app = app_with_sample();
    let _ = render_to_string(&mut app, 120, 24); // populate display
    app.selected = Some(Entry::Target(TargetKey::Port(8000))); // billing-api
    app.toggle_inspect();
    let out = render_to_string(&mut app, 120, 24);
    assert!(out.contains("inspect"));
    assert!(out.contains("cwd"));
    assert!(out.contains("billing-api"));

    // a group selection gets the member summary instead
    app.selected = Some(Entry::Group("client-portal".into()));
    let out = render_to_string(&mut app, 120, 24);
    assert!(out.contains("(group)"));
}

#[test]
fn render_records_mouse_hit_zones() {
    let mut app = app_with_sample();
    let _ = render_to_string(&mut app, 120, 20);
    assert_eq!(app.header_hits.len(), 3); // PORT, CPU, MEM
    assert!(app.table_rect.width > 0);
}

#[test]
fn data_warning_is_shown_persistently() {
    let mut app = app_with_sample();
    app.data_warning = Some("port scan failed: boom".into());
    let out = render_to_string(&mut app, 120, 20);
    assert!(out.contains("port scan failed"));
}

#[test]
fn log_pane_renders_with_scroll_hint() {
    let mut app = app_with_sample();
    app.open_log("test.log".into(), NOW);
    let out = render_to_string(&mut app, 120, 30);
    assert!(out.contains("logs: test.log"));
    assert!(out.contains("[ ] scroll"));
}

#[test]
fn the_parts_stand_below_each_other() {
    let mut app = app_with_sample();
    let plain = show(&mut app, 100, 30).panes;
    assert_eq!(plain.table, Rect { x: 0, y: 0, width: 100, height: 28 });
    assert_eq!(plain.detail, Rect { x: 0, y: 28, width: 100, height: 1 });
    assert_eq!(plain.footer, Rect { x: 0, y: 29, width: 100, height: 1 });
    assert_eq!((plain.inspect, plain.log), (None, None));
    app.toggle_inspect();
    app.open_log("x".into(), NOW);
    let full = show(&mut app, 100, 30).panes;
    assert_eq!(full.table, Rect { x: 0, y: 0, width: 100, height: 8 });
    assert_eq!(full.inspect, Some(Rect { x: 0, y: 8, width: 100, height: 8 }));
    assert_eq!(full.log, Some(Rect { x: 0, y: 16, width: 100, height: 12 }));
    assert_eq!(full.detail.y, 28);
    let shifted = render(
        &mut app,
        Rect { x: 7, y: 3, width: 50, height: 22 },
        NOW,
        UNIX,
        None,
        VERSION,
        None,
    )
    .panes;
    assert_eq!(shifted.table, Rect { x: 7, y: 3, width: 50, height: 0 });
    assert_eq!(shifted.footer, Rect { x: 7, y: 24, width: 50, height: 1 });
}

#[test]
fn a_screen_that_is_too_small_keeps_its_width() {
    let mut app = app_with_sample();
    app.toggle_inspect();
    app.open_log("x".into(), NOW);
    let panes = show(&mut app, 40, 6).panes;
    let rects = [panes.table, panes.inspect.unwrap(), panes.log.unwrap(), panes.detail, panes.footer];
    assert!(rects.iter().all(|r| (r.x, r.width) == (0, 40) && r.y + r.height <= 6));
    assert_eq!(arrange(&rects, true, true), panes);
    let asked = [None, Some(8), Some(app.log_height), Some(1), Some(1)];
    assert_eq!(pane_heights_of(true, Some(app.log_height)), asked);
    assert_eq!(pane_heights_of(false, None), [None, Some(1), Some(1)]);
}

#[test]
fn header_cells_stand_where_the_table_draws_them() {
    let area = Rect { x: 2, y: 0, width: 100, height: 10 };
    assert_eq!(
        header_hits(area),
        vec![(45, 52, SortMode::Port), (53, 60, SortMode::Cpu), (61, 70, SortMode::Mem)]
    );
}

#[test]
fn arguments_never_show() {
    let mut app = App::new(NOW);
    let mut snap = Snapshot::sample();
    snap.seq = 1;
    for t in &mut snap.targets {
        t.anchor_argv = vec!["/usr/bin/node".into(), "--token=hunter2".into()];
    }
    app.apply(Arc::new(snap), NOW, UNIX);
    app.selected = Some(Entry::Target(TargetKey::Port(8000)));
    app.toggle_inspect();
    let out = render_to_string(&mut app, 160, 40);
    assert!(out.contains("/usr/bin/node (+1 args)"));
    assert!(!out.contains("hunter2"));
}

#[test]
fn group_rows_add_up_their_measured_members() {
    let mut app = app_with_sample();
    let unmeasured = show(&mut app, 120, 20);
    let group = unmeasured.rows.iter().find(|r| r.heading).unwrap();
    assert_eq!(group.cells[3][0].text, "0.0%");
    let mut snap = Snapshot::sample();
    snap.seq = 2;
    for (i, t) in snap.targets.iter_mut().enumerate() {
        t.pids = vec![100 + i as u32];
    }
    app.apply(Arc::new(snap), NOW, UNIX);
    let screen = show(&mut app, 120, 20);
    let group = screen.rows.iter().find(|r| r.heading).unwrap();
    assert_eq!(group.cells[0][0].text, "▾ client-portal (2)");
    assert_eq!(group.cells[3][0].text, "3.6%");
    assert_eq!(group.cells[4][0].text, "750MB");
}

#[test]
fn a_pinned_log_shows_from_its_line() {
    let mut app = app_with_sample();
    app.open_log("x".into(), NOW);
    app.pump_log((0..40).map(|i| format!("line {i}")).collect());
    let following = show(&mut app, 100, 40);
    assert_eq!(following.log.as_ref().unwrap().lines.last().unwrap(), "line 39");
    assert_eq!(following.log.as_ref().unwrap().lines.len(), 10);
    app.log_scroll_up(5);
    let pinned = show(&mut app, 100, 40);
    assert_eq!(pinned.log.as_ref().unwrap().lines[0], "line 25");
    assert!(pinned.log.as_ref().unwrap().title.contains("] follow"));
}
