//! What each part of the screen shows, as plain text with colors.
use vstd::prelude::*;

use super::entries::{
    entry_key, entry_views, Entry, EntryView, SortMode,
};
use super::format::{
    centered_rect, cpu_text, fits, is_centered, fmt_cpu, fmt_mem, fmt_uptime, mem_text, shortened, tildify,
    uptime_text, Rect, NONE,
};
use super::state::{
    cursor_place, less, opt_entry, selection, under_cursor, App, LogView,
};
use crate::cli::ref_views;
use crate::model::{
    opt_text, target_views, KeyView, Target, TargetKey, TargetKind, TargetView,
};
use crate::paths::opt_str;
use crate::proctree::capped;
use crate::resolve::{first_hit, lemma_first_hit};
use crate::text;
use crate::textmap::has_text;

verus! {

// ----------------------------------------------------------------------- spans

/// The color of a text.
#[derive(Clone, Copy, Debug, PartialEq, Eq, Structural)]
pub enum Tint {
    Plain,
    Cyan,
    Gray,
    DarkGray,
    Yellow,
    Red,
    Green,
    White,
}

/// A run of text in one style.
#[derive(Debug)]
pub struct Span {
    pub text: String,
    pub tint: Tint,
    pub bold: bool,
}

#[verifier::ext_equal]
pub struct SpanView {
    pub text: Seq<char>,
    pub tint: Tint,
    pub bold: bool,
}

impl View for Span {
    type V = SpanView;

    open spec fn view(&self) -> SpanView {
        SpanView { text: self.text@, tint: self.tint, bold: self.bold }
    }
}

pub open spec fn span_views(v: Seq<Span>) -> Seq<SpanView> {
    v.map_values(|s: Span| s@)
}

pub open spec fn line_views(v: Seq<Vec<Span>>) -> Seq<Seq<SpanView>> {
    v.map_values(|l: Vec<Span>| span_views(l@))
}

/// A run of text in a color.
pub open spec fn tinted(text: Seq<char>, tint: Tint) -> SpanView {
    SpanView { text, tint, bold: false }
}

/// A run of bold text in a color.
pub open spec fn strong(text: Seq<char>, tint: Tint) -> SpanView {
    SpanView { text, tint, bold: true }
}

fn span(text: String, tint: Tint) -> (r: Span)
    ensures
        r@ == tinted(text@, tint),
{
    Span { text, tint, bold: false }
}

fn bold(text: String, tint: Tint) -> (r: Span)
    ensures
        r@ == strong(text@, tint),
{
    Span { text, tint, bold: true }
}

fn one(s: Span) -> (r: Vec<Span>)
    ensures
        span_views(r@) == seq![s@],
{
    let mut v: Vec<Span> = Vec::new();
    v.push(s);
    proof {
        assert(span_views(v@) =~= seq![s@]);
    }
    v
}

fn two(s: Span, t: Span) -> (r: Vec<Span>)
    ensures
        span_views(r@) == seq![s@, t@],
{
    let mut v: Vec<Span> = Vec::new();
    v.push(s);
    v.push(t);
    proof {
        assert(span_views(v@) =~= seq![s@, t@]);
    }
    v
}

fn join2(a: &str, b: &str) -> (r: String)
    ensures
        r@ == a@ + b@,
{
    let mut s = a.to_owned();
    s.append(b);
    s
}

fn join3(a: &str, b: &str, c: &str) -> (r: String)
    ensures
        r@ == a@ + b@ + c@,
{
    let mut s = a.to_owned();
    s.append(b);
    s.append(c);
    s
}

// ---------------------------------------------------------------------- layout

/// The parts of the screen.
#[derive(Clone, Copy, Debug, PartialEq, Eq, Structural)]
pub struct Panes {
    pub table: Rect,
    pub inspect: Option<Rect>,
    pub log: Option<Rect>,
    pub detail: Rect,
    pub footer: Rect,
}

/// The lines that fixed heights take together.
pub open spec fn fixed_total(heights: Seq<Option<u16>>) -> int
    decreases heights.len(),
{
    if heights.len() == 0 {
        0
    } else {
        fixed_total(heights.drop_last()) + match heights.last() {
            Some(n) => n as int,
            None => 0,
        }
    }
}

/// The first part takes what is left, the others have fixed heights, and all fit.
pub open spec fn roomy(area: Rect, heights: Seq<Option<u16>>) -> bool {
    &&& heights.len() > 0
    &&& heights[0] is None
    &&& forall|i: int| 0 < i < heights.len() ==> #[trigger] heights[i] is Some
    &&& fixed_total(heights) <= area.height
}

/// Where part `i` of an area stands, where all fit.
pub open spec fn part(area: Rect, heights: Seq<Option<u16>>, i: int) -> Rect {
    let top = match heights[i] {
        Some(_) => area.y + area.height - fixed_total(heights.skip(i)),
        None => area.y as int,
    };
    let height = match heights[i] {
        Some(n) => n as int,
        None => area.height - fixed_total(heights),
    };
    Rect { x: area.x, y: top as u16, width: area.width, height: height as u16 }
}

/// `Layout::vertical(..).split(..)` of `ratatui`: an area cut into one rectangle per
/// part, each as wide as the area and inside it. A part has a fixed height
/// (`Constraint::Length`), or takes what is left (`Constraint::Min(0)`): where the first
/// takes what is left and all fit, the parts stand below each other at those heights. How
/// the solver shares the room where they do not fit depends on the order of a hash map,
/// and is not stated.
#[verifier::external_body]
fn split_vertical(area: Rect, heights: &[Option<u16>]) -> (r: Vec<Rect>)
    requires
        fits(area),
        heights@.len() <= 5,
    ensures
        r@.len() == heights@.len(),
        forall|i: int|
            0 <= i < r@.len() ==> (#[trigger] r@[i]).x == area.x && r@[i].width == area.width,
        forall|i: int|
            0 <= i < r@.len() ==> area.y <= (#[trigger] r@[i]).y && r@[i].y + r@[i].height <= area.y
                + area.height,
        forall|i: int|
            roomy(area, heights@) && 0 <= i < r@.len() ==> #[trigger] r@[i] == part(
                area,
                heights@,
                i,
            ),
{
    let parts = heights.iter().map(|h| match h {
        Some(n) => ratatui::layout::Constraint::Length(*n),
        None => ratatui::layout::Constraint::Min(0),
    });
    let area = ratatui::layout::Rect::new(area.x, area.y, area.width, area.height);
    let rects = ratatui::layout::Layout::vertical(parts).split(area);
    rects.iter().map(|r| Rect { x: r.x, y: r.y, width: r.width, height: r.height }).collect()
}

/// The heights of the parts of the screen, from top to bottom: the table takes what is
/// left.
pub open spec fn pane_heights(inspect: bool, log: Option<u16>) -> Seq<Option<u16>> {
    seq![None] + (if inspect {
        seq![Some(8u16)]
    } else {
        seq![]
    }) + (if log is Some {
        seq![log]
    } else {
        seq![]
    }) + seq![Some(1u16), Some(1u16)]
}

/// The heights that the screen is divided by.
pub fn pane_heights_of(inspect: bool, log: Option<u16>) -> (r: Vec<Option<u16>>)
    ensures
        r@ == pane_heights(inspect, log),
{
    let mut heights: Vec<Option<u16>> = Vec::new();
    heights.push(None);
    if inspect {
        heights.push(Some(8));
    }
    if log.is_some() {
        heights.push(log);
    }
    heights.push(Some(1));
    heights.push(Some(1));
    proof {
        assert(heights@ =~= pane_heights(inspect, log));
    }
    heights
}

/// The height of the panels that are open, the detail line and the footer.
pub open spec fn below_table(inspect: bool, log: Option<u16>) -> int {
    2 + (if inspect {
        8int
    } else {
        0
    }) + (match log {
        Some(h) => h as int,
        None => 0,
    })
}

/// Lines `from_bottom` to `from_bottom - height` above the lower edge of an area.
pub open spec fn strip(area: Rect, from_bottom: int, height: int) -> Rect {
    Rect {
        x: area.x,
        y: (area.y + area.height - from_bottom) as u16,
        width: area.width,
        height: height as u16,
    }
}

/// The parts of a screen on which all of them fit.
pub open spec fn panes_of(area: Rect, inspect: bool, log: Option<u16>) -> Panes {
    let lines = below_table(inspect, log);
    Panes {
        table: Rect { height: (area.height - lines) as u16, ..area },
        inspect: if inspect {
            Some(strip(area, lines, 8))
        } else {
            None
        },
        log: match log {
            Some(h) => Some(strip(area, h + 2, h as int)),
            None => None,
        },
        detail: strip(area, 2, 1),
        footer: strip(area, 1, 1),
    }
}

proof fn lemma_panes(area: Rect, inspect: bool, log: Option<u16>)
    requires
        fits(area),
    ensures
        fixed_total(pane_heights(inspect, log)) == below_table(inspect, log),
        pane_heights(inspect, log).len() == pane_count(inspect, log is Some),
        below_table(inspect, log) <= area.height ==> roomy(area, pane_heights(inspect, log)),
        ({
            let h = pane_heights(inspect, log);
            let n = h.len() as int;
            let p = panes_of(area, inspect, log);
            below_table(inspect, log) <= area.height ==> {
                &&& part(area, h, 0) == p.table
                &&& inspect ==> part(area, h, 1) == p.inspect->0
                &&& log is Some ==> part(area, h, n - 3) == p.log->0
                &&& part(area, h, n - 2) == p.detail
                &&& part(area, h, n - 1) == p.footer
            }
        }),
{
    reveal_with_fuel(fixed_total, 6);
    let h = pane_heights(inspect, log);
    let n = h.len() as int;
    assert(h.skip(n - 1) =~= seq![Some(1u16)]);
    assert(h.skip(n - 2) =~= seq![Some(1u16), Some(1u16)]);
    if log is Some {
        assert(h.skip(n - 3) =~= seq![log, Some(1u16), Some(1u16)]);
        if inspect {
            assert(h.skip(1) =~= seq![Some(8u16), log, Some(1u16), Some(1u16)]);
            assert(h =~= seq![None, Some(8u16), log, Some(1u16), Some(1u16)]);
        } else {
            assert(h =~= seq![None, log, Some(1u16), Some(1u16)]);
        }
    } else if inspect {
        assert(h.skip(1) =~= seq![Some(8u16), Some(1u16), Some(1u16)]);
        assert(h =~= seq![None, Some(8u16), Some(1u16), Some(1u16)]);
    } else {
        assert(h =~= seq![None, Some(1u16), Some(1u16)]);
    }
}

/// How many parts the screen has.
pub open spec fn pane_count(inspect: bool, log: bool) -> int {
    3 + if inspect {
        1int
    } else {
        0int
    } + if log {
        1int
    } else {
        0int
    }
}

/// Which rectangle is which part: the table, then the panels that are open, then the
/// detail line and the footer.
pub fn arrange(rects: &[Rect], inspect: bool, log: bool) -> (r: Panes)
    requires
        rects@.len() == pane_count(inspect, log),
    ensures
        r.table == rects@[0],
        r.inspect == (if inspect {
            Some(rects@[1])
        } else {
            None
        }),
        r.log == (if log {
            Some(rects@[rects@.len() - 3])
        } else {
            None
        }),
        r.detail == rects@[rects@.len() - 2],
        r.footer == rects@[rects@.len() - 1],
{
    let n = rects.len();
    Panes {
        table: rects[0],
        inspect: if inspect {
            Some(rects[1])
        } else {
            None
        },
        log: if log {
            Some(rects[n - 3])
        } else {
            None
        },
        detail: rects[n - 2],
        footer: rects[n - 1],
    }
}

/// How many columns fit: on narrow screens the branch goes, then the uptime.
pub fn visible_columns(width: u16) -> (r: usize)
    ensures
        r == columns(width),
{
    if width >= 92 {
        7
    } else if width >= 76 {
        6
    } else {
        5
    }
}

pub open spec fn columns(width: u16) -> int {
    if width >= 92 {
        7
    } else if width >= 76 {
        6
    } else {
        5
    }
}

/// The widths of the columns.
pub const COLW: [u16; 7] = [22, 16, 7, 7, 9, 6, 15];

/// A coordinate, no further than the last one.
pub open spec fn clamped(n: int) -> u16 {
    if n <= u16::MAX {
        n as u16
    } else {
        u16::MAX
    }
}

/// The header cells that sort: ports, CPU and memory. The border and the highlight
/// symbol take three columns, and one column stands between two cells.
pub open spec fn sort_cells(area: Rect) -> Seq<(u16, u16, SortMode)> {
    seq![
        (clamped(area.x + 43), clamped(area.x + 50), SortMode::Port),
        (clamped(area.x + 51), clamped(area.x + 58), SortMode::Cpu),
        (clamped(area.x + 59), clamped(area.x + 68), SortMode::Mem),
    ]
}

/// The clickable header cells of a table.
pub fn header_hits(area: Rect) -> (r: Vec<(u16, u16, SortMode)>)
    ensures
        r@ == sort_cells(area),
{
    let x = area.x;
    let mut hits: Vec<(u16, u16, SortMode)> = Vec::new();
    hits.push((x.saturating_add(43), x.saturating_add(50), SortMode::Port));
    hits.push((x.saturating_add(51), x.saturating_add(58), SortMode::Cpu));
    hits.push((x.saturating_add(59), x.saturating_add(68), SortMode::Mem));
    proof {
        assert(hits@ =~= sort_cells(area));
    }
    hits
}

// ----------------------------------------------------------------------- table

/// The heading of the screen.
pub open spec fn title_text(a: App) -> Seq<char> {
    " marina · "@ + text::decimal(a.targets().len()) + " targets · sort:"@ + a.sort.text() + " "@
}

fn title(a: &App) -> (r: String)
    ensures
        r@ == title_text(*a),
{
    let digits = text::to_decimal(a.snapshot.targets.len() as u64);
    let mut s = " marina · ".to_owned();
    s.append(digits.as_str());
    s.append(" targets · sort:");
    s.append(a.sort.label());
    s.append(" ");
    s
}

/// The heading of a column, marked where the table is sorted by it.
pub open spec fn marked(name: Seq<char>, on: bool) -> Seq<char> {
    name + if on {
        " ▾"@
    } else {
        ""@
    }
}

fn mark(name: &str, on: bool) -> (r: String)
    ensures
        r@ == marked(name@, on),
{
    join2(
        name,
        if on {
            " ▾"
        } else {
            ""
        },
    )
}

/// The headings of all columns.
pub open spec fn headings(sort: SortMode) -> Seq<Seq<char>> {
    seq![
        "PROJECT"@,
        "COMMAND"@,
        marked("PORT"@, sort == SortMode::Port),
        marked("CPU"@, sort == SortMode::Cpu),
        marked("MEM"@, sort == SortMode::Mem),
        "UP"@,
        "BRANCH"@,
    ]
}

fn header(sort: SortMode, cols: usize) -> (r: Vec<String>)
    requires
        cols <= 7,
    ensures
        text::texts(r@) == headings(sort).take(cols as int),
{
    let mut v: Vec<String> = Vec::new();
    v.push("PROJECT".to_owned());
    v.push("COMMAND".to_owned());
    v.push(mark("PORT", sort == SortMode::Port));
    v.push(mark("CPU", sort == SortMode::Cpu));
    v.push(mark("MEM", sort == SortMode::Mem));
    v.push("UP".to_owned());
    v.push("BRANCH".to_owned());
    proof {
        assert(text::texts(v@) =~= headings(sort));
    }
    v.truncate(cols);
    proof {
        assert(text::texts(v@) =~= headings(sort).take(cols as int));
    }
    v
}

/// A row of the table.
#[derive(Debug)]
pub struct Row {
    pub cells: Vec<Vec<Span>>,
    /// A group header.
    pub heading: bool,
    /// Inside the window of a kill.
    pub dying: bool,
}

#[verifier::ext_equal]
pub struct RowView {
    pub cells: Seq<Seq<SpanView>>,
    pub heading: bool,
    pub dying: bool,
}

impl View for Row {
    type V = RowView;

    open spec fn view(&self) -> RowView {
        RowView { cells: line_views(self.cells@), heading: self.heading, dying: self.dying }
    }
}

pub open spec fn row_views(v: Seq<Row>) -> Seq<RowView> {
    v.map_values(|r: Row| r@)
}

/// The category of a label that is infrastructure.
pub open spec fn category(label: Seq<char>) -> Option<Seq<char>> {
    if label == "postgres"@ || label == "mysql"@ || label == "mongodb"@ {
        Some("db"@)
    } else if label == "redis"@ || label == "memcached"@ {
        Some("cache"@)
    } else {
        None
    }
}

/// A category tag for recognized infrastructure.
pub fn infra_tag(label: &str) -> (r: Option<&'static str>)
    ensures
        match r {
            Some(t) => category(label@) == Some(t@),
            None => category(label@) is None,
        },
{
    if text::same(label, "postgres") || text::same(label, "mysql") || text::same(label, "mongodb") {
        Some("db")
    } else if text::same(label, "redis") || text::same(label, "memcached") {
        Some("cache")
    } else {
        None
    }
}

/// The tag of a target: its category, or that it is a container.
pub open spec fn tag_of(t: TargetView) -> Option<Seq<char>> {
    match category(t.command_label) {
        Some(c) => Some(c),
        None => if t.container is Some {
            Some("docker"@)
        } else {
            None
        },
    }
}

/// A text, or a dash.
pub open spec fn or_dash(o: Option<Seq<char>>) -> Seq<char> {
    match o {
        Some(s) => s,
        None => NONE@,
    }
}

/// The first port with its colon, or a dash.
pub open spec fn port_or_dash(t: TargetView) -> Seq<char> {
    if t.ports.len() > 0 {
        ":"@ + text::decimal(t.ports[0] as nat)
    } else {
        NONE@
    }
}

fn first_port(t: &Target) -> (r: String)
    ensures
        r@ == port_or_dash(t@),
{
    if t.ports.len() > 0 {
        let digits = text::to_decimal(t.ports[0] as u64);
        join2(":", digits.as_str())
    } else {
        NONE.to_owned()
    }
}

/// What the first cell of a target's row says.
pub open spec fn project_cell(t: TargetView, indent: bool) -> Seq<char> {
    if indent {
        "  ↳"@
    } else {
        match t.kind {
            TargetKind::Watched => t.project + " ·watch"@,
            TargetKind::Listener => t.project,
        }
    }
}

/// The row of a target. A new one flashes; what cannot be measured shows a dash; a
/// port that the LAN reaches is marked.
pub open spec fn target_cells(
    t: TargetView,
    indent: bool,
    flashing: bool,
    unix: u64,
) -> Seq<Seq<SpanView>> {
    let plain = |s: Seq<char>| seq![tinted(s, Tint::Plain)];
    seq![
        seq![
            if flashing {
                strong(project_cell(t, indent), Tint::Green)
            } else {
                tinted(project_cell(t, indent), Tint::Plain)
            },
        ],
        match tag_of(t) {
            Some(tag) => seq![
                tinted(t.command_label, Tint::Plain),
                tinted(" ·"@ + tag, Tint::DarkGray),
            ],
            None => plain(t.command_label),
        },
        seq![
            if t.exposed {
                strong(port_or_dash(t) + "!"@, Tint::Red)
            } else {
                tinted(port_or_dash(t), Tint::Plain)
            },
        ],
        plain(
            if t.pids.len() == 0 {
                NONE@
            } else {
                cpu_text(t.cpu as nat)
            },
        ),
        plain(
            if t.pids.len() == 0 {
                NONE@
            } else {
                mem_text(t.mem_bytes as nat)
            },
        ),
        plain(uptime_text(t.anchor.start_time, unix)),
        plain(or_dash(t.git_branch)),
    ]
}

fn plain_cell(s: String) -> (r: Vec<Span>)
    ensures
        span_views(r@) == seq![tinted(s@, Tint::Plain)],
{
    one(span(s, Tint::Plain))
}

fn command_cell(t: &Target) -> (r: Vec<Span>)
    ensures
        span_views(r@) == match tag_of(t@) {
            Some(tag) => seq![
                tinted(t@.command_label, Tint::Plain),
                tinted(" ·"@ + tag, Tint::DarkGray),
            ],
            None => seq![tinted(t@.command_label, Tint::Plain)],
        },
{
    let tag = match infra_tag(t.command_label.as_str()) {
        Some(c) => Some(c),
        None => if t.container.is_some() {
            Some("docker")
        } else {
            None
        },
    };
    match tag {
        Some(c) => two(
            span(t.command_label.clone(), Tint::Plain),
            span(join2(" ·", c), Tint::DarkGray),
        ),
        None => plain_cell(t.command_label.clone()),
    }
}

/// The row of a target.
pub open spec fn target_row_view(a: App, t: TargetView, indent: bool, now: u64, unix: u64) -> RowView {
    RowView {
        cells: target_cells(t, indent, a.flashes(t.key, now), unix),
        heading: false,
        dying: a.dies(t.key),
    }
}

fn target_row(a: &App, t: &Target, indent: bool, now: u64, unix: u64) -> (r: Row)
    ensures
        r@ == target_row_view(*a, t@, indent, now, unix),
{
    let flashing = a.is_flashing(&t.key, now);
    let dying = a.is_dying(&t.key);
    let name = if indent {
        "  ↳".to_owned()
    } else {
        match t.kind {
            TargetKind::Watched => join2(t.project.as_str(), " ·watch"),
            TargetKind::Listener => t.project.clone(),
        }
    };
    let c0 = if flashing {
        one(bold(name, Tint::Green))
    } else {
        one(span(name, Tint::Plain))
    };
    let c1 = command_cell(t);
    let port = first_port(t);
    let c2 = if t.exposed {
        one(bold(join2(port.as_str(), "!"), Tint::Red))
    } else {
        one(span(port, Tint::Plain))
    };
    let measured = t.pids.len() > 0;
    let c3 = plain_cell(
        if measured {
            fmt_cpu(t.cpu)
        } else {
            NONE.to_owned()
        },
    );
    let c4 = plain_cell(
        if measured {
            fmt_mem(t.mem_bytes)
        } else {
            NONE.to_owned()
        },
    );
    let c5 = plain_cell(fmt_uptime(t.anchor.start_time, unix));
    let c6 = plain_cell(
        match &t.git_branch {
            Some(b) => b.clone(),
            None => NONE.to_owned(),
        },
    );
    let mut cells: Vec<Vec<Span>> = Vec::new();
    cells.push(c0);
    cells.push(c1);
    cells.push(c2);
    cells.push(c3);
    cells.push(c4);
    cells.push(c5);
    cells.push(c6);
    let row = Row { cells, heading: false, dying };
    proof {
        assert(line_views(cells@) =~= target_cells(t@, indent, flashing, unix));
        assert(row@ =~= target_row_view(*a, t@, indent, now, unix));
    }
    row
}

/// The CPU shares of the measured targets among some.
pub open spec fn measured_cpu(targets: Seq<TargetView>) -> nat
    decreases targets.len(),
{
    if targets.len() == 0 {
        0
    } else {
        measured_cpu(targets.drop_last()) + if targets.last().pids.len() > 0 {
            targets.last().cpu as nat
        } else {
            0
        }
    }
}

/// The memory of the measured targets among some.
pub open spec fn measured_mem(targets: Seq<TargetView>) -> nat
    decreases targets.len(),
{
    if targets.len() == 0 {
        0
    } else {
        measured_mem(targets.drop_last()) + if targets.last().pids.len() > 0 {
            targets.last().mem_bytes as nat
        } else {
            0
        }
    }
}

/// What is shown of a whole project: how many targets, their CPU and their memory.
pub open spec fn project_totals(targets: Seq<TargetView>, project: Seq<char>) -> (nat, u64, u64) {
    let members = selection(targets, Some(EntryView::Group(project)));
    (members.len(), capped(measured_cpu(members)), capped(measured_mem(members)))
}

fn totals(targets: &[Target], project: &str) -> (r: (usize, u64, u64))
    ensures
        (r.0 as nat, r.1, r.2) == project_totals(target_views(targets@), project@),
{
    let ghost all = target_views(targets@);
    let ghost sel = Some(EntryView::Group(project@));
    let mut n: usize = 0;
    let mut cpu: u64 = 0;
    let mut mem: u64 = 0;
    let mut i: usize = 0;
    while i < targets.len()
        invariant
            i <= targets@.len(),
            n <= i,
            all == target_views(targets@),
            sel == Some(EntryView::Group(project@)),
            n == selection(all.take(i as int), sel).len(),
            cpu == capped(measured_cpu(selection(all.take(i as int), sel))),
            mem == capped(measured_mem(selection(all.take(i as int), sel))),
        decreases targets@.len() - i,
    {
        let t = &targets[i];
        let ghost before = selection(all.take(i as int), sel);
        proof {
            assert(all.take(i + 1).drop_last() =~= all.take(i as int));
            assert(all.take(i + 1).last() == t@);
            assert(before.push(t@).drop_last() =~= before);
        }
        if text::same(t.project.as_str(), project) {
            n = n + 1;
            if t.pids.len() > 0 {
                cpu = cpu.saturating_add(t.cpu);
                mem = mem.saturating_add(t.mem_bytes);
            }
        }
        i = i + 1;
    }
    proof {
        assert(all.take(i as int) =~= all);
    }
    (n, cpu, mem)
}

/// The header row of a group.
pub open spec fn group_row_view(a: App, project: Seq<char>) -> RowView {
    let sum = project_totals(a.targets(), project);
    let plain = |s: Seq<char>| seq![tinted(s, Tint::Plain)];
    RowView {
        cells: seq![
            plain(
                (if text::texts(a.collapsed@).contains(project) {
                    "▸"@
                } else {
                    "▾"@
                }) + " "@ + project + " ("@ + text::decimal(sum.0) + ")"@,
            ),
            plain(""@),
            plain(""@),
            plain(cpu_text(sum.1 as nat)),
            plain(mem_text(sum.2 as nat)),
            plain(""@),
            plain(""@),
        ],
        heading: true,
        dying: false,
    }
}

fn group_row(a: &App, project: &str) -> (r: Row)
    ensures
        r@ == group_row_view(*a, project@),
{
    let (n, cpu, mem) = totals(a.snapshot.targets.as_slice(), project);
    let digits = text::to_decimal(n as u64);
    let mut name = if has_text(a.collapsed.as_slice(), project) {
        "▸".to_owned()
    } else {
        "▾".to_owned()
    };
    name.append(" ");
    name.append(project);
    name.append(" (");
    name.append(digits.as_str());
    name.append(")");
    let mut cells: Vec<Vec<Span>> = Vec::new();
    cells.push(plain_cell(name));
    cells.push(plain_cell("".to_owned()));
    cells.push(plain_cell("".to_owned()));
    cells.push(plain_cell(fmt_cpu(cpu)));
    cells.push(plain_cell(fmt_mem(mem)));
    cells.push(plain_cell("".to_owned()));
    cells.push(plain_cell("".to_owned()));
    let row = Row { cells, heading: true, dying: false };
    proof {
        assert(line_views(cells@) =~= group_row_view(*a, project@).cells);
        assert(row@ =~= group_row_view(*a, project@));
    }
    row
}

/// The last target with a key.
pub open spec fn last_with_key(targets: Seq<TargetView>, key: KeyView) -> Option<TargetView>
    decreases targets.len(),
{
    if targets.len() == 0 {
        None
    } else if targets.last().key == key {
        Some(targets.last())
    } else {
        last_with_key(targets.drop_last(), key)
    }
}

fn find_last<'a>(targets: &'a [Target], key: &TargetKey) -> (r: Option<&'a Target>)
    ensures
        match r {
            Some(t) => last_with_key(target_views(targets@), key@) == Some(t@),
            None => last_with_key(target_views(targets@), key@) is None,
        },
{
    let ghost all = target_views(targets@);
    let mut i: usize = targets.len();
    proof {
        assert(all.take(i as int) =~= all);
    }
    while i > 0
        invariant
            i <= targets@.len(),
            all == target_views(targets@),
            last_with_key(all, key@) == last_with_key(all.take(i as int), key@),
        decreases i,
    {
        proof {
            assert(all.take(i as int).last() == targets@[i - 1]@);
            assert(all.take(i as int).drop_last() =~= all.take(i - 1));
        }
        if targets[i - 1].key.same(key) {
            return Some(&targets[i - 1]);
        }
        i = i - 1;
    }
    None
}

/// A row whose target is gone.
pub open spec fn blank_row() -> RowView {
    RowView { cells: Seq::empty(), heading: false, dying: false }
}

/// The row of an entry.
pub open spec fn entry_row_view(a: App, e: EntryView, now: u64, unix: u64) -> RowView {
    match e {
        EntryView::Group(p) => group_row_view(a, p),
        EntryView::Member(k) => match last_with_key(a.targets(), k) {
            Some(t) => target_row_view(a, t, true, now, unix),
            None => blank_row(),
        },
        EntryView::Target(k) => match last_with_key(a.targets(), k) {
            Some(t) => target_row_view(a, t, false, now, unix),
            None => blank_row(),
        },
    }
}

fn key_row(a: &App, key: &TargetKey, indent: bool, now: u64, unix: u64) -> (r: Row)
    ensures
        r@ == match last_with_key(a.targets(), key@) {
            Some(t) => target_row_view(*a, t, indent, now, unix),
            None => blank_row(),
        },
{
    match find_last(a.snapshot.targets.as_slice(), key) {
        Some(t) => target_row(a, t, indent, now, unix),
        None => {
            let row = Row { cells: Vec::new(), heading: false, dying: false };
            proof {
                assert(row@ =~= blank_row());
            }
            row
        },
    }
}

fn entry_row(a: &App, e: &Entry, now: u64, unix: u64) -> (r: Row)
    ensures
        r@ == entry_row_view(*a, e@, now, unix),
{
    match e {
        Entry::Group(p) => group_row(a, p.as_str()),
        Entry::Member(k) => key_row(a, k, true, now, unix),
        Entry::Target(k) => key_row(a, k, false, now, unix),
    }
}

/// All rows of the table.
pub open spec fn all_rows(a: App, now: u64, unix: u64) -> Seq<RowView> {
    entry_views(a.display@).map_values(|e: EntryView| entry_row_view(a, e, now, unix))
}

/// The rows of the table.
pub fn rows(a: &App, now: u64, unix: u64) -> (r: Vec<Row>)
    ensures
        row_views(r@) == all_rows(*a, now, unix),
{
    let ghost all = all_rows(*a, now, unix);
    let mut out: Vec<Row> = Vec::new();
    let mut i: usize = 0;
    while i < a.display.len()
        invariant
            i <= a.display@.len(),
            all == all_rows(*a, now, unix),
            row_views(out@) == all.take(i as int),
        decreases a.display@.len() - i,
    {
        let ghost before = out@;
        let row = entry_row(a, &a.display[i], now, unix);
        out.push(row);
        proof {
            assert(all[i as int] == row@);
            assert(row_views(out@) =~= row_views(before).push(row@));
            assert(row_views(out@) =~= all.take(i + 1));
        }
        i = i + 1;
    }
    proof {
        assert(all.take(i as int) =~= all);
    }
    out
}

// ---------------------------------------------------------------- detail line

/// Ports with their colons, between blanks.
pub open spec fn port_list(ports: Seq<u16>) -> Seq<char> {
    text::joined(ports.map_values(|p: u16| ":"@ + text::decimal(p as nat)), " "@)
}

fn list_ports(ports: &[u16]) -> (r: String)
    ensures
        r@ == port_list(ports@),
{
    let ghost all = ports@.map_values(|p: u16| ":"@ + text::decimal(p as nat));
    let mut parts: Vec<String> = Vec::new();
    let mut i: usize = 0;
    while i < ports.len()
        invariant
            i <= ports@.len(),
            all == ports@.map_values(|p: u16| ":"@ + text::decimal(p as nat)),
            text::texts(parts@) == all.take(i as int),
        decreases ports@.len() - i,
    {
        let ghost before = parts@;
        let digits = text::to_decimal(ports[i] as u64);
        let s = join2(":", digits.as_str());
        parts.push(s);
        proof {
            assert(text::texts(parts@) =~= text::texts(before).push(s@));
            assert(text::texts(parts@) =~= all.take(i + 1));
        }
        i = i + 1;
    }
    proof {
        assert(all.take(i as int) =~= all);
    }
    text::join(parts.as_slice(), " ")
}

/// The warning at a port that the LAN reaches.
pub open spec fn exposed_span() -> SpanView {
    tinted(" · LAN-exposed (0.0.0.0)"@, Tint::Red)
}

/// The spans that a target adds to its detail line where they apply.
pub open spec fn detail_extras(t: TargetView) -> Seq<SpanView> {
    (if t.ports.len() > 1 {
        seq![tinted(" · "@ + port_list(t.ports), Tint::Gray)]
    } else {
        seq![]
    }) + (match t.container {
        Some(c) => seq![tinted(" · container:"@ + c, Tint::Gray)],
        None => seq![],
    }) + (if t.exposed {
        seq![exposed_span()]
    } else {
        seq![]
    })
}

/// The URL of a target, or a dash.
pub open spec fn url_or_dash(t: TargetView) -> Seq<char> {
    match t.url {
        Some(u) => u.value,
        None => NONE@,
    }
}

/// The detail line of a target.
pub open spec fn target_detail(t: TargetView, home: Option<Seq<char>>) -> Seq<SpanView> {
    seq![
        tinted(
            "  "@ + t.project + " · "@ + t.command_label + " · "@ + url_or_dash(t) + " · "@
                + shortened(t.cwd, home) + " · "@ + or_dash(t.git_branch) + " · pids:"@
                + text::decimal(t.pids.len()),
            Tint::Gray,
        ),
    ] + detail_extras(t)
}

/// The detail line of a project.
pub open spec fn project_detail(targets: Seq<TargetView>, project: Seq<char>) -> Seq<SpanView> {
    let sum = project_totals(targets, project);
    seq![
        tinted(
            "  "@ + project + " · "@ + text::decimal(sum.0) + " services · "@ + cpu_text(
                sum.1 as nat,
            ) + " · "@ + mem_text(sum.2 as nat) + " · K kills all"@,
            Tint::Gray,
        ),
    ]
}

/// The line that tells more about the selection.
pub open spec fn detail_spans(a: App, home: Option<Seq<char>>) -> Seq<SpanView> {
    match opt_entry(a.selected) {
        Some(EntryView::Group(p)) => project_detail(a.targets(), p),
        _ => match under_cursor(a.targets(), opt_entry(a.selected)) {
            Some(t) => target_detail(t, home),
            None => seq![tinted(""@, Tint::Plain)],
        },
    }
}

fn url_text(t: &Target) -> (r: &str)
    ensures
        r@ == url_or_dash(t@),
{
    match &t.url {
        Some(u) => u.value.as_str(),
        None => NONE,
    }
}

fn branch_text(t: &Target) -> (r: &str)
    ensures
        r@ == or_dash(t@.git_branch),
{
    match &t.git_branch {
        Some(b) => b.as_str(),
        None => NONE,
    }
}

fn detail_of(t: &Target, home: Option<&str>) -> (r: Vec<Span>)
    ensures
        span_views(r@) == target_detail(t@, opt_str(home)),
{
    let cwd = tildify(t.cwd.as_str(), home);
    let n = text::to_decimal(t.pids.len() as u64);
    let mut s = join3("  ", t.project.as_str(), " · ");
    s.append(t.command_label.as_str());
    s.append(" · ");
    s.append(url_text(t));
    s.append(" · ");
    s.append(cwd.as_str());
    s.append(" · ");
    s.append(branch_text(t));
    s.append(" · pids:");
    s.append(n.as_str());
    let first = span(s, Tint::Gray);
    let ghost fv = first@;
    let mut spans = one(first);
    if t.ports.len() > 1 {
        let ports = list_ports(t.ports.as_slice());
        spans.push(span(join2(" · ", ports.as_str()), Tint::Gray));
    }
    match &t.container {
        Some(c) => {
            spans.push(span(join2(" · container:", c.as_str()), Tint::Gray));
        },
        None => {},
    }
    if t.exposed {
        spans.push(span(" · LAN-exposed (0.0.0.0)".to_owned(), Tint::Red));
    }
    proof {
        assert(span_views(spans@) =~= seq![fv] + detail_extras(t@));
    }
    spans
}

/// More about the selection, in one line.
pub fn detail_line(a: &App, home: Option<&str>) -> (r: Vec<Span>)
    ensures
        span_views(r@) == detail_spans(*a, opt_str(home)),
{
    match &a.selected {
        Some(Entry::Group(p)) => {
            let (n, cpu, mem) = totals(a.snapshot.targets.as_slice(), p.as_str());
            let digits = text::to_decimal(n as u64);
            let c = fmt_cpu(cpu);
            let m = fmt_mem(mem);
            let mut s = join3("  ", p.as_str(), " · ");
            s.append(digits.as_str());
            s.append(" services · ");
            s.append(c.as_str());
            s.append(" · ");
            s.append(m.as_str());
            s.append(" · K kills all");
            one(span(s, Tint::Gray))
        },
        _ => match a.selected_target() {
            Some(t) => detail_of(t, home),
            None => plain_cell("".to_owned()),
        },
    }
}

// ---------------------------------------------------------------------- footer

/// The last line: what is typed, a status, a warning, the filter, or the keys.
pub open spec fn footer_span(a: App) -> SpanView {
    if a.filter_active {
        tinted("  /"@ + a.filter@ + "▏  (Enter: apply · Esc: clear)"@, Tint::Yellow)
    } else {
        match (opt_text(a.status), opt_text(a.data_warning)) {
            (Some(s), _) => tinted("  "@ + s, Tint::Yellow),
            (None, Some(w)) => strong("  ⚠ "@ + w, Tint::Red),
            (None, None) => if a.filter@.len() > 0 {
                tinted(
                    "  [filter: "@ + a.filter@ + "] · / edit · Esc clear · q quit"@,
                    Tint::DarkGray,
                )
            } else {
                tinted(
                    "  j/k move · / filter · s sort · i inspect · K kill · ? help · q quit"@,
                    Tint::DarkGray,
                )
            },
        }
    }
}

fn footer_line(a: &App) -> (r: Span)
    ensures
        r@ == footer_span(*a),
{
    if a.is_filtering() {
        return span(
            join3("  /", a.filter.as_str(), "▏  (Enter: apply · Esc: clear)"),
            Tint::Yellow,
        );
    }
    match (&a.status, &a.data_warning) {
        (Some(s), _) => span(join2("  ", s.as_str()), Tint::Yellow),
        (None, Some(w)) => bold(join2("  ⚠ ", w.as_str()), Tint::Red),
        (None, None) => if a.filter.as_str().unicode_len() > 0 {
            span(
                join3("  [filter: ", a.filter.as_str(), "] · / edit · Esc clear · q quit"),
                Tint::DarkGray,
            )
        } else {
            span(
                "  j/k move · / filter · s sort · i inspect · K kill · ? help · q quit".to_owned(),
                Tint::DarkGray,
            )
        },
    }
}

// --------------------------------------------------------------- inspect panel

/// A key and a value.
pub open spec fn pair(k: Seq<char>, v: Seq<char>) -> Seq<SpanView> {
    seq![
        tinted(" "@ + text::padded_right(k, 6) + " "@, Tint::Cyan),
        tinted(v, Tint::Gray),
    ]
}

fn kv(k: &str, v: String) -> (r: Vec<Span>)
    ensures
        span_views(r@) == pair(k@, v@),
{
    let padded = text::pad_right(k, 6);
    two(span(join3(" ", padded.as_str(), " "), Tint::Cyan), span(v, Tint::Gray))
}

/// The program of a target and how many arguments it has, never the arguments.
pub open spec fn program_text(t: TargetView) -> Seq<char> {
    if t.anchor_argv.len() == 0 {
        t.command_label
    } else if t.anchor_argv.len() == 1 {
        t.anchor_argv[0]
    } else {
        t.anchor_argv[0] + " (+"@ + text::decimal((t.anchor_argv.len() - 1) as nat) + " args)"@
    }
}

fn program_of(t: &Target) -> (r: String)
    ensures
        r@ == program_text(t@),
{
    let n = t.anchor_argv.len();
    if n == 0 {
        return t.command_label.clone();
    }
    assert(text::texts(t.anchor_argv@)[0] == t.anchor_argv@[0]@);
    if n == 1 {
        return t.anchor_argv[0].clone();
    }
    let digits = text::to_decimal((n - 1) as u64);
    let mut s = t.anchor_argv[0].clone();
    s.append(" (+");
    s.append(digits.as_str());
    s.append(" args)");
    s
}

/// The line of a target's ports.
pub open spec fn ports_line(t: TargetView) -> Seq<SpanView> {
    seq![
        tinted(" ports  "@, Tint::Cyan),
        tinted(
            if t.ports.len() == 0 {
                NONE@
            } else {
                port_list(t.ports)
            },
            Tint::Gray,
        ),
    ] + if t.exposed {
        seq![exposed_span()]
    } else {
        seq![]
    }
}

fn ports_spans(t: &Target) -> (r: Vec<Span>)
    ensures
        span_views(r@) == ports_line(t@),
{
    let list = if t.ports.len() == 0 {
        NONE.to_owned()
    } else {
        list_ports(t.ports.as_slice())
    };
    let ghost lv = list@;
    let mut v = two(span(" ports  ".to_owned(), Tint::Cyan), span(list, Tint::Gray));
    let ghost head = span_views(v@);
    if t.exposed {
        v.push(span(" · LAN-exposed (0.0.0.0)".to_owned(), Tint::Red));
    }
    proof {
        assert(span_views(v@) =~= ports_line(t@));
    }
    v
}

/// The last line of a target's panel: its container, or its processes.
pub open spec fn procs_line(t: TargetView, unix: u64) -> Seq<SpanView> {
    match t.container {
        Some(c) => pair("dockr"@, "container "@ + c),
        None => pair(
            "procs"@,
            text::decimal(t.pids.len()) + " pids · anchor "@ + text::decimal(t.anchor.pid as nat)
                + " · up "@ + uptime_text(t.anchor.start_time, unix),
        ),
    }
}

fn procs_spans(t: &Target, unix: u64) -> (r: Vec<Span>)
    ensures
        span_views(r@) == procs_line(t@, unix),
{
    match &t.container {
        Some(c) => kv("dockr", join2("container ", c.as_str())),
        None => {
            let n = text::to_decimal(t.pids.len() as u64);
            let pid = text::to_decimal(t.anchor.pid as u64);
            let up = fmt_uptime(t.anchor.start_time, unix);
            let mut s = n;
            s.append(" pids · anchor ");
            s.append(pid.as_str());
            s.append(" · up ");
            s.append(up.as_str());
            kv("procs", s)
        },
    }
}

/// The panel of a target.
pub open spec fn target_panel(t: TargetView, home: Option<Seq<char>>, unix: u64) -> Seq<
    Seq<SpanView>,
> {
    seq![
        seq![
            strong(" "@ + t.project, Tint::Plain),
            tinted(" · "@ + t.command_label, Tint::Gray),
        ],
        pair("cmd"@, program_text(t)),
        ports_line(t),
        pair("url"@, url_or_dash(t)),
        pair("cwd"@, shortened(t.cwd, home) + " · "@ + or_dash(t.git_branch)),
        procs_line(t, unix),
    ]
}

fn panel_of(t: &Target, home: Option<&str>, unix: u64) -> (r: Vec<Vec<Span>>)
    ensures
        line_views(r@) == target_panel(t@, opt_str(home), unix),
{
    let l0 = two(
        bold(join2(" ", t.project.as_str()), Tint::Plain),
        span(join2(" · ", t.command_label.as_str()), Tint::Gray),
    );
    let cwd = tildify(t.cwd.as_str(), home);
    let mut v: Vec<Vec<Span>> = Vec::new();
    v.push(l0);
    v.push(kv("cmd", program_of(t)));
    v.push(ports_spans(t));
    v.push(kv("url", url_text(t).to_owned()));
    v.push(kv("cwd", join3(cwd.as_str(), " · ", branch_text(t))));
    v.push(procs_spans(t, unix));
    proof {
        assert(line_views(v@) =~= target_panel(t@, opt_str(home), unix));
    }
    v
}

/// One line per target: its port and its label.
pub open spec fn member_lines(targets: Seq<TargetView>) -> Seq<Seq<SpanView>> {
    targets.map_values(|t: TargetView| pair(port_or_dash(t), t.command_label))
}

/// At most five of some targets.
pub open spec fn first_five(targets: Seq<TargetView>) -> Seq<TargetView> {
    if targets.len() <= 5 {
        targets
    } else {
        targets.take(5)
    }
}

/// The panel of a project: its name and its first targets.
pub open spec fn project_panel(targets: Seq<TargetView>, project: Seq<char>) -> Seq<Seq<SpanView>> {
    seq![seq![strong(" "@ + project + " (group)"@, Tint::Plain)]] + member_lines(
        first_five(selection(targets, Some(EntryView::Group(project)))),
    )
}

fn group_panel(a: &App, project: &str) -> (r: Vec<Vec<Span>>)
    requires
        opt_entry(a.selected) == Some(EntryView::Group(project@)),
    ensures
        line_views(r@) == project_panel(a.targets(), project@),
{
    let members = a.selected_targets();
    let ghost all = ref_views(members@);
    let ghost five = first_five(all);
    let ghost lines = member_lines(five);
    let mut v: Vec<Vec<Span>> = Vec::new();
    let head = one(bold(join3(" ", project, " (group)"), Tint::Plain));
    v.push(head);
    let ghost h = seq![seq![strong(" "@ + project@ + " (group)"@, Tint::Plain)]];
    let mut i: usize = 0;
    proof {
        assert(line_views(v@) =~= h + lines.take(0));
    }
    while i < members.len() && i < 5
        invariant
            i <= members@.len(),
            i <= 5,
            all == ref_views(members@),
            five == first_five(all),
            lines == member_lines(five),
            line_views(v@) == h + lines.take(i as int),
        decreases members@.len() - i,
    {
        let t = members[i];
        let ghost before = v@;
        let port = first_port(t);
        let l = kv(port.as_str(), t.command_label.clone());
        v.push(l);
        proof {
            assert(five[i as int] == t@);
            assert(lines[i as int] == span_views(l@));
            assert(line_views(v@) =~= line_views(before).push(span_views(l@)));
            assert(line_views(v@) =~= h + lines.take(i + 1));
        }
        i = i + 1;
    }
    proof {
        assert(lines.take(i as int) =~= lines);
    }
    v
}

/// The panel that tells everything about the selection.
pub open spec fn inspect_lines(a: App, home: Option<Seq<char>>, unix: u64) -> Seq<Seq<SpanView>> {
    match under_cursor(a.targets(), opt_entry(a.selected)) {
        Some(t) => target_panel(t, home, unix),
        None => match opt_entry(a.selected) {
            Some(EntryView::Group(p)) => project_panel(a.targets(), p),
            _ => seq![seq![tinted(" nothing selected"@, Tint::Plain)]],
        },
    }
}

/// Everything about the selection.
pub fn inspect_panel(a: &App, home: Option<&str>, unix: u64) -> (r: Vec<Vec<Span>>)
    ensures
        line_views(r@) == inspect_lines(*a, opt_str(home), unix),
{
    match a.selected_target() {
        Some(t) => return panel_of(t, home, unix),
        None => {},
    }
    match &a.selected {
        Some(Entry::Group(p)) => group_panel(a, p.as_str()),
        _ => {
            let mut v: Vec<Vec<Span>> = Vec::new();
            v.push(plain_cell(" nothing selected".to_owned()));
            proof {
                assert(line_views(v@) =~= seq![seq![tinted(" nothing selected"@, Tint::Plain)]]);
            }
            v
        },
    }
}

/// Two targets differ in nothing but the arguments of their command: the program and
/// how many there are stay.
pub open spec fn same_but_args(a: TargetView, b: TargetView) -> bool {
    &&& (TargetView { anchor_argv: b.anchor_argv, ..a }) == b
    &&& a.anchor_argv.len() == b.anchor_argv.len()
    &&& a.anchor_argv.len() > 0 ==> a.anchor_argv[0] == b.anchor_argv[0]
}

/// No part of the screen shows an argument of a command: rows, detail lines and panels
/// are the same for targets that differ in nothing else.
pub proof fn arguments_are_never_shown(
    a: TargetView,
    b: TargetView,
    indent: bool,
    flashing: bool,
    home: Option<Seq<char>>,
    unix: u64,
)
    requires
        same_but_args(a, b),
    ensures
        target_cells(a, indent, flashing, unix) == target_cells(b, indent, flashing, unix),
        target_detail(a, home) == target_detail(b, home),
        target_panel(a, home, unix) == target_panel(b, home, unix),
{
}

/// Targets that differ in nothing but the arguments of their commands.
pub open spec fn all_same_but_args(a: Seq<TargetView>, b: Seq<TargetView>) -> bool {
    &&& a.len() == b.len()
    &&& forall|i: int| 0 <= i < a.len() ==> same_but_args(#[trigger] a[i], b[i])
}

/// Two states differ in nothing but the arguments of the commands of their targets.
pub open spec fn alike_but_args(a: App, b: App) -> bool {
    &&& b == (App { snapshot: b.snapshot, ..a })
    &&& all_same_but_args(a.targets(), b.targets())
}

proof fn lemma_same_drop_last(a: Seq<TargetView>, b: Seq<TargetView>)
    requires
        all_same_but_args(a, b),
        a.len() > 0,
    ensures
        all_same_but_args(a.drop_last(), b.drop_last()),
        same_but_args(a.last(), b.last()),
{
    assert forall|i: int| 0 <= i < a.drop_last().len() implies same_but_args(
        #[trigger] a.drop_last()[i],
        b.drop_last()[i],
    ) by {
        assert(same_but_args(a[i], b[i]));
    }
    assert(same_but_args(a[a.len() - 1], b[a.len() - 1]));
}

proof fn lemma_same_selection(a: Seq<TargetView>, b: Seq<TargetView>, sel: Option<EntryView>)
    requires
        all_same_but_args(a, b),
    ensures
        all_same_but_args(selection(a, sel), selection(b, sel)),
    decreases a.len(),
{
    if a.len() > 0 {
        lemma_same_drop_last(a, b);
        lemma_same_selection(a.drop_last(), b.drop_last(), sel);
        let x = selection(a.drop_last(), sel);
        let y = selection(b.drop_last(), sel);
        assert forall|i: int| 0 <= i < selection(a, sel).len() implies same_but_args(
            #[trigger] selection(a, sel)[i],
            selection(b, sel)[i],
        ) by {
            if i < x.len() {
                assert(same_but_args(x[i], y[i]));
            }
        }
    }
}

proof fn lemma_same_totals(a: Seq<TargetView>, b: Seq<TargetView>)
    requires
        all_same_but_args(a, b),
    ensures
        measured_cpu(a) == measured_cpu(b),
        measured_mem(a) == measured_mem(b),
    decreases a.len(),
{
    if a.len() > 0 {
        lemma_same_drop_last(a, b);
        lemma_same_totals(a.drop_last(), b.drop_last());
    }
}

proof fn lemma_same_under_cursor(
    a: Seq<TargetView>,
    b: Seq<TargetView>,
    sel: Option<EntryView>,
)
    requires
        all_same_but_args(a, b),
    ensures
        match (under_cursor(a, sel), under_cursor(b, sel)) {
            (Some(x), Some(y)) => same_but_args(x, y),
            (None, None) => true,
            _ => false,
        },
{
    if let Some(e) = sel {
        if let Some(k) = entry_key(e) {
            let x = Seq::new(a.len(), |i: int| a[i].key == k);
            let y = Seq::new(b.len(), |i: int| b[i].key == k);
            assert forall|i: int| 0 <= i < x.len() implies x[i] == y[i] by {
                assert(same_but_args(a[i], b[i]));
            }
            assert(x =~= y);
            lemma_first_hit(x);
            if let Some(i) = first_hit(x) {
                assert(same_but_args(a[i], b[i]));
            }
        }
    }
}

proof fn lemma_same_with_key(a: Seq<TargetView>, b: Seq<TargetView>, key: KeyView)
    requires
        all_same_but_args(a, b),
    ensures
        match (last_with_key(a, key), last_with_key(b, key)) {
            (Some(x), Some(y)) => same_but_args(x, y),
            (None, None) => true,
            _ => false,
        },
    decreases a.len(),
{
    if a.len() > 0 {
        lemma_same_drop_last(a, b);
        lemma_same_with_key(a.drop_last(), b.drop_last(), key);
    }
}

/// Secrets stay off the screen: states that differ in nothing but the arguments of
/// commands show the same rows, the same detail line and the same panel, and the screen
/// of one is a screen of the other.
pub proof fn arguments_never_reach_the_screen(
    a: App,
    b: App,
    now: u64,
    unix: u64,
    home: Option<Seq<char>>,
)
    requires
        alike_but_args(a, b),
    ensures
        inspect_lines(a, home, unix) == inspect_lines(b, home, unix),
        detail_spans(a, home) == detail_spans(b, home),
        all_rows(a, now, unix) == all_rows(b, now, unix),
        forall|s: Screen, version: Seq<char>, config: Option<Seq<char>>| #[trigger]
            shows(s, a, now, unix, home, version, config) == shows(
                s,
                b,
                now,
                unix,
                home,
                version,
                config,
            ),
{
    let x = a.targets();
    let y = b.targets();
    let sel = opt_entry(a.selected);
    lemma_same_under_cursor(x, y, sel);
    if let Some(EntryView::Group(p)) = sel {
        lemma_same_selection(x, y, sel);
        let m = selection(x, sel);
        let n = selection(y, sel);
        lemma_same_totals(m, n);
        assert(member_lines(first_five(m)) =~= member_lines(first_five(n))) by {
            assert forall|i: int| 0 <= i < first_five(m).len() implies member_lines(
                first_five(m),
            )[i] == member_lines(first_five(n))[i] by {
                assert(same_but_args(m[i], n[i]));
            }
        }
    }
    assert forall|e: EntryView| #[trigger] entry_row_view(a, e, now, unix) == entry_row_view(
        b,
        e,
        now,
        unix,
    ) by {
        match e {
            EntryView::Group(p) => {
                let group = Some(EntryView::Group(p));
                lemma_same_selection(x, y, group);
                lemma_same_totals(selection(x, group), selection(y, group));
            },
            EntryView::Member(k) => {
                lemma_same_with_key(x, y, k);
            },
            EntryView::Target(k) => {
                lemma_same_with_key(x, y, k);
            },
        }
    }
    assert(all_rows(a, now, unix) =~= all_rows(b, now, unix));
}

// -------------------------------------------------------------------- log pane

/// The first visible line of a log pane with `h` lines of room.
pub open spec fn log_top(l: LogView, h: nat) -> int {
    let n = l.lines@.len() as int;
    match l.scroll {
        Some(s) => if s <= less(n, 1) {
            s as int
        } else {
            less(n, 1)
        },
        None => less(n, h as int),
    }
}

/// The visible lines of a log pane.
pub open spec fn log_window(l: LogView, h: nat) -> Seq<Seq<char>> {
    let rest = text::texts(l.lines@).skip(log_top(l, h));
    if rest.len() <= h {
        rest
    } else {
        rest.take(h as int)
    }
}

/// The heading of a log pane.
pub open spec fn log_title(l: LogView) -> Seq<char> {
    " logs: "@ + l.title@ + " — "@ + if l.scroll is Some {
        "scrolled · ] follow · Esc close"@
    } else {
        "[ ] scroll · +/- size · Esc close"@
    } + " "@
}

fn log_lines(l: &LogView, h: usize) -> (r: Vec<String>)
    ensures
        text::texts(r@) == log_window(*l, h as nat),
{
    let n = l.lines.len();
    let last: usize = if n >= 1 {
        n - 1
    } else {
        0
    };
    let top: usize = match l.scroll {
        Some(s) => if s <= last {
            s
        } else {
            last
        },
        None => if n >= h {
            n - h
        } else {
            0
        },
    };
    let ghost all = text::texts(l.lines@);
    let ghost rest = all.skip(top as int);
    let mut out: Vec<String> = Vec::new();
    let mut i: usize = top;
    while i < n && i - top < h
        invariant
            top <= i <= n,
            n == l.lines@.len(),
            i - top <= h,
            all == text::texts(l.lines@),
            rest == all.skip(top as int),
            text::texts(out@) == rest.take(i - top),
        decreases n - i,
    {
        let ghost before = out@;
        let s = l.lines[i].clone();
        out.push(s);
        proof {
            assert(rest[i - top] == s@);
            assert(text::texts(out@) =~= text::texts(before).push(s@));
            assert(text::texts(out@) =~= rest.take(i + 1 - top));
        }
        i = i + 1;
    }
    proof {
        if i == n {
            assert(rest.take(i - top) =~= rest);
        }
    }
    out
}

fn log_heading(l: &LogView) -> (r: String)
    ensures
        r@ == log_title(*l),
{
    let mut s = join3(" logs: ", l.title.as_str(), " — ");
    s.append(
        if l.scroll.is_some() {
            "scrolled · ] follow · Esc close"
        } else {
            "[ ] scroll · +/- size · Esc close"
        },
    );
    s.append(" ");
    s
}

// ------------------------------------------------------------------------ help

/// A key and what it does.
pub open spec fn help_row(k: Seq<char>, d: Seq<char>) -> Seq<SpanView> {
    seq![
        tinted("  "@ + text::padded_right(k, 11), Tint::Cyan),
        tinted(d, Tint::DarkGray),
    ]
}

fn help(k: &str, d: &str) -> (r: Vec<Span>)
    ensures
        span_views(r@) == help_row(k@, d@),
{
    let padded = text::pad_right(k, 11);
    two(
        span(join2("  ", padded.as_str()), Tint::Cyan),
        span(d.to_owned(), Tint::DarkGray),
    )
}

/// The help: every key, then the version and where the configuration lies.
pub open spec fn help_text(version: Seq<char>, config: Option<Seq<char>>, home: Option<Seq<char>>) -> Seq<
    Seq<SpanView>,
> {
    seq![
        seq![tinted(""@, Tint::Plain)],
        help_row("j / k"@, "move (mouse: click, wheel)"@),
        help_row("g / G"@, "top / bottom"@),
        help_row("Enter"@, "fold / unfold group"@),
        help_row("i"@, "inspect selection"@),
        help_row("s"@, "cycle sort (port/cpu/mem) — or click a header"@),
        help_row("/"@, "filter (project · command · port · cwd · branch)"@),
        help_row("K · u"@, "kill · cancel force-kill"@),
        help_row("R"@, "restart (output captured to a log)"@),
        help_row("T"@, "tail logs"@),
        help_row("[ · ]"@, "scroll logs · +/- resize"@),
        help_row("Y · O"@, "copy URL · open"@),
        help_row("Esc"@, "close pane / clear filter"@),
        help_row("? · q"@, "this help · quit (also Ctrl+C)"@),
        seq![tinted(""@, Tint::Plain)],
        seq![
            tinted(
                "  marina v"@ + version + " · config: "@ + match config {
                    Some(p) => shortened(p, home),
                    None => NONE@,
                },
                Tint::DarkGray,
            ),
        ],
        seq![tinted(""@, Tint::Plain)],
    ]
}

fn help_lines(version: &str, config: Option<&str>, home: Option<&str>) -> (r: Vec<Vec<Span>>)
    ensures
        line_views(r@) == help_text(version@, opt_str(config), opt_str(home)),
        r@.len() == 17,
{
    let path = match config {
        Some(p) => tildify(p, home),
        None => NONE.to_owned(),
    };
    let mut last = join3("  marina v", version, " · config: ");
    last.append(path.as_str());
    let mut v: Vec<Vec<Span>> = Vec::new();
    v.push(plain_cell("".to_owned()));
    v.push(help("j / k", "move (mouse: click, wheel)"));
    v.push(help("g / G", "top / bottom"));
    v.push(help("Enter", "fold / unfold group"));
    v.push(help("i", "inspect selection"));
    v.push(help("s", "cycle sort (port/cpu/mem) — or click a header"));
    v.push(help("/", "filter (project · command · port · cwd · branch)"));
    v.push(help("K · u", "kill · cancel force-kill"));
    v.push(help("R", "restart (output captured to a log)"));
    v.push(help("T", "tail logs"));
    v.push(help("[ · ]", "scroll logs · +/- resize"));
    v.push(help("Y · O", "copy URL · open"));
    v.push(help("Esc", "close pane / clear filter"));
    v.push(help("? · q", "this help · quit (also Ctrl+C)"));
    v.push(plain_cell("".to_owned()));
    v.push(one(span(last, Tint::DarkGray)));
    v.push(plain_cell("".to_owned()));
    proof {
        assert(line_views(v@) =~= help_text(version@, opt_str(config), opt_str(home)));
    }
    v
}

// ---------------------------------------------------------------------- screen

/// A log pane as it is drawn.
#[derive(Debug)]
pub struct LogPane {
    pub title: String,
    pub lines: Vec<String>,
}

/// The overlay with the keys.
#[derive(Debug)]
pub struct HelpPane {
    pub area: Rect,
    pub lines: Vec<Vec<Span>>,
}

/// Everything that is drawn.
#[derive(Debug)]
pub struct Screen {
    pub panes: Panes,
    pub title: String,
    /// What stands in place of an empty table.
    pub message: Option<&'static str>,
    pub columns: usize,
    pub header: Vec<String>,
    pub rows: Vec<Row>,
    pub inspect: Option<Vec<Vec<Span>>>,
    pub log: Option<LogPane>,
    pub detail: Vec<Span>,
    pub footer: Span,
    pub help: Option<HelpPane>,
}

/// What stands in place of an empty table.
pub open spec fn empty_message(a: App) -> Seq<char> {
    if a.targets().len() == 0 {
        "No dev processes detected."@
    } else {
        "No targets match the filter."@
    }
}

/// The hint below the message of an empty table.
pub const HINT: &'static str =
    "Start a dev server (npm run dev · cargo run · uvicorn · rails s) and it'll appear here.";

/// The height inside the borders of a pane.
pub open spec fn inner_height(r: Rect) -> nat {
    less(r.height as int, 2) as nat
}

/// The screen shows a state.
pub open spec fn shows(
    s: Screen,
    a: App,
    now: u64,
    unix: u64,
    home: Option<Seq<char>>,
    version: Seq<char>,
    config: Option<Seq<char>>,
) -> bool {
    &&& s.title@ == title_text(a)
    &&& s.columns == columns(s.panes.table.width)
    &&& if a.display@.len() == 0 {
        &&& s.message matches Some(m) && m@ == empty_message(a)
        &&& s.rows@.len() == 0
    } else {
        &&& s.message is None
        &&& row_views(s.rows@) == all_rows(a, now, unix)
    }
    &&& text::texts(s.header@) == headings(a.sort).take(s.columns as int)
    &&& match s.inspect {
        Some(l) => a.inspect && line_views(l@) == inspect_lines(a, home, unix),
        None => !a.inspect,
    }
    &&& match s.log {
        Some(p) => {
            &&& a.log matches Some(l) && p.title@ == log_title(l) && text::texts(p.lines@)
                == log_window(l, inner_height(s.panes.log->0))
        },
        None => a.log is None,
    }
    &&& span_views(s.detail@) == detail_spans(a, home)
    &&& s.footer@ == footer_span(a)
    &&& match s.help {
        Some(h) => a.show_help && line_views(h.lines@) == help_text(version, config, home),
        None => !a.show_help,
    }
}

/// The rows were recomputed, and the cursor put in its place.
pub open spec fn reconciled(a: App, b: App, now: u64) -> bool {
    let rows = a.rows_at(now);
    let at = cursor_place(rows, opt_entry(a.selected), a.last_index as int);
    &&& entry_views(b.display@) == rows
    &&& b.table_selected == match at {
        Some(i) => Some(i as usize),
        None => None,
    }
    &&& b.selected == match at {
        Some(i) => Some(b.display@[i]),
        None => None,
    }
    &&& b.last_index == match at {
        Some(i) => i,
        None => a.last_index as int,
    }
    &&& b == (App {
        display: b.display,
        last_index: b.last_index,
        table_selected: b.table_selected,
        selected: b.selected,
        ..a
    })
}

impl App {
    /// How high the log pane is, where it is open.
    pub open spec fn log_room(self) -> Option<u16> {
        if self.log is Some {
            Some(self.log_height)
        } else {
            None
        }
    }
}

/// A part of an area: as wide as the area, and inside it.
pub open spec fn spans(area: Rect, r: Rect) -> bool {
    &&& r.x == area.x
    &&& r.width == area.width
    &&& area.y <= r.y
    &&& r.y + r.height <= area.y + area.height
}

/// The parts of a screen are as wide as it is and inside it; where they all fit, they
/// stand below each other.
pub open spec fn pane_bounds(area: Rect, p: Panes, inspect: bool, log: Option<u16>) -> bool {
    &&& p.inspect is Some <==> inspect
    &&& p.log is Some <==> log is Some
    &&& spans(area, p.table)
    &&& p.inspect matches Some(r) ==> spans(area, r)
    &&& p.log matches Some(r) ==> spans(area, r)
    &&& spans(area, p.detail)
    &&& spans(area, p.footer)
    &&& below_table(inspect, log) <= area.height ==> p == panes_of(area, inspect, log)
}

/// Divide the screen.
fn split_panes(area: Rect, inspect: bool, log: Option<u16>) -> (r: Panes)
    requires
        fits(area),
    ensures
        pane_bounds(area, r, inspect, log),
{
    let heights = pane_heights_of(inspect, log);
    proof {
        lemma_panes(area, inspect, log);
    }
    let rects = split_vertical(area, heights.as_slice());
    arrange(rects.as_slice(), inspect, log.is_some())
}

/// Work out the screen. The state learns where the table, the log pane and the
/// clickable headings are, for the mouse.
pub fn render(
    app: &mut App,
    area: Rect,
    now: u64,
    unix: u64,
    home: Option<&str>,
    version: &str,
    config: Option<&str>,
) -> (r: Screen)
    requires
        fits(area),
    ensures
        reconciled(
            *old(app),
            App {
                table_rect: old(app).table_rect,
                log_rect: old(app).log_rect,
                header_hits: old(app).header_hits,
                ..*final(app)
            },
            now,
        ),
        final(app).table_rect == r.panes.table,
        final(app).log_rect == r.panes.log,
        final(app).header_hits@ == (if final(app).display@.len() == 0 {
            Seq::empty()
        } else {
            sort_cells(r.panes.table)
        }),
        pane_bounds(area, r.panes, final(app).inspect, final(app).log_room()),
        r.help matches Some(h) ==> is_centered(h.area, 58, 19, area),
        shows(r, *final(app), now, unix, opt_str(home), version@, opt_str(config)),
{
    app.reconcile(now);
    let room = if app.log.is_some() {
        Some(app.log_height)
    } else {
        None
    };
    let panes = split_panes(area, app.inspect, room);
    app.table_rect = panes.table;
    app.log_rect = panes.log;
    let empty = app.display.len() == 0;
    app.header_hits = if empty {
        Vec::new()
    } else {
        header_hits(panes.table)
    };
    proof {
        if empty {
            assert(app.header_hits@ =~= Seq::<(u16, u16, SortMode)>::empty());
        }
    }
    let cols = visible_columns(panes.table.width);
    let a: &App = &*app;
    let message = if empty {
        Some(
            if a.snapshot.targets.len() == 0 {
                "No dev processes detected."
            } else {
                "No targets match the filter."
            },
        )
    } else {
        None
    };
    let table = if empty {
        Vec::new()
    } else {
        rows(a, now, unix)
    };
    let inspect = if a.inspect {
        Some(inspect_panel(a, home, unix))
    } else {
        None
    };
    let log = match (&a.log, panes.log) {
        (Some(l), Some(rect)) => {
            let h: usize = if rect.height >= 2 {
                (rect.height - 2) as usize
            } else {
                0
            };
            Some(LogPane { title: log_heading(l), lines: log_lines(l, h) })
        },
        _ => None,
    };
    let help = if a.show_help {
        let lines = help_lines(version, config, home);
        let over = centered_rect(58, lines.len() as u16 + 2, area);
        Some(HelpPane { area: over, lines })
    } else {
        None
    };
    Screen {
        panes,
        title: title(a),
        message,
        columns: cols,
        header: header(a.sort, cols),
        rows: table,
        inspect,
        log,
        detail: detail_line(a, home),
        footer: footer_line(a),
        help,
    }
}

} // verus!
