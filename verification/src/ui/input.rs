//! What keys and the mouse do to the view, and which verbs they ask for.
use vstd::prelude::*;

use super::entries::{one_selection, same_entry, Entry, SortMode};
use super::format::{rect_contains, Rect};
use super::state::{
    bottomed, closed, escaped, filtering, folded, grown, moved, opt_entry, scrolled_down,
    scrolled_up, selection, selection_name, shortened, shrunk, sorted, topped, typed, under_cursor,
    undone, unfiltered, with_keys, says, App, MouseEvent, MouseKind,
};
use crate::cli::{native_starts, ref_views};
use crate::model::{
    clone_plain, clone_strings, key_views, KeyView, Target, TargetKey, TargetView, UrlView,
};
use crate::text;
use crate::verbs::{PidStart, RestartPlan};

verus! {

// ----------------------------------------------------------------------- mouse

/// A point lies in a rectangle.
pub open spec fn inside(r: Rect, x: u16, y: u16) -> bool {
    r.x <= x < r.x + r.width && r.y <= y < r.y + r.height
}

/// The sort mode of the first header cell at a column.
pub open spec fn header_mode(hits: Seq<(u16, u16, SortMode)>, x: u16) -> Option<SortMode>
    decreases hits.len(),
{
    if hits.len() == 0 {
        None
    } else {
        match header_mode(hits.drop_last(), x) {
            Some(m) => Some(m),
            None => if hits.last().0 <= x < hits.last().1 {
                Some(hits.last().2)
            } else {
                None
            },
        }
    }
}

proof fn lemma_header_mode_stays(hits: Seq<(u16, u16, SortMode)>, x: u16, k: int)
    requires
        0 <= k <= hits.len(),
        header_mode(hits.take(k), x) is Some,
    ensures
        header_mode(hits, x) == header_mode(hits.take(k), x),
    decreases hits.len(),
{
    if k == hits.len() {
        assert(hits.take(k) =~= hits);
    } else {
        assert(hits.drop_last().take(k) =~= hits.take(k));
        lemma_header_mode_stays(hits.drop_last(), x, k);
    }
}

fn mode_at(hits: &[(u16, u16, SortMode)], x: u16) -> (r: Option<SortMode>)
    ensures
        r == header_mode(hits@, x),
{
    let mut i: usize = 0;
    while i < hits.len()
        invariant
            i <= hits@.len(),
            header_mode(hits@.take(i as int), x) is None,
        decreases hits@.len() - i,
    {
        let h = hits[i];
        proof {
            assert(hits@.take(i + 1).drop_last() =~= hits@.take(i as int));
            assert(hits@.take(i + 1).last() == h);
        }
        if x >= h.0 && x < h.1 {
            proof {
                lemma_header_mode_stays(hits@, x, i + 1);
            }
            return Some(h.2);
        }
        i = i + 1;
    }
    proof {
        assert(hits@.take(i as int) =~= hits@);
    }
    None
}

/// The row of the table that a click hits, counted from the first one shown: the
/// border and the header are above, a border is below.
pub open spec fn clicked_row(t: Rect, y: u16) -> Option<int> {
    if t.y + 2 <= y && y + 1 < t.y + t.height {
        Some(y - t.y - 2)
    } else {
        None
    }
}

/// A click on a row: it becomes the selection; a second click on a group folds it.
pub open spec fn row_clicked(a: App, b: App, idx: int, now: u64) -> bool {
    let e = a.display@[idx];
    let already = a.selected matches Some(s) && one_selection(s@, e@);
    if already {
        if e@ is Group {
            folded(a, b)
        } else {
            b == (App { dirty: true, ..a })
        }
    } else {
        b == (App {
            last_input: now,
            last_index: idx as usize,
            selected: Some(e),
            dirty: true,
            ..a
        })
    }
}

/// A left click.
pub open spec fn left_clicked(a: App, b: App, x: u16, y: u16, now: u64) -> bool {
    if a.show_help {
        b == (App { show_help: false, dirty: true, ..a })
    } else if !inside(a.table_rect, x, y) {
        b == a
    } else if y == a.table_rect.y + 1 {
        match header_mode(a.header_hits@, x) {
            Some(m) => b == sorted(a, m),
            None => b == a,
        }
    } else {
        match clicked_row(a.table_rect, y) {
            Some(k) => if k + a.table_offset < a.display@.len() {
                row_clicked(a, b, k + a.table_offset, now)
            } else {
                b == a
            },
            None => b == a,
        }
    }
}

/// The pointer is over the log pane.
pub open spec fn over_log(a: App, x: u16, y: u16) -> bool {
    a.log_rect matches Some(r) && inside(r, x, y)
}

/// What a mouse event does: a click selects, folds or sorts; the wheel moves the
/// cursor, or scrolls the log pane under it.
pub open spec fn moused(a: App, b: App, ev: MouseEvent, now: u64) -> bool {
    match ev.kind {
        MouseKind::LeftDown => left_clicked(a, b, ev.column, ev.row, now),
        MouseKind::ScrollUp => if over_log(a, ev.column, ev.row) {
            b == scrolled_up(a, 3)
        } else {
            moved(a, b, -1, now)
        },
        MouseKind::ScrollDown => if over_log(a, ev.column, ev.row) {
            b == scrolled_down(a, 3)
        } else {
            moved(a, b, 1, now)
        },
        MouseKind::Other => b == a,
    }
}

impl App {
    fn on_left_click(&mut self, x: u16, y: u16, now: u64)
        ensures
            left_clicked(*old(self), *final(self), x, y, now),
    {
        if self.show_help {
            self.close_help();
            return;
        }
        let t = self.table_rect;
        if !rect_contains(t, x, y) {
            return;
        }
        let below: u16 = y - t.y;
        if below == 1 {
            match mode_at(self.header_hits.as_slice(), x) {
                Some(m) => self.set_sort(m),
                None => {},
            }
        } else if below >= 2 && below + 1 < t.height {
            let row: usize = (below - 2) as usize;
            if self.table_offset >= self.display.len() || row >= self.display.len()
                - self.table_offset {
                return;
            }
            let idx: usize = row + self.table_offset;
            let e = self.display[idx].clone();
            let already = match &self.selected {
                Some(s) => same_entry(s, &e),
                None => false,
            };
            if already {
                let group = match &e {
                    Entry::Group(_) => true,
                    _ => false,
                };
                if group {
                    self.toggle_collapse();
                } else {
                    self.dirty = true;
                }
            } else {
                self.last_input = now;
                self.last_index = idx;
                self.selected = Some(e);
                self.dirty = true;
            }
        }
    }

    /// React to the mouse.
    pub fn on_mouse(&mut self, ev: MouseEvent, now: u64)
        ensures
            moused(*old(self), *final(self), ev, now),
    {
        let over = match self.log_rect {
            Some(r) => rect_contains(r, ev.column, ev.row),
            None => false,
        };
        match ev.kind {
            MouseKind::LeftDown => self.on_left_click(ev.column, ev.row, now),
            MouseKind::ScrollUp => {
                if over {
                    self.log_scroll_up(3);
                } else {
                    self.select_prev(now);
                }
            },
            MouseKind::ScrollDown => {
                if over {
                    self.log_scroll_down(3);
                } else {
                    self.select_next(now);
                }
            },
            MouseKind::Other => {},
        }
    }
}

// ------------------------------------------------------------------------ keys

/// A pressed key.
#[derive(Clone, Copy, Debug, PartialEq, Eq, Structural)]
pub enum Key {
    Char(char),
    Enter,
    Esc,
    Backspace,
    Up,
    Down,
    Other,
}

/// What a key asks for beyond the view itself.
#[derive(Clone, Copy, Debug, PartialEq, Eq, Structural)]
pub enum KeyAct {
    Stay,
    Quit,
    Kill,
    /// Cancel the escalation of the pending kill.
    CancelKill,
    Restart,
    Copy,
    Open,
    Tail,
    /// Stop the tail of the log pane that was closed.
    StopTail,
}

/// What a key means while a filter is typed.
pub open spec fn filter_keyed(a: App, b: App, key: Key, ctrl: bool, now: u64) -> bool {
    match key {
        Key::Esc => unfiltered(a, b),
        Key::Enter => b == (App { filter_active: false, dirty: true, ..a }),
        Key::Backspace => typed(a, b, shortened(a.filter@), now),
        Key::Char(c) => if ctrl {
            b == a
        } else {
            typed(a, b, a.filter@.push(c), now)
        },
        _ => b == a,
    }
}

/// What a letter means otherwise.
pub open spec fn letter_keyed(a: App, b: App, c: char, now: u64, act: KeyAct) -> bool {
    if c == 'q' {
        act == KeyAct::Quit && b == a
    } else if c == 'j' {
        act == KeyAct::Stay && moved(a, b, 1, now)
    } else if c == 'k' {
        act == KeyAct::Stay && moved(a, b, -1, now)
    } else if c == 'g' {
        act == KeyAct::Stay && b == topped(a, now)
    } else if c == 'G' {
        act == KeyAct::Stay && b == bottomed(a, now)
    } else if c == '/' {
        act == KeyAct::Stay && b == filtering(a, now)
    } else if c == 's' {
        act == KeyAct::Stay && b == sorted(a, a.sort.following())
    } else if c == 'i' {
        act == KeyAct::Stay && b == (App { inspect: !a.inspect, dirty: true, ..a })
    } else if c == '?' {
        act == KeyAct::Stay && b == (App { show_help: !a.show_help, dirty: true, ..a })
    } else if c == 'K' {
        act == KeyAct::Kill && b == a
    } else if c == 'u' {
        undone(a, b, now) && act == if a.can_undo(now) {
            KeyAct::CancelKill
        } else {
            KeyAct::Stay
        }
    } else if c == 'R' {
        act == KeyAct::Restart && b == a
    } else if c == 'Y' {
        act == KeyAct::Copy && b == a
    } else if c == 'O' {
        act == KeyAct::Open && b == a
    } else if c == 'T' {
        act == KeyAct::Tail && b == a
    } else if c == '[' {
        act == KeyAct::Stay && b == scrolled_up(a, 5)
    } else if c == ']' {
        act == KeyAct::Stay && b == scrolled_down(a, 5)
    } else if c == '+' || c == '=' {
        act == KeyAct::Stay && b == grown(a)
    } else if c == '-' {
        act == KeyAct::Stay && b == shrunk(a)
    } else {
        act == KeyAct::Stay && b == a
    }
}

/// What a key does. Ctrl+C always quits; any key closes the help; while a filter is
/// typed the keys go to it.
pub open spec fn keyed(a: App, b: App, key: Key, ctrl: bool, now: u64, act: KeyAct) -> bool {
    if ctrl && key == Key::Char('c') {
        act == KeyAct::Quit && b == a
    } else if a.show_help {
        act == KeyAct::Stay && b == (App { show_help: false, dirty: true, ..a })
    } else if a.filter_active {
        act == KeyAct::Stay && filter_keyed(a, b, key, ctrl, now)
    } else {
        match key {
            Key::Char(c) => letter_keyed(a, b, c, now, act),
            Key::Down => act == KeyAct::Stay && moved(a, b, 1, now),
            Key::Up => act == KeyAct::Stay && moved(a, b, -1, now),
            Key::Enter => act == KeyAct::Stay && folded(a, b),
            Key::Esc => escaped(a, b, now) && act == if a.log is Some {
                KeyAct::StopTail
            } else {
                KeyAct::Stay
            },
            _ => act == KeyAct::Stay && b == a,
        }
    }
}

impl App {
    fn on_filter_key(&mut self, key: Key, ctrl: bool, now: u64)
        ensures
            filter_keyed(*old(self), *final(self), key, ctrl, now),
    {
        match key {
            Key::Esc => self.filter_cancel(),
            Key::Enter => self.filter_commit(),
            Key::Backspace => self.filter_backspace(now),
            Key::Char(c) => {
                if !ctrl {
                    self.filter_push(c, now);
                }
            },
            _ => {},
        }
    }

    fn on_letter(&mut self, c: char, now: u64) -> (r: KeyAct)
        ensures
            letter_keyed(*old(self), *final(self), c, now, r),
    {
        if c == 'q' {
            return KeyAct::Quit;
        }
        if c == 'K' {
            return KeyAct::Kill;
        }
        if c == 'R' {
            return KeyAct::Restart;
        }
        if c == 'Y' {
            return KeyAct::Copy;
        }
        if c == 'O' {
            return KeyAct::Open;
        }
        if c == 'T' {
            return KeyAct::Tail;
        }
        if c == 'j' {
            self.select_next(now);
        } else if c == 'k' {
            self.select_prev(now);
        } else if c == 'g' {
            self.jump_top(now);
        } else if c == 'G' {
            self.jump_bottom(now);
        } else if c == '/' {
            self.start_filter(now);
        } else if c == 's' {
            self.cycle_sort();
        } else if c == 'i' {
            self.toggle_inspect();
        } else if c == '?' {
            self.toggle_help();
        } else if c == 'u' {
            if self.undo_kill(now) {
                return KeyAct::CancelKill;
            }
        } else if c == '[' {
            self.log_scroll_up(5);
        } else if c == ']' {
            self.log_scroll_down(5);
        } else if c == '+' || c == '=' {
            self.log_grow();
        } else if c == '-' {
            self.log_shrink();
        }
        KeyAct::Stay
    }

    /// React to a key. The result says what to do beyond the view.
    pub fn on_key(&mut self, key: Key, ctrl: bool, now: u64) -> (r: KeyAct)
        ensures
            keyed(*old(self), *final(self), key, ctrl, now, r),
    {
        if ctrl {
            match key {
                Key::Char(c) => {
                    if c == 'c' {
                        return KeyAct::Quit;
                    }
                },
                _ => {},
            }
        }
        if self.help_open() {
            self.close_help();
            return KeyAct::Stay;
        }
        if self.is_filtering() {
            self.on_filter_key(key, ctrl, now);
            return KeyAct::Stay;
        }
        match key {
            Key::Char(c) => return self.on_letter(c, now),
            Key::Down => self.select_next(now),
            Key::Up => self.select_prev(now),
            Key::Enter => self.toggle_collapse(),
            Key::Esc => {
                if self.escape(now) {
                    return KeyAct::StopTail;
                }
            },
            _ => {},
        }
        KeyAct::Stay
    }
}

// ----------------------------------------------------------------------- verbs

/// What a kill of the selection involves.
#[derive(Debug)]
pub struct KillRequest {
    pub label: String,
    pub pid_starts: Vec<PidStart>,
    /// Containers to stop.
    pub containers: Vec<String>,
    pub keys: Vec<TargetKey>,
}

/// The containers among some targets.
pub open spec fn containers_of(targets: Seq<TargetView>) -> Seq<Seq<char>>
    decreases targets.len(),
{
    if targets.len() == 0 {
        Seq::empty()
    } else {
        let before = containers_of(targets.drop_last());
        match targets.last().container {
            Some(c) => before.push(c),
            None => before,
        }
    }
}

/// The keys of some targets.
pub open spec fn keys_of(targets: Seq<TargetView>) -> Seq<KeyView> {
    targets.map_values(|t: TargetView| t.key)
}

fn collect(targets: &[&Target]) -> (r: (Vec<PidStart>, Vec<String>, Vec<TargetKey>))
    ensures
        r.0@ == native_starts(ref_views(targets@)),
        text::texts(r.1@) == containers_of(ref_views(targets@)),
        key_views(r.2@) == keys_of(ref_views(targets@)),
{
    let ghost all = ref_views(targets@);
    let mut starts: Vec<PidStart> = Vec::new();
    let mut containers: Vec<String> = Vec::new();
    let mut keys: Vec<TargetKey> = Vec::new();
    let mut i: usize = 0;
    proof {
        assert(starts@ =~= native_starts(all.take(0)));
        assert(text::texts(containers@) =~= containers_of(all.take(0)));
        assert(key_views(keys@) =~= keys_of(all.take(0)));
    }
    while i < targets.len()
        invariant
            i <= targets@.len(),
            all == ref_views(targets@),
            starts@ == native_starts(all.take(i as int)),
            text::texts(containers@) == containers_of(all.take(i as int)),
            key_views(keys@) == keys_of(all.take(i as int)),
        decreases targets@.len() - i,
    {
        let t = targets[i];
        let ghost c0 = containers@;
        let ghost k0 = keys@;
        proof {
            assert(all.take(i + 1).drop_last() =~= all.take(i as int));
            assert(all.take(i + 1).last() == t@);
        }
        let key = t.key.clone();
        keys.push(key);
        match &t.container {
            Some(c) => {
                containers.push(c.clone());
                proof {
                    assert(text::texts(containers@) =~= text::texts(c0).push(c@));
                    assert(starts@ + Seq::<PidStart>::empty() =~= starts@);
                }
            },
            None => {
                crate::cli::push_starts(&mut starts, t.pid_starts.as_slice());
            },
        }
        proof {
            assert(key_views(keys@) =~= key_views(k0).push(key@));
            assert(key_views(keys@) =~= keys_of(all.take(i + 1)));
        }
        i = i + 1;
    }
    proof {
        assert(all.take(i as int) =~= all);
    }
    (starts, containers, keys)
}

/// What is said while containers are stopped.
pub open spec fn stopping(n: nat) -> Seq<char> {
    "stopping "@ + text::decimal(n) + " container"@ + if n == 1 {
        ""@
    } else {
        "s"@
    } + "…"@
}

fn stopping_text(n: usize) -> (r: String)
    ensures
        r@ == stopping(n as nat),
{
    let digits = text::to_decimal(n as u64);
    let mut s = "stopping ".to_owned();
    s.append(digits.as_str());
    s.append(" container");
    s.append(
        if n == 1 {
            ""
        } else {
            "s"
        },
    );
    s.append("…");
    s
}

/// What is said of a kill that has begun.
pub open spec fn kill_begun(label: Seq<char>, n: nat) -> Seq<char> {
    "killing "@ + label + " ("@ + text::decimal(n)
        + " processes) — SIGTERM sent, SIGKILL in 4s · u cancels the SIGKILL"@
}

/// The selection as the verbs see it.
pub open spec fn acted(a: App) -> Seq<TargetView> {
    selection(a.targets(), opt_entry(a.selected))
}

/// A restart of the selection.
#[derive(Debug)]
pub struct RestartRequest {
    pub plans: Vec<RestartPlan>,
    /// Containers to restart.
    pub containers: Vec<String>,
}

#[verifier::ext_equal]
pub struct PlanView {
    pub project: Seq<char>,
    pub argv: Seq<Seq<char>>,
    pub cwd: Seq<char>,
    pub ports: Seq<u16>,
    pub pid_starts: Seq<PidStart>,
}

pub open spec fn plan_view(p: RestartPlan) -> PlanView {
    PlanView {
        project: p.project@,
        argv: text::texts(p.argv@),
        cwd: p.cwd@,
        ports: p.ports@,
        pid_starts: p.pid_starts@,
    }
}

pub open spec fn plan_views(v: Seq<RestartPlan>) -> Seq<PlanView> {
    v.map_values(|p: RestartPlan| plan_view(p))
}

/// The restarts of those targets that are no containers and whose command is known.
pub open spec fn plans_of(targets: Seq<TargetView>) -> Seq<PlanView>
    decreases targets.len(),
{
    if targets.len() == 0 {
        Seq::empty()
    } else {
        let before = plans_of(targets.drop_last());
        let t = targets.last();
        if t.container is None && t.anchor_argv.len() > 0 {
            before.push(
                PlanView {
                    project: t.project,
                    argv: t.anchor_argv,
                    cwd: t.cwd,
                    ports: t.ports,
                    pid_starts: t.pid_starts,
                },
            )
        } else {
            before
        }
    }
}

fn plan_restarts(targets: &[&Target]) -> (r: Vec<RestartPlan>)
    ensures
        plan_views(r@) == plans_of(ref_views(targets@)),
{
    let ghost all = ref_views(targets@);
    let mut out: Vec<RestartPlan> = Vec::new();
    let mut i: usize = 0;
    proof {
        assert(plan_views(out@) =~= plans_of(all.take(0)));
    }
    while i < targets.len()
        invariant
            i <= targets@.len(),
            all == ref_views(targets@),
            plan_views(out@) == plans_of(all.take(i as int)),
        decreases targets@.len() - i,
    {
        let t = targets[i];
        let ghost o0 = out@;
        proof {
            assert(all.take(i + 1).drop_last() =~= all.take(i as int));
            assert(all.take(i + 1).last() == t@);
        }
        if t.container.is_none() && t.anchor_argv.len() > 0 {
            let p = RestartPlan {
                project: t.project.clone(),
                argv: clone_strings(&t.anchor_argv),
                cwd: t.cwd.clone(),
                ports: clone_plain(&t.ports),
                pid_starts: clone_plain(&t.pid_starts),
            };
            out.push(p);
            proof {
                assert(plan_views(out@) =~= plan_views(o0).push(plan_view(p)));
            }
        }
        i = i + 1;
    }
    proof {
        assert(all.take(i as int) =~= all);
    }
    out
}

/// What a tail of the selection involves.
#[derive(Debug)]
pub enum TailAct {
    Nothing,
    /// Stop the tail of the pane that was closed.
    StopTail,
    /// Follow the log of a container.
    FollowContainer(String),
    /// Look for the log of a target.
    Search { pids: Vec<u32>, cwd: String, project: String },
}

fn phrase(a: &str, b: &str, c: &str) -> (r: String)
    ensures
        r@ == a@ + b@ + c@,
{
    let mut s = a.to_owned();
    s.append(b);
    s.append(c);
    s
}

/// The URL of the target under the cursor.
pub open spec fn cursor_url(a: App) -> Option<UrlView> {
    match under_cursor(a.targets(), opt_entry(a.selected)) {
        Some(t) => t.url,
        None => None,
    }
}

/// What a kill of the selection asks for, and what the view notes and says.
pub open spec fn kill_asked(a: App, b: App, r: Option<KillRequest>, now: u64) -> bool {
    let sel = acted(a);
    match r {
        Some(q) => {
            &&& native_starts(sel).len() > 0 || containers_of(sel).len() > 0
            &&& q.label@ == selection_name(
                a.targets(),
                opt_entry(a.selected),
            )
            &&& q.pid_starts@ == native_starts(sel)
            &&& text::texts(q.containers@) == containers_of(sel)
            &&& key_views(q.keys@) == keys_of(sel)
            &&& b.suppress_exit@ == with_keys(
                a.suppress_exit@,
                keys_of(sel),
                now,
            )
            &&& if containers_of(sel).len() > 0 {
                says(
                    App { suppress_exit: b.suppress_exit, ..a },
                    b,
                    stopping(containers_of(sel).len()),
                    now,
                )
            } else {
                b == (App {
                    suppress_exit: b.suppress_exit,
                    ..a
                })
            }
        },
        None => {
            &&& native_starts(sel).len() == 0 && containers_of(sel).len() == 0
            &&& says(a, b, "nothing to kill"@, now)
        },
    }
}

/// What the view notes and says once the first signals of a kill are out.
pub open spec fn kill_noted(
    a: App,
    b: App,
    request: KillRequest,
    refused: Option<Seq<char>>,
    now: u64,
) -> bool {
    match refused {
        Some(e) => says(
            a,
            b,
            "kill "@ + request.label@ + ": "@ + e,
            now,
        ),
        None => {
            &&& b.pending_kill matches Some(pk) && pk.label@ == request.label@
                && pk.keys == request.keys && pk.until == (if now + crate::verbs::GRACE
                <= u64::MAX {
                (now + crate::verbs::GRACE) as u64
            } else {
                u64::MAX
            })
            &&& b.suppress_exit@ == with_keys(
                a.suppress_exit@,
                key_views(request.keys@),
                now,
            )
            &&& says(
                App {
                    suppress_exit: b.suppress_exit,
                    pending_kill: b.pending_kill,
                    ..a
                },
                b,
                kill_begun(request.label@, request.pid_starts@.len()),
                now,
            )
        },
    }
}

/// What a restart of the selection asks for, and what the view notes and says.
pub open spec fn restart_asked(a: App, b: App, r: Option<RestartRequest>, now: u64) -> bool {
    let sel = acted(a);
    let name = selection_name(a.targets(), opt_entry(a.selected));
    match r {
        Some(q) => {
            &&& plans_of(sel).len() > 0 || containers_of(sel).len() > 0
            &&& plan_views(q.plans@) == plans_of(sel)
            &&& text::texts(q.containers@) == containers_of(sel)
            &&& b.suppress_exit@ == with_keys(
                a.suppress_exit@,
                keys_of(sel),
                now,
            )
            &&& says(
                App { suppress_exit: b.suppress_exit, ..a },
                b,
                "restarting "@ + name + "…"@,
                now,
            )
        },
        None => {
            &&& plans_of(sel).len() == 0 && containers_of(sel).len() == 0
            &&& says(
                a,
                b,
                "can't restart "@ + name + ": command not captured"@,
                now,
            )
        },
    }
}

/// The URL to copy, or what the view says instead.
pub open spec fn copy_asked(a: App, b: App, r: Option<String>, now: u64) -> bool {
    match r {
        Some(u) => {
            &&& cursor_url(a) matches Some(v) && v.value == u@
            &&& b == a
        },
        None => {
            &&& cursor_url(a) is None
            &&& says(
                a,
                b,
                if under_cursor(a.targets(), opt_entry(a.selected)) is None {
                    "select a service (not a group) to copy a URL"@
                } else {
                    "no URL for this target"@
                },
                now,
            )
        },
    }
}

/// The URL to open, and what the view says.
pub open spec fn open_asked(a: App, b: App, r: Option<String>, now: u64) -> bool {
    let said = match cursor_url(a) {
        Some(u) => if u.scheme == crate::model::UrlScheme::Http || u.scheme
            == crate::model::UrlScheme::Https {
            "opening "@ + u.value
        } else {
            u.value + " is not a web URL"@
        },
        None => if under_cursor(a.targets(), opt_entry(a.selected)) is None {
            "select a service (not a group) to open"@
        } else {
            "no URL for this target"@
        },
    };
    &&& says(a, b, said, now)
    &&& match r {
        Some(v) => cursor_url(a) matches Some(u) && u.value == v@ && (u.scheme
            == crate::model::UrlScheme::Http || u.scheme
            == crate::model::UrlScheme::Https),
        None => cursor_url(a) matches Some(u) ==> !(u.scheme
            == crate::model::UrlScheme::Http || u.scheme
            == crate::model::UrlScheme::Https),
    }
}

impl App {
    /// Begin to kill the selection: its keys are marked as ended from here, and
    /// stopping containers is announced. Nothing where the selection has no process
    /// and no container.
    pub fn begin_kill(&mut self, now: u64) -> (r: Option<KillRequest>)
        ensures
            kill_asked(*old(self), *final(self), r, now),
    {
        let sel = self.selected_targets();
        let (pid_starts, containers, keys) = collect(sel.as_slice());
        proof {
            assert(text::texts(containers@).len() == containers@.len());
        }
        if pid_starts.len() == 0 && containers.len() == 0 {
            self.set_status("nothing to kill".to_owned(), now);
            return None;
        }
        let label = self.selection_label();
        self.mark_marina_action(keys.as_slice(), now);
        if containers.len() > 0 {
            self.set_status(stopping_text(containers.len()), now);
        }
        Some(KillRequest { label, pid_starts, containers, keys })
    }

    /// What came of the first signals of a kill: the kill is pending and can be
    /// cancelled, or it was refused for a reason.
    pub fn kill_begun(&mut self, request: KillRequest, refused: Option<&str>, now: u64)
        ensures
            kill_noted(*old(self), *final(self), request, crate::paths::opt_str(refused), now),
    {
        match refused {
            Some(e) => {
                let mut s = phrase("kill ", request.label.as_str(), ": ");
                s.append(e);
                self.set_status(s, now);
            },
            None => {
                let digits = text::to_decimal(request.pid_starts.len() as u64);
                let mut s = phrase("killing ", request.label.as_str(), " (");
                s.append(digits.as_str());
                s.append(" processes) — SIGTERM sent, SIGKILL in 4s · u cancels the SIGKILL");
                self.note_pending_kill(request.label.as_str(), request.keys, now);
                self.set_status(s, now);
            },
        }
    }

    /// Begin to restart the selection. Nothing where no command of it is known and
    /// nothing of it is a container.
    pub fn begin_restart(&mut self, now: u64) -> (r: Option<RestartRequest>)
        ensures
            restart_asked(*old(self), *final(self), r, now),
    {
        let label = self.selection_label();
        let sel = self.selected_targets();
        let (_, containers, keys) = collect(sel.as_slice());
        let plans = plan_restarts(sel.as_slice());
        proof {
            assert(text::texts(containers@).len() == containers@.len());
            assert(plan_views(plans@).len() == plans@.len());
        }
        if plans.len() == 0 && containers.len() == 0 {
            self.set_status(
                phrase("can't restart ", label.as_str(), ": command not captured"),
                now,
            );
            return None;
        }
        self.mark_marina_action(keys.as_slice(), now);
        self.set_status(phrase("restarting ", label.as_str(), "…"), now);
        Some(RestartRequest { plans, containers })
    }

    /// The URL to copy. Where there is none, the status line says why.
    pub fn begin_copy(&mut self, now: u64) -> (r: Option<String>)
        ensures
            copy_asked(*old(self), *final(self), r, now),
    {
        let why = match self.selected_target() {
            Some(t) => match &t.url {
                Some(u) => return Some(u.value.clone()),
                None => "no URL for this target",
            },
            None => "select a service (not a group) to copy a URL",
        };
        self.set_status(why.to_owned(), now);
        None
    }

    /// What came of copying a URL.
    pub fn copied(&mut self, url: &str, failed: Option<&str>, now: u64)
        ensures
            says(
                *old(self),
                *final(self),
                match failed {
                    Some(e) => "copy failed: "@ + e@,
                    None => "copied "@ + url@,
                },
                now,
            ),
    {
        let mut s = match failed {
            Some(_) => "copy failed: ".to_owned(),
            None => "copied ".to_owned(),
        };
        s.append(
            match failed {
                Some(e) => e,
                None => url,
            },
        );
        self.set_status(s, now);
    }

    /// The URL to open in a browser. The status line says that it opens, or why not:
    /// only web URLs do.
    pub fn begin_open(&mut self, now: u64) -> (r: Option<String>)
        ensures
            open_asked(*old(self), *final(self), r, now),
    {
        let (said, url) = match self.selected_target() {
            Some(t) => match &t.url {
                Some(u) => if u.scheme.is_web() {
                    let mut s = "opening ".to_owned();
                    s.append(u.value.as_str());
                    (s, Some(u.value.clone()))
                } else {
                    let mut s = u.value.clone();
                    s.append(" is not a web URL");
                    (s, None)
                },
                None => ("no URL for this target".to_owned(), None),
            },
            None => ("select a service (not a group) to open".to_owned(), None),
        };
        self.set_status(said, now);
        url
    }

    /// Begin to tail the target under the cursor: an open pane is closed instead; the
    /// log of a container is followed at once; otherwise the log is looked for, once
    /// at a time.
    pub fn begin_tail(&mut self, now: u64) -> (r: TailAct)
        ensures
            tail_begun(*old(self), *final(self), r, now),
    {
        if self.log_open() {
            let _ = self.close_log(now);
            return TailAct::StopTail;
        }
        let act = match self.selected_target() {
            Some(t) => match &t.container {
                Some(c) => TailAct::FollowContainer(c.clone()),
                None => TailAct::Search {
                    pids: clone_plain(&t.pids),
                    cwd: t.cwd.clone(),
                    project: t.project.clone(),
                },
            },
            None => TailAct::Nothing,
        };
        match &act {
            TailAct::FollowContainer(c) => {
                let mut title = "docker logs ".to_owned();
                title.append(c.as_str());
                let _ = self.open_log(title, now);
            },
            TailAct::Search { pids, cwd, project } => {
                if self.log_pending {
                    return TailAct::Nothing;
                }
                let s = phrase("looking for ", project.as_str(), " logs…");
                self.log_pending = true;
                self.set_status(s, now);
            },
            _ => {
                self.set_status("select a service (not a group) to tail".to_owned(), now);
            },
        }
        act
    }

    /// What the search for a log found. The result says whether to tail the file: not
    /// where another pane was opened meanwhile.
    pub fn on_log_ready(
        &mut self,
        project: &str,
        path: Option<&str>,
        home: Option<&str>,
        now: u64,
    ) -> (r: bool)
        ensures
            r == (old(self).log is None && path is Some),
            log_found(
                *old(self),
                *final(self),
                project@,
                crate::paths::opt_str(path),
                crate::paths::opt_str(home),
                now,
            ),
    {
        self.log_pending = false;
        if self.log_open() {
            return false;
        }
        match path {
            Some(p) => {
                let title = super::format::tildify(p, home);
                let _ = self.open_log(title, now);
                true
            },
            None => {
                self.set_status(
                    phrase(
                        "no log file found for ",
                        project,
                        " — logs may go to stdout (R restarts with capture)",
                    ),
                    now,
                );
                false
            },
        }
    }
}

/// An empty log pane was opened under a title.
pub open spec fn opened(a: App, b: App, title: Seq<char>, now: u64) -> bool {
    &&& b.log matches Some(l) && l.title@ == title && l.lines@.len() == 0 && l.scroll is None
    &&& says(App { log: b.log, ..a }, b, "tailing "@ + title, now)
}

/// How a tail begins.
pub open spec fn tail_begun(a: App, b: App, act: TailAct, now: u64) -> bool {
    if a.log is Some {
        act is StopTail && closed(a, b, now)
    } else {
        match under_cursor(a.targets(), opt_entry(a.selected)) {
            None => act is Nothing && says(
                a,
                b,
                "select a service (not a group) to tail"@,
                now,
            ),
            Some(t) => match t.container {
                Some(c) => {
                    &&& act matches TailAct::FollowContainer(d) && d@ == c
                    &&& opened(a, b, "docker logs "@ + c, now)
                },
                None => if a.log_pending {
                    act is Nothing && b == a
                } else {
                    &&& act matches TailAct::Search { pids, cwd, project } && pids@ == t.pids && cwd@
                        == t.cwd && project@ == t.project
                    &&& says(
                        App { log_pending: true, ..a },
                        b,
                        "looking for "@ + t.project + " logs…"@,
                        now,
                    )
                },
            },
        }
    }
}

/// What the result of a search for a log does.
pub open spec fn log_found(
    a: App,
    b: App,
    project: Seq<char>,
    path: Option<Seq<char>>,
    home: Option<Seq<char>>,
    now: u64,
) -> bool {
    let free = App { log_pending: false, ..a };
    if a.log is Some {
        b == free
    } else {
        match path {
            Some(p) => opened(free, b, super::format::shortened(p, home), now),
            None => says(
                free,
                b,
                "no log file found for "@ + project
                    + " — logs may go to stdout (R restarts with capture)"@,
                now,
            ),
        }
    }
}

} // verus!
