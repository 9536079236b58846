//! The state of the view. It survives snapshots: the selection is held by identity
//! and not by place, so the cursor does not jump when data refreshes; if the selected
//! row vanishes, the cursor falls to the row at its place. Sorts by volatile figures
//! hold still for a moment after a keystroke. `dirty` gates redraws.
//!
//! Moments are in milliseconds of a clock that does not run backwards; `unix` times are
//! in seconds since the epoch.
use std::sync::Arc;
use vstd::prelude::*;

use super::entries;
use super::entries::{
    entry_views, fresh_entries, held, one_selection, same_entry, Entry, EntryView, SortMode,
};
use super::format::Rect;
use super::keytimes::{elapsed, since, younger, KeyTimes};
use crate::model::{
    key_views, opt_text, target_views, KeyView, Snapshot, Target, TargetKey, TargetView,
};
use crate::resolve::{first_hit, lemma_first_hit, lemma_is_first_hit};
use crate::text;
use crate::textmap::has_text;
use crate::verbs::GRACE;

verus! {

/// How long a volatile sort holds still after a keystroke.
pub const FREEZE: u64 = 2000;

/// How long a status line shows.
pub const STATUS_TTL: u64 = 4000;

/// How long a new row flashes.
pub const FLASH: u64 = 1500;

/// How long after a kill or restart the end of a target is expected.
pub const SUPPRESS_TTL: u64 = 20000;

/// The end of a target that ran for less than this, in seconds, is not reported.
pub const CRASH_MIN_UPTIME: u64 = 60;

/// How many lines of a log are kept.
pub const LOG_LINES: usize = 2000;

/// An open log pane.
#[derive(Debug)]
pub struct LogView {
    pub title: String,
    pub lines: Vec<String>,
    /// The line at the top where the pane is pinned; otherwise it follows the end.
    pub scroll: Option<usize>,
}

/// A kill whose escalation can still be cancelled. Its rows show as dying.
#[derive(Debug)]
pub struct PendingKill {
    pub until: u64,
    pub label: String,
    pub keys: Vec<TargetKey>,
}

/// What a mouse did.
#[derive(Clone, Copy, Debug, PartialEq, Eq, Structural)]
pub enum MouseKind {
    LeftDown,
    ScrollUp,
    ScrollDown,
    Other,
}

#[derive(Clone, Copy, Debug, PartialEq, Eq, Structural)]
pub struct MouseEvent {
    pub kind: MouseKind,
    pub column: u16,
    pub row: u16,
}

pub struct App {
    pub snapshot: Arc<Snapshot>,
    pub selected: Option<Entry>,
    /// Where the cursor last was among the rows.
    pub last_index: usize,
    pub sort: SortMode,
    pub display: Vec<Entry>,
    /// The projects whose group is folded.
    pub collapsed: Vec<String>,
    pub last_input: u64,
    /// The highlighted row of the table, and the first one that it shows.
    pub table_selected: Option<usize>,
    pub table_offset: usize,
    pub status: Option<String>,
    pub status_at: u64,
    pub log: Option<LogView>,
    pub log_height: u16,
    /// A search for a log is running.
    pub log_pending: bool,
    pub pending_kill: Option<PendingKill>,
    pub filter: String,
    pub filter_active: bool,
    pub show_help: bool,
    pub inspect: bool,
    /// When rows appeared.
    pub appeared: KeyTimes,
    /// When targets were killed or restarted from here.
    pub suppress_exit: KeyTimes,
    /// A persistent problem with the data.
    pub data_warning: Option<String>,
    /// Something changed since the last draw.
    pub dirty: bool,
    pub table_rect: Rect,
    pub log_rect: Option<Rect>,
    /// The header cells that sort: first column, end, mode.
    pub header_hits: Vec<(u16, u16, SortMode)>,
}

/// The view of an optional row.
pub open spec fn opt_entry(e: Option<Entry>) -> Option<EntryView> {
    match e {
        Some(x) => Some(x@),
        None => None,
    }
}

/// The status line was set, and nothing else changed.
pub open spec fn says(a: App, b: App, s: Seq<char>, now: u64) -> bool {
    &&& b == (App { status: b.status, status_at: now, dirty: true, ..a })
    &&& opt_text(b.status) == Some(s)
}

/// Which rows are the selection.
pub open spec fn selection_hits(rows: Seq<EntryView>, sel: EntryView) -> Seq<bool> {
    Seq::new(rows.len(), |i: int| one_selection(rows[i], sel))
}

/// Where the selection is among some rows.
pub open spec fn selection_place(rows: Seq<EntryView>, sel: Option<EntryView>) -> Option<int> {
    match sel {
        Some(s) => first_hit(selection_hits(rows, s)),
        None => None,
    }
}

/// Where the cursor goes among some rows: to the selection if it is still there,
/// otherwise to the row at its last place or to the last row.
pub open spec fn cursor_place(rows: Seq<EntryView>, sel: Option<EntryView>, last: int) -> Option<int> {
    match selection_place(rows, sel) {
        Some(i) => Some(i),
        None => if rows.len() == 0 {
            None
        } else if last < rows.len() {
            Some(last)
        } else {
            Some(rows.len() - 1)
        },
    }
}

fn position(rows: &[Entry], sel: &Option<Entry>) -> (r: Option<usize>)
    ensures
        match r {
            Some(i) => selection_place(entry_views(rows@), opt_entry(*sel)) == Some(i as int) && i
                < rows@.len(),
            None => selection_place(entry_views(rows@), opt_entry(*sel)) is None,
        },
{
    match sel {
        Some(s) => {
            let ghost all = entry_views(rows@);
            let ghost hits = selection_hits(all, s@);
            let mut i: usize = 0;
            while i < rows.len()
                invariant
                    i <= rows@.len(),
                    all == entry_views(rows@),
                    *sel == Some(*s),
                    hits == selection_hits(all, s@),
                    forall|j: int| 0 <= j < i ==> !#[trigger] hits[j],
                decreases rows@.len() - i,
            {
                let hit = same_entry(&rows[i], s);
                assert(hits[i as int] == hit);
                if hit {
                    proof {
                        lemma_is_first_hit(hits, i as int);
                    }
                    return Some(i);
                }
                i = i + 1;
            }
            proof {
                lemma_first_hit(hits);
            }
            None
        },
        None => None,
    }
}

/// Some target has a key.
pub open spec fn has_key(targets: Seq<TargetView>, key: KeyView) -> bool {
    exists|i: int| 0 <= i < targets.len() && (#[trigger] targets[i]).key == key
}

fn key_in(targets: &[Target], key: &TargetKey) -> (r: bool)
    ensures
        r == has_key(target_views(targets@), key@),
{
    let ghost all = target_views(targets@);
    let mut i: usize = 0;
    while i < targets.len()
        invariant
            i <= targets@.len(),
            all == target_views(targets@),
            forall|j: int| 0 <= j < i ==> (#[trigger] all[j]).key != key@,
        decreases targets@.len() - i,
    {
        assert(all[i as int] == targets@[i as int]@);
        if targets[i].key.same(key) {
            return true;
        }
        i = i + 1;
    }
    false
}

/// The moments of new rows, with those of `new` that `old` does not have.
pub open spec fn with_new(
    m: Map<KeyView, u64>,
    old: Seq<TargetView>,
    new: Seq<TargetView>,
    now: u64,
) -> Map<KeyView, u64>
    decreases new.len(),
{
    if new.len() == 0 {
        m
    } else {
        let before = with_new(m, old, new.drop_last(), now);
        if has_key(old, new.last().key) {
            before
        } else {
            before.insert(new.last().key, now)
        }
    }
}

/// The target vanished, nobody here ended it, and it had run for long enough.
pub open spec fn crashed(
    t: TargetView,
    new: Seq<TargetView>,
    expected: Map<KeyView, u64>,
    unix: u64,
) -> bool {
    &&& !has_key(new, t.key)
    &&& !expected.contains_key(t.key)
    &&& t.anchor.start_time > 0
    &&& elapsed(unix, t.anchor.start_time) >= CRASH_MIN_UPTIME
}

/// What is said of a target that ended unexpectedly.
pub open spec fn crash_text(t: TargetView) -> Seq<char> {
    "⚠ "@ + t.project + " ("@ + if t.ports.len() > 0 {
        ":"@ + text::decimal(t.ports[0] as nat)
    } else {
        t.command_label
    } + ") exited unexpectedly"@
}

/// What is said of the last of the targets that ended unexpectedly.
pub open spec fn crash_report(
    old: Seq<TargetView>,
    new: Seq<TargetView>,
    expected: Map<KeyView, u64>,
    unix: u64,
) -> Option<Seq<char>>
    decreases old.len(),
{
    if old.len() == 0 {
        None
    } else if crashed(old.last(), new, expected, unix) {
        Some(crash_text(old.last()))
    } else {
        crash_report(old.drop_last(), new, expected, unix)
    }
}

fn exit_text(t: &Target) -> (r: String)
    ensures
        r@ == crash_text(t@),
{
    let mut s = "⚠ ".to_owned();
    s.append(t.project.as_str());
    s.append(" (");
    if t.ports.len() > 0 {
        let digits = text::to_decimal(t.ports[0] as u64);
        let mut p = ":".to_owned();
        p.append(digits.as_str());
        s.append(p.as_str());
    } else {
        s.append(t.command_label.as_str());
    }
    s.append(") exited unexpectedly");
    s
}

fn find_crash(old: &[Target], new: &[Target], expected: &KeyTimes, unix: u64) -> (r: Option<String>)
    ensures
        opt_text(r) == crash_report(
            target_views(old@),
            target_views(new@),
            expected@,
            unix,
        ),
{
    let ghost all = target_views(old@);
    let ghost news = target_views(new@);
    let mut i: usize = old.len();
    proof {
        assert(all.take(i as int) =~= all);
    }
    while i > 0
        invariant
            i <= old@.len(),
            all == target_views(old@),
            news == target_views(new@),
            crash_report(all, news, expected@, unix) == crash_report(
                all.take(i as int),
                news,
                expected@,
                unix,
            ),
        decreases i,
    {
        let t = &old[i - 1];
        proof {
            assert(all.take(i as int).last() == t@);
            assert(all.take(i as int).drop_last() =~= all.take(i - 1));
        }
        if !key_in(new, &t.key) && expected.get(&t.key).is_none() && t.anchor.start_time > 0
            && since(unix, t.anchor.start_time) >= CRASH_MIN_UPTIME {
            return Some(exit_text(t));
        }
        i = i - 1;
    }
    None
}

/// A list without every occurrence of a text.
pub open spec fn without(list: Seq<Seq<char>>, s: Seq<char>) -> Seq<Seq<char>>
    decreases list.len(),
{
    if list.len() == 0 {
        list
    } else {
        let before = without(list.drop_last(), s);
        if list.last() == s {
            before
        } else {
            before.push(list.last())
        }
    }
}

/// A list with a text taken out or put in.
pub open spec fn toggled(list: Seq<Seq<char>>, s: Seq<char>) -> Seq<Seq<char>> {
    if list.contains(s) {
        without(list, s)
    } else {
        list.push(s)
    }
}

fn toggle(list: &[String], s: &str) -> (r: Vec<String>)
    ensures
        text::texts(r@) == toggled(text::texts(list@), s@),
{
    let ghost all = text::texts(list@);
    let found = has_text(list, s);
    let mut out: Vec<String> = Vec::new();
    let mut i: usize = 0;
    proof {
        assert(text::texts(out@) =~= without(all.take(0), s@));
    }
    while i < list.len()
        invariant
            i <= list@.len(),
            all == text::texts(list@),
            found == all.contains(s@),
            found ==> text::texts(out@) == without(all.take(i as int), s@),
            !found ==> text::texts(out@) == all.take(i as int),
        decreases list@.len() - i,
    {
        let ghost before = out@;
        proof {
            assert(all.take(i + 1).drop_last() =~= all.take(i as int));
            assert(all.take(i + 1).last() == list@[i as int]@);
            assert(all[i as int] == list@[i as int]@);
        }
        if !text::same(list[i].as_str(), s) {
            out.push(list[i].clone());
            proof {
                assert(text::texts(out@) =~= text::texts(before).push(all[i as int]));
                assert(!found ==> text::texts(out@) =~= all.take(i + 1));
            }
        } else {
            assert(found);
        }
        i = i + 1;
    }
    proof {
        assert(all.take(i as int) =~= all);
    }
    if !found {
        let ghost before = out@;
        out.push(s.to_owned());
        proof {
            assert(text::texts(out@) =~= text::texts(before).push(s@));
        }
    }
    out
}

/// The targets that a selection acts on: a whole group, or one target.
pub open spec fn acted_on(t: TargetView, sel: Option<EntryView>) -> bool {
    match sel {
        Some(EntryView::Group(p)) => t.project == p,
        Some(EntryView::Member(k)) => t.key == k,
        Some(EntryView::Target(k)) => t.key == k,
        None => false,
    }
}

/// Those of some targets that a selection acts on.
pub open spec fn selection(targets: Seq<TargetView>, sel: Option<EntryView>) -> Seq<TargetView>
    decreases targets.len(),
{
    if targets.len() == 0 {
        targets
    } else {
        let before = selection(targets.drop_last(), sel);
        if acted_on(targets.last(), sel) {
            before.push(targets.last())
        } else {
            before
        }
    }
}

/// The place of the first target with a key.
pub open spec fn key_place(targets: Seq<TargetView>, key: KeyView) -> Option<int> {
    first_hit(Seq::new(targets.len(), |i: int| targets[i].key == key))
}

/// The one target under the cursor: none on a group header.
pub open spec fn under_cursor(targets: Seq<TargetView>, sel: Option<EntryView>) -> Option<TargetView> {
    match sel {
        Some(e) => match entries::entry_key(e) {
            Some(k) => match key_place(targets, k) {
                Some(i) => Some(targets[i]),
                None => None,
            },
            None => None,
        },
        None => None,
    }
}

fn find_target<'a>(targets: &'a [Target], key: &TargetKey) -> (r: Option<&'a Target>)
    ensures
        match r {
            Some(t) => key_place(target_views(targets@), key@) is Some && t@ == target_views(
                targets@,
            )[key_place(target_views(targets@), key@)->0],
            None => key_place(target_views(targets@), key@) is None,
        },
{
    let ghost all = target_views(targets@);
    let ghost hits = Seq::new(all.len(), |i: int| all[i].key == key@);
    let mut i: usize = 0;
    while i < targets.len()
        invariant
            i <= targets@.len(),
            all == target_views(targets@),
            hits == Seq::new(all.len(), |i: int| all[i].key == key@),
            forall|j: int| 0 <= j < i ==> !#[trigger] hits[j],
        decreases targets@.len() - i,
    {
        let hit = targets[i].key.same(key);
        assert(hits[i as int] == hit);
        if hit {
            proof {
                lemma_is_first_hit(hits, i as int);
            }
            return Some(&targets[i]);
        }
        i = i + 1;
    }
    proof {
        lemma_first_hit(hits);
    }
    None
}

/// The name of what a selection acts on.
pub open spec fn selection_name(targets: Seq<TargetView>, sel: Option<EntryView>) -> Seq<char> {
    match sel {
        Some(EntryView::Group(p)) => p,
        _ => match under_cursor(targets, sel) {
            Some(t) => t.project,
            None => Seq::empty(),
        },
    }
}

/// The view took a snapshot: what is new is noted, and what was lost is said.
pub open spec fn applied(a: App, b: App, snap: Arc<Snapshot>, now: u64, unix: u64) -> bool {
    let report = if a.snapshot.seq > 0 {
        crash_report(a.targets(), b.targets(), a.suppress_exit@, unix)
    } else {
        None
    };
    &&& b.snapshot == snap
    &&& b.appeared@ == (if a.snapshot.seq > 0 {
        with_new(a.appeared@, a.targets(), b.targets(), now)
    } else {
        a.appeared@
    })
    &&& match report {
        Some(s) => opt_text(b.status) == Some(s) && b.status_at == now,
        None => b.status == a.status && b.status_at == a.status_at,
    }
    &&& opt_text(b.data_warning) == opt_text(snap.error)
    &&& b == (App {
        snapshot: snap,
        appeared: b.appeared,
        status: b.status,
        status_at: b.status_at,
        data_warning: b.data_warning,
        dirty: true,
        ..a
    })
}

/// What the passing of time ends.
pub open spec fn ticked(a: App, b: App, now: u64) -> bool {
    &&& b.status == (if a.status_expired(now) {
        None
    } else {
        a.status
    })
    &&& b.pending_kill == (if a.kill_over(now) {
        None
    } else {
        a.pending_kill
    })
    &&& b.appeared@ == younger(a.appeared@, now, FLASH)
    &&& b.suppress_exit@ == younger(a.suppress_exit@, now, SUPPRESS_TTL)
    &&& b.dirty == (a.dirty || a.status_expired(now) || a.kill_over(now) || b.appeared@ != a.appeared@)
    &&& b == (App {
        status: b.status,
        pending_kill: b.pending_kill,
        appeared: b.appeared,
        suppress_exit: b.suppress_exit,
        dirty: b.dirty,
        ..a
    })
}

/// A kill is pending: it can be cancelled for a while, and the end of its targets is expected.
pub open spec fn kill_pends(
    a: App,
    b: App,
    label: Seq<char>,
    keys: Vec<TargetKey>,
    now: u64,
) -> bool {
    &&& b.suppress_exit@ == with_keys(a.suppress_exit@, key_views(keys@), now)
    &&& b.pending_kill matches Some(pk) && pk.label@ == label && pk.keys == keys
        && pk.until == (if now + GRACE <= u64::MAX {
        (now + GRACE) as u64
    } else {
        u64::MAX
    })
    &&& b == (App {
        suppress_exit: b.suppress_exit,
        pending_kill: b.pending_kill,
        dirty: true,
        ..a
    })
}

impl App {
    /// The targets of the current snapshot.
    pub open spec fn targets(&self) -> Seq<TargetView> {
        target_views(self.snapshot.targets@)
    }

    pub fn new(now: u64) -> (r: Self)
        ensures
            r.snapshot.targets@.len() == 0,
            r.snapshot.seq == 0,
            r.snapshot.error is None,
            r.selected is None,
            r.last_index == 0,
            r.sort == SortMode::Port,
            r.display@.len() == 0,
            r.collapsed@.len() == 0,
            r.last_input == now,
            r.table_selected is None,
            r.table_offset == 0,
            r.status is None,
            r.status_at == now,
            r.log is None,
            r.log_height == 12,
            !r.log_pending,
            r.pending_kill is None,
            r.filter@.len() == 0,
            !r.filter_active,
            !r.show_help,
            !r.inspect,
            r.appeared@ == Map::<KeyView, u64>::empty(),
            r.suppress_exit@ == Map::<KeyView, u64>::empty(),
            r.data_warning is None,
            r.dirty,
            r.table_rect == (Rect { x: 0, y: 0, width: 0, height: 0 }),
            r.log_rect is None,
            r.header_hits@.len() == 0,
    {
        App {
            snapshot: Arc::new(Snapshot::empty()),
            selected: None,
            last_index: 0,
            sort: SortMode::Port,
            display: Vec::new(),
            collapsed: Vec::new(),
            last_input: now,
            table_selected: None,
            table_offset: 0,
            status: None,
            status_at: now,
            log: None,
            log_height: 12,
            log_pending: false,
            pending_kill: None,
            filter: String::new(),
            filter_active: false,
            show_help: false,
            inspect: false,
            appeared: KeyTimes::new(),
            suppress_exit: KeyTimes::new(),
            data_warning: None,
            dirty: true,
            table_rect: Rect { x: 0, y: 0, width: 0, height: 0 },
            log_rect: None,
            header_hits: Vec::new(),
        }
    }

    // ------------------------------------------------------------- snapshots

    /// Take a fresh snapshot. Against a real earlier one, new rows are marked to
    /// flash, and a target that vanished without being ended from here is reported.
    pub fn apply(&mut self, snap: Arc<Snapshot>, now: u64, unix: u64)
        ensures
            applied(*old(self), *final(self), snap, now, unix),
    {
        let ghost olds = self.targets();
        let ghost news = target_views(snap.targets@);
        if self.snapshot.seq > 0 {
            let mut i: usize = 0;
            let ghost m0 = self.appeared@;
            proof {
                assert(news.take(0) =~= Seq::<TargetView>::empty());
            }
            while i < snap.targets.len()
                invariant
                    i <= snap.targets@.len(),
                    olds == old(self).targets(),
                    news == target_views(snap.targets@),
                    m0 == old(self).appeared@,
                    *self == (App { appeared: self.appeared, ..*old(self) }),
                    self.appeared@ == with_new(m0, olds, news.take(i as int), now),
                decreases snap.targets@.len() - i,
            {
                let t = &snap.targets[i];
                proof {
                    assert(news.take(i + 1).drop_last() =~= news.take(i as int));
                    assert(news.take(i + 1).last() == t@);
                }
                if !key_in(self.snapshot.targets.as_slice(), &t.key) {
                    self.appeared.insert(t.key.clone(), now);
                }
                i = i + 1;
            }
            proof {
                assert(news.take(i as int) =~= news);
            }
            let report = find_crash(
                self.snapshot.targets.as_slice(),
                snap.targets.as_slice(),
                &self.suppress_exit,
                unix,
            );
            match report {
                Some(s) => {
                    self.status = Some(s);
                    self.status_at = now;
                },
                None => {},
            }
        }
        self.data_warning = crate::model::clone_opt(&snap.error);
        self.snapshot = snap;
        self.dirty = true;
    }

    /// The sampler is gone: the data is frozen, and this says so.
    pub fn sampler_died(&mut self)
        ensures
            opt_text(final(self).data_warning) == Some(
                "sampler thread stopped — data frozen (restart marina)"@,
            ),
            opt_text(old(self).data_warning) == Some(
                "sampler thread stopped — data frozen (restart marina)"@,
            ) ==> *final(self) == *old(self),
            opt_text(old(self).data_warning) != Some(
                "sampler thread stopped — data frozen (restart marina)"@,
            ) ==> *final(self) == (App {
                data_warning: final(self).data_warning,
                dirty: true,
                ..*old(self)
            }),
    {
        let msg = "sampler thread stopped — data frozen (restart marina)";
        let said = match &self.data_warning {
            Some(w) => text::same(w.as_str(), msg),
            None => false,
        };
        if !said {
            self.data_warning = Some(msg.to_owned());
            self.dirty = true;
        }
    }

    /// The status line is too old to show.
    pub open spec fn status_expired(&self, now: u64) -> bool {
        self.status is Some && elapsed(now, self.status_at) > STATUS_TTL
    }

    /// The window in which a kill can be cancelled is over.
    pub open spec fn kill_over(&self, now: u64) -> bool {
        self.pending_kill matches Some(pk) && now >= pk.until
    }

    /// Upkeep: the status line, the window of a kill, the flashes and the expected
    /// exits run out. A redraw is asked for only where something visible changed.
    pub fn tick(&mut self, now: u64)
        ensures
            ticked(*old(self), *final(self), now),
    {
        if self.status.is_some() && since(now, self.status_at) > STATUS_TTL {
            self.status = None;
            self.dirty = true;
        }
        let over = match &self.pending_kill {
            Some(pk) => now >= pk.until,
            None => false,
        };
        if over {
            self.pending_kill = None;
            self.dirty = true;
        }
        if self.appeared.expire(now, FLASH) {
            self.dirty = true;
        }
        let _ = self.suppress_exit.expire(now, SUPPRESS_TTL);
    }

    /// Whether something moves on the screen without new input or data.
    pub fn has_transient(&self) -> (r: bool)
        ensures
            r == (self.pending_kill is Some || self.appeared@ != Map::<KeyView, u64>::empty()),
    {
        self.pending_kill.is_some() || !self.appeared.is_empty()
    }

    /// Whether to draw: only where something changed, or moves by itself.
    pub fn wants_draw(&self) -> (r: bool)
        ensures
            r == (self.dirty || self.pending_kill is Some || self.appeared@ != Map::<
                KeyView,
                u64,
            >::empty()),
    {
        self.dirty || self.has_transient()
    }

    /// Show a line in the status bar.
    pub fn set_status(&mut self, s: String, now: u64)
        ensures
            *final(self) == (App { status: Some(s), status_at: now, dirty: true, ..*old(self) }),
    {
        self.status = Some(s);
        self.status_at = now;
        self.dirty = true;
    }

    fn say(&mut self, s: &str, now: u64)
        ensures
            says(*old(self), *final(self), s@, now),
    {
        self.set_status(s.to_owned(), now);
    }

    // ------------------------------------------------------------------ help

    pub fn help_open(&self) -> (r: bool)
        ensures
            r == self.show_help,
    {
        self.show_help
    }

    pub fn toggle_help(&mut self)
        ensures
            *final(self) == (App { show_help: !old(self).show_help, dirty: true, ..*old(self) }),
    {
        self.show_help = !self.show_help;
        self.dirty = true;
    }

    pub fn close_help(&mut self)
        ensures
            *final(self) == (App { show_help: false, dirty: true, ..*old(self) }),
    {
        self.show_help = false;
        self.dirty = true;
    }

    // ------------------------------------------------------------------ sort

    /// Go to the next sort mode.
    pub fn cycle_sort(&mut self)
        ensures
            *final(self) == sorted(*old(self), old(self).sort.following()),
    {
        let next = self.sort.next();
        self.set_sort(next);
    }

    /// Sort by a mode. That means reorder now: the moment of the last input is put
    /// back so far that nothing holds still, where the clock has run for that long.
    pub fn set_sort(&mut self, m: SortMode)
        ensures
            *final(self) == sorted(*old(self), m),
    {
        self.sort = m;
        if self.last_input >= FREEZE {
            self.last_input = self.last_input - FREEZE;
        }
        self.dirty = true;
    }

    // ------------------------------------------------------------- selection

    /// Move the cursor down, from the last row to the first.
    pub fn select_next(&mut self, now: u64)
        ensures
            moved(*old(self), *final(self), 1, now),
    {
        self.move_selection(true, now);
    }

    /// Move the cursor up, from the first row to the last.
    pub fn select_prev(&mut self, now: u64)
        ensures
            moved(*old(self), *final(self), -1, now),
    {
        self.move_selection(false, now);
    }

    fn move_selection(&mut self, down: bool, now: u64)
        ensures
            moved(
                *old(self),
                *final(self),
                if down {
                    1
                } else {
                    -1
                },
                now,
            ),
    {
        self.last_input = now;
        self.dirty = true;
        if self.display.len() == 0 {
            return;
        }
        let n = self.display.len();
        let cur: usize = match position(self.display.as_slice(), &self.selected) {
            Some(i) => i,
            None => 0,
        };
        let next: usize = if down {
            if cur + 1 == n {
                0
            } else {
                cur + 1
            }
        } else {
            if cur == 0 {
                n - 1
            } else {
                cur - 1
            }
        };
        proof {
            let d: int = if down {
                1
            } else {
                -1
            };
            if cur + d == n {
                assert((cur + d) % (n as int) == 0) by (nonlinear_arith)
                    requires
                        cur + d == n,
                        n > 0,
                ;
            } else if cur + d == -1 {
                assert((cur + d) % (n as int) == n - 1) by (nonlinear_arith)
                    requires
                        cur + d == -1,
                        n > 0,
                ;
            } else {
                assert((cur + d) % (n as int) == cur + d) by (nonlinear_arith)
                    requires
                        0 <= cur + d < n,
                ;
            }
            assert(next == (cur + d) % (n as int));
        }
        self.last_index = next;
        self.selected = Some(self.display[next].clone());
    }

    /// Go to the first row.
    pub fn jump_top(&mut self, now: u64)
        ensures
            *final(self) == topped(*old(self), now),
    {
        self.last_input = now;
        self.last_index = 0;
        self.selected = if self.display.len() == 0 {
            None
        } else {
            Some(self.display[0].clone())
        };
        self.dirty = true;
    }

    /// Go to the last row.
    pub fn jump_bottom(&mut self, now: u64)
        ensures
            *final(self) == bottomed(*old(self), now),
    {
        let n = self.display.len();
        self.last_input = now;
        self.dirty = true;
        if n == 0 {
            self.last_index = 0;
            self.selected = None;
        } else {
            self.last_index = n - 1;
            self.selected = Some(self.display[n - 1].clone());
        }
    }

    /// Fold or unfold the selected group; nothing on other rows.
    pub fn toggle_collapse(&mut self)
        ensures
            folded(*old(self), *final(self)),
    {
        let folded = match &self.selected {
            Some(Entry::Group(p)) => toggle(self.collapsed.as_slice(), p.as_str()),
            _ => return,
        };
        self.collapsed = folded;
        self.dirty = true;
    }

    pub fn toggle_inspect(&mut self)
        ensures
            *final(self) == (App { inspect: !old(self).inspect, dirty: true, ..*old(self) }),
    {
        self.inspect = !self.inspect;
        self.dirty = true;
    }

    /// The single target under the cursor; none on a group header.
    pub fn selected_target(&self) -> (r: Option<&Target>)
        ensures
            match r {
                Some(t) => under_cursor(self.targets(), opt_entry(self.selected)) == Some(t@),
                None => under_cursor(self.targets(), opt_entry(self.selected)) is None,
            },
    {
        match &self.selected {
            Some(e) => match entries::key_of(e) {
                Some(k) => find_target(self.snapshot.targets.as_slice(), k),
                None => None,
            },
            None => None,
        }
    }

    fn acts_on(&self, t: &Target) -> (r: bool)
        ensures
            r == acted_on(t@, opt_entry(self.selected)),
    {
        match &self.selected {
            Some(Entry::Group(p)) => text::same(t.project.as_str(), p.as_str()),
            Some(Entry::Member(k)) => t.key.same(k),
            Some(Entry::Target(k)) => t.key.same(k),
            None => false,
        }
    }

    /// All targets the selection acts on: a whole group, or one target.
    pub fn selected_targets(&self) -> (r: Vec<&Target>)
        ensures
            crate::cli::ref_views(r@) == selection(self.targets(), opt_entry(self.selected)),
    {
        let ghost all = self.targets();
        let ghost sel = opt_entry(self.selected);
        let mut out: Vec<&Target> = Vec::new();
        let mut i: usize = 0;
        proof {
            assert(crate::cli::ref_views(out@) =~= selection(all.take(0), sel));
        }
        while i < self.snapshot.targets.len()
            invariant
                i <= self.snapshot.targets@.len(),
                all == self.targets(),
                sel == opt_entry(self.selected),
                crate::cli::ref_views(out@) == selection(all.take(i as int), sel),
            decreases self.snapshot.targets@.len() - i,
        {
            let t = &self.snapshot.targets[i];
            let ghost before = out@;
            proof {
                assert(all.take(i + 1).drop_last() =~= all.take(i as int));
                assert(all.take(i + 1).last() == t@);
            }
            if self.acts_on(t) {
                out.push(t);
                proof {
                    assert(crate::cli::ref_views(out@) =~= crate::cli::ref_views(before).push(t@));
                }
            }
            i = i + 1;
        }
        proof {
            assert(all.take(i as int) =~= all);
        }
        out
    }

    /// The project that the selection is in.
    pub fn selection_label(&self) -> (r: String)
        ensures
            r@ == selection_name(self.targets(), opt_entry(self.selected)),
    {
        match &self.selected {
            Some(Entry::Group(p)) => p.clone(),
            _ => match self.selected_target() {
                Some(t) => t.project.clone(),
                None => {
                    let none = String::new();
                    assert(none@ =~= Seq::<char>::empty());
                    none
                },
            },
        }
    }

    /// The rows hold their order: a volatile sort, right after a keystroke.
    pub open spec fn frozen(&self, now: u64) -> bool {
        &&& self.sort != SortMode::Port
        &&& elapsed(now, self.last_input) < FREEZE
        &&& self.display@.len() > 0
    }

    /// The rows to show.
    pub open spec fn rows_at(&self, now: u64) -> Seq<EntryView> {
        let fresh = fresh_entries(
            self.targets(),
            self.filter@,
            self.sort,
            text::texts(self.collapsed@),
        );
        if self.frozen(now) {
            held(entry_views(self.display@), fresh)
        } else {
            fresh
        }
    }

    /// Group the targets by project, sort groups and members, and fold what is
    /// collapsed. Right after a keystroke a volatile sort keeps the rows in place.
    pub fn compute_entries(&self, now: u64) -> (r: Vec<Entry>)
        ensures
            entry_views(r@) == self.rows_at(now),
    {
        let fresh = entries::fresh(
            self.snapshot.targets.as_slice(),
            self.filter.as_str(),
            self.sort,
            self.collapsed.as_slice(),
        );
        if self.sort.is_volatile() && since(now, self.last_input) < FREEZE && self.display.len()
            > 0 {
            entries::hold(self.display.as_slice(), fresh)
        } else {
            fresh
        }
    }

    /// Recompute the rows and put the cursor on the selection, or on the row at its
    /// last place where the selection vanished.
    pub fn reconcile(&mut self, now: u64)
        ensures
            ({
                let rows = old(self).rows_at(now);
                let at = cursor_place(rows, opt_entry(old(self).selected), old(self).last_index as int);
                &&& entry_views(final(self).display@) == rows
                &&& match at {
                    Some(i) => {
                        &&& final(self).last_index == i
                        &&& final(self).table_selected == Some(i as usize)
                        &&& final(self).selected == Some(final(self).display@[i])
                        &&& 0 <= i < rows.len()
                    },
                    None => {
                        &&& final(self).last_index == old(self).last_index
                        &&& final(self).table_selected is None
                        &&& final(self).selected is None
                    },
                }
            }),
            *final(self) == (App {
                display: final(self).display,
                last_index: final(self).last_index,
                table_selected: final(self).table_selected,
                selected: final(self).selected,
                ..*old(self)
            }),
    {
        self.display = self.compute_entries(now);
        let n = self.display.len();
        let found = position(self.display.as_slice(), &self.selected);
        let at = match found {
            Some(i) => Some(i),
            None => if n == 0 {
                None
            } else if self.last_index < n {
                Some(self.last_index)
            } else {
                Some(n - 1)
            },
        };
        match at {
            Some(i) => {
                self.last_index = i;
                self.selected = Some(self.display[i].clone());
            },
            None => {
                self.selected = None;
            },
        }
        self.table_selected = at;
    }

    // ------------------------------------------------------ kill and restart

    /// Remember a kill that can still be cancelled, and that its targets will end.
    pub fn note_pending_kill(&mut self, label: &str, keys: Vec<TargetKey>, now: u64)
        ensures
            kill_pends(*old(self), *final(self), label@, keys, now),
    {
        self.mark_marina_action(keys.as_slice(), now);
        self.pending_kill = Some(
            PendingKill { until: now.saturating_add(GRACE), label: label.to_owned(), keys },
        );
        self.dirty = true;
    }

    /// These targets are killed or restarted from here: their end is expected.
    pub fn mark_marina_action(&mut self, keys: &[TargetKey], now: u64)
        ensures
            final(self).suppress_exit@ == with_keys(
                old(self).suppress_exit@,
                key_views(keys@),
                now,
            ),
            *final(self) == (App { suppress_exit: final(self).suppress_exit, ..*old(self) }),
    {
        let ghost m0 = self.suppress_exit@;
        let ghost all = key_views(keys@);
        let mut i: usize = 0;
        proof {
            assert(all.take(0) =~= Seq::<KeyView>::empty());
        }
        while i < keys.len()
            invariant
                i <= keys@.len(),
                m0 == old(self).suppress_exit@,
                all == key_views(keys@),
                *self == (App { suppress_exit: self.suppress_exit, ..*old(self) }),
                self.suppress_exit@ == with_keys(m0, all.take(i as int), now),
            decreases keys@.len() - i,
        {
            proof {
                assert(all.take(i + 1).drop_last() =~= all.take(i as int));
                assert(all.take(i + 1).last() == keys@[i as int]@);
            }
            self.suppress_exit.insert(keys[i].clone(), now);
            i = i + 1;
        }
        proof {
            assert(all.take(i as int) =~= all);
        }
    }

    /// A kill can still be cancelled.
    pub open spec fn can_undo(&self, now: u64) -> bool {
        self.pending_kill matches Some(pk) && now < pk.until
    }

    /// Cancel the escalation of a kill while that is possible. The result says
    /// whether it is to be cancelled.
    pub fn undo_kill(&mut self, now: u64) -> (r: bool)
        ensures
            r == old(self).can_undo(now),
            undone(*old(self), *final(self), now),
    {
        let mut undone: Option<String> = None;
        match &self.pending_kill {
            Some(pk) => {
                if now < pk.until {
                    let mut s = "cancelled force-kill for ".to_owned();
                    s.append(pk.label.as_str());
                    s.append(" — note: SIGTERM was already sent");
                    undone = Some(s);
                }
            },
            None => {},
        }
        self.pending_kill = None;
        match undone {
            Some(s) => {
                self.set_status(s, now);
                true
            },
            None => {
                self.say("nothing to undo", now);
                false
            },
        }
    }

    /// Whether a row is inside the window of a kill.
    pub fn is_dying(&self, key: &TargetKey) -> (r: bool)
        ensures
            r == self.dies(key@),
    {
        match &self.pending_kill {
            Some(pk) => {
                let ghost all = key_views(pk.keys@);
                let mut i: usize = 0;
                while i < pk.keys.len()
                    invariant
                        i <= pk.keys@.len(),
                        all == key_views(pk.keys@),
                        self.pending_kill == Some(*pk),
                        forall|j: int| 0 <= j < i ==> all[j] != key@,
                    decreases pk.keys@.len() - i,
                {
                    assert(all[i as int] == pk.keys@[i as int]@);
                    if pk.keys[i].same(key) {
                        return true;
                    }
                    i = i + 1;
                }
                false
            },
            None => false,
        }
    }

    pub open spec fn dies(&self, key: KeyView) -> bool {
        self.pending_kill matches Some(pk) && key_views(pk.keys@).contains(key)
    }

    pub open spec fn flashes(&self, key: KeyView, now: u64) -> bool {
        self.appeared@.contains_key(key) && elapsed(now, self.appeared@[key]) < FLASH
    }

    /// Whether a row appeared just now.
    pub fn is_flashing(&self, key: &TargetKey, now: u64) -> (r: bool)
        ensures
            r == self.flashes(key@, now),
    {
        match self.appeared.get(key) {
            Some(at) => since(now, at) < FLASH,
            None => false,
        }
    }

    // ---------------------------------------------------------------- filter

    pub fn is_filtering(&self) -> (r: bool)
        ensures
            r == self.filter_active,
    {
        self.filter_active
    }

    pub fn start_filter(&mut self, now: u64)
        ensures
            *final(self) == filtering(*old(self), now),
    {
        self.filter_active = true;
        self.last_input = now;
        self.dirty = true;
    }

    pub fn filter_push(&mut self, c: char, now: u64)
        ensures
            typed(*old(self), *final(self), old(self).filter@.push(c), now),
    {
        self.filter.push(c);
        self.last_input = now;
        self.dirty = true;
    }

    pub fn filter_backspace(&mut self, now: u64)
        ensures
            typed(*old(self), *final(self), shortened(old(self).filter@), now),
    {
        let _ = self.filter.pop();
        self.last_input = now;
        self.dirty = true;
    }

    pub fn filter_commit(&mut self)
        ensures
            *final(self) == (App { filter_active: false, dirty: true, ..*old(self) }),
    {
        self.filter_active = false;
        self.dirty = true;
    }

    pub fn filter_cancel(&mut self)
        ensures
            unfiltered(*old(self), *final(self)),
    {
        self.filter_active = false;
        self.filter.clear();
        self.dirty = true;
    }

    /// Whether a target passes the current filter.
    pub fn matches(&self, t: &Target) -> (r: bool)
        ensures
            r == entries::passes(t@, self.filter@),
    {
        entries::matches(t, self.filter.as_str())
    }

    /// Close the most intrusive thing: the log pane, then the inspect panel, then a
    /// filter. The result says whether a log pane was closed.
    pub fn escape(&mut self, now: u64) -> (r: bool)
        ensures
            r == (old(self).log is Some),
            escaped(*old(self), *final(self), now),
    {
        if self.log.is_some() {
            self.close_log(now)
        } else if self.inspect {
            self.inspect = false;
            self.dirty = true;
            false
        } else {
            if self.filter.as_str().unicode_len() > 0 {
                self.filter.clear();
                self.say("filter cleared", now);
            }
            false
        }
    }

    // -------------------------------------------------------------- log pane

    pub fn log_open(&self) -> (r: bool)
        ensures
            r == (self.log is Some),
    {
        self.log.is_some()
    }

    /// Open a log pane. The result says whether another one was open, whose tail is
    /// to be stopped.
    pub fn open_log(&mut self, title: String, now: u64) -> (r: bool)
        ensures
            r == (old(self).log is Some),
            final(self).log matches Some(l) && l.title@ == title@ && l.lines@.len() == 0
                && l.scroll is None,
            opt_text(final(self).status) == Some("tailing "@ + title@),
            *final(self) == (App {
                log: final(self).log,
                status: final(self).status,
                status_at: now,
                dirty: true,
                ..*old(self)
            }),
    {
        let had = self.log.is_some();
        let mut s = "tailing ".to_owned();
        s.append(title.as_str());
        self.set_status(s, now);
        self.log = Some(LogView { title, lines: Vec::new(), scroll: None });
        had
    }

    /// Close the log pane. The result says whether one was open, whose tail is to be
    /// stopped.
    pub fn close_log(&mut self, now: u64) -> (r: bool)
        ensures
            r == (old(self).log is Some),
            closed(*old(self), *final(self), now),
    {
        if self.log.is_some() {
            self.log = None;
            self.say("closed logs", now);
            true
        } else {
            false
        }
    }

    /// Append new lines to the log pane. The oldest lines go where there are too many,
    /// and a pinned pane stays on its content.
    pub fn pump_log(&mut self, new: Vec<String>)
        ensures
            match old(self).log {
                Some(l) => {
                    &&& final(self).log matches Some(m) && m.title == l.title && pane(m) == fed(
                        pane(l),
                        text::texts(new@),
                    )
                    &&& *final(self) == (App {
                        log: final(self).log,
                        dirty: old(self).dirty || new@.len() > 0,
                        ..*old(self)
                    })
                },
                None => *final(self) == *old(self),
            },
    {
        let got = new.len() > 0;
        let taken = self.log.take();
        match taken {
            Some(l) => {
                let ghost all = text::texts(new@);
                let ghost p0 = pane(l);
                let mut lines = l.lines;
                let mut scroll = l.scroll;
                proof {
                    assert(all.take(0) =~= Seq::<Seq<char>>::empty());
                }
                for line in it: new
                    invariant
                        text::texts(it.seq()) == all,
                        (text::texts(lines@), scroll) == fed(p0, all.take(it.index() as int)),
                {
                    let ghost k = it.index() as int;
                    let ghost before = lines@;
                    proof {
                        assert(all[k] == line@);
                        assert(all.take(k + 1).drop_last() =~= all.take(k));
                        assert(all.take(k + 1).last() == line@);
                    }
                    let ghost lv = line@;
                    lines.push(line);
                    proof {
                        assert(text::texts(lines@) =~= text::texts(before).push(lv));
                    }
                    if lines.len() > LOG_LINES {
                        let ghost long = lines@;
                        let _ = lines.remove(0);
                        proof {
                            assert(text::texts(lines@) =~= text::texts(long).drop_first());
                        }
                        scroll = match scroll {
                            Some(s) => Some(
                                if s > 0 {
                                    s - 1
                                } else {
                                    0
                                },
                            ),
                            None => None,
                        };
                    }
                }
                proof {
                    assert(all.take(all.len() as int) =~= all);
                }
                self.log = Some(LogView { title: l.title, lines, scroll });
                if got {
                    self.dirty = true;
                }
            },
            None => {},
        }
    }

    /// How many lines of the log pane are visible.
    pub open spec fn visible_lines(&self) -> nat {
        if self.log_height >= 2 {
            (self.log_height - 2) as nat
        } else {
            0
        }
    }

    fn log_visible_lines(&self) -> (r: usize)
        ensures
            r == self.visible_lines(),
    {
        if self.log_height >= 2 {
            (self.log_height - 2) as usize
        } else {
            0
        }
    }

    /// Scroll the log pane up by `n` lines: it is pinned from then on.
    pub fn log_scroll_up(&mut self, n: usize)
        ensures
            *final(self) == scrolled_up(*old(self), n as int),
    {
        let h = self.log_visible_lines();
        let taken = self.log.take();
        match taken {
            Some(l) => {
                let bottom: usize = if l.lines.len() >= h {
                    l.lines.len() - h
                } else {
                    0
                };
                let cur: usize = match l.scroll {
                    Some(s) => s,
                    None => bottom,
                };
                let to: usize = if cur >= n {
                    cur - n
                } else {
                    0
                };
                self.log = Some(LogView { title: l.title, lines: l.lines, scroll: Some(to) });
                self.dirty = true;
            },
            None => {},
        }
    }

    /// Scroll the log pane down by `n` lines: at the end it follows again.
    pub fn log_scroll_down(&mut self, n: usize)
        ensures
            *final(self) == scrolled_down(*old(self), n as int),
    {
        let h = self.log_visible_lines();
        let taken = self.log.take();
        match taken {
            Some(l) => {
                let bottom: usize = if l.lines.len() >= h {
                    l.lines.len() - h
                } else {
                    0
                };
                let cur: usize = match l.scroll {
                    Some(s) => s,
                    None => bottom,
                };
                let to = if cur >= bottom || n >= bottom - cur {
                    None
                } else {
                    Some(cur + n)
                };
                self.log = Some(LogView { title: l.title, lines: l.lines, scroll: to });
                self.dirty = true;
            },
            None => {},
        }
    }

    /// Make the log pane larger, up to 30 lines.
    pub fn log_grow(&mut self)
        ensures
            *final(self) == grown(*old(self)),
    {
        if self.log.is_some() {
            self.log_height = if self.log_height < 27 {
                self.log_height + 3
            } else {
                30
            };
            self.dirty = true;
        }
    }

    /// Make the log pane smaller, down to 5 lines.
    pub fn log_shrink(&mut self)
        ensures
            *final(self) == shrunk(*old(self)),
    {
        if self.log.is_some() {
            self.log_height = if self.log_height > 8 {
                self.log_height - 3
            } else {
                5
            };
            self.dirty = true;
        }
    }
}

/// The state after a sort mode was chosen.
pub open spec fn sorted(a: App, m: SortMode) -> App {
    App {
        sort: m,
        last_input: if a.last_input >= FREEZE {
            (a.last_input - FREEZE) as u64
        } else {
            a.last_input
        },
        dirty: true,
        ..a
    }
}

/// The state with the cursor on the first row.
pub open spec fn topped(a: App, now: u64) -> App {
    App {
        last_input: now,
        last_index: 0,
        selected: if a.display@.len() == 0 {
            None
        } else {
            Some(a.display@[0])
        },
        dirty: true,
        ..a
    }
}

/// The state with the cursor on the last row.
pub open spec fn bottomed(a: App, now: u64) -> App {
    App {
        last_input: now,
        last_index: if a.display@.len() == 0 {
            0
        } else {
            (a.display@.len() - 1) as usize
        },
        selected: if a.display@.len() == 0 {
            None
        } else {
            Some(a.display@.last())
        },
        dirty: true,
        ..a
    }
}

/// The selected group was folded or unfolded.
pub open spec fn folded(a: App, b: App) -> bool {
    match a.selected {
        Some(Entry::Group(p)) => {
            &&& b == (App { collapsed: b.collapsed, dirty: true, ..a })
            &&& text::texts(b.collapsed@) == toggled(text::texts(a.collapsed@), p@)
        },
        _ => b == a,
    }
}

/// The escalation of a kill was cancelled, or there was none to cancel.
pub open spec fn undone(a: App, b: App, now: u64) -> bool {
    says(
        App { pending_kill: None, ..a },
        b,
        if a.can_undo(now) {
            "cancelled force-kill for "@ + a.pending_kill->0.label@
                + " — note: SIGTERM was already sent"@
        } else {
            "nothing to undo"@
        },
        now,
    )
}

/// The state in which a filter is typed.
pub open spec fn filtering(a: App, now: u64) -> App {
    App { filter_active: true, last_input: now, dirty: true, ..a }
}

/// The filter was changed to a text.
pub open spec fn typed(a: App, b: App, filter: Seq<char>, now: u64) -> bool {
    &&& b == (App { filter: b.filter, last_input: now, dirty: true, ..a })
    &&& b.filter@ == filter
}

/// A text without its last character.
pub open spec fn shortened(s: Seq<char>) -> Seq<char> {
    if s.len() == 0 {
        s
    } else {
        s.drop_last()
    }
}

/// The filter was left and emptied.
pub open spec fn unfiltered(a: App, b: App) -> bool {
    &&& b == (App { filter_active: false, filter: b.filter, dirty: true, ..a })
    &&& b.filter@.len() == 0
}

/// The log pane was closed, if one was open.
pub open spec fn closed(a: App, b: App, now: u64) -> bool {
    if a.log is Some {
        says(App { log: None, ..a }, b, "closed logs"@, now)
    } else {
        b == a
    }
}

/// The state with the log pane pinned `n` lines further up.
pub open spec fn scrolled_up(a: App, n: int) -> App {
    match a.log {
        Some(l) => App {
            log: Some(
                LogView {
                    scroll: Some(less(scrolled_to(l, a.visible_lines()), n) as usize),
                    ..l
                },
            ),
            dirty: true,
            ..a
        },
        None => a,
    }
}

/// The state with the log pane `n` lines further down, following again at its end.
pub open spec fn scrolled_down(a: App, n: int) -> App {
    match a.log {
        Some(l) => {
            let to = scrolled_to(l, a.visible_lines()) + n;
            App {
                log: Some(
                    LogView {
                        scroll: if to >= less(l.lines@.len() as int, a.visible_lines() as int) {
                            None
                        } else {
                            Some(to as usize)
                        },
                        ..l
                    },
                ),
                dirty: true,
                ..a
            }
        },
        None => a,
    }
}

/// The state with a larger log pane.
pub open spec fn grown(a: App) -> App {
    if a.log is Some {
        App {
            log_height: if a.log_height < 27 {
                (a.log_height + 3) as u16
            } else {
                30
            },
            dirty: true,
            ..a
        }
    } else {
        a
    }
}

/// The state with a smaller log pane.
pub open spec fn shrunk(a: App) -> App {
    if a.log is Some {
        App {
            log_height: if a.log_height > 8 {
                (a.log_height - 3) as u16
            } else {
                5
            },
            dirty: true,
            ..a
        }
    } else {
        a
    }
}

/// The cursor moved by `delta` rows, round the ends.
pub open spec fn moved(a: App, b: App, delta: int, now: u64) -> bool {
    let rows = entry_views(a.display@);
    let cur = match selection_place(rows, opt_entry(a.selected)) {
        Some(i) => i,
        None => 0,
    };
    if rows.len() == 0 {
        b == (App { last_input: now, dirty: true, ..a })
    } else {
        let next = (cur + delta) % (rows.len() as int);
        &&& b == (App {
            last_input: now,
            dirty: true,
            last_index: next as usize,
            selected: Some(a.display@[next]),
            ..a
        })
        &&& b.last_index == next
    }
}

/// The moments of some keys set to `now`.
pub open spec fn with_keys(m: Map<KeyView, u64>, keys: Seq<KeyView>, now: u64) -> Map<KeyView, u64>
    decreases keys.len(),
{
    if keys.len() == 0 {
        m
    } else {
        with_keys(m, keys.drop_last(), now).insert(keys.last(), now)
    }
}

/// What escape does: the log pane is closed first, then the inspect panel, then a
/// filter is cleared.
pub open spec fn escaped(a: App, b: App, now: u64) -> bool {
    if a.log is Some {
        closed(a, b, now)
    } else if a.inspect {
        b == (App { inspect: false, dirty: true, ..a })
    } else if a.filter@.len() > 0 {
        &&& b.filter@.len() == 0
        &&& says(App { filter: b.filter, ..a }, b, "filter cleared"@, now)
    } else {
        b == a
    }
}

/// The lines of a log pane and where it is pinned.
pub open spec fn pane(l: LogView) -> (Seq<Seq<char>>, Option<usize>) {
    (text::texts(l.lines@), l.scroll)
}

/// A log pane after new lines came.
pub open spec fn fed(p: (Seq<Seq<char>>, Option<usize>), new: Seq<Seq<char>>) -> (
    Seq<Seq<char>>,
    Option<usize>,
)
    decreases new.len(),
{
    if new.len() == 0 {
        p
    } else {
        let before = fed(p, new.drop_last());
        let lines = before.0.push(new.last());
        if lines.len() > LOG_LINES {
            (
                lines.drop_first(),
                match before.1 {
                    Some(s) => Some(less(s as int, 1) as usize),
                    None => None,
                },
            )
        } else {
            (lines, before.1)
        }
    }
}

/// `a - b`, but not below zero.
pub open spec fn less(a: int, b: int) -> int {
    if a >= b {
        a - b
    } else {
        0
    }
}

/// The line at the top of a log pane of which `h` lines are visible.
pub open spec fn scrolled_to(l: LogView, h: nat) -> int {
    match l.scroll {
        Some(s) => s as int,
        None => less(l.lines@.len() as int, h as int),
    }
}

} // verus!
