//! What holds of the view's state: what verbs act on, what moves the cursor, and what
//! keys, clicks and the passing of time do.
use vstd::prelude::*;

use super::entries::{entry_key, entry_views, one_selection, Entry, EntryView, SortMode};
use super::input::{
    acted, containers_of, copy_asked, filter_keyed, header_mode, inside, keyed, keys_of, kill_asked,
    kill_begun, kill_noted, left_clicked, log_found, moused, open_asked, plan_view, plan_views,
    plans_of, restart_asked, stopping, tail_begun, Key, KeyAct, KillRequest, PlanView,
    RestartRequest, TailAct,
};
use super::keytimes::younger;
use super::state::{
    applied, bottomed, crash_report, crash_text, crashed, escaped, folded, grown, has_key,
    key_place, moved, opt_entry, scrolled_down, scrolled_up, selection, selection_hits,
    selection_name, selection_place, shrunk, sorted, ticked, toggled, topped, under_cursor, undone,
    with_keys, with_new, without, App, LogView, MouseEvent, MouseKind,
};
use crate::model::{key_views, opt_text, KeyView, TargetView};
use crate::proctree::lemma_joined_contains;
use crate::resolve::{lemma_first_hit, lemma_is_first_hit};
use crate::text;
use crate::verbs::PidStart;

verus! {

// ------------------------------------------------------------------- selection

/// The target is what the row stands for: any target of the project for a header, the
/// target with the key for another row.
pub open spec fn stands_for(sel: Option<EntryView>, t: TargetView) -> bool {
    ||| sel matches Some(EntryView::Group(p)) && t.project == p
    ||| sel matches Some(EntryView::Member(k)) && t.key == k
    ||| sel matches Some(EntryView::Target(k)) && t.key == k
}

/// What a verb acts on: of a snapshot the targets that the selected row stands for, in
/// their order and each as often as it is there. Without a row nothing.
pub proof fn verbs_act_on_the_row(
    a: Seq<TargetView>,
    b: Seq<TargetView>,
    sel: Option<EntryView>,
    t: TargetView,
)
    ensures
        selection(a + b, sel) == selection(a, sel) + selection(b, sel),
        stands_for(sel, t) ==> selection(seq![t], sel) == seq![t],
        !stands_for(sel, t) ==> selection(seq![t], sel) == Seq::<TargetView>::empty(),
        selection(a, None) == Seq::<TargetView>::empty(),
    decreases a.len() + b.len(),
{
    assert(seq![t].drop_last() =~= Seq::<TargetView>::empty());
    reveal_with_fuel(selection, 2);
    if stands_for(sel, t) {
        assert(selection(seq![t], sel) =~= seq![t]);
    } else {
        assert(selection(seq![t], sel) =~= Seq::<TargetView>::empty());
    }
    if b.len() > 0 {
        verbs_act_on_the_row(a, b.drop_last(), sel, t);
        assert((a + b).drop_last() =~= a + b.drop_last());
        assert((a + b).last() == b.last());
        assert(selection(a + b, sel) =~= selection(a, sel) + selection(b, sel));
    } else {
        assert(a + b =~= a);
        assert(selection(b, sel) =~= Seq::<TargetView>::empty());
        assert(selection(a, sel) + selection(b, sel) =~= selection(a, sel));
        if a.len() > 0 {
            verbs_act_on_the_row(a.drop_last(), b, sel, t);
        }
    }
}

/// One target keeps the cursor whether its row stands alone or in a group, and a header
/// is only itself.
pub proof fn rows_of_one_target_are_one_selection(k: KeyView, l: KeyView, p: Seq<char>)
    ensures
        one_selection(EntryView::Member(k), EntryView::Target(k)),
        one_selection(EntryView::Target(k), EntryView::Target(l)) <==> k == l,
        one_selection(EntryView::Member(k), EntryView::Member(l)) <==> k == l,
        one_selection(EntryView::Group(p), EntryView::Group(p)),
        !one_selection(EntryView::Group(p), EntryView::Target(k)),
        !one_selection(EntryView::Member(k), EntryView::Group(p)),
        forall|q: Seq<char>| #[trigger]
            one_selection(EntryView::Group(p), EntryView::Group(q)) ==> p == q,
{
}

/// The target under the cursor is one of the snapshot with the key of the row; a header
/// is no single target, and no row is none.
pub proof fn the_cursor_is_on_one_target(targets: Seq<TargetView>, sel: Option<EntryView>)
    ensures
        under_cursor(targets, sel) matches Some(t) ==> targets.contains(t) && sel is Some
            && entry_key(sel->0) == Some(t.key),
        sel is None ==> under_cursor(targets, sel) is None,
        sel matches Some(EntryView::Group(_)) ==> under_cursor(targets, sel) is None,
        forall|k: KeyView|
            (sel == Some(EntryView::Member(k)) || sel == Some(EntryView::Target(k))) && (exists|
                i: int,
            |
                0 <= i < targets.len() && (#[trigger] targets[i]).key == k) ==> #[trigger] key_place(
                targets,
                k,
            ) is Some && under_cursor(targets, sel) is Some,
{
    assert forall|k: KeyView| (exists|i: int|
        0 <= i < targets.len() && (#[trigger] targets[i]).key == k) implies #[trigger] key_place(
        targets,
        k,
    ) is Some by {
        let hits = Seq::new(targets.len(), |i: int| targets[i].key == k);
        lemma_first_hit(hits);
        let i = choose|i: int| 0 <= i < targets.len() && (#[trigger] targets[i]).key == k;
        assert(hits[i]);
    }
    match sel {
        Some(e) => {
            match entry_key(e) {
                Some(k) => {
                    let hits = Seq::new(targets.len(), |i: int| targets[i].key == k);
                    lemma_first_hit(hits);
                    match key_place(targets, k) {
                        Some(i) => {
                            assert(hits[i]);
                            assert(targets.contains(targets[i]));
                        },
                        None => {},
                    }
                },
                None => {},
            }
        },
        None => {},
    }
}

/// What is acted on goes by the name of its project.
pub proof fn selections_go_by_their_project(targets: Seq<TargetView>, sel: Option<EntryView>)
    ensures
        sel matches Some(EntryView::Group(p)) ==> selection_name(targets, sel) == p,
        under_cursor(targets, sel) matches Some(t) ==> selection_name(targets, sel) == t.project,
        sel is None ==> selection_name(targets, sel).len() == 0,
{
}

// ------------------------------------------------------------- kill and restart

/// The plan starts the whole command of the target in its directory, once its ports are
/// free and its processes gone.
pub open spec fn plan_restarts(p: PlanView, t: TargetView) -> bool {
    &&& t.container is None
    &&& t.anchor_argv.len() > 0
    &&& p.project == t.project
    &&& p.argv == t.anchor_argv
    &&& p.cwd == t.cwd
    &&& p.ports == t.ports
    &&& p.pid_starts == t.pid_starts
}

/// Every plan of a restart is that of one target that is no container and whose command
/// line was captured, and each such target has one, in order.
pub proof fn plans_restart_what_was_chosen(
    a: Seq<TargetView>,
    b: Seq<TargetView>,
    t: TargetView,
)
    ensures
        plans_of(a + b) == plans_of(a) + plans_of(b),
        t.container is None && t.anchor_argv.len() > 0 ==> plans_of(seq![t]).len() == 1
            && plan_restarts(plans_of(seq![t])[0], t),
        t.container is Some || t.anchor_argv.len() == 0 ==> plans_of(seq![t]).len() == 0,
    decreases b.len(),
{
    assert(seq![t].drop_last() =~= Seq::<TargetView>::empty());
    reveal_with_fuel(plans_of, 2);
    if b.len() > 0 {
        plans_restart_what_was_chosen(a, b.drop_last(), t);
        assert((a + b).drop_last() =~= a + b.drop_last());
        assert((a + b).last() == b.last());
        assert(plans_of(a + b) =~= plans_of(a) + plans_of(b));
    } else {
        assert(a + b =~= a);
        assert(plans_of(a) + plans_of(b) =~= plans_of(a));
    }
}

proof fn lemma_plans(sel: Seq<TargetView>, j: int)
    requires
        0 <= j < plans_of(sel).len(),
    ensures
        exists|i: int| 0 <= i < sel.len() && plan_restarts(plans_of(sel)[j], #[trigger] sel[i]),
    decreases sel.len(),
{
    let d = sel.drop_last();
    let before = plans_of(d);
    if j < before.len() {
        lemma_plans(d, j);
        let i = choose|i: int| 0 <= i < d.len() && plan_restarts(before[j], #[trigger] d[i]);
        assert(sel[i] == d[i]);
        assert(plans_of(sel)[j] == before[j]);
    } else {
        assert(plan_restarts(plans_of(sel)[j], sel[sel.len() - 1]));
    }
}

/// Each plan of a restart from the view is that of a target which the selected row stands
/// for: its project, its whole captured command line, its directory, its ports and its
/// processes.
pub proof fn restarts_follow_the_row(targets: Seq<TargetView>, sel: Option<EntryView>, j: int)
    requires
        0 <= j < plans_of(selection(targets, sel)).len(),
    ensures
        exists|i: int|
            {
                &&& 0 <= i < targets.len()
                &&& stands_for(sel, #[trigger] targets[i])
                &&& plan_restarts(plans_of(selection(targets, sel))[j], targets[i])
            },
{
    let chosen = selection(targets, sel);
    lemma_plans(chosen, j);
    let i = choose|i: int|
        0 <= i < chosen.len() && plan_restarts(plans_of(chosen)[j], #[trigger] chosen[i]);
    assert(chosen.contains(chosen[i]));
    super::laws::verbs_take_the_whole_selection(targets, sel, chosen[i]);
    let k = choose|k: int| 0 <= k < targets.len() && targets[k] == chosen[i];
    assert(stands_for(sel, targets[k]));
}

/// The containers of some targets, in order, one for each target that is one.
pub proof fn containers_are_named(a: Seq<TargetView>, b: Seq<TargetView>, t: TargetView)
    ensures
        containers_of(a + b) == containers_of(a) + containers_of(b),
        t.container matches Some(c) ==> containers_of(seq![t]) == seq![c],
        t.container is None ==> containers_of(seq![t]).len() == 0,
    decreases b.len(),
{
    assert(seq![t].drop_last() =~= Seq::<TargetView>::empty());
    reveal_with_fuel(containers_of, 2);
    match t.container {
        Some(c) => {
            assert(containers_of(seq![t]) =~= seq![c]);
        },
        None => {},
    }
    if b.len() > 0 {
        containers_are_named(a, b.drop_last(), t);
        assert((a + b).drop_last() =~= a + b.drop_last());
        assert((a + b).last() == b.last());
        assert(containers_of(a + b) =~= containers_of(a) + containers_of(b));
    } else {
        assert(a + b =~= a);
        assert(containers_of(a) + containers_of(b) =~= containers_of(a));
    }
}

/// The keys of some targets are theirs, one each and in order.
pub proof fn keys_are_theirs(targets: Seq<TargetView>, i: int)
    requires
        0 <= i < targets.len(),
    ensures
        keys_of(targets).len() == targets.len(),
        keys_of(targets)[i] == targets[i].key,
{
}

/// Noting keys at a time: those keys have that time, and all others what they had.
pub proof fn noted_keys_have_the_time(
    m: Map<KeyView, u64>,
    keys: Seq<KeyView>,
    now: u64,
    k: KeyView,
)
    ensures
        keys.contains(k) ==> with_keys(m, keys, now).contains_key(k) && with_keys(
            m,
            keys,
            now,
        )[k] == now,
        !keys.contains(k) ==> (with_keys(m, keys, now).contains_key(k) <==> m.contains_key(k)) && (
        m.contains_key(k) ==> with_keys(m, keys, now)[k] == m[k]),
    decreases keys.len(),
{
    if keys.len() > 0 {
        let d = keys.drop_last();
        noted_keys_have_the_time(m, d, now, k);
        assert(keys =~= d + seq![keys.last()]);
        lemma_joined_contains(d, seq![keys.last()], k);
        assert(seq![keys.last()][0] == keys.last());
        if seq![keys.last()].contains(k) {
            assert(k == keys.last());
        }
    }
}

/// The message on a kill names what is killed and how many processes that is.
pub proof fn kills_are_told(label: Seq<char>, n: nat)
    ensures
        text::occurs(label, kill_begun(label, n)),
        text::occurs(text::decimal(n), kill_begun(label, n)),
        text::occurs(text::decimal(n), stopping(n)),
{
    let s = kill_begun(label, n);
    let tail = " processes) — SIGTERM sent, SIGKILL in 4s · u cancels the SIGKILL"@;
    let rest = " ("@ + text::decimal(n) + tail;
    assert(s =~= "killing "@ + label + rest);
    text::lemma_stands_between("killing "@, label, rest);
    text::lemma_stands_between("killing "@ + label + " ("@, text::decimal(n), tail);
    let end = stopping(n).skip(("stopping "@ + text::decimal(n)).len() as int);
    assert(stopping(n) =~= "stopping "@ + text::decimal(n) + end);
    text::lemma_stands_between("stopping "@, text::decimal(n), end);
}

/// While a kill can still be cancelled, undoing it cancels it and says whose it was; after
/// that there is nothing to undo. Either way no kill is pending.
pub proof fn undo_cancels_the_pending_kill(a: App, b: App, now: u64)
    requires
        undone(a, b, now),
    ensures
        b.pending_kill is None,
        a.can_undo(now) <==> a.pending_kill is Some && now < a.pending_kill->0.until,
        a.can_undo(now) ==> text::occurs(a.pending_kill->0.label@, opt_text(b.status)->0),
        !a.can_undo(now) ==> opt_text(b.status) == Some("nothing to undo"@),
        b.snapshot == a.snapshot && b.selected == a.selected && b.display == a.display && b.filter
            == a.filter && b.sort == a.sort && b.suppress_exit == a.suppress_exit,
{
    if a.can_undo(now) {
        text::lemma_stands_between(
            "cancelled force-kill for "@,
            a.pending_kill->0.label@,
            " — note: SIGTERM was already sent"@,
        );
    }
}

/// A row shows as dying exactly while its key is among those of the pending kill.
pub proof fn dying_rows_are_those_killed(a: App, key: KeyView, now: u64)
    ensures
        a.pending_kill is None ==> !a.dies(key),
        a.pending_kill matches Some(pk) ==> (a.dies(key) <==> exists|i: int|
            0 <= i < pk.keys@.len() && (#[trigger] pk.keys@[i])@ == key),
        a.kill_over(now) <==> a.pending_kill is Some && !a.can_undo(now),
{
    match a.pending_kill {
        Some(pk) => {
            let v = key_views(pk.keys@);
            if v.contains(key) {
                let i = choose|i: int| 0 <= i < v.len() && v[i] == key;
                assert(pk.keys@[i]@ == key);
            }
            if exists|i: int| 0 <= i < pk.keys@.len() && (#[trigger] pk.keys@[i])@ == key {
                let i = choose|i: int| 0 <= i < pk.keys@.len() && (#[trigger] pk.keys@[i])@ == key;
                assert(v[i] == key);
            }
        },
        None => {},
    }
}

// ------------------------------------------------------------ coming and going

/// A row counts as new exactly where its key was not in the snapshot before, and from then.
pub proof fn new_rows_are_noted(
    m: Map<KeyView, u64>,
    old_rows: Seq<TargetView>,
    new_rows: Seq<TargetView>,
    now: u64,
    k: KeyView,
)
    ensures
        ({
            let after = with_new(m, old_rows, new_rows, now);
            let fresh = (exists|i: int|
                0 <= i < new_rows.len() && (#[trigger] new_rows[i]).key == k) && !(exists|i: int|
                0 <= i < old_rows.len() && (#[trigger] old_rows[i]).key == k);
            &&& fresh ==> after.contains_key(k) && after[k] == now
            &&& !fresh ==> (after.contains_key(k) <==> m.contains_key(k))
            &&& !fresh && m.contains_key(k) ==> after[k] == m[k]
        }),
    decreases new_rows.len(),
{
    if new_rows.len() > 0 {
        let d = new_rows.drop_last();
        new_rows_are_noted(m, old_rows, d, now, k);
        let last = new_rows.len() - 1;
        if exists|i: int| 0 <= i < d.len() && (#[trigger] d[i]).key == k {
            let i = choose|i: int| 0 <= i < d.len() && (#[trigger] d[i]).key == k;
            assert(new_rows[i].key == k);
        }
        if exists|i: int| 0 <= i < new_rows.len() && (#[trigger] new_rows[i]).key == k {
            let i = choose|i: int| 0 <= i < new_rows.len() && (#[trigger] new_rows[i]).key == k;
            if i < last {
                assert(d[i].key == k);
            } else {
                assert(new_rows.last().key == k);
            }
        }
        assert(new_rows[last] == new_rows.last());
    }
}

/// A target that was there and had run for a minute is gone, and nobody here killed or
/// restarted it.
pub open spec fn is_lost(
    t: TargetView,
    new_rows: Seq<TargetView>,
    expected: Map<KeyView, u64>,
    unix: u64,
) -> bool {
    &&& forall|i: int| 0 <= i < new_rows.len() ==> (#[trigger] new_rows[i]).key != t.key
    &&& !expected.contains_key(t.key)
    &&& t.anchor.start_time > 0
    &&& unix >= t.anchor.start_time + 60
}

/// An exit is reported exactly where a target is lost, and the report names it: its project,
/// and its port or else its command.
pub proof fn losses_are_reported(
    old_rows: Seq<TargetView>,
    new_rows: Seq<TargetView>,
    expected: Map<KeyView, u64>,
    unix: u64,
)
    ensures
        crash_report(old_rows, new_rows, expected, unix) is Some <==> exists|i: int|
            0 <= i < old_rows.len() && is_lost(#[trigger] old_rows[i], new_rows, expected, unix),
        crash_report(old_rows, new_rows, expected, unix) matches Some(s) ==> exists|i: int|
            {
                &&& 0 <= i < old_rows.len()
                &&& is_lost(#[trigger] old_rows[i], new_rows, expected, unix)
                &&& text::occurs(old_rows[i].project, s)
                &&& old_rows[i].ports.len() > 0 ==> text::occurs(
                    text::decimal(old_rows[i].ports[0] as nat),
                    s,
                )
                &&& old_rows[i].ports.len() == 0 ==> text::occurs(old_rows[i].command_label, s)
            },
    decreases old_rows.len(),
{
    if old_rows.len() > 0 {
        let d = old_rows.drop_last();
        let t = old_rows.last();
        let last = old_rows.len() - 1;
        losses_are_reported(d, new_rows, expected, unix);
        assert(old_rows[last] == t);
        assert(crashed(t, new_rows, expected, unix) <==> is_lost(t, new_rows, expected, unix)) by {
            assert(has_key(new_rows, t.key) <==> !(forall|i: int|
                0 <= i < new_rows.len() ==> (#[trigger] new_rows[i]).key != t.key));
        }
        if crashed(t, new_rows, expected, unix) {
            let s = crash_text(t);
            let what = if t.ports.len() > 0 {
                ":"@ + text::decimal(t.ports[0] as nat)
            } else {
                t.command_label
            };
            let rest = " ("@ + what + ") exited unexpectedly"@;
            assert(s =~= "⚠ "@ + t.project + rest);
            text::lemma_stands_between("⚠ "@, t.project, rest);
            text::lemma_stands_between(
                "⚠ "@ + t.project + " ("@,
                what,
                ") exited unexpectedly"@,
            );
            if t.ports.len() > 0 {
                let p = text::decimal(t.ports[0] as nat);
                assert(s =~= ("⚠ "@ + t.project + " ("@ + ":"@) + p + ") exited unexpectedly"@);
                text::lemma_stands_between(
                    "⚠ "@ + t.project + " ("@ + ":"@,
                    p,
                    ") exited unexpectedly"@,
                );
            }
        } else {
            if crash_report(d, new_rows, expected, unix) is Some {
                let s = crash_report(d, new_rows, expected, unix)->0;
                let i = choose|i: int|
                    {
                        &&& 0 <= i < d.len()
                        &&& is_lost(#[trigger] d[i], new_rows, expected, unix)
                        &&& text::occurs(d[i].project, s)
                        &&& d[i].ports.len() > 0 ==> text::occurs(
                            text::decimal(d[i].ports[0] as nat),
                            s,
                        )
                        &&& d[i].ports.len() == 0 ==> text::occurs(d[i].command_label, s)
                    };
                assert(old_rows[i] == d[i]);
            }
            if exists|i: int|
                0 <= i < old_rows.len() && is_lost(
                    #[trigger] old_rows[i],
                    new_rows,
                    expected,
                    unix,
                ) {
                let i = choose|i: int|
                    0 <= i < old_rows.len() && is_lost(
                        #[trigger] old_rows[i],
                        new_rows,
                        expected,
                        unix,
                    );
                assert(d[i] == old_rows[i]);
            }
        }
    }
}

// --------------------------------------------------------------- passing of time

/// A message stands for four seconds, a new row flashes for a second and a half, and what
/// was killed or restarted here is expected to exit for twenty seconds.
pub proof fn times_run_out(a: App, m: Map<KeyView, u64>, k: KeyView, now: u64, ttl: u64)
    ensures
        a.status_expired(now) <==> a.status is Some && now > a.status_at + 4000,
        a.flashes(k, now) <==> a.appeared@.contains_key(k) && now < a.appeared@[k] + 1500,
        ttl > 0 ==> (younger(m, now, ttl).contains_key(k) <==> m.contains_key(k) && now < m[k]
            + ttl),
        younger(m, now, ttl).contains_key(k) ==> younger(m, now, ttl)[k] == m[k],
        super::state::FLASH == 1500,
        super::state::SUPPRESS_TTL == 20000,
{
}

/// The rows are held exactly while the sort is by a figure that moves, within two seconds
/// of the last input, and where something is shown.
pub proof fn rows_are_held_after_input(a: App, now: u64)
    ensures
        a.frozen(now) <==> a.sort != SortMode::Port && now < a.last_input + 2000
            && a.display@.len() > 0,
{
}

// ---------------------------------------------------------------------- cursor

/// The cursor is on the row `i`: the selection is that row, and no row above it.
pub open spec fn cursor_at(a: App, i: int) -> bool {
    &&& 0 <= i < a.display@.len()
    &&& a.selected is Some
    &&& one_selection(a.display@[i]@, a.selected->0@)
    &&& forall|j: int| 0 <= j < i ==> !one_selection((#[trigger] a.display@[j])@, a.selected->0@)
}

proof fn lemma_cursor_at(a: App, i: int)
    requires
        cursor_at(a, i),
    ensures
        selection_place(entry_views(a.display@), opt_entry(a.selected)) == Some(i),
{
    let rows = entry_views(a.display@);
    let hits = selection_hits(rows, a.selected->0@);
    assert(hits[i]);
    assert forall|j: int| 0 <= j < i implies !#[trigger] hits[j] by {
        assert(!one_selection(a.display@[j]@, a.selected->0@));
    }
    lemma_is_first_hit(hits, i);
}

/// Down moves the cursor to the next row and up to the one above, and both go round at the
/// ends; nothing but the cursor and the time of the input changes.
pub proof fn moving_goes_row_by_row(a: App, b: App, i: int, now: u64)
    requires
        cursor_at(a, i),
    ensures
        moved(a, b, 1, now) ==> {
            &&& i + 1 < a.display@.len() ==> b.selected == Some(a.display@[i + 1]) && b.last_index
                == i + 1
            &&& i + 1 == a.display@.len() ==> b.selected == Some(a.display@[0]) && b.last_index == 0
        },
        moved(a, b, -1, now) ==> {
            &&& i > 0 ==> b.selected == Some(a.display@[i - 1]) && b.last_index == i - 1
            &&& i == 0 ==> b.selected == Some(a.display@[a.display@.len() - 1]) && b.last_index
                == a.display@.len() - 1
        },
        moved(a, b, 1, now) || moved(a, b, -1, now) ==> b.last_input == now && b.display
            == a.display && b.filter == a.filter && b.sort == a.sort && b.snapshot == a.snapshot
            && b.collapsed == a.collapsed && b.pending_kill == a.pending_kill && b.log == a.log,
{
    lemma_cursor_at(a, i);
    let n = a.display@.len() as int;
    assert(entry_views(a.display@).len() == n);
    assert((i + 1) % n == (if i + 1 < n { i + 1 } else { 0 })) by (nonlinear_arith)
        requires
            0 <= i < n,
    ;
    assert((i - 1) % n == (if i > 0 { i - 1 } else { n - 1 })) by (nonlinear_arith)
        requires
            0 <= i < n,
    ;
}

/// The jumps go to the first and to the last row.
pub proof fn jumps_go_to_the_ends(a: App, now: u64)
    ensures
        a.display@.len() > 0 ==> topped(a, now).selected == Some(a.display@[0]) && topped(
            a,
            now,
        ).last_index == 0,
        a.display@.len() > 0 ==> bottomed(a, now).selected == Some(
            a.display@[a.display@.len() - 1],
        ) && bottomed(a, now).last_index == a.display@.len() - 1,
        a.display@.len() == 0 ==> topped(a, now).selected is None && bottomed(
            a,
            now,
        ).selected is None,
        topped(a, now).display == a.display && bottomed(a, now).display == a.display,
        topped(a, now).last_input == now && bottomed(a, now).last_input == now,
{
    assert(a.display.len() == a.display@.len());
}

/// Sorting changes the sort and lets the rows move at once; the cursor stays on its target.
pub proof fn sorting_keeps_the_selection(a: App, m: SortMode, now: u64)
    ensures
        sorted(a, m).sort == m,
        sorted(a, m).selected == a.selected,
        sorted(a, m).filter == a.filter && sorted(a, m).snapshot == a.snapshot,
        a.last_input >= 2000 && now >= a.last_input ==> !sorted(a, m).frozen(now),
{
}

/// Folding a header turns its project over and leaves every other as it was; on another row
/// nothing happens.
pub proof fn folding_turns_one_project_over(list: Seq<Seq<char>>, s: Seq<char>, x: Seq<char>)
    ensures
        toggled(list, s).contains(s) <==> !list.contains(s),
        x != s ==> (toggled(list, s).contains(x) <==> list.contains(x)),
{
    lemma_without(list, s, s);
    lemma_without(list, s, x);
    assert(list.push(s) =~= list + seq![s]);
    lemma_joined_contains(list, seq![s], s);
    lemma_joined_contains(list, seq![s], x);
    assert(seq![s][0] == s);
}

proof fn lemma_without(list: Seq<Seq<char>>, s: Seq<char>, x: Seq<char>)
    ensures
        without(list, s).contains(x) <==> list.contains(x) && x != s,
    decreases list.len(),
{
    if list.len() > 0 {
        let d = list.drop_last();
        let last = list.last();
        lemma_without(d, s, x);
        assert(list =~= d + seq![last]);
        lemma_joined_contains(d, seq![last], x);
        assert(seq![last][0] == last);
        if last != s {
            assert(without(list, s) =~= without(d, s) + seq![last]);
            lemma_joined_contains(without(d, s), seq![last], x);
        }
    }
}

/// Enter on a header folds that header's project, and on another row does nothing.
pub proof fn folding_acts_on_headers(a: App, b: App)
    requires
        folded(a, b),
    ensures
        a.selected matches Some(Entry::Group(p)) ==> text::texts(b.collapsed@) == toggled(
            text::texts(a.collapsed@),
            p@,
        ) && b.selected == a.selected && b.filter == a.filter,
        !(a.selected matches Some(Entry::Group(_))) ==> b == a,
{
}

// ------------------------------------------------------------------------ keys

/// Typing into the filter adds at its end, and deleting takes the last character away
/// again; Enter keeps what was typed and Escape drops it.
pub proof fn typing_edits_the_filter(a: App, b: App, c: App, x: char, now: u64, later: u64)
    requires
        a.filter_active,
        !a.show_help,
    ensures
        filter_keyed(a, b, Key::Char(x), false, now) ==> b.filter@ == a.filter@ + seq![x]
            && b.filter_active,
        filter_keyed(a, b, Key::Char(x), false, now) && filter_keyed(
            b,
            c,
            Key::Backspace,
            false,
            later,
        ) ==> c.filter@ == a.filter@,
        filter_keyed(a, b, Key::Enter, false, now) ==> b.filter == a.filter && !b.filter_active,
        filter_keyed(a, b, Key::Esc, false, now) ==> b.filter@.len() == 0 && !b.filter_active,
        filter_keyed(a, b, Key::Char(x), true, now) ==> b == a,
{
    assert(a.filter@.push(x).drop_last() =~= a.filter@);
    assert(a.filter@.push(x) =~= a.filter@ + seq![x]);
}

/// Control-C quits, whatever is open; any other key first closes the help.
pub proof fn control_c_always_quits(a: App, b: App, key: Key, ctrl: bool, now: u64, act: KeyAct)
    requires
        keyed(a, b, key, ctrl, now, act),
    ensures
        ctrl && key == Key::Char('c') ==> act == KeyAct::Quit,
        !(ctrl && key == Key::Char('c')) && a.show_help ==> !b.show_help && act == KeyAct::Stay
            && b.filter == a.filter && b.selected == a.selected,
        !(ctrl && key == Key::Char('c')) && !a.show_help && a.filter_active ==> act == KeyAct::Stay
            && b.pending_kill == a.pending_kill && b.selected == a.selected,
{
}

/// Each verb has its key, and asking for it changes nothing yet.
pub proof fn verbs_have_their_keys(a: App, b: App, c: char, now: u64, act: KeyAct)
    requires
        !a.show_help,
        !a.filter_active,
        keyed(a, b, Key::Char(c), false, now, act),
    ensures
        act == KeyAct::Quit <==> c == 'q',
        act == KeyAct::Kill <==> c == 'K',
        act == KeyAct::Restart <==> c == 'R',
        act == KeyAct::Copy <==> c == 'Y',
        act == KeyAct::Open <==> c == 'O',
        act == KeyAct::Tail <==> c == 'T',
        act == KeyAct::CancelKill <==> c == 'u' && a.can_undo(now),
        act != KeyAct::StopTail,
        act != KeyAct::Stay && act != KeyAct::CancelKill ==> b == a,
{
}

/// Each key of the view does what it is for: letters and arrows move alike, the jumps, the
/// sort, the filter, the panes and the help have one each.
pub proof fn view_keys_do_what_they_say(a: App, b: App, now: u64, act: KeyAct)
    requires
        !a.show_help,
        !a.filter_active,
    ensures
        keyed(a, b, Key::Down, false, now, act) <==> keyed(a, b, Key::Char('j'), false, now, act),
        keyed(a, b, Key::Up, false, now, act) <==> keyed(a, b, Key::Char('k'), false, now, act),
        keyed(a, b, Key::Char('j'), false, now, act) ==> moved(a, b, 1, now),
        keyed(a, b, Key::Char('k'), false, now, act) ==> moved(a, b, -1, now),
        keyed(a, b, Key::Char('g'), false, now, act) ==> b == topped(a, now),
        keyed(a, b, Key::Char('G'), false, now, act) ==> b == bottomed(a, now),
        keyed(a, b, Key::Char('/'), false, now, act) ==> b.filter_active && b.filter == a.filter
            && b.selected == a.selected,
        keyed(a, b, Key::Char('s'), false, now, act) ==> b.sort == a.sort.following(),
        keyed(a, b, Key::Char('i'), false, now, act) ==> b.inspect == !a.inspect && b.selected
            == a.selected,
        keyed(a, b, Key::Char('?'), false, now, act) ==> b.show_help,
        keyed(a, b, Key::Char('u'), false, now, act) ==> undone(a, b, now),
        keyed(a, b, Key::Char('['), false, now, act) ==> b == scrolled_up(a, 5),
        keyed(a, b, Key::Char(']'), false, now, act) ==> b == scrolled_down(a, 5),
        keyed(a, b, Key::Char('+'), false, now, act) ==> b == grown(a),
        keyed(a, b, Key::Char('='), false, now, act) ==> b == grown(a),
        keyed(a, b, Key::Char('-'), false, now, act) ==> b == shrunk(a),
        keyed(a, b, Key::Enter, false, now, act) ==> folded(a, b),
        keyed(a, b, Key::Esc, false, now, act) ==> escaped(a, b, now) && (act == KeyAct::StopTail
            <==> a.log is Some),
{
}

/// Escape closes one thing at a time: the log pane, then the inspector, then the filter.
pub proof fn escape_closes_one_thing(a: App, b: App, now: u64)
    requires
        escaped(a, b, now),
    ensures
        a.log is Some ==> b.log is None && b.inspect == a.inspect && b.filter == a.filter,
        a.log is None && a.inspect ==> !b.inspect && b.filter == a.filter,
        a.log is None && !a.inspect ==> b.filter@.len() == 0,
        b.pending_kill == a.pending_kill && b.selected == a.selected && b.sort == a.sort,
{
}

// ----------------------------------------------------------------------- mouse

/// A click on a row of the table puts the cursor on the row that is shown there: below the
/// border and the header, counted from the first row that is shown.
pub proof fn clicks_select_the_row(a: App, b: App, x: u16, y: u16, now: u64, idx: int)
    requires
        !a.show_help,
        inside(a.table_rect, x, y),
        a.table_rect.y + 2 <= y,
        y + 1 < a.table_rect.y + a.table_rect.height,
        idx == y - a.table_rect.y - 2 + a.table_offset,
        left_clicked(a, b, x, y, now),
    ensures
        idx >= a.display@.len() ==> b == a,
        idx < a.display@.len() && !(a.selected is Some && one_selection(
            a.selected->0@,
            a.display@[idx]@,
        )) ==> b.selected == Some(a.display@[idx]) && b.collapsed == a.collapsed && b.last_input
            == now,
        idx < a.display@.len() && a.selected is Some && one_selection(
            a.selected->0@,
            a.display@[idx]@,
        ) ==> b.selected == a.selected,
        idx < a.display@.len() && a.selected == Some(a.display@[idx]) && a.display@[idx]@ is Group
            ==> folded(a, b),
{
}

/// A click outside the table or on its border does nothing but close the help; one on the
/// header sorts by the column under it.
pub proof fn clicks_elsewhere(a: App, b: App, x: u16, y: u16, now: u64)
    requires
        left_clicked(a, b, x, y, now),
    ensures
        a.show_help ==> !b.show_help && b.selected == a.selected && b.sort == a.sort,
        !a.show_help && !inside(a.table_rect, x, y) ==> b == a,
        !a.show_help && y == a.table_rect.y ==> b == a,
        !a.show_help && y != a.table_rect.y + 1 && y + 1 == a.table_rect.y + a.table_rect.height
            ==> b == a,
        !a.show_help && inside(a.table_rect, x, y) && y == a.table_rect.y + 1 && header_mode(
            a.header_hits@,
            x,
        ) is None ==> b == a,
        !a.show_help && inside(a.table_rect, x, y) && y == a.table_rect.y + 1 && header_mode(
            a.header_hits@,
            x,
        ) is Some ==> b.sort == header_mode(a.header_hits@, x)->0,
{
}

/// The column of a header cell sorts by its mode: the first cell that holds it.
pub proof fn header_cells_sort(hits: Seq<(u16, u16, SortMode)>, x: u16, k: int)
    ensures
        0 <= k < hits.len() && hits[k].0 <= x < hits[k].1 && (forall|j: int|
            0 <= j < k ==> !((#[trigger] hits[j]).0 <= x < hits[j].1)) ==> header_mode(hits, x)
            == Some(hits[k].2),
        (forall|j: int| 0 <= j < hits.len() ==> !((#[trigger] hits[j]).0 <= x < hits[j].1))
            ==> header_mode(hits, x) is None,
    decreases hits.len(),
{
    if hits.len() > 0 {
        let d = hits.drop_last();
        let last = hits.len() - 1;
        header_cells_sort(d, x, k);
        if forall|j: int| 0 <= j < hits.len() ==> !((#[trigger] hits[j]).0 <= x < hits[j].1) {
            assert forall|j: int| 0 <= j < d.len() implies !((#[trigger] d[j]).0 <= x
                < d[j].1) by {
                assert(d[j] == hits[j]);
            }
            assert(hits[last] == hits.last());
        }
        if 0 <= k < hits.len() && hits[k].0 <= x < hits[k].1 && (forall|j: int|
            0 <= j < k ==> !((#[trigger] hits[j]).0 <= x < hits[j].1)) {
            assert forall|j: int| 0 <= j < d.len() && j < k implies !((#[trigger] d[j]).0 <= x
                < d[j].1) by {
                assert(d[j] == hits[j]);
            }
            if k < last {
                assert(d[k] == hits[k]);
            } else {
                assert(forall|j: int|
                    0 <= j < d.len() ==> !((#[trigger] d[j]).0 <= x < d[j].1));
            }
        }
    }
}

/// The wheel moves the cursor by a row, and over the log pane scrolls the log by three
/// lines.
pub proof fn the_wheel_moves_or_scrolls(a: App, b: App, ev: MouseEvent, now: u64)
    requires
        moused(a, b, ev, now),
    ensures
        ev.kind == MouseKind::ScrollUp && (a.log_rect matches Some(r) && inside(
            r,
            ev.column,
            ev.row,
        )) ==> b == scrolled_up(a, 3),
        ev.kind == MouseKind::ScrollDown && (a.log_rect matches Some(r) && inside(
            r,
            ev.column,
            ev.row,
        )) ==> b == scrolled_down(a, 3),
        ev.kind == MouseKind::ScrollUp && !(a.log_rect matches Some(r) && inside(
            r,
            ev.column,
            ev.row,
        )) ==> moved(a, b, -1, now),
        ev.kind == MouseKind::ScrollDown && !(a.log_rect matches Some(r) && inside(
            r,
            ev.column,
            ev.row,
        )) ==> moved(a, b, 1, now),
        ev.kind == MouseKind::LeftDown ==> left_clicked(a, b, ev.column, ev.row, now),
        ev.kind == MouseKind::Other ==> b == a,
{
}

// ------------------------------------------------------------------------- log

/// The first line that a pane of `h` lines shows.
pub open spec fn top_line(l: LogView, h: nat) -> int {
    match l.scroll {
        Some(s) => s as int,
        None => if l.lines@.len() >= h {
            l.lines@.len() - h
        } else {
            0
        },
    }
}

/// Scrolling up pins the pane so many lines further up, at most to the first; scrolling
/// down goes so many lines down, and at the end follows it again.
pub proof fn scrolling_moves_the_window(a: App, n: int)
    requires
        a.log is Some,
        n >= 0,
        top_line(a.log->0, a.visible_lines()) + n <= usize::MAX,
    ensures
        ({
            let h = a.visible_lines();
            let top = top_line(a.log->0, h);
            let up = scrolled_up(a, n).log->0;
            let down = scrolled_down(a, n).log->0;
            &&& up.lines == a.log->0.lines && down.lines == a.log->0.lines
            &&& up.scroll is Some
            &&& top_line(up, h) == (if top >= n { top - n } else { 0 })
            &&& down.scroll is None <==> top + n + h >= a.log->0.lines@.len()
            &&& down.scroll is Some ==> top_line(down, h) == top + n
            &&& scrolled_up(a, n).selected == a.selected && scrolled_down(a, n).selected
                == a.selected
        }),
{
}

/// The log pane grows and shrinks by three lines, between five and thirty, and only while
/// it is open.
pub proof fn the_log_pane_keeps_a_size(a: App)
    ensures
        a.log is None ==> grown(a) == a && shrunk(a) == a,
        a.log is Some ==> {
            &&& grown(a).log_height <= 30 && shrunk(a).log_height >= 5
            &&& a.log_height + 3 <= 30 ==> grown(a).log_height == a.log_height + 3
            &&& a.log_height >= 8 ==> shrunk(a).log_height == a.log_height - 3
            &&& grown(a).log == a.log && shrunk(a).log == a.log
        },
        5 <= a.log_height <= 27 && a.log is Some ==> shrunk(grown(a)).log_height == a.log_height,
        a.log_height >= 2 ==> a.visible_lines() + 2 == a.log_height,
{
}

/// Tailing asks for the log of exactly the target under the cursor: a container by its
/// name, any other by its processes, directory and project; a second time it closes the
/// pane.
pub proof fn tails_follow_the_cursor(a: App, b: App, act: TailAct, now: u64)
    requires
        tail_begun(a, b, act, now),
    ensures
        a.log is Some ==> act is StopTail && b.log is None,
        a.log is None && under_cursor(a.targets(), opt_entry(a.selected)) is None ==> act is Nothing
            && b.log is None,
        a.log is None && under_cursor(a.targets(), opt_entry(a.selected)) is Some ==> {
            let t = under_cursor(a.targets(), opt_entry(a.selected))->0;
            &&& t.container matches Some(c) ==> {
                &&& act matches TailAct::FollowContainer(d) && d@ == c
                &&& b.log is Some && text::occurs(c, b.log->0.title@)
            }
            &&& t.container is None && !a.log_pending ==> {
                &&& act matches TailAct::Search { pids, cwd, project } && pids@ == t.pids && cwd@
                    == t.cwd && project@ == t.project
                &&& b.log_pending && b.log is None
                &&& text::occurs(t.project, opt_text(b.status)->0)
            }
            &&& t.container is None && a.log_pending ==> act is Nothing && b == a
        },
{
    if a.log is None && under_cursor(a.targets(), opt_entry(a.selected)) is Some {
        let t = under_cursor(a.targets(), opt_entry(a.selected))->0;
        match t.container {
            Some(c) => {
                text::lemma_stands_between("docker logs "@, c, Seq::empty());
                assert("docker logs "@ + c + Seq::<char>::empty() =~= "docker logs "@ + c);
            },
            None => {
                text::lemma_stands_between("looking for "@, t.project, " logs…"@);
            },
        }
    }
}

/// A search that found a log opens an empty pane that follows it under the log's name; one
/// that found none says so and names the project; a pane that is already open stays.
pub proof fn found_logs_are_opened(
    a: App,
    b: App,
    project: Seq<char>,
    path: Option<Seq<char>>,
    home: Option<Seq<char>>,
    now: u64,
)
    requires
        log_found(a, b, project, path, home, now),
    ensures
        !b.log_pending,
        a.log is Some ==> b.log == a.log,
        a.log is None && path is None ==> b.log is None && text::occurs(
            project,
            opt_text(b.status)->0,
        ),
        a.log is None ==> (path matches Some(p) ==> b.log is Some && b.log->0.lines@.len() == 0
            && b.log->0.scroll is None && (home is None ==> b.log->0.title@ == p)),
{
    text::lemma_stands_between(
        "no log file found for "@,
        project,
        " — logs may go to stdout (R restarts with capture)"@,
    );
}

// ---------------------------------------------------------------------- requests

/// Some target that the selected row stands for has the property.
pub open spec fn row_has(a: App, f: spec_fn(TargetView) -> bool) -> bool {
    exists|i: int|
        0 <= i < a.targets().len() && stands_for(
            opt_entry(a.selected),
            #[trigger] a.targets()[i],
        ) && f(a.targets()[i])
}

proof fn lemma_row_has(a: App, f: spec_fn(TargetView) -> bool)
    ensures
        row_has(a, f) <==> exists|i: int|
            0 <= i < acted(a).len() && f(#[trigger] acted(a)[i]),
{
    let sel = opt_entry(a.selected);
    let all = a.targets();
    let s = acted(a);
    if row_has(a, f) {
        let i = choose|i: int|
            0 <= i < all.len() && stands_for(sel, #[trigger] all[i]) && f(all[i]);
        assert(all.contains(all[i]));
        super::laws::verbs_take_the_whole_selection(all, sel, all[i]);
        assert(s.contains(all[i]));
        let k = choose|k: int| 0 <= k < s.len() && s[k] == all[i];
        assert(f(s[k]));
    }
    if exists|i: int| 0 <= i < s.len() && f(#[trigger] s[i]) {
        let i = choose|i: int| 0 <= i < s.len() && f(#[trigger] s[i]);
        assert(s.contains(s[i]));
        super::laws::verbs_take_the_whole_selection(all, sel, s[i]);
        let k = choose|k: int| 0 <= k < all.len() && all[k] == s[i];
        assert(stands_for(sel, all[k]) && f(all[k]));
    }
}

proof fn lemma_containers(sel: Seq<TargetView>, c: Seq<char>)
    ensures
        containers_of(sel).contains(c) <==> exists|i: int|
            0 <= i < sel.len() && (#[trigger] sel[i]).container == Some(c),
    decreases sel.len(),
{
    if sel.len() > 0 {
        let d = sel.drop_last();
        let t = sel.last();
        lemma_containers(d, c);
        let before = containers_of(d);
        assert(sel[sel.len() - 1] == t);
        if t.container is Some {
            assert(containers_of(sel) =~= before + seq![t.container->0]);
            lemma_joined_contains(before, seq![t.container->0], c);
            assert(seq![t.container->0][0] == t.container->0);
        }
        if before.contains(c) {
            let i = choose|i: int| 0 <= i < d.len() && (#[trigger] d[i]).container == Some(c);
            assert(sel[i] == d[i]);
        }
        if exists|i: int| 0 <= i < sel.len() && (#[trigger] sel[i]).container == Some(c) {
            let i = choose|i: int| 0 <= i < sel.len() && (#[trigger] sel[i]).container == Some(c);
            if i < d.len() {
                assert(d[i] == sel[i]);
            }
        }
    }
}

/// A kill asks for exactly the captured processes and the containers of what the selected
/// row stands for, notes that all of it will end, and goes by its project's name; with
/// nothing to kill it only says so.
pub proof fn kills_ask_for_the_row(
    a: App,
    b: App,
    r: Option<KillRequest>,
    now: u64,
    ps: PidStart,
    c: Seq<char>,
    i: int,
)
    requires
        kill_asked(a, b, r, now),
    ensures
        r matches Some(q) ==> {
            &&& q.pid_starts@.contains(ps) <==> row_has(
                a,
                |t: TargetView| t.container is None && t.pid_starts.contains(ps),
            )
            &&& text::texts(q.containers@).contains(c) <==> row_has(
                a,
                |t: TargetView| t.container == Some(c),
            )
            &&& q.label@ == selection_name(a.targets(), opt_entry(a.selected))
            &&& 0 <= i < a.targets().len() && stands_for(opt_entry(a.selected), a.targets()[i])
                ==> b.suppress_exit@.contains_key(a.targets()[i].key)
                && b.suppress_exit@[a.targets()[i].key] == now
        },
        r is None ==> !row_has(
            a,
            |t: TargetView| t.container is None && t.pid_starts.contains(ps),
        ) && !row_has(a, |t: TargetView| t.container == Some(c)) && b.suppress_exit
            == a.suppress_exit,
        b.pending_kill == a.pending_kill && b.selected == a.selected && b.snapshot == a.snapshot,
{
    let sel = acted(a);
    let f = |t: TargetView| t.container is None && t.pid_starts.contains(ps);
    let g = |t: TargetView| t.container == Some(c);
    lemma_row_has(a, f);
    lemma_row_has(a, g);
    crate::cli_laws::signals_reach_chosen_processes(sel, ps);
    lemma_containers(sel, c);
    assert((exists|k: int| 0 <= k < sel.len() && f(#[trigger] sel[k])) <==> (exists|k: int|
        0 <= k < sel.len() && (#[trigger] sel[k]).container is None && sel[k].pid_starts.contains(
            ps,
        )));
    assert((exists|k: int| 0 <= k < sel.len() && g(#[trigger] sel[k])) <==> (exists|k: int|
        0 <= k < sel.len() && (#[trigger] sel[k]).container == Some(c)));
    if 0 <= i < a.targets().len() && stands_for(opt_entry(a.selected), a.targets()[i]) {
        let t = a.targets()[i];
        assert(a.targets().contains(t));
        super::laws::verbs_take_the_whole_selection(a.targets(), opt_entry(a.selected), t);
        let k = choose|k: int| 0 <= k < sel.len() && sel[k] == t;
        assert(keys_of(sel)[k] == t.key);
        noted_keys_have_the_time(a.suppress_exit@, keys_of(sel), now, t.key);
    }
}

/// Once the first signals are out a kill can be cancelled for four seconds and its rows
/// show as dying; one that was refused says why and leaves no kill pending that was not.
pub proof fn kills_can_be_cancelled_for_four_seconds(
    a: App,
    b: App,
    request: KillRequest,
    refused: Option<Seq<char>>,
    now: u64,
)
    requires
        kill_noted(a, b, request, refused, now),
        now <= u64::MAX - 4000,
    ensures
        refused is None ==> {
            &&& b.pending_kill is Some
            &&& b.pending_kill->0.until == now + 4000
            &&& b.can_undo(now)
            &&& b.can_undo((now + 3999) as u64)
            &&& !b.can_undo((now + 4000) as u64)
            &&& forall|k: int|
                0 <= k < request.keys@.len() ==> b.dies((#[trigger] request.keys@[k])@)
            &&& text::occurs(request.label@, opt_text(b.status)->0)
        },
        refused matches Some(e) ==> b.pending_kill == a.pending_kill && text::occurs(
            e,
            opt_text(b.status)->0,
        ) && text::occurs(request.label@, opt_text(b.status)->0),
{
    match refused {
        Some(e) => {
            let s = "kill "@ + request.label@ + ": "@ + e;
            assert(s =~= ("kill "@ + request.label@ + ": "@) + e + Seq::<char>::empty());
            text::lemma_stands_between("kill "@ + request.label@ + ": "@, e, Seq::empty());
            assert(s =~= "kill "@ + request.label@ + (": "@ + e));
            text::lemma_stands_between("kill "@, request.label@, ": "@ + e);
        },
        None => {
            kills_are_told(request.label@, request.pid_starts@.len());
            assert forall|k: int| 0 <= k < request.keys@.len() implies b.dies(
                (#[trigger] request.keys@[k])@,
            ) by {
                dying_rows_are_those_killed(b, request.keys@[k]@, now);
            }
        },
    }
}

/// A restart asks for the plans and the containers of what the selected row stands for,
/// and goes by its project's name; with nothing to restart it says so.
pub proof fn restarts_ask_for_the_row(
    a: App,
    b: App,
    r: Option<RestartRequest>,
    now: u64,
    c: Seq<char>,
    j: int,
)
    requires
        restart_asked(a, b, r, now),
    ensures
        r matches Some(q) ==> {
            &&& text::texts(q.containers@).contains(c) <==> row_has(
                a,
                |t: TargetView| t.container == Some(c),
            )
            &&& 0 <= j < q.plans@.len() ==> row_has(
                a,
                |t: TargetView| plan_restarts(plan_view(q.plans@[j]), t),
            )
            &&& text::occurs(
                selection_name(a.targets(), opt_entry(a.selected)),
                opt_text(b.status)->0,
            )
        },
        r is None ==> !row_has(a, |t: TargetView| t.container == Some(c)) && !row_has(
            a,
            |t: TargetView| t.container is None && t.anchor_argv.len() > 0,
        ) && b.suppress_exit == a.suppress_exit,
{
    let sel = acted(a);
    let name = selection_name(a.targets(), opt_entry(a.selected));
    let g = |t: TargetView| t.container == Some(c);
    lemma_row_has(a, g);
    lemma_containers(sel, c);
    assert((exists|k: int| 0 <= k < sel.len() && g(#[trigger] sel[k])) <==> (exists|k: int|
        0 <= k < sel.len() && (#[trigger] sel[k]).container == Some(c)));
    match r {
        Some(q) => {
            text::lemma_stands_between("restarting "@, name, "…"@);
            if 0 <= j < q.plans@.len() {
                assert(plan_views(q.plans@)[j] == plan_view(q.plans@[j]));
                restarts_follow_the_row(a.targets(), opt_entry(a.selected), j);
            }
        },
        None => {
            let h = |t: TargetView| t.container is None && t.anchor_argv.len() > 0;
            lemma_row_has(a, h);
            if exists|k: int| 0 <= k < sel.len() && h(#[trigger] sel[k]) {
                let k = choose|k: int| 0 <= k < sel.len() && h(#[trigger] sel[k]);
                let x = sel.take(k);
                let y = sel.skip(k + 1);
                assert(sel =~= x + seq![sel[k]] + y);
                plans_restart_what_was_chosen(x + seq![sel[k]], y, sel[k]);
                plans_restart_what_was_chosen(x, seq![sel[k]], sel[k]);
            }
        },
    }
}

/// What is copied or opened is the URL of the target under the cursor, and only a web
/// address is ever opened.
pub proof fn urls_are_those_under_the_cursor(
    a: App,
    b: App,
    r: Option<String>,
    now: u64,
)
    ensures
        copy_asked(a, b, r, now) ==> {
            let t = under_cursor(a.targets(), opt_entry(a.selected));
            &&& r is Some <==> t is Some && t->0.url is Some
            &&& r matches Some(u) ==> u@ == t->0.url->0.value && b == a
        },
        open_asked(a, b, r, now) ==> {
            let t = under_cursor(a.targets(), opt_entry(a.selected));
            &&& r is Some <==> t is Some && t->0.url is Some && (t->0.url->0.scheme is Http
                || t->0.url->0.scheme is Https)
            &&& r matches Some(u) ==> u@ == t->0.url->0.value && text::occurs(
                u@,
                opt_text(b.status)->0,
            )
        },
{
    if open_asked(a, b, r, now) {
        match r {
            Some(u) => {
                assert("opening "@ + u@ + Seq::<char>::empty() =~= "opening "@ + u@);
                text::lemma_stands_between("opening "@, u@, Seq::empty());
            },
            None => {},
        }
    }
}

/// A snapshot replaces the one before and brings its warning along. The first one makes
/// nothing flash and reports nothing; a later one makes what is new flash, and reports what
/// was lost.
pub proof fn snapshots_are_taken_in(
    a: App,
    b: App,
    snap: std::sync::Arc<crate::model::Snapshot>,
    now: u64,
    unix: u64,
    k: KeyView,
)
    requires
        applied(a, b, snap, now, unix),
    ensures
        b.snapshot == snap,
        opt_text(b.data_warning) == opt_text(snap.error),
        a.snapshot.seq == 0 ==> b.appeared@ == a.appeared@ && b.status == a.status,
        a.snapshot.seq > 0 && (exists|i: int|
            0 <= i < b.targets().len() && (#[trigger] b.targets()[i]).key == k) && !(exists|i: int|
            0 <= i < a.targets().len() && (#[trigger] a.targets()[i]).key == k)
            ==> b.appeared@.contains_key(k) && b.appeared@[k] == now,
        a.snapshot.seq > 0 && !(exists|i: int|
            0 <= i < a.targets().len() && is_lost(
                #[trigger] a.targets()[i],
                b.targets(),
                a.suppress_exit@,
                unix,
            )) ==> b.status == a.status,
        a.snapshot.seq > 0 && (exists|i: int|
            0 <= i < a.targets().len() && is_lost(
                #[trigger] a.targets()[i],
                b.targets(),
                a.suppress_exit@,
                unix,
            )) ==> exists|i: int|
            {
                &&& 0 <= i < a.targets().len()
                &&& is_lost(#[trigger] a.targets()[i], b.targets(), a.suppress_exit@, unix)
                &&& text::occurs(a.targets()[i].project, opt_text(b.status)->0)
            },
        b.selected == a.selected && b.filter == a.filter && b.pending_kill == a.pending_kill
            && b.suppress_exit == a.suppress_exit && b.collapsed == a.collapsed,
{
    new_rows_are_noted(a.appeared@, a.targets(), b.targets(), now, k);
    losses_are_reported(a.targets(), b.targets(), a.suppress_exit@, unix);
}

/// Time ends a message after four seconds, a pending kill when it can no longer be
/// cancelled, and what was noted of keys when it is old; nothing else changes.
pub proof fn time_ends_what_is_old(a: App, b: App, now: u64, k: KeyView)
    requires
        ticked(a, b, now),
    ensures
        b.status is Some <==> a.status is Some && now <= a.status_at + 4000,
        b.status is Some ==> b.status == a.status,
        b.pending_kill is Some <==> a.pending_kill is Some && now < a.pending_kill->0.until,
        b.pending_kill is Some ==> b.pending_kill == a.pending_kill,
        b.appeared@.contains_key(k) <==> a.appeared@.contains_key(k) && now < a.appeared@[k] + 1500,
        b.suppress_exit@.contains_key(k) <==> a.suppress_exit@.contains_key(k) && now
            < a.suppress_exit@[k] + 20000,
        a.dirty ==> b.dirty,
        b.selected == a.selected && b.filter == a.filter && b.snapshot == a.snapshot && b.display
            == a.display,
{
}

} // verus!
