//! What holds of the view as a whole.
use vstd::prelude::*;

use super::entries::{
    cpu_of, entry_key, entry_views, flattened, fresh_entries, group_entries, group_order, grouped,
    groups_sorted, held, lowest, lowest_of, mem_of, member_order, members_sorted, one_selection,
    passes, places, project_hits, still_there, Entry, EntryView, GroupView, SortMode,
};
use super::keytimes::{elapsed, younger};
use super::ordering::{
    in_order, is_weak_order, ranked_by, sorted_by, sorting_keeps_members, sorting_orders,
};
use super::state::{
    acted_on, crash_report, crashed, cursor_place, escaped, fed, folded, less, moved, opt_entry,
    selection, selection_hits, selection_place, sorted, toggled, undone, with_keys, without, App,
    FREEZE, LOG_LINES, SUPPRESS_TTL,
};
use crate::laws::{
    keys_differ, lemma_order_chain, lemma_order_one_way, lemma_precedes_chain,
    lemma_precedes_one_way,
};
use crate::model::{KeyView, TargetView};
use crate::proctree::{lemma_unseen, unseen};
use crate::resolve::{first_hit, lemma_first_hit, lemma_is_first_hit};
use crate::text;

verus! {

// ---------------------------------------------------------------------- cursor

/// The cursor follows its target: wherever the selection is among the rows, in a group or
/// not, the cursor is on it.
pub proof fn cursor_follows_selection(rows: Seq<EntryView>, sel: EntryView, last: int, i: int)
    requires
        0 <= i < rows.len(),
        one_selection(rows[i], sel),
    ensures
        cursor_place(rows, Some(sel), last) matches Some(p) && 0 <= p < rows.len()
            && one_selection(rows[p], sel),
{
    let hits = selection_hits(rows, sel);
    lemma_first_hit(hits);
    assert(hits[i]);
}

/// A selection that vanished leaves the cursor where it was, or on the last row; only
/// without rows is there no cursor.
pub proof fn cursor_falls_to_its_neighbour(rows: Seq<EntryView>, sel: EntryView, last: int)
    requires
        forall|i: int| 0 <= i < rows.len() ==> !one_selection(#[trigger] rows[i], sel),
    ensures
        cursor_place(rows, Some(sel), last) == (if rows.len() == 0 {
            None
        } else if last < rows.len() {
            Some(last)
        } else {
            Some(rows.len() - 1)
        }),
{
    let hits = selection_hits(rows, sel);
    lemma_first_hit(hits);
    match first_hit(hits) {
        Some(i) => {
            assert(one_selection(rows[i], sel));
        },
        None => {},
    }
}

/// A verb acts on exactly what the cursor stands for: on a group header every target of
/// the project, otherwise the target under the cursor.
pub proof fn verbs_take_the_whole_selection(
    targets: Seq<TargetView>,
    sel: Option<EntryView>,
    t: TargetView,
)
    ensures
        selection(targets, sel).contains(t) <==> targets.contains(t) && acted_on(t, sel),
    decreases targets.len(),
{
    if targets.len() > 0 {
        let d = targets.drop_last();
        let before = selection(d, sel);
        let after = selection(targets, sel);
        verbs_take_the_whole_selection(d, sel, t);
        assert(targets[targets.len() - 1] == targets.last());
        if d.contains(t) {
            let i = choose|i: int| 0 <= i < d.len() && d[i] == t;
            assert(targets[i] == t);
        }
        if targets.contains(t) && t != targets.last() {
            let i = choose|i: int| 0 <= i < targets.len() && targets[i] == t;
            assert(d[i] == t);
        }
        if before.contains(t) {
            let i = choose|i: int| 0 <= i < before.len() && before[i] == t;
            assert(after[i] == t);
        }
        if acted_on(targets.last(), sel) {
            assert(after[before.len() as int] == targets.last());
        }
        if after.contains(t) && !before.contains(t) {
            let i = choose|i: int| 0 <= i < after.len() && after[i] == t;
            if i < before.len() {
                assert(before[i] == t);
            }
        }
    }
}

/// No two rows are one selection.
pub open spec fn rows_differ(rows: Seq<EntryView>) -> bool {
    forall|i: int, j: int|
        0 <= i < j < rows.len() ==> !one_selection(#[trigger] rows[i], #[trigger] rows[j])
}

/// Moving down and up again brings the cursor back.
pub proof fn moving_back_returns(a: App, b: App, c: App, now: u64, later: u64)
    requires
        rows_differ(entry_views(a.display@)),
        selection_place(entry_views(a.display@), opt_entry(a.selected)) is Some,
        moved(a, b, 1, now),
        moved(b, c, -1, later),
    ensures
        c.selected == Some(
            a.display@[selection_place(
                entry_views(a.display@),
                opt_entry(a.selected),
            )->0],
        ),
{
    let rows = entry_views(a.display@);
    let sel = opt_entry(a.selected)->0;
    lemma_first_hit(selection_hits(rows, sel));
    let cur = selection_place(rows, Some(sel))->0;
    let n = rows.len() as int;
    let next = (cur + 1) % n;
    assert(0 <= next < n);
    assert(b.selected == Some(a.display@[next]));
    let hits = selection_hits(rows, rows[next]);
    assert forall|j: int| 0 <= j < next implies !#[trigger] hits[j] by {
        assert(!one_selection(rows[j], rows[next]));
    }
    assert(hits[next]);
    lemma_is_first_hit(hits, next);
    if cur + 1 < n {
        assert(next == cur + 1) by (nonlinear_arith)
            requires
                next == (cur + 1) % n,
                0 <= cur,
                cur + 1 < n,
        ;
        assert((next - 1) % n == cur) by (nonlinear_arith)
            requires
                next == cur + 1,
                0 <= cur < n,
        ;
    } else {
        assert(next == 0) by (nonlinear_arith)
            requires
                next == (cur + 1) % n,
                cur + 1 == n,
                n > 0,
        ;
        assert((next - 1) % n == cur) by (nonlinear_arith)
            requires
                next == 0,
                cur + 1 == n,
                n > 0,
        ;
    }
    assert(next + (-1) == next - 1);
}

// ---------------------------------------------------------------------- freeze

/// Rows that hold their order are the fresh rows: none is lost and none is made up.
pub proof fn holding_keeps_rows(shown: Seq<EntryView>, fresh: Seq<EntryView>, e: EntryView)
    ensures
        held(shown, fresh).contains(e) <==> fresh.contains(e),
{
    let kept = still_there(shown, fresh);
    lemma_still_there(shown, fresh, e);
    lemma_unseen(fresh, kept);
    let new = unseen(fresh, kept);
    if fresh.contains(e) {
        if kept.contains(e) {
            let i = choose|i: int| 0 <= i < kept.len() && kept[i] == e;
            assert((kept + new)[i] == e);
        } else {
            assert(new.contains(e));
            let i = choose|i: int| 0 <= i < new.len() && new[i] == e;
            assert((kept + new)[kept.len() + i] == e);
        }
    }
    if held(shown, fresh).contains(e) {
        let i = choose|i: int| 0 <= i < (kept + new).len() && (kept + new)[i] == e;
        if i < kept.len() {
            assert(kept[i] == e);
            assert(kept.contains(e));
        } else {
            assert(new[i - kept.len()] == e);
            assert(new.contains(e));
        }
    }
}

proof fn lemma_still_there(shown: Seq<EntryView>, fresh: Seq<EntryView>, e: EntryView)
    ensures
        still_there(shown, fresh).contains(e) <==> shown.contains(e) && fresh.contains(e),
    decreases shown.len(),
{
    if shown.len() > 0 {
        let d = shown.drop_last();
        let before = still_there(d, fresh);
        lemma_still_there(d, fresh, e);
        assert(shown =~= d.push(shown.last()));
        if shown.contains(e) && e != shown.last() {
            let i = choose|i: int| 0 <= i < shown.len() && shown[i] == e;
            assert(d[i] == e);
        }
        if d.contains(e) {
            let i = choose|i: int| 0 <= i < d.len() && d[i] == e;
            assert(shown[i] == e);
        }
        assert(shown[shown.len() - 1] == shown.last());
        if before.contains(e) {
            let i = choose|i: int| 0 <= i < before.len() && before[i] == e;
            assert(still_there(shown, fresh)[i] == e);
        }
        if fresh.contains(shown.last()) {
            assert(still_there(shown, fresh)[before.len() as int] == shown.last());
        }
    }
}

/// Nothing moves under the cursor: where the rows are the same ones in another order, they
/// stay as they are shown.
pub proof fn held_rows_stay(shown: Seq<EntryView>, fresh: Seq<EntryView>)
    requires
        forall|e: EntryView| #[trigger] shown.contains(e) <==> fresh.contains(e),
    ensures
        held(shown, fresh) == shown,
{
    assert forall|i: int| 0 <= i < shown.len() implies fresh.contains(#[trigger] shown[i]) by {
        assert(shown.contains(shown[i]));
    }
    lemma_all_there(shown, fresh);
    lemma_unseen(fresh, shown);
    let new = unseen(fresh, shown);
    if new.len() > 0 {
        assert(new.contains(new[0]));
        assert(shown.contains(new[0]));
    }
    assert(held(shown, fresh) =~= shown);
}

proof fn lemma_all_there(shown: Seq<EntryView>, fresh: Seq<EntryView>)
    requires
        forall|i: int| 0 <= i < shown.len() ==> fresh.contains(#[trigger] shown[i]),
    ensures
        still_there(shown, fresh) == shown,
    decreases shown.len(),
{
    if shown.len() > 0 {
        let d = shown.drop_last();
        assert forall|i: int| 0 <= i < d.len() implies fresh.contains(#[trigger] d[i]) by {
            assert(fresh.contains(shown[i]));
        }
        lemma_all_there(d, fresh);
        assert(fresh.contains(shown[shown.len() - 1]));
        assert(shown =~= d.push(shown.last()));
    }
}

/// Rows that hold their order are the fresh ones, each once: those that are shown keep
/// their order, and what is new comes behind them in the order of the fresh rows.
pub open spec fn keeps_order(
    shown: Seq<EntryView>,
    fresh: Seq<EntryView>,
    rows: Seq<EntryView>,
) -> bool {
    &&& rows.no_duplicates()
    &&& rows.to_multiset() == fresh.to_multiset()
    &&& forall|i: int, j: int, a: int, b: int|
        #![trigger rows[i], rows[j], shown[a], shown[b]]
        0 <= i < j < rows.len() && 0 <= a < shown.len() && 0 <= b < shown.len() && rows[i]
            == shown[a] && rows[j] == shown[b] ==> a < b
    &&& forall|i: int, j: int|
        0 <= i < rows.len() && 0 <= j < rows.len() && shown.contains(#[trigger] rows[i])
            && !shown.contains(#[trigger] rows[j]) ==> i < j
    &&& forall|i: int, j: int, a: int, b: int|
        #![trigger rows[i], rows[j], fresh[a], fresh[b]]
        0 <= i < j < rows.len() && 0 <= a < fresh.len() && 0 <= b < fresh.len() && rows[i]
            == fresh[a] && rows[j] == fresh[b] && !shown.contains(rows[i]) && !shown.contains(
            rows[j],
        ) ==> a < b
}

/// What comes out of a list of different rows is different and keeps its order.
spec fn picks(list: Seq<EntryView>, out: Seq<EntryView>) -> bool {
    &&& forall|i: int| 0 <= i < out.len() ==> list.contains(#[trigger] out[i])
    &&& forall|i: int, j: int, a: int, b: int|
        #![trigger out[i], out[j], list[a], list[b]]
        0 <= i < j < out.len() && 0 <= a < list.len() && 0 <= b < list.len() && out[i] == list[a]
            && out[j] == list[b] ==> a < b
}

proof fn lemma_picks_one_more(list: Seq<EntryView>, out: Seq<EntryView>)
    requires
        list.len() > 0,
        list.no_duplicates(),
        picks(list.drop_last(), out),
    ensures
        picks(list, out),
        picks(list, out.push(list.last())),
{
    let d = list.drop_last();
    let more = out.push(list.last());
    let last = list.len() - 1;
    assert forall|i: int| 0 <= i < out.len() implies list.contains(#[trigger] out[i])
        && out[i] != list.last() by {
        assert(d.contains(out[i]));
        let k = choose|k: int| 0 <= k < d.len() && d[k] == out[i];
        assert(list[k] == out[i]);
        assert(list[k] != list[last]);
    }
    assert forall|i: int, j: int, a: int, b: int|
        #![trigger out[i], out[j], list[a], list[b]]
        0 <= i < j < out.len() && 0 <= a < list.len() && 0 <= b < list.len() && out[i] == list[a]
            && out[j] == list[b] implies a < b by {
        assert(a != last && b != last);
        assert(d[a] == list[a] && d[b] == list[b]);
    }
    assert(list[last] == list.last());
    assert forall|i: int| 0 <= i < more.len() implies list.contains(#[trigger] more[i]) by {
        if i < out.len() {
            assert(more[i] == out[i]);
        }
    }
    assert forall|i: int, j: int, a: int, b: int|
        #![trigger more[i], more[j], list[a], list[b]]
        0 <= i < j < more.len() && 0 <= a < list.len() && 0 <= b < list.len() && more[i]
            == list[a] && more[j] == list[b] implies a < b by {
        assert(more[i] == out[i]);
        assert(a != last);
        if j < out.len() {
            assert(more[j] == out[j]);
        } else {
            assert(list[b] == list[last]);
            assert(b == last);
        }
    }
}

proof fn lemma_still_there_picks(shown: Seq<EntryView>, fresh: Seq<EntryView>)
    requires
        shown.no_duplicates(),
    ensures
        picks(shown, still_there(shown, fresh)),
    decreases shown.len(),
{
    if shown.len() > 0 {
        let d = shown.drop_last();
        lemma_still_there_picks(d, fresh);
        lemma_picks_one_more(shown, still_there(d, fresh));
    }
}

proof fn lemma_unseen_picks(list: Seq<EntryView>, out: Seq<EntryView>)
    requires
        list.no_duplicates(),
    ensures
        picks(list, unseen(list, out)),
    decreases list.len(),
{
    if list.len() > 0 {
        let d = list.drop_last();
        lemma_unseen_picks(d, out);
        lemma_picks_one_more(list, unseen(d, out));
    }
}

/// Rows that are all different hold still as the reader expects: the fresh rows, those
/// shown in their order, and what is new behind them.
pub proof fn held_rows_keep_order(shown: Seq<EntryView>, fresh: Seq<EntryView>)
    requires
        shown.no_duplicates(),
        fresh.no_duplicates(),
    ensures
        keeps_order(shown, fresh, held(shown, fresh)),
{
    let kept = still_there(shown, fresh);
    let new = unseen(fresh, kept);
    let rows = held(shown, fresh);
    let n = kept.len() as int;
    lemma_still_there_picks(shown, fresh);
    lemma_unseen_picks(fresh, kept);
    lemma_unseen(fresh, kept);
    assert forall|i: int| 0 <= i < rows.len() implies {
        &&& shown.contains(#[trigger] rows[i]) <==> i < n
        &&& fresh.contains(rows[i])
    } by {
        if i < n {
            assert(rows[i] == kept[i]);
            assert(kept.contains(kept[i]));
            lemma_still_there(shown, fresh, kept[i]);
        } else {
            assert(rows[i] == new[i - n]);
            assert(new.contains(new[i - n]));
            lemma_still_there(shown, fresh, rows[i]);
        }
    }
    assert forall|i: int, j: int| 0 <= i < rows.len() && 0 <= j < rows.len() && i
        != j implies rows[i] != rows[j] by {
        if i < n && j < n {
            assert(rows[i] == kept[i] && rows[j] == kept[j]);
            let a = choose|a: int| 0 <= a < shown.len() && shown[a] == kept[i];
            assert(shown.contains(kept[i]) && shown.contains(kept[j]));
            let b = choose|b: int| 0 <= b < shown.len() && shown[b] == kept[j];
            if i < j {
                assert(a < b);
            } else {
                assert(b < a);
            }
        } else if i >= n && j >= n {
            assert(rows[i] == new[i - n] && rows[j] == new[j - n]);
        }
    }
    assert forall|i: int, j: int, a: int, b: int|
        #![trigger rows[i], rows[j], shown[a], shown[b]]
        0 <= i < j < rows.len() && 0 <= a < shown.len() && 0 <= b < shown.len() && rows[i]
            == shown[a] && rows[j] == shown[b] implies a < b by {
        assert(shown.contains(rows[j]));
        assert(rows[i] == kept[i] && rows[j] == kept[j]);
    }
    assert forall|i: int, j: int, a: int, b: int|
        #![trigger rows[i], rows[j], fresh[a], fresh[b]]
        0 <= i < j < rows.len() && 0 <= a < fresh.len() && 0 <= b < fresh.len() && rows[i]
            == fresh[a] && rows[j] == fresh[b] && !shown.contains(rows[i]) && !shown.contains(
            rows[j],
        ) implies a < b by {
        assert(rows[i] == new[i - n] && rows[j] == new[j - n]);
    }
    lemma_same_members(rows, fresh);
}

proof fn lemma_same_members(rows: Seq<EntryView>, fresh: Seq<EntryView>)
    requires
        rows.no_duplicates(),
        fresh.no_duplicates(),
        exists|shown: Seq<EntryView>| rows == #[trigger] held(shown, fresh),
    ensures
        rows.to_multiset() == fresh.to_multiset(),
{
    broadcast use vstd::seq_lib::group_to_multiset_ensures;

    let shown = choose|shown: Seq<EntryView>| rows == #[trigger] held(shown, fresh);
    rows.lemma_multiset_has_no_duplicates();
    fresh.lemma_multiset_has_no_duplicates();
    assert forall|e: EntryView| rows.to_multiset().count(e) == fresh.to_multiset().count(e) by {
        holding_keeps_rows(shown, fresh, e);
        assert(rows.contains(e) <==> rows.to_multiset().count(e) > 0);
        assert(fresh.contains(e) <==> fresh.to_multiset().count(e) > 0);
        assert(rows.to_multiset().contains(e) <==> rows.to_multiset().count(e) > 0);
        assert(fresh.to_multiset().contains(e) <==> fresh.to_multiset().count(e) > 0);
    }
    assert(rows.to_multiset() =~= fresh.to_multiset());
}

/// A change of the sort shows at once: the rows do not hold still.
pub proof fn sorting_shows_at_once(a: App, m: SortMode, now: u64)
    requires
        FREEZE <= a.last_input <= now,
    ensures
        sorted(a, m).rows_at(now) == fresh_entries(
            a.targets(),
            a.filter@,
            m,
            text::texts(a.collapsed@),
        ),
{
}

// ---------------------------------------------------------------------- groups

/// The places, among the first `n` targets, of those of a project that pass the filter.
pub open spec fn matching(
    targets: Seq<TargetView>,
    filter: Seq<char>,
    project: Seq<char>,
    n: nat,
) -> Seq<usize>
    decreases n,
{
    if n == 0 {
        Seq::empty()
    } else {
        let before = matching(targets, filter, project, (n - 1) as nat);
        if passes(targets[n - 1], filter) && targets[n - 1].project == project {
            before.push((n - 1) as usize)
        } else {
            before
        }
    }
}

proof fn lemma_matching(
    targets: Seq<TargetView>,
    filter: Seq<char>,
    project: Seq<char>,
    n: nat,
    i: usize,
)
    requires
        n <= targets.len() <= usize::MAX,
    ensures
        matching(targets, filter, project, n).contains(i) <==> i < n && passes(
            targets[i as int],
            filter,
        ) && targets[i as int].project == project,
    decreases n,
{
    if n > 0 {
        let before = matching(targets, filter, project, (n - 1) as nat);
        let all = matching(targets, filter, project, n);
        lemma_matching(targets, filter, project, (n - 1) as nat, i);
        if before.contains(i) {
            let k = choose|k: int| 0 <= k < before.len() && before[k] == i;
            assert(all[k] == i);
        }
        if all.len() > before.len() {
            assert(all[before.len() as int] == n - 1);
        }
        if all.contains(i) && i != n - 1 {
            let k = choose|k: int| 0 <= k < all.len() && all[k] == i;
            assert(before[k] == i);
        }
    }
}

/// Every group holds exactly the matching targets of its project, no two groups are of one
/// project, and no matching target is left out.
pub open spec fn well_grouped(
    targets: Seq<TargetView>,
    filter: Seq<char>,
    n: nat,
    groups: Seq<GroupView>,
) -> bool {
    &&& forall|k: int|
        0 <= k < groups.len() ==> {
            &&& (#[trigger] groups[k]).members == matching(targets, filter, groups[k].project, n)
            &&& groups[k].members.len() > 0
        }
    &&& forall|i: int, j: int|
        0 <= i < j < groups.len() ==> (#[trigger] groups[i]).project != (
        #[trigger] groups[j]).project
    &&& forall|i: int|
        0 <= i < n && passes(#[trigger] targets[i], filter) ==> exists|k: int|
            0 <= k < groups.len() && (#[trigger] groups[k]).project == targets[i].project
}

proof fn lemma_grouped(targets: Seq<TargetView>, filter: Seq<char>, n: nat)
    requires
        n <= targets.len() <= usize::MAX,
    ensures
        well_grouped(targets, filter, n, grouped(targets, filter, n)),
    decreases n,
{
    if n > 0 {
        let m = (n - 1) as nat;
        let before = grouped(targets, filter, m);
        let after = grouped(targets, filter, n);
        lemma_grouped(targets, filter, m);
        let t = targets[n - 1];
        if passes(t, filter) {
            let hits = project_hits(before, t.project);
            lemma_first_hit(hits);
            match first_hit(hits) {
                Some(h) => {
                    assert(hits[h]);
                    assert(after == before.update(
                        h,
                        GroupView { project: t.project, members: before[h].members.push(m as usize) },
                    ));
                    assert forall|k: int| 0 <= k < after.len() implies {
                        &&& (#[trigger] after[k]).members == matching(
                            targets,
                            filter,
                            after[k].project,
                            n,
                        )
                        &&& after[k].members.len() > 0
                    } by {
                        assert(before[k].members.len() > 0);
                        if k < h {
                            assert(before[k].project != before[h].project);
                        } else if h < k {
                            assert(before[h].project != before[k].project);
                        }
                    }
                    assert forall|i: int, j: int| 0 <= i < j < after.len() implies (
                    #[trigger] after[i]).project != (#[trigger] after[j]).project by {
                        assert(before[i].project != before[j].project);
                    }
                    assert forall|i: int|
                        0 <= i < n && passes(#[trigger] targets[i], filter) implies exists|k: int|
                        0 <= k < after.len() && (#[trigger] after[k]).project
                            == targets[i].project by {
                        if i < m {
                            let k = choose|k: int|
                                0 <= k < before.len() && (#[trigger] before[k]).project
                                    == targets[i].project;
                            assert(after[k].project == targets[i].project);
                        } else {
                            assert(after[h].project == targets[i].project);
                        }
                    }
                },
                None => {
                    assert forall|k: int| 0 <= k < before.len() implies (#[trigger] before[k]).project
                        != t.project by {
                        assert(!hits[k]);
                    }
                    let none = matching(targets, filter, t.project, m);
                    if none.len() > 0 {
                        let i = none[0];
                        assert(none.contains(i));
                        lemma_matching(targets, filter, t.project, m, i);
                        assert(passes(targets[i as int], filter));
                    }
                    assert(matching(targets, filter, t.project, n) =~= seq![m as usize]);
                    assert forall|k: int| 0 <= k < after.len() implies {
                        &&& (#[trigger] after[k]).members == matching(
                            targets,
                            filter,
                            after[k].project,
                            n,
                        )
                        &&& after[k].members.len() > 0
                    } by {
                        if k < before.len() {
                            assert(after[k] == before[k]);
                        }
                    }
                    assert forall|i: int, j: int| 0 <= i < j < after.len() implies (
                    #[trigger] after[i]).project != (#[trigger] after[j]).project by {
                        assert(after[i] == before[i]);
                        if j < before.len() {
                            assert(after[j] == before[j]);
                        }
                    }
                    assert forall|i: int|
                        0 <= i < n && passes(#[trigger] targets[i], filter) implies exists|k: int|
                        0 <= k < after.len() && (#[trigger] after[k]).project
                            == targets[i].project by {
                        if i < m {
                            let k = choose|k: int|
                                0 <= k < before.len() && (#[trigger] before[k]).project
                                    == targets[i].project;
                            assert(after[k] == before[k]);
                        } else {
                            assert(after[before.len() as int].project == targets[i].project);
                        }
                    }
                },
            }
        } else {
            assert forall|i: int|
                0 <= i < n && passes(#[trigger] targets[i], filter) implies exists|k: int|
                0 <= k < after.len() && (#[trigger] after[k]).project == targets[i].project by {
                assert(i < m);
            }
        }
    }
}

proof fn lemma_flattened(
    targets: Seq<TargetView>,
    collapsed: Seq<Seq<char>>,
    groups: Seq<GroupView>,
    order: Seq<usize>,
    e: EntryView,
)
    ensures
        flattened(targets, collapsed, groups, order).contains(e) <==> exists|i: int|
            0 <= i < order.len() && group_entries(
                targets,
                collapsed,
                groups[#[trigger] order[i] as int],
            ).contains(e),
    decreases order.len(),
{
    if order.len() > 0 {
        let d = order.drop_last();
        let before = flattened(targets, collapsed, groups, d);
        let own = group_entries(targets, collapsed, groups[order.last() as int]);
        let all = before + own;
        lemma_flattened(targets, collapsed, groups, d, e);
        if all.contains(e) {
            let k = choose|k: int| 0 <= k < all.len() && all[k] == e;
            if k < before.len() {
                assert(before[k] == e);
                let i = choose|i: int|
                    0 <= i < d.len() && group_entries(
                        targets,
                        collapsed,
                        groups[#[trigger] d[i] as int],
                    ).contains(e);
                assert(order[i] == d[i]);
            } else {
                assert(own[k - before.len()] == e);
                assert(order[order.len() - 1] == order.last());
            }
        }
        if exists|i: int|
            0 <= i < order.len() && group_entries(
                targets,
                collapsed,
                groups[#[trigger] order[i] as int],
            ).contains(e) {
            let i = choose|i: int|
                0 <= i < order.len() && group_entries(
                    targets,
                    collapsed,
                    groups[#[trigger] order[i] as int],
                ).contains(e);
            if i < d.len() {
                assert(d[i] == order[i]);
                let k = choose|k: int| 0 <= k < before.len() && before[k] == e;
                assert(all[k] == e);
            } else {
                let k = choose|k: int| 0 <= k < own.len() && own[k] == e;
                assert(all[before.len() + k] == e);
            }
        }
    }
}

/// The groups of a snapshot, with their members in order.
pub open spec fn shown_groups(
    targets: Seq<TargetView>,
    filter: Seq<char>,
    mode: SortMode,
) -> Seq<GroupView> {
    members_sorted(targets, grouped(targets, filter, targets.len()), mode)
}

proof fn lemma_rows(
    targets: Seq<TargetView>,
    filter: Seq<char>,
    mode: SortMode,
    collapsed: Seq<Seq<char>>,
    e: EntryView,
)
    requires
        targets.len() <= usize::MAX,
        shown_groups(targets, filter, mode).len() <= usize::MAX,
    ensures
        fresh_entries(targets, filter, mode, collapsed).contains(e) <==> exists|k: int|
            0 <= k < shown_groups(targets, filter, mode).len() && group_entries(
                targets,
                collapsed,
                #[trigger] shown_groups(targets, filter, mode)[k],
            ).contains(e),
{
    let groups = shown_groups(targets, filter, mode);
    let order = groups_sorted(targets, groups, mode);
    let all = places(groups.len());
    sorting_keeps_members(all, group_order(targets, groups, mode));
    lemma_flattened(targets, collapsed, groups, order, e);
    if exists|i: int|
        0 <= i < order.len() && group_entries(
            targets,
            collapsed,
            groups[#[trigger] order[i] as int],
        ).contains(e) {
        let i = choose|i: int|
            0 <= i < order.len() && group_entries(
                targets,
                collapsed,
                groups[#[trigger] order[i] as int],
            ).contains(e);
        assert(order.contains(order[i]));
        assert(all.contains(order[i]));
        assert(group_entries(targets, collapsed, groups[order[i] as int]).contains(e));
    }
    if exists|k: int|
        0 <= k < groups.len() && group_entries(
            targets,
            collapsed,
            #[trigger] groups[k],
        ).contains(e) {
        let k = choose|k: int|
            0 <= k < groups.len() && group_entries(
                targets,
                collapsed,
                #[trigger] groups[k],
            ).contains(e);
        assert(all[k] == k as usize);
        assert(all.contains(k as usize));
        assert(order.contains(k as usize));
        let i = choose|i: int| 0 <= i < order.len() && order[i] == k as usize;
        assert(group_entries(targets, collapsed, groups[order[i] as int]).contains(e));
    }
}

proof fn lemma_group_count(targets: Seq<TargetView>, filter: Seq<char>, n: nat)
    ensures
        grouped(targets, filter, n).len() <= n,
    decreases n,
{
    if n > 0 {
        lemma_group_count(targets, filter, (n - 1) as nat);
        lemma_first_hit(
            project_hits(grouped(targets, filter, (n - 1) as nat), targets[n - 1].project),
        );
    }
}

proof fn lemma_shown_groups(targets: Seq<TargetView>, filter: Seq<char>, mode: SortMode, k: int)
    requires
        targets.len() <= usize::MAX,
        0 <= k < shown_groups(targets, filter, mode).len(),
    ensures
        ({
            let g = shown_groups(targets, filter, mode)[k];
            let own = matching(targets, filter, g.project, targets.len());
            &&& g.members.len() == own.len()
            &&& own.len() > 0
            &&& forall|i: usize| #[trigger] g.members.contains(i) <==> own.contains(i)
        }),
{
    let plain = grouped(targets, filter, targets.len());
    lemma_grouped(targets, filter, targets.len());
    assert(plain[k].members.len() > 0);
    sorting_keeps_members(plain[k].members, member_order(targets, mode));
}

/// Every target that passes the filter has a row, unless its project is folded: then the
/// header of the project stands for it.
pub proof fn every_match_is_shown(
    targets: Seq<TargetView>,
    filter: Seq<char>,
    mode: SortMode,
    collapsed: Seq<Seq<char>>,
    i: int,
)
    requires
        targets.len() <= usize::MAX,
        0 <= i < targets.len(),
        passes(targets[i], filter),
    ensures
        ({
            let rows = fresh_entries(targets, filter, mode, collapsed);
            let t = targets[i];
            ||| rows.contains(EntryView::Target(t.key))
            ||| rows.contains(EntryView::Member(t.key)) && rows.contains(
                EntryView::Group(t.project),
            )
            ||| collapsed.contains(t.project) && rows.contains(EntryView::Group(t.project))
        }),
{
    let t = targets[i];
    let plain = grouped(targets, filter, targets.len());
    let groups = shown_groups(targets, filter, mode);
    lemma_grouped(targets, filter, targets.len());
    lemma_group_count(targets, filter, targets.len());
    let k = choose|k: int| 0 <= k < plain.len() && (#[trigger] plain[k]).project == t.project;
    assert(groups[k].project == t.project);
    lemma_shown_groups(targets, filter, mode, k);
    lemma_matching(targets, filter, t.project, targets.len(), i as usize);
    let g = groups[k];
    assert(g.members.contains(i as usize));
    let j = choose|j: int| 0 <= j < g.members.len() && g.members[j] == i as usize;
    let own = group_entries(targets, collapsed, g);
    if g.members.len() == 1 {
        let e = EntryView::Target(t.key);
        assert(own[0] == e);
        assert(group_entries(targets, collapsed, groups[k]).contains(e));
        lemma_rows(targets, filter, mode, collapsed, e);
    } else {
        let h = EntryView::Group(t.project);
        assert(own[0] == h);
        assert(group_entries(targets, collapsed, groups[k]).contains(h));
        lemma_rows(targets, filter, mode, collapsed, h);
        if !collapsed.contains(t.project) {
            let e = EntryView::Member(t.key);
            assert(own[1 + j] == e);
            assert(group_entries(targets, collapsed, groups[k]).contains(e));
            lemma_rows(targets, filter, mode, collapsed, e);
        }
    }
}

proof fn lemma_matching_distinct(
    targets: Seq<TargetView>,
    filter: Seq<char>,
    project: Seq<char>,
    n: nat,
)
    requires
        n <= targets.len() <= usize::MAX,
    ensures
        matching(targets, filter, project, n).no_duplicates(),
    decreases n,
{
    if n > 0 {
        let m = (n - 1) as nat;
        let before = matching(targets, filter, project, m);
        let all = matching(targets, filter, project, n);
        lemma_matching_distinct(targets, filter, project, m);
        assert forall|i: int| 0 <= i < before.len() implies (#[trigger] before[i]) < m by {
            assert(before.contains(before[i]));
            lemma_matching(targets, filter, project, m, before[i]);
        }
        assert forall|i: int, j: int| 0 <= i < all.len() && 0 <= j < all.len() && i
            != j implies all[i] != all[j] by {
            if i < before.len() {
                assert(before[i] < m);
            }
            if j < before.len() {
                assert(before[j] < m);
            }
        }
    }
}

/// The members of a shown group are different places, and each is that of a target of
/// its project.
proof fn lemma_group_members(targets: Seq<TargetView>, filter: Seq<char>, mode: SortMode, k: int)
    requires
        targets.len() <= usize::MAX,
        0 <= k < shown_groups(targets, filter, mode).len(),
    ensures
        ({
            let g = shown_groups(targets, filter, mode)[k];
            &&& g.members.no_duplicates()
            &&& forall|i: int|
                0 <= i < g.members.len() ==> (#[trigger] g.members[i]) < targets.len()
                    && targets[g.members[i] as int].project == g.project
        }),
{
    broadcast use vstd::seq_lib::group_to_multiset_ensures;

    let plain = grouped(targets, filter, targets.len());
    let g = shown_groups(targets, filter, mode)[k];
    lemma_grouped(targets, filter, targets.len());
    assert(plain[k].members.len() > 0);
    lemma_matching_distinct(targets, filter, g.project, targets.len());
    sorting_keeps_members(plain[k].members, member_order(targets, mode));
    plain[k].members.lemma_multiset_has_no_duplicates();
    g.members.lemma_multiset_has_no_duplicates_conv();
    assert forall|i: int| 0 <= i < g.members.len() implies (#[trigger] g.members[i])
        < targets.len() && targets[g.members[i] as int].project == g.project by {
        assert(g.members.contains(g.members[i]));
        lemma_matching(targets, filter, g.project, targets.len(), g.members[i]);
    }
}

/// The row is of the project: its header, or a target of it.
pub open spec fn is_of(targets: Seq<TargetView>, project: Seq<char>, e: EntryView) -> bool {
    match entry_key(e) {
        None => e == EntryView::Group(project),
        Some(key) => exists|i: int|
            0 <= i < targets.len() && (#[trigger] targets[i]).key == key && targets[i].project
                == project,
    }
}

proof fn lemma_group_rows(
    targets: Seq<TargetView>,
    filter: Seq<char>,
    mode: SortMode,
    collapsed: Seq<Seq<char>>,
    k: int,
)
    requires
        targets.len() <= usize::MAX,
        keys_differ(targets),
        0 <= k < shown_groups(targets, filter, mode).len(),
    ensures
        ({
            let g = shown_groups(targets, filter, mode)[k];
            let own = group_entries(targets, collapsed, g);
            &&& rows_differ(own)
            &&& forall|i: int| 0 <= i < own.len() ==> is_of(targets, g.project, #[trigger] own[i])
        }),
{
    let g = shown_groups(targets, filter, mode)[k];
    let own = group_entries(targets, collapsed, g);
    lemma_group_members(targets, filter, mode, k);
    assert forall|i: int| 0 <= i < own.len() implies is_of(
        targets,
        g.project,
        #[trigger] own[i],
    ) by {
        if g.members.len() == 1 {
            assert(targets[g.members[0] as int].key == entry_key(own[i])->0);
        } else if i > 0 {
            assert(targets[g.members[i - 1] as int].key == entry_key(own[i])->0);
        }
    }
    assert forall|i: int, j: int| 0 <= i < j < own.len() implies !one_selection(
        #[trigger] own[i],
        #[trigger] own[j],
    ) by {
        if i > 0 {
            let a = g.members[i - 1];
            let b = g.members[j - 1];
            assert(a != b);
            assert(own[i] == EntryView::Member(targets[a as int].key));
            assert(own[j] == EntryView::Member(targets[b as int].key));
            if a < b {
                assert(targets[a as int].key != targets[b as int].key);
            } else {
                assert(targets[b as int].key != targets[a as int].key);
            }
        }
    }
}

proof fn lemma_projects_apart(
    targets: Seq<TargetView>,
    p: Seq<char>,
    q: Seq<char>,
    a: EntryView,
    b: EntryView,
)
    requires
        keys_differ(targets),
        p != q,
        is_of(targets, p, a),
        is_of(targets, q, b),
    ensures
        !one_selection(a, b),
{
    if one_selection(a, b) {
        if let (Some(x), Some(y)) = (entry_key(a), entry_key(b)) {
            let i = choose|i: int|
                0 <= i < targets.len() && (#[trigger] targets[i]).key == x && targets[i].project
                    == p;
            let j = choose|j: int|
                0 <= j < targets.len() && (#[trigger] targets[j]).key == y && targets[j].project
                    == q;
            if i < j {
                assert(targets[i].key != targets[j].key);
            } else if j < i {
                assert(targets[j].key != targets[i].key);
            }
        }
    }
}

proof fn lemma_flat_rows(
    targets: Seq<TargetView>,
    filter: Seq<char>,
    mode: SortMode,
    collapsed: Seq<Seq<char>>,
    order: Seq<usize>,
)
    requires
        targets.len() <= usize::MAX,
        keys_differ(targets),
        order.no_duplicates(),
        forall|i: int|
            0 <= i < order.len() ==> (#[trigger] order[i]) < shown_groups(
                targets,
                filter,
                mode,
            ).len(),
    ensures
        rows_differ(
            flattened(targets, collapsed, shown_groups(targets, filter, mode), order),
        ),
    decreases order.len(),
{
    if order.len() > 0 {
        let groups = shown_groups(targets, filter, mode);
        let d = order.drop_last();
        let last = order.len() - 1;
        assert forall|i: int| 0 <= i < d.len() implies (#[trigger] d[i]) < groups.len() by {
            assert(order[i] < groups.len());
        }
        lemma_flat_rows(targets, filter, mode, collapsed, d);
        let k = order[last] as int;
        let before = flattened(targets, collapsed, groups, d);
        let own = group_entries(targets, collapsed, groups[k]);
        let all = before + own;
        lemma_group_rows(targets, filter, mode, collapsed, k);
        assert forall|i: int, j: int| 0 <= i < j < all.len() implies !one_selection(
            #[trigger] all[i],
            #[trigger] all[j],
        ) by {
            let n = before.len() as int;
            if j < n {
                assert(!one_selection(before[i], before[j]));
            } else if i >= n {
                assert(!one_selection(own[i - n], own[j - n]));
            } else {
                assert(before.contains(before[i]));
                lemma_flattened(targets, collapsed, groups, d, before[i]);
                let x = choose|x: int|
                    0 <= x < d.len() && group_entries(
                        targets,
                        collapsed,
                        groups[#[trigger] d[x] as int],
                    ).contains(before[i]);
                let h = d[x] as int;
                assert(order[x] == d[x]);
                assert(order[x] != order[last]);
                lemma_group_rows(targets, filter, mode, collapsed, h);
                let theirs = group_entries(targets, collapsed, groups[h]);
                let y = choose|y: int| 0 <= y < theirs.len() && theirs[y] == before[i];
                assert(is_of(targets, groups[h].project, theirs[y]));
                assert(is_of(targets, groups[k].project, own[j - n]));
                lemma_grouped(targets, filter, targets.len());
                let plain = grouped(targets, filter, targets.len());
                if h < k {
                    assert(plain[h].project != plain[k].project);
                } else {
                    assert(plain[k].project != plain[h].project);
                }
                lemma_projects_apart(
                    targets,
                    groups[h].project,
                    groups[k].project,
                    all[i],
                    all[j],
                );
            }
        }
    }
}

/// No two rows are one selection, where no two targets have one key.
pub proof fn every_row_is_shown_once(
    targets: Seq<TargetView>,
    filter: Seq<char>,
    mode: SortMode,
    collapsed: Seq<Seq<char>>,
)
    requires
        targets.len() <= usize::MAX,
        keys_differ(targets),
    ensures
        rows_differ(fresh_entries(targets, filter, mode, collapsed)),
        fresh_entries(targets, filter, mode, collapsed).no_duplicates(),
{
    broadcast use vstd::seq_lib::group_to_multiset_ensures;

    let groups = shown_groups(targets, filter, mode);
    let all = places(groups.len());
    let order = groups_sorted(targets, groups, mode);
    lemma_group_count(targets, filter, targets.len());
    sorting_keeps_members(all, group_order(targets, groups, mode));
    assert(all.no_duplicates());
    all.lemma_multiset_has_no_duplicates();
    order.lemma_multiset_has_no_duplicates_conv();
    assert forall|i: int| 0 <= i < order.len() implies (#[trigger] order[i]) < groups.len() by {
        assert(order.contains(order[i]));
        assert(all.contains(order[i]));
    }
    lemma_flat_rows(targets, filter, mode, collapsed, order);
    let rows = fresh_entries(targets, filter, mode, collapsed);
    assert forall|i: int, j: int| 0 <= i < rows.len() && 0 <= j < rows.len() && i
        != j implies rows[i] != rows[j] by {
        if i < j {
            assert(!one_selection(rows[i], rows[j]));
        } else {
            assert(!one_selection(rows[j], rows[i]));
        }
    }
}

/// Right after a keystroke a volatile sort holds the rows: what is shown are the rows
/// that come once the moment is over, those on the screen in their order, and what is new
/// behind them.
pub proof fn frozen_rows_keep_order(a: App, now: u64, later: u64)
    requires
        a.frozen(now),
        !a.frozen(later),
        a.targets().len() <= usize::MAX,
        keys_differ(a.targets()),
        entry_views(a.display@).no_duplicates(),
    ensures
        keeps_order(entry_views(a.display@), a.rows_at(later), a.rows_at(now)),
{
    every_row_is_shown_once(a.targets(), a.filter@, a.sort, text::texts(a.collapsed@));
    held_rows_keep_order(entry_views(a.display@), a.rows_at(later));
}

/// A row stands for what passes the filter: a header for a project with two matches or
/// more, a member for one of those where the project is not folded, and a row of its own
/// for the only match of a project.
pub open spec fn row_is_due(
    targets: Seq<TargetView>,
    filter: Seq<char>,
    collapsed: Seq<Seq<char>>,
    e: EntryView,
) -> bool {
    match e {
        EntryView::Group(p) => matching(targets, filter, p, targets.len()).len() >= 2,
        EntryView::Member(k) => exists|i: int|
            {
                &&& 0 <= i < targets.len()
                &&& (#[trigger] targets[i]).key == k
                &&& passes(targets[i], filter)
                &&& !collapsed.contains(targets[i].project)
                &&& matching(targets, filter, targets[i].project, targets.len()).len() >= 2
            },
        EntryView::Target(k) => exists|i: int|
            {
                &&& 0 <= i < targets.len()
                &&& (#[trigger] targets[i]).key == k
                &&& passes(targets[i], filter)
                &&& matching(targets, filter, targets[i].project, targets.len()).len() == 1
            },
    }
}

/// Nothing else is shown: every row is due.
pub proof fn only_matches_are_shown(
    targets: Seq<TargetView>,
    filter: Seq<char>,
    mode: SortMode,
    collapsed: Seq<Seq<char>>,
    e: EntryView,
)
    requires
        targets.len() <= usize::MAX,
        fresh_entries(targets, filter, mode, collapsed).contains(e),
    ensures
        row_is_due(targets, filter, collapsed, e),
{
    let groups = shown_groups(targets, filter, mode);
    lemma_group_count(targets, filter, targets.len());
    lemma_rows(targets, filter, mode, collapsed, e);
    let k = choose|k: int|
        0 <= k < groups.len() && group_entries(targets, collapsed, #[trigger] groups[k]).contains(
            e,
        );
    lemma_shown_groups(targets, filter, mode, k);
    let g = groups[k];
    let own = group_entries(targets, collapsed, g);
    let at = choose|at: int| 0 <= at < own.len() && own[at] == e;
    if g.members.len() == 1 {
        let i = g.members[0];
        assert(g.members.contains(i));
        lemma_matching(targets, filter, g.project, targets.len(), i);
        assert(targets[i as int].key == e->Target_0);
    } else if at > 0 {
        let i = g.members[at - 1];
        assert(g.members.contains(i));
        lemma_matching(targets, filter, g.project, targets.len(), i);
        assert(targets[i as int].key == e->Member_0);
    }
}

// ---------------------------------------------------------------------- orders

proof fn lemma_group_order(targets: Seq<TargetView>, groups: Seq<GroupView>, mode: SortMode)
    ensures
        is_weak_order(group_order(targets, groups, mode)),
{
    let f = group_order(targets, groups, mode);
    assert forall|a: usize, b: usize| #[trigger] f(a, b) implies !f(b, a) by {
        let x = groups[a as int];
        let y = groups[b as int];
        if text::precedes(x.project, y.project) {
            lemma_precedes_one_way(x.project, y.project);
        }
    }
    assert forall|a: usize, b: usize, c: usize|
        !#[trigger] f(b, a) && !#[trigger] f(c, b) implies !f(c, a) by {
        let x = groups[a as int].project;
        let y = groups[b as int].project;
        let z = groups[c as int].project;
        if !text::precedes(y, x) && !text::precedes(z, y) {
            lemma_precedes_chain(x, y, z);
        }
    }
}

proof fn lemma_member_order(targets: Seq<TargetView>, mode: SortMode)
    ensures
        is_weak_order(member_order(targets, mode)),
{
    let f = member_order(targets, mode);
    assert forall|a: usize, b: usize| #[trigger] f(a, b) implies !f(b, a) by {
        if mode == SortMode::Port {
            lemma_order_one_way(targets[a as int], targets[b as int]);
        }
    }
    assert forall|a: usize, b: usize, c: usize|
        !#[trigger] f(b, a) && !#[trigger] f(c, b) implies !f(c, a) by {
        if mode == SortMode::Port {
            lemma_order_chain(targets[a as int], targets[b as int], targets[c as int]);
        }
    }
}

/// Groups and members stand in the order of the sort: the lowest port first, or the
/// largest figure first.
pub proof fn rows_stand_in_order(targets: Seq<TargetView>, filter: Seq<char>, mode: SortMode)
    ensures
        ({
            let groups = shown_groups(targets, filter, mode);
            in_order(groups_sorted(targets, groups, mode), group_order(targets, groups, mode))
        }),
        forall|k: int|
            0 <= k < shown_groups(targets, filter, mode).len() ==> in_order(
                (#[trigger] shown_groups(targets, filter, mode)[k]).members,
                member_order(targets, mode),
            ),
{
    let plain = grouped(targets, filter, targets.len());
    let groups = shown_groups(targets, filter, mode);
    lemma_group_order(targets, groups, mode);
    sorting_orders(places(groups.len()), group_order(targets, groups, mode));
    lemma_member_order(targets, mode);
    assert forall|k: int| 0 <= k < groups.len() implies in_order(
        (#[trigger] groups[k]).members,
        member_order(targets, mode),
    ) by {
        sorting_orders(plain[k].members, member_order(targets, mode));
    }
}

// ----------------------------------------------------------------------- exits

proof fn lemma_with_keys(m: Map<KeyView, u64>, keys: Seq<KeyView>, now: u64, k: KeyView)
    ensures
        keys.contains(k) ==> with_keys(m, keys, now).contains_key(k) && with_keys(
            m,
            keys,
            now,
        )[k] == now,
    decreases keys.len(),
{
    if keys.len() > 0 {
        lemma_with_keys(m, keys.drop_last(), now, k);
        if keys.contains(k) && k != keys.last() {
            let i = choose|i: int| 0 <= i < keys.len() && keys[i] == k;
            assert(keys.drop_last()[i] == k);
        }
    }
}

/// A target that was killed or restarted from here is not reported when it goes, as long
/// as its end is expected.
pub proof fn own_kills_are_not_reported(
    m: Map<KeyView, u64>,
    keys: Seq<KeyView>,
    at: u64,
    now: u64,
    t: TargetView,
    new: Seq<TargetView>,
    unix: u64,
)
    requires
        keys.contains(t.key),
        elapsed(now, at) < SUPPRESS_TTL,
    ensures
        !crashed(t, new, younger(with_keys(m, keys, at), now, SUPPRESS_TTL), unix),
{
    lemma_with_keys(m, keys, at, t.key);
}

/// Something is reported if and only if some target crashed.
pub proof fn crashes_are_reported(
    old: Seq<TargetView>,
    new: Seq<TargetView>,
    expected: Map<KeyView, u64>,
    unix: u64,
)
    ensures
        crash_report(old, new, expected, unix) is Some <==> exists|i: int|
            0 <= i < old.len() && crashed(#[trigger] old[i], new, expected, unix),
    decreases old.len(),
{
    if old.len() > 0 {
        let d = old.drop_last();
        crashes_are_reported(d, new, expected, unix);
        if exists|i: int| 0 <= i < d.len() && crashed(#[trigger] d[i], new, expected, unix) {
            let i = choose|i: int|
                0 <= i < d.len() && crashed(#[trigger] d[i], new, expected, unix);
            assert(crashed(old[i], new, expected, unix));
        }
        if exists|i: int| 0 <= i < old.len() && crashed(#[trigger] old[i], new, expected, unix) {
            let i = choose|i: int|
                0 <= i < old.len() && crashed(#[trigger] old[i], new, expected, unix);
            if i < d.len() {
                assert(d[i] == old[i]);
            }
        }
        if crashed(old.last(), new, expected, unix) {
            assert(crashed(old[old.len() - 1], new, expected, unix));
        }
    }
}

// ----------------------------------------------------------------------- panes

proof fn lemma_without(list: Seq<Seq<char>>, s: Seq<char>, x: Seq<char>)
    ensures
        without(list, s).contains(x) <==> list.contains(x) && x != s,
    decreases list.len(),
{
    if list.len() > 0 {
        let d = list.drop_last();
        let before = without(d, s);
        lemma_without(d, s, x);
        if before.contains(x) {
            let i = choose|i: int| 0 <= i < before.len() && before[i] == x;
            assert(without(list, s)[i] == x);
        }
        if list.last() != s {
            assert(without(list, s)[before.len() as int] == list.last());
        }
        assert(list[list.len() - 1] == list.last());
        if d.contains(x) {
            let i = choose|i: int| 0 <= i < d.len() && d[i] == x;
            assert(list[i] == x);
        }
        if list.contains(x) && x != list.last() {
            let i = choose|i: int| 0 <= i < list.len() && list[i] == x;
            assert(d[i] == x);
        }
    }
}

/// Folding a group and unfolding it again leaves the same groups folded.
pub proof fn folding_twice_restores(a: App, b: App, c: App, x: Seq<char>)
    requires
        folded(a, b),
        folded(b, c),
    ensures
        text::texts(c.collapsed@).contains(x) <==> text::texts(a.collapsed@).contains(x),
{
    match a.selected {
        Some(Entry::Group(p)) => {
            let la = text::texts(a.collapsed@);
            let lb = text::texts(b.collapsed@);
            lemma_toggled(la, p@, x);
            lemma_toggled(la, p@, p@);
            lemma_toggled(lb, p@, x);
        },
        _ => {},
    }
}

proof fn lemma_toggled(list: Seq<Seq<char>>, s: Seq<char>, x: Seq<char>)
    ensures
        toggled(list, s).contains(x) <==> (if x == s {
            !list.contains(s)
        } else {
            list.contains(x)
        }),
{
    lemma_without(list, s, x);
    if !list.contains(s) {
        let all = list.push(s);
        assert(all[list.len() as int] == s);
        if list.contains(x) {
            let i = choose|i: int| 0 <= i < list.len() && list[i] == x;
            assert(all[i] == x);
        }
        if all.contains(x) && x != s {
            let i = choose|i: int| 0 <= i < all.len() && all[i] == x;
            assert(list[i] == x);
        }
    }
}

/// The last lines of a list, no more than are kept.
pub open spec fn latest(lines: Seq<Seq<char>>) -> Seq<Seq<char>> {
    lines.skip(less(lines.len() as int, LOG_LINES as int))
}

/// A log pane keeps the latest lines, and one that follows the end goes on to do so.
pub proof fn pane_keeps_the_latest(p: (Seq<Seq<char>>, Option<usize>), new: Seq<Seq<char>>)
    requires
        p.0.len() <= LOG_LINES,
    ensures
        fed(p, new).0 == latest(p.0 + new),
        fed(p, new).1 is None <==> p.1 is None,
    decreases new.len(),
{
    if new.len() == 0 {
        assert(p.0 + new =~= p.0);
        assert(latest(p.0) =~= p.0);
    } else {
        let d = new.drop_last();
        pane_keeps_the_latest(p, d);
        assert(fed(p, new).0 =~= latest(p.0 + new));
    }
}

/// A pinned log pane stays on its line while older lines go, as long as that line is kept.
pub proof fn pinned_pane_keeps_its_line(
    p: (Seq<Seq<char>>, Option<usize>),
    new: Seq<Seq<char>>,
    s: usize,
)
    requires
        p.0.len() <= LOG_LINES,
        p.1 == Some(s),
        s < p.0.len(),
        less((p.0.len() + new.len()) as int, LOG_LINES as int) <= s,
    ensures
        fed(p, new).1 matches Some(t) && t < fed(p, new).0.len() && fed(p, new).0[t as int]
            == p.0[s as int],
{
    pane_keeps_the_latest(p, new);
    lemma_pin(p, new, s);
}

proof fn lemma_pin(p: (Seq<Seq<char>>, Option<usize>), new: Seq<Seq<char>>, s: usize)
    requires
        p.0.len() <= LOG_LINES,
        p.1 == Some(s),
        less((p.0.len() + new.len()) as int, LOG_LINES as int) <= s,
    ensures
        fed(p, new).1 == Some(
            (s - less((p.0.len() + new.len()) as int, LOG_LINES as int)) as usize,
        ),
    decreases new.len(),
{
    if new.len() > 0 {
        lemma_pin(p, new.drop_last(), s);
        pane_keeps_the_latest(p, new.drop_last());
    }
}

/// Escape closes one thing at a time: after three nothing is open and nothing filtered.
pub proof fn three_escapes_close_everything(
    a: App,
    b: App,
    c: App,
    d: App,
    t1: u64,
    t2: u64,
    t3: u64,
)
    requires
        escaped(a, b, t1),
        escaped(b, c, t2),
        escaped(c, d, t3),
    ensures
        d.log is None,
        !d.inspect,
        d.filter@.len() == 0,
{
}

/// A kill is cancelled at most once.
pub proof fn second_undo_does_nothing(a: App, b: App, now: u64, later: u64)
    requires
        undone(a, b, now),
    ensures
        !b.can_undo(later),
{
}

// -------------------------------------------------------- orders on the targets

/// A port that some shown target of the project holds.
pub open spec fn project_holds(
    targets: Seq<TargetView>,
    filter: Seq<char>,
    project: Seq<char>,
    port: u16,
) -> bool {
    exists|i: int|
        0 <= i < targets.len() && passes(#[trigger] targets[i], filter) && targets[i].project
            == project && targets[i].ports.contains(port)
}

/// The CPU of the shown targets of a project among the first `n`, together.
pub open spec fn project_cpu(
    targets: Seq<TargetView>,
    filter: Seq<char>,
    project: Seq<char>,
    n: nat,
) -> nat
    decreases n,
{
    if n == 0 {
        0
    } else {
        project_cpu(targets, filter, project, (n - 1) as nat) + (if passes(targets[n - 1], filter)
            && targets[n - 1].project == project {
            targets[n - 1].cpu as nat
        } else {
            0
        })
    }
}

/// The memory of the shown targets of a project among the first `n`, together.
pub open spec fn project_memory(
    targets: Seq<TargetView>,
    filter: Seq<char>,
    project: Seq<char>,
    n: nat,
) -> nat
    decreases n,
{
    if n == 0 {
        0
    } else {
        project_memory(targets, filter, project, (n - 1) as nat) + (if passes(
            targets[n - 1],
            filter,
        ) && targets[n - 1].project == project {
            targets[n - 1].mem_bytes as nat
        } else {
            0
        })
    }
}

/// The project `a` may stand ahead of `b`: by port, its lowest is no higher, and a project
/// with a port stands ahead of one without, which are ordered by name; by CPU or memory,
/// it has no less.
pub open spec fn may_stand_ahead(
    targets: Seq<TargetView>,
    filter: Seq<char>,
    mode: SortMode,
    a: Seq<char>,
    b: Seq<char>,
) -> bool {
    match mode {
        SortMode::Port => {
            &&& forall|q: u16| #[trigger]
                project_holds(targets, filter, b, q) ==> exists|p: u16| #[trigger]
                    project_holds(targets, filter, a, p) && p <= q
            &&& (forall|p: u16| !#[trigger] project_holds(targets, filter, a, p))
                ==> !text::precedes(b, a)
        },
        SortMode::Cpu => project_cpu(targets, filter, a, targets.len()) >= project_cpu(
            targets,
            filter,
            b,
            targets.len(),
        ),
        SortMode::Mem => project_memory(targets, filter, a, targets.len()) >= project_memory(
            targets,
            filter,
            b,
            targets.len(),
        ),
    }
}

proof fn lemma_lowest(ports: Seq<u16>)
    ensures
        lowest(ports) is None ==> ports.len() == 0,
        lowest(ports) matches Some(x) ==> ports.contains(x) && forall|q: u16| #[trigger]
            ports.contains(q) ==> x <= q,
    decreases ports.len(),
{
    if ports.len() > 0 {
        let d = ports.drop_last();
        lemma_lowest(d);
        assert(ports[ports.len() - 1] == ports.last());
        assert forall|q: u16| #[trigger] ports.contains(q) implies lowest(ports)->0 <= q by {
            let k = choose|k: int| 0 <= k < ports.len() && ports[k] == q;
            if k < d.len() {
                assert(d[k] == q);
                assert(d.contains(q));
            }
        }
        if d.contains(lowest(ports)->0) {
            let k = choose|k: int| 0 <= k < d.len() && d[k] == lowest(ports)->0;
            assert(ports[k] == lowest(ports)->0);
        }
    }
}

proof fn lemma_lowest_of(targets: Seq<TargetView>, members: Seq<usize>)
    ensures
        lowest_of(targets, members) is None ==> forall|k: int|
            0 <= k < members.len() ==> targets[#[trigger] members[k] as int].ports.len() == 0,
        lowest_of(targets, members) matches Some(x) ==> (exists|k: int|
            0 <= k < members.len() && targets[#[trigger] members[k] as int].ports.contains(x)) && (
        forall|k: int, q: u16|
            0 <= k < members.len() && #[trigger] targets[members[k] as int].ports.contains(q) ==> x
                <= q),
    decreases members.len(),
{
    if members.len() > 0 {
        let d = members.drop_last();
        let last = members.len() - 1;
        lemma_lowest_of(targets, d);
        let own = targets[members[last] as int].ports;
        lemma_lowest(own);
        match lowest_of(targets, members) {
            None => {
                assert forall|k: int| 0 <= k < members.len() implies targets[#[trigger] members[k] as int].ports.len()
                    == 0 by {
                    if k < d.len() {
                        assert(d[k] == members[k]);
                    }
                }
            },
            Some(x) => {
                if lowest_of(targets, d) == Some(x) {
                    let k = choose|k: int|
                        0 <= k < d.len() && targets[#[trigger] d[k] as int].ports.contains(x);
                    assert(members[k] == d[k]);
                }
                assert forall|k: int, q: u16|
                    0 <= k < members.len()
                        && #[trigger] targets[members[k] as int].ports.contains(q) implies x
                    <= q by {
                    if k < d.len() {
                        assert(d[k] == members[k]);
                        assert(targets[d[k] as int].ports.contains(q));
                    }
                }
            },
        }
    }
}

proof fn lemma_sum_ranked(
    targets: Seq<TargetView>,
    list: Seq<usize>,
    x: usize,
    before: spec_fn(usize, usize) -> bool,
)
    ensures
        cpu_of(targets, ranked_by(list, x, before)) == cpu_of(targets, list)
            + targets[x as int].cpu,
        mem_of(targets, ranked_by(list, x, before)) == mem_of(targets, list)
            + targets[x as int].mem_bytes,
    decreases list.len(),
{
    if list.len() == 0 || !before(x, list.last()) {
        assert(list.push(x).drop_last() =~= list);
    } else {
        let r = ranked_by(list.drop_last(), x, before);
        lemma_sum_ranked(targets, list.drop_last(), x, before);
        assert(r.push(list.last()).drop_last() =~= r);
    }
}

proof fn lemma_sum_sorted(
    targets: Seq<TargetView>,
    list: Seq<usize>,
    before: spec_fn(usize, usize) -> bool,
)
    ensures
        cpu_of(targets, sorted_by(list, before)) == cpu_of(targets, list),
        mem_of(targets, sorted_by(list, before)) == mem_of(targets, list),
    decreases list.len(),
{
    if list.len() > 0 {
        lemma_sum_sorted(targets, list.drop_last(), before);
        lemma_sum_ranked(targets, sorted_by(list.drop_last(), before), list.last(), before);
    }
}

proof fn lemma_sum_matching(
    targets: Seq<TargetView>,
    filter: Seq<char>,
    project: Seq<char>,
    n: nat,
)
    requires
        n <= targets.len() <= usize::MAX,
    ensures
        cpu_of(targets, matching(targets, filter, project, n)) == project_cpu(
            targets,
            filter,
            project,
            n,
        ),
        mem_of(targets, matching(targets, filter, project, n)) == project_memory(
            targets,
            filter,
            project,
            n,
        ),
    decreases n,
{
    if n > 0 {
        let before = matching(targets, filter, project, (n - 1) as nat);
        lemma_sum_matching(targets, filter, project, (n - 1) as nat);
        assert(before.push((n - 1) as usize).drop_last() =~= before);
    }
}

proof fn lemma_group_sums(targets: Seq<TargetView>, filter: Seq<char>, mode: SortMode, k: int)
    requires
        targets.len() <= usize::MAX,
        0 <= k < shown_groups(targets, filter, mode).len(),
    ensures
        ({
            let g = shown_groups(targets, filter, mode)[k];
            &&& cpu_of(targets, g.members) == project_cpu(
                targets,
                filter,
                g.project,
                targets.len(),
            )
            &&& mem_of(targets, g.members) == project_memory(
                targets,
                filter,
                g.project,
                targets.len(),
            )
        }),
{
    let plain = grouped(targets, filter, targets.len());
    lemma_grouped(targets, filter, targets.len());
    assert(plain[k].members.len() > 0);
    lemma_sum_sorted(targets, plain[k].members, member_order(targets, mode));
    lemma_sum_matching(targets, filter, plain[k].project, targets.len());
}

proof fn lemma_group_ports(
    targets: Seq<TargetView>,
    filter: Seq<char>,
    mode: SortMode,
    k: int,
    port: u16,
)
    requires
        targets.len() <= usize::MAX,
        0 <= k < shown_groups(targets, filter, mode).len(),
    ensures
        ({
            let g = shown_groups(targets, filter, mode)[k];
            project_holds(targets, filter, g.project, port) <==> exists|j: int|
                0 <= j < g.members.len() && targets[#[trigger] g.members[j] as int].ports.contains(
                    port,
                )
        }),
{
    let g = shown_groups(targets, filter, mode)[k];
    lemma_shown_groups(targets, filter, mode, k);
    if project_holds(targets, filter, g.project, port) {
        let i = choose|i: int|
            0 <= i < targets.len() && passes(#[trigger] targets[i], filter) && targets[i].project
                == g.project && targets[i].ports.contains(port);
        lemma_matching(targets, filter, g.project, targets.len(), i as usize);
        assert(g.members.contains(i as usize));
        let j = choose|j: int| 0 <= j < g.members.len() && g.members[j] == i as usize;
        assert(targets[g.members[j] as int].ports.contains(port));
    }
    if exists|j: int|
        0 <= j < g.members.len() && targets[#[trigger] g.members[j] as int].ports.contains(port) {
        let j = choose|j: int|
            0 <= j < g.members.len() && targets[#[trigger] g.members[j] as int].ports.contains(
                port,
            );
        assert(g.members.contains(g.members[j]));
        lemma_matching(targets, filter, g.project, targets.len(), g.members[j]);
        assert(passes(targets[g.members[j] as int], filter));
    }
}

/// The projects stand in the order of the sort, told by their targets alone: by port, the
/// one with the lower lowest port first, whatever the projects' names, those with a port
/// ahead of those without; by CPU or memory, the one that uses more first.
pub proof fn projects_stand_in_order(
    targets: Seq<TargetView>,
    filter: Seq<char>,
    mode: SortMode,
    i: int,
    j: int,
)
    requires
        targets.len() <= usize::MAX,
        0 <= i < j < groups_sorted(targets, shown_groups(targets, filter, mode), mode).len(),
    ensures
        ({
            let groups = shown_groups(targets, filter, mode);
            let order = groups_sorted(targets, groups, mode);
            may_stand_ahead(
                targets,
                filter,
                mode,
                groups[order[i] as int].project,
                groups[order[j] as int].project,
            )
        }),
{
    let groups = shown_groups(targets, filter, mode);
    let order = groups_sorted(targets, groups, mode);
    rows_stand_in_order(targets, filter, mode);
    lemma_order_places(targets, filter, mode);
    let f = group_order(targets, groups, mode);
    assert(!f(order[j], order[i]));
    let x = order[i] as int;
    let y = order[j] as int;
    let a = groups[x];
    let b = groups[y];
    assert(!super::entries::group_before(targets, b, a, mode));
    match mode {
        SortMode::Port => {
            lemma_lowest_of(targets, a.members);
            lemma_lowest_of(targets, b.members);
            assert forall|q: u16| #[trigger]
                project_holds(targets, filter, b.project, q) implies exists|p: u16| #[trigger]
                project_holds(targets, filter, a.project, p) && p <= q by {
                lemma_group_ports(targets, filter, mode, y, q);
                let k = choose|k: int|
                    0 <= k < b.members.len()
                        && targets[#[trigger] b.members[k] as int].ports.contains(q);
                assert(targets[b.members[k] as int].ports.contains(q));
                assert(lowest_of(targets, b.members) is Some);
                let p = lowest_of(targets, a.members)->0;
                lemma_group_ports(targets, filter, mode, x, p);
                assert(project_holds(targets, filter, a.project, p));
            }
            if forall|p: u16| !#[trigger] project_holds(targets, filter, a.project, p) {
                match lowest_of(targets, a.members) {
                    Some(p) => {
                        lemma_group_ports(targets, filter, mode, x, p);
                        assert(project_holds(targets, filter, a.project, p));
                    },
                    None => {},
                }
            }
        },
        _ => {
            lemma_group_sums(targets, filter, mode, x);
            lemma_group_sums(targets, filter, mode, y);
        },
    }
}

proof fn lemma_order_places(targets: Seq<TargetView>, filter: Seq<char>, mode: SortMode)
    requires
        targets.len() <= usize::MAX,
    ensures
        forall|i: int|
            0 <= i < groups_sorted(targets, shown_groups(targets, filter, mode), mode).len() ==> (
            #[trigger] groups_sorted(targets, shown_groups(targets, filter, mode), mode)[i])
                < shown_groups(targets, filter, mode).len(),
{
    let groups = shown_groups(targets, filter, mode);
    let all = places(groups.len());
    let order = groups_sorted(targets, groups, mode);
    lemma_group_count(targets, filter, targets.len());
    sorting_keeps_members(all, group_order(targets, groups, mode));
    assert forall|i: int| 0 <= i < order.len() implies (#[trigger] order[i]) < groups.len() by {
        assert(order.contains(order[i]));
        assert(all.contains(order[i]));
    }
}

/// The row at `i` is the one at `u` of what the group at `x` shows.
spec fn row_stands_in(
    targets: Seq<TargetView>,
    collapsed: Seq<Seq<char>>,
    groups: Seq<GroupView>,
    order: Seq<usize>,
    i: int,
    x: int,
    u: int,
) -> bool {
    let own = group_entries(targets, collapsed, groups[order[x] as int]);
    &&& 0 <= x < order.len()
    &&& 0 <= u < own.len()
    &&& flattened(targets, collapsed, groups, order)[i] == own[u]
    &&& i - u == flattened(targets, collapsed, groups, order.take(x)).len()
}

proof fn lemma_stands_in(
    targets: Seq<TargetView>,
    collapsed: Seq<Seq<char>>,
    groups: Seq<GroupView>,
    order: Seq<usize>,
    i: int,
)
    requires
        0 <= i < flattened(targets, collapsed, groups, order).len(),
    ensures
        exists|x: int, u: int| #[trigger]
            row_stands_in(targets, collapsed, groups, order, i, x, u),
    decreases order.len(),
{
    let d = order.drop_last();
    let before = flattened(targets, collapsed, groups, d);
    if i < before.len() {
        lemma_stands_in(targets, collapsed, groups, d, i);
        let (x, u) = choose|x: int, u: int| #[trigger]
            row_stands_in(targets, collapsed, groups, d, i, x, u);
        assert(d.take(x) =~= order.take(x));
        assert(row_stands_in(targets, collapsed, groups, order, i, x, u));
    } else {
        assert(order.take(order.len() - 1) =~= d);
        assert(row_stands_in(
            targets,
            collapsed,
            groups,
            order,
            i,
            order.len() - 1,
            i - before.len(),
        ));
    }
}

proof fn lemma_flat_grows(
    targets: Seq<TargetView>,
    collapsed: Seq<Seq<char>>,
    groups: Seq<GroupView>,
    order: Seq<usize>,
    x: int,
    y: int,
)
    requires
        0 <= x <= y <= order.len(),
    ensures
        flattened(targets, collapsed, groups, order.take(x)).len() <= flattened(
            targets,
            collapsed,
            groups,
            order.take(y),
        ).len(),
        x < y ==> flattened(targets, collapsed, groups, order.take(x)).len() + group_entries(
            targets,
            collapsed,
            groups[order[x] as int],
        ).len() <= flattened(targets, collapsed, groups, order.take(y)).len(),
    decreases y - x,
{
    if x < y {
        assert(order.take(y).drop_last() =~= order.take(y - 1));
        lemma_flat_grows(targets, collapsed, groups, order, x, y - 1);
        if x == y - 1 {
            assert(order.take(y).last() == order[x]);
        }
    }
}

proof fn lemma_own_project(
    targets: Seq<TargetView>,
    filter: Seq<char>,
    mode: SortMode,
    collapsed: Seq<Seq<char>>,
    k: int,
    u: int,
    p: Seq<char>,
)
    requires
        targets.len() <= usize::MAX,
        keys_differ(targets),
        0 <= k < shown_groups(targets, filter, mode).len(),
        0 <= u < group_entries(targets, collapsed, shown_groups(targets, filter, mode)[k]).len(),
        is_of(
            targets,
            p,
            group_entries(targets, collapsed, shown_groups(targets, filter, mode)[k])[u],
        ),
    ensures
        p == shown_groups(targets, filter, mode)[k].project,
{
    let g = shown_groups(targets, filter, mode)[k];
    let e = group_entries(targets, collapsed, g)[u];
    lemma_group_rows(targets, filter, mode, collapsed, k);
    if p != g.project {
        lemma_projects_apart(targets, p, g.project, e, e);
        assert(one_selection(e, e));
    }
}

/// The rows on the screen stand in the order of the sort: whenever a row of one project
/// stands above a row of another, the first project may stand ahead of the second.
pub proof fn rows_stand_by_project(
    targets: Seq<TargetView>,
    filter: Seq<char>,
    mode: SortMode,
    collapsed: Seq<Seq<char>>,
    i: int,
    j: int,
    a: Seq<char>,
    b: Seq<char>,
)
    requires
        targets.len() <= usize::MAX,
        keys_differ(targets),
        0 <= i < j < fresh_entries(targets, filter, mode, collapsed).len(),
        is_of(targets, a, fresh_entries(targets, filter, mode, collapsed)[i]),
        is_of(targets, b, fresh_entries(targets, filter, mode, collapsed)[j]),
        a != b,
    ensures
        may_stand_ahead(targets, filter, mode, a, b),
{
    let groups = shown_groups(targets, filter, mode);
    let order = groups_sorted(targets, groups, mode);
    lemma_order_places(targets, filter, mode);
    lemma_stands_in(targets, collapsed, groups, order, i);
    lemma_stands_in(targets, collapsed, groups, order, j);
    let (x, u) = choose|x: int, u: int| #[trigger]
        row_stands_in(targets, collapsed, groups, order, i, x, u);
    let (y, v) = choose|y: int, v: int| #[trigger]
        row_stands_in(targets, collapsed, groups, order, j, y, v);
    lemma_own_project(targets, filter, mode, collapsed, order[x] as int, u, a);
    lemma_own_project(targets, filter, mode, collapsed, order[y] as int, v, b);
    if y < x {
        lemma_flat_grows(targets, collapsed, groups, order, y, x);
    }
    assert(x != y);
    projects_stand_in_order(targets, filter, mode, x, y);
}

/// Within a project the targets stand in the order of the sort, and they stand right below
/// the project's header: a member's row has above it the header of its project or another
/// member of it that may stand ahead, by its lowest port, its CPU or its memory.
pub proof fn members_stand_below_their_header(
    targets: Seq<TargetView>,
    filter: Seq<char>,
    mode: SortMode,
    collapsed: Seq<Seq<char>>,
    i: int,
)
    requires
        targets.len() <= usize::MAX,
        0 <= i < fresh_entries(targets, filter, mode, collapsed).len(),
        fresh_entries(targets, filter, mode, collapsed)[i] is Member,
    ensures
        i > 0,
        exists|y: int|
            {
                &&& 0 <= y < targets.len()
                &&& (#[trigger] targets[y]).key == fresh_entries(
                    targets,
                    filter,
                    mode,
                    collapsed,
                )[i]->Member_0
                &&& {
                    ||| fresh_entries(targets, filter, mode, collapsed)[i - 1] == EntryView::Group(
                        targets[y].project,
                    )
                    ||| exists|x: int|
                        {
                            &&& 0 <= x < targets.len()
                            &&& fresh_entries(targets, filter, mode, collapsed)[i - 1]
                                == EntryView::Member((#[trigger] targets[x]).key)
                            &&& targets[x].project == targets[y].project
                            &&& target_may_stand_ahead(targets[x], targets[y], mode)
                        }
                }
            },
{
    let rows = fresh_entries(targets, filter, mode, collapsed);
    let groups = shown_groups(targets, filter, mode);
    let order = groups_sorted(targets, groups, mode);
    lemma_order_places(targets, filter, mode);
    lemma_stands_in(targets, collapsed, groups, order, i);
    let (x, u) = choose|x: int, u: int| #[trigger]
        row_stands_in(targets, collapsed, groups, order, i, x, u);
    let k = order[x] as int;
    let g = groups[k];
    let own = group_entries(targets, collapsed, g);
    lemma_group_members(targets, filter, mode, k);
    assert(u > 0);
    let n = flattened(targets, collapsed, groups, order.take(x)).len();
    lemma_block(targets, collapsed, groups, order, x, u - 1);
    assert(rows[i - 1] == own[u - 1]);
    let b = g.members[u - 1];
    assert(targets[b as int].key == rows[i]->Member_0);
    if u > 1 {
        let a = g.members[u - 2];
        rows_stand_in_order(targets, filter, mode);
        assert(in_order(g.members, member_order(targets, mode)));
        assert(!member_order(targets, mode)(g.members[u - 1], g.members[u - 2]));
        assert(rows[i - 1] == EntryView::Member(targets[a as int].key));
        assert(target_may_stand_ahead(targets[a as int], targets[b as int], mode));
    }
}

proof fn lemma_block(
    targets: Seq<TargetView>,
    collapsed: Seq<Seq<char>>,
    groups: Seq<GroupView>,
    order: Seq<usize>,
    x: int,
    u: int,
)
    requires
        0 <= x < order.len(),
        0 <= u < group_entries(targets, collapsed, groups[order[x] as int]).len(),
    ensures
        ({
            let n = flattened(targets, collapsed, groups, order.take(x)).len();
            let all = flattened(targets, collapsed, groups, order);
            &&& n + u < all.len()
            &&& all[n + u] == group_entries(targets, collapsed, groups[order[x] as int])[u]
        }),
    decreases order.len(),
{
    let d = order.drop_last();
    if x < order.len() - 1 {
        lemma_block(targets, collapsed, groups, d, x, u);
        assert(d.take(x) =~= order.take(x));
    } else {
        assert(order.take(x) =~= d);
    }
}

/// The target `a` may stand ahead of `b`: by port, its lowest is no higher, and one with a
/// port stands ahead of one without; by CPU or memory, it has no less.
pub open spec fn target_may_stand_ahead(a: TargetView, b: TargetView, mode: SortMode) -> bool {
    match mode {
        SortMode::Port => {
            &&& b.ports.len() > 0 ==> a.ports.len() > 0 && a.ports[0] <= b.ports[0]
            &&& a.ports.len() == 0 ==> !text::precedes(b.project, a.project)
        },
        SortMode::Cpu => a.cpu >= b.cpu,
        SortMode::Mem => a.mem_bytes >= b.mem_bytes,
    }
}

/// The next sort comes round: from port to CPU, to memory, and back to port.
pub proof fn sorts_come_round(m: SortMode)
    ensures
        m.following() != m,
        m.following().following() != m,
        m.following().following().following() == m,
        SortMode::Port.following() == SortMode::Cpu,
{
}

// ---------------------------------------------------------------------- filter

/// An empty filter hides nothing; a filter that is, in lower case, a part of a target's
/// project, command, directory or branch, or of one of its ports, shows the target.
pub proof fn filters_find_parts(
    t: TargetView,
    filter: Seq<char>,
    a: Seq<char>,
    b: Seq<char>,
    k: int,
)
    ensures
        passes(t, Seq::empty()),
        text::lowercase(t.project) == a + text::lowercase(filter) + b ==> passes(t, filter),
        text::lowercase(t.command_label) == a + text::lowercase(filter) + b ==> passes(t, filter),
        text::lowercase(t.cwd) == a + text::lowercase(filter) + b ==> passes(t, filter),
        t.git_branch matches Some(x) ==> (text::lowercase(x) == a + text::lowercase(filter) + b
            ==> passes(t, filter)),
        0 <= k < t.ports.len() && text::decimal(t.ports[k] as nat) == a + text::lowercase(filter)
            + b ==> passes(t, filter),
{
    text::lemma_stands_between(a, text::lowercase(filter), b);
    if 0 <= k < t.ports.len() && text::decimal(t.ports[k] as nat) == a + text::lowercase(filter)
        + b {
        assert(text::occurs(text::lowercase(filter), text::decimal(t.ports[k] as nat)));
        assert(super::entries::port_holds(t.ports, text::lowercase(filter)));
    }
}

/// A filter shows nothing else: what passes one that is not empty has it, in lower case, in
/// its project, command, directory, branch or one of its ports.
pub proof fn filters_find_nothing_else(t: TargetView, filter: Seq<char>)
    requires
        filter.len() > 0,
        passes(t, filter),
    ensures
        exists|a: Seq<char>, b: Seq<char>|
            {
                let whole = #[trigger] (a + text::lowercase(filter) + b);
                ||| whole == text::lowercase(t.project)
                ||| whole == text::lowercase(t.command_label)
                ||| whole == text::lowercase(t.cwd)
                ||| t.git_branch is Some && whole == text::lowercase(t.git_branch->0)
                ||| exists|k: int|
                    0 <= k < t.ports.len() && whole == text::decimal(#[trigger] t.ports[k] as nat)
            },
{
    let q = text::lowercase(filter);
    let big = if text::occurs(q, text::lowercase(t.project)) {
        text::lowercase(t.project)
    } else if text::occurs(q, text::lowercase(t.command_label)) {
        text::lowercase(t.command_label)
    } else if text::occurs(q, text::lowercase(t.cwd)) {
        text::lowercase(t.cwd)
    } else if super::entries::port_holds(t.ports, q) {
        let k = choose|k: int|
            0 <= k < t.ports.len() && text::occurs(q, text::decimal(#[trigger] t.ports[k] as nat));
        text::decimal(t.ports[k] as nat)
    } else {
        text::lowercase(t.git_branch->0)
    };
    assert(text::occurs(q, big));
    let i = choose|i: int| #[trigger] text::stands_at(big, q, i);
    let a = big.take(i);
    let b = big.skip(i + q.len());
    assert(a + q + b =~= big);
}

} // verus!
