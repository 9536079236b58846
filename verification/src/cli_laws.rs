//! What holds of the command line as a whole: which targets an invocation reaches, and
//! what is told and done about each of them.
use vstd::prelude::*;

use crate::cli::{
    act_views, all_json, all_kill_steps, all_restart_steps, any_chooses, bad_flag_in, chooses,
    chosen, container_report, dump_body, dump_line, dump_text, has_container, idle_report,
    immediate, is_flag, json_of, json_views, kill_planned, kill_steps, killing, ls_json_given,
    ls_output, ls_targets, native_starts, no_match, relaunch_report, relaunch_views, relaunches_of,
    restart_planned, restart_steps, selectors_in, table_body, target_line, target_urls, understood,
    url_json_given, url_lines, url_output, url_pairs, ActView, InvocationView, KillPlan, Output,
    RelaunchView, RestartCommand, TargetJson, UrlJson,
};
use crate::model::TargetView;
use crate::proctree::lemma_joined_contains;
use crate::text;
use crate::ui::format::{cpu_text, NONE};
use crate::verbs::PidStart;

verus! {

// ------------------------------------------------------------------ selection

/// A port spelled out is read back as that port.
pub proof fn port_is_read_back(p: u16)
    ensures
        text::port_number(text::decimal(p as nat)) == Some(p),
        text::decimal(p as nat)[0] != ':',
{
    text::lemma_decimal(p as nat);
    let d = text::decimal(p as nat);
    assert(text::is_digit(d[0]));
    assert(text::unsigned(d) == d);
}

pub proof fn lemma_colon(d: Seq<char>)
    requires
        d.len() > 0,
        d[0] != ':',
    ensures
        text::without_leading(d, ':') == d,
        text::without_leading(":"@ + d, ':') == d,
{
    reveal_strlit(":");
    assert((":"@ + d)[0] == ':');
    assert((":"@ + d).drop_first() =~= d);
    assert(text::without_leading(":"@ + d, ':') == text::without_leading(d, ':'));
}

/// The port, bare or behind a colon.
pub open spec fn says_port(sel: Seq<char>, p: u16) -> bool {
    sel == text::decimal(p as nat) || sel == ":"@ + text::decimal(p as nat)
}

/// `small` stands somewhere in `big`, in any case.
pub open spec fn is_part(small: Seq<char>, big: Seq<char>) -> bool {
    exists|a: Seq<char>, b: Seq<char>| #[trigger]
        (a + text::lowercase(small) + b) == text::lowercase(big)
}

proof fn lemma_is_part(small: Seq<char>, big: Seq<char>)
    ensures
        is_part(small, big) <==> text::occurs(text::lowercase(small), text::lowercase(big)),
{
    let s = text::lowercase(small);
    let t = text::lowercase(big);
    if is_part(small, big) {
        let (a, b) = choose|a: Seq<char>, b: Seq<char>| #[trigger] (a + s + b) == t;
        assert(t.subrange(a.len() as int, (a.len() + s.len()) as int) =~= s);
        assert(text::stands_at(t, s, a.len() as int));
    }
    if text::occurs(s, t) {
        let i = choose|i: int| #[trigger] text::stands_at(t, s, i);
        let a = t.take(i);
        let b = t.skip(i + s.len());
        assert(a + s + b =~= t);
    }
}

proof fn lemma_chosen_member(targets: Seq<TargetView>, selectors: Seq<Seq<char>>, t: TargetView)
    ensures
        chosen(targets, selectors).contains(t) <==> targets.contains(t) && any_chooses(
            t,
            selectors,
        ),
    decreases targets.len(),
{
    if targets.len() > 0 {
        let d = targets.drop_last();
        let last = targets.last();
        lemma_chosen_member(d, selectors, t);
        assert(targets =~= d + seq![last]);
        lemma_joined_contains(d, seq![last], t);
        assert(seq![last][0] == last);
        if any_chooses(last, selectors) {
            assert(chosen(targets, selectors) =~= chosen(d, selectors) + seq![last]);
            lemma_joined_contains(chosen(d, selectors), seq![last], t);
        }
    }
}

/// A selector that is a port, bare or behind a colon, chooses every target that holds
/// the port, whatever other selectors stand beside it.
pub proof fn a_port_selects(
    targets: Seq<TargetView>,
    selectors: Seq<Seq<char>>,
    i: int,
    k: int,
    p: u16,
)
    requires
        0 <= i < targets.len(),
        0 <= k < selectors.len(),
        says_port(selectors[k], p),
        targets[i].ports.contains(p),
    ensures
        chosen(targets, selectors).contains(targets[i]),
{
    port_is_read_back(p);
    text::lemma_decimal(p as nat);
    lemma_colon(text::decimal(p as nat));
    assert(chooses(targets[i], selectors[k]));
    lemma_chosen_member(targets, selectors, targets[i]);
}

/// A selector that is a part of a project's name or of a command chooses every target
/// with that name or command, in any case.
pub proof fn a_part_of_a_name_selects(
    targets: Seq<TargetView>,
    selectors: Seq<Seq<char>>,
    i: int,
    k: int,
)
    requires
        0 <= i < targets.len(),
        0 <= k < selectors.len(),
        is_part(selectors[k], targets[i].project) || is_part(
            selectors[k],
            targets[i].command_label,
        ),
    ensures
        chosen(targets, selectors).contains(targets[i]),
{
    lemma_is_part(selectors[k], targets[i].project);
    lemma_is_part(selectors[k], targets[i].command_label);
    assert(chooses(targets[i], selectors[k]));
    lemma_chosen_member(targets, selectors, targets[i]);
}

/// Nothing else is chosen: a chosen target is one of the snapshot, and some selector is
/// a part of its project's name or of its command, or is the number of a port it holds.
pub proof fn nothing_else_is_selected(
    targets: Seq<TargetView>,
    selectors: Seq<Seq<char>>,
    t: TargetView,
)
    requires
        chosen(targets, selectors).contains(t),
    ensures
        targets.contains(t),
        exists|k: int|
            0 <= k < selectors.len() && {
                ||| is_part(#[trigger] selectors[k], t.project)
                ||| is_part(selectors[k], t.command_label)
                ||| exists|p: u16| #[trigger]
                    t.ports.contains(p) && text::port_number(
                        text::without_leading(selectors[k], ':'),
                    ) == Some(p)
            },
{
    lemma_chosen_member(targets, selectors, t);
    let k = choose|k: int| 0 <= k < selectors.len() && chooses(t, #[trigger] selectors[k]);
    lemma_is_part(selectors[k], t.project);
    lemma_is_part(selectors[k], t.command_label);
}

/// The chosen targets stand in the order of the snapshot, each as often as there: what
/// is chosen of two lists one behind the other is chosen of each. Without a selector
/// nothing is chosen.
pub proof fn selection_keeps_order(
    a: Seq<TargetView>,
    b: Seq<TargetView>,
    selectors: Seq<Seq<char>>,
)
    ensures
        chosen(a + b, selectors) == chosen(a, selectors) + chosen(b, selectors),
        forall|t: TargetView| #[trigger]
            chosen(seq![t], selectors) == seq![t] || chosen(seq![t], selectors)
                == Seq::<TargetView>::empty(),
        chosen(a, Seq::empty()) == Seq::<TargetView>::empty(),
    decreases a.len() + b.len(),
{
    assert forall|t: TargetView| #[trigger]
        chosen(seq![t], selectors) == seq![t] || chosen(seq![t], selectors)
            == Seq::<TargetView>::empty() by {
        assert(seq![t].drop_last() =~= Seq::<TargetView>::empty());
        assert(seq![t].last() == t);
        reveal_with_fuel(chosen, 2);
        if any_chooses(t, selectors) {
            assert(chosen(seq![t], selectors) =~= seq![t]);
        } else {
            assert(chosen(seq![t], selectors) =~= Seq::<TargetView>::empty());
        }
    }
    if b.len() > 0 {
        selection_keeps_order(a, b.drop_last(), selectors);
        assert((a + b).drop_last() =~= a + b.drop_last());
        assert((a + b).last() == b.last());
        assert(chosen(a + b, selectors) =~= chosen(a, selectors) + chosen(b, selectors));
    } else {
        assert(a + b =~= a);
        assert(chosen(b, selectors) =~= Seq::<TargetView>::empty());
        assert(chosen(a, selectors) + chosen(b, selectors) =~= chosen(a, selectors));
        if a.len() > 0 {
            selection_keeps_order(a.drop_last(), b, selectors);
        }
    }
}

// --------------------------------------------------------------------- restart

/// The relaunch starts the whole command of the target in its directory, under its name.
pub open spec fn relaunches_target(r: RelaunchView, t: TargetView) -> bool {
    &&& t.container is None
    &&& t.anchor_argv.len() > 0
    &&& r.project == t.project
    &&& r.argv == t.anchor_argv
    &&& r.cwd == t.cwd
}

/// What a restart starts again: every relaunch has the project, the whole captured
/// command line and the working directory of one chosen target that is no container, and
/// every such target whose command line was captured is started again.
pub proof fn restart_relaunches_what_was_chosen(
    targets: Seq<TargetView>,
    selectors: Seq<Seq<char>>,
)
    ensures
        ({
            let sel = chosen(targets, selectors);
            let again = relaunches_of(sel);
            &&& forall|j: int|
                0 <= j < again.len() ==> exists|i: int|
                    0 <= i < sel.len() && relaunches_target(#[trigger] again[j], #[trigger] sel[i])
            &&& forall|i: int|
                0 <= i < sel.len() && (#[trigger] sel[i]).container is None
                    && sel[i].anchor_argv.len() > 0 ==> exists|j: int|
                    0 <= j < again.len() && relaunches_target(#[trigger] again[j], sel[i])
        }),
{
    lemma_relaunches(chosen(targets, selectors));
}

proof fn lemma_relaunches(sel: Seq<TargetView>)
    ensures
        forall|j: int|
            0 <= j < relaunches_of(sel).len() ==> exists|i: int|
                0 <= i < sel.len() && relaunches_target(
                    #[trigger] relaunches_of(sel)[j],
                    #[trigger] sel[i],
                ),
        forall|i: int|
            0 <= i < sel.len() && (#[trigger] sel[i]).container is None
                && sel[i].anchor_argv.len() > 0 ==> exists|j: int|
                0 <= j < relaunches_of(sel).len() && relaunches_target(
                    #[trigger] relaunches_of(sel)[j],
                    sel[i],
                ),
    decreases sel.len(),
{
    if sel.len() > 0 {
        let d = sel.drop_last();
        let t = sel.last();
        lemma_relaunches(d);
        let before = relaunches_of(d);
        let again = relaunches_of(sel);
        assert forall|j: int| 0 <= j < again.len() implies exists|i: int|
            0 <= i < sel.len() && relaunches_target(#[trigger] again[j], #[trigger] sel[i]) by {
            if j < before.len() {
                assert(again[j] == before[j]);
                let i = choose|i: int|
                    0 <= i < d.len() && relaunches_target(before[j], #[trigger] d[i]);
                assert(sel[i] == d[i]);
            } else {
                assert(relaunches_target(again[j], sel[sel.len() - 1]));
            }
        }
        assert forall|i: int|
            0 <= i < sel.len() && (#[trigger] sel[i]).container is None
                && sel[i].anchor_argv.len() > 0 implies exists|j: int|
            0 <= j < again.len() && relaunches_target(#[trigger] again[j], sel[i]) by {
            if i < d.len() {
                assert(d[i] == sel[i]);
                let j = choose|j: int|
                    0 <= j < before.len() && relaunches_target(#[trigger] before[j], d[i]);
                assert(again[j] == before[j]);
            } else {
                assert(again[before.len() as int].project == t.project);
                assert(relaunches_target(again[before.len() as int], t));
            }
        }
    }
}

/// Targets are started again in the order in which they were chosen, each once: what is
/// started of two lists one behind the other is started of each, and of one target at
/// most one command.
pub proof fn restart_keeps_order(a: Seq<TargetView>, b: Seq<TargetView>, t: TargetView)
    ensures
        relaunches_of(a + b) == relaunches_of(a) + relaunches_of(b),
        relaunches_of(seq![t]).len() <= 1,
    decreases b.len(),
{
    assert(seq![t].drop_last() =~= Seq::<TargetView>::empty());
    reveal_with_fuel(relaunches_of, 2);
    if b.len() > 0 {
        restart_keeps_order(a, b.drop_last(), t);
        assert((a + b).drop_last() =~= a + b.drop_last());
        assert((a + b).last() == b.last());
        assert(relaunches_of(a + b) =~= relaunches_of(a) + relaunches_of(b));
    } else {
        assert(a + b =~= a);
        assert(relaunches_of(a) + relaunches_of(b) =~= relaunches_of(a));
    }
}

/// A container is restarted exactly where one was chosen, and the command then knows
/// that it had a container; a process without a captured command line is named.
pub proof fn restart_restarts_containers(sel: Seq<TargetView>, name: Seq<char>)
    ensures
        all_restart_steps(sel).contains(ActView::RestartContainer(name)) <==> exists|i: int|
            0 <= i < sel.len() && (#[trigger] sel[i]).container == Some(name),
        all_restart_steps(sel).contains(ActView::RestartContainer(name)) ==> has_container(sel),
        has_container(sel) ==> exists|i: int|
            0 <= i < sel.len() && (#[trigger] sel[i]).container is Some,
        !all_restart_steps(sel).contains(ActView::StopContainer(name)),
        !all_restart_steps(sel).contains(ActView::Say(name)),
        forall|i: int|
            0 <= i < sel.len() && (#[trigger] sel[i]).container is None
                && sel[i].anchor_argv.len() == 0 ==> exists|m: Seq<char>|
                (#[trigger] all_restart_steps(sel).contains(ActView::Complain(m))) && text::occurs(
                    sel[i].project,
                    m,
                ),
    decreases sel.len(),
{
    if sel.len() > 0 {
        let d = sel.drop_last();
        let t = sel.last();
        let steps = restart_steps(t);
        restart_restarts_containers(d, name);
        let all = all_restart_steps(sel);
        assert(all == all_restart_steps(d) + steps);
        lemma_joined_contains(all_restart_steps(d), steps, ActView::RestartContainer(name));
        lemma_joined_contains(all_restart_steps(d), steps, ActView::StopContainer(name));
        lemma_joined_contains(all_restart_steps(d), steps, ActView::Say(name));
        if t.container == Some(name) {
            assert(steps[0] == ActView::RestartContainer(name));
            assert(steps.contains(ActView::RestartContainer(name)));
            assert(sel[sel.len() - 1].container == Some(name));
        }
        if exists|i: int| 0 <= i < sel.len() && (#[trigger] sel[i]).container == Some(name) {
            let i = choose|i: int|
                0 <= i < sel.len() && (#[trigger] sel[i]).container == Some(name);
            if i < d.len() {
                assert(d[i].container == Some(name));
            }
        }
        if all_restart_steps(d).contains(ActView::RestartContainer(name)) {
            let i = choose|i: int| 0 <= i < d.len() && (#[trigger] d[i]).container == Some(name);
            assert(sel[i].container == Some(name));
        }
        assert forall|i: int|
            0 <= i < sel.len() && (#[trigger] sel[i]).container is None
                && sel[i].anchor_argv.len() == 0 implies exists|m: Seq<char>|
            (#[trigger] all.contains(ActView::Complain(m))) && text::occurs(sel[i].project, m) by {
            if i < d.len() {
                assert(d[i].container is None);
                let m = choose|m: Seq<char>|
                    (#[trigger] all_restart_steps(d).contains(ActView::Complain(m)))
                        && text::occurs(d[i].project, m);
                lemma_joined_contains(all_restart_steps(d), steps, ActView::Complain(m));
            } else {
                let m = "skipping "@ + t.project + ": command not captured"@;
                text::lemma_stands_between("skipping "@, t.project, ": command not captured"@);
                assert(steps[0] == ActView::Complain(m));
                lemma_joined_contains(all_restart_steps(d), steps, ActView::Complain(m));
            }
        }
    }
}

/// With nothing to start again and no container the command fails and says so; beside a
/// container it ends with the code that the containers gave.
pub proof fn an_idle_restart_fails(code: i32)
    ensures
        idle_report(false, code).code == 1,
        idle_report(false, code).err.len() > 0,
        idle_report(true, code).code == code,
        idle_report(true, code).err.len() == 0,
{
    reveal_strlit("nothing restartable (command not captured)\n");
}

// ------------------------------------------------------------------------ kill

/// What a kill or a restart signals: exactly the captured processes of the chosen
/// targets that are no containers.
pub proof fn signals_reach_chosen_processes(sel: Seq<TargetView>, ps: PidStart)
    ensures
        native_starts(sel).contains(ps) <==> exists|i: int|
            0 <= i < sel.len() && (#[trigger] sel[i]).container is None
                && sel[i].pid_starts.contains(ps),
    decreases sel.len(),
{
    if sel.len() > 0 {
        let d = sel.drop_last();
        let t = sel.last();
        signals_reach_chosen_processes(d, ps);
        let own = if t.container is Some {
            Seq::<PidStart>::empty()
        } else {
            t.pid_starts
        };
        assert(native_starts(sel) == native_starts(d) + own);
        lemma_joined_contains(native_starts(d), own, ps);
        if own.contains(ps) {
            assert(sel[sel.len() - 1].pid_starts.contains(ps));
        }
        if native_starts(d).contains(ps) {
            let i = choose|i: int|
                0 <= i < d.len() && (#[trigger] d[i]).container is None
                    && d[i].pid_starts.contains(ps);
            assert(sel[i] == d[i]);
        }
        if exists|i: int|
            0 <= i < sel.len() && (#[trigger] sel[i]).container is None
                && sel[i].pid_starts.contains(ps) {
            let i = choose|i: int|
                0 <= i < sel.len() && (#[trigger] sel[i]).container is None
                    && sel[i].pid_starts.contains(ps);
            if i < d.len() {
                assert(d[i] == sel[i]);
            }
        }
    }
}

/// A kill stops exactly the chosen containers, restarts none and complains of nothing;
/// for scripts it says nothing, and otherwise it names every chosen target: a process by
/// its project, a container by its name.
pub proof fn kill_stops_what_was_chosen(sel: Seq<TargetView>, json: bool, x: Seq<char>)
    ensures
        all_kill_steps(sel, json).contains(ActView::StopContainer(x)) <==> exists|i: int|
            0 <= i < sel.len() && (#[trigger] sel[i]).container == Some(x),
        !all_kill_steps(sel, json).contains(ActView::RestartContainer(x)),
        !all_kill_steps(sel, json).contains(ActView::Complain(x)),
        json ==> !all_kill_steps(sel, json).contains(ActView::Say(x)),
        !json ==> forall|i: int|
            0 <= i < sel.len() ==> exists|m: Seq<char>|
                (#[trigger] all_kill_steps(sel, json).contains(ActView::Say(m))) && text::occurs(
                    match (#[trigger] sel[i]).container {
                        Some(c) => c,
                        None => sel[i].project,
                    },
                    m,
                ),
    decreases sel.len(),
{
    if sel.len() > 0 {
        let d = sel.drop_last();
        let t = sel.last();
        let steps = kill_steps(t, json);
        let before = all_kill_steps(d, json);
        kill_stops_what_was_chosen(d, json, x);
        let all = all_kill_steps(sel, json);
        assert(all == before + steps);
        lemma_joined_contains(before, steps, ActView::RestartContainer(x));
        lemma_joined_contains(before, steps, ActView::StopContainer(x));
        lemma_joined_contains(before, steps, ActView::Say(x));
        lemma_joined_contains(before, steps, ActView::Complain(x));
        if t.container == Some(x) {
            assert(steps[steps.len() - 1] == ActView::StopContainer(x));
            assert(sel[sel.len() - 1].container == Some(x));
        }
        if exists|i: int| 0 <= i < sel.len() && (#[trigger] sel[i]).container == Some(x) {
            let i = choose|i: int| 0 <= i < sel.len() && (#[trigger] sel[i]).container == Some(x);
            if i < d.len() {
                assert(d[i].container == Some(x));
            }
        }
        if before.contains(ActView::StopContainer(x)) {
            let i = choose|i: int| 0 <= i < d.len() && (#[trigger] d[i]).container == Some(x);
            assert(sel[i].container == Some(x));
        }
        if !json {
            assert forall|i: int| 0 <= i < sel.len() implies exists|m: Seq<char>|
                (#[trigger] all.contains(ActView::Say(m))) && text::occurs(
                    match (#[trigger] sel[i]).container {
                        Some(c) => c,
                        None => sel[i].project,
                    },
                    m,
                ) by {
                if i < d.len() {
                    assert(d[i] == sel[i]);
                    let m = choose|m: Seq<char>|
                        (#[trigger] before.contains(ActView::Say(m))) && text::occurs(
                            match d[i].container {
                                Some(c) => c,
                                None => d[i].project,
                            },
                            m,
                        );
                    lemma_joined_contains(before, steps, ActView::Say(m));
                } else {
                    match t.container {
                        Some(c) => {
                            let m = "stopping container "@ + c;
                            text::lemma_stands_between("stopping container "@, c, Seq::empty());
                            assert(m + Seq::<char>::empty() =~= m);
                            assert(steps[0] == ActView::Say(m));
                            lemma_joined_contains(before, steps, ActView::Say(m));
                        },
                        None => {
                            let m = killing(t);
                            let rest = m.skip(("killing "@ + t.project).len() as int);
                            assert(m =~= "killing "@ + t.project + rest);
                            text::lemma_stands_between("killing "@, t.project, rest);
                            assert(steps[0] == ActView::Say(m));
                            lemma_joined_contains(before, steps, ActView::Say(m));
                        },
                    }
                }
            }
        }
    }
}

// ------------------------------------------------------------------------ json

/// How long a target has run: where the start of its anchor is known and not in the
/// future, the start and the time since make now, so that one second later it has run
/// one second longer. Where the start is not known, nothing is said of it.
pub proof fn uptime_counts_from_the_start(t: TargetView, now: u64, later: u64)
    requires
        now <= later,
    ensures
        t.anchor.start_time == 0 <==> json_of(t, now).uptime_secs is None,
        0 < t.anchor.start_time <= now ==> {
            &&& json_of(t, now).uptime_secs is Some
            &&& json_of(t, now).uptime_secs->0 + t.anchor.start_time == now
            &&& json_of(t, later).uptime_secs->0 - json_of(t, now).uptime_secs->0 == later - now
        },
        t.anchor.start_time > now ==> json_of(t, now).uptime_secs == Some(0u64),
{
}

/// What scripts see of a target is the target's own, and figures are shown exactly
/// where it has processes to measure.
pub proof fn json_tells_the_target(t: TargetView, now: u64)
    ensures
        ({
            let j = json_of(t, now);
            &&& j.project == t.project && j.command == t.command_label
            &&& j.ports == t.ports && j.pids == t.pids && j.anchor_pid == t.anchor.pid
            &&& j.cwd == t.cwd && j.branch == t.git_branch
            &&& j.exposed == t.exposed && j.container == t.container
            &&& j.url is Some <==> t.url is Some
            &&& t.url matches Some(u) ==> j.url == Some(u.value)
            &&& j.cpu is Some <==> t.pids.len() > 0
            &&& j.mem_bytes is Some <==> t.pids.len() > 0
            &&& t.pids.len() > 0 ==> j.cpu == Some(t.cpu) && j.mem_bytes == Some(t.mem_bytes)
            &&& t.kind is Listener <==> j.kind == "listener"@
            &&& t.kind is Watched <==> j.kind == "watched"@
        }),
{
    reveal_strlit("listener");
    reveal_strlit("watched");
    assert("listener"@.len() != "watched"@.len());
}

/// Scripts see every listed target, in the order of the list, and nothing else.
pub proof fn json_lists_every_target(sel: Seq<TargetView>, now: u64)
    ensures
        all_json(sel, now).len() == sel.len(),
        forall|i: int|
            0 <= i < sel.len() ==> (#[trigger] all_json(sel, now)[i]).project == sel[i].project
                && all_json(sel, now)[i] == json_of(sel[i], now),
{
}

// ---------------------------------------------------------------------- ls, url

/// Nothing but spaces, and at least one.
pub open spec fn is_gap(g: Seq<char>) -> bool {
    g.len() > 0 && forall|i: int| 0 <= i < g.len() ==> #[trigger] g[i] == ' '
}

/// Nothing but spaces.
pub open spec fn is_blank(g: Seq<char>) -> bool {
    forall|i: int| 0 <= i < g.len() ==> #[trigger] g[i] == ' '
}

/// The port of a target as the table shows it: its lowest, marked where the target can be
/// reached from outside.
pub open spec fn shows_port(cell: Seq<char>, t: TargetView) -> bool {
    if t.ports.len() == 0 {
        cell == "—"@
    } else {
        cell == ":"@ + text::decimal(t.ports[0] as nat) + (if t.exposed {
            "!"@
        } else {
            Seq::empty()
        })
    }
}

/// The line tells of the target its project, command, port, CPU share, memory and URL, in
/// this order and with spaces between them, and ends there.
pub open spec fn line_tells(
    line: Seq<char>,
    t: TargetView,
    cells: Seq<Seq<char>>,
    gaps: Seq<Seq<char>>,
) -> bool {
    &&& cells.len() == 6 && gaps.len() == 6
    &&& line == cells[0] + gaps[0] + cells[1] + gaps[1] + cells[2] + gaps[2] + cells[3] + gaps[3]
        + cells[4] + gaps[4] + cells[5] + gaps[5] + "\n"@
    &&& forall|i: int| 0 <= i < 5 ==> is_gap(#[trigger] gaps[i])
    &&& is_blank(gaps[5])
    &&& cells[0] == t.project
    &&& cells[1] == t.command_label
    &&& shows_port(cells[2], t)
    &&& t.pids.len() == 0 ==> cells[3] == "—"@ && cells[4] == "—"@
    &&& t.pids.len() > 0 ==> cells[3] == cpu_text(t.cpu as nat) && cells[4] == text::decimal(
        t.mem_bytes as nat / 1_048_576,
    ) + "MB"@
    &&& t.url is None ==> cells[5] == ""@
    &&& t.url matches Some(u) ==> cells[5] == u.value
}

proof fn lemma_gap(s: Seq<char>, w: nat) -> (g: Seq<char>)
    ensures
        is_blank(g),
        text::padded_right(s, w) == s + g,
        text::padded_left(s, w) == g + s,
        is_gap(g + " "@),
        is_gap(" "@ + g),
{
    reveal_strlit(" ");
    text::spaces((if s.len() < w { w - s.len() } else { 0 }) as nat)
}

proof fn lemma_regroup(x: Seq<char>, a: Seq<char>, b: Seq<char>, c: Seq<char>)
    ensures
        x + (a + b) + c == x + a + (b + c),
{
    assert(x + (a + b) + c =~= x + a + (b + c));
}

proof fn lemma_target_line(t: TargetView)
    ensures
        exists|cells: Seq<Seq<char>>, gaps: Seq<Seq<char>>| #[trigger]
            line_tells(target_line(t), t, cells, gaps),
{
    reveal_strlit(" ");
    reveal_strlit("");
    let port = crate::cli::port_cell(t);
    let cpu = if t.pids.len() == 0 { NONE@ } else { cpu_text(t.cpu as nat) };
    let mem = if t.pids.len() == 0 {
        NONE@
    } else {
        text::decimal(t.mem_bytes as nat / 1_048_576) + "MB"@
    };
    let url = crate::cli::url_cell(t);
    let g0 = lemma_gap(t.project, 20);
    let g1 = lemma_gap(t.command_label, 16);
    let g2 = lemma_gap(port, 8);
    let g3 = lemma_gap(cpu, 6);
    let g4 = lemma_gap(mem, 8);
    let g5 = lemma_gap(url, 14);
    let cells = seq![t.project, t.command_label, port, cpu, mem, url];
    let gaps = seq![g0 + " "@, g1 + " "@, g2 + " "@ + g3, " "@ + g4, " "@, g5];
    let one = " "@;
    let p0 = t.project + gaps[0];
    let p1 = p0 + t.command_label + gaps[1];
    let p2 = p1 + port + gaps[2] + cpu;
    let p3 = p2 + gaps[3] + mem;
    let p4 = p3 + one + url + g5;
    assert((t.project + g0) + one =~= p0);
    lemma_regroup(p0, t.command_label, g1, one);
    lemma_regroup(p1, port, g2, one);
    assert(p1 + (port + g2) + one + (g3 + cpu) == p2) by {
        lemma_regroup(p1 + port, g2 + one, g3, cpu);
    }
    assert(p2 + one + (g4 + mem) == p3) by {
        lemma_regroup(p2, one, g4, mem);
    }
    assert(p3 + one + (url + g5) =~= p4);
    assert(target_line(t) == p4 + "\n"@);
    assert(shows_port(port, t)) by {
        if t.ports.len() > 0 && !t.exposed {
            assert(port =~= ":"@ + text::decimal(t.ports[0] as nat) + Seq::<char>::empty());
        }
    }
    assert(is_gap(gaps[2]));
    assert(line_tells(target_line(t), t, cells, gaps));
}

/// Some text tells of the target what a line of the table tells.
pub open spec fn tells(line: Seq<char>, t: TargetView) -> bool {
    exists|cells: Seq<Seq<char>>, gaps: Seq<Seq<char>>| #[trigger] line_tells(line, t, cells, gaps)
}

/// One text behind the other.
pub open spec fn run_together(lines: Seq<Seq<char>>) -> Seq<char>
    decreases lines.len(),
{
    if lines.len() == 0 {
        Seq::empty()
    } else {
        run_together(lines.drop_last()) + lines.last()
    }
}

proof fn lemma_table_body(sel: Seq<TargetView>)
    ensures
        run_together(sel.map_values(|t: TargetView| target_line(t))) == table_body(sel),
    decreases sel.len(),
{
    let lines = sel.map_values(|t: TargetView| target_line(t));
    if sel.len() > 0 {
        lemma_table_body(sel.drop_last());
        assert(lines.drop_last() =~= sel.drop_last().map_values(|t: TargetView| target_line(t)));
    }
}

/// The table has a head and then one line for each listed target, in the order of the
/// list, that tells of it its project, command, port, CPU share, memory and URL.
pub proof fn ls_tells_every_target(targets: Seq<TargetView>, selectors: Seq<Seq<char>>)
    requires
        ls_targets(targets, selectors).len() > 0,
    ensures
        ls_output(targets, selectors).code == 0,
        ls_output(targets, selectors).err.len() == 0,
        exists|lines: Seq<Seq<char>>|
            {
                &&& ls_output(targets, selectors).out == crate::cli::table_head()
                    + #[trigger] run_together(lines)
                &&& lines.len() == ls_targets(targets, selectors).len()
                &&& forall|i: int|
                    0 <= i < lines.len() ==> tells(
                        #[trigger] lines[i],
                        ls_targets(targets, selectors)[i],
                    )
            },
{
    let listed = ls_targets(targets, selectors);
    let lines = listed.map_values(|t: TargetView| target_line(t));
    lemma_table_body(listed);
    assert forall|i: int| 0 <= i < lines.len() implies tells(#[trigger] lines[i], listed[i]) by {
        lemma_target_line(listed[i]);
    }
    assert(run_together(lines) == table_body(listed));
}

/// Without a selector every target is listed; with one, those that were chosen. An empty
/// list is a failure only where something was asked for.
pub proof fn ls_lists_what_was_asked(targets: Seq<TargetView>, selectors: Seq<Seq<char>>)
    ensures
        ls_targets(targets, Seq::empty()) == targets,
        selectors.len() > 0 ==> ls_targets(targets, selectors) == chosen(targets, selectors),
        ls_output(targets, selectors).code == 0 || ls_output(targets, selectors).code == 1,
        ls_output(targets, selectors).code == 1 <==> selectors.len() > 0 && chosen(
            targets,
            selectors,
        ).len() == 0,
{
}

/// A URL line is the project, a tab and the URL; lines stand in the order of the chosen
/// targets.
pub proof fn url_tells_every_target(a: Seq<TargetView>, b: Seq<TargetView>, t: TargetView)
    ensures
        url_lines(a + b) == url_lines(a) + url_lines(b),
        t.url matches Some(u) ==> url_lines(seq![t]) == t.project + "\t"@ + u.value + "\n"@,
        t.url is None ==> url_lines(seq![t]) == t.project + "\t"@ + "—"@ + "\n"@,
    decreases b.len(),
{
    assert(seq![t].drop_last() =~= Seq::<TargetView>::empty());
    reveal_with_fuel(url_lines, 2);
    assert(url_lines(seq![t]) =~= crate::cli::url_line(t));
    if b.len() > 0 {
        url_tells_every_target(a, b.drop_last(), t);
        assert((a + b).drop_last() =~= a + b.drop_last());
        assert((a + b).last() == b.last());
        assert(url_lines(a + b) =~= url_lines(a) + url_lines(b));
    } else {
        assert(a + b =~= a);
        assert(url_lines(a) + url_lines(b) =~= url_lines(a));
    }
}

/// The URLs for scripts: one pair for each chosen target, in order, of its project and its
/// URL.
pub proof fn url_json_tells_every_target(sel: Seq<TargetView>, i: int)
    requires
        0 <= i < sel.len(),
    ensures
        target_urls(sel).len() == sel.len(),
        target_urls(sel)[i].0 == sel[i].project,
        target_urls(sel)[i].1 is Some <==> sel[i].url is Some,
        sel[i].url matches Some(u) ==> target_urls(sel)[i].1 == Some(u.value),
{
}

/// Where nothing was chosen, nothing is printed as a result: the command fails with one
/// complaint that names what was asked for.
pub proof fn no_match_is_a_failure(selectors: Seq<Seq<char>>)
    ensures
        url_output(Seq::empty(), selectors) == no_match(selectors),
        no_match(selectors).code == 1,
        no_match(selectors).out.len() == 0,
        text::occurs(crate::cli::quoted_list(selectors), no_match(selectors).err),
{
    text::lemma_stands_between(
        "no targets match "@,
        crate::cli::quoted_list(selectors),
        "\n"@,
    );
}

// ----------------------------------------------------------------- invocations

/// An argument that starts with a dash.
pub open spec fn has_dash(a: Seq<char>) -> bool {
    a.len() > 0 && a[0] == '-'
}

proof fn lemma_dash(a: Seq<char>)
    ensures
        is_flag(a) <==> has_dash(a),
{
    reveal_strlit("-");
    if has_dash(a) {
        assert("-"@ =~= a.subrange(0, 1));
    }
    if is_flag(a) {
        assert(a.subrange(0, 1)[0] == "-"@[0]);
    }
}

proof fn lemma_selectors(rest: Seq<Seq<char>>)
    ensures
        selectors_in(rest) == rest.filter(|a: Seq<char>| !has_dash(a)),
    decreases rest.len(),
{
    reveal(Seq::filter);
    if rest.len() > 0 {
        lemma_selectors(rest.drop_last());
        lemma_dash(rest.last());
        assert(selectors_in(rest) =~= rest.filter(|a: Seq<char>| !has_dash(a)));
    } else {
        assert(selectors_in(rest) =~= rest.filter(|a: Seq<char>| !has_dash(a)));
    }
}

proof fn lemma_bad_flag(rest: Seq<Seq<char>>)
    ensures
        bad_flag_in(rest) is None <==> forall|i: int|
            0 <= i < rest.len() ==> (has_dash(#[trigger] rest[i]) ==> rest[i] == "--json"@),
        bad_flag_in(rest) matches Some(f) ==> exists|i: int|
            0 <= i < rest.len() && #[trigger] rest[i] == f && has_dash(f) && f != "--json"@ && (
            forall|j: int| 0 <= j < i ==> (has_dash(#[trigger] rest[j]) ==> rest[j] == "--json"@)),
    decreases rest.len(),
{
    if rest.len() > 0 {
        let d = rest.drop_last();
        lemma_bad_flag(d);
        lemma_dash(rest.last());
        let n = rest.len() - 1;
        match bad_flag_in(d) {
            Some(f) => {
                let i = choose|i: int|
                    0 <= i < d.len() && #[trigger] d[i] == f && has_dash(f) && f != "--json"@ && (
                    forall|j: int|
                        0 <= j < i ==> (has_dash(#[trigger] d[j]) ==> d[j] == "--json"@));
                assert(rest[i] == f);
                assert forall|j: int| 0 <= j < i && has_dash(#[trigger] rest[j]) implies rest[j]
                    == "--json"@ by {
                    assert(d[j] == rest[j]);
                }
            },
            None => {
                assert forall|j: int| 0 <= j < n && has_dash(#[trigger] rest[j]) implies rest[j]
                    == "--json"@ by {
                    assert(d[j] == rest[j]);
                }
                assert(rest[n] == rest.last());
            },
        }
    }
}

/// A flag that is not known is never passed over: the first one, anywhere behind the
/// command, is reported, whatever the command is.
pub proof fn unknown_flags_are_refused(cmd: Seq<char>, rest: Seq<Seq<char>>, i: int)
    requires
        0 <= i < rest.len(),
        has_dash(rest[i]),
        rest[i] != "--json"@,
        forall|j: int| 0 <= j < i ==> (has_dash(#[trigger] rest[j]) ==> rest[j] == "--json"@),
    ensures
        understood(seq![cmd] + rest) == Some(InvocationView::BadFlag(rest[i])),
{
    assert((seq![cmd] + rest).drop_first() =~= rest);
    lemma_bad_flag(rest);
    let f = bad_flag_in(rest)->0;
    let k = choose|k: int|
        0 <= k < rest.len() && #[trigger] rest[k] == f && has_dash(f) && f != "--json"@ && (
        forall|j: int| 0 <= j < k ==> (has_dash(#[trigger] rest[j]) ==> rest[j] == "--json"@));
    if k < i {
        assert(has_dash(rest[k]));
    } else if i < k {
        assert(has_dash(rest[i]));
    }
}

/// A command takes every argument behind it that has no dash as a selector, in order,
/// and `--json` may stand anywhere among them.
pub proof fn commands_take_their_selectors(rest: Seq<Seq<char>>)
    requires
        forall|i: int| 0 <= i < rest.len() ==> (has_dash(#[trigger] rest[i]) ==> rest[i]
            == "--json"@),
    ensures
        ({
            let selectors = rest.filter(|a: Seq<char>| !has_dash(a));
            let json = exists|i: int| 0 <= i < rest.len() && #[trigger] rest[i] == "--json"@;
            &&& understood(seq!["ls"@] + rest) == Some(InvocationView::Ls { json, selectors })
            &&& understood(seq!["kill"@] + rest) == Some(InvocationView::Kill { json, selectors })
            &&& understood(seq!["restart"@] + rest) == Some(InvocationView::Restart { selectors })
            &&& understood(seq!["url"@] + rest) == Some(InvocationView::Url { json, selectors })
        }),
{
    reveal_strlit("ls");
    reveal_strlit("kill");
    reveal_strlit("restart");
    reveal_strlit("url");
    lemma_selectors(rest);
    lemma_bad_flag(rest);
    let json = exists|i: int| 0 <= i < rest.len() && #[trigger] rest[i] == "--json"@;
    assert(rest.contains("--json"@) == json);
    assert((seq!["ls"@] + rest).drop_first() =~= rest);
    assert((seq!["kill"@] + rest).drop_first() =~= rest);
    assert((seq!["restart"@] + rest).drop_first() =~= rest);
    assert((seq!["url"@] + rest).drop_first() =~= rest);
    assert("ls"@.len() != "kill"@.len());
    assert("kill"@.len() != "restart"@.len());
    assert("url"@.len() != "kill"@.len());
}

/// Any other word in front is no command.
pub proof fn unknown_commands_are_refused(args: Seq<Seq<char>>)
    requires
        args.len() > 0,
        args[0] != "ls"@,
        args[0] != "kill"@,
        args[0] != "restart"@,
        args[0] != "url"@,
        args[0] != "version"@,
        args[0] != "--version"@,
        args[0] != "-V"@,
        args[0] != "help"@,
        args[0] != "--help"@,
        args[0] != "-h"@,
    ensures
        understood(args) == Some(InvocationView::BadCommand(args[0])) || understood(
            args,
        ) is Some && understood(args)->0 is BadFlag,
{
}

/// What needs no snapshot: the version and the help succeed, whatever was not understood
/// is a usage error that names it, and neither a kill nor a restart runs without a
/// selector; everything else goes on to the snapshot.
pub proof fn usage_errors_are_told(i: InvocationView, version: Seq<char>)
    ensures
        immediate(i, version) is None <==> match i {
            InvocationView::Ls { .. } => true,
            InvocationView::Url { .. } => true,
            InvocationView::Kill { selectors, .. } => selectors.len() > 0,
            InvocationView::Restart { selectors } => selectors.len() > 0,
            _ => false,
        },
        immediate(i, version) matches Some(o) ==> {
            &&& o.code == 0 <==> i is Version || i is Help
            &&& o.code == 0 || o.code == 2
            &&& o.code == 2 ==> o.out.len() == 0 && o.err.len() > 0
            &&& o.code == 0 ==> o.err.len() == 0
            &&& i is Version ==> text::occurs(version, o.out)
            &&& i matches InvocationView::BadFlag(f) ==> text::occurs(
                crate::patterns::quoted(f),
                o.err,
            )
            &&& i matches InvocationView::BadCommand(c) ==> text::occurs(
                crate::patterns::quoted(c),
                o.err,
            )
        },
{
    reveal_strlit("kill: need a selector (project, port, or command)\n");
    reveal_strlit("restart: need a selector\n");
    reveal_strlit("marina: unknown flag ");
    reveal_strlit("marina: unknown command ");
    match i {
        InvocationView::Version => {
            text::lemma_stands_between("marina "@, version, "\n"@);
        },
        InvocationView::BadFlag(f) => {
            let q = crate::patterns::quoted(f);
            let rest = "\n\n"@ + crate::cli::USAGE@;
            let err = "marina: unknown flag "@ + q + "\n\n"@ + crate::cli::USAGE@;
            assert(err =~= "marina: unknown flag "@ + q + rest);
            text::lemma_stands_between("marina: unknown flag "@, q, rest);
        },
        InvocationView::BadCommand(c) => {
            let q = crate::patterns::quoted(c);
            let rest = "\n\n"@ + crate::cli::USAGE@;
            let err = "marina: unknown command "@ + q + "\n\n"@ + crate::cli::USAGE@;
            assert(err =~= "marina: unknown command "@ + q + rest);
            text::lemma_stands_between("marina: unknown command "@, q, rest);
        },
        _ => {},
    }
}

/// A step that failed is told on the error stream and fails the command; one that went
/// well is told on the other. Both name what was restarted.
pub proof fn restarts_are_told(
    name: Seq<char>,
    ok: bool,
    log: Option<Seq<char>>,
    error: Option<Seq<char>>,
)
    ensures
        ({
            let o = container_report(name, ok);
            &&& o.code == 0 <==> ok
            &&& ok ==> text::occurs(name, o.out) && o.err.len() == 0
            &&& !ok ==> text::occurs(name, o.err) && o.out.len() == 0
        }),
        ({
            let o = relaunch_report(name, log, error);
            &&& o.code == 0 <==> error is None
            &&& error is None ==> text::occurs(name, o.out) && o.err.len() == 0
            &&& error is None ==> (log matches Some(p) ==> text::occurs(p, o.out))
            &&& error matches Some(e) ==> text::occurs(name, o.err) && text::occurs(e, o.err)
                && o.out.len() == 0
        }),
{
    text::lemma_stands_between("restarted container "@, name, "\n"@);
    text::lemma_stands_between("docker restart "@, name, " failed\n"@);
    match error {
        Some(e) => {
            let o = relaunch_report(name, log, error);
            text::lemma_stands_between("restart "@ + name + " failed: "@, e, "\n"@);
            let rest = " failed: "@ + e + "\n"@;
            assert(o.err =~= "restart "@ + name + rest);
            text::lemma_stands_between("restart "@, name, rest);
        },
        None => {
            match log {
                Some(p) => {
                    let o = relaunch_report(name, log, error);
                    text::lemma_stands_between("restarted "@ + name + " (output -> "@, p, ")\n"@);
                    let rest = " (output -> "@ + p + ")\n"@;
                    assert(o.out =~= "restarted "@ + name + rest);
                    text::lemma_stands_between("restarted "@, name, rest);
                },
                None => {
                    text::lemma_stands_between("restarted "@, name, "\n"@);
                },
            }
        },
    }
}

// ----------------------------------------------------------------------- plans

/// A kill from the command line goes ahead exactly where something was chosen: it signals
/// the captured processes of every chosen target that is no container, stops every chosen
/// container, and tells scripts of every chosen target.
pub proof fn kills_reach_what_was_chosen(
    targets: Seq<TargetView>,
    selectors: Seq<Seq<char>>,
    json: bool,
    now: u64,
    r: Result<KillPlan, Output>,
    ps: PidStart,
    name: Seq<char>,
)
    requires
        kill_planned(targets, selectors, json, now, r),
    ensures
        ({
            let sel = chosen(targets, selectors);
            &&& r is Ok <==> sel.len() > 0
            &&& r matches Ok(plan) ==> {
                &&& plan.pid_starts@.contains(ps) <==> exists|i: int|
                    0 <= i < sel.len() && (#[trigger] sel[i]).container is None
                        && sel[i].pid_starts.contains(ps)
                &&& act_views(plan.acts@).contains(ActView::StopContainer(name)) <==> exists|i: int|
                    0 <= i < sel.len() && (#[trigger] sel[i]).container == Some(name)
                &&& !act_views(plan.acts@).contains(ActView::RestartContainer(name))
                &&& plan.killed@.len() == sel.len()
                &&& forall|i: int|
                    0 <= i < sel.len() ==> (#[trigger] plan.killed@[i])@.project == sel[i].project
                        && plan.killed@[i]@.pids == sel[i].pids
            }
            &&& r matches Err(o) ==> o.code == 1 && o.out@.len() == 0
        }),
{
    let sel = chosen(targets, selectors);
    signals_reach_chosen_processes(sel, ps);
    kill_stops_what_was_chosen(sel, json, name);
    match r {
        Ok(plan) => {
            assert(json_views(plan.killed@).len() == plan.killed@.len());
            assert forall|i: int| 0 <= i < sel.len() implies (#[trigger] plan.killed@[i])@.project
                == sel[i].project && plan.killed@[i]@.pids == sel[i].pids by {
                assert(json_views(plan.killed@)[i] == plan.killed@[i]@);
                assert(all_json(sel, now)[i] == json_of(sel[i], now));
            }
        },
        Err(o) => {
            assert(o@.out == o.out@ && o@.code == o.code);
        },
    }
}

/// A restart from the command line goes ahead exactly where something was chosen: it
/// signals the captured processes of every chosen target that is no container, restarts
/// every chosen container, and starts again what was captured of the others.
pub proof fn restarts_reach_what_was_chosen(
    targets: Seq<TargetView>,
    selectors: Seq<Seq<char>>,
    r: Result<RestartCommand, Output>,
    ps: PidStart,
    name: Seq<char>,
)
    requires
        restart_planned(targets, selectors, r),
    ensures
        ({
            let sel = chosen(targets, selectors);
            &&& r is Ok <==> sel.len() > 0
            &&& r matches Ok(c) ==> {
                &&& c.pid_starts@.contains(ps) <==> exists|i: int|
                    0 <= i < sel.len() && (#[trigger] sel[i]).container is None
                        && sel[i].pid_starts.contains(ps)
                &&& act_views(c.acts@).contains(ActView::RestartContainer(name)) <==> exists|i: int|
                    0 <= i < sel.len() && (#[trigger] sel[i]).container == Some(name)
                &&& c.containers <==> exists|i: int|
                    0 <= i < sel.len() && (#[trigger] sel[i]).container is Some
                &&& forall|j: int|
                    0 <= j < c.relaunches@.len() ==> exists|i: int|
                        0 <= i < sel.len() && relaunches_target(
                            (#[trigger] c.relaunches@[j])@,
                            #[trigger] sel[i],
                        )
                &&& forall|i: int|
                    0 <= i < sel.len() && (#[trigger] sel[i]).container is None
                        && sel[i].anchor_argv.len() > 0 ==> exists|j: int|
                        0 <= j < c.relaunches@.len() && relaunches_target(
                            (#[trigger] c.relaunches@[j])@,
                            sel[i],
                        )
            }
            &&& r matches Err(o) ==> o.code == 1 && o.out@.len() == 0
        }),
{
    let sel = chosen(targets, selectors);
    signals_reach_chosen_processes(sel, ps);
    restart_restarts_containers(sel, name);
    restart_relaunches_what_was_chosen(targets, selectors);
    let again = relaunches_of(sel);
    match r {
        Ok(c) => {
            assert(relaunch_views(c.relaunches@).len() == c.relaunches@.len());
            assert forall|j: int| 0 <= j < c.relaunches@.len() implies exists|i: int|
                0 <= i < sel.len() && relaunches_target(
                    (#[trigger] c.relaunches@[j])@,
                    #[trigger] sel[i],
                ) by {
                assert(relaunch_views(c.relaunches@)[j] == c.relaunches@[j]@);
                let i = choose|i: int|
                    0 <= i < sel.len() && relaunches_target(again[j], #[trigger] sel[i]);
                assert(relaunches_target(c.relaunches@[j]@, sel[i]));
            }
            assert forall|i: int|
                0 <= i < sel.len() && (#[trigger] sel[i]).container is None
                    && sel[i].anchor_argv.len() > 0 implies exists|j: int|
                0 <= j < c.relaunches@.len() && relaunches_target(
                    (#[trigger] c.relaunches@[j])@,
                    sel[i],
                ) by {
                let j = choose|j: int|
                    0 <= j < again.len() && relaunches_target(#[trigger] again[j], sel[i]);
                assert(relaunch_views(c.relaunches@)[j] == c.relaunches@[j]@);
            }
        },
        Err(o) => {
            assert(o@.out == o.out@ && o@.code == o.code);
        },
    }
}

/// What scripts are given: every listed target, or every chosen target's URL, in order; a
/// failure only where something was asked for and nothing matches.
pub proof fn scripts_are_given_everything(
    targets: Seq<TargetView>,
    selectors: Seq<Seq<char>>,
    now: u64,
    r: Result<Vec<TargetJson>, Output>,
    u: Result<Vec<UrlJson>, Output>,
)
    requires
        ls_json_given(targets, selectors, now, r),
        url_json_given(targets, selectors, u),
    ensures
        r is Err <==> selectors.len() > 0 && chosen(targets, selectors).len() == 0,
        selectors.len() == 0 ==> r is Ok && r->Ok_0@.len() == targets.len(),
        selectors.len() > 0 ==> (r matches Ok(v) ==> v@.len() == chosen(targets, selectors).len()),
        selectors.len() == 0 ==> (r matches Ok(v) ==> forall|i: int|
            0 <= i < v@.len() ==> (#[trigger] v@[i])@ == json_of(targets[i], now)),
        selectors.len() > 0 ==> (r matches Ok(v) ==> forall|i: int|
            0 <= i < v@.len() ==> (#[trigger] v@[i])@ == json_of(
                chosen(targets, selectors)[i],
                now,
            )),
        u is Err <==> chosen(targets, selectors).len() == 0,
        u matches Ok(v) ==> v@.len() == chosen(targets, selectors).len() && forall|i: int|
            0 <= i < v@.len() ==> (#[trigger] v@[i]).project@ == chosen(
                targets,
                selectors,
            )[i].project,
{
    let listed = if selectors.len() == 0 {
        targets
    } else {
        chosen(targets, selectors)
    };
    match r {
        Ok(v) => {
            assert(json_views(v@).len() == v@.len());
            assert forall|i: int| 0 <= i < v@.len() implies (#[trigger] v@[i])@ == json_of(
                listed[i],
                now,
            ) by {
                assert(json_views(v@)[i] == v@[i]@);
            }
        },
        Err(_) => {},
    }
    match u {
        Ok(v) => {
            assert(url_pairs(v@).len() == v@.len());
            assert forall|i: int| 0 <= i < v@.len() implies (#[trigger] v@[i]).project@ == chosen(
                targets,
                selectors,
            )[i].project by {
                assert(url_pairs(v@)[i].0 == v@[i].project@);
            }
        },
        Err(_) => {},
    }
}

// ------------------------------------------------------------------------ dump

/// The dump has a head that counts the targets and tells of an error, and then a line for
/// each target, in order, that tells its project, command, figures, processes, anchor,
/// directory and URL.
pub proof fn the_dump_tells_everything(
    seq: u64,
    error: Option<Seq<char>>,
    a: Seq<TargetView>,
    b: Seq<TargetView>,
    t: TargetView,
)
    ensures
        dump_body(a + b) == dump_body(a) + dump_body(b),
        dump_body(a).is_suffix_of(dump_text(seq, error, a)),
        error matches Some(e) ==> text::occurs(e, dump_text(seq, error, a)),
        text::occurs(text::decimal(a.len()) + " targets"@, dump_text(seq, error, a)),
        text::occurs(t.project, dump_body(seq![t])),
        text::occurs(t.command_label, dump_body(seq![t])),
        text::occurs("pids="@ + text::decimal(t.pids.len()), dump_body(seq![t])),
        text::occurs("cwd="@ + t.cwd, dump_body(seq![t])),
        t.url matches Some(u) ==> text::occurs(u.value, dump_body(seq![t])),
    decreases b.len(),
{
    assert(seq![t].drop_last() =~= Seq::<TargetView>::empty());
    reveal_with_fuel(dump_body, 2);
    assert(dump_body(seq![t]) =~= dump_line(t));
    lemma_dump_line(t);
    lemma_dump_head(seq, error, a);
    if b.len() > 0 {
        the_dump_tells_everything(seq, error, a, b.drop_last(), t);
        assert((a + b).drop_last() =~= a + b.drop_last());
        assert((a + b).last() == b.last());
        assert(dump_body(a + b) =~= dump_body(a) + dump_body(b));
    } else {
        assert(a + b =~= a);
        assert(dump_body(a) + dump_body(b) =~= dump_body(a));
    }
}

proof fn lemma_dump_head(seq: u64, error: Option<Seq<char>>, a: Seq<TargetView>)
    ensures
        dump_body(a).is_suffix_of(dump_text(seq, error, a)),
        error matches Some(e) ==> text::occurs(e, dump_text(seq, error, a)),
        text::occurs(text::decimal(a.len()) + " targets"@, dump_text(seq, error, a)),
{
    reveal_strlit(" targets\n");
    reveal_strlit(" targets");
    let n = text::decimal(a.len());
    let start = "snapshot seq="@ + text::decimal(seq as nat) + " — "@;
    let head = start + n + " targets\n"@;
    let warn = match error {
        Some(e) => "  ⚠ "@ + e + "\n"@,
        None => ""@,
    };
    let body = dump_body(a);
    let s = dump_text(seq, error, a);
    assert(s == head + warn + body);
    assert(s.subrange(s.len() - body.len(), s.len() as int) =~= body);
    let mid = n + " targets"@;
    let rest = s.skip((start + mid).len() as int);
    assert(head.take((start + mid).len() as int) =~= start + mid);
    assert(s =~= start + mid + rest);
    text::lemma_stands_between(start, mid, rest);
    match error {
        Some(e) => {
            assert(s =~= (head + "  ⚠ "@) + e + ("\n"@ + body));
            text::lemma_stands_between(head + "  ⚠ "@, e, "\n"@ + body);
        },
        None => {},
    }
}

proof fn lemma_dump_line(t: TargetView)
    ensures
        text::occurs(t.project, dump_line(t)),
        text::occurs(t.command_label, dump_line(t)),
        text::occurs("pids="@ + text::decimal(t.pids.len()), dump_line(t)),
        text::occurs("cwd="@ + t.cwd, dump_line(t)),
        t.url matches Some(u) ==> text::occurs(u.value, dump_line(t)),
{
    reveal_strlit("MB  pids=");
    reveal_strlit("pids=");
    reveal_strlit("MB  ");
    reveal_strlit(" cwd=");
    reveal_strlit("cwd=");
    reveal_strlit(" ");
    let url = match t.url {
        Some(u) => u.value,
        None => ""@,
    };
    let p = text::padded_right(t.project, 22);
    let c = text::padded_right(t.command_label, 18);
    let port = text::padded_right(crate::cli::port_cell(t), 8);
    let cpu = text::padded_left(cpu_text(t.cpu as nat), 7);
    let mem = text::padded_left(text::decimal((t.mem_bytes / 1_048_576) as nat), 6);
    let n = text::decimal(t.pids.len());
    let h1 = "  "@ + p + " "@;
    let h2 = h1 + c + " "@ + port + " "@ + cpu + "  "@ + mem;
    let h3 = h2 + "MB  pids="@ + n + " anchor="@ + text::decimal(t.anchor.pid as nat);
    let h4 = h3 + " cwd="@ + t.cwd + " "@;
    let line = dump_line(t);
    assert(line == h4 + url + "\n"@);
    text::lemma_stands_between(h4, url, "\n"@);
    let tail4 = " "@ + url + "\n"@;
    assert(" cwd="@ =~= " "@ + "cwd="@);
    assert(line =~= (h3 + " "@) + ("cwd="@ + t.cwd) + tail4);
    text::lemma_stands_between(h3 + " "@, "cwd="@ + t.cwd, tail4);
    let tail2 = line.skip((h2 + "MB  pids="@ + n).len() as int);
    assert("MB  pids="@ =~= "MB  "@ + "pids="@);
    assert(h3.take((h2 + "MB  pids="@ + n).len() as int) =~= h2 + "MB  pids="@ + n);
    assert(line =~= h2 + "MB  pids="@ + n + tail2);
    assert(h2 + "MB  pids="@ + n =~= (h2 + "MB  "@) + ("pids="@ + n));
    text::lemma_stands_between(h2 + "MB  "@, "pids="@ + n, tail2);
    let g = lemma_gap(t.project, 22);
    let f = lemma_gap(t.command_label, 18);
    let tail1 = line.skip(("  "@ + t.project).len() as int);
    assert(h1.take(("  "@ + t.project).len() as int) =~= "  "@ + t.project);
    assert(line =~= "  "@ + t.project + tail1) by {
        assert(line.take(h1.len() as int) =~= h1);
    }
    text::lemma_stands_between("  "@, t.project, tail1);
    let tail3 = line.skip((h1 + t.command_label).len() as int);
    assert(h2.take((h1 + c).len() as int) =~= h1 + c);
    assert(line =~= h1 + t.command_label + tail3) by {
        assert(line.take(h2.len() as int) =~= h2);
        assert((h1 + c).take((h1 + t.command_label).len() as int) =~= h1 + t.command_label);
    }
    text::lemma_stands_between(h1, t.command_label, tail3);
}

} // verus!
