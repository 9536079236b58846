//! What holds of what is done to processes and where logs are looked for.
use vstd::prelude::*;

use crate::config::{config_file, loaded, ConfigFile};
use crate::logs::{
    capture_path, captured_at, end_means, first_found, first_listed, is_log_file, is_pm2_log,
    listed_log, logs_dir, managed_log, newest, open_log_in, safe_name, tail_starts, AtEnd,
    DatedFile,
};
use crate::naming_laws::lacks;
use crate::proctree::lemma_joined_contains;
use crate::project_laws::{is_file_name, names_are_the_last_part};
use crate::sampler::{goes_stale, next_seq, pause_after};
use crate::text;
use crate::verbs::{
    any_busy, delivered, docker_said, escalated, force_killed, kill_goes, listed, port_wait,
    refused, restart_begins, restart_goes, surviving, PidStart, PortWait, RestartAct, RestartEvent,
    RestartPhase, RestartPlan, RestartStep,
};

verus! {

// --------------------------------------------------------------------- signals

/// A captured process is still the same one exactly where its pid runs with the start that
/// was captured: a pid that was given to another process is never signalled. Survivors
/// stand in the order in which they were captured.
pub proof fn only_captured_processes_are_signalled(
    a: Seq<PidStart>,
    b: Seq<PidStart>,
    now: Map<u32, u64>,
    pid: u32,
    start: u64,
)
    ensures
        surviving(a + b, now) == surviving(a, now) + surviving(b, now),
        now.contains_key(pid) && now[pid] == start ==> surviving(seq![(pid, start)], now) == seq![
            pid,
        ],
        !now.contains_key(pid) || now[pid] != start ==> surviving(seq![(pid, start)], now).len()
            == 0,
    decreases b.len(),
{
    assert(seq![(pid, start)].drop_last() =~= Seq::<PidStart>::empty());
    assert(seq![(pid, start)].last() == (pid, start));
    reveal_with_fuel(surviving, 2);
    if now.contains_key(pid) && now[pid] == start {
        assert(surviving(seq![(pid, start)], now) =~= seq![pid]);
    }
    if b.len() > 0 {
        only_captured_processes_are_signalled(a, b.drop_last(), now, pid, start);
        assert((a + b).drop_last() =~= a + b.drop_last());
        assert((a + b).last() == b.last());
        assert(surviving(a + b, now) =~= surviving(a, now) + surviving(b, now));
    } else {
        assert(a + b =~= a);
        assert(surviving(a, now) + surviving(b, now) =~= surviving(a, now));
    }
}

/// Every signal that went out counts as sent; of the others exactly those that were refused
/// for want of permission are named.
pub proof fn refusals_are_named(
    pids: Seq<u32>,
    results: Seq<Result<(), i32>>,
    eperm: i32,
    p: u32,
)
    requires
        pids.len() == results.len(),
    ensures
        refused(pids, results, eperm).contains(p) <==> exists|i: int|
            0 <= i < pids.len() && #[trigger] pids[i] == p && results[i] == Err::<(), i32>(eperm),
        delivered(results) + refused(pids, results, eperm).len() <= pids.len(),
        (forall|i: int| 0 <= i < results.len() ==> #[trigger] results[i] is Ok) ==> delivered(
            results,
        ) == pids.len(),
        (forall|i: int| 0 <= i < results.len() ==> #[trigger] results[i] is Err) ==> delivered(
            results,
        ) == 0,
    decreases pids.len(),
{
    if pids.len() > 0 {
        let d = pids.drop_last();
        let e = results.drop_last();
        let last = pids.len() - 1;
        refusals_are_named(d, e, eperm, p);
        let before = refused(d, e, eperm);
        assert(pids[last] == pids.last() && results[last] == results.last());
        if forall|i: int| 0 <= i < results.len() ==> #[trigger] results[i] is Ok {
            assert forall|i: int| 0 <= i < e.len() implies #[trigger] e[i] is Ok by {
                assert(e[i] == results[i]);
            }
        }
        if forall|i: int| 0 <= i < results.len() ==> #[trigger] results[i] is Err {
            assert forall|i: int| 0 <= i < e.len() implies #[trigger] e[i] is Err by {
                assert(e[i] == results[i]);
            }
        }
        if results.last() == Err::<(), i32>(eperm) {
            assert(before.push(pids.last()) =~= before + seq![pids.last()]);
            lemma_joined_contains(before, seq![pids.last()], p);
            assert(seq![pids.last()][0] == pids.last());
        }
        if before.contains(p) {
            let i = choose|i: int|
                0 <= i < d.len() && #[trigger] d[i] == p && e[i] == Err::<(), i32>(eperm);
            assert(pids[i] == p && results[i] == e[i]);
        }
        if exists|i: int|
            0 <= i < pids.len() && #[trigger] pids[i] == p && results[i] == Err::<(), i32>(eperm) {
            let i = choose|i: int|
                0 <= i < pids.len() && #[trigger] pids[i] == p && results[i] == Err::<(), i32>(
                    eperm,
                );
            if i < last {
                assert(d[i] == p && e[i] == results[i]);
            }
        }
    }
}

/// What is said of stragglers counts them; what is said of a container names it, what was
/// done to it, and whether that went well.
pub proof fn messages_tell_what_was_done(
    n: nat,
    action: Seq<char>,
    name: Seq<char>,
    ok: bool,
    pid: u32,
)
    ensures
        text::occurs(text::decimal(n), force_killed(n)),
        text::occurs(action, docker_said(action, name, ok)),
        text::occurs(name, docker_said(action, name, ok)),
        ok ==> ": done"@.is_suffix_of(docker_said(action, name, ok)),
        !ok ==> " failed — daemon running?"@.is_suffix_of(docker_said(action, name, ok)),
        listed(seq![pid]) == "["@ + text::decimal(pid as nat) + "]"@,
{
    let f = force_killed(n);
    let rest = f.skip(("force-killed "@ + text::decimal(n)).len() as int);
    assert(f =~= "force-killed "@ + text::decimal(n) + rest);
    text::lemma_stands_between("force-killed "@, text::decimal(n), rest);
    let end = if ok { ": done"@ } else { " failed — daemon running?"@ };
    let s = docker_said(action, name, ok);
    assert(s =~= "docker "@ + action + (" "@ + name + end));
    text::lemma_stands_between("docker "@, action, " "@ + name + end);
    assert(s =~= ("docker "@ + action + " "@) + name + end);
    text::lemma_stands_between("docker "@ + action + " "@, name, end);
    assert(s.subrange(s.len() - end.len(), s.len() as int) =~= end);
    assert(crate::verbs::decimals(seq![pid]) =~= seq![text::decimal(pid as nat)]);
}

// --------------------------------------------------------------------- restart

/// A restart goes step by step: it asks the processes to end, kills them where their ports
/// are not released, starts the command once they are or both waits are over, watches it,
/// and says which project was restarted, could not be, or crashed at once.
pub proof fn restarts_go_step_by_step(project: Seq<char>, e: String, after: u64, what: String)
    ensures
        restart_goes(project, RestartPhase::Terminating, RestartEvent::PortsFree(true)).act
            is Start,
        restart_goes(project, RestartPhase::Terminating, RestartEvent::PortsFree(false)).act
            is Kill,
        restart_goes(project, RestartPhase::Killing, RestartEvent::PortsFree(true)).act is Start,
        restart_goes(project, RestartPhase::Killing, RestartEvent::PortsFree(true)).status is None,
        ({
            let s = restart_goes(project, RestartPhase::Killing, RestartEvent::PortsFree(false));
            s.act is Start && s.status is Some && text::occurs(project, s.status->0)
        }),
        ({
            let s = restart_goes(project, RestartPhase::Starting, RestartEvent::Started);
            s.act is Watch && s.phase is Running && s.status is Some && text::occurs(
                project,
                s.status->0,
            )
        }),
        ({
            let s = restart_goes(project, RestartPhase::Starting, RestartEvent::Failed(e));
            s.act is GiveUp && s.status is Some && text::occurs(project, s.status->0)
                && text::occurs(e@, s.status->0)
        }),
        ({
            let s = restart_goes(project, RestartPhase::Running, RestartEvent::Ended(after, what));
            &&& s.act is Stop && s.phase is Finished
            &&& s.status is Some <==> after < 2000
            &&& s.status is Some ==> text::occurs(project, s.status->0) && text::occurs(
                what@,
                s.status->0,
            )
        }),
{
    text::lemma_stands_between(
        "restart "@,
        project,
        ": port still busy — respawning anyway"@,
    );
    text::lemma_stands_between("restarted "@, project, " — output captured (T to tail)"@);
    let f = "restart "@ + project + " failed: "@ + e@;
    assert(f =~= "restart "@ + project + (" failed: "@ + e@));
    text::lemma_stands_between("restart "@, project, " failed: "@ + e@);
    assert(f =~= ("restart "@ + project + " failed: "@) + e@ + Seq::<char>::empty());
    text::lemma_stands_between("restart "@ + project + " failed: "@, e@, Seq::empty());
    let tail = ") — T for its log"@;
    let c = "restart "@ + project + " crashed on startup ("@ + what@ + tail;
    assert(c =~= "restart "@ + project + (" crashed on startup ("@ + what@ + tail));
    text::lemma_stands_between("restart "@, project, " crashed on startup ("@ + what@ + tail);
    text::lemma_stands_between("restart "@ + project + " crashed on startup ("@, what@, tail);
}

/// A kill escalates after four seconds; a restart waits three for the ports and, once it
/// has killed, two more; one busy port is enough to wait.
pub proof fn waits_have_their_length(busy: Seq<bool>, i: int)
    ensures
        crate::verbs::GRACE == 4000,
        crate::verbs::TERM_WAIT == 3000,
        crate::verbs::KILL_WAIT == 2000,
        0 <= i < busy.len() && busy[i] ==> any_busy(busy),
        (forall|k: int| 0 <= k < busy.len() ==> !#[trigger] busy[k]) ==> !any_busy(busy),
{
}

// ------------------------------------------------------------------------ logs

/// A log that a process holds open is preferred to one that was captured, that to one in
/// the project's directory, and that to one of the process manager.
pub proof fn logs_are_preferred_in_turn(
    open: Option<Seq<char>>,
    captured: Option<Seq<char>>,
    in_dir: Option<Seq<char>>,
    pm2: Option<Seq<char>>,
)
    ensures
        first_found(open, captured, in_dir, pm2) == crate::project_laws::first_there(
            seq![open, captured, in_dir, pm2],
        ),
{
    reveal_with_fuel(crate::project_laws::first_there, 5);
    let all = seq![open, captured, in_dir, pm2];
    let l1 = all.drop_first();
    let l2 = l1.drop_first();
    let l3 = l2.drop_first();
    assert(l1[0] == all[1] && l2[0] == all[2] && l3[0] == all[3]);
    assert(l3.drop_first().len() == 0);
}

/// The name of a captured log is the project's, character by character, with a dash for
/// what would not do in a file name.
pub proof fn captured_names_are_safe(project: Seq<char>, i: int)
    ensures
        safe_name(project).len() == project.len(),
        lacks(safe_name(project), '/'),
        lacks(safe_name(project), ' '),
        lacks(safe_name(project), '\\'),
        0 <= i < project.len() && project[i] != '/' && project[i] != ' ' && project[i] != '\\'
            ==> safe_name(project)[i] == project[i],
        0 <= i < project.len() && (project[i] == '/' || project[i] == ' ' || project[i] == '\\')
            ==> safe_name(project)[i] == '-',
{
}

/// The captured log of a project lies in the directory for logs, under its name, and is
/// recognised as a log there.
pub proof fn captured_logs_are_logs(project: Seq<char>, dir: Seq<char>)
    requires
        project.len() > 0,
        dir.len() > 0,
        dir.last() != '/',
    ensures
        capture_path(project, dir) == dir + "/"@ + safe_name(project) + ".log"@,
        is_log_file(capture_path(project, dir)),
{
    reveal_strlit(".log");
    reveal_strlit(".");
    reveal_strlit("..");
    reveal_strlit("/");
    captured_names_are_safe(project, 0);
    let n = safe_name(project) + ".log"@;
    assert(lacks(n, '/')) by {
        assert forall|i: int| 0 <= i < n.len() implies #[trigger] n[i] != '/' by {
            if i < project.len() {
                assert(safe_name(project)[i] != '/');
            }
        }
    }
    assert(n[0] == safe_name(project)[0]);
    assert(is_file_name(n));
    names_are_the_last_part(dir, n);
    assert(dir + "/"@ + n =~= dir + "/"@ + safe_name(project) + ".log"@);
    assert(n.subrange(n.len() - 4, n.len() as int) =~= ".log"@);
}

/// State and configuration lie where the environment says, and otherwise in their place
/// below the home directory; without either they lie nowhere.
pub proof fn files_have_their_place(xdg: Seq<char>, home: Seq<char>)
    requires
        xdg.len() > 0,
        xdg.last() != '/',
        home.len() > 0,
        home.last() != '/',
    ensures
        logs_dir(Some(xdg), Some(home)) == Some(xdg + "/marina/logs"@),
        logs_dir(Some(xdg), None) == Some(xdg + "/marina/logs"@),
        logs_dir(None, Some(home)) == Some(home + "/.local/state/marina/logs"@),
        logs_dir(Some(Seq::empty()), Some(home)) == Some(home + "/.local/state/marina/logs"@),
        logs_dir(None, None) is None,
        config_file(Some(xdg), Some(home)) == Some(xdg + "/marina/config.toml"@),
        config_file(Some(xdg), None) == Some(xdg + "/marina/config.toml"@),
        config_file(None, Some(home)) == Some(home + "/.config/marina/config.toml"@),
        config_file(Some(Seq::empty()), Some(home)) == Some(home + "/.config/marina/config.toml"@),
        config_file(None, None) is None,
{
    reveal_strlit("/");
    reveal_strlit("marina");
    reveal_strlit("logs");
    reveal_strlit("config.toml");
    reveal_strlit(".config");
    reveal_strlit(".local/state");
    reveal_strlit("/marina/logs");
    reveal_strlit("/marina/config.toml");
    reveal_strlit("/.local/state/marina/logs");
    reveal_strlit("/.config/marina/config.toml");
    let a = xdg + "/"@ + "marina"@;
    assert(a.last() == 'a');
    assert(a + "/"@ + "logs"@ =~= xdg + "/marina/logs"@);
    assert(a + "/"@ + "config.toml"@ =~= xdg + "/marina/config.toml"@);
    let s = home + "/"@ + ".local/state"@;
    assert(s.last() == 'e');
    let t = s + "/"@ + "marina"@;
    assert(t.last() == 'a');
    assert(t + "/"@ + "logs"@ =~= home + "/.local/state/marina/logs"@);
    let c = home + "/"@ + ".config"@;
    assert(c.last() == 'g');
    let d = c + "/"@ + "marina"@;
    assert(d.last() == 'a');
    assert(d + "/"@ + "config.toml"@ =~= home + "/.config/marina/config.toml"@);
}

/// A path in a listing of open files counts as a log where it is a whole path and has the
/// ending of a log or lies in a directory for logs.
pub proof fn listed_logs_are_recognised(path: Seq<char>)
    requires
        path.len() > 0,
    ensures
        path[0] == '/' && is_log_file(path) ==> listed_log("n"@ + path) == Some(path),
        path[0] == '/' && (text::occurs("/log/"@, path) || text::occurs("/logs/"@, path))
            ==> listed_log("n"@ + path) == Some(path),
        path[0] != '/' ==> listed_log("n"@ + path) is None,
        path[0] != 'n' ==> listed_log(path) is None,
{
    reveal_strlit("n");
    reveal_strlit("/");
    let line = "n"@ + path;
    assert("n"@ =~= line.subrange(0, 1));
    assert(line.skip(1) =~= path);
    if path[0] == '/' {
        assert("/"@ =~= path.subrange(0, 1));
    } else if "/"@.is_prefix_of(path) {
        assert(path.subrange(0, 1)[0] == '/');
    }
    if "n"@.is_prefix_of(path) {
        assert(path.subrange(0, 1)[0] == 'n');
    }
}

proof fn lemma_listed(lines: Seq<Seq<char>>, strict: bool, k: int)
    ensures
        0 <= k < lines.len() && listed_log(lines[k]) is Some && (strict ==> is_log_file(
            listed_log(lines[k])->0,
        )) && (forall|j: int|
            0 <= j < k ==> !(listed_log(#[trigger] lines[j]) is Some && (strict ==> is_log_file(
                listed_log(lines[j])->0,
            )))) ==> first_listed(lines, strict) == listed_log(lines[k]),
        (forall|j: int|
            0 <= j < lines.len() ==> !(listed_log(#[trigger] lines[j]) is Some && (strict
                ==> is_log_file(listed_log(lines[j])->0)))) ==> first_listed(lines, strict) is None,
    decreases lines.len(),
{
    if lines.len() > 0 {
        let d = lines.drop_last();
        let last = lines.len() - 1;
        lemma_listed(d, strict, k);
        assert forall|j: int| 0 <= j < d.len() implies #[trigger] d[j] == lines[j] by {}
        assert(lines[last] == lines.last());
        if 0 <= k < lines.len() && listed_log(lines[k]) is Some && (strict ==> is_log_file(
            listed_log(lines[k])->0,
        )) && (forall|j: int|
            0 <= j < k ==> !(listed_log(#[trigger] lines[j]) is Some && (strict ==> is_log_file(
                listed_log(lines[j])->0,
            )))) {
            assert forall|j: int| 0 <= j < d.len() && j < k implies !(listed_log(
                #[trigger] d[j],
            ) is Some && (strict ==> is_log_file(listed_log(d[j])->0))) by {
                assert(d[j] == lines[j]);
            }
            if k < last {
                assert(d[k] == lines[k]);
            } else {
                assert(forall|j: int|
                    0 <= j < d.len() ==> !(listed_log(#[trigger] d[j]) is Some && (strict
                        ==> is_log_file(listed_log(d[j])->0))));
            }
        }
        if forall|j: int|
            0 <= j < lines.len() ==> !(listed_log(#[trigger] lines[j]) is Some && (strict
                ==> is_log_file(listed_log(lines[j])->0))) {
            assert forall|j: int| 0 <= j < d.len() implies !(listed_log(#[trigger] d[j]) is Some
                && (strict ==> is_log_file(listed_log(d[j])->0))) by {
                assert(d[j] == lines[j]);
            }
        }
    }
}

/// Of the open files the first that has the ending of a log is taken, and only where none
/// has it the first that lies in a directory for logs.
pub proof fn open_logs_with_the_ending_come_first(lines: Seq<Seq<char>>, k: int)
    ensures
        0 <= k < lines.len() && listed_log(lines[k]) is Some && is_log_file(
            listed_log(lines[k])->0,
        ) && (forall|j: int|
            0 <= j < k ==> !(listed_log(#[trigger] lines[j]) is Some && is_log_file(
                listed_log(lines[j])->0,
            ))) ==> open_log_in(lines) == listed_log(lines[k]),
        (forall|j: int|
            0 <= j < lines.len() ==> !(listed_log(#[trigger] lines[j]) is Some && is_log_file(
                listed_log(lines[j])->0,
            ))) && 0 <= k < lines.len() && listed_log(lines[k]) is Some && (forall|j: int|
            0 <= j < k ==> listed_log(#[trigger] lines[j]) is None) ==> open_log_in(lines)
            == listed_log(lines[k]),
        (forall|j: int| 0 <= j < lines.len() ==> listed_log(#[trigger] lines[j]) is None)
            ==> open_log_in(lines) is None,
{
    lemma_listed(lines, true, k);
    lemma_listed(lines, false, k);
}

/// The first of several equally new logs is taken.
pub proof fn the_first_of_the_newest_is_taken(files: Seq<DatedFile>)
    ensures
        newest(files) matches Some(i) ==> forall|j: int|
            0 <= j < i && is_log_file((#[trigger] files[j]).path@) ==> files[j].modified
                < files[i].modified,
    decreases files.len(),
{
    if files.len() > 0 {
        let d = files.drop_last();
        the_first_of_the_newest_is_taken(d);
        crate::logs::newest_is_newest(d);
        assert forall|j: int| 0 <= j < d.len() implies d[j] == #[trigger] files[j] by {}
    }
}

/// A log has the ending of one behind a name that is not empty.
pub proof fn logs_have_their_ending(dir: Seq<char>, name: Seq<char>)
    requires
        dir.len() > 0,
        is_file_name(name),
    ensures
        is_log_file(dir + "/"@ + name) <==> name.len() > 4 && name.subrange(
            name.len() - 4,
            name.len() as int,
        ) == ".log"@,
{
    reveal_strlit(".log");
    names_are_the_last_part(dir, name);
}

/// A log of the process manager has the project's name and the word for output in its own.
pub proof fn managed_logs_go_by_the_project(dir: Seq<char>, name: Seq<char>, project: Seq<char>)
    requires
        dir.len() > 0,
        is_file_name(name),
    ensures
        is_pm2_log(dir + "/"@ + name, project) <==> text::occurs(project, name) && text::occurs(
            "out"@,
            name,
        ),
{
    names_are_the_last_part(dir, name);
}

// --------------------------------------------------------------------- cadence

/// A change of what runs is looked at again after a second; while nothing changes the pause
/// doubles each time, up to five seconds. Snapshots are numbered one after the other.
pub proof fn the_pause_doubles_up_to_five_seconds(last: u64, seq: u64)
    ensures
        pause_after(true, last) == 1000,
        last <= 2500 ==> pause_after(false, last) == 2 * last,
        last >= 2500 ==> pause_after(false, last) == 5000,
        seq < u64::MAX ==> next_seq(seq) == seq + 1,
        crate::sampler::DOCKER_TTL == 5000,
{
}

// -------------------------------------------------------------- kill and its end

/// A kill goes ahead exactly where some captured process still runs, and signals exactly
/// those that do.
pub proof fn kills_signal_what_still_runs(
    captured: Seq<PidStart>,
    now: Map<u32, u64>,
    r: Result<Vec<u32>, String>,
    p: u32,
)
    requires
        kill_goes(captured, now, r),
    ensures
        r is Ok <==> exists|i: int|
            0 <= i < captured.len() && now.contains_key((#[trigger] captured[i]).0)
                && now[captured[i].0] == captured[i].1,
        r matches Ok(v) ==> (v@.contains(p) <==> exists|i: int|
            0 <= i < captured.len() && (#[trigger] captured[i]).0 == p && now.contains_key(p)
                && now[p] == captured[i].1),
        r matches Err(e) ==> e@ == "already exited"@,
{
    crate::verbs::only_the_same_process_survives(captured, now, p);
    let s = surviving(captured, now);
    if s.len() > 0 {
        crate::verbs::only_the_same_process_survives(captured, now, s[0]);
        assert(s.contains(s[0]));
    }
    if exists|i: int|
        0 <= i < captured.len() && now.contains_key((#[trigger] captured[i]).0)
            && now[captured[i].0] == captured[i].1 {
        let i = choose|i: int|
            0 <= i < captured.len() && now.contains_key((#[trigger] captured[i]).0)
                && now[captured[i].0] == captured[i].1;
        crate::verbs::only_the_same_process_survives(captured, now, captured[i].0);
        assert(s.contains(captured[i].0));
    }
}

/// Escalation kills exactly what still runs, counts it in what it says, and does nothing
/// once it was cancelled.
pub proof fn escalation_kills_the_stragglers(
    cancelled: bool,
    captured: Seq<PidStart>,
    now: Map<u32, u64>,
    r: (Vec<u32>, Option<String>),
    p: u32,
)
    requires
        escalated(cancelled, captured, now, r),
    ensures
        cancelled ==> r.0@.len() == 0 && r.1 is None,
        !cancelled ==> (r.0@.contains(p) <==> exists|i: int|
            0 <= i < captured.len() && (#[trigger] captured[i]).0 == p && now.contains_key(p)
                && now[p] == captured[i].1),
        r.1 is Some <==> r.0@.len() > 0,
        r.1 matches Some(s) ==> text::occurs(text::decimal(r.0@.len()), s@),
{
    crate::verbs::only_the_same_process_survives(captured, now, p);
    messages_tell_what_was_done(r.0@.len(), Seq::empty(), Seq::empty(), true, p);
}

/// A restart begins by asking the processes to end, with three seconds for the ports, and
/// only where there is a command to start again.
pub proof fn restarts_begin_by_asking(plan: RestartPlan, r: Option<RestartStep>)
    requires
        restart_begins(plan, r),
    ensures
        r is Some <==> plan.argv@.len() > 0,
        r matches Some(s) ==> s.phase is Terminating && s.act == RestartAct::Terminate(3000)
            && s.status is None,
{
    match r {
        Some(s) => {
            assert(s@.act == s.act && s@.phase == s.phase);
            assert(s@.status == crate::model::opt_text(s.status));
        },
        None => {},
    }
}

/// Ports count as released once none of them is busy; while one is, the wait goes on up to
/// its end.
pub proof fn ports_are_waited_for(busy: Seq<bool>, now: u64, deadline: u64, r: PortWait)
    requires
        port_wait(busy, now, deadline, r),
    ensures
        r is Free <==> forall|i: int| 0 <= i < busy.len() ==> !#[trigger] busy[i],
        r is TimedOut <==> now >= deadline && exists|i: int|
            0 <= i < busy.len() && #[trigger] busy[i],
        r matches PortWait::Again(ms) ==> 0 < ms,
{
}

/// A tail starts at most sixteen kilobytes before the end, at the start of a shorter file,
/// and starts over where the file has become shorter than what was read of it.
pub proof fn tails_start_near_the_end(
    len: u64,
    start: u64,
    position: u64,
    size: Option<u64>,
    r: AtEnd,
)
    requires
        tail_starts(len, start),
        end_means(position, size, r),
    ensures
        start <= len && len - start <= 16 * 1024,
        len > 16 * 1024 ==> start + 16 * 1024 == len,
        len <= 16 * 1024 ==> start == 0,
        r is StartOver <==> size is Some && size->0 < position,
{
}

/// The log of the process manager is the first file that is one of the project's; without a
/// project there is none, and neither is there a captured log.
pub proof fn kept_logs_are_those_of_the_project(
    files: Seq<Seq<char>>,
    project: Seq<char>,
    kept: Option<Seq<char>>,
    xdg: Option<Seq<char>>,
    home: Option<Seq<char>>,
    captured: Option<Seq<char>>,
    i: int,
)
    requires
        managed_log(files, project, kept),
        captured_at(project, xdg, home, captured),
    ensures
        project.len() == 0 ==> kept is None && captured is None,
        kept matches Some(p) ==> files.contains(p) && is_pm2_log(p, project),
        project.len() > 0 && 0 <= i < files.len() && is_pm2_log(files[i], project) && (forall|
            j: int,
        |
            0 <= j < i ==> !is_pm2_log(#[trigger] files[j], project)) ==> kept == Some(files[i]),
        project.len() > 0 ==> (captured is Some <==> logs_dir(xdg, home) is Some),
        captured matches Some(p) ==> p == capture_path(project, logs_dir(xdg, home)->0),
{
    let hits = crate::logs::pm2_hits(files, project);
    crate::resolve::lemma_first_hit(hits);
    match crate::resolve::first_hit(hits) {
        Some(k) => {
            assert(hits[k]);
            assert(files.contains(files[k]));
        },
        None => {},
    }
    if project.len() > 0 && 0 <= i < files.len() && is_pm2_log(files[i], project) && (forall|
        j: int,
    |
        0 <= j < i ==> !is_pm2_log(#[trigger] files[j], project)) {
        assert(hits[i]);
        assert forall|j: int| 0 <= j < i implies !#[trigger] hits[j] by {
            assert(!is_pm2_log(files[j], project));
        }
        crate::resolve::lemma_is_first_hit(hits, i);
    }
}

/// What is known of containers is used for five seconds, and what was never fetched is not.
pub proof fn container_facts_go_stale(fetched: Option<u64>, now: u64, r: bool)
    requires
        goes_stale(fetched, now, r),
    ensures
        fetched is None ==> r,
        fetched matches Some(at) ==> (r <==> now > at + 5000),
{
}

/// A configuration that can be read is used as it is; one that cannot is told of with its
/// path and the reason, and like a missing one leaves no rule.
pub proof fn bad_configuration_is_told(
    path: Seq<char>,
    parsed: Option<Result<ConfigFile, String>>,
    r: (ConfigFile, Option<String>),
)
    requires
        loaded(path, parsed, r),
    ensures
        parsed is None ==> r.1 is None && r.0.rule@.len() == 0 && r.0.ignore@.len() == 0
            && r.0.overrides@.len() == 0 && r.0.watch@.len() == 0 && r.0.group@.len() == 0,
        parsed matches Some(Ok(cfg)) ==> r.0 == cfg && r.1 is None,
        parsed matches Some(Err(e)) ==> r.1 is Some && text::occurs(path, r.1->0@) && text::occurs(
            e@,
            r.1->0@,
        ) && r.0.rule@.len() == 0 && r.0.ignore@.len() == 0 && r.0.overrides@.len() == 0
            && r.0.watch@.len() == 0 && r.0.group@.len() == 0,
{
    match parsed {
        Some(Err(e)) => {
            let s = "marina: ignoring "@ + path + ": "@ + e@;
            assert(s =~= "marina: ignoring "@ + path + (": "@ + e@));
            text::lemma_stands_between("marina: ignoring "@, path, ": "@ + e@);
            assert(s =~= ("marina: ignoring "@ + path + ": "@) + e@ + Seq::<char>::empty());
            text::lemma_stands_between("marina: ignoring "@ + path + ": "@, e@, Seq::empty());
        },
        _ => {},
    }
}

} // verus!
