//! Verbs and logs.
use std::collections::HashMap;

use marina::logs::{
    at_end, cannot_open, captured_path, discover, from_fds, in_dir, is_logish, pm2_log,
    state_log_dir, state_log_path, tail_start, AtEnd, DatedFile,
};
use marina::verbs::{
    docker, escalate, kill, log_header, report_denied, restart, restart_step, signal_tree,
    survivors, wait_ports_free, PidStart, PortWait, RestartAct, RestartEvent, RestartPhase,
    RestartPlan, KILL_WAIT, PORT_POLL, TERM_WAIT,
};

#[test]
fn survivors_excludes_exited_and_recycled_pids() {
    let captured: Vec<PidStart> = vec![(10, 100), (20, 200), (30, 300)];
    // 10 still same; 20 exited (absent); 30's number recycled (new start_time)
    let now = HashMap::from([(10, 100u64), (30, 999)]);
    assert_eq!(survivors(&captured, &now), vec![10]);
}

#[test]
fn wait_ports_free_returns_fast_when_free_and_detects_busy() {
    assert_eq!(wait_ports_free(&[false, false], 0, 100), PortWait::Free);
    assert_eq!(wait_ports_free(&[], 500, 100), PortWait::Free);
    assert_eq!(wait_ports_free(&[false, true], 0, 100), PortWait::Again(PORT_POLL));
    assert_eq!(wait_ports_free(&[true], 100, 100), PortWait::TimedOut);
}

#[test]
fn a_kill_needs_a_process_that_is_still_there() {
    let captured: Vec<PidStart> = vec![(10, 100), (20, 200)];
    let now = HashMap::from([(10, 100u64), (20, 200)]);
    assert_eq!(kill(&captured, &now).unwrap(), vec![10, 20]);
    assert_eq!(kill(&captured, &HashMap::new()).unwrap_err(), "already exited");
}

#[test]
fn an_escalation_kills_stragglers_unless_cancelled() {
    let captured: Vec<PidStart> = vec![(10, 100), (20, 200)];
    let one = HashMap::from([(20, 200u64)]);
    let both = HashMap::from([(10, 100u64), (20, 200)]);
    assert_eq!(
        escalate(false, &captured, &one),
        (vec![20], Some("force-killed 1 straggler".to_string()))
    );
    assert_eq!(
        escalate(false, &captured, &both),
        (vec![10, 20], Some("force-killed 2 stragglers".to_string()))
    );
    assert_eq!(escalate(true, &captured, &both), (vec![], None));
    assert_eq!(escalate(false, &captured, &HashMap::new()), (vec![], None));
}

#[test]
fn refused_signals_are_reported() {
    let out = signal_tree(&[1, 2, 3], &[Ok(()), Err(1), Err(3)], 1);
    assert_eq!(out.sent, 1);
    assert_eq!(out.denied, vec![2]);
    assert_eq!(
        report_denied(&out).as_deref(),
        Some("permission denied signalling pid [2] — not your process?")
    );
    let fine = signal_tree(&[1], &[Ok(())], 1);
    assert_eq!(report_denied(&fine), None);
}

fn plan(argv: Vec<String>) -> RestartPlan {
    RestartPlan { project: "web".into(), argv, cwd: "/w".into(), ports: vec![1], pid_starts: vec![] }
}

#[test]
fn a_restart_needs_a_command() {
    assert!(restart(&plan(vec![])).is_none());
    let step = restart(&plan(vec!["node".into()])).unwrap();
    assert_eq!(step.phase, RestartPhase::Terminating);
    assert_eq!(step.act, RestartAct::Terminate(TERM_WAIT));
}

#[test]
fn a_restart_escalates_once_and_then_starts_anyway() {
    let one = restart_step("web", RestartPhase::Terminating, &RestartEvent::PortsFree(false));
    assert_eq!(one.act, RestartAct::Kill(KILL_WAIT));
    let two = restart_step("web", one.phase, &RestartEvent::PortsFree(false));
    assert_eq!(two.act, RestartAct::Start);
    assert_eq!(
        two.status.as_deref(),
        Some("restart web: port still busy — respawning anyway")
    );
    let quick = restart_step("web", RestartPhase::Terminating, &RestartEvent::PortsFree(true));
    assert_eq!(quick.act, RestartAct::Start);
    assert_eq!(quick.status, None);
}

#[test]
fn a_restart_reports_how_it_went() {
    let ok = restart_step("web", RestartPhase::Starting, &RestartEvent::Started);
    assert_eq!(ok.act, RestartAct::Watch);
    assert_eq!(ok.status.as_deref(), Some("restarted web — output captured (T to tail)"));
    let bad = restart_step("web", RestartPhase::Starting, &RestartEvent::Failed("no".into()));
    assert_eq!(bad.act, RestartAct::GiveUp);
    assert_eq!(bad.status.as_deref(), Some("restart web failed: no"));
    let crash =
        restart_step("web", RestartPhase::Running, &RestartEvent::Ended(1999, "exit 1".into()));
    assert_eq!(
        crash.status.as_deref(),
        Some("restart web crashed on startup (exit 1) — T for its log")
    );
    let later =
        restart_step("web", RestartPhase::Running, &RestartEvent::Ended(2000, "exit 1".into()));
    assert_eq!(later.status, None);
}

#[test]
fn container_verbs_and_captured_logs_say_what_happened() {
    assert_eq!(docker("stop", "db", true), "docker stop db: done");
    assert_eq!(docker("restart", "db", false), "docker restart db failed — daemon running?");
    assert_eq!(log_header(17), "--- marina restart (unix 17) ---");
}

// -------------------------------------------------------------------------- logs

fn dated(modified: u64, path: &str) -> DatedFile {
    DatedFile { modified, path: path.into() }
}

#[test]
fn finds_newest_log_in_dir() {
    let files = vec![dated(5, "/d/app.log"), dated(9, "/d/notes.txt")]; // ignored (not .log)
    assert_eq!(in_dir(&files).as_deref(), Some("/d/app.log"));
    let files = vec![dated(5, "/d/a.log"), dated(7, "/d/logs/b.log"), dated(6, "/d/c.log")];
    assert_eq!(in_dir(&files).as_deref(), Some("/d/logs/b.log"));
    assert_eq!(in_dir(&[]), None);
}

#[test]
fn is_logish_filters_sockets_and_non_logs() {
    assert!(is_logish("/var/log/app.log"));
    assert!(is_logish("/srv/app/logs/out.log"));
    assert!(!is_logish("/x/config.toml"));
    assert!(!is_logish("*:4321")); // socket entry, not a path
}

#[test]
fn state_log_path_is_stable_and_sanitized() {
    let p = state_log_path("scope/app one", None, Some("/home/me")).expect("state dir");
    assert!(p.ends_with("marina/logs/scope-app-one.log"));
    assert_eq!(p, "/home/me/.local/state/marina/logs/scope-app-one.log");
    assert_eq!(
        state_log_dir(Some("/state"), Some("/home/me")).as_deref(),
        Some("/state/marina/logs")
    );
    assert_eq!(state_log_dir(None, None), None);
    assert_eq!(captured_path("", None, Some("/home/me")), None);
}

#[test]
fn from_fds_finds_a_log_we_hold_open() {
    let found = from_fds("p12\nfcwd\nn/home/me\nf3\nn/tmp/marina-fd-12.log\n");
    assert_eq!(found.as_deref(), Some("/tmp/marina-fd-12.log"));
    assert_eq!(from_fds("p12\nf3\nn*:4321\n"), None);
}

#[test]
fn the_best_known_log_wins() {
    let s = |t: &str| Some(t.to_string());
    assert_eq!(discover(s("a"), s("b"), s("c"), s("d")), s("a"));
    assert_eq!(discover(None, s("b"), s("c"), s("d")), s("b"));
    assert_eq!(discover(None, None, s("c"), s("d")), s("c"));
    assert_eq!(discover(None, None, None, s("d")), s("d"));
    assert_eq!(discover(None, None, None, None), None);
}

#[test]
fn a_process_manager_log_is_found_by_project() {
    let files = vec!["/p/other-out.log".to_string(), "/p/web-out.log".to_string()];
    assert_eq!(pm2_log(&files, "web").as_deref(), Some("/p/web-out.log"));
    assert_eq!(pm2_log(&files, "nope"), None);
}

#[test]
fn a_tail_starts_near_the_end_and_starts_over_after_truncation() {
    assert_eq!(tail_start(10), 0);
    assert!(tail_start(10_000_000) > 0);
    assert_eq!(at_end(100, Some(5)), AtEnd::StartOver);
    assert!(matches!(at_end(100, Some(100)), AtEnd::Wait(_)));
    assert!(matches!(at_end(100, None), AtEnd::Wait(_)));
    assert!(cannot_open("/x.log").contains("/x.log"));
}
