//! The command line.
use marina::cli::{
    code_after, container_restarted, dispatch, dump, kill, ls, ls_json, relaunched, restart, select, url, url_json,
    Act, Invocation, TargetJson,
};
use marina::model::{Anchor, Snapshot, Target, TargetKey, TargetKind};

const NOW: u64 = 1_700_000_000;

fn args(parts: &[&str]) -> Vec<String> {
    parts.iter().map(|s| s.to_string()).collect()
}

/// The exit code of an invocation that needs no snapshot.
fn code(parts: &[&str]) -> Option<i32> {
    dispatch(&args(parts)).map(|i| i.settled("0.1.0").expect("settled at once").code)
}

#[test]
fn selectors_match_by_port_project_and_command() {
    let snap = Snapshot::sample(); // client-portal has 2 targets (next dev + postgres)
    assert_eq!(select(&snap, &args(&["3000"])).len(), 1); // by port
    assert_eq!(select(&snap, &args(&[":8000"])).len(), 1); // by :port
    assert_eq!(select(&snap, &args(&["client-portal"])).len(), 2); // by project -> the whole group
    assert!(select(&snap, &args(&["postgres"]))
        .iter()
        .any(|t| t.command_label == "postgres")); // by command label
    assert!(select(&snap, &args(&["nope-xyz"])).is_empty()); // no match
}

#[test]
fn unknown_commands_and_flags_error_instead_of_launching_the_tui() {
    // a typo'd subcommand must not fall through to the TUI
    assert_eq!(code(&["lss"]), Some(2));
    assert_eq!(code(&["--jsonx"]), Some(2));
    // no args -> None -> caller launches the TUI
    assert_eq!(code(&[]), None);
}

#[test]
fn version_prints_and_exits_zero() {
    assert_eq!(code(&["version"]), Some(0));
    assert_eq!(code(&["--version"]), Some(0));
    assert_eq!(code(&["-V"]), Some(0));
    let out = dispatch(&args(&["version"])).unwrap().settled("0.1.0").unwrap().out;
    assert_eq!(out, "marina 0.1.0\n");
}

#[test]
fn json_view_nulls_unmeasurable_fields() {
    // a docker-style target: no pids, no start_time
    let t = Target {
        key: TargetKey::Port(5432),
        kind: TargetKind::Listener,
        ports: vec![5432],
        anchor: Anchor { pid: 0, start_time: 0 },
        anchor_argv: vec![],
        pid_starts: vec![],
        pids: vec![],
        project: "db".into(),
        command_label: "postgres".into(),
        cwd: "/x".into(),
        git_branch: None,
        cpu: 0,
        mem_bytes: 0,
        url: None,
        exposed: true,
        container: Some("myapp-db-1".into()),
    };
    let j = TargetJson::from(&t, NOW);
    assert_eq!(j.kind, "listener");
    assert!(j.cpu.is_none() && j.mem_bytes.is_none() && j.uptime_secs.is_none());
    assert_eq!(j.ports, vec![5432]);
    assert!(j.exposed);
    assert_eq!(j.container.as_deref(), Some("myapp-db-1"));
}

#[test]
fn subcommands_take_flags_and_selectors() {
    assert!(matches!(
        dispatch(&args(&["ls", "--json", "web"])),
        Some(Invocation::Ls { json: true, selectors }) if selectors == vec!["web".to_string()]
    ));
    assert!(matches!(
        dispatch(&args(&["kill", "web", ":3000"])),
        Some(Invocation::Kill { json: false, selectors }) if selectors.len() == 2
    ));
    assert!(matches!(
        dispatch(&args(&["url", "web"])),
        Some(Invocation::Url { json: false, .. })
    ));
    assert!(matches!(dispatch(&args(&["restart", "web"])), Some(Invocation::Restart { .. })));
    assert!(matches!(dispatch(&args(&["ls", "--nope"])), Some(Invocation::BadFlag(f)) if f == "--nope"));
}

#[test]
fn nothing_that_matches_is_an_error() {
    let snap = Snapshot::sample();
    assert_eq!(kill(&snap, &args(&["nope-xyz"]), false, NOW).unwrap_err().code, 1);
    assert_eq!(restart(&snap, &args(&["nope-xyz"])).unwrap_err().code, 1);
    assert_eq!(url(&snap, &args(&["nope-xyz"])).code, 1);
    assert_eq!(url_json(&snap, &args(&["nope-xyz"])).unwrap_err().code, 1);
}

#[test]
fn killing_a_project_takes_all_of_it() {
    let mut snap = Snapshot::sample();
    snap.targets[0].pid_starts = vec![(10, 1), (11, 2)];
    snap.targets[1].pid_starts = vec![(20, 3)];
    snap.targets[3].pid_starts = vec![(30, 4)];
    let plan = kill(&snap, &args(&["client-portal"]), true, NOW).unwrap();
    assert_eq!(plan.pid_starts, vec![(10, 1), (11, 2), (30, 4)]);
    assert_eq!(plan.killed.len(), 2);
    assert!(plan.killed.iter().all(|j| j.project == "client-portal"));
}

#[test]
fn containers_are_stopped_by_name() {
    let mut snap = Snapshot::sample();
    snap.targets[3].container = Some("db-1".into());
    let plan = kill(&snap, &args(&["5432"]), false, NOW).unwrap();
    assert!(plan.pid_starts.is_empty());
    assert!(plan.acts.iter().any(|a| matches!(a, Act::StopContainer(n) if n == "db-1")));
    let plan = restart(&snap, &args(&["5432"])).unwrap();
    assert!(plan.containers);
    assert!(plan.acts.iter().any(|a| matches!(a, Act::RestartContainer(n) if n == "db-1")));
}

#[test]
fn a_restart_relaunches_captured_commands() {
    let mut snap = Snapshot::sample();
    snap.targets[1].anchor_argv = args(&["uvicorn", "app:app"]);
    let plan = restart(&snap, &args(&["billing-api"])).unwrap();
    assert_eq!(plan.relaunches.len(), 1);
    assert_eq!(plan.relaunches[0].argv, args(&["uvicorn", "app:app"]));
    assert_eq!(plan.relaunches[0].project, "billing-api");
    assert!(!plan.containers);
}

#[test]
fn outcomes_are_printed() {
    assert_eq!(container_restarted("db", true).code, 0);
    assert_eq!(container_restarted("db", false).code, 1);
    assert_eq!(relaunched("web", Some("/l/web.log"), None).code, 0);
    let failed = relaunched("web", None, Some("gone"));
    assert_eq!(failed.code, 1);
    assert_eq!(code_after(code_after(0, failed.code), 0), 1, "a failure is not forgotten");
    assert_eq!(code_after(0, 0), 0);
    assert!(failed.err.contains("gone"));
}

#[test]
fn listings_and_urls_name_what_runs() {
    let snap = Snapshot::sample();
    let table = ls(&snap, &[]);
    assert_eq!(table.code, 0);
    assert!(table.out.contains("client-portal") && table.out.contains(":8000!"));
    assert!(!ls(&snap, &args(&["billing-api"])).out.contains("client-portal"));
    assert_eq!(ls_json(&snap, &[], NOW).unwrap().len(), snap.targets.len());
    let missed = ls_json(&snap, &args(&["nosuch"]), NOW).unwrap_err();
    assert_eq!((missed.code, missed.out.as_str()), (1, ""));
    assert!(missed.err.starts_with("no targets match "));
    let none = Snapshot { seq: 0, targets: vec![], error: None };
    assert!(ls_json(&none, &[], NOW).unwrap().is_empty());
    assert_eq!(url(&snap, &args(&["8000"])).out, "billing-api\thttp://localhost:8000\n");
    let urls = url_json(&snap, &args(&["client-portal"])).unwrap();
    assert_eq!(urls.len(), 2);
    assert_eq!(urls[1].url.as_deref(), Some("postgres://localhost:5432"));
}

#[test]
fn a_dump_lists_every_target() {
    let mut snap = Snapshot::sample();
    snap.seq = 2;
    snap.error = Some("boom".into());
    let text = dump(&snap);
    let lines: Vec<&str> = text.lines().collect();
    assert_eq!(lines[0], "snapshot seq=2 — 5 targets");
    assert_eq!(lines[1], "  ⚠ boom");
    assert_eq!(lines.len(), 7);
    assert_eq!(
        lines[3],
        format!(
            "  {:<22} {:<18} {:<8} {:>6.1}%  {:>6}MB  pids=0 anchor=0 cwd=/Users/dev/billing-api http://localhost:8000",
            "billing-api", "uvicorn", ":8000!", 1.1, 96
        )
    );
}

#[test]
fn arguments_stay_out_of_the_json() {
    let snap = Snapshot::sample();
    let mut other = snap.targets[0].clone();
    other.anchor_argv = args(&["node", "--token=hunter2"]);
    let a = format!("{:?}", TargetJson::from(&snap.targets[0], NOW));
    let b = format!("{:?}", TargetJson::from(&other, NOW));
    assert_eq!(a, b);
}
