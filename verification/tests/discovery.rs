//! From processes and listening ports to a snapshot.
use std::collections::{HashMap, HashSet};

use marina::docker::ContainerPort;
use marina::model::{Snapshot, TargetKey, TargetKind, UrlScheme, CPU_PERCENT};
use marina::ports::sort_dedup;
use marina::proctree::{ancestors, child_map, climb, climb_below, is_dev_target, rollup, subtree};
use marina::resolve::{IgnoreRule, Resolver};
use marina::sampler::{docker_stale, next_delay, Sampler, DOCKER_TTL, FAST, SLOWEST};
use marina::sources::{Listener, ProcInfo, ProcTable};
use marina::textmap::TextMap;

fn proc(pid: u32, ppid: Option<u32>, name: &str, cwd: &str, argv: &[&str]) -> ProcInfo {
    ProcInfo {
        pid,
        ppid,
        name: name.into(),
        argv: argv.iter().map(|s| s.to_string()).collect(),
        cwd: Some(cwd.to_string()),
        cpu: 0,
        mem_bytes: 0,
        footprint: None,
        start_time: 0,
    }
}

fn map(ps: Vec<ProcInfo>) -> ProcTable {
    ProcTable::new(ps)
}

fn listener(port: u16, pid: u32) -> Listener {
    Listener { port, pid, exposed: false }
}

fn sampler() -> Sampler {
    Sampler::new(Resolver::empty(), Some("/Users/me".to_string()))
}

const ME: u32 = 999_999;

fn build(s: &mut Sampler, listeners: Vec<Listener>, procs: &ProcTable) -> Snapshot {
    s.build(Ok(listeners), procs, ME, &TextMap::new(), &HashMap::new())
}

#[test]
fn url_scheme_web_detection() {
    assert!(UrlScheme::Http.is_web());
    assert!(UrlScheme::Https.is_web());
    assert!(!UrlScheme::Postgres.is_web());
    assert!(!UrlScheme::Redis.is_web());
}

#[test]
fn sample_has_a_multi_target_project() {
    let snap = Snapshot::sample();
    let portal = snap.targets.iter().filter(|t| t.project == "client-portal").count();
    assert_eq!(portal, 2); // next dev + postgres
}

// ------------------------------------------------------------------ process tree

#[test]
fn climb_stops_at_the_package_boundary() {
    // worker(300) -> next dev(200) in apps/web -> turbo(100) at repo root.
    let procs = map(vec![
        proc(100, Some(1), "turbo", "/repo", &["turbo", "run", "dev"]),
        proc(200, Some(100), "node", "/repo/apps/web", &["node", "next", "dev"]),
        proc(300, Some(200), "node", "/repo/apps/web", &["node", "worker"]),
    ]);
    // anchors at next dev, not at the shared turbo parent (cwd leaves the root)
    assert_eq!(climb(300, &procs, Some("/repo/apps/web")), 200);
}

#[test]
fn climb_stops_at_a_shell_parent() {
    let procs = map(vec![
        proc(700, Some(1), "zsh", "/repo/apps/web", &["-zsh"]),
        proc(600, Some(700), "node", "/repo/apps/web", &["node", "next", "dev"]),
    ]);
    assert_eq!(climb(600, &procs, Some("/repo/apps/web")), 600);
}

#[test]
fn climb_stops_at_every_shell() {
    for shell in ["ksh", "dash", "tcsh", "-sh", "-fish", "-bash", "tmux: server", "sshd"] {
        let procs = map(vec![
            proc(700, Some(1), shell, "/repo/apps/web", &[shell]),
            proc(600, Some(700), "node", "/repo/apps/web", &["node", "next", "dev"]),
        ]);
        assert_eq!(climb(600, &procs, Some("/repo/apps/web")), 600, "{shell}");
    }
}

#[test]
fn climb_stays_below_what_is_barred() {
    let procs = map(vec![
        proc(500, Some(1), "code", "/repo/apps/web", &["code"]),
        proc(600, Some(500), "node", "/repo/apps/web", &["node", "next", "dev"]),
        proc(601, Some(600), "node", "/repo/apps/web", &["node", "worker"]),
    ]);
    assert_eq!(climb(601, &procs, Some("/repo/apps/web")), 500);
    let barred: HashSet<u32> = [500].into_iter().collect();
    assert_eq!(climb_below(601, &procs, Some("/repo/apps/web"), &barred), 600);
}

#[test]
fn climb_terminates_on_a_cycle() {
    let procs = map(vec![
        proc(10, Some(20), "node", "/r", &["node"]),
        proc(20, Some(10), "node", "/r", &["node"]),
    ]);
    let a = climb(10, &procs, Some("/r")); // must not hang
    assert!(a == 10 || a == 20);
}

#[test]
fn subtree_collects_descendants_without_dupes() {
    let procs = map(vec![
        proc(1, None, "a", "/r", &[]),
        proc(2, Some(1), "b", "/r", &[]),
        proc(3, Some(2), "c", "/r", &[]),
        proc(4, Some(1), "d", "/r", &[]),
    ]);
    let mut sub = subtree(1, &child_map(&procs));
    sub.sort_unstable();
    assert_eq!(sub, vec![1, 2, 3, 4]);
}

#[test]
fn rollup_sums_only_present_pids() {
    let mut a = proc(1, None, "a", "/r", &[]);
    a.cpu = CPU_PERCENT;
    a.mem_bytes = 100;
    let mut b = proc(2, Some(1), "b", "/r", &[]);
    b.cpu = 2 * CPU_PERCENT;
    b.mem_bytes = 200;
    let procs = map(vec![a, b]);
    let (cpu, mem) = rollup(&[1, 2, 999], &procs); // 999 absent
    assert_eq!(cpu, 3 * CPU_PERCENT);
    assert_eq!(mem, 300);
}

#[test]
fn rollup_prefers_the_footprint_and_never_overflows() {
    let mut a = proc(1, None, "a", "/r", &[]);
    a.mem_bytes = 100;
    a.footprint = Some(70);
    let mut b = proc(2, None, "b", "/r", &[]);
    b.cpu = u64::MAX;
    b.mem_bytes = u64::MAX;
    let procs = map(vec![a, b]);
    assert_eq!(rollup(&[1], &procs).1, 70);
    assert_eq!(rollup(&[1, 2], &procs), (u64::MAX, u64::MAX));
}

#[test]
fn curation_keeps_dev_drops_system() {
    let home = Some("/Users/me");
    assert!(is_dev_target(Some("/Users/me/dev/x"), None, home)); // under $HOME
    assert!(is_dev_target(Some("/opt/x"), Some("/opt/x"), home)); // has root
    assert!(!is_dev_target(Some("/"), None, home)); // system daemon
}

#[test]
fn ancestors_walks_the_parent_chain() {
    let procs = map(vec![
        proc(1, None, "launchd", "/", &[]),
        proc(50, Some(1), "sshd", "/", &[]),
        proc(60, Some(50), "zsh", "/Users/me", &[]),
        proc(70, Some(60), "marina", "/Users/me", &[]),
    ]);
    let set = ancestors(70, &procs);
    assert!(set.contains(&70) && set.contains(&60) && set.contains(&50) && set.contains(&1));
    assert!(!set.contains(&999));
}

#[test]
fn a_row_keeps_to_its_project_root() {
    let procs = map(vec![
        proc(200, Some(1), "node", "/repo/web", &["node"]),
        proc(201, Some(200), "node", "/repo/web/src", &["node"]),
        proc(202, Some(200), "node", "/elsewhere", &["node"]),
    ]);
    let all = subtree(200, &child_map(&procs));
    assert_eq!(all.len(), 3);
    let mut s = sampler();
    s.learn_root("/repo/web".into(), Some("/repo/web".into()));
    let snap = build(&mut s, vec![listener(3000, 200)], &procs);
    let mut own = snap.targets[0].pids.clone();
    own.sort_unstable();
    assert_eq!(own, vec![200, 201]);
}

#[test]
fn ports_are_sorted_once_each() {
    assert_eq!(sort_dedup(&[5432, 3000, 5432, 80]), vec![80, 3000, 5432]);
}

// ------------------------------------------------------------------------- build

#[test]
fn build_resolves_a_listener_end_to_end() {
    // a vite server under $HOME (no manifest on disk -> project = cwd basename)
    let procs = map(vec![proc(
        200,
        Some(1),
        "node",
        "/Users/me/web",
        &["node", "/x/.bin/vite", "dev"],
    )]);
    let snap = build(&mut sampler(), vec![listener(3000, 200)], &procs);
    assert_eq!(snap.targets.len(), 1);
    let t = &snap.targets[0];
    assert_eq!(t.ports, vec![3000]);
    assert_eq!(t.command_label, "vite"); // subtree label resolution
    assert_eq!(t.project, "web"); // cwd basename fallback
    assert!(t.url.as_ref().map(|u| u.value.as_str()) == Some("http://localhost:3000"));
    assert_eq!(t.pid_starts, vec![(200, 0)]); // kill fingerprint captured
    assert!(snap.error.is_none());
}

#[test]
fn build_surfaces_a_port_scan_failure() {
    let mut s = sampler();
    let snap = s.build(Err("boom".into()), &map(vec![]), ME, &TextMap::new(), &HashMap::new());
    assert_eq!(snap.error.as_deref(), Some("boom"));
}

#[test]
fn build_merges_two_anchors_on_one_port() {
    // two separate anchor processes both hold :4000.
    let procs = map(vec![
        proc(200, Some(1), "node", "/Users/me/a", &["node", "s.js"]),
        proc(300, Some(1), "node", "/Users/me/a", &["node", "s.js"]),
    ]);
    let snap = build(&mut sampler(), vec![listener(4000, 200), listener(4000, 300)], &procs);
    assert_eq!(snap.targets.len(), 1, "one row per port, not one per anchor");
    let t = &snap.targets[0];
    let mut pids = t.pids.clone();
    pids.sort_unstable();
    assert_eq!(pids, vec![200, 300]);
}

#[test]
fn build_marks_lan_exposed_listeners() {
    let procs = map(vec![proc(200, Some(1), "node", "/Users/me/web", &["node", "s.js"])]);
    let open = vec![Listener { port: 3000, pid: 200, exposed: true }];
    assert!(build(&mut sampler(), open, &procs).targets[0].exposed);
}

#[test]
fn nested_watchers_do_not_double_count() {
    // nodemon spawns a nodemon child: same (project, label, cwd) identity, so the
    // child's pids must not be counted twice.
    let mut parent =
        proc(900_500, Some(1), "node", "/Users/me/lib", &["node", "/x/.bin/nodemon"]);
    parent.mem_bytes = 100;
    let mut child =
        proc(900_501, Some(900_500), "node", "/Users/me/lib", &["node", "/x/.bin/nodemon"]);
    child.mem_bytes = 40;
    let snap = build(&mut sampler(), vec![], &map(vec![parent, child]));
    assert_eq!(snap.targets.len(), 1);
    let t = &snap.targets[0];
    assert_eq!(t.pids.len(), 2, "both pids, once each");
    assert_eq!(t.mem_bytes, 140, "memory counted once per pid");
}

#[test]
fn build_excludes_marinas_own_session() {
    // a listener whose pid is marina's own pid (i.e. our session) is dropped
    let me = 4242;
    let procs = map(vec![proc(me, Some(1), "node", "/Users/me/web", &["node", "server.js"])]);
    let mut s = sampler();
    let snap =
        s.build(Ok(vec![listener(4000, me)]), &procs, me, &TextMap::new(), &HashMap::new());
    assert_eq!(snap.targets.len(), 0);
}

#[test]
fn an_editor_that_runs_marina_and_a_server_is_not_listed() {
    // the editor(500) hosts a terminal with marina(502) in it, and starts a server(600)
    let procs = map(vec![
        proc(500, Some(1), "code", "/Users/me/web", &["code"]),
        proc(501, Some(500), "zsh", "/Users/me/web", &["-zsh"]),
        proc(502, Some(501), "marina", "/Users/me/web", &["marina"]),
        proc(600, Some(500), "node", "/Users/me/web", &["node", "server.js"]),
        proc(601, Some(600), "node", "/Users/me/web", &["node", "worker.js"]),
    ]);
    let mut s = sampler();
    s.learn_root("/Users/me/web".into(), Some("/Users/me/web".into()));
    let snap =
        s.build(Ok(vec![listener(4000, 601)]), &procs, 502, &TextMap::new(), &HashMap::new());
    assert_eq!(snap.targets.len(), 1);
    assert_eq!(snap.targets[0].anchor.pid, 600);
    let mut pids = snap.targets[0].pids.clone();
    pids.sort_unstable();
    assert_eq!(pids, vec![600, 601]);
}

#[test]
fn build_drops_non_dev_listeners() {
    // cwd "/" with no project root, not under $HOME -> filtered out
    let procs = map(vec![proc(50, Some(1), "rapportd", "/", &["/usr/sbin/rapportd"])]);
    assert_eq!(build(&mut sampler(), vec![listener(50555, 50)], &procs).targets.len(), 0);
}

#[test]
fn topology_change_is_flagged_then_settles() {
    let procs = map(vec![proc(200, Some(1), "node", "/Users/me/web", &["node", "s.js"])]);
    let mut s = sampler();
    build(&mut s, vec![listener(3000, 200)], &procs);
    assert!(s.topology_changed, "first build changes topology");
    build(&mut s, vec![listener(3000, 200)], &procs);
    assert!(!s.topology_changed, "same targets -> stable");
    assert_eq!(s.seq, 2);
}

#[test]
fn topology_is_a_set_of_keys() {
    let a = || proc(300, Some(1), "node", "/Users/me/lib", &["node", "/x/.bin/tsc", "--watch"]);
    let b = || proc(301, Some(1), "node", "/Users/me/lib", &["node", "/x/.bin/nodemon"]);
    let mut s = sampler();
    let one = build(&mut s, vec![], &map(vec![a(), b()]));
    assert!(s.topology_changed);
    let two = build(&mut s, vec![], &map(vec![b(), a()]));
    assert_eq!(one.targets.len(), 2);
    assert_ne!(one.targets[0].key, two.targets[0].key, "listed the other way round");
    assert!(!s.topology_changed, "but the same set of keys");
    assert_eq!(two.seq, one.seq + 1);
    build(&mut s, vec![], &map(vec![a()]));
    assert!(s.topology_changed, "one key less");
}

#[test]
fn listeners_absorb_their_watchers() {
    let procs = map(vec![
        proc(200, Some(1), "node", "/Users/me/web", &["node", "/x/.bin/vite"]),
        proc(201, Some(200), "node", "/Users/me/web", &["node", "/x/.bin/tsc", "--watch"]),
        proc(300, Some(1), "node", "/Users/me/lib", &["node", "/x/.bin/tsc", "--watch"]),
    ]);
    let snap = build(&mut sampler(), vec![listener(5173, 200)], &procs);
    assert_eq!(snap.targets.len(), 2);
    assert_eq!(snap.targets[0].key, TargetKey::Port(5173));
    assert_eq!(snap.targets[0].pids.len(), 2);
    assert_eq!(snap.targets[1].kind, TargetKind::Watched);
    assert_eq!(snap.targets[1].project, "lib");
    assert_eq!(snap.targets[1].pids, vec![300]);
}

#[test]
fn roots_and_names_are_asked_for_once_and_used() {
    let procs = map(vec![proc(200, Some(1), "node", "/repo/web/src", &["node", "s.js"])]);
    let listeners = vec![listener(3000, 200)];
    let mut s = sampler();
    assert_eq!(s.unresolved(&listeners, &procs, ME), vec!["/repo/web/src".to_string()]);
    s.learn_root("/repo/web/src".into(), Some("/repo/web".into()));
    s.learn_name("/repo/web".into(), "acme".into());
    assert!(s.unresolved(&listeners, &procs, ME).is_empty());
    let mut branches = TextMap::new();
    branches.insert("/repo/web".into(), Some("main".into()));
    let snap = s.build(Ok(listeners), &procs, ME, &branches, &HashMap::new());
    assert_eq!(snap.targets[0].project, "acme");
    assert_eq!(snap.targets[0].git_branch.as_deref(), Some("main"));
}

#[test]
fn siblings_under_one_supervisor_share_no_process() {
    let procs = map(vec![
        proc(100, Some(1), "node", "/repo", &["turbo", "run", "dev"]),
        proc(200, Some(100), "node", "/repo/apps/web", &["node", "/x/.bin/next", "dev"]),
        proc(300, Some(100), "node", "/repo/apps/api", &["node", "server.js"]),
    ]);
    let mut s = sampler();
    s.learn_root("/repo/apps/web".into(), Some("/repo/apps/web".into()));
    s.learn_root("/repo/apps/api".into(), Some("/repo/apps/api".into()));
    let snap = build(&mut s, vec![listener(3000, 200), listener(4000, 300)], &procs);
    assert_eq!(snap.targets.len(), 2);
    assert_eq!(snap.targets[0].pids, vec![200]);
    assert_eq!(snap.targets[1].pids, vec![300]);
}

#[test]
fn a_watcher_outside_the_root_of_its_listener_has_its_own_row() {
    let procs = map(vec![
        proc(200, Some(1), "node", "/repo/web", &["node", "/x/.bin/vite"]),
        proc(201, Some(200), "node", "/Users/me/lib", &["node", "/x/.bin/tsc", "--watch"]),
        proc(202, Some(201), "node", "/repo/web/src", &["node", "/x/.bin/esbuild"]),
    ]);
    let mut s = sampler();
    s.learn_root("/repo/web".into(), Some("/repo/web".into()));
    s.learn_root("/Users/me/lib".into(), None);
    let snap = build(&mut s, vec![listener(5173, 200)], &procs);
    assert_eq!(snap.targets.len(), 2);
    let mut web = snap.targets[0].pids.clone();
    web.sort_unstable();
    assert_eq!(web, vec![200, 202], "back inside the root");
    assert_eq!(snap.targets[1].kind, TargetKind::Watched);
    assert_eq!(snap.targets[1].pids, vec![201]);
}

#[test]
fn a_watcher_below_another_takes_its_own_processes() {
    let procs = map(vec![
        proc(300, Some(1), "node", "/Users/me/lib", &["node", "/x/.bin/nodemon"]),
        proc(301, Some(300), "node", "/Users/me/ui", &["node", "/x/.bin/tsc", "--watch"]),
        proc(302, Some(301), "node", "/Users/me/ui", &["node", "helper.js"]),
        proc(303, Some(300), "node", "/Users/me/lib", &["node", "app.js"]),
    ]);
    let snap = build(&mut sampler(), vec![], &procs);
    let of = |project: &str| {
        let mut pids = snap.targets.iter().find(|t| t.project == project).unwrap().pids.clone();
        pids.sort_unstable();
        pids
    };
    assert_eq!(of("lib"), vec![300, 303]);
    assert_eq!(of("ui"), vec![301, 302]);
}

#[test]
fn nested_anchors_share_no_process() {
    // a server at the root of a repository runs another one inside a nested project
    let procs = map(vec![
        proc(100, Some(1), "node", "/repo", &["node", "server.js"]),
        proc(200, Some(100), "node", "/repo/apps/web", &["node", "/x/.bin/vite"]),
    ]);
    let mut s = sampler();
    s.learn_root("/repo".into(), Some("/repo".into()));
    s.learn_root("/repo/apps/web".into(), Some("/repo/apps/web".into()));
    let snap = build(&mut s, vec![listener(3000, 100), listener(4000, 200)], &procs);
    assert_eq!(snap.targets.len(), 2);
    assert_eq!(snap.targets[0].pids, vec![100]);
    assert_eq!(snap.targets[1].pids, vec![200]);
}

#[test]
fn published_container_ports_become_rows() {
    let procs = map(vec![proc(80, Some(1), "com.docker.backend", "/", &["docker"])]);
    let mut s = sampler();
    let listeners = vec![listener(5432, 80)];
    assert_eq!(s.container_ports(&listeners, &procs, ME), vec![5432]);
    let mut containers = HashMap::new();
    containers.insert(
        5432,
        ContainerPort { name: "app-db-1".into(), image: "postgres".into(), exposed: true },
    );
    let snap = s.build(Ok(listeners), &procs, ME, &TextMap::new(), &containers);
    assert_eq!(snap.targets.len(), 1);
    let t = &snap.targets[0];
    assert_eq!(t.container.as_deref(), Some("app-db-1"));
    assert_eq!(t.command_label, "postgres");
    assert!(t.pids.is_empty() && t.exposed);
}

#[test]
fn ignored_rows_are_hidden_and_stay_claimed() {
    let procs = map(vec![
        proc(200, Some(1), "node", "/Users/me/web", &["node", "/x/.bin/vite"]),
        proc(201, Some(200), "node", "/Users/me/web", &["node", "/x/.bin/tsc", "--watch"]),
    ]);
    let mut rules = Resolver::empty();
    rules.ignores = vec![IgnoreRule { port: Some(5173), cmd: None }];
    let mut s = Sampler::new(rules, Some("/Users/me".to_string()));
    assert_eq!(build(&mut s, vec![listener(5173, 200)], &procs).targets.len(), 0);
}

#[test]
fn snapshots_are_in_canonical_order() {
    let procs = map(vec![
        proc(200, Some(1), "node", "/Users/me/a", &["node", "s.js"]),
        proc(300, Some(1), "node", "/Users/me/b", &["node", "s.js"]),
        proc(400, Some(1), "node", "/Users/me/c", &["node", "/x/.bin/nodemon"]),
    ]);
    let snap = build(&mut sampler(), vec![listener(9000, 200), listener(80, 300)], &procs);
    let keys: Vec<TargetKey> = snap.targets.iter().map(|t| t.key.clone()).collect();
    assert_eq!(keys[0], TargetKey::Port(80));
    assert_eq!(keys[1], TargetKey::Port(9000));
    assert!(matches!(&keys[2], TargetKey::Command { project, .. } if project == "c"));
}

#[test]
fn cpu_is_smoothed_per_process_and_starts_afresh() {
    let table = |start: u64, cpu: u64| {
        let mut p = proc(200, Some(1), "node", "/Users/me/web", &["node", "s.js"]);
        p.start_time = start;
        p.cpu = cpu * CPU_PERCENT;
        map(vec![p])
    };
    let mut s = sampler();
    let one = build(&mut s, vec![listener(3000, 200)], &table(7, 10));
    assert_eq!(one.targets[0].cpu, 10 * CPU_PERCENT);
    let two = build(&mut s, vec![listener(3000, 200)], &table(7, 20));
    assert_eq!(two.targets[0].cpu, 14 * CPU_PERCENT); // 0.4 * 20 + 0.6 * 10
    let other = build(&mut s, vec![listener(3000, 200)], &table(8, 50));
    assert_eq!(other.targets[0].cpu, 50 * CPU_PERCENT); // a new process under the pid
}

#[test]
fn the_cadence_backs_off_while_nothing_changes() {
    assert_eq!(next_delay(true, SLOWEST), FAST);
    let mut d = FAST;
    for _ in 0..5 {
        let next = next_delay(false, d);
        assert!(next >= d && next <= SLOWEST);
        d = next;
    }
    assert_eq!(d, SLOWEST);
}

#[test]
fn container_listings_go_stale() {
    assert!(docker_stale(None, 0));
    assert!(!docker_stale(Some(1000), 1000 + DOCKER_TTL));
    assert!(docker_stale(Some(1000), 1001 + DOCKER_TTL));
}
