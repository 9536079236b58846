//! Names, labels, rules, manifests and containers.
use marina::config::{self, ConfigFile, GroupCfg, IgnoreCfg, Member, OverrideCfg, RuleCfg, WatchCfg};
use marina::docker::{image_name, is_binder, parse_published_ports, port_map};
use marina::model::UrlScheme;
use marina::project::{
    gem_name, gemspec_among, git_branch, head_path, is_project_file, mix_app, pom_artifact,
    probe_paths, project_name, project_root, solution_name, Manifests,
};
use marina::resolve::{
    default_url, is_shell, known_tool, label_from_subtree, parse_member, scheme_from_url,
    watcher_label, CmdRule, GroupRule, GroupSelector, IgnoreRule, OverrideRule, Resolver,
    WatchRule,
};
use regex::Regex;

fn argv(parts: &[&str]) -> Vec<String> {
    parts.iter().map(|s| s.to_string()).collect()
}

fn no_manifests() -> Manifests {
    Manifests {
        package_json: None,
        cargo_toml: None,
        pyproject_toml: None,
        go_mod: None,
        gemspec: None,
        pom_xml: None,
        mix_exs: None,
        composer_json: None,
        files: vec![],
    }
}

// -------------------------------------------------------------------- containers

#[test]
fn parses_published_ports() {
    assert_eq!(
        parse_published_ports("0.0.0.0:5432->5432/tcp, :::5432->5432/tcp"),
        vec![5432, 5432]
    );
    assert_eq!(parse_published_ports("0.0.0.0:8080->80/tcp"), vec![8080]);
    assert_eq!(parse_published_ports(""), Vec::<u16>::new());
    // unpublished (no host mapping) -> nothing
    assert_eq!(parse_published_ports("5432/tcp"), Vec::<u16>::new());
}

#[test]
fn image_names() {
    assert_eq!(image_name("postgres:16"), "postgres");
    assert_eq!(image_name("reg.io:5000/team/app:1.2"), "app");
    assert_eq!(image_name("redis"), "redis");
}

#[test]
fn detects_docker_binders() {
    assert!(is_binder("com.docker.backend"));
    assert!(is_binder("docker-proxy"));
    assert!(is_binder("com.docker.vpnkit"));
    assert!(!is_binder("node"));
    assert!(!is_binder("postgres"));
}

#[test]
fn a_listing_maps_ports_to_containers() {
    let map = port_map("db-1\t127.0.0.1:5432->5432/tcp\tpostgres:16\nweb\t0.0.0.0:8080->80/tcp\tacme/web:2\n");
    assert_eq!(map.len(), 2);
    assert_eq!(map[&5432].name, "db-1");
    assert_eq!(map[&5432].image, "postgres");
    assert!(!map[&5432].exposed);
    assert_eq!(map[&8080].name, "web");
    assert_eq!(map[&8080].image, "web");
    assert!(map[&8080].exposed);
}

#[test]
fn every_host_side_proxy_is_a_binder() {
    assert!(is_binder("com.docker.supervisor") && is_binder("com.docker.build"));
    assert!(is_binder("OrbStack Helper") && is_binder("vpnkit-bridge"));
    assert!(!is_binder("docker-compose") && !is_binder("dockerd"));
}

// ------------------------------------------------------------------------ labels

#[test]
fn watcher_label_needs_a_standalone_flag_not_a_substring() {
    assert_eq!(
        watcher_label(&argv(&["node", "--watch", "noop.js"])).as_deref(),
        Some("watch")
    );
    assert_eq!(
        watcher_label(&argv(&["node", "/x/.bin/tsc", "--watch"])).as_deref(),
        Some("tsc --watch")
    );
    // a shell whose -c script merely mentions --watch must not match
    assert_eq!(
        watcher_label(&argv(&["/bin/zsh", "-c", "cargo run -- --watch x"])),
        None
    );
    assert_eq!(
        watcher_label(&argv(&["cargo", "watch", "-x", "run"])).as_deref(),
        Some("cargo watch")
    );
}

#[test]
fn label_sees_through_wrappers_to_the_real_tool() {
    // pnpm parent + vite child in the subtree -> "vite"
    let tree = vec![
        argv(&["node", "/x/node_modules/.bin/pnpm", "dev"]),
        argv(&["node", "/x/node_modules/vite/bin/vite.js"]),
    ];
    assert_eq!(label_from_subtree(&tree), "vite");
    assert_eq!(
        label_from_subtree(&[argv(&["node", "/x/.bin/next", "dev"])]),
        "next dev"
    );
    // unknown -> node-script fallback
    assert_eq!(
        label_from_subtree(&[argv(&["node", "server.js"])]),
        "node server.js"
    );
}

#[test]
fn commands_of_every_ecosystem_are_known() {
    for (line, label) in [
        (vec!["go", "run", "./cmd/api"], "go run"),
        (vec!["/usr/local/go/bin/go", "run", "."], "go run"),
        (vec!["cargo", "run"], "cargo run"),
        (vec!["/Users/me/go/bin/air"], "air"),
        (vec!["gradle", "bootRun"], "gradle bootRun"),
        (vec!["./gradlew", "bootRun", "--info"], "gradle bootRun"),
        (vec!["mvn", "spring-boot:run"], "spring-boot:run"),
        (vec!["/usr/bin/java", "-jar", "app.jar"], "java -jar"),
        (vec!["php", "-S", "localhost:8000"], "php -S"),
        (vec!["php", "artisan", "serve"], "php artisan serve"),
    ] {
        assert_eq!(known_tool(&argv(&line)).as_deref(), Some(label), "{line:?}");
    }
    // a launcher above one of them is seen through
    let tree = vec![argv(&["make", "dev"]), argv(&["java", "-jar", "app.jar"])];
    assert_eq!(label_from_subtree(&tree), "java -jar");
    // whole words only
    assert!(known_tool(&argv(&["python", "-m", "django", "runserver"])).is_none());
    assert!(known_tool(&argv(&["go", "runner"])).is_none());
}

#[test]
fn is_shell_distinguishes_shells_from_tools() {
    assert!(is_shell("zsh"));
    assert!(is_shell("-bash"));
    assert!(!is_shell("node"));
}

#[test]
fn known_tool_is_none_for_unrecognized() {
    assert!(known_tool(&argv(&["node", "randomthing.js"])).is_none());
    assert!(known_tool(&argv(&["./my-custom-binary"])).is_none());
}

// -------------------------------------------------------------------------- urls

#[test]
fn url_schemes_are_typed() {
    assert!(default_url("postgres", 5432).unwrap().scheme == UrlScheme::Postgres);
    assert!(default_url("next dev", 3000).unwrap().scheme == UrlScheme::Http);
    assert!(scheme_from_url("redis://localhost:6379") == UrlScheme::Redis);
    assert!(scheme_from_url("http://localhost:3000") == UrlScheme::Http);
}

#[test]
fn default_url_picks_the_right_scheme() {
    assert!(default_url("redis", 6379).unwrap().scheme == UrlScheme::Redis);
    assert!(default_url("mysql", 3306).unwrap().scheme == UrlScheme::Mysql);
    assert!(default_url("mongodb", 27017).unwrap().scheme == UrlScheme::Other);
    assert!(default_url("vite", 5173).unwrap().scheme == UrlScheme::Http);
}

// ------------------------------------------------------------------------- rules

#[test]
fn declared_group_matches_by_port_and_text() {
    let mut r = Resolver::empty();
    r.groups = vec![GroupRule {
        name: "client-portal".into(),
        selectors: vec![
            GroupSelector::Port(5432),
            GroupSelector::Text("worker".into()),
        ],
    }];
    // postgres on :5432 -> grouped under client-portal by port
    assert_eq!(
        r.group_name(&[5432], "somedb", "postgres").as_deref(),
        Some("client-portal")
    );
    // a "worker" command -> grouped by label text
    assert_eq!(
        r.group_name(&[], "anything", "worker").as_deref(),
        Some("client-portal")
    );
    // unrelated target -> no group
    assert_eq!(r.group_name(&[3000], "other", "next dev"), None);
}

#[test]
fn override_pins_project() {
    let mut r = Resolver::empty();
    r.overrides = vec![OverrideRule {
        port: Some(3000),
        cmd: None,
        project: Some("pinned".into()),
        label: None,
    }];
    let mut project = "orig".to_string();
    let mut label = "node".to_string();
    r.apply_override(Some(3000), "node server.js", &mut project, &mut label);
    assert_eq!(project, "pinned");
    assert_eq!(label, "node"); // untouched
    // non-matching port leaves it alone
    let mut p2 = "orig".to_string();
    r.apply_override(Some(9999), "node", &mut p2, &mut label);
    assert_eq!(p2, "orig");
}

#[test]
fn config_command_rule_overrides_builtin_label() {
    let mut r = Resolver::empty();
    r.cmd_rules = vec![CmdRule {
        re: Regex::new("my-special-server").unwrap(),
        label: "special".into(),
        url: Some("http://localhost:{port}/health".into()),
    }];
    let (label, url) = r.label_and_url(&[argv(&["node", "my-special-server.js"])], Some(8080));
    assert_eq!(label, "special");
    assert_eq!(url.unwrap().value, "http://localhost:8080/health");
}

#[test]
fn a_rule_that_does_not_match_leaves_the_builtin_label() {
    let mut r = Resolver::empty();
    r.cmd_rules = vec![CmdRule {
        re: Regex::new("^deno").unwrap(),
        label: "special".into(),
        url: None,
    }];
    let (label, url) = r.label_and_url(&[argv(&["node", "/x/.bin/vite"])], Some(5173));
    assert_eq!(label, "vite");
    assert_eq!(url.unwrap().value, "http://localhost:5173");
}

#[test]
fn watch_rules_come_before_the_builtin_watchers() {
    let mut r = Resolver::empty();
    r.watch_rules = vec![WatchRule { re: Regex::new("tsc.*--watch").unwrap(), label: "types".into() }];
    assert_eq!(
        r.watcher_label(&argv(&["node", "/x/.bin/tsc", "--watch"])).as_deref(),
        Some("types")
    );
    assert_eq!(r.watcher_label(&argv(&["node", "server.js"])), None);
}

#[test]
fn an_ignore_rule_needs_all_that_it_names() {
    let mut r = Resolver::empty();
    r.ignores = vec![
        IgnoreRule { port: Some(7000), cmd: None },
        IgnoreRule { port: Some(9000), cmd: Some(Regex::new("OrbStack").unwrap()) },
    ];
    assert!(r.is_ignored(&[7000], "anything"));
    assert!(r.is_ignored(&[9000], "OrbStack Helper"));
    assert!(!r.is_ignored(&[9000], "node"));
    assert!(!r.is_ignored(&[3000], "OrbStack Helper"));
}

#[test]
fn loading_compiles_rules_and_warns_of_bad_patterns() {
    let cfg = ConfigFile {
        rule: vec![
            RuleCfg { match_cmd: "next dev".into(), label: "next".into(), url: None },
            RuleCfg { match_cmd: "(".into(), label: "broken".into(), url: None },
        ],
        watch: vec![WatchCfg { match_cmd: "jest".into(), label: "tests".into() }],
        overrides: vec![OverrideCfg {
            match_port: Some(3000),
            match_cmd: None,
            project: Some("client-portal".into()),
            label: None,
        }],
        group: vec![GroupCfg {
            name: "client-portal".into(),
            members: vec![Member::Integer(5432), Member::Text("Worker".into()), Member::Other],
        }],
        ignore: vec![IgnoreCfg { match_port: Some(7000), match_cmd: None }],
    };
    let (r, warnings) = Resolver::load(cfg);
    assert_eq!(r.cmd_rules.len(), 1);
    assert_eq!(r.watch_rules.len(), 1);
    assert_eq!(r.overrides.len(), 1);
    assert_eq!(r.groups.len(), 1);
    assert_eq!(r.groups[0].selectors.len(), 2);
    assert_eq!(r.ignores.len(), 1);
    assert_eq!(warnings.len(), 1);
    assert!(warnings[0].contains("\"(\""), "the bad pattern is quoted: {}", warnings[0]);
    // members are matched in any case
    assert_eq!(r.group_name(&[], "x", "WORKER").as_deref(), Some("client-portal"));
    assert_eq!(r.label_and_url(&[argv(&["next dev"])], Some(1)).0, "next");
}

#[test]
fn a_rule_with_a_bad_pattern_is_left_out() {
    let pin = |match_cmd: Option<&str>| OverrideCfg {
        match_port: None,
        match_cmd: match_cmd.map(|s| s.to_string()),
        project: Some("pinned".into()),
        label: None,
    };
    let cfg = ConfigFile {
        overrides: vec![pin(Some("(")), pin(Some("vite"))],
        ignore: vec![
            IgnoreCfg { match_port: Some(7000), match_cmd: Some("[".into()) },
            IgnoreCfg { match_port: Some(8000), match_cmd: None },
        ],
        ..ConfigFile::default()
    };
    let (r, warnings) = Resolver::load(cfg);
    assert_eq!((r.overrides.len(), r.ignores.len(), warnings.len()), (1, 1, 2));
    let (mut project, mut label) = ("web".to_string(), "node".to_string());
    r.apply_override(Some(3000), "node server.js", &mut project, &mut label);
    assert_eq!(project, "web", "nothing is pinned by a rule that does not compile");
    r.apply_override(Some(3000), "node vite", &mut project, &mut label);
    assert_eq!(project, "pinned");
    assert!(!r.is_ignored(&[7000], "node") && r.is_ignored(&[8000], "node"));
}

#[test]
fn members_are_ports_or_text() {
    assert!(matches!(parse_member(&Member::Integer(3000)), Some(GroupSelector::Port(3000))));
    assert!(parse_member(&Member::Integer(70000)).is_none());
    assert!(parse_member(&Member::Integer(-1)).is_none());
    assert!(parse_member(&Member::Other).is_none());
    match parse_member(&Member::Text("ÄPI".into())) {
        Some(GroupSelector::Text(t)) => assert_eq!(t, "äpi"),
        other => panic!("{}", other.is_some()),
    }
}

// ------------------------------------------------------------------------ config

#[test]
fn the_config_lies_under_xdg_or_home() {
    assert_eq!(
        config::config_path(Some("/cfg"), Some("/home/me")).as_deref(),
        Some("/cfg/marina/config.toml")
    );
    assert_eq!(
        config::config_path(None, Some("/home/me")).as_deref(),
        Some("/home/me/.config/marina/config.toml")
    );
    assert_eq!(config::config_path(None, None), None);
}

#[test]
fn a_bad_config_is_ignored_with_a_warning() {
    let (cfg, warning) = config::load("/c.toml", Some(Err("oops".into())));
    assert!(cfg.rule.is_empty() && cfg.ignore.is_empty());
    assert_eq!(warning.as_deref(), Some("marina: ignoring /c.toml: oops"));
    let (cfg, warning) = config::load("/c.toml", None);
    assert!(cfg.rule.is_empty() && warning.is_none());
    let mut given = ConfigFile::default();
    given.watch.push(WatchCfg { match_cmd: "a".into(), label: "b".into() });
    let (cfg, warning) = config::load("/c.toml", Some(Ok(given)));
    assert!(cfg.watch.len() == 1 && warning.is_none());
}

// ---------------------------------------------------------------------- projects

#[test]
fn project_root_and_name_from_manifest() {
    // walks up from sub/ to the marker dir
    let existing = vec!["/tmp/marina-root/package.json".to_string()];
    assert_eq!(
        project_root("/tmp/marina-root/sub", &existing).as_deref(),
        Some("/tmp/marina-root")
    );
    let mut files = no_manifests();
    files.package_json = Some(r#"{"name":"acme"}"#.into());
    assert_eq!(project_name("/tmp/marina-root", &files), "acme");
}

#[test]
fn the_nearest_root_wins() {
    let existing = vec!["/repo/.git".to_string(), "/repo/apps/web/package.json".to_string()];
    assert_eq!(project_root("/repo/apps/web/src", &existing).as_deref(), Some("/repo/apps/web"));
    assert_eq!(project_root("/repo/docs", &existing).as_deref(), Some("/repo"));
    assert_eq!(project_root("/elsewhere", &existing), None);
    assert!(probe_paths("/repo/docs").contains(&"/repo/.git".to_string()));
}

#[test]
fn names_come_from_every_kind_of_manifest() {
    let mut files = no_manifests();
    assert_eq!(project_name("/srv/thing", &files), "thing");
    files.files = vec!["Web.sln".into(), "Web.Tests.csproj".into(), "Web.Api.csproj".into()];
    assert_eq!(project_name("/srv/thing", &files), "Web.Api");
    files.composer_json = Some(r#"{"name":"acme/site"}"#.into());
    assert_eq!(project_name("/srv/thing", &files), "acme/site");
    files.mix_exs = Some("  def project do\n    [\n      app: :shop,\n".into());
    assert_eq!(project_name("/srv/thing", &files), "shop");
    files.pom_xml = Some("<project><artifactId>orders</artifactId></project>".into());
    assert_eq!(project_name("/srv/thing", &files), "orders");
    files.gemspec = Some("Gem::Specification.new do |s|\n  s.name = 'gemma'\nend\n".into());
    assert_eq!(project_name("/srv/thing", &files), "gemma");
    files.go_mod = Some("module github.com/acme/tool\n\ngo 1.22\n".into());
    assert_eq!(project_name("/srv/thing", &files), "tool");
    files.pyproject_toml = Some("[tool.poetry]\nname = \"poet\"\n".into());
    assert_eq!(project_name("/srv/thing", &files), "poet");
    files.pyproject_toml = Some("[project]\nname = \"pep\"\n".into());
    assert_eq!(project_name("/srv/thing", &files), "pep");
    files.cargo_toml = Some("[package]\nname = \"crab\"\n".into());
    assert_eq!(project_name("/srv/thing", &files), "crab");
    files.package_json = Some("{not json".into());
    assert_eq!(project_name("/srv/thing", &files), "crab");
    files.package_json = Some(r#"{"name":"web","version":"1"}"#.into());
    assert_eq!(project_name("/srv/thing", &files), "web");
}

#[test]
fn manifests_without_a_parser_are_read_by_their_lines() {
    assert_eq!(gem_name("  spec.name          = \"acme\"\n").as_deref(), Some("acme"));
    assert_eq!(gem_name("# s.name = 'old'\ns.version = '1'\ns.name = 'new'").as_deref(), Some("new"));
    assert_eq!(gem_name("s.full_name = 'x'\nname = 'y'\ns.name = pick"), None);
    assert_eq!(mix_app("def project do\n  [app: :shop, version: \"1\"]").as_deref(), Some("shop"));
    assert_eq!(mix_app("  otp_app: :other,\n  app: 1,\n"), None);
    let pom = "<project>\n<parent>\n<artifactId>base</artifactId>\n</parent>\n\
               <artifactId> orders </artifactId>\n<dependencies><dependency>\
               <artifactId>junit</artifactId></dependency></dependencies></project>";
    assert_eq!(pom_artifact(pom).as_deref(), Some("orders"));
    assert_eq!(pom_artifact("<project/>"), None);
    let names = |list: &[&str]| -> Vec<String> { list.iter().map(|s| s.to_string()).collect() };
    assert_eq!(solution_name(&names(&["b.sln", "a.sln"])).as_deref(), Some("a"));
    assert_eq!(solution_name(&names(&["a.sln", "z.csproj"])).as_deref(), Some("z"));
    assert_eq!(solution_name(&names(&["readme.md"])), None);
    assert_eq!(gemspec_among(&names(&["x.rb", "b.gemspec", "a.gemspec"])).as_deref(), Some("a.gemspec"));
}

#[test]
fn project_files_mark_their_directory_by_their_ending() {
    for file in ["Api.csproj", "Shop.sln", "acme.gemspec"] {
        let existing = vec![format!("/src/shop/{file}"), "/src/.git".to_string()];
        assert_eq!(project_root("/src/shop/bin", &existing).as_deref(), Some("/src/shop"), "{file}");
        assert_eq!(project_root("/src/other", &existing).as_deref(), Some("/src"), "{file}");
        assert!(is_project_file(file));
    }
    assert!(!is_project_file("notes.md"));
    let elsewhere = vec!["/src/shop/notes.md".to_string()];
    assert_eq!(project_root("/src/shop", &elsewhere), None);
}

#[test]
fn branches_worktrees_and_detached_heads() {
    assert_eq!(git_branch("ref: refs/heads/feature/x\n").as_deref(), Some("feature/x"));
    assert_eq!(
        git_branch("0123456789abcdef0123456789abcdef01234567\n").as_deref(),
        Some("0123456")
    );
    assert_eq!(git_branch("nonsense"), None);
    assert_eq!(head_path("/repo", None).as_deref(), Some("/repo/.git/HEAD"));
    assert_eq!(
        head_path("/repo", Some("gitdir: /main/.git/worktrees/w\n")).as_deref(),
        Some("/main/.git/worktrees/w/HEAD")
    );
}
