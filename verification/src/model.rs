//! The data model: what one row of the cockpit is, and the immutable snapshot
//! that the sampler produces and the views read.
//!
//! Paths are held as text. CPU shares are held as whole numbers, in billionths
//! of a percent, so that sums and orders over them are exact.
use vstd::prelude::*;

use crate::text;

verus! {

/// One percent of a core, in the unit of `Target::cpu`.
pub const CPU_PERCENT: u64 = 1_000_000_000;

/// The text of an optional string.
pub open spec fn opt_text(o: Option<String>) -> Option<Seq<char>> {
    match o {
        Some(s) => Some(s@),
        None => None,
    }
}

/// A copy of an optional string.
pub fn clone_opt(o: &Option<String>) -> (r: Option<String>)
    ensures
        r == *o,
{
    match o {
        Some(s) => Some(s.clone()),
        None => None,
    }
}

/// A copy of a list of strings.
pub fn clone_strings(v: &Vec<String>) -> (r: Vec<String>)
    ensures
        r@ == v@,
{
    let mut out: Vec<String> = Vec::new();
    let mut i: usize = 0;
    while i < v.len()
        invariant
            i <= v@.len(),
            out@ == v@.take(i as int),
        decreases v@.len() - i,
    {
        out.push(v[i].clone());
        proof {
            assert(out@ =~= v@.take(i + 1));
        }
        i = i + 1;
    }
    proof {
        assert(v@.take(i as int) =~= v@);
    }
    out
}

/// A copy of a list of plain values.
pub fn clone_plain<T: Copy>(v: &Vec<T>) -> (r: Vec<T>)
    ensures
        r@ == v@,
{
    let mut out: Vec<T> = Vec::new();
    let mut i: usize = 0;
    while i < v.len()
        invariant
            i <= v@.len(),
            out@ == v@.take(i as int),
        decreases v@.len() - i,
    {
        out.push(v[i]);
        proof {
            assert(out@ =~= v@.take(i + 1));
        }
        i = i + 1;
    }
    proof {
        assert(v@.take(i as int) =~= v@);
    }
    out
}

// ------------------------------------------------------------------- identity

/// Stable identity used to follow the cursor selection across snapshots:
/// the port of a listener, or the command of a port-less watched target.
#[derive(Debug, PartialEq, Eq)]
pub enum TargetKey {
    Port(u16),
    Command { project: String, label: String, cwd: String },
}

/// A `TargetKey` as plain values.
pub enum KeyView {
    Port(u16),
    Command { project: Seq<char>, label: Seq<char>, cwd: Seq<char> },
}

impl View for TargetKey {
    type V = KeyView;

    open spec fn view(&self) -> KeyView {
        match self {
            TargetKey::Port(p) => KeyView::Port(*p),
            TargetKey::Command { project, label, cwd } => KeyView::Command {
                project: project@,
                label: label@,
                cwd: cwd@,
            },
        }
    }
}

impl Clone for TargetKey {
    fn clone(&self) -> (r: Self)
        ensures
            r == *self,
    {
        match self {
            TargetKey::Port(p) => TargetKey::Port(*p),
            TargetKey::Command { project, label, cwd } => TargetKey::Command {
                project: project.clone(),
                label: label.clone(),
                cwd: cwd.clone(),
            },
        }
    }
}

impl TargetKey {
    /// Whether two keys are the same identity.
    pub fn same(&self, other: &TargetKey) -> (r: bool)
        ensures
            r == (self@ == other@),
    {
        match (self, other) {
            (TargetKey::Port(a), TargetKey::Port(b)) => *a == *b,
            (
                TargetKey::Command { project: p, label: l, cwd: c },
                TargetKey::Command { project: q, label: m, cwd: d },
            ) => text::same(p.as_str(), q.as_str()) && text::same(l.as_str(), m.as_str())
                && text::same(c.as_str(), d.as_str()),
            _ => false,
        }
    }
}

/// The keys of a list, as plain values.
pub open spec fn key_views(v: Seq<TargetKey>) -> Seq<KeyView> {
    Seq::new(v.len(), |i: int| v[i]@)
}

#[derive(Clone, Copy, Debug, PartialEq, Eq, Structural)]
pub enum TargetKind {
    Listener,
    Watched,
}

/// The representative process of a target. `(pid, start_time)` is the
/// fingerprint that tells a recycled pid from the process that was seen.
#[derive(Clone, Copy, Debug, PartialEq, Eq, Structural)]
pub struct Anchor {
    pub pid: u32,
    pub start_time: u64,
}

// ------------------------------------------------------------------------ url

#[derive(Clone, Copy, Debug, PartialEq, Eq, Structural)]
pub enum UrlScheme {
    Http,
    Https,
    Postgres,
    Redis,
    Mysql,
    Other,
}

impl UrlScheme {
    /// "Open in browser" only applies to web schemes.
    pub fn is_web(self) -> (r: bool)
        ensures
            r == (self == UrlScheme::Http || self == UrlScheme::Https),
    {
        matches!(self, UrlScheme::Http | UrlScheme::Https)
    }
}

/// Typed URL: the verbs decide what "open" and "copy" mean per scheme.
#[derive(Debug)]
pub struct Url {
    pub scheme: UrlScheme,
    pub value: String,
}

/// A `Url` as plain values.
#[verifier::ext_equal]
pub struct UrlView {
    pub scheme: UrlScheme,
    pub value: Seq<char>,
}

impl View for Url {
    type V = UrlView;

    open spec fn view(&self) -> UrlView {
        UrlView { scheme: self.scheme, value: self.value@ }
    }
}

impl Clone for Url {
    fn clone(&self) -> (r: Self)
        ensures
            r == *self,
    {
        Url { scheme: self.scheme, value: self.value.clone() }
    }
}

/// An optional URL as plain values.
pub open spec fn opt_url(o: Option<Url>) -> Option<UrlView> {
    match o {
        Some(u) => Some(u@),
        None => None,
    }
}

/// A copy of an optional URL.
pub fn clone_url(o: &Option<Url>) -> (r: Option<Url>)
    ensures
        r == *o,
{
    match o {
        Some(u) => Some(u.clone()),
        None => None,
    }
}

// --------------------------------------------------------------------- target

/// One row of the cockpit: a developer workload that the verbs act on.
#[derive(Debug)]
pub struct Target {
    pub key: TargetKey,
    pub kind: TargetKind,
    /// Ascending, without duplicates; empty for a watched target.
    pub ports: Vec<u16>,
    pub anchor: Anchor,
    /// The anchor's command line, kept for `restart` and never displayed.
    pub anchor_argv: Vec<String>,
    /// `(pid, start_time)` of every process of the target: what a verb checks
    /// before it signals.
    pub pid_starts: Vec<(u32, u64)>,
    pub pids: Vec<u32>,
    pub project: String,
    pub command_label: String,
    pub cwd: String,
    pub git_branch: Option<String>,
    /// Smoothed CPU share of the whole target, in billionths of a percent.
    pub cpu: u64,
    pub mem_bytes: u64,
    pub url: Option<Url>,
    /// Bound to a non-loopback address: reachable from the LAN.
    pub exposed: bool,
    /// The container behind a published docker port.
    pub container: Option<String>,
}

/// A `Target` as plain values.
#[verifier::ext_equal]
pub struct TargetView {
    pub key: KeyView,
    pub kind: TargetKind,
    pub ports: Seq<u16>,
    pub anchor: Anchor,
    pub anchor_argv: Seq<Seq<char>>,
    pub pid_starts: Seq<(u32, u64)>,
    pub pids: Seq<u32>,
    pub project: Seq<char>,
    pub command_label: Seq<char>,
    pub cwd: Seq<char>,
    pub git_branch: Option<Seq<char>>,
    pub cpu: u64,
    pub mem_bytes: u64,
    pub url: Option<UrlView>,
    pub exposed: bool,
    pub container: Option<Seq<char>>,
}

impl View for Target {
    type V = TargetView;

    open spec fn view(&self) -> TargetView {
        TargetView {
            key: self.key@,
            kind: self.kind,
            ports: self.ports@,
            anchor: self.anchor,
            anchor_argv: text::texts(self.anchor_argv@),
            pid_starts: self.pid_starts@,
            pids: self.pids@,
            project: self.project@,
            command_label: self.command_label@,
            cwd: self.cwd@,
            git_branch: opt_text(self.git_branch),
            cpu: self.cpu,
            mem_bytes: self.mem_bytes,
            url: opt_url(self.url),
            exposed: self.exposed,
            container: opt_text(self.container),
        }
    }
}

impl Clone for Target {
    fn clone(&self) -> (r: Self)
        ensures
            r@ == self@,
    {
        let r = Target {
            key: self.key.clone(),
            kind: self.kind,
            ports: clone_plain(&self.ports),
            anchor: self.anchor,
            anchor_argv: clone_strings(&self.anchor_argv),
            pid_starts: clone_plain(&self.pid_starts),
            pids: clone_plain(&self.pids),
            project: self.project.clone(),
            command_label: self.command_label.clone(),
            cwd: self.cwd.clone(),
            git_branch: clone_opt(&self.git_branch),
            cpu: self.cpu,
            mem_bytes: self.mem_bytes,
            url: clone_url(&self.url),
            exposed: self.exposed,
            container: clone_opt(&self.container),
        };
        proof {
            assert(r@ =~= self@);
        }
        r
    }
}

/// The targets of a list, as plain values.
pub open spec fn target_views(v: Seq<Target>) -> Seq<TargetView> {
    Seq::new(v.len(), |i: int| v[i]@)
}

// ------------------------------------------------------------------- snapshot

/// Immutable, produced by the sampler, in a canonical order; the UI applies its
/// own presentation order.
#[derive(Debug)]
pub struct Snapshot {
    pub seq: u64,
    pub targets: Vec<Target>,
    /// Why the ports could not be scanned, when they could not.
    pub error: Option<String>,
}

/// `http://localhost:<port>`.
pub open spec fn local_http(port: u16) -> Seq<char> {
    "http://localhost:"@ + text::decimal(port as nat)
}

/// A demonstration target.
pub open spec fn demo_target(
    project: Seq<char>,
    label: Seq<char>,
    port: Option<u16>,
    cpu: u64,
    mem_mb: u64,
    url: Option<UrlView>,
    exposed: bool,
) -> TargetView {
    TargetView {
        key: match port {
            Some(p) => KeyView::Port(p),
            None => KeyView::Command { project, label, cwd: "/tmp"@ },
        },
        kind: if port is Some {
            TargetKind::Listener
        } else {
            TargetKind::Watched
        },
        ports: match port {
            Some(p) => seq![p],
            None => Seq::empty(),
        },
        anchor: Anchor { pid: 0, start_time: 0 },
        anchor_argv: Seq::empty(),
        pid_starts: Seq::empty(),
        pids: Seq::empty(),
        project,
        command_label: label,
        cwd: "/Users/dev/"@ + project,
        git_branch: Some("main"@),
        cpu,
        mem_bytes: (mem_mb * 1024 * 1024) as u64,
        url,
        exposed,
        container: None,
    }
}

/// The demonstration data of `Snapshot::sample`.
pub open spec fn demo_targets() -> Seq<TargetView> {
    let http = |p: u16| Some(UrlView { scheme: UrlScheme::Http, value: local_http(p) });
    seq![
        demo_target("client-portal"@, "next dev"@, Some(3000), 3_400_000_000, 340, http(3000), false),
        demo_target("billing-api"@, "uvicorn"@, Some(8000), 1_100_000_000, 96, http(8000), true),
        demo_target("worker"@, "celery"@, Some(5555), 400_000_000, 72, http(5555), false),
        demo_target(
            "client-portal"@,
            "postgres"@,
            Some(5432),
            200_000_000,
            410,
            Some(UrlView { scheme: UrlScheme::Postgres, value: "postgres://localhost:5432"@ }),
            false,
        ),
        demo_target("design-system"@, "tsc --watch"@, None, 800_000_000, 188, None, false),
    ]
}

fn demo(
    project: &str,
    label: &str,
    port: Option<u16>,
    cpu: u64,
    mem_mb: u64,
    url: Option<Url>,
    exposed: bool,
) -> (r: Target)
    requires
        mem_mb < 1_000_000,
    ensures
        r@ == demo_target(project@, label@, port, cpu, mem_mb, opt_url(url), exposed),
{
    let mut cwd = "/Users/dev/".to_owned();
    cwd.append(project);
    let mut ports: Vec<u16> = Vec::new();
    let key = match port {
        Some(p) => {
            ports.push(p);
            TargetKey::Port(p)
        },
        None => TargetKey::Command {
            project: project.to_owned(),
            label: label.to_owned(),
            cwd: "/tmp".to_owned(),
        },
    };
    let r = Target {
        key,
        kind: if port.is_some() {
            TargetKind::Listener
        } else {
            TargetKind::Watched
        },
        ports,
        anchor: Anchor { pid: 0, start_time: 0 },
        anchor_argv: Vec::new(),
        pid_starts: Vec::new(),
        pids: Vec::new(),
        project: project.to_owned(),
        command_label: label.to_owned(),
        cwd,
        git_branch: Some("main".to_owned()),
        cpu,
        mem_bytes: mem_mb * 1024 * 1024,
        url,
        exposed,
        container: None,
    };
    proof {
        assert(r@ =~= demo_target(project@, label@, port, cpu, mem_mb, opt_url(url), exposed));
    }
    r
}

fn http_url(port: u16) -> (r: Option<Url>)
    ensures
        opt_url(r) == Some(UrlView { scheme: UrlScheme::Http, value: local_http(port) }),
{
    let mut value = "http://localhost:".to_owned();
    value.append(text::to_decimal(port as u64).as_str());
    Some(Url { scheme: UrlScheme::Http, value })
}

impl Snapshot {
    /// Nothing sampled yet.
    pub fn empty() -> (r: Self)
        ensures
            r.seq == 0,
            r.targets@.len() == 0,
            r.error is None,
    {
        Snapshot { seq: 0, targets: Vec::new(), error: None }
    }

    /// Demonstration data: several ecosystems, one project with two targets, one
    /// port-less watcher, one LAN-exposed port.
    pub fn sample() -> (r: Self)
        ensures
            r.seq == 0,
            target_views(r.targets@) == demo_targets(),
            r.error is None,
    {
        let mut targets: Vec<Target> = Vec::new();
        targets.push(
            demo("client-portal", "next dev", Some(3000), 3_400_000_000, 340, http_url(3000), false),
        );
        targets.push(
            demo("billing-api", "uvicorn", Some(8000), 1_100_000_000, 96, http_url(8000), true),
        );
        targets.push(demo("worker", "celery", Some(5555), 400_000_000, 72, http_url(5555), false));
        let db = Url {
            scheme: UrlScheme::Postgres,
            value: "postgres://localhost:5432".to_owned(),
        };
        targets.push(
            demo("client-portal", "postgres", Some(5432), 200_000_000, 410, Some(db), false),
        );
        targets.push(demo("design-system", "tsc --watch", None, 800_000_000, 188, None, false));
        proof {
            assert(target_views(targets@) =~= demo_targets());
        }
        Snapshot { seq: 0, targets, error: None }
    }
}

} // verus!
