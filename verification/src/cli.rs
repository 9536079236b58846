//! The command line for scripts and agents: what an invocation means, which targets
//! its selectors choose, and what it prints.
//!
//! A selector chooses by project name (any part of it, in any case), by port (`3000`
//! or `:3000`), or by command label. Unknown commands and flags are errors: a typo
//! never launches the cockpit inside a script.
use vstd::prelude::*;

use crate::model::{
    clone_opt, clone_plain, clone_strings, opt_text, target_views, Snapshot, Target,
    TargetKind, TargetView,
};
use crate::paths;
use crate::patterns;
use crate::ports::has_port;
use crate::text;
use crate::ui::format::{cpu_text, fmt_cpu, NONE};
use crate::verbs::PidStart;

verus! {

pub const USAGE: &'static str = "\
marina — developer-process cockpit

USAGE:
    marina                       launch the TUI
    marina ls [sel]... [--json]  list running dev targets
    marina kill <sel>... [--json] stop matching targets (SIGTERM -> SIGKILL)
    marina restart <sel>...      restart matching targets (output captured)
    marina url <sel>... [--json] print matching targets' URLs
    marina version               print the version

SELECTOR:
    a project name (exact or substring), a port (3000 or :3000), or a command.
";

// ----------------------------------------------------------------- invocations

/// What the arguments ask for.
#[derive(Debug)]
pub enum Invocation {
    Ls { json: bool, selectors: Vec<String> },
    Kill { json: bool, selectors: Vec<String> },
    Restart { selectors: Vec<String> },
    Url { json: bool, selectors: Vec<String> },
    Version,
    Help,
    BadFlag(String),
    BadCommand(String),
}

#[verifier::ext_equal]
pub enum InvocationView {
    Ls { json: bool, selectors: Seq<Seq<char>> },
    Kill { json: bool, selectors: Seq<Seq<char>> },
    Restart { selectors: Seq<Seq<char>> },
    Url { json: bool, selectors: Seq<Seq<char>> },
    Version,
    Help,
    BadFlag(Seq<char>),
    BadCommand(Seq<char>),
}

impl View for Invocation {
    type V = InvocationView;

    open spec fn view(&self) -> InvocationView {
        match self {
            Invocation::Ls { json, selectors } => InvocationView::Ls {
                json: *json,
                selectors: text::texts(selectors@),
            },
            Invocation::Kill { json, selectors } => InvocationView::Kill {
                json: *json,
                selectors: text::texts(selectors@),
            },
            Invocation::Restart { selectors } => InvocationView::Restart {
                selectors: text::texts(selectors@),
            },
            Invocation::Url { json, selectors } => InvocationView::Url {
                json: *json,
                selectors: text::texts(selectors@),
            },
            Invocation::Version => InvocationView::Version,
            Invocation::Help => InvocationView::Help,
            Invocation::BadFlag(f) => InvocationView::BadFlag(f@),
            Invocation::BadCommand(c) => InvocationView::BadCommand(c@),
        }
    }
}

/// An argument that starts with a dash.
pub open spec fn is_flag(a: Seq<char>) -> bool {
    "-"@.is_prefix_of(a)
}

/// The arguments that are no flags.
pub open spec fn selectors_in(args: Seq<Seq<char>>) -> Seq<Seq<char>>
    decreases args.len(),
{
    if args.len() == 0 {
        args
    } else {
        let before = selectors_in(args.drop_last());
        if is_flag(args.last()) {
            before
        } else {
            before.push(args.last())
        }
    }
}

/// The first flag that is not `--json`.
pub open spec fn bad_flag_in(args: Seq<Seq<char>>) -> Option<Seq<char>>
    decreases args.len(),
{
    if args.len() == 0 {
        None
    } else {
        match bad_flag_in(args.drop_last()) {
            Some(f) => Some(f),
            None => if is_flag(args.last()) && args.last() != "--json"@ {
                Some(args.last())
            } else {
                None
            },
        }
    }
}

/// What a command means with these selectors.
pub open spec fn command_means(cmd: Seq<char>, json: bool, selectors: Seq<Seq<char>>) -> InvocationView {
    if cmd == "ls"@ {
        InvocationView::Ls { json, selectors }
    } else if cmd == "kill"@ {
        InvocationView::Kill { json, selectors }
    } else if cmd == "restart"@ {
        InvocationView::Restart { selectors }
    } else if cmd == "url"@ {
        InvocationView::Url { json, selectors }
    } else if cmd == "version"@ || cmd == "--version"@ || cmd == "-V"@ {
        InvocationView::Version
    } else if cmd == "help"@ || cmd == "--help"@ || cmd == "-h"@ {
        InvocationView::Help
    } else {
        InvocationView::BadCommand(cmd)
    }
}

/// What the arguments mean; nothing where there are none.
pub open spec fn understood(args: Seq<Seq<char>>) -> Option<InvocationView> {
    if args.len() == 0 {
        None
    } else {
        let rest = args.drop_first();
        match bad_flag_in(rest) {
            Some(f) => Some(InvocationView::BadFlag(f)),
            None => Some(
                command_means(args[0], rest.contains("--json"@), selectors_in(rest)),
            ),
        }
    }
}

fn meaning(cmd: &str, json: bool, selectors: Vec<String>) -> (r: Invocation)
    ensures
        r@ == command_means(cmd@, json, text::texts(selectors@)),
{
    if text::same(cmd, "ls") {
        Invocation::Ls { json, selectors }
    } else if text::same(cmd, "kill") {
        Invocation::Kill { json, selectors }
    } else if text::same(cmd, "restart") {
        Invocation::Restart { selectors }
    } else if text::same(cmd, "url") {
        Invocation::Url { json, selectors }
    } else if text::same(cmd, "version") || text::same(cmd, "--version") || text::same(cmd, "-V") {
        Invocation::Version
    } else if text::same(cmd, "help") || text::same(cmd, "--help") || text::same(cmd, "-h") {
        Invocation::Help
    } else {
        Invocation::BadCommand(cmd.to_owned())
    }
}

proof fn lemma_bad_flag_stays(args: Seq<Seq<char>>, k: int)
    requires
        0 <= k <= args.len(),
        bad_flag_in(args.take(k)) is Some,
    ensures
        bad_flag_in(args) == bad_flag_in(args.take(k)),
    decreases args.len(),
{
    if k == args.len() {
        assert(args.take(k) =~= args);
    } else {
        assert(args.drop_last().take(k) =~= args.take(k));
        lemma_bad_flag_stays(args.drop_last(), k);
    }
}

/// Understand the arguments. `None` only where there are none: then the cockpit is
/// launched.
pub fn dispatch(args: &[String]) -> (r: Option<Invocation>)
    ensures
        match r {
            Some(i) => understood(text::texts(args@)) == Some(i@),
            None => understood(text::texts(args@)) is None,
        },
{
    if args.len() == 0 {
        return None;
    }
    let ghost all = text::texts(args@);
    let ghost rest = all.drop_first();
    let mut selectors: Vec<String> = Vec::new();
    let mut json = false;
    let mut i: usize = 1;
    proof {
        assert(text::texts(selectors@) =~= selectors_in(rest.take(0)));
    }
    while i < args.len()
        invariant
            1 <= i <= args@.len(),
            all == text::texts(args@),
            rest == all.drop_first(),
            text::texts(selectors@) == selectors_in(rest.take(i - 1)),
            bad_flag_in(rest.take(i - 1)) is None,
            json == exists|j: int| 0 <= j < i - 1 && #[trigger] rest[j] == "--json"@,
        decreases args@.len() - i,
    {
        let a = &args[i];
        let ghost before = selectors@;
        proof {
            assert(rest[i - 1] == a@);
            assert(rest.take(i as int).drop_last() =~= rest.take(i - 1));
            assert(rest.take(i as int).last() == a@);
        }
        if text::starts_with(a.as_str(), "-") {
            if text::same(a.as_str(), "--json") {
                json = true;
            } else {
                proof {
                    lemma_bad_flag_stays(rest, i as int);
                }
                return Some(Invocation::BadFlag(a.clone()));
            }
        } else {
            proof {
                if a@ == "--json"@ {
                    reveal_strlit("--json");
                    reveal_strlit("-");
                    assert("-"@.is_prefix_of(a@));
                }
            }
            selectors.push(a.clone());
            proof {
                assert(text::texts(selectors@) =~= text::texts(before).push(a@));
            }
        }
        i = i + 1;
    }
    proof {
        assert(rest.take(i - 1) =~= rest);
        assert(json == rest.contains("--json"@));
        assert(all[0] == args@[0]@);
    }
    Some(meaning(args[0].as_str(), json, selectors))
}

/// The cockpit is launched by a bare invocation and by no other.
pub proof fn only_a_bare_invocation_launches(args: Seq<Seq<char>>)
    ensures
        understood(args) is None <==> args.len() == 0,
{
}

/// What an invocation prints, and its exit code: 0 for success, 1 for no match, 2 for
/// a usage error.
#[derive(Debug)]
pub struct Output {
    pub out: String,
    pub err: String,
    pub code: i32,
}

#[verifier::ext_equal]
pub struct OutputView {
    pub out: Seq<char>,
    pub err: Seq<char>,
    pub code: i32,
}

impl View for Output {
    type V = OutputView;

    open spec fn view(&self) -> OutputView {
        OutputView { out: self.out@, err: self.err@, code: self.code }
    }
}

/// A usage error.
pub open spec fn usage_error(err: Seq<char>) -> OutputView {
    OutputView { out: Seq::empty(), err, code: 2 }
}

/// What an invocation prints that needs no snapshot.
pub open spec fn immediate(i: InvocationView, version: Seq<char>) -> Option<OutputView> {
    match i {
        InvocationView::Version => Some(
            OutputView { out: "marina "@ + version + "\n"@, err: Seq::empty(), code: 0 },
        ),
        InvocationView::Help => Some(OutputView { out: USAGE@, err: Seq::empty(), code: 0 }),
        InvocationView::BadFlag(f) => Some(
            usage_error("marina: unknown flag "@ + patterns::quoted(f) + "\n\n"@ + USAGE@),
        ),
        InvocationView::BadCommand(c) => Some(
            usage_error("marina: unknown command "@ + patterns::quoted(c) + "\n\n"@ + USAGE@),
        ),
        InvocationView::Kill { json, selectors } => if selectors.len() == 0 {
            Some(usage_error("kill: need a selector (project, port, or command)\n"@))
        } else {
            None
        },
        InvocationView::Restart { selectors } => if selectors.len() == 0 {
            Some(usage_error("restart: need a selector\n"@))
        } else {
            None
        },
        _ => None,
    }
}

fn failure(err: String, code: i32) -> (r: Output)
    ensures
        r@ == (OutputView { out: Seq::empty(), err: err@, code }),
{
    let r = Output { out: String::new(), err, code };
    assert(r.out@ =~= Seq::<char>::empty());
    r
}

fn success(out: String) -> (r: Output)
    ensures
        r@ == (OutputView { out: out@, err: Seq::empty(), code: 0 }),
{
    let r = Output { out, err: String::new(), code: 0 };
    assert(r.err@ =~= Seq::<char>::empty());
    r
}

fn unknown(kind: &str, what: &str) -> (r: Output)
    ensures
        r@ == usage_error(kind@ + patterns::quoted(what@) + "\n\n"@ + USAGE@),
{
    let mut err = kind.to_owned();
    let q = patterns::quote(what);
    err.append(q.as_str());
    err.append("\n\n");
    err.append(USAGE);
    failure(err, 2)
}

impl Invocation {
    /// What to print and the exit code, where the arguments alone decide it.
    pub fn settled(&self, version: &str) -> (r: Option<Output>)
        ensures
            match r {
                Some(o) => immediate(self@, version@) == Some(o@),
                None => immediate(self@, version@) is None,
            },
    {
        match self {
            Invocation::Version => {
                let mut out = "marina ".to_owned();
                out.append(version);
                out.append("\n");
                Some(success(out))
            },
            Invocation::Help => Some(success(USAGE.to_owned())),
            Invocation::BadFlag(f) => Some(unknown("marina: unknown flag ", f.as_str())),
            Invocation::BadCommand(c) => Some(unknown("marina: unknown command ", c.as_str())),
            Invocation::Kill { json, selectors } => if selectors.len() == 0 {
                Some(
                    failure("kill: need a selector (project, port, or command)\n".to_owned(), 2),
                )
            } else {
                None
            },
            Invocation::Restart { selectors } => if selectors.len() == 0 {
                Some(failure("restart: need a selector\n".to_owned(), 2))
            } else {
                None
            },
            _ => None,
        }
    }
}

// ------------------------------------------------------------------- selection

/// A selector spells a port of the target.
pub open spec fn spells_port(t: TargetView, sel: Seq<char>) -> bool {
    match text::port_number(text::without_leading(sel, ':')) {
        Some(p) => t.ports.contains(p),
        None => false,
    }
}

/// A selector chooses a target: by a port, by a part of its project or of its label.
pub open spec fn chooses(t: TargetView, sel: Seq<char>) -> bool {
    ||| spells_port(t, sel)
    ||| text::occurs(text::lowercase(sel), text::lowercase(t.project))
    ||| text::occurs(text::lowercase(sel), text::lowercase(t.command_label))
}

/// Some selector chooses the target.
pub open spec fn any_chooses(t: TargetView, selectors: Seq<Seq<char>>) -> bool {
    exists|i: int| 0 <= i < selectors.len() && chooses(t, #[trigger] selectors[i])
}

/// The targets that the selectors choose, in their order.
pub open spec fn chosen(targets: Seq<TargetView>, selectors: Seq<Seq<char>>) -> Seq<TargetView>
    decreases targets.len(),
{
    if targets.len() == 0 {
        targets
    } else {
        let before = chosen(targets.drop_last(), selectors);
        if any_chooses(targets.last(), selectors) {
            before.push(targets.last())
        } else {
            before
        }
    }
}

/// Whether a selector chooses a target, given the lowercase forms of the selector, of
/// the project and of the label.
pub fn fits(t: &Target, sel: &str, low_sel: &str, low_project: &str, low_label: &str) -> (r: bool)
    ensures
        r == (spells_port(t@, sel@) || text::occurs(low_sel@, low_project@) || text::occurs(
            low_sel@,
            low_label@,
        )),
{
    let bare = text::trim_start_matches(sel, ':');
    match text::parse_u16(bare) {
        Some(p) => {
            if has_port(t.ports.as_slice(), p) {
                return true;
            }
        },
        None => {},
    }
    text::contains(low_project, low_sel) || text::contains(low_label, low_sel)
}

/// Whether a selector chooses a target.
pub fn matches(t: &Target, sel: &str) -> (r: bool)
    ensures
        r == chooses(t@, sel@),
{
    let low_sel = text::to_lowercase(sel);
    let low_project = text::to_lowercase(t.project.as_str());
    let low_label = text::to_lowercase(t.command_label.as_str());
    fits(t, sel, low_sel.as_str(), low_project.as_str(), low_label.as_str())
}

/// The views of borrowed targets.
pub open spec fn ref_views(v: Seq<&Target>) -> Seq<TargetView> {
    Seq::new(v.len(), |i: int| v[i]@)
}

/// The targets of a snapshot that any of the selectors chooses.
pub fn select<'a>(snap: &'a Snapshot, selectors: &[String]) -> (r: Vec<&'a Target>)
    ensures
        ref_views(r@) == chosen(target_views(snap.targets@), text::texts(selectors@)),
{
    let ghost all = target_views(snap.targets@);
    let ghost sels = text::texts(selectors@);
    let mut out: Vec<&'a Target> = Vec::new();
    let mut i: usize = 0;
    proof {
        assert(ref_views(out@) =~= chosen(all.take(0), sels));
    }
    while i < snap.targets.len()
        invariant
            i <= snap.targets@.len(),
            all == target_views(snap.targets@),
            sels == text::texts(selectors@),
            ref_views(out@) == chosen(all.take(i as int), sels),
        decreases snap.targets@.len() - i,
    {
        let t = &snap.targets[i];
        proof {
            assert(all.take(i + 1).drop_last() =~= all.take(i as int));
            assert(all.take(i + 1).last() == t@);
        }
        let mut hit = false;
        let mut k: usize = 0;
        while k < selectors.len() && !hit
            invariant
                k <= selectors@.len(),
                sels == text::texts(selectors@),
                hit ==> any_chooses(t@, sels),
                !hit ==> forall|j: int| 0 <= j < k ==> !chooses(t@, #[trigger] sels[j]),
            decreases selectors@.len() - k,
        {
            assert(sels[k as int] == selectors@[k as int]@);
            if matches(t, selectors[k].as_str()) {
                hit = true;
            }
            k = k + 1;
        }
        let ghost before = out@;
        if hit {
            out.push(t);
            proof {
                assert(ref_views(out@) =~= ref_views(before).push(t@));
            }
        }
        i = i + 1;
    }
    proof {
        assert(all.take(i as int) =~= all);
    }
    out
}

/// A selector that is a project's name chooses every target of the project.
pub proof fn project_selects_all_of_it(targets: Seq<TargetView>, project: Seq<char>, i: int)
    requires
        0 <= i < targets.len(),
        targets[i].project == project,
    ensures
        chosen(targets, seq![project]).contains(targets[i]),
    decreases targets.len(),
{
    let sels = seq![project];
    let t = targets[i];
    let low = text::lowercase(project);
    assert(low.subrange(0, low.len() as int) =~= low);
    assert(text::stands_at(low, low, 0));
    assert(chooses(t, sels[0]));
    assert(any_chooses(t, sels));
    let before = chosen(targets.drop_last(), sels);
    if i == targets.len() - 1 {
        assert(chosen(targets, sels)[before.len() as int] == t);
    } else {
        project_selects_all_of_it(targets.drop_last(), project, i);
        let k = choose|k: int| 0 <= k < before.len() && before[k] == t;
        assert(chosen(targets, sels)[k] == t);
    }
}

/// A list of quoted texts in brackets.
pub open spec fn quoted_list(v: Seq<Seq<char>>) -> Seq<char> {
    "["@ + text::joined(v.map_values(|s: Seq<char>| patterns::quoted(s)), ", "@) + "]"@
}

fn quote_list(v: &[String]) -> (r: String)
    ensures
        r@ == quoted_list(text::texts(v@)),
{
    let ghost all = text::texts(v@).map_values(|s: Seq<char>| patterns::quoted(s));
    let mut parts: Vec<String> = Vec::new();
    let mut i: usize = 0;
    while i < v.len()
        invariant
            i <= v@.len(),
            all == text::texts(v@).map_values(|s: Seq<char>| patterns::quoted(s)),
            text::texts(parts@) == all.take(i as int),
        decreases v@.len() - i,
    {
        let ghost before = parts@;
        let q = patterns::quote(v[i].as_str());
        parts.push(q);
        proof {
            assert(text::texts(parts@) =~= text::texts(before).push(q@));
            assert(text::texts(parts@) =~= all.take(i + 1));
        }
        i = i + 1;
    }
    proof {
        assert(all.take(i as int) =~= all);
    }
    let body = text::join(parts.as_slice(), ", ");
    let mut out = "[".to_owned();
    out.append(body.as_str());
    out.append("]");
    out
}

/// The answer to selectors that choose nothing.
pub open spec fn no_match(selectors: Seq<Seq<char>>) -> OutputView {
    OutputView {
        out: Seq::empty(),
        err: "no targets match "@ + quoted_list(selectors) + "\n"@,
        code: 1,
    }
}

fn nothing_matches(selectors: &[String]) -> (r: Output)
    ensures
        r@ == no_match(text::texts(selectors@)),
{
    let list = quote_list(selectors);
    let mut err = "no targets match ".to_owned();
    err.append(list.as_str());
    err.append("\n");
    failure(err, 1)
}

// -------------------------------------------------------------------------- ls

/// The first port of a target with its colon; a mark where the LAN reaches it; a dash
/// where there is no port.
pub open spec fn port_cell(t: TargetView) -> Seq<char> {
    if t.ports.len() == 0 {
        NONE@
    } else if t.exposed {
        ":"@ + text::decimal(t.ports[0] as nat) + "!"@
    } else {
        ":"@ + text::decimal(t.ports[0] as nat)
    }
}

/// The first port of a target as a cell.
pub fn port_text(t: &Target) -> (r: String)
    ensures
        r@ == port_cell(t@),
{
    if t.ports.len() == 0 {
        return NONE.to_owned();
    }
    let digits = text::to_decimal(t.ports[0] as u64);
    let mut s = ":".to_owned();
    s.append(digits.as_str());
    if t.exposed {
        s.append("!");
    }
    s
}

/// One line of the table, from its six cells.
pub open spec fn table_line(
    project: Seq<char>,
    command: Seq<char>,
    port: Seq<char>,
    cpu: Seq<char>,
    mem: Seq<char>,
    url: Seq<char>,
) -> Seq<char> {
    text::padded_right(project, 20) + " "@ + text::padded_right(command, 16) + " "@
        + text::padded_right(port, 8) + " "@ + text::padded_left(cpu, 6) + " "@ + text::padded_left(
        mem,
        8,
    ) + " "@ + text::padded_right(url, 14) + "\n"@
}

fn line(project: &str, command: &str, port: &str, cpu: &str, mem: &str, url: &str) -> (r: String)
    ensures
        r@ == table_line(project@, command@, port@, cpu@, mem@, url@),
{
    let c1 = text::pad_right(project, 20);
    let c2 = text::pad_right(command, 16);
    let c3 = text::pad_right(port, 8);
    let c4 = text::pad_left(cpu, 6);
    let c5 = text::pad_left(mem, 8);
    let c6 = text::pad_right(url, 14);
    let mut s = c1;
    s.append(" ");
    s.append(c2.as_str());
    s.append(" ");
    s.append(c3.as_str());
    s.append(" ");
    s.append(c4.as_str());
    s.append(" ");
    s.append(c5.as_str());
    s.append(" ");
    s.append(c6.as_str());
    s.append("\n");
    s
}

/// The URL of a target, or nothing.
pub open spec fn url_cell(t: TargetView) -> Seq<char> {
    match t.url {
        Some(u) => u.value,
        None => ""@,
    }
}

/// The line of a target. What cannot be measured shows a dash.
pub open spec fn target_line(t: TargetView) -> Seq<char> {
    if t.pids.len() == 0 {
        table_line(t.project, t.command_label, port_cell(t), NONE@, NONE@, url_cell(t))
    } else {
        table_line(
            t.project,
            t.command_label,
            port_cell(t),
            cpu_text(t.cpu as nat),
            text::decimal(t.mem_bytes as nat / 1_048_576) + "MB"@,
            url_cell(t),
        )
    }
}

fn line_of(t: &Target) -> (r: String)
    ensures
        r@ == target_line(t@),
{
    let port = port_text(t);
    let url = match &t.url {
        Some(u) => u.value.as_str(),
        None => "",
    };
    if t.pids.len() == 0 {
        line(t.project.as_str(), t.command_label.as_str(), port.as_str(), NONE, NONE, url)
    } else {
        let cpu = fmt_cpu(t.cpu);
        let mut mem = text::to_decimal(t.mem_bytes / 1_048_576);
        mem.append("MB");
        line(
            t.project.as_str(),
            t.command_label.as_str(),
            port.as_str(),
            cpu.as_str(),
            mem.as_str(),
            url,
        )
    }
}

/// The lines of some targets, one after another.
pub open spec fn table_body(targets: Seq<TargetView>) -> Seq<char>
    decreases targets.len(),
{
    if targets.len() == 0 {
        Seq::empty()
    } else {
        table_body(targets.drop_last()) + target_line(targets.last())
    }
}

/// The heading of the table.
pub open spec fn table_head() -> Seq<char> {
    table_line("PROJECT"@, "COMMAND"@, "PORT"@, "CPU"@, "MEM"@, "URL"@)
}

/// The targets that `ls` lists: all of them without selectors.
pub open spec fn ls_targets(targets: Seq<TargetView>, selectors: Seq<Seq<char>>) -> Seq<TargetView> {
    if selectors.len() == 0 {
        targets
    } else {
        chosen(targets, selectors)
    }
}

/// What `ls` prints.
pub open spec fn ls_output(targets: Seq<TargetView>, selectors: Seq<Seq<char>>) -> OutputView {
    let listed = ls_targets(targets, selectors);
    if listed.len() == 0 {
        OutputView {
            out: "no dev targets running\n"@,
            err: Seq::empty(),
            code: if selectors.len() == 0 {
                0
            } else {
                1
            },
        }
    } else {
        OutputView { out: table_head() + table_body(listed), err: Seq::empty(), code: 0 }
    }
}

fn listed<'a>(snap: &'a Snapshot, selectors: &[String]) -> (r: Vec<&'a Target>)
    ensures
        ref_views(r@) == ls_targets(target_views(snap.targets@), text::texts(selectors@)),
{
    if selectors.len() > 0 {
        return select(snap, selectors);
    }
    let ghost all = target_views(snap.targets@);
    let mut out: Vec<&'a Target> = Vec::new();
    let mut i: usize = 0;
    while i < snap.targets.len()
        invariant
            i <= snap.targets@.len(),
            all == target_views(snap.targets@),
            ref_views(out@) == all.take(i as int),
        decreases snap.targets@.len() - i,
    {
        let ghost before = out@;
        let t = &snap.targets[i];
        out.push(t);
        proof {
            assert(ref_views(out@) =~= ref_views(before).push(t@));
            assert(ref_views(out@) =~= all.take(i + 1));
        }
        i = i + 1;
    }
    proof {
        assert(all.take(i as int) =~= all);
    }
    out
}

/// The table of targets that `ls` prints.
pub fn ls(snap: &Snapshot, selectors: &[String]) -> (r: Output)
    ensures
        r@ == ls_output(target_views(snap.targets@), text::texts(selectors@)),
{
    let targets = listed(snap, selectors);
    let ghost all = ref_views(targets@);
    if targets.len() == 0 {
        let mut r = success("no dev targets running\n".to_owned());
        if selectors.len() > 0 {
            r.code = 1;
        }
        return r;
    }
    let mut body = String::new();
    let mut i: usize = 0;
    proof {
        assert(body@ =~= table_body(all.take(0)));
    }
    while i < targets.len()
        invariant
            i <= targets@.len(),
            all == ref_views(targets@),
            body@ == table_body(all.take(i as int)),
        decreases targets@.len() - i,
    {
        proof {
            assert(all.take(i + 1).drop_last() =~= all.take(i as int));
            assert(all.take(i + 1).last() == targets@[i as int]@);
        }
        let l = line_of(targets[i]);
        body.append(l.as_str());
        i = i + 1;
    }
    proof {
        assert(all.take(i as int) =~= all);
    }
    let mut out = line("PROJECT", "COMMAND", "PORT", "CPU", "MEM", "URL");
    out.append(body.as_str());
    success(out)
}

// ------------------------------------------------------------------------ dump

/// The line of a target in a dump.
pub open spec fn dump_line(t: TargetView) -> Seq<char> {
    "  "@ + text::padded_right(t.project, 22) + " "@ + text::padded_right(t.command_label, 18)
        + " "@ + text::padded_right(port_cell(t), 8) + " "@ + text::padded_left(
        cpu_text(t.cpu as nat),
        7,
    ) + "  "@ + text::padded_left(text::decimal((t.mem_bytes / 1_048_576) as nat), 6) + "MB  pids="@
        + text::decimal(t.pids.len()) + " anchor="@ + text::decimal(t.anchor.pid as nat) + " cwd="@
        + t.cwd + " "@ + match t.url {
        Some(u) => u.value,
        None => ""@,
    } + "\n"@
}

fn dumped(t: &Target) -> (r: String)
    ensures
        r@ == dump_line(t@),
{
    let port = port_text(t);
    let cpu = fmt_cpu(t.cpu);
    let mb = text::to_decimal(t.mem_bytes / 1_048_576);
    let pids = text::to_decimal(t.pids.len() as u64);
    let pid = text::to_decimal(t.anchor.pid as u64);
    let c1 = text::pad_right(t.project.as_str(), 22);
    let c2 = text::pad_right(t.command_label.as_str(), 18);
    let c3 = text::pad_right(port.as_str(), 8);
    let c4 = text::pad_left(cpu.as_str(), 7);
    let c5 = text::pad_left(mb.as_str(), 6);
    let mut s = "  ".to_owned();
    s.append(c1.as_str());
    s.append(" ");
    s.append(c2.as_str());
    s.append(" ");
    s.append(c3.as_str());
    s.append(" ");
    s.append(c4.as_str());
    s.append("  ");
    s.append(c5.as_str());
    s.append("MB  pids=");
    s.append(pids.as_str());
    s.append(" anchor=");
    s.append(pid.as_str());
    s.append(" cwd=");
    s.append(t.cwd.as_str());
    s.append(" ");
    match &t.url {
        Some(u) => {
            s.append(u.value.as_str());
        },
        None => {
            s.append("");
        },
    }
    s.append("\n");
    s
}

/// The lines of some targets in a dump.
pub open spec fn dump_body(targets: Seq<TargetView>) -> Seq<char>
    decreases targets.len(),
{
    if targets.len() == 0 {
        Seq::empty()
    } else {
        dump_body(targets.drop_last()) + dump_line(targets.last())
    }
}

/// A whole dump: how many targets, what went wrong, and a line for each target.
pub open spec fn dump_text(seq: u64, error: Option<Seq<char>>, targets: Seq<TargetView>) -> Seq<char> {
    "snapshot seq="@ + text::decimal(seq as nat) + " — "@ + text::decimal(targets.len())
        + " targets\n"@ + match error {
        Some(e) => "  ⚠ "@ + e + "\n"@,
        None => ""@,
    } + dump_body(targets)
}

/// A snapshot as plain lines, to look at the data without a terminal.
pub fn dump(snap: &Snapshot) -> (r: String)
    ensures
        r@ == dump_text(snap.seq, opt_text(snap.error), target_views(snap.targets@)),
{
    let ghost all = target_views(snap.targets@);
    let seq = text::to_decimal(snap.seq);
    let n = text::to_decimal(snap.targets.len() as u64);
    let mut head = "snapshot seq=".to_owned();
    head.append(seq.as_str());
    head.append(" — ");
    head.append(n.as_str());
    head.append(" targets\n");
    let error = match &snap.error {
        Some(e) => {
            let mut s = "  ⚠ ".to_owned();
            s.append(e.as_str());
            s.append("\n");
            s
        },
        None => "".to_owned(),
    };
    head.append(error.as_str());
    let mut body = String::new();
    let mut i: usize = 0;
    proof {
        assert(body@ =~= dump_body(all.take(0)));
    }
    while i < snap.targets.len()
        invariant
            i <= snap.targets@.len(),
            all == target_views(snap.targets@),
            body@ == dump_body(all.take(i as int)),
        decreases snap.targets@.len() - i,
    {
        proof {
            assert(all.take(i + 1).drop_last() =~= all.take(i as int));
            assert(all.take(i + 1).last() == snap.targets@[i as int]@);
        }
        let l = dumped(&snap.targets[i]);
        body.append(l.as_str());
        i = i + 1;
    }
    proof {
        assert(all.take(i as int) =~= all);
    }
    head.append(body.as_str());
    head
}

// ------------------------------------------------------------------------ json

/// A target as scripts and agents see it. The command line is not in it.
#[derive(Debug)]
pub struct TargetJson {
    pub project: String,
    pub command: String,
    pub kind: &'static str,
    pub ports: Vec<u16>,
    pub url: Option<String>,
    /// In billionths of a percent; nothing where it cannot be measured.
    pub cpu: Option<u64>,
    pub mem_bytes: Option<u64>,
    pub uptime_secs: Option<u64>,
    pub pids: Vec<u32>,
    pub anchor_pid: u32,
    pub cwd: String,
    pub branch: Option<String>,
    pub exposed: bool,
    pub container: Option<String>,
}

#[verifier::ext_equal]
pub struct TargetJsonView {
    pub project: Seq<char>,
    pub command: Seq<char>,
    pub kind: Seq<char>,
    pub ports: Seq<u16>,
    pub url: Option<Seq<char>>,
    pub cpu: Option<u64>,
    pub mem_bytes: Option<u64>,
    pub uptime_secs: Option<u64>,
    pub pids: Seq<u32>,
    pub anchor_pid: u32,
    pub cwd: Seq<char>,
    pub branch: Option<Seq<char>>,
    pub exposed: bool,
    pub container: Option<Seq<char>>,
}

impl View for TargetJson {
    type V = TargetJsonView;

    open spec fn view(&self) -> TargetJsonView {
        TargetJsonView {
            project: self.project@,
            command: self.command@,
            kind: self.kind@,
            ports: self.ports@,
            url: opt_text(self.url),
            cpu: self.cpu,
            mem_bytes: self.mem_bytes,
            uptime_secs: self.uptime_secs,
            pids: self.pids@,
            anchor_pid: self.anchor_pid,
            cwd: self.cwd@,
            branch: opt_text(self.branch),
            exposed: self.exposed,
            container: opt_text(self.container),
        }
    }
}

pub open spec fn json_views(v: Seq<TargetJson>) -> Seq<TargetJsonView> {
    v.map_values(|j: TargetJson| j@)
}

/// A value where the target can be measured.
pub open spec fn measured(t: TargetView, v: u64) -> Option<u64> {
    if t.pids.len() == 0 {
        None
    } else {
        Some(v)
    }
}

/// The fields of a target for scripts, `now` being in seconds since the epoch.
pub open spec fn json_of(t: TargetView, now: u64) -> TargetJsonView {
    TargetJsonView {
        project: t.project,
        command: t.command_label,
        kind: match t.kind {
            TargetKind::Listener => "listener"@,
            TargetKind::Watched => "watched"@,
        },
        ports: t.ports,
        url: match t.url {
            Some(u) => Some(u.value),
            None => None,
        },
        cpu: measured(t, t.cpu),
        mem_bytes: measured(t, t.mem_bytes),
        uptime_secs: if t.anchor.start_time == 0 {
            None
        } else if now >= t.anchor.start_time {
            Some((now - t.anchor.start_time) as u64)
        } else {
            Some(0)
        },
        pids: t.pids,
        anchor_pid: t.anchor.pid,
        cwd: t.cwd,
        branch: t.git_branch,
        exposed: t.exposed,
        container: t.container,
    }
}

impl TargetJson {
    /// A target for scripts.
    pub fn from(t: &Target, now: u64) -> (r: Self)
        ensures
            r@ == json_of(t@, now),
    {
        let shown = t.pids.len() > 0;
        let r = TargetJson {
            project: t.project.clone(),
            command: t.command_label.clone(),
            kind: match t.kind {
                TargetKind::Listener => "listener",
                TargetKind::Watched => "watched",
            },
            ports: clone_plain(&t.ports),
            url: match &t.url {
                Some(u) => Some(u.value.clone()),
                None => None,
            },
            cpu: if shown {
                Some(t.cpu)
            } else {
                None
            },
            mem_bytes: if shown {
                Some(t.mem_bytes)
            } else {
                None
            },
            uptime_secs: if t.anchor.start_time == 0 {
                None
            } else if now >= t.anchor.start_time {
                Some(now - t.anchor.start_time)
            } else {
                Some(0)
            },
            pids: clone_plain(&t.pids),
            anchor_pid: t.anchor.pid,
            cwd: t.cwd.clone(),
            branch: clone_opt(&t.git_branch),
            exposed: t.exposed,
            container: clone_opt(&t.container),
        };
        proof {
            assert(r@ =~= json_of(t@, now));
        }
        r
    }
}

/// What scripts see of a target does not depend on its command line.
pub proof fn json_never_shows_argv(a: TargetView, b: TargetView, now: u64)
    requires
        (TargetView { anchor_argv: b.anchor_argv, ..a }) == b,
    ensures
        json_of(a, now) == json_of(b, now),
{
}

pub open spec fn all_json(targets: Seq<TargetView>, now: u64) -> Seq<TargetJsonView> {
    targets.map_values(|t: TargetView| json_of(t, now))
}

fn json_list(targets: &[&Target], now: u64) -> (r: Vec<TargetJson>)
    ensures
        json_views(r@) == all_json(ref_views(targets@), now),
{
    let ghost all = all_json(ref_views(targets@), now);
    let mut out: Vec<TargetJson> = Vec::new();
    let mut i: usize = 0;
    while i < targets.len()
        invariant
            i <= targets@.len(),
            all == all_json(ref_views(targets@), now),
            json_views(out@) == all.take(i as int),
        decreases targets@.len() - i,
    {
        let ghost before = out@;
        let j = TargetJson::from(targets[i], now);
        out.push(j);
        proof {
            assert(json_views(out@) =~= json_views(before).push(j@));
            assert(all[i as int] == j@);
            assert(json_views(out@) =~= all.take(i + 1));
        }
        i = i + 1;
    }
    proof {
        assert(all.take(i as int) =~= all);
    }
    out
}

/// What `ls` gives to scripts: the listed targets, or that nothing matches.
pub open spec fn ls_json_given(
    targets: Seq<TargetView>,
    selectors: Seq<Seq<char>>,
    now: u64,
    r: Result<Vec<TargetJson>, Output>,
) -> bool {
    let all = targets;
    let sel = selectors;
    let listed = ls_targets(all, sel);
    match r {
        Ok(v) => (sel.len() == 0 || listed.len() > 0) && json_views(v@) == all_json(
            listed,
            now,
        ),
        Err(o) => sel.len() > 0 && listed.len() == 0 && o@ == no_match(sel),
    }
}

/// The targets that `ls --json` prints, or the answer to selectors that choose nothing.
pub fn ls_json(snap: &Snapshot, selectors: &[String], now: u64) -> (r: Result<
    Vec<TargetJson>,
    Output,
>)
    ensures
        ls_json_given(target_views(snap.targets@), text::texts(selectors@), now, r),
{
    let targets = listed(snap, selectors);
    assert(ref_views(targets@).len() == targets@.len());
    assert(text::texts(selectors@).len() == selectors@.len());
    if selectors.len() > 0 && targets.len() == 0 {
        return Err(nothing_matches(selectors));
    }
    Ok(json_list(targets.as_slice(), now))
}

// ------------------------------------------------------------------------ kill

/// One step of a command, in order.
#[derive(Debug)]
pub enum Act {
    /// Print a line.
    Say(String),
    /// Print a line as an error.
    Complain(String),
    /// Stop a container.
    StopContainer(String),
    /// Restart a container, and report it.
    RestartContainer(String),
}

pub enum ActView {
    Say(Seq<char>),
    Complain(Seq<char>),
    StopContainer(Seq<char>),
    RestartContainer(Seq<char>),
}

impl View for Act {
    type V = ActView;

    open spec fn view(&self) -> ActView {
        match self {
            Act::Say(s) => ActView::Say(s@),
            Act::Complain(s) => ActView::Complain(s@),
            Act::StopContainer(s) => ActView::StopContainer(s@),
            Act::RestartContainer(s) => ActView::RestartContainer(s@),
        }
    }
}

pub open spec fn act_views(v: Seq<Act>) -> Seq<ActView> {
    v.map_values(|a: Act| a@)
}

/// What `kill` does: its steps, then the processes to end, then its report.
#[derive(Debug)]
pub struct KillPlan {
    pub acts: Vec<Act>,
    pub pid_starts: Vec<PidStart>,
    pub killed: Vec<TargetJson>,
}

/// The first port of a target with its colon, or nothing.
pub open spec fn first_port(t: TargetView) -> Seq<char> {
    if t.ports.len() == 0 {
        ""@
    } else {
        ":"@ + text::decimal(t.ports[0] as nat)
    }
}

/// What is said of a target that is killed.
pub open spec fn killing(t: TargetView) -> Seq<char> {
    "killing "@ + t.project + " "@ + first_port(t) + " ("@ + text::decimal(t.pids.len()) + " pids)"@
}

/// The steps for one target.
pub open spec fn kill_steps(t: TargetView, json: bool) -> Seq<ActView> {
    match t.container {
        Some(c) => if json {
            seq![ActView::StopContainer(c)]
        } else {
            seq![ActView::Say("stopping container "@ + c), ActView::StopContainer(c)]
        },
        None => if json {
            seq![]
        } else {
            seq![ActView::Say(killing(t))]
        },
    }
}

/// The steps for some targets.
pub open spec fn all_kill_steps(targets: Seq<TargetView>, json: bool) -> Seq<ActView>
    decreases targets.len(),
{
    if targets.len() == 0 {
        Seq::empty()
    } else {
        all_kill_steps(targets.drop_last(), json) + kill_steps(targets.last(), json)
    }
}

/// The processes of the targets that are no containers.
pub open spec fn native_starts(targets: Seq<TargetView>) -> Seq<PidStart>
    decreases targets.len(),
{
    if targets.len() == 0 {
        Seq::empty()
    } else {
        let t = targets.last();
        native_starts(targets.drop_last()) + if t.container is Some {
            Seq::empty()
        } else {
            t.pid_starts
        }
    }
}

fn killing_text(t: &Target) -> (r: String)
    ensures
        r@ == killing(t@),
{
    let mut s = "killing ".to_owned();
    s.append(t.project.as_str());
    s.append(" ");
    if t.ports.len() > 0 {
        let digits = text::to_decimal(t.ports[0] as u64);
        let mut p = ":".to_owned();
        p.append(digits.as_str());
        s.append(p.as_str());
    } else {
        s.append("");
    }
    s.append(" (");
    let n = text::to_decimal(t.pids.len() as u64);
    s.append(n.as_str());
    s.append(" pids)");
    s
}

fn push_kill_steps(acts: &mut Vec<Act>, t: &Target, json: bool)
    ensures
        act_views(final(acts)@) == act_views(old(acts)@) + kill_steps(t@, json),
{
    let ghost a0 = act_views(acts@);
    match &t.container {
        Some(c) => {
            if !json {
                let mut s = "stopping container ".to_owned();
                s.append(c.as_str());
                acts.push(Act::Say(s));
            }
            acts.push(Act::StopContainer(c.clone()));
        },
        None => {
            if !json {
                acts.push(Act::Say(killing_text(t)));
            }
        },
    }
    proof {
        assert(act_views(acts@) =~= a0 + kill_steps(t@, json));
    }
}

pub(crate) fn push_starts(all: &mut Vec<PidStart>, more: &[PidStart])
    ensures
        final(all)@ == old(all)@ + more@,
{
    let ghost a0 = all@;
    let mut i: usize = 0;
    while i < more.len()
        invariant
            i <= more@.len(),
            all@ == a0 + more@.take(i as int),
        decreases more@.len() - i,
    {
        all.push(more[i]);
        proof {
            assert(all@ =~= a0 + more@.take(i + 1));
        }
        i = i + 1;
    }
    proof {
        assert(more@.take(i as int) =~= more@);
    }
}

/// The plan of a kill of the chosen targets, or that nothing matches.
pub open spec fn kill_planned(
    targets: Seq<TargetView>,
    selectors: Seq<Seq<char>>,
    json: bool,
    now: u64,
    r: Result<KillPlan, Output>,
) -> bool {
    let sel = chosen(targets, selectors);
    match r {
        Ok(plan) => {
            &&& sel.len() > 0
            &&& act_views(plan.acts@) == all_kill_steps(sel, json)
            &&& plan.pid_starts@ == native_starts(sel)
            &&& json_views(plan.killed@) == all_json(sel, now)
        },
        Err(o) => sel.len() == 0 && o@ == no_match(selectors),
    }
}

/// What `kill` does with the targets that its selectors choose.
pub fn kill(snap: &Snapshot, selectors: &[String], json: bool, now: u64) -> (r: Result<
    KillPlan,
    Output,
>)
    ensures
        kill_planned(target_views(snap.targets@), text::texts(selectors@), json, now, r),
{
    let targets = select(snap, selectors);
    let ghost all = ref_views(targets@);
    if targets.len() == 0 {
        return Err(nothing_matches(selectors));
    }
    let mut acts: Vec<Act> = Vec::new();
    let mut pid_starts: Vec<PidStart> = Vec::new();
    let mut i: usize = 0;
    proof {
        assert(act_views(acts@) =~= all_kill_steps(all.take(0), json));
        assert(pid_starts@ =~= native_starts(all.take(0)));
    }
    while i < targets.len()
        invariant
            i <= targets@.len(),
            all == ref_views(targets@),
            act_views(acts@) == all_kill_steps(all.take(i as int), json),
            pid_starts@ == native_starts(all.take(i as int)),
        decreases targets@.len() - i,
    {
        let t = targets[i];
        proof {
            assert(all.take(i + 1).drop_last() =~= all.take(i as int));
            assert(all.take(i + 1).last() == t@);
        }
        push_kill_steps(&mut acts, t, json);
        if t.container.is_none() {
            push_starts(&mut pid_starts, t.pid_starts.as_slice());
        } else {
            proof {
                assert(pid_starts@ + Seq::<PidStart>::empty() =~= pid_starts@);
            }
        }
        i = i + 1;
    }
    proof {
        assert(all.take(i as int) =~= all);
    }
    let killed = json_list(targets.as_slice(), now);
    Ok(KillPlan { acts, pid_starts, killed })
}

// --------------------------------------------------------------------- restart

/// A command to start again.
#[derive(Debug)]
pub struct Relaunch {
    pub project: String,
    pub argv: Vec<String>,
    pub cwd: String,
}

#[verifier::ext_equal]
pub struct RelaunchView {
    pub project: Seq<char>,
    pub argv: Seq<Seq<char>>,
    pub cwd: Seq<char>,
}

impl View for Relaunch {
    type V = RelaunchView;

    open spec fn view(&self) -> RelaunchView {
        RelaunchView { project: self.project@, argv: text::texts(self.argv@), cwd: self.cwd@ }
    }
}

pub open spec fn relaunch_views(v: Seq<Relaunch>) -> Seq<RelaunchView> {
    v.map_values(|a: Relaunch| a@)
}

/// What `restart` does: its steps, then the processes to end, then the commands to
/// start. Where nothing is to be started, what to report in their place.
#[derive(Debug)]
pub struct RestartCommand {
    pub acts: Vec<Act>,
    pub pid_starts: Vec<PidStart>,
    pub relaunches: Vec<Relaunch>,
    /// Some container is restarted.
    pub containers: bool,
}

/// The step for one target, if it has one.
pub open spec fn restart_steps(t: TargetView) -> Seq<ActView> {
    match t.container {
        Some(c) => seq![ActView::RestartContainer(c)],
        None => if t.anchor_argv.len() == 0 {
            seq![ActView::Complain("skipping "@ + t.project + ": command not captured"@)]
        } else {
            seq![]
        },
    }
}

pub open spec fn all_restart_steps(targets: Seq<TargetView>) -> Seq<ActView>
    decreases targets.len(),
{
    if targets.len() == 0 {
        Seq::empty()
    } else {
        all_restart_steps(targets.drop_last()) + restart_steps(targets.last())
    }
}

/// The commands to start again.
pub open spec fn relaunches_of(targets: Seq<TargetView>) -> Seq<RelaunchView>
    decreases targets.len(),
{
    if targets.len() == 0 {
        Seq::empty()
    } else {
        let before = relaunches_of(targets.drop_last());
        let t = targets.last();
        if t.container is None && t.anchor_argv.len() > 0 {
            before.push(RelaunchView { project: t.project, argv: t.anchor_argv, cwd: t.cwd })
        } else {
            before
        }
    }
}

/// Some target is a container.
pub open spec fn has_container(targets: Seq<TargetView>) -> bool {
    exists|i: int| 0 <= i < targets.len() && (#[trigger] targets[i]).container is Some
}

/// The plan of a restart of the chosen targets, or that nothing matches.
pub open spec fn restart_planned(
    targets: Seq<TargetView>,
    selectors: Seq<Seq<char>>,
    r: Result<RestartCommand, Output>,
) -> bool {
    let sel = chosen(targets, selectors);
    match r {
        Ok(c) => {
            &&& sel.len() > 0
            &&& act_views(c.acts@) == all_restart_steps(sel)
            &&& c.pid_starts@ == native_starts(sel)
            &&& relaunch_views(c.relaunches@) == relaunches_of(sel)
            &&& c.containers == has_container(sel)
        },
        Err(o) => sel.len() == 0 && o@ == no_match(selectors),
    }
}

/// What `restart` does with the targets that its selectors choose.
pub fn restart(snap: &Snapshot, selectors: &[String]) -> (r: Result<RestartCommand, Output>)
    ensures
        restart_planned(target_views(snap.targets@), text::texts(selectors@), r),
{
    let targets = select(snap, selectors);
    let ghost all = ref_views(targets@);
    if targets.len() == 0 {
        return Err(nothing_matches(selectors));
    }
    let mut acts: Vec<Act> = Vec::new();
    let mut pid_starts: Vec<PidStart> = Vec::new();
    let mut relaunches: Vec<Relaunch> = Vec::new();
    let mut containers = false;
    let mut i: usize = 0;
    proof {
        assert(act_views(acts@) =~= all_restart_steps(all.take(0)));
        assert(pid_starts@ =~= native_starts(all.take(0)));
        assert(relaunch_views(relaunches@) =~= relaunches_of(all.take(0)));
    }
    while i < targets.len()
        invariant
            i <= targets@.len(),
            all == ref_views(targets@),
            act_views(acts@) == all_restart_steps(all.take(i as int)),
            pid_starts@ == native_starts(all.take(i as int)),
            relaunch_views(relaunches@) == relaunches_of(all.take(i as int)),
            containers == exists|j: int| 0 <= j < i && (#[trigger] all[j]).container is Some,
        decreases targets@.len() - i,
    {
        let t = targets[i];
        let ghost a0 = act_views(acts@);
        let ghost r0 = relaunches@;
        proof {
            assert(all.take(i + 1).drop_last() =~= all.take(i as int));
            assert(all.take(i + 1).last() == t@);
            assert(all[i as int] == t@);
        }
        match &t.container {
            Some(c) => {
                acts.push(Act::RestartContainer(c.clone()));
                containers = true;
                proof {
                    assert(pid_starts@ + Seq::<PidStart>::empty() =~= pid_starts@);
                }
            },
            None => {
                push_starts(&mut pid_starts, t.pid_starts.as_slice());
                if t.anchor_argv.len() == 0 {
                    let mut s = "skipping ".to_owned();
                    s.append(t.project.as_str());
                    s.append(": command not captured");
                    acts.push(Act::Complain(s));
                } else {
                    let next = Relaunch {
                        project: t.project.clone(),
                        argv: clone_strings(&t.anchor_argv),
                        cwd: t.cwd.clone(),
                    };
                    relaunches.push(next);
                    proof {
                        assert(next@ =~= (RelaunchView {
                            project: t@.project,
                            argv: t@.anchor_argv,
                            cwd: t@.cwd,
                        }));
                        assert(relaunch_views(relaunches@) =~= relaunch_views(r0).push(next@));
                    }
                }
            },
        }
        proof {
            assert(act_views(acts@) =~= a0 + restart_steps(t@));
        }
        i = i + 1;
    }
    proof {
        assert(all.take(i as int) =~= all);
    }
    Ok(RestartCommand { acts, pid_starts, relaunches, containers })
}

/// What is printed where no command is to be started.
pub open spec fn idle_report(containers: bool, code: i32) -> OutputView {
    if containers {
        OutputView { out: Seq::empty(), err: Seq::empty(), code }
    } else {
        OutputView {
            out: Seq::empty(),
            err: "nothing restartable (command not captured)\n"@,
            code: 1,
        }
    }
}

impl RestartCommand {
    /// What to print, and the exit code, where no command is to be started: `code` is
    /// that of the containers so far.
    pub fn idle(&self, code: i32) -> (r: Option<Output>)
        ensures
            match r {
                Some(o) => self.relaunches@.len() == 0 && o@ == idle_report(self.containers, code),
                None => self.relaunches@.len() > 0,
            },
    {
        if self.relaunches.len() > 0 {
            return None;
        }
        if self.containers {
            let none = String::new();
            assert(none@ =~= Seq::<char>::empty());
            Some(failure(none, code))
        } else {
            Some(failure("nothing restartable (command not captured)\n".to_owned(), 1))
        }
    }
}

/// The exit code after one more step: a step that fails leaves its own.
pub open spec fn code_with(code: i32, step: i32) -> i32 {
    if step == 0 {
        code
    } else {
        step
    }
}

/// The exit code of a command after a step that ended with `step`.
pub fn code_after(code: i32, step: i32) -> (r: i32)
    ensures
        r == code_with(code, step),
{
    if step == 0 {
        code
    } else {
        step
    }
}

/// A command whose steps all succeed succeeds, and one failure is never lost.
pub proof fn failures_are_kept(code: i32, step: i32)
    ensures
        code_with(code, step) == 0 <==> code == 0 && step == 0,
{
}

/// What is printed after a container was restarted or not.
pub open spec fn container_report(name: Seq<char>, ok: bool) -> OutputView {
    if ok {
        OutputView { out: "restarted container "@ + name + "\n"@, err: Seq::empty(), code: 0 }
    } else {
        OutputView {
            out: Seq::empty(),
            err: "docker restart "@ + name + " failed\n"@,
            code: 1,
        }
    }
}

/// What to print after a container was restarted or not.
pub fn container_restarted(name: &str, ok: bool) -> (r: Output)
    ensures
        r@ == container_report(name@, ok),
{
    if ok {
        let mut s = "restarted container ".to_owned();
        s.append(name);
        s.append("\n");
        success(s)
    } else {
        let mut s = "docker restart ".to_owned();
        s.append(name);
        s.append(" failed\n");
        failure(s, 1)
    }
}

/// What is printed after a command was started again or not.
pub open spec fn relaunch_report(
    project: Seq<char>,
    log: Option<Seq<char>>,
    error: Option<Seq<char>>,
) -> OutputView {
    match (error, log) {
        (Some(e), _) => OutputView {
            out: Seq::empty(),
            err: "restart "@ + project + " failed: "@ + e + "\n"@,
            code: 1,
        },
        (None, Some(p)) => OutputView {
            out: "restarted "@ + project + " (output -> "@ + p + ")\n"@,
            err: Seq::empty(),
            code: 0,
        },
        (None, None) => OutputView {
            out: "restarted "@ + project + "\n"@,
            err: Seq::empty(),
            code: 0,
        },
    }
}

/// What to print after a command was started again or not: `log` is where its output
/// goes, `error` why it failed.
pub fn relaunched(project: &str, log: Option<&str>, error: Option<&str>) -> (r: Output)
    ensures
        r@ == relaunch_report(project@, paths::opt_str(log), paths::opt_str(error)),
{
    match (error, log) {
        (Some(e), _) => {
            let mut s = "restart ".to_owned();
            s.append(project);
            s.append(" failed: ");
            s.append(e);
            s.append("\n");
            failure(s, 1)
        },
        (None, Some(p)) => {
            let mut s = "restarted ".to_owned();
            s.append(project);
            s.append(" (output -> ");
            s.append(p);
            s.append(")\n");
            success(s)
        },
        (None, None) => {
            let mut s = "restarted ".to_owned();
            s.append(project);
            s.append("\n");
            success(s)
        },
    }
}

// ------------------------------------------------------------------------- url

/// The line of a target's URL.
pub open spec fn url_line(t: TargetView) -> Seq<char> {
    t.project + "\t"@ + match t.url {
        Some(u) => u.value,
        None => NONE@,
    } + "\n"@
}

pub open spec fn url_lines(targets: Seq<TargetView>) -> Seq<char>
    decreases targets.len(),
{
    if targets.len() == 0 {
        Seq::empty()
    } else {
        url_lines(targets.drop_last()) + url_line(targets.last())
    }
}

/// What `url` prints for the targets that its selectors choose.
pub open spec fn url_output(sel: Seq<TargetView>, selectors: Seq<Seq<char>>) -> OutputView {
    if sel.len() == 0 {
        no_match(selectors)
    } else {
        OutputView { out: url_lines(sel), err: Seq::empty(), code: 0 }
    }
}

/// The URLs that `url` prints.
pub fn url(snap: &Snapshot, selectors: &[String]) -> (r: Output)
    ensures
        r@ == url_output(
            chosen(target_views(snap.targets@), text::texts(selectors@)),
            text::texts(selectors@),
        ),
{
    let targets = select(snap, selectors);
    let ghost all = ref_views(targets@);
    if targets.len() == 0 {
        return nothing_matches(selectors);
    }
    let mut out = String::new();
    let mut i: usize = 0;
    proof {
        assert(out@ =~= url_lines(all.take(0)));
    }
    while i < targets.len()
        invariant
            i <= targets@.len(),
            all == ref_views(targets@),
            out@ == url_lines(all.take(i as int)),
        decreases targets@.len() - i,
    {
        let t = targets[i];
        proof {
            assert(all.take(i + 1).drop_last() =~= all.take(i as int));
            assert(all.take(i + 1).last() == t@);
        }
        let mut s = t.project.clone();
        s.append("\t");
        s.append(
            match &t.url {
                Some(u) => u.value.as_str(),
                None => NONE,
            },
        );
        s.append("\n");
        out.append(s.as_str());
        i = i + 1;
    }
    proof {
        assert(all.take(i as int) =~= all);
    }
    success(out)
}

/// A project and its URL, for scripts.
#[derive(Debug)]
pub struct UrlJson {
    pub project: String,
    pub url: Option<String>,
}

pub open spec fn url_pairs(v: Seq<UrlJson>) -> Seq<(Seq<char>, Option<Seq<char>>)> {
    v.map_values(|u: UrlJson| (u.project@, opt_text(u.url)))
}

pub open spec fn target_urls(targets: Seq<TargetView>) -> Seq<(Seq<char>, Option<Seq<char>>)> {
    targets.map_values(
        |t: TargetView|
            (
                t.project,
                match t.url {
                    Some(u) => Some(u.value),
                    None => None,
                },
            ),
    )
}

/// What `url` gives to scripts: the URLs of the chosen targets, or that nothing matches.
pub open spec fn url_json_given(
    targets: Seq<TargetView>,
    selectors: Seq<Seq<char>>,
    r: Result<Vec<UrlJson>, Output>,
) -> bool {
    let sel = chosen(targets, selectors);
    match r {
        Ok(v) => sel.len() > 0 && url_pairs(v@) == target_urls(sel),
        Err(o) => sel.len() == 0 && o@ == no_match(selectors),
    }
}

/// The URLs that `url --json` prints.
pub fn url_json(snap: &Snapshot, selectors: &[String]) -> (r: Result<Vec<UrlJson>, Output>)
    ensures
        url_json_given(target_views(snap.targets@), text::texts(selectors@), r),
{
    let targets = select(snap, selectors);
    let ghost all = target_urls(ref_views(targets@));
    if targets.len() == 0 {
        return Err(nothing_matches(selectors));
    }
    let mut out: Vec<UrlJson> = Vec::new();
    let mut i: usize = 0;
    while i < targets.len()
        invariant
            i <= targets@.len(),
            all == target_urls(ref_views(targets@)),
            url_pairs(out@) == all.take(i as int),
        decreases targets@.len() - i,
    {
        let ghost before = out@;
        let t = targets[i];
        let u = UrlJson {
            project: t.project.clone(),
            url: match &t.url {
                Some(u) => Some(u.value.clone()),
                None => None,
            },
        };
        out.push(u);
        proof {
            assert(url_pairs(out@) =~= url_pairs(before).push((u.project@, opt_text(u.url))));
            assert(url_pairs(out@) =~= all.take(i + 1));
        }
        i = i + 1;
    }
    proof {
        assert(all.take(i as int) =~= all);
    }
    Ok(out)
}

} // verus!
