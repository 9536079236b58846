//! Discovery: which listeners and watchers become rows, and what each row says. All
//! that had to be read beforehand, from disk or from the system, is at hand here.
use std::collections::{HashMap, HashSet};
use vstd::prelude::*;

use crate::docker;
use crate::model::{
    clone_strings, opt_text, opt_url, target_views, Anchor, KeyView, Target, TargetKey,
    TargetKind, TargetView,
};
use crate::paths;
use crate::ports::{has_port, lemma_sorted_set, sort_dedup, sorted_set};
use crate::proctree;
use crate::proctree::{capped, unseen, PidTest};
use crate::project::{dir_name, name_of_dir};
use crate::resolve;
use crate::resolve::{first_hit, lemma_first_hit, lemma_is_first_hit, Resolver};
use crate::sources::{is_table, Listener, ProcInfo, ProcTable};
use crate::text;
use crate::textmap::{lookup, TextMap};

verus! {

/// Everything that discovery reads.
pub struct World {
    pub procs: Map<u32, ProcInfo>,
    pub order: Seq<u32>,
    /// The process that asks.
    pub me: u32,
    pub home: Option<Seq<char>>,
    /// Project root by working directory.
    pub roots: Map<Seq<char>, Option<Seq<char>>>,
    /// Project name by root.
    pub names: Map<Seq<char>, Option<Seq<char>>>,
    /// Branch by root.
    pub branches: Map<Seq<char>, Option<Seq<char>>>,
    pub rules: Resolver,
}

/// What discovery works on, with the child map and the own session worked out.
pub struct Scene<'a> {
    pub procs: &'a ProcTable,
    pub children: &'a HashMap<u32, Vec<u32>>,
    pub own: &'a HashSet<u32>,
    pub me: u32,
    pub home: &'a Option<String>,
    pub roots: &'a TextMap,
    pub names: &'a TextMap,
    pub branches: &'a TextMap,
    pub rules: &'a Resolver,
}

impl<'a> Scene<'a> {
    pub open spec fn world(&self) -> World {
        World {
            procs: self.procs@,
            order: self.procs.order(),
            me: self.me,
            home: opt_text(*self.home),
            roots: self.roots@,
            names: self.names@,
            branches: self.branches@,
            rules: *self.rules,
        }
    }

    /// The child map and the own session belong to the processes.
    pub open spec fn wf(&self) -> bool {
        &&& is_table(self.procs@, self.procs.order())
        &&& proctree::is_child_map(self.children@, self.procs@, self.procs.order())
        &&& forall|p: u32| #[trigger] self.own@.contains(p) <==> is_own(self.world(), p)
    }
}

/// The process belongs to the session that asks: itself or one of its ancestors.
pub open spec fn is_own(w: World, p: u32) -> bool {
    proctree::reaches(proctree::to_live_parent(w.procs), w.me, p)
}

/// The process and all its descendants.
pub open spec fn tree_of(w: World, p: u32) -> Seq<u32> {
    proctree::tree(w.procs, w.order, p)
}

fn subtree(s: &Scene, p: u32) -> (r: Vec<u32>)
    requires
        s.wf(),
    ensures
        r@ == tree_of(s.world(), p),
        r@.no_duplicates(),
{
    proof {
        proctree::lemma_child_map(s.children@, s.procs@, s.procs.order());
    }
    proctree::subtree(p, s.children)
}

/// The project root of a working directory.
pub open spec fn root_at(w: World, cwd: Option<Seq<char>>) -> Option<Seq<char>> {
    match cwd {
        Some(c) => lookup(w.roots, c),
        None => None,
    }
}

fn root_of(s: &Scene, cwd: &Option<String>) -> (r: Option<String>)
    ensures
        opt_text(r) == root_at(s.world(), opt_text(*cwd)),
{
    match cwd {
        Some(c) => s.roots.get(c.as_str()),
        None => None,
    }
}

fn borrowed(o: &Option<String>) -> (r: Option<&str>)
    ensures
        paths::opt_str(r) == opt_text(*o),
{
    match o {
        Some(s) => Some(s.as_str()),
        None => None,
    }
}

/// The name of a project: that of its root, otherwise that of the directory.
pub open spec fn project_at(w: World, root: Option<Seq<char>>, cwd: Seq<char>) -> Seq<char> {
    match root {
        Some(r) => match lookup(w.names, r) {
            Some(n) => n,
            None => dir_name(r),
        },
        None => dir_name(cwd),
    }
}

fn project_name(s: &Scene, root: &Option<String>, cwd: &str) -> (r: String)
    ensures
        r@ == project_at(s.world(), opt_text(*root), cwd@),
{
    match root {
        Some(r) => match s.names.get(r.as_str()) {
            Some(n) => n,
            None => name_of_dir(r.as_str()),
        },
        None => name_of_dir(cwd),
    }
}

/// The group that takes the place of a project, where one fits.
pub open spec fn grouped(w: World, ports: Seq<u16>, project: Seq<char>, label: Seq<char>) -> Seq<
    char,
> {
    match resolve::group_of(w.rules.groups@, ports, project, label) {
        Some(g) => g,
        None => project,
    }
}

fn group_or(s: &Scene, ports: &[u16], project: String, label: &str) -> (r: String)
    ensures
        r@ == grouped(s.world(), ports@, project@, label@),
{
    match s.rules.group_name(ports, project.as_str(), label) {
        Some(g) => g,
        None => project,
    }
}

/// The user's rules hide a target with these ports and this text.
pub open spec fn ignored(w: World, ports: Seq<u16>, text: Seq<char>) -> bool {
    resolve::hidden(w.rules.ignores@, resolve::ignore_hits(w.rules.ignores@, text), ports)
}

// ------------------------------------------------------------------ listeners

/// The process that holds a listening socket is live and not of the own session.
pub open spec fn is_foreign(w: World, l: Listener) -> bool {
    w.procs.contains_key(l.pid) && !is_own(w, l.pid)
}

/// A published container port.
pub open spec fn is_docker(w: World, l: Listener) -> bool {
    is_foreign(w, l) && docker::names_binder(w.procs[l.pid].name@)
}

/// The project root of the process that holds a socket.
pub open spec fn listener_root(w: World, l: Listener) -> Option<Seq<char>> {
    root_at(w, opt_text(w.procs[l.pid].cwd))
}

/// A listener that becomes part of a row.
pub open spec fn counts(w: World, l: Listener) -> bool {
    &&& is_foreign(w, l)
    &&& !docker::names_binder(w.procs[l.pid].name@)
    &&& proctree::is_dev(opt_text(w.procs[l.pid].cwd), listener_root(w, l), w.home)
}

/// The session that asks.
pub open spec fn own_session(w: World) -> Set<u32> {
    Set::new(|p: u32| is_own(w, p))
}

/// The anchor of a listener, which stays below the session that asks.
pub open spec fn listener_anchor(w: World, l: Listener) -> u32 {
    proctree::anchor_of(w.procs, own_session(w), listener_root(w, l), l.pid)
}

/// The listening ports under one anchor, and the processes that are the anchor's.
pub struct AnchorAgg {
    pub anchor: u32,
    pub ports: Vec<u16>,
    pub root: Option<String>,
    pub pids: Vec<u32>,
}

#[verifier::ext_equal]
pub struct AggView {
    pub anchor: u32,
    pub ports: Seq<u16>,
    pub root: Option<Seq<char>>,
    pub pids: Seq<u32>,
}

impl View for AnchorAgg {
    type V = AggView;

    open spec fn view(&self) -> AggView {
        AggView {
            anchor: self.anchor,
            ports: self.ports@,
            root: opt_text(self.root),
            pids: self.pids@,
        }
    }
}

pub open spec fn agg_views(v: Seq<AnchorAgg>) -> Seq<AggView> {
    v.map_values(|a: AnchorAgg| a@)
}

/// Where an anchor stands among those found so far.
pub open spec fn agg_hits(groups: Seq<AggView>, anchor: u32) -> Seq<bool> {
    Seq::new(groups.len(), |i: int| groups[i].anchor == anchor)
}

/// The port joins its anchor; the anchor keeps the first root that is known of it.
pub open spec fn with_port(
    groups: Seq<AggView>,
    anchor: u32,
    port: u16,
    root: Option<Seq<char>>,
) -> Seq<AggView> {
    match first_hit(agg_hits(groups, anchor)) {
        Some(i) => groups.update(
            i,
            AggView {
                anchor,
                ports: groups[i].ports.push(port),
                root: if groups[i].root is None {
                    root
                } else {
                    groups[i].root
                },
                pids: groups[i].pids,
            },
        ),
        None => groups.push(AggView { anchor, ports: seq![port], root, pids: Seq::empty() }),
    }
}

/// The listeners that count, by anchor, in the order in which the anchors appear.
pub open spec fn gathered(w: World, listeners: Seq<Listener>) -> Seq<AggView>
    decreases listeners.len(),
{
    if listeners.len() == 0 {
        Seq::empty()
    } else {
        let before = gathered(w, listeners.drop_last());
        let l = listeners.last();
        if counts(w, l) {
            with_port(before, listener_anchor(w, l), l.port, listener_root(w, l))
        } else {
            before
        }
    }
}

fn add_port(groups: &mut Vec<AnchorAgg>, anchor: u32, port: u16, root: Option<String>)
    ensures
        agg_views(final(groups)@) == with_port(
            agg_views(old(groups)@),
            anchor,
            port,
            opt_text(root),
        ),
{
    let ghost g0 = agg_views(groups@);
    let ghost hits = agg_hits(g0, anchor);
    let mut i: usize = 0;
    while i < groups.len()
        invariant
            i <= groups@.len(),
            groups@ == old(groups)@,
            g0 == agg_views(groups@),
            hits == agg_hits(g0, anchor),
            forall|j: int| 0 <= j < i ==> !#[trigger] hits[j],
        decreases groups@.len() - i,
    {
        assert(hits[i as int] == (groups@[i as int].anchor == anchor));
        if groups[i].anchor == anchor {
            proof {
                lemma_is_first_hit(hits, i as int);
            }
            let mut ports: Vec<u16> = Vec::new();
            std::mem::swap(&mut groups[i].ports, &mut ports);
            ports.push(port);
            let mut pids: Vec<u32> = Vec::new();
            std::mem::swap(&mut groups[i].pids, &mut pids);
            let kept = match &groups[i].root {
                Some(r) => Some(r.clone()),
                None => root,
            };
            groups.set(i, AnchorAgg { anchor, ports, root: kept, pids });
            proof {
                assert(agg_views(groups@) =~= with_port(g0, anchor, port, opt_text(root)));
            }
            return;
        }
        i = i + 1;
    }
    proof {
        lemma_first_hit(hits);
    }
    let mut ports: Vec<u16> = Vec::new();
    ports.push(port);
    groups.push(AnchorAgg { anchor, ports, root, pids: Vec::new() });
    proof {
        assert(ports@ =~= seq![port]);
        assert(groups@[g0.len() as int].pids@ =~= Seq::<u32>::empty());
        assert(agg_views(groups@) =~= with_port(g0, anchor, port, opt_text(root)));
    }
}

proof fn lemma_with_port_anchors(
    groups: Seq<AggView>,
    anchor: u32,
    port: u16,
    root: Option<Seq<char>>,
)
    ensures
        ({
            let after = with_port(groups, anchor, port, root);
            forall|j: int|
                0 <= j < after.len() ==> (#[trigger] after[j]).anchor == (if j < groups.len() {
                    groups[j].anchor
                } else {
                    anchor
                })
        }),
{
    lemma_first_hit(agg_hits(groups, anchor));
    if let Some(k) = first_hit(agg_hits(groups, anchor)) {
        assert(groups[k].anchor == anchor);
    }
}

/// Group the listening ports by anchor. No anchor is of the session that asks.
pub fn gather(s: &Scene, listeners: &[Listener]) -> (r: Vec<AnchorAgg>)
    requires
        s.wf(),
    ensures
        agg_views(r@) == gathered(s.world(), listeners@),
        forall|i: int| 0 <= i < r@.len() ==> !is_own(s.world(), (#[trigger] r@[i]).anchor),
{
    let ghost w = s.world();
    let mut groups: Vec<AnchorAgg> = Vec::new();
    let mut i: usize = 0;
    proof {
        assert(agg_views(groups@) =~= gathered(w, listeners@.take(0)));
    }
    while i < listeners.len()
        invariant
            i <= listeners@.len(),
            s.wf(),
            w == s.world(),
            agg_views(groups@) == gathered(w, listeners@.take(i as int)),
            forall|j: int| 0 <= j < groups@.len() ==> !is_own(w, (#[trigger] groups@[j]).anchor),
        decreases listeners@.len() - i,
    {
        let l = listeners[i];
        proof {
            assert(listeners@.take(i + 1).drop_last() =~= listeners@.take(i as int));
            assert(listeners@.take(i + 1).last() == l);
        }
        match s.procs.get(l.pid) {
            Some(p) => {
                if !s.own.contains(&l.pid) && !docker::is_binder(p.name.as_str()) {
                    let root = root_of(s, &p.cwd);
                    let dev = proctree::is_dev_target(
                        borrowed(&p.cwd),
                        borrowed(&root),
                        borrowed(s.home),
                    );
                    if dev {
                        assert(s.own@ =~= own_session(w));
                        let anchor = proctree::climb_below(
                            l.pid,
                            s.procs,
                            borrowed(&root),
                            s.own,
                        );
                        let ghost before = groups@;
                        let ghost known = opt_text(root);
                        add_port(&mut groups, anchor, l.port, root);
                        proof {
                            assert(!is_own(w, anchor)) by {
                                if let Some(d) = known {
                                    proctree::climb_stays_below(
                                        w.procs,
                                        own_session(w),
                                        d,
                                        l.pid,
                                        anchor,
                                    );
                                }
                            }
                            let now = agg_views(groups@);
                            lemma_with_port_anchors(agg_views(before), anchor, l.port, known);
                            assert forall|j: int| 0 <= j < groups@.len() implies !is_own(
                                w,
                                (#[trigger] groups@[j]).anchor,
                            ) by {
                                assert(now[j].anchor == groups@[j].anchor);
                                if j < before.len() {
                                    assert(!is_own(w, before[j].anchor));
                                }
                            }
                        }
                    }
                }
            },
            None => {},
        }
        i = i + 1;
    }
    proof {
        assert(listeners@.take(i as int) =~= listeners@);
    }
    groups
}

// --------------------------------------------------------------------- shares

/// A listening anchor takes a process in: the process is the anchor or works inside
/// the anchor's root.
pub open spec fn takes(m: Map<u32, ProcInfo>, groups: Seq<AggView>, a: u32, p: u32) -> bool {
    exists|i: int|
        0 <= i < groups.len() && (#[trigger] groups[i]).anchor == a && proctree::stays_in(
            m,
            groups[i].root,
            a,
            p,
        )
}

/// The listening anchors that take a process in.
pub open spec fn takers(m: Map<u32, ProcInfo>, groups: Seq<AggView>, p: u32) -> spec_fn(
    u32,
) -> bool {
    |a: u32| takes(m, groups, a, p)
}

/// A process is an anchor's: of the listening anchors that take it in, this one is the
/// nearest above it. Nothing of the session that asks is anyone's.
pub open spec fn belongs(w: World, groups: Seq<AggView>, a: u32, p: u32) -> bool {
    &&& proctree::is_nearest(proctree::to_parent(w.procs), takers(w.procs, groups, p), p, a)
    &&& !is_own(w, p)
}

/// The processes that are an anchor's.
pub open spec fn row_pids(w: World, groups: Seq<AggView>, a: u32) -> Seq<u32> {
    tree_of(w, a).filter(|p: u32| belongs(w, groups, a, p))
}

/// The groups with the processes shared out among their anchors.
pub open spec fn assigned(w: World, groups: Seq<AggView>) -> Seq<AggView> {
    groups.map_values(|g: AggView| AggView { pids: row_pids(w, groups, g.anchor), ..g })
}

struct Taking<'a> {
    procs: &'a ProcTable,
    groups: &'a [AnchorAgg],
    pid: u32,
}

impl<'a> PidTest for Taking<'a> {
    closed spec fn holds(&self, a: u32) -> bool {
        takes(self.procs@, agg_views(self.groups@), a, self.pid)
    }

    fn passes(&self, a: u32) -> (r: bool) {
        let ghost all = agg_views(self.groups@);
        let mut i: usize = 0;
        while i < self.groups.len()
            invariant
                i <= self.groups@.len(),
                all == agg_views(self.groups@),
                forall|j: int|
                    0 <= j < i ==> !((#[trigger] all[j]).anchor == a && proctree::stays_in(
                        self.procs@,
                        all[j].root,
                        a,
                        self.pid,
                    )),
            decreases self.groups@.len() - i,
        {
            let g = &self.groups[i];
            assert(all[i as int] == g@);
            if g.anchor == a && proctree::is_in_bounds(self.procs, borrowed(&g.root), a, self.pid) {
                return true;
            }
            i = i + 1;
        }
        false
    }
}

fn anchor_pids(s: &Scene, groups: &[AnchorAgg], a: u32) -> (r: Vec<u32>)
    requires
        s.wf(),
    ensures
        r@ == row_pids(s.world(), agg_views(groups@), a),
{
    let ghost w = s.world();
    let ghost gs = agg_views(groups@);
    let ghost keep = |p: u32| belongs(w, gs, a, p);
    let all = subtree(s, a);
    let mut out: Vec<u32> = Vec::new();
    let mut i: usize = 0;
    proof {
        reveal(Seq::filter);
        assert(out@ =~= all@.take(0).filter(keep));
    }
    while i < all.len()
        invariant
            i <= all@.len(),
            s.wf(),
            w == s.world(),
            gs == agg_views(groups@),
            keep == (|p: u32| belongs(w, gs, a, p)),
            out@ == all@.take(i as int).filter(keep),
        decreases all@.len() - i,
    {
        let p = all[i];
        proof {
            reveal(Seq::filter);
            assert(all@.take(i + 1).drop_last() =~= all@.take(i as int));
            assert(all@.take(i + 1).last() == p);
        }
        let test = Taking { procs: s.procs, groups, pid: p };
        let near = proctree::nearest(p, s.procs, &test);
        proof {
            assert(proctree::test_of(test) =~= takers(w.procs, gs, p));
            if let Some(b) = near {
                if belongs(w, gs, a, p) {
                    proctree::nearest_is_unique(
                        proctree::to_parent(w.procs),
                        takers(w.procs, gs, p),
                        p,
                        a,
                        b,
                    );
                }
            }
        }
        let mine = match near {
            Some(b) => b == a,
            None => false,
        };
        if mine && !s.own.contains(&p) {
            out.push(p);
        }
        i = i + 1;
    }
    proof {
        assert(all@.take(i as int) =~= all@);
    }
    out
}

/// Share the processes out among the anchors.
pub fn assign(s: &Scene, groups: &[AnchorAgg]) -> (r: Vec<AnchorAgg>)
    requires
        s.wf(),
    ensures
        agg_views(r@) == assigned(s.world(), agg_views(groups@)),
{
    let ghost w = s.world();
    let ghost gs = agg_views(groups@);
    let mut out: Vec<AnchorAgg> = Vec::new();
    let mut i: usize = 0;
    while i < groups.len()
        invariant
            i <= groups@.len(),
            s.wf(),
            w == s.world(),
            gs == agg_views(groups@),
            agg_views(out@) =~= assigned(w, gs).take(i as int),
        decreases groups@.len() - i,
    {
        let g = &groups[i];
        let ghost before = out@;
        let pids = anchor_pids(s, groups, g.anchor);
        let root = match &g.root {
            Some(r) => Some(r.clone()),
            None => None,
        };
        let mine = AnchorAgg { anchor: g.anchor, ports: g.ports.clone(), root, pids };
        proof {
            assert(gs[i as int] == g@);
            assert(mine.ports@ =~= g.ports@);
            assert(mine@ == assigned(w, gs)[i as int]);
        }
        out.push(mine);
        proof {
            assert(agg_views(out@) =~= agg_views(before).push(mine@));
        }
        i = i + 1;
    }
    out
}

// -------------------------------------------------------------- listener rows

/// The command line of a process, nothing for one that is gone.
pub open spec fn argv_of(w: World, p: u32) -> Seq<Seq<char>> {
    if w.procs.contains_key(p) {
        text::texts(w.procs[p].argv@)
    } else {
        Seq::empty()
    }
}

/// The working directory of a process, the empty path where there is none.
pub open spec fn dir_of(w: World, p: u32) -> Seq<char> {
    if w.procs.contains_key(p) {
        match opt_text(w.procs[p].cwd) {
            Some(c) => c,
            None => Seq::empty(),
        }
    } else {
        Seq::empty()
    }
}

/// The start time of a process, zero for one that is gone.
pub open spec fn start_of(w: World, p: u32) -> u64 {
    if w.procs.contains_key(p) {
        w.procs[p].start_time
    } else {
        0
    }
}

/// The command lines of some processes.
pub open spec fn lines_of_pids(w: World, pids: Seq<u32>) -> Seq<Seq<Seq<char>>> {
    proctree::command_lines(proctree::present(w.procs, pids))
}

/// Label and URL of a listener row before any override.
pub open spec fn row_label(w: World, g: AggView) -> (Seq<char>, Option<crate::model::UrlView>) {
    let argvs = lines_of_pids(w, g.pids);
    resolve::label_given(
        w.rules.cmd_rules@,
        resolve::all_cmd_hits(w.rules.cmd_rules@, argvs),
        argvs,
        Some(sorted_set(g.ports)[0]),
    )
}

/// The whole command line of an anchor.
pub open spec fn anchor_line(w: World, g: AggView) -> Seq<char> {
    text::joined(argv_of(w, g.anchor), " "@)
}

/// The user's rules hide a listener row, by its command line or by its label.
pub open spec fn row_hidden(w: World, g: AggView) -> bool {
    ignored(w, sorted_set(g.ports), anchor_line(w, g)) || ignored(
        w,
        sorted_set(g.ports),
        row_label(w, g).0,
    )
}

/// Project and label of a listener row after the first override that applies.
pub open spec fn row_pinned(w: World, g: AggView) -> (Seq<char>, Seq<char>) {
    resolve::overridden(
        w.rules.overrides@,
        resolve::override_hits(w.rules.overrides@, anchor_line(w, g)),
        Some(sorted_set(g.ports)[0]),
        project_at(w, g.root, dir_of(w, g.anchor)),
        row_label(w, g).0,
    )
}

/// The branch of a project root.
pub open spec fn branch_at(w: World, root: Option<Seq<char>>) -> Option<Seq<char>> {
    match root {
        Some(r) => lookup(w.branches, r),
        None => None,
    }
}

/// Some listener holds one of the ports on a non-loopback address.
pub open spec fn any_exposed(listeners: Seq<Listener>, ports: Seq<u16>) -> bool {
    exists|i: int|
        0 <= i < listeners.len() && (#[trigger] listeners[i]).exposed && ports.contains(
            listeners[i].port,
        )
}

/// The row of the listening ports under one anchor.
pub open spec fn listener_row(w: World, listeners: Seq<Listener>, g: AggView) -> TargetView {
    let ports = sorted_set(g.ports);
    let ps = proctree::present(w.procs, g.pids);
    let pinned = row_pinned(w, g);
    TargetView {
        key: KeyView::Port(ports[0]),
        kind: TargetKind::Listener,
        ports,
        anchor: Anchor { pid: g.anchor, start_time: start_of(w, g.anchor) },
        anchor_argv: argv_of(w, g.anchor),
        pid_starts: proctree::fingerprints(ps),
        pids: g.pids,
        project: grouped(w, ports, pinned.0, pinned.1),
        command_label: pinned.1,
        cwd: dir_of(w, g.anchor),
        git_branch: branch_at(w, g.root),
        cpu: capped(proctree::total_cpu(ps)),
        mem_bytes: capped(proctree::total_memory(ps)),
        url: row_label(w, g).1,
        exposed: any_exposed(listeners, ports),
        container: None,
    }
}

fn exposed_on(listeners: &[Listener], ports: &[u16]) -> (r: bool)
    ensures
        r == any_exposed(listeners@, ports@),
{
    let mut i: usize = 0;
    while i < listeners.len()
        invariant
            i <= listeners@.len(),
            forall|j: int|
                0 <= j < i ==> !((#[trigger] listeners@[j]).exposed && ports@.contains(
                    listeners@[j].port,
                )),
        decreases listeners@.len() - i,
    {
        let l = listeners[i];
        if l.exposed && has_port(ports, l.port) {
            assert(listeners@[i as int].exposed);
            return true;
        }
        i = i + 1;
    }
    false
}

/// The row of one anchor, unless the user's rules hide it.
pub fn listener_target(s: &Scene, listeners: &[Listener], g: &AnchorAgg) -> (r: Option<Target>)
    requires
        s.wf(),
        g.ports@.len() > 0,
    ensures
        match r {
            Some(t) => !row_hidden(s.world(), g@) && t@ == listener_row(
                s.world(),
                listeners@,
                g@,
            ),
            None => row_hidden(s.world(), g@),
        },
{
    let ghost w = s.world();
    let pids = g.pids.clone();
    assert(pids@ =~= g.pids@);
    let (cpu, mem_bytes) = proctree::rollup(pids.as_slice(), s.procs);
    let (anchor_argv, cwd, start_time) = match s.procs.get(g.anchor) {
        Some(p) => (
            clone_strings(&p.argv),
            match &p.cwd {
                Some(c) => c.clone(),
                None => String::new(),
            },
            p.start_time,
        ),
        None => (Vec::new(), String::new(), 0),
    };
    proof {
        assert(cwd@ =~= dir_of(w, g.anchor));
        assert(text::texts(anchor_argv@) =~= argv_of(w, g.anchor));
    }
    let ports = sort_dedup(g.ports.as_slice());
    proof {
        lemma_sorted_set(g.ports@);
    }
    let key_port = ports[0];
    let line = text::join(anchor_argv.as_slice(), " ");
    let argvs = proctree::subtree_argvs(pids.as_slice(), s.procs);
    let (label0, url) = s.rules.label_and_url(argvs.as_slice(), Some(key_port));
    assert((label0@, opt_url(url)) == row_label(w, g@));
    if s.rules.is_ignored(ports.as_slice(), line.as_str()) || s.rules.is_ignored(
        ports.as_slice(),
        label0.as_str(),
    ) {
        return None;
    }
    let mut label = label0;
    let mut project = project_name(s, &g.root, cwd.as_str());
    s.rules.apply_override(Some(key_port), line.as_str(), &mut project, &mut label);
    assert((project@, label@) == row_pinned(w, g@));
    let named = group_or(s, ports.as_slice(), project, label.as_str());
    let git_branch = match &g.root {
        Some(r) => s.branches.get(r.as_str()),
        None => None,
    };
    let exposed = exposed_on(listeners, ports.as_slice());
    let pid_starts = proctree::pid_starts(pids.as_slice(), s.procs);
    let t = Target {
        key: TargetKey::Port(key_port),
        kind: TargetKind::Listener,
        ports,
        anchor: Anchor { pid: g.anchor, start_time },
        anchor_argv,
        pid_starts,
        pids,
        project: named,
        command_label: label,
        cwd,
        git_branch,
        cpu,
        mem_bytes,
        url,
        exposed,
        container: None,
    };
    proof {
        assert(t@ =~= listener_row(w, listeners@, g@));
    }
    Some(t)
}

/// Two rows of one port as one: what is summed adds up, what identifies stays the
/// first row's.
pub open spec fn merged(base: TargetView, extra: TargetView) -> TargetView {
    TargetView {
        ports: sorted_set(base.ports + extra.ports),
        pids: base.pids + unseen(extra.pids, base.pids),
        pid_starts: base.pid_starts + unseen(extra.pid_starts, base.pid_starts),
        cpu: capped((base.cpu + extra.cpu) as nat),
        mem_bytes: capped((base.mem_bytes + extra.mem_bytes) as nat),
        exposed: base.exposed || extra.exposed,
        ..base
    }
}

fn add_pids(base: &mut Vec<u32>, extra: &[u32])
    ensures
        final(base)@ == old(base)@ + unseen(extra@, old(base)@),
{
    let ghost b0 = base@;
    let mut i: usize = 0;
    proof {
        assert(base@ =~= b0 + unseen(extra@.take(0), b0));
    }
    while i < extra.len()
        invariant
            i <= extra@.len(),
            base@ == b0 + unseen(extra@.take(i as int), b0),
        decreases extra@.len() - i,
    {
        let p = extra[i];
        let ghost f = unseen(extra@.take(i as int), b0);
        proof {
            assert(extra@.take(i + 1).drop_last() =~= extra@.take(i as int));
            assert(extra@.take(i + 1).last() == p);
        }
        let mut found = false;
        let mut k: usize = 0;
        while k < base.len()
            invariant
                k <= base@.len(),
                found == exists|j: int| 0 <= j < k && #[trigger] base@[j] == p,
            decreases base@.len() - k,
        {
            if base[k] == p {
                found = true;
                assert(base@[k as int] == p);
            }
            k = k + 1;
        }
        proof {
            assert(found == (b0.contains(p) || f.contains(p))) by {
                if found {
                    let j = choose|j: int| 0 <= j < base@.len() && #[trigger] base@[j] == p;
                    if j < b0.len() {
                        assert(b0[j] == p);
                    } else {
                        assert(f[j - b0.len()] == p);
                    }
                }
                if b0.contains(p) {
                    let j = choose|j: int| 0 <= j < b0.len() && b0[j] == p;
                    assert(base@[j] == p);
                }
                if f.contains(p) {
                    let j = choose|j: int| 0 <= j < f.len() && f[j] == p;
                    assert(base@[b0.len() + j] == p);
                }
            }
        }
        if !found {
            base.push(p);
            proof {
                assert(base@ =~= b0 + f.push(p));
            }
        }
        i = i + 1;
    }
    proof {
        assert(extra@.take(i as int) =~= extra@);
    }
}

fn add_starts(base: &mut Vec<(u32, u64)>, extra: &[(u32, u64)])
    ensures
        final(base)@ == old(base)@ + unseen(extra@, old(base)@),
{
    let ghost b0 = base@;
    let mut i: usize = 0;
    proof {
        assert(base@ =~= b0 + unseen(extra@.take(0), b0));
    }
    while i < extra.len()
        invariant
            i <= extra@.len(),
            base@ == b0 + unseen(extra@.take(i as int), b0),
        decreases extra@.len() - i,
    {
        let p = extra[i];
        let ghost f = unseen(extra@.take(i as int), b0);
        proof {
            assert(extra@.take(i + 1).drop_last() =~= extra@.take(i as int));
            assert(extra@.take(i + 1).last() == p);
        }
        let mut found = false;
        let mut k: usize = 0;
        while k < base.len()
            invariant
                k <= base@.len(),
                found == exists|j: int| 0 <= j < k && #[trigger] base@[j] == p,
            decreases base@.len() - k,
        {
            if base[k].0 == p.0 && base[k].1 == p.1 {
                found = true;
                assert(base@[k as int] == p);
            }
            k = k + 1;
        }
        proof {
            assert(found == (b0.contains(p) || f.contains(p))) by {
                if found {
                    let j = choose|j: int| 0 <= j < base@.len() && #[trigger] base@[j] == p;
                    if j < b0.len() {
                        assert(b0[j] == p);
                    } else {
                        assert(f[j - b0.len()] == p);
                    }
                }
                if b0.contains(p) {
                    let j = choose|j: int| 0 <= j < b0.len() && b0[j] == p;
                    assert(base@[j] == p);
                }
                if f.contains(p) {
                    let j = choose|j: int| 0 <= j < f.len() && f[j] == p;
                    assert(base@[b0.len() + j] == p);
                }
            }
        }
        if !found {
            base.push(p);
            proof {
                assert(base@ =~= b0 + f.push(p));
            }
        }
        i = i + 1;
    }
    proof {
        assert(extra@.take(i as int) =~= extra@);
    }
}

/// Fold `extra` into `base` when two anchors share a port.
pub fn merge_into(base: &mut Target, extra: Target)
    ensures
        final(base)@ == merged(old(base)@, extra@),
{
    let mut all: Vec<u16> = Vec::new();
    std::mem::swap(&mut all, &mut base.ports);
    let mut more = extra.ports;
    let ghost p0 = all@;
    let ghost p1 = more@;
    all.append(&mut more);
    base.ports = sort_dedup(all.as_slice());
    add_pids(&mut base.pids, extra.pids.as_slice());
    add_starts(&mut base.pid_starts, extra.pid_starts.as_slice());
    base.cpu = base.cpu.saturating_add(extra.cpu);
    base.mem_bytes = base.mem_bytes.saturating_add(extra.mem_bytes);
    base.exposed = base.exposed || extra.exposed;
    proof {
        assert(all@ =~= p0 + p1);
        assert(base@ =~= merged(old(base)@, extra@));
    }
}

/// Which rows have a key.
pub open spec fn key_hits(rows: Seq<TargetView>, key: KeyView) -> Seq<bool> {
    Seq::new(rows.len(), |i: int| rows[i].key == key)
}

/// The rows with one more: it is merged into the row that has its key already.
pub open spec fn with_row(rows: Seq<TargetView>, t: TargetView) -> Seq<TargetView> {
    match first_hit(key_hits(rows, t.key)) {
        Some(i) => rows.update(i, merged(rows[i], t)),
        None => rows.push(t),
    }
}

/// The listener rows of some anchors.
pub open spec fn listener_rows(w: World, listeners: Seq<Listener>, groups: Seq<AggView>) -> Seq<
    TargetView,
>
    decreases groups.len(),
{
    if groups.len() == 0 {
        Seq::empty()
    } else {
        let before = listener_rows(w, listeners, groups.drop_last());
        let g = groups.last();
        if row_hidden(w, g) {
            before
        } else {
            with_row(before, listener_row(w, listeners, g))
        }
    }
}

fn add_row(rows: &mut Vec<Target>, t: Target)
    ensures
        target_views(final(rows)@) == with_row(target_views(old(rows)@), t@),
{
    let ghost r0 = target_views(rows@);
    let ghost hits = key_hits(r0, t@.key);
    let mut i: usize = 0;
    while i < rows.len()
        invariant
            i <= rows@.len(),
            rows@ == old(rows)@,
            r0 == target_views(rows@),
            hits == key_hits(r0, t@.key),
            forall|j: int| 0 <= j < i ==> !#[trigger] hits[j],
        decreases rows@.len() - i,
    {
        let same = rows[i].key.same(&t.key);
        assert(hits[i as int] == same);
        if same {
            proof {
                lemma_is_first_hit(hits, i as int);
            }
            let ghost tv = t@;
            merge_into(&mut rows[i], t);
            proof {
                assert(target_views(rows@) =~= with_row(r0, tv));
            }
            return;
        }
        i = i + 1;
    }
    proof {
        lemma_first_hit(hits);
    }
    rows.push(t);
    proof {
        assert(target_views(rows@) =~= with_row(r0, t@));
    }
}

/// Every group has a port.
pub open spec fn have_ports(groups: Seq<AggView>) -> bool {
    forall|i: int| 0 <= i < groups.len() ==> (#[trigger] groups[i]).ports.len() > 0
}

pub proof fn lemma_gathered_have_ports(w: World, listeners: Seq<Listener>)
    ensures
        have_ports(gathered(w, listeners)),
    decreases listeners.len(),
{
    if listeners.len() > 0 {
        let before = gathered(w, listeners.drop_last());
        lemma_gathered_have_ports(w, listeners.drop_last());
        let l = listeners.last();
        if counts(w, l) {
            let a = listener_anchor(w, l);
            let after = with_port(before, a, l.port, listener_root(w, l));
            lemma_first_hit(agg_hits(before, a));
            assert forall|i: int| 0 <= i < after.len() implies (#[trigger] after[i]).ports.len()
                > 0 by {
                if i < before.len() {
                    assert(before[i].ports.len() > 0);
                }
            }
        }
    }
}

pub proof fn lemma_assigned_have_ports(w: World, groups: Seq<AggView>)
    requires
        have_ports(groups),
    ensures
        have_ports(assigned(w, groups)),
{
    let after = assigned(w, groups);
    assert forall|i: int| 0 <= i < after.len() implies (#[trigger] after[i]).ports.len() > 0 by {
        assert(groups[i].ports.len() > 0);
    }
}

/// The listener rows of the anchors found.
pub fn listener_targets(s: &Scene, listeners: &[Listener], groups: &[AnchorAgg]) -> (r: Vec<Target>)
    requires
        s.wf(),
        have_ports(agg_views(groups@)),
    ensures
        target_views(r@) == listener_rows(s.world(), listeners@, agg_views(groups@)),
{
    let ghost w = s.world();
    let ghost all = agg_views(groups@);
    let mut rows: Vec<Target> = Vec::new();
    let mut i: usize = 0;
    proof {
        assert(target_views(rows@) =~= listener_rows(w, listeners@, all.take(0)));
    }
    while i < groups.len()
        invariant
            i <= groups@.len(),
            s.wf(),
            w == s.world(),
            all == agg_views(groups@),
            have_ports(all),
            target_views(rows@) == listener_rows(w, listeners@, all.take(i as int)),
        decreases groups@.len() - i,
    {
        proof {
            assert(all.take(i + 1).drop_last() =~= all.take(i as int));
            assert(all.take(i + 1).last() == groups@[i as int]@);
            assert(all[i as int].ports.len() > 0);
        }
        match listener_target(s, listeners, &groups[i]) {
            Some(t) => add_row(&mut rows, t),
            None => {},
        }
        i = i + 1;
    }
    proof {
        assert(all.take(i as int) =~= all);
    }
    rows
}

// --------------------------------------------------------------- watched rows

/// The process is an anchor's, whether the row of that anchor is hidden or not.
pub open spec fn is_claimed(groups: Seq<AggView>, p: u32) -> bool {
    exists|i: int| 0 <= i < groups.len() && (#[trigger] groups[i]).pids.contains(p)
}

/// The processes that are the anchors'.
pub fn claimed(groups: &[AnchorAgg]) -> (r: HashSet<u32>)
    ensures
        forall|p: u32| #[trigger] r@.contains(p) <==> is_claimed(agg_views(groups@), p),
{
    let ghost all = agg_views(groups@);
    let mut set: HashSet<u32> = HashSet::new();
    let mut i: usize = 0;
    while i < groups.len()
        invariant
            i <= groups@.len(),
            all == agg_views(groups@),
            forall|p: u32| #[trigger] set@.contains(p) <==> is_claimed(all.take(i as int), p),
        decreases groups@.len() - i,
    {
        let ghost set0 = set@;
        let pids = &groups[i].pids;
        let mut k: usize = 0;
        while k < pids.len()
            invariant
                k <= pids@.len(),
                forall|p: u32| #[trigger]
                    set@.contains(p) <==> set0.contains(p) || pids@.take(k as int).contains(p),
            decreases pids@.len() - k,
        {
            let ghost set1 = set@;
            set.insert(pids[k]);
            proof {
                assert forall|p: u32| #[trigger] set@.contains(p) <==> set0.contains(p)
                    || pids@.take(k + 1).contains(p) by {
                    let t = pids@.take(k as int);
                    let t1 = pids@.take(k + 1);
                    assert(t1[k as int] == pids@[k as int]);
                    if t.contains(p) {
                        let a = choose|a: int| 0 <= a < t.len() && t[a] == p;
                        assert(t1[a] == p);
                    }
                    if t1.contains(p) && p != pids@[k as int] {
                        let a = choose|a: int| 0 <= a < t1.len() && t1[a] == p;
                        assert(t[a] == p);
                    }
                    assert(set@.contains(p) <==> set1.contains(p) || p == pids@[k as int]);
                }
            }
            k = k + 1;
        }
        proof {
            assert(pids@.take(k as int) =~= pids@);
            let b = all.take(i as int);
            let a = all.take(i + 1);
            assert(a[i as int].pids == pids@);
            assert forall|p: u32| #[trigger] set@.contains(p) <==> is_claimed(a, p) by {
                if is_claimed(b, p) {
                    let j = choose|j: int| 0 <= j < b.len() && (#[trigger] b[j]).pids.contains(p);
                    assert(a[j] == b[j]);
                }
                if is_claimed(a, p) {
                    let j = choose|j: int| 0 <= j < a.len() && (#[trigger] a[j]).pids.contains(p);
                    if j < i {
                        assert(b[j] == a[j]);
                    }
                }
                assert(set0.contains(p) <==> is_claimed(b, p));
            }
        }
        i = i + 1;
    }
    proof {
        assert(all.take(i as int) =~= all);
    }
    set
}

/// Watchers of one identity.
pub struct WatchAgg {
    pub anchor: Anchor,
    pub argv: Vec<String>,
    pub project: String,
    pub label: String,
    pub cwd: String,
    pub pids: Vec<u32>,
}

#[verifier::ext_equal]
pub struct WatchView {
    pub anchor: Anchor,
    pub argv: Seq<Seq<char>>,
    pub project: Seq<char>,
    pub label: Seq<char>,
    pub cwd: Seq<char>,
    pub pids: Seq<u32>,
}

impl View for WatchAgg {
    type V = WatchView;

    open spec fn view(&self) -> WatchView {
        WatchView {
            anchor: self.anchor,
            argv: text::texts(self.argv@),
            project: self.project@,
            label: self.label@,
            cwd: self.cwd@,
            pids: self.pids@,
        }
    }
}

pub open spec fn watch_views(v: Seq<WatchAgg>) -> Seq<WatchView> {
    v.map_values(|a: WatchAgg| a@)
}

/// The whole command line of a process.
pub open spec fn line_of(p: ProcInfo) -> Seq<char> {
    text::joined(text::texts(p.argv@), " "@)
}

/// The label of a process as a watcher, if it is one.
pub open spec fn watcher_of(w: World, p: ProcInfo) -> Option<Seq<char>> {
    resolve::watcher_given(
        w.rules.watch_rules@,
        resolve::watch_hits(w.rules.watch_rules@, line_of(p)),
        text::texts(p.argv@),
    )
}

/// A process that starts a watched row: it is no listening anchor's, it is no shell and
/// not of the own session, and it is a watcher that no rule hides.
pub open spec fn watches(w: World, groups: Seq<AggView>, p: ProcInfo) -> bool {
    &&& !is_claimed(groups, p.pid)
    &&& !resolve::names_shell(p.name@)
    &&& !is_own(w, p.pid)
    &&& watcher_of(w, p) is Some
    &&& !ignored(w, Seq::empty(), line_of(p))
}

/// The processes that start watched rows.
pub open spec fn watching(w: World, groups: Seq<AggView>) -> spec_fn(u32) -> bool {
    |a: u32| w.procs.contains_key(a) && watches(w, groups, w.procs[a])
}

/// A process is a watcher's: that watcher is the nearest above it, and the process is
/// neither a listening anchor's nor of the session that asks.
pub open spec fn follows(w: World, groups: Seq<AggView>, a: u32, p: u32) -> bool {
    &&& proctree::is_nearest(proctree::to_parent(w.procs), watching(w, groups), p, a)
    &&& !is_claimed(groups, p)
    &&& !is_own(w, p)
}

/// The processes that are a watcher's.
pub open spec fn watch_pids(w: World, groups: Seq<AggView>, a: u32) -> Seq<u32> {
    tree_of(w, a).filter(|p: u32| follows(w, groups, a, p))
}

/// What a watcher says of itself.
pub open spec fn watcher_row(w: World, groups: Seq<AggView>, p: ProcInfo) -> WatchView {
    let label = watcher_of(w, p)->0;
    let cwd = match opt_text(p.cwd) {
        Some(c) => c,
        None => Seq::empty(),
    };
    WatchView {
        anchor: Anchor { pid: p.pid, start_time: p.start_time },
        argv: text::texts(p.argv@),
        project: grouped(
            w,
            Seq::empty(),
            project_at(w, root_at(w, opt_text(p.cwd)), cwd),
            label,
        ),
        label,
        cwd,
        pids: watch_pids(w, groups, p.pid),
    }
}

/// Two watchers have one identity.
pub open spec fn same_watch(a: WatchView, b: WatchView) -> bool {
    a.project == b.project && a.label == b.label && a.cwd == b.cwd
}

/// Which aggregates have the identity of a watcher.
pub open spec fn watch_places(aggs: Seq<WatchView>, v: WatchView) -> Seq<bool> {
    Seq::new(aggs.len(), |i: int| same_watch(aggs[i], v))
}

/// A watcher joins the one that came first with its identity; every process counts
/// once.
pub open spec fn with_watcher(aggs: Seq<WatchView>, v: WatchView) -> Seq<WatchView> {
    match first_hit(watch_places(aggs, v)) {
        Some(i) => aggs.update(
            i,
            WatchView { pids: aggs[i].pids + unseen(v.pids, aggs[i].pids), ..aggs[i] },
        ),
        None => aggs.push(v),
    }
}

/// The watchers among some processes, by identity.
pub open spec fn watchers(w: World, groups: Seq<AggView>, pids: Seq<u32>) -> Seq<WatchView>
    decreases pids.len(),
{
    if pids.len() == 0 {
        Seq::empty()
    } else {
        let before = watchers(w, groups, pids.drop_last());
        let p = w.procs[pids.last()];
        if watches(w, groups, p) {
            with_watcher(before, watcher_row(w, groups, p))
        } else {
            before
        }
    }
}

fn add_watcher(aggs: &mut Vec<WatchAgg>, v: WatchAgg)
    ensures
        watch_views(final(aggs)@) == with_watcher(watch_views(old(aggs)@), v@),
{
    let ghost a0 = watch_views(aggs@);
    let ghost hits = watch_places(a0, v@);
    let mut i: usize = 0;
    while i < aggs.len()
        invariant
            i <= aggs@.len(),
            aggs@ == old(aggs)@,
            a0 == watch_views(aggs@),
            hits == watch_places(a0, v@),
            forall|j: int| 0 <= j < i ==> !#[trigger] hits[j],
        decreases aggs@.len() - i,
    {
        let same = text::same(aggs[i].project.as_str(), v.project.as_str()) && text::same(
            aggs[i].label.as_str(),
            v.label.as_str(),
        ) && text::same(aggs[i].cwd.as_str(), v.cwd.as_str());
        assert(hits[i as int] == same);
        if same {
            proof {
                lemma_is_first_hit(hits, i as int);
            }
            add_pids(&mut aggs[i].pids, v.pids.as_slice());
            proof {
                assert(watch_views(aggs@) =~= with_watcher(a0, v@));
            }
            return;
        }
        i = i + 1;
    }
    proof {
        lemma_first_hit(hits);
    }
    aggs.push(v);
    proof {
        assert(watch_views(aggs@) =~= with_watcher(a0, v@));
    }
}

struct Watching<'a> {
    pids: &'a HashSet<u32>,
}

impl<'a> PidTest for Watching<'a> {
    closed spec fn holds(&self, a: u32) -> bool {
        self.pids@.contains(a)
    }

    fn passes(&self, a: u32) -> (r: bool) {
        self.pids.contains(&a)
    }
}

/// What finding watchers goes by: the processes that are taken, and the watchers.
struct Watch<'a> {
    taken: &'a HashSet<u32>,
    pids: &'a HashSet<u32>,
}

impl<'a> Watch<'a> {
    spec fn fits(&self, w: World, groups: Seq<AggView>) -> bool {
        &&& forall|q: u32| #[trigger] self.taken@.contains(q) <==> is_claimed(groups, q)
        &&& forall|q: u32| #[trigger] self.pids@.contains(q) <==> watching(w, groups)(q)
    }
}

fn follower_pids(s: &Scene, found: &Watch, a: u32, Ghost(groups): Ghost<Seq<AggView>>) -> (r: Vec<
    u32,
>)
    requires
        s.wf(),
        found.fits(s.world(), groups),
    ensures
        r@ == watch_pids(s.world(), groups, a),
{
    let ghost w = s.world();
    let ghost keep = |p: u32| follows(w, groups, a, p);
    let all = subtree(s, a);
    let test = Watching { pids: found.pids };
    let mut out: Vec<u32> = Vec::new();
    let mut i: usize = 0;
    proof {
        reveal(Seq::filter);
        assert(out@ =~= all@.take(0).filter(keep));
        assert(proctree::test_of(test) =~= watching(w, groups));
    }
    while i < all.len()
        invariant
            i <= all@.len(),
            s.wf(),
            w == s.world(),
            found.fits(w, groups),
            proctree::test_of(test) == watching(w, groups),
            keep == (|p: u32| follows(w, groups, a, p)),
            out@ == all@.take(i as int).filter(keep),
        decreases all@.len() - i,
    {
        let p = all[i];
        proof {
            reveal(Seq::filter);
            assert(all@.take(i + 1).drop_last() =~= all@.take(i as int));
            assert(all@.take(i + 1).last() == p);
        }
        let near = proctree::nearest(p, s.procs, &test);
        proof {
            if let Some(b) = near {
                if follows(w, groups, a, p) {
                    proctree::nearest_is_unique(
                        proctree::to_parent(w.procs),
                        watching(w, groups),
                        p,
                        a,
                        b,
                    );
                }
            }
        }
        let mine = match near {
            Some(b) => b == a,
            None => false,
        };
        if mine && !found.taken.contains(&p) && !s.own.contains(&p) {
            out.push(p);
        }
        i = i + 1;
    }
    proof {
        assert(all@.take(i as int) =~= all@);
    }
    out
}

fn watch_label(
    s: &Scene,
    taken: &HashSet<u32>,
    p: &ProcInfo,
    Ghost(groups): Ghost<Seq<AggView>>,
) -> (r: Option<String>)
    requires
        s.wf(),
        forall|q: u32| #[trigger] taken@.contains(q) <==> is_claimed(groups, q),
    ensures
        match r {
            Some(l) => watches(s.world(), groups, *p) && Some(l@) == watcher_of(s.world(), *p),
            None => !watches(s.world(), groups, *p),
        },
{
    if taken.contains(&p.pid) || resolve::is_shell(p.name.as_str()) || s.own.contains(&p.pid) {
        return None;
    }
    let label = match s.rules.watcher_label(p.argv.as_slice()) {
        Some(l) => l,
        None => return None,
    };
    let line = text::join(p.argv.as_slice(), " ");
    let none: Vec<u16> = Vec::new();
    assert(none@ =~= Seq::<u16>::empty());
    if s.rules.is_ignored(none.as_slice(), line.as_str()) {
        return None;
    }
    Some(label)
}

fn watcher(
    s: &Scene,
    found: &Watch,
    p: &ProcInfo,
    label: String,
    Ghost(groups): Ghost<Seq<AggView>>,
) -> (r: WatchAgg)
    requires
        s.wf(),
        found.fits(s.world(), groups),
        watcher_of(s.world(), *p) == Some(label@),
    ensures
        r@ == watcher_row(s.world(), groups, *p),
{
    let ghost w = s.world();
    let none: Vec<u16> = Vec::new();
    assert(none@ =~= Seq::<u16>::empty());
    let root = root_of(s, &p.cwd);
    let cwd = match &p.cwd {
        Some(c) => c.clone(),
        None => String::new(),
    };
    let project = project_name(s, &root, cwd.as_str());
    let named = group_or(s, none.as_slice(), project, label.as_str());
    let pids = follower_pids(s, found, p.pid, Ghost(groups));
    let v = WatchAgg {
        anchor: Anchor { pid: p.pid, start_time: p.start_time },
        argv: clone_strings(&p.argv),
        project: named,
        label,
        cwd,
        pids,
    };
    proof {
        assert(v.cwd@ =~= watcher_row(w, groups, *p).cwd);
        assert(v@ =~= watcher_row(w, groups, *p));
    }
    v
}

/// The label of a process that starts a watched row.
pub open spec fn label_if_watching(w: World, groups: Seq<AggView>, p: u32) -> Option<Seq<char>> {
    if watches(w, groups, w.procs[p]) {
        watcher_of(w, w.procs[p])
    } else {
        None
    }
}

fn watch_labels(s: &Scene, taken: &HashSet<u32>, Ghost(groups): Ghost<Seq<AggView>>) -> (r: (
    Vec<Option<String>>,
    HashSet<u32>,
))
    requires
        s.wf(),
        forall|q: u32| #[trigger] taken@.contains(q) <==> is_claimed(groups, q),
    ensures
        r.0@.len() == s.world().order.len(),
        forall|i: int|
            0 <= i < r.0@.len() ==> opt_text(#[trigger] r.0@[i]) == label_if_watching(
                s.world(),
                groups,
                s.world().order[i],
            ),
        forall|q: u32| #[trigger] r.1@.contains(q) <==> watching(s.world(), groups)(q),
{
    let ghost w = s.world();
    let n = s.procs.len();
    let mut labels: Vec<Option<String>> = Vec::new();
    let mut pids: HashSet<u32> = HashSet::new();
    let mut i: usize = 0;
    while i < n
        invariant
            i <= n,
            n == w.order.len(),
            s.wf(),
            w == s.world(),
            forall|q: u32| #[trigger] taken@.contains(q) <==> is_claimed(groups, q),
            labels@.len() == i,
            forall|j: int|
                0 <= j < i ==> opt_text(#[trigger] labels@[j]) == label_if_watching(
                    w,
                    groups,
                    w.order[j],
                ),
            forall|q: u32| #[trigger]
                pids@.contains(q) <==> watching(w, groups)(q) && w.order.take(i as int).contains(q),
        decreases n - i,
    {
        let p = s.procs.at(i);
        let ghost before = pids@;
        proof {
            assert(w.order[i as int] == p.pid);
            assert(w.order.to_set().contains(p.pid));
            assert(w.procs.contains_key(p.pid));
        }
        let label = watch_label(s, taken, p, Ghost(groups));
        if label.is_some() {
            pids.insert(p.pid);
        }
        labels.push(label);
        proof {
            let t = w.order.take(i as int);
            let t1 = w.order.take(i + 1);
            assert(t1[i as int] == p.pid);
            assert forall|q: u32| #[trigger] pids@.contains(q) <==> watching(w, groups)(q)
                && t1.contains(q) by {
                if t.contains(q) {
                    let k = choose|k: int| 0 <= k < t.len() && t[k] == q;
                    assert(t1[k] == q);
                }
                if t1.contains(q) && q != p.pid {
                    let k = choose|k: int| 0 <= k < t1.len() && t1[k] == q;
                    assert(t[k] == q);
                }
                assert(before.contains(q) <==> watching(w, groups)(q) && t.contains(q));
            }
        }
        i = i + 1;
    }
    proof {
        assert(w.order.take(i as int) =~= w.order);
        assert forall|q: u32| #[trigger] pids@.contains(q) <==> watching(w, groups)(q) by {
            if watching(w, groups)(q) {
                assert(w.procs.dom().contains(q));
                assert(w.order.to_set().contains(q));
            }
        }
    }
    (labels, pids)
}

/// The watchers, by identity, in the order of the process table.
pub fn find_watchers(s: &Scene, groups: &[AnchorAgg]) -> (r: Vec<WatchAgg>)
    requires
        s.wf(),
    ensures
        watch_views(r@) == watchers(s.world(), agg_views(groups@), s.world().order),
{
    let ghost w = s.world();
    let ghost gs = agg_views(groups@);
    let taken = claimed(groups);
    let (labels, pids) = watch_labels(s, &taken, Ghost(gs));
    let found = Watch { taken: &taken, pids: &pids };
    let n = s.procs.len();
    let mut aggs: Vec<WatchAgg> = Vec::new();
    let mut i: usize = 0;
    proof {
        assert(watch_views(aggs@) =~= watchers(w, gs, w.order.take(0)));
    }
    while i < n
        invariant
            i <= n,
            n == w.order.len(),
            s.wf(),
            w == s.world(),
            gs == agg_views(groups@),
            found.fits(w, gs),
            labels@.len() == n,
            forall|j: int|
                0 <= j < n ==> opt_text(#[trigger] labels@[j]) == label_if_watching(
                    w,
                    gs,
                    w.order[j],
                ),
            watch_views(aggs@) == watchers(w, gs, w.order.take(i as int)),
        decreases n - i,
    {
        let p = s.procs.at(i);
        proof {
            assert(w.order.take(i + 1).drop_last() =~= w.order.take(i as int));
            assert(w.order.take(i + 1).last() == p.pid);
            assert(opt_text(labels@[i as int]) == label_if_watching(w, gs, p.pid));
        }
        match &labels[i] {
            Some(l) => {
                let v = watcher(s, &found, p, l.clone(), Ghost(gs));
                add_watcher(&mut aggs, v);
            },
            None => {},
        }
        i = i + 1;
    }
    proof {
        assert(w.order.take(i as int) =~= w.order);
    }
    aggs
}

/// The row of the watchers of one identity.
pub open spec fn watched_row(w: World, v: WatchView) -> TargetView {
    let ps = proctree::present(w.procs, v.pids);
    TargetView {
        key: KeyView::Command { project: v.project, label: v.label, cwd: v.cwd },
        kind: TargetKind::Watched,
        ports: Seq::empty(),
        anchor: v.anchor,
        anchor_argv: v.argv,
        pid_starts: proctree::fingerprints(ps),
        pids: v.pids,
        project: v.project,
        command_label: v.label,
        cwd: v.cwd,
        git_branch: None,
        cpu: capped(proctree::total_cpu(ps)),
        mem_bytes: capped(proctree::total_memory(ps)),
        url: None,
        exposed: false,
        container: None,
    }
}

pub open spec fn watched_rows(w: World, aggs: Seq<WatchView>) -> Seq<TargetView> {
    aggs.map_values(|v: WatchView| watched_row(w, v))
}

fn watched_target(s: &Scene, v: WatchAgg) -> (r: Target)
    ensures
        r@ == watched_row(s.world(), v@),
{
    let (cpu, mem_bytes) = proctree::rollup(v.pids.as_slice(), s.procs);
    let pid_starts = proctree::pid_starts(v.pids.as_slice(), s.procs);
    let t = Target {
        key: TargetKey::Command {
            project: v.project.clone(),
            label: v.label.clone(),
            cwd: v.cwd.clone(),
        },
        kind: TargetKind::Watched,
        ports: Vec::new(),
        anchor: v.anchor,
        anchor_argv: v.argv,
        pid_starts,
        pids: v.pids,
        project: v.project,
        command_label: v.label,
        cwd: v.cwd,
        git_branch: None,
        cpu,
        mem_bytes,
        url: None,
        exposed: false,
        container: None,
    };
    proof {
        assert(t@ =~= watched_row(s.world(), v@));
    }
    t
}

/// Append the rows of the watchers.
pub fn add_watched(s: &Scene, aggs: Vec<WatchAgg>, rows: &mut Vec<Target>)
    ensures
        target_views(final(rows)@) == target_views(old(rows)@) + watched_rows(
            s.world(),
            watch_views(aggs@),
        ),
{
    let ghost w = s.world();
    let ghost all = watch_views(aggs@);
    let ghost r0 = target_views(rows@);
    let ghost goal = watched_rows(w, all);
    proof {
        assert(target_views(rows@) =~= r0 + goal.take(0));
    }
    for v in it: aggs
        invariant
            w == s.world(),
            watch_views(it.seq()) == all,
            goal == watched_rows(w, all),
            target_views(rows@) == r0 + goal.take(it.index() as int),
    {
        let ghost k = it.index() as int;
        let ghost before = rows@;
        assert(all[k] == v@);
        let t = watched_target(s, v);
        rows.push(t);
        proof {
            assert(goal[k] == t@);
            assert(target_views(rows@) =~= target_views(before).push(t@));
            assert(target_views(rows@) =~= r0 + goal.take(k + 1));
        }
    }
    proof {
        assert(goal.take(goal.len() as int) =~= goal);
    }
}

// ---------------------------------------------------------------- docker rows

/// The published container ports among some listeners.
pub open spec fn docker_listed(w: World, listeners: Seq<Listener>) -> Seq<u16>
    decreases listeners.len(),
{
    if listeners.len() == 0 {
        Seq::empty()
    } else {
        let before = docker_listed(w, listeners.drop_last());
        if is_docker(w, listeners.last()) {
            before.push(listeners.last().port)
        } else {
            before
        }
    }
}

/// The published container ports among the listeners, in increasing order.
pub fn docker_ports(s: &Scene, listeners: &[Listener]) -> (r: Vec<u16>)
    requires
        s.wf(),
    ensures
        r@ == sorted_set(docker_listed(s.world(), listeners@)),
{
    let ghost w = s.world();
    let mut out: Vec<u16> = Vec::new();
    let mut i: usize = 0;
    while i < listeners.len()
        invariant
            i <= listeners@.len(),
            s.wf(),
            w == s.world(),
            out@ == docker_listed(w, listeners@.take(i as int)),
        decreases listeners@.len() - i,
    {
        let l = listeners[i];
        proof {
            assert(listeners@.take(i + 1).drop_last() =~= listeners@.take(i as int));
            assert(listeners@.take(i + 1).last() == l);
        }
        match s.procs.get(l.pid) {
            Some(p) => {
                if !s.own.contains(&l.pid) && docker::is_binder(p.name.as_str()) {
                    out.push(l.port);
                }
            },
            None => {},
        }
        i = i + 1;
    }
    proof {
        assert(listeners@.take(i as int) =~= listeners@);
    }
    sort_dedup(out.as_slice())
}

/// The row of a published container port.
pub open spec fn docker_row(w: World, port: u16, c: docker::ContainerView) -> TargetView {
    TargetView {
        key: KeyView::Port(port),
        kind: TargetKind::Listener,
        ports: seq![port],
        anchor: Anchor { pid: 0, start_time: 0 },
        anchor_argv: Seq::empty(),
        pid_starts: Seq::empty(),
        pids: Seq::empty(),
        project: grouped(w, seq![port], c.name, c.image),
        command_label: c.image,
        cwd: Seq::empty(),
        git_branch: None,
        cpu: 0,
        mem_bytes: 0,
        url: Some(resolve::standard_url(c.image, port)),
        exposed: c.exposed,
        container: Some(c.name),
    }
}

/// A container port shows a row: its container is known and no rule hides it.
pub open spec fn docker_shows(
    w: World,
    containers: Map<u16, docker::ContainerView>,
    port: u16,
) -> bool {
    &&& containers.contains_key(port)
    &&& !ignored(w, seq![port], containers[port].image)
    &&& !ignored(w, seq![port], containers[port].name)
}

/// The rows of some container ports.
pub open spec fn docker_rows(
    w: World,
    containers: Map<u16, docker::ContainerView>,
    ports: Seq<u16>,
) -> Seq<TargetView>
    decreases ports.len(),
{
    if ports.len() == 0 {
        Seq::empty()
    } else {
        let before = docker_rows(w, containers, ports.drop_last());
        if docker_shows(w, containers, ports.last()) {
            before.push(docker_row(w, ports.last(), containers[ports.last()]))
        } else {
            before
        }
    }
}

fn docker_target(s: &Scene, port: u16, c: &docker::ContainerPort) -> (r: Option<Target>)
    ensures
        match r {
            Some(t) => !ignored(s.world(), seq![port], c.image@) && !ignored(
                s.world(),
                seq![port],
                c.name@,
            ) && t@ == docker_row(s.world(), port, c@),
            None => ignored(s.world(), seq![port], c.image@) || ignored(
                s.world(),
                seq![port],
                c.name@,
            ),
        },
{
    let mut ports: Vec<u16> = Vec::new();
    ports.push(port);
    assert(ports@ =~= seq![port]);
    if s.rules.is_ignored(ports.as_slice(), c.image.as_str()) || s.rules.is_ignored(
        ports.as_slice(),
        c.name.as_str(),
    ) {
        return None;
    }
    let project = group_or(s, ports.as_slice(), c.name.clone(), c.image.as_str());
    let url = resolve::default_url(c.image.as_str(), port);
    let t = Target {
        key: TargetKey::Port(port),
        kind: TargetKind::Listener,
        ports,
        anchor: Anchor { pid: 0, start_time: 0 },
        anchor_argv: Vec::new(),
        pid_starts: Vec::new(),
        pids: Vec::new(),
        project,
        command_label: c.image.clone(),
        cwd: String::new(),
        git_branch: None,
        cpu: 0,
        mem_bytes: 0,
        url,
        exposed: c.exposed,
        container: Some(c.name.clone()),
    };
    proof {
        assert(t@ =~= docker_row(s.world(), port, c@));
    }
    Some(t)
}

/// Append the rows of container ports.
pub fn add_docker(
    s: &Scene,
    containers: &HashMap<u16, docker::ContainerPort>,
    ports: &[u16],
    rows: &mut Vec<Target>,
)
    ensures
        target_views(final(rows)@) == target_views(old(rows)@) + docker_rows(
            s.world(),
            docker::container_views(containers@),
            ports@,
        ),
{
    let ghost w = s.world();
    let ghost cs = docker::container_views(containers@);
    let ghost r0 = target_views(rows@);
    let mut i: usize = 0;
    proof {
        assert(target_views(rows@) =~= r0 + docker_rows(w, cs, ports@.take(0)));
    }
    while i < ports.len()
        invariant
            i <= ports@.len(),
            w == s.world(),
            cs == docker::container_views(containers@),
            target_views(rows@) == r0 + docker_rows(w, cs, ports@.take(i as int)),
        decreases ports@.len() - i,
    {
        let port = ports[i];
        let ghost before = docker_rows(w, cs, ports@.take(i as int));
        let ghost rows0 = rows@;
        proof {
            assert(ports@.take(i + 1).drop_last() =~= ports@.take(i as int));
            assert(ports@.take(i + 1).last() == port);
        }
        match containers.get(&port) {
            Some(c) => {
                assert(cs.contains_key(port) && cs[port] == c@);
                match docker_target(s, port, c) {
                    Some(t) => {
                        rows.push(t);
                        proof {
                            assert(target_views(rows@) =~= target_views(rows0).push(t@));
                            assert(target_views(rows@) =~= r0 + before.push(t@));
                        }
                    },
                    None => {},
                }
            },
            None => {
                assert(!cs.contains_key(port));
            },
        }
        i = i + 1;
    }
    proof {
        assert(ports@.take(i as int) =~= ports@);
    }
}

// ------------------------------------------------------------------- all rows

/// The rows of a world: listeners by anchor, then watchers, then containers.
pub open spec fn rows(
    w: World,
    listeners: Seq<Listener>,
    containers: Map<u16, docker::ContainerView>,
) -> Seq<TargetView> {
    let groups = assigned(w, gathered(w, listeners));
    listener_rows(w, listeners, groups) + watched_rows(w, watchers(w, groups, w.order))
        + docker_rows(w, containers, sorted_set(docker_listed(w, listeners)))
}

/// Find every row.
pub fn discover(
    s: &Scene,
    listeners: &[Listener],
    containers: &HashMap<u16, docker::ContainerPort>,
) -> (r: Vec<Target>)
    requires
        s.wf(),
    ensures
        target_views(r@) == rows(
            s.world(),
            listeners@,
            docker::container_views(containers@),
        ),
{
    let gathered = gather(s, listeners);
    let groups = assign(s, gathered.as_slice());
    proof {
        lemma_gathered_have_ports(s.world(), listeners@);
        lemma_assigned_have_ports(s.world(), agg_views(gathered@));
    }
    let mut out = listener_targets(s, listeners, groups.as_slice());
    let aggs = find_watchers(s, groups.as_slice());
    add_watched(s, aggs, &mut out);
    let ports = docker_ports(s, listeners);
    add_docker(s, containers, ports.as_slice(), &mut out);
    out
}

} // verus!
