//! The sampler: turns listeners and process facts into snapshots, remembers what it
//! learned of the disk until the set of targets changes, and paces itself.
use std::collections::HashMap;
use vstd::prelude::*;

use crate::discover;
use crate::discover::{is_foreign, is_own, line_of, rows, watcher_of, Scene, World};
use crate::docker;
use crate::model::{
    key_views, opt_text, target_views, KeyView, Snapshot, Target, TargetKey, TargetView,
};
use crate::proctree;
use crate::resolve;
use crate::resolve::Resolver;
use crate::smoothing::{anchors, blended, fingerprint, kept, last_or, Smoothing};
use crate::sources::{Listener, ProcTable};
use crate::text;
use crate::textmap::{has_text, TextMap};

verus! {

// ------------------------------------------------------------------ smoothing

/// The figures and the rows after the CPU of each row was smoothed in turn.
pub open spec fn smoothed(m: Map<(u32, u64), u64>, found: Seq<TargetView>) -> (
    Map<(u32, u64), u64>,
    Seq<TargetView>,
)
    decreases found.len(),
{
    if found.len() == 0 {
        (m, found)
    } else {
        let before = smoothed(m, found.drop_last());
        let t = found.last();
        let key = fingerprint(t.anchor);
        let cpu = blended(t.cpu, last_or(before.0, key, t.cpu));
        (before.0.insert(key, cpu), before.1.push(TargetView { cpu, ..t }))
    }
}

fn smooth_all(ewma: &mut Smoothing, found: Vec<Target>) -> (r: Vec<Target>)
    ensures
        (final(ewma)@, target_views(r@)) == smoothed(old(ewma)@, target_views(found@)),
{
    let ghost m = ewma@;
    let ghost all = target_views(found@);
    let mut out: Vec<Target> = Vec::new();
    proof {
        assert(target_views(out@) =~= all.take(0));
    }
    for t in it: found
        invariant
            target_views(it.seq()) == all,
            (ewma@, target_views(out@)) == smoothed(m, all.take(it.index() as int)),
    {
        let ghost k = it.index() as int;
        let ghost out0 = out@;
        proof {
            assert(all.take(k + 1).drop_last() =~= all.take(k));
            assert(all[k] == t@);
            assert(all.take(k + 1).last() == t@);
        }
        let ghost tv = t@;
        let mut next = t;
        next.cpu = ewma.smooth(&next.anchor, next.cpu);
        let ghost cpu = next.cpu;
        out.push(next);
        proof {
            assert(next@ =~= (TargetView { cpu, ..tv }));
            assert(target_views(out@) =~= target_views(out0).push(next@));
        }
    }
    proof {
        assert(all.take(all.len() as int) =~= all);
    }
    out
}

// ---------------------------------------------------------------------- order

/// The canonical order: listeners by their lowest port, then watched targets by
/// project.
pub open spec fn comes_before(a: TargetView, b: TargetView) -> bool {
    if a.ports.len() > 0 && b.ports.len() > 0 {
        a.ports[0] < b.ports[0]
    } else if a.ports.len() > 0 {
        true
    } else if b.ports.len() > 0 {
        false
    } else {
        text::precedes(a.project, b.project)
    }
}

/// Whether a target comes before another in canonical order.
pub fn before(a: &Target, b: &Target) -> (r: bool)
    ensures
        r == comes_before(a@, b@),
{
    if a.ports.len() > 0 && b.ports.len() > 0 {
        a.ports[0] < b.ports[0]
    } else if a.ports.len() > 0 {
        true
    } else if b.ports.len() > 0 {
        false
    } else {
        text::less(a.project.as_str(), b.project.as_str())
    }
}

/// An ordered list with one more row, behind every row that does not come after it.
pub open spec fn ranked(list: Seq<TargetView>, t: TargetView) -> Seq<TargetView>
    decreases list.len(),
{
    if list.len() == 0 || !comes_before(t, list.last()) {
        list.push(t)
    } else {
        ranked(list.drop_last(), t).push(list.last())
    }
}

/// The rows in canonical order; rows that the order does not tell apart keep theirs.
pub open spec fn canonical(list: Seq<TargetView>) -> Seq<TargetView>
    decreases list.len(),
{
    if list.len() == 0 {
        list
    } else {
        ranked(canonical(list.drop_last()), list.last())
    }
}

fn rank(list: &mut Vec<Target>, t: Target)
    ensures
        target_views(final(list)@) == ranked(target_views(old(list)@), t@),
{
    let ghost all = target_views(list@);
    let ghost tv = t@;
    let mut i: usize = list.len();
    proof {
        assert(all.take(i as int) =~= all);
        assert(ranked(all, tv) =~= ranked(all.take(i as int), tv) + all.skip(i as int));
    }
    loop
        invariant_except_break
            ranked(all, tv) == ranked(all.take(i as int), tv) + all.skip(i as int),
        invariant
            list@ == old(list)@,
            all == target_views(list@),
            tv == t@,
            i <= all.len(),
        ensures
            ranked(all, tv) == all.take(i as int).push(tv) + all.skip(i as int),
        decreases i,
    {
        if i == 0 {
            proof {
                assert(all.take(0).len() == 0);
            }
            break ;
        }
        proof {
            assert(all.take(i as int).last() == list@[i - 1]@);
            assert(all.take(i as int).drop_last() =~= all.take(i - 1));
        }
        if !before(&t, &list[i - 1]) {
            break ;
        }
        proof {
            assert(ranked(all.take(i - 1), tv).push(all[i - 1]) + all.skip(i as int) =~= ranked(
                all.take(i - 1),
                tv,
            ) + all.skip(i - 1));
        }
        i = i - 1;
    }
    list.insert(i, t);
    proof {
        assert(target_views(list@) =~= all.take(i as int).push(tv) + all.skip(i as int));
    }
}

fn in_order(list: Vec<Target>) -> (r: Vec<Target>)
    ensures
        target_views(r@) == canonical(target_views(list@)),
{
    let ghost all = target_views(list@);
    let mut out: Vec<Target> = Vec::new();
    proof {
        assert(target_views(out@) =~= canonical(all.take(0)));
    }
    for t in it: list
        invariant
            target_views(it.seq()) == all,
            target_views(out@) == canonical(all.take(it.index() as int)),
    {
        let ghost k = it.index() as int;
        proof {
            assert(all[k] == t@);
            assert(all.take(k + 1).drop_last() =~= all.take(k));
            assert(all.take(k + 1).last() == t@);
        }
        rank(&mut out, t);
    }
    proof {
        assert(all.take(all.len() as int) =~= all);
    }
    out
}

// -------------------------------------------------------------------- sampler

/// The keys of some rows.
pub open spec fn keys_of(list: Seq<TargetView>) -> Seq<KeyView> {
    list.map_values(|t: TargetView| t.key)
}

pub struct Sampler {
    pub resolver: Resolver,
    /// Smoothed CPU by anchor fingerprint.
    pub ewma: Smoothing,
    /// Project root by working directory.
    pub roots: TextMap,
    /// Project name by root.
    pub names: TextMap,
    pub home: Option<String>,
    pub last_topology: Vec<TargetKey>,
    /// Whether the last build changed the set of target keys.
    pub topology_changed: bool,
    pub seq: u64,
}

/// What a sampler discovers from.
pub open spec fn world(
    s: Sampler,
    procs: ProcTable,
    me: u32,
    branches: Map<Seq<char>, Option<Seq<char>>>,
) -> World {
    World {
        procs: procs@,
        order: procs.order(),
        me,
        home: opt_text(s.home),
        roots: s.roots@,
        names: s.names@,
        branches,
        rules: s.resolver,
    }
}

/// The listeners of a scan: none where it failed.
pub open spec fn scanned(listeners: Result<Vec<Listener>, String>) -> Seq<Listener> {
    match listeners {
        Ok(l) => l@,
        Err(_) => Seq::empty(),
    }
}

/// The sequence number after another.
pub open spec fn next_seq(seq: u64) -> u64 {
    if seq == u64::MAX {
        0
    } else {
        (seq + 1) as u64
    }
}

fn is_shown(key: &TargetKey, list: &[Target]) -> (r: bool)
    ensures
        r == keys_of(target_views(list@)).contains(key@),
{
    let ghost x = keys_of(target_views(list@));
    let mut i: usize = 0;
    while i < list.len()
        invariant
            i <= list@.len(),
            x == keys_of(target_views(list@)),
            forall|j: int| 0 <= j < i ==> x[j] != key@,
        decreases list@.len() - i,
    {
        assert(x[i as int] == list@[i as int].key@);
        if list[i].key.same(key) {
            return true;
        }
        i = i + 1;
    }
    false
}

fn is_known(key: &TargetKey, list: &[TargetKey]) -> (r: bool)
    ensures
        r == key_views(list@).contains(key@),
{
    let ghost x = key_views(list@);
    let mut i: usize = 0;
    while i < list.len()
        invariant
            i <= list@.len(),
            x == key_views(list@),
            forall|j: int| 0 <= j < i ==> x[j] != key@,
        decreases list@.len() - i,
    {
        assert(x[i as int] == list@[i as int]@);
        if list[i].same(key) {
            return true;
        }
        i = i + 1;
    }
    false
}

/// Whether the targets have the same keys as before, in whatever order.
fn same_keys(a: &[Target], b: &[TargetKey]) -> (r: bool)
    ensures
        r == (keys_of(target_views(a@)).to_set() == key_views(b@).to_set()),
{
    let ghost x = keys_of(target_views(a@));
    let ghost y = key_views(b@);
    let mut i: usize = 0;
    while i < a.len()
        invariant
            i <= a@.len(),
            x == keys_of(target_views(a@)),
            y == key_views(b@),
            forall|j: int| 0 <= j < i ==> y.contains(#[trigger] x[j]),
        decreases a@.len() - i,
    {
        assert(x[i as int] == a@[i as int].key@);
        if !is_known(&a[i].key, b) {
            assert(x.to_set().contains(x[i as int]) && !y.to_set().contains(x[i as int]));
            return false;
        }
        i = i + 1;
    }
    let mut k: usize = 0;
    while k < b.len()
        invariant
            k <= b@.len(),
            x == keys_of(target_views(a@)),
            y == key_views(b@),
            forall|j: int| 0 <= j < k ==> x.contains(#[trigger] y[j]),
        decreases b@.len() - k,
    {
        assert(y[k as int] == b@[k as int]@);
        if !is_shown(&b[k], a) {
            assert(y.to_set().contains(y[k as int]) && !x.to_set().contains(y[k as int]));
            return false;
        }
        k = k + 1;
    }
    proof {
        assert(x.to_set() =~= y.to_set());
    }
    true
}

fn clone_keys(a: &[Target]) -> (r: Vec<TargetKey>)
    ensures
        key_views(r@) == keys_of(target_views(a@)),
{
    let ghost x = keys_of(target_views(a@));
    let mut out: Vec<TargetKey> = Vec::new();
    let mut i: usize = 0;
    while i < a.len()
        invariant
            i <= a@.len(),
            x == keys_of(target_views(a@)),
            key_views(out@) == x.take(i as int),
        decreases a@.len() - i,
    {
        let ghost out0 = out@;
        let k = a[i].key.clone();
        out.push(k);
        proof {
            assert(key_views(out@) =~= key_views(out0).push(k@));
            assert(key_views(out@) =~= x.take(i + 1));
        }
        i = i + 1;
    }
    proof {
        assert(x.take(i as int) =~= x);
    }
    out
}

/// A working directory whose project root discovery asks for: that of a foreign
/// listener which is no container proxy, or of a watcher that no rule hides.
pub open spec fn is_wanted(w: World, listeners: Seq<Listener>, cwd: Seq<char>) -> bool {
    ||| exists|i: int|
        0 <= i < listeners.len() && is_foreign(w, #[trigger] listeners[i]) && !docker::names_binder(
            w.procs[listeners[i].pid].name@,
        ) && opt_text(w.procs[listeners[i].pid].cwd) == Some(cwd)
    ||| exists|p: u32| #[trigger]
        w.procs.contains_key(p) && is_watch_candidate(w, p) && opt_text(w.procs[p].cwd) == Some(cwd)
}

/// A process that is a watcher unless a listener row covers it.
pub open spec fn is_watch_candidate(w: World, p: u32) -> bool {
    &&& !resolve::names_shell(w.procs[p].name@)
    &&& !is_own(w, p)
    &&& watcher_of(w, w.procs[p]) is Some
    &&& !discover::ignored(w, Seq::empty(), line_of(w.procs[p]))
}

fn want(list: &mut Vec<String>, known: &TextMap, cwd: &Option<String>)
    requires
        text::texts(old(list)@).no_duplicates(),
    ensures
        text::texts(final(list)@).no_duplicates(),
        forall|c: Seq<char>| #[trigger]
            text::texts(final(list)@).contains(c) <==> text::texts(old(list)@).contains(c) || (
            opt_text(*cwd) == Some(c) && !known@.contains_key(c)),
{
    let ghost l0 = text::texts(list@);
    match cwd {
        Some(c) => {
            if !known.knows(c.as_str()) && !has_text(list.as_slice(), c.as_str()) {
                list.push(c.clone());
                proof {
                    let l1 = text::texts(list@);
                    assert(l1 =~= l0.push(c@));
                    assert forall|x: Seq<char>| #[trigger] l1.contains(x) <==> l0.contains(x) || x
                        == c@ by {
                        assert(l1[l0.len() as int] == c@);
                        if l0.contains(x) {
                            let a = choose|a: int| 0 <= a < l0.len() && l0[a] == x;
                            assert(l1[a] == x);
                        }
                    }
                }
            }
        },
        None => {},
    }
}

/// What a build shows and what the sampler keeps of it.
pub open spec fn built(
    a: Sampler,
    b: Sampler,
    listeners: Result<Vec<Listener>, String>,
    procs: ProcTable,
    me: u32,
    branches: Map<Seq<char>, Option<Seq<char>>>,
    containers: Map<u16, docker::ContainerView>,
    r: Snapshot,
) -> bool {
    let w = world(a, procs, me, branches);
    let found = rows(
        w,
        scanned(listeners),
        containers,
    );
    let smooth = smoothed(a.ewma@, found);
    let sorted = canonical(smooth.1);
    let changed = keys_of(sorted).to_set() != key_views(
        a.last_topology@,
    ).to_set();
    &&& target_views(r.targets@) == sorted
    &&& r.seq == next_seq(a.seq)
    &&& r.error == match listeners {
        Ok(_) => None,
        Err(e) => Some(e),
    }
    &&& b.seq == r.seq
    &&& b.ewma@ == kept(smooth.0, anchors(smooth.1))
    &&& b.topology_changed == changed
    &&& key_views(b.last_topology@).to_set() == keys_of(sorted).to_set()
    &&& b.resolver == a.resolver
    &&& b.home == a.home
    &&& if changed {
        &&& key_views(b.last_topology@) == keys_of(sorted)
        &&& b.roots@ == Map::<Seq<char>, Option<Seq<char>>>::empty()
        &&& b.names@ == Map::<Seq<char>, Option<Seq<char>>>::empty()
    } else {
        &&& b.last_topology == a.last_topology
        &&& b.roots == a.roots
        &&& b.names == a.names
    }
}

impl Sampler {
    /// A sampler that knows nothing yet.
    pub fn new(resolver: Resolver, home: Option<String>) -> (r: Self)
        ensures
            r.resolver == resolver,
            r.home == home,
            r.ewma@ == Map::<(u32, u64), u64>::empty(),
            r.roots@ == Map::<Seq<char>, Option<Seq<char>>>::empty(),
            r.names@ == Map::<Seq<char>, Option<Seq<char>>>::empty(),
            r.last_topology@.len() == 0,
            !r.topology_changed,
            r.seq == 0,
    {
        Sampler {
            resolver,
            ewma: Smoothing::new(),
            roots: TextMap::new(),
            names: TextMap::new(),
            home,
            last_topology: Vec::new(),
            topology_changed: false,
            seq: 0,
        }
    }

    /// The working directories whose project root is to be looked up before a build:
    /// those that discovery asks for and that are not known yet.
    pub fn unresolved(&self, listeners: &[Listener], procs: &ProcTable, me: u32) -> (r: Vec<String>)
        ensures
            text::texts(r@).no_duplicates(),
            forall|c: Seq<char>| #[trigger]
                text::texts(r@).contains(c) <==> !self.roots@.contains_key(c) && is_wanted(
                    world(*self, *procs, me, Map::empty()),
                    listeners@,
                    c,
                ),
    {
        let ghost w = world(*self, *procs, me, Map::empty());
        let own = proctree::ancestors(me, procs);
        let n = procs.len();
        let mut list: Vec<String> = Vec::new();
        let mut i: usize = 0;
        while i < listeners.len()
            invariant
                i <= listeners@.len(),
                w == world(*self, *procs, me, Map::empty()),
                forall|p: u32| #[trigger] own@.contains(p) <==> is_own(w, p),
                text::texts(list@).no_duplicates(),
                forall|c: Seq<char>| #[trigger]
                    text::texts(list@).contains(c) <==> !self.roots@.contains_key(c) && exists|
                        j: int,
                    |
                        0 <= j < i && is_foreign(w, #[trigger] listeners@[j])
                            && !docker::names_binder(w.procs[listeners@[j].pid].name@) && opt_text(
                            w.procs[listeners@[j].pid].cwd,
                        ) == Some(c),
            decreases listeners@.len() - i,
        {
            let l = listeners[i];
            match procs.get(l.pid) {
                Some(p) => {
                    if !own.contains(&l.pid) && !docker::is_binder(p.name.as_str()) {
                        want(&mut list, &self.roots, &p.cwd);
                    }
                },
                None => {},
            }
            assert(listeners@[i as int] == l);
            i = i + 1;
        }
        let ghost from_listeners = text::texts(list@);
        let mut k: usize = 0;
        while k < n
            invariant
                k <= n,
                n == procs.order().len(),
                crate::sources::is_table(procs@, procs.order()),
                w == world(*self, *procs, me, Map::empty()),
                forall|p: u32| #[trigger] own@.contains(p) <==> is_own(w, p),
                text::texts(list@).no_duplicates(),
                forall|c: Seq<char>| #[trigger]
                    text::texts(list@).contains(c) <==> from_listeners.contains(c) || (
                    !self.roots@.contains_key(c) && exists|j: int|
                        0 <= j < k && is_watch_candidate(w, #[trigger] w.order[j]) && opt_text(
                            w.procs[w.order[j]].cwd,
                        ) == Some(c)),
            decreases n - k,
        {
            let p = procs.at(k);
            assert(w.order[k as int] == p.pid);
            if !resolve::is_shell(p.name.as_str()) && !own.contains(&p.pid) {
                let label = self.resolver.watcher_label(p.argv.as_slice());
                if label.is_some() {
                    let line = text::join(p.argv.as_slice(), " ");
                    let none: Vec<u16> = Vec::new();
                    assert(none@ =~= Seq::<u16>::empty());
                    if !self.resolver.is_ignored(none.as_slice(), line.as_str()) {
                        want(&mut list, &self.roots, &p.cwd);
                    }
                }
            }
            k = k + 1;
        }
        proof {
            assert forall|c: Seq<char>| #[trigger]
                text::texts(list@).contains(c) <==> !self.roots@.contains_key(c) && is_wanted(
                    w,
                    listeners@,
                    c,
                ) by {
                if !self.roots@.contains_key(c) && exists|p: u32| #[trigger]
                    w.procs.contains_key(p) && is_watch_candidate(w, p) && opt_text(w.procs[p].cwd)
                        == Some(c) {
                    let p = choose|p: u32| #[trigger]
                        w.procs.contains_key(p) && is_watch_candidate(w, p) && opt_text(
                            w.procs[p].cwd,
                        ) == Some(c);
                    assert(w.procs.dom().contains(p));
                    assert(w.order.to_set().contains(p));
                    let j = choose|j: int| 0 <= j < w.order.len() && w.order[j] == p;
                    assert(is_watch_candidate(w, w.order[j]));
                }
                if exists|j: int|
                    0 <= j < n && is_watch_candidate(w, #[trigger] w.order[j]) && opt_text(
                        w.procs[w.order[j]].cwd,
                    ) == Some(c) {
                    let j = choose|j: int|
                        0 <= j < n && is_watch_candidate(w, #[trigger] w.order[j]) && opt_text(
                            w.procs[w.order[j]].cwd,
                        ) == Some(c);
                    assert(w.order.to_set().contains(w.order[j]));
                    assert(w.procs.contains_key(w.order[j]));
                }
            }
        }
        list
    }

    /// The published container ports among the listeners.
    pub fn container_ports(&self, listeners: &[Listener], procs: &ProcTable, me: u32) -> (r: Vec<
        u16,
    >)
        ensures
            r@ == crate::ports::sorted_set(
                discover::docker_listed(world(*self, *procs, me, Map::empty()), listeners@),
            ),
    {
        let children = proctree::child_map(procs);
        let own = proctree::ancestors(me, procs);
        let branches = TextMap::new();
        let scene = Scene {
            procs,
            children: &children,
            own: &own,
            me,
            home: &self.home,
            roots: &self.roots,
            names: &self.names,
            branches: &branches,
            rules: &self.resolver,
        };
        proof {
            assert(scene.world() == world(*self, *procs, me, Map::empty()));
        }
        discover::docker_ports(&scene, listeners)
    }

    /// Remember the project root of a working directory.
    pub fn learn_root(&mut self, cwd: String, root: Option<String>)
        ensures
            *final(self) == (Sampler { roots: final(self).roots, ..*old(self) }),
            final(self).roots@ == old(self).roots@.insert(cwd@, opt_text(root)),
    {
        self.roots.insert(cwd, root);
    }

    /// Remember the name of a project root.
    pub fn learn_name(&mut self, root: String, name: String)
        ensures
            *final(self) == (Sampler { names: final(self).names, ..*old(self) }),
            final(self).names@ == old(self).names@.insert(root@, Some(name@)),
    {
        self.names.insert(root, Some(name));
    }

    /// One snapshot of what runs. A failed scan of the ports is carried in it. When
    /// the set of targets changed, what was learned of the disk is forgotten, so that
    /// a renamed project is looked up again.
    pub fn build(
        &mut self,
        listeners: Result<Vec<Listener>, String>,
        procs: &ProcTable,
        me: u32,
        branches: &TextMap,
        containers: &HashMap<u16, docker::ContainerPort>,
    ) -> (r: Snapshot)
        ensures
            built(*old(self), *final(self), listeners, *procs, me, branches@, docker::container_views(containers@), r),
    {
        let (list, error) = match listeners {
            Ok(l) => (l, None),
            Err(e) => (Vec::new(), Some(e)),
        };
        proof {
            assert(list@ =~= scanned(listeners));
        }
        let children = proctree::child_map(procs);
        let own = proctree::ancestors(me, procs);
        let scene = Scene {
            procs,
            children: &children,
            own: &own,
            me,
            home: &self.home,
            roots: &self.roots,
            names: &self.names,
            branches,
            rules: &self.resolver,
        };
        let found = discover::discover(&scene, list.as_slice(), containers);
        let smooth = smooth_all(&mut self.ewma, found);
        self.ewma.prune(smooth.as_slice());
        let targets = in_order(smooth);
        self.topology_changed = !same_keys(targets.as_slice(), self.last_topology.as_slice());
        if self.topology_changed {
            self.roots.clear();
            self.names.clear();
            self.last_topology = clone_keys(targets.as_slice());
        }
        self.seq = if self.seq == u64::MAX {
            0
        } else {
            self.seq + 1
        };
        Snapshot { seq: self.seq, targets, error }
    }
}

// -------------------------------------------------------------------- cadence

/// The pause between builds while the targets change, in milliseconds.
pub const FAST: u64 = 1000;

/// The longest pause between builds, in milliseconds.
pub const SLOWEST: u64 = 5000;

/// How long a container listing is trusted, in milliseconds.
pub const DOCKER_TTL: u64 = 5000;

/// The pause after a build: short where the targets changed or a refresh was asked
/// for since, otherwise twice the last one up to the longest.
pub open spec fn pause_after(changed: bool, last: u64) -> u64 {
    if changed {
        FAST
    } else if 2 * last <= SLOWEST {
        (2 * last) as u64
    } else {
        SLOWEST
    }
}

/// The pause to make after a build. `last` is the pause before it, [`FAST`] after a
/// refresh.
pub fn next_delay(topology_changed: bool, last: u64) -> (r: u64)
    ensures
        r == pause_after(topology_changed, last),
{
    if topology_changed {
        FAST
    } else if last <= SLOWEST / 2 {
        2 * last
    } else {
        SLOWEST
    }
}

/// The pause stays between the shortest and the longest.
pub proof fn cadence_stays_in_range(changed: bool, last: u64)
    requires
        FAST <= last <= SLOWEST,
    ensures
        FAST <= pause_after(changed, last) <= SLOWEST,
{
}

/// While nothing changes the pause never shrinks, and after three builds it is the
/// longest.
pub proof fn cadence_backs_off(last: u64)
    requires
        FAST <= last <= SLOWEST,
    ensures
        last <= pause_after(false, last),
        pause_after(false, pause_after(false, pause_after(false, last))) == SLOWEST,
{
}

/// Whether what is known of containers is too old to use.
pub open spec fn goes_stale(fetched: Option<u64>, now: u64, r: bool) -> bool {
    r == match fetched {
        Some(at) => now > at + DOCKER_TTL,
        None => true,
    }
}

/// Whether a container listing is too old to trust. `fetched` is when it was made, if
/// there is one; both times are in milliseconds.
pub fn docker_stale(fetched: Option<u64>, now: u64) -> (r: bool)
    ensures
        goes_stale(fetched, now, r),
{
    match fetched {
        Some(at) => now > at && now - at > DOCKER_TTL,
        None => true,
    }
}

} // verus!
