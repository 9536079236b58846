//! What holds of discovery and of snapshots as a whole.
use vstd::prelude::*;

use crate::discover::{
    agg_hits, assigned, belongs, counts, docker_listed, docker_rows, docker_shows, follows,
    gathered, have_ports, is_claimed, is_docker, is_own, key_hits, lemma_assigned_have_ports,
    lemma_gathered_have_ports, listener_anchor, listener_root, listener_row, listener_rows, root_at,
    row_hidden, rows, same_watch, takers, takes, tree_of, watch_pids, watch_places, watched_row,
    watched_rows, watcher_row, watchers, watches, watching, with_row, with_watcher, AggView,
    WatchView, World,
};
use crate::docker::ContainerView;
use crate::model::{
    key_views, opt_text, target_views, Anchor, KeyView, Snapshot, TargetKind, TargetView,
};
use crate::ports::{increasing, lemma_sorted_set, sorted_set};
use crate::proctree;
use crate::proctree::{lemma_joined_contains, lemma_joined_distinct, unseen};
use crate::project::dir_name;
use crate::resolve::{
    all_cmd_hits, first_hit, group_of, hidden, ignore_hits, label_given, lemma_first_hit,
    names_shell, overridden, override_hits, standard_url, watch_hits, watcher_given,
};
use crate::sampler::{
    built, canonical, comes_before, is_wanted, keys_of, ranked, scanned, smoothed, world, Sampler,
};
use crate::sources::{by_pid, is_table, pid_order, Listener, ProcInfo, ProcTable};
use crate::text::{joined, precedes, texts};

verus! {

// ----------------------------------------------------------------- unique keys

/// No two rows have one key.
pub open spec fn keys_differ(rows: Seq<TargetView>) -> bool {
    forall|i: int, j: int| 0 <= i < j < rows.len() ==> (#[trigger] rows[i]).key != (
    #[trigger] rows[j]).key
}

/// A listener row: its ports are increasing, and the lowest one is its key.
pub open spec fn is_port_row(t: TargetView) -> bool {
    &&& t.ports.len() > 0
    &&& increasing(t.ports)
    &&& t.key == KeyView::Port(t.ports[0])
}

proof fn lemma_least(a: Seq<u16>, b: Seq<u16>)
    requires
        a.len() > 0,
        b.len() > 0,
        increasing(a),
        increasing(b),
        a[0] == b[0],
    ensures
        sorted_set(a + b).len() > 0,
        sorted_set(a + b)[0] == a[0],
{
    let s = sorted_set(a + b);
    lemma_sorted_set(a + b);
    assert((a + b)[0] == a[0]);
    assert(s.contains(a[0]));
    let k = choose|k: int| 0 <= k < s.len() && s[k] == a[0];
    assert(s.contains(s[0]));
    assert((a + b).contains(s[0]));
    let i = choose|i: int| 0 <= i < (a + b).len() && (a + b)[i] == s[0];
    if i < a.len() {
        if i > 0 {
            assert(a[0] < a[i]);
        }
    } else {
        assert(b[i - a.len()] == s[0]);
        if i > a.len() {
            assert(b[0] < b[i - a.len()]);
        }
    }
    if k > 0 {
        assert(s[0] < s[k]);
    }
}

proof fn lemma_listener_row_is_port_row(w: World, listeners: Seq<Listener>, g: AggView)
    requires
        g.ports.len() > 0,
    ensures
        is_port_row(listener_row(w, listeners, g)),
{
    lemma_sorted_set(g.ports);
}

proof fn lemma_with_row(rows: Seq<TargetView>, t: TargetView)
    requires
        keys_differ(rows),
        forall|i: int| 0 <= i < rows.len() ==> is_port_row(#[trigger] rows[i]),
        is_port_row(t),
    ensures
        keys_differ(with_row(rows, t)),
        forall|i: int| 0 <= i < with_row(rows, t).len() ==> is_port_row(#[trigger] with_row(rows, t)[i]),
{
    let hits = key_hits(rows, t.key);
    lemma_first_hit(hits);
    let after = with_row(rows, t);
    match first_hit(hits) {
        Some(k) => {
            assert(is_port_row(rows[k]));
            lemma_least(rows[k].ports, t.ports);
            lemma_sorted_set(rows[k].ports + t.ports);
            assert(after[k].key == rows[k].key);
            assert(is_port_row(after[k]));
            assert forall|i: int, j: int| 0 <= i < j < after.len() implies (#[trigger] after[i]).key
                != (#[trigger] after[j]).key by {
                assert(rows[i].key != rows[j].key);
            }
            assert forall|i: int| 0 <= i < after.len() implies is_port_row(#[trigger] after[i]) by {
                if i != k {
                    assert(after[i] == rows[i]);
                }
            }
        },
        None => {
            assert forall|i: int, j: int| 0 <= i < j < after.len() implies (#[trigger] after[i]).key
                != (#[trigger] after[j]).key by {
                if j == rows.len() {
                    assert(!hits[i]);
                } else {
                    assert(rows[i].key != rows[j].key);
                }
            }
        },
    }
}

/// Every listener row has increasing ports with the lowest as its key, and no two
/// have one key, although several anchors may share a port.
pub proof fn listener_keys_are_unique(w: World, listeners: Seq<Listener>, groups: Seq<AggView>)
    requires
        have_ports(groups),
    ensures
        keys_differ(listener_rows(w, listeners, groups)),
        forall|i: int|
            0 <= i < listener_rows(w, listeners, groups).len() ==> is_port_row(
                #[trigger] listener_rows(w, listeners, groups)[i],
            ),
    decreases groups.len(),
{
    if groups.len() > 0 {
        let d = groups.drop_last();
        assert forall|i: int| 0 <= i < d.len() implies (#[trigger] d[i]).ports.len() > 0 by {
            assert(groups[i].ports.len() > 0);
        }
        listener_keys_are_unique(w, listeners, d);
        let g = groups.last();
        assert(groups[groups.len() - 1].ports.len() > 0);
        if !row_hidden(w, g) {
            lemma_listener_row_is_port_row(w, listeners, g);
            lemma_with_row(listener_rows(w, listeners, d), listener_row(w, listeners, g));
        }
    }
}

/// No two of these watchers have one identity.
pub open spec fn watches_differ(aggs: Seq<WatchView>) -> bool {
    forall|i: int, j: int|
        0 <= i < j < aggs.len() ==> !same_watch(#[trigger] aggs[i], #[trigger] aggs[j])
}

proof fn lemma_watchers_differ(w: World, groups: Seq<AggView>, pids: Seq<u32>)
    ensures
        watches_differ(watchers(w, groups, pids)),
    decreases pids.len(),
{
    if pids.len() > 0 {
        lemma_watchers_differ(w, groups, pids.drop_last());
        let before = watchers(w, groups, pids.drop_last());
        let p = w.procs[pids.last()];
        if watches(w, groups, p) {
            let v = watcher_row(w, groups, p);
            let hits = watch_places(before, v);
            lemma_first_hit(hits);
            let after = with_watcher(before, v);
            assert forall|i: int, j: int| 0 <= i < j < after.len() implies !same_watch(
                #[trigger] after[i],
                #[trigger] after[j],
            ) by {
                if j < before.len() {
                    assert(!same_watch(before[i], before[j]));
                } else {
                    assert(!hits[i]);
                }
            }
        }
    }
}

/// A watched row: it has no port and no URL, and its key is what it runs and where.
pub open spec fn is_watch_row(t: TargetView) -> bool {
    &&& t.ports.len() == 0
    &&& t.url is None
    &&& t.key == KeyView::Command { project: t.project, label: t.command_label, cwd: t.cwd }
}

/// A row is what its kind says.
pub open spec fn is_proper(t: TargetView) -> bool {
    match t.kind {
        TargetKind::Listener => is_port_row(t),
        TargetKind::Watched => is_watch_row(t),
    }
}

/// No port is held both for a container and by a listener that counts.
pub open spec fn ports_apart(w: World, listeners: Seq<Listener>) -> bool {
    forall|i: int, j: int|
        0 <= i < listeners.len() && 0 <= j < listeners.len() && is_docker(
            w,
            #[trigger] listeners[i],
        ) && counts(w, #[trigger] listeners[j]) ==> listeners[i].port != listeners[j].port
}

/// Some listener that counts holds the port.
spec fn is_counted(w: World, listeners: Seq<Listener>, port: u16) -> bool {
    exists|i: int|
        0 <= i < listeners.len() && counts(w, #[trigger] listeners[i]) && listeners[i].port == port
}

/// Some container holds the port.
spec fn is_published(w: World, listeners: Seq<Listener>, port: u16) -> bool {
    exists|i: int|
        0 <= i < listeners.len() && is_docker(w, #[trigger] listeners[i]) && listeners[i].port
            == port
}

proof fn lemma_gathered_ports(w: World, listeners: Seq<Listener>)
    ensures
        forall|i: int, port: u16|
            0 <= i < gathered(w, listeners).len() && #[trigger] gathered(
                w,
                listeners,
            )[i].ports.contains(port) ==> is_counted(w, listeners, port),
    decreases listeners.len(),
{
    if listeners.len() > 0 {
        let d = listeners.drop_last();
        let l = listeners.last();
        let before = gathered(w, d);
        let after = gathered(w, listeners);
        lemma_gathered_ports(w, d);
        assert(listeners[listeners.len() - 1] == l);
        assert forall|i: int, port: u16|
            0 <= i < after.len() && #[trigger] after[i].ports.contains(port) implies is_counted(
            w,
            listeners,
            port,
        ) by {
            let a = listener_anchor(w, l);
            lemma_first_hit(agg_hits(before, a));
            if i < before.len() && before[i].ports.contains(port) {
                assert(is_counted(w, d, port));
                let k = choose|k: int|
                    0 <= k < d.len() && counts(w, #[trigger] d[k]) && d[k].port == port;
                assert(listeners[k] == d[k]);
            } else {
                let k = choose|k: int| 0 <= k < after[i].ports.len() && after[i].ports[k] == port;
                if i < before.len() && k < before[i].ports.len() {
                    assert(before[i].ports[k] == port);
                }
                assert(counts(w, l) && port == l.port);
            }
        }
    }
}

proof fn lemma_docker_listed(w: World, listeners: Seq<Listener>)
    ensures
        forall|port: u16| #[trigger]
            docker_listed(w, listeners).contains(port) ==> is_published(w, listeners, port),
    decreases listeners.len(),
{
    if listeners.len() > 0 {
        let d = listeners.drop_last();
        lemma_docker_listed(w, d);
        assert(listeners[listeners.len() - 1] == listeners.last());
        assert forall|port: u16| #[trigger]
            docker_listed(w, listeners).contains(port) implies is_published(
            w,
            listeners,
            port,
        ) by {
            let list = docker_listed(w, listeners);
            let k = choose|k: int| 0 <= k < list.len() && list[k] == port;
            if k < docker_listed(w, d).len() {
                assert(docker_listed(w, d)[k] == port);
                assert(docker_listed(w, d).contains(port));
                let i = choose|i: int|
                    0 <= i < d.len() && is_docker(w, #[trigger] d[i]) && d[i].port == port;
                assert(listeners[i] == d[i]);
            }
        }
    }
}

/// Each container row has one port of the list as its key, and comes in their order.
proof fn lemma_docker_rows(w: World, containers: Map<u16, ContainerView>, ports: Seq<u16>)
    requires
        increasing(ports),
    ensures
        forall|i: int|
            0 <= i < docker_rows(w, containers, ports).len() ==> {
                let t = #[trigger] docker_rows(w, containers, ports)[i];
                &&& t.kind is Listener
                &&& t.pids.len() == 0
                &&& is_port_row(t)
                &&& ports.contains(t.ports[0])
            },
        keys_differ(docker_rows(w, containers, ports)),
    decreases ports.len(),
{
    if ports.len() > 0 {
        let d = ports.drop_last();
        assert(increasing(d)) by {
            assert forall|i: int, j: int| 0 <= i < j < d.len() implies d[i] < d[j] by {
                assert(ports[i] < ports[j]);
            }
        }
        lemma_docker_rows(w, containers, d);
        let before = docker_rows(w, containers, d);
        let after = docker_rows(w, containers, ports);
        assert(ports[ports.len() - 1] == ports.last());
        assert forall|i: int| 0 <= i < before.len() implies ports.contains(
            (#[trigger] before[i]).ports[0],
        ) && before[i].ports[0] != ports.last() by {
            let k = choose|k: int| 0 <= k < d.len() && d[k] == before[i].ports[0];
            assert(ports[k] == d[k]);
            assert(ports[k] < ports[ports.len() - 1]);
        }
        assert forall|i: int| 0 <= i < after.len() implies {
            let t = #[trigger] after[i];
            &&& t.kind is Listener
            &&& t.pids.len() == 0
            &&& is_port_row(t)
            &&& ports.contains(t.ports[0])
        } by {
            if i < before.len() {
                assert(after[i] == before[i]);
            }
        }
        assert forall|i: int, j: int| 0 <= i < j < after.len() implies (#[trigger] after[i]).key
            != (#[trigger] after[j]).key by {
            assert(after[i] == before[i]);
            if j < before.len() {
                assert(before[i].key != before[j].key);
            } else {
                assert(is_port_row(before[i]));
            }
        }
    }
}

/// The row is a listener's, and its key is the lowest port of one of the groups.
spec fn comes_of_group(groups: Seq<AggView>, t: TargetView, k: int) -> bool {
    &&& 0 <= k < groups.len()
    &&& t.key == KeyView::Port(sorted_set(groups[k].ports)[0])
}

proof fn lemma_listener_kinds(w: World, listeners: Seq<Listener>, groups: Seq<AggView>, i: int)
    requires
        0 <= i < listener_rows(w, listeners, groups).len(),
    ensures
        listener_rows(w, listeners, groups)[i].kind is Listener,
        exists|k: int| #[trigger]
            comes_of_group(groups, listener_rows(w, listeners, groups)[i], k),
    decreases groups.len(),
{
    let d = groups.drop_last();
    let g = groups.last();
    let before = listener_rows(w, listeners, d);
    let after = listener_rows(w, listeners, groups);
    assert(groups[groups.len() - 1] == g);
    if !row_hidden(w, g) {
        lemma_first_hit(key_hits(before, listener_row(w, listeners, g).key));
    }
    if i < before.len() {
        lemma_listener_kinds(w, listeners, d, i);
        let k = choose|k: int| #[trigger] comes_of_group(d, before[i], k);
        assert(groups[k] == d[k]);
        assert(after[i].key == before[i].key);
        assert(comes_of_group(groups, after[i], k));
    } else {
        assert(comes_of_group(groups, after[i], groups.len() - 1));
    }
}

/// Every row is what its kind says, and no two rows have one key, as long as no port is
/// held both for a container and by another process.
pub proof fn row_keys_are_unique(
    w: World,
    listeners: Seq<Listener>,
    containers: Map<u16, ContainerView>,
)
    requires
        ports_apart(w, listeners),
    ensures
        keys_differ(rows(w, listeners, containers)),
        forall|i: int|
            0 <= i < rows(w, listeners, containers).len() ==> is_proper(
                #[trigger] rows(w, listeners, containers)[i],
            ),
{
    rows_are_proper(w, listeners, containers);
    let gs = gathered(w, listeners);
    let groups = assigned(w, gs);
    let ports = sorted_set(docker_listed(w, listeners));
    lemma_gathered_have_ports(w, listeners);
    lemma_assigned_have_ports(w, gs);
    listener_keys_are_unique(w, listeners, groups);
    lemma_watchers_differ(w, groups, w.order);
    lemma_sorted_set(docker_listed(w, listeners));
    lemma_docker_rows(w, containers, ports);
    let a = listener_rows(w, listeners, groups);
    let aggs = watchers(w, groups, w.order);
    let b = watched_rows(w, aggs);
    let c = docker_rows(w, containers, ports);
    let all = rows(w, listeners, containers);
    let ab = (a.len() + b.len()) as int;
    assert(all =~= a + b + c);
    assert forall|i: int, j: int| 0 <= i < j < all.len() implies (#[trigger] all[i]).key != (
    #[trigger] all[j]).key by {
        if j < a.len() {
            assert(a[i].key != a[j].key);
        } else if j < ab {
            assert(all[j] == watched_row(w, aggs[j - a.len()]));
            if i < a.len() {
                assert(is_port_row(a[i]));
            } else {
                assert(!same_watch(aggs[i - a.len()], aggs[j - a.len()]));
                assert(all[i] == watched_row(w, aggs[i - a.len()]));
            }
        } else {
            let t = c[j - ab];
            assert(all[j] == t);
            assert(is_port_row(t) && ports.contains(t.ports[0]));
            if i < a.len() {
                lemma_listener_kinds(w, listeners, groups, i);
                let k = choose|k: int| #[trigger] comes_of_group(groups, a[i], k);
                lemma_sorted_set(groups[k].ports);
                assert(groups[k].ports == gs[k].ports);
                assert(gs[k].ports.len() > 0);
                let low = sorted_set(gs[k].ports)[0];
                assert(sorted_set(gs[k].ports).contains(low));
                assert(gs[k].ports.contains(low));
                lemma_gathered_ports(w, listeners);
                lemma_docker_listed(w, listeners);
                assert(is_counted(w, listeners, low));
                assert(docker_listed(w, listeners).contains(t.ports[0]));
                assert(is_published(w, listeners, t.ports[0]));
            } else if i < ab {
                assert(all[i] == watched_row(w, aggs[i - a.len()]));
            } else {
                assert(c[i - ab].key != c[j - ab].key);
            }
        }
    }
}

/// Every row is what its kind says.
pub proof fn rows_are_proper(
    w: World,
    listeners: Seq<Listener>,
    containers: Map<u16, ContainerView>,
)
    ensures
        forall|i: int|
            0 <= i < rows(w, listeners, containers).len() ==> is_proper(
                #[trigger] rows(w, listeners, containers)[i],
            ),
{
    let gs = gathered(w, listeners);
    let groups = assigned(w, gs);
    let ports = sorted_set(docker_listed(w, listeners));
    lemma_gathered_have_ports(w, listeners);
    lemma_assigned_have_ports(w, gs);
    listener_keys_are_unique(w, listeners, groups);
    lemma_sorted_set(docker_listed(w, listeners));
    lemma_docker_rows(w, containers, ports);
    let a = listener_rows(w, listeners, groups);
    let aggs = watchers(w, groups, w.order);
    let b = watched_rows(w, aggs);
    let c = docker_rows(w, containers, ports);
    let all = rows(w, listeners, containers);
    let ab = (a.len() + b.len()) as int;
    assert(all =~= a + b + c);
    assert forall|i: int| 0 <= i < all.len() implies is_proper(#[trigger] all[i]) by {
        if i < a.len() {
            lemma_listener_kinds(w, listeners, groups, i);
            assert(is_port_row(a[i]));
        } else if i < ab {
            assert(all[i] == watched_row(w, aggs[i - a.len()]));
        } else {
            assert(all[i] == c[i - ab]);
        }
    }
}

// ------------------------------------------------------------------ absorption

/// No watched row starts at a process that is a listening anchor's, or holds one: such
/// a process belongs to the listener.
pub proof fn listeners_absorb_watchers(w: World, groups: Seq<AggView>, pids: Seq<u32>)
    ensures
        forall|i: int|
            0 <= i < watchers(w, groups, pids).len() ==> !is_claimed(
                groups,
                (#[trigger] watchers(w, groups, pids)[i]).anchor.pid,
            ),
        forall|i: int, p: u32|
            0 <= i < watchers(w, groups, pids).len() && #[trigger] watchers(
                w,
                groups,
                pids,
            )[i].pids.contains(p) ==> !is_claimed(groups, p),
    decreases pids.len(),
{
    let all = watchers(w, groups, pids);
    assert forall|i: int, p: u32|
        0 <= i < all.len() && #[trigger] all[i].pids.contains(p) implies !is_claimed(
        groups,
        p,
    ) by {
        lemma_watched_pid(w, groups, pids, i, p);
    }
    if pids.len() > 0 {
        listeners_absorb_watchers(w, groups, pids.drop_last());
        let before = watchers(w, groups, pids.drop_last());
        let p = w.procs[pids.last()];
        if watches(w, groups, p) {
            let v = watcher_row(w, groups, p);
            lemma_first_hit(watch_places(before, v));
            let after = with_watcher(before, v);
            assert forall|i: int| 0 <= i < after.len() implies !is_claimed(
                groups,
                (#[trigger] after[i]).anchor.pid,
            ) by {
                if i < before.len() {
                    assert(!is_claimed(groups, before[i].anchor.pid));
                }
            }
        }
    }
}

/// A watcher that is no listening anchor's is listed: the watched row of its identity
/// holds it.
pub proof fn free_watchers_are_listed(w: World, groups: Seq<AggView>, pids: Seq<u32>, p: u32)
    requires
        is_table(w.procs, w.order),
        pids.contains(p),
        w.procs.contains_key(p),
        watches(w, groups, w.procs[p]),
    ensures
        exists|i: int|
            0 <= i < watchers(w, groups, pids).len() && same_watch(
                #[trigger] watchers(w, groups, pids)[i],
                watcher_row(w, groups, w.procs[p]),
            ) && watchers(w, groups, pids)[i].pids.contains(p),
    decreases pids.len(),
{
    let d = pids.drop_last();
    let q = w.procs[pids.last()];
    let before = watchers(w, groups, d);
    let after = watchers(w, groups, pids);
    let v = watcher_row(w, groups, q);
    if watches(w, groups, q) {
        lemma_first_hit(watch_places(before, v));
    }
    if pids.last() == p {
        lemma_watches_itself(w, groups, p);
        match first_hit(watch_places(before, v)) {
            Some(k) => {
                proctree::lemma_unseen(v.pids, before[k].pids);
                lemma_joined_contains(before[k].pids, unseen(v.pids, before[k].pids), p);
                assert(same_watch(after[k], v));
            },
            None => {
                assert(after[before.len() as int] == v);
            },
        }
    } else {
        let k = choose|k: int| 0 <= k < pids.len() && pids[k] == p;
        assert(d[k] == p);
        free_watchers_are_listed(w, groups, d, p);
        let i = choose|i: int|
            0 <= i < before.len() && same_watch(
                #[trigger] before[i],
                watcher_row(w, groups, w.procs[p]),
            ) && before[i].pids.contains(p);
        lemma_joined_contains(before[i].pids, unseen(v.pids, before[i].pids), p);
        assert(same_watch(after[i], watcher_row(w, groups, w.procs[p])));
        assert(after[i].pids.contains(p));
    }
}

proof fn lemma_watches_itself(w: World, groups: Seq<AggView>, p: u32)
    requires
        is_table(w.procs, w.order),
        w.procs.contains_key(p),
        watches(w, groups, w.procs[p]),
    ensures
        watch_pids(w, groups, p).contains(p),
{
    let step = proctree::to_parent(w.procs);
    assert(w.procs[p].pid == p);
    assert(proctree::nearest_at(step, watching(w, groups), p, 0, p));
    lemma_kept(tree_of(w, p), |q: u32| follows(w, groups, p, q));
    proctree::lemma_subtree(proctree::children_in(w.procs, w.order), p);
    assert(tree_of(w, p)[0] == p);
}

/// A listener that works neither in a project nor under the home directory changes
/// nothing: system daemons are not listed.
pub proof fn daemons_are_never_listed(w: World, listeners: Seq<Listener>, l: Listener)
    requires
        !proctree::is_dev(opt_text(w.procs[l.pid].cwd), listener_root(w, l), w.home),
    ensures
        gathered(w, listeners.push(l)) == gathered(w, listeners),
{
    assert(listeners.push(l).drop_last() =~= listeners);
}

// ------------------------------------------------------------------- row pids

/// What is kept of a list: the members that pass, each as often as it stood there.
proof fn lemma_kept(s: Seq<u32>, keep: spec_fn(u32) -> bool)
    ensures
        forall|q: u32| #[trigger] s.filter(keep).contains(q) <==> s.contains(q) && keep(q),
        s.no_duplicates() ==> s.filter(keep).no_duplicates(),
    decreases s.len(),
{
    reveal(Seq::filter);
    if s.len() > 0 {
        let d = s.drop_last();
        let last = s.last();
        lemma_kept(d, keep);
        let f = d.filter(keep);
        let after = s.filter(keep);
        assert(s[s.len() - 1] == last);
        assert forall|q: u32| #[trigger] after.contains(q) <==> s.contains(q) && keep(q) by {
            if s.contains(q) && q != last {
                let i = choose|i: int| 0 <= i < s.len() && s[i] == q;
                assert(d[i] == q);
            }
            if d.contains(q) {
                let i = choose|i: int| 0 <= i < d.len() && d[i] == q;
                assert(s[i] == q);
            }
            assert(f.contains(q) <==> d.contains(q) && keep(q));
            if keep(last) {
                assert(after =~= f + seq![last]);
                lemma_joined_contains(f, seq![last], q);
                assert(seq![last][0] == last);
            }
        }
        if s.no_duplicates() {
            assert(!d.contains(last)) by {
                if d.contains(last) {
                    let i = choose|i: int| 0 <= i < d.len() && d[i] == last;
                    assert(s[i] == s[s.len() - 1]);
                }
            }
            assert(d.no_duplicates());
            assert forall|i: int, j: int| 0 <= i < after.len() && 0 <= j < after.len() && i
                != j implies after[i] != after[j] by {
                if keep(last) {
                    if i == f.len() {
                        assert(f.contains(f[j]));
                    }
                    if j == f.len() {
                        assert(f.contains(f[i]));
                    }
                }
            }
        }
    }
}

/// No two groups have one anchor.
pub open spec fn anchors_differ(groups: Seq<AggView>) -> bool {
    forall|i: int, j: int| 0 <= i < j < groups.len() ==> (#[trigger] groups[i]).anchor != (
    #[trigger] groups[j]).anchor
}

/// The listeners under one anchor come together.
pub proof fn anchors_are_gathered_once(w: World, listeners: Seq<Listener>)
    ensures
        anchors_differ(gathered(w, listeners)),
    decreases listeners.len(),
{
    if listeners.len() > 0 {
        anchors_are_gathered_once(w, listeners.drop_last());
        let before = gathered(w, listeners.drop_last());
        let l = listeners.last();
        let a = listener_anchor(w, l);
        let hits = agg_hits(before, a);
        lemma_first_hit(hits);
        let after = gathered(w, listeners);
        assert forall|i: int, j: int| 0 <= i < j < after.len() implies (
        #[trigger] after[i]).anchor != (#[trigger] after[j]).anchor by {
            if j < before.len() {
                assert(before[i].anchor != before[j].anchor);
                assert(after[i].anchor == before[i].anchor);
                assert(after[j].anchor == before[j].anchor);
            } else {
                assert(!hits[i]);
            }
        }
    }
}

/// The processes of a row under one anchor: of the descendants of the anchor those for
/// which it is the nearest listening anchor that takes them in. Each is the anchor
/// itself or works inside the project root.
pub proof fn row_stays_in_bounds(w: World, listeners: Seq<Listener>, i: int, q: u32)
    requires
        0 <= i < gathered(w, listeners).len(),
    ensures
        ({
            let groups = gathered(w, listeners);
            let a = groups[i].anchor;
            let pids = assigned(w, groups)[i].pids;
            &&& pids.contains(q) <==> tree_of(w, a).contains(q) && belongs(w, groups, a, q)
            &&& pids.contains(q) ==> proctree::stays_in(w.procs, groups[i].root, a, q)
        }),
{
    let groups = gathered(w, listeners);
    let a = groups[i].anchor;
    lemma_kept(tree_of(w, a), |p: u32| belongs(w, groups, a, p));
    if belongs(w, groups, a, q) {
        anchors_are_gathered_once(w, listeners);
        assert(takes(w.procs, groups, a, q));
        let k = choose|k: int|
            0 <= k < groups.len() && (#[trigger] groups[k]).anchor == a && proctree::stays_in(
                w.procs,
                groups[k].root,
                a,
                q,
            );
        if k < i {
            assert(groups[k].anchor != groups[i].anchor);
        } else if i < k {
            assert(groups[i].anchor != groups[k].anchor);
        }
    }
}

/// Nothing inside a listening project is left out: a descendant of a listening anchor
/// that the anchor takes in is some listening anchor's, unless it is of the session that
/// asks.
pub proof fn no_process_is_left_out(w: World, listeners: Seq<Listener>, a: u32, q: u32)
    requires
        is_table(w.procs, w.order),
        takes(w.procs, gathered(w, listeners), a, q),
        proctree::descends(w.procs, q, a),
        !is_own(w, q),
    ensures
        is_claimed(assigned(w, gathered(w, listeners)), q),
{
    let groups = gathered(w, listeners);
    let step = proctree::to_parent(w.procs);
    let good = takers(w.procs, groups, q);
    let n = choose|n: nat| #[trigger] proctree::walk(step, q, n) == Some(a);
    proctree::nearest_is_there(step, good, q, n);
    let b = choose|b: u32| #[trigger] proctree::is_nearest(step, good, q, b);
    let k = choose|k: nat| #[trigger] proctree::nearest_at(step, good, q, k, b);
    assert(proctree::walk(step, q, k) == Some(b));
    proctree::tree_is_all_descendants(w.procs, w.order, b);
    assert(takes(w.procs, groups, b, q));
    let i = choose|i: int|
        0 <= i < groups.len() && (#[trigger] groups[i]).anchor == b && proctree::stays_in(
            w.procs,
            groups[i].root,
            b,
            q,
        );
    row_stays_in_bounds(w, listeners, i, q);
    assert(assigned(w, groups)[i].pids.contains(q));
}

/// The process is that of the group, and the group's lowest port is the row's key.
spec fn held_by_group(groups: Seq<AggView>, t: TargetView, p: u32, k: int) -> bool {
    comes_of_group(groups, t, k) && groups[k].pids.contains(p)
}

proof fn lemma_listed_pid(
    w: World,
    listeners: Seq<Listener>,
    groups: Seq<AggView>,
    i: int,
    p: u32,
)
    requires
        0 <= i < listener_rows(w, listeners, groups).len(),
        listener_rows(w, listeners, groups)[i].pids.contains(p),
    ensures
        exists|k: int| #[trigger]
            held_by_group(groups, listener_rows(w, listeners, groups)[i], p, k),
    decreases groups.len(),
{
    let d = groups.drop_last();
    let g = groups.last();
    let t = listener_row(w, listeners, g);
    let before = listener_rows(w, listeners, d);
    let after = listener_rows(w, listeners, groups);
    let last = groups.len() - 1;
    assert(groups[last] == g);
    if !row_hidden(w, g) {
        lemma_first_hit(key_hits(before, t.key));
    }
    if i < before.len() {
        if before[i].pids.contains(p) {
            lemma_listed_pid(w, listeners, d, i, p);
            let k = choose|k: int| #[trigger] held_by_group(d, before[i], p, k);
            assert(groups[k] == d[k]);
            assert(after[i].key == before[i].key);
            assert(held_by_group(groups, after[i], p, k));
        } else {
            proctree::lemma_unseen(t.pids, before[i].pids);
            lemma_joined_contains(before[i].pids, unseen(t.pids, before[i].pids), p);
            assert(key_hits(before, t.key)[i]);
            assert(held_by_group(groups, after[i], p, last));
        }
    } else {
        assert(held_by_group(groups, after[i], p, last));
    }
}

/// The process is that of a watcher among `pids` with the identity of `v`.
spec fn held_by_watcher(
    w: World,
    groups: Seq<AggView>,
    pids: Seq<u32>,
    v: WatchView,
    p: u32,
    k: int,
) -> bool {
    &&& 0 <= k < pids.len()
    &&& watches(w, groups, w.procs[pids[k]])
    &&& same_watch(v, watcher_row(w, groups, w.procs[pids[k]]))
    &&& follows(w, groups, w.procs[pids[k]].pid, p)
}

proof fn lemma_watched_pid(w: World, groups: Seq<AggView>, pids: Seq<u32>, i: int, p: u32)
    requires
        0 <= i < watchers(w, groups, pids).len(),
        watchers(w, groups, pids)[i].pids.contains(p),
    ensures
        exists|k: int| #[trigger]
            held_by_watcher(w, groups, pids, watchers(w, groups, pids)[i], p, k),
        !is_claimed(groups, p),
        !is_own(w, p),
    decreases pids.len(),
{
    let d = pids.drop_last();
    let q = w.procs[pids.last()];
    let v = watcher_row(w, groups, q);
    let before = watchers(w, groups, d);
    let after = watchers(w, groups, pids);
    let last = pids.len() - 1;
    assert(pids[last] == pids.last());
    if watches(w, groups, q) {
        lemma_first_hit(watch_places(before, v));
        lemma_kept(tree_of(w, q.pid), |x: u32| follows(w, groups, q.pid, x));
    }
    if i < before.len() {
        if before[i].pids.contains(p) {
            lemma_watched_pid(w, groups, d, i, p);
            let k = choose|k: int| #[trigger] held_by_watcher(w, groups, d, before[i], p, k);
            assert(pids[k] == d[k]);
            assert(same_watch(after[i], before[i]));
            assert(held_by_watcher(w, groups, pids, after[i], p, k));
        } else {
            proctree::lemma_unseen(v.pids, before[i].pids);
            lemma_joined_contains(before[i].pids, unseen(v.pids, before[i].pids), p);
            assert(watch_places(before, v)[i]);
            assert(held_by_watcher(w, groups, pids, after[i], p, last));
        }
    } else {
        assert(held_by_watcher(w, groups, pids, after[i], p, last));
    }
}

/// Nothing of the session that asks is in any row.
pub proof fn own_session_is_never_listed(
    w: World,
    listeners: Seq<Listener>,
    containers: Map<u16, ContainerView>,
)
    ensures
        forall|i: int, p: u32|
            0 <= i < rows(w, listeners, containers).len() && #[trigger] rows(
                w,
                listeners,
                containers,
            )[i].pids.contains(p) ==> !is_own(w, p),
{
    let gs = gathered(w, listeners);
    let groups = assigned(w, gs);
    let ports = sorted_set(docker_listed(w, listeners));
    lemma_sorted_set(docker_listed(w, listeners));
    lemma_docker_rows(w, containers, ports);
    let a = listener_rows(w, listeners, groups);
    let aggs = watchers(w, groups, w.order);
    let b = watched_rows(w, aggs);
    let c = docker_rows(w, containers, ports);
    let all = rows(w, listeners, containers);
    let ab = (a.len() + b.len()) as int;
    assert(all =~= a + b + c);
    assert forall|i: int, p: u32|
        0 <= i < all.len() && #[trigger] all[i].pids.contains(p) implies !is_own(w, p) by {
        if i < a.len() {
            assert(all[i] == a[i]);
            lemma_listed_pid(w, listeners, groups, i, p);
            let k = choose|k: int| #[trigger] held_by_group(groups, a[i], p, k);
            row_stays_in_bounds(w, listeners, k, p);
        } else if i < ab {
            assert(all[i] == watched_row(w, aggs[i - a.len()]));
            lemma_watched_pid(w, groups, w.order, i - a.len(), p);
        } else {
            assert(all[i] == c[i - ab]);
        }
    }
}

proof fn lemma_listed_apart(w: World, listeners: Seq<Listener>, i: int, j: int, p: u32)
    requires
        0 <= i < j < listener_rows(w, listeners, assigned(w, gathered(w, listeners))).len(),
    ensures
        ({
            let a = listener_rows(w, listeners, assigned(w, gathered(w, listeners)));
            !(a[i].pids.contains(p) && a[j].pids.contains(p))
        }),
{
    let gs = gathered(w, listeners);
    let groups = assigned(w, gs);
    let a = listener_rows(w, listeners, groups);
    if a[i].pids.contains(p) && a[j].pids.contains(p) {
        lemma_gathered_have_ports(w, listeners);
        lemma_assigned_have_ports(w, gs);
        listener_keys_are_unique(w, listeners, groups);
        lemma_listed_pid(w, listeners, groups, i, p);
        lemma_listed_pid(w, listeners, groups, j, p);
        let x = choose|k: int| #[trigger] held_by_group(groups, a[i], p, k);
        let y = choose|k: int| #[trigger] held_by_group(groups, a[j], p, k);
        row_stays_in_bounds(w, listeners, x, p);
        row_stays_in_bounds(w, listeners, y, p);
        proctree::nearest_is_unique(
            proctree::to_parent(w.procs),
            takers(w.procs, gs, p),
            p,
            gs[x].anchor,
            gs[y].anchor,
        );
        anchors_are_gathered_once(w, listeners);
        if x < y {
            assert(gs[x].anchor != gs[y].anchor);
        } else if y < x {
            assert(gs[y].anchor != gs[x].anchor);
        }
        assert(a[i].key != a[j].key);
    }
}

proof fn lemma_watched_apart(w: World, groups: Seq<AggView>, i: int, j: int, p: u32)
    requires
        is_table(w.procs, w.order),
        0 <= i < j < watchers(w, groups, w.order).len(),
    ensures
        !(watchers(w, groups, w.order)[i].pids.contains(p) && watchers(
            w,
            groups,
            w.order,
        )[j].pids.contains(p)),
{
    let all = watchers(w, groups, w.order);
    if all[i].pids.contains(p) && all[j].pids.contains(p) {
        lemma_watchers_differ(w, groups, w.order);
        lemma_watched_pid(w, groups, w.order, i, p);
        lemma_watched_pid(w, groups, w.order, j, p);
        let x = choose|k: int| #[trigger] held_by_watcher(w, groups, w.order, all[i], p, k);
        let y = choose|k: int| #[trigger] held_by_watcher(w, groups, w.order, all[j], p, k);
        let a = w.procs[w.order[x]].pid;
        let b = w.procs[w.order[y]].pid;
        proctree::nearest_is_unique(proctree::to_parent(w.procs), watching(w, groups), p, a, b);
        assert(w.order.to_set().contains(w.order[x]));
        assert(w.order.to_set().contains(w.order[y]));
        assert(w.procs.contains_key(w.order[x]));
        assert(w.procs.contains_key(w.order[y]));
        assert(!same_watch(all[i], all[j]));
    }
}

/// A process is in one row at most: no two rows share one.
pub proof fn rows_share_no_process(
    w: World,
    listeners: Seq<Listener>,
    containers: Map<u16, ContainerView>,
)
    requires
        is_table(w.procs, w.order),
    ensures
        forall|i: int, j: int, p: u32|
            0 <= i < rows(w, listeners, containers).len() && 0 <= j < rows(
                w,
                listeners,
                containers,
            ).len() && #[trigger] rows(w, listeners, containers)[i].pids.contains(p)
                && #[trigger] rows(w, listeners, containers)[j].pids.contains(p) ==> i == j,
{
    let all = rows(w, listeners, containers);
    assert forall|i: int, j: int, p: u32|
        0 <= i < all.len() && 0 <= j < all.len() && #[trigger] all[i].pids.contains(p)
            && #[trigger] all[j].pids.contains(p) implies i == j by {
        if i < j {
            lemma_rows_apart(w, listeners, containers, i, j, p);
        } else if j < i {
            lemma_rows_apart(w, listeners, containers, j, i, p);
        }
    }
}

proof fn lemma_rows_apart(
    w: World,
    listeners: Seq<Listener>,
    containers: Map<u16, ContainerView>,
    i: int,
    j: int,
    p: u32,
)
    requires
        is_table(w.procs, w.order),
        0 <= i < j < rows(w, listeners, containers).len(),
    ensures
        !(rows(w, listeners, containers)[i].pids.contains(p) && rows(
            w,
            listeners,
            containers,
        )[j].pids.contains(p)),
{
    let groups = assigned(w, gathered(w, listeners));
    let ports = sorted_set(docker_listed(w, listeners));
    lemma_sorted_set(docker_listed(w, listeners));
    lemma_docker_rows(w, containers, ports);
    let a = listener_rows(w, listeners, groups);
    let aggs = watchers(w, groups, w.order);
    let b = watched_rows(w, aggs);
    let c = docker_rows(w, containers, ports);
    let all = rows(w, listeners, containers);
    let ab = (a.len() + b.len()) as int;
    assert(all =~= a + b + c);
    if all[i].pids.contains(p) && all[j].pids.contains(p) {
        if j >= ab {
            assert(all[j] == c[j - ab]);
        } else if j < a.len() {
            lemma_listed_apart(w, listeners, i, j, p);
        } else {
            assert(all[j] == watched_row(w, aggs[j - a.len()]));
            lemma_watched_pid(w, groups, w.order, j - a.len(), p);
            if i < a.len() {
                lemma_listed_pid(w, listeners, groups, i, p);
                let k = choose|k: int| #[trigger] held_by_group(groups, a[i], p, k);
                assert(groups[k].pids.contains(p));
            } else {
                assert(all[i] == watched_row(w, aggs[i - a.len()]));
                lemma_watched_apart(w, groups, i - a.len(), j - a.len(), p);
            }
        }
    }
}

proof fn lemma_listed_once(w: World, listeners: Seq<Listener>, groups: Seq<AggView>)
    requires
        forall|i: int| 0 <= i < groups.len() ==> (#[trigger] groups[i]).pids.no_duplicates(),
    ensures
        forall|i: int|
            0 <= i < listener_rows(w, listeners, groups).len() ==> (#[trigger] listener_rows(
                w,
                listeners,
                groups,
            )[i]).pids.no_duplicates(),
    decreases groups.len(),
{
    if groups.len() > 0 {
        let d = groups.drop_last();
        assert forall|i: int| 0 <= i < d.len() implies (
        #[trigger] d[i]).pids.no_duplicates() by {
            assert(groups[i].pids.no_duplicates());
        }
        lemma_listed_once(w, listeners, d);
        let before = listener_rows(w, listeners, d);
        let g = groups.last();
        assert(groups[groups.len() - 1].pids.no_duplicates());
        if !row_hidden(w, g) {
            let t = listener_row(w, listeners, g);
            let hits = key_hits(before, t.key);
            lemma_first_hit(hits);
            let after = with_row(before, t);
            match first_hit(hits) {
                Some(k) => {
                    assert(before[k].pids.no_duplicates());
                    lemma_joined_distinct(before[k].pids, t.pids);
                    assert forall|i: int| 0 <= i < after.len() implies (
                    #[trigger] after[i]).pids.no_duplicates() by {
                        if i != k {
                            assert(after[i] == before[i]);
                        }
                    }
                },
                None => {
                    assert forall|i: int| 0 <= i < after.len() implies (
                    #[trigger] after[i]).pids.no_duplicates() by {
                        if i < before.len() {
                            assert(after[i] == before[i]);
                        }
                    }
                },
            }
        }
    }
}

proof fn lemma_watched_once(w: World, groups: Seq<AggView>, pids: Seq<u32>)
    ensures
        forall|i: int|
            0 <= i < watchers(w, groups, pids).len() ==> (#[trigger] watchers(
                w,
                groups,
                pids,
            )[i]).pids.no_duplicates(),
    decreases pids.len(),
{
    if pids.len() > 0 {
        lemma_watched_once(w, groups, pids.drop_last());
        let before = watchers(w, groups, pids.drop_last());
        let p = w.procs[pids.last()];
        if watches(w, groups, p) {
            let v = watcher_row(w, groups, p);
            proctree::lemma_subtree(proctree::children_in(w.procs, w.order), p.pid);
            lemma_kept(tree_of(w, p.pid), |x: u32| follows(w, groups, p.pid, x));
            let hits = watch_places(before, v);
            lemma_first_hit(hits);
            let after = with_watcher(before, v);
            match first_hit(hits) {
                Some(k) => {
                    assert(before[k].pids.no_duplicates());
                    lemma_joined_distinct(before[k].pids, v.pids);
                    assert forall|i: int| 0 <= i < after.len() implies (
                    #[trigger] after[i]).pids.no_duplicates() by {
                        if i != k {
                            assert(after[i] == before[i]);
                        }
                    }
                },
                None => {
                    assert forall|i: int| 0 <= i < after.len() implies (
                    #[trigger] after[i]).pids.no_duplicates() by {
                        if i < before.len() {
                            assert(after[i] == before[i]);
                        }
                    }
                },
            }
        }
    }
}

/// Every process counts once in a row, also where rows or watchers were merged.
pub proof fn rows_count_once(
    w: World,
    listeners: Seq<Listener>,
    containers: Map<u16, ContainerView>,
)
    ensures
        forall|i: int|
            0 <= i < rows(w, listeners, containers).len() ==> (#[trigger] rows(
                w,
                listeners,
                containers,
            )[i]).pids.no_duplicates(),
{
    let gs = gathered(w, listeners);
    let groups = assigned(w, gs);
    assert forall|i: int| 0 <= i < groups.len() implies (
    #[trigger] groups[i]).pids.no_duplicates() by {
        let a = gs[i].anchor;
        proctree::lemma_subtree(proctree::children_in(w.procs, w.order), a);
        lemma_kept(tree_of(w, a), |p: u32| belongs(w, gs, a, p));
    }
    let ports = sorted_set(docker_listed(w, listeners));
    lemma_sorted_set(docker_listed(w, listeners));
    lemma_docker_rows(w, containers, ports);
    lemma_listed_once(w, listeners, groups);
    lemma_watched_once(w, groups, w.order);
    let a = listener_rows(w, listeners, groups);
    let aggs = watchers(w, groups, w.order);
    let b = watched_rows(w, aggs);
    let c = docker_rows(w, containers, ports);
    let all = rows(w, listeners, containers);
    let ab = (a.len() + b.len()) as int;
    assert(all =~= a + b + c);
    assert forall|i: int| 0 <= i < all.len() implies (#[trigger] all[i]).pids.no_duplicates() by {
        if i < a.len() {
            assert(all[i] == a[i]);
        } else if i < ab {
            assert(all[i] == watched_row(w, aggs[i - a.len()]));
        } else {
            assert(all[i] == c[i - ab]);
        }
    }
}

// ----------------------------------------------------------------------- order

/// The order of texts is total: what does not come after stays in that relation along
/// a chain.
pub proof fn lemma_precedes_chain(a: Seq<char>, b: Seq<char>, c: Seq<char>)
    requires
        !precedes(b, a),
        !precedes(c, b),
    ensures
        !precedes(c, a),
    decreases a.len(),
{
    if a.len() > 0 && b.len() > 0 && c.len() > 0 {
        if a[0] == b[0] && b[0] == c[0] {
            lemma_precedes_chain(a.drop_first(), b.drop_first(), c.drop_first());
        }
    }
}

pub proof fn lemma_precedes_one_way(a: Seq<char>, b: Seq<char>)
    requires
        precedes(a, b),
    ensures
        !precedes(b, a),
    decreases a.len(),
{
    if a.len() > 0 && b.len() > 0 && a[0] == b[0] {
        lemma_precedes_one_way(a.drop_first(), b.drop_first());
    }
}

pub proof fn lemma_order_chain(a: TargetView, b: TargetView, c: TargetView)
    requires
        !comes_before(b, a),
        !comes_before(c, b),
    ensures
        !comes_before(c, a),
{
    if a.ports.len() == 0 && b.ports.len() == 0 && c.ports.len() == 0 {
        lemma_precedes_chain(a.project, b.project, c.project);
    }
}

pub proof fn lemma_order_one_way(a: TargetView, b: TargetView)
    requires
        comes_before(a, b),
    ensures
        !comes_before(b, a),
{
    if a.ports.len() == 0 && b.ports.len() == 0 {
        lemma_precedes_one_way(a.project, b.project);
    }
}

/// No row comes before one that stands ahead of it.
pub open spec fn is_canonical(list: Seq<TargetView>) -> bool {
    forall|i: int, j: int|
        0 <= i < j < list.len() ==> !comes_before(#[trigger] list[j], #[trigger] list[i])
}

proof fn lemma_ranked(list: Seq<TargetView>, t: TargetView)
    requires
        is_canonical(list),
    ensures
        is_canonical(ranked(list, t)),
        ranked(list, t).to_multiset() == list.to_multiset().insert(t),
        ranked(list, t).len() == list.len() + 1,
    decreases list.len(),
{
    broadcast use vstd::seq_lib::group_to_multiset_ensures;

    let after = ranked(list, t);
    if list.len() == 0 || !comes_before(t, list.last()) {
        assert forall|i: int, j: int| 0 <= i < j < after.len() implies !comes_before(
            #[trigger] after[j],
            #[trigger] after[i],
        ) by {
            if j == list.len() {
                if i < list.len() - 1 {
                    assert(!comes_before(list[list.len() - 1], list[i]));
                    lemma_order_chain(list[i], list[list.len() - 1], t);
                }
            } else {
                assert(!comes_before(list[j], list[i]));
            }
        }
    } else {
        let d = list.drop_last();
        assert(is_canonical(d)) by {
            assert forall|i: int, j: int| 0 <= i < j < d.len() implies !comes_before(
                #[trigger] d[j],
                #[trigger] d[i],
            ) by {
                assert(!comes_before(list[j], list[i]));
            }
        }
        lemma_ranked(d, t);
        let r = ranked(d, t);
        assert(list =~= d.push(list.last()));
        assert(after.to_multiset() =~= list.to_multiset().insert(t));
        assert forall|i: int, j: int| 0 <= i < j < after.len() implies !comes_before(
            #[trigger] after[j],
            #[trigger] after[i],
        ) by {
            if j == r.len() {
                assert(r.contains(r[i]));
                assert(r.to_multiset().contains(r[i]));
                assert(d.to_multiset().contains(r[i]) || r[i] == t);
                if r[i] == t {
                    lemma_order_one_way(t, list.last());
                } else {
                    assert(d.contains(r[i]));
                    let k = choose|k: int| 0 <= k < d.len() && d[k] == r[i];
                    assert(!comes_before(list[list.len() - 1], list[k]));
                }
            } else {
                assert(!comes_before(r[j], r[i]));
            }
        }
    }
}

/// A snapshot is in canonical order and holds every row that was found, as often as
/// it was found.
pub proof fn snapshot_is_canonical(list: Seq<TargetView>)
    ensures
        is_canonical(canonical(list)),
        canonical(list).to_multiset() == list.to_multiset(),
        canonical(list).len() == list.len(),
    decreases list.len(),
{
    broadcast use vstd::seq_lib::group_to_multiset_ensures;

    if list.len() > 0 {
        snapshot_is_canonical(list.drop_last());
        lemma_ranked(canonical(list.drop_last()), list.last());
        assert(list =~= list.drop_last().push(list.last()));
    }
}

// -------------------------------------------------------------------- topology

/// Two rows that differ in nothing but their CPU figure.
pub open spec fn same_but_cpu(a: TargetView, b: TargetView) -> bool {
    TargetView { cpu: 0, ..a } == TargetView { cpu: 0, ..b }
}

pub open spec fn all_same_but_cpu(a: Seq<TargetView>, b: Seq<TargetView>) -> bool {
    &&& a.len() == b.len()
    &&& forall|i: int| 0 <= i < a.len() ==> same_but_cpu(#[trigger] a[i], b[i])
}

/// Smoothing changes nothing but CPU figures.
pub proof fn smoothing_keeps_rows(m: Map<(u32, u64), u64>, found: Seq<TargetView>)
    ensures
        all_same_but_cpu(smoothed(m, found).1, found),
    decreases found.len(),
{
    if found.len() > 0 {
        smoothing_keeps_rows(m, found.drop_last());
        let before = smoothed(m, found.drop_last()).1;
        let after = smoothed(m, found).1;
        assert forall|i: int| 0 <= i < after.len() implies same_but_cpu(
            #[trigger] after[i],
            found[i],
        ) by {
            if i < before.len() {
                assert(after[i] == before[i]);
                assert(same_but_cpu(before[i], found.drop_last()[i]));
            }
        }
    }
}

/// A snapshot shows each key once, and every target in it is what its kind says, as
/// long as no port is held both for a container and by another process.
pub proof fn snapshot_keys_are_unique(
    w: World,
    listeners: Seq<Listener>,
    containers: Map<u16, ContainerView>,
    m: Map<(u32, u64), u64>,
)
    requires
        ports_apart(w, listeners),
    ensures
        ({
            let shown = canonical(smoothed(m, rows(w, listeners, containers)).1);
            &&& keys_differ(shown)
            &&& forall|i: int| 0 <= i < shown.len() ==> is_proper(#[trigger] shown[i])
        }),
{
    let found = rows(w, listeners, containers);
    let smooth = smoothed(m, found).1;
    row_keys_are_unique(w, listeners, containers);
    smoothing_keeps_rows(m, found);
    assert forall|i: int, j: int| 0 <= i < j < smooth.len() implies (#[trigger] smooth[i]).key != (
    #[trigger] smooth[j]).key by {
        assert(same_but_cpu(smooth[i], found[i]));
        assert(same_but_cpu(smooth[j], found[j]));
        assert(found[i].key != found[j].key);
    }
    assert forall|i: int| 0 <= i < smooth.len() implies is_proper(#[trigger] smooth[i]) by {
        assert(same_but_cpu(smooth[i], found[i]));
        assert(is_proper(found[i]));
    }
    lemma_canonical_keys(smooth);
}

proof fn lemma_canonical_keys(list: Seq<TargetView>)
    requires
        keys_differ(list),
        forall|i: int| 0 <= i < list.len() ==> is_proper(#[trigger] list[i]),
    ensures
        keys_differ(canonical(list)),
        forall|i: int| 0 <= i < canonical(list).len() ==> is_proper(#[trigger] canonical(list)[i]),
{
    broadcast use vstd::seq_lib::group_to_multiset_ensures;

    let shown = canonical(list);
    snapshot_is_canonical(list);
    assert(list.no_duplicates()) by {
        assert forall|i: int, j: int| 0 <= i < list.len() && 0 <= j < list.len() && i
            != j implies list[i] != list[j] by {
            if i < j {
                assert(list[i].key != list[j].key);
            } else {
                assert(list[j].key != list[i].key);
            }
        }
    }
    list.lemma_multiset_has_no_duplicates();
    shown.lemma_multiset_has_no_duplicates_conv();
    assert forall|i: int| 0 <= i < shown.len() implies list.contains(#[trigger] shown[i]) by {
        assert(shown.contains(shown[i]));
        assert(shown.to_multiset().contains(shown[i]));
        assert(list.to_multiset().contains(shown[i]));
    }
    assert forall|i: int, j: int| 0 <= i < j < shown.len() implies (#[trigger] shown[i]).key != (
    #[trigger] shown[j]).key by {
        let x = choose|x: int| 0 <= x < list.len() && list[x] == shown[i];
        let y = choose|y: int| 0 <= y < list.len() && list[y] == shown[j];
        assert(list.contains(shown[i]) && list.contains(shown[j]));
        assert(shown[i] != shown[j]);
        if x < y {
            assert(list[x].key != list[y].key);
        } else {
            assert(list[y].key != list[x].key);
        }
    }
    assert forall|i: int| 0 <= i < shown.len() implies is_proper(#[trigger] shown[i]) by {
        assert(list.contains(shown[i]));
        let x = choose|x: int| 0 <= x < list.len() && list[x] == shown[i];
        assert(is_proper(list[x]));
    }
}

proof fn lemma_ranked_alike(a: Seq<TargetView>, b: Seq<TargetView>, s: TargetView, t: TargetView)
    requires
        all_same_but_cpu(a, b),
        same_but_cpu(s, t),
    ensures
        all_same_but_cpu(ranked(a, s), ranked(b, t)),
    decreases a.len(),
{
    if a.len() > 0 {
        assert(same_but_cpu(a[a.len() - 1], b[a.len() - 1]));
        assert(comes_before(s, a.last()) == comes_before(t, b.last()));
        if comes_before(s, a.last()) {
            assert forall|i: int| 0 <= i < a.drop_last().len() implies same_but_cpu(
                #[trigger] a.drop_last()[i],
                b.drop_last()[i],
            ) by {
                assert(same_but_cpu(a[i], b[i]));
            }
            lemma_ranked_alike(a.drop_last(), b.drop_last(), s, t);
            let x = ranked(a.drop_last(), s);
            let y = ranked(b.drop_last(), t);
            assert forall|i: int| 0 <= i < ranked(a, s).len() implies same_but_cpu(
                #[trigger] ranked(a, s)[i],
                ranked(b, t)[i],
            ) by {
                if i < x.len() {
                    assert(same_but_cpu(x[i], y[i]));
                }
            }
        } else {
            assert forall|i: int| 0 <= i < ranked(a, s).len() implies same_but_cpu(
                #[trigger] ranked(a, s)[i],
                ranked(b, t)[i],
            ) by {
                if i < a.len() {
                    assert(same_but_cpu(a[i], b[i]));
                }
            }
        }
    }
}

proof fn lemma_canonical_alike(a: Seq<TargetView>, b: Seq<TargetView>)
    requires
        all_same_but_cpu(a, b),
    ensures
        all_same_but_cpu(canonical(a), canonical(b)),
    decreases a.len(),
{
    if a.len() > 0 {
        assert forall|i: int| 0 <= i < a.drop_last().len() implies same_but_cpu(
            #[trigger] a.drop_last()[i],
            b.drop_last()[i],
        ) by {
            assert(same_but_cpu(a[i], b[i]));
        }
        lemma_canonical_alike(a.drop_last(), b.drop_last());
        assert(same_but_cpu(a[a.len() - 1], b[a.len() - 1]));
        lemma_ranked_alike(canonical(a.drop_last()), canonical(b.drop_last()), a.last(), b.last());
    }
}

/// The topology settles: builds that find the same rows have the same keys in the
/// same order, whatever CPU figures are remembered, so the second of them reports no
/// change.
pub proof fn topology_settles(
    m1: Map<(u32, u64), u64>,
    m2: Map<(u32, u64), u64>,
    found: Seq<TargetView>,
)
    ensures
        keys_of(canonical(smoothed(m1, found).1)) == keys_of(canonical(smoothed(m2, found).1)),
{
    smoothing_keeps_rows(m1, found);
    smoothing_keeps_rows(m2, found);
    let a = smoothed(m1, found).1;
    let b = smoothed(m2, found).1;
    assert forall|i: int| 0 <= i < a.len() implies same_but_cpu(#[trigger] a[i], b[i]) by {
        assert(same_but_cpu(b[i], found[i]));
    }
    lemma_canonical_alike(a, b);
    let x = canonical(a);
    let y = canonical(b);
    assert forall|i: int| 0 <= i < x.len() implies keys_of(x)[i] == keys_of(y)[i] by {
        assert(same_but_cpu(x[i], y[i]));
    }
    assert(keys_of(x) =~= keys_of(y));
}

// --------------------------------------------------------------------- figures

/// The CPU shares of the processes of a list that are in the table, together.
pub open spec fn cpu_over(m: Map<u32, ProcInfo>, pids: Seq<u32>) -> nat
    decreases pids.len(),
{
    if pids.len() == 0 {
        0
    } else {
        cpu_over(m, pids.drop_last()) + (if m.contains_key(pids.last()) {
            m[pids.last()].cpu as nat
        } else {
            0
        })
    }
}

/// The memory of the processes of a list that are in the table, together: of each its
/// footprint where the system has one.
pub open spec fn memory_over(m: Map<u32, ProcInfo>, pids: Seq<u32>) -> nat
    decreases pids.len(),
{
    if pids.len() == 0 {
        0
    } else {
        memory_over(m, pids.drop_last()) + (if m.contains_key(pids.last()) {
            match m[pids.last()].footprint {
                Some(f) => f as nat,
                None => m[pids.last()].mem_bytes as nat,
            }
        } else {
            0
        })
    }
}

/// A figure as far as it can be held.
pub open spec fn at_most(n: nat) -> nat {
    if n <= u64::MAX {
        n
    } else {
        u64::MAX as nat
    }
}

/// The row's figures are the sums over all of its own processes.
pub open spec fn sums_up(m: Map<u32, ProcInfo>, t: TargetView) -> bool {
    &&& t.cpu == at_most(cpu_over(m, t.pids))
    &&& t.mem_bytes == at_most(memory_over(m, t.pids))
}

proof fn lemma_totals(m: Map<u32, ProcInfo>, pids: Seq<u32>)
    ensures
        proctree::total_cpu(proctree::present(m, pids)) == cpu_over(m, pids),
        proctree::total_memory(proctree::present(m, pids)) == memory_over(m, pids),
    decreases pids.len(),
{
    if pids.len() > 0 {
        lemma_totals(m, pids.drop_last());
        if m.contains_key(pids.last()) {
            let before = proctree::present(m, pids.drop_last());
            assert(before.push(m[pids.last()]).drop_last() =~= before);
        }
    }
}

proof fn lemma_joined_figures(m: Map<u32, ProcInfo>, a: Seq<u32>, b: Seq<u32>)
    ensures
        cpu_over(m, a + b) == cpu_over(m, a) + cpu_over(m, b),
        memory_over(m, a + b) == memory_over(m, a) + memory_over(m, b),
    decreases b.len(),
{
    if b.len() > 0 {
        lemma_joined_figures(m, a, b.drop_last());
        assert((a + b).drop_last() =~= a + b.drop_last());
        assert((a + b).last() == b.last());
    } else {
        assert(a + b =~= a);
    }
}

proof fn lemma_all_unseen(list: Seq<u32>, out: Seq<u32>)
    requires
        list.no_duplicates(),
        forall|p: u32| !(#[trigger] list.contains(p) && out.contains(p)),
    ensures
        unseen(list, out) == list,
    decreases list.len(),
{
    if list.len() > 0 {
        let d = list.drop_last();
        assert(list[list.len() - 1] == list.last());
        assert(list.contains(list.last()));
        assert forall|p: u32| !(#[trigger] d.contains(p) && out.contains(p)) by {
            if d.contains(p) {
                let i = choose|i: int| 0 <= i < d.len() && d[i] == p;
                assert(list[i] == p);
                assert(list.contains(p));
            }
        }
        assert(d.no_duplicates());
        lemma_all_unseen(d, out);
        assert(!d.contains(list.last())) by {
            if d.contains(list.last()) {
                let i = choose|i: int| 0 <= i < d.len() && d[i] == list.last();
                assert(list[i] == list[list.len() - 1]);
            }
        }
        assert(d.push(list.last()) =~= list);
    }
}

/// No two of these groups share a process, and each counts its own once.
spec fn groups_apart(groups: Seq<AggView>) -> bool {
    &&& forall|i: int| 0 <= i < groups.len() ==> (#[trigger] groups[i]).pids.no_duplicates()
    &&& forall|i: int, j: int, p: u32|
        0 <= i < groups.len() && 0 <= j < groups.len() && #[trigger] groups[i].pids.contains(p)
            && #[trigger] groups[j].pids.contains(p) ==> i == j
}

proof fn lemma_groups_apart(w: World, listeners: Seq<Listener>)
    ensures
        groups_apart(assigned(w, gathered(w, listeners))),
{
    let gs = gathered(w, listeners);
    let groups = assigned(w, gs);
    assert forall|i: int| 0 <= i < groups.len() implies (
    #[trigger] groups[i]).pids.no_duplicates() by {
        let a = gs[i].anchor;
        proctree::lemma_subtree(proctree::children_in(w.procs, w.order), a);
        lemma_kept(tree_of(w, a), |p: u32| belongs(w, gs, a, p));
    }
    anchors_are_gathered_once(w, listeners);
    assert forall|i: int, j: int, p: u32|
        0 <= i < groups.len() && 0 <= j < groups.len() && #[trigger] groups[i].pids.contains(p)
            && #[trigger] groups[j].pids.contains(p) implies i == j by {
        row_stays_in_bounds(w, listeners, i, p);
        row_stays_in_bounds(w, listeners, j, p);
        proctree::nearest_is_unique(
            proctree::to_parent(w.procs),
            takers(w.procs, gs, p),
            p,
            gs[i].anchor,
            gs[j].anchor,
        );
        if i < j {
            assert(gs[i].anchor != gs[j].anchor);
        } else if j < i {
            assert(gs[j].anchor != gs[i].anchor);
        }
    }
}

proof fn lemma_listed_sums(w: World, listeners: Seq<Listener>, groups: Seq<AggView>)
    requires
        groups_apart(groups),
    ensures
        forall|i: int|
            0 <= i < listener_rows(w, listeners, groups).len() ==> sums_up(
                w.procs,
                #[trigger] listener_rows(w, listeners, groups)[i],
            ),
    decreases groups.len(),
{
    if groups.len() > 0 {
        let d = groups.drop_last();
        let g = groups.last();
        let last = groups.len() - 1;
        assert(groups[last] == g);
        assert(groups_apart(d)) by {
            assert forall|i: int| 0 <= i < d.len() implies (
            #[trigger] d[i]).pids.no_duplicates() by {
                assert(groups[i].pids.no_duplicates());
            }
            assert forall|i: int, j: int, p: u32|
                0 <= i < d.len() && 0 <= j < d.len() && #[trigger] d[i].pids.contains(p)
                    && #[trigger] d[j].pids.contains(p) implies i == j by {
                assert(groups[i].pids.contains(p) && groups[j].pids.contains(p));
            }
        }
        lemma_listed_sums(w, listeners, d);
        let before = listener_rows(w, listeners, d);
        let after = listener_rows(w, listeners, groups);
        let t = listener_row(w, listeners, g);
        lemma_totals(w.procs, g.pids);
        assert(sums_up(w.procs, t));
        if !row_hidden(w, g) {
            lemma_first_hit(key_hits(before, t.key));
            match first_hit(key_hits(before, t.key)) {
                Some(k) => {
                    assert(groups[last].pids.no_duplicates());
                    assert forall|p: u32| !(#[trigger] t.pids.contains(p)
                        && before[k].pids.contains(p)) by {
                        if t.pids.contains(p) && before[k].pids.contains(p) {
                            lemma_listed_pid(w, listeners, d, k, p);
                            let x = choose|x: int| #[trigger] held_by_group(d, before[k], p, x);
                            assert(groups[x] == d[x]);
                            assert(groups[x].pids.contains(p) && groups[last].pids.contains(p));
                        }
                    }
                    lemma_all_unseen(t.pids, before[k].pids);
                    lemma_joined_figures(w.procs, before[k].pids, t.pids);
                    assert(sums_up(w.procs, before[k]));
                    assert(sums_up(w.procs, after[k]));
                    assert forall|i: int| 0 <= i < after.len() implies sums_up(
                        w.procs,
                        #[trigger] after[i],
                    ) by {
                        if i != k {
                            assert(after[i] == before[i]);
                        }
                    }
                },
                None => {
                    assert forall|i: int| 0 <= i < after.len() implies sums_up(
                        w.procs,
                        #[trigger] after[i],
                    ) by {
                        if i < before.len() {
                            assert(after[i] == before[i]);
                        }
                    }
                },
            }
        }
    }
}

/// The CPU and the memory of every row are the sums over all of the row's own processes
/// that are in the process table, also where rows were merged; a row without a process
/// has none of either.
pub proof fn rows_sum_their_processes(
    w: World,
    listeners: Seq<Listener>,
    containers: Map<u16, ContainerView>,
)
    ensures
        forall|i: int|
            0 <= i < rows(w, listeners, containers).len() ==> sums_up(
                w.procs,
                #[trigger] rows(w, listeners, containers)[i],
            ),
{
    let gs = gathered(w, listeners);
    let groups = assigned(w, gs);
    let ports = sorted_set(docker_listed(w, listeners));
    lemma_sorted_set(docker_listed(w, listeners));
    lemma_docker_figures(w, containers, ports);
    lemma_groups_apart(w, listeners);
    lemma_listed_sums(w, listeners, groups);
    let a = listener_rows(w, listeners, groups);
    let aggs = watchers(w, groups, w.order);
    let b = watched_rows(w, aggs);
    let c = docker_rows(w, containers, ports);
    let all = rows(w, listeners, containers);
    let ab = (a.len() + b.len()) as int;
    assert(all =~= a + b + c);
    assert forall|i: int| 0 <= i < all.len() implies sums_up(w.procs, #[trigger] all[i]) by {
        if i < a.len() {
            assert(all[i] == a[i]);
        } else if i < ab {
            assert(all[i] == watched_row(w, aggs[i - a.len()]));
            lemma_totals(w.procs, aggs[i - a.len()].pids);
        } else {
            assert(all[i] == c[i - ab]);
        }
    }
}

proof fn lemma_docker_figures(w: World, containers: Map<u16, ContainerView>, ports: Seq<u16>)
    ensures
        forall|i: int|
            0 <= i < docker_rows(w, containers, ports).len() ==> sums_up(
                w.procs,
                #[trigger] docker_rows(w, containers, ports)[i],
            ),
    decreases ports.len(),
{
    if ports.len() > 0 {
        let d = ports.drop_last();
        lemma_docker_figures(w, containers, d);
        let before = docker_rows(w, containers, d);
        let after = docker_rows(w, containers, ports);
        assert forall|i: int| 0 <= i < after.len() implies sums_up(w.procs, #[trigger] after[i]) by {
            if i < before.len() {
                assert(after[i] == before[i]);
            }
        }
    }
}

proof fn lemma_one_of_many(m: Map<u32, ProcInfo>, pids: Seq<u32>, k: int)
    requires
        0 <= k < pids.len(),
        m.contains_key(pids[k]),
    ensures
        cpu_over(m, pids) >= m[pids[k]].cpu,
        memory_over(m, pids) >= (match m[pids[k]].footprint {
            Some(f) => f,
            None => m[pids[k]].mem_bytes,
        }),
    decreases pids.len(),
{
    if k < pids.len() - 1 {
        assert(pids.drop_last()[k] == pids[k]);
        lemma_one_of_many(m, pids.drop_last(), k);
    }
}

/// A row has at least the CPU and the memory of each single process in it.
pub proof fn rows_outweigh_each_process(
    w: World,
    listeners: Seq<Listener>,
    containers: Map<u16, ContainerView>,
    i: int,
    p: u32,
)
    requires
        0 <= i < rows(w, listeners, containers).len(),
        rows(w, listeners, containers)[i].pids.contains(p),
        w.procs.contains_key(p),
    ensures
        rows(w, listeners, containers)[i].cpu >= w.procs[p].cpu,
        rows(w, listeners, containers)[i].mem_bytes >= (match w.procs[p].footprint {
            Some(f) => f,
            None => w.procs[p].mem_bytes,
        }),
{
    rows_sum_their_processes(w, listeners, containers);
    let t = rows(w, listeners, containers)[i];
    assert(sums_up(w.procs, t));
    let k = choose|k: int| 0 <= k < t.pids.len() && t.pids[k] == p;
    lemma_one_of_many(w.procs, t.pids, k);
}

// ------------------------------------------------------------- what rows tell

/// The fingerprints of the row are those of its processes that are in the table.
pub open spec fn fingerprints_fit(m: Map<u32, ProcInfo>, t: TargetView) -> bool {
    forall|p: u32, s: u64| #[trigger]
        t.pid_starts.contains((p, s)) <==> t.pids.contains(p) && m.contains_key(p)
            && m[p].start_time == s
}

proof fn lemma_fingerprints(m: Map<u32, ProcInfo>, pids: Seq<u32>, p: u32, s: u64)
    requires
        forall|q: u32| #[trigger] m.contains_key(q) ==> m[q].pid == q,
    ensures
        proctree::fingerprints(proctree::present(m, pids)).contains((p, s)) <==> pids.contains(p)
            && m.contains_key(p) && m[p].start_time == s,
    decreases pids.len(),
{
    let all = proctree::fingerprints(proctree::present(m, pids));
    if pids.len() > 0 {
        let d = pids.drop_last();
        let q = pids.last();
        let before = proctree::fingerprints(proctree::present(m, d));
        lemma_fingerprints(m, d, p, s);
        assert(pids =~= d + seq![q]);
        lemma_joined_contains(d, seq![q], p);
        assert(seq![q][0] == q);
        if m.contains_key(q) {
            let one = seq![(q, m[q].start_time)];
            assert(m[q].pid == q);
            assert(all =~= before + one);
            lemma_joined_contains(before, one, (p, s));
            assert(one[0] == (q, m[q].start_time));
        }
    }
}

/// What the row tells of the process at its head is that process's own.
pub open spec fn tells_anchor(m: Map<u32, ProcInfo>, t: TargetView) -> bool {
    let a = t.anchor.pid;
    m.contains_key(a) ==> {
        &&& t.anchor.start_time == m[a].start_time
        &&& t.anchor_argv == texts(m[a].argv@)
        &&& m[a].cwd matches Some(c) ==> t.cwd == c@
        &&& m[a].cwd is None ==> t.cwd.len() == 0
    }
}

/// A listener row is reachable from outside exactly where one of its ports is.
pub open spec fn exposure_fits(listeners: Seq<Listener>, t: TargetView) -> bool {
    t.exposed <==> exists|i: int|
        0 <= i < listeners.len() && (#[trigger] listeners[i]).exposed && t.ports.contains(
            listeners[i].port,
        )
}

proof fn lemma_listed_facts(w: World, listeners: Seq<Listener>, groups: Seq<AggView>)
    requires
        is_table(w.procs, w.order),
    ensures
        forall|i: int|
            0 <= i < listener_rows(w, listeners, groups).len() ==> {
                let t = #[trigger] listener_rows(w, listeners, groups)[i];
                &&& fingerprints_fit(w.procs, t)
                &&& tells_anchor(w.procs, t)
                &&& exposure_fits(listeners, t)
                &&& t.container is None
            },
    decreases groups.len(),
{
    if groups.len() > 0 {
        let d = groups.drop_last();
        let g = groups.last();
        lemma_listed_facts(w, listeners, d);
        let before = listener_rows(w, listeners, d);
        let after = listener_rows(w, listeners, groups);
        let t = listener_row(w, listeners, g);
        assert(fingerprints_fit(w.procs, t)) by {
            assert forall|p: u32, s: u64| #[trigger] t.pid_starts.contains((p, s)) <==> t.pids.contains(
                p,
            ) && w.procs.contains_key(p) && w.procs[p].start_time == s by {
                lemma_fingerprints(w.procs, g.pids, p, s);
            }
        }
        if !row_hidden(w, g) {
            let hits = key_hits(before, t.key);
            lemma_first_hit(hits);
            match first_hit(hits) {
                Some(k) => {
                    let b = before[k];
                    let x = after[k];
                    assert(fingerprints_fit(w.procs, b) && exposure_fits(listeners, b));
                    assert(fingerprints_fit(w.procs, x)) by {
                        proctree::lemma_unseen(t.pids, b.pids);
                        proctree::lemma_unseen(t.pid_starts, b.pid_starts);
                        assert forall|p: u32, s: u64| #[trigger] x.pid_starts.contains((p, s))
                            <==> x.pids.contains(p) && w.procs.contains_key(p)
                            && w.procs[p].start_time == s by {
                            lemma_joined_contains(b.pids, unseen(t.pids, b.pids), p);
                            lemma_joined_contains(
                                b.pid_starts,
                                unseen(t.pid_starts, b.pid_starts),
                                (p, s),
                            );
                            assert(b.pid_starts.contains((p, s)) <==> b.pids.contains(p)
                                && w.procs.contains_key(p) && w.procs[p].start_time == s);
                            assert(t.pid_starts.contains((p, s)) <==> t.pids.contains(p)
                                && w.procs.contains_key(p) && w.procs[p].start_time == s);
                        }
                    }
                    assert(exposure_fits(listeners, x)) by {
                        lemma_sorted_set(b.ports + t.ports);
                        assert forall|q: u16| #[trigger] x.ports.contains(q) <==> b.ports.contains(
                            q,
                        ) || t.ports.contains(q) by {
                            lemma_joined_contains(b.ports, t.ports, q);
                            assert(sorted_set(b.ports + t.ports).contains(q) <==> (b.ports
                                + t.ports).contains(q));
                        }
                    }
                    assert(tells_anchor(w.procs, b));
                    assert forall|i: int| 0 <= i < after.len() implies {
                        let y = #[trigger] after[i];
                        &&& fingerprints_fit(w.procs, y)
                        &&& tells_anchor(w.procs, y)
                        &&& exposure_fits(listeners, y)
                        &&& y.container is None
                    } by {
                        if i != k {
                            assert(after[i] == before[i]);
                        }
                    }
                },
                None => {
                    assert forall|i: int| 0 <= i < after.len() implies {
                        let y = #[trigger] after[i];
                        &&& fingerprints_fit(w.procs, y)
                        &&& tells_anchor(w.procs, y)
                        &&& exposure_fits(listeners, y)
                        &&& y.container is None
                    } by {
                        if i < before.len() {
                            assert(after[i] == before[i]);
                        }
                    }
                },
            }
        }
    }
}

/// What a restart or a kill of a row needs is right: the fingerprints are exactly those of
/// its running processes, and start, command line and directory are those of its anchor.
/// A row of listeners is marked as reachable from outside exactly where one of its ports
/// is bound that way, and a watcher never is.
pub proof fn rows_tell_their_processes(
    w: World,
    listeners: Seq<Listener>,
    containers: Map<u16, ContainerView>,
)
    requires
        is_table(w.procs, w.order),
    ensures
        forall|i: int|
            0 <= i < rows(w, listeners, containers).len() ==> {
                let t = #[trigger] rows(w, listeners, containers)[i];
                t.container is None ==> {
                    &&& fingerprints_fit(w.procs, t)
                    &&& tells_anchor(w.procs, t)
                    &&& t.kind is Listener ==> exposure_fits(listeners, t)
                    &&& t.kind is Watched ==> !t.exposed && t.git_branch is None
                }
            },
{
    let groups = assigned(w, gathered(w, listeners));
    let ports = sorted_set(docker_listed(w, listeners));
    lemma_docker_facts(w, containers, ports);
    lemma_listed_facts(w, listeners, groups);
    let a = listener_rows(w, listeners, groups);
    let aggs = watchers(w, groups, w.order);
    let b = watched_rows(w, aggs);
    let c = docker_rows(w, containers, ports);
    let all = rows(w, listeners, containers);
    let ab = (a.len() + b.len()) as int;
    assert(all =~= a + b + c);
    assert forall|i: int| 0 <= i < all.len() && (#[trigger] all[i]).container is None implies {
        let t = all[i];
        &&& fingerprints_fit(w.procs, t)
        &&& tells_anchor(w.procs, t)
        &&& t.kind is Listener ==> exposure_fits(listeners, t)
        &&& t.kind is Watched ==> !t.exposed && t.git_branch is None
    } by {
        if i < a.len() {
            assert(all[i] == a[i]);
            lemma_listener_kinds(w, listeners, groups, i);
        } else if i < ab {
            let v = aggs[i - a.len()];
            let t = watched_row(w, v);
            assert(all[i] == t);
            assert forall|p: u32, s: u64| #[trigger] t.pid_starts.contains((p, s)) <==> t.pids.contains(
                p,
            ) && w.procs.contains_key(p) && w.procs[p].start_time == s by {
                lemma_fingerprints(w.procs, v.pids, p, s);
            }
            lemma_watched_source(w, groups, w.order, i - a.len());
            let k = choose|k: int| #[trigger] is_watcher_of(w, groups, w.order, v, k);
            assert(w.order.to_set().contains(w.order[k]));
            assert(w.procs.contains_key(w.order[k]));
        } else {
            assert(all[i] == c[i - ab]);
        }
    }
}

proof fn lemma_docker_facts(w: World, containers: Map<u16, ContainerView>, ports: Seq<u16>)
    ensures
        forall|i: int|
            0 <= i < docker_rows(w, containers, ports).len() ==> (#[trigger] docker_rows(
                w,
                containers,
                ports,
            )[i]).container is Some,
    decreases ports.len(),
{
    if ports.len() > 0 {
        lemma_docker_facts(w, containers, ports.drop_last());
        let before = docker_rows(w, containers, ports.drop_last());
        let after = docker_rows(w, containers, ports);
        assert forall|i: int| 0 <= i < after.len() implies (#[trigger] after[i]).container is Some by {
            if i < before.len() {
                assert(after[i] == before[i]);
            }
        }
    }
}

/// The watched row is headed by one of the watchers among `pids`.
spec fn is_watcher_of(w: World, groups: Seq<AggView>, pids: Seq<u32>, v: WatchView, k: int) -> bool {
    &&& 0 <= k < pids.len()
    &&& watches(w, groups, w.procs[pids[k]])
    &&& WatchView { pids: v.pids, ..watcher_row(w, groups, w.procs[pids[k]]) } == v
}

proof fn lemma_watched_source(w: World, groups: Seq<AggView>, pids: Seq<u32>, i: int)
    requires
        0 <= i < watchers(w, groups, pids).len(),
    ensures
        exists|k: int| #[trigger] is_watcher_of(w, groups, pids, watchers(w, groups, pids)[i], k),
    decreases pids.len(),
{
    let d = pids.drop_last();
    let q = w.procs[pids.last()];
    let v = watcher_row(w, groups, q);
    let before = watchers(w, groups, d);
    let after = watchers(w, groups, pids);
    let last = pids.len() - 1;
    assert(pids[last] == pids.last());
    if watches(w, groups, q) {
        lemma_first_hit(watch_places(before, v));
    }
    if i < before.len() {
        lemma_watched_source(w, groups, d, i);
        let k = choose|k: int| #[trigger] is_watcher_of(w, groups, d, before[i], k);
        assert(pids[k] == d[k]);
        assert(is_watcher_of(w, groups, pids, after[i], k));
    } else {
        assert(is_watcher_of(w, groups, pids, after[i], last));
    }
}

// -------------------------------------------------------------------- what is listed

/// The command lines of the processes of a list that are in the table, in order.
pub open spec fn lines_over(m: Map<u32, ProcInfo>, pids: Seq<u32>) -> Seq<Seq<Seq<char>>>
    decreases pids.len(),
{
    if pids.len() == 0 {
        Seq::empty()
    } else if m.contains_key(pids.last()) {
        lines_over(m, pids.drop_last()).push(texts(m[pids.last()].argv@))
    } else {
        lines_over(m, pids.drop_last())
    }
}

proof fn lemma_lines_over(m: Map<u32, ProcInfo>, pids: Seq<u32>)
    ensures
        proctree::command_lines(proctree::present(m, pids)) == lines_over(m, pids),
    decreases pids.len(),
{
    if pids.len() > 0 {
        lemma_lines_over(m, pids.drop_last());
    }
    assert(proctree::command_lines(proctree::present(m, pids)) =~= lines_over(m, pids));
}

/// The name that the project at a root has by itself.
pub open spec fn own_name(w: World, root: Option<Seq<char>>, cwd: Seq<char>) -> Seq<char> {
    match root {
        Some(r) => if w.names.contains_key(r) && w.names[r] is Some {
            w.names[r]->0
        } else {
            dir_name(r)
        },
        None => dir_name(cwd),
    }
}

/// The group that takes a target in, where one does, names its project.
pub open spec fn joins_group(
    w: World,
    t: TargetView,
    ports: Seq<u16>,
    project: Seq<char>,
) -> bool {
    t.project == (match group_of(w.rules.groups@, ports, project, t.command_label) {
        Some(g) => g,
        None => project,
    })
}

/// The row tells of the anchor and its subtree: the branch is that of its root; label and
/// URL come from the command lines of its processes, the project from its root, and then
/// from what the user's rules say of either.
pub open spec fn describes(w: World, g: AggView, low: u16, t: TargetView) -> bool {
    let lines = lines_over(w.procs, g.pids);
    let rules = w.rules.cmd_rules@;
    let given = label_given(rules, all_cmd_hits(rules, lines), lines, Some(low));
    let line = if w.procs.contains_key(g.anchor) {
        joined(texts(w.procs[g.anchor].argv@), " "@)
    } else {
        joined(Seq::empty(), " "@)
    };
    let pinned = overridden(
        w.rules.overrides@,
        override_hits(w.rules.overrides@, line),
        Some(low),
        own_name(w, g.root, t.cwd),
        given.0,
    );
    &&& t.anchor.pid == g.anchor
    &&& g.root is None ==> t.git_branch is None
    &&& g.root matches Some(r) ==> t.git_branch == (if w.branches.contains_key(r) {
        w.branches[r]
    } else {
        None
    })
    &&& t.url == given.1
    &&& t.command_label == pinned.1
    &&& t.key == KeyView::Port(low)
    &&& joins_group(w, t, sorted_set(g.ports), pinned.0)
    &&& g.ports.contains(low) && forall|q: u16| #[trigger] g.ports.contains(q) ==> low <= q
    &&& forall|q: u16| #[trigger] g.ports.contains(q) ==> t.ports.contains(q)
    &&& forall|p: u32| #[trigger] g.pids.contains(p) ==> t.pids.contains(p)
}

proof fn lemma_low(ports: Seq<u16>)
    requires
        ports.len() > 0,
    ensures
        ports.contains(sorted_set(ports)[0]),
        forall|q: u16| #[trigger] ports.contains(q) ==> sorted_set(ports)[0] <= q,
        forall|q: u16| sorted_set(ports).contains(q) <==> #[trigger] ports.contains(q),
{
    lemma_sorted_set(ports);
    let s = sorted_set(ports);
    assert(s.contains(s[0]));
    assert forall|q: u16| #[trigger] ports.contains(q) implies s[0] <= q by {
        assert(s.contains(q));
        let k = choose|k: int| 0 <= k < s.len() && s[k] == q;
        if k > 0 {
            assert(s[0] < s[k]);
        }
    }
}

proof fn lemma_described(w: World, listeners: Seq<Listener>, g: AggView)
    requires
        g.ports.len() > 0,
    ensures
        describes(w, g, sorted_set(g.ports)[0], listener_row(w, listeners, g)),
{
    lemma_low(g.ports);
    lemma_lines_over(w.procs, g.pids);
    let t = listener_row(w, listeners, g);
    assert(own_name(w, g.root, t.cwd) == crate::discover::project_at(w, g.root, t.cwd));
}

/// Some group heads the row.
spec fn headed_by(w: World, groups: Seq<AggView>, t: TargetView, k: int) -> bool {
    0 <= k < groups.len() && describes(w, groups[k], sorted_set(groups[k].ports)[0], t)
}

proof fn lemma_headed(w: World, listeners: Seq<Listener>, groups: Seq<AggView>, i: int)
    requires
        have_ports(groups),
        0 <= i < listener_rows(w, listeners, groups).len(),
    ensures
        exists|k: int| #[trigger]
            headed_by(w, groups, listener_rows(w, listeners, groups)[i], k),
    decreases groups.len(),
{
    let d = groups.drop_last();
    let g = groups.last();
    let last = groups.len() - 1;
    assert(groups[last] == g);
    assert(have_ports(d)) by {
        assert forall|x: int| 0 <= x < d.len() implies (#[trigger] d[x]).ports.len() > 0 by {
            assert(groups[x].ports.len() > 0);
        }
    }
    let before = listener_rows(w, listeners, d);
    let after = listener_rows(w, listeners, groups);
    let t = listener_row(w, listeners, g);
    assert(groups[last].ports.len() > 0);
    lemma_described(w, listeners, g);
    if !row_hidden(w, g) {
        lemma_first_hit(key_hits(before, t.key));
    }
    if i < before.len() {
        lemma_headed(w, listeners, d, i);
        let k = choose|k: int| #[trigger] headed_by(w, d, before[i], k);
        assert(groups[k] == d[k]);
        let low = sorted_set(groups[k].ports)[0];
        if after[i] != before[i] {
            let b = before[i];
            lemma_sorted_set(b.ports + t.ports);
            assert forall|q: u16| #[trigger]
                groups[k].ports.contains(q) implies after[i].ports.contains(q) by {
                assert(b.ports.contains(q));
                lemma_joined_contains(b.ports, t.ports, q);
                assert((b.ports + t.ports).contains(q));
            }
            assert forall|p: u32| #[trigger]
                groups[k].pids.contains(p) implies after[i].pids.contains(p) by {
                lemma_joined_contains(b.pids, unseen(t.pids, b.pids), p);
            }
        }
        assert(describes(w, groups[k], low, after[i]));
        assert(headed_by(w, groups, after[i], k));
    } else {
        assert(headed_by(w, groups, after[i], last));
    }
}

/// Every row of listeners is headed by one listening anchor, and what it tells is told of
/// that anchor: its lowest port is the key, the branch is that of its root, the label and
/// the URL are those of its command lines, the project is that of its root, and the user's
/// rules come on top.
pub proof fn rows_describe_their_anchor(
    w: World,
    listeners: Seq<Listener>,
    containers: Map<u16, ContainerView>,
    i: int,
)
    requires
        0 <= i < rows(w, listeners, containers).len(),
        rows(w, listeners, containers)[i].container is None,
        rows(w, listeners, containers)[i].kind is Listener,
    ensures
        exists|k: int, low: u16|
            0 <= k < gathered(w, listeners).len() && #[trigger] describes(
                w,
                assigned(w, gathered(w, listeners))[k],
                low,
                rows(w, listeners, containers)[i],
            ),
{
    let gs = gathered(w, listeners);
    let groups = assigned(w, gs);
    lemma_gathered_have_ports(w, listeners);
    lemma_assigned_have_ports(w, gs);
    let ports = sorted_set(docker_listed(w, listeners));
    lemma_docker_facts(w, containers, ports);
    let a = listener_rows(w, listeners, groups);
    let aggs = watchers(w, groups, w.order);
    let b = watched_rows(w, aggs);
    let c = docker_rows(w, containers, ports);
    let all = rows(w, listeners, containers);
    let ab = (a.len() + b.len()) as int;
    assert(all =~= a + b + c);
    if i < a.len() {
        assert(all[i] == a[i]);
        lemma_headed(w, listeners, groups, i);
        let k = choose|k: int| #[trigger] headed_by(w, groups, a[i], k);
        assert(describes(w, groups[k], sorted_set(groups[k].ports)[0], all[i]));
    } else if i < ab {
        assert(all[i] == watched_row(w, aggs[i - a.len()]));
    } else {
        assert(all[i] == c[i - ab]);
    }
}

proof fn lemma_gathered_all(w: World, listeners: Seq<Listener>, l: Listener)
    requires
        listeners.contains(l),
        counts(w, l),
    ensures
        exists|k: int|
            0 <= k < gathered(w, listeners).len() && (#[trigger] gathered(
                w,
                listeners,
            )[k]).ports.contains(l.port),
    decreases listeners.len(),
{
    let d = listeners.drop_last();
    let x = listeners.last();
    let before = gathered(w, d);
    let after = gathered(w, listeners);
    let i = choose|i: int| 0 <= i < listeners.len() && listeners[i] == l;
    let a = listener_anchor(w, x);
    lemma_first_hit(agg_hits(before, a));
    if i == listeners.len() - 1 {
        match first_hit(agg_hits(before, a)) {
            Some(k) => {
                assert(after[k].ports.last() == l.port);
                assert(after[k].ports.contains(l.port));
            },
            None => {
                assert(after[before.len() as int].ports[0] == l.port);
                assert(after[before.len() as int].ports.contains(l.port));
            },
        }
    } else {
        assert(d[i] == l);
        lemma_gathered_all(w, d, l);
        let k = choose|k: int|
            0 <= k < before.len() && (#[trigger] before[k]).ports.contains(l.port);
        if counts(w, x) {
            let n = choose|n: int| 0 <= n < before[k].ports.len() && before[k].ports[n] == l.port;
            assert(after[k].ports[n] == l.port);
            assert(after[k].ports.contains(l.port));
        }
    }
}

proof fn lemma_group_is_listed(w: World, listeners: Seq<Listener>, groups: Seq<AggView>, k: int)
    requires
        have_ports(groups),
        0 <= k < groups.len(),
        !row_hidden(w, groups[k]),
    ensures
        exists|i: int|
            {
                let t = #[trigger] listener_rows(w, listeners, groups)[i];
                &&& 0 <= i < listener_rows(w, listeners, groups).len()
                &&& forall|q: u16| #[trigger] groups[k].ports.contains(q) ==> t.ports.contains(q)
                &&& forall|p: u32| #[trigger] groups[k].pids.contains(p) ==> t.pids.contains(p)
            },
    decreases groups.len(),
{
    let d = groups.drop_last();
    let g = groups.last();
    assert(groups[groups.len() - 1] == g);
    let before = listener_rows(w, listeners, d);
    let after = listener_rows(w, listeners, groups);
    let t = listener_row(w, listeners, g);
    let hits = key_hits(before, t.key);
    lemma_first_hit(hits);
    if k == groups.len() - 1 {
        lemma_low(g.ports);
        match first_hit(hits) {
            Some(x) => {
                let b = before[x];
                lemma_sorted_set(b.ports + t.ports);
                proctree::lemma_unseen(t.pids, b.pids);
                assert forall|q: u16| #[trigger] g.ports.contains(q) implies after[x].ports.contains(
                    q,
                ) by {
                    assert(t.ports.contains(q));
                    lemma_joined_contains(b.ports, t.ports, q);
                    assert((b.ports + t.ports).contains(q));
                }
                assert forall|p: u32| #[trigger] g.pids.contains(p) implies after[x].pids.contains(
                    p,
                ) by {
                    lemma_joined_contains(b.pids, unseen(t.pids, b.pids), p);
                }
            },
            None => {
                assert(after[before.len() as int] == t);
                assert forall|q: u16| #[trigger] g.ports.contains(q) implies after[before.len() as int].ports.contains(
                    q,
                ) by {
                    assert(t.ports.contains(q));
                }
            },
        }
    } else {
        assert(d[k] == groups[k]);
        assert(have_ports(d)) by {
            assert forall|i: int| 0 <= i < d.len() implies (#[trigger] d[i]).ports.len() > 0 by {
                assert(groups[i].ports.len() > 0);
            }
        }
        lemma_group_is_listed(w, listeners, d, k);
        let i = choose|i: int|
            {
                let t = #[trigger] before[i];
                &&& 0 <= i < before.len()
                &&& forall|q: u16| #[trigger] d[k].ports.contains(q) ==> t.ports.contains(q)
                &&& forall|p: u32| #[trigger] d[k].pids.contains(p) ==> t.pids.contains(p)
            };
        let b = before[i];
        if !row_hidden(w, g) && first_hit(hits) == Some(i) {
            lemma_sorted_set(b.ports + t.ports);
            assert forall|q: u16| #[trigger] groups[k].ports.contains(q) implies after[i].ports.contains(
                q,
            ) by {
                assert(b.ports.contains(q));
                lemma_joined_contains(b.ports, t.ports, q);
                assert((b.ports + t.ports).contains(q));
            }
            assert forall|p: u32| #[trigger] groups[k].pids.contains(p) implies after[i].pids.contains(
                p,
            ) by {
                assert(b.pids.contains(p));
                lemma_joined_contains(b.pids, unseen(t.pids, b.pids), p);
            }
        } else {
            assert(after[i] == before[i]);
        }
    }
}

/// Nothing that listens is passed over: the port of every listener that runs, is not of
/// the session that asks, does not hold it for a container and works in a project or under
/// the home directory stands in some row, as long as no rule hides anything.
pub proof fn every_listener_is_listed(
    w: World,
    listeners: Seq<Listener>,
    containers: Map<u16, ContainerView>,
    l: Listener,
)
    requires
        w.rules.ignores@.len() == 0,
        listeners.contains(l),
        w.procs.contains_key(l.pid),
        !is_own(w, l.pid),
        !crate::docker::names_binder(w.procs[l.pid].name@),
        listener_root(w, l) is Some || (w.procs[l.pid].cwd is Some && w.home is Some
            && crate::paths::within(w.procs[l.pid].cwd->0@, w.home->0)),
    ensures
        exists|i: int|
            0 <= i < rows(w, listeners, containers).len() && (#[trigger] rows(
                w,
                listeners,
                containers,
            )[i]).ports.contains(l.port) && rows(w, listeners, containers)[i].container is None,
{
    let gs = gathered(w, listeners);
    let groups = assigned(w, gs);
    lemma_gathered_have_ports(w, listeners);
    lemma_assigned_have_ports(w, gs);
    assert(counts(w, l));
    lemma_gathered_all(w, listeners, l);
    let k = choose|k: int| 0 <= k < gs.len() && (#[trigger] gs[k]).ports.contains(l.port);
    assert(groups[k].ports == gs[k].ports);
    assert(!row_hidden(w, groups[k]));
    lemma_group_is_listed(w, listeners, groups, k);
    let a = listener_rows(w, listeners, groups);
    let i = choose|i: int|
        {
            let t = #[trigger] a[i];
            &&& 0 <= i < a.len()
            &&& forall|q: u16| #[trigger] groups[k].ports.contains(q) ==> t.ports.contains(q)
            &&& forall|p: u32| #[trigger] groups[k].pids.contains(p) ==> t.pids.contains(p)
        };
    assert(a[i].ports.contains(l.port));
    let all = rows(w, listeners, containers);
    assert(all[i] == a[i]);
    lemma_no_container(w, listeners, groups, i);
}

proof fn lemma_no_container(w: World, listeners: Seq<Listener>, groups: Seq<AggView>, i: int)
    requires
        0 <= i < listener_rows(w, listeners, groups).len(),
    ensures
        listener_rows(w, listeners, groups)[i].container is None,
    decreases groups.len(),
{
    let d = groups.drop_last();
    let g = groups.last();
    let before = listener_rows(w, listeners, d);
    if !row_hidden(w, g) {
        lemma_first_hit(key_hits(before, listener_row(w, listeners, g).key));
    }
    if i < before.len() {
        lemma_no_container(w, listeners, d, i);
    }
}

/// Every port of a row of listeners is one that a listed process holds: a process that
/// runs, is not of the session that asks and does not hold the port for a container.
pub proof fn listed_ports_are_held(
    w: World,
    listeners: Seq<Listener>,
    groups: Seq<AggView>,
    i: int,
    port: u16,
)
    requires
        groups == assigned(w, gathered(w, listeners)),
        0 <= i < listener_rows(w, listeners, groups).len(),
        listener_rows(w, listeners, groups)[i].ports.contains(port),
    ensures
        exists|k: int|
            {
                &&& 0 <= k < listeners.len()
                &&& (#[trigger] listeners[k]).port == port
                &&& w.procs.contains_key(listeners[k].pid)
                &&& !is_own(w, listeners[k].pid)
                &&& !crate::docker::names_binder(w.procs[listeners[k].pid].name@)
            },
{
    let gs = gathered(w, listeners);
    lemma_row_ports(w, listeners, groups, i, port);
    let k = choose|k: int| 0 <= k < groups.len() && (#[trigger] groups[k]).ports.contains(port);
    assert(gs[k].ports.contains(port));
    lemma_gathered_ports(w, listeners);
    assert(is_counted(w, listeners, port));
}

proof fn lemma_row_ports(
    w: World,
    listeners: Seq<Listener>,
    groups: Seq<AggView>,
    i: int,
    port: u16,
)
    requires
        0 <= i < listener_rows(w, listeners, groups).len(),
        listener_rows(w, listeners, groups)[i].ports.contains(port),
    ensures
        exists|k: int| 0 <= k < groups.len() && (#[trigger] groups[k]).ports.contains(port),
    decreases groups.len(),
{
    let d = groups.drop_last();
    let g = groups.last();
    assert(groups[groups.len() - 1] == g);
    let before = listener_rows(w, listeners, d);
    let after = listener_rows(w, listeners, groups);
    let t = listener_row(w, listeners, g);
    lemma_sorted_set(g.ports);
    if !row_hidden(w, g) {
        lemma_first_hit(key_hits(before, t.key));
    }
    if i < before.len() {
        if before[i].ports.contains(port) {
            lemma_row_ports(w, listeners, d, i, port);
            let k = choose|k: int| 0 <= k < d.len() && (#[trigger] d[k]).ports.contains(port);
            assert(groups[k] == d[k]);
        } else {
            lemma_sorted_set(before[i].ports + t.ports);
            assert((before[i].ports + t.ports).contains(port));
            lemma_joined_contains(before[i].ports, t.ports, port);
            assert(g.ports.contains(port));
        }
    } else {
        assert(g.ports.contains(port));
    }
}

/// Every watched row is headed by a process that watches, outside every listening project
/// and outside the session that asks: label and project are those of that process, with
/// what the user's groups say on top.
pub proof fn watched_rows_describe_their_watcher(
    w: World,
    listeners: Seq<Listener>,
    containers: Map<u16, ContainerView>,
    i: int,
)
    requires
        is_table(w.procs, w.order),
        0 <= i < rows(w, listeners, containers).len(),
        rows(w, listeners, containers)[i].kind is Watched,
    ensures
        ({
            let t = rows(w, listeners, containers)[i];
            let p = t.anchor.pid;
            let proc = w.procs[p];
            let argv = texts(proc.argv@);
            let rules = w.rules.watch_rules@;
            &&& w.procs.contains_key(p)
            &&& !is_own(w, p)
            &&& !is_claimed(assigned(w, gathered(w, listeners)), p)
            &&& !names_shell(proc.name@)
            &&& Some(t.command_label) == watcher_given(
                rules,
                watch_hits(rules, joined(argv, " "@)),
                argv,
            )
            &&& joins_group(w, t, Seq::empty(), own_name(w, root_at(w, opt_text(proc.cwd)), t.cwd))
            &&& t.ports.len() == 0 && t.url is None
        }),
{
    let groups = assigned(w, gathered(w, listeners));
    let ports = sorted_set(docker_listed(w, listeners));
    lemma_sorted_set(docker_listed(w, listeners));
    lemma_docker_rows(w, containers, ports);
    let a = listener_rows(w, listeners, groups);
    let aggs = watchers(w, groups, w.order);
    let b = watched_rows(w, aggs);
    let c = docker_rows(w, containers, ports);
    let all = rows(w, listeners, containers);
    let ab = (a.len() + b.len()) as int;
    assert(all =~= a + b + c);
    if i < a.len() {
        lemma_listener_kinds(w, listeners, groups, i);
    } else if i < ab {
        let v = aggs[i - a.len()];
        assert(all[i] == watched_row(w, v));
        lemma_watched_source(w, groups, w.order, i - a.len());
        let k = choose|k: int| #[trigger] is_watcher_of(w, groups, w.order, v, k);
        assert(w.order.to_set().contains(w.order[k]));
        assert(w.procs.contains_key(w.order[k]));
        let cwd = all[i].cwd;
        let root = root_at(w, opt_text(w.procs[w.order[k]].cwd));
        assert(own_name(w, root, cwd) == crate::discover::project_at(w, root, cwd));
    } else {
        assert(all[i] == c[i - ab]);
    }
}

// ------------------------------------------------------------------ containers

/// The row is that of the container that publishes the port.
pub open spec fn shows_container(w: World, t: TargetView, port: u16, c: ContainerView) -> bool {
    &&& t.key == KeyView::Port(port)
    &&& t.ports == seq![port]
    &&& t.container == Some(c.name)
    &&& t.command_label == c.image
    &&& t.exposed == c.exposed
    &&& t.pids.len() == 0 && t.pid_starts.len() == 0 && t.anchor_argv.len() == 0
    &&& t.anchor.start_time == 0
    &&& t.url == Some(standard_url(c.image, port))
    &&& joins_group(w, t, seq![port], c.name)
}

proof fn lemma_docker_shown(
    w: World,
    containers: Map<u16, ContainerView>,
    ports: Seq<u16>,
    port: u16,
)
    requires
        ports.contains(port),
        docker_shows(w, containers, port),
    ensures
        exists|i: int|
            0 <= i < docker_rows(w, containers, ports).len() && shows_container(
                w,
                #[trigger] docker_rows(w, containers, ports)[i],
                port,
                containers[port],
            ),
    decreases ports.len(),
{
    let d = ports.drop_last();
    let before = docker_rows(w, containers, d);
    let after = docker_rows(w, containers, ports);
    let k = choose|k: int| 0 <= k < ports.len() && ports[k] == port;
    if k == ports.len() - 1 {
        assert(shows_container(w, after[before.len() as int], port, containers[port]));
    } else {
        assert(d[k] == port);
        lemma_docker_shown(w, containers, d, port);
        let i = choose|i: int|
            0 <= i < before.len() && shows_container(
                w,
                #[trigger] before[i],
                port,
                containers[port],
            );
        assert(after[i] == before[i]);
    }
}

proof fn lemma_docker_source(
    w: World,
    containers: Map<u16, ContainerView>,
    ports: Seq<u16>,
    i: int,
)
    requires
        0 <= i < docker_rows(w, containers, ports).len(),
    ensures
        exists|port: u16| #[trigger]
            ports.contains(port) && containers.contains_key(port) && shows_container(
                w,
                docker_rows(w, containers, ports)[i],
                port,
                containers[port],
            ),
    decreases ports.len(),
{
    let d = ports.drop_last();
    let before = docker_rows(w, containers, d);
    let after = docker_rows(w, containers, ports);
    assert(ports[ports.len() - 1] == ports.last());
    if i < before.len() {
        assert(after[i] == before[i]);
        lemma_docker_source(w, containers, d, i);
        let port = choose|port: u16| #[trigger]
            d.contains(port) && containers.contains_key(port) && shows_container(
                w,
                before[i],
                port,
                containers[port],
            );
        let k = choose|k: int| 0 <= k < d.len() && d[k] == port;
        assert(ports[k] == port);
        assert(ports.contains(port));
    } else {
        assert(ports.contains(ports.last()));
        assert(shows_container(w, after[i], ports.last(), containers[ports.last()]));
    }
}

proof fn lemma_docker_listed_all(w: World, listeners: Seq<Listener>, l: Listener)
    requires
        listeners.contains(l),
        is_docker(w, l),
    ensures
        docker_listed(w, listeners).contains(l.port),
    decreases listeners.len(),
{
    let d = listeners.drop_last();
    let i = choose|i: int| 0 <= i < listeners.len() && listeners[i] == l;
    let before = docker_listed(w, d);
    let after = docker_listed(w, listeners);
    if i == listeners.len() - 1 {
        assert(after[before.len() as int] == l.port);
    } else {
        assert(d[i] == l);
        lemma_docker_listed_all(w, d, l);
        let k = choose|k: int| 0 <= k < before.len() && before[k] == l.port;
        assert(after[k] == l.port);
    }
}

/// A port that a process holds for a container, and that the containers publish, has a
/// row that names the container, its image and its URL, as long as no rule hides anything;
/// it has no process to signal and no command line to start.
pub proof fn published_ports_become_rows(
    w: World,
    listeners: Seq<Listener>,
    containers: Map<u16, ContainerView>,
    l: Listener,
)
    requires
        w.rules.ignores@.len() == 0,
        listeners.contains(l),
        w.procs.contains_key(l.pid),
        !is_own(w, l.pid),
        crate::docker::names_binder(w.procs[l.pid].name@),
        containers.contains_key(l.port),
    ensures
        exists|i: int|
            0 <= i < rows(w, listeners, containers).len() && shows_container(
                w,
                #[trigger] rows(w, listeners, containers)[i],
                l.port,
                containers[l.port],
            ),
{
    let ports = sorted_set(docker_listed(w, listeners));
    lemma_sorted_set(docker_listed(w, listeners));
    lemma_docker_listed_all(w, listeners, l);
    assert(ports.contains(l.port));
    assert(docker_shows(w, containers, l.port));
    lemma_docker_shown(w, containers, ports, l.port);
    let groups = assigned(w, gathered(w, listeners));
    let a = listener_rows(w, listeners, groups);
    let b = watched_rows(w, watchers(w, groups, w.order));
    let c = docker_rows(w, containers, ports);
    let all = rows(w, listeners, containers);
    let i = choose|i: int|
        0 <= i < c.len() && shows_container(w, #[trigger] c[i], l.port, containers[l.port]);
    assert(all =~= a + b + c);
    assert(all[a.len() + b.len() + i] == c[i]);
}

/// Every row of a container is that of one that publishes a port which some process holds
/// for containers.
pub proof fn container_rows_are_published(
    w: World,
    listeners: Seq<Listener>,
    containers: Map<u16, ContainerView>,
    i: int,
)
    requires
        0 <= i < rows(w, listeners, containers).len(),
        rows(w, listeners, containers)[i].container is Some,
    ensures
        exists|k: int|
            {
                &&& 0 <= k < listeners.len()
                &&& w.procs.contains_key((#[trigger] listeners[k]).pid)
                &&& !is_own(w, listeners[k].pid)
                &&& crate::docker::names_binder(w.procs[listeners[k].pid].name@)
                &&& containers.contains_key(listeners[k].port)
                &&& shows_container(
                    w,
                    rows(w, listeners, containers)[i],
                    listeners[k].port,
                    containers[listeners[k].port],
                )
            },
{
    let ports = sorted_set(docker_listed(w, listeners));
    lemma_sorted_set(docker_listed(w, listeners));
    let groups = assigned(w, gathered(w, listeners));
    let a = listener_rows(w, listeners, groups);
    let aggs = watchers(w, groups, w.order);
    let b = watched_rows(w, aggs);
    let c = docker_rows(w, containers, ports);
    let all = rows(w, listeners, containers);
    let ab = (a.len() + b.len()) as int;
    assert(all =~= a + b + c);
    if i < a.len() {
        lemma_no_container(w, listeners, groups, i);
    } else if i < ab {
        assert(all[i] == watched_row(w, aggs[i - a.len()]));
    } else {
        assert(all[i] == c[i - ab]);
        lemma_docker_source(w, containers, ports, i - ab);
        let port = choose|port: u16| #[trigger]
            ports.contains(port) && containers.contains_key(port) && shows_container(
                w,
                c[i - ab],
                port,
                containers[port],
            );
        lemma_docker_listed(w, listeners);
        assert(docker_listed(w, listeners).contains(port));
        assert(is_published(w, listeners, port));
    }
}

// ----------------------------------------------------------------- own session

/// The session that asks is the asking process and, step by step, the parents of what is
/// in it; nothing else is.
pub proof fn own_session_is_the_line_of_parents(w: World, p: u32, q: u32)
    ensures
        is_own(w, w.me),
        is_own(w, p) && w.procs.contains_key(p) && w.procs[p].ppid == Some(q) && q != 0 ==> is_own(
            w,
            q,
        ),
        is_own(w, q) && q != w.me ==> exists|c: u32| #[trigger]
            is_own(w, c) && w.procs.contains_key(c) && w.procs[c].ppid == Some(q) && q != 0,
{
    let step = proctree::to_live_parent(w.procs);
    assert(proctree::walk(step, w.me, 0) == Some(w.me));
    if is_own(w, p) && w.procs.contains_key(p) && w.procs[p].ppid == Some(q) && q != 0 {
        let n = choose|n: nat| #[trigger] proctree::walk(step, w.me, n) == Some(p);
        assert(proctree::walk(step, w.me, n + 1) == Some(q));
    }
    if is_own(w, q) && q != w.me {
        let n = choose|n: nat| #[trigger] proctree::walk(step, w.me, n) == Some(q);
        assert(n > 0);
        let c = proctree::walk(step, w.me, (n - 1) as nat)->0;
        assert(proctree::walk(step, w.me, (n - 1) as nat) == Some(c));
        assert(is_own(w, c));
    }
}

// -------------------------------------------------------------------- snapshot

/// In a snapshot the targets with ports come first, by their lowest port, and the others
/// behind them by project.
pub proof fn snapshot_stands_by_port(list: Seq<TargetView>, i: int, j: int)
    requires
        0 <= i < j < list.len(),
    ensures
        ({
            let a = canonical(list)[i];
            let b = canonical(list)[j];
            &&& b.ports.len() > 0 ==> a.ports.len() > 0 && a.ports[0] <= b.ports[0]
            &&& a.ports.len() == 0 ==> b.ports.len() == 0 && !precedes(b.project, a.project)
        }),
{
    snapshot_is_canonical(list);
    assert(!comes_before(canonical(list)[j], canonical(list)[i]));
}

/// Texts are ordered by the first character in which they differ, and a text stands ahead
/// of what goes on from it.
pub proof fn texts_are_ordered_by_characters(
    head: Seq<char>,
    x: char,
    y: char,
    a: Seq<char>,
    b: Seq<char>,
)
    requires
        x < y,
    ensures
        precedes(head + seq![x] + a, head + seq![y] + b),
        !precedes(head + seq![y] + b, head + seq![x] + a),
        precedes(head, head + seq![x] + a),
        !precedes(head, head),
    decreases head.len(),
{
    let p = head + seq![x] + a;
    let q = head + seq![y] + b;
    if head.len() > 0 {
        let d = head.drop_first();
        texts_are_ordered_by_characters(d, x, y, a, b);
        assert(p.drop_first() =~= d + seq![x] + a);
        assert(q.drop_first() =~= d + seq![y] + b);
        assert(p[0] == head[0] && q[0] == head[0]);
    } else {
        assert(p[0] == x && q[0] == y);
    }
}

/// A snapshot shows exactly the rows that were found, and changes nothing of them but
/// their CPU figure.
pub proof fn snapshot_shows_what_was_found(
    m: Map<(u32, u64), u64>,
    found: Seq<TargetView>,
    i: int,
)
    requires
        0 <= i < found.len(),
    ensures
        ({
            let shown = canonical(smoothed(m, found).1);
            &&& shown.len() == found.len()
            &&& exists|k: int| 0 <= k < found.len() && same_but_cpu(#[trigger] shown[k], found[i])
            &&& exists|k: int| 0 <= k < found.len() && same_but_cpu(shown[i], #[trigger] found[k])
        }),
{
    broadcast use vstd::seq_lib::group_to_multiset_ensures;

    let smooth = smoothed(m, found).1;
    let shown = canonical(smooth);
    smoothing_keeps_rows(m, found);
    snapshot_is_canonical(smooth);
    assert(same_but_cpu(smooth[i], found[i]));
    assert(smooth.contains(smooth[i]));
    assert(smooth.to_multiset().contains(smooth[i]));
    assert(shown.to_multiset().contains(smooth[i]));
    assert(shown.contains(smooth[i]));
    let k = choose|k: int| 0 <= k < shown.len() && shown[k] == smooth[i];
    assert(same_but_cpu(shown[k], found[i]));
    assert(shown.contains(shown[i]));
    assert(shown.to_multiset().contains(shown[i]));
    assert(smooth.to_multiset().contains(shown[i]));
    assert(smooth.contains(shown[i]));
    let x = choose|x: int| 0 <= x < smooth.len() && smooth[x] == shown[i];
    assert(same_but_cpu(smooth[x], found[x]));
}

/// The CPU figure of a target moves two fifths of the way to what was measured, away from
/// what was shown of the same process before; a process not seen before starts with what
/// was measured. What is shown is remembered.
pub proof fn cpu_moves_two_fifths(m: Map<(u32, u64), u64>, found: Seq<TargetView>, i: int)
    requires
        0 <= i < found.len(),
        forall|k: int| 0 <= k < found.len() && k != i ==> (#[trigger] found[k]).anchor != found[i].anchor,
    ensures
        ({
            let a = found[i].anchor;
            let raw = found[i].cpu;
            let shown = smoothed(m, found).1[i].cpu;
            let seen = smoothed(m, found).0;
            &&& m.contains_key((a.pid, a.start_time)) ==> 5 * shown <= 2 * raw + 3 * m[(
                a.pid,
                a.start_time,
            )] < 5 * shown + 5
            &&& !m.contains_key((a.pid, a.start_time)) ==> shown == raw
            &&& seen.contains_key((a.pid, a.start_time)) && seen[(a.pid, a.start_time)] == shown
        }),
    decreases found.len(),
{
    let d = found.drop_last();
    let before = smoothed(m, d);
    let after = smoothed(m, found);
    let a = found[i].anchor;
    let key = (a.pid, a.start_time);
    smoothing_keeps_rows(m, d);
    if i == found.len() - 1 {
        assert forall|k: int| 0 <= k < d.len() implies (#[trigger] d[k]).anchor != a by {
            assert(d[k] == found[k]);
        }
        lemma_untouched(m, d, a);
        assert(after.1[i].cpu == crate::smoothing::blended(
            found[i].cpu,
            crate::smoothing::last_or(before.0, key, found[i].cpu),
        ));
    } else {
        assert(d[i] == found[i]);
        assert forall|k: int| 0 <= k < d.len() && k != i implies (#[trigger] d[k]).anchor
            != d[i].anchor by {
            assert(d[k] == found[k]);
        }
        cpu_moves_two_fifths(m, d, i);
        assert(after.1[i] == before.1[i]);
        assert(found[found.len() - 1].anchor != a);
    }
}

proof fn lemma_untouched(m: Map<(u32, u64), u64>, found: Seq<TargetView>, a: Anchor)
    requires
        forall|k: int| 0 <= k < found.len() ==> (#[trigger] found[k]).anchor != a,
    ensures
        smoothed(m, found).0.contains_key((a.pid, a.start_time)) <==> m.contains_key(
            (a.pid, a.start_time),
        ),
        m.contains_key((a.pid, a.start_time)) ==> smoothed(m, found).0[(a.pid, a.start_time)] == m[(
            a.pid,
            a.start_time,
        )],
    decreases found.len(),
{
    if found.len() > 0 {
        let d = found.drop_last();
        assert forall|k: int| 0 <= k < d.len() implies (#[trigger] d[k]).anchor != a by {
            assert(d[k] == found[k]);
        }
        lemma_untouched(m, d, a);
        assert(found[found.len() - 1].anchor != a);
    }
}

/// Of the remembered figures exactly those of processes that are still shown are kept.
pub proof fn dead_processes_are_forgotten(
    m: Map<(u32, u64), u64>,
    shown: Seq<TargetView>,
    pid: u32,
    start: u64,
)
    ensures
        ({
            let after = crate::smoothing::kept(m, crate::smoothing::anchors(shown));
            &&& after.contains_key((pid, start)) <==> m.contains_key((pid, start)) && exists|i: int|
                0 <= i < shown.len() && (#[trigger] shown[i]).anchor.pid == pid
                    && shown[i].anchor.start_time == start
            &&& after.contains_key((pid, start)) ==> after[(pid, start)] == m[(pid, start)]
        }),
{
    let live = crate::smoothing::anchors(shown);
    if live.contains((pid, start)) {
        let i = choose|i: int| 0 <= i < live.len() && live[i] == (pid, start);
        assert(shown[i].anchor.pid == pid);
    }
    if exists|i: int|
        0 <= i < shown.len() && (#[trigger] shown[i]).anchor.pid == pid
            && shown[i].anchor.start_time == start {
        let i = choose|i: int|
            0 <= i < shown.len() && (#[trigger] shown[i]).anchor.pid == pid
                && shown[i].anchor.start_time == start;
        assert(live[i] == (pid, start));
    }
}

/// A row of listeners keeps to its project: where the anchor has a project root, each
/// process of the row is the anchor or works inside the root; each descends from the
/// anchor.
pub proof fn rows_keep_to_their_project(w: World, listeners: Seq<Listener>, i: int, q: u32)
    requires
        is_table(w.procs, w.order),
        0 <= i < gathered(w, listeners).len(),
        assigned(w, gathered(w, listeners))[i].pids.contains(q),
    ensures
        ({
            let g = gathered(w, listeners)[i];
            &&& proctree::descends(w.procs, q, g.anchor)
            &&& g.root matches Some(r) ==> q == g.anchor || w.procs.contains_key(q)
                && w.procs[q].cwd is Some && crate::paths::within(w.procs[q].cwd->0@, r)
        }),
{
    row_stays_in_bounds(w, listeners, i, q);
    proctree::tree_is_all_descendants(w.procs, w.order, gathered(w, listeners)[i].anchor);
}

// ----------------------------------------------------------------------- climbs

/// Programs that hold sessions together and are never part of a project.
pub open spec fn session_names() -> Seq<Seq<char>> {
    seq![
        "tmux"@,
        "tmux: server"@,
        "login"@,
        "sshd"@,
        "ssh"@,
        "init"@,
        "launchd"@,
        "systemd"@,
    ]
}

/// A process that a project's processes may hang under: it is neither at the top of all
/// processes nor barred, it runs, is no shell and holds no session, and works inside the
/// root.
pub open spec fn may_be_climbed_to(
    m: Map<u32, ProcInfo>,
    barred: Set<u32>,
    root: Seq<char>,
    q: u32,
) -> bool {
    &&& q > 1
    &&& !barred.contains(q)
    &&& m.contains_key(q)
    &&& !crate::naming_laws::is_shell_file(m[q].name@)
    &&& forall|i: int| 0 <= i < session_names().len() ==> m[q].name@ != #[trigger] session_names()[i]
    &&& m[q].cwd is Some
    &&& crate::paths::within(m[q].cwd->0@, root)
}

proof fn lemma_climb_step(m: Map<u32, ProcInfo>, barred: Set<u32>, root: Seq<char>, p: u32, q: u32)
    ensures
        proctree::to_project_parent(m, barred, root)(p) == Some(q) <==> m.contains_key(p)
            && m[p].ppid == Some(q) && may_be_climbed_to(m, barred, root, q),
{
    if m.contains_key(q) {
        let name = m[q].name@;
        crate::naming_laws::lemma_shells(name);
        let s = session_names();
        assert(s[0] == "tmux"@ && s[1] == "tmux: server"@ && s[2] == "login"@ && s[3] == "sshd"@
            && s[4] == "ssh"@ && s[5] == "init"@ && s[6] == "launchd"@ && s[7] == "systemd"@);
        assert(proctree::is_launcher(name) <==> crate::naming_laws::is_shell_file(name) || exists|
            i: int,
        |
            0 <= i < s.len() && #[trigger] s[i] == name);
    }
}

/// A climb goes from a process to the topmost one that it can be climbed to, parent by
/// parent: it ends where it started or at such a process above it, and goes on as long as
/// there is one that it has not come by.
pub proof fn climbs_end_at_the_top_of_the_project(
    m: Map<u32, ProcInfo>,
    barred: Set<u32>,
    root: Seq<char>,
    start: u32,
    r: u32,
    q: u32,
)
    requires
        proctree::is_end(proctree::to_project_parent(m, barred, root), start, r),
    ensures
        r != start ==> may_be_climbed_to(m, barred, root, r) && proctree::descends(m, start, r),
        m.contains_key(r) && m[r].ppid == Some(q) && may_be_climbed_to(m, barred, root, q)
            ==> proctree::reaches(proctree::to_project_parent(m, barred, root), start, q),
{
    let step = proctree::to_project_parent(m, barred, root);
    let n = choose|n: nat| #[trigger] proctree::ends_at(step, start, n, r);
    if n > 0 {
        let p = proctree::walk(step, start, (n - 1) as nat)->0;
        assert(step(p) == Some(r));
        lemma_climb_step(m, barred, root, p, r);
    }
    lemma_climb_is_descent(m, barred, root, start, n);
    if m.contains_key(r) && m[r].ppid == Some(q) && may_be_climbed_to(m, barred, root, q) {
        lemma_climb_step(m, barred, root, r, q);
        assert(proctree::walk(step, start, n + 1) == Some(q));
    }
}

proof fn lemma_climb_is_descent(
    m: Map<u32, ProcInfo>,
    barred: Set<u32>,
    root: Seq<char>,
    start: u32,
    n: nat,
)
    ensures
        proctree::walk(proctree::to_project_parent(m, barred, root), start, n) matches Some(x)
            ==> proctree::walk(proctree::to_parent(m), start, n) == Some(x),
    decreases n,
{
    if n > 0 {
        lemma_climb_is_descent(m, barred, root, start, (n - 1) as nat);
        let step = proctree::to_project_parent(m, barred, root);
        match proctree::walk(step, start, (n - 1) as nat) {
            Some(p) => {
                match step(p) {
                    Some(x) => {
                        lemma_climb_step(m, barred, root, p, x);
                    },
                    None => {},
                }
            },
            None => {},
        }
    }
}

// ------------------------------------------------------------------------ hiding

/// What a rule hides is not listed: no row of listeners has a key whose anchor's command
/// line or label an ignore rule names, and no watcher one whose command line does.
pub proof fn hidden_rows_are_not_listed(
    w: World,
    listeners: Seq<Listener>,
    groups: Seq<AggView>,
    g: AggView,
    pids: Seq<u32>,
    p: u32,
)
    requires
        g.ports.len() > 0,
    ensures
        ({
            let rules = w.rules.ignores@;
            let ports = sorted_set(g.ports);
            let lines = lines_over(w.procs, g.pids);
            let label = label_given(
                w.rules.cmd_rules@,
                all_cmd_hits(w.rules.cmd_rules@, lines),
                lines,
                Some(ports[0]),
            ).0;
            let line = if w.procs.contains_key(g.anchor) {
                joined(texts(w.procs[g.anchor].argv@), " "@)
            } else {
                joined(Seq::empty(), " "@)
            };
            hidden(rules, ignore_hits(rules, line), ports) || hidden(
                rules,
                ignore_hits(rules, label),
                ports,
            ) ==> listener_rows(w, listeners, groups.push(g)) == listener_rows(w, listeners, groups)
        }),
        hidden(
            w.rules.ignores@,
            ignore_hits(w.rules.ignores@, joined(texts(w.procs[p].argv@), " "@)),
            Seq::empty(),
        ) ==> watchers(w, groups, pids.push(p)) == watchers(w, groups, pids),
{
    lemma_lines_over(w.procs, g.pids);
    assert(groups.push(g).drop_last() =~= groups);
    assert(pids.push(p).drop_last() =~= pids);
}

/// A container whose image or name an ignore rule names is not listed.
pub proof fn hidden_containers_are_not_listed(
    w: World,
    containers: Map<u16, ContainerView>,
    ports: Seq<u16>,
    port: u16,
)
    requires
        containers.contains_key(port),
        hidden(
            w.rules.ignores@,
            ignore_hits(w.rules.ignores@, containers[port].image),
            seq![port],
        ) || hidden(
            w.rules.ignores@,
            ignore_hits(w.rules.ignores@, containers[port].name),
            seq![port],
        ),
    ensures
        docker_rows(w, containers, ports.push(port)) == docker_rows(w, containers, ports),
{
    assert(ports.push(port).drop_last() =~= ports);
}

// ------------------------------------------------------------------------ builds

/// A build is made of what it is given: the processes, the asking process and the branches
/// are those of the call, and the rest is what the sampler has learned.
pub proof fn builds_see_what_they_are_given(
    s: Sampler,
    procs: ProcTable,
    me: u32,
    branches: Map<Seq<char>, Option<Seq<char>>>,
)
    ensures
        ({
            let w = world(s, procs, me, branches);
            &&& w.procs == procs@ && w.order == procs.order()
            &&& w.me == me && w.branches == branches
            &&& w.home == opt_text(s.home)
            &&& w.roots == s.roots@ && w.names == s.names@
            &&& w.rules == s.resolver
        }),
{
}

/// A build shows every row that discovery finds, and nothing else; it is numbered after the
/// one before, brings the error of the scan along, and forgets what it learned of places
/// exactly where something came or went.
pub proof fn builds_show_what_is_found(
    a: Sampler,
    b: Sampler,
    listeners: Result<Vec<Listener>, String>,
    procs: ProcTable,
    me: u32,
    branches: Map<Seq<char>, Option<Seq<char>>>,
    containers: Map<u16, ContainerView>,
    r: Snapshot,
    list: Seq<Listener>,
    i: int,
)
    requires
        built(a, b, listeners, procs, me, branches, containers, r),
        listeners matches Ok(l) ==> list == l@,
        listeners is Err ==> list.len() == 0,
    ensures
        ({
            let found = rows(world(a, procs, me, branches), list, containers);
            let shown = target_views(r.targets@);
            &&& shown.len() == found.len()
            &&& 0 <= i < found.len() ==> (exists|k: int|
                0 <= k < shown.len() && same_but_cpu(#[trigger] shown[k], found[i])) && (exists|
                k: int,
            |
                0 <= k < found.len() && same_but_cpu(shown[i], #[trigger] found[k]))
            &&& listeners is Ok ==> r.error is None
            &&& listeners matches Err(e) ==> r.error == Some(e)
            &&& a.seq < u64::MAX ==> r.seq == a.seq + 1
            &&& b.seq == r.seq
            &&& b.topology_changed ==> b.roots@ == Map::<Seq<char>, Option<Seq<char>>>::empty()
                && b.names@ == Map::<Seq<char>, Option<Seq<char>>>::empty()
            &&& !b.topology_changed ==> b.roots == a.roots && b.names == a.names
            &&& b.topology_changed <==> !(forall|k: KeyView| #[trigger]
                keys_of(shown).contains(k) <==> key_views(a.last_topology@).contains(k))
        }),
{
    let found = rows(world(a, procs, me, branches), list, containers);
    let shown = target_views(r.targets@);
    assert(scanned(listeners) =~= list);
    snapshot_is_canonical(smoothed(a.ewma@, found).1);
    smoothing_keeps_rows(a.ewma@, found);
    if 0 <= i < found.len() {
        snapshot_shows_what_was_found(a.ewma@, found, i);
    }
    let x = keys_of(shown);
    let y = key_views(a.last_topology@);
    if x.to_set() == y.to_set() {
        assert forall|k: KeyView| #[trigger] x.contains(k) <==> y.contains(k) by {
            assert(x.to_set().contains(k) <==> y.to_set().contains(k));
        }
    }
    if forall|k: KeyView| #[trigger] x.contains(k) <==> y.contains(k) {
        assert(x.to_set() =~= y.to_set());
    }
}

/// The root of every place that a row could come from is asked for: the directory of each
/// listener that is no forwarder's, and of each watcher, outside the session that asks.
pub proof fn every_place_is_asked_for(w: World, listeners: Seq<Listener>, i: int, p: u32)
    ensures
        0 <= i < listeners.len() && w.procs.contains_key(listeners[i].pid) && !is_own(
            w,
            listeners[i].pid,
        ) && !crate::docker::names_binder(w.procs[listeners[i].pid].name@) && w.procs[listeners[i].pid].cwd is Some
            ==> is_wanted(w, listeners, w.procs[listeners[i].pid].cwd->0@),
        w.procs.contains_key(p) && !is_own(w, p) && !names_shell(w.procs[p].name@)
            && watcher_given(
            w.rules.watch_rules@,
            watch_hits(w.rules.watch_rules@, joined(texts(w.procs[p].argv@), " "@)),
            texts(w.procs[p].argv@),
        ) is Some && !hidden(
            w.rules.ignores@,
            ignore_hits(w.rules.ignores@, joined(texts(w.procs[p].argv@), " "@)),
            Seq::empty(),
        ) && w.procs[p].cwd is Some ==> is_wanted(w, listeners, w.procs[p].cwd->0@),
{
    if 0 <= i < listeners.len() {
        assert(listeners[i] == listeners[i]);
    }
}

proof fn lemma_watch_row_holds(w: World, groups: Seq<AggView>, pids: Seq<u32>, p: u32, q: u32)
    requires
        pids.contains(p),
        watches(w, groups, w.procs[p]),
        watch_pids(w, groups, w.procs[p].pid).contains(q),
    ensures
        exists|i: int|
            0 <= i < watchers(w, groups, pids).len() && (#[trigger] watchers(
                w,
                groups,
                pids,
            )[i]).pids.contains(q),
    decreases pids.len(),
{
    let d = pids.drop_last();
    let x = w.procs[pids.last()];
    let before = watchers(w, groups, d);
    let after = watchers(w, groups, pids);
    let v = watcher_row(w, groups, x);
    if watches(w, groups, x) {
        lemma_first_hit(watch_places(before, v));
    }
    if pids.last() == p {
        match first_hit(watch_places(before, v)) {
            Some(k) => {
                proctree::lemma_unseen(v.pids, before[k].pids);
                lemma_joined_contains(before[k].pids, unseen(v.pids, before[k].pids), q);
                assert(after[k].pids.contains(q));
            },
            None => {
                assert(after[before.len() as int] == v);
            },
        }
    } else {
        let k = choose|k: int| 0 <= k < pids.len() && pids[k] == p;
        assert(d[k] == p);
        lemma_watch_row_holds(w, groups, d, p, q);
        let i = choose|i: int| 0 <= i < before.len() && (#[trigger] before[i]).pids.contains(q);
        lemma_joined_contains(before[i].pids, unseen(v.pids, before[i].pids), q);
        assert(after[i].pids.contains(q));
    }
}

/// Nothing that a watcher started is left out: a process below one that watches stands in
/// some watched row, unless it belongs to a listener or to the session that asks.
pub proof fn no_watched_process_is_left_out(
    w: World,
    listeners: Seq<Listener>,
    containers: Map<u16, ContainerView>,
    a: u32,
    q: u32,
)
    requires
        is_table(w.procs, w.order),
        w.procs.contains_key(a),
        watches(w, assigned(w, gathered(w, listeners)), w.procs[a]),
        proctree::descends(w.procs, q, a),
        !is_claimed(assigned(w, gathered(w, listeners)), q),
        !is_own(w, q),
    ensures
        exists|i: int|
            0 <= i < rows(w, listeners, containers).len() && (#[trigger] rows(
                w,
                listeners,
                containers,
            )[i]).kind is Watched && rows(w, listeners, containers)[i].pids.contains(q),
{
    let groups = assigned(w, gathered(w, listeners));
    let step = proctree::to_parent(w.procs);
    let good = watching(w, groups);
    let n = choose|n: nat| #[trigger] proctree::walk(step, q, n) == Some(a);
    proctree::nearest_is_there(step, good, q, n);
    let b = choose|b: u32| #[trigger] proctree::is_nearest(step, good, q, b);
    let k = choose|k: nat| #[trigger] proctree::nearest_at(step, good, q, k, b);
    assert(proctree::walk(step, q, k) == Some(b));
    assert(w.procs.contains_key(b) && watches(w, groups, w.procs[b]));
    proctree::tree_is_all_descendants(w.procs, w.order, b);
    lemma_kept(tree_of(w, b), |x: u32| follows(w, groups, b, x));
    assert(w.procs[b].pid == b);
    assert(watch_pids(w, groups, b).contains(q));
    assert(w.order.to_set().contains(b));
    lemma_watch_row_holds(w, groups, w.order, b, q);
    let aggs = watchers(w, groups, w.order);
    let i = choose|i: int| 0 <= i < aggs.len() && (#[trigger] aggs[i]).pids.contains(q);
    let rs = listener_rows(w, listeners, groups);
    let all = rows(w, listeners, containers);
    assert(all[rs.len() + i] == watched_row(w, aggs[i]));
}

/// The root of a listening anchor is the first one that is known of its listeners: another
/// listener gives one only where there was none.
pub proof fn the_first_known_root_is_kept(w: World, listeners: Seq<Listener>, l: Listener, k: int)
    requires
        0 <= k < gathered(w, listeners).len(),
    ensures
        ({
            let before = gathered(w, listeners)[k];
            let after = gathered(w, listeners.push(l))[k];
            &&& gathered(w, listeners.push(l)).len() >= gathered(w, listeners).len()
            &&& after.anchor == before.anchor
            &&& before.root is Some ==> after.root == before.root
            &&& before.root is None && counts(w, l) && listener_anchor(w, l) == before.anchor
                ==> after.root == listener_root(w, l)
            &&& forall|p: u16| #[trigger] before.ports.contains(p) ==> after.ports.contains(p)
        }),
{
    assert(listeners.push(l).drop_last() =~= listeners);
    let before = gathered(w, listeners);
    let hits = agg_hits(before, listener_anchor(w, l));
    lemma_first_hit(hits);
    anchors_are_gathered_once(w, listeners);
    let after = gathered(w, listeners.push(l));
    if counts(w, l) {
        match first_hit(hits) {
            Some(i) => {
                if i < k {
                    assert(before[i].anchor != before[k].anchor);
                } else if k < i {
                    assert(before[k].anchor != before[i].anchor);
                }
            },
            None => {
                assert(!hits[k]);
            },
        }
        assert forall|p: u16| #[trigger] before[k].ports.contains(p) implies after[k].ports.contains(
            p,
        ) by {
            let n = choose|n: int| 0 <= n < before[k].ports.len() && before[k].ports[n] == p;
            assert(after[k].ports[n] == p);
        }
    }
}

/// Nothing else is asked for: a place asked for is the directory of a process outside the
/// session that asks, which holds a port and is no forwarder, or watches and is no shell.
pub proof fn no_other_place_is_asked_for(w: World, listeners: Seq<Listener>, cwd: Seq<char>)
    requires
        is_wanted(w, listeners, cwd),
    ensures
        exists|p: u32| #[trigger]
            w.procs.contains_key(p) && !is_own(w, p) && opt_text(w.procs[p].cwd) == Some(cwd) && ({
                ||| !crate::docker::names_binder(w.procs[p].name@) && exists|i: int|
                    0 <= i < listeners.len() && (#[trigger] listeners[i]).pid == p
                ||| !names_shell(w.procs[p].name@) && watcher_given(
                    w.rules.watch_rules@,
                    watch_hits(w.rules.watch_rules@, joined(texts(w.procs[p].argv@), " "@)),
                    texts(w.procs[p].argv@),
                ) is Some
            }),
{
    if exists|i: int|
        0 <= i < listeners.len() && crate::discover::is_foreign(w, #[trigger] listeners[i])
            && !crate::docker::names_binder(w.procs[listeners[i].pid].name@) && opt_text(
            w.procs[listeners[i].pid].cwd,
        ) == Some(cwd) {
        let i = choose|i: int|
            0 <= i < listeners.len() && crate::discover::is_foreign(w, #[trigger] listeners[i])
                && !crate::docker::names_binder(w.procs[listeners[i].pid].name@) && opt_text(
                w.procs[listeners[i].pid].cwd,
            ) == Some(cwd);
        assert(w.procs.contains_key(listeners[i].pid));
    }
}

/// A table holds the processes that were read and no others; one that was read twice is
/// held as it was read last.
pub proof fn the_last_reading_is_kept(list: Seq<ProcInfo>, i: int, p: u32)
    ensures
        0 <= i < list.len() && (forall|j: int|
            i < j < list.len() ==> (#[trigger] list[j]).pid != list[i].pid) ==> by_pid(
            list,
        ).contains_key(list[i].pid) && by_pid(list)[list[i].pid] == list[i],
        by_pid(list).contains_key(p) <==> exists|k: int|
            0 <= k < list.len() && (#[trigger] list[k]).pid == p,
    decreases list.len(),
{
    if list.len() > 0 {
        let d = list.drop_last();
        let n = d.len() as int;
        the_last_reading_is_kept(d, i, p);
        assert(list[n] == list.last());
        if by_pid(d).contains_key(p) {
            let k = choose|k: int| 0 <= k < d.len() && (#[trigger] d[k]).pid == p;
            assert(list[k].pid == p);
        }
        if exists|k: int| 0 <= k < list.len() && (#[trigger] list[k]).pid == p {
            let k = choose|k: int| 0 <= k < list.len() && (#[trigger] list[k]).pid == p;
            if k < n {
                assert(d[k].pid == p);
            }
        }
        if 0 <= i < n && (forall|j: int|
            i < j < list.len() ==> (#[trigger] list[j]).pid != list[i].pid) {
            assert forall|j: int| i < j < d.len() implies (#[trigger] d[j]).pid != d[i].pid by {
                assert(list[j].pid != list[i].pid);
            }
        }
    }
}

/// Processes that were read once each stand in the order in which they were read.
pub proof fn readings_stand_in_order(list: Seq<ProcInfo>)
    requires
        forall|i: int, j: int|
            0 <= i < j < list.len() ==> (#[trigger] list[i]).pid != (#[trigger] list[j]).pid,
    ensures
        pid_order(list).len() == list.len(),
        forall|i: int| 0 <= i < list.len() ==> pid_order(list)[i] == (#[trigger] list[i]).pid,
    decreases list.len(),
{
    if list.len() > 0 {
        let d = list.drop_last();
        let n = d.len() as int;
        readings_stand_in_order(d);
        assert(list[n] == list.last());
        let before = pid_order(d);
        if before.contains(list.last().pid) {
            let k = choose|k: int| 0 <= k < before.len() && before[k] == list.last().pid;
            assert(before[k] == d[k].pid);
            assert(list[k].pid != list[n].pid);
        }
        assert forall|i: int| 0 <= i < list.len() implies pid_order(list)[i] == (
        #[trigger] list[i]).pid by {
            if i < n {
                assert(before[i] == d[i].pid);
            }
        }
    }
}

} // verus!
