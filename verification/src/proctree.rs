//! The process tree: ancestors, the climb to a project's anchor, subtrees and
//! what is summed over them.
use std::collections::{HashMap, HashSet};
use vstd::prelude::*;

use crate::model;
use crate::paths;
use crate::resolve;
use crate::sources::{is_table, ProcInfo, ProcTable};
use crate::text;

verus! {

// ---------------------------------------------------------------------- walks

/// Where `n` steps lead from `p`.
pub open spec fn walk(step: spec_fn(u32) -> Option<u32>, p: u32, n: nat) -> Option<u32>
    decreases n,
{
    if n == 0 {
        Some(p)
    } else {
        match walk(step, p, (n - 1) as nat) {
            Some(q) => step(q),
            None => None,
        }
    }
}

/// `q` is reached from `p` in some number of steps.
pub open spec fn reaches(step: spec_fn(u32) -> Option<u32>, p: u32, q: u32) -> bool {
    exists|n: nat| #[trigger] walk(step, p, n) == Some(q)
}

/// The first `k` places of a walk are all different.
pub open spec fn fresh_until(step: spec_fn(u32) -> Option<u32>, p: u32, k: nat) -> bool {
    forall|i: nat, j: nat|
        i < j < k ==> #[trigger] walk(step, p, i) != #[trigger] walk(step, p, j)
}

/// A walk ends at `r` after `n` steps: no place came twice before, and `r` has no
/// further step or was already visited.
pub open spec fn ends_at(step: spec_fn(u32) -> Option<u32>, p: u32, n: nat, r: u32) -> bool {
    &&& walk(step, p, n) == Some(r)
    &&& fresh_until(step, p, n)
    &&& step(r) is None || exists|i: nat| i < n && #[trigger] walk(step, p, i) == Some(r)
}

/// A walk from `p` ends at `r`.
pub open spec fn is_end(step: spec_fn(u32) -> Option<u32>, p: u32, r: u32) -> bool {
    exists|n: nat| #[trigger] ends_at(step, p, n, r)
}

pub proof fn lemma_walk_compose(step: spec_fn(u32) -> Option<u32>, p: u32, a: nat, q: u32, b: nat)
    requires
        walk(step, p, a) == Some(q),
    ensures
        walk(step, p, a + b) == walk(step, q, b),
    decreases b,
{
    if b > 0 {
        lemma_walk_compose(step, p, a, q, (b - 1) as nat);
        assert((a + b - 1) as nat == a + (b - 1) as nat);
    }
}

proof fn lemma_walk_stays_none(step: spec_fn(u32) -> Option<u32>, p: u32, a: nat, n: nat)
    requires
        walk(step, p, a) is None,
        a <= n,
    ensures
        walk(step, p, n) is None,
    decreases n,
{
    if n > a {
        lemma_walk_stays_none(step, p, a, (n - 1) as nat);
    }
}

/// Once a walk comes back to a place, it never leaves the places seen so far.
pub proof fn lemma_walk_cycles(step: spec_fn(u32) -> Option<u32>, p: u32, j: nat, k: nat, n: nat)
    requires
        j < k,
        walk(step, p, j) is Some,
        walk(step, p, j) == walk(step, p, k),
    ensures
        exists|i: nat| i < k && #[trigger] walk(step, p, i) == walk(step, p, n),
    decreases n,
{
    if n < k {
        assert(walk(step, p, n) == walk(step, p, n));
    } else {
        let q = walk(step, p, k)->0;
        let d = (n - k) as nat;
        lemma_walk_compose(step, p, k, q, d);
        lemma_walk_compose(step, p, j, q, d);
        assert(k + d == n);
        lemma_walk_cycles(step, p, j, k, j + d);
    }
}

/// The end of a walk is unique.
pub proof fn lemma_end_is_unique(
    step: spec_fn(u32) -> Option<u32>,
    p: u32,
    n: nat,
    r: u32,
    k: nat,
    s: u32,
)
    requires
        ends_at(step, p, n, r),
        ends_at(step, p, k, s),
    ensures
        r == s,
{
    if n < k {
        lemma_end_comes_first(step, p, n, r, k, s);
    } else if k < n {
        lemma_end_comes_first(step, p, k, s, n, r);
    }
}

proof fn lemma_end_comes_first(
    step: spec_fn(u32) -> Option<u32>,
    p: u32,
    n: nat,
    r: u32,
    k: nat,
    s: u32,
)
    requires
        n < k,
        ends_at(step, p, n, r),
    ensures
        !ends_at(step, p, k, s),
{
    if step(r) is None {
        assert(walk(step, p, n + 1) is None);
        lemma_walk_stays_none(step, p, n + 1, k);
    } else {
        let i = choose|i: nat| i < n && #[trigger] walk(step, p, i) == Some(r);
        assert(walk(step, p, i) == walk(step, p, n));
    }
}

// ------------------------------------------------------------------- ancestry

/// The parent of a process.
pub open spec fn parent_of(m: Map<u32, ProcInfo>, p: u32) -> Option<u32> {
    if m.contains_key(p) {
        m[p].ppid
    } else {
        None
    }
}

/// The step to the parent.
pub open spec fn to_parent(m: Map<u32, ProcInfo>) -> spec_fn(u32) -> Option<u32> {
    |p: u32| parent_of(m, p)
}

/// The step to the parent, where pid 0 is nobody's parent.
pub open spec fn to_live_parent(m: Map<u32, ProcInfo>) -> spec_fn(u32) -> Option<u32> {
    |p: u32|
        match parent_of(m, p) {
            Some(q) => if q == 0 {
                None
            } else {
                Some(q)
            },
            None => None,
        }
}

/// `q` is `a` or one of its descendants.
pub open spec fn descends(m: Map<u32, ProcInfo>, q: u32, a: u32) -> bool {
    reaches(to_parent(m), q, a)
}

/// `start` and its ancestors.
pub fn ancestors(start: u32, procs: &ProcTable) -> (r: HashSet<u32>)
    ensures
        forall|p: u32| #[trigger] r@.contains(p) <==> reaches(to_live_parent(procs@), start, p),
{
    let total = procs.len();
    let mut set: HashSet<u32> = HashSet::new();
    let mut cur = start;
    let ghost step = to_live_parent(procs@);
    let ghost mut k: nat = 0;
    proof {
        procs.order().unique_seq_to_set();
    }
    loop
        invariant
            total == procs@.dom().len(),
            procs@.dom().finite(),
            step == to_live_parent(procs@),
            walk(step, start, k) == Some(cur),
            set@.finite(),
            set@.len() == k,
            set@.subset_of(procs@.dom()),
            forall|p: u32| #[trigger]
                set@.contains(p) <==> exists|i: nat| i < k && #[trigger] walk(step, start, i) == Some(p),
        decreases total + 1 - k,
    {
        proof {
            vstd::set_lib::lemma_len_subset(set@, procs@.dom());
        }
        let ghost before = set@;
        if !set.insert(cur) {
            proof {
                let j = choose|j: nat| j < k && #[trigger] walk(step, start, j) == Some(cur);
                assert forall|p: u32| reaches(step, start, p) implies #[trigger] set@.contains(p) by {
                    let n = choose|n: nat| #[trigger] walk(step, start, n) == Some(p);
                    lemma_walk_cycles(step, start, j, k, n);
                }
                assert(set@ =~= before);
            }
            return set;
        }
        let next = match procs.get(cur) {
            Some(p) => match p.ppid {
                Some(pp) => if pp != 0 {
                    Some(pp)
                } else {
                    None
                },
                None => None,
            },
            None => None,
        };
        proof {
            assert(next == step(cur));
            assert forall|p: u32| #[trigger] set@.contains(p) <==> exists|i: nat|
                i < k + 1 && #[trigger] walk(step, start, i) == Some(p) by {
                if set@.contains(p) {
                    if p == cur {
                        assert(walk(step, start, k) == Some(p));
                    } else {
                        assert(before.contains(p));
                    }
                }
                if exists|i: nat| i < k + 1 && #[trigger] walk(step, start, i) == Some(p) {
                    let i = choose|i: nat| i < k + 1 && #[trigger] walk(step, start, i) == Some(p);
                    if i < k {
                        assert(before.contains(p));
                    }
                }
            }
        }
        match next {
            Some(pp) => {
                cur = pp;
                proof {
                    k = k + 1;
                    assert(walk(step, start, k) == Some(cur));
                }
            },
            None => {
                proof {
                    assert(walk(step, start, k + 1) is None);
                    assert forall|p: u32| reaches(step, start, p) implies #[trigger] set@.contains(
                        p,
                    ) by {
                        let n = choose|n: nat| #[trigger] walk(step, start, n) == Some(p);
                        if n > k {
                            lemma_walk_stays_none(step, start, k + 1, n);
                        }
                    }
                }
                return set;
            },
        }
    }
}

// -------------------------------------------------------------------- nearest

/// After `n` steps from `p` comes `a`, the first place of the walk that is `good`.
pub open spec fn nearest_at(
    step: spec_fn(u32) -> Option<u32>,
    good: spec_fn(u32) -> bool,
    p: u32,
    n: nat,
    a: u32,
) -> bool {
    &&& walk(step, p, n) == Some(a)
    &&& good(a)
    &&& forall|i: nat| i < n ==> !is_good(good, #[trigger] walk(step, p, i))
}

/// The place is there and `good`.
pub open spec fn is_good(good: spec_fn(u32) -> bool, at: Option<u32>) -> bool {
    match at {
        Some(b) => good(b),
        None => false,
    }
}

/// `a` is the first `good` place of the walk from `p`, which starts at `p` itself.
pub open spec fn is_nearest(
    step: spec_fn(u32) -> Option<u32>,
    good: spec_fn(u32) -> bool,
    p: u32,
    a: u32,
) -> bool {
    exists|n: nat| #[trigger] nearest_at(step, good, p, n, a)
}

/// There is only one nearest place.
pub proof fn nearest_is_unique(
    step: spec_fn(u32) -> Option<u32>,
    good: spec_fn(u32) -> bool,
    p: u32,
    a: u32,
    b: u32,
)
    requires
        is_nearest(step, good, p, a),
        is_nearest(step, good, p, b),
    ensures
        a == b,
{
    let n = choose|n: nat| #[trigger] nearest_at(step, good, p, n, a);
    let k = choose|k: nat| #[trigger] nearest_at(step, good, p, k, b);
    if n < k {
        assert(is_good(good, walk(step, p, n)));
    } else if k < n {
        assert(is_good(good, walk(step, p, k)));
    }
}

/// Where some place of a walk is good, there is a nearest one.
pub proof fn nearest_is_there(
    step: spec_fn(u32) -> Option<u32>,
    good: spec_fn(u32) -> bool,
    p: u32,
    n: nat,
)
    requires
        is_good(good, walk(step, p, n)),
    ensures
        exists|a: u32| #[trigger] is_nearest(step, good, p, a),
    decreases n,
{
    if exists|i: nat| i < n && is_good(good, #[trigger] walk(step, p, i)) {
        let i = choose|i: nat| i < n && is_good(good, #[trigger] walk(step, p, i));
        nearest_is_there(step, good, p, i);
    } else {
        let a = walk(step, p, n)->0;
        assert(nearest_at(step, good, p, n, a));
        assert(is_nearest(step, good, p, a));
    }
}

/// A test of pids that code can ask.
pub trait PidTest {
    spec fn holds(&self, a: u32) -> bool;

    fn passes(&self, a: u32) -> (r: bool)
        ensures
            r == self.holds(a),
    ;
}

/// The test as a function.
pub open spec fn test_of<T: PidTest>(t: T) -> spec_fn(u32) -> bool {
    |a: u32| t.holds(a)
}

/// The nearest process that passes a test, from a process upwards.
pub fn nearest<T: PidTest>(start: u32, procs: &ProcTable, test: &T) -> (r: Option<u32>)
    ensures
        match r {
            Some(a) => is_nearest(to_parent(procs@), test_of(*test), start, a),
            None => forall|a: u32| !is_nearest(to_parent(procs@), test_of(*test), start, a),
        },
{
    let total = procs.len();
    let mut set: HashSet<u32> = HashSet::new();
    let mut cur = start;
    let ghost step = to_parent(procs@);
    let ghost good = test_of(*test);
    let ghost mut k: nat = 0;
    proof {
        procs.order().unique_seq_to_set();
    }
    loop
        invariant
            total == procs@.dom().len(),
            procs@.dom().finite(),
            step == to_parent(procs@),
            good == test_of(*test),
            walk(step, start, k) == Some(cur),
            set@.finite(),
            set@.len() == k,
            set@.subset_of(procs@.dom()),
            forall|p: u32| #[trigger]
                set@.contains(p) <==> exists|i: nat| i < k && #[trigger] walk(step, start, i) == Some(p),
            forall|i: nat| i < k ==> !is_good(good, #[trigger] walk(step, start, i)),
        decreases total + 1 - k,
    {
        proof {
            vstd::set_lib::lemma_len_subset(set@, procs@.dom());
        }
        if test.passes(cur) {
            assert(nearest_at(step, good, start, k, cur));
            return Some(cur);
        }
        let ghost before = set@;
        if !set.insert(cur) {
            proof {
                let j = choose|j: nat| j < k && #[trigger] walk(step, start, j) == Some(cur);
                assert forall|a: u32| !is_nearest(step, good, start, a) by {
                    if is_nearest(step, good, start, a) {
                        let n = choose|n: nat| #[trigger] nearest_at(step, good, start, n, a);
                        lemma_walk_cycles(step, start, j, k, n);
                        let i = choose|i: nat|
                            i < k && #[trigger] walk(step, start, i) == walk(step, start, n);
                        assert(!is_good(good, walk(step, start, i)));
                    }
                }
            }
            return None;
        }
        let next = match procs.get(cur) {
            Some(p) => p.ppid,
            None => None,
        };
        proof {
            assert(next == step(cur));
            assert forall|p: u32| #[trigger] set@.contains(p) <==> exists|i: nat|
                i < k + 1 && #[trigger] walk(step, start, i) == Some(p) by {
                if set@.contains(p) {
                    if p == cur {
                        assert(walk(step, start, k) == Some(p));
                    } else {
                        assert(before.contains(p));
                    }
                }
                if exists|i: nat| i < k + 1 && #[trigger] walk(step, start, i) == Some(p) {
                    let i = choose|i: nat| i < k + 1 && #[trigger] walk(step, start, i) == Some(p);
                    if i < k {
                        assert(before.contains(p));
                    }
                }
            }
            assert(!is_good(good, walk(step, start, k)));
        }
        match next {
            Some(pp) => {
                cur = pp;
                proof {
                    k = k + 1;
                    assert(walk(step, start, k) == Some(cur));
                }
            },
            None => {
                proof {
                    assert(walk(step, start, k + 1) is None);
                    assert forall|a: u32| !is_nearest(step, good, start, a) by {
                        if is_nearest(step, good, start, a) {
                            let n = choose|n: nat| #[trigger] nearest_at(step, good, start, n, a);
                            if n > k {
                                lemma_walk_stays_none(step, start, k + 1, n);
                            } else {
                                assert(is_good(good, walk(step, start, n)));
                            }
                        }
                    }
                }
                return None;
            },
        }
    }
}

// ---------------------------------------------------------------------- climb

/// Shells, multiplexers, logins and init systems: a climb never attaches to them.
pub open spec fn is_launcher(name: Seq<char>) -> bool {
    ||| resolve::names_shell(name)
    ||| name == "tmux"@
    ||| name == "tmux: server"@
    ||| name == "login"@
    ||| name == "sshd"@
    ||| name == "ssh"@
    ||| name == "init"@
    ||| name == "launchd"@
    ||| name == "systemd"@
}

fn launcher(name: &str) -> (r: bool)
    ensures
        r == is_launcher(name@),
{
    resolve::is_shell(name) || text::same(name, "tmux") || text::same(name, "tmux: server")
        || text::same(name, "login") || text::same(name, "sshd") || text::same(name, "ssh")
        || text::same(name, "init") || text::same(name, "launchd") || text::same(name, "systemd")
}

/// The process works inside the directory `root`.
pub open spec fn works_in(p: ProcInfo, root: Seq<char>) -> bool {
    match p.cwd {
        Some(c) => paths::within(c@, root),
        None => false,
    }
}

/// The step to a parent that still belongs to the project at `root`: a live
/// process other than pid 1, not barred, no launcher, with its cwd inside `root`.
pub open spec fn to_project_parent(
    m: Map<u32, ProcInfo>,
    barred: Set<u32>,
    root: Seq<char>,
) -> spec_fn(u32) -> Option<u32> {
    |p: u32|
        match parent_of(m, p) {
            Some(q) => if q != 0 && q != 1 && !barred.contains(q) && m.contains_key(q)
                && !is_launcher(m[q].name@) && works_in(m[q], root) {
                Some(q)
            } else {
                None
            },
            None => None,
        }
}

/// The anchor of a process: where the climb from it ends. Without a project root
/// a process is its own anchor.
pub open spec fn anchor_of(
    m: Map<u32, ProcInfo>,
    barred: Set<u32>,
    root: Option<Seq<char>>,
    start: u32,
) -> u32 {
    match root {
        Some(r) => choose|a: u32| #[trigger] is_end(to_project_parent(m, barred, r), start, a),
        None => start,
    }
}

/// Climb from the socket-holding process to the top-most ancestor still inside the
/// project root.
pub fn climb(start: u32, procs: &ProcTable, root: Option<&str>) -> (r: u32)
    ensures
        match root {
            Some(d) => is_end(to_project_parent(procs@, Set::empty(), d@), start, r),
            None => r == start,
        },
        r == anchor_of(procs@, Set::empty(), paths::opt_str(root), start),
{
    let none: HashSet<u32> = HashSet::new();
    assert(none@ =~= Set::<u32>::empty());
    climb_below(start, procs, root, &none)
}

/// Climb to the top-most ancestor still inside the project root, staying below every
/// barred process.
pub fn climb_below(start: u32, procs: &ProcTable, root: Option<&str>, barred: &HashSet<u32>) -> (r:
    u32)
    ensures
        match root {
            Some(d) => is_end(to_project_parent(procs@, barred@, d@), start, r),
            None => r == start,
        },
        r == anchor_of(procs@, barred@, paths::opt_str(root), start),
{
    let dir = match root {
        Some(d) => d,
        None => return start,
    };
    let total = procs.len();
    let ghost step = to_project_parent(procs@, barred@, dir@);
    let ghost mut k: nat = 0;
    let mut visited: HashSet<u32> = HashSet::new();
    let mut cur = start;
    proof {
        procs.order().unique_seq_to_set();
    }
    loop
        invariant
            total == procs@.dom().len(),
            procs@.dom().finite(),
            root == Some(dir),
            step == to_project_parent(procs@, barred@, dir@),
            walk(step, start, k) == Some(cur),
            visited@.finite(),
            visited@.len() == k,
            visited@.subset_of(procs@.dom()),
            fresh_until(step, start, k),
            forall|p: u32| #[trigger]
                visited@.contains(p) <==> exists|i: nat|
                    i < k && #[trigger] walk(step, start, i) == Some(p),
        decreases total + 1 - k,
    {
        proof {
            vstd::set_lib::lemma_len_subset(visited@, procs@.dom());
        }
        let ghost before = visited@;
        if !visited.insert(cur) {
            proof {
                assert(before.contains(cur));
                lemma_anchor(procs@, barred@, dir@, start, k, cur);
            }
            return cur;
        }
        let next = project_parent(procs, barred, cur, dir);
        match next {
            Some(pp) => {
                proof {
                    assert forall|i: nat, j: nat| i < j < k + 1 implies #[trigger] walk(
                        step,
                        start,
                        i,
                    ) != #[trigger] walk(step, start, j) by {
                        if j == k && walk(step, start, i) == walk(step, start, j) {
                            assert(before.contains(cur));
                        }
                    }
                    assert forall|p: u32| #[trigger] visited@.contains(p) <==> exists|i: nat|
                        i < k + 1 && #[trigger] walk(step, start, i) == Some(p) by {
                        if visited@.contains(p) {
                            if p == cur {
                                assert(walk(step, start, k) == Some(p));
                            } else {
                                assert(before.contains(p));
                            }
                        }
                        if exists|i: nat| i < k + 1 && #[trigger] walk(step, start, i) == Some(p) {
                            let i = choose|i: nat|
                                i < k + 1 && #[trigger] walk(step, start, i) == Some(p);
                            if i < k {
                                assert(before.contains(p));
                            }
                        }
                    }
                    k = k + 1;
                    assert(walk(step, start, k) == Some(pp));
                }
                cur = pp;
            },
            None => {
                proof {
                    lemma_anchor(procs@, barred@, dir@, start, k, cur);
                }
                return cur;
            },
        }
    }
}

proof fn lemma_anchor(
    m: Map<u32, ProcInfo>,
    barred: Set<u32>,
    root: Seq<char>,
    start: u32,
    n: nat,
    r: u32,
)
    requires
        ends_at(to_project_parent(m, barred, root), start, n, r),
    ensures
        anchor_of(m, barred, Some(root), start) == r,
{
    let step = to_project_parent(m, barred, root);
    let a = anchor_of(m, barred, Some(root), start);
    assert(is_end(step, start, r));
    assert(is_end(step, start, a));
    let k = choose|k: nat| #[trigger] ends_at(step, start, k, a);
    lemma_end_is_unique(step, start, n, r, k, a);
}

/// A climb never comes to a barred process.
pub proof fn climb_stays_below(
    m: Map<u32, ProcInfo>,
    barred: Set<u32>,
    root: Seq<char>,
    start: u32,
    r: u32,
)
    requires
        !barred.contains(start),
        is_end(to_project_parent(m, barred, root), start, r),
    ensures
        !barred.contains(r),
{
    let step = to_project_parent(m, barred, root);
    let n = choose|n: nat| #[trigger] ends_at(step, start, n, r);
    if n > 0 {
        assert(walk(step, start, (n - 1) as nat) is Some);
    }
}

fn project_parent(procs: &ProcTable, barred: &HashSet<u32>, p: u32, root: &str) -> (r: Option<u32>)
    ensures
        r == to_project_parent(procs@, barred@, root@)(p),
{
    let info = match procs.get(p) {
        Some(i) => i,
        None => return None,
    };
    let pp = match info.ppid {
        Some(q) => q,
        None => return None,
    };
    if pp == 0 || pp == 1 || barred.contains(&pp) {
        return None;
    }
    let parent = match procs.get(pp) {
        Some(i) => i,
        None => return None,
    };
    if launcher(parent.name.as_str()) {
        return None;
    }
    match &parent.cwd {
        Some(c) => if paths::is_within(c.as_str(), root) {
            Some(pp)
        } else {
            None
        },
        None => None,
    }
}

// -------------------------------------------------------------------- subtree

/// The processes of a table whose parent is `p`, in table order.
pub open spec fn children_of(m: Map<u32, ProcInfo>, order: Seq<u32>, p: u32) -> Seq<u32> {
    order.filter(|q: u32| m[q].ppid == Some(p))
}

/// `c` holds, under each pid that has children, those children.
pub open spec fn is_child_map(
    c: Map<u32, Vec<u32>>,
    m: Map<u32, ProcInfo>,
    order: Seq<u32>,
) -> bool {
    forall|p: u32|
        {
            &&& #[trigger] c.contains_key(p) <==> children_of(m, order, p).len() > 0
            &&& c.contains_key(p) ==> c[p]@ == children_of(m, order, p)
        }
}

/// Children by parent pid.
pub fn child_map(procs: &ProcTable) -> (r: HashMap<u32, Vec<u32>>)
    ensures
        is_child_map(r@, procs@, procs.order()),
        is_table(procs@, procs.order()),
{
    let n = procs.len();
    let mut map: HashMap<u32, Vec<u32>> = HashMap::new();
    let ghost m = procs@;
    let ghost order = procs.order();
    let mut i: usize = 0;
    proof {
        assert forall|p: u32| children_of(m, order.take(0), p).len() == 0 by {
            reveal(Seq::filter);
        }
    }
    while i < n
        invariant
            i <= n,
            n == order.len(),
            m == procs@,
            order == procs.order(),
            is_table(m, order),
            is_child_map(map@, m, order.take(i as int)),
        decreases n - i,
    {
        let ghost before = map@;
        let p = procs.at(i);
        proof {
            reveal(Seq::filter);
            assert(order.take(i + 1).drop_last() =~= order.take(i as int));
            assert(order.take(i + 1).last() == p.pid);
            assert forall|q: u32| m[p.pid].ppid != Some(q) implies children_of(
                m,
                order.take(i + 1),
                q,
            ) == children_of(m, order.take(i as int), q) by {}
        }
        match p.ppid {
            Some(pp) => {
                let mut kids = match map.remove(&pp) {
                    Some(v) => v,
                    None => Vec::new(),
                };
                proof {
                    assert(before.contains_key(pp) || children_of(m, order.take(i as int), pp).len()
                        == 0);
                    assert(kids@ =~= children_of(m, order.take(i as int), pp));
                }
                kids.push(p.pid);
                map.insert(pp, kids);
                proof {
                    assert(map@[pp]@ == children_of(m, order.take(i + 1), pp));
                    assert forall|q: u32|
                        {
                            &&& #[trigger] map@.contains_key(q) <==> children_of(
                                m,
                                order.take(i + 1),
                                q,
                            ).len() > 0
                            &&& map@.contains_key(q) ==> map@[q]@ == children_of(
                                m,
                                order.take(i + 1),
                                q,
                            )
                        } by {
                        if q != pp {
                            assert(map@.contains_key(q) == before.contains_key(q));
                        }
                    }
                }
            },
            None => {
                proof {
                    assert forall|q: u32|
                        {
                            &&& #[trigger] map@.contains_key(q) <==> children_of(
                                m,
                                order.take(i + 1),
                                q,
                            ).len() > 0
                            &&& map@.contains_key(q) ==> map@[q]@ == children_of(
                                m,
                                order.take(i + 1),
                                q,
                            )
                        } by {
                        assert(map@.contains_key(q) == before.contains_key(q));
                    }
                }
            },
        }
        i = i + 1;
    }
    proof {
        assert(order.take(i as int) =~= order);
    }
    map
}

/// The children listed under `p`.
pub open spec fn kids(c: Map<u32, Vec<u32>>, p: u32) -> Seq<u32> {
    if c.contains_key(p) {
        c[p]@
    } else {
        Seq::empty()
    }
}

/// The members of `list` that are not in `out`, once each.
pub open spec fn unseen<A>(list: Seq<A>, out: Seq<A>) -> Seq<A>
    decreases list.len(),
{
    if list.len() == 0 {
        Seq::empty()
    } else {
        let f = unseen(list.drop_last(), out);
        if out.contains(list.last()) || f.contains(list.last()) {
            f
        } else {
            f.push(list.last())
        }
    }
}

/// The children listed under each pid.
pub open spec fn kids_of(c: Map<u32, Vec<u32>>) -> spec_fn(u32) -> Seq<u32> {
    |p: u32| kids(c, p)
}

/// The order in which a depth-first visit lists a tree: each visited process lists
/// its children that were not listed yet, and the last one listed is visited next.
pub open spec fn visit(
    children: spec_fn(u32) -> Seq<u32>,
    out: Seq<u32>,
    stack: Seq<u32>,
    fuel: nat,
) -> Seq<u32>
    decreases fuel,
{
    if fuel == 0 || stack.len() == 0 {
        out
    } else {
        let new = unseen(children(stack.last()), out);
        visit(children, out + new, stack.drop_last() + new, (fuel - 1) as nat)
    }
}

/// `anchor` and everything below it, in the order of the visit. There are at most
/// as many visits as there are pids.
pub open spec fn subtree_of(children: spec_fn(u32) -> Seq<u32>, anchor: u32) -> Seq<u32> {
    visit(children, seq![anchor], seq![anchor], 0x1_0000_0000)
}

/// Some member of `s` before place `i` has the member at `i` among its children.
pub open spec fn has_parent(children: spec_fn(u32) -> Seq<u32>, s: Seq<u32>, i: int) -> bool {
    exists|j: int| 0 <= j < i && #[trigger] children(s[j]).contains(s[i])
}

/// What makes a list the subtree of `anchor`: the anchor first, nobody twice, all
/// children of each member, and each other member behind its parent.
pub open spec fn is_subtree(children: spec_fn(u32) -> Seq<u32>, anchor: u32, s: Seq<u32>) -> bool {
    &&& s.len() > 0 && s[0] == anchor
    &&& s.no_duplicates()
    &&& forall|i: int, k: u32|
        0 <= i < s.len() && #[trigger] children(s[i]).contains(k) ==> s.contains(k)
    &&& forall|i: int| 0 < i < s.len() ==> #[trigger] has_parent(children, s, i)
}

proof fn lemma_pids_are_bounded(s: Seq<u32>)
    requires
        s.no_duplicates(),
    ensures
        s.len() <= 0x1_0000_0000,
{
    s.unique_seq_to_set();
    let f = |x: u32| x as int;
    let ints = s.to_set().map(f);
    let range = vstd::set_lib::set_int_range(0, 0x1_0000_0000);
    vstd::set_lib::lemma_int_range(0, 0x1_0000_0000);
    vstd::set_lib::lemma_map_size(s.to_set(), ints, f);
    assert(ints.subset_of(range));
    vstd::set_lib::lemma_len_subset(ints, range);
}

/// The unseen members of a list are those not yet in the other, once each.
pub proof fn lemma_unseen<A>(list: Seq<A>, out: Seq<A>)
    ensures
        unseen(list, out).no_duplicates(),
        forall|k: A| #[trigger]
            unseen(list, out).contains(k) <==> list.contains(k) && !out.contains(k),
    decreases list.len(),
{
    if list.len() > 0 {
        let f = unseen(list.drop_last(), out);
        let k0 = list.last();
        lemma_unseen(list.drop_last(), out);
        assert forall|k: A| #[trigger] unseen(list, out).contains(k) <==> list.contains(k)
            && !out.contains(k) by {
            assert(list =~= list.drop_last().push(k0));
            assert(list[list.len() - 1] == k0);
            if list.contains(k) && k != k0 {
                let i = choose|i: int| 0 <= i < list.len() && list[i] == k;
                assert(list.drop_last()[i] == k);
            }
            if list.drop_last().contains(k) {
                let i = choose|i: int| 0 <= i < list.drop_last().len() && list.drop_last()[i] == k;
                assert(list[i] == k);
            }
            if !(out.contains(k0) || f.contains(k0)) {
                assert(f.push(k0)[f.len() as int] == k0);
                if f.contains(k) {
                    let i = choose|i: int| 0 <= i < f.len() && f[i] == k;
                    assert(f.push(k0)[i] == k);
                }
            }
        }
    }
}

pub proof fn lemma_joined_contains<A>(a: Seq<A>, b: Seq<A>, k: A)
    ensures
        (a + b).contains(k) <==> a.contains(k) || b.contains(k),
{
    if a.contains(k) {
        let i = choose|i: int| 0 <= i < a.len() && a[i] == k;
        assert((a + b)[i] == k);
    }
    if b.contains(k) {
        let i = choose|i: int| 0 <= i < b.len() && b[i] == k;
        assert((a + b)[a.len() + i] == k);
    }
    if (a + b).contains(k) {
        let i = choose|i: int| 0 <= i < (a + b).len() && (a + b)[i] == k;
        if i < a.len() {
            assert(a[i] == k);
        } else {
            assert(b[i - a.len()] == k);
        }
    }
}

pub proof fn lemma_joined_distinct<A>(a: Seq<A>, list: Seq<A>)
    requires
        a.no_duplicates(),
    ensures
        (a + unseen(list, a)).no_duplicates(),
{
    lemma_unseen(list, a);
    let f = unseen(list, a);
    let all = a + f;
    assert forall|i: int, j: int| 0 <= i < all.len() && 0 <= j < all.len() && i != j implies all[i]
        != all[j] by {
        if i < a.len() && j >= a.len() {
            assert(f.contains(f[j - a.len()]));
            assert(a.contains(a[i]));
        }
        if j < a.len() && i >= a.len() {
            assert(f.contains(f[i - a.len()]));
            assert(a.contains(a[j]));
        }
    }
}

/// Anchor and all descendants.
pub fn subtree(anchor: u32, children: &HashMap<u32, Vec<u32>>) -> (r: Vec<u32>)
    ensures
        r@ == subtree_of(kids_of(children@), anchor),
        is_subtree(kids_of(children@), anchor, r@),
{
    let ghost c = children@;
    let mut seen: HashSet<u32> = HashSet::new();
    seen.insert(anchor);
    let mut out: Vec<u32> = Vec::new();
    out.push(anchor);
    let mut stack: Vec<u32> = Vec::new();
    stack.push(anchor);
    let ghost mut pops: nat = 0;
    proof {
        assert(out@ =~= seq![anchor]);
        assert(stack@ =~= seq![anchor]);
        assert(seen@ =~= out@.to_set()) by {
            assert(out@[0] == anchor);
        }
    }
    while stack.len() > 0
        invariant
            c == children@,
            out@.no_duplicates(),
            seen@ == out@.to_set(),
            pops + stack@.len() == out@.len(),
            pops <= 0x1_0000_0000,
            visit(kids_of(c), out@, stack@, (0x1_0000_0000 - pops) as nat) == subtree_of(
                kids_of(c),
                anchor,
            ),
        decreases 0x1_0000_0000 - pops,
    {
        proof {
            lemma_pids_are_bounded(out@);
        }
        let ghost out0 = out@;
        let ghost stack_was = stack@;
        let n = stack.pop().unwrap();
        let ghost stack0 = stack@;
        let ghost list = kids(c, n);
        proof {
            assert(stack0 =~= stack_was.drop_last());
            assert(out0 + unseen(list.take(0), out0) =~= out0);
            assert(stack0 + unseen(list.take(0), out0) =~= stack0);
        }
        match children.get(&n) {
            Some(ks) => {
                let mut i: usize = 0;
                while i < ks.len()
                    invariant
                        i <= ks@.len(),
                        ks@ == list,
                        out@ == out0 + unseen(list.take(i as int), out0),
                        stack@ == stack0 + unseen(list.take(i as int), out0),
                        seen@ == out@.to_set(),
                    decreases ks@.len() - i,
                {
                    let k = ks[i];
                    let ghost f = unseen(list.take(i as int), out0);
                    let ghost out1 = out@;
                    let ghost seen1 = seen@;
                    proof {
                        assert(list.take(i + 1).drop_last() =~= list.take(i as int));
                        assert(list.take(i + 1).last() == k);
                        lemma_joined_contains(out0, f, k);
                    }
                    if seen.insert(k) {
                        out.push(k);
                        stack.push(k);
                        proof {
                            assert(out@ =~= out0 + f.push(k));
                            assert(stack@ =~= stack0 + f.push(k));
                            assert(seen@ =~= out@.to_set()) by {
                                assert forall|q: u32| seen@.contains(q) == out@.contains(q) by {
                                    assert(out@[out@.len() - 1] == k);
                                    if out1.contains(q) {
                                        let a = choose|a: int| 0 <= a < out1.len() && out1[a] == q;
                                        assert(out@[a] == q);
                                    }
                                }
                            }
                        }
                    } else {
                        proof {
                            assert(seen@ =~= seen1);
                        }
                    }
                    i = i + 1;
                }
                proof {
                    assert(list.take(i as int) =~= list);
                }
            },
            None => {
                proof {
                    assert(list.take(0) =~= list);
                }
            },
        }
        proof {
            assert(out@ == out0 + unseen(list, out0));
            assert(stack@ == stack0 + unseen(list, out0));
            lemma_joined_distinct(out0, list);
            pops = pops + 1;
        }
    }
    proof {
        lemma_subtree(kids_of(c), anchor);
    }
    out
}

/// What a visit has listed so far: the anchor first, nobody twice, all children of those
/// that wait no longer, and each other one behind its parent.
spec fn is_part(
    children: spec_fn(u32) -> Seq<u32>,
    anchor: u32,
    out: Seq<u32>,
    stack: Seq<u32>,
) -> bool {
    &&& out.len() > 0 && out[0] == anchor
    &&& out.no_duplicates()
    &&& forall|i: int| 0 <= i < stack.len() ==> out.contains(#[trigger] stack[i])
    &&& forall|i: int, k: u32|
        0 <= i < out.len() && !stack.contains(out[i]) && #[trigger] children(out[i]).contains(k)
            ==> out.contains(k)
    &&& forall|i: int| 0 < i < out.len() ==> #[trigger] has_parent(children, out, i)
}

/// One step of the visit keeps what the final list is made of.
proof fn lemma_visit_keeps(
    children: spec_fn(u32) -> Seq<u32>,
    anchor: u32,
    out0: Seq<u32>,
    stack_was: Seq<u32>,
)
    requires
        stack_was.len() > 0,
        is_part(children, anchor, out0, stack_was),
    ensures
        ({
            let new = unseen(children(stack_was.last()), out0);
            is_part(children, anchor, out0 + new, stack_was.drop_last() + new)
        }),
{
    let n = stack_was.last();
    let new = unseen(children(n), out0);
    let out = out0 + new;
    let stack0 = stack_was.drop_last();
    let stack = stack0 + new;
    lemma_unseen(children(n), out0);
    lemma_joined_distinct(out0, children(n));
    assert forall|i: int| 0 <= i < stack.len() implies out.contains(#[trigger] stack[i]) by {
        lemma_joined_contains(out0, new, stack[i]);
        if i < stack0.len() {
            assert(stack[i] == stack_was[i]);
        } else {
            assert(stack[i] == new[i - stack0.len()]);
        }
    }
    assert forall|i: int, k: u32|
        0 <= i < out.len() && !stack.contains(out[i]) && #[trigger] children(out[i]).contains(
            k,
        ) implies out.contains(k) by {
        let q = out[i];
        lemma_joined_contains(out0, new, k);
        lemma_joined_contains(stack0, new, q);
        if i < out0.len() {
            if q != n {
                if stack_was.contains(q) {
                    let a = choose|a: int| 0 <= a < stack_was.len() && stack_was[a] == q;
                    assert(stack0[a] == q);
                }
                assert(children(out0[i]).contains(k));
            }
        } else {
            assert(new[i - out0.len()] == q);
        }
    }
    assert(out0.contains(stack_was[stack_was.len() - 1]));
    let at = choose|at: int| 0 <= at < out0.len() && out0[at] == n;
    assert forall|i: int| 0 < i < out.len() implies #[trigger] has_parent(children, out, i) by {
        if i < out0.len() {
            assert(has_parent(children, out0, i));
            let j = choose|j: int| 0 <= j < i && #[trigger] children(out0[j]).contains(out0[i]);
            assert(out[j] == out0[j] && out[i] == out0[i]);
            assert(children(out[j]).contains(out[i]));
        } else {
            assert(new[i - out0.len()] == out[i]);
            assert(new.contains(out[i]));
            assert(out[at] == n);
            assert(children(out[at]).contains(out[i]));
        }
    }
}

proof fn lemma_visit(
    children: spec_fn(u32) -> Seq<u32>,
    anchor: u32,
    out: Seq<u32>,
    stack: Seq<u32>,
    fuel: nat,
)
    requires
        is_part(children, anchor, out, stack),
        fuel + out.len() >= 0x1_0000_0000 + stack.len(),
    ensures
        is_subtree(children, anchor, visit(children, out, stack, fuel)),
    decreases fuel,
{
    lemma_pids_are_bounded(out);
    if fuel > 0 && stack.len() > 0 {
        let new = unseen(children(stack.last()), out);
        lemma_visit_keeps(children, anchor, out, stack);
        lemma_visit(children, anchor, out + new, stack.drop_last() + new, (fuel - 1) as nat);
    } else {
        assert(stack.len() == 0);
        assert forall|i: int, k: u32|
            0 <= i < out.len() && #[trigger] children(out[i]).contains(k) implies out.contains(
            k,
        ) by {
            assert(!stack.contains(out[i]));
        }
    }
}

/// A visit lists the whole subtree.
pub proof fn lemma_subtree(children: spec_fn(u32) -> Seq<u32>, anchor: u32)
    ensures
        is_subtree(children, anchor, subtree_of(children, anchor)),
{
    let start = seq![anchor];
    assert(start[0] == anchor);
    assert(is_part(children, anchor, start, start)) by {
        assert forall|i: int| 0 <= i < start.len() implies start.contains(#[trigger] start[i]) by {}
    }
    lemma_visit(children, anchor, start, start, 0x1_0000_0000);
}

proof fn lemma_child(m: Map<u32, ProcInfo>, order: Seq<u32>, p: u32, q: u32)
    requires
        is_table(m, order),
    ensures
        children_of(m, order, p).contains(q) <==> parent_of(m, q) == Some(p),
{
    broadcast use vstd::seq_lib::group_filter_ensures;

    let pred = |x: u32| m[x].ppid == Some(p);
    let f = order.filter(pred);
    if f.contains(q) {
        let i = choose|i: int| 0 <= i < f.len() && f[i] == q;
        assert(pred(f[i]));
        assert(order.contains(q)) by {
            order.lemma_filter_contains_rev(pred, q);
        }
        assert(order.to_set().contains(q));
    }
    if parent_of(m, q) == Some(p) {
        assert(m.dom().contains(q));
        assert(order.to_set().contains(q));
        let i = choose|i: int| 0 <= i < order.len() && order[i] == q;
        assert(pred(order[i]));
    }
}

/// The children of each process of a table.
pub open spec fn children_in(m: Map<u32, ProcInfo>, order: Seq<u32>) -> spec_fn(u32) -> Seq<u32> {
    |p: u32| children_of(m, order, p)
}

/// A process of a table and its descendants, in the order of the visit.
pub open spec fn tree(m: Map<u32, ProcInfo>, order: Seq<u32>, anchor: u32) -> Seq<u32> {
    subtree_of(children_in(m, order), anchor)
}

/// A child map lists the children of each process of its table.
pub proof fn lemma_child_map(c: Map<u32, Vec<u32>>, m: Map<u32, ProcInfo>, order: Seq<u32>)
    requires
        is_child_map(c, m, order),
    ensures
        kids_of(c) == children_in(m, order),
{
    assert forall|p: u32| #[trigger] kids_of(c)(p) == children_in(m, order)(p) by {
        assert(c.contains_key(p) <==> children_of(m, order, p).len() > 0);
        assert(kids(c, p) =~= children_of(m, order, p));
    }
    assert(kids_of(c) =~= children_in(m, order));
}

proof fn lemma_member_descends(m: Map<u32, ProcInfo>, order: Seq<u32>, anchor: u32, i: int)
    requires
        is_table(m, order),
        0 <= i < tree(m, order, anchor).len(),
    ensures
        descends(m, tree(m, order, anchor)[i], anchor),
    decreases i,
{
    let step = to_parent(m);
    let children = children_in(m, order);
    let s = tree(m, order, anchor);
    lemma_subtree(children, anchor);
    if i == 0 {
        assert(walk(step, s[0], 0) == Some(anchor));
    } else {
        assert(has_parent(children, s, i));
        let j = choose|j: int| 0 <= j < i && #[trigger] children(s[j]).contains(s[i]);
        lemma_child(m, order, s[j], s[i]);
        lemma_member_descends(m, order, anchor, j);
        let n = choose|n: nat| #[trigger] walk(step, s[j], n) == Some(anchor);
        assert(walk(step, s[i], 0) == Some(s[i]));
        assert(walk(step, s[i], 1) == step(s[i]));
        lemma_walk_compose(step, s[i], 1, s[j], n);
        assert(walk(step, s[i], 1 + n) == Some(anchor));
    }
}

proof fn lemma_descendant_is_member(
    m: Map<u32, ProcInfo>,
    order: Seq<u32>,
    anchor: u32,
    q: u32,
    n: nat,
)
    requires
        is_table(m, order),
        walk(to_parent(m), q, n) == Some(anchor),
    ensures
        tree(m, order, anchor).contains(q),
    decreases n,
{
    let step = to_parent(m);
    let children = children_in(m, order);
    let s = tree(m, order, anchor);
    lemma_subtree(children, anchor);
    if n == 0 {
        assert(s[0] == q);
    } else {
        assert(walk(step, q, 0) == Some(q));
        assert(walk(step, q, 1) == step(q));
        if walk(step, q, 1) is None {
            lemma_walk_stays_none(step, q, 1, n);
        }
        let q1 = step(q)->0;
        lemma_walk_compose(step, q, 1, q1, (n - 1) as nat);
        assert(1 + (n - 1) as nat == n);
        lemma_descendant_is_member(m, order, anchor, q1, (n - 1) as nat);
        lemma_child(m, order, q1, q);
        let i = choose|i: int| 0 <= i < s.len() && s[i] == q1;
        assert(children(s[i]).contains(q));
    }
}

/// A tree holds exactly the anchor and its descendants, each once.
pub proof fn tree_is_all_descendants(m: Map<u32, ProcInfo>, order: Seq<u32>, anchor: u32)
    requires
        is_table(m, order),
    ensures
        tree(m, order, anchor).no_duplicates(),
        forall|q: u32| #[trigger]
            tree(m, order, anchor).contains(q) <==> descends(m, q, anchor),
{
    let s = tree(m, order, anchor);
    lemma_subtree(children_in(m, order), anchor);
    assert forall|q: u32| #[trigger] s.contains(q) <==> descends(m, q, anchor) by {
        if s.contains(q) {
            let i = choose|i: int| 0 <= i < s.len() && s[i] == q;
            lemma_member_descends(m, order, anchor, i);
        }
        if descends(m, q, anchor) {
            let n = choose|n: nat| #[trigger] walk(to_parent(m), q, n) == Some(anchor);
            lemma_descendant_is_member(m, order, anchor, q, n);
        }
    }
}

/// `q` is the anchor or works inside the root, where there is one.
pub open spec fn stays_in(
    m: Map<u32, ProcInfo>,
    root: Option<Seq<char>>,
    anchor: u32,
    q: u32,
) -> bool {
    match root {
        Some(r) => q == anchor || m.contains_key(q) && works_in(m[q], r),
        None => true,
    }
}

/// Whether a process is the anchor or works inside the root, where there is one.
pub fn is_in_bounds(procs: &ProcTable, root: Option<&str>, anchor: u32, q: u32) -> (r: bool)
    ensures
        r == stays_in(procs@, paths::opt_str(root), anchor, q),
{
    match root {
        Some(d) => q == anchor || match procs.get(q) {
            Some(p) => match &p.cwd {
                Some(c) => paths::is_within(c.as_str(), d),
                None => false,
            },
            None => false,
        },
        None => true,
    }
}

// --------------------------------------------------------------------- rollup

/// The processes among `pids` that are in the table, in the order of `pids`.
pub open spec fn present(m: Map<u32, ProcInfo>, pids: Seq<u32>) -> Seq<ProcInfo>
    decreases pids.len(),
{
    if pids.len() == 0 {
        Seq::empty()
    } else {
        let before = present(m, pids.drop_last());
        if m.contains_key(pids.last()) {
            before.push(m[pids.last()])
        } else {
            before
        }
    }
}

/// Memory of one process: its `phys_footprint` where there is one.
pub open spec fn memory_of(p: ProcInfo) -> u64 {
    match p.footprint {
        Some(f) => f,
        None => p.mem_bytes,
    }
}

pub open spec fn total_cpu(ps: Seq<ProcInfo>) -> nat
    decreases ps.len(),
{
    if ps.len() == 0 {
        0
    } else {
        total_cpu(ps.drop_last()) + ps.last().cpu as nat
    }
}

pub open spec fn total_memory(ps: Seq<ProcInfo>) -> nat
    decreases ps.len(),
{
    if ps.len() == 0 {
        0
    } else {
        total_memory(ps.drop_last()) + memory_of(ps.last()) as nat
    }
}

/// `n`, or the largest value that fits.
pub open spec fn capped(n: nat) -> u64 {
    if n <= u64::MAX {
        n as u64
    } else {
        u64::MAX
    }
}

/// CPU and memory summed over those of `pids` that are in the table.
pub fn rollup(pids: &[u32], procs: &ProcTable) -> (r: (u64, u64))
    ensures
        r.0 == capped(total_cpu(present(procs@, pids@))),
        r.1 == capped(total_memory(present(procs@, pids@))),
{
    let mut cpu: u64 = 0;
    let mut mem: u64 = 0;
    let mut i: usize = 0;
    while i < pids.len()
        invariant
            i <= pids@.len(),
            cpu == capped(total_cpu(present(procs@, pids@.take(i as int)))),
            mem == capped(total_memory(present(procs@, pids@.take(i as int)))),
        decreases pids@.len() - i,
    {
        let ghost before = present(procs@, pids@.take(i as int));
        proof {
            assert(pids@.take(i + 1).drop_last() =~= pids@.take(i as int));
            assert(pids@.take(i + 1).last() == pids@[i as int]);
        }
        match procs.get(pids[i]) {
            Some(p) => {
                proof {
                    assert(before.push(*p).drop_last() =~= before);
                }
                cpu = cpu.saturating_add(p.cpu);
                let bytes = match p.footprint {
                    Some(f) => f,
                    None => p.mem_bytes,
                };
                mem = mem.saturating_add(bytes);
            },
            None => {},
        }
        i = i + 1;
    }
    proof {
        assert(pids@.take(i as int) =~= pids@);
    }
    (cpu, mem)
}

/// The pid and start time of each of some processes.
pub open spec fn fingerprints(ps: Seq<ProcInfo>) -> Seq<(u32, u64)> {
    ps.map_values(|p: ProcInfo| (p.pid, p.start_time))
}

/// The `(pid, start_time)` fingerprints of a subtree: what a verb verifies before it
/// signals.
pub fn pid_starts(pids: &[u32], procs: &ProcTable) -> (r: Vec<(u32, u64)>)
    ensures
        r@ == fingerprints(present(procs@, pids@)),
{
    let mut out: Vec<(u32, u64)> = Vec::new();
    let mut i: usize = 0;
    while i < pids.len()
        invariant
            i <= pids@.len(),
            out@ == fingerprints(present(procs@, pids@.take(i as int))),
        decreases pids@.len() - i,
    {
        proof {
            assert(pids@.take(i + 1).drop_last() =~= pids@.take(i as int));
            assert(pids@.take(i + 1).last() == pids@[i as int]);
        }
        match procs.get(pids[i]) {
            Some(p) => {
                out.push((p.pid, p.start_time));
            },
            None => {},
        }
        proof {
            assert(out@ =~= fingerprints(present(procs@, pids@.take(i + 1))));
        }
        i = i + 1;
    }
    proof {
        assert(pids@.take(i as int) =~= pids@);
    }
    out
}

/// The views of some command lines.
pub open spec fn argv_views(v: Seq<Vec<String>>) -> Seq<Seq<Seq<char>>> {
    v.map_values(|a: Vec<String>| text::texts(a@))
}

/// The command line of each of some processes.
pub open spec fn command_lines(ps: Seq<ProcInfo>) -> Seq<Seq<Seq<char>>> {
    ps.map_values(|p: ProcInfo| text::texts(p.argv@))
}

/// The command lines of a subtree.
pub fn subtree_argvs(pids: &[u32], procs: &ProcTable) -> (r: Vec<Vec<String>>)
    ensures
        argv_views(r@) == command_lines(present(procs@, pids@)),
{
    let mut out: Vec<Vec<String>> = Vec::new();
    let mut i: usize = 0;
    while i < pids.len()
        invariant
            i <= pids@.len(),
            argv_views(out@) == command_lines(present(procs@, pids@.take(i as int))),
        decreases pids@.len() - i,
    {
        let ghost out0 = out@;
        let ghost before = present(procs@, pids@.take(i as int));
        proof {
            assert(pids@.take(i + 1).drop_last() =~= pids@.take(i as int));
            assert(pids@.take(i + 1).last() == pids@[i as int]);
        }
        match procs.get(pids[i]) {
            Some(p) => {
                let argv = model::clone_strings(&p.argv);
                out.push(argv);
                proof {
                    assert(argv_views(out@) =~= argv_views(out0).push(text::texts(argv@)));
                    assert(command_lines(before.push(*p)) =~= command_lines(before).push(
                        text::texts(p.argv@),
                    ));
                }
            },
            None => {},
        }
        i = i + 1;
    }
    proof {
        assert(pids@.take(i as int) =~= pids@);
    }
    out
}

/// A listener belongs to development work: it has a project root, or its cwd lies
/// under the home directory.
pub open spec fn is_dev(
    cwd: Option<Seq<char>>,
    root: Option<Seq<char>>,
    home: Option<Seq<char>>,
) -> bool {
    root is Some || match (cwd, home) {
        (Some(c), Some(h)) => paths::within(c, h),
        _ => false,
    }
}

/// Keep a listener only if it has a project root, or its cwd is under the home
/// directory. Drops system daemons.
pub fn is_dev_target(cwd: Option<&str>, root: Option<&str>, home: Option<&str>) -> (r: bool)
    ensures
        r == is_dev(paths::opt_str(cwd), paths::opt_str(root), paths::opt_str(home)),
{
    if root.is_some() {
        return true;
    }
    match (cwd, home) {
        (Some(c), Some(h)) => paths::is_within(c, h),
        _ => false,
    }
}

} // verus!
