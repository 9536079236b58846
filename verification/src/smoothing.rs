//! Smoothed CPU figures, remembered per anchor fingerprint: a recycled pid never
//! inherits what a dead process left behind.
use vstd::prelude::*;

use crate::model::{target_views, Anchor, Target, TargetView};

verus! {

/// The next smoothed value: two fifths of the new figure, three fifths of the last.
pub open spec fn blended(raw: u64, last: u64) -> u64 {
    ((2 * raw + 3 * last) / 5) as u64
}

fn blend(raw: u64, last: u64) -> (r: u64)
    ensures
        r == blended(raw, last),
{
    let r: u128 = (2 * raw as u128 + 3 * last as u128) / 5;
    r as u64
}

/// What identifies the representative process of a target.
pub open spec fn fingerprint(a: Anchor) -> (u32, u64) {
    (a.pid, a.start_time)
}

/// The last smoothed figure under a fingerprint; the new one where there is none.
pub open spec fn last_or(m: Map<(u32, u64), u64>, key: (u32, u64), raw: u64) -> u64 {
    if m.contains_key(key) {
        m[key]
    } else {
        raw
    }
}

/// The fingerprints of some targets.
pub open spec fn anchors(targets: Seq<TargetView>) -> Seq<(u32, u64)> {
    targets.map_values(|t: TargetView| fingerprint(t.anchor))
}

/// What is kept of the figures: those of the given fingerprints.
pub open spec fn kept(m: Map<(u32, u64), u64>, live: Seq<(u32, u64)>) -> Map<(u32, u64), u64> {
    Map::new(|k: (u32, u64)| m.contains_key(k) && live.contains(k), |k: (u32, u64)| m[k])
}

/// Smoothed figures by fingerprint.
pub struct Smoothing {
    entries: Vec<((u32, u64), u64)>,
}

spec fn keys_differ(e: Seq<((u32, u64), u64)>) -> bool {
    forall|i: int, j: int| 0 <= i < j < e.len() ==> (#[trigger] e[i]).0 != (#[trigger] e[j]).0
}

spec fn at_key(e: Seq<((u32, u64), u64)>, key: (u32, u64), i: int) -> bool {
    0 <= i < e.len() && e[i].0 == key
}

spec fn contents(e: Seq<((u32, u64), u64)>) -> Map<(u32, u64), u64> {
    Map::new(
        |k: (u32, u64)| exists|i: int| #[trigger] at_key(e, k, i),
        |k: (u32, u64)| e[choose|i: int| #[trigger] at_key(e, k, i)].1,
    )
}

proof fn lemma_at_key(e: Seq<((u32, u64), u64)>, key: (u32, u64), i: int)
    requires
        keys_differ(e),
        at_key(e, key, i),
    ensures
        contents(e).contains_key(key),
        contents(e)[key] == e[i].1,
{
    let k = choose|k: int| #[trigger] at_key(e, key, k);
    if k < i {
        assert(e[k].0 != e[i].0);
    }
    if i < k {
        assert(e[i].0 != e[k].0);
    }
}

impl View for Smoothing {
    type V = Map<(u32, u64), u64>;

    closed spec fn view(&self) -> Map<(u32, u64), u64> {
        contents(self.entries@)
    }
}

impl Smoothing {
    #[verifier::type_invariant]
    spec fn inv(self) -> bool {
        keys_differ(self.entries@)
    }

    /// No figure for any process.
    pub fn new() -> (r: Self)
        ensures
            r@ == Map::<(u32, u64), u64>::empty(),
    {
        let r = Smoothing { entries: Vec::new() };
        proof {
            assert(r@ =~= Map::<(u32, u64), u64>::empty());
        }
        r
    }

    fn place(&self, key: (u32, u64)) -> (r: Option<usize>)
        ensures
            match r {
                Some(i) => at_key(self.entries@, key, i as int),
                None => forall|i: int| !#[trigger] at_key(self.entries@, key, i),
            },
    {
        let mut i: usize = 0;
        while i < self.entries.len()
            invariant
                i <= self.entries@.len(),
                forall|j: int| 0 <= j < i ==> !#[trigger] at_key(self.entries@, key, j),
            decreases self.entries@.len() - i,
        {
            let k = self.entries[i].0;
            if k.0 == key.0 && k.1 == key.1 {
                return Some(i);
            }
            i = i + 1;
        }
        None
    }

    /// Blend a new figure into what is remembered of a process. A process seen for
    /// the first time starts at its own figure.
    pub fn smooth(&mut self, anchor: &Anchor, raw: u64) -> (r: u64)
        ensures
            r == blended(raw, last_or(old(self)@, fingerprint(*anchor), raw)),
            final(self)@ == old(self)@.insert(fingerprint(*anchor), r),
    {
        proof {
            use_type_invariant(&*self);
        }
        let key = (anchor.pid, anchor.start_time);
        let ghost e0 = self.entries@;
        let spot = self.place(key);
        let mut entries: Vec<((u32, u64), u64)> = Vec::new();
        std::mem::swap(&mut entries, &mut self.entries);
        let r: u64;
        match spot {
            Some(i) => {
                proof {
                    lemma_at_key(e0, key, i as int);
                }
                r = blend(raw, entries[i].1);
                entries.set(i, (key, r));
            },
            None => {
                r = blend(raw, raw);
                entries.push((key, r));
            },
        }
        proof {
            let e = entries@;
            let i = match spot {
                Some(i) => i as int,
                None => e0.len() as int,
            };
            assert forall|a: int, b: int| 0 <= a < b < e.len() implies (#[trigger] e[a]).0 != (
            #[trigger] e[b]).0 by {
                if b < e0.len() {
                    assert(e0[a].0 != e0[b].0);
                } else {
                    assert(!at_key(e0, key, a));
                }
            }
            assert(at_key(e, key, i));
            lemma_at_key(e, key, i);
            let m0 = contents(e0);
            let m = contents(e);
            assert forall|x: (u32, u64)| #[trigger] m.contains_key(x) <==> m0.insert(
                key,
                r,
            ).contains_key(x) by {
                if x != key {
                    if m.contains_key(x) {
                        let j = choose|j: int| #[trigger] at_key(e, x, j);
                        assert(e[j] == e0[j]);
                        assert(at_key(e0, x, j));
                    }
                    if m0.contains_key(x) {
                        let j = choose|j: int| #[trigger] at_key(e0, x, j);
                        assert(e[j] == e0[j]);
                        assert(at_key(e, x, j));
                    }
                }
            }
            assert forall|x: (u32, u64)| #[trigger] m.contains_key(x) implies m[x] == m0.insert(
                key,
                r,
            )[x] by {
                if x != key {
                    let j = choose|j: int| #[trigger] at_key(e, x, j);
                    assert(e[j] == e0[j]);
                    assert(at_key(e0, x, j));
                    lemma_at_key(e, x, j);
                    lemma_at_key(e0, x, j);
                }
            }
            assert(m =~= m0.insert(key, r));
        }
        self.entries = entries;
        r
    }

    /// Forget every process that no target has as its anchor.
    pub fn prune(&mut self, targets: &[Target])
        ensures
            final(self)@ == kept(old(self)@, anchors(target_views(targets@))),
    {
        proof {
            use_type_invariant(&*self);
        }
        let ghost e0 = self.entries@;
        let ghost live = anchors(target_views(targets@));
        let mut left: Vec<((u32, u64), u64)> = Vec::new();
        let mut i: usize = 0;
        while i < self.entries.len()
            invariant
                i <= self.entries@.len(),
                e0 == self.entries@,
                live == anchors(target_views(targets@)),
                keys_differ(e0),
                keys_differ(left@),
                forall|j: int|
                    0 <= j < left@.len() ==> live.contains((#[trigger] left@[j]).0) && exists|
                        k: int,
                    |
                        0 <= k < i && #[trigger] e0[k] == left@[j],
                forall|k: int|
                    0 <= k < i && live.contains((#[trigger] e0[k]).0) ==> left@.contains(e0[k]),
            decreases self.entries@.len() - i,
        {
            let entry = self.entries[i];
            let ghost left0 = left@;
            if is_anchor(targets, entry.0) {
                left.push(entry);
                proof {
                    assert(left@[left0.len() as int] == entry);
                    assert forall|a: int, b: int| 0 <= a < b < left@.len() implies (#[trigger] left@[a]).0
                        != (#[trigger] left@[b]).0 by {
                        if b == left0.len() {
                            assert(left@[a] == left0[a]);
                            let k = choose|k: int| 0 <= k < i && #[trigger] e0[k] == left0[a];
                            assert(e0[k].0 != e0[i as int].0);
                        } else {
                            assert(left0[a].0 != left0[b].0);
                        }
                    }
                }
            }
            proof {
                assert forall|j: int| 0 <= j < left@.len() implies live.contains(
                    (#[trigger] left@[j]).0,
                ) && exists|k: int| 0 <= k < i + 1 && #[trigger] e0[k] == left@[j] by {
                    if j < left0.len() {
                        assert(left@[j] == left0[j]);
                        let k = choose|k: int| 0 <= k < i && #[trigger] e0[k] == left0[j];
                        assert(e0[k] == left@[j]);
                    } else {
                        assert(e0[i as int] == left@[j]);
                    }
                }
                assert forall|k: int| 0 <= k < i + 1 && live.contains((#[trigger] e0[k]).0) implies left@.contains(
                    e0[k],
                ) by {
                    if k < i {
                        assert(left0.contains(e0[k]));
                        let a = choose|a: int| 0 <= a < left0.len() && left0[a] == e0[k];
                        assert(left@[a] == e0[k]);
                    }
                }
            }
            i = i + 1;
        }
        proof {
            let m = contents(left@);
            let goal = kept(contents(e0), live);
            assert forall|x: (u32, u64)| #[trigger] m.contains_key(x) <==> goal.contains_key(x) by {
                if m.contains_key(x) {
                    let j = choose|j: int| #[trigger] at_key(left@, x, j);
                    assert(live.contains(left@[j].0));
                    let k = choose|k: int| 0 <= k < i && #[trigger] e0[k] == left@[j];
                    assert(at_key(e0, x, k));
                }
                if goal.contains_key(x) {
                    let k = choose|k: int| #[trigger] at_key(e0, x, k);
                    assert(left@.contains(e0[k]));
                    let a = choose|a: int| 0 <= a < left@.len() && left@[a] == e0[k];
                    assert(at_key(left@, x, a));
                }
            }
            assert forall|x: (u32, u64)| #[trigger] m.contains_key(x) implies m[x] == goal[x] by {
                let j = choose|j: int| #[trigger] at_key(left@, x, j);
                assert(live.contains(left@[j].0));
                let k = choose|k: int| 0 <= k < i && #[trigger] e0[k] == left@[j];
                assert(at_key(e0, x, k));
                lemma_at_key(left@, x, j);
                lemma_at_key(e0, x, k);
            }
            assert(m =~= goal);
        }
        self.entries = left;
    }
}

fn is_anchor(targets: &[Target], key: (u32, u64)) -> (r: bool)
    ensures
        r == anchors(target_views(targets@)).contains(key),
{
    let ghost all = anchors(target_views(targets@));
    let mut i: usize = 0;
    while i < targets.len()
        invariant
            i <= targets@.len(),
            all == anchors(target_views(targets@)),
            forall|j: int| 0 <= j < i ==> all[j] != key,
        decreases targets@.len() - i,
    {
        let a = targets[i].anchor;
        assert(all[i as int] == (a.pid, a.start_time));
        if a.pid == key.0 && a.start_time == key.1 {
            return true;
        }
        i = i + 1;
    }
    false
}

/// A smoothed figure lies between the last one and the new one.
pub proof fn smoothing_stays_between(raw: u64, last: u64)
    ensures
        raw <= last ==> raw <= blended(raw, last) <= last,
        last <= raw ==> last <= blended(raw, last) <= raw,
{
}

/// A fingerprint without history starts at its own figure, whatever other
/// fingerprints have: a recycled pid has a different start time.
pub proof fn new_process_starts_fresh(m: Map<(u32, u64), u64>, pid: u32, start: u64, raw: u64)
    requires
        !m.contains_key((pid, start)),
    ensures
        blended(raw, last_or(m, (pid, start), raw)) == raw,
{
}

} // verus!
