//! Moments remembered per target key.
use vstd::prelude::*;

use crate::model::{KeyView, TargetKey};

verus! {

/// Milliseconds from one moment to another; none where time seems to run backwards.
pub open spec fn elapsed(now: u64, at: u64) -> u64 {
    if now >= at {
        (now - at) as u64
    } else {
        0
    }
}

/// Time since a moment.
pub fn since(now: u64, at: u64) -> (r: u64)
    ensures
        r == elapsed(now, at),
{
    if now >= at {
        now - at
    } else {
        0
    }
}

/// The moments that are younger than `ttl`.
pub open spec fn younger(m: Map<KeyView, u64>, now: u64, ttl: u64) -> Map<KeyView, u64> {
    Map::new(|k: KeyView| m.contains_key(k) && elapsed(now, m[k]) < ttl, |k: KeyView| m[k])
}

/// A moment per key.
pub struct KeyTimes {
    entries: Vec<(TargetKey, u64)>,
}

spec fn keys_differ(e: Seq<(TargetKey, u64)>) -> bool {
    forall|i: int, j: int| 0 <= i < j < e.len() ==> (#[trigger] e[i]).0@ != (#[trigger] e[j]).0@
}

spec fn at_key(e: Seq<(TargetKey, u64)>, key: KeyView, i: int) -> bool {
    0 <= i < e.len() && e[i].0@ == key
}

spec fn contents(e: Seq<(TargetKey, u64)>) -> Map<KeyView, u64> {
    Map::new(
        |k: KeyView| exists|i: int| #[trigger] at_key(e, k, i),
        |k: KeyView| e[choose|i: int| #[trigger] at_key(e, k, i)].1,
    )
}

proof fn lemma_at_key(e: Seq<(TargetKey, u64)>, key: KeyView, i: int)
    requires
        keys_differ(e),
        at_key(e, key, i),
    ensures
        contents(e).contains_key(key),
        contents(e)[key] == e[i].1,
{
    let k = choose|k: int| #[trigger] at_key(e, key, k);
    if k < i {
        assert(e[k].0@ != e[i].0@);
    }
    if i < k {
        assert(e[i].0@ != e[k].0@);
    }
}

impl View for KeyTimes {
    type V = Map<KeyView, u64>;

    closed spec fn view(&self) -> Map<KeyView, u64> {
        contents(self.entries@)
    }
}

impl KeyTimes {
    #[verifier::type_invariant]
    spec fn inv(self) -> bool {
        keys_differ(self.entries@)
    }

    /// No moment for any key.
    pub fn new() -> (r: Self)
        ensures
            r@ == Map::<KeyView, u64>::empty(),
    {
        let r = KeyTimes { entries: Vec::new() };
        proof {
            assert(r@ =~= Map::<KeyView, u64>::empty());
        }
        r
    }

    fn place(&self, key: &TargetKey) -> (r: Option<usize>)
        ensures
            match r {
                Some(i) => at_key(self.entries@, key@, i as int),
                None => forall|i: int| !#[trigger] at_key(self.entries@, key@, i),
            },
    {
        let mut i: usize = 0;
        while i < self.entries.len()
            invariant
                i <= self.entries@.len(),
                forall|j: int| 0 <= j < i ==> !#[trigger] at_key(self.entries@, key@, j),
            decreases self.entries@.len() - i,
        {
            if self.entries[i].0.same(key) {
                return Some(i);
            }
            i = i + 1;
        }
        None
    }

    /// The moment of a key.
    pub fn get(&self, key: &TargetKey) -> (r: Option<u64>)
        ensures
            r == (if self@.contains_key(key@) {
                Some(self@[key@])
            } else {
                None
            }),
    {
        match self.place(key) {
            Some(i) => {
                proof {
                    use_type_invariant(self);
                    lemma_at_key(self.entries@, key@, i as int);
                }
                Some(self.entries[i].1)
            },
            None => None,
        }
    }

    /// Whether no key has a moment.
    pub fn is_empty(&self) -> (r: bool)
        ensures
            r == (self@ == Map::<KeyView, u64>::empty()),
    {
        proof {
            if self.entries@.len() > 0 {
                assert(at_key(self.entries@, self.entries@[0].0@, 0));
                assert(self@.contains_key(self.entries@[0].0@));
            } else {
                assert(self@ =~= Map::<KeyView, u64>::empty());
            }
        }
        self.entries.len() == 0
    }

    /// Set the moment of a key.
    pub fn insert(&mut self, key: TargetKey, at: u64)
        ensures
            final(self)@ == old(self)@.insert(key@, at),
    {
        proof {
            use_type_invariant(&*self);
        }
        let ghost e0 = self.entries@;
        let ghost k = key@;
        let spot = self.place(&key);
        let mut entries: Vec<(TargetKey, u64)> = Vec::new();
        std::mem::swap(&mut entries, &mut self.entries);
        match spot {
            Some(i) => {
                entries.set(i, (key, at));
            },
            None => {
                entries.push((key, at));
            },
        }
        proof {
            let e = entries@;
            let i = match spot {
                Some(i) => i as int,
                None => e0.len() as int,
            };
            assert forall|a: int, b: int| 0 <= a < b < e.len() implies (#[trigger] e[a]).0@ != (
            #[trigger] e[b]).0@ by {
                if b < e0.len() {
                    assert(e0[a].0@ != e0[b].0@);
                } else {
                    assert(!at_key(e0, k, a));
                }
            }
            assert(at_key(e, k, i));
            lemma_at_key(e, k, i);
            let m0 = contents(e0);
            let m = contents(e);
            assert forall|x: KeyView| #[trigger] m.contains_key(x) <==> m0.insert(
                k,
                at,
            ).contains_key(x) by {
                if x != k {
                    if m.contains_key(x) {
                        let j = choose|j: int| #[trigger] at_key(e, x, j);
                        assert(e[j] == e0[j]);
                        assert(at_key(e0, x, j));
                    }
                    if m0.contains_key(x) {
                        let j = choose|j: int| #[trigger] at_key(e0, x, j);
                        assert(e[j] == e0[j]);
                        assert(at_key(e, x, j));
                    }
                }
            }
            assert forall|x: KeyView| #[trigger] m.contains_key(x) implies m[x] == m0.insert(
                k,
                at,
            )[x] by {
                if x != k {
                    let j = choose|j: int| #[trigger] at_key(e, x, j);
                    assert(e[j] == e0[j]);
                    assert(at_key(e0, x, j));
                    lemma_at_key(e, x, j);
                    lemma_at_key(e0, x, j);
                }
            }
            assert(m =~= m0.insert(k, at));
        }
        self.entries = entries;
    }

    /// Forget the moments that are `ttl` old or older. Says whether there were any.
    pub fn expire(&mut self, now: u64, ttl: u64) -> (r: bool)
        ensures
            final(self)@ == younger(old(self)@, now, ttl),
            r == (final(self)@ != old(self)@),
    {
        proof {
            use_type_invariant(&*self);
        }
        let ghost e0 = self.entries@;
        let ghost m0 = self@;
        let mut left: Vec<(TargetKey, u64)> = Vec::new();
        let mut dropped = false;
        let mut i: usize = 0;
        while i < self.entries.len()
            invariant
                i <= self.entries@.len(),
                e0 == self.entries@,
                keys_differ(e0),
                keys_differ(left@),
                forall|j: int|
                    0 <= j < left@.len() ==> elapsed(now, (#[trigger] left@[j]).1) < ttl && exists|
                        k: int,
                    |
                        0 <= k < i && #[trigger] e0[k] == left@[j],
                forall|k: int|
                    0 <= k < i && elapsed(now, (#[trigger] e0[k]).1) < ttl ==> left@.contains(e0[k]),
                dropped == exists|k: int| 0 <= k < i && elapsed(now, (#[trigger] e0[k]).1) >= ttl,
            decreases self.entries@.len() - i,
        {
            let ghost left0 = left@;
            let at = self.entries[i].1;
            if since(now, at) < ttl {
                left.push((self.entries[i].0.clone(), at));
                proof {
                    assert(left@[left0.len() as int] == e0[i as int]);
                    assert forall|a: int, b: int| 0 <= a < b < left@.len() implies (
                    #[trigger] left@[a]).0@ != (#[trigger] left@[b]).0@ by {
                        if b == left0.len() {
                            assert(left@[a] == left0[a]);
                            let k = choose|k: int| 0 <= k < i && #[trigger] e0[k] == left0[a];
                            assert(e0[k].0@ != e0[i as int].0@);
                        } else {
                            assert(left0[a].0@ != left0[b].0@);
                        }
                    }
                }
            } else {
                dropped = true;
                assert(elapsed(now, e0[i as int].1) >= ttl);
            }
            proof {
                assert forall|j: int| 0 <= j < left@.len() implies elapsed(
                    now,
                    (#[trigger] left@[j]).1,
                ) < ttl && exists|k: int| 0 <= k < i + 1 && #[trigger] e0[k] == left@[j] by {
                    if j < left0.len() {
                        assert(left@[j] == left0[j]);
                        let k = choose|k: int| 0 <= k < i && #[trigger] e0[k] == left0[j];
                        assert(e0[k] == left@[j]);
                    } else {
                        assert(e0[i as int] == left@[j]);
                    }
                }
                assert forall|k: int|
                    0 <= k < i + 1 && elapsed(now, (#[trigger] e0[k]).1) < ttl implies left@.contains(
                    e0[k],
                ) by {
                    if k < i {
                        assert(left0.contains(e0[k]));
                        let a = choose|a: int| 0 <= a < left0.len() && left0[a] == e0[k];
                        assert(left@[a] == e0[k]);
                    }
                }
            }
            i = i + 1;
        }
        proof {
            let m = contents(left@);
            let goal = younger(m0, now, ttl);
            assert forall|x: KeyView| #[trigger] m.contains_key(x) <==> goal.contains_key(x) by {
                if m.contains_key(x) {
                    let j = choose|j: int| #[trigger] at_key(left@, x, j);
                    assert(elapsed(now, left@[j].1) < ttl);
                    let k = choose|k: int| 0 <= k < i && #[trigger] e0[k] == left@[j];
                    assert(at_key(e0, x, k));
                    lemma_at_key(e0, x, k);
                }
                if goal.contains_key(x) {
                    let k = choose|k: int| #[trigger] at_key(e0, x, k);
                    lemma_at_key(e0, x, k);
                    assert(left@.contains(e0[k]));
                    let a = choose|a: int| 0 <= a < left@.len() && left@[a] == e0[k];
                    assert(at_key(left@, x, a));
                }
            }
            assert forall|x: KeyView| #[trigger] m.contains_key(x) implies m[x] == goal[x] by {
                let j = choose|j: int| #[trigger] at_key(left@, x, j);
                assert(elapsed(now, left@[j].1) < ttl);
                let k = choose|k: int| 0 <= k < i && #[trigger] e0[k] == left@[j];
                assert(at_key(e0, x, k));
                lemma_at_key(left@, x, j);
                lemma_at_key(e0, x, k);
            }
            assert(m =~= goal);
            if dropped {
                let k = choose|k: int| 0 <= k < i && elapsed(now, (#[trigger] e0[k]).1) >= ttl;
                assert(at_key(e0, e0[k].0@, k));
                lemma_at_key(e0, e0[k].0@, k);
                assert(m0.contains_key(e0[k].0@) && !goal.contains_key(e0[k].0@));
            } else {
                assert forall|x: KeyView| #[trigger] m0.contains_key(x) implies goal.contains_key(
                    x,
                ) by {
                    let k = choose|k: int| #[trigger] at_key(e0, x, k);
                    lemma_at_key(e0, x, k);
                    assert(elapsed(now, e0[k].1) < ttl);
                }
                assert(goal =~= m0);
            }
        }
        self.entries = left;
        dropped
    }
}

} // verus!
