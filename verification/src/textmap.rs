//! A small map from texts to optional texts, in the order in which its keys came.
use vstd::prelude::*;

use crate::model::{clone_opt, opt_text};
use crate::text;

verus! {

/// What a map holds under a key, with an absent key as nothing.
pub open spec fn lookup(m: Map<Seq<char>, Option<Seq<char>>>, key: Seq<char>) -> Option<Seq<char>> {
    if m.contains_key(key) {
        m[key]
    } else {
        None
    }
}

/// A map from texts to optional texts.
pub struct TextMap {
    entries: Vec<(String, Option<String>)>,
}

spec fn keys_differ(entries: Seq<(String, Option<String>)>) -> bool {
    forall|i: int, j: int|
        0 <= i < j < entries.len() ==> (#[trigger] entries[i]).0@ != (#[trigger] entries[j]).0@
}

/// `i` is the place of `key`.
spec fn at_key(entries: Seq<(String, Option<String>)>, key: Seq<char>, i: int) -> bool {
    0 <= i < entries.len() && entries[i].0@ == key
}

spec fn has_key(entries: Seq<(String, Option<String>)>, key: Seq<char>) -> bool {
    exists|i: int| #[trigger] at_key(entries, key, i)
}

spec fn value_of(entries: Seq<(String, Option<String>)>, key: Seq<char>) -> Option<Seq<char>> {
    opt_text(entries[choose|i: int| #[trigger] at_key(entries, key, i)].1)
}

spec fn contents(entries: Seq<(String, Option<String>)>) -> Map<Seq<char>, Option<Seq<char>>> {
    Map::new(|k: Seq<char>| has_key(entries, k), |k: Seq<char>| value_of(entries, k))
}

proof fn lemma_at_key(entries: Seq<(String, Option<String>)>, key: Seq<char>, i: int)
    requires
        keys_differ(entries),
        at_key(entries, key, i),
    ensures
        contents(entries).contains_key(key),
        contents(entries)[key] == opt_text(entries[i].1),
{
    let k = choose|k: int| #[trigger] at_key(entries, key, k);
    if k < i {
        assert(entries[k].0@ != entries[i].0@);
    }
    if i < k {
        assert(entries[i].0@ != entries[k].0@);
    }
}

impl View for TextMap {
    type V = Map<Seq<char>, Option<Seq<char>>>;

    closed spec fn view(&self) -> Map<Seq<char>, Option<Seq<char>>> {
        contents(self.entries@)
    }
}

impl TextMap {
    #[verifier::type_invariant]
    spec fn inv(self) -> bool {
        keys_differ(self.entries@)
    }

    /// The keys, in the order in which they came.
    pub closed spec fn keys(&self) -> Seq<Seq<char>> {
        Seq::new(self.entries@.len(), |i: int| self.entries@[i].0@)
    }

    /// A map without entries.
    pub fn new() -> (r: Self)
        ensures
            r@ == Map::<Seq<char>, Option<Seq<char>>>::empty(),
            r.keys() == Seq::<Seq<char>>::empty(),
    {
        let r = TextMap { entries: Vec::new() };
        proof {
            assert(r@ =~= Map::<Seq<char>, Option<Seq<char>>>::empty());
            assert(r.keys() =~= Seq::<Seq<char>>::empty());
        }
        r
    }

    fn place(&self, key: &str) -> (r: Option<usize>)
        ensures
            match r {
                Some(i) => at_key(self.entries@, key@, i as int),
                None => !has_key(self.entries@, key@),
            },
    {
        let mut i: usize = 0;
        while i < self.entries.len()
            invariant
                i <= self.entries@.len(),
                forall|j: int| 0 <= j < i ==> !#[trigger] at_key(self.entries@, key@, j),
            decreases self.entries@.len() - i,
        {
            if text::same(self.entries[i].0.as_str(), key) {
                return Some(i);
            }
            i = i + 1;
        }
        None
    }

    /// Whether there is an entry under a key.
    pub fn knows(&self, key: &str) -> (r: bool)
        ensures
            r == self@.contains_key(key@),
    {
        self.place(key).is_some()
    }

    /// What stands under a key; nothing where there is no entry.
    pub fn get(&self, key: &str) -> (r: Option<String>)
        ensures
            opt_text(r) == lookup(self@, key@),
    {
        match self.place(key) {
            Some(i) => {
                proof {
                    use_type_invariant(self);
                    lemma_at_key(self.entries@, key@, i as int);
                }
                clone_opt(&self.entries[i].1)
            },
            None => None,
        }
    }

    /// Put a value under a key, in place of what stood there.
    pub fn insert(&mut self, key: String, value: Option<String>)
        ensures
            final(self)@ == old(self)@.insert(key@, opt_text(value)),
            final(self).keys() == (if old(self)@.contains_key(key@) {
                old(self).keys()
            } else {
                old(self).keys().push(key@)
            }),
    {
        proof {
            use_type_invariant(&*self);
        }
        let ghost e0 = self.entries@;
        let spot = self.place(key.as_str());
        let mut entries: Vec<(String, Option<String>)> = Vec::new();
        std::mem::swap(&mut entries, &mut self.entries);
        let ghost k = key@;
        let ghost v = opt_text(value);
        match spot {
            Some(i) => {
                entries.set(i, (key, value));
                proof {
                    let e = entries@;
                    assert(at_key(e0, k, i as int));
                    assert(has_key(e0, k));
                    assert forall|a: int, b: int| 0 <= a < b < e.len() implies (#[trigger] e[a]).0@
                        != (#[trigger] e[b]).0@ by {
                        assert(e0[a].0@ != e0[b].0@);
                    }
                    lemma_updated(e0, e, k, v, i as int);
                    assert(Seq::new(e.len(), |j: int| e[j].0@) =~= Seq::new(
                        e0.len(),
                        |j: int| e0[j].0@,
                    ));
                }
            },
            None => {
                entries.push((key, value));
                proof {
                    let e = entries@;
                    assert forall|a: int, b: int| 0 <= a < b < e.len() implies (#[trigger] e[a]).0@
                        != (#[trigger] e[b]).0@ by {
                        if b == e0.len() {
                            assert(!at_key(e0, k, a));
                        } else {
                            assert(e0[a].0@ != e0[b].0@);
                        }
                    }
                    lemma_updated(e0, e, k, v, e0.len() as int);
                    assert(Seq::new(e.len(), |j: int| e[j].0@) =~= Seq::new(
                        e0.len(),
                        |j: int| e0[j].0@,
                    ).push(k));
                }
            },
        }
        self.entries = entries;
    }

    /// Forget every entry.
    pub fn clear(&mut self)
        ensures
            final(self)@ == Map::<Seq<char>, Option<Seq<char>>>::empty(),
            final(self).keys() == Seq::<Seq<char>>::empty(),
    {
        self.entries = Vec::new();
        proof {
            assert(self@ =~= Map::<Seq<char>, Option<Seq<char>>>::empty());
            assert(self.keys() =~= Seq::<Seq<char>>::empty());
        }
    }

    /// The different texts among the values, in the order of their keys.
    pub fn values(&self) -> (r: Vec<String>)
        ensures
            text::texts(r@).no_duplicates(),
            forall|v: Seq<char>| #[trigger]
                text::texts(r@).contains(v) <==> exists|k: Seq<char>| #[trigger]
                    self@.contains_key(k) && self@[k] == Some(v),
    {
        proof {
            use_type_invariant(self);
        }
        let ghost e = self.entries@;
        let mut out: Vec<String> = Vec::new();
        let mut i: usize = 0;
        while i < self.entries.len()
            invariant
                i <= self.entries@.len(),
                e == self.entries@,
                text::texts(out@).no_duplicates(),
                forall|v: Seq<char>| #[trigger]
                    text::texts(out@).contains(v) <==> exists|j: int|
                        0 <= j < i && opt_text((#[trigger] e[j]).1) == Some(v),
            decreases self.entries@.len() - i,
        {
            let ghost out0 = text::texts(out@);
            match &self.entries[i].1 {
                Some(v) => {
                    if !has_text(out.as_slice(), v.as_str()) {
                        out.push(v.clone());
                        proof {
                            assert(text::texts(out@) =~= out0.push(v@));
                        }
                    }
                    proof {
                        assert forall|x: Seq<char>| #[trigger]
                            text::texts(out@).contains(x) <==> out0.contains(x) || x == v@ by {
                            if out0.contains(x) {
                                let a = choose|a: int| 0 <= a < out0.len() && out0[a] == x;
                                assert(text::texts(out@)[a] == x);
                            }
                            if !out0.contains(v@) {
                                assert(text::texts(out@)[out0.len() as int] == v@);
                            }
                        }
                    }
                },
                None => {},
            }
            proof {
                assert forall|v: Seq<char>| #[trigger] text::texts(out@).contains(v) <==> exists|
                    j: int,
                |
                    0 <= j < i + 1 && opt_text((#[trigger] e[j]).1) == Some(v) by {
                    if out0.contains(v) {
                        let j = choose|j: int| 0 <= j < i && opt_text((#[trigger] e[j]).1) == Some(
                            v,
                        );
                        assert(opt_text(e[j].1) == Some(v));
                    }
                    assert(opt_text(e[i as int].1) == opt_text(self.entries@[i as int].1));
                }
            }
            i = i + 1;
        }
        proof {
            assert forall|v: Seq<char>| #[trigger] text::texts(out@).contains(v) <==> exists|
                k: Seq<char>,
            | #[trigger] self@.contains_key(k) && self@[k] == Some(v) by {
                if text::texts(out@).contains(v) {
                    let j = choose|j: int| 0 <= j < i && opt_text((#[trigger] e[j]).1) == Some(v);
                    assert(at_key(e, e[j].0@, j));
                    lemma_at_key(e, e[j].0@, j);
                    assert(self@.contains_key(e[j].0@));
                }
                if exists|k: Seq<char>| #[trigger] self@.contains_key(k) && self@[k] == Some(v) {
                    let k = choose|k: Seq<char>| #[trigger]
                        self@.contains_key(k) && self@[k] == Some(v);
                    let j = choose|j: int| #[trigger] at_key(e, k, j);
                    lemma_at_key(e, k, j);
                    assert(opt_text(e[j].1) == Some(v));
                }
            }
        }
        out
    }
}

proof fn lemma_updated(
    e0: Seq<(String, Option<String>)>,
    e: Seq<(String, Option<String>)>,
    k: Seq<char>,
    v: Option<Seq<char>>,
    i: int,
)
    requires
        keys_differ(e0),
        keys_differ(e),
        0 <= i < e.len(),
        i <= e0.len(),
        e.len() == (if i == e0.len() { e0.len() + 1 } else { e0.len() }),
        e[i].0@ == k,
        opt_text(e[i].1) == v,
        i < e0.len() ==> e0[i].0@ == k,
        i == e0.len() ==> !has_key(e0, k),
        forall|j: int| 0 <= j < e0.len() && j != i ==> #[trigger] e[j] == e0[j],
    ensures
        contents(e) == contents(e0).insert(k, v),
{
    let m = contents(e);
    let m0 = contents(e0);
    assert(at_key(e, k, i));
    lemma_at_key(e, k, i);
    assert forall|x: Seq<char>| #[trigger] m.contains_key(x) <==> m0.insert(k, v).contains_key(x) by {
        if x != k {
            if has_key(e, x) {
                let j = choose|j: int| #[trigger] at_key(e, x, j);
                assert(e[j] == e0[j]);
                assert(at_key(e0, x, j));
            }
            if has_key(e0, x) {
                let j = choose|j: int| #[trigger] at_key(e0, x, j);
                assert(e[j] == e0[j]);
                assert(at_key(e, x, j));
            }
        }
    }
    assert forall|x: Seq<char>| #[trigger] m.contains_key(x) implies m[x] == m0.insert(k, v)[x] by {
        if x != k {
            let j = choose|j: int| #[trigger] at_key(e, x, j);
            assert(e[j] == e0[j]);
            assert(at_key(e0, x, j));
            lemma_at_key(e, x, j);
            lemma_at_key(e0, x, j);
        }
    }
    assert(m =~= m0.insert(k, v));
}

/// Whether a text is in a list.
pub fn has_text(list: &[String], s: &str) -> (r: bool)
    ensures
        r == text::texts(list@).contains(s@),
{
    let ghost all = text::texts(list@);
    let mut i: usize = 0;
    while i < list.len()
        invariant
            i <= list@.len(),
            all == text::texts(list@),
            forall|j: int| 0 <= j < i ==> all[j] != s@,
        decreases list@.len() - i,
    {
        assert(all[i as int] == list@[i as int]@);
        if text::same(list[i].as_str(), s) {
            return true;
        }
        i = i + 1;
    }
    false
}

} // verus!
