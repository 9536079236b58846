//! Stable sorting of indices by an order that is known at run time.
use vstd::prelude::*;

verus! {

/// A list with one more index, behind every index that does not come after it.
pub open spec fn ranked_by(
    list: Seq<usize>,
    x: usize,
    before: spec_fn(usize, usize) -> bool,
) -> Seq<usize>
    decreases list.len(),
{
    if list.len() == 0 || !before(x, list.last()) {
        list.push(x)
    } else {
        ranked_by(list.drop_last(), x, before).push(list.last())
    }
}

/// The indices in order; those that the order does not tell apart keep theirs.
pub open spec fn sorted_by(list: Seq<usize>, before: spec_fn(usize, usize) -> bool) -> Seq<usize>
    decreases list.len(),
{
    if list.len() == 0 {
        list
    } else {
        ranked_by(sorted_by(list.drop_last(), before), list.last(), before)
    }
}

/// No index comes before one that stands ahead of it.
pub open spec fn in_order(list: Seq<usize>, before: spec_fn(usize, usize) -> bool) -> bool {
    forall|i: int, j: int|
        0 <= i < j < list.len() ==> !before(#[trigger] list[j], #[trigger] list[i])
}

/// The order is one-way, and what does not come after stays so along a chain.
pub open spec fn is_weak_order(before: spec_fn(usize, usize) -> bool) -> bool {
    &&& forall|a: usize, b: usize| #[trigger] before(a, b) ==> !before(b, a)
    &&& forall|a: usize, b: usize, c: usize|
        !#[trigger] before(b, a) && !#[trigger] before(c, b) ==> !before(c, a)
}

/// An order that code can ask.
pub trait IndexOrder {
    /// The index is one that the order is about.
    spec fn knows(&self, a: usize) -> bool;

    spec fn before(&self, a: usize, b: usize) -> bool;

    fn is_before(&self, a: usize, b: usize) -> (r: bool)
        requires
            self.knows(a),
            self.knows(b),
        ensures
            r == self.before(a, b),
    ;
}

/// The order as a function.
pub open spec fn order_of<O: IndexOrder>(o: O) -> spec_fn(usize, usize) -> bool {
    |a: usize, b: usize| o.before(a, b)
}

/// Every index of a list is one that the order is about.
pub open spec fn all_known<O: IndexOrder>(o: O, list: Seq<usize>) -> bool {
    forall|i: int| 0 <= i < list.len() ==> o.knows(#[trigger] list[i])
}

proof fn lemma_ranked_members(
    list: Seq<usize>,
    x: usize,
    before: spec_fn(usize, usize) -> bool,
)
    ensures
        ranked_by(list, x, before).len() == list.len() + 1,
        ranked_by(list, x, before).to_multiset() == list.to_multiset().insert(x),
    decreases list.len(),
{
    broadcast use vstd::seq_lib::group_to_multiset_ensures;

    if list.len() > 0 && before(x, list.last()) {
        lemma_ranked_members(list.drop_last(), x, before);
        assert(list =~= list.drop_last().push(list.last()));
        assert(ranked_by(list, x, before).to_multiset() =~= list.to_multiset().insert(x));
    }
}

/// Sorting keeps the members of a list, as often as they occur.
pub proof fn sorting_keeps_members(list: Seq<usize>, before: spec_fn(usize, usize) -> bool)
    ensures
        sorted_by(list, before).len() == list.len(),
        sorted_by(list, before).to_multiset() == list.to_multiset(),
        forall|x: usize| #[trigger] sorted_by(list, before).contains(x) <==> list.contains(x),
    decreases list.len(),
{
    broadcast use vstd::seq_lib::group_to_multiset_ensures;

    if list.len() > 0 {
        sorting_keeps_members(list.drop_last(), before);
        lemma_ranked_members(sorted_by(list.drop_last(), before), list.last(), before);
        assert(list =~= list.drop_last().push(list.last()));
    }
    assert forall|x: usize| #[trigger] sorted_by(list, before).contains(x) <==> list.contains(
        x,
    ) by {
        assert(sorted_by(list, before).contains(x) <==> sorted_by(list, before).to_multiset().count(
            x,
        ) > 0);
        assert(list.contains(x) <==> list.to_multiset().count(x) > 0);
    }
}

proof fn lemma_ranked_in_order(
    list: Seq<usize>,
    x: usize,
    before: spec_fn(usize, usize) -> bool,
)
    requires
        is_weak_order(before),
        in_order(list, before),
    ensures
        in_order(ranked_by(list, x, before), before),
    decreases list.len(),
{
    broadcast use vstd::seq_lib::group_to_multiset_ensures;

    let after = ranked_by(list, x, before);
    if list.len() == 0 || !before(x, list.last()) {
        assert forall|i: int, j: int| 0 <= i < j < after.len() implies !before(
            #[trigger] after[j],
            #[trigger] after[i],
        ) by {
            if j == list.len() {
                if i < list.len() - 1 {
                    assert(!before(list[list.len() - 1], list[i]));
                }
            } else {
                assert(!before(list[j], list[i]));
            }
        }
    } else {
        let d = list.drop_last();
        assert(in_order(d, before)) by {
            assert forall|i: int, j: int| 0 <= i < j < d.len() implies !before(
                #[trigger] d[j],
                #[trigger] d[i],
            ) by {
                assert(!before(list[j], list[i]));
            }
        }
        lemma_ranked_in_order(d, x, before);
        lemma_ranked_members(d, x, before);
        let r = ranked_by(d, x, before);
        assert forall|i: int, j: int| 0 <= i < j < after.len() implies !before(
            #[trigger] after[j],
            #[trigger] after[i],
        ) by {
            if j == r.len() {
                assert(r.contains(r[i]));
                assert(r.to_multiset().contains(r[i]));
                assert(d.to_multiset().contains(r[i]) || r[i] == x);
                if r[i] != x {
                    assert(d.contains(r[i]));
                    let k = choose|k: int| 0 <= k < d.len() && d[k] == r[i];
                    assert(!before(list[list.len() - 1], list[k]));
                }
            } else {
                assert(!before(r[j], r[i]));
            }
        }
    }
}

/// Sorting puts a list in order.
pub proof fn sorting_orders(list: Seq<usize>, before: spec_fn(usize, usize) -> bool)
    requires
        is_weak_order(before),
    ensures
        in_order(sorted_by(list, before), before),
    decreases list.len(),
{
    if list.len() > 0 {
        sorting_orders(list.drop_last(), before);
        lemma_ranked_in_order(sorted_by(list.drop_last(), before), list.last(), before);
    }
}

fn rank<O: IndexOrder>(o: &O, list: &mut Vec<usize>, x: usize)
    requires
        all_known(*o, old(list)@),
        o.knows(x),
    ensures
        final(list)@ == ranked_by(old(list)@, x, order_of(*o)),
        all_known(*o, final(list)@),
{
    let ghost all = list@;
    let ghost f = order_of(*o);
    let mut i: usize = list.len();
    proof {
        assert(all.take(i as int) =~= all);
        assert(ranked_by(all, x, f) =~= ranked_by(all.take(i as int), x, f) + all.skip(i as int));
    }
    loop
        invariant_except_break
            ranked_by(all, x, f) == ranked_by(all.take(i as int), x, f) + all.skip(i as int),
        invariant
            list@ == all,
            all_known(*o, all),
            o.knows(x),
            f == order_of(*o),
            i <= all.len(),
        ensures
            ranked_by(all, x, f) == all.take(i as int).push(x) + all.skip(i as int),
        decreases i,
    {
        if i == 0 {
            proof {
                assert(all.take(0).len() == 0);
            }
            break ;
        }
        proof {
            assert(all.take(i as int).last() == list@[i - 1]);
            assert(all.take(i as int).drop_last() =~= all.take(i - 1));
            assert(o.knows(all[i - 1]));
        }
        if !o.is_before(x, list[i - 1]) {
            break ;
        }
        proof {
            assert(ranked_by(all.take(i - 1), x, f).push(all[i - 1]) + all.skip(i as int)
                =~= ranked_by(all.take(i - 1), x, f) + all.skip(i - 1));
        }
        i = i - 1;
    }
    list.insert(i, x);
    proof {
        assert(list@ =~= all.take(i as int).push(x) + all.skip(i as int));
        assert forall|k: int| 0 <= k < list@.len() implies o.knows(#[trigger] list@[k]) by {
            if k < i {
                assert(list@[k] == all[k]);
            } else if k > i {
                assert(list@[k] == all[k - 1]);
            }
        }
    }
}

/// Sort indices; those that the order does not tell apart keep their order.
pub fn sort_indices<O: IndexOrder>(o: &O, list: &[usize]) -> (r: Vec<usize>)
    requires
        all_known(*o, list@),
    ensures
        r@ == sorted_by(list@, order_of(*o)),
{
    let ghost f = order_of(*o);
    let mut out: Vec<usize> = Vec::new();
    let mut i: usize = 0;
    proof {
        assert(out@ =~= sorted_by(list@.take(0), f));
    }
    while i < list.len()
        invariant
            i <= list@.len(),
            f == order_of(*o),
            all_known(*o, list@),
            all_known(*o, out@),
            out@ == sorted_by(list@.take(i as int), f),
        decreases list@.len() - i,
    {
        proof {
            assert(list@.take(i + 1).drop_last() =~= list@.take(i as int));
            assert(list@.take(i + 1).last() == list@[i as int]);
            assert(o.knows(list@[i as int]));
        }
        rank(o, &mut out, list[i]);
        i = i + 1;
    }
    proof {
        assert(list@.take(i as int) =~= list@);
    }
    out
}

} // verus!
