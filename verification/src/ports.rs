//! Sets of ports as strictly increasing lists.
use vstd::prelude::*;

verus! {

/// A strictly increasing list with `x` put in its place.
pub open spec fn placed(t: Seq<u16>, x: u16) -> Seq<u16>
    decreases t.len(),
{
    if t.len() == 0 || t.last() < x {
        t.push(x)
    } else if t.last() == x {
        t
    } else {
        placed(t.drop_last(), x).push(t.last())
    }
}

/// The members of a list, in increasing order and once each.
pub open spec fn sorted_set(s: Seq<u16>) -> Seq<u16>
    decreases s.len(),
{
    if s.len() == 0 {
        s
    } else {
        placed(sorted_set(s.drop_last()), s.last())
    }
}

pub open spec fn increasing(s: Seq<u16>) -> bool {
    forall|i: int, j: int| 0 <= i < j < s.len() ==> #[trigger] s[i] < #[trigger] s[j]
}

proof fn lemma_push_member(s: Seq<u16>, x: u16, y: u16)
    ensures
        s.push(x).contains(y) <==> s.contains(y) || y == x,
{
    assert(s.push(x)[s.len() as int] == x);
    if s.contains(y) {
        let i = choose|i: int| 0 <= i < s.len() && s[i] == y;
        assert(s.push(x)[i] == y);
    }
}

proof fn lemma_placed(t: Seq<u16>, x: u16)
    requires
        increasing(t),
    ensures
        increasing(placed(t, x)),
        forall|y: u16| #[trigger] placed(t, x).contains(y) <==> t.contains(y) || y == x,
        forall|i: int| 0 <= i < placed(t, x).len() && t.len() > 0 && x <= t.last() ==> #[trigger] placed(
            t,
            x,
        )[i] <= t.last(),
    decreases t.len(),
{
    if t.len() == 0 || t.last() < x {
        assert forall|y: u16| #[trigger] placed(t, x).contains(y) <==> t.contains(y) || y == x by {
            lemma_push_member(t, x, y);
        }
        assert forall|i: int, j: int|
            0 <= i < j < placed(t, x).len() implies #[trigger] placed(t, x)[i] < #[trigger] placed(
            t,
            x,
        )[j] by {
            if j == t.len() && i < t.len() - 1 {
                assert(t[i] < t[t.len() - 1]);
            }
        }
    } else if t.last() == x {
        assert(t.contains(x)) by {
            assert(t[t.len() - 1] == x);
        }
    } else {
        let d = t.drop_last();
        lemma_placed(d, x);
        let p = placed(d, x);
        assert forall|i: int| 0 <= i < p.len() implies #[trigger] p[i] < t.last() by {
            assert(p.contains(p[i]));
            assert(d.contains(p[i]) || p[i] == x);
            if d.contains(p[i]) {
                let k = choose|k: int| 0 <= k < d.len() && d[k] == p[i];
                assert(t[k] < t[t.len() - 1]);
            }
        }
        assert(t =~= d.push(t.last()));
        assert forall|y: u16| #[trigger] placed(t, x).contains(y) <==> t.contains(y) || y == x by {
            lemma_push_member(p, t.last(), y);
            lemma_push_member(d, t.last(), y);
            assert(p.contains(y) <==> d.contains(y) || y == x);
        }
    }
}

/// A sorted set is strictly increasing and has the members of the list.
pub proof fn lemma_sorted_set(s: Seq<u16>)
    ensures
        increasing(sorted_set(s)),
        forall|y: u16| #[trigger] sorted_set(s).contains(y) <==> s.contains(y),
        s.len() > 0 ==> sorted_set(s).len() > 0,
    decreases s.len(),
{
    if s.len() > 0 {
        let d = s.drop_last();
        lemma_sorted_set(d);
        lemma_placed(sorted_set(d), s.last());
        assert(s =~= d.push(s.last()));
        assert forall|y: u16| #[trigger] sorted_set(s).contains(y) <==> s.contains(y) by {
            lemma_push_member(d, s.last(), y);
            assert(sorted_set(d).contains(y) <==> d.contains(y));
        }
        assert(sorted_set(s).contains(s.last()));
    }
}

fn place(t: &mut Vec<u16>, x: u16)
    requires
        increasing(old(t)@),
    ensures
        final(t)@ == placed(old(t)@, x),
{
    let mut i: usize = t.len();
    let ghost all = t@;
    proof {
        assert(all.take(i as int) =~= all);
        assert(all.skip(i as int) =~= Seq::empty());
        assert(placed(all, x) =~= placed(all.take(i as int), x) + all.skip(i as int));
    }
    while i > 0
        invariant
            t@ == all,
            i <= all.len(),
            forall|j: int| i <= j < all.len() ==> x < all[j],
            placed(all, x) == placed(all.take(i as int), x) + all.skip(i as int),
        ensures
            placed(all, x) == (all.take(i as int).push(x) + all.skip(i as int)),
            i <= all.len(),
        decreases i,
    {
        let y = t[i - 1];
        let ghost head = all.take(i as int);
        proof {
            assert(head.last() == y);
            assert(head.drop_last() =~= all.take(i - 1));
        }
        if y == x {
            proof {
                assert(placed(head, x) == head);
                assert(head + all.skip(i as int) =~= all);
            }
            return ;
        }
        if y < x {
            proof {
                assert(placed(head, x) == head.push(x));
            }
            break ;
        }
        proof {
            assert(placed(head, x) == placed(all.take(i - 1), x).push(y));
            assert(placed(all.take(i - 1), x).push(y) + all.skip(i as int) =~= placed(
                all.take(i - 1),
                x,
            ) + all.skip(i - 1));
        }
        i = i - 1;
        proof {
            if i == 0 {
                assert(all.take(0).len() == 0);
                assert(placed(all.take(0), x) == all.take(0).push(x));
            }
        }
    }
    proof {
        assert(all.take(i as int).push(x) + all.skip(i as int) =~= all.insert(i as int, x));
    }
    t.insert(i, x);
}

/// Sort a list of ports and drop repetitions.
pub fn sort_dedup(ports: &[u16]) -> (r: Vec<u16>)
    ensures
        r@ == sorted_set(ports@),
{
    let mut out: Vec<u16> = Vec::new();
    let mut i: usize = 0;
    while i < ports.len()
        invariant
            i <= ports@.len(),
            out@ == sorted_set(ports@.take(i as int)),
        decreases ports@.len() - i,
    {
        proof {
            lemma_sorted_set(ports@.take(i as int));
            assert(ports@.take(i + 1).drop_last() =~= ports@.take(i as int));
            assert(ports@.take(i + 1).last() == ports@[i as int]);
        }
        place(&mut out, ports[i]);
        i = i + 1;
    }
    proof {
        assert(ports@.take(i as int) =~= ports@);
    }
    out
}

/// Whether a port is in a list.
pub fn has_port(ports: &[u16], port: u16) -> (r: bool)
    ensures
        r == ports@.contains(port),
{
    let mut i: usize = 0;
    while i < ports.len()
        invariant
            i <= ports@.len(),
            forall|j: int| 0 <= j < i ==> ports@[j] != port,
        decreases ports@.len() - i,
    {
        if ports[i] == port {
            return true;
        }
        i = i + 1;
    }
    false
}

} // verus!
