//! Unix paths as text, read component by component.
use vstd::prelude::*;

use crate::text;

verus! {

/// The view of an optional borrowed text.
pub open spec fn opt_str(o: Option<&str>) -> Option<Seq<char>> {
    match o {
        Some(s) => Some(s@),
        None => None,
    }
}

/// A piece between slashes that names something: not empty, and not `.`.
pub open spec fn is_name(p: Seq<char>) -> bool {
    p.len() > 0 && p != "."@
}

/// What stands before the names of a path: the root of an absolute path, or the
/// leading `.` of a relative one.
pub open spec fn path_head(s: Seq<char>) -> Seq<Seq<char>> {
    if s.len() > 0 && s[0] == '/' {
        seq!["/"@]
    } else if text::pieces(s, '/')[0] == "."@ {
        seq!["."@]
    } else {
        Seq::empty()
    }
}

/// The components of a path. Repeated slashes, a trailing slash and inner `.`
/// pieces do not count.
pub open spec fn components(s: Seq<char>) -> Seq<Seq<char>> {
    path_head(s) + text::pieces(s, '/').filter(|p: Seq<char>| is_name(p))
}

/// The components of a path.
pub fn components_of(s: &str) -> (r: Vec<String>)
    ensures
        text::texts(r@) == components(s@),
{
    let parts = text::split(s, '/');
    let cs = text::chars_of(s);
    let mut out: Vec<String> = Vec::new();
    let ghost ps = text::pieces(s@, '/');
    let ghost names = |p: Seq<char>| is_name(p);
    proof {
        assert(text::texts(parts@)[0] == parts@[0]@);
    }
    if cs.len() > 0 && cs[0] == '/' {
        out.push("/".to_owned());
    } else if text::same(parts[0].as_str(), ".") {
        out.push(".".to_owned());
    }
    let ghost head = path_head(s@);
    let mut i: usize = 0;
    proof {
        reveal(Seq::filter);
        assert(text::texts(out@) =~= head);
        assert(ps.take(0).filter(names) =~= Seq::empty());
        assert(text::texts(out@) =~= head + ps.take(0).filter(names));
    }
    while i < parts.len()
        invariant
            i <= parts@.len(),
            text::texts(parts@) == ps,
            names == (|p: Seq<char>| is_name(p)),
            text::texts(out@) == head + ps.take(i as int).filter(names),
        decreases parts@.len() - i,
    {
        let ghost was = text::texts(out@);
        proof {
            reveal(Seq::filter);
            assert(ps[i as int] == parts@[i as int]@);
            assert(ps.take(i + 1).drop_last() =~= ps.take(i as int));
            assert(ps.take(i + 1).last() == ps[i as int]);
        }
        if !parts[i].as_str().is_empty() && !text::same(parts[i].as_str(), ".") {
            out.push(parts[i].clone());
            proof {
                assert(text::texts(out@) =~= was.push(ps[i as int]));
                assert(text::texts(out@) =~= head + ps.take(i + 1).filter(names));
            }
        }
        i = i + 1;
    }
    proof {
        assert(ps.take(i as int) =~= ps);
    }
    out
}

/// `path` lies at or below `base`, compared by whole components.
pub open spec fn within(path: Seq<char>, base: Seq<char>) -> bool {
    components(base).is_prefix_of(components(path))
}

/// `Path::starts_with`.
pub fn is_within(path: &str, base: &str) -> (r: bool)
    ensures
        r == within(path@, base@),
{
    let p = components_of(path);
    let b = components_of(base);
    let ghost pv = components(path@);
    let ghost bv = components(base@);
    if b.len() > p.len() {
        proof {
            assert(bv.len() == b@.len());
            assert(pv.len() == p@.len());
        }
        return false;
    }
    let mut i: usize = 0;
    while i < b.len()
        invariant
            i <= b@.len() <= p@.len(),
            text::texts(p@) == pv,
            text::texts(b@) == bv,
            pv == components(path@),
            bv == components(base@),
            forall|j: int| 0 <= j < i ==> pv[j] == bv[j],
        decreases b@.len() - i,
    {
        proof {
            assert(pv[i as int] == p@[i as int]@);
            assert(bv[i as int] == b@[i as int]@);
        }
        if !text::same(p[i].as_str(), b[i].as_str()) {
            proof {
                if bv.is_prefix_of(pv) {
                    assert(pv.subrange(0, bv.len() as int)[i as int] == bv[i as int]);
                }
            }
            return false;
        }
        i = i + 1;
    }
    proof {
        assert(bv =~= pv.subrange(0, bv.len() as int));
    }
    true
}

/// The last component of a path, when it names something.
pub open spec fn file_name(s: Seq<char>) -> Option<Seq<char>> {
    let c = components(s);
    if c.len() > 0 && c.last() != "/"@ && c.last() != "."@ && c.last() != ".."@ {
        Some(c.last())
    } else {
        None
    }
}

/// `Path::file_name`.
pub fn file_name_of(s: &str) -> (r: Option<String>)
    ensures
        crate::model::opt_text(r) == file_name(s@),
{
    let mut c = components_of(s);
    let ghost cv = components(s@);
    match c.pop() {
        Some(last) => {
            proof {
                assert(cv.last() == last@);
            }
            if text::same(last.as_str(), "/") || text::same(last.as_str(), ".") || text::same(
                last.as_str(),
                "..",
            ) {
                None
            } else {
                Some(last)
            }
        },
        None => None,
    }
}

/// The path that a list of components spells.
pub open spec fn spelled(c: Seq<Seq<char>>) -> Seq<char> {
    if c.len() > 0 && c[0] == "/"@ {
        "/"@ + text::joined(c.drop_first(), "/"@)
    } else {
        text::joined(c, "/"@)
    }
}

/// The directories from `s` upward: `s` itself first, then each parent, up to the
/// root of an absolute path or the empty path of a relative one.
pub open spec fn upward(s: Seq<char>) -> Seq<Seq<char>> {
    let c = components(s);
    let n = if c.len() > 0 && c[0] == "/"@ {
        c.len()
    } else {
        c.len() + 1
    };
    Seq::new(n, |i: int| spelled(c.take(c.len() - i)))
}

fn spell(c: &Vec<String>, n: usize) -> (r: String)
    requires
        n <= c@.len(),
    ensures
        r@ == spelled(text::texts(c@).take(n as int)),
{
    let ghost cv = text::texts(c@);
    let rooted = n > 0 && text::same(c[0].as_str(), "/");
    let start: usize = if rooted {
        1
    } else {
        0
    };
    let mut part: Vec<String> = Vec::new();
    let mut i: usize = start;
    while i < n
        invariant
            start <= i,
            n <= c@.len(),
            start <= n ==> i <= n,
            text::texts(c@) == cv,
            text::texts(part@) == cv.subrange(start as int, i as int),
        decreases n - i,
    {
        let ghost was = text::texts(part@);
        part.push(c[i].clone());
        proof {
            assert(text::texts(part@) =~= was.push(cv[i as int]));
            assert(text::texts(part@) =~= cv.subrange(start as int, i + 1));
        }
        i = i + 1;
    }
    let tail = text::join(&part, "/");
    proof {
        if n > 0 {
            assert(cv.take(n as int)[0] == c@[0]@);
        }
    }
    if rooted {
        let mut out = "/".to_owned();
        out.append(tail.as_str());
        proof {
            assert(cv.take(n as int).drop_first() =~= cv.subrange(1, n as int));
        }
        out
    } else {
        proof {
            assert(cv.take(n as int) =~= cv.subrange(0, n as int));
        }
        tail
    }
}

/// `Path::ancestors`.
pub fn ancestor_dirs(s: &str) -> (r: Vec<String>)
    ensures
        text::texts(r@) == upward(s@),
{
    let c = components_of(s);
    let ghost cv = components(s@);
    let rooted = c.len() > 0 && text::same(c[0].as_str(), "/");
    proof {
        if cv.len() > 0 {
            assert(cv[0] == c@[0]@);
        }
    }
    let low: usize = if rooted {
        1
    } else {
        0
    };
    let mut out: Vec<String> = Vec::new();
    let mut k: usize = c.len();
    loop
        invariant
            text::texts(c@) == cv,
            cv == components(s@),
            low <= k <= c@.len(),
            low == (if cv.len() > 0 && cv[0] == "/"@ { 1int } else { 0int }),
            text::texts(out@) == upward(s@).take(c@.len() - k),
        decreases k,
    {
        let ghost was = text::texts(out@);
        let ghost i = c@.len() - k;
        out.push(spell(&c, k));
        proof {
            assert(cv.take(cv.len() - i) =~= cv.take(k as int));
            assert(upward(s@)[i] == spelled(cv.take(k as int)));
            assert(text::texts(out@) =~= was.push(upward(s@)[i]));
            assert(text::texts(out@) =~= upward(s@).take(i + 1));
        }
        if k == low {
            proof {
                assert(upward(s@).take(i + 1) =~= upward(s@));
            }
            return out;
        }
        k = k - 1;
    }
}

/// `name` below `dir`: an absolute `name` replaces it.
pub open spec fn below(dir: Seq<char>, name: Seq<char>) -> Seq<char> {
    if name.len() > 0 && name[0] == '/' {
        name
    } else if dir.len() == 0 || dir.last() == '/' {
        dir + name
    } else {
        dir + "/"@ + name
    }
}

/// `Path::join`.
pub fn join(dir: &str, name: &str) -> (r: String)
    ensures
        r@ == below(dir@, name@),
{
    let d = text::chars_of(dir);
    let n = text::chars_of(name);
    if n.len() > 0 && n[0] == '/' {
        return name.to_owned();
    }
    let mut out = dir.to_owned();
    if d.len() > 0 && d[d.len() - 1] != '/' {
        out.append("/");
    }
    out.append(name);
    out
}

} // verus!
