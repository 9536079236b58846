//! Text primitives: what the rest of the library needs to read and build
//! strings, each stated over the sequence of characters of the text.
use vstd::prelude::*;
use vstd::std_specs::iter::IteratorSpec;

verus! {

/// `String::push` appends one character.
pub assume_specification[ String::push ](s: &mut String, c: char)
    ensures
        final(s)@ == old(s)@.push(c),
;

/// `String::pop` takes the last character off, or leaves an empty text alone.
pub assume_specification[ String::pop ](s: &mut String) -> (r: Option<char>)
    ensures
        old(s)@.len() == 0 ==> r is None && final(s)@ == old(s)@,
        old(s)@.len() > 0 ==> r == Some(old(s)@.last()) && final(s)@ == old(s)@.drop_last(),
;

/// `String::clear` leaves the empty text.
pub assume_specification[ String::clear ](s: &mut String)
    ensures
        final(s)@ == Seq::<char>::empty(),
;

/// What `str::to_lowercase` makes of a text: the Unicode lowercase mapping.
pub uninterp spec fn lowercase(s: Seq<char>) -> Seq<char>;

/// `str::to_lowercase`. The mapping follows the Unicode tables and is only named here.
#[verifier::external_body]
pub(crate) fn to_lowercase(s: &str) -> (r: String)
    ensures
        r@ == lowercase(s@),
{
    s.to_lowercase()
}

// ---------------------------------------------------------------- characters

/// The characters of a text.
pub fn chars_of(s: &str) -> (v: Vec<char>)
    ensures
        v@ == s@,
{
    let mut v: Vec<char> = Vec::new();
    for c in it: s.chars()
        invariant
            v@ == it.seq().take(it.index() as int),
            it.seq() == s@,
    {
        v.push(c);
    }
    v
}

/// Whether two texts hold the same characters.
pub fn same(a: &str, b: &str) -> (r: bool)
    ensures
        r == (a@ == b@),
{
    let mut x = a.chars();
    let mut y = b.chars();
    let ghost mut k: int = 0;
    loop
        invariant
            0 <= k <= a@.len(),
            k <= b@.len(),
            x.obeys_prophetic_iter_laws(),
            y.obeys_prophetic_iter_laws(),
            x.remaining() == a@.skip(k),
            y.remaining() == b@.skip(k),
            a@.take(k) == b@.take(k),
        decreases a@.len() - k,
    {
        let p = x.next();
        let q = y.next();
        match (p, q) {
            (None, None) => {
                proof {
                    assert(a@.take(k) =~= a@);
                    assert(b@.take(k) =~= b@);
                }
                return true;
            },
            (Some(c), Some(d)) => {
                proof {
                    assert(a@[k] == a@.skip(k)[0]);
                    assert(b@[k] == b@.skip(k)[0]);
                }
                if c != d {
                    return false;
                }
                proof {
                    assert(a@.skip(k).drop_first() =~= a@.skip(k + 1));
                    assert(b@.skip(k).drop_first() =~= b@.skip(k + 1));
                    assert(a@.take(k + 1) =~= a@.take(k).push(a@[k]));
                    assert(b@.take(k + 1) =~= b@.take(k).push(b@[k]));
                    k = k + 1;
                }
            },
            _ => {
                proof {
                    assert(a@.skip(k).len() == a@.len() - k);
                    assert(b@.skip(k).len() == b@.len() - k);
                }
                return false;
            },
        }
    }
}

/// Code-point order: the first difference decides, and a proper prefix comes first.
pub open spec fn precedes(a: Seq<char>, b: Seq<char>) -> bool
    decreases a.len(),
{
    if b.len() == 0 {
        false
    } else if a.len() == 0 {
        true
    } else if a[0] != b[0] {
        a[0] < b[0]
    } else {
        precedes(a.drop_first(), b.drop_first())
    }
}

/// Whether `a` comes before `b` in code-point order, which is the order of `str`.
pub fn less(a: &str, b: &str) -> (r: bool)
    ensures
        r == precedes(a@, b@),
{
    let x = chars_of(a);
    let y = chars_of(b);
    let mut i: usize = 0;
    proof {
        assert(x@.skip(0) =~= a@);
        assert(y@.skip(0) =~= b@);
    }
    while i < x.len() && i < y.len()
        invariant
            i <= x@.len(),
            i <= y@.len(),
            precedes(a@, b@) == precedes(x@.skip(i as int), y@.skip(i as int)),
        decreases x@.len() - i,
    {
        proof {
            assert(x@.skip(i as int)[0] == x@[i as int]);
            assert(y@.skip(i as int)[0] == y@[i as int]);
            assert(x@.skip(i as int).drop_first() =~= x@.skip(i + 1));
            assert(y@.skip(i as int).drop_first() =~= y@.skip(i + 1));
        }
        if x[i] != y[i] {
            return x[i] < y[i];
        }
        i = i + 1;
    }
    i < y.len()
}

// ------------------------------------------------------------------ searching

/// `p` stands in `s` at position `i`.
pub open spec fn stands_at(s: Seq<char>, p: Seq<char>, i: int) -> bool {
    0 <= i && i + p.len() <= s.len() && s.subrange(i, i + p.len()) == p
}

/// `p` occurs somewhere in `s`.
pub open spec fn occurs(p: Seq<char>, s: Seq<char>) -> bool {
    exists|i: int| #[trigger] stands_at(s, p, i)
}

fn matches_at(s: &Vec<char>, p: &Vec<char>, i: usize) -> (r: bool)
    ensures
        r == stands_at(s@, p@, i as int),
{
    if p.len() > s.len() || i > s.len() - p.len() {
        return false;
    }
    let mut k: usize = 0;
    while k < p.len()
        invariant
            k <= p.len(),
            i + p.len() <= s.len(),
            forall|j: int| 0 <= j < k ==> s@[i + j] == p@[j],
        decreases p@.len() - k,
    {
        if s[i + k] != p[k] {
            proof {
                assert(s@.subrange(i as int, i + p@.len())[k as int] != p@[k as int]);
            }
            return false;
        }
        k = k + 1;
    }
    proof {
        assert(s@.subrange(i as int, i + p@.len()) =~= p@);
    }
    true
}

/// `str::contains` for a text pattern.
pub fn contains(s: &str, p: &str) -> (r: bool)
    ensures
        r == occurs(p@, s@),
{
    find(s, p).is_some()
}

/// The first position at which `p` stands in `s`, in characters.
pub fn find(s: &str, p: &str) -> (r: Option<usize>)
    ensures
        match r {
            Some(i) => stands_at(s@, p@, i as int) && forall|j: int|
                0 <= j < i ==> !#[trigger] stands_at(s@, p@, j),
            None => !occurs(p@, s@),
        },
{
    let x = chars_of(s);
    let y = chars_of(p);
    if y.len() > x.len() {
        return None;
    }
    let last: usize = x.len() - y.len();
    let mut i: usize = 0;
    loop
        invariant
            x@ == s@,
            y@ == p@,
            i <= last,
            last == s@.len() - p@.len(),
            forall|j: int| 0 <= j < i ==> !#[trigger] stands_at(s@, p@, j),
        decreases last - i,
    {
        if matches_at(&x, &y, i) {
            return Some(i);
        }
        if i == last {
            return None;
        }
        i = i + 1;
    }
}

/// `i` is the first position at which `p` stands in `s`.
pub open spec fn first_at(s: Seq<char>, p: Seq<char>, i: int) -> bool {
    stands_at(s, p, i) && forall|j: int| 0 <= j < i ==> !#[trigger] stands_at(s, p, j)
}

/// What stands in `s` before the first occurrence of `p`.
pub open spec fn head_before(s: Seq<char>, p: Seq<char>) -> Option<Seq<char>> {
    if occurs(p, s) {
        Some(s.take(choose|i: int| #[trigger] first_at(s, p, i)))
    } else {
        None
    }
}

/// What stands in `s` behind the first occurrence of `p`.
pub open spec fn tail_after(s: Seq<char>, p: Seq<char>) -> Option<Seq<char>> {
    if occurs(p, s) {
        Some(s.skip((choose|i: int| #[trigger] first_at(s, p, i)) + p.len()))
    } else {
        None
    }
}

/// The text behind the first occurrence of `p`, if there is one.
pub fn after(s: &str, p: &str) -> (r: Option<String>)
    ensures
        match r {
            Some(t) => tail_after(s@, p@) == Some(t@),
            None => tail_after(s@, p@) is None,
        },
{
    match find(s, p) {
        Some(i) => {
            let k = p.unicode_len();
            let n = s.unicode_len();
            proof {
                assert(first_at(s@, p@, i as int));
                let j = choose|j: int| #[trigger] first_at(s@, p@, j);
                assert(j == i) by {
                    if j < i {
                        assert(!stands_at(s@, p@, j));
                    }
                    if i < j {
                        assert(!stands_at(s@, p@, i as int));
                    }
                }
                assert(s@.subrange(i + k, n as int) =~= s@.skip(i + k));
            }
            Some(s.substring_char(i + k, n).to_owned())
        },
        None => None,
    }
}

/// The text before the first occurrence of `p`, if there is one.
pub fn before(s: &str, p: &str) -> (r: Option<String>)
    ensures
        match r {
            Some(t) => head_before(s@, p@) == Some(t@),
            None => head_before(s@, p@) is None,
        },
{
    match find(s, p) {
        Some(i) => {
            proof {
                assert(first_at(s@, p@, i as int));
                let k = choose|k: int| #[trigger] first_at(s@, p@, k);
                assert(k == i) by {
                    if k < i {
                        assert(!stands_at(s@, p@, k));
                    }
                    if i < k {
                        assert(!stands_at(s@, p@, i as int));
                    }
                }
                assert(s@.subrange(0, i as int) =~= s@.take(i as int));
            }
            Some(s.substring_char(0, i).to_owned())
        },
        None => None,
    }
}

/// `str::starts_with` for a text pattern.
pub fn starts_with(s: &str, p: &str) -> (r: bool)
    ensures
        r == p@.is_prefix_of(s@),
{
    let x = chars_of(s);
    let y = chars_of(p);
    let r = matches_at(&x, &y, 0);
    r
}

/// `str::ends_with` for a text pattern.
pub fn ends_with(s: &str, p: &str) -> (r: bool)
    ensures
        r == p@.is_suffix_of(s@),
{
    let x = chars_of(s);
    let y = chars_of(p);
    if y.len() > x.len() {
        return false;
    }
    let r = matches_at(&x, &y, x.len() - y.len());
    proof {
        assert(s@.subrange(s@.len() - p@.len(), s@.len() - p@.len() + p@.len()) =~= s@.subrange(
            s@.len() - p@.len(),
            s@.len() as int,
        ));
    }
    r
}

/// What is left of `s` behind the prefix `p`.
pub fn strip_prefix(s: &str, p: &str) -> (r: Option<String>)
    ensures
        match r {
            Some(t) => p@.is_prefix_of(s@) && t@ == s@.skip(p@.len() as int),
            None => !p@.is_prefix_of(s@),
        },
{
    if starts_with(s, p) {
        let n = s.unicode_len();
        let k = p.unicode_len();
        let t = s.substring_char(k, n).to_owned();
        proof {
            assert(s@.subrange(p@.len() as int, s@.len() as int) =~= s@.skip(p@.len() as int));
        }
        Some(t)
    } else {
        None
    }
}

/// What is left of `s` before the suffix `p`.
pub fn strip_suffix(s: &str, p: &str) -> (r: Option<String>)
    ensures
        match r {
            Some(t) => p@.is_suffix_of(s@) && t@ == s@.take(s@.len() - p@.len()),
            None => !p@.is_suffix_of(s@),
        },
{
    if ends_with(s, p) {
        let n = s.unicode_len();
        let k = p.unicode_len();
        let t = s.substring_char(0, n - k).to_owned();
        proof {
            assert(s@.subrange(0, s@.len() - p@.len()) =~= s@.take(s@.len() - p@.len()));
        }
        Some(t)
    } else {
        None
    }
}

// ------------------------------------------------------------------- trimming

/// The characters with the Unicode White_Space property, as `char::is_whitespace` has them.
pub open spec fn is_white(c: char) -> bool {
    ||| '\u{9}' <= c <= '\u{d}'
    ||| c == ' '
    ||| c == '\u{85}'
    ||| c == '\u{a0}'
    ||| c == '\u{1680}'
    ||| '\u{2000}' <= c <= '\u{200a}'
    ||| c == '\u{2028}'
    ||| c == '\u{2029}'
    ||| c == '\u{202f}'
    ||| c == '\u{205f}'
    ||| c == '\u{3000}'
}

fn white(c: char) -> (r: bool)
    ensures
        r == is_white(c),
{
    ('\u{9}' <= c && c <= '\u{d}') || c == ' ' || c == '\u{85}' || c == '\u{a0}' || c == '\u{1680}'
        || ('\u{2000}' <= c && c <= '\u{200a}') || c == '\u{2028}' || c == '\u{2029}' || c
        == '\u{202f}' || c == '\u{205f}' || c == '\u{3000}'
}

/// `s` without its leading white space.
pub open spec fn trimmed_start(s: Seq<char>) -> Seq<char>
    decreases s.len(),
{
    if s.len() > 0 && is_white(s[0]) {
        trimmed_start(s.drop_first())
    } else {
        s
    }
}

/// `s` without its trailing white space.
pub open spec fn trimmed_end(s: Seq<char>) -> Seq<char>
    decreases s.len(),
{
    if s.len() > 0 && is_white(s.last()) {
        trimmed_end(s.drop_last())
    } else {
        s
    }
}

/// `s` without white space at either end.
pub open spec fn trimmed(s: Seq<char>) -> Seq<char> {
    trimmed_end(trimmed_start(s))
}

/// `str::trim_end`.
pub fn trim_end(s: &str) -> (r: &str)
    ensures
        r@ == trimmed_end(s@),
{
    let x = chars_of(s);
    let mut n: usize = x.len();
    proof {
        assert(s@.take(n as int) =~= s@);
    }
    while n > 0 && white(x[n - 1])
        invariant
            x@ == s@,
            n <= x@.len(),
            trimmed_end(s@) == trimmed_end(s@.take(n as int)),
        decreases n,
    {
        proof {
            assert(s@.take(n as int).drop_last() =~= s@.take(n - 1));
            assert(s@.take(n as int).last() == x@[n - 1]);
        }
        n = n - 1;
    }
    proof {
        if n > 0 {
            assert(s@.take(n as int).last() == x@[n - 1]);
        }
        assert(s@.subrange(0, n as int) =~= s@.take(n as int));
    }
    s.substring_char(0, n)
}

fn trim_start(s: &str) -> (r: &str)
    ensures
        r@ == trimmed_start(s@),
{
    let x = chars_of(s);
    let mut n: usize = 0;
    proof {
        assert(s@.skip(0) =~= s@);
    }
    while n < x.len() && white(x[n])
        invariant
            x@ == s@,
            n <= x@.len(),
            trimmed_start(s@) == trimmed_start(s@.skip(n as int)),
        decreases x@.len() - n,
    {
        proof {
            assert(s@.skip(n as int).drop_first() =~= s@.skip(n + 1));
            assert(s@.skip(n as int)[0] == x@[n as int]);
        }
        n = n + 1;
    }
    proof {
        if n < x@.len() {
            assert(s@.skip(n as int)[0] == x@[n as int]);
        }
        assert(s@.subrange(n as int, s@.len() as int) =~= s@.skip(n as int));
    }
    s.substring_char(n, x.len())
}

/// `str::trim`.
pub fn trim(s: &str) -> (r: &str)
    ensures
        r@ == trimmed(s@),
{
    trim_end(trim_start(s))
}

/// `s` behind its leading run of `c`.
pub open spec fn without_leading(s: Seq<char>, c: char) -> Seq<char>
    decreases s.len(),
{
    if s.len() > 0 && s[0] == c {
        without_leading(s.drop_first(), c)
    } else {
        s
    }
}

/// `str::trim_start_matches` for one character.
pub fn trim_start_matches(s: &str, c: char) -> (r: &str)
    ensures
        r@ == without_leading(s@, c),
{
    let x = chars_of(s);
    let mut n: usize = 0;
    proof {
        assert(s@.skip(0) =~= s@);
    }
    while n < x.len() && x[n] == c
        invariant
            x@ == s@,
            n <= x@.len(),
            without_leading(s@, c) == without_leading(s@.skip(n as int), c),
        decreases x@.len() - n,
    {
        proof {
            assert(s@.skip(n as int).drop_first() =~= s@.skip(n + 1));
            assert(s@.skip(n as int)[0] == x@[n as int]);
        }
        n = n + 1;
    }
    proof {
        if n < x@.len() {
            assert(s@.skip(n as int)[0] == x@[n as int]);
        }
        assert(s@.subrange(n as int, s@.len() as int) =~= s@.skip(n as int));
    }
    s.substring_char(n, x.len())
}

// -------------------------------------------------------- splitting and joining

/// The texts of a sequence of strings.
pub open spec fn texts(v: Seq<String>) -> Seq<Seq<char>> {
    Seq::new(v.len(), |i: int| v[i]@)
}

/// The pieces of `s` between the occurrences of `c`: always at least one.
pub open spec fn pieces(s: Seq<char>, c: char) -> Seq<Seq<char>>
    decreases s.len(),
{
    if s.len() == 0 {
        seq![Seq::empty()]
    } else {
        let p = pieces(s.drop_last(), c);
        if s.last() == c {
            p.push(Seq::empty())
        } else {
            p.drop_last().push(p.last().push(s.last()))
        }
    }
}

pub proof fn lemma_pieces_nonempty(s: Seq<char>, c: char)
    ensures
        pieces(s, c).len() > 0,
    decreases s.len(),
{
    if s.len() > 0 {
        lemma_pieces_nonempty(s.drop_last(), c);
    }
}

/// `str::split` for one character.
pub fn split(s: &str, c: char) -> (r: Vec<String>)
    ensures
        texts(r@) == pieces(s@, c),
        r@.len() > 0,
{
    let x = chars_of(s);
    let mut out: Vec<String> = Vec::new();
    let mut cur = String::new();
    let mut i: usize = 0;
    proof {
        assert(s@.take(0) =~= Seq::empty());
        assert(texts(out@).push(cur@) =~= pieces(s@.take(0), c));
    }
    while i < x.len()
        invariant
            x@ == s@,
            i <= x@.len(),
            texts(out@).push(cur@) == pieces(s@.take(i as int), c),
        decreases x@.len() - i,
    {
        let ghost before = texts(out@).push(cur@);
        proof {
            assert(s@.take(i + 1).drop_last() =~= s@.take(i as int));
            assert(s@.take(i + 1).last() == x@[i as int]);
            assert(before.drop_last() =~= texts(out@));
        }
        if x[i] == c {
            let mut full = String::new();
            full.append(cur.as_str());
            out.push(full);
            cur = String::new();
            proof {
                assert(texts(out@) =~= before);
            }
        } else {
            cur.push(x[i]);
        }
        i = i + 1;
    }
    let ghost inner = texts(out@).push(cur@);
    out.push(cur);
    proof {
        assert(s@.take(i as int) =~= s@);
        assert(texts(out@) =~= inner);
    }
    out
}

/// A line without the carriage return in front of its line feed.
pub open spec fn without_cr(s: Seq<char>) -> Seq<char> {
    if s.len() > 0 && s.last() == '\r' {
        s.drop_last()
    } else {
        s
    }
}

/// The lines of `s`: the pieces between line feeds, each terminated one without
/// its carriage return, and nothing for an empty piece at the end.
pub open spec fn lines_of(s: Seq<char>) -> Seq<Seq<char>> {
    let p = pieces(s, '\n');
    let full = Seq::new((p.len() - 1) as nat, |i: int| without_cr(p[i]));
    if p.last().len() == 0 {
        full
    } else {
        full.push(p.last())
    }
}

/// `str::lines`.
pub fn lines(s: &str) -> (r: Vec<String>)
    ensures
        texts(r@) == lines_of(s@),
{
    let p = split(s, '\n');
    let n = p.len() - 1;
    let mut out: Vec<String> = Vec::new();
    let mut i: usize = 0;
    while i < n
        invariant
            n + 1 == p@.len(),
            i <= n,
            texts(p@) == pieces(s@, '\n'),
            texts(out@) == Seq::new(i as nat, |j: int| without_cr(pieces(s@, '\n')[j])),
        decreases n - i,
    {
        proof {
            assert(texts(p@)[i as int] == p@[i as int]@);
        }
        let ghost before = texts(out@);
        let cr = "\r";
        proof {
            reveal_strlit("\r");
        }
        let line = match strip_suffix(p[i].as_str(), cr) {
            Some(t) => t,
            None => p[i].as_str().to_owned(),
        };
        proof {
            let q = p@[i as int]@;
            if q.len() > 0 {
                assert(q.subrange(q.len() - 1, q.len() as int) =~= seq![q.last()]);
                assert(cr@ =~= seq!['\r']);
                assert(q.take(q.len() - 1) =~= q.drop_last());
                if q.last() != '\r' {
                    assert(seq![q.last()][0] != cr@[0]);
                }
            }
            assert(line@ == without_cr(q));
        }
        out.push(line);
        proof {
            assert(texts(out@) =~= before.push(without_cr(pieces(s@, '\n')[i as int])));
            assert(texts(out@) =~= Seq::new(
                (i + 1) as nat,
                |j: int| without_cr(pieces(s@, '\n')[j]),
            ));
        }
        i = i + 1;
    }
    proof {
        assert(texts(p@)[n as int] == p@[n as int]@);
    }
    if !p[n].as_str().is_empty() {
        let ghost before = texts(out@);
        out.push(p[n].as_str().to_owned());
        proof {
            assert(texts(out@) =~= before.push(p@[n as int]@));
        }
    }
    out
}

/// The texts in order with `sep` between neighbours.
pub open spec fn joined(v: Seq<Seq<char>>, sep: Seq<char>) -> Seq<char>
    decreases v.len(),
{
    if v.len() == 0 {
        Seq::empty()
    } else if v.len() == 1 {
        v[0]
    } else {
        joined(v.drop_last(), sep) + sep + v.last()
    }
}

/// `[String]::join`.
pub fn join(v: &[String], sep: &str) -> (r: String)
    ensures
        r@ == joined(texts(v@), sep@),
{
    let mut out = String::new();
    let mut i: usize = 0;
    proof {
        assert(texts(v@).take(0) =~= Seq::empty());
    }
    while i < v.len()
        invariant
            i <= v@.len(),
            out@ == joined(texts(v@).take(i as int), sep@),
        decreases v@.len() - i,
    {
        proof {
            let t = texts(v@);
            assert(t.take(i + 1).drop_last() =~= t.take(i as int));
            assert(t.take(i + 1).last() == v@[i as int]@);
        }
        if i > 0 {
            out.append(sep);
        }
        out.append(v[i].as_str());
        proof {
            if i == 0 {
                assert(out@ =~= v@[0]@);
                assert(texts(v@).take(1)[0] == v@[0]@);
            }
        }
        i = i + 1;
    }
    proof {
        assert(texts(v@).take(i as int) =~= texts(v@));
    }
    out
}

// -------------------------------------------------------------------- numbers

/// The character of one decimal digit.
pub open spec fn digit(d: nat) -> char {
    (48 + d) as char
}

/// `n` in decimal, without leading zeros.
pub open spec fn decimal(n: nat) -> Seq<char>
    decreases n,
{
    if n < 10 {
        seq![digit(n)]
    } else {
        decimal(n / 10).push(digit(n % 10))
    }
}

/// The decimal text of `n`.
pub fn to_decimal(n: u64) -> (r: String)
    ensures
        r@ == decimal(n as nat),
    decreases n,
{
    let mut out = if n < 10 {
        String::new()
    } else {
        to_decimal(n / 10)
    };
    let d = (n % 10) as u8;
    out.push((48u8 + d) as char);
    proof {
        if n < 10 {
            assert(out@ =~= seq![digit(n as nat)]);
        }
    }
    out
}

/// An ASCII decimal digit.
pub open spec fn is_digit(c: char) -> bool {
    '0' <= c <= '9'
}

/// The number that a run of decimal digits denotes.
pub open spec fn number(s: Seq<char>) -> nat
    decreases s.len(),
{
    if s.len() == 0 {
        0
    } else {
        number(s.drop_last()) * 10 + (s.last() as nat - 48) as nat
    }
}

/// The digits behind the one optional plus sign.
pub open spec fn unsigned(s: Seq<char>) -> Seq<char> {
    if s.len() > 0 && s[0] == '+' {
        s.drop_first()
    } else {
        s
    }
}

/// What `str::parse::<u16>` reads: an optional `+`, then one or more decimal
/// digits, denoting at most 65535.
pub open spec fn port_number(s: Seq<char>) -> Option<u16> {
    let d = unsigned(s);
    if d.len() > 0 && (forall|i: int| 0 <= i < d.len() ==> is_digit(#[trigger] d[i])) && number(d)
        <= 65535 {
        Some(number(d) as u16)
    } else {
        None
    }
}

proof fn lemma_number_grows(s: Seq<char>, k: int)
    requires
        0 <= k <= s.len(),
    ensures
        number(s.take(k)) <= number(s),
    decreases s.len(),
{
    if k < s.len() {
        lemma_number_grows(s.drop_last(), k);
        assert(s.drop_last().take(k) =~= s.take(k));
    } else {
        assert(s.take(k) =~= s);
    }
}

/// `str::parse::<u16>`.
pub fn parse_u16(s: &str) -> (r: Option<u16>)
    ensures
        r == port_number(s@),
{
    let x = chars_of(s);
    let start: usize = if x.len() > 0 && x[0] == '+' {
        1
    } else {
        0
    };
    let ghost d = unsigned(s@);
    proof {
        assert(d =~= s@.skip(start as int));
    }
    if start == x.len() {
        return None;
    }
    let mut i: usize = start;
    let mut n: u32 = 0;
    proof {
        assert(d.take(0) =~= Seq::empty());
    }
    while i < x.len()
        invariant
            x@ == s@,
            start <= i <= x@.len(),
            start <= 1,
            d == unsigned(s@),
            d == s@.skip(start as int),
            n <= 65535,
            n == number(d.take(i - start)),
            forall|j: int| 0 <= j < i - start ==> is_digit(#[trigger] d[j]),
        decreases x@.len() - i,
    {
        let c = x[i];
        proof {
            assert(d[i - start] == c);
            assert(d.take(i - start + 1).drop_last() =~= d.take(i - start));
            assert(d.take(i - start + 1).last() == c);
        }
        if c < '0' || c > '9' {
            return None;
        }
        n = n * 10 + (c as u32 - 48);
        if n > 65535 {
            proof {
                lemma_number_grows(d, i - start + 1);
            }
            return None;
        }
        i = i + 1;
    }
    proof {
        assert(d.take(i - start) =~= d);
    }
    Some(n as u16)
}

// ------------------------------------------------------- replacing and padding

/// `s` with every occurrence of `pat`, taken from the left without overlap,
/// replaced by `with`.
pub open spec fn replaced(s: Seq<char>, pat: Seq<char>, with: Seq<char>) -> Seq<char>
    decreases s.len(),
{
    if pat.len() == 0 || s.len() < pat.len() {
        s
    } else if stands_at(s, pat, 0) {
        with + replaced(s.skip(pat.len() as int), pat, with)
    } else {
        seq![s[0]] + replaced(s.drop_first(), pat, with)
    }
}

/// `str::replace` for a pattern of at least one character.
pub fn replace(s: &str, pat: &str, with: &str) -> (r: String)
    requires
        pat@.len() > 0,
    ensures
        r@ == replaced(s@, pat@, with@),
{
    let x = chars_of(s);
    let y = chars_of(pat);
    let mut out = String::new();
    let mut i: usize = 0;
    proof {
        assert(s@.skip(0) =~= s@);
        assert(out@ + replaced(s@, pat@, with@) =~= replaced(s@, pat@, with@));
    }
    while i < x.len()
        invariant
            x@ == s@,
            y@ == pat@,
            pat@.len() > 0,
            i <= x@.len(),
            out@ + replaced(s@.skip(i as int), pat@, with@) == replaced(s@, pat@, with@),
        decreases x@.len() - i,
    {
        let ghost rest = s@.skip(i as int);
        let ghost was = out@;
        if matches_at(&x, &y, i) {
            out.append(with);
            proof {
                assert(rest.subrange(0, pat@.len() as int) =~= s@.subrange(
                    i as int,
                    i + pat@.len(),
                ));
                assert(stands_at(rest, pat@, 0));
                assert(rest.skip(pat@.len() as int) =~= s@.skip(i + pat@.len()));
                assert(out@ + replaced(s@.skip(i + pat@.len()), pat@, with@) =~= was + (with@
                    + replaced(s@.skip(i + pat@.len()), pat@, with@)));
            }
            i = i + y.len();
        } else {
            out.push(x[i]);
            proof {
                if rest.len() >= pat@.len() {
                    assert(rest.subrange(0, pat@.len() as int) =~= s@.subrange(
                        i as int,
                        i + pat@.len(),
                    ));
                    assert(!stands_at(rest, pat@, 0));
                    assert(rest.drop_first() =~= s@.skip(i + 1));
                    assert(out@ + replaced(s@.skip(i + 1), pat@, with@) =~= was + (seq![rest[0]]
                        + replaced(s@.skip(i + 1), pat@, with@)));
                } else {
                    assert(s@.skip(i + 1).len() < pat@.len());
                    assert(out@ + s@.skip(i + 1) =~= was + rest);
                }
            }
            i = i + 1;
        }
    }
    proof {
        assert(s@.skip(i as int) =~= Seq::empty());
        assert(out@ + Seq::<char>::empty() =~= out@);
    }
    out
}

/// `n` spaces.
pub open spec fn spaces(n: nat) -> Seq<char> {
    Seq::new(n, |i: int| ' ')
}

/// `s` filled up with spaces behind it to `w` characters.
pub open spec fn padded_right(s: Seq<char>, w: nat) -> Seq<char> {
    s + spaces((if s.len() < w { w - s.len() } else { 0 }) as nat)
}

/// `s` filled up with spaces before it to `w` characters.
pub open spec fn padded_left(s: Seq<char>, w: nat) -> Seq<char> {
    spaces((if s.len() < w { w - s.len() } else { 0 }) as nat) + s
}

fn space(n: usize) -> (r: String)
    ensures
        r@ == spaces(n as nat),
{
    let mut out = String::new();
    let mut i: usize = 0;
    while i < n
        invariant
            i <= n,
            out@ == spaces(i as nat),
        decreases n - i,
    {
        out.push(' ');
        proof {
            assert(out@ =~= spaces((i + 1) as nat));
        }
        i = i + 1;
    }
    out
}

/// The `{:<w}` format of a text.
pub fn pad_right(s: &str, w: usize) -> (r: String)
    ensures
        r@ == padded_right(s@, w as nat),
{
    let n = s.unicode_len();
    let fill = space(if n < w { w - n } else { 0 });
    let mut out = String::new();
    out.append(s);
    out.append(fill.as_str());
    proof {
        assert(out@ =~= padded_right(s@, w as nat));
    }
    out
}

/// The `{:>w}` format of a text.
pub fn pad_left(s: &str, w: usize) -> (r: String)
    ensures
        r@ == padded_left(s@, w as nat),
{
    let n = s.unicode_len();
    let mut out = space(if n < w { w - n } else { 0 });
    out.append(s);
    out
}

/// What stands between two texts stands in their whole.
pub proof fn lemma_stands_between(a: Seq<char>, p: Seq<char>, b: Seq<char>)
    ensures
        occurs(p, a + p + b),
{
    assert((a + p + b).subrange(a.len() as int, (a.len() + p.len()) as int) =~= p);
    assert(stands_at(a + p + b, p, a.len() as int));
}

/// A number spelled out is made of digits and has the number as its value.
pub proof fn lemma_decimal(n: nat)
    ensures
        decimal(n).len() > 0,
        forall|i: int| 0 <= i < decimal(n).len() ==> is_digit(#[trigger] decimal(n)[i]),
        number(decimal(n)) == n,
    decreases n,
{
    if n < 10 {
        assert(decimal(n).drop_last() =~= Seq::<char>::empty());
        assert(number(Seq::<char>::empty()) == 0);
        assert(decimal(n).last() as nat == 48 + n);
    } else {
        lemma_decimal(n / 10);
        assert(decimal(n).drop_last() =~= decimal(n / 10));
        assert(decimal(n).last() as nat == 48 + n % 10);
    }
}

} // verus!
