//! Text helpers shared by the services: the characters of a string,
//! searching for a character, and replacing every occurrence of a pattern.
use vstd::prelude::*;

verus! {

/// The text `t` from index `i` on, with every occurrence of the nonempty
/// pattern `p` replaced by `w`, occurrences taken from the left without overlap.
pub open spec fn replace_from(t: Seq<char>, p: Seq<char>, w: Seq<char>, i: int) -> Seq<char>
    recommends
        0 <= i <= t.len(),
        p.len() > 0,
    decreases t.len() - i,
{
    if p.len() == 0 || i < 0 || i + p.len() > t.len() {
        t.subrange(i, t.len() as int)
    } else if t.subrange(i, i + p.len()) == p {
        w + replace_from(t, p, w, i + p.len())
    } else {
        seq![t[i]] + replace_from(t, p, w, i + 1)
    }
}

/// `t` with every occurrence of the nonempty pattern `p` replaced by `w`,
/// occurrences taken from the left without overlap.
pub open spec fn replace_all(t: Seq<char>, p: Seq<char>, w: Seq<char>) -> Seq<char>
    recommends
        p.len() > 0,
{
    replace_from(t, p, w, 0)
}

/// The characters of a string slice, in order.
pub fn chars_of(s: &str) -> (v: Vec<char>)
    ensures
        v@ == s@,
{
    let mut v: Vec<char> = Vec::new();
    for c in it: s.chars()
        invariant
            v@ == it.seq().take(it.index() as int),
            it.seq() == s@,
    {
        v.push(c);
    }
    v
}


/// Whether the characters of `t` from `i` on begin with `p`.
fn matches_at(t: &Vec<char>, p: &Vec<char>, i: usize) -> (r: bool)
    requires
        i + p@.len() <= t@.len(),
    ensures
        r == (t@.subrange(i as int, i + p@.len()) == p@),
{
    let m = p.len();
    let mut k: usize = 0;
    while k < m
        invariant
            m == p@.len(),
            i + m <= t.len(),
            k <= m,
            forall|q: int| 0 <= q < k ==> t@[i + q] == p@[q],
        decreases m - k,
    {
        if t[i + k] != p[k] {
            assert(t@.subrange(i as int, i + m)[k as int] != p@[k as int]);
            return false;
        }
        k = k + 1;
    }
    assert(t@.subrange(i as int, i + m) =~= p@);
    true
}

/// `text` with every occurrence of the nonempty `pattern` replaced by `with`,
/// occurrences taken from the left without overlap.
pub fn replace_all_exec(text: &String, pattern: &str, with: &str) -> (r: String)
    requires
        pattern@.len() > 0,
    ensures
        r@ == replace_all(text@, pattern@, with@),
{
    let t = chars_of(text.as_str());
    let p = chars_of(pattern);
    let n = t.len();
    let m = p.len();
    let mut out = String::new();
    let mut last: usize = 0;
    let mut i: usize = 0;
    while i < n
        invariant
            n == t@.len(),
            t@ == text@,
            m == p@.len(),
            p@ == pattern@,
            m > 0,
            last <= i <= n,
            replace_all(t@, p@, with@) == out@ + t@.subrange(last as int, i as int)
                + replace_from(t@, p@, with@, i as int),
        decreases n - i,
    {
        if m <= n - i && matches_at(&t, &p, i) {
            let ghost before = out@;
            out.append(text.as_str().substring_char(last, i));
            out.append(with);
            proof {
                assert(replace_from(t@, p@, with@, i as int) == with@ + replace_from(
                    t@,
                    p@,
                    with@,
                    i + m,
                ));
                assert(t@.subrange((i + m) as int, (i + m) as int) =~= Seq::<char>::empty());
                assert(before + t@.subrange(last as int, i as int) + (with@ + replace_from(
                    t@,
                    p@,
                    with@,
                    i + m,
                )) =~= out@ + t@.subrange((i + m) as int, (i + m) as int) + replace_from(
                    t@,
                    p@,
                    with@,
                    i + m,
                ));
            }
            i = i + m;
            last = i;
        } else {
            proof {
                assert(replace_from(t@, p@, with@, i as int) =~= seq![t@[i as int]] + replace_from(
                    t@,
                    p@,
                    with@,
                    i + 1,
                )) by {
                    if i + m > n {
                        assert(replace_from(t@, p@, with@, i + 1) == t@.subrange(
                            i + 1,
                            n as int,
                        ));
                    }
                }
                assert(t@.subrange(last as int, i as int) + seq![t@[i as int]] =~= t@.subrange(
                    last as int,
                    i + 1,
                ));
                assert(out@ + t@.subrange(last as int, i as int) + (seq![t@[i as int]]
                    + replace_from(t@, p@, with@, i + 1)) =~= out@ + t@.subrange(
                    last as int,
                    i + 1,
                ) + replace_from(t@, p@, with@, i + 1));
            }
            i = i + 1;
        }
    }
    out.append(text.as_str().substring_char(last, n));
    proof {
        assert(replace_from(t@, p@, with@, n as int) =~= Seq::<char>::empty());
        assert(out@ =~= replace_all(t@, p@, with@));
    }
    out
}


/// The index of the first `x` in `c` at or after `p`, or `c.len()` if there is none.
pub open spec fn find_char_from(c: Seq<char>, p: int, x: char) -> int
    decreases c.len() - p,
{
    if p < 0 || p >= c.len() {
        c.len() as int
    } else if c[p] == x {
        p
    } else {
        find_char_from(c, p + 1, x)
    }
}

pub proof fn lemma_find_char_from_bounds(c: Seq<char>, p: int, x: char)
    requires
        0 <= p,
    ensures
        p <= c.len() ==> p <= find_char_from(c, p, x) <= c.len(),
        p <= find_char_from(c, p, x) < c.len() ==> c[find_char_from(c, p, x)] == x,
        forall|q: int| p <= q < find_char_from(c, p, x) && q < c.len() ==> c[q] != x,
    decreases c.len() - p,
{
    if p < c.len() && c[p] != x {
        lemma_find_char_from_bounds(c, p + 1, x);
    }
}


/// The index of the first `x` in `chars` at or after `from`, or the length
/// if there is none.
pub fn find_char(chars: &Vec<char>, from: usize, x: char) -> (r: usize)
    requires
        from <= chars@.len(),
    ensures
        r == find_char_from(chars@, from as int, x),
{
    let n = chars.len();
    let mut i = from;
    while i < n
        invariant
            n == chars@.len(),
            from <= i <= n,
            find_char_from(chars@, from as int, x) == find_char_from(chars@, i as int, x),
        decreases n - i,
    {
        if chars[i] == x {
            return i;
        }
        i = i + 1;
    }
    n
}


proof fn lemma_replace_from_shift(pre: Seq<char>, t: Seq<char>, p: Seq<char>, w: Seq<char>, i: int)
    requires
        p.len() > 0,
        0 <= i <= t.len(),
    ensures
        replace_from(pre + t, p, w, pre.len() + i) == replace_from(t, p, w, i),
    decreases t.len() - i,
{
    let u = pre + t;
    let n = pre.len();
    if i + p.len() > t.len() {
        assert(u.subrange(n + i, u.len() as int) =~= t.subrange(i, t.len() as int));
    } else {
        assert(u.subrange(n + i, n + i + p.len()) =~= t.subrange(i, i + p.len()));
        if t.subrange(i, i + p.len()) == p {
            lemma_replace_from_shift(pre, t, p, w, i + p.len());
        } else {
            assert(u[n + i] == t[i]);
            lemma_replace_from_shift(pre, t, p, w, i + 1);
        }
    }
}

/// Replacing works through the whole text: a text that starts with the
/// pattern becomes the replacement followed by the rest with its own
/// occurrences replaced, and a text in which the pattern's first character
/// does not occur is left as it is.
pub proof fn law_replace_all(t: Seq<char>, p: Seq<char>, w: Seq<char>)
    requires
        p.len() > 0,
    ensures
        replace_all(p + t, p, w) == w + replace_all(t, p, w),
        (forall|i: int| 0 <= i < t.len() ==> t[i] != p[0]) ==> replace_all(t, p, w) == t,
{
    let u = p + t;
    assert(u.subrange(0, p.len() as int) =~= p);
    lemma_replace_from_shift(p, t, p, w, 0);
    if forall|i: int| 0 <= i < t.len() ==> t[i] != p[0] {
        lemma_replace_absent(t, p, w, 0);
        assert(t.subrange(0, t.len() as int) =~= t);
    }
}

proof fn lemma_replace_absent(t: Seq<char>, p: Seq<char>, w: Seq<char>, i: int)
    requires
        p.len() > 0,
        0 <= i <= t.len(),
        forall|q: int| 0 <= q < t.len() ==> t[q] != p[0],
    ensures
        replace_from(t, p, w, i) == t.subrange(i, t.len() as int),
    decreases t.len() - i,
{
    if i + p.len() <= t.len() {
        assert(t.subrange(i, i + p.len())[0] != p[0]);
        lemma_replace_absent(t, p, w, i + 1);
        assert(seq![t[i]] + t.subrange(i + 1, t.len() as int) =~= t.subrange(i, t.len() as int));
    }
}

} // verus!
