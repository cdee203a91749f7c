//! Glob patterns over lock keys.

use crate::text::chars_of;
use vstd::prelude::*;

verus! {

/// Whether the pattern `p` matches all of `t`: `*` stands for any run of
/// characters, `/` included, `?` for exactly one, any other character for
/// itself.
pub open spec fn glob(p: Seq<char>, t: Seq<char>) -> bool
    decreases p.len() + t.len(),
{
    if p.len() == 0 {
        t.len() == 0
    } else if p[0] == '*' {
        glob(p.skip(1), t) || (t.len() > 0 && glob(p, t.skip(1)))
    } else {
        t.len() > 0 && (p[0] == '?' || p[0] == t[0]) && glob(p.skip(1), t.skip(1))
    }
}

/// Whether `q` matches what is left of `t` from some position at or after `k`.
spec fn glob_after(q: Seq<char>, t: Seq<char>, k: int) -> bool {
    exists|j: int| k <= j <= t.len() && #[trigger] glob(q, t.skip(j))
}

/// A star matches from where it stands exactly where the rest of the pattern
/// matches from some later position.
proof fn lemma_star(p: Seq<char>, pi: int, t: Seq<char>, ti: int)
    requires
        0 <= pi < p.len(),
        p[pi] == '*',
        0 <= ti <= t.len(),
    ensures
        glob(p.skip(pi), t.skip(ti)) == glob_after(p.skip(pi + 1), t, ti),
    decreases t.len() - ti,
{
    let q = p.skip(pi + 1);
    let here = p.skip(pi);
    assert(here[0] == '*');
    assert(here.skip(1) =~= q);
    if glob(q, t.skip(ti)) {
        assert(glob_after(q, t, ti));
    }
    if ti < t.len() {
        assert(t.skip(ti).skip(1) =~= t.skip(ti + 1));
        lemma_star(p, pi, t, ti + 1);
        if glob(here, t.skip(ti)) && !glob(q, t.skip(ti)) {
            let j = choose|j: int| ti + 1 <= j <= t.len() && #[trigger] glob(q, t.skip(j));
            assert(ti <= j <= t.len() && glob(q, t.skip(j)));
        }
        if glob_after(q, t, ti) {
            let j = choose|j: int| ti <= j <= t.len() && #[trigger] glob(q, t.skip(j));
            if j > ti {
                assert(glob_after(q, t, ti + 1));
            }
        }
    } else {
        assert(t.skip(ti).len() == 0);
        if glob_after(q, t, ti) {
            let j = choose|j: int| ti <= j <= t.len() && #[trigger] glob(q, t.skip(j));
            assert(j == ti);
        }
    }
}

/// A stretch of the pattern without stars takes as many characters as it has.
proof fn lemma_stretch(p: Seq<char>, a: int, b: int, t: Seq<char>, k: int)
    requires
        0 <= a <= b <= p.len(),
        forall|i: int| a <= i < b ==> p[i] != '*',
        0 <= k <= t.len(),
        glob(p.skip(a), t.skip(k)),
    ensures
        k + (b - a) <= t.len(),
        glob(p.skip(b), t.skip(k + (b - a))),
    decreases b - a,
{
    if a < b {
        assert(p.skip(a)[0] == p[a]);
        assert(p.skip(a).skip(1) =~= p.skip(a + 1));
        assert(t.skip(k).len() > 0);
        assert(t.skip(k).skip(1) =~= t.skip(k + 1));
        lemma_stretch(p, a + 1, b, t, k + 1);
    }
}

/// Only stars match nothing.
proof fn lemma_rest(p: Seq<char>, i: int, t: Seq<char>)
    requires
        0 <= i <= p.len(),
        t.len() == 0,
    ensures
        glob(p.skip(i), t) == forall|k: int| i <= k < p.len() ==> p[k] == '*',
    decreases p.len() - i,
{
    if i < p.len() {
        lemma_rest(p, i + 1, t);
        assert(p.skip(i)[0] == p[i]);
        assert(p.skip(i).skip(1) =~= p.skip(i + 1));
    }
}

/// Whether the pattern matches the whole text. Two positions move through
/// pattern and text; after a mismatch the last star takes one character more.
pub fn glob_match(pattern: &str, text: &str) -> (r: bool)
    ensures
        r == glob(pattern@, text@),
{
    let p = chars_of(pattern);
    let t = chars_of(text);
    let mut pi: usize = 0;
    let mut ti: usize = 0;
    let mut star: Option<usize> = None;
    let mut mark: usize = 0;
    assert(p@.skip(0) =~= p@);
    assert(t@.skip(0) =~= t@);
    while ti < t.len()
        invariant
            p@ == pattern@,
            t@ == text@,
            pi <= p.len(),
            ti <= t.len(),
            mark <= ti,
            match star {
                Some(s) => s < pi && mark <= ti && ti - mark == pi - (s + 1) && (forall|i: int|
                    s < i < pi ==> p@[i] != '*') && glob(p@, t@) == (glob(
                    p@.skip(pi as int),
                    t@.skip(ti as int),
                ) || glob_after(p@.skip(s + 1), t@, mark + 1)),
                None => glob(p@, t@) == glob(p@.skip(pi as int), t@.skip(ti as int)),
            },
        decreases t.len() - mark, t.len() - ti, p.len() - pi,
    {
        let ghost here = p@.skip(pi as int);
        let ghost rest = t@.skip(ti as int);
        assert(rest[0] == t@[ti as int]);
        if pi < p.len() && p[pi] == '*' {
            proof {
                let q = p@.skip(pi + 1);
                lemma_star(p@, pi as int, t@, ti as int);
                match star {
                    Some(s) => {
                        if glob_after(p@.skip(s + 1), t@, mark + 1) {
                            let k = choose|k: int|
                                mark + 1 <= k <= t@.len() && #[trigger] glob(
                                    p@.skip(s + 1),
                                    t@.skip(k),
                                );
                            lemma_stretch(p@, s + 1, pi as int, t@, k);
                            let m = k + (pi - (s + 1));
                            lemma_star(p@, pi as int, t@, m);
                            let j = choose|j: int|
                                m <= j <= t@.len() && #[trigger] glob(q, t@.skip(j));
                            assert(ti <= j <= t@.len() && glob(q, t@.skip(j)));
                        }
                    },
                    None => {},
                }
                assert(glob(p@, t@) == glob_after(q, t@, ti as int));
                if glob_after(q, t@, ti as int) {
                    let j = choose|j: int| ti <= j <= t@.len() && #[trigger] glob(q, t@.skip(j));
                    if j > ti {
                        assert(ti + 1 <= j <= t@.len() && glob(q, t@.skip(j)));
                    }
                }
                if glob(q, t@.skip(ti as int)) {
                    assert(glob_after(q, t@, ti as int));
                }
                if glob_after(q, t@, ti + 1) {
                    let j = choose|j: int|
                        ti + 1 <= j <= t@.len() && #[trigger] glob(q, t@.skip(j));
                    assert(ti <= j <= t@.len() && glob(q, t@.skip(j)));
                }
            }
            star = Some(pi);
            mark = ti;
            pi += 1;
        } else if pi < p.len() && (p[pi] == '?' || p[pi] == t[ti]) {
            assert(here[0] == p@[pi as int]);
            assert(here.skip(1) =~= p@.skip(pi + 1));
            assert(rest.skip(1) =~= t@.skip(ti + 1));
            pi += 1;
            ti += 1;
        } else {
            assert(!glob(here, rest)) by {
                if pi < p.len() {
                    assert(here[0] == p@[pi as int]);
                }
            }
            match star {
                Some(s) => {
                    proof {
                        let q = p@.skip(s + 1);
                        if glob_after(q, t@, mark + 1) {
                            let j = choose|j: int|
                                mark + 1 <= j <= t@.len() && #[trigger] glob(q, t@.skip(j));
                            if j > mark + 1 {
                                assert(mark + 2 <= j <= t@.len() && glob(q, t@.skip(j)));
                            }
                        }
                        if glob(q, t@.skip(mark + 1)) {
                            assert(mark + 1 <= mark + 1 <= t@.len());
                        }
                        if glob_after(q, t@, mark + 2) {
                            let j = choose|j: int|
                                mark + 2 <= j <= t@.len() && #[trigger] glob(q, t@.skip(j));
                            assert(mark + 1 <= j <= t@.len() && glob(q, t@.skip(j)));
                        }
                    }
                    pi = s + 1;
                    mark = mark + 1;
                    ti = mark;
                },
                None => {
                    return false;
                },
            }
        }
    }
    proof {
        match star {
            Some(s) => {
                if glob_after(p@.skip(s + 1), t@, mark + 1) {
                    let k = choose|k: int|
                        mark + 1 <= k <= t@.len() && #[trigger] glob(p@.skip(s + 1), t@.skip(k));
                    lemma_stretch(p@, s + 1, pi as int, t@, k);
                }
            },
            None => {},
        }
        lemma_rest(p@, pi as int, t@.skip(ti as int));
    }
    while pi < p.len()
        invariant
            pi <= p.len(),
            p@ == pattern@,
            glob(pattern@, text@) == forall|k: int| pi <= k < p@.len() ==> p@[k] == '*',
        decreases p.len() - pi,
    {
        if p[pi] != '*' {
            return false;
        }
        pi += 1;
    }
    true
}

/// A pattern without wildcards matches itself alone.
pub proof fn law_plain_patterns_match_themselves(p: Seq<char>, t: Seq<char>)
    requires
        forall|i: int| 0 <= i < p.len() ==> p[i] != '*' && p[i] != '?',
    ensures
        glob(p, t) == (p == t),
    decreases p.len(),
{
    if p.len() == 0 {
        assert(t.len() == 0 ==> p =~= t);
    } else if t.len() > 0 {
        law_plain_patterns_match_themselves(p.skip(1), t.skip(1));
        if p[0] == t[0] && p.skip(1) == t.skip(1) {
            assert(p =~= seq![p[0]] + p.skip(1));
            assert(t =~= seq![t[0]] + t.skip(1));
        }
    }
}

/// A star stands for any run of characters, a question mark for exactly one,
/// and any other character for itself.
pub proof fn law_wildcards_stand_for_characters(q: Seq<char>, t: Seq<char>, c: char)
    ensures
        glob(seq!['*'] + q, t) <==> exists|k: int| 0 <= k <= t.len() && #[trigger] glob(q, t.skip(k)),
        glob(seq!['?'] + q, t) <==> t.len() > 0 && glob(q, t.skip(1)),
        (c != '*' && c != '?') ==> (glob(seq![c] + q, t) <==> t.len() > 0 && t[0] == c && glob(
            q,
            t.skip(1),
        )),
        glob(Seq::empty(), t) <==> t.len() == 0,
{
    let p = seq!['*'] + q;
    lemma_star(p, 0, t, 0);
    assert(p.skip(0) =~= p);
    assert(t.skip(0) =~= t);
    assert(p.skip(1) =~= q);
    assert((seq!['?'] + q).skip(1) =~= q);
    assert((seq![c] + q).skip(1) =~= q);
}

} // verus!
