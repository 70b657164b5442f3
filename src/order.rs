use crate::text::views;
use vstd::string::StrSliceExecFns;
use vstd::prelude::*;

verus! {

/// Lexicographic order on strings, by code point.
pub open spec fn lex_less(a: Seq<char>, b: Seq<char>) -> bool
    decreases a.len(),
{
    if a.len() == 0 {
        b.len() > 0
    } else if b.len() == 0 {
        false
    } else if a[0] != b[0] {
        a[0] < b[0]
    } else {
        lex_less(a.drop_first(), b.drop_first())
    }
}

/// Each string comes strictly before every later one.
pub open spec fn strictly_sorted(s: Seq<Seq<char>>) -> bool {
    forall|i: int, j: int| 0 <= i < j < s.len() ==> lex_less(#[trigger] s[i], #[trigger] s[j])
}

/// Whether `a` comes before `b` in lexicographic order by code point.
pub fn name_less(a: &String, b: &String) -> (r: bool)
    ensures
        r == lex_less(a@, b@),
{
    let n = a.as_str().unicode_len();
    let m = b.as_str().unicode_len();
    let mut i: usize = 0;
    assert(a@.skip(0) =~= a@ && b@.skip(0) =~= b@);
    while i < n && i < m
        invariant
            n == a@.len(),
            m == b@.len(),
            i <= n,
            i <= m,
            lex_less(a@, b@) == lex_less(a@.skip(i as int), b@.skip(i as int)),
        decreases n - i,
    {
        let ca = a.as_str().get_char(i);
        let cb = b.as_str().get_char(i);
        assert(a@.skip(i as int)[0] == ca && b@.skip(i as int)[0] == cb);
        if ca != cb {
            return ca < cb;
        }
        assert(a@.skip(i as int).drop_first() =~= a@.skip(i as int + 1));
        assert(b@.skip(i as int).drop_first() =~= b@.skip(i as int + 1));
        i = i + 1;
    }
    i < m
}

pub proof fn lemma_lex_irreflexive(a: Seq<char>)
    ensures
        !lex_less(a, a),
    decreases a.len(),
{
    if a.len() > 0 {
        lemma_lex_irreflexive(a.drop_first());
    }
}

pub proof fn lemma_lex_transitive(a: Seq<char>, b: Seq<char>, c: Seq<char>)
    requires
        lex_less(a, b),
        lex_less(b, c),
    ensures
        lex_less(a, c),
    decreases a.len(),
{
    if a.len() > 0 && b.len() > 0 && c.len() > 0 && a[0] == b[0] && b[0] == c[0] {
        lemma_lex_transitive(a.drop_first(), b.drop_first(), c.drop_first());
    }
}

pub proof fn lemma_lex_total(a: Seq<char>, b: Seq<char>)
    requires
        a != b,
    ensures
        lex_less(a, b) || lex_less(b, a),
    decreases a.len(),
{
    if a.len() > 0 && b.len() > 0 && a[0] == b[0] {
        if a.drop_first() == b.drop_first() {
            assert(a =~= seq![a[0]] + a.drop_first());
            assert(b =~= seq![b[0]] + b.drop_first());
        }
        lemma_lex_total(a.drop_first(), b.drop_first());
    } else if a.len() == 0 && b.len() == 0 {
        assert(a =~= b);
    }
}

/// Two strictly sorted sequences that hold the same strings are equal.
pub proof fn lemma_sorted_unique(s: Seq<Seq<char>>, t: Seq<Seq<char>>)
    requires
        strictly_sorted(s),
        strictly_sorted(t),
        forall|x: Seq<char>| s.contains(x) <==> t.contains(x),
    ensures
        s == t,
    decreases s.len(),
{
    if s.len() == 0 {
        if t.len() > 0 {
            assert(t.contains(t[0]));
        }
        assert(s =~= t);
    } else {
        assert(s.contains(s[0]));
        let j = choose|j: int| 0 <= j < t.len() && t[j] == s[0];
        assert(t.contains(t[0]));
        let i = choose|i: int| 0 <= i < s.len() && s[i] == t[0];
        if j > 0 {
            assert(lex_less(t[0], t[j]));
            if i > 0 {
                assert(lex_less(s[0], s[i]));
                lemma_lex_transitive(s[0], t[0], s[0]);
            }
            lemma_lex_irreflexive(s[0]);
        }
        assert(s[0] == t[0]);
        let s1 = s.drop_first();
        let t1 = t.drop_first();
        assert forall|x: Seq<char>| s1.contains(x) <==> t1.contains(x) by {
            if s1.contains(x) {
                let a = choose|a: int| 0 <= a < s1.len() && s1[a] == x;
                assert(s.contains(x));
                assert(lex_less(s[0], s[a + 1]));
                lemma_lex_irreflexive(x);
                let b = choose|b: int| 0 <= b < t.len() && t[b] == x;
                assert(b != 0);
                assert(t1[b - 1] == x);
            }
            if t1.contains(x) {
                let a = choose|a: int| 0 <= a < t1.len() && t1[a] == x;
                assert(t.contains(x));
                assert(lex_less(t[0], t[a + 1]));
                lemma_lex_irreflexive(x);
                let b = choose|b: int| 0 <= b < s.len() && s[b] == x;
                assert(b != 0);
                assert(s1[b - 1] == x);
            }
        }
        lemma_sorted_unique(s1, t1);
        assert(s =~= seq![s[0]] + s1);
        assert(t =~= seq![t[0]] + t1);
    }
}

/// Adds `x` to a strictly sorted list of names unless it is there already.
pub fn insert_sorted(names: &mut Vec<String>, x: &String)
    requires
        strictly_sorted(views(old(names)@)),
    ensures
        strictly_sorted(views(final(names)@)),
        forall|y: Seq<char>|
            views(final(names)@).contains(y) <==> (views(old(names)@).contains(y) || y == x@),
{
    let ghost s = views(names@);
    let mut p: usize = 0;
    while p < names.len() && name_less(&names[p], x)
        invariant
            p <= names.len(),
            names@ == old(names)@,
            s == views(names@),
            forall|k: int| 0 <= k < p ==> lex_less(#[trigger] s[k], x@),
        decreases names.len() - p,
    {
        p = p + 1;
    }
    if p < names.len() && names[p] == *x {
        assert(s[p as int] == x@);
        assert(s.contains(x@));
        return;
    }
    proof {
        if p < names.len() {
            assert(s[p as int] == names@[p as int]@);
            lemma_lex_total(s[p as int], x@);
        }
    }
    names.insert(p, x.clone());
    let ghost u = views(names@);
    assert(u =~= s.insert(p as int, x@));
    assert forall|i: int, j: int| 0 <= i < j < u.len() implies lex_less(#[trigger] u[i], #[trigger] u[j]) by {
        if j < p {
        } else if j == p {
        } else if i < p {
            if j - 1 > p {
                lemma_lex_transitive(x@, s[p as int], s[j - 1]);
            }
            lemma_lex_transitive(u[i], x@, u[j]);
        } else if i == p {
            if j - 1 > p {
                lemma_lex_transitive(x@, s[p as int], s[j - 1]);
            }
        } else {
        }
    }
    assert forall|y: Seq<char>| u.contains(y) <==> (s.contains(y) || y == x@) by {
        if s.contains(y) {
            let k = choose|k: int| 0 <= k < s.len() && s[k] == y;
            if k < p {
                assert(u[k] == y);
            } else {
                assert(u[k + 1] == y);
            }
        }
        if y == x@ {
            assert(u[p as int] == y);
        }
        if u.contains(y) {
            let k = choose|k: int| 0 <= k < u.len() && u[k] == y;
            if k < p {
                assert(s[k] == y);
            } else if k > p {
                assert(s[k - 1] == y);
            }
        }
    }
}

} // verus!
