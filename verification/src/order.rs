//! Lexicographic order on character sequences — the order `Ord` gives `String`
//! (byte order of UTF-8 equals code-point order) — and sorting by it.
use vstd::prelude::*;
use crate::lines::seqs;

verus! {

/// `a` sorts strictly before `b`: at the first difference `a` has the smaller
/// code point, or `a` is a proper prefix of `b`.
pub open spec fn lex_lt(a: Seq<char>, b: Seq<char>) -> bool
    decreases a.len(),
{
    if a.len() == 0 {
        b.len() > 0
    } else if b.len() == 0 {
        false
    } else if a[0] != b[0] {
        a[0] < b[0]
    } else {
        lex_lt(a.drop_first(), b.drop_first())
    }
}

/// Every element sorts strictly before every later one (sorted, no repeats).
pub open spec fn strictly_sorted(s: Seq<Seq<char>>) -> bool {
    forall|i: int, j: int| 0 <= i < j < s.len() ==> lex_lt(#[trigger] s[i], #[trigger] s[j])
}

pub proof fn lemma_lex_irreflexive(a: Seq<char>)
    ensures
        !lex_lt(a, a),
    decreases a.len(),
{
    if a.len() > 0 {
        lemma_lex_irreflexive(a.drop_first());
    }
}

pub proof fn lemma_lex_asym(a: Seq<char>, b: Seq<char>)
    ensures
        lex_lt(a, b) ==> !lex_lt(b, a),
    decreases a.len(),
{
    if a.len() > 0 && b.len() > 0 && a[0] == b[0] {
        lemma_lex_asym(a.drop_first(), b.drop_first());
    }
}

pub proof fn lemma_lex_total(a: Seq<char>, b: Seq<char>)
    ensures
        a != b ==> lex_lt(a, b) || lex_lt(b, a),
    decreases a.len(),
{
    if a.len() > 0 && b.len() > 0 && a[0] == b[0] {
        lemma_lex_total(a.drop_first(), b.drop_first());
        if a.drop_first() == b.drop_first() {
            assert(a =~= seq![a[0]] + a.drop_first());
            assert(b =~= seq![b[0]] + b.drop_first());
        }
    } else if a.len() == 0 && b.len() == 0 {
        assert(a =~= b);
    } else if a.len() > 0 && b.len() > 0 {
        assert(a[0] != b[0]);
    }
}

pub proof fn lemma_lex_trans(a: Seq<char>, b: Seq<char>, c: Seq<char>)
    requires
        lex_lt(a, b),
        lex_lt(b, c),
    ensures
        lex_lt(a, c),
    decreases a.len(),
{
    if a.len() > 0 && b.len() > 0 && c.len() > 0 && a[0] == b[0] && b[0] == c[0] {
        lemma_lex_trans(a.drop_first(), b.drop_first(), c.drop_first());
    }
}

/// `a` sorts strictly before `b`.
pub fn lex_lt_exec(a: &Vec<char>, b: &Vec<char>) -> (r: bool)
    ensures
        r == lex_lt(a@, b@),
{
    let mut i: usize = 0;
    assert(a@.skip(0) == a@ && b@.skip(0) == b@);
    while i < a.len() && i < b.len() && a[i] == b[i]
        invariant
            i <= a@.len(),
            i <= b@.len(),
            lex_lt(a@, b@) == lex_lt(a@.skip(i as int), b@.skip(i as int)),
        decreases a.len() - i,
    {
        proof {
            let x = a@.skip(i as int);
            let y = b@.skip(i as int);
            assert(x.drop_first() == a@.skip(i + 1));
            assert(y.drop_first() == b@.skip(i + 1));
        }
        i = i + 1;
    }
    proof {
        let x = a@.skip(i as int);
        let y = b@.skip(i as int);
        if i < a@.len() && i < b@.len() {
            assert(x[0] == a@[i as int]);
            assert(y[0] == b@[i as int]);
        }
    }
    if i == a.len() {
        i < b.len()
    } else if i == b.len() {
        false
    } else {
        a[i] < b[i]
    }
}

/// Inserts `x` into a strictly sorted vector unless it is already there.
pub fn insert_sorted_unique(v: &mut Vec<Vec<char>>, x: Vec<char>)
    requires
        strictly_sorted(seqs(old(v)@)),
    ensures
        strictly_sorted(seqs(final(v)@)),
        forall|y: Seq<char>| #[trigger] seqs(final(v)@).contains(y) <==> seqs(old(v)@).contains(y) || y == x@,
{
    let ghost s = seqs(v@);
    let mut p: usize = 0;
    while p < v.len() && lex_lt_exec(&v[p], &x)
        invariant
            s == seqs(v@),
            p <= v@.len(),
            forall|j: int| 0 <= j < p ==> lex_lt(#[trigger] s[j], x@),
        decreases v.len() - p,
    {
        p = p + 1;
    }
    if p < v.len() && crate::text::eq_exec(&v[p], &x) {
        assert(s[p as int] == x@);
        return;
    }
    proof {
        if p < s.len() {
            lemma_lex_total(s[p as int], x@);
            assert forall|j: int| p <= j < s.len() implies lex_lt(x@, #[trigger] s[j]) by {
                if j > p {
                    lemma_lex_trans(x@, s[p as int], s[j]);
                }
            }
        }
    }
    let ghost xv = x@;
    v.insert(p, x);
    proof {
        let t = seqs(v@);
        assert(t =~= s.insert(p as int, xv));
        assert forall|i: int, j: int| 0 <= i < j < t.len() implies lex_lt(#[trigger] t[i], #[trigger] t[j]) by {
            if j < p {
            } else if i < p && j == p {
            } else if i < p {
                assert(t[j] == s[j - 1]);
                lemma_lex_trans(t[i], xv, t[j]);
            } else if i == p {
                assert(t[j] == s[j - 1]);
            } else {
                assert(t[i] == s[i - 1]);
                assert(t[j] == s[j - 1]);
            }
        }
        assert forall|y: Seq<char>| #[trigger] t.contains(y) <==> s.contains(y) || y == xv by {
            if t.contains(y) {
                let k = choose|k: int| 0 <= k < t.len() && t[k] == y;
                if k < p {
                    assert(s[k] == y);
                } else if k > p {
                    assert(s[k - 1] == y);
                }
            }
            if s.contains(y) {
                let k = choose|k: int| 0 <= k < s.len() && s[k] == y;
                if k < p {
                    assert(t[k] == y);
                } else {
                    assert(t[k + 1] == y);
                }
            }
            if y == xv {
                assert(t[p as int] == y);
            }
        }
    }
}

} // verus!

verus! {

/// The strictly sorted sequence holding exactly the sequences that satisfy `p`
/// (unique: see [`lemma_sorted_unique`]).
pub open spec fn sorted_set(p: spec_fn(Seq<char>) -> bool) -> Seq<Seq<char>> {
    choose|s: Seq<Seq<char>>|
        strictly_sorted(s) && forall|t: Seq<char>| #[trigger] s.contains(t) <==> p(t)
}

/// Two strictly sorted sequences with the same elements are equal.
pub proof fn lemma_sorted_unique(a: Seq<Seq<char>>, b: Seq<Seq<char>>)
    requires
        strictly_sorted(a),
        strictly_sorted(b),
        forall|t: Seq<char>| #[trigger] a.contains(t) <==> b.contains(t),
    ensures
        a == b,
    decreases a.len(),
{
    if a.len() == 0 {
        if b.len() > 0 {
            assert(b.contains(b[0]));
            assert(a.contains(b[0]));
        }
        assert(a =~= b);
    } else {
        assert(a.contains(a[0]));
        let k = choose|k: int| 0 <= k < b.len() && b[k] == a[0];
        assert(b.contains(b[0]));
        assert(a.contains(b[0]));
        let m = choose|m: int| 0 <= m < a.len() && a[m] == b[0];
        if k > 0 {
            assert(lex_lt(b[0], b[k]));
            if m == 0 {
                lemma_lex_irreflexive(a[0]);
            } else {
                assert(lex_lt(a[0], a[m]));
                lemma_lex_trans(a[0], b[0], a[0]);
                lemma_lex_irreflexive(a[0]);
            }
        }
        assert(a[0] == b[0]);
        let a1 = a.drop_first();
        let b1 = b.drop_first();
        assert forall|t: Seq<char>| #[trigger] a1.contains(t) <==> b1.contains(t) by {
            if a1.contains(t) {
                let i = choose|i: int| 0 <= i < a1.len() && a1[i] == t;
                assert(a[i + 1] == t);
                assert(a.contains(t));
                assert(b.contains(t));
                let j = choose|j: int| 0 <= j < b.len() && b[j] == t;
                if j == 0 {
                    assert(lex_lt(a[0], a[i + 1]));
                    lemma_lex_irreflexive(a[0]);
                }
                assert(b1[j - 1] == t);
            }
            if b1.contains(t) {
                let i = choose|i: int| 0 <= i < b1.len() && b1[i] == t;
                assert(b[i + 1] == t);
                assert(b.contains(t));
                assert(a.contains(t));
                let j = choose|j: int| 0 <= j < a.len() && a[j] == t;
                if j == 0 {
                    assert(lex_lt(b[0], b[i + 1]));
                    lemma_lex_irreflexive(b[0]);
                }
                assert(a1[j - 1] == t);
            }
        }
        lemma_sorted_unique(a1, b1);
        assert(a =~= seq![a[0]] + a1);
        assert(b =~= seq![b[0]] + b1);
    }
}

/// A strictly sorted sequence holding exactly the elements satisfying `p` is
/// [`sorted_set`]`(p)`.
pub proof fn lemma_is_sorted_set(x: Seq<Seq<char>>, p: spec_fn(Seq<char>) -> bool)
    requires
        strictly_sorted(x),
        forall|t: Seq<char>| #[trigger] x.contains(t) <==> p(t),
    ensures
        x == sorted_set(p),
{
    let s = sorted_set(p);
    lemma_sorted_unique(x, s);
}

/// `x` put into its place in `s`, unless `s` already holds it.
pub open spec fn insert_lex(s: Seq<Seq<char>>, x: Seq<char>) -> Seq<Seq<char>>
    decreases s.len(),
{
    if s.len() == 0 {
        seq![x]
    } else if s[0] == x {
        s
    } else if lex_lt(x, s[0]) {
        seq![x] + s
    } else {
        seq![s[0]] + insert_lex(s.drop_first(), x)
    }
}

/// The elements of `l`, sorted, each once.
pub open spec fn sort_lex(l: Seq<Seq<char>>) -> Seq<Seq<char>>
    decreases l.len(),
{
    if l.len() == 0 {
        Seq::<Seq<char>>::empty()
    } else {
        insert_lex(sort_lex(l.drop_last()), l.last())
    }
}

proof fn lemma_cons_sorted(a: Seq<char>, u: Seq<Seq<char>>)
    requires
        strictly_sorted(u),
        forall|j: int| 0 <= j < u.len() ==> lex_lt(a, #[trigger] u[j]),
    ensures
        strictly_sorted(seq![a] + u),
{
    let w = seq![a] + u;
    assert forall|i: int, j: int| 0 <= i < j < w.len() implies lex_lt(#[trigger] w[i], #[trigger] w[j]) by {
        assert(w[j] == u[j - 1]);
        if i > 0 {
            assert(w[i] == u[i - 1]);
        }
    }
}

proof fn lemma_insert_lex(s: Seq<Seq<char>>, x: Seq<char>)
    requires
        strictly_sorted(s),
    ensures
        strictly_sorted(insert_lex(s, x)),
        forall|t: Seq<char>| #[trigger] insert_lex(s, x).contains(t) <==> s.contains(t) || t == x,
    decreases s.len(),
{
    let r = insert_lex(s, x);
    if s.len() == 0 {
        assert(r[0] == x);
    } else if s[0] == x {
        assert(s.contains(s[0]));
    } else if lex_lt(x, s[0]) {
        assert forall|j: int| 0 <= j < s.len() implies lex_lt(x, #[trigger] s[j]) by {
            if j > 0 {
                lemma_lex_trans(x, s[0], s[j]);
            }
        }
        lemma_cons_sorted(x, s);
        assert forall|t: Seq<char>| #[trigger] r.contains(t) <==> s.contains(t) || t == x by {
            if r.contains(t) {
                let k = choose|k: int| 0 <= k < r.len() && r[k] == t;
                if k > 0 {
                    assert(s[k - 1] == t);
                }
            }
            if s.contains(t) {
                let k = choose|k: int| 0 <= k < s.len() && s[k] == t;
                assert(r[k + 1] == t);
            }
            if t == x {
                assert(r[0] == t);
            }
        }
    } else {
        let rest = s.drop_first();
        assert(strictly_sorted(rest)) by {
            assert forall|i: int, j: int| 0 <= i < j < rest.len() implies lex_lt(#[trigger] rest[i], #[trigger] rest[j]) by {
                assert(rest[i] == s[i + 1] && rest[j] == s[j + 1]);
            }
        }
        lemma_insert_lex(rest, x);
        let u = insert_lex(rest, x);
        lemma_lex_total(x, s[0]);
        assert forall|j: int| 0 <= j < u.len() implies lex_lt(s[0], #[trigger] u[j]) by {
            assert(u.contains(u[j]));
            if u[j] != x {
                assert(rest.contains(u[j]));
                let k = choose|k: int| 0 <= k < rest.len() && rest[k] == u[j];
                assert(s[k + 1] == u[j]);
            }
        }
        lemma_cons_sorted(s[0], u);
        assert forall|t: Seq<char>| #[trigger] r.contains(t) <==> s.contains(t) || t == x by {
            if r.contains(t) {
                let k = choose|k: int| 0 <= k < r.len() && r[k] == t;
                if k > 0 {
                    assert(u[k - 1] == t);
                    assert(u.contains(t));
                    if rest.contains(t) {
                        let m = choose|m: int| 0 <= m < rest.len() && rest[m] == t;
                        assert(s[m + 1] == t);
                    }
                } else {
                    assert(s[0] == t);
                }
            }
            if s.contains(t) {
                let k = choose|k: int| 0 <= k < s.len() && s[k] == t;
                if k == 0 {
                    assert(r[0] == t);
                } else {
                    assert(rest[k - 1] == t);
                    assert(u.contains(t));
                    let m = choose|m: int| 0 <= m < u.len() && u[m] == t;
                    assert(r[m + 1] == t);
                }
            }
            if t == x {
                assert(u.contains(x));
                let m = choose|m: int| 0 <= m < u.len() && u[m] == x;
                assert(r[m + 1] == x);
            }
        }
    }
}

/// [`sort_lex`] sorts strictly and keeps exactly the elements of its argument.
pub proof fn lemma_sort_lex(l: Seq<Seq<char>>)
    ensures
        strictly_sorted(sort_lex(l)),
        forall|t: Seq<char>| #[trigger] sort_lex(l).contains(t) <==> l.contains(t),
    decreases l.len(),
{
    if l.len() > 0 {
        let init = l.drop_last();
        lemma_sort_lex(init);
        lemma_insert_lex(sort_lex(init), l.last());
        assert forall|t: Seq<char>| #[trigger] sort_lex(l).contains(t) <==> l.contains(t) by {
            if init.contains(t) {
                let k = choose|k: int| 0 <= k < init.len() && init[k] == t;
                assert(l[k] == t);
            }
            if l.contains(t) {
                let k = choose|k: int| 0 <= k < l.len() && l[k] == t;
                if k < l.len() - 1 {
                    assert(init[k] == t);
                }
            }
        }
    }
}

/// Where the elements satisfying `p` are those of a finite sequence `l`,
/// [`sorted_set`]`(p)` is strictly sorted and holds exactly them.
pub proof fn lemma_sorted_set_of(l: Seq<Seq<char>>, p: spec_fn(Seq<char>) -> bool)
    requires
        forall|t: Seq<char>| #[trigger] l.contains(t) <==> p(t),
    ensures
        strictly_sorted(sorted_set(p)),
        forall|t: Seq<char>| #[trigger] sorted_set(p).contains(t) <==> p(t),
{
    lemma_sort_lex(l);
    let w = sort_lex(l);
    assert(strictly_sorted(w) && forall|t: Seq<char>| #[trigger] w.contains(t) <==> p(t));
}

/// Filtering keeps a strictly sorted sequence strictly sorted.
pub proof fn lemma_filter_sorted(s: Seq<Seq<char>>, p: spec_fn(Seq<char>) -> bool)
    requires
        strictly_sorted(s),
    ensures
        strictly_sorted(s.filter(p)),
    decreases s.len(),
{
    reveal(Seq::filter);
    if s.len() > 0 {
        let init = s.drop_last();
        assert(strictly_sorted(init)) by {
            assert forall|i: int, j: int| 0 <= i < j < init.len() implies lex_lt(#[trigger] init[i], #[trigger] init[j]) by {
                assert(init[i] == s[i] && init[j] == s[j]);
            }
        }
        lemma_filter_sorted(init, p);
        let f = init.filter(p);
        if p(s.last()) {
            let g = f.push(s.last());
            assert forall|i: int, j: int| 0 <= i < j < g.len() implies lex_lt(#[trigger] g[i], #[trigger] g[j]) by {
                if j == g.len() - 1 {
                    assert(f.contains(f[i]));
                    init.lemma_filter_contains_rev(p, f[i]);
                    let k = choose|k: int| 0 <= k < init.len() && init[k] == f[i];
                    assert(s[k] == f[i]);
                    assert(s[s.len() - 1] == s.last());
                } else {
                    assert(g[i] == f[i] && g[j] == f[j]);
                }
            }
        }
    }
}

} // verus!
