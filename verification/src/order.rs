//! Sorting character sequences in `str` order.

use vstd::prelude::*;

use crate::text::{
    chars_lt, lemma_lt_irreflexive, lemma_lt_total, lemma_lt_transitive, seq_le, seq_lt, sorted,
    strictly_sorted, views,
};

verus! {

broadcast use vstd::seq_lib::group_to_multiset_ensures;

pub proof fn lemma_insert_multiset<A>(s: Seq<A>, p: int, x: A)
    requires
        0 <= p <= s.len(),
    ensures
        s.insert(p, x).to_multiset() =~= s.to_multiset().insert(x),
{
    let a = s.take(p);
    let b = s.skip(p);
    assert(s.insert(p, x) =~= a.push(x) + b);
    assert(s =~= a + b);
    vstd::seq_lib::lemma_multiset_commutative(a.push(x), b);
    vstd::seq_lib::lemma_multiset_commutative(a, b);
}

pub proof fn lemma_insert_keeps_sorted(s: Seq<Seq<char>>, p: int, x: Seq<char>)
    requires
        sorted(s),
        0 <= p <= s.len(),
        forall|q: int| 0 <= q < p ==> !seq_lt(x, #[trigger] s[q]),
        p == s.len() || seq_lt(x, s[p]),
    ensures
        sorted(s.insert(p, x)),
{
    let t = s.insert(p, x);
    assert forall|i: int, j: int| 0 <= i < j < t.len() implies seq_le(#[trigger] t[i], #[trigger] t[j]) by {
        if i < p && j == p {
        } else if i == p && j > p {
            if seq_lt(t[j], x) {
                lemma_lt_transitive(t[j], x, s[p]);
                assert(t[j] == s[j - 1]);
                if j - 1 > p {
                    assert(seq_le(s[p], s[j - 1]));
                } else {
                    lemma_lt_irreflexive(s[p]);
                }
            }
        } else if i < p && j > p {
            assert(t[j] == s[j - 1]);
            assert(seq_le(s[i], s[j - 1]));
        } else if i > p {
            assert(t[i] == s[i - 1] && t[j] == s[j - 1]);
            assert(seq_le(s[i - 1], s[j - 1]));
        } else {
            assert(seq_le(s[i], s[j]));
        }
    }
}

/// The same character sequences, in `str` order (duplicates kept).
pub fn sort_lines(v: Vec<Vec<char>>) -> (res: Vec<Vec<char>>)
    ensures
        sorted(views(res@)),
        views(res@).to_multiset() =~= views(v@).to_multiset(),
{
    let mut out: Vec<Vec<char>> = Vec::new();
    let mut i: usize = 0;
    while i < v.len()
        invariant
            i <= v@.len(),
            sorted(views(out@)),
            views(out@).to_multiset() =~= views(v@.take(i as int)).to_multiset(),
        decreases v@.len() - i,
    {
        let x = v[i].clone();
        let mut p: usize = 0;
        while p < out.len() && !chars_lt(x.as_slice(), out[p].as_slice())
            invariant
                p <= out@.len(),
                forall|q: int| 0 <= q < p ==> !seq_lt(x@, #[trigger] views(out@)[q]),
            decreases out@.len() - p,
        {
            p = p + 1;
        }
        let ghost s = views(out@);
        proof {
            lemma_insert_keeps_sorted(s, p as int, x@);
            lemma_insert_multiset(s, p as int, x@);
            assert(views(v@.take(i + 1)) =~= views(v@.take(i as int)).push(v@[i as int]@));
        }
        out.insert(p, x);
        assert(views(out@) =~= s.insert(p as int, x@));
        i = i + 1;
    }
    assert(v@.take(v@.len() as int) =~= v@);
    out
}


pub proof fn lemma_insert_keeps_strictly_sorted(s: Seq<Seq<char>>, p: int, x: Seq<char>)
    requires
        strictly_sorted(s),
        0 <= p <= s.len(),
        forall|q: int| 0 <= q < p ==> seq_lt(#[trigger] s[q], x),
        p == s.len() || seq_lt(x, s[p]),
    ensures
        strictly_sorted(s.insert(p, x)),
        s.insert(p, x).to_set() =~= s.to_set().insert(x),
{
    let t = s.insert(p, x);
    assert forall|i: int, j: int| 0 <= i < j < t.len() implies seq_lt(#[trigger] t[i], #[trigger] t[j]) by {
        if i < p && j == p {
        } else if i == p && j > p {
            assert(t[j] == s[j - 1]);
            if j - 1 > p {
                lemma_lt_transitive(x, s[p], s[j - 1]);
            }
        } else if i < p && j > p {
            assert(t[j] == s[j - 1]);
        } else if i > p {
            assert(t[i] == s[i - 1] && t[j] == s[j - 1]);
        } else {
        }
    }
    assert forall|y: Seq<char>| #[trigger] t.contains(y) <==> s.contains(y) || y == x by {
        if t.contains(y) {
            let k = choose|k: int| 0 <= k < t.len() && t[k] == y;
            if k < p {
                assert(s[k] == y);
            } else if k > p {
                assert(s[k - 1] == y);
            }
        }
        if s.contains(y) {
            let k = choose|k: int| 0 <= k < s.len() && s[k] == y;
            if k < p {
                assert(t[k] == y);
            } else {
                assert(t[k + 1] == y);
            }
        }
        if y == x {
            assert(t[p] == x);
        }
    }
}

pub proof fn lemma_push_to_set<A>(s: Seq<A>, x: A)
    ensures
        s.push(x).to_set() =~= s.to_set().insert(x),
{
    assert forall|y: A| #[trigger] s.push(x).contains(y) <==> s.contains(y) || y == x by {
        if s.push(x).contains(y) {
            let k = choose|k: int| 0 <= k < s.len() + 1 && s.push(x)[k] == y;
            if k < s.len() {
                assert(s[k] == y);
            }
        }
        if s.contains(y) {
            let k = choose|k: int| 0 <= k < s.len() && s[k] == y;
            assert(s.push(x)[k] == y);
        }
        if y == x {
            assert(s.push(x)[s.len() as int] == x);
        }
    }
}

/// The distinct character sequences of `v`, in `str` order.
pub fn sort_unique_lines(v: Vec<Vec<char>>) -> (res: Vec<Vec<char>>)
    ensures
        strictly_sorted(views(res@)),
        views(res@).to_set() =~= views(v@).to_set(),
{
    let mut out: Vec<Vec<char>> = Vec::new();
    let mut i: usize = 0;
    while i < v.len()
        invariant
            i <= v@.len(),
            strictly_sorted(views(out@)),
            views(out@).to_set() =~= views(v@.take(i as int)).to_set(),
        decreases v@.len() - i,
    {
        let x = v[i].clone();
        let mut p: usize = 0;
        while p < out.len() && chars_lt(out[p].as_slice(), x.as_slice())
            invariant
                p <= out@.len(),
                forall|q: int| 0 <= q < p ==> seq_lt(#[trigger] views(out@)[q], x@),
            decreases out@.len() - p,
        {
            p = p + 1;
        }
        let ghost s = views(out@);
        proof {
            assert(views(v@.take(i + 1)) =~= views(v@.take(i as int)).push(v@[i as int]@));
            lemma_push_to_set(views(v@.take(i as int)), x@);
        }
        if p < out.len() && !chars_lt(x.as_slice(), out[p].as_slice()) {
            proof {
                lemma_lt_total(x@, s[p as int]);
                assert(s.contains(x@));
                assert(s.to_set().insert(x@) =~= s.to_set());
            }
        } else {
            proof {
                lemma_insert_keeps_strictly_sorted(s, p as int, x@);
            }
            out.insert(p, x);
            assert(views(out@) =~= s.insert(p as int, x@));
        }
        i = i + 1;
    }
    assert(v@.take(v@.len() as int) =~= v@);
    out
}


/// Two strictly sorted sequences with the same elements are equal.
pub proof fn lemma_strictly_sorted_unique(a: Seq<Seq<char>>, b: Seq<Seq<char>>)
    requires
        strictly_sorted(a),
        strictly_sorted(b),
        a.to_set() == b.to_set(),
    ensures
        a == b,
    decreases a.len(),
{
    if a.len() == 0 {
        if b.len() > 0 {
            assert(b.to_set().contains(b[0]));
        }
        assert(a =~= b);
    } else {
        assert(a.to_set().contains(a[0]));
        assert(b.contains(a[0]));
        assert(b.len() > 0);
        assert(b.to_set().contains(b[0]));
        assert(a.contains(b[0]));
        let i = choose|i: int| 0 <= i < b.len() && b[i] == a[0];
        let j = choose|j: int| 0 <= j < a.len() && a[j] == b[0];
        if i > 0 && j > 0 {
            assert(seq_lt(b[0], a[0]));
            assert(seq_lt(a[0], b[0]));
            lemma_lt_total(a[0], b[0]);
        } else if i > 0 {
            lemma_lt_irreflexive(a[0]);
        } else if j > 0 {
            lemma_lt_irreflexive(b[0]);
        }
        assert(a[0] == b[0]);
        let ta = a.drop_first();
        let tb = b.drop_first();
        assert(strictly_sorted(ta)) by {
            assert forall|x: int, y: int| 0 <= x < y < ta.len() implies seq_lt(
                #[trigger] ta[x],
                #[trigger] ta[y],
            ) by {
                assert(seq_lt(a[x + 1], a[y + 1]));
            }
        }
        assert(strictly_sorted(tb)) by {
            assert forall|x: int, y: int| 0 <= x < y < tb.len() implies seq_lt(
                #[trigger] tb[x],
                #[trigger] tb[y],
            ) by {
                assert(seq_lt(b[x + 1], b[y + 1]));
            }
        }
        assert forall|x: Seq<char>| #[trigger] ta.contains(x) <==> tb.contains(x) by {
            if ta.contains(x) {
                let k = choose|k: int| 0 <= k < ta.len() && ta[k] == x;
                assert(seq_lt(a[0], a[k + 1]));
                lemma_lt_irreflexive(a[0]);
                assert(a.to_set().contains(x));
                assert(b.contains(x));
                let m = choose|m: int| 0 <= m < b.len() && b[m] == x;
                assert(m != 0);
                assert(tb[m - 1] == x);
            }
            if tb.contains(x) {
                let k = choose|k: int| 0 <= k < tb.len() && tb[k] == x;
                assert(seq_lt(b[0], b[k + 1]));
                lemma_lt_irreflexive(b[0]);
                assert(b.to_set().contains(x));
                assert(a.contains(x));
                let m = choose|m: int| 0 <= m < a.len() && a[m] == x;
                assert(m != 0);
                assert(ta[m - 1] == x);
            }
        }
        assert(ta.to_set() =~= tb.to_set());
        lemma_strictly_sorted_unique(ta, tb);
        assert(a =~= seq![a[0]] + ta);
        assert(b =~= seq![b[0]] + tb);
    }
}


/// What a filter keeps of a strictly sorted sequence is strictly sorted.
pub proof fn lemma_filter_strictly_sorted(s: Seq<Seq<char>>, p: spec_fn(Seq<char>) -> bool)
    requires
        strictly_sorted(s),
    ensures
        strictly_sorted(s.filter(p)),
    decreases s.len(),
{
    reveal(Seq::filter);
    if s.len() > 0 {
        let t = s.drop_last();
        assert(strictly_sorted(t)) by {
            assert forall|a: int, b: int| 0 <= a < b < t.len() implies seq_lt(
                #[trigger] t[a],
                #[trigger] t[b],
            ) by {
                assert(seq_lt(s[a], s[b]));
            }
        }
        lemma_filter_strictly_sorted(t, p);
        if p(s.last()) {
            let f = t.filter(p);
            let g = f.push(s.last());
            assert(s.filter(p) == g);
            assert forall|a: int, b: int| 0 <= a < b < g.len() implies seq_lt(
                #[trigger] g[a],
                #[trigger] g[b],
            ) by {
                if b == f.len() {
                    assert(f.contains(f[a]));
                    t.lemma_filter_contains_rev(p, f[a]);
                    let k = choose|k: int| 0 <= k < t.len() && t[k] == f[a];
                    assert(seq_lt(s[k], s[s.len() - 1]));
                } else {
                    assert(g[a] == f[a] && g[b] == f[b]);
                }
            }
        }
    }
}

/// A sorted arrangement of the elements of a strictly sorted sequence is that
/// sequence.
pub proof fn lemma_sorted_permutation_of_strict(l: Seq<Seq<char>>, k: Seq<Seq<char>>)
    requires
        sorted(l),
        strictly_sorted(k),
        l.to_multiset() == k.to_multiset(),
    ensures
        l == k,
{
    assert(k.no_duplicates()) by {
        assert forall|i: int, j: int| 0 <= i < k.len() && 0 <= j < k.len() && i != j implies k[i]
            != k[j] by {
            if i < j {
                assert(seq_lt(k[i], k[j]));
                lemma_lt_irreflexive(k[i]);
            } else {
                assert(seq_lt(k[j], k[i]));
                lemma_lt_irreflexive(k[j]);
            }
        }
    }
    k.lemma_multiset_has_no_duplicates();
    l.lemma_multiset_has_no_duplicates_conv();
    assert(strictly_sorted(l)) by {
        assert forall|i: int, j: int| 0 <= i < j < l.len() implies seq_lt(
            #[trigger] l[i],
            #[trigger] l[j],
        ) by {
            assert(seq_le(l[i], l[j]));
            lemma_lt_total(l[i], l[j]);
        }
    }
    assert forall|x: Seq<char>| #[trigger] l.contains(x) <==> k.contains(x) by {
        assert(l.contains(x) <==> l.to_multiset().count(x) > 0);
        assert(k.contains(x) <==> k.to_multiset().count(x) > 0);
    }
    assert(l.to_set() =~= k.to_set());
    lemma_strictly_sorted_unique(l, k);
}

} // verus!
