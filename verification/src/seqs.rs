//! Facts about filtering and counting sequences that the grouping and copy
//! proofs share.
use vstd::prelude::*;

verus! {

broadcast use {vstd::seq_lib::group_to_multiset_ensures, vstd::multiset::group_multiset_axioms};

/// Filtering a sequence and then counting a value: the value's count when
/// the value passes the filter, else none.
pub proof fn lemma_filter_count<A>(s: Seq<A>, p: spec_fn(A) -> bool, x: A)
    ensures
        s.filter(p).to_multiset().count(x) == if p(x) {
            s.to_multiset().count(x)
        } else {
            0
        },
    decreases s.len(),
{
    reveal(Seq::filter);
    if s.len() > 0 {
        lemma_filter_count(s.drop_last(), p, x);
        assert(s =~= s.drop_last().push(s.last()));
    }
}

/// Sequences with the same elements keep the same elements when filtered.
pub proof fn lemma_filter_permutation<A>(s1: Seq<A>, s2: Seq<A>, p: spec_fn(A) -> bool)
    requires
        s1.to_multiset() == s2.to_multiset(),
    ensures
        s1.filter(p).to_multiset() == s2.filter(p).to_multiset(),
{
    assert forall|x: A| #[trigger] s1.filter(p).to_multiset().count(x) == s2.filter(
        p,
    ).to_multiset().count(x) by {
        lemma_filter_count(s1, p, x);
        lemma_filter_count(s2, p, x);
    }
    assert(s1.filter(p).to_multiset() =~= s2.filter(p).to_multiset());
}

/// When exactly the positions `i..j` pass the filter, the filter keeps that
/// block.
pub proof fn lemma_filter_block<A>(s: Seq<A>, p: spec_fn(A) -> bool, i: int, j: int)
    requires
        0 <= i <= j <= s.len(),
        forall|q: int| 0 <= q < s.len() ==> (p(#[trigger] s[q]) <==> i <= q < j),
    ensures
        s.filter(p) == s.subrange(i, j),
    decreases s.len(),
{
    reveal(Seq::filter);
    if s.len() == 0 {
        assert(s.subrange(i, j) =~= s);
    } else {
        let t = s.drop_last();
        if i == j {
            assert forall|q: int| 0 <= q < t.len() implies (p(#[trigger] t[q]) <==> 0 <= q < 0) by {
                assert(t[q] == s[q]);
            }
            lemma_filter_block(t, p, 0, 0);
            assert(!p(s[s.len() - 1]));
            assert(s.subrange(i, j) =~= Seq::<A>::empty());
            assert(t.subrange(0, 0) =~= Seq::<A>::empty());
        } else if j == s.len() {
            assert forall|q: int| 0 <= q < t.len() implies (p(#[trigger] t[q]) <==> i <= q < j
                - 1) by {
                assert(t[q] == s[q]);
            }
            lemma_filter_block(t, p, i, j - 1);
            assert(p(s[s.len() - 1]));
            assert(s.subrange(i, j) =~= t.subrange(i, j - 1).push(s.last()));
        } else {
            assert forall|q: int| 0 <= q < t.len() implies (p(#[trigger] t[q]) <==> i <= q < j) by {
                assert(t[q] == s[q]);
            }
            lemma_filter_block(t, p, i, j);
            assert(!p(s[s.len() - 1]));
            assert(s.subrange(i, j) =~= t.subrange(i, j));
        }
    }
}

/// A value at two different positions occurs at least twice.
pub proof fn lemma_two_positions_count<A>(s: Seq<A>, k: int, l: int)
    requires
        0 <= k < s.len(),
        0 <= l < s.len(),
        k != l,
        s[k] == s[l],
    ensures
        s.to_multiset().count(s[k]) >= 2,
{
    let t = s.remove(k);
    vstd::seq_lib::to_multiset_remove(s, k);
    let l2 = if l < k {
        l
    } else {
        l - 1
    };
    assert(t =~= s.subrange(0, k) + s.subrange(k + 1, s.len() as int));
    assert(t[l2] == s[l]);
    assert(t.contains(s[k]));
    assert(s.contains(s[k]));
    assert(t.to_multiset().count(s[k]) >= 1);
}

/// A value that occurs at least twice sits at two different positions.
pub proof fn lemma_count_two_positions<A>(s: Seq<A>, x: A) -> (kl: (int, int))
    requires
        s.to_multiset().count(x) >= 2,
    ensures
        0 <= kl.0 < s.len(),
        0 <= kl.1 < s.len(),
        kl.0 != kl.1,
        s[kl.0] == x,
        s[kl.1] == x,
{
    assert(s.contains(x));
    let k = choose|k: int| 0 <= k < s.len() && s[k] == x;
    let t = s.remove(k);
    vstd::seq_lib::to_multiset_remove(s, k);
    assert(t =~= s.subrange(0, k) + s.subrange(k + 1, s.len() as int));
    assert(t.to_multiset().count(x) >= 1);
    assert(t.contains(x));
    let l2 = choose|l: int| 0 <= l < t.len() && t[l] == x;
    let l = if l2 < k {
        l2
    } else {
        l2 + 1
    };
    assert(s[l] == t[l2]);
    (k, l)
}

/// Reordering a sequence keeps its elements pairwise different under `f`.
pub proof fn lemma_distinct_keys_permutation<A, B>(s1: Seq<A>, s2: Seq<A>, f: spec_fn(A) -> B)
    requires
        s1.to_multiset() == s2.to_multiset(),
        forall|k: int, l: int|
            0 <= k < s1.len() && 0 <= l < s1.len() && k != l ==> f(#[trigger] s1[k]) != f(
                #[trigger] s1[l],
            ),
    ensures
        forall|k: int, l: int|
            0 <= k < s2.len() && 0 <= l < s2.len() && k != l ==> f(#[trigger] s2[k]) != f(
                #[trigger] s2[l],
            ),
{
    assert forall|k: int, l: int|
        0 <= k < s2.len() && 0 <= l < s2.len() && k != l implies f(#[trigger] s2[k]) != f(
        #[trigger] s2[l],
    ) by {
        if f(s2[k]) == f(s2[l]) {
            if s2[k] == s2[l] {
                lemma_two_positions_count(s2, k, l);
                let (p, q) = lemma_count_two_positions(s1, s2[k]);
                assert(f(s1[p]) == f(s1[q]));
            } else {
                assert(s2.contains(s2[k]));
                assert(s2.contains(s2[l]));
                assert(s1.to_multiset().count(s2[k]) > 0);
                assert(s1.to_multiset().count(s2[l]) > 0);
                assert(s1.contains(s2[k]));
                assert(s1.contains(s2[l]));
                let p = choose|p: int| 0 <= p < s1.len() && s1[p] == s2[k];
                let q = choose|q: int| 0 <= q < s1.len() && s1[q] == s2[l];
                assert(f(s1[p]) == f(s1[q]));
            }
        }
    }
}

/// Two sequences with the same elements, each sorted by `le`, are equal when
/// `le` orders no two different elements of them both ways.
pub proof fn lemma_sorted_same_elements_equal<A>(x: Seq<A>, y: Seq<A>, le: spec_fn(A, A) -> bool)
    requires
        forall|i: int, j: int| 0 <= i < j < x.len() ==> #[trigger] le(x[i], x[j]),
        forall|i: int, j: int| 0 <= i < j < y.len() ==> #[trigger] le(y[i], y[j]),
        x.to_multiset() == y.to_multiset(),
        forall|a: A, b: A|
            x.contains(a) && x.contains(b) && #[trigger] le(a, b) && #[trigger] le(b, a) ==> a
                == b,
    ensures
        x == y,
    decreases x.len(),
{
    if x.len() == 0 {
        assert(y.to_multiset().len() == 0);
        assert(x =~= y);
    } else {
        assert(x.to_multiset().len() == x.len());
        assert(y.to_multiset().len() == y.len());
        assert(y.len() == x.len());
        assert(x.contains(x[0]));
        assert(y.to_multiset().count(x[0]) > 0);
        let j = choose|j: int| 0 <= j < y.len() && y[j] == x[0];
        assert(y.contains(y[0]));
        assert(x.to_multiset().count(y[0]) > 0);
        let i = choose|i: int| 0 <= i < x.len() && x[i] == y[0];
        if i != 0 && j != 0 {
            assert(le(x[0], x[i]));
            assert(le(y[0], y[j]));
            assert(x.contains(x[i]));
        }
        assert(x[0] == y[0]);
        let xt = x.drop_first();
        let yt = y.drop_first();
        vstd::seq_lib::to_multiset_remove(x, 0);
        vstd::seq_lib::to_multiset_remove(y, 0);
        assert(x.remove(0) =~= xt);
        assert(y.remove(0) =~= yt);
        assert forall|a: int, b: int| 0 <= a < b < xt.len() implies #[trigger] le(xt[a], xt[b]) by {
            assert(le(x[a + 1], x[b + 1]));
        }
        assert forall|a: int, b: int| 0 <= a < b < yt.len() implies #[trigger] le(yt[a], yt[b]) by {
            assert(le(y[a + 1], y[b + 1]));
        }
        assert forall|a: A, b: A|
            xt.contains(a) && xt.contains(b) && #[trigger] le(a, b) && #[trigger] le(b, a) implies a
            == b by {
            let p = choose|p: int| 0 <= p < xt.len() && xt[p] == a;
            let q = choose|q: int| 0 <= q < xt.len() && xt[q] == b;
            assert(x[p + 1] == a && x[q + 1] == b);
            assert(x.contains(a) && x.contains(b));
        }
        lemma_sorted_same_elements_equal(xt, yt, le);
        assert(x =~= y) by {
            assert forall|k: int| 0 <= k < x.len() implies x[k] == y[k] by {
                if k > 0 {
                    assert(xt[k - 1] == yt[k - 1]);
                }
            }
        }
    }
}

/// Two different positions that pass a filter leave at least two elements.
pub proof fn lemma_filter_two<A>(s: Seq<A>, p: spec_fn(A) -> bool, a: int, b: int)
    requires
        0 <= a < s.len(),
        0 <= b < s.len(),
        a != b,
        p(s[a]),
        p(s[b]),
    ensures
        s.filter(p).len() >= 2,
    decreases s.len(),
{
    reveal(Seq::filter);
    let t = s.drop_last();
    let last = s.len() - 1;
    if a != last && b != last {
        assert(t[a] == s[a] && t[b] == s[b]);
        lemma_filter_two(t, p, a, b);
    } else {
        let other = if a == last {
            b
        } else {
            a
        };
        assert(t[other] == s[other]);
        t.lemma_filter_contains(p, other);
        assert(t.filter(p).len() >= 1);
    }
}

} // verus!

