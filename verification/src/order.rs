//! Path order, keyed orders, and a merge sort over them.
use vstd::multiset::Multiset;
use vstd::prelude::*;

verus! {

broadcast use {vstd::seq_lib::group_to_multiset_ensures, vstd::multiset::group_multiset_axioms};

/// The byte that separates path components.
pub const SEPARATOR: u8 = 47u8;

/// The rank of a path byte in path order: the separator sorts before every
/// other byte, and the other bytes keep their numeric order.
pub open spec fn byte_rank(b: u8) -> int {
    if b == SEPARATOR {
        0
    } else {
        b as int + 1
    }
}

/// Path order: `a` sorts before or equal to `b`.
///
/// Paths are compared byte by byte, with the separator ranked below every
/// other byte, and a path sorts before every longer path that it is a prefix
/// of. On paths without repeated or trailing separators this is the order of
/// their component lists, each component compared by its bytes.
pub open spec fn path_le(a: Seq<u8>, b: Seq<u8>) -> bool
    decreases a.len(),
{
    if a.len() == 0 {
        true
    } else if b.len() == 0 {
        false
    } else if a[0] != b[0] {
        byte_rank(a[0]) < byte_rank(b[0])
    } else {
        path_le(a.drop_first(), b.drop_first())
    }
}

/// Path order is reflexive.
pub proof fn lemma_path_le_reflexive(a: Seq<u8>)
    ensures
        path_le(a, a),
    decreases a.len(),
{
    if a.len() > 0 {
        lemma_path_le_reflexive(a.drop_first());
    }
}

/// Any two paths are ordered one way or the other.
pub proof fn lemma_path_le_total(a: Seq<u8>, b: Seq<u8>)
    ensures
        path_le(a, b) || path_le(b, a),
    decreases a.len(),
{
    if a.len() > 0 && b.len() > 0 && a[0] == b[0] {
        lemma_path_le_total(a.drop_first(), b.drop_first());
    }
}

/// Path order is transitive.
pub proof fn lemma_path_le_transitive(a: Seq<u8>, b: Seq<u8>, c: Seq<u8>)
    requires
        path_le(a, b),
        path_le(b, c),
    ensures
        path_le(a, c),
    decreases a.len(),
{
    if a.len() > 0 && b.len() > 0 && c.len() > 0 && a[0] == b[0] && b[0] == c[0] {
        lemma_path_le_transitive(a.drop_first(), b.drop_first(), c.drop_first());
    }
}

/// Path order is antisymmetric: two paths ordered both ways are equal.
pub proof fn lemma_path_le_antisymmetric(a: Seq<u8>, b: Seq<u8>)
    requires
        path_le(a, b),
        path_le(b, a),
    ensures
        a == b,
    decreases a.len(),
{
    if a.len() > 0 && b.len() > 0 {
        lemma_path_le_antisymmetric(a.drop_first(), b.drop_first());
        assert(a =~= seq![a[0]] + a.drop_first());
        assert(b =~= seq![b[0]] + b.drop_first());
    } else {
        assert(a =~= b);
    }
}

/// A path sorts before every path that it is a byte prefix of.
pub proof fn lemma_path_le_prefix(a: Seq<u8>, b: Seq<u8>)
    requires
        a.len() <= b.len(),
        forall|i: int| 0 <= i < a.len() ==> a[i] == b[i],
    ensures
        path_le(a, b),
    decreases a.len(),
{
    if a.len() > 0 {
        assert forall|i: int| 0 <= i < a.drop_first().len() implies a.drop_first()[i]
            == b.drop_first()[i] by {
            assert(a[i + 1] == b[i + 1]);
        }
        lemma_path_le_prefix(a.drop_first(), b.drop_first());
    }
}

/// Two paths that agree before position `i` and differ at `i` are ordered by
/// their bytes at `i`, except that the separator comes first.
pub proof fn lemma_path_le_first_difference(a: Seq<u8>, b: Seq<u8>, i: int)
    requires
        0 <= i < a.len(),
        i < b.len(),
        forall|k: int| 0 <= k < i ==> a[k] == b[k],
        a[i] != b[i],
    ensures
        path_le(a, b) <==> (a[i] == SEPARATOR || (b[i] != SEPARATOR && a[i] < b[i])),
    decreases i,
{
    if i > 0 {
        assert forall|k: int| 0 <= k < i - 1 implies a.drop_first()[k] == b.drop_first()[k] by {
            assert(a[k + 1] == b[k + 1]);
        }
        assert(a[0] == b[0]);
        lemma_path_le_first_difference(a.drop_first(), b.drop_first(), i - 1);
    }
}

fn byte_rank_exec(b: u8) -> (r: u16)
    ensures
        r == byte_rank(b),
{
    if b == SEPARATOR {
        0
    } else {
        b as u16 + 1
    }
}

/// Compares two paths in path order.
pub fn path_le_exec(a: &Vec<u8>, b: &Vec<u8>) -> (r: bool)
    ensures
        r == path_le(a@, b@),
{
    let mut i: usize = 0;
    assert(a@.skip(0) =~= a@);
    assert(b@.skip(0) =~= b@);
    while i < a.len() && i < b.len()
        invariant
            i <= a.len(),
            i <= b.len(),
            path_le(a@, b@) == path_le(a@.skip(i as int), b@.skip(i as int)),
        decreases a.len() - i,
    {
        assert(a@.skip(i as int)[0] == a@[i as int]);
        assert(b@.skip(i as int)[0] == b@[i as int]);
        if a[i] != b[i] {
            return byte_rank_exec(a[i]) < byte_rank_exec(b[i]);
        }
        assert(a@.skip(i as int).drop_first() =~= a@.skip(i + 1));
        assert(b@.skip(i as int).drop_first() =~= b@.skip(i + 1));
        i = i + 1;
    }
    i == a.len()
}

/// A type with a total preorder on its views, used to sort vectors of it.
pub trait SortKey: View + Sized {
    /// `a` may come before `b` in sorted order.
    spec fn ordered(a: Self::V, b: Self::V) -> bool;

    proof fn lemma_ordered_total(a: Self::V, b: Self::V)
        ensures
            Self::ordered(a, b) || Self::ordered(b, a),
    ;

    proof fn lemma_ordered_transitive(a: Self::V, b: Self::V, c: Self::V)
        requires
            Self::ordered(a, b),
            Self::ordered(b, c),
        ensures
            Self::ordered(a, c),
    ;

    fn ordered_before(&self, other: &Self) -> (r: bool)
        ensures
            r == Self::ordered(self@, other@),
    ;
}

/// The views of a sequence of values.
pub open spec fn views<T: View>(s: Seq<T>) -> Seq<T::V> {
    s.map_values(|t: T| t@)
}

/// `s` is in non-decreasing order of `T`'s key.
pub open spec fn sorted_by_key<T: SortKey>(s: Seq<T::V>) -> bool {
    forall|i: int, j: int| 0 <= i < j < s.len() ==> #[trigger] T::ordered(s[i], s[j])
}

proof fn lemma_views_push<T: View>(s: Seq<T>, x: T)
    ensures
        views(s.push(x)) == views(s).push(x@),
{
    assert(views(s.push(x)) =~= views(s).push(x@));
}

proof fn lemma_views_drop_last<T: View>(s: Seq<T>)
    requires
        s.len() > 0,
    ensures
        views(s) == views(s.drop_last()).push(s.last()@),
        views(s.drop_last()) == views(s).drop_last(),
{
    assert(views(s) =~= views(s.drop_last()).push(s.last()@));
    assert(views(s.drop_last()) =~= views(s).drop_last());
}

proof fn lemma_sorted_drop_last<T: SortKey>(s: Seq<T::V>)
    requires
        sorted_by_key::<T>(s),
        s.len() > 0,
    ensures
        sorted_by_key::<T>(s.drop_last()),
        forall|k: int| 0 <= k < s.len() ==> #[trigger] T::ordered(s[k], s.last()),
{
    assert forall|i: int, j: int| 0 <= i < j < s.drop_last().len() implies #[trigger] T::ordered(
        s.drop_last()[i],
        s.drop_last()[j],
    ) by {
        assert(T::ordered(s[i], s[j]));
    }
    assert forall|k: int| 0 <= k < s.len() implies #[trigger] T::ordered(s[k], s.last()) by {
        if k < s.len() - 1 {
            assert(T::ordered(s[k], s[s.len() - 1]));
        } else {
            T::lemma_ordered_total(s[k], s[k]);
        }
    }
}

/// Sorts a vector by `T`'s key in O(n log n) comparisons.
///
/// The result holds the same values and is sorted.
pub fn sort_by_key<T: SortKey>(v: Vec<T>) -> (r: Vec<T>)
    ensures
        views(r@).to_multiset() == views(v@).to_multiset(),
        sorted_by_key::<T>(views(r@)),
    decreases v.len(),
{
    let n = v.len();
    if n <= 1 {
        return v;
    }
    let mut left = v;
    let right = left.split_off(n / 2);
    proof {
        assert(views(v@) =~= views(left@) + views(right@));
        vstd::seq_lib::lemma_multiset_commutative(views(left@), views(right@));
    }
    let left = sort_by_key(left);
    let right = sort_by_key(right);
    merge(left, right)
}

fn merge<T: SortKey>(a: Vec<T>, b: Vec<T>) -> (r: Vec<T>)
    requires
        sorted_by_key::<T>(views(a@)),
        sorted_by_key::<T>(views(b@)),
    ensures
        views(r@).to_multiset() == views(a@).to_multiset().add(views(b@).to_multiset()),
        sorted_by_key::<T>(views(r@)),
{
    let ghost total = views(a@).to_multiset().add(views(b@).to_multiset());
    let mut a = a;
    let mut b = b;
    // `rev` collects the largest remaining value first.
    let mut rev: Vec<T> = Vec::new();
    while a.len() > 0 || b.len() > 0
        invariant
            sorted_by_key::<T>(views(a@)),
            sorted_by_key::<T>(views(b@)),
            forall|i: int, j: int|
                0 <= i < j < rev.len() ==> #[trigger] T::ordered(
                    views(rev@)[j],
                    views(rev@)[i],
                ),
            forall|i: int, k: int|
                0 <= i < rev.len() && 0 <= k < a.len() ==> #[trigger] T::ordered(
                    views(a@)[k],
                    views(rev@)[i],
                ),
            forall|i: int, k: int|
                0 <= i < rev.len() && 0 <= k < b.len() ==> #[trigger] T::ordered(
                    views(b@)[k],
                    views(rev@)[i],
                ),
            views(rev@).to_multiset().add(views(a@).to_multiset()).add(views(b@).to_multiset())
                == total,
        decreases a.len() + b.len(),
    {
        let take_b = if a.len() == 0 {
            true
        } else if b.len() == 0 {
            false
        } else {
            a[a.len() - 1].ordered_before(&b[b.len() - 1])
        };
        let ghost old_rev = rev@;
        let ghost old_a = a@;
        let ghost old_b = b@;
        let ghost va = views(a@);
        let ghost vb = views(b@);
        let ghost vr = views(rev@);
        let x = if take_b {
            b.pop().unwrap()
        } else {
            a.pop().unwrap()
        };
        proof {
            // `x` is the largest remaining value.
            if take_b {
                lemma_views_drop_last(old_b);
                lemma_sorted_drop_last::<T>(vb);
                assert(x@ == vb.last());
                if va.len() > 0 {
                    lemma_sorted_drop_last::<T>(va);
                    assert forall|k: int| 0 <= k < va.len() implies #[trigger] T::ordered(
                        va[k],
                        x@,
                    ) by {
                        T::lemma_ordered_transitive(va[k], va.last(), x@);
                    }
                }
            } else {
                lemma_views_drop_last(old_a);
                lemma_sorted_drop_last::<T>(va);
                assert(x@ == va.last());
                if vb.len() > 0 {
                    lemma_sorted_drop_last::<T>(vb);
                    T::lemma_ordered_total(x@, vb.last());
                    assert forall|k: int| 0 <= k < vb.len() implies #[trigger] T::ordered(
                        vb[k],
                        x@,
                    ) by {
                        T::lemma_ordered_transitive(vb[k], vb.last(), x@);
                    }
                }
            }
            assert(forall|k: int| 0 <= k < va.len() ==> #[trigger] T::ordered(va[k], x@));
            assert(forall|k: int| 0 <= k < vb.len() ==> #[trigger] T::ordered(vb[k], x@));
            assert(views(a@) == if take_b { va } else { va.drop_last() });
            assert(views(b@) == if take_b { vb.drop_last() } else { vb });
        }
        rev.push(x);
        proof {
            lemma_views_push(old_rev, x);
            let nr = views(rev@);
            assert(nr == vr.push(x@));
            assert forall|i: int, j: int| 0 <= i < j < nr.len() implies #[trigger] T::ordered(
                nr[j],
                nr[i],
            ) by {
                if j == nr.len() - 1 {
                    if take_b {
                        assert(T::ordered(vb[vb.len() - 1], vr[i]));
                    } else {
                        assert(T::ordered(va[va.len() - 1], vr[i]));
                    }
                } else {
                    assert(T::ordered(vr[j], vr[i]));
                }
            }
            assert forall|i: int, k: int|
                0 <= i < nr.len() && 0 <= k < views(a@).len() implies #[trigger] T::ordered(
                views(a@)[k],
                nr[i],
            ) by {
                assert(views(a@)[k] == va[k]);
                if i < nr.len() - 1 {
                    assert(T::ordered(va[k], vr[i]));
                } else {
                    assert(T::ordered(va[k], x@));
                }
            }
            assert forall|i: int, k: int|
                0 <= i < nr.len() && 0 <= k < views(b@).len() implies #[trigger] T::ordered(
                views(b@)[k],
                nr[i],
            ) by {
                assert(views(b@)[k] == vb[k]);
                if i < nr.len() - 1 {
                    assert(T::ordered(vb[k], vr[i]));
                } else {
                    assert(T::ordered(vb[k], x@));
                }
            }
            assert(nr.to_multiset().add(views(a@).to_multiset()).add(views(b@).to_multiset())
                =~= total);
        }
    }
    let mut r: Vec<T> = Vec::new();
    while rev.len() > 0
        invariant
            forall|i: int, j: int|
                0 <= i < j < rev.len() ==> #[trigger] T::ordered(
                    views(rev@)[j],
                    views(rev@)[i],
                ),
            sorted_by_key::<T>(views(r@)),
            forall|i: int, k: int|
                0 <= i < r.len() && 0 <= k < rev.len() ==> #[trigger] T::ordered(
                    views(r@)[i],
                    views(rev@)[k],
                ),
            views(r@).to_multiset().add(views(rev@).to_multiset()) == total,
        decreases rev.len(),
    {
        let ghost old_rev = rev@;
        let ghost old_r = r@;
        let ghost vr = views(rev@);
        let ghost vo = views(r@);
        let x = rev.pop().unwrap();
        proof {
            lemma_views_drop_last(old_rev);
            assert(x@ == vr.last());
            assert(views(rev@) == vr.drop_last());
            assert forall|k: int| 0 <= k < vr.len() implies #[trigger] T::ordered(
                x@,
                vr[k],
            ) by {
                if k < vr.len() - 1 {
                    assert(T::ordered(vr[vr.len() - 1], vr[k]));
                } else {
                    T::lemma_ordered_total(x@, x@);
                }
            }
        }
        r.push(x);
        proof {
            lemma_views_push(old_r, x);
            let nr = views(r@);
            assert(nr == vo.push(x@));
            assert forall|i: int, j: int| 0 <= i < j < nr.len() implies #[trigger] T::ordered(
                nr[i],
                nr[j],
            ) by {
                if j == nr.len() - 1 {
                    assert(T::ordered(vo[i], vr[vr.len() - 1]));
                } else {
                    assert(T::ordered(vo[i], vo[j]));
                }
            }
            assert forall|i: int, k: int|
                0 <= i < nr.len() && 0 <= k < views(rev@).len() implies #[trigger] T::ordered(
                nr[i],
                views(rev@)[k],
            ) by {
                assert(views(rev@)[k] == vr[k]);
                if i < nr.len() - 1 {
                    assert(T::ordered(vo[i], vr[k]));
                } else {
                    assert(T::ordered(x@, vr[k]));
                }
            }
            assert(nr.to_multiset().add(views(rev@).to_multiset()) =~= total);
        }
    }
    proof {
        assert(views(rev@).to_multiset() =~= Multiset::empty());
        assert(views(r@).to_multiset() =~= total);
    }
    r
}

} // verus!
