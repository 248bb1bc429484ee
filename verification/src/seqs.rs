//! Facts about sequences shared by the sorting routines: exchanging two
//! elements, carrying a property across a permutation, and the uniqueness of
//! sorted permutations.

use vstd::prelude::*;

use crate::order::TotalOrder;
use crate::order::sorted;

verus! {

/// Exchanges the elements at indices `i` and `j`.
///
/// Relies on `<[T]>::swap`, which swaps the two elements in place.
#[verifier::external_body]
pub(crate) fn swap_at<T>(v: &mut Vec<T>, i: usize, j: usize)
    requires
        i < old(v).len(),
        j < old(v).len(),
    ensures
        final(v)@ == old(v)@.update(i as int, old(v)@[j as int]).update(
            j as int,
            old(v)@[i as int],
        ),
{
    v.swap(i, j);
}

/// Exchanging two elements of a sequence leaves its multiset of elements
/// unchanged.
pub proof fn lemma_swap_preserves_multiset<T>(s: Seq<T>, i: int, j: int)
    requires
        0 <= i < s.len(),
        0 <= j < s.len(),
    ensures
        s.update(i, s[j]).update(j, s[i]).to_multiset() == s.to_multiset(),
{
    broadcast use vstd::seq_lib::group_to_multiset_ensures;
    broadcast use vstd::multiset::group_multiset_axioms;

    if i == j {
        assert(s.update(i, s[i]) =~= s);
    } else {
        assert(s.contains(s[i]));
        assert(s.contains(s[j]));
        let s1 = s.update(i, s[j]);
        assert(s1[j] == s[j]);
        assert(s1.contains(s1[j]));
        assert(s.update(i, s[j]).update(j, s[i]).to_multiset() =~= s.to_multiset());
    }
}

/// A property that holds of every element of a sequence holds of every
/// element of any permutation of it.
pub proof fn lemma_permutation_preserves_forall<T>(a: Seq<T>, b: Seq<T>, pred: spec_fn(T) -> bool)
    requires
        a.to_multiset() == b.to_multiset(),
        forall|k: int| 0 <= k < a.len() ==> #[trigger] pred(a[k]),
    ensures
        forall|k: int| 0 <= k < b.len() ==> #[trigger] pred(b[k]),
{
    broadcast use vstd::seq_lib::group_to_multiset_ensures;

    assert forall|k: int| 0 <= k < b.len() implies #[trigger] pred(b[k]) by {
        assert(b.contains(b[k]));
        assert(b.to_multiset().count(b[k]) > 0);
        assert(a.to_multiset().count(b[k]) > 0);
        assert(a.contains(b[k]));
        let w = choose|w: int| 0 <= w < a.len() && a[w] == b[k];
        assert(pred(a[w]));
    };
}

/// A property that holds of every element of a sequence, and of a value `x`,
/// holds of every element of any sequence whose multiset is the first one's
/// with `x` added.
pub proof fn lemma_insertion_preserves_forall<T>(
    a: Seq<T>,
    b: Seq<T>,
    x: T,
    pred: spec_fn(T) -> bool,
)
    requires
        b.to_multiset() == a.to_multiset().insert(x),
        forall|k: int| 0 <= k < a.len() ==> #[trigger] pred(a[k]),
        pred(x),
    ensures
        forall|k: int| 0 <= k < b.len() ==> #[trigger] pred(b[k]),
{
    broadcast use vstd::seq_lib::group_to_multiset_ensures;
    broadcast use vstd::multiset::group_multiset_axioms;

    assert forall|k: int| 0 <= k < b.len() implies #[trigger] pred(b[k]) by {
        assert(b.contains(b[k]));
        assert(b.to_multiset().count(b[k]) > 0);
        if b[k] != x {
            assert(a.to_multiset().count(b[k]) > 0);
            assert(a.contains(b[k]));
            let w = choose|w: int| 0 <= w < a.len() && a[w] == b[k];
            assert(pred(a[w]));
        }
    };
}

/// Two sorted sequences over the same multiset of elements are identical. In
/// particular, sorting an already-sorted sequence with any of the variants in
/// this crate yields the identical sequence, since each of them returns a
/// sorted permutation of its input.
pub proof fn lemma_sorted_permutation_identical<T: TotalOrder>(s: Seq<T>, t: Seq<T>)
    requires
        sorted(s),
        sorted(t),
        s.to_multiset() == t.to_multiset(),
    ensures
        s == t,
{
    let leq = |a: T, b: T| a.le(b);
    assert forall|x: T| #[trigger] leq(x, x) by {
        T::lemma_le_total(x, x);
    };
    assert forall|x: T, y: T| #[trigger] leq(x, y) && #[trigger] leq(y, x) implies x == y by {
        T::lemma_le_antisymmetric(x, y);
    };
    assert forall|x: T, y: T, z: T| #[trigger] leq(x, y) && #[trigger] leq(y, z) implies leq(
        x,
        z,
    ) by {
        T::lemma_le_transitive(x, y, z);
    };
    assert forall|x: T, y: T| #[trigger] leq(x, y) || #[trigger] leq(y, x) by {
        T::lemma_le_total(x, y);
    };
    assert(vstd::relations::total_ordering(leq));
    assert(vstd::relations::sorted_by(s, leq));
    assert(vstd::relations::sorted_by(t, leq));
    vstd::seq_lib::lemma_sorted_unique(s, t, leq);
    assert(s =~= t);
}

} // verus!
