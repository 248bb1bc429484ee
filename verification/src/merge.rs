//! Merge sort: a sequential divide-and-conquer sort that allocates new
//! storage for merged runs instead of mutating in place. The merge step is
//! pinned to an exact specification, including its tie rule: the right-hand
//! run's head is taken first exactly when it is strictly smaller, so on ties
//! the left-hand run's head comes first.

use vstd::prelude::*;

use crate::order::TotalOrder;
use crate::order::sorted;
use crate::order::strictly_less;
use crate::seqs::lemma_permutation_preserves_forall;

verus! {

/// The merge of two runs, head by head: the right-hand head is taken exactly
/// when it is strictly smaller than the left-hand head, so a tie yields the
/// left-hand head.
pub open spec fn merge_seqs<T: TotalOrder>(a: Seq<T>, b: Seq<T>) -> Seq<T>
    decreases a.len() + b.len(),
{
    if a.len() == 0 {
        b
    } else if b.len() == 0 {
        a
    } else if strictly_less(b[0], a[0]) {
        seq![b[0]] + merge_seqs(a, b.drop_first())
    } else {
        seq![a[0]] + merge_seqs(a.drop_first(), b)
    }
}

/// What merge sort returns: split at the midpoint, sort both halves, merge.
pub open spec fn merge_sort_spec<T: TotalOrder>(s: Seq<T>) -> Seq<T>
    decreases s.len(),
{
    if s.len() <= 1 {
        s
    } else {
        merge_seqs(
            merge_sort_spec(s.subrange(0, s.len() as int / 2)),
            merge_sort_spec(s.subrange(s.len() as int / 2, s.len() as int)),
        )
    }
}

/// The merge of two runs holds exactly the elements of both.
pub proof fn lemma_merge_seqs_multiset<T: TotalOrder>(a: Seq<T>, b: Seq<T>)
    ensures
        merge_seqs(a, b).to_multiset() == (a + b).to_multiset(),
    decreases a.len() + b.len(),
{
    broadcast use vstd::seq_lib::lemma_multiset_commutative;
    broadcast use vstd::multiset::group_multiset_axioms;

    if a.len() == 0 {
        assert(a + b =~= b);
    } else if b.len() == 0 {
        assert(a + b =~= a);
    } else if strictly_less(b[0], a[0]) {
        lemma_merge_seqs_multiset(a, b.drop_first());
        assert(b =~= seq![b[0]] + b.drop_first());
        assert(merge_seqs(a, b).to_multiset() =~= (a + b).to_multiset());
    } else {
        lemma_merge_seqs_multiset(a.drop_first(), b);
        assert(a =~= seq![a[0]] + a.drop_first());
        assert(merge_seqs(a, b).to_multiset() =~= (a + b).to_multiset());
    }
}

/// The merge of two sorted runs is sorted.
pub proof fn lemma_merge_seqs_sorted<T: TotalOrder>(a: Seq<T>, b: Seq<T>)
    requires
        sorted(a),
        sorted(b),
    ensures
        sorted(merge_seqs(a, b)),
    decreases a.len() + b.len(),
{
    if a.len() == 0 || b.len() == 0 {
    } else if strictly_less(b[0], a[0]) {
        let head = b[0];
        let rest = b.drop_first();
        assert(sorted(rest));
        lemma_merge_seqs_sorted(a, rest);
        lemma_merge_seqs_multiset(a, rest);
        let m = merge_seqs(a, rest);
        let atleast = |e: T| head.le(e);
        assert forall|k: int| 0 <= k < (a + rest).len() implies #[trigger] atleast(
            (a + rest)[k],
        ) by {
            T::lemma_le_total(head, a[0]);
            if k < a.len() {
                if k > 0 {
                    T::lemma_le_transitive(head, a[0], a[k]);
                }
            } else {
                assert((a + rest)[k] == b[k - a.len() + 1]);
            }
        };
        lemma_permutation_preserves_forall(a + rest, m, atleast);
        assert forall|i: int, j: int|
            0 <= i < j < (seq![head] + m).len() implies #[trigger] (seq![head] + m)[i].le(
            #[trigger] (seq![head] + m)[j],
        ) by {
            if i == 0 {
                assert(atleast(m[j - 1]));
            }
        };
    } else {
        let head = a[0];
        let rest = a.drop_first();
        assert(sorted(rest));
        lemma_merge_seqs_sorted(rest, b);
        lemma_merge_seqs_multiset(rest, b);
        let m = merge_seqs(rest, b);
        let atleast = |e: T| head.le(e);
        assert forall|k: int| 0 <= k < (rest + b).len() implies #[trigger] atleast(
            (rest + b)[k],
        ) by {
            if k < rest.len() {
                assert((rest + b)[k] == a[k + 1]);
            } else {
                if k > rest.len() {
                    T::lemma_le_transitive(head, b[0], b[k - rest.len()]);
                }
            }
        };
        lemma_permutation_preserves_forall(rest + b, m, atleast);
        assert forall|i: int, j: int|
            0 <= i < j < (seq![head] + m).len() implies #[trigger] (seq![head] + m)[i].le(
            #[trigger] (seq![head] + m)[j],
        ) by {
            if i == 0 {
                assert(atleast(m[j - 1]));
            }
        };
    }
}

/// Merge sort returns a sorted permutation of its input.
pub proof fn lemma_merge_sort_spec_properties<T: TotalOrder>(s: Seq<T>)
    ensures
        sorted(merge_sort_spec(s)),
        merge_sort_spec(s).to_multiset() == s.to_multiset(),
    decreases s.len(),
{
    broadcast use vstd::seq_lib::lemma_multiset_commutative;

    if s.len() <= 1 {
    } else {
        let h1 = s.subrange(0, s.len() as int / 2);
        let h2 = s.subrange(s.len() as int / 2, s.len() as int);
        lemma_merge_sort_spec_properties(h1);
        lemma_merge_sort_spec_properties(h2);
        lemma_merge_seqs_sorted(merge_sort_spec(h1), merge_sort_spec(h2));
        lemma_merge_seqs_multiset(merge_sort_spec(h1), merge_sort_spec(h2));
        assert(s =~= h1 + h2);
        assert(merge_sort_spec(s).to_multiset() =~= s.to_multiset());
    }
}

/// The tie rule of the merge, stated on the runs' heads: when the right-hand
/// run's head is strictly smaller it is placed first, and otherwise — in
/// particular on a tie — the left-hand run's head is placed first.
pub proof fn lemma_merge_tie_prefers_left<T: TotalOrder>(a: Seq<T>, b: Seq<T>)
    requires
        a.len() > 0,
        b.len() > 0,
    ensures
        strictly_less(b[0], a[0]) ==> merge_seqs(a, b)[0] == b[0],
        !strictly_less(b[0], a[0]) ==> merge_seqs(a, b)[0] == a[0],
{
}

/// Merge sort: consumes its input and returns a newly allocated sequence,
/// the merge-sort of the input — in particular a sorted permutation of it.
pub fn merge_sort<T: TotalOrder>(v: Vec<T>) -> (r: Vec<T>)
    ensures
        r@ == merge_sort_spec(v@),
        sorted(r@),
        r@.to_multiset() == v@.to_multiset(),
    decreases v.len(),
{
    let ghost orig = v@;
    proof {
        lemma_merge_sort_spec_properties(orig);
    }
    let mut v = v;
    let len = v.len();
    if len <= 1 {
        return v;
    }
    let b = v.split_off(len / 2);
    let a = merge_sort(v);
    let b = merge_sort(b);
    let ghost a0 = a@;
    let ghost b0 = b@;
    let mut a = a;
    let mut b = b;
    let mut res: Vec<T> = Vec::new();
    while a.len() > 0 && b.len() > 0
        invariant
            merge_seqs(a0, b0) == res@ + merge_seqs(a@, b@),
        decreases a.len() + b.len(),
    {
        let ghost pa = a@;
        let ghost pb = b@;
        let ghost pr = res@;
        if b[0].lt(&a[0]) {
            let x = b.remove(0);
            res.push(x);
            proof {
                assert(b@ =~= pb.drop_first());
                assert(merge_seqs(pa, pb) == seq![x] + merge_seqs(pa, pb.drop_first()));
                assert(pr + merge_seqs(pa, pb) =~= res@ + merge_seqs(a@, b@));
            }
        } else {
            let x = a.remove(0);
            res.push(x);
            proof {
                assert(a@ =~= pa.drop_first());
                assert(merge_seqs(pa, pb) == seq![x] + merge_seqs(pa.drop_first(), pb));
                assert(pr + merge_seqs(pa, pb) =~= res@ + merge_seqs(a@, b@));
            }
        }
    }
    let ghost rmid = res@;
    let ghost am = a@;
    let ghost bm = b@;
    res.append(&mut a);
    res.append(&mut b);
    proof {
        assert(res@ =~= rmid + merge_seqs(am, bm));
        assert(res@ == merge_sort_spec(orig));
    }
    res
}

} // verus!
