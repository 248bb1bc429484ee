//! Quicksort: a randomized in-place partition step shared by three variants
//! of the sort — sequential recursion, one OS thread forked per left
//! partition, and structured fork-join over a work-stealing pool.

use vstd::prelude::*;

use crate::order::TotalOrder;
use crate::order::sorted;
use crate::order::strictly_less;
use crate::prng::DEFAULT_SEED;
use crate::prng::RandGen;
use crate::seqs::lemma_permutation_preserves_forall;
use crate::seqs::lemma_swap_preserves_multiset;
use crate::seqs::swap_at;

verus! {

/// Rearranges `v` in place around a randomly chosen pivot value and returns
/// the pivot's final index `p`: exactly the elements strictly below the pivot
/// value end up before position `p`, so `v[x] < v[p]` holds if and only if
/// `x < p`. The multiset of elements is unchanged.
pub fn pivot<T: TotalOrder>(v: &mut Vec<T>) -> (p: usize)
    requires
        old(v).len() >= 1,
    ensures
        p < final(v).len(),
        final(v).len() == old(v).len(),
        final(v)@.to_multiset() == old(v)@.to_multiset(),
        forall|x: int|
            0 <= x < final(v).len() ==> (strictly_less(
                #[trigger] final(v)@[x],
                final(v)@[p as int],
            ) <==> x < p),
{
    let len = v.len();
    let ghost orig = v@;
    let mut rng = RandGen::new(DEFAULT_SEED);
    let r = rng.next_val(len);
    proof {
        lemma_swap_preserves_multiset(v@, r as int, 0);
    }
    swap_at(v, r, 0);
    let mut p: usize = 0;
    let mut i: usize = 1;
    while i < len
        invariant
            v.len() == len,
            len >= 1,
            p < i <= len,
            v@.to_multiset() == orig.to_multiset(),
            forall|k: int| 0 <= k < p ==> strictly_less(#[trigger] v@[k], v@[p as int]),
            forall|k: int| p < k < i ==> !strictly_less(#[trigger] v@[k], v@[p as int]),
        decreases len - i,
    {
        if v[i].lt(&v[p]) {
            let ghost s0 = v@;
            proof {
                lemma_swap_preserves_multiset(s0, p + 1, i as int);
            }
            swap_at(v, p + 1, i);
            let ghost s1 = v@;
            proof {
                lemma_swap_preserves_multiset(s1, p as int, p + 1);
            }
            swap_at(v, p, p + 1);
            p += 1;
        }
        i += 1;
    }
    proof {
        T::lemma_le_total(v@[p as int], v@[p as int]);
    }
    p
}

/// Sortedness and permutation of the reassembled buffer after a partition
/// step: if the elements before the pivot were all strictly below it, those
/// after it all at least it, and each side has been replaced by a sorted
/// permutation of itself, then putting the sides back around the pivot yields
/// a sorted permutation of the whole.
proof fn lemma_partition_reassembly<T: TotalOrder>(
    whole: Seq<T>,
    left0: Seq<T>,
    piv: T,
    right0: Seq<T>,
    left1: Seq<T>,
    right1: Seq<T>,
)
    requires
        whole == left0 + seq![piv] + right0,
        forall|k: int| 0 <= k < left0.len() ==> strictly_less(#[trigger] left0[k], piv),
        forall|k: int| 0 <= k < right0.len() ==> !strictly_less(#[trigger] right0[k], piv),
        sorted(left1),
        left1.to_multiset() == left0.to_multiset(),
        sorted(right1),
        right1.to_multiset() == right0.to_multiset(),
    ensures
        sorted(left1 + seq![piv] + right1),
        (left1 + seq![piv] + right1).to_multiset() == whole.to_multiset(),
{
    broadcast use vstd::seq_lib::lemma_multiset_commutative;

    let below = |e: T| !piv.le(e);
    let above = |e: T| piv.le(e);
    assert(forall|k: int| 0 <= k < left0.len() ==> #[trigger] below(left0[k]));
    assert(forall|k: int| 0 <= k < right0.len() ==> #[trigger] above(right0[k]));
    lemma_permutation_preserves_forall(left0, left1, below);
    lemma_permutation_preserves_forall(right0, right1, above);
    let cat = left1 + seq![piv] + right1;
    let n1 = left1.len() as int;
    assert forall|i: int, j: int| 0 <= i < j < cat.len() implies #[trigger] cat[i].le(
        #[trigger] cat[j],
    ) by {
        if i < n1 {
            assert(cat[i] == left1[i]);
            assert(below(left1[i]));
            T::lemma_le_total(left1[i], piv);
            if j < n1 {
                assert(cat[j] == left1[j]);
            } else if j == n1 {
                assert(cat[j] == piv);
            } else {
                assert(cat[j] == right1[j - n1 - 1]);
                assert(above(right1[j - n1 - 1]));
                T::lemma_le_transitive(left1[i], piv, right1[j - n1 - 1]);
            }
        } else if i == n1 {
            assert(cat[i] == piv);
            assert(cat[j] == right1[j - n1 - 1]);
            assert(above(right1[j - n1 - 1]));
        } else {
            assert(cat[i] == right1[i - n1 - 1]);
            assert(cat[j] == right1[j - n1 - 1]);
        }
    };
    assert(cat.to_multiset() =~= left1.to_multiset().add(
        seq![piv].to_multiset().add(right1.to_multiset()),
    ));
    assert(whole.to_multiset() =~= left0.to_multiset().add(
        seq![piv].to_multiset().add(right0.to_multiset()),
    ));
}

/// Sequential quicksort: sorts `v` in place into non-decreasing order,
/// leaving its multiset of elements unchanged.
pub fn quick_sort<T: TotalOrder>(v: &mut Vec<T>)
    ensures
        sorted(final(v)@),
        final(v)@.to_multiset() == old(v)@.to_multiset(),
    decreases old(v).len(),
{
    let len = v.len();
    if len <= 1 {
        return ;
    }
    let p = pivot(v);
    let ghost whole = v@;
    let mut right = v.split_off(p + 1);
    let piv = v.pop().unwrap();
    let ghost left0 = v@;
    let ghost right0 = right@;
    proof {
        assert(whole =~= left0 + seq![piv] + right0);
    }
    quick_sort(v);
    quick_sort(&mut right);
    let ghost left1 = v@;
    let ghost right1 = right@;
    v.push(piv);
    v.append(&mut right);
    proof {
        lemma_partition_reassembly(whole, left0, piv, right0, left1, right1);
        assert(v@ =~= left1 + seq![piv] + right1);
    }
}

/// Forks one new OS thread for the left partition and sorts the right
/// partition on the calling thread, then joins.
///
/// Relies on `crossbeam_utils::thread::scope` and `Scope::spawn`: the spawned
/// closure runs on a newly spawned thread, every spawned thread is joined
/// before `scope` returns, and a panic in the child surfaces as an `Err` that
/// the `unwrap` turns into a panic rather than a silent partial sort. Both
/// closures only call the verified `threaded_quick_sort`.
#[verifier::external_body]
fn fork_join_sorts<T: TotalOrder + Send>(left: &mut Vec<T>, right: &mut Vec<T>)
    ensures
        sorted(final(left)@),
        final(left)@.to_multiset() == old(left)@.to_multiset(),
        sorted(final(right)@),
        final(right)@.to_multiset() == old(right)@.to_multiset(),
{
    crossbeam_utils::thread::scope(|s| {
        s.spawn(|_| threaded_quick_sort(left));
        threaded_quick_sort(right);
    }).unwrap();
}

/// Quicksort with unbounded fork-join concurrency: each partition step hands
/// the left side to a freshly spawned OS thread while the right side is
/// sorted in the calling context, joining before returning. One thread is
/// spawned per partition step with a non-trivial left side, so the worst-case
/// thread count grows linearly with the input — acceptable for moderate
/// inputs; prefer `quick_sort_rayon` where that risk matters.
pub fn threaded_quick_sort<T: TotalOrder + Send>(v: &mut Vec<T>)
    ensures
        sorted(final(v)@),
        final(v)@.to_multiset() == old(v)@.to_multiset(),
{
    let len = v.len();
    if len <= 1 {
        return ;
    }
    let p = pivot(v);
    let ghost whole = v@;
    let mut right = v.split_off(p + 1);
    let piv = v.pop().unwrap();
    let ghost left0 = v@;
    let ghost right0 = right@;
    proof {
        assert(whole =~= left0 + seq![piv] + right0);
    }
    fork_join_sorts(v, &mut right);
    let ghost left1 = v@;
    let ghost right1 = right@;
    v.push(piv);
    v.append(&mut right);
    proof {
        lemma_partition_reassembly(whole, left0, piv, right0, left1, right1);
        assert(v@ =~= left1 + seq![piv] + right1);
    }
}

/// Submits both halves of a partition step to the work-stealing pool and
/// blocks until both are sorted.
///
/// Relies on `rayon::join`: both closures are always run to completion before
/// `join` returns, potentially in parallel on a bounded pool of worker
/// threads. Both closures only call the verified `quick_sort_rayon`.
#[verifier::external_body]
fn pool_join_sorts<T: TotalOrder + Send>(left: &mut Vec<T>, right: &mut Vec<T>)
    ensures
        sorted(final(left)@),
        final(left)@.to_multiset() == old(left)@.to_multiset(),
        sorted(final(right)@),
        final(right)@.to_multiset() == old(right)@.to_multiset(),
{
    rayon::join(|| quick_sort_rayon(left), || quick_sort_rayon(right));
}

/// Quicksort with bounded fork-join concurrency: the same recursion shape as
/// `threaded_quick_sort`, but both sides of each partition step are submitted
/// to a shared work-stealing thread pool through a structured join, so the
/// number of worker threads stays fixed however large the input is.
pub fn quick_sort_rayon<T: TotalOrder + Send>(v: &mut Vec<T>)
    ensures
        sorted(final(v)@),
        final(v)@.to_multiset() == old(v)@.to_multiset(),
{
    let len = v.len();
    if len <= 1 {
        return ;
    }
    let p = pivot(v);
    let ghost whole = v@;
    let mut right = v.split_off(p + 1);
    let piv = v.pop().unwrap();
    let ghost left0 = v@;
    let ghost right0 = right@;
    proof {
        assert(whole =~= left0 + seq![piv] + right0);
    }
    pool_join_sorts(v, &mut right);
    let ghost left1 = v@;
    let ghost right1 = right@;
    v.push(piv);
    v.append(&mut right);
    proof {
        lemma_partition_reassembly(whole, left0, piv, right0, left1, right1);
        assert(v@ =~= left1 + seq![piv] + right1);
    }
}

} // verus!
