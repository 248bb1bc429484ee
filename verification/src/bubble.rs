//! Bubble sort: a quadratic in-place comparison sort over shrinking suffixes,
//! with an early exit once a full pass performs no swap.

use vstd::prelude::*;

use crate::order::TotalOrder;
use crate::order::sorted;
use crate::seqs::lemma_swap_preserves_multiset;
use crate::seqs::swap_at;

verus! {

/// Sorts `v` in place: afterwards `v` is in non-decreasing order and holds
/// the same multiset of elements as before.
pub fn bubble_sort<T: TotalOrder>(v: &mut Vec<T>)
    ensures
        sorted(final(v)@),
        final(v)@.to_multiset() == old(v)@.to_multiset(),
{
    let len = v.len();
    let ghost orig = v@;
    let mut i: usize = 1;
    let mut done = false;
    while i < len && !done
        invariant
            1 <= i,
            i <= len || len <= 1,
            v.len() == len,
            v@.to_multiset() == orig.to_multiset(),
            // the suffix settled so far is in order
            forall|a: int, b: int|
                len - i + 1 <= a < b < len ==> #[trigger] v@[a].le(#[trigger] v@[b]),
            // everything before the settled suffix is at most everything in it
            forall|a: int, b: int|
                0 <= a < len - i + 1 <= b < len ==> #[trigger] v@[a].le(#[trigger] v@[b]),
            done ==> sorted(v@),
        decreases len - i,
    {
        let end = len - i + 1;
        let mut n: usize = 1;
        let mut no_swaps = true;
        while n < end
            invariant
                1 <= n <= end,
                1 <= i < len,
                end == len - i + 1,
                v.len() == len,
                v@.to_multiset() == orig.to_multiset(),
                forall|a: int, b: int| end <= a < b < len ==> #[trigger] v@[a].le(#[trigger] v@[b]),
                forall|a: int, b: int|
                    0 <= a < end <= b < len ==> #[trigger] v@[a].le(#[trigger] v@[b]),
                // the element at `n - 1` tops the prefix scanned so far
                forall|m: int| 0 <= m < n - 1 ==> #[trigger] v@[m].le(v@[n - 1]),
                no_swaps ==> forall|a: int, b: int|
                    0 <= a < b < n ==> #[trigger] v@[a].le(#[trigger] v@[b]),
            decreases end - n,
        {
            let ghost prev = v@;
            if v[n].lt(&v[n - 1]) {
                proof {
                    T::lemma_le_total(prev[n as int], prev[n - 1]);
                    lemma_swap_preserves_multiset(prev, n as int, n - 1);
                }
                swap_at(v, n, n - 1);
                no_swaps = false;
                proof {
                    assert forall|m: int| 0 <= m < n implies #[trigger] v@[m].le(v@[n as int]) by {
                    };
                }
            } else {
                proof {
                    assert(prev[n - 1].le(prev[n as int]));
                    assert forall|m: int| 0 <= m < n implies #[trigger] v@[m].le(v@[n as int]) by {
                        if m < n - 1 {
                            T::lemma_le_transitive(v@[m], v@[n - 1], v@[n as int]);
                        }
                    };
                    if no_swaps {
                        assert forall|a: int, b: int|
                            0 <= a < b < n + 1 implies #[trigger] v@[a].le(
                            #[trigger] v@[b],
                        ) by {
                            if b == n && a < n - 1 {
                                T::lemma_le_transitive(v@[a], v@[n - 1], v@[n as int]);
                            }
                        };
                    }
                }
            }
            n += 1;
        }
        proof {
            assert forall|a: int, b: int|
                0 <= a < len - (i + 1) + 1 <= b < len implies #[trigger] v@[a].le(
                #[trigger] v@[b],
            ) by {
                if b == n - 1 {
                    assert(v@[a].le(v@[n - 1]));
                }
            };
            assert forall|a: int, b: int|
                len - (i + 1) + 1 <= a < b < len implies #[trigger] v@[a].le(
                #[trigger] v@[b],
            ) by {
            };
        }
        if no_swaps {
            proof {
                assert forall|a: int, b: int| 0 <= a < b < len implies #[trigger] v@[a].le(
                    #[trigger] v@[b],
                ) by {
                };
            }
            done = true;
        }
        i += 1;
    }
}

} // verus!
