//! A binary search tree with ordered insertion. Its view is the in-order
//! sequence of its elements; the search-tree invariant makes that sequence
//! sorted.

use vstd::prelude::*;

use crate::order::TotalOrder;
use crate::order::sorted;
use crate::order::strictly_less;
use crate::seqs::lemma_insertion_preserves_forall;

verus! {

/// A binary tree: empty, or a boxed node.
pub struct BinTree<T>(Option<Box<BinData<T>>>);

/// A node: an element and its two subtrees.
pub struct BinData<T> {
    data: T,
    left: BinTree<T>,
    right: BinTree<T>,
}

impl<T> BinTree<T> {
    /// The elements of the tree, in in-order traversal order.
    pub closed spec fn elems(self) -> Seq<T>
        decreases self,
    {
        match self.0 {
            Option::Some(b) => b.left.elems() + seq![b.data] + b.right.elems(),
            Option::None => Seq::empty(),
        }
    }
}

impl<T> View for BinTree<T> {
    type V = Seq<T>;

    open spec fn view(&self) -> Seq<T> {
        self.elems()
    }
}

impl<T: TotalOrder> BinTree<T> {
    /// The search-tree invariant: in every node, the left subtree holds only
    /// elements strictly below the node's element and the right subtree only
    /// elements at least it.
    pub closed spec fn wf(self) -> bool
        decreases self,
    {
        match self.0 {
            Option::Some(b) => {
                &&& b.left.wf()
                &&& b.right.wf()
                &&& forall|k: int|
                    0 <= k < b.left.elems().len() ==> strictly_less(
                        #[trigger] b.left.elems()[k],
                        b.data,
                    )
                &&& forall|k: int|
                    0 <= k < b.right.elems().len() ==> !strictly_less(
                        #[trigger] b.right.elems()[k],
                        b.data,
                    )
            },
            Option::None => true,
        }
    }

    /// An empty tree.
    pub fn new() -> (t: Self)
        ensures
            t@ == Seq::<T>::empty(),
            t.wf(),
    {
        BinTree(None)
    }

    /// Inserts `data` at the position the comparisons lead to: strictly
    /// smaller elements go left, all others right. The tree keeps its
    /// invariant and gains exactly the new element.
    pub fn add_sorted(&mut self, data: T)
        requires
            old(self).wf(),
        ensures
            final(self).wf(),
            final(self)@.to_multiset() == old(self)@.to_multiset().insert(data),
        decreases *old(self),
    {
        broadcast use vstd::seq_lib::lemma_multiset_commutative;
        broadcast use vstd::seq_lib::group_to_multiset_ensures;
        broadcast use vstd::multiset::group_multiset_axioms;

        match self.0.take() {
            Some(mut b) => {
                let ghost oldb = b;
                if data.lt(&b.data) {
                    b.left.add_sorted(data);
                    proof {
                        let pred = (|e: T| strictly_less(e, oldb.data));
                        assert forall|k: int|
                            0 <= k < oldb.left.elems().len() implies #[trigger] pred(
                            oldb.left.elems()[k],
                        ) by {};
                        lemma_insertion_preserves_forall(
                            oldb.left.elems(),
                            b.left.elems(),
                            data,
                            pred,
                        );
                        assert forall|k: int|
                            0 <= k < b.left.elems().len() implies strictly_less(
                            #[trigger] b.left.elems()[k],
                            oldb.data,
                        ) by {
                            assert(pred(b.left.elems()[k]));
                        };
                    }
                } else {
                    b.right.add_sorted(data);
                    proof {
                        let pred = (|e: T| !strictly_less(e, oldb.data));
                        assert forall|k: int|
                            0 <= k < oldb.right.elems().len() implies #[trigger] pred(
                            oldb.right.elems()[k],
                        ) by {};
                        lemma_insertion_preserves_forall(
                            oldb.right.elems(),
                            b.right.elems(),
                            data,
                            pred,
                        );
                        assert forall|k: int|
                            0 <= k < b.right.elems().len() implies !strictly_less(
                            #[trigger] b.right.elems()[k],
                            oldb.data,
                        ) by {
                            assert(pred(b.right.elems()[k]));
                        };
                    }
                }
                self.0 = Some(b);
                proof {
                    assert(self@.to_multiset() =~= old(self)@.to_multiset().insert(data));
                }
            },
            None => {
                self.0 = Some(
                    Box::new(BinData { data, left: BinTree(None), right: BinTree(None) }),
                );
                proof {
                    assert(BinTree::<T>(None)@ =~= Seq::<T>::empty());
                    assert(BinTree::<T>(None).wf());
                    assert(self@ =~= Seq::<T>::empty().push(data));
                }
            },
        }
    }

    /// The in-order sequence of a well-formed tree is sorted.
    pub proof fn lemma_wf_sorted(self)
        requires
            self.wf(),
        ensures
            sorted(self@),
        decreases self,
    {
        match self.0 {
            Option::Some(b) => {
                b.left.lemma_wf_sorted();
                b.right.lemma_wf_sorted();
                let ls = b.left.elems();
                let rs = b.right.elems();
                let n = ls.len() as int;
                assert forall|i: int, j: int| 0 <= i < j < self@.len() implies #[trigger] self@[i].le(
                    #[trigger] self@[j],
                ) by {
                    if i < n {
                        assert(self@[i] == ls[i]);
                        T::lemma_le_total(ls[i], b.data);
                        if j > n {
                            assert(self@[j] == rs[j - n - 1]);
                            T::lemma_le_transitive(ls[i], b.data, rs[j - n - 1]);
                        }
                    } else if i == n {
                        if j > n {
                            assert(self@[j] == rs[j - n - 1]);
                        }
                    } else {
                        assert(self@[i] == rs[i - n - 1]);
                        assert(self@[j] == rs[j - n - 1]);
                    }
                };
            },
            Option::None => {},
        }
    }
}

impl<T: TotalOrder + Copy> BinTree<T> {
    /// The elements as a vector, in in-order traversal order.
    pub fn to_vec(&self) -> (r: Vec<T>)
        ensures
            r@ == self@,
        decreases *self,
    {
        match &self.0 {
            Some(b) => {
                let mut r = b.left.to_vec();
                r.push(b.data);
                let mut tail = b.right.to_vec();
                r.append(&mut tail);
                proof {
                    assert(r@ =~= self@);
                }
                r
            },
            None => Vec::new(),
        }
    }

    /// One row per element, in in-order traversal order: the node's depth
    /// below the starting depth, and the element. The elements are exactly
    /// the tree's, in order.
    pub fn rows(&self, depth: i32) -> (r: Vec<(i32, T)>)
        requires
            depth as int + self@.len() < 0x7fff_ffff,
        ensures
            r@.len() == self@.len(),
            forall|i: int| 0 <= i < r@.len() ==> (#[trigger] r@[i]).1 == self@[i],
        decreases *self,
    {
        match &self.0 {
            Some(b) => {
                let mut r = b.left.rows(depth + 1);
                r.push((depth, b.data));
                let mut tail = b.right.rows(depth + 1);
                r.append(&mut tail);
                r
            },
            None => Vec::new(),
        }
    }
}

} // verus!
