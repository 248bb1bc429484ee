//! A self-adjusting binary search tree: ordered insertion as in the plain
//! search tree, but every node carries a stored height, and an insertion that
//! leaves one side more than one level deeper rotates the node to shorten
//! that side. Rotations preserve the in-order sequence of elements exactly.
//!
//! A rotation can move an element equal to the new root into its left
//! subtree, so the search-tree invariant here bounds the left side weakly:
//! left elements are at most the node's element, right elements at least it.
//! That is still enough for the in-order sequence to be sorted.
//!
//! Heights are stored in an `i8`, so insertion is bounded to trees of at
//! most 125 elements; a stored height never exceeds the element count.

use vstd::prelude::*;

use crate::order::TotalOrder;
use crate::order::sorted;
use crate::seqs::lemma_insertion_preserves_forall;

verus! {

/// A binary tree: empty, or a boxed node.
pub struct BinTree<T>(Option<Box<BinData<T>>>);

/// A node: an element, the stored height of the subtree rooted here, and the
/// two subtrees.
pub struct BinData<T> {
    data: T,
    h: i8,
    left: BinTree<T>,
    right: BinTree<T>,
}

impl<T> BinTree<T> {
    /// The elements of the tree, in in-order traversal order.
    pub closed spec fn elems(self) -> Seq<T>
        decreases self,
    {
        match self.0 {
            Option::Some(b) => b.left.elems() + seq![b.data] + b.right.elems(),
            Option::None => Seq::empty(),
        }
    }

    /// The stored height of the root node; an empty tree has height zero.
    pub closed spec fn hval(self) -> int {
        match self.0 {
            Option::Some(b) => b.h as int,
            Option::None => 0,
        }
    }

    /// Every stored height is one more than the larger of the children's.
    pub closed spec fn heights_ok(self) -> bool
        decreases self,
    {
        match self.0 {
            Option::Some(b) => {
                &&& b.left.heights_ok()
                &&& b.right.heights_ok()
                &&& b.h as int == 1 + if b.left.hval() >= b.right.hval() {
                    b.left.hval()
                } else {
                    b.right.hval()
                }
            },
            Option::None => true,
        }
    }

    /// Both children's stored heights are consistent; the root's own may be
    /// stale.
    pub closed spec fn kids_ok(self) -> bool {
        match self.0 {
            Option::Some(b) => b.left.heights_ok() && b.right.heights_ok(),
            Option::None => true,
        }
    }

    /// Consistent heights everywhere include consistent heights in the
    /// children.
    pub proof fn lemma_heights_ok_kids(self)
        requires
            self.heights_ok(),
        ensures
            self.kids_ok(),
    {
    }

    /// A consistent stored height lies between zero and the element count.
    pub proof fn lemma_hval_bounds(self)
        requires
            self.heights_ok(),
        ensures
            0 <= self.hval() <= self.elems().len(),
        decreases self,
    {
        match self.0 {
            Option::Some(b) => {
                b.left.lemma_hval_bounds();
                b.right.lemma_hval_bounds();
            },
            Option::None => {},
        }
    }
}

impl<T> View for BinTree<T> {
    type V = Seq<T>;

    open spec fn view(&self) -> Seq<T> {
        self.elems()
    }
}

impl<T: TotalOrder> BinTree<T> {
    /// The search-tree invariant: in every node, the left subtree holds only
    /// elements at most the node's element and the right subtree only
    /// elements at least it.
    pub closed spec fn ordered(self) -> bool
        decreases self,
    {
        match self.0 {
            Option::Some(b) => {
                &&& b.left.ordered()
                &&& b.right.ordered()
                &&& forall|k: int|
                    0 <= k < b.left.elems().len() ==> (#[trigger] b.left.elems()[k]).le(b.data)
                &&& forall|k: int|
                    0 <= k < b.right.elems().len() ==> b.data.le(#[trigger] b.right.elems()[k])
            },
            Option::None => true,
        }
    }

    /// The in-order sequence of an ordered tree is sorted.
    pub proof fn lemma_ordered_sorted(self)
        requires
            self.ordered(),
        ensures
            sorted(self@),
        decreases self,
    {
        match self.0 {
            Option::Some(b) => {
                b.left.lemma_ordered_sorted();
                b.right.lemma_ordered_sorted();
                let ls = b.left.elems();
                let rs = b.right.elems();
                let n = ls.len() as int;
                assert forall|i: int, j: int| 0 <= i < j < self@.len() implies #[trigger] self@[i].le(
                    #[trigger] self@[j],
                ) by {
                    if i < n {
                        assert(self@[i] == ls[i]);
                        if j > n {
                            assert(self@[j] == rs[j - n - 1]);
                            T::lemma_le_transitive(ls[i], b.data, rs[j - n - 1]);
                        }
                    } else if i == n {
                        if j > n {
                            assert(self@[j] == rs[j - n - 1]);
                        }
                    } else {
                        assert(self@[i] == rs[i - n - 1]);
                        assert(self@[j] == rs[j - n - 1]);
                    }
                };
            },
            Option::None => {},
        }
    }

    /// An empty tree.
    pub fn new() -> (t: Self)
        ensures
            t@ == Seq::<T>::empty(),
            t.ordered(),
            t.heights_ok(),
    {
        BinTree(None)
    }

    /// The stored height of the root node; zero for an empty tree.
    pub fn height(&self) -> (r: i8)
        ensures
            r as int == self.hval(),
    {
        match &self.0 {
            Some(t) => t.h,
            None => 0,
        }
    }

    /// Recomputes the root node's stored height from its children's.
    pub fn set_height(&mut self)
        requires
            old(self).kids_ok(),
            old(self)@.len() <= 127,
        ensures
            final(self)@ == old(self)@,
            final(self).heights_ok(),
            old(self).ordered() ==> final(self).ordered(),
    {
        match self.0.take() {
            Some(mut t) => {
                proof {
                    t.left.lemma_hval_bounds();
                    t.right.lemma_hval_bounds();
                }
                let hl = t.left.height();
                let hr = t.right.height();
                t.h = 1 + if hl >= hr {
                    hl
                } else {
                    hr
                };
                self.0 = Some(t);
                proof {
                    assert(self@ =~= old(self)@);
                }
            },
            None => {},
        }
    }

    /// Rotates the root to the right: the left child, if any, becomes the
    /// root. The in-order sequence of elements is unchanged, the invariant
    /// is kept, and both children of the new root carry consistent heights.
    pub fn rot_right(&mut self)
        requires
            old(self).kids_ok(),
            old(self)@.len() <= 126,
        ensures
            final(self)@ == old(self)@,
            old(self).ordered() ==> final(self).ordered(),
            final(self).kids_ok(),
    {
        match self.0.take() {
            Some(bx) => {
                let node = *bx;
                let r = node.rot_right();
                self.0 = Some(r);
                proof {
                    assert(self@ =~= old(self)@);
                }
            },
            None => {},
        }
    }

    /// Rotates the root to the left: the right child, if any, becomes the
    /// root. The in-order sequence of elements is unchanged, the invariant
    /// is kept, and both children of the new root carry consistent heights.
    pub fn rot_left(&mut self)
        requires
            old(self).kids_ok(),
            old(self)@.len() <= 126,
        ensures
            final(self)@ == old(self)@,
            old(self).ordered() ==> final(self).ordered(),
            final(self).kids_ok(),
    {
        match self.0.take() {
            Some(bx) => {
                let node = *bx;
                let r = node.rot_left();
                self.0 = Some(r);
                proof {
                    assert(self@ =~= old(self)@);
                }
            },
            None => {},
        }
    }

    /// Inserts `data` at the position the comparisons lead to — strictly
    /// smaller elements go left, all others right — then rotates the node if
    /// one side has become more than one level deeper than the other. The
    /// tree keeps its invariants and gains exactly the new element.
    pub fn add_sorted(&mut self, data: T)
        requires
            old(self).ordered(),
            old(self).heights_ok(),
            old(self)@.len() <= 125,
        ensures
            final(self).ordered(),
            final(self).heights_ok(),
            final(self)@.to_multiset() == old(self)@.to_multiset().insert(data),
        decreases *old(self),
    {
        broadcast use vstd::seq_lib::lemma_multiset_commutative;
        broadcast use vstd::seq_lib::group_to_multiset_ensures;
        broadcast use vstd::multiset::group_multiset_axioms;

        let rot_dir: i32 = match self.0.take() {
            Some(bx) => {
                let mut b = *bx;
                let ghost oldb = b;
                let dir: i32;
                if data.lt(&b.data) {
                    b.left.add_sorted(data);
                    proof {
                        T::lemma_le_total(data, oldb.data);
                        let pred = (|e: T| e.le(oldb.data));
                        assert forall|k: int|
                            0 <= k < oldb.left.elems().len() implies #[trigger] pred(
                            oldb.left.elems()[k],
                        ) by {};
                        lemma_insertion_preserves_forall(
                            oldb.left.elems(),
                            b.left.elems(),
                            data,
                            pred,
                        );
                        assert forall|k: int|
                            0 <= k < b.left.elems().len() implies (
                        #[trigger] b.left.elems()[k]).le(oldb.data) by {
                            assert(pred(b.left.elems()[k]));
                        };
                        b.left.lemma_hval_bounds();
                        b.right.lemma_hval_bounds();
                    }
                    dir = if b.left.height() - b.right.height() > 1 {
                        1
                    } else {
                        0
                    };
                } else {
                    b.right.add_sorted(data);
                    proof {
                        let pred = (|e: T| oldb.data.le(e));
                        assert forall|k: int|
                            0 <= k < oldb.right.elems().len() implies #[trigger] pred(
                            oldb.right.elems()[k],
                        ) by {};
                        lemma_insertion_preserves_forall(
                            oldb.right.elems(),
                            b.right.elems(),
                            data,
                            pred,
                        );
                        assert forall|k: int|
                            0 <= k < b.right.elems().len() implies oldb.data.le(
                            #[trigger] b.right.elems()[k],
                        ) by {
                            assert(pred(b.right.elems()[k]));
                        };
                        b.left.lemma_hval_bounds();
                        b.right.lemma_hval_bounds();
                    }
                    dir = if b.right.height() - b.left.height() > 1 {
                        -1
                    } else {
                        0
                    };
                }
                self.0 = Some(Box::new(b));
                proof {
                    assert(self@.to_multiset() =~= old(self)@.to_multiset().insert(data));
                }
                dir
            },
            None => {
                self.0 = Some(
                    Box::new(BinData { data, h: 0, left: BinTree(None), right: BinTree(None) }),
                );
                proof {
                    assert(BinTree::<T>(None)@ =~= Seq::<T>::empty());
                    assert(BinTree::<T>(None).ordered());
                    assert(BinTree::<T>(None).heights_ok());
                    assert(self@ =~= Seq::<T>::empty().push(data));
                }
                0
            },
        };
        let ghost mid = *self;
        proof {
            assert(mid@.to_multiset().len() == old(self)@.to_multiset().len() + 1);
            assert(mid@.len() == old(self)@.len() + 1);
        }
        if rot_dir == 1 {
            self.rot_right();
        } else if rot_dir == -1 {
            self.rot_left();
        } else {
            self.set_height();
        }
        proof {
            if self.heights_ok() {
                self.lemma_heights_ok_kids();
            }
        }
        self.set_height();
        proof {
            assert(self@.to_multiset() =~= mid@.to_multiset());
        }
    }
}

impl<T: TotalOrder + Copy> BinTree<T> {
    /// The elements as a vector, in in-order traversal order.
    pub fn to_vec(&self) -> (r: Vec<T>)
        ensures
            r@ == self@,
        decreases *self,
    {
        match &self.0 {
            Some(b) => {
                let mut r = b.left.to_vec();
                r.push(b.data);
                let mut tail = b.right.to_vec();
                r.append(&mut tail);
                proof {
                    assert(r@ =~= self@);
                }
                r
            },
            None => Vec::new(),
        }
    }
}

impl<T: TotalOrder + Copy> BinTree<T> {
    /// One row per element, in in-order traversal order: the stored height
    /// of the node, its depth below the starting depth, and the element.
    /// The elements are exactly the tree's, in order.
    pub fn rows(&self, depth: i32) -> (r: Vec<(i8, i32, T)>)
        requires
            depth as int + self@.len() < 0x7fff_ffff,
        ensures
            r@.len() == self@.len(),
            forall|i: int| 0 <= i < r@.len() ==> (#[trigger] r@[i]).2 == self@[i],
        decreases *self,
    {
        match &self.0 {
            Some(b) => {
                let mut r = b.left.rows(depth + 1);
                r.push((b.h, depth, b.data));
                let mut tail = b.right.rows(depth + 1);
                r.append(&mut tail);
                r
            },
            None => Vec::new(),
        }
    }
}

impl<T> BinData<T> {
    /// The in-order sequence of the subtree rooted at this node.
    pub closed spec fn subtree_elems(self) -> Seq<T> {
        self.left.elems() + seq![self.data] + self.right.elems()
    }
}

impl<T: TotalOrder> BinData<T> {
    /// The search-tree invariant at this node.
    pub closed spec fn subtree_ordered(self) -> bool {
        &&& self.left.ordered()
        &&& self.right.ordered()
        &&& forall|k: int|
            0 <= k < self.left.elems().len() ==> (#[trigger] self.left.elems()[k]).le(self.data)
        &&& forall|k: int|
            0 <= k < self.right.elems().len() ==> self.data.le(#[trigger] self.right.elems()[k])
    }

    /// Both subtrees of this node have consistent stored heights.
    pub closed spec fn subs_ok(self) -> bool {
        self.left.heights_ok() && self.right.heights_ok()
    }

    /// Rotates this node to the right: its left child, if any, takes its
    /// place, and this node becomes that child's right child. The in-order
    /// sequence of the subtree is unchanged.
    pub fn rot_right(self) -> (res: Box<Self>)
        requires
            self.subs_ok(),
            self.subtree_elems().len() <= 126,
        ensures
            res.subtree_elems() == self.subtree_elems(),
            self.subtree_ordered() ==> res.subtree_ordered(),
            res.subs_ok(),
    {
        let ghost orig = self;
        let mut this = self;
        let lbox = match this.left.0.take() {
            Some(b) => b,
            None => {
                return Box::new(this);
            },
        };
        let mut lnode = *lbox;
        let ghost lorig = lnode;
        let ghost ll = lnode.left.elems();
        let ghost ld = lnode.data;
        let ghost lr = lnode.right.elems();
        let ghost d = this.data;
        let ghost r = this.right.elems();
        this.left = BinTree(lnode.right.0.take());
        let ghost pre_inner = this.left;
        proof {
            assert(orig.left.elems() =~= ll + seq![ld] + lr);
            assert(pre_inner == lorig.right);
            assert(lorig.right.heights_ok());
            lorig.right.lemma_heights_ok_kids();
            assert(pre_inner.kids_ok());
        }
        this.left.set_height();
        let ghost thisv = this;
        lnode.right = BinTree(Some(Box::new(this)));
        let ghost pre_right = lnode.right;
        proof {
            assert(pre_right.kids_ok());
            assert(pre_right.elems() =~= lr + seq![d] + r);
        }
        lnode.right.set_height();
        proof {
            lnode.left.lemma_hval_bounds();
            lnode.right.lemma_hval_bounds();
        }
        let hl = lnode.left.height();
        let hr = lnode.right.height();
        lnode.h = 1 + if hl >= hr {
            hl
        } else {
            hr
        };
        proof {
            assert(lnode.subtree_elems() =~= orig.subtree_elems());
            if orig.subtree_ordered() {
                assert(lorig.subtree_ordered());
                // the old node's element sits at the left run's end, so the
                // left child's bound applies to it
                assert(orig.left.elems()[ll.len() as int] == ld);
                assert(ld.le(d));
                assert forall|k: int| 0 <= k < lr.len() implies (#[trigger] lr[k]).le(d) by {
                    assert(orig.left.elems()[ll.len() + 1 + k] == lr[k]);
                };
                assert(pre_right.ordered()) by {
                    assert(thisv.left.elems() =~= lr);
                    assert(thisv.right == orig.right);
                };
                assert(lnode.right.ordered());
                assert(lnode.right.elems() =~= lr + seq![d] + r);
                assert forall|k: int|
                    0 <= k < lnode.right.elems().len() implies lnode.data.le(
                    #[trigger] lnode.right.elems()[k],
                ) by {
                    let e = lnode.right.elems()[k];
                    if k < lr.len() {
                        assert(e == lr[k]);
                        assert(ld.le(lr[k]));
                    } else if k == lr.len() {
                        assert(e == d);
                    } else {
                        assert(e == r[k - lr.len() - 1]);
                        assert(d.le(e));
                        T::lemma_le_transitive(ld, d, e);
                    }
                };
                assert forall|k: int|
                    0 <= k < lnode.left.elems().len() implies (
                #[trigger] lnode.left.elems()[k]).le(lnode.data) by {
                    assert(lnode.left.elems()[k] == ll[k]);
                    assert(ll[k].le(ld));
                };
            }
        }
        Box::new(lnode)
    }

    /// Rotates this node to the left: its right child, if any, takes its
    /// place, and this node becomes that child's left child. The in-order
    /// sequence of the subtree is unchanged.
    pub fn rot_left(self) -> (res: Box<Self>)
        requires
            self.subs_ok(),
            self.subtree_elems().len() <= 126,
        ensures
            res.subtree_elems() == self.subtree_elems(),
            self.subtree_ordered() ==> res.subtree_ordered(),
            res.subs_ok(),
    {
        let ghost orig = self;
        let mut this = self;
        let rbox = match this.right.0.take() {
            Some(b) => b,
            None => {
                return Box::new(this);
            },
        };
        let mut rnode = *rbox;
        let ghost rorig = rnode;
        let ghost rl = rnode.left.elems();
        let ghost rd = rnode.data;
        let ghost rr = rnode.right.elems();
        let ghost d = this.data;
        let ghost l = this.left.elems();
        this.right = BinTree(rnode.left.0.take());
        let ghost pre_inner = this.right;
        proof {
            assert(orig.right.elems() =~= rl + seq![rd] + rr);
            assert(pre_inner == rorig.left);
            assert(rorig.left.heights_ok());
            rorig.left.lemma_heights_ok_kids();
            assert(pre_inner.kids_ok());
        }
        this.right.set_height();
        let ghost thisv = this;
        rnode.left = BinTree(Some(Box::new(this)));
        let ghost pre_left = rnode.left;
        proof {
            assert(pre_left.kids_ok());
            assert(pre_left.elems() =~= l + seq![d] + rl);
        }
        rnode.left.set_height();
        proof {
            rnode.left.lemma_hval_bounds();
            rnode.right.lemma_hval_bounds();
        }
        let hl = rnode.left.height();
        let hr = rnode.right.height();
        rnode.h = 1 + if hl >= hr {
            hl
        } else {
            hr
        };
        proof {
            assert(rnode.subtree_elems() =~= orig.subtree_elems());
            if orig.subtree_ordered() {
                assert(rorig.subtree_ordered());
                // the old node's element heads the right run, so the right
                // child's bound applies to it
                assert(orig.right.elems()[rl.len() as int] == rd);
                assert(d.le(rd));
                assert forall|k: int| 0 <= k < rl.len() implies d.le(#[trigger] rl[k]) by {
                    assert(orig.right.elems()[k] == rl[k]);
                };
                assert(pre_left.ordered()) by {
                    assert(thisv.right.elems() =~= rl);
                    assert(thisv.left == orig.left);
                };
                assert(rnode.left.ordered());
                assert(rnode.left.elems() =~= l + seq![d] + rl);
                assert forall|k: int|
                    0 <= k < rnode.left.elems().len() implies (
                #[trigger] rnode.left.elems()[k]).le(rnode.data) by {
                    let e = rnode.left.elems()[k];
                    if k < l.len() {
                        assert(e == l[k]);
                        assert(e.le(d));
                        T::lemma_le_transitive(e, d, rd);
                    } else if k == l.len() {
                        assert(e == d);
                    } else {
                        assert(e == rl[k - l.len() - 1]);
                        assert(rl[k - l.len() - 1].le(rd));
                    }
                };
                assert forall|k: int|
                    0 <= k < rnode.right.elems().len() implies rnode.data.le(
                    #[trigger] rnode.right.elems()[k],
                ) by {
                    assert(rnode.right.elems()[k] == rr[k]);
                    assert(rd.le(rr[k]));
                };
            }
        }
        Box::new(rnode)
    }
}

} // verus!
