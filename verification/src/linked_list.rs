//! A singly-linked list with ordered insertion. Its view is the sequence of
//! its elements, front first.

use vstd::prelude::*;

use crate::order::TotalOrder;
use crate::order::sorted;
use crate::order::strictly_less;

verus! {

/// A singly-linked list: empty, or a head element and a boxed tail.
pub struct LinkedList<T>(Option<(T, Box<LinkedList<T>>)>);

impl<T> LinkedList<T> {
    /// The elements of the list, front first.
    pub closed spec fn elems(self) -> Seq<T>
        decreases self,
    {
        match self.0 {
            Option::Some(pair) => seq![pair.0] + pair.1.elems(),
            Option::None => Seq::empty(),
        }
    }
}

impl<T> View for LinkedList<T> {
    type V = Seq<T>;

    open spec fn view(&self) -> Seq<T> {
        self.elems()
    }
}

/// Where ordered insertion puts a value: before the first element that the
/// value comes strictly before, and at the end if there is none.
pub open spec fn insert_ordered<T: TotalOrder>(s: Seq<T>, data: T) -> Seq<T>
    decreases s.len(),
{
    if s.len() == 0 {
        seq![data]
    } else if strictly_less(data, s[0]) {
        seq![data] + s
    } else {
        seq![s[0]] + insert_ordered(s.drop_first(), data)
    }
}

/// Ordered insertion into a sorted sequence keeps it sorted.
pub proof fn lemma_insert_ordered_sorted<T: TotalOrder>(s: Seq<T>, data: T)
    requires
        sorted(s),
    ensures
        sorted(insert_ordered(s, data)),
        insert_ordered(s, data).to_multiset() == s.to_multiset().insert(data),
    decreases s.len(),
{
    broadcast use vstd::seq_lib::group_to_multiset_ensures;
    broadcast use vstd::seq_lib::lemma_multiset_commutative;
    broadcast use vstd::multiset::group_multiset_axioms;

    if s.len() == 0 {
        assert(insert_ordered(s, data) =~= Seq::<T>::empty().push(data));
    } else if strictly_less(data, s[0]) {
        let r = seq![data] + s;
        assert forall|i: int, j: int| 0 <= i < j < r.len() implies #[trigger] r[i].le(
            #[trigger] r[j],
        ) by {
            if i == 0 {
                T::lemma_le_total(data, s[0]);
                if j > 1 {
                    T::lemma_le_transitive(data, s[0], s[j - 1]);
                }
            }
        };
        assert(r =~= s.insert(0, data));
    } else {
        let rest = s.drop_first();
        assert(sorted(rest));
        lemma_insert_ordered_sorted(rest, data);
        let m = insert_ordered(rest, data);
        let r = seq![s[0]] + m;
        assert forall|i: int, j: int| 0 <= i < j < r.len() implies #[trigger] r[i].le(
            #[trigger] r[j],
        ) by {
            if i == 0 {
                // every element of `m` is an old tail element or `data`,
                // and the head comes at most either
                assert(m.to_multiset().count(m[j - 1]) > 0);
                if m[j - 1] == data {
                    assert(s[0].le(data));
                } else {
                    assert(rest.to_multiset().count(m[j - 1]) > 0);
                    assert(rest.contains(m[j - 1]));
                    let w = choose|w: int| 0 <= w < rest.len() && rest[w] == m[j - 1];
                    assert(s[0].le(s[w + 1]));
                }
            }
        };
        assert(s =~= seq![s[0]] + rest);
        assert(r.to_multiset() =~= s.to_multiset().insert(data));
    }
}

impl<T: TotalOrder> LinkedList<T> {
    /// An empty list.
    pub fn new() -> (l: Self)
        ensures
            l@ == Seq::<T>::empty(),
    {
        LinkedList(None)
    }

    /// Puts `data` at the front of the list.
    pub fn push_front(&mut self, data: T)
        ensures
            final(self)@ == seq![data] + old(self)@,
    {
        let t = self.0.take();
        self.0 = Some((data, Box::new(LinkedList(t))));
    }

    /// Puts `data` at the back of the list.
    pub fn push_back(&mut self, data: T)
        ensures
            final(self)@ == old(self)@.push(data),
        decreases *old(self),
    {
        match self.0.take() {
            Some(mut pair) => {
                (&mut *pair.1).push_back(data);
                self.0 = Some(pair);
                proof {
                    assert(self@ =~= old(self)@.push(data));
                }
            },
            None => {
                self.push_front(data);
                proof {
                    assert(self@ =~= old(self)@.push(data));
                }
            },
        }
    }

    /// Inserts `data` where it belongs if the list is sorted: before the
    /// first element that `data` comes strictly before. A sorted list stays
    /// sorted.
    pub fn insert_sorted(&mut self, data: T)
        ensures
            final(self)@ == insert_ordered(old(self)@, data),
            sorted(old(self)@) ==> sorted(final(self)@),
        decreases *old(self),
    {
        proof {
            if sorted(old(self)@) {
                lemma_insert_ordered_sorted(old(self)@, data);
            }
        }
        match self.0.take() {
            Some(mut pair) => {
                if data.lt(&pair.0) {
                    self.0 = Some(pair);
                    self.push_front(data);
                } else {
                    (&mut *pair.1).insert_sorted(data);
                    self.0 = Some(pair);
                    proof {
                        assert(old(self)@.drop_first() =~= old(self).0.unwrap().1.elems());
                        assert(self@ =~= insert_ordered(old(self)@, data));
                    }
                }
            },
            None => {
                self.push_front(data);
                proof {
                    assert(self@ =~= insert_ordered(old(self)@, data));
                }
            },
        }
    }
}

impl<T: TotalOrder + Copy> LinkedList<T> {
    /// The elements as a vector, front first.
    pub fn to_vec(&self) -> (r: Vec<T>)
        ensures
            r@ == self@,
        decreases *self,
    {
        match &self.0 {
            Some(pair) => {
                let mut r: Vec<T> = Vec::new();
                r.push(pair.0);
                let mut tail = pair.1.to_vec();
                r.append(&mut tail);
                proof {
                    assert(r@ =~= self@);
                }
                r
            },
            None => Vec::new(),
        }
    }
}

} // verus!
