//! A double-ended list: elements can be pushed at either end and the order
//! of insertion is kept. The storage is a vector; its view is the sequence
//! of elements, front first.

use vstd::prelude::*;

verus! {

/// A double-ended list over contiguous storage.
pub struct DbList<T> {
    items: Vec<T>,
}

impl<T> View for DbList<T> {
    type V = Seq<T>;

    closed spec fn view(&self) -> Seq<T> {
        self.items@
    }
}

impl<T> DbList<T> {
    /// An empty list.
    pub fn new() -> (l: Self)
        ensures
            l@ == Seq::<T>::empty(),
    {
        DbList { items: Vec::new() }
    }

    /// Puts `data` at the back of the list.
    pub fn push_back(&mut self, data: T)
        ensures
            final(self)@ == old(self)@.push(data),
    {
        self.items.push(data);
    }

    /// Puts `data` at the front of the list.
    pub fn push_front(&mut self, data: T)
        ensures
            final(self)@ == seq![data] + old(self)@,
    {
        self.items.insert(0, data);
        proof {
            assert(self@ =~= seq![data] + old(self)@);
        }
    }
}

impl<T: Copy> DbList<T> {
    /// The elements as a vector, front first.
    pub fn to_vec(&self) -> (r: Vec<T>)
        ensures
            r@ == self@,
    {
        let mut r: Vec<T> = Vec::new();
        let mut i: usize = 0;
        while i < self.items.len()
            invariant
                i <= self.items.len(),
                r@ == self.items@.subrange(0, i as int),
            decreases self.items.len() - i,
        {
            r.push(self.items[i]);
            proof {
                assert(r@ =~= self.items@.subrange(0, i + 1));
            }
            i += 1;
        }
        proof {
            assert(r@ =~= self@);
        }
        r
    }
}

} // verus!
