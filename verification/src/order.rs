//! A total order on the element type, as the sorting routines need it: a
//! specification-level `le` relation with its laws, and an executable
//! strict comparison tied to that relation.

use vstd::prelude::*;

verus! {

/// A totally ordered element type.
///
/// `le` is the mathematical order that all contracts in this crate speak of;
/// the three lemmas oblige every implementation to make it a total order, and
/// `lt` is the executable strict comparison, pinned to `le`.
pub trait TotalOrder: Sized {
    /// The order itself, as a specification-level relation.
    spec fn le(self, other: Self) -> bool;

    /// `le` is transitive.
    proof fn lemma_le_transitive(x: Self, y: Self, z: Self)
        requires
            x.le(y),
            y.le(z),
        ensures
            x.le(z),
    ;

    /// `le` is antisymmetric.
    proof fn lemma_le_antisymmetric(x: Self, y: Self)
        requires
            x.le(y),
            y.le(x),
        ensures
            x == y,
    ;

    /// `le` is total: any two values are comparable.
    proof fn lemma_le_total(x: Self, y: Self)
        ensures
            x.le(y) || y.le(x),
    ;

    /// Executable strict comparison: `self` comes strictly before `other`,
    /// that is, `other.le(*self)` fails.
    fn lt(&self, other: &Self) -> (r: bool)
        ensures
            r == !(*other).le(*self),
    ;
}

/// `a` comes strictly before `b`: for a total order this is the negation of
/// `b.le(a)`.
pub open spec fn strictly_less<T: TotalOrder>(a: T, b: T) -> bool {
    !b.le(a)
}

/// A sequence is in non-decreasing order under the element type's `le`.
pub open spec fn sorted<T: TotalOrder>(s: Seq<T>) -> bool {
    forall|i: int, j: int| 0 <= i < j < s.len() ==> #[trigger] s[i].le(#[trigger] s[j])
}

impl TotalOrder for i32 {
    open spec fn le(self, other: Self) -> bool {
        self <= other
    }

    proof fn lemma_le_transitive(x: Self, y: Self, z: Self) {
    }

    proof fn lemma_le_antisymmetric(x: Self, y: Self) {
    }

    proof fn lemma_le_total(x: Self, y: Self) {
    }

    fn lt(&self, other: &Self) -> (r: bool) {
        *self < *other
    }
}

impl TotalOrder for i64 {
    open spec fn le(self, other: Self) -> bool {
        self <= other
    }

    proof fn lemma_le_transitive(x: Self, y: Self, z: Self) {
    }

    proof fn lemma_le_antisymmetric(x: Self, y: Self) {
    }

    proof fn lemma_le_total(x: Self, y: Self) {
    }

    fn lt(&self, other: &Self) -> (r: bool) {
        *self < *other
    }
}

impl TotalOrder for u64 {
    open spec fn le(self, other: Self) -> bool {
        self <= other
    }

    proof fn lemma_le_transitive(x: Self, y: Self, z: Self) {
    }

    proof fn lemma_le_antisymmetric(x: Self, y: Self) {
    }

    proof fn lemma_le_total(x: Self, y: Self) {
    }

    fn lt(&self, other: &Self) -> (r: bool) {
        *self < *other
    }
}

} // verus!
