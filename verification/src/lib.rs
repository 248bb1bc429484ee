//! A small library of verified in-place and divide-and-conquer sorting
//! algorithms over totally ordered elements: a randomized partition step
//! shared by three quicksort variants (sequential, one OS thread per left
//! partition, and bounded fork-join over a work-stealing pool), a sequential
//! merge sort with an exact merge specification, and bubble sort with early
//! exit. A deterministic linear-congruential generator feeds pivot
//! selection. Alongside the sorting engine stand ordered containers: a
//! singly-linked list, a double-ended list, and two binary search trees, one
//! of them self-adjusting by rotations.
//!
//! Every sort returns a sorted permutation of its input: sortedness and the
//! multiset of elements are stated in each contract over the element type's
//! total order.

pub mod balance;
pub mod bin_tree;
pub mod bubble;
pub mod double_list;
pub mod linked_list;
pub mod merge;
pub mod order;
pub mod prng;
pub mod quick;
pub mod seqs;
