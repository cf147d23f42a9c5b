//! Containers over `u64` keys, each with its invariants and operations
//! proved: an AVL tree (the core), a plain binary search tree, a treap, an
//! implicit treap (a sequence indexed by position), and two binary max-heaps,
//! one in a vector and one as a linked complete tree.

use vstd::prelude::*;

pub mod avl;
pub mod bst;
pub mod heap;
pub mod impl_treap;
pub mod recursive_heap;
pub mod treap;

verus! {

/// Relies on `rand::random`, which the two treaps call for the priority of
/// each new node: a value drawn from the thread-local generator. Nothing is
/// known of the value.
pub assume_specification<T>[ rand::random::<T> ]() -> (r: T)
    where
        rand::distributions::Standard: rand::distributions::Distribution<T>,
;

} // verus!
