//! Small verified data-structure library.
//!
//! The centrepiece is an ordered binary search tree over `u64` keys with
//! verified insertion, lookup, removal with structural repair, depth
//! computation and a breadth-first layout. Beside it stand a singly-linked
//! list, a FIFO queue built on the list, a toy string-keyed hash map, an
//! in-place merge sort and two string-reversal helpers.

pub mod binary_tree;
pub mod hash_map;
pub mod linked_list;
pub mod merge_sort;
pub mod queue;
pub mod reverse;
