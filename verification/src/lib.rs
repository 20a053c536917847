//! A max-priority queue backed by a ternary heap stored in a vector.
//!
//! - [`heap`] holds the queue itself, [`TernaryHeap`], with its operations.
//! - [`layout`] describes the tree that the vector is read as, heap order,
//!   and what swimming and sinking do to a sequence.
//! - [`order`] names the order on elements that all of it refers to.
//! - [`queue`] states what a max-priority queue does to the multiset of its
//!   elements, and proves the laws that follow.

pub mod heap;
pub mod layout;
pub mod order;
pub mod queue;

pub use crate::heap::TernaryHeap;
