//! In-memory ordered containers: a binary search tree together with the
//! simpler sequential structures (stack, queue, doubly linked list) that
//! accompany it.  The binary search tree is the heart of the crate: balanced
//! construction from a sorted slice, insertion, deletion with two-child
//! restructuring, exact search, minimum lookup, in-order successor lookup,
//! and the two diagnostic traversals.

pub mod list;
pub mod queue;
pub mod stack;
pub mod tree;
