//! An owning box and an unbalanced binary search tree whose nodes it holds.
//!
//! [`mybox::MyBox`] owns one value on the heap. [`bst::BinarySearchTree`] is
//! an ordered set built from such boxes; it is searched, extended and torn
//! down by loops, so that a tree degenerated into a chain costs no call-stack
//! depth. [`shape::Shape`] is the mathematical tree that the contracts speak
//! of, [`order`] holds the facts about a total order that the proofs use, and
//! [`laws`] states what the contracts add up to over many insertions.

pub mod bst;
pub mod laws;
pub mod mybox;
pub mod order;
pub mod shape;
mod worklist;
