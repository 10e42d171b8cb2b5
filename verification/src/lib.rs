//! Search trees that stay in order as values are put in.
//!
//! [`b_plus::BPlusTree`] is a multiway tree of fixed fanout. It keeps every
//! key in a leaf of its own, all leaves at one depth, and beside each child
//! the greatest key below it. A node that overflows splits at its median and
//! hands the upper half to its parent; a root that overflows grows a level.
//! Equal keys are kept side by side.
//!
//! [`binary::BinaryTree`] is a binary tree with a value at every node, which
//! takes a value in only where it does not hold it yet.
//!
//! Every function states over which trees it works and what it leaves
//! behind; `laws` holds what follows for every valid multiway tree.

pub mod b_plus;
pub mod binary;
pub mod cloning;
pub mod insertion;
pub mod key;
pub mod laws;
pub mod random;
pub mod search;
pub mod traversal;
pub mod validity;
