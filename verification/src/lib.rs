//! A fixed-size, array-backed range-sum tree.
//!
//! Given a sequence of signed integers, the tree answers inclusive range-sum
//! queries and supports single-element updates, both in logarithmic time.
//! Every operation carries a contract relating it to the mathematical view of
//! the tree: the sequence of its leaf values.

pub mod layout;
pub mod sums;
pub mod tree;

pub use tree::Node;
pub use tree::SegmentTree;
