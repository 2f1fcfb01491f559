//! A postfix segment tree: an implicit binary tree of sums stored in one
//! growable buffer in postfix order, so that appending never moves a node.
//!
//! Point lookup takes constant time, appending amortized constant time,
//! prefix and range sums and point updates logarithmic time, and positional
//! insertion and removal linear time.
pub mod bits;
pub mod iterator;
pub mod node_id;
pub mod skipping_iterator;
pub mod summable;
pub mod tree;

pub use iterator::ElementIterator;
pub use tree::PostfixSegmentTree;
