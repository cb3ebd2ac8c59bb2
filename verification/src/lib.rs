//! A key-value map kept as a binary search tree inside one growable array,
//! with children found by index arithmetic instead of links.

pub mod bi_tree;
pub mod index_iter;
pub mod iter;
pub mod laws;
pub mod order;
pub mod search;
pub mod slots;
pub mod traversal;
pub mod tree;

pub use tree::BinaryTree;
pub use iter::BinaryTreeIter;
