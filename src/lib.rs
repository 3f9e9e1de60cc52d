//! A self-balancing ordered binary search tree (AVL tree) over a totally
//! ordered element type, with every operation proved to keep the search
//! order, the cached heights and the AVL balance condition.

pub mod laws;
pub mod model;
pub mod order;
mod rebalance;
pub mod render;
pub mod tree;

pub use tree::AvlTree;
