//! A sorted set held as a sequence of bounded, individually sorted blocks.
pub mod array_tree;
pub mod order;
pub mod search;

pub use array_tree::ArrayTree;
pub use search::binary_search_by;
