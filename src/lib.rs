//! An ordered key-value index kept as a B+Tree: values live in the leaves,
//! internal nodes hold only routing separators, and every node other than the
//! root stays between a minimum and a maximum occupancy.
pub mod model;
pub mod node;
pub mod tree;

pub use model::TreeError;
pub use tree::BPlusTree;
