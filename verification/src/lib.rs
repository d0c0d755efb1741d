//! An in-memory ordered key-value container backed by a multi-way search
//! tree. Keys are `i64` values under their usual total order; values are
//! `String`s. The tree is built with a single entry and answers exact-key
//! lookups by a read-only descent from the root; a debug rendering of the
//! leaf entries is also offered.

pub mod btree;
pub mod laws;
pub mod render;

pub use btree::BTree;
pub use btree::BTreeError;
pub use btree::Branch;
pub use btree::BranchElt;
pub use btree::Leaf;
pub use btree::LeafElt;
pub use btree::Node;
