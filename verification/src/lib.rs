//! An ordered, set-like container backed by an unbalanced binary search tree.
//!
//! The container supports insertion, lookup and a two-phase removal protocol:
//! a removed node is first marked as a tombstone (logically absent, still
//! linked) and only unlinked from the tree once that is possible without
//! restructuring several links at once. Lookups hand out a [`DerefGuard`],
//! a handle that keeps the found value readable independently of any later
//! removal of that value from the tree.

pub mod binarytree;
pub mod laws;

pub use binarytree::ChildSide;
pub use binarytree::DerefGuard;
pub use binarytree::DuplicateValue;
pub use binarytree::EmptyTree;
pub use binarytree::LockFreeBinaryTree;
pub use binarytree::Node;
pub use binarytree::NotFound;
pub use binarytree::SearchResult;
