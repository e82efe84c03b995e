//! An AVL tree whose nodes commit to their contents and their children's
//! hashes, held partly in memory and fetched from a backing store on demand.

pub mod bytes;
pub mod dump;
pub mod node;
pub mod sparse_tree;

pub use dump::DumpLine;
pub use node::{Link, Node, HASH_LENGTH};
pub use sparse_tree::{KeyTree, NodeSource, SparseTree, TreeError};
