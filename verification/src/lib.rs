//! Ordered traversal of a Jellyfish Merkle tree snapshot.
//!
//! A snapshot is a sparse 16-ary radix tree whose nodes live in a node store
//! and are addressed by fingerprints. Given a root and a starting key, the
//! iterators of this crate yield, lazily and in ascending order of the keys'
//! fingerprints, every key-value pair stored at or after the starting key.
//!
//! The modules, from the leaves up:
//!
//! - `hash`: fingerprints, their nibbles and their order;
//! - `bitmap`: facts about the 16-bit bitmaps of a branch;
//! - `node`: the three shapes of a node;
//! - `store`: the node store, as a trait, and a store in memory;
//! - `tree`: when a tree is well formed, and the pairs that it stores;
//! - `validate`: a check of a whole tree;
//! - `visit`: the traversal frame;
//! - `stack`: the traversal stack and stack cleanup;
//! - `seek`: the walk to the starting key;
//! - `advance`: one pull;
//! - `iterator`: the two iterators;
//! - `laws`: what holds of every iteration.
//!
//! An iterator is built with [`tree::leaves_from`] left to yield, and every
//! pull takes the first pair of what is left: see
//! [`JellyfishMerkleIterator::new`] and [`JellyfishMerkleIterator::next`].

pub mod advance;
pub mod bitmap;
pub mod hash;
pub mod iterator;
pub mod laws;
pub mod node;
pub mod seek;
pub mod stack;
pub mod store;
pub mod tree;
pub mod validate;
pub mod visit;

pub use hash::HashValue;
pub use iterator::{JellyfishMerkleIntoIterator, JellyfishMerkleIterator};
pub use node::{InternalNode, LeafNode, Node, NodeMap, Pair, SMTObject};
pub use store::{MockTreeStore, StorageError, TreeReader};
pub use validate::validate_tree;
pub use visit::NodeVisitInfo;
