//! A check of a whole tree: whether what a store holds under a root is a
//! tree that the iterators can walk.

use crate::hash::{has_prefix, HashValue};
use crate::node::Node;
use crate::store::{StorageError, TreeReader};
use crate::tree::{subtree_wf, tree_wf};
use vstd::prelude::*;

verus! {

/// Whether the fingerprint begins with the nibbles of `path`.
fn begins_with(fingerprint: &HashValue, path: &Vec<u8>) -> (begins: bool)
    requires
        path@.len() <= 64,
    ensures
        begins == has_prefix(fingerprint.nibbles(), path@),
{
    let mut i: usize = 0;
    while i < path.len()
        invariant
            i <= path@.len() <= 64,
            forall|j: int| 0 <= j < i ==> fingerprint.nibbles()[j] == path@[j],
        decreases path@.len() - i,
    {
        if fingerprint.nibble(i) != path[i] {
            return false;
        }
        i += 1;
    }
    true
}

/// Walks all that lies below the node `node_key`, which is to lie at `path`,
/// and tells whether it is a well-formed subtree. The walk ends at the first
/// read that fails.
fn validate_subtree<K, V, R: TreeReader<K, V>>(
    reader: &R,
    node_key: HashValue,
    path: &mut Vec<u8>,
) -> (result: Result<bool, StorageError>)
    requires
        old(path)@.len() <= 64,
    ensures
        final(path)@ == old(path)@,
        result matches Ok(valid) ==> valid == subtree_wf(reader.nodes(), node_key, old(path)@),
        result is Err && reader.never_fails() ==> !subtree_wf(
            reader.nodes(),
            node_key,
            old(path)@,
        ),
    decreases 64 - old(path)@.len(),
{
    let node = match reader.get_node(&node_key) {
        Ok(node) => node,
        Err(error) => {
            return Err(error);
        },
    };
    match node {
        Node::Null => Ok(false),
        Node::Leaf(leaf_node) => Ok(begins_with(&leaf_node.key().merkle_hash(), path)),
        Node::Internal(internal_node) => {
            if path.len() >= 64 || internal_node.generate_bitmap() == 0 {
                return Ok(false);
            }
            let mut nibble: u8 = 0;
            while nibble < 16
                invariant
                    nibble <= 16,
                    path@ == old(path)@,
                    path@.len() < 64,
                    reader.nodes().contains_key(node_key),
                    reader.nodes()[node_key] == Node::<K, V>::Internal(internal_node),
                    internal_node.wf(),
                    forall|k: int|
                        #![trigger internal_node.has_child(k)]
                        0 <= k < nibble && internal_node.has_child(k) ==> subtree_wf(
                            reader.nodes(),
                            internal_node.child_at(k).unwrap(),
                            path@.push(k as u8),
                        ),
                decreases 16 - nibble,
            {
                match internal_node.child(nibble) {
                    Some(child) => {
                        path.push(nibble);
                        let below = validate_subtree(reader, child, path);
                        path.pop();
                        assert(path@ =~= old(path)@);
                        match below {
                            Ok(true) => {},
                            Ok(false) => {
                                return Ok(false);
                            },
                            Err(error) => {
                                return Err(error);
                            },
                        }
                    },
                    None => {},
                }
                nibble += 1;
            }
            Ok(true)
        },
    }
}

/// Tells whether the tree under `state_root_hash` is well formed, by a walk
/// of all its nodes. The iterators ask this of the tree that they are built
/// on; a caller that cannot know it of its store can find it out here.
///
/// A read that fails ends the walk with the failure. Where the store never
/// fails on a node that it holds, a failure means that a node is missing, and
/// so that the tree is not well formed.
pub fn validate_tree<K, V, R: TreeReader<K, V>>(reader: &R, state_root_hash: HashValue) -> (result:
    Result<bool, StorageError>)
    ensures
        result matches Ok(valid) ==> valid == tree_wf(reader.nodes(), state_root_hash),
        result is Err && reader.never_fails() ==> !tree_wf(reader.nodes(), state_root_hash),
{
    match reader.get_node(&state_root_hash) {
        Ok(Node::Null) => Ok(true),
        Ok(_) => {
            let mut path: Vec<u8> = Vec::new();
            assert(path@ =~= Seq::<u8>::empty());
            validate_subtree(reader, state_root_hash, &mut path)
        },
        Err(error) => Err(error),
    }
}

} // verus!
