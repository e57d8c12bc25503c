//! The node store: where the nodes of a tree are read from, one at a time.

use crate::hash::HashValue;
use crate::node::{Node, NodeMap};
use vstd::prelude::*;

verus! {

/// A read of the store that did not give a node.
#[derive(Clone, Copy, Debug, PartialEq, Eq)]
pub struct StorageError {
    /// The identifier of the node that was asked for.
    pub node_key: HashValue,
}

/// A store of tree nodes. Its one operation reads the node with a given
/// identifier, and may fail.
///
/// A store stands for a fixed set of nodes: whenever a read succeeds, it gives
/// the node that `nodes` holds under the identifier asked for. A store that
/// says of itself that it `never_fails` answers every read of a node it holds.
/// What is proved of an iteration holds for every store that keeps to this.
///
/// `nodes` and `never_fails` belong to the model of the store: they say what
/// the store stands for, and they are never run.
pub trait TreeReader<K, V> {
    /// The nodes that the store holds, by identifier.
    spec fn nodes(&self) -> NodeMap<K, V>;

    /// The store answers every read of a node that it holds.
    spec fn never_fails(&self) -> bool;

    /// Reads the node with the identifier `node_key`.
    fn get_node(&self, node_key: &HashValue) -> (result: Result<Node<K, V>, StorageError>)
        ensures
            result matches Ok(node) ==> {
                &&& self.nodes().contains_key(*node_key)
                &&& self.nodes()[*node_key] == node
            },
            self.never_fails() && self.nodes().contains_key(*node_key) ==> result is Ok,
    ;
}

/// The map that a list of entries stands for: a later entry replaces an
/// earlier one with the same identifier.
pub open spec fn entries_map<K, V>(entries: Seq<(HashValue, Node<K, V>)>) -> NodeMap<K, V>
    decreases entries.len(),
{
    if entries.len() == 0 {
        Map::empty()
    } else {
        entries_map(entries.drop_last()).insert(entries.last().0, entries.last().1)
    }
}

/// The last entry with a given identifier is the one that the map holds.
proof fn lemma_entries_map_holds<K, V>(
    entries: Seq<(HashValue, Node<K, V>)>,
    i: int,
    node_key: HashValue,
)
    requires
        0 <= i < entries.len(),
        entries[i].0 == node_key,
        forall|j: int| i < j < entries.len() ==> entries[j].0 != node_key,
    ensures
        entries_map(entries).contains_key(node_key),
        entries_map(entries)[node_key] == entries[i].1,
    decreases entries.len(),
{
    if i < entries.len() - 1 {
        lemma_entries_map_holds(entries.drop_last(), i, node_key);
    }
}

/// An identifier that no entry has is not in the map.
proof fn lemma_entries_map_lacks<K, V>(entries: Seq<(HashValue, Node<K, V>)>, node_key: HashValue)
    requires
        forall|j: int| 0 <= j < entries.len() ==> entries[j].0 != node_key,
    ensures
        !entries_map(entries).contains_key(node_key),
    decreases entries.len(),
{
    if entries.len() > 0 {
        lemma_entries_map_lacks(entries.drop_last(), node_key);
    }
}

/// A store that keeps its nodes in memory. It never fails on a node that it
/// holds, and it fails on every other identifier.
pub struct MockTreeStore<K, V> {
    entries: Vec<(HashValue, Node<K, V>)>,
}

impl<K, V> View for MockTreeStore<K, V> {
    type V = NodeMap<K, V>;

    closed spec fn view(&self) -> NodeMap<K, V> {
        entries_map(self.entries@)
    }
}

impl<K: Copy, V: Copy> MockTreeStore<K, V> {
    /// The store that holds no node.
    pub fn new() -> (store: Self)
        ensures
            store@ == NodeMap::<K, V>::empty(),
    {
        MockTreeStore { entries: Vec::new() }
    }

    /// Files `node` under `node_key`, in place of what was there.
    pub fn put_node(&mut self, node_key: HashValue, node: Node<K, V>)
        ensures
            final(self)@ == old(self)@.insert(node_key, node),
    {
        let ghost before = self.entries@;
        self.entries.push((node_key, node));
        assert(self.entries@.drop_last() =~= before);
    }
}

impl<K: Copy, V: Copy> TreeReader<K, V> for MockTreeStore<K, V> {
    open spec fn nodes(&self) -> NodeMap<K, V> {
        self@
    }

    open spec fn never_fails(&self) -> bool {
        true
    }

    fn get_node(&self, node_key: &HashValue) -> (result: Result<Node<K, V>, StorageError>)
        ensures
            result is Ok <==> self@.contains_key(*node_key),
            result matches Err(error) ==> error.node_key == *node_key,
    {
        let mut i: usize = self.entries.len();
        while i > 0
            invariant
                i <= self.entries@.len(),
                forall|j: int| i <= j < self.entries@.len() ==> self.entries@[j].0 != *node_key,
            decreases i,
        {
            i -= 1;
            if self.entries[i].0 == *node_key {
                proof {
                    lemma_entries_map_holds(self.entries@, i as int, *node_key);
                }
                return Ok(self.entries[i].1);
            }
        }
        proof {
            lemma_entries_map_lacks(self.entries@, *node_key);
        }
        Err(StorageError { node_key: *node_key })
    }
}

} // verus!
