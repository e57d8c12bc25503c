//! The three shapes of a tree node, and the objects that a leaf holds.

use crate::bitmap::{bit_is_set, lemma_set_bit};
use crate::hash::HashValue;
use vstd::prelude::*;

verus! {

/// A domain object together with the fingerprint under which the tree files it.
#[derive(Debug, PartialEq, Eq)]
pub struct SMTObject<T> {
    pub origin: T,
    pub hash: HashValue,
}

impl<T: Copy> Copy for SMTObject<T> {

}

impl<T: Copy> Clone for SMTObject<T> {
    fn clone(&self) -> (copy: Self)
        ensures
            copy == *self,
    {
        *self
    }
}

impl<T> SMTObject<T> {
    /// Wraps an object together with its fingerprint.
    pub fn new(origin: T, hash: HashValue) -> (object: Self)
        ensures
            object.origin == origin,
            object.hash == hash,
    {
        SMTObject { origin, hash }
    }

    /// The fingerprint of the object.
    pub fn merkle_hash(&self) -> (hash: HashValue)
        ensures
            hash == self.hash,
    {
        self.hash
    }

    /// The object itself.
    pub fn origin(&self) -> (origin: &T)
        ensures
            *origin == self.origin,
    {
        &self.origin
    }

    /// Gives up the wrapper and keeps the object.
    pub fn into_origin(self) -> (origin: T)
        ensures
            origin == self.origin,
    {
        self.origin
    }
}

/// A terminal node: one stored key with its value.
#[derive(Debug, PartialEq, Eq)]
pub struct LeafNode<K, V> {
    pub key: SMTObject<K>,
    pub value: SMTObject<V>,
}

impl<K: Copy, V: Copy> Copy for LeafNode<K, V> {

}

impl<K: Copy, V: Copy> Clone for LeafNode<K, V> {
    fn clone(&self) -> (copy: Self)
        ensures
            copy == *self,
    {
        *self
    }
}

impl<K, V> LeafNode<K, V> {
    /// The leaf that stores `value` under `key`.
    pub fn new(key: SMTObject<K>, value: SMTObject<V>) -> (leaf: Self)
        ensures
            leaf.key == key,
            leaf.value == value,
    {
        LeafNode { key, value }
    }

    /// The stored key.
    pub fn key(&self) -> (key: &SMTObject<K>)
        ensures
            *key == self.key,
    {
        &self.key
    }

    /// The stored value.
    pub fn value(&self) -> (value: &SMTObject<V>)
        ensures
            *value == self.value,
    {
        &self.value
    }

    /// The stored pair, as the iterators yield it.
    pub open spec fn pair(self) -> Pair<K, V> {
        (self.key, self.value)
    }

    /// Takes the leaf apart into the pair that it stores.
    pub fn into_pair(self) -> (pair: Pair<K, V>)
        ensures
            pair == self.pair(),
    {
        (self.key, self.value)
    }
}

/// A branch node: sixteen slots, one for each nibble, each empty or holding
/// the identifier of a child node.
#[derive(Clone, Copy, Debug, PartialEq, Eq)]
pub struct InternalNode {
    children: [Option<HashValue>; 16],
}

impl InternalNode {
    /// What slot `k` holds. It is meant for `0 <= k < 16`.
    pub closed spec fn child_at(self, k: int) -> Option<HashValue> {
        self.children@[k]
    }

    /// Slot `k` is one of the sixteen and holds a child.
    pub open spec fn has_child(self, k: int) -> bool {
        0 <= k < 16 && self.child_at(k) is Some
    }

    /// A branch of a tree has at least one child.
    pub open spec fn wf(self) -> bool {
        exists|k: int| self.has_child(k)
    }

    /// `bitmap` has bit `k` set exactly where slot `k` holds a child.
    pub open spec fn is_existence_bitmap(self, bitmap: u16) -> bool {
        forall|k: int| 0 <= k < 16 ==> (bit_is_set(bitmap, k) <==> self.has_child(k))
    }

    /// `k` is the least slot at or after `from` that holds a child.
    pub open spec fn is_first_child_from(self, from: int, k: int) -> bool {
        &&& from <= k
        &&& self.has_child(k)
        &&& forall|j: int| from <= j < k ==> !self.has_child(j)
    }

    /// No slot at or after `from` holds a child.
    pub open spec fn no_child_from(self, from: int) -> bool {
        forall|j: int| from <= j ==> !self.has_child(j)
    }

    /// The branch with the given slots. A branch of a tree has a child in
    /// at least one of them.
    pub fn new(children: [Option<HashValue>; 16]) -> (node: Self)
        ensures
            forall|k: int| 0 <= k < 16 ==> node.child_at(k) == children@[k],
    {
        InternalNode { children }
    }

    /// The child in the slot of `nibble`, if there is one. No slot belongs to a
    /// number above fifteen.
    pub fn child(&self, nibble: u8) -> (child: Option<HashValue>)
        ensures
            nibble < 16 ==> child == self.child_at(nibble as int),
            nibble >= 16 ==> child is None,
            child is Some <==> self.has_child(nibble as int),
    {
        if nibble < 16 {
            self.children[nibble as usize]
        } else {
            None
        }
    }

    /// The existence bitmap of the branch: bit `k` is set where slot `k` holds a child.
    pub fn generate_bitmap(&self) -> (bitmap: u16)
        ensures
            self.is_existence_bitmap(bitmap),
            self.wf() <==> bitmap != 0,
    {
        let mut bitmap: u16 = 0;
        let mut i: u16 = 0;
        proof {
            crate::bitmap::lemma_empty_bitmap(0);
        }
        while i < 16
            invariant
                i <= 16,
                forall|k: int|
                    0 <= k < 16 ==> (bit_is_set(bitmap, k) <==> (k < i && self.has_child(k))),
            decreases 16 - i,
        {
            let ghost before = bitmap;
            if self.children[i as usize].is_some() {
                bitmap = bitmap | (1u16 << i);
                proof {
                    lemma_set_bit(before, i as int, bitmap);
                }
            }
            i += 1;
        }
        proof {
            crate::bitmap::lemma_empty_bitmap(bitmap);
            if bitmap != 0 {
                let k = choose|k: int| 0 <= k < 16 && bit_is_set(bitmap, k);
                assert(self.has_child(k));
            }
        }
        bitmap
    }
}

/// A stored key with its value, as the iterators yield them.
pub type Pair<K, V> = (SMTObject<K>, SMTObject<V>);

/// The nodes of a store, by identifier.
pub type NodeMap<K, V> = Map<HashValue, Node<K, V>>;

/// A node of the tree, as the store hands it out.
#[derive(Debug, PartialEq, Eq)]
pub enum Node<K, V> {
    /// The tree that holds no key.
    Null,
    /// A branch.
    Internal(InternalNode),
    /// A stored key with its value.
    Leaf(LeafNode<K, V>),
}

impl<K: Copy, V: Copy> Copy for Node<K, V> {

}

impl<K: Copy, V: Copy> Clone for Node<K, V> {
    fn clone(&self) -> (copy: Self)
        ensures
            copy == *self,
    {
        *self
    }
}

} // verus!
