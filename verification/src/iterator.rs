//! The two iterators over a tree: one borrows the node store, one owns it.
//!
//! Initialized with a root and a starting key, an iterator yields all the
//! key-value pairs of the tree under that root, starting from the smallest key
//! that is greater than or equal to the starting key, by a depth first walk.

use crate::advance::{advance, advance_spec, gave_failure, gave_pair, is_yield_of};
use crate::hash::HashValue;
use crate::node::{NodeMap, Pair, SMTObject};
use crate::seek::{is_seek_result, seek};
use crate::stack::{cleanup_stack, frames_wf, is_cleanup_of, remaining, state_inv};
use crate::store::{StorageError, TreeReader};
use crate::tree::{leaves_from, tree_wf};
use crate::validate::validate_tree;
use crate::visit::NodeVisitInfo;
use std::marker::PhantomData;
use vstd::prelude::*;

verus! {

/// The iterator that borrows its node store.
pub struct JellyfishMerkleIterator<'a, K, V, R: TreeReader<K, V>> {
    /// The storage engine from which we can read nodes using node keys.
    reader: &'a R,
    /// The root hash of the tree this iterator is running on.
    state_root_hash: HashValue,
    /// The stack used for depth first traversal.
    parent_stack: Vec<NodeVisitInfo>,
    /// Whether the iteration has finished. Usually this can be determined by
    /// checking whether `self.parent_stack` is empty. But in case of a tree
    /// with a single leaf, we need this additional bit.
    done: bool,
    key: PhantomData<K>,
    value: PhantomData<V>,
}

impl<'a, K, V, R: TreeReader<K, V>> JellyfishMerkleIterator<'a, K, V, R> {
    /// The store that the iterator reads.
    pub closed spec fn spec_reader(&self) -> R {
        *self.reader
    }

    /// The nodes of the store that the iterator reads.
    pub open spec fn nodes(&self) -> NodeMap<K, V> {
        self.spec_reader().nodes()
    }

    /// Whether the store answers every read of a node that it holds.
    pub open spec fn never_fails(&self) -> bool {
        self.spec_reader().never_fails()
    }

    /// The root of the tree that the iterator walks.
    pub closed spec fn root(&self) -> HashValue {
        self.state_root_hash
    }

    /// The traversal stack.
    pub closed spec fn stack(&self) -> Seq<NodeVisitInfo> {
        self.parent_stack@
    }

    /// The latch: once set, nothing more is yielded.
    pub closed spec fn is_done(&self) -> bool {
        self.done
    }

    /// The iterator is in a sound state over a well-formed tree.
    pub open spec fn wf(&self) -> bool {
        state_inv(self.nodes(), self.root(), self.stack(), self.is_done())
    }

    /// The pairs that the iterator has yet to yield, in order.
    pub open spec fn remaining(&self) -> Seq<Pair<K, V>> {
        remaining(self.nodes(), self.root(), self.stack(), self.is_done())
    }

    /// Constructs a new iterator. This puts the internal state in the correct
    /// position, so the following `next` call will yield the smallest key that
    /// is greater or equal to `starting_key`.
    ///
    /// The tree under the root must be well formed: see `new_validated` for a
    /// tree of which this is not known.
    pub fn new(reader: &'a R, state_root_hash: HashValue, starting_key: SMTObject<K>) -> (result:
        Result<Self, StorageError>)
        requires
            tree_wf(reader.nodes(), state_root_hash),
        ensures
            result matches Ok(iter) ==> {
                &&& iter.wf()
                &&& iter.spec_reader() == *reader
                &&& iter.root() == state_root_hash
                &&& iter.remaining() == leaves_from(
                    reader.nodes(),
                    state_root_hash,
                    starting_key.hash,
                )
                &&& is_seek_result(
                    reader.nodes(),
                    state_root_hash,
                    starting_key.hash,
                    iter.stack(),
                    iter.is_done(),
                )
            },
            reader.never_fails() ==> result is Ok,
    {
        let starting_key_hash = starting_key.merkle_hash();
        match seek(reader, state_root_hash, starting_key_hash) {
            Ok((parent_stack, done)) => Ok(
                Self {
                    reader,
                    state_root_hash,
                    parent_stack,
                    done,
                    key: PhantomData,
                    value: PhantomData,
                },
            ),
            Err(error) => Err(error),
        }
    }

    /// Constructs a new iterator on a tree that is not known to be well
    /// formed. The tree is first walked once, node by node, to find out; on a
    /// tree that is not well formed no iterator is built, and `None` is given.
    pub fn new_validated(
        reader: &'a R,
        state_root_hash: HashValue,
        starting_key: SMTObject<K>,
    ) -> (result: Result<Option<Self>, StorageError>)
        ensures
            result matches Ok(Some(iter)) ==> {
                &&& tree_wf(reader.nodes(), state_root_hash)
                &&& iter.wf()
                &&& iter.spec_reader() == *reader
                &&& iter.root() == state_root_hash
                &&& iter.remaining() == leaves_from(
                    reader.nodes(),
                    state_root_hash,
                    starting_key.hash,
                )
                &&& is_seek_result(
                    reader.nodes(),
                    state_root_hash,
                    starting_key.hash,
                    iter.stack(),
                    iter.is_done(),
                )
            },
            result matches Ok(None) ==> !tree_wf(reader.nodes(), state_root_hash),
            reader.never_fails() ==> (result matches Ok(Some(_)) <==> tree_wf(
                reader.nodes(),
                state_root_hash,
            )),
    {
        match validate_tree(reader, state_root_hash) {
            Ok(true) => match Self::new(reader, state_root_hash, starting_key) {
                Ok(iter) => Ok(Some(iter)),
                Err(error) => Err(error),
            },
            Ok(false) => Ok(None),
            Err(error) => Err(error),
        }
    }

    /// Stack cleanup: pops the frames whose children are all visited, and
    /// moves the first frame that has a child left to that child.
    pub fn cleanup_stack(parent_stack: &mut Vec<NodeVisitInfo>)
        requires
            frames_wf(old(parent_stack)@),
        ensures
            is_cleanup_of(old(parent_stack)@, final(parent_stack)@),
    {
        cleanup_stack(parent_stack)
    }

    /// Pulls the next pair. Gives `None` when no pair is left, and the failure
    /// of the store when a read fails; the iterator is then as it was before
    /// the pull.
    pub fn next(&mut self) -> (item: Option<Result<Pair<K, V>, StorageError>>)
        requires
            old(self).wf(),
        ensures
            final(self).wf(),
            final(self).spec_reader() == old(self).spec_reader(),
            final(self).root() == old(self).root(),
            advance_spec(old(self).remaining(), final(self).remaining(), item),
            !gave_pair(item) ==> final(self).stack() == old(self).stack() && final(self).is_done()
                == old(self).is_done(),
            item matches Some(Ok(pair)) ==> is_yield_of(
                old(self).nodes(),
                old(self).root(),
                old(self).stack(),
                old(self).is_done(),
                final(self).stack(),
                final(self).is_done(),
                pair,
            ),
            old(self).never_fails() ==> !gave_failure(item),
    {
        advance(self.reader, self.state_root_hash, &mut self.parent_stack, &mut self.done)
    }

    /// The identifiers of the branches on the traversal stack, from the root down.
    pub fn stack_node_keys(&self) -> (keys: Vec<HashValue>)
        ensures
            keys@.len() == self.stack().len(),
            forall|i: int| 0 <= i < keys@.len() ==> keys@[i] == self.stack()[i].node_key(),
    {
        stack_keys(&self.parent_stack)
    }

    /// The store that the iterator reads.
    pub fn reader(&self) -> (reader: &'a R)
        ensures
            *reader == self.spec_reader(),
    {
        self.reader
    }
}

/// The iterator that owns its node store.
pub struct JellyfishMerkleIntoIterator<K, V, R: TreeReader<K, V>> {
    /// The storage engine from which we can read nodes using node keys.
    reader: R,
    /// The root hash of the tree this iterator is running on.
    state_root_hash: HashValue,
    /// The stack used for depth first traversal.
    parent_stack: Vec<NodeVisitInfo>,
    /// Whether the iteration has finished. Usually this can be determined by
    /// checking whether `self.parent_stack` is empty. But in case of a tree
    /// with a single leaf, we need this additional bit.
    done: bool,
    key: PhantomData<K>,
    value: PhantomData<V>,
}

impl<K, V, R: TreeReader<K, V>> JellyfishMerkleIntoIterator<K, V, R> {
    /// The store that the iterator reads.
    pub closed spec fn spec_reader(&self) -> R {
        self.reader
    }

    /// The nodes of the store that the iterator reads.
    pub open spec fn nodes(&self) -> NodeMap<K, V> {
        self.spec_reader().nodes()
    }

    /// Whether the store answers every read of a node that it holds.
    pub open spec fn never_fails(&self) -> bool {
        self.spec_reader().never_fails()
    }

    /// The root of the tree that the iterator walks.
    pub closed spec fn root(&self) -> HashValue {
        self.state_root_hash
    }

    /// The traversal stack.
    pub closed spec fn stack(&self) -> Seq<NodeVisitInfo> {
        self.parent_stack@
    }

    /// The latch: once set, nothing more is yielded.
    pub closed spec fn is_done(&self) -> bool {
        self.done
    }

    /// The iterator is in a sound state over a well-formed tree.
    pub open spec fn wf(&self) -> bool {
        state_inv(self.nodes(), self.root(), self.stack(), self.is_done())
    }

    /// The pairs that the iterator has yet to yield, in order.
    pub open spec fn remaining(&self) -> Seq<Pair<K, V>> {
        remaining(self.nodes(), self.root(), self.stack(), self.is_done())
    }

    /// Constructs a new iterator. This puts the internal state in the correct
    /// position, so the following `next` call will yield the smallest key
    /// whose fingerprint is greater or equal to `starting_key`.
    ///
    /// The tree under the root must be well formed: see `new_validated` for a
    /// tree of which this is not known.
    pub fn new(reader: R, state_root_hash: HashValue, starting_key: HashValue) -> (result: Result<
        Self,
        StorageError,
    >)
        requires
            tree_wf(reader.nodes(), state_root_hash),
        ensures
            result matches Ok(iter) ==> {
                &&& iter.wf()
                &&& iter.spec_reader() == reader
                &&& iter.root() == state_root_hash
                &&& iter.remaining() == leaves_from(reader.nodes(), state_root_hash, starting_key)
                &&& is_seek_result(
                    reader.nodes(),
                    state_root_hash,
                    starting_key,
                    iter.stack(),
                    iter.is_done(),
                )
            },
            reader.never_fails() ==> result is Ok,
    {
        match seek(&reader, state_root_hash, starting_key) {
            Ok((parent_stack, done)) => Ok(
                Self {
                    reader,
                    state_root_hash,
                    parent_stack,
                    done,
                    key: PhantomData,
                    value: PhantomData,
                },
            ),
            Err(error) => Err(error),
        }
    }

    /// Constructs a new iterator on a tree that is not known to be well
    /// formed. The tree is first walked once, node by node, to find out; on a
    /// tree that is not well formed no iterator is built, and `None` is given.
    pub fn new_validated(reader: R, state_root_hash: HashValue, starting_key: HashValue) -> (result:
        Result<Option<Self>, StorageError>)
        ensures
            result matches Ok(Some(iter)) ==> {
                &&& tree_wf(reader.nodes(), state_root_hash)
                &&& iter.wf()
                &&& iter.spec_reader() == reader
                &&& iter.root() == state_root_hash
                &&& iter.remaining() == leaves_from(reader.nodes(), state_root_hash, starting_key)
                &&& is_seek_result(
                    reader.nodes(),
                    state_root_hash,
                    starting_key,
                    iter.stack(),
                    iter.is_done(),
                )
            },
            result matches Ok(None) ==> !tree_wf(reader.nodes(), state_root_hash),
            reader.never_fails() ==> (result matches Ok(Some(_)) <==> tree_wf(
                reader.nodes(),
                state_root_hash,
            )),
    {
        match validate_tree(&reader, state_root_hash) {
            Ok(true) => match Self::new(reader, state_root_hash, starting_key) {
                Ok(iter) => Ok(Some(iter)),
                Err(error) => Err(error),
            },
            Ok(false) => Ok(None),
            Err(error) => Err(error),
        }
    }

    /// Stack cleanup: pops the frames whose children are all visited, and
    /// moves the first frame that has a child left to that child.
    pub fn cleanup_stack(parent_stack: &mut Vec<NodeVisitInfo>)
        requires
            frames_wf(old(parent_stack)@),
        ensures
            is_cleanup_of(old(parent_stack)@, final(parent_stack)@),
    {
        cleanup_stack(parent_stack)
    }

    /// Pulls the next pair. Gives `None` when no pair is left, and the failure
    /// of the store when a read fails; the iterator is then as it was before
    /// the pull.
    pub fn next(&mut self) -> (item: Option<Result<Pair<K, V>, StorageError>>)
        requires
            old(self).wf(),
        ensures
            final(self).wf(),
            final(self).spec_reader() == old(self).spec_reader(),
            final(self).root() == old(self).root(),
            advance_spec(old(self).remaining(), final(self).remaining(), item),
            !gave_pair(item) ==> final(self).stack() == old(self).stack() && final(self).is_done()
                == old(self).is_done(),
            item matches Some(Ok(pair)) ==> is_yield_of(
                old(self).nodes(),
                old(self).root(),
                old(self).stack(),
                old(self).is_done(),
                final(self).stack(),
                final(self).is_done(),
                pair,
            ),
            old(self).never_fails() ==> !gave_failure(item),
    {
        advance(&self.reader, self.state_root_hash, &mut self.parent_stack, &mut self.done)
    }

    /// The identifiers of the branches on the traversal stack, from the root down.
    pub fn stack_node_keys(&self) -> (keys: Vec<HashValue>)
        ensures
            keys@.len() == self.stack().len(),
            forall|i: int| 0 <= i < keys@.len() ==> keys@[i] == self.stack()[i].node_key(),
    {
        stack_keys(&self.parent_stack)
    }

    /// The store that the iterator reads.
    pub fn reader(&self) -> (reader: &R)
        ensures
            *reader == self.spec_reader(),
    {
        &self.reader
    }

    /// Gives the store back.
    pub fn into_reader(self) -> (reader: R)
        ensures
            reader == self.spec_reader(),
    {
        self.reader
    }
}

/// The identifiers of the branches on a stack, from the root down.
fn stack_keys(parent_stack: &Vec<NodeVisitInfo>) -> (keys: Vec<HashValue>)
    ensures
        keys@.len() == parent_stack@.len(),
        forall|i: int| 0 <= i < keys@.len() ==> keys@[i] == parent_stack@[i].node_key(),
{
    let mut keys: Vec<HashValue> = Vec::new();
    let mut i: usize = 0;
    while i < parent_stack.len()
        invariant
            i <= parent_stack@.len(),
            keys@.len() == i,
            forall|j: int| 0 <= j < i ==> keys@[j] == parent_stack@[j].node_key(),
        decreases parent_stack@.len() - i,
    {
        keys.push(parent_stack[i].key());
        i += 1;
    }
    keys
}

} // verus!
