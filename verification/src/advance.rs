//! The advance: one pull of an iteration, which walks down from the cursor
//! of the stack to the next leaf and yields its pair.

use crate::hash::HashValue;
use crate::node::{InternalNode, LeafNode, Node, NodeMap, Pair};
use crate::stack::{
    cleanup_stack, frame_inv, frames_wf, is_cleanup_of, is_push_of, lemma_cleanup_inv,
    lemma_cleanup_pending, lemma_path_extends, lemma_pending_unfold, lemma_stack_depth, path_of,
    pending, pending_after, remaining, stack_inv, state_inv,
};
use crate::store::{StorageError, TreeReader};
use crate::tree::{lemma_child_subtree, lemma_skip_empty_slots, subtree_wf};
use crate::visit::NodeVisitInfo;
use vstd::prelude::*;

verus! {

/// The pull gave a pair.
pub open spec fn gave_pair<K, V>(item: Option<Result<Pair<K, V>, StorageError>>) -> bool {
    item matches Some(Ok(_))
}

/// The pull gave the failure of a read.
pub open spec fn gave_failure<K, V>(item: Option<Result<Pair<K, V>, StorageError>>) -> bool {
    item matches Some(Err(_))
}

/// How a pull relates what was left before it, what is left after it, and
/// what it gave.
pub open spec fn advance_spec<K, V>(
    before: Seq<Pair<K, V>>,
    after: Seq<Pair<K, V>>,
    item: Option<Result<Pair<K, V>, StorageError>>,
) -> bool {
    match item {
        None => before.len() == 0 && after == before,
        Some(Ok(pair)) => before.len() > 0 && pair == before[0] && after == before.skip(1),
        Some(Err(_)) => after == before,
    }
}

/// `descent` is `stack` with a frame more for every branch on the way down
/// from the child at its cursor, each of them with its cursor at its
/// leftmost child.
pub open spec fn is_descent_of<K, V>(
    nodes: NodeMap<K, V>,
    root: HashValue,
    stack: Seq<NodeVisitInfo>,
    descent: Seq<NodeVisitInfo>,
) -> bool {
    &&& stack_inv(nodes, root, descent)
    &&& stack.len() <= descent.len()
    &&& descent.take(stack.len() as int) == stack
    &&& forall|i: int|
        stack.len() <= i < descent.len() ==> (#[trigger] descent[i]).node().is_first_child_from(
            0,
            descent[i].cursor(),
        )
}

/// Where a pull that gave `pair` leaves the stack and the latch.
///
/// On an empty stack the pair is that of the root, a leaf, and the latch is
/// set. Else the walk has gone down from the cursor of the stack to the
/// leftmost leaf below it, which holds the pair, and the stack is what stack
/// cleanup makes of the path to that leaf.
pub open spec fn is_yield_of<K, V>(
    nodes: NodeMap<K, V>,
    root: HashValue,
    before: Seq<NodeVisitInfo>,
    done_before: bool,
    after: Seq<NodeVisitInfo>,
    done_after: bool,
    pair: Pair<K, V>,
) -> bool {
    if before.len() == 0 {
        &&& nodes[root] == Node::Leaf(LeafNode { key: pair.0, value: pair.1 })
        &&& after == before
        &&& done_after
    } else {
        &&& done_after == done_before
        &&& exists|descent: Seq<NodeVisitInfo>|
            #![trigger is_descent_of(nodes, root, before, descent)]
            {
                &&& is_descent_of(nodes, root, before, descent)
                &&& nodes[descent.last().node().child_at(descent.last().cursor()).unwrap()]
                    == Node::Leaf(LeafNode { key: pair.0, value: pair.1 })
                &&& is_cleanup_of(descent, after)
            }
    }
}

/// What is yielded on the node that was read for the root while the stack
/// is empty: the pair of a leaf, and nothing on a branch.
pub open spec fn visit_root_spec<K, V>(node: Node<K, V>) -> Option<Pair<K, V>> {
    match node {
        Node::Leaf(leaf_node) => Some(leaf_node.pair()),
        _ => None,
    }
}

/// The pull on an empty stack: `node` is what the store gave for the root. A
/// leaf is the one pair of the tree, to be yielded once. A branch means that
/// no key is left. The empty node cannot be met here.
pub fn visit_root<K, V>(node: Node<K, V>) -> (yielded: Option<Pair<K, V>>)
    requires
        !(node is Null),
    ensures
        yielded == visit_root_spec(node),
{
    match node {
        Node::Leaf(leaf_node) => Some(leaf_node.into_pair()),
        Node::Internal(_) => None,
        Node::Null => vstd::pervasive::unreached(),
    }
}

/// What the walk does with the node that was read for the child at the
/// cursor: it pushes a frame for a branch, and yields the pair of a leaf.
pub open spec fn visit_child_spec<K, V>(
    before: Seq<NodeVisitInfo>,
    after: Seq<NodeVisitInfo>,
    node_key: HashValue,
    node: Node<K, V>,
    yielded: Option<Pair<K, V>>,
) -> bool {
    match node {
        Node::Internal(internal_node) => yielded is None && is_push_of(
            before,
            after,
            node_key,
            internal_node,
            0,
        ),
        Node::Leaf(leaf_node) => yielded == Some(leaf_node.pair()) && is_cleanup_of(before, after),
        Node::Null => false,
    }
}

/// One step of the advance: `node` is what the store gave for `node_key`,
/// the child at the cursor of the last frame. A branch gets a frame of its
/// own, with the cursor at its leftmost child, and nothing is yielded yet. A
/// leaf gives its pair, and the stack is cleaned up for the next pull. The
/// empty node is no child of a branch.
pub fn visit_child<K, V>(
    parent_stack: &mut Vec<NodeVisitInfo>,
    node_key: HashValue,
    node: Node<K, V>,
) -> (yielded: Option<Pair<K, V>>)
    requires
        frames_wf(old(parent_stack)@),
        !(node is Null),
        node matches Node::Internal(internal_node) ==> internal_node.wf(),
    ensures
        visit_child_spec(old(parent_stack)@, final(parent_stack)@, node_key, node, yielded),
{
    match node {
        Node::Internal(internal_node) => {
            let visit_info = NodeVisitInfo::new(node_key, internal_node);
            parent_stack.push(visit_info);
            assert(parent_stack@.drop_last() =~= old(parent_stack)@);
            None
        },
        Node::Leaf(leaf_node) => {
            let ret = leaf_node.into_pair();
            cleanup_stack(parent_stack);
            Some(ret)
        },
        Node::Null => vstd::pervasive::unreached(),
    }
}

/// One pull: gives the next pair and moves the state past it, or gives
/// nothing when no pair is left.
///
/// On a failed read the state is as it was before the pull, so that the pull
/// can be made again.
pub fn advance<K, V, R: TreeReader<K, V>>(
    reader: &R,
    state_root_hash: HashValue,
    parent_stack: &mut Vec<NodeVisitInfo>,
    done: &mut bool,
) -> (item: Option<Result<Pair<K, V>, StorageError>>)
    requires
        state_inv(reader.nodes(), state_root_hash, old(parent_stack)@, *old(done)),
    ensures
        state_inv(reader.nodes(), state_root_hash, final(parent_stack)@, *final(done)),
        advance_spec(
            remaining(reader.nodes(), state_root_hash, old(parent_stack)@, *old(done)),
            remaining(reader.nodes(), state_root_hash, final(parent_stack)@, *final(done)),
            item,
        ),
        !gave_pair(item) ==> final(parent_stack)@ == old(parent_stack)@ && *final(done) == *old(
            done,
        ),
        item matches Some(Ok(pair)) ==> is_yield_of(
            reader.nodes(),
            state_root_hash,
            old(parent_stack)@,
            *old(done),
            final(parent_stack)@,
            *final(done),
            pair,
        ),
        reader.never_fails() ==> !gave_failure(item),
{
    if *done {
        return None;
    }
    if parent_stack.is_empty() {
        let root_node_key = state_root_hash;
        match reader.get_node(&root_node_key) {
            Ok(node) => {
                let yielded = visit_root(node);
                match yielded {
                    Some(pair) => {
                        *done = true;
                        assert(seq![pair].skip(1) =~= Seq::empty());
                        return Some(Ok(pair));
                    },
                    None => {
                        return None;
                    },
                }
            },
            Err(error) => {
                return Some(Err(error));
            },
        }
    }
    let depth_at_entry = parent_stack.len();
    assert(parent_stack@.take(depth_at_entry as int) =~= parent_stack@);
    loop
        invariant
            state_inv(reader.nodes(), state_root_hash, old(parent_stack)@, *old(done)),
            state_inv(reader.nodes(), state_root_hash, parent_stack@, *done),
            !*done,
            *done == *old(done),
            0 < depth_at_entry == old(parent_stack)@.len(),
            is_descent_of(reader.nodes(), state_root_hash, old(parent_stack)@, parent_stack@),
            pending(reader.nodes(), parent_stack@) == pending(reader.nodes(), old(parent_stack)@),
        decreases 64 - parent_stack@.len(),
    {
        let ghost nodes = reader.nodes();
        let ghost before = parent_stack@;
        proof {
            lemma_stack_depth(nodes, state_root_hash, before);
            assert(frame_inv(nodes, before, before.len() - 1));
            assert(frame_inv(nodes, before, 0));
            before.last().lemma_wf();
            lemma_child_subtree(
                nodes,
                before.last().node_key(),
                path_of(before, before.len() - 1),
                before.last().node(),
                before.last().cursor(),
            );
        }
        let node_key = parent_stack[parent_stack.len() - 1].next_child_key();
        match reader.get_node(&node_key) {
            Ok(node) => {
                let ghost node_read = node;
                let yielded = visit_child(parent_stack, node_key, node);
                proof {
                    match node_read {
                        Node::Internal(internal_node) => {
                            lemma_descend(
                                nodes,
                                state_root_hash,
                                before,
                                parent_stack@,
                                node_key,
                                internal_node,
                            );
                            lemma_stack_depth(nodes, state_root_hash, parent_stack@);
                            assert(parent_stack@.take(depth_at_entry as int) =~= before.take(
                                depth_at_entry as int,
                            ));
                            assert forall|i: int|
                                depth_at_entry <= i < parent_stack@.len() implies (
                            #[trigger] parent_stack@[i]).node().is_first_child_from(
                                0,
                                parent_stack@[i].cursor(),
                            ) by {
                                if i < before.len() {
                                    assert(parent_stack@[i] == before[i]);
                                }
                            }
                        },
                        Node::Leaf(leaf_node) => {
                            lemma_pending_unfold(nodes, before);
                            lemma_cleanup_pending(nodes, before, parent_stack@);
                            lemma_cleanup_inv(nodes, state_root_hash, before, parent_stack@);
                            let rest = pending_after(nodes, before);
                            assert((seq![leaf_node.pair()] + rest).skip(1) =~= rest);
                            assert(is_descent_of(nodes, state_root_hash, old(parent_stack)@, before));
                        },
                        Node::Null => {},
                    }
                }
                match yielded {
                    Some(pair) => {
                        return Some(Ok(pair));
                    },
                    None => {},
                }
            },
            Err(error) => {
                parent_stack.truncate(depth_at_entry);
                assert(parent_stack@ =~= old(parent_stack)@);
                return Some(Err(error));
            },
        }
    }
}

/// Pushing a frame for the branch below the cursor, its own cursor at its
/// first child, leaves a path in the tree and changes nothing in what the
/// stack has yet to yield.
pub proof fn lemma_descend<K, V>(
    nodes: NodeMap<K, V>,
    root: HashValue,
    before: Seq<NodeVisitInfo>,
    after: Seq<NodeVisitInfo>,
    child_key: HashValue,
    node: InternalNode,
)
    requires
        stack_inv(nodes, root, before),
        before.len() > 0,
        before.last().node().child_at(before.last().cursor()) == Some(child_key),
        nodes.contains_key(child_key),
        nodes[child_key] == Node::<K, V>::Internal(node),
        is_push_of(before, after, child_key, node, 0),
    ensures
        stack_inv(nodes, root, after),
        pending(nodes, after) == pending(nodes, before),
{
    let depth = before.len() as int;
    let top = before.last();
    lemma_stack_depth(nodes, root, before);
    top.lemma_wf();
    after.last().lemma_wf();
    assert(frame_inv(nodes, before, depth - 1));
    lemma_path_extends(before, after);
    assert(subtree_wf(nodes, child_key, path_of(after, depth)));
    assert forall|i: int| 0 <= i < after.len() implies frame_inv(nodes, after, i) by {
        if i < depth {
            assert(frame_inv(nodes, before, i));
            assert(after[i] == before[i]);
            assert(path_of(after, i) =~= path_of(before, i));
            if i + 1 < depth {
                assert(after[i + 1] == before[i + 1]);
            }
        }
    }
    assert(after[0] == before[0]);
    lemma_pending_unfold(nodes, before);
    lemma_skip_empty_slots(nodes, node, depth as nat, 0, after.last().cursor() as nat);
}

} // verus!
