//! The seek: the walk from the root along the nibbles of the starting key,
//! made once when an iteration begins, which leaves the stack at the first
//! pair whose key is at or after the starting key.

use crate::bitmap::{lemma_empty_bitmap, lemma_highest_bit};
use crate::hash::{lemma_nibbles_small, HashValue};
use crate::node::{InternalNode, LeafNode, Node, NodeMap, Pair};
use crate::stack::{
    cleanup_stack, frame_inv, frames_wf, is_cleanup_of, is_push_of, lemma_cleanup_inv,
    lemma_cleanup_pending, lemma_path_extends, lemma_pending_unfold, lemma_stack_depth, path_of,
    pending, pending_after, remaining, stack_inv, state_inv,
};
use crate::store::{StorageError, TreeReader};
use crate::tree::{
    at_or_after, children_leaves, children_wf, leaves_from, lemma_child_subtree,
    lemma_children_leaves_unfold, lemma_filter_drops_all, lemma_filter_keeps_all,
    lemma_left_children_dropped, lemma_no_children_left, lemma_right_children_kept,
    lemma_skip_empty_slots, subtree_leaves, subtree_wf, tree_leaves, tree_wf,
};
use crate::visit::NodeVisitInfo;
use vstd::prelude::*;
use vstd::std_specs::bits::u16_leading_zeros;

verus! {

/// What one step of the seek decides.
#[derive(Clone, Copy, Debug, PartialEq, Eq)]
pub enum SeekStep {
    /// The seek goes on at the child with this identifier.
    Continue(HashValue),
    /// The stack is in place. The flag is the latch: it is set where nothing
    /// in the tree is at or after the starting key and the stack cannot tell.
    Stop(bool),
}

/// What one step of the seek does with the node that was read at the end
/// of the path so far.
///
/// On a branch the next nibble of the starting key names a slot. Where the
/// slot holds a child, a frame pointing at it is pushed and the seek goes on
/// there. Where the slot is empty and a later one is not, a frame pointing
/// at the first later child is pushed, and the stack is in place. Where no
/// later slot holds a child, nothing below this branch is left, and the stack
/// is cleaned up. On a leaf before the starting key the stack is cleaned up,
/// and the latch is set if nothing is left of it. On any other leaf the stack
/// stays. On the empty node the latch is set.
pub open spec fn seek_step_spec<K, V>(
    before: Seq<NodeVisitInfo>,
    after: Seq<NodeVisitInfo>,
    node_key: HashValue,
    node: Node<K, V>,
    starting_key: HashValue,
    step: SeekStep,
) -> bool {
    match node {
        Node::Null => step == SeekStep::Stop(true) && after == before,
        Node::Leaf(leaf_node) => if leaf_node.key.hash.spec_lt(starting_key) {
            is_cleanup_of(before, after) && step == SeekStep::Stop(after.len() == 0)
        } else {
            after == before && step == SeekStep::Stop(false)
        },
        Node::Internal(internal_node) => {
            let slot = starting_key.nibbles()[before.len() as int] as int;
            if internal_node.has_child(slot) {
                &&& step == SeekStep::Continue(internal_node.child_at(slot).unwrap())
                &&& is_push_of(before, after, node_key, internal_node, slot)
            } else if !internal_node.no_child_from(slot) {
                &&& step == SeekStep::Stop(false)
                &&& is_push_of(before, after, node_key, internal_node, slot)
            } else {
                &&& step == SeekStep::Stop(false)
                &&& is_cleanup_of(before, after)
            }
        },
    }
}

/// One step of the seek: `node` is what the store gave for `node_key`, the
/// node at the end of the path that the stack holds. A branch must have a
/// child and lie less than 64 levels deep.
pub fn seek_step<K, V>(
    parent_stack: &mut Vec<NodeVisitInfo>,
    node_key: HashValue,
    node: Node<K, V>,
    starting_key: &HashValue,
) -> (step: SeekStep)
    requires
        frames_wf(old(parent_stack)@),
        node matches Node::Internal(internal_node) ==> internal_node.wf() && old(
            parent_stack,
        )@.len() < 64,
    ensures
        seek_step_spec(
            old(parent_stack)@,
            final(parent_stack)@,
            node_key,
            node,
            *starting_key,
            step,
        ),
{
    match node {
        Node::Internal(internal_node) => {
            let child_index = starting_key.nibble(parent_stack.len());
            match internal_node.child(child_index) {
                Some(child) => {
                    // If this child exists, we just push the node onto stack and repeat.
                    parent_stack.push(
                        NodeVisitInfo::new_next_child_to_visit(
                            node_key,
                            internal_node,
                            child_index,
                        ),
                    );
                    assert(parent_stack@.drop_last() =~= old(parent_stack)@);
                    SeekStep::Continue(child)
                },
                None => {
                    let bitmap = internal_node.generate_bitmap();
                    proof {
                        lemma_empty_bitmap(bitmap);
                        lemma_highest_bit(bitmap);
                        let highest = 15 - u16_leading_zeros(bitmap);
                        assert(internal_node.has_child(highest));
                    }
                    if (child_index as u32) < 15 - bitmap.leading_zeros() {
                        // If this child does not exist and there's another child on the
                        // right, we set the child on the right to be the next one to visit.
                        parent_stack.push(
                            NodeVisitInfo::new_next_child_to_visit(
                                node_key,
                                internal_node,
                                child_index,
                            ),
                        );
                        assert(parent_stack@.drop_last() =~= old(parent_stack)@);
                    } else {
                        // Otherwise we have done visiting this node. Go backward and clean
                        // up the stack.
                        cleanup_stack(parent_stack);
                    }
                    SeekStep::Stop(false)
                },
            }
        },
        Node::Leaf(leaf_node) => {
            if leaf_node.key().merkle_hash().lt(starting_key) {
                cleanup_stack(parent_stack);
                SeekStep::Stop(parent_stack.is_empty())
            } else {
                SeekStep::Stop(false)
            }
        },
        Node::Null => SeekStep::Stop(true),
    }
}

/// The stack is the path that the starting key spells in the tree, as far
/// as the node `current`: a path of branches from the root down, each with
/// its cursor at the slot that the next nibble of the starting key names, the
/// last of them pointing at `current`.
pub open spec fn is_seek_path<K, V>(
    nodes: NodeMap<K, V>,
    root: HashValue,
    starting_key: HashValue,
    stack: Seq<NodeVisitInfo>,
    current: HashValue,
) -> bool {
    &&& stack_inv(nodes, root, stack)
    &&& nodes.contains_key(current)
    &&& (stack.len() == 0 ==> current == root)
    &&& (stack.len() > 0 ==> stack.last().node().child_at(stack.last().cursor()) == Some(current))
    &&& has_prefix_of_start(stack, starting_key)
}

/// What holds between two steps of the seek, when the node `current` is the
/// next to be read: the stack is the path to it that the starting key spells,
/// and the pairs at or after the starting key are those below `current`,
/// followed by those to the right of the path.
pub open spec fn seek_inv<K, V>(
    nodes: NodeMap<K, V>,
    root: HashValue,
    starting_key: HashValue,
    stack: Seq<NodeVisitInfo>,
    current: HashValue,
) -> bool {
    &&& tree_wf(nodes, root)
    &&& is_seek_path(nodes, root, starting_key, stack, current)
    &&& (stack.len() == 0 && nodes[current] is Null || subtree_wf(
        nodes,
        current,
        path_of(stack, stack.len() as int),
    ))
    &&& leaves_from(nodes, root, starting_key) == subtree_leaves(
        nodes,
        current,
        stack.len(),
    ).filter(at_or_after(starting_key)) + pending_after(nodes, stack)
}

/// The cursors of the stack are the first nibbles of the starting key.
pub open spec fn has_prefix_of_start(stack: Seq<NodeVisitInfo>, starting_key: HashValue) -> bool {
    forall|j: int|
        0 <= j < stack.len() ==> (#[trigger] stack[j]).cursor() == starting_key.nibbles()[j]
}

/// The stack and the latch are what the seek leaves behind: what its
/// stopping step makes of the path that the starting key spells in the tree.
pub open spec fn is_seek_result<K, V>(
    nodes: NodeMap<K, V>,
    root: HashValue,
    starting_key: HashValue,
    stack: Seq<NodeVisitInfo>,
    done: bool,
) -> bool {
    exists|path: Seq<NodeVisitInfo>, last: HashValue|
        #![trigger is_seek_path(nodes, root, starting_key, path, last)]
        is_seek_path(nodes, root, starting_key, path, last) && seek_step_spec(
            path,
            stack,
            last,
            nodes[last],
            starting_key,
            SeekStep::Stop(done),
        )
}

/// What the seek has reached when it stops: a sound state that has yet to
/// yield exactly the pairs at or after the starting key, with the stack
/// where the steps of the seek have put it.
pub open spec fn seek_done<K, V>(
    nodes: NodeMap<K, V>,
    root: HashValue,
    starting_key: HashValue,
    stack: Seq<NodeVisitInfo>,
    done: bool,
) -> bool {
    &&& state_inv(nodes, root, stack, done)
    &&& remaining(nodes, root, stack, done) == leaves_from(nodes, root, starting_key)
    &&& is_seek_result(nodes, root, starting_key, stack, done)
}

/// The seek: walks from the root along the nibbles of `starting_key` and
/// leaves the stack at the first pair whose key is at or after it.
///
/// The tree under the root must be well formed. A read that fails ends the
/// seek with the failure.
pub fn seek<K, V, R: TreeReader<K, V>>(
    reader: &R,
    state_root_hash: HashValue,
    starting_key: HashValue,
) -> (result: Result<(Vec<NodeVisitInfo>, bool), StorageError>)
    requires
        tree_wf(reader.nodes(), state_root_hash),
    ensures
        result matches Ok((parent_stack, done)) ==> seek_done(
            reader.nodes(),
            state_root_hash,
            starting_key,
            parent_stack@,
            done,
        ),
        reader.never_fails() ==> result is Ok,
{
    let mut parent_stack: Vec<NodeVisitInfo> = Vec::new();
    let mut current_node_key = state_root_hash;
    proof {
        lemma_seek_start(reader.nodes(), state_root_hash, starting_key);
    }
    loop
        invariant
            seek_inv(
                reader.nodes(),
                state_root_hash,
                starting_key,
                parent_stack@,
                current_node_key,
            ),
        decreases 64 - parent_stack@.len(),
    {
        let ghost before = parent_stack@;
        proof {
            lemma_stack_depth(reader.nodes(), state_root_hash, before);
        }
        let node = match reader.get_node(&current_node_key) {
            Ok(node) => node,
            Err(error) => {
                return Err(error);
            },
        };
        let step = seek_step(&mut parent_stack, current_node_key, node, &starting_key);
        proof {
            lemma_seek_step(
                reader.nodes(),
                state_root_hash,
                starting_key,
                before,
                parent_stack@,
                current_node_key,
                step,
            );
        }
        match step {
            SeekStep::Continue(child) => {
                proof {
                    lemma_stack_depth(reader.nodes(), state_root_hash, parent_stack@);
                }
                current_node_key = child;
            },
            SeekStep::Stop(done) => {
                return Ok((parent_stack, done));
            },
        }
    }
}

/// The seek starts at the root with an empty stack.
pub proof fn lemma_seek_start<K, V>(
    nodes: NodeMap<K, V>,
    root: HashValue,
    starting_key: HashValue,
)
    requires
        tree_wf(nodes, root),
    ensures
        seek_inv(nodes, root, starting_key, Seq::<NodeVisitInfo>::empty(), root),
{
    let stack = Seq::<NodeVisitInfo>::empty();
    assert(path_of(stack, 0) =~= Seq::<u8>::empty());
    let below = tree_leaves(nodes, root).filter(at_or_after(starting_key));
    assert(below + pending_after(nodes, stack) =~= below);
}

/// A step of the seek keeps the seek going in order, or stops it in a sound
/// state that has yet to yield exactly the pairs at or after the starting key.
pub proof fn lemma_seek_step<K, V>(
    nodes: NodeMap<K, V>,
    root: HashValue,
    starting_key: HashValue,
    before: Seq<NodeVisitInfo>,
    after: Seq<NodeVisitInfo>,
    current: HashValue,
    step: SeekStep,
)
    requires
        seek_inv(nodes, root, starting_key, before, current),
        seek_step_spec(before, after, current, nodes[current], starting_key, step),
    ensures
        match step {
            SeekStep::Continue(child) => seek_inv(nodes, root, starting_key, after, child),
            SeekStep::Stop(done) => seek_done(nodes, root, starting_key, after, done),
        },
{
    assert(is_seek_path(nodes, root, starting_key, before, current));
    match nodes[current] {
        Node::Null => {
            lemma_seek_null(nodes, root, starting_key, before, current);
        },
        Node::Leaf(leaf_node) => {
            lemma_seek_leaf(nodes, root, starting_key, before, after, current, leaf_node, step);
        },
        Node::Internal(internal_node) => {
            lemma_seek_branch_facts(nodes, root, starting_key, before, current, internal_node);
            let slot = starting_key.nibbles()[before.len() as int] as int;
            if internal_node.has_child(slot) {
                lemma_seek_descend(
                    nodes,
                    root,
                    starting_key,
                    before,
                    after,
                    current,
                    internal_node,
                );
            } else if !internal_node.no_child_from(slot) {
                lemma_seek_settle(
                    nodes,
                    root,
                    starting_key,
                    before,
                    after,
                    current,
                    internal_node,
                );
            } else {
                lemma_seek_retreat(
                    nodes,
                    root,
                    starting_key,
                    before,
                    after,
                    current,
                    internal_node,
                );
            }
        },
    }
}

/// The seek that meets the empty node stops latched, with nothing to yield.
proof fn lemma_seek_null<K, V>(
    nodes: NodeMap<K, V>,
    root: HashValue,
    starting_key: HashValue,
    before: Seq<NodeVisitInfo>,
    current: HashValue,
)
    requires
        seek_inv(nodes, root, starting_key, before, current),
        nodes[current] is Null,
    ensures
        seek_done(nodes, root, starting_key, before, true),
{
    let keep = at_or_after::<K, V>(starting_key);
    let none = Seq::<Pair<K, V>>::empty();
    lemma_filter_drops_all(none, keep);
    assert(before.len() == 0);
    assert(subtree_leaves(nodes, current, 0) == none);
    assert(none + pending_after(nodes, before) =~= none);
}

/// The seek that meets a leaf stops: past a leaf before the starting key
/// after a cleanup, and at any other leaf where it stands.
proof fn lemma_seek_leaf<K, V>(
    nodes: NodeMap<K, V>,
    root: HashValue,
    starting_key: HashValue,
    before: Seq<NodeVisitInfo>,
    after: Seq<NodeVisitInfo>,
    current: HashValue,
    leaf_node: LeafNode<K, V>,
    step: SeekStep,
)
    requires
        seek_inv(nodes, root, starting_key, before, current),
        nodes[current] == Node::Leaf(leaf_node),
        seek_step_spec(before, after, current, nodes[current], starting_key, step),
    ensures
        step matches SeekStep::Stop(done) && seek_done(nodes, root, starting_key, after, done),
{
    let depth = before.len();
    let keep = at_or_after::<K, V>(starting_key);
    let right = pending_after(nodes, before);
    let none = Seq::<Pair<K, V>>::empty();
    let one = seq![leaf_node.pair()];
    lemma_stack_depth(nodes, root, before);
    assert(subtree_leaves(nodes, current, depth) == one);
    if depth > 0 {
        assert(frame_inv(nodes, before, 0));
    }
    if leaf_node.key.hash.spec_lt(starting_key) {
        lemma_filter_drops_all(one, keep);
        assert(none + right =~= right);
        lemma_cleanup_pending(nodes, before, after);
        lemma_cleanup_inv(nodes, root, before, after);
    } else {
        lemma_filter_keeps_all(one, keep);
        if depth > 0 {
            lemma_pending_unfold(nodes, before);
        } else {
            assert(one + right =~= one);
        }
    }
}

/// What the seek knows at a branch: the branch lies on the path of the
/// starting key, nothing before the slot that the starting key names is at or
/// after the starting key, and everything after that slot is.
proof fn lemma_seek_branch_facts<K, V>(
    nodes: NodeMap<K, V>,
    root: HashValue,
    starting_key: HashValue,
    before: Seq<NodeVisitInfo>,
    current: HashValue,
    node: InternalNode,
)
    requires
        seek_inv(nodes, root, starting_key, before, current),
        nodes[current] == Node::<K, V>::Internal(node),
    ensures
        before.len() < 64,
        0 <= starting_key.nibbles()[before.len() as int] < 16,
        subtree_wf(nodes, current, path_of(before, before.len() as int)),
        children_wf(nodes, node, path_of(before, before.len() as int)),
        leaves_from(nodes, root, starting_key) == children_leaves(
            nodes,
            node,
            before.len(),
            starting_key.nibbles()[before.len() as int] as nat,
        ).filter(at_or_after(starting_key)) + pending_after(nodes, before),
        children_leaves(
            nodes,
            node,
            before.len(),
            (starting_key.nibbles()[before.len() as int] + 1) as nat,
        ).filter(at_or_after(starting_key)) == children_leaves(
            nodes,
            node,
            before.len(),
            (starting_key.nibbles()[before.len() as int] + 1) as nat,
        ),
{
    let depth = before.len();
    let path = path_of(before, depth as int);
    assert(subtree_wf(nodes, current, path));
    assert forall|j: int| 0 <= j < path.len() implies starting_key.nibbles()[j] == path[j] by {
        lemma_nibbles_small(starting_key, j);
        assert(before[j].cursor() == starting_key.nibbles()[j]);
    }
    let slot = starting_key.nibbles()[depth as int] as nat;
    lemma_nibbles_small(starting_key, depth as int);
    lemma_left_children_dropped(nodes, node, path, starting_key, 0);
    lemma_right_children_kept(nodes, node, path, starting_key, slot + 1);
    assert(subtree_leaves(nodes, current, depth) == children_leaves(nodes, node, depth, 0));
}

/// The seek that finds a child in the slot of the starting key goes on below it.
proof fn lemma_seek_descend<K, V>(
    nodes: NodeMap<K, V>,
    root: HashValue,
    starting_key: HashValue,
    before: Seq<NodeVisitInfo>,
    after: Seq<NodeVisitInfo>,
    current: HashValue,
    node: InternalNode,
)
    requires
        seek_inv(nodes, root, starting_key, before, current),
        nodes[current] == Node::<K, V>::Internal(node),
        node.has_child(starting_key.nibbles()[before.len() as int] as int),
        is_push_of(
            before,
            after,
            current,
            node,
            starting_key.nibbles()[before.len() as int] as int,
        ),
    ensures
        seek_inv(
            nodes,
            root,
            starting_key,
            after,
            node.child_at(starting_key.nibbles()[before.len() as int] as int).unwrap(),
        ),
{
    let depth = before.len();
    let keep = at_or_after::<K, V>(starting_key);
    let right = pending_after(nodes, before);
    let path = path_of(before, depth as int);
    let slot = starting_key.nibbles()[depth as int] as nat;
    let child = node.child_at(slot as int).unwrap();
    let below = subtree_leaves(nodes, child, depth + 1);
    let past_slot = children_leaves(nodes, node, depth, slot + 1);
    lemma_seek_branch_facts(nodes, root, starting_key, before, current, node);
    lemma_child_subtree(nodes, current, path, node, slot as int);
    lemma_children_leaves_unfold(nodes, node, depth, slot);
    Seq::filter_distributes_over_add(below, past_slot, keep);
    lemma_seek_push_inv(nodes, root, before, after, current, node);
    after.last().lemma_wf();
    assert(after.last().cursor() == slot);
    assert(path_of(after, after.len() as int) =~= path.push(slot as u8));
    assert(after.drop_last() == before);
    assert(pending_after(nodes, after) == past_slot + right);
    assert((below.filter(keep) + past_slot) + right =~= below.filter(keep) + (past_slot + right));
    assert forall|j: int| 0 <= j < after.len() implies (#[trigger] after[j]).cursor()
        == starting_key.nibbles()[j] by {
        if j < depth {
            assert(after.drop_last()[j] == after[j]);
        }
    }
}

/// The seek that finds the slot of the starting key empty, and a child in a
/// later slot, stops with the stack at that child.
proof fn lemma_seek_settle<K, V>(
    nodes: NodeMap<K, V>,
    root: HashValue,
    starting_key: HashValue,
    before: Seq<NodeVisitInfo>,
    after: Seq<NodeVisitInfo>,
    current: HashValue,
    node: InternalNode,
)
    requires
        seek_inv(nodes, root, starting_key, before, current),
        nodes[current] == Node::<K, V>::Internal(node),
        !node.has_child(starting_key.nibbles()[before.len() as int] as int),
        is_push_of(
            before,
            after,
            current,
            node,
            starting_key.nibbles()[before.len() as int] as int,
        ),
    ensures
        seek_done(nodes, root, starting_key, after, false),
{
    let depth = before.len();
    let slot = starting_key.nibbles()[depth as int] as nat;
    lemma_seek_branch_facts(nodes, root, starting_key, before, current, node);
    lemma_seek_push_inv(nodes, root, before, after, current, node);
    after.last().lemma_wf();
    let next = after.last().cursor() as nat;
    lemma_skip_empty_slots(nodes, node, depth, slot, slot + 1);
    lemma_skip_empty_slots(nodes, node, depth, slot + 1, next);
    assert(after.drop_last() == before);
    assert(pending(nodes, after) == children_leaves(nodes, node, depth, next) + pending_after(
        nodes,
        before,
    ));
}

/// The seek that finds no child at or after the slot of the starting key
/// stops after a cleanup of the stack.
proof fn lemma_seek_retreat<K, V>(
    nodes: NodeMap<K, V>,
    root: HashValue,
    starting_key: HashValue,
    before: Seq<NodeVisitInfo>,
    after: Seq<NodeVisitInfo>,
    current: HashValue,
    node: InternalNode,
)
    requires
        seek_inv(nodes, root, starting_key, before, current),
        nodes[current] == Node::<K, V>::Internal(node),
        node.no_child_from(starting_key.nibbles()[before.len() as int] as int),
        is_cleanup_of(before, after),
    ensures
        seek_done(nodes, root, starting_key, after, false),
{
    let depth = before.len();
    let keep = at_or_after::<K, V>(starting_key);
    let right = pending_after(nodes, before);
    let slot = starting_key.nibbles()[depth as int] as nat;
    let none = Seq::<Pair<K, V>>::empty();
    lemma_seek_branch_facts(nodes, root, starting_key, before, current, node);
    lemma_stack_depth(nodes, root, before);
    if depth > 0 {
        assert(frame_inv(nodes, before, 0));
    }
    lemma_no_children_left(nodes, node, depth, slot);
    lemma_filter_drops_all(none, keep);
    assert(none + right =~= right);
    lemma_cleanup_pending(nodes, before, after);
    lemma_cleanup_inv(nodes, root, before, after);
}

/// Pushing a frame for the node at the end of the seek's path leaves a path in the tree.
proof fn lemma_seek_push_inv<K, V>(
    nodes: NodeMap<K, V>,
    root: HashValue,
    before: Seq<NodeVisitInfo>,
    after: Seq<NodeVisitInfo>,
    current: HashValue,
    node: InternalNode,
)
    requires
        stack_inv(nodes, root, before),
        nodes.contains_key(current),
        nodes[current] == Node::<K, V>::Internal(node),
        before.len() == 0 ==> current == root,
        before.len() > 0 ==> before.last().node().child_at(before.last().cursor()) == Some(
            current,
        ),
        subtree_wf(nodes, current, path_of(before, before.len() as int)),
        after.len() == before.len() + 1,
        after.drop_last() == before,
        after.last().wf(),
        after.last().node_key() == current,
        after.last().node() == node,
    ensures
        stack_inv(nodes, root, after),
{
    let depth = before.len() as int;
    lemma_path_extends(before, after);
    assert forall|i: int| 0 <= i < after.len() implies frame_inv(nodes, after, i) by {
        if i < depth {
            assert(frame_inv(nodes, before, i));
            assert(after.drop_last()[i] == after[i]);
            if i + 1 < depth {
                assert(after.drop_last()[i + 1] == after[i + 1]);
            }
        }
    }
    if depth > 0 {
        assert(after.drop_last()[0] == after[0]);
    }
}

} // verus!
