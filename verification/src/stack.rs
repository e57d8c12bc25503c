//! The traversal stack: the path of branches from the root to where the
//! walk stands, what it has yet to yield, and how stack cleanup moves it.

use crate::hash::HashValue;
use crate::node::{InternalNode, Node, NodeMap, Pair};
use crate::tree::{
    children_leaves, lemma_children_leaves_unfold, lemma_no_children_left,
    lemma_skip_empty_slots, subtree_leaves, subtree_wf, tree_wf,
};
use crate::visit::NodeVisitInfo;
use vstd::prelude::*;

verus! {

/// The path at which the branch of frame `i` lies: the cursors of the frames before it.
pub open spec fn path_of(stack: Seq<NodeVisitInfo>, i: int) -> Seq<u8> {
    Seq::new(i as nat, |j: int| stack[j].cursor() as u8)
}

/// Frame `i` of the stack is consistent, holds a branch of the tree at the
/// path that the frames before it spell, and leads to the frame after it.
pub open spec fn frame_inv<K, V>(
    nodes: NodeMap<K, V>,
    stack: Seq<NodeVisitInfo>,
    i: int,
) -> bool {
    &&& stack[i].wf()
    &&& nodes.contains_key(stack[i].node_key())
    &&& nodes[stack[i].node_key()] == Node::<K, V>::Internal(stack[i].node())
    &&& subtree_wf(nodes, stack[i].node_key(), path_of(stack, i))
    &&& (i + 1 < stack.len() ==> stack[i].node().child_at(stack[i].cursor()) == Some(
        stack[i + 1].node_key(),
    ))
}

/// The stack is a path of branches from the root down, each frame pointing
/// at the child that the next frame holds.
pub open spec fn stack_inv<K, V>(
    nodes: NodeMap<K, V>,
    root: HashValue,
    stack: Seq<NodeVisitInfo>,
) -> bool {
    &&& (stack.len() > 0 ==> stack[0].node_key() == root)
    &&& forall|i: int| 0 <= i < stack.len() ==> frame_inv(nodes, stack, i)
}

/// Every frame of the stack is consistent.
pub open spec fn frames_wf(stack: Seq<NodeVisitInfo>) -> bool {
    forall|i: int| 0 <= i < stack.len() ==> (#[trigger] stack[i]).wf()
}

/// The pairs that lie to the right of the stack's path: below the children
/// after the cursor of the last frame, then after that of the frame before
/// it, and so on up to the root.
pub open spec fn pending_after<K, V>(
    nodes: NodeMap<K, V>,
    stack: Seq<NodeVisitInfo>,
) -> Seq<Pair<K, V>>
    decreases stack.len(),
{
    if stack.len() == 0 {
        Seq::empty()
    } else {
        children_leaves(
            nodes,
            stack.last().node(),
            (stack.len() - 1) as nat,
            (stack.last().cursor() + 1) as nat,
        ) + pending_after(nodes, stack.drop_last())
    }
}

/// The pairs that a stack has yet to yield: those below the child at the
/// cursor of the last frame, and those to the right of the path.
pub open spec fn pending<K, V>(
    nodes: NodeMap<K, V>,
    stack: Seq<NodeVisitInfo>,
) -> Seq<Pair<K, V>> {
    if stack.len() == 0 {
        Seq::empty()
    } else {
        children_leaves(
            nodes,
            stack.last().node(),
            (stack.len() - 1) as nat,
            stack.last().cursor() as nat,
        ) + pending_after(nodes, stack.drop_last())
    }
}

/// The pairs that an iteration in the given state has yet to yield.
///
/// An empty stack does not by itself mean that nothing is left: where the
/// root is a leaf, the stack is empty before that leaf is yielded, and the
/// latch `done` tells the two apart.
pub open spec fn remaining<K, V>(
    nodes: NodeMap<K, V>,
    root: HashValue,
    stack: Seq<NodeVisitInfo>,
    done: bool,
) -> Seq<Pair<K, V>> {
    if done {
        Seq::empty()
    } else if stack.len() == 0 {
        match nodes[root] {
            Node::Leaf(leaf) => seq![leaf.pair()],
            _ => Seq::empty(),
        }
    } else {
        pending(nodes, stack)
    }
}

/// The state of an iteration is sound: the tree is well formed, the stack is
/// a path in it, and an iteration over the empty tree is latched.
pub open spec fn state_inv<K, V>(
    nodes: NodeMap<K, V>,
    root: HashValue,
    stack: Seq<NodeVisitInfo>,
    done: bool,
) -> bool {
    &&& tree_wf(nodes, root)
    &&& stack_inv(nodes, root, stack)
    &&& (!done && stack.len() == 0 ==> !(nodes[root] is Null))
}

/// `after` is `before` with the cursor moved to the next child on the right.
pub open spec fn is_advance_of(before: NodeVisitInfo, after: NodeVisitInfo) -> bool {
    &&& after.wf()
    &&& after.node_key() == before.node_key()
    &&& after.node() == before.node()
    &&& before.node().is_first_child_from(before.cursor() + 1, after.cursor())
}

/// `after` is what stack cleanup makes of `before`: the frames at the end
/// whose cursor is at their last child are gone, and the last frame that is
/// left has its cursor moved to its next child.
pub open spec fn is_cleanup_of(before: Seq<NodeVisitInfo>, after: Seq<NodeVisitInfo>) -> bool {
    &&& after.len() <= before.len()
    &&& forall|i: int| 0 <= i < after.len() - 1 ==> after[i] == before[i]
    &&& forall|i: int|
        after.len() <= i < before.len() ==> (#[trigger] before[i]).spec_is_rightmost()
    &&& after.len() > 0 ==> {
        &&& !before[after.len() - 1].spec_is_rightmost()
        &&& is_advance_of(before[after.len() - 1], after[after.len() - 1])
    }
}

/// `after` is `before` with one more frame: a consistent frame for the
/// branch `node` named `node_key`, its cursor at the first child at or after `from`.
pub open spec fn is_push_of(
    before: Seq<NodeVisitInfo>,
    after: Seq<NodeVisitInfo>,
    node_key: HashValue,
    node: InternalNode,
    from: int,
) -> bool {
    &&& after.len() == before.len() + 1
    &&& after.drop_last() == before
    &&& after.last().wf()
    &&& after.last().node_key() == node_key
    &&& after.last().node() == node
    &&& node.is_first_child_from(from, after.last().cursor())
}

/// Stack cleanup: pops the frames whose children are all visited, and moves
/// the first frame that has a child left to that child.
pub fn cleanup_stack(parent_stack: &mut Vec<NodeVisitInfo>)
    requires
        frames_wf(old(parent_stack)@),
    ensures
        is_cleanup_of(old(parent_stack)@, final(parent_stack)@),
{
    loop
        invariant_except_break
            frames_wf(old(parent_stack)@),
            parent_stack@.len() <= old(parent_stack)@.len(),
            parent_stack@ == old(parent_stack)@.take(parent_stack@.len() as int),
            forall|i: int|
                parent_stack@.len() <= i < old(parent_stack)@.len() ==> (#[trigger] old(
                    parent_stack,
                )@[i]).spec_is_rightmost(),
        ensures
            is_cleanup_of(old(parent_stack)@, parent_stack@),
        decreases parent_stack@.len(),
    {
        match parent_stack.pop() {
            None => {
                break ;
            },
            Some(mut info) => {
                assert(info == old(parent_stack)@[parent_stack@.len() as int]);
                if !info.is_rightmost() {
                    info.advance();
                    parent_stack.push(info);
                    break ;
                }
                assert(parent_stack@ =~= old(parent_stack)@.take(parent_stack@.len() as int));
            },
        }
    }
}

/// A stack that is a path in a well-formed tree has at most 64 frames.
pub proof fn lemma_stack_depth<K, V>(
    nodes: NodeMap<K, V>,
    root: HashValue,
    stack: Seq<NodeVisitInfo>,
)
    requires
        stack_inv(nodes, root, stack),
    ensures
        stack.len() <= 64,
        frames_wf(stack),
{
    if stack.len() > 0 {
        assert(frame_inv(nodes, stack, stack.len() - 1));
    }
    assert forall|i: int| 0 <= i < stack.len() implies (#[trigger] stack[i]).wf() by {
        assert(frame_inv(nodes, stack, i));
    }
}

/// What a stack has yet to yield is what lies below the child at its cursor,
/// followed by what lies to the right of its path.
pub proof fn lemma_pending_unfold<K, V>(
    nodes: NodeMap<K, V>,
    stack: Seq<NodeVisitInfo>,
)
    requires
        0 < stack.len() <= 64,
        stack.last().wf(),
    ensures
        pending(nodes, stack) == subtree_leaves(
            nodes,
            stack.last().node().child_at(stack.last().cursor()).unwrap(),
            stack.len(),
        ) + pending_after(nodes, stack),
{
    let top = stack.last();
    top.lemma_wf();
    let depth = (stack.len() - 1) as nat;
    lemma_children_leaves_unfold(nodes, top.node(), depth, top.cursor() as nat);
    let below = subtree_leaves(nodes, top.node().child_at(top.cursor()).unwrap(), stack.len());
    let right = children_leaves(nodes, top.node(), depth, (top.cursor() + 1) as nat);
    let above = pending_after(nodes, stack.drop_last());
    assert((below + right) + above =~= below + (right + above));
}

/// After stack cleanup the stack has yet to yield what lay to the right of
/// its path before.
pub proof fn lemma_cleanup_pending<K, V>(
    nodes: NodeMap<K, V>,
    before: Seq<NodeVisitInfo>,
    after: Seq<NodeVisitInfo>,
)
    requires
        frames_wf(before),
        is_cleanup_of(before, after),
    ensures
        pending(nodes, after) == pending_after(nodes, before),
    decreases before.len(),
{
    if before.len() > 0 {
        let top = before.last();
        top.lemma_wf();
        let depth = (before.len() - 1) as nat;
        if after.len() == before.len() {
            assert(after.drop_last() =~= before.drop_last());
            lemma_skip_empty_slots(
                nodes,
                top.node(),
                depth,
                (top.cursor() + 1) as nat,
                after.last().cursor() as nat,
            );
        } else {
            assert(top.spec_is_rightmost());
            lemma_no_children_left(nodes, top.node(), depth, (top.cursor() + 1) as nat);
            assert(Seq::<Pair<K, V>>::empty() + pending_after(
                nodes,
                before.drop_last(),
            ) =~= pending_after(nodes, before.drop_last()));
            assert(is_cleanup_of(before.drop_last(), after));
            lemma_cleanup_pending(nodes, before.drop_last(), after);
        }
    }
}

/// Stack cleanup leaves a path in the tree.
pub proof fn lemma_cleanup_inv<K, V>(
    nodes: NodeMap<K, V>,
    root: HashValue,
    before: Seq<NodeVisitInfo>,
    after: Seq<NodeVisitInfo>,
)
    requires
        stack_inv(nodes, root, before),
        is_cleanup_of(before, after),
    ensures
        stack_inv(nodes, root, after),
{
    assert forall|i: int| 0 <= i < after.len() implies frame_inv(nodes, after, i) by {
        assert(frame_inv(nodes, before, i));
        assert(path_of(after, i) =~= path_of(before, i));
        if i + 1 < after.len() {
            assert(frame_inv(nodes, before, i + 1));
        }
    }
    if after.len() > 0 {
        assert(frame_inv(nodes, before, 0));
    }
}

/// The path of a pushed frame is the path of the frame below it, extended
/// by that frame's cursor; the paths of the other frames are as they were.
pub proof fn lemma_path_extends(before: Seq<NodeVisitInfo>, after: Seq<NodeVisitInfo>)
    requires
        after.len() == before.len() + 1,
        after.drop_last() == before,
    ensures
        forall|i: int|
            0 <= i <= before.len() ==> #[trigger] path_of(after, i) == path_of(before, i),
        before.len() > 0 ==> path_of(after, before.len() as int) == path_of(
            before,
            before.len() - 1,
        ).push(before.last().cursor() as u8),
{
    assert forall|i: int| 0 <= i <= before.len() implies #[trigger] path_of(after, i) == path_of(
        before,
        i,
    ) by {
        assert forall|j: int| 0 <= j < i implies after[j] == before[j] by {
            assert(after.drop_last()[j] == after[j]);
        }
        assert(path_of(after, i) =~= path_of(before, i));
    }
    if before.len() > 0 {
        assert(path_of(before, before.len() as int) =~= path_of(before, before.len() - 1).push(
            before.last().cursor() as u8,
        ));
    }
}

} // verus!
