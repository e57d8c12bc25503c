//! The tree that a store holds under a root: when it is well formed, and
//! which key-value pairs it stores, in which order.

use crate::hash::{fp_lt, has_prefix, lemma_lt_at, lemma_nibbles_small, HashValue};
use crate::node::{InternalNode, Node, NodeMap, Pair};
use vstd::prelude::*;

verus! {

/// The node named `id` heads a well-formed subtree that lies at `path`:
/// every node below it is in `nodes`, none of them is the empty node, every
/// branch has a child and lies less than 64 levels deep, the child in slot
/// `k` lies at the path extended by `k`, and the fingerprint of every stored
/// key begins with the path of its leaf.
pub open spec fn subtree_wf<K, V>(
    nodes: NodeMap<K, V>,
    id: HashValue,
    path: Seq<u8>,
) -> bool
    decreases 64 - path.len(),
{
    &&& path.len() <= 64
    &&& nodes.contains_key(id)
    &&& match nodes[id] {
        Node::Null => false,
        Node::Leaf(leaf) => has_prefix(leaf.key.hash.nibbles(), path),
        Node::Internal(node) => {
            &&& path.len() < 64
            &&& node.wf()
            &&& forall|k: int|
                #![trigger node.has_child(k)]
                node.has_child(k) ==> subtree_wf(
                    nodes,
                    node.child_at(k).unwrap(),
                    path.push(k as u8),
                )
        },
    }
}

/// Every child of `node`, a branch that lies at `path`, heads a well-formed subtree.
pub open spec fn children_wf<K, V>(
    nodes: NodeMap<K, V>,
    node: InternalNode,
    path: Seq<u8>,
) -> bool {
    &&& path.len() < 64
    &&& forall|k: int|
        #![trigger node.has_child(k)]
        node.has_child(k) ==> subtree_wf(nodes, node.child_at(k).unwrap(), path.push(k as u8))
}

/// `root` names a well-formed tree in `nodes`: the empty node, or the head of
/// a well-formed subtree at the empty path.
pub open spec fn tree_wf<K, V>(nodes: NodeMap<K, V>, root: HashValue) -> bool {
    &&& nodes.contains_key(root)
    &&& (nodes[root] is Null || subtree_wf(nodes, root, Seq::<u8>::empty()))
}

/// The pairs stored below the node `id` at depth `depth`, children in the
/// order of their nibbles.
pub open spec fn subtree_leaves<K, V>(
    nodes: NodeMap<K, V>,
    id: HashValue,
    depth: nat,
) -> Seq<Pair<K, V>>
    decreases 64 - depth, 17int,
{
    if !nodes.contains_key(id) {
        Seq::empty()
    } else {
        match nodes[id] {
            Node::Null => Seq::empty(),
            Node::Leaf(leaf) => seq![leaf.pair()],
            Node::Internal(node) => if depth < 64 {
                children_leaves(nodes, node, depth, 0)
            } else {
                Seq::empty()
            },
        }
    }
}

/// The pairs stored below the children of `node` in the slots `from..16`,
/// in the order of the slots; `node` lies at depth `depth`.
pub open spec fn children_leaves<K, V>(
    nodes: NodeMap<K, V>,
    node: InternalNode,
    depth: nat,
    from: nat,
) -> Seq<Pair<K, V>>
    decreases 64 - depth, 16 - from,
{
    if from >= 16 || depth >= 64 {
        Seq::empty()
    } else {
        child_leaves(nodes, node, depth, from) + children_leaves(nodes, node, depth, from + 1)
    }
}

/// The pairs stored below the child of `node` in slot `k`; none where the slot is empty.
pub open spec fn child_leaves<K, V>(
    nodes: NodeMap<K, V>,
    node: InternalNode,
    depth: nat,
    k: nat,
) -> Seq<Pair<K, V>>
    decreases 64 - depth, (16 - k) - 1,
{
    if k < 16 && depth < 64 && node.has_child(k as int) {
        subtree_leaves(nodes, node.child_at(k as int).unwrap(), depth + 1)
    } else {
        Seq::empty()
    }
}

/// All the pairs that the tree under `root` stores, in the order of the walk.
pub open spec fn tree_leaves<K, V>(nodes: NodeMap<K, V>, root: HashValue) -> Seq<
    Pair<K, V>,
> {
    subtree_leaves(nodes, root, 0)
}

/// The test that a pair passes when its key is filed at or after `start`.
pub open spec fn at_or_after<K, V>(start: HashValue) -> spec_fn(
    Pair<K, V>,
) -> bool {
    |pair: Pair<K, V>| !pair.0.hash.spec_lt(start)
}

/// The pairs of the tree under `root` whose keys are filed at or after
/// `start`, in the order of the walk.
pub open spec fn leaves_from<K, V>(
    nodes: NodeMap<K, V>,
    root: HashValue,
    start: HashValue,
) -> Seq<Pair<K, V>> {
    tree_leaves(nodes, root).filter(at_or_after(start))
}

/// The keys of `pairs` grow strictly, in the order of their fingerprints.
pub open spec fn strictly_ascending<K, V>(pairs: Seq<Pair<K, V>>) -> bool {
    forall|i: int, j: int|
        0 <= i < j < pairs.len() ==> fp_lt(
            (#[trigger] pairs[i]).0.hash.nibbles(),
            (#[trigger] pairs[j]).0.hash.nibbles(),
        )
}

/// Every key of `pairs` has a fingerprint that begins with `path` and goes on
/// with a nibble that is `from` or more.
pub open spec fn keys_under<K, V>(
    pairs: Seq<Pair<K, V>>,
    path: Seq<u8>,
    from: int,
) -> bool {
    forall|i: int|
        0 <= i < pairs.len() ==> {
            &&& has_prefix((#[trigger] pairs[i]).0.hash.nibbles(), path)
            &&& path.len() < 64 ==> pairs[i].0.hash.nibbles()[path.len() as int] >= from
        }
}

/// The keys stored in a well-formed subtree begin with its path, and the walk
/// meets them in strictly ascending order.
pub proof fn lemma_subtree_leaves<K, V>(
    nodes: NodeMap<K, V>,
    id: HashValue,
    path: Seq<u8>,
)
    requires
        subtree_wf(nodes, id, path),
    ensures
        keys_under(subtree_leaves(nodes, id, path.len()), path, 0),
        strictly_ascending(subtree_leaves(nodes, id, path.len())),
    decreases 64 - path.len(), 17int,
{
    match nodes[id] {
        Node::Internal(node) => {
            lemma_children_leaves(nodes, node, path, 0);
        },
        _ => {},
    }
}

/// The keys stored below the children `from..16` of a branch at `path` begin
/// with `path` and go on with a nibble in `from..16`, and the walk meets them
/// in strictly ascending order.
pub proof fn lemma_children_leaves<K, V>(
    nodes: NodeMap<K, V>,
    node: InternalNode,
    path: Seq<u8>,
    from: nat,
)
    requires
        children_wf(nodes, node, path),
    ensures
        keys_under(children_leaves(nodes, node, path.len(), from), path, from as int),
        strictly_ascending(children_leaves(nodes, node, path.len(), from)),
    decreases 64 - path.len(), 16 - from,
{
    let depth = path.len();
    if from < 16 {
        let first = child_leaves(nodes, node, depth, from);
        let rest = children_leaves(nodes, node, depth, from + 1);
        let all = children_leaves(nodes, node, depth, from);
        assert(all == first + rest);
        lemma_child_leaves(nodes, node, path, from);
        lemma_children_leaves(nodes, node, path, from + 1);
        assert forall|i: int, j: int| 0 <= i < j < all.len() implies fp_lt(
            (#[trigger] all[i]).0.hash.nibbles(),
            (#[trigger] all[j]).0.hash.nibbles(),
        ) by {
            if j < first.len() {
                assert(all[i] == first[i] && all[j] == first[j]);
            } else if i >= first.len() {
                assert(all[i] == rest[i - first.len()] && all[j] == rest[j - first.len()]);
            } else {
                assert(all[i] == first[i] && all[j] == rest[j - first.len()]);
                lemma_lt_at(all[i].0.hash.nibbles(), all[j].0.hash.nibbles(), depth as int);
            }
        }
        assert forall|i: int| 0 <= i < all.len() implies {
            &&& has_prefix((#[trigger] all[i]).0.hash.nibbles(), path)
            &&& all[i].0.hash.nibbles()[depth as int] >= from
        } by {
            if i < first.len() {
                assert(all[i] == first[i]);
            } else {
                assert(all[i] == rest[i - first.len()]);
            }
        }
    }
}

/// The keys stored below the child in slot `k` of a branch at `path` begin
/// with `path` and go on with the nibble `k`, and the walk meets them in
/// strictly ascending order.
pub proof fn lemma_child_leaves<K, V>(
    nodes: NodeMap<K, V>,
    node: InternalNode,
    path: Seq<u8>,
    k: nat,
)
    requires
        children_wf(nodes, node, path),
        k < 16,
    ensures
        keys_under(child_leaves(nodes, node, path.len(), k), path, k as int),
        keys_under(child_leaves(nodes, node, path.len(), k), path.push(k as u8), 0),
        forall|i: int|
            0 <= i < child_leaves(nodes, node, path.len(), k).len() ==> (#[trigger] child_leaves(
                nodes,
                node,
                path.len(),
                k,
            )[i]).0.hash.nibbles()[path.len() as int] == k,
        strictly_ascending(child_leaves(nodes, node, path.len(), k)),
    decreases 64 - path.len(), (16 - k) - 1,
{
    if node.has_child(k as int) {
        let child = node.child_at(k as int).unwrap();
        let below = path.push(k as u8);
        lemma_subtree_leaves(nodes, child, below);
        let leaves = child_leaves(nodes, node, path.len(), k);
        assert(leaves == subtree_leaves(nodes, child, below.len()));
        assert forall|i: int| 0 <= i < leaves.len() implies {
            &&& has_prefix((#[trigger] leaves[i]).0.hash.nibbles(), path)
            &&& leaves[i].0.hash.nibbles()[path.len() as int] == k
        } by {
            let fp = leaves[i].0.hash.nibbles();
            assert(has_prefix(fp, below));
            assert(fp[path.len() as int] == below[path.len() as int]);
            assert forall|j: int| 0 <= j < path.len() implies fp[j] == path[j] by {
                assert(fp[j] == below[j]);
            }
        }
    }
}

/// Where the slots `from..to` of a branch are empty, the walk of the
/// children from `from` on is the walk from `to` on.
pub proof fn lemma_skip_empty_slots<K, V>(
    nodes: NodeMap<K, V>,
    node: InternalNode,
    depth: nat,
    from: nat,
    to: nat,
)
    requires
        from <= to,
        forall|j: int| from <= j < to ==> !node.has_child(j),
    ensures
        children_leaves(nodes, node, depth, from) == children_leaves(nodes, node, depth, to),
    decreases to - from,
{
    if from < to {
        lemma_skip_empty_slots(nodes, node, depth, from + 1, to);
        assert(!node.has_child(from as int));
        assert(child_leaves(nodes, node, depth, from) =~= Seq::empty());
        assert(children_leaves(nodes, node, depth, from) =~= children_leaves(
            nodes,
            node,
            depth,
            from + 1,
        ));
    }
}

/// Where no slot from `from` on holds a child, the walk of the children from
/// `from` on meets nothing.
pub proof fn lemma_no_children_left<K, V>(
    nodes: NodeMap<K, V>,
    node: InternalNode,
    depth: nat,
    from: nat,
)
    requires
        node.no_child_from(from as int),
    ensures
        children_leaves(nodes, node, depth, from) == Seq::<Pair<K, V>>::empty(),
{
    if from < 16 {
        lemma_skip_empty_slots(nodes, node, depth, from, 16);
    }
}

/// The walk of the children from an occupied slot on is the walk of the
/// subtree in that slot, followed by the walk of the children after it.
pub proof fn lemma_children_leaves_unfold<K, V>(
    nodes: NodeMap<K, V>,
    node: InternalNode,
    depth: nat,
    k: nat,
)
    requires
        depth < 64,
        node.has_child(k as int),
    ensures
        children_leaves(nodes, node, depth, k) == subtree_leaves(
            nodes,
            node.child_at(k as int).unwrap(),
            depth + 1,
        ) + children_leaves(nodes, node, depth, k + 1),
{
    assert(child_leaves(nodes, node, depth, k) == subtree_leaves(
        nodes,
        node.child_at(k as int).unwrap(),
        depth + 1,
    ));
}

/// What well-formedness says of the child in an occupied slot of a branch:
/// it is in the store, it is a leaf or a branch with a child of its own, and
/// it heads a well-formed subtree one level further down.
pub proof fn lemma_child_subtree<K, V>(
    nodes: NodeMap<K, V>,
    id: HashValue,
    path: Seq<u8>,
    node: InternalNode,
    k: int,
)
    requires
        subtree_wf(nodes, id, path),
        nodes[id] == Node::<K, V>::Internal(node),
        node.has_child(k),
    ensures
        path.len() < 64,
        children_wf(nodes, node, path),
        subtree_wf(nodes, node.child_at(k).unwrap(), path.push(k as u8)),
        nodes.contains_key(node.child_at(k).unwrap()),
        !(nodes[node.child_at(k).unwrap()] is Null),
        nodes[node.child_at(k).unwrap()] matches Node::Internal(below) ==> below.wf() && path.len()
            + 1 < 64,
{
}

/// A filter keeps a sequence whose members all pass it.
pub proof fn lemma_filter_keeps_all<A>(s: Seq<A>, pred: spec_fn(A) -> bool)
    requires
        forall|i: int| 0 <= i < s.len() ==> pred(#[trigger] s[i]),
    ensures
        s.filter(pred) == s,
    decreases s.len(),
{
    reveal(Seq::filter);
    if s.len() > 0 {
        lemma_filter_keeps_all(s.drop_last(), pred);
        assert(s.drop_last().push(s.last()) =~= s);
    }
}

/// A filter leaves nothing of a sequence whose members all fail it.
pub proof fn lemma_filter_drops_all<A>(s: Seq<A>, pred: spec_fn(A) -> bool)
    requires
        forall|i: int| 0 <= i < s.len() ==> !pred(#[trigger] s[i]),
    ensures
        s.filter(pred) == Seq::<A>::empty(),
    decreases s.len(),
{
    reveal(Seq::filter);
    if s.len() > 0 {
        lemma_filter_drops_all(s.drop_last(), pred);
    }
}

/// Below a branch on the path of `start`, the children before the slot that
/// `start` names hold no key at or after `start`.
pub proof fn lemma_left_children_dropped<K, V>(
    nodes: NodeMap<K, V>,
    node: InternalNode,
    path: Seq<u8>,
    start: HashValue,
    from: nat,
)
    requires
        children_wf(nodes, node, path),
        has_prefix(start.nibbles(), path),
        from <= start.nibbles()[path.len() as int],
    ensures
        children_leaves(nodes, node, path.len(), from).filter(at_or_after(start))
            == children_leaves(
            nodes,
            node,
            path.len(),
            start.nibbles()[path.len() as int] as nat,
        ).filter(at_or_after(start)),
    decreases 16 - from,
{
    let depth = path.len();
    let slot = start.nibbles()[depth as int] as nat;
    assert(slot < 16) by {
        lemma_nibbles_small(start, depth as int);
    }
    if from < slot {
        let first = child_leaves(nodes, node, depth, from);
        let rest = children_leaves(nodes, node, depth, from + 1);
        lemma_child_leaves(nodes, node, path, from);
        assert forall|i: int| 0 <= i < first.len() implies !at_or_after::<K, V>(start)(
            #[trigger] first[i],
        ) by {
            lemma_lt_at(first[i].0.hash.nibbles(), start.nibbles(), depth as int);
        }
        lemma_filter_drops_all(first, at_or_after(start));
        Seq::filter_distributes_over_add(first, rest, at_or_after(start));
        assert(Seq::<Pair<K, V>>::empty() + rest.filter(at_or_after(start))
            =~= rest.filter(at_or_after(start)));
        lemma_left_children_dropped(nodes, node, path, start, from + 1);
    }
}

/// Below a branch on the path of `start`, the children after the slot that
/// `start` names hold only keys at or after `start`.
pub proof fn lemma_right_children_kept<K, V>(
    nodes: NodeMap<K, V>,
    node: InternalNode,
    path: Seq<u8>,
    start: HashValue,
    from: nat,
)
    requires
        children_wf(nodes, node, path),
        has_prefix(start.nibbles(), path),
        from > start.nibbles()[path.len() as int],
    ensures
        children_leaves(nodes, node, path.len(), from).filter(at_or_after(start))
            == children_leaves(nodes, node, path.len(), from),
{
    let depth = path.len();
    let leaves = children_leaves(nodes, node, depth, from);
    lemma_children_leaves(nodes, node, path, from);
    assert forall|i: int| 0 <= i < leaves.len() implies at_or_after::<K, V>(start)(
        #[trigger] leaves[i],
    ) by {
        lemma_lt_at(start.nibbles(), leaves[i].0.hash.nibbles(), depth as int);
    }
    lemma_filter_keeps_all(leaves, at_or_after(start));
}

} // verus!
