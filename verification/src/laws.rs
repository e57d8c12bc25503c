//! What holds of every iteration, stated over what the iterators promise:
//! an iterator is built with `leaves_from` left to yield, and every pull
//! relates what is left before and after it by `advance_spec`.

use crate::advance::{advance_spec, gave_failure, gave_pair};
use crate::hash::{lemma_lt_asymmetric, HashValue};
use crate::node::{InternalNode, LeafNode, Node, NodeMap, Pair};
use crate::store::StorageError;
use crate::tree::{
    at_or_after, child_leaves, children_leaves, leaves_from, lemma_filter_drops_all,
    lemma_filter_keeps_all, lemma_subtree_leaves, strictly_ascending, subtree_leaves, tree_leaves,
    tree_wf,
};
use vstd::prelude::*;

verus! {

/// The subtree under the node `id` at depth `depth` stores `pair`: some leaf
/// that can be reached from `id` through occupied slots holds it.
pub open spec fn subtree_stores<K, V>(
    nodes: NodeMap<K, V>,
    id: HashValue,
    depth: nat,
    pair: Pair<K, V>,
) -> bool
    decreases 64 - depth,
{
    &&& nodes.contains_key(id)
    &&& match nodes[id] {
        Node::Null => false,
        Node::Leaf(leaf) => leaf.pair() == pair,
        Node::Internal(node) => depth < 64 && exists|k: int|
            #![trigger node.has_child(k)]
            node.has_child(k) && subtree_stores(nodes, node.child_at(k).unwrap(), depth + 1, pair),
    }
}

/// The tree under `root` stores `pair`.
pub open spec fn tree_stores<K, V>(
    nodes: NodeMap<K, V>,
    root: HashValue,
    pair: Pair<K, V>,
) -> bool {
    subtree_stores(nodes, root, 0, pair)
}

/// Ascending order: whatever the tree and the starting key, the keys that an
/// iteration yields grow strictly in the order of their fingerprints.
pub proof fn law_ascending_order<K, V>(
    nodes: NodeMap<K, V>,
    root: HashValue,
    starting_key: HashValue,
)
    requires
        tree_wf(nodes, root),
    ensures
        strictly_ascending(leaves_from(nodes, root, starting_key)),
        strictly_ascending(tree_leaves(nodes, root)),
{
    lemma_tree_leaves_ascending(nodes, root);
    lemma_filter_ascending(tree_leaves(nodes, root), at_or_after(starting_key));
}

/// Lower bound: every yielded pair is a stored pair whose key is at or after
/// the starting key, and the first of them has the least such key: no stored
/// key lies at or after the starting key and before the first yielded key.
pub proof fn law_lower_bound<K, V>(nodes: NodeMap<K, V>, root: HashValue, starting_key: HashValue)
    requires
        tree_wf(nodes, root),
    ensures
        forall|i: int|
            0 <= i < leaves_from(nodes, root, starting_key).len() ==> {
                &&& !(#[trigger] leaves_from(nodes, root, starting_key)[i]).0.hash.spec_lt(
                    starting_key,
                )
                &&& tree_leaves(nodes, root).contains(leaves_from(nodes, root, starting_key)[i])
            },
        forall|j: int|
            0 <= j < tree_leaves(nodes, root).len() && !(#[trigger] tree_leaves(
                nodes,
                root,
            )[j]).0.hash.spec_lt(starting_key) ==> {
                &&& leaves_from(nodes, root, starting_key).len() > 0
                &&& !tree_leaves(nodes, root)[j].0.hash.spec_lt(
                    leaves_from(nodes, root, starting_key)[0].0.hash,
                )
            },
{
    let stored = tree_leaves(nodes, root);
    let keep = at_or_after::<K, V>(starting_key);
    let yielded = leaves_from(nodes, root, starting_key);
    lemma_tree_leaves_ascending(nodes, root);
    lemma_filter_ascending(stored, keep);
    assert forall|i: int| 0 <= i < yielded.len() implies !(#[trigger] yielded[i]).0.hash.spec_lt(
        starting_key,
    ) && stored.contains(yielded[i]) by {
        stored.lemma_filter_pred(keep, i);
    }
    assert forall|j: int| 0 <= j < stored.len() && !(#[trigger] stored[j]).0.hash.spec_lt(
        starting_key,
    ) implies yielded.len() > 0 && !stored[j].0.hash.spec_lt(yielded[0].0.hash) by {
        assert(keep(stored[j]));
        stored.lemma_filter_contains(keep, j);
        let i = choose|i: int| 0 <= i < yielded.len() && yielded[i] == stored[j];
        if i == 0 {
            if stored[j].0.hash.spec_lt(yielded[0].0.hash) {
                lemma_lt_asymmetric(stored[j].0.hash.nibbles(), yielded[0].0.hash.nibbles());
            }
        } else {
            lemma_lt_asymmetric(yielded[0].0.hash.nibbles(), yielded[i].0.hash.nibbles());
        }
    }
}

/// Completeness: an iteration that starts from the least of all keys yields
/// the pairs that the tree stores, all of them and no other, each once.
pub proof fn law_completeness<K, V>(nodes: NodeMap<K, V>, root: HashValue, starting_key: HashValue)
    requires
        tree_wf(nodes, root),
        forall|other: HashValue| !other.spec_lt(starting_key),
    ensures
        leaves_from(nodes, root, starting_key) == tree_leaves(nodes, root),
        forall|pair: Pair<K, V>|
            leaves_from(nodes, root, starting_key).contains(pair) <==> tree_stores(
                nodes,
                root,
                pair,
            ),
        forall|i: int, j: int|
            0 <= i < j < leaves_from(nodes, root, starting_key).len() ==> leaves_from(
                nodes,
                root,
                starting_key,
            )[i] != leaves_from(nodes, root, starting_key)[j],
{
    let stored = tree_leaves(nodes, root);
    lemma_filter_keeps_all(stored, at_or_after(starting_key));
    lemma_tree_leaves_ascending(nodes, root);
    assert forall|i: int, j: int| 0 <= i < j < stored.len() implies stored[i] != stored[j] by {
        if stored[i] == stored[j] {
            lemma_lt_asymmetric(stored[i].0.hash.nibbles(), stored[j].0.hash.nibbles());
        }
    }
    assert forall|pair: Pair<K, V>| stored.contains(pair) <==> tree_stores(nodes, root, pair) by {
        lemma_leaves_are_stored(nodes, root, 0, pair);
    }
}

/// Exhaustion is final: once a pull has given nothing, the next pull gives no
/// pair and leaves nothing to yield; where the store does not fail, it gives
/// nothing again.
pub proof fn law_exhaustion_is_final<K, V>(
    left_at_first: Seq<Pair<K, V>>,
    first: Option<Result<Pair<K, V>, StorageError>>,
    left_at_second: Seq<Pair<K, V>>,
    second: Option<Result<Pair<K, V>, StorageError>>,
    left_at_last: Seq<Pair<K, V>>,
)
    requires
        advance_spec(left_at_first, left_at_second, first),
        advance_spec(left_at_second, left_at_last, second),
        first is None,
    ensures
        !gave_pair(second),
        left_at_last.len() == 0,
        !gave_failure(second) ==> second is None,
{
}

/// Empty tree: an iteration over the tree that holds no key has nothing to
/// yield, whatever the starting key.
pub proof fn law_empty_tree<K, V>(nodes: NodeMap<K, V>, root: HashValue, starting_key: HashValue)
    requires
        nodes.contains_key(root),
        nodes[root] is Null,
    ensures
        tree_wf(nodes, root),
        leaves_from(nodes, root, starting_key).len() == 0,
{
    lemma_filter_drops_all(tree_leaves(nodes, root), at_or_after(starting_key));
}

/// Single-key tree: an iteration over the tree that is one leaf yields the
/// pair of that leaf where the starting key is not after its key, and nothing
/// where it is.
pub proof fn law_single_key_tree<K, V>(
    nodes: NodeMap<K, V>,
    root: HashValue,
    leaf: LeafNode<K, V>,
    starting_key: HashValue,
)
    requires
        nodes.contains_key(root),
        nodes[root] == Node::Leaf(leaf),
    ensures
        tree_wf(nodes, root),
        leaf.key.hash.spec_lt(starting_key) ==> leaves_from(nodes, root, starting_key).len() == 0,
        !leaf.key.hash.spec_lt(starting_key) ==> leaves_from(nodes, root, starting_key) == seq![
            leaf.pair(),
        ],
{
    let stored = tree_leaves(nodes, root);
    assert(stored == seq![leaf.pair()]);
    if leaf.key.hash.spec_lt(starting_key) {
        lemma_filter_drops_all(stored, at_or_after(starting_key));
    } else {
        lemma_filter_keeps_all(stored, at_or_after(starting_key));
    }
}

/// Past-the-end seek: an iteration whose starting key is after every stored
/// key has nothing to yield.
pub proof fn law_past_the_end<K, V>(nodes: NodeMap<K, V>, root: HashValue, starting_key: HashValue)
    requires
        forall|i: int|
            0 <= i < tree_leaves(nodes, root).len() ==> (#[trigger] tree_leaves(
                nodes,
                root,
            )[i]).0.hash.spec_lt(starting_key),
    ensures
        leaves_from(nodes, root, starting_key).len() == 0,
{
    lemma_filter_drops_all(tree_leaves(nodes, root), at_or_after(starting_key));
}

/// The walk of a well-formed tree meets the stored keys in strictly ascending order.
proof fn lemma_tree_leaves_ascending<K, V>(nodes: NodeMap<K, V>, root: HashValue)
    requires
        tree_wf(nodes, root),
    ensures
        strictly_ascending(tree_leaves(nodes, root)),
{
    if !(nodes[root] is Null) {
        lemma_subtree_leaves(nodes, root, Seq::<u8>::empty());
    }
}

/// What a filter keeps of a strictly ascending sequence is strictly
/// ascending, and every pair of it is a pair of the sequence.
proof fn lemma_filter_ascending<K, V>(pairs: Seq<Pair<K, V>>, pred: spec_fn(Pair<K, V>) -> bool)
    requires
        strictly_ascending(pairs),
    ensures
        strictly_ascending(pairs.filter(pred)),
        forall|i: int|
            0 <= i < pairs.filter(pred).len() ==> pairs.contains(#[trigger] pairs.filter(pred)[i]),
    decreases pairs.len(),
{
    reveal(Seq::filter);
    if pairs.len() > 0 {
        let front = pairs.drop_last();
        let kept = pairs.filter(pred);
        let kept_front = front.filter(pred);
        lemma_filter_ascending(front, pred);
        assert forall|i: int| 0 <= i < kept_front.len() implies pairs.contains(
            #[trigger] kept_front[i],
        ) && pairs.contains(kept_front[i]) by {
            let m = choose|m: int| 0 <= m < front.len() && front[m] == kept_front[i];
            assert(pairs[m] == kept_front[i]);
        }
        assert(pairs.contains(pairs.last())) by {
            assert(pairs[pairs.len() - 1] == pairs.last());
        }
        assert forall|i: int, j: int| 0 <= i < j < kept.len() implies crate::hash::fp_lt(
            (#[trigger] kept[i]).0.hash.nibbles(),
            (#[trigger] kept[j]).0.hash.nibbles(),
        ) by {
            if j < kept_front.len() {
                assert(kept[i] == kept_front[i] && kept[j] == kept_front[j]);
            } else {
                assert(kept[i] == kept_front[i]);
                let m = choose|m: int| 0 <= m < front.len() && front[m] == kept_front[i];
                assert(pairs[m] == kept[i]);
                assert(pairs[pairs.len() - 1] == kept[j]);
            }
        }
    }
}

/// The walk of a subtree meets exactly the pairs that the subtree stores.
proof fn lemma_leaves_are_stored<K, V>(
    nodes: NodeMap<K, V>,
    id: HashValue,
    depth: nat,
    pair: Pair<K, V>,
)
    ensures
        subtree_leaves(nodes, id, depth).contains(pair) <==> subtree_stores(nodes, id, depth, pair),
    decreases 64 - depth, 17int,
{
    let leaves = subtree_leaves(nodes, id, depth);
    if nodes.contains_key(id) {
        match nodes[id] {
            Node::Null => {},
            Node::Leaf(leaf) => {
                assert(leaves[0] == leaf.pair());
            },
            Node::Internal(node) => {
                if depth < 64 {
                    lemma_children_are_stored(nodes, node, depth, 0, pair);
                }
            },
        }
    }
}

/// The walk of the children `from..16` of a branch meets exactly the pairs
/// that the subtrees in those slots store.
proof fn lemma_children_are_stored<K, V>(
    nodes: NodeMap<K, V>,
    node: InternalNode,
    depth: nat,
    from: nat,
    pair: Pair<K, V>,
)
    requires
        depth < 64,
    ensures
        children_leaves(nodes, node, depth, from).contains(pair) <==> exists|k: int|
            #![trigger node.has_child(k)]
            from <= k && node.has_child(k) && subtree_stores(
                nodes,
                node.child_at(k).unwrap(),
                depth + 1,
                pair,
            ),
    decreases 64 - depth, 16 - from,
{
    let all = children_leaves(nodes, node, depth, from);
    if from < 16 {
        let first = child_leaves(nodes, node, depth, from);
        let rest = children_leaves(nodes, node, depth, from + 1);
        lemma_children_are_stored(nodes, node, depth, from + 1, pair);
        if node.has_child(from as int) {
            lemma_leaves_are_stored(nodes, node.child_at(from as int).unwrap(), depth + 1, pair);
        }
        if all.contains(pair) {
            let i = choose|i: int| 0 <= i < all.len() && all[i] == pair;
            if i < first.len() {
                assert(first[i] == pair);
                assert(first.contains(pair));
                assert(node.has_child(from as int));
            } else {
                assert(rest[i - first.len()] == pair);
                assert(rest.contains(pair));
                let k = choose|k: int|
                    #![trigger node.has_child(k)]
                    from + 1 <= k && node.has_child(k) && subtree_stores(
                        nodes,
                        node.child_at(k).unwrap(),
                        depth + 1,
                        pair,
                    );
                assert(from <= k && node.has_child(k));
            }
        }
        if exists|k: int|
            #![trigger node.has_child(k)]
            from <= k && node.has_child(k) && subtree_stores(
                nodes,
                node.child_at(k).unwrap(),
                depth + 1,
                pair,
            ) {
            let k = choose|k: int|
                #![trigger node.has_child(k)]
                from <= k && node.has_child(k) && subtree_stores(
                    nodes,
                    node.child_at(k).unwrap(),
                    depth + 1,
                    pair,
                );
            if k == from {
                assert(first.contains(pair));
                let i = choose|i: int| 0 <= i < first.len() && first[i] == pair;
                assert(all[i] == pair);
            } else {
                assert(from + 1 <= k && node.has_child(k));
                assert(rest.contains(pair));
                let i = choose|i: int| 0 <= i < rest.len() && rest[i] == pair;
                assert(all[first.len() + i] == pair);
            }
        }
    }
}

} // verus!
