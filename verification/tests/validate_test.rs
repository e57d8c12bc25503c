use jellyfish_iterator::{
    validate_tree, HashValue, InternalNode, JellyfishMerkleIntoIterator, JellyfishMerkleIterator,
    LeafNode, MockTreeStore, Node, SMTObject, StorageError,
};

type Store = MockTreeStore<u64, u64>;

/// The fingerprint that begins with the given nibbles and goes on with zeros.
fn fingerprint(nibbles: &[u8]) -> HashValue {
    let mut bytes = [0u8; 32];
    for (i, nibble) in nibbles.iter().enumerate() {
        if i % 2 == 0 {
            bytes[i / 2] |= nibble << 4;
        } else {
            bytes[i / 2] |= nibble;
        }
    }
    HashValue::new(bytes)
}

/// An identifier for a node, told apart from the others by `n`.
fn node_id(n: u8) -> HashValue {
    let mut bytes = [0xeeu8; 32];
    bytes[31] = n;
    HashValue::new(bytes)
}

fn leaf_node(key_nibbles: &[u8], key: u64, value: u64) -> LeafNode<u64, u64> {
    LeafNode::new(
        SMTObject::new(key, fingerprint(key_nibbles)),
        SMTObject::new(value, fingerprint(&[0xa, 0xb])),
    )
}

fn leaf(key_nibbles: &[u8], key: u64, value: u64) -> Node<u64, u64> {
    Node::Leaf(leaf_node(key_nibbles, key, value))
}

fn branch_node(children: &[(u8, HashValue)]) -> InternalNode {
    let mut slots: [Option<HashValue>; 16] = [None; 16];
    for (nibble, child) in children {
        slots[*nibble as usize] = Some(*child);
    }
    InternalNode::new(slots)
}

fn branch(children: &[(u8, HashValue)]) -> Node<u64, u64> {
    Node::Internal(branch_node(children))
}

/// The tree with the keys 0x1.., 0x50.., 0x51.. and 0xf.. under the root `node_id(0)`.
fn four_key_store() -> Store {
    let mut store = Store::new();
    store.put_node(node_id(1), leaf(&[0x1], 1, 10));
    store.put_node(node_id(2), leaf(&[0x5, 0x0], 2, 20));
    store.put_node(node_id(3), leaf(&[0x5, 0x1], 3, 30));
    store.put_node(node_id(4), leaf(&[0xf], 4, 40));
    store.put_node(node_id(5), branch(&[(0x0, node_id(2)), (0x1, node_id(3))]));
    store.put_node(
        node_id(0),
        branch(&[(0x1, node_id(1)), (0x5, node_id(5)), (0xf, node_id(4))]),
    );
    store
}

#[test]
fn well_formed_trees_are_accepted() {
    let store = four_key_store();
    assert_eq!(validate_tree(&store, node_id(0)), Ok(true));
    assert_eq!(validate_tree(&store, node_id(1)), Ok(true));
}

#[test]
fn empty_tree_is_accepted() {
    let mut store = Store::new();
    store.put_node(node_id(0), Node::Null);
    assert_eq!(validate_tree(&store, node_id(0)), Ok(true));
}

#[test]
fn empty_node_below_the_root_is_refused() {
    let mut store = Store::new();
    store.put_node(node_id(0), branch(&[(0x1, node_id(1)), (0x2, node_id(2))]));
    store.put_node(node_id(1), leaf(&[0x1], 1, 10));
    store.put_node(node_id(2), Node::Null);
    assert_eq!(validate_tree(&store, node_id(0)), Ok(false));
}

#[test]
fn branch_without_children_is_refused() {
    let mut store = Store::new();
    store.put_node(node_id(0), branch(&[]));
    assert_eq!(validate_tree(&store, node_id(0)), Ok(false));
    store.put_node(node_id(1), branch(&[(0x3, node_id(0))]));
    assert_eq!(validate_tree(&store, node_id(1)), Ok(false));
}

#[test]
fn leaf_filed_under_a_wrong_path_is_refused() {
    let mut store = Store::new();
    store.put_node(node_id(0), branch(&[(0x1, node_id(1)), (0x2, node_id(2))]));
    store.put_node(node_id(1), leaf(&[0x1], 1, 10));
    store.put_node(node_id(2), leaf(&[0x3], 2, 20));
    assert_eq!(validate_tree(&store, node_id(0)), Ok(false));
    store.put_node(node_id(2), leaf(&[0x2, 0x9], 2, 20));
    assert_eq!(validate_tree(&store, node_id(0)), Ok(true));
}

#[test]
fn missing_node_is_a_failed_read() {
    let mut store = Store::new();
    assert_eq!(validate_tree(&store, node_id(0)), Err(StorageError { node_key: node_id(0) }));
    store.put_node(node_id(0), branch(&[(0x1, node_id(1)), (0x2, node_id(2))]));
    store.put_node(node_id(1), leaf(&[0x1], 1, 10));
    assert_eq!(validate_tree(&store, node_id(0)), Err(StorageError { node_key: node_id(2) }));
}

#[test]
fn tree_deeper_than_a_fingerprint_is_refused() {
    let mut store = Store::new();
    store.put_node(node_id(0), branch(&[(0x0, node_id(0))]));
    assert_eq!(validate_tree(&store, node_id(0)), Ok(false));
}

#[test]
fn tree_of_greatest_depth_is_accepted() {
    let mut store = Store::new();
    for depth in 0u8..64 {
        store.put_node(node_id(depth), branch(&[(0x0, node_id(depth + 1))]));
    }
    store.put_node(node_id(64), leaf(&[], 1, 10));
    assert_eq!(validate_tree(&store, node_id(0)), Ok(true));
    store.put_node(node_id(64), branch(&[(0x0, node_id(65))]));
    store.put_node(node_id(65), leaf(&[], 1, 10));
    assert_eq!(validate_tree(&store, node_id(0)), Ok(false));
}

#[test]
fn validated_iterator_walks_a_well_formed_tree() {
    let store = four_key_store();
    let mut iter = JellyfishMerkleIterator::new_validated(
        &store,
        node_id(0),
        SMTObject::new(0u64, fingerprint(&[0x5, 0x1])),
    )
    .unwrap()
    .unwrap();
    assert_eq!(iter.next(), Some(Ok(leaf_node(&[0x5, 0x1], 3, 30).into_pair())));
    assert_eq!(iter.next(), Some(Ok(leaf_node(&[0xf], 4, 40).into_pair())));
    assert_eq!(iter.next(), None);
    let mut owned =
        JellyfishMerkleIntoIterator::new_validated(store, node_id(0), fingerprint(&[0xf]))
            .unwrap()
            .unwrap();
    assert_eq!(owned.next(), Some(Ok(leaf_node(&[0xf], 4, 40).into_pair())));
    assert_eq!(owned.next(), None);
}

#[test]
fn validated_iterator_is_not_built_on_a_malformed_tree() {
    let mut store = Store::new();
    store.put_node(node_id(0), branch(&[(0x1, node_id(1)), (0x2, node_id(2))]));
    store.put_node(node_id(1), leaf(&[0x1], 1, 10));
    store.put_node(node_id(2), Node::Null);
    let built = JellyfishMerkleIterator::new_validated(
        &store,
        node_id(0),
        SMTObject::new(0u64, HashValue::zero()),
    );
    assert!(matches!(built, Ok(None)));
    let built = JellyfishMerkleIntoIterator::new_validated(store, node_id(0), HashValue::zero());
    assert!(matches!(built, Ok(None)));
}

#[test]
fn validated_iterator_reports_a_missing_node() {
    let mut store = Store::new();
    store.put_node(node_id(0), branch(&[(0x1, node_id(1))]));
    let built = JellyfishMerkleIterator::new_validated(
        &store,
        node_id(0),
        SMTObject::new(0u64, HashValue::zero()),
    );
    assert_eq!(built.err(), Some(StorageError { node_key: node_id(1) }));
    let built = JellyfishMerkleIntoIterator::new_validated(store, node_id(0), HashValue::zero());
    assert_eq!(built.err(), Some(StorageError { node_key: node_id(1) }));
}
