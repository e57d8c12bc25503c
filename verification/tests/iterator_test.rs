use jellyfish_iterator::{
    HashValue, InternalNode, JellyfishMerkleIntoIterator, JellyfishMerkleIterator, LeafNode,
    MockTreeStore, Node, NodeMap, SMTObject, StorageError, TreeReader,
};
use std::cell::Cell;

type Store = MockTreeStore<u64, u64>;

/// The fingerprint that begins with the given nibbles and goes on with zeros.
fn fingerprint(nibbles: &[u8]) -> HashValue {
    let mut bytes = [0u8; 32];
    for (i, nibble) in nibbles.iter().enumerate() {
        if i % 2 == 0 {
            bytes[i / 2] |= nibble << 4;
        } else {
            bytes[i / 2] |= nibble;
        }
    }
    HashValue::new(bytes)
}

/// An identifier for a node, told apart from the others by `n`.
fn node_id(n: u8) -> HashValue {
    let mut bytes = [0xeeu8; 32];
    bytes[31] = n;
    HashValue::new(bytes)
}

fn leaf(key_nibbles: &[u8], key: u64, value: u64) -> Node<u64, u64> {
    Node::Leaf(LeafNode::new(
        SMTObject::new(key, fingerprint(key_nibbles)),
        SMTObject::new(value, fingerprint(&[0xa, 0xb])),
    ))
}

fn branch(children: &[(u8, HashValue)]) -> Node<u64, u64> {
    let mut slots: [Option<HashValue>; 16] = [None; 16];
    for (nibble, child) in children {
        slots[*nibble as usize] = Some(*child);
    }
    Node::Internal(InternalNode::new(slots))
}

/// The tree with the keys 0x1.., 0x50.., 0x51.. and 0xf.. under the root `node_id(0)`.
fn four_key_store() -> Store {
    let mut store = Store::new();
    store.put_node(node_id(1), leaf(&[0x1], 1, 10));
    store.put_node(node_id(2), leaf(&[0x5, 0x0], 2, 20));
    store.put_node(node_id(3), leaf(&[0x5, 0x1], 3, 30));
    store.put_node(node_id(4), leaf(&[0xf], 4, 40));
    store.put_node(node_id(5), branch(&[(0x0, node_id(2)), (0x1, node_id(3))]));
    store.put_node(
        node_id(0),
        branch(&[(0x1, node_id(1)), (0x5, node_id(5)), (0xf, node_id(4))]),
    );
    store
}

/// Pulls until nothing is left, and gives the keys with their values.
fn drain(store: &Store, root: HashValue, start: HashValue) -> Vec<(u64, u64)> {
    let mut iter = JellyfishMerkleIterator::new(store, root, SMTObject::new(0u64, start)).unwrap();
    let mut out = Vec::new();
    while let Some(item) = iter.next() {
        let (key, value) = item.unwrap();
        out.push((key.into_origin(), value.into_origin()));
    }
    assert!(iter.next().is_none());
    out
}

#[test]
fn fixed_scenario_starts_between_groups() {
    let store = four_key_store();
    let mut iter = JellyfishMerkleIterator::new(
        &store,
        node_id(0),
        SMTObject::new(0u64, fingerprint(&[0x3])),
    )
    .unwrap();
    let (key, value) = iter.next().unwrap().unwrap();
    assert_eq!((key.origin, value.origin), (2, 20));
    assert_eq!(key.merkle_hash().to_bytes(), fingerprint(&[0x5, 0x0]).to_bytes());
    let (key, value) = iter.next().unwrap().unwrap();
    assert_eq!((key.origin, value.origin), (3, 30));
    let (key, value) = iter.next().unwrap().unwrap();
    assert_eq!((key.origin, value.origin), (4, 40));
    assert!(iter.next().is_none());
    assert!(iter.next().is_none());
}

#[test]
fn from_least_key_yields_every_pair_once() {
    let store = four_key_store();
    let all = drain(&store, node_id(0), HashValue::zero());
    assert_eq!(all, vec![(1, 10), (2, 20), (3, 30), (4, 40)]);
}

#[test]
fn yielded_keys_ascend() {
    let store = four_key_store();
    let mut iter =
        JellyfishMerkleIntoIterator::new(four_key_store(), node_id(0), HashValue::zero()).unwrap();
    let mut last: Option<HashValue> = None;
    let mut count = 0;
    while let Some(item) = iter.next() {
        let (key, _) = item.unwrap();
        if let Some(previous) = last {
            assert!(previous.lt(&key.merkle_hash()));
            assert!(!key.merkle_hash().lt(&previous));
        }
        last = Some(key.merkle_hash());
        count += 1;
    }
    assert_eq!(count, 4);
    assert_eq!(drain(&store, node_id(0), HashValue::zero()).len(), 4);
}

#[test]
fn starts_at_stored_key() {
    let store = four_key_store();
    assert_eq!(
        drain(&store, node_id(0), fingerprint(&[0x5, 0x1])),
        vec![(3, 30), (4, 40)]
    );
    assert_eq!(
        drain(&store, node_id(0), fingerprint(&[0x1])),
        vec![(1, 10), (2, 20), (3, 30), (4, 40)]
    );
}

#[test]
fn starts_just_after_stored_key() {
    let store = four_key_store();
    let mut bytes = [0u8; 32];
    bytes[0] = 0x10;
    bytes[31] = 0x01;
    assert_eq!(
        drain(&store, node_id(0), HashValue::new(bytes)),
        vec![(2, 20), (3, 30), (4, 40)]
    );
    let mut bytes = [0u8; 32];
    bytes[0] = 0x51;
    bytes[31] = 0x01;
    assert_eq!(drain(&store, node_id(0), HashValue::new(bytes)), vec![(4, 40)]);
}

#[test]
fn starts_in_missing_slot_of_inner_branch() {
    let store = four_key_store();
    assert_eq!(drain(&store, node_id(0), fingerprint(&[0x5, 0x2])), vec![(4, 40)]);
    assert_eq!(
        drain(&store, node_id(0), fingerprint(&[0x4, 0xf])),
        vec![(2, 20), (3, 30), (4, 40)]
    );
}

#[test]
fn past_the_end_seek_yields_nothing() {
    let store = four_key_store();
    let mut bytes = [0u8; 32];
    bytes[0] = 0xf0;
    bytes[31] = 0x01;
    let mut iter = JellyfishMerkleIterator::new(
        &store,
        node_id(0),
        SMTObject::new(0u64, HashValue::new(bytes)),
    )
    .unwrap();
    assert!(iter.next().is_none());
    assert!(iter.next().is_none());
    assert!(iter.stack_node_keys().is_empty());
    assert!(drain(&store, node_id(0), HashValue::new([0xffu8; 32])).is_empty());
}

#[test]
fn empty_tree_yields_nothing() {
    let mut store = Store::new();
    store.put_node(node_id(0), Node::Null);
    let mut iter =
        JellyfishMerkleIterator::new(&store, node_id(0), SMTObject::new(0u64, HashValue::zero()))
            .unwrap();
    assert!(iter.next().is_none());
    assert!(iter.next().is_none());
    let mut owned =
        JellyfishMerkleIntoIterator::new(store, node_id(0), fingerprint(&[0x7])).unwrap();
    assert!(owned.next().is_none());
}

#[test]
fn single_key_tree_yields_its_pair_once() {
    let mut store = Store::new();
    store.put_node(node_id(0), leaf(&[0x7, 0x3], 7, 70));
    assert_eq!(drain(&store, node_id(0), HashValue::zero()), vec![(7, 70)]);
    assert_eq!(drain(&store, node_id(0), fingerprint(&[0x7, 0x3])), vec![(7, 70)]);
    assert_eq!(drain(&store, node_id(0), fingerprint(&[0x7, 0x2, 0xf])), vec![(7, 70)]);
}

#[test]
fn single_key_tree_yields_nothing_past_its_key() {
    let mut store = Store::new();
    store.put_node(node_id(0), leaf(&[0x7, 0x3], 7, 70));
    assert!(drain(&store, node_id(0), fingerprint(&[0x7, 0x3, 0x0, 0x1])).is_empty());
    assert!(drain(&store, node_id(0), fingerprint(&[0x8])).is_empty());
}

#[test]
fn walks_a_tree_of_greatest_depth() {
    let mut store = Store::new();
    for depth in 0u8..63 {
        store.put_node(node_id(depth), branch(&[(0x0, node_id(depth + 1))]));
    }
    store.put_node(node_id(63), branch(&[(0x0, node_id(64)), (0x1, node_id(65))]));
    let mut last = [0u8; 32];
    last[31] = 0x01;
    store.put_node(node_id(64), leaf(&[], 1, 10));
    store.put_node(
        node_id(65),
        Node::Leaf(LeafNode::new(
            SMTObject::new(2, HashValue::new(last)),
            SMTObject::new(20, fingerprint(&[0xa])),
        )),
    );
    assert_eq!(drain(&store, node_id(0), HashValue::zero()), vec![(1, 10), (2, 20)]);
    assert_eq!(drain(&store, node_id(0), HashValue::new(last)), vec![(2, 20)]);
    last[31] = 0x02;
    assert!(drain(&store, node_id(0), HashValue::new(last)).is_empty());
    let iter = JellyfishMerkleIterator::new(
        &store,
        node_id(0),
        SMTObject::new(0u64, HashValue::zero()),
    )
    .unwrap();
    assert_eq!(iter.stack_node_keys().len(), 64);
}

#[test]
fn owned_iterator_gives_store_back() {
    let mut iter =
        JellyfishMerkleIntoIterator::new(four_key_store(), node_id(0), fingerprint(&[0x5]))
            .unwrap();
    let (key, _) = iter.next().unwrap().unwrap();
    assert_eq!(key.origin, 2);
    assert_eq!(iter.stack_node_keys().len(), 2);
    let store = iter.into_reader();
    assert!(store.get_node(&node_id(5)).is_ok());
}

#[test]
fn iterators_show_the_store_they_read() {
    let store = four_key_store();
    let iter = JellyfishMerkleIterator::new(
        &store,
        node_id(0),
        SMTObject::new(0u64, HashValue::zero()),
    )
    .unwrap();
    assert_eq!(iter.reader().get_node(&node_id(4)), store.get_node(&node_id(4)));
    let owned =
        JellyfishMerkleIntoIterator::new(four_key_store(), node_id(0), HashValue::zero()).unwrap();
    assert_eq!(owned.reader().get_node(&node_id(4)), store.get_node(&node_id(4)));
    assert!(owned.reader().get_node(&node_id(77)).is_err());
}

#[test]
fn stack_holds_path_of_branches() {
    let store = four_key_store();
    let iter = JellyfishMerkleIterator::new(
        &store,
        node_id(0),
        SMTObject::new(0u64, fingerprint(&[0x5, 0x1])),
    )
    .unwrap();
    let keys = iter.stack_node_keys();
    assert_eq!(keys.len(), 2);
    assert!(keys[0] == node_id(0));
    assert!(keys[1] == node_id(5));
}

#[test]
fn missing_root_is_storage_failure() {
    let store = Store::new();
    let result = JellyfishMerkleIterator::new_validated(
        &store,
        node_id(9),
        SMTObject::new(0u64, HashValue::zero()),
    );
    match result {
        Err(StorageError { node_key }) => assert!(node_key == node_id(9)),
        Ok(_) => panic!("a store without the root cannot be walked"),
    }
}

/// A store that fails on its first `failures` reads of the node `on`.
struct FlakyStore {
    inner: Store,
    on: HashValue,
    failures: Cell<u32>,
}

impl TreeReader<u64, u64> for FlakyStore {
    fn nodes(&self) -> NodeMap<u64, u64> {
        unreachable!("a model of the store, never run")
    }

    fn never_fails(&self) -> bool {
        false
    }

    fn get_node(&self, node_key: &HashValue) -> Result<Node<u64, u64>, StorageError> {
        if *node_key == self.on && self.failures.get() > 0 {
            self.failures.set(self.failures.get() - 1);
            return Err(StorageError { node_key: *node_key });
        }
        self.inner.get_node(node_key)
    }
}

#[test]
fn failed_read_leaves_iterator_as_it_was() {
    let store = FlakyStore { inner: four_key_store(), on: node_id(2), failures: Cell::new(2) };
    let mut iter =
        JellyfishMerkleIntoIterator::new(store, node_id(0), fingerprint(&[0x3])).unwrap();
    let before = iter.stack_node_keys();
    assert_eq!(before.len(), 1);
    match iter.next() {
        Some(Err(StorageError { node_key })) => assert!(node_key == node_id(2)),
        _ => panic!("the read of the leaf fails"),
    }
    let after = iter.stack_node_keys();
    assert_eq!(after.len(), 1);
    assert!(after[0] == before[0]);
    assert!(matches!(iter.next(), Some(Err(_))));
    let (key, value) = iter.next().unwrap().unwrap();
    assert_eq!((key.origin, value.origin), (2, 20));
    let (key, _) = iter.next().unwrap().unwrap();
    assert_eq!(key.origin, 3);
}

#[test]
fn failed_read_during_seek_is_reported() {
    let store = FlakyStore { inner: four_key_store(), on: node_id(5), failures: Cell::new(1) };
    let result = JellyfishMerkleIterator::new(
        &store,
        node_id(0),
        SMTObject::new(0u64, fingerprint(&[0x5, 0x1])),
    );
    assert!(matches!(result, Err(StorageError { .. })));
    let mut iter = JellyfishMerkleIterator::new(
        &store,
        node_id(0),
        SMTObject::new(0u64, fingerprint(&[0x5, 0x1])),
    )
    .unwrap();
    let (key, _) = iter.next().unwrap().unwrap();
    assert_eq!(key.origin, 3);
}
