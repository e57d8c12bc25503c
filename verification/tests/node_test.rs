use jellyfish_iterator::{HashValue, InternalNode, LeafNode, Node, SMTObject};

/// The fingerprint that begins with the given nibbles and goes on with zeros.
fn fingerprint(nibbles: &[u8]) -> HashValue {
    let mut bytes = [0u8; 32];
    for (i, nibble) in nibbles.iter().enumerate() {
        if i % 2 == 0 {
            bytes[i / 2] |= nibble << 4;
        } else {
            bytes[i / 2] |= nibble;
        }
    }
    HashValue::new(bytes)
}

/// An identifier for a node, told apart from the others by `n`.
fn node_id(n: u8) -> HashValue {
    let mut bytes = [0xeeu8; 32];
    bytes[31] = n;
    HashValue::new(bytes)
}

fn branch_node(children: &[(u8, HashValue)]) -> InternalNode {
    let mut slots: [Option<HashValue>; 16] = [None; 16];
    for (nibble, child) in children {
        slots[*nibble as usize] = Some(*child);
    }
    InternalNode::new(slots)
}

#[test]
fn object_keeps_origin_and_fingerprint() {
    let object = SMTObject::new(42u64, fingerprint(&[0x4, 0x2]));
    assert_eq!(*object.origin(), 42);
    assert_eq!(object.merkle_hash(), fingerprint(&[0x4, 0x2]));
    assert_eq!(object.into_origin(), 42);
}

#[test]
fn leaf_keeps_key_and_value() {
    let key = SMTObject::new(1u64, fingerprint(&[0x1]));
    let value = SMTObject::new(String::from("one"), fingerprint(&[0x2]));
    let leaf = LeafNode::new(key, value);
    assert_eq!(leaf.key().origin, 1);
    assert_eq!(leaf.key().merkle_hash(), fingerprint(&[0x1]));
    assert_eq!(leaf.value().origin, "one");
    let (key, value) = leaf.into_pair();
    assert_eq!(key, SMTObject::new(1u64, fingerprint(&[0x1])));
    assert_eq!(value.into_origin(), "one");
}

#[test]
fn branch_gives_children_by_nibble() {
    let node = branch_node(&[(0x1, node_id(1)), (0x5, node_id(5)), (0xf, node_id(15))]);
    assert_eq!(node.child(0x1), Some(node_id(1)));
    assert_eq!(node.child(0x5), Some(node_id(5)));
    assert_eq!(node.child(0xf), Some(node_id(15)));
    assert_eq!(node.child(0x0), None);
    assert_eq!(node.child(0x2), None);
    assert_eq!(node.child(0xe), None);
}

#[test]
fn branch_has_no_slot_above_fifteen() {
    let node = branch_node(&[(0x0, node_id(0)), (0xf, node_id(15))]);
    assert_eq!(node.child(16), None);
    assert_eq!(node.child(255), None);
}

#[test]
fn bitmap_has_one_bit_for_each_child() {
    let node = branch_node(&[(0x1, node_id(1)), (0x5, node_id(5)), (0xf, node_id(15))]);
    assert_eq!(node.generate_bitmap(), 0b1000_0000_0010_0010);
    assert_eq!(branch_node(&[(0x0, node_id(0))]).generate_bitmap(), 1);
    assert_eq!(branch_node(&[(0xf, node_id(0))]).generate_bitmap(), 0x8000);
}

#[test]
fn bitmap_of_full_and_of_empty_branch() {
    let all: Vec<(u8, HashValue)> = (0u8..16).map(|n| (n, node_id(n))).collect();
    assert_eq!(branch_node(&all).generate_bitmap(), 0xffff);
    assert_eq!(branch_node(&[]).generate_bitmap(), 0);
}

#[test]
fn nodes_compare_by_what_they_hold() {
    let leaf: Node<u64, u64> = Node::Leaf(LeafNode::new(
        SMTObject::new(1, fingerprint(&[0x1])),
        SMTObject::new(2, fingerprint(&[0x2])),
    ));
    let copy = leaf;
    assert_eq!(leaf, copy);
    assert_ne!(leaf, Node::Null);
    assert_ne!(leaf, Node::Internal(branch_node(&[(0x1, node_id(1))])));
}
