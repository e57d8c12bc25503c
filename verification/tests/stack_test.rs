use jellyfish_iterator::stack::cleanup_stack;
use jellyfish_iterator::{
    HashValue, InternalNode, JellyfishMerkleIntoIterator, JellyfishMerkleIterator, MockTreeStore,
    NodeVisitInfo,
};

/// An identifier for a node, told apart from the others by `n`.
fn node_id(n: u8) -> HashValue {
    let mut bytes = [0xeeu8; 32];
    bytes[31] = n;
    HashValue::new(bytes)
}

fn branch_node(children: &[(u8, HashValue)]) -> InternalNode {
    let mut slots: [Option<HashValue>; 16] = [None; 16];
    for (nibble, child) in children {
        slots[*nibble as usize] = Some(*child);
    }
    InternalNode::new(slots)
}

fn two_children() -> InternalNode {
    branch_node(&[(0x3, node_id(3)), (0xc, node_id(12))])
}

fn cursors(stack: &[NodeVisitInfo]) -> Vec<(HashValue, u8)> {
    stack.iter().map(|info| (info.key(), info.next_child())).collect()
}

#[test]
fn cleanup_of_empty_stack_leaves_it_empty() {
    let mut stack: Vec<NodeVisitInfo> = Vec::new();
    cleanup_stack(&mut stack);
    assert!(stack.is_empty());
}

#[test]
fn cleanup_moves_last_frame_to_its_next_child() {
    let mut stack = vec![
        NodeVisitInfo::new(node_id(0), two_children()),
        NodeVisitInfo::new(node_id(1), two_children()),
    ];
    cleanup_stack(&mut stack);
    assert_eq!(cursors(&stack), vec![(node_id(0), 0x3), (node_id(1), 0xc)]);
}

#[test]
fn cleanup_pops_exhausted_frames_and_moves_the_one_below() {
    let mut stack = vec![
        NodeVisitInfo::new(node_id(0), two_children()),
        NodeVisitInfo::new_next_child_to_visit(node_id(1), two_children(), 0xc),
        NodeVisitInfo::new(node_id(2), branch_node(&[(0x0, node_id(9))])),
    ];
    cleanup_stack(&mut stack);
    assert_eq!(cursors(&stack), vec![(node_id(0), 0xc)]);
}

#[test]
fn cleanup_of_exhausted_stack_empties_it() {
    let mut stack = vec![
        NodeVisitInfo::new_next_child_to_visit(node_id(0), two_children(), 0xc),
        NodeVisitInfo::new_next_child_to_visit(node_id(1), two_children(), 0x4),
    ];
    cleanup_stack(&mut stack);
    assert!(stack.is_empty());
}

#[test]
fn iterators_clean_up_as_the_shared_procedure_does() {
    let mut shared = vec![
        NodeVisitInfo::new(node_id(0), two_children()),
        NodeVisitInfo::new_next_child_to_visit(node_id(1), two_children(), 0xc),
    ];
    let mut borrowed = shared.clone();
    let mut owned = shared.clone();
    cleanup_stack(&mut shared);
    JellyfishMerkleIterator::<u64, u64, MockTreeStore<u64, u64>>::cleanup_stack(&mut borrowed);
    JellyfishMerkleIntoIterator::<u64, u64, MockTreeStore<u64, u64>>::cleanup_stack(&mut owned);
    assert_eq!(cursors(&shared), vec![(node_id(0), 0xc)]);
    assert_eq!(cursors(&borrowed), cursors(&shared));
    assert_eq!(cursors(&owned), cursors(&shared));
}
