//! The traversal frame: one branch node on the path of the walk, with the
//! record of which of its children is the next to visit.

use crate::bitmap::{
    lemma_highest_bit, lemma_lowest_bit, lemma_shift_single_bit, lemma_single_bit,
    lemma_test_bit, single_bit,
};
use crate::hash::HashValue;
use crate::node::InternalNode;
use vstd::prelude::*;
use vstd::std_specs::bits::{u16_leading_zeros, u16_trailing_zeros};

verus! {

/// `NodeVisitInfo` keeps track of the status of a branch node during the
/// walk: which children exist, and which of them is the next to visit.
#[derive(Clone, Copy, Debug)]
pub struct NodeVisitInfo {
    /// The identifier of this node.
    node_key: HashValue,
    /// The node itself.
    node: InternalNode,
    /// The bitmap that tells which children exist, kept from the node.
    children_bitmap: u16,
    /// This integer always has exactly one 1-bit. The position of the 1-bit
    /// (from LSB) is the next child to visit. All the children on its left
    /// have been visited; those on its right, and this one, have not.
    next_child_to_visit: u16,
}

impl NodeVisitInfo {
    /// The identifier of the branch.
    pub closed spec fn node_key(self) -> HashValue {
        self.node_key
    }

    /// The branch.
    pub closed spec fn node(self) -> InternalNode {
        self.node
    }

    /// The nibble of the next child to visit.
    pub closed spec fn cursor(self) -> int {
        u16_trailing_zeros(self.next_child_to_visit) as int
    }

    /// The frame is consistent: its bitmap is the existence bitmap of its
    /// node, and its cursor is a single bit that points at an existing child.
    pub closed spec fn wf(self) -> bool {
        &&& self.node.is_existence_bitmap(self.children_bitmap)
        &&& 0 <= self.cursor() < 16
        &&& self.next_child_to_visit == single_bit(self.cursor())
        &&& self.node.has_child(self.cursor())
    }

    /// The next child to visit is the last child of the node.
    pub open spec fn spec_is_rightmost(self) -> bool {
        self.node().no_child_from(self.cursor() + 1)
    }

    /// What a consistent frame gives: the cursor is a nibble, and it points at
    /// an existing child of a branch that is therefore well formed.
    pub proof fn lemma_wf(self)
        requires
            self.wf(),
        ensures
            0 <= self.cursor() < 16,
            self.node().has_child(self.cursor()),
            self.node().wf(),
    {
    }

    /// Constructs a new `NodeVisitInfo` with given node key and node. The
    /// cursor is set to the leftmost child.
    pub fn new(node_key: HashValue, node: InternalNode) -> (info: Self)
        requires
            node.wf(),
        ensures
            info.wf(),
            info.node_key() == node_key,
            info.node() == node,
            node.is_first_child_from(0, info.cursor()),
    {
        let children_bitmap = node.generate_bitmap();
        proof {
            lemma_lowest_bit(children_bitmap);
            lemma_single_bit(u16_trailing_zeros(children_bitmap) as int);
        }
        Self {
            node_key,
            node,
            children_bitmap,
            next_child_to_visit: 1u16 << children_bitmap.trailing_zeros(),
        }
    }

    /// Same as `new` but points the cursor to a specific child. If that
    /// child does not exist, the cursor goes to the next one on the right.
    /// There must be a child at `next_child_to_visit` or on its right.
    pub fn new_next_child_to_visit(
        node_key: HashValue,
        node: InternalNode,
        next_child_to_visit: u8,
    ) -> (info: Self)
        requires
            next_child_to_visit < 16,
            !node.no_child_from(next_child_to_visit as int),
        ensures
            info.wf(),
            info.node_key() == node_key,
            info.node() == node,
            node.is_first_child_from(next_child_to_visit as int, info.cursor()),
    {
        let children_bitmap = node.generate_bitmap();
        let mut cursor: u16 = 1u16 << next_child_to_visit;
        let ghost from: int = next_child_to_visit as int;
        let ghost mut position: int = from;
        let ghost target: int = choose|j: int| from <= j && node.has_child(j);
        while cursor & children_bitmap == 0
            invariant
                node.is_existence_bitmap(children_bitmap),
                0 <= from <= position <= target < 16,
                node.has_child(target),
                cursor == single_bit(position),
                forall|j: int| from <= j < position ==> !node.has_child(j),
            decreases 16 - position,
        {
            proof {
                lemma_test_bit(children_bitmap, position);
                lemma_shift_single_bit(position);
                position = position + 1;
            }
            cursor = cursor << 1;
        }
        proof {
            lemma_test_bit(children_bitmap, position);
            lemma_single_bit(position);
        }
        Self { node_key, node, children_bitmap, next_child_to_visit: cursor }
    }

    /// The nibble of the next child to visit.
    pub fn next_child(&self) -> (nibble: u8)
        requires
            self.wf(),
        ensures
            nibble == self.cursor(),
            nibble < 16,
    {
        self.next_child_to_visit.trailing_zeros() as u8
    }

    /// The identifier of the next child to visit.
    pub fn next_child_key(&self) -> (child: HashValue)
        requires
            self.wf(),
        ensures
            self.node().child_at(self.cursor()) == Some(child),
    {
        let nibble = self.next_child();
        match self.node.child(nibble) {
            Some(child) => child,
            None => vstd::pervasive::unreached(),
        }
    }

    /// The identifier of the branch.
    pub fn key(&self) -> (node_key: HashValue)
        ensures
            node_key == self.node_key(),
    {
        self.node_key
    }

    /// Whether the next child to visit is the rightmost one.
    pub fn is_rightmost(&self) -> (rightmost: bool)
        requires
            self.wf(),
        ensures
            rightmost == self.spec_is_rightmost(),
    {
        proof {
            let c = self.cursor();
            lemma_single_bit(c);
            crate::bitmap::lemma_empty_bitmap(self.children_bitmap);
            lemma_highest_bit(self.children_bitmap);
            let h = 15 - u16_leading_zeros(self.children_bitmap);
            assert(self.node.has_child(h));
            if h == c {
                assert(self.node.no_child_from(c + 1));
            } else {
                assert(c < h);
                assert(!self.node.no_child_from(c + 1));
            }
        }
        self.next_child_to_visit.leading_zeros() == self.children_bitmap.leading_zeros()
    }

    /// Advances the cursor to the next child on the right. There must be one.
    pub fn advance(&mut self)
        requires
            old(self).wf(),
            !old(self).spec_is_rightmost(),
        ensures
            final(self).wf(),
            final(self).node_key() == old(self).node_key(),
            final(self).node() == old(self).node(),
            old(self).node().is_first_child_from(old(self).cursor() + 1, final(self).cursor()),
    {
        let ghost from: int = self.cursor() + 1;
        let ghost target: int = choose|j: int| from <= j && self.node.has_child(j);
        let ghost mut position: int = from;
        proof {
            lemma_shift_single_bit(self.cursor());
        }
        self.next_child_to_visit = self.next_child_to_visit << 1;
        while self.next_child_to_visit & self.children_bitmap == 0
            invariant
                self.node == old(self).node,
                self.node_key == old(self).node_key,
                self.children_bitmap == old(self).children_bitmap,
                self.node.is_existence_bitmap(self.children_bitmap),
                0 <= from <= position <= target < 16,
                self.node.has_child(target),
                self.next_child_to_visit == single_bit(position),
                forall|j: int| from <= j < position ==> !self.node.has_child(j),
            decreases 16 - position,
        {
            proof {
                lemma_test_bit(self.children_bitmap, position);
                lemma_shift_single_bit(position);
                position = position + 1;
            }
            self.next_child_to_visit = self.next_child_to_visit << 1;
        }
        proof {
            lemma_test_bit(self.children_bitmap, position);
            lemma_single_bit(position);
        }
    }
}

} // verus!
