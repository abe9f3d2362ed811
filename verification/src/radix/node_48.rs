use vstd::prelude::*;
use crate::radix::node::{AnyNode, BaseNode, ChildRef, Node, NodeType, lemma_byte_set_bounded};
use crate::radix::node_256::Node256;

verus! {

/// Up to forty-eight children: an index with one entry per byte names the
/// slot of the child array that holds the byte's child.
pub struct Node48 {
    base: BaseNode,
    keys: [u8; 256],
    children_addr: [ChildRef; 48],
}

/// The index entry of a byte that has no child.
pub const EMPTY: u8 = 255;

impl View for Node48 {
    type V = Map<u8, ChildRef>;

    closed spec fn view(&self) -> Map<u8, ChildRef> {
        Map::new(
            |b: u8| self.keys@[b as int] != EMPTY,
            |b: u8| self.children_addr@[self.keys@[b as int] as int],
        )
    }
}

impl Node48 {
    /// The representation invariant: every index entry that is not empty names
    /// an occupied slot, and the header counts the bytes that have a child.
    pub closed spec fn inv(&self) -> bool {
        &&& self.base.kind() == NodeType::NODE48
        &&& self.base.count() <= 48
        &&& forall|b: int|
            0 <= b < 256 && self.keys@[b] != EMPTY ==> (#[trigger] self.keys@[b])
                < self.base.count()
        &&& forall|a: int, b: int|
            0 <= a < b < 256 && self.keys@[a] != EMPTY && self.keys@[b] != EMPTY ==> (
            #[trigger] self.keys@[a]) != (#[trigger] self.keys@[b])
        &&& self@.len() == self.base.count()
    }

    /// An empty node.
    pub fn new() -> (node: Node48)
        ensures
            node.inv(),
            node@ == Map::<u8, ChildRef>::empty(),
    {
        let node = Node48 {
            base: BaseNode::new(NodeType::NODE48),
            keys: [EMPTY;256],
            children_addr: [0usize;48],
        };
        assert(node@ =~= Map::<u8, ChildRef>::empty());
        node
    }
}

impl Default for Node48 {
    /// An empty node.
    fn default() -> (node: Node48)
        ensures
            node.inv(),
            node@ == Map::<u8, ChildRef>::empty(),
    {
        Node48::new()
    }
}

impl Node for Node48 {
    open spec fn wf(&self) -> bool {
        self.inv()
    }

    open spec fn class(&self) -> NodeType {
        NodeType::NODE48
    }

    proof fn lemma_bounded(&self) {
        lemma_byte_set_bounded(self@.dom());
    }

    fn find_child(&self, partial_key: u8) -> (child: Option<ChildRef>) {
        let index = self.keys[partial_key as usize];
        if index == EMPTY {
            return None;
        }
        Some(self.children_addr[index as usize])
    }

    fn set_child(&mut self, partial_key: u8, child: ChildRef) {
        proof {
            lemma_byte_set_bounded(self@.dom());
        }
        let index = self.keys[partial_key as usize];
        if index != EMPTY {
            self.children_addr[index as usize] = child;
            assert(self@ =~= old(self)@.insert(partial_key, child));
        } else {
            let children_cnt = self.base.children_cnt();
            self.children_addr[children_cnt] = child;
            self.base.bump();
            self.keys[partial_key as usize] = children_cnt as u8;
            assert(self@ =~= old(self)@.insert(partial_key, child));
        }
    }

    fn is_full(&self) -> (full: bool) {
        self.base.is_full()
    }

    fn grow(&self) -> (grown: AnyNode) {
        let mut wider = Node256::new();
        let mut byte: usize = 0;
        while byte < 256
            invariant
                byte <= 256,
                self.inv(),
                wider.inv(),
                wider@ == Map::new(
                    |b: u8| b < byte && self@.contains_key(b),
                    |b: u8| self@[b],
                ),
            decreases 256 - byte,
        {
            let ghost before = wider@;
            match self.find_child(byte as u8) {
                Some(child) => {
                    wider.set_child(byte as u8, child);
                },
                None => {},
            }
            byte += 1;
            assert(wider@ =~= Map::new(
                |b: u8| b < byte && self@.contains_key(b),
                |b: u8| self@[b],
            ));
        }
        assert(wider@ =~= self@);
        AnyNode::Node256(Box::new(wider))
    }
}

} // verus!
