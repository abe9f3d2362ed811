use vstd::prelude::*;
use crate::radix::node::{AnyNode, BaseNode, ChildRef, Node, NodeType, lemma_byte_set_bounded};

verus! {

/// The widest node: one slot per byte, indexed by the byte itself.
pub struct Node256 {
    base: BaseNode,
    children_addr: [Option<ChildRef>; 256],
}

impl View for Node256 {
    type V = Map<u8, ChildRef>;

    closed spec fn view(&self) -> Map<u8, ChildRef> {
        Map::new(
            |b: u8| self.children_addr@[b as int] is Some,
            |b: u8| self.children_addr@[b as int].unwrap(),
        )
    }
}

impl Node256 {
    /// The representation invariant: the header counts the occupied slots.
    pub closed spec fn inv(&self) -> bool {
        &&& self.base.kind() == NodeType::NODE256
        &&& self@.len() == self.base.count()
    }

    /// An empty node.
    pub fn new() -> (node: Node256)
        ensures
            node.inv(),
            node@ == Map::<u8, ChildRef>::empty(),
    {
        let node = Node256 { base: BaseNode::new(NodeType::NODE256), children_addr: [None;256] };
        assert(node@ =~= Map::<u8, ChildRef>::empty());
        node
    }
}

impl Default for Node256 {
    /// An empty node.
    fn default() -> (node: Node256)
        ensures
            node.inv(),
            node@ == Map::<u8, ChildRef>::empty(),
    {
        Node256::new()
    }
}

impl Node for Node256 {
    open spec fn wf(&self) -> bool {
        self.inv()
    }

    open spec fn class(&self) -> NodeType {
        NodeType::NODE256
    }

    proof fn lemma_bounded(&self) {
        lemma_byte_set_bounded(self@.dom());
    }

    fn find_child(&self, partial_key: u8) -> (child: Option<ChildRef>) {
        self.children_addr[partial_key as usize]
    }

    fn set_child(&mut self, partial_key: u8, child: ChildRef) {
        proof {
            lemma_byte_set_bounded(self@.dom());
        }
        if self.children_addr[partial_key as usize].is_none() {
            assert(!self@.dom().contains(partial_key));
            self.base.bump();
        }
        self.children_addr[partial_key as usize] = Some(child);
        assert(self@ =~= old(self)@.insert(partial_key, child));
    }

    fn is_full(&self) -> (full: bool) {
        false
    }

    /// The widest class has nothing to grow into: no node of it is ever full,
    /// so no call can meet the precondition.
    fn grow(&self) -> (grown: AnyNode) {
        AnyNode::Node256(Box::new(Node256::new()))
    }
}

} // verus!
