use vstd::prelude::*;
use crate::radix::dense::{
    dense_map, distinct_keys, find_slot, lemma_dense_append, lemma_dense_empty,
    lemma_dense_replace, lemma_dense_size, lemma_dense_step,
};
use crate::radix::node::{AnyNode, BaseNode, ChildRef, Node, NodeType};
use crate::radix::node_48::Node48;

verus! {

/// Up to sixteen children, found by a scan of the inline keys.
pub struct Node16 {
    base: BaseNode,
    keys: [u8; 16],
    children_addr: [ChildRef; 16],
}

impl View for Node16 {
    type V = Map<u8, ChildRef>;

    closed spec fn view(&self) -> Map<u8, ChildRef> {
        dense_map(self.keys@, self.children_addr@, self.base.count())
    }
}

impl Node16 {
    /// The representation invariant: the header counts the occupied slots,
    /// and no two of them hold the same key.
    pub closed spec fn inv(&self) -> bool {
        &&& self.base.kind() == NodeType::NODE16
        &&& self.base.count() <= 16
        &&& distinct_keys(self.keys@, self.base.count())
    }

    /// An empty node.
    pub fn new() -> (node: Node16)
        ensures
            node.inv(),
            node@ == Map::<u8, ChildRef>::empty(),
    {
        let node = Node16 {
            base: BaseNode::new(NodeType::NODE16),
            keys: [0u8;16],
            children_addr: [0usize;16],
        };
        proof {
            lemma_dense_empty(node.keys@, node.children_addr@);
        }
        node
    }
}

impl Default for Node16 {
    /// An empty node.
    fn default() -> (node: Node16)
        ensures
            node.inv(),
            node@ == Map::<u8, ChildRef>::empty(),
    {
        Node16::new()
    }
}

impl Node for Node16 {
    open spec fn wf(&self) -> bool {
        self.inv()
    }

    open spec fn class(&self) -> NodeType {
        NodeType::NODE16
    }

    proof fn lemma_bounded(&self) {
        lemma_dense_size(self.keys@, self.children_addr@, self.base.count());
    }

    fn find_child(&self, partial_key: u8) -> (child: Option<ChildRef>) {
        match find_slot(&self.keys, self.base.children_cnt(), partial_key) {
            Some(slot) => Some(self.children_addr[slot]),
            None => None,
        }
    }

    fn set_child(&mut self, partial_key: u8, child: ChildRef) {
        let children_cnt = self.base.children_cnt();
        proof {
            lemma_dense_size(self.keys@, self.children_addr@, self.base.count());
        }
        match find_slot(&self.keys, children_cnt, partial_key) {
            Some(slot) => {
                proof {
                    lemma_dense_replace(
                        self.keys@,
                        self.children_addr@,
                        self.base.count(),
                        partial_key,
                        child,
                    );
                }
                self.children_addr[slot] = child;
            },
            None => {
                proof {
                    lemma_dense_append(
                        self.keys@,
                        self.children_addr@,
                        self.base.count(),
                        partial_key,
                        child,
                    );
                }
                self.children_addr[children_cnt] = child;
                self.keys[children_cnt] = partial_key;
                self.base.bump();
            },
        }
    }

    fn is_full(&self) -> (full: bool) {
        proof {
            lemma_dense_size(self.keys@, self.children_addr@, self.base.count());
        }
        self.base.is_full()
    }

    fn grow(&self) -> (grown: AnyNode) {
        let mut wider = Node48::new();
        let mut idx: usize = 0;
        proof {
            lemma_dense_size(self.keys@, self.children_addr@, self.base.count());
            lemma_dense_empty(self.keys@, self.children_addr@);
        }
        while idx < 16
            invariant
                idx <= 16,
                self.inv(),
                self.base.count() == 16,
                wider.inv(),
                wider@ == dense_map(self.keys@, self.children_addr@, idx as nat),
            decreases 16 - idx,
        {
            proof {
                lemma_dense_size(self.keys@, self.children_addr@, idx as nat);
                lemma_dense_step(self.keys@, self.children_addr@, idx as nat);
            }
            wider.set_child(self.keys[idx], self.children_addr[idx]);
            idx += 1;
        }
        AnyNode::Node48(Box::new(wider))
    }
}

} // verus!
