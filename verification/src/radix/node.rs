use vstd::prelude::*;
use vstd::set_lib::lemma_len_subset;
use crate::radix::node_16::Node16;
use crate::radix::node_256::Node256;
use crate::radix::node_4::Node4;
use crate::radix::node_48::Node48;

verus! {

/// Handle of a child node: its index in the store that owns the nodes.
pub type ChildRef = usize;

/// The four fan-out classes of a radix node.
#[derive(Clone, Copy, PartialEq, Eq, Structural, Debug)]
pub enum NodeType {
    NODE4,
    NODE16,
    NODE48,
    NODE256,
}

impl NodeType {
    /// Number of children a node of this class can hold.
    pub open spec fn spec_capacity(self) -> usize {
        match self {
            NodeType::NODE4 => 4,
            NodeType::NODE16 => 16,
            NodeType::NODE48 => 48,
            NodeType::NODE256 => 256,
        }
    }

    /// Number of children a node of this class can hold.
    #[verifier::when_used_as_spec(spec_capacity)]
    pub fn capacity(self) -> (cap: usize)
        ensures
            cap == self.spec_capacity(),
    {
        match self {
            NodeType::NODE4 => 4,
            NodeType::NODE16 => 16,
            NodeType::NODE48 => 48,
            NodeType::NODE256 => 256,
        }
    }

    /// The class a full node of this class is replaced by; the widest class has none.
    pub open spec fn spec_next(self) -> Option<NodeType> {
        match self {
            NodeType::NODE4 => Some(NodeType::NODE16),
            NodeType::NODE16 => Some(NodeType::NODE48),
            NodeType::NODE48 => Some(NodeType::NODE256),
            NodeType::NODE256 => None,
        }
    }

    /// The class a full node of this class is replaced by; the widest class has none.
    #[verifier::when_used_as_spec(spec_next)]
    pub fn next(self) -> (wider: Option<NodeType>)
        ensures
            wider == self.spec_next(),
    {
        match self {
            NodeType::NODE4 => Some(NodeType::NODE16),
            NodeType::NODE16 => Some(NodeType::NODE48),
            NodeType::NODE48 => Some(NodeType::NODE256),
            NodeType::NODE256 => None,
        }
    }
}

/// What a lookup of `partial_key` returns on a node whose children are `children`.
pub open spec fn lookup(children: Map<u8, ChildRef>, partial_key: u8) -> Option<ChildRef> {
    if children.contains_key(partial_key) {
        Some(children[partial_key])
    } else {
        None
    }
}

/// Whether a node of class `node_type` with `count` children has no room left.
/// The widest class has a slot for every byte and is never full.
pub open spec fn full_at(node_type: NodeType, count: nat) -> bool {
    node_type != NodeType::NODE256 && count >= node_type.spec_capacity()
}

/// The bytes below `bound`.
pub open spec fn bytes_below(bound: nat) -> Set<u8> {
    Set::new(|b: u8| b < bound)
}

/// There are `bound` bytes below `bound`.
pub proof fn lemma_bytes_below(bound: nat)
    requires
        bound <= 256,
    ensures
        bytes_below(bound).finite(),
        bytes_below(bound).len() == bound,
    decreases bound,
{
    if bound == 0 {
        assert(bytes_below(0) =~= Set::<u8>::empty());
    } else {
        lemma_bytes_below((bound - 1) as nat);
        assert(bytes_below(bound) =~= bytes_below((bound - 1) as nat).insert((bound - 1) as u8));
    }
}

/// A set of bytes is finite and has at most 256 members, fewer if a byte is missing.
pub proof fn lemma_byte_set_bounded(bytes: Set<u8>)
    ensures
        bytes.finite(),
        bytes.len() <= 256,
        forall|b: u8| !bytes.contains(b) ==> bytes.len() < 256,
{
    lemma_bytes_below(256);
    lemma_len_subset(bytes, bytes_below(256));
    assert forall|b: u8| !bytes.contains(b) implies bytes.len() < 256 by {
        lemma_len_subset(bytes, bytes_below(256).remove(b));
    }
}

/// The header every node starts with: its fan-out class and how many children it holds.
#[derive(Clone, Copy, Debug)]
pub struct BaseNode {
    node_type: NodeType,
    children_cnt: u16,
}

impl BaseNode {
    /// The fan-out class recorded in the header.
    pub closed spec fn kind(&self) -> NodeType {
        self.node_type
    }

    /// The number of children recorded in the header.
    pub closed spec fn count(&self) -> nat {
        self.children_cnt as nat
    }

    /// The count never exceeds the capacity of the class.
    pub open spec fn wf(&self) -> bool {
        self.count() <= self.kind().spec_capacity()
    }

    /// Header of an empty node of class `node_type`.
    pub fn new(node_type: NodeType) -> (base: BaseNode)
        ensures
            base.wf(),
            base.kind() == node_type,
            base.count() == 0,
    {
        BaseNode { node_type, children_cnt: 0 }
    }

    /// The fan-out class of the node.
    pub fn node_type(&self) -> (node_type: NodeType)
        ensures
            node_type == self.kind(),
    {
        self.node_type
    }

    /// The number of children the node holds.
    pub fn children_cnt(&self) -> (count: usize)
        ensures
            count == self.count(),
    {
        self.children_cnt as usize
    }

    /// Whether the node has no room for another child.
    pub fn is_full(&self) -> (full: bool)
        ensures
            full == full_at(self.kind(), self.count()),
    {
        match self.node_type {
            NodeType::NODE256 => false,
            _ => self.children_cnt as usize >= self.node_type.capacity(),
        }
    }

    /// Records one more child.
    pub fn bump(&mut self)
        requires
            old(self).wf(),
            old(self).count() < old(self).kind().spec_capacity(),
        ensures
            final(self).wf(),
            final(self).kind() == old(self).kind(),
            final(self).count() == old(self).count() + 1,
    {
        self.children_cnt = self.children_cnt + 1;
    }
}

/// The contract every node representation meets. A node maps partial-key
/// bytes to children; its view is that map.
pub trait Node: View<V = Map<u8, ChildRef>> + Sized {
    /// The representation invariant.
    spec fn wf(&self) -> bool;

    /// The fan-out class of the representation.
    spec fn class(&self) -> NodeType;

    /// A well-formed node holds finitely many children, no more than its class allows.
    proof fn lemma_bounded(&self)
        requires
            self.wf(),
        ensures
            self@.dom().finite(),
            self@.len() <= self.class().spec_capacity(),
    ;

    /// The child stored under `partial_key`, if there is one.
    fn find_child(&self, partial_key: u8) -> (child: Option<ChildRef>)
        requires
            self.wf(),
        ensures
            child == lookup(self@, partial_key),
    ;

    /// Maps `partial_key` to `child`. A new key needs room in the node; the
    /// child of a key that is already present is replaced in its slot.
    fn set_child(&mut self, partial_key: u8, child: ChildRef)
        requires
            old(self).wf(),
            !full_at(old(self).class(), old(self)@.len()) || old(self)@.contains_key(partial_key),
        ensures
            final(self).wf(),
            final(self).class() == old(self).class(),
            final(self)@ == old(self)@.insert(partial_key, child),
    ;

    /// Whether the node has no room for a new key.
    fn is_full(&self) -> (full: bool)
        requires
            self.wf(),
        ensures
            full == full_at(self.class(), self@.len()),
    ;

    /// A node of the next capacity class that holds the same children.
    fn grow(&self) -> (grown: AnyNode)
        requires
            self.wf(),
            full_at(self.class(), self@.len()),
        ensures
            grown.inv(),
            self.class().spec_next() == Some(grown.kind()),
            grown@ == self@,
            forall|partial_key: u8|
                self@.contains_key(partial_key) ==> lookup(grown@, partial_key) == Some(
                    self@[partial_key],
                ),
    ;
}

/// A node of any class: the closed set of representations.
pub enum AnyNode {
    Node4(Node4),
    Node16(Node16),
    Node48(Box<Node48>),
    Node256(Box<Node256>),
}

impl View for AnyNode {
    type V = Map<u8, ChildRef>;

    open spec fn view(&self) -> Map<u8, ChildRef> {
        match self {
            AnyNode::Node4(node) => node@,
            AnyNode::Node16(node) => node@,
            AnyNode::Node48(node) => node@,
            AnyNode::Node256(node) => node@,
        }
    }
}

impl AnyNode {
    /// The representation invariant of the variant that is active.
    pub open spec fn inv(&self) -> bool {
        match self {
            AnyNode::Node4(node) => node.inv(),
            AnyNode::Node16(node) => node.inv(),
            AnyNode::Node48(node) => node.inv(),
            AnyNode::Node256(node) => node.inv(),
        }
    }

    /// The fan-out class of the variant that is active.
    pub open spec fn kind(&self) -> NodeType {
        match self {
            AnyNode::Node4(_) => NodeType::NODE4,
            AnyNode::Node16(_) => NodeType::NODE16,
            AnyNode::Node48(_) => NodeType::NODE48,
            AnyNode::Node256(_) => NodeType::NODE256,
        }
    }
}

impl Node for AnyNode {
    open spec fn wf(&self) -> bool {
        self.inv()
    }

    open spec fn class(&self) -> NodeType {
        self.kind()
    }

    proof fn lemma_bounded(&self) {
        match self {
            AnyNode::Node4(node) => node.lemma_bounded(),
            AnyNode::Node16(node) => node.lemma_bounded(),
            AnyNode::Node48(node) => node.lemma_bounded(),
            AnyNode::Node256(node) => node.lemma_bounded(),
        }
    }

    fn find_child(&self, partial_key: u8) -> (child: Option<ChildRef>) {
        match self {
            AnyNode::Node4(node) => node.find_child(partial_key),
            AnyNode::Node16(node) => node.find_child(partial_key),
            AnyNode::Node48(node) => node.find_child(partial_key),
            AnyNode::Node256(node) => node.find_child(partial_key),
        }
    }

    fn set_child(&mut self, partial_key: u8, child: ChildRef) {
        match self {
            AnyNode::Node4(node) => node.set_child(partial_key, child),
            AnyNode::Node16(node) => node.set_child(partial_key, child),
            AnyNode::Node48(node) => node.set_child(partial_key, child),
            AnyNode::Node256(node) => node.set_child(partial_key, child),
        }
    }

    fn is_full(&self) -> (full: bool) {
        match self {
            AnyNode::Node4(node) => node.is_full(),
            AnyNode::Node16(node) => node.is_full(),
            AnyNode::Node48(node) => node.is_full(),
            AnyNode::Node256(node) => node.is_full(),
        }
    }

    fn grow(&self) -> (grown: AnyNode) {
        match self {
            AnyNode::Node4(node) => node.grow(),
            AnyNode::Node16(node) => node.grow(),
            AnyNode::Node48(node) => node.grow(),
            AnyNode::Node256(node) => node.grow(),
        }
    }
}

} // verus!
