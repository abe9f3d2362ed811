use memindex::radix::node::{AnyNode, BaseNode, Node, NodeType};
use memindex::radix::node_16::Node16;
use memindex::radix::node_256::Node256;
use memindex::radix::node_4::Node4;
use memindex::radix::node_48::Node48;

#[test]
fn node4_finds_what_was_set() {
    let mut node = Node4::new();
    assert!(!node.is_full());
    assert_eq!(node.find_child(0), None);
    node.set_child(0, 10);
    node.set_child(7, 11);
    node.set_child(255, 12);
    assert_eq!(node.find_child(0), Some(10));
    assert_eq!(node.find_child(7), Some(11));
    assert_eq!(node.find_child(255), Some(12));
    assert_eq!(node.find_child(1), None);
    assert!(!node.is_full());
    node.set_child(9, 13);
    assert!(node.is_full());
}

#[test]
fn node4_replaces_the_child_of_a_present_key() {
    let mut node = Node4::new();
    for b in 0..4u8 {
        node.set_child(b, b as usize);
    }
    assert!(node.is_full());
    node.set_child(2, 99);
    assert!(node.is_full());
    assert_eq!(node.find_child(2), Some(99));
    assert_eq!(node.find_child(3), Some(3));
}

#[test]
fn node4_grows_into_node16_with_the_same_children() {
    let mut node = Node4::new();
    for b in [200u8, 0, 17, 3] {
        node.set_child(b, 1000 + b as usize);
    }
    let grown = node.grow();
    assert!(matches!(grown, AnyNode::Node16(_)));
    assert!(!grown.is_full());
    for b in 0..=255u8 {
        assert_eq!(grown.find_child(b), node.find_child(b));
    }
    assert_eq!(grown.find_child(17), Some(1017));
}

#[test]
fn node16_fills_at_sixteen_and_grows_into_node48() {
    let mut node = Node16::new();
    for b in 0..16u8 {
        assert!(!node.is_full());
        node.set_child(b * 3, b as usize + 1);
    }
    assert!(node.is_full());
    let grown = node.grow();
    assert!(matches!(grown, AnyNode::Node48(_)));
    for b in 0..=255u8 {
        assert_eq!(grown.find_child(b), node.find_child(b));
    }
    assert_eq!(grown.find_child(45), Some(16));
    assert_eq!(grown.find_child(46), None);
}

#[test]
fn node48_fills_at_forty_eight_and_grows_into_node256() {
    let mut node = Node48::new();
    for b in 0..48u8 {
        assert!(!node.is_full());
        node.set_child(255 - b, b as usize);
    }
    assert!(node.is_full());
    assert_eq!(node.find_child(255), Some(0));
    assert_eq!(node.find_child(208), Some(47));
    assert_eq!(node.find_child(207), None);
    node.set_child(255, 77);
    assert_eq!(node.find_child(255), Some(77));
    let grown = node.grow();
    assert!(matches!(grown, AnyNode::Node256(_)));
    for b in 0..=255u8 {
        assert_eq!(grown.find_child(b), node.find_child(b));
    }
}

#[test]
fn node256_is_never_full() {
    let mut node = Node256::new();
    for b in 0..=255u8 {
        assert!(!node.is_full());
        node.set_child(b, 2 * b as usize);
    }
    assert!(!node.is_full());
    for b in 0..=255u8 {
        assert_eq!(node.find_child(b), Some(2 * b as usize));
    }
    node.set_child(4, 1);
    assert_eq!(node.find_child(4), Some(1));
}

#[test]
fn any_node_grows_through_every_class() {
    let mut node = AnyNode::Node4(Node4::new());
    let mut next: u16 = 0;
    while next < 256 {
        if node.is_full() {
            node = node.grow();
        }
        node.set_child(next as u8, next as usize + 5);
        next += 1;
    }
    assert!(matches!(node, AnyNode::Node256(_)));
    for b in 0..=255u8 {
        assert_eq!(node.find_child(b), Some(b as usize + 5));
    }
}

#[test]
fn node_type_capacities_and_successors() {
    assert_eq!(NodeType::NODE4.capacity(), 4);
    assert_eq!(NodeType::NODE16.capacity(), 16);
    assert_eq!(NodeType::NODE48.capacity(), 48);
    assert_eq!(NodeType::NODE256.capacity(), 256);
    assert_eq!(NodeType::NODE4.next(), Some(NodeType::NODE16));
    assert_eq!(NodeType::NODE16.next(), Some(NodeType::NODE48));
    assert_eq!(NodeType::NODE48.next(), Some(NodeType::NODE256));
    assert_eq!(NodeType::NODE256.next(), None);
}

#[test]
fn base_node_counts_children() {
    let mut base = BaseNode::new(NodeType::NODE4);
    assert_eq!(base.node_type(), NodeType::NODE4);
    assert_eq!(base.children_cnt(), 0);
    assert!(!base.is_full());
    for _ in 0..4 {
        base.bump();
    }
    assert_eq!(base.children_cnt(), 4);
    assert!(base.is_full());
}

#[test]
fn default_nodes_are_empty() {
    let node16 = Node16::default();
    let node48 = Node48::default();
    let node256 = Node256::default();
    for b in 0..=255u8 {
        assert_eq!(node16.find_child(b), None);
        assert_eq!(node48.find_child(b), None);
        assert_eq!(node256.find_child(b), None);
    }
    assert!(!node16.is_full());
    assert!(!node48.is_full());
    assert!(!node256.is_full());
}

#[test]
fn a_copy_of_a_node4_is_a_node_of_its_own() {
    let mut node = Node4::new();
    node.set_child(1, 10);
    let copy = node;
    node.set_child(2, 20);
    assert_eq!(copy.find_child(1), Some(10));
    assert_eq!(copy.find_child(2), None);
    assert_eq!(node.find_child(2), Some(20));
}
