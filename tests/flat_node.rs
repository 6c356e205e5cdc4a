use compression_tool::flat_node::HuffmannNode;

#[test]
fn flat_leaf_and_internal() {
    let a = HuffmannNode::new_leaf('A', 5);
    let b = HuffmannNode::new_leaf('B', 7);
    assert!(a.isLeaf());
    assert_eq!(a.value(), Some('A'));
    assert_eq!(a.weight(), 5);
    assert!(a.left().is_none());
    let internal = HuffmannNode::new_internal(12, a, b);
    assert!(!internal.isLeaf());
    assert_eq!(internal.value(), None);
    assert_eq!(internal.weight(), 12);
    assert_eq!(internal.left().unwrap().value(), Some('A'));
    assert_eq!(internal.right().unwrap().weight(), 7);
    let root = HuffmannNode::new_internal(22, internal, HuffmannNode::new_leaf('C', 10));
    assert_eq!(root.left().unwrap().left().unwrap().value(), Some('A'));
    assert_eq!(root.right().unwrap().value(), Some('C'));
}
