use compression_tool::huffman::{HuffmanBaseNode, HuffmanInternalNode, HuffmanLeafNode, HuffmanNode};
use std::collections::HashMap;

// Test HuffmanLeafNode creation
#[test]
fn test_leaf_node_creation() {
    let leaf = HuffmanLeafNode::new(3, b'a');
    assert_eq!(leaf.value(), b'a');
    assert_eq!(leaf.weight(), 3);
}

// Test HuffmanInternalNode creation
#[test]
fn test_internal_node_creation() {
    let left = HuffmanNode::Leaf(HuffmanLeafNode::new(2, b'b'));
    let right = HuffmanNode::Leaf(HuffmanLeafNode::new(3, b'a'));
    let internal_node = HuffmanInternalNode::new(5, left, right);
    assert_eq!(internal_node.base.weight, 5);
}

// Test Prefix Code Generation
#[test]
fn test_generate_prefix_codes() {
    // Create a simple Huffman tree:
    //        Internal
    //       /      \
    //   Leaf(a)  Internal
    //             /      \
    //        Leaf(b)   Leaf(c)

    let node_a = HuffmanNode::Leaf(HuffmanLeafNode::new(5, b'a'));
    let node_b = HuffmanNode::Leaf(HuffmanLeafNode::new(3, b'b'));
    let node_c = HuffmanNode::Leaf(HuffmanLeafNode::new(2, b'c'));

    let internal1 = HuffmanInternalNode::new(node_b.weight() + node_c.weight(), node_b, node_c);

    let root = HuffmanNode::Internal(internal1);
    let root = HuffmanNode::Internal(HuffmanInternalNode::new(
        node_a.weight() + root.weight(),
        node_a,
        root,
    ));

    let mut codes = HashMap::new();
    root.generate_prefix_codes(&mut codes);

    // Expected prefix codes:
    let mut expected_codes = HashMap::new();
    expected_codes.insert(b'a', "0".to_string());
    expected_codes.insert(b'b', "10".to_string());
    expected_codes.insert(b'c', "11".to_string());

    assert_eq!(codes, expected_codes);
}

// Test with an empty tree (single node case)
#[test]
fn test_single_node_tree() {
    // Single node tree (just one leaf node)
    let node_a = HuffmanNode::Leaf(HuffmanLeafNode::new(5, b'a'));

    let mut codes = HashMap::new();
    node_a.generate_prefix_codes(&mut codes);

    let mut expected_codes = HashMap::new();
    expected_codes.insert(b'a', "0".to_string()); // A lone leaf gets the one-bit codeword

    assert_eq!(codes, expected_codes);
}

// Test with a more complex tree
#[test]
fn test_complex_tree() {
    // Create a complex Huffman tree:
    //         Internal
    //        /      \
    //   Internal   Internal
    //   /    \     /     \
    //  Leaf(a) Leaf(b) Leaf(c) Leaf(d)

    let node_a = HuffmanNode::Leaf(HuffmanLeafNode::new(5, b'a'));
    let node_b = HuffmanNode::Leaf(HuffmanLeafNode::new(3, b'b'));
    let node_c = HuffmanNode::Leaf(HuffmanLeafNode::new(2, b'c'));
    let node_d = HuffmanNode::Leaf(HuffmanLeafNode::new(1, b'd'));

    let internal1 = HuffmanNode::Internal(HuffmanInternalNode::new(
        node_a.weight() + node_b.weight(),
        node_a,
        node_b,
    ));
    let internal2 = HuffmanNode::Internal(HuffmanInternalNode::new(
        node_c.weight() + node_d.weight(),
        node_c,
        node_d,
    ));

    let root = HuffmanNode::Internal(HuffmanInternalNode::new(
        internal1.weight() + internal2.weight(),
        internal1,
        internal2,
    ));

    let mut codes = HashMap::new();
    root.generate_prefix_codes(&mut codes);

    let mut expected_codes = HashMap::new();
    expected_codes.insert(b'a', "00".to_string());
    expected_codes.insert(b'b', "01".to_string());
    expected_codes.insert(b'c', "10".to_string());
    expected_codes.insert(b'd', "11".to_string());

    assert_eq!(codes, expected_codes);
}

#[test]
fn prefix_codes_keep_other_entries() {
    let root = HuffmanNode::Internal(HuffmanInternalNode::new(
        3,
        HuffmanNode::Leaf(HuffmanLeafNode::new(1, b'x')),
        HuffmanNode::Leaf(HuffmanLeafNode::new(2, b'y')),
    ));
    let mut codes = HashMap::new();
    codes.insert(b'z', "111".to_string());
    codes.insert(b'x', "stale".to_string());
    root.generate_prefix_codes(&mut codes);
    assert_eq!(codes.len(), 3);
    assert_eq!(codes[&b'x'], "0");
    assert_eq!(codes[&b'y'], "1");
    assert_eq!(codes[&b'z'], "111");
}

#[test]
fn node_accessors() {
    let root = HuffmanNode::Internal(HuffmanInternalNode::new(
        7,
        HuffmanNode::Leaf(HuffmanLeafNode::new(3, b'p')),
        HuffmanNode::Leaf(HuffmanLeafNode::new(4, b'q')),
    ));
    assert!(!root.is_leaf());
    assert_eq!(root.weight(), 7);
    assert_eq!(root.value(), None);
    let left = root.left().unwrap();
    let right = root.right().unwrap();
    assert!(left.is_leaf());
    assert_eq!(left.value(), Some(b'p'));
    assert_eq!(right.value(), Some(b'q'));
    assert_eq!(right.weight(), 4);
    assert!(left.left().is_none());
    assert!(right.right().is_none());
    if let HuffmanNode::Internal(internal) = &root {
        assert_eq!(internal.weight(), 7);
        assert_eq!(internal.left().weight(), 3);
        assert_eq!(internal.right().weight(), 4);
        assert!(!internal.base.is_leaf());
        assert_eq!(internal.base.weight(), 7);
    } else {
        panic!("root should be internal");
    }
}

#[test]
fn print_tree_outline() {
    let inner = HuffmanNode::Internal(HuffmanInternalNode::new(
        3,
        HuffmanNode::Leaf(HuffmanLeafNode::new(1, b'c')),
        HuffmanNode::Leaf(HuffmanLeafNode::new(2, b'b')),
    ));
    let root = HuffmanNode::Internal(HuffmanInternalNode::new(
        6,
        HuffmanNode::Leaf(HuffmanLeafNode::new(3, b'a')),
        inner,
    ));
    assert_eq!(
        root.print_tree(),
        "Internal Node\n  Leaf: a\n  Internal Node\n    Leaf: c\n    Leaf: b\n"
    );
    let leaf = HuffmanNode::Leaf(HuffmanLeafNode::new(1, b'z'));
    assert_eq!(leaf.print_tree(), "Leaf: z\n");
}

#[test]
fn debug_text_outline() {
    let inner = HuffmanNode::Internal(HuffmanInternalNode::new(
        3,
        HuffmanNode::Leaf(HuffmanLeafNode::new(1, b'c')),
        HuffmanNode::Leaf(HuffmanLeafNode::new(2, b'b')),
    ));
    let root = HuffmanNode::Internal(HuffmanInternalNode::new(
        1236,
        HuffmanNode::Leaf(HuffmanLeafNode::new(1233, b'a')),
        inner,
    ));
    assert_eq!(
        root.debug_text(),
        "Internal(1236, left: Leaf(a : 1233), right: Internal(3, left: Leaf(c : 1), right: Leaf(b : 2)))"
    );
    let negative = HuffmanNode::Leaf(HuffmanLeafNode::new(-12, b'q'));
    assert_eq!(negative.debug_text(), "Leaf(q : -12)");
    let lowest = HuffmanNode::Leaf(HuffmanLeafNode::new(i32::MIN, b'0'));
    assert_eq!(lowest.debug_text(), "Leaf(0 : -2147483648)");
    let zero = HuffmanNode::Leaf(HuffmanLeafNode::new(0, b'z'));
    assert_eq!(zero.debug_text(), "Leaf(z : 0)");
}

#[test]
fn single_leaf_code_keeps_other_entries() {
    let leaf = HuffmanNode::Leaf(HuffmanLeafNode::new(9, b'k'));
    let mut codes = HashMap::new();
    codes.insert(b'j', "10".to_string());
    codes.insert(b'k', "".to_string());
    leaf.generate_prefix_codes(&mut codes);
    assert_eq!(codes.len(), 2);
    assert_eq!(codes[&b'k'], "0");
    assert_eq!(codes[&b'j'], "10");
}

#[test]
fn is_leaf_follows_the_variant() {
    let odd_leaf = HuffmanNode::Leaf(HuffmanLeafNode {
        base: HuffmanBaseNode { is_leaf: false, weight: 1 },
        element: b'a',
    });
    assert!(odd_leaf.is_leaf());
    assert_eq!(odd_leaf.value(), Some(b'a'));
    assert!(odd_leaf.left().is_none());
}
