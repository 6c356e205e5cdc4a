use compression_tool::compression::CompressionTool;
use compression_tool::huffman::HuffmanNode;

// Helper function to extract the leaf nodes from the Huffman tree for validation
fn extract_leaves(node: &HuffmanNode, leaves: &mut Vec<(u8, i32)>) {
    match node {
        HuffmanNode::Leaf(leaf) => {
            leaves.push((leaf.value(), leaf.weight()));
        }
        HuffmanNode::Internal(internal) => {
            extract_leaves(&internal.left(), leaves);
            extract_leaves(&internal.right(), leaves);
        }
    }
}

// Test for a simple input string
#[test]
fn test_huffman_tree_structure() {
    let input = "abacab";
    let mut tool = CompressionTool::new(input);

    // Compress the input to get the Huffman tree root
    let root = tool.compress().expect("Compression failed");

    // Extract all leaf nodes and their frequencies
    let mut leaves = Vec::new();
    extract_leaves(&root, &mut leaves);

    // The expected frequencies for "a" and "b" in the string "abacab"
    let expected_frequencies = vec![(b'a', 3), (b'b', 2), (b'c', 1)];

    // Sort both vectors so we can compare them
    leaves.sort_by(|a, b| a.0.cmp(&b.0));
    let mut expected_frequencies = expected_frequencies;
    expected_frequencies.sort_by(|a, b| a.0.cmp(&b.0));

    assert_eq!(leaves, expected_frequencies);
}

// Test for a case with a more complex string
#[test]
fn test_complex_huffman_tree() {
    let input = "this is an example of huffman compression";
    let mut tool = CompressionTool::new(input);

    let root = tool.compress().expect("Compression failed");

    let mut leaves = Vec::new();
    extract_leaves(&root, &mut leaves);

    let expected_frequencies = vec![
        (b' ', 6), (b'a', 3), (b'e', 3), (b's', 4), (b'i', 3),
        (b'n', 3), (b't', 1), (b'h', 2), (b'm', 3), (b'o', 3),
        (b'f', 3), (b'l', 1), (b'x', 1), (b'p', 2), (b'c', 1),
        (b'r', 1), (b'u', 1),
    ];

    leaves.sort_by(|a, b| a.0.cmp(&b.0));
    let mut expected_frequencies = expected_frequencies;
    expected_frequencies.sort_by(|a, b| a.0.cmp(&b.0));

    assert_eq!(leaves, expected_frequencies);
}

// Test to check if the tree is properly built
#[test]
fn test_tree_structure() {
    let input = "aaabbbcc";
    let mut tool = CompressionTool::new(input);

    let root = tool.compress().expect("Compression failed");

    // We should have a tree with only two internal nodes (since we only have three distinct characters)
    let internal_count = count_internal_nodes(&root);
    assert_eq!(internal_count, 2, "The tree should have 2 internal nodes");

    // Also check the total weight of the tree (should be equal to the sum of character frequencies)
    let total_weight = sum_weights(&root);
    assert_eq!(total_weight, input.len() as i32, "The total weight should be equal to the length of the input string");
}

// Helper function to count the number of internal nodes
fn count_internal_nodes(node: &HuffmanNode) -> i32 {
    match node {
        HuffmanNode::Leaf(_) => 0,
        HuffmanNode::Internal(internal) => {
            1 + count_internal_nodes(&internal.left()) + count_internal_nodes(&internal.right())
        }
    }
}

// Helper function to sum the weights of all leaves
fn sum_weights(node: &HuffmanNode) -> i32 {
    match node {
        HuffmanNode::Leaf(leaf) => leaf.weight(),
        HuffmanNode::Internal(internal) => sum_weights(&internal.left()) + sum_weights(&internal.right()),
    }
}
