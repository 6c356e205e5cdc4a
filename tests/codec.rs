use compression_tool::bits::{pack_bits, unpack_bits};
use compression_tool::code::{build_code_table, encode_symbols};
use compression_tool::compression::{compress_bytes, CompressionTool};
use compression_tool::decompression::DecompressionTool;
use compression_tool::error::HuffmanError;
use compression_tool::frequency::{count_frequencies, FrequencyTable};
use compression_tool::header::{deserialize_header, serialize_header};
use compression_tool::huffman::HuffmanNode;
use compression_tool::tree::build_tree;

fn round_trip(input: &[u8]) -> Vec<u8> {
    let compressed = compress_bytes(input);
    DecompressionTool::new().decompress(&compressed).unwrap()
}

fn pseudo_random_bytes(n: usize, seed: u64) -> Vec<u8> {
    let mut state = seed;
    let mut out = Vec::new();
    for _ in 0..n {
        state = state.wrapping_mul(6364136223846793005).wrapping_add(1442695040888963407);
        out.push((state >> 56) as u8);
    }
    out
}

fn count_internal(node: &HuffmanNode) -> usize {
    match node {
        HuffmanNode::Leaf(_) => 0,
        HuffmanNode::Internal(internal) => {
            1 + count_internal(internal.left()) + count_internal(internal.right())
        }
    }
}

fn leaf_weight_sum(node: &HuffmanNode) -> i64 {
    match node {
        HuffmanNode::Leaf(leaf) => leaf.weight() as i64,
        HuffmanNode::Internal(internal) => {
            leaf_weight_sum(internal.left()) + leaf_weight_sum(internal.right())
        }
    }
}

const ABACAB_HEADER: [u8; 20] = [
    3, 0, 0, 0, b'a', 3, 0, 0, 0, b'b', 2, 0, 0, 0, b'c', 1, 0, 0, 0, 0,
];

#[test]
fn round_trip_empty_input() {
    let compressed = compress_bytes(&[]);
    assert_eq!(compressed, vec![0, 0, 0, 0, 0, 0]);
    assert_eq!(round_trip(&[]), Vec::<u8>::new());
}

#[test]
fn round_trip_random_ten_thousand_bytes() {
    let input = pseudo_random_bytes(10_000, 42);
    assert_eq!(round_trip(&input), input);
}

#[test]
fn round_trip_skewed_and_all_byte_values() {
    let mut input: Vec<u8> = (0..=255u8).collect();
    for k in 0..3000usize {
        input.push(if k % 7 == 0 { 200 } else { (k % 3) as u8 });
    }
    assert_eq!(round_trip(&input), input);
    let text = b"this is an example of huffman compression".to_vec();
    assert_eq!(round_trip(&text), text);
}

#[test]
fn abacab_scenario() {
    let input = b"abacab";
    let table = count_frequencies(input);
    assert_eq!(table.entries, vec![(b'a', 3), (b'b', 2), (b'c', 1)]);
    let tree = build_tree(&table).unwrap();
    assert_eq!(count_internal(&tree), 2);
    assert_eq!(round_trip(input), input.to_vec());
}

#[test]
fn abacab_exact_encoding() {
    // codewords: a = 0, c = 10, b = 11; bits 011010011 then seven zero bits
    let compressed = compress_bytes(b"abacab");
    let mut expected = ABACAB_HEADER.to_vec();
    expected.extend_from_slice(&[7, 0x69, 0x80]);
    assert_eq!(compressed, expected);
    assert_eq!(CompressionTool::new("abacab").encode(), expected);
}

#[test]
fn single_symbol_scenario() {
    let input = b"aaaa";
    let table = count_frequencies(input);
    assert_eq!(table.entries, vec![(b'a', 4)]);
    let tree = build_tree(&table).unwrap();
    assert!(tree.is_leaf());
    let codes = build_code_table(&tree);
    for b in 0..256usize {
        if b == b'a' as usize {
            assert_eq!(codes.codes[b], vec![false]);
        } else {
            assert!(codes.codes[b].is_empty());
        }
    }
    let compressed = compress_bytes(input);
    assert_eq!(compressed, vec![1, 0, 0, 0, b'a', 4, 0, 0, 0, 0, 4, 0x00]);
    assert_eq!(round_trip(input), input.to_vec());
}

#[test]
fn truncated_payload_is_a_format_error() {
    let inputs: Vec<Vec<u8>> = vec![
        b"abacab".to_vec(),
        b"aaaa".to_vec(),
        b"this is an example of huffman compression".to_vec(),
        pseudo_random_bytes(1000, 7),
        vec![],
    ];
    for input in inputs {
        let mut compressed = compress_bytes(&input);
        compressed.pop();
        assert_eq!(
            DecompressionTool::new().decompress(&compressed),
            Err(HuffmanError::Format)
        );
    }
}

#[test]
fn malformed_data_is_a_format_error() {
    let tool = DecompressionTool::new();
    // too short for a count
    assert_eq!(tool.decompress(&[1, 0]), Err(HuffmanError::Format));
    // declares two pairs, holds one
    assert_eq!(tool.decompress(&[2, 0, 0, 0, b'a', 1, 0, 0, 0]), Err(HuffmanError::Format));
    // a symbol named twice
    assert_eq!(
        tool.decompress(&[2, 0, 0, 0, b'a', 1, 0, 0, 0, b'a', 1, 0, 0, 0, 0, 6, 0x40]),
        Err(HuffmanError::Format)
    );
    // symbols out of order are read back in ascending order: a = 0, b = 1
    assert_eq!(
        tool.decompress(&[2, 0, 0, 0, b'b', 1, 0, 0, 0, b'a', 1, 0, 0, 0, 0, 6, 0x40]),
        Ok(b"ab".to_vec())
    );
    // padding count above seven
    let mut bad = ABACAB_HEADER.to_vec();
    bad.extend_from_slice(&[8, 0x69, 0x80]);
    assert_eq!(tool.decompress(&bad), Err(HuffmanError::Format));
    // walk ends inside the tree: bits 01 then padding
    let mut mid = ABACAB_HEADER.to_vec();
    mid.extend_from_slice(&[6, 0x40]);
    assert_eq!(tool.decompress(&mid), Err(HuffmanError::Format));
    // a single-leaf tree reads a one bit as its symbol too
    assert_eq!(
        tool.decompress(&[1, 0, 0, 0, b'a', 1, 0, 0, 0, 0, 7, 0x80]),
        Ok(vec![b'a'])
    );
    // ... but the symbol count must still match the header
    assert_eq!(
        tool.decompress(&[1, 0, 0, 0, b'a', 1, 0, 0, 0, 0, 6, 0x40]),
        Err(HuffmanError::Format)
    );
    // empty table with payload bits
    assert_eq!(tool.decompress(&[0, 0, 0, 0, 0, 0, 0xff]), Err(HuffmanError::Format));
    // missing padding byte
    assert_eq!(tool.decompress(&[0, 0, 0, 0, 0]), Err(HuffmanError::Format));
}

#[test]
fn empty_input_has_no_tree() {
    let mut tool = CompressionTool::new("");
    assert_eq!(tool.compress().unwrap_err(), HuffmanError::EmptyInput);
    let empty = FrequencyTable { entries: vec![] };
    assert!(build_tree(&empty).is_none());
}

#[test]
fn weights_sum_to_input_length() {
    let input = pseudo_random_bytes(5000, 3);
    let table = count_frequencies(&input);
    let tree = build_tree(&table).unwrap();
    assert_eq!(leaf_weight_sum(&tree), 5000);
    assert_eq!(tree.weight(), 5000);
}

#[test]
fn codewords_are_prefix_free() {
    let input = b"this is an example of huffman compression";
    let tree = build_tree(&count_frequencies(input)).unwrap();
    let codes = build_code_table(&tree);
    let present: Vec<&Vec<bool>> = codes.codes.iter().filter(|c| !c.is_empty()).collect();
    assert_eq!(present.len(), 17);
    for (i, a) in present.iter().enumerate() {
        for (j, b) in present.iter().enumerate() {
            if i != j {
                assert!(!(a.len() <= b.len() && b[..a.len()] == a[..]));
            }
        }
    }
}

#[test]
fn building_twice_gives_the_same_codes() {
    let input = pseudo_random_bytes(2000, 11);
    let table = count_frequencies(&input);
    let first = build_code_table(&build_tree(&table).unwrap());
    let second = build_code_table(&build_tree(&table).unwrap());
    assert_eq!(first.codes, second.codes);
    // ties: four symbols of equal weight
    let even = FrequencyTable { entries: vec![(1, 2), (2, 2), (3, 2), (4, 2)] };
    let codes = build_code_table(&build_tree(&even).unwrap());
    assert_eq!(codes.codes[1], vec![false, false]);
    assert_eq!(codes.codes[2], vec![false, true]);
    assert_eq!(codes.codes[3], vec![true, false]);
    assert_eq!(codes.codes[4], vec![true, true]);
}

#[test]
fn header_round_trip() {
    let table = FrequencyTable { entries: vec![(0, 0), (7, 1), (200, 2147483647), (255, 65536)] };
    let bytes = serialize_header(&table);
    assert_eq!(bytes.len(), 4 + 5 * 4 + 1);
    assert_eq!(&bytes[0..4], &[4, 0, 0, 0]);
    assert_eq!(&bytes[14..19], &[200, 0xff, 0xff, 0xff, 0x7f]);
    assert_eq!(&bytes[19..24], &[255, 0, 0, 1, 0]);
    let mut with_rest = bytes.clone();
    with_rest.extend_from_slice(&[9, 9]);
    let (read, used) = deserialize_header(&with_rest).unwrap();
    assert_eq!(read.entries, table.entries);
    assert_eq!(used, bytes.len());
    // pairs in any order come back sorted by symbol
    let unordered = [3, 0, 0, 0, 9, 4, 0, 0, 0, 2, 5, 0, 0, 0, 7, 6, 0, 0, 0, 0];
    let (sorted, used) = deserialize_header(&unordered).unwrap();
    assert_eq!(sorted.entries, vec![(2, 5), (7, 6), (9, 4)]);
    assert_eq!(used, 20);
    // a count above i32::MAX is refused
    let too_big = [1, 0, 0, 0, 5, 0, 0, 0, 0x80, 0];
    assert_eq!(deserialize_header(&too_big).unwrap_err(), HuffmanError::Format);
    // a missing terminator is refused
    assert_eq!(deserialize_header(&[1, 0, 0, 0, 5, 1, 0, 0, 0]).unwrap_err(), HuffmanError::Format);
}

#[test]
fn bit_packing_is_msb_first() {
    let bits = vec![true, false, false, false, false, false, false, true, false, true, true, false, true, false, false, true];
    let bytes = pack_bits(&bits);
    assert_eq!(bytes, vec![0x81, 0x69]);
    assert_eq!(unpack_bits(&bytes), bits);
    assert_eq!(unpack_bits(&[0xa5]), vec![true, false, true, false, false, true, false, true]);
}

#[test]
fn encode_symbols_concatenates_codewords() {
    let tree = build_tree(&count_frequencies(b"abacab")).unwrap();
    let codes = build_code_table(&tree);
    let bits = encode_symbols(b"cab", &codes);
    assert_eq!(bits, vec![true, false, false, true, true]);
}
