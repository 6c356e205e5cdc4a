//! Huffman compression of byte streams: frequency counting, deterministic tree
//! construction, prefix codes, a self-describing header and bit packing.

pub mod bits;
pub mod code;
pub mod compression;
pub mod decompression;
pub mod error;
pub mod flat_node;
pub mod frequency;
pub mod header;
pub mod huffman;
pub mod tree;
