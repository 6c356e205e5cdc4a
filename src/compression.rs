//! Compression: header, padding count, then the packed codeword bits.

use vstd::prelude::*;
use crate::bits::{bits_of, pack_bits, padding_for, zero_bits};
use crate::code::{build_code_table, code_map, encode_symbols, encoded_bits};
use crate::error::HuffmanError;
use crate::frequency::{
    count_frequencies,
    frequency_table,
    lemma_frequency_table,
    occurrences,
    table_symbols,
};
use crate::header::{header_bytes, serialize_header};
use crate::huffman::HuffmanNode;
use crate::tree::{build_tree, huffman_tree};
use vstd::string::StringSliceAdditionalSpecFns;

verus! {

/// The payload bits of `input`: the codewords of its symbols under the tree of
/// its frequency table; none for an empty input.
pub open spec fn payload_bits(input: Seq<u8>) -> Seq<bool> {
    if input.len() == 0 {
        seq![]
    } else {
        encoded_bits(input, code_map(huffman_tree(frequency_table(input))))
    }
}

/// `out` is the compressed form of `input`: the header of its frequency table,
/// one byte holding the number of padding bits, then bytes whose bits are the
/// payload bits followed by that many zero bits.
pub open spec fn is_compressed_form(input: Seq<u8>, out: Seq<u8>) -> bool {
    let h = header_bytes(frequency_table(input));
    let bits = payload_bits(input);
    let pad = padding_for(bits.len());
    &&& out.len() > h.len()
    &&& out.subrange(0, h.len() as int) == h
    &&& out[h.len() as int] == pad as u8
    &&& bits_of(out.skip(h.len() as int + 1)) == bits + zero_bits(pad)
}

/// An input has exactly one compressed form.
pub proof fn lemma_compressed_form_unique(input: Seq<u8>, a: Seq<u8>, b: Seq<u8>)
    requires
        is_compressed_form(input, a),
        is_compressed_form(input, b),
    ensures
        a == b,
{
    let h = header_bytes(frequency_table(input));
    crate::bits::lemma_bits_of_injective(a.skip(h.len() as int + 1), b.skip(h.len() as int + 1));
    assert(a =~= a.subrange(0, h.len() as int) + seq![a[h.len() as int]] + a.skip(h.len() as int + 1));
    assert(b =~= b.subrange(0, h.len() as int) + seq![b[h.len() as int]] + b.skip(h.len() as int + 1));
}

/// Compresses `input`.
pub fn compress_bytes(input: &[u8]) -> (r: Vec<u8>)
    requires
        input@.len() <= i32::MAX,
    ensures
        is_compressed_form(input@, r@),
{
    let table = count_frequencies(input);
    proof {
        lemma_frequency_table(input@);
        if input@.len() > 0 {
            lemma_nonempty_table(input@);
        }
    }
    let mut out = serialize_header(&table);
    let ghost h = out@;
    let mut bits: Vec<bool> = match build_tree(&table) {
        None => Vec::new(),
        Some(tree) => {
            let codes = build_code_table(&tree);
            encode_symbols(input, &codes)
        },
    };
    assert(bits@ == payload_bits(input@));
    let ghost payload = bits@;
    let pad: usize = (8 - bits.len() % 8) % 8;
    let mut k: usize = 0;
    while k < pad
        invariant
            k <= pad,
            pad < 8,
            bits@ == payload + zero_bits(k as nat),
        decreases pad - k,
    {
        bits.push(false);
        k = k + 1;
        assert(bits@ =~= payload + zero_bits(k as nat));
    }
    assert((payload.len() + padding_for(payload.len())) % 8 == 0);
    let body = pack_bits(&bits);
    out.push(pad as u8);
    let mut j: usize = 0;
    while j < body.len()
        invariant
            j <= body@.len(),
            out@ == h + seq![pad as u8] + body@.subrange(0, j as int),
        decreases body@.len() - j,
    {
        out.push(body[j]);
        j = j + 1;
        assert(out@ =~= h + seq![pad as u8] + body@.subrange(0, j as int));
    }
    assert(body@.subrange(0, body@.len() as int) =~= body@);
    assert(out@.subrange(0, h.len() as int) =~= h);
    assert(out@.skip(h.len() as int + 1) =~= body@);
    out
}

/// A non-empty input has a non-empty frequency table.
pub proof fn lemma_nonempty_table(s: Seq<u8>)
    requires
        s.len() > 0,
        s.len() <= i32::MAX,
    ensures
        frequency_table(s).len() > 0,
{
    lemma_frequency_table(s);
    crate::frequency::lemma_occurrences_positive(s, s[0]);
    assert(crate::frequency::table_symbols(frequency_table(s)).contains(s[0]));
}

/// The leaves of the tree built for a non-empty input weigh, together, as
/// many as the input has bytes; there is exactly one leaf per distinct byte
/// of the input, weighted by its number of occurrences, and no other leaf.
pub proof fn lemma_leaf_weights_total(input: Seq<u8>)
    requires
        0 < input.len() <= i32::MAX,
    ensures
        huffman_tree(frequency_table(input)).leaf_weight_sum() == input.len(),
        huffman_tree(frequency_table(input)).well_formed(),
        forall|e: (u8, i32)|
            #[trigger] huffman_tree(frequency_table(input)).leaf_entries().count(e) == if occurrences(
                input,
                e.0,
            ) > 0 && e.1 == occurrences(input, e.0) {
                1nat
            } else {
                0nat
            },
{
    let t = frequency_table(input);
    lemma_frequency_table(input);
    lemma_nonempty_table(input);
    crate::tree::lemma_huffman_tree(t);
    crate::tree::lemma_huffman_tree_leaves(t);
    assert forall|e: (u8, i32)| #[trigger]
        huffman_tree(t).leaf_entries().count(e) == if occurrences(input, e.0) > 0 && e.1
            == occurrences(input, e.0) {
            1nat
        } else {
            0nat
        } by {
        crate::tree::lemma_table_entries_count(t, e);
        if occurrences(input, e.0) > 0 && e.1 == occurrences(input, e.0) {
            assert(table_symbols(t).contains(e.0));
            let i = choose|i: int| 0 <= i < t.len() && t[i].0 == e.0;
            assert(t[i] == e);
        } else if exists|i: int| 0 <= i < t.len() && t[i] == e {
            let i = choose|i: int| 0 <= i < t.len() && t[i] == e;
            assert(t[i].1 == occurrences(input, t[i].0));
        }
    }
}

/// Inputs with the same frequency table get the same header and the same
/// codeword for every symbol: both depend on the table alone.
pub proof fn lemma_same_table_same_encoding(a: Seq<u8>, b: Seq<u8>)
    requires
        frequency_table(a) == frequency_table(b),
    ensures
        header_bytes(frequency_table(a)) == header_bytes(frequency_table(b)),
        code_map(huffman_tree(frequency_table(a))) == code_map(huffman_tree(frequency_table(b))),
{
}

/// A compression session over one input.
#[derive(Debug)]
pub struct CompressionTool {
    pub input: Vec<u8>,
}

impl CompressionTool {
    /// A session over the bytes of `input`.
    pub fn new(input: &str) -> (r: Self)
        ensures
            r.input@ == input.spec_bytes(),
    {
        CompressionTool { input: vstd::slice::slice_to_vec(input.as_bytes()) }
    }

    /// A session over `input`.
    pub fn from_bytes(input: Vec<u8>) -> (r: Self)
        ensures
            r.input == input,
    {
        CompressionTool { input }
    }

    /// The Huffman tree of the input; `EmptyInput` when there is no input.
    pub fn compress(&mut self) -> (r: Result<HuffmanNode, HuffmanError>)
        requires
            old(self).input@.len() <= i32::MAX,
        ensures
            *final(self) == *old(self),
            match r {
                Ok(t) => old(self).input@.len() > 0 && t == huffman_tree(
                    frequency_table(old(self).input@),
                ),
                Err(e) => e == HuffmanError::EmptyInput && old(self).input@.len() == 0,
            },
    {
        let table = count_frequencies(self.input.as_slice());
        proof {
            lemma_frequency_table(self.input@);
            if self.input@.len() > 0 {
                lemma_nonempty_table(self.input@);
            }
        }
        match build_tree(&table) {
            Some(tree) => Ok(tree),
            None => Err(HuffmanError::EmptyInput),
        }
    }

    /// The compressed form of the input.
    pub fn encode(&self) -> (r: Vec<u8>)
        requires
            self.input@.len() <= i32::MAX,
        ensures
            is_compressed_form(self.input@, r@),
    {
        compress_bytes(self.input.as_slice())
    }
}

} // verus!
