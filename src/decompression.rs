//! Decompression: read the header, rebuild the tree, unpack the bits and walk
//! the tree once per symbol.

use vstd::prelude::*;
use crate::bits::{bits_of, unpack_bits};
use crate::error::HuffmanError;
use crate::frequency::{FrequencyTable, is_valid_table, table_total};
use crate::header::{deserialize_header, parse_header};
use crate::huffman::HuffmanNode;
use crate::bits::{padding_for, zero_bits};
use crate::code::{code_map, encoded_bits, leaf_at, lemma_code_map};
use crate::compression::{is_compressed_form, lemma_nonempty_table, payload_bits};
use crate::frequency::{frequency_table, lemma_frequency_table, table_symbols};
use crate::header::{header_bytes, lemma_header_round_trip};
use crate::tree::{build_tree, huffman_tree, lemma_huffman_tree};

verus! {

/// Walking down from `node`, reading the bits from position `i` on: the symbol
/// of the leaf reached and the position after the last bit read; `None` where
/// the bits run out first.
pub open spec fn descend(node: HuffmanNode, bits: Seq<bool>, i: int) -> Option<(u8, int)>
    decreases node,
{
    match node {
        HuffmanNode::Leaf(leaf) => Some((leaf.element, i)),
        HuffmanNode::Internal(internal) => if i < 0 || i >= bits.len() {
            None
        } else if bits[i] {
            descend(*internal.right, bits, i + 1)
        } else {
            descend(*internal.left, bits, i + 1)
        },
    }
}

/// The symbol that starts at position `i`, and the position after it. A tree
/// that is a single leaf reads one bit per symbol, whatever its value.
pub open spec fn next_symbol(root: HuffmanNode, bits: Seq<bool>, i: int) -> Option<(u8, int)> {
    match root {
        HuffmanNode::Leaf(leaf) => if 0 <= i < bits.len() {
            Some((leaf.element, i + 1))
        } else {
            None
        },
        HuffmanNode::Internal(_) => descend(root, bits, i),
    }
}

/// The symbols that the bits from position `i` on decode to; `None` where
/// the walk ends inside the tree or meets a bit that leads nowhere.
pub open spec fn decode_from(root: HuffmanNode, bits: Seq<bool>, i: int) -> Option<Seq<u8>>
    decreases bits.len() - i,
{
    if i >= bits.len() {
        Some(seq![])
    } else {
        match next_symbol(root, bits, i) {
            Some((s, j)) => if i < j <= bits.len() {
                match decode_from(root, bits, j) {
                    Some(rest) => Some(seq![s] + rest),
                    None => None,
                }
            } else {
                None
            },
            None => None,
        }
    }
}

/// The bytes that compressed data `d` stands for, or `None` where `d` is
/// malformed: a truncated or invalid header (a symbol named twice, a count
/// above `i32::MAX`), a missing or out-of-range padding
/// count, bits that do not decode, or a number of symbols other than the
/// header's total.
pub open spec fn decompressed(d: Seq<u8>) -> Option<Seq<u8>> {
    match parse_header(d) {
        None => None,
        Some((t, used)) => {
            let payload = d.skip(used as int);
            if table_total(t) > i32::MAX || payload.len() == 0 || payload[0] > 7 || payload[0] > 8
                * (payload.len() - 1) {
                None
            } else {
                let all = bits_of(payload.skip(1));
                let bits = all.subrange(0, all.len() - payload[0]);
                if t.len() == 0 {
                    if bits.len() == 0 {
                        Some(seq![])
                    } else {
                        None
                    }
                } else {
                    match decode_from(huffman_tree(t), bits, 0) {
                        Some(out) => if out.len() == table_total(t) {
                            Some(out)
                        } else {
                            None
                        },
                        None => None,
                    }
                }
            }
        },
    }
}

proof fn lemma_descend_range(node: HuffmanNode, bits: Seq<bool>, i: int)
    requires
        descend(node, bits, i) is Some,
    ensures
        i <= descend(node, bits, i).unwrap().1 <= bits.len() || (node is Leaf
            && descend(node, bits, i).unwrap().1 == i),
        node is Internal ==> i < descend(node, bits, i).unwrap().1 <= bits.len(),
    decreases node,
{
    if let HuffmanNode::Internal(internal) = node {
        if bits[i] {
            lemma_descend_range(*internal.right, bits, i + 1);
        } else {
            lemma_descend_range(*internal.left, bits, i + 1);
        }
    }
}

fn next_symbol_at(root: &HuffmanNode, bits: &Vec<bool>, i: usize) -> (r: Option<(u8, usize)>)
    requires
        i < bits@.len(),
    ensures
        match r {
            Some((s, j)) => next_symbol(*root, bits@, i as int) == Some((s, j as int)),
            None => next_symbol(*root, bits@, i as int) is None,
        },
{
    match root {
        HuffmanNode::Leaf(leaf) => {
            if i < bits.len() {
                Some((leaf.element, i + 1))
            } else {
                None
            }
        },
        HuffmanNode::Internal(_) => {
            let mut cur: &HuffmanNode = root;
            let mut k: usize = i;
            loop
                invariant
                    *root is Internal,
                    i <= k <= bits@.len(),
                    descend(*root, bits@, i as int) == descend(*cur, bits@, k as int),
                decreases bits@.len() - k,
            {
                match cur {
                    HuffmanNode::Leaf(leaf) => {
                        return Some((leaf.element, k));
                    },
                    HuffmanNode::Internal(internal) => {
                        if k >= bits.len() {
                            return None;
                        }
                        if bits[k] {
                            cur = &internal.right;
                        } else {
                            cur = &internal.left;
                        }
                        k = k + 1;
                    },
                }
            }
        },
    }
}

fn table_sum(t: &FrequencyTable) -> (r: u64)
    requires
        is_valid_table(t@),
    ensures
        r == table_total(t@),
{
    proof {
        crate::header::lemma_table_len(t@);
    }
    let mut sum: u64 = 0;
    let mut k: usize = 0;
    while k < t.entries.len()
        invariant
            k <= t@.len(),
            t@.len() <= 256,
            is_valid_table(t@),
            sum == table_total(t@.subrange(0, k as int)),
            sum <= k * 2147483647,
        decreases t@.len() - k,
    {
        let (_, count) = t.entries[k];
        proof {
            assert(t@.subrange(0, k + 1).drop_last() =~= t@.subrange(0, k as int));
            assert(count >= 0);
        }
        sum = sum + count as u64;
        k = k + 1;
    }
    assert(t@.subrange(0, t@.len() as int) =~= t@);
    sum
}

fn decode_symbols(root: &HuffmanNode, bits: &Vec<bool>) -> (r: Option<Vec<u8>>)
    ensures
        match r {
            Some(out) => decode_from(*root, bits@, 0) == Some(out@),
            None => decode_from(*root, bits@, 0) is None,
        },
{
    let mut out: Vec<u8> = Vec::new();
    let mut i: usize = 0;
    while i < bits.len()
        invariant
            i <= bits@.len(),
            decode_from(*root, bits@, 0) == match decode_from(*root, bits@, i as int) {
                Some(rest) => Some(out@ + rest),
                None => None,
            },
        decreases bits@.len() - i,
    {
        match next_symbol_at(root, bits, i) {
            Some((s, j)) => {
                proof {
                    if let HuffmanNode::Internal(_) = *root {
                        lemma_descend_range(*root, bits@, i as int);
                    }
                }
                let ghost before = out@;
                out.push(s);
                proof {
                    if let Some(rest) = decode_from(*root, bits@, j as int) {
                        assert(before + (seq![s] + rest) =~= out@ + rest);
                    }
                }
                i = j;
            },
            None => {
                return None;
            },
        }
    }
    assert(out@ + seq![] =~= out@);
    Some(out)
}

proof fn lemma_descend_path(node: HuffmanNode, q: Seq<bool>, bits: Seq<bool>, i: int)
    requires
        leaf_at(node, q) is Some,
        0 <= i,
        i + q.len() <= bits.len(),
        bits.subrange(i, i + q.len()) == q,
    ensures
        descend(node, bits, i) == Some((leaf_at(node, q).unwrap(), i + q.len())),
    decreases node,
{
    if let HuffmanNode::Internal(internal) = node {
        assert(bits[i] == q[0]);
        assert(bits.subrange(i + 1, i + q.len()) =~= q.drop_first());
        if q[0] {
            lemma_descend_path(*internal.right, q.drop_first(), bits, i + 1);
        } else {
            lemma_descend_path(*internal.left, q.drop_first(), bits, i + 1);
        }
    }
}

proof fn lemma_encoded_bits_front(s: Seq<u8>, codes: Map<u8, Seq<bool>>)
    requires
        s.len() > 0,
        codes.contains_key(s[0]),
    ensures
        encoded_bits(s, codes) == codes[s[0]] + encoded_bits(s.drop_first(), codes),
    decreases s.len(),
{
    if s.len() == 1 {
        assert(encoded_bits(s.drop_last(), codes) == Seq::<bool>::empty());
        assert(encoded_bits(s.drop_first(), codes) == Seq::<bool>::empty());
        assert(s.last() == s[0]);
        assert(encoded_bits(s, codes) =~= codes[s[0]] + encoded_bits(s.drop_first(), codes));
    } else {
        assert(s.drop_last()[0] == s[0]);
        lemma_encoded_bits_front(s.drop_last(), codes);
        assert(s.drop_last().drop_first() =~= s.drop_first().drop_last());
        assert(s.drop_first().last() == s.last());
        let tail = if codes.contains_key(s.last()) {
            codes[s.last()]
        } else {
            seq![]
        };
        assert(encoded_bits(s, codes) == encoded_bits(s.drop_last(), codes) + tail);
        assert(encoded_bits(s.drop_first(), codes) == encoded_bits(s.drop_first().drop_last(), codes)
            + tail);
        assert(encoded_bits(s, codes) =~= codes[s[0]] + encoded_bits(s.drop_first(), codes));
    }
}

/// Decoding the codewords of `s`, placed after any bits `pre`, gives back `s`.
proof fn lemma_decode_encoded(root: HuffmanNode, s: Seq<u8>, pre: Seq<bool>)
    requires
        forall|k: int| 0 <= k < s.len() ==> code_map(root).contains_key(#[trigger] s[k]),
    ensures
        decode_from(root, pre + encoded_bits(s, code_map(root)), pre.len() as int) == Some(s),
    decreases s.len(),
{
    let cm = code_map(root);
    let bits = pre + encoded_bits(s, cm);
    let i = pre.len() as int;
    lemma_code_map(root);
    if s.len() == 0 {
        assert(bits =~= pre);
        assert(s =~= seq![]);
    } else {
        let c = cm[s[0]];
        lemma_encoded_bits_front(s, cm);
        let rest = s.drop_first();
        let pre2 = pre + c;
        assert(bits =~= pre2 + encoded_bits(rest, cm));
        assert(bits.subrange(i, i + c.len()) =~= c);
        assert(forall|k: int| 0 <= k < rest.len() ==> rest[k] == s[k + 1]);
        lemma_decode_encoded(root, rest, pre2);
        match root {
            HuffmanNode::Leaf(leaf) => {
                assert(bits[i] == c[0]);
            },
            HuffmanNode::Internal(_) => {
                lemma_descend_path(root, c, bits, i);
            },
        }
        assert(next_symbol(root, bits, i) == Some((s[0], i + c.len())));
        assert(seq![s[0]] + rest =~= s);
    }
}

/// Decompressing the compressed form of any input gives back that input.
/// (The input's length must fit the header's 32-bit signed counts.)
pub proof fn lemma_round_trip(input: Seq<u8>, out: Seq<u8>)
    requires
        input.len() <= i32::MAX,
        is_compressed_form(input, out),
    ensures
        decompressed(out) == Some(input),
{
    let t = frequency_table(input);
    lemma_frequency_table(input);
    let h = header_bytes(t);
    let rest = out.skip(h.len() as int);
    assert(out =~= h + rest);
    lemma_header_round_trip(t, rest);
    let bits = payload_bits(input);
    let pad = padding_for(bits.len());
    assert(rest.skip(1) =~= out.skip(h.len() as int + 1));
    let all = bits_of(rest.skip(1));
    assert(all.len() == 8 * (rest.len() - 1));
    assert(all.subrange(0, all.len() - pad) =~= bits);
    if input.len() == 0 {
        if t.len() > 0 {
            assert(table_symbols(t).contains(t[0].0));
        }
        assert(input =~= seq![]);
    } else {
        lemma_nonempty_table(input);
        let tree = huffman_tree(t);
        lemma_huffman_tree(t);
        lemma_code_map(tree);
        assert forall|k: int| 0 <= k < input.len() implies code_map(tree).contains_key(
            #[trigger] input[k],
        ) by {
            crate::frequency::lemma_occurrences_positive(input, input[k]);
        }
        lemma_decode_encoded(tree, input, seq![]);
        assert(Seq::<bool>::empty() + bits =~= bits);
    }
}

proof fn lemma_descend_short(node: HuffmanNode, q: Seq<bool>, bits: Seq<bool>, i: int)
    requires
        leaf_at(node, q) is Some,
        0 <= i <= bits.len(),
        bits.len() - i < q.len(),
        bits.subrange(i, bits.len() as int) == q.subrange(0, bits.len() - i),
    ensures
        descend(node, bits, i) is None,
    decreases node,
{
    if let HuffmanNode::Internal(internal) = node {
        if i < bits.len() {
            assert(bits[i] == bits.subrange(i, bits.len() as int)[0]);
            assert(bits[i] == q[0]);
            let q2 = q.drop_first();
            assert forall|k: int| 0 <= k < bits.len() - (i + 1) implies bits[i + 1 + k] == q2[k] by {
                assert(bits.subrange(i, bits.len() as int)[k + 1] == q.subrange(
                    0,
                    bits.len() - i,
                )[k + 1]);
                assert(q2[k] == q[k + 1]);
                assert(bits.subrange(i, bits.len() as int)[k + 1] == bits[i + 1 + k]);
            }
            assert(bits.subrange(i + 1, bits.len() as int) =~= q2.subrange(0, bits.len() - (i + 1)));
            if q[0] {
                lemma_descend_short(*internal.right, q2, bits, i + 1);
            } else {
                lemma_descend_short(*internal.left, q2, bits, i + 1);
            }
        }
    }
}

/// Decoding all but the tail of the codewords of `s`, placed after `pre`,
/// fails or yields fewer symbols than `s` has.
proof fn lemma_decode_truncated(root: HuffmanNode, s: Seq<u8>, pre: Seq<bool>, n: int)
    requires
        forall|k: int| 0 <= k < s.len() ==> code_map(root).contains_key(#[trigger] s[k]),
        pre.len() <= n < (pre + encoded_bits(s, code_map(root))).len(),
    ensures
        match decode_from(
            root,
            (pre + encoded_bits(s, code_map(root))).subrange(0, n),
            pre.len() as int,
        ) {
            Some(o) => o.len() < s.len(),
            None => true,
        },
    decreases s.len(),
{
    let cm = code_map(root);
    let e = pre + encoded_bits(s, cm);
    let t = e.subrange(0, n);
    let i = pre.len() as int;
    lemma_code_map(root);
    if s.len() == 0 {
        assert(e =~= pre);
    } else if n > i {
        let c = cm[s[0]];
        lemma_encoded_bits_front(s, cm);
        let rest = s.drop_first();
        let pre2 = pre + c;
        let j = i + c.len();
        assert(e =~= pre2 + encoded_bits(rest, cm));
        if n < j {
            if let HuffmanNode::Internal(_) = root {
                assert(t.subrange(i, t.len() as int) =~= c.subrange(0, t.len() - i));
                lemma_descend_short(root, c, t, i);
            }
        } else {
            assert(t.subrange(i, j) =~= c);
            match root {
                HuffmanNode::Leaf(_) => {
                    assert(t[i] == c[0]);
                },
                HuffmanNode::Internal(_) => {
                    lemma_descend_path(root, c, t, i);
                },
            }
            assert(next_symbol(root, t, i) == Some((s[0], j)));
            assert(forall|k: int| 0 <= k < rest.len() ==> rest[k] == s[k + 1]);
            lemma_decode_truncated(root, rest, pre2, n);
        }
    }
}

/// Dropping the last byte of the compressed form of any input makes it
/// malformed: decompression reports an error rather than a wrong answer.
pub proof fn lemma_truncated_rejected(input: Seq<u8>, out: Seq<u8>)
    requires
        input.len() <= i32::MAX,
        is_compressed_form(input, out),
    ensures
        decompressed(out.drop_last()) is None,
{
    let t = frequency_table(input);
    lemma_frequency_table(input);
    let h = header_bytes(t);
    let d = out.drop_last();
    let rest = out.skip(h.len() as int);
    assert(d =~= h + rest.drop_last());
    lemma_header_round_trip(t, rest.drop_last());
    let payload = d.skip(h.len() as int);
    assert(payload =~= rest.drop_last());
    let body = out.skip(h.len() as int + 1);
    let bits = payload_bits(input);
    let pad = padding_for(bits.len());
    let m = body.len();
    assert(bits_of(body).len() == 8 * m);
    assert((bits + zero_bits(pad)).len() == bits.len() + pad);
    assert(8 * m == bits.len() + pad);
    if payload.len() > 0 && pad <= 8 * (m - 1) {
        assert(payload[0] == pad);
        let body2 = payload.skip(1);
        assert(body2 =~= body.drop_last());
        let all = bits_of(body2);
        let cut = all.subrange(0, all.len() - pad);
        let n = bits.len() - 8;
        assert(cut =~= bits.subrange(0, n)) by {
            assert forall|p: int| 0 <= p < n implies cut[p] == bits[p] by {
                assert(bits_of(body)[p] == (bits + zero_bits(pad))[p]);
            }
        }
        if input.len() == 0 {
            assert(bits.len() == 0);
        } else {
            lemma_nonempty_table(input);
            let tree = huffman_tree(t);
            lemma_huffman_tree(t);
            lemma_code_map(tree);
            assert forall|k: int| 0 <= k < input.len() implies code_map(tree).contains_key(
                #[trigger] input[k],
            ) by {
                crate::frequency::lemma_occurrences_positive(input, input[k]);
            }
            assert(Seq::<bool>::empty() + bits =~= bits);
            lemma_decode_truncated(tree, input, seq![], n);
        }
    }
}

/// The decoder rebuilds the encoder's tree: the table read back from the
/// header of a valid table `t`, whatever follows the header, is `t` itself, so
/// its tree and its codeword for every symbol are those of `t`.
pub proof fn lemma_rebuilt_tree(t: Seq<(u8, i32)>, rest: Seq<u8>)
    requires
        is_valid_table(t),
    ensures
        parse_header(header_bytes(t) + rest) matches Some((read, _)) && huffman_tree(read)
            == huffman_tree(t) && code_map(huffman_tree(read)) == code_map(huffman_tree(t)),
{
    lemma_header_round_trip(t, rest);
}

/// A decompression session.
#[derive(Debug)]
pub struct DecompressionTool {}

impl DecompressionTool {
    pub fn new() -> (r: Self) {
        DecompressionTool {  }
    }

    /// The bytes that the compressed data `data` stands for; `Format` when
    /// `data` is malformed.
    pub fn decompress(&self, data: &[u8]) -> (r: Result<Vec<u8>, HuffmanError>)
        ensures
            match r {
                Ok(out) => decompressed(data@) == Some(out@),
                Err(e) => e == HuffmanError::Format && decompressed(data@) is None,
            },
    {
        let (table, used) = match deserialize_header(data) {
            Ok(parsed) => parsed,
            Err(e) => {
                return Err(e);
            },
        };
        proof {
            crate::header::lemma_parsed_table_valid(data@);
        }
        let total = table_sum(&table);
        if total > 2147483647u64 {
            return Err(HuffmanError::Format);
        }
        let payload = &data[used..data.len()];
        assert(payload@ == data@.skip(used as int));
        if payload.len() == 0 {
            return Err(HuffmanError::Format);
        }
        let pad = payload[0];
        if pad > 7 || (payload.len() == 1 && pad > 0) {
            return Err(HuffmanError::Format);
        }
        let body = &payload[1..payload.len()];
        assert(body@ == payload@.skip(1));
        let mut bits = unpack_bits(body);
        let keep = bits.len() - pad as usize;
        bits.truncate(keep);
        let ghost all = bits_of(body@);
        assert(bits@ == all.subrange(0, all.len() - pad));
        match build_tree(&table) {
            None => {
                if bits.len() == 0 {
                    Ok(Vec::new())
                } else {
                    Err(HuffmanError::Format)
                }
            },
            Some(tree) => {
                match decode_symbols(&tree, &bits) {
                    Some(out) => {
                        if out.len() as u64 == total {
                            Ok(out)
                        } else {
                            Err(HuffmanError::Format)
                        }
                    },
                    None => Err(HuffmanError::Format),
                }
            },
        }
    }
}

} // verus!
