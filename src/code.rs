//! Codewords: the path from the root to each leaf, `false` for left and
//! `true` for right.

use vstd::prelude::*;
use crate::huffman::HuffmanNode;

verus! {

/// The codewords of the leaves of `t`, each `prefix` followed by the path from
/// `t` to the leaf. Where two leaves share a symbol the right-hand one counts.
pub open spec fn leaf_codes(t: HuffmanNode, prefix: Seq<bool>) -> Map<u8, Seq<bool>>
    decreases t,
{
    match t {
        HuffmanNode::Leaf(leaf) => map![leaf.element => prefix],
        HuffmanNode::Internal(internal) => leaf_codes(*internal.left, prefix.push(false)).union_prefer_right(
            leaf_codes(*internal.right, prefix.push(true)),
        ),
    }
}

/// The code table of a tree. A tree that is a single leaf gives its symbol the
/// one-bit codeword `0`, so that every symbol takes at least one bit.
pub open spec fn code_map(t: HuffmanNode) -> Map<u8, Seq<bool>> {
    match t {
        HuffmanNode::Leaf(leaf) => map![leaf.element => seq![false]],
        HuffmanNode::Internal(_) => leaf_codes(t, seq![]),
    }
}

/// The symbol of the leaf that `path` leads to from `t`; `None` where the
/// path stops at an internal node or runs past a leaf.
pub open spec fn leaf_at(t: HuffmanNode, path: Seq<bool>) -> Option<u8>
    decreases t,
{
    match t {
        HuffmanNode::Leaf(leaf) => if path.len() == 0 {
            Some(leaf.element)
        } else {
            None
        },
        HuffmanNode::Internal(internal) => if path.len() == 0 {
            None
        } else if path[0] {
            leaf_at(*internal.right, path.drop_first())
        } else {
            leaf_at(*internal.left, path.drop_first())
        },
    }
}

/// Whether `a` is a prefix of `b`.
pub open spec fn is_prefix(a: Seq<bool>, b: Seq<bool>) -> bool {
    a.len() <= b.len() && b.subrange(0, a.len() as int) == a
}

/// The codewords of `t` are for exactly its leaves' symbols.
pub proof fn lemma_leaf_codes_domain(t: HuffmanNode, prefix: Seq<bool>)
    ensures
        leaf_codes(t, prefix).dom() == t.leaf_symbols(),
    decreases t,
{
    if let HuffmanNode::Internal(internal) = t {
        lemma_leaf_codes_domain(*internal.left, prefix.push(false));
        lemma_leaf_codes_domain(*internal.right, prefix.push(true));
        assert(leaf_codes(t, prefix).dom() =~= t.leaf_symbols());
    } else {
        assert(leaf_codes(t, prefix).dom() =~= t.leaf_symbols());
    }
}

/// Each codeword of `t` is `prefix` followed by a path to a leaf of its symbol.
pub proof fn lemma_leaf_codes_reach(t: HuffmanNode, prefix: Seq<bool>, s: u8)
    requires
        leaf_codes(t, prefix).contains_key(s),
    ensures
        leaf_codes(t, prefix)[s].len() >= prefix.len(),
        leaf_codes(t, prefix)[s].subrange(0, prefix.len() as int) == prefix,
        leaf_at(t, leaf_codes(t, prefix)[s].skip(prefix.len() as int)) == Some(s),
    decreases t,
{
    match t {
        HuffmanNode::Leaf(leaf) => {
            assert(prefix.skip(prefix.len() as int) =~= seq![]);
            assert(prefix.subrange(0, prefix.len() as int) =~= prefix);
        },
        HuffmanNode::Internal(internal) => {
            let r = leaf_codes(*internal.right, prefix.push(true));
            let l = leaf_codes(*internal.left, prefix.push(false));
            let (child, bit) = if r.contains_key(s) {
                (*internal.right, true)
            } else {
                (*internal.left, false)
            };
            let p2 = prefix.push(bit);
            lemma_leaf_codes_reach(child, p2, s);
            let c = leaf_codes(t, prefix)[s];
            assert(c == leaf_codes(child, p2)[s]);
            assert(c.subrange(0, prefix.len() as int) =~= c.subrange(0, p2.len() as int).subrange(
                0,
                prefix.len() as int,
            ));
            assert(c[prefix.len() as int] == c.subrange(0, p2.len() as int)[prefix.len() as int]);
            let q = c.skip(prefix.len() as int);
            assert(q.drop_first() =~= c.skip(p2.len() as int));
            assert(q[0] == bit);
        },
    }
}

/// No path that leads to a leaf is a proper prefix of another that does.
pub proof fn lemma_leaf_paths_prefix_free(t: HuffmanNode, a: Seq<bool>, b: Seq<bool>)
    requires
        leaf_at(t, a) is Some,
        leaf_at(t, b) is Some,
        is_prefix(a, b),
    ensures
        a == b,
    decreases t,
{
    match t {
        HuffmanNode::Leaf(_) => {
            assert(a =~= b);
        },
        HuffmanNode::Internal(internal) => {
            assert(a[0] == b[0]);
            let child = if a[0] {
                *internal.right
            } else {
                *internal.left
            };
            assert(b.drop_first().subrange(0, a.drop_first().len() as int) =~= a.drop_first());
            lemma_leaf_paths_prefix_free(child, a.drop_first(), b.drop_first());
            assert(a =~= b);
        },
    }
}

/// The code table of any tree is prefix-free: the codeword of one symbol is
/// never a prefix of the codeword of another.
pub proof fn lemma_prefix_free(t: HuffmanNode, s1: u8, s2: u8)
    requires
        code_map(t).contains_key(s1),
        code_map(t).contains_key(s2),
        s1 != s2,
    ensures
        !is_prefix(code_map(t)[s1], code_map(t)[s2]),
{
    if let HuffmanNode::Internal(_) = t {
        let e = Seq::<bool>::empty();
        lemma_leaf_codes_reach(t, e, s1);
        lemma_leaf_codes_reach(t, e, s2);
        assert(code_map(t)[s1].skip(0) =~= code_map(t)[s1]);
        assert(code_map(t)[s2].skip(0) =~= code_map(t)[s2]);
        if is_prefix(code_map(t)[s1], code_map(t)[s2]) {
            lemma_leaf_paths_prefix_free(t, code_map(t)[s1], code_map(t)[s2]);
        }
    }
}

/// Every codeword of a tree has at least one bit and leads to a leaf of its
/// symbol (a single-leaf tree: the one bit `0`).
pub proof fn lemma_code_map(t: HuffmanNode)
    ensures
        code_map(t).dom() == t.leaf_symbols(),
        forall|s: u8|
            #[trigger] code_map(t).contains_key(s) ==> code_map(t)[s].len() >= 1 && (t is Internal
                ==> leaf_at(t, code_map(t)[s]) == Some(s)) && (t matches HuffmanNode::Leaf(leaf)
                ==> s == leaf.element && code_map(t)[s] == seq![false]),
{
    let e = Seq::<bool>::empty();
    lemma_leaf_codes_domain(t, e);
    if let HuffmanNode::Internal(_) = t {
        assert forall|s: u8| #[trigger] code_map(t).contains_key(s) implies code_map(t)[s].len()
            >= 1 && leaf_at(t, code_map(t)[s]) == Some(s) by {
            lemma_leaf_codes_reach(t, e, s);
            assert(code_map(t)[s].skip(0) =~= code_map(t)[s]);
        }
    } else {
        assert(code_map(t).dom() =~= t.leaf_symbols());
    }
}

/// A code table: the codeword of each byte value, empty for a symbol without one.
#[derive(Debug)]
pub struct CodeTable {
    pub codes: Vec<Vec<bool>>,
}

impl View for CodeTable {
    type V = Map<u8, Seq<bool>>;

    open spec fn view(&self) -> Map<u8, Seq<bool>> {
        Map::new(
            |b: u8| self.codes@[b as int]@.len() > 0,
            |b: u8| self.codes@[b as int]@,
        )
    }
}

/// `after` is `before` with the codeword of each symbol of `m` written in.
pub open spec fn codes_written(
    before: Seq<Vec<bool>>,
    after: Seq<Vec<bool>>,
    m: Map<u8, Seq<bool>>,
) -> bool {
    &&& after.len() == 256
    &&& forall|b: u8| #[trigger] m.contains_key(b) ==> after[b as int]@ == m[b]
    &&& forall|b: u8| !#[trigger] m.contains_key(b) ==> after[b as int] == before[b as int]
}

fn fill_codes(node: &HuffmanNode, prefix: Vec<bool>, codes: &mut Vec<Vec<bool>>)
    requires
        old(codes)@.len() == 256,
    ensures
        codes_written(old(codes)@, final(codes)@, leaf_codes(*node, prefix@)),
    decreases node,
{
    match node {
        HuffmanNode::Leaf(leaf) => {
            let ghost p = prefix@;
            codes.set(leaf.element as usize, prefix);
            assert(codes_written(old(codes)@, codes@, leaf_codes(*node, p))) by {
                assert forall|b: u8| #[trigger] leaf_codes(*node, p).contains_key(b) implies codes@[b as int]@
                    == leaf_codes(*node, p)[b] by {
                    assert(b == leaf.element);
                }
                assert forall|b: u8| !#[trigger] leaf_codes(*node, p).contains_key(b) implies codes@[b as int]
                    == old(codes)@[b as int] by {
                    assert(b != leaf.element);
                }
            }
        },
        HuffmanNode::Internal(internal) => {
            let mut left = prefix.clone();
            assert(left@ =~= prefix@);
            left.push(false);
            fill_codes(&internal.left, left, codes);
            let mut right = prefix;
            right.push(true);
            fill_codes(&internal.right, right, codes);
        },
    }
}

/// Derives the code table of `tree`.
pub fn build_code_table(tree: &HuffmanNode) -> (r: CodeTable)
    ensures
        r.codes@.len() == 256,
        r@ == code_map(*tree),
{
    let mut codes: Vec<Vec<bool>> = Vec::new();
    let mut k: usize = 0;
    while k < 256
        invariant
            k <= 256,
            codes@.len() == k,
            forall|i: int| 0 <= i < k ==> (#[trigger] codes@[i])@.len() == 0,
        decreases 256 - k,
    {
        codes.push(Vec::new());
        k = k + 1;
    }
    proof {
        lemma_code_map(*tree);
    }
    match tree {
        HuffmanNode::Leaf(leaf) => {
            let mut code: Vec<bool> = Vec::new();
            code.push(false);
            codes.set(leaf.element as usize, code);
            let r = CodeTable { codes };
            assert(r@ =~= code_map(*tree));
            r
        },
        HuffmanNode::Internal(_) => {
            fill_codes(tree, Vec::new(), &mut codes);
            let r = CodeTable { codes };
            assert(r@ =~= code_map(*tree));
            r
        },
    }
}

/// The bits of `s` under `codes`: the codewords of its symbols, in order;
/// a symbol without a codeword contributes nothing.
pub open spec fn encoded_bits(s: Seq<u8>, codes: Map<u8, Seq<bool>>) -> Seq<bool>
    decreases s.len(),
{
    if s.len() == 0 {
        seq![]
    } else {
        encoded_bits(s.drop_last(), codes) + if codes.contains_key(s.last()) {
            codes[s.last()]
        } else {
            seq![]
        }
    }
}

/// Concatenates the codewords of the symbols of `input`, in order.
pub fn encode_symbols(input: &[u8], table: &CodeTable) -> (r: Vec<bool>)
    requires
        table.codes@.len() == 256,
    ensures
        r@ == encoded_bits(input@, table@),
{
    let mut out: Vec<bool> = Vec::new();
    let mut k: usize = 0;
    while k < input.len()
        invariant
            k <= input@.len(),
            table.codes@.len() == 256,
            out@ == encoded_bits(input@.subrange(0, k as int), table@),
        decreases input@.len() - k,
    {
        let code = &table.codes[input[k] as usize];
        let ghost before = out@;
        let mut j: usize = 0;
        while j < code.len()
            invariant
                j <= code@.len(),
                out@ == before + code@.subrange(0, j as int),
            decreases code@.len() - j,
        {
            out.push(code[j]);
            j = j + 1;
            assert(out@ =~= before + code@.subrange(0, j as int));
        }
        proof {
            let s = input@.subrange(0, k + 1);
            assert(s.drop_last() =~= input@.subrange(0, k as int));
            assert(code@.subrange(0, code@.len() as int) =~= code@);
            if code@.len() == 0 {
                assert(out@ =~= before);
            }
        }
        k = k + 1;
    }
    assert(input@.subrange(0, input@.len() as int) =~= input@);
    out
}

} // verus!
