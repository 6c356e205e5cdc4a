//! The Huffman tree: leaves carry a symbol and its weight, internal nodes own
//! exactly two children and carry the sum of their weights.

use vstd::multiset::Multiset;
use vstd::prelude::*;
use std::collections::HashMap;
use vstd::string::StringExecFns;
use crate::code::{code_map, leaf_codes};

verus! {

/// The fields shared by both kinds of node.
#[derive(Debug)]
pub struct HuffmanBaseNode {
    pub is_leaf: bool,
    pub weight: i32,
}

impl HuffmanBaseNode {
    pub fn is_leaf(&self) -> (r: bool)
        ensures
            r == self.is_leaf,
    {
        self.is_leaf
    }

    pub fn weight(&self) -> (r: i32)
        ensures
            r == self.weight,
    {
        self.weight
    }
}

/// A leaf: one symbol (a byte value) and its frequency.
#[derive(Debug)]
pub struct HuffmanLeafNode {
    pub base: HuffmanBaseNode,
    pub element: u8,
}

impl HuffmanLeafNode {
    pub fn new(wt: i32, el: u8) -> (r: Self)
        ensures
            r.base.is_leaf,
            r.base.weight == wt,
            r.element == el,
    {
        HuffmanLeafNode { base: HuffmanBaseNode { is_leaf: true, weight: wt }, element: el }
    }

    pub fn value(&self) -> (r: u8)
        ensures
            r == self.element,
    {
        self.element
    }

    pub fn weight(&self) -> (r: i32)
        ensures
            r == self.base.weight,
    {
        self.base.weight
    }
}

/// An internal node, owning its two children.
#[derive(Debug)]
pub struct HuffmanInternalNode {
    pub base: HuffmanBaseNode,
    pub left: Box<HuffmanNode>,
    pub right: Box<HuffmanNode>,
}

impl HuffmanInternalNode {
    pub fn new(wt: i32, l: HuffmanNode, r: HuffmanNode) -> (res: Self)
        ensures
            !res.base.is_leaf,
            res.base.weight == wt,
            *res.left == l,
            *res.right == r,
    {
        HuffmanInternalNode {
            base: HuffmanBaseNode { is_leaf: false, weight: wt },
            left: Box::new(l),
            right: Box::new(r),
        }
    }

    pub fn left(&self) -> (r: &HuffmanNode)
        ensures
            *r == *self.left,
    {
        &self.left
    }

    pub fn right(&self) -> (r: &HuffmanNode)
        ensures
            *r == *self.right,
    {
        &self.right
    }

    pub fn weight(&self) -> (r: i32)
        ensures
            r == self.base.weight,
    {
        self.base.weight()
    }
}

/// A node of a Huffman tree.
#[derive(Debug)]
pub enum HuffmanNode {
    Leaf(HuffmanLeafNode),
    Internal(HuffmanInternalNode),
}

/// A leaf node holding `symbol` with weight `weight`.
pub open spec fn leaf_node(weight: i32, symbol: u8) -> HuffmanNode {
    HuffmanNode::Leaf(
        HuffmanLeafNode { base: HuffmanBaseNode { is_leaf: true, weight: weight }, element: symbol },
    )
}

/// An internal node with the given weight and children.
pub open spec fn internal_node(weight: i32, l: HuffmanNode, r: HuffmanNode) -> HuffmanNode {
    HuffmanNode::Internal(
        HuffmanInternalNode {
            base: HuffmanBaseNode { is_leaf: false, weight: weight },
            left: Box::new(l),
            right: Box::new(r),
        },
    )
}

impl HuffmanNode {
    pub open spec fn spec_weight(&self) -> i32 {
        match self {
            HuffmanNode::Leaf(leaf) => leaf.base.weight,
            HuffmanNode::Internal(internal) => internal.base.weight,
        }
    }

    /// The tree invariant: leaf flags agree with the node kind, leaf weights
    /// are non-negative, and each internal weight is the sum of its children's.
    pub open spec fn well_formed(&self) -> bool
        decreases self,
    {
        match self {
            HuffmanNode::Leaf(leaf) => leaf.base.is_leaf && leaf.base.weight >= 0,
            HuffmanNode::Internal(internal) => {
                &&& !internal.base.is_leaf
                &&& internal.base.weight == internal.left.spec_weight()
                    + internal.right.spec_weight()
                &&& internal.left.well_formed()
                &&& internal.right.well_formed()
            },
        }
    }

    /// The symbols held by the leaves of this tree.
    pub open spec fn leaf_symbols(&self) -> Set<u8>
        decreases self,
    {
        match self {
            HuffmanNode::Leaf(leaf) => set![leaf.element],
            HuffmanNode::Internal(internal) => internal.left.leaf_symbols().union(
                internal.right.leaf_symbols(),
            ),
        }
    }

    /// The `(symbol, weight)` pairs of the leaves of this tree.
    pub open spec fn leaf_entries(&self) -> Multiset<(u8, i32)>
        decreases self,
    {
        match self {
            HuffmanNode::Leaf(leaf) => Multiset::singleton((leaf.element, leaf.base.weight)),
            HuffmanNode::Internal(internal) => internal.left.leaf_entries().add(
                internal.right.leaf_entries(),
            ),
        }
    }

    /// The sum of the weights of the leaves of this tree.
    pub open spec fn leaf_weight_sum(&self) -> int
        decreases self,
    {
        match self {
            HuffmanNode::Leaf(leaf) => leaf.base.weight as int,
            HuffmanNode::Internal(internal) => internal.left.leaf_weight_sum()
                + internal.right.leaf_weight_sum(),
        }
    }

    #[verifier::when_used_as_spec(spec_weight)]
    pub fn weight(&self) -> (r: i32)
        ensures
            r == self.spec_weight(),
    {
        match self {
            HuffmanNode::Leaf(leaf) => leaf.base.weight,
            HuffmanNode::Internal(internal) => internal.base.weight,
        }
    }

    /// Whether this node is a leaf (by its variant).
    pub fn is_leaf(&self) -> (r: bool)
        ensures
            r == (self is Leaf),
    {
        match self {
            HuffmanNode::Leaf(_) => true,
            HuffmanNode::Internal(_) => false,
        }
    }

    pub fn value(&self) -> (r: Option<u8>)
        ensures
            r == (match self {
                HuffmanNode::Leaf(leaf) => Some(leaf.element),
                HuffmanNode::Internal(_) => None,
            }),
    {
        match self {
            HuffmanNode::Leaf(leaf) => Some(leaf.value()),
            _ => None,
        }
    }

    pub fn left(&self) -> (r: Option<&HuffmanNode>)
        ensures
            r == (match self {
                HuffmanNode::Leaf(_) => None,
                HuffmanNode::Internal(internal) => Some(&*internal.left),
            }),
    {
        match self {
            HuffmanNode::Leaf(_) => None,
            HuffmanNode::Internal(internal) => Some(internal.left()),
        }
    }

    pub fn right(&self) -> (r: Option<&HuffmanNode>)
        ensures
            r == (match self {
                HuffmanNode::Leaf(_) => None,
                HuffmanNode::Internal(internal) => Some(&*internal.right),
            }),
    {
        match self {
            HuffmanNode::Leaf(_) => None,
            HuffmanNode::Internal(internal) => Some(internal.right()),
        }
    }
}

/// A codeword written as text, one `'0'` or `'1'` per bit.
pub open spec fn code_text(bits: Seq<bool>) -> Seq<char> {
    Seq::new(
        bits.len(),
        |i: int|
            if bits[i] {
                '1'
            } else {
                '0'
            },
    )
}

/// `after` is `before` with the codeword of each symbol of `m`, as text,
/// written in.
pub open spec fn text_codes_written(
    before: Map<u8, String>,
    after: Map<u8, String>,
    m: Map<u8, Seq<bool>>,
) -> bool {
    &&& after.dom() == before.dom().union(m.dom())
    &&& forall|b: u8| #[trigger] m.contains_key(b) ==> after[b]@ == code_text(m[b])
    &&& forall|b: u8|
        !#[trigger] m.contains_key(b) && before.contains_key(b) ==> after[b] == before[b]
}

/// The codewords of the leaves of `t` as text, each `prefix` followed by the
/// path from `t` to the leaf, `'0'` for left and `'1'` for right. Where two
/// leaves share a symbol the right-hand one counts.
pub open spec fn prefixed_text_codes(t: HuffmanNode, prefix: Seq<char>) -> Map<u8, Seq<char>>
    decreases t,
{
    match t {
        HuffmanNode::Leaf(leaf) => map![leaf.element => prefix],
        HuffmanNode::Internal(internal) => prefixed_text_codes(*internal.left, prefix + seq!['0'])
            .union_prefer_right(prefixed_text_codes(*internal.right, prefix + seq!['1'])),
    }
}

/// `after` is `before` with each text of `m` written in under its symbol.
pub open spec fn texts_written(
    before: Map<u8, String>,
    after: Map<u8, String>,
    m: Map<u8, Seq<char>>,
) -> bool {
    &&& after.dom() == before.dom().union(m.dom())
    &&& forall|b: u8| #[trigger] m.contains_key(b) ==> after[b]@ == m[b]
    &&& forall|b: u8|
        !#[trigger] m.contains_key(b) && before.contains_key(b) ==> after[b] == before[b]
}

/// On a prefix of bits written as text, the text codewords are the bit
/// codewords written as text.
pub proof fn lemma_prefixed_text_codes(t: HuffmanNode, p: Seq<bool>)
    ensures
        prefixed_text_codes(t, code_text(p)) == leaf_codes(t, p).map_values(
            |c: Seq<bool>| code_text(c),
        ),
    decreases t,
{
    if let HuffmanNode::Internal(internal) = t {
        assert(code_text(p) + seq!['0'] =~= code_text(p.push(false)));
        assert(code_text(p) + seq!['1'] =~= code_text(p.push(true)));
        lemma_prefixed_text_codes(*internal.left, p.push(false));
        lemma_prefixed_text_codes(*internal.right, p.push(true));
    }
    assert(prefixed_text_codes(t, code_text(p)) =~= leaf_codes(t, p).map_values(
        |c: Seq<bool>| code_text(c),
    ));
}

/// `n` spaces.
pub open spec fn spaces(n: nat) -> Seq<char> {
    Seq::new(n, |i: int| ' ')
}

/// The outline of a tree, one line per node, each indented by two spaces per
/// level below the first line's indentation `indent`.
pub open spec fn tree_text(t: HuffmanNode, indent: Seq<char>) -> Seq<char>
    decreases t,
{
    match t {
        HuffmanNode::Leaf(leaf) => indent + "Leaf: "@ + seq![leaf.element as char] + "\n"@,
        HuffmanNode::Internal(internal) => indent + "Internal Node\n"@ + tree_text(
            *internal.left,
            indent + spaces(2),
        ) + tree_text(*internal.right, indent + spaces(2)),
    }
}

/// The decimal digit `d` as a character.
pub open spec fn digit_char(d: nat) -> char {
    ((48 + d) as u8) as char
}

/// The decimal digits of `n`, most significant first.
pub open spec fn decimal_digits(n: nat) -> Seq<char>
    decreases n,
{
    if n < 10 {
        seq![digit_char(n)]
    } else {
        decimal_digits(n / 10).push(digit_char(n % 10))
    }
}

/// `n` in decimal, with a leading `-` when negative.
pub open spec fn int_text(n: int) -> Seq<char> {
    if n < 0 {
        seq!['-'] + decimal_digits((-n) as nat)
    } else {
        decimal_digits(n as nat)
    }
}

/// The debugging form of a tree: `Leaf(a : 3)` for a leaf, and
/// `Internal(6, left: ..., right: ...)` for an internal node.
pub open spec fn debug_text_of(t: HuffmanNode) -> Seq<char>
    decreases t,
{
    match t {
        HuffmanNode::Leaf(leaf) => "Leaf("@ + seq![leaf.element as char] + " : "@ + int_text(
            leaf.base.weight as int,
        ) + ")"@,
        HuffmanNode::Internal(internal) => "Internal("@ + int_text(internal.base.weight as int)
            + ", left: "@ + debug_text_of(*internal.left) + ", right: "@ + debug_text_of(
            *internal.right,
        ) + ")"@,
    }
}

fn push_decimal(s: &mut String, n: u64)
    ensures
        final(s)@ == old(s)@ + decimal_digits(n as nat),
    decreases n,
{
    if n >= 10 {
        push_decimal(s, n / 10);
    }
    push_char(s, (48u8 + (n % 10) as u8) as char);
    assert(final(s)@ =~= old(s)@ + decimal_digits(n as nat));
}

fn push_int(s: &mut String, n: i32)
    ensures
        final(s)@ == old(s)@ + int_text(n as int),
{
    if n < 0 {
        push_char(s, '-');
        let m: u64 = (0i64 - n as i64) as u64;
        push_decimal(s, m);
        assert(final(s)@ =~= old(s)@ + int_text(n as int));
    } else {
        push_decimal(s, n as u64);
    }
}

/// Relies on String::push: appends one character.
#[verifier::external_body]
fn push_char(s: &mut String, c: char)
    ensures
        final(s)@ == old(s)@.push(c),
{
    s.push(c);
}

impl HuffmanNode {
    /// The outline of the tree, one line per node from the top down.
    pub fn print_tree(&self) -> (r: String)
        ensures
            r@ == tree_text(*self, seq![]),
    {
        self.print_tree_helper(&String::new())
    }

    fn print_tree_helper(&self, indent: &String) -> (r: String)
        ensures
            r@ == tree_text(*self, indent@),
        decreases self,
    {
        proof {
            reveal_strlit("Leaf: ");
            reveal_strlit("\n");
            reveal_strlit("Internal Node\n");
            reveal_strlit("  ");
        }
        match self {
            HuffmanNode::Leaf(leaf) => {
                let mut result = indent.clone();
                result.append("Leaf: ");
                push_char(&mut result, leaf.element as char);
                result.append("\n");
                result
            },
            HuffmanNode::Internal(internal) => {
                let mut result = indent.clone();
                result.append("Internal Node\n");
                let mut deeper = indent.clone();
                deeper.append("  ");
                assert(deeper@ =~= indent@ + spaces(2));
                let left_str = internal.left.print_tree_helper(&deeper);
                let right_str = internal.right.print_tree_helper(&deeper);
                result.append(left_str.as_str());
                result.append(right_str.as_str());
                assert(result@ =~= tree_text(*self, indent@));
                result
            },
        }
    }

    /// The debugging form of the tree, e.g.
    /// `Internal(3, left: Leaf(a : 1), right: Leaf(b : 2))`.
    pub fn debug_text(&self) -> (r: String)
        ensures
            r@ == debug_text_of(*self),
    {
        let mut out = String::new();
        self.write_debug_text(&mut out);
        assert(out@ =~= debug_text_of(*self));
        out
    }

    fn write_debug_text(&self, out: &mut String)
        ensures
            final(out)@ == old(out)@ + debug_text_of(*self),
        decreases self,
    {
        proof {
            reveal_strlit("Leaf(");
            reveal_strlit(" : ");
            reveal_strlit(")");
            reveal_strlit("Internal(");
            reveal_strlit(", left: ");
            reveal_strlit(", right: ");
        }
        match self {
            HuffmanNode::Leaf(leaf) => {
                out.append("Leaf(");
                push_char(out, leaf.element as char);
                out.append(" : ");
                push_int(out, leaf.base.weight);
                out.append(")");
            },
            HuffmanNode::Internal(internal) => {
                out.append("Internal(");
                push_int(out, internal.base.weight);
                out.append(", left: ");
                internal.left.write_debug_text(out);
                out.append(", right: ");
                internal.right.write_debug_text(out);
                out.append(")");
            },
        }
        assert(out@ =~= old(out)@ + debug_text_of(*self));
    }

    /// Records in `codes` the codeword of each leaf symbol, as text: the path
    /// from this node, `'0'` for left and `'1'` for right. A tree that is a
    /// single leaf gives its symbol the one-bit codeword `"0"`.
    pub fn generate_prefix_codes(&self, codes: &mut HashMap<u8, String>)
        ensures
            text_codes_written(old(codes)@, final(codes)@, code_map(*self)),
    {
        match self {
            HuffmanNode::Leaf(leaf) => {
                proof {
                    reveal_strlit("0");
                }
                let mut code = String::new();
                code.append("0");
                assert(code@ =~= code_text(seq![false]));
                codes.insert(leaf.element, code);
                assert(codes@.dom() =~= old(codes)@.dom().union(code_map(*self).dom()));
            },
            HuffmanNode::Internal(_) => {
                let prefix = String::new();
                proof {
                    assert(prefix@ =~= code_text(Seq::empty()));
                    lemma_prefixed_text_codes(*self, Seq::empty());
                }
                self.generate_prefix_codes_helper(prefix, codes);
                let ghost m = code_map(*self);
                assert(prefixed_text_codes(*self, Seq::empty()) == m.map_values(
                    |c: Seq<bool>| code_text(c),
                ));
                assert(codes@.dom() =~= old(codes)@.dom().union(m.dom()));
                assert forall|b: u8| #[trigger] m.contains_key(b) implies codes@[b]@ == code_text(
                    m[b],
                ) by {
                    assert(m.map_values(|c: Seq<bool>| code_text(c)).contains_key(b));
                }
                assert forall|b: u8| !#[trigger] m.contains_key(b) && old(codes)@.contains_key(b)
                    implies codes@[b] == old(codes)@[b] by {
                    assert(!m.map_values(|c: Seq<bool>| code_text(c)).contains_key(b));
                }
            },
        }
    }

    fn generate_prefix_codes_helper(&self, prefix: String, codes: &mut HashMap<u8, String>)
        ensures
            texts_written(old(codes)@, final(codes)@, prefixed_text_codes(*self, prefix@)),
        decreases self,
    {
        proof {
            reveal_strlit("0");
            reveal_strlit("1");
        }
        match self {
            HuffmanNode::Leaf(leaf) => {
                let ghost p = prefix@;
                codes.insert(leaf.element, prefix);
                assert(codes@.dom() =~= old(codes)@.dom().union(prefixed_text_codes(*self, p).dom()));
            },
            HuffmanNode::Internal(internal) => {
                let ghost p = prefix@;
                let mut left = prefix.clone();
                left.append("0");
                assert(left@ =~= p + seq!['0']);
                internal.left.generate_prefix_codes_helper(left, codes);
                let mut right = prefix;
                right.append("1");
                assert(right@ =~= p + seq!['1']);
                internal.right.generate_prefix_codes_helper(right, codes);
                assert(codes@.dom() =~= old(codes)@.dom().union(prefixed_text_codes(*self, p).dom()));
            },
        }
    }
}

/// In a well-formed tree every weight is non-negative and equals the sum of
/// the leaf weights beneath it.
pub proof fn lemma_weight_is_leaf_sum(t: HuffmanNode)
    requires
        t.well_formed(),
    ensures
        t.spec_weight() >= 0,
        t.spec_weight() == t.leaf_weight_sum(),
    decreases t,
{
    if let HuffmanNode::Internal(internal) = t {
        lemma_weight_is_leaf_sum(*internal.left);
        lemma_weight_is_leaf_sum(*internal.right);
    }
}

} // verus!
