//! Building the Huffman tree from a frequency table.
//!
//! A queue holds `(subtree, sequence number)` entries. Leaves are numbered by
//! their position in the table (ascending symbol); each new internal node takes
//! the next number. The queue is ordered by weight, then by sequence number, so
//! that the same table always yields the same tree.

use vstd::multiset::Multiset;
use vstd::prelude::*;
use crate::frequency::{FrequencyTable, is_valid_table, table_symbols, table_total};
use crate::huffman::{
    HuffmanInternalNode,
    HuffmanLeafNode,
    HuffmanNode,
    internal_node,
    leaf_node,
    lemma_weight_is_leaf_sum,
};

verus! {

/// Whether entry `a` leaves the queue before entry `b`.
pub open spec fn precedes(a: (HuffmanNode, usize), b: (HuffmanNode, usize)) -> bool {
    ||| a.0.spec_weight() < b.0.spec_weight()
    ||| a.0.spec_weight() == b.0.spec_weight() && a.1 < b.1
}

/// The position of the first entry to leave the queue.
pub open spec fn min_position(q: Seq<(HuffmanNode, usize)>) -> int
    decreases q.len(),
{
    if q.len() <= 1 {
        0
    } else {
        let m = min_position(q.drop_last());
        if precedes(q.last(), q[m]) {
            q.len() - 1
        } else {
            m
        }
    }
}

/// One step of the construction: take the two first entries out, join them
/// (first on the left) under a new internal node numbered `next`.
pub open spec fn merge_two(q: Seq<(HuffmanNode, usize)>, next: usize) -> Seq<
    (HuffmanNode, usize),
> {
    let i = min_position(q);
    let a = q[i];
    let q1 = q.remove(i);
    let j = min_position(q1);
    let b = q1[j];
    let q2 = q1.remove(j);
    q2.push((internal_node((a.0.spec_weight() + b.0.spec_weight()) as i32, a.0, b.0), next))
}

/// The tree that the construction ends with, starting from queue `q`.
pub open spec fn reduce_queue(q: Seq<(HuffmanNode, usize)>, next: usize) -> HuffmanNode
    decreases q.len(),
{
    if q.len() <= 1 {
        q[0].0
    } else {
        proof {
            lemma_merge_two_len(q, next);
        }
        reduce_queue(merge_two(q, next), (next + 1) as usize)
    }
}

/// The starting queue: one leaf per table entry, numbered by position.
pub open spec fn leaf_queue(t: Seq<(u8, i32)>) -> Seq<(HuffmanNode, usize)> {
    Seq::new(t.len(), |k: int| (leaf_node(t[k].1, t[k].0), k as usize))
}

/// The Huffman tree of a non-empty table.
pub open spec fn huffman_tree(t: Seq<(u8, i32)>) -> HuffmanNode {
    reduce_queue(leaf_queue(t), t.len() as usize)
}

/// The sum of the weights of the subtrees in a queue.
pub open spec fn queue_weight(q: Seq<(HuffmanNode, usize)>) -> int
    decreases q.len(),
{
    if q.len() == 0 {
        0
    } else {
        queue_weight(q.drop_last()) + q.last().0.spec_weight()
    }
}

/// The symbols of the leaves of the subtrees in a queue.
pub open spec fn queue_symbols(q: Seq<(HuffmanNode, usize)>) -> Set<u8>
    decreases q.len(),
{
    if q.len() == 0 {
        Set::empty()
    } else {
        queue_symbols(q.drop_last()).union(q.last().0.leaf_symbols())
    }
}

/// The `(symbol, weight)` pairs of the leaves of the subtrees in a queue.
pub open spec fn queue_leaves(q: Seq<(HuffmanNode, usize)>) -> Multiset<(u8, i32)>
    decreases q.len(),
{
    if q.len() == 0 {
        Multiset::empty()
    } else {
        queue_leaves(q.drop_last()).add(q.last().0.leaf_entries())
    }
}

/// The entries of a table, as a multiset.
pub open spec fn table_entries(t: Seq<(u8, i32)>) -> Multiset<(u8, i32)>
    decreases t.len(),
{
    if t.len() == 0 {
        Multiset::empty()
    } else {
        table_entries(t.drop_last()).insert(t.last())
    }
}

/// The queue invariant: well-formed subtrees whose weights sum to `total`,
/// which fits `i32`.
pub open spec fn queue_ok(q: Seq<(HuffmanNode, usize)>, total: int) -> bool {
    &&& forall|k: int| 0 <= k < q.len() ==> (#[trigger] q[k]).0.well_formed()
    &&& queue_weight(q) == total
    &&& total <= i32::MAX
}

/// The first entry of a non-empty queue lies within it.
pub proof fn lemma_min_position_in_range(q: Seq<(HuffmanNode, usize)>)
    requires
        q.len() >= 1,
    ensures
        0 <= min_position(q) < q.len(),
    decreases q.len(),
{
    if q.len() > 1 {
        lemma_min_position_in_range(q.drop_last());
    }
}

/// A step shortens the queue by one.
pub proof fn lemma_merge_two_len(q: Seq<(HuffmanNode, usize)>, next: usize)
    requires
        q.len() >= 2,
    ensures
        merge_two(q, next).len() == q.len() - 1,
{
    lemma_min_position_in_range(q);
    lemma_min_position_in_range(q.remove(min_position(q)));
}

proof fn lemma_queue_weight_remove(q: Seq<(HuffmanNode, usize)>, i: int)
    requires
        0 <= i < q.len(),
    ensures
        queue_weight(q.remove(i)) == queue_weight(q) - q[i].0.spec_weight(),
    decreases q.len(),
{
    if i == q.len() - 1 {
        assert(q.remove(i) =~= q.drop_last());
    } else {
        lemma_queue_weight_remove(q.drop_last(), i);
        assert(q.remove(i).drop_last() =~= q.drop_last().remove(i));
    }
}

proof fn lemma_queue_symbols_remove(q: Seq<(HuffmanNode, usize)>, i: int)
    requires
        0 <= i < q.len(),
    ensures
        queue_symbols(q) == queue_symbols(q.remove(i)).union(q[i].0.leaf_symbols()),
    decreases q.len(),
{
    if i == q.len() - 1 {
        assert(q.remove(i) =~= q.drop_last());
    } else {
        lemma_queue_symbols_remove(q.drop_last(), i);
        assert(q.remove(i).drop_last() =~= q.drop_last().remove(i));
        assert(queue_symbols(q) =~= queue_symbols(q.remove(i)).union(q[i].0.leaf_symbols()));
    }
}

proof fn lemma_queue_weight_nonnegative(q: Seq<(HuffmanNode, usize)>)
    requires
        forall|k: int| 0 <= k < q.len() ==> (#[trigger] q[k]).0.well_formed(),
    ensures
        queue_weight(q) >= 0,
    decreases q.len(),
{
    if q.len() > 0 {
        lemma_queue_weight_nonnegative(q.drop_last());
        lemma_weight_is_leaf_sum(q.last().0);
    }
}

/// A step keeps the queue invariant and the set of symbols, and the weight of
/// the new node fits `i32`.
proof fn lemma_merge_two(q: Seq<(HuffmanNode, usize)>, next: usize, total: int)
    requires
        q.len() >= 2,
        queue_ok(q, total),
    ensures
        queue_ok(merge_two(q, next), total),
        queue_symbols(merge_two(q, next)) == queue_symbols(q),
        q[min_position(q)].0.spec_weight() + q.remove(min_position(q))[min_position(
            q.remove(min_position(q)),
        )].0.spec_weight() <= i32::MAX,
{
    let i = min_position(q);
    lemma_min_position_in_range(q);
    let a = q[i];
    let q1 = q.remove(i);
    let j = min_position(q1);
    lemma_min_position_in_range(q1);
    let b = q1[j];
    let q2 = q1.remove(j);
    lemma_queue_weight_remove(q, i);
    lemma_queue_weight_remove(q1, j);
    lemma_queue_symbols_remove(q, i);
    lemma_queue_symbols_remove(q1, j);
    assert forall|k: int| 0 <= k < q1.len() implies (#[trigger] q1[k]).0.well_formed() by {
        if k < i {
            assert(q1[k] == q[k]);
        } else {
            assert(q1[k] == q[k + 1]);
        }
    }
    assert forall|k: int| 0 <= k < q2.len() implies (#[trigger] q2[k]).0.well_formed() by {
        if k < j {
            assert(q2[k] == q1[k]);
        } else {
            assert(q2[k] == q1[k + 1]);
        }
    }
    lemma_queue_weight_nonnegative(q2);
    assert(a.0.well_formed());
    assert(b.0.well_formed());
    lemma_weight_is_leaf_sum(a.0);
    lemma_weight_is_leaf_sum(b.0);
    let merged = merge_two(q, next);
    assert(merged.drop_last() =~= q2);
    let node = merged.last().0;
    assert(node == internal_node((a.0.spec_weight() + b.0.spec_weight()) as i32, a.0, b.0));
    assert(node.well_formed());
    assert(node.leaf_symbols() == a.0.leaf_symbols().union(b.0.leaf_symbols()));
    assert forall|k: int| 0 <= k < merged.len() implies (#[trigger] merged[k]).0.well_formed() by {
        if k < q2.len() {
            assert(merged[k] == q2[k]);
        }
    }
    assert(queue_symbols(merged) =~= queue_symbols(q));
}

proof fn lemma_reduce_queue(q: Seq<(HuffmanNode, usize)>, next: usize, total: int)
    requires
        q.len() >= 1,
        queue_ok(q, total),
    ensures
        reduce_queue(q, next).well_formed(),
        reduce_queue(q, next).spec_weight() == total,
        reduce_queue(q, next).leaf_symbols() == queue_symbols(q),
    decreases q.len(),
{
    if q.len() == 1 {
        assert(queue_weight(q.drop_last()) == 0);
        assert(queue_symbols(q.drop_last()) == Set::<u8>::empty());
        assert(queue_symbols(q) =~= q[0].0.leaf_symbols());
    } else {
        lemma_merge_two(q, next, total);
        lemma_merge_two_len(q, next);
        lemma_reduce_queue(merge_two(q, next), (next + 1) as usize, total);
    }
}

proof fn lemma_leaf_queue(t: Seq<(u8, i32)>)
    requires
        is_valid_table(t),
    ensures
        forall|k: int| 0 <= k < t.len() ==> (#[trigger] leaf_queue(t)[k]).0.well_formed(),
        queue_weight(leaf_queue(t)) == table_total(t),
        queue_symbols(leaf_queue(t)) == table_symbols(t),
    decreases t.len(),
{
    if t.len() > 0 {
        let p = t.drop_last();
        assert(is_valid_table(p));
        lemma_leaf_queue(p);
        assert(leaf_queue(t).drop_last() =~= leaf_queue(p));
        assert(table_symbols(t) =~= table_symbols(p).insert(t.last().0)) by {
            assert forall|b: u8| #[trigger] table_symbols(t).contains(b) implies table_symbols(
                p,
            ).insert(t.last().0).contains(b) by {
                let i = choose|i: int| 0 <= i < t.len() && t[i].0 == b;
                if i < p.len() {
                    assert(p[i].0 == b);
                }
            }
            assert forall|b: u8| #[trigger] table_symbols(p).contains(b) implies table_symbols(
                t,
            ).contains(b) by {
                let i = choose|i: int| 0 <= i < p.len() && p[i].0 == b;
                assert(t[i].0 == b);
            }
            assert(t[t.len() - 1].0 == t.last().0);
        }
        assert(queue_symbols(leaf_queue(t)) =~= table_symbols(t));
    } else {
        assert(table_symbols(t) =~= Set::empty());
    }
}

proof fn lemma_queue_leaves_remove(q: Seq<(HuffmanNode, usize)>, i: int)
    requires
        0 <= i < q.len(),
    ensures
        queue_leaves(q) == queue_leaves(q.remove(i)).add(q[i].0.leaf_entries()),
    decreases q.len(),
{
    if i == q.len() - 1 {
        assert(q.remove(i) =~= q.drop_last());
    } else {
        lemma_queue_leaves_remove(q.drop_last(), i);
        assert(q.remove(i).drop_last() =~= q.drop_last().remove(i));
        assert(queue_leaves(q) =~= queue_leaves(q.remove(i)).add(q[i].0.leaf_entries()));
    }
}

proof fn lemma_reduce_queue_leaves(q: Seq<(HuffmanNode, usize)>, next: usize)
    requires
        q.len() >= 1,
    ensures
        reduce_queue(q, next).leaf_entries() == queue_leaves(q),
    decreases q.len(),
{
    if q.len() == 1 {
        assert(queue_leaves(q.drop_last()) == Multiset::<(u8, i32)>::empty());
        assert(queue_leaves(q) =~= q[0].0.leaf_entries());
    } else {
        let i = min_position(q);
        lemma_min_position_in_range(q);
        let q1 = q.remove(i);
        let j = min_position(q1);
        lemma_min_position_in_range(q1);
        let q2 = q1.remove(j);
        lemma_queue_leaves_remove(q, i);
        lemma_queue_leaves_remove(q1, j);
        let merged = merge_two(q, next);
        assert(merged.drop_last() =~= q2);
        assert(queue_leaves(merged) =~= queue_leaves(q));
        lemma_merge_two_len(q, next);
        lemma_reduce_queue_leaves(merged, (next + 1) as usize);
    }
}

proof fn lemma_leaf_queue_entries(t: Seq<(u8, i32)>)
    ensures
        queue_leaves(leaf_queue(t)) == table_entries(t),
    decreases t.len(),
{
    if t.len() > 0 {
        lemma_leaf_queue_entries(t.drop_last());
        assert(leaf_queue(t).drop_last() =~= leaf_queue(t.drop_last()));
        assert(queue_leaves(leaf_queue(t)) =~= table_entries(t));
    }
}

/// The leaves of the tree of a non-empty table are its entries: one leaf
/// per entry, holding the entry's symbol with its count as weight.
pub proof fn lemma_huffman_tree_leaves(t: Seq<(u8, i32)>)
    requires
        t.len() > 0,
    ensures
        huffman_tree(t).leaf_entries() == table_entries(t),
{
    lemma_leaf_queue_entries(t);
    lemma_reduce_queue_leaves(leaf_queue(t), t.len() as usize);
}

/// In a valid table each entry occurs once in its multiset of entries.
pub proof fn lemma_table_entries_count(t: Seq<(u8, i32)>, e: (u8, i32))
    requires
        is_valid_table(t),
    ensures
        table_entries(t).count(e) == if exists|i: int| 0 <= i < t.len() && t[i] == e {
            1nat
        } else {
            0nat
        },
    decreases t.len(),
{
    if t.len() > 0 {
        let p = t.drop_last();
        assert(is_valid_table(p));
        lemma_table_entries_count(p, e);
        if exists|i: int| 0 <= i < t.len() && t[i] == e {
            let i = choose|i: int| 0 <= i < t.len() && t[i] == e;
            if i < p.len() {
                assert(p[i] == e);
                assert(t.last() != e);
            }
        } else {
            assert forall|i: int| 0 <= i < p.len() implies p[i] != e by {
                assert(t[i] == p[i]);
            }
            assert(t[t.len() - 1] != e);
        }
    }
}

/// The tree of a valid non-empty table whose total fits `i32` is well formed,
/// weighs the total of the table, and holds exactly the table's symbols.
pub proof fn lemma_huffman_tree(t: Seq<(u8, i32)>)
    requires
        is_valid_table(t),
        t.len() > 0,
        table_total(t) <= i32::MAX,
    ensures
        huffman_tree(t).well_formed(),
        huffman_tree(t).spec_weight() == table_total(t),
        huffman_tree(t).leaf_weight_sum() == table_total(t),
        huffman_tree(t).leaf_symbols() == table_symbols(t),
{
    lemma_leaf_queue(t);
    lemma_reduce_queue(leaf_queue(t), t.len() as usize, table_total(t));
    lemma_weight_is_leaf_sum(huffman_tree(t));
}

fn first_position(q: &Vec<(HuffmanNode, usize)>) -> (r: usize)
    requires
        q@.len() >= 1,
    ensures
        r == min_position(q@),
{
    let mut m: usize = 0;
    let mut k: usize = 1;
    while k < q.len()
        invariant
            1 <= k <= q@.len(),
            m == min_position(q@.subrange(0, k as int)),
        decreases q@.len() - k,
    {
        proof {
            assert(q@.subrange(0, k + 1).drop_last() =~= q@.subrange(0, k as int));
            lemma_min_position_in_range(q@.subrange(0, k as int));
        }
        let wk = q[k].0.weight();
        let wm = q[m].0.weight();
        if wk < wm || (wk == wm && q[k].1 < q[m].1) {
            m = k;
        }
        k = k + 1;
    }
    assert(q@.subrange(0, q@.len() as int) =~= q@);
    m
}

/// Builds the Huffman tree of `table`; `None` for an empty table.
pub fn build_tree(table: &FrequencyTable) -> (r: Option<HuffmanNode>)
    requires
        is_valid_table(table@),
        table_total(table@) <= i32::MAX,
    ensures
        r is None <==> table@.len() == 0,
        r matches Some(t) ==> t == huffman_tree(table@),
{
    let n = table.entries.len();
    if n == 0 {
        return None;
    }
    proof {
        crate::header::lemma_table_len(table@);
        lemma_leaf_queue(table@);
    }
    let mut q: Vec<(HuffmanNode, usize)> = Vec::new();
    let mut k: usize = 0;
    while k < n
        invariant
            n == table@.len(),
            k <= n,
            q@ == leaf_queue(table@).subrange(0, k as int),
        decreases n - k,
    {
        let (symbol, count) = table.entries[k];
        q.push((HuffmanNode::Leaf(HuffmanLeafNode::new(count, symbol)), k));
        k = k + 1;
        proof {
            assert(q@ =~= leaf_queue(table@).subrange(0, k as int));
        }
    }
    assert(q@ =~= leaf_queue(table@));
    let ghost total = table_total(table@);
    let mut next: usize = n;
    while q.len() > 1
        invariant
            n == table@.len(),
            n <= 256,
            q@.len() >= 1,
            next + q@.len() == 2 * n,
            queue_ok(q@, total),
            reduce_queue(q@, next) == huffman_tree(table@),
        decreases q@.len(),
    {
        let ghost old_q = q@;
        proof {
            lemma_merge_two(old_q, next, total);
            lemma_min_position_in_range(old_q);
            lemma_min_position_in_range(old_q.remove(min_position(old_q)));
        }
        let i = first_position(&q);
        let a = q.remove(i);
        let j = first_position(&q);
        let b = q.remove(j);
        let w = a.0.weight() + b.0.weight();
        let node = HuffmanNode::Internal(HuffmanInternalNode::new(w, a.0, b.0));
        q.push((node, next));
        proof {
            assert(q@ =~= merge_two(old_q, next));
        }
        next = next + 1;
    }
    let (root, _) = q.remove(0);
    Some(root)
}

} // verus!
