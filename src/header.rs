//! The header: the distinct-symbol count as a 4-byte little-endian integer,
//! then one `(symbol, count)` pair of 1 + 4 bytes per entry, then a
//! terminator byte.

use vstd::prelude::*;
use crate::error::HuffmanError;
use crate::frequency::{FrequencyTable, is_valid_table};

verus! {

/// The four little-endian bytes of `v`.
pub open spec fn le32(v: u32) -> Seq<u8> {
    seq![
        (v & 0xff) as u8,
        ((v >> 8u32) & 0xff) as u8,
        ((v >> 16u32) & 0xff) as u8,
        ((v >> 24u32) & 0xff) as u8,
    ]
}

/// The little-endian integer held by the four bytes of `d` from `at` on.
pub open spec fn read_le32(d: Seq<u8>, at: int) -> u32 {
    (d[at] as u32) | ((d[at + 1] as u32) << 8u32) | ((d[at + 2] as u32) << 16u32) | ((d[at
        + 3] as u32) << 24u32)
}

/// The `(symbol, count)` pairs of a table, five bytes each.
pub open spec fn entries_bytes(t: Seq<(u8, i32)>) -> Seq<u8>
    decreases t.len(),
{
    if t.len() == 0 {
        seq![]
    } else {
        entries_bytes(t.drop_last()) + seq![t.last().0] + le32(t.last().1 as u32)
    }
}

/// The header that describes table `t`.
pub open spec fn header_bytes(t: Seq<(u8, i32)>) -> Seq<u8> {
    le32(t.len() as u32) + entries_bytes(t) + seq![0u8]
}

/// The raw pair number `k` of a header: its symbol byte and its count.
pub open spec fn header_entry(d: Seq<u8>, k: int) -> (u8, u32) {
    (d[4 + 5 * k], read_le32(d, 5 + 5 * k))
}

/// The first `n` pairs of a header, counts taken as `i32`.
pub open spec fn raw_entries(d: Seq<u8>, n: nat) -> Seq<(u8, i32)> {
    Seq::new(n, |k: int| (header_entry(d, k).0, header_entry(d, k).1 as i32))
}

/// The count that the last pair for symbol `b` in `s` gives, if any.
pub open spec fn count_of(s: Seq<(u8, i32)>, b: u8) -> Option<i32>
    decreases s.len(),
{
    if s.len() == 0 {
        None
    } else if s.last().0 == b {
        Some(s.last().1)
    } else {
        count_of(s.drop_last(), b)
    }
}

/// The pairs of `s` whose symbols are below `n`, in ascending order of symbol.
pub open spec fn sorted_below(s: Seq<(u8, i32)>, n: nat) -> Seq<(u8, i32)>
    decreases n,
{
    if n == 0 {
        seq![]
    } else {
        let prev = sorted_below(s, (n - 1) as nat);
        match count_of(s, (n - 1) as u8) {
            Some(c) => prev.push(((n - 1) as u8, c)),
            None => prev,
        }
    }
}

/// The pairs of `s` in ascending order of symbol.
pub open spec fn sorted_entries(s: Seq<(u8, i32)>) -> Seq<(u8, i32)> {
    sorted_below(s, 256)
}

/// The table that `d` starts with, and the number of header bytes, when `d`
/// starts with a complete header whose counts fit `i32` and whose symbols are
/// distinct; `None` otherwise. The pairs may come in any order: the table
/// holds them in ascending order of symbol.
pub open spec fn parse_header(d: Seq<u8>) -> Option<(Seq<(u8, i32)>, nat)> {
    if d.len() < 4 {
        None
    } else {
        let n = read_le32(d, 0) as nat;
        if d.len() < 5 * n + 5 {
            None
        } else if (forall|k: int| 0 <= k < n ==> #[trigger] header_entry(d, k).1 <= i32::MAX) && (
        forall|i: int, j: int|
            0 <= i < j < n ==> #[trigger] header_entry(d, i).0 != #[trigger] header_entry(d, j).0) {
            Some((sorted_entries(raw_entries(d, n)), 5 * n + 5))
        } else {
            None
        }
    }
}

proof fn lemma_count_of(s: Seq<(u8, i32)>, b: u8)
    ensures
        count_of(s, b) is None <==> forall|i: int| 0 <= i < s.len() ==> s[i].0 != b,
        count_of(s, b) matches Some(c) ==> exists|i: int| 0 <= i < s.len() && s[i] == (b, c),
    decreases s.len(),
{
    if s.len() > 0 {
        let p = s.drop_last();
        lemma_count_of(p, b);
        if s.last().0 != b {
            assert forall|i: int| 0 <= i < p.len() implies p[i] == s[i] by {}
            if count_of(s, b) is None {
                assert forall|i: int| 0 <= i < s.len() implies s[i].0 != b by {
                    if i < p.len() {
                        assert(p[i] == s[i]);
                    }
                }
            } else {
                let c = count_of(s, b).unwrap();
                let i = choose|i: int| 0 <= i < p.len() && p[i] == (b, c);
                assert(s[i] == (b, c));
            }
        } else {
            assert(s[s.len() - 1] == s.last());
        }
    }
}

proof fn lemma_count_of_distinct(s: Seq<(u8, i32)>, i: int)
    requires
        0 <= i < s.len(),
        forall|a: int, c: int| 0 <= a < c < s.len() ==> s[a].0 != s[c].0,
    ensures
        count_of(s, s[i].0) == Some(s[i].1),
    decreases s.len(),
{
    if i < s.len() - 1 {
        let p = s.drop_last();
        assert(s.last().0 != s[i].0);
        assert(p[i] == s[i]);
        lemma_count_of_distinct(p, i);
    }
}

proof fn lemma_sorted_below_valid(s: Seq<(u8, i32)>, n: nat)
    requires
        n <= 256,
        forall|i: int| 0 <= i < s.len() ==> s[i].1 >= 0,
    ensures
        is_valid_table(sorted_below(s, n)),
        forall|i: int| 0 <= i < sorted_below(s, n).len() ==> (#[trigger] sorted_below(s, n)[i]).0 < n,
    decreases n,
{
    if n > 0 {
        let m = (n - 1) as nat;
        lemma_sorted_below_valid(s, m);
        lemma_count_of(s, m as u8);
    }
}

/// The table of a header that parses is valid.
pub proof fn lemma_parsed_table_valid(d: Seq<u8>)
    requires
        parse_header(d) is Some,
    ensures
        is_valid_table(parse_header(d).unwrap().0),
        parse_header(d).unwrap().1 <= d.len(),
{
    let n = read_le32(d, 0) as nat;
    let raw = raw_entries(d, n);
    assert forall|i: int| 0 <= i < raw.len() implies raw[i].1 >= 0 by {
        assert(header_entry(d, i).1 <= i32::MAX);
    }
    lemma_sorted_below_valid(raw, 256);
}

/// Sorting the pairs of a valid table leaves it as it is: the pairs below `n`
/// are the first `j` entries.
proof fn lemma_sorted_below_table(t: Seq<(u8, i32)>, n: nat) -> (j: int)
    requires
        is_valid_table(t),
        n <= 256,
    ensures
        0 <= j <= t.len(),
        sorted_below(t, n) == t.subrange(0, j),
        forall|i: int| 0 <= i < j ==> t[i].0 < n,
        forall|i: int| j <= i < t.len() ==> t[i].0 >= n,
    decreases n,
{
    if n == 0 {
        assert(t.subrange(0, 0) =~= seq![]);
        0
    } else {
        let m = (n - 1) as nat;
        let j0 = lemma_sorted_below_table(t, m);
        lemma_count_of(t, m as u8);
        if j0 < t.len() && t[j0].0 == m {
            lemma_count_of_distinct(t, j0);
            assert(t.subrange(0, j0 + 1) =~= t.subrange(0, j0).push(t[j0]));
            j0 + 1
        } else {
            assert forall|i: int| 0 <= i < t.len() implies t[i].0 != m as u8 by {
                if i >= j0 {
                    assert(t[i].0 >= m);
                    if i > j0 {
                        assert(t[j0].0 < t[i].0);
                    }
                }
            }
            j0
        }
    }
}

proof fn lemma_le32_round_trip(v: u32, d: Seq<u8>, at: int)
    requires
        0 <= at,
        at + 4 <= d.len(),
        d.subrange(at, at + 4) == le32(v),
    ensures
        read_le32(d, at) == v,
{
    assert(d[at] == le32(v)[0]);
    assert(d[at + 1] == le32(v)[1]);
    assert(d[at + 2] == le32(v)[2]);
    assert(d[at + 3] == le32(v)[3]);
    assert(((v & 0xff) as u8 as u32) | ((((v >> 8u32) & 0xff) as u8 as u32) << 8u32) | ((((v
        >> 16u32) & 0xff) as u8 as u32) << 16u32) | ((((v >> 24u32) & 0xff) as u8 as u32)
        << 24u32) == v) by (bit_vector);
}

proof fn lemma_entries_bytes(t: Seq<(u8, i32)>)
    ensures
        entries_bytes(t).len() == 5 * t.len(),
        forall|k: int|
            0 <= k < t.len() ==> {
                &&& entries_bytes(t)[5 * k] == (#[trigger] t[k]).0
                &&& entries_bytes(t).subrange(5 * k + 1, 5 * k + 5) == le32(t[k].1 as u32)
            },
    decreases t.len(),
{
    if t.len() > 0 {
        let p = t.drop_last();
        lemma_entries_bytes(p);
        let e = entries_bytes(t);
        assert forall|k: int| 0 <= k < t.len() implies {
            &&& entries_bytes(t)[5 * k] == (#[trigger] t[k]).0
            &&& entries_bytes(t).subrange(5 * k + 1, 5 * k + 5) == le32(t[k].1 as u32)
        } by {
            if k < p.len() {
                assert(t[k] == p[k]);
                assert(e.subrange(5 * k + 1, 5 * k + 5) =~= entries_bytes(p).subrange(
                    5 * k + 1,
                    5 * k + 5,
                ));
            } else {
                assert(e.subrange(5 * k + 1, 5 * k + 5) =~= le32(t[k].1 as u32));
            }
        }
    }
}

proof fn lemma_symbol_at_least_index(t: Seq<(u8, i32)>, i: int)
    requires
        is_valid_table(t),
        0 <= i < t.len(),
    ensures
        t[i].0 >= i,
    decreases i,
{
    if i > 0 {
        lemma_symbol_at_least_index(t, i - 1);
    }
}

/// A valid table has at most one entry per byte value.
pub proof fn lemma_table_len(t: Seq<(u8, i32)>)
    requires
        is_valid_table(t),
    ensures
        t.len() <= 256,
{
    if t.len() > 256 {
        lemma_symbol_at_least_index(t, 256);
    }
}

/// Reading back the header of any valid table, whatever follows it, gives
/// that table and the header's length.
pub proof fn lemma_header_round_trip(t: Seq<(u8, i32)>, rest: Seq<u8>)
    requires
        is_valid_table(t),
    ensures
        parse_header(header_bytes(t) + rest) == Some((t, header_bytes(t).len())),
{
    lemma_table_len(t);
    lemma_entries_bytes(t);
    let d = header_bytes(t) + rest;
    let n = t.len();
    assert(d.subrange(0, 4) =~= le32(n as u32));
    lemma_le32_round_trip(n as u32, d, 0);
    assert(read_le32(d, 0) as nat == n);
    assert(header_bytes(t).len() == 5 * n + 5);
    assert forall|k: int| 0 <= k < n implies #[trigger] header_entry(d, k) == (
    t[k].0,
    t[k].1 as u32,
    ) by {
        assert(d[4 + 5 * k] == entries_bytes(t)[5 * k]);
        assert(d.subrange(5 + 5 * k, 5 + 5 * k + 4) =~= entries_bytes(t).subrange(
            5 * k + 1,
            5 * k + 5,
        ));
        lemma_le32_round_trip(t[k].1 as u32, d, 5 + 5 * k);
    }
    assert(raw_entries(d, n) =~= t);
    let j = lemma_sorted_below_table(t, 256);
    assert(t.subrange(0, j) =~= t);
}

/// Writes the header that describes `t`.
pub fn serialize_header(t: &FrequencyTable) -> (r: Vec<u8>)
    requires
        is_valid_table(t@),
    ensures
        r@ == header_bytes(t@),
{
    proof {
        lemma_table_len(t@);
    }
    let mut out: Vec<u8> = Vec::new();
    push_le32(&mut out, t.entries.len() as u32);
    let mut k: usize = 0;
    while k < t.entries.len()
        invariant
            k <= t@.len(),
            out@ == le32(t@.len() as u32) + entries_bytes(t@.subrange(0, k as int)),
        decreases t@.len() - k,
    {
        let (symbol, count) = t.entries[k];
        proof {
            assert(t@.subrange(0, k + 1).drop_last() =~= t@.subrange(0, k as int));
        }
        out.push(symbol);
        push_le32(&mut out, count as u32);
        k = k + 1;
        proof {
            assert(out@ =~= le32(t@.len() as u32) + entries_bytes(t@.subrange(0, k as int)));
        }
    }
    out.push(0u8);
    assert(t@.subrange(0, t@.len() as int) =~= t@);
    assert(out@ =~= header_bytes(t@));
    out
}

fn push_le32(out: &mut Vec<u8>, v: u32)
    ensures
        final(out)@ == old(out)@ + le32(v),
{
    out.push((v & 0xff) as u8);
    out.push(((v >> 8u32) & 0xff) as u8);
    out.push(((v >> 16u32) & 0xff) as u8);
    out.push(((v >> 24u32) & 0xff) as u8);
    assert(final(out)@ =~= old(out)@ + le32(v));
}

fn read_u32_le(d: &[u8], at: usize) -> (r: u32)
    requires
        at + 4 <= d@.len(),
    ensures
        r == read_le32(d@, at as int),
{
    (d[at] as u32) | ((d[at + 1] as u32) << 8u32) | ((d[at + 2] as u32) << 16u32) | ((d[at
        + 3] as u32) << 24u32)
}

/// Reads the header at the start of `d`: the table it describes, in
/// ascending order of symbol, and the number of bytes it takes, terminator
/// included. A header cut short, one with a count above `i32::MAX`, or one
/// that names a symbol twice is a `Format` error.
pub fn deserialize_header(d: &[u8]) -> (r: Result<(FrequencyTable, usize), HuffmanError>)
    ensures
        match r {
            Ok((t, used)) => parse_header(d@) == Some((t@, used as nat)),
            Err(e) => e == HuffmanError::Format && parse_header(d@) is None,
        },
{
    if d.len() < 4 {
        return Err(HuffmanError::Format);
    }
    let n = read_u32_le(d, 0);
    let ghost nn = n as nat;
    let mut entries: Vec<(u8, i32)> = Vec::new();
    let mut slots: Vec<i32> = vec![-1i32; 256];
    let mut pos: usize = 4;
    let mut k: u32 = 0;
    while k < n
        invariant
            4 <= d@.len(),
            n == read_le32(d@, 0),
            nn == n as nat,
            k <= n,
            pos == 4 + 5 * k,
            pos <= d@.len(),
            entries@.len() == k,
            slots@.len() == 256,
            forall|i: int| 0 <= i < k ==> #[trigger] header_entry(d@, i).1 <= i32::MAX,
            forall|i: int, j: int|
                0 <= i < j < k ==> #[trigger] header_entry(d@, i).0 != #[trigger] header_entry(
                    d@,
                    j,
                ).0,
            forall|i: int|
                0 <= i < k ==> #[trigger] entries@[i] == (
                    header_entry(d@, i).0,
                    header_entry(d@, i).1 as i32,
                ),
            forall|b: int|
                0 <= b < 256 ==> #[trigger] slots@[b] == match count_of(entries@, b as u8) {
                    Some(c) => c,
                    None => -1i32,
                },
        decreases n - k,
    {
        if d.len() - pos < 5 {
            assert(d@.len() < 5 * nn + 5);
            return Err(HuffmanError::Format);
        }
        let symbol = d[pos];
        let count = read_u32_le(d, pos + 1);
        assert(header_entry(d@, k as int) == (symbol, count));
        if count > 2147483647u32 {
            assert(header_entry(d@, k as int).1 > i32::MAX);
            assert((k as int) < nn);
            assert(!(forall|i: int| 0 <= i < nn ==> #[trigger] header_entry(d@, i).1 <= i32::MAX));
            return Err(HuffmanError::Format);
        }
        proof {
            lemma_count_of(entries@, symbol);
            assert forall|i: int| 0 <= i < k implies entries@[i].1 >= 0 by {
                assert(header_entry(d@, i).1 <= i32::MAX);
            }
        }
        if slots[symbol as usize] != -1 {
            proof {
                let c = count_of(entries@, symbol).unwrap();
                let i = choose|i: int| 0 <= i < entries@.len() && entries@[i] == (symbol, c);
                assert(header_entry(d@, i).0 == header_entry(d@, k as int).0);
                assert(!(forall|a: int, b: int|
                    0 <= a < b < nn ==> #[trigger] header_entry(d@, a).0 != #[trigger] header_entry(
                        d@,
                        b,
                    ).0));
            }
            return Err(HuffmanError::Format);
        }
        proof {
            assert forall|i: int| 0 <= i < k implies header_entry(d@, i).0 != symbol by {
                assert(entries@[i].0 == header_entry(d@, i).0);
            }
        }
        let ghost before = entries@;
        entries.push((symbol, count as i32));
        slots.set(symbol as usize, count as i32);
        proof {
            assert(entries@.drop_last() =~= before);
            assert forall|b: int| 0 <= b < 256 implies #[trigger] slots@[b] == match count_of(
                entries@,
                b as u8,
            ) {
                Some(c) => c,
                None => -1i32,
            } by {
                if b != symbol as int {
                    assert(b as u8 != symbol);
                }
            }
        }
        pos = pos + 5;
        k = k + 1;
    }
    if pos >= d.len() {
        return Err(HuffmanError::Format);
    }
    proof {
        assert(entries@ =~= raw_entries(d@, nn));
        assert forall|i: int| 0 <= i < k implies entries@[i].1 >= 0 by {
            assert(header_entry(d@, i).1 <= i32::MAX);
        }
    }
    let mut table: Vec<(u8, i32)> = Vec::new();
    let mut b: usize = 0;
    while b < 256
        invariant
            b <= 256,
            slots@.len() == 256,
            forall|i: int| 0 <= i < entries@.len() ==> entries@[i].1 >= 0,
            forall|x: int|
                0 <= x < 256 ==> #[trigger] slots@[x] == match count_of(entries@, x as u8) {
                    Some(c) => c,
                    None => -1i32,
                },
            table@ == sorted_below(entries@, b as nat),
        decreases 256 - b,
    {
        proof {
            lemma_count_of(entries@, b as u8);
        }
        let c = slots[b];
        if c >= 0 {
            table.push((b as u8, c));
        }
        b = b + 1;
    }
    Ok((FrequencyTable { entries: table }, pos + 1))
}

} // verus!
