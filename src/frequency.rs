//! Counting how often each byte value occurs in an input.

use vstd::prelude::*;

verus! {

/// The number of times `b` occurs in `s`.
pub open spec fn occurrences(s: Seq<u8>, b: u8) -> nat
    decreases s.len(),
{
    if s.len() == 0 {
        0
    } else {
        occurrences(s.drop_last(), b) + if s.last() == b {
            1nat
        } else {
            0nat
        }
    }
}

/// The entries `(symbol, count)` of the frequency table of `s` for the
/// symbols below `n`, in ascending order of symbol; absent symbols have no entry.
pub open spec fn table_below(s: Seq<u8>, n: nat) -> Seq<(u8, i32)>
    decreases n,
{
    if n == 0 {
        seq![]
    } else {
        let prev = table_below(s, (n - 1) as nat);
        let c = occurrences(s, (n - 1) as u8);
        if c > 0 {
            prev.push(((n - 1) as u8, c as i32))
        } else {
            prev
        }
    }
}

/// The frequency table of `s`: one entry per byte value that occurs in `s`,
/// in ascending order of symbol.
pub open spec fn frequency_table(s: Seq<u8>) -> Seq<(u8, i32)> {
    table_below(s, 256)
}

/// A frequency table: symbols strictly ascending (so unique), counts non-negative.
pub open spec fn is_valid_table(t: Seq<(u8, i32)>) -> bool {
    &&& forall|i: int, j: int| 0 <= i < j < t.len() ==> t[i].0 < t[j].0
    &&& forall|i: int| 0 <= i < t.len() ==> t[i].1 >= 0
}

/// The sum of the counts of a table.
pub open spec fn table_total(t: Seq<(u8, i32)>) -> int
    decreases t.len(),
{
    if t.len() == 0 {
        0
    } else {
        table_total(t.drop_last()) + t.last().1
    }
}

/// The symbols that have an entry in a table.
pub open spec fn table_symbols(t: Seq<(u8, i32)>) -> Set<u8> {
    Set::new(|b: u8| exists|i: int| 0 <= i < t.len() && t[i].0 == b)
}

/// The sum of the occurrences in `s` of the byte values below `n`.
pub open spec fn occurrences_below(s: Seq<u8>, n: nat) -> int
    decreases n,
{
    if n == 0 {
        0
    } else {
        occurrences_below(s, (n - 1) as nat) + occurrences(s, (n - 1) as u8)
    }
}

proof fn lemma_occurrences_bounded(s: Seq<u8>, b: u8)
    ensures
        occurrences(s, b) <= s.len(),
    decreases s.len(),
{
    if s.len() > 0 {
        lemma_occurrences_bounded(s.drop_last(), b);
    }
}

proof fn lemma_occurrences_below_push(s: Seq<u8>, x: u8, n: nat)
    requires
        n <= 256,
    ensures
        occurrences_below(s.push(x), n) == occurrences_below(s, n) + if (x as nat) < n {
            1int
        } else {
            0int
        },
    decreases n,
{
    assert(s.push(x).drop_last() =~= s);
    if n > 0 {
        lemma_occurrences_below_push(s, x, (n - 1) as nat);
    }
}

proof fn lemma_occurrences_below_empty(s: Seq<u8>, n: nat)
    requires
        s.len() == 0,
    ensures
        occurrences_below(s, n) == 0,
    decreases n,
{
    if n > 0 {
        lemma_occurrences_below_empty(s, (n - 1) as nat);
    }
}

proof fn lemma_occurrences_total(s: Seq<u8>)
    ensures
        occurrences_below(s, 256) == s.len(),
    decreases s.len(),
{
    if s.len() > 0 {
        lemma_occurrences_total(s.drop_last());
        lemma_occurrences_below_push(s.drop_last(), s.last(), 256);
        assert(s.drop_last().push(s.last()) =~= s);
    } else {
        lemma_occurrences_below_empty(s, 256);
    }
}

proof fn lemma_table_below(s: Seq<u8>, n: nat)
    requires
        n <= 256,
        s.len() <= i32::MAX,
    ensures
        is_valid_table(table_below(s, n)),
        table_total(table_below(s, n)) == occurrences_below(s, n),
        forall|i: int|
            0 <= i < table_below(s, n).len() ==> {
                &&& (#[trigger] table_below(s, n)[i]).0 < n
                &&& table_below(s, n)[i].1 == occurrences(s, table_below(s, n)[i].0)
                &&& table_below(s, n)[i].1 > 0
            },
        forall|b: u8|
            (b as nat) < n && occurrences(s, b) > 0 ==> #[trigger] table_symbols(
                table_below(s, n),
            ).contains(b),
    decreases n,
{
    if n > 0 {
        let m = (n - 1) as nat;
        lemma_table_below(s, m);
        lemma_occurrences_bounded(s, m as u8);
        let prev = table_below(s, m);
        let t = table_below(s, n);
        if occurrences(s, m as u8) > 0 {
            assert(t.drop_last() =~= prev);
            assert forall|b: u8| (b as nat) < n && occurrences(s, b) > 0 implies #[trigger] table_symbols(
                t,
            ).contains(b) by {
                if (b as nat) < m {
                    assert(table_symbols(prev).contains(b));
                    let i = choose|i: int| 0 <= i < prev.len() && prev[i].0 == b;
                    assert(t[i].0 == b);
                } else {
                    assert(t[t.len() - 1].0 == b);
                }
            }
        }
    }
}

/// A symbol at some position of `s` occurs in `s`.
pub proof fn lemma_occurrences_positive(s: Seq<u8>, b: u8)
    requires
        s.contains(b),
    ensures
        occurrences(s, b) > 0,
    decreases s.len(),
{
    if s.last() != b {
        let i = choose|i: int| 0 <= i < s.len() && s[i] == b;
        assert(s.drop_last()[i] == b);
        lemma_occurrences_positive(s.drop_last(), b);
    }
}

/// The frequency table of `s` is valid, sums to the length of `s`, records
/// each symbol with its number of occurrences, and holds exactly the symbols
/// that occur.
pub proof fn lemma_frequency_table(s: Seq<u8>)
    requires
        s.len() <= i32::MAX,
    ensures
        is_valid_table(frequency_table(s)),
        table_total(frequency_table(s)) == s.len(),
        forall|i: int|
            0 <= i < frequency_table(s).len() ==> {
                &&& (#[trigger] frequency_table(s)[i]).1 == occurrences(s, frequency_table(s)[i].0)
                &&& frequency_table(s)[i].1 > 0
            },
        forall|b: u8|
            #[trigger] table_symbols(frequency_table(s)).contains(b) <==> occurrences(s, b) > 0,
{
    lemma_table_below(s, 256);
    lemma_occurrences_total(s);
    let t = frequency_table(s);
    assert forall|b: u8| #[trigger] table_symbols(t).contains(b) implies occurrences(s, b) > 0 by {
        let i = choose|i: int| 0 <= i < t.len() && t[i].0 == b;
        assert(t[i].1 > 0);
    }
}

/// A frequency table: `(symbol, count)` entries in ascending order of symbol.
#[derive(Debug)]
pub struct FrequencyTable {
    pub entries: Vec<(u8, i32)>,
}

impl View for FrequencyTable {
    type V = Seq<(u8, i32)>;

    open spec fn view(&self) -> Seq<(u8, i32)> {
        self.entries@
    }
}

/// Counts the occurrences of each byte value of `input`.
pub fn count_frequencies(input: &[u8]) -> (r: FrequencyTable)
    requires
        input@.len() <= i32::MAX,
    ensures
        r@ == frequency_table(input@),
{
    let mut counts: Vec<u32> = vec![0u32; 256];
    let mut k: usize = 0;
    while k < input.len()
        invariant
            k <= input@.len(),
            input@.len() <= i32::MAX,
            counts@.len() == 256,
            forall|b: int|
                0 <= b < 256 ==> #[trigger] counts@[b] == occurrences(
                    input@.subrange(0, k as int),
                    b as u8,
                ),
        decreases input@.len() - k,
    {
        let b = input[k];
        proof {
            assert(input@.subrange(0, k + 1).drop_last() =~= input@.subrange(0, k as int));
            lemma_occurrences_bounded(input@.subrange(0, k as int), b);
        }
        let c = counts[b as usize];
        counts.set(b as usize, c + 1);
        k = k + 1;
    }
    assert(input@.subrange(0, input@.len() as int) =~= input@);
    let mut entries: Vec<(u8, i32)> = Vec::new();
    let mut b: usize = 0;
    while b < 256
        invariant
            b <= 256,
            input@.len() <= i32::MAX,
            counts@.len() == 256,
            forall|x: int| 0 <= x < 256 ==> #[trigger] counts@[x] == occurrences(input@, x as u8),
            entries@ == table_below(input@, b as nat),
        decreases 256 - b,
    {
        let c = counts[b];
        proof {
            lemma_occurrences_bounded(input@, b as u8);
        }
        if c > 0 {
            entries.push((b as u8, c as i32));
        }
        b = b + 1;
    }
    FrequencyTable { entries }
}

} // verus!
