//! Bit sequences and their packing into bytes, most significant bit first.

use vstd::prelude::*;

verus! {

/// Bit `k` (0 = most significant) of `byte`.
pub open spec fn bit_of(byte: u8, k: int) -> bool {
    (byte >> ((7 - k) as u8)) & 1u8 == 1u8
}

/// The bits of `bytes`, eight per byte, most significant bit first.
pub open spec fn bits_of(bytes: Seq<u8>) -> Seq<bool> {
    Seq::new(8 * bytes.len(), |i: int| bit_of(bytes[i / 8], i % 8))
}

/// `n` zero bits.
pub open spec fn zero_bits(n: nat) -> Seq<bool> {
    Seq::new(n, |i: int| false)
}

/// The number of zero bits that brings `n` bits up to a whole number of bytes.
pub open spec fn padding_for(n: nat) -> nat {
    ((8 - n % 8) % 8) as nat
}

proof fn lemma_bit_set(b: u8, j: u8, t: u8)
    requires
        j < 8,
        t < 8,
    ensures
        bit_of(b | (1u8 << (7 - j) as u8), t as int) == (t == j || bit_of(b, t as int)),
{
    assert(((b | (1u8 << (7 - j) as u8)) >> (7 - t) as u8) & 1u8 == 1u8 <==> (t == j || (b >> (7
        - t) as u8) & 1u8 == 1u8)) by (bit_vector)
        requires
            j < 8,
            t < 8,
    ;
}

proof fn lemma_zero_bits(t: u8)
    requires
        t < 8,
    ensures
        !bit_of(0u8, t as int),
{
    assert((0u8 >> (7 - t) as u8) & 1u8 == 0u8) by (bit_vector);
}

proof fn lemma_byte_from_bits(x: u8, y: u8)
    requires
        forall|t: int| 0 <= t < 8 ==> #[trigger] bit_of(x, t) == bit_of(y, t),
    ensures
        x == y,
{
    assert(bit_of(x, 0) == bit_of(y, 0));
    assert(bit_of(x, 1) == bit_of(y, 1));
    assert(bit_of(x, 2) == bit_of(y, 2));
    assert(bit_of(x, 3) == bit_of(y, 3));
    assert(bit_of(x, 4) == bit_of(y, 4));
    assert(bit_of(x, 5) == bit_of(y, 5));
    assert(bit_of(x, 6) == bit_of(y, 6));
    assert(bit_of(x, 7) == bit_of(y, 7));
    assert((((x >> 7u8) & 1u8 == 1u8) == ((y >> 7u8) & 1u8 == 1u8) && ((x >> 6u8) & 1u8 == 1u8)
        == ((y >> 6u8) & 1u8 == 1u8) && ((x >> 5u8) & 1u8 == 1u8) == ((y >> 5u8) & 1u8 == 1u8) && ((x
        >> 4u8) & 1u8 == 1u8) == ((y >> 4u8) & 1u8 == 1u8) && ((x >> 3u8) & 1u8 == 1u8) == ((y
        >> 3u8) & 1u8 == 1u8) && ((x >> 2u8) & 1u8 == 1u8) == ((y >> 2u8) & 1u8 == 1u8) && ((x
        >> 1u8) & 1u8 == 1u8) == ((y >> 1u8) & 1u8 == 1u8) && ((x >> 0u8) & 1u8 == 1u8) == ((y
        >> 0u8) & 1u8 == 1u8)) ==> x == y) by (bit_vector);
}

/// Bytes are determined by their bits.
pub proof fn lemma_bits_of_injective(a: Seq<u8>, b: Seq<u8>)
    requires
        bits_of(a) == bits_of(b),
    ensures
        a == b,
{
    assert(bits_of(a).len() == 8 * a.len());
    assert(bits_of(b).len() == 8 * b.len());
    assert(a.len() == b.len());
    assert forall|k: int| 0 <= k < a.len() implies a[k] == b[k] by {
        assert forall|t: int| 0 <= t < 8 implies #[trigger] bit_of(a[k], t) == bit_of(b[k], t) by {
            let p = 8 * k + t;
            assert(p / 8 == k && p % 8 == t);
            assert(0 <= p < 8 * a.len());
            assert(bits_of(a)[p] == bit_of(a[p / 8], p % 8));
            assert(bits_of(b)[p] == bit_of(b[p / 8], p % 8));
            assert(bits_of(a)[p] == bits_of(b)[p]);
        }
        lemma_byte_from_bits(a[k], b[k]);
    }
    assert(a =~= b);
}

/// Packs `bits`, whose length is a multiple of eight, into bytes, most
/// significant bit first.
pub fn pack_bits(bits: &Vec<bool>) -> (r: Vec<u8>)
    requires
        bits@.len() % 8 == 0,
    ensures
        r@.len() == bits@.len() / 8,
        bits_of(r@) == bits@,
{
    let n: usize = bits.len() / 8;
    let mut out: Vec<u8> = Vec::new();
    let mut i: usize = 0;
    while i < n
        invariant
            n == bits@.len() / 8,
            bits@.len() % 8 == 0,
            bits@.len() <= usize::MAX,
            i <= n,
            out@.len() == i,
            forall|p: int| 0 <= p < 8 * i ==> #[trigger] bit_of(out@[p / 8], p % 8) == bits@[p],
        decreases n - i,
    {
        proof {
            assert forall|t: int| 0 <= t < 8 implies !#[trigger] bit_of(0u8, t) by {
                lemma_zero_bits(t as u8);
            }
            assert(8 * i + 8 <= 8 * n) by (nonlinear_arith)
                requires
                    i < n,
            ;
            assert(8 * n == bits@.len());
        }
        let mut byte: u8 = 0;
        let mut j: usize = 0;
        while j < 8
            invariant
                i < n,
                n == bits@.len() / 8,
                8 * i + 8 <= bits@.len(),
                bits@.len() <= usize::MAX,
                j <= 8,
                forall|t: int|
                    0 <= t < 8 ==> #[trigger] bit_of(byte, t) == (t < j && bits@[8 * i + t]),
            decreases 8 - j,
        {
            let old_byte = byte;
            if bits[8 * i + j] {
                byte = byte | (1u8 << (7 - j as u8));
            }
            assert forall|t: int| 0 <= t < 8 implies #[trigger] bit_of(byte, t) == (t < j + 1
                && bits@[8 * i + t]) by {
                lemma_bit_set(old_byte, j as u8, t as u8);
            }
            j = j + 1;
        }
        out.push(byte);
        assert forall|p: int| 0 <= p < 8 * (i + 1) implies #[trigger] bit_of(out@[p / 8], p % 8)
            == bits@[p] by {
            if p >= 8 * i {
                assert(p / 8 == i);
                assert(8 * i + p % 8 == p);
            }
        }
        i = i + 1;
    }
    assert(bits_of(out@) =~= bits@);
    out
}

/// Expands `bytes` into their bits, most significant bit first.
pub fn unpack_bits(bytes: &[u8]) -> (r: Vec<bool>)
    ensures
        r@ == bits_of(bytes@),
{
    let mut out: Vec<bool> = Vec::new();
    let mut i: usize = 0;
    while i < bytes.len()
        invariant
            i <= bytes@.len(),
            out@.len() == 8 * i,
            forall|p: int| 0 <= p < 8 * i ==> #[trigger] out@[p] == bit_of(bytes@[p / 8], p % 8),
        decreases bytes@.len() - i,
    {
        let byte = bytes[i];
        let mut j: u8 = 0;
        while j < 8
            invariant
                i < bytes@.len(),
                byte == bytes@[i as int],
                j <= 8,
                out@.len() == 8 * i + j,
                forall|p: int|
                    0 <= p < 8 * i + j ==> #[trigger] out@[p] == bit_of(bytes@[p / 8], p % 8),
            decreases 8 - j,
        {
            out.push((byte >> (7 - j)) & 1u8 == 1u8);
            assert(((8 * i + j) as int) / 8 == i);
            assert(((8 * i + j) as int) % 8 == j);
            j = j + 1;
        }
        i = i + 1;
    }
    assert(out@ =~= bits_of(bytes@));
    out
}

} // verus!
