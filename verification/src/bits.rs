//! Bit-level model shared by the board and the searcher: single bits of a
//! 64-bit occupancy mask, and the number of bits set below an index.

use vstd::prelude::*;

verus! {

/// True when bit `i` of `m` is set; false for any index outside 0..64.
pub open spec fn bit_set(m: u64, i: u64) -> bool {
    i < 64 && (m >> i) & 1u64 == 1u64
}

/// The mask with exactly bit `i` set, or 0 when `i` is out of range.
pub open spec fn bit_mask(i: u64) -> u64 {
    if i < 64 {
        1u64 << i
    } else {
        0u64
    }
}

/// How many of the bits 0..n of `m` are set.
pub open spec fn count_bits_below(m: u64, n: int) -> nat
    decreases n,
{
    if n <= 0 {
        0
    } else {
        count_bits_below(m, n - 1) + (if bit_set(m, (n - 1) as u64) {
            1nat
        } else {
            0nat
        })
    }
}

pub broadcast proof fn lemma_bit_or(a: u64, b: u64, i: u64)
    ensures
        #[trigger] bit_set(a | b, i) == (bit_set(a, i) || bit_set(b, i)),
{
    assert(i < 64 ==> (((a | b) >> i) & 1u64 == 1u64) == ((a >> i) & 1u64 == 1u64 || (b >> i)
        & 1u64 == 1u64)) by (bit_vector);
}

pub broadcast proof fn lemma_bit_mask_bit(i: u64, j: u64)
    ensures
        #[trigger] bit_set(bit_mask(j), i) == (i == j && i < 64),
{
    assert(j < 64 && i < 64 ==> (((1u64 << j) >> i) & 1u64 == 1u64) == (i == j)) by (bit_vector);
    assert(bit_set(0u64, i) == false) by (bit_vector);
}

pub proof fn lemma_zero_bits(i: u64)
    ensures
        !bit_set(0u64, i),
{
    assert((0u64 >> i) & 1u64 == 0u64) by (bit_vector);
}

/// Testing a mask against a single-bit mask reads exactly that bit.
pub proof fn lemma_single_bit_test(m: u64, i: u64)
    requires
        i < 64,
    ensures
        (m & (1u64 << i) != 0) == bit_set(m, i),
{
    assert(i < 64 ==> ((m & (1u64 << i) != 0) == ((m >> i) & 1u64 == 1u64))) by (bit_vector);
}

/// A mask with one more bit set is still non-zero.
pub proof fn lemma_or_mask_nonzero(m: u64, i: u64)
    requires
        i < 64,
    ensures
        m | (1u64 << i) != 0,
{
    assert(i < 64 ==> m | (1u64 << i) != 0) by (bit_vector);
}

pub proof fn lemma_or_zero(m: u64)
    ensures
        m | 0u64 == m,
        0u64 | m == m,
{
    assert(m | 0u64 == m && 0u64 | m == m) by (bit_vector);
}

/// Rearranging a union: attaching a freshly scanned cell to the run already
/// collected commutes with attaching it at the far end.
pub proof fn lemma_or_rearrange(m: u64, b: u64, l: u64)
    ensures
        (m | b) | l == m | (l | b),
{
    assert((m | b) | l == m | (l | b)) by (bit_vector);
}

pub proof fn lemma_or_comm(a: u64, b: u64)
    ensures
        a | b == b | a,
{
    assert(a | b == b | a) by (bit_vector);
}

pub proof fn lemma_and_comm(a: u64, b: u64)
    ensures
        a & b == b & a,
{
    assert(a & b == b & a) by (bit_vector);
}

/// Two masks inside `o` union to a mask inside `o`.
pub proof fn lemma_subset_or(a: u64, b: u64, o: u64)
    requires
        a & !o == 0,
        b & !o == 0,
    ensures
        (a | b) & !o == 0,
{
    assert(a & !o == 0 && b & !o == 0 ==> (a | b) & !o == 0) by (bit_vector);
}

/// A single bit of `o` is a mask inside `o`.
pub proof fn lemma_bit_subset(o: u64, i: u64)
    requires
        bit_set(o, i),
    ensures
        bit_mask(i) & !o == 0,
{
    assert(i < 64 && (o >> i) & 1u64 == 1u64 ==> (1u64 << i) & !o == 0) by (bit_vector);
}

/// After a capture-resolving placement the two sides stay disjoint: the mover
/// gains the placed bit `p` and the flipped run `f`; the opponent loses `f`.
pub proof fn lemma_place_disjoint(me: u64, opp: u64, p: u64, f: u64)
    requires
        me & opp == 0,
        f & !opp == 0,
        (me | opp) & p == 0,
    ensures
        (me | p | f) & (opp & !f) == 0,
{
    assert(me & opp == 0 && f & !opp == 0 && (me | opp) & p == 0 ==> (me | p | f) & (opp & !f)
        == 0) by (bit_vector);
}

pub proof fn lemma_count_bits_le(m: u64, n: int)
    ensures
        count_bits_below(m, n) <= (if n >= 0 {
            n
        } else {
            0
        }),
    decreases n,
{
    if n > 0 {
        lemma_count_bits_le(m, n - 1);
    }
}

/// A clear bit below `n` keeps the count strictly under `n`.
pub proof fn lemma_count_bits_missing(m: u64, n: int, i: u64)
    requires
        0 <= i < n,
        !bit_set(m, i),
    ensures
        count_bits_below(m, n) < n,
    decreases n,
{
    if i == n - 1 {
        lemma_count_bits_le(m, n - 1);
    } else {
        lemma_count_bits_missing(m, n - 1, i);
    }
}

/// A single-bit mask counts one bit once.
pub proof fn lemma_count_single_bit(i: u64, n: int)
    requires
        i < 64,
        n <= 64,
    ensures
        count_bits_below(bit_mask(i), n) == (if i < n {
            1nat
        } else {
            0nat
        }),
    decreases n,
{
    if n > 0 {
        lemma_count_single_bit(i, n - 1);
        lemma_bit_mask_bit((n - 1) as u64, i);
    }
}

/// Counting distributes over a disjoint union of masks.
pub proof fn lemma_count_bits_disjoint(a: u64, b: u64, n: int)
    requires
        a & b == 0,
    ensures
        count_bits_below(a | b, n) == count_bits_below(a, n) + count_bits_below(b, n),
    decreases n,
{
    if n > 0 {
        lemma_count_bits_disjoint(a, b, n - 1);
        let i = (n - 1) as u64;
        lemma_bit_or(a, b, i);
        assert(a & b == 0 ==> !((a >> i) & 1u64 == 1u64 && (b >> i) & 1u64 == 1u64))
            by (bit_vector);
    }
}

} // verus!
