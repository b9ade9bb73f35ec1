//! Facts about single bits of a 64-bit word.

use vstd::prelude::*;

verus! {

/// Bit `j` of `word` is set.
pub open spec fn bit_set(word: u64, j: u64) -> bool {
    (word >> j) & 1u64 == 1u64
}

/// Clearing the lowest set bit (`word & (word - 1)`) clears bit `t`, the lowest
/// set bit, and keeps every other bit; the result is smaller than `word`.
pub proof fn lemma_clear_lowest_bit(word: u64, t: u64, j: u64)
    requires
        word != 0,
        t < 64,
        j < 64,
        (word >> t) & 1u64 == 1u64,
        word << ((64 - t) as u64) == 0,
    ensures
        bit_set(word & ((word - 1) as u64), j) == (j != t && bit_set(word, j)),
        word & ((word - 1) as u64) < word,
{
    assert(((word & ((word - 1) as u64)) >> j) & 1u64 == 1u64 <==> (j != t && (word >> j) & 1u64 == 1u64))
        by (bit_vector)
        requires
            word != 0,
            t < 64,
            j < 64,
            (word >> t) & 1u64 == 1u64,
            word << ((64 - t) as u64) == 0,
    ;
    assert(word & ((word - 1) as u64) < word) by (bit_vector)
        requires
            word != 0,
    ;
}

/// Setting bit `j` with `word | (1 << j)` sets bit `j` and keeps every other bit.
pub proof fn lemma_set_bit(word: u64, j: u64, x: u64)
    requires
        j < 64,
        x < 64,
    ensures
        bit_set(word | (1u64 << j), x) == (x == j || bit_set(word, x)),
{
    assert(((word | (1u64 << j)) >> x) & 1u64 == 1u64 <==> (x == j || (word >> x) & 1u64 == 1u64))
        by (bit_vector)
        requires
            j < 64,
            x < 64,
    ;
}

/// No bit of zero is set.
pub proof fn lemma_zero_has_no_bits(x: u64)
    requires
        x < 64,
    ensures
        !bit_set(0u64, x),
{
    assert((0u64 >> x) & 1u64 != 1u64) by (bit_vector);
}

} // verus!
