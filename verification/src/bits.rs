//! Single-bit view of 64-bit words and the facts about masks that the
//! bitmap code relies on.

use vstd::prelude::*;

verus! {

/// Whether bit `c` (0 = least significant) of `w` is set.
pub open spec fn word_bit(w: u64, c: u64) -> bool {
    (w >> c) & 1u64 == 1u64
}

/// A word with exactly bit `b` set tests non-zero against `w` iff bit `b` of `w` is set.
pub proof fn lemma_mask_test(w: u64, b: u64)
    requires
        b < 64,
    ensures
        ((w & (1u64 << b)) != 0u64) == word_bit(w, b),
{
    assert(((w & (1u64 << b)) != 0u64) == ((w >> b) & 1u64 == 1u64)) by (bit_vector)
        requires
            b < 64,
    ;
}

/// Setting bit `b` sets exactly that bit.
pub proof fn lemma_or_bit(w: u64, b: u64)
    requires
        b < 64,
    ensures
        forall|c: u64| c < 64 ==> #[trigger] word_bit(w | (1u64 << b), c) == (c == b || word_bit(w, c)),
{
    assert forall|c: u64| c < 64 implies #[trigger] word_bit(w | (1u64 << b), c) == (c == b
        || word_bit(w, c)) by {
        assert((((w | (1u64 << b)) >> c) & 1u64 == 1u64) == (c == b || ((w >> c) & 1u64
            == 1u64))) by (bit_vector)
            requires
                b < 64,
                c < 64,
        ;
    }
}

/// Clearing with a mask keeps exactly the bits that are not in the mask.
pub proof fn lemma_and_not(w: u64, m: u64)
    ensures
        forall|c: u64| c < 64 ==> #[trigger] word_bit(w & !m, c) == (word_bit(w, c) && !word_bit(m, c)),
{
    assert forall|c: u64| c < 64 implies #[trigger] word_bit(w & !m, c) == (word_bit(w, c)
        && !word_bit(m, c)) by {
        assert((((w & !m) >> c) & 1u64 == 1u64) == (((w >> c) & 1u64 == 1u64) && !((m >> c)
            & 1u64 == 1u64))) by (bit_vector)
            requires
                c < 64,
        ;
    }
}

/// The bits of a conjunction of masks.
pub proof fn lemma_and(a: u64, b: u64)
    ensures
        forall|c: u64| c < 64 ==> #[trigger] word_bit(a & b, c) == (word_bit(a, c) && word_bit(b, c)),
{
    assert forall|c: u64| c < 64 implies #[trigger] word_bit(a & b, c) == (word_bit(a, c)
        && word_bit(b, c)) by {
        assert((((a & b) >> c) & 1u64 == 1u64) == (((a >> c) & 1u64 == 1u64) && ((b >> c) & 1u64
            == 1u64))) by (bit_vector)
            requires
                c < 64,
        ;
    }
}

/// The zero word has no bit set.
pub proof fn lemma_zero_word()
    ensures
        forall|c: u64| c < 64 ==> !#[trigger] word_bit(0u64, c),
{
    assert forall|c: u64| c < 64 implies !#[trigger] word_bit(0u64, c) by {
        assert(((0u64 >> c) & 1u64) == 0u64) by (bit_vector);
    }
}

} // verus!
