//! Facts about single bits of a 64-bit word.
use vstd::prelude::*;

verus! {

/// Bit `k` of `w` is set.
pub open spec fn bit(w: u64, k: u64) -> bool {
    (w >> k) & 1u64 == 1u64
}

/// Setting bit `k` changes only that bit.
pub proof fn lemma_bit_set(w: u64, k: u64, j: u64)
    requires
        k < 64,
        j < 64,
    ensures
        bit(w | (1u64 << k), j) == (j == k || bit(w, j)),
{
    assert(((w | (1u64 << k)) >> j) & 1u64 == 1u64 <==> (j == k || (w >> j) & 1u64 == 1u64))
        by (bit_vector)
        requires
            k < 64,
            j < 64,
    ;
}

/// Clearing bit `k` changes only that bit.
pub proof fn lemma_bit_clear(w: u64, k: u64, j: u64)
    requires
        k < 64,
        j < 64,
    ensures
        bit(w & !(1u64 << k), j) == (j != k && bit(w, j)),
{
    assert(((w & !(1u64 << k)) >> j) & 1u64 == 1u64 <==> (j != k && (w >> j) & 1u64 == 1u64))
        by (bit_vector)
        requires
            k < 64,
            j < 64,
    ;
}

/// The empty word has no bit set, and a word with a bit set is not empty.
pub proof fn lemma_bit_of_zero(w: u64, j: u64)
    requires
        j < 64,
    ensures
        w == 0 ==> !bit(w, j),
        bit(w, j) ==> w != 0,
{
    assert(w == 0 ==> (w >> j) & 1u64 != 1u64) by (bit_vector);
}

/// A non-empty word has its lowest set bit at `trailing_zeros`, and no set bit below it.
pub proof fn lemma_lowest_bit(w: u64)
    ensures
        w == 0 <==> w.trailing_zeros() == 64,
        w != 0 ==> w.trailing_zeros() < 64 && bit(w, w.trailing_zeros() as u64),
        forall|j: u64| j < w.trailing_zeros() ==> !#[trigger] bit(w, j),
{
    vstd::std_specs::bits::axiom_u64_trailing_zeros(w);
    assert forall|j: u64| j < w.trailing_zeros() implies !#[trigger] bit(w, j) by {
        assert((w >> j) & 1u64 == 0u64);
    }
}

/// A word made of the bits `lo..hi`.
pub open spec fn range_mask(lo: u64, hi: u64) -> u64 {
    if lo >= hi {
        0
    } else if hi >= 64 {
        !(((1u64 << lo) - 1) as u64)
    } else {
        (((1u64 << hi) - 1) as u64) & !(((1u64 << lo) - 1) as u64)
    }
}

/// The bits of `range_mask(lo, hi)` are exactly those from `lo` up to `hi`.
pub proof fn lemma_range_mask(lo: u64, hi: u64, j: u64)
    requires
        lo <= 64,
        hi <= 64,
        j < 64,
    ensures
        bit(range_mask(lo, hi), j) == (lo <= j && j < hi),
{
    if lo >= hi {
        lemma_bit_of_zero(0, j);
    } else if hi >= 64 {
        assert(lo < 64);
        assert((((!(((1u64 << lo) - 1) as u64)) >> j) & 1u64 == 1u64) == (lo <= j)) by (bit_vector)
            requires
                lo < 64,
                j < 64,
        ;
    } else {
        assert(((((((1u64 << hi) - 1) as u64) & !(((1u64 << lo) - 1) as u64)) >> j) & 1u64 == 1u64)
            == (lo <= j && j < hi)) by (bit_vector)
            requires
                lo < hi,
                hi < 64,
                j < 64,
        ;
    }
}

/// Computes `range_mask(lo, hi)`.
pub fn make_range_mask(lo: u64, hi: u64) -> (r: u64)
    requires
        lo <= 64,
        hi <= 64,
    ensures
        r == range_mask(lo, hi),
{
    if lo >= hi {
        0
    } else if hi >= 64 {
        assert(1u64 << lo >= 1) by (bit_vector)
            requires
                lo < 64,
        ;
        !((1u64 << lo) - 1)
    } else {
        assert(1u64 << lo >= 1 && 1u64 << hi >= 1) by (bit_vector)
            requires
                lo < 64,
                hi < 64,
        ;
        ((1u64 << hi) - 1) & !((1u64 << lo) - 1)
    }
}

} // verus!
