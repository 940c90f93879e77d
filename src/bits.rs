//! Bit-level facts about `u64` values used as sets of cell indices.
use vstd::prelude::*;

verus! {

/// Bit `i` of `x` is set.
pub open spec fn bit(x: u64, i: u64) -> bool {
    (x >> i) & 1u64 == 1u64
}

/// Testing a bit with a one-bit mask agrees with `bit`.
pub proof fn lemma_mask_test(x: u64, i: u64)
    requires
        i < 64,
    ensures
        (x & (1u64 << i) != 0) == bit(x, i),
{
    assert((x & (1u64 << i) != 0) == ((x >> i) & 1u64 == 1u64)) by (bit_vector)
        requires
            i < 64,
    ;
}

/// Setting bit `i` sets exactly that bit and keeps every other one.
pub proof fn lemma_set_bit(x: u64, i: u64, j: u64)
    requires
        i < 64,
        j < 64,
    ensures
        bit(x | (1u64 << i), j) == (bit(x, j) || i == j),
{
    assert((((x | (1u64 << i)) >> j) & 1u64 == 1u64) == (((x >> j) & 1u64 == 1u64) || i == j))
        by (bit_vector)
        requires
            i < 64,
            j < 64,
    ;
}

/// A bit of a conjunction is the conjunction of the bits.
pub proof fn lemma_and_bit(x: u64, y: u64, j: u64)
    requires
        j < 64,
    ensures
        bit(x & y, j) == (bit(x, j) && bit(y, j)),
{
    assert((((x & y) >> j) & 1u64 == 1u64) == (((x >> j) & 1u64 == 1u64) && ((y >> j) & 1u64
        == 1u64))) by (bit_vector)
        requires
            j < 64,
    ;
}

/// A bit of a union is the disjunction of the bits.
pub proof fn lemma_or_bit(x: u64, y: u64, j: u64)
    requires
        j < 64,
    ensures
        bit(x | y, j) == (bit(x, j) || bit(y, j)),
{
    assert((((x | y) >> j) & 1u64 == 1u64) == (((x >> j) & 1u64 == 1u64) || ((y >> j) & 1u64
        == 1u64))) by (bit_vector)
        requires
            j < 64,
    ;
}

/// Shifting right by `k` moves bit `j + k` down to bit `j`.
pub proof fn lemma_shr_bit(x: u64, k: u64, j: u64)
    requires
        j + k < 64,
    ensures
        bit(x >> k, j) == bit(x, (j + k) as u64),
{
    assert((((x >> k) >> j) & 1u64 == 1u64) == ((x >> ((j + k) as u64)) & 1u64 == 1u64))
        by (bit_vector)
        requires
            j + k < 64,
    ;
}

/// Setting a bit that `y` lacks keeps `x` disjoint from `y`.
pub proof fn lemma_set_bit_disjoint(x: u64, y: u64, i: u64)
    requires
        i < 64,
        x & y == 0,
        !bit(y, i),
    ensures
        (x | (1u64 << i)) & y == 0,
        y & (x | (1u64 << i)) == 0,
{
    assert((x | (1u64 << i)) & y == 0 && y & (x | (1u64 << i)) == 0) by (bit_vector)
        requires
            i < 64,
            x & y == 0,
            (y >> i) & 1u64 != 1u64,
    ;
}

/// Setting a bit below `n` keeps every bit from `n` on clear.
pub proof fn lemma_set_bit_below(x: u64, i: u64, n: u64)
    requires
        i < n,
        n < 64,
        x >> n == 0,
    ensures
        (x | (1u64 << i)) >> n == 0,
{
    assert((x | (1u64 << i)) >> n == 0) by (bit_vector)
        requires
            i < n,
            n < 64,
            x >> n == 0,
    ;
}

/// No bit of zero is set.
pub proof fn lemma_zero_bit(j: u64)
    ensures
        !bit(0u64, j),
{
    assert(!((0u64 >> j) & 1u64 == 1u64)) by (bit_vector);
}

/// A value is nonzero exactly when one of its 64 bits is set.
pub proof fn lemma_nonzero_bit(x: u64)
    ensures
        (x != 0) == (exists|j: u64| j < 64 && #[trigger] bit(x, j)),
{
    if x != 0 {
        lemma_nonzero_below(x, 64);
    } else {
        assert forall|j: u64| j < 64 implies !#[trigger] bit(x, j) by {
            lemma_zero_bit(j);
        }
    }
}

proof fn lemma_nonzero_below(x: u64, n: u64)
    requires
        x != 0,
        n <= 64,
        n == 64 || x >> n == 0,
    ensures
        exists|j: u64| j < n && #[trigger] bit(x, j),
    decreases n,
{
    if n == 0 {
        assert(x >> 0u64 == x) by (bit_vector);
    } else if bit(x, (n - 1) as u64) {
        assert(bit(x, (n - 1) as u64));
    } else {
        let m = (n - 1) as u64;
        assert(x >> m == 0) by (bit_vector)
            requires
                m < 64,
                m == 63 || x >> ((m + 1) as u64) == 0,
                (x >> m) & 1u64 != 1u64,
        ;
        lemma_nonzero_below(x, m);
    }
}

} // verus!
