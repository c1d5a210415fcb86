use vstd::prelude::*;

verus! {

/// Bit `i` of `x` is set.
pub open spec fn bit(x: u64, i: u64) -> bool {
    i < 64 && (x >> i) & 1 == 1
}

/// Number of set bits of `x` among bits `0 .. n`.
pub open spec fn count_bits(x: u64, n: nat) -> nat
    decreases n,
{
    if n == 0 {
        0
    } else {
        count_bits(x, (n - 1) as nat) + if bit(x, (n - 1) as u64) {
            1nat
        } else {
            0nat
        }
    }
}

/// Population count of a 64-bit word.
pub open spec fn popcount(x: u64) -> nat {
    count_bits(x, 64)
}

pub proof fn lemma_bit_of_or_single(x: u64, k: u64, i: u64)
    requires
        k < 64,
        i < 64,
    ensures
        ((x | (1u64 << k)) >> i) & 1 == if i == k {
            1u64
        } else {
            (x >> i) & 1
        },
{
    assert(((x | (1u64 << k)) >> i) & 1 == if i == k {
        1u64
    } else {
        (x >> i) & 1
    }) by (bit_vector)
        requires
            k < 64,
            i < 64,
    ;
}

/// Setting one clear bit raises the count below `n` by one exactly when the bit lies below `n`.
pub proof fn lemma_count_set_bit(x: u64, k: u64, n: nat)
    requires
        k < 64,
        n <= 64,
        !bit(x, k),
    ensures
        count_bits(x | (1u64 << k), n) == count_bits(x, n) + if (k as nat) < n {
            1nat
        } else {
            0nat
        },
    decreases n,
{
    if n > 0 {
        lemma_count_set_bit(x, k, (n - 1) as nat);
        lemma_bit_of_or_single(x, k, (n - 1) as u64);
    }
}

/// The zero word has no set bit.
pub proof fn lemma_count_zero(n: nat)
    requires
        n <= 64,
    ensures
        count_bits(0, n) == 0,
    decreases n,
{
    if n > 0 {
        lemma_count_zero((n - 1) as nat);
        let i = (n - 1) as u64;
        assert((0u64 >> i) & 1 == 0) by (bit_vector);
    }
}

/// A nonzero word has a set bit.
pub proof fn lemma_nonzero_has_bit(y: u64) -> (i: u64)
    requires
        y != 0,
    ensures
        i < 64,
        bit(y, i),
    decreases y,
{
    if y & 1 == 1 {
        assert((y >> 0u64) == y) by (bit_vector);
        0
    } else {
        let z = y >> 1u64;
        assert(z != 0 && z < y) by (bit_vector)
            requires
                y != 0,
                y & 1 != 1,
                z == y >> 1u64,
        ;
        let j = lemma_nonzero_has_bit(z);
        assert((z >> 63u64) & 1 == 0) by (bit_vector)
            requires
                z == y >> 1u64,
        ;
        assert(j < 63);
        assert((y >> (j + 1)) & 1 == (z >> j) & 1) by (bit_vector)
            requires
                z == y >> 1u64,
                j < 63,
        ;
        (j + 1) as u64
    }
}

/// A word with a set bit is nonzero.
pub proof fn lemma_bit_implies_nonzero(y: u64, i: u64)
    requires
        bit(y, i),
    ensures
        y != 0,
{
    assert(y != 0) by (bit_vector)
        requires
            i < 64,
            (y >> i) & 1 == 1,
    ;
}

/// The set bits of `x` are among those of `y`: `x` has no more below `n`, and as many only when
/// the two agree on every bit below `n`.
pub proof fn lemma_subset_count(x: u64, y: u64, n: nat)
    requires
        x & !y == 0,
        n <= 64,
    ensures
        count_bits(x, n) <= count_bits(y, n),
        count_bits(x, n) == count_bits(y, n) ==> forall|i: u64| i < n ==> #[trigger] bit(x, i)
            == bit(y, i),
    decreases n,
{
    if n > 0 {
        let k = (n - 1) as u64;
        lemma_subset_count(x, y, (n - 1) as nat);
        assert((x >> k) & 1 == 1 ==> (y >> k) & 1 == 1) by (bit_vector)
            requires
                x & !y == 0,
                k < 64,
        ;
    }
}

/// Two words that agree on every bit are equal.
pub proof fn lemma_bits_equal(x: u64, y: u64)
    requires
        forall|i: u64| i < 64 ==> #[trigger] bit(x, i) == bit(y, i),
    ensures
        x == y,
{
    if x != y {
        let z: u64 = x ^ y;
        assert(z != 0) by (bit_vector)
            requires
                x != y,
                z == x ^ y,
        ;
        let k = lemma_nonzero_has_bit(z);
        assert(((x >> k) & 1 == 1) != ((y >> k) & 1 == 1)) by (bit_vector)
            requires
                z == x ^ y,
                k < 64,
                (z >> k) & 1 == 1,
        ;
        assert(bit(x, k) == bit(y, k));
    }
}

} // verus!
