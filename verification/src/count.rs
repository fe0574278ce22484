//! Counting occupied cells: a bit-population count over the 64-bit masks,
//! with the lemmas that tie it to move application (each move occupies
//! exactly one new cell) and to the full board (64 occupied cells).

use vstd::prelude::*;

verus! {

/// The number of set bits among the low `n` bits of `x`.
pub open spec fn pcount(x: u64, n: nat) -> nat
    decreases n,
{
    if n == 0 {
        0
    } else {
        pcount(x, (n - 1) as nat) + (if (x >> ((n - 1) as u64)) & 1 == 1 {
            1nat
        } else {
            0nat
        })
    }
}

/// The empty mask has no set bits.
pub proof fn lemma_pcount_zero(n: nat)
    ensures
        pcount(0, n) == 0,
    decreases n,
{
    if n > 0 {
        lemma_pcount_zero((n - 1) as nat);
        let m: u64 = (n - 1) as u64;
        assert((0u64 >> m) & 1 == 0) by (bit_vector);
    }
}

/// At most `n` of the low `n` bits are set.
pub proof fn lemma_pcount_le(x: u64, n: nat)
    ensures
        pcount(x, n) <= n,
    decreases n,
{
    if n > 0 {
        lemma_pcount_le(x, (n - 1) as nat);
    }
}

/// How setting one bit changes each bit position.
proof fn lemma_or_bit_effect()
    by (bit_vector)
    ensures
        forall|x: u64, j: u64, k: u64|
            j < 64 && k < 64 && j != k ==> #[trigger] (((x | (1u64 << j)) >> k) & 1) == (x >> k)
                & 1,
        forall|x: u64, j: u64| j < 64 ==> #[trigger] (((x | (1u64 << j)) >> j) & 1) == 1,
{
}

proof fn lemma_pcount_set_bit_rec(x: u64, j: u64, n: nat)
    requires
        j < 64,
        (x >> j) & 1 == 0,
        n <= 64,
    ensures
        pcount(x | (1u64 << j), n) == pcount(x, n) + (if j < n {
            1nat
        } else {
            0nat
        }),
    decreases n,
{
    lemma_or_bit_effect();
    if n > 0 {
        lemma_pcount_set_bit_rec(x, j, (n - 1) as nat);
    }
}

/// Setting a fresh bit raises the population count by exactly one.
pub proof fn lemma_pcount_set_bit(x: u64, j: u64)
    requires
        j < 64,
        (x >> j) & 1 == 0,
    ensures
        pcount(x | (1u64 << j), 64) == pcount(x, 64) + 1,
{
    lemma_pcount_set_bit_rec(x, j, 64);
}

proof fn lemma_pcount_all_low(x: u64, n: nat)
    requires
        n <= 63,
        pcount(x, n) == n,
    ensures
        x & (((1u64 << (n as u64)) - 1) as u64) == ((1u64 << (n as u64)) - 1) as u64,
    decreases n,
{
    if n == 0 {
        assert(x & (((1u64 << 0u64) - 1) as u64) == ((1u64 << 0u64) - 1) as u64) by (bit_vector);
    } else {
        lemma_pcount_le(x, (n - 1) as nat);
        lemma_pcount_all_low(x, (n - 1) as nat);
        let m: u64 = (n - 1) as u64;
        assert(x & (((1u64 << m) - 1) as u64) == ((1u64 << m) - 1) as u64 && (x >> m) & 1 == 1
            && m < 63 ==> x & (((1u64 << ((m + 1) as u64)) - 1) as u64) == ((1u64 << ((m
            + 1) as u64)) - 1) as u64) by (bit_vector);
    }
}

/// A mask whose 64 bits are all set is the full mask.
pub proof fn lemma_pcount_max(x: u64)
    requires
        pcount(x, 64) == 64,
    ensures
        x == 0xffffffffffffffffu64,
{
    lemma_pcount_le(x, 63);
    lemma_pcount_all_low(x, 63);
    assert(x & (((1u64 << 63u64) - 1) as u64) == ((1u64 << 63u64) - 1) as u64 && (x >> 63u64) & 1
        == 1 ==> x == 0xffffffffffffffffu64) by (bit_vector);
}

} // verus!
