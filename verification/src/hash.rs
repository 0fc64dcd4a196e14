//! Hash spreading and bin selection.
//!
//! Bin selection consults only the low `log2(capacity)` bits of a digest, so
//! a poorly mixed hash clusters keys into few bins. `spread` folds the high
//! bits of a raw 64-bit digest down into the low bits. No bits of the spread
//! value are reserved for control purposes: forwarding and reservation
//! sentinels are distinct bin-entry variants, never special hash values, so a
//! sentinel can never collide with a legitimate spread hash.

use vstd::prelude::*;

verus! {

/// The spread digest of a raw 64-bit hash: the high bits folded into the low
/// bits so that truncation to a bin index keeps their entropy.
pub open spec fn spec_spread(h: u64) -> u64 {
    let folded = h ^ (h >> 32);
    folded ^ (folded >> 16)
}

/// Mix a raw 64-bit digest; deterministic and pure.
pub fn spread(h: u64) -> (r: u64)
    ensures
        r == spec_spread(h),
{
    let folded = h ^ (h >> 32);
    folded ^ (folded >> 16)
}

/// True of every capacity the bin array may have: a power of two.
pub open spec fn is_pow2(n: u64) -> bool {
    n > 0 && (n & (n - 1) as u64) == 0
}

/// The bin an entry with spread hash `h` belongs to in a table of `cap` bins.
pub open spec fn spec_bin_of(h: u64, cap: u64) -> u64 {
    h & (cap - 1) as u64
}

/// A bin index is always inside the array.
pub proof fn lemma_bin_of_in_range(h: u64, cap: u64)
    requires
        cap > 0,
    ensures
        spec_bin_of(h, cap) < cap,
{
    assert(cap > 0 ==> (h & (cap - 1) as u64) < cap) by (bit_vector);
}

/// Compute the bin index of spread hash `h` in a table of `cap` bins.
pub fn bin_of(h: u64, cap: usize) -> (i: usize)
    requires
        cap > 0,
        cap <= 0x4000_0000,
    ensures
        i == spec_bin_of(h, cap as u64),
        i < cap,
{
    proof {
        lemma_bin_of_in_range(h, cap as u64);
    }
    (h & (cap as u64 - 1)) as usize
}

/// A power of two below the maximum capacity is at most half of it.
pub proof fn lemma_pow2_below(n: u64)
    requires
        is_pow2(n),
        n < 0x4000_0000,
    ensures
        n <= 0x2000_0000,
{
    assert((n > 0 && (n & (n - 1) as u64) == 0 && n < 0x4000_0000) ==> n <= 0x2000_0000)
        by (bit_vector);
}

/// Doubling a power of two keeps it a power of two.
pub proof fn lemma_pow2_double(n: u64)
    requires
        is_pow2(n),
        n <= 0x2000_0000,
    ensures
        is_pow2((2 * n) as u64),
{
    assert((n > 0 && (n & (n - 1) as u64) == 0 && n <= 0x2000_0000) ==> (
        (2 * n) as u64 > 0 && ((2 * n) as u64 & ((2 * n) as u64 - 1) as u64) == 0
    )) by (bit_vector);
}

/// How a bin index changes when the table doubles: an entry in bin
/// `h & (n-1)` of the old table lands in the same bin of the new table when
/// the freshly consulted bit `h & n` is zero, and `n` bins higher otherwise.
pub proof fn lemma_bin_of_split(h: u64, n: u64)
    requires
        is_pow2(n),
        n <= 0x2000_0000,
    ensures
        spec_bin_of(h, (2 * n) as u64)
            == spec_bin_of(h, n) + (if h & n == 0 { 0u64 } else { n }),
        spec_bin_of(h, n) < n,
        spec_bin_of(h, (2 * n) as u64) < 2 * n,
{
    assert((n > 0 && (n & (n - 1) as u64) == 0 && n <= 0x2000_0000) ==> (
        (h & ((2 * n) as u64 - 1) as u64)
            == (h & (n - 1) as u64) + (if h & n == 0 { 0u64 } else { n })
        && (h & (n - 1) as u64) < n
        && (h & ((2 * n) as u64 - 1) as u64) < (2 * n) as u64
    )) by (bit_vector);
}

} // verus!

verus! {

/// Sixteen, the default capacity, is a power of two.
pub proof fn lemma_pow2_16()
    ensures
        is_pow2(16u64),
{
    assert(16u64 > 0 && (16u64 & (16u64 - 1) as u64) == 0) by (bit_vector);
}

} // verus!
