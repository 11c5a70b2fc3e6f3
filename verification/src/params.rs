//! Falcon-1024 parameters and the KoalaBear prime.
use vstd::prelude::*;
use vstd::arithmetic::power2::{pow2, lemma_pow2_strictly_increases, lemma_pow2_adds, lemma2_to64, lemma_pow2_pos};

verus! {

/// Ring degree of the Falcon parameter set.
pub const N: usize = 1024;

/// `log2(N)`: number of Cooley–Tukey layers of the forward NTT.
pub const LOG_N: usize = 10;

/// Falcon modulus `q`.
pub const MODULUS: u16 = 12289;

/// `(q - 1) / 2`: coefficients above this value are centered as `q - e`.
pub const MODULUS_MINUS_1_OVER_TWO: u16 = 6144;

/// Squared L² bound on `(s, v)` for Falcon-1024.
pub const SIG_L2_BOUND: u64 = 70265242;

/// The KoalaBear prime `2^31 - 2^24 + 1`.
pub const KOALA_BEAR_PRIME: u32 = 2130706433;

/// Number of bits in every 14-bit witness decomposition (quotients and limb values).
pub const QUOT_BITS: usize = 14;

/// A twiddle table for the forward NTT: `N` entries, each a residue mod `q`.
///
/// Entry `m + i` is the twiddle of butterfly group `i` at the layer with `m = 2^layer` groups.
pub open spec fn ntt_table_ok(table: Seq<u16>) -> bool {
    &&& table.len() == N
    &&& forall|i: int| 0 <= i < table.len() ==> #[trigger] table[i] < MODULUS
}

/// A polynomial of `N` coefficients reduced mod `q`.
pub open spec fn poly_ok(p: Seq<u16>) -> bool {
    &&& p.len() == N
    &&& forall|i: int| 0 <= i < p.len() ==> #[trigger] p[i] < MODULUS
}

/// `r` is a power of two.
pub open spec fn is_pow2(r: nat) -> bool {
    exists|k: nat| r == vstd::arithmetic::power2::pow2(k)
}

/// Smallest power of two that is at least `x` (`1` when `x == 0`).
pub fn next_power_of_two(x: usize) -> (r: usize)
    requires
        x <= 0x4000_0000,
    ensures
        is_pow2(r as nat),
        r >= x,
        r == 1 || r / 2 < x,
{
    let mut r: usize = 1;
    let ghost mut k: nat = 0;
    proof {
        vstd::arithmetic::power2::lemma2_to64();
    }
    while r < x
        invariant
            r == vstd::arithmetic::power2::pow2(k),
            r >= 1,
            r == 1 || r / 2 < x,
            x <= 0x4000_0000,
        decreases (if r < x { x - r } else { 0 }),
    {
        proof {
            vstd::arithmetic::power2::lemma_pow2_adds(k, 1);
            vstd::arithmetic::power2::lemma2_to64();
        }
        r = r * 2;
        proof {
            k = k + 1;
        }
    }
    r
}

/// The power of two `r` with `r ≥ x > r / 2` is `2^k` when `2^(k-1) < x ≤ 2^k`.
pub proof fn lemma_next_pow2_is(r: nat, x: nat, k: nat)
    requires
        is_pow2(r),
        r >= x,
        r == 1 || r / 2 < x,
        k >= 1,
        vstd::arithmetic::power2::pow2((k - 1) as nat) < x,
        x <= vstd::arithmetic::power2::pow2(k),
    ensures
        r == vstd::arithmetic::power2::pow2(k),
{
    let j = choose|j: nat| r == pow2(j);
    lemma2_to64();
    if j < k {
        if j < k - 1 {
            lemma_pow2_strictly_increases(j, (k - 1) as nat);
        }
    } else if j > k {
        lemma_pow2_adds((j - 1) as nat, 1);
        lemma_pow2_pos(k);
        if j - 1 > k {
            lemma_pow2_strictly_increases(k, (j - 1) as nat);
        }
        assert(r / 2 == pow2((j - 1) as nat));
    }
}

} // verus!
