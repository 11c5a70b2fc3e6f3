//! Little-endian bit decompositions used by every witness column group.
use vstd::prelude::*;
use vstd::arithmetic::power2::*;
use vstd::arithmetic::div_mod::*;
use vstd::arithmetic::mul::*;
use crate::params::{N, LOG_N, MODULUS, MODULUS_MINUS_1_OVER_TWO, SIG_L2_BOUND, KOALA_BEAR_PRIME, QUOT_BITS};

verus! {

/// Bit `k` of `x`.
pub open spec fn bit_of(x: nat, k: nat) -> nat {
    (x / pow2(k)) % 2
}

/// The `n` low bits of `x`, least significant first, each as `0` or `1`.
pub open spec fn le_bits(x: nat, n: nat) -> Seq<u16> {
    Seq::new(n, |k: int| bit_of(x, k as nat) as u16)
}

/// Integer reconstructed from little-endian bits: `Σ bits[i] · 2^i`.
pub open spec fn bits_value(bits: Seq<u16>) -> int
    decreases bits.len(),
{
    if bits.len() == 0 {
        0
    } else {
        bits[0] + 2 * bits_value(bits.drop_first())
    }
}

/// Every entry is `0` or `1`.
pub open spec fn all_bool(bits: Seq<u16>) -> bool {
    forall|i: int| 0 <= i < bits.len() ==> #[trigger] bits[i] <= 1
}

/// Dropping the low bit of `le_bits(x, n + 1)` gives `le_bits(x / 2, n)`.
pub proof fn lemma_le_bits_shift(x: nat, n: nat)
    ensures
        le_bits(x, n + 1).drop_first() =~= le_bits(x / 2, n),
        le_bits(x, n + 1)[0] == x % 2,
{
    assert forall|k: int| 0 <= k < n implies #[trigger] le_bits(x, n + 1).drop_first()[k] == le_bits(x / 2, n)[k] by {
        lemma_pow2_adds(1, k as nat);
        lemma2_to64();
        lemma_pow2_pos(k as nat);
        lemma_div_denominator(x as int, 2, pow2(k as nat) as int);
    }
    lemma2_to64();
}

/// The bits of `le_bits` are boolean and reconstruct `x mod 2^n`.
pub proof fn lemma_le_bits_value(x: nat, n: nat)
    ensures
        all_bool(le_bits(x, n)),
        bits_value(le_bits(x, n)) == x % pow2(n),
    decreases n,
{
    lemma_pow2_pos(n);
    if n == 0 {
        lemma2_to64();
    } else {
        let m: nat = (n - 1) as nat;
        lemma_le_bits_shift(x, m);
        lemma_le_bits_value(x / 2, m);
        lemma_pow2_adds(1, m);
        lemma2_to64();
        lemma_pow2_pos(m);
        lemma_mod_breakdown(x as int, 2, pow2(m) as int);
        assert forall|i: int| 0 <= i < le_bits(x, n).len() implies #[trigger] le_bits(x, n)[i] <= 1 by {
            lemma_mod_bound((x / pow2(i as nat)) as int, 2);
        }
    }
}

/// Two decompositions of the same length agree exactly when their values agree.
pub proof fn lemma_bits_value_bound(bits: Seq<u16>)
    requires
        all_bool(bits),
    ensures
        0 <= bits_value(bits) < pow2(bits.len()),
    decreases bits.len(),
{
    lemma2_to64();
    if bits.len() > 0 {
        lemma_bits_value_bound(bits.drop_first());
        lemma_pow2_adds(1, (bits.len() - 1) as nat);
    }
}

/// `le_bits` of a value below `2^n` is the unique boolean decomposition of that value.
pub proof fn lemma_bits_unique(bits: Seq<u16>, x: nat)
    requires
        all_bool(bits),
        bits_value(bits) == x,
    ensures
        bits =~= le_bits(x, bits.len()),
    decreases bits.len(),
{
    if bits.len() > 0 {
        let n: nat = (bits.len() - 1) as nat;
        let rest = bits.drop_first();
        assert(all_bool(rest)) by {
            assert forall|i: int| 0 <= i < rest.len() implies #[trigger] rest[i] <= 1 by {
                assert(rest[i] == bits[i + 1]);
            }
        }
        lemma_bits_value_bound(rest);
        assert(bits[0] <= 1);
        lemma_fundamental_div_mod(x as int, 2);
        assert(x / 2 == bits_value(rest)) by {
            lemma_div_multiples_vanish_fancy(bits_value(rest), bits[0] as int, 2);
        }
        assert(x % 2 == bits[0]);
        lemma_bits_unique(rest, x / 2);
        lemma_le_bits_shift(x, n);
        assert(bits =~= seq![bits[0]] + rest);
        assert(le_bits(x, n + 1) =~= seq![le_bits(x, n + 1)[0]] + le_bits(x, n + 1).drop_first());
    }
}

/// `x` split into `nbits` little-endian bits, one `u16` (`0` or `1`) per bit.
pub fn u32_to_bits_le(x: u32, nbits: usize) -> (bits: Vec<u16>)
    requires
        nbits <= 32,
    ensures
        bits@ == le_bits(x as nat, nbits as nat),
{
    let mut bits: Vec<u16> = Vec::with_capacity(nbits);
    let mut v: u32 = x;
    let mut i: usize = 0;
    proof { lemma2_to64(); }
    while i < nbits
        invariant
            i <= nbits <= 32,
            v as nat == x as nat / pow2(i as nat),
            bits@ =~= le_bits(x as nat, nbits as nat).take(i as int),
        decreases nbits - i,
    {
        assert((v & 1) as nat == v as nat % 2) by (bit_vector);
        let b: u16 = (v & 1) as u16;
        assert((v >> 1u32) as nat == v as nat / 2) by (bit_vector);
        bits.push(b);
        v = v >> 1u32;
        proof {
            lemma2_to64();
            lemma_pow2_pos(i as nat);
            lemma_pow2_adds(i as nat, 1);
            lemma_div_denominator(x as int, pow2(i as nat) as int, 2);
        }
        i = i + 1;
    }
    assert(le_bits(x as nat, nbits as nat).take(nbits as int) =~= le_bits(x as nat, nbits as nat));
    bits
}

/// A value below `2^14` split into [`QUOT_BITS`] little-endian bits.
pub fn quot_to_bits_le(x: u16) -> (bits: [u16; QUOT_BITS])
    requires
        x < 16384,
    ensures
        bits@ == le_bits(x as nat, QUOT_BITS as nat),
{
    let mut bits: [u16; QUOT_BITS] = [0u16; QUOT_BITS];
    let mut v: u32 = x as u32;
    let mut i: usize = 0;
    proof { lemma2_to64(); }
    while i < QUOT_BITS
        invariant
            i <= QUOT_BITS,
            bits@.len() == QUOT_BITS,
            v as nat == x as nat / pow2(i as nat),
            forall|k: int| 0 <= k < i ==> bits@[k] == le_bits(x as nat, QUOT_BITS as nat)[k],
        decreases QUOT_BITS - i,
    {
        assert((v & 1) as nat == v as nat % 2) by (bit_vector);
        assert((v >> 1u32) as nat == v as nat / 2) by (bit_vector);
        bits[i] = (v & 1) as u16;
        v = v >> 1u32;
        proof {
            lemma2_to64();
            lemma_pow2_pos(i as nat);
            lemma_pow2_adds(i as nat, 1);
            lemma_div_denominator(x as int, pow2(i as nat) as int, 2);
        }
        i = i + 1;
    }
    assert(bits@ =~= le_bits(x as nat, QUOT_BITS as nat));
    bits
}

/// Trace cells of the `n` low bits of `x`, least significant first.
pub open spec fn le_cells(x: nat, n: nat) -> Seq<u32> {
    Seq::new(n, |k: int| bit_of(x, k as nat) as u32)
}

/// A cell holding `0` or `1`.
pub open spec fn is_bit(x: u32) -> bool {
    x == 0 || x == 1
}

/// Every cell is `0` or `1`.
pub open spec fn cells_bool(cells: Seq<u32>) -> bool {
    forall|i: int| 0 <= i < cells.len() ==> is_bit(#[trigger] cells[i])
}

/// Integer reconstructed from little-endian bit cells: `Σ cells[i] · 2^i`.
pub open spec fn cells_value(cells: Seq<u32>) -> int
    decreases cells.len(),
{
    if cells.len() == 0 {
        0
    } else {
        cells[0] + 2 * cells_value(cells.drop_first())
    }
}

/// The cells of `le_cells(x, n)` are bits and reconstruct `x mod 2^n`.
pub proof fn lemma_le_cells_value(x: nat, n: nat)
    ensures
        cells_bool(le_cells(x, n)),
        cells_value(le_cells(x, n)) == x % pow2(n),
    decreases n,
{
    lemma_pow2_pos(n);
    if n == 0 {
        lemma2_to64();
    } else {
        let m: nat = (n - 1) as nat;
        assert(le_cells(x, n).drop_first() =~= le_cells(x / 2, m)) by {
            lemma_le_bits_shift(x, m);
            assert forall|k: int| 0 <= k < m implies #[trigger] le_cells(x, n).drop_first()[k] == le_cells(x / 2, m)[k] by {
                assert(le_bits(x, m + 1).drop_first()[k] == le_bits(x / 2, m)[k]);
                lemma_mod_bound((x / pow2((k + 1) as nat)) as int, 2);
                lemma_mod_bound(((x / 2) / pow2(k as nat)) as int, 2);
            }
        }
        lemma_le_bits_shift(x, m);
        lemma_le_cells_value(x / 2, m);
        lemma_pow2_adds(1, m);
        lemma2_to64();
        lemma_pow2_pos(m);
        lemma_mod_breakdown(x as int, 2, pow2(m) as int);
        assert forall|i: int| 0 <= i < le_cells(x, n).len() implies is_bit(#[trigger] le_cells(x, n)[i]) by {
            lemma_mod_bound((x / pow2(i as nat)) as int, 2);
        }
        assert(le_cells(x, n)[0] == x % 2) by {
            assert(le_bits(x, m + 1)[0] == x % 2);
            lemma_mod_bound(x as int, 2);
        }
    }
}

/// A value below `2^n` is recovered exactly from `le_cells(x, n)`.
pub proof fn lemma_le_cells_exact(x: nat, n: nat)
    requires
        x < pow2(n),
    ensures
        cells_bool(le_cells(x, n)),
        cells_value(le_cells(x, n)) == x,
{
    lemma_le_cells_value(x, n);
    lemma_small_mod(x, pow2(n));
}

/// Bit cells reconstruct a value in `[0, 2^len)`.
pub proof fn lemma_cells_value_bound(cells: Seq<u32>)
    requires
        cells_bool(cells),
    ensures
        0 <= cells_value(cells) < pow2(cells.len()),
    decreases cells.len(),
{
    lemma2_to64();
    if cells.len() > 0 {
        let rest = cells.drop_first();
        assert(cells_bool(rest)) by {
            assert forall|i: int| 0 <= i < rest.len() implies is_bit(#[trigger] rest[i]) by {
                assert(rest[i] == cells[i + 1]);
            }
        }
        assert(is_bit(cells[0]));
        lemma_cells_value_bound(rest);
        lemma_pow2_adds(1, (cells.len() - 1) as nat);
    }
}

/// `u16` bits pushed as `u32` cells are the cells of the same value.
pub proof fn lemma_bits_to_cells(x: nat, n: nat)
    ensures
        forall|k: int| 0 <= k < n ==> (#[trigger] le_bits(x, n)[k]) as u32 == le_cells(x, n)[k],
{
    assert forall|k: int| 0 <= k < n implies (#[trigger] le_bits(x, n)[k]) as u32 == le_cells(x, n)[k] by {
        lemma_mod_bound((x / pow2(k as nat)) as int, 2);
    }
}

} // verus!
