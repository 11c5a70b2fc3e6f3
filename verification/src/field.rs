//! KoalaBear field arithmetic on canonical `u32` representatives.
use vstd::prelude::*;
use crate::params::{N, LOG_N, MODULUS, MODULUS_MINUS_1_OVER_TWO, SIG_L2_BOUND, KOALA_BEAR_PRIME, QUOT_BITS};

verus! {

/// The KoalaBear prime as a mathematical integer.
pub open spec fn p() -> int {
    KOALA_BEAR_PRIME as int
}

/// The field element represented by the integer `x`.
pub open spec fn fe(x: int) -> int {
    x % p()
}

/// Field equality of two integer expressions.
pub open spec fn feq(a: int, b: int) -> bool {
    fe(a) == fe(b)
}

/// A canonical field element.
pub open spec fn canonical(x: u32) -> bool {
    x < KOALA_BEAR_PRIME
}

/// `(a + b) mod p`.
pub fn f_add(a: u32, b: u32) -> (r: u32)
    requires
        canonical(a),
        canonical(b),
    ensures
        canonical(r),
        r == fe(a + b),
{
    let s: u64 = a as u64 + b as u64;
    (s % (KOALA_BEAR_PRIME as u64)) as u32
}

/// `(a - b) mod p`.
pub fn f_sub(a: u32, b: u32) -> (r: u32)
    requires
        canonical(a),
        canonical(b),
    ensures
        canonical(r),
        r == fe(a - b),
{
    let s: u64 = a as u64 + KOALA_BEAR_PRIME as u64 - b as u64;
    proof {
        vstd::arithmetic::div_mod::lemma_mod_add_multiples_vanish(a - b, p());
    }
    (s % (KOALA_BEAR_PRIME as u64)) as u32
}

/// `(a · b) mod p`.
pub fn f_mul(a: u32, b: u32) -> (r: u32)
    requires
        canonical(a),
        canonical(b),
    ensures
        canonical(r),
        r == fe(a * b),
{
    proof {
        vstd::arithmetic::mul::lemma_mul_upper_bound(a as int, p(), b as int, p());
    }
    let s: u64 = a as u64 * b as u64;
    (s % (KOALA_BEAR_PRIME as u64)) as u32
}

/// The canonical representative of `x mod p`, the value `KoalaBear::from_u32(x)` stands for.
pub fn f_from_u32(x: u32) -> (r: u32)
    ensures
        canonical(r),
        r == fe(x as int),
{
    x % KOALA_BEAR_PRIME
}

/// A value below `p` is its own field element.
pub proof fn lemma_fe_small(x: int)
    requires
        0 <= x < p(),
    ensures
        fe(x) == x,
{
    vstd::arithmetic::div_mod::lemma_small_mod(x as nat, p() as nat);
}

/// Two integers in `(-p, p)` are field-equal exactly when they are equal.
pub proof fn lemma_feq_small(a: int, b: int)
    requires
        -p() < a - b < p(),
    ensures
        feq(a, b) <==> a == b,
{
    if feq(a, b) {
        vstd::arithmetic::div_mod::lemma_fundamental_div_mod(a, p());
        vstd::arithmetic::div_mod::lemma_fundamental_div_mod(b, p());
        let qa = a / p();
        let qb = b / p();
        assert(a - b == p() * (qa - qb)) by {
            vstd::arithmetic::mul::lemma_mul_is_distributive_sub(p(), qa, qb);
        }
        if qa - qb > 0 {
            vstd::arithmetic::mul::lemma_mul_increases(qa - qb, p());
            vstd::arithmetic::mul::lemma_mul_is_commutative(qa - qb, p());
        } else if qa - qb < 0 {
            vstd::arithmetic::mul::lemma_mul_increases(qb - qa, p());
            vstd::arithmetic::mul::lemma_mul_is_commutative(qb - qa, p());
            vstd::arithmetic::mul::lemma_mul_is_distributive_sub(p(), qb, qa);
        }
    }
}

} // verus!
