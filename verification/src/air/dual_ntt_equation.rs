//! AIR for the per-index dual-NTT verification equation.
//!
//! Per NTT index `i`, with public periodic `pk_ntt[i]`, `hm_ntt[i]` and preprocessed reference
//! limbs, the main row holds `sig_pos`, `sig_neg`, `v_pos`, `v_neg`, the two residues, the two
//! products with `pk` and 14-bit quotient decompositions, so that
//! `hm + v_neg + sig_neg·pk ≡ v_pos + sig_pos·pk (mod q)`.
use vstd::prelude::*;
use crate::params::{N, MODULUS, QUOT_BITS};
use crate::trace::TraceMatrix;
use crate::bits::{cells_bool, is_bit, cells_value, le_cells, lemma_cells_value_bound, lemma_le_cells_exact};
use crate::field::{feq, lemma_feq_small, lemma_fe_small, fe, p, canonical};

verus! {

/// Periodic columns: `pk_ntt`, `hm_ntt`.
pub const NUM_DUAL_NTT_PERIODIC_COLUMNS: usize = 2;

/// Preprocessed reference NTT limbs: `sig_pos`, `sig_neg`, `v_pos`, `v_neg`.
pub const NUM_DUAL_NTT_PREPROCESSED_COLS: usize = 4;

/// Eight value columns plus two 14-bit quotient decompositions.
pub const NUM_MAIN_COLS: usize = 36;

/// Preprocessed row of the dual-NTT AIR.
pub struct DualNttPreprocessedRow<F> {
    pub exp_sig_pos_ntt: F,
    pub exp_sig_neg_ntt: F,
    pub exp_v_pos_ntt: F,
    pub exp_v_neg_ntt: F,
}

/// Main row of the dual-NTT AIR.
pub struct MainRow<F> {
    pub sig_pos_ntt: F,
    pub sig_neg_ntt: F,
    pub v_pos_ntt: F,
    pub v_neg_ntt: F,
    pub lhs_mod: F,
    pub rhs_mod: F,
    pub prod_sig_pos_pk: F,
    pub prod_sig_neg_pk: F,
    pub quot_l_bits: [F; QUOT_BITS],
    pub quot_r_bits: [F; QUOT_BITS],
}

/// Dual-NTT AIR: public `pk_ntt`, `hm_ntt` (period `N`) and the reference limbs per index.
pub struct FalconDualNttEquationAir {
    pub pk_ntt: Vec<u32>,
    pub hm_ntt: Vec<u32>,
    pub ntt_ref: TraceMatrix,
}

impl FalconDualNttEquationAir {
    /// AIR over `N` public `pk_ntt`, `hm_ntt` values and an `N × 4` reference table.
    pub fn new(pk_ntt: Vec<u32>, hm_ntt: Vec<u32>, ntt_ref: TraceMatrix) -> (air: Self)
        requires
            pk_ntt@.len() == N,
            hm_ntt@.len() == N,
            ntt_ref.wf(),
            ntt_ref.rows() == N,
            ntt_ref.width == NUM_DUAL_NTT_PREPROCESSED_COLS,
        ensures
            air.pk_ntt@ == pk_ntt@,
            air.hm_ntt@ == hm_ntt@,
            air.ntt_ref == ntt_ref,
    {
        FalconDualNttEquationAir { pk_ntt, hm_ntt, ntt_ref }
    }

    /// Public `pk_ntt` values.
    pub fn pk_ntt_values(&self) -> (r: &[u32])
        ensures
            r@ == self.pk_ntt@,
    {
        self.pk_ntt.as_slice()
    }

    /// Public `hm_ntt` values.
    pub fn hm_ntt_values(&self) -> (r: &[u32])
        ensures
            r@ == self.hm_ntt@,
    {
        self.hm_ntt.as_slice()
    }

    /// Reference NTT limbs.
    pub fn ntt_ref(&self) -> (r: &TraceMatrix)
        ensures
            *r == self.ntt_ref,
    {
        &self.ntt_ref
    }
}

/// The constraints the dual-NTT AIR's `eval` places on one row, given the periodic `pk`, `hm`.
///
/// The four limbs equal the reference row, the 28 quotient cells are bits, and in the field
/// `prod_sp = sig_pos·pk`, `prod_sn = sig_neg·pk`, `hm + v_neg + prod_sn = lhs + quot_l·q`,
/// `v_pos + prod_sp = rhs + quot_r·q`, `lhs = rhs`.
pub open spec fn dual_ntt_row_holds(pk: u32, hm: u32, prep: Seq<u32>, main: Seq<u32>) -> bool {
    let q = MODULUS as int;
    let quot_l = cells_value(main.subrange(8, 22));
    let quot_r = cells_value(main.subrange(22, 36));
    &&& prep.len() == NUM_DUAL_NTT_PREPROCESSED_COLS
    &&& main.len() == NUM_MAIN_COLS
    &&& main[0] == prep[0]
    &&& main[1] == prep[1]
    &&& main[2] == prep[2]
    &&& main[3] == prep[3]
    &&& cells_bool(main.subrange(8, 36))
    &&& feq(main[6] as int, main[0] * pk)
    &&& feq(main[7] as int, main[1] * pk)
    &&& feq(hm + main[3] + main[7], main[4] + quot_l * q)
    &&& feq(main[2] + main[6], main[5] + quot_r * q)
    &&& main[4] == main[5]
}

/// A 14-bit cell group bound.
pub proof fn lemma_quot_cells_bounded(main: Seq<u32>, lo: int)
    requires
        0 <= lo,
        lo + 14 <= main.len(),
        cells_bool(main.subrange(lo, lo + 14)),
    ensures
        0 <= cells_value(main.subrange(lo, lo + 14)) < 16384,
{
    lemma_cells_value_bound(main.subrange(lo, lo + 14));
    vstd::arithmetic::power2::lemma2_to64();
}

/// Soundness of one dual-NTT row: with reduced public values and reference limbs, a satisfied
/// row proves `hm + v_neg + sig_neg·pk ≡ v_pos + sig_pos·pk (mod q)` for the reference limbs,
/// and the product columns hold the exact integer products.
pub proof fn lemma_dual_ntt_row_sound(pk: u32, hm: u32, prep: Seq<u32>, main: Seq<u32>)
    requires
        dual_ntt_row_holds(pk, hm, prep, main),
        pk < MODULUS,
        hm < MODULUS,
        prep[0] < MODULUS,
        prep[1] < MODULUS,
        prep[2] < MODULUS,
        prep[3] < MODULUS,
        canonical(main[4]),
        canonical(main[6]),
        canonical(main[7]),
    ensures
        main[6] == prep[0] * pk,
        main[7] == prep[1] * pk,
        (hm + prep[3] + prep[1] * pk) % (MODULUS as int) == (prep[2] + prep[0] * pk) % (MODULUS as int),
{
    let q = MODULUS as int;
    let sp = prep[0] as int;
    let sn = prep[1] as int;
    let vp = prep[2] as int;
    let vn = prep[3] as int;
    let pkv = pk as int;
    assert(cells_bool(main.subrange(8, 22))) by {
        assert forall|i: int| 0 <= i < 14 implies is_bit(#[trigger] main.subrange(8, 22)[i]) by {
            assert(main.subrange(8, 22)[i] == main.subrange(8, 36)[i]);
        }
    }
    assert(cells_bool(main.subrange(22, 36))) by {
        assert forall|i: int| 0 <= i < 14 implies is_bit(#[trigger] main.subrange(22, 36)[i]) by {
            assert(main.subrange(22, 36)[i] == main.subrange(8, 36)[i + 14]);
        }
    }
    lemma_quot_cells_bounded(main, 8);
    lemma_quot_cells_bounded(main, 22);
    let quot_l = cells_value(main.subrange(8, 22));
    let quot_r = cells_value(main.subrange(22, 36));
    assert(0 <= sp * pkv <= 12288 * 12288) by (nonlinear_arith)
        requires
            0 <= sp < 12289,
            0 <= pkv < 12289,
    ;
    assert(0 <= sn * pkv <= 12288 * 12288) by (nonlinear_arith)
        requires
            0 <= sn < 12289,
            0 <= pkv < 12289,
    ;
    lemma_feq_small(main[6] as int, sp * pkv);
    lemma_feq_small(main[7] as int, sn * pkv);
    assert(0 <= quot_l * q <= 16383 * 12289) by (nonlinear_arith)
        requires
            0 <= quot_l < 16384,
            q == 12289,
    ;
    assert(0 <= quot_r * q <= 16383 * 12289) by (nonlinear_arith)
        requires
            0 <= quot_r < 16384,
            q == 12289,
    ;
    let sum_l = hm + vn + sn * pkv;
    let sum_r = vp + sp * pkv;
    // lhs ≡ sum_l − quot_l·q and rhs ≡ sum_r − quot_r·q, and lhs = rhs.
    assert(feq(sum_l - quot_l * q, main[4] as int)) by {
        vstd::arithmetic::div_mod::lemma_sub_mod_noop(sum_l, quot_l * q, p());
        vstd::arithmetic::div_mod::lemma_sub_mod_noop(main[4] + quot_l * q, quot_l * q, p());
    }
    assert(feq(sum_r - quot_r * q, main[5] as int)) by {
        vstd::arithmetic::div_mod::lemma_sub_mod_noop(sum_r, quot_r * q, p());
        vstd::arithmetic::div_mod::lemma_sub_mod_noop(main[5] + quot_r * q, quot_r * q, p());
    }
    lemma_feq_small(sum_l - quot_l * q, sum_r - quot_r * q);
    let k = quot_l - quot_r;
    assert(sum_l == sum_r + k * q) by (nonlinear_arith)
        requires
            sum_l - quot_l * q == sum_r - quot_r * q,
            k == quot_l - quot_r,
    ;
    vstd::arithmetic::div_mod::lemma_mod_multiples_vanish(k, sum_r, q);
    vstd::arithmetic::mul::lemma_mul_is_commutative(k, q);
}

/// Main row the witness builder writes for reduced limbs `(sp, sn, vp, vn)`, public `pk`, `hm`.
pub open spec fn dual_ntt_witness_row(pk: nat, hm: nat, sp: nat, sn: nat, vp: nat, vn: nat) -> Seq<u32> {
    let q = MODULUS as nat;
    let prod_sp = sp * pk;
    let prod_sn = sn * pk;
    let sum_l = hm + vn + prod_sn;
    let sum_r = vp + prod_sp;
    seq![sp as u32, sn as u32, vp as u32, vn as u32, (sum_l % q) as u32, (sum_r % q) as u32,
        prod_sp as u32, prod_sn as u32] + le_cells(sum_l / q, 14) + le_cells(sum_r / q, 14)
}

/// Per-index congruence of the parsed statement.
pub open spec fn dual_congruent(pk: nat, hm: nat, sp: nat, sn: nat, vp: nat, vn: nat) -> bool {
    (hm + vn + sn * pk) % (MODULUS as nat) == (vp + sp * pk) % (MODULUS as nat)
}

/// Completeness: for reduced inputs satisfying the congruence, the witness row satisfies the
/// dual-NTT constraints against reference row `(sp, sn, vp, vn)`.
pub proof fn lemma_dual_ntt_witness_row_holds(pk: nat, hm: nat, sp: nat, sn: nat, vp: nat, vn: nat)
    requires
        pk < MODULUS,
        hm < MODULUS,
        sp < MODULUS,
        sn < MODULUS,
        vp < MODULUS,
        vn < MODULUS,
        dual_congruent(pk, hm, sp, sn, vp, vn),
    ensures
        dual_ntt_row_holds(pk as u32, hm as u32, seq![sp as u32, sn as u32, vp as u32, vn as u32],
            dual_ntt_witness_row(pk, hm, sp, sn, vp, vn)),
{
    let q = MODULUS as nat;
    let prod_sp = sp * pk;
    let prod_sn = sn * pk;
    let sum_l = hm + vn + prod_sn;
    let sum_r = vp + prod_sp;
    assert(prod_sp <= 12288 * 12288 && prod_sn <= 12288 * 12288) by (nonlinear_arith)
        requires
            sp < 12289,
            sn < 12289,
            pk < 12289,
            prod_sp == sp * pk,
            prod_sn == sn * pk,
    ;
    vstd::arithmetic::power2::lemma2_to64();
    assert(sum_l < 12289 * 12289 && sum_r < 12289 * 12289);
    vstd::arithmetic::div_mod::lemma_div_is_ordered(sum_l as int, 12289int * 12289int, q as int);
    vstd::arithmetic::div_mod::lemma_div_is_ordered(sum_r as int, 12289int * 12289int, q as int);
    assert((12289int * 12289int) / 12289 == 12289);
    lemma_le_cells_exact(sum_l / q, 14);
    lemma_le_cells_exact(sum_r / q, 14);
    vstd::arithmetic::power2::lemma2_to64();
    let row = dual_ntt_witness_row(pk, hm, sp, sn, vp, vn);
    assert(row.subrange(8, 22) =~= le_cells(sum_l / q, 14));
    assert(row.subrange(22, 36) =~= le_cells(sum_r / q, 14));
    assert forall|i: int| 0 <= i < 28 implies is_bit(#[trigger] row.subrange(8, 36)[i]) by {
        if i < 14 {
            assert(row.subrange(8, 36)[i] == row.subrange(8, 22)[i]);
        } else {
            assert(row.subrange(8, 36)[i] == row.subrange(22, 36)[i - 14]);
        }
    }
    vstd::arithmetic::div_mod::lemma_fundamental_div_mod(sum_l as int, q as int);
    vstd::arithmetic::div_mod::lemma_fundamental_div_mod(sum_r as int, q as int);
    vstd::arithmetic::mul::lemma_mul_is_commutative((sum_l / q) as int, q as int);
    vstd::arithmetic::mul::lemma_mul_is_commutative((sum_r / q) as int, q as int);
    vstd::arithmetic::mul::lemma_mul_is_commutative(sp as int, pk as int);
    vstd::arithmetic::mul::lemma_mul_is_commutative(sn as int, pk as int);
}

} // verus!
