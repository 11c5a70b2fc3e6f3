//! Per-coefficient constraint `sig_pos[i] · sig_neg[i] = 0` for the dual limb decomposition of a
//! parsed Falcon signature, with the limbs bound to preprocessed expected coefficients.
//!
//! Both limbs are reconstructed from 14 boolean bits, so `pos · neg < 2^28` lies below the
//! KoalaBear prime and the field product vanishes exactly when the integer product does.
use vstd::prelude::*;
use crate::params::{N, QUOT_BITS};
use crate::trace::TraceMatrix;
use crate::bits::{cells_bool, is_bit, cells_value, le_cells, lemma_le_cells_exact};
use crate::field::{feq, lemma_feq_small, canonical};
use crate::air::dual_ntt_equation::lemma_quot_cells_bounded;

verus! {

/// Preprocessed columns: expected `sig_pos`, `sig_neg`.
pub const NUM_PREPROCESSED_COLS: usize = 2;

/// Two 14-bit decompositions.
pub const NUM_MAIN_COLS: usize = 28;

/// Preprocessed row of the coefficient dual-zero AIR.
pub struct PreprocessedRow<F> {
    pub exp_sig_pos: F,
    pub exp_sig_neg: F,
}

/// Main row of the coefficient dual-zero AIR.
pub struct MainRow<F> {
    pub sig_pos_bits: [F; QUOT_BITS],
    pub sig_neg_bits: [F; QUOT_BITS],
}

/// AIR: one row per coefficient index, expected limbs in the preprocessed trace.
pub struct FalconCoeffDualProductZeroAir {
    pub expected: TraceMatrix,
}

impl FalconCoeffDualProductZeroAir {
    /// AIR over an `N × 2` table of expected `sig_pos`, `sig_neg` coefficients.
    pub fn new(expected: TraceMatrix) -> (air: Self)
        requires
            expected.wf(),
            expected.rows() == N,
            expected.width == NUM_PREPROCESSED_COLS,
        ensures
            air.expected == expected,
    {
        FalconCoeffDualProductZeroAir { expected }
    }
}

/// The constraints the coefficient dual-zero AIR's `eval` places on one row: all 28 cells are
/// bits, the two reconstructions equal the expected coefficients, and their product is zero in
/// the field.
pub open spec fn coeff_dual_row_holds(prep: Seq<u32>, main: Seq<u32>) -> bool {
    let pos = cells_value(main.subrange(0, 14));
    let neg = cells_value(main.subrange(14, 28));
    &&& prep.len() == NUM_PREPROCESSED_COLS
    &&& main.len() == NUM_MAIN_COLS
    &&& cells_bool(main)
    &&& feq(pos, prep[0] as int)
    &&& feq(neg, prep[1] as int)
    &&& feq(pos * neg, 0)
}

/// Soundness: a satisfied row pins both limbs to the expected coefficients and proves that at
/// most one of them is nonzero.
pub proof fn lemma_coeff_dual_row_sound(prep: Seq<u32>, main: Seq<u32>)
    requires
        coeff_dual_row_holds(prep, main),
        canonical(prep[0]),
        canonical(prep[1]),
    ensures
        cells_value(main.subrange(0, 14)) == prep[0],
        cells_value(main.subrange(14, 28)) == prep[1],
        prep[0] * prep[1] == 0,
        prep[0] == 0 || prep[1] == 0,
{
    assert(cells_bool(main.subrange(0, 14))) by {
        assert forall|i: int| 0 <= i < 14 implies is_bit(#[trigger] main.subrange(0, 14)[i]) by {
            assert(main.subrange(0, 14)[i] == main[i]);
        }
    }
    assert(cells_bool(main.subrange(14, 28))) by {
        assert forall|i: int| 0 <= i < 14 implies is_bit(#[trigger] main.subrange(14, 28)[i]) by {
            assert(main.subrange(14, 28)[i] == main[i + 14]);
        }
    }
    lemma_quot_cells_bounded(main, 0);
    lemma_quot_cells_bounded(main, 14);
    let pos = cells_value(main.subrange(0, 14));
    let neg = cells_value(main.subrange(14, 28));
    lemma_feq_small(pos, prep[0] as int);
    lemma_feq_small(neg, prep[1] as int);
    assert(0 <= pos * neg < 16384 * 16384) by (nonlinear_arith)
        requires
            0 <= pos < 16384,
            0 <= neg < 16384,
    ;
    lemma_feq_small(pos * neg, 0);
    assert(pos == 0 || neg == 0) by (nonlinear_arith)
        requires
            pos * neg == 0,
    ;
}

/// Main row for limbs `pos`, `neg`.
pub open spec fn coeff_dual_witness_row(pos: nat, neg: nat) -> Seq<u32> {
    le_cells(pos, 14) + le_cells(neg, 14)
}

/// Completeness: disjoint limbs below `2^14` give a satisfied row.
pub proof fn lemma_coeff_dual_witness_row_holds(pos: nat, neg: nat)
    requires
        pos < 16384,
        neg < 16384,
        pos * neg == 0,
    ensures
        coeff_dual_row_holds(seq![pos as u32, neg as u32], coeff_dual_witness_row(pos, neg)),
{
    vstd::arithmetic::power2::lemma2_to64();
    lemma_le_cells_exact(pos, 14);
    lemma_le_cells_exact(neg, 14);
    let row = coeff_dual_witness_row(pos, neg);
    assert(row.subrange(0, 14) =~= le_cells(pos, 14));
    assert(row.subrange(14, 28) =~= le_cells(neg, 14));
    assert forall|i: int| 0 <= i < 28 implies is_bit(#[trigger] row[i]) by {
        if i < 14 {
            assert(row[i] == le_cells(pos, 14)[i]);
        } else {
            assert(row[i] == le_cells(neg, 14)[i - 14]);
        }
    }
}

} // verus!
