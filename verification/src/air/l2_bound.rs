//! Falcon L² bound in the coefficient domain over the parsed dual limbs.
//!
//! One row per coefficient, in the order `sig_pos`, `sig_neg`, `v_pos`, `v_neg` (`4N` rows). Each
//! row holds the coefficient `e`, a witness `delta_q` with `e + delta_q = q − 1`, the centering
//! bit `is_high` with a slack proving `e ≤ 6144` or `e ≥ 6145`, the running sum of squared
//! centered magnitudes, and on the last row the slack `SIG_L2_BOUND − accum`.
use vstd::prelude::*;
use crate::params::{N, MODULUS, MODULUS_MINUS_1_OVER_TWO, SIG_L2_BOUND, QUOT_BITS};
use crate::bits::{cells_bool, is_bit, cells_value, le_cells, lemma_cells_value_bound, lemma_le_cells_exact};
use crate::field::{feq, lemma_feq_small, canonical, p};
use crate::trace::TraceMatrix;

verus! {

/// Bits of `delta_q`.
pub const DELTA_Q_BITS: usize = 14;
/// Bits of the centering slack.
pub const SLACK_BITS: usize = 14;
/// Bits of the running sum (`SIG_L2_BOUND < 2^27`).
pub const ACCUM_BITS: usize = 27;
/// Bits of the final bound slack.
pub const BOUND_DIFF_BITS: usize = 27;
/// Main columns: coefficient, `delta_q`, `is_high`, slack, accumulator, bound slack.
pub const NUM_MAIN_COLS: usize = 97;
/// Preprocessed columns of the verifier-rebuilt coefficient table.
pub const NUM_PREPROCESSED_COLS: usize = 1;

/// Main row of the L² AIR.
pub struct MainRow<F> {
    pub coeff_bits: [F; QUOT_BITS],
    pub delta_q_bits: [F; DELTA_Q_BITS],
    pub is_high: F,
    pub slack_bits: [F; SLACK_BITS],
    pub accum_bits: [F; ACCUM_BITS],
    pub bound_diff_bits: [F; BOUND_DIFF_BITS],
}

/// The L² AIR: the verifier-rebuilt coefficient of every row in a one-column preprocessed
/// trace (`sig_pos`, `sig_neg`, `v_pos`, `v_neg`), to which each row's coefficient is bound.
pub struct FalconL2BoundAir {
    pub preprocessed: TraceMatrix,
}

impl FalconL2BoundAir {
    /// The L² AIR over a `4N × 1` table of expected coefficients.
    pub fn new(preprocessed: TraceMatrix) -> (air: Self)
        requires
            preprocessed.wf(),
            preprocessed.width == NUM_PREPROCESSED_COLS,
            preprocessed.rows() == 4 * N,
        ensures
            air.preprocessed == preprocessed,
    {
        FalconL2BoundAir { preprocessed }
    }
}

/// Coefficient `e` of a row.
pub open spec fn row_e(row: Seq<u32>) -> int {
    cells_value(row.subrange(0, 14))
}

/// `delta_q` of a row.
pub open spec fn row_delta(row: Seq<u32>) -> int {
    cells_value(row.subrange(14, 28))
}

/// Centering slack of a row.
pub open spec fn row_slack(row: Seq<u32>) -> int {
    cells_value(row.subrange(29, 43))
}

/// Running sum of a row.
pub open spec fn row_accum(row: Seq<u32>) -> int {
    cells_value(row.subrange(43, 70))
}

/// Bound slack of a row.
pub open spec fn row_diff(row: Seq<u32>) -> int {
    cells_value(row.subrange(70, 97))
}

/// `m = e + is_high · (q − 2e)`: the centered magnitude when `is_high` selects the branch.
pub open spec fn row_magnitude(row: Seq<u32>) -> int {
    row_e(row) + row[28] * (MODULUS - 2 * row_e(row))
}

/// Per-row constraints of the L² AIR (every row): all cells are bits, `e + delta_q = q − 1`,
/// and `(1 − is_high)(e + slack − 6144) + is_high(e − 6145 − slack) = 0` in the field.
pub open spec fn l2_row_common(row: Seq<u32>) -> bool {
    let e = row_e(row);
    let h = row[28] as int;
    let slack = row_slack(row);
    &&& row.len() == NUM_MAIN_COLS
    &&& cells_bool(row)
    &&& feq(e + row_delta(row), MODULUS - 1)
    &&& feq((1 - h) * (e + slack - MODULUS_MINUS_1_OVER_TWO) + h * (e - (MODULUS_MINUS_1_OVER_TWO + 1) - slack), 0)
}

/// First-row constraints: the running sum is the first contribution, no bound slack yet.
pub open spec fn l2_first(row: Seq<u32>) -> bool {
    &&& feq(row_accum(row), row_magnitude(row) * row_magnitude(row))
    &&& feq(row_diff(row), 0)
}

/// Transition constraints: the running sum adds the next row's contribution; no bound slack on
/// non-last rows.
pub open spec fn l2_transition(cur: Seq<u32>, next: Seq<u32>) -> bool {
    &&& feq(row_accum(next) - row_accum(cur), row_magnitude(next) * row_magnitude(next))
    &&& feq(row_diff(cur), 0)
}

/// Last-row constraint: `accum + diff = SIG_L2_BOUND`.
pub open spec fn l2_last(row: Seq<u32>) -> bool {
    feq(row_accum(row) + row_diff(row), SIG_L2_BOUND as int)
}

/// The L² constraints plus, on every row, the binding `e = expected[r]` of the coefficient to
/// the preprocessed column.
pub open spec fn l2_bound_trace_holds(expected: Seq<u32>, rows: Seq<Seq<u32>>) -> bool {
    &&& l2_trace_holds(rows)
    &&& expected.len() == rows.len()
    &&& forall|r: int| 0 <= r < rows.len() ==> feq(#[trigger] row_e(rows[r]), expected[r] as int)
}

/// The L² constraints without the coefficient binding (those of the credential L² AIR, and of
/// the L² segment of the unified AIR).
pub open spec fn l2_trace_holds(rows: Seq<Seq<u32>>) -> bool {
    &&& rows.len() >= 1
    &&& forall|r: int| 0 <= r < rows.len() ==> l2_row_common(#[trigger] rows[r])
    &&& l2_first(rows[0])
    &&& forall|r: int| 0 <= r < rows.len() - 1 ==> l2_transition(#[trigger] rows[r], rows[r + 1])
    &&& l2_last(rows[rows.len() - 1])
}

/// Centered magnitude of a residue `e < q`: `e` if `e ≤ (q − 1)/2`, else `q − e`.
pub open spec fn centered(e: int) -> int {
    if e > MODULUS_MINUS_1_OVER_TWO { MODULUS - e } else { e }
}

/// `Σ_{r < k} centered(e_r)²` over the coefficients of `rows`.
pub open spec fn l2_sum(rows: Seq<Seq<u32>>, k: int) -> int
    decreases k,
{
    if k <= 0 {
        0
    } else {
        l2_sum(rows, k - 1) + centered(row_e(rows[k - 1])) * centered(row_e(rows[k - 1]))
    }
}

/// Sub-range bit cells of a bit row.
pub proof fn lemma_sub_bits(row: Seq<u32>, lo: int, hi: int)
    requires
        cells_bool(row),
        0 <= lo <= hi <= row.len(),
    ensures
        cells_bool(row.subrange(lo, hi)),
        0 <= cells_value(row.subrange(lo, hi)) < vstd::arithmetic::power2::pow2((hi - lo) as nat),
{
    assert forall|i: int| 0 <= i < hi - lo implies is_bit(#[trigger] row.subrange(lo, hi)[i]) by {
        assert(row.subrange(lo, hi)[i] == row[lo + i]);
    }
    lemma_cells_value_bound(row.subrange(lo, hi));
}

/// A row meeting the per-row constraints has `e < q`, `is_high` selecting the centering branch,
/// and magnitude `m = centered(e)`.
pub proof fn lemma_l2_row_common_sound(row: Seq<u32>)
    requires
        l2_row_common(row),
    ensures
        0 <= row_e(row) < MODULUS,
        row_magnitude(row) == centered(row_e(row)),
        0 <= centered(row_e(row)) <= MODULUS_MINUS_1_OVER_TWO,
        0 <= row_accum(row) < 134217728,
        0 <= row_diff(row) < 134217728,
{
    vstd::arithmetic::power2::lemma2_to64();
    assert(vstd::arithmetic::power2::pow2(27) == 134217728) by {
        vstd::arithmetic::power2::lemma_pow2_adds(14, 13);
    }
    lemma_sub_bits(row, 0, 14);
    lemma_sub_bits(row, 14, 28);
    lemma_sub_bits(row, 29, 43);
    lemma_sub_bits(row, 43, 70);
    lemma_sub_bits(row, 70, 97);
    let e = row_e(row);
    let h = row[28] as int;
    let slack = row_slack(row);
    assert(is_bit(row[28]));
    lemma_feq_small(e + row_delta(row), MODULUS - 1);
    if h == 0 {
        assert((1 - h) * (e + slack - 6144) + h * (e - 6145 - slack) == e + slack - 6144) by (nonlinear_arith)
            requires
                h == 0,
        ;
        lemma_feq_small(e + slack - 6144, 0);
        assert(row_magnitude(row) == e) by (nonlinear_arith)
            requires
                h == 0,
                row_magnitude(row) == e + h * (MODULUS - 2 * e),
        ;
    } else {
        assert((1 - h) * (e + slack - 6144) + h * (e - 6145 - slack) == e - 6145 - slack) by (nonlinear_arith)
            requires
                h == 1,
        ;
        lemma_feq_small(e - 6145 - slack, 0);
        assert(row_magnitude(row) == MODULUS - e) by (nonlinear_arith)
            requires
                h == 1,
                row_magnitude(row) == e + h * (MODULUS - 2 * e),
        ;
    }
}

/// Soundness of the L² AIR: a satisfying trace has every coefficient below `q`, running sums
/// equal to the prefix sums of squared centered magnitudes, and total at most `SIG_L2_BOUND`.
pub proof fn lemma_l2_trace_sound(rows: Seq<Seq<u32>>)
    requires
        l2_trace_holds(rows),
    ensures
        forall|r: int| 0 <= r < rows.len() ==> 0 <= #[trigger] row_e(rows[r]) < MODULUS,
        forall|r: int| 0 <= r < rows.len() ==> #[trigger] row_accum(rows[r]) == l2_sum(rows, r + 1),
        l2_sum(rows, rows.len() as int) <= SIG_L2_BOUND,
{
    assert forall|r: int| 0 <= r < rows.len() implies 0 <= #[trigger] row_e(rows[r]) < MODULUS by {
        lemma_l2_row_common_sound(rows[r]);
    }
    lemma_l2_prefix(rows, rows.len() as int - 1);
    assert forall|r: int| 0 <= r < rows.len() implies #[trigger] row_accum(rows[r]) == l2_sum(rows, r + 1) by {
        lemma_l2_prefix(rows, r);
    }
    let last = rows[rows.len() - 1];
    lemma_l2_row_common_sound(last);
    lemma_feq_small(row_accum(last) + row_diff(last), SIG_L2_BOUND as int);
}

/// Running sum of row `r` is the prefix sum up to and including `r`.
pub proof fn lemma_l2_prefix(rows: Seq<Seq<u32>>, r: int)
    requires
        l2_trace_holds(rows),
        0 <= r < rows.len(),
    ensures
        row_accum(rows[r]) == l2_sum(rows, r + 1),
    decreases r,
{
    let row = rows[r];
    lemma_l2_row_common_sound(row);
    let m = centered(row_e(row));
    assert(0 <= m * m <= 6144 * 6144) by (nonlinear_arith)
        requires
            0 <= m <= 6144,
    ;
    if r == 0 {
        lemma_feq_small(row_accum(row), m * m);
        assert(l2_sum(rows, 1) == l2_sum(rows, 0) + m * m);
    } else {
        lemma_l2_prefix(rows, r - 1);
        let prev = rows[r - 1];
        assert(l2_transition(prev, row));
        lemma_l2_row_common_sound(prev);
        lemma_feq_small(row_accum(row) - row_accum(prev), m * m);
    }
}

} // verus!
