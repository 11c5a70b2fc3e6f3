//! Single-STARK Falcon parsed-verify AIR: the dual-NTT and coefficient dual-zero checks, the L²
//! accumulation and four full-NTT limbs stacked in one trace, with one-hot segment selectors
//! and the dual inputs `pk_ntt`, `hm_ntt` embedded (`row ↦ row mod N`) in preprocessed columns.
use vstd::prelude::*;
use crate::params::{N, MODULUS, next_power_of_two, is_pow2};
use crate::trace::TraceMatrix;
use crate::bits::is_bit;
use crate::air::dual_ntt_equation::{dual_ntt_row_holds, NUM_DUAL_NTT_PREPROCESSED_COLS, NUM_MAIN_COLS as DUAL_MAIN_COLS};
use crate::air::coeff_dual_product_zero::{coeff_dual_row_holds, NUM_MAIN_COLS as COEFF_MAIN_COLS, NUM_PREPROCESSED_COLS as COEFF_PREP_COLS};
use crate::air::l2_bound::{l2_row_common, l2_first, l2_transition, l2_last, NUM_MAIN_COLS as L2_MAIN_COLS};
use crate::air::ntt_full::{ntt_full_row_holds, ntt_full_trace_height, NUM_MAIN_COLS as NTT_MAIN_COLS, NUM_PREPROCESSED_COLS as NTT_PREP_COLS};
use vstd::arithmetic::power2::{pow2, lemma2_to64};

verus! {

/// One-hot segment selector: dual + coeff, L², NTT butterfly.
pub const UNIFIED_SEG_BITS: usize = 3;
pub const UNIFIED_PREP_PAD_BEFORE_DUAL: usize = 3;
pub const UNIFIED_DUAL_PREP_OFF: usize = 3;
pub const UNIFIED_COEFF_PREP_OFF: usize = 7;
pub const UNIFIED_NTT_PREP_OFF: usize = 9;
/// Embedded `pk_ntt`, `hm_ntt` columns.
pub const UNIFIED_PKHM_EMB_OFF: usize = 13;
pub const UNIFIED_PREP_WIDTH: usize = 15;

pub const UNIFIED_COEFF_MAIN_OFF: usize = 36;
pub const UNIFIED_MAIN_WIDTH: usize = 97;

/// Rows of the dual + coeff segment.
pub fn unified_dual_coeff_rows() -> (r: usize)
    ensures
        r == N,
{
    N
}

/// Rows of the L² segment.
pub fn unified_l2_rows() -> (r: usize)
    ensures
        r == 4 * N,
{
    4 * N
}

/// Rows of one full-NTT limb.
pub fn unified_ntt_segment_rows() -> (r: usize)
    ensures
        r == 8192,
{
    ntt_full_trace_height()
}

/// Rows of the four full-NTT limbs.
pub fn unified_ntt_total_rows() -> (r: usize)
    ensures
        r == 4 * 8192,
{
    4 * unified_ntt_segment_rows()
}

/// Rows before padding.
pub fn unified_body_rows() -> (r: usize)
    ensures
        r == UNIFIED_BODY_ROWS,
{
    unified_dual_coeff_rows() + unified_l2_rows() + unified_ntt_total_rows()
}

/// `N + 4N + 4 · 8192`.
pub const UNIFIED_BODY_ROWS: usize = 37888;

/// First row of the L² segment.
pub const UNIFIED_L2_START: usize = 1024;

/// First row of the NTT segments.
pub const UNIFIED_NTT_START: usize = 5120;

/// Trace height: the body rounded up to a power of two.
pub fn unified_trace_height() -> (h: usize)
    ensures
        h == UNIFIED_HEIGHT,
        is_pow2(h as nat),
{
    let h: usize = next_power_of_two(unified_body_rows());
    proof {
        lemma2_to64();
        vstd::arithmetic::power2::lemma_pow2_adds(15, 1);
        vstd::arithmetic::power2::lemma_pow2_adds(8, 7);
        crate::params::lemma_next_pow2_is(h as nat, UNIFIED_BODY_ROWS as nat, 16);
    }
    h
}

/// `2^16`.
pub const UNIFIED_HEIGHT: usize = 65536;

/// The unified AIR: its full preprocessed trace (segment bits, reference rows, embedded inputs).
pub struct FalconUnifiedParsedVerifyAir {
    pub preprocessed: TraceMatrix,
}

impl FalconUnifiedParsedVerifyAir {
    /// AIR over a `UNIFIED_HEIGHT × UNIFIED_PREP_WIDTH` preprocessed trace.
    pub fn new(preprocessed: TraceMatrix) -> (air: Self)
        requires
            preprocessed.wf(),
            preprocessed.width == UNIFIED_PREP_WIDTH,
            preprocessed.rows() == UNIFIED_HEIGHT,
        ensures
            air.preprocessed == preprocessed,
    {
        FalconUnifiedParsedVerifyAir { preprocessed }
    }
}

/// The segment bits are one-hot.
pub open spec fn seg_one_hot(prep: Seq<u32>) -> bool {
    &&& is_bit(prep[0])
    &&& is_bit(prep[1])
    &&& is_bit(prep[2])
    &&& prep[0] + prep[1] + prep[2] == 1
}

/// Dual-NTT and coefficient dual-zero constraints on a unified row.
pub open spec fn unified_dual_part(prep: Seq<u32>, main: Seq<u32>) -> bool {
    &&& dual_ntt_row_holds(prep[UNIFIED_PKHM_EMB_OFF as int], prep[UNIFIED_PKHM_EMB_OFF + 1],
        prep.subrange(UNIFIED_DUAL_PREP_OFF as int, UNIFIED_COEFF_PREP_OFF as int),
        main.subrange(0, DUAL_MAIN_COLS as int))
    &&& coeff_dual_row_holds(prep.subrange(UNIFIED_COEFF_PREP_OFF as int, UNIFIED_NTT_PREP_OFF as int),
        main.subrange(UNIFIED_COEFF_MAIN_OFF as int, UNIFIED_COEFF_MAIN_OFF + COEFF_MAIN_COLS))
}

/// Full-NTT butterfly constraints on a unified row.
pub open spec fn unified_ntt_part(prep: Seq<u32>, main: Seq<u32>) -> bool {
    ntt_full_row_holds(prep.subrange(UNIFIED_NTT_PREP_OFF as int, UNIFIED_PKHM_EMB_OFF as int),
        main.subrange(0, NTT_MAIN_COLS as int))
}

/// The constraints of the unified AIR's `eval` over a whole trace.
///
/// On every transition `(r, r + 1)` both segment selectors are one-hot; a dual row satisfies
/// the dual-NTT and coefficient dual-zero constraints, an NTT row the butterfly constraints.
/// Every L² row satisfies the L² row constraints. The first L² row after a dual row starts the
/// sum, consecutive L² rows step it, and the last L² row before an NTT row closes the bound.
/// On the last row, an NTT selector imposes the butterfly constraints. (The selectors gate the
/// constraints by multiplication; with one-hot bits this is what they state.)
pub open spec fn unified_trace_holds(prep: Seq<Seq<u32>>, main: Seq<Seq<u32>>) -> bool {
    let h = prep.len() as int;
    &&& h >= 2
    &&& main.len() == h
    &&& forall|r: int| 0 <= r < h ==> #[trigger] unified_row_ok(prep, main, r)
    &&& forall|r: int| 0 <= r < h - 1 ==> #[trigger] unified_transition_ok(prep, main, r)
    &&& prep[h - 1][2] == 1 ==> unified_ntt_part(prep[h - 1], main[h - 1])
}

/// Row `r` has the trace widths and, on an L² row, satisfies the L² row constraints.
pub open spec fn unified_row_ok(prep: Seq<Seq<u32>>, main: Seq<Seq<u32>>, r: int) -> bool {
    &&& prep[r].len() == UNIFIED_PREP_WIDTH
    &&& main[r].len() == UNIFIED_MAIN_WIDTH
    &&& prep[r][1] == 1 ==> l2_row_common(main[r])
}

/// The constraints on the transition `(r, r + 1)`.
pub open spec fn unified_transition_ok(prep: Seq<Seq<u32>>, main: Seq<Seq<u32>>, r: int) -> bool {
    &&& seg_one_hot(prep[r])
    &&& seg_one_hot(prep[r + 1])
    &&& prep[r][0] == 1 ==> unified_dual_part(prep[r], main[r])
    &&& prep[r][2] == 1 ==> unified_ntt_part(prep[r], main[r])
    &&& prep[r][0] == 1 && prep[r + 1][1] == 1 ==> l2_first(main[r + 1])
    &&& prep[r][1] == 1 && prep[r + 1][1] == 1 ==> l2_transition(main[r], main[r + 1])
    &&& prep[r][1] == 1 && prep[r + 1][2] == 1 ==> l2_last(main[r])
}

} // verus!
