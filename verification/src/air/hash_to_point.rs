//! In-circuit Falcon hash-to-point: rejection sampling over SHAKE squeeze bytes, one row per
//! 16-bit sample until `N` coefficients have been emitted.
use vstd::prelude::*;
use crate::params::{N, MODULUS};
use crate::bits::{cells_bool, is_bit, cells_value, lemma_cells_value_bound};
use crate::field::{feq, lemma_feq_small, canonical};
use vstd::arithmetic::power2::{pow2, lemma2_to64};

verus! {

/// Longest message the hash-to-point AIR accepts.
pub const HASH_MSG_MAX_BYTES: usize = 256;

/// Public values: the `N` coefficients of `hm`.
pub const NUM_HASH_PUBLIC_VALUES: usize = 1024;

/// Bits of the acceptance slack `61444 − raw`.
pub const SLACK_BITS: usize = 16;

/// Bits of `quot` in `raw = coeff + quot · q` (`quot ≤ 4`).
pub const QUOT_BITS: usize = 3;

pub const COL_RAW: usize = 0;
pub const COL_B0: usize = 1;
pub const COL_B1: usize = 2;
pub const COL_ACCEPT: usize = 3;
pub const COL_COEFF: usize = 4;
/// Expected output coefficient `hm[emit_ctr]` on accepted rows.
pub const COL_HM_REF: usize = 5;
pub const COL_EMIT_CTR: usize = 6;
pub const COL_SLACK_START: usize = 7;
pub const COL_QUOT_START: usize = 23;
pub const COL_EMIT_BITS_START: usize = 26;
/// Eight bits of `b0`.
pub const COL_B0_BITS_START: usize = 36;
/// Eight bits of `b1`.
pub const COL_B1_BITS_START: usize = 44;
/// Fourteen bits of `coeff` on accepted rows.
pub const COL_COEFF_BITS_START: usize = 52;
/// Fourteen bits of `q − 1 − coeff` on accepted rows.
pub const COL_COEFF_SLACK_START: usize = 66;
pub const COL_IS_REAL: usize = 80;

/// Main trace width.
pub const NUM_HASH_MAIN_COLS: usize = 81;

/// Bits of the coefficient and of its slack below `q`.
pub const COEFF_BITS: usize = 14;

/// 16-bit samples below this value are accepted.
pub const HASH_SAMPLE_THRESHOLD: u32 = 61445;

/// AIR for rejection sampling of a message of `msg_len` bytes.
#[derive(Clone, Debug)]
pub struct FalconHashToPointAir {
    msg_len: usize,
}

impl FalconHashToPointAir {
    /// Message length the AIR was built for.
    pub closed spec fn msg_len_view(&self) -> nat {
        self.msg_len as nat
    }

    /// AIR for a message of `msg_len ≤ HASH_MSG_MAX_BYTES` bytes.
    pub fn new(msg_len: usize) -> (air: Self)
        requires
            msg_len <= HASH_MSG_MAX_BYTES,
        ensures
            air.msg_len_view() == msg_len,
    {
        FalconHashToPointAir { msg_len }
    }
}

/// Cells `a..b` of a row.
pub open spec fn seg(row: Seq<u32>, a: usize, b: usize) -> Seq<u32> {
    row.subrange(a as int, b as int)
}

/// The constraints the hash-to-point AIR's `eval` places on a real row (`is_real = 1`) with
/// public values `pv`.
///
/// On every real row: `b0` and `b1` are the values of their eight bit cells,
/// `raw = 256 · b0 + b1`, `accept` and the slack cells are bits. A rejected row has `coeff = 0`
/// and `raw = 61445 + slack`. An accepted row has bit cells for `quot`, `emit_ctr`, `coeff` and
/// `q − 1 − coeff`, and `raw + slack = 61444`, `raw = coeff + quot · q`, `coeff = hm_ref`,
/// `emit_ctr = Σ emit_bits · 2^i`, and `hm_ref = pv[k]` for the `k` those emit bits encode
/// (the selector product over the bits is `1` for that `k` and `0` for every other), all in
/// the field. (Every constraint of `eval` is multiplied by `is_real` and, on one side, by
/// `accept` or `1 − accept`; on a row with `is_real = 1` and `accept ∈ {0, 1}` this is what
/// they state.)
pub open spec fn hash_real_row_holds(row: Seq<u32>, pv: Seq<u32>) -> bool {
    let q = MODULUS as int;
    let slack = cells_value(seg(row, COL_SLACK_START, COL_QUOT_START));
    let quot = cells_value(seg(row, COL_QUOT_START, COL_EMIT_BITS_START));
    let emit = cells_value(seg(row, COL_EMIT_BITS_START, COL_B0_BITS_START));
    let b0 = cells_value(seg(row, COL_B0_BITS_START, COL_B1_BITS_START));
    let b1 = cells_value(seg(row, COL_B1_BITS_START, COL_COEFF_BITS_START));
    let coeff = cells_value(seg(row, COL_COEFF_BITS_START, COL_COEFF_SLACK_START));
    let cslack = cells_value(seg(row, COL_COEFF_SLACK_START, COL_IS_REAL));
    &&& row.len() == NUM_HASH_MAIN_COLS
    &&& cells_bool(seg(row, COL_B0_BITS_START, COL_B1_BITS_START))
    &&& cells_bool(seg(row, COL_B1_BITS_START, COL_COEFF_BITS_START))
    &&& cells_bool(seg(row, COL_SLACK_START, COL_QUOT_START))
    &&& feq(row[COL_B0 as int] as int, b0)
    &&& feq(row[COL_B1 as int] as int, b1)
    &&& feq(row[COL_B0 as int] * 256 + row[COL_B1 as int], row[COL_RAW as int] as int)
    &&& is_bit(row[COL_ACCEPT as int])
    &&& row[COL_ACCEPT as int] == 0 ==> {
        &&& feq(row[COL_COEFF as int] as int, 0)
        &&& feq(row[COL_RAW as int] as int, HASH_SAMPLE_THRESHOLD + slack)
    }
    &&& row[COL_ACCEPT as int] == 1 ==> {
        &&& cells_bool(seg(row, COL_QUOT_START, COL_EMIT_BITS_START))
        &&& cells_bool(seg(row, COL_EMIT_BITS_START, COL_B0_BITS_START))
        &&& cells_bool(seg(row, COL_COEFF_BITS_START, COL_COEFF_SLACK_START))
        &&& cells_bool(seg(row, COL_COEFF_SLACK_START, COL_IS_REAL))
        &&& feq(row[COL_RAW as int] + slack, HASH_SAMPLE_THRESHOLD - 1)
        &&& feq(row[COL_RAW as int] as int, row[COL_COEFF as int] + quot * q)
        &&& feq(row[COL_COEFF as int] as int, coeff)
        &&& feq(row[COL_COEFF as int] + cslack, q - 1)
        &&& feq(row[COL_COEFF as int] as int, row[COL_HM_REF as int] as int)
        &&& feq(row[COL_EMIT_CTR as int] as int, emit)
        &&& feq(row[COL_HM_REF as int] as int, pv[emit] as int)
    }
}

/// The last-row constraint: `emit_ctr = N`.
pub open spec fn hash_last_row_holds(row: Seq<u32>) -> bool {
    &&& row.len() == NUM_HASH_MAIN_COLS
    &&& feq(row[COL_EMIT_CTR as int] as int, N as int)
}

/// The first-row constraint: `emit_ctr = 0`.
pub open spec fn hash_first_row_holds(row: Seq<u32>) -> bool {
    feq(row[COL_EMIT_CTR as int] as int, 0)
}

/// The transition constraints between consecutive rows: a row after a padding row is padding,
/// and `emit_ctr` grows by `is_real · accept`. (In `eval`: `(1 − is_real) · is_real' = 0` and
/// `emit_ctr' = emit_ctr + is_real · accept`; with bit cells this is what they state.)
pub open spec fn hash_transition_holds(cur: Seq<u32>, next: Seq<u32>) -> bool {
    &&& cur[COL_IS_REAL as int] == 0 ==> next[COL_IS_REAL as int] == 0
    &&& feq(next[COL_EMIT_CTR as int] as int,
        cur[COL_EMIT_CTR as int] + cur[COL_IS_REAL as int] * cur[COL_ACCEPT as int])
}

/// All constraints of the hash-to-point AIR's `eval` over a trace with public values `pv`:
/// every row has the width and a bit `is_real`, real rows satisfy the real-row constraints,
/// consecutive rows the transition constraints, and the first and last rows theirs.
pub open spec fn hash_trace_holds(rows: Seq<Seq<u32>>, pv: Seq<u32>) -> bool {
    &&& rows.len() >= 2
    &&& forall|r: int| 0 <= r < rows.len() ==> {
        &&& (#[trigger] rows[r]).len() == NUM_HASH_MAIN_COLS
        &&& is_bit(rows[r][COL_IS_REAL as int])
        &&& rows[r][COL_IS_REAL as int] == 1 ==> hash_real_row_holds(rows[r], pv)
    }
    &&& forall|r: int| 0 <= r < rows.len() - 1 ==> #[trigger] hash_transition_holds(rows[r], rows[r + 1])
    &&& hash_first_row_holds(rows[0])
    &&& hash_last_row_holds(rows[rows.len() - 1])
}

/// Bit cells of a segment reconstruct a value below `2^len`.
proof fn lemma_seg_bound(row: Seq<u32>, a: usize, b: usize)
    requires
        a <= b <= row.len(),
        cells_bool(seg(row, a, b)),
    ensures
        0 <= cells_value(seg(row, a, b)) < pow2((b - a) as nat),
{
    lemma_cells_value_bound(seg(row, a, b));
}

/// Soundness of a real row with canonical cells and public values: `b0`, `b1` are bytes and
/// `raw = 256 · b0 + b1`; the row accepts exactly when `raw` is below the threshold; an
/// accepted row has `coeff = raw mod q = hm_ref = pv[emit_ctr]` with `emit_ctr < N` the value of
/// its ten bits; a rejected row has `coeff = 0`.
pub proof fn lemma_hash_row_sound(row: Seq<u32>, pv: Seq<u32>)
    requires
        hash_real_row_holds(row, pv),
        forall|c: int| 0 <= c < NUM_HASH_MAIN_COLS ==> canonical(#[trigger] row[c]),
        pv.len() == NUM_HASH_PUBLIC_VALUES,
        forall|k: int| 0 <= k < pv.len() ==> canonical(#[trigger] pv[k]),
    ensures
        row[COL_B0 as int] < 256,
        row[COL_B1 as int] < 256,
        row[COL_RAW as int] == row[COL_B0 as int] * 256 + row[COL_B1 as int],
        (row[COL_ACCEPT as int] == 1) == (row[COL_RAW as int] < HASH_SAMPLE_THRESHOLD),
        row[COL_ACCEPT as int] == 0 ==> row[COL_COEFF as int] == 0,
        row[COL_ACCEPT as int] == 1 ==> {
            &&& row[COL_COEFF as int] == (row[COL_RAW as int] as int) % (MODULUS as int)
            &&& row[COL_COEFF as int] == row[COL_HM_REF as int]
            &&& row[COL_EMIT_CTR as int] == cells_value(seg(row, COL_EMIT_BITS_START, COL_B0_BITS_START))
            &&& row[COL_EMIT_CTR as int] < N
            &&& row[COL_HM_REF as int] == pv[row[COL_EMIT_CTR as int] as int]
        },
{
    let q = MODULUS as int;
    lemma2_to64();
    lemma_seg_bound(row, COL_B0_BITS_START, COL_B1_BITS_START);
    lemma_seg_bound(row, COL_B1_BITS_START, COL_COEFF_BITS_START);
    lemma_seg_bound(row, COL_SLACK_START, COL_QUOT_START);
    let slack = cells_value(seg(row, COL_SLACK_START, COL_QUOT_START));
    let b0 = cells_value(seg(row, COL_B0_BITS_START, COL_B1_BITS_START));
    let b1 = cells_value(seg(row, COL_B1_BITS_START, COL_COEFF_BITS_START));
    assert(canonical(row[COL_RAW as int]));
    assert(canonical(row[COL_B0 as int]));
    assert(canonical(row[COL_B1 as int]));
    assert(canonical(row[COL_ACCEPT as int]));
    assert(canonical(row[COL_COEFF as int]));
    assert(canonical(row[COL_HM_REF as int]));
    assert(canonical(row[COL_EMIT_CTR as int]));
    lemma_feq_small(row[COL_B0 as int] as int, b0);
    lemma_feq_small(row[COL_B1 as int] as int, b1);
    lemma_feq_small(row[COL_B0 as int] * 256 + row[COL_B1 as int], row[COL_RAW as int] as int);
    if row[COL_ACCEPT as int] == 0 {
        lemma_feq_small(row[COL_COEFF as int] as int, 0);
        lemma_feq_small(row[COL_RAW as int] as int, HASH_SAMPLE_THRESHOLD + slack);
    } else {
        lemma_seg_bound(row, COL_QUOT_START, COL_EMIT_BITS_START);
        lemma_seg_bound(row, COL_EMIT_BITS_START, COL_B0_BITS_START);
        lemma_seg_bound(row, COL_COEFF_BITS_START, COL_COEFF_SLACK_START);
        lemma_seg_bound(row, COL_COEFF_SLACK_START, COL_IS_REAL);
        let quot = cells_value(seg(row, COL_QUOT_START, COL_EMIT_BITS_START));
        let emit = cells_value(seg(row, COL_EMIT_BITS_START, COL_B0_BITS_START));
        let coeff = cells_value(seg(row, COL_COEFF_BITS_START, COL_COEFF_SLACK_START));
        let cslack = cells_value(seg(row, COL_COEFF_SLACK_START, COL_IS_REAL));
        lemma_feq_small(row[COL_RAW as int] + slack, HASH_SAMPLE_THRESHOLD - 1);
        lemma_feq_small(row[COL_COEFF as int] as int, coeff);
        lemma_feq_small(row[COL_COEFF as int] + cslack, q - 1);
        assert(0 <= quot * q <= 7 * 12289) by (nonlinear_arith)
            requires
                0 <= quot < 8,
                q == 12289,
        ;
        lemma_feq_small(row[COL_RAW as int] as int, row[COL_COEFF as int] + quot * q);
        lemma_feq_small(row[COL_COEFF as int] as int, row[COL_HM_REF as int] as int);
        lemma_feq_small(row[COL_EMIT_CTR as int] as int, emit);
        assert(canonical(pv[emit]));
        lemma_feq_small(row[COL_HM_REF as int] as int, pv[emit] as int);
        vstd::arithmetic::div_mod::lemma_fundamental_div_mod_converse(
            row[COL_RAW as int] as int, q, quot, row[COL_COEFF as int] as int);
    }
}

} // verus!
