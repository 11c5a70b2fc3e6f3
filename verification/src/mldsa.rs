//! ML-DSA-44 challenge-bytes AIR: one row per byte of the 32-byte challenge `c_tilde`, each row
//! constraining it to equal the recomputed challenge byte.
use vstd::prelude::*;
use crate::trace::{TraceMatrix, concat_rows, uniform_width, lemma_concat_rows_take, lemma_concat_rows_index, lemma_matrix_cells};
use crate::field::{feq, lemma_feq_small};

verus! {

/// Challenge length in bytes for ML-DSA-44 (`Lambda` in FIPS 204).
pub const MLDSA44_LAMBDA_BYTES: usize = 32;

/// Main trace width: the signature's byte and the recomputed byte.
pub const NUM_MAIN_COLS: usize = 2;

/// Main row of the challenge-bytes AIR.
pub struct ChallengeRow<F> {
    pub c_tilde_byte: F,
    pub recomputed_byte: F,
}

/// The challenge-bytes AIR (no parameters).
#[derive(Clone, Debug, Default)]
pub struct MlDsa44ChallengeBytesAir;

/// The challenge-bytes AIR.
pub fn challenge_air() -> (air: MlDsa44ChallengeBytesAir)
    ensures
        air == MlDsa44ChallengeBytesAir,
{
    MlDsa44ChallengeBytesAir
}

/// The constraint the AIR's `eval` places on every row: the two bytes are equal in the field.
pub open spec fn challenge_row_holds(row: Seq<u32>) -> bool {
    row.len() == NUM_MAIN_COLS && feq(row[0] as int, row[1] as int)
}

/// Rows `(c_tilde[i], recomputed[i])` for `i < 32`.
pub open spec fn challenge_rows(c_tilde: Seq<u8>, recomputed: Seq<u8>) -> Seq<Seq<u32>> {
    Seq::new(MLDSA44_LAMBDA_BYTES as nat, |i: int| seq![c_tilde[i] as u32, recomputed[i] as u32])
}

/// Main trace: row `i` holds `c_tilde[i]` and `recomputed[i]`.
pub fn build_ml_dsa44_challenge_trace(c_tilde: &[u8], recomputed: &[u8]) -> (m: TraceMatrix)
    requires
        c_tilde@.len() >= MLDSA44_LAMBDA_BYTES,
        recomputed@.len() >= MLDSA44_LAMBDA_BYTES,
    ensures
        m.wf(),
        m.width == NUM_MAIN_COLS,
        m.rows() == MLDSA44_LAMBDA_BYTES,
        m.values@ == concat_rows(challenge_rows(c_tilde@, recomputed@)),
{
    let ghost rows = challenge_rows(c_tilde@, recomputed@);
    let mut vals: Vec<u32> = Vec::with_capacity(MLDSA44_LAMBDA_BYTES * NUM_MAIN_COLS);
    let mut i: usize = 0;
    while i < MLDSA44_LAMBDA_BYTES
        invariant
            i <= MLDSA44_LAMBDA_BYTES,
            c_tilde@.len() >= MLDSA44_LAMBDA_BYTES,
            recomputed@.len() >= MLDSA44_LAMBDA_BYTES,
            rows == challenge_rows(c_tilde@, recomputed@),
            vals@ == concat_rows(rows.take(i as int)),
        decreases MLDSA44_LAMBDA_BYTES - i,
    {
        let ghost before = vals@;
        vals.push(c_tilde[i] as u32);
        vals.push(recomputed[i] as u32);
        proof {
            assert(vals@ =~= before + rows[i as int]);
            lemma_concat_rows_take(rows, i as int);
        }
        i = i + 1;
    }
    proof {
        assert(rows.take(MLDSA44_LAMBDA_BYTES as int) =~= rows);
        assert(uniform_width(rows, NUM_MAIN_COLS as nat));
        lemma_concat_rows_index(rows, NUM_MAIN_COLS as nat);
    }
    let m: TraceMatrix = TraceMatrix::new(vals, NUM_MAIN_COLS);
    proof {
        lemma_matrix_cells(m, rows);
    }
    m
}

/// The challenge trace satisfies the AIR exactly when the first 32 bytes of `c_tilde` and of
/// the recomputed challenge agree.
pub proof fn lemma_challenge_trace_holds_iff(c_tilde: Seq<u8>, recomputed: Seq<u8>)
    requires
        c_tilde.len() >= MLDSA44_LAMBDA_BYTES,
        recomputed.len() >= MLDSA44_LAMBDA_BYTES,
    ensures
        (forall|i: int| 0 <= i < MLDSA44_LAMBDA_BYTES ==> #[trigger] challenge_row_holds(challenge_rows(c_tilde, recomputed)[i]))
            <==> c_tilde.take(MLDSA44_LAMBDA_BYTES as int) == recomputed.take(MLDSA44_LAMBDA_BYTES as int),
{
    let rows = challenge_rows(c_tilde, recomputed);
    assert forall|i: int| 0 <= i < MLDSA44_LAMBDA_BYTES implies
        (#[trigger] challenge_row_holds(rows[i]) <==> c_tilde[i] == recomputed[i]) by {
        lemma_feq_small(c_tilde[i] as int, recomputed[i] as int);
    }
    if c_tilde.take(32) != recomputed.take(32) {
        assert(!(c_tilde.take(32) =~= recomputed.take(32)));
        let i = choose|i: int| 0 <= i < 32 && c_tilde.take(32)[i] != recomputed.take(32)[i];
        assert(!challenge_row_holds(rows[i]));
    } else {
        assert forall|i: int| 0 <= i < 32 implies c_tilde[i] == recomputed[i] by {
            assert(c_tilde.take(32)[i] == recomputed.take(32)[i]);
        }
    }
}

} // verus!
