//! Witness (main trace) builders for the Falcon AIRs.
use vstd::prelude::*;
use crate::params::{N, LOG_N, MODULUS, MODULUS_MINUS_1_OVER_TWO, SIG_L2_BOUND, QUOT_BITS, ntt_table_ok, poly_ok};
use crate::bits::{le_bits, le_cells, quot_to_bits_le, lemma_bits_to_cells, u32_to_bits_le, lemma_le_cells_exact};
use crate::trace::{TraceMatrix, concat_rows, uniform_width, lemma_concat_rows_push, lemma_matrix_cells, lemma_concat_rows_take, lemma_concat_rows_index, matrix_rows, lemma_matrix_rows, lemma_matrix_rows_of};
use crate::air::unified_parsed_verify::{
    FalconUnifiedParsedVerifyAir, UNIFIED_PREP_WIDTH, UNIFIED_MAIN_WIDTH, UNIFIED_BODY_ROWS,
    UNIFIED_HEIGHT, unified_trace_height, unified_trace_holds, seg_one_hot, unified_dual_part,
    unified_ntt_part, unified_row_ok, unified_transition_ok,
};
use crate::air::ntt_full::{ntt_full_row_holds, ntt_full_outputs_hold, lemma_ntt_full_trace_sound, lemma_ntt_full_trace_rows_hold, build_ntt_full_preprocessed, build_ntt_full_main, ntt_full_prep_rows, ntt_full_main_rows, NUM_MAIN_COLS as NTT_FULL_MAIN_COLS, NUM_PREPROCESSED_COLS as NTT_FULL_PREP_COLS};
use crate::air::dual_ntt_equation::{
    FalconDualNttEquationAir, dual_ntt_witness_row, dual_congruent, dual_ntt_row_holds,
    lemma_dual_ntt_witness_row_holds, NUM_MAIN_COLS as DUAL_MAIN_COLS,
    NUM_DUAL_NTT_PREPROCESSED_COLS,
};
use crate::air::coeff_dual_product_zero::{
    FalconCoeffDualProductZeroAir, coeff_dual_witness_row, coeff_dual_row_holds,
    lemma_coeff_dual_witness_row_holds, NUM_MAIN_COLS as COEFF_DUAL_ZERO_MAIN_COLS,
    NUM_PREPROCESSED_COLS as COEFF_DUAL_ZERO_PREPROCESSED_COLS,
};
use crate::air::l2_bound::{
    l2_trace_holds, l2_bound_trace_holds, l2_sum, lemma_l2_trace_sound, l2_row_common, l2_first, l2_transition, l2_last, centered, row_e, row_accum,
    row_diff, row_delta, row_slack, row_magnitude, NUM_MAIN_COLS as L2_MAIN_COLS,
    NUM_PREPROCESSED_COLS as L2_PREPROCESSED_COLS, ACCUM_BITS, BOUND_DIFF_BITS,
    DELTA_Q_BITS, SLACK_BITS,
};
use crate::air::ntt_layer::{
    FalconNttLayerAir, butterfly_j_jht_s, butterfly_spec, state_before_ntt_layer, ntt_state_before,
    ntt_layer_witness_row, NUM_MAIN_COLS as NTT_LAYER_MAIN_COLS, lemma_butterfly_bounds,
    twiddle_column, ntt_layer_row_holds, group_value, lemma_ntt_layer_witness_row_holds,
    lemma_index_in_group, lemma_layer_shape, lemma_state_before_ok, butterfly_out, ntt_layer_spec,
    stride, half, groups,
};

verus! {

/// Append the 14 little-endian bit cells of `x`.
pub fn push_quot_bits(vals: &mut Vec<u32>, x: u16)
    requires
        x < 16384,
    ensures
        final(vals)@ == old(vals)@ + le_cells(x as nat, QUOT_BITS as nat),
{
    let bits: [u16; QUOT_BITS] = quot_to_bits_le(x);
    proof {
        lemma_bits_to_cells(x as nat, QUOT_BITS as nat);
    }
    let ghost start = vals@;
    let mut i: usize = 0;
    while i < QUOT_BITS
        invariant
            i <= QUOT_BITS,
            bits@ == le_bits(x as nat, QUOT_BITS as nat),
            forall|k: int| 0 <= k < QUOT_BITS ==> (#[trigger] le_bits(x as nat, QUOT_BITS as nat)[k]) as u32 == le_cells(x as nat, QUOT_BITS as nat)[k],
            vals@ =~= start + le_cells(x as nat, QUOT_BITS as nat).take(i as int),
        decreases QUOT_BITS - i,
    {
        vals.push(bits[i] as u32);
        i = i + 1;
    }
    proof {
        assert(le_cells(x as nat, QUOT_BITS as nat).take(QUOT_BITS as int) =~= le_cells(x as nat, QUOT_BITS as nat));
    }
}

/// Rows of the layer-`layer` main trace of `poly`: one witness row per butterfly.
pub open spec fn ntt_layer_trace_rows(table: Seq<u16>, poly: Seq<u16>, layer: nat) -> Seq<Seq<u32>> {
    let st = ntt_state_before(table, poly, layer);
    Seq::new((N / 2) as nat, |b: int| {
        let (j, j2, s) = butterfly_spec(table, layer, b as nat);
        ntt_layer_witness_row(st[j as int] as nat, st[j2 as int] as nat, s as nat)
    })
}

/// Main trace for [`FalconNttLayerAir`]: one row per butterfly at NTT layer `layer`.
pub fn build_ntt_layer_main_trace(table: &[u16], poly: &[u16; N], layer: usize) -> (m: TraceMatrix)
    requires
        ntt_table_ok(table@),
        poly_ok(poly@),
        layer < LOG_N,
    ensures
        m.width == NTT_LAYER_MAIN_COLS,
        m.values@ == concat_rows(ntt_layer_trace_rows(table@, poly@, layer as nat)),
        m.wf(),
        m.rows() == N / 2,
{
    let state: [u16; N] = state_before_ntt_layer(table, poly, layer);
    let ghost rows = ntt_layer_trace_rows(table@, poly@, layer as nat);
    let q: u32 = MODULUS as u32;
    let mut vals: Vec<u32> = Vec::with_capacity((N / 2) * NTT_LAYER_MAIN_COLS);
    let mut b: usize = 0;
    while b < N / 2
        invariant
            ntt_table_ok(table@),
            poly_ok(state@),
            state@ == ntt_state_before(table@, poly@, layer as nat),
            layer < LOG_N,
            q == MODULUS,
            b <= N / 2,
            rows == ntt_layer_trace_rows(table@, poly@, layer as nat),
            vals@ == concat_rows(rows.take(b as int)),
        decreases N / 2 - b,
    {
        let (j, j2, s): (usize, usize, u16) = butterfly_j_jht_s(table, layer, b);
        let u: u32 = state[j] as u32;
        let v_in: u32 = state[j2] as u32;
        proof {
            assert(state@[j as int] < MODULUS);
            assert(state@[j2 as int] < MODULUS);
            assert((v_in as int) * (s as int) < 12289 * 12289) by (nonlinear_arith)
                requires
                    v_in < 12289,
                    s < 12289,
            ;
        }
        let prod: u32 = v_in * s as u32;
        let v_mul: u32 = prod % q;
        let quot_vs: u32 = (prod - v_mul) / q;
        let out0: u32 = (u + v_mul) % q;
        let out1: u32 = (u + q - v_mul) % q;
        let q0: u32 = (u + v_mul - out0) / q;
        let q1: u32 = (u + q - v_mul - out1) / q;
        proof {
            vstd::arithmetic::div_mod::lemma_fundamental_div_mod(prod as int, q as int);
            vstd::arithmetic::div_mod::lemma_fundamental_div_mod((u + v_mul) as int, q as int);
            vstd::arithmetic::div_mod::lemma_fundamental_div_mod((u + q - v_mul) as int, q as int);
            vstd::arithmetic::div_mod::lemma_div_multiples_vanish((prod / q) as int, q as int);
            vstd::arithmetic::div_mod::lemma_div_multiples_vanish(((u + v_mul) as int) / (q as int), q as int);
            vstd::arithmetic::div_mod::lemma_div_multiples_vanish(((u + q - v_mul) as int) / (q as int), q as int);
            vstd::arithmetic::div_mod::lemma_div_is_ordered(prod as int, 12289int * 12289int, q as int);
        }
        let ghost before = vals@;
        push_quot_bits(&mut vals, u as u16);
        push_quot_bits(&mut vals, v_in as u16);
        push_quot_bits(&mut vals, v_mul as u16);
        push_quot_bits(&mut vals, quot_vs as u16);
        push_quot_bits(&mut vals, out0 as u16);
        push_quot_bits(&mut vals, out1 as u16);
        vals.push(q0);
        vals.push(q1);
        proof {
            let row = rows[b as int];
            assert(row == ntt_layer_witness_row(u as nat, v_in as nat, s as nat));
            assert(vals@ =~= before + row);
            crate::trace::lemma_concat_rows_take(rows, b as int);
        }
        b = b + 1;
    }
    proof {
        assert(rows.take((N / 2) as int) =~= rows);
        assert(uniform_width(rows, NTT_LAYER_MAIN_COLS as nat));
        crate::trace::lemma_concat_rows_index(rows, NTT_LAYER_MAIN_COLS as nat);
        vstd::arithmetic::div_mod::lemma_mod_multiples_basic((N / 2) as int, NTT_LAYER_MAIN_COLS as int);
    }
    let m: TraceMatrix = TraceMatrix::new(vals, NTT_LAYER_MAIN_COLS);
    proof {
        lemma_matrix_cells(m, rows);
    }
    m
}

/// Preprocessed twiddle column and main trace for the layer-`layer` AIR of `poly`.
pub fn build_ntt_layer_instance(table: &[u16], poly: &[u16; N], layer: usize) -> (r: (FalconNttLayerAir, TraceMatrix))
    requires
        ntt_table_ok(table@),
        poly_ok(poly@),
        layer < LOG_N,
    ensures
        r.0.preprocessed.values@ == twiddle_column(table@, layer as nat),
        r.0.preprocessed.width == 1,
        r.1.width == NTT_LAYER_MAIN_COLS,
        r.1.values@ == concat_rows(ntt_layer_trace_rows(table@, poly@, layer as nat)),
{
    let prep: TraceMatrix = FalconNttLayerAir::preprocessed_for_layer(table, layer);
    let air: FalconNttLayerAir = FalconNttLayerAir::new(prep);
    let main: TraceMatrix = build_ntt_layer_main_trace(table, poly, layer);
    (air, main)
}

/// Layer-0 main trace of `poly`.
pub fn build_ntt_layer0_trace(table: &[u16], poly: &[u16; N]) -> (m: TraceMatrix)
    requires
        ntt_table_ok(table@),
        poly_ok(poly@),
    ensures
        m.width == NTT_LAYER_MAIN_COLS,
        m.values@ == concat_rows(ntt_layer_trace_rows(table@, poly@, 0)),
{
    build_ntt_layer_main_trace(table, poly, 0)
}

/// Row `b` of the layer-`layer` trace satisfies the layer constraints against its twiddle, and its
/// `out0`, `out1` groups are entries `j`, `j + ht` of the state after that layer.
pub proof fn lemma_ntt_layer_trace_row(table: Seq<u16>, poly: Seq<u16>, layer: nat, b: nat)
    requires
        ntt_table_ok(table),
        poly_ok(poly),
        layer < LOG_N,
        b < N / 2,
    ensures
        ({
            let row = ntt_layer_trace_rows(table, poly, layer)[b as int];
            let (j, j2, s) = butterfly_spec(table, layer, b);
            let after = ntt_state_before(table, poly, layer + 1);
            &&& ntt_layer_row_holds(twiddle_column(table, layer).subrange(b as int, b as int + 1), row)
            &&& group_value(row, 4) == after[j as int]
            &&& group_value(row, 5) == after[j2 as int]
        }),
{
    let st = ntt_state_before(table, poly, layer);
    let (j, j2, s) = butterfly_spec(table, layer, b);
    lemma_butterfly_bounds(layer, b);
    lemma_layer_shape(layer);
    lemma_state_before_ok(table, poly, layer);
    let t = stride(layer) as int;
    let ht = half(layer) as int;
    let i = (b / half(layer)) as int;
    assert(st[j as int] < MODULUS);
    assert(st[j2 as int] < MODULUS);
    assert(s < MODULUS);
    lemma_ntt_layer_witness_row_holds(st[j as int] as nat, st[j2 as int] as nat, s as nat);
    assert(twiddle_column(table, layer).subrange(b as int, b as int + 1) =~= seq![s as u32]);
    lemma_index_in_group(i, (b % half(layer)) as int, t);
    lemma_index_in_group(i, (b % half(layer)) as int + ht, t);
    assert(ntt_state_before(table, poly, layer + 1) == ntt_layer_spec(table, st, layer));
    assert(butterfly_out(table, st, layer, j as int) as int == group_value(ntt_layer_trace_rows(table, poly, layer)[b as int], 4));
    assert(butterfly_out(table, st, layer, j2 as int) as int == group_value(ntt_layer_trace_rows(table, poly, layer)[b as int], 5));
}

/// NTT-domain data of one parsed Falcon statement `(pk, msg, sig)`: `pk_ntt`, `hm_ntt` with
/// `hm = H(msg, nonce)`, the dual limbs of `sig` and of `v = hm − sig_pos·pk + sig_neg·pk`.
pub struct DualNttStatement {
    pub pk_ntt: Vec<u16>,
    pub hm_ntt: Vec<u16>,
    pub sig_pos_ntt: Vec<u16>,
    pub sig_neg_ntt: Vec<u16>,
    pub v_pos_ntt: Vec<u16>,
    pub v_neg_ntt: Vec<u16>,
}

impl DualNttStatement {
    /// All six polynomials are reduced and of length `N`.
    pub open spec fn wf(&self) -> bool {
        &&& poly_ok(self.pk_ntt@)
        &&& poly_ok(self.hm_ntt@)
        &&& poly_ok(self.sig_pos_ntt@)
        &&& poly_ok(self.sig_neg_ntt@)
        &&& poly_ok(self.v_pos_ntt@)
        &&& poly_ok(self.v_neg_ntt@)
    }

    /// Index `i` satisfies `hm + v_neg + sig_neg·pk ≡ v_pos + sig_pos·pk (mod q)`.
    pub open spec fn congruent_at(&self, i: int) -> bool {
        dual_congruent(self.pk_ntt@[i] as nat, self.hm_ntt@[i] as nat, self.sig_pos_ntt@[i] as nat,
            self.sig_neg_ntt@[i] as nat, self.v_pos_ntt@[i] as nat, self.v_neg_ntt@[i] as nat)
    }

    /// Every index satisfies the dual-NTT congruence.
    pub open spec fn congruent(&self) -> bool {
        forall|i: int| 0 <= i < N ==> #[trigger] self.congruent_at(i)
    }

    /// Whether every index satisfies the dual-NTT congruence.
    pub fn is_congruent(&self) -> (ok: bool)
        requires
            self.wf(),
        ensures
            ok == self.congruent(),
    {
        let q: u64 = MODULUS as u64;
        let mut i: usize = 0;
        while i < N
            invariant
                self.wf(),
                q == MODULUS,
                i <= N,
                forall|k: int| 0 <= k < i ==> #[trigger] self.congruent_at(k),
            decreases N - i,
        {
            let pk: u64 = self.pk_ntt[i] as u64;
            let sn: u64 = self.sig_neg_ntt[i] as u64;
            let sp: u64 = self.sig_pos_ntt[i] as u64;
            proof {
                assert(sn * pk <= 65535 * 65535 && sp * pk <= 65535 * 65535) by (nonlinear_arith)
                    requires
                        sn <= 65535,
                        sp <= 65535,
                        pk <= 65535,
                ;
            }
            let sum_l: u64 = self.hm_ntt[i] as u64 + self.v_neg_ntt[i] as u64 + self.sig_neg_ntt[i] as u64 * pk;
            let sum_r: u64 = self.v_pos_ntt[i] as u64 + self.sig_pos_ntt[i] as u64 * pk;
            if sum_l % q != sum_r % q {
                assert(!self.congruent_at(i as int));
                return false;
            }
            i = i + 1;
        }
        true
    }
}

/// Reference rows `(sig_pos, sig_neg, v_pos, v_neg)` per NTT index.
pub open spec fn dual_ref_rows(st: &DualNttStatement) -> Seq<Seq<u32>> {
    Seq::new(N as nat, |i: int| seq![st.sig_pos_ntt@[i] as u32, st.sig_neg_ntt@[i] as u32,
        st.v_pos_ntt@[i] as u32, st.v_neg_ntt@[i] as u32])
}

/// Main rows of the dual-NTT trace.
pub open spec fn dual_main_rows(st: &DualNttStatement) -> Seq<Seq<u32>> {
    Seq::new(N as nat, |i: int| dual_ntt_witness_row(st.pk_ntt@[i] as nat, st.hm_ntt@[i] as nat,
        st.sig_pos_ntt@[i] as nat, st.sig_neg_ntt@[i] as nat, st.v_pos_ntt@[i] as nat,
        st.v_neg_ntt@[i] as nat))
}

/// A reduced polynomial as field cells.
pub open spec fn poly_cells(p: Seq<u16>) -> Seq<u32> {
    p.map_values(|c: u16| c as u32)
}

/// Dual-NTT AIR (public `pk_ntt`, `hm_ntt`, reference limbs) and its main trace.
pub fn build_falcon_dual_ntt_instance(st: &DualNttStatement) -> (r: (FalconDualNttEquationAir, TraceMatrix))
    requires
        st.wf(),
    ensures
        r.0.pk_ntt@ == poly_cells(st.pk_ntt@),
        r.0.hm_ntt@ == poly_cells(st.hm_ntt@),
        r.0.ntt_ref.width == NUM_DUAL_NTT_PREPROCESSED_COLS,
        r.0.ntt_ref.values@ == concat_rows(dual_ref_rows(st)),
        r.1.width == DUAL_MAIN_COLS,
        r.1.values@ == concat_rows(dual_main_rows(st)),
        r.1.wf(),
        r.1.rows() == N,
{
    let ghost refs = dual_ref_rows(st);
    let ghost mains = dual_main_rows(st);
    let q: u64 = MODULUS as u64;
    let mut pk_vals: Vec<u32> = Vec::with_capacity(N);
    let mut hm_vals: Vec<u32> = Vec::with_capacity(N);
    let mut ref_vals: Vec<u32> = Vec::with_capacity(N * NUM_DUAL_NTT_PREPROCESSED_COLS);
    let mut main_vals: Vec<u32> = Vec::with_capacity(N * DUAL_MAIN_COLS);
    let mut i: usize = 0;
    while i < N
        invariant
            st.wf(),
            q == MODULUS,
            i <= N,
            refs == dual_ref_rows(st),
            mains == dual_main_rows(st),
            pk_vals@ =~= poly_cells(st.pk_ntt@).take(i as int),
            hm_vals@ =~= poly_cells(st.hm_ntt@).take(i as int),
            ref_vals@ == concat_rows(refs.take(i as int)),
            main_vals@ == concat_rows(mains.take(i as int)),
        decreases N - i,
    {
        let pk_i: u16 = st.pk_ntt[i];
        let hm_i: u16 = st.hm_ntt[i];
        let sp: u16 = st.sig_pos_ntt[i];
        let sn: u16 = st.sig_neg_ntt[i];
        let vp: u16 = st.v_pos_ntt[i];
        let vn: u16 = st.v_neg_ntt[i];
        proof {
            assert(st.pk_ntt@[i as int] < MODULUS);
            assert(st.hm_ntt@[i as int] < MODULUS);
            assert(st.sig_pos_ntt@[i as int] < MODULUS);
            assert(st.sig_neg_ntt@[i as int] < MODULUS);
            assert(st.v_pos_ntt@[i as int] < MODULUS);
            assert(st.v_neg_ntt@[i as int] < MODULUS);
            assert((sp as int) * (pk_i as int) <= 12288 * 12288 && (sn as int) * (pk_i as int) <= 12288 * 12288) by (nonlinear_arith)
                requires
                    sp < 12289,
                    sn < 12289,
                    pk_i < 12289,
            ;
        }
        let pk_u: u64 = pk_i as u64;
        let prod_sp: u64 = sp as u64 * pk_u;
        let prod_sn: u64 = sn as u64 * pk_u;
        let sum_l: u64 = hm_i as u64 + vn as u64 + prod_sn;
        let sum_r: u64 = vp as u64 + prod_sp;
        let lhs: u64 = sum_l % q;
        let rhs: u64 = sum_r % q;
        let quot_l: u64 = (sum_l - lhs) / q;
        let quot_r: u64 = (sum_r - rhs) / q;
        proof {
            vstd::arithmetic::div_mod::lemma_fundamental_div_mod(sum_l as int, q as int);
            vstd::arithmetic::div_mod::lemma_fundamental_div_mod(sum_r as int, q as int);
            vstd::arithmetic::div_mod::lemma_div_multiples_vanish((sum_l / q) as int, q as int);
            vstd::arithmetic::div_mod::lemma_div_multiples_vanish((sum_r / q) as int, q as int);
            vstd::arithmetic::div_mod::lemma_div_is_ordered(sum_l as int, 12289int * 12289int, q as int);
            vstd::arithmetic::div_mod::lemma_div_is_ordered(sum_r as int, 12289int * 12289int, q as int);
        }
        pk_vals.push(pk_i as u32);
        hm_vals.push(hm_i as u32);
        let ghost ref_before = ref_vals@;
        ref_vals.push(sp as u32);
        ref_vals.push(sn as u32);
        ref_vals.push(vp as u32);
        ref_vals.push(vn as u32);
        let ghost main_before = main_vals@;
        main_vals.push(sp as u32);
        main_vals.push(sn as u32);
        main_vals.push(vp as u32);
        main_vals.push(vn as u32);
        main_vals.push(lhs as u32);
        main_vals.push(rhs as u32);
        main_vals.push(prod_sp as u32);
        main_vals.push(prod_sn as u32);
        push_quot_bits(&mut main_vals, quot_l as u16);
        push_quot_bits(&mut main_vals, quot_r as u16);
        proof {
            assert(ref_vals@ =~= ref_before + refs[i as int]);
            crate::trace::lemma_concat_rows_take(refs, i as int);
            assert(main_vals@ =~= main_before + mains[i as int]);
            crate::trace::lemma_concat_rows_take(mains, i as int);
        }
        i = i + 1;
    }
    proof {
        assert(refs.take(N as int) =~= refs);
        assert(mains.take(N as int) =~= mains);
        assert(uniform_width(refs, NUM_DUAL_NTT_PREPROCESSED_COLS as nat));
        assert(uniform_width(mains, DUAL_MAIN_COLS as nat));
        crate::trace::lemma_concat_rows_index(refs, NUM_DUAL_NTT_PREPROCESSED_COLS as nat);
        crate::trace::lemma_concat_rows_index(mains, DUAL_MAIN_COLS as nat);
        vstd::arithmetic::div_mod::lemma_mod_multiples_basic(N as int, NUM_DUAL_NTT_PREPROCESSED_COLS as int);
        vstd::arithmetic::div_mod::lemma_mod_multiples_basic(N as int, DUAL_MAIN_COLS as int);
    }
    let main: TraceMatrix = TraceMatrix::new(main_vals, DUAL_MAIN_COLS);
    let ntt_ref: TraceMatrix = TraceMatrix::new(ref_vals, NUM_DUAL_NTT_PREPROCESSED_COLS);
    proof {
        lemma_matrix_cells(main, mains);
        lemma_matrix_cells(ntt_ref, refs);
        assert(pk_vals@ =~= poly_cells(st.pk_ntt@));
        assert(hm_vals@ =~= poly_cells(st.hm_ntt@));
    }
    let air: FalconDualNttEquationAir = FalconDualNttEquationAir::new(pk_vals, hm_vals, ntt_ref);
    (air, main)
}

/// Completeness of the dual-NTT trace: row `i` satisfies the dual-NTT constraints against the
/// periodic values and reference row at `i`.
pub proof fn lemma_dual_ntt_trace_rows_hold(st: &DualNttStatement, i: int)
    requires
        st.wf(),
        st.congruent(),
        0 <= i < N,
    ensures
        dual_ntt_row_holds(poly_cells(st.pk_ntt@)[i], poly_cells(st.hm_ntt@)[i],
            dual_ref_rows(st)[i], dual_main_rows(st)[i]),
{
    assert(st.congruent_at(i));
    assert(st.pk_ntt@[i] < MODULUS);
    assert(st.hm_ntt@[i] < MODULUS);
    assert(st.sig_pos_ntt@[i] < MODULUS);
    assert(st.sig_neg_ntt@[i] < MODULUS);
    assert(st.v_pos_ntt@[i] < MODULUS);
    assert(st.v_neg_ntt@[i] < MODULUS);
    lemma_dual_ntt_witness_row_holds(st.pk_ntt@[i] as nat, st.hm_ntt@[i] as nat,
        st.sig_pos_ntt@[i] as nat, st.sig_neg_ntt@[i] as nat, st.v_pos_ntt@[i] as nat,
        st.v_neg_ntt@[i] as nat);
}

/// Coefficient-domain dual limbs of a polynomial: coefficient `c` is `pos − neg` with at most
/// one of the two limbs nonzero.
pub struct DualPolynomial {
    pub pos: Vec<u16>,
    pub neg: Vec<u16>,
}

impl DualPolynomial {
    /// Both limbs are reduced polynomials of length `N`.
    pub open spec fn wf(&self) -> bool {
        poly_ok(self.pos@) && poly_ok(self.neg@)
    }

    /// At every index at most one limb is nonzero.
    pub open spec fn disjoint(&self) -> bool {
        forall|i: int| 0 <= i < N ==> (#[trigger] self.pos@[i]) * self.neg@[i] == 0
    }

    /// Whether at every index at most one limb is nonzero.
    pub fn is_disjoint(&self) -> (ok: bool)
        requires
            self.wf(),
        ensures
            ok == self.disjoint(),
    {
        let mut i: usize = 0;
        while i < N
            invariant
                self.wf(),
                i <= N,
                forall|k: int| 0 <= k < i ==> (#[trigger] self.pos@[k]) * self.neg@[k] == 0,
            decreases N - i,
        {
            if self.pos[i] != 0 && self.neg[i] != 0 {
                proof {
                    assert(self.pos@[i as int] * self.neg@[i as int] != 0) by (nonlinear_arith)
                        requires
                            self.pos@[i as int] > 0,
                            self.neg@[i as int] > 0,
                    ;
                }
                return false;
            }
            proof {
                assert(self.pos@[i as int] * self.neg@[i as int] == 0) by (nonlinear_arith)
                    requires
                        self.pos@[i as int] == 0 || self.neg@[i as int] == 0,
                ;
            }
            i = i + 1;
        }
        true
    }
}

/// Expected-coefficient rows `(pos[i], neg[i])`.
pub open spec fn coeff_dual_prep_rows(sig: &DualPolynomial) -> Seq<Seq<u32>> {
    Seq::new(N as nat, |i: int| seq![sig.pos@[i] as u32, sig.neg@[i] as u32])
}

/// Main rows: the two limbs in 14 bits each.
pub open spec fn coeff_dual_main_rows(sig: &DualPolynomial) -> Seq<Seq<u32>> {
    Seq::new(N as nat, |i: int| coeff_dual_witness_row(sig.pos@[i] as nat, sig.neg@[i] as nat))
}

/// Preprocessed trace for [`FalconCoeffDualProductZeroAir`]: expected `sig_pos`, `sig_neg` per row.
pub fn build_falcon_coeff_dual_product_zero_preprocessed(sig: &DualPolynomial) -> (m: TraceMatrix)
    requires
        sig.wf(),
    ensures
        m.width == COEFF_DUAL_ZERO_PREPROCESSED_COLS,
        m.values@ == concat_rows(coeff_dual_prep_rows(sig)),
        m.wf(),
        m.rows() == N,
{
    let ghost rows = coeff_dual_prep_rows(sig);
    let mut vals: Vec<u32> = Vec::with_capacity(N * COEFF_DUAL_ZERO_PREPROCESSED_COLS);
    let mut i: usize = 0;
    while i < N
        invariant
            sig.wf(),
            i <= N,
            rows == coeff_dual_prep_rows(sig),
            vals@ == concat_rows(rows.take(i as int)),
        decreases N - i,
    {
        let ghost before = vals@;
        vals.push(sig.pos[i] as u32);
        vals.push(sig.neg[i] as u32);
        proof {
            assert(vals@ =~= before + rows[i as int]);
            crate::trace::lemma_concat_rows_take(rows, i as int);
        }
        i = i + 1;
    }
    proof {
        assert(rows.take(N as int) =~= rows);
        assert(uniform_width(rows, COEFF_DUAL_ZERO_PREPROCESSED_COLS as nat));
        crate::trace::lemma_concat_rows_index(rows, COEFF_DUAL_ZERO_PREPROCESSED_COLS as nat);
        vstd::arithmetic::div_mod::lemma_mod_multiples_basic(N as int, COEFF_DUAL_ZERO_PREPROCESSED_COLS as int);
    }
    let m: TraceMatrix = TraceMatrix::new(vals, COEFF_DUAL_ZERO_PREPROCESSED_COLS);
    proof {
        lemma_matrix_cells(m, rows);
    }
    m
}

/// [`FalconCoeffDualProductZeroAir`] over the expected coefficients, plus its main trace.
pub fn build_falcon_coeff_dual_product_zero_instance(sig: &DualPolynomial) -> (r: (FalconCoeffDualProductZeroAir, TraceMatrix))
    requires
        sig.wf(),
    ensures
        r.0.expected.values@ == concat_rows(coeff_dual_prep_rows(sig)),
        r.0.expected.width == COEFF_DUAL_ZERO_PREPROCESSED_COLS,
        r.1.width == COEFF_DUAL_ZERO_MAIN_COLS,
        r.1.values@ == concat_rows(coeff_dual_main_rows(sig)),
        r.1.wf(),
        r.1.rows() == N,
{
    let prep: TraceMatrix = build_falcon_coeff_dual_product_zero_preprocessed(sig);
    let air: FalconCoeffDualProductZeroAir = FalconCoeffDualProductZeroAir::new(prep);
    let ghost rows = coeff_dual_main_rows(sig);
    let mut vals: Vec<u32> = Vec::with_capacity(N * COEFF_DUAL_ZERO_MAIN_COLS);
    let mut i: usize = 0;
    while i < N
        invariant
            sig.wf(),
            i <= N,
            rows == coeff_dual_main_rows(sig),
            vals@ == concat_rows(rows.take(i as int)),
        decreases N - i,
    {
        let pos: u16 = sig.pos[i];
        let neg: u16 = sig.neg[i];
        proof {
            assert(sig.pos@[i as int] < MODULUS);
            assert(sig.neg@[i as int] < MODULUS);
        }
        let ghost before = vals@;
        push_quot_bits(&mut vals, pos);
        push_quot_bits(&mut vals, neg);
        proof {
            assert(vals@ =~= before + rows[i as int]);
            crate::trace::lemma_concat_rows_take(rows, i as int);
        }
        i = i + 1;
    }
    proof {
        assert(rows.take(N as int) =~= rows);
        assert(uniform_width(rows, COEFF_DUAL_ZERO_MAIN_COLS as nat));
        crate::trace::lemma_concat_rows_index(rows, COEFF_DUAL_ZERO_MAIN_COLS as nat);
        vstd::arithmetic::div_mod::lemma_mod_multiples_basic(N as int, COEFF_DUAL_ZERO_MAIN_COLS as int);
    }
    let main: TraceMatrix = TraceMatrix::new(vals, COEFF_DUAL_ZERO_MAIN_COLS);
    proof {
        lemma_matrix_cells(main, rows);
    }
    (air, main)
}

/// Main trace for [`FalconCoeffDualProductZeroAir`]: `sig_pos`, `sig_neg` as 14 + 14 bit columns.
pub fn build_falcon_coeff_dual_product_zero_trace(sig: &DualPolynomial) -> (m: TraceMatrix)
    requires
        sig.wf(),
    ensures
        m.width == COEFF_DUAL_ZERO_MAIN_COLS,
        m.values@ == concat_rows(coeff_dual_main_rows(sig)),
{
    let (_air, main): (FalconCoeffDualProductZeroAir, TraceMatrix) = build_falcon_coeff_dual_product_zero_instance(sig);
    main
}

/// Completeness: for disjoint limbs every coefficient row satisfies the dual-zero constraints.
pub proof fn lemma_coeff_dual_trace_rows_hold(sig: &DualPolynomial, i: int)
    requires
        sig.wf(),
        sig.disjoint(),
        0 <= i < N,
    ensures
        coeff_dual_row_holds(coeff_dual_prep_rows(sig)[i], coeff_dual_main_rows(sig)[i]),
{
    assert(sig.pos@[i] < MODULUS);
    assert(sig.neg@[i] < MODULUS);
    assert(sig.pos@[i] * sig.neg@[i] == 0);
    lemma_coeff_dual_witness_row_holds(sig.pos@[i] as nat, sig.neg@[i] as nat);
}

/// Append the `nbits` little-endian bit cells of `x`.
pub fn push_bits_le(vals: &mut Vec<u32>, x: u32, nbits: usize)
    requires
        nbits <= 32,
    ensures
        final(vals)@ == old(vals)@ + le_cells(x as nat, nbits as nat),
{
    let bits: Vec<u16> = u32_to_bits_le(x, nbits);
    proof {
        lemma_bits_to_cells(x as nat, nbits as nat);
    }
    let ghost start = vals@;
    let mut i: usize = 0;
    while i < nbits
        invariant
            i <= nbits <= 32,
            bits@ == le_bits(x as nat, nbits as nat),
            forall|k: int| 0 <= k < nbits ==> (#[trigger] le_bits(x as nat, nbits as nat)[k]) as u32 == le_cells(x as nat, nbits as nat)[k],
            vals@ =~= start + le_cells(x as nat, nbits as nat).take(i as int),
        decreases nbits - i,
    {
        vals.push(bits[i] as u32);
        i = i + 1;
    }
    proof {
        assert(le_cells(x as nat, nbits as nat).take(nbits as int) =~= le_cells(x as nat, nbits as nat));
    }
}

/// The `4N` coefficients of the L² trace: `sig_pos`, `sig_neg`, `v_pos`, `v_neg`.
pub open spec fn l2_coeffs(sig: &DualPolynomial, v: &DualPolynomial) -> Seq<u16> {
    sig.pos@ + sig.neg@ + v.pos@ + v.neg@
}

/// `Σ_{r < k} centered(c_r)²`.
pub open spec fn l2_prefix(c: Seq<u16>, k: int) -> int
    decreases k,
{
    if k <= 0 {
        0
    } else {
        l2_prefix(c, k - 1) + centered(c[k - 1] as int) * centered(c[k - 1] as int)
    }
}

/// Squared L² norm of `(sig, v)` with centered coefficients.
pub open spec fn dual_l2_norm(sig: &DualPolynomial, v: &DualPolynomial) -> int {
    l2_prefix(l2_coeffs(sig, v), 4 * N)
}

/// Main row for coefficient `e`, running sum `accum` and bound slack `diff`.
pub open spec fn l2_witness_row(e: nat, accum: nat, diff: nat) -> Seq<u32> {
    let high = e > MODULUS_MINUS_1_OVER_TWO;
    let slack = if high { e - (MODULUS_MINUS_1_OVER_TWO + 1) } else { MODULUS_MINUS_1_OVER_TWO - e };
    le_cells(e, 14) + le_cells((MODULUS - 1 - e) as nat, 14) + seq![if high { 1u32 } else { 0u32 }]
        + le_cells(slack as nat, 14) + le_cells(accum, 27) + le_cells(diff, 27)
}

/// Rows of the L² trace of `(sig, v)`.
pub open spec fn l2_trace_rows(sig: &DualPolynomial, v: &DualPolynomial) -> Seq<Seq<u32>> {
    let c = l2_coeffs(sig, v);
    Seq::new((4 * N) as nat, |r: int| l2_witness_row(c[r] as nat, l2_prefix(c, r + 1) as nat,
        if r == 4 * N - 1 { (SIG_L2_BOUND - l2_prefix(c, 4 * N)) as nat } else { 0 }))
}

/// Prefix sums are monotone and each term is at most `6144²`.
pub proof fn lemma_l2_prefix_monotone(c: Seq<u16>, j: int, k: int)
    requires
        0 <= j <= k <= c.len(),
        forall|i: int| 0 <= i < c.len() ==> #[trigger] c[i] < MODULUS,
    ensures
        0 <= l2_prefix(c, j) <= l2_prefix(c, k),
    decreases k - j,
{
    if j < k {
        lemma_l2_prefix_monotone(c, j, k - 1);
        let m = centered(c[k - 1] as int);
        assert(m * m >= 0) by (nonlinear_arith);
    } else {
        lemma_l2_prefix_nonneg(c, k);
    }
}

/// Prefix sums are nonnegative.
pub proof fn lemma_l2_prefix_nonneg(c: Seq<u16>, k: int)
    requires
        0 <= k <= c.len(),
        forall|i: int| 0 <= i < c.len() ==> #[trigger] c[i] < MODULUS,
    ensures
        0 <= l2_prefix(c, k),
    decreases k,
{
    if k > 0 {
        lemma_l2_prefix_nonneg(c, k - 1);
        let m = centered(c[k - 1] as int);
        assert(m * m >= 0) by (nonlinear_arith);
    }
}

/// The coefficient sequence of two well-formed dual polynomials is reduced.
pub proof fn lemma_l2_coeffs_ok(sig: &DualPolynomial, v: &DualPolynomial)
    requires
        sig.wf(),
        v.wf(),
    ensures
        l2_coeffs(sig, v).len() == 4 * N,
        forall|i: int| 0 <= i < 4 * N ==> #[trigger] l2_coeffs(sig, v)[i] < MODULUS,
{
    let c = l2_coeffs(sig, v);
    assert forall|i: int| 0 <= i < 4 * N implies #[trigger] c[i] < MODULUS by {
        if i < N {
            assert(c[i] == sig.pos@[i]);
        } else if i < 2 * N {
            assert(c[i] == sig.neg@[i - N]);
        } else if i < 3 * N {
            assert(c[i] == v.pos@[i - 2 * N]);
        } else {
            assert(c[i] == v.neg@[i - 3 * N]);
        }
    }
}

/// Sum of the squared centered coefficients of `p`.
pub open spec fn centered_sq_sum(p: Seq<u16>) -> int
    decreases p.len(),
{
    if p.len() == 0 {
        0
    } else {
        centered_sq_sum(p.drop_last()) + centered(p.last() as int) * centered(p.last() as int)
    }
}

/// The squared-sum of a concatenation is the sum of the squared-sums.
proof fn lemma_centered_sq_sum_concat(a: Seq<u16>, b: Seq<u16>)
    ensures
        centered_sq_sum(a + b) == centered_sq_sum(a) + centered_sq_sum(b),
    decreases b.len(),
{
    if b.len() == 0 {
        assert(a + b =~= a);
    } else {
        lemma_centered_sq_sum_concat(a, b.drop_last());
        assert((a + b).drop_last() =~= a + b.drop_last());
    }
}

/// The running L² prefix of `c` is the squared-sum of its first `k` coefficients.
proof fn lemma_l2_prefix_is_sum(c: Seq<u16>, k: int)
    requires
        0 <= k <= c.len(),
    ensures
        l2_prefix(c, k) == centered_sq_sum(c.take(k)),
    decreases k,
{
    if k > 0 {
        lemma_l2_prefix_is_sum(c, k - 1);
        assert(c.take(k).drop_last() =~= c.take(k - 1));
    }
}

/// The L² coefficient table lists `sig.pos`, `sig.neg`, `v.pos`, `v.neg` in that order: row
/// `k · N + i` holds coefficient `i` of limb `k`.
pub proof fn lemma_l2_coeffs_layout(sig: &DualPolynomial, v: &DualPolynomial)
    requires
        sig.wf(),
        v.wf(),
    ensures
        l2_coeffs(sig, v).len() == 4 * N,
        forall|i: int| 0 <= i < N ==> {
            &&& #[trigger] l2_coeffs(sig, v)[i] == sig.pos@[i]
            &&& l2_coeffs(sig, v)[N + i] == sig.neg@[i]
            &&& l2_coeffs(sig, v)[2 * N + i] == v.pos@[i]
            &&& l2_coeffs(sig, v)[3 * N + i] == v.neg@[i]
        },
{
}

/// The squared L² norm of `(sig, v)` is the sum, over the four limbs `sig.pos`, `sig.neg`,
/// `v.pos`, `v.neg`, of their squared centered coefficients; `l2_within_bound` compares this
/// sum with `SIG_L2_BOUND`.
pub proof fn lemma_dual_l2_norm_limbs(sig: &DualPolynomial, v: &DualPolynomial)
    requires
        sig.wf(),
        v.wf(),
    ensures
        dual_l2_norm(sig, v) == centered_sq_sum(sig.pos@) + centered_sq_sum(sig.neg@)
            + centered_sq_sum(v.pos@) + centered_sq_sum(v.neg@),
{
    let c = l2_coeffs(sig, v);
    lemma_l2_prefix_is_sum(c, 4 * N);
    assert(c.take(4 * N) =~= ((sig.pos@ + sig.neg@) + v.pos@) + v.neg@);
    lemma_centered_sq_sum_concat((sig.pos@ + sig.neg@) + v.pos@, v.neg@);
    lemma_centered_sq_sum_concat(sig.pos@ + sig.neg@, v.pos@);
    lemma_centered_sq_sum_concat(sig.pos@, sig.neg@);
}

/// Whether the squared L² norm of `(sig, v)` is within `SIG_L2_BOUND`.
pub fn l2_within_bound(sig: &DualPolynomial, v: &DualPolynomial) -> (ok: bool)
    requires
        sig.wf(),
        v.wf(),
    ensures
        ok == (dual_l2_norm(sig, v) <= SIG_L2_BOUND),
        ok == (centered_sq_sum(sig.pos@) + centered_sq_sum(sig.neg@) + centered_sq_sum(v.pos@)
            + centered_sq_sum(v.neg@) <= SIG_L2_BOUND),
{
    proof {
        lemma_dual_l2_norm_limbs(sig, v);
    }
    let ghost c = l2_coeffs(sig, v);
    proof {
        lemma_l2_coeffs_ok(sig, v);
    }
    let half: u64 = MODULUS_MINUS_1_OVER_TWO as u64;
    let q: u64 = MODULUS as u64;
    let mut accum: u64 = 0;
    let mut row: usize = 0;
    while row < 4 * N
        invariant
            sig.wf(),
            v.wf(),
            c == l2_coeffs(sig, v),
            c.len() == 4 * N,
            forall|i: int| 0 <= i < 4 * N ==> #[trigger] c[i] < MODULUS,
            half == 6144,
            q == 12289,
            row <= 4 * N,
            accum == l2_prefix(c, row as int),
            accum <= 4 * 6144 * 6144 * row,
        decreases 4 * N - row,
    {
        let e: u64 = if row < N {
            sig.pos[row] as u64
        } else if row < 2 * N {
            sig.neg[row - N] as u64
        } else if row < 3 * N {
            v.pos[row - 2 * N] as u64
        } else {
            v.neg[row - 3 * N] as u64
        };
        proof {
            assert(e == c[row as int]);
        }
        let m: u64 = if e > half { q - e } else { e };
        proof {
            assert(m * m <= 6144 * 6144) by (nonlinear_arith)
                requires
                    m <= 6144,
            ;
            assert(m == centered(c[row as int] as int));
            assert(l2_prefix(c, row as int + 1) == l2_prefix(c, row as int) + m * m);
            assert(accum + m * m <= 4 * 6144 * 6144 * (row + 1)) by (nonlinear_arith)
                requires
                    accum <= 4 * 6144 * 6144 * row,
                    m * m <= 6144 * 6144,
            ;
            assert(4 * 6144 * 6144 * (row + 1) <= 4 * 6144 * 6144 * 4096) by (nonlinear_arith)
                requires
                    row < 4096,
            ;
        }
        accum = accum + m * m;
        row = row + 1;
    }
    accum <= SIG_L2_BOUND
}

/// Main trace for [`crate::air::l2_bound::FalconL2BoundAir`]: `4N` rows (`sig_pos`, `sig_neg`,
/// `v_pos`, `v_neg` coefficients) and the running L² accumulation.
pub fn build_falcon_l2_bound_trace(sig: &DualPolynomial, v: &DualPolynomial) -> (m: TraceMatrix)
    requires
        sig.wf(),
        v.wf(),
        dual_l2_norm(sig, v) <= SIG_L2_BOUND,
    ensures
        m.width == L2_MAIN_COLS,
        m.values@ == concat_rows(l2_trace_rows(sig, v)),
        m.wf(),
        m.rows() == 4 * N,
{
    let ghost c = l2_coeffs(sig, v);
    let ghost rows = l2_trace_rows(sig, v);
    proof {
        lemma_l2_coeffs_ok(sig, v);
    }
    let q: u32 = MODULUS as u32;
    let qm1: u32 = q - 1;
    let half: u32 = MODULUS_MINUS_1_OVER_TWO as u32;
    let total_rows: usize = 4 * N;
    let mut vals: Vec<u32> = Vec::with_capacity(total_rows * L2_MAIN_COLS);
    let mut accum_u64: u64 = 0;
    let mut row: usize = 0;
    while row < total_rows
        invariant
            sig.wf(),
            v.wf(),
            c == l2_coeffs(sig, v),
            c.len() == 4 * N,
            forall|i: int| 0 <= i < 4 * N ==> #[trigger] c[i] < MODULUS,
            l2_prefix(c, 4 * N) <= SIG_L2_BOUND,
            rows == l2_trace_rows(sig, v),
            q == 12289,
            qm1 == 12288,
            half == 6144,
            total_rows == 4 * N,
            row <= total_rows,
            accum_u64 == l2_prefix(c, row as int),
            vals@ == concat_rows(rows.take(row as int)),
        decreases total_rows - row,
    {
        let e: u32 = if row < N {
            sig.pos[row] as u32
        } else if row < 2 * N {
            sig.neg[row - N] as u32
        } else if row < 3 * N {
            v.pos[row - 2 * N] as u32
        } else {
            v.neg[row - 3 * N] as u32
        };
        proof {
            assert(e == c[row as int]);
            lemma_l2_prefix_monotone(c, row as int + 1, 4 * N);
            lemma_l2_prefix_nonneg(c, row as int);
        }
        let delta_q: u32 = qm1 - e;
        let is_high: u32 = if e > half { 1u32 } else { 0u32 };
        let slack_u32: u32 = if is_high == 0 { half - e } else { e - (half + 1) };
        let m: u32 = if is_high == 0 { e } else { q - e };
        let sq_term: u64 = (m as u64) * (m as u64);
        accum_u64 = accum_u64 + sq_term;
        let ghost before = vals@;
        push_quot_bits(&mut vals, e as u16);
        push_bits_le(&mut vals, delta_q, DELTA_Q_BITS);
        vals.push(is_high);
        push_bits_le(&mut vals, slack_u32, SLACK_BITS);
        let accum_u32: u32 = accum_u64 as u32;
        push_bits_le(&mut vals, accum_u32, ACCUM_BITS);
        let bound_diff: u32 = if row + 1 == total_rows { (SIG_L2_BOUND - accum_u64) as u32 } else { 0u32 };
        push_bits_le(&mut vals, bound_diff, BOUND_DIFF_BITS);
        proof {
            assert(vals@ =~= before + rows[row as int]);
            crate::trace::lemma_concat_rows_take(rows, row as int);
        }
        row = row + 1;
    }
    proof {
        assert(rows.take((4 * N) as int) =~= rows);
        assert(uniform_width(rows, L2_MAIN_COLS as nat));
        crate::trace::lemma_concat_rows_index(rows, L2_MAIN_COLS as nat);
        vstd::arithmetic::div_mod::lemma_mod_multiples_basic((4 * N) as int, L2_MAIN_COLS as int);
    }
    let mt: TraceMatrix = TraceMatrix::new(vals, L2_MAIN_COLS);
    proof {
        lemma_matrix_cells(mt, rows);
    }
    mt
}

/// Preprocessed coefficient table for the L² AIR: the `4N` coefficients, one per row.
pub fn build_falcon_l2_bound_preprocessed(sig: &DualPolynomial, v: &DualPolynomial) -> (m: TraceMatrix)
    requires
        sig.wf(),
        v.wf(),
    ensures
        m.width == L2_PREPROCESSED_COLS,
        m.values@ == poly_cells(l2_coeffs(sig, v)),
        m.wf(),
        m.rows() == 4 * N,
{
    let ghost c = l2_coeffs(sig, v);
    let total_rows: usize = 4 * N;
    let mut vals: Vec<u32> = Vec::with_capacity(total_rows);
    let mut row: usize = 0;
    while row < total_rows
        invariant
            sig.wf(),
            v.wf(),
            c == l2_coeffs(sig, v),
            total_rows == 4 * N,
            row <= total_rows,
            vals@ =~= poly_cells(c).take(row as int),
        decreases total_rows - row,
    {
        let e: u16 = if row < N {
            sig.pos[row]
        } else if row < 2 * N {
            sig.neg[row - N]
        } else if row < 3 * N {
            v.pos[row - 2 * N]
        } else {
            v.neg[row - 3 * N]
        };
        proof {
            assert(e == c[row as int]);
        }
        vals.push(e as u32);
        row = row + 1;
    }
    proof {
        assert(vals@ =~= poly_cells(c));
    }
    TraceMatrix::new(vals, L2_PREPROCESSED_COLS)
}

/// Field layout of an L² witness row.
pub proof fn lemma_l2_witness_row(e: nat, accum: nat, diff: nat)
    requires
        e < MODULUS,
        accum < 134217728,
        diff < 134217728,
    ensures
        ({
            let row = l2_witness_row(e, accum, diff);
            &&& l2_row_common(row)
            &&& row_e(row) == e
            &&& row_accum(row) == accum
            &&& row_diff(row) == diff
            &&& row_magnitude(row) == centered(e as int)
        }),
{
    vstd::arithmetic::power2::lemma2_to64();
    assert(vstd::arithmetic::power2::pow2(27) == 134217728) by {
        vstd::arithmetic::power2::lemma_pow2_adds(14, 13);
    }
    let high = e > MODULUS_MINUS_1_OVER_TWO;
    let slack: int = if high { e - (MODULUS_MINUS_1_OVER_TWO + 1) } else { MODULUS_MINUS_1_OVER_TWO - e };
    let d: nat = (MODULUS - 1 - e) as nat;
    let row = l2_witness_row(e, accum, diff);
    lemma_le_cells_exact(e, 14);
    lemma_le_cells_exact(d, 14);
    lemma_le_cells_exact(slack as nat, 14);
    lemma_le_cells_exact(accum, 27);
    lemma_le_cells_exact(diff, 27);
    assert(row.subrange(0, 14) =~= le_cells(e, 14));
    assert(row.subrange(14, 28) =~= le_cells(d, 14));
    assert(row.subrange(29, 43) =~= le_cells(slack as nat, 14));
    assert(row.subrange(43, 70) =~= le_cells(accum, 27));
    assert(row.subrange(70, 97) =~= le_cells(diff, 27));
    assert forall|i: int| 0 <= i < 97 implies crate::bits::is_bit(#[trigger] row[i]) by {
        if i < 14 {
            assert(row[i] == row.subrange(0, 14)[i]);
        } else if i < 28 {
            assert(row[i] == row.subrange(14, 28)[i - 14]);
        } else if i == 28 {
        } else if i < 43 {
            assert(row[i] == row.subrange(29, 43)[i - 29]);
        } else if i < 70 {
            assert(row[i] == row.subrange(43, 70)[i - 43]);
        } else {
            assert(row[i] == row.subrange(70, 97)[i - 70]);
        }
    }
    let h = row[28] as int;
    if high {
        assert(h == 1);
        assert((1 - h) * (e + slack - 6144) + h * (e - 6145 - slack) == 0) by (nonlinear_arith)
            requires
                h == 1,
                slack == e - 6145,
        ;
        assert(row_magnitude(row) == MODULUS - e) by (nonlinear_arith)
            requires
                h == 1,
                row_magnitude(row) == e + h * (MODULUS - 2 * e),
        ;
    } else {
        assert(h == 0);
        assert((1 - h) * (e + slack - 6144) + h * (e - 6145 - slack) == 0) by (nonlinear_arith)
            requires
                h == 0,
                slack == 6144 - e,
        ;
        assert(row_magnitude(row) == e) by (nonlinear_arith)
            requires
                h == 0,
                row_magnitude(row) == e + h * (MODULUS - 2 * e),
        ;
    }
    crate::field::lemma_fe_small(MODULUS - 1);
    crate::field::lemma_fe_small(0);
}

/// Completeness of the L² trace: when the squared norm of `(sig, v)` is within the bound, the
/// trace built for them satisfies every constraint of the L² AIR.
pub proof fn lemma_l2_trace_complete(sig: &DualPolynomial, v: &DualPolynomial)
    requires
        sig.wf(),
        v.wf(),
        dual_l2_norm(sig, v) <= SIG_L2_BOUND,
    ensures
        l2_trace_holds(l2_trace_rows(sig, v)),
{
    let c = l2_coeffs(sig, v);
    let rows = l2_trace_rows(sig, v);
    let n4 = (4 * N) as int;
    lemma_l2_coeffs_ok(sig, v);
    assert forall|r: int| 0 <= r < n4 implies {
        &&& l2_row_common(#[trigger] rows[r])
        &&& row_e(rows[r]) == c[r]
        &&& row_accum(rows[r]) == l2_prefix(c, r + 1)
        &&& row_diff(rows[r]) == (if r == n4 - 1 { SIG_L2_BOUND - l2_prefix(c, n4) } else { 0 })
        &&& row_magnitude(rows[r]) == centered(c[r] as int)
    } by {
        lemma_l2_prefix_monotone(c, r + 1, n4);
        lemma_l2_prefix_nonneg(c, r + 1);
        lemma_l2_prefix_nonneg(c, n4);
        lemma_l2_witness_row(c[r] as nat, l2_prefix(c, r + 1) as nat,
            if r == n4 - 1 { (SIG_L2_BOUND - l2_prefix(c, n4)) as nat } else { 0 });
    }
    let r0 = rows[0];
    let m0 = centered(c[0] as int);
    assert(l2_prefix(c, 0) == 0);
    assert(l2_prefix(c, 1) == m0 * m0);
    assert(0 <= m0 * m0 < crate::field::p()) by (nonlinear_arith)
        requires
            0 <= m0 <= 12289,
    ;
    crate::field::lemma_fe_small(m0 * m0);
    assert(l2_first(r0));
    assert forall|r: int| 0 <= r < rows.len() - 1 implies l2_transition(#[trigger] rows[r], rows[r + 1]) by {
        let m = centered(c[r + 1] as int);
        assert(l2_prefix(c, r + 2) == l2_prefix(c, r + 1) + m * m);
        assert(0 <= m * m < crate::field::p()) by (nonlinear_arith)
            requires
                0 <= m <= 12289,
        ;
        crate::field::lemma_fe_small(m * m);
    }
    crate::field::lemma_fe_small(SIG_L2_BOUND as int);
    assert(l2_last(rows[n4 - 1]));
}


/// `n` zero cells.
pub open spec fn zero_cells(n: nat) -> Seq<u32> {
    Seq::new(n, |c: int| 0u32)
}

/// Segment of unified row `r`: dual + coeff below `N`, L² below `5N`, NTT after.
pub open spec fn unified_seg(r: int) -> Seq<u32> {
    if r < 1024 {
        seq![1u32, 0u32, 0u32]
    } else if r < 5120 {
        seq![0u32, 1u32, 0u32]
    } else {
        seq![0u32, 0u32, 1u32]
    }
}

/// Limb `(r − 5N) / 8192` and its row `(r − 5N) mod 8192` of NTT-section row `r`.
pub open spec fn ntt_section_row(sections: Seq<Seq<Seq<u32>>>, r: int) -> Seq<u32> {
    sections[(r - 5120) / 8192][(r - 5120) % 8192]
}

/// Preprocessed row `r` of the unified trace.
pub open spec fn unified_prep_row(pk: Seq<u32>, hm: Seq<u32>, dual_ref: Seq<Seq<u32>>,
    coeff_prep: Seq<Seq<u32>>, ntt_prep: Seq<Seq<Seq<u32>>>, r: int) -> Seq<u32>
{
    unified_seg(r)
        + (if r < 1024 { dual_ref[r] } else { zero_cells(4) })
        + (if r < 1024 { coeff_prep[r] } else { zero_cells(2) })
        + (if 5120 <= r < 37888 { ntt_section_row(ntt_prep, r) } else { zero_cells(4) })
        + seq![pk[r % 1024], hm[r % 1024]]
}

/// Preprocessed rows of the unified trace of height `h`.
pub open spec fn unified_prep_rows(pk: Seq<u32>, hm: Seq<u32>, dual_ref: Seq<Seq<u32>>,
    coeff_prep: Seq<Seq<u32>>, ntt_prep: Seq<Seq<Seq<u32>>>, h: nat) -> Seq<Seq<u32>>
{
    Seq::new(h, |r: int| unified_prep_row(pk, hm, dual_ref, coeff_prep, ntt_prep, r))
}

/// Main row `r` of the unified trace.
pub open spec fn unified_main_row(dual_main: Seq<Seq<u32>>, coeff_main: Seq<Seq<u32>>,
    l2_main: Seq<Seq<u32>>, ntt_main: Seq<Seq<Seq<u32>>>, r: int) -> Seq<u32>
{
    if r < 1024 {
        dual_main[r] + coeff_main[r] + zero_cells(33)
    } else if r < 5120 {
        l2_main[r - 1024]
    } else if r < 37888 {
        ntt_section_row(ntt_main, r) + zero_cells(39)
    } else {
        zero_cells(97)
    }
}

/// Main rows of the unified trace of height `h`.
pub open spec fn unified_main_rows(dual_main: Seq<Seq<u32>>, coeff_main: Seq<Seq<u32>>,
    l2_main: Seq<Seq<u32>>, ntt_main: Seq<Seq<Seq<u32>>>, h: nat) -> Seq<Seq<u32>>
{
    Seq::new(h, |r: int| unified_main_row(dual_main, coeff_main, l2_main, ntt_main, r))
}

/// Append the cells of `src`.
fn push_cells(vals: &mut Vec<u32>, src: &Vec<u32>)
    ensures
        final(vals)@ == old(vals)@ + src@,
{
    let ghost start = vals@;
    let mut i: usize = 0;
    while i < src.len()
        invariant
            i <= src@.len(),
            vals@ =~= start + src@.take(i as int),
        decreases src@.len() - i,
    {
        vals.push(src[i]);
        i = i + 1;
    }
    proof {
        assert(src@.take(src@.len() as int) =~= src@);
    }
}

/// Append `n` zero cells.
fn push_zeros(vals: &mut Vec<u32>, n: usize)
    ensures
        final(vals)@ == old(vals)@ + zero_cells(n as nat),
{
    let ghost start = vals@;
    let mut i: usize = 0;
    while i < n
        invariant
            i <= n,
            vals@ =~= start + zero_cells(i as nat),
        decreases n - i,
    {
        vals.push(0u32);
        i = i + 1;
    }
}

/// Row `(r − 5N) mod 8192` of limb `(r − 5N) / 8192` among four limb matrices.
fn ntt_limb_row(r: usize, m0: &TraceMatrix, m1: &TraceMatrix, m2: &TraceMatrix, m3: &TraceMatrix)
    -> (out: Vec<u32>)
    requires
        5120 <= r < 37888,
        m0.wf() && m1.wf() && m2.wf() && m3.wf(),
        m0.rows() == 8192 && m1.rows() == 8192 && m2.rows() == 8192 && m3.rows() == 8192,
    ensures
        out@ == ntt_section_row(seq![matrix_rows(*m0), matrix_rows(*m1), matrix_rows(*m2), matrix_rows(*m3)], r as int),
{
    let b: usize = (r - 5120) / 8192;
    let i: usize = (r - 5120) % 8192;
    proof {
        lemma_matrix_rows(*m0);
        lemma_matrix_rows(*m1);
        lemma_matrix_rows(*m2);
        lemma_matrix_rows(*m3);
    }
    if b == 0 {
        m0.row(i)
    } else if b == 1 {
        m1.row(i)
    } else if b == 2 {
        m2.row(i)
    } else {
        m3.row(i)
    }
}

/// Stacked preprocessed trace: segment bits, dual reference rows and expected coefficients on
/// the dual segment, the four limbs' NTT preprocessed rows on the NTT segments, zero elsewhere,
/// and `pk[r mod N]`, `hm[r mod N]` on every row.
fn assemble_unified_preprocessed_rows(height: usize, pk_ntt: &[u32], hm_ntt: &[u32],
    ntt_ref: &TraceMatrix, coeff_prep: &TraceMatrix,
    p0: &TraceMatrix, p1: &TraceMatrix, p2: &TraceMatrix, p3: &TraceMatrix) -> (m: TraceMatrix)
    requires
        UNIFIED_BODY_ROWS <= height <= 0x10_0000,
        pk_ntt@.len() == N,
        hm_ntt@.len() == N,
        ntt_ref.wf() && ntt_ref.rows() == N && ntt_ref.width == NUM_DUAL_NTT_PREPROCESSED_COLS,
        coeff_prep.wf() && coeff_prep.rows() == N && coeff_prep.width == COEFF_DUAL_ZERO_PREPROCESSED_COLS,
        p0.wf() && p0.rows() == 8192 && p0.width == NTT_FULL_PREP_COLS,
        p1.wf() && p1.rows() == 8192 && p1.width == NTT_FULL_PREP_COLS,
        p2.wf() && p2.rows() == 8192 && p2.width == NTT_FULL_PREP_COLS,
        p3.wf() && p3.rows() == 8192 && p3.width == NTT_FULL_PREP_COLS,
    ensures
        m.wf(),
        m.width == UNIFIED_PREP_WIDTH,
        m.rows() == height,
        m.values@ == concat_rows(unified_prep_rows(pk_ntt@, hm_ntt@, matrix_rows(*ntt_ref),
            matrix_rows(*coeff_prep), seq![matrix_rows(*p0), matrix_rows(*p1), matrix_rows(*p2), matrix_rows(*p3)],
            height as nat)),
{
    let ghost secs = seq![matrix_rows(*p0), matrix_rows(*p1), matrix_rows(*p2), matrix_rows(*p3)];
    let ghost rows = unified_prep_rows(pk_ntt@, hm_ntt@, matrix_rows(*ntt_ref), matrix_rows(*coeff_prep), secs, height as nat);
    proof {
        lemma_matrix_rows(*ntt_ref);
        lemma_matrix_rows(*coeff_prep);
        lemma_matrix_rows(*p0);
        lemma_matrix_rows(*p1);
        lemma_matrix_rows(*p2);
        lemma_matrix_rows(*p3);
    }
    let mut vals: Vec<u32> = Vec::new();
    let mut r: usize = 0;
    while r < height
        invariant
            UNIFIED_BODY_ROWS <= height <= 0x10_0000,
            pk_ntt@.len() == N,
            hm_ntt@.len() == N,
            ntt_ref.wf() && ntt_ref.rows() == N && ntt_ref.width == NUM_DUAL_NTT_PREPROCESSED_COLS,
            coeff_prep.wf() && coeff_prep.rows() == N && coeff_prep.width == COEFF_DUAL_ZERO_PREPROCESSED_COLS,
            p0.wf() && p0.rows() == 8192 && p0.width == NTT_FULL_PREP_COLS,
            p1.wf() && p1.rows() == 8192 && p1.width == NTT_FULL_PREP_COLS,
            p2.wf() && p2.rows() == 8192 && p2.width == NTT_FULL_PREP_COLS,
            p3.wf() && p3.rows() == 8192 && p3.width == NTT_FULL_PREP_COLS,
            secs == seq![matrix_rows(*p0), matrix_rows(*p1), matrix_rows(*p2), matrix_rows(*p3)],
            rows == unified_prep_rows(pk_ntt@, hm_ntt@, matrix_rows(*ntt_ref), matrix_rows(*coeff_prep), secs, height as nat),
            r <= height,
            vals@ == concat_rows(rows.take(r as int)),
        decreases height - r,
    {
        let ghost before = vals@;
        if r < N {
            vals.push(1u32);
            vals.push(0u32);
            vals.push(0u32);
        } else if r < 5 * N {
            vals.push(0u32);
            vals.push(1u32);
            vals.push(0u32);
        } else {
            vals.push(0u32);
            vals.push(0u32);
            vals.push(1u32);
        }
        let ghost seg_done = vals@;
        if r < N {
            let a: Vec<u32> = ntt_ref.row(r);
            push_cells(&mut vals, &a);
            let b: Vec<u32> = coeff_prep.row(r);
            push_cells(&mut vals, &b);
        } else {
            push_zeros(&mut vals, 4);
            push_zeros(&mut vals, 2);
        }
        let ghost ref_done = vals@;
        if 5 * N <= r && r < UNIFIED_BODY_ROWS {
            let c: Vec<u32> = ntt_limb_row(r, p0, p1, p2, p3);
            push_cells(&mut vals, &c);
        } else {
            push_zeros(&mut vals, 4);
        }
        let ghost ntt_done = vals@;
        vals.push(pk_ntt[r % N]);
        vals.push(hm_ntt[r % N]);
        proof {
            let row = rows[r as int];
            assert(seg_done =~= before + unified_seg(r as int));
            assert(vals@ =~= before + row);
            lemma_concat_rows_take(rows, r as int);
        }
        r = r + 1;
    }
    proof {
        assert(rows.take(height as int) =~= rows);
        assert(uniform_width(rows, UNIFIED_PREP_WIDTH as nat)) by {
            assert forall|i: int| 0 <= i < rows.len() implies (#[trigger] rows[i]).len() == UNIFIED_PREP_WIDTH by {
                if 5120 <= i < 37888 {
                    let b = (i - 5120) / 8192;
                    assert(0 <= b < 4);
                    assert(secs[b].len() == 8192);
                    assert(uniform_width(secs[b], 4));
                }
            }
        }
        lemma_concat_rows_index(rows, UNIFIED_PREP_WIDTH as nat);
        vstd::arithmetic::div_mod::lemma_mod_multiples_basic(height as int, UNIFIED_PREP_WIDTH as int);
        vstd::arithmetic::div_mod::lemma_div_multiples_vanish(height as int, UNIFIED_PREP_WIDTH as int);
        vstd::arithmetic::mul::lemma_mul_is_commutative(height as int, UNIFIED_PREP_WIDTH as int);
    }
    TraceMatrix::new(vals, UNIFIED_PREP_WIDTH)
}


/// Stacked main trace: dual and coefficient main rows side by side on the dual segment, the L²
/// rows on the L² segment, the four limbs' NTT main rows on the NTT segments, zero padding.
fn assemble_unified_main_rows(height: usize, dual_main: &TraceMatrix, coeff_main: &TraceMatrix,
    l2_main: &TraceMatrix, m0: &TraceMatrix, m1: &TraceMatrix, m2: &TraceMatrix, m3: &TraceMatrix)
    -> (m: TraceMatrix)
    requires
        UNIFIED_BODY_ROWS <= height <= 0x10_0000,
        dual_main.wf() && dual_main.rows() == N && dual_main.width == DUAL_MAIN_COLS,
        coeff_main.wf() && coeff_main.rows() == N && coeff_main.width == COEFF_DUAL_ZERO_MAIN_COLS,
        l2_main.wf() && l2_main.rows() == 4 * N && l2_main.width == L2_MAIN_COLS,
        m0.wf() && m0.rows() == 8192 && m0.width == NTT_FULL_MAIN_COLS,
        m1.wf() && m1.rows() == 8192 && m1.width == NTT_FULL_MAIN_COLS,
        m2.wf() && m2.rows() == 8192 && m2.width == NTT_FULL_MAIN_COLS,
        m3.wf() && m3.rows() == 8192 && m3.width == NTT_FULL_MAIN_COLS,
    ensures
        m.wf(),
        m.width == UNIFIED_MAIN_WIDTH,
        m.rows() == height,
        m.values@ == concat_rows(unified_main_rows(matrix_rows(*dual_main), matrix_rows(*coeff_main),
            matrix_rows(*l2_main), seq![matrix_rows(*m0), matrix_rows(*m1), matrix_rows(*m2), matrix_rows(*m3)],
            height as nat)),
{
    let ghost secs = seq![matrix_rows(*m0), matrix_rows(*m1), matrix_rows(*m2), matrix_rows(*m3)];
    let ghost rows = unified_main_rows(matrix_rows(*dual_main), matrix_rows(*coeff_main), matrix_rows(*l2_main), secs, height as nat);
    proof {
        lemma_matrix_rows(*dual_main);
        lemma_matrix_rows(*coeff_main);
        lemma_matrix_rows(*l2_main);
        lemma_matrix_rows(*m0);
        lemma_matrix_rows(*m1);
        lemma_matrix_rows(*m2);
        lemma_matrix_rows(*m3);
    }
    let mut vals: Vec<u32> = Vec::new();
    let mut r: usize = 0;
    while r < height
        invariant
            UNIFIED_BODY_ROWS <= height <= 0x10_0000,
            dual_main.wf() && dual_main.rows() == N && dual_main.width == DUAL_MAIN_COLS,
            coeff_main.wf() && coeff_main.rows() == N && coeff_main.width == COEFF_DUAL_ZERO_MAIN_COLS,
            l2_main.wf() && l2_main.rows() == 4 * N && l2_main.width == L2_MAIN_COLS,
            m0.wf() && m0.rows() == 8192 && m0.width == NTT_FULL_MAIN_COLS,
            m1.wf() && m1.rows() == 8192 && m1.width == NTT_FULL_MAIN_COLS,
            m2.wf() && m2.rows() == 8192 && m2.width == NTT_FULL_MAIN_COLS,
            m3.wf() && m3.rows() == 8192 && m3.width == NTT_FULL_MAIN_COLS,
            secs == seq![matrix_rows(*m0), matrix_rows(*m1), matrix_rows(*m2), matrix_rows(*m3)],
            rows == unified_main_rows(matrix_rows(*dual_main), matrix_rows(*coeff_main), matrix_rows(*l2_main), secs, height as nat),
            r <= height,
            vals@ == concat_rows(rows.take(r as int)),
        decreases height - r,
    {
        let ghost before = vals@;
        if r < N {
            let a: Vec<u32> = dual_main.row(r);
            push_cells(&mut vals, &a);
            let b: Vec<u32> = coeff_main.row(r);
            push_cells(&mut vals, &b);
            push_zeros(&mut vals, 33);
        } else if r < 5 * N {
            let a: Vec<u32> = l2_main.row(r - N);
            push_cells(&mut vals, &a);
        } else if r < UNIFIED_BODY_ROWS {
            let c: Vec<u32> = ntt_limb_row(r, m0, m1, m2, m3);
            push_cells(&mut vals, &c);
            push_zeros(&mut vals, 39);
        } else {
            push_zeros(&mut vals, 97);
        }
        proof {
            assert(vals@ =~= before + rows[r as int]);
            lemma_concat_rows_take(rows, r as int);
        }
        r = r + 1;
    }
    proof {
        assert(rows.take(height as int) =~= rows);
        assert(uniform_width(rows, UNIFIED_MAIN_WIDTH as nat)) by {
            assert forall|i: int| 0 <= i < rows.len() implies (#[trigger] rows[i]).len() == UNIFIED_MAIN_WIDTH by {
                if 5120 <= i < 37888 {
                    let b = (i - 5120) / 8192;
                    assert(0 <= b < 4);
                    assert(secs[b].len() == 8192);
                    assert(uniform_width(secs[b], 58));
                } else if 1024 <= i < 5120 {
                    assert(matrix_rows(*l2_main)[i - 1024].len() == 97);
                }
            }
        }
        lemma_concat_rows_index(rows, UNIFIED_MAIN_WIDTH as nat);
        vstd::arithmetic::div_mod::lemma_mod_multiples_basic(height as int, UNIFIED_MAIN_WIDTH as int);
        vstd::arithmetic::div_mod::lemma_div_multiples_vanish(height as int, UNIFIED_MAIN_WIDTH as int);
        vstd::arithmetic::mul::lemma_mul_is_commutative(height as int, UNIFIED_MAIN_WIDTH as int);
    }
    TraceMatrix::new(vals, UNIFIED_MAIN_WIDTH)
}

/// The `N` coefficients of a polynomial as an array.
fn poly_array(p: &Vec<u16>) -> (a: [u16; N])
    requires
        p@.len() == N,
    ensures
        a@ == p@,
{
    let mut a: [u16; N] = [0u16; N];
    let mut i: usize = 0;
    while i < N
        invariant
            i <= N,
            p@.len() == N,
            a@.len() == N,
            forall|k: int| 0 <= k < i ==> a@[k] == p@[k],
        decreases N - i,
    {
        a[i] = p[i];
        i = i + 1;
    }
    proof {
        assert(a@ =~= p@);
    }
    a
}

/// The four limbs `sig_pos`, `sig_neg`, `v_pos`, `v_neg` whose full NTTs the unified trace
/// stacks.
pub open spec fn unified_limbs(sig: &DualPolynomial, v: &DualPolynomial) -> Seq<Seq<u16>> {
    seq![sig.pos@, sig.neg@, v.pos@, v.neg@]
}

/// Full-NTT preprocessed rows of the four limbs.
pub open spec fn unified_ntt_prep_sections(table: Seq<u16>, sig: &DualPolynomial, v: &DualPolynomial) -> Seq<Seq<Seq<u32>>> {
    seq![ntt_full_prep_rows(table, sig.pos@), ntt_full_prep_rows(table, sig.neg@),
        ntt_full_prep_rows(table, v.pos@), ntt_full_prep_rows(table, v.neg@)]
}

/// Full-NTT main rows of the four limbs.
pub open spec fn unified_ntt_main_sections(table: Seq<u16>, sig: &DualPolynomial, v: &DualPolynomial) -> Seq<Seq<Seq<u32>>> {
    seq![ntt_full_main_rows(table, sig.pos@), ntt_full_main_rows(table, sig.neg@),
        ntt_full_main_rows(table, v.pos@), ntt_full_main_rows(table, v.neg@)]
}

/// Preprocessed row `r` of the unified trace of one statement.
#[verifier::opaque]
pub open spec fn unified_statement_prep_row(table: Seq<u16>, st: &DualNttStatement, sig: &DualPolynomial,
    v: &DualPolynomial, r: int) -> Seq<u32>
{
    unified_prep_row(poly_cells(st.pk_ntt@), poly_cells(st.hm_ntt@), dual_ref_rows(st),
        coeff_dual_prep_rows(sig), unified_ntt_prep_sections(table, sig, v), r)
}

/// Main row `r` of the unified trace of one statement.
#[verifier::opaque]
pub open spec fn unified_statement_main_row(table: Seq<u16>, st: &DualNttStatement, sig: &DualPolynomial,
    v: &DualPolynomial, r: int) -> Seq<u32>
{
    unified_main_row(dual_main_rows(st), coeff_dual_main_rows(sig), l2_trace_rows(sig, v),
        unified_ntt_main_sections(table, sig, v), r)
}

/// The verifier-rebuilt preprocessed rows of the unified trace for one statement.
pub open spec fn unified_statement_prep_rows(table: Seq<u16>, st: &DualNttStatement, sig: &DualPolynomial,
    v: &DualPolynomial) -> Seq<Seq<u32>>
{
    Seq::new(UNIFIED_HEIGHT as nat, |r: int| unified_statement_prep_row(table, st, sig, v, r))
}

/// The prover's main rows of the unified trace for one statement.
pub open spec fn unified_statement_main_rows(table: Seq<u16>, st: &DualNttStatement, sig: &DualPolynomial,
    v: &DualPolynomial) -> Seq<Seq<u32>>
{
    Seq::new(UNIFIED_HEIGHT as nat, |r: int| unified_statement_main_row(table, st, sig, v, r))
}

/// The unified AIR for one statement: its stacked preprocessed trace with the embedded
/// `pk_ntt`, `hm_ntt`.
pub fn build_falcon_unified_parsed_verify_air(table: &[u16], st: &DualNttStatement, sig: &DualPolynomial,
    v: &DualPolynomial) -> (air: FalconUnifiedParsedVerifyAir)
    requires
        ntt_table_ok(table@),
        st.wf(),
        sig.wf(),
        v.wf(),
    ensures
        air.preprocessed.wf(),
        air.preprocessed.width == UNIFIED_PREP_WIDTH,
        air.preprocessed.values@ == concat_rows(unified_statement_prep_rows(table@, st, sig, v)),
{
    let (dual_air, _dual_main) = build_falcon_dual_ntt_instance(st);
    let coeff_prep: TraceMatrix = build_falcon_coeff_dual_product_zero_preprocessed(sig);
    let sp: [u16; N] = poly_array(&sig.pos);
    let sn: [u16; N] = poly_array(&sig.neg);
    let vp: [u16; N] = poly_array(&v.pos);
    let vn: [u16; N] = poly_array(&v.neg);
    let prep_sig_pos: TraceMatrix = build_ntt_full_preprocessed(table, &sp);
    let prep_sig_neg: TraceMatrix = build_ntt_full_preprocessed(table, &sn);
    let prep_v_pos: TraceMatrix = build_ntt_full_preprocessed(table, &vp);
    let prep_v_neg: TraceMatrix = build_ntt_full_preprocessed(table, &vn);
    let height: usize = unified_trace_height();
    proof {
        lemma_statement_pieces(table@, st, sig, v, dual_air.ntt_ref, coeff_prep,
            prep_sig_pos, prep_sig_neg, prep_v_pos, prep_v_neg);
        lemma_poly_cells_len(st.pk_ntt@);
        lemma_poly_cells_len(st.hm_ntt@);
    }
    let preprocessed: TraceMatrix = assemble_unified_preprocessed_rows(height, dual_air.pk_ntt_values(),
        dual_air.hm_ntt_values(), dual_air.ntt_ref(), &coeff_prep,
        &prep_sig_pos, &prep_sig_neg, &prep_v_pos, &prep_v_neg);
    proof {
        lemma_matrix_rows(preprocessed);
        reveal(unified_statement_prep_row);
        assert(unified_prep_rows(poly_cells(st.pk_ntt@), poly_cells(st.hm_ntt@), dual_ref_rows(st),
            coeff_dual_prep_rows(sig), unified_ntt_prep_sections(table@, sig, v), UNIFIED_HEIGHT as nat)
            =~= unified_statement_prep_rows(table@, st, sig, v));
    }
    FalconUnifiedParsedVerifyAir::new(preprocessed)
}

/// A polynomial's cells have its length.
pub proof fn lemma_poly_cells_len(p: Seq<u16>)
    ensures
        poly_cells(p).len() == p.len(),
{
}

/// The matrices built for the pieces of one statement have the pieces' rows.
proof fn lemma_statement_pieces(table: Seq<u16>, st: &DualNttStatement, sig: &DualPolynomial, v: &DualPolynomial,
    ntt_ref: TraceMatrix, coeff_prep: TraceMatrix, p0: TraceMatrix, p1: TraceMatrix, p2: TraceMatrix, p3: TraceMatrix)
    requires
        ntt_ref.width == NUM_DUAL_NTT_PREPROCESSED_COLS,
        ntt_ref.values@ == concat_rows(dual_ref_rows(st)),
        coeff_prep.width == COEFF_DUAL_ZERO_PREPROCESSED_COLS,
        coeff_prep.values@ == concat_rows(coeff_dual_prep_rows(sig)),
        p0.width == NTT_FULL_PREP_COLS && p0.values@ == concat_rows(ntt_full_prep_rows(table, sig.pos@)),
        p1.width == NTT_FULL_PREP_COLS && p1.values@ == concat_rows(ntt_full_prep_rows(table, sig.neg@)),
        p2.width == NTT_FULL_PREP_COLS && p2.values@ == concat_rows(ntt_full_prep_rows(table, v.pos@)),
        p3.width == NTT_FULL_PREP_COLS && p3.values@ == concat_rows(ntt_full_prep_rows(table, v.neg@)),
    ensures
        matrix_rows(ntt_ref) == dual_ref_rows(st),
        matrix_rows(coeff_prep) == coeff_dual_prep_rows(sig),
        matrix_rows(p0) == ntt_full_prep_rows(table, sig.pos@),
        matrix_rows(p1) == ntt_full_prep_rows(table, sig.neg@),
        matrix_rows(p2) == ntt_full_prep_rows(table, v.pos@),
        matrix_rows(p3) == ntt_full_prep_rows(table, v.neg@),
        ntt_ref.wf() && ntt_ref.rows() == N,
        coeff_prep.wf() && coeff_prep.rows() == N,
        p0.wf() && p0.rows() == 8192,
        p1.wf() && p1.rows() == 8192,
        p2.wf() && p2.rows() == 8192,
        p3.wf() && p3.rows() == 8192,
{
    assert(uniform_width(dual_ref_rows(st), 4));
    assert(uniform_width(coeff_dual_prep_rows(sig), 2));
    assert(uniform_width(ntt_full_prep_rows(table, sig.pos@), 4));
    assert(uniform_width(ntt_full_prep_rows(table, sig.neg@), 4));
    assert(uniform_width(ntt_full_prep_rows(table, v.pos@), 4));
    assert(uniform_width(ntt_full_prep_rows(table, v.neg@), 4));
    lemma_matrix_rows_of(ntt_ref, dual_ref_rows(st));
    lemma_matrix_rows_of(coeff_prep, coeff_dual_prep_rows(sig));
    lemma_matrix_rows_of(p0, ntt_full_prep_rows(table, sig.pos@));
    lemma_matrix_rows_of(p1, ntt_full_prep_rows(table, sig.neg@));
    lemma_matrix_rows_of(p2, ntt_full_prep_rows(table, v.pos@));
    lemma_matrix_rows_of(p3, ntt_full_prep_rows(table, v.neg@));
    lemma_matrix_cells(ntt_ref, dual_ref_rows(st));
    lemma_matrix_cells(coeff_prep, coeff_dual_prep_rows(sig));
    lemma_matrix_cells(p0, ntt_full_prep_rows(table, sig.pos@));
    lemma_matrix_cells(p1, ntt_full_prep_rows(table, sig.neg@));
    lemma_matrix_cells(p2, ntt_full_prep_rows(table, v.pos@));
    lemma_matrix_cells(p3, ntt_full_prep_rows(table, v.neg@));
}


/// The main matrices built for the pieces of one statement have the pieces' rows.
proof fn lemma_statement_main_pieces(table: Seq<u16>, st: &DualNttStatement, sig: &DualPolynomial, v: &DualPolynomial,
    dual_main: TraceMatrix, coeff_main: TraceMatrix, l2_main: TraceMatrix,
    m0: TraceMatrix, m1: TraceMatrix, m2: TraceMatrix, m3: TraceMatrix)
    requires
        dual_main.width == DUAL_MAIN_COLS && dual_main.values@ == concat_rows(dual_main_rows(st)),
        coeff_main.width == COEFF_DUAL_ZERO_MAIN_COLS && coeff_main.values@ == concat_rows(coeff_dual_main_rows(sig)),
        l2_main.width == L2_MAIN_COLS && l2_main.values@ == concat_rows(l2_trace_rows(sig, v)),
        m0.width == NTT_FULL_MAIN_COLS && m0.values@ == concat_rows(ntt_full_main_rows(table, sig.pos@)),
        m1.width == NTT_FULL_MAIN_COLS && m1.values@ == concat_rows(ntt_full_main_rows(table, sig.neg@)),
        m2.width == NTT_FULL_MAIN_COLS && m2.values@ == concat_rows(ntt_full_main_rows(table, v.pos@)),
        m3.width == NTT_FULL_MAIN_COLS && m3.values@ == concat_rows(ntt_full_main_rows(table, v.neg@)),
    ensures
        matrix_rows(dual_main) == dual_main_rows(st),
        matrix_rows(coeff_main) == coeff_dual_main_rows(sig),
        matrix_rows(l2_main) == l2_trace_rows(sig, v),
        matrix_rows(m0) == ntt_full_main_rows(table, sig.pos@),
        matrix_rows(m1) == ntt_full_main_rows(table, sig.neg@),
        matrix_rows(m2) == ntt_full_main_rows(table, v.pos@),
        matrix_rows(m3) == ntt_full_main_rows(table, v.neg@),
        dual_main.wf() && dual_main.rows() == N,
        coeff_main.wf() && coeff_main.rows() == N,
        l2_main.wf() && l2_main.rows() == 4 * N,
        m0.wf() && m0.rows() == 8192,
        m1.wf() && m1.rows() == 8192,
        m2.wf() && m2.rows() == 8192,
        m3.wf() && m3.rows() == 8192,
{
    assert(uniform_width(dual_main_rows(st), DUAL_MAIN_COLS as nat)) by {
        assert forall|i: int| 0 <= i < dual_main_rows(st).len() implies (#[trigger] dual_main_rows(st)[i]).len() == DUAL_MAIN_COLS by {
            lemma_dual_witness_row_len(st.pk_ntt@[i] as nat, st.hm_ntt@[i] as nat, st.sig_pos_ntt@[i] as nat,
                st.sig_neg_ntt@[i] as nat, st.v_pos_ntt@[i] as nat, st.v_neg_ntt@[i] as nat);
        }
    }
    assert(uniform_width(coeff_dual_main_rows(sig), COEFF_DUAL_ZERO_MAIN_COLS as nat));
    assert(uniform_width(l2_trace_rows(sig, v), L2_MAIN_COLS as nat));
    assert forall|p: Seq<u16>| true implies uniform_width(#[trigger] ntt_full_main_rows(table, p), NTT_FULL_MAIN_COLS as nat) by {
        let rows = ntt_full_main_rows(table, p);
        assert forall|i: int| 0 <= i < rows.len() implies (#[trigger] rows[i]).len() == NTT_FULL_MAIN_COLS by {
            if i < 5120 {
                let (u, w, t) = crate::air::ntt_full::real_row_butterfly(table, p, i);
                assert(ntt_layer_witness_row(u, w, t).len() == 86);
            }
        }
    }
    lemma_matrix_rows_of(dual_main, dual_main_rows(st));
    lemma_matrix_rows_of(coeff_main, coeff_dual_main_rows(sig));
    lemma_matrix_rows_of(l2_main, l2_trace_rows(sig, v));
    lemma_matrix_rows_of(m0, ntt_full_main_rows(table, sig.pos@));
    lemma_matrix_rows_of(m1, ntt_full_main_rows(table, sig.neg@));
    lemma_matrix_rows_of(m2, ntt_full_main_rows(table, v.pos@));
    lemma_matrix_rows_of(m3, ntt_full_main_rows(table, v.neg@));
    lemma_matrix_cells(dual_main, dual_main_rows(st));
    lemma_matrix_cells(coeff_main, coeff_dual_main_rows(sig));
    lemma_matrix_cells(l2_main, l2_trace_rows(sig, v));
    lemma_matrix_cells(m0, ntt_full_main_rows(table, sig.pos@));
    lemma_matrix_cells(m1, ntt_full_main_rows(table, sig.neg@));
    lemma_matrix_cells(m2, ntt_full_main_rows(table, v.pos@));
    lemma_matrix_cells(m3, ntt_full_main_rows(table, v.neg@));
}

/// A dual-NTT witness row has the trace width.
pub proof fn lemma_dual_witness_row_len(pk: nat, hm: nat, sp: nat, sn: nat, vp: nat, vn: nat)
    ensures
        dual_ntt_witness_row(pk, hm, sp, sn, vp, vn).len() == DUAL_MAIN_COLS,
{
}

/// The unified AIR for one statement and its stacked main trace.
pub fn build_falcon_unified_parsed_verify_instance(table: &[u16], st: &DualNttStatement, sig: &DualPolynomial,
    v: &DualPolynomial) -> (r: (FalconUnifiedParsedVerifyAir, TraceMatrix))
    requires
        ntt_table_ok(table@),
        st.wf(),
        st.congruent(),
        sig.wf(),
        sig.disjoint(),
        v.wf(),
        dual_l2_norm(sig, v) <= SIG_L2_BOUND,
    ensures
        r.0.preprocessed.wf(),
        r.0.preprocessed.width == UNIFIED_PREP_WIDTH,
        r.0.preprocessed.values@ == concat_rows(unified_statement_prep_rows(table@, st, sig, v)),
        r.1.wf(),
        r.1.width == UNIFIED_MAIN_WIDTH,
        r.1.rows() == UNIFIED_HEIGHT,
        r.1.values@ == concat_rows(unified_statement_main_rows(table@, st, sig, v)),
{
    let air = build_falcon_unified_parsed_verify_air(table, st, sig, v);
    let (_dual_air, dual_main) = build_falcon_dual_ntt_instance(st);
    let (_coeff_air, coeff_main) = build_falcon_coeff_dual_product_zero_instance(sig);
    let l2_main: TraceMatrix = build_falcon_l2_bound_trace(sig, v);
    let sp: [u16; N] = poly_array(&sig.pos);
    let sn: [u16; N] = poly_array(&sig.neg);
    let vp: [u16; N] = poly_array(&v.pos);
    let vn: [u16; N] = poly_array(&v.neg);
    let main_sig_pos: TraceMatrix = build_ntt_full_main(table, &sp);
    let main_sig_neg: TraceMatrix = build_ntt_full_main(table, &sn);
    let main_v_pos: TraceMatrix = build_ntt_full_main(table, &vp);
    let main_v_neg: TraceMatrix = build_ntt_full_main(table, &vn);
    let height: usize = unified_trace_height();
    proof {
        lemma_statement_main_pieces(table@, st, sig, v, dual_main, coeff_main, l2_main,
            main_sig_pos, main_sig_neg, main_v_pos, main_v_neg);
    }
    let main: TraceMatrix = assemble_unified_main_rows(height, &dual_main, &coeff_main, &l2_main,
        &main_sig_pos, &main_sig_neg, &main_v_pos, &main_v_neg);
    proof {
        reveal(unified_statement_main_row);
        assert(unified_main_rows(dual_main_rows(st), coeff_dual_main_rows(sig), l2_trace_rows(sig, v),
            unified_ntt_main_sections(table@, sig, v), UNIFIED_HEIGHT as nat)
            =~= unified_statement_main_rows(table@, st, sig, v));
    }
    (air, main)
}



/// Shape of every unified row of one statement.
proof fn lemma_unified_row_shape(table: Seq<u16>, st: &DualNttStatement, sig: &DualPolynomial, v: &DualPolynomial, r: int)
    requires
        st.wf(),
        0 <= r,
    ensures
        unified_statement_prep_row(table, st, sig, v, r).len() == UNIFIED_PREP_WIDTH,
        unified_statement_prep_row(table, st, sig, v, r).subrange(0, 3) == unified_seg(r),
        seg_one_hot(unified_statement_prep_row(table, st, sig, v, r)),
        unified_statement_prep_row(table, st, sig, v, r)[0] == unified_seg(r)[0],
        unified_statement_prep_row(table, st, sig, v, r)[1] == unified_seg(r)[1],
        unified_statement_prep_row(table, st, sig, v, r)[2] == unified_seg(r)[2],
{
    reveal(unified_statement_prep_row);
    reveal(unified_statement_main_row);
    let pr = unified_statement_prep_row(table, st, sig, v, r);
    let secs = unified_ntt_prep_sections(table, sig, v);
    if 5120 <= r < 37888 {
        let b = (r - 5120) / 8192;
        assert(0 <= b < 4);
        assert(ntt_section_row(secs, r).len() == 4);
    }
    assert(pr.subrange(0, 3) =~= unified_seg(r));
}

/// A dual-segment row satisfies the dual-NTT and coefficient dual-zero constraints.
proof fn lemma_unified_dual_row(table: Seq<u16>, st: &DualNttStatement, sig: &DualPolynomial, v: &DualPolynomial, r: int)
    requires
        st.wf(),
        st.congruent(),
        sig.wf(),
        sig.disjoint(),
        0 <= r < 1024,
    ensures
        unified_dual_part(unified_statement_prep_row(table, st, sig, v, r), unified_statement_main_row(table, st, sig, v, r)),
{
    reveal(unified_statement_prep_row);
    reveal(unified_statement_main_row);
    let pr = unified_statement_prep_row(table, st, sig, v, r);
    let mr = unified_statement_main_row(table, st, sig, v, r);
    let dref = dual_ref_rows(st)[r];
    let cref = coeff_dual_prep_rows(sig)[r];
    let dm = dual_main_rows(st)[r];
    let cm = coeff_dual_main_rows(sig)[r];
    lemma_dual_witness_row_len(st.pk_ntt@[r] as nat, st.hm_ntt@[r] as nat, st.sig_pos_ntt@[r] as nat,
        st.sig_neg_ntt@[r] as nat, st.v_pos_ntt@[r] as nat, st.v_neg_ntt@[r] as nat);
    assert(mr == dm + cm + zero_cells(33));
    assert(pr == unified_seg(r) + dref + cref + zero_cells(4)
        + seq![poly_cells(st.pk_ntt@)[r % 1024], poly_cells(st.hm_ntt@)[r % 1024]]);
    lemma_dual_ntt_trace_rows_hold(st, r);
    lemma_coeff_dual_trace_rows_hold(sig, r);
    vstd::arithmetic::div_mod::lemma_small_mod(r as nat, 1024);
    assert(pr.subrange(3, 7) =~= dref);
    assert(pr.subrange(7, 9) =~= cref);
    assert(mr.subrange(0, 36) =~= dm);
    assert(mr.subrange(36, 64) =~= cm);
}

/// An NTT-segment or padding row satisfies the butterfly constraints.
proof fn lemma_unified_ntt_row(table: Seq<u16>, st: &DualNttStatement, sig: &DualPolynomial, v: &DualPolynomial, r: int)
    requires
        ntt_table_ok(table),
        sig.wf(),
        v.wf(),
        5120 <= r,
    ensures
        unified_ntt_part(unified_statement_prep_row(table, st, sig, v, r), unified_statement_main_row(table, st, sig, v, r)),
{
    reveal(unified_statement_prep_row);
    reveal(unified_statement_main_row);
    let pr = unified_statement_prep_row(table, st, sig, v, r);
    let mr = unified_statement_main_row(table, st, sig, v, r);
    let ps = unified_ntt_prep_sections(table, sig, v);
    let ms = unified_ntt_main_sections(table, sig, v);
    let l = seq![sig.pos@, sig.neg@, v.pos@, v.neg@];
    let emb = seq![poly_cells(st.pk_ntt@)[r % 1024], poly_cells(st.hm_ntt@)[r % 1024]];
    if r < 37888 {
        let b = (r - 5120) / 8192;
        let i = (r - 5120) % 8192;
        assert(0 <= b < 4);
        assert(poly_ok(l[b]));
        assert(ps[b] == ntt_full_prep_rows(table, l[b]));
        assert(ms[b] == ntt_full_main_rows(table, l[b]));
        let nref = ntt_section_row(ps, r);
        let nm = ntt_section_row(ms, r);
        assert(nref.len() == 4);
        assert(nm.len() == NTT_FULL_MAIN_COLS) by {
            if i < 5120 {
                let (u, w, t) = crate::air::ntt_full::real_row_butterfly(table, l[b], i);
                assert(ntt_layer_witness_row(u, w, t).len() == 86);
            }
        }
        assert(pr == unified_seg(r) + zero_cells(4) + zero_cells(2) + nref + emb);
        assert(mr == nm + zero_cells(39));
        lemma_ntt_full_trace_rows_hold(table, l[b], i);
        assert(pr.subrange(9, 13) =~= nref);
        assert(mr.subrange(0, 58) =~= nm);
    } else {
        assert(pr == unified_seg(r) + zero_cells(4) + zero_cells(2) + zero_cells(4) + emb);
        assert(mr == zero_cells(97));
        assert(pr.subrange(9, 13) =~= zero_cells(4));
        assert(mr.subrange(0, 58) =~= zero_cells(58));
    }
}

/// Completeness of the unified trace: for a congruent statement with disjoint signature limbs
/// and squared norm within the bound, the stacked preprocessed and main traces satisfy every
/// constraint of the unified AIR.
pub proof fn lemma_unified_trace_complete(table: Seq<u16>, st: &DualNttStatement, sig: &DualPolynomial,
    v: &DualPolynomial)
    requires
        ntt_table_ok(table),
        st.wf(),
        st.congruent(),
        sig.wf(),
        sig.disjoint(),
        v.wf(),
        dual_l2_norm(sig, v) <= SIG_L2_BOUND,
    ensures
        unified_trace_holds(unified_statement_prep_rows(table, st, sig, v),
            unified_statement_main_rows(table, st, sig, v)),
{
    let pr = unified_statement_prep_rows(table, st, sig, v);
    let mr = unified_statement_main_rows(table, st, sig, v);
    let h = UNIFIED_HEIGHT as int;
    lemma_l2_trace_complete(sig, v);
    assert forall|r: int| 0 <= r < h implies #[trigger] unified_row_ok(pr, mr, r) by {
        lemma_unified_row_ok(table, st, sig, v, r);
    }
    assert forall|r: int| 0 <= r < h - 1 implies #[trigger] unified_transition_ok(pr, mr, r) by {
        lemma_unified_transition_ok(table, st, sig, v, r);
    }
    lemma_unified_segment_facts(table, st, sig, v, h - 1);
    lemma_unified_ntt_row(table, st, sig, v, h - 1);
}

/// Row `r` of the unified trace of one statement meets the per-row constraints.
proof fn lemma_unified_row_ok(table: Seq<u16>, st: &DualNttStatement, sig: &DualPolynomial, v: &DualPolynomial, r: int)
    requires
        st.wf(),
        sig.wf(),
        v.wf(),
        dual_l2_norm(sig, v) <= SIG_L2_BOUND,
        l2_trace_holds(l2_trace_rows(sig, v)),
        0 <= r < UNIFIED_HEIGHT,
    ensures
        unified_row_ok(unified_statement_prep_rows(table, st, sig, v), unified_statement_main_rows(table, st, sig, v), r),
{
    let l2 = l2_trace_rows(sig, v);
    lemma_unified_segment_facts(table, st, sig, v, r);
    lemma_unified_row_shape(table, st, sig, v, r);
    lemma_unified_main_len(table, st, sig, v, r);
    if 1024 <= r < 5120 {
        assert(l2_row_common(l2[r - 1024]));
    }
}

/// Transition `(r, r + 1)` of the unified trace of one statement meets its constraints.
proof fn lemma_unified_transition_ok(table: Seq<u16>, st: &DualNttStatement, sig: &DualPolynomial, v: &DualPolynomial, r: int)
    requires
        ntt_table_ok(table),
        st.wf(),
        st.congruent(),
        sig.wf(),
        sig.disjoint(),
        v.wf(),
        l2_trace_holds(l2_trace_rows(sig, v)),
        0 <= r < UNIFIED_HEIGHT - 1,
    ensures
        unified_transition_ok(unified_statement_prep_rows(table, st, sig, v), unified_statement_main_rows(table, st, sig, v), r),
{
    let l2 = l2_trace_rows(sig, v);
    lemma_unified_segment_facts(table, st, sig, v, r);
    lemma_unified_segment_facts(table, st, sig, v, r + 1);
    if r < 1024 {
        lemma_unified_dual_row(table, st, sig, v, r);
    }
    if r >= 5120 {
        lemma_unified_ntt_row(table, st, sig, v, r);
    }
    if 1024 <= r && r + 1 < 5120 {
        assert(l2_transition(l2[r - 1024], l2[r - 1024 + 1]));
    }
    if r == 5119 {
        assert(l2_last(l2[4095]));
    }
    if r == 1023 {
        assert(l2_first(l2[0]));
    }
}

/// Every unified main row has the main width.
proof fn lemma_unified_main_len(table: Seq<u16>, st: &DualNttStatement, sig: &DualPolynomial, v: &DualPolynomial, r: int)
    requires
        st.wf(),
        0 <= r,
    ensures
        unified_statement_main_row(table, st, sig, v, r).len() == UNIFIED_MAIN_WIDTH,
{
    reveal(unified_statement_prep_row);
    reveal(unified_statement_main_row);
    let ms = unified_ntt_main_sections(table, sig, v);
    let l = seq![sig.pos@, sig.neg@, v.pos@, v.neg@];
    if r < 1024 {
        lemma_dual_witness_row_len(st.pk_ntt@[r] as nat, st.hm_ntt@[r] as nat, st.sig_pos_ntt@[r] as nat,
            st.sig_neg_ntt@[r] as nat, st.v_pos_ntt@[r] as nat, st.v_neg_ntt@[r] as nat);
    } else if 5120 <= r < 37888 {
        let b = (r - 5120) / 8192;
        let i = (r - 5120) % 8192;
        assert(0 <= b < 4);
        assert(ms[b] == ntt_full_main_rows(table, l[b]));
        if i < 5120 {
            let (u, w, t) = crate::air::ntt_full::real_row_butterfly(table, l[b], i);
            assert(ntt_layer_witness_row(u, w, t).len() == 86);
        }
    }
}

/// Segment bits of unified row `r` and, on the L² segment, its main row.
proof fn lemma_unified_segment_facts(table: Seq<u16>, st: &DualNttStatement, sig: &DualPolynomial, v: &DualPolynomial, r: int)
    requires
        st.wf(),
        0 <= r < UNIFIED_HEIGHT,
    ensures
        ({
            let pr = unified_statement_prep_rows(table, st, sig, v)[r];
            let mr = unified_statement_main_rows(table, st, sig, v)[r];
            &&& pr == unified_statement_prep_row(table, st, sig, v, r)
            &&& mr == unified_statement_main_row(table, st, sig, v, r)
            &&& seg_one_hot(pr)
            &&& pr[0] == 1 <==> r < 1024
            &&& pr[1] == 1 <==> 1024 <= r < 5120
            &&& pr[2] == 1 <==> 5120 <= r
            &&& 1024 <= r < 5120 ==> mr == l2_trace_rows(sig, v)[r - 1024]
        }),
{
    reveal(unified_statement_prep_row);
    reveal(unified_statement_main_row);
    lemma_unified_row_shape(table, st, sig, v, r);
}


/// Soundness of the bound L² AIR: a satisfying trace whose coefficients are bound to the
/// reduced coefficients `c` proves that the squared centered norm of `c` is within
/// `SIG_L2_BOUND`.
pub proof fn lemma_l2_bound_sound(c: Seq<u16>, rows: Seq<Seq<u32>>)
    requires
        l2_bound_trace_holds(poly_cells(c), rows),
        forall|r: int| 0 <= r < c.len() ==> #[trigger] c[r] < MODULUS,
    ensures
        forall|r: int| 0 <= r < rows.len() ==> #[trigger] row_e(rows[r]) == c[r],
        l2_prefix(c, c.len() as int) <= SIG_L2_BOUND,
{
    lemma_l2_trace_sound(rows);
    assert forall|r: int| 0 <= r < rows.len() implies #[trigger] row_e(rows[r]) == c[r] by {
        assert(poly_cells(c)[r] == c[r] as u32);
        crate::field::lemma_feq_small(row_e(rows[r]), c[r] as int);
    }
    lemma_l2_sum_is_prefix(c, rows, rows.len() as int);
}

/// With bound coefficients, the trace's running sum is the prefix sum of `c`.
proof fn lemma_l2_sum_is_prefix(c: Seq<u16>, rows: Seq<Seq<u32>>, k: int)
    requires
        rows.len() == c.len(),
        forall|r: int| 0 <= r < rows.len() ==> #[trigger] row_e(rows[r]) == c[r],
        0 <= k <= rows.len(),
    ensures
        l2_sum(rows, k) == l2_prefix(c, k),
    decreases k,
{
    if k > 0 {
        lemma_l2_sum_is_prefix(c, rows, k - 1);
        assert(row_e(rows[k - 1]) == c[k - 1]);
    }
}


/// Completeness of the bound L² AIR: the trace of `(sig, v)` within the bound satisfies the L²
/// constraints and its coefficients equal the verifier-rebuilt preprocessed column.
pub proof fn lemma_l2_bound_trace_complete(sig: &DualPolynomial, v: &DualPolynomial)
    requires
        sig.wf(),
        v.wf(),
        dual_l2_norm(sig, v) <= SIG_L2_BOUND,
    ensures
        l2_bound_trace_holds(poly_cells(l2_coeffs(sig, v)), l2_trace_rows(sig, v)),
{
    let c = l2_coeffs(sig, v);
    let rows = l2_trace_rows(sig, v);
    lemma_l2_trace_complete(sig, v);
    assert forall|r: int| 0 <= r < rows.len() implies crate::field::feq(#[trigger] row_e(rows[r]), poly_cells(c)[r] as int) by {
        lemma_l2_row_coeff(sig, v, r);
    }
}

/// Row `r` of the L² trace holds coefficient `r` of `(sig, v)`.
proof fn lemma_l2_row_coeff(sig: &DualPolynomial, v: &DualPolynomial, r: int)
    requires
        sig.wf(),
        v.wf(),
        dual_l2_norm(sig, v) <= SIG_L2_BOUND,
        0 <= r < 4 * N,
    ensures
        row_e(l2_trace_rows(sig, v)[r]) == l2_coeffs(sig, v)[r],
        poly_cells(l2_coeffs(sig, v))[r] == l2_coeffs(sig, v)[r] as u32,
{
    let c = l2_coeffs(sig, v);
    let n4 = (4 * N) as int;
    lemma_l2_coeffs_ok(sig, v);
    lemma_l2_prefix_monotone(c, r + 1, n4);
    lemma_l2_prefix_nonneg(c, r + 1);
    lemma_l2_prefix_nonneg(c, n4);
    lemma_l2_witness_row(c[r] as nat, l2_prefix(c, r + 1) as nat,
        if r == n4 - 1 { (SIG_L2_BOUND - l2_prefix(c, n4)) as nat } else { 0 });
}


/// The dual-segment fields of the verifier-rebuilt unified preprocessed row `r < N`.
proof fn lemma_unified_prep_dual_fields(table: Seq<u16>, st: &DualNttStatement, sig: &DualPolynomial, v: &DualPolynomial, r: int)
    requires
        st.wf(),
        0 <= r < 1024,
    ensures
        ({
            let pr = unified_statement_prep_row(table, st, sig, v, r);
            &&& pr.subrange(3, 7) == dual_ref_rows(st)[r]
            &&& pr.subrange(7, 9) == coeff_dual_prep_rows(sig)[r]
            &&& pr[13] == st.pk_ntt@[r] as u32
            &&& pr[14] == st.hm_ntt@[r] as u32
        }),
{
    reveal(unified_statement_prep_row);
    let pr = unified_statement_prep_row(table, st, sig, v, r);
    let dref = dual_ref_rows(st)[r];
    let cref = coeff_dual_prep_rows(sig)[r];
    vstd::arithmetic::div_mod::lemma_small_mod(r as nat, 1024);
    assert(pr == unified_seg(r) + dref + cref + zero_cells(4)
        + seq![poly_cells(st.pk_ntt@)[r % 1024], poly_cells(st.hm_ntt@)[r % 1024]]);
    assert(pr.subrange(3, 7) =~= dref);
    assert(pr.subrange(7, 9) =~= cref);
}

/// NTT segment `l` of a unified main trace: its 8192 rows from `5N + 8192 · l`, first
/// `NTT_FULL_MAIN_COLS` cells of each.
pub open spec fn unified_ntt_segment(main: Seq<Seq<u32>>, l: int) -> Seq<Seq<u32>> {
    Seq::new(8192, |k: int| main[5120 + 8192 * l + k].subrange(0, NTT_FULL_MAIN_COLS as int))
}

/// The NTT fields of the verifier-rebuilt unified preprocessed row `5N + 8192 · l + k` are row
/// `k` of limb `l`'s full-NTT preprocessed trace.
proof fn lemma_unified_prep_ntt_fields(table: Seq<u16>, st: &DualNttStatement, sig: &DualPolynomial,
    v: &DualPolynomial, l: int, k: int)
    requires
        0 <= l < 4,
        0 <= k < 8192,
    ensures
        unified_statement_prep_row(table, st, sig, v, 5120 + 8192 * l + k).subrange(9, 13)
            == ntt_full_prep_rows(table, unified_limbs(sig, v)[l])[k],
{
    reveal(unified_statement_prep_row);
    let r = 5120 + 8192 * l + k;
    vstd::arithmetic::div_mod::lemma_fundamental_div_mod_converse(r - 5120, 8192, l, k);
    let sections = unified_ntt_prep_sections(table, sig, v);
    let x = ntt_section_row(sections, r);
    assert(sections[l] == ntt_full_prep_rows(table, unified_limbs(sig, v)[l]));
    assert(x == ntt_full_prep_rows(table, unified_limbs(sig, v)[l])[k]);
    assert(x.len() == 4);
    let pr = unified_statement_prep_row(table, st, sig, v, r);
    assert(pr == unified_seg(r) + zero_cells(4) + zero_cells(2) + x
        + seq![poly_cells(st.pk_ntt@)[r % 1024], poly_cells(st.hm_ntt@)[r % 1024]]);
    assert(pr.subrange(9, 13) =~= x);
}

/// Row `k` of limb `p`'s full-NTT main trace has `NTT_FULL_MAIN_COLS` cells.
proof fn lemma_ntt_full_main_row_len(table: Seq<u16>, p: Seq<u16>, k: int)
    requires
        0 <= k < 8192,
    ensures
        ntt_full_main_rows(table, p)[k].len() == NTT_FULL_MAIN_COLS,
{
    if k < 5120 {
        let (u, w, t) = crate::air::ntt_full::real_row_butterfly(table, p, k);
        assert(ntt_layer_witness_row(u, w, t).len() == 86);
    }
}

/// The NTT main cells of the unified main row `5N + 8192 · l + k` are row `k` of limb `l`'s
/// full-NTT main trace.
proof fn lemma_unified_main_ntt_fields(table: Seq<u16>, st: &DualNttStatement, sig: &DualPolynomial,
    v: &DualPolynomial, l: int, k: int)
    requires
        0 <= l < 4,
        0 <= k < 8192,
    ensures
        unified_statement_main_row(table, st, sig, v, 5120 + 8192 * l + k).subrange(0, NTT_FULL_MAIN_COLS as int)
            == ntt_full_main_rows(table, unified_limbs(sig, v)[l])[k],
{
    reveal(unified_statement_main_row);
    let r = 5120 + 8192 * l + k;
    vstd::arithmetic::div_mod::lemma_fundamental_div_mod_converse(r - 5120, 8192, l, k);
    let sections = unified_ntt_main_sections(table, sig, v);
    let x = ntt_section_row(sections, r);
    assert(sections[l] == ntt_full_main_rows(table, unified_limbs(sig, v)[l]));
    lemma_ntt_full_main_row_len(table, unified_limbs(sig, v)[l], k);
    let mr = unified_statement_main_row(table, st, sig, v, r);
    assert(mr == x + zero_cells(39));
    assert(mr.subrange(0, NTT_FULL_MAIN_COLS as int) =~= x);
}

/// The four NTT segments of the unified preprocessed and main traces are the full-NTT traces of
/// `sig.pos`, `sig.neg`, `v.pos` and `v.neg`, in that order: segment `l` occupies rows
/// `5N + 8192 · l .. 5N + 8192 · (l + 1)`, its preprocessed cells `9..13` and its first
/// `NTT_FULL_MAIN_COLS` main cells.
pub proof fn lemma_unified_ntt_segments_are_limbs(table: Seq<u16>, st: &DualNttStatement, sig: &DualPolynomial,
    v: &DualPolynomial, k: int)
    requires
        0 <= k < 8192,
    ensures
        ({
            let pr = unified_statement_prep_rows(table, st, sig, v);
            let mr = unified_statement_main_rows(table, st, sig, v);
            let w = NTT_FULL_MAIN_COLS as int;
            &&& pr[5120 + k].subrange(9, 13) == ntt_full_prep_rows(table, sig.pos@)[k]
            &&& pr[5120 + 8192 + k].subrange(9, 13) == ntt_full_prep_rows(table, sig.neg@)[k]
            &&& pr[5120 + 2 * 8192 + k].subrange(9, 13) == ntt_full_prep_rows(table, v.pos@)[k]
            &&& pr[5120 + 3 * 8192 + k].subrange(9, 13) == ntt_full_prep_rows(table, v.neg@)[k]
            &&& mr[5120 + k].subrange(0, w) == ntt_full_main_rows(table, sig.pos@)[k]
            &&& mr[5120 + 8192 + k].subrange(0, w) == ntt_full_main_rows(table, sig.neg@)[k]
            &&& mr[5120 + 2 * 8192 + k].subrange(0, w) == ntt_full_main_rows(table, v.pos@)[k]
            &&& mr[5120 + 3 * 8192 + k].subrange(0, w) == ntt_full_main_rows(table, v.neg@)[k]
        }),
{
    let limbs = unified_limbs(sig, v);
    assert(limbs[0] == sig.pos@ && limbs[1] == sig.neg@ && limbs[2] == v.pos@ && limbs[3] == v.neg@);
    lemma_unified_prep_ntt_fields(table, st, sig, v, 0, k);
    lemma_unified_prep_ntt_fields(table, st, sig, v, 1, k);
    lemma_unified_prep_ntt_fields(table, st, sig, v, 2, k);
    lemma_unified_prep_ntt_fields(table, st, sig, v, 3, k);
    lemma_unified_main_ntt_fields(table, st, sig, v, 0, k);
    lemma_unified_main_ntt_fields(table, st, sig, v, 1, k);
    lemma_unified_main_ntt_fields(table, st, sig, v, 2, k);
    lemma_unified_main_ntt_fields(table, st, sig, v, 3, k);
}

/// Every row of NTT segment `l` of a satisfying unified trace meets the full-NTT constraints
/// against limb `l`'s preprocessed row.
proof fn lemma_unified_ntt_segment_holds(table: Seq<u16>, st: &DualNttStatement, sig: &DualPolynomial,
    v: &DualPolynomial, main: Seq<Seq<u32>>, l: int)
    requires
        st.wf(),
        unified_trace_holds(unified_statement_prep_rows(table, st, sig, v), main),
        0 <= l < 4,
    ensures
        forall|k: int| 0 <= k < 8192 ==> ntt_full_row_holds(
            #[trigger] ntt_full_prep_rows(table, unified_limbs(sig, v)[l])[k], unified_ntt_segment(main, l)[k]),
{
    let pr = unified_statement_prep_rows(table, st, sig, v);
    assert forall|k: int| 0 <= k < 8192 implies ntt_full_row_holds(
        #[trigger] ntt_full_prep_rows(table, unified_limbs(sig, v)[l])[k], unified_ntt_segment(main, l)[k]) by {
        let r = 5120 + 8192 * l + k;
        assert(unified_transition_ok(pr, main, r));
        lemma_unified_segment_facts(table, st, sig, v, r);
        lemma_unified_prep_ntt_fields(table, st, sig, v, l, k);
    }
}

/// Soundness of the unified AIR: a main trace of canonical cells that satisfies the unified
/// constraints against the verifier-rebuilt preprocessed trace of a statement proves the
/// dual-NTT congruence at every index, the disjointness of the signature's coefficient limbs,
/// that the L² segment's squared centered norm is within `SIG_L2_BOUND`, and that each of the
/// four NTT segments meets the full-NTT constraints of its limb, so that its real row
/// `layer · N/2 + b` carries the butterfly outputs of that layer of the limb's forward NTT.
pub proof fn lemma_unified_trace_sound(table: Seq<u16>, st: &DualNttStatement, sig: &DualPolynomial,
    v: &DualPolynomial, main: Seq<Seq<u32>>)
    requires
        ntt_table_ok(table),
        st.wf(),
        sig.wf(),
        v.wf(),
        unified_trace_holds(unified_statement_prep_rows(table, st, sig, v), main),
        forall|r: int, c: int| 0 <= r < main.len() && 0 <= c < main[r].len()
            ==> crate::field::canonical(#[trigger] main[r][c]),
    ensures
        st.congruent(),
        sig.disjoint(),
        l2_trace_holds(main.subrange(1024, 5120)),
        l2_sum(main.subrange(1024, 5120), 4096) <= SIG_L2_BOUND,
        unified_limbs(sig, v) == seq![sig.pos@, sig.neg@, v.pos@, v.neg@],
        forall|l: int, k: int| 0 <= l < 4 && 0 <= k < 8192 ==> ntt_full_row_holds(
            #[trigger] ntt_full_prep_rows(table, unified_limbs(sig, v)[l])[k], unified_ntt_segment(main, l)[k]),
        forall|l: int, layer: nat, b: nat| 0 <= l < 4 && layer < LOG_N && b < N / 2
            ==> #[trigger] ntt_full_outputs_hold(table, unified_limbs(sig, v)[l], unified_ntt_segment(main, l), layer, b),
{
    assert(unified_limbs(sig, v) =~= seq![sig.pos@, sig.neg@, v.pos@, v.neg@]);
    let pr = unified_statement_prep_rows(table, st, sig, v);
    assert forall|i: int| 0 <= i < N implies #[trigger] st.congruent_at(i) by {
        lemma_unified_dual_index_sound(table, st, sig, v, main, i);
    }
    assert forall|i: int| 0 <= i < N implies (#[trigger] sig.pos@[i]) * sig.neg@[i] == 0 by {
        lemma_unified_coeff_index_sound(table, st, sig, v, main, i);
    }
    let l2 = main.subrange(1024, 5120);
    assert forall|k: int| 0 <= k < l2.len() implies crate::air::l2_bound::l2_row_common(#[trigger] l2[k]) by {
        assert(unified_row_ok(pr, main, k + 1024));
        lemma_unified_segment_facts(table, st, sig, v, k + 1024);
    }
    assert(unified_transition_ok(pr, main, 1023));
    lemma_unified_segment_facts(table, st, sig, v, 1023);
    lemma_unified_segment_facts(table, st, sig, v, 1024);
    assert forall|k: int| 0 <= k < l2.len() - 1 implies crate::air::l2_bound::l2_transition(#[trigger] l2[k], l2[k + 1]) by {
        assert(unified_transition_ok(pr, main, k + 1024));
        lemma_unified_segment_facts(table, st, sig, v, k + 1024);
        lemma_unified_segment_facts(table, st, sig, v, k + 1025);
    }
    assert(unified_transition_ok(pr, main, 5119));
    lemma_unified_segment_facts(table, st, sig, v, 5119);
    lemma_unified_segment_facts(table, st, sig, v, 5120);
    assert(l2_trace_holds(l2));
    lemma_l2_trace_sound(l2);
    lemma_unified_ntt_segments_sound(table, st, sig, v, main);
}

/// The NTT part of unified soundness: each NTT segment meets its limb's full-NTT constraints
/// and carries that limb's butterfly outputs.
proof fn lemma_unified_ntt_segments_sound(table: Seq<u16>, st: &DualNttStatement, sig: &DualPolynomial,
    v: &DualPolynomial, main: Seq<Seq<u32>>)
    requires
        ntt_table_ok(table),
        st.wf(),
        sig.wf(),
        v.wf(),
        unified_trace_holds(unified_statement_prep_rows(table, st, sig, v), main),
    ensures
        forall|l: int, k: int| 0 <= l < 4 && 0 <= k < 8192 ==> ntt_full_row_holds(
            #[trigger] ntt_full_prep_rows(table, unified_limbs(sig, v)[l])[k], unified_ntt_segment(main, l)[k]),
        forall|l: int, layer: nat, b: nat| 0 <= l < 4 && layer < LOG_N && b < N / 2
            ==> #[trigger] ntt_full_outputs_hold(table, unified_limbs(sig, v)[l], unified_ntt_segment(main, l), layer, b),
{
    assert forall|l: int, k: int| 0 <= l < 4 && 0 <= k < 8192 implies ntt_full_row_holds(
        #[trigger] ntt_full_prep_rows(table, unified_limbs(sig, v)[l])[k], unified_ntt_segment(main, l)[k]) by {
        lemma_unified_ntt_segment_holds(table, st, sig, v, main, l);
    }
    assert forall|l: int, layer: nat, b: nat| 0 <= l < 4 && layer < LOG_N && b < N / 2
        implies #[trigger] ntt_full_outputs_hold(table, unified_limbs(sig, v)[l], unified_ntt_segment(main, l), layer, b) by {
        lemma_unified_ntt_segment_holds(table, st, sig, v, main, l);
        let limb = unified_limbs(sig, v)[l];
        assert(poly_ok(limb));
        lemma_ntt_full_trace_sound(table, limb, unified_ntt_segment(main, l), layer, b);
    }
}

/// The dual rows of a satisfying unified trace prove the congruence at index `i`.
proof fn lemma_unified_dual_index_sound(table: Seq<u16>, st: &DualNttStatement, sig: &DualPolynomial,
    v: &DualPolynomial, main: Seq<Seq<u32>>, i: int)
    requires
        st.wf(),
        unified_trace_holds(unified_statement_prep_rows(table, st, sig, v), main),
        forall|r: int, c: int| 0 <= r < main.len() && 0 <= c < main[r].len()
            ==> crate::field::canonical(#[trigger] main[r][c]),
        0 <= i < N,
    ensures
        st.congruent_at(i),
{
    let pr = unified_statement_prep_rows(table, st, sig, v);
    assert(unified_transition_ok(pr, main, i));
    assert(unified_row_ok(pr, main, i));
    lemma_unified_segment_facts(table, st, sig, v, i);
    lemma_unified_prep_dual_fields(table, st, sig, v, i);
    let m = main[i].subrange(0, 36);
    let prep = pr[i].subrange(3, 7);
    assert(crate::field::canonical(main[i][4]));
    assert(crate::field::canonical(main[i][6]));
    assert(crate::field::canonical(main[i][7]));
    assert(st.pk_ntt@[i] < MODULUS);
    assert(st.hm_ntt@[i] < MODULUS);
    assert(st.sig_pos_ntt@[i] < MODULUS);
    assert(st.sig_neg_ntt@[i] < MODULUS);
    assert(st.v_pos_ntt@[i] < MODULUS);
    assert(st.v_neg_ntt@[i] < MODULUS);
    crate::air::dual_ntt_equation::lemma_dual_ntt_row_sound(pr[i][13], pr[i][14], prep, m);
}

/// The coefficient rows of a satisfying unified trace prove disjointness at index `i`.
proof fn lemma_unified_coeff_index_sound(table: Seq<u16>, st: &DualNttStatement, sig: &DualPolynomial,
    v: &DualPolynomial, main: Seq<Seq<u32>>, i: int)
    requires
        st.wf(),
        sig.wf(),
        unified_trace_holds(unified_statement_prep_rows(table, st, sig, v), main),
        0 <= i < N,
    ensures
        sig.pos@[i] * sig.neg@[i] == 0,
{
    let pr = unified_statement_prep_rows(table, st, sig, v);
    assert(unified_transition_ok(pr, main, i));
    lemma_unified_segment_facts(table, st, sig, v, i);
    lemma_unified_prep_dual_fields(table, st, sig, v, i);
    assert(sig.pos@[i] < MODULUS);
    assert(sig.neg@[i] < MODULUS);
    crate::air::coeff_dual_product_zero::lemma_coeff_dual_row_sound(pr[i].subrange(7, 9), main[i].subrange(36, 64));
}


/// Soundness of the dual-NTT AIR over a whole trace: main rows of canonical cells satisfying the
/// constraints against the statement's public `pk_ntt`, `hm_ntt` and reference limbs prove the
/// congruence at every NTT index.
pub proof fn lemma_dual_ntt_trace_sound(st: &DualNttStatement, main: Seq<Seq<u32>>)
    requires
        st.wf(),
        main.len() == N,
        forall|i: int| 0 <= i < N ==> dual_ntt_row_holds(poly_cells(st.pk_ntt@)[i], poly_cells(st.hm_ntt@)[i],
            #[trigger] dual_ref_rows(st)[i], main[i]),
        forall|i: int, c: int| 0 <= i < N && 0 <= c < main[i].len() ==> crate::field::canonical(#[trigger] main[i][c]),
    ensures
        st.congruent(),
{
    assert forall|i: int| 0 <= i < N implies #[trigger] st.congruent_at(i) by {
        assert(dual_ntt_row_holds(poly_cells(st.pk_ntt@)[i], poly_cells(st.hm_ntt@)[i], dual_ref_rows(st)[i], main[i]));
        assert(crate::field::canonical(main[i][4]));
        assert(crate::field::canonical(main[i][6]));
        assert(crate::field::canonical(main[i][7]));
        assert(st.pk_ntt@[i] < MODULUS && st.hm_ntt@[i] < MODULUS);
        assert(st.sig_pos_ntt@[i] < MODULUS && st.sig_neg_ntt@[i] < MODULUS);
        assert(st.v_pos_ntt@[i] < MODULUS && st.v_neg_ntt@[i] < MODULUS);
        crate::air::dual_ntt_equation::lemma_dual_ntt_row_sound(poly_cells(st.pk_ntt@)[i],
            poly_cells(st.hm_ntt@)[i], dual_ref_rows(st)[i], main[i]);
    }
}

/// Soundness of the coefficient dual-zero AIR over a whole trace: main rows satisfying the
/// constraints against the signature's expected limbs prove that the limbs are disjoint.
pub proof fn lemma_coeff_dual_trace_sound(sig: &DualPolynomial, main: Seq<Seq<u32>>)
    requires
        sig.wf(),
        main.len() == N,
        forall|i: int| 0 <= i < N ==> coeff_dual_row_holds(#[trigger] coeff_dual_prep_rows(sig)[i], main[i]),
    ensures
        sig.disjoint(),
{
    assert forall|i: int| 0 <= i < N implies (#[trigger] sig.pos@[i]) * sig.neg@[i] == 0 by {
        assert(coeff_dual_row_holds(coeff_dual_prep_rows(sig)[i], main[i]));
        assert(sig.pos@[i] < MODULUS && sig.neg@[i] < MODULUS);
        crate::air::coeff_dual_product_zero::lemma_coeff_dual_row_sound(coeff_dual_prep_rows(sig)[i], main[i]);
    }
}

} // verus!
