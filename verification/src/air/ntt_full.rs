//! All `LOG_N` Cooley–Tukey layers of Falcon's forward NTT in one padded trace.
//!
//! Preprocessed columns fix `(active, twiddle, u, v)` per butterfly; real rows prove the modular
//! butterfly arithmetic, padding rows (`active = 0`) force the main row to zero.
use vstd::prelude::*;
use vstd::arithmetic::power2::{pow2, lemma2_to64};
use crate::params::{N, LOG_N, MODULUS, ntt_table_ok, poly_ok, next_power_of_two, lemma_next_pow2_is};
use crate::trace::{TraceMatrix, concat_rows, uniform_width, lemma_concat_rows_take, lemma_concat_rows_index, lemma_matrix_cells};
use crate::bits::{cells_bool, is_bit};
use crate::field::{feq, lemma_feq_small};
use crate::air::ntt_layer::{
    butterfly_j_jht_s, butterfly_spec, state_before_ntt_layer, ntt_state_before, group_value,
    ntt_layer_witness_row, lemma_witness_row_groups, lemma_ntt_layer_witness_row_holds,
    lemma_groups_bounded, lemma_butterfly_bounds, lemma_state_before_ok, lemma_butterfly_outputs,
    ntt_spec, ntt_layer_spec,
};
use crate::witness::push_quot_bits;

verus! {

/// `active`, `twiddle`, `u_in`, `v_in`.
pub const NUM_PREPROCESSED_COLS: usize = 4;

/// `v_mul`, `quot_vs`, `out0`, `out1` bit groups and `q0`, `q1`.
pub const NUM_MAIN_COLS: usize = 58;

/// Preprocessed row of the full-NTT AIR.
pub struct PreprocessedFullRow<F> {
    pub active: F,
    pub twiddle: F,
    pub u_in: F,
    pub v_in: F,
}

/// Main row of the full-NTT AIR.
pub struct MainFullRow<F> {
    pub v_mul_bits: [F; 14],
    pub quot_vs_bits: [F; 14],
    pub out0_bits: [F; 14],
    pub out1_bits: [F; 14],
    pub q0: F,
    pub q1: F,
}

/// Number of real butterfly rows: `(N / 2) · LOG_N`.
pub fn ntt_full_real_rows() -> (r: usize)
    ensures
        r == (N / 2) * LOG_N,
{
    (N / 2) * LOG_N
}

/// Trace height: the real rows padded to the next power of two.
pub fn ntt_full_trace_height() -> (h: usize)
    ensures
        h == 8192,
        h >= (N / 2) * LOG_N,
{
    let h: usize = next_power_of_two(ntt_full_real_rows());
    proof {
        lemma2_to64();
        assert(pow2(13) == 8192) by {
            vstd::arithmetic::power2::lemma_pow2_adds(12, 1);
        }
        assert(pow2(12) == 4096) by {
            vstd::arithmetic::power2::lemma_pow2_adds(6, 6);
        }
        lemma_next_pow2_is(h as nat, 5120, 13);
    }
    h
}

/// AIR proving the full forward NTT of one polynomial.
pub struct FalconNttFullAir {
    pub preprocessed: TraceMatrix,
}

impl FalconNttFullAir {
    /// AIR over a `(active, twiddle, u, v)` table of the padded height.
    pub fn new(preprocessed: TraceMatrix) -> (air: Self)
        requires
            preprocessed.wf(),
            preprocessed.width == NUM_PREPROCESSED_COLS,
            preprocessed.rows() == 8192,
        ensures
            air.preprocessed == preprocessed,
    {
        FalconNttFullAir { preprocessed }
    }
}

/// The constraints the full-NTT AIR's `eval` places on one row.
///
/// `active` is a bit. On an active row every limb cell and `q0`, `q1` is a bit and, with
/// `(u, v_in, s)` taken from the preprocessed row, `v_in · s = v_mul + quot_vs · q`,
/// `u + v_mul = out0 + q0 · q`, `u − v_mul + q = out1 + q1 · q` in the field. On an inactive row
/// every main cell is zero. (Each constraint of `eval` is gated by `active` or `1 − active`;
/// with `active ∈ {0, 1}` this is exactly what they state on canonical cells.)
pub open spec fn ntt_full_row_holds(prep: Seq<u32>, main: Seq<u32>) -> bool {
    let q = MODULUS as int;
    let s = prep[1] as int;
    let u = prep[2] as int;
    let v_in = prep[3] as int;
    let v_mul = group_value(main, 0);
    let quot_vs = group_value(main, 1);
    let out0 = group_value(main, 2);
    let out1 = group_value(main, 3);
    &&& prep.len() == NUM_PREPROCESSED_COLS
    &&& main.len() == NUM_MAIN_COLS
    &&& is_bit(prep[0])
    &&& prep[0] == 1 ==> {
        &&& cells_bool(main.subrange(0, 56))
        &&& is_bit(main[56])
        &&& is_bit(main[57])
        &&& feq(v_in * s, v_mul + quot_vs * q)
        &&& feq(u + v_mul, out0 + main[56] * q)
        &&& feq(u - v_mul + q, out1 + main[57] * q)
    }
    &&& prep[0] == 0 ==> forall|c: int| 0 <= c < NUM_MAIN_COLS ==> #[trigger] main[c] == 0
}

/// A satisfied active row with reduced `(s, u, v_in)` proves the butterfly mod `q`.
pub proof fn lemma_ntt_full_row_sound(prep: Seq<u32>, main: Seq<u32>)
    requires
        ntt_full_row_holds(prep, main),
        prep[0] == 1,
        prep[1] < MODULUS,
        prep[2] < MODULUS,
        prep[3] < MODULUS,
    ensures
        group_value(main, 2) % (MODULUS as int) == (prep[2] + prep[3] * prep[1]) % (MODULUS as int),
        group_value(main, 3) % (MODULUS as int) == (prep[2] - prep[3] * prep[1]) % (MODULUS as int),
{
    let q = MODULUS as int;
    let s = prep[1] as int;
    let u = prep[2] as int;
    let v_in = prep[3] as int;
    lemma_groups_bounded(main, 4);
    let v_mul = group_value(main, 0);
    let quot_vs = group_value(main, 1);
    let out0 = group_value(main, 2);
    let out1 = group_value(main, 3);
    assert(0 <= v_in * s <= 12288 * 12288) by (nonlinear_arith)
        requires
            0 <= v_in < 12289,
            0 <= s < 12289,
    ;
    assert(0 <= quot_vs * q <= 16383 * 12289) by (nonlinear_arith)
        requires
            0 <= quot_vs < 16384,
            q == 12289,
    ;
    lemma_feq_small(v_in * s, v_mul + quot_vs * q);
    lemma_feq_small(u + v_mul, out0 + main[56] * q);
    lemma_feq_small(u - v_mul + q, out1 + main[57] * q);
    let k0 = quot_vs + main[56];
    assert(out0 == (u + v_in * s) + (-k0) * q) by (nonlinear_arith)
        requires
            v_in * s == v_mul + quot_vs * q,
            u + v_mul == out0 + main[56] * q,
            k0 == quot_vs + main[56],
    ;
    vstd::arithmetic::div_mod::lemma_mod_multiples_vanish(-k0, u + v_in * s, q);
    vstd::arithmetic::mul::lemma_mul_is_commutative(-k0, q);
    let k1 = quot_vs + 1 - main[57];
    assert(out1 == (u - v_in * s) + k1 * q) by (nonlinear_arith)
        requires
            v_in * s == v_mul + quot_vs * q,
            u - v_mul + q == out1 + main[57] * q,
            k1 == quot_vs + 1 - main[57],
    ;
    vstd::arithmetic::div_mod::lemma_mod_multiples_vanish(k1, u - v_in * s, q);
    vstd::arithmetic::mul::lemma_mul_is_commutative(k1, q);
    vstd::arithmetic::mul::lemma_mul_is_commutative(v_in, s);
}

/// Main row for butterfly inputs `u`, `v_in` and twiddle `s`: the layer witness row without
/// its `u`, `v_in` groups.
pub open spec fn ntt_full_witness_row(u: nat, v_in: nat, s: nat) -> Seq<u32> {
    ntt_layer_witness_row(u, v_in, s).subrange(28, 86)
}

/// Butterfly `(layer, b)` of `poly` for real row `r = layer · N/2 + b`.
pub open spec fn real_row_butterfly(table: Seq<u16>, poly: Seq<u16>, r: int) -> (nat, nat, nat) {
    let layer = (r / ((N / 2) as int)) as nat;
    let b = (r % ((N / 2) as int)) as nat;
    let st = ntt_state_before(table, poly, layer);
    let (j, j2, s) = butterfly_spec(table, layer, b);
    (st[j as int] as nat, st[j2 as int] as nat, s as nat)
}

/// Preprocessed rows: `(1, s, u, v)` per real butterfly, zero rows as padding.
pub open spec fn ntt_full_prep_rows(table: Seq<u16>, poly: Seq<u16>) -> Seq<Seq<u32>> {
    Seq::new(8192, |r: int| if r < (N / 2) * LOG_N {
        let (u, v, s) = real_row_butterfly(table, poly, r);
        seq![1u32, s as u32, u as u32, v as u32]
    } else {
        seq![0u32, 0u32, 0u32, 0u32]
    })
}

/// Main rows: the butterfly witness per real row, zero rows as padding.
pub open spec fn ntt_full_main_rows(table: Seq<u16>, poly: Seq<u16>) -> Seq<Seq<u32>> {
    Seq::new(8192, |r: int| if r < (N / 2) * LOG_N {
        let (u, v, s) = real_row_butterfly(table, poly, r);
        ntt_full_witness_row(u, v, s)
    } else {
        Seq::new(NUM_MAIN_COLS as nat, |c: int| 0u32)
    })
}

/// Real row `layer · N/2 + b` decomposes back into `(layer, b)`.
pub proof fn lemma_real_row_index(layer: int, b: int)
    requires
        0 <= layer < LOG_N,
        0 <= b < N / 2,
    ensures
        (layer * 512 + b) / 512 == layer,
        (layer * 512 + b) % 512 == b,
        layer * 512 + b < (N / 2) * LOG_N,
{
    vstd::arithmetic::div_mod::lemma_div_multiples_vanish_fancy(layer, b, 512);
    vstd::arithmetic::div_mod::lemma_mod_multiples_vanish(layer, b, 512);
    vstd::arithmetic::div_mod::lemma_small_mod(b as nat, 512);
}

/// Preprocessed trace: `active`, twiddle and inputs `u`, `v` of every butterfly of `poly`,
/// layer by layer; padding rows are zero.
pub fn build_ntt_full_preprocessed(table: &[u16], poly: &[u16; N]) -> (m: TraceMatrix)
    requires
        ntt_table_ok(table@),
        poly_ok(poly@),
    ensures
        m.width == NUM_PREPROCESSED_COLS,
        m.values@ == concat_rows(ntt_full_prep_rows(table@, poly@)),
        m.wf(),
        m.rows() == 8192,
        m.all_canonical(),
{
    let h: usize = ntt_full_trace_height();
    let real_rows: usize = ntt_full_real_rows();
    let ghost rows = ntt_full_prep_rows(table@, poly@);
    let mut vals: Vec<u32> = Vec::with_capacity(h * NUM_PREPROCESSED_COLS);
    let mut layer: usize = 0;
    while layer < LOG_N
        invariant
            ntt_table_ok(table@),
            poly_ok(poly@),
            layer <= LOG_N,
            rows == ntt_full_prep_rows(table@, poly@),
            vals@ == concat_rows(rows.take(layer * 512)),
        decreases LOG_N - layer,
    {
        let st: [u16; N] = state_before_ntt_layer(table, poly, layer);
        let mut b: usize = 0;
        while b < N / 2
            invariant
                ntt_table_ok(table@),
                poly_ok(st@),
                st@ == ntt_state_before(table@, poly@, layer as nat),
                layer < LOG_N,
                b <= N / 2,
                rows == ntt_full_prep_rows(table@, poly@),
                vals@ == concat_rows(rows.take(layer * 512 + b)),
            decreases N / 2 - b,
        {
            let (j, j2, s): (usize, usize, u16) = butterfly_j_jht_s(table, layer, b);
            let ghost before = vals@;
            vals.push(1u32);
            vals.push(s as u32);
            vals.push(st[j] as u32);
            vals.push(st[j2] as u32);
            proof {
                lemma_real_row_index(layer as int, b as int);
                let r = layer * 512 + b;
                assert(vals@ =~= before + rows[r as int]);
                lemma_concat_rows_take(rows, r as int);
            }
            b = b + 1;
        }
        layer = layer + 1;
    }
    let mut r: usize = real_rows;
    while r < h
        invariant
            real_rows == (N / 2) * LOG_N,
            h == 8192,
            real_rows <= r <= h,
            rows == ntt_full_prep_rows(table@, poly@),
            vals@ == concat_rows(rows.take(r as int)),
        decreases h - r,
    {
        let ghost before = vals@;
        vals.push(0u32);
        vals.push(0u32);
        vals.push(0u32);
        vals.push(0u32);
        proof {
            assert(vals@ =~= before + rows[r as int]);
            lemma_concat_rows_take(rows, r as int);
        }
        r = r + 1;
    }
    proof {
        assert(rows.take(8192) =~= rows);
        assert(uniform_width(rows, NUM_PREPROCESSED_COLS as nat));
        lemma_concat_rows_index(rows, NUM_PREPROCESSED_COLS as nat);
        vstd::arithmetic::div_mod::lemma_mod_multiples_basic(8192, NUM_PREPROCESSED_COLS as int);
    }
    let m: TraceMatrix = TraceMatrix::new(vals, NUM_PREPROCESSED_COLS);
    proof {
        lemma_matrix_cells(m, rows);
        assert forall|i: int| 0 <= i < m.values@.len() implies crate::field::canonical(#[trigger] m.values@[i]) by {
            let rr = i / 4;
            let c = i % 4;
            vstd::arithmetic::div_mod::lemma_fundamental_div_mod(i, 4);
            assert(m.values@[rr * 4 + c] == rows[rr][c]);
            if rr < (N / 2) * LOG_N {
                let layer = (rr / 512) as nat;
                let b = (rr % 512) as nat;
                lemma_butterfly_bounds(layer, b);
                lemma_state_before_ok(table@, poly@, layer);
                let (j, j2, s) = butterfly_spec(table@, layer, b);
                assert(ntt_state_before(table@, poly@, layer)[j as int] < MODULUS);
                assert(ntt_state_before(table@, poly@, layer)[j2 as int] < MODULUS);
            }
        }
    }
    m
}

/// Main trace for [`FalconNttFullAir`]: the butterfly witness of every real row of `poly`,
/// zero rows as padding.
pub fn build_ntt_full_main(table: &[u16], poly: &[u16; N]) -> (m: TraceMatrix)
    requires
        ntt_table_ok(table@),
        poly_ok(poly@),
    ensures
        m.width == NUM_MAIN_COLS,
        m.values@ == concat_rows(ntt_full_main_rows(table@, poly@)),
        m.wf(),
        m.rows() == 8192,
{
    let h: usize = ntt_full_trace_height();
    let real_rows: usize = ntt_full_real_rows();
    let q: u32 = MODULUS as u32;
    let ghost rows = ntt_full_main_rows(table@, poly@);
    let mut vals: Vec<u32> = Vec::with_capacity(h * NUM_MAIN_COLS);
    let mut layer: usize = 0;
    while layer < LOG_N
        invariant
            ntt_table_ok(table@),
            poly_ok(poly@),
            layer <= LOG_N,
            q == MODULUS,
            rows == ntt_full_main_rows(table@, poly@),
            vals@ == concat_rows(rows.take(layer * 512)),
        decreases LOG_N - layer,
    {
        let st: [u16; N] = state_before_ntt_layer(table, poly, layer);
        let mut b: usize = 0;
        while b < N / 2
            invariant
                ntt_table_ok(table@),
                poly_ok(st@),
                st@ == ntt_state_before(table@, poly@, layer as nat),
                layer < LOG_N,
                q == MODULUS,
                b <= N / 2,
                rows == ntt_full_main_rows(table@, poly@),
                vals@ == concat_rows(rows.take(layer * 512 + b)),
            decreases N / 2 - b,
        {
            let (j, j2, s): (usize, usize, u16) = butterfly_j_jht_s(table, layer, b);
            let u: u32 = st[j] as u32;
            let v_in: u32 = st[j2] as u32;
            proof {
                assert(st@[j as int] < MODULUS);
                assert(st@[j2 as int] < MODULUS);
                assert((v_in as int) * (s as int) < 12289 * 12289) by (nonlinear_arith)
                    requires
                        v_in < 12289,
                        s < 12289,
                ;
            }
            let prod: u32 = v_in * s as u32;
            let v_mul: u32 = prod % q;
            let quot_vs: u32 = (prod - v_mul) / q;
            let out0: u32 = (u + v_mul) % q;
            let out1: u32 = (u + q - v_mul) % q;
            let q0: u32 = (u + v_mul - out0) / q;
            let q1: u32 = (u + q - v_mul - out1) / q;
            proof {
                vstd::arithmetic::div_mod::lemma_fundamental_div_mod(prod as int, q as int);
                vstd::arithmetic::div_mod::lemma_fundamental_div_mod((u + v_mul) as int, q as int);
                vstd::arithmetic::div_mod::lemma_fundamental_div_mod((u + q - v_mul) as int, q as int);
                vstd::arithmetic::div_mod::lemma_div_multiples_vanish((prod / q) as int, q as int);
                vstd::arithmetic::div_mod::lemma_div_multiples_vanish(((u + v_mul) as int) / (q as int), q as int);
                vstd::arithmetic::div_mod::lemma_div_multiples_vanish(((u + q - v_mul) as int) / (q as int), q as int);
                vstd::arithmetic::div_mod::lemma_div_is_ordered(prod as int, 12289int * 12289int, q as int);
            }
            let ghost before = vals@;
            push_quot_bits(&mut vals, v_mul as u16);
            push_quot_bits(&mut vals, quot_vs as u16);
            push_quot_bits(&mut vals, out0 as u16);
            push_quot_bits(&mut vals, out1 as u16);
            vals.push(q0);
            vals.push(q1);
            proof {
                lemma_real_row_index(layer as int, b as int);
                let r = layer * 512 + b;
                let full = ntt_layer_witness_row(u as nat, v_in as nat, s as nat);
                assert(rows[r as int] == full.subrange(28, 86));
                assert(vals@ =~= before + rows[r as int]);
                lemma_concat_rows_take(rows, r as int);
            }
            b = b + 1;
        }
        layer = layer + 1;
    }
    let mut r: usize = real_rows;
    while r < h
        invariant
            real_rows == (N / 2) * LOG_N,
            h == 8192,
            real_rows <= r <= h,
            rows == ntt_full_main_rows(table@, poly@),
            vals@ == concat_rows(rows.take(r as int)),
        decreases h - r,
    {
        let ghost before = vals@;
        let mut c: usize = 0;
        while c < NUM_MAIN_COLS
            invariant
                c <= NUM_MAIN_COLS,
                vals@ =~= before + Seq::new(c as nat, |k: int| 0u32),
            decreases NUM_MAIN_COLS - c,
        {
            vals.push(0u32);
            c = c + 1;
        }
        proof {
            assert(vals@ =~= before + rows[r as int]);
            lemma_concat_rows_take(rows, r as int);
        }
        r = r + 1;
    }
    proof {
        assert(rows.take(8192) =~= rows);
        assert(uniform_width(rows, NUM_MAIN_COLS as nat));
        lemma_concat_rows_index(rows, NUM_MAIN_COLS as nat);
        vstd::arithmetic::div_mod::lemma_mod_multiples_basic(8192, NUM_MAIN_COLS as int);
    }
    let m: TraceMatrix = TraceMatrix::new(vals, NUM_MAIN_COLS);
    proof {
        lemma_matrix_cells(m, rows);
    }
    m
}

/// Completeness: every row of the full-NTT main trace of `poly` satisfies the constraints
/// against the matching preprocessed row.
pub proof fn lemma_ntt_full_trace_rows_hold(table: Seq<u16>, poly: Seq<u16>, r: int)
    requires
        ntt_table_ok(table),
        poly_ok(poly),
        0 <= r < 8192,
    ensures
        ntt_full_row_holds(ntt_full_prep_rows(table, poly)[r], ntt_full_main_rows(table, poly)[r]),
{
    let prep = ntt_full_prep_rows(table, poly)[r];
    let main = ntt_full_main_rows(table, poly)[r];
    if r < (N / 2) * LOG_N {
        let layer = (r / 512) as nat;
        let b = (r % 512) as nat;
        lemma_butterfly_bounds(layer, b);
        lemma_state_before_ok(table, poly, layer);
        let (u, v, s) = real_row_butterfly(table, poly, r);
        let (j, j2, s0) = butterfly_spec(table, layer, b);
        assert(ntt_state_before(table, poly, layer)[j as int] < MODULUS);
        assert(ntt_state_before(table, poly, layer)[j2 as int] < MODULUS);
        lemma_ntt_layer_witness_row_holds(u, v, s);
        let full = ntt_layer_witness_row(u, v, s);
        assert(main =~= full.subrange(28, 86));
        assert forall|g: int| 0 <= g < 4 implies #[trigger] group_value(main, g) == group_value(full, g + 2) by {
            assert(main.subrange(14 * g, 14 * g + 14) =~= full.subrange(14 * (g + 2), 14 * (g + 2) + 14));
        }
        assert(group_value(main, 0) == group_value(full, 2));
        assert(group_value(main, 1) == group_value(full, 3));
        assert(group_value(main, 2) == group_value(full, 4));
        assert(group_value(main, 3) == group_value(full, 5));
        assert forall|i: int| 0 <= i < 56 implies is_bit(#[trigger] main.subrange(0, 56)[i]) by {
            assert(main.subrange(0, 56)[i] == full.subrange(0, 84)[i + 28]);
        }
        lemma_witness_row_groups(u, v, s);
    }
}


/// Real row `layer · N/2 + b` of a full-NTT main trace for `poly` carries, in its `out0` and
/// `out1` groups, entries `j` and `j + ht` of the state after `layer`, mod `q`.
pub open spec fn ntt_full_outputs_hold(table: Seq<u16>, poly: Seq<u16>, main: Seq<Seq<u32>>, layer: nat, b: nat) -> bool {
    let (j, j2, s) = butterfly_spec(table, layer, b);
    let after = ntt_state_before(table, poly, layer + 1);
    let row = main[(layer * 512 + b) as int];
    &&& group_value(row, 2) % (MODULUS as int) == after[j as int]
    &&& group_value(row, 3) % (MODULUS as int) == after[j2 as int]
}

/// Soundness of the full-NTT AIR: a main trace satisfying the constraints against the
/// verifier-rebuilt preprocessed trace of `poly` carries, in the `out0` and `out1` groups of
/// real row `layer · N/2 + b`, the entries `j` and `j + ht` of the state after `layer`, mod `q`.
/// After the last layer that state is the forward NTT of `poly`.
pub proof fn lemma_ntt_full_trace_sound(table: Seq<u16>, poly: Seq<u16>, main: Seq<Seq<u32>>, layer: nat, b: nat)
    requires
        ntt_table_ok(table),
        poly_ok(poly),
        main.len() == 8192,
        forall|r: int| 0 <= r < 8192 ==> ntt_full_row_holds(#[trigger] ntt_full_prep_rows(table, poly)[r], main[r]),
        layer < LOG_N,
        b < N / 2,
    ensures
        ntt_full_outputs_hold(table, poly, main, layer, b),
        layer + 1 == LOG_N ==> ntt_state_before(table, poly, layer + 1) == ntt_spec(table, poly),
{
    let r = (layer * 512 + b) as int;
    lemma_real_row_index(layer as int, b as int);
    let prep = ntt_full_prep_rows(table, poly)[r];
    assert(ntt_full_row_holds(prep, main[r]));
    let st = ntt_state_before(table, poly, layer);
    lemma_state_before_ok(table, poly, layer);
    lemma_butterfly_bounds(layer, b);
    let (j, j2, s) = butterfly_spec(table, layer, b);
    assert(st[j as int] < MODULUS);
    assert(st[j2 as int] < MODULUS);
    assert(prep == seq![1u32, s as u32, st[j as int] as u32, st[j2 as int] as u32]);
    lemma_ntt_full_row_sound(prep, main[r]);
    lemma_butterfly_outputs(table, st, layer, b);
    vstd::arithmetic::mul::lemma_mul_is_commutative(st[j2 as int] as int, s as int);
    assert(ntt_state_before(table, poly, layer + 1) == ntt_layer_spec(table, st, layer));
}

} // verus!
