use falcon_plonky3::air::coeff_dual_product_zero::FalconCoeffDualProductZeroAir;
use falcon_plonky3::air::credential::{FalconCoeffDualCredentialAir, FalconDualNttCredentialAir, FalconL2CredentialAir};
use falcon_plonky3::air::l2_bound::{FalconL2BoundAir, NUM_MAIN_COLS as L2_MAIN_COLS};
use falcon_plonky3::air::statement_bound::StatementBoundAir;
use falcon_plonky3::air::unified_parsed_verify::{
    unified_body_rows, unified_dual_coeff_rows, unified_l2_rows, unified_ntt_segment_rows,
    unified_ntt_total_rows, unified_trace_height, UNIFIED_MAIN_WIDTH, UNIFIED_PKHM_EMB_OFF,
    UNIFIED_PREP_WIDTH,
};
use falcon_plonky3::witness::{
    build_falcon_coeff_dual_product_zero_instance, build_falcon_coeff_dual_product_zero_preprocessed,
    build_falcon_coeff_dual_product_zero_trace, build_falcon_dual_ntt_instance,
    build_falcon_l2_bound_preprocessed, build_falcon_l2_bound_trace,
    build_falcon_unified_parsed_verify_air, build_falcon_unified_parsed_verify_instance,
    l2_within_bound, DualNttStatement, DualPolynomial,
};
use falcon_plonky3::{MODULUS, N, SIG_L2_BOUND};

const Q: u32 = MODULUS as u32;

fn bits_value(cells: &[u32]) -> u64 {
    cells.iter().enumerate().map(|(i, &c)| (c as u64) << i).sum()
}

fn zero_poly() -> Vec<u16> {
    vec![0u16; N]
}

/// Index 0 carries `pk = 1000`, `hm = 100`, `sig = (5, 20)`, `v = (7711, 4900)`:
/// `100 + 4900 + 20·1000 = 25000 = 2q + 422` and `7711 + 5·1000 = 12711 = q + 422`.
fn toy_statement() -> DualNttStatement {
    let mut st = DualNttStatement {
        pk_ntt: zero_poly(),
        hm_ntt: zero_poly(),
        sig_pos_ntt: zero_poly(),
        sig_neg_ntt: zero_poly(),
        v_pos_ntt: zero_poly(),
        v_neg_ntt: zero_poly(),
    };
    st.pk_ntt[0] = 1000;
    st.hm_ntt[0] = 100;
    st.sig_pos_ntt[0] = 5;
    st.sig_neg_ntt[0] = 20;
    st.v_pos_ntt[0] = 7711;
    st.v_neg_ntt[0] = 4900;
    st
}

#[test]
fn dual_ntt_row_of_toy_statement() {
    let st = toy_statement();
    assert!(st.is_congruent());
    let (air, main) = build_falcon_dual_ntt_instance(&st);
    assert_eq!(air.pk_ntt_values()[0], 1000);
    assert_eq!(air.hm_ntt_values()[0], 100);
    assert_eq!(air.ntt_ref().row(0), vec![5, 20, 7711, 4900]);
    assert_eq!(main.height(), N);
    let row = main.row(0);
    assert_eq!(&row[..8], &[5, 20, 7711, 4900, 422, 422, 5000, 20000]);
    assert_eq!(bits_value(&row[8..22]), 2);
    assert_eq!(bits_value(&row[22..36]), 1);
    assert!(main.row(1).iter().all(|&c| c == 0));
}

#[test]
fn dual_ntt_congruence_detects_mismatch() {
    let mut st = toy_statement();
    st.v_pos_ntt[0] = 7712;
    assert!(!st.is_congruent());
    let mut st2 = toy_statement();
    st2.hm_ntt[N - 1] = 1;
    assert!(!st2.is_congruent());
}

fn sample_signature() -> DualPolynomial {
    let mut pos = zero_poly();
    let mut neg = zero_poly();
    pos[0] = 3;
    neg[1] = 5;
    pos[N - 1] = 12288;
    DualPolynomial { pos, neg }
}

#[test]
fn coeff_dual_traces_hold_limbs() {
    let sig = sample_signature();
    let prep = build_falcon_coeff_dual_product_zero_preprocessed(&sig);
    assert_eq!(prep.row(0), vec![3, 0]);
    assert_eq!(prep.row(1), vec![0, 5]);
    assert_eq!(prep.row(N - 1), vec![12288, 0]);
    let (air, main) = build_falcon_coeff_dual_product_zero_instance(&sig);
    assert_eq!(air.expected.values, prep.values);
    let r0 = main.row(0);
    assert_eq!(bits_value(&r0[..14]), 3);
    assert_eq!(bits_value(&r0[14..]), 0);
    let r1 = main.row(1);
    assert_eq!(bits_value(&r1[..14]), 0);
    assert_eq!(bits_value(&r1[14..]), 5);
    assert_eq!(build_falcon_coeff_dual_product_zero_trace(&sig).values, main.values);
    let again = FalconCoeffDualProductZeroAir::new(prep);
    assert_eq!(again.expected.height(), N);
}

#[test]
fn l2_norm_bound_decisions() {
    let sig = sample_signature();
    let mut vneg = zero_poly();
    vneg[3] = 6144;
    let v = DualPolynomial { pos: zero_poly(), neg: vneg };
    assert!(l2_within_bound(&sig, &v));
    let big = DualPolynomial { pos: vec![6144; N], neg: vec![6144; N] };
    assert!(!l2_within_bound(&big, &big));
    let zero = DualPolynomial { pos: zero_poly(), neg: zero_poly() };
    assert!(l2_within_bound(&zero, &zero));
}

#[test]
fn l2_trace_accumulates_centered_squares() {
    let sig = sample_signature();
    let mut vneg = zero_poly();
    vneg[3] = 6144;
    let v = DualPolynomial { pos: zero_poly(), neg: vneg };
    // centered: 3 → 3, 5 → 5, 12288 → 1, 6144 → 6144
    let norm: u64 = 9 + 25 + 1 + 6144 * 6144;
    let main = build_falcon_l2_bound_trace(&sig, &v);
    assert_eq!(main.width, L2_MAIN_COLS);
    assert_eq!(main.height(), 4 * N);
    let row0 = main.row(0);
    assert_eq!(bits_value(&row0[..14]), 3);
    assert_eq!(bits_value(&row0[14..28]), (Q - 1 - 3) as u64);
    assert_eq!(row0[28], 0);
    assert_eq!(bits_value(&row0[29..43]), 6144 - 3);
    assert_eq!(bits_value(&row0[43..70]), 9);
    let high = main.row(N - 1);
    assert_eq!(high[28], 1);
    assert_eq!(bits_value(&high[29..43]), 12288 - 6145);
    assert_eq!(bits_value(&high[43..70]), 9 + 1);
    let last = main.row(4 * N - 1);
    assert_eq!(bits_value(&last[43..70]), norm);
    assert_eq!(bits_value(&last[70..97]), SIG_L2_BOUND - norm);
    assert_eq!(bits_value(&main.row(4 * N - 2)[70..97]), 0);
    let prep = build_falcon_l2_bound_preprocessed(&sig, &v);
    assert_eq!(prep.height(), 4 * N);
    assert_eq!(prep.values[0], 3);
    assert_eq!(prep.values[N + 1], 5);
    assert_eq!(prep.values[3 * N + 3], 6144);
    let air = FalconL2BoundAir::new(prep);
    assert_eq!(air.preprocessed.width, 1);
}

#[test]
fn unified_geometry() {
    assert_eq!(unified_dual_coeff_rows(), N);
    assert_eq!(unified_l2_rows(), 4 * N);
    assert_eq!(unified_ntt_segment_rows(), 8192);
    assert_eq!(unified_ntt_total_rows(), 4 * 8192);
    assert_eq!(unified_body_rows(), 37888);
    assert_eq!(unified_trace_height(), 65536);
}

#[test]
fn unified_instance_stacks_segments() {
    let table: Vec<u16> = (0..N).map(|i| ((i as u32 * 31 + 1) % Q) as u16).collect();
    let st = toy_statement();
    let sig = sample_signature();
    let mut vneg = zero_poly();
    vneg[3] = 6144;
    let v = DualPolynomial { pos: zero_poly(), neg: vneg };
    let (air, main) = build_falcon_unified_parsed_verify_instance(&table, &st, &sig, &v);
    let prep = &air.preprocessed;
    assert_eq!(prep.width, UNIFIED_PREP_WIDTH);
    assert_eq!(prep.height(), 65536);
    assert_eq!(main.width, UNIFIED_MAIN_WIDTH);
    assert_eq!(main.height(), 65536);
    assert_eq!(&prep.row(0)[..7], &[1, 0, 0, 5, 20, 7711, 4900]);
    assert_eq!(&prep.row(1)[7..9], &[0, 5]);
    assert_eq!(&prep.row(1024)[..3], &[0, 1, 0]);
    assert_eq!(&prep.row(5120)[..3], &[0, 0, 1]);
    assert_eq!(&prep.row(65535)[..3], &[0, 0, 1]);
    assert_eq!(prep.row(1024)[UNIFIED_PKHM_EMB_OFF], 1000);
    assert_eq!(prep.row(1024)[UNIFIED_PKHM_EMB_OFF + 1], 100);
    assert_eq!(prep.row(5120)[9], 1);
    assert_eq!(&main.row(0)[..8], &[5, 20, 7711, 4900, 422, 422, 5000, 20000]);
    assert_eq!(bits_value(&main.row(0)[36..50]), 3);
    assert_eq!(bits_value(&main.row(1024)[..14]), 3);
    assert!(main.row(40000).iter().all(|&c| c == 0));
    let air_only = build_falcon_unified_parsed_verify_air(&table, &st, &sig, &v);
    assert_eq!(air_only.preprocessed.values, prep.values);
}

#[test]
fn credential_and_statement_bound_airs() {
    let pk: Vec<u32> = (0..N as u32).collect();
    let hm: Vec<u32> = vec![7; N];
    let dual = FalconDualNttCredentialAir::new(pk, hm);
    let wrapped = StatementBoundAir::new(dual, 8);
    assert_eq!(wrapped.num_public_values(), 8);
    let _inner: &FalconDualNttCredentialAir = wrapped.inner();
    let coeff = StatementBoundAir::new(FalconCoeffDualCredentialAir, 3);
    assert_eq!(coeff.num_public_values(), 3);
    let _l2 = FalconL2CredentialAir;
}

#[test]
fn disjoint_limbs_decision() {
    assert!(sample_signature().is_disjoint());
    let mut overlap = sample_signature();
    overlap.neg[0] = 1;
    assert!(!overlap.is_disjoint());
    let zero = DualPolynomial { pos: zero_poly(), neg: zero_poly() };
    assert!(zero.is_disjoint());
}

#[test]
fn dual_ntt_air_without_congruence() {
    // The verifier rebuilds the AIR from the statement alone; congruence is what the proof shows.
    let mut st = toy_statement();
    st.v_pos_ntt[0] = 7712;
    assert!(!st.is_congruent());
    let (air, _) = build_falcon_dual_ntt_instance(&st);
    assert_eq!(air.ntt_ref().row(0), vec![5, 20, 7712, 4900]);
    assert_eq!(air.pk_ntt_values()[0], 1000);
}

