use falcon_plonky3::mldsa::{build_ml_dsa44_challenge_trace, challenge_air, MlDsa44ChallengeBytesAir, MLDSA44_LAMBDA_BYTES, NUM_MAIN_COLS};

#[test]
fn challenge_trace_rows_pair_bytes() {
    let c: Vec<u8> = (0..32u8).map(|i| i.wrapping_mul(37)).collect();
    let mut r = c.clone();
    r[31] ^= 1;
    let m = build_ml_dsa44_challenge_trace(&c, &r);
    assert_eq!(m.width, NUM_MAIN_COLS);
    assert_eq!(m.height(), MLDSA44_LAMBDA_BYTES);
    assert!(m.height().is_power_of_two());
    for i in 0..32 {
        assert_eq!(m.row(i), vec![c[i] as u32, r[i] as u32]);
    }
    let _air: MlDsa44ChallengeBytesAir = challenge_air();
}

#[test]
fn challenge_trace_reads_only_the_first_lambda_bytes() {
    let c = vec![9u8; 40];
    let r = vec![9u8; 32];
    let m = build_ml_dsa44_challenge_trace(&c, &r);
    assert_eq!(m.values, vec![9u32; 64]);
}
