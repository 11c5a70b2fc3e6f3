use falcon_plonky3::air::hash_to_point::{
    FalconHashToPointAir, COL_ACCEPT, COL_B0, COL_B0_BITS_START, COL_B1, COL_B1_BITS_START, COL_COEFF,
    COL_COEFF_BITS_START, COL_COEFF_SLACK_START, COL_EMIT_BITS_START, COL_EMIT_CTR, COL_HM_REF,
    COL_IS_REAL, COL_QUOT_START, COL_RAW, COL_SLACK_START, NUM_HASH_MAIN_COLS,
};
use falcon_plonky3::hash::shake::{
    compute_squeeze_byte_refs, count_keccak_blocks, has_enough_samples, hash_to_point, rate_byte, squeeze_to_coeffs,
    verify_squeeze_provenance, HashToPointResult, SqueezeByteRef, RATE, SHAKE_SQUEEZE_LEN,
};
use falcon_plonky3::hash::witness::{
    build_hash_to_point_instance, build_hash_to_point_instance_from_result, hash_to_point_trace_height,
};
use falcon_plonky3::{MODULUS, N};
use p3_keccak::KeccakF;
use p3_symmetric::Permutation;

/// A deterministic squeeze stream: every tenth sample is `0xFFFF` (rejected), the others are
/// below the threshold.
fn squeeze(seed: u32) -> Vec<u8> {
    let mut out = Vec::with_capacity(SHAKE_SQUEEZE_LEN);
    for i in 0..SHAKE_SQUEEZE_LEN as u32 / 2 {
        let s: u16 = if i % 10 == 9 { 0xFFFF } else { ((i * 7919 + seed * 31) % 61000) as u16 };
        out.push((s >> 8) as u8);
        out.push(s as u8);
    }
    out
}

fn reference_coeffs(sq: &[u8]) -> Vec<u16> {
    let mut res = Vec::new();
    for pair in sq.chunks(2) {
        let s = ((pair[0] as u32) << 8) | pair[1] as u32;
        if s < 61445 && res.len() < N {
            res.push((s % MODULUS as u32) as u16);
        }
    }
    res
}

/// SHAKE256 of `input`, `out_len` bytes, written directly over Keccak-f[1600].
fn shake256(input: &[u8], out_len: usize) -> Vec<u8> {
    let mut buf = input.to_vec();
    buf.push(0x1f);
    while buf.len() % RATE != 0 {
        buf.push(0);
    }
    let last = buf.len() - 1;
    buf[last] ^= 0x80;
    let mut a = [0u64; 25];
    for block in buf.chunks(RATE) {
        for (i, &b) in block.iter().enumerate() {
            a[i / 8] ^= (b as u64) << (8 * (i % 8));
        }
        KeccakF.permute_mut(&mut a);
    }
    let mut out = Vec::with_capacity(out_len);
    loop {
        for i in 0..RATE {
            if out.len() == out_len {
                return out;
            }
            out.push((a[i / 8] >> (8 * (i % 8))) as u8);
        }
        KeccakF.permute_mut(&mut a);
    }
}

/// Value of little-endian bit cells.
fn bits_value(cells: &[u32]) -> u32 {
    cells.iter().enumerate().map(|(i, &b)| b << i).sum()
}

#[test]
fn rejection_sampling_values() {
    let mut sq = vec![0u8; SHAKE_SQUEEZE_LEN];
    sq[0] = 0x00;
    sq[1] = 0x01; // 1
    sq[2] = 0xF0;
    sq[3] = 0x05; // 61445: rejected
    sq[4] = 0xF0;
    sq[5] = 0x04; // 61444 = 4q + 12288
    sq[6] = 0x30;
    sq[7] = 0x01; // 12289 → 0
    let c = squeeze_to_coeffs(&sq);
    assert_eq!(c[0], 1);
    assert_eq!(c[1], 12288);
    assert_eq!(c[2], 0);
    assert_eq!(c[3], 0);
    let s = squeeze(4);
    assert_eq!(squeeze_to_coeffs(&s).to_vec(), reference_coeffs(&s));
}

#[test]
fn hash_to_point_result_fields() {
    let msg = b"zk credential presentation";
    let nonce = [7u8; 40];
    let s = squeeze(1);
    let r = hash_to_point(msg, &nonce, s.clone());
    assert_eq!(r.hm.to_vec(), reference_coeffs(&s));
    assert_eq!(r.squeeze, s);
    assert_eq!(r.keccak_inputs.len(), 23);
    assert_eq!(r.rate_after_perm.len(), 23);
    assert_eq!(count_keccak_blocks(msg, &nonce), 23);
    let long = vec![0xA5u8; 300];
    assert_eq!(count_keccak_blocks(&long, &nonce), 340 / RATE + 23);
    assert_eq!(count_keccak_blocks(&[], &[]), 23);
    assert_eq!(count_keccak_blocks(&[1u8; 136], &[]), 24);
}

#[test]
fn keccak_inputs_are_deterministic_and_non_empty() {
    let msg = b"zk credential presentation";
    let nonce = [7u8; 40];
    let a = hash_to_point(msg, &nonce, squeeze(2));
    let b = hash_to_point(msg, &nonce, squeeze(2));
    assert_eq!(a.keccak_inputs, b.keccak_inputs);
    assert!(!a.keccak_inputs.is_empty());
    assert_eq!(a.squeeze, b.squeeze);
}

#[test]
fn sponge_records_keccak_f_outputs() {
    let msg = b"sponge record";
    let nonce = [9u8; 40];
    let r = hash_to_point(msg, &nonce, squeeze(3));
    for k in 0..r.keccak_inputs.len() {
        let mut a = r.keccak_inputs[k];
        KeccakF.permute_mut(&mut a);
        let mut rate = [0u8; RATE];
        for (i, b) in rate.iter_mut().enumerate() {
            *b = (a[i / 8] >> (8 * (i % 8))) as u8;
        }
        assert_eq!(rate, r.rate_after_perm[k], "block {k}");
        assert_ne!(r.keccak_inputs[k][..17], a[..17]);
    }
    // The first input is the padded absorption of `nonce ‖ msg` into the zero state.
    let first = r.keccak_inputs[0];
    let mut bytes = [0u8; 200];
    for (i, b) in bytes.iter_mut().enumerate() {
        *b = (first[i / 8] >> (8 * (i % 8))) as u8;
    }
    assert_eq!(&bytes[..40], &nonce);
    assert_eq!(&bytes[40..40 + msg.len()], msg);
    assert_eq!(bytes[40 + msg.len()], 0x1f);
    assert_eq!(bytes[135], 0x80);
}

#[test]
fn squeeze_byte_refs_greedy_matching() {
    let mut rate = [[0u8; RATE]; 2];
    for b in 0..2 {
        for i in 0..RATE {
            rate[b][i] = ((b * RATE + i) % 251) as u8;
        }
    }
    // flat position p holds p mod 251; 5 → 5, 200 → 200, 10 → 261, 20 → 271
    let refs = compute_squeeze_byte_refs(&rate, &[5, 200, 10, 20]).unwrap();
    assert_eq!(
        refs,
        vec![
            SqueezeByteRef { block: 0, offset: 5 },
            SqueezeByteRef { block: 1, offset: 200 - RATE as u32 },
            SqueezeByteRef { block: 1, offset: 261 - RATE as u32 },
            SqueezeByteRef { block: 1, offset: 271 - RATE as u32 },
        ]
    );
    assert_eq!(
        compute_squeeze_byte_refs(&rate, &[5, 5]),
        Some(vec![SqueezeByteRef { block: 0, offset: 5 }, SqueezeByteRef { block: 1, offset: 256 - RATE as u32 }])
    );
    assert_eq!(compute_squeeze_byte_refs(&rate, &[]), Some(vec![]));
    assert_eq!(compute_squeeze_byte_refs(&rate, &[200, 199]), None);
    assert_eq!(compute_squeeze_byte_refs(&[], &[0]), None);
}

#[test]
fn squeeze_provenance_checks_each_reference() {
    let msg = b"provenance";
    let nonce = [1u8; 40];
    let base = hash_to_point(msg, &nonce, squeeze(5));
    let b0 = base.rate_after_perm[0][0];
    let b1 = base.rate_after_perm[2][7];
    let result = HashToPointResult {
        hm: base.hm,
        squeeze: vec![b0, b1],
        keccak_inputs: base.keccak_inputs.clone(),
        rate_after_perm: base.rate_after_perm.clone(),
        squeeze_byte_refs: vec![SqueezeByteRef { block: 0, offset: 0 }, SqueezeByteRef { block: 2, offset: 7 }],
    };
    assert_eq!(rate_byte(&result, 2, 7), b1);
    assert!(verify_squeeze_provenance(&result));
    let mut wrong = result.clone();
    wrong.squeeze[1] = b1.wrapping_add(1);
    assert!(!verify_squeeze_provenance(&wrong));
    let mut short = result.clone();
    short.squeeze_byte_refs.pop();
    assert!(!verify_squeeze_provenance(&short));
}

fn row(values: &[u32], r: usize) -> &[u32] {
    &values[r * NUM_HASH_MAIN_COLS..(r + 1) * NUM_HASH_MAIN_COLS]
}

#[test]
fn witness_row0_raw_identity() {
    let msg = b"zk credential presentation";
    let nonce = [7u8; 40];
    let (_, main, _) = build_hash_to_point_instance(msg, &nonce, squeeze(7));
    let r0 = row(&main.values, 0);
    assert_eq!(r0[COL_RAW], r0[COL_B0] * 256 + r0[COL_B1]);
    assert_eq!(r0[COL_IS_REAL], 1);
}

#[test]
fn single_result_builds_same_hash_to_point_trace() {
    let msg = b"zk credential presentation";
    let nonce = [7u8; 40];
    let s = squeeze(8);
    let shake = hash_to_point(msg, &nonce, s.clone());
    let (_, main_a, _) = build_hash_to_point_instance(msg, &nonce, s);
    let (_, main_b, _) = build_hash_to_point_instance_from_result(msg.len(), &shake);
    assert_eq!(main_a.values, main_b.values);
}

#[test]
fn trace_bytes_match_squeeze_stream() {
    let msg = b"coherence";
    let nonce = [3u8; 40];
    let shake = hash_to_point(msg, &nonce, squeeze(9));
    let (_, main, _) = build_hash_to_point_instance_from_result(msg.len(), &shake);
    let mut ctr = 0usize;
    for row_idx in 0..main.height() {
        let r = row(&main.values, row_idx);
        if r[COL_IS_REAL] != 1 {
            continue;
        }
        assert_eq!(shake.squeeze[ctr] as u32, r[COL_B0]);
        assert_eq!(shake.squeeze[ctr + 1] as u32, r[COL_B1]);
        ctr += 2;
        if ctr >= SHAKE_SQUEEZE_LEN {
            break;
        }
    }
}

#[test]
fn hash_trace_rows_and_padding() {
    let msg = b"rows";
    let nonce = [0u8; 40];
    let s = squeeze(10);
    let (air, main, pv) = build_hash_to_point_instance(msg, &nonce, s.clone());
    let _ = air.clone();
    let expected = reference_coeffs(&s);
    assert_eq!(pv, expected.iter().map(|&c| c as u32).collect::<Vec<u32>>());
    assert_eq!(main.width, NUM_HASH_MAIN_COLS);
    assert_eq!(main.height(), 2048);
    assert_eq!(hash_to_point_trace_height(), 2048);
    let mut emitted = 0u32;
    let mut real_rows = 0usize;
    for r in 0..main.height() {
        let x = row(&main.values, r);
        if x[COL_IS_REAL] == 0 {
            assert_eq!(x[COL_EMIT_CTR], N as u32);
            assert!(x.iter().enumerate().all(|(c, &v)| c == COL_EMIT_CTR || v == 0));
            continue;
        }
        real_rows += 1;
        assert_eq!(x[COL_EMIT_CTR], emitted);
        let raw = x[COL_RAW];
        if raw < 61445 {
            assert_eq!(x[COL_ACCEPT], 1);
            assert_eq!(x[COL_COEFF], raw % MODULUS as u32);
            assert_eq!(x[COL_HM_REF], expected[emitted as usize] as u32);
            emitted += 1;
        } else {
            assert_eq!(x[COL_ACCEPT], 0);
            assert_eq!(x[COL_COEFF], 0);
        }
    }
    assert_eq!(emitted, N as u32);
    assert!(real_rows > N && real_rows < 2048);
    let _a = FalconHashToPointAir::new(256);
}

#[test]
fn absorbing_nonce_then_message_is_absorbing_their_concatenation() {
    let msg = b"split point";
    let nonce = [5u8; 40];
    let mut joined = nonce.to_vec();
    joined.extend_from_slice(msg);
    let a = hash_to_point(msg, &nonce, squeeze(11));
    let b = hash_to_point(&joined, &[], squeeze(11));
    assert_eq!(a.keccak_inputs, b.keccak_inputs);
    assert_eq!(a.rate_after_perm, b.rate_after_perm);
    let long_nonce = vec![3u8; 200];
    let mut joined_long = long_nonce.clone();
    joined_long.extend_from_slice(msg);
    let c = hash_to_point(msg, &long_nonce, squeeze(12));
    let d = hash_to_point(&joined_long, &[], squeeze(12));
    assert_eq!(c.keccak_inputs, d.keccak_inputs);
    assert_eq!(c.keccak_inputs.len(), 211 / RATE + 23);
}

#[test]
fn reference_shake256_known_answer() {
    let expected: [u8; 8] = [0x46, 0xb9, 0xdd, 0x2b, 0x0b, 0xa8, 0x8d, 0x13];
    assert_eq!(shake256(&[], 8), expected.to_vec());
}

#[test]
fn squeeze_provenance_matches_rate_snapshots() {
    let msg = b"zk credential presentation";
    let nonce = [7u8; 40];
    let mut input = nonce.to_vec();
    input.extend_from_slice(msg);
    let r = hash_to_point(msg, &nonce, shake256(&input, SHAKE_SQUEEZE_LEN));
    assert!(verify_squeeze_provenance(&r));
    assert_eq!(r.squeeze_byte_refs.len(), r.squeeze.len());
    // The squeeze is read from the squeezing blocks, one rate after another.
    assert_eq!(r.squeeze_byte_refs[0], SqueezeByteRef { block: 0, offset: 0 });
    assert_eq!(r.squeeze_byte_refs[RATE], SqueezeByteRef { block: 1, offset: 0 });
}

#[test]
fn all_zero_squeeze_has_padding_row() {
    let s = vec![0u8; SHAKE_SQUEEZE_LEN];
    let (_, main, pv) = build_hash_to_point_instance(b"z", &[0u8; 40], s);
    // 1024 samples are read, all accepted; the height is the next power of two above.
    assert_eq!(main.height(), 2048);
    assert_eq!(pv, vec![0u32; N]);
    let last = row(&main.values, main.height() - 1);
    assert_eq!(last[COL_IS_REAL], 0);
    assert_eq!(last[COL_EMIT_CTR], N as u32);
    assert_eq!(row(&main.values, N - 1)[COL_IS_REAL], 1);
    assert_eq!(row(&main.values, N)[COL_IS_REAL], 0);
}

#[test]
fn hash_rows_carry_range_bits() {
    let s = squeeze(13);
    let (_, main, pv) = build_hash_to_point_instance(b"bits", &[1u8; 40], s);
    for r in 0..main.height() {
        let x = row(&main.values, r);
        if x[COL_IS_REAL] == 0 {
            continue;
        }
        assert_eq!(bits_value(&x[COL_B0_BITS_START..COL_B1_BITS_START]), x[COL_B0]);
        assert_eq!(bits_value(&x[COL_B1_BITS_START..COL_COEFF_BITS_START]), x[COL_B1]);
        let slack = bits_value(&x[COL_SLACK_START..COL_QUOT_START]);
        if x[COL_ACCEPT] == 1 {
            assert_eq!(x[COL_RAW] + slack, 61444);
            let quot = bits_value(&x[COL_QUOT_START..COL_EMIT_BITS_START]);
            assert_eq!(x[COL_RAW], x[COL_COEFF] + quot * MODULUS as u32);
            assert_eq!(bits_value(&x[COL_COEFF_BITS_START..COL_COEFF_SLACK_START]), x[COL_COEFF]);
            let cslack = bits_value(&x[COL_COEFF_SLACK_START..COL_IS_REAL]);
            assert_eq!(x[COL_COEFF] + cslack, MODULUS as u32 - 1);
            let emit = bits_value(&x[COL_EMIT_BITS_START..COL_B0_BITS_START]);
            assert_eq!(x[COL_EMIT_CTR], emit);
            assert_eq!(x[COL_HM_REF], pv[emit as usize]);
        } else {
            assert_eq!(x[COL_RAW], 61445 + slack);
            assert_eq!(x[COL_COEFF], 0);
        }
    }
}

#[test]
fn enough_samples_decision() {
    assert!(has_enough_samples(&vec![0u8; SHAKE_SQUEEZE_LEN]));
    assert!(!has_enough_samples(&vec![0xFFu8; SHAKE_SQUEEZE_LEN]));
    // Exactly N accepted samples in 2N bytes; one byte fewer leaves N − 1.
    assert!(has_enough_samples(&vec![0u8; 2 * N]));
    assert!(!has_enough_samples(&vec![0u8; 2 * N - 1]));
    assert!(has_enough_samples(&squeeze(5)));
}

