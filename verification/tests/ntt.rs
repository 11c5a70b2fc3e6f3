use falcon_plonky3::air::ntt_full::{
    build_ntt_full_main, build_ntt_full_preprocessed, ntt_full_real_rows, ntt_full_trace_height,
    FalconNttFullAir, NUM_MAIN_COLS as FULL_MAIN_COLS, NUM_PREPROCESSED_COLS as FULL_PREP_COLS,
};
use falcon_plonky3::air::ntt_layer::{
    apply_ntt_layer, butterfly_j_jht_s, layer0_twiddle, state_before_ntt_layer, state_through_ntt_layer,
    FalconNttLayerAir, NUM_MAIN_COLS as LAYER_MAIN_COLS,
};
use falcon_plonky3::witness::{build_ntt_layer0_trace, build_ntt_layer_instance, build_ntt_layer_main_trace};
use falcon_plonky3::{LOG_N, MODULUS, N};

const Q: u32 = MODULUS as u32;

fn table() -> Vec<u16> {
    (0..N).map(|i| ((i as u32 * 7919 + 3) % Q) as u16).collect()
}

fn poly(seed: u32) -> [u16; N] {
    let mut p = [0u16; N];
    for (i, c) in p.iter_mut().enumerate() {
        *c = ((i as u32 * 2654435761u32.wrapping_add(seed)) % Q) as u16;
    }
    p
}

fn reference_layer(table: &[u16], a: &mut [u16; N], layer: usize) {
    let m = 1usize << layer;
    let t = N >> layer;
    let ht = t / 2;
    for i in 0..m {
        let s = table[m + i] as u32;
        for j in i * t..i * t + ht {
            let u = a[j] as u32;
            let v = (a[j + ht] as u32 * s) % Q;
            a[j] = ((u + v) % Q) as u16;
            a[j + ht] = ((u + Q - v) % Q) as u16;
        }
    }
}

fn group(row: &[u32], g: usize) -> u32 {
    (0..14).map(|i| row[14 * g + i] << i).sum()
}

#[test]
fn butterfly_indices_and_twiddles() {
    let t = table();
    assert_eq!(butterfly_j_jht_s(&t, 0, 0), (0, 512, t[1]));
    assert_eq!(butterfly_j_jht_s(&t, 0, 511), (511, 1023, t[1]));
    assert_eq!(butterfly_j_jht_s(&t, 1, 300), (512 + 44, 512 + 44 + 256, t[3]));
    assert_eq!(butterfly_j_jht_s(&t, 9, 5), (10, 11, t[512 + 5]));
    assert_eq!(layer0_twiddle(&t), t[1]);
}

#[test]
fn layers_match_reference_cooley_tukey() {
    let t = table();
    let p = poly(11);
    let mut reference = p;
    for layer in 0..LOG_N {
        assert_eq!(state_before_ntt_layer(&t, &p, layer), reference, "before layer {layer}");
        let mut s = reference;
        apply_ntt_layer(&t, &mut s, layer);
        reference_layer(&t, &mut reference, layer);
        assert_eq!(s, reference, "layer {layer}");
        assert_eq!(state_through_ntt_layer(&t, &p, layer), reference, "through layer {layer}");
    }
}

#[test]
fn ntt_layer_trace_outputs_match_layer() {
    let t = table();
    let p = poly(5);
    for layer in 0..LOG_N {
        let expected = state_through_ntt_layer(&t, &p, layer);
        let before = state_before_ntt_layer(&t, &p, layer);
        let (air, main) = build_ntt_layer_instance(&t, &p, layer);
        assert_eq!(main.width, LAYER_MAIN_COLS);
        assert_eq!(main.height(), N / 2);
        assert_eq!(air.preprocessed.height(), FalconNttLayerAir::expected_height());
        FalconNttLayerAir::assert_valid_main_height(&main);
        for b in 0..N / 2 {
            let (j, j2, s) = butterfly_j_jht_s(&t, layer, b);
            assert_eq!(air.preprocessed.values[b], s as u32);
            let row = main.row(b);
            let (u, v_in) = (group(&row, 0), group(&row, 1));
            let (v_mul, quot_vs) = (group(&row, 2), group(&row, 3));
            assert_eq!(u, before[j] as u32);
            assert_eq!(v_in, before[j2] as u32);
            assert_eq!(v_in * s as u32, v_mul + quot_vs * Q);
            assert_eq!(group(&row, 4), expected[j] as u32, "layer {layer} row {b} out0");
            assert_eq!(group(&row, 5), expected[j2] as u32, "layer {layer} row {b} out1");
            assert!(row[84] <= 1 && row[85] <= 1);
            assert!(row[..84].iter().all(|&c| c <= 1));
        }
    }
    assert_eq!(build_ntt_layer0_trace(&t, &p).values, build_ntt_layer_main_trace(&t, &p, 0).values);
    let air0 = FalconNttLayerAir::new_for_layer0(&t);
    assert!(air0.preprocessed.values.iter().all(|&s| s == t[1] as u32));
    assert_eq!(FalconNttLayerAir::preprocessed_for_layer(&t, 3).values.len(), N / 2);
}

#[test]
fn full_ntt_traces_stack_every_layer() {
    let t = table();
    let p = poly(3);
    assert_eq!(ntt_full_real_rows(), (N / 2) * LOG_N);
    assert_eq!(ntt_full_trace_height(), 8192);
    let prep = build_ntt_full_preprocessed(&t, &p);
    let main = build_ntt_full_main(&t, &p);
    assert_eq!(prep.width, FULL_PREP_COLS);
    assert_eq!(main.width, FULL_MAIN_COLS);
    assert_eq!(prep.height(), 8192);
    assert_eq!(main.height(), 8192);
    for layer in 0..LOG_N {
        let before = state_before_ntt_layer(&t, &p, layer);
        let after = state_through_ntt_layer(&t, &p, layer);
        for b in [0usize, 1, 255, 511] {
            let r = layer * 512 + b;
            let (j, j2, s) = butterfly_j_jht_s(&t, layer, b);
            assert_eq!(prep.row(r), vec![1, s as u32, before[j] as u32, before[j2] as u32]);
            let row = main.row(r);
            assert_eq!(group(&row, 2), after[j] as u32);
            assert_eq!(group(&row, 3), after[j2] as u32);
        }
    }
    for r in [5120usize, 6000, 8191] {
        assert_eq!(prep.row(r), vec![0, 0, 0, 0]);
        assert!(main.row(r).iter().all(|&c| c == 0));
    }
    let air = FalconNttFullAir::new(prep);
    assert_eq!(air.preprocessed.height(), 8192);
}

#[test]
fn ntt_layer_is_additive_mod_q() {
    let t = table();
    for layer in 0..LOG_N {
        let mut a = poly(1);
        let mut b = poly(2);
        let mut c = [0u16; N];
        for k in 0..N {
            c[k] = ((a[k] as u32 + b[k] as u32) % Q) as u16;
        }
        apply_ntt_layer(&t, &mut a, layer);
        apply_ntt_layer(&t, &mut b, layer);
        apply_ntt_layer(&t, &mut c, layer);
        for k in 0..N {
            assert_eq!(c[k] as u32, (a[k] as u32 + b[k] as u32) % Q, "layer {layer} index {k}");
        }
    }
}

