//! One Cooley–Tukey layer of Falcon's forward NTT.
//!
//! For layer `l ∈ [0, LOG_N)`: `m = 2^l` butterfly groups, stride `t = N / 2^l`, half stride
//! `ht = t / 2`. Group `i` covers indices `[i·t, (i+1)·t)` and pairs `j` with `j + ht` under the
//! twiddle `s = table[m + i]`. Per butterfly, reducing mod `q` at each step:
//! `v = v_in · s mod q`, `out0 = (u + v) mod q`, `out1 = (u + q − v) mod q`.
use vstd::prelude::*;
use vstd::arithmetic::power2::*;
use vstd::arithmetic::div_mod::*;
use vstd::arithmetic::mul::*;
use crate::params::{N, LOG_N, MODULUS, QUOT_BITS, ntt_table_ok, poly_ok};
use crate::trace::TraceMatrix;
use crate::bits::{cells_value, cells_bool, is_bit, le_cells, lemma_cells_value_bound, lemma_le_cells_exact};
use crate::field::{feq, lemma_feq_small, p};

verus! {

/// Preprocessed columns of the layer AIR: the twiddle.
pub const NUM_PREPROCESSED_COLS: usize = 1;

/// Six 14-bit groups (`u`, `v_in`, `v_mul`, `quot_vs`, `out0`, `out1`) and the two reduction
/// bits `q0`, `q1`.
pub const NUM_MAIN_COLS: usize = 86;

/// Preprocessed row of the layer AIR.
#[derive(Clone, Copy)]
pub struct PreprocessedRow<F> {
    pub twiddle: F,
}

/// Main row of the layer AIR.
#[derive(Clone, Copy)]
pub struct MainRow<F> {
    pub u_bits: [F; QUOT_BITS],
    pub v_bits: [F; QUOT_BITS],
    pub v_mul_bits: [F; QUOT_BITS],
    pub quot_vs_bits: [F; QUOT_BITS],
    pub out0_bits: [F; QUOT_BITS],
    pub out1_bits: [F; QUOT_BITS],
    pub q0: F,
    pub q1: F,
}

/// Number of butterfly groups at `layer`.
pub open spec fn groups(layer: nat) -> nat {
    pow2(layer)
}

/// Stride `t = N / 2^layer`.
pub open spec fn stride(layer: nat) -> nat {
    pow2((LOG_N - layer) as nat)
}

/// Half stride `ht = t / 2`.
pub open spec fn half(layer: nat) -> nat {
    pow2((LOG_N - 1 - layer) as nat)
}

/// Shape facts of every layer: `m · ht = N / 2`, `t = 2 · ht`, `m · t = N`, `ht ≥ 1`.
pub proof fn lemma_layer_shape(layer: nat)
    requires
        layer < LOG_N,
    ensures
        groups(layer) * half(layer) == N / 2,
        stride(layer) == 2 * half(layer),
        groups(layer) * stride(layer) == N,
        half(layer) >= 1,
        groups(layer) <= N / 2,
        groups(layer) >= 1,
{
    lemma2_to64();
    let l: nat = layer;
    lemma_pow2_adds(l, (LOG_N - 1 - l) as nat);
    lemma_pow2_adds(l, (LOG_N - l) as nat);
    lemma_pow2_adds(1, (LOG_N - 1 - l) as nat);
    lemma_pow2_pos((LOG_N - 1 - l) as nat);
    lemma_pow2_pos(l);
    assert(((LOG_N - 1 - l) as nat) + 1 == (LOG_N - l) as nat);
    assert(l + ((LOG_N - 1 - l) as nat) == 9);
    assert(l + ((LOG_N - l) as nat) == 10);
    if l < 9 {
        lemma_pow2_strictly_increases(l, 9);
    }
}

/// `N / 2^layer` is the stride.
pub proof fn lemma_stride_is_div(layer: nat)
    requires
        layer < LOG_N,
    ensures
        (N as nat) / pow2(layer) == stride(layer),
{
    lemma_layer_shape(layer);
    lemma_pow2_pos(layer);
    lemma_div_multiples_vanish(stride(layer) as int, groups(layer) as int);
}

/// Left index, right index and twiddle of butterfly `b` at `layer`.
pub open spec fn butterfly_spec(table: Seq<u16>, layer: nat, b: nat) -> (usize, usize, u16) {
    let ht = half(layer);
    let i = b / ht;
    let j = i * stride(layer) + b % ht;
    (j as usize, (j + ht) as usize, table[(groups(layer) + i) as int])
}

/// Butterfly `b` of `layer` has `j < j + ht < N` and reads an in-range twiddle entry.
pub proof fn lemma_butterfly_bounds(layer: nat, b: nat)
    requires
        layer < LOG_N,
        b < N / 2,
    ensures
        b / half(layer) < groups(layer),
        (b / half(layer)) * stride(layer) + b % half(layer) + half(layer) < N,
        groups(layer) + b / half(layer) < N,
        ((b / half(layer)) * stride(layer) + b % half(layer)) / stride(layer) == b / half(layer),
        ((b / half(layer)) * stride(layer) + b % half(layer)) % stride(layer) == b % half(layer),
{
    lemma_layer_shape(layer);
    let ht = half(layer);
    let t = stride(layer);
    let m = groups(layer);
    let i = b / ht;
    let r = b % ht;
    lemma_fundamental_div_mod(b as int, ht as int);
    lemma_mod_bound(b as int, ht as int);
    assert(i < m) by (nonlinear_arith)
        requires
            b < m * ht,
            b == ht * i + r,
            0 <= r,
            ht >= 1,
    ;
    assert(i * t + r + ht < N) by (nonlinear_arith)
        requires
            i < m,
            m * t == N,
            t == 2 * ht,
            r < ht,
    ;
    lemma_mul_is_commutative(i as int, t as int);
    lemma_div_multiples_vanish_fancy(i as int, r as int, t as int);
    lemma_mod_multiples_vanish(i as int, r as int, t as int);
    lemma_small_mod(r, t);
}

/// `2^layer` and `N >> layer` as machine integers.
fn layer_params(layer: usize) -> (res: (usize, usize))
    requires
        layer < LOG_N,
    ensures
        res.0 == groups(layer as nat),
        res.1 == stride(layer as nat),
{
    proof {
        lemma2_to64();
        vstd::bits::lemma_usize_pow2_no_overflow(layer as nat);
        vstd::bits::lemma_usize_shl_is_mul(1, layer);
        vstd::bits::lemma_usize_shr_is_div(N, layer);
        lemma_stride_is_div(layer as nat);
    }
    (1usize << layer, N >> layer)
}

/// Row `b ∈ [0, N/2)` at `layer`: left index `j`, right index `j + ht`, twiddle `s`.
pub fn butterfly_j_jht_s(table: &[u16], layer: usize, butterfly_idx: usize) -> (r: (usize, usize, u16))
    requires
        ntt_table_ok(table@),
        layer < LOG_N,
        butterfly_idx < N / 2,
    ensures
        r == butterfly_spec(table@, layer as nat, butterfly_idx as nat),
        r.0 < r.1 < N,
        r.2 < MODULUS,
{
    proof {
        lemma_layer_shape(layer as nat);
        lemma_butterfly_bounds(layer as nat, butterfly_idx as nat);
    }
    let (m, t): (usize, usize) = layer_params(layer);
    let ht: usize = t / 2;
    let i: usize = butterfly_idx / ht;
    let j_local: usize = butterfly_idx % ht;
    proof {
        assert(i * t <= N) by (nonlinear_arith)
            requires
                i < m,
                m * t == N,
        ;
    }
    let j1: usize = i * t;
    let j: usize = j1 + j_local;
    let s: u16 = table[m + i];
    (j, j + ht, s)
}

/// Twiddle of the first butterfly of layer 0.
pub fn layer0_twiddle(table: &[u16]) -> (s: u16)
    requires
        ntt_table_ok(table@),
    ensures
        s == table@[1],
{
    proof {
        lemma_layer_shape(0);
        lemma2_to64();
    }
    let r: (usize, usize, u16) = butterfly_j_jht_s(table, 0, 0);
    r.2
}

/// Output at index `k` of one forward-NTT layer applied to `s`.
pub open spec fn butterfly_out(table: Seq<u16>, s: Seq<u16>, layer: nat, k: int) -> u16 {
    let t = stride(layer) as int;
    let ht = half(layer) as int;
    let tw = table[groups(layer) + k / t] as int;
    if k % t < ht {
        let v = (s[k + ht] * tw) % (MODULUS as int);
        ((s[k] + v) % (MODULUS as int)) as u16
    } else {
        let v = (s[k] * tw) % (MODULUS as int);
        ((s[k - ht] + MODULUS - v) % (MODULUS as int)) as u16
    }
}

/// One forward-NTT layer applied to the coefficient vector `s`.
pub open spec fn ntt_layer_spec(table: Seq<u16>, s: Seq<u16>, layer: nat) -> Seq<u16> {
    Seq::new(N as nat, |k: int| butterfly_out(table, s, layer, k))
}

/// State after layers `0 .. layer` (the input itself when `layer == 0`).
pub open spec fn ntt_state_before(table: Seq<u16>, p: Seq<u16>, layer: nat) -> Seq<u16>
    decreases layer,
{
    if layer == 0 {
        p
    } else {
        ntt_layer_spec(table, ntt_state_before(table, p, (layer - 1) as nat), (layer - 1) as nat)
    }
}

/// The full forward NTT: all `LOG_N` layers.
pub open spec fn ntt_spec(table: Seq<u16>, p: Seq<u16>) -> Seq<u16> {
    ntt_state_before(table, p, LOG_N as nat)
}

/// A layer maps reduced polynomials to reduced polynomials.
pub proof fn lemma_layer_spec_ok(table: Seq<u16>, s: Seq<u16>, layer: nat)
    ensures
        poly_ok(ntt_layer_spec(table, s, layer)),
{
    let out = ntt_layer_spec(table, s, layer);
    assert forall|k: int| 0 <= k < out.len() implies #[trigger] out[k] < MODULUS by {
        let t = stride(layer) as int;
        let ht = half(layer) as int;
        let tw = table[groups(layer) + k / t] as int;
        if k % t < ht {
            let v = (s[k + ht] * tw) % (MODULUS as int);
            lemma_mod_bound(s[k] + v, MODULUS as int);
        } else {
            let v = (s[k] * tw) % (MODULUS as int);
            lemma_mod_bound(s[k - ht] + MODULUS - v, MODULUS as int);
        }
    }
}

/// Coefficient-wise sum of two polynomials mod `q`.
pub open spec fn poly_add_mod(a: Seq<u16>, b: Seq<u16>) -> Seq<u16> {
    Seq::new(N as nat, |k: int| ((a[k] + b[k]) % (MODULUS as int)) as u16)
}

/// The upper butterfly output of a sum mod `q` is the sum mod `q` of the upper outputs.
proof fn lemma_upper_additive(ak: int, bk: int, a2: int, b2: int, tw: int)
    requires
        ak >= 0,
        bk >= 0,
        a2 >= 0,
        b2 >= 0,
    ensures
        ({
            let q = MODULUS as int;
            let ck = (ak + bk) % q;
            let c2 = (a2 + b2) % q;
            (ck + (c2 * tw) % q) % q == ((ak + (a2 * tw) % q) % q + (bk + (b2 * tw) % q) % q) % q
        }),
{
    let q = MODULUS as int;
    let ck = (ak + bk) % q;
    let c2 = (a2 + b2) % q;
    let y = (a2 + b2) * tw;
    lemma_mul_mod_noop_left(a2 + b2, tw, q);
    lemma_add_mod_noop_right(ck, y, q);
    lemma_add_mod_noop_right(y, ak + bk, q);
    lemma_add_mod_noop_right(ak, a2 * tw, q);
    lemma_add_mod_noop_right(bk, b2 * tw, q);
    lemma_add_mod_noop(ak + a2 * tw, bk + b2 * tw, q);
    lemma_mul_is_distributive_add_other_way(tw, a2, b2);
}

/// The lower butterfly output of a sum mod `q` is the sum mod `q` of the lower outputs.
proof fn lemma_lower_additive(a1: int, b1: int, ak: int, bk: int, tw: int)
    requires
        a1 >= 0,
        b1 >= 0,
        ak >= 0,
        bk >= 0,
    ensures
        ({
            let q = MODULUS as int;
            let c1 = (a1 + b1) % q;
            let ck = (ak + bk) % q;
            (c1 + q - (ck * tw) % q) % q
                == ((a1 + q - (ak * tw) % q) % q + (b1 + q - (bk * tw) % q) % q) % q
        }),
{
    let q = MODULUS as int;
    let c1 = (a1 + b1) % q;
    let ck = (ak + bk) % q;
    let y = (ak + bk) * tw;
    lemma_mod_add_multiples_vanish(c1 - (ck * tw) % q, q);
    lemma_mod_add_multiples_vanish(a1 - (ak * tw) % q, q);
    lemma_mod_add_multiples_vanish(b1 - (bk * tw) % q, q);
    lemma_mul_mod_noop_left(ak + bk, tw, q);
    lemma_sub_mod_noop_right(c1, y, q);
    lemma_sub_mod_noop(a1 + b1, y, q);
    lemma_mod_twice(y, q);
    lemma_sub_mod_noop_right(a1, ak * tw, q);
    lemma_sub_mod_noop_right(b1, bk * tw, q);
    lemma_add_mod_noop(a1 - ak * tw, b1 - bk * tw, q);
    lemma_mul_is_distributive_add_other_way(tw, ak, bk);
}

/// Each forward-NTT layer is `Z_q`-linear in the sense of addition: on reduced inputs, the
/// layer of the coefficient-wise sum mod `q` is the coefficient-wise sum mod `q` of the layers.
pub proof fn lemma_ntt_layer_additive(table: Seq<u16>, a: Seq<u16>, b: Seq<u16>, layer: nat)
    requires
        poly_ok(a),
        poly_ok(b),
        layer < LOG_N,
    ensures
        ntt_layer_spec(table, poly_add_mod(a, b), layer)
            == poly_add_mod(ntt_layer_spec(table, a, layer), ntt_layer_spec(table, b, layer)),
{
    let c = poly_add_mod(a, b);
    let la = ntt_layer_spec(table, a, layer);
    let lb = ntt_layer_spec(table, b, layer);
    let lc = ntt_layer_spec(table, c, layer);
    lemma_layer_shape(layer);
    let t = stride(layer) as int;
    let ht = half(layer) as int;
    assert forall|k: int| 0 <= k < N implies #[trigger] lc[k] == poly_add_mod(la, lb)[k] by {
        let tw = table[groups(layer) + k / t] as int;
        lemma_fundamental_div_mod(k, t);
        lemma_mod_bound(k, t);
        lemma_div_pos_is_pos(k, t);
        assert(k / t < groups(layer)) by (nonlinear_arith)
            requires
                0 <= k < N,
                k == t * (k / t) + k % t,
                0 <= k % t,
                groups(layer) * t == N,
                t > 0,
        ;
        assert(t * (k / t) + t <= N) by (nonlinear_arith)
            requires
                k / t < groups(layer),
                groups(layer) * t == N,
                t > 0,
        ;
        if k % t < ht {
            lemma_upper_additive(a[k] as int, b[k] as int, a[k + ht] as int, b[k + ht] as int, tw);
        } else {
            lemma_lower_additive(a[k - ht] as int, b[k - ht] as int, a[k] as int, b[k] as int, tw);
        }
    }
    assert(lc =~= poly_add_mod(la, lb));
}

/// Every intermediate NTT state is a reduced polynomial.
pub proof fn lemma_state_before_ok(table: Seq<u16>, p: Seq<u16>, layer: nat)
    requires
        poly_ok(p),
    ensures
        poly_ok(ntt_state_before(table, p, layer)),
    decreases layer,
{
    if layer > 0 {
        lemma_layer_spec_ok(table, ntt_state_before(table, p, (layer - 1) as nat), (layer - 1) as nat);
    }
}

/// Index `i·t + x` with `0 ≤ x < t` lies in group `i` at position `x`.
pub proof fn lemma_index_in_group(i: int, x: int, t: int)
    requires
        0 <= x < t,
        0 <= i,
    ensures
        (i * t + x) / t == i,
        (i * t + x) % t == x,
{
    lemma_mul_is_commutative(i, t);
    lemma_div_multiples_vanish_fancy(i, x, t);
    lemma_mod_multiples_vanish(i, x, t);
    lemma_small_mod(x as nat, t as nat);
}

/// Apply one forward-NTT layer in place.
pub fn apply_ntt_layer(table: &[u16], state: &mut [u16; N], layer: usize)
    requires
        ntt_table_ok(table@),
        poly_ok(old(state)@),
        layer < LOG_N,
    ensures
        final(state)@ == ntt_layer_spec(table@, old(state)@, layer as nat),
        poly_ok(final(state)@),
{
    let ghost old_s = state@;
    let ghost spec_s = ntt_layer_spec(table@, old_s, layer as nat);
    proof {
        lemma_layer_shape(layer as nat);
        lemma_layer_spec_ok(table@, old_s, layer as nat);
    }
    let (m, t): (usize, usize) = layer_params(layer);
    let ht: usize = t / 2;
    let mut i: usize = 0;
    let mut j1: usize = 0;
    while i < m
        invariant
            ntt_table_ok(table@),
            poly_ok(old_s),
            layer < LOG_N,
            m == groups(layer as nat),
            t == stride(layer as nat),
            ht == half(layer as nat),
            t == 2 * ht,
            m * t == N,
            m <= N / 2,
            ht >= 1,
            i <= m,
            j1 == i * t,
            spec_s == ntt_layer_spec(table@, old_s, layer as nat),
            state@.len() == N,
            forall|k: int| 0 <= k < j1 ==> #[trigger] state@[k] == spec_s[k],
            forall|k: int| j1 <= k < N ==> #[trigger] state@[k] == old_s[k],
        decreases m - i,
    {
        proof {
            assert((i + 1) * t <= N) by (nonlinear_arith)
                requires
                    i < m,
                    m * t == N,
            ;
            assert((i + 1) * t == i * t + t) by (nonlinear_arith);
        }
        let s: u16 = table[m + i];
        let j2: usize = j1 + ht;
        let mut j: usize = j1;
        while j < j2
            invariant
                ntt_table_ok(table@),
                poly_ok(old_s),
                m == groups(layer as nat),
                t == stride(layer as nat),
                ht == half(layer as nat),
                t == 2 * ht,
                i < m,
                j1 == i * t,
                j1 + t <= N,
                j2 == j1 + ht,
                j1 <= j <= j2,
                s == table@[m + i],
                s < MODULUS,
                spec_s == ntt_layer_spec(table@, old_s, layer as nat),
                state@.len() == N,
                forall|k: int| 0 <= k < j1 ==> #[trigger] state@[k] == spec_s[k],
                forall|k: int| j1 <= k < j ==> #[trigger] state@[k] == spec_s[k],
                forall|k: int| j1 + ht <= k < j + ht ==> #[trigger] state@[k] == spec_s[k],
                forall|k: int| j <= k < j1 + ht ==> #[trigger] state@[k] == old_s[k],
                forall|k: int| j + ht <= k < N ==> #[trigger] state@[k] == old_s[k],
            decreases j2 - j,
        {
            proof {
                lemma_index_in_group(i as int, (j - j1) as int, t as int);
                lemma_index_in_group(i as int, (j + ht - j1) as int, t as int);
                assert(state@[j as int] == old_s[j as int]);
                assert(state@[j + ht] == old_s[j + ht]);
                assert(old_s[j as int] < MODULUS);
                assert(old_s[j + ht] < MODULUS);
            }
            let u: u16 = state[j];
            let vin: u16 = state[j + ht];
            proof {
                assert((vin as int) * (s as int) < 12289 * 12289) by (nonlinear_arith)
                    requires
                        vin < 12289,
                        s < 12289,
                ;
            }
            let v: u16 = (vin as u32 * s as u32 % MODULUS as u32) as u16;
            state[j] = (u + v) % MODULUS;
            state[j + ht] = (u + MODULUS - v) % MODULUS;
            proof {
                assert(state@[j as int] == spec_s[j as int]);
                assert(state@[j + ht] == spec_s[j + ht]);
            }
            j = j + 1;
        }
        i = i + 1;
        j1 = j1 + t;
    }
    proof {
        assert(state@ =~= spec_s);
    }
}

/// Coefficient state before applying layer `layer` (the input itself when `layer == 0`).
pub fn state_before_ntt_layer(table: &[u16], poly: &[u16; N], layer: usize) -> (s: [u16; N])
    requires
        ntt_table_ok(table@),
        poly_ok(poly@),
        layer <= LOG_N,
    ensures
        s@ == ntt_state_before(table@, poly@, layer as nat),
        poly_ok(s@),
{
    let mut s: [u16; N] = *poly;
    let mut l: usize = 0;
    while l < layer
        invariant
            ntt_table_ok(table@),
            poly_ok(poly@),
            l <= layer <= LOG_N,
            s@ == ntt_state_before(table@, poly@, l as nat),
            poly_ok(s@),
        decreases layer - l,
    {
        apply_ntt_layer(table, &mut s, l);
        l = l + 1;
    }
    s
}

/// State after layers `0 ..= layer` (the full NTT when `layer == LOG_N - 1`).
pub fn state_through_ntt_layer(table: &[u16], poly: &[u16; N], layer: usize) -> (s: [u16; N])
    requires
        ntt_table_ok(table@),
        poly_ok(poly@),
        layer < LOG_N,
    ensures
        s@ == ntt_state_before(table@, poly@, layer as nat + 1),
        poly_ok(s@),
{
    let mut s: [u16; N] = state_before_ntt_layer(table, poly, layer);
    apply_ntt_layer(table, &mut s, layer);
    s
}

/// AIR proving one NTT layer; its preprocessed trace is the twiddle column of that layer.
pub struct FalconNttLayerAir {
    pub preprocessed: TraceMatrix,
}

impl FalconNttLayerAir {
    /// AIR over a twiddle column of height `N / 2`.
    pub fn new(preprocessed: TraceMatrix) -> (air: Self)
        requires
            preprocessed.wf(),
            preprocessed.width == NUM_PREPROCESSED_COLS,
            preprocessed.rows() == N / 2,
        ensures
            air.preprocessed == preprocessed,
    {
        FalconNttLayerAir { preprocessed }
    }

    /// Layer 0 only: every row carries the same twiddle `table[1]`.
    pub fn new_for_layer0(table: &[u16]) -> (air: Self)
        requires
            ntt_table_ok(table@),
        ensures
            air.preprocessed.width == NUM_PREPROCESSED_COLS,
            air.preprocessed.values@ == twiddle_column(table@, 0),
    {
        Self::new(Self::preprocessed_for_layer(table, 0))
    }

    /// Twiddle column for `layer`: row `b` holds the twiddle of butterfly `b`.
    pub fn preprocessed_for_layer(table: &[u16], layer: usize) -> (m: TraceMatrix)
        requires
            ntt_table_ok(table@),
            layer < LOG_N,
        ensures
            m.wf(),
            m.width == NUM_PREPROCESSED_COLS,
            m.rows() == N / 2,
            m.values@ == twiddle_column(table@, layer as nat),
            m.all_canonical(),
    {
        let mut v: Vec<u32> = Vec::with_capacity(N / 2);
        let mut b: usize = 0;
        while b < N / 2
            invariant
                ntt_table_ok(table@),
                layer < LOG_N,
                b <= N / 2,
                v@ =~= twiddle_column(table@, layer as nat).take(b as int),
            decreases N / 2 - b,
        {
            let r: (usize, usize, u16) = butterfly_j_jht_s(table, layer, b);
            v.push(r.2 as u32);
            b = b + 1;
        }
        proof {
            assert(v@ =~= twiddle_column(table@, layer as nat));
            assert forall|i: int| 0 <= i < v@.len() implies crate::field::canonical(#[trigger] v@[i]) by {
                lemma_butterfly_bounds(layer as nat, i as nat);
            }
        }
        TraceMatrix::new(v, NUM_PREPROCESSED_COLS)
    }

    /// Height of a layer trace: one row per butterfly.
    pub fn expected_height() -> (h: usize)
        ensures
            h == N / 2,
    {
        N / 2
    }

    /// A layer main trace must have exactly one row per butterfly.
    pub fn assert_valid_main_height(main: &TraceMatrix)
        requires
            main.wf(),
            main.rows() == N / 2,
    {
    }
}

/// Twiddle column of `layer`: entry `b` is the twiddle of butterfly `b`.
pub open spec fn twiddle_column(table: Seq<u16>, layer: nat) -> Seq<u32> {
    Seq::new((N / 2) as nat, |b: int| butterfly_spec(table, layer, b as nat).2 as u32)
}

/// Value of the 14-bit cell group `g` of a row.
pub open spec fn group_value(main: Seq<u32>, g: int) -> int {
    cells_value(main.subrange(14 * g, 14 * g + 14))
}

/// The constraints the layer AIR's `eval` places on one row (`prep = [twiddle]`).
///
/// All 84 limb cells and `q0`, `q1` are bits, and in the field
/// `v_in · s = v_mul + quot_vs · q`, `u + v_mul = out0 + q0 · q`,
/// `u − v_mul + q = out1 + q1 · q`.
pub open spec fn ntt_layer_row_holds(prep: Seq<u32>, main: Seq<u32>) -> bool {
    let q = MODULUS as int;
    let s = prep[0] as int;
    let u = group_value(main, 0);
    let v_in = group_value(main, 1);
    let v_mul = group_value(main, 2);
    let quot_vs = group_value(main, 3);
    let out0 = group_value(main, 4);
    let out1 = group_value(main, 5);
    &&& prep.len() == NUM_PREPROCESSED_COLS
    &&& main.len() == NUM_MAIN_COLS
    &&& cells_bool(main.subrange(0, 84))
    &&& is_bit(main[84])
    &&& is_bit(main[85])
    &&& feq(v_in * s, v_mul + quot_vs * q)
    &&& feq(u + v_mul, out0 + main[84] * q)
    &&& feq(u - v_mul + q, out1 + main[85] * q)
}

/// Bit groups of a row whose limb cells are all bits are 14-bit values.
pub proof fn lemma_groups_bounded(main: Seq<u32>, ngroups: int)
    requires
        0 <= ngroups,
        main.len() >= 14 * ngroups,
        cells_bool(main.subrange(0, 14 * ngroups)),
    ensures
        forall|g: int| 0 <= g < ngroups ==> 0 <= #[trigger] group_value(main, g) < 16384,
{
    assert forall|g: int| 0 <= g < ngroups implies 0 <= #[trigger] group_value(main, g) < 16384 by {
        let sub = main.subrange(14 * g, 14 * g + 14);
        assert(cells_bool(sub)) by {
            assert forall|i: int| 0 <= i < sub.len() implies is_bit(#[trigger] sub[i]) by {
                assert(sub[i] == main.subrange(0, 14 * ngroups)[14 * g + i]);
            }
        }
        lemma_cells_value_bound(sub);
        vstd::arithmetic::power2::lemma2_to64();
    }
}

/// A satisfied layer row with a reduced twiddle proves the butterfly mod `q`:
/// `out0 ≡ u + v_in · s` and `out1 ≡ u − v_in · s`, with the exact integer identities behind them.
pub proof fn lemma_ntt_layer_row_sound(prep: Seq<u32>, main: Seq<u32>)
    requires
        ntt_layer_row_holds(prep, main),
        prep[0] < MODULUS,
    ensures
        group_value(main, 1) * (prep[0] as int) == group_value(main, 2) + group_value(main, 3) * (MODULUS as int),
        group_value(main, 0) + group_value(main, 2) == group_value(main, 4) + main[84] * (MODULUS as int),
        group_value(main, 0) - group_value(main, 2) + MODULUS == group_value(main, 5) + main[85] * (MODULUS as int),
        group_value(main, 4) % (MODULUS as int) == (group_value(main, 0) + group_value(main, 1) * (prep[0] as int)) % (MODULUS as int),
        group_value(main, 5) % (MODULUS as int) == (group_value(main, 0) - group_value(main, 1) * (prep[0] as int)) % (MODULUS as int),
{
    let q = MODULUS as int;
    let s = prep[0] as int;
    lemma_groups_bounded(main, 6);
    let u = group_value(main, 0);
    let v_in = group_value(main, 1);
    let v_mul = group_value(main, 2);
    let quot_vs = group_value(main, 3);
    let out0 = group_value(main, 4);
    let out1 = group_value(main, 5);
    assert(0 <= v_in * s <= 16383 * 12288) by (nonlinear_arith)
        requires
            0 <= v_in < 16384,
            0 <= s < 12289,
    ;
    assert(0 <= quot_vs * q <= 16383 * 12289) by (nonlinear_arith)
        requires
            0 <= quot_vs < 16384,
            q == 12289,
    ;
    lemma_feq_small(v_in * s, v_mul + quot_vs * q);
    lemma_feq_small(u + v_mul, out0 + main[84] * q);
    lemma_feq_small(u - v_mul + q, out1 + main[85] * q);
    let k0 = quot_vs + main[84];
    assert(out0 == (u + v_in * s) + (-k0) * q) by (nonlinear_arith)
        requires
            v_in * s == v_mul + quot_vs * q,
            u + v_mul == out0 + main[84] * q,
            k0 == quot_vs + main[84],
    ;
    vstd::arithmetic::div_mod::lemma_mod_multiples_vanish(-k0, u + v_in * s, q);
    vstd::arithmetic::mul::lemma_mul_is_commutative(-k0, q);
    let k1 = quot_vs + 1 - main[85];
    assert(out1 == (u - v_in * s) + k1 * q) by (nonlinear_arith)
        requires
            v_in * s == v_mul + quot_vs * q,
            u - v_mul + q == out1 + main[85] * q,
            k1 == quot_vs + 1 - main[85],
    ;
    vstd::arithmetic::div_mod::lemma_mod_multiples_vanish(k1, u - v_in * s, q);
    vstd::arithmetic::mul::lemma_mul_is_commutative(k1, q);
}

/// The main row the witness builder writes for butterfly inputs `u`, `v_in` and twiddle `s`.
pub open spec fn ntt_layer_witness_row(u: nat, v_in: nat, s: nat) -> Seq<u32> {
    let q = MODULUS as int;
    let prod = (v_in * s) as int;
    let v_mul = prod % q;
    let quot_vs = prod / q;
    let out0 = (u + v_mul) % q;
    let out1 = (u + q - v_mul) % q;
    le_cells(u, 14) + le_cells(v_in, 14) + le_cells(v_mul as nat, 14) + le_cells(quot_vs as nat, 14)
        + le_cells(out0 as nat, 14) + le_cells(out1 as nat, 14)
        + seq![((u + v_mul) / q) as u32, ((u + q - v_mul) / q) as u32]
}

/// Group `g` of a witness row is the `g`-th listed value.
pub proof fn lemma_witness_row_groups(u: nat, v_in: nat, s: nat)
    requires
        u < MODULUS,
        v_in < MODULUS,
        s < MODULUS,
    ensures
        ({
            let q = MODULUS as int;
            let row = ntt_layer_witness_row(u, v_in, s);
            let v_mul = ((v_in * s) as int) % q;
            &&& row.len() == NUM_MAIN_COLS
            &&& cells_bool(row.subrange(0, 84))
            &&& group_value(row, 0) == u
            &&& group_value(row, 1) == v_in
            &&& group_value(row, 2) == v_mul
            &&& group_value(row, 3) == ((v_in * s) as int) / q
            &&& group_value(row, 4) == (u + v_mul) % q
            &&& group_value(row, 5) == (u + q - v_mul) % q
            &&& row[84] as int == (u + v_mul) / q
            &&& row[85] as int == (u + q - v_mul) / q
        }),
{
    let q = MODULUS as int;
    let prod = (v_in * s) as int;
    let v_mul = prod % q;
    let quot_vs = prod / q;
    let out0 = (u + v_mul) % q;
    let out1 = (u + q - v_mul) % q;
    vstd::arithmetic::power2::lemma2_to64();
    assert(0 <= prod < 12289 * 12289) by (nonlinear_arith)
        requires
            v_in < 12289,
            s < 12289,
            prod == v_in * s,
    ;
    vstd::arithmetic::div_mod::lemma_mod_bound(prod as int, q as int);
    vstd::arithmetic::div_mod::lemma_div_is_ordered(prod, 12289int * 12289int, q);
    vstd::arithmetic::div_mod::lemma_mod_bound((u + v_mul) as int, q as int);
    vstd::arithmetic::div_mod::lemma_mod_bound((u + q - v_mul) as int, q as int);
    let row = ntt_layer_witness_row(u, v_in, s);
    lemma_le_cells_exact(u, 14);
    lemma_le_cells_exact(v_in, 14);
    lemma_le_cells_exact(v_mul as nat, 14);
    lemma_le_cells_exact(quot_vs as nat, 14);
    lemma_le_cells_exact(out0 as nat, 14);
    lemma_le_cells_exact(out1 as nat, 14);
    assert(row.subrange(0, 14) =~= le_cells(u, 14));
    assert(row.subrange(14, 28) =~= le_cells(v_in, 14));
    assert(row.subrange(28, 42) =~= le_cells(v_mul as nat, 14));
    assert(row.subrange(42, 56) =~= le_cells(quot_vs as nat, 14));
    assert(row.subrange(56, 70) =~= le_cells(out0 as nat, 14));
    assert(row.subrange(70, 84) =~= le_cells(out1 as nat, 14));
    assert forall|i: int| 0 <= i < 84 implies is_bit(#[trigger] row.subrange(0, 84)[i]) by {
        let g = i / 14;
        assert(row.subrange(0, 84)[i] == row.subrange(14 * g, 14 * g + 14)[i - 14 * g]);
    }
}

/// Completeness: a witness row for reduced inputs satisfies the layer constraints, and its
/// outputs are the two butterfly results.
pub proof fn lemma_ntt_layer_witness_row_holds(u: nat, v_in: nat, s: nat)
    requires
        u < MODULUS,
        v_in < MODULUS,
        s < MODULUS,
    ensures
        ntt_layer_row_holds(seq![s as u32], ntt_layer_witness_row(u, v_in, s)),
        group_value(ntt_layer_witness_row(u, v_in, s), 4) == (u + ((v_in * s) as int) % (MODULUS as int)) % (MODULUS as int),
        group_value(ntt_layer_witness_row(u, v_in, s), 5) == (u + MODULUS - ((v_in * s) as int) % (MODULUS as int)) % (MODULUS as int),
{
    lemma_witness_row_groups(u, v_in, s);
    let q = MODULUS as int;
    let prod = (v_in * s) as int;
    let v_mul = prod % q;
    vstd::arithmetic::div_mod::lemma_fundamental_div_mod(prod as int, q as int);
    vstd::arithmetic::div_mod::lemma_fundamental_div_mod((u + v_mul) as int, q as int);
    vstd::arithmetic::div_mod::lemma_fundamental_div_mod((u + q - v_mul) as int, q as int);
    vstd::arithmetic::mul::lemma_mul_is_commutative((prod / q) as int, q as int);
    vstd::arithmetic::mul::lemma_mul_is_commutative(((u + v_mul) / q) as int, q as int);
    vstd::arithmetic::mul::lemma_mul_is_commutative(((u + q - v_mul) / q) as int, q as int);
    vstd::arithmetic::div_mod::lemma_mod_bound(prod as int, q as int);
    let row = ntt_layer_witness_row(u, v_in, s);
    assert((u + v_mul) / q <= 1) by {
        vstd::arithmetic::div_mod::lemma_div_is_ordered((u + v_mul) as int, 2 * q - 1, q as int);
    }
    assert((u + q - v_mul) / q <= 1) by {
        vstd::arithmetic::div_mod::lemma_div_is_ordered((u + q - v_mul) as int, 2 * q - 1, q as int);
    }
}


/// The two outputs of butterfly `b` of `layer` in the layer spec: `u + v·s` and `u − v·s`
/// (mod `q`), with `u`, `v` the state at its indices and `s` its twiddle.
pub proof fn lemma_butterfly_outputs(table: Seq<u16>, st: Seq<u16>, layer: nat, b: nat)
    requires
        ntt_table_ok(table),
        poly_ok(st),
        layer < LOG_N,
        b < N / 2,
    ensures
        ({
            let (j, j2, s) = butterfly_spec(table, layer, b);
            let q = MODULUS as int;
            &&& butterfly_out(table, st, layer, j as int) as int == (st[j as int] + st[j2 as int] * (s as int)) % q
            &&& butterfly_out(table, st, layer, j2 as int) as int == (st[j as int] - st[j2 as int] * (s as int)) % q
        }),
{
    let (j, j2, s) = butterfly_spec(table, layer, b);
    let q = MODULUS as int;
    lemma_butterfly_bounds(layer, b);
    lemma_layer_shape(layer);
    let t = stride(layer) as int;
    let ht = half(layer) as int;
    let i = (b / half(layer)) as int;
    lemma_index_in_group(i, (b % half(layer)) as int, t);
    lemma_index_in_group(i, (b % half(layer)) as int + ht, t);
    let u = st[j as int] as int;
    let v = st[j2 as int] as int;
    let w = v * (s as int);
    vstd::arithmetic::div_mod::lemma_add_mod_noop_right(u, w, q);
    vstd::arithmetic::div_mod::lemma_mod_bound(w, q);
    vstd::arithmetic::div_mod::lemma_sub_mod_noop_right(u, w, q);
    vstd::arithmetic::div_mod::lemma_mod_add_multiples_vanish(u - w % q, q);
    vstd::arithmetic::div_mod::lemma_mod_bound(u + q - w % q, q);
}

} // verus!
