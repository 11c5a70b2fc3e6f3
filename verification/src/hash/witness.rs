//! Witness of the hash-to-point AIR: one row per 16-bit squeeze sample until `N` coefficients
//! have been accepted, then padding rows up to a power-of-two height.
use vstd::prelude::*;
use crate::params::{N, MODULUS, is_pow2, next_power_of_two};
use crate::bits::{le_cells, lemma_le_cells_exact, is_bit};
use crate::field::{feq, canonical, lemma_feq_small};
use crate::trace::{TraceMatrix, concat_rows, uniform_width, lemma_concat_rows_take, lemma_concat_rows_index, lemma_matrix_cells};
use crate::witness::push_bits_le;
use crate::air::hash_to_point::{
    FalconHashToPointAir, hash_real_row_holds, hash_last_row_holds, hash_trace_holds,
    hash_first_row_holds, hash_transition_holds, lemma_hash_row_sound, HASH_MSG_MAX_BYTES,
    NUM_HASH_MAIN_COLS, NUM_HASH_PUBLIC_VALUES, HASH_SAMPLE_THRESHOLD, COL_EMIT_CTR,
    COL_SLACK_START, COL_QUOT_START, COL_EMIT_BITS_START, COL_B0_BITS_START, COL_B1_BITS_START,
    COL_COEFF_BITS_START, COL_COEFF_SLACK_START, COL_IS_REAL, COL_ACCEPT, COL_RAW, COL_B0, COL_B1,
    COL_COEFF, COL_HM_REF, seg,
};
use crate::hash::shake::{
    HashToPointResult, hash_to_point, sample, accepted_values, squeeze_suffices,
    hash_to_point_coeffs, lemma_accepted_prefix, SHAKE_SQUEEZE_LEN,
};
use vstd::arithmetic::power2::{pow2, lemma2_to64};

verus! {

/// Main row of sample `raw = 256 · b0 + b1` with `emit` coefficients accepted before it and
/// `hm_val` the expected coefficient at that position. The slack is `61444 − raw` on an
/// accepted row and `raw − 61445` on a rejected one.
pub open spec fn hash_witness_row(b0: nat, b1: nat, emit: nat, hm_val: nat) -> Seq<u32> {
    let q = MODULUS as nat;
    let raw = b0 * 256 + b1;
    let accept = raw < HASH_SAMPLE_THRESHOLD;
    let coeff: nat = if accept { raw % q } else { 0 };
    seq![
        raw as u32,
        b0 as u32,
        b1 as u32,
        if accept { 1u32 } else { 0u32 },
        coeff as u32,
        if accept { hm_val as u32 } else { 0u32 },
        emit as u32,
    ] + le_cells(if accept { (61444 - raw) as nat } else { (raw - 61445) as nat }, 16)
        + le_cells(if accept { raw / q } else { 0 }, 3) + le_cells(emit, 10)
        + le_cells(b0, 8) + le_cells(b1, 8)
        + le_cells(coeff, 14) + le_cells(if accept { (q - 1 - coeff) as nat } else { 0 }, 14)
        + seq![1u32]
}

/// Padding row: all zero but `emit_ctr = N`.
pub open spec fn hash_pad_row() -> Seq<u32> {
    Seq::new(NUM_HASH_MAIN_COLS as nat, |c: int| if c == COL_EMIT_CTR { N as u32 } else { 0u32 })
}

/// Number of samples read until `N` coefficients are accepted, scanning from sample `k`.
pub open spec fn rows_needed(s: Seq<u8>, k: nat) -> nat
    decreases (s.len() as int) / 2 - k,
{
    if k >= (s.len() as int) / 2 || accepted_values(s, k as int).len() >= N {
        k
    } else {
        rows_needed(s, k + 1)
    }
}

/// Row `i` of the sample section for stream `s` and expected coefficients `hm`.
pub open spec fn hash_sample_row(s: Seq<u8>, hm: Seq<u16>, i: int) -> Seq<u32> {
    let emit = accepted_values(s, i).len();
    hash_witness_row(s[2 * i] as nat, s[2 * i + 1] as nat, emit, hm[emit as int] as nat)
}

/// The main trace rows for stream `s`: sample rows, then padding up to height `h`.
pub open spec fn hash_main_rows(s: Seq<u8>, hm: Seq<u16>, h: nat) -> Seq<Seq<u32>> {
    Seq::new(h, |r: int| if r < rows_needed(s, 0) { hash_sample_row(s, hm, r) } else { hash_pad_row() })
}

/// Height of the main trace with `k` sample rows: the least power of two `> k` and `≥ 8`, so
/// that at least one padding row follows the samples.
pub open spec fn hash_height_ok(h: nat, k: nat) -> bool {
    &&& is_pow2(h)
    &&& h > k
    &&& h >= 8
    &&& (h == 8 || h / 2 <= k)
}

/// A height for at most `k ≤ 1536` sample rows is at most 2048.
pub proof fn lemma_hash_height_bound(h: nat, k: nat)
    requires
        hash_height_ok(h, k),
        k <= SHAKE_SQUEEZE_LEN / 2,
    ensures
        h <= 2048,
{
    if h != 8 {
        let j = choose|j: nat| h == pow2(j);
        lemma2_to64();
        if j > 11 {
            vstd::arithmetic::power2::lemma_pow2_strictly_increases(11, (j - 1) as nat);
            vstd::arithmetic::power2::lemma_pow2_adds((j - 1) as nat, 1);
        }
    }
}

/// Scanning from a sample that has not completed `hm` continues to the next one.
pub proof fn lemma_rows_needed_step(s: Seq<u8>, k: nat)
    requires
        squeeze_suffices(s),
        accepted_values(s, k as int).len() < N,
    ensures
        k < (s.len() as int) / 2,
        rows_needed(s, k) == rows_needed(s, k + 1),
{
    if k >= (s.len() as int) / 2 {
        lemma_accepted_prefix(s, (s.len() as int) / 2, k as int);
    }
}

/// Append `NUM_HASH_MAIN_COLS` cells of one sample row.
fn push_sample_row(vals: &mut Vec<u32>, b0: u8, b1: u8, emit: u32, hm_val: u16)
    requires
        emit < N,
    ensures
        final(vals)@ == old(vals)@ + hash_witness_row(b0 as nat, b1 as nat, emit as nat, hm_val as nat),
{
    let q: u32 = MODULUS as u32;
    let raw: u32 = (b0 as u32) * 256 + (b1 as u32);
    let accept: bool = raw < HASH_SAMPLE_THRESHOLD;
    let coeff: u32 = if accept { raw % q } else { 0 };
    let quot: u32 = if accept { raw / q } else { 0 };
    let slack: u32 = if accept { 61444 - raw } else { raw - 61445 };
    let hm_ref: u32 = if accept { hm_val as u32 } else { 0 };
    let cslack: u32 = if accept { q - 1 - coeff } else { 0 };
    proof {
        if accept {
            vstd::arithmetic::div_mod::lemma_mod_bound(raw as int, q as int);
        }
    }
    let ghost start = vals@;
    vals.push(raw);
    vals.push(b0 as u32);
    vals.push(b1 as u32);
    vals.push(if accept { 1u32 } else { 0u32 });
    vals.push(coeff);
    vals.push(hm_ref);
    vals.push(emit);
    let ghost head = vals@;
    push_bits_le(vals, slack, 16);
    push_bits_le(vals, quot, 3);
    push_bits_le(vals, emit, 10);
    push_bits_le(vals, b0 as u32, 8);
    push_bits_le(vals, b1 as u32, 8);
    push_bits_le(vals, coeff, 14);
    push_bits_le(vals, cslack, 14);
    vals.push(1u32);
    proof {
        let row = hash_witness_row(b0 as nat, b1 as nat, emit as nat, hm_val as nat);
        assert(head =~= start + row.subrange(0, 7));
        assert(vals@ =~= start + row);
    }
}

/// Main trace of the hash-to-point AIR for `result`: one row per sample of the squeeze until
/// `N` coefficients are accepted (each accepted row carries `hm` at its position), then
/// padding rows up to the least power of two above the sample rows and at least 8; at most
/// 2048 rows for a squeeze of `SHAKE_SQUEEZE_LEN` bytes.
pub fn build_hash_to_point_main(result: &HashToPointResult) -> (m: TraceMatrix)
    requires
        squeeze_suffices(result.squeeze@),
        result.squeeze@.len() < 0x8000_0000,
    ensures
        m.wf(),
        m.width == NUM_HASH_MAIN_COLS,
        hash_height_ok(m.rows(), rows_needed(result.squeeze@, 0)),
        result.squeeze@.len() <= SHAKE_SQUEEZE_LEN ==> m.rows() <= 2048,
        m.values@ == concat_rows(hash_main_rows(result.squeeze@, result.hm@, m.rows())),
{
    let ghost s = result.squeeze@;
    let ghost hm = result.hm@;
    let mut vals: Vec<u32> = Vec::new();
    let mut ctr: usize = 0;
    let mut nrows: usize = 0;
    let mut emit: u32 = 0;
    proof {
        lemma_accepted_prefix(s, 0, (s.len() as int) / 2);
    }
    while emit < N as u32
        invariant
            s == result.squeeze@,
            hm == result.hm@,
            squeeze_suffices(s),
            s.len() < 0x8000_0000,
            ctr == 2 * nrows,
            emit == accepted_values(s, nrows as int).len(),
            emit <= N,
            emit < N ==> rows_needed(s, 0) == rows_needed(s, nrows as nat),
            emit == N ==> rows_needed(s, 0) == nrows,
            nrows <= (s.len() as int) / 2,
            vals@ == concat_rows(Seq::new(nrows as nat, |r: int| hash_sample_row(s, hm, r))),
        decreases (s.len() as int) / 2 - nrows,
    {
        proof {
            lemma_rows_needed_step(s, nrows as nat);
        }
        let b0: u8 = result.squeeze[ctr];
        let b1: u8 = result.squeeze[ctr + 1];
        let hm_val: u16 = result.hm[emit as usize];
        let ghost before = vals@;
        push_sample_row(&mut vals, b0, b1, emit, hm_val);
        proof {
            let rows1 = Seq::new((nrows + 1) as nat, |r: int| hash_sample_row(s, hm, r));
            assert(rows1.take(nrows as int) =~= Seq::new(nrows as nat, |r: int| hash_sample_row(s, hm, r)));
            lemma_concat_rows_take(rows1, nrows as int);
            assert(rows1.take(nrows as int + 1) =~= rows1);
            assert(sample(s, nrows as int) == b0 * 256 + b1);
        }
        let raw: u32 = (b0 as u32) * 256 + (b1 as u32);
        if raw < HASH_SAMPLE_THRESHOLD {
            emit = emit + 1;
        }
        ctr = ctr + 2;
        nrows = nrows + 1;
        proof {
            if emit == N {
                assert(rows_needed(s, nrows as nat) == nrows);
            }
        }
    }
    let k: usize = nrows;
    let p2: usize = next_power_of_two(k + 1);
    let h: usize = if p2 < 8 { 8 } else { p2 };
    let ghost rows = hash_main_rows(s, hm, h as nat);
    proof {
        assert(Seq::new(nrows as nat, |r: int| hash_sample_row(s, hm, r)) =~= rows.take(k as int));
        if p2 < 8 {
            vstd::arithmetic::power2::lemma2_to64();
            assert(8 == pow2(3));
        }
        assert(hash_height_ok(h as nat, k as nat));
        if s.len() <= SHAKE_SQUEEZE_LEN {
            lemma_hash_height_bound(h as nat, k as nat);
        }
    }
    let mut r: usize = k;
    while r < h
        invariant
            k <= r <= h,
            k == rows_needed(s, 0),
            rows == hash_main_rows(s, hm, h as nat),
            vals@ == concat_rows(rows.take(r as int)),
        decreases h - r,
    {
        let ghost before = vals@;
        let mut c: usize = 0;
        while c < NUM_HASH_MAIN_COLS
            invariant
                c <= NUM_HASH_MAIN_COLS,
                vals@ =~= before + hash_pad_row().take(c as int),
            decreases NUM_HASH_MAIN_COLS - c,
        {
            if c == COL_EMIT_CTR {
                vals.push(N as u32);
            } else {
                vals.push(0u32);
            }
            c = c + 1;
        }
        proof {
            assert(hash_pad_row().take(NUM_HASH_MAIN_COLS as int) =~= hash_pad_row());
            assert(rows[r as int] == hash_pad_row());
            lemma_concat_rows_take(rows, r as int);
        }
        r = r + 1;
    }
    proof {
        assert(rows.take(h as int) =~= rows);
        assert(uniform_width(rows, NUM_HASH_MAIN_COLS as nat)) by {
            assert forall|i: int| 0 <= i < rows.len() implies (#[trigger] rows[i]).len() == NUM_HASH_MAIN_COLS by {
                if i < k {
                    lemma_sample_row_len(s, hm, i);
                }
            }
        }
        lemma_concat_rows_index(rows, NUM_HASH_MAIN_COLS as nat);
        vstd::arithmetic::div_mod::lemma_mod_multiples_basic(h as int, NUM_HASH_MAIN_COLS as int);
    }
    let m: TraceMatrix = TraceMatrix::new(vals, NUM_HASH_MAIN_COLS);
    proof {
        lemma_matrix_cells(m, rows);
    }
    m
}

/// The sample rows of the main trace carry the squeeze stream: row `r` below the sample count,
/// accepted or rejected, is real and holds `b0 = s[2r]`, `b1 = s[2r + 1]` and
/// `raw = 256 · s[2r] + s[2r + 1]`; every row from the sample count on is padding.
pub proof fn lemma_hash_main_rows_carry_squeeze(s: Seq<u8>, hm: Seq<u16>, h: nat)
    requires
        squeeze_suffices(s),
    ensures
        forall|r: int| 0 <= r < h && r < rows_needed(s, 0) ==> #[trigger] hash_row_carries(hash_main_rows(s, hm, h)[r], s, r),
        forall|r: int| rows_needed(s, 0) <= r < h ==> (#[trigger] hash_main_rows(s, hm, h)[r])[COL_IS_REAL as int] == 0,
{
    assert forall|r: int| 0 <= r < h && r < rows_needed(s, 0) implies #[trigger] hash_row_carries(hash_main_rows(s, hm, h)[r], s, r) by {
        lemma_rows_needed_below(s, 0, r);
        lemma_sample_row_len(s, hm, r);
        let row = hash_main_rows(s, hm, h)[r];
        assert(row == hash_sample_row(s, hm, r));
    }
    assert forall|r: int| rows_needed(s, 0) <= r < h implies (#[trigger] hash_main_rows(s, hm, h)[r])[COL_IS_REAL as int] == 0 by {
        assert(hash_main_rows(s, hm, h)[r] == hash_pad_row());
    }
}

/// Row `row` is a real row holding sample `r` of the stream `s`: `b0 = s[2r]`,
/// `b1 = s[2r + 1]`, `raw = 256 · s[2r] + s[2r + 1]`.
pub open spec fn hash_row_carries(row: Seq<u32>, s: Seq<u8>, r: int) -> bool {
    &&& 2 * r + 1 < s.len()
    &&& row[COL_B0 as int] == s[2 * r] as u32
    &&& row[COL_B1 as int] == s[2 * r + 1] as u32
    &&& row[COL_RAW as int] == s[2 * r] * 256 + s[2 * r + 1]
    &&& row[COL_IS_REAL as int] == 1
}

/// Every sample row has the trace width.
pub proof fn lemma_sample_row_len(s: Seq<u8>, hm: Seq<u16>, i: int)
    ensures
        hash_sample_row(s, hm, i).len() == NUM_HASH_MAIN_COLS,
{
}


/// Samples before the end of the sample section have not yet completed `hm`.
pub proof fn lemma_rows_needed_below(s: Seq<u8>, k: nat, r: int)
    requires
        k <= r < rows_needed(s, k),
    ensures
        accepted_values(s, r).len() < N,
        r < (s.len() as int) / 2,
    decreases (s.len() as int) / 2 - k,
{
    if !(k >= (s.len() as int) / 2 || accepted_values(s, k as int).len() >= N) && r > k {
        lemma_rows_needed_below(s, k + 1, r);
    }
}

/// Public values of the hash-to-point AIR for coefficients `hm`: the first `N`, as cells.
pub open spec fn hash_public_values(hm: Seq<u16>) -> Seq<u32> {
    Seq::new(N as nat, |i: int| hm[i] as u32)
}

/// Completeness of the sample section: for the coefficients `hm` that the stream itself
/// yields, published as the public values, every sample row satisfies the real-row
/// constraints.
pub proof fn lemma_hash_sample_rows_hold(s: Seq<u8>, r: int)
    requires
        squeeze_suffices(s),
        0 <= r < rows_needed(s, 0),
    ensures
        hash_real_row_holds(hash_sample_row(s, hash_to_point_coeffs(s), r),
            hash_public_values(hash_to_point_coeffs(s))),
{
    let q = MODULUS as int;
    let hm = hash_to_point_coeffs(s);
    let pv = hash_public_values(hm);
    lemma_rows_needed_below(s, 0, r);
    let emit = accepted_values(s, r).len();
    let b0 = s[2 * r] as nat;
    let b1 = s[2 * r + 1] as nat;
    let raw = b0 * 256 + b1;
    assert(raw == sample(s, r));
    let row = hash_sample_row(s, hm, r);
    let accept = raw < HASH_SAMPLE_THRESHOLD;
    let coeff: nat = if accept { raw % (q as nat) } else { 0 };
    let slack: nat = if accept { (61444 - raw) as nat } else { (raw - 61445) as nat };
    let quot: nat = if accept { raw / (q as nat) } else { 0 };
    let cslack: nat = if accept { (q - 1 - coeff) as nat } else { 0 };
    lemma2_to64();
    if accept {
        vstd::arithmetic::div_mod::lemma_fundamental_div_mod(raw as int, q);
        vstd::arithmetic::div_mod::lemma_mod_bound(raw as int, q);
    }
    assert(quot < 8);
    lemma_le_cells_exact(slack, 16);
    lemma_le_cells_exact(quot, 3);
    lemma_le_cells_exact(emit, 10);
    lemma_le_cells_exact(b0, 8);
    lemma_le_cells_exact(b1, 8);
    lemma_le_cells_exact(coeff, 14);
    lemma_le_cells_exact(cslack, 14);
    assert(seg(row, COL_SLACK_START, COL_QUOT_START) =~= le_cells(slack, 16));
    assert(seg(row, COL_QUOT_START, COL_EMIT_BITS_START) =~= le_cells(quot, 3));
    assert(seg(row, COL_EMIT_BITS_START, COL_B0_BITS_START) =~= le_cells(emit, 10));
    assert(seg(row, COL_B0_BITS_START, COL_B1_BITS_START) =~= le_cells(b0, 8));
    assert(seg(row, COL_B1_BITS_START, COL_COEFF_BITS_START) =~= le_cells(b1, 8));
    assert(seg(row, COL_COEFF_BITS_START, COL_COEFF_SLACK_START) =~= le_cells(coeff, 14));
    assert(seg(row, COL_COEFF_SLACK_START, COL_IS_REAL) =~= le_cells(cslack, 14));
    if accept {
        lemma_accepted_prefix(s, r + 1, (s.len() as int) / 2);
        lemma_accepted_prefix(s, 0, (s.len() as int) / 2);
        assert(accepted_values(s, r + 1) == accepted_values(s, r).push((raw as int % q) as u16));
        assert(accepted_values(s, r + 1)[emit as int] == accepted_values(s, (s.len() as int) / 2)[emit as int]);
        assert(hm[emit as int] == (raw as int % q) as u16);
        assert(pv[emit as int] == hm[emit as int] as u32);
    }
}

/// The built trace's last row is a padding row, which meets the last-row constraint
/// `emit_ctr = N`.
pub proof fn lemma_hash_last_row_holds(s: Seq<u8>, hm: Seq<u16>, h: nat)
    requires
        hash_height_ok(h, rows_needed(s, 0)),
    ensures
        hash_last_row_holds(hash_main_rows(s, hm, h)[h - 1]),
{
}

/// Scanning from a sample with at most `N` coefficients accepted stops exactly when `N` are.
pub proof fn lemma_rows_needed_count(s: Seq<u8>, k: nat)
    requires
        squeeze_suffices(s),
        accepted_values(s, k as int).len() <= N,
    ensures
        accepted_values(s, rows_needed(s, k) as int).len() == N,
        rows_needed(s, k) >= k,
    decreases (s.len() as int) / 2 - k,
{
    if k >= (s.len() as int) / 2 || accepted_values(s, k as int).len() >= N {
        if accepted_values(s, k as int).len() < N {
            lemma_accepted_prefix(s, (s.len() as int) / 2, k as int);
        }
    } else {
        lemma_accepted_prefix(s, k as int, k as int + 1);
        lemma_rows_needed_count(s, k + 1);
    }
}

/// Row `r` of the built trace has the width and a bit `is_real`, and a real row satisfies the
/// real-row constraints.
proof fn lemma_hash_main_row_ok(s: Seq<u8>, h: nat, r: int)
    requires
        squeeze_suffices(s),
        0 <= r < h,
    ensures
        ({
            let hm = hash_to_point_coeffs(s);
            let row = hash_main_rows(s, hm, h)[r];
            &&& row.len() == NUM_HASH_MAIN_COLS
            &&& is_bit(row[COL_IS_REAL as int])
            &&& row[COL_IS_REAL as int] == 1 ==> hash_real_row_holds(row, hash_public_values(hm))
            &&& row[COL_IS_REAL as int] == 1 <==> r < rows_needed(s, 0)
        }),
{
    let hm = hash_to_point_coeffs(s);
    let row = hash_main_rows(s, hm, h)[r];
    if r < rows_needed(s, 0) {
        lemma_sample_row_len(s, hm, r);
        assert(row[COL_IS_REAL as int] == 1);
        lemma_hash_sample_rows_hold(s, r);
    } else {
        assert(row[COL_IS_REAL as int] == 0);
    }
}

/// The transition `(r, r + 1)` of the built trace satisfies the transition constraints.
proof fn lemma_hash_main_transition_ok(s: Seq<u8>, h: nat, r: int)
    requires
        squeeze_suffices(s),
        0 <= r < h - 1,
    ensures
        hash_transition_holds(hash_main_rows(s, hash_to_point_coeffs(s), h)[r],
            hash_main_rows(s, hash_to_point_coeffs(s), h)[r + 1]),
{
    let hm = hash_to_point_coeffs(s);
    let rows = hash_main_rows(s, hm, h);
    let k = rows_needed(s, 0);
    lemma_rows_needed_count(s, 0);
    if r < k {
        lemma_rows_needed_below(s, 0, r);
        assert(rows[r][COL_IS_REAL as int] == 1);
        assert(sample(s, r) == s[2 * r] * 256 + s[2 * r + 1]);
        lemma_accepted_prefix(s, r, r + 1);
        if r + 1 < k {
            assert(rows[r + 1][COL_IS_REAL as int] == 1);
        }
    }
}

/// Completeness of the whole trace: for the coefficients `hm` that the stream yields, published
/// as the public values, the built main trace satisfies every constraint of the AIR.
pub proof fn lemma_hash_trace_complete(s: Seq<u8>, h: nat)
    requires
        squeeze_suffices(s),
        hash_height_ok(h, rows_needed(s, 0)),
    ensures
        hash_trace_holds(hash_main_rows(s, hash_to_point_coeffs(s), h),
            hash_public_values(hash_to_point_coeffs(s))),
{
    let hm = hash_to_point_coeffs(s);
    let pv = hash_public_values(hm);
    let rows = hash_main_rows(s, hm, h);
    lemma_rows_needed_count(s, 0);
    assert(rows_needed(s, 0) >= 1);
    assert forall|r: int| 0 <= r < rows.len() implies {
        &&& (#[trigger] rows[r]).len() == NUM_HASH_MAIN_COLS
        &&& is_bit(rows[r][COL_IS_REAL as int])
        &&& rows[r][COL_IS_REAL as int] == 1 ==> hash_real_row_holds(rows[r], pv)
    } by {
        lemma_hash_main_row_ok(s, h, r);
    }
    assert forall|r: int| 0 <= r < rows.len() - 1 implies #[trigger] hash_transition_holds(rows[r], rows[r + 1]) by {
        lemma_hash_main_transition_ok(s, h, r);
    }
    assert(rows[0][COL_EMIT_CTR as int] == 0);
    lemma_hash_last_row_holds(s, hm, h);
}

/// The sample bytes of the first `k` rows of a hash-to-point trace: `b0`, `b1` of each row.
pub open spec fn hash_trace_bytes(rows: Seq<Seq<u32>>, k: nat) -> Seq<u8> {
    Seq::new(2 * k, |i: int| if i % 2 == 0 { rows[i / 2][COL_B0 as int] as u8 } else { rows[i / 2][COL_B1 as int] as u8 })
}

/// Number of leading real rows among the first `n`.
pub open spec fn real_prefix(rows: Seq<Seq<u32>>, n: nat) -> nat
    decreases n,
{
    if n == 0 {
        0
    } else if real_prefix(rows, (n - 1) as nat) == n - 1 && rows[n - 1][COL_IS_REAL as int] == 1 {
        n
    } else {
        real_prefix(rows, (n - 1) as nat)
    }
}

/// Number of accepted real rows among the first `n`.
pub open spec fn accepted_rows(rows: Seq<Seq<u32>>, n: nat) -> nat
    decreases n,
{
    if n == 0 {
        0
    } else if rows[n - 1][COL_IS_REAL as int] == 1 && rows[n - 1][COL_ACCEPT as int] == 1 {
        accepted_rows(rows, (n - 1) as nat) + 1
    } else {
        accepted_rows(rows, (n - 1) as nat)
    }
}

/// In a satisfying trace the real rows are exactly the first `real_prefix(rows, n)` of the
/// first `n`.
proof fn lemma_real_prefix(rows: Seq<Seq<u32>>, pv: Seq<u32>, n: nat)
    requires
        hash_trace_holds(rows, pv),
        n <= rows.len(),
    ensures
        real_prefix(rows, n) <= n,
        forall|r: int| 0 <= r < n ==> ((#[trigger] rows[r][COL_IS_REAL as int] == 1) <==> r < real_prefix(rows, n)),
    decreases n,
{
    if n > 0 {
        let m = (n - 1) as nat;
        lemma_real_prefix(rows, pv, m);
        if real_prefix(rows, m) < m {
            assert(rows[m - 1][COL_IS_REAL as int] == 0);
            assert(hash_transition_holds(rows[m - 1], rows[(m - 1) + 1]));
        }
        assert(is_bit(rows[m as int][COL_IS_REAL as int]));
    }
}

/// In a satisfying trace with fewer rows than the field size, `emit_ctr` of row `r` counts the
/// accepted real rows before it.
proof fn lemma_emit_counts(rows: Seq<Seq<u32>>, pv: Seq<u32>, r: nat)
    requires
        hash_trace_holds(rows, pv),
        forall|i: int, c: int| 0 <= i < rows.len() && 0 <= c < NUM_HASH_MAIN_COLS ==> canonical(#[trigger] rows[i][c]),
        rows.len() <= 0x4000_0000,
        r < rows.len(),
    ensures
        rows[r as int][COL_EMIT_CTR as int] == accepted_rows(rows, r),
        accepted_rows(rows, r) <= r,
    decreases r,
{
    assert(canonical(rows[r as int][COL_EMIT_CTR as int]));
    if r == 0 {
        lemma_feq_small(rows[0][COL_EMIT_CTR as int] as int, 0);
    } else {
        let m = (r - 1) as nat;
        lemma_emit_counts(rows, pv, m);
        assert(hash_transition_holds(rows[m as int], rows[m as int + 1]));
        let cur = rows[m as int];
        assert(is_bit(cur[COL_IS_REAL as int]));
        if cur[COL_IS_REAL as int] == 1 {
            assert(hash_real_row_holds(cur, pv));
            assert(is_bit(cur[COL_ACCEPT as int]));
        }
        assert(cur[COL_IS_REAL as int] * cur[COL_ACCEPT as int]
            == (if cur[COL_IS_REAL as int] == 1 && cur[COL_ACCEPT as int] == 1 { 1int } else { 0int })) by (nonlinear_arith)
            requires
                is_bit(cur[COL_IS_REAL as int]),
                cur[COL_IS_REAL as int] == 1 ==> is_bit(cur[COL_ACCEPT as int]),
        ;
        lemma_feq_small(rows[r as int][COL_EMIT_CTR as int] as int,
            cur[COL_EMIT_CTR as int] + cur[COL_IS_REAL as int] * cur[COL_ACCEPT as int]);
    }
}

/// Rows past the real prefix add no accepted rows.
proof fn lemma_accepted_rows_stable(rows: Seq<Seq<u32>>, k: nat, n: nat)
    requires
        k <= n <= rows.len(),
        forall|r: int| k <= r < n ==> #[trigger] rows[r][COL_IS_REAL as int] != 1,
    ensures
        accepted_rows(rows, n) == accepted_rows(rows, k),
    decreases n - k,
{
    if n > k {
        lemma_accepted_rows_stable(rows, k, (n - 1) as nat);
    }
}

/// Along the real prefix, rejection sampling over the trace's sample bytes accepts the same
/// rows, and the coefficients it accepts are the public values at their positions.
proof fn lemma_trace_accepts(rows: Seq<Seq<u32>>, pv: Seq<u32>, k: nat, r: nat)
    requires
        hash_trace_holds(rows, pv),
        forall|i: int, c: int| 0 <= i < rows.len() && 0 <= c < NUM_HASH_MAIN_COLS ==> canonical(#[trigger] rows[i][c]),
        rows.len() <= 0x4000_0000,
        pv.len() == NUM_HASH_PUBLIC_VALUES,
        forall|i: int| 0 <= i < pv.len() ==> canonical(#[trigger] pv[i]),
        k <= rows.len(),
        forall|i: int| 0 <= i < rows.len() ==> ((#[trigger] rows[i][COL_IS_REAL as int] == 1) <==> i < k),
        r <= k,
    ensures
        accepted_values(hash_trace_bytes(rows, k), r as int).len() == accepted_rows(rows, r),
        forall|i: int| 0 <= i < accepted_rows(rows, r) ==>
            #[trigger] accepted_values(hash_trace_bytes(rows, k), r as int)[i] as u32 == pv[i],
    decreases r,
{
    if r > 0 {
        let m = (r - 1) as nat;
        lemma_trace_accepts(rows, pv, k, m);
        let s = hash_trace_bytes(rows, k);
        let row = rows[m as int];
        assert(row[COL_IS_REAL as int] == 1);
        assert(hash_real_row_holds(row, pv));
        assert forall|c: int| 0 <= c < NUM_HASH_MAIN_COLS implies canonical(#[trigger] row[c]) by {
            assert(canonical(rows[m as int][c]));
        }
        lemma_hash_row_sound(row, pv);
        assert(s[2 * m as int] == row[COL_B0 as int] as u8);
        assert(s[2 * m as int + 1] == row[COL_B1 as int] as u8);
        assert(sample(s, m as int) == row[COL_RAW as int]);
        if row[COL_ACCEPT as int] == 1 {
            lemma_emit_counts(rows, pv, m);
            let prev = accepted_values(s, m as int);
            let x = (sample(s, m as int) % (MODULUS as int)) as u16;
            assert(accepted_values(s, r as int) == prev.push(x));
            assert(x as u32 == row[COL_COEFF as int]);
            assert forall|i: int| 0 <= i < accepted_rows(rows, r) implies
                #[trigger] accepted_values(s, r as int)[i] as u32 == pv[i] by {
                if i < accepted_rows(rows, m) {
                    assert(accepted_values(s, r as int)[i] == prev[i]);
                }
            }
        }
    }
}

/// Soundness of the whole hash-to-point trace: in a trace of canonical cells (fewer than `2^30`
/// rows) that satisfies every constraint against canonical public values `pv`, the real rows
/// are a prefix, their sample bytes yield at least `N` accepted coefficients, and `pv` is
/// exactly the hash-to-point coefficients of those bytes: the first `N` samples below the
/// threshold, each reduced mod `q`, in order.
pub proof fn lemma_hash_trace_sound(rows: Seq<Seq<u32>>, pv: Seq<u32>)
    requires
        hash_trace_holds(rows, pv),
        forall|i: int, c: int| 0 <= i < rows.len() && 0 <= c < NUM_HASH_MAIN_COLS ==> canonical(#[trigger] rows[i][c]),
        rows.len() <= 0x4000_0000,
        pv.len() == NUM_HASH_PUBLIC_VALUES,
        forall|i: int| 0 <= i < pv.len() ==> canonical(#[trigger] pv[i]),
    ensures
        ({
            let k = real_prefix(rows, rows.len());
            let s = hash_trace_bytes(rows, k);
            &&& k <= rows.len()
            &&& forall|r: int| 0 <= r < rows.len() ==> ((#[trigger] rows[r][COL_IS_REAL as int] == 1) <==> r < k)
            &&& squeeze_suffices(s)
            &&& pv == hash_public_values(hash_to_point_coeffs(s))
        }),
{
    let h = rows.len();
    lemma_real_prefix(rows, pv, h);
    let k = real_prefix(rows, h);
    let s = hash_trace_bytes(rows, k);
    lemma_trace_accepts(rows, pv, k, k);
    let last = (h - 1) as nat;
    lemma_emit_counts(rows, pv, last);
    lemma_feq_small(rows[last as int][COL_EMIT_CTR as int] as int, N as int);
    assert(accepted_rows(rows, last) == N);
    if rows[last as int][COL_IS_REAL as int] == 1 && rows[last as int][COL_ACCEPT as int] == 1 {
        let row = rows[last as int];
        assert forall|c: int| 0 <= c < NUM_HASH_MAIN_COLS implies canonical(#[trigger] row[c]) by {
            assert(canonical(rows[last as int][c]));
        }
        lemma_hash_row_sound(row, pv);
    }
    assert(accepted_rows(rows, h) == N);
    lemma_accepted_rows_stable(rows, k, h);
    assert(s.len() / 2 == k);
    let acc = accepted_values(s, k as int);
    assert(acc.len() == N);
    assert(hash_to_point_coeffs(s) =~= acc);
    assert(pv =~= hash_public_values(hash_to_point_coeffs(s)));
}

/// Hash-to-point AIR, main trace and public values (the coefficients of `result.hm`) for a
/// message of `msg_len` bytes.
pub fn build_hash_to_point_instance_from_result(msg_len: usize, result: &HashToPointResult)
    -> (r: (FalconHashToPointAir, TraceMatrix, Vec<u32>))
    requires
        msg_len <= HASH_MSG_MAX_BYTES,
        squeeze_suffices(result.squeeze@),
        result.squeeze@.len() < 0x8000_0000,
    ensures
        r.0.msg_len_view() == msg_len,
        r.1.wf(),
        r.1.width == NUM_HASH_MAIN_COLS,
        hash_height_ok(r.1.rows(), rows_needed(result.squeeze@, 0)),
        result.squeeze@.len() <= SHAKE_SQUEEZE_LEN ==> r.1.rows() <= 2048,
        r.1.values@ == concat_rows(hash_main_rows(result.squeeze@, result.hm@, r.1.rows())),
        r.2@.len() == NUM_HASH_PUBLIC_VALUES,
        r.2@ == hash_public_values(result.hm@),
{
    let air = FalconHashToPointAir::new(msg_len);
    let main = build_hash_to_point_main(result);
    let mut pv: Vec<u32> = Vec::with_capacity(N);
    let mut i: usize = 0;
    while i < N
        invariant
            i <= N,
            pv@.len() == i,
            forall|k: int| 0 <= k < i ==> pv@[k] == #[trigger] result.hm@[k] as u32,
        decreases N - i,
    {
        pv.push(result.hm[i] as u32);
        i = i + 1;
    }
    proof {
        assert(pv@ =~= hash_public_values(result.hm@));
    }
    (air, main, pv)
}

/// Hash-to-point AIR, main trace and public values for `msg` and a 40-byte `nonce`, from the
/// SHAKE256 `squeeze` of `nonce ‖ msg`.
pub fn build_hash_to_point_instance(msg: &[u8], nonce: &[u8], squeeze: Vec<u8>)
    -> (r: (FalconHashToPointAir, TraceMatrix, Vec<u32>))
    requires
        msg@.len() <= HASH_MSG_MAX_BYTES,
        nonce@.len() == 40,
        squeeze_suffices(squeeze@),
        squeeze@.len() < 0x8000_0000,
    ensures
        r.0.msg_len_view() == msg@.len(),
        r.1.wf(),
        r.1.width == NUM_HASH_MAIN_COLS,
        hash_height_ok(r.1.rows(), rows_needed(squeeze@, 0)),
        squeeze@.len() <= SHAKE_SQUEEZE_LEN ==> r.1.rows() <= 2048,
        r.1.values@ == concat_rows(hash_main_rows(squeeze@, hash_to_point_coeffs(squeeze@), r.1.rows())),
        r.2@.len() == NUM_HASH_PUBLIC_VALUES,
        r.2@ == hash_public_values(hash_to_point_coeffs(squeeze@)),
{
    let result = hash_to_point(msg, nonce, squeeze);
    build_hash_to_point_instance_from_result(msg.len(), &result)
}

/// Padded height bound for the hash-to-point trace: `SHAKE_SQUEEZE_LEN / 2` samples rounded up
/// to a power of two (at least 8).
pub fn hash_to_point_trace_height() -> (h: usize)
    ensures
        h == 2048,
{
    let p2: usize = next_power_of_two(SHAKE_SQUEEZE_LEN / 2);
    proof {
        lemma2_to64();
        vstd::arithmetic::power2::lemma_pow2_adds(10, 1);
        crate::params::lemma_next_pow2_is(p2 as nat, 1536, 11);
    }
    if p2 < 8 { 8 } else { p2 }
}

} // verus!
