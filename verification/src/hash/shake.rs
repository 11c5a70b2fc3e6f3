//! SHAKE256 for Falcon hash-to-point: rejection sampling from squeeze bytes and the sponge
//! simulator recording every Keccak-f input.
use vstd::prelude::*;
use crate::params::{N, MODULUS};
use p3_keccak::KeccakF;
use p3_symmetric::Permutation;

verus! {

/// Bytes squeezed before rejection sampling (`3N` in Falcon).
pub const SHAKE_SQUEEZE_LEN: usize = 3072;

/// Sponge rate of SHAKE256 in bytes.
pub const RATE: usize = 136;

/// Rejection threshold: 16-bit samples below `5q` are accepted.
pub const SAMPLE_THRESHOLD: u32 = 61445;

/// Sample `i` of a squeeze stream: the big-endian 16-bit value of bytes `2i`, `2i + 1`.
pub open spec fn sample(s: Seq<u8>, i: int) -> int {
    s[2 * i] * 256 + s[2 * i + 1]
}

/// Coefficients accepted among the first `k` samples, each reduced mod `q`, in order.
pub open spec fn accepted_values(s: Seq<u8>, k: int) -> Seq<u16>
    decreases k,
{
    if k <= 0 {
        Seq::empty()
    } else if sample(s, k - 1) < SAMPLE_THRESHOLD {
        accepted_values(s, k - 1).push((sample(s, k - 1) % (MODULUS as int)) as u16)
    } else {
        accepted_values(s, k - 1)
    }
}

/// The stream yields at least `N` accepted samples.
pub open spec fn squeeze_suffices(s: Seq<u8>) -> bool {
    accepted_values(s, (s.len() as int) / 2).len() >= N
}

/// `hm` from a squeeze stream: the first `N` accepted coefficients.
pub open spec fn hash_to_point_coeffs(s: Seq<u8>) -> Seq<u16> {
    accepted_values(s, (s.len() as int) / 2).take(N as int)
}

/// Fewer samples accept a prefix of the coefficients.
pub proof fn lemma_accepted_prefix(s: Seq<u8>, j: int, k: int)
    requires
        0 <= j <= k,
    ensures
        accepted_values(s, j).len() <= accepted_values(s, k).len(),
        accepted_values(s, j) == accepted_values(s, k).take(accepted_values(s, j).len() as int),
        accepted_values(s, k).len() <= accepted_values(s, j).len() + (k - j),
    decreases k - j,
{
    if j < k {
        lemma_accepted_prefix(s, j, k - 1);
        let a = accepted_values(s, k - 1);
        let lj = accepted_values(s, j).len() as int;
        if sample(s, k - 1) < SAMPLE_THRESHOLD {
            assert(a.push((sample(s, k - 1) % (MODULUS as int)) as u16).take(lj) =~= a.take(lj));
        }
    } else {
        assert(accepted_values(s, k).take(accepted_values(s, k).len() as int) =~= accepted_values(s, k));
    }
}

/// Every accepted coefficient is reduced.
pub proof fn lemma_accepted_reduced(s: Seq<u8>, k: int)
    ensures
        forall|i: int| 0 <= i < accepted_values(s, k).len() ==> #[trigger] accepted_values(s, k)[i] < MODULUS,
    decreases k,
{
    if k > 0 {
        lemma_accepted_reduced(s, k - 1);
        if sample(s, k - 1) < SAMPLE_THRESHOLD {
            vstd::arithmetic::div_mod::lemma_mod_bound(sample(s, k - 1), MODULUS as int);
            let a = accepted_values(s, k - 1);
            let x = (sample(s, k - 1) % (MODULUS as int)) as u16;
            assert(x < MODULUS);
            assert(accepted_values(s, k) == a.push(x));
            assert forall|i: int| 0 <= i < a.push(x).len() implies #[trigger] a.push(x)[i] < MODULUS by {
                if i < a.len() {
                    assert(a.push(x)[i] == a[i]);
                }
            }
        } else {
            assert(accepted_values(s, k) == accepted_values(s, k - 1));
        }
    }
}

/// Rejection sampling: the first `N` samples below the threshold, reduced mod `q`.
pub fn squeeze_to_coeffs(squeeze: &[u8]) -> (res: [u16; N])
    requires
        squeeze_suffices(squeeze@),
    ensures
        res@ == hash_to_point_coeffs(squeeze@),
{
    let ghost s = squeeze@;
    let mut res: [u16; N] = [0u16; N];
    let mut ctr: usize = 0;
    let mut i: usize = 0;
    proof {
        lemma_accepted_prefix(s, 0, (s.len() as int) / 2);
    }
    while i < N
        invariant
            s == squeeze@,
            squeeze_suffices(s),
            ctr % 2 == 0,
            ctr <= s.len(),
            i <= N,
            res@.len() == N,
            accepted_values(s, ctr as int / 2).len() == i,
            forall|k: int| 0 <= k < i ==> res@[k] == #[trigger] accepted_values(s, ctr as int / 2)[k],
        decreases s.len() - ctr,
    {
        proof {
            lemma_accepted_prefix(s, ctr as int / 2, (s.len() as int) / 2);
            if ctr as int / 2 >= (s.len() as int) / 2 {
                assert(ctr as int / 2 == (s.len() as int) / 2);
            }
            assert(ctr + 1 < s.len());
        }
        let coeff: u16 = ((squeeze[ctr] as u16) << 8u16) | (squeeze[ctr + 1] as u16);
        proof {
            let b0 = squeeze[ctr as int];
            let b1 = squeeze[ctr as int + 1];
            assert(((b0 as u16) << 8u16) | (b1 as u16) == (b0 as u16) * 256 + (b1 as u16)) by (bit_vector);
            assert((ctr as int + 2) / 2 == ctr as int / 2 + 1);
            assert(sample(s, ctr as int / 2) == coeff);
        }
        let ghost prev_ctr = ctr;
        ctr = ctr + 2;
        if coeff < 61445 {
            res[i] = coeff % MODULUS;
            i = i + 1;
        }
        proof {
            assert(ctr as int / 2 == prev_ctr as int / 2 + 1);
        }
    }
    proof {
        lemma_accepted_prefix(s, ctr as int / 2, (s.len() as int) / 2);
        assert(res@ =~= hash_to_point_coeffs(s));
    }
    res
}

/// Whether the squeeze yields at least `N` accepted samples, as rejection sampling needs.
pub fn has_enough_samples(squeeze: &[u8]) -> (ok: bool)
    ensures
        ok == squeeze_suffices(squeeze@),
{
    let ghost s = squeeze@;
    let half: usize = squeeze.len() / 2;
    let mut count: usize = 0;
    let mut i: usize = 0;
    while i < half
        invariant
            s == squeeze@,
            half == (s.len() as int) / 2,
            s.len() <= usize::MAX,
            i <= half,
            count == accepted_values(s, i as int).len(),
            count < N,
        decreases half - i,
    {
        let raw: u32 = (squeeze[2 * i] as u32) * 256 + (squeeze[2 * i + 1] as u32);
        proof {
            assert(sample(s, i as int) == raw);
        }
        if raw < SAMPLE_THRESHOLD {
            count = count + 1;
        }
        i = i + 1;
        if count >= N {
            proof {
                lemma_accepted_prefix(s, i as int, (s.len() as int) / 2);
            }
            return true;
        }
    }
    false
}

/// The Keccak-f[1600] permutation on 25 lanes, as computed by `p3_keccak::KeccakF`.
pub uninterp spec fn keccak_f(state: Seq<u64>) -> Seq<u64>;

/// Applies `p3_keccak::KeccakF` (Keccak-f[1600]) to the 25 lanes in place. The contract states
/// only that the new lanes are the named permutation of the old ones.
#[verifier::external_body]
fn keccak_f_permute(state: &mut [u64; 25])
    ensures
        final(state)@ == keccak_f(old(state)@),
{
    KeccakF.permute_mut(state);
}

/// Byte `k` of the state viewed little-endian, eight bytes per lane.
pub open spec fn lane_byte(a: Seq<u64>, k: int) -> u8 {
    ((a[k / 8] >> ((8 * (k % 8)) as u64)) & 0xffu64) as u8
}

/// The state with byte `k` XOR-ed with `b`.
pub open spec fn xor_byte(a: Seq<u64>, k: int, b: u8) -> Seq<u64> {
    a.update(k / 8, a[k / 8] ^ ((b as u64) << ((8 * (k % 8)) as u64)))
}

/// The first `RATE` bytes of the state.
pub open spec fn rate_bytes(a: Seq<u64>) -> Seq<u8> {
    Seq::new(RATE as nat, |k: int| lane_byte(a, k))
}

/// Falcon `process_block` on the 25 lanes: Keccak-f[1600]. (Falcon's C code runs the rounds on
/// a lane-complemented representation, complementing on entry and exit, which computes this
/// same permutation.)
pub open spec fn falcon_keccakf_spec(a: Seq<u64>) -> Seq<u64> {
    Seq::new(25, |j: int| keccak_f(a)[j])
}

/// Abstract state of the sponge simulator.
pub struct SpongeView {
    pub a: Seq<u64>,
    pub dptr: int,
    pub inputs: Seq<Seq<u64>>,
    pub rates: Seq<Seq<u8>>,
}

/// The fresh sponge: zero state, empty records.
pub open spec fn sponge_init() -> SpongeView {
    SpongeView { a: Seq::new(25, |i: int| 0u64), dptr: 0, inputs: Seq::empty(), rates: Seq::empty() }
}

/// One `process_block`: record the input, permute, record the rate bytes of the output.
pub open spec fn sponge_process(m: SpongeView) -> SpongeView {
    let out = falcon_keccakf_spec(m.a);
    SpongeView { a: out, dptr: m.dptr, inputs: m.inputs.push(m.a), rates: m.rates.push(rate_bytes(out)) }
}

/// Absorb one byte at `dptr`, processing a block when the rate fills.
pub open spec fn absorb_byte(m: SpongeView, b: u8) -> SpongeView {
    let m1 = SpongeView { a: xor_byte(m.a, m.dptr, b), dptr: m.dptr + 1, ..m };
    if m1.dptr == RATE {
        SpongeView { dptr: 0, ..sponge_process(m1) }
    } else {
        m1
    }
}

/// Absorb `data` byte by byte.
pub open spec fn sponge_absorb(m: SpongeView, data: Seq<u8>) -> SpongeView
    decreases data.len(),
{
    if data.len() == 0 {
        m
    } else {
        absorb_byte(sponge_absorb(m, data.drop_last()), data.last())
    }
}

/// SHAKE padding: `0x1f` at `dptr`, `0x80` at the last rate byte; the rate is then full.
pub open spec fn sponge_flip(m: SpongeView) -> SpongeView {
    SpongeView { a: xor_byte(xor_byte(m.a, m.dptr, 0x1f), 135, 0x80), dptr: RATE as int, ..m }
}

/// One extraction step: process a block if the rate is exhausted, then read the byte at `dptr`
/// and advance. The lanes change only through `process_block`.
pub open spec fn extract_step(m: SpongeView) -> (SpongeView, u8) {
    let m1 = if m.dptr == RATE { SpongeView { dptr: 0, ..sponge_process(m) } } else { m };
    (SpongeView { dptr: m1.dptr + 1, ..m1 }, lane_byte(m1.a, m1.dptr))
}

/// The sponge after extracting `n` bytes.
pub open spec fn sponge_extract(m: SpongeView, n: nat) -> SpongeView
    decreases n,
{
    if n == 0 {
        m
    } else {
        extract_step(sponge_extract(m, (n - 1) as nat)).0
    }
}

/// The `n` bytes extracted from `m`, in order.
pub open spec fn sponge_output(m: SpongeView, n: nat) -> Seq<u8>
    decreases n,
{
    if n == 0 {
        Seq::empty()
    } else {
        sponge_output(m, (n - 1) as nat).push(extract_step(sponge_extract(m, (n - 1) as nat)).1)
    }
}

/// The padded sponge for `hash_to_point(msg, nonce)`: absorb the nonce, then the message, then pad.
pub open spec fn sponge_padded(msg: Seq<u8>, nonce: Seq<u8>) -> SpongeView {
    sponge_flip(sponge_absorb(sponge_absorb(sponge_init(), nonce), msg))
}

/// The simulator's run for `hash_to_point(msg, nonce)`: the padded sponge after extracting
/// `SHAKE_SQUEEZE_LEN` bytes.
pub open spec fn sponge_run(msg: Seq<u8>, nonce: Seq<u8>) -> SpongeView {
    sponge_extract(sponge_padded(msg, nonce), SHAKE_SQUEEZE_LEN as nat)
}

/// The `SHAKE_SQUEEZE_LEN` bytes the simulator squeezes for `hash_to_point(msg, nonce)`.
pub open spec fn sponge_squeeze(msg: Seq<u8>, nonce: Seq<u8>) -> Seq<u8> {
    sponge_output(sponge_padded(msg, nonce), SHAKE_SQUEEZE_LEN as nat)
}

/// Lanes of every recorded Keccak-f input.
pub open spec fn lanes_view(v: Seq<[u64; 25]>) -> Seq<Seq<u64>> {
    v.map_values(|x: [u64; 25]| x@)
}

/// Bytes of every recorded rate snapshot.
pub open spec fn rates_view(v: Seq<[u8; RATE]>) -> Seq<Seq<u8>> {
    v.map_values(|x: [u8; RATE]| x@)
}

/// Sponge simulator: lanes, rate position and the records of every `process_block`.
struct ShakeState {
    a: [u64; 25],
    dptr: usize,
    keccak_inputs: Vec<[u64; 25]>,
    rate_after_perm: Vec<[u8; RATE]>,
}

impl ShakeState {
    spec fn view(&self) -> SpongeView {
        SpongeView {
            a: self.a@,
            dptr: self.dptr as int,
            inputs: lanes_view(self.keccak_inputs@),
            rates: rates_view(self.rate_after_perm@),
        }
    }

    spec fn inv(&self) -> bool {
        &&& self.dptr <= RATE
        &&& self.keccak_inputs@.len() == self.rate_after_perm@.len()
    }

    fn new() -> (st: Self)
        ensures
            st.view() == sponge_init(),
            st.inv(),
    {
        let st = ShakeState { a: [0u64; 25], dptr: 0, keccak_inputs: Vec::new(), rate_after_perm: Vec::new() };
        proof {
            assert(st.a@ =~= Seq::new(25, |i: int| 0u64));
            assert(lanes_view(st.keccak_inputs@) =~= Seq::empty());
            assert(rates_view(st.rate_after_perm@) =~= Seq::empty());
        }
        st
    }

    /// Record the current rate bytes.
    fn snapshot_rate(&mut self)
        ensures
            final(self).a == old(self).a,
            final(self).dptr == old(self).dptr,
            final(self).keccak_inputs == old(self).keccak_inputs,
            rates_view(final(self).rate_after_perm@) == rates_view(old(self).rate_after_perm@).push(rate_bytes(old(self).a@)),
            final(self).rate_after_perm@.len() == old(self).rate_after_perm@.len() + 1,
    {
        let mut rate: [u8; RATE] = [0u8; RATE];
        let mut k: usize = 0;
        while k < RATE
            invariant
                k <= RATE,
                forall|i: int| 0 <= i < k ==> rate@[i] == #[trigger] lane_byte(self.a@, i),
            decreases RATE - k,
        {
            rate[k] = ((self.a[k / 8] >> ((8 * (k % 8)) as u64)) & 0xffu64) as u8;
            k = k + 1;
        }
        proof {
            assert(rate@ =~= rate_bytes(self.a@));
        }
        let ghost before = self.rate_after_perm@;
        self.rate_after_perm.push(rate);
        proof {
            assert(rates_view(self.rate_after_perm@) =~= rates_view(before).push(rate_bytes(self.a@)));
        }
    }

    /// Index of the last recorded rate block (`0` when none).
    fn rate_block_index(&self) -> (r: u32)
        ensures
            r == (if self.rate_after_perm@.len() == 0 { 0 } else { self.rate_after_perm@.len() - 1 }) as u32,
    {
        let len: usize = self.rate_after_perm.len();
        if len == 0 { 0 } else { (len - 1) as u32 }
    }

    /// Falcon `process_block`.
    fn process_block(&mut self)
        requires
            old(self).inv(),
        ensures
            final(self).view() == sponge_process(old(self).view()),
            final(self).inv(),
    {
        let ghost old_view = self.view();
        self.keccak_inputs.push(self.a);
        falcon_keccakf(&mut self.a);
        self.snapshot_rate();
        proof {
            assert(lanes_view(self.keccak_inputs@) =~= old_view.inputs.push(old_view.a));
        }
    }

    /// Absorb `data` at the current rate position.
    fn inject(&mut self, data: &[u8])
        requires
            old(self).inv(),
            old(self).dptr < RATE,
        ensures
            final(self).view() == sponge_absorb(old(self).view(), data@),
            final(self).inv(),
            final(self).dptr < RATE,
    {
        let ghost start = self.view();
        let mut off: usize = 0;
        while off < data.len()
            invariant
                self.inv(),
                self.dptr < RATE,
                off <= data@.len(),
                self.view() == sponge_absorb(start, data@.take(off as int)),
            decreases data@.len() - off,
        {
            let k: usize = self.dptr;
            let b: u8 = data[off];
            self.a[k / 8] = self.a[k / 8] ^ ((b as u64) << ((8 * (k % 8)) as u64));
            self.dptr = self.dptr + 1;
            if self.dptr == RATE {
                self.process_block();
                self.dptr = 0;
            }
            proof {
                assert(data@.take(off as int + 1).drop_last() =~= data@.take(off as int));
                assert(data@.take(off as int + 1).last() == b);
            }
            off = off + 1;
        }
        proof {
            assert(data@.take(data@.len() as int) =~= data@);
        }
    }

    /// SHAKE padding; the rate is then full.
    fn flip(&mut self)
        requires
            old(self).inv(),
            old(self).dptr < RATE,
        ensures
            final(self).view() == sponge_flip(old(self).view()),
            final(self).inv(),
    {
        let k: usize = self.dptr;
        self.a[k / 8] = self.a[k / 8] ^ ((0x1fu8 as u64) << ((8 * (k % 8)) as u64));
        self.a[135 / 8] = self.a[135 / 8] ^ ((0x80u8 as u64) << ((8 * (135 % 8)) as u64));
        self.dptr = RATE;
    }

    /// Extraction into `out`: each byte is read from the rate at `dptr`, with a
    /// `process_block` whenever the rate is exhausted; the lanes are only read.
    fn extract(&mut self, out: &mut [u8])
        requires
            old(self).inv(),
        ensures
            final(self).view() == sponge_extract(old(self).view(), old(out)@.len()),
            final(out)@ == sponge_output(old(self).view(), old(out)@.len()),
            final(self).inv(),
    {
        let ghost start = self.view();
        let ghost n = out@.len();
        let mut off: usize = 0;
        while off < out.len()
            invariant
                self.inv(),
                out@.len() == n,
                off <= n,
                self.view() == sponge_extract(start, off as nat),
                out@.take(off as int) == sponge_output(start, off as nat),
            decreases n - off,
        {
            if self.dptr == RATE {
                self.process_block();
                self.dptr = 0;
            }
            let k: usize = self.dptr;
            let b: u8 = ((self.a[k / 8] >> ((8 * (k % 8)) as u64)) & 0xffu64) as u8;
            let ghost before = out@;
            out[off] = b;
            self.dptr = self.dptr + 1;
            proof {
                assert(out@.take(off as int + 1) =~= before.take(off as int).push(b));
            }
            off = off + 1;
        }
        proof {
            assert(out@.take(n as int) =~= out@);
        }
    }
}

/// Falcon `process_block` on the lanes: Keccak-f[1600].
fn falcon_keccakf(a: &mut [u64; 25])
    ensures
        final(a)@ == falcon_keccakf_spec(old(a)@),
{
    keccak_f_permute(a);
    proof {
        assert(a@ =~= falcon_keccakf_spec(old(a)@));
    }
}

/// Where one squeeze byte was read in the sponge rate buffer.
#[derive(Clone, Copy, Debug, PartialEq, Eq, Structural)]
pub struct SqueezeByteRef {
    pub block: u32,
    pub offset: u32,
}

/// Byte at flat position `pos` of the rate stream (`RATE` bytes per block).
pub open spec fn rate_at(rate: Seq<Seq<u8>>, pos: int) -> u8 {
    rate[pos / (RATE as int)][pos % (RATE as int)]
}

/// First position `≥ pos` of the rate stream holding `byte`, if any.
pub open spec fn next_match(rate: Seq<Seq<u8>>, pos: int, byte: u8) -> Option<int>
    decreases rate.len() * RATE - pos,
{
    if pos < 0 || pos >= rate.len() * RATE {
        None
    } else if rate_at(rate, pos) == byte {
        Some(pos)
    } else {
        next_match(rate, pos + 1, byte)
    }
}

/// Greedy in-order matching of `squeeze` against the rate stream: each byte is found at the
/// first matching position after the previous byte's position.
pub open spec fn greedy_positions(rate: Seq<Seq<u8>>, squeeze: Seq<u8>) -> Option<Seq<int>>
    decreases squeeze.len(),
{
    if squeeze.len() == 0 {
        Some(Seq::empty())
    } else {
        match greedy_positions(rate, squeeze.drop_last()) {
            None => None,
            Some(ps) => {
                let start = if ps.len() == 0 { 0 } else { ps.last() + 1 };
                match next_match(rate, start, squeeze.last()) {
                    None => None,
                    Some(p) => Some(ps.push(p)),
                }
            }
        }
    }
}

/// `(block, offset)` of a flat position.
pub open spec fn position_ref(p: int) -> SqueezeByteRef {
    SqueezeByteRef { block: (p / (RATE as int)) as u32, offset: (p % (RATE as int)) as u32 }
}

/// The greedy positions of `squeeze`, as references.
pub open spec fn squeeze_refs_spec(rate: Seq<Seq<u8>>, squeeze: Seq<u8>) -> Option<Seq<SqueezeByteRef>> {
    match greedy_positions(rate, squeeze) {
        None => None,
        Some(ps) => Some(ps.map_values(|p: int| position_ref(p))),
    }
}

/// A non-matching position does not change the next match.
pub proof fn lemma_next_match_skip(rate: Seq<Seq<u8>>, pos: int, byte: u8)
    requires
        0 <= pos < rate.len() * RATE,
        rate_at(rate, pos) != byte,
    ensures
        next_match(rate, pos, byte) == next_match(rate, pos + 1, byte),
{
}

/// Greedy positions are increasing and inside the stream.
pub proof fn lemma_greedy_positions_bounds(rate: Seq<Seq<u8>>, squeeze: Seq<u8>)
    ensures
        greedy_positions(rate, squeeze) matches Some(ps) ==> {
            &&& ps.len() == squeeze.len()
            &&& forall|i: int| 0 <= i < ps.len() ==> 0 <= #[trigger] ps[i] < rate.len() * RATE
        },
    decreases squeeze.len(),
{
    if squeeze.len() > 0 {
        lemma_greedy_positions_bounds(rate, squeeze.drop_last());
        match greedy_positions(rate, squeeze.drop_last()) {
            None => {},
            Some(ps) => {
                let start = if ps.len() == 0 { 0 } else { ps.last() + 1 };
                lemma_next_match_range(rate, start, squeeze.last());
            },
        }
    }
}

/// A match lies at or after the starting position and inside the stream.
pub proof fn lemma_next_match_range(rate: Seq<Seq<u8>>, pos: int, byte: u8)
    ensures
        next_match(rate, pos, byte) matches Some(p) ==> pos <= p < rate.len() * RATE && p >= 0 && rate_at(rate, p) == byte,
    decreases rate.len() * RATE - pos,
{
    if !(pos < 0 || pos >= rate.len() * RATE) && rate_at(rate, pos) != byte {
        lemma_next_match_range(rate, pos + 1, byte);
    }
}

/// Map each squeeze byte to `(block, offset)` in the rate snapshots by greedy in-order matching;
/// `None` when some byte has no later match.
pub fn compute_squeeze_byte_refs(rate: &[[u8; RATE]], squeeze: &[u8]) -> (r: Option<Vec<SqueezeByteRef>>)
    ensures
        match (r, squeeze_refs_spec(rates_view(rate@), squeeze@)) {
            (None, None) => true,
            (Some(v), Some(w)) => v@ == w,
            _ => false,
        },
{
    let ghost rv = rates_view(rate@);
    let mut refs: Vec<SqueezeByteRef> = Vec::with_capacity(squeeze.len());
    let mut block: usize = 0;
    let mut off: usize = 0;
    let mut idx: usize = 0;
    let ghost mut ps: Seq<int> = Seq::empty();
    proof {
        assert(rv.len() == rate@.len());
    }
    while idx < squeeze.len()
        invariant
            rv == rates_view(rate@),
            rv.len() == rate@.len(),
            idx <= squeeze@.len(),
            off <= RATE,
            block <= rate@.len(),
            greedy_positions(rv, squeeze@.take(idx as int)) == Some(ps),
            refs@ == ps.map_values(|p: int| position_ref(p)),
            block * RATE + off == (if ps.len() == 0 { 0 } else { ps.last() + 1 }),
            ps.len() == idx,
        decreases squeeze@.len() - idx,
    {
        let byte: u8 = squeeze[idx];
        let ghost start: int = block * RATE + off;
        while block < rate.len()
            invariant
                rv == rates_view(rate@),
                rv.len() == rate@.len(),
                    off <= RATE + 1,
                block <= rate@.len(),
                block < rate@.len() ==> off <= RATE,
                start >= 0,
                block * RATE + off >= start,
                next_match(rv, start, byte) == next_match(rv, (block * RATE + off) as int, byte),
            ensures
                rv == rates_view(rate@),
                off <= RATE + 1,
                block <= rate@.len(),
                next_match(rv, start, byte) == next_match(rv, (block * RATE + off) as int, byte),
                block < rate@.len() ==> (off < RATE && rate@[block as int]@[off as int] == byte),
                block == rate@.len() ==> off == 0 || block * RATE + off >= rate@.len() * RATE,
            decreases rate@.len() - block, RATE + 2 - off,
        {
            if off < RATE && rate[block][off] == byte {
                break;
            }
            proof {
                let pos = (block * RATE + off) as int;
                if off < RATE {
                    vstd::arithmetic::div_mod::lemma_div_multiples_vanish_fancy(block as int, off as int, RATE as int);
                    vstd::arithmetic::div_mod::lemma_mod_multiples_vanish(block as int, off as int, RATE as int);
                    vstd::arithmetic::div_mod::lemma_small_mod(off as nat, RATE as nat);
                    assert(rv[block as int] == rate@[block as int]@);
                    assert(block * RATE + RATE <= rate@.len() * RATE) by (nonlinear_arith)
                        requires
                            block < rate@.len(),
                    ;
                    lemma_next_match_skip(rv, pos, byte);
                }
            }
            off = off + 1;
            if off >= RATE {
                block = block + 1;
                off = 0;
            }
        }
        proof {
            lemma_next_match_range(rv, start, byte);
        }
        if block >= rate.len() || off >= RATE || rate[block][off] != byte {
            proof {
                let pos = (block * RATE + off) as int;
                assert(pos >= rv.len() * RATE) by (nonlinear_arith)
                    requires
                        block == rv.len(),
                        pos == block * RATE + off,
                        off >= 0,
                ;
                assert(squeeze@.take(idx as int + 1).drop_last() =~= squeeze@.take(idx as int));
                assert(squeeze_refs_spec(rv, squeeze@) is None) by {
                    lemma_greedy_none_extends(rv, squeeze@, idx as int + 1);
                }
            }
            return None;
        }
        proof {
            let pos = (block * RATE + off) as int;
            vstd::arithmetic::div_mod::lemma_div_multiples_vanish_fancy(block as int, off as int, RATE as int);
            vstd::arithmetic::div_mod::lemma_mod_multiples_vanish(block as int, off as int, RATE as int);
            vstd::arithmetic::div_mod::lemma_small_mod(off as nat, RATE as nat);
            assert(rv[block as int] == rate@[block as int]@);
            assert(block * RATE + RATE <= rate@.len() * RATE) by (nonlinear_arith)
                requires
                    block < rate@.len(),
            ;
            assert(next_match(rv, pos, byte) == Some(pos));
            assert(squeeze@.take(idx as int + 1).drop_last() =~= squeeze@.take(idx as int));
            assert(squeeze@.take(idx as int + 1).last() == byte);
        }
        refs.push(SqueezeByteRef { block: block as u32, offset: off as u32 });
        proof {
            let pos = (block * RATE + off) as int;
            ps = ps.push(pos);
            assert(refs@ =~= ps.map_values(|p: int| position_ref(p)));
        }
        off = off + 1;
        idx = idx + 1;
    }
    proof {
        assert(squeeze@.take(squeeze@.len() as int) =~= squeeze@);
    }
    Some(refs)
}

/// Once a prefix fails to match, every extension fails.
pub proof fn lemma_greedy_none_extends(rate: Seq<Seq<u8>>, squeeze: Seq<u8>, k: int)
    requires
        0 <= k <= squeeze.len(),
        greedy_positions(rate, squeeze.take(k)) is None,
    ensures
        greedy_positions(rate, squeeze) is None,
    decreases squeeze.len() - k,
{
    if k < squeeze.len() {
        assert(squeeze.take(k + 1).drop_last() =~= squeeze.take(k));
        lemma_greedy_none_extends(rate, squeeze, k + 1);
    } else {
        assert(squeeze.take(k) =~= squeeze);
    }
}


/// Rate bytes of the stream at `(block, offset)` equal the squeeze byte for each reference.
pub open spec fn refs_read_squeeze(rate: Seq<Seq<u8>>, squeeze: Seq<u8>, refs: Seq<SqueezeByteRef>) -> bool {
    &&& refs.len() == squeeze.len()
    &&& forall|i: int| 0 <= i < refs.len() ==> {
        &&& (#[trigger] refs[i]).block < rate.len()
        &&& refs[i].offset < RATE
        &&& rate[refs[i].block as int][refs[i].offset as int] == squeeze[i]
    }
}

/// Greedy matching yields references that read back every squeeze byte.
pub proof fn lemma_squeeze_refs_read_back(rate: Seq<Seq<u8>>, squeeze: Seq<u8>)
    requires
        forall|b: int| 0 <= b < rate.len() ==> (#[trigger] rate[b]).len() == RATE,
        rate.len() < 0x1_0000_0000,
        squeeze_refs_spec(rate, squeeze) is Some,
    ensures
        refs_read_squeeze(rate, squeeze, squeeze_refs_spec(rate, squeeze)->0),
{
    assert(rate.len() * RATE < 0x1_0000_0000 * RATE) by (nonlinear_arith)
        requires
            rate.len() < 0x1_0000_0000,
    ;
    lemma_greedy_positions_bounds(rate, squeeze);
    lemma_greedy_positions_match(rate, squeeze);
    let ps = greedy_positions(rate, squeeze)->0;
    let refs = squeeze_refs_spec(rate, squeeze)->0;
    assert forall|i: int| 0 <= i < refs.len() implies {
        &&& (#[trigger] refs[i]).block < rate.len()
        &&& refs[i].offset < RATE
        &&& rate[refs[i].block as int][refs[i].offset as int] == squeeze[i]
    } by {
        let p = ps[i];
        vstd::arithmetic::div_mod::lemma_fundamental_div_mod(p, RATE as int);
        assert(p / (RATE as int) < rate.len()) by (nonlinear_arith)
            requires
                0 <= p < rate.len() * RATE,
                p == RATE * (p / (RATE as int)) + p % (RATE as int),
                0 <= p % (RATE as int) < RATE,
        ;
        assert(p / (RATE as int) < 0x1_0000_0000) by (nonlinear_arith)
            requires
                0 <= p < rate.len() * RATE,
                rate.len() * RATE < 0x1_0000_0000 * RATE,
                p == RATE * (p / (RATE as int)) + p % (RATE as int),
                0 <= p % (RATE as int) < RATE,
        ;
        assert(refs[i] == position_ref(p));
    }
}

/// Every greedy position holds the byte it was matched for.
pub proof fn lemma_greedy_positions_match(rate: Seq<Seq<u8>>, squeeze: Seq<u8>)
    ensures
        greedy_positions(rate, squeeze) matches Some(ps) ==> forall|i: int|
            0 <= i < ps.len() && i < squeeze.len() ==> rate_at(rate, #[trigger] ps[i]) == squeeze[i],
    decreases squeeze.len(),
{
    if squeeze.len() > 0 {
        let init = squeeze.drop_last();
        lemma_greedy_positions_match(rate, init);
        lemma_greedy_positions_bounds(rate, init);
        match greedy_positions(rate, init) {
            None => {},
            Some(ps) => {
                let start = if ps.len() == 0 { 0 } else { ps.last() + 1 };
                lemma_next_match_range(rate, start, squeeze.last());
                match next_match(rate, start, squeeze.last()) {
                    None => {},
                    Some(p) => {
                        let qs = ps.push(p);
                        assert forall|i: int| 0 <= i < qs.len() && i < squeeze.len() implies rate_at(rate, #[trigger] qs[i]) == squeeze[i] by {
                            if i < ps.len() {
                                assert(qs[i] == ps[i]);
                                assert(squeeze[i] == init[i]);
                            }
                        }
                    },
                }
            },
        }
    }
}


/// Stepping a stream position by one byte: the block count grows exactly when the offset
/// wraps.
proof fn lemma_rate_step(x: int)
    requires
        x >= 0,
    ensures
        x % (RATE as int) + 1 == RATE ==> (x + 1) / (RATE as int) == x / (RATE as int) + 1 && (x + 1) % (RATE as int) == 0,
        x % (RATE as int) + 1 < RATE ==> (x + 1) / (RATE as int) == x / (RATE as int) && (x + 1) % (RATE as int) == x % (RATE as int) + 1,
{
    let r = RATE as int;
    vstd::arithmetic::div_mod::lemma_fundamental_div_mod(x, r);
    vstd::arithmetic::div_mod::lemma_mod_bound(x, r);
    if x % r + 1 == r {
        vstd::arithmetic::div_mod::lemma_fundamental_div_mod_converse(x + 1, r, x / r + 1, 0);
    } else {
        vstd::arithmetic::div_mod::lemma_fundamental_div_mod_converse(x + 1, r, x / r, x % r + 1);
    }
}

/// Absorbing `data` from rate position `d` processes `(d + |data|) / RATE` blocks and leaves
/// the position at `(d + |data|) % RATE`.
pub proof fn lemma_absorb_counts(m: SpongeView, data: Seq<u8>)
    requires
        0 <= m.dptr < RATE,
        m.inputs.len() == m.rates.len(),
    ensures
        sponge_absorb(m, data).inputs.len() == m.inputs.len() + (m.dptr + data.len()) / (RATE as int),
        sponge_absorb(m, data).rates.len() == sponge_absorb(m, data).inputs.len(),
        sponge_absorb(m, data).dptr == (m.dptr + data.len()) % (RATE as int),
    decreases data.len(),
{
    if data.len() == 0 {
        vstd::arithmetic::div_mod::lemma_small_mod(m.dptr as nat, RATE as nat);
    } else {
        lemma_absorb_counts(m, data.drop_last());
        lemma_rate_step(m.dptr + data.len() - 1);
    }
}

/// Extracting `n > 0` bytes from rate position `d` processes `(d + n - 1) / RATE` blocks.
pub proof fn lemma_extract_counts(m: SpongeView, n: nat)
    requires
        0 <= m.dptr <= RATE,
        m.inputs.len() == m.rates.len(),
        n > 0,
    ensures
        sponge_extract(m, n).inputs.len() == m.inputs.len() + (m.dptr + n - 1) / (RATE as int),
        sponge_extract(m, n).rates.len() == sponge_extract(m, n).inputs.len(),
        sponge_extract(m, n).dptr == (m.dptr + n - 1) % (RATE as int) + 1,
    decreases n,
{
    if n == 1 {
        assert(sponge_extract(m, 0) == m);
        if m.dptr < RATE {
            vstd::arithmetic::div_mod::lemma_small_mod(m.dptr as nat, RATE as nat);
        }
    } else {
        lemma_extract_counts(m, (n - 1) as nat);
        lemma_rate_step(m.dptr + n - 2);
    }
}

/// The simulator runs `(|nonce| + |msg|) / RATE` absorbing blocks and 23 squeezing blocks.
pub proof fn lemma_sponge_run_blocks(msg: Seq<u8>, nonce: Seq<u8>)
    ensures
        sponge_run(msg, nonce).inputs.len() == (nonce.len() + msg.len()) as int / (RATE as int) + 23,
        sponge_run(msg, nonce).rates.len() == sponge_run(msg, nonce).inputs.len(),
{
    let r = RATE as int;
    let m0 = sponge_init();
    lemma_absorb_counts(m0, nonce);
    let m1 = sponge_absorb(m0, nonce);
    vstd::arithmetic::div_mod::lemma_mod_bound(nonce.len() as int, r);
    lemma_absorb_counts(m1, msg);
    let m2 = sponge_absorb(m1, msg);
    lemma_extract_counts(sponge_flip(m2), SHAKE_SQUEEZE_LEN as nat);
    let n = nonce.len() as int;
    let k = msg.len() as int;
    vstd::arithmetic::div_mod::lemma_fundamental_div_mod(n, r);
    vstd::arithmetic::div_mod::lemma_fundamental_div_mod(n % r + k, r);
    vstd::arithmetic::div_mod::lemma_mod_bound(n % r + k, r);
    vstd::arithmetic::div_mod::lemma_fundamental_div_mod_converse(n + k, r, n / r + (n % r + k) / r, (n % r + k) % r);
}

/// Result of [`hash_to_point`]: `hm` with the simulator's Keccak-f records and squeeze provenance.
#[derive(Clone, Debug)]
pub struct HashToPointResult {
    pub hm: [u16; N],
    pub squeeze: Vec<u8>,
    /// State before each `process_block`.
    pub keccak_inputs: Vec<[u64; 25]>,
    /// Rate bytes after each `process_block`.
    pub rate_after_perm: Vec<[u8; RATE]>,
    /// Sponge location of each squeeze byte.
    pub squeeze_byte_refs: Vec<SqueezeByteRef>,
}

/// Run the simulator over `nonce ‖ msg`: absorb, pad, extract `SHAKE_SQUEEZE_LEN` bytes.
fn run_sponge(msg: &[u8], nonce: &[u8]) -> (st: ShakeState)
    ensures
        st.view() == sponge_run(msg@, nonce@),
        st.inv(),
{
    let mut st = ShakeState::new();
    st.inject(nonce);
    st.inject(msg);
    st.flip();
    let mut out: Vec<u8> = vec![0u8; SHAKE_SQUEEZE_LEN];
    st.extract(out.as_mut_slice());
    st
}

/// `hm = H(msg, nonce)` from the SHAKE256 `squeeze` of `nonce ‖ msg`, with the simulator's
/// Keccak-f records and the location of each squeeze byte in the rate snapshots (empty when
/// some byte is not found).
pub fn hash_to_point(msg: &[u8], nonce: &[u8], squeeze: Vec<u8>) -> (r: HashToPointResult)
    requires
        squeeze_suffices(squeeze@),
    ensures
        r.hm@ == hash_to_point_coeffs(squeeze@),
        r.squeeze@ == squeeze@,
        lanes_view(r.keccak_inputs@) == sponge_run(msg@, nonce@).inputs,
        rates_view(r.rate_after_perm@) == sponge_run(msg@, nonce@).rates,
        r.squeeze_byte_refs@ == match squeeze_refs_spec(sponge_run(msg@, nonce@).rates, squeeze@) {
            Some(refs) => refs,
            None => Seq::empty(),
        },
        r.keccak_inputs@.len() == (nonce@.len() + msg@.len()) as int / (RATE as int) + 23,
{
    let hm = squeeze_to_coeffs(squeeze.as_slice());
    let st = run_sponge(msg, nonce);
    proof {
        lemma_sponge_run_blocks(msg@, nonce@);
    }
    let refs = match compute_squeeze_byte_refs(st.rate_after_perm.as_slice(), squeeze.as_slice()) {
        Some(v) => v,
        None => Vec::new(),
    };
    HashToPointResult {
        hm,
        squeeze,
        keccak_inputs: st.keccak_inputs,
        rate_after_perm: st.rate_after_perm,
        squeeze_byte_refs: refs,
    }
}

/// Rate byte at `(block, offset)`.
pub fn rate_byte(result: &HashToPointResult, block: u32, offset: u32) -> (b: u8)
    requires
        block < result.rate_after_perm@.len(),
        offset < RATE,
    ensures
        b == result.rate_after_perm@[block as int]@[offset as int],
{
    result.rate_after_perm[block as usize][offset as usize]
}

/// The references checked in order up to the first mismatch all lie in the rate records.
pub open spec fn provenance_reads_in_range(result: HashToPointResult) -> bool {
    let rates = rates_view(result.rate_after_perm@);
    let refs = result.squeeze_byte_refs@;
    refs.len() == result.squeeze@.len() ==> forall|i: int|
        0 <= i < refs.len() ==> (forall|j: int| 0 <= j < i ==> ref_reads(rates, #[trigger] refs[j], result.squeeze@[j]))
            ==> (#[trigger] refs[i]).block < rates.len() && refs[i].offset < RATE
}

/// Reference `r` lies in the rate records and reads byte `b`.
pub open spec fn ref_reads(rates: Seq<Seq<u8>>, r: SqueezeByteRef, b: u8) -> bool {
    &&& r.block < rates.len()
    &&& r.offset < RATE
    &&& rates[r.block as int][r.offset as int] == b
}

/// Every squeeze byte is read back at its recorded `(block, offset)`.
pub fn verify_squeeze_provenance(result: &HashToPointResult) -> (ok: bool)
    requires
        provenance_reads_in_range(*result),
    ensures
        ok == refs_read_squeeze(rates_view(result.rate_after_perm@), result.squeeze@, result.squeeze_byte_refs@),
{
    let ghost rates = rates_view(result.rate_after_perm@);
    if result.squeeze_byte_refs.len() != result.squeeze.len() {
        return false;
    }
    let mut i: usize = 0;
    while i < result.squeeze.len()
        invariant
            rates == rates_view(result.rate_after_perm@),
            provenance_reads_in_range(*result),
            result.squeeze_byte_refs@.len() == result.squeeze@.len(),
            i <= result.squeeze@.len(),
            forall|j: int| 0 <= j < i ==> ref_reads(rates, #[trigger] result.squeeze_byte_refs@[j], result.squeeze@[j]),
        decreases result.squeeze@.len() - i,
    {
        let pref = result.squeeze_byte_refs[i];
        proof {
            assert(pref.block < rates.len() && pref.offset < RATE);
        }
        let b = rate_byte(result, pref.block, pref.offset);
        if b != result.squeeze[i] {
            proof {
                assert(!ref_reads(rates, result.squeeze_byte_refs@[i as int], result.squeeze@[i as int]));
            }
            return false;
        }
        i = i + 1;
    }
    true
}

/// Number of `process_block` calls during `hash_to_point(msg, nonce)`.
pub fn count_keccak_blocks(msg: &[u8], nonce: &[u8]) -> (n: usize)
    ensures
        n == sponge_run(msg@, nonce@).inputs.len(),
        n == (nonce@.len() + msg@.len()) as int / (RATE as int) + 23,
{
    let st = run_sponge(msg, nonce);
    proof {
        lemma_sponge_run_blocks(msg@, nonce@);
    }
    st.keccak_inputs.len()
}


/// References found by greedy matching pass the provenance check: whenever
/// `compute_squeeze_byte_refs` succeeds on a result's rate records and squeeze,
/// `verify_squeeze_provenance` accepts them.
pub proof fn lemma_found_refs_pass_provenance(result: HashToPointResult)
    requires
        result.rate_after_perm@.len() < 0x1_0000_0000,
        squeeze_refs_spec(rates_view(result.rate_after_perm@), result.squeeze@) == Some(result.squeeze_byte_refs@),
    ensures
        provenance_reads_in_range(result),
        refs_read_squeeze(rates_view(result.rate_after_perm@), result.squeeze@, result.squeeze_byte_refs@),
{
    let rates = rates_view(result.rate_after_perm@);
    assert forall|b: int| 0 <= b < rates.len() implies (#[trigger] rates[b]).len() == RATE by {
        assert(rates[b] == result.rate_after_perm@[b]@);
    }
    lemma_squeeze_refs_read_back(rates, result.squeeze@);
}


/// Absorbing `a` and then `b` is absorbing `a ‖ b`: the simulator's run over the nonce and then
/// the message is the sponge over `nonce ‖ msg`.
pub proof fn lemma_absorb_concat(m: SpongeView, a: Seq<u8>, b: Seq<u8>)
    ensures
        sponge_absorb(sponge_absorb(m, a), b) == sponge_absorb(m, a + b),
    decreases b.len(),
{
    if b.len() == 0 {
        assert(a + b =~= a);
    } else {
        lemma_absorb_concat(m, a, b.drop_last());
        assert((a + b).drop_last() =~= a + b.drop_last());
        assert((a + b).last() == b.last());
    }
}

/// The simulator's run and squeeze are those of the padded sponge over `nonce ‖ msg`.
pub proof fn lemma_sponge_run_concat(msg: Seq<u8>, nonce: Seq<u8>)
    ensures
        sponge_run(msg, nonce) == sponge_extract(sponge_flip(sponge_absorb(sponge_init(), nonce + msg)),
            SHAKE_SQUEEZE_LEN as nat),
        sponge_squeeze(msg, nonce) == sponge_output(sponge_flip(sponge_absorb(sponge_init(), nonce + msg)),
            SHAKE_SQUEEZE_LEN as nat),
{
    lemma_absorb_concat(sponge_init(), nonce, msg);
}

/// Squeezing from the padded sponge `m0` has read `n` bytes and reached `m`: the records only
/// grew, the next byte lies at flat position `|m0.rates| · RATE + n` of the records, and when
/// the rate is not exhausted the last record is the rate of the current lanes.
spec fn squeeze_inv(m0: SpongeView, m: SpongeView, n: nat) -> bool {
    &&& 0 <= m.dptr <= RATE
    &&& m.inputs.len() == m.rates.len()
    &&& m0.rates.len() <= m.rates.len()
    &&& (m.rates.len() - 1) * RATE + m.dptr == m0.rates.len() * RATE + n
    &&& m.dptr < RATE ==> m.rates.len() >= 1 && m.rates.last() == rate_bytes(m.a)
}

/// Flat position `b · RATE + o` with `o < RATE` is byte `o` of record `b`.
proof fn lemma_flat_position(b: int, o: int)
    requires
        b >= 0,
        0 <= o < RATE,
    ensures
        (b * RATE + o) / (RATE as int) == b,
        (b * RATE + o) % (RATE as int) == o,
{
    vstd::arithmetic::div_mod::lemma_fundamental_div_mod_converse(b * RATE + o, RATE as int, b, o);
}

/// Pushing a record keeps every byte at a flat position inside the old records.
proof fn lemma_rate_at_push(rates: Seq<Seq<u8>>, x: Seq<u8>, p: int)
    requires
        0 <= p < rates.len() * RATE,
    ensures
        rate_at(rates.push(x), p) == rate_at(rates, p),
{
    vstd::arithmetic::div_mod::lemma_fundamental_div_mod(p, RATE as int);
    assert(p / (RATE as int) < rates.len()) by (nonlinear_arith)
        requires
            0 <= p < rates.len() * RATE,
            p == RATE * (p / (RATE as int)) + p % (RATE as int),
            0 <= p % (RATE as int) < RATE,
    ;
    vstd::arithmetic::div_mod::lemma_div_pos_is_pos(p, RATE as int);
}

/// One extraction step reads the byte at the next flat position and keeps the invariant.
proof fn lemma_squeeze_step(m0: SpongeView, m: SpongeView, n: nat)
    requires
        squeeze_inv(m0, m, n),
    ensures
        squeeze_inv(m0, extract_step(m).0, n + 1),
        extract_step(m).0.rates.take(m.rates.len() as int) == m.rates,
        extract_step(m).1 == rate_at(extract_step(m).0.rates, m0.rates.len() * RATE + n),
        m0.rates.len() * RATE + n < extract_step(m).0.rates.len() * RATE,
{
    let r = RATE as int;
    let m1 = extract_step(m).0;
    if m.dptr == RATE {
        let out = falcon_keccakf_spec(m.a);
        assert(m1.rates == m.rates.push(rate_bytes(out)));
        assert(m1.rates.take(m.rates.len() as int) =~= m.rates);
        lemma_flat_position(m.rates.len() as int, 0);
    } else {
        assert(m1.rates.take(m.rates.len() as int) =~= m.rates);
        lemma_flat_position(m.rates.len() - 1, m.dptr);
    }
}

/// Squeezing `n` bytes from a padded sponge reads byte `j` at flat position
/// `|m0.rates| · RATE + j` of the final records.
proof fn lemma_squeeze_positions(m0: SpongeView, n: nat)
    requires
        m0.dptr == RATE,
        m0.inputs.len() == m0.rates.len(),
    ensures
        squeeze_inv(m0, sponge_extract(m0, n), n),
        sponge_output(m0, n).len() == n,
        m0.rates.len() * RATE + n <= sponge_extract(m0, n).rates.len() * RATE,
        forall|j: int| 0 <= j < n ==> #[trigger] sponge_output(m0, n)[j]
            == rate_at(sponge_extract(m0, n).rates, m0.rates.len() * RATE + j),
    decreases n,
{
    if n > 0 {
        let k = (n - 1) as nat;
        lemma_squeeze_positions(m0, k);
        let m = sponge_extract(m0, k);
        lemma_squeeze_step(m0, m, k);
        let m1 = extract_step(m).0;
        let base = m0.rates.len() * RATE;
        assert forall|j: int| 0 <= j < n implies #[trigger] sponge_output(m0, n)[j]
            == rate_at(m1.rates, base + j) by {
            if j < k {
                assert(sponge_output(m0, n)[j] == sponge_output(m0, k)[j]);
                assert(m1.rates == m.rates + m1.rates.skip(m.rates.len() as int));
                let extra = m1.rates.skip(m.rates.len() as int);
                if extra.len() == 0 {
                    assert(m1.rates =~= m.rates);
                } else {
                    assert(m1.rates =~= m.rates.push(extra[0]));
                    lemma_rate_at_push(m.rates, extra[0], base + j);
                }
            }
        }
    }
}

/// The next match from `start` exists when some position `q ≥ start` holds the byte, and lies
/// at or before `q`.
proof fn lemma_next_match_found(rate: Seq<Seq<u8>>, start: int, q: int, byte: u8)
    requires
        0 <= start <= q < rate.len() * RATE,
        rate_at(rate, q) == byte,
    ensures
        next_match(rate, start, byte) matches Some(p) && start <= p <= q,
    decreases q - start,
{
    if rate_at(rate, start) != byte {
        lemma_next_match_found(rate, start + 1, q, byte);
    }
}

/// Greedy matching succeeds when the bytes lie, in order, at consecutive positions from
/// `base`, and each greedy position is at or before the consecutive one.
proof fn lemma_greedy_consecutive(rate: Seq<Seq<u8>>, squeeze: Seq<u8>, base: int)
    requires
        base >= 0,
        base + squeeze.len() <= rate.len() * RATE,
        forall|j: int| 0 <= j < squeeze.len() ==> rate_at(rate, base + j) == #[trigger] squeeze[j],
    ensures
        greedy_positions(rate, squeeze) matches Some(ps) && ps.len() == squeeze.len()
            && (ps.len() > 0 ==> ps.last() <= base + squeeze.len() - 1),
    decreases squeeze.len(),
{
    if squeeze.len() > 0 {
        let init = squeeze.drop_last();
        assert forall|j: int| 0 <= j < init.len() implies rate_at(rate, base + j) == #[trigger] init[j] by {
            assert(init[j] == squeeze[j]);
        }
        lemma_greedy_consecutive(rate, init, base);
        lemma_greedy_positions_bounds(rate, init);
        let ps = greedy_positions(rate, init)->0;
        let start = if ps.len() == 0 { 0 } else { ps.last() + 1 };
        let q = base + squeeze.len() - 1;
        assert(rate_at(rate, q) == squeeze[squeeze.len() - 1]);
        lemma_next_match_found(rate, start, q, squeeze.last());
    }
}

/// A squeeze that is the simulator's own output lies, in order, in the simulator's rate
/// records: greedy matching finds every byte of it.
pub proof fn lemma_simulated_squeeze_matches(msg: Seq<u8>, nonce: Seq<u8>)
    ensures
        squeeze_refs_spec(sponge_run(msg, nonce).rates, sponge_squeeze(msg, nonce)) is Some,
{
    let m0 = sponge_init();
    lemma_absorb_counts(m0, nonce);
    let m1 = sponge_absorb(m0, nonce);
    vstd::arithmetic::div_mod::lemma_mod_bound(nonce.len() as int, RATE as int);
    lemma_absorb_counts(m1, msg);
    let mp = sponge_padded(msg, nonce);
    let n = SHAKE_SQUEEZE_LEN as nat;
    lemma_squeeze_positions(mp, n);
    let base = mp.rates.len() * RATE;
    let rates = sponge_run(msg, nonce).rates;
    let sq = sponge_squeeze(msg, nonce);
    assert forall|j: int| 0 <= j < sq.len() implies rate_at(rates, base + j) == #[trigger] sq[j] by {
        assert(sq[j] == sponge_output(mp, n)[j]);
    }
    lemma_greedy_consecutive(rates, sq, base);
}

/// Provenance of a simulated squeeze: for a result of `hash_to_point(msg, nonce, squeeze)`
/// whose squeeze is the simulator's own SHAKE256 output, the recorded references all read
/// back their squeeze bytes, so `verify_squeeze_provenance` accepts the result.
pub proof fn lemma_hash_to_point_provenance(result: HashToPointResult, msg: Seq<u8>, nonce: Seq<u8>)
    requires
        result.squeeze@ == sponge_squeeze(msg, nonce),
        rates_view(result.rate_after_perm@) == sponge_run(msg, nonce).rates,
        result.squeeze_byte_refs@ == match squeeze_refs_spec(sponge_run(msg, nonce).rates, result.squeeze@) {
            Some(refs) => refs,
            None => Seq::empty(),
        },
        result.rate_after_perm@.len() < 0x1_0000_0000,
    ensures
        provenance_reads_in_range(result),
        refs_read_squeeze(rates_view(result.rate_after_perm@), result.squeeze@, result.squeeze_byte_refs@),
{
    lemma_simulated_squeeze_matches(msg, nonce);
    lemma_found_refs_pass_provenance(result);
}

/// The SHAKE256 padding of `d` as whole rate blocks: `d`, then the domain byte `0x1f` at
/// position `|d|`, zeros, and `0x80` XOR-ed into the last byte of the final block.
pub open spec fn shake_padded(d: Seq<u8>) -> Seq<u8> {
    let len = ((d.len() as int) / (RATE as int) + 1) * RATE;
    Seq::new(len as nat, |j: int|
        ((if j < d.len() { d[j] } else { 0u8 }) ^ (if j == d.len() { 0x1fu8 } else { 0u8 }))
            ^ (if j == len - 1 { 0x80u8 } else { 0u8 }))
}

/// XOR identities on bytes.
proof fn lemma_u8_xor(x: u8, y: u8, z: u8, w: u8)
    by (bit_vector)
    ensures
        x ^ 0u8 == x,
        ((x ^ y) ^ z) ^ w == x ^ ((y ^ z) ^ w),
{
}

/// Reading byte `s2` of a lane after XOR-ing `b` into byte `s1`.
proof fn lemma_lane_xor_bits(v: u64, b: u8, s1: u64, s2: u64)
    by (bit_vector)
    requires
        s1 < 64,
        s2 < 64,
        s1 % 8 == 0,
        s2 % 8 == 0,
    ensures
        s1 == s2 ==> (((v ^ ((b as u64) << s1)) >> s2) & 0xffu64) as u8 == (((v >> s2) & 0xffu64) as u8) ^ b,
        s1 != s2 ==> (((v ^ ((b as u64) << s1)) >> s2) & 0xffu64) as u8 == ((v >> s2) & 0xffu64) as u8,
{
}

/// XOR-ing `b` into byte `k` of the state XORs it into that byte alone.
proof fn lemma_lane_byte_xor(a: Seq<u64>, k: int, b: u8, i: int)
    requires
        a.len() == 25,
        0 <= k < 200,
        0 <= i < 200,
    ensures
        lane_byte(xor_byte(a, k, b), i) == lane_byte(a, i) ^ (if i == k { b } else { 0u8 }),
{
    lemma_u8_xor(lane_byte(a, i), 0, 0, 0);
    if i / 8 == k / 8 {
        let s1 = (8 * (k % 8)) as u64;
        let s2 = (8 * (i % 8)) as u64;
        assert(s1 % 8 == 0 && s2 % 8 == 0);
        assert((s1 == s2) == (i == k));
        lemma_lane_xor_bits(a[k / 8], b, s1, s2);
    }
}

/// The rate bytes the absorbed block `k` is XOR-ed onto: zero for the first block, the output
/// rate of the previous permutation after it.
spec fn prev_rate(rates: Seq<Seq<u8>>, k: int, i: int) -> u8 {
    if k == 0 { 0u8 } else { rates[k - 1][i] }
}

/// After absorbing `d` from the fresh sponge: `|d| / RATE` blocks were processed, block `k`'s
/// recorded input is the previous rate XOR the block's bytes, and the current lanes are the
/// last rate XOR the bytes of the partial block.
spec fn absorb_inv(d: Seq<u8>, m: SpongeView) -> bool {
    let b = (d.len() as int) / (RATE as int);
    let r = (d.len() as int) % (RATE as int);
    &&& m.a.len() == 25
    &&& m.inputs.len() == b
    &&& m.rates.len() == b
    &&& m.dptr == r
    &&& forall|k: int, i: int| 0 <= k < b && 0 <= i < RATE
        ==> #[trigger] lane_byte(m.inputs[k], i) == prev_rate(m.rates, k, i) ^ d[k * RATE + i]
    &&& forall|i: int| 0 <= i < RATE
        ==> #[trigger] lane_byte(m.a, i) == prev_rate(m.rates, b, i) ^ (if i < r { d[b * RATE + i] } else { 0u8 })
}

/// The absorption invariant holds after absorbing any `d` from the fresh sponge.
proof fn lemma_absorb_inv(d: Seq<u8>)
    ensures
        absorb_inv(d, sponge_absorb(sponge_init(), d)),
    decreases d.len(),
{
    let rr = RATE as int;
    if d.len() == 0 {
        let m = sponge_init();
        assert forall|i: int| 0 <= i < RATE implies #[trigger] lane_byte(m.a, i) == prev_rate(m.rates, 0, i) ^ 0u8 by {
            assert(m.a[i / 8] == 0u64);
            let sh = (8 * (i % 8)) as u64;
            assert(((0u64 >> sh) & 0xffu64) as u8 == 0u8) by (bit_vector);
            lemma_u8_xor(0u8, 0, 0, 0);
        }
    } else {
        let d0 = d.drop_last();
        let byte = d.last();
        lemma_absorb_inv(d0);
        let m = sponge_absorb(sponge_init(), d0);
        let n = d0.len() as int;
        let b = n / rr;
        let r = n % rr;
        lemma_rate_step(n);
        assert(d.len() == n + 1);
        assert forall|j: int| 0 <= j < n implies d[j] == #[trigger] d0[j] by {}
        assert(d[b * RATE + r] == byte) by {
            vstd::arithmetic::div_mod::lemma_fundamental_div_mod(n, rr);
        }
        let a1 = xor_byte(m.a, r, byte);
        assert forall|i: int| 0 <= i < RATE implies #[trigger] lane_byte(a1, i)
            == prev_rate(m.rates, b, i) ^ (if i <= r { d[b * RATE + i] } else { 0u8 }) by {
            lemma_lane_byte_xor(m.a, r, byte, i);
            let pr = prev_rate(m.rates, b, i);
            if i < r {
                assert(b * RATE + i < n) by {
                    vstd::arithmetic::div_mod::lemma_fundamental_div_mod(n, rr);
                }
                lemma_u8_xor(pr ^ d0[b * RATE + i], 0, 0, 0);
            } else if i == r {
                lemma_u8_xor(pr, 0, 0, 0);
            } else {
                lemma_u8_xor(pr ^ 0u8, 0, 0, 0);
                lemma_u8_xor(pr, 0, 0, 0);
            }
        }
        let m1 = SpongeView { a: a1, dptr: m.dptr + 1, ..m };
        let res = sponge_absorb(sponge_init(), d);
        assert(res == absorb_byte(m, byte));
        assert forall|k: int, i: int| 0 <= k < b && 0 <= i < RATE implies
            #[trigger] lane_byte(m.inputs[k], i) == prev_rate(m.rates, k, i) ^ d[k * RATE + i] by {
            assert(lane_byte(m.inputs[k], i) == prev_rate(m.rates, k, i) ^ d0[k * RATE + i]);
            assert(k * RATE + i < n) by {
                vstd::arithmetic::div_mod::lemma_fundamental_div_mod(n, rr);
                assert(k * RATE + i < b * RATE) by (nonlinear_arith)
                    requires
                        k < b,
                        i < RATE,
                ;
            }
        }
        if r + 1 < RATE {
            assert(res == m1);
        } else {
            let out = falcon_keccakf_spec(a1);
            assert(out.len() == 25);
            assert(res.inputs == m.inputs.push(a1));
            assert(res.rates == m.rates.push(rate_bytes(out)));
            assert(res.a == out);
            assert forall|k: int, i: int| 0 <= k < b + 1 && 0 <= i < RATE implies
                #[trigger] lane_byte(res.inputs[k], i) == prev_rate(res.rates, k, i) ^ d[k * RATE + i] by {
                if k < b {
                    assert(res.inputs[k] == m.inputs[k]);
                    if k > 0 {
                        assert(res.rates[k - 1] == m.rates[k - 1]);
                    }
                } else {
                    assert(res.inputs[k] == a1);
                    if k > 0 {
                        assert(res.rates[k - 1] == m.rates[k - 1]);
                    }
                }
            }
            assert forall|i: int| 0 <= i < RATE implies #[trigger] lane_byte(res.a, i)
                == prev_rate(res.rates, b + 1, i) ^ 0u8 by {
                lemma_u8_xor(lane_byte(out, i), 0, 0, 0);
            }
        }
    }
}

/// Later extraction keeps every Keccak-f input and rate snapshot recorded earlier.
proof fn lemma_extract_keeps(m: SpongeView, j: nat, n: nat)
    requires
        j <= n,
    ensures
        sponge_extract(m, n).inputs.len() >= sponge_extract(m, j).inputs.len(),
        sponge_extract(m, n).rates.len() >= sponge_extract(m, j).rates.len(),
        forall|k: int| 0 <= k < sponge_extract(m, j).inputs.len()
            ==> #[trigger] sponge_extract(m, n).inputs[k] == sponge_extract(m, j).inputs[k],
        forall|k: int| 0 <= k < sponge_extract(m, j).rates.len()
            ==> #[trigger] sponge_extract(m, n).rates[k] == sponge_extract(m, j).rates[k],
    decreases n - j,
{
    if n > j {
        lemma_extract_keeps(m, j, (n - 1) as nat);
        let prev = sponge_extract(m, (n - 1) as nat);
        assert(sponge_extract(m, n) == extract_step(prev).0);
    }
}

/// The SHAKE256 absorption of the simulator: for `hash_to_point(msg, nonce)`, with
/// `d = nonce ‖ msg` padded to whole rate blocks, the `k`-th recorded Keccak-f input, for every
/// `k` up to and including the padded final block, has as rate byte `i` the rate byte `i` of the
/// previous permutation's output (zero before the first) XOR byte `k · RATE + i` of the padded
/// input.
pub proof fn lemma_sponge_run_absorbs(msg: Seq<u8>, nonce: Seq<u8>)
    ensures
        ({
            let d = nonce + msg;
            let run = sponge_run(msg, nonce);
            let b = (d.len() as int) / (RATE as int);
            &&& run.inputs.len() > b
            &&& run.rates.len() >= b
            &&& forall|k: int, i: int| 0 <= k <= b && 0 <= i < RATE ==>
                #[trigger] lane_byte(run.inputs[k], i)
                    == (if k == 0 { 0u8 } else { run.rates[k - 1][i] }) ^ shake_padded(d)[k * RATE + i]
        }),
{
    let rr = RATE as int;
    let d = nonce + msg;
    lemma_absorb_concat(sponge_init(), nonce, msg);
    let sm = sponge_absorb(sponge_init(), d);
    lemma_absorb_inv(d);
    let b = (d.len() as int) / rr;
    let r = (d.len() as int) % rr;
    vstd::arithmetic::div_mod::lemma_fundamental_div_mod(d.len() as int, rr);
    let f = sponge_flip(sm);
    assert(sponge_padded(msg, nonce) == f);
    let pad = shake_padded(d);
    let a1 = xor_byte(sm.a, r, 0x1f);
    assert(f.a == xor_byte(a1, 135, 0x80));
    assert forall|i: int| 0 <= i < RATE implies #[trigger] lane_byte(f.a, i)
        == prev_rate(sm.rates, b, i) ^ pad[b * RATE + i] by {
        lemma_lane_byte_xor(sm.a, r, 0x1f, i);
        lemma_lane_byte_xor(a1, 135, 0x80, i);
        let dv = if i < r { d[b * RATE + i] } else { 0u8 };
        let p1 = if i == r { 0x1fu8 } else { 0u8 };
        let p2 = if i == 135 { 0x80u8 } else { 0u8 };
        lemma_u8_xor(prev_rate(sm.rates, b, i), dv, p1, p2);
        let j = b * RATE + i;
        assert((j < d.len()) == (i < r));
        assert((j == d.len()) == (i == r));
        assert(pad[j] == (dv ^ p1) ^ p2);
    }
    let n = SHAKE_SQUEEZE_LEN as nat;
    lemma_extract_keeps(f, 1, n);
    let e1 = sponge_extract(f, 1);
    assert(sponge_extract(f, 0) == f);
    assert(e1.inputs == f.inputs.push(f.a));
    assert(e1.rates.len() == f.rates.len() + 1);
    assert forall|k: int| 0 <= k < f.rates.len() implies #[trigger] e1.rates[k] == f.rates[k] by {}
    let run = sponge_run(msg, nonce);
    assert(run == sponge_extract(f, n));
    assert forall|k: int, i: int| 0 <= k <= b && 0 <= i < RATE implies
        #[trigger] lane_byte(run.inputs[k], i)
            == (if k == 0 { 0u8 } else { run.rates[k - 1][i] }) ^ pad[k * RATE + i] by {
        assert(run.inputs[k] == e1.inputs[k]);
        if k > 0 {
            assert(run.rates[k - 1] == e1.rates[k - 1]);
            assert(e1.rates[k - 1] == sm.rates[k - 1]);
        }
        if k < b {
            assert(e1.inputs[k] == sm.inputs[k]);
            assert(lane_byte(sm.inputs[k], i) == prev_rate(sm.rates, k, i) ^ d[k * RATE + i]);
            let j = k * RATE + i;
            assert(j < b * RATE) by (nonlinear_arith)
                requires
                    j == k * RATE + i,
                    0 <= k < b,
                    0 <= i < RATE,
            ;
            lemma_u8_xor(d[j], 0, 0, 0);
            assert(pad[j] == (d[j] ^ 0u8) ^ 0u8);
        } else {
            assert(e1.inputs[k] == f.a);
        }
    }
}

} // verus!
