//! Statement digests: a domain tag, the lengths and the full statement encoded as field
//! elements, hashed with the KoalaBear width-16 Poseidon2 padding-free sponge. The digest is
//! supplied as public values to every sub-proof so their transcripts are bound to one statement.
use vstd::prelude::*;
use crate::params::N;
use crate::field::{canonical, fe, f_from_u32, p};
use crate::witness::DualPolynomial;
use p3_field::{PrimeCharacteristicRing, PrimeField32};
use p3_koala_bear::{default_koalabear_poseidon2_16, KoalaBear, Poseidon2KoalaBear};
use p3_symmetric::{CryptographicHasher, PaddingFreeSponge};

verus! {

/// Field elements in a statement digest (the sponge's output length).
pub const FALCON_STATEMENT_DIGEST_LEN: usize = 8;

/// Domain tag of the parsed-verify statement digest (`"FAL2"`).
pub const STATEMENT_DIGEST_TAG: u32 = 0x4641_4C32;

/// Domain tag of the credential digest (`"FAL3"`).
pub const CREDENTIAL_DIGEST_TAG: u32 = 0x4641_4C33;

/// The output of `PaddingFreeSponge::<Poseidon2KoalaBear<16>, 16, 8, 8>` with the default
/// KoalaBear Poseidon2 permutation on the given canonical field elements.
pub uninterp spec fn poseidon2_sponge(input: Seq<u32>) -> Seq<u32>;

/// Hashes `input` with `p3_symmetric::PaddingFreeSponge::<Poseidon2KoalaBear<16>, 16, 8, 8>`
/// built on `p3_koala_bear::default_koalabear_poseidon2_16()` (`hash_iter`). The contract claims
/// only that the eight output elements, as canonical `u32`s, are the named function of the input.
#[verifier::external_body]
fn poseidon2_hash(input: &Vec<u32>) -> (out: [u32; 8])
    requires
        forall|i: int| 0 <= i < input@.len() ==> canonical(#[trigger] input@[i]),
    ensures
        out@ == poseidon2_sponge(input@),
{
    let hasher = PaddingFreeSponge::<Poseidon2KoalaBear<16>, 16, 8, 8>::new(default_koalabear_poseidon2_16());
    let out: [KoalaBear; 8] = hasher.hash_iter(input.iter().map(|x| KoalaBear::from_u32(*x)));
    out.map(|x| x.as_canonical_u32())
}

/// Bytes as field elements.
pub open spec fn byte_cells(b: Seq<u8>) -> Seq<u32> {
    b.map_values(|x: u8| x as u32)
}

/// Coefficients as field elements.
pub open spec fn coeff_cells(c: Seq<u16>) -> Seq<u32> {
    c.map_values(|x: u16| x as u32)
}

/// The field element `KoalaBear::from_u32(len as u32)` of a length.
pub open spec fn len_cell(len: nat) -> u32 {
    fe((len as u32) as int) as u32
}

/// Sponge input of the parsed-verify statement: tag, `N`, `|msg|`, `msg`, `pk`, `sig_pos`,
/// `sig_neg`, `hm`.
pub open spec fn statement_digest_input(pk: Seq<u16>, msg: Seq<u8>, sig_pos: Seq<u16>, sig_neg: Seq<u16>,
    hm: Seq<u16>) -> Seq<u32>
{
    seq![STATEMENT_DIGEST_TAG, N as u32, len_cell(msg.len())] + byte_cells(msg) + coeff_cells(pk)
        + coeff_cells(sig_pos) + coeff_cells(sig_neg) + coeff_cells(hm)
}

/// Sponge input of the credential statement: tag, `N`, `|msg|`, `msg`, `pk`, `hm`.
pub open spec fn credential_digest_input(pk: Seq<u16>, msg: Seq<u8>, hm: Seq<u16>) -> Seq<u32> {
    seq![CREDENTIAL_DIGEST_TAG, N as u32, len_cell(msg.len())] + byte_cells(msg) + coeff_cells(pk)
        + coeff_cells(hm)
}

/// Append `x` as field elements.
fn push_bytes(input: &mut Vec<u32>, x: &[u8])
    ensures
        final(input)@ == old(input)@ + byte_cells(x@),
{
    let ghost start = input@;
    let mut i: usize = 0;
    while i < x.len()
        invariant
            i <= x@.len(),
            input@ =~= start + byte_cells(x@.take(i as int)),
        decreases x@.len() - i,
    {
        input.push(x[i] as u32);
        proof {
            assert(byte_cells(x@.take(i as int + 1)) =~= byte_cells(x@.take(i as int)).push(x@[i as int] as u32));
        }
        i = i + 1;
    }
    proof {
        assert(x@.take(x@.len() as int) =~= x@);
    }
}

/// Append coefficients `c` as field elements.
fn push_coeffs(input: &mut Vec<u32>, c: &[u16])
    ensures
        final(input)@ == old(input)@ + coeff_cells(c@),
{
    let ghost start = input@;
    let mut i: usize = 0;
    while i < c.len()
        invariant
            i <= c@.len(),
            input@ =~= start + coeff_cells(c@.take(i as int)),
        decreases c@.len() - i,
    {
        input.push(c[i] as u32);
        proof {
            assert(coeff_cells(c@.take(i as int + 1)) =~= coeff_cells(c@.take(i as int)).push(c@[i as int] as u32));
        }
        i = i + 1;
    }
    proof {
        assert(c@.take(c@.len() as int) =~= c@);
    }
}

/// The common head: tag, `N`, `|msg|`.
fn digest_head(tag: u32, msg_len: usize) -> (input: Vec<u32>)
    ensures
        input@ == seq![tag, N as u32, len_cell(msg_len as nat)],
{
    let mut input: Vec<u32> = Vec::new();
    input.push(tag);
    input.push(N as u32);
    input.push(f_from_u32(msg_len as u32));
    proof {
        assert(input@ =~= seq![tag, N as u32, len_cell(msg_len as nat)]);
    }
    input
}

/// Digest of the statement `(pk, msg, sig)` with `hm = H(msg, nonce)`, as canonical field
/// elements.
pub fn falcon_statement_digest(pk: &[u16], msg: &[u8], sig: &DualPolynomial, hm: &[u16]) -> (d: [u32; 8])
    ensures
        d@ == poseidon2_sponge(statement_digest_input(pk@, msg@, sig.pos@, sig.neg@, hm@)),
{
    let mut input: Vec<u32> = digest_head(STATEMENT_DIGEST_TAG, msg.len());
    push_bytes(&mut input, msg);
    push_coeffs(&mut input, pk);
    push_coeffs(&mut input, sig.pos.as_slice());
    push_coeffs(&mut input, sig.neg.as_slice());
    push_coeffs(&mut input, hm);
    proof {
        lemma_digest_input_canonical(pk@, msg@, sig.pos@, sig.neg@, hm@);
        assert(input@ =~= statement_digest_input(pk@, msg@, sig.pos@, sig.neg@, hm@));
    }
    poseidon2_hash(&input)
}

/// Digest of the credential statement: public `(issuer pk, msg, hm)` only.
pub fn falcon_credential_verify_digest(pk: &[u16], msg: &[u8], hm: &[u16]) -> (d: [u32; 8])
    ensures
        d@ == poseidon2_sponge(credential_digest_input(pk@, msg@, hm@)),
{
    let mut input: Vec<u32> = digest_head(CREDENTIAL_DIGEST_TAG, msg.len());
    push_bytes(&mut input, msg);
    push_coeffs(&mut input, pk);
    push_coeffs(&mut input, hm);
    proof {
        lemma_credential_input_canonical(pk@, msg@, hm@);
        assert(input@ =~= credential_digest_input(pk@, msg@, hm@));
    }
    poseidon2_hash(&input)
}

/// Every element of a statement digest input is a canonical field element.
pub proof fn lemma_digest_input_canonical(pk: Seq<u16>, msg: Seq<u8>, sig_pos: Seq<u16>, sig_neg: Seq<u16>, hm: Seq<u16>)
    ensures
        forall|i: int| 0 <= i < statement_digest_input(pk, msg, sig_pos, sig_neg, hm).len()
            ==> canonical(#[trigger] statement_digest_input(pk, msg, sig_pos, sig_neg, hm)[i]),
{
    let s = statement_digest_input(pk, msg, sig_pos, sig_neg, hm);
    vstd::arithmetic::div_mod::lemma_mod_bound((msg.len() as u32) as int, p());
    assert forall|i: int| 0 <= i < s.len() implies canonical(#[trigger] s[i]) by {
        if i >= 3 {
            assert(s[i] < 0x1_0000);
        }
    }
}

/// Every element of a credential digest input is a canonical field element.
pub proof fn lemma_credential_input_canonical(pk: Seq<u16>, msg: Seq<u8>, hm: Seq<u16>)
    ensures
        forall|i: int| 0 <= i < credential_digest_input(pk, msg, hm).len()
            ==> canonical(#[trigger] credential_digest_input(pk, msg, hm)[i]),
{
    let s = credential_digest_input(pk, msg, hm);
    vstd::arithmetic::div_mod::lemma_mod_bound((msg.len() as u32) as int, p());
    assert forall|i: int| 0 <= i < s.len() implies canonical(#[trigger] s[i]) by {
        if i >= 3 {
            assert(s[i] < 0x1_0000);
        }
    }
}


/// Layout of the statement digest input: the tag, `N`, the message length, then each message
/// byte as the field element of its value `0..=255`, then the coefficients of `pk`, `sig_pos`,
/// `sig_neg` and `hm`, each as its value.
pub proof fn lemma_statement_digest_input_layout(pk: Seq<u16>, msg: Seq<u8>, sig_pos: Seq<u16>,
    sig_neg: Seq<u16>, hm: Seq<u16>)
    ensures
        ({
            let s = statement_digest_input(pk, msg, sig_pos, sig_neg, hm);
            let m = msg.len() as int;
            &&& s.len() == 3 + m + pk.len() + sig_pos.len() + sig_neg.len() + hm.len()
            &&& s[0] == 0x4641_4C32
            &&& s[1] == 1024
            &&& msg.len() < p() ==> s[2] == msg.len()
            &&& forall|i: int| 0 <= i < m ==> #[trigger] s[3 + i] == msg[i] as u32
            &&& forall|i: int| 0 <= i < pk.len() ==> #[trigger] s[3 + m + i] == pk[i] as u32
            &&& forall|i: int| 0 <= i < sig_pos.len() ==> #[trigger] s[3 + m + pk.len() + i] == sig_pos[i] as u32
            &&& forall|i: int| 0 <= i < sig_neg.len()
                ==> #[trigger] s[3 + m + pk.len() + sig_pos.len() + i] == sig_neg[i] as u32
            &&& forall|i: int| 0 <= i < hm.len()
                ==> #[trigger] s[3 + m + pk.len() + sig_pos.len() + sig_neg.len() + i] == hm[i] as u32
        }),
{
    if msg.len() < p() {
        assert((msg.len() as u32) as int == msg.len());
        vstd::arithmetic::div_mod::lemma_small_mod(msg.len(), p() as nat);
    }
}

/// Layout of the credential digest input: the tag, `N`, the message length, then each message
/// byte as the field element of its value, then the coefficients of `pk` and `hm`.
pub proof fn lemma_credential_digest_input_layout(pk: Seq<u16>, msg: Seq<u8>, hm: Seq<u16>)
    ensures
        ({
            let s = credential_digest_input(pk, msg, hm);
            let m = msg.len() as int;
            &&& s.len() == 3 + m + pk.len() + hm.len()
            &&& s[0] == 0x4641_4C33
            &&& s[1] == 1024
            &&& msg.len() < p() ==> s[2] == msg.len()
            &&& forall|i: int| 0 <= i < m ==> #[trigger] s[3 + i] == msg[i] as u32
            &&& forall|i: int| 0 <= i < pk.len() ==> #[trigger] s[3 + m + i] == pk[i] as u32
            &&& forall|i: int| 0 <= i < hm.len() ==> #[trigger] s[3 + m + pk.len() + i] == hm[i] as u32
        }),
{
    if msg.len() < p() {
        assert((msg.len() as u32) as int == msg.len());
        vstd::arithmetic::div_mod::lemma_small_mod(msg.len(), p() as nat);
    }
}

/// The statement encoding is injective: equal sponge inputs for statements with `N`-coefficient
/// polynomials and messages shorter than the field order come from equal statements.
pub proof fn lemma_statement_digest_input_injective(
    pk1: Seq<u16>, msg1: Seq<u8>, sp1: Seq<u16>, sn1: Seq<u16>, hm1: Seq<u16>,
    pk2: Seq<u16>, msg2: Seq<u8>, sp2: Seq<u16>, sn2: Seq<u16>, hm2: Seq<u16>,
)
    requires
        pk1.len() == N && sp1.len() == N && sn1.len() == N && hm1.len() == N,
        pk2.len() == N && sp2.len() == N && sn2.len() == N && hm2.len() == N,
        msg1.len() < p(),
        msg2.len() < p(),
        statement_digest_input(pk1, msg1, sp1, sn1, hm1) == statement_digest_input(pk2, msg2, sp2, sn2, hm2),
    ensures
        msg1 == msg2,
        pk1 == pk2,
        sp1 == sp2,
        sn1 == sn2,
        hm1 == hm2,
{
    let a = statement_digest_input(pk1, msg1, sp1, sn1, hm1);
    let b = statement_digest_input(pk2, msg2, sp2, sn2, hm2);
    assert((msg1.len() as u32) as int == msg1.len());
    assert((msg2.len() as u32) as int == msg2.len());
    vstd::arithmetic::div_mod::lemma_small_mod(msg1.len(), p() as nat);
    vstd::arithmetic::div_mod::lemma_small_mod(msg2.len(), p() as nat);
    assert(a[2] == len_cell(msg1.len()));
    assert(b[2] == len_cell(msg2.len()));
    assert(fe((msg1.len() as u32) as int) == msg1.len());
    assert(fe((msg2.len() as u32) as int) == msg2.len());
    assert(len_cell(msg1.len()) == msg1.len());
    assert(len_cell(msg2.len()) == msg2.len());
    assert(msg1.len() == msg2.len());
    assert(msg1.len() == msg2.len());
    let m = msg1.len() as int;
    let n = N as int;
    assert forall|i: int| 0 <= i < m implies msg1[i] == msg2[i] by {
        assert(a[3 + i] == b[3 + i]);
        assert(a[3 + i] == byte_cells(msg1)[i]);
        assert(b[3 + i] == byte_cells(msg2)[i]);
    }
    assert forall|i: int| 0 <= i < n implies pk1[i] == pk2[i] by {
        assert(a[3 + m + i] == b[3 + m + i]);
        assert(a[3 + m + i] == coeff_cells(pk1)[i]);
        assert(b[3 + m + i] == coeff_cells(pk2)[i]);
    }
    assert forall|i: int| 0 <= i < n implies sp1[i] == sp2[i] by {
        assert(a[3 + m + n + i] == b[3 + m + n + i]);
        assert(a[3 + m + n + i] == coeff_cells(sp1)[i]);
        assert(b[3 + m + n + i] == coeff_cells(sp2)[i]);
    }
    assert forall|i: int| 0 <= i < n implies sn1[i] == sn2[i] by {
        assert(a[3 + m + 2 * n + i] == b[3 + m + 2 * n + i]);
        assert(a[3 + m + 2 * n + i] == coeff_cells(sn1)[i]);
        assert(b[3 + m + 2 * n + i] == coeff_cells(sn2)[i]);
    }
    assert forall|i: int| 0 <= i < n implies hm1[i] == hm2[i] by {
        assert(a[3 + m + 3 * n + i] == b[3 + m + 3 * n + i]);
        assert(a[3 + m + 3 * n + i] == coeff_cells(hm1)[i]);
        assert(b[3 + m + 3 * n + i] == coeff_cells(hm2)[i]);
    }
    assert(msg1 =~= msg2);
    assert(pk1 =~= pk2);
    assert(sp1 =~= sp2);
    assert(sn1 =~= sn2);
    assert(hm1 =~= hm2);
}

/// The credential encoding is injective in the same way.
pub proof fn lemma_credential_digest_input_injective(
    pk1: Seq<u16>, msg1: Seq<u8>, hm1: Seq<u16>,
    pk2: Seq<u16>, msg2: Seq<u8>, hm2: Seq<u16>,
)
    requires
        pk1.len() == N && hm1.len() == N,
        pk2.len() == N && hm2.len() == N,
        msg1.len() < p(),
        msg2.len() < p(),
        credential_digest_input(pk1, msg1, hm1) == credential_digest_input(pk2, msg2, hm2),
    ensures
        msg1 == msg2,
        pk1 == pk2,
        hm1 == hm2,
{
    let a = credential_digest_input(pk1, msg1, hm1);
    let b = credential_digest_input(pk2, msg2, hm2);
    assert((msg1.len() as u32) as int == msg1.len());
    assert((msg2.len() as u32) as int == msg2.len());
    vstd::arithmetic::div_mod::lemma_small_mod(msg1.len(), p() as nat);
    vstd::arithmetic::div_mod::lemma_small_mod(msg2.len(), p() as nat);
    assert(a[2] == len_cell(msg1.len()));
    assert(b[2] == len_cell(msg2.len()));
    assert(fe((msg1.len() as u32) as int) == msg1.len());
    assert(fe((msg2.len() as u32) as int) == msg2.len());
    assert(len_cell(msg1.len()) == msg1.len());
    assert(len_cell(msg2.len()) == msg2.len());
    assert(msg1.len() == msg2.len());
    let m = msg1.len() as int;
    let n = N as int;
    assert forall|i: int| 0 <= i < m implies msg1[i] == msg2[i] by {
        assert(a[3 + i] == b[3 + i]);
        assert(a[3 + i] == byte_cells(msg1)[i]);
        assert(b[3 + i] == byte_cells(msg2)[i]);
    }
    assert forall|i: int| 0 <= i < n implies pk1[i] == pk2[i] by {
        assert(a[3 + m + i] == b[3 + m + i]);
        assert(a[3 + m + i] == coeff_cells(pk1)[i]);
        assert(b[3 + m + i] == coeff_cells(pk2)[i]);
    }
    assert forall|i: int| 0 <= i < n implies hm1[i] == hm2[i] by {
        assert(a[3 + m + n + i] == b[3 + m + n + i]);
        assert(a[3 + m + n + i] == coeff_cells(hm1)[i]);
        assert(b[3 + m + n + i] == coeff_cells(hm2)[i]);
    }
    assert(msg1 =~= msg2);
    assert(pk1 =~= pk2);
    assert(hm1 =~= hm2);
}

/// Domain separation: a statement digest input never equals a credential digest input.
pub proof fn lemma_digest_domains_separated(pk: Seq<u16>, msg: Seq<u8>, sig_pos: Seq<u16>, sig_neg: Seq<u16>,
    hm: Seq<u16>, cpk: Seq<u16>, cmsg: Seq<u8>, chm: Seq<u16>)
    ensures
        statement_digest_input(pk, msg, sig_pos, sig_neg, hm) != credential_digest_input(cpk, cmsg, chm),
{
    assert(statement_digest_input(pk, msg, sig_pos, sig_neg, hm)[0] != credential_digest_input(cpk, cmsg, chm)[0]);
}

} // verus!
