use falcon_plonky3::digest::{
    falcon_credential_verify_digest, falcon_statement_digest, CREDENTIAL_DIGEST_TAG,
    FALCON_STATEMENT_DIGEST_LEN, STATEMENT_DIGEST_TAG,
};
use falcon_plonky3::witness::DualPolynomial;
use falcon_plonky3::N;
use p3_field::{PrimeCharacteristicRing, PrimeField32};
use p3_koala_bear::{default_koalabear_poseidon2_16, KoalaBear, Poseidon2KoalaBear};
use p3_symmetric::{CryptographicHasher, PaddingFreeSponge};

fn poly(seed: u32) -> Vec<u16> {
    (0..N as u32).map(|i| ((i * 40503 + seed) % 12289) as u16).collect()
}

fn sig(seed: u32) -> DualPolynomial {
    let pos = poly(seed);
    let neg = pos.iter().map(|&c| if c % 2 == 0 { 0 } else { (c / 2) as u16 }).collect();
    let pos = pos.iter().map(|&c| if c % 2 == 0 { c } else { 0 }).collect();
    DualPolynomial { pos, neg }
}

fn direct_digest(input: &[u32]) -> [u32; 8] {
    let hasher = PaddingFreeSponge::<Poseidon2KoalaBear<16>, 16, 8, 8>::new(default_koalabear_poseidon2_16());
    let out: [KoalaBear; 8] = hasher.hash_iter(input.iter().map(|&x| KoalaBear::from_u32(x)));
    out.map(|x| x.as_canonical_u32())
}

#[test]
fn statement_digest_is_deterministic_and_input_sensitive() {
    let pk = poly(1);
    let s = sig(2);
    let msg = b"digest test message";
    let hm = poly(3);
    let d = falcon_statement_digest(&pk, msg, &s, &hm);
    assert_eq!(d, falcon_statement_digest(&pk, msg, &s, &hm), "digest must be deterministic");
    let other_msg = b"digest test message!";
    assert_ne!(d, falcon_statement_digest(&pk, other_msg, &s, &poly(4)), "digest must depend on the message");
    assert_ne!(d, falcon_statement_digest(&poly(5), msg, &sig(6), &hm), "digest must depend on (pk, sig)");
}

#[test]
fn statement_digest_is_the_poseidon2_sponge_of_the_encoding() {
    let pk = poly(11);
    let s = sig(12);
    let msg = b"encoding";
    let hm = poly(13);
    let mut input: Vec<u32> = vec![STATEMENT_DIGEST_TAG, N as u32, msg.len() as u32];
    input.extend(msg.iter().map(|&b| b as u32));
    input.extend(pk.iter().map(|&c| c as u32));
    input.extend(s.pos.iter().map(|&c| c as u32));
    input.extend(s.neg.iter().map(|&c| c as u32));
    input.extend(hm.iter().map(|&c| c as u32));
    let d = falcon_statement_digest(&pk, msg, &s, &hm);
    assert_eq!(d.len(), FALCON_STATEMENT_DIGEST_LEN);
    assert_eq!(d, direct_digest(&input));
    assert_ne!(d.to_vec(), input[..8].to_vec());
    assert!(d.iter().all(|&x| x < falcon_plonky3::KOALA_BEAR_PRIME));
}

#[test]
fn credential_digest_encoding_and_domain() {
    let pk = poly(21);
    let msg = b"credential";
    let hm = poly(22);
    let mut input: Vec<u32> = vec![CREDENTIAL_DIGEST_TAG, N as u32, msg.len() as u32];
    input.extend(msg.iter().map(|&b| b as u32));
    input.extend(pk.iter().map(|&c| c as u32));
    input.extend(hm.iter().map(|&c| c as u32));
    let d = falcon_credential_verify_digest(&pk, msg, &hm);
    assert_eq!(d, direct_digest(&input));
    assert_eq!(d, falcon_credential_verify_digest(&pk, msg, &hm));
    let zero = DualPolynomial { pos: vec![0; N], neg: vec![0; N] };
    assert_ne!(d, falcon_statement_digest(&pk, msg, &zero, &hm));
    assert_ne!(d, falcon_credential_verify_digest(&pk, b"credentiaL", &hm));
}
