//! Witness generation and constraint semantics for Falcon signature verification
//! expressed as Plonky3 STARK AIRs over the KoalaBear field.
//!
//! Every trace cell is a canonical KoalaBear element held as a `u32` below
//! [`params::KOALA_BEAR_PRIME`]. The AIR modules state, as predicates over rows, what each
//! AIR's `eval` enforces, and prove that the witness builders produce rows that satisfy them
//! (completeness) and that satisfied rows carry the intended integer facts about the Falcon
//! statement (soundness). Statement digests bind the sub-proofs of one statement together.
#![allow(unused_imports)]

pub mod params;
pub mod bits;
pub mod field;
pub mod trace;
pub mod air;
pub mod hash;
pub mod witness;
pub mod digest;
pub mod mldsa;
pub mod full_verify;

pub use params::{N, LOG_N, MODULUS, MODULUS_MINUS_1_OVER_TWO, SIG_L2_BOUND, KOALA_BEAR_PRIME, QUOT_BITS};
