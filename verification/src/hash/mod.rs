//! Falcon SHAKE256 hash-to-point: rejection sampling, the sponge simulator whose Keccak-f steps
//! feed the Keccak AIR, and the witness of the hash-to-point AIR.
pub mod shake;
pub mod witness;
