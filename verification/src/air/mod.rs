//! AIR definitions: column layouts, row-constraint semantics and their laws.
pub mod ntt_layer;
pub mod ntt_full;
pub mod dual_ntt_equation;
pub mod coeff_dual_product_zero;
pub mod l2_bound;
pub mod hash_to_point;
pub mod unified_parsed_verify;
pub mod statement_bound;
pub mod credential;
