//! Polynomials over the BN254 scalar field and the interactive proofs built on
//! them: multilinear extensions, sum-check, GKR, univariate interpolation and
//! Shamir secret sharing.
pub mod bit_index;
pub mod field;
pub mod multi_poly;
pub mod hypercube;
pub mod updated_multilinear;
pub mod fiat_shamir_transcript;
pub mod sumcheck;
pub mod product_poly;
pub mod sum_all_polys;
pub mod univariate_polynomial;
pub mod univariate_dense;
pub mod new_circuit;
pub mod gkr_sumcheck;
pub mod sumcheck_rounds;
pub mod gkr_protocol;
pub mod gkr_wiring;
pub mod shamir_secret;
pub mod integer_shamir;
