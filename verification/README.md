# sumcheck_gkr

Polynomials over the BN254 scalar field and the interactive proofs built on them,
written in Verus: every function of the library carries a contract that Verus proves.

- `src/field.rs`: field elements (32 little-endian bytes), their arithmetic through
  arkworks, and the modular-arithmetic facts the proofs use.
- `src/multi_poly.rs`, `src/updated_multilinear.rs`: multilinear polynomials stored as
  their tables on the boolean hypercube; partial evaluation, evaluation, tensor sums and
  products.
- `src/product_poly.rs`, `src/sum_all_polys.rs`: products and sums of products of
  multilinear polynomials.
- `src/fiat_shamir_transcript.rs`: a Keccak-256 Fiat-Shamir transcript.
- `src/sumcheck.rs`: the sum-check protocol for a multilinear polynomial, with its
  completeness proved.
- `src/univariate_polynomial.rs`, `src/univariate_dense.rs`: sparse and dense
  univariate polynomials, Lagrange interpolation, and the fact that a polynomial with
  fewer coefficients than distinct roots vanishes.
- `src/hypercube.rs`: the points of the boolean hypercube and its edges.
- `src/new_circuit.rs`, `src/gkr_sumcheck.rs`, `src/sumcheck_rounds.rs`,
  `src/gkr_protocol.rs`: layered arithmetic circuits, the sum-check rounds of GKR
  (with their completeness proved: an honest prover's rounds are accepted), and the
  GKR prover and verifier. `src/gkr_wiring.rs` proves GKR complete: on circuits of
  the shape the prover needs whose layers hold no gate twice, the verifier accepts
  the prover's proof.
- `src/shamir_secret.rs`, `src/integer_shamir.rs`: Shamir secret sharing over the field
  (with reconstruction proved exact) and over `i64`.

`tests/` exercises the library on concrete values; `app/` holds a small command-line
program and the floating-point sketches that stay outside the verified library.
