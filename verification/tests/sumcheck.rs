use sumcheck_gkr::field::FieldElement;
use sumcheck_gkr::sumcheck::{get_large_poly, prove, verify};
use sumcheck_gkr::updated_multilinear::MultilinearPolynomial;

fn fe(v: u64) -> FieldElement {
    FieldElement::from_u64(v)
}

#[test]
fn test_sumcheck() {
    let poly = MultilinearPolynomial::new(
        3,
        vec![fe(0), fe(0), fe(0), fe(3), fe(0), fe(0), fe(2), fe(5)],
    );
    let _proof = prove(&poly, fe(10));
}

#[test]
fn sumcheck_accepts_the_true_sum() {
    let poly = MultilinearPolynomial::new(
        3,
        vec![fe(0), fe(0), fe(0), fe(3), fe(0), fe(0), fe(2), fe(5)],
    );
    let proof = prove(&poly, fe(10));
    assert_eq!(proof.round_polys.len(), 3);
    assert_eq!(proof.round_polys[0], [fe(3), fe(7)]);
    assert!(verify(&poly, &proof));
}

#[test]
fn sumcheck_rejects_a_wrong_sum() {
    let poly = MultilinearPolynomial::new(2, vec![fe(2), fe(4), fe(6), fe(8)]);
    let proof = prove(&poly, fe(21));
    assert!(!verify(&poly, &proof));
    let proof = prove(&poly, fe(20));
    assert!(verify(&poly, &proof));
}

#[test]
fn sumcheck_rejects_a_proof_with_the_wrong_number_of_rounds() {
    let poly = MultilinearPolynomial::new(2, vec![fe(2), fe(4), fe(6), fe(8)]);
    let mut proof = prove(&poly, fe(20));
    proof.round_polys.pop();
    assert!(!verify(&poly, &proof));
}

#[test]
fn sumcheck_rejects_a_tampered_round() {
    let poly = MultilinearPolynomial::new(2, vec![fe(2), fe(4), fe(6), fe(8)]);
    let mut proof = prove(&poly, fe(20));
    proof.round_polys[1] = [fe(1), fe(1)];
    assert!(!verify(&poly, &proof));
}

#[test]
fn sumcheck_large_poly_has_small_entries() {
    let poly = get_large_poly();
    assert_eq!(poly.n_vars, 20);
    assert_eq!(poly.evals.len(), 1 << 20);
    let small: Vec<FieldElement> = (0..20).map(fe).collect();
    assert!(poly.evals.iter().all(|v| small.contains(v)));
    assert!(poly.evals.iter().any(|v| *v != poly.evals[0]));
}
