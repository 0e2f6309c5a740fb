use sumcheck_gkr::fiat_shamir_transcript::FiatShamirTranscript;
use sumcheck_gkr::field::FieldElement;
use sumcheck_gkr::gkr_sumcheck::{field_element_to_bytes, prove, univariate_to_bytes, verify};
use sumcheck_gkr::multi_poly::MultiPoly;
use sumcheck_gkr::product_poly::ProductPolynomial;
use sumcheck_gkr::sum_all_polys::{PolynomialArithmetic, PolynomialMetadata, SumPolynomial};
use sumcheck_gkr::univariate_polynomial::SparseUnivariatePolynomial;

fn fe(v: u64) -> FieldElement {
    FieldElement::from_u64(v)
}

// 2 (1 - x) x + x, as a sum of a two-factor and a one-factor product in one variable
fn one_variable_sum() -> SumPolynomial {
    let p1 = ProductPolynomial::new(vec![
        MultiPoly::new(1, vec![fe(2), fe(0)]),
        MultiPoly::new(1, vec![fe(0), fe(1)]),
    ]);
    let p2 = ProductPolynomial::new(vec![MultiPoly::new(1, vec![fe(0), fe(1)])]);
    SumPolynomial::new(vec![p1, p2])
}

#[test]
fn gkr_sumcheck_field_element_bytes_are_big_endian() {
    let bytes = field_element_to_bytes(fe(0x0102));
    assert_eq!(bytes.len(), 32);
    assert!(bytes[..30].iter().all(|b| *b == 0));
    assert_eq!(&bytes[30..], &[1, 2]);
}

#[test]
fn gkr_sumcheck_univariate_bytes_are_power_then_coefficient() {
    let poly = SparseUnivariatePolynomial::new(vec![(3, fe(9)), (1, fe(5))]);
    let bytes = univariate_to_bytes(&poly);
    let width = std::mem::size_of::<usize>();
    assert_eq!(bytes.len(), 2 * (width + 32));
    let mut expected = Vec::new();
    expected.extend_from_slice(&1usize.to_be_bytes());
    expected.extend_from_slice(&field_element_to_bytes(fe(5)));
    expected.extend_from_slice(&3usize.to_be_bytes());
    expected.extend_from_slice(&field_element_to_bytes(fe(9)));
    assert_eq!(bytes, expected);
}

#[test]
fn gkr_sumcheck_round_polynomial_interpolates_the_round_sums() {
    // f(x) = 2 (1 - x) x + x = 3x - 2x^2, of degree two: the round polynomial goes
    // through (0, 0), (1, 1) and (2, -2), which makes it 3x - 2x^2 itself
    let sum = one_variable_sum();
    assert_eq!(sum.number_of_variables(), 1);
    let mut transcript = FiatShamirTranscript::new();
    let proof = prove(sum, fe(1), &mut transcript);
    assert_eq!(proof.claimed_sum, fe(1));
    assert_eq!(proof.round_univariate_polynomials.len(), 1);
    assert_eq!(proof.random_challenges.len(), 1);
    let g = &proof.round_univariate_polynomials[0];
    assert_eq!(g.terms.len(), 2);
    assert_eq!(g.terms[0], (1, fe(3)));
    assert_eq!(g.terms[1].0, 2);
    assert_eq!(SparseUnivariatePolynomial::new(vec![(0, g.terms[1].1), (0, fe(2))]).terms.len(), 0);
    assert_eq!(g.evaluate(fe(0)), fe(0));
    assert_eq!(g.evaluate(fe(1)), fe(1));
}

#[test]
fn gkr_sumcheck_verifier_draws_the_prover_challenges() {
    // f(0) + f(1) = 1
    let mut prover_transcript = FiatShamirTranscript::new();
    let proof = prove(one_variable_sum(), fe(1), &mut prover_transcript);
    let g = &proof.round_univariate_polynomials[0];
    let mut verifier_transcript = FiatShamirTranscript::new();
    let result = verify(&proof, &mut verifier_transcript);
    assert!(result.is_proof_valid);
    assert_eq!(result.random_challenges, proof.random_challenges);
    assert_eq!(result.last_claimed_sum, g.evaluate(proof.random_challenges[0]));
    let r = proof.random_challenges[0];
    assert_eq!(result.last_claimed_sum, one_variable_sum().evaluate(&[r]));
    assert_eq!(
        verifier_transcript.generate_challenge(),
        prover_transcript.generate_challenge()
    );
}

fn create_test_sum_polynomial() -> SumPolynomial {
    let poly1 = MultiPoly::new(2, vec![fe(1), fe(0), fe(0), fe(1)]);
    let poly2 = MultiPoly::new(2, vec![fe(0), fe(2), fe(0), fe(0)]);
    let poly3 = MultiPoly::new(2, vec![fe(0), fe(1), fe(0), fe(0)]);
    let prod_poly1 = ProductPolynomial::new(vec![poly1]);
    let prod_poly2 = ProductPolynomial::new(vec![poly2]);
    let prod_poly3 = ProductPolynomial::new(vec![poly3]);
    SumPolynomial::new(vec![prod_poly1, prod_poly2, prod_poly3])
}

fn compute_expected_sum(poly: &SumPolynomial) -> FieldElement {
    let mut sum = SparseUnivariatePolynomial::new(vec![]);
    for x in 0..2 {
        for y in 0..2 {
            let inputs = vec![fe(x), fe(y)];
            let v = poly.evaluate(&inputs);
            sum = SparseUnivariatePolynomial::add(&sum, &SparseUnivariatePolynomial::new(vec![(0, v)]));
        }
    }
    if sum.terms.is_empty() { fe(0) } else { sum.terms[0].1 }
}

#[test]
fn test_prove_and_verify_correct_sum() {
    let mut transcript = FiatShamirTranscript::new();
    let sum_poly = create_test_sum_polynomial();
    let claimed_sum = compute_expected_sum(&sum_poly);
    assert_eq!(claimed_sum, fe(5));

    let proof = prove(sum_poly.clone(), claimed_sum, &mut transcript);

    let mut transcript = FiatShamirTranscript::new();
    let verifier_result = verify(&proof, &mut transcript);

    assert!(verifier_result.is_proof_valid, "Verification should pass with correct sum");
    assert_eq!(proof.claimed_sum, claimed_sum, "Claimed sum should match expected sum");
    assert_eq!(
        proof.random_challenges.len(),
        sum_poly.number_of_variables(),
        "Number of challenges should match number of variables"
    );
    assert_eq!(
        proof.random_challenges, verifier_result.random_challenges,
        "Random challenges should match between prover and verifier"
    );
}

#[test]
fn gkr_sumcheck_two_variable_last_claim_is_the_value_at_the_challenges() {
    let sum_poly = create_test_sum_polynomial();
    let mut transcript = FiatShamirTranscript::new();
    let proof = prove(sum_poly.clone(), fe(5), &mut transcript);
    let mut transcript = FiatShamirTranscript::new();
    let result = verify(&proof, &mut transcript);
    assert!(result.is_proof_valid);
    assert_eq!(result.last_claimed_sum, sum_poly.evaluate(&proof.random_challenges));
    let mut transcript = FiatShamirTranscript::new();
    let wrong = prove(sum_poly, fe(6), &mut transcript);
    let mut transcript = FiatShamirTranscript::new();
    assert!(!verify(&wrong, &mut transcript).is_proof_valid);
}

#[test]
fn gkr_sumcheck_verifier_stops_at_a_round_that_does_not_add_up() {
    let mut transcript = FiatShamirTranscript::new();
    let proof = prove(one_variable_sum(), fe(3), &mut transcript);
    let mut verifier_transcript = FiatShamirTranscript::new();
    let result = verify(&proof, &mut verifier_transcript);
    assert!(!result.is_proof_valid);
    assert!(result.random_challenges.is_empty());
    assert_eq!(result.last_claimed_sum, fe(3));
}

#[test]
fn gkr_sumcheck_zero_variables_needs_no_round() {
    let constant = ProductPolynomial::new(vec![MultiPoly::new(0, vec![fe(4)])]);
    let sum = SumPolynomial::new(vec![constant]);
    let mut transcript = FiatShamirTranscript::new();
    let proof = prove(sum, fe(4), &mut transcript);
    assert!(proof.round_univariate_polynomials.is_empty());
    let mut verifier_transcript = FiatShamirTranscript::new();
    let result = verify(&proof, &mut verifier_transcript);
    assert!(result.is_proof_valid);
    assert_eq!(result.last_claimed_sum, fe(4));
}

#[test]
fn gkr_sumcheck_boolean_sum_adds_the_products_over_the_hypercube() {
    assert_eq!(create_test_sum_polynomial().boolean_sum(), fe(5));
    // 2 (1 - x) x + x over x in {0, 1}: 0 + 1
    assert_eq!(one_variable_sum().boolean_sum(), fe(1));
}
