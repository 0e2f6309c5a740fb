use ark_bn254::Fr;
use ark_ff::{BigInteger, PrimeField};
use sumcheck_gkr::field::FieldElement;
use sumcheck_gkr::univariate_polynomial::SparseUnivariatePolynomial;

fn fe(v: u64) -> FieldElement {
    FieldElement::from_u64(v)
}

fn from_fr(x: Fr) -> FieldElement {
    let mut bytes = [0u8; 32];
    bytes.copy_from_slice(&x.into_bigint().to_bytes_le());
    FieldElement { bytes }
}

// 5 + 2x^2
fn test_poly() -> SparseUnivariatePolynomial {
    SparseUnivariatePolynomial::new(vec![(0, fe(5)), (2, fe(2))])
}

#[test]
fn test_creation_and_degree() {
    let poly = test_poly();
    assert_eq!(poly.degree(), Some(2));
    assert_eq!(poly.terms.len(), 2);
    assert_eq!(poly.terms, vec![(0, fe(5)), (2, fe(2))]);

    let poly_with_zero = SparseUnivariatePolynomial::new(vec![
        (0, fe(1)),
        (1, fe(0)),
        (2, fe(2)),
        (2, fe(3)),
    ]);
    assert_eq!(poly_with_zero.terms.len(), 2);
    assert_eq!(poly_with_zero.terms, vec![(0, fe(1)), (2, fe(5))]);

    let zero_poly = SparseUnivariatePolynomial::new(vec![(0, fe(0))]);
    assert_eq!(zero_poly.degree(), None);
    assert_eq!(zero_poly.terms.len(), 0);
}

#[test]
fn univariate_polynomial_test_evaluation() {
    let poly = test_poly();
    let x = fe(2);
    assert_eq!(poly.evaluate(x), fe(13));

    let x = fe(0);
    assert_eq!(poly.evaluate(x), fe(5));

    let zero = SparseUnivariatePolynomial::new(vec![]);
    assert_eq!(zero.evaluate(x), fe(0));
}

#[test]
fn test_multiply() {
    let p1 = vec![(0, fe(5)), (2, fe(2))];
    let p2 = vec![(0, fe(6)), (1, fe(2))];
    let result = SparseUnivariatePolynomial::multiply(&p1, &p2);
    let expected = vec![(0, fe(30)), (1, fe(10)), (2, fe(12)), (3, fe(4))];
    assert_eq!(result, expected);

    let zero = vec![];
    let result = SparseUnivariatePolynomial::multiply(&p1, &zero);
    assert_eq!(result, vec![]);
}

#[test]
fn test_add() {
    let p1 = SparseUnivariatePolynomial::new(vec![(0, fe(5)), (2, fe(2))]);
    let p2 = SparseUnivariatePolynomial::new(vec![(1, fe(3)), (2, fe(1))]);
    let sum = SparseUnivariatePolynomial::add(&p1, &p2);
    let expected = vec![(0, fe(5)), (1, fe(3)), (2, fe(3))];
    assert_eq!(sum.terms, expected);

    let zero = SparseUnivariatePolynomial::new(vec![]);
    let sum_with_zero = SparseUnivariatePolynomial::add(&p1, &zero);
    assert_eq!(sum_with_zero.terms, p1.terms);
}

#[test]
fn test_scalar_mult() {
    let terms = vec![(0, fe(5)), (2, fe(2))];
    let scalar = fe(3);
    let result = SparseUnivariatePolynomial::scalar_mult(scalar, &terms);
    let expected = vec![(0, fe(15)), (2, fe(6))];
    assert_eq!(result, expected);

    let zero_result = SparseUnivariatePolynomial::scalar_mult(fe(0), &terms);
    assert_eq!(zero_result, vec![]);
}

#[test]
fn test_lagrange_interpolation() {
    let points = vec![(fe(0), fe(2)), (fe(1), fe(4)), (fe(2), fe(10))];

    let poly = SparseUnivariatePolynomial::lagrange_interpolation(&points);

    for (x, y) in &points {
        assert_eq!(poly.evaluate(*x), *y, "Failed at x = {:?}, expected y = {:?}", x, y);
    }

    let expected_terms = vec![(0, fe(2)), (2, fe(2))];
    assert_eq!(poly.terms, expected_terms);

    let single_point = vec![(fe(1), fe(5))];
    let single_poly = SparseUnivariatePolynomial::lagrange_interpolation(&single_point);
    assert_eq!(single_poly.evaluate(fe(1)), fe(5));
    assert_eq!(single_poly.terms, vec![(0, fe(5))]);
}

#[test]
fn sparse_new_sorts_and_merges_terms() {
    let poly = SparseUnivariatePolynomial::new(vec![(3, fe(1)), (0, fe(4)), (3, fe(2)), (1, fe(0))]);
    assert_eq!(poly.terms, vec![(0, fe(4)), (3, fe(3))]);
}

#[test]
fn sparse_new_drops_terms_that_cancel() {
    let minus_one = from_fr(-Fr::from(1u64));
    let p = SparseUnivariatePolynomial::new(vec![(2, fe(1)), (0, fe(4)), (2, minus_one)]);
    assert_eq!(p.terms, vec![(0, fe(4))]);
    let q = SparseUnivariatePolynomial::add(
        &SparseUnivariatePolynomial::new(vec![(2, fe(7))]),
        &SparseUnivariatePolynomial::new(vec![(2, fe(0))]),
    );
    assert_eq!(q.terms, vec![(2, fe(7))]);
}

#[test]
fn sparse_multiply_matches_product_of_values() {
    let a = vec![(1, fe(3)), (4, fe(2))];
    let b = vec![(0, fe(1)), (2, fe(5)), (3, fe(7))];
    let prod = SparseUnivariatePolynomial::new(SparseUnivariatePolynomial::multiply(&a, &b));
    let pa = SparseUnivariatePolynomial::new(a);
    let pb = SparseUnivariatePolynomial::new(b);
    for x in 0..6u64 {
        let lhs = prod.evaluate(fe(x));
        let rhs = SparseUnivariatePolynomial::scalar_mult(pa.evaluate(fe(x)), &[(0, pb.evaluate(fe(x)))]);
        let rhs = if rhs.is_empty() { fe(0) } else { rhs[0].1 };
        assert_eq!(lhs, rhs);
    }
}

#[test]
fn sparse_lagrange_passes_through_four_points() {
    let points = vec![(fe(3), fe(1)), (fe(5), fe(9)), (fe(8), fe(2)), (fe(13), fe(40))];
    let poly = SparseUnivariatePolynomial::lagrange_interpolation(&points);
    for (x, y) in &points {
        assert_eq!(poly.evaluate(*x), *y);
    }
    assert!(poly.degree().unwrap() < 4);
}
