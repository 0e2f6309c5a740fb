use sumcheck_gkr::field::FieldElement;
use sumcheck_gkr::multi_poly::MultiPoly;
use sumcheck_gkr::product_poly::ProductPolynomial;
use sumcheck_gkr::sum_all_polys::{
    PolynomialArithmetic, PolynomialMetadata, PolynomialSerialization, SumPolynomial,
};
use sumcheck_gkr::updated_multilinear::{pairs, MultilinearPolynomial};

fn fe(v: u64) -> FieldElement {
    FieldElement::from_u64(v)
}

fn poly(values: Vec<u64>, n: usize) -> MultiPoly {
    MultiPoly::new(n, values.into_iter().map(fe).collect())
}

#[test]
fn product_poly_evaluates_to_product_of_factors() {
    let p = ProductPolynomial::new(vec![poly(vec![1, 2, 3, 4], 2), poly(vec![5, 6, 7, 8], 2)]);
    assert_eq!(p.degree(), 2);
    assert_eq!(p.evaluate(&[fe(1), fe(0)]), fe(21));
    assert_eq!(p.multiply_polys_element_wise().evaluated_values, vec![fe(5), fe(12), fe(21), fe(32)]);
    let fixed = p.partial_evaluate(0, fe(1));
    assert_eq!(fixed.polynomials[0].evaluated_values, vec![fe(3), fe(4)]);
    assert_eq!(fixed.polynomials[1].evaluated_values, vec![fe(7), fe(8)]);
    assert_eq!(p.convert_to_bytes().len(), 8 * 32);
}

#[test]
fn sum_polynomial_adds_the_products() {
    let p1 = ProductPolynomial::new(vec![poly(vec![1, 2], 1), poly(vec![3, 4], 1)]);
    let p2 = ProductPolynomial::new(vec![poly(vec![5, 6], 1), poly(vec![1, 1], 1)]);
    let sum = SumPolynomial::new(vec![p1, p2]);
    assert_eq!(sum.degree(), 2);
    assert_eq!(sum.number_of_variables(), 1);
    // at x = 1: 2 * 4 + 6 * 1
    assert_eq!(sum.evaluate(&[fe(1)]), fe(14));
    assert_eq!(sum.element_wise_polynomials_addition().evaluated_values, vec![fe(8), fe(14)]);
    let fixed = sum.partial_evaluate(0, fe(0));
    assert_eq!(fixed.evaluate(&[]), fe(8));
    assert_eq!(sum.convert_to_bytes().len(), 8 * 32);
}

#[test]
fn updated_multilinear_pairs_differ_in_one_bit() {
    assert_eq!(pairs(0, 3), vec![(0, 4), (1, 5), (2, 6), (3, 7)]);
    assert_eq!(pairs(2, 3), vec![(0, 1), (2, 3), (4, 5), (6, 7)]);
}

#[test]
fn updated_multilinear_evaluates_and_folds() {
    let p = MultilinearPolynomial::new(2, vec![fe(0), fe(0), fe(3), fe(8)]);
    assert_eq!(p.evaluate(&[fe(6), fe(2)]), fe(78));
    let q = p.partial_evaluate(1, &fe(1));
    assert_eq!(q.evals, vec![fe(0), fe(8)]);
    assert_eq!(q.n_vars, 1);
}
