use sumcheck_gkr::field::FieldElement;
use sumcheck_gkr::univariate_dense::Polynomial;

fn fe(v: u64) -> FieldElement {
    FieldElement::from_u64(v)
}

fn setup_poly() -> Polynomial {
    let coeffs = vec![fe(0), fe(0), fe(2), fe(0), fe(0), fe(0), fe(0), fe(3)];
    Polynomial::new(&coeffs)
}

#[test]
fn test_degree() {
    let poly = setup_poly();
    assert_eq!(poly.degree(), 7);

    let zero_poly = Polynomial::new(&vec![fe(0)]);
    assert_eq!(zero_poly.degree(), 0);
}

#[test]
fn test_eval() {
    let poly = setup_poly();
    let x = fe(2);
    assert_eq!(poly.eval(x), fe(392));
}

#[test]
fn test_add_polys() {
    let p1 = vec![fe(5), fe(2), fe(5)];
    let p2 = vec![fe(2), fe(1), fe(8), fe(10)];
    assert_eq!(Polynomial::add_polys(p1, p2), vec![fe(7), fe(3), fe(13), fe(10)]);
}

#[test]
fn test_mul_polys() {
    let p1 = vec![fe(5), fe(0), fe(2)];
    let p2 = vec![fe(6), fe(2)];
    assert_eq!(Polynomial::mul_polys(p1, p2), vec![fe(30), fe(10), fe(12), fe(4)]);
}

#[test]
fn test_lagrange_interpolate() {
    let x_vals = vec![fe(0), fe(1), fe(2)];
    let y_vals = vec![fe(2), fe(4), fe(10)];
    let poly = Polynomial::lagrange_interpolate(&x_vals, &y_vals);
    assert_eq!(poly.coeffs, vec![fe(2), fe(0), fe(2)]);
    for (x, y) in x_vals.iter().zip(y_vals.iter()) {
        assert_eq!(poly.eval(*x), *y, "Failed at x = {:?}", x);
    }
}

#[test]
fn test_scale() {
    let poly = vec![fe(5), fe(0), fe(2)];
    let scalar = fe(3);
    let result = Polynomial::scale(scalar, poly);
    assert_eq!(result, vec![fe(15), fe(0), fe(6)]);
}

#[test]
fn dense_add_polys_with_equal_lengths() {
    assert_eq!(Polynomial::add_polys(vec![fe(1), fe(2)], vec![fe(3), fe(4)]), vec![fe(4), fe(6)]);
    assert_eq!(Polynomial::add_polys(vec![], vec![fe(3)]), vec![fe(3)]);
}

#[test]
fn dense_mul_polys_evaluates_to_product() {
    let a = vec![fe(1), fe(4), fe(0), fe(9)];
    let b = vec![fe(7), fe(0), fe(3)];
    let prod = Polynomial::new(&Polynomial::mul_polys(a.clone(), b.clone()));
    assert_eq!(prod.coeffs.len(), 6);
    for x in 0..5u64 {
        let lhs = prod.eval(fe(x));
        let va = Polynomial::new(&a).eval(fe(x));
        let vb = Polynomial::new(&b).eval(fe(x));
        assert_eq!(lhs, Polynomial::scale(va, vec![vb])[0]);
    }
    assert_eq!(Polynomial::mul_polys(vec![], vec![fe(2), fe(3)]), vec![fe(0)]);
}

#[test]
fn dense_lagrange_passes_through_points() {
    let x_vals = vec![fe(2), fe(3), fe(7), fe(11)];
    let y_vals = vec![fe(5), fe(1), fe(100), fe(8)];
    let poly = Polynomial::lagrange_interpolate(&x_vals, &y_vals);
    assert_eq!(poly.coeffs.len(), 4);
    for (x, y) in x_vals.iter().zip(y_vals.iter()) {
        assert_eq!(poly.eval(*x), *y);
    }
}

#[test]
fn dense_lagrange_adds_values_at_a_repeated_point() {
    let x_vals = vec![fe(4), fe(4)];
    let y_vals = vec![fe(3), fe(5)];
    let poly = Polynomial::lagrange_interpolate(&x_vals, &y_vals);
    assert_eq!(poly.coeffs, vec![fe(8)]);
    assert_eq!(poly.eval(fe(4)), fe(8));
}

#[test]
fn dense_lagrange_of_no_points_is_zero() {
    let poly = Polynomial::lagrange_interpolate(&vec![], &vec![]);
    assert_eq!(poly.coeffs, vec![fe(0)]);
}
