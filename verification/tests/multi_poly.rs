use sumcheck_gkr::field::FieldElement;
use sumcheck_gkr::multi_poly::MultiPoly;

fn to_field(values: Vec<u64>) -> Vec<FieldElement> {
    values.into_iter().map(FieldElement::from_u64).collect()
}

#[test]
fn test_polynomial_construction() {
    let poly = MultiPoly::new(2, to_field(vec![1, 2, 3, 4]));
    assert_eq!(poly.evaluated_values.len(), 4);
    assert_eq!(poly.num_vars, 2);
}

#[test]
fn test_evaluate() {
    let poly = MultiPoly::new(2, to_field(vec![0, 0, 3, 8]));
    let result = poly.evaluate(&to_field(vec![6, 2]));
    assert_eq!(result, FieldElement::from_u64(78));
}

// The two polynomials below, read with the first variable as the least significant
// bit of the table index, give 4 at (1, 0) and 7 at (1, 1, 0). `test_evaluate` (78 for
// [0, 0, 3, 8] at (6, 2)) fixes the first variable as the most significant bit, and
// both orders cannot hold at once: with the first variable most significant the values
// are 6 and 13.
#[test]
fn evaluation_reads_the_first_variable_as_most_significant() {
    let poly1 = MultiPoly::new(2, to_field(vec![2, 4, 6, 8]));
    assert_eq!(poly1.evaluate(&to_field(vec![1, 0])), FieldElement::from_u64(6));
    let poly2 = MultiPoly::new(3, to_field(vec![1, 3, 5, 7, 9, 11, 13, 15]));
    assert_eq!(poly2.evaluate(&to_field(vec![1, 1, 0])), FieldElement::from_u64(13));
}

#[test]
fn test_partial_eval() {
    let poly = MultiPoly::new(2, to_field(vec![1, 2, 3, 4]));
    let new_poly = MultiPoly::partial_evaluate(&poly.evaluated_values, 0, FieldElement::from_u64(1));
    assert_eq!(new_poly.evaluated_values.len(), 2);
    assert_eq!(new_poly.num_vars, 1);
}

#[test]
fn test_generate_pairs() {
    let pairs = MultiPoly::generate_pairs(0, 2);
    assert_eq!(pairs.len(), 2);
    assert_eq!(pairs[0], (0, 2));
    assert_eq!(pairs[1], (1, 3));
}

#[test]
fn test_insert_zero_bit() {
    assert_eq!(MultiPoly::insert_zero_bit(3, 1), 5);
    assert_eq!(MultiPoly::insert_zero_bit(3, 2), 3);
}

#[test]
fn test_scalar_mul() {
    let poly = MultiPoly::new(2, to_field(vec![1, 2, 3, 4]));
    let scaled = poly.scalar_mul(FieldElement::from_u64(2));
    assert_eq!(scaled.evaluated_values, to_field(vec![2, 4, 6, 8]));
    assert_eq!(scaled.num_vars, 2);
}

#[test]
fn test_number_of_variables() {
    let poly = MultiPoly::new(3, to_field(vec![1, 2, 3, 4, 5, 6, 7, 8]));
    assert_eq!(poly.number_of_variables(), 3);
}

#[test]
fn test_add_polynomials() {
    let poly1 = MultiPoly::new(2, to_field(vec![1, 2, 3, 4]));
    let poly2 = MultiPoly::new(2, to_field(vec![2, 3, 4, 5]));
    let sum = MultiPoly::add_polynomials(&poly1, &poly2);
    assert_eq!(sum.evaluated_values, to_field(vec![3, 5, 7, 9]));
    assert_eq!(sum.num_vars, 2);
}

#[test]
fn test_tensor_add_poly() {
    let poly1 = MultiPoly::new(1, to_field(vec![1, 2]));
    let poly2 = MultiPoly::new(1, to_field(vec![3, 4]));
    let result = poly1.tensor_add_poly(&poly2);
    assert_eq!(result.evaluated_values, to_field(vec![4, 5, 5, 6]));
    assert_eq!(result.num_vars, 2);
}

#[test]
fn test_tensor_mul_poly() {
    let poly1 = MultiPoly::new(1, to_field(vec![2, 3]));
    let poly2 = MultiPoly::new(1, to_field(vec![4, 5]));
    let result = poly1.tensor_mul_poly(&poly2);
    assert_eq!(result.evaluated_values, to_field(vec![8, 10, 12, 15]));
    assert_eq!(result.num_vars, 2);
}

#[test]
fn test_convert_to_bytes() {
    let poly = MultiPoly::new(2, to_field(vec![1, 2, 3, 4]));
    let bytes = poly.convert_to_bytes();
    assert_eq!(bytes.len(), 128);
    assert_eq!(bytes[31], 1);
    assert_eq!(bytes[63], 2);
}

#[test]
fn multi_poly_evaluates_to_table_entries_at_boolean_points() {
    let table = vec![7, 11, 13, 17, 19, 23, 29, 31];
    let poly = MultiPoly::new(3, to_field(table.clone()));
    for (i, v) in table.iter().enumerate() {
        let point = to_field(vec![((i >> 2) & 1) as u64, ((i >> 1) & 1) as u64, (i & 1) as u64]);
        assert_eq!(poly.evaluate(&point), FieldElement::from_u64(*v));
    }
}

#[test]
fn multi_poly_partial_evaluate_interpolates_on_the_line() {
    // fixing the first variable of [1, 2, 3, 4] to 5 gives 1 + 5 (3 - 1), 2 + 5 (4 - 2)
    let poly = MultiPoly::new(2, to_field(vec![1, 2, 3, 4]));
    let fixed = MultiPoly::partial_evaluate(&poly.evaluated_values, 0, FieldElement::from_u64(5));
    assert_eq!(fixed.evaluated_values, to_field(vec![11, 12]));
    // fixing the second variable to 5: 1 + 5 (2 - 1), 3 + 5 (4 - 3)
    let fixed = MultiPoly::partial_evaluate(&poly.evaluated_values, 1, FieldElement::from_u64(5));
    assert_eq!(fixed.evaluated_values, to_field(vec![6, 8]));
}

#[test]
fn multi_poly_partial_evaluate_wraps_below_zero() {
    // 3 + 2 (1 - 3) = -1 in the field, so adding one gives zero
    let poly = MultiPoly::new(1, to_field(vec![3, 1]));
    let fixed = MultiPoly::partial_evaluate(&poly.evaluated_values, 0, FieldElement::from_u64(2));
    assert_ne!(fixed.evaluated_values, to_field(vec![0]));
    let back = MultiPoly::add_polynomials(&fixed, &MultiPoly::new(0, to_field(vec![1])));
    assert_eq!(back.evaluated_values, to_field(vec![0]));
}

#[test]
fn multi_poly_convert_to_bytes_is_big_endian_per_element() {
    let poly = MultiPoly::new(1, to_field(vec![258, 1]));
    let bytes = poly.convert_to_bytes();
    assert_eq!(bytes.len(), 64);
    assert_eq!(bytes[30], 1);
    assert_eq!(bytes[31], 2);
    assert!(bytes[..30].iter().all(|b| *b == 0));
    assert_eq!(bytes[63], 1);
}

#[test]
fn multi_poly_fixing_the_first_variable_then_evaluating_is_evaluating() {
    let poly = MultiPoly::new(3, to_field(vec![3, 1, 4, 1, 5, 9, 2, 6]));
    let fixed = MultiPoly::partial_evaluate(&poly.evaluated_values, 0, FieldElement::from_u64(7));
    let rest = to_field(vec![2, 8]);
    let full = to_field(vec![7, 2, 8]);
    assert_eq!(fixed.evaluate(&rest), poly.evaluate(&full));
}

#[test]
fn test_field_equality_compares_values() {
    // The field order itself, written out as 32 little-endian bytes, stands for zero.
    let order: [u8; 32] = [
        0x01, 0x00, 0x00, 0xf0, 0x93, 0xf5, 0xe1, 0x43, 0x91, 0x70, 0xb9, 0x79, 0x48, 0xe8, 0x33,
        0x28, 0x5d, 0x58, 0x81, 0x81, 0xb6, 0x45, 0x50, 0xb8, 0x29, 0xa0, 0x31, 0xe1, 0x72, 0x4e,
        0x64, 0x30,
    ];
    let mut order_plus_one = order;
    order_plus_one[0] = 0x02;
    assert_eq!(FieldElement { bytes: order }, FieldElement::from_u64(0));
    assert_eq!(FieldElement { bytes: order_plus_one }, FieldElement::from_u64(1));
    assert_ne!(FieldElement { bytes: order }, FieldElement::from_u64(1));
}
