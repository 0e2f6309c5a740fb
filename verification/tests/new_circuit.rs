use sumcheck_gkr::field::FieldElement;
use sumcheck_gkr::new_circuit::{Circuit, Gate, Layer, Operator};

fn fe(v: u64) -> FieldElement {
    FieldElement::from_u64(v)
}

fn sample_circuit() -> Circuit {
    let gate1 = Gate::new(0, 1, 0, Operator::Mul);
    let gate2 = Gate::new(0, 1, 0, Operator::Add);
    let gate3 = Gate::new(2, 3, 1, Operator::Mul);
    let layer0 = Layer::new(vec![gate1]);
    let layer1 = Layer::new(vec![gate2, gate3]);
    Circuit::new(vec![layer0, layer1])
}

#[test]
fn circuit_gate_adds_or_multiplies() {
    let input = vec![fe(2), fe(3), fe(4), fe(5)];
    assert_eq!(Gate::new(0, 3, 0, Operator::Add).evaluate(&input), fe(7));
    assert_eq!(Gate::new(1, 2, 0, Operator::Mul).evaluate(&input), fe(12));
}

#[test]
fn circuit_layer_sums_gates_with_the_same_output() {
    let input = vec![fe(2), fe(3), fe(4), fe(5)];
    let layer = Layer::new(vec![
        Gate::new(0, 1, 2, Operator::Add),
        Gate::new(2, 3, 2, Operator::Mul),
        Gate::new(0, 0, 0, Operator::Mul),
    ]);
    assert_eq!(layer.evaluate(&input), vec![fe(4), fe(0), fe(25)]);
    assert_eq!(Layer::new(vec![]).evaluate(&input), vec![fe(0)]);
}

#[test]
fn test_circuit_evaluation() {
    let input = vec![fe(2), fe(3), fe(4), fe(5)];
    let mut circuit = sample_circuit();
    let result = circuit.evaluate(input);

    let expected_layers_evaluation = vec![
        vec![fe(100)],
        vec![fe(5), fe(20)],
        vec![fe(2), fe(3), fe(4), fe(5)],
    ];

    assert_eq!(result[0], fe(100));
    assert_eq!(circuit.layer_evaluations, expected_layers_evaluation);
}

#[test]
fn circuit_wiring_polynomials_mark_gate_indices() {
    let circuit = sample_circuit();
    let (add_i, mul_i) = circuit.add_i_and_mul_i_mle(0);
    assert_eq!(add_i.num_vars, 3);
    assert_eq!(mul_i.num_vars, 3);
    // output 0 in no digit, left 0 in one digit, right 1 in one digit: 0b01
    let mut expected = vec![fe(0); 8];
    assert_eq!(add_i.evaluated_values, expected);
    expected[1] = fe(1);
    assert_eq!(mul_i.evaluated_values, expected);

    // layer 1: output, left and right indices padded to one, two and two digits
    let (add_i, mul_i) = circuit.add_i_and_mul_i_mle(1);
    assert_eq!(add_i.num_vars, 5);
    assert_eq!(add_i.evaluated_values[0b0_00_01], fe(1));
    assert_eq!(mul_i.evaluated_values[0b1_10_11], fe(1));
    assert_eq!(add_i.evaluated_values.iter().filter(|v| **v == fe(1)).count(), 1);
    assert_eq!(mul_i.evaluated_values.iter().filter(|v| **v == fe(1)).count(), 1);
}

#[test]
fn circuit_w_i_polynomial_uses_the_level_values() {
    let gate = Gate::new(0, 1, 7, Operator::Add);
    let mut circuit = Circuit::new(vec![Layer::new(vec![gate])]);
    let input = vec![fe(1), fe(2), fe(3), fe(4), fe(5), fe(6), fe(7), fe(8)];
    let result = circuit.evaluate(input.clone());
    let mut expected = vec![fe(0); 8];
    expected[7] = fe(3);
    assert_eq!(result, expected);
    let w0 = circuit.w_i_polynomial(0);
    assert_eq!(w0.num_vars, 3);
    assert_eq!(w0.evaluated_values, expected);
    let w1 = circuit.w_i_polynomial(1);
    assert_eq!(w1.num_vars, 3);
    assert_eq!(w1.evaluated_values, input);
    let mut small = sample_circuit();
    small.evaluate(vec![fe(2), fe(3), fe(4), fe(5)]);
    assert_eq!(small.w_i_polynomial(0).num_vars, 0);
    assert_eq!(small.w_i_polynomial(1).num_vars, 1);
    assert_eq!(small.w_i_polynomial(2).num_vars, 2);
}
