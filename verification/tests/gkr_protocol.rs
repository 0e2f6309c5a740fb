use sumcheck_gkr::fiat_shamir_transcript::FiatShamirTranscript;
use sumcheck_gkr::field::FieldElement;
use sumcheck_gkr::gkr_protocol::{prove_gkr, verify_gkr};
use sumcheck_gkr::new_circuit::{Circuit, Gate, Layer, Operator};

fn fe(v: u64) -> FieldElement {
    FieldElement::from_u64(v)
}

fn test_circuit() -> Circuit {
    let gate1 = Gate::new(0, 1, 0, Operator::Add);
    let gate2 = Gate::new(2, 3, 1, Operator::Mul);
    let layer0 = Layer::new(vec![gate1]);
    let layer1 = Layer::new(vec![gate2]);
    Circuit::new(vec![layer0, layer1])
}

#[test]
fn test_gkr_protocol() {
    let mut circuit = test_circuit();
    let inputs = vec![fe(2), fe(3), fe(4), fe(5)];
    let mut prover_transcript = FiatShamirTranscript::new();
    let mut verifier_transcript = FiatShamirTranscript::new();
    let proof = prove_gkr(&mut circuit, &inputs, &mut prover_transcript);
    let result = verify_gkr(&mut circuit, proof, &inputs, &mut verifier_transcript);
    assert!(result, "The GKR proof is invalid!");
}

#[test]
fn gkr_proof_has_one_sumcheck_per_layer() {
    let mut circuit = test_circuit();
    let inputs = vec![fe(2), fe(3), fe(4), fe(5)];
    let mut transcript = FiatShamirTranscript::new();
    let proof = prove_gkr(&mut circuit, &inputs, &mut transcript);
    assert_eq!(proof.claimed_output, fe(20));
    assert_eq!(proof.sumcheck_proofs.len(), 2);
    assert_eq!(proof.sumcheck_proofs[0].random_challenges.len(), 2);
    assert_eq!(proof.sumcheck_proofs[1].random_challenges.len(), 4);
    assert_eq!(proof.wb_evals.len(), 1);
    assert_eq!(proof.wc_evals.len(), 1);
}

#[test]
fn gkr_verifier_refuses_a_proof_for_other_inputs() {
    let mut circuit = test_circuit();
    let inputs = vec![fe(2), fe(3), fe(4), fe(5)];
    let mut transcript = FiatShamirTranscript::new();
    let proof = prove_gkr(&mut circuit, &inputs, &mut transcript);
    let other = vec![fe(2), fe(3), fe(4), fe(6)];
    let mut transcript = FiatShamirTranscript::new();
    assert!(!verify_gkr(&mut circuit, proof, &other, &mut transcript));
}

#[test]
fn gkr_verifier_refuses_a_changed_evaluation() {
    let mut circuit = test_circuit();
    let inputs = vec![fe(2), fe(3), fe(4), fe(5)];
    let mut transcript = FiatShamirTranscript::new();
    let mut proof = prove_gkr(&mut circuit, &inputs, &mut transcript);
    proof.wb_evals[0] = fe(7);
    let mut transcript = FiatShamirTranscript::new();
    assert!(!verify_gkr(&mut circuit, proof, &inputs, &mut transcript));
}

#[test]
fn gkr_verifier_refuses_a_proof_missing_a_layer() {
    let mut circuit = test_circuit();
    let inputs = vec![fe(2), fe(3), fe(4), fe(5)];
    let mut transcript = FiatShamirTranscript::new();
    let mut proof = prove_gkr(&mut circuit, &inputs, &mut transcript);
    proof.sumcheck_proofs.pop();
    let mut transcript = FiatShamirTranscript::new();
    assert!(!verify_gkr(&mut circuit, proof, &inputs, &mut transcript));
}

#[test]
fn gkr_verifier_refuses_a_proof_without_evaluations() {
    let mut circuit = test_circuit();
    let inputs = vec![fe(2), fe(3), fe(4), fe(5)];
    let mut transcript = FiatShamirTranscript::new();
    let mut proof = prove_gkr(&mut circuit, &inputs, &mut transcript);
    proof.wb_evals.clear();
    proof.wc_evals.clear();
    let mut transcript = FiatShamirTranscript::new();
    assert!(!verify_gkr(&mut circuit, proof, &inputs, &mut transcript));
}

#[test]
fn gkr_protocol_accepts_a_three_layer_circuit() {
    // outputs: layer 2 writes 2 + 3 and 4 * 5 at 0 and 1, 6 * 7 and 8 + 9 at 2 and 3;
    // layer 1 adds the first two and multiplies the last two; layer 0 adds those
    let layer0 = Layer::new(vec![Gate::new(0, 1, 0, Operator::Add)]);
    let layer1 = Layer::new(vec![
        Gate::new(0, 1, 0, Operator::Add),
        Gate::new(2, 3, 1, Operator::Mul),
    ]);
    let layer2 = Layer::new(vec![
        Gate::new(0, 1, 0, Operator::Add),
        Gate::new(2, 3, 1, Operator::Mul),
        Gate::new(4, 5, 2, Operator::Mul),
        Gate::new(6, 7, 3, Operator::Add),
    ]);
    let mut circuit = Circuit::new(vec![layer0, layer1, layer2]);
    let inputs: Vec<FieldElement> = (2..10).map(fe).collect();
    let mut transcript = FiatShamirTranscript::new();
    let proof = prove_gkr(&mut circuit, &inputs, &mut transcript);
    // (5 + 20) + 42 * 17
    assert_eq!(proof.claimed_output, fe(25 + 42 * 17));
    let mut transcript = FiatShamirTranscript::new();
    assert!(verify_gkr(&mut circuit, proof, &inputs, &mut transcript));
}
