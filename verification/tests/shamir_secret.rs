use sumcheck_gkr::field::FieldElement;
use sumcheck_gkr::shamir_secret::{generate_shares, reconstruct_secret, shares_from_coefficients};

fn subset_of_shares(
    shares: &[(FieldElement, FieldElement)],
    threshold: usize,
) -> Vec<(FieldElement, FieldElement)> {
    shares.iter().take(threshold).cloned().collect()
}

#[test]
fn test_generate_and_reconstruct_secret() {
    let secret = FieldElement::from_u64(123);
    let threshold = 3;
    let num_shares = 5;

    let shares = generate_shares(secret, threshold, num_shares);
    assert_eq!(shares.len(), num_shares);

    let subset = subset_of_shares(&shares, threshold);
    let reconstructed_secret = reconstruct_secret(&subset);
    assert_eq!(secret, reconstructed_secret);
}

#[test]
fn test_reconstruction_with_exact_threshold() {
    let secret = FieldElement::from_u64(42);
    let threshold = 4;
    let num_shares = 7;

    let shares = generate_shares(secret, threshold, num_shares);
    let subset = subset_of_shares(&shares, threshold);
    let reconstructed_secret = reconstruct_secret(&subset);
    assert_eq!(secret, reconstructed_secret);
}

#[test]
fn test_reconstruction_with_all_shares() {
    let secret = FieldElement::from_u64(314);
    let threshold = 3;
    let num_shares = 6;

    let shares = generate_shares(secret, threshold, num_shares);
    let reconstructed_secret = reconstruct_secret(&shares);
    assert_eq!(secret, reconstructed_secret);
}

#[test]
fn test_reconstruction_with_too_few_shares() {
    let secret = FieldElement::from_u64(999);
    let threshold = 5;
    let num_shares = 8;

    let shares = generate_shares(secret, threshold, num_shares);
    let subset = subset_of_shares(&shares, threshold - 1);
    let reconstructed_secret = reconstruct_secret(&subset);
    assert_ne!(secret, reconstructed_secret);
}

#[test]
fn test_different_secret_values() {
    let secrets = vec![1u64, 123u64, 1024u64, 98765u64];
    for secret_value in secrets {
        let secret = FieldElement::from_u64(secret_value);
        let threshold = 3;
        let num_shares = 5;
        let shares = generate_shares(secret, threshold, num_shares);
        let subset = subset_of_shares(&shares, threshold);
        let reconstructed_secret = reconstruct_secret(&subset);
        assert_eq!(secret, reconstructed_secret);
    }
}

#[test]
fn shamir_shares_are_values_at_one_to_n() {
    // 4 + 3x + x^2 at 1, 2, 3
    let coefficients = vec![FieldElement::from_u64(4), FieldElement::from_u64(3), FieldElement::from_u64(1)];
    let shares = shares_from_coefficients(&coefficients, 3);
    let expected: Vec<(FieldElement, FieldElement)> = vec![(1, 8), (2, 14), (3, 22)]
        .into_iter()
        .map(|(x, y)| (FieldElement::from_u64(x), FieldElement::from_u64(y)))
        .collect();
    assert_eq!(shares, expected);
    assert_eq!(reconstruct_secret(&shares), FieldElement::from_u64(4));
    // the line through (2, 14) and (3, 22) is -2 at zero, not the secret
    assert_ne!(reconstruct_secret(&shares[1..]), FieldElement::from_u64(4));
}

#[test]
fn shamir_shares_are_the_same_for_the_same_arguments() {
    let secret = FieldElement::from_u64(77);
    let a = generate_shares(secret, 4, 6);
    let b = generate_shares(secret, 4, 6);
    assert_eq!(a, b);
    for (i, (x, _)) in a.iter().enumerate() {
        assert_eq!(*x, FieldElement::from_u64(i as u64 + 1));
    }
    // the drawn coefficients are not all zero: the shares differ from the secret
    assert!(a.iter().any(|(_, y)| *y != secret));
}

#[test]
fn shamir_threshold_zero_or_one_shares_the_secret_itself() {
    let secret = FieldElement::from_u64(5);
    for threshold in [0usize, 1] {
        let shares = generate_shares(secret, threshold, 3);
        assert!(shares.iter().all(|(_, y)| *y == secret));
        assert_eq!(reconstruct_secret(&shares[..1]), secret);
    }
}

#[test]
fn shamir_reconstruct_of_no_shares_is_zero() {
    assert_eq!(reconstruct_secret(&[]), FieldElement::from_u64(0));
}
