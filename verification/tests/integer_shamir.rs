use sumcheck_gkr::integer_shamir::{
    evaluate_polynomial, generate_polynomial, generate_shares, reconstruct_secret,
};

#[test]
fn integer_evaluate_polynomial_sums_the_terms() {
    // 4 - 3x + 2x^2 at x = 5
    assert_eq!(evaluate_polynomial(&[4, -3, 2], 5), 39);
    assert_eq!(evaluate_polynomial(&[4, -3, 2], -2), 18);
    assert_eq!(evaluate_polynomial(&[], 7), 0);
    assert_eq!(evaluate_polynomial(&[9], 0), 9);
}

#[test]
fn integer_generate_polynomial_starts_with_the_secret() {
    let p = generate_polynomial(42, 4);
    assert_eq!(p.len(), 4);
    assert_eq!(p[0], 42);
    assert!(p[1..].iter().all(|c| (1..100).contains(c)));
    assert_eq!(generate_polynomial(-7, 0), vec![-7]);
}

#[test]
fn integer_generate_shares_evaluates_at_one_to_n() {
    let shares = generate_shares(42, 3, 5);
    assert_eq!(shares.len(), 5);
    for (k, (x, _)) in shares.iter().enumerate() {
        assert_eq!(*x, k as i64 + 1);
    }
    // the constant polynomial: every share is the secret
    let shares = generate_shares(11, 1, 3);
    assert_eq!(shares, vec![(1, 11), (2, 11), (3, 11)]);
    assert!(generate_shares(11, 3, 0).is_empty());
}

#[test]
fn integer_reconstruct_secret_divides_each_term() {
    // 42 + 3x + 5x^2 at 1, 2, 3: 50, 68, 96; the Lagrange terms at zero are
    // 50 * 6 / 2, 68 * 3 / -1, 96 * 2 / 2, all exact
    let shares = vec![(1, 50), (2, 68), (3, 96)];
    assert_eq!(reconstruct_secret(&shares), 42);
    // 42 + 3x at 2 and 4: 48 * -4 / -2 + 54 * -2 / 2 = 96 - 54
    assert_eq!(reconstruct_secret(&[(2, 48), (4, 54)]), 42);
    // 7 * -3 / -2 truncates to 10, 9 * -1 / 2 truncates to -4
    assert_eq!(reconstruct_secret(&[(1, 7), (3, 9)]), 6);
    assert_eq!(reconstruct_secret(&[]), 0);
}
