//! Shamir secret sharing over `i64`: the shares are the values at `1, 2, ...` of a
//! polynomial whose constant term is the secret and whose other coefficients are
//! drawn from `1..100`; reconstruction adds up the Lagrange terms at zero, each
//! divided with truncation.
use rand::rngs::ThreadRng;
use rand::Rng;
use vstd::arithmetic::mul::{lemma_mul_inequality, lemma_mul_nonzero};
use vstd::prelude::*;

verus! {

/// `rand::rngs::ThreadRng`, the generator of the current thread, carried as an
/// opaque value.
#[verifier::external_type_specification]
#[verifier::external_body]
pub struct ExThreadRng(ThreadRng);

/// `rand::thread_rng()`: the generator of the current thread.
#[verifier::external_body]
fn thread_generator() -> (r: ThreadRng) {
    rand::thread_rng()
}

/// `Rng::gen_range(1..100)` on an `i64`: a value from 1 to 99.
#[verifier::external_body]
fn random_coefficient(rng: &mut ThreadRng) -> (r: i64)
    ensures
        1 <= r < 100,
{
    rng.gen_range(1..100)
}

/// `v` fits an `i64`.
pub open spec fn fits_i64(v: int) -> bool {
    i64::MIN <= v <= i64::MAX
}

/// `b` to the power `e`.
pub open spec fn int_pow(b: int, e: nat) -> int
    decreases e,
{
    if e == 0 {
        1
    } else {
        b * int_pow(b, (e - 1) as nat)
    }
}

/// The sum of `cs[i] x^i` over the first `k` coefficients.
pub open spec fn poly_value(cs: Seq<i64>, x: int, k: nat) -> int
    decreases k,
{
    if k == 0 {
        0
    } else {
        poly_value(cs, x, (k - 1) as nat) + cs[k - 1] * int_pow(x, (k - 1) as nat)
    }
}

/// Evaluating `cs` at `x` term by term never leaves the `i64` range: neither the
/// powers, nor the terms, nor the running sums.
pub open spec fn evaluation_fits(cs: Seq<i64>, x: int) -> bool {
    forall|i: nat|
        i < cs.len() ==> fits_i64(#[trigger] int_pow(x, i)) && fits_i64(cs[i as int] * int_pow(x, i))
            && fits_i64(poly_value(cs, x, i + 1))
}

/// The largest that the non-constant terms of a polynomial with `t` coefficients
/// drawn from `1..100` can add up to at `n`: `99 (n + n^2 + ... + n^(t-1))`.
pub open spec fn largest_random_part(n: int, t: nat) -> int
    decreases t,
{
    if t <= 1 {
        0
    } else {
        largest_random_part(n, (t - 1) as nat) + 99 * int_pow(n, (t - 1) as nat)
    }
}

/// Coefficients as `generate_polynomial` draws them: the secret, then values from
/// 1 to 99.
pub open spec fn drawn_polynomial(cs: Seq<i64>, secret: i64, threshold: usize) -> bool {
    &&& cs.len() == if threshold == 0 {
        1
    } else {
        threshold as int
    }
    &&& cs[0] == secret
    &&& forall|i: int| 1 <= i < cs.len() ==> 1 <= #[trigger] cs[i] < 100
}

/// The product over the points other than `xj` among the first `k` of `-x_i`.
pub open spec fn int_numerator(xs: Seq<i64>, xj: i64, k: nat) -> int
    decreases k,
{
    if k == 0 {
        1
    } else if xs[k - 1] != xj {
        int_numerator(xs, xj, (k - 1) as nat) * (-xs[k - 1])
    } else {
        int_numerator(xs, xj, (k - 1) as nat)
    }
}

/// The product over the points other than `xj` among the first `k` of `xj - x_i`.
pub open spec fn int_denominator(xs: Seq<i64>, xj: i64, k: nat) -> int
    decreases k,
{
    if k == 0 {
        1
    } else if xs[k - 1] != xj {
        int_denominator(xs, xj, (k - 1) as nat) * (xj - xs[k - 1])
    } else {
        int_denominator(xs, xj, (k - 1) as nat)
    }
}

/// Division truncated toward zero, as `i64` division does it.
pub open spec fn trunc_div(x: int, d: int) -> int {
    if x == 0 {
        0
    } else if x > 0 && d > 0 {
        x / d
    } else if x < 0 && d < 0 {
        (x * -1) / (d * -1)
    } else if x < 0 {
        ((x * -1) / d) * -1
    } else {
        (x / (d * -1)) * -1
    }
}

/// The Lagrange term of share `j` at zero, divided with truncation.
pub open spec fn int_term(xs: Seq<i64>, ys: Seq<i64>, j: int) -> int {
    trunc_div(
        ys[j] * int_numerator(xs, xs[j], xs.len()),
        int_denominator(xs, xs[j], xs.len()),
    )
}

/// The sum of the first `k` terms.
pub open spec fn int_terms_sum(xs: Seq<i64>, ys: Seq<i64>, k: nat) -> int
    decreases k,
{
    if k == 0 {
        0
    } else {
        int_terms_sum(xs, ys, (k - 1) as nat) + int_term(xs, ys, k - 1)
    }
}

/// Reconstructing from the points `xs` and values `ys` never leaves the `i64` range.
pub open spec fn reconstruction_fits(xs: Seq<i64>, ys: Seq<i64>) -> bool {
    forall|j: int| 0 <= j < xs.len() ==> #[trigger] share_fits(xs, ys, j)
}

/// The steps for share `j` never leave the `i64` range: the negated points, the
/// differences, the running products, the scaled numerator, the term and the sum
/// up to it.
pub open spec fn share_fits(xs: Seq<i64>, ys: Seq<i64>, j: int) -> bool {
    &&& forall|i: int|
        0 <= i < xs.len() && xs[i] != xs[j] ==> fits_i64(-xs[i]) && fits_i64(#[trigger] (xs[j]
            - xs[i]))
    &&& forall|k: nat|
        k <= xs.len() ==> fits_i64(#[trigger] int_numerator(xs, xs[j], k)) && fits_i64(
            int_denominator(xs, xs[j], k),
        )
    &&& fits_i64(ys[j] * int_numerator(xs, xs[j], xs.len()))
    &&& fits_i64(int_term(xs, ys, j))
    &&& fits_i64(int_terms_sum(xs, ys, (j + 1) as nat))
}

/// The points of the shares.
pub open spec fn int_share_xs(shares: Seq<(i64, i64)>) -> Seq<i64> {
    shares.map_values(|s: (i64, i64)| s.0)
}

/// The values of the shares.
pub open spec fn int_share_ys(shares: Seq<(i64, i64)>) -> Seq<i64> {
    shares.map_values(|s: (i64, i64)| s.1)
}

/// Coefficients for a secret: the secret, then `threshold - 1` values drawn from
/// `1..100` with the thread's generator.
pub fn generate_polynomial(secret: i64, threshold: usize) -> (r: Vec<i64>)
    ensures
        drawn_polynomial(r@, secret, threshold),
{
    let mut rng = thread_generator();
    let mut polynomial: Vec<i64> = vec![secret];
    let mut k: usize = 1;
    while k < threshold
        invariant
            1 <= k,
            k <= threshold || threshold == 0,
            threshold == 0 ==> k == 1,
            polynomial.len() == k,
            polynomial[0] == secret,
            forall|i: int| 1 <= i < polynomial.len() ==> 1 <= #[trigger] polynomial[i] < 100,
        decreases threshold - k,
    {
        polynomial.push(random_coefficient(&mut rng));
        k = k + 1;
    }
    assert(polynomial.len() == if threshold == 0 {
        1
    } else {
        threshold as int
    });
    assert(polynomial@[0] == secret);
    polynomial
}

/// `x` to the power `e`, by repeated multiplication.
fn power(x: i64, e: u32) -> (r: i64)
    requires
        forall|k: nat| k <= e ==> fits_i64(#[trigger] int_pow(x as int, k)),
    ensures
        r == int_pow(x as int, e as nat),
{
    let mut acc: i64 = 1;
    let mut k: u32 = 0;
    while k < e
        invariant
            k <= e,
            forall|j: nat| j <= e ==> fits_i64(#[trigger] int_pow(x as int, j)),
            acc == int_pow(x as int, k as nat),
        decreases e - k,
    {
        proof {
            assert(fits_i64(int_pow(x as int, (k + 1) as nat)));
            assert(int_pow(x as int, (k + 1) as nat) == x * int_pow(x as int, k as nat));
            assert(acc * x == x * acc) by (nonlinear_arith);
        }
        acc = acc * x;
        k = k + 1;
    }
    acc
}

/// The value of the polynomial at `x`: the sum of `coefficient_i x^i`, added from
/// the constant term up.
pub fn evaluate_polynomial(polynomial: &[i64], x: i64) -> (r: i64)
    requires
        polynomial.len() <= u32::MAX + 1,
        evaluation_fits(polynomial@, x as int),
    ensures
        r == poly_value(polynomial@, x as int, polynomial.len() as nat),
{
    let mut acc: i64 = 0;
    let mut i: usize = 0;
    while i < polynomial.len()
        invariant
            i <= polynomial.len(),
            polynomial.len() <= u32::MAX + 1,
            evaluation_fits(polynomial@, x as int),
            acc == poly_value(polynomial@, x as int, i as nat),
        decreases polynomial.len() - i,
    {
        let e = i as u32;
        proof {
            assert forall|k: nat| k <= e implies fits_i64(#[trigger] int_pow(x as int, k)) by {
                assert(k < polynomial.len());
            }
            assert(fits_i64(int_pow(x as int, i as nat)));
            assert(fits_i64(poly_value(polynomial@, x as int, i as nat + 1)));
        }
        let p = power(x, e);
        acc = acc + polynomial[i] * p;
        i = i + 1;
    }
    acc
}

/// Powers of a larger base are larger.
proof fn lemma_pow_base_monotone(a: int, b: int, e: nat)
    requires
        0 <= a <= b,
    ensures
        0 <= int_pow(a, e) <= int_pow(b, e),
    decreases e,
{
    if e > 0 {
        lemma_pow_base_monotone(a, b, (e - 1) as nat);
        lemma_mul_inequality(a, b, int_pow(a, (e - 1) as nat));
        assert(b * int_pow(a, (e - 1) as nat) <= b * int_pow(b, (e - 1) as nat)) by (nonlinear_arith)
            requires
                b >= 0,
                int_pow(a, (e - 1) as nat) <= int_pow(b, (e - 1) as nat),
        ;
        assert(a * int_pow(a, (e - 1) as nat) >= 0) by (nonlinear_arith)
            requires
                a >= 0,
                int_pow(a, (e - 1) as nat) >= 0,
        ;
    }
}

/// Higher powers of a base of one or more are larger.
proof fn lemma_pow_exp_monotone(b: int, i: nat, j: nat)
    requires
        b >= 1,
        i <= j,
    ensures
        1 <= int_pow(b, i) <= int_pow(b, j),
    decreases j,
{
    if j > i {
        lemma_pow_exp_monotone(b, i, (j - 1) as nat);
        assert(b * int_pow(b, (j - 1) as nat) >= int_pow(b, (j - 1) as nat)) by (nonlinear_arith)
            requires
                b >= 1,
                int_pow(b, (j - 1) as nat) >= 1,
        ;
    } else {
        lemma_pow_at_least_one(b, i);
    }
}

/// Powers of a base of one or more are one or more.
proof fn lemma_pow_at_least_one(b: int, e: nat)
    requires
        b >= 1,
    ensures
        int_pow(b, e) >= 1,
    decreases e,
{
    if e > 0 {
        lemma_pow_at_least_one(b, (e - 1) as nat);
        assert(b * int_pow(b, (e - 1) as nat) >= 1) by (nonlinear_arith)
            requires
                b >= 1,
                int_pow(b, (e - 1) as nat) >= 1,
        ;
    }
}

/// The largest random part grows with the number of coefficients.
proof fn lemma_largest_random_part_monotone(n: int, k: nat, t: nat)
    requires
        n >= 1,
        k <= t,
    ensures
        0 <= largest_random_part(n, k) <= largest_random_part(n, t),
    decreases t,
{
    if t > k {
        lemma_largest_random_part_monotone(n, k, (t - 1) as nat);
        lemma_pow_at_least_one(n, (t - 1) as nat);
    } else {
        lemma_largest_random_part_nonneg(n, t);
    }
}

/// The largest random part is not negative.
proof fn lemma_largest_random_part_nonneg(n: int, t: nat)
    requires
        n >= 1,
    ensures
        largest_random_part(n, t) >= 0,
    decreases t,
{
    if t > 1 {
        lemma_largest_random_part_nonneg(n, (t - 1) as nat);
        lemma_pow_at_least_one(n, (t - 1) as nat);
    }
}

/// Drawn coefficients evaluate within range at every share point.
proof fn lemma_drawn_fits(cs: Seq<i64>, secret: i64, threshold: usize, x: int, n: int)
    requires
        drawn_polynomial(cs, secret, threshold),
        1 <= x <= n,
        secret + largest_random_part(n, cs.len()) <= i64::MAX,
        99 * int_pow(n, (cs.len() - 1) as nat) <= i64::MAX,
    ensures
        evaluation_fits(cs, x),
{
    assert forall|i: nat| i < cs.len() implies fits_i64(#[trigger] int_pow(x, i)) && fits_i64(
        cs[i as int] * int_pow(x, i),
    ) && fits_i64(poly_value(cs, x, i + 1)) by {
        let top = (cs.len() - 1) as nat;
        lemma_pow_base_monotone(x, n, i);
        lemma_pow_exp_monotone(n, i, top);
        lemma_pow_at_least_one(x, i);
        lemma_poly_value_range(cs, secret, threshold, x, n, i + 1);
        lemma_largest_random_part_monotone(n, i + 1, cs.len());
        assert(int_pow(x, i) <= 99 * int_pow(n, top));
        if i >= 1 {
            let c = cs[i as int];
            assert(1 <= c < 100);
            assert(c * int_pow(x, i) <= 99 * int_pow(n, top)) by (nonlinear_arith)
                requires
                    1 <= c < 100,
                    0 <= int_pow(x, i) <= int_pow(n, i),
                    int_pow(n, i) <= int_pow(n, top),
            ;
            assert(c * int_pow(x, i) >= 1) by (nonlinear_arith)
                requires
                    1 <= c,
                    int_pow(x, i) >= 1,
            ;
        } else {
            assert(int_pow(x, 0) == 1);
            let c0 = cs[0] as int;
            assert(c0 * int_pow(x, 0) == c0) by (nonlinear_arith)
                requires
                    int_pow(x, 0) == 1,
            ;
        }
    }
}

/// With drawn coefficients the running sums stay between the secret and the
/// secret plus the largest random part.
proof fn lemma_poly_value_range(cs: Seq<i64>, secret: i64, threshold: usize, x: int, n: int, k: nat)
    requires
        drawn_polynomial(cs, secret, threshold),
        1 <= x <= n,
        1 <= k <= cs.len(),
    ensures
        secret <= poly_value(cs, x, k) <= secret + largest_random_part(n, k),
    decreases k,
{
    if k == 1 {
        assert(poly_value(cs, x, 0) == 0);
        assert(int_pow(x, 0) == 1);
        let c0 = cs[0] as int;
        assert(c0 * int_pow(x, 0) == c0) by (nonlinear_arith)
            requires
                int_pow(x, 0) == 1,
        ;
        assert(largest_random_part(n, 1) == 0);
    } else {
        lemma_poly_value_range(cs, secret, threshold, x, n, (k - 1) as nat);
        let i = (k - 1) as nat;
        lemma_pow_base_monotone(x, n, i);
        lemma_pow_exp_monotone(x, 0, i);
        assert(1 <= cs[i as int] < 100);
        assert(cs[i as int] * int_pow(x, i) <= 99 * int_pow(n, i)) by (nonlinear_arith)
            requires
                1 <= cs[i as int] < 100,
                0 <= int_pow(x, i) <= int_pow(n, i),
        ;
        assert(cs[i as int] * int_pow(x, i) >= 1) by (nonlinear_arith)
            requires
                1 <= cs[i as int],
                int_pow(x, i) >= 1,
        ;
    }
}

/// Shares of `secret`: the values at `1, ..., num_shares` (with `num_shares` taken
/// as an `i64`) of a polynomial whose constant term is the secret and whose
/// `threshold - 1` other coefficients are drawn from `1..100`. The bound on the
/// secret keeps every evaluation in range, whatever is drawn.
pub fn generate_shares(secret: i64, threshold: usize, num_shares: usize) -> (r: Vec<(i64, i64)>)
    requires
        threshold <= u32::MAX + 1,
        (num_shares as i64) >= 1 ==> {
            let t: nat = if threshold == 0 {
                1
            } else {
                threshold as nat
            };
            &&& secret + largest_random_part(num_shares as i64 as int, t) <= i64::MAX
            &&& 99 * int_pow(num_shares as i64 as int, (t - 1) as nat) <= i64::MAX
        },
    ensures
        r.len() == if (num_shares as i64) >= 1 {
            num_shares as i64 as int
        } else {
            0
        },
        exists|cs: Seq<i64>|
            {
                &&& drawn_polynomial(cs, secret, threshold)
                &&& forall|k: int|
                    0 <= k < r.len() ==> (#[trigger] r[k]).0 == k + 1 && r[k].1 == poly_value(
                        cs,
                        k + 1,
                        cs.len(),
                    )
            },
{
    let polynomial = generate_polynomial(secret, threshold);
    let last = num_shares as i64;
    let mut shares: Vec<(i64, i64)> = Vec::new();
    let mut k: i64 = 0;
    while k < last
        invariant
            0 <= k,
            last >= 1 ==> k <= last,
            last < 1 ==> k == 0,
            last == num_shares as i64,
            drawn_polynomial(polynomial@, secret, threshold),
            threshold <= u32::MAX + 1,
            last >= 1 ==> secret + largest_random_part(last as int, polynomial.len() as nat)
                <= i64::MAX,
            last >= 1 ==> 99 * int_pow(last as int, (polynomial.len() - 1) as nat) <= i64::MAX,
            shares.len() == k,
            forall|j: int|
                0 <= j < k ==> (#[trigger] shares[j]).0 == j + 1 && shares[j].1 == poly_value(
                    polynomial@,
                    j + 1,
                    polynomial.len() as nat,
                ),
        decreases last - k,
    {
        let x = k + 1;
        proof {
            lemma_drawn_fits(polynomial@, secret, threshold, x as int, last as int);
        }
        let y = evaluate_polynomial(polynomial.as_slice(), x);
        shares.push((x, y));
        k = k + 1;
    }
    shares
}

/// Nothing among the first `k` factors of a denominator is zero, so neither is it.
proof fn lemma_denominator_nonzero(xs: Seq<i64>, xj: i64, k: nat)
    requires
        k <= xs.len(),
    ensures
        int_denominator(xs, xj, k) != 0,
    decreases k,
{
    if k > 0 {
        lemma_denominator_nonzero(xs, xj, (k - 1) as nat);
        if xs[k - 1] != xj {
            lemma_mul_nonzero(int_denominator(xs, xj, (k - 1) as nat), xj - xs[k - 1]);
        }
    }
}

/// The secret from the shares: the sum over the shares of `y_j` times the product
/// of `-x_i`, divided (with truncation) by the product of `x_j - x_i`, both over the
/// shares with another `x`.
pub fn reconstruct_secret(shares: &[(i64, i64)]) -> (r: i64)
    requires
        reconstruction_fits(int_share_xs(shares@), int_share_ys(shares@)),
    ensures
        r == int_terms_sum(int_share_xs(shares@), int_share_ys(shares@), shares.len() as nat),
{
    let ghost xs = int_share_xs(shares@);
    let ghost ys = int_share_ys(shares@);
    let n = shares.len();
    let mut secret: i64 = 0;
    let mut j: usize = 0;
    while j < n
        invariant
            j <= n,
            n == shares.len(),
            xs == int_share_xs(shares@),
            ys == int_share_ys(shares@),
            reconstruction_fits(xs, ys),
            secret == int_terms_sum(xs, ys, j as nat),
        decreases n - j,
    {
        let (x_j, y_j) = shares[j];
        let mut numerator: i64 = 1;
        let mut denominator: i64 = 1;
        let mut i: usize = 0;
        proof {
            assert(xs[j as int] == x_j && ys[j as int] == y_j);
        }
        while i < n
            invariant
                i <= n,
                j < n,
                n == shares.len(),
                xs == int_share_xs(shares@),
                ys == int_share_ys(shares@),
                reconstruction_fits(xs, ys),
                xs[j as int] == x_j,
                numerator == int_numerator(xs, x_j, i as nat),
                denominator == int_denominator(xs, x_j, i as nat),
            decreases n - i,
        {
            let (x_i, _) = shares[i];
            proof {
                assert(xs[i as int] == x_i);
                assert(share_fits(xs, ys, j as int));
                assert(fits_i64(int_numerator(xs, xs[j as int], (i + 1) as nat)));
                assert(fits_i64(int_denominator(xs, xs[j as int], (i + 1) as nat)));
                if x_i != x_j {
                    assert(fits_i64(xs[j as int] - xs[i as int]));
                }
            }
            if x_i != x_j {
                numerator = numerator * (-x_i);
                denominator = denominator * (x_j - x_i);
            }
            i = i + 1;
        }
        proof {
            lemma_denominator_nonzero(xs, x_j, n as nat);
            assert(share_fits(xs, ys, j as int));
            assert(fits_i64(int_term(xs, ys, j as int)));
            assert(fits_i64(int_terms_sum(xs, ys, (j + 1) as nat)));
        }
        let product = y_j * numerator;
        let term = match product.checked_div(denominator) {
            Some(q) => q,
            None => 0,
        };
        secret = secret + term;
        j = j + 1;
    }
    secret
}

} // verus!
