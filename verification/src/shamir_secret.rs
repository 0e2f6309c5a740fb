//! Shamir secret sharing over the BN254 scalar field: the shares are the values at
//! `1, 2, ...` of a polynomial whose constant term is the secret and whose other
//! coefficients are random; Lagrange interpolation at zero gives the secret back.
use crate::field::{
    ark_add, ark_from_u64, ark_inverse, ark_mul, ark_neg, ark_one, ark_pow, ark_random_elements,
    ark_sub, ark_zero, finv, fmul, fneg, fpow, fsub, fsum, invertible, lemma_fadd_laws,
    lemma_field_ops_canonical, lemma_fmul_laws, lemma_invertible_by, modulus, vals, FieldElement,
};
use crate::multi_poly::all_canonical;
use crate::univariate_dense::{
    dense_eval, lemma_fsub_nonzero, lemma_others_bound, lemma_padded_sum_eval,
    lemma_roots_vanish, lemma_scale_eval, lemma_vanishing_coeffs,
    lemma_vanishing_factor, lemma_vanishing_root, padded_add, pairwise_invertible, scaled, vanishing,
};
use vstd::prelude::*;

verus! {

/// The `x` of the shares.
pub open spec fn share_xs(shares: Seq<(FieldElement, FieldElement)>) -> Seq<nat> {
    shares.map_values(|s: (FieldElement, FieldElement)| s.0.val())
}

/// The `y` of the shares.
pub open spec fn share_ys(shares: Seq<(FieldElement, FieldElement)>) -> Seq<nat> {
    shares.map_values(|s: (FieldElement, FieldElement)| s.1.val())
}

/// The Lagrange term of share `i` at `z`: `y_i` times the product of `z - x_j` over
/// the other points, divided by the product of `x_i - x_j` over them.
pub open spec fn lagrange_term_at(xs: Seq<nat>, ys: Seq<nat>, z: nat, i: int) -> nat {
    fmul(ys[i], fmul(vanishing(xs[i], xs, z), finv(vanishing(xs[i], xs, xs[i]))))
}

/// The Lagrange terms at `z` of the first `n` shares, in order.
pub open spec fn lagrange_terms_at(xs: Seq<nat>, ys: Seq<nat>, z: nat, n: nat) -> Seq<nat> {
    Seq::new(n, |i: int| lagrange_term_at(xs, ys, z, i))
}

/// No two points are equal.
pub open spec fn distinct_points(xs: Seq<nat>) -> bool {
    forall|a: int, b: int| 0 <= a < b < xs.len() ==> xs[a] != xs[b]
}

/// The values `ys` are those of the polynomial with coefficients `c` at the points `xs`.
pub open spec fn interpolates(c: Seq<nat>, xs: Seq<nat>, ys: Seq<nat>) -> bool {
    forall|k: int| 0 <= k < xs.len() ==> #[trigger] ys[k] == dense_eval(c, xs[k])
}

/// An inverse is unique.
pub proof fn lemma_inverse_unique(a: nat, b: nat)
    requires
        b < modulus(),
        fmul(a, b) == 1,
    ensures
        finv(a) == b,
{
    let c = finv(a);
    assert(c < modulus() && fmul(a, c) == 1);
    lemma_fmul_laws(b, a, c);
    lemma_fmul_laws(a, b, 0);
    lemma_fmul_laws(c, 1, 0);
    lemma_fmul_laws(b, 1, 0);
    lemma_fmul_laws(a, c, 0);
}

/// The shares of the polynomial with the given coefficients: the points
/// `(i, p(i))` for `i` from 1 to `num_shares`.
pub fn shares_from_coefficients(coefficients: &[FieldElement], num_shares: usize) -> (r: Vec<
    (FieldElement, FieldElement),
>)
    ensures
        r.len() == num_shares,
        forall|i: int|
            0 <= i < num_shares ==> (#[trigger] r[i]).0.val() == i + 1 && r[i].1.val()
                == dense_eval(vals(coefficients@), (i + 1) as nat),
{
    let ghost cs = vals(coefficients@);
    let mut shares: Vec<(FieldElement, FieldElement)> = Vec::new();
    let mut i: usize = 0;
    while i < num_shares
        invariant
            i <= num_shares,
            cs == vals(coefficients@),
            shares.len() == i,
            forall|k: int|
                0 <= k < i ==> (#[trigger] shares[k]).0.val() == k + 1 && shares[k].1.val()
                    == dense_eval(cs, (k + 1) as nat),
        decreases num_shares - i,
    {
        let x = ark_from_u64((i + 1) as u64);
        let mut y = ark_zero();
        let mut j: usize = 0;
        while j < coefficients.len()
            invariant
                j <= coefficients.len(),
                cs == vals(coefficients@),
                y.val() == dense_eval(cs.subrange(0, j as int), x.val()),
            decreases coefficients.len() - j,
        {
            let term = ark_mul(coefficients[j], ark_pow(x, j as u64));
            y = ark_add(y, term);
            proof {
                let next = cs.subrange(0, j + 1);
                assert(next.drop_last() =~= cs.subrange(0, j as int));
                assert(next.last() == coefficients[j as int].val());
            }
            j = j + 1;
        }
        proof {
            assert(cs.subrange(0, coefficients.len() as int) =~= cs);
        }
        shares.push((x, y));
        i = i + 1;
    }
    shares
}

/// Shares of `secret`: the values at `1, ..., num_shares` of a polynomial whose
/// constant term is the secret and whose `threshold - 1` other coefficients are
/// drawn from `ark_std::test_rng()`. Whatever is drawn, some such polynomial gives
/// every share.
pub fn generate_shares(secret: FieldElement, threshold: usize, num_shares: usize) -> (r: Vec<
    (FieldElement, FieldElement),
>)
    ensures
        r.len() == num_shares,
        forall|i: int| 0 <= i < num_shares ==> (#[trigger] r[i]).0.val() == i + 1,
        exists|c: Seq<nat>|
            {
                &&& c.len() == if threshold == 0 {
                    1
                } else {
                    threshold as int
                }
                &&& c[0] == secret.val()
                &&& forall|i: int|
                    0 <= i < num_shares ==> (#[trigger] r[i]).1.val() == dense_eval(
                        c,
                        (i + 1) as nat,
                    )
            },
{
    let count = if threshold > 0 {
        threshold - 1
    } else {
        0
    };
    let random = ark_random_elements(count);
    let mut coefficients: Vec<FieldElement> = vec![secret];
    let mut k: usize = 0;
    while k < random.len()
        invariant
            k <= random.len(),
            coefficients.len() == k + 1,
            coefficients[0] == secret,
        decreases random.len() - k,
    {
        coefficients.push(random[k]);
        k = k + 1;
    }
    let shares = shares_from_coefficients(coefficients.as_slice(), num_shares);
    proof {
        let c = vals(coefficients@);
        assert(c[0] == secret.val());
        assert(c.len() == if threshold == 0 {
            1
        } else {
            threshold as int
        });
        assert(forall|i: int|
            0 <= i < num_shares ==> (#[trigger] shares[i]).1.val() == dense_eval(
                c,
                (i + 1) as nat,
            ));
    }
    shares
}

/// The secret from the shares, by Lagrange interpolation at zero: the sum over the
/// shares of `y_i` times the product of `-x_j`, divided by the product of
/// `x_i - x_j`, both over the shares with another `x`.
pub fn reconstruct_secret(shares: &[(FieldElement, FieldElement)]) -> (r: FieldElement)
    ensures
        r.val() == fsum(
            lagrange_terms_at(share_xs(shares@), share_ys(shares@), 0, shares.len() as nat),
        ),
        forall|c: Seq<nat>|
            #[trigger] interpolates(c, share_xs(shares@), share_ys(shares@)) && c.len()
                <= shares.len() && distinct_points(share_xs(shares@)) ==> r.val() == dense_eval(c, 0),
{
    let ghost xs = share_xs(shares@);
    let ghost ys = share_ys(shares@);
    let n = shares.len();
    let mut secret = ark_zero();
    let mut i: usize = 0;
    proof {
        assert forall|k: int| 0 <= k < xs.len() implies #[trigger] xs[k] < modulus() by {
            vstd::arithmetic::div_mod::lemma_mod_bound(
                crate::field::le_value(shares[k].0.bytes@) as int,
                modulus() as int,
            );
        }
    }
    while i < n
        invariant
            i <= n,
            n == shares.len(),
            xs == share_xs(shares@),
            ys == share_ys(shares@),
            forall|k: int| 0 <= k < xs.len() ==> #[trigger] xs[k] < modulus(),
            forall|k: int| 0 <= k < i ==> #[trigger] invertible(vanishing(xs[k], xs, xs[k])),
            secret.val() == fsum(lagrange_terms_at(xs, ys, 0, n as nat).subrange(0, i as int)),
        decreases n - i,
    {
        let (x_i, y_i) = shares[i];
        let ghost xi = x_i.val();
        let mut numerator = ark_one();
        let mut denominator = ark_one();
        let mut j: usize = 0;
        while j < n
            invariant
                j <= n,
                n == shares.len(),
                i < n,
                xs == share_xs(shares@),
                xi == x_i.val(),
                xi == xs[i as int],
                forall|k: int| 0 <= k < xs.len() ==> #[trigger] xs[k] < modulus(),
                numerator.val() == vanishing(xi, xs.subrange(0, j as int), 0),
                denominator.val() == vanishing(xi, xs.subrange(0, j as int), xi),
                denominator.val() != 0,
            decreases n - j,
        {
            let (x_j, _) = shares[j];
            proof {
                let next = xs.subrange(0, j + 1);
                assert(next.drop_last() =~= xs.subrange(0, j as int));
                assert(next.last() == x_j.val());
                assert(xs[j as int] == x_j.val());
            }
            if !crate::field::ark_eq(x_i, x_j) {
                numerator = ark_mul(numerator, ark_neg(x_j));
                let diff = ark_sub(x_i, x_j);
                proof {
                    lemma_fsub_nonzero(xi, x_j.val());
                }
                denominator = ark_mul(denominator, diff);
            }
            j = j + 1;
        }
        proof {
            assert(xs.subrange(0, n as int) =~= xs);
        }
        let inverse = match ark_inverse(denominator) {
            Some(v) => v,
            None => {
                proof {
                    assert(false);
                }
                ark_zero()
            },
        };
        proof {
            vstd::arithmetic::div_mod::lemma_mod_bound(
                crate::field::le_value(inverse.bytes@) as int,
                modulus() as int,
            );
            lemma_inverse_unique(denominator.val(), inverse.val());
            lemma_invertible_by(denominator.val(), inverse.val());
            let terms = lagrange_terms_at(xs, ys, 0, n as nat);
            assert(terms.subrange(0, i + 1).drop_last() =~= terms.subrange(0, i as int));
            assert(ys[i as int] == y_i.val());
        }
        secret = ark_add(secret, ark_mul(y_i, ark_mul(numerator, inverse)));
        i = i + 1;
    }
    proof {
        let all = lagrange_terms_at(xs, ys, 0, n as nat);
        assert(all.subrange(0, n as int) =~= all);
        assert forall|c: Seq<nat>|
            #[trigger] interpolates(c, xs, ys) && c.len() <= n && distinct_points(xs) implies secret.val()
            == dense_eval(c, 0) by {
            lemma_share_values_canonical(shares@);
            lemma_reconstruction(xs, ys, c);
        }
    }
    secret
}

/// The values of shares are canonical.
proof fn lemma_share_values_canonical(shares: Seq<(FieldElement, FieldElement)>)
    ensures
        all_canonical(share_xs(shares)),
        all_canonical(share_ys(shares)),
{
    assert forall|k: int| 0 <= k < shares.len() implies #[trigger] share_xs(shares)[k] < modulus()
        && share_ys(shares)[k] < modulus() by {
        vstd::arithmetic::div_mod::lemma_mod_bound(
            crate::field::le_value(shares[k].0.bytes@) as int,
            modulus() as int,
        );
        vstd::arithmetic::div_mod::lemma_mod_bound(
            crate::field::le_value(shares[k].1.bytes@) as int,
            modulus() as int,
        );
    }
}

/// A sum whose terms are all zero but one is that term.
pub proof fn lemma_fsum_single_nonzero(s: Seq<nat>, k: int)
    requires
        0 <= k < s.len(),
        s[k] < modulus(),
        forall|t: int| 0 <= t < s.len() && t != k ==> #[trigger] s[t] == 0,
    ensures
        fsum(s) == s[k],
{
    let lo = s.subrange(0, k);
    let hi = s.subrange(k + 1, s.len() as int);
    let mid = seq![s[k]];
    assert(s =~= lo + mid + hi);
    assert forall|t: int| 0 <= t < lo.len() implies #[trigger] lo[t] == 0 by {
        assert(lo[t] == s[t]);
    }
    assert forall|t: int| 0 <= t < hi.len() implies #[trigger] hi[t] == 0 by {
        assert(hi[t] == s[k + 1 + t]);
    }
    crate::univariate_dense::lemma_fsum_zeros(lo);
    crate::univariate_dense::lemma_fsum_zeros(hi);
    crate::field::lemma_fsum_concat(lo + mid, hi);
    crate::field::lemma_fsum_concat(lo, mid);
    assert(mid.drop_last() =~= Seq::<nat>::empty());
    assert(fsum(mid.drop_last()) == 0);
    lemma_fadd_laws(s[k], 0, 0);
    assert(fsum(mid) == s[k]);
}

/// The Lagrange polynomial of the first `k` shares: coefficients, at most as many
/// as there are points, whose value everywhere is the sum of the Lagrange terms.
pub proof fn lemma_lagrange_poly(xs: Seq<nat>, ys: Seq<nat>, k: nat) -> (cf: Seq<nat>)
    requires
        all_canonical(xs),
        xs.len() == ys.len(),
        k <= xs.len(),
    ensures
        all_canonical(cf),
        cf.len() <= xs.len(),
        forall|z: nat|
            z < modulus() ==> #[trigger] dense_eval(cf, z) == fsum(lagrange_terms_at(xs, ys, z, k)),
    decreases k,
{
    if k == 0 {
        let cf = Seq::<nat>::empty();
        assert forall|z: nat| z < modulus() implies #[trigger] dense_eval(cf, z) == fsum(
            lagrange_terms_at(xs, ys, z, k),
        ) by {
            assert(lagrange_terms_at(xs, ys, z, k) =~= Seq::<nat>::empty());
        }
        cf
    } else {
        let i = (k - 1) as int;
        let cf1 = lemma_lagrange_poly(xs, ys, (k - 1) as nat);
        let v = lemma_vanishing_coeffs(xs[i], xs);
        lemma_others_bound(xs[i], xs);
        assert(0 <= i < xs.len() && xs[i] == xs[i]);
        let d = vanishing(xs[i], xs, xs[i]);
        let sc = scaled(fmul(ys[i], finv(d)), v);
        assert(all_canonical(sc)) by {
            assert forall|t: int| 0 <= t < sc.len() implies #[trigger] sc[t] < modulus() by {
                lemma_field_ops_canonical(fmul(ys[i], finv(d)), v[t]);
            }
        }
        let cf = padded_add(cf1, sc);
        assert(all_canonical(cf)) by {
            assert forall|t: int| 0 <= t < cf.len() implies #[trigger] cf[t] < modulus() by {
                if t < cf1.len() {
                    lemma_field_ops_canonical(cf1[t], sc[t]);
                }
            }
        }
        assert forall|z: nat| z < modulus() implies #[trigger] dense_eval(cf, z) == fsum(
            lagrange_terms_at(xs, ys, z, k),
        ) by {
            lemma_padded_sum_eval(cf1, sc, z);
            lemma_scale_eval(fmul(ys[i], finv(d)), v, z);
            let vz = dense_eval(v, z);
            lemma_fmul_laws(ys[i], finv(d), vz);
            lemma_fmul_laws(finv(d), vz, 0);
            let terms = lagrange_terms_at(xs, ys, z, k);
            assert(terms.drop_last() =~= lagrange_terms_at(xs, ys, z, (k - 1) as nat));
        }
        cf
    }
}

/// At one of the points, the Lagrange terms add up to that point's value.
proof fn lemma_lagrange_at_point(xs: Seq<nat>, ys: Seq<nat>, k: int)
    requires
        all_canonical(xs),
        all_canonical(ys),
        xs.len() == ys.len(),
        0 <= k < xs.len(),
        distinct_points(xs),
        forall|i: int| 0 <= i < xs.len() ==> #[trigger] invertible(vanishing(xs[i], xs, xs[i])),
    ensures
        fsum(lagrange_terms_at(xs, ys, xs[k], xs.len())) == ys[k],
{
    let terms = lagrange_terms_at(xs, ys, xs[k], xs.len());
    assert forall|t: int| 0 <= t < terms.len() && t != k implies #[trigger] terms[t] == 0 by {
        assert(xs[k] != xs[t]) by {
            if t < k {
                assert(xs[t] != xs[k]);
            } else {
                assert(xs[k] != xs[t]);
            }
        }
        lemma_vanishing_root(xs[t], xs, k);
        lemma_fmul_laws(0, finv(vanishing(xs[t], xs, xs[t])), 0);
        lemma_fmul_laws(ys[t], 0, 0);
    }
    assert(invertible(vanishing(xs[k], xs, xs[k])));
    lemma_fmul_laws(ys[k], 1, 0);
    lemma_fsum_single_nonzero(terms, k);
}

/// The differences of distinct points whose vanishing products are invertible are
/// invertible.
proof fn lemma_points_pairwise_invertible(xs: Seq<nat>)
    requires
        distinct_points(xs),
        forall|i: int| 0 <= i < xs.len() ==> #[trigger] invertible(vanishing(xs[i], xs, xs[i])),
    ensures
        pairwise_invertible(xs),
{
    assert forall|a: int, b: int|
        #![trigger xs[a], xs[b]]
        0 <= a < xs.len() && 0 <= b < xs.len() && a != b implies xs[a] != xs[b] && invertible(
        fsub(xs[a], xs[b]),
    ) by {
        if a < b {
            assert(xs[a] != xs[b]);
        } else {
            assert(xs[b] != xs[a]);
        }
        let d = vanishing(xs[a], xs, xs[a]);
        let rest = lemma_vanishing_factor(xs[a], xs, b, xs[a]);
        let f = fsub(xs[a], xs[b]);
        assert(invertible(d));
        let u = finv(d);
        lemma_fmul_laws(rest, f, u);
        lemma_fmul_laws(f, rest, u);
        lemma_fmul_laws(rest, f, 0);
        lemma_field_ops_canonical(rest, u);
        lemma_invertible_by(f, fmul(rest, u));
    }
}

/// `-1` times a canonical value is its negation.
proof fn lemma_times_minus_one(a: nat)
    requires
        a < modulus(),
    ensures
        fmul(fneg(1), a) == fneg(a),
{
    let m = modulus() as int;
    lemma_field_ops_canonical(0, 1);
    lemma_field_ops_canonical(0, a);
    vstd::arithmetic::div_mod::lemma_small_mod((m - 1) as nat, m as nat);
    vstd::arithmetic::div_mod::lemma_mod_add_multiples_vanish(-1, m);
    assert((m - 1) * a == m * a + (-a)) by (nonlinear_arith);
    vstd::arithmetic::div_mod::lemma_mod_multiples_vanish(a as int, -a, m);
}

/// Lagrange interpolation at zero recovers the constant term: when the values at
/// distinct points come from a polynomial with no more coefficients than there are
/// points, and the vanishing products are invertible, the Lagrange terms at zero add
/// up to the polynomial's value at zero.
pub proof fn lemma_reconstruction(xs: Seq<nat>, ys: Seq<nat>, c: Seq<nat>)
    requires
        all_canonical(xs),
        all_canonical(ys),
        xs.len() == ys.len(),
        distinct_points(xs),
        forall|i: int| 0 <= i < xs.len() ==> #[trigger] invertible(vanishing(xs[i], xs, xs[i])),
        c.len() <= xs.len(),
        interpolates(c, xs, ys),
    ensures
        fsum(lagrange_terms_at(xs, ys, 0, xs.len())) == dense_eval(c, 0),
{
    let n = xs.len();
    lemma_points_pairwise_invertible(xs);
    let cf = lemma_lagrange_poly(xs, ys, n);
    let nc = scaled(fneg(1), c);
    assert(all_canonical(nc)) by {
        assert forall|t: int| 0 <= t < nc.len() implies #[trigger] nc[t] < modulus() by {
            lemma_field_ops_canonical(fneg(1), c[t]);
        }
    }
    let g = padded_add(cf, nc);
    assert forall|z: nat| z < modulus() implies #[trigger] dense_eval(g, z) == fsub(
        dense_eval(cf, z),
        dense_eval(c, z),
    ) by {
        lemma_padded_sum_eval(cf, nc, z);
        lemma_scale_eval(fneg(1), c, z);
        crate::univariate_dense::lemma_dense_eval_canonical(c, z);
        lemma_times_minus_one(dense_eval(c, z));
        crate::field::lemma_fsub_laws(dense_eval(cf, z), dense_eval(c, z));
    }
    assert forall|k: int| 0 <= k < n implies #[trigger] dense_eval(g, xs[k]) == 0 by {
        lemma_lagrange_at_point(xs, ys, k);
        assert(ys[k] == dense_eval(c, xs[k]));
        crate::field::lemma_fsub_laws(ys[k], ys[k]);
    }
    lemma_roots_vanish(g, xs, 0);
    crate::univariate_dense::lemma_dense_eval_canonical(cf, 0);
    crate::univariate_dense::lemma_dense_eval_canonical(c, 0);
    if dense_eval(cf, 0) != dense_eval(c, 0) {
        lemma_fsub_nonzero(dense_eval(cf, 0), dense_eval(c, 0));
    }
}

/// The value at zero is the constant coefficient.
pub proof fn lemma_dense_eval_at_zero(c: Seq<nat>)
    requires
        c.len() >= 1,
    ensures
        dense_eval(c, 0) == c[0] % modulus(),
    decreases c.len(),
{
    let c1 = c.drop_last();
    if c.len() == 1 {
        assert(c1 =~= Seq::<nat>::empty());
        assert(fpow(0, 0) == 1);
        lemma_fmul_laws(c[0], 1, 0);
        vstd::arithmetic::div_mod::lemma_mod_bound(c[0] as int, modulus() as int);
        lemma_fadd_laws(c[0] % modulus(), 0, 0);
        crate::field::lemma_mul_mod_absorb(c[0] as int, 1);
    } else {
        lemma_dense_eval_at_zero(c1);
        assert(c1[0] == c[0]);
        let k = (c.len() - 1) as nat;
        assert(fpow(0, k) == fmul(0, fpow(0, (k - 1) as nat)));
        lemma_fmul_laws(0, fpow(0, (k - 1) as nat), 0);
        lemma_fmul_laws(c.last(), 0, 0);
        crate::univariate_dense::lemma_dense_eval_canonical(c1, 0);
        lemma_fadd_laws(dense_eval(c1, 0), 0, 0);
    }
}

} // verus!
