//! What the sum-check rounds over a sum of products of multilinear polynomials
//! keep: each round polynomial's values at 0 and 1 add up to the sum over the
//! boolean hypercube, and the round polynomial of degree at most the number of
//! factors agrees everywhere with the polynomial it interpolates, so an honest
//! prover's rounds are accepted.
use crate::field::{
    fadd, fmul, fneg, fsub, fsum, invertible, lemma_add_mod_absorb, lemma_fadd_laws,
    lemma_field_ops_canonical,
    lemma_fmul_laws, lemma_fsub_laws, lemma_fsum_canonical, lemma_fsum_concat, modulus,
};
use crate::multi_poly::{
    all_canonical, lemma_log2_floor_pow2, lemma_spliced_top, lemma_vals_canonical, lerp,
    partial_eval_table,
};
use crate::product_poly::{all_in_vars, ProductPolynomial};
use crate::sum_all_polys::{entry_prod, entry_total, hypercube_sum, product_tables, uniform_in};
use crate::gkr_sumcheck::{
    chain_challenges, chain_state, encode_terms, fix_first_var, fix_vars, interpolates_round,
    round_sum, verifier_pass,
};
use crate::univariate_dense::{
    coeff_vector, dense_eval, lemma_convolution_eval, lemma_dense_eval_canonical,
    lemma_padded_sum_eval, lemma_roots_vanish, lemma_scale_eval, lemma_terms_as_dense,
    padded_add, pairwise_invertible, product_coeffs, scaled,
};
use crate::univariate_polynomial::{coeff_sum, lemma_msum_canonical, raw_eval};
use vstd::arithmetic::power2::*;
use vstd::prelude::*;

verus! {

/// The tables of a sum of products in `n` variables: at least one product, the
/// first with a factor, and every factor's table of `2^n` field values.
pub open spec fn tables_in(ts: Seq<Seq<Seq<nat>>>, n: nat) -> bool {
    &&& ts.len() > 0
    &&& ts[0].len() > 0
    &&& forall|k: int, j: int|
        0 <= k < ts.len() && 0 <= j < ts[k].len() ==> (#[trigger] ts[k][j]).len() == pow2(n)
            && all_canonical(ts[k][j])
}

/// No product has more than `d` factors.
pub open spec fn factors_at_most(ts: Seq<Seq<Seq<nat>>>, d: nat) -> bool {
    forall|k: int| 0 <= k < ts.len() ==> (#[trigger] ts[k]).len() <= d
}

/// Fixing the first variable of a table of `2^n` entries: `2^(n-1)` entries, entry
/// `b` on the line between entries `b` and `b + 2^(n-1)`.
proof fn lemma_fix_entry(t: Seq<nat>, n: nat, x: nat)
    requires
        n >= 1,
        t.len() == pow2(n),
    ensures
        partial_eval_table(t, 0, x).len() == pow2((n - 1) as nat),
        pow2(n) == 2 * pow2((n - 1) as nat),
        forall|b: int|
            0 <= b < pow2((n - 1) as nat) ==> #[trigger] partial_eval_table(t, 0, x)[b] == lerp(
                t[b],
                t[b + pow2((n - 1) as nat)],
                x,
            ),
{
    lemma_log2_floor_pow2(n);
    lemma_pow2_unfold(n);
    assert forall|b: int| 0 <= b < pow2((n - 1) as nat) implies #[trigger] partial_eval_table(
        t,
        0,
        x,
    )[b] == lerp(t[b], t[b + pow2((n - 1) as nat)], x) by {
        lemma_spliced_top(b as nat, (n - 1) as nat);
    }
}

/// Fixing the first variable keeps the shape, one variable fewer.
pub proof fn lemma_fix_shape(ts: Seq<Seq<Seq<nat>>>, n: nat, x: nat)
    requires
        n >= 1,
        tables_in(ts, n),
    ensures
        tables_in(fix_first_var(ts, x), (n - 1) as nat),
        fix_first_var(ts, x).len() == ts.len(),
        forall|k: int| 0 <= k < ts.len() ==> (#[trigger] fix_first_var(ts, x)[k]).len() == ts[k].len(),
{
    let f = fix_first_var(ts, x);
    assert forall|k: int, j: int| 0 <= k < f.len() && 0 <= j < f[k].len() implies (
    #[trigger] f[k][j]).len() == pow2((n - 1) as nat) && all_canonical(f[k][j]) by {
        lemma_fix_entry(ts[k][j], n, x);
        assert forall|b: int| 0 <= b < f[k][j].len() implies #[trigger] f[k][j][b] < modulus() by {
            lemma_field_ops_canonical(ts[k][j][b], fmul(x, fsub(ts[k][j][b + pow2((n - 1) as nat)], ts[k][j][b])));
        }
    }
}

/// Fixing the first variables keeps the shape.
pub proof fn lemma_fix_vars_shape(ts: Seq<Seq<Seq<nat>>>, n: nat, rs: Seq<nat>)
    requires
        rs.len() <= n,
        tables_in(ts, n),
    ensures
        tables_in(fix_vars(ts, rs), (n - rs.len()) as nat),
        fix_vars(ts, rs).len() == ts.len(),
        forall|k: int| 0 <= k < ts.len() ==> (#[trigger] fix_vars(ts, rs)[k]).len() == ts[k].len(),
    decreases rs.len(),
{
    if rs.len() > 0 {
        lemma_fix_vars_shape(ts, n, rs.drop_last());
        let prev = fix_vars(ts, rs.drop_last());
        lemma_fix_shape(prev, (n - rs.len() + 1) as nat, rs.last());
        assert forall|k: int| 0 <= k < ts.len() implies (#[trigger] fix_vars(ts, rs)[k]).len()
            == ts[k].len() by {
            assert(prev[k].len() == ts[k].len());
        }
    }
}

/// Products whose factors agree at entries `b1` and `b2` agree there.
proof fn lemma_entry_prod_eq(p1: Seq<Seq<nat>>, p2: Seq<Seq<nat>>, b1: int, b2: int)
    requires
        p1.len() == p2.len(),
        forall|j: int| 0 <= j < p1.len() ==> (#[trigger] p1[j])[b1] == p2[j][b2],
    ensures
        entry_prod(p1, b1) == entry_prod(p2, b2),
    decreases p1.len(),
{
    if p1.len() > 0 {
        let (q1, q2) = (p1.drop_last(), p2.drop_last());
        assert forall|j: int| 0 <= j < q1.len() implies (#[trigger] q1[j])[b1] == q2[j][b2] by {
            assert(q1[j] == p1[j] && q2[j] == p2[j]);
        }
        lemma_entry_prod_eq(q1, q2, b1, b2);
        assert(p1[p1.len() - 1][b1] == p2[p1.len() - 1][b2]);
    }
}

/// Sums of products whose factors agree at entries `b1` and `b2` agree there.
proof fn lemma_entry_total_eq(ts1: Seq<Seq<Seq<nat>>>, ts2: Seq<Seq<Seq<nat>>>, b1: int, b2: int)
    requires
        ts1.len() == ts2.len(),
        forall|k: int| 0 <= k < ts1.len() ==> (#[trigger] ts1[k]).len() == ts2[k].len(),
        forall|k: int, j: int|
            0 <= k < ts1.len() && 0 <= j < ts1[k].len() ==> (#[trigger] ts1[k][j])[b1] == ts2[k][j][b2],
    ensures
        entry_total(ts1, b1) == entry_total(ts2, b2),
    decreases ts1.len(),
{
    if ts1.len() > 0 {
        let (u1, u2) = (ts1.drop_last(), ts2.drop_last());
        assert forall|k: int, j: int| 0 <= k < u1.len() && 0 <= j < u1[k].len() implies (
        #[trigger] u1[k][j])[b1] == u2[k][j][b2] by {
            assert(u1[k] == ts1[k] && u2[k] == ts2[k]);
        }
        assert forall|k: int| 0 <= k < u1.len() implies (#[trigger] u1[k]).len() == u2[k].len() by {
            assert(u1[k] == ts1[k] && u2[k] == ts2[k]);
        }
        lemma_entry_total_eq(u1, u2, b1, b2);
        let last = ts1.len() - 1;
        assert forall|j: int| 0 <= j < ts1[last].len() implies (#[trigger] ts1[last][j])[b1]
            == ts2[last][j][b2] by {}
        lemma_entry_prod_eq(ts1[last], ts2[last], b1, b2);
    }
}

/// The values of the round polynomial at 0 and 1 add up to the sum over the
/// boolean hypercube: fixing the first variable to 0 and to 1 splits the hypercube
/// in two halves.
pub proof fn lemma_round_halves(ts: Seq<Seq<Seq<nat>>>, n: nat)
    requires
        n >= 1,
        tables_in(ts, n),
    ensures
        fadd(round_sum(ts, 0), round_sum(ts, 1)) == hypercube_sum(ts),
{
    let h = pow2((n - 1) as nat);
    let (f0, f1) = (fix_first_var(ts, 0), fix_first_var(ts, 1));
    lemma_fix_shape(ts, n, 0);
    lemma_fix_shape(ts, n, 1);
    lemma_fix_entry(ts[0][0], n, 0);
    let all = Seq::new(ts[0][0].len(), |b: int| entry_total(ts, b));
    let lo = Seq::new(f0[0][0].len(), |b: int| entry_total(f0, b));
    let hi = Seq::new(f1[0][0].len(), |b: int| entry_total(f1, b));
    assert forall|b: int| 0 <= b < h implies #[trigger] lo[b] == all[b] && hi[b] == all[b + h] by {
        assert forall|k: int, j: int| 0 <= k < f0.len() && 0 <= j < f0[k].len() implies (
        #[trigger] f0[k][j])[b] == ts[k][j][b] by {
            lemma_fix_entry(ts[k][j], n, 0);
            let (a, c) = (ts[k][j][b], ts[k][j][b + h]);
            lemma_field_ops_canonical(c, a);
            lemma_fmul_laws(fsub(c, a), 0, 0);
            lemma_fadd_laws(a, 0, 0);
        }
        assert forall|k: int, j: int| 0 <= k < f1.len() && 0 <= j < f1[k].len() implies (
        #[trigger] f1[k][j])[b] == ts[k][j][b + h] by {
            lemma_fix_entry(ts[k][j], n, 1);
            let (a, c) = (ts[k][j][b], ts[k][j][b + h]);
            lemma_field_ops_canonical(c, a);
            lemma_fmul_laws(fsub(c, a), 1, 0);
            lemma_fsub_laws(c, a);
            vstd::arithmetic::div_mod::lemma_small_mod(c, modulus());
        }
        lemma_entry_total_eq(f0, ts, b, b);
        lemma_entry_total_eq(f1, ts, b, b + h);
    }
    assert(lo.len() == h && hi.len() == h && all.len() == 2 * h);
    assert forall|i: int| 0 <= i < all.len() implies all[i] == (lo + hi)[i] by {
        if i >= h {
            assert(lo[i - h] == all[i - h]);
            assert(hi[i - h] == all[i - h + h]);
        } else {
            assert(lo[i] == all[i]);
        }
    }
    assert(all =~= lo + hi);
    lemma_fsum_concat(lo, hi);
}

/// The coefficients `[t[b], t[b + h] - t[b]]` of the line through entries `b` and
/// `b + h`.
pub open spec fn line_coeffs(t: Seq<nat>, b: int, h: int) -> Seq<nat> {
    seq![t[b], fsub(t[b + h], t[b])]
}

/// The coefficients of the product of the lines of the factors at entry `b`.
pub open spec fn prod_coeffs(p: Seq<Seq<nat>>, b: int, h: int) -> Seq<nat>
    decreases p.len(),
{
    if p.len() == 0 {
        seq![1nat]
    } else {
        product_coeffs(prod_coeffs(p.drop_last(), b, h), line_coeffs(p.last(), b, h))
    }
}

/// The coefficients of the sum of the products of lines at entry `b`.
pub open spec fn total_coeffs(ts: Seq<Seq<Seq<nat>>>, b: int, h: int) -> Seq<nat>
    decreases ts.len(),
{
    if ts.len() == 0 {
        Seq::empty()
    } else {
        padded_add(total_coeffs(ts.drop_last(), b, h), prod_coeffs(ts.last(), b, h))
    }
}

/// The coefficients of the sum over the entries `b < m` of `total_coeffs`.
pub open spec fn round_coeffs(ts: Seq<Seq<Seq<nat>>>, h: int, m: nat) -> Seq<nat>
    decreases m,
{
    if m == 0 {
        Seq::empty()
    } else {
        padded_add(round_coeffs(ts, h, (m - 1) as nat), total_coeffs(ts, m - 1, h))
    }
}

/// The points `0, 1, ..., d`.
pub open spec fn points(d: nat) -> Seq<nat> {
    Seq::new(d + 1, |i: int| i as nat)
}

/// A line's coefficients evaluate to the line.
proof fn lemma_line_eval(t: Seq<nat>, b: int, h: int, x: nat)
    requires
        t[b] < modulus(),
        x < modulus(),
    ensures
        dense_eval(line_coeffs(t, b, h), x) == lerp(t[b], t[b + h], x),
        all_canonical(line_coeffs(t, b, h)),
{
    let (a, c) = (t[b], t[b + h]);
    let l = line_coeffs(t, b, h);
    assert(l.drop_last() =~= seq![a]);
    assert(l.drop_last().drop_last() =~= Seq::<nat>::empty());
    lemma_fmul_laws(a, 1, 0);
    lemma_fadd_laws(a, 0, 0);
    lemma_fmul_laws(x, 1, 0);
    lemma_fmul_laws(fsub(c, a), x, 0);
    assert(crate::field::fpow(x, 1) == fmul(x, crate::field::fpow(x, 0)));
    lemma_field_ops_canonical(c, a);
    let s1 = seq![a];
    assert(s1.drop_last() =~= Seq::<nat>::empty());
    assert(s1.last() == a);
    assert(dense_eval(s1.drop_last(), x) == 0);
    assert(fpow_one(x));
    assert(dense_eval(s1, x) == fadd(0, fmul(a, 1)));
    assert(l.last() == fsub(c, a));
}

/// `x^0 = 1` and `x^1 = x` for a field value `x`.
spec fn fpow_one(x: nat) -> bool {
    crate::field::fpow(x, 0) == 1 && (x < modulus() ==> crate::field::fpow(x, 1) == x)
}

/// The product of the lines: its coefficients are canonical, one more than the
/// factors, and evaluate to the product of the fixed factors `q`.
proof fn lemma_prod_coeffs(p: Seq<Seq<nat>>, q: Seq<Seq<nat>>, b: int, h: int, x: nat)
    requires
        x < modulus(),
        q.len() == p.len(),
        forall|j: int| 0 <= j < p.len() ==> (#[trigger] p[j])[b] < modulus() && q[j][b] == lerp(
            p[j][b],
            p[j][b + h],
            x,
        ),
    ensures
        prod_coeffs(p, b, h).len() == p.len() + 1,
        all_canonical(prod_coeffs(p, b, h)),
        dense_eval(prod_coeffs(p, b, h), x) == entry_prod(q, b),
    decreases p.len(),
{
    if p.len() == 0 {
        let one = seq![1nat];
        assert(one.drop_last() =~= Seq::<nat>::empty());
        assert(one.last() == 1);
        assert(dense_eval(one.drop_last(), x) == 0);
        lemma_fmul_laws(1, 1, 0);
        lemma_fadd_laws(1, 0, 0);
        vstd::arithmetic::div_mod::lemma_small_mod(1, modulus());
        assert(crate::field::fpow(x, 0) == 1);
        assert(dense_eval(one, x) == fadd(0, fmul(1, 1)));
    } else {
        let (p1, q1) = (p.drop_last(), q.drop_last());
        assert forall|j: int| 0 <= j < p1.len() implies (#[trigger] p1[j])[b] < modulus() && q1[j][b]
            == lerp(p1[j][b], p1[j][b + h], x) by {
            assert(p1[j] == p[j] && q1[j] == q[j]);
        }
        lemma_prod_coeffs(p1, q1, b, h, x);
        let last = p.len() - 1;
        assert(p[last][b] < modulus());
        lemma_line_eval(p.last(), b, h, x);
        assert(q.last() == q[last] && p.last() == p[last]);
        assert(q1 == q.drop_last());
        lemma_convolution_eval(prod_coeffs(p1, b, h), line_coeffs(p.last(), b, h), x);
        let pc = prod_coeffs(p, b, h);
        assert forall|i: int| 0 <= i < pc.len() implies #[trigger] pc[i] < modulus() by {
            crate::univariate_polynomial::lemma_msum_canonical(
                crate::univariate_polynomial::pair_products(
                    crate::univariate_dense::dense_terms(prod_coeffs(p1, b, h)),
                    crate::univariate_dense::dense_terms(line_coeffs(p.last(), b, h)),
                ),
                crate::univariate_polynomial::coeff_part(i as nat),
            );
        }
    }
}

/// Coefficient sums of canonical sequences are canonical.
proof fn lemma_padded_canonical(a: Seq<nat>, b: Seq<nat>)
    requires
        all_canonical(a),
        all_canonical(b),
    ensures
        all_canonical(padded_add(a, b)),
{
    let s = padded_add(a, b);
    assert forall|i: int| 0 <= i < s.len() implies #[trigger] s[i] < modulus() by {
        if i < a.len() && i < b.len() {
            lemma_field_ops_canonical(a[i], b[i]);
        }
    }
}

/// The sum of the products of lines at entry `b`: canonical coefficients, at most
/// one more than the most factors, evaluating to the entry of the fixed tables `qs`.
proof fn lemma_total_coeffs(
    ts: Seq<Seq<Seq<nat>>>,
    qs: Seq<Seq<Seq<nat>>>,
    b: int,
    h: int,
    x: nat,
    d: nat,
)
    requires
        x < modulus(),
        qs.len() == ts.len(),
        factors_at_most(ts, d),
        forall|k: int| 0 <= k < ts.len() ==> (#[trigger] qs[k]).len() == ts[k].len(),
        forall|k: int, j: int|
            0 <= k < ts.len() && 0 <= j < ts[k].len() ==> (#[trigger] ts[k][j])[b] < modulus()
                && qs[k][j][b] == lerp(ts[k][j][b], ts[k][j][b + h], x),
    ensures
        total_coeffs(ts, b, h).len() <= d + 1,
        all_canonical(total_coeffs(ts, b, h)),
        dense_eval(total_coeffs(ts, b, h), x) == entry_total(qs, b),
    decreases ts.len(),
{
    if ts.len() > 0 {
        let (t1, q1) = (ts.drop_last(), qs.drop_last());
        assert forall|k: int, j: int| 0 <= k < t1.len() && 0 <= j < t1[k].len() implies (
        #[trigger] t1[k][j])[b] < modulus() && q1[k][j][b] == lerp(t1[k][j][b], t1[k][j][b + h], x) by {
            assert(t1[k] == ts[k] && q1[k] == qs[k]);
        }
        assert forall|k: int| 0 <= k < t1.len() implies (#[trigger] q1[k]).len() == t1[k].len() by {
            assert(t1[k] == ts[k] && q1[k] == qs[k]);
        }
        assert forall|k: int| 0 <= k < t1.len() implies (#[trigger] t1[k]).len() <= d by {
            assert(t1[k] == ts[k]);
        }
        lemma_total_coeffs(t1, q1, b, h, x, d);
        let last = ts.len() - 1;
        assert(ts.last() == ts[last] && qs.last() == qs[last]);
        assert(ts[last].len() <= d);
        assert forall|j: int| 0 <= j < ts[last].len() implies (#[trigger] ts[last][j])[b] < modulus()
            && qs[last][j][b] == lerp(ts[last][j][b], ts[last][j][b + h], x) by {}
        lemma_prod_coeffs(ts[last], qs[last], b, h, x);
        lemma_padded_sum_eval(total_coeffs(t1, b, h), prod_coeffs(ts[last], b, h), x);
        lemma_padded_canonical(total_coeffs(t1, b, h), prod_coeffs(ts[last], b, h));
    } else {
        assert(dense_eval(Seq::<nat>::empty(), x) == 0);
    }
}

/// The sum over the first `m` entries of the products of lines: canonical
/// coefficients, at most one more than the most factors, evaluating to the sum of
/// the entries of the tables with the first variable fixed to `x`.
proof fn lemma_round_coeffs(ts: Seq<Seq<Seq<nat>>>, n: nat, d: nat, x: nat, m: nat)
    requires
        n >= 1,
        tables_in(ts, n),
        factors_at_most(ts, d),
        x < modulus(),
        m <= pow2((n - 1) as nat),
    ensures
        round_coeffs(ts, pow2((n - 1) as nat) as int, m).len() <= d + 1,
        all_canonical(round_coeffs(ts, pow2((n - 1) as nat) as int, m)),
        dense_eval(round_coeffs(ts, pow2((n - 1) as nat) as int, m), x) == fsum(
            Seq::new(m, |b: int| entry_total(fix_first_var(ts, x), b)),
        ),
    decreases m,
{
    let h = pow2((n - 1) as nat) as int;
    let f = fix_first_var(ts, x);
    if m == 0 {
        assert(dense_eval(Seq::<nat>::empty(), x) == 0);
        assert(Seq::new(0, |b: int| entry_total(f, b)) =~= Seq::<nat>::empty());
    } else {
        lemma_round_coeffs(ts, n, d, x, (m - 1) as nat);
        let b = m - 1;
        lemma_fix_shape(ts, n, x);
        assert forall|k: int, j: int| 0 <= k < ts.len() && 0 <= j < ts[k].len() implies (
        #[trigger] ts[k][j])[b] < modulus() && f[k][j][b] == lerp(ts[k][j][b], ts[k][j][b + h], x) by {
            lemma_fix_entry(ts[k][j], n, x);
        }
        lemma_total_coeffs(ts, f, b, h, x, d);
        lemma_padded_sum_eval(round_coeffs(ts, h, (m - 1) as nat), total_coeffs(ts, b, h), x);
        lemma_padded_canonical(round_coeffs(ts, h, (m - 1) as nat), total_coeffs(ts, b, h));
        let all = Seq::new(m, |i: int| entry_total(f, i));
        assert(all.drop_last() =~= Seq::new((m - 1) as nat, |i: int| entry_total(f, i)));
    }
}

/// `a + (p - 1) c` vanishes exactly when `a == c`, for canonical `a` and `c`.
proof fn lemma_minus_cancel(a: nat, c: nat)
    requires
        a < modulus(),
        c < modulus(),
    ensures
        (fadd(a, fmul(fneg(1), c)) == 0) == (a == c),
{
    let p = modulus() as int;
    assert(fneg(1) == p - 1) by {
        vstd::arithmetic::div_mod::lemma_mod_add_multiples_vanish(-1, p);
        vstd::arithmetic::div_mod::lemma_small_mod((p - 1) as nat, p as nat);
    }
    lemma_add_mod_absorb(a as int, (p - 1) * c);
    assert(a + (p - 1) * c == (a - c) + p * c) by (nonlinear_arith);
    vstd::arithmetic::div_mod::lemma_mod_multiples_vanish(c as int, a - c, p);
    if a > c {
        vstd::arithmetic::div_mod::lemma_small_mod((a - c) as nat, p as nat);
    } else if a < c {
        vstd::arithmetic::div_mod::lemma_mod_add_multiples_vanish(a - c, p);
        vstd::arithmetic::div_mod::lemma_small_mod((a - c + p) as nat, p as nat);
    }
}

/// The round polynomial agrees everywhere with the polynomial it interpolates: the
/// sum over the hypercube of the polynomial with its first variable fixed to `x`
/// has degree at most `d` in `x`, and two polynomials of degree at most `d` that
/// agree at `0, 1, ..., d` (whose differences are invertible) agree everywhere.
pub proof fn lemma_round_polynomial_agrees(
    ts: Seq<Seq<Seq<nat>>>,
    n: nat,
    d: nat,
    g: Seq<(nat, nat)>,
    x: nat,
)
    requires
        n >= 1,
        tables_in(ts, n),
        factors_at_most(ts, d),
        d < modulus(),
        pairwise_invertible(points(d)),
        interpolates_round(g, ts, d),
        x < modulus(),
    ensures
        raw_eval(g, x) == round_sum(ts, x),
{
    let h = pow2((n - 1) as nat);
    let c = round_coeffs(ts, h as int, h);
    let gv = coeff_vector(g, d + 1);
    assert forall|i: int| 0 <= i < g.len() implies #[trigger] g[i].0 < d + 1 by {
        assert(g[i].1 != 0);
    }
    assert forall|y: nat| y < modulus() implies #[trigger] dense_eval(c, y) == round_sum(ts, y)
        && raw_eval(g, y) == dense_eval(gv, y) by {
        lemma_round_coeffs(ts, n, d, y, h);
        lemma_fix_shape(ts, n, y);
        lemma_fix_entry(ts[0][0], n, y);
        let f = fix_first_var(ts, y);
        assert(Seq::new(h, |b: int| entry_total(f, b)) =~= Seq::new(
            f[0][0].len(),
            |b: int| entry_total(f, b),
        ));
        lemma_terms_as_dense(g, d + 1, y);
    }
    lemma_round_coeffs(ts, n, d, 0, h);
    assert forall|i: int| 0 <= i < gv.len() implies #[trigger] gv[i] < modulus() by {
        lemma_msum_canonical(g, crate::univariate_polynomial::coeff_part(i as nat));
    }
    let neg = scaled(fneg(1), c);
    assert forall|i: int| 0 <= i < neg.len() implies #[trigger] neg[i] < modulus() by {
        lemma_field_ops_canonical(fneg(1), c[i]);
    }
    let dd = padded_add(gv, neg);
    let xs = points(d);
    assert forall|y: nat| y < modulus() implies #[trigger] dense_eval(dd, y) == fadd(
        dense_eval(gv, y),
        fmul(fneg(1), dense_eval(c, y)),
    ) by {
        lemma_padded_sum_eval(gv, neg, y);
        lemma_scale_eval(fneg(1), c, y);
    }
    assert forall|k: int| 0 <= k < xs.len() implies #[trigger] dense_eval(dd, xs[k]) == 0 by {
        let y = xs[k];
        assert(y <= d);
        assert(raw_eval(g, y) == round_sum(ts, y));
        assert(dense_eval(c, y) == round_sum(ts, y));
        lemma_dense_eval_canonical(gv, y);
        lemma_minus_cancel(dense_eval(gv, y), dense_eval(c, y));
    }
    assert forall|i: int| 0 <= i < xs.len() implies #[trigger] xs[i] < modulus() by {}
    lemma_roots_vanish(dd, xs, x);
    lemma_dense_eval_canonical(gv, x);
    lemma_dense_eval_canonical(c, x);
    lemma_minus_cancel(dense_eval(gv, x), dense_eval(c, x));
}

/// The challenges and the transcript of the first `k` rounds are those of the whole
/// chain cut after `k` rounds.
pub proof fn lemma_chain_prefix(state: Seq<u8>, polys: Seq<Seq<(nat, nat)>>, k: int)
    requires
        0 <= k <= polys.len(),
    ensures
        chain_challenges(state, polys).len() == polys.len(),
        chain_challenges(state, polys.take(k)) == chain_challenges(state, polys).take(k),
    decreases polys.len(),
{
    if polys.len() > 0 {
        let p1 = polys.drop_last();
        if k < polys.len() {
            lemma_chain_prefix(state, p1, k);
            assert(p1.take(k) =~= polys.take(k));
            assert(chain_challenges(state, polys).take(k) =~= chain_challenges(state, p1).take(k));
        } else {
            lemma_chain_prefix(state, p1, 0);
            assert(polys.take(k) =~= polys);
            assert(chain_challenges(state, polys).take(k) =~= chain_challenges(state, polys));
        }
    } else {
        assert(polys.take(k) =~= polys);
        assert(chain_challenges(state, polys).take(k) =~= chain_challenges(state, polys));
    }
}

/// The verifier's pass over the first `k` honest rounds accepts, draws the chain's
/// challenges, and ends at the sum over the hypercube of the tables with the first
/// variables fixed to them.
proof fn lemma_complete_prefix(
    ts: Seq<Seq<Seq<nat>>>,
    n: nat,
    d: nat,
    state: Seq<u8>,
    polys: Seq<Seq<(nat, nat)>>,
    k: int,
)
    requires
        tables_in(ts, n),
        factors_at_most(ts, d),
        1 <= d < modulus(),
        pairwise_invertible(points(d)),
        polys.len() == n,
        0 <= k <= n,
        forall|i: int|
            0 <= i < n ==> interpolates_round(
                #[trigger] polys[i],
                fix_vars(ts, chain_challenges(state, polys).take(i)),
                d,
            ),
    ensures
        verifier_pass(state, hypercube_sum(ts), polys.take(k)) == (
            true,
            chain_challenges(state, polys).take(k),
            hypercube_sum(fix_vars(ts, chain_challenges(state, polys).take(k))),
            chain_state(state, polys.take(k)),
        ),
    decreases k,
{
    let rs = chain_challenges(state, polys);
    lemma_chain_prefix(state, polys, k);
    if k == 0 {
        assert(polys.take(0) =~= Seq::<Seq<(nat, nat)>>::empty());
        assert(rs.take(0) =~= Seq::<nat>::empty());
    } else {
        let j = k - 1;
        lemma_complete_prefix(ts, n, d, state, polys, j);
        lemma_chain_prefix(state, polys, j);
        let pre = polys.take(k);
        assert(pre.drop_last() =~= polys.take(j));
        assert(pre.last() == polys[j]);
        let g = polys[j];
        let t = fix_vars(ts, rs.take(j));
        lemma_fix_vars_shape(ts, n, rs.take(j));
        assert forall|m: int| 0 <= m < t.len() implies (#[trigger] t[m]).len() <= d by {
            assert(t[m].len() == ts[m].len());
        }
        assert(interpolates_round(g, t, d));
        assert(raw_eval(g, 0) == round_sum(t, 0));
        assert(raw_eval(g, 1) == round_sum(t, 1));
        lemma_round_halves(t, (n - j) as nat);
        let c = rs[j];
        assert(rs.take(k) =~= rs.take(j).push(c));
        assert(c == crate::fiat_shamir_transcript::sampled_of(
            chain_state(state, polys.take(j)) + encode_terms(g),
        ));
        assert(c < modulus());
        lemma_round_polynomial_agrees(t, (n - j) as nat, d, g, c);
        assert(rs.take(k).drop_last() =~= rs.take(j));
        assert(fix_vars(ts, rs.take(k)) == fix_first_var(t, c));
    }
}

/// Completeness of the sum-check: when the claim is the sum over the boolean
/// hypercube and every round polynomial interpolates its round sums at `0..=d` (`d`
/// at least the number of factors of every product), the verifier accepts every
/// round, draws the chain's challenges, and ends at the sum of the polynomial at
/// those challenges, with the chain's transcript.
pub proof fn lemma_sumcheck_rounds_complete(
    ts: Seq<Seq<Seq<nat>>>,
    n: nat,
    d: nat,
    state: Seq<u8>,
    polys: Seq<Seq<(nat, nat)>>,
)
    requires
        tables_in(ts, n),
        factors_at_most(ts, d),
        1 <= d < modulus(),
        pairwise_invertible(points(d)),
        polys.len() == n,
        forall|i: int|
            0 <= i < n ==> interpolates_round(
                #[trigger] polys[i],
                fix_vars(ts, chain_challenges(state, polys).take(i)),
                d,
            ),
    ensures
        verifier_pass(state, hypercube_sum(ts), polys) == (
            true,
            chain_challenges(state, polys),
            hypercube_sum(fix_vars(ts, chain_challenges(state, polys))),
            chain_state(state, polys),
        ),
{
    lemma_complete_prefix(ts, n, d, state, polys, n as int);
    lemma_chain_prefix(state, polys, n as int);
    assert(polys.take(n as int) =~= polys);
    assert(chain_challenges(state, polys).take(n as int) =~= chain_challenges(state, polys));
}

/// `a` has the inverse `b`.
proof fn lemma_inverse_pair(a: nat, b: nat)
    requires
        b < modulus(),
        fmul(a, b) == 1,
    ensures
        invertible(a),
{
    crate::field::lemma_invertible_by(a, b);
}

/// The differences of the points `0, 1, 2` are invertible, so rounds of degree up
/// to two (products of up to two factors) are pinned down by their values there.
pub proof fn lemma_small_points_invertible(d: nat)
    requires
        d == 1 || d == 2,
    ensures
        pairwise_invertible(points(d)),
{
    let p = modulus();
    let half = 10944121435919637611123202872628637544274182200208017171849102093287904247809nat;
    assert(fmul(fsub(1, 0), 1) == 1);
    assert(fsub(0, 1) == p - 1) by {
        vstd::arithmetic::div_mod::lemma_mod_add_multiples_vanish(-1, p as int);
        vstd::arithmetic::div_mod::lemma_small_mod((p - 1) as nat, p);
    }
    assert(fsub(0, 2) == p - 2) by {
        vstd::arithmetic::div_mod::lemma_mod_add_multiples_vanish(-2, p as int);
        vstd::arithmetic::div_mod::lemma_small_mod((p - 2) as nat, p);
    }
    assert(fsub(1, 2) == p - 1) by {
        vstd::arithmetic::div_mod::lemma_mod_add_multiples_vanish(-1, p as int);
        vstd::arithmetic::div_mod::lemma_small_mod((p - 1) as nat, p);
    }
    assert(fmul(fsub(0, 1), (p - 1) as nat) == 1);
    assert(fmul(fsub(2, 1), 1) == 1);
    assert(fmul(fsub(1, 2), (p - 1) as nat) == 1);
    assert(fmul(fsub(2, 0), half) == 1);
    assert(fmul(fsub(0, 2), (p - half) as nat) == 1);
    lemma_inverse_pair(fsub(1, 0), 1);
    lemma_inverse_pair(fsub(0, 1), (p - 1) as nat);
    lemma_inverse_pair(fsub(2, 1), 1);
    lemma_inverse_pair(fsub(1, 2), (p - 1) as nat);
    lemma_inverse_pair(fsub(2, 0), half);
    lemma_inverse_pair(fsub(0, 2), (p - half) as nat);
    let xs = points(d);
    assert forall|a: int, b: int|
        #![trigger xs[a], xs[b]]
        0 <= a < xs.len() && 0 <= b < xs.len() && a != b implies xs[a] != xs[b] && invertible(
            fsub(xs[a], xs[b]),
        ) by {
        assert(xs[a] == a && xs[b] == b);
    }
}

/// The tables of a sum of products whose factors all have `n` variables.
pub proof fn lemma_uniform_tables(ps: Seq<ProductPolynomial>, n: nat)
    requires
        ps.len() > 0,
        ps[0].polynomials.len() > 0,
        uniform_in(ps, n),
    ensures
        tables_in(product_tables(ps), n),
        forall|k: int| 0 <= k < ps.len() ==> (#[trigger] product_tables(ps)[k]).len()
            == ps[k].polynomials.len(),
{
    let ts = product_tables(ps);
    assert forall|k: int, j: int| 0 <= k < ts.len() && 0 <= j < ts[k].len() implies (
    #[trigger] ts[k][j]).len() == pow2(n) && all_canonical(ts[k][j]) by {
        assert(all_in_vars(ps[k].polynomials@, n));
        assert(ps[k].polynomials@[j].wf());
        lemma_vals_canonical(ps[k].polynomials@[j].evaluated_values@);
    }
}

} // verus!
