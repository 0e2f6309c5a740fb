//! Univariate polynomials in dense form: the coefficient of `x^k` at index `k`.
use crate::field::{
    finv, invertible, ark_add, ark_div, ark_eq, ark_mul, ark_neg, ark_one, ark_pow, ark_sub, ark_zero, fadd, fmul,
    fneg, fpow, fsub, fsum, lemma_fadd_laws, lemma_field_ops_canonical, lemma_fmul_distributes,
    lemma_fmul_laws, lemma_fsub_laws, modulus, vals, FieldElement,
};
use crate::multi_poly::{all_canonical, lemma_vals_canonical};
use crate::univariate_polynomial::{
    coeff_part, coeff_sum, eval_part, lemma_coeff_push, lemma_fpow_canonical,
    lemma_msum_canonical, lemma_msum_concat, lemma_msum_push, lemma_pair_products_eval,
    lemma_pair_products_powers, pair_products, raw_eval,
};
use vstd::prelude::*;

verus! {

/// The value at `x` of the polynomial with coefficients `cs`, added from the
/// constant term up.
pub open spec fn dense_eval(cs: Seq<nat>, x: nat) -> nat
    decreases cs.len(),
{
    if cs.len() == 0 {
        0
    } else {
        fadd(dense_eval(cs.drop_last(), x), fmul(cs.last(), fpow(x, (cs.len() - 1) as nat)))
    }
}

/// The coefficients as `(power, coefficient)` terms.
pub open spec fn dense_terms(cs: Seq<nat>) -> Seq<(nat, nat)> {
    Seq::new(cs.len(), |k: int| (k as nat, cs[k]))
}

/// The coefficient of `x^k` in the product of the polynomials `a` and `b`.
pub open spec fn convolution(a: Seq<nat>, b: Seq<nat>, k: nat) -> nat {
    coeff_sum(pair_products(dense_terms(a), dense_terms(b)), k)
}

/// The coefficients of the product of the polynomials `a` and `b`.
pub open spec fn product_coeffs(a: Seq<nat>, b: Seq<nat>) -> Seq<nat> {
    Seq::new((a.len() + b.len() - 1) as nat, |k: int| convolution(a, b, k as nat))
}

/// The coefficients of the sum of `a` and `b`, as long as the longer.
pub open spec fn padded_add(a: Seq<nat>, b: Seq<nat>) -> Seq<nat> {
    Seq::new(
        (if a.len() > b.len() { a.len() } else { b.len() }) as nat,
        |k: int| padded_sum(a, b, k),
    )
}

/// The coefficient of `x^k` in the sum of `a` and `b`, the shorter padded with zeros.
pub open spec fn padded_sum(a: Seq<nat>, b: Seq<nat>, k: int) -> nat {
    if k < a.len() && k < b.len() {
        fadd(a[k], b[k])
    } else if k < a.len() {
        a[k]
    } else {
        b[k]
    }
}

/// The product over the points of `xs` that differ from `xi` of `z - xj`.
pub open spec fn vanishing(xi: nat, xs: Seq<nat>, z: nat) -> nat
    decreases xs.len(),
{
    if xs.len() == 0 {
        1
    } else if xs.last() == xi {
        vanishing(xi, xs.drop_last(), z)
    } else {
        fmul(vanishing(xi, xs.drop_last(), z), fsub(z, xs.last()))
    }
}

/// The `ys` whose `x` is `z`, the others replaced by zero.
pub open spec fn matching_terms(xs: Seq<nat>, ys: Seq<nat>, z: nat) -> Seq<nat> {
    Seq::new(xs.len(), |t: int| if xs[t] == z { ys[t] } else { 0 })
}

/// The sum of the `ys` whose `x` is `z`.
pub open spec fn matching_sum(xs: Seq<nat>, ys: Seq<nat>, z: nat) -> nat {
    fsum(matching_terms(xs, ys, z))
}

/// Each coefficient multiplied by `c`.
pub open spec fn scaled(c: nat, cs: Seq<nat>) -> Seq<nat> {
    cs.map_values(|v: nat| fmul(c, v))
}

/// Values of the polynomial are canonical.
pub proof fn lemma_dense_eval_canonical(cs: Seq<nat>, x: nat)
    ensures
        dense_eval(cs, x) < modulus(),
{
    if cs.len() > 0 {
        lemma_field_ops_canonical(
            dense_eval(cs.drop_last(), x),
            fmul(cs.last(), fpow(x, (cs.len() - 1) as nat)),
        );
    }
}

/// The terms evaluate as the dense polynomial does.
pub proof fn lemma_dense_terms_eval(cs: Seq<nat>, x: nat)
    ensures
        raw_eval(dense_terms(cs), x) == dense_eval(cs, x),
    decreases cs.len(),
{
    if cs.len() == 0 {
        assert(dense_terms(cs).map_values(eval_part(x)) =~= Seq::<nat>::empty());
    } else {
        let c1 = cs.drop_last();
        let t = ((cs.len() - 1) as nat, cs.last());
        assert(dense_terms(cs) =~= dense_terms(c1).push(t));
        lemma_dense_terms_eval(c1, x);
        lemma_msum_push(dense_terms(c1), t, eval_part(x));
    }
}

/// The coefficient of `x^p` among the terms of a dense polynomial.
pub proof fn lemma_dense_terms_coeff(cs: Seq<nat>, p: nat)
    ensures
        coeff_sum(dense_terms(cs), p) == if p < cs.len() {
            cs[p as int] % modulus()
        } else {
            0
        },
    decreases cs.len(),
{
    if cs.len() == 0 {
        assert(dense_terms(cs).map_values(coeff_part(p)) =~= Seq::<nat>::empty());
    } else {
        let c1 = cs.drop_last();
        let t = ((cs.len() - 1) as nat, cs.last());
        assert(dense_terms(cs) =~= dense_terms(c1).push(t));
        lemma_dense_terms_coeff(c1, p);
        lemma_msum_push(dense_terms(c1), t, coeff_part(p));
        lemma_msum_canonical(dense_terms(c1), coeff_part(p));
        lemma_fadd_laws(coeff_sum(dense_terms(c1), p), 0, 0);
        vstd::arithmetic::div_mod::lemma_mod_bound(cs.last() as int, modulus() as int);
        lemma_fadd_laws(0, cs.last() % modulus(), 0);
    }
}

/// Adding `v` to the coefficient of `x^q` adds `v x^q` to every value.
pub proof fn lemma_dense_update(cs: Seq<nat>, q: int, v: nat, x: nat)
    requires
        0 <= q < cs.len(),
    ensures
        dense_eval(cs.update(q, fadd(cs[q], v)), x) == fadd(
            dense_eval(cs, x),
            fmul(v, fpow(x, q as nat)),
        ),
    decreases cs.len(),
{
    let n = cs.len();
    let c1 = cs.drop_last();
    let u = cs.update(q, fadd(cs[q], v));
    let pl = fpow(x, (n - 1) as nat);
    lemma_dense_eval_canonical(c1, x);
    if q == n - 1 {
        assert(u.drop_last() =~= c1);
        lemma_fmul_distributes(pl, cs.last(), v);
        lemma_fmul_laws(pl, cs.last(), 0);
        lemma_fmul_laws(pl, v, 0);
        lemma_fadd_laws(dense_eval(c1, x), fmul(cs.last(), pl), fmul(v, pl));
    } else {
        assert(u.drop_last() =~= c1.update(q, fadd(c1[q], v)));
        lemma_dense_update(c1, q, v, x);
        let e1 = dense_eval(c1, x);
        let w = fmul(v, fpow(x, q as nat));
        let lt = fmul(cs.last(), pl);
        lemma_fadd_laws(e1, w, lt);
        lemma_fadd_laws(w, lt, 0);
        lemma_fadd_laws(e1, lt, w);
    }
}

/// The coefficients of terms with powers below `m`, as a dense polynomial.
pub open spec fn coeff_vector(s: Seq<(nat, nat)>, m: nat) -> Seq<nat> {
    Seq::new(m, |p: int| coeff_sum(s, p as nat))
}

/// Terms with powers below `m` evaluate as their coefficient vector does.
pub proof fn lemma_terms_as_dense(s: Seq<(nat, nat)>, m: nat, x: nat)
    requires
        forall|i: int| 0 <= i < s.len() ==> #[trigger] s[i].0 < m,
    ensures
        raw_eval(s, x) == dense_eval(coeff_vector(s, m), x),
    decreases s.len(),
{
    if s.len() == 0 {
        assert(s.map_values(eval_part(x)) =~= Seq::<nat>::empty());
        lemma_zero_vector_eval(coeff_vector(s, m), x);
    } else {
        let s1 = s.drop_last();
        let t = s.last();
        assert(s =~= s1.push(t));
        assert forall|i: int| 0 <= i < s1.len() implies #[trigger] s1[i].0 < m by {
            assert(s1[i] == s[i]);
        }
        assert(s[s.len() - 1].0 < m);
        lemma_terms_as_dense(s1, m, x);
        let c1 = coeff_vector(s1, m);
        let tv = t.1 % modulus();
        vstd::arithmetic::div_mod::lemma_mod_bound(t.1 as int, modulus() as int);
        assert(coeff_vector(s, m) =~= c1.update(t.0 as int, fadd(c1[t.0 as int], tv))) by {
            assert forall|p: int| 0 <= p < m implies #[trigger] coeff_vector(s, m)[p] == c1.update(
                t.0 as int,
                fadd(c1[t.0 as int], tv),
            )[p] by {
                lemma_msum_push(s1, t, coeff_part(p as nat));
                lemma_msum_canonical(s1, coeff_part(p as nat));
                lemma_fadd_laws(coeff_sum(s1, p as nat), 0, 0);
            }
        }
        lemma_dense_update(c1, t.0 as int, tv, x);
        lemma_msum_push(s1, t, eval_part(x));
        crate::field::lemma_mul_mod_absorb(t.1 as int, fpow(x, t.0) as int);
    }
}

/// A polynomial whose coefficients are all zero is zero everywhere.
pub proof fn lemma_zero_vector_eval(cs: Seq<nat>, x: nat)
    requires
        forall|k: int| 0 <= k < cs.len() ==> #[trigger] cs[k] == 0,
    ensures
        dense_eval(cs, x) == 0,
    decreases cs.len(),
{
    if cs.len() > 0 {
        let c1 = cs.drop_last();
        assert forall|k: int| 0 <= k < c1.len() implies #[trigger] c1[k] == 0 by {
            assert(c1[k] == cs[k]);
        }
        lemma_zero_vector_eval(c1, x);
        assert(cs[cs.len() - 1] == 0);
        lemma_fmul_laws(fpow(x, (cs.len() - 1) as nat), 0, 0);
        lemma_fadd_laws(0, 0, 0);
    }
}

/// The product's coefficients evaluate to the product of the values.
pub proof fn lemma_convolution_eval(a: Seq<nat>, b: Seq<nat>, x: nat)
    requires
        a.len() + b.len() >= 1,
    ensures
        dense_eval(product_coeffs(a, b), x) == fmul(dense_eval(a, x), dense_eval(b, x)),
{
    let m = (a.len() + b.len() - 1) as nat;
    let (ta, tb) = (dense_terms(a), dense_terms(b));
    let pp = pair_products(ta, tb);
    if a.len() > 0 && b.len() > 0 {
        lemma_pair_products_powers(ta, tb, (a.len() - 1) as nat, (b.len() - 1) as nat);
    } else if a.len() == 0 {
        assert(ta =~= Seq::<(nat, nat)>::empty());
        assert(pp == Seq::<(nat, nat)>::empty());
    } else {
        assert(tb =~= Seq::<(nat, nat)>::empty());
        lemma_empty_right_products(ta, tb);
    }
    assert forall|i: int| 0 <= i < pp.len() implies #[trigger] pp[i].0 < m by {
        if a.len() > 0 && b.len() > 0 {
            assert(pp[i].0 <= (a.len() - 1) + (b.len() - 1));
        }
    }
    lemma_terms_as_dense(pp, m, x);
    assert(coeff_vector(pp, m) =~= product_coeffs(a, b));
    lemma_pair_products_eval(ta, tb, x);
    lemma_dense_terms_eval(a, x);
    lemma_dense_terms_eval(b, x);
}

/// Products with no terms on the right are no terms.
proof fn lemma_empty_right_products(a: Seq<(nat, nat)>, b: Seq<(nat, nat)>)
    requires
        b.len() == 0,
    ensures
        pair_products(a, b).len() == 0,
    decreases a.len(),
{
    if a.len() > 0 {
        lemma_empty_right_products(a.drop_last(), b);
    }
}

/// The padded sum evaluates to the sum of the values.
pub proof fn lemma_padded_sum_eval(a: Seq<nat>, b: Seq<nat>, x: nat)
    requires
        all_canonical(a),
        all_canonical(b),
    ensures
        dense_eval(padded_add(a, b), x) == fadd(dense_eval(a, x), dense_eval(b, x)),
{
    let m = (if a.len() > b.len() { a.len() } else { b.len() }) as nat;
    let s = dense_terms(a) + dense_terms(b);
    assert forall|i: int| 0 <= i < s.len() implies #[trigger] s[i].0 < m by {
        if i < a.len() {
            assert(s[i] == dense_terms(a)[i]);
        } else {
            assert(s[i] == dense_terms(b)[i - a.len()]);
        }
    }
    lemma_terms_as_dense(s, m, x);
    assert forall|k: int| 0 <= k < m implies #[trigger] coeff_vector(s, m)[k] == padded_sum(
        a,
        b,
        k,
    ) by {
        lemma_msum_concat(dense_terms(a), dense_terms(b), coeff_part(k as nat));
        lemma_dense_terms_coeff(a, k as nat);
        lemma_dense_terms_coeff(b, k as nat);
        if k < a.len() {
            vstd::arithmetic::div_mod::lemma_small_mod(a[k], modulus());
            lemma_fadd_laws(a[k], 0, 0);
        }
        if k < b.len() {
            vstd::arithmetic::div_mod::lemma_small_mod(b[k], modulus());
            lemma_fadd_laws(b[k], 0, 0);
        }
    }
    assert(coeff_vector(s, m) =~= padded_add(a, b));
    lemma_msum_concat(dense_terms(a), dense_terms(b), eval_part(x));
    lemma_dense_terms_eval(a, x);
    lemma_dense_terms_eval(b, x);
}

/// Scaling the coefficients scales every value.
pub proof fn lemma_scale_eval(c: nat, cs: Seq<nat>, x: nat)
    ensures
        dense_eval(scaled(c, cs), x) == fmul(c, dense_eval(cs, x)),
    decreases cs.len(),
{
    let sc = scaled(c, cs);
    if cs.len() == 0 {
        lemma_fmul_laws(c, 0, 0);
    } else {
        let c1 = cs.drop_last();
        assert(sc.drop_last() =~= scaled(c, c1));
        lemma_scale_eval(c, c1, x);
        let p = fpow(x, (cs.len() - 1) as nat);
        lemma_fmul_laws(c, cs.last(), p);
        lemma_fmul_distributes(c, dense_eval(c1, x), fmul(cs.last(), p));
    }
}

/// The vanishing product is zero at every point of `xs` other than `xi`.
pub proof fn lemma_vanishing_root(xi: nat, xs: Seq<nat>, k: int)
    requires
        0 <= k < xs.len(),
        xs[k] != xi,
        xs[k] < modulus(),
    ensures
        vanishing(xi, xs, xs[k]) == 0,
    decreases xs.len(),
{
    let z = xs[k];
    let x1 = xs.drop_last();
    if k == xs.len() - 1 {
        lemma_fsub_laws(z, z);
        lemma_fmul_laws(vanishing(xi, x1, z), 0, 0);
    } else {
        assert(x1[k] == xs[k]);
        lemma_vanishing_root(xi, x1, k);
        if xs.last() != xi {
            lemma_fmul_laws(fsub(z, xs.last()), 0, 0);
            lemma_fmul_laws(0, fsub(z, xs.last()), 0);
        }
    }
}

/// The sum of the `ys` at a point that occurs once is that point's `y`.
pub proof fn lemma_matching_sum_distinct(xs: Seq<nat>, ys: Seq<nat>, k: int)
    requires
        xs.len() == ys.len(),
        0 <= k < xs.len(),
        ys[k] < modulus(),
        forall|i: int, j: int| 0 <= i < j < xs.len() ==> xs[i] != xs[j],
    ensures
        matching_sum(xs, ys, xs[k]) == ys[k],
{
    let z = xs[k];
    let s = matching_terms(xs, ys, z);
    let lo = s.subrange(0, k);
    let hi = s.subrange(k + 1, s.len() as int);
    assert(s =~= lo + seq![ys[k]] + hi);
    assert forall|t: int| 0 <= t < lo.len() implies #[trigger] lo[t] == 0 by {
        assert(xs[t] != xs[k]);
    }
    assert forall|t: int| 0 <= t < hi.len() implies #[trigger] hi[t] == 0 by {
        assert(xs[k] != xs[k + 1 + t]);
    }
    lemma_fsum_zeros(lo);
    lemma_fsum_zeros(hi);
    let mid = seq![ys[k]];
    crate::field::lemma_fsum_concat(lo + mid, hi);
    crate::field::lemma_fsum_concat(lo, mid);
    assert(mid.drop_last() =~= Seq::<nat>::empty());
    assert(fsum(mid.drop_last()) == 0);
    assert(fsum(mid) == fadd(0, ys[k]));
    lemma_fadd_laws(ys[k], 0, 0);
    assert(fsum(mid) == ys[k]);
    assert(fsum(lo + mid) == fadd(0, ys[k]));
    assert(fsum(lo + mid + hi) == fadd(ys[k], 0));
}

/// A sum of zeros is zero.
pub proof fn lemma_fsum_zeros(s: Seq<nat>)
    requires
        forall|t: int| 0 <= t < s.len() ==> #[trigger] s[t] == 0,
    ensures
        fsum(s) == 0,
    decreases s.len(),
{
    if s.len() > 0 {
        let s1 = s.drop_last();
        assert forall|t: int| 0 <= t < s1.len() implies #[trigger] s1[t] == 0 by {
            assert(s1[t] == s[t]);
        }
        lemma_fsum_zeros(s1);
        assert(s[s.len() - 1] == 0);
        lemma_fadd_laws(0, 0, 0);
    }
}

/// Two canonical values differ exactly when their difference is not zero.
pub proof fn lemma_fsub_nonzero(a: nat, b: nat)
    requires
        a < modulus(),
        b < modulus(),
        a != b,
    ensures
        fsub(a, b) != 0,
{
    let m = modulus() as int;
    let d = a as int - b as int;
    if d > 0 {
        vstd::arithmetic::div_mod::lemma_small_mod(d as nat, m as nat);
    } else {
        vstd::arithmetic::div_mod::lemma_fundamental_div_mod(d, m);
        assert(d % m == d + m) by {
            vstd::arithmetic::div_mod::lemma_small_mod((d + m) as nat, m as nat);
            vstd::arithmetic::div_mod::lemma_mod_add_multiples_vanish(d, m);
        }
    }
}

/// A polynomial with coefficients in the BN254 scalar field, the coefficient of
/// `x^k` at index `k`.
#[derive(Clone, Debug, PartialEq)]
pub struct Polynomial {
    pub coeffs: Vec<FieldElement>,
}

/// A copy of the elements.
fn copy_elements(v: &Vec<FieldElement>) -> (r: Vec<FieldElement>)
    ensures
        r@ == v@,
{
    let mut r: Vec<FieldElement> = Vec::new();
    let mut i: usize = 0;
    while i < v.len()
        invariant
            i <= v.len(),
            r@ == v@.subrange(0, i as int),
        decreases v.len() - i,
    {
        r.push(v[i]);
        i = i + 1;
        assert(r@ =~= v@.subrange(0, i as int));
    }
    assert(v@.subrange(0, v.len() as int) =~= v@);
    r
}

impl Polynomial {
    /// The polynomial with the given coefficients.
    pub fn new(input_coeffs: &Vec<FieldElement>) -> (r: Polynomial)
        ensures
            r.coeffs@ == input_coeffs@,
    {
        Polynomial { coeffs: copy_elements(input_coeffs) }
    }

    /// The number of coefficients less one.
    pub fn degree(&self) -> (r: u32)
        requires
            1 <= self.coeffs.len() <= u32::MAX,
        ensures
            r == self.coeffs.len() - 1,
    {
        self.coeffs.len() as u32 - 1
    }

    /// The value at `x`.
    pub fn eval(&self, x: FieldElement) -> (r: FieldElement)
        ensures
            r.val() == dense_eval(vals(self.coeffs@), x.val()),
    {
        let ghost cs = vals(self.coeffs@);
        let mut acc = ark_zero();
        let mut exp: usize = 0;
        while exp < self.coeffs.len()
            invariant
                exp <= self.coeffs.len(),
                cs == vals(self.coeffs@),
                acc.val() == dense_eval(cs.subrange(0, exp as int), x.val()),
            decreases self.coeffs.len() - exp,
        {
            let coeff = self.coeffs[exp];
            let term = ark_mul(coeff, ark_pow(x, exp as u64));
            acc = ark_add(acc, term);
            proof {
                let next = cs.subrange(0, exp + 1);
                assert(next.drop_last() =~= cs.subrange(0, exp as int));
                assert(next.last() == coeff.val());
            }
            exp = exp + 1;
        }
        assert(cs.subrange(0, self.coeffs.len() as int) =~= cs);
        acc
    }

    /// The polynomial with `scalar` times each coefficient.
    pub fn scale(scalar: FieldElement, poly: Vec<FieldElement>) -> (r: Vec<FieldElement>)
        ensures
            vals(r@) == scaled(scalar.val(), vals(poly@)),
    {
        let mut out: Vec<FieldElement> = Vec::new();
        let mut i: usize = 0;
        while i < poly.len()
            invariant
                i <= poly.len(),
                vals(out@) == scaled(scalar.val(), vals(poly@).subrange(0, i as int)),
            decreases poly.len() - i,
        {
            let ghost before = vals(out@);
            let c = ark_mul(scalar, poly[i]);
            out.push(c);
            proof {
                let sub = vals(poly@).subrange(0, i + 1);
                assert(sub.drop_last() =~= vals(poly@).subrange(0, i as int));
                assert(scaled(scalar.val(), sub) =~= before.push(c.val()));
                assert(vals(out@) =~= before.push(c.val()));
            }
            i = i + 1;
        }
        assert(vals(poly@).subrange(0, poly.len() as int) =~= vals(poly@));
        out
    }

    /// The product of two polynomials, with `left.len() + right.len() - 1`
    /// coefficients.
    pub fn mul_polys(left: Vec<FieldElement>, right: Vec<FieldElement>) -> (r: Vec<FieldElement>)
        requires
            1 <= left.len() + right.len() <= usize::MAX,
        ensures
            r.len() == left.len() + right.len() - 1,
            forall|k: int|
                0 <= k < r.len() ==> #[trigger] r[k].val() == convolution(
                    vals(left@),
                    vals(right@),
                    k as nat,
                ),
    {
        let (lv, rv) = (Ghost(vals(left@)), Ghost(vals(right@)));
        let len = left.len() + right.len() - 1;
        let mut product: Vec<FieldElement> = Vec::new();
        let zero = ark_zero();
        while product.len() < len
            invariant
                product.len() <= len,
                zero.val() == 0,
                forall|k: int| 0 <= k < product.len() ==> #[trigger] product[k].val() == 0,
            decreases len - product.len(),
        {
            product.push(zero);
        }
        let ghost tb = dense_terms(rv@);
        let mut i: usize = 0;
        while i < left.len()
            invariant
                i <= left.len(),
                lv@ == vals(left@),
                rv@ == vals(right@),
                tb == dense_terms(rv@),
                len == left.len() + right.len() - 1,
                product.len() == len,
                forall|k: int|
                    0 <= k < len ==> #[trigger] product[k].val() == coeff_sum(
                        pair_products(dense_terms(lv@.subrange(0, i as int)), tb),
                        k as nat,
                    ),
            decreases left.len() - i,
        {
            let ghost done = pair_products(dense_terms(lv@.subrange(0, i as int)), tb);
            let ghost ti = (i as nat, lv@[i as int]);
            let mut j: usize = 0;
            while j < right.len()
                invariant
                    i < left.len(),
                    j <= right.len(),
                    lv@ == vals(left@),
                    rv@ == vals(right@),
                    tb == dense_terms(rv@),
                    ti == (i as nat, lv@[i as int]),
                    len == left.len() + right.len() - 1,
                    product.len() == len,
                    forall|k: int|
                        0 <= k < len ==> #[trigger] product[k].val() == coeff_sum(
                            done + crate::univariate_polynomial::row_products(
                                ti,
                                tb.subrange(0, j as int),
                            ),
                            k as nat,
                        ),
                decreases right.len() - j,
            {
                let ghost before = done + crate::univariate_polynomial::row_products(
                    ti,
                    tb.subrange(0, j as int),
                );
                let ghost u = ((i + j) as nat, fmul(lv@[i as int], rv@[j as int]));
                let old_c = product[i + j];
                let add = ark_mul(left[i], right[j]);
                product.set(i + j, ark_add(old_c, add));
                proof {
                    let after = done + crate::univariate_polynomial::row_products(
                        ti,
                        tb.subrange(0, j + 1),
                    );
                    assert(after =~= before.push(u));
                    lemma_field_ops_canonical(lv@[i as int], rv@[j as int]);
                    assert forall|k: int| 0 <= k < len implies #[trigger] product[k].val()
                        == coeff_sum(after, k as nat) by {
                        lemma_coeff_push(before, u, k as nat);
                    }
                }
                j = j + 1;
            }
            proof {
                let next = lv@.subrange(0, i + 1);
                assert(dense_terms(next).drop_last() =~= dense_terms(lv@.subrange(0, i as int)));
                assert(dense_terms(next).last() == ti);
                assert(tb.subrange(0, right.len() as int) =~= tb);
            }
            i = i + 1;
        }
        assert(lv@.subrange(0, left.len() as int) =~= lv@);
        product
    }

    /// The sum of two polynomials: the longer one, with the shorter added into it.
    pub fn add_polys(left: Vec<FieldElement>, right: Vec<FieldElement>) -> (r: Vec<FieldElement>)
        ensures
            r.len() == if left.len() > right.len() {
                left.len()
            } else {
                right.len()
            },
            forall|k: int|
                0 <= k < r.len() ==> #[trigger] r[k].val() == padded_sum(
                    vals(left@),
                    vals(right@),
                    k,
                ),
    {
        let ghost (lv, rv) = (vals(left@), vals(right@));
        let (mut longer, shorter) = if left.len() > right.len() {
            (left, right)
        } else {
            (right, left)
        };
        let ghost lo = longer@;
        let mut i: usize = 0;
        while i < shorter.len()
            invariant
                i <= shorter.len() <= longer.len(),
                longer.len() == lo.len(),
                forall|k: int|
                    0 <= k < longer.len() ==> #[trigger] longer[k].val() == if k < i {
                        fadd(lo[k].val(), shorter[k].val())
                    } else {
                        lo[k].val()
                    },
            decreases shorter.len() - i,
        {
            let c = ark_add(longer[i], shorter[i]);
            longer.set(i, c);
            i = i + 1;
        }
        proof {
            assert forall|k: int| 0 <= k < longer.len() implies #[trigger] longer[k].val()
                == padded_sum(lv, rv, k) by {
                if k < shorter.len() {
                    lemma_fadd_laws(lo[k].val(), shorter[k].val(), 0);
                }
            }
        }
        longer
    }
}

/// The line `x - xj` has value `z - xj` at every canonical `z`.
proof fn lemma_linear_factor_eval(xj: nat, z: nat)
    requires
        xj < modulus(),
        z < modulus(),
    ensures
        dense_eval(seq![fneg(xj), 1nat], z) == fsub(z, xj),
{
    let lin = seq![fneg(xj), 1nat];
    let c0 = lin.drop_last();
    assert(c0 =~= seq![fneg(xj)]);
    assert(c0.drop_last() =~= Seq::<nat>::empty());
    assert(dense_eval(c0.drop_last(), z) == 0);
    assert(fpow(z, 0) == 1);
    lemma_field_ops_canonical(0, xj);
    lemma_fmul_laws(fneg(xj), 1, 0);
    lemma_fadd_laws(fneg(xj), 0, 0);
    assert(dense_eval(c0, z) == fneg(xj));
    assert(fpow(z, 1) == fmul(z, fpow(z, 0)));
    lemma_fmul_laws(z, 1, 0);
    lemma_fmul_laws(1, z, 0);
    assert(dense_eval(lin, z) == fadd(fneg(xj), z));
    lemma_fsub_laws(z, xj);
    lemma_fadd_laws(fneg(xj), z, 0);
}

impl Polynomial {
    /// `y_i` times the product of `x - x_j` over the points `x_j` of `x_set` other
    /// than `x_i`, divided by that product's value at `x_i`: the polynomial that is
    /// `y_i` at `x_i` and zero at the other points of `x_set`.
    fn basis_poly(y_i: &FieldElement, x_i: &FieldElement, x_set: &Vec<FieldElement>) -> (r: Vec<
        FieldElement,
    >)
        requires
            x_set.len() + 3 <= usize::MAX,
        ensures
            1 <= r.len() <= x_set.len() + 1,
            (exists|k: int| 0 <= k < x_set.len() && x_set[k].val() == x_i.val()) ==> r.len()
                <= x_set.len(),
            dense_eval(vals(r@), x_i.val()) == y_i.val(),
            forall|k: int|
                0 <= k < x_set.len() ==> #[trigger] dense_eval(vals(r@), x_set[k].val()) == if x_set[k].val()
                    == x_i.val() {
                    y_i.val()
                } else {
                    0
                },
    {
        let ghost xs = vals(x_set@);
        let ghost xi = x_i.val();
        proof {
            lemma_vals_canonical(x_set@);
            vstd::arithmetic::div_mod::lemma_mod_bound(
                crate::field::le_value(x_i.bytes@) as int,
                modulus() as int,
            );
        }
        let one = ark_one();
        let mut num: Vec<FieldElement> = vec![one];
        let mut d = ark_one();
        let ghost mut seen = false;
        proof {
            assert(vals(num@) =~= seq![1nat]);
            assert forall|z: nat| z < modulus() implies #[trigger] dense_eval(vals(num@), z)
                == vanishing(xi, xs.subrange(0, 0), z) by {
                let c = vals(num@);
                assert(c.drop_last() =~= Seq::<nat>::empty());
                assert(dense_eval(c.drop_last(), z) == 0);
                assert(c.last() == 1);
                assert(fpow(z, 0) == 1);
                lemma_fmul_laws(1, 1, 0);
                lemma_fadd_laws(1, 0, 0);
                assert(dense_eval(c, z) == 1);
                assert(xs.subrange(0, 0).len() == 0);
            }
        }
        let mut j: usize = 0;
        while j < x_set.len()
            invariant
                j <= x_set.len(),
                x_set.len() + 3 <= usize::MAX,
                xs == vals(x_set@),
                xi == x_i.val(),
                xi < modulus(),
                all_canonical(xs),
                one.val() == 1,
                1 <= num.len(),
                num.len() + (if seen { 1int } else { 0int }) <= j + 1,
                seen == (exists|k: int| 0 <= k < j && xs[k] == xi),
                forall|z: nat|
                    z < modulus() ==> #[trigger] dense_eval(vals(num@), z) == vanishing(
                        xi,
                        xs.subrange(0, j as int),
                        z,
                    ),
                d.val() == vanishing(xi, xs.subrange(0, j as int), xi),
                d.val() != 0,
            decreases x_set.len() - j,
        {
            let x_j = x_set[j];
            let ghost pre = xs.subrange(0, j as int);
            let ghost next = xs.subrange(0, j + 1);
            proof {
                assert(next.drop_last() =~= pre);
                assert(next.last() == x_j.val());
                assert(xs[j as int] < modulus());
            }
            if !ark_eq(x_j, *x_i) {
                let neg = ark_neg(x_j);
                let lin: Vec<FieldElement> = vec![neg, one];
                let ghost old_num = vals(num@);
                num = Self::mul_polys(num, lin);
                let diff = ark_sub(*x_i, x_j);
                d = ark_mul(d, diff);
                proof {
                    assert(vals(lin@) =~= seq![fneg(x_j.val()), 1nat]);
                    lemma_fsub_nonzero(xi, x_j.val());
                    assert(vals(num@) =~= product_coeffs(old_num, vals(lin@)));
                    assert forall|z: nat| z < modulus() implies #[trigger] dense_eval(
                        vals(num@),
                        z,
                    ) == vanishing(xi, next, z) by {
                        lemma_convolution_eval(old_num, vals(lin@), z);
                        lemma_linear_factor_eval(x_j.val(), z);
                    }
                    if seen {
                        let k = choose|k: int| 0 <= k < j && xs[k] == xi;
                        assert(0 <= k < j + 1 && xs[k] == xi);
                    }
                    assert((exists|k: int| 0 <= k < j + 1 && xs[k] == xi) ==> seen) by {
                        if exists|k: int| 0 <= k < j + 1 && xs[k] == xi {
                            let k = choose|k: int| 0 <= k < j + 1 && xs[k] == xi;
                            assert(k != j);
                        }
                    }
                }
            } else {
                proof {
                    seen = true;
                    assert(0 <= j < j + 1 && xs[j as int] == xi);
                }
            }
            j = j + 1;
        }
        proof {
            assert(xs.subrange(0, x_set.len() as int) =~= xs);
        }
        let basis = Self::new(&num);
        let denom = basis.eval(*x_i);
        let q = ark_div(*y_i, denom);
        let r = Self::scale(q, num);
        proof {
            assert forall|z: nat| z < modulus() implies #[trigger] dense_eval(vals(r@), z) == fmul(
                q.val(),
                vanishing(xi, xs, z),
            ) by {
                lemma_scale_eval(q.val(), vals(num@), z);
            }
            assert(dense_eval(vals(r@), xi) == y_i.val());
            assert forall|k: int| 0 <= k < x_set.len() implies #[trigger] dense_eval(
                vals(r@),
                x_set[k].val(),
            ) == if x_set[k].val() == x_i.val() {
                y_i.val()
            } else {
                0
            } by {
                assert(xs[k] == x_set[k].val());
                if x_set[k].val() != x_i.val() {
                    lemma_vanishing_root(xi, xs, k);
                    lemma_fmul_laws(q.val(), 0, 0);
                }
            }
            if exists|k: int| 0 <= k < x_set.len() && x_set[k].val() == x_i.val() {
                let k = choose|k: int| 0 <= k < x_set.len() && x_set[k].val() == x_i.val();
                assert(xs[k] == xi);
            }
        }
        r
    }

    /// The polynomial through the points `(x_vals[i], y_vals[i])`, as the sum of
    /// the basis polynomials of the points. At a point that occurs more than once
    /// its value is the sum of the `y` given there.
    pub fn lagrange_interpolate(x_vals: &Vec<FieldElement>, y_vals: &Vec<FieldElement>) -> (r:
        Polynomial)
        requires
            x_vals.len() == y_vals.len(),
            x_vals.len() + 3 <= usize::MAX,
        ensures
            1 <= r.coeffs.len(),
            r.coeffs.len() <= x_vals.len() || r.coeffs.len() == 1,
            forall|k: int|
                0 <= k < x_vals.len() ==> #[trigger] dense_eval(
                    vals(r.coeffs@),
                    x_vals[k].val(),
                ) == matching_sum(vals(x_vals@), vals(y_vals@), x_vals[k].val()),
            (forall|i: int, j: int|
                0 <= i < j < x_vals.len() ==> x_vals[i].val() != x_vals[j].val()) ==> forall|k: int|
                0 <= k < x_vals.len() ==> #[trigger] dense_eval(vals(r.coeffs@), x_vals[k].val())
                    == y_vals[k].val(),
    {
        let ghost xs = vals(x_vals@);
        let ghost ys = vals(y_vals@);
        let n = x_vals.len();
        let zero = ark_zero();
        let mut result: Vec<FieldElement> = vec![zero];
        proof {
            lemma_vals_canonical(x_vals@);
            lemma_vals_canonical(y_vals@);
            assert forall|k: int| 0 <= k < n implies #[trigger] dense_eval(
                vals(result@),
                xs[k],
            ) == fsum(matching_terms(xs.subrange(0, 0), ys.subrange(0, 0), xs[k])) by {
                let c = vals(result@);
                assert(c.drop_last() =~= Seq::<nat>::empty());
                assert(dense_eval(c.drop_last(), xs[k]) == 0);
                assert(c.last() == 0);
                lemma_fmul_laws(fpow(xs[k], 0), 0, 0);
                lemma_fadd_laws(0, 0, 0);
                assert(dense_eval(c, xs[k]) == 0);
                assert(fsum(Seq::<nat>::empty()) == 0);
                assert(matching_terms(xs.subrange(0, 0), ys.subrange(0, 0), xs[k])
                    =~= Seq::<nat>::empty());
            }
        }
        let mut i: usize = 0;
        while i < n
            invariant
                i <= n,
                n == x_vals.len(),
                n == y_vals.len(),
                n + 3 <= usize::MAX,
                xs == vals(x_vals@),
                ys == vals(y_vals@),
                all_canonical(xs),
                all_canonical(ys),
                1 <= result.len(),
                result.len() <= n || result.len() == 1,
                forall|k: int|
                    0 <= k < n ==> #[trigger] dense_eval(vals(result@), xs[k]) == fsum(
                        matching_terms(xs.subrange(0, i as int), ys.subrange(0, i as int), xs[k]),
                    ),
            decreases n - i,
        {
            let basis = Self::basis_poly(&y_vals[i], &x_vals[i], x_vals);
            let ghost old_r = vals(result@);
            let ghost bv = vals(basis@);
            proof {
                assert(0 <= i < x_vals.len() && x_vals[i as int].val() == x_vals[i as int].val());
            }
            result = Self::add_polys(result, basis);
            proof {
                lemma_vals_canonical(result@);
                lemma_vals_canonical(basis@);
                assert(vals(result@) =~= padded_add(old_r, bv));
                assert forall|k: int| 0 <= k < n implies #[trigger] dense_eval(
                    vals(result@),
                    xs[k],
                ) == fsum(
                    matching_terms(xs.subrange(0, i + 1), ys.subrange(0, i + 1), xs[k]),
                ) by {
                    let z = xs[k];
                    lemma_padded_sum_eval(old_r, bv, z);
                    assert(dense_eval(bv, x_vals[k].val()) == if x_vals[k].val()
                        == x_vals[i as int].val() {
                        y_vals[i as int].val()
                    } else {
                        0
                    });
                    let mt = matching_terms(xs.subrange(0, i + 1), ys.subrange(0, i + 1), z);
                    assert(mt.drop_last() =~= matching_terms(
                        xs.subrange(0, i as int),
                        ys.subrange(0, i as int),
                        z,
                    ));
                }
            }
            i = i + 1;
        }
        proof {
            assert(xs.subrange(0, n as int) =~= xs);
            assert(ys.subrange(0, n as int) =~= ys);
            assert forall|k: int| 0 <= k < x_vals.len() implies #[trigger] dense_eval(
                vals(result@),
                x_vals[k].val(),
            ) == matching_sum(xs, ys, x_vals[k].val()) by {
                assert(xs[k] == x_vals[k].val());
            }
            if forall|i: int, j: int| 0 <= i < j < x_vals.len() ==> x_vals[i].val() != x_vals[j].val() {
                assert forall|k: int| 0 <= k < x_vals.len() implies #[trigger] dense_eval(
                    vals(result@),
                    x_vals[k].val(),
                ) == y_vals[k].val() by {
                    assert forall|a: int, b: int| 0 <= a < b < xs.len() implies xs[a] != xs[b] by {
                        assert(x_vals[a].val() != x_vals[b].val());
                    }
                    lemma_matching_sum_distinct(xs, ys, k);
                }
            }
        }
        Polynomial { coeffs: result }
    }
}

/// `r^(k-1), ..., r, 1`, as coefficients: the quotient of `x^k - r^k` by `x - r`.
pub open spec fn geometric(r: nat, k: nat) -> Seq<nat> {
    Seq::new(k, |t: int| fpow(r, (k - 1 - t) as nat))
}

/// `(a - b) + (c - a) = c - b` in the field.
pub proof fn lemma_telescope(a: nat, b: nat, c: nat)
    ensures
        fadd(fsub(a, b), fsub(c, a)) == fsub(c, b),
{
    let (x, y) = (a as int - b as int, c as int - a as int);
    let m = modulus() as int;
    lemma_field_ops_canonical(a, b);
    lemma_field_ops_canonical(c, a);
    lemma_field_ops_canonical(c, b);
    crate::field::lemma_add_mod_absorb(x, y % m);
    crate::field::lemma_add_mod_absorb(x, y);
}

/// Four summands can be regrouped: `(x + w) + (y + b) = (x + y) + (w + b)`.
pub proof fn lemma_fadd_regroup(x: nat, w: nat, y: nat, b: nat)
    ensures
        fadd(fadd(x, w), fadd(y, b)) == fadd(fadd(x, y), fadd(w, b)),
{
    lemma_add4_mod(x as int, w as int, y as int, b as int, modulus() as int);
}

/// Regrouping four summands modulo `m`.
proof fn lemma_add4_mod(x: int, w: int, y: int, b: int, m: int)
    requires
        m > 0,
    ensures
        ((x + w) % m + (y + b) % m) % m == ((x + y) % m + (w + b) % m) % m,
{
    vstd::arithmetic::div_mod::lemma_add_mod_noop(x + w, y + b, m);
    vstd::arithmetic::div_mod::lemma_add_mod_noop(x + y, w + b, m);
    assert((x + w) + (y + b) == (x + y) + (w + b));
}

/// `x^k - r^k = (x - r) (r^(k-1) + r^(k-2) x + ... + x^(k-1))`.
pub proof fn lemma_geometric(r: nat, z: nat, k: nat)
    requires
        r < modulus(),
        z < modulus(),
    ensures
        fsub(fpow(z, k), fpow(r, k)) == fmul(fsub(z, r), dense_eval(geometric(r, k), z)),
    decreases k,
{
    let s = fsub(z, r);
    if k == 0 {
        lemma_fsub_laws(1, 1);
        assert(geometric(r, 0) =~= Seq::<nat>::empty());
        lemma_fmul_laws(s, 0, 0);
    } else {
        let j = (k - 1) as nat;
        lemma_geometric(r, z, j);
        let g = geometric(r, k);
        assert(g.drop_last() =~= scaled(r, geometric(r, j))) by {
            assert forall|t: int| 0 <= t < j implies #[trigger] g.drop_last()[t] == scaled(
                r,
                geometric(r, j),
            )[t] by {
                assert(fpow(r, (k - 1 - t) as nat) == fmul(r, fpow(r, (j - 1 - t) as nat)));
            }
        }
        assert(g.last() == 1);
        let h = dense_eval(geometric(r, j), z);
        let pz = fpow(z, j);
        let pr = fpow(r, j);
        crate::univariate_polynomial::lemma_fpow_canonical(z, j);
        crate::univariate_polynomial::lemma_fpow_canonical(r, j);
        lemma_dense_eval_canonical(geometric(r, j), z);
        lemma_scale_eval(r, geometric(r, j), z);
        lemma_fmul_laws(pz, 1, 0);
        assert(dense_eval(g, z) == fadd(fmul(r, h), pz));
        lemma_fmul_distributes(s, fmul(r, h), pz);
        lemma_fmul_laws(s, r, h);
        lemma_fmul_laws(r, s, h);
        lemma_fmul_distributes(r, pz, pr);
        lemma_fmul_distributes(pz, z, r);
        lemma_fmul_laws(pz, z, 0);
        lemma_fmul_laws(pz, r, 0);
        lemma_fmul_laws(s, pz, 0);
        lemma_telescope(fmul(r, pz), fmul(r, pr), fmul(z, pz));
    }
}

/// Dividing by `x - r`: `d(x) = (x - r) q(x) + d(r)` for a `q` of one coefficient
/// fewer.
pub proof fn lemma_factor(d: Seq<nat>, r: nat) -> (q: Seq<nat>)
    requires
        d.len() >= 1,
        r < modulus(),
    ensures
        q.len() == d.len() - 1,
        all_canonical(q),
        forall|z: nat|
            z < modulus() ==> #[trigger] dense_eval(d, z) == fadd(
                fmul(fsub(z, r), dense_eval(q, z)),
                dense_eval(d, r),
            ),
    decreases d.len(),
{
    if d.len() == 1 {
        let q = Seq::<nat>::empty();
        assert forall|z: nat| z < modulus() implies #[trigger] dense_eval(d, z) == fadd(
            fmul(fsub(z, r), dense_eval(q, z)),
            dense_eval(d, r),
        ) by {
            assert(d.drop_last() =~= Seq::<nat>::empty());
            assert(fpow(z, 0) == 1 && fpow(r, 0) == 1);
            assert(dense_eval(d.drop_last(), z) == 0 && dense_eval(d.drop_last(), r) == 0);
            assert(dense_eval(d, z) == fadd(0, fmul(d.last(), 1)));
            assert(dense_eval(d, r) == fadd(0, fmul(d.last(), 1)));
            assert(dense_eval(q, z) == 0);
            lemma_fmul_laws(fsub(z, r), 0, 0);
            lemma_dense_eval_canonical(d, r);
            lemma_fadd_laws(dense_eval(d, r), 0, 0);
        }
        q
    } else {
        let d1 = d.drop_last();
        let a = d.last();
        let k = (d.len() - 1) as nat;
        let q1 = lemma_factor(d1, r);
        let h = geometric(r, k);
        let sh = scaled(a, h);
        assert(all_canonical(sh)) by {
            assert forall|t: int| 0 <= t < sh.len() implies #[trigger] sh[t] < modulus() by {
                lemma_field_ops_canonical(a, h[t]);
            }
        }
        let q = padded_add(q1, sh);
        assert(all_canonical(q)) by {
            assert forall|t: int| 0 <= t < q.len() implies #[trigger] q[t] < modulus() by {
                if t < q1.len() {
                    lemma_field_ops_canonical(q1[t], sh[t]);
                }
            }
        }
        assert forall|z: nat| z < modulus() implies #[trigger] dense_eval(d, z) == fadd(
            fmul(fsub(z, r), dense_eval(q, z)),
            dense_eval(d, r),
        ) by {
            lemma_factor_value(d, r, q1, z);
        }
        q
    }
}

/// The value identity of one division step: with `d1 = (x - r) q1 + d1(r)` and `a`
/// the top coefficient of `d`, `q1` plus `a` times the geometric quotient divides `d`.
proof fn lemma_factor_value(d: Seq<nat>, r: nat, q1: Seq<nat>, z: nat)
    requires
        d.len() >= 2,
        r < modulus(),
        z < modulus(),
        q1.len() == d.len() - 2,
        all_canonical(q1),
        dense_eval(d.drop_last(), z) == fadd(
            fmul(fsub(z, r), dense_eval(q1, z)),
            dense_eval(d.drop_last(), r),
        ),
    ensures
        dense_eval(d, z) == fadd(
            fmul(
                fsub(z, r),
                dense_eval(
                    padded_add(q1, scaled(d.last(), geometric(r, (d.len() - 1) as nat))),
                    z,
                ),
            ),
            dense_eval(d, r),
        ),
{
    let d1 = d.drop_last();
    let a = d.last();
    let k = (d.len() - 1) as nat;
    let h = geometric(r, k);
    let sh = scaled(a, h);
    assert(all_canonical(sh)) by {
        assert forall|t: int| 0 <= t < sh.len() implies #[trigger] sh[t] < modulus() by {
            lemma_field_ops_canonical(a, h[t]);
        }
    }
    let s = fsub(z, r);
    let pz = fpow(z, k);
    let pr = fpow(r, k);
    lemma_padded_sum_eval(q1, sh, z);
    lemma_scale_eval(a, h, z);
    lemma_geometric(r, z, k);
    let q1z = dense_eval(q1, z);
    let hz = dense_eval(h, z);
    let shz = dense_eval(sh, z);
    let x = fmul(s, q1z);
    let y = dense_eval(d1, r);
    let big_a = fmul(a, pz);
    let big_b = fmul(a, pr);
    let w = fmul(s, shz);
    lemma_dense_eval_canonical(q1, z);
    lemma_dense_eval_canonical(h, z);
    lemma_dense_eval_canonical(d1, r);
    crate::univariate_polynomial::lemma_fpow_canonical(z, k);
    crate::univariate_polynomial::lemma_fpow_canonical(r, k);
    lemma_fmul_distributes(s, q1z, shz);
    lemma_fmul_laws(s, a, hz);
    lemma_fmul_laws(a, s, hz);
    lemma_fmul_distributes(a, pz, pr);
    assert(w == fsub(big_a, big_b));
    lemma_field_ops_canonical(a, pr);
    lemma_field_ops_canonical(a, pz);
    lemma_fsub_laws(big_a, big_b);
    lemma_fadd_laws(w, big_b, 0);
    lemma_fadd_regroup(x, w, y, big_b);
}

/// The points are distinct and their differences are invertible.
pub open spec fn pairwise_invertible(xs: Seq<nat>) -> bool {
    forall|a: int, b: int|
        #![trigger xs[a], xs[b]]
        0 <= a < xs.len() && 0 <= b < xs.len() && a != b ==> xs[a] != xs[b] && invertible(
            fsub(xs[a], xs[b]),
        )
}

/// Dropping the last point keeps the points canonical, distinct and with
/// invertible differences.
pub proof fn lemma_drop_last_points(xs: Seq<nat>)
    requires
        xs.len() > 0,
        all_canonical(xs),
        pairwise_invertible(xs),
    ensures
        all_canonical(xs.drop_last()),
        pairwise_invertible(xs.drop_last()),
{
    let x1 = xs.drop_last();
    assert forall|a: int, b: int|
        #![trigger x1[a], x1[b]]
        0 <= a < x1.len() && 0 <= b < x1.len() && a != b implies x1[a] != x1[b] && invertible(
        fsub(x1[a], x1[b]),
    ) by {
        assert(x1[a] == xs[a] && x1[b] == xs[b]);
    }
    assert forall|k: int| 0 <= k < x1.len() implies #[trigger] x1[k] < modulus() by {
        assert(x1[k] == xs[k]);
    }
}

/// A polynomial with no more coefficients than it has distinct roots, whose
/// differences are invertible, is zero everywhere.
pub proof fn lemma_roots_vanish(d: Seq<nat>, xs: Seq<nat>, z: nat)
    requires
        all_canonical(xs),
        d.len() <= xs.len(),
        pairwise_invertible(xs),
        forall|k: int| 0 <= k < xs.len() ==> #[trigger] dense_eval(d, xs[k]) == 0,
        z < modulus(),
    ensures
        dense_eval(d, z) == 0,
    decreases xs.len(),
{
    if d.len() > 0 {
        let n = xs.len();
        let r = xs[n - 1];
        let x1 = xs.drop_last();
        let q = lemma_factor(d, r);
        assert(dense_eval(d, xs[n - 1]) == 0);
        assert forall|k: int| 0 <= k < x1.len() implies #[trigger] dense_eval(q, x1[k]) == 0 by {
            let xk = xs[k];
            assert(x1[k] == xk);
            let f = fsub(xk, r);
            assert(dense_eval(d, xs[k]) == 0);
            assert(invertible(fsub(xs[k], xs[n - 1])));
            let b = finv(f);
            let qk = dense_eval(q, xk);
            lemma_dense_eval_canonical(q, xk);
            lemma_fadd_laws(fmul(f, qk), 0, 0);
            lemma_field_ops_canonical(f, qk);
            assert(fmul(f, qk) == 0);
            lemma_fmul_laws(b, f, qk);
            lemma_fmul_laws(f, b, 0);
            lemma_fmul_laws(qk, 1, 0);
            lemma_fmul_laws(b, 0, 0);
        }
        lemma_drop_last_points(xs);
        lemma_roots_vanish(q, x1, z);
        let f = fsub(z, r);
        lemma_fmul_laws(f, 0, 0);
        lemma_fadd_laws(0, 0, 0);
    }
}

/// The number of points of `xs` other than `xi`.
pub open spec fn others(xi: nat, xs: Seq<nat>) -> nat
    decreases xs.len(),
{
    if xs.len() == 0 {
        0
    } else if xs.last() == xi {
        others(xi, xs.drop_last())
    } else {
        others(xi, xs.drop_last()) + 1
    }
}

/// Fewer points differ from a point that occurs.
pub proof fn lemma_others_bound(xi: nat, xs: Seq<nat>)
    ensures
        others(xi, xs) <= xs.len(),
        (exists|j: int| 0 <= j < xs.len() && xs[j] == xi) ==> others(xi, xs) < xs.len(),
    decreases xs.len(),
{
    if xs.len() > 0 {
        let x1 = xs.drop_last();
        lemma_others_bound(xi, x1);
        if exists|j: int| 0 <= j < xs.len() && xs[j] == xi {
            let j = choose|j: int| 0 <= j < xs.len() && xs[j] == xi;
            if j < x1.len() {
                assert(x1[j] == xi);
            }
        }
    }
}

/// The coefficients of the vanishing product: one more than the number of other
/// points, canonical, and with the product's value everywhere.
pub proof fn lemma_vanishing_coeffs(xi: nat, xs: Seq<nat>) -> (v: Seq<nat>)
    requires
        all_canonical(xs),
    ensures
        v.len() == others(xi, xs) + 1,
        all_canonical(v),
        forall|z: nat| z < modulus() ==> #[trigger] dense_eval(v, z) == vanishing(xi, xs, z),
    decreases xs.len(),
{
    if xs.len() == 0 {
        let v = seq![1nat];
        assert forall|z: nat| z < modulus() implies #[trigger] dense_eval(v, z) == vanishing(
            xi,
            xs,
            z,
        ) by {
            assert(v.drop_last() =~= Seq::<nat>::empty());
            assert(dense_eval(v.drop_last(), z) == 0);
            assert(v.last() == 1);
            assert(fpow(z, 0) == 1);
            lemma_fmul_laws(1, 1, 0);
            lemma_fadd_laws(1, 0, 0);
            assert(dense_eval(v, z) == fadd(0, fmul(1, 1)));
        }
        assert(all_canonical(v));
        v
    } else {
        let x1 = xs.drop_last();
        assert(all_canonical(x1)) by {
            assert forall|k: int| 0 <= k < x1.len() implies #[trigger] x1[k] < modulus() by {
                assert(x1[k] == xs[k]);
            }
        }
        let v1 = lemma_vanishing_coeffs(xi, x1);
        let xj = xs.last();
        if xj == xi {
            v1
        } else {
            assert(xs[xs.len() - 1] < modulus());
            let lin = seq![fneg(xj), 1nat];
            let v = product_coeffs(v1, lin);
            assert forall|z: nat| z < modulus() implies #[trigger] dense_eval(v, z) == vanishing(
                xi,
                xs,
                z,
            ) by {
                lemma_convolution_eval(v1, lin, z);
                lemma_linear_factor_eval(xj, z);
                assert(dense_eval(v1, z) == vanishing(xi, x1, z));
                assert(dense_eval(lin, z) == fsub(z, xj));
                assert(vanishing(xi, xs, z) == fmul(vanishing(xi, x1, z), fsub(z, xj)));
                assert(dense_eval(product_coeffs(v1, lin), z) == fmul(
                    dense_eval(v1, z),
                    dense_eval(lin, z),
                ));
                assert(dense_eval(v, z) == fmul(vanishing(xi, x1, z), fsub(z, xj)));
            }
            assert(all_canonical(v)) by {
                assert forall|k: int| 0 <= k < v.len() implies #[trigger] v[k] < modulus() by {
                    crate::univariate_polynomial::lemma_msum_canonical(
                        crate::univariate_polynomial::pair_products(dense_terms(v1), dense_terms(lin)),
                        coeff_part(k as nat),
                    );
                }
            }
            v
        }
    }
}

/// A point other than `xi` contributes a factor: the vanishing product is the
/// product of `z - xs[j]` and the rest.
pub proof fn lemma_vanishing_factor(xi: nat, xs: Seq<nat>, j: int, z: nat) -> (rest: nat)
    requires
        0 <= j < xs.len(),
        xs[j] != xi,
    ensures
        rest < modulus(),
        vanishing(xi, xs, z) == fmul(rest, fsub(z, xs[j])),
    decreases xs.len(),
{
    let x1 = xs.drop_last();
    let last = xs.last();
    if j == xs.len() - 1 {
        let rest = vanishing(xi, x1, z);
        lemma_vanishing_canonical(xi, x1, z);
        rest
    } else {
        assert(x1[j] == xs[j]);
        let rest1 = lemma_vanishing_factor(xi, x1, j, z);
        if last == xi {
            rest1
        } else {
            let fj = fsub(z, xs[j]);
            let fl = fsub(z, last);
            lemma_fmul_laws(rest1, fj, fl);
            lemma_fmul_laws(rest1, fl, fj);
            lemma_fmul_laws(fj, fl, 0);
            lemma_field_ops_canonical(rest1, fl);
            fmul(rest1, fl)
        }
    }
}

/// Vanishing products are canonical.
pub proof fn lemma_vanishing_canonical(xi: nat, xs: Seq<nat>, z: nat)
    ensures
        vanishing(xi, xs, z) < modulus(),
    decreases xs.len(),
{
    if xs.len() > 0 {
        lemma_vanishing_canonical(xi, xs.drop_last(), z);
        lemma_field_ops_canonical(vanishing(xi, xs.drop_last(), z), fsub(z, xs.last()));
    }
}

} // verus!
