//! Univariate polynomials in sparse form: a list of `(power, coefficient)` terms,
//! kept with strictly increasing powers and no zero coefficient.
use crate::field::{
    ark_add, ark_div, ark_is_zero, ark_mul, ark_neg, ark_one, ark_pow, ark_sub, ark_zero, fadd,
    fmul, fneg, fpow, fsub, fsum, lemma_fadd_laws, lemma_field_ops_canonical,
    lemma_fmul_distributes, lemma_fmul_laws, lemma_fsub_laws, lemma_fsum_canonical,
    lemma_fsum_concat, modulus, FieldElement,
};
use vstd::prelude::*;

verus! {

/// The terms by their values.
pub open spec fn term_vals(ts: Seq<(usize, FieldElement)>) -> Seq<(nat, nat)> {
    ts.map_values(|t: (usize, FieldElement)| (t.0 as nat, t.1.val()))
}

/// The sum of a function of the terms, in the field.
pub open spec fn msum(s: Seq<(nat, nat)>, f: spec_fn((nat, nat)) -> nat) -> nat {
    fsum(s.map_values(f))
}

/// What a term contributes to the coefficient of `x^p`.
pub open spec fn coeff_part(p: nat) -> spec_fn((nat, nat)) -> nat {
    |t: (nat, nat)| if t.0 == p { t.1 % modulus() } else { 0 }
}

/// What a term contributes to the value at `x`.
pub open spec fn eval_part(x: nat) -> spec_fn((nat, nat)) -> nat {
    |t: (nat, nat)| fmul(t.1, fpow(x, t.0))
}

/// The coefficient of `x^p` in the sum of the terms.
pub open spec fn coeff_sum(s: Seq<(nat, nat)>, p: nat) -> nat {
    msum(s, coeff_part(p))
}

/// The value of the sum of the terms at `x`.
pub open spec fn raw_eval(s: Seq<(nat, nat)>, x: nat) -> nat {
    msum(s, eval_part(x))
}

/// Powers strictly increase along the list.
pub open spec fn powers_increasing(s: Seq<(nat, nat)>) -> bool {
    forall|i: int, j: int| 0 <= i < j < s.len() ==> s[i].0 < s[j].0
}

/// Powers never decrease along the list.
pub open spec fn powers_nondecreasing(s: Seq<(nat, nat)>) -> bool {
    forall|i: int, j: int| 0 <= i <= j < s.len() ==> s[i].0 <= s[j].0
}

/// `r` is the sum of the terms `s` in normal form: one term per power whose
/// coefficient does not vanish, powers increasing.
pub open spec fn is_normal_form(r: Seq<(nat, nat)>, s: Seq<(nat, nat)>) -> bool {
    &&& powers_increasing(r)
    &&& forall|i: int|
        0 <= i < r.len() ==> #[trigger] r[i].1 == coeff_sum(s, r[i].0) && r[i].1 != 0
    &&& forall|p: nat| #[trigger] coeff_sum(s, p) != 0 ==> has_power(r, p)
}

/// Some term of `s` has power `p`.
pub open spec fn has_power(s: Seq<(nat, nat)>, p: nat) -> bool {
    exists|i: int| 0 <= i < s.len() && s[i].0 == p
}

/// The powers present after appending a term.
pub proof fn lemma_has_power_push(s: Seq<(nat, nat)>, t: (nat, nat), p: nat)
    ensures
        has_power(s.push(t), p) == (has_power(s, p) || t.0 == p),
{
    if has_power(s, p) {
        let i = choose|i: int| 0 <= i < s.len() && s[i].0 == p;
        assert(s.push(t)[i] == s[i]);
    }
    if t.0 == p {
        assert(s.push(t)[s.len() as int] == t);
    }
    if has_power(s.push(t), p) {
        let i = choose|i: int| 0 <= i < s.len() + 1 && s.push(t)[i].0 == p;
        if i < s.len() {
            assert(s[i] == s.push(t)[i]);
        }
    }
}

/// Two lists of terms with the same coefficients and the same values.
pub open spec fn same_sum(a: Seq<(nat, nat)>, b: Seq<(nat, nat)>) -> bool {
    &&& forall|p: nat| #[trigger] coeff_sum(a, p) == coeff_sum(b, p)
    &&& forall|x: nat| #[trigger] raw_eval(a, x) == raw_eval(b, x)
}

/// A one-element sum is its element, reduced.
pub proof fn lemma_fsum_single(v: nat)
    ensures
        fsum(seq![v]) == v % modulus(),
{
    let s = seq![v];
    assert(s.drop_last() =~= Seq::<nat>::empty());
    assert(s.last() == v);
    assert(fsum(s.drop_last()) == 0);
    assert(fsum(s) == fadd(0, v));
}

/// Summing over a concatenation adds the two sums.
pub proof fn lemma_msum_concat(a: Seq<(nat, nat)>, b: Seq<(nat, nat)>, f: spec_fn((nat, nat)) -> nat)
    ensures
        msum(a + b, f) == fadd(msum(a, f), msum(b, f)),
{
    assert((a + b).map_values(f) =~= a.map_values(f) + b.map_values(f));
    lemma_fsum_concat(a.map_values(f), b.map_values(f));
}

/// Summing over a list with one more term adds its contribution.
pub proof fn lemma_msum_push(a: Seq<(nat, nat)>, t: (nat, nat), f: spec_fn((nat, nat)) -> nat)
    ensures
        msum(a.push(t), f) == fadd(msum(a, f), f(t)),
{
    assert(a.push(t).map_values(f).drop_last() =~= a.map_values(f));
}

/// Summing over a list with a term inserted adds its contribution.
pub proof fn lemma_msum_insert(a: Seq<(nat, nat)>, pos: int, t: (nat, nat), f: spec_fn((nat, nat)) -> nat)
    requires
        0 <= pos <= a.len(),
    ensures
        msum(a.insert(pos, t), f) == fadd(msum(a, f), f(t) % modulus()),
{
    let lo = a.subrange(0, pos);
    let hi = a.subrange(pos, a.len() as int);
    assert(a =~= lo + hi);
    assert(a.insert(pos, t) =~= lo + (seq![t] + hi));
    lemma_msum_concat(lo, seq![t] + hi, f);
    lemma_msum_concat(seq![t], hi, f);
    lemma_msum_concat(lo, hi, f);
    assert(seq![t].map_values(f) =~= seq![f(t)]);
    lemma_fsum_single(f(t));
    lemma_fsum_canonical(lo.map_values(f));
    lemma_fsum_canonical(hi.map_values(f));
    let x = msum(lo, f);
    let y = msum(hi, f);
    let z = f(t) % modulus();
    lemma_fadd_laws(x, z, y);
    lemma_fadd_laws(z, y, 0);
    lemma_fadd_laws(x, y, z);
}

/// Every field sum over terms is canonical.
pub proof fn lemma_msum_canonical(a: Seq<(nat, nat)>, f: spec_fn((nat, nat)) -> nat)
    ensures
        msum(a, f) < modulus(),
{
    lemma_fsum_canonical(a.map_values(f));
}

/// The contributions to a coefficient and to a value are canonical.
pub proof fn lemma_parts_canonical(t: (nat, nat), p: nat, x: nat)
    ensures
        coeff_part(p)(t) < modulus(),
        eval_part(x)(t) < modulus(),
{
    lemma_field_ops_canonical(t.1, fpow(x, t.0));
    vstd::arithmetic::div_mod::lemma_mod_bound(t.1 as int, modulus() as int);
}

/// Appending a term to both of two lists with the same sum keeps them so.
pub proof fn lemma_same_sum_push(a: Seq<(nat, nat)>, b: Seq<(nat, nat)>, t: (nat, nat))
    requires
        same_sum(a, b),
    ensures
        same_sum(a.push(t), b.push(t)),
{
    assert forall|p: nat| #[trigger] coeff_sum(a.push(t), p) == coeff_sum(b.push(t), p) by {
        assert(coeff_sum(a, p) == coeff_sum(b, p));
        lemma_msum_push(a, t, coeff_part(p));
        lemma_msum_push(b, t, coeff_part(p));
    }
    assert forall|x: nat| #[trigger] raw_eval(a.push(t), x) == raw_eval(b.push(t), x) by {
        assert(raw_eval(a, x) == raw_eval(b, x));
        lemma_msum_push(a, t, eval_part(x));
        lemma_msum_push(b, t, eval_part(x));
    }
}

/// Sorts the terms by power, keeping the order of equal powers.
fn sort_terms(terms: Vec<(usize, FieldElement)>) -> (r: Vec<(usize, FieldElement)>)
    ensures
        powers_nondecreasing(term_vals(r@)),
        same_sum(term_vals(r@), term_vals(terms@)),
{
    let mut sorted: Vec<(usize, FieldElement)> = Vec::new();
    let ghost tv = term_vals(terms@);
    for i in 0..terms.len()
        invariant
            tv == term_vals(terms@),
            powers_nondecreasing(term_vals(sorted@)),
            same_sum(term_vals(sorted@), tv.subrange(0, i as int)),
    {
        let t = terms[i];
        let mut pos = sorted.len();
        while pos > 0 && sorted[pos - 1].0 > t.0
            invariant
                pos <= sorted.len(),
                forall|k: int| pos <= k < sorted.len() ==> (#[trigger] sorted[k]).0 > t.0,
            decreases pos,
        {
            pos = pos - 1;
        }
        let ghost old_sv = term_vals(sorted@);
        let ghost tt = (t.0 as nat, t.1.val());
        sorted.insert(pos, t);
        proof {
            let sv = term_vals(sorted@);
            assert(sv =~= old_sv.insert(pos as int, tt));
            let pre = tv.subrange(0, i as int);
            assert(tv.subrange(0, i + 1) =~= pre.push(tt));
            assert forall|p: nat| #[trigger] coeff_sum(sv, p) == coeff_sum(pre.push(tt), p) by {
                assert(coeff_sum(old_sv, p) == coeff_sum(pre, p));
                lemma_msum_insert(old_sv, pos as int, tt, coeff_part(p));
                lemma_msum_push(pre, tt, coeff_part(p));
                lemma_parts_canonical(tt, p, 0);
                vstd::arithmetic::div_mod::lemma_small_mod(coeff_part(p)(tt), modulus());
            }
            assert forall|x: nat| #[trigger] raw_eval(sv, x) == raw_eval(pre.push(tt), x) by {
                assert(raw_eval(old_sv, x) == raw_eval(pre, x));
                lemma_msum_insert(old_sv, pos as int, tt, eval_part(x));
                lemma_msum_push(pre, tt, eval_part(x));
                lemma_parts_canonical(tt, 0, x);
                vstd::arithmetic::div_mod::lemma_small_mod(eval_part(x)(tt), modulus());
            }
            assert forall|a: int, b: int| 0 <= a <= b < sv.len() implies sv[a].0 <= sv[b].0 by {
                if a < pos && b > pos {
                    assert(old_sv[a].0 <= old_sv[pos - 1].0);
                }
                if a == pos && b > pos {
                    assert(sv[b] == old_sv[b - 1]);
                }
                if a < pos && b == pos && pos > 0 {
                    assert(old_sv[a].0 <= old_sv[pos - 1].0);
                }
            }
        }
    }
    assert(tv.subrange(0, terms.len() as int) =~= tv);
    sorted
}

/// A univariate polynomial as a list of `(power, coefficient)` terms.
#[derive(Clone, Debug)]
pub struct SparseUnivariatePolynomial {
    pub terms: Vec<(usize, FieldElement)>,
}

/// Adding a zero term changes no coefficient and no value.
proof fn lemma_push_zero(a: Seq<(nat, nat)>, t: (nat, nat))
    requires
        t.1 == 0,
    ensures
        same_sum(a.push(t), a),
{
    assert forall|p: nat| #[trigger] coeff_sum(a.push(t), p) == coeff_sum(a, p) by {
        lemma_msum_push(a, t, coeff_part(p));
        lemma_msum_canonical(a, coeff_part(p));
        lemma_fadd_laws(coeff_sum(a, p), 0, 0);
    }
    assert forall|x: nat| #[trigger] raw_eval(a.push(t), x) == raw_eval(a, x) by {
        lemma_msum_push(a, t, eval_part(x));
        lemma_msum_canonical(a, eval_part(x));
        lemma_fmul_laws(fpow(x, t.0), 0, 0);
        lemma_fadd_laws(raw_eval(a, x), 0, 0);
    }
}

/// Adding a term of power `q` leaves the coefficients of other powers alone and
/// adds to the coefficient of `q`.
pub proof fn lemma_coeff_push(a: Seq<(nat, nat)>, t: (nat, nat), p: nat)
    requires
        t.1 < modulus(),
    ensures
        coeff_sum(a.push(t), p) == if t.0 == p {
            fadd(coeff_sum(a, p), t.1)
        } else {
            coeff_sum(a, p)
        },
{
    lemma_msum_push(a, t, coeff_part(p));
    lemma_msum_canonical(a, coeff_part(p));
    lemma_fadd_laws(coeff_sum(a, p), 0, 0);
    vstd::arithmetic::div_mod::lemma_small_mod(t.1, modulus());
}

/// The normal form sums the coefficients of each power and keeps the nonzero ones.
fn normalize(terms: Vec<(usize, FieldElement)>) -> (r: Vec<(usize, FieldElement)>)
    ensures
        is_normal_form(term_vals(r@), term_vals(terms@)),
        same_sum(term_vals(r@), term_vals(terms@)),
{
    let sorted = sort_terms(terms);
    let ghost sv = term_vals(sorted@);
    let n = sorted.len();
    let mut combined: Vec<(usize, FieldElement)> = Vec::new();
    let mut i: usize = 0;
    while i < n
        invariant
            i <= n,
            n == sorted.len(),
            sv == term_vals(sorted@),
            powers_nondecreasing(sv),
            powers_increasing(term_vals(combined@)),
            forall|k: int|
                0 <= k < combined.len() ==> #[trigger] term_vals(combined@)[k].1 == coeff_sum(
                    sv.subrange(0, i as int),
                    term_vals(combined@)[k].0,
                ),
            forall|p: nat|
                #[trigger] coeff_sum(sv.subrange(0, i as int), p) != 0 ==> has_power(
                    term_vals(combined@),
                    p,
                ),
            i < n && combined.len() > 0 ==> combined@.last().0 <= sorted[i as int].0,
            same_sum(term_vals(combined@), sv.subrange(0, i as int)),
        decreases n - i,
    {
        let (power, coeff) = sorted[i];
        let ghost cv = term_vals(combined@);
        let ghost pre = sv.subrange(0, i as int);
        let ghost tt = (power as nat, coeff.val());
        assert(sv.subrange(0, i + 1) =~= pre.push(tt));
        assert(forall|p: nat| #[trigger] coeff_sum(pre, p) != 0 ==> has_power(cv, p));
        proof {
            lemma_field_ops_canonical(coeff.val(), 0);
            vstd::arithmetic::div_mod::lemma_mod_bound(
                crate::field::le_value(coeff.bytes@) as int,
                modulus() as int,
            );
        }
        if ark_is_zero(coeff) {
            proof {
                lemma_push_zero(pre, tt);
                assert forall|p: nat| #[trigger] coeff_sum(pre.push(tt), p) == coeff_sum(pre, p) by {
                    lemma_coeff_push(pre, tt, p);
                    lemma_msum_canonical(pre, coeff_part(p));
                    lemma_fadd_laws(coeff_sum(pre, p), 0, 0);
                }
                assert(same_sum(cv, pre.push(tt))) by {
                    assert forall|p: nat| #[trigger] coeff_sum(cv, p) == coeff_sum(pre.push(tt), p) by {
                        assert(coeff_sum(cv, p) == coeff_sum(pre, p));
                    }
                    assert forall|x: nat| #[trigger] raw_eval(cv, x) == raw_eval(pre.push(tt), x) by {
                        assert(raw_eval(cv, x) == raw_eval(pre, x));
                        assert(raw_eval(pre.push(tt), x) == raw_eval(pre, x));
                    }
                }
                assert forall|p: nat| #[trigger] coeff_sum(pre.push(tt), p) != 0 implies has_power(
                    cv,
                    p,
                ) by {
                    assert(coeff_sum(pre, p) != 0);
                }
                assert forall|k: int| 0 <= k < combined.len() implies #[trigger] cv[k].1
                    == coeff_sum(pre.push(tt), cv[k].0) by {
                    assert(cv[k].1 == coeff_sum(pre, cv[k].0));
                }
            }
        } else if combined.len() > 0 && combined[combined.len() - 1].0 == power {
            let last = combined.len() - 1;
            let (lp, lc) = combined[last];
            let merged = ark_add(lc, coeff);
            combined.set(last, (lp, merged));
            proof {
                let cv2 = term_vals(combined@);
                let base = cv.drop_last();
                assert(cv =~= base.push((lp as nat, lc.val())));
                assert(cv2 =~= base.push((lp as nat, merged.val())));
                assert forall|p: nat| #[trigger] coeff_sum(cv2, p) == coeff_sum(pre.push(tt), p) by {
                    lemma_coeff_push(pre, tt, p);
                    lemma_coeff_push(base, (lp as nat, lc.val()), p);
                    lemma_coeff_push(base, (lp as nat, merged.val()), p);
                    lemma_msum_canonical(base, coeff_part(p));
                    assert(coeff_sum(cv, p) == coeff_sum(pre, p));
                    lemma_fadd_laws(coeff_sum(base, p), lc.val(), coeff.val());
                }
                assert forall|x: nat| #[trigger] raw_eval(cv2, x) == raw_eval(pre.push(tt), x) by {
                    lemma_msum_push(pre, tt, eval_part(x));
                    lemma_msum_push(base, (lp as nat, lc.val()), eval_part(x));
                    lemma_msum_push(base, (lp as nat, merged.val()), eval_part(x));
                    assert(raw_eval(cv, x) == raw_eval(pre, x));
                    lemma_fmul_distributes(fpow(x, power as nat), lc.val(), coeff.val());
                    lemma_fmul_laws(fpow(x, power as nat), lc.val(), 0);
                    lemma_fmul_laws(fpow(x, power as nat), coeff.val(), 0);
                    lemma_fmul_laws(fpow(x, power as nat), merged.val(), 0);
                    lemma_fadd_laws(
                        raw_eval(base, x),
                        fmul(lc.val(), fpow(x, power as nat)),
                        fmul(coeff.val(), fpow(x, power as nat)),
                    );
                }
                assert forall|k: int| 0 <= k < combined.len() implies #[trigger] cv2[k].1
                    == coeff_sum(pre.push(tt), cv2[k].0) by {
                    if k < last {
                        assert(cv2[k] == cv[k]);
                        assert(cv[k].0 < cv[last as int].0);
                        assert(cv[k].1 == coeff_sum(pre, cv[k].0));
                        lemma_coeff_push(pre, tt, cv[k].0);
                    } else {
                        assert(k == last);
                        assert(cv[last as int].0 == power as nat);
                        assert(cv[last as int].1 == coeff_sum(pre, cv[last as int].0));
                        assert(cv2[k] == (lp as nat, merged.val()));
                        lemma_coeff_push(pre, tt, power as nat);
                    }
                }
                assert forall|p: nat| #[trigger] coeff_sum(pre.push(tt), p) != 0 implies has_power(
                    cv2,
                    p,
                ) by {
                    lemma_coeff_push(pre, tt, p);
                    lemma_has_power_push(base, (lp as nat, lc.val()), p);
                    lemma_has_power_push(base, (lp as nat, merged.val()), p);
                    if p != power {
                        assert(coeff_sum(pre, p) != 0);
                    }
                }
                assert forall|a: int, b: int| 0 <= a < b < cv2.len() implies cv2[a].0 < cv2[b].0 by {
                    assert(cv[a].0 < cv[b].0);
                }
            }
        } else {
            proof {
                if cv.len() > 0 {
                    assert(cv[cv.len() - 1].0 == combined@.last().0);
                    assert(cv[cv.len() - 1].0 < power);
                }
                assert(forall|k: int| 0 <= k < cv.len() ==> cv[k].0 < power) by {
                    if cv.len() > 0 {
                        assert forall|k: int| 0 <= k < cv.len() implies cv[k].0 < power by {
                            if k < cv.len() - 1 {
                                assert(cv[k].0 < cv[cv.len() - 1].0);
                            }
                        }
                    }
                }
                assert(coeff_sum(pre, power as nat) == 0) by {
                    if coeff_sum(pre, power as nat) != 0 {
                        assert(has_power(cv, power as nat));
                        let k = choose|k: int| 0 <= k < cv.len() && cv[k].0 == power as nat;
                        assert(cv[k].0 < power);
                    }
                }
            }
            combined.push((power, coeff));
            proof {
                let cv2 = term_vals(combined@);
                assert(cv2 =~= cv.push(tt));
                lemma_same_sum_push(cv, pre, tt);
                assert forall|k: int| 0 <= k < combined.len() implies #[trigger] cv2[k].1
                    == coeff_sum(pre.push(tt), cv2[k].0) by {
                    lemma_coeff_push(pre, tt, cv2[k].0);
                    if k == cv.len() {
                        lemma_fadd_laws(coeff.val(), 0, 0);
                    }
                }
                assert forall|p: nat| #[trigger] coeff_sum(pre.push(tt), p) != 0 implies has_power(
                    cv2,
                    p,
                ) by {
                    lemma_coeff_push(pre, tt, p);
                    lemma_has_power_push(cv, tt, p);
                    if p != power {
                        assert(coeff_sum(pre, p) != 0);
                    }
                }
            }
        }
        proof {
            if i + 1 < n {
                assert(sv[i as int].0 <= sv[i + 1].0);
            }
        }
        i = i + 1;
    }
    assert(sv.subrange(0, n as int) =~= sv);
    let ghost cv = term_vals(combined@);
    assert forall|k: int| 0 <= k < cv.len() implies #[trigger] cv[k].1 == coeff_sum(sv, cv[k].0) by {
        assert(cv[k].1 == coeff_sum(sv.subrange(0, n as int), cv[k].0));
    }
    assert forall|p: nat| #[trigger] coeff_sum(sv, p) != 0 implies has_power(cv, p) by {
        assert(coeff_sum(sv.subrange(0, n as int), p) != 0);
    }
    assert(same_sum(cv, sv)) by {
        assert forall|p: nat| #[trigger] coeff_sum(cv, p) == coeff_sum(sv, p) by {
            assert(coeff_sum(cv, p) == coeff_sum(sv.subrange(0, n as int), p));
        }
        assert forall|x: nat| #[trigger] raw_eval(cv, x) == raw_eval(sv, x) by {
            assert(raw_eval(cv, x) == raw_eval(sv.subrange(0, n as int), x));
        }
    }
    let mut result: Vec<(usize, FieldElement)> = Vec::new();
    for j in 0..combined.len()
        invariant
            cv == term_vals(combined@),
            powers_increasing(cv),
            forall|k: int| 0 <= k < cv.len() ==> #[trigger] cv[k].1 == coeff_sum(sv, cv[k].0),
            powers_increasing(term_vals(result@)),
            result.len() > 0 && j < combined.len() ==> result@.last().0 < combined[j as int].0,
            forall|k: int|
                0 <= k < result.len() ==> #[trigger] term_vals(result@)[k].1 == coeff_sum(
                    sv,
                    term_vals(result@)[k].0,
                ) && term_vals(result@)[k].1 != 0,
            forall|k: int|
                0 <= k < j && #[trigger] cv[k].1 != 0 ==> has_power(term_vals(result@), cv[k].0),
            same_sum(term_vals(result@), cv.subrange(0, j as int)),
    {
        let (power, coeff) = combined[j];
        let ghost rv = term_vals(result@);
        let ghost pre = cv.subrange(0, j as int);
        assert(rv.len() > 0 ==> rv[rv.len() - 1].0 < cv[j as int].0);
        let ghost tt = (power as nat, coeff.val());
        assert(cv.subrange(0, j + 1) =~= pre.push(tt));
        if !ark_is_zero(coeff) {
            result.push((power, coeff));
            proof {
                let rv2 = term_vals(result@);
                assert(rv2 =~= rv.push(tt));
                assert forall|a: int, b: int| 0 <= a < b < rv2.len() implies rv2[a].0 < rv2[b].0 by {
                    if b == rv.len() && a < rv.len() - 1 {
                        assert(rv[a].0 < rv[rv.len() - 1].0);
                    }
                    if b == rv.len() {
                        assert(rv[rv.len() - 1].0 == result@[rv.len() - 1].0);
                    }
                }
                lemma_same_sum_push(rv, pre, tt);
                assert forall|k: int| 0 <= k < j + 1 && #[trigger] cv[k].1 != 0 implies has_power(
                    rv2,
                    cv[k].0,
                ) by {
                    lemma_has_power_push(rv, tt, cv[k].0);
                }
            }
        } else {
            proof {
                lemma_push_zero(pre, tt);
                assert(same_sum(rv, pre.push(tt))) by {
                    assert forall|p: nat| #[trigger] coeff_sum(rv, p) == coeff_sum(pre.push(tt), p) by {
                        assert(coeff_sum(rv, p) == coeff_sum(pre, p));
                    }
                    assert forall|x: nat| #[trigger] raw_eval(rv, x) == raw_eval(pre.push(tt), x) by {
                        assert(raw_eval(rv, x) == raw_eval(pre, x));
                    }
                }
            }
        }
        proof {
            if j + 1 < combined.len() {
                assert(cv[j as int].0 < cv[j + 1].0);
            }
        }
    }
    proof {
        let rv = term_vals(result@);
        assert(cv.subrange(0, combined.len() as int) =~= cv);
        assert forall|p: nat| #[trigger] coeff_sum(sv, p) != 0 implies has_power(rv, p) by {
            assert(has_power(cv, p));
            let k = choose|k: int| 0 <= k < cv.len() && cv[k].0 == p;
            assert(cv[k].1 == coeff_sum(sv, cv[k].0));
            assert(cv[k].1 != 0);
        }
        assert forall|p: nat| #[trigger] coeff_sum(rv, p) == coeff_sum(term_vals(terms@), p) by {
            assert(coeff_sum(rv, p) == coeff_sum(cv, p));
            assert(coeff_sum(cv, p) == coeff_sum(sv, p));
        }
        assert forall|x: nat| #[trigger] raw_eval(rv, x) == raw_eval(term_vals(terms@), x) by {
            assert(raw_eval(rv, x) == raw_eval(cv, x));
            assert(raw_eval(cv, x) == raw_eval(sv, x));
        }
        assert forall|p: nat| #[trigger] coeff_sum(term_vals(terms@), p) != 0 implies has_power(
            rv,
            p,
        ) by {
            assert(coeff_sum(sv, p) != 0);
        }
        assert forall|i: int| 0 <= i < rv.len() implies #[trigger] rv[i].1 == coeff_sum(
            term_vals(terms@),
            rv[i].0,
        ) && rv[i].1 != 0 by {
            assert(coeff_sum(sv, rv[i].0) == coeff_sum(term_vals(terms@), rv[i].0));
        }
    }
    result
}


/// `x^(m + n) = x^m * x^n` in the field.
pub proof fn lemma_fpow_add(x: nat, m: nat, n: nat)
    ensures
        fpow(x, m + n) == fmul(fpow(x, m), fpow(x, n)),
        fpow(x, m) < modulus(),
    decreases m,
{
    if m == 0 {
        lemma_fpow_canonical(x, n);
        lemma_fmul_laws(fpow(x, n), 0, 0);
    } else {
        lemma_fpow_add(x, (m - 1) as nat, n);
        assert((m - 1 + n) as nat + 1 == m + n);
        assert(fpow(x, m + n) == fmul(x, fpow(x, (m - 1 + n) as nat)));
        lemma_fmul_laws(x, fpow(x, (m - 1) as nat), fpow(x, n));
        lemma_field_ops_canonical(x, fpow(x, (m - 1) as nat));
    }
}

/// Powers are canonical.
pub proof fn lemma_fpow_canonical(x: nat, n: nat)
    ensures
        fpow(x, n) < modulus(),
{
    if n > 0 {
        lemma_field_ops_canonical(x, fpow(x, (n - 1) as nat));
    }
}

/// The terms of `b`, each multiplied by the term `t`.
pub open spec fn row_products(t: (nat, nat), b: Seq<(nat, nat)>) -> Seq<(nat, nat)> {
    b.map_values(|u: (nat, nat)| (t.0 + u.0, fmul(t.1, u.1)))
}

/// All products of a term of `a` with a term of `b`, row by row.
pub open spec fn pair_products(a: Seq<(nat, nat)>, b: Seq<(nat, nat)>) -> Seq<(nat, nat)>
    decreases a.len(),
{
    if a.len() == 0 {
        Seq::empty()
    } else {
        pair_products(a.drop_last(), b) + row_products(a.last(), b)
    }
}

/// A row of products evaluates to the term times the second polynomial.
proof fn lemma_row_eval(t: (nat, nat), b: Seq<(nat, nat)>, x: nat)
    ensures
        raw_eval(row_products(t, b), x) == fmul(fmul(t.1, fpow(x, t.0)), raw_eval(b, x)),
    decreases b.len(),
{
    let a = fmul(t.1, fpow(x, t.0));
    if b.len() == 0 {
        assert(row_products(t, b) =~= Seq::<(nat, nat)>::empty());
        lemma_fmul_laws(a, 0, 0);
    } else {
        let u = b.last();
        let b1 = b.drop_last();
        assert(row_products(t, b) =~= row_products(t, b1).push((t.0 + u.0, fmul(t.1, u.1))));
        assert(b =~= b1.push(u));
        lemma_row_eval(t, b1, x);
        lemma_msum_push(row_products(t, b1), (t.0 + u.0, fmul(t.1, u.1)), eval_part(x));
        lemma_msum_push(b1, u, eval_part(x));
        lemma_fpow_add(x, t.0, u.0);
        lemma_fpow_canonical(x, u.0);
        let (pt, pu) = (fpow(x, t.0), fpow(x, u.0));
        lemma_fmul_laws(t.1, u.1, fmul(pt, pu));
        lemma_fmul_laws(u.1, pt, pu);
        lemma_fmul_laws(pt, u.1, pu);
        lemma_fmul_laws(t.1, pt, fmul(u.1, pu));
        lemma_fmul_laws(t.1, fmul(pt, u.1), pu);
        lemma_fmul_laws(t.1, fmul(u.1, pt), pu);
        lemma_fmul_distributes(a, raw_eval(b1, x), fmul(u.1, pu));
    }
}

/// The products of two term lists evaluate to the product of their values.
pub proof fn lemma_pair_products_eval(a: Seq<(nat, nat)>, b: Seq<(nat, nat)>, x: nat)
    ensures
        raw_eval(pair_products(a, b), x) == fmul(raw_eval(a, x), raw_eval(b, x)),
    decreases a.len(),
{
    if a.len() == 0 {
        lemma_fmul_laws(raw_eval(b, x), 0, 0);
    } else {
        let a1 = a.drop_last();
        let t = a.last();
        assert(a =~= a1.push(t));
        lemma_pair_products_eval(a1, b, x);
        lemma_msum_concat(pair_products(a1, b), row_products(t, b), eval_part(x));
        lemma_row_eval(t, b, x);
        lemma_msum_push(a1, t, eval_part(x));
        lemma_fmul_distributes(raw_eval(b, x), raw_eval(a1, x), fmul(t.1, fpow(x, t.0)));
        lemma_fmul_laws(raw_eval(b, x), raw_eval(a1, x), 0);
        lemma_fmul_laws(raw_eval(b, x), fmul(t.1, fpow(x, t.0)), 0);
        lemma_fmul_laws(raw_eval(b, x), raw_eval(a, x), 0);
    }
}

/// Every power in the products is the sum of a power of `a` and one of `b`.
pub proof fn lemma_pair_products_powers(a: Seq<(nat, nat)>, b: Seq<(nat, nat)>, ma: nat, mb: nat)
    requires
        forall|i: int| 0 <= i < a.len() ==> #[trigger] a[i].0 <= ma,
        forall|i: int| 0 <= i < b.len() ==> #[trigger] b[i].0 <= mb,
    ensures
        forall|i: int| 0 <= i < pair_products(a, b).len() ==> #[trigger] pair_products(a, b)[i].0
            <= ma + mb,
    decreases a.len(),
{
    if a.len() > 0 {
        let a1 = a.drop_last();
        lemma_pair_products_powers(a1, b, ma, mb);
        let p1 = pair_products(a1, b);
        let r = row_products(a.last(), b);
        assert forall|i: int| 0 <= i < pair_products(a, b).len() implies #[trigger] pair_products(
            a,
            b,
        )[i].0 <= ma + mb by {
            if i >= p1.len() {
                assert(pair_products(a, b)[i] == r[i - p1.len()]);
                assert(b[i - p1.len()].0 <= mb);
            } else {
                assert(pair_products(a, b)[i] == p1[i]);
            }
        }
    }
}

/// A coefficient that does not vanish belongs to a power that occurs.
pub proof fn lemma_coeff_nonzero_has_power(s: Seq<(nat, nat)>, p: nat)
    requires
        coeff_sum(s, p) != 0,
    ensures
        has_power(s, p),
    decreases s.len(),
{
    if s.len() == 0 {
        assert(s.map_values(coeff_part(p)) =~= Seq::<nat>::empty());
    } else {
        let s1 = s.drop_last();
        assert(s =~= s1.push(s.last()));
        lemma_msum_push(s1, s.last(), coeff_part(p));
        lemma_has_power_push(s1, s.last(), p);
        if s.last().0 != p {
            lemma_msum_canonical(s1, coeff_part(p));
            lemma_fadd_laws(coeff_sum(s1, p), 0, 0);
            lemma_coeff_nonzero_has_power(s1, p);
        }
    }
}

/// A normal form has no power above the powers of what it sums.
pub proof fn lemma_normal_form_powers(r: Seq<(nat, nat)>, s: Seq<(nat, nat)>, m: nat)
    requires
        is_normal_form(r, s),
        forall|i: int| 0 <= i < s.len() ==> #[trigger] s[i].0 <= m,
    ensures
        forall|i: int| 0 <= i < r.len() ==> #[trigger] r[i].0 <= m,
{
    assert forall|i: int| 0 <= i < r.len() implies #[trigger] r[i].0 <= m by {
        assert(r[i].1 == coeff_sum(s, r[i].0) && r[i].1 != 0);
        lemma_coeff_nonzero_has_power(s, r[i].0);
        let k = choose|k: int| 0 <= k < s.len() && s[k].0 == r[i].0;
    }
}

/// No terms evaluate to zero.
pub proof fn lemma_raw_eval_empty(s: Seq<(nat, nat)>, x: nat)
    requires
        s.len() == 0,
    ensures
        raw_eval(s, x) == 0,
{
    assert(s.map_values(eval_part(x)) =~= Seq::<nat>::empty());
}

/// The terms of `s` scaled by `c`, keeping those that do not vanish.
pub open spec fn scaled_terms(s: Seq<(nat, nat)>, c: nat) -> Seq<(nat, nat)>
    decreases s.len(),
{
    if s.len() == 0 {
        Seq::empty()
    } else {
        let r = scaled_terms(s.drop_last(), c);
        let v = fmul(c, s.last().1);
        if v != 0 {
            r.push((s.last().0, v))
        } else {
            r
        }
    }
}


/// A normal form of one list is a normal form of any list with the same sum.
pub proof fn lemma_normal_form_transfer(r: Seq<(nat, nat)>, s1: Seq<(nat, nat)>, s2: Seq<(nat, nat)>)
    requires
        is_normal_form(r, s1),
        same_sum(s1, s2),
    ensures
        is_normal_form(r, s2),
{
    assert forall|i: int| 0 <= i < r.len() implies #[trigger] r[i].1 == coeff_sum(s2, r[i].0) && r[i].1
        != 0 by {
        assert(r[i].1 == coeff_sum(s1, r[i].0));
        assert(coeff_sum(s1, r[i].0) == coeff_sum(s2, r[i].0));
    }
    assert forall|p: nat| #[trigger] coeff_sum(s2, p) != 0 implies has_power(r, p) by {
        assert(coeff_sum(s1, p) == coeff_sum(s2, p));
    }
}

/// `same_sum` is an equivalence.
pub proof fn lemma_same_sum_trans(a: Seq<(nat, nat)>, b: Seq<(nat, nat)>, c: Seq<(nat, nat)>)
    requires
        same_sum(a, b),
        same_sum(b, c),
    ensures
        same_sum(a, c),
{
    assert forall|p: nat| #[trigger] coeff_sum(a, p) == coeff_sum(c, p) by {
        assert(coeff_sum(a, p) == coeff_sum(b, p));
        assert(coeff_sum(b, p) == coeff_sum(c, p));
    }
    assert forall|x: nat| #[trigger] raw_eval(a, x) == raw_eval(c, x) by {
        assert(raw_eval(a, x) == raw_eval(b, x));
        assert(raw_eval(b, x) == raw_eval(c, x));
    }
}

/// Scaling keeps the powers.
proof fn lemma_scaled_powers(s: Seq<(nat, nat)>, c: nat, m: nat)
    requires
        forall|i: int| 0 <= i < s.len() ==> #[trigger] s[i].0 <= m,
    ensures
        forall|i: int| 0 <= i < scaled_terms(s, c).len() ==> #[trigger] scaled_terms(s, c)[i].0 <= m,
    decreases s.len(),
{
    if s.len() > 0 {
        let s1 = s.drop_last();
        assert forall|i: int| 0 <= i < s1.len() implies #[trigger] s1[i].0 <= m by {
            assert(s1[i] == s[i]);
        }
        lemma_scaled_powers(s1, c, m);
        assert(s[s.len() - 1].0 <= m);
        let r = scaled_terms(s1, c);
        let v = fmul(c, s.last().1);
        if v != 0 {
            assert(scaled_terms(s, c) == r.push((s.last().0, v)));
            assert forall|i: int| 0 <= i < scaled_terms(s, c).len() implies #[trigger] scaled_terms(
                s,
                c,
            )[i].0 <= m by {
                if i < r.len() {
                    assert(scaled_terms(s, c)[i] == r[i]);
                }
            }
        } else {
            assert(scaled_terms(s, c) == r);
        }
    }
}

/// The line `q0 + q1 x`, where `q0 d = -xj` and `q1 d = 1` for `d = xi - xj`, is 1
/// at `xi` and 0 at `xj`.
proof fn lemma_lagrange_factor(q0: nat, q1: nat, d: nat, xi: nat, xj: nat)
    requires
        q0 < modulus(),
        q1 < modulus(),
        xi < modulus(),
        xj < modulus(),
        d == fsub(xi, xj),
        fmul(q0, d) == fneg(xj),
        fmul(q1, d) == 1,
    ensures
        fadd(q0, fmul(q1, xi)) == 1,
        fadd(q0, fmul(q1, xj)) == 0,
{
    lemma_field_ops_canonical(xi, xj);
    lemma_field_ops_canonical(0, xj);
    assert forall|x: nat| x < modulus() implies #[trigger] fmul(fadd(q0, fmul(q1, x)), d) == fsub(
        x,
        xj,
    ) by {
        lemma_fmul_distributes(d, q0, fmul(q1, x));
        lemma_fmul_laws(d, q0, 0);
        lemma_fmul_laws(d, fadd(q0, fmul(q1, x)), 0);
        lemma_fmul_laws(d, fmul(q1, x), 0);
        lemma_fmul_laws(q1, x, d);
        lemma_fmul_laws(x, d, 0);
        lemma_fmul_laws(q1, d, x);
        lemma_fmul_laws(x, 1, 0);
        lemma_fmul_laws(q1, fmul(d, x), 0);
        lemma_fmul_laws(q1, fmul(x, d), 0);
        lemma_fmul_laws(fmul(q1, d), x, 0);
        lemma_fsub_laws(x, xj);
        lemma_fadd_laws(fneg(xj), x, 0);
    }
    let ei = fadd(q0, fmul(q1, xi));
    let ej = fadd(q0, fmul(q1, xj));
    lemma_field_ops_canonical(q0, fmul(q1, xi));
    lemma_field_ops_canonical(q0, fmul(q1, xj));
    lemma_fmul_laws(ei, d, q1);
    lemma_fmul_laws(ej, d, q1);
    lemma_fmul_laws(d, q1, 0);
    lemma_fmul_laws(ei, 1, 0);
    lemma_fmul_laws(ej, 1, 0);
    lemma_fsub_laws(xj, xj);
    lemma_fmul_laws(0, q1, 0);
}

/// Two canonical values whose difference vanishes are equal.
proof fn lemma_fsub_zero(a: nat, b: nat)
    requires
        a < modulus(),
        b < modulus(),
        fsub(a, b) == 0,
    ensures
        a == b,
{
    let m = modulus() as int;
    vstd::arithmetic::div_mod::lemma_fundamental_div_mod(a - b, m);
    if a != b {
        if a > b {
            vstd::arithmetic::div_mod::lemma_small_mod((a - b) as nat, modulus());
        } else {
            vstd::arithmetic::div_mod::lemma_mod_add_multiples_vanish(a - b, m);
            vstd::arithmetic::div_mod::lemma_small_mod((a - b + m) as nat, modulus());
        }
    }
}

impl SparseUnivariatePolynomial {
    /// The polynomial that `terms` add up to, in normal form: sorted by power, equal
    /// powers combined, vanishing coefficients dropped.
    pub fn new(terms: Vec<(usize, FieldElement)>) -> (r: SparseUnivariatePolynomial)
        ensures
            is_normal_form(term_vals(r.terms@), term_vals(terms@)),
            same_sum(term_vals(r.terms@), term_vals(terms@)),
    {
        SparseUnivariatePolynomial { terms: normalize(terms) }
    }

    /// The highest power, or `None` for the zero polynomial.
    pub fn degree(&self) -> (r: Option<usize>)
        ensures
            r == if self.terms.len() == 0 {
                None
            } else {
                Some(self.terms@.last().0)
            },
    {
        if self.terms.len() == 0 {
            None
        } else {
            Some(self.terms[self.terms.len() - 1].0)
        }
    }

    /// The value at `x`: the sum of `coefficient * x^power` over the terms.
    pub fn evaluate(&self, x: FieldElement) -> (r: FieldElement)
        ensures
            r.val() == raw_eval(term_vals(self.terms@), x.val()),
    {
        let mut acc = ark_zero();
        let ghost tv = term_vals(self.terms@);
        let mut i: usize = 0;
        while i < self.terms.len()
            invariant
                i <= self.terms.len(),
                tv == term_vals(self.terms@),
                acc.val() == raw_eval(tv.subrange(0, i as int), x.val()),
            decreases self.terms.len() - i,
        {
            let (power, coeff) = self.terms[i];
            proof {
                assert(tv.subrange(0, i + 1) =~= tv.subrange(0, i as int).push(tv[i as int]));
                lemma_msum_push(tv.subrange(0, i as int), tv[i as int], eval_part(x.val()));
            }
            acc = ark_add(acc, ark_mul(coeff, ark_pow(x, power as u64)));
            i = i + 1;
        }
        assert(tv.subrange(0, self.terms.len() as int) =~= tv);
        acc
    }

    /// The terms multiplied by `scalar`, dropping those that vanish.
    pub fn scalar_mult(scalar: FieldElement, terms: &[(usize, FieldElement)]) -> (r: Vec<
        (usize, FieldElement),
    >)
        ensures
            term_vals(r@) == scaled_terms(term_vals(terms@), scalar.val()),
            forall|x: nat| #[trigger]
                raw_eval(term_vals(r@), x) == fmul(scalar.val(), raw_eval(term_vals(terms@), x)),
    {
        let mut result: Vec<(usize, FieldElement)> = Vec::new();
        let ghost tv = term_vals(terms@);
        proof {
            assert forall|x: nat| #[trigger] raw_eval(term_vals(result@), x) == fmul(
                scalar.val(),
                raw_eval(tv.subrange(0, 0), x),
            ) by {
                lemma_raw_eval_empty(term_vals(result@), x);
                lemma_raw_eval_empty(tv.subrange(0, 0), x);
                lemma_fmul_laws(scalar.val(), 0, 0);
            }
        }
        let mut i: usize = 0;
        while i < terms.len()
            invariant
                i <= terms.len(),
                tv == term_vals(terms@),
                term_vals(result@) == scaled_terms(tv.subrange(0, i as int), scalar.val()),
                forall|x: nat| #[trigger]
                    raw_eval(term_vals(result@), x) == fmul(
                        scalar.val(),
                        raw_eval(tv.subrange(0, i as int), x),
                    ),
            decreases terms.len() - i,
        {
            let (pow, coeff) = terms[i];
            let v = ark_mul(scalar, coeff);
            let ghost rv = term_vals(result@);
            let ghost pre = tv.subrange(0, i as int);
            let ghost t = tv[i as int];
            assert(tv.subrange(0, i + 1) =~= pre.push(t));
            assert(pre.push(t).drop_last() =~= pre);
            if !ark_is_zero(v) {
                result.push((pow, v));
                assert(term_vals(result@) =~= rv.push((pow as nat, v.val())));
            }
            proof {
                assert forall|x: nat| #[trigger] raw_eval(term_vals(result@), x) == fmul(
                    scalar.val(),
                    raw_eval(pre.push(t), x),
                ) by {
                    let e = fmul(coeff.val(), fpow(x, pow as nat));
                    lemma_msum_push(pre, t, eval_part(x));
                    lemma_fmul_distributes(scalar.val(), raw_eval(pre, x), e);
                    lemma_fmul_laws(scalar.val(), coeff.val(), fpow(x, pow as nat));
                    assert(raw_eval(rv, x) == fmul(scalar.val(), raw_eval(pre, x)));
                    if v.val() != 0 {
                        lemma_msum_push(rv, (pow as nat, v.val()), eval_part(x));
                    } else {
                        lemma_fmul_laws(fpow(x, pow as nat), 0, 0);
                        lemma_msum_canonical(rv, eval_part(x));
                        lemma_fadd_laws(raw_eval(rv, x), 0, 0);
                    }
                }
            }
            i = i + 1;
        }
        assert(tv.subrange(0, terms.len() as int) =~= tv);
        result
    }

    /// The sum of two polynomials, in normal form.
    pub fn add(a: &SparseUnivariatePolynomial, b: &SparseUnivariatePolynomial) -> (r:
        SparseUnivariatePolynomial)
        ensures
            is_normal_form(term_vals(r.terms@), term_vals(a.terms@) + term_vals(b.terms@)),
            forall|x: nat| #[trigger]
                raw_eval(term_vals(r.terms@), x) == fadd(
                    raw_eval(term_vals(a.terms@), x),
                    raw_eval(term_vals(b.terms@), x),
                ),
    {
        let mut combined: Vec<(usize, FieldElement)> = Vec::new();
        let mut i: usize = 0;
        while i < a.terms.len()
            invariant
                i <= a.terms.len(),
                combined@ == a.terms@.subrange(0, i as int),
            decreases a.terms.len() - i,
        {
            combined.push(a.terms[i]);
            i = i + 1;
        }
        let mut j: usize = 0;
        while j < b.terms.len()
            invariant
                j <= b.terms.len(),
                combined@ == a.terms@ + b.terms@.subrange(0, j as int),
            decreases b.terms.len() - j,
        {
            combined.push(b.terms[j]);
            j = j + 1;
        }
        assert(combined@ =~= a.terms@ + b.terms@);
        assert(term_vals(combined@) =~= term_vals(a.terms@) + term_vals(b.terms@));
        let r = Self::new(combined);
        proof {
            assert forall|x: nat| #[trigger] raw_eval(term_vals(r.terms@), x) == fadd(
                raw_eval(term_vals(a.terms@), x),
                raw_eval(term_vals(b.terms@), x),
            ) by {
                lemma_msum_concat(term_vals(a.terms@), term_vals(b.terms@), eval_part(x));
                assert(raw_eval(term_vals(r.terms@), x) == raw_eval(term_vals(combined@), x));
            }
        }
        r
    }
    /// Every product of a term of `a` with a term of `b`, in normal form.
    pub fn multiply(a: &[(usize, FieldElement)], b: &[(usize, FieldElement)]) -> (r: Vec<
        (usize, FieldElement),
    >)
        requires
            forall|i: int, j: int|
                0 <= i < a.len() && 0 <= j < b.len() ==> #[trigger] a[i].0 + #[trigger] b[j].0
                    <= usize::MAX,
        ensures
            is_normal_form(term_vals(r@), pair_products(term_vals(a@), term_vals(b@))),
            forall|x: nat| #[trigger]
                raw_eval(term_vals(r@), x) == fmul(
                    raw_eval(term_vals(a@), x),
                    raw_eval(term_vals(b@), x),
                ),
    {
        let ghost ta = term_vals(a@);
        let ghost tb = term_vals(b@);
        let mut result: Vec<(usize, FieldElement)> = Vec::new();
        let mut i: usize = 0;
        assert(same_sum(term_vals(result@), pair_products(ta.subrange(0, 0), tb))) by {
            assert(term_vals(result@) =~= pair_products(ta.subrange(0, 0), tb));
        }
        while i < a.len()
            invariant
                i <= a.len(),
                ta == term_vals(a@),
                tb == term_vals(b@),
                forall|i: int, j: int|
                    0 <= i < a.len() && 0 <= j < b.len() ==> #[trigger] a[i].0 + #[trigger] b[j].0
                        <= usize::MAX,
                same_sum(term_vals(result@), pair_products(ta.subrange(0, i as int), tb)),
            decreases a.len() - i,
        {
            let (pow_a, coeff_a) = a[i];
            let ghost rows = pair_products(ta.subrange(0, i as int), tb);
            let ghost t = ta[i as int];
            assert(rows + row_products(t, tb.subrange(0, 0)) =~= rows);
            let mut j: usize = 0;
            while j < b.len()
                invariant
                    i < a.len(),
                    j <= b.len(),
                    ta == term_vals(a@),
                    tb == term_vals(b@),
                    t == ta[i as int],
                    pow_a == a[i as int].0,
                    coeff_a == a[i as int].1,
                    forall|i: int, j: int|
                        0 <= i < a.len() && 0 <= j < b.len() ==> #[trigger] a[i].0 + #[trigger] b[j].0
                            <= usize::MAX,
                    same_sum(term_vals(result@), rows + row_products(t, tb.subrange(0, j as int))),
                decreases b.len() - j,
            {
                let (pow_b, coeff_b) = b[j];
                let new_pow = pow_a + pow_b;
                let new_coeff = ark_mul(coeff_a, coeff_b);
                let ghost before = term_vals(result@);
                let ghost target = rows + row_products(t, tb.subrange(0, j as int));
                let ghost u = (new_pow as nat, new_coeff.val());
                assert(rows + row_products(t, tb.subrange(0, j + 1)) =~= target.push(u));
                if !ark_is_zero(new_coeff) {
                    result.push((new_pow, new_coeff));
                    assert(term_vals(result@) =~= before.push(u));
                    proof {
                        lemma_same_sum_push(before, target, u);
                    }
                } else {
                    proof {
                        lemma_push_zero(target, u);
                        lemma_same_sum_trans(before, target, target.push(u));
                        assert(same_sum(target.push(u), target)) by {}
                        assert(same_sum(target, target.push(u))) by {
                            assert forall|p: nat| #[trigger] coeff_sum(target, p) == coeff_sum(
                                target.push(u),
                                p,
                            ) by {
                                assert(coeff_sum(target.push(u), p) == coeff_sum(target, p));
                            }
                            assert forall|x: nat| #[trigger] raw_eval(target, x) == raw_eval(
                                target.push(u),
                                x,
                            ) by {
                                assert(raw_eval(target.push(u), x) == raw_eval(target, x));
                            }
                        }
                        lemma_same_sum_trans(before, target, target.push(u));
                    }
                }
                j = j + 1;
            }
            assert(tb.subrange(0, b.len() as int) =~= tb);
            assert(ta.subrange(0, i + 1).drop_last() =~= ta.subrange(0, i as int));
            assert(ta.subrange(0, i + 1).last() == t);
            i = i + 1;
        }
        assert(ta.subrange(0, a.len() as int) =~= ta);
        let r = Self::new(result);
        proof {
            lemma_normal_form_transfer(term_vals(r.terms@), term_vals(result@), pair_products(ta, tb));
            assert forall|x: nat| #[trigger] raw_eval(term_vals(r.terms@), x) == fmul(
                raw_eval(ta, x),
                raw_eval(tb, x),
            ) by {
                lemma_pair_products_eval(ta, tb, x);
                assert(raw_eval(term_vals(r.terms@), x) == raw_eval(term_vals(result@), x));
                assert(raw_eval(term_vals(result@), x) == raw_eval(pair_products(ta, tb), x));
            }
        }
        r.terms
    }

    /// The polynomial of least degree through the points `(x, y)`, whose `x` are
    /// pairwise distinct, in normal form.
    pub fn lagrange_interpolation(points: &[(FieldElement, FieldElement)]) -> (r:
        SparseUnivariatePolynomial)
        requires
            forall|i: int, j: int|
                0 <= i < j < points.len() ==> #[trigger] points[i].0.val() != #[trigger] points[j].0.val(),
        ensures
            powers_increasing(term_vals(r.terms@)),
            forall|m: int|
                0 <= m < r.terms.len() ==> #[trigger] term_vals(r.terms@)[m].1 != 0
                    && term_vals(r.terms@)[m].0 < points.len(),
            forall|k: int|
                0 <= k < points.len() ==> #[trigger] raw_eval(
                    term_vals(r.terms@),
                    points[k].0.val(),
                ) == points[k].1.val(),
    {
        let n = points.len();
        let zero = ark_zero();
        let init: Vec<(usize, FieldElement)> = vec![(0usize, zero)];
        let ghost s0 = term_vals(init@);
        let mut result = Self::new(init);
        proof {
            assert forall|p: nat| #[trigger] coeff_sum(s0, p) == 0 by {
                lemma_msum_push(Seq::<(nat, nat)>::empty(), (0nat, 0nat), coeff_part(p));
                assert(s0 =~= Seq::<(nat, nat)>::empty().push((0nat, 0nat)));
                assert(Seq::<(nat, nat)>::empty().map_values(coeff_part(p)) =~= Seq::<nat>::empty());
                vstd::arithmetic::div_mod::lemma_small_mod(0, modulus());
            }
            assert forall|x: nat| #[trigger] raw_eval(s0, x) == 0 by {
                lemma_msum_push(Seq::<(nat, nat)>::empty(), (0nat, 0nat), eval_part(x));
                assert(s0 =~= Seq::<(nat, nat)>::empty().push((0nat, 0nat)));
                lemma_raw_eval_empty(Seq::<(nat, nat)>::empty(), x);
                lemma_fmul_laws(fpow(x, 0), 0, 0);
            }
            let rv = term_vals(result.terms@);
            if rv.len() > 0 {
                assert(rv[0].1 == coeff_sum(s0, rv[0].0) && rv[0].1 != 0);
                assert(coeff_sum(s0, rv[0].0) == 0);
            }
            assert(rv.len() == 0);
        }
        let mut i: usize = 0;
        while i < n
            invariant
                i <= n,
                n == points.len(),
                forall|i: int, j: int|
                    0 <= i < j < points.len() ==> #[trigger] points[i].0.val() != #[trigger] points[j].0.val(),
                powers_increasing(term_vals(result.terms@)),
                forall|m: int|
                    0 <= m < result.terms.len() ==> #[trigger] term_vals(result.terms@)[m].1 != 0
                        && term_vals(result.terms@)[m].0 < n,
                forall|k: int|
                    0 <= k < n ==> #[trigger] raw_eval(term_vals(result.terms@), points[k].0.val())
                        == if k < i {
                        points[k].1.val()
                    } else {
                        0
                    },
            decreases n - i,
        {
            let (xi, yi) = points[i];
            let one = ark_one();
            let mut basis: Vec<(usize, FieldElement)> = vec![(0usize, one)];
            proof {
                let b0 = term_vals(basis@);
                assert(b0 =~= Seq::<(nat, nat)>::empty().push((0nat, 1nat)));
                assert forall|x: nat| #[trigger] raw_eval(b0, x) == 1 by {
                    lemma_msum_push(Seq::<(nat, nat)>::empty(), (0nat, 1nat), eval_part(x));
                    lemma_raw_eval_empty(Seq::<(nat, nat)>::empty(), x);
                    lemma_fmul_laws(1, 0, 0);
                    lemma_fadd_laws(1, 0, 0);
                }
            }
            let mut j: usize = 0;
            while j < n
                invariant
                    i < n,
                    j <= n,
                    n == points.len(),
                    xi == points[i as int].0,
                    forall|i: int, j: int|
                        0 <= i < j < points.len() ==> #[trigger] points[i].0.val() != #[trigger] points[j].0.val(),
                    basis.len() > 0,
                    forall|m: int|
                        0 <= m < basis.len() ==> #[trigger] term_vals(basis@)[m].0 <= if i < j {
                            j - 1
                        } else {
                            j as int
                        },
                    raw_eval(term_vals(basis@), xi.val()) == 1,
                    forall|k: int|
                        0 <= k < j && k != i ==> #[trigger] raw_eval(
                            term_vals(basis@),
                            points[k].0.val(),
                        ) == 0,
                decreases n - j,
            {
                if i != j {
                    let (xj, _) = points[j];
                    proof {
                        if i < j {
                            assert(points[i as int].0.val() != points[j as int].0.val());
                        } else {
                            assert(points[j as int].0.val() != points[i as int].0.val());
                        }
                        lemma_field_ops_canonical(xi.val(), xj.val());
                        vstd::arithmetic::div_mod::lemma_mod_bound(
                            crate::field::le_value(xi.bytes@) as int,
                            modulus() as int,
                        );
                        vstd::arithmetic::div_mod::lemma_mod_bound(
                            crate::field::le_value(xj.bytes@) as int,
                            modulus() as int,
                        );
                        if fsub(xi.val(), xj.val()) == 0 {
                            lemma_fsub_zero(xi.val(), xj.val());
                        }
                    }
                    let denominator = ark_sub(xi, xj);
                    let q0 = ark_div(ark_neg(xj), denominator);
                    let q1 = ark_div(ark_one(), denominator);
                    let term: Vec<(usize, FieldElement)> = vec![(0usize, q0), (1usize, q1)];
                    let ghost old_basis = term_vals(basis@);
                    let ghost tt = term_vals(term@);
                    proof {
                        assert(tt =~= Seq::<(nat, nat)>::empty().push((0nat, q0.val())).push(
                            (1nat, q1.val()),
                        ));
                        vstd::arithmetic::div_mod::lemma_mod_bound(
                            crate::field::le_value(q0.bytes@) as int,
                            modulus() as int,
                        );
                        vstd::arithmetic::div_mod::lemma_mod_bound(
                            crate::field::le_value(q1.bytes@) as int,
                            modulus() as int,
                        );
                        lemma_lagrange_factor(q0.val(), q1.val(), denominator.val(), xi.val(), xj.val());
                        assert forall|x: nat| x < modulus() implies #[trigger] raw_eval(tt, x) == fadd(
                            q0.val(),
                            fmul(q1.val(), x),
                        ) by {
                            let e0 = Seq::<(nat, nat)>::empty();
                            lemma_raw_eval_empty(e0, x);
                            lemma_msum_push(e0, (0nat, q0.val()), eval_part(x));
                            lemma_msum_push(e0.push((0nat, q0.val())), (1nat, q1.val()), eval_part(x));
                            lemma_fmul_laws(q0.val(), 0, 0);
                            lemma_fadd_laws(q0.val(), 0, 0);
                            assert(fpow(x, 1) == fmul(x, 1));
                            lemma_fmul_laws(x, 0, 0);
                        }
                        assert forall|m: int, k: int|
                            0 <= m < basis.len() && 0 <= k < term.len() implies #[trigger] basis[m].0
                            + #[trigger] term[k].0 <= usize::MAX by {
                            assert(old_basis[m].0 <= n - 1);
                        }
                    }
                    basis = Self::multiply(&basis, &term);
                    proof {
                        let nb = term_vals(basis@);
                        assert forall|m: int| 0 <= m < tt.len() implies #[trigger] tt[m].0 <= 1 by {}
                        lemma_pair_products_powers(
                            old_basis,
                            tt,
                            (if i < j { j - 1 } else { j as int }) as nat,
                            1,
                        );
                        lemma_normal_form_powers(
                            nb,
                            pair_products(old_basis, tt),
                            ((if i < j { j - 1 } else { j as int }) + 1) as nat,
                        );
                        assert(raw_eval(tt, xi.val()) == 1);
                        lemma_fmul_laws(1, 1, 0);
                        assert forall|k: int| 0 <= k < j + 1 && k != i implies #[trigger] raw_eval(
                            nb,
                            points[k].0.val(),
                        ) == 0 by {
                            let xk = points[k].0.val();
                            vstd::arithmetic::div_mod::lemma_mod_bound(
                                crate::field::le_value(points[k].0.bytes@) as int,
                                modulus() as int,
                            );
                            if k < j {
                                assert(raw_eval(old_basis, xk) == 0);
                                lemma_fmul_laws(0, raw_eval(tt, xk), 0);
                            } else {
                                assert(raw_eval(tt, xj.val()) == 0);
                                lemma_fmul_laws(raw_eval(old_basis, xk), 0, 0);
                            }
                        }
                        if nb.len() == 0 {
                            assert(raw_eval(nb, xi.val()) == 0) by {
                                lemma_raw_eval_empty(nb, xi.val());
                            }
                        }
                    }
                }
                j = j + 1;
            }
            let scaled = Self::scalar_mult(yi, &basis);
            let part = Self::new(scaled);
            let ghost old_result = term_vals(result.terms@);
            let ghost bv = term_vals(basis@);
            proof {
                assert forall|m: int| 0 <= m < old_result.len() implies #[trigger] old_result[m].0
                    < n by {
                    assert(term_vals(result.terms@)[m].1 != 0);
                }
                lemma_scaled_powers(bv, yi.val(), (n - 1) as nat);
                lemma_normal_form_powers(term_vals(part.terms@), scaled_terms(bv, yi.val()), (n - 1) as nat);
            }
            result = Self::add(&result, &part);
            proof {
                let rv = term_vals(result.terms@);
                let pv = term_vals(part.terms@);
                assert forall|m: int| 0 <= m < (old_result + pv).len() implies #[trigger] (old_result
                    + pv)[m].0 <= n - 1 by {
                    if m < old_result.len() {
                        assert((old_result + pv)[m] == old_result[m]);
                        assert(old_result[m].0 < n);
                    } else {
                        assert((old_result + pv)[m] == pv[m - old_result.len()]);
                    }
                }
                lemma_normal_form_powers(rv, old_result + pv, (n - 1) as nat);
                assert forall|m: int| 0 <= m < result.terms.len() implies #[trigger] rv[m].1 != 0 && rv[m].0 < n by {
                    assert(rv[m].1 == coeff_sum(old_result + pv, rv[m].0));
                }
                assert forall|k: int| 0 <= k < n implies #[trigger] raw_eval(rv, points[k].0.val())
                    == if k < i + 1 {
                    points[k].1.val()
                } else {
                    0
                } by {
                    let xk = points[k].0.val();
                    let yk = points[k].1.val();
                    vstd::arithmetic::div_mod::lemma_mod_bound(
                        crate::field::le_value(points[k].1.bytes@) as int,
                        modulus() as int,
                    );
                    vstd::arithmetic::div_mod::lemma_mod_bound(
                        crate::field::le_value(yi.bytes@) as int,
                        modulus() as int,
                    );
                    assert(raw_eval(pv, xk) == raw_eval(scaled_terms(bv, yi.val()), xk));
                    assert(raw_eval(term_vals(scaled@), xk) == fmul(yi.val(), raw_eval(bv, xk)));
                    if k == i {
                        lemma_fmul_laws(yi.val(), 1, 0);
                        lemma_fadd_laws(yi.val(), 0, 0);
                    } else {
                        assert(raw_eval(bv, xk) == 0);
                        lemma_fmul_laws(yi.val(), 0, 0);
                        if k < i {
                            lemma_fadd_laws(yk, 0, 0);
                        } else {
                            lemma_fadd_laws(0, 0, 0);
                        }
                    }
                }
            }
            i = i + 1;
        }
        result
    }
}

} // verus!
