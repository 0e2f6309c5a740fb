//! The sum-check rounds used by GKR, over a sum of products of multilinear
//! polynomials. Each round polynomial is the polynomial through the points `(i, s_i)`,
//! `i` from 0 to the degree, where `s_i` is the sum over the boolean hypercube of the
//! current polynomial with its first variable fixed to `i`.
use crate::fiat_shamir_transcript::{challenge_of, sampled_of, FiatShamirTranscript};
use crate::field::{
    ark_add, ark_eq, ark_one, ark_to_bytes_be, ark_zero, be_bytes, fadd, fmul, vals, FieldElement,
};
use crate::multi_poly::{lemma_log2_floor_pow2, log2_floor, partial_eval_table, MultiPoly};
use crate::product_poly::{all_in_vars, all_partially_evaluable, ProductPolynomial};
use crate::sum_all_polys::{
    hypercube_sum, product_tables, uniform_in, PolynomialArithmetic, PolynomialMetadata,
    SumPolynomial,
};
use crate::univariate_polynomial::{powers_increasing, raw_eval, term_vals, SparseUnivariatePolynomial};
use crate::sumcheck_rounds::{
    factors_at_most, lemma_sumcheck_rounds_complete, lemma_uniform_tables, points,
};
use crate::univariate_dense::pairwise_invertible;
use crate::field::modulus;
use vstd::prelude::*;

verus! {

/// The number of bytes of a `usize`.
pub open spec fn usize_bytes() -> nat {
    (usize::BITS / 8) as nat
}

/// Terms as bytes: for each, its power as a big-endian `usize`, then its
/// coefficient as 32 big-endian bytes.
pub open spec fn encode_terms(ts: Seq<(nat, nat)>) -> Seq<u8>
    decreases ts.len(),
{
    if ts.len() == 0 {
        Seq::empty()
    } else {
        encode_terms(ts.drop_last()) + be_bytes(ts.last().0, usize_bytes()) + be_bytes(
            ts.last().1,
            32,
        )
    }
}

/// The terms of each polynomial by their values.
pub open spec fn poly_terms(ps: Seq<SparseUnivariatePolynomial>) -> Seq<Seq<(nat, nat)>> {
    ps.map_values(|p: SparseUnivariatePolynomial| term_vals(p.terms@))
}

/// The transcript after the round polynomials are absorbed one by one from `state`,
/// a challenge drawn after each.
pub open spec fn chain_state(state: Seq<u8>, polys: Seq<Seq<(nat, nat)>>) -> Seq<u8>
    decreases polys.len(),
{
    if polys.len() == 0 {
        state
    } else {
        challenge_of(chain_state(state, polys.drop_last()) + encode_terms(polys.last()))
    }
}

/// The challenges drawn while the round polynomials are absorbed from `state`.
pub open spec fn chain_challenges(state: Seq<u8>, polys: Seq<Seq<(nat, nat)>>) -> Seq<nat>
    decreases polys.len(),
{
    if polys.len() == 0 {
        Seq::empty()
    } else {
        chain_challenges(state, polys.drop_last()).push(
            sampled_of(chain_state(state, polys.drop_last()) + encode_terms(polys.last())),
        )
    }
}

/// The verifier's pass over the round polynomials from transcript `state` and claim
/// `claimed`: whether every round so far added up, the challenges drawn, the running
/// claim and the transcript. A round whose values at 0 and 1 do not add up to the
/// running claim stops the pass.
pub open spec fn verifier_pass(state: Seq<u8>, claimed: nat, polys: Seq<Seq<(nat, nat)>>) -> (
    bool,
    Seq<nat>,
    nat,
    Seq<u8>,
)
    decreases polys.len(),
{
    if polys.len() == 0 {
        (true, Seq::empty(), claimed, state)
    } else {
        let prev = verifier_pass(state, claimed, polys.drop_last());
        let g = polys.last();
        if !prev.0 {
            prev
        } else if fadd(raw_eval(g, 0), raw_eval(g, 1)) != prev.2 {
            (false, prev.1, prev.2, prev.3)
        } else {
            let s = prev.3 + encode_terms(g);
            let c = sampled_of(s);
            (true, prev.1.push(c), raw_eval(g, c), challenge_of(s))
        }
    }
}

/// Each factor's table with its first variable fixed to `x`.
pub open spec fn fix_first_var(ts: Seq<Seq<Seq<nat>>>, x: nat) -> Seq<Seq<Seq<nat>>> {
    ts.map_values(|p: Seq<Seq<nat>>| p.map_values(|t: Seq<nat>| partial_eval_table(t, 0, x)))
}

/// The tables once their first variables are fixed to `rs`, one after another.
pub open spec fn fix_vars(ts: Seq<Seq<Seq<nat>>>, rs: Seq<nat>) -> Seq<Seq<Seq<nat>>>
    decreases rs.len(),
{
    if rs.len() == 0 {
        ts
    } else {
        fix_first_var(fix_vars(ts, rs.drop_last()), rs.last())
    }
}

/// The round polynomial's value at `x`: the sum over the boolean hypercube of the
/// polynomial with its first variable fixed to `x`.
pub open spec fn round_sum(ts: Seq<Seq<Seq<nat>>>, x: nat) -> nat {
    hypercube_sum(fix_first_var(ts, x))
}

/// `g` is the polynomial of degree at most `d` through the points `(i, round_sum(ts, i))`
/// for `i <= d`, in normal form: powers increasing, none above `d`, no vanishing
/// coefficient.
pub open spec fn interpolates_round(g: Seq<(nat, nat)>, ts: Seq<Seq<Seq<nat>>>, d: nat) -> bool {
    &&& powers_increasing(g)
    &&& forall|m: int| 0 <= m < g.len() ==> #[trigger] g[m].1 != 0 && g[m].0 <= d
    &&& forall|i: nat| i <= d ==> #[trigger] raw_eval(g, i) == round_sum(ts, i)
}

/// Every factor of `ps` can have its first variable fixed.
proof fn lemma_ready_to_fix(ps: Seq<ProductPolynomial>, n: nat)
    requires
        n >= 1,
        uniform_in(ps, n),
    ensures
        forall|k: int|
            0 <= k < ps.len() ==> all_partially_evaluable(#[trigger] ps[k].polynomials@, 0),
{
    lemma_log2_floor_pow2(n);
    vstd::arithmetic::power2::lemma_pow2_unfold(n);
    vstd::arithmetic::power2::lemma_pow2_pos((n - 1) as nat);
    assert forall|k: int| 0 <= k < ps.len() implies all_partially_evaluable(
        #[trigger] ps[k].polynomials@,
        0,
    ) by {
        assert(all_in_vars(ps[k].polynomials@, n));
        assert forall|j: int| 0 <= j < ps[k].polynomials@.len() implies (
        #[trigger] ps[k].polynomials@[j]).evaluated_values.len() >= 2 && 0 < log2_floor(
            ps[k].polynomials@[j].evaluated_values.len() as nat,
        ) by {
            assert(ps[k].polynomials@[j].wf());
        }
    }
}

/// Fixing the first variable of every factor leaves one variable fewer and fixes it
/// in every table.
proof fn lemma_fixed_tables(ps: Seq<ProductPolynomial>, fixed: Seq<ProductPolynomial>, n: nat, v: nat)
    requires
        n >= 1,
        uniform_in(ps, n),
        fixed.len() == ps.len(),
        forall|k: int|
            0 <= k < fixed.len() ==> (#[trigger] fixed[k]).polynomials.len()
                == ps[k].polynomials.len(),
        forall|k: int, j: int|
            0 <= k < fixed.len() && 0 <= j < fixed[k].polynomials.len() ==> {
                &&& (#[trigger] fixed[k].polynomials[j]).wf()
                &&& fixed[k].polynomials[j].num_vars == log2_floor(
                    ps[k].polynomials[j].evaluated_values.len() as nat,
                ) - 1
                &&& fixed[k].polynomials[j].table() == partial_eval_table(
                    ps[k].polynomials[j].table(),
                    0,
                    v,
                )
            },
    ensures
        uniform_in(fixed, (n - 1) as nat),
        product_tables(fixed) == fix_first_var(product_tables(ps), v),
{
    lemma_log2_floor_pow2(n);
    assert forall|k: int| 0 <= k < fixed.len() implies all_in_vars(
        #[trigger] fixed[k].polynomials@,
        (n - 1) as nat,
    ) by {
        assert(all_in_vars(ps[k].polynomials@, n));
        assert forall|j: int| 0 <= j < fixed[k].polynomials@.len() implies (
        #[trigger] fixed[k].polynomials@[j]).wf() && fixed[k].polynomials@[j].num_vars == n
            - 1 by {
            assert(fixed[k].polynomials[j] == fixed[k].polynomials@[j]);
            assert(ps[k].polynomials@[j].wf());
        }
    }
    let a = product_tables(fixed);
    let b = fix_first_var(product_tables(ps), v);
    assert forall|k: int| 0 <= k < a.len() implies a[k] =~= b[k] by {
        assert forall|j: int| 0 <= j < a[k].len() implies a[k][j] == b[k][j] by {
            assert(fixed[k].polynomials[j] == fixed[k].polynomials@[j]);
            assert(ps[k].polynomials[j] == ps[k].polynomials@[j]);
        }
    }
    assert(a =~= b);
}

/// A pass that accepts draws exactly the challenges of the transcript chain and
/// leaves the transcript where the chain does.
pub proof fn lemma_accepting_pass_follows_chain(
    state: Seq<u8>,
    claimed: nat,
    polys: Seq<Seq<(nat, nat)>>,
)
    ensures
        verifier_pass(state, claimed, polys).0 ==> verifier_pass(state, claimed, polys).1
            == chain_challenges(state, polys) && verifier_pass(state, claimed, polys).3
            == chain_state(state, polys),
    decreases polys.len(),
{
    if polys.len() > 0 {
        lemma_accepting_pass_follows_chain(state, claimed, polys.drop_last());
    }
}

/// What an accepting pass has checked, round by round: one challenge per round, the
/// first round's values at 0 and 1 add up to the claimed sum, each later round's
/// values at 0 and 1 add up to the previous round polynomial at its challenge, and
/// the claim left is the last round polynomial at the last challenge.
pub proof fn lemma_valid_pass_rounds_add_up(state: Seq<u8>, claimed: nat, polys: Seq<Seq<(nat, nat)>>)
    ensures
        verifier_pass(state, claimed, polys).0 ==> {
            let ch = verifier_pass(state, claimed, polys).1;
            &&& ch.len() == polys.len()
            &&& (polys.len() >= 1 ==> fadd(raw_eval(polys[0], 0), raw_eval(polys[0], 1)) == claimed)
            &&& forall|i: int|
                1 <= i < polys.len() ==> fadd(raw_eval(#[trigger] polys[i], 0), raw_eval(polys[i], 1))
                    == raw_eval(polys[i - 1], ch[i - 1])
            &&& verifier_pass(state, claimed, polys).2 == if polys.len() == 0 {
                claimed
            } else {
                raw_eval(polys.last(), ch.last())
            }
        },
    decreases polys.len(),
{
    if polys.len() > 0 {
        let front = polys.drop_last();
        lemma_valid_pass_rounds_add_up(state, claimed, front);
        let prev = verifier_pass(state, claimed, front);
        let res = verifier_pass(state, claimed, polys);
        if res.0 {
            let ch = res.1;
            assert(prev.0);
            assert(ch == prev.1.push(ch.last()));
            assert forall|i: int|
                1 <= i < polys.len() implies fadd(raw_eval(#[trigger] polys[i], 0), raw_eval(polys[i], 1))
                    == raw_eval(polys[i - 1], ch[i - 1]) by {
                if i < polys.len() - 1 {
                    assert(polys[i] == front[i]);
                    assert(polys[i - 1] == front[i - 1]);
                    assert(ch[i - 1] == prev.1[i - 1]);
                } else {
                    assert(polys[i - 1] == front.last());
                    assert(ch[i - 1] == prev.1.last());
                }
            }
            if polys.len() == 1 {
                assert(polys[0] == polys.last());
            } else {
                assert(polys[0] == front[0]);
            }
        }
    }
}

/// The `n` big-endian bytes of `x` (of `x` modulo `256^n`).
fn be_bytes_of(x: usize, n: usize) -> (r: Vec<u8>)
    ensures
        r@ == be_bytes(x as nat, n as nat),
    decreases n,
{
    if n == 0 {
        Vec::new()
    } else {
        let mut v = be_bytes_of(x / 256, n - 1);
        v.push((x % 256) as u8);
        v
    }
}

/// The bytes of a univariate polynomial: for each term, its power as a big-endian
/// `usize`, then its coefficient as 32 big-endian bytes.
pub fn univariate_to_bytes(univariate_poly: &SparseUnivariatePolynomial) -> (r: Vec<u8>)
    ensures
        r@ == encode_terms(term_vals(univariate_poly.terms@)),
{
    let ghost tv = term_vals(univariate_poly.terms@);
    let width = (usize::BITS / 8) as usize;
    let mut bytes: Vec<u8> = Vec::new();
    let mut i: usize = 0;
    while i < univariate_poly.terms.len()
        invariant
            i <= univariate_poly.terms.len(),
            tv == term_vals(univariate_poly.terms@),
            width == usize_bytes(),
            bytes@ == encode_terms(tv.subrange(0, i as int)),
        decreases univariate_poly.terms.len() - i,
    {
        let (power, coeff) = univariate_poly.terms[i];
        let mut p = be_bytes_of(power, width);
        let mut c = ark_to_bytes_be(coeff);
        proof {
            let next = tv.subrange(0, i + 1);
            assert(next.drop_last() =~= tv.subrange(0, i as int));
            assert(next.last() == (power as nat, coeff.val()));
        }
        bytes.append(&mut p);
        bytes.append(&mut c);
        i = i + 1;
    }
    assert(tv.subrange(0, tv.len() as int) =~= tv);
    bytes
}

/// A field element as its 32 big-endian bytes.
pub fn field_element_to_bytes(field_element: FieldElement) -> (r: Vec<u8>)
    ensures
        r@ == be_bytes(field_element.val(), 32),
{
    ark_to_bytes_be(field_element)
}

/// What the prover sends: the claimed sum, the round polynomials and the
/// challenges it drew.
#[derive(Clone, Debug)]
pub struct SumcheckProver {
    pub claimed_sum: FieldElement,
    pub round_univariate_polynomials: Vec<SparseUnivariatePolynomial>,
    pub random_challenges: Vec<FieldElement>,
}

/// What the verifier concludes: whether every round added up, the challenges it
/// drew and the last running claim.
#[derive(Clone, Debug)]
pub struct SumcheckVerifier {
    pub is_proof_valid: bool,
    pub random_challenges: Vec<FieldElement>,
    pub last_claimed_sum: FieldElement,
}

/// The round polynomial of `current_polynomial`: the polynomial through the points
/// `(i, s_i)` for `i` from 0 to the number of factors of the first product, where
/// `s_i` is the sum over the boolean hypercube of the polynomial with its first
/// variable fixed to `i`.
fn generate_round_univariate(current_polynomial: &SumPolynomial) -> (r: SparseUnivariatePolynomial)
    requires
        current_polynomial.metadata_ready(),
        current_polynomial.products()[0].polynomials[0].num_vars >= 1,
        uniform_in(
            current_polynomial.products(),
            current_polynomial.products()[0].polynomials[0].num_vars as nat,
        ),
        current_polynomial.products()[0].polynomials.len() < usize::MAX,
    ensures
        interpolates_round(
            term_vals(r.terms@),
            product_tables(current_polynomial.products()),
            current_polynomial.products()[0].polynomials.len() as nat,
        ),
{
    let ghost ps = current_polynomial.products();
    let ghost ts = product_tables(ps);
    let ghost n = ps[0].polynomials[0].num_vars as nat;
    let degree = current_polynomial.degree();
    let num_evaluations = degree + 1;
    let mut evaluations: Vec<(FieldElement, FieldElement)> = Vec::new();
    let mut i: usize = 0;
    while i < num_evaluations
        invariant
            i <= num_evaluations,
            num_evaluations == degree + 1,
            ps == current_polynomial.products(),
            ts == product_tables(ps),
            n == ps[0].polynomials[0].num_vars,
            n >= 1,
            uniform_in(ps, n),
            current_polynomial.metadata_ready(),
            evaluations.len() == i,
            forall|m: int|
                0 <= m < i ==> (#[trigger] evaluations[m]).0.val() == m && evaluations[m].1.val()
                    == round_sum(ts, m as nat),
        decreases num_evaluations - i,
    {
        let value = FieldElement::from_u64(i as u64);
        proof {
            lemma_ready_to_fix(ps, n);
        }
        let fixed = current_polynomial.partial_evaluate(0, value);
        proof {
            lemma_fixed_tables(ps, fixed.products(), n, value.val());
            assert(all_in_vars(fixed.products()[0].polynomials@, (n - 1) as nat));
            assert(fixed.products()[0].polynomials@[0].num_vars == n - 1);
        }
        let e = fixed.boolean_sum();
        evaluations.push((value, e));
        i = i + 1;
    }
    let r = SparseUnivariatePolynomial::lagrange_interpolation(evaluations.as_slice());
    proof {
        assert forall|i: nat| i <= degree implies #[trigger] raw_eval(term_vals(r.terms@), i)
            == round_sum(ts, i) by {
            assert(evaluations[i as int].0.val() == i);
        }
    }
    r
}

/// Runs the prover on `sum_polynomial` for `claimed_sum`, absorbing into
/// `transcript`: the claimed sum, then per variable the round polynomial, after
/// which a challenge is drawn and the first variable is fixed to it.
pub fn prove(
    sum_polynomial: SumPolynomial,
    claimed_sum: FieldElement,
    transcript: &mut FiatShamirTranscript,
) -> (r: SumcheckProver)
    requires
        sum_polynomial.metadata_ready(),
        uniform_in(
            sum_polynomial.products(),
            sum_polynomial.products()[0].polynomials[0].num_vars as nat,
        ),
        sum_polynomial.products()[0].polynomials.len() < usize::MAX,
    ensures
        r.claimed_sum == claimed_sum,
        r.round_univariate_polynomials.len() == sum_polynomial.products()[0].polynomials[0].num_vars,
        r.random_challenges.len() == sum_polynomial.products()[0].polynomials[0].num_vars,
        forall|k: int|
            0 <= k < r.round_univariate_polynomials.len() ==> interpolates_round(
                #[trigger] poly_terms(r.round_univariate_polynomials@)[k],
                fix_vars(
                    product_tables(sum_polynomial.products()),
                    vals(r.random_challenges@).take(k),
                ),
                sum_polynomial.products()[0].polynomials.len() as nat,
            ),
        vals(r.random_challenges@) == chain_challenges(
            old(transcript)@ + be_bytes(claimed_sum.val(), 32),
            poly_terms(r.round_univariate_polynomials@),
        ),
        final(transcript)@ == chain_state(
            old(transcript)@ + be_bytes(claimed_sum.val(), 32),
            poly_terms(r.round_univariate_polynomials@),
        ),
        claimed_sum.val() == hypercube_sum(product_tables(sum_polynomial.products()))
            && factors_at_most(
            product_tables(sum_polynomial.products()),
            sum_polynomial.products()[0].polynomials.len() as nat,
        ) && pairwise_invertible(points(sum_polynomial.products()[0].polynomials.len() as nat))
            ==> verifier_pass(
            old(transcript)@ + be_bytes(claimed_sum.val(), 32),
            claimed_sum.val(),
            poly_terms(r.round_univariate_polynomials@),
        ) == (
            true,
            vals(r.random_challenges@),
            hypercube_sum(
                fix_vars(product_tables(sum_polynomial.products()), vals(r.random_challenges@)),
            ),
            final(transcript)@,
        ),
{
    let ghost ps = sum_polynomial.products();
    let ghost ts = product_tables(ps);
    let ghost d = ps[0].polynomials.len() as nat;
    let num_vars = sum_polynomial.number_of_variables();
    let mut round_univariate_polynomials: Vec<SparseUnivariatePolynomial> = Vec::new();
    let mut random_challenges: Vec<FieldElement> = Vec::new();
    let mut current_polynomial = sum_polynomial;
    let claimed_bytes = field_element_to_bytes(claimed_sum);
    transcript.absorb(claimed_bytes.as_slice());
    let ghost st0 = transcript@;
    proof {
        assert(poly_terms(round_univariate_polynomials@) =~= Seq::<Seq<(nat, nat)>>::empty());
        assert(vals(random_challenges@) =~= Seq::<nat>::empty());
    }
    let mut round: usize = 0;
    while round < num_vars
        invariant
            round <= num_vars,
            num_vars == ps[0].polynomials[0].num_vars,
            d == ps[0].polynomials.len(),
            d < usize::MAX,
            ts == product_tables(ps),
            current_polynomial.metadata_ready(),
            current_polynomial.products()[0].polynomials.len() == d,
            current_polynomial.products()[0].polynomials[0].num_vars == num_vars - round,
            uniform_in(current_polynomial.products(), (num_vars - round) as nat),
            product_tables(current_polynomial.products()) == fix_vars(ts, vals(random_challenges@)),
            round_univariate_polynomials.len() == round,
            random_challenges.len() == round,
            forall|k: int|
                0 <= k < round ==> interpolates_round(
                    #[trigger] poly_terms(round_univariate_polynomials@)[k],
                    fix_vars(ts, vals(random_challenges@).take(k)),
                    d,
                ),
            transcript@ == chain_state(st0, poly_terms(round_univariate_polynomials@)),
            vals(random_challenges@) == chain_challenges(
                st0,
                poly_terms(round_univariate_polynomials@),
            ),
        decreases num_vars - round,
    {
        let univariate_poly = generate_round_univariate(&current_polynomial);
        let poly_bytes = univariate_to_bytes(&univariate_poly);
        let ghost done = poly_terms(round_univariate_polynomials@);
        let ghost old_ch = vals(random_challenges@);
        transcript.absorb(poly_bytes.as_slice());
        round_univariate_polynomials.push(univariate_poly);
        let random_challenge = transcript.sample_field_element();
        random_challenges.push(random_challenge);
        proof {
            let now = poly_terms(round_univariate_polynomials@);
            assert(now =~= done.push(term_vals(univariate_poly.terms@)));
            assert(now.drop_last() =~= done);
            assert(vals(random_challenges@) =~= old_ch.push(random_challenge.val()));
            assert(vals(random_challenges@).drop_last() =~= old_ch);
            assert forall|k: int| 0 <= k < round + 1 implies interpolates_round(
                #[trigger] poly_terms(round_univariate_polynomials@)[k],
                fix_vars(ts, vals(random_challenges@).take(k)),
                d,
            ) by {
                assert(vals(random_challenges@).take(k) =~= old_ch.take(k));
                if k < round {
                    assert(now[k] == done[k]);
                } else {
                    assert(old_ch.take(k) =~= old_ch);
                }
            }
            lemma_ready_to_fix(current_polynomial.products(), (num_vars - round) as nat);
        }
        let ghost before = current_polynomial.products();
        current_polynomial = current_polynomial.partial_evaluate(0, random_challenge);
        proof {
            lemma_fixed_tables(
                before,
                current_polynomial.products(),
                (num_vars - round) as nat,
                random_challenge.val(),
            );
            assert(all_in_vars(current_polynomial.products()[0].polynomials@, (num_vars - round - 1) as nat));
            assert(current_polynomial.products()[0].polynomials@[0].num_vars == num_vars - round - 1);
        }
        round = round + 1;
    }
    proof {
        let polys = poly_terms(round_univariate_polynomials@);
        let d = ps[0].polynomials.len() as nat;
        if claimed_sum.val() == hypercube_sum(ts) && factors_at_most(ts, d) && pairwise_invertible(
            points(d),
        ) {
            lemma_uniform_tables(ps, num_vars as nat);
            assert(usize::MAX < modulus());
            assert forall|i: int| 0 <= i < num_vars implies interpolates_round(
                #[trigger] polys[i],
                fix_vars(ts, chain_challenges(st0, polys).take(i)),
                d,
            ) by {}
            lemma_sumcheck_rounds_complete(ts, num_vars as nat, d, st0, polys);
        }
    }
    SumcheckProver { claimed_sum, round_univariate_polynomials, random_challenges }
}

/// Runs the verifier on `proof`, absorbing into `transcript`: the claimed sum, then
/// per round polynomial a check that its values at 0 and 1 add up to the running
/// claim, the polynomial, and a challenge at which the polynomial gives the next
/// claim. A failed check ends the pass with the proof marked invalid.
pub fn verify(proof: &SumcheckProver, transcript: &mut FiatShamirTranscript) -> (r:
    SumcheckVerifier)
    ensures
        ({
            let res = verifier_pass(
                old(transcript)@ + be_bytes(proof.claimed_sum.val(), 32),
                proof.claimed_sum.val(),
                poly_terms(proof.round_univariate_polynomials@),
            );
            &&& r.is_proof_valid == res.0
            &&& vals(r.random_challenges@) == res.1
            &&& r.last_claimed_sum.val() == res.2
            &&& final(transcript)@ == res.3
        }),
{
    let mut current_sum = proof.claimed_sum;
    let mut random_challenges: Vec<FieldElement> = Vec::new();
    let claimed_bytes = field_element_to_bytes(current_sum);
    transcript.absorb(claimed_bytes.as_slice());
    let ghost st0 = transcript@;
    let ghost all = poly_terms(proof.round_univariate_polynomials@);
    let n = proof.round_univariate_polynomials.len();
    proof {
        assert(all.subrange(0, 0) =~= Seq::<Seq<(nat, nat)>>::empty());
        assert(vals(random_challenges@) =~= Seq::<nat>::empty());
    }
    let mut i: usize = 0;
    while i < n
        invariant
            i <= n,
            n == proof.round_univariate_polynomials.len(),
            all == poly_terms(proof.round_univariate_polynomials@),
            st0 == old(transcript)@ + be_bytes(proof.claimed_sum.val(), 32),
            verifier_pass(st0, proof.claimed_sum.val(), all.subrange(0, i as int)) == (
                true,
                vals(random_challenges@),
                current_sum.val(),
                transcript@,
            ),
        decreases n - i,
    {
        let round_poly = &proof.round_univariate_polynomials[i];
        let ghost g = term_vals(round_poly.terms@);
        proof {
            assert(all[i as int] == g);
            lemma_pass_step(st0, proof.claimed_sum.val(), all, i as int);
        }
        let eval_at_zero = round_poly.evaluate(ark_zero());
        let eval_at_one = round_poly.evaluate(ark_one());
        let total = ark_add(eval_at_zero, eval_at_one);
        if !ark_eq(total, current_sum) {
            proof {
                assert(total.val() == fadd(raw_eval(g, 0), raw_eval(g, 1)));
                lemma_stopped_pass_stays(st0, proof.claimed_sum.val(), all, (i + 1) as nat);
            }
            return SumcheckVerifier {
                is_proof_valid: false,
                random_challenges,
                last_claimed_sum: current_sum,
            };
        }
        let poly_bytes = univariate_to_bytes(round_poly);
        transcript.absorb(poly_bytes.as_slice());
        let random_challenge = transcript.sample_field_element();
        let ghost old_ch = vals(random_challenges@);
        random_challenges.push(random_challenge);
        current_sum = round_poly.evaluate(random_challenge);
        proof {
            assert(vals(random_challenges@) =~= old_ch.push(random_challenge.val()));
        }
        i = i + 1;
    }
    proof {
        assert(all.subrange(0, n as int) =~= all);
    }
    SumcheckVerifier { is_proof_valid: true, random_challenges, last_claimed_sum: current_sum }
}

/// One more round of the pass: it stops the pass when the values at 0 and 1 do not
/// add up to the running claim, else draws a challenge.
proof fn lemma_pass_step(state: Seq<u8>, claimed: nat, polys: Seq<Seq<(nat, nat)>>, i: int)
    requires
        0 <= i < polys.len(),
        verifier_pass(state, claimed, polys.subrange(0, i)).0,
    ensures
        ({
            let prev = verifier_pass(state, claimed, polys.subrange(0, i));
            let g = polys[i];
            let now = verifier_pass(state, claimed, polys.subrange(0, i + 1));
            if fadd(raw_eval(g, 0), raw_eval(g, 1)) != prev.2 {
                now == (false, prev.1, prev.2, prev.3)
            } else {
                let s = prev.3 + encode_terms(g);
                now == (true, prev.1.push(sampled_of(s)), raw_eval(g, sampled_of(s)), challenge_of(s))
            }
        }),
{
    let next = polys.subrange(0, i + 1);
    assert(next.drop_last() =~= polys.subrange(0, i));
    assert(next.last() == polys[i]);
}

/// Once a pass has stopped, later rounds change nothing.
proof fn lemma_stopped_pass_stays(state: Seq<u8>, claimed: nat, polys: Seq<Seq<(nat, nat)>>, k: nat)
    requires
        1 <= k <= polys.len(),
        !verifier_pass(state, claimed, polys.subrange(0, k as int)).0,
    ensures
        verifier_pass(state, claimed, polys) == verifier_pass(
            state,
            claimed,
            polys.subrange(0, k as int),
        ),
    decreases polys.len() - k,
{
    if k < polys.len() {
        let next = polys.subrange(0, k + 1 as int);
        assert(next.drop_last() =~= polys.subrange(0, k as int));
        lemma_stopped_pass_stays(state, claimed, polys, k + 1);
    } else {
        assert(polys.subrange(0, k as int) =~= polys);
    }
}

} // verus!
