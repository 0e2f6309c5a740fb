//! The sum-check protocol for a multilinear polynomial, made non-interactive with a
//! Fiat-Shamir transcript. Each round sends the sums of the two halves of the table
//! (the round polynomial at 0 and at 1); the verifier checks that they add up to the
//! running claim, draws a challenge and folds the claim along the line between them.
use crate::fiat_shamir_transcript::{challenge_of, sampled_of, FiatShamirTranscript};
use crate::field::{
    ark_add, ark_eq, ark_from_u64, ark_one, ark_sub, ark_mul, ark_to_bytes_be, ark_zero, be_bytes,
    encode_elements, fadd, fmul, fsub, lemma_add_mod_absorb, lemma_field_ops_canonical,
    lemma_mul_mod_absorb, lemma_sub_mod_absorb, modulus, vals, FieldElement, lemma_fadd_laws,
    fsum, lemma_fsum_canonical, lemma_fsum_concat,
};
use crate::multi_poly::{
    all_canonical, copy_elements, elements_to_bytes, fold_first, lemma_fold_first_boolean,
    lemma_log2_floor_pow2, lemma_partial_eval_first, lerp, mle_eval,
};
use crate::updated_multilinear::MultilinearPolynomial;
use vstd::arithmetic::div_mod::*;
use vstd::arithmetic::mul::*;
use vstd::arithmetic::power2::*;
use ark_std::rand::Rng;
use vstd::prelude::*;

verus! {

/// The transcript after the polynomial and the claimed sum are absorbed.
pub open spec fn initial_state(t: Seq<nat>, claimed: nat) -> Seq<u8> {
    encode_elements(t) + be_bytes(claimed, 32)
}

/// `0 + r0 + r1`, the sum that the verifier checks a round polynomial against.
pub open spec fn pair_sum(r0: nat, r1: nat) -> nat {
    fadd(fadd(0, r0), r1)
}

/// The transcript after a round polynomial `(r0, r1)` is absorbed.
pub open spec fn round_state(state: Seq<u8>, r0: nat, r1: nat) -> Seq<u8> {
    state + be_bytes(r0, 32) + be_bytes(r1, 32)
}

/// The round polynomials that the honest prover sends for `k` more rounds, from the
/// transcript `state` and the current table `t`.
pub open spec fn prover_rounds(state: Seq<u8>, t: Seq<nat>, k: nat) -> Seq<(nat, nat)>
    decreases k,
{
    if k == 0 {
        Seq::empty()
    } else {
        let r0 = fsum(fold_first(t, 0));
        let r1 = fsum(fold_first(t, 1));
        let s = round_state(state, r0, r1);
        seq![(r0, r1)] + prover_rounds(challenge_of(s), fold_first(t, sampled_of(s)), (k - 1) as nat)
    }
}

/// The verifier's pass over the round polynomials from transcript `state` and running
/// claim `current`: `None` when a round does not add up to the claim, else the last
/// claim and the challenges drawn.
#[verifier::opaque]
pub open spec fn verifier_rounds(state: Seq<u8>, current: nat, rounds: Seq<(nat, nat)>) -> Option<
    (nat, Seq<nat>),
>
    decreases rounds.len(),
{
    if rounds.len() == 0 {
        Some((current, Seq::empty()))
    } else {
        let r0 = rounds[0].0;
        let r1 = rounds[0].1;
        if current != pair_sum(r0, r1) {
            None
        } else {
            let s = round_state(state, r0, r1);
            let c = sampled_of(s);
            match verifier_rounds(challenge_of(s), lerp(r0, r1, c), rounds.drop_first()) {
                Some(res) => Some((res.0, seq![c] + res.1)),
                None => None,
            }
        }
    }
}

/// Whether the verifier accepts `rounds` as a proof that the table `t` of an
/// `n`-variable polynomial sums to `claimed`.
pub open spec fn verifier_accepts(t: Seq<nat>, n: nat, claimed: nat, rounds: Seq<(nat, nat)>) -> bool {
    &&& rounds.len() == n
    &&& match verifier_rounds(initial_state(t, claimed), claimed, rounds) {
        Some(res) => res.0 == mle_eval(t, res.1),
        None => false,
    }
}


/// `lerp` computed with integers, reduced once at the end.
pub proof fn lemma_lerp_int(x: nat, y: nat, c: nat)
    ensures
        lerp(x, y, c) == (x + c * (y - x)) % (modulus() as int),
{
    let d = y as int - x as int;
    lemma_mul_mod_absorb(c as int, d);
    lemma_add_mod_absorb(x as int, c * d);
}

/// Lines through summed end points are the sums of the lines.
pub proof fn lemma_lerp_add(x1: nat, y1: nat, a: nat, b: nat, c: nat)
    ensures
        fadd(lerp(x1, y1, c), lerp(a, b, c)) == lerp(fadd(x1, a), fadd(y1, b), c),
{
    let m = modulus() as int;
    let e1 = x1 + c * (y1 - x1);
    let e2 = a + c * (b - a);
    lemma_lerp_int(x1, y1, c);
    lemma_lerp_int(a, b, c);
    assert(fadd(lerp(x1, y1, c), lerp(a, b, c)) == (e1 + e2) % m) by {
        lemma_add_mod_absorb(e1, e2);
        lemma_add_mod_absorb(e1 % m, e2);
    }
    let u = x1 as int + a as int;
    let w = y1 as int + b as int;
    let xx = fadd(x1, a);
    let yy = fadd(y1, b);
    lemma_lerp_int(xx, yy, c);
    assert((yy - xx) % m == (w - u) % m) by {
        lemma_sub_mod_absorb(w, u);
        lemma_sub_mod_absorb(w % m, u);
    }
    assert((c * (yy - xx)) % m == (c * (w - u)) % m) by {
        lemma_mul_mod_absorb(c as int, yy - xx);
        lemma_mul_mod_absorb(c as int, w - u);
    }
    assert((xx + c * (yy - xx)) % m == (u + c * (w - u)) % m) by {
        lemma_add_mod_absorb(xx as int, c * (yy - xx));
        lemma_add_mod_absorb(xx as int, c * (w - u));
        lemma_add_mod_absorb(u, c * (w - u));
    }
    assert(e1 + e2 == u + c * (w - u)) by (nonlinear_arith)
        requires
            e1 == x1 + c * (y1 - x1),
            e2 == a + c * (b - a),
            u == x1 + a,
            w == y1 + b,
    ;
}

/// Summing the lines between two tables gives the line between their sums.
pub proof fn lemma_fsum_lerp(a: Seq<nat>, b: Seq<nat>, c: nat)
    requires
        a.len() == b.len(),
    ensures
        fsum(Seq::new(a.len(), |v: int| lerp(a[v], b[v], c))) == lerp(fsum(a), fsum(b), c),
    decreases a.len(),
{
    let l = Seq::new(a.len(), |v: int| lerp(a[v], b[v], c));
    if a.len() == 0 {
        lemma_lerp_int(0, 0, c);
    } else {
        let a1 = a.drop_last();
        let b1 = b.drop_last();
        lemma_fsum_lerp(a1, b1, c);
        assert(l.drop_last() =~= Seq::new(a1.len(), |v: int| lerp(a1[v], b1[v], c)));
        lemma_lerp_add(fsum(a1), fsum(b1), a.last(), b.last(), c);
    }
}

/// What one round of the honest prover sends, and what it leaves.
proof fn lemma_round_facts(t: Seq<nat>, k: nat, c: nat)
    requires
        k >= 1,
        t.len() == pow2(k),
        all_canonical(t),
    ensures
        pair_sum(fsum(fold_first(t, 0)), fsum(fold_first(t, 1))) == fsum(t),
        fold_first(t, c).len() == pow2((k - 1) as nat),
        all_canonical(fold_first(t, c)),
        fsum(fold_first(t, c)) == lerp(fsum(fold_first(t, 0)), fsum(fold_first(t, 1)), c),
        lerp(fsum(fold_first(t, 0)), fsum(fold_first(t, 1)), c) < modulus(),
{
    let h = t.len() / 2;
    lemma_pow2_unfold(k);
    lemma_fold_first_boolean(t);
    let first = t.subrange(0, h as int);
    let second = t.subrange(h as int, t.len() as int);
    assert(t =~= first + second);
    lemma_fsum_concat(first, second);
    assert(fold_first(t, 0) =~= first);
    assert(fold_first(t, 1) =~= second);
    let r0 = fsum(first);
    let r1 = fsum(second);
    lemma_fsum_canonical(first);
    lemma_fadd_laws(r0, 0, 0);
    let t2 = fold_first(t, c);
    assert(all_canonical(t2)) by {
        assert forall|i: int| 0 <= i < t2.len() implies #[trigger] t2[i] < modulus() by {
            lemma_field_ops_canonical(t[i], fmul(c, fsub(t[i + h], t[i])));
        }
    }
    assert(t2 =~= Seq::new(first.len(), |v: int| lerp(first[v], second[v], c)));
    lemma_fsum_lerp(first, second, c);
    lemma_field_ops_canonical(r0, fmul(c, fsub(r1, r0)));
}

/// The honest prover's rounds, checked by the verifier from the same transcript and
/// a running claim `cur`: accepted exactly when `cur` is the sum of the table.
#[verifier::rlimit(80)]
proof fn lemma_honest_rounds(state: Seq<u8>, t: Seq<nat>, k: nat, cur: nat)
    requires
        t.len() == pow2(k),
        all_canonical(t),
        cur < modulus(),
    ensures
        prover_rounds(state, t, k).len() == k,
        ({
            let res = verifier_rounds(state, cur, prover_rounds(state, t, k));
            (res is Some && (res->0).0 == mle_eval(t, (res->0).1)) == (cur == fsum(t))
        }),
    decreases k,
{
    if k == 0 {
        lemma_honest_rounds_base(state, t, cur);
    } else {
        let r0 = fsum(fold_first(t, 0));
        let r1 = fsum(fold_first(t, 1));
        let s = round_state(state, r0, r1);
        let c = sampled_of(s);
        lemma_round_facts(t, k, c);
        let t2 = fold_first(t, c);
        let cur2 = lerp(r0, r1, c);
        let rest = prover_rounds(challenge_of(s), t2, (k - 1) as nat);
        let all = prover_rounds(state, t, k);
        assert(all == seq![(r0, r1)] + rest);
        assert(all[0] == (r0, r1));
        assert(all.drop_first() =~= rest);
        lemma_honest_rounds(challenge_of(s), t2, (k - 1) as nat, cur2);
        let whole = verifier_rounds(state, cur, all);
        lemma_prepend_empty(whole);
        if cur == fsum(t) {
            lemma_verifier_step(state, cur, all, Seq::empty(), r0, r1, s, c);
            lemma_accept_step(t, c, whole, verifier_rounds(challenge_of(s), cur2, rest));
            assert(whole is Some && (whole->0).0 == mle_eval(t, (whole->0).1));
        } else {
            lemma_verifier_reject(state, cur, all, Seq::empty());
            assert(whole is None);
        }
    }
}

/// With no variable left the verifier compares the claim with the single entry.
proof fn lemma_honest_rounds_base(state: Seq<u8>, t: Seq<nat>, cur: nat)
    requires
        t.len() == pow2(0),
        all_canonical(t),
    ensures
        prover_rounds(state, t, 0).len() == 0,
        ({
            let res = verifier_rounds(state, cur, prover_rounds(state, t, 0));
            (res is Some && (res->0).0 == mle_eval(t, (res->0).1)) == (cur == fsum(t))
        }),
{
    reveal(verifier_rounds);
    lemma2_to64();
    assert(t.drop_last() =~= Seq::<nat>::empty());
    assert(t[0] < modulus());
    lemma_fadd_laws(t[0], 0, 0);
    assert(fsum(t.drop_last()) == 0);
    assert(t.last() == t[0]);
    assert(prover_rounds(state, t, 0) =~= Seq::<(nat, nat)>::empty());
    assert(fsum(t) == t[0]);
}

/// An accepted tail, with challenge `c` put before it, is accepted for the table
/// folded at `c`.
proof fn lemma_accept_step(t: Seq<nat>, c: nat, whole: Option<(nat, Seq<nat>)>, tail: Option<(nat, Seq<nat>)>)
    requires
        whole == prepend_challenges(tail, Seq::empty().push(c)),
        tail is Some,
        (tail->0).0 == mle_eval(fold_first(t, c), (tail->0).1),
    ensures
        whole is Some,
        (whole->0).0 == mle_eval(t, (whole->0).1),
{
    let cs = Seq::<nat>::empty().push(c) + (tail->0).1;
    assert(cs[0] == c);
    assert(cs.drop_first() =~= (tail->0).1);
}

/// Putting nothing before the challenges changes nothing.
proof fn lemma_prepend_empty(r: Option<(nat, Seq<nat>)>)
    ensures
        prepend_challenges(r, Seq::empty()) == r,
{
    match r {
        Some(res) => {
            assert(Seq::<nat>::empty() + res.1 =~= res.1);
        },
        None => {},
    }
}

/// The sum-check protocol is complete and the first round check is exact: the proof
/// that the honest prover builds for a claimed sum is accepted exactly when the claim
/// is the sum of the table.
pub proof fn lemma_sumcheck_complete(t: Seq<nat>, n: nat, claimed: nat)
    requires
        t.len() == pow2(n),
        all_canonical(t),
        claimed < modulus(),
    ensures
        verifier_accepts(t, n, claimed, prover_rounds(initial_state(t, claimed), t, n)) == (claimed
            == fsum(t)),
{
    lemma_honest_rounds(initial_state(t, claimed), t, n, claimed);
}

/// Soundness of the final check: whenever the verifier accepts, the proof has one
/// round per variable, the first round adds up to the claimed sum, each later round
/// adds up to the line through the round before it at that round's challenge, and
/// the line through the last round at the last challenge equals the multilinear
/// extension of the table at the challenges drawn (with no variable, the claim is the
/// table's single entry). A proof whose rounds all add up but whose last claim
/// differs from the polynomial's value at the challenges is rejected.
pub proof fn lemma_accept_final_check(t: Seq<nat>, n: nat, claimed: nat, rounds: Seq<(nat, nat)>)
    requires
        t.len() == pow2(n),
    ensures
        verifier_accepts(t, n, claimed, rounds) ==> {
            let res = verifier_rounds(initial_state(t, claimed), claimed, rounds);
            &&& rounds.len() == n
            &&& res is Some
            &&& (res->0).1.len() == n
            &&& (res->0).0 == mle_eval(t, (res->0).1)
            &&& (n >= 1 ==> claimed == pair_sum(rounds[0].0, rounds[0].1))
            &&& forall|i: int|
                1 <= i < n ==> pair_sum((#[trigger] rounds[i]).0, rounds[i].1) == lerp(
                    rounds[i - 1].0,
                    rounds[i - 1].1,
                    (res->0).1[i - 1],
                )
            &&& (n >= 1 ==> lerp(rounds.last().0, rounds.last().1, (res->0).1.last()) == mle_eval(
                t,
                (res->0).1,
            ))
            &&& (n == 0 ==> claimed == t[0])
        },
        ({
            let res = verifier_rounds(initial_state(t, claimed), claimed, rounds);
            (rounds.len() == n && res is Some && (res->0).0 == mle_eval(t, (res->0).1))
                ==> verifier_accepts(t, n, claimed, rounds)
        }),
{
    let s0 = initial_state(t, claimed);
    lemma_verifier_rounds_checks(s0, claimed, rounds);
    if n == 0 {
        lemma2_to64();
        if verifier_accepts(t, n, claimed, rounds) {
            assert((verifier_rounds(s0, claimed, rounds)->0).1.len() == 0);
            assert((verifier_rounds(s0, claimed, rounds)->0).1 =~= Seq::<nat>::empty());
        }
    }
    if rounds.len() >= 1 && claimed != pair_sum(rounds[0].0, rounds[0].1) {
        lemma_verifier_reject(s0, claimed, rounds, Seq::empty());
        lemma_prepend_empty(verifier_rounds(s0, claimed, rounds));
    }
}

/// What a verifier pass that succeeds has checked: one challenge per round, the
/// first round adds up to the starting claim, each later round adds up to the line
/// through the round before it at that round's challenge, and the claim left is the
/// line through the last round at the last challenge.
proof fn lemma_verifier_rounds_checks(state: Seq<u8>, cur: nat, rounds: Seq<(nat, nat)>)
    ensures
        verifier_rounds(state, cur, rounds) is Some ==> {
            let res = verifier_rounds(state, cur, rounds)->0;
            &&& res.1.len() == rounds.len()
            &&& (rounds.len() >= 1 ==> cur == pair_sum(rounds[0].0, rounds[0].1))
            &&& forall|i: int|
                1 <= i < rounds.len() ==> pair_sum((#[trigger] rounds[i]).0, rounds[i].1) == lerp(
                    rounds[i - 1].0,
                    rounds[i - 1].1,
                    res.1[i - 1],
                )
            &&& res.0 == if rounds.len() == 0 {
                cur
            } else {
                lerp(rounds.last().0, rounds.last().1, res.1.last())
            }
        },
    decreases rounds.len(),
{
    reveal(verifier_rounds);
    if rounds.len() > 0 {
        let r0 = rounds[0].0;
        let r1 = rounds[0].1;
        let s = round_state(state, r0, r1);
        let c = sampled_of(s);
        let tail = rounds.drop_first();
        let cur2 = lerp(r0, r1, c);
        lemma_verifier_rounds_checks(challenge_of(s), cur2, tail);
        if verifier_rounds(state, cur, rounds) is Some {
            let res = verifier_rounds(state, cur, rounds)->0;
            let sub = verifier_rounds(challenge_of(s), cur2, tail)->0;
            assert(cur == pair_sum(r0, r1));
            assert(res.1 == seq![c] + sub.1);
            assert forall|i: int|
                1 <= i < rounds.len() implies pair_sum((#[trigger] rounds[i]).0, rounds[i].1) == lerp(
                    rounds[i - 1].0,
                    rounds[i - 1].1,
                    res.1[i - 1],
                ) by {
                assert(rounds[i] == tail[i - 1]);
                if i >= 2 {
                    assert(rounds[i - 1] == tail[i - 2]);
                    assert(res.1[i - 1] == sub.1[i - 2]);
                } else {
                    assert(res.1[0] == c);
                }
            }
            if tail.len() > 0 {
                assert(rounds.last() == tail.last());
                assert(res.1.last() == sub.1.last());
            } else {
                assert(res.1.last() == c);
            }
        }
    }
}

/// The verdict on a one-variable table `[a, b]` and a single round `(r0, r1)`: the
/// verifier accepts exactly when the round adds up to the claimed sum and the line
/// through `r0`, `r1` meets the line through `a`, `b` at the challenge `c` drawn after
/// the round.
pub proof fn lemma_one_variable_verdict(a: nat, b: nat, claimed: nat, r0: nat, r1: nat)
    ensures
        ({
            let t = seq![a, b];
            let c = sampled_of(round_state(initial_state(t, claimed), r0, r1));
            verifier_accepts(t, 1, claimed, seq![(r0, r1)]) == (claimed == pair_sum(r0, r1)
                && lerp(r0, r1, c) == lerp(a, b, c))
        }),
{
    let t = seq![a, b];
    let s0 = initial_state(t, claimed);
    let s = round_state(s0, r0, r1);
    let c = sampled_of(s);
    let rounds = seq![(r0, r1)];
    assert(rounds.drop_first() =~= Seq::<(nat, nat)>::empty());
    reveal_with_fuel(verifier_rounds, 2);
    if claimed == pair_sum(r0, r1) {
        assert(verifier_rounds(s0, claimed, rounds) == Some((lerp(r0, r1, c), seq![c] + Seq::<nat>::empty())));
        assert(seq![c] + Seq::<nat>::empty() =~= seq![c]);
        assert(seq![c].drop_first() =~= Seq::<nat>::empty());
        assert(fold_first(t, c) =~= seq![lerp(a, b, c)]);
        assert(mle_eval(t, seq![c]) == mle_eval(fold_first(t, c), Seq::<nat>::empty()));
    }
}

/// A false claim on a one-variable table is accepted only if the round sent differs
/// from the table's two entries and the challenge drawn after it falls on the one
/// point where the two lines cross.
pub proof fn lemma_one_variable_false_claim(a: nat, b: nat, claimed: nat, r0: nat, r1: nat)
    requires
        a < modulus(),
        b < modulus(),
        claimed != fsum(seq![a, b]),
        verifier_accepts(seq![a, b], 1, claimed, seq![(r0, r1)]),
    ensures
        (r0, r1) != (a, b),
        claimed == pair_sum(r0, r1),
        ({
            let c = sampled_of(round_state(initial_state(seq![a, b], claimed), r0, r1));
            lerp(r0, r1, c) == lerp(a, b, c)
        }),
{
    lemma_one_variable_verdict(a, b, claimed, r0, r1);
    let t = seq![a, b];
    assert(t.drop_last() =~= seq![a]);
    assert(seq![a].drop_last() =~= Seq::<nat>::empty());
    assert(fsum(Seq::<nat>::empty()) == 0);
    assert(fsum(seq![a]) == fadd(0, a));
    assert(t.last() == b);
    assert(fsum(t) == pair_sum(a, b));
}

/// A sum-check proof: the claimed sum and one round polynomial, by its values at 0
/// and 1, per variable.
pub struct Proof {
    pub claimed_sum: FieldElement,
    pub round_polys: Vec<[FieldElement; 2]>,
}

/// The values of a sequence of round polynomials.
pub open spec fn round_values(rs: Seq<[FieldElement; 2]>) -> Seq<(nat, nat)> {
    rs.map_values(|p: [FieldElement; 2]| (p[0].val(), p[1].val()))
}

impl Proof {
    /// The round polynomials by their values.
    pub open spec fn rounds(&self) -> Seq<(nat, nat)> {
        round_values(self.round_polys@)
    }
}

/// The sum of the elements in the field.
pub fn sum_elements(s: &[FieldElement]) -> (r: FieldElement)
    ensures
        r.val() == fsum(vals(s@)),
{
    let mut acc = ark_zero();
    for i in 0..s.len()
        invariant
            acc.val() == fsum(vals(s@).subrange(0, i as int)),
    {
        proof {
            assert(vals(s@).subrange(0, i + 1).drop_last() =~= vals(s@).subrange(0, i as int));
        }
        acc = ark_add(acc, s[i]);
    }
    assert(vals(s@).subrange(0, s.len() as int) =~= vals(s@));
    acc
}

/// Proves that the table of `poly` sums to `claimed_sum`.
pub fn prove(poly: &MultilinearPolynomial, claimed_sum: FieldElement) -> (r: Proof)
    requires
        poly.wf(),
    ensures
        r.claimed_sum == claimed_sum,
        r.rounds() == prover_rounds(
            initial_state(poly.table(), claimed_sum.val()),
            poly.table(),
            poly.n_vars as nat,
        ),
{
    let mut round_polys: Vec<[FieldElement; 2]> = Vec::new();
    let mut transcript = FiatShamirTranscript::new();
    let evals_bytes = elements_to_bytes(poly.evals.as_slice());
    transcript.absorb(evals_bytes.as_slice());
    let claimed_bytes = ark_to_bytes_be(claimed_sum);
    transcript.absorb(claimed_bytes.as_slice());
    let ghost t0 = poly.table();
    let ghost s0 = initial_state(t0, claimed_sum.val());
    assert(transcript@ =~= s0);
    let n = poly.n_vars;
    let mut poly = MultilinearPolynomial { evals: copy_elements(poly.evals.as_slice()), n_vars: n };
    for i in 0..n
        invariant
            poly.wf(),
            poly.n_vars == n - i,
            prover_rounds(s0, t0, n as nat) == round_values(round_polys@) + prover_rounds(
                transcript@,
                poly.table(),
                (n - i) as nat,
            ),
    {
        let zero = ark_zero();
        let one = ark_one();
        proof {
            lemma_partial_eval_first(poly.table(), (n - i) as nat, 0);
            lemma_partial_eval_first(poly.table(), (n - i) as nat, 1);
            lemma_log2_floor_pow2((n - i) as nat);
        }
        let r0 = sum_elements(poly.partial_evaluate(0, &zero).evals.as_slice());
        let r1 = sum_elements(poly.partial_evaluate(0, &one).evals.as_slice());
        let ghost before = transcript@;
        let b0 = ark_to_bytes_be(r0);
        transcript.absorb(b0.as_slice());
        let b1 = ark_to_bytes_be(r1);
        transcript.absorb(b1.as_slice());
        assert(transcript@ == round_state(before, r0.val(), r1.val()));
        let ghost done = round_values(round_polys@);
        round_polys.push([r0, r1]);
        let challenge = transcript.sample_field_element();
        proof {
            lemma_partial_eval_first(poly.table(), (n - i) as nat, challenge.val());
            let rest = prover_rounds(
                transcript@,
                fold_first(poly.table(), challenge.val()),
                (n - i - 1) as nat,
            );
            assert(round_values(round_polys@) =~= done.push((r0.val(), r1.val())));
            assert(prover_rounds(before, poly.table(), (n - i) as nat) == seq![
                (r0.val(), r1.val()),
            ] + rest);
            assert(done + (seq![(r0.val(), r1.val())] + rest) =~= done.push((r0.val(), r1.val()))
                + rest);
        }
        poly = poly.partial_evaluate(0, &challenge);
    }
    Proof { claimed_sum, round_polys }
}

/// `r` with `pre` put before its challenges.
pub open spec fn prepend_challenges(r: Option<(nat, Seq<nat>)>, pre: Seq<nat>) -> Option<
    (nat, Seq<nat>),
> {
    match r {
        Some(res) => Some((res.0, pre + res.1)),
        None => None,
    }
}

/// A round of the verifier's pass that does not add up rejects.
proof fn lemma_verifier_reject(state: Seq<u8>, cur: nat, rest: Seq<(nat, nat)>, pre: Seq<nat>)
    requires
        rest.len() >= 1,
        cur != pair_sum(rest[0].0, rest[0].1),
    ensures
        prepend_challenges(verifier_rounds(state, cur, rest), pre) is None,
{
    reveal(verifier_rounds);
}

/// A round of the verifier's pass that adds up moves on to the next.
proof fn lemma_verifier_step(
    state: Seq<u8>,
    cur: nat,
    rest: Seq<(nat, nat)>,
    pre: Seq<nat>,
    r0: nat,
    r1: nat,
    s: Seq<u8>,
    c: nat,
)
    requires
        rest.len() >= 1,
        rest[0] == (r0, r1),
        cur == pair_sum(r0, r1),
        s == round_state(state, r0, r1),
        c == sampled_of(s),
    ensures
        prepend_challenges(verifier_rounds(state, cur, rest), pre) == prepend_challenges(
            verifier_rounds(challenge_of(s), lerp(r0, r1, c), rest.drop_first()),
            pre.push(c),
        ),
{
    reveal(verifier_rounds);
    match verifier_rounds(challenge_of(s), lerp(r0, r1, c), rest.drop_first()) {
        Some(res) => {
            assert(pre + (seq![c] + res.1) =~= pre.push(c) + res.1);
        },
        None => {},
    }
}

/// With no round left the verifier ends at the running claim.
proof fn lemma_verifier_done(state: Seq<u8>, cur: nat, pre: Seq<nat>)
    ensures
        prepend_challenges(verifier_rounds(state, cur, Seq::empty()), pre) == Some((cur, pre)),
{
    reveal(verifier_rounds);
    assert(pre + Seq::<nat>::empty() =~= pre);
}

/// Checks a proof that the table of `poly` sums to `proof.claimed_sum`.
#[verifier::rlimit(40)]
pub fn verify(poly: &MultilinearPolynomial, proof: &Proof) -> (r: bool)
    requires
        poly.wf(),
    ensures
        r == verifier_accepts(poly.table(), poly.n_vars as nat, proof.claimed_sum.val(), proof.rounds()),
        r ==> ({
            let res = verifier_rounds(
                initial_state(poly.table(), proof.claimed_sum.val()),
                proof.claimed_sum.val(),
                proof.rounds(),
            );
            &&& proof.rounds().len() == poly.n_vars
            &&& res is Some
            &&& (res->0).0 == mle_eval(poly.table(), (res->0).1)
        }),
{
    if proof.round_polys.len() != poly.n_vars {
        return false;
    }
    let mut challenges: Vec<FieldElement> = Vec::new();
    let mut transcript = FiatShamirTranscript::new();
    let evals_bytes = elements_to_bytes(poly.evals.as_slice());
    transcript.absorb(evals_bytes.as_slice());
    let claimed_bytes = ark_to_bytes_be(proof.claimed_sum);
    transcript.absorb(claimed_bytes.as_slice());
    let ghost t = poly.table();
    let ghost all = proof.rounds();
    let ghost s0 = initial_state(t, proof.claimed_sum.val());
    let ghost whole = verifier_rounds(s0, proof.claimed_sum.val(), all);
    assert(transcript@ =~= s0);
    assert(all.subrange(0, all.len() as int) =~= all);
    assert(prepend_challenges(whole, Seq::empty()) == whole) by {
        match whole {
            Some(res) => {
                assert(Seq::<nat>::empty() + res.1 =~= res.1);
            },
            None => {},
        }
    }
    let mut claimed_sum = proof.claimed_sum;
    let n = proof.round_polys.len();
    for i in 0..n
        invariant
            n == proof.round_polys.len(),
            n == poly.n_vars,
            all == proof.rounds(),
            t == poly.table(),
            poly.wf(),
            challenges.len() == i,
            s0 == initial_state(t, proof.claimed_sum.val()),
            whole == verifier_rounds(s0, proof.claimed_sum.val(), all),
            whole == prepend_challenges(
                verifier_rounds(transcript@, claimed_sum.val(), all.subrange(i as int, n as int)),
                vals(challenges@),
            ),
    {
        let round_poly = proof.round_polys[i];
        let ghost rest = all.subrange(i as int, n as int);
        let ghost before = transcript@;
        let ghost cur = claimed_sum.val();
        let ghost r0 = round_poly[0].val();
        let ghost r1 = round_poly[1].val();
        assert(rest[0] == (r0, r1));
        assert(rest.drop_first() =~= all.subrange(i + 1, n as int));
        let pair = ark_add(ark_add(ark_zero(), round_poly[0]), round_poly[1]);
        if !ark_eq(claimed_sum, pair) {
            proof {
                lemma_verifier_reject(before, cur, rest, vals(challenges@));
                assert(whole is None);
                assert(!verifier_accepts(t, n as nat, proof.claimed_sum.val(), all));
            }
            return false;
        }
        let b0 = ark_to_bytes_be(round_poly[0]);
        transcript.absorb(b0.as_slice());
        let b1 = ark_to_bytes_be(round_poly[1]);
        transcript.absorb(b1.as_slice());
        assert(transcript@ == round_state(before, r0, r1));
        let ghost s = transcript@;
        let challenge = transcript.sample_field_element();
        proof {
            lemma_verifier_step(before, cur, rest, vals(challenges@), r0, r1, s, challenge.val());
        }
        claimed_sum = ark_add(round_poly[0], ark_mul(challenge, ark_sub(round_poly[1], round_poly[0])));
        let ghost old_ch = vals(challenges@);
        challenges.push(challenge);
        assert(vals(challenges@) =~= old_ch.push(challenge.val()));
    }
    proof {
        assert(all.subrange(n as int, n as int) =~= Seq::<(nat, nat)>::empty());
        lemma_verifier_done(transcript@, claimed_sum.val(), vals(challenges@));
    }
    let last = poly.evaluate(challenges.as_slice());
    ark_eq(claimed_sum, last)
}

/// `Rng::gen_range(0..20)` on an `i32`, drawn `count` times from one
/// `ark_std::test_rng()`: values from 0 to 19.
#[verifier::external_body]
fn random_small_values(count: usize) -> (r: Vec<i32>)
    ensures
        r.len() == count,
        forall|i: int| 0 <= i < count ==> 0 <= #[trigger] r[i] < 20,
{
    let mut rng = ark_std::test_rng();
    let mut out = Vec::with_capacity(count);
    for _ in 0..count {
        out.push(rng.gen_range(0..20));
    }
    out
}

/// A multilinear polynomial in 20 variables whose table holds values from 0 to 19
/// drawn from the test generator.
pub fn get_large_poly() -> (r: MultilinearPolynomial)
    ensures
        r.wf(),
        r.n_vars == 20,
        forall|i: int| 0 <= i < r.evals.len() ==> #[trigger] r.evals[i].val() < 20,
{
    let n_vars: usize = 20;
    proof {
        lemma2_to64();
        vstd::bits::lemma_usize_shl_is_mul(1, 20);
    }
    let size: usize = 1usize << n_vars;
    let drawn = random_small_values(size);
    let mut evals: Vec<FieldElement> = Vec::new();
    let mut i: usize = 0;
    while i < size
        invariant
            i <= size,
            drawn.len() == size,
            forall|k: int| 0 <= k < size ==> 0 <= #[trigger] drawn[k] < 20,
            evals.len() == i,
            forall|k: int| 0 <= k < i ==> #[trigger] evals[k].val() < 20,
        decreases size - i,
    {
        let v = drawn[i];
        assert(0 <= v < 20);
        evals.push(crate::field::ark_from_u64(v as u64));
        i = i + 1;
    }
    MultilinearPolynomial::new(n_vars, evals)
}

} // verus!
