//! The GKR protocol over a layered circuit: one sum-check per layer, each
//! reducing a claim about a layer's values to claims about the layer below.
use crate::fiat_shamir_transcript::FiatShamirTranscript;
use crate::field::{ark_add, ark_eq, ark_mul, ark_zero, fadd, fmul, vals, FieldElement};
use crate::gkr_sumcheck::{
    field_element_to_bytes, prove as sumcheck_prove, verify as sumcheck_verify, SumcheckProver,
};
use crate::multi_poly::{
    copy_elements, lemma_log2_floor_pow2, log2_floor, mle_eval, partial_eval_table, tensor_table,
    MultiPoly,
};
use crate::fiat_shamir_transcript::{challenge_of, sampled_of};
use crate::field::{be_bytes, encode_elements};
use crate::gkr_sumcheck::{
    chain_challenges, chain_state, fix_vars, interpolates_round, poly_terms, verifier_pass,
};
use crate::multi_poly::{floor_log2, lemma_pow2_fits};
use crate::new_circuit::{
    gate_index, has_gate, layer_values, layer_variables, max_output, well_wired, Circuit, Gate,
    Layer, Operator,
};
use crate::product_poly::ProductPolynomial;
use crate::sum_all_polys::SumPolynomial;
use vstd::arithmetic::power2::*;
use vstd::prelude::*;

verus! {

/// The table of `t` with its first variable fixed to each of `rs` in turn.
pub open spec fn fix_first_vars(t: Seq<nat>, rs: Seq<nat>) -> Seq<nat>
    decreases rs.len(),
{
    if rs.len() == 0 {
        t
    } else {
        partial_eval_table(fix_first_vars(t, rs.drop_last()), 0, rs.last())
    }
}

/// `alpha` times `t` fixed at `rb` plus `beta` times `t` fixed at `rc`, entry by entry.
pub open spec fn folded_table(t: Seq<nat>, alpha: nat, beta: nat, rb: Seq<nat>, rc: Seq<nat>) -> Seq<
    nat,
> {
    Seq::new(
        fix_first_vars(t, rb).len(),
        |i: int| fadd(fmul(alpha, fix_first_vars(t, rb)[i]), fmul(beta, fix_first_vars(t, rc)[i])),
    )
}

/// The claim that the wiring values and the two evaluations give:
/// `add (wb + wc) + mul (wb wc)`.
pub open spec fn wiring_claim(add_r: nat, mul_r: nat, wb: nat, wc: nat) -> nat {
    fadd(fmul(add_r, fadd(wb, wc)), fmul(mul_r, fmul(wb, wc)))
}

/// The wiring table of layer `i` for the gates with operator `op`: one at the
/// index of each such gate, zero elsewhere.
pub open spec fn wiring_table(gates: Seq<Gate>, i: nat, op: Operator) -> Seq<nat> {
    Seq::new(
        pow2(layer_variables(i)),
        |k: int| if has_gate(gates, i, op, k as nat) { 1nat } else { 0nat },
    )
}

/// A proof for the GKR protocol: the claimed output, one sum-check proof per layer,
/// and the evaluations of the layer below at the two halves of each sum-check's
/// challenges.
#[derive(Clone, Debug)]
pub struct GKRProof {
    pub claimed_output: FieldElement,
    pub sumcheck_proofs: Vec<SumcheckProver>,
    pub wb_evals: Vec<FieldElement>,
    pub wc_evals: Vec<FieldElement>,
}

/// The two halves of `s`, the first of `s.len() / 2` elements.
fn split_halves(s: &[FieldElement]) -> (r: (Vec<FieldElement>, Vec<FieldElement>))
    ensures
        r.0@ == s@.subrange(0, (s.len() / 2) as int),
        r.1@ == s@.subrange((s.len() / 2) as int, s.len() as int),
{
    let middle = s.len() / 2;
    let mut first: Vec<FieldElement> = Vec::new();
    let mut second: Vec<FieldElement> = Vec::new();
    let mut i: usize = 0;
    while i < s.len()
        invariant
            i <= s.len(),
            middle == s.len() / 2,
            first@ == s@.subrange(0, if i < middle { i as int } else { middle as int }),
            second@ == s@.subrange(middle as int, if i < middle { middle as int } else { i as int }),
        decreases s.len() - i,
    {
        if i < middle {
            first.push(s[i]);
        } else {
            second.push(s[i]);
        }
        i = i + 1;
    }
    (first, second)
}

/// The sum of the wiring terms: `add_i(b, c) (W(b) + W(c)) + mul_i(b, c) (W(b) W(c))`,
/// with `W(b) + W(c)` and `W(b) W(c)` as tables over both halves of the variables.
fn compute_fbc_polynomial(
    add_i_bc: MultiPoly,
    mul_i_bc: MultiPoly,
    w_b_polynomial: &MultiPoly,
    w_c_polynomial: &MultiPoly,
) -> (r: SumPolynomial)
    requires
        w_b_polynomial.wf(),
        w_c_polynomial.wf(),
        w_b_polynomial.num_vars + w_c_polynomial.num_vars < usize::BITS,
        add_i_bc.num_vars == w_b_polynomial.num_vars + w_c_polynomial.num_vars,
        mul_i_bc.num_vars == add_i_bc.num_vars,
    ensures
        r.products().len() == 2,
        r.products()[0].polynomials@.len() == 2,
        r.products()[1].polynomials@.len() == 2,
        r.products()[0].polynomials@[0] == add_i_bc,
        r.products()[1].polynomials@[0] == mul_i_bc,
        r.products()[0].polynomials@[1].num_vars == add_i_bc.num_vars,
        r.products()[1].polynomials@[1].num_vars == add_i_bc.num_vars,
        r.products()[0].polynomials@[1].wf(),
        r.products()[1].polynomials@[1].wf(),
        r.products()[0].polynomials@[1].table() == tensor_table(
            w_b_polynomial.table(),
            w_c_polynomial.table(),
            true,
        ),
        r.products()[1].polynomials@[1].table() == tensor_table(
            w_b_polynomial.table(),
            w_c_polynomial.table(),
            false,
        ),
{
    proof {
        lemma_pow2_adds(w_b_polynomial.num_vars as nat, w_c_polynomial.num_vars as nat);
    }
    let add_wbc = MultiPoly::tensor_add_poly(w_b_polynomial, w_c_polynomial);
    let mul_wbc = MultiPoly::tensor_mul_poly(w_b_polynomial, w_c_polynomial);
    let add_i_term = ProductPolynomial::new(vec![add_i_bc, add_wbc]);
    let mul_i_term = ProductPolynomial::new(vec![mul_i_bc, mul_wbc]);
    SumPolynomial::new(vec![add_i_term, mul_i_term])
}

/// The wiring tables folded with the two halves of the previous challenges:
/// `alpha` times the table fixed at `rb` plus `beta` times the table fixed at `rc`.
fn compute_new_add_i_mul_i(
    alpha: FieldElement,
    beta: FieldElement,
    add_i_abc: MultiPoly,
    mul_i_abc: MultiPoly,
    rb_values: &[FieldElement],
    rc_values: &[FieldElement],
) -> (r: (MultiPoly, MultiPoly))
    requires
        1 <= rb_values.len(),
        rb_values.len() == rc_values.len(),
        add_i_abc.evaluated_values.len() >= 2,
        mul_i_abc.evaluated_values.len() >= 2,
        rb_values.len() <= log2_floor(add_i_abc.evaluated_values.len() as nat),
        log2_floor(add_i_abc.evaluated_values.len() as nat) == log2_floor(
            mul_i_abc.evaluated_values.len() as nat,
        ),
    ensures
        r.0.wf(),
        r.1.wf(),
        r.0.num_vars == log2_floor(add_i_abc.evaluated_values.len() as nat) - rb_values.len(),
        r.1.num_vars == log2_floor(add_i_abc.evaluated_values.len() as nat) - rb_values.len(),
        r.0.table() == folded_table(
            add_i_abc.table(),
            alpha.val(),
            beta.val(),
            vals(rb_values@),
            vals(rc_values@),
        ),
        r.1.table() == folded_table(
            mul_i_abc.table(),
            alpha.val(),
            beta.val(),
            vals(rb_values@),
            vals(rc_values@),
        ),
{
    let ghost n = log2_floor(add_i_abc.evaluated_values.len() as nat);
    let ghost (ta, tm) = (add_i_abc.table(), mul_i_abc.table());
    let ghost (rb, rc) = (vals(rb_values@), vals(rc_values@));
    proof {
        assert(rb.subrange(0, 1).drop_last() =~= Seq::<nat>::empty());
        assert(rc.subrange(0, 1).drop_last() =~= Seq::<nat>::empty());
    }
    let mut add_rb_bc = MultiPoly::partial_evaluate(add_i_abc.evaluated_values.as_slice(), 0, rb_values[0]);
    let mut add_rc_bc = MultiPoly::partial_evaluate(add_i_abc.evaluated_values.as_slice(), 0, rc_values[0]);
    let mut mul_rb_bc = MultiPoly::partial_evaluate(mul_i_abc.evaluated_values.as_slice(), 0, rb_values[0]);
    let mut mul_rc_bc = MultiPoly::partial_evaluate(mul_i_abc.evaluated_values.as_slice(), 0, rc_values[0]);
    proof {
        let f1 = rb.subrange(0, 1);
        assert(f1.last() == rb_values[0].val());
        assert(fix_first_vars(ta, f1.drop_last()) == ta);
        assert(fix_first_vars(ta, f1) == partial_eval_table(ta, 0, rb_values[0].val()));
        assert(fix_first_vars(tm, f1.drop_last()) == tm);
        assert(fix_first_vars(tm, f1) == partial_eval_table(tm, 0, rb_values[0].val()));
        let g1 = rc.subrange(0, 1);
        assert(g1.last() == rc_values[0].val());
        assert(fix_first_vars(ta, g1.drop_last()) == ta);
        assert(fix_first_vars(ta, g1) == partial_eval_table(ta, 0, rc_values[0].val()));
        assert(fix_first_vars(tm, g1.drop_last()) == tm);
        assert(fix_first_vars(tm, g1) == partial_eval_table(tm, 0, rc_values[0].val()));
    }
    let mut k: usize = 1;
    while k < rb_values.len()
        invariant
            1 <= k <= rb_values.len(),
            rb_values.len() <= n,
            rb == vals(rb_values@),
            ta == add_i_abc.table(),
            tm == mul_i_abc.table(),
            add_rb_bc.wf(),
            mul_rb_bc.wf(),
            add_rb_bc.num_vars == n - k,
            mul_rb_bc.num_vars == n - k,
            add_rb_bc.table() == fix_first_vars(ta, rb.subrange(0, k as int)),
            mul_rb_bc.table() == fix_first_vars(tm, rb.subrange(0, k as int)),
        decreases rb_values.len() - k,
    {
        proof {
            lemma_log2_floor_pow2((n - k) as nat);
            lemma_pow2_pos((n - k) as nat);
            if n - k >= 1 {
                lemma_pow2_unfold((n - k) as nat);
                lemma_pow2_pos((n - k - 1) as nat);
            }
            let next = rb.subrange(0, k + 1);
            assert(next.drop_last() =~= rb.subrange(0, k as int));
            assert(next.last() == rb_values[k as int].val());
        }
        add_rb_bc = MultiPoly::partial_evaluate(add_rb_bc.evaluated_values.as_slice(), 0, rb_values[k]);
        mul_rb_bc = MultiPoly::partial_evaluate(mul_rb_bc.evaluated_values.as_slice(), 0, rb_values[k]);
        k = k + 1;
    }
    let mut k: usize = 1;
    while k < rc_values.len()
        invariant
            1 <= k <= rc_values.len(),
            rc_values.len() <= n,
            rc == vals(rc_values@),
            ta == add_i_abc.table(),
            tm == mul_i_abc.table(),
            add_rc_bc.wf(),
            mul_rc_bc.wf(),
            add_rc_bc.num_vars == n - k,
            mul_rc_bc.num_vars == n - k,
            add_rc_bc.table() == fix_first_vars(ta, rc.subrange(0, k as int)),
            mul_rc_bc.table() == fix_first_vars(tm, rc.subrange(0, k as int)),
        decreases rc_values.len() - k,
    {
        proof {
            lemma_log2_floor_pow2((n - k) as nat);
            lemma_pow2_pos((n - k) as nat);
            if n - k >= 1 {
                lemma_pow2_unfold((n - k) as nat);
                lemma_pow2_pos((n - k - 1) as nat);
            }
            let next = rc.subrange(0, k + 1);
            assert(next.drop_last() =~= rc.subrange(0, k as int));
            assert(next.last() == rc_values[k as int].val());
        }
        add_rc_bc = MultiPoly::partial_evaluate(add_rc_bc.evaluated_values.as_slice(), 0, rc_values[k]);
        mul_rc_bc = MultiPoly::partial_evaluate(mul_rc_bc.evaluated_values.as_slice(), 0, rc_values[k]);
        k = k + 1;
    }
    proof {
        assert(rb.subrange(0, rb.len() as int) =~= rb);
        assert(rc.subrange(0, rc.len() as int) =~= rc);
    }
    let new_add_i = MultiPoly::add_polynomials(&add_rb_bc.scalar_mul(alpha), &add_rc_bc.scalar_mul(beta));
    let new_mul_i = MultiPoly::add_polynomials(&mul_rb_bc.scalar_mul(alpha), &mul_rc_bc.scalar_mul(beta));
    proof {
        assert(new_add_i.table() =~= folded_table(ta, alpha.val(), beta.val(), rb, rc));
        assert(new_mul_i.table() =~= folded_table(tm, alpha.val(), beta.val(), rb, rc));
    }
    (new_add_i, new_mul_i)
}

/// `W_b` at the first half of the challenges and `W_c` at the second half.
fn evaluate_wb_wc(
    wb_poly: &MultiPoly,
    wc_poly: &MultiPoly,
    sumcheck_challenges: &[FieldElement],
) -> (r: (FieldElement, FieldElement))
    requires
        wb_poly.wf(),
        wc_poly.wf(),
        sumcheck_challenges.len() / 2 == wb_poly.num_vars,
        sumcheck_challenges.len() - sumcheck_challenges.len() / 2 == wc_poly.num_vars,
    ensures
        r.0.val() == mle_eval(
            wb_poly.table(),
            vals(sumcheck_challenges@).subrange(0, (sumcheck_challenges.len() / 2) as int),
        ),
        r.1.val() == mle_eval(
            wc_poly.table(),
            vals(sumcheck_challenges@).subrange(
                (sumcheck_challenges.len() / 2) as int,
                sumcheck_challenges.len() as int,
            ),
        ),
{
    let (rb_values, rc_values) = split_halves(sumcheck_challenges);
    let wb_poly_evaluated = wb_poly.evaluate(rb_values.as_slice());
    let wc_poly_evaluated = wc_poly.evaluate(rc_values.as_slice());
    proof {
        assert(vals(rb_values@) =~= vals(sumcheck_challenges@).subrange(
            0,
            (sumcheck_challenges.len() / 2) as int,
        ));
        assert(vals(rc_values@) =~= vals(sumcheck_challenges@).subrange(
            (sumcheck_challenges.len() / 2) as int,
            sumcheck_challenges.len() as int,
        ));
    }
    (wb_poly_evaluated, wc_poly_evaluated)
}

/// `add (wb + wc) + mul (wb wc)`.
fn combine_claim(add_r: FieldElement, mul_r: FieldElement, wb: FieldElement, wc: FieldElement) -> (r:
    FieldElement)
    ensures
        r.val() == wiring_claim(add_r.val(), mul_r.val(), wb.val(), wc.val()),
{
    ark_add(ark_mul(add_r, ark_add(wb, wc)), ark_mul(mul_r, ark_mul(wb, wc)))
}

/// The claim the verifier expects at the end of the first layer's sum-check: the
/// wiring tables with the output variable fixed to `initial_random_challenge`,
/// taken at the sum-check challenges, combined with the two evaluations.
fn compute_verifier_initial_claim(
    circuit: &mut Circuit,
    layer_index: usize,
    initial_random_challenge: FieldElement,
    sumcheck_challenges: &[FieldElement],
    wb_evaluation: FieldElement,
    wc_evaluation: FieldElement,
) -> (r: FieldElement)
    requires
        layer_index < old(circuit).layers.len(),
        layer_variables(layer_index as nat) < usize::BITS,
        forall|g: int|
            0 <= g < old(circuit).layers@[layer_index as int].gates.len() ==> crate::new_circuit::gate_index(
                layer_index as nat,
                #[trigger] old(circuit).layers@[layer_index as int].gates@[g],
            ) < pow2(layer_variables(layer_index as nat)),
        sumcheck_challenges.len() + 1 == layer_variables(layer_index as nat),
    ensures
        *final(circuit) == *old(circuit),
        r.val() == wiring_claim(
            mle_eval(
                partial_eval_table(
                    wiring_table(
                        old(circuit).layers@[layer_index as int].gates@,
                        layer_index as nat,
                        Operator::Add,
                    ),
                    0,
                    initial_random_challenge.val(),
                ),
                vals(sumcheck_challenges@),
            ),
            mle_eval(
                partial_eval_table(
                    wiring_table(
                        old(circuit).layers@[layer_index as int].gates@,
                        layer_index as nat,
                        Operator::Mul,
                    ),
                    0,
                    initial_random_challenge.val(),
                ),
                vals(sumcheck_challenges@),
            ),
            wb_evaluation.val(),
            wc_evaluation.val(),
        ),
{
    let ghost gates = circuit.layers@[layer_index as int].gates@;
    let ghost nv = layer_variables(layer_index as nat);
    let (add_i_abc, mul_i_abc) = circuit.add_i_and_mul_i_mle(layer_index);
    proof {
        lemma_log2_floor_pow2(nv);
        lemma_pow2_unfold(nv);
        lemma_pow2_pos((nv - 1) as nat);
        assert(add_i_abc.table() =~= wiring_table(gates, layer_index as nat, Operator::Add));
        assert(mul_i_abc.table() =~= wiring_table(gates, layer_index as nat, Operator::Mul));
    }
    let add_i_bc = MultiPoly::partial_evaluate(add_i_abc.evaluated_values.as_slice(), 0, initial_random_challenge);
    let mul_i_bc = MultiPoly::partial_evaluate(mul_i_abc.evaluated_values.as_slice(), 0, initial_random_challenge);
    let add_i_r = add_i_bc.evaluate(sumcheck_challenges);
    let mul_i_r = mul_i_bc.evaluate(sumcheck_challenges);
    combine_claim(add_i_r, mul_i_r, wb_evaluation, wc_evaluation)
}

/// The claim the verifier expects at the end of a later layer's sum-check: the
/// wiring tables folded with the two halves of the previous layer's challenges,
/// taken at the current challenges, combined with the two evaluations.
fn compute_verifier_folded_claim(
    circuit: &mut Circuit,
    layer_index: usize,
    current_sumcheck_challenges: &[FieldElement],
    previous_sumcheck_challenges: &[FieldElement],
    wb_evaluation: FieldElement,
    wc_evaluation: FieldElement,
    alpha: FieldElement,
    beta: FieldElement,
) -> (r: FieldElement)
    requires
        layer_index < old(circuit).layers.len(),
        layer_variables(layer_index as nat) < usize::BITS,
        forall|g: int|
            0 <= g < old(circuit).layers@[layer_index as int].gates.len() ==> crate::new_circuit::gate_index(
                layer_index as nat,
                #[trigger] old(circuit).layers@[layer_index as int].gates@[g],
            ) < pow2(layer_variables(layer_index as nat)),
        previous_sumcheck_challenges.len() >= 2,
        previous_sumcheck_challenges.len() % 2 == 0,
        previous_sumcheck_challenges.len() / 2 <= layer_variables(layer_index as nat),
        current_sumcheck_challenges.len() + previous_sumcheck_challenges.len() / 2
            == layer_variables(layer_index as nat),
    ensures
        *final(circuit) == *old(circuit),
        ({
            let prev = vals(previous_sumcheck_challenges@);
            let h = previous_sumcheck_challenges.len() / 2;
            let gates = old(circuit).layers@[layer_index as int].gates@;
            let li = layer_index as nat;
            r.val() == wiring_claim(
                mle_eval(
                    folded_table(
                        wiring_table(gates, li, Operator::Add),
                        alpha.val(),
                        beta.val(),
                        prev.subrange(0, h as int),
                        prev.subrange(h as int, prev.len() as int),
                    ),
                    vals(current_sumcheck_challenges@),
                ),
                mle_eval(
                    folded_table(
                        wiring_table(gates, li, Operator::Mul),
                        alpha.val(),
                        beta.val(),
                        prev.subrange(0, h as int),
                        prev.subrange(h as int, prev.len() as int),
                    ),
                    vals(current_sumcheck_challenges@),
                ),
                wb_evaluation.val(),
                wc_evaluation.val(),
            )
        }),
{
    let ghost gates = circuit.layers@[layer_index as int].gates@;
    let ghost nv = layer_variables(layer_index as nat);
    let (prev_rb, prev_rc) = split_halves(previous_sumcheck_challenges);
    let (add_i_abc, mul_i_abc) = circuit.add_i_and_mul_i_mle(layer_index);
    proof {
        lemma_log2_floor_pow2(nv);
        lemma_pow2_unfold(nv);
        lemma_pow2_pos((nv - 1) as nat);
        assert(add_i_abc.table() =~= wiring_table(gates, layer_index as nat, Operator::Add));
        assert(mul_i_abc.table() =~= wiring_table(gates, layer_index as nat, Operator::Mul));
        assert(vals(prev_rb@) =~= vals(previous_sumcheck_challenges@).subrange(
            0,
            (previous_sumcheck_challenges.len() / 2) as int,
        ));
        assert(vals(prev_rc@) =~= vals(previous_sumcheck_challenges@).subrange(
            (previous_sumcheck_challenges.len() / 2) as int,
            previous_sumcheck_challenges.len() as int,
        ));
    }
    let (new_add_i, new_mul_i) = compute_new_add_i_mul_i(
        alpha,
        beta,
        add_i_abc,
        mul_i_abc,
        prev_rb.as_slice(),
        prev_rc.as_slice(),
    );
    let add_r = new_add_i.evaluate(current_sumcheck_challenges);
    let mul_r = new_mul_i.evaluate(current_sumcheck_challenges);
    combine_claim(add_r, mul_r, wb_evaluation, wc_evaluation)
}

/// A copy of a multilinear polynomial.
fn copy_poly(p: &MultiPoly) -> (r: MultiPoly)
    ensures
        r.evaluated_values@ == p.evaluated_values@,
        r.num_vars == p.num_vars,
{
    MultiPoly { evaluated_values: copy_elements(p.evaluated_values.as_slice()), num_vars: p.num_vars }
}

/// The output level's table as the protocol reads it: a single value is padded
/// with a zero to make a table in one variable.
pub open spec fn output_table(values: Seq<nat>) -> Seq<nat> {
    if values.len() == 1 {
        values.push(0)
    } else {
        values
    }
}

/// Every layer's wiring polynomials fit: their number of variables is below
/// `usize::BITS` and every gate's index is inside the table.
pub open spec fn wiring_fits(layers: Seq<Layer>) -> bool {
    forall|i: int|
        0 <= i < layers.len() ==> layer_variables(i as nat) < usize::BITS && forall|g: int|
            0 <= g < (#[trigger] layers[i]).gates.len() ==> gate_index(
                i as nat,
                layers[i].gates@[g],
            ) < pow2(layer_variables(i as nat))
}

/// The shape the prover needs: at least one layer, gates reading inside the level
/// below, an output of one or two values, level `j` (for `1 <= j`) of `2^j` values
/// with the input as the last level, and wiring polynomials that fit.
pub open spec fn gkr_shape(layers: Seq<Layer>, input_len: nat) -> bool {
    &&& layers.len() >= 1
    &&& well_wired(layers, input_len)
    &&& input_len == pow2(layers.len() as nat)
    &&& max_output(layers[0].gates@) + 1 <= 2
    &&& forall|j: int| 1 <= j < layers.len() ==> max_output(#[trigger] layers[j].gates@) + 1 == pow2(j as nat)
    &&& wiring_fits(layers)
}

/// The claim that layer `i`'s wiring gives at the challenges `ch`: the wiring tables
/// with the output variable fixed to `ra` for the first layer, else folded with
/// `alpha`, `beta` and the two halves of the previous challenges `prev`.
pub open spec fn layer_claim(
    gates: Seq<Gate>,
    i: nat,
    ra: nat,
    alpha: nat,
    beta: nat,
    prev: Seq<nat>,
    ch: Seq<nat>,
    wb: nat,
    wc: nat,
) -> nat {
    if i == 0 {
        wiring_claim(
            mle_eval(partial_eval_table(wiring_table(gates, 0, Operator::Add), 0, ra), ch),
            mle_eval(partial_eval_table(wiring_table(gates, 0, Operator::Mul), 0, ra), ch),
            wb,
            wc,
        )
    } else {
        let h = prev.len() / 2;
        let (rb, rc) = (prev.subrange(0, h as int), prev.subrange(h as int, prev.len() as int));
        wiring_claim(
            mle_eval(folded_table(wiring_table(gates, i, Operator::Add), alpha, beta, rb, rc), ch),
            mle_eval(folded_table(wiring_table(gates, i, Operator::Mul), alpha, beta, rb, rc), ch),
            wb,
            wc,
        )
    }
}

/// The verifier's state between layers: whether it still accepts, the running
/// claim, the folding challenges `alpha` and `beta`, the previous sum-check's
/// challenges and the transcript.
pub type GkrRun = (bool, nat, nat, nat, Seq<nat>, Seq<u8>);

/// The verifier's work on layer `i` from state `s`: the proof must hold a sum-check
/// for the layer, which must start from the running claim and pass with two
/// challenges per level-below variable (`2 (i + 1)`), the proof must hold the
/// layer's evaluations unless it is the last, and its last claim must be the one the wiring gives with
/// the evaluations of the level below (sent in the proof, or taken from the input
/// for the last layer); then the evaluations are absorbed, two challenges drawn,
/// and they fold the evaluations into the next claim.
pub open spec fn verifier_step(
    layers: Seq<Layer>,
    proof: GKRProof,
    inputs: Seq<nat>,
    ra: nat,
    i: int,
    s: GkrRun,
) -> GkrRun {
    let sc = proof.sumcheck_proofs@[i];
    let claimed = sc.claimed_sum.val();
    if !s.0 {
        s
    } else if i >= proof.sumcheck_proofs.len() || s.1 != claimed {
        (false, s.1, s.2, s.3, s.4, s.5)
    } else {
        let vp = verifier_pass(
            s.5 + be_bytes(claimed, 32),
            claimed,
            poly_terms(sc.round_univariate_polynomials@),
        );
        let ch = vp.1;
        let h = ch.len() / 2;
        let last = i == layers.len() - 1;
        let wb = if last {
            mle_eval(inputs, ch.subrange(0, h as int))
        } else {
            proof.wb_evals@[i].val()
        };
        let wc = if last {
            mle_eval(inputs, ch.subrange(h as int, ch.len() as int))
        } else {
            proof.wc_evals@[i].val()
        };
        let shaped = ch.len() == 2 * (i + 1) && (last || (i < proof.wb_evals.len() && i
            < proof.wc_evals.len()));
        if !vp.0 || !shaped || layer_claim(layers[i].gates@, i as nat, ra, s.2, s.3, s.4, ch, wb, wc)
            != vp.2 {
            (false, s.1, s.2, s.3, s.4, vp.3)
        } else {
            let t1 = vp.3 + be_bytes(wb, 32);
            let t2 = challenge_of(t1) + be_bytes(wc, 32);
            let (a, b) = (sampled_of(t1), sampled_of(t2));
            (true, fadd(fmul(a, wb), fmul(b, wc)), a, b, ch, challenge_of(t2))
        }
    }
}

/// The verifier's state after the first `k` layers, from state `s`.
pub open spec fn verifier_run(
    layers: Seq<Layer>,
    proof: GKRProof,
    inputs: Seq<nat>,
    ra: nat,
    k: int,
    s: GkrRun,
) -> GkrRun
    decreases k,
{
    if k <= 0 {
        s
    } else {
        verifier_step(layers, proof, inputs, ra, k - 1, verifier_run(layers, proof, inputs, ra, k - 1, s))
    }
}

/// The verifier's state before the first layer, from transcript `state` and the
/// output level's values: the output table absorbed, a challenge `ra` drawn, and
/// the claim the output table's value at `ra`.
pub open spec fn verifier_start(state: Seq<u8>, output: Seq<nat>) -> (nat, GkrRun) {
    let t = output_table(output);
    let st = state + encode_elements(t);
    let ra = sampled_of(st);
    (ra, (true, mle_eval(t, seq![ra]), 0, 0, Seq::empty(), challenge_of(st)))
}

/// Whether the verifier accepts `proof` for `layers`, `inputs` and the output level
/// `output`, starting from transcript `state`, and the transcript it leaves.
pub open spec fn gkr_verdict(
    layers: Seq<Layer>,
    proof: GKRProof,
    inputs: Seq<nat>,
    output: Seq<nat>,
    state: Seq<u8>,
) -> (bool, Seq<u8>) {
    let start = verifier_start(state, output);
    let run = verifier_run(layers, proof, inputs, start.0, layers.len() as int, start.1);
    (run.0, run.5)
}

/// Layer `i`'s wiring table for operator `op` as its sum-check sums it: with the
/// output variable fixed to `ra` for the first layer, else folded with `alpha`,
/// `beta` and the two halves of the previous challenges `prev`.
pub open spec fn layer_wiring(
    gates: Seq<Gate>,
    i: nat,
    op: Operator,
    ra: nat,
    alpha: nat,
    beta: nat,
    prev: Seq<nat>,
) -> Seq<nat> {
    if i == 0 {
        partial_eval_table(wiring_table(gates, 0, op), 0, ra)
    } else {
        let h = prev.len() / 2;
        folded_table(
            wiring_table(gates, i, op),
            alpha,
            beta,
            prev.subrange(0, h as int),
            prev.subrange(h as int, prev.len() as int),
        )
    }
}

/// The tables of layer `i`'s sum-check polynomial
/// `add (W(b) + W(c)) + mul (W(b) W(c))`, `w` being the level below.
pub open spec fn layer_tables(
    gates: Seq<Gate>,
    i: nat,
    ra: nat,
    alpha: nat,
    beta: nat,
    prev: Seq<nat>,
    w: Seq<nat>,
) -> Seq<Seq<Seq<nat>>> {
    seq![
        seq![layer_wiring(gates, i, Operator::Add, ra, alpha, beta, prev), tensor_table(w, w, true)],
        seq![layer_wiring(gates, i, Operator::Mul, ra, alpha, beta, prev), tensor_table(w, w, false)],
    ]
}

/// The prover's state before layer `i`, read off the sum-check proofs `scs` and the
/// evaluations `wbs`, `wcs` it produced for the layers before: the running claim,
/// the folding challenges, the previous challenges and the transcript, from
/// transcript `t0` and the output level `output`.
pub open spec fn prover_state(
    scs: Seq<SumcheckProver>,
    wbs: Seq<FieldElement>,
    wcs: Seq<FieldElement>,
    t0: Seq<u8>,
    output: Seq<nat>,
    i: int,
) -> GkrRun
    decreases i,
{
    if i <= 0 {
        verifier_start(t0, output).1
    } else {
        let s = prover_state(scs, wbs, wcs, t0, output, i - 1);
        let sc = scs[i - 1];
        let t = chain_state(s.5 + be_bytes(s.1, 32), poly_terms(sc.round_univariate_polynomials@));
        let (wb, wc) = (wbs[i - 1].val(), wcs[i - 1].val());
        let t1 = t + be_bytes(wb, 32);
        let t2 = challenge_of(t1) + be_bytes(wc, 32);
        let (a, b) = (sampled_of(t1), sampled_of(t2));
        (true, fadd(fmul(a, wb), fmul(b, wc)), a, b, vals(sc.random_challenges@), challenge_of(t2))
    }
}

/// The prover's state before layer `i` depends only on what came before it.
proof fn lemma_prover_state_prefix(
    scs: Seq<SumcheckProver>,
    wbs: Seq<FieldElement>,
    wcs: Seq<FieldElement>,
    scs2: Seq<SumcheckProver>,
    wbs2: Seq<FieldElement>,
    wcs2: Seq<FieldElement>,
    t0: Seq<u8>,
    output: Seq<nat>,
    i: int,
)
    requires
        forall|j: int| 0 <= j < i ==> scs[j] == scs2[j] && wbs[j] == wbs2[j] && wcs[j] == wcs2[j],
    ensures
        prover_state(scs, wbs, wcs, t0, output, i) == prover_state(scs2, wbs2, wcs2, t0, output, i),
    decreases i,
{
    if i > 0 {
        lemma_prover_state_prefix(scs, wbs, wcs, scs2, wbs2, wcs2, t0, output, i - 1);
        assert(scs[i - 1] == scs2[i - 1] && wbs[i - 1] == wbs2[i - 1] && wcs[i - 1] == wcs2[i - 1]);
    }
}

/// Layer `i`'s sum-check in the proof was made by the sum-check prover from the
/// prover's state `s`: it starts from the running claim, its challenges are the
/// transcript's, and each round polynomial interpolates the round sums of the
/// layer's sum-check polynomial (of degree two) with the earlier challenges fixed.
#[verifier::opaque]
pub open spec fn honest_layer(
    sc: SumcheckProver,
    gates: Seq<Gate>,
    i: nat,
    ra: nat,
    s: GkrRun,
    w: Seq<nat>,
) -> bool {
    let polys = poly_terms(sc.round_univariate_polynomials@);
    let ch = vals(sc.random_challenges@);
    &&& sc.claimed_sum.val() == s.1
    &&& ch == chain_challenges(s.5 + be_bytes(s.1, 32), polys)
    &&& forall|k: int|
        0 <= k < polys.len() ==> interpolates_round(
            #[trigger] polys[k],
            fix_vars(layer_tables(gates, i, ra, s.2, s.3, s.4, w), ch.take(k)),
            2,
        )
}

/// What `prove_gkr` gives for `layers` on `inputs` from transcript `t0`: one
/// sum-check per layer made honestly from the prover's state, with `2 (i + 1)`
/// rounds and challenges, and, below the last layer, the level below's values at
/// the two halves of the challenges.
#[verifier::opaque]
pub open spec fn honest_proof(layers: Seq<Layer>, inputs: Seq<nat>, proof: GKRProof, t0: Seq<u8>) -> bool {
    let n = layers.len() as int;
    let out = layer_values(layers, inputs, 0);
    let ra = verifier_start(t0, out).0;
    &&& proof.sumcheck_proofs.len() == n
    &&& proof.wb_evals.len() == n - 1
    &&& proof.wc_evals.len() == n - 1
    &&& forall|i: int|
        0 <= i < n ==> honest_layer(
            #[trigger] proof.sumcheck_proofs@[i],
            layers[i].gates@,
            i as nat,
            ra,
            prover_state(proof.sumcheck_proofs@, proof.wb_evals@, proof.wc_evals@, t0, out, i),
            layer_values(layers, inputs, i + 1),
        )
    &&& forall|i: int|
        0 <= i < n ==> (#[trigger] proof.sumcheck_proofs@[i]).random_challenges.len() == 2 * (i + 1)
            && proof.sumcheck_proofs@[i].round_univariate_polynomials.len() == 2 * (i + 1)
    &&& forall|i: int|
        0 <= i < n - 1 ==> (#[trigger] proof.wb_evals@[i]).val() == mle_eval(
            layer_values(layers, inputs, i + 1),
            vals(proof.sumcheck_proofs@[i].random_challenges@).subrange(0, i + 1),
        ) && proof.wc_evals@[i].val() == mle_eval(
            layer_values(layers, inputs, i + 1),
            vals(proof.sumcheck_proofs@[i].random_challenges@).subrange(i + 1, 2 * (i + 1)),
        )
}

/// Once the verifier has refused, later layers change nothing.
proof fn lemma_refusal_stays(
    layers: Seq<Layer>,
    proof: GKRProof,
    inputs: Seq<nat>,
    ra: nat,
    k: int,
    m: int,
    s: GkrRun,
)
    requires
        0 <= k <= m,
        !verifier_run(layers, proof, inputs, ra, k, s).0,
    ensures
        verifier_run(layers, proof, inputs, ra, m, s) == verifier_run(layers, proof, inputs, ra, k, s),
    decreases m - k,
{
    if k < m {
        lemma_refusal_stays(layers, proof, inputs, ra, k, m - 1, s);
    }
}

/// The verifier's state before layer `i`, from transcript `state` and the output
/// level `output`.
pub open spec fn run_before(
    layers: Seq<Layer>,
    proof: GKRProof,
    inputs: Seq<nat>,
    output: Seq<nat>,
    state: Seq<u8>,
    i: int,
) -> GkrRun {
    let start = verifier_start(state, output);
    verifier_run(layers, proof, inputs, start.0, i, start.1)
}

/// What an accepting GKR verdict has checked, layer by layer: the proof holds a
/// sum-check for every layer, each starts from the running claim the layer above
/// left (the output table's value at `ra` for the first), passes with two challenges
/// per variable of the level below, and ends at the claim the layer's wiring gives
/// with the level below's evaluations: those sent in the proof, and for the last
/// layer the multilinear extension of the inputs at the two halves of its challenges.
pub proof fn lemma_gkr_accept_checks(
    layers: Seq<Layer>,
    proof: GKRProof,
    inputs: Seq<nat>,
    output: Seq<nat>,
    state: Seq<u8>,
)
    ensures
        gkr_verdict(layers, proof, inputs, output, state).0 ==> forall|i: int|
            0 <= i < layers.len() ==> {
                let start = verifier_start(state, output);
                let s = #[trigger] run_before(layers, proof, inputs, output, state, i);
                let sc = proof.sumcheck_proofs@[i];
                let claimed = sc.claimed_sum.val();
                let vp = verifier_pass(
                    s.5 + be_bytes(claimed, 32),
                    claimed,
                    poly_terms(sc.round_univariate_polynomials@),
                );
                let ch = vp.1;
                let h = ch.len() / 2;
                let last = i == layers.len() - 1;
                let wb = if last {
                    mle_eval(inputs, ch.subrange(0, h as int))
                } else {
                    proof.wb_evals@[i].val()
                };
                let wc = if last {
                    mle_eval(inputs, ch.subrange(h as int, ch.len() as int))
                } else {
                    proof.wc_evals@[i].val()
                };
                &&& s.0
                &&& i < proof.sumcheck_proofs.len()
                &&& s.1 == claimed
                &&& (i == 0 ==> s.1 == mle_eval(output_table(output), seq![start.0]))
                &&& vp.0
                &&& ch.len() == 2 * (i + 1)
                &&& (last || (i < proof.wb_evals.len() && i < proof.wc_evals.len()))
                &&& layer_claim(layers[i].gates@, i as nat, start.0, s.2, s.3, s.4, ch, wb, wc) == vp.2
            },
{
    let start = verifier_start(state, output);
    let n = layers.len() as int;
    if gkr_verdict(layers, proof, inputs, output, state).0 {
        assert forall|i: int| 0 <= i < n implies {
            let s = #[trigger] run_before(layers, proof, inputs, output, state, i);
            &&& s.0
            &&& verifier_step(layers, proof, inputs, start.0, i, s).0
        } by {
            if !verifier_run(layers, proof, inputs, start.0, i + 1, start.1).0 {
                lemma_refusal_stays(layers, proof, inputs, start.0, i + 1, n, start.1);
            }
            if !verifier_run(layers, proof, inputs, start.0, i, start.1).0 {
                lemma_refusal_stays(layers, proof, inputs, start.0, i, i + 1, start.1);
            }
        }
    }
}

/// The challenges of an accepting pass are as many as the round polynomials.
proof fn lemma_pass_challenges_len(state: Seq<u8>, claimed: nat, polys: Seq<Seq<(nat, nat)>>)
    ensures
        verifier_pass(state, claimed, polys).0 ==> verifier_pass(state, claimed, polys).1.len()
            == polys.len(),
    decreases polys.len(),
{
    if polys.len() > 0 {
        lemma_pass_challenges_len(state, claimed, polys.drop_last());
    }
}

/// The number of values of each level of a circuit of the shape the prover needs.
pub proof fn lemma_level_len(layers: Seq<Layer>, input: Seq<nat>, j: int)
    requires
        gkr_shape(layers, input.len()),
        0 <= j <= layers.len(),
    ensures
        j == 0 ==> layer_values(layers, input, j).len() == max_output(layers[0].gates@) + 1,
        j >= 1 ==> layer_values(layers, input, j).len() == pow2(j as nat),
{
    if j >= 1 && j < layers.len() {
        assert(max_output(layers[j].gates@) + 1 == pow2(j as nat));
    }
}

/// Layer `layer_index`'s sum-check: the wiring tables (fixed at `ra` for the first
/// layer, else folded with `alpha`, `beta` and the previous challenges `rb`, `rc`),
/// times the sum and the product of the level below, summed from the running claim.
/// Returns the sum-check proof and the level below's polynomial.
fn prove_layer(
    circuit: &Circuit,
    layer_index: usize,
    ra: FieldElement,
    alpha: FieldElement,
    beta: FieldElement,
    rb_values: &[FieldElement],
    rc_values: &[FieldElement],
    claimed_sum: FieldElement,
    transcript: &mut FiatShamirTranscript,
    Ghost(ls): Ghost<Seq<Layer>>,
    Ghost(iv): Ghost<Seq<nat>>,
    Ghost(prev): Ghost<Seq<nat>>,
) -> (r: (SumcheckProver, MultiPoly))
    requires
        gkr_shape(ls, iv.len()),
        circuit.layers@ == ls,
        layer_index < ls.len(),
        circuit.layer_evaluations.len() == ls.len() + 1,
        forall|j: int|
            0 <= j <= ls.len() ==> vals(#[trigger] circuit.layer_evaluations@[j]@) == layer_values(
                ls,
                iv,
                j,
            ),
        layer_index >= 1 ==> prev.len() == 2 * layer_index && vals(rb_values@) == prev.subrange(
            0,
            layer_index as int,
        ) && vals(rc_values@) == prev.subrange(layer_index as int, 2 * layer_index),
    ensures
        honest_layer(
            r.0,
            ls[layer_index as int].gates@,
            layer_index as nat,
            ra.val(),
            (true, claimed_sum.val(), alpha.val(), beta.val(), prev, old(transcript)@),
            layer_values(ls, iv, layer_index + 1),
        ),
        final(transcript)@ == chain_state(
            old(transcript)@ + be_bytes(claimed_sum.val(), 32),
            poly_terms(r.0.round_univariate_polynomials@),
        ),
        r.0.random_challenges.len() == 2 * (layer_index + 1),
        r.0.round_univariate_polynomials.len() == 2 * (layer_index + 1),
        r.1.wf(),
        r.1.num_vars == layer_index + 1,
        r.1.table() == layer_values(ls, iv, layer_index + 1),
{
    let ghost li = layer_index as nat;
    let ghost gates = ls[layer_index as int].gates@;
    proof {
        assert(ls[layer_index as int] == circuit.layers@[layer_index as int]);
        assert(wiring_fits(ls));
        assert(layer_variables(li) < usize::BITS);
        lemma_log2_floor_pow2(layer_variables(li));
        lemma_pow2_unfold(layer_variables(li));
        lemma_pow2_pos((layer_variables(li) - 1) as nat);
    }
    let (add_i_abc_polynomial, mul_i_abc_polynomial) = circuit.add_i_and_mul_i_mle(layer_index);
    proof {
        assert(add_i_abc_polynomial.table() =~= wiring_table(gates, li, Operator::Add));
        assert(mul_i_abc_polynomial.table() =~= wiring_table(gates, li, Operator::Mul));
    }
    proof {
        assert(vals(rb_values@).len() == rb_values.len());
        assert(vals(rc_values@).len() == rc_values.len());
    }
    let (add_i_bc, mul_i_bc) = if layer_index == 0 {
        (
            MultiPoly::partial_evaluate(add_i_abc_polynomial.evaluated_values.as_slice(), 0, ra),
            MultiPoly::partial_evaluate(mul_i_abc_polynomial.evaluated_values.as_slice(), 0, ra),
        )
    } else {
        compute_new_add_i_mul_i(
            alpha,
            beta,
            add_i_abc_polynomial,
            mul_i_abc_polynomial,
            rb_values,
            rc_values,
        )
    };
    proof {
        assert(add_i_bc.table() == layer_wiring(gates, li, Operator::Add, ra.val(), alpha.val(), beta.val(), prev));
        assert(mul_i_bc.table() == layer_wiring(gates, li, Operator::Mul, ra.val(), alpha.val(), beta.val(), prev));
        lemma_level_len(ls, iv, layer_index + 1);
        lemma_log2_floor_pow2((layer_index + 1) as nat);
        lemma_pow2_pos((layer_index + 1) as nat);
        assert(circuit.layer_evaluations@[layer_index + 1]@.len() == vals(
            circuit.layer_evaluations@[layer_index + 1]@,
        ).len());
    }
    let wb_poly = circuit.w_i_polynomial(layer_index + 1);
    let wc_poly = copy_poly(&wb_poly);
    let ghost w = layer_values(ls, iv, layer_index + 1);
    proof {
        assert(wb_poly.table() == w);
        assert(wc_poly.table() == w);
    }
    let fbc_polynomial = compute_fbc_polynomial(add_i_bc, mul_i_bc, &wb_poly, &wc_poly);
    proof {
        let ps = fbc_polynomial.products();
        let nv = ps[0].polynomials[0].num_vars as nat;
        assert forall|k: int| 0 <= k < ps.len() implies crate::product_poly::all_in_vars(
            #[trigger] ps[k].polynomials@,
            nv,
        ) by {
            assert forall|j: int| 0 <= j < ps[k].polynomials@.len() implies (
            #[trigger] ps[k].polynomials@[j]).wf() && ps[k].polynomials@[j].num_vars == nv by {
                assert(j == 0 || j == 1);
                assert(k == 0 || k == 1);
            }
        }
        let lt = layer_tables(gates, li, ra.val(), alpha.val(), beta.val(), prev, w);
        let pt = crate::sum_all_polys::product_tables(ps);
        assert(pt.len() == 2 && lt.len() == 2);
        assert(pt[0] =~= lt[0]);
        assert(pt[1] =~= lt[1]);
        assert(pt =~= lt);
    }
    let sumcheck_proof = sumcheck_prove(fbc_polynomial, claimed_sum, transcript);
    proof {
        reveal(honest_layer);
    }
    (sumcheck_proof, wb_poly)
}

/// Runs the GKR prover on `circuit` for `inputs`, absorbing into `transcript`: the
/// output level's table, a challenge at which it is evaluated for the first claim,
/// then per layer a sum-check of the wiring polynomial and, below the last layer,
/// the evaluations of the level below at the two halves of the challenges and two
/// challenges that fold them into the next claim.
#[verifier::rlimit(100)]
#[verifier::spinoff_prover]
pub fn prove_gkr(
    circuit: &mut Circuit,
    inputs: &[FieldElement],
    transcript: &mut FiatShamirTranscript,
) -> (r: GKRProof)
    requires
        gkr_shape(old(circuit).layers@, inputs.len() as nat),
    ensures
        final(circuit).layers@ == old(circuit).layers@,
        final(circuit).layer_evaluations.len() == old(circuit).layers.len() + 1,
        forall|j: int|
            0 <= j <= old(circuit).layers.len() ==> vals(
                #[trigger] final(circuit).layer_evaluations@[j]@,
            ) == layer_values(old(circuit).layers@, vals(inputs@), j),
        r.claimed_output.val() == layer_values(old(circuit).layers@, vals(inputs@), 0)[0],
        r.sumcheck_proofs.len() == old(circuit).layers.len(),
        r.wb_evals.len() == old(circuit).layers.len() - 1,
        r.wc_evals.len() == old(circuit).layers.len() - 1,
        forall|i: int|
            0 <= i < old(circuit).layers.len() ==> honest_layer(
                #[trigger] r.sumcheck_proofs@[i],
                old(circuit).layers@[i].gates@,
                i as nat,
                verifier_start(old(transcript)@, layer_values(old(circuit).layers@, vals(inputs@), 0)).0,
                prover_state(
                    r.sumcheck_proofs@,
                    r.wb_evals@,
                    r.wc_evals@,
                    old(transcript)@,
                    layer_values(old(circuit).layers@, vals(inputs@), 0),
                    i,
                ),
                layer_values(old(circuit).layers@, vals(inputs@), i + 1),
            ),
        ({
            let last = prover_state(
                r.sumcheck_proofs@,
                r.wb_evals@,
                r.wc_evals@,
                old(transcript)@,
                layer_values(old(circuit).layers@, vals(inputs@), 0),
                old(circuit).layers.len() - 1,
            );
            final(transcript)@ == chain_state(
                last.5 + be_bytes(last.1, 32),
                poly_terms(r.sumcheck_proofs@[old(circuit).layers.len() - 1].round_univariate_polynomials@),
            )
        }),
        forall|i: int|
            0 <= i < old(circuit).layers.len() ==> (#[trigger] r.sumcheck_proofs@[i]).random_challenges.len()
                == 2 * (i + 1) && r.sumcheck_proofs@[i].round_univariate_polynomials.len() == 2 * (
            i + 1),
        forall|i: int|
            0 <= i < r.wb_evals.len() ==> (#[trigger] r.wb_evals@[i]).val() == mle_eval(
                layer_values(old(circuit).layers@, vals(inputs@), i + 1),
                vals(r.sumcheck_proofs@[i].random_challenges@).subrange(0, i + 1),
            ),
        forall|i: int|
            0 <= i < r.wc_evals.len() ==> (#[trigger] r.wc_evals@[i]).val() == mle_eval(
                layer_values(old(circuit).layers@, vals(inputs@), i + 1),
                vals(r.sumcheck_proofs@[i].random_challenges@).subrange(i + 1, 2 * (i + 1)),
            ),
        honest_proof(old(circuit).layers@, vals(inputs@), r, old(transcript)@),
{
    let ghost ls = circuit.layers@;
    let ghost iv = vals(inputs@);
    let ghost t0 = transcript@;
    let output = circuit.evaluate(copy_elements(inputs));
    proof {
        lemma_level_len(ls, iv, 0);
        assert(vals(circuit.layer_evaluations@[0]@) == layer_values(ls, iv, 0));
    }
    let mut sumcheck_proofs: Vec<SumcheckProver> = Vec::new();
    let mut wb_evals: Vec<FieldElement> = Vec::new();
    let mut wc_evals: Vec<FieldElement> = Vec::new();
    let mut alpha = ark_zero();
    let mut beta = ark_zero();
    let mut rb_values: Vec<FieldElement> = Vec::new();
    let mut rc_values: Vec<FieldElement> = Vec::new();
    proof {
        lemma_log2_floor_pow2(0);
        lemma_log2_floor_pow2(1);
        lemma2_to64();
    }
    let mut w0_polynomial = circuit.w_i_polynomial(0);
    if w0_polynomial.evaluated_values.len() == 1 {
        let mut w0_padded_with_zero = copy_elements(w0_polynomial.evaluated_values.as_slice());
        w0_padded_with_zero.push(ark_zero());
        w0_polynomial = MultiPoly::new(1, w0_padded_with_zero);
    }
    proof {
        assert(w0_polynomial.table() =~= output_table(layer_values(ls, iv, 0)));
    }
    let w0_bytes = w0_polynomial.convert_to_bytes();
    transcript.absorb(w0_bytes.as_slice());
    let random_challenge_a = transcript.sample_field_element();
    let point: Vec<FieldElement> = vec![random_challenge_a];
    let mut claimed_sum = w0_polynomial.evaluate(point.as_slice());
    proof {
        assert(vals(point@) =~= seq![random_challenge_a.val()]);
    }
    let ghost out0 = layer_values(ls, iv, 0);
    let ghost ra0 = verifier_start(t0, out0).0;
    proof {
        assert(prover_state(sumcheck_proofs@, wb_evals@, wc_evals@, t0, out0, 0) == (
            true,
            claimed_sum.val(),
            alpha.val(),
            beta.val(),
            Seq::<nat>::empty(),
            transcript@,
        ));
    }
    let n = circuit.layers.len();
    let mut layer_index: usize = 0;
    while layer_index < n
        invariant
            layer_index <= n,
            n == ls.len(),
            iv == vals(inputs@),
            gkr_shape(ls, iv.len()),
            circuit.layers@ == ls,
            circuit.layer_evaluations.len() == n + 1,
            forall|j: int|
                0 <= j <= n ==> vals(#[trigger] circuit.layer_evaluations@[j]@) == layer_values(
                    ls,
                    iv,
                    j,
                ),
            1 <= layer_index < n ==> rb_values.len() == layer_index && rc_values.len() == layer_index,
            sumcheck_proofs.len() == layer_index,
            wb_evals.len() == if layer_index < n { layer_index as int } else { n - 1 },
            wc_evals.len() == wb_evals.len(),
            out0 == layer_values(ls, iv, 0),
            ra0 == verifier_start(t0, out0).0,
            random_challenge_a.val() == ra0,
            layer_index < n ==> ({
                let st = prover_state(sumcheck_proofs@, wb_evals@, wc_evals@, t0, out0, layer_index as int);
                &&& claimed_sum.val() == st.1
                &&& alpha.val() == st.2
                &&& beta.val() == st.3
                &&& transcript@ == st.5
                &&& layer_index >= 1 ==> st.4.len() == 2 * layer_index && vals(rb_values@)
                    == st.4.subrange(0, layer_index as int) && vals(rc_values@) == st.4.subrange(
                    layer_index as int,
                    2 * layer_index,
                )
            }),
            layer_index == n ==> ({
                let last = prover_state(sumcheck_proofs@, wb_evals@, wc_evals@, t0, out0, n - 1);
                transcript@ == chain_state(
                    last.5 + be_bytes(last.1, 32),
                    poly_terms(sumcheck_proofs@[n - 1].round_univariate_polynomials@),
                )
            }),
            forall|j: int|
                0 <= j < layer_index ==> honest_layer(
                    #[trigger] sumcheck_proofs@[j],
                    ls[j].gates@,
                    j as nat,
                    ra0,
                    prover_state(sumcheck_proofs@, wb_evals@, wc_evals@, t0, out0, j),
                    layer_values(ls, iv, j + 1),
                ),
            forall|i: int|
                0 <= i < layer_index ==> (#[trigger] sumcheck_proofs@[i]).random_challenges.len()
                    == 2 * (i + 1) && sumcheck_proofs@[i].round_univariate_polynomials.len() == 2 * (
                i + 1),
            forall|i: int|
                0 <= i < wb_evals.len() ==> (#[trigger] wb_evals@[i]).val() == mle_eval(
                    layer_values(ls, iv, i + 1),
                    vals(sumcheck_proofs@[i].random_challenges@).subrange(0, i + 1),
                ) && wc_evals@[i].val() == mle_eval(
                    layer_values(ls, iv, i + 1),
                    vals(sumcheck_proofs@[i].random_challenges@).subrange(i + 1, 2 * (i + 1)),
                ),
        decreases n - layer_index,
    {
        let ghost st = prover_state(sumcheck_proofs@, wb_evals@, wc_evals@, t0, out0, layer_index as int);
        let (sumcheck_proof, wb_poly) = prove_layer(
            circuit,
            layer_index,
            random_challenge_a,
            alpha,
            beta,
            rb_values.as_slice(),
            rc_values.as_slice(),
            claimed_sum,
            transcript,
            Ghost(ls),
            Ghost(iv),
            Ghost(st.4),
        );
        let wc_poly = copy_poly(&wb_poly);
        let sumcheck_challenges = copy_elements(sumcheck_proof.random_challenges.as_slice());
        let ghost (sc0, wb0, wc0) = (sumcheck_proofs@, wb_evals@, wc_evals@);
        let ghost t_after = transcript@;
        sumcheck_proofs.push(sumcheck_proof);
        if layer_index < n - 1 {
            let (wb_evaluation, wc_evaluation) = evaluate_wb_wc(
                &wb_poly,
                &wc_poly,
                sumcheck_challenges.as_slice(),
            );
            wb_evals.push(wb_evaluation);
            wc_evals.push(wc_evaluation);
            let (current_rb_values, current_rc_values) = split_halves(sumcheck_challenges.as_slice());
            rb_values = current_rb_values;
            rc_values = current_rc_values;
            let wb_bytes = field_element_to_bytes(wb_evaluation);
            transcript.absorb(wb_bytes.as_slice());
            alpha = transcript.sample_field_element();
            let wc_bytes = field_element_to_bytes(wc_evaluation);
            transcript.absorb(wc_bytes.as_slice());
            beta = transcript.sample_field_element();
            claimed_sum = ark_add(ark_mul(alpha, wb_evaluation), ark_mul(beta, wc_evaluation));
            proof {
                let ch = vals(sumcheck_proof.random_challenges@);
                assert(vals(sumcheck_challenges@) == ch);
                assert(vals(rb_values@) =~= ch.subrange(0, layer_index + 1));
                assert(vals(rc_values@) =~= ch.subrange(layer_index + 1, 2 * (layer_index + 1)));
                lemma_prover_state_prefix(
                    sc0, wb0, wc0, sumcheck_proofs@, wb_evals@, wc_evals@, t0, out0, layer_index as int,
                );
                assert(sumcheck_proofs@[layer_index as int] == sumcheck_proof);
                assert(wb_evals@[layer_index as int] == wb_evaluation);
                assert(wc_evals@[layer_index as int] == wc_evaluation);
            }
        } else {
            proof {
                lemma_prover_state_prefix(
                    sc0, wb0, wc0, sumcheck_proofs@, wb_evals@, wc_evals@, t0, out0, layer_index as int,
                );
                assert(sumcheck_proofs@[layer_index as int] == sumcheck_proof);
            }
        }
        proof {
            assert forall|j: int| 0 <= j <= layer_index implies prover_state(
                sumcheck_proofs@, wb_evals@, wc_evals@, t0, out0, j,
            ) == prover_state(sc0, wb0, wc0, t0, out0, j) by {
                lemma_prover_state_prefix(
                    sc0, wb0, wc0, sumcheck_proofs@, wb_evals@, wc_evals@, t0, out0, j,
                );
            }
            assert forall|j: int| 0 <= j < layer_index + 1 implies honest_layer(
                #[trigger] sumcheck_proofs@[j],
                ls[j].gates@,
                j as nat,
                ra0,
                prover_state(sumcheck_proofs@, wb_evals@, wc_evals@, t0, out0, j),
                layer_values(ls, iv, j + 1),
            ) by {
                if j < layer_index {
                    assert(sumcheck_proofs@[j] == sc0[j]);
                }
            }
        }
        layer_index = layer_index + 1;
    }
    let r = GKRProof { claimed_output: output[0], sumcheck_proofs, wb_evals, wc_evals };
    proof {
        assert forall|i: int| 0 <= i < n - 1 implies (#[trigger] r.wb_evals@[i]).val() == mle_eval(
            layer_values(ls, iv, i + 1),
            vals(r.sumcheck_proofs@[i].random_challenges@).subrange(0, i + 1),
        ) && r.wc_evals@[i].val() == mle_eval(
            layer_values(ls, iv, i + 1),
            vals(r.sumcheck_proofs@[i].random_challenges@).subrange(i + 1, 2 * (i + 1)),
        ) by {
            assert(r.wb_evals@[i] == wb_evals@[i]);
        }
        assert forall|i: int| 0 <= i < r.wc_evals.len() implies (#[trigger] r.wc_evals@[i]).val()
            == mle_eval(
            layer_values(ls, iv, i + 1),
            vals(r.sumcheck_proofs@[i].random_challenges@).subrange(i + 1, 2 * (i + 1)),
        ) by {
            assert(r.wb_evals@[i] == wb_evals@[i]);
        }
        assert forall|i: int| 0 <= i < n - 1 implies (#[trigger] r.wb_evals@[i]).val() == mle_eval(
            layer_values(ls, iv, i + 1),
            vals(r.sumcheck_proofs@[i].random_challenges@).subrange(0, i + 1),
        ) && r.wc_evals@[i].val() == mle_eval(
            layer_values(ls, iv, i + 1),
            vals(r.sumcheck_proofs@[i].random_challenges@).subrange(i + 1, 2 * (i + 1)),
        ) by {
            assert(r.wb_evals@[i] == wb_evals@[i]);
        }
        reveal(honest_proof);
    }
    r
}

/// Runs the GKR verifier on `proof` for `inputs`, absorbing into `transcript` as the
/// prover does: per layer it checks that the sum-check starts from the running
/// claim and passes, and that its last claim is the one the wiring polynomials and
/// the evaluations give (the input's own evaluations for the last layer), then folds
/// the evaluations into the next claim. A proof that lacks a layer's sum-check or
/// evaluations, or whose sum-check has the wrong number of rounds, is refused.
/// Returns whether every check held.
#[verifier::rlimit(60)]
pub fn verify_gkr(
    circuit: &mut Circuit,
    proof: GKRProof,
    inputs: &[FieldElement],
    transcript: &mut FiatShamirTranscript,
) -> (r: bool)
    requires
        old(circuit).layers.len() >= 1,
        wiring_fits(old(circuit).layers@),
        old(circuit).layer_evaluations.len() >= 1,
        old(circuit).layer_evaluations@[0].len() == 1 || old(circuit).layer_evaluations@[0].len()
            == 2,
        inputs.len() == pow2(old(circuit).layers.len() as nat),
    ensures
        *final(circuit) == *old(circuit),
        (r, final(transcript)@) == gkr_verdict(
            old(circuit).layers@,
            proof,
            vals(inputs@),
            vals(old(circuit).layer_evaluations@[0]@),
            old(transcript)@,
        ),
{
    let ghost ls = circuit.layers@;
    let ghost iv = vals(inputs@);
    let ghost start = verifier_start(transcript@, vals(circuit.layer_evaluations@[0]@));
    let ghost ra0 = start.0;
    let ghost s0 = start.1;
    let mut alpha = ark_zero();
    let mut beta = ark_zero();
    let mut prev_sumcheck_challenges: Vec<FieldElement> = Vec::new();
    proof {
        lemma_log2_floor_pow2(0);
        lemma_log2_floor_pow2(1);
        lemma2_to64();
    }
    let mut w0_polynomial = circuit.w_i_polynomial(0);
    if w0_polynomial.evaluated_values.len() == 1 {
        let mut w0_padded_with_zero = copy_elements(w0_polynomial.evaluated_values.as_slice());
        w0_padded_with_zero.push(ark_zero());
        w0_polynomial = MultiPoly::new(1, w0_padded_with_zero);
    }
    proof {
        assert(w0_polynomial.table() =~= output_table(vals(circuit.layer_evaluations@[0]@)));
    }
    let w0_bytes = w0_polynomial.convert_to_bytes();
    transcript.absorb(w0_bytes.as_slice());
    let random_challenge_a = transcript.sample_field_element();
    let point: Vec<FieldElement> = vec![random_challenge_a];
    let mut claimed_sum = w0_polynomial.evaluate(point.as_slice());
    proof {
        assert(vals(point@) =~= seq![random_challenge_a.val()]);
        assert(vals(prev_sumcheck_challenges@) =~= Seq::<nat>::empty());
    }
    let n = circuit.layers.len();
    proof {
        lemma_pow2_fits(n as nat);
    }
    let mut layer_index: usize = 0;
    while layer_index < n
        invariant
            layer_index <= n,
            n == ls.len(),
            *circuit == *old(circuit),
            old(circuit).layers@ == ls,
            start == verifier_start(old(transcript)@, vals(old(circuit).layer_evaluations@[0]@)),
            ra0 == start.0,
            s0 == start.1,
            wiring_fits(ls),
            iv == vals(inputs@),
            inputs.len() == pow2(n as nat),
            random_challenge_a.val() == ra0,
            n < usize::BITS,
            layer_index >= 1 ==> prev_sumcheck_challenges.len() == 2 * layer_index,
            verifier_run(ls, proof, iv, ra0, layer_index as int, s0) == (
                true,
                claimed_sum.val(),
                alpha.val(),
                beta.val(),
                vals(prev_sumcheck_challenges@),
                transcript@,
            ),
        decreases n - layer_index,
    {
        let ghost s = verifier_run(ls, proof, iv, ra0, layer_index as int, s0);
        let ghost li = layer_index as int;
        if layer_index >= proof.sumcheck_proofs.len() {
            proof {
                assert(verifier_run(ls, proof, iv, ra0, li + 1, s0) == verifier_step(ls, proof, iv, ra0, li, s));
                lemma_refusal_stays(ls, proof, iv, ra0, li + 1, n as int, s0);
            }
            return false;
        }
        let sc = &proof.sumcheck_proofs[layer_index];
        if !ark_eq(claimed_sum, sc.claimed_sum) {
            proof {
                assert(verifier_run(ls, proof, iv, ra0, li + 1, s0) == verifier_step(ls, proof, iv, ra0, li, s));
                assert(!verifier_run(ls, proof, iv, ra0, li + 1, s0).0);
                lemma_refusal_stays(ls, proof, iv, ra0, li + 1, n as int, s0);
                assert(verifier_run(ls, proof, iv, ra0, n as int, s0) == verifier_run(ls, proof, iv, ra0, li + 1, s0));
                assert(!verifier_run(ls, proof, iv, ra0, n as int, s0).0);
                assert(verifier_run(ls, proof, iv, ra0, n as int, s0).5 == transcript@);
                assert(start == verifier_start(old(transcript)@, vals(old(circuit).layer_evaluations@[0]@)));
                assert(gkr_verdict(ls, proof, iv, vals(old(circuit).layer_evaluations@[0]@), old(transcript)@) == (false, transcript@));
            }
            return false;
        }
        let verify_result = sumcheck_verify(sc, transcript);
        let ghost vp = verifier_pass(
            s.5 + be_bytes(sc.claimed_sum.val(), 32),
            sc.claimed_sum.val(),
            poly_terms(sc.round_univariate_polynomials@),
        );
        if !verify_result.is_proof_valid {
            proof {
                lemma_refusal_stays(ls, proof, iv, ra0, li + 1, n as int, s0);
                assert(verifier_run(ls, proof, iv, ra0, n as int, s0) == verifier_run(ls, proof, iv, ra0, li + 1, s0));
                assert(!verifier_run(ls, proof, iv, ra0, n as int, s0).0);
                assert(verifier_run(ls, proof, iv, ra0, n as int, s0).5 == transcript@);
                assert(start == verifier_start(old(transcript)@, vals(old(circuit).layer_evaluations@[0]@)));
                assert(gkr_verdict(ls, proof, iv, vals(old(circuit).layer_evaluations@[0]@), old(transcript)@) == (false, transcript@));
            }
            return false;
        }
        proof {
            lemma_pass_challenges_len(
                s.5 + be_bytes(sc.claimed_sum.val(), 32),
                sc.claimed_sum.val(),
                poly_terms(sc.round_univariate_polynomials@),
            );
            assert(verify_result.random_challenges.len() == vals(verify_result.random_challenges@).len());
        }
        let sumcheck_challenges = verify_result.random_challenges;
        if sumcheck_challenges.len() != 2 * (layer_index + 1) || (layer_index < n - 1 && (layer_index
            >= proof.wb_evals.len() || layer_index >= proof.wc_evals.len())) {
            proof {
                assert(vals(sumcheck_challenges@).len() == sumcheck_challenges.len());
                assert(verifier_run(ls, proof, iv, ra0, li + 1, s0) == verifier_step(ls, proof, iv, ra0, li, s));
                lemma_refusal_stays(ls, proof, iv, ra0, li + 1, n as int, s0);
            }
            return false;
        }
        let (wb_evaluation, wc_evaluation) = if layer_index < n - 1 {
            (proof.wb_evals[layer_index], proof.wc_evals[layer_index])
        } else {
            proof {
                crate::multi_poly::lemma_log2_floor_pow2(n as nat);
                lemma_pow2_pos(n as nat);
            }
            let nv = floor_log2(inputs.len());
            proof {
                lemma_pow2_fits(nv as nat);
            }
            let wb_poly = MultiPoly::new(nv, copy_elements(inputs));
            let wc_poly = copy_poly(&wb_poly);
            evaluate_wb_wc(&wb_poly, &wc_poly, sumcheck_challenges.as_slice())
        };
        proof {
            assert(ls[li] == circuit.layers@[li]);
            assert(wiring_fits(ls));
            assert(layer_variables(li as nat) < usize::BITS);
        }
        let expected_claim = if layer_index == 0 {
            compute_verifier_initial_claim(
                circuit,
                layer_index,
                random_challenge_a,
                sumcheck_challenges.as_slice(),
                wb_evaluation,
                wc_evaluation,
            )
        } else {
            compute_verifier_folded_claim(
                circuit,
                layer_index,
                sumcheck_challenges.as_slice(),
                prev_sumcheck_challenges.as_slice(),
                wb_evaluation,
                wc_evaluation,
                alpha,
                beta,
            )
        };
        if !ark_eq(expected_claim, verify_result.last_claimed_sum) {
            proof {
                lemma_refusal_stays(ls, proof, iv, ra0, li + 1, n as int, s0);
                assert(verifier_run(ls, proof, iv, ra0, n as int, s0) == verifier_run(ls, proof, iv, ra0, li + 1, s0));
                assert(!verifier_run(ls, proof, iv, ra0, n as int, s0).0);
                assert(verifier_run(ls, proof, iv, ra0, n as int, s0).5 == transcript@);
                assert(start == verifier_start(old(transcript)@, vals(old(circuit).layer_evaluations@[0]@)));
                assert(gkr_verdict(ls, proof, iv, vals(old(circuit).layer_evaluations@[0]@), old(transcript)@) == (false, transcript@));
            }
            return false;
        }
        prev_sumcheck_challenges = copy_elements(sumcheck_challenges.as_slice());
        let wb_bytes = field_element_to_bytes(wb_evaluation);
        transcript.absorb(wb_bytes.as_slice());
        alpha = transcript.sample_field_element();
        let wc_bytes = field_element_to_bytes(wc_evaluation);
        transcript.absorb(wc_bytes.as_slice());
        beta = transcript.sample_field_element();
        claimed_sum = ark_add(ark_mul(alpha, wb_evaluation), ark_mul(beta, wc_evaluation));
        layer_index = layer_index + 1;
    }
    true
}

} // verus!
