//! Why an honest GKR proof is accepted. A layer's sum-check polynomial, summed over
//! the boolean hypercube, is the running claim: weighting the wiring tables by the
//! sums and products of the level below and summing over the gates' inputs gives the
//! layer's values, and fixing the output variables commutes with that sum.
use crate::field::{
    fadd, fmul, fsub, fsum, lemma_fadd_laws, lemma_field_ops_canonical, lemma_fmul_distributes,
    lemma_fmul_laws, lemma_fsub_laws, lemma_fsum_canonical, modulus,
};
use crate::gkr_protocol::{
    fix_first_vars, folded_table, layer_claim, layer_tables, layer_wiring, wiring_table,
};
use crate::gkr_sumcheck::fix_vars;
use crate::gkr_protocol::{
    gkr_shape, gkr_verdict, honest_layer, honest_proof, lemma_level_len, output_table,
    prover_state, verifier_run, verifier_start, verifier_step, wiring_fits, GKRProof,
};
use crate::field::{be_bytes, vals};
use crate::gkr_sumcheck::poly_terms;
use crate::sumcheck_rounds::{
    lemma_chain_prefix, lemma_small_points_invertible, lemma_sumcheck_rounds_complete,
};
use crate::new_circuit::{
    gates_fit, input_width, layer_input, layer_out, layer_values, lemma_max_output, max_output, Layer,
    well_wired,
};
use crate::sumcheck_rounds::{factors_at_most, tables_in};
use crate::sum_all_polys::{entry_prod, entry_total, hypercube_sum};
use crate::new_circuit::{
    binary_width, gate_index, gate_terms, has_gate, layer_variables, Gate, Operator,
};
use crate::multi_poly::tensor_table;
use crate::multi_poly::{
    all_canonical, fold_first, lemma_fix_first_then_evaluate, lemma_partial_eval_first, lerp,
    mle_eval, partial_eval_table,
};
use crate::sumcheck::lemma_fsum_lerp;
use vstd::arithmetic::power2::*;
use vstd::arithmetic::mul::*;
use vstd::prelude::*;

verus! {

/// Fixing the first variables of a table to `rs` and evaluating the rest at `rest`
/// evaluates the table at `rs` then `rest`.
pub proof fn lemma_fix_then_mle(t: Seq<nat>, rs: Seq<nat>, rest: Seq<nat>, k: nat)
    requires
        t.len() == pow2(rs.len() + k),
    ensures
        fix_first_vars(t, rs).len() == pow2(k),
        mle_eval(fix_first_vars(t, rs), rest) == mle_eval(t, rs + rest),
    decreases rs.len(),
{
    if rs.len() == 0 {
        assert(rs + rest =~= rest);
    } else {
        let r1 = rs.drop_last();
        let r = rs.last();
        lemma_fix_then_mle(t, r1, seq![r] + rest, k + 1);
        let x = fix_first_vars(t, r1);
        lemma_partial_eval_first(x, k + 1, r);
        lemma_fix_first_then_evaluate(x, k + 1, r, rest);
        assert(r1 + (seq![r] + rest) =~= rs + rest);
    }
}

/// A line scaled by `u` is the line between the scaled end points.
pub proof fn lemma_lerp_scale(u: nat, a: nat, b: nat, r: nat)
    ensures
        fmul(u, lerp(a, b, r)) == lerp(fmul(u, a), fmul(u, b), r),
{
    let d = fsub(b, a);
    lemma_fmul_distributes(u, a, fmul(r, d));
    lemma_fmul_laws(u, r, d);
    lemma_fmul_laws(r, u, d);
    lemma_fmul_laws(u, r, 0);
    lemma_fmul_distributes(u, b, a);
}

/// A line shifted by a canonical `u` is the line between the shifted end points.
pub proof fn lemma_lerp_shift(a: nat, b: nat, u: nat, r: nat)
    requires
        u < modulus(),
    ensures
        fadd(lerp(a, b, r), u) == lerp(fadd(a, u), fadd(b, u), r),
{
    crate::sumcheck::lemma_lerp_add(a, b, u, u, r);
    lemma_fsub_laws(u, u);
    lemma_fmul_laws(r, 0, 0);
    lemma_fadd_laws(u, 0, 0);
}

/// Sums of sums in the field add up entry by entry.
pub proof fn lemma_fsum_add(a: Seq<nat>, b: Seq<nat>)
    requires
        a.len() == b.len(),
    ensures
        fsum(Seq::new(a.len(), |v: int| fadd(a[v], b[v]))) == fadd(fsum(a), fsum(b)),
    decreases a.len(),
{
    let s = Seq::new(a.len(), |v: int| fadd(a[v], b[v]));
    if a.len() > 0 {
        let (a1, b1) = (a.drop_last(), b.drop_last());
        lemma_fsum_add(a1, b1);
        assert(s.drop_last() =~= Seq::new(a1.len(), |v: int| fadd(a1[v], b1[v])));
        let (x, y, p, q) = (fsum(a1), fsum(b1), a.last(), b.last());
        lemma_fadd_laws(x, y, fadd(p, q));
        lemma_fadd_laws(y, p, q);
        lemma_fadd_laws(p, y, q);
        lemma_fadd_laws(x, p, fadd(y, q));
        lemma_fadd_laws(x, fadd(p, y), q);
        lemma_fadd_laws(fadd(x, p), y, q);
        lemma_fadd_laws(x, y, 0);
        lemma_fadd_laws(x, p, y);
    } else {
        lemma_fadd_laws(0, 0, 0);
    }
}

/// A scaled sum in the field is the sum of the scaled entries.
pub proof fn lemma_fsum_scale(c: nat, a: Seq<nat>)
    ensures
        fsum(Seq::new(a.len(), |v: int| fmul(c, a[v]))) == fmul(c, fsum(a)),
    decreases a.len(),
{
    let s = Seq::new(a.len(), |v: int| fmul(c, a[v]));
    if a.len() > 0 {
        let a1 = a.drop_last();
        lemma_fsum_scale(c, a1);
        assert(s.drop_last() =~= Seq::new(a1.len(), |v: int| fmul(c, a1[v])));
        lemma_fmul_distributes(c, fsum(a1), a.last());
    } else {
        lemma_fmul_laws(c, 0, 0);
    }
}

/// Each entry of `w` plus `u`.
pub open spec fn shifted_table(w: Seq<nat>, u: nat) -> Seq<nat> {
    Seq::new(w.len(), |b: int| fadd(w[b], u))
}

/// Each entry of `w` times `u`.
pub open spec fn scaled_table(u: nat, w: Seq<nat>) -> Seq<nat> {
    Seq::new(w.len(), |b: int| fmul(u, w[b]))
}

/// The multilinear extension of a table shifted by `u` is shifted by `u`.
pub proof fn lemma_mle_shift(w: Seq<nat>, u: nat, rs: Seq<nat>)
    requires
        w.len() == pow2(rs.len()),
        u < modulus(),
    ensures
        mle_eval(shifted_table(w, u), rs) == fadd(mle_eval(w, rs), u),
    decreases rs.len(),
{
    if rs.len() == 0 {
        lemma2_to64();
    } else {
        let r = rs[0];
        lemma_pow2_unfold(rs.len());
        let f = fold_first(w, r);
        assert(fold_first(shifted_table(w, u), r) =~= shifted_table(f, u)) by {
            let h = w.len() / 2;
            assert forall|v: int| 0 <= v < h implies #[trigger] fold_first(shifted_table(w, u), r)[v]
                == shifted_table(f, u)[v] by {
                lemma_lerp_shift(w[v], w[v + h], u, r);
            }
        }
        lemma_mle_shift(f, u, rs.drop_first());
    }
}

/// The multilinear extension of a table scaled by `u` is scaled by `u`.
pub proof fn lemma_mle_scale(u: nat, w: Seq<nat>, rs: Seq<nat>)
    requires
        w.len() == pow2(rs.len()),
    ensures
        mle_eval(scaled_table(u, w), rs) == fmul(u, mle_eval(w, rs)),
    decreases rs.len(),
{
    if rs.len() == 0 {
        lemma2_to64();
    } else {
        let r = rs[0];
        lemma_pow2_unfold(rs.len());
        let f = fold_first(w, r);
        assert(fold_first(scaled_table(u, w), r) =~= scaled_table(u, f)) by {
            let h = w.len() / 2;
            assert forall|v: int| 0 <= v < h implies #[trigger] fold_first(scaled_table(u, w), r)[v]
                == scaled_table(u, f)[v] by {
                lemma_lerp_scale(u, w[v], w[v + h], r);
            }
        }
        lemma_mle_scale(u, f, rs.drop_first());
    }
}

/// Row `a` of `t`, read in rows of `f.len()` entries, weighted by `f` and summed.
pub open spec fn weighted_row(t: Seq<nat>, f: Seq<nat>, a: int) -> nat {
    fsum(Seq::new(f.len(), |x: int| fmul(t[a * f.len() + x], f[x])))
}

/// The weighted sums of the rows of `t`.
pub open spec fn contract(t: Seq<nat>, f: Seq<nat>) -> Seq<nat> {
    Seq::new(t.len() / f.len(), |a: int| weighted_row(t, f, a))
}

/// Sizes of tables of `2^(m + k)` entries read in rows of `2^k`.
proof fn lemma_rows(m: nat, k: nat)
    requires
        m >= 1,
    ensures
        pow2(m + k) == pow2(m) * pow2(k),
        pow2(m) == 2 * pow2((m - 1) as nat),
        pow2(m + k) / 2 == pow2((m - 1) as nat) * pow2(k),
        (pow2(m) * pow2(k)) / pow2(k) == pow2(m),
        (pow2((m - 1) as nat) * pow2(k)) / pow2(k) == pow2((m - 1) as nat),
        pow2(k) > 0,
{
    lemma_pow2_adds(m, k);
    lemma_pow2_unfold(m);
    lemma_pow2_pos(k);
    assert(pow2(m) * pow2(k) == 2 * (pow2((m - 1) as nat) * pow2(k))) by (nonlinear_arith)
        requires pow2(m) == 2 * pow2((m - 1) as nat);
    vstd::arithmetic::div_mod::lemma_div_multiples_vanish(pow2(m) as int, pow2(k) as int);
    vstd::arithmetic::div_mod::lemma_div_multiples_vanish(pow2((m - 1) as nat) as int, pow2(k) as int);
    lemma_mul_is_commutative(pow2(m) as int, pow2(k) as int);
    lemma_mul_is_commutative(pow2((m - 1) as nat) as int, pow2(k) as int);
}

/// Fixing the first variable commutes with the weighted row sums.
pub proof fn lemma_contract_fold(t: Seq<nat>, f: Seq<nat>, r: nat, m: nat, k: nat)
    requires
        m >= 1,
        f.len() == pow2(k),
        t.len() == pow2(m + k),
    ensures
        contract(fold_first(t, r), f) == fold_first(contract(t, f), r),
        contract(t, f).len() == pow2(m),
        t.len() / f.len() == pow2(m),
{
    lemma_rows(m, k);
    let kk = f.len() as int;
    let hh = pow2((m - 1) as nat) as int;
    let big = (t.len() / 2) as int;
    assert(big == hh * kk);
    let ft = fold_first(t, r);
    let c = contract(t, f);
    let lhs = contract(ft, f);
    let rhs = fold_first(c, r);
    assert(lhs.len() == hh);
    assert(rhs.len() == hh);
    assert forall|a: int| 0 <= a < hh implies #[trigger] lhs[a] == rhs[a] by {
        let p = Seq::new(f.len(), |x: int| fmul(t[a * kk + x], f[x]));
        let q = Seq::new(f.len(), |x: int| fmul(t[(a + hh) * kk + x], f[x]));
        assert forall|x: int| 0 <= x < kk implies a * kk + x < big && #[trigger] ft[a * kk + x]
            == lerp(t[a * kk + x], t[(a + hh) * kk + x], r) by {
            assert(a * kk + x < hh * kk) by (nonlinear_arith)
                requires 0 <= a < hh, 0 <= x < kk;
            assert((a + hh) * kk + x == a * kk + x + hh * kk) by (nonlinear_arith);
        }
        assert(Seq::new(f.len(), |x: int| fmul(ft[a * kk + x], f[x])) =~= Seq::new(
            p.len(),
            |x: int| lerp(p[x], q[x], r),
        )) by {
            assert forall|x: int| 0 <= x < kk implies fmul(ft[a * kk + x], f[x]) == lerp(
                p[x],
                q[x],
                r,
            ) by {
                let (u, w) = (t[a * kk + x], t[(a + hh) * kk + x]);
                lemma_lerp_scale(f[x], u, w, r);
                lemma_fmul_laws(f[x], lerp(u, w, r), 0);
                lemma_fmul_laws(f[x], u, 0);
                lemma_fmul_laws(f[x], w, 0);
            }
        }
        lemma_fsum_lerp(p, q, r);
        assert(c[a] == fsum(p));
        assert(c[a + hh] == fsum(q));
    }
    assert(lhs =~= rhs);
}

/// Fixing the first variables to `rs` and then summing the weighted rows evaluates
/// the weighted row sums at `rs`.
pub proof fn lemma_contract_fix(t: Seq<nat>, f: Seq<nat>, rs: Seq<nat>, rest: Seq<nat>, m: nat, k: nat)
    requires
        f.len() == pow2(k),
        t.len() == pow2(m + k),
        rs.len() <= m,
    ensures
        fix_first_vars(t, rs).len() == pow2((m - rs.len() + k) as nat),
        mle_eval(contract(fix_first_vars(t, rs), f), rest) == mle_eval(contract(t, f), rs + rest),
    decreases rs.len(),
{
    if rs.len() == 0 {
        assert(rs + rest =~= rest);
    } else {
        let r1 = rs.drop_last();
        let r = rs.last();
        let m1 = (m - r1.len()) as nat;
        lemma_contract_fix(t, f, r1, seq![r] + rest, m, k);
        let x = fix_first_vars(t, r1);
        lemma_partial_eval_first(x, m1 + k, r);
        lemma_contract_fold(x, f, r, m1, k);
        let c = contract(x, f);
        lemma_partial_eval_first(c, m1, r);
        lemma_fix_first_then_evaluate(c, m1, r, rest);
        assert(r1 + (seq![r] + rest) =~= rs + rest);
        assert((m1 + k - 1) as nat == (m - rs.len() + k) as nat);
    }
}

/// No two gates of the layer are the same.
pub open spec fn distinct_gates(gates: Seq<Gate>) -> bool {
    forall|g: int, h: int| 0 <= g < h < gates.len() ==> gates[g] != gates[h]
}

/// Every gate reads among `n` values and writes below `rows`.
pub open spec fn gates_within(gates: Seq<Gate>, n: nat, rows: nat) -> bool {
    forall|g: int|
        0 <= g < gates.len() ==> (#[trigger] gates[g]).left_index < n && gates[g].right_index < n
            && gates[g].output_index < rows
}

/// What the gates with operator `op` writing to `a` weigh in row `a`: the weight of
/// each such gate's pair of inputs, zero for the others.
pub open spec fn op_terms(gates: Seq<Gate>, f: Seq<nat>, op: Operator, a: nat, n: nat) -> Seq<nat> {
    Seq::new(
        gates.len(),
        |g: int|
            if gates[g].operator == op && gates[g].output_index == a {
                f[gates[g].left_index * n + gates[g].right_index]
            } else {
                0
            },
    )
}

/// A value below `2^w` has at most `w` binary digits.
proof fn lemma_binary_width_bound(x: nat, w: nat)
    requires
        w >= 1,
        x < pow2(w),
    ensures
        binary_width(x) <= w,
    decreases x,
{
    if x >= 2 {
        lemma_pow2_unfold(w);
        if w == 1 {
            lemma2_to64();
        } else {
            lemma_binary_width_bound(x / 2, (w - 1) as nat);
        }
    }
}

/// A gate's index in the wiring tables of layer `i`: its output, then its left and
/// right inputs in `i + 1` binary digits each.
proof fn lemma_gate_index_formula(i: nat, g: Gate, m: nat)
    requires
        g.left_index < pow2(i + 1),
        g.right_index < pow2(i + 1),
        g.output_index < pow2(m),
        m + 2 * (i + 1) < usize::BITS,
    ensures
        pow2(2 * (i + 1)) == pow2(i + 1) * pow2(i + 1),
        gate_index(i, g) == g.output_index * pow2(2 * (i + 1)) + g.left_index * pow2(i + 1)
            + g.right_index,
        g.left_index * pow2(i + 1) + g.right_index < pow2(2 * (i + 1)),
        gate_index(i, g) < pow2(m + 2 * (i + 1)),
{
    let n = pow2(i + 1);
    let k = pow2(2 * (i + 1));
    lemma_binary_width_bound(g.left_index as nat, i + 1);
    lemma_binary_width_bound(g.right_index as nat, i + 1);
    lemma_pow2_adds(i + 1, i + 1);
    lemma_pow2_adds(m, 2 * (i + 1));
    let (o, l, r) = (g.output_index as int, g.left_index as int, g.right_index as int);
    assert(l * n + r < n * n) by (nonlinear_arith)
        requires 0 <= l < n, 0 <= r < n;
    assert(o * k + (l * n + r) < pow2(m) * k) by (nonlinear_arith)
        requires 0 <= o < pow2(m), 0 <= l * n + r < k;
    vstd::bits::lemma_usize_pow2_no_overflow(m + 2 * (i + 1));
}

/// Adding the last gate to the others marks its index with its operator.
proof fn lemma_has_gate_last(gates: Seq<Gate>, i: nat, op: Operator, k: nat)
    requires
        gates.len() > 0,
    ensures
        has_gate(gates, i, op, k) == (has_gate(gates.drop_last(), i, op, k) || (gates.last().operator
            == op && gate_index(i, gates.last()) == k)),
{
    let pre = gates.drop_last();
    if has_gate(pre, i, op, k) {
        let h = choose|h: int| 0 <= h < pre.len() && pre[h].operator == op && gate_index(i, pre[h]) == k;
        assert(gates[h] == pre[h]);
    }
    if gates.last().operator == op && gate_index(i, gates.last()) == k {
        assert(gates[gates.len() - 1] == gates.last());
    }
    if has_gate(gates, i, op, k) {
        let h = choose|h: int|
            0 <= h < gates.len() && gates[h].operator == op && gate_index(i, gates[h]) == k;
        if h < gates.len() - 1 {
            assert(pre[h] == gates[h]);
        }
    }
}

/// Row `a` of a wiring table weighted by `f` sums the weights of the gates with that
/// operator writing to `a`.
proof fn lemma_wiring_row(gates: Seq<Gate>, i: nat, op: Operator, f: Seq<nat>, a: nat, m: nat)
    requires
        f.len() == pow2(2 * (i + 1)),
        all_canonical(f),
        gates_within(gates, pow2(i + 1), pow2(m)),
        distinct_gates(gates),
        m + 2 * (i + 1) == layer_variables(i),
        layer_variables(i) < usize::BITS,
        a < pow2(m),
    ensures
        weighted_row(wiring_table(gates, i, op), f, a as int) == fsum(
            op_terms(gates, f, op, a, pow2(i + 1)),
        ),
    decreases gates.len(),
{
    let n = pow2(i + 1);
    let kk = f.len() as int;
    let wt = wiring_table(gates, i, op);
    lemma_pow2_adds(m, 2 * (i + 1));
    lemma_pow2_pos(2 * (i + 1));
    let row = Seq::new(f.len(), |x: int| fmul(wt[a * kk + x], f[x]));
    if gates.len() == 0 {
        assert forall|x: int| 0 <= x < row.len() implies #[trigger] row[x] == 0 by {
            assert(a * kk + x < pow2(m) * kk) by (nonlinear_arith)
                requires 0 <= a < pow2(m), 0 <= x < kk;
            lemma_fmul_laws(0, f[x], 0);
        }
        crate::univariate_dense::lemma_fsum_zeros(row);
        assert(op_terms(gates, f, op, a, n) =~= Seq::<nat>::empty());
    } else {
        let pre = gates.drop_last();
        let g = gates.last();
        assert forall|h: int| 0 <= h < pre.len() implies (#[trigger] pre[h]).left_index < n
            && pre[h].right_index < n && pre[h].output_index < pow2(m) by {
            assert(pre[h] == gates[h]);
        }
        assert forall|h1: int, h2: int| 0 <= h1 < h2 < pre.len() implies pre[h1] != pre[h2] by {
            assert(pre[h1] == gates[h1] && pre[h2] == gates[h2]);
        }
        lemma_wiring_row(pre, i, op, f, a, m);
        let wp = wiring_table(pre, i, op);
        let qrow = Seq::new(f.len(), |x: int| fmul(wp[a * kk + x], f[x]));
        assert(gates[gates.len() - 1] == g);
        lemma_gate_index_formula(i, g, m);
        let y0 = gate_index(i, g) as int;
        let x0 = (g.left_index * n + g.right_index) as int;
        let hit = g.operator == op && g.output_index == a;
        let d = Seq::new(f.len(), |x: int| if hit && x == x0 { f[x] } else { 0 });
        assert forall|x: int| 0 <= x < kk implies #[trigger] row[x] == fadd(qrow[x], d[x]) by {
            let y = a * kk + x;
            assert(a * kk + x < pow2(m) * kk) by (nonlinear_arith)
                requires 0 <= a < pow2(m), 0 <= x < kk;
            lemma_has_gate_last(gates, i, op, y as nat);
            lemma_fmul_laws(1, f[x], 0);
            lemma_fmul_laws(0, f[x], 0);
            lemma_fadd_laws(0, 0, 0);
            if g.operator == op && y0 == y {
                // the last gate is the only one with this operator and index
                if has_gate(pre, i, op, y as nat) {
                    let h = choose|h: int|
                        0 <= h < pre.len() && pre[h].operator == op && gate_index(i, pre[h]) == y;
                    assert(pre[h] == gates[h]);
                    lemma_gate_index_formula(i, pre[h], m);
                    let (ph, g2) = (pre[h], g);
                    let xh = (ph.left_index * n + ph.right_index) as int;
                    vstd::arithmetic::div_mod::lemma_fundamental_div_mod_converse(y, kk, ph.output_index as int, xh);
                    vstd::arithmetic::div_mod::lemma_fundamental_div_mod_converse(y, kk, g2.output_index as int, x0);
                    vstd::arithmetic::div_mod::lemma_fundamental_div_mod_converse(xh, n as int, ph.left_index as int, ph.right_index as int);
                    vstd::arithmetic::div_mod::lemma_fundamental_div_mod_converse(x0, n as int, g2.left_index as int, g2.right_index as int);
                    assert(ph == g2);
                    assert(false);
                }
                vstd::arithmetic::div_mod::lemma_fundamental_div_mod_converse(y, kk, a as int, x);
                vstd::arithmetic::div_mod::lemma_fundamental_div_mod_converse(y, kk, g.output_index as int, x0);
                assert(hit && x == x0);
                assert(f[x] < modulus());
            } else {
                if hit && x == x0 {
                    assert(y == y0) by (nonlinear_arith)
                        requires y == a * kk + x, x == x0, y0 == g.output_index * kk + x0, g.output_index == a;
                }
                lemma_field_ops_canonical(0, 0);
                if wp[y] == 1 {
                    lemma_fadd_laws(f[x], 0, 0);
                } else {
                    lemma_fadd_laws(0, 0, 0);
                }
            }
        }
        assert(row =~= Seq::new(qrow.len(), |x: int| fadd(qrow[x], d[x])));
        lemma_fsum_add(qrow, d);
        if hit {
            assert(0 <= x0 < kk);
            assert(f[x0] < modulus());
            crate::shamir_secret::lemma_fsum_single_nonzero(d, x0);
        } else {
            crate::univariate_dense::lemma_fsum_zeros(d);
        }
        let ot = op_terms(gates, f, op, a, n);
        assert(ot.drop_last() =~= op_terms(pre, f, op, a, n));
        assert(ot.last() == if hit { f[x0] } else { 0 });
        lemma_fsum_canonical(op_terms(pre, f, op, a, n));
        lemma_fadd_laws(fsum(op_terms(pre, f, op, a, n)), 0, 0);
    }
}

/// Entry `l n + r` of a tensor table of two tables of `n` entries combines entries `l`
/// and `r`.
proof fn lemma_tensor_entry(w: Seq<nat>, add: bool, l: int, r: int)
    requires
        w.len() > 0,
        0 <= l < w.len(),
        0 <= r < w.len(),
    ensures
        l * w.len() + r < tensor_table(w, w, add).len(),
        tensor_table(w, w, add)[l * w.len() + r] == if add {
            fadd(w[l], w[r])
        } else {
            fmul(w[l], w[r])
        },
{
    let n = w.len() as int;
    assert(l * n + r < n * n) by (nonlinear_arith)
        requires 0 <= l < n, 0 <= r < n;
    vstd::arithmetic::div_mod::lemma_fundamental_div_mod_converse(l * n + r, n, l, r);
}

/// A tensor table of canonical tables is canonical.
proof fn lemma_tensor_canonical(w: Seq<nat>, add: bool)
    ensures
        all_canonical(tensor_table(w, w, add)),
{
    let t = tensor_table(w, w, add);
    assert forall|k: int| 0 <= k < t.len() implies #[trigger] t[k] < modulus() by {
        let n = w.len() as int;
        lemma_field_ops_canonical(w[k / n], w[k % n]);
    }
}

/// The wiring identity of a layer: row `a` of the addition wiring weighted by the
/// sums of pairs of values of the level below, plus row `a` of the multiplication
/// wiring weighted by their products, is what the layer's gates write to `a`.
pub proof fn lemma_wiring_identity(gates: Seq<Gate>, i: nat, w: Seq<nat>, a: nat, m: nat)
    requires
        w.len() == pow2(i + 1),
        all_canonical(w),
        gates_within(gates, pow2(i + 1), pow2(m)),
        distinct_gates(gates),
        m + 2 * (i + 1) == layer_variables(i),
        layer_variables(i) < usize::BITS,
        a < pow2(m),
    ensures
        fadd(
            weighted_row(wiring_table(gates, i, Operator::Add), tensor_table(w, w, true), a as int),
            weighted_row(wiring_table(gates, i, Operator::Mul), tensor_table(w, w, false), a as int),
        ) == fsum(gate_terms(gates, w, a)),
{
    let n = pow2(i + 1);
    lemma_pow2_adds(i + 1, i + 1);
    lemma_pow2_pos(i + 1);
    let (fa, fm) = (tensor_table(w, w, true), tensor_table(w, w, false));
    lemma_tensor_canonical(w, true);
    lemma_tensor_canonical(w, false);
    lemma_wiring_row(gates, i, Operator::Add, fa, a, m);
    lemma_wiring_row(gates, i, Operator::Mul, fm, a, m);
    let (ta, tm) = (op_terms(gates, fa, Operator::Add, a, n), op_terms(gates, fm, Operator::Mul, a, n));
    lemma_fsum_add(ta, tm);
    let gt = gate_terms(gates, w, a);
    assert forall|g: int| 0 <= g < gates.len() implies #[trigger] fadd(ta[g], tm[g]) == gt[g] by {
        let gg = gates[g];
        assert(gg.left_index < n && gg.right_index < n);
        lemma_tensor_entry(w, true, gg.left_index as int, gg.right_index as int);
        lemma_tensor_entry(w, false, gg.left_index as int, gg.right_index as int);
        lemma_field_ops_canonical(w[gg.left_index as int], w[gg.right_index as int]);
        lemma_fadd_laws(fadd(w[gg.left_index as int], w[gg.right_index as int]), 0, 0);
        lemma_fadd_laws(fmul(w[gg.left_index as int], w[gg.right_index as int]), 0, 0);
        lemma_fadd_laws(0, 0, 0);
    }
    assert(Seq::new(ta.len(), |g: int| fadd(ta[g], tm[g])) =~= gt);
}

/// The multilinear extension of canonical values is canonical.
pub proof fn lemma_mle_canonical(t: Seq<nat>, rs: Seq<nat>)
    requires
        all_canonical(t),
    ensures
        mle_eval(t, rs) < modulus(),
    decreases rs.len(),
{
    if rs.len() > 0 {
        let f = fold_first(t, rs[0]);
        assert forall|v: int| 0 <= v < f.len() implies #[trigger] f[v] < modulus() by {
            lemma_field_ops_canonical(t[v], fmul(rs[0], fsub(t[v + t.len() / 2], t[v])));
        }
        lemma_mle_canonical(f, rs.drop_first());
    }
}

/// Fixing variables of a canonical table leaves canonical values.
pub proof fn lemma_fix_canonical(t: Seq<nat>, rs: Seq<nat>)
    requires
        all_canonical(t),
    ensures
        all_canonical(fix_first_vars(t, rs)),
    decreases rs.len(),
{
    if rs.len() > 0 {
        lemma_fix_canonical(t, rs.drop_last());
        let x = fix_first_vars(t, rs.drop_last());
        let f = partial_eval_table(x, 0, rs.last());
        assert forall|v: int| 0 <= v < f.len() implies #[trigger] f[v] < modulus() by {
            let k = (crate::multi_poly::log2_floor(x.len()) - 1) as nat;
            let sp = crate::bit_index::spliced(v as nat, k) as int;
            lemma_field_ops_canonical(x[sp], fmul(rs.last(), fsub(x[sp + pow2(k)], x[sp])));
        }
    }
}

/// The table that is one at `c` and zero elsewhere.
pub open spec fn unit_table(n: nat, c: int) -> Seq<nat> {
    Seq::new(n, |x: int| if x == c { 1nat } else { 0nat })
}

/// Weighting row `a` by the unit table at `c` picks its entry `c`.
proof fn lemma_unit_weight(t: Seq<nat>, n: nat, c: int, a: int)
    requires
        0 <= c < n,
        t[a * n + c] < modulus(),
    ensures
        weighted_row(t, unit_table(n, c), a) == t[a * n + c],
{
    let e = unit_table(n, c);
    let s = Seq::new(e.len(), |x: int| fmul(t[a * e.len() + x], e[x]));
    assert forall|x: int| 0 <= x < s.len() && x != c implies #[trigger] s[x] == 0 by {
        lemma_fmul_laws(t[a * n + x], 0, 0);
    }
    lemma_fmul_laws(t[a * n + c], 1, 0);
    lemma_field_ops_canonical(t[a * n + c], 1);
    crate::shamir_secret::lemma_fsum_single_nonzero(s, c);
}

/// The multilinear extension of a tensor table at `rb` then `rc` combines the
/// extensions of the two tables at `rb` and at `rc`.
pub proof fn lemma_tensor_mle(w: Seq<nat>, add: bool, rs: Seq<nat>, i: nat)
    requires
        w.len() == pow2(i + 1),
        all_canonical(w),
        rs.len() == 2 * (i + 1),
    ensures
        mle_eval(tensor_table(w, w, add), rs) == if add {
            fadd(mle_eval(w, rs.subrange(0, (i + 1) as int)), mle_eval(w, rs.subrange((i + 1) as int, (2 * (i + 1)) as int)))
        } else {
            fmul(mle_eval(w, rs.subrange(0, (i + 1) as int)), mle_eval(w, rs.subrange((i + 1) as int, (2 * (i + 1)) as int)))
        },
{
    let n = pow2(i + 1);
    lemma_pow2_pos(i + 1);
    lemma_pow2_adds(i + 1, i + 1);
    let rb = rs.subrange(0, (i + 1) as int);
    let rc = rs.subrange((i + 1) as int, (2 * (i + 1)) as int);
    assert(rs =~= rb + rc);
    let t = tensor_table(w, w, add);
    lemma_tensor_canonical(w, add);
    lemma_fix_then_mle(t, rb, rc, i + 1);
    let fx = fix_first_vars(t, rb);
    lemma_fix_canonical(t, rb);
    let u = mle_eval(w, rb);
    lemma_mle_canonical(w, rb);
    let target = if add { shifted_table(w, u) } else { scaled_table(u, w) };
    assert forall|c: int| 0 <= c < n implies #[trigger] fx[c] == target[c] by {
        let e = unit_table(n, c);
        lemma_contract_fix(t, e, rb, Seq::empty(), i + 1, i + 1);
        assert(rb + Seq::<nat>::empty() =~= rb);
        let cf = contract(fx, e);
        assert(fx.len() == n);
        assert(cf.len() == 1) by {
            vstd::arithmetic::div_mod::lemma_div_basics(n as int);
        }
        assert(fx[0 * n + c] < modulus());
        lemma_unit_weight(fx, n, c, 0);
        assert(cf[0] == fx[c]);
        let col = contract(t, e);
        assert(col.len() == n) by {
            vstd::arithmetic::div_mod::lemma_div_multiples_vanish(n as int, n as int);
        }
        assert forall|b: int| 0 <= b < n implies #[trigger] col[b] == (if add {
            fadd(w[b], w[c])
        } else {
            fmul(w[c], w[b])
        }) by {
            lemma_tensor_entry(w, add, b, c);
            lemma_field_ops_canonical(w[b], w[c]);
            lemma_unit_weight(t, n, c, b);
            lemma_fmul_laws(w[b], w[c], 0);
        }
        if add {
            assert(col =~= shifted_table(w, w[c]));
            lemma_mle_shift(w, w[c], rb);
            lemma_fadd_laws(u, w[c], 0);
        } else {
            assert(col =~= scaled_table(w[c], w));
            lemma_mle_scale(w[c], w, rb);
            lemma_fmul_laws(u, w[c], 0);
        }
    }
    assert(fx =~= target);
    if add {
        lemma_mle_shift(w, u, rc);
        lemma_fadd_laws(mle_eval(w, rc), u, 0);
    } else {
        lemma_mle_scale(u, w, rc);
    }
}

/// The multilinear extension of a sum of tables is the sum of their extensions.
pub proof fn lemma_mle_add(a: Seq<nat>, b: Seq<nat>, rs: Seq<nat>)
    requires
        a.len() == pow2(rs.len()),
        b.len() == a.len(),
    ensures
        fadd(mle_eval(a, rs), mle_eval(b, rs)) == mle_eval(
            Seq::new(a.len(), |v: int| fadd(a[v], b[v])),
            rs,
        ),
    decreases rs.len(),
{
    let sum = Seq::new(a.len(), |v: int| fadd(a[v], b[v]));
    if rs.len() == 0 {
        lemma2_to64();
    } else {
        let r = rs[0];
        lemma_pow2_unfold(rs.len());
        let (fa, fb) = (fold_first(a, r), fold_first(b, r));
        let h = a.len() / 2;
        assert(fold_first(sum, r) =~= Seq::new(fa.len(), |v: int| fadd(fa[v], fb[v]))) by {
            assert forall|v: int| 0 <= v < h implies #[trigger] fold_first(sum, r)[v] == fadd(
                fa[v],
                fb[v],
            ) by {
                crate::sumcheck::lemma_lerp_add(a[v], a[v + h], b[v], b[v + h], r);
            }
        }
        lemma_mle_add(fa, fb, rs.drop_first());
    }
}

/// `(x + y) + (z + w) == (x + z) + (y + w)` in the field.
proof fn lemma_fadd_swap(x: nat, y: nat, z: nat, w: nat)
    ensures
        fadd(fadd(x, y), fadd(z, w)) == fadd(fadd(x, z), fadd(y, w)),
{
    lemma_fadd_laws(x, y, fadd(z, w));
    lemma_fadd_laws(y, z, w);
    lemma_fadd_laws(z, y, w);
    lemma_fadd_laws(y, z, 0);
    lemma_fadd_laws(x, z, fadd(y, w));
}

/// Entry `x` of the sum of two products of two tables.
proof fn lemma_two_products(a1: Seq<nat>, f1: Seq<nat>, a2: Seq<nat>, f2: Seq<nat>, x: int)
    requires
        a1[x] < modulus(),
        a2[x] < modulus(),
    ensures
        entry_total(seq![seq![a1, f1], seq![a2, f2]], x) == fadd(
            fmul(a1[x], f1[x]),
            fmul(a2[x], f2[x]),
        ),
{
    let ts = seq![seq![a1, f1], seq![a2, f2]];
    let (p1, p2) = (seq![a1, f1], seq![a2, f2]);
    assert(ts.drop_last() =~= seq![p1]);
    assert(seq![p1].drop_last() =~= Seq::<Seq<Seq<nat>>>::empty());
    assert(p1.drop_last() =~= seq![a1]);
    assert(p2.drop_last() =~= seq![a2]);
    assert(seq![a1].drop_last() =~= Seq::<Seq<nat>>::empty());
    assert(seq![a2].drop_last() =~= Seq::<Seq<nat>>::empty());
    assert(entry_prod(Seq::<Seq<nat>>::empty(), x) == 1);
    assert(seq![a1].last() == a1 && seq![a2].last() == a2);
    assert(entry_prod(seq![a1].drop_last(), x) == 1);
    assert(entry_prod(seq![a2].drop_last(), x) == 1);
    assert(entry_prod(seq![a1], x) == fmul(1, a1[x]));
    assert(entry_prod(seq![a2], x) == fmul(1, a2[x]));
    lemma_fmul_laws(a1[x], 1, 0);
    lemma_fmul_laws(a2[x], 1, 0);
    let v1 = fmul(a1[x], f1[x]);
    lemma_field_ops_canonical(a1[x], f1[x]);
    lemma_fadd_laws(v1, 0, 0);
    assert(entry_total(Seq::<Seq<Seq<nat>>>::empty(), x) == 0);
    assert(entry_total(seq![p1].drop_last(), x) == 0);
    assert(seq![p1].last() == p1 && ts.last() == p2);
    assert(entry_total(seq![p1], x) == fadd(0, entry_prod(p1, x)));
    assert(entry_prod(p1, x) == fmul(entry_prod(seq![a1], x), f1[x]));
    assert(entry_prod(p2, x) == fmul(entry_prod(seq![a2], x), f2[x]));
}

/// A folded table weighted by `f` is the fold of the two fixed tables weighted by `f`.
proof fn lemma_folded_weight(t: Seq<nat>, f: Seq<nat>, alpha: nat, beta: nat, rb: Seq<nat>, rc: Seq<nat>)
    requires
        fix_first_vars(t, rb).len() == f.len(),
        fix_first_vars(t, rc).len() == f.len(),
    ensures
        weighted_row(folded_table(t, alpha, beta, rb, rc), f, 0) == fadd(
            fmul(alpha, weighted_row(fix_first_vars(t, rb), f, 0)),
            fmul(beta, weighted_row(fix_first_vars(t, rc), f, 0)),
        ),
{
    let (x, y) = (fix_first_vars(t, rb), fix_first_vars(t, rc));
    let ft = folded_table(t, alpha, beta, rb, rc);
    let px = Seq::new(f.len(), |k: int| fmul(x[0 * f.len() + k], f[k]));
    let py = Seq::new(f.len(), |k: int| fmul(y[0 * f.len() + k], f[k]));
    let sx = Seq::new(px.len(), |k: int| fmul(alpha, px[k]));
    let sy = Seq::new(py.len(), |k: int| fmul(beta, py[k]));
    let whole = Seq::new(f.len(), |k: int| fmul(ft[0 * f.len() + k], f[k]));
    assert forall|k: int| 0 <= k < f.len() implies #[trigger] whole[k] == fadd(sx[k], sy[k]) by {
        assert(0 * f.len() + k == k);
        lemma_fmul_distributes(f[k], fmul(alpha, x[k]), fmul(beta, y[k]));
        lemma_fmul_laws(fadd(fmul(alpha, x[k]), fmul(beta, y[k])), f[k], 0);
        lemma_fmul_laws(fmul(alpha, x[k]), f[k], 0);
        lemma_fmul_laws(fmul(beta, y[k]), f[k], 0);
        lemma_fmul_laws(alpha, x[k], f[k]);
        lemma_fmul_laws(beta, y[k], f[k]);
    }
    assert(whole =~= Seq::new(sx.len(), |k: int| fadd(sx[k], sy[k])));
    lemma_fsum_add(sx, sy);
    lemma_fsum_scale(alpha, px);
    lemma_fsum_scale(beta, py);
}

/// What the gates of a layer write to each output below `2^m`.
pub open spec fn gate_values(gates: Seq<Gate>, w: Seq<nat>, m: nat) -> Seq<nat> {
    Seq::new(pow2(m), |a: int| fsum(gate_terms(gates, w, a as nat)))
}

/// A wiring table holds zeros and ones.
proof fn lemma_wiring_canonical(gates: Seq<Gate>, i: nat, op: Operator)
    ensures
        all_canonical(wiring_table(gates, i, op)),
{
}

/// A table of `2^(1 + k)` entries with its first variable fixed to `ra`, weighted by
/// `f`, is the row sums evaluated at `ra`.
proof fn lemma_row_first(t: Seq<nat>, f: Seq<nat>, ra: nat, k: nat)
    requires
        t.len() == pow2(1 + k),
        f.len() == pow2(k),
        all_canonical(t),
    ensures
        partial_eval_table(t, 0, ra).len() == pow2(k),
        all_canonical(partial_eval_table(t, 0, ra)),
        weighted_row(partial_eval_table(t, 0, ra), f, 0) == mle_eval(contract(t, f), seq![ra]),
{
    let one = seq![ra];
    assert(one.drop_last() =~= Seq::<nat>::empty());
    assert(fix_first_vars(t, one.drop_last()) == t);
    assert(one.last() == ra);
    assert(fix_first_vars(t, one) == partial_eval_table(t, 0, ra));
    lemma_contract_fix(t, f, one, Seq::empty(), 1, k);
    lemma_fix_canonical(t, one);
    assert(one + Seq::<nat>::empty() =~= one);
    lemma_pow2_pos(k);
    assert(contract(partial_eval_table(t, 0, ra), f).len() == 1) by {
        vstd::arithmetic::div_mod::lemma_div_basics(pow2(k) as int);
    }
}

/// A folded table weighted by `f` folds the row sums evaluated at `rb` and `rc`.
proof fn lemma_row_folded(
    t: Seq<nat>,
    f: Seq<nat>,
    alpha: nat,
    beta: nat,
    rb: Seq<nat>,
    rc: Seq<nat>,
    m: nat,
    k: nat,
)
    requires
        t.len() == pow2(m + k),
        f.len() == pow2(k),
        rb.len() == m,
        rc.len() == m,
    ensures
        folded_table(t, alpha, beta, rb, rc).len() == pow2(k),
        all_canonical(folded_table(t, alpha, beta, rb, rc)),
        weighted_row(folded_table(t, alpha, beta, rb, rc), f, 0) == fadd(
            fmul(alpha, mle_eval(contract(t, f), rb)),
            fmul(beta, mle_eval(contract(t, f), rc)),
        ),
{
    lemma_contract_fix(t, f, rb, Seq::empty(), m, k);
    lemma_contract_fix(t, f, rc, Seq::empty(), m, k);
    assert(rb + Seq::<nat>::empty() =~= rb);
    assert(rc + Seq::<nat>::empty() =~= rc);
    lemma_folded_weight(t, f, alpha, beta, rb, rc);
    lemma_pow2_pos(k);
    let (x, y) = (fix_first_vars(t, rb), fix_first_vars(t, rc));
    assert(contract(x, f).len() == 1 && contract(y, f).len() == 1) by {
        vstd::arithmetic::div_mod::lemma_div_basics(pow2(k) as int);
    }
    let ft = folded_table(t, alpha, beta, rb, rc);
    assert forall|v: int| 0 <= v < ft.len() implies #[trigger] ft[v] < modulus() by {
        lemma_field_ops_canonical(fmul(alpha, x[v]), fmul(beta, y[v]));
    }
}

/// The layer's tables summed over the hypercube are the sum of the two weighted rows.
proof fn lemma_layer_rows_sum(a_t: Seq<nat>, fa: Seq<nat>, m_t: Seq<nat>, fm: Seq<nat>)
    requires
        a_t.len() == fa.len(),
        m_t.len() == fa.len(),
        fm.len() == fa.len(),
        all_canonical(a_t),
        all_canonical(m_t),
    ensures
        hypercube_sum(seq![seq![a_t, fa], seq![m_t, fm]]) == fadd(
            weighted_row(a_t, fa, 0),
            weighted_row(m_t, fm, 0),
        ),
{
    let lt = seq![seq![a_t, fa], seq![m_t, fm]];
    let kk = fa.len();
    let pa = Seq::new(fa.len(), |x: int| fmul(a_t[0 * fa.len() + x], fa[x]));
    let pm = Seq::new(fm.len(), |x: int| fmul(m_t[0 * fm.len() + x], fm[x]));
    assert(lt[0][0] == a_t);
    assert(Seq::new(lt[0][0].len(), |x: int| entry_total(lt, x)) =~= Seq::new(
        pa.len(),
        |x: int| fadd(pa[x], pm[x]),
    )) by {
        assert forall|x: int| 0 <= x < kk implies #[trigger] entry_total(lt, x) == fadd(pa[x], pm[x]) by {
            lemma_two_products(a_t, fa, m_t, fm, x);
            assert(0 * fa.len() + x == x);
        }
    }
    lemma_fsum_add(pa, pm);
}

/// The sum over the boolean hypercube of layer `i`'s sum-check polynomial: the
/// layer's values evaluated at `ra` for the first layer, else folded from their
/// values at the two halves of the previous challenges.
pub proof fn lemma_layer_sum(
    gates: Seq<Gate>,
    i: nat,
    ra: nat,
    alpha: nat,
    beta: nat,
    prev: Seq<nat>,
    w: Seq<nat>,
    m: nat,
)
    requires
        w.len() == pow2(i + 1),
        all_canonical(w),
        gates_within(gates, pow2(i + 1), pow2(m)),
        distinct_gates(gates),
        m + 2 * (i + 1) == layer_variables(i),
        layer_variables(i) < usize::BITS,
        m == if i == 0 { 1nat } else { i },
        i >= 1 ==> prev.len() == 2 * i,
    ensures
        hypercube_sum(layer_tables(gates, i, ra, alpha, beta, prev, w)) == if i == 0 {
            mle_eval(gate_values(gates, w, m), seq![ra])
        } else {
            fadd(
                fmul(alpha, mle_eval(gate_values(gates, w, m), prev.subrange(0, i as int))),
                fmul(beta, mle_eval(gate_values(gates, w, m), prev.subrange(i as int, (2 * i) as int))),
            )
        },
{
    let k = 2 * (i + 1);
    lemma_pow2_adds(i + 1, i + 1);
    lemma_pow2_adds(m, k);
    let (wa, wm) = (wiring_table(gates, i, Operator::Add), wiring_table(gates, i, Operator::Mul));
    let (fa, fm) = (tensor_table(w, w, true), tensor_table(w, w, false));
    lemma_wiring_canonical(gates, i, Operator::Add);
    lemma_wiring_canonical(gates, i, Operator::Mul);
    let (ca, cm) = (contract(wa, fa), contract(wm, fm));
    lemma_contract_fold(wa, fa, 0, m, k);
    lemma_contract_fold(wm, fm, 0, m, k);
    let gv = gate_values(gates, w, m);
    assert(Seq::new(ca.len(), |a: int| fadd(ca[a], cm[a])) =~= gv) by {
        assert forall|a: int| 0 <= a < pow2(m) implies fadd(ca[a], cm[a]) == #[trigger] gv[a] by {
            lemma_wiring_identity(gates, i, w, a as nat, m);
            assert(ca[a] == weighted_row(wa, fa, a));
            assert(cm[a] == weighted_row(wm, fm, a));
            assert(gv[a] == fsum(gate_terms(gates, w, a as nat)));
        }
    }
    let a_t = layer_wiring(gates, i, Operator::Add, ra, alpha, beta, prev);
    let m_t = layer_wiring(gates, i, Operator::Mul, ra, alpha, beta, prev);
    if i == 0 {
        lemma_row_first(wa, fa, ra, k);
        lemma_row_first(wm, fm, ra, k);
        lemma_layer_rows_sum(a_t, fa, m_t, fm);
        lemma_mle_add(ca, cm, seq![ra]);
    } else {
        let rb = prev.subrange(0, i as int);
        let rc = prev.subrange(i as int, (2 * i) as int);
        lemma_row_folded(wa, fa, alpha, beta, rb, rc, m, k);
        lemma_row_folded(wm, fm, alpha, beta, rb, rc, m, k);
        lemma_layer_rows_sum(a_t, fa, m_t, fm);
        lemma_mle_add(ca, cm, rb);
        lemma_mle_add(ca, cm, rc);
        let (a1, b1, a2, b2) = (mle_eval(ca, rb), mle_eval(ca, rc), mle_eval(cm, rb), mle_eval(cm, rc));
        lemma_fadd_swap(fmul(alpha, a1), fmul(beta, b1), fmul(alpha, a2), fmul(beta, b2));
        lemma_fmul_distributes(alpha, a1, a2);
        lemma_fmul_distributes(beta, b1, b2);
    }
}

/// Fixing the first variables of all tables fixes them in each table.
pub proof fn lemma_fix_vars_entry(ts: Seq<Seq<Seq<nat>>>, rs: Seq<nat>)
    ensures
        fix_vars(ts, rs).len() == ts.len(),
        forall|p: int| 0 <= p < ts.len() ==> (#[trigger] fix_vars(ts, rs)[p]).len() == ts[p].len(),
        forall|p: int, j: int|
            0 <= p < ts.len() && 0 <= j < ts[p].len() ==> (#[trigger] fix_vars(ts, rs)[p][j])
                == fix_first_vars(ts[p][j], rs),
    decreases rs.len(),
{
    if rs.len() > 0 {
        lemma_fix_vars_entry(ts, rs.drop_last());
    }
}

/// Two products of tables of one entry summed over the one-point hypercube.
proof fn lemma_single_point_sum(a1: Seq<nat>, f1: Seq<nat>, m1: Seq<nat>, g1: Seq<nat>)
    requires
        a1.len() == 1,
        f1.len() == 1,
        m1.len() == 1,
        g1.len() == 1,
        a1[0] < modulus(),
        m1[0] < modulus(),
    ensures
        hypercube_sum(seq![seq![a1, f1], seq![m1, g1]]) == fadd(
            fmul(a1[0], f1[0]),
            fmul(m1[0], g1[0]),
        ),
{
    assert(all_canonical(a1) && all_canonical(m1));
    lemma_layer_rows_sum(a1, f1, m1, g1);
    let p1 = Seq::new(f1.len(), |x: int| fmul(a1[0 * f1.len() + x], f1[x]));
    let p2 = Seq::new(g1.len(), |x: int| fmul(m1[0 * g1.len() + x], g1[x]));
    assert(p1.drop_last() =~= Seq::<nat>::empty());
    assert(p2.drop_last() =~= Seq::<nat>::empty());
    assert(p1[0] == fmul(a1[0], f1[0]));
    assert(p2[0] == fmul(m1[0], g1[0]));
    assert(fsum(p1) == fadd(fsum(p1.drop_last()), p1[0]));
    assert(fsum(p2) == fadd(fsum(p2.drop_last()), p2[0]));
    assert(fsum(Seq::<nat>::empty()) == 0);
    lemma_field_ops_canonical(a1[0], f1[0]);
    lemma_field_ops_canonical(m1[0], g1[0]);
    lemma_fadd_laws(fmul(a1[0], f1[0]), 0, 0);
    lemma_fadd_laws(fmul(m1[0], g1[0]), 0, 0);
}

/// A table of `2^(ch.len())` entries with all variables fixed to `ch`: one entry, its
/// extension's value at `ch`.
proof fn lemma_fix_all(t: Seq<nat>, ch: Seq<nat>)
    requires
        t.len() == pow2(ch.len()),
        all_canonical(t),
    ensures
        fix_first_vars(t, ch).len() == 1,
        fix_first_vars(t, ch)[0] == mle_eval(t, ch),
        mle_eval(t, ch) < modulus(),
{
    assert(ch + Seq::<nat>::empty() =~= ch);
    assert(ch.len() + 0 == ch.len());
    lemma_fix_then_mle(t, ch, Seq::empty(), 0);
    lemma2_to64();
    lemma_mle_canonical(t, ch);
}

/// Two products of two tables with all variables fixed to `ch`, summed over the
/// (now single-point) hypercube: the products of the tables' extensions at `ch`.
proof fn lemma_end_value(a_t: Seq<nat>, fa: Seq<nat>, m_t: Seq<nat>, fm: Seq<nat>, ch: Seq<nat>)
    requires
        a_t.len() == pow2(ch.len()),
        fa.len() == pow2(ch.len()),
        m_t.len() == pow2(ch.len()),
        fm.len() == pow2(ch.len()),
        all_canonical(a_t),
        all_canonical(m_t),
        all_canonical(fa),
        all_canonical(fm),
    ensures
        hypercube_sum(fix_vars(seq![seq![a_t, fa], seq![m_t, fm]], ch)) == fadd(
            fmul(mle_eval(a_t, ch), mle_eval(fa, ch)),
            fmul(mle_eval(m_t, ch), mle_eval(fm, ch)),
        ),
{
    let lt = seq![seq![a_t, fa], seq![m_t, fm]];
    lemma_fix_vars_entry(lt, ch);
    let f = fix_vars(lt, ch);
    lemma_fix_all(a_t, ch);
    lemma_fix_all(m_t, ch);
    lemma_fix_all(fa, ch);
    lemma_fix_all(fm, ch);
    let (a1, f1, m1, g1) = (
        fix_first_vars(a_t, ch),
        fix_first_vars(fa, ch),
        fix_first_vars(m_t, ch),
        fix_first_vars(fm, ch),
    );
    assert(f =~= seq![seq![a1, f1], seq![m1, g1]]) by {
        assert(f[0][0] == a1 && f[0][1] == f1 && f[1][0] == m1 && f[1][1] == g1);
        assert(f[0] =~= seq![a1, f1]);
        assert(f[1] =~= seq![m1, g1]);
    }
    lemma_single_point_sum(a1, f1, m1, g1);
}

/// The sum-check polynomial of layer `i` with all its variables fixed to `ch`: the
/// claim its wiring gives with the level below's values at the two halves of `ch`.
pub proof fn lemma_layer_end(
    gates: Seq<Gate>,
    i: nat,
    ra: nat,
    alpha: nat,
    beta: nat,
    prev: Seq<nat>,
    w: Seq<nat>,
    m: nat,
    ch: Seq<nat>,
)
    requires
        w.len() == pow2(i + 1),
        all_canonical(w),
        m + 2 * (i + 1) == layer_variables(i),
        m == if i == 0 { 1nat } else { i },
        i >= 1 ==> prev.len() == 2 * i,
        ch.len() == 2 * (i + 1),
    ensures
        hypercube_sum(fix_vars(layer_tables(gates, i, ra, alpha, beta, prev, w), ch)) == layer_claim(
            gates,
            i,
            ra,
            alpha,
            beta,
            prev,
            ch,
            mle_eval(w, ch.subrange(0, (i + 1) as int)),
            mle_eval(w, ch.subrange((i + 1) as int, (2 * (i + 1)) as int)),
        ),
{
    let k = 2 * (i + 1);
    lemma_pow2_adds(i + 1, i + 1);
    lemma_pow2_adds(m, k);
    let (wa, wm) = (wiring_table(gates, i, Operator::Add), wiring_table(gates, i, Operator::Mul));
    let (fa, fm) = (tensor_table(w, w, true), tensor_table(w, w, false));
    lemma_wiring_canonical(gates, i, Operator::Add);
    lemma_wiring_canonical(gates, i, Operator::Mul);
    let a_t = layer_wiring(gates, i, Operator::Add, ra, alpha, beta, prev);
    let m_t = layer_wiring(gates, i, Operator::Mul, ra, alpha, beta, prev);
    if i == 0 {
        lemma_row_first(wa, fa, ra, k);
        lemma_row_first(wm, fm, ra, k);
    } else {
        let rb = prev.subrange(0, i as int);
        let rc = prev.subrange(i as int, (2 * i) as int);
        lemma_row_folded(wa, fa, alpha, beta, rb, rc, m, k);
        lemma_row_folded(wm, fm, alpha, beta, rb, rc, m, k);
    }
    lemma_tensor_canonical(w, true);
    lemma_tensor_canonical(w, false);
    lemma_end_value(a_t, fa, m_t, fm, ch);
    lemma_tensor_mle(w, true, ch, i);
    lemma_tensor_mle(w, false, ch, i);
}

/// The number of output variables of layer `i`'s wiring: one for the first layer
/// (its output index takes one binary digit at least), else `i`.
pub open spec fn output_vars(i: nat) -> nat {
    if i == 0 {
        1
    } else {
        i
    }
}

/// Layer `i`'s sum-check polynomial has four tables of `2^(2 (i + 1))` canonical
/// entries, two factors per product.
pub proof fn lemma_layer_tables_in(
    gates: Seq<Gate>,
    i: nat,
    ra: nat,
    alpha: nat,
    beta: nat,
    prev: Seq<nat>,
    w: Seq<nat>,
)
    requires
        w.len() == pow2(i + 1),
        output_vars(i) + 2 * (i + 1) == layer_variables(i),
        i >= 1 ==> prev.len() == 2 * i,
    ensures
        tables_in(layer_tables(gates, i, ra, alpha, beta, prev, w), 2 * (i + 1)),
        factors_at_most(layer_tables(gates, i, ra, alpha, beta, prev, w), 2),
{
    let m = output_vars(i);
    let k = 2 * (i + 1);
    lemma_pow2_adds(i + 1, i + 1);
    lemma_pow2_adds(m, k);
    let (wa, wm) = (wiring_table(gates, i, Operator::Add), wiring_table(gates, i, Operator::Mul));
    let (fa, fm) = (tensor_table(w, w, true), tensor_table(w, w, false));
    lemma_wiring_canonical(gates, i, Operator::Add);
    lemma_wiring_canonical(gates, i, Operator::Mul);
    if i == 0 {
        lemma_row_first(wa, fa, ra, k);
        lemma_row_first(wm, fm, ra, k);
    } else {
        let rb = prev.subrange(0, i as int);
        let rc = prev.subrange(i as int, (2 * i) as int);
        lemma_row_folded(wa, fa, alpha, beta, rb, rc, m, k);
        lemma_row_folded(wm, fm, alpha, beta, rb, rc, m, k);
    }
    lemma_tensor_canonical(w, true);
    lemma_tensor_canonical(w, false);
    let lt = layer_tables(gates, i, ra, alpha, beta, prev, w);
    assert(lt[0][0] == layer_wiring(gates, i, Operator::Add, ra, alpha, beta, prev));
    assert(lt[1][0] == layer_wiring(gates, i, Operator::Mul, ra, alpha, beta, prev));
    assert(lt[0][1] == fa && lt[1][1] == fm);
    assert forall|p: int, j: int| 0 <= p < lt.len() && 0 <= j < lt[p].len() implies (
    #[trigger] lt[p][j]).len() == pow2(k) && all_canonical(lt[p][j]) by {
        assert(p == 0 || p == 1);
        assert(j == 0 || j == 1);
    }
}

/// The levels of a circuit of the shape the prover needs: level `k` (padded to two
/// values for the output) is what layer `k`'s gates write from level `k + 1`, the
/// gates read inside level `k + 1` and write below `2^(output_vars(k))`, and every
/// level is canonical.
pub proof fn lemma_level_facts(ls: Seq<Layer>, iv: Seq<nat>, k: int)
    requires
        gkr_shape(ls, iv.len()),
        all_canonical(iv),
        0 <= k < ls.len(),
    ensures
        layer_values(ls, iv, k + 1).len() == pow2((k + 1) as nat),
        all_canonical(layer_values(ls, iv, k + 1)),
        gates_within(ls[k].gates@, pow2((k + 1) as nat), pow2(output_vars(k as nat))),
        k >= 1 ==> layer_values(ls, iv, k) == gate_values(
            ls[k].gates@,
            layer_values(ls, iv, k + 1),
            output_vars(k as nat),
        ),
        k == 0 ==> output_table(layer_values(ls, iv, 0)) == gate_values(
            ls[0].gates@,
            layer_values(ls, iv, 1),
            1,
        ),
        output_vars(k as nat) + 2 * (k + 1) == layer_variables(k as nat),
        layer_variables(k as nat) < usize::BITS,
{
    let n = ls.len() as int;
    let g = ls[k].gates@;
    let m = output_vars(k as nat);
    lemma_level_len(ls, iv, k + 1);
    let w = layer_values(ls, iv, k + 1);
    assert(wiring_fits(ls));
    assert(layer_variables(k as nat) < usize::BITS);
    // the level below
    if k + 1 < n {
        assert forall|x: int| 0 <= x < w.len() implies #[trigger] w[x] < modulus() by {
            lemma_fsum_canonical(gate_terms(ls[k + 1].gates@, layer_values(ls, iv, k + 2), x as nat));
        }
    } else {
        assert(w == iv);
    }
    // the gates read inside it and write below 2^m
    assert(well_wired(ls, iv.len()));
    assert(gates_fit(g, input_width(ls, iv.len(), k)));
    assert(input_width(ls, iv.len(), k) == pow2((k + 1) as nat)) by {
        if k + 1 < n {
            assert(max_output(ls[k + 1].gates@) + 1 == pow2((k + 1) as nat));
        }
    }
    lemma_max_output(g);
    lemma2_to64();
    assert(max_output(g) + 1 <= pow2(m)) by {
        if k >= 1 {
            assert(max_output(ls[k].gates@) + 1 == pow2(k as nat));
        }
    }
    assert forall|x: int| 0 <= x < g.len() implies (#[trigger] g[x]).left_index < pow2((k + 1) as nat)
        && g[x].right_index < pow2((k + 1) as nat) && g[x].output_index < pow2(m) by {
        assert(g[x].output_index <= max_output(g));
    }
    // the level itself
    let gv = gate_values(g, w, m);
    let lo = layer_out(g, w);
    assert(layer_values(ls, iv, k) == lo) by {
        if k >= 1 {
            assert(layer_input(ls, iv, k - 1) == layer_out(ls[k].gates@, layer_input(ls, iv, k)));
        }
    }
    if k >= 1 {
        assert(lo =~= gv);
    } else {
        let ot = output_table(lo);
        assert forall|a: int| 0 <= a < 2 implies #[trigger] ot[a] == gv[a] by {
            if a >= lo.len() {
                assert(lo.len() == 1 && a == 1);
                assert forall|t: int| 0 <= t < g.len() implies #[trigger] gate_terms(g, w, a as nat)[t]
                    == 0 by {
                    assert(g[t].output_index <= max_output(g));
                }
                crate::univariate_dense::lemma_fsum_zeros(gate_terms(g, w, a as nat));
            }
        }
        assert(ot =~= gv);
    }
}

/// The claim the prover carries into layer `k` is the sum over the hypercube of the
/// layer's sum-check polynomial.
proof fn lemma_claim_is_sum(ls: Seq<Layer>, iv: Seq<nat>, proof: GKRProof, t0: Seq<u8>, k: int)
    requires
        gkr_shape(ls, iv.len()),
        all_canonical(iv),
        forall|i: int| 0 <= i < ls.len() ==> distinct_gates(#[trigger] ls[i].gates@),
        honest_proof(ls, iv, proof, t0),
        0 <= k < ls.len(),
    ensures
        ({
            let out = layer_values(ls, iv, 0);
            let ra = verifier_start(t0, out).0;
            let s = prover_state(proof.sumcheck_proofs@, proof.wb_evals@, proof.wc_evals@, t0, out, k);
            &&& k >= 1 ==> s.4.len() == 2 * k
            &&& s.1 == hypercube_sum(
                layer_tables(ls[k].gates@, k as nat, ra, s.2, s.3, s.4, layer_values(ls, iv, k + 1)),
            )
        }),
{
    reveal(honest_proof);
    let out = layer_values(ls, iv, 0);
    let ra = verifier_start(t0, out).0;
    let (scs, wbs, wcs) = (proof.sumcheck_proofs@, proof.wb_evals@, proof.wc_evals@);
    let s = prover_state(scs, wbs, wcs, t0, out, k);
    let m = output_vars(k as nat);
    lemma_level_facts(ls, iv, k);
    let w = layer_values(ls, iv, k + 1);
    let g = ls[k].gates@;
    assert(distinct_gates(g));
    if k >= 1 {
        assert(scs[k - 1].random_challenges.len() == 2 * k);
        assert(vals(scs[k - 1].random_challenges@).len() == 2 * k);
        assert(s.4 == vals(scs[k - 1].random_challenges@));
    }
    lemma_layer_sum(g, k as nat, ra, s.2, s.3, s.4, w, m);
    if k >= 1 {
        lemma_level_facts(ls, iv, k - 1);
        assert(wbs[k - 1].val() == mle_eval(
            layer_values(ls, iv, k),
            vals(scs[k - 1].random_challenges@).subrange(0, k),
        ));
        assert(wcs[k - 1].val() == mle_eval(
            layer_values(ls, iv, k),
            vals(scs[k - 1].random_challenges@).subrange(k, 2 * k),
        ));
    }
}

/// The verifier's work on layer `k` of an honest proof, from the prover's state: it
/// accepts, and below the last layer it ends in the prover's next state.
proof fn lemma_gkr_layer(ls: Seq<Layer>, iv: Seq<nat>, proof: GKRProof, t0: Seq<u8>, k: int)
    requires
        gkr_shape(ls, iv.len()),
        all_canonical(iv),
        forall|i: int| 0 <= i < ls.len() ==> distinct_gates(#[trigger] ls[i].gates@),
        honest_proof(ls, iv, proof, t0),
        0 <= k < ls.len(),
    ensures
        ({
            let out = layer_values(ls, iv, 0);
            let ra = verifier_start(t0, out).0;
            let (scs, wbs, wcs) = (proof.sumcheck_proofs@, proof.wb_evals@, proof.wc_evals@);
            let s = prover_state(scs, wbs, wcs, t0, out, k);
            &&& verifier_step(ls, proof, iv, ra, k, s).0
            &&& k < ls.len() - 1 ==> verifier_step(ls, proof, iv, ra, k, s) == prover_state(
                scs,
                wbs,
                wcs,
                t0,
                out,
                k + 1,
            )
        }),
{
    lemma_claim_is_sum(ls, iv, proof, t0, k);
    reveal(honest_proof);
    let out = layer_values(ls, iv, 0);
    let ra = verifier_start(t0, out).0;
    let (scs, wbs, wcs) = (proof.sumcheck_proofs@, proof.wb_evals@, proof.wc_evals@);
    let s = prover_state(scs, wbs, wcs, t0, out, k);
    let m = output_vars(k as nat);
    lemma_level_facts(ls, iv, k);
    let w = layer_values(ls, iv, k + 1);
    let g = ls[k].gates@;
    let sc = scs[k];
    assert(honest_layer(sc, g, k as nat, ra, s, w));
    reveal(honest_layer);
    let polys = poly_terms(sc.round_univariate_polynomials@);
    let ch = vals(sc.random_challenges@);
    let st = s.5 + be_bytes(s.1, 32);
    let lt = layer_tables(g, k as nat, ra, s.2, s.3, s.4, w);
    lemma_layer_tables_in(g, k as nat, ra, s.2, s.3, s.4, w);
    lemma_small_points_invertible(2);
    assert(polys.len() == 2 * (k + 1));
    lemma_sumcheck_rounds_complete(lt, (2 * (k + 1)) as nat, 2, st, polys);
    lemma_chain_prefix(st, polys, 0);
    assert(ch.len() == 2 * (k + 1));
    lemma_layer_end(g, k as nat, ra, s.2, s.3, s.4, w, m, ch);
    if k == ls.len() - 1 {
        assert(w == iv);
    }
}

/// Before each layer the verifier of an honest proof is in the prover's state.
proof fn lemma_gkr_prefix(ls: Seq<Layer>, iv: Seq<nat>, proof: GKRProof, t0: Seq<u8>, k: int)
    requires
        gkr_shape(ls, iv.len()),
        all_canonical(iv),
        forall|i: int| 0 <= i < ls.len() ==> distinct_gates(#[trigger] ls[i].gates@),
        honest_proof(ls, iv, proof, t0),
        0 <= k < ls.len(),
    ensures
        ({
            let out = layer_values(ls, iv, 0);
            let start = verifier_start(t0, out);
            verifier_run(ls, proof, iv, start.0, k, start.1) == prover_state(
                proof.sumcheck_proofs@,
                proof.wb_evals@,
                proof.wc_evals@,
                t0,
                out,
                k,
            )
        }),
    decreases k,
{
    if k > 0 {
        lemma_gkr_prefix(ls, iv, proof, t0, k - 1);
        lemma_gkr_layer(ls, iv, proof, t0, k - 1);
    }
}

/// Completeness of GKR: for a circuit of the shape the prover needs, whose layers
/// hold no gate twice, the proof `prove_gkr` makes on the input `iv` from transcript
/// `t0` is accepted by the verifier starting from the same transcript and reading
/// the same output level.
pub proof fn lemma_gkr_complete(ls: Seq<Layer>, iv: Seq<nat>, proof: GKRProof, t0: Seq<u8>)
    requires
        gkr_shape(ls, iv.len()),
        all_canonical(iv),
        forall|i: int| 0 <= i < ls.len() ==> distinct_gates(#[trigger] ls[i].gates@),
        honest_proof(ls, iv, proof, t0),
    ensures
        gkr_verdict(ls, proof, iv, layer_values(ls, iv, 0), t0).0,
{
    let n = ls.len() as int;
    lemma_gkr_prefix(ls, iv, proof, t0, n - 1);
    lemma_gkr_layer(ls, iv, proof, t0, n - 1);
}

} // verus!
