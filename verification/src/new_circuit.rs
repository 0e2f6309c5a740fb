//! Layered arithmetic circuits of addition and multiplication gates, evaluated
//! layer by layer from the input, and the wiring polynomials of a layer.
use crate::field::{
    ark_add, ark_mul, ark_one, ark_zero, fadd, fmul, fsum, lemma_fadd_laws,
    vals, FieldElement,
};
use crate::multi_poly::{copy_elements, floor_log2, lemma_pow2_fits, log2_floor, MultiPoly};
use vstd::arithmetic::power2::*;
use vstd::prelude::*;

verus! {

/// What a gate does with its two inputs.
#[derive(Debug, Clone, Copy)]
pub enum Operator {
    Add,
    Mul,
}

/// A gate reads the values at `left_index` and `right_index` of the layer below
/// and adds its result into `output_index` of its own layer.
#[derive(Debug, Clone)]
pub struct Gate {
    pub left_index: usize,
    pub right_index: usize,
    pub output_index: usize,
    pub operator: Operator,
}

/// The value of a gate on the values `input` of the layer below.
pub open spec fn gate_value(g: Gate, input: Seq<nat>) -> nat {
    match g.operator {
        Operator::Add => fadd(input[g.left_index as int], input[g.right_index as int]),
        Operator::Mul => fmul(input[g.left_index as int], input[g.right_index as int]),
    }
}

/// The largest output index of the gates, `0` when there are none.
pub open spec fn max_output(gates: Seq<Gate>) -> nat
    decreases gates.len(),
{
    if gates.len() == 0 {
        0
    } else {
        let m = max_output(gates.drop_last());
        if gates.last().output_index > m {
            gates.last().output_index as nat
        } else {
            m
        }
    }
}

/// What each gate adds into output `k`: its value if it writes there, else zero.
pub open spec fn gate_terms(gates: Seq<Gate>, input: Seq<nat>, k: nat) -> Seq<nat> {
    Seq::new(
        gates.len(),
        |g: int| if gates[g].output_index == k { gate_value(gates[g], input) } else { 0 },
    )
}

/// The values of a layer: at each index up to the largest output index, the sum of
/// the gates that write there.
pub open spec fn layer_out(gates: Seq<Gate>, input: Seq<nat>) -> Seq<nat> {
    Seq::new(max_output(gates) + 1, |k: int| fsum(gate_terms(gates, input, k as nat)))
}

/// Every gate reads inside a layer of `width` values.
pub open spec fn gates_fit(gates: Seq<Gate>, width: nat) -> bool {
    forall|g: int|
        0 <= g < gates.len() ==> #[trigger] gates[g].left_index < width && gates[g].right_index
            < width
}

/// Every output index is at most the largest one.
pub proof fn lemma_max_output(gates: Seq<Gate>)
    ensures
        forall|g: int| 0 <= g < gates.len() ==> #[trigger] gates[g].output_index <= max_output(gates),
        gates.len() > 0 ==> exists|g: int|
            0 <= g < gates.len() && #[trigger] gates[g].output_index == max_output(gates),
    decreases gates.len(),
{
    if gates.len() > 0 {
        let g1 = gates.drop_last();
        lemma_max_output(g1);
        assert forall|g: int| 0 <= g < gates.len() implies #[trigger] gates[g].output_index
            <= max_output(gates) by {
            if g < g1.len() {
                assert(g1[g] == gates[g]);
            }
        }
        if gates.last().output_index > max_output(g1) {
            assert(gates[gates.len() - 1].output_index == max_output(gates));
        } else if g1.len() > 0 {
            let g = choose|g: int| 0 <= g < g1.len() && #[trigger] g1[g].output_index == max_output(g1);
            assert(gates[g] == g1[g]);
        } else {
            assert(max_output(g1) == 0);
            assert(gates[0].output_index == 0);
        }
    }
}

impl Gate {
    /// A gate with the given wires and operator.
    pub fn new(left_index: usize, right_index: usize, output_index: usize, operator: Operator) -> (r:
        Gate)
        ensures
            r.left_index == left_index,
            r.right_index == right_index,
            r.output_index == output_index,
            r.operator == operator,
    {
        Gate { left_index, right_index, output_index, operator }
    }

    /// Output of this gate for the given input layer.
    pub fn evaluate(&self, input: &[FieldElement]) -> (r: FieldElement)
        requires
            self.left_index < input.len(),
            self.right_index < input.len(),
        ensures
            r.val() == gate_value(*self, vals(input@)),
    {
        let left_value = input[self.left_index];
        let right_value = input[self.right_index];
        match self.operator {
            Operator::Add => ark_add(left_value, right_value),
            Operator::Mul => ark_mul(left_value, right_value),
        }
    }
}

/// One layer of gates.
#[derive(Debug, Clone)]
pub struct Layer {
    pub gates: Vec<Gate>,
}

impl Layer {
    /// A layer of the given gates.
    pub fn new(gates: Vec<Gate>) -> (r: Layer)
        ensures
            r.gates@ == gates@,
    {
        Layer { gates }
    }

    /// The values of the layer on the values `input` of the layer below: one entry
    /// per index up to the largest output index, each the field sum of the gates
    /// that write there.
    pub fn evaluate(&self, input: &[FieldElement]) -> (r: Vec<FieldElement>)
        requires
            gates_fit(self.gates@, input.len() as nat),
            max_output(self.gates@) < usize::MAX,
        ensures
            vals(r@) == layer_out(self.gates@, vals(input@)),
    {
        let ghost gs = self.gates@;
        let ghost iv = vals(input@);
        let mut max_output_index: usize = 0;
        let mut i: usize = 0;
        while i < self.gates.len()
            invariant
                i <= self.gates.len(),
                gs == self.gates@,
                max_output_index == max_output(gs.subrange(0, i as int)),
            decreases self.gates.len() - i,
        {
            proof {
                assert(gs.subrange(0, i + 1).drop_last() =~= gs.subrange(0, i as int));
            }
            if self.gates[i].output_index > max_output_index {
                max_output_index = self.gates[i].output_index;
            }
            i = i + 1;
        }
        assert(gs.subrange(0, gs.len() as int) =~= gs);
        let len = max_output_index + 1;
        let zero = ark_zero();
        let mut output: Vec<FieldElement> = Vec::new();
        while output.len() < len
            invariant
                output.len() <= len,
                zero.val() == 0,
                forall|k: int| 0 <= k < output.len() ==> #[trigger] output[k].val() == 0,
            decreases len - output.len(),
        {
            output.push(zero);
        }
        proof {
            lemma_max_output(gs);
            assert forall|k: int| 0 <= k < len implies #[trigger] output[k].val() == fsum(
                gate_terms(gs.subrange(0, 0), iv, k as nat),
            ) by {
                assert(gate_terms(gs.subrange(0, 0), iv, k as nat) =~= Seq::<nat>::empty());
            }
        }
        let mut g: usize = 0;
        while g < self.gates.len()
            invariant
                g <= self.gates.len(),
                gs == self.gates@,
                iv == vals(input@),
                gates_fit(gs, input.len() as nat),
                len == max_output(gs) + 1,
                output.len() == len,
                forall|k: int| 0 <= k < gs.len() ==> #[trigger] gs[k].output_index < len,
                forall|k: int|
                    0 <= k < len ==> #[trigger] output[k].val() == fsum(
                        gate_terms(gs.subrange(0, g as int), iv, k as nat),
                    ),
            decreases self.gates.len() - g,
        {
            let gate = &self.gates[g];
            proof {
                assert(gs[g as int].left_index < input.len());
            }
            let result = gate.evaluate(input);
            let o = gate.output_index;
            let current = output[o];
            output.set(o, ark_add(current, result));
            proof {
                assert forall|k: int| 0 <= k < len implies #[trigger] output[k].val() == fsum(
                    gate_terms(gs.subrange(0, g + 1), iv, k as nat),
                ) by {
                    let before = gate_terms(gs.subrange(0, g as int), iv, k as nat);
                    let after = gate_terms(gs.subrange(0, g + 1), iv, k as nat);
                    assert(after.drop_last() =~= before);
                    crate::field::lemma_fsum_canonical(before);
                    lemma_fadd_laws(fsum(before), 0, 0);
                }
            }
            g = g + 1;
        }
        proof {
            assert(gs.subrange(0, gs.len() as int) =~= gs);
            assert(vals(output@) =~= layer_out(gs, iv));
        }
        output
    }
}

/// The number of values feeding layer `i`: the width of the input for the
/// layer nearest the input, else the width of the layer below.
pub open spec fn input_width(layers: Seq<Layer>, input_len: nat, i: int) -> nat {
    if i + 1 >= layers.len() {
        input_len
    } else {
        max_output(layers[i + 1].gates@) + 1
    }
}

/// Every gate reads inside the layer below it, and every layer's width fits a `usize`.
pub open spec fn well_wired(layers: Seq<Layer>, input_len: nat) -> bool {
    forall|i: int|
        0 <= i < layers.len() ==> #[trigger] gates_fit(
            layers[i].gates@,
            input_width(layers, input_len, i),
        ) && max_output(layers[i].gates@) < usize::MAX
}

/// The values feeding layer `i`: the input for the layer nearest the input
/// (the last one), else the values of the layer below.
pub open spec fn layer_input(layers: Seq<Layer>, input: Seq<nat>, i: int) -> Seq<nat>
    decreases layers.len() - i,
{
    if i + 1 >= layers.len() {
        input
    } else {
        layer_out(layers[i + 1].gates@, layer_input(layers, input, i + 1))
    }
}

/// The values of level `i` of the circuit: its output for `i == 0`, else the values
/// feeding layer `i - 1` (the input for the last level).
pub open spec fn layer_values(layers: Seq<Layer>, input: Seq<nat>, i: int) -> Seq<nat> {
    if i == 0 {
        layer_out(layers[0].gates@, layer_input(layers, input, 0))
    } else {
        layer_input(layers, input, i - 1)
    }
}

/// The number of variables of the wiring polynomials of layer `i`.
pub open spec fn layer_variables(i: nat) -> nat {
    if i == 0 {
        3
    } else {
        3 * i + 2
    }
}

/// The number of binary digits of `x`, one for zero.
pub open spec fn binary_width(x: nat) -> nat
    decreases x,
{
    if x < 2 {
        1
    } else {
        1 + binary_width(x / 2)
    }
}

/// The width of `x` written in binary and padded with zeros to at least `w` digits.
pub open spec fn padded_width(x: nat, w: nat) -> nat {
    if binary_width(x) > w {
        binary_width(x)
    } else {
        w
    }
}

/// The index of a gate of layer `i` in the wiring polynomials: the binary digits of
/// its output index (at least `i` of them), then of its left and right indices (at
/// least `i + 1` each), read as one binary number; zero when that number does not
/// fit a `usize`.
pub open spec fn gate_index(i: nat, g: Gate) -> nat {
    let wb = padded_width(g.left_index as nat, i + 1);
    let wc = padded_width(g.right_index as nat, i + 1);
    let v = g.output_index * pow2(wb + wc) + g.left_index * pow2(wc) + g.right_index;
    if v <= usize::MAX {
        v as nat
    } else {
        0
    }
}

/// Whether some gate with operator `op` has index `k`.
pub open spec fn has_gate(gates: Seq<Gate>, i: nat, op: Operator, k: nat) -> bool {
    exists|g: int| 0 <= g < gates.len() && gates[g].operator == op && gate_index(i, gates[g]) == k
}

/// The number of binary digits of `x`.
fn binary_digits(x: usize) -> (r: usize)
    ensures
        r == binary_width(x as nat),
{
    let mut w: usize = 1;
    let mut y: usize = x;
    while y >= 2
        invariant
            1 <= w,
            w - 1 + y <= x,
            w - 1 + binary_width(y as nat) == binary_width(x as nat),
        decreases y,
    {
        y = y / 2;
        w = w + 1;
    }
    w
}

/// `x * 2^w`, or `None` when it does not fit a `usize`.
fn shifted(x: usize, w: usize) -> (r: Option<usize>)
    ensures
        r == if x * pow2(w as nat) <= usize::MAX {
            Some((x * pow2(w as nat)) as usize)
        } else {
            None::<usize>
        },
{
    if x == 0 {
        return Some(0);
    }
    if w >= usize::BITS as usize {
        proof {
            lemma_pow2_pos(w as nat);
            lemma_pow2_fits_or_not(w as nat);
            vstd::arithmetic::mul::lemma_mul_increases(x as int, pow2(w as nat) as int);
        }
        return None;
    }
    let mut v: usize = x;
    let mut k: usize = 0;
    proof {
        lemma2_to64();
    }
    while k < w
        invariant
            k <= w,
            x >= 1,
            v == x * pow2(k as nat),
        decreases w - k,
    {
        proof {
            lemma_pow2_unfold((k + 1) as nat);
            let p = pow2(k as nat);
            assert(x * (2 * p) == 2 * (x * p)) by (nonlinear_arith);
        }
        match v.checked_mul(2) {
            Some(next) => {
                v = next;
            },
            None => {
                proof {
                    if k + 1 < w {
                        lemma_pow2_strictly_increases((k + 1) as nat, w as nat);
                    }
                    let (p1, pw) = (pow2((k + 1) as nat), pow2(w as nat));
                    assert(x * pw >= x * p1) by (nonlinear_arith)
                        requires
                            pw >= p1,
                            x >= 1,
                    ;
                }
                return None;
            },
        }
        k = k + 1;
    }
    Some(v)
}

/// A layered circuit, the first layer being the output and the last the one
/// nearest the input, with the values of its layers once evaluated.
#[derive(Debug)]
pub struct Circuit {
    pub layers: Vec<Layer>,
    pub layer_evaluations: Vec<Vec<FieldElement>>,
}

impl Circuit {
    /// A circuit of the given layers, not yet evaluated.
    pub fn new(layers: Vec<Layer>) -> (r: Circuit)
        ensures
            r.layers@ == layers@,
            r.layer_evaluations@.len() == 0,
    {
        Circuit { layers, layer_evaluations: Vec::new() }
    }

    /// Evaluates the layers from the input up and keeps the values of every level:
    /// entry 0 is the circuit's output, entry `i + 1` the values feeding layer `i`,
    /// the last entry the input. Returns the output.
    pub fn evaluate(&mut self, input: Vec<FieldElement>) -> (r: Vec<FieldElement>)
        requires
            old(self).layers.len() >= 1,
            well_wired(old(self).layers@, input.len() as nat),
        ensures
            final(self).layers@ == old(self).layers@,
            final(self).layer_evaluations.len() == old(self).layers.len() + 1,
            forall|i: int|
                0 <= i <= old(self).layers.len() ==> vals(
                    #[trigger] final(self).layer_evaluations@[i]@,
                ) == layer_values(old(self).layers@, vals(input@), i),
            vals(r@) == layer_values(old(self).layers@, vals(input@), 0),
    {
        let ghost ls = self.layers@;
        let ghost iv = vals(input@);
        let n = self.layers.len();
        let mut current_input = input;
        let mut evaluations: Vec<Vec<FieldElement>> = Vec::new();
        let mut idx = n;
        while idx > 0
            invariant
                idx <= n,
                n == self.layers.len(),
                ls == self.layers@,
                n >= 1,
                well_wired(ls, iv.len()),
                evaluations.len() == n - idx,
                forall|t: int|
                    0 <= t < evaluations.len() ==> vals(#[trigger] evaluations@[t]@) == layer_values(
                        ls,
                        iv,
                        n - t,
                    ),
                vals(current_input@) == layer_values(ls, iv, idx as int),
                idx > 0 ==> current_input.len() == input_width(ls, iv.len(), idx - 1),
            decreases idx,
        {
            idx = idx - 1;
            evaluations.push(copy_elements(&current_input));
            proof {
                assert(gates_fit(ls[idx as int].gates@, input_width(ls, iv.len(), idx as int)));
            }
            current_input = self.layers[idx].evaluate(&current_input);
            proof {
                assert(current_input.len() == vals(current_input@).len());
                if idx > 0 {
                    assert(layer_input(ls, iv, idx - 1) == layer_out(
                        ls[idx as int].gates@,
                        layer_input(ls, iv, idx as int),
                    ));
                }
            }
        }
        evaluations.push(copy_elements(&current_input));
        let mut ordered: Vec<Vec<FieldElement>> = Vec::new();
        let mut t = evaluations.len();
        while t > 0
            invariant
                t <= n + 1,
                evaluations.len() == n + 1,
                ordered.len() == n + 1 - t,
                forall|u: int|
                    0 <= u < evaluations.len() ==> vals(#[trigger] evaluations@[u]@) == layer_values(
                        ls,
                        iv,
                        n - u,
                    ),
                forall|u: int|
                    0 <= u < ordered.len() ==> vals(#[trigger] ordered@[u]@) == layer_values(ls, iv, u),
            decreases t,
        {
            t = t - 1;
            ordered.push(copy_elements(&evaluations[t]));
            proof {
                assert(vals(ordered@[n - t]@) == vals(evaluations@[t as int]@));
            }
        }
        self.layer_evaluations = ordered;
        copy_elements(&self.layer_evaluations[0])
    }

    /// The multilinear polynomial of the values of level `layer_index` (0 being the
    /// output), in as many variables as the floor logarithm of their number.
    pub fn w_i_polynomial(&self, layer_index: usize) -> (r: MultiPoly)
        requires
            layer_index < self.layer_evaluations.len(),
            self.layer_evaluations@[layer_index as int].len() >= 1,
            self.layer_evaluations@[layer_index as int].len() == pow2(
                log2_floor(self.layer_evaluations@[layer_index as int].len() as nat),
            ),
        ensures
            r.num_vars == log2_floor(self.layer_evaluations@[layer_index as int].len() as nat),
            r.evaluated_values@ == self.layer_evaluations@[layer_index as int]@,
            r.wf(),
    {
        let n_vars = floor_log2(self.layer_evaluations[layer_index].len());
        proof {
            lemma_pow2_fits(n_vars as nat);
        }
        MultiPoly::new(n_vars, copy_elements(&self.layer_evaluations[layer_index]))
    }

    /// The wiring polynomials of layer `layer_index`: `add_i` is one at the index of
    /// each addition gate and zero elsewhere, `mul_i` likewise for multiplication.
    pub fn add_i_and_mul_i_mle(&self, layer_index: usize) -> (r: (MultiPoly, MultiPoly))
        requires
            layer_index < self.layers.len(),
            layer_variables(layer_index as nat) < usize::BITS,
            forall|g: int|
                0 <= g < self.layers@[layer_index as int].gates.len() ==> gate_index(
                    layer_index as nat,
                    #[trigger] self.layers@[layer_index as int].gates@[g],
                ) < pow2(layer_variables(layer_index as nat)),
        ensures
            r.0.num_vars == layer_variables(layer_index as nat),
            r.1.num_vars == layer_variables(layer_index as nat),
            r.0.wf(),
            r.1.wf(),
            forall|k: int|
                0 <= k < r.0.evaluated_values.len() ==> #[trigger] r.0.evaluated_values@[k].val()
                    == if has_gate(
                    self.layers@[layer_index as int].gates@,
                    layer_index as nat,
                    Operator::Add,
                    k as nat,
                ) {
                    1nat
                } else {
                    0nat
                },
            forall|k: int|
                0 <= k < r.1.evaluated_values.len() ==> #[trigger] r.1.evaluated_values@[k].val()
                    == if has_gate(
                    self.layers@[layer_index as int].gates@,
                    layer_index as nat,
                    Operator::Mul,
                    k as nat,
                ) {
                    1nat
                } else {
                    0nat
                },
    {
        let n_vars = self.num_layer_variables(layer_index);
        proof {
            vstd::bits::lemma_usize_pow2_no_overflow(n_vars as nat);
            vstd::bits::lemma_usize_shl_is_mul(1, n_vars);
            lemma_pow2_pos(n_vars as nat);
        }
        let num_combinations: usize = 1usize << n_vars;
        let ghost gs = self.layers@[layer_index as int].gates@;
        let ghost li = layer_index as nat;
        let zero = ark_zero();
        let one = ark_one();
        let mut add_i_values: Vec<FieldElement> = Vec::new();
        let mut mul_i_values: Vec<FieldElement> = Vec::new();
        while add_i_values.len() < num_combinations
            invariant
                add_i_values.len() == mul_i_values.len(),
                add_i_values.len() <= num_combinations,
                zero.val() == 0,
                forall|k: int| 0 <= k < add_i_values.len() ==> #[trigger] add_i_values[k].val() == 0,
                forall|k: int| 0 <= k < mul_i_values.len() ==> #[trigger] mul_i_values[k].val() == 0,
            decreases num_combinations - add_i_values.len(),
        {
            add_i_values.push(zero);
            mul_i_values.push(zero);
        }
        let gates = &self.layers[layer_index].gates;
        let mut g: usize = 0;
        while g < gates.len()
            invariant
                g <= gates.len(),
                gs == gates@,
                li == layer_index,
                one.val() == 1,
                layer_index < usize::MAX,
                add_i_values.len() == num_combinations,
                mul_i_values.len() == num_combinations,
                num_combinations == pow2(n_vars as nat),
                forall|h: int| 0 <= h < gs.len() ==> gate_index(li, #[trigger] gs[h]) < num_combinations,
                forall|k: int|
                    0 <= k < num_combinations ==> #[trigger] add_i_values[k].val() == if has_gate(
                        gs.subrange(0, g as int),
                        li,
                        Operator::Add,
                        k as nat,
                    ) {
                        1nat
                    } else {
                        0nat
                    },
                forall|k: int|
                    0 <= k < num_combinations ==> #[trigger] mul_i_values[k].val() == if has_gate(
                        gs.subrange(0, g as int),
                        li,
                        Operator::Mul,
                        k as nat,
                    ) {
                        1nat
                    } else {
                        0nat
                    },
            decreases gates.len() - g,
        {
            let gate = &gates[g];
            let index = self.gate_to_index(layer_index, gate);
            proof {
                assert(gate_index(li, gs[g as int]) < num_combinations);
            }
            match gate.operator {
                Operator::Add => add_i_values.set(index, one),
                Operator::Mul => mul_i_values.set(index, one),
            }
            proof {
                let pre = gs.subrange(0, g as int);
                let next = gs.subrange(0, g + 1);
                assert forall|op: Operator, k: nat| #[trigger] has_gate(next, li, op, k) == (has_gate(
                    pre,
                    li,
                    op,
                    k,
                ) || (gs[g as int].operator == op && gate_index(li, gs[g as int]) == k)) by {
                    if has_gate(pre, li, op, k) {
                        let h = choose|h: int|
                            0 <= h < pre.len() && pre[h].operator == op && gate_index(li, pre[h]) == k;
                        assert(next[h] == pre[h]);
                    }
                    if gs[g as int].operator == op && gate_index(li, gs[g as int]) == k {
                        assert(next[g as int] == gs[g as int]);
                    }
                    if has_gate(next, li, op, k) {
                        let h = choose|h: int|
                            0 <= h < next.len() && next[h].operator == op && gate_index(li, next[h])
                                == k;
                        if h < g {
                            assert(pre[h] == next[h]);
                        }
                    }
                }
            }
            g = g + 1;
        }
        proof {
            assert(gs.subrange(0, gs.len() as int) =~= gs);
        }
        let add_i_poly = MultiPoly::new(n_vars, add_i_values);
        let mul_i_poly = MultiPoly::new(n_vars, mul_i_values);
        (add_i_poly, mul_i_poly)
    }

    /// The number of variables of the polynomials of layer `layer_index`.
    fn num_layer_variables(&self, layer_index: usize) -> (r: usize)
        requires
            layer_variables(layer_index as nat) <= usize::MAX,
        ensures
            r == layer_variables(layer_index as nat),
    {
        if layer_index == 0 {
            3
        } else {
            3 * layer_index + 2
        }
    }

    /// The index of a gate of layer `layer_index` in the wiring polynomials.
    fn gate_to_index(&self, layer_index: usize, gate: &Gate) -> (r: usize)
        requires
            layer_index < usize::MAX,
        ensures
            r == gate_index(layer_index as nat, *gate),
    {
        let w = layer_index + 1;
        let bl = binary_digits(gate.left_index);
        let wb = if bl > w { bl } else { w };
        let br = binary_digits(gate.right_index);
        let wc = if br > w { br } else { w };
        let ghost o = gate.output_index as nat;
        let ghost l = gate.left_index as nat;
        let ghost rt = gate.right_index as nat;
        let ghost high = o * pow2((wb + wc) as nat);
        let ghost mid = l * pow2(wc as nat);
        proof {
            assert(wb == padded_width(l, layer_index as nat + 1));
            assert(wc == padded_width(rt, layer_index as nat + 1));
            assert(gate_index(layer_index as nat, *gate) == if high + mid + rt <= usize::MAX {
                (high + mid + rt) as nat
            } else {
                0
            });
        }
        let a = if gate.output_index == 0 {
            proof {
                assert(high == 0);
            }
            Some(0usize)
        } else if wb >= usize::BITS as usize || wc >= usize::BITS as usize {
            proof {
                lemma_pow2_pos(wb as nat);
                lemma_pow2_pos(wc as nat);
                lemma_pow2_adds(wb as nat, wc as nat);
                if wb >= usize::BITS {
                    lemma_pow2_fits_or_not(wb as nat);
                    vstd::arithmetic::mul::lemma_mul_increases(pow2(wc as nat) as int, pow2(wb as nat) as int);
                } else {
                    lemma_pow2_fits_or_not(wc as nat);
                    vstd::arithmetic::mul::lemma_mul_increases(pow2(wb as nat) as int, pow2(wc as nat) as int);
                }
                lemma_pow2_pos((wb + wc) as nat);
                vstd::arithmetic::mul::lemma_mul_increases(o as int, pow2((wb + wc) as nat) as int);
            }
            None
        } else {
            shifted(gate.output_index, wb + wc)
        };
        let b = shifted(gate.left_index, wc);
        proof {
            lemma_pow2_pos(wc as nat);
            lemma_pow2_pos((wb + wc) as nat);
            assert(o * pow2((wb + wc) as nat) >= 0) by (nonlinear_arith)
                requires o >= 0, pow2((wb + wc) as nat) > 0;
            assert(l * pow2(wc as nat) >= 0) by (nonlinear_arith)
                requires l >= 0, pow2(wc as nat) > 0;
        }
        assert(a == if high <= usize::MAX {
            Some(high as usize)
        } else {
            None::<usize>
        });
        assert(b == if mid <= usize::MAX {
            Some(mid as usize)
        } else {
            None::<usize>
        });
        combine_index(a, b, gate.right_index)
    }
}

/// `high + mid + low` when the two parts are there and the sum fits a `usize`, else
/// zero.
fn combine_index(high: Option<usize>, mid: Option<usize>, low: usize) -> (r: usize)
    ensures
        r == match (high, mid) {
            (Some(x), Some(y)) => if x + y + low <= usize::MAX {
                (x + y + low) as usize
            } else {
                0
            },
            _ => 0,
        },
{
    match (high, mid) {
        (Some(x), Some(y)) => match x.checked_add(y) {
            Some(s) => match s.checked_add(low) {
                Some(v) => v,
                None => 0,
            },
            None => 0,
        },
        _ => 0,
    }
}

/// Powers of two from `usize::BITS` on exceed every `usize`.
proof fn lemma_pow2_fits_or_not(k: nat)
    requires
        k >= usize::BITS,
    ensures
        pow2(k) > usize::MAX,
{
    if pow2(k) <= usize::MAX {
        lemma_pow2_fits(k);
    }
}

} // verus!
