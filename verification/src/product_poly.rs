//! Products of multilinear polynomials in the same variables.
use crate::field::{ark_mul, ark_one, encode_elements, fmul, vals, FieldElement};
use crate::multi_poly::{
    copy_elements, elements_to_bytes, log2_floor, mle_eval, partial_eval_table, MultiPoly,
};
use vstd::prelude::*;

verus! {

/// The product, in the field, of the polynomials' values at `rs`, multiplied in
/// order starting from one.
pub open spec fn product_eval(polys: Seq<MultiPoly>, rs: Seq<nat>) -> nat
    decreases polys.len(),
{
    if polys.len() == 0 {
        1
    } else {
        fmul(product_eval(polys.drop_last(), rs), mle_eval(polys.last().table(), rs))
    }
}

/// Entry `i` of the entry-by-entry product of the tables: entry `i` of the first
/// table, multiplied in order by entry `i` of each later table that has one.
pub open spec fn entry_product(polys: Seq<MultiPoly>, i: int) -> nat
    decreases polys.len(),
{
    if polys.len() <= 1 {
        polys[0].table()[i]
    } else {
        let p = entry_product(polys.drop_last(), i);
        if i < polys.last().table().len() {
            fmul(p, polys.last().table()[i])
        } else {
            p
        }
    }
}

/// The tables one after another.
pub open spec fn concat_tables(polys: Seq<MultiPoly>) -> Seq<nat>
    decreases polys.len(),
{
    if polys.len() == 0 {
        Seq::empty()
    } else {
        concat_tables(polys.drop_last()) + polys.last().table()
    }
}

/// Each polynomial is well formed, in `n` variables.
pub open spec fn all_in_vars(polys: Seq<MultiPoly>, n: nat) -> bool {
    forall|j: int| 0 <= j < polys.len() ==> (#[trigger] polys[j]).wf() && polys[j].num_vars == n
}

/// Each table can have variable `var` fixed: it has two entries or more and
/// `var` is below its floor logarithm.
pub open spec fn all_partially_evaluable(polys: Seq<MultiPoly>, var: nat) -> bool {
    forall|j: int|
        0 <= j < polys.len() ==> (#[trigger] polys[j]).evaluated_values.len() >= 2 && var
            < log2_floor(polys[j].evaluated_values.len() as nat)
}

/// The product of a non-empty list of multilinear polynomials.
#[derive(Clone, Debug, PartialEq)]
pub struct ProductPolynomial {
    pub polynomials: Vec<MultiPoly>,
}

impl ProductPolynomial {
    /// Builds the product; all factors must have the number of variables of the
    /// first.
    pub fn new(polynomials: Vec<MultiPoly>) -> (r: ProductPolynomial)
        requires
            polynomials.len() > 0,
            forall|j: int|
                0 <= j < polynomials.len() ==> (#[trigger] polynomials[j]).num_vars
                    == polynomials[0].num_vars,
        ensures
            r.polynomials@ == polynomials@,
    {
        ProductPolynomial { polynomials }
    }

    /// The product of the factors' values at `values`.
    pub fn evaluate(&self, values: &[FieldElement]) -> (r: FieldElement)
        requires
            all_in_vars(self.polynomials@, values.len() as nat),
        ensures
            r.val() == product_eval(self.polynomials@, vals(values@)),
    {
        let mut acc = ark_one();
        for j in 0..self.polynomials.len()
            invariant
                all_in_vars(self.polynomials@, values.len() as nat),
                acc.val() == product_eval(self.polynomials@.subrange(0, j as int), vals(values@)),
        {
            proof {
                let s = self.polynomials@.subrange(0, j + 1);
                assert(s.drop_last() =~= self.polynomials@.subrange(0, j as int));
            }
            let e = self.polynomials[j].evaluate(values);
            acc = ark_mul(acc, e);
        }
        assert(self.polynomials@.subrange(0, self.polynomials.len() as int) =~= self.polynomials@);
        acc
    }

    /// Fixes variable `evaluating_variable` of every factor to `value`.
    pub fn partial_evaluate(&self, evaluating_variable: usize, value: FieldElement) -> (r:
        ProductPolynomial)
        requires
            all_partially_evaluable(self.polynomials@, evaluating_variable as nat),
        ensures
            r.polynomials.len() == self.polynomials.len(),
            forall|j: int|
                0 <= j < r.polynomials.len() ==> {
                    &&& (#[trigger] r.polynomials[j]).wf()
                    &&& r.polynomials[j].num_vars == log2_floor(
                        self.polynomials[j].evaluated_values.len() as nat,
                    ) - 1
                    &&& r.polynomials[j].table() == partial_eval_table(
                        self.polynomials[j].table(),
                        evaluating_variable as nat,
                        value.val(),
                    )
                },
    {
        let mut evaluated_polynomials: Vec<MultiPoly> = Vec::new();
        for j in 0..self.polynomials.len()
            invariant
                all_partially_evaluable(self.polynomials@, evaluating_variable as nat),
                evaluated_polynomials.len() == j,
                forall|k: int|
                    0 <= k < j ==> {
                        &&& (#[trigger] evaluated_polynomials[k]).wf()
                        &&& evaluated_polynomials[k].num_vars == log2_floor(
                            self.polynomials[k].evaluated_values.len() as nat,
                        ) - 1
                        &&& evaluated_polynomials[k].table() == partial_eval_table(
                            self.polynomials[k].table(),
                            evaluating_variable as nat,
                            value.val(),
                        )
                    },
        {
            let p = MultiPoly::partial_evaluate(
                self.polynomials[j].evaluated_values.as_slice(),
                evaluating_variable,
                value,
            );
            evaluated_polynomials.push(p);
        }
        ProductPolynomial { polynomials: evaluated_polynomials }
    }

    /// The entry-by-entry product of the factors' tables, with the first factor's
    /// number of variables.
    pub fn multiply_polys_element_wise(&self) -> (r: MultiPoly)
        requires
            self.polynomials.len() > 1,
            self.polynomials[0].wf(),
            forall|j: int|
                0 <= j < self.polynomials.len() ==> (#[trigger] self.polynomials[j]).evaluated_values.len()
                    <= self.polynomials[0].evaluated_values.len(),
        ensures
            r.wf(),
            r.num_vars == self.polynomials[0].num_vars,
            r.table().len() == self.polynomials[0].table().len(),
            forall|i: int|
                0 <= i < r.table().len() ==> #[trigger] r.table()[i] == entry_product(
                    self.polynomials@,
                    i,
                ),
    {
        let ps = &self.polynomials;
        let mut result_values = copy_elements(ps[0].evaluated_values.as_slice());
        let len0 = result_values.len();
        let mut j: usize = 1;
        while j < ps.len()
            invariant
                1 <= j <= ps.len(),
                result_values.len() == len0,
                len0 == ps[0].evaluated_values.len(),
                forall|k: int|
                    0 <= k < ps.len() ==> (#[trigger] ps[k]).evaluated_values.len() <= len0,
                forall|i: int|
                    0 <= i < len0 ==> #[trigger] result_values[i].val() == entry_product(
                        ps@.subrange(0, j as int),
                        i,
                    ),
            decreases ps.len() - j,
        {
            let poly = &ps[j];
            let ghost before = result_values@;
            let ghost pre = ps@.subrange(0, j as int);
            let ghost now = ps@.subrange(0, j + 1);
            assert(now.drop_last() =~= pre);
            for i in 0..poly.evaluated_values.len()
                invariant
                    result_values.len() == len0,
                    poly.evaluated_values.len() <= len0,
                    forall|k: int|
                        0 <= k < i ==> #[trigger] result_values[k].val() == fmul(
                            before[k].val(),
                            poly.evaluated_values[k].val(),
                        ),
                    forall|k: int| i <= k < len0 ==> #[trigger] result_values[k] == before[k],
            {
                let v = ark_mul(result_values[i], poly.evaluated_values[i]);
                result_values.set(i, v);
            }
            assert forall|i: int| 0 <= i < len0 implies #[trigger] result_values[i].val()
                == entry_product(now, i) by {
                assert(now.last() == ps[j as int]);
            }
            j = j + 1;
        }
        proof {
            assert(ps@.subrange(0, ps.len() as int) =~= ps@);
            crate::multi_poly::lemma_pow2_fits(ps[0].num_vars as nat);
        }
        MultiPoly::new(ps[0].num_vars, result_values)
    }

    /// The factors' evaluations one after another, each as its 32 big-endian bytes.
    pub fn convert_to_bytes(&self) -> (r: Vec<u8>)
        ensures
            r@ == encode_elements(concat_tables(self.polynomials@)),
    {
        let mut bytes: Vec<u8> = Vec::new();
        for j in 0..self.polynomials.len()
            invariant
                bytes@ == encode_elements(concat_tables(self.polynomials@.subrange(0, j as int))),
        {
            let mut b = elements_to_bytes(self.polynomials[j].evaluated_values.as_slice());
            proof {
                let s = self.polynomials@.subrange(0, j + 1);
                assert(s.drop_last() =~= self.polynomials@.subrange(0, j as int));
                crate::field::lemma_encode_concat(
                    concat_tables(self.polynomials@.subrange(0, j as int)),
                    self.polynomials[j as int].table(),
                );
            }
            bytes.append(&mut b);
        }
        assert(self.polynomials@.subrange(0, self.polynomials.len() as int) =~= self.polynomials@);
        bytes
    }

    /// The number of factors.
    pub fn degree(&self) -> (r: usize)
        ensures
            r == self.polynomials.len(),
    {
        self.polynomials.len()
    }
}

} // verus!
