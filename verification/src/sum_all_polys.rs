//! Sums of products of multilinear polynomials, all in the same variables.
use crate::field::{
    ark_add, ark_mul, ark_one, ark_zero, encode_elements, fadd, fmul, fsum, lemma_encode_concat, vals,
    FieldElement,
};
use crate::multi_poly::{log2_floor, partial_eval_table, MultiPoly};
use crate::product_poly::{
    all_in_vars, all_partially_evaluable, concat_tables, entry_product, product_eval,
    ProductPolynomial,
};
use vstd::arithmetic::power2::pow2;
use vstd::prelude::*;

verus! {

/// Arithmetic on a polynomial.
pub trait PolynomialArithmetic: Sized {
    /// `values` is a point at which the polynomial can be evaluated.
    spec fn evaluation_ready(&self, values: Seq<FieldElement>) -> bool;

    /// Variable `var_idx` can be fixed.
    spec fn partial_evaluation_ready(&self, var_idx: usize) -> bool;

    /// The summands can be added entry by entry.
    spec fn addition_ready(&self) -> bool;

    /// The value at `values`.
    fn evaluate(&self, values: &[FieldElement]) -> FieldElement
        requires
            self.evaluation_ready(values@),
    ;

    /// The polynomial with variable `var_idx` fixed to `value`.
    fn partial_evaluate(&self, var_idx: usize, value: FieldElement) -> Self
        requires
            self.partial_evaluation_ready(var_idx),
    ;

    /// The entry-by-entry sum of the summands' tables.
    fn element_wise_polynomials_addition(&self) -> MultiPoly
        requires
            self.addition_ready(),
    ;
}

/// Serialisation of a polynomial to bytes.
pub trait PolynomialSerialization {
    /// The polynomial's tables as bytes.
    fn convert_to_bytes(&self) -> Vec<u8>;
}

/// The shape of a polynomial.
pub trait PolynomialMetadata {
    /// The shape can be read.
    spec fn metadata_ready(&self) -> bool;

    /// The degree in each variable.
    fn degree(&self) -> usize
        requires
            self.metadata_ready(),
    ;

    /// The number of variables.
    fn number_of_variables(&self) -> usize
        requires
            self.metadata_ready(),
    ;
}

/// The sum, in the field, of the products' values at `rs`, added in order from zero.
pub open spec fn sum_eval(products: Seq<ProductPolynomial>, rs: Seq<nat>) -> nat
    decreases products.len(),
{
    if products.len() == 0 {
        0
    } else {
        fadd(sum_eval(products.drop_last(), rs), product_eval(products.last().polynomials@, rs))
    }
}

/// Entry `i` of the summed entry-by-entry products: each product's entry `i`, where
/// it has one, added in order to zero.
pub open spec fn entry_sum(products: Seq<ProductPolynomial>, i: int) -> nat
    decreases products.len(),
{
    if products.len() == 0 {
        0
    } else {
        let p = entry_sum(products.drop_last(), i);
        if i < products.last().polynomials[0].table().len() {
            fadd(p, entry_product(products.last().polynomials@, i))
        } else {
            p
        }
    }
}

/// The tables of all factors of all products, one after another.
pub open spec fn concat_all_tables(products: Seq<ProductPolynomial>) -> Seq<nat>
    decreases products.len(),
{
    if products.len() == 0 {
        Seq::empty()
    } else {
        concat_all_tables(products.drop_last()) + concat_tables(products.last().polynomials@)
    }
}

/// The factors' tables of each product.
pub open spec fn product_tables(products: Seq<ProductPolynomial>) -> Seq<Seq<Seq<nat>>> {
    products.map_values(
        |p: ProductPolynomial| p.polynomials@.map_values(|m: MultiPoly| m.table()),
    )
}

/// Entry `b` of each table, multiplied in order starting from one.
pub open spec fn entry_prod(p: Seq<Seq<nat>>, b: int) -> nat
    decreases p.len(),
{
    if p.len() == 0 {
        1
    } else {
        fmul(entry_prod(p.drop_last(), b), p.last()[b])
    }
}

/// Entry `b` of the sum of the products, added in order starting from zero.
pub open spec fn entry_total(ts: Seq<Seq<Seq<nat>>>, b: int) -> nat
    decreases ts.len(),
{
    if ts.len() == 0 {
        0
    } else {
        fadd(entry_total(ts.drop_last(), b), entry_prod(ts.last(), b))
    }
}

/// The sum of the polynomial over the boolean hypercube: over the entries of the
/// first factor's table.
pub open spec fn hypercube_sum(ts: Seq<Seq<Seq<nat>>>) -> nat {
    fsum(Seq::new(ts[0][0].len(), |b: int| entry_total(ts, b)))
}

/// Every factor of every product is well formed in `n` variables.
pub open spec fn uniform_in(products: Seq<ProductPolynomial>, n: nat) -> bool {
    forall|k: int|
        0 <= k < products.len() ==> all_in_vars(#[trigger] products[k].polynomials@, n)
}

/// A sum of products of multilinear polynomials.
#[derive(Debug, PartialEq, Clone)]
pub struct SumPolynomial {
    product_polynomials: Vec<ProductPolynomial>,
}

impl SumPolynomial {
    /// The summands.
    pub closed spec fn products(&self) -> Seq<ProductPolynomial> {
        self.product_polynomials@
    }

    /// Builds the sum; the list is not empty, the first product has a factor, and all
    /// factors of all products have the number of variables of the first.
    pub fn new(product_polynomials: Vec<ProductPolynomial>) -> (r: SumPolynomial)
        requires
            product_polynomials.len() > 0,
            product_polynomials[0].polynomials.len() > 0,
            forall|k: int, j: int|
                0 <= k < product_polynomials.len() && 0 <= j
                    < product_polynomials[k].polynomials.len() ==> (
                #[trigger] product_polynomials[k].polynomials[j]).num_vars
                    == product_polynomials[0].polynomials[0].num_vars,
        ensures
            r.products() == product_polynomials@,
    {
        SumPolynomial { product_polynomials }
    }

    /// The sum of the polynomial's values over the boolean hypercube.
    pub fn boolean_sum(&self) -> (r: FieldElement)
        requires
            self.metadata_ready(),
            uniform_in(self.products(), self.products()[0].polynomials[0].num_vars as nat),
        ensures
            r.val() == hypercube_sum(product_tables(self.products())),
    {
        let ghost ts = product_tables(self.products());
        let len = self.product_polynomials[0].polynomials[0].evaluated_values.len();
        let mut total = ark_zero();
        for b in 0..len
            invariant
                ts == product_tables(self.products()),
                self.metadata_ready(),
                uniform_in(self.products(), self.products()[0].polynomials[0].num_vars as nat),
                len == ts[0][0].len(),
                total.val() == fsum(Seq::new(b as nat, |i: int| entry_total(ts, i))),
        {
            let mut s = ark_zero();
            for k in 0..self.product_polynomials.len()
                invariant
                    ts == product_tables(self.products()),
                    b < len,
                    self.metadata_ready(),
                    uniform_in(self.products(), self.products()[0].polynomials[0].num_vars as nat),
                    len == ts[0][0].len(),
                    s.val() == entry_total(ts.subrange(0, k as int), b as int),
            {
                let mut p = ark_one();
                let ghost tk = ts[k as int];
                let nf = self.product_polynomials[k].polynomials.len();
                proof {
                    assert(all_in_vars(self.products()[k as int].polynomials@, self.products()[0].polynomials[0].num_vars as nat));
                    assert(all_in_vars(self.products()[0].polynomials@, self.products()[0].polynomials[0].num_vars as nat));
                    assert(self.products()[0].polynomials@[0].wf());
                }
                for j in 0..nf
                    invariant
                        tk == ts[k as int],
                        nf == self.products()[k as int].polynomials.len(),
                        ts == product_tables(self.products()),
                        k < self.products().len(),
                        b < len,
                        len == pow2(self.products()[0].polynomials[0].num_vars as nat),
                        all_in_vars(self.products()[k as int].polynomials@, self.products()[0].polynomials[0].num_vars as nat),
                        p.val() == entry_prod(tk.subrange(0, j as int), b as int),
                {
                    proof {
                        assert(self.products()[k as int].polynomials@[j as int].wf());
                        let q = tk.subrange(0, j + 1);
                        assert(q.drop_last() =~= tk.subrange(0, j as int));
                        assert(q.last() == self.product_polynomials[k as int].polynomials[j as int].table());
                    }
                    p = ark_mul(p, self.product_polynomials[k].polynomials[j].evaluated_values[b]);
                }
                proof {
                    assert(tk.subrange(0, tk.len() as int) =~= tk);
                    let q = ts.subrange(0, k + 1);
                    assert(q.drop_last() =~= ts.subrange(0, k as int));
                }
                s = ark_add(s, p);
            }
            proof {
                assert(ts.subrange(0, ts.len() as int) =~= ts);
                let q = Seq::new((b + 1) as nat, |i: int| entry_total(ts, i));
                assert(q.drop_last() =~= Seq::new(b as nat, |i: int| entry_total(ts, i)));
            }
            total = ark_add(total, s);
        }
        proof {
            assert(Seq::new(len as nat, |i: int| entry_total(ts, i)) =~= Seq::new(ts[0][0].len(), |b: int| entry_total(ts, b)));
        }
        total
    }
}

impl PolynomialArithmetic for SumPolynomial {
    open spec fn evaluation_ready(&self, values: Seq<FieldElement>) -> bool {
        forall|k: int|
            0 <= k < self.products().len() ==> all_in_vars(
                #[trigger] self.products()[k].polynomials@,
                values.len() as nat,
            )
    }

    open spec fn partial_evaluation_ready(&self, var_idx: usize) -> bool {
        forall|k: int|
            0 <= k < self.products().len() ==> all_partially_evaluable(
                #[trigger] self.products()[k].polynomials@,
                var_idx as nat,
            )
    }

    open spec fn addition_ready(&self) -> bool {
        &&& self.products().len() > 1
        &&& self.products()[0].polynomials.len() > 0
        &&& self.products()[0].polynomials[0].wf()
        &&& forall|k: int|
            0 <= k < self.products().len() ==> {
                &&& (#[trigger] self.products()[k]).polynomials.len() > 1
                &&& self.products()[k].polynomials[0].wf()
                &&& forall|j: int|
                    0 <= j < self.products()[k].polynomials.len() ==> (
                    #[trigger] self.products()[k].polynomials[j]).evaluated_values.len()
                        <= self.products()[k].polynomials[0].evaluated_values.len()
            }
    }

    fn evaluate(&self, values: &[FieldElement]) -> (r: FieldElement)
        ensures
            r.val() == sum_eval(self.products(), vals(values@)),
    {
        let mut acc = ark_zero();
        for k in 0..self.product_polynomials.len()
            invariant
                self.evaluation_ready(values@),
                acc.val() == sum_eval(self.products().subrange(0, k as int), vals(values@)),
        {
            proof {
                let s = self.products().subrange(0, k + 1);
                assert(s.drop_last() =~= self.products().subrange(0, k as int));
                assert(all_in_vars(self.products()[k as int].polynomials@, values.len() as nat));
            }
            let e = self.product_polynomials[k].evaluate(values);
            acc = ark_add(acc, e);
        }
        assert(self.products().subrange(0, self.products().len() as int) =~= self.products());
        acc
    }

    fn partial_evaluate(&self, var_idx: usize, value: FieldElement) -> (r: SumPolynomial)
        ensures
            r.products().len() == self.products().len(),
            forall|k: int|
                0 <= k < r.products().len() ==> (#[trigger] r.products()[k]).polynomials.len()
                    == self.products()[k].polynomials.len(),
            forall|k: int, j: int|
                0 <= k < r.products().len() && 0 <= j < r.products()[k].polynomials.len() ==> {
                    &&& (#[trigger] r.products()[k].polynomials[j]).wf()
                    &&& r.products()[k].polynomials[j].num_vars == log2_floor(
                        self.products()[k].polynomials[j].evaluated_values.len() as nat,
                    ) - 1
                    &&& r.products()[k].polynomials[j].table() == partial_eval_table(
                        self.products()[k].polynomials[j].table(),
                        var_idx as nat,
                        value.val(),
                    )
                },
    {
        let mut evaluated_products: Vec<ProductPolynomial> = Vec::new();
        for k in 0..self.product_polynomials.len()
            invariant
                self.partial_evaluation_ready(var_idx),
                evaluated_products.len() == k,
                forall|m: int|
                    0 <= m < k ==> (#[trigger] evaluated_products[m]).polynomials.len()
                        == self.products()[m].polynomials.len(),
                forall|m: int, j: int|
                    0 <= m < k && 0 <= j < evaluated_products[m].polynomials.len() ==> {
                        &&& (#[trigger] evaluated_products[m].polynomials[j]).wf()
                        &&& evaluated_products[m].polynomials[j].num_vars == log2_floor(
                            self.products()[m].polynomials[j].evaluated_values.len() as nat,
                        ) - 1
                        &&& evaluated_products[m].polynomials[j].table() == partial_eval_table(
                            self.products()[m].polynomials[j].table(),
                            var_idx as nat,
                            value.val(),
                        )
                    },
        {
            proof {
                assert(all_partially_evaluable(self.products()[k as int].polynomials@, var_idx as nat));
            }
            let p = self.product_polynomials[k].partial_evaluate(var_idx, value);
            evaluated_products.push(p);
        }
        SumPolynomial { product_polynomials: evaluated_products }
    }

    fn element_wise_polynomials_addition(&self) -> (r: MultiPoly)
        ensures
            r.wf(),
            r.num_vars == self.products()[0].polynomials[0].num_vars,
            r.table().len() == self.products()[0].polynomials[0].table().len(),
            forall|i: int|
                0 <= i < r.table().len() ==> #[trigger] r.table()[i] == entry_sum(
                    self.products(),
                    i,
                ),
    {
        let num_vars = self.product_polynomials[0].polynomials[0].num_vars;
        let len = self.product_polynomials[0].polynomials[0].evaluated_values.len();
        let mut result: Vec<FieldElement> = Vec::new();
        for i in 0..len
            invariant
                result.len() == i,
                forall|m: int| 0 <= m < i ==> (#[trigger] result[m]).val() == 0,
        {
            result.push(ark_zero());
        }
        let ghost ps = self.products();
        for k in 0..self.product_polynomials.len()
            invariant
                ps == self.products(),
                self.addition_ready(),
                result.len() == len,
                len == ps[0].polynomials[0].evaluated_values.len(),
                forall|i: int|
                    0 <= i < len ==> #[trigger] result[i].val() == entry_sum(
                        ps.subrange(0, k as int),
                        i,
                    ),
        {
            let prod = self.product_polynomials[k].multiply_polys_element_wise();
            let ghost before = result@;
            let ghost pre = ps.subrange(0, k as int);
            let ghost now = ps.subrange(0, k + 1);
            assert(now.drop_last() =~= pre);
            let n = if len < prod.evaluated_values.len() {
                len
            } else {
                prod.evaluated_values.len()
            };
            for i in 0..n
                invariant
                    n <= len,
                    n <= prod.evaluated_values.len(),
                    result.len() == len,
                    forall|m: int|
                        0 <= m < i ==> #[trigger] result[m].val() == fadd(
                            before[m].val(),
                            prod.evaluated_values[m].val(),
                        ),
                    forall|m: int| i <= m < len ==> #[trigger] result[m] == before[m],
            {
                let v = ark_add(result[i], prod.evaluated_values[i]);
                result.set(i, v);
            }
            assert forall|i: int| 0 <= i < len implies #[trigger] result[i].val() == entry_sum(
                now,
                i,
            ) by {
                assert(now.last() == ps[k as int]);
                if i < n {
                    assert(prod.table()[i] == entry_product(ps[k as int].polynomials@, i));
                }
            }
        }
        proof {
            assert(ps.subrange(0, ps.len() as int) =~= ps);
            crate::multi_poly::lemma_pow2_fits(num_vars as nat);
            assert(vals(result@).len() == len);
        }
        MultiPoly::new(num_vars, result)
    }
}

impl PolynomialSerialization for SumPolynomial {
    fn convert_to_bytes(&self) -> (r: Vec<u8>)
        ensures
            r@ == encode_elements(concat_all_tables(self.products())),
    {
        let mut bytes: Vec<u8> = Vec::new();
        for k in 0..self.product_polynomials.len()
            invariant
                bytes@ == encode_elements(concat_all_tables(self.products().subrange(0, k as int))),
        {
            let mut b = self.product_polynomials[k].convert_to_bytes();
            proof {
                let s = self.products().subrange(0, k + 1);
                assert(s.drop_last() =~= self.products().subrange(0, k as int));
                lemma_encode_concat(
                    concat_all_tables(self.products().subrange(0, k as int)),
                    concat_tables(self.products()[k as int].polynomials@),
                );
            }
            bytes.append(&mut b);
        }
        assert(self.products().subrange(0, self.products().len() as int) =~= self.products());
        bytes
    }
}

impl PolynomialMetadata for SumPolynomial {
    open spec fn metadata_ready(&self) -> bool {
        self.products().len() > 0 && self.products()[0].polynomials.len() > 0
    }

    fn degree(&self) -> (r: usize)
        ensures
            r == self.products()[0].polynomials.len(),
    {
        self.product_polynomials[0].degree()
    }

    fn number_of_variables(&self) -> (r: usize)
        ensures
            r == self.products()[0].polynomials[0].num_vars,
    {
        self.product_polynomials[0].polynomials[0].number_of_variables()
    }
}

} // verus!
