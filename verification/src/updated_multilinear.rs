//! A second multilinear polynomial type, evaluated by fixing its variables one at a
//! time from the most significant bit of the table index.
use crate::bit_index::{lemma_splice_bits, spliced};
use crate::field::{ark_add, ark_mul, ark_sub, vals, FieldElement};
use crate::multi_poly::{
    copy_elements, lemma_log2_floor_pow2, lemma_partial_eval_first, lemma_pow2_fits,
    lemma_spliced_bound, lerp, mle_eval, partial_eval_table,
};
use vstd::arithmetic::power2::*;
use vstd::bits::{lemma_usize_pow2_no_overflow, lemma_usize_shl_is_mul};
use vstd::prelude::*;

verus! {

/// A multilinear polynomial in `n_vars` variables, stored as its evaluations on the
/// boolean hypercube.
#[derive(Clone)]
pub struct MultilinearPolynomial {
    pub evals: Vec<FieldElement>,
    pub n_vars: usize,
}

impl MultilinearPolynomial {
    /// The table holds `2^n_vars` evaluations.
    pub open spec fn wf(&self) -> bool {
        self.evals.len() == pow2(self.n_vars as nat)
    }

    /// The field values of the table.
    pub open spec fn table(&self) -> Seq<nat> {
        vals(self.evals@)
    }

    /// Builds the polynomial; the table must hold `2^n_vars` entries.
    pub fn new(n_vars: usize, evaluations: Vec<FieldElement>) -> (r: MultilinearPolynomial)
        requires
            n_vars < usize::BITS,
            evaluations.len() == pow2(n_vars as nat),
        ensures
            r.n_vars == n_vars,
            r.evals@ == evaluations@,
            r.wf(),
    {
        MultilinearPolynomial { evals: evaluations, n_vars }
    }

    /// The value at `assignments`, one coordinate per variable, first variable first.
    pub fn evaluate(&self, assignments: &[FieldElement]) -> (r: FieldElement)
        requires
            self.wf(),
            assignments.len() == self.n_vars,
        ensures
            r.val() == mle_eval(self.table(), vals(assignments@)),
    {
        let mut polynomial = MultilinearPolynomial {
            evals: copy_elements(self.evals.as_slice()),
            n_vars: self.n_vars,
        };
        let n = assignments.len();
        let ghost rs = vals(assignments@);
        assert(rs.subrange(0, n as int) =~= rs);
        for i in 0..n
            invariant
                n == assignments.len(),
                rs == vals(assignments@),
                polynomial.wf(),
                polynomial.n_vars == n - i,
                mle_eval(polynomial.table(), rs.subrange(i as int, n as int)) == mle_eval(
                    self.table(),
                    rs,
                ),
        {
            proof {
                lemma_partial_eval_first(polynomial.table(), (n - i) as nat, assignments[i as int].val());
                lemma_log2_floor_pow2((n - i) as nat);
                assert(rs.subrange(i as int, n as int).drop_first() =~= rs.subrange(
                    i + 1,
                    n as int,
                ));
            }
            polynomial = polynomial.partial_evaluate(0, &assignments[i]);
        }
        proof {
            lemma2_to64();
        }
        polynomial.evals[0]
    }

    /// Fixes variable `index` (counted from the most significant bit) to `value`.
    pub fn partial_evaluate(&self, index: usize, value: &FieldElement) -> (r: MultilinearPolynomial)
        requires
            self.wf(),
            index < self.n_vars,
        ensures
            r.wf(),
            r.n_vars == self.n_vars - 1,
            r.table() == partial_eval_table(self.table(), index as nat, value.val()),
    {
        proof {
            lemma_pow2_fits(self.n_vars as nat);
            lemma_log2_floor_pow2(self.n_vars as nat);
        }
        let pr = pairs(index, self.n_vars);
        let mut result: Vec<FieldElement> = Vec::new();
        let ghost k = (self.n_vars - 1 - index) as nat;
        let ghost t = self.table();
        for i in 0..pr.len()
            invariant
                self.wf(),
                1 <= self.n_vars < usize::BITS,
                index < self.n_vars,
                k == self.n_vars - 1 - index,
                t == self.table(),
                pr.len() == pow2((self.n_vars - 1) as nat),
                forall|v: int|
                    0 <= v < pr.len() ==> {
                        &&& (#[trigger] pr[v]).0 == spliced(v as nat, k)
                        &&& pr[v].1 == spliced(v as nat, k) + pow2(k)
                    },
                result.len() == i,
                forall|v: int|
                    0 <= v < i ==> (#[trigger] result[v]).val() == lerp(
                        t[spliced(v as nat, k) as int],
                        t[(spliced(v as nat, k) + pow2(k)) as int],
                        value.val(),
                    ),
        {
            let (a, b) = pr[i];
            proof {
                lemma_spliced_bound(i as nat, k, self.n_vars as nat);
            }
            let a = self.evals[a];
            let b = self.evals[b];
            result.push(ark_add(a, ark_mul(*value, ark_sub(b, a))));
        }
        proof {
            assert(vals(result@) =~= partial_eval_table(t, index as nat, value.val()));
            lemma_pow2_strictly_increases((self.n_vars - 1) as nat, self.n_vars as nat);
        }
        Self::new(self.n_vars - 1, result)
    }
}

/// The index pairs that differ only in variable `index` of an `n_vars`-bit index,
/// counted from the most significant bit: pair `v` is `v` with a 0, then with a 1,
/// spliced in at that bit.
pub fn pairs(index: usize, n_vars: usize) -> (r: Vec<(usize, usize)>)
    requires
        1 <= n_vars < usize::BITS,
        index < n_vars,
    ensures
        r.len() == pow2((n_vars - 1) as nat),
        forall|v: int|
            0 <= v < r.len() ==> {
                let k = (n_vars - 1 - index) as nat;
                &&& (#[trigger] r[v]).0 == spliced(v as nat, k)
                &&& r[v].1 == spliced(v as nat, k) + pow2(k)
            },
{
    let mut result: Vec<(usize, usize)> = Vec::new();
    let target_hypercube = n_vars - 1;
    proof {
        lemma_pow2_pos(target_hypercube as nat);
        lemma_usize_pow2_no_overflow(target_hypercube as nat);
        lemma_usize_shl_is_mul(1, target_hypercube);
        lemma_usize_pow2_no_overflow((n_vars - index - 1) as nat);
        lemma_usize_shl_is_mul(1, (n_vars - index - 1) as usize);
        lemma_pow2_strictly_increases(n_vars as nat, usize::BITS as nat);
    }
    let bound: usize = 1usize << target_hypercube;
    for val in 0..bound
        invariant
            bound == pow2((n_vars - 1) as nat),
            target_hypercube == n_vars - 1,
            1 <= n_vars < usize::BITS,
            index < n_vars,
            pow2(n_vars as nat) < pow2(usize::BITS as nat),
            (1usize << ((n_vars - index - 1) as usize)) == pow2((n_vars - index - 1) as nat),
            result.len() == val,
            forall|v: int|
                0 <= v < val ==> {
                    let k = (n_vars - 1 - index) as nat;
                    &&& (#[trigger] result[v]).0 == spliced(v as nat, k)
                    &&& result[v].1 == spliced(v as nat, k) + pow2(k)
                },
    {
        let inverted_index = n_vars - index - 1;
        proof {
            lemma_spliced_bound(val as nat, inverted_index as nat, n_vars as nat);
        }
        let insert_zero = insert_bit(val, inverted_index);
        let k = inverted_index;
        let k1 = (k + 1) as usize;
        assert(insert_zero | (1usize << k) == insert_zero + (1usize << k)) by (bit_vector)
            requires
                insert_zero == (((val >> k) << k1) | (val & (((1usize << k) - 1) as usize))),
                k1 == k + 1,
                k1 < usize::BITS,
        ;
        let insert_one = insert_zero | (1 << inverted_index);
        proof {
            assert(spliced(val as nat, k as nat) < pow2(usize::BITS as nat));
        }
        result.push((insert_zero, insert_one));
    }
    result
}

/// Splices a zero bit into `value` at position `index`.
fn insert_bit(value: usize, index: usize) -> (r: usize)
    requires
        index + 1 < usize::BITS,
    ensures
        r == (((value >> index) << ((index + 1) as usize)) | (value & (((1usize << index) - 1) as usize))),
        spliced(value as nat, index as nat) < pow2(usize::BITS as nat) ==> r == spliced(
            value as nat,
            index as nat,
        ),
{
    proof {
        lemma_pow2_pos(index as nat);
        lemma_usize_pow2_no_overflow(index as nat);
        lemma_usize_shl_is_mul(1, index);
    }
    let high = value >> index;
    let mask = (1usize << index) - 1;
    let low = value & mask;
    proof {
        if spliced(value as nat, index as nat) < pow2(usize::BITS as nat) {
            lemma_splice_bits(value, index);
        }
    }
    high << (index + 1) | low
}

} // verus!
