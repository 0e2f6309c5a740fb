//! Multilinear polynomials stored by their evaluations on the boolean hypercube.
//! Entry `i` of the table is the value at the point whose coordinates are the bits
//! of `i`, the first variable being the most significant bit.
use crate::bit_index::{lemma_splice_bits, spliced};
use crate::field::{
    fadd, fmul, fsub, le_value, lemma_fadd_laws, lemma_field_ops_canonical, lemma_fmul_laws,
    lemma_fsub_laws, modulus, vals, FieldElement, ark_add, ark_mul, ark_sub, ark_to_bytes_be,
    encode_elements,
};
use vstd::bits::lemma_usize_shl_is_mul;
use vstd::arithmetic::div_mod::*;
use vstd::arithmetic::mul::*;
use vstd::arithmetic::power2::*;
use vstd::prelude::*;

verus! {

/// `floor(log2(n))`, and `0` for `n < 2`.
pub open spec fn log2_floor(n: nat) -> nat
    decreases n,
{
    if n < 2 {
        0
    } else {
        1 + log2_floor(n / 2)
    }
}

/// `a + r * (b - a)`: the line through `a` (at 0) and `b` (at 1), taken at `r`.
pub open spec fn lerp(a: nat, b: nat, r: nat) -> nat {
    fadd(a, fmul(r, fsub(b, a)))
}

/// The table obtained by fixing variable `index` (counted from the most significant
/// bit) of the table `t` to `r`.
pub open spec fn partial_eval_table(t: Seq<nat>, index: nat, r: nat) -> Seq<nat> {
    let n = log2_floor(t.len());
    let k = (n - 1 - index) as nat;
    Seq::new(
        pow2((n - 1) as nat),
        |v: int| lerp(t[spliced(v as nat, k) as int], t[(spliced(v as nat, k) + pow2(k)) as int], r),
    )
}

/// The table obtained by fixing the first (most significant) variable of `t` to `r`.
pub open spec fn fold_first(t: Seq<nat>, r: nat) -> Seq<nat> {
    let h = t.len() / 2;
    Seq::new(h, |v: int| lerp(t[v], t[v + h], r))
}

/// The multilinear extension of the table `t`, evaluated at the point `rs`: fix the
/// variables one after another, first variable first.
pub open spec fn mle_eval(t: Seq<nat>, rs: Seq<nat>) -> nat
    decreases rs.len(),
{
    if rs.len() == 0 {
        if t.len() > 0 {
            t[0]
        } else {
            0
        }
    } else {
        mle_eval(fold_first(t, rs[0]), rs.drop_first())
    }
}

/// The index of the hypercube point `bits`, first coordinate most significant.
pub open spec fn point_index(bits: Seq<nat>) -> nat
    decreases bits.len(),
{
    if bits.len() == 0 {
        0
    } else {
        bits[0] * pow2((bits.len() - 1) as nat) + point_index(bits.drop_first())
    }
}

/// Every entry is 0 or 1.
pub open spec fn is_boolean_point(bits: Seq<nat>) -> bool {
    forall|i: int| 0 <= i < bits.len() ==> (#[trigger] bits[i] == 0 || bits[i] == 1)
}

/// Every entry is a canonical field value.
pub open spec fn all_canonical(t: Seq<nat>) -> bool {
    forall|i: int| 0 <= i < t.len() ==> #[trigger] t[i] < modulus()
}

/// Field values are canonical.
pub proof fn lemma_vals_canonical(s: Seq<FieldElement>)
    ensures
        vals(s).len() == s.len(),
        all_canonical(vals(s)),
{
    assert forall|i: int| 0 <= i < vals(s).len() implies #[trigger] vals(s)[i] < modulus() by {
        lemma_mod_bound(le_value(s[i].bytes@) as int, modulus() as int);
    }
}

/// `log2_floor` brackets its argument between two powers of two.
pub proof fn lemma_log2_floor_bounds(n: nat)
    requires
        n >= 1,
    ensures
        pow2(log2_floor(n)) <= n < pow2(log2_floor(n) + 1),
    decreases n,
{
    if n >= 2 {
        let l = log2_floor(n / 2);
        lemma_log2_floor_bounds(n / 2);
        lemma_pow2_unfold(l + 1);
        lemma_pow2_unfold(l + 2);
        assert(log2_floor(n) == l + 1);
    } else {
        lemma2_to64();
    }
}

/// The logarithm of a power of two is its exponent.
pub proof fn lemma_log2_floor_pow2(k: nat)
    ensures
        log2_floor(pow2(k)) == k,
    decreases k,
{
    if k > 0 {
        lemma_pow2_unfold(k);
        lemma_pow2_pos((k - 1) as nat);
        assert(pow2(k) / 2 == pow2((k - 1) as nat));
        lemma_log2_floor_pow2((k - 1) as nat);
    } else {
        lemma2_to64();
    }
}

/// Both ends of a splice-pair lie below `2^n`, and the low end has bit `k` clear.
pub proof fn lemma_spliced_bound(v: nat, k: nat, n: nat)
    requires
        k < n,
        v < pow2((n - 1) as nat),
    ensures
        spliced(v, k) + pow2(k) < pow2(n),
        spliced(v, k) % pow2(k + 1) < pow2(k),
{
    let pk = pow2(k);
    let j = (n - 1 - k) as nat;
    let m = pow2(j);
    lemma_pow2_pos(k);
    lemma_pow2_pos(j);
    lemma_pow2_adds(k, 1);
    lemma_pow2_adds(k, j);
    lemma_pow2_adds((n - 1) as nat, 1);
    lemma2_to64();
    assert(pow2((n - 1) as nat) == pk * m);
    assert(pow2(n) == pk * m * 2);
    let q = v / pk;
    let low = v % pk;
    lemma_fundamental_div_mod(v as int, pk as int);
    lemma_mod_bound(v as int, pk as int);
    assert(q < m) by {
        if q >= m {
            lemma_mul_inequality(m as int, q as int, pk as int);
            lemma_mul_is_commutative(q as int, pk as int);
            lemma_mul_is_commutative(m as int, pk as int);
        }
    }
    assert(q * (pk * 2) + low + pk < pk * m * 2) by (nonlinear_arith)
        requires
            q < m,
            low < pk,
    ;
    lemma_mod_multiples_vanish(q as int, low as int, (pk * 2) as int);
    lemma_small_mod(low, pk * 2);
}

/// Splicing a zero bit in at the top position changes nothing.
pub proof fn lemma_spliced_top(v: nat, k: nat)
    requires
        v < pow2(k),
    ensures
        spliced(v, k) == v,
{
    lemma_pow2_pos(k);
    lemma_small_mod(v, pow2(k));
    assert(v / pow2(k) == 0) by {
        lemma_basic_div(v as int, pow2(k) as int);
    }
}

/// On a table of `2^n` entries, fixing variable 0 is folding the first variable.
pub proof fn lemma_partial_eval_first(t: Seq<nat>, n: nat, r: nat)
    requires
        n >= 1,
        t.len() == pow2(n),
    ensures
        partial_eval_table(t, 0, r) == fold_first(t, r),
        fold_first(t, r).len() == pow2((n - 1) as nat),
{
    lemma_log2_floor_pow2(n);
    lemma_pow2_adds((n - 1) as nat, 1);
    lemma2_to64();
    let k = (n - 1) as nat;
    assert forall|v: nat| v < pow2(k) implies #[trigger] spliced(v, k) == v by {
        lemma_spliced_top(v, k);
    }
    assert(partial_eval_table(t, 0, r) =~= fold_first(t, r));
}

/// Fixing a variable to 0 keeps the half of the table where that bit is 0, and to 1
/// the half where it is 1.
pub proof fn lemma_fold_first_boolean(t: Seq<nat>)
    requires
        all_canonical(t),
    ensures
        fold_first(t, 0) =~= t.subrange(0, (t.len() / 2) as int),
        fold_first(t, 1) =~= t.subrange((t.len() / 2) as int, (2 * (t.len() / 2)) as int),
{
    let h = t.len() / 2;
    assert forall|v: int| 0 <= v < h implies #[trigger] lerp(t[v], t[v + h], 0) == t[v] by {
        lemma_field_ops_canonical(t[v + h], t[v]);
        lemma_fmul_laws(fsub(t[v + h], t[v]), 0, 0);
        lemma_fadd_laws(t[v], 0, 0);
    }
    assert forall|v: int| 0 <= v < h implies #[trigger] lerp(t[v], t[v + h], 1) == t[v + h] by {
        lemma_field_ops_canonical(t[v + h], t[v]);
        lemma_fmul_laws(fsub(t[v + h], t[v]), 0, 0);
        lemma_fsub_laws(t[v + h], t[v]);
        lemma_small_mod(t[v + h], modulus());
    }
}

/// Fixing the first variable to `r` and then evaluating at `rest` is evaluating at
/// `r` followed by `rest`.
pub proof fn lemma_fix_first_then_evaluate(t: Seq<nat>, n: nat, r: nat, rest: Seq<nat>)
    requires
        n >= 1,
        t.len() == pow2(n),
    ensures
        mle_eval(partial_eval_table(t, 0, r), rest) == mle_eval(t, seq![r] + rest),
{
    lemma_partial_eval_first(t, n, r);
    let point = seq![r] + rest;
    assert(point[0] == r);
    assert(point.drop_first() =~= rest);
}

/// On a boolean point, the multilinear extension gives back the table entry at that
/// point.
pub proof fn lemma_mle_at_boolean_point(t: Seq<nat>, bits: Seq<nat>)
    requires
        t.len() == pow2(bits.len()),
        all_canonical(t),
        is_boolean_point(bits),
    ensures
        point_index(bits) < t.len(),
        mle_eval(t, bits) == t[point_index(bits) as int],
    decreases bits.len(),
{
    if bits.len() == 0 {
        lemma2_to64();
    } else {
        let n = bits.len();
        let h = pow2((n - 1) as nat);
        lemma_pow2_adds((n - 1) as nat, 1);
        lemma2_to64();
        assert(t.len() / 2 == h);
        lemma_fold_first_boolean(t);
        let rest = bits.drop_first();
        assert(is_boolean_point(rest)) by {
            assert forall|i: int| 0 <= i < rest.len() implies (#[trigger] rest[i] == 0
                || rest[i] == 1) by {
                assert(rest[i] == bits[i + 1]);
            }
        }
        let f = fold_first(t, bits[0]);
        assert(bits[0] == 0 || bits[0] == 1);
        assert(f.len() == h);
        assert(all_canonical(f));
        lemma_mle_at_boolean_point(f, rest);
        let j = point_index(rest);
        assert(point_index(bits) == bits[0] * h + j);
        if bits[0] == 0 {
            assert(f[j as int] == t[j as int]);
        } else {
            assert(f[j as int] == t[(h + j) as int]);
        }
        assert(mle_eval(t, bits) == mle_eval(f, rest));
    }
}

/// A power of two that fits in a `usize` has an exponent below the word size.
pub proof fn lemma_pow2_fits(k: nat)
    requires
        pow2(k) <= usize::MAX,
    ensures
        k < usize::BITS,
{
    if k >= usize::BITS {
        lemma2_to64();
        lemma2_to64_rest();
        if k > usize::BITS {
            lemma_pow2_strictly_increases(usize::BITS as nat, k);
        }
    }
}

/// `log2_floor` never exceeds its argument.
pub proof fn lemma_log2_floor_le(n: nat)
    ensures
        log2_floor(n) <= n,
    decreases n,
{
    if n >= 2 {
        lemma_log2_floor_le(n / 2);
    }
}

/// Row-major indexing of a `rows x cols` table.
pub proof fn lemma_row_major(i: int, j: int, cols: int)
    requires
        0 <= j < cols,
        0 <= i,
    ensures
        (i * cols + j) / cols == i,
        (i * cols + j) % cols == j,
{
    lemma_fundamental_div_mod_converse(i * cols + j, cols, i, j);
}

/// Element-by-element copy of a slice of field elements.
pub fn copy_elements(s: &[FieldElement]) -> (r: Vec<FieldElement>)
    ensures
        r@ == s@,
{
    let mut r: Vec<FieldElement> = Vec::with_capacity(s.len());
    for i in 0..s.len()
        invariant
            r@ == s@.subrange(0, i as int),
    {
        r.push(s[i]);
    }
    assert(r@ =~= s@);
    r
}

/// `floor(log2(n))` for a positive `n`.
pub(crate) fn floor_log2(n: usize) -> (r: usize)
    requires
        n >= 1,
    ensures
        r == log2_floor(n as nat),
{
    proof {
        lemma_log2_floor_le(n as nat);
    }
    let mut m = n;
    let mut k: usize = 0;
    while m >= 2
        invariant
            1 <= m <= n,
            k + log2_floor(m as nat) == log2_floor(n as nat),
            log2_floor(n as nat) <= n,
        decreases m,
    {
        m = m / 2;
        k = k + 1;
    }
    k
}

/// A multilinear polynomial in `num_vars` variables, stored as its `2^num_vars`
/// evaluations on the boolean hypercube.
#[derive(Clone, Debug, PartialEq)]
pub struct MultiPoly {
    pub evaluated_values: Vec<FieldElement>,
    pub num_vars: usize,
}

impl MultiPoly {
    /// The table holds `2^num_vars` evaluations.
    pub open spec fn wf(&self) -> bool {
        self.evaluated_values.len() == pow2(self.num_vars as nat)
    }

    /// The field values of the table.
    pub open spec fn table(&self) -> Seq<nat> {
        vals(self.evaluated_values@)
    }

    /// Builds the polynomial; the table must hold `2^num_vars` entries.
    pub fn new(num_vars: usize, evaluated_values: Vec<FieldElement>) -> (r: MultiPoly)
        requires
            num_vars < usize::BITS,
            evaluated_values.len() == pow2(num_vars as nat),
        ensures
            r.num_vars == num_vars,
            r.evaluated_values@ == evaluated_values@,
            r.wf(),
    {
        MultiPoly { evaluated_values, num_vars }
    }

    /// Splices a zero bit into `value` at position `index`: bits below `index` stay,
    /// bits from `index` up move one place higher.
    pub fn insert_zero_bit(value: usize, index: usize) -> (r: usize)
        requires
            index + 1 < usize::BITS,
        ensures
            r == (((value >> index) << ((index + 1) as usize)) | (value & (((1usize << index) - 1) as usize))),
            spliced(value as nat, index as nat) < pow2(usize::BITS as nat) ==> r == spliced(
                value as nat,
                index as nat,
            ),
    {
        proof {
            lemma_pow2_pos(index as nat);
            vstd::bits::lemma_usize_pow2_no_overflow(index as nat);
            lemma_usize_shl_is_mul(1, index);
        }
        let high = value >> index;
        let mask = (1usize << index) - 1;
        let low = value & mask;
        proof {
            if spliced(value as nat, index as nat) < pow2(usize::BITS as nat) {
                lemma_splice_bits(value, index);
            }
        }
        (high << (index + 1)) | low
    }

    /// The index pairs that differ only in variable `index` (counted from the most
    /// significant bit of a `num_vars`-bit index): pair `v` is `v` with a 0, then
    /// with a 1, spliced in at that bit.
    pub fn generate_pairs(index: usize, num_vars: usize) -> (r: Vec<(usize, usize)>)
        requires
            1 <= num_vars < usize::BITS,
            index < num_vars,
        ensures
            r.len() == pow2((num_vars - 1) as nat),
            forall|v: int|
                0 <= v < r.len() ==> {
                    let k = (num_vars - 1 - index) as nat;
                    &&& (#[trigger] r[v]).0 == spliced(v as nat, k)
                    &&& r[v].1 == spliced(v as nat, k) + pow2(k)
                },
    {
        proof {
            lemma_pow2_pos((num_vars - 1) as nat);
            vstd::bits::lemma_usize_pow2_no_overflow((num_vars - 1) as nat);
            lemma_usize_shl_is_mul(1, (num_vars - 1) as usize);
        }
        let target_size: usize = 1usize << (num_vars - 1);
        let mut result: Vec<(usize, usize)> = Vec::with_capacity(target_size);
        let inverted_index = num_vars - 1 - index;
        proof {
            vstd::bits::lemma_usize_pow2_no_overflow(inverted_index as nat);
            lemma_usize_shl_is_mul(1, inverted_index);
            lemma_pow2_strictly_increases(num_vars as nat, usize::BITS as nat);
        }
        let bit_mask: usize = 1usize << inverted_index;
        for val in 0..target_size
            invariant
                target_size == pow2((num_vars - 1) as nat),
                bit_mask == pow2(inverted_index as nat),
                bit_mask == 1usize << inverted_index,
                inverted_index == num_vars - 1 - index,
                1 <= num_vars < usize::BITS,
                index < num_vars,
                pow2(num_vars as nat) < pow2(usize::BITS as nat),
                result.len() == val,
                forall|v: int|
                    0 <= v < val ==> {
                        &&& (#[trigger] result[v]).0 == spliced(v as nat, inverted_index as nat)
                        &&& result[v].1 == spliced(v as nat, inverted_index as nat) + pow2(
                            inverted_index as nat,
                        )
                    },
        {
            proof {
                lemma_spliced_bound(val as nat, inverted_index as nat, num_vars as nat);
            }
            let zero = Self::insert_zero_bit(val, inverted_index);
            let k = inverted_index;
            let k1 = (k + 1) as usize;
            assert(zero | (1usize << k) == zero + (1usize << k)) by (bit_vector)
                requires
                    zero == (((val >> k) << k1) | (val & (((1usize << k) - 1) as usize))),
                    k1 == k + 1,
                    k1 < usize::BITS,
            ;
            let one = zero | bit_mask;
            proof {
                assert(spliced(val as nat, k as nat) < pow2(usize::BITS as nat));
                assert(zero == spliced(val as nat, k as nat));
                assert(one == zero + pow2(k as nat));
            }
            result.push((zero, one));
        }
        result
    }

    /// Fixes variable `index` of the table `poly` (of `2^n` or more entries, `n` its
    /// floor logarithm) to `value`; the result has `n - 1` variables.
    pub fn partial_evaluate(poly: &[FieldElement], index: usize, value: FieldElement) -> (r:
        MultiPoly)
        requires
            poly.len() >= 2,
            index < log2_floor(poly.len() as nat),
        ensures
            r.num_vars == log2_floor(poly.len() as nat) - 1,
            r.table() == partial_eval_table(vals(poly@), index as nat, value.val()),
            r.wf(),
    {
        let num_vars = floor_log2(poly.len());
        proof {
            lemma_log2_floor_bounds(poly.len() as nat);
            lemma_pow2_fits(num_vars as nat);
        }
        let pairs = Self::generate_pairs(index, num_vars);
        let mut result: Vec<FieldElement> = Vec::with_capacity(pairs.len());
        let ghost k = (num_vars - 1 - index) as nat;
        let ghost t = vals(poly@);
        for i in 0..pairs.len()
            invariant
                num_vars == log2_floor(poly.len() as nat),
                1 <= num_vars < usize::BITS,
                pow2(num_vars as nat) <= poly.len(),
                index < num_vars,
                k == num_vars - 1 - index,
                t == vals(poly@),
                pairs.len() == pow2((num_vars - 1) as nat),
                forall|v: int|
                    0 <= v < pairs.len() ==> {
                        &&& (#[trigger] pairs[v]).0 == spliced(v as nat, k)
                        &&& pairs[v].1 == spliced(v as nat, k) + pow2(k)
                    },
                result.len() == i,
                forall|v: int|
                    0 <= v < i ==> (#[trigger] result[v]).val() == lerp(
                        t[spliced(v as nat, k) as int],
                        t[(spliced(v as nat, k) + pow2(k)) as int],
                        value.val(),
                    ),
        {
            let (a, b) = pairs[i];
            proof {
                lemma_spliced_bound(i as nat, k, num_vars as nat);
            }
            let a_val = poly[a];
            let b_val = poly[b];
            result.push(ark_add(a_val, ark_mul(value, ark_sub(b_val, a_val))));
        }
        proof {
            assert(vals(result@) =~= partial_eval_table(t, index as nat, value.val()));
            lemma_pow2_strictly_increases((num_vars - 1) as nat, num_vars as nat);
        }
        Self::new(num_vars - 1, result)
    }

    /// The value of the polynomial at `assignment`, one coordinate per variable,
    /// first variable first.
    pub fn evaluate(&self, assignment: &[FieldElement]) -> (r: FieldElement)
        requires
            self.wf(),
            assignment.len() == self.num_vars,
        ensures
            r.val() == mle_eval(self.table(), vals(assignment@)),
    {
        let mut poly = copy_elements(self.evaluated_values.as_slice());
        let n = assignment.len();
        let ghost rs = vals(assignment@);
        assert(rs.subrange(0, n as int) =~= rs);
        for i in 0..n
            invariant
                n == assignment.len(),
                rs == vals(assignment@),
                poly.len() == pow2((n - i) as nat),
                mle_eval(vals(poly@), rs.subrange(i as int, n as int)) == mle_eval(
                    self.table(),
                    rs,
                ),
        {
            proof {
                lemma_partial_eval_first(vals(poly@), (n - i) as nat, assignment[i as int].val());
                lemma_log2_floor_pow2((n - i) as nat);
                lemma_pow2_unfold((n - i) as nat);
                lemma_pow2_pos((n - i - 1) as nat);
                assert(rs.subrange(i as int, n as int).drop_first() =~= rs.subrange(
                    i + 1,
                    n as int,
                ));
            }
            poly = Self::partial_evaluate(poly.as_slice(), 0, assignment[i]).evaluated_values;
        }
        proof {
            lemma2_to64();
        }
        poly[0]
    }

    /// Every evaluation multiplied by `scalar`.
    pub fn scalar_mul(&self, scalar: FieldElement) -> (r: MultiPoly)
        requires
            self.wf(),
        ensures
            r.wf(),
            r.num_vars == self.num_vars,
            r.table() == Seq::new(self.table().len(), |i: int| fmul(scalar.val(), self.table()[i])),
    {
        let mut scaled: Vec<FieldElement> = Vec::with_capacity(self.evaluated_values.len());
        for i in 0..self.evaluated_values.len()
            invariant
                scaled.len() == i,
                forall|j: int|
                    0 <= j < i ==> (#[trigger] scaled[j]).val() == fmul(
                        scalar.val(),
                        self.evaluated_values[j].val(),
                    ),
        {
            scaled.push(ark_mul(scalar, self.evaluated_values[i]));
        }
        proof {
            lemma_pow2_fits(self.num_vars as nat);
            assert(vals(scaled@) =~= Seq::new(
                self.table().len(),
                |i: int| fmul(scalar.val(), self.table()[i]),
            ));
        }
        Self::new(self.num_vars, scaled)
    }

    /// The number of variables.
    pub fn number_of_variables(&self) -> (r: usize)
        ensures
            r == self.num_vars,
    {
        self.num_vars
    }

    /// The entry-by-entry sum of two tables of equal length, with the first
    /// polynomial's number of variables.
    pub fn add_polynomials(first_poly: &MultiPoly, second_poly: &MultiPoly) -> (r: MultiPoly)
        requires
            first_poly.evaluated_values.len() == second_poly.evaluated_values.len(),
            first_poly.wf(),
        ensures
            r.wf(),
            r.num_vars == first_poly.num_vars,
            r.table() == Seq::new(
                first_poly.table().len(),
                |i: int| fadd(first_poly.table()[i], second_poly.table()[i]),
            ),
    {
        let mut sum: Vec<FieldElement> = Vec::with_capacity(first_poly.evaluated_values.len());
        for i in 0..first_poly.evaluated_values.len()
            invariant
                first_poly.evaluated_values.len() == second_poly.evaluated_values.len(),
                sum.len() == i,
                forall|j: int|
                    0 <= j < i ==> (#[trigger] sum[j]).val() == fadd(
                        first_poly.evaluated_values[j].val(),
                        second_poly.evaluated_values[j].val(),
                    ),
        {
            sum.push(ark_add(first_poly.evaluated_values[i], second_poly.evaluated_values[i]));
        }
        proof {
            lemma_pow2_fits(first_poly.num_vars as nat);
            assert(vals(sum@) =~= Seq::new(
                first_poly.table().len(),
                |i: int| fadd(first_poly.table()[i], second_poly.table()[i]),
            ));
        }
        Self::new(first_poly.num_vars, sum)
    }

    /// The polynomial `w_b(b) + w_c(c)` in the variables of both: entry `i * |c| + j`
    /// is the sum of entry `i` of `self` and entry `j` of `other`.
    pub fn tensor_add_poly(&self, other: &MultiPoly) -> (r: MultiPoly)
        requires
            self.num_vars + other.num_vars < usize::BITS,
            self.evaluated_values.len() * other.evaluated_values.len() == pow2(
                (self.num_vars + other.num_vars) as nat,
            ),
        ensures
            r.wf(),
            r.num_vars == self.num_vars + other.num_vars,
            r.table() == tensor_table(self.table(), other.table(), true),
    {
        Self::tensor_combine(self, other, true)
    }

    /// The polynomial `w_b(b) * w_c(c)` in the variables of both: entry `i * |c| + j`
    /// is the product of entry `i` of `self` and entry `j` of `other`.
    pub fn tensor_mul_poly(&self, other: &MultiPoly) -> (r: MultiPoly)
        requires
            self.num_vars + other.num_vars < usize::BITS,
            self.evaluated_values.len() * other.evaluated_values.len() == pow2(
                (self.num_vars + other.num_vars) as nat,
            ),
        ensures
            r.wf(),
            r.num_vars == self.num_vars + other.num_vars,
            r.table() == tensor_table(self.table(), other.table(), false),
    {
        Self::tensor_combine(self, other, false)
    }

    /// The table of every sum (when `add`) or product of an entry of `first` with
    /// an entry of `other`, `first`'s index high.
    fn tensor_combine(first: &MultiPoly, other: &MultiPoly, add: bool) -> (r: MultiPoly)
        requires
            first.num_vars + other.num_vars < usize::BITS,
            first.evaluated_values.len() * other.evaluated_values.len() == pow2(
                (first.num_vars + other.num_vars) as nat,
            ),
        ensures
            r.wf(),
            r.num_vars == first.num_vars + other.num_vars,
            r.table() == tensor_table(first.table(), other.table(), add),
    {
        let new_num_vars = first.num_vars + other.num_vars;
        proof {
            vstd::bits::lemma_usize_pow2_no_overflow(new_num_vars as nat);
            lemma_usize_shl_is_mul(1, new_num_vars);
        }
        let mut result: Vec<FieldElement> = Vec::with_capacity(1usize << new_num_vars);
        let la = first.evaluated_values.len();
        let lb = other.evaluated_values.len();
        let ghost ta = first.table();
        let ghost tb = other.table();
        let ghost want = tensor_table(ta, tb, add);
        proof {
            lemma_pow2_pos(new_num_vars as nat);
            assert(lb > 0);
            assert(la * lb <= usize::MAX);
            assert(0 * (lb as int) == 0);
        }
        for i in 0..la
            invariant
                la == first.evaluated_values.len(),
                lb == other.evaluated_values.len(),
                lb > 0,
                la * lb <= usize::MAX,
                ta == first.table(),
                tb == other.table(),
                want == tensor_table(ta, tb, add),
                result.len() == i * lb,
                forall|k: int| 0 <= k < i * lb ==> (#[trigger] result[k]).val() == want[k],
        {
            proof {
                lemma_mul_is_distributive_add_other_way(lb as int, i as int, 1);
                lemma_mul_inequality(i + 1, la as int, lb as int);
            }
            for j in 0..lb
                invariant
                    i < la,
                    la == first.evaluated_values.len(),
                    lb == other.evaluated_values.len(),
                    (i + 1) * lb <= la * lb,
                    la * lb <= usize::MAX,
                    (i + 1) * lb == i * lb + lb,
                    ta == first.table(),
                    tb == other.table(),
                    want == tensor_table(ta, tb, add),
                    result.len() == i * lb + j,
                    forall|k: int| 0 <= k < i * lb + j ==> (#[trigger] result[k]).val() == want[k],
            {
                let w_b = first.evaluated_values[i];
                let w_c = other.evaluated_values[j];
                proof {
                    lemma_row_major(i as int, j as int, lb as int);
                }
                if add {
                    result.push(ark_add(w_b, w_c));
                } else {
                    result.push(ark_mul(w_b, w_c));
                }
            }
        }
        proof {
            assert(vals(result@) =~= want);
        }
        Self::new(new_num_vars, result)
    }

    /// The evaluations one after another, each as its 32 big-endian bytes.
    pub fn convert_to_bytes(&self) -> (r: Vec<u8>)
        ensures
            r@ == encode_elements(self.table()),
    {
        elements_to_bytes(self.evaluated_values.as_slice())
    }
}


/// The table of `a(b) + c(c)` (when `add`) or `a(b) * c(c)` over both sets of
/// variables, `b` the high bits of the index.
pub open spec fn tensor_table(ta: Seq<nat>, tb: Seq<nat>, add: bool) -> Seq<nat> {
    Seq::new(
        ta.len() * tb.len(),
        |k: int|
            if add {
                fadd(ta[k / tb.len() as int], tb[k % tb.len() as int])
            } else {
                fmul(ta[k / tb.len() as int], tb[k % tb.len() as int])
            },
    )
}

/// The elements one after another, each as its 32 big-endian bytes.
pub fn elements_to_bytes(values: &[FieldElement]) -> (r: Vec<u8>)
    ensures
        r@ == encode_elements(vals(values@)),
{
    let mut bytes: Vec<u8> = Vec::new();
    for i in 0..values.len()
        invariant
            bytes@ == encode_elements(vals(values@).subrange(0, i as int)),
    {
        let mut b = ark_to_bytes_be(values[i]);
        bytes.append(&mut b);
        proof {
            let p = vals(values@).subrange(0, i + 1);
            assert(p.drop_last() =~= vals(values@).subrange(0, i as int));
        }
    }
    assert(vals(values@).subrange(0, values.len() as int) =~= vals(values@));
    bytes
}

} // verus!
