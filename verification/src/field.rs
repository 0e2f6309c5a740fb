//! Elements of the BN254 scalar field, with their arithmetic carried out by arkworks.
use ark_bn254::Fr;
use ark_ff::{BigInteger, Field, One, PrimeField, Zero};
use ark_std::UniformRand;
use vstd::arithmetic::div_mod::*;
use vstd::arithmetic::mul::*;
use vstd::prelude::*;

verus! {

/// The order of the BN254 scalar field.
pub open spec fn modulus() -> nat {
    21888242871839275222246405745257275088548364400416034343698204186575808495617nat
}

/// Value of a little-endian byte string.
pub open spec fn le_value(s: Seq<u8>) -> nat
    decreases s.len(),
{
    if s.len() == 0 {
        0
    } else {
        s[0] as nat + 256 * le_value(s.drop_first())
    }
}

/// Value of a big-endian byte string.
pub open spec fn be_value(s: Seq<u8>) -> nat
    decreases s.len(),
{
    if s.len() == 0 {
        0
    } else {
        be_value(s.drop_last()) * 256 + s.last() as nat
    }
}

/// The `n`-byte big-endian encoding of `x` (of `x` modulo `256^n`).
pub open spec fn be_bytes(x: nat, n: nat) -> Seq<u8>
    decreases n,
{
    if n == 0 {
        Seq::empty()
    } else {
        be_bytes(x / 256, (n - 1) as nat).push((x % 256) as u8)
    }
}

/// The field values one after another, each as its 32 big-endian bytes.
pub open spec fn encode_elements(vs: Seq<nat>) -> Seq<u8>
    decreases vs.len(),
{
    if vs.len() == 0 {
        Seq::empty()
    } else {
        encode_elements(vs.drop_last()) + be_bytes(vs.last(), 32)
    }
}

/// Encoding a concatenation is concatenating the encodings.
pub proof fn lemma_encode_concat(a: Seq<nat>, b: Seq<nat>)
    ensures
        encode_elements(a + b) == encode_elements(a) + encode_elements(b),
    decreases b.len(),
{
    if b.len() == 0 {
        assert(a + b =~= a);
        assert(encode_elements(a) + Seq::<u8>::empty() =~= encode_elements(a));
    } else {
        assert((a + b).drop_last() =~= a + b.drop_last());
        lemma_encode_concat(a, b.drop_last());
        assert(encode_elements(a) + (encode_elements(b.drop_last()) + be_bytes(b.last(), 32))
            =~= (encode_elements(a) + encode_elements(b.drop_last())) + be_bytes(b.last(), 32));
    }
}

/// Field addition on canonical values.
pub open spec fn fadd(a: nat, b: nat) -> nat {
    (a + b) % modulus()
}

/// Field subtraction on canonical values.
pub open spec fn fsub(a: nat, b: nat) -> nat {
    ((a as int - b as int) % (modulus() as int)) as nat
}

/// Field multiplication on canonical values.
pub open spec fn fmul(a: nat, b: nat) -> nat {
    (a * b) % modulus()
}

/// Field negation on canonical values.
pub open spec fn fneg(a: nat) -> nat {
    fsub(0, a)
}

/// `a` raised to the power `e` in the field; `0^0` is `1`.
pub open spec fn fpow(a: nat, e: nat) -> nat
    decreases e,
{
    if e == 0 {
        1
    } else {
        fmul(a, fpow(a, (e - 1) as nat))
    }
}

/// An element of the BN254 scalar field, stored as 32 little-endian bytes.
/// Every element built by this library holds the canonical representative; `==`
/// compares the field values, whatever the byte form.
#[derive(Clone, Copy, Debug, Eq)]
pub struct FieldElement {
    pub bytes: [u8; 32],
}

impl FieldElement {
    /// The field value that this element stands for.
    pub open spec fn val(self) -> nat {
        le_value(self.bytes@) % modulus()
    }
}


/// Reducing an argument of a sum modulo the field order does not change the result.
pub proof fn lemma_add_mod_absorb(x: int, y: int)
    ensures
        ((x % (modulus() as int)) + y) % (modulus() as int) == (x + y) % (modulus() as int),
        (x + (y % (modulus() as int))) % (modulus() as int) == (x + y) % (modulus() as int),
{
    let m = modulus() as int;
    lemma_add_mod_noop(x, y, m);
    lemma_add_mod_noop(x % m, y, m);
    lemma_add_mod_noop(x, y % m, m);
    lemma_mod_twice(x, m);
    lemma_mod_twice(y, m);
}

/// Reducing an argument of a difference modulo the field order does not change the result.
pub proof fn lemma_sub_mod_absorb(x: int, y: int)
    ensures
        ((x % (modulus() as int)) - y) % (modulus() as int) == (x - y) % (modulus() as int),
        (x - (y % (modulus() as int))) % (modulus() as int) == (x - y) % (modulus() as int),
{
    let m = modulus() as int;
    lemma_sub_mod_noop(x, y, m);
    lemma_sub_mod_noop(x % m, y, m);
    lemma_sub_mod_noop(x, y % m, m);
    lemma_mod_twice(x, m);
    lemma_mod_twice(y, m);
}

/// Reducing an argument of a product modulo the field order does not change the result.
pub proof fn lemma_mul_mod_absorb(x: int, y: int)
    ensures
        ((x % (modulus() as int)) * y) % (modulus() as int) == (x * y) % (modulus() as int),
        (x * (y % (modulus() as int))) % (modulus() as int) == (x * y) % (modulus() as int),
{
    let m = modulus() as int;
    lemma_mul_mod_noop_left(x, y, m);
    lemma_mul_mod_noop_right(x, y, m);
}

/// Every field operation yields a canonical value.
pub proof fn lemma_field_ops_canonical(a: nat, b: nat)
    ensures
        fadd(a, b) < modulus(),
        fsub(a, b) < modulus(),
        fmul(a, b) < modulus(),
        fneg(a) < modulus(),
        (a as int - b as int) % (modulus() as int) >= 0,
{
    let m = modulus() as int;
    lemma_mod_bound(a as int + b as int, m);
    lemma_mod_bound(a - b, m);
    lemma_mod_bound(0 - a, m);
    lemma_mod_bound(a as int * b as int, m);
}

/// Addition in the field is commutative and associative, with zero as identity.
pub proof fn lemma_fadd_laws(a: nat, b: nat, c: nat)
    ensures
        fadd(a, b) == fadd(b, a),
        fadd(fadd(a, b), c) == fadd(a, fadd(b, c)),
        a < modulus() ==> fadd(a, 0) == a,
        a < modulus() ==> fadd(0, a) == a,
{
    let (x, y, z) = (a as int, b as int, c as int);
    lemma_add_mod_absorb(x + y, z);
    lemma_add_mod_absorb(x, y + z);
    if a < modulus() {
        lemma_small_mod(a, modulus());
    }
}

/// Multiplication in the field is commutative and associative, with one as
/// identity and zero as absorbing element.
pub proof fn lemma_fmul_laws(a: nat, b: nat, c: nat)
    ensures
        fmul(a, b) == fmul(b, a),
        fmul(fmul(a, b), c) == fmul(a, fmul(b, c)),
        a < modulus() ==> fmul(a, 1) == a,
        a < modulus() ==> fmul(1, a) == a,
        fmul(a, 0) == 0,
        fmul(0, a) == 0,
{
    let (x, y, z) = (a as int, b as int, c as int);
    lemma_mul_is_commutative(x, y);
    lemma_mul_mod_absorb(x * y, z);
    lemma_mul_mod_absorb(x, y * z);
    lemma_mul_is_associative(x, y, z);
    if a < modulus() {
        lemma_small_mod(a, modulus());
    }
}

/// Multiplication distributes over addition and subtraction in the field.
pub proof fn lemma_fmul_distributes(a: nat, b: nat, c: nat)
    ensures
        fmul(a, fadd(b, c)) == fadd(fmul(a, b), fmul(a, c)),
        fmul(fadd(b, c), a) == fadd(fmul(b, a), fmul(c, a)),
        fmul(a, fsub(b, c)) == fsub(fmul(a, b), fmul(a, c)),
{
    lemma_fmul_distributes_left(a, b, c);
    lemma_fmul_laws(a, fadd(b, c), 0);
    lemma_fmul_laws(a, b, 0);
    lemma_fmul_laws(a, c, 0);
}

/// Multiplication on the left distributes over addition and subtraction.
proof fn lemma_fmul_distributes_left(a: nat, b: nat, c: nat)
    ensures
        fmul(a, fadd(b, c)) == fadd(fmul(a, b), fmul(a, c)),
        fmul(a, fsub(b, c)) == fsub(fmul(a, b), fmul(a, c)),
{
    let m = modulus() as int;
    let (x, y, z) = (a as int, b as int, c as int);
    lemma_field_ops_canonical(b, c);
    assert(fmul(a, fadd(b, c)) == (x * (y + z)) % m) by {
        lemma_mul_mod_absorb(x, y + z);
    }
    assert(x * (y + z) == x * y + x * z) by {
        lemma_mul_is_distributive_add(x, y, z);
    }
    assert(fadd(fmul(a, b), fmul(a, c)) == (x * y + x * z) % m) by {
        lemma_add_mod_absorb(x * y, x * z);
        lemma_add_mod_absorb((x * y) % m, x * z);
    }
    assert(fmul(a, fsub(b, c)) == (x * (y - z)) % m) by {
        lemma_mul_mod_absorb(x, y - z);
    }
    assert(x * (y - z) == x * y - x * z) by {
        lemma_mul_is_distributive_sub(x, y, z);
    }
    assert(fsub(fmul(a, b), fmul(a, c)) == (x * y - x * z) % m) by {
        lemma_sub_mod_absorb(x * y, x * z);
        lemma_sub_mod_absorb((x * y) % m, x * z);
    }
}

/// Subtraction is addition of the negation, and undoes addition.
pub proof fn lemma_fsub_laws(a: nat, b: nat)
    ensures
        fsub(a, b) == fadd(a, fneg(b)),
        b < modulus() ==> fadd(b, fsub(a, b)) == a % modulus(),
        a < modulus() ==> fsub(a, 0) == a,
        fsub(a, a) == 0,
{
    let (x, y) = (a as int, b as int);
    lemma_field_ops_canonical(a, b);
    lemma_field_ops_canonical(0, b);
    lemma_add_mod_absorb(x, 0 - y);
    lemma_add_mod_absorb(y, x - y);
    if b < modulus() {
        lemma_small_mod(b, modulus());
    }
    if a < modulus() {
        lemma_small_mod(a, modulus());
    }
}

/// The inverse of `a`: a canonical value whose product with `a` is one.
pub open spec fn finv(a: nat) -> nat {
    choose|b: nat| b < modulus() && fmul(a, b) == 1
}

/// `a` has a multiplicative inverse.
pub open spec fn invertible(a: nat) -> bool {
    finv(a) < modulus() && fmul(a, finv(a)) == 1
}

/// A value with a known inverse is invertible.
pub proof fn lemma_invertible_by(a: nat, b: nat)
    requires
        b < modulus(),
        fmul(a, b) == 1,
    ensures
        invertible(a),
{
    assert(exists|c: nat| c < modulus() && fmul(a, c) == 1) by {
        assert(b < modulus() && fmul(a, b) == 1);
    }
}

/// The sum of the values in the field, added from the first.
pub open spec fn fsum(t: Seq<nat>) -> nat
    decreases t.len(),
{
    if t.len() == 0 {
        0
    } else {
        fadd(fsum(t.drop_last()), t.last())
    }
}

/// Every field sum is canonical.
pub proof fn lemma_fsum_canonical(t: Seq<nat>)
    ensures
        fsum(t) < modulus(),
    decreases t.len(),
{
    if t.len() > 0 {
        lemma_field_ops_canonical(fsum(t.drop_last()), t.last());
    }
}

/// The sum of a concatenation is the sum of the sums.
pub proof fn lemma_fsum_concat(a: Seq<nat>, b: Seq<nat>)
    ensures
        fsum(a + b) == fadd(fsum(a), fsum(b)),
    decreases b.len(),
{
    lemma_fsum_canonical(a);
    if b.len() == 0 {
        assert(a + b =~= a);
        lemma_fadd_laws(fsum(a), 0, 0);
    } else {
        assert((a + b).drop_last() =~= a + b.drop_last());
        lemma_fsum_concat(a, b.drop_last());
        lemma_fadd_laws(fsum(a), fsum(b.drop_last()), b.last());
    }
}

/// The field values of a sequence of elements.
pub open spec fn vals(s: Seq<FieldElement>) -> Seq<nat> {
    s.map_values(|x: FieldElement| x.val())
}

/// `Fr::from(u64)`: the field element whose value is `v`.
#[verifier::external_body]
pub(crate) fn ark_from_u64(v: u64) -> (r: FieldElement)
    ensures
        r.val() == v as nat,
{
    let out = Fr::from(v).into_bigint().to_bytes_le();
    let mut bytes = [0u8; 32];
    bytes.copy_from_slice(&out);
    FieldElement { bytes }
}

/// `Fr::zero()`: the additive identity.
#[verifier::external_body]
pub(crate) fn ark_zero() -> (r: FieldElement)
    ensures
        r.val() == 0,
{
    let out = Fr::zero().into_bigint().to_bytes_le();
    let mut bytes = [0u8; 32];
    bytes.copy_from_slice(&out);
    FieldElement { bytes }
}

/// `Fr::one()`: the multiplicative identity.
#[verifier::external_body]
pub(crate) fn ark_one() -> (r: FieldElement)
    ensures
        r.val() == 1,
{
    let out = Fr::one().into_bigint().to_bytes_le();
    let mut bytes = [0u8; 32];
    bytes.copy_from_slice(&out);
    FieldElement { bytes }
}

/// `Add` on `Fr`: the sum modulo the field order.
#[verifier::external_body]
pub(crate) fn ark_add(a: FieldElement, b: FieldElement) -> (r: FieldElement)
    ensures
        r.val() == fadd(a.val(), b.val()),
{
    let x = Fr::from_le_bytes_mod_order(&a.bytes) + Fr::from_le_bytes_mod_order(&b.bytes);
    let out = x.into_bigint().to_bytes_le();
    let mut bytes = [0u8; 32];
    bytes.copy_from_slice(&out);
    FieldElement { bytes }
}

/// `Sub` on `Fr`: the difference modulo the field order.
#[verifier::external_body]
pub(crate) fn ark_sub(a: FieldElement, b: FieldElement) -> (r: FieldElement)
    ensures
        r.val() == fsub(a.val(), b.val()),
{
    let x = Fr::from_le_bytes_mod_order(&a.bytes) - Fr::from_le_bytes_mod_order(&b.bytes);
    let out = x.into_bigint().to_bytes_le();
    let mut bytes = [0u8; 32];
    bytes.copy_from_slice(&out);
    FieldElement { bytes }
}

/// `Mul` on `Fr`: the product modulo the field order. The order is prime, so the
/// product is zero only when a factor is.
#[verifier::external_body]
pub(crate) fn ark_mul(a: FieldElement, b: FieldElement) -> (r: FieldElement)
    ensures
        r.val() == fmul(a.val(), b.val()),
        r.val() == 0 <==> (a.val() == 0 || b.val() == 0),
{
    let x = Fr::from_le_bytes_mod_order(&a.bytes) * Fr::from_le_bytes_mod_order(&b.bytes);
    let out = x.into_bigint().to_bytes_le();
    let mut bytes = [0u8; 32];
    bytes.copy_from_slice(&out);
    FieldElement { bytes }
}

/// `Neg` on `Fr`: the additive inverse.
#[verifier::external_body]
pub(crate) fn ark_neg(a: FieldElement) -> (r: FieldElement)
    ensures
        r.val() == fneg(a.val()),
{
    let x = -Fr::from_le_bytes_mod_order(&a.bytes);
    let out = x.into_bigint().to_bytes_le();
    let mut bytes = [0u8; 32];
    bytes.copy_from_slice(&out);
    FieldElement { bytes }
}

/// `Div` on `Fr`, which multiplies by the inverse of `b` and panics when `b` is zero:
/// the quotient, the one value `q` with `q * b == a`.
#[verifier::external_body]
pub(crate) fn ark_div(a: FieldElement, b: FieldElement) -> (r: FieldElement)
    requires
        b.val() != 0,
    ensures
        fmul(r.val(), b.val()) == a.val(),
{
    let x = Fr::from_le_bytes_mod_order(&a.bytes) / Fr::from_le_bytes_mod_order(&b.bytes);
    let out = x.into_bigint().to_bytes_le();
    let mut bytes = [0u8; 32];
    bytes.copy_from_slice(&out);
    FieldElement { bytes }
}

/// `Field::inverse` on `Fr`: `None` exactly for zero, else the multiplicative inverse.
#[verifier::external_body]
pub(crate) fn ark_inverse(a: FieldElement) -> (r: Option<FieldElement>)
    ensures
        r is Some <==> a.val() != 0,
        r matches Some(x) ==> fmul(a.val(), x.val()) == 1,
{
    match Fr::from_le_bytes_mod_order(&a.bytes).inverse() {
        Some(x) => {
            let out = x.into_bigint().to_bytes_le();
            let mut bytes = [0u8; 32];
            bytes.copy_from_slice(&out);
            Some(FieldElement { bytes })
        },
        None => None,
    }
}

/// `Field::pow` on `Fr` with a one-limb exponent: `a` to the power `e`.
#[verifier::external_body]
pub(crate) fn ark_pow(a: FieldElement, e: u64) -> (r: FieldElement)
    ensures
        r.val() == fpow(a.val(), e as nat),
{
    let x = Fr::from_le_bytes_mod_order(&a.bytes).pow([e]);
    let out = x.into_bigint().to_bytes_le();
    let mut bytes = [0u8; 32];
    bytes.copy_from_slice(&out);
    FieldElement { bytes }
}

/// `PartialEq` on `Fr`: whether the two elements are the same field value.
#[verifier::external_body]
pub(crate) fn ark_eq(a: FieldElement, b: FieldElement) -> (r: bool)
    ensures
        r == (a.val() == b.val()),
{
    Fr::from_le_bytes_mod_order(&a.bytes) == Fr::from_le_bytes_mod_order(&b.bytes)
}

/// `Zero::is_zero` on `Fr`: whether the element is zero.
#[verifier::external_body]
pub(crate) fn ark_is_zero(a: FieldElement) -> (r: bool)
    ensures
        r == (a.val() == 0),
{
    Fr::from_le_bytes_mod_order(&a.bytes).is_zero()
}

/// `PrimeField::from_be_bytes_mod_order`: the big-endian number that `bytes` spell,
/// reduced modulo the field order.
#[verifier::external_body]
pub(crate) fn ark_from_be_bytes_mod_order(bytes_in: &[u8]) -> (r: FieldElement)
    ensures
        r.val() == be_value(bytes_in@) % modulus(),
{
    let out = Fr::from_be_bytes_mod_order(bytes_in).into_bigint().to_bytes_le();
    let mut bytes = [0u8; 32];
    bytes.copy_from_slice(&out);
    FieldElement { bytes }
}

/// `into_bigint().to_bytes_be()` on `Fr`: the canonical value as 32 big-endian bytes.
#[verifier::external_body]
pub(crate) fn ark_to_bytes_be(a: FieldElement) -> (r: Vec<u8>)
    ensures
        r@ == be_bytes(a.val(), 32),
{
    Fr::from_le_bytes_mod_order(&a.bytes).into_bigint().to_bytes_be()
}

/// `UniformRand::rand` on `Fr`, drawn `count` times from one `ark_std::test_rng()`.
/// Nothing is stated of the values: they come from a random number generator.
#[verifier::external_body]
pub(crate) fn ark_random_elements(count: usize) -> (r: Vec<FieldElement>)
    ensures
        r.len() == count,
{
    let mut rng = ark_std::test_rng();
    let mut drawn = Vec::with_capacity(count);
    for _ in 0..count {
        let out = Fr::rand(&mut rng).into_bigint().to_bytes_le();
        let mut bytes = [0u8; 32];
        bytes.copy_from_slice(&out);
        drawn.push(FieldElement { bytes });
    }
    drawn
}

impl PartialEq for FieldElement {
    fn eq(&self, other: &Self) -> (r: bool) {
        ark_eq(*self, *other)
    }
}

impl vstd::std_specs::cmp::PartialEqSpecImpl for FieldElement {
    open spec fn obeys_eq_spec() -> bool {
        true
    }

    open spec fn eq_spec(&self, other: &FieldElement) -> bool {
        self.val() == other.val()
    }
}

impl FieldElement {
    /// The field element whose value is `v`.
    pub fn from_u64(v: u64) -> (r: FieldElement)
        ensures
            r.val() == v as nat,
    {
        ark_from_u64(v)
    }
}

} // verus!
