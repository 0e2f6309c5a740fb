//! Index arithmetic on the boolean hypercube: splicing a zero bit into an index.
use vstd::arithmetic::div_mod::*;
use vstd::arithmetic::mul::*;
use vstd::arithmetic::power2::*;
use vstd::bits::*;
use vstd::prelude::*;

verus! {

/// `value` with a zero bit spliced in at position `index`: the bits below `index`
/// stay, the bits from `index` up move one place higher.
pub open spec fn spliced(value: nat, index: nat) -> nat {
    (value / pow2(index)) * pow2(index + 1) + value % pow2(index)
}

/// What the shift-and-mask expression `((v >> k) << (k + 1)) | (v & ((1 << k) - 1))`
/// computes, when the spliced value fits in a `usize`.
pub proof fn lemma_splice_bits(v: usize, k: usize)
    requires
        k + 1 < usize::BITS,
        spliced(v as nat, k as nat) < pow2(usize::BITS as nat),
    ensures
        1usize << k == pow2(k as nat),
        (v >> k) << ((k + 1) as usize) == (v as nat / pow2(k as nat)) * pow2((k + 1) as nat),
        v & (((1usize << k) - 1) as usize) == v as nat % pow2(k as nat),
        ((v >> k) << ((k + 1) as usize)) | (v & (((1usize << k) - 1) as usize)) == spliced(v as nat, k as nat),
{
    let k1 = (k + 1) as usize;
    lemma_pow2_pos(k as nat);
    lemma_pow2_pos(k1 as nat);
    lemma_usize_pow2_no_overflow(k as nat);
    lemma_usize_shl_is_mul(1, k);
    lemma_usize_shr_is_div(v, k);
    let high = v >> k;
    let q = v as nat / pow2(k as nat);
    let low = v as nat % pow2(k as nat);
    lemma_fundamental_div_mod(v as int, pow2(k as nat) as int);
    assert(q * pow2(k1 as nat) <= spliced(v as nat, k as nat));
    assert(pow2(usize::BITS as nat) == usize::MAX + 1) by {
        lemma2_to64();
        lemma2_to64_rest();
    }
    lemma_usize_shl_is_mul(high, k1);
    assert(low_bits_mask(k as nat) == pow2(k as nat) - 1);
    lemma_usize_low_bits_mask_is_mod(v, k as nat);
    let x = high << k1;
    let m = (((1usize << k) - 1) as usize);
    assert(m == (1usize << k) - 1);
    let l = v & m;
    assert(l < pow2(k as nat)) by {
        lemma_mod_bound(v as int, pow2(k as nat) as int);
    }
    assert(l < (1usize << k));
    assert(x | l == x + l) by (bit_vector)
        requires
            x == (high << k1),
            k1 == k + 1,
            k1 < usize::BITS,
            l < (1usize << k),
    ;
}

} // verus!
