//! A Fiat-Shamir transcript over Keccak-256. The transcript keeps the bytes absorbed
//! since the last challenge; a challenge is the Keccak-256 digest of them, and the
//! digest itself starts the next absorption.
use crate::field::{ark_from_be_bytes_mod_order, be_value, modulus, FieldElement};
use sha3::{Digest, Keccak256};
use vstd::prelude::*;

verus! {

/// The Keccak-256 digest of `data`.
pub uninterp spec fn keccak256(data: Seq<u8>) -> Seq<u8>;

/// `Keccak256::digest` (sha3): the 32-byte Keccak-256 digest of `data`.
#[verifier::external_body]
fn keccak256_digest(data: &[u8]) -> (r: [u8; 32])
    ensures
        r@ == keccak256(data@),
{
    Keccak256::digest(data).into()
}

/// A Fiat-Shamir transcript.
pub struct FiatShamirTranscript {
    pending: Vec<u8>,
}

impl View for FiatShamirTranscript {
    type V = Seq<u8>;

    /// The bytes that the next challenge hashes.
    closed spec fn view(&self) -> Seq<u8> {
        self.pending@
    }
}

/// The challenge that a transcript holding `state` gives.
pub open spec fn challenge_of(state: Seq<u8>) -> Seq<u8> {
    keccak256(state)
}

/// The field element that a transcript holding `state` samples.
pub open spec fn sampled_of(state: Seq<u8>) -> nat {
    be_value(keccak256(state)) % modulus()
}

impl FiatShamirTranscript {
    /// A transcript that has absorbed nothing.
    pub fn new() -> (r: FiatShamirTranscript)
        ensures
            r@ == Seq::<u8>::empty(),
    {
        FiatShamirTranscript { pending: Vec::new() }
    }

    /// Appends `data` to the transcript.
    pub fn absorb(&mut self, data: &[u8])
        ensures
            final(self)@ == old(self)@ + data@,
    {
        let mut i: usize = 0;
        while i < data.len()
            invariant
                i <= data.len(),
                self@ == old(self)@ + data@.subrange(0, i as int),
            decreases data.len() - i,
        {
            self.pending.push(data[i]);
            i = i + 1;
        }
        assert(data@.subrange(0, data.len() as int) =~= data@);
    }

    /// The digest of everything absorbed so far; the digest is then absorbed in
    /// place of it.
    pub fn generate_challenge(&mut self) -> (r: [u8; 32])
        ensures
            r@ == challenge_of(old(self)@),
            final(self)@ == r@,
    {
        let result = keccak256_digest(self.pending.as_slice());
        self.pending = Vec::new();
        let mut i: usize = 0;
        while i < 32
            invariant
                i <= 32,
                self@ == result@.subrange(0, i as int),
            decreases 32 - i,
        {
            self.pending.push(result[i]);
            i = i + 1;
        }
        assert(result@.subrange(0, 32) =~= result@);
        result
    }

    /// A field element drawn from the transcript: the challenge read as a big-endian
    /// number, reduced modulo the field order.
    pub fn sample_field_element(&mut self) -> (r: FieldElement)
        ensures
            r.val() == sampled_of(old(self)@),
            final(self)@ == challenge_of(old(self)@),
    {
        let challenge = self.generate_challenge();
        ark_from_be_bytes_mod_order(&challenge)
    }
}

} // verus!
