use ark_bn254::Fr;
use ark_ff::{BigInteger, PrimeField};
use sha3::{Digest, Keccak256};
use sumcheck_gkr::fiat_shamir_transcript::FiatShamirTranscript;
use sumcheck_gkr::field::FieldElement;
use sumcheck_gkr::gkr_sumcheck::field_element_to_bytes;

#[test]
fn test_transcript_initialization() {
    let _transcript = FiatShamirTranscript::new();
}

#[test]
fn test_transcript_absorb() {
    let mut transcript = FiatShamirTranscript::new();
    transcript.absorb(b"test data");
}

#[test]
fn test_generate_challenge() {
    let mut transcript = FiatShamirTranscript::new();
    transcript.absorb(b"some input");
    let challenge = transcript.generate_challenge();
    assert_eq!(challenge.len(), 32);
}

#[test]
fn test_sample_field_element() {
    let mut transcript = FiatShamirTranscript::new();
    transcript.absorb(b"field element test");
    let element: FieldElement = transcript.sample_field_element();
    assert!(field_element_to_bytes(element).len() > 0);
}

#[test]
fn transcript_challenge_is_keccak_of_absorbed_bytes() {
    let mut transcript = FiatShamirTranscript::new();
    transcript.absorb(b"some ");
    transcript.absorb(b"input");
    let challenge = transcript.generate_challenge();
    let expected: [u8; 32] = Keccak256::digest(b"some input").into();
    assert_eq!(challenge, expected);
}

#[test]
fn transcript_next_challenge_hashes_previous_digest() {
    let mut transcript = FiatShamirTranscript::new();
    transcript.absorb(b"abc");
    let first = transcript.generate_challenge();
    transcript.absorb(b"d");
    let second = transcript.generate_challenge();
    let mut data = first.to_vec();
    data.extend_from_slice(b"d");
    let expected: [u8; 32] = Keccak256::digest(&data).into();
    assert_eq!(second, expected);
}

#[test]
fn transcript_sampled_element_reduces_the_digest() {
    let mut transcript = FiatShamirTranscript::new();
    transcript.absorb(b"field element test");
    let element = transcript.sample_field_element();
    let digest = Keccak256::digest(b"field element test");
    let expected = Fr::from_be_bytes_mod_order(&digest);
    assert_eq!(field_element_to_bytes(element), expected.into_bigint().to_bytes_be());
}
