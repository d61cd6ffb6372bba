use num_bigint::BigUint;
use ppb::bignum::Nat;
use ppb::hash::{fiat_shamir_challenge, fiat_shamir_challenge_biguints};
use sha2::{Digest, Sha256};

fn big(n: &Nat) -> BigUint {
    BigUint::new(n.to_u32_digits())
}

#[test]
fn test_fiat_shamir_stable_output_len() {
    let c = fiat_shamir_challenge(&[b"alpha", b"beta"]);
    assert_eq!(c.len(), 32);
}

#[test]
fn test_fiat_shamir_biguints_is_deterministic() {
    let a = Nat::from_u64(1);
    let b = Nat::from_u64(257);
    let c1 = fiat_shamir_challenge_biguints(&[&a, &b]);
    let c2 = fiat_shamir_challenge_biguints(&[&a, &b]);
    assert_eq!(c1, c2);
}

#[test]
fn fiat_shamir_challenge_hashes_the_concatenation() {
    let c = fiat_shamir_challenge(&[b"alpha", b"beta"]);
    let expected: [u8; 32] = Sha256::digest(b"alphabeta").into();
    assert_eq!(c, expected);
    let empty = fiat_shamir_challenge(&[]);
    let expected_empty: [u8; 32] = Sha256::digest(b"").into();
    assert_eq!(empty, expected_empty);
}

#[test]
fn fiat_shamir_biguints_uses_length_prefixed_encoding() {
    let a = Nat::from_u64(1);
    let b = Nat::from_u64(257);
    let mut transcript: Vec<u8> = Vec::new();
    transcript.extend_from_slice(&1u64.to_be_bytes());
    transcript.push(1);
    transcript.extend_from_slice(&2u64.to_be_bytes());
    transcript.extend_from_slice(&[1, 1]);
    let digest = Sha256::digest(&transcript);
    let expected = BigUint::from_bytes_be(&digest);
    let c = fiat_shamir_challenge_biguints(&[&a, &b]);
    assert_eq!(big(&c), expected);
    let swapped = fiat_shamir_challenge_biguints(&[&b, &a]);
    assert_ne!(big(&swapped), expected);
}
