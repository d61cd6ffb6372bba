use num_bigint::BigUint;
use ppb::bignum::Nat;
use ppb::math::{generate_safe_prime, is_probable_prime};

fn big(n: &Nat) -> BigUint {
    BigUint::new(n.to_u32_digits())
}

#[test]
fn miller_rabin_accepts_primes_for_every_round_count() {
    for p in [5u64, 7, 11, 13, 97, 65_537, 1_000_000_007, 2_305_843_009_213_693_951] {
        for rounds in [0usize, 1, 8, 32] {
            assert!(is_probable_prime(&Nat::from_u64(p), rounds), "prime {} rejected", p);
        }
    }
}

#[test]
fn miller_rabin_rejects_small_composites() {
    for c in [9u64, 15, 21, 25, 561, 1105] {
        assert!(!is_probable_prime(&Nat::from_u64(c), 16), "composite {} accepted", c);
    }
}

#[test]
fn generated_safe_prime_has_no_small_odd_factor() {
    let p = big(&generate_safe_prime(40).expect("safe prime generation should succeed"));
    let h = (&p - 1u32) / 2u32;
    for q in [3u32, 5, 7, 11, 13, 17, 19, 23, 29, 31, 65_521] {
        assert_ne!(&p % q, BigUint::from(0u32));
        assert_ne!(&h % q, BigUint::from(0u32));
    }
}
