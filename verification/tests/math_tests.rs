use num_bigint::BigUint;
use ppb::bignum::Nat;
use ppb::error::CryptoError;
use ppb::math::{
    abs_qr_rep, gcd, generate_safe_prime, generate_safe_rsa_modulus, is_probable_prime, modinv, sample_abs_qr_element,
    sample_unit_mod_n2, small_odd_primes, strike_out,
};

fn big(n: &Nat) -> BigUint {
    BigUint::new(n.to_u32_digits())
}

fn to_nat(b: &BigUint) -> Nat {
    Nat::from_u32_digits(b.to_u32_digits())
}

#[test]
fn test_abs_qr_rep() {
    let n2 = Nat::from_u64(100);
    let x1 = Nat::from_u64(30);
    let x2 = Nat::from_u64(80);
    assert_eq!(abs_qr_rep(&x1, &n2), Nat::from_u64(30));
    assert_eq!(abs_qr_rep(&x2, &n2), Nat::from_u64(20));
}

#[test]
fn test_modinv_small() {
    let inv = modinv(&Nat::from_u64(3), &Nat::from_u64(11)).expect("inverse should exist");
    assert_eq!(inv, Nat::from_u64(4));
}

#[test]
fn test_small_odd_primes_table() {
    let primes = small_odd_primes();
    assert_eq!(&primes[..5], &[3u64, 5, 7, 11, 13]);
    assert!(!primes.contains(&2));
    assert!(!primes.contains(&9));
    assert!(!primes.contains(&65535));
    assert!(primes.contains(&65521));
    assert_eq!(primes.len(), 6541);
}

#[test]
fn test_generate_safe_prime_structure() {
    let bits = 256usize;
    let p = generate_safe_prime(bits).expect("safe prime generation should succeed");
    let pb = big(&p);
    assert_eq!(pb.bits(), bits as u64);
    assert!(is_probable_prime(&p, 40));
    let p_prime = (&pb - 1u32) / 2u32;
    assert!(is_probable_prime(&to_nat(&p_prime), 40));
    assert_eq!(&pb % 4u32, BigUint::from(3u32));
}

#[test]
fn test_generate_safe_rsa_modulus_shape() {
    let bits = 512usize;
    let (p, q, n) = generate_safe_rsa_modulus(bits).expect("modulus generation should succeed");
    let (pb, qb, nb) = (big(&p), big(&q), big(&n));
    assert_ne!(pb, qb);
    assert_eq!(pb.bits(), (bits / 2) as u64);
    assert_eq!(qb.bits(), (bits / 2) as u64);
    assert_eq!(nb, &pb * &qb);
    assert!(nb.bits() == bits as u64 || nb.bits() == (bits - 1) as u64);
}

#[test]
fn test_safe_rsa_modulus_does_not_fail_at_512_bits() {
    for _ in 0..3 {
        generate_safe_rsa_modulus(512).expect("512-bit setup must not fail any more");
    }
}

#[test]
fn abs_qr_rep_keeps_the_midpoint() {
    let n2 = Nat::from_u64(100);
    assert_eq!(abs_qr_rep(&Nat::from_u64(50), &n2), Nat::from_u64(50));
    assert_eq!(abs_qr_rep(&Nat::from_u64(51), &n2), Nat::from_u64(49));
    assert_eq!(abs_qr_rep(&Nat::from_u64(0), &n2), Nat::from_u64(0));
}

#[test]
fn gcd_of_small_values() {
    assert_eq!(gcd(Nat::from_u64(84), Nat::from_u64(36)), Nat::from_u64(12));
    assert_eq!(gcd(Nat::from_u64(17), Nat::from_u64(0)), Nat::from_u64(17));
    assert_eq!(gcd(Nat::from_u64(0), Nat::from_u64(9)), Nat::from_u64(9));
}

#[test]
fn modinv_errors() {
    assert_eq!(
        modinv(&Nat::from_u64(6), &Nat::from_u64(9)),
        Err(CryptoError::ModularInverseUnavailable)
    );
    assert_eq!(modinv(&Nat::from_u64(3), &Nat::from_u64(0)), Err(CryptoError::ModularInverseUnavailable));
    let inv = modinv(&Nat::from_u64(10), &Nat::from_u64(7)).expect("inverse should exist");
    assert_eq!(inv, Nat::from_u64(5));
}

#[test]
fn strike_out_marks_multiples() {
    let mut alive = vec![true; 10];
    strike_out(&mut alive, 1, 3);
    assert_eq!(alive, vec![true, false, true, true, false, true, true, false, true, true]);
}

#[test]
fn safe_prime_rejects_tiny_sizes() {
    assert!(matches!(generate_safe_prime(2), Err(CryptoError::InvalidInput(_))));
    assert!(matches!(generate_safe_rsa_modulus(30), Err(CryptoError::InvalidInput(_))));
    assert!(matches!(generate_safe_rsa_modulus(33), Err(CryptoError::InvalidInput(_))));
}

#[test]
fn primality_of_small_values() {
    assert!(is_probable_prime(&Nat::from_u64(65521), 10));
    assert!(!is_probable_prime(&Nat::from_u64(65535), 10));
    assert!(is_probable_prime(&Nat::from_u64(2), 10));
    assert!(!is_probable_prime(&Nat::from_u64(1), 10));
    assert!(!is_probable_prime(&Nat::from_u64(561), 10));
}

#[test]
fn sampled_units_lie_in_range() {
    let n2 = Nat::from_u64(143 * 143);
    for _ in 0..20 {
        let u = big(&sample_unit_mod_n2(&n2));
        assert!(u > BigUint::from(1u32) && u < big(&n2));
        let q = big(&sample_abs_qr_element(&n2));
        assert!(q <= big(&n2) / 2u32);
    }
}
