use num_bigint::BigUint;
use ppb::bignum::Nat;
use ppb::df::{commit_df, commit_df_multibase, commit_df_vector_with_bases, commit_df_with_opening, derive_df_vector_bases, setup_df};
use ppb::error::CryptoError;
use ppb::math::abs_qr_rep;
use ppb::qr::{commit_qr, commit_qr_with_opening, setup_qr};

fn big(n: &Nat) -> BigUint {
    BigUint::new(n.to_u32_digits())
}

fn to_nat(b: &BigUint) -> Nat {
    Nat::from_u32_digits(b.to_u32_digits())
}

#[test]
fn test_df_commit_manual_check() {
    let params = setup_df(64).expect("setup df should succeed");
    let m = Nat::from_u64(12345);
    let r = Nat::from_u64(67890);
    let com = commit_df_with_opening(&params, &m, &r).expect("commit should succeed");
    let n2 = big(&params.n2);
    let manual = (big(&params.g).modpow(&big(&m), &n2) * big(&params.h).modpow(&big(&r), &n2)) % &n2;
    assert_eq!(big(&com.c), manual);
    assert_eq!(com.r, r);
}

#[test]
fn test_df_multibase_matches_manual_vector_formula() {
    let params = setup_df(64).expect("setup df should succeed");
    let x = vec![Nat::from_u64(2), Nat::from_u64(3)];
    let r = Nat::from_u64(7);
    let s = Nat::from_u64(1);
    let (commitment, coeffs) = commit_df_multibase(&params, &x, &r, &s).expect("multibase commit should succeed");
    let bases = derive_df_vector_bases(&params, coeffs.len()).expect("bases should derive");
    let manual = commit_df_vector_with_bases(&params, &bases, &coeffs, &r).expect("manual commit should succeed");
    assert_eq!(commitment.c, manual.c);
    assert_eq!(commitment.r, r);
}

#[test]
fn test_df_multibase_binds_positions_not_only_sum() {
    let params = setup_df(64).expect("setup df should succeed");
    let bases = derive_df_vector_bases(&params, 2).expect("bases should derive");
    let r = Nat::from_u64(11);
    let a = vec![Nat::from_u64(1), Nat::from_u64(2)];
    let b = vec![Nat::from_u64(2), Nat::from_u64(1)];
    let ca = commit_df_vector_with_bases(&params, &bases, &a, &r).expect("commit should succeed");
    let cb = commit_df_vector_with_bases(&params, &bases, &b, &r).expect("commit should succeed");
    let sum = |v: &Vec<Nat>| v.iter().fold(BigUint::from(0u32), |acc, x| acc + big(x));
    assert_eq!(sum(&a), sum(&b));
    assert_ne!(ca.c, cb.c);
}

#[test]
fn test_qr_commit_manual_check() {
    let params = setup_qr(64).expect("setup qr should succeed");
    let m = Nat::from_u64(987);
    let s = Nat::from_u64(111);
    let r = Nat::from_u64(222);
    let (com, opening) = commit_qr_with_opening(&params, &m, &s, &r).expect("commit qr should succeed");
    let n2 = big(&params.n2);
    let gs = big(&params.g).modpow(&big(&s), &n2);
    let c1_manual = abs_qr_rep(&to_nat(&((big(&m) * gs) % &n2)), &params.n2);
    let c2_manual = (big(&params.g_prime).modpow(&big(&s), &n2) * big(&params.h_prime).modpow(&big(&r), &n2)) % &n2;
    assert_eq!(com.c1, c1_manual);
    assert_eq!(big(&com.c2), c2_manual);
    assert_eq!(opening.s, s);
    assert_eq!(opening.r, r);
}

#[test]
fn df_vector_commitment_is_the_product_formula() {
    let params = setup_df(64).expect("setup df should succeed");
    let bases = derive_df_vector_bases(&params, 3).expect("bases should derive");
    assert_eq!(bases.len(), 3);
    let values = vec![Nat::from_u64(5), Nat::from_u64(0), Nat::from_u64(9)];
    let r = Nat::from_u64(13);
    let com = commit_df_vector_with_bases(&params, &bases, &values, &r).expect("commit should succeed");
    let n2 = big(&params.n2);
    let mut manual = big(&params.h).modpow(&big(&r), &n2);
    for (b, v) in bases.iter().zip(values.iter()) {
        manual = (manual * big(b).modpow(&big(v), &n2)) % &n2;
    }
    assert_eq!(big(&com.c), manual);
    let again = derive_df_vector_bases(&params, 3).expect("bases should derive");
    assert_eq!(again, bases);
}

#[test]
fn df_vector_commitment_rejects_length_mismatch() {
    let params = setup_df(64).expect("setup df should succeed");
    let bases = derive_df_vector_bases(&params, 2).expect("bases should derive");
    let values = vec![Nat::from_u64(1)];
    assert!(matches!(
        commit_df_vector_with_bases(&params, &bases, &values, &Nat::from_u64(1)),
        Err(CryptoError::InvalidInput(_))
    ));
}

#[test]
fn df_fresh_commitment_and_errors() {
    let params = setup_df(64).expect("setup df should succeed");
    assert!(matches!(commit_df(&params, &Nat::from_u64(3), 0), Err(CryptoError::InvalidInput(_))));
    let com = commit_df(&params, &Nat::from_u64(3), 16).expect("commit should succeed");
    assert!(big(&com.r) < BigUint::from(1u32 << 16));
    let again = commit_df_with_opening(&params, &Nat::from_u64(3), &com.r).expect("commit should succeed");
    assert_eq!(again.c, com.c);
    assert!(matches!(setup_df(33), Err(CryptoError::InvalidInput(_))));
}

#[test]
fn df_multibase_coefficients_vanish_on_roots() {
    let params = setup_df(64).expect("setup df should succeed");
    let x = vec![Nat::from_u64(4), Nat::from_u64(9)];
    let s = Nat::from_u64(3);
    let (_c, coeffs) = commit_df_multibase(&params, &x, &Nat::from_u64(2), &s).expect("commit should succeed");
    let n = big(&params.n);
    let expected = vec![BigUint::from(108u32) % &n, (&n * 3u32 - 39u32) % &n, BigUint::from(3u32)];
    let got: Vec<BigUint> = coeffs.iter().map(big).collect();
    assert_eq!(got, expected);
}

#[test]
fn qr_commit_rejects_large_message() {
    let params = setup_qr(64).expect("setup qr should succeed");
    let too_big = params.n2.clone();
    assert!(matches!(commit_qr(&params, &too_big, 16), Err(CryptoError::InvalidInput(_))));
    assert!(matches!(commit_qr(&params, &Nat::from_u64(1), 0), Err(CryptoError::InvalidInput(_))));
    let (com, opening) = commit_qr(&params, &Nat::from_u64(5), 16).expect("commit should succeed");
    let (again, _) = commit_qr_with_opening(&params, &Nat::from_u64(5), &opening.s, &opening.r).expect("commit");
    assert_eq!(again.c1, com.c1);
    assert_eq!(again.c2, com.c2);
}
