use num_bigint::BigUint;
use ppb::bignum::Nat;
use ppb::cs::{dec_cs, enc_cs, keygen_cs, setup_cs};

fn big(n: &Nat) -> BigUint {
    BigUint::new(n.to_u32_digits())
}

#[test]
fn test_cs_roundtrip() {
    let params = setup_cs(64).expect("setup cs should succeed");
    let (pk, sk) = keygen_cs(&params).expect("keygen should succeed");
    let m = Nat::from_u64(42);
    let ct = enc_cs(&params, &pk, &m).expect("enc should succeed");
    let dec = dec_cs(&params, &sk, &ct).expect("dec should succeed");
    assert_eq!(dec, m);
}

#[test]
fn cs_setup_has_expected_shape() {
    let params = setup_cs(64).expect("setup cs should succeed");
    let n = big(&params.n);
    assert_eq!(big(&params.n2), &n * &n);
    assert_eq!(big(&params.h), &n + 1u32);
    assert!(big(&params.g) <= big(&params.n2) / 2u32);
}

#[test]
fn cs_setup_rejects_odd_or_small_bits() {
    assert!(setup_cs(31).is_err());
    assert!(setup_cs(16).is_err());
    assert!(setup_cs(65).is_err());
}

#[test]
fn cs_enc_rejects_message_outside_zn() {
    let params = setup_cs(64).expect("setup cs should succeed");
    let (pk, _sk) = keygen_cs(&params).expect("keygen should succeed");
    let err = enc_cs(&params, &pk, &params.n).expect_err("m = n must be rejected");
    assert_eq!(err, ppb::CryptoError::InvalidInput("message must be in [0, n)"));
}

#[test]
fn cs_homomorphic_add_decrypts_to_sum() {
    let params = setup_cs(64).expect("setup cs should succeed");
    let (pk, sk) = keygen_cs(&params).expect("keygen should succeed");
    let a = enc_cs(&params, &pk, &Nat::from_u64(17)).expect("enc a");
    let b = enc_cs(&params, &pk, &Nat::from_u64(25)).expect("enc b");
    let sum = ppb::cs::cs_homomorphic_add(&a, &b, &params.n2);
    assert_eq!(dec_cs(&params, &sk, &sum).expect("dec"), Nat::from_u64(42));
    let scaled = ppb::cs::cs_homomorphic_scalar_mul(&a, &Nat::from_u64(3), &params.n2);
    assert_eq!(dec_cs(&params, &sk, &scaled).expect("dec"), Nat::from_u64(51));
}
