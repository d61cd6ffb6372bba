use ppb::bignum::Nat;
use ppb::cs::{enc_cs, keygen_cs, setup_cs, CsCiphertext};
use ppb::cs_commit::{div_two_signs, mul_three_signs, setup_cs_commit};
use ppb::df::{commit_df_multibase, DfParams};
use ppb::error::CryptoError;
use ppb::hec::{expand_roots_to_coefficients_mod_n, HecEvalInput, HecEvalOutput, HecEvalRandomness, HecFunctionKey};
use ppb::math::{generate_safe_prime, is_probable_prime, sample_unit_mod_n2};
use ppb::pok::pokp;
use ppb::ppb::{build_poks2_proof, keygen_ppb, setup_ppb};

fn n64(v: u64) -> Nat {
    Nat::from_u64(v)
}

fn one_ct() -> CsCiphertext {
    CsCiphertext { c0: Nat::one(), c1: Nat::one() }
}

#[test]
fn sign_products_reject_with_their_message() {
    assert_eq!(mul_three_signs(1, 2, -1), Err(CryptoError::InvalidInput("sign must be in {-1,+1}")));
    assert_eq!(div_two_signs(0, 1), Err(CryptoError::InvalidInput("sign must be in {-1,+1}")));
    assert_eq!(mul_three_signs(-1, -1, -1), Ok(-1));
}

#[test]
fn setup_and_prime_generation_reject_small_sizes() {
    assert_eq!(generate_safe_prime(2).unwrap_err(), CryptoError::InvalidInput("safe prime bits must be >= 3"));
    assert_eq!(
        setup_ppb(31, &(), &(), &()).unwrap_err(),
        CryptoError::InvalidInput("RSA bits must be even and >= 32")
    );
}

#[test]
fn miller_rabin_rejects_nine_with_one_round() {
    for _ in 0..20 {
        assert!(!is_probable_prime(&n64(9), 1));
    }
    assert!(is_probable_prime(&n64(9), 0));
}

#[test]
fn expand_roots_rejects_zero_modulus() {
    assert_eq!(
        expand_roots_to_coefficients_mod_n(&[n64(3)], &n64(1), &Nat::zero()).unwrap_err(),
        CryptoError::InvalidInput("modulus n must be non-zero")
    );
}

#[test]
fn multibase_commitment_reports_which_stage_failed() {
    let zero_n = DfParams { n: Nat::zero(), n2: n64(9), g: n64(2), h: n64(4) };
    assert_eq!(
        commit_df_multibase(&zero_n, &[n64(1)], &n64(1), &n64(1)).unwrap_err(),
        CryptoError::InvalidInput("expand_roots_to_coefficients_mod_n failed")
    );
    let zero_n2 = DfParams { n: n64(3), n2: Nat::zero(), g: n64(2), h: n64(4) };
    assert_eq!(
        commit_df_multibase(&zero_n2, &[n64(1)], &n64(1), &n64(1)).unwrap_err(),
        CryptoError::InvalidInput("n^2 must be non-zero")
    );
}

#[test]
fn pokp_guards_report_their_messages() {
    let cs_params = setup_cs(64).expect("setup cs should succeed");
    let n2 = &cs_params.n2;
    let df = DfParams {
        n: cs_params.n.clone(),
        n2: n2.clone(),
        g: sample_unit_mod_n2(n2),
        h: sample_unit_mod_n2(n2),
    };
    let params_ah = setup_cs_commit(40, &cs_params, &df).expect("setup cs commit should succeed");
    let (pk, _sk) = keygen_cs(&cs_params).expect("keygen should succeed");
    let c = enc_cs(&cs_params, &pk, &n64(1)).expect("enc should succeed");
    let err = pokp(&params_ah, &df, &n64(1), &n64(1), &n64(1), &[], &one_ct(), 64).unwrap_err();
    assert_eq!(err, CryptoError::InvalidInput("c_values must be non-empty"));
    let three = [c.clone(), c.clone(), c.clone()];
    let err = pokp(&params_ah, &df, &n64(1), &n64(1), &n64(1), &three, &one_ct(), 64).unwrap_err();
    assert_eq!(err, CryptoError::InvalidInput("current PoKP implementation requires n to be a power of two"));
    let two = [c.clone(), c];
    let err = pokp(&params_ah, &df, &n64(1), &n64(1), &n64(1), &two, &one_ct(), 0).unwrap_err();
    assert_eq!(err, CryptoError::InvalidInput("df_randomness_bits must be > 0"));
}

#[test]
fn poks2_rejects_r3_zero_before_witness_checks() {
    let params = setup_ppb(64, &(), &(), &()).expect("setup ppb should succeed");
    let x = [n64(5), n64(11), n64(13)];
    let (pk_a, _sk) = keygen_ppb(&params, &HecFunctionKey { n: 3, k: 1 }, &x, &n64(37), &n64(1))
        .expect("keygen ppb should succeed");
    let y = HecEvalInput { y_id: n64(11), y_at: n64(29) };
    let r_hat_z = HecEvalRandomness {
        rid: Nat::zero(),
        rat: n64(41),
        r1: Nat::one(),
        r2: Nat::one(),
        r3: params.cpar.n.clone(),
    };
    let z_hat = HecEvalOutput { z_id: one_ct(), z_at: one_ct(), z_nf: one_ct() };
    let err = build_poks2_proof(&params, &pk_a, &y, &n64(41), &r_hat_z, &z_hat, &Nat::one()).unwrap_err();
    assert_eq!(err, CryptoError::InvalidInput("r3 must be non-zero in Z_n"));
    let r_hat_z = HecEvalRandomness { r3: Nat::one(), ..r_hat_z };
    let err = build_poks2_proof(&params, &pk_a, &y, &n64(40), &r_hat_z, &z_hat, &Nat::one()).unwrap_err();
    assert_eq!(err, CryptoError::InvalidInput("r_y must equal rid + rat (mod n)"));
    let err = build_poks2_proof(&params, &pk_a, &y, &n64(41), &r_hat_z, &z_hat, &Nat::one()).unwrap_err();
    assert_eq!(err, CryptoError::InvalidInput("provided C_y does not match Com(m_y; r_y)"));
}
