use num_bigint::BigUint;
use ppb::bignum::Nat;
use ppb::cs::{dec_cs, enc_cs, enc_cs_with_randomness, keygen_cs};
use ppb::error::CryptoError;
use ppb::hec::{
    expand_roots_to_coefficients_mod_n, hec_dec, hec_enc, hec_enc_with_mask, hec_eval, setup_hec, HecEvalInput,
    HecEvalOutput, HecEvalRandomness, HecFunctionKey,
};
use ppb::pok::CiphertextPolynomial;

fn big(n: &Nat) -> BigUint {
    BigUint::new(n.to_u32_digits())
}

fn to_nat(b: &BigUint) -> Nat {
    Nat::from_u32_digits(b.to_u32_digits())
}

fn n64(v: u64) -> Nat {
    Nat::from_u64(v)
}

fn modn(v: &Nat, n: &Nat) -> Nat {
    to_nat(&(big(v) % big(n)))
}

#[test]
fn test_expand_roots_to_coefficients_mod_n_small_example() {
    let n = n64(97);
    let x = vec![n64(3), n64(5)];
    let s = n64(2);
    let coeffs = expand_roots_to_coefficients_mod_n(&x, &s, &n).expect("expansion should succeed");
    assert_eq!(coeffs, vec![n64(30), n64(81), n64(2)]);
}

#[test]
fn test_hec_enc_output_shape() {
    let hecpar = setup_hec(64).expect("setup hec should succeed");
    let fk = HecFunctionKey { n: 3, k: 1 };
    let x = vec![n64(4), n64(7), n64(9)];
    let out = hec_enc(&hecpar, &fk, &x).expect("hec enc should succeed");
    assert_eq!(out.x_public.encrypted_coeffs.len(), x.len() + 1);
    assert_eq!(out.x_public.polynomial.len(), x.len() + 1);
    assert_eq!(out.d_audit.fk, fk);
    assert_eq!(out.d_audit.x, x);
}

#[test]
fn test_hec_enc_polynomial_evaluates_to_zero_on_roots_after_decrypt() {
    let hecpar = setup_hec(64).expect("setup hec should succeed");
    let fk = HecFunctionKey { n: 2, k: 1 };
    let x = vec![n64(5), n64(11)];
    let out = hec_enc(&hecpar, &fk, &x).expect("hec enc should succeed");
    for root in &out.d_audit.x {
        let eval_ct = out.x_public.polynomial.evaluate(root);
        let m = dec_cs(&hecpar.cs_params, &out.d_audit.sk_e, &eval_ct).expect("decrypt should succeed");
        assert_eq!(m, Nat::zero());
    }
}

#[test]
fn test_plain_p_of_chi_matches_decrypted_ciphertext_evaluate() {
    let hecpar = setup_hec(64).expect("setup hec should succeed");
    let (pk, sk) = keygen_cs(&hecpar.cs_params).expect("keygen should succeed");
    let roots = vec![n64(4), n64(7), n64(9)];
    let s = n64(13);
    let coeffs =
        expand_roots_to_coefficients_mod_n(&roots, &s, &hecpar.cs_params.n).expect("expansion should succeed");
    let mut encrypted_coeffs = Vec::with_capacity(coeffs.len());
    for coeff in &coeffs {
        encrypted_coeffs.push(enc_cs(&hecpar.cs_params, &pk, coeff).expect("enc coeff should succeed"));
    }
    let poly = CiphertextPolynomial::new(encrypted_coeffs, &hecpar.cs_params.n2).expect("poly should build");
    let n = big(&hecpar.cs_params.n);
    for chi in [2u64, 5, 11] {
        let chi_b = BigUint::from(chi);
        let mut expected = BigUint::from(0u32);
        let mut chi_pow = BigUint::from(1u32);
        for coeff in &coeffs {
            expected = (expected + ((big(coeff) * &chi_pow) % &n)) % &n;
            chi_pow = (&chi_pow * &chi_b) % &n;
        }
        let eval_ct = poly.evaluate(&n64(chi));
        let got = dec_cs(&hecpar.cs_params, &sk, &eval_ct).expect("decrypt should succeed");
        assert_eq!(big(&got), expected);
    }
}

#[test]
fn test_hec_eval_rejects_zero_r3() {
    let hecpar = setup_hec(64).expect("setup hec should succeed");
    let fk = HecFunctionKey { n: 2, k: 1 };
    let x = vec![n64(3), n64(8)];
    let enc = hec_enc(&hecpar, &fk, &x).expect("hec enc should succeed");
    let y = HecEvalInput { y_id: n64(3), y_at: n64(21) };
    let r_z = HecEvalRandomness { rid: n64(2), rat: n64(3), r1: n64(5), r2: n64(7), r3: Nat::zero() };
    let err = hec_eval(&hecpar, &fk, 1, &enc.x_public, &y, &r_z).expect_err("r3=0 must be rejected");
    assert_eq!(err, CryptoError::InvalidInput("r3 must be non-zero in Z_n"));
}

#[test]
fn test_hec_eval_hit_case_recovers_identity_and_seed() {
    let hecpar = setup_hec(64).expect("setup hec should succeed");
    let fk = HecFunctionKey { n: 2, k: 1 };
    let x = vec![n64(5), n64(11)];
    let enc = hec_enc(&hecpar, &fk, &x).expect("hec enc should succeed");
    let y = HecEvalInput { y_id: n64(5), y_at: n64(42) };
    let r_z = HecEvalRandomness { rid: n64(13), rat: n64(17), r1: n64(19), r2: n64(23), r3: n64(29) };
    let out = hec_eval(&hecpar, &fk, 1, &enc.x_public, &y, &r_z).expect("hec eval should succeed");
    let p = &hecpar.cs_params;
    let z_id_plain = dec_cs(p, &enc.d_audit.sk_e, &out.z_id).expect("decrypt zid should succeed");
    let z_at_plain = dec_cs(p, &enc.d_audit.sk_e, &out.z_at).expect("decrypt zat should succeed");
    let z_nf_plain = dec_cs(p, &enc.d_audit.sk_e, &out.z_nf).expect("decrypt znf should succeed");
    assert_eq!(z_id_plain, modn(&y.y_id, &p.n));
    assert_eq!(z_at_plain, modn(&y.y_at, &p.n));
    assert_eq!(z_nf_plain, Nat::zero());
}

#[test]
fn test_hec_eval_non_hit_case_matches_formula() {
    let hecpar = setup_hec(64).expect("setup hec should succeed");
    let fk = HecFunctionKey { n: 3, k: 1 };
    let x = vec![n64(4), n64(7), n64(9)];
    let enc = hec_enc(&hecpar, &fk, &x).expect("hec enc should succeed");
    let y = HecEvalInput { y_id: n64(8), y_at: n64(31) };
    let r_z = HecEvalRandomness { rid: n64(3), rat: n64(5), r1: n64(11), r2: n64(13), r3: n64(17) };
    let out = hec_eval(&hecpar, &fk, 1, &enc.x_public, &y, &r_z).expect("hec eval should succeed");
    let p = &hecpar.cs_params;
    let n = big(&p.n);
    let y_id_mod = big(&y.y_id) % &n;
    let y_at_mod = big(&y.y_at) % &n;
    let r1_mod = big(&r_z.r1) % &n;
    let r2_mod = big(&r_z.r2) % &n;
    let r3_mod = big(&r_z.r3) % &n;
    let poly = CiphertextPolynomial::new(enc.x_public.encrypted_coeffs.clone(), &p.n2).expect("poly build should succeed");
    let e_ct = poly.evaluate(&to_nat(&y_id_mod));
    let e_plain = big(&dec_cs(p, &enc.d_audit.sk_e, &e_ct).expect("decrypt E should succeed"));
    let expected_zid = ((&r1_mod * &e_plain) + &y_id_mod) % &n;
    let expected_zat = ((&r2_mod * &e_plain) + &y_at_mod) % &n;
    let expected_znf = (&r3_mod * &e_plain) % &n;
    let got_zid = dec_cs(p, &enc.d_audit.sk_e, &out.z_id).expect("decrypt zid should succeed");
    let got_zat = dec_cs(p, &enc.d_audit.sk_e, &out.z_at).expect("decrypt zat should succeed");
    let got_znf = dec_cs(p, &enc.d_audit.sk_e, &out.z_nf).expect("decrypt znf should succeed");
    assert_eq!(big(&got_zid), expected_zid);
    assert_eq!(big(&got_zat), expected_zat);
    assert_eq!(big(&got_znf), expected_znf);
}

#[test]
fn test_hec_dec_hit_returns_identity_and_seed() {
    let hecpar = setup_hec(64).expect("setup hec should succeed");
    let fk = HecFunctionKey { n: 2, k: 1 };
    let x = vec![n64(5), n64(11)];
    let enc = hec_enc(&hecpar, &fk, &x).expect("hec enc should succeed");
    let y = HecEvalInput { y_id: n64(5), y_at: n64(42) };
    let r_z = HecEvalRandomness { rid: n64(13), rat: n64(17), r1: n64(19), r2: n64(23), r3: n64(29) };
    let z = hec_eval(&hecpar, &fk, 1, &enc.x_public, &y, &r_z).expect("hec eval should succeed");
    let out = hec_dec(&hecpar, &enc.d_audit, &z).expect("hec dec should succeed");
    let recovered = out.expect("hit case should recover identity");
    assert_eq!(recovered.y_id, modn(&y.y_id, &hecpar.cs_params.n));
    assert_eq!(recovered.y_at, modn(&y.y_at, &hecpar.cs_params.n));
}

#[test]
fn test_hec_dec_non_hit_returns_none() {
    let hecpar = setup_hec(64).expect("setup hec should succeed");
    let fk = HecFunctionKey { n: 2, k: 1 };
    let x = vec![n64(5), n64(11)];
    let enc = hec_enc(&hecpar, &fk, &x).expect("hec enc should succeed");
    let y = HecEvalInput { y_id: n64(8), y_at: n64(42) };
    let r_z = HecEvalRandomness { rid: n64(3), rat: n64(5), r1: n64(7), r2: n64(11), r3: n64(13) };
    let z = hec_eval(&hecpar, &fk, 1, &enc.x_public, &y, &r_z).expect("hec eval should succeed");
    let out = hec_dec(&hecpar, &enc.d_audit, &z).expect("hec dec should succeed");
    assert!(out.is_none());
}

#[test]
fn test_hec_dec_returns_none_if_nf_is_zero_but_identity_not_in_list() {
    let hecpar = setup_hec(64).expect("setup hec should succeed");
    let fk = HecFunctionKey { n: 2, k: 1 };
    let x = vec![n64(5), n64(11)];
    let enc = hec_enc(&hecpar, &fk, &x).expect("hec enc should succeed");
    let p = &hecpar.cs_params;
    let fake_id = n64(21);
    let fake_at = n64(33);
    let z = HecEvalOutput {
        z_id: enc_cs_with_randomness(p, &enc.x_public.pk_ah, &modn(&fake_id, &p.n), &n64(2))
            .expect("zid enc should succeed"),
        z_at: enc_cs_with_randomness(p, &enc.x_public.pk_ah, &modn(&fake_at, &p.n), &n64(3))
            .expect("zat enc should succeed"),
        z_nf: enc_cs_with_randomness(p, &enc.x_public.pk_ah, &Nat::zero(), &n64(5)).expect("znf enc should succeed"),
    };
    let out = hec_dec(&hecpar, &enc.d_audit, &z).expect("hec dec should succeed");
    assert!(out.is_none());
}

#[test]
fn hec_enc_rejects_list_length_mismatch() {
    let hecpar = setup_hec(64).expect("setup hec should succeed");
    let fk = HecFunctionKey { n: 3, k: 1 };
    let x = vec![n64(4), n64(7)];
    assert!(matches!(hec_enc(&hecpar, &fk, &x), Err(CryptoError::InvalidInput(_))));
}

#[test]
fn hec_enc_with_mask_encrypts_the_masked_coefficients() {
    let hecpar = setup_hec(64).expect("setup hec should succeed");
    let fk = HecFunctionKey { n: 2, k: 1 };
    let x = vec![n64(3), n64(5)];
    let out = hec_enc_with_mask(&hecpar, &fk, &x, &n64(2)).expect("hec enc should succeed");
    let expected = expand_roots_to_coefficients_mod_n(&x, &n64(2), &hecpar.cs_params.n).expect("expansion");
    assert_eq!(out.enc_witness.masked_coeffs, expected);
    for (ct, coeff) in out.x_public.encrypted_coeffs.iter().zip(expected.iter()) {
        let m = dec_cs(&hecpar.cs_params, &out.d_audit.sk_e, ct).expect("decrypt should succeed");
        assert_eq!(&m, coeff);
    }
}

#[test]
fn hec_eval_rejects_coefficient_count_mismatch() {
    let hecpar = setup_hec(64).expect("setup hec should succeed");
    let fk = HecFunctionKey { n: 2, k: 1 };
    let enc = hec_enc(&hecpar, &fk, &vec![n64(3), n64(5)]).expect("hec enc should succeed");
    let other = HecFunctionKey { n: 3, k: 1 };
    let y = HecEvalInput { y_id: n64(3), y_at: n64(1) };
    let r_z = HecEvalRandomness { rid: n64(2), rat: n64(3), r1: n64(5), r2: n64(7), r3: n64(9) };
    assert!(matches!(hec_eval(&hecpar, &other, 1, &enc.x_public, &y, &r_z), Err(CryptoError::InvalidInput(_))));
}
