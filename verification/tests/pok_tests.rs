use num_bigint::{BigUint, RandBigInt};
use ppb::bignum::{Int, Nat};
use ppb::cs::{dec_cs, enc_cs, keygen_cs, setup_cs, CsCiphertext, CsParams, CsSecretKey};
use ppb::cs_commit::setup_cs_commit;
use ppb::df::{commit_df_with_opening, DfParams};
use ppb::error::CryptoError;
use ppb::math::sample_unit_mod_n2;
use ppb::pok::{
    com_ah_with_zero_randomness, pokp, prove_df_open_public_scalar, prove_mult, verify_df_open_public_scalar,
    verify_mult, CiphertextPolynomial, PoKStarProof,
};
use rand::rngs::OsRng;

fn big(n: &Nat) -> BigUint {
    BigUint::new(n.to_u32_digits())
}

fn to_nat(b: &BigUint) -> Nat {
    Nat::from_u32_digits(b.to_u32_digits())
}

fn n64(v: u64) -> Nat {
    Nat::from_u64(v)
}

fn df_for(cs_params: &CsParams) -> DfParams {
    DfParams {
        n: cs_params.n.clone(),
        n2: cs_params.n2.clone(),
        g: sample_unit_mod_n2(&cs_params.n2),
        h: sample_unit_mod_n2(&cs_params.n2),
    }
}

fn scale(c: &CsCiphertext, k: &BigUint, n2: &BigUint) -> (BigUint, BigUint) {
    (big(&c.c0).modpow(k, n2), big(&c.c1).modpow(k, n2))
}

fn folded_eval_fixture(bits: usize, coeffs: usize) -> (CsParams, CsSecretKey, Vec<BigUint>, CiphertextPolynomial, BigUint) {
    let cs_params = setup_cs(bits).expect("setup cs should succeed");
    let (pk, sk) = keygen_cs(&cs_params).expect("keygen should succeed");
    let mut rng = OsRng;
    let n = big(&cs_params.n);
    let plain: Vec<BigUint> = (0..coeffs).map(|_| rng.gen_biguint_below(&n)).collect();
    let cts: Vec<CsCiphertext> =
        plain.iter().map(|m| enc_cs(&cs_params, &pk, &to_nat(m)).expect("enc should succeed")).collect();
    let poly = CiphertextPolynomial::new(cts, &cs_params.n2).expect("poly should build");
    let y = rng.gen_biguint_below(&n);
    (cs_params, sk, plain, poly, y)
}

#[test]
fn test_com_ah_with_zero_randomness_shape() {
    let cs_params = setup_cs(64).expect("setup cs should succeed");
    let (pk, _sk) = keygen_cs(&cs_params).expect("keygen should succeed");
    let ct = enc_cs(&cs_params, &pk, &n64(3)).expect("enc should succeed");
    let df_params = df_for(&cs_params);
    let params_ah = setup_cs_commit(40, &cs_params, &df_params).expect("setup cs commit should succeed");
    let wrapped = com_ah_with_zero_randomness(&params_ah, &ct).expect("zero random commit should succeed");
    let n2 = big(&params_ah.n2);
    assert_eq!(big(&wrapped.commitment.c1), big(&ct.c0) % &n2);
    assert_eq!(wrapped.commitment.c2, Nat::one());
    assert_eq!(big(&wrapped.commitment.c3), big(&ct.c1) % &n2);
    assert_eq!(wrapped.commitment.c4, Nat::one());
    assert_eq!(wrapped.opening.s1, Nat::zero());
    assert_eq!(wrapped.opening.r1, Nat::zero());
}

#[test]
fn test_prove_mult_and_verify_square_df() {
    let cs_params = setup_cs(64).expect("setup cs should succeed");
    let df_params = df_for(&cs_params);
    let z = n64(9);
    let c_in = commit_df_with_opening(&df_params, &z, &n64(77)).expect("commit in should succeed");
    let c_out = commit_df_with_opening(&df_params, &n64(81), &n64(123)).expect("commit out should succeed");
    let proof = prove_mult(&df_params, &c_in.c, &c_in.r, &c_out.c, &c_out.r, &z).expect("prove mult should succeed");
    let ok = verify_mult(&df_params, &c_in.c, &c_out.c, &proof).expect("verify should run");
    assert!(ok);
}

#[test]
fn test_verify_mult_rejects_tampered_proof() {
    let cs_params = setup_cs(64).expect("setup cs should succeed");
    let df_params = df_for(&cs_params);
    let z = n64(6);
    let c_in = commit_df_with_opening(&df_params, &z, &n64(11)).expect("commit in should succeed");
    let c_out = commit_df_with_opening(&df_params, &n64(36), &n64(19)).expect("commit out should succeed");
    let mut proof =
        prove_mult(&df_params, &c_in.c, &c_in.r, &c_out.c, &c_out.r, &z).expect("prove mult should succeed");
    proof.z_gamma = proof.z_gamma.add(&Int::from_i64(1));
    let ok = verify_mult(&df_params, &c_in.c, &c_out.c, &proof).expect("verify should run");
    assert!(!ok);
}

#[test]
fn test_ciphertext_polynomial_evaluate_matches_manual_homomorphic_sum() {
    let cs_params = setup_cs(64).expect("setup cs should succeed");
    let (pk, _sk) = keygen_cs(&cs_params).expect("keygen should succeed");
    let x0 = enc_cs(&cs_params, &pk, &n64(1)).expect("enc x0 should succeed");
    let x1 = enc_cs(&cs_params, &pk, &n64(2)).expect("enc x1 should succeed");
    let x2 = enc_cs(&cs_params, &pk, &n64(3)).expect("enc x2 should succeed");
    let poly = CiphertextPolynomial::new(vec![x0.clone(), x1.clone(), x2.clone()], &cs_params.n2)
        .expect("poly construction should succeed");
    let eval = poly.evaluate(&n64(3));
    let n2 = big(&cs_params.n2);
    let y = BigUint::from(3u32);
    let y2 = &y * &y;
    let x1_y = scale(&x1, &y, &n2);
    let x2_y2 = scale(&x2, &y2, &n2);
    let manual0 = (((big(&x0.c0) * &x1_y.0) % &n2) * &x2_y2.0) % &n2;
    let manual1 = (((big(&x0.c1) * &x1_y.1) % &n2) * &x2_y2.1) % &n2;
    assert_eq!(big(&eval.c0), manual0);
    assert_eq!(big(&eval.c1), manual1);
}

#[test]
fn test_ciphertext_polynomial_split_and_fold() {
    let cs_params = setup_cs(64).expect("setup cs should succeed");
    let (pk, _sk) = keygen_cs(&cs_params).expect("keygen should succeed");
    let c0 = enc_cs(&cs_params, &pk, &n64(1)).expect("enc c0 should succeed");
    let c1 = enc_cs(&cs_params, &pk, &n64(2)).expect("enc c1 should succeed");
    let c2 = enc_cs(&cs_params, &pk, &n64(3)).expect("enc c2 should succeed");
    let c3 = enc_cs(&cs_params, &pk, &n64(4)).expect("enc c3 should succeed");
    let poly = CiphertextPolynomial::new(vec![c0.clone(), c1.clone(), c2.clone(), c3.clone()], &cs_params.n2)
        .expect("poly construction should succeed");
    let (low, up) = poly.split_in_half();
    assert_eq!(low.len(), 2);
    assert_eq!(up.len(), 2);
    let alpha = BigUint::from(2u32);
    let folded = low.fold(&up, &to_nat(&alpha));
    let n2 = big(&cs_params.n2);
    let e0 = scale(&c2, &alpha, &n2);
    let e1 = scale(&c3, &alpha, &n2);
    assert_eq!(big(&folded.coeffs()[0].c0), (big(&c0.c0) * e0.0) % &n2);
    assert_eq!(big(&folded.coeffs()[0].c1), (big(&c0.c1) * e0.1) % &n2);
    assert_eq!(big(&folded.coeffs()[1].c0), (big(&c1.c0) * e1.0) % &n2);
    assert_eq!(big(&folded.coeffs()[1].c1), (big(&c1.c1) * e1.1) % &n2);
}

#[test]
fn test_pokp_runs_with_recursive_pok_star_p() {
    let cs_params = setup_cs(64).expect("setup cs should succeed");
    let (pk, _sk) = keygen_cs(&cs_params).expect("keygen should succeed");
    let c0 = enc_cs(&cs_params, &pk, &n64(1)).expect("enc c0 should succeed");
    let c1 = enc_cs(&cs_params, &pk, &n64(2)).expect("enc c1 should succeed");
    let n2 = big(&cs_params.n2);
    let y = BigUint::from(5u32);
    let c1_y = scale(&c1, &y, &n2);
    let c_p = CsCiphertext {
        c0: to_nat(&((big(&c0.c0) * &c1_y.0) % &n2)),
        c1: to_nat(&((big(&c0.c1) * &c1_y.1) % &n2)),
    };
    let df_params = df_for(&cs_params);
    let params_ah = setup_cs_commit(40, &cs_params, &df_params).expect("setup cs commit should succeed");
    let r_y = BigUint::from(7u32);
    let dn2 = big(&df_params.n2);
    let cy = (big(&df_params.g).modpow(&y, &dn2) * big(&df_params.h).modpow(&r_y, &dn2)) % &dn2;
    let proof = pokp(&params_ah, &df_params, &to_nat(&r_y), &to_nat(&y), &to_nat(&cy), &[c0, c1], &c_p, 64)
        .expect("PoKP should run to completion");
    match proof.recursive_proof {
        PoKStarProof::Recursive { .. } => {}
        _ => panic!("expected recursive PoK*_P proof for degree-1 polynomial"),
    }
}

#[test]
fn test_reduced_power_chain_is_bounded() {
    let cs_params = setup_cs(128).expect("setup cs should succeed");
    let n = big(&cs_params.n);
    let y = OsRng.gen_biguint_below(&n);
    let chain = CiphertextPolynomial::reduced_power_chain(&to_nat(&y), &cs_params.n, 10).expect("chain should build");
    assert_eq!(chain.len(), 10);
    assert_eq!(big(&chain[0]), &y % &n);
    for (i, s) in chain.iter().enumerate() {
        assert!(big(s) < n, "chain[{i}] escaped Z_n");
        if i > 0 {
            assert_eq!(big(s), (big(&chain[i - 1]) * big(&chain[i - 1])) % &n);
        }
    }
}

#[test]
fn test_folded_evaluation_matches_horner_plaintext() {
    let (cs_params, sk, plain, poly, y) = folded_eval_fixture(128, 8);
    let folded = poly.evaluate_mod_n(&to_nat(&y), &cs_params.n).expect("folded evaluation should succeed");
    let horner = poly.evaluate(&to_nat(&y));
    let n = big(&cs_params.n);
    let mut expected = BigUint::from(0u32);
    let mut ypow = BigUint::from(1u32);
    for m in &plain {
        expected = (expected + m * &ypow) % &n;
        ypow = (&ypow * &y) % &n;
    }
    let d_folded = dec_cs(&cs_params, &sk, &folded).expect("decrypt folded");
    let d_horner = dec_cs(&cs_params, &sk, &horner).expect("decrypt horner");
    assert_eq!(big(&d_folded), expected, "folded evaluation must decrypt to the plaintext sum");
    assert_eq!(big(&d_horner), expected);
    assert!(folded.c0 != horner.c0 || folded.c1 != horner.c1);
}

#[test]
fn test_folded_evaluation_satisfies_level_relation() {
    let (cs_params, _sk, _plain, poly, y) = folded_eval_fixture(128, 8);
    let rounds = CiphertextPolynomial::required_rounds(poly.len());
    let powers = CiphertextPolynomial::reduced_power_chain(&to_nat(&y), &cs_params.n, rounds).expect("chain should build");
    let mut current = poly.clone();
    for k in (0..rounds).rev() {
        let (lower, upper) = current.split_in_half();
        let e3 = upper.evaluate_with_powers(&powers[..k]).expect("e3 should evaluate");
        let e3_scaled = CiphertextPolynomial::homomorphic_scalar_mul(&e3, &powers[k], &cs_params.n2);
        let mut manual = CsCiphertext { c0: Nat::one(), c1: Nat::one() };
        for (j, ct) in upper.coeffs().iter().enumerate() {
            let mut u = big(&powers[k]);
            for (t, p) in powers[..k].iter().enumerate() {
                if (j >> t) & 1 == 1 {
                    u *= big(p);
                }
            }
            let scaled = CiphertextPolynomial::homomorphic_scalar_mul(ct, &to_nat(&u), &cs_params.n2);
            manual = CiphertextPolynomial::homomorphic_add(&manual, &scaled, &cs_params.n2);
        }
        assert_eq!(e3_scaled.c0, manual.c0, "level {k}: e2 = e3 scaled by s_k");
        assert_eq!(e3_scaled.c1, manual.c1, "level {k}: e2 = e3 scaled by s_k");
        current = lower.fold(&upper, &powers[k]);
    }
}

#[test]
fn test_pokp_aux_chain_is_reduced_and_logarithmic() {
    let coeffs = 8usize;
    let (cs_params, _sk, _plain, poly, y) = folded_eval_fixture(128, coeffs);
    let df_params = df_for(&cs_params);
    let params_ah = setup_cs_commit(128, &cs_params, &df_params).expect("cs commit setup");
    let c_p = poly.evaluate_mod_n(&to_nat(&y), &cs_params.n).expect("folded evaluation");
    let r_y = OsRng.gen_biguint(256);
    let dn2 = big(&df_params.n2);
    let cy = (big(&df_params.g).modpow(&y, &dn2) * big(&df_params.h).modpow(&r_y, &dn2)) % &dn2;
    let proof = pokp(&params_ah, &df_params, &to_nat(&r_y), &to_nat(&y), &to_nat(&cy), poly.coeffs(), &c_p, 384)
        .expect("PoKP should run to completion");
    let rounds = coeffs.ilog2() as usize;
    assert_eq!(proof.aux.len(), rounds - 1);
    let dn = big(&df_params.n);
    for (idx, entry) in proof.aux.iter().enumerate() {
        assert_eq!(entry.round, idx + 1);
        let rhs = (big(&entry.cy_2i) * big(&entry.c_k).modpow(&dn, &dn2)) % &dn2;
        assert_eq!(rhs, big(&entry.c_w), "aux[{idx}] breaks the reduction identity");
    }
}

#[test]
fn df_open_public_scalar_accepts_and_rejects() {
    let cs_params = setup_cs(64).expect("setup cs should succeed");
    let df_params = df_for(&cs_params);
    let m = n64(1234);
    let c = commit_df_with_opening(&df_params, &m, &n64(99)).expect("commit should succeed");
    let proof = prove_df_open_public_scalar(&df_params, &c.c, &m, &c.r, 64).expect("prove should succeed");
    assert!(verify_df_open_public_scalar(&df_params, &c.c, &m, &proof).expect("verify should run"));
    assert!(!verify_df_open_public_scalar(&df_params, &c.c, &n64(1235), &proof).expect("verify should run"));
}

#[test]
fn pokp_rejects_non_power_of_two_lengths() {
    let cs_params = setup_cs(64).expect("setup cs should succeed");
    let (pk, _sk) = keygen_cs(&cs_params).expect("keygen should succeed");
    let c = enc_cs(&cs_params, &pk, &n64(1)).expect("enc should succeed");
    let df_params = df_for(&cs_params);
    let params_ah = setup_cs_commit(40, &cs_params, &df_params).expect("setup cs commit should succeed");
    let three = vec![c.clone(), c.clone(), c.clone()];
    let r = pokp(&params_ah, &df_params, &n64(1), &n64(2), &n64(3), &three, &c, 64);
    assert!(matches!(r, Err(CryptoError::InvalidInput(_))));
    let r0 = pokp(&params_ah, &df_params, &n64(1), &n64(2), &n64(3), &[], &c, 64);
    assert!(matches!(r0, Err(CryptoError::InvalidInput(_))));
}

#[test]
fn required_rounds_is_ceil_log2() {
    assert_eq!(CiphertextPolynomial::required_rounds(0), 0);
    assert_eq!(CiphertextPolynomial::required_rounds(1), 0);
    assert_eq!(CiphertextPolynomial::required_rounds(2), 1);
    assert_eq!(CiphertextPolynomial::required_rounds(5), 3);
    assert_eq!(CiphertextPolynomial::required_rounds(8), 3);
}
