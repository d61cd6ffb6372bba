use num_bigint::BigUint;
use ppb::bignum::{Int, Nat};
use ppb::cs::keygen_cs;
use ppb::df::commit_df_with_opening;
use ppb::error::CryptoError;
use ppb::hec::{HecEvalInput, HecFunctionKey};
use ppb::pok::PoKStarProof;
use ppb::ppb::{
    append_usize_as_u64, dec_ppb, escrow_ppb, judge_ppb, keygen_ppb, map_d_to_df_message, map_x_to_df_message,
    map_y_to_df_message, setup_ppb, verify_escrow, verify_pk, verify_poks1, verify_poks2, verify_poks3,
    PpbEscrowOutput, PpbParams, PpbPublicKey, PpbSecretKey,
};

fn big(n: &Nat) -> BigUint {
    BigUint::new(n.to_u32_digits())
}

fn to_nat(b: &BigUint) -> Nat {
    Nat::from_u32_digits(b.to_u32_digits())
}

fn n64(v: u64) -> Nat {
    Nat::from_u64(v)
}

fn plus_one(v: &Nat) -> Nat {
    to_nat(&(big(v) + 1u32))
}

fn plus_one_mod(v: &Nat, m: &Nat) -> Nat {
    to_nat(&((big(v) + 1u32) % big(m)))
}

fn modn(v: &Nat, n: &Nat) -> Nat {
    to_nat(&(big(v) % big(n)))
}

fn params64() -> PpbParams {
    setup_ppb(64, &(), &(), &()).expect("setup ppb should succeed")
}

fn keys(params: &PpbParams, x: &[u64], r_x: u64) -> (PpbPublicKey, PpbSecretKey) {
    let x: Vec<Nat> = x.iter().map(|v| n64(*v)).collect();
    let fk = HecFunctionKey { n: x.len(), k: 1 };
    keygen_ppb(params, &fk, &x, &n64(r_x), &n64(1)).expect("keygen ppb should succeed")
}

fn sample_y() -> HecEvalInput {
    HecEvalInput { y_id: n64(11), y_at: n64(29) }
}

fn valid_poks2_fixture() -> (PpbParams, PpbPublicKey, PpbEscrowOutput) {
    let params = params64();
    let (pk_a, _sk_a) = keys(&params, &[5, 11, 13], 37);
    let out = escrow_ppb(&params, &pk_a, &sample_y(), &n64(41))
        .expect("escrow should run")
        .expect("escrow output should exist");
    (params, pk_a, out)
}

fn full_fixture() -> (PpbParams, PpbPublicKey, PpbSecretKey, PpbEscrowOutput) {
    let params = params64();
    let (pk_a, sk_a) = keys(&params, &[5, 11, 13], 37);
    let out = escrow_ppb(&params, &pk_a, &sample_y(), &n64(41))
        .expect("escrow should run")
        .expect("escrow output should exist");
    (params, pk_a, sk_a, out)
}

#[test]
fn test_setup_ppb_builds_cpar_and_hecpar() {
    let ppb = params64();
    assert_eq!(ppb.lambda_bits, 64);
    assert_eq!(big(&ppb.cpar.n2), big(&ppb.cpar.n) * big(&ppb.cpar.n));
    assert_eq!(ppb.cpar.n, ppb.hecpar.cs_params.n);
    assert_eq!(ppb.cpar.n2, ppb.hecpar.cs_params.n2);
    assert!(big(&ppb.cpar.g) < big(&ppb.cpar.n2));
    assert!(big(&ppb.cpar.h) < big(&ppb.cpar.n2));
    assert_eq!(
        big(&ppb.hecpar.cs_params.n2),
        big(&ppb.hecpar.cs_params.n) * big(&ppb.hecpar.cs_params.n)
    );
}

#[test]
fn test_setup_ppb_rejects_invalid_lambda() {
    let res = setup_ppb(31, &(), &(), &());
    assert!(res.is_err());
}

#[test]
fn test_keygen_ppb_builds_pk_and_sk() {
    let params = params64();
    let x = vec![n64(5), n64(11), n64(13)];
    let fk = HecFunctionKey { n: x.len(), k: 1 };
    let (pk_a, sk_a) = keygen_ppb(&params, &fk, &x, &n64(37), &n64(1)).expect("keygen ppb should succeed");
    assert_eq!(pk_a.x_public.encrypted_coeffs.len(), x.len() + 1);
    assert_eq!(pk_a.x_public.polynomial.len(), x.len() + 1);
    assert_eq!(pk_a.fk, fk);
    assert_eq!(sk_a.d.fk, fk);
    assert_eq!(sk_a.d.x, x);
    assert_eq!(sk_a.pk_a.c_x, pk_a.c_x);
    assert_eq!(sk_a.pk_a.c_d, pk_a.c_d);
    let ok = verify_poks1(&params, &pk_a, &pk_a.c_x).expect("verify poks1 should run");
    assert!(ok);
}

#[test]
fn test_keygen_ppb_poks1_rejects_tampered_proof() {
    let params = params64();
    let (mut pk_a, _sk_a) = keys(&params, &[5, 11, 13], 37);
    pk_a.pi_a.final_proof.z_x = plus_one(&pk_a.pi_a.final_proof.z_x);
    let ok = verify_poks1(&params, &pk_a, &pk_a.c_x).expect("verify poks1 should run");
    assert!(!ok);
}

#[test]
fn test_keygen_ppb_commitments_match_processed_messages() {
    let params = params64();
    let (pk_a, sk_a) = keys(&params, &[3, 8], 19);
    let poks1_ok = verify_poks1(&params, &pk_a, &pk_a.c_x).expect("verify poks1 should run");
    let m_d = map_d_to_df_message(&sk_a.d, &params.cpar.n).expect("map d should succeed");
    let c_d_expected = commit_df_with_opening(&params.cpar, &m_d, &sk_a.r_d).expect("commit d should succeed");
    assert!(poks1_ok);
    assert_eq!(pk_a.c_d, c_d_expected.c);
}

#[test]
fn test_keygen_ppb_rejects_fk_length_mismatch() {
    let params = params64();
    let x = vec![n64(3), n64(8)];
    let fk = HecFunctionKey { n: 3, k: 1 };
    let err = keygen_ppb(&params, &fk, &x, &n64(17), &n64(1)).expect_err("mismatched length should be rejected");
    assert_eq!(err, CryptoError::InvalidInput("fk.n must equal x.len()"));
}

#[test]
fn test_escrow_ppb_returns_output_and_cy() {
    let params = params64();
    let (pk_a, _sk_a) = keys(&params, &[5, 11, 13], 37);
    let y = HecEvalInput { y_id: n64(11), y_at: n64(29) };
    let r_y = n64(41);
    let out = escrow_ppb(&params, &pk_a, &y, &r_y).expect("escrow should run").expect("verpk should pass");
    let m_y = map_y_to_df_message(&y, &params.cpar.n).expect("map y should succeed");
    let r_y_mod = modn(&r_y, &params.cpar.n);
    let c_y_expected = commit_df_with_opening(&params.cpar, &m_y, &r_y_mod).expect("commit y should succeed");
    assert_eq!(out.c_y, c_y_expected.c);
    assert!(out.pi_u.pi_y.relation_holds);
    assert_eq!(out.pi_u.pi_y.c_y_from_cid_cat, out.c_y);
}

#[test]
fn test_escrow_ppb_returns_none_when_verpk_fails() {
    let params = params64();
    let (mut pk_a, _sk_a) = keys(&params, &[3, 8], 19);
    pk_a.c_x = params.cpar.n2.clone();
    let y = HecEvalInput { y_id: n64(8), y_at: n64(21) };
    let out = escrow_ppb(&params, &pk_a, &y, &n64(23)).expect("escrow should run");
    assert!(out.is_none());
}

#[test]
fn test_escrow_ppb_returns_none_when_fk_mismatch_with_x() {
    let params = params64();
    let (mut pk_a, _sk_a) = keys(&params, &[5, 11, 13], 31);
    pk_a.fk.n = 0;
    let y = HecEvalInput { y_id: n64(5), y_at: n64(21) };
    let out = escrow_ppb(&params, &pk_a, &y, &n64(47)).expect("escrow should run");
    assert!(out.is_none());
}

#[test]
fn test_verify_poks2_accepts_valid_proof() {
    let (params, pk_a, out) = valid_poks2_fixture();
    let ok = verify_poks2(&params, &pk_a, &out.c_y, &out).expect("verify should run");
    assert!(ok);
}

#[test]
fn test_verify_poks2_rejects_tampered_statement_commitment() {
    let (params, pk_a, mut out) = valid_poks2_fixture();
    out.pi_u.pi_id.c_mul.c1 = plus_one_mod(&out.pi_u.pi_id.c_mul.c1, &params.cpar.n2);
    let ok = verify_poks2(&params, &pk_a, &out.c_y, &out).expect("verify should run");
    assert!(!ok);
}

#[test]
fn test_verify_poks2_rejects_tampered_pi_sky() {
    let (params, pk_a, mut out) = valid_poks2_fixture();
    out.pi_u.pi_sky.z_y = out.pi_u.pi_sky.z_y.add(&Int::from_i64(1));
    let ok = verify_poks2(&params, &pk_a, &out.c_y, &out).expect("verify should run");
    assert!(!ok);
}

#[test]
fn test_verify_poks2_rejects_prover_supplied_sky_pk() {
    let (params, pk_a, mut out) = valid_poks2_fixture();
    let (other_pk, _other_sk) = keygen_cs(&params.hecpar.cs_params).expect("keygen should succeed");
    assert_ne!(other_pk, params.sky_pk);
    out.pi_u.pk_sky = other_pk;
    let ok = verify_poks2(&params, &pk_a, &out.c_y, &out).expect("verify should run");
    assert!(!ok);
}

#[test]
fn test_verify_poks2_rejects_tampered_pi_nf() {
    let (params, pk_a, mut out) = valid_poks2_fixture();
    out.pi_u.pi_nf.z1 = out.pi_u.pi_nf.z1.add(&Int::from_i64(1));
    let ok = verify_poks2(&params, &pk_a, &out.c_y, &out).expect("verify should run");
    assert!(!ok);
}

#[test]
fn test_verify_poks2_rejects_tampered_pi_poly_anchor() {
    let (params, pk_a, mut out) = valid_poks2_fixture();
    out.pi_u.pi_poly.c_p_commitment.c1 = plus_one_mod(&out.pi_u.pi_poly.c_p_commitment.c1, &params.cpar.n2);
    let ok = verify_poks2(&params, &pk_a, &out.c_y, &out).expect("verify should run");
    assert!(!ok);
}

#[test]
fn test_verify_poks2_rejects_tampered_pi_poly_cy_alpha() {
    let (params, pk_a, mut out) = valid_poks2_fixture();
    match &mut out.pi_u.pi_poly.recursive_proof {
        PoKStarProof::Recursive { round, .. } => {
            round.cy_alpha = plus_one_mod(&round.cy_alpha, &params.cpar.n2);
        }
        PoKStarProof::Base { .. } => panic!("fixture should produce a recursive PoK* proof"),
    }
    let ok = verify_poks2(&params, &pk_a, &out.c_y, &out).expect("verify should run");
    assert!(!ok);
}

#[test]
fn test_verify_poks2_rejects_tampered_pi_poly_cy_alpha_opening() {
    let (params, pk_a, mut out) = valid_poks2_fixture();
    match &mut out.pi_u.pi_poly.recursive_proof {
        PoKStarProof::Recursive { round, .. } => {
            round.pi_cy_alpha.z_r = plus_one(&round.pi_cy_alpha.z_r);
        }
        PoKStarProof::Base { .. } => panic!("fixture should produce a recursive PoK* proof"),
    }
    let ok = verify_poks2(&params, &pk_a, &out.c_y, &out).expect("verify should run");
    assert!(!ok);
}

#[test]
fn test_verify_escrow_accepts_valid_output() {
    let (params, pk_a, out) = valid_poks2_fixture();
    let ok = verify_escrow(&params, &pk_a, &out.c_y, &out).expect("verify escrow should run");
    assert!(ok);
}

#[test]
fn test_verify_escrow_rejects_when_verpk_fails() {
    let (params, mut pk_a, out) = valid_poks2_fixture();
    pk_a.c_x = params.cpar.n2.clone();
    let ok = verify_escrow(&params, &pk_a, &out.c_y, &out).expect("verify escrow should run");
    assert!(!ok);
}

#[test]
fn test_verify_escrow_rejects_when_vs2_fails() {
    let (params, pk_a, mut out) = valid_poks2_fixture();
    out.pi_u.pi_id.c_mul.c1 = plus_one_mod(&out.pi_u.pi_id.c_mul.c1, &params.cpar.n2);
    let ok = verify_escrow(&params, &pk_a, &out.c_y, &out).expect("verify escrow should run");
    assert!(!ok);
}

#[test]
fn test_dec_ppb_returns_output_and_valid_poks3() {
    let (params, pk_a, sk_a, out) = full_fixture();
    let y = sample_y();
    let dec_out = dec_ppb(&params, &sk_a, &out.c_y, &out).expect("dec should run").expect("ver escrow should pass");
    let z = dec_out.z.expect("hec dec should output identity in this case");
    assert_eq!(z.y_id, modn(&y.y_id, &params.cpar.n));
    assert_eq!(z.y_at, modn(&y.y_at, &params.cpar.n));
    let ok = verify_poks3(&params, &pk_a.x_public.pk_ah, &pk_a.c_d, &out.z_hat, &z, &dec_out.pi_z)
        .expect("verify poks3 should run");
    assert!(ok);
}

#[test]
fn test_dec_ppb_returns_none_when_verescrow_fails() {
    let (params, _pk_a, sk_a, mut out) = full_fixture();
    out.c_y = plus_one_mod(&out.c_y, &params.cpar.n2);
    let dec_out = dec_ppb(&params, &sk_a, &out.c_y, &out).expect("dec should run");
    assert!(dec_out.is_none());
}

#[test]
fn test_verify_poks3_rejects_tampered_proof() {
    let (params, pk_a, sk_a, out) = full_fixture();
    let mut dec_out =
        dec_ppb(&params, &sk_a, &out.c_y, &out).expect("dec should run").expect("ver escrow should pass");
    dec_out.pi_z.z_md = dec_out.pi_z.z_md.add(&Int::from_i64(1));
    let z = dec_out.z.as_ref().expect("hec dec should output identity in this case");
    let ok = verify_poks3(&params, &pk_a.x_public.pk_ah, &pk_a.c_d, &out.z_hat, z, &dec_out.pi_z)
        .expect("verify poks3 should run");
    assert!(!ok);
}

#[test]
fn test_judge_ppb_accepts_valid_tuple() {
    let (params, pk_a, sk_a, out) = full_fixture();
    let dec_out =
        dec_ppb(&params, &sk_a, &out.c_y, &out).expect("dec should run").expect("ver escrow should pass");
    let ok = judge_ppb(&params, &pk_a, &pk_a.c_x, &out.c_y, &out, &dec_out.z, &dec_out.pi_z).expect("judge should run");
    assert!(ok);
}

#[test]
fn test_judge_ppb_rejects_when_pi_z_is_tampered() {
    let (params, pk_a, sk_a, out) = full_fixture();
    let mut dec_out =
        dec_ppb(&params, &sk_a, &out.c_y, &out).expect("dec should run").expect("ver escrow should pass");
    dec_out.pi_z.z_md = dec_out.pi_z.z_md.add(&Int::from_i64(1));
    let ok = judge_ppb(&params, &pk_a, &pk_a.c_x, &out.c_y, &out, &dec_out.z, &dec_out.pi_z).expect("judge should run");
    assert!(!ok);
}

#[test]
fn test_judge_ppb_rejects_when_cx_or_cy_mismatch() {
    let (params, pk_a, sk_a, out) = full_fixture();
    let dec_out =
        dec_ppb(&params, &sk_a, &out.c_y, &out).expect("dec should run").expect("ver escrow should pass");
    let wrong_cx = plus_one_mod(&pk_a.c_x, &params.cpar.n2);
    let ok_cx = judge_ppb(&params, &pk_a, &wrong_cx, &out.c_y, &out, &dec_out.z, &dec_out.pi_z).expect("judge should run");
    assert!(!ok_cx);
    let wrong_cy = plus_one_mod(&out.c_y, &params.cpar.n2);
    let ok_cy = judge_ppb(&params, &pk_a, &pk_a.c_x, &wrong_cy, &out, &dec_out.z, &dec_out.pi_z).expect("judge should run");
    assert!(!ok_cy);
}

#[test]
fn verify_pk_accepts_fresh_key_and_rejects_tampering() {
    let params = params64();
    let (pk_a, _sk_a) = keys(&params, &[2, 9], 5);
    assert!(verify_pk(&params, &pk_a, &pk_a.c_x));
    assert!(!verify_pk(&params, &pk_a, &plus_one_mod(&pk_a.c_x, &params.cpar.n2)));
}

#[test]
fn judge_rejects_missing_identity() {
    let (params, pk_a, sk_a, out) = full_fixture();
    let dec_out =
        dec_ppb(&params, &sk_a, &out.c_y, &out).expect("dec should run").expect("ver escrow should pass");
    let ok = judge_ppb(&params, &pk_a, &pk_a.c_x, &out.c_y, &out, &None, &dec_out.pi_z).expect("judge should run");
    assert!(!ok);
}

#[test]
fn escrow_outside_list_decrypts_to_nothing() {
    let params = params64();
    let (pk_a, sk_a) = keys(&params, &[5, 11, 13], 37);
    let y = HecEvalInput { y_id: n64(12), y_at: n64(29) };
    let out = escrow_ppb(&params, &pk_a, &y, &n64(41)).expect("escrow should run").expect("escrow output");
    assert!(verify_escrow(&params, &pk_a, &out.c_y, &out).expect("verify escrow should run"));
    let dec_out = dec_ppb(&params, &sk_a, &out.c_y, &out).expect("dec should run");
    assert!(dec_out.is_none());
}

#[test]
fn append_usize_writes_big_endian_u64() {
    let mut bytes = vec![9u8];
    append_usize_as_u64(&mut bytes, 0x0102_0304);
    assert_eq!(bytes, vec![9, 0, 0, 0, 0, 1, 2, 3, 4]);
}

#[test]
fn map_x_message_rejects_zero_modulus() {
    let x = vec![n64(1), n64(2)];
    assert!(map_x_to_df_message(&x, &Nat::zero()).is_err());
    let params = params64();
    let m1 = map_x_to_df_message(&x, &params.cpar.n).expect("map x should succeed");
    let m2 = map_x_to_df_message(&x, &params.cpar.n).expect("map x should succeed");
    assert_eq!(m1, m2);
    assert!(big(&m1) < big(&params.cpar.n));
}
