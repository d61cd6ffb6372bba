use num_bigint::{BigInt, BigUint, Sign};
use ppb::bignum::{Int, Nat};
use ppb::cs::{enc_cs, keygen_cs, setup_cs, CsCiphertext, CsParams};
use ppb::cs_commit::{
    commit_cs, mul_three_signs, prove_cs_add, prove_cs_com, prove_cs_com_ciphertext, prove_cs_enc, prove_cs_mult,
    setup_cs_commit, verify_cs_add, verify_cs_com, verify_cs_com_ciphertext, verify_cs_enc, verify_cs_mult,
    CsCommitOpening, CsCommitParams, CsCommitment,
};
use ppb::df::{setup_df, DfParams};
use ppb::error::CryptoError;
use ppb::hash::fiat_shamir_challenge_biguints;
use ppb::math::{modinv, sample_unit_mod_n2};

fn big(n: &Nat) -> BigUint {
    BigUint::new(n.to_u32_digits())
}

fn to_nat(b: &BigUint) -> Nat {
    Nat::from_u32_digits(b.to_u32_digits())
}

fn to_int(b: &BigInt) -> Int {
    let m = Int::from_nat(&to_nat(b.magnitude()));
    if b.sign() == Sign::Minus {
        m.negate()
    } else {
        m
    }
}

fn bigint(i: &Int) -> BigInt {
    let m = BigInt::from(big(&i.magnitude()));
    if i.is_nonneg() {
        m
    } else {
        -m
    }
}

fn apply_sign(x: &BigUint, sign: i8, n2: &BigUint) -> BigUint {
    if sign == 1 {
        x % n2
    } else if x == &BigUint::from(0u32) {
        BigUint::from(0u32)
    } else {
        (n2 - (x % n2)) % n2
    }
}

fn modpow_signed(base: &BigUint, exp: &BigInt, m: &BigUint) -> BigUint {
    if exp.sign() != Sign::Minus {
        base.modpow(exp.magnitude(), m)
    } else {
        let inv = modinv(&to_nat(base), &to_nat(m)).expect("inverse should exist");
        big(&inv).modpow(exp.magnitude(), m)
    }
}

fn df_for(cs_params: &CsParams) -> DfParams {
    DfParams {
        n: cs_params.n.copy(),
        n2: cs_params.n2.copy(),
        g: sample_unit_mod_n2(&cs_params.n2),
        h: sample_unit_mod_n2(&cs_params.n2),
    }
}

fn commit_params(cs_params: &CsParams) -> (DfParams, CsCommitParams) {
    let df_params = df_for(cs_params);
    let params = setup_cs_commit(40, cs_params, &df_params).expect("setup cs commit should succeed");
    (df_params, params)
}

fn manual_commit(params: &CsCommitParams, c: &CsCiphertext, o: &CsCommitOpening) -> CsCommitment {
    let n2 = big(&params.n2);
    let g = big(&params.g);
    let gp = big(&params.g_prime);
    let hp = big(&params.h_prime);
    let (s1, s2, r1, r2) = (big(&o.s1), big(&o.s2), big(&o.r1), big(&o.r2));
    let c1u = (big(&c.c0) * g.modpow(&s1, &n2)) % &n2;
    let c2u = (gp.modpow(&s1, &n2) * hp.modpow(&r1, &n2)) % &n2;
    let c3u = (big(&c.c1) * g.modpow(&s2, &n2)) % &n2;
    let c4u = (gp.modpow(&s2, &n2) * hp.modpow(&r2, &n2)) % &n2;
    CsCommitment {
        c1: to_nat(&apply_sign(&c1u, o.a1, &n2)),
        c2: to_nat(&apply_sign(&c2u, o.b1, &n2)),
        c3: to_nat(&apply_sign(&c3u, o.a2, &n2)),
        c4: to_nat(&apply_sign(&c4u, o.b2, &n2)),
    }
}

fn plus_one(v: &Nat) -> Nat {
    to_nat(&(big(v) + 1u32))
}

fn sum_plus(a: &Nat, b: &Nat, g: &BigInt) -> Nat {
    let v = BigInt::from(big(a)) + BigInt::from(big(b)) + g;
    to_nat(&v.to_biguint().expect("non-negative"))
}

fn times_plus(y: &BigInt, b: &Nat, g: &BigInt) -> Nat {
    let v = y * BigInt::from(big(b)) + g;
    to_nat(&v.to_biguint().expect("non-negative"))
}

#[test]
fn test_setup_cs_commit_params_consistency() {
    let cs_params = setup_cs(64).expect("setup cs should succeed");
    let df_params = df_for(&cs_params);
    let params = setup_cs_commit(40, &cs_params, &df_params).expect("setup cs commit should succeed");
    assert_eq!(params.n, cs_params.n);
    assert_eq!(params.n2, cs_params.n2);
    assert_eq!(params.g_star, cs_params.g);
    assert_eq!(params.h_star, cs_params.h);
    assert_eq!(params.g_prime, df_params.g);
    assert_eq!(params.h_prime, df_params.h);
}

#[test]
fn test_setup_cs_commit_reject_mismatched_modulus() {
    let cs_params = setup_cs(64).expect("setup cs should succeed");
    let df_params = setup_df(64).expect("setup df should succeed");
    let result = setup_cs_commit(40, &cs_params, &df_params);
    if cs_params.n2 != df_params.n2 {
        assert!(result.is_err());
    }
}

#[test]
fn test_commit_cs_formula_manual_check() {
    let cs_params = setup_cs(64).expect("setup cs should succeed");
    let (pk, _sk) = keygen_cs(&cs_params).expect("keygen should succeed");
    let ct = enc_cs(&cs_params, &pk, &Nat::from_u64(7)).expect("enc should succeed");
    let (_df, params) = commit_params(&cs_params);
    let opening = CsCommitOpening {
        a1: 1,
        a2: -1,
        s1: Nat::from_u64(10),
        s2: Nat::from_u64(11),
        r1: Nat::from_u64(12),
        r2: Nat::from_u64(13),
        b1: -1,
        b2: 1,
    };
    let manual = manual_commit(&params, &ct, &opening);
    let manual_again = manual_commit(&params, &ct, &opening);
    assert_eq!(manual.c1, manual_again.c1);
    assert_eq!(manual.c2, manual_again.c2);
    assert_eq!(manual.c3, manual_again.c3);
    assert_eq!(manual.c4, manual_again.c4);
}

#[test]
fn test_prove_cs_com_generate_valid_responses() {
    let cs_params = setup_cs(64).expect("setup cs should succeed");
    let (_df, params) = commit_params(&cs_params);
    let (pk, _sk) = keygen_cs(&cs_params).expect("keygen should succeed");
    let ct = enc_cs(&cs_params, &pk, &Nat::from_u64(9)).expect("enc should succeed");
    let committed = commit_cs(&params, &ct, 96).expect("commit cs should succeed");
    let proof = prove_cs_com(&params, &committed.commitment, &committed.opening).expect("prove cs com should succeed");

    let e = big(&fiat_shamir_challenge_biguints(&[
        &params.n,
        &params.g_prime,
        &params.h_prime,
        &committed.commitment.c2,
        &committed.commitment.c4,
        &proof.r2,
        &proof.r4,
    ]));
    let n2 = big(&params.n2);
    let gp = big(&params.g_prime);
    let hp = big(&params.h_prime);
    let c2_unsigned = apply_sign(&big(&committed.commitment.c2), committed.opening.b1, &n2);
    let c4_unsigned = apply_sign(&big(&committed.commitment.c4), committed.opening.b2, &n2);

    let lhs2 = (gp.modpow(&big(&proof.z_s1), &n2) * hp.modpow(&big(&proof.z_r1), &n2)) % &n2;
    let rhs2 = (big(&proof.r2) * c2_unsigned.modpow(&e, &n2)) % &n2;
    assert_eq!(lhs2, rhs2);

    let lhs4 = (gp.modpow(&big(&proof.z_s2), &n2) * hp.modpow(&big(&proof.z_r2), &n2)) % &n2;
    let rhs4 = (big(&proof.r4) * c4_unsigned.modpow(&e, &n2)) % &n2;
    assert_eq!(lhs4, rhs4);
}

#[test]
fn test_verify_cs_com_accept_valid_proof() {
    let cs_params = setup_cs(64).expect("setup cs should succeed");
    let (_df, params) = commit_params(&cs_params);
    let (pk, _sk) = keygen_cs(&cs_params).expect("keygen should succeed");
    let ct = enc_cs(&cs_params, &pk, &Nat::from_u64(11)).expect("enc should succeed");
    let committed = commit_cs(&params, &ct, 96).expect("commit cs should succeed");
    let proof = prove_cs_com(&params, &committed.commitment, &committed.opening).expect("prove cs com should succeed");
    let ok = verify_cs_com(&params, &committed.commitment, &proof).expect("verify should run");
    assert!(ok);
}

#[test]
fn test_verify_cs_com_ciphertext_accepts_and_rejects_wrong_public_value() {
    let cs_params = setup_cs(64).expect("setup cs should succeed");
    let (_df, params) = commit_params(&cs_params);
    let (pk, _sk) = keygen_cs(&cs_params).expect("keygen should succeed");
    let x0 = enc_cs(&cs_params, &pk, &Nat::from_u64(11)).expect("enc x0 should succeed");
    let committed = commit_cs(&params, &x0, 96).expect("commit cs should succeed");
    let proof = prove_cs_com_ciphertext(&params, &committed.commitment, &x0, &committed.opening)
        .expect("prove cs com ciphertext should succeed");
    let ok = verify_cs_com_ciphertext(&params, &committed.commitment, &x0, &proof).expect("verify should run");
    assert!(ok);
    let x0_prime = enc_cs(&cs_params, &pk, &Nat::from_u64(12)).expect("enc x0' should succeed");
    assert_ne!(x0.c0, x0_prime.c0);
    let rejected = verify_cs_com_ciphertext(&params, &committed.commitment, &x0_prime, &proof).expect("verify should run");
    assert!(!rejected);
}

#[test]
fn test_verify_cs_com_reject_tampered_proof() {
    let cs_params = setup_cs(64).expect("setup cs should succeed");
    let (_df, params) = commit_params(&cs_params);
    let (pk, _sk) = keygen_cs(&cs_params).expect("keygen should succeed");
    let ct = enc_cs(&cs_params, &pk, &Nat::from_u64(13)).expect("enc should succeed");
    let committed = commit_cs(&params, &ct, 96).expect("commit cs should succeed");
    let mut proof =
        prove_cs_com(&params, &committed.commitment, &committed.opening).expect("prove cs com should succeed");
    proof.z_s1 = plus_one(&proof.z_s1);
    let ok = verify_cs_com(&params, &committed.commitment, &proof).expect("verify should run");
    assert!(!ok);
}

struct AddFixture {
    params: CsCommitParams,
    ca: CsCommitment,
    cb: CsCommitment,
    cc: CsCommitment,
    oa: CsCommitOpening,
    ob: CsCommitOpening,
    oc: CsCommitOpening,
}

fn add_fixture(ma: u64, mb: u64, gammas: [i64; 4], betas: [i8; 4]) -> AddFixture {
    let cs_params = setup_cs(64).expect("setup cs should succeed");
    let (_df, params) = commit_params(&cs_params);
    let (pk, _sk) = keygen_cs(&cs_params).expect("keygen should succeed");
    let cta = enc_cs(&cs_params, &pk, &Nat::from_u64(ma)).expect("enc a should succeed");
    let ctb = enc_cs(&cs_params, &pk, &Nat::from_u64(mb)).expect("enc b should succeed");
    let wa = commit_cs(&params, &cta, 96).expect("commit a should succeed");
    let wb = commit_cs(&params, &ctb, 96).expect("commit b should succeed");
    let [gamma1, gamma2, gamma3, gamma4] = gammas.map(BigInt::from);
    let [beta1, beta2, beta3, beta4] = betas;
    let oc = CsCommitOpening {
        a1: mul_three_signs(beta1, wa.opening.a1, wb.opening.a1).expect("valid signs"),
        a2: mul_three_signs(beta3, wa.opening.a2, wb.opening.a2).expect("valid signs"),
        s1: sum_plus(&wa.opening.s1, &wb.opening.s1, &gamma1),
        s2: sum_plus(&wa.opening.s2, &wb.opening.s2, &gamma3),
        r1: sum_plus(&wa.opening.r1, &wb.opening.r1, &gamma2),
        r2: sum_plus(&wa.opening.r2, &wb.opening.r2, &gamma4),
        b1: mul_three_signs(beta2, wa.opening.b1, wb.opening.b1).expect("valid signs"),
        b2: mul_three_signs(beta4, wa.opening.b2, wb.opening.b2).expect("valid signs"),
    };
    let n2 = big(&params.n2);
    let g = big(&params.g);
    let gp = big(&params.g_prime);
    let hp = big(&params.h_prime);
    let one = BigUint::from(1u32);
    let d1 = (apply_sign(&one, beta1, &n2) * modpow_signed(&g, &gamma1, &n2)) % &n2;
    let d2 = (apply_sign(&one, beta2, &n2) * modpow_signed(&gp, &gamma1, &n2) * modpow_signed(&hp, &gamma2, &n2)) % &n2;
    let d3 = (apply_sign(&one, beta3, &n2) * modpow_signed(&g, &gamma3, &n2)) % &n2;
    let d4 = (apply_sign(&one, beta4, &n2) * modpow_signed(&gp, &gamma3, &n2) * modpow_signed(&hp, &gamma4, &n2)) % &n2;
    let cc = CsCommitment {
        c1: to_nat(&((&d1 * big(&wa.commitment.c1) * big(&wb.commitment.c1)) % &n2)),
        c2: to_nat(&((&d2 * big(&wa.commitment.c2) * big(&wb.commitment.c2)) % &n2)),
        c3: to_nat(&((&d3 * big(&wa.commitment.c3) * big(&wb.commitment.c3)) % &n2)),
        c4: to_nat(&((&d4 * big(&wa.commitment.c4) * big(&wb.commitment.c4)) % &n2)),
    };
    AddFixture { params, ca: wa.commitment, cb: wb.commitment, cc, oa: wa.opening, ob: wb.opening, oc }
}

#[test]
fn test_prove_and_verify_cs_add_accept() {
    let f = add_fixture(3, 5, [5, 7, 11, 13], [-1, 1, -1, 1]);
    let proof = prove_cs_add(&f.params, &f.ca, &f.cb, &f.cc, &f.oa, &f.ob, &f.oc).expect("prove add should succeed");
    let ok = verify_cs_add(&f.params, &f.ca, &f.cb, &f.cc, &proof).expect("verify add should run");
    assert!(ok);
}

#[test]
fn test_verify_cs_add_reject_tampered_proof() {
    let f = add_fixture(2, 4, [3, 5, 7, 9], [1, -1, 1, -1]);
    let mut proof = prove_cs_add(&f.params, &f.ca, &f.cb, &f.cc, &f.oa, &f.ob, &f.oc).expect("prove add should succeed");
    proof.e = plus_one(&proof.e);
    let ok = verify_cs_add(&f.params, &f.ca, &f.cb, &f.cc, &proof).expect("verify add should run");
    assert!(!ok);
}

struct MultFixture {
    params: CsCommitParams,
    ca: CsCommitment,
    cb: CsCommitment,
    cy: Nat,
    oa: CsCommitOpening,
    ob: CsCommitOpening,
    y: BigInt,
    r_y: BigInt,
    b_y: i8,
    b: [i8; 4],
}

fn mult_fixture(mb: u64, y: i64, r_y: i64, b_y: i8, b: [i8; 4], gammas: [i64; 4]) -> MultFixture {
    let cs_params = setup_cs(64).expect("setup cs should succeed");
    let (_df, params) = commit_params(&cs_params);
    let (pk, _sk) = keygen_cs(&cs_params).expect("keygen should succeed");
    let ctb = enc_cs(&cs_params, &pk, &Nat::from_u64(mb)).expect("enc b should succeed");
    let wb = commit_cs(&params, &ctb, 96).expect("commit b should succeed");
    let y = BigInt::from(y);
    let r_y = BigInt::from(r_y);
    let [gamma1, gamma2, gamma3, gamma4] = gammas.map(BigInt::from);
    let oa = CsCommitOpening {
        a1: mul_three_signs(b[0], wb.opening.a1, 1).expect("valid signs"),
        a2: mul_three_signs(b[2], wb.opening.a2, 1).expect("valid signs"),
        s1: times_plus(&y, &wb.opening.s1, &gamma1),
        s2: times_plus(&y, &wb.opening.s2, &gamma3),
        r1: times_plus(&y, &wb.opening.r1, &gamma2),
        r2: times_plus(&y, &wb.opening.r2, &gamma4),
        b1: mul_three_signs(b[1], wb.opening.b1, 1).expect("valid signs"),
        b2: mul_three_signs(b[3], wb.opening.b2, 1).expect("valid signs"),
    };
    let n2 = big(&params.n2);
    let g = big(&params.g);
    let gp = big(&params.g_prime);
    let hp = big(&params.h_prime);
    let cy = apply_sign(&((modpow_signed(&gp, &y, &n2) * modpow_signed(&hp, &r_y, &n2)) % &n2), b_y, &n2);
    let ca = CsCommitment {
        c1: to_nat(&apply_sign(
            &((modpow_signed(&big(&wb.commitment.c1), &y, &n2) * modpow_signed(&g, &gamma1, &n2)) % &n2),
            b[0],
            &n2,
        )),
        c2: to_nat(&apply_sign(
            &((modpow_signed(&big(&wb.commitment.c2), &y, &n2) * modpow_signed(&gp, &gamma1, &n2)
                * modpow_signed(&hp, &gamma2, &n2))
                % &n2),
            b[1],
            &n2,
        )),
        c3: to_nat(&apply_sign(
            &((modpow_signed(&big(&wb.commitment.c3), &y, &n2) * modpow_signed(&g, &gamma3, &n2)) % &n2),
            b[2],
            &n2,
        )),
        c4: to_nat(&apply_sign(
            &((modpow_signed(&big(&wb.commitment.c4), &y, &n2) * modpow_signed(&gp, &gamma3, &n2)
                * modpow_signed(&hp, &gamma4, &n2))
                % &n2),
            b[3],
            &n2,
        )),
    };
    MultFixture { params, ca, cb: wb.commitment, cy: to_nat(&cy), oa, ob: wb.opening, y, r_y, b_y, b }
}

#[test]
fn test_prove_and_verify_cs_mult_accept() {
    let f = mult_fixture(6, 3, 17, -1, [1, -1, 1, -1], [5, 7, 11, 13]);
    let proof = prove_cs_mult(&f.params, &f.ca, &f.cb, &f.cy, &f.oa, &f.ob, &to_int(&f.y), &to_int(&f.r_y), f.b_y, f.b)
        .expect("prove mult should succeed");
    let ok = verify_cs_mult(&f.params, &f.ca, &f.cb, &f.cy, &proof).expect("verify mult should run");
    assert!(ok);
}

#[test]
fn test_verify_cs_mult_reject_tampered_proof() {
    let f = mult_fixture(8, 3, 19, 1, [-1, 1, -1, 1], [3, 5, 7, 9]);
    let mut proof = prove_cs_mult(&f.params, &f.ca, &f.cb, &f.cy, &f.oa, &f.ob, &to_int(&f.y), &to_int(&f.r_y), f.b_y, f.b)
        .expect("prove mult should succeed");
    proof.z1 = to_int(&(bigint(&proof.z1) + 1));
    let ok = verify_cs_mult(&f.params, &f.ca, &f.cb, &f.cy, &proof).expect("verify mult should run");
    assert!(!ok);
}

struct EncFixture {
    params: CsCommitParams,
    k: Nat,
    ca: CsCommitment,
    cy: Nat,
    oa: CsCommitOpening,
}

fn enc_fixture(y: &BigInt, r_y: &BigInt, r_a: &BigInt, b_y: i8, b: [i8; 4], s: [u64; 4]) -> EncFixture {
    let cs_params = setup_cs(64).expect("setup cs should succeed");
    let (_df, params) = commit_params(&cs_params);
    let (pk, _sk) = keygen_cs(&cs_params).expect("keygen should succeed");
    let oa = CsCommitOpening {
        a1: b[0],
        a2: b[2],
        s1: Nat::from_u64(s[0]),
        s2: Nat::from_u64(s[1]),
        r1: Nat::from_u64(s[2]),
        r2: Nat::from_u64(s[3]),
        b1: b[1],
        b2: b[3],
    };
    let n2 = big(&params.n2);
    let gp = big(&params.g_prime);
    let hp = big(&params.h_prime);
    let gs = big(&params.g_star);
    let hs = big(&params.h_star);
    let k = big(&pk.k);
    let (s1, s2, r1, r2) = (big(&oa.s1), big(&oa.s2), big(&oa.r1), big(&oa.r2));
    let cy = apply_sign(&((modpow_signed(&gp, y, &n2) * modpow_signed(&hp, r_y, &n2)) % &n2), b_y, &n2);
    let ca = CsCommitment {
        c1: to_nat(&apply_sign(&((modpow_signed(&gs, r_a, &n2) * gp.modpow(&s1, &n2)) % &n2), b[0], &n2)),
        c2: to_nat(&apply_sign(&((gp.modpow(&s1, &n2) * hp.modpow(&r1, &n2)) % &n2), b[1], &n2)),
        c3: to_nat(&apply_sign(
            &((modpow_signed(&k, r_a, &n2) * modpow_signed(&hs, y, &n2) * gp.modpow(&s2, &n2)) % &n2),
            b[2],
            &n2,
        )),
        c4: to_nat(&apply_sign(&((gp.modpow(&s2, &n2) * hp.modpow(&r2, &n2)) % &n2), b[3], &n2)),
    };
    EncFixture { params, k: pk.k, ca, cy: to_nat(&cy), oa }
}

#[test]
fn test_prove_and_verify_cs_enc_accept() {
    let (y, r_y, r_a) = (BigInt::from(5), BigInt::from(7), BigInt::from(11));
    let (b_y, b) = (-1i8, [1i8, -1, 1, -1]);
    let f = enc_fixture(&y, &r_y, &r_a, b_y, b, [13, 17, 19, 23]);
    let proof = prove_cs_enc(&f.params, &f.k, &f.ca, &f.cy, &f.oa, &to_int(&y), &to_int(&r_y), &to_int(&r_a), b_y, b)
        .expect("prove enc should succeed");
    let ok = verify_cs_enc(&f.params, &f.k, &f.ca, &f.cy, &proof).expect("verify enc should run");
    assert!(ok);
}

#[test]
fn test_verify_cs_enc_reject_tampered_proof() {
    let (y, r_y, r_a) = (BigInt::from(3), BigInt::from(5), BigInt::from(7));
    let (b_y, b) = (1i8, [-1i8, 1, -1, 1]);
    let f = enc_fixture(&y, &r_y, &r_a, b_y, b, [29, 31, 37, 41]);
    let mut proof = prove_cs_enc(&f.params, &f.k, &f.ca, &f.cy, &f.oa, &to_int(&y), &to_int(&r_y), &to_int(&r_a), b_y, b)
        .expect("prove enc should succeed");
    proof.z_ra = to_int(&(bigint(&proof.z_ra) + 1));
    let ok = verify_cs_enc(&f.params, &f.k, &f.ca, &f.cy, &proof).expect("verify enc should run");
    assert!(!ok);
}

#[test]
fn test_prove_cs_enc_reject_invalid_sign() {
    let cs_params = setup_cs(64).expect("setup cs should succeed");
    let (_df, params) = commit_params(&cs_params);
    let (pk, _sk) = keygen_cs(&cs_params).expect("keygen should succeed");
    let ca = CsCommitment { c1: Nat::one(), c2: Nat::one(), c3: Nat::one(), c4: Nat::one() };
    let oa = CsCommitOpening {
        a1: 1,
        a2: 1,
        s1: Nat::one(),
        s2: Nat::one(),
        r1: Nat::one(),
        r2: Nat::one(),
        b1: 1,
        b2: 1,
    };
    let one = Int::from_i64(1);
    let err = prove_cs_enc(&params, &pk.k, &ca, &Nat::one(), &oa, &one, &one, &one, 0, [1, 1, 1, 1])
        .expect_err("invalid sign should be rejected");
    assert_eq!(err, CryptoError::InvalidInput("b_y and b_i must be in {-1,+1}"));
}

#[test]
fn cs_com_proof_completeness_on_fresh_commitments() {
    // Honest opening proofs verify for several fresh commitments.
    let cs_params = setup_cs(64).expect("setup cs should succeed");
    let (_df, params) = commit_params(&cs_params);
    let (pk, _sk) = keygen_cs(&cs_params).expect("keygen should succeed");
    for m in [0u64, 1, 2, 1000] {
        let ct = enc_cs(&cs_params, &pk, &Nat::from_u64(m)).expect("enc");
        let committed = commit_cs(&params, &ct, 64).expect("commit");
        assert_eq!(manual_commit(&params, &ct, &committed.opening).c1, committed.commitment.c1);
        let proof = prove_cs_com(&params, &committed.commitment, &committed.opening).expect("prove");
        assert!(verify_cs_com(&params, &committed.commitment, &proof).expect("verify"));
    }
}

#[test]
fn cs_commit_rejects_zero_randomness_bits() {
    let cs_params = setup_cs(64).expect("setup cs should succeed");
    let (_df, params) = commit_params(&cs_params);
    let (pk, _sk) = keygen_cs(&cs_params).expect("keygen should succeed");
    let ct = enc_cs(&cs_params, &pk, &Nat::from_u64(1)).expect("enc");
    assert!(commit_cs(&params, &ct, 0).is_err());
}

#[test]
fn cs_sign_helpers_follow_sign_rules() {
    assert!(ppb::cs_commit::is_pm_one(1) && ppb::cs_commit::is_pm_one(-1) && !ppb::cs_commit::is_pm_one(0));
    assert_eq!(mul_three_signs(-1, -1, 1), Ok(1));
    assert_eq!(mul_three_signs(-1, 1, 1), Ok(-1));
    assert!(mul_three_signs(2, 1, 1).is_err());
    assert_eq!(ppb::cs_commit::div_two_signs(-1, 1), Ok(-1));
    assert_eq!(ppb::cs_commit::div_two_signs(-1, -1), Ok(1));
    assert!(ppb::cs_commit::div_two_signs(0, 1).is_err());
}
