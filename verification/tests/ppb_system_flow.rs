use num_bigint::BigUint;
use ppb::bignum::{Int, Nat};
use ppb::{dec_ppb, escrow_ppb, judge_ppb, keygen_ppb, setup_ppb, verify_poks3, HecEvalInput, HecFunctionKey};

fn big(n: &Nat) -> BigUint {
    BigUint::new(n.to_u32_digits())
}

fn to_nat(b: &BigUint) -> Nat {
    Nat::from_u32_digits(b.to_u32_digits())
}

fn n64(v: u64) -> Nat {
    Nat::from_u64(v)
}

#[test]
fn test_ppb_system_full_flow_in_order() {
    let params = setup_ppb(64, &(), &(), &()).expect("setup should succeed");
    let x = vec![n64(5), n64(11), n64(13)];
    let fk = HecFunctionKey { n: x.len(), k: 1 };
    let (pk_a, sk_a) = keygen_ppb(&params, &fk, &x, &n64(37), &n64(1)).expect("keygen should succeed");
    let y = HecEvalInput { y_id: n64(11), y_at: n64(29) };
    let escrow_out = escrow_ppb(&params, &pk_a, &y, &n64(41))
        .expect("escrow should run")
        .expect("escrow should pass verification");
    let dec_out = dec_ppb(&params, &sk_a, &escrow_out.c_y, &escrow_out)
        .expect("dec should run")
        .expect("dec should return output after successful escrow verification");
    let z = dec_out.z.clone().expect("this scenario should decrypt to a concrete identity tuple");
    let n = big(&params.cpar.n);
    assert_eq!(big(&z.y_id), big(&y.y_id) % &n);
    assert_eq!(big(&z.y_at), big(&y.y_at) % &n);
    let poks3_ok = verify_poks3(&params, &pk_a.x_public.pk_ah, &pk_a.c_d, &escrow_out.z_hat, &z, &dec_out.pi_z)
        .expect("verify_poks3 should run");
    assert!(poks3_ok);
    let judge_ok = judge_ppb(&params, &pk_a, &pk_a.c_x, &escrow_out.c_y, &escrow_out, &dec_out.z, &dec_out.pi_z)
        .expect("judge should run");
    assert!(judge_ok);
}

#[test]
fn test_ppb_system_judge_rejects_tampered_dec_proof() {
    let params = setup_ppb(64, &(), &(), &()).expect("setup should succeed");
    let x = vec![n64(7), n64(19), n64(23)];
    let fk = HecFunctionKey { n: x.len(), k: 1 };
    let (pk_a, sk_a) = keygen_ppb(&params, &fk, &x, &n64(43), &n64(1)).expect("keygen should succeed");
    let y = HecEvalInput { y_id: n64(19), y_at: n64(31) };
    let escrow_out = escrow_ppb(&params, &pk_a, &y, &n64(53))
        .expect("escrow should run")
        .expect("escrow should pass verification");
    let mut dec_out = dec_ppb(&params, &sk_a, &escrow_out.c_y, &escrow_out)
        .expect("dec should run")
        .expect("dec should return output");
    dec_out.pi_z.z_md = dec_out.pi_z.z_md.add(&Int::from_i64(1));
    let judge_ok = judge_ppb(&params, &pk_a, &pk_a.c_x, &escrow_out.c_y, &escrow_out, &dec_out.z, &dec_out.pi_z)
        .expect("judge should run");
    assert!(!judge_ok);
}

#[test]
fn test_ppb_system_judge_rejects_tampered_public_z() {
    let params = setup_ppb(64, &(), &(), &()).expect("setup should succeed");
    let x = vec![n64(7), n64(19), n64(23)];
    let fk = HecFunctionKey { n: x.len(), k: 1 };
    let (pk_a, sk_a) = keygen_ppb(&params, &fk, &x, &n64(43), &n64(1)).expect("keygen should succeed");
    let y = HecEvalInput { y_id: n64(19), y_at: n64(31) };
    let escrow_out = escrow_ppb(&params, &pk_a, &y, &n64(53))
        .expect("escrow should run")
        .expect("escrow should pass verification");
    let mut dec_out = dec_ppb(&params, &sk_a, &escrow_out.c_y, &escrow_out)
        .expect("dec should run")
        .expect("dec should return output");
    let z = dec_out.z.as_mut().expect("z should exist");
    z.y_id = to_nat(&(big(&z.y_id) + 1u32));
    let judge_ok = judge_ppb(&params, &pk_a, &pk_a.c_x, &escrow_out.c_y, &escrow_out, &dec_out.z, &dec_out.pi_z)
        .expect("judge should run");
    assert!(!judge_ok);
}
