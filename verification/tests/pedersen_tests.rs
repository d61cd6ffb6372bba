use ark_bls12_381::{Fr, G1Projective};
use ark_ec::PrimeGroup;
use ark_ff::PrimeField;
use ark_serialize::{CanonicalDeserialize, CanonicalSerialize};
use num_bigint::BigUint;
use ppb::bignum::Nat;
use ppb::pedersen_commitment::{
    com_pedersen, commit_pedersen, commit_pedersen_with_opening, setup_pedersen, G1Point,
};

fn big(n: &Nat) -> BigUint {
    BigUint::new(n.to_u32_digits())
}

fn n64(v: u64) -> Nat {
    Nat::from_u64(v)
}

fn point(p: &G1Point) -> G1Projective {
    G1Projective::deserialize_compressed(p.to_compressed().as_slice()).expect("valid point")
}

fn encode(p: &G1Projective) -> Vec<u8> {
    let mut bytes = Vec::new();
    p.serialize_compressed(&mut bytes).expect("serialize");
    bytes
}

fn scalar(n: &Nat) -> Fr {
    Fr::from_le_bytes_mod_order(&big(n).to_bytes_le())
}

fn fr_order() -> BigUint {
    BigUint::parse_bytes(b"52435875175126190479447740508185965837690552500527637822603658699938581184513", 10)
        .expect("decimal")
}

#[test]
fn test_pedersen_commit_manual_check() {
    let params = setup_pedersen(64).expect("setup pedersen should succeed");
    let m = n64(12345);
    let r = n64(678);
    let com = commit_pedersen_with_opening(&params, &m, &r).expect("commit should succeed");
    let manual_c = point(&params.g1) * scalar(&m) + point(&params.h1) * scalar(&r);
    assert_eq!(com.c.to_compressed(), encode(&manual_c));
    assert_eq!(com.r, r);
}

#[test]
fn test_pedersen_homomorphic_property() {
    let params = setup_pedersen(64).expect("setup pedersen should succeed");
    let (m1, m2, r1, r2) = (n64(100), n64(200), n64(10), n64(20));
    let com1 = commit_pedersen_with_opening(&params, &m1, &r1).expect("commit should succeed");
    let com2 = commit_pedersen_with_opening(&params, &m2, &r2).expect("commit should succeed");
    let com_sum = commit_pedersen_with_opening(&params, &n64(300), &n64(30)).expect("commit should succeed");
    assert_eq!(com_sum.c.to_compressed(), encode(&(point(&com1.c) + point(&com2.c))));
}

#[test]
fn test_pedersen_binding_property() {
    let params = setup_pedersen(64).expect("setup pedersen should succeed");
    let m = n64(123);
    let r = n64(456);
    let com = commit_pedersen_with_opening(&params, &m, &r).expect("commit should succeed");
    let recomputed = com_pedersen(&params, &m, &r).expect("recompute should succeed");
    assert_eq!(com.c, recomputed);
}

#[test]
fn pedersen_setup_uses_the_standard_generator() {
    let params = setup_pedersen(64).expect("setup pedersen should succeed");
    let expected = hex_bytes("97f1d3a73197d7942695638c4fa9ac0fc3688c4f9774b905a14e3a3f171bac586c55e83ff97a1aeffb3af00adb22c6bb");
    assert_eq!(params.g1.to_compressed(), expected);
    assert_eq!(params.g1.to_compressed(), encode(&G1Projective::generator()));
    assert_ne!(params.h1.to_compressed(), expected);
}

#[test]
fn pedersen_scalars_are_reduced_modulo_the_group_order() {
    let params = setup_pedersen(64).expect("setup pedersen should succeed");
    let order = fr_order();
    let m_wrapped = Nat::from_u32_digits((&order + 5u32).to_u32_digits());
    let a = com_pedersen(&params, &m_wrapped, &n64(7)).expect("commit should succeed");
    let b = com_pedersen(&params, &n64(5), &n64(7)).expect("commit should succeed");
    assert_eq!(a, b);
    let zero = com_pedersen(&params, &Nat::zero(), &Nat::zero()).expect("commit should succeed");
    assert_eq!(zero.to_compressed()[0], 0xc0);
}

#[test]
fn pedersen_fresh_opening_is_below_the_order() {
    let params = setup_pedersen(64).expect("setup pedersen should succeed");
    let com = commit_pedersen(&params, &n64(42)).expect("commit should succeed");
    assert!(big(&com.r) < fr_order());
    let again = com_pedersen(&params, &n64(42), &com.r).expect("commit should succeed");
    assert_eq!(again, com.c);
    assert_eq!(com.c.to_compressed().len(), 48);
}

fn hex_bytes(s: &str) -> Vec<u8> {
    (0..s.len()).step_by(2).map(|i| u8::from_str_radix(&s[i..i + 2], 16).expect("hex")).collect()
}
