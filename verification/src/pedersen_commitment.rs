//! Pedersen commitments on the G1 group of BLS12-381: `C = m G1 + r H1`.
//!
//! The group arithmetic is done by the arkworks crates. A point is held as
//! its 48-byte compressed encoding; the wrappers below decode it, make the
//! call and encode the result again.
use crate::bignum::{random_below, Nat};
use crate::error::CryptoResult;
use ark_bls12_381::{Fr, G1Projective};
use ark_ec::PrimeGroup;
use ark_ff::{BigInteger, PrimeField, UniformRand};
use ark_serialize::{CanonicalDeserialize, CanonicalSerialize};
use num_bigint::BigUint;
use rand::rngs::OsRng;
use vstd::prelude::*;

verus! {

/// The order `r` of the scalar field `Fr` of BLS12-381.
pub open spec fn fr_modulus() -> nat {
    52435875175126190479447740508185965837690552500527637822603658699938581184513nat
}

/// The compressed encoding of the standard generator of G1.
pub open spec fn g1_generator_encoding() -> Seq<u8> {
    seq![
        0x97u8, 0xf1u8, 0xd3u8, 0xa7u8, 0x31u8, 0x97u8, 0xd7u8, 0x94u8,
        0x26u8, 0x95u8, 0x63u8, 0x8cu8, 0x4fu8, 0xa9u8, 0xacu8, 0x0fu8,
        0xc3u8, 0x68u8, 0x8cu8, 0x4fu8, 0x97u8, 0x74u8, 0xb9u8, 0x05u8,
        0xa1u8, 0x4eu8, 0x3au8, 0x3fu8, 0x17u8, 0x1bu8, 0xacu8, 0x58u8,
        0x6cu8, 0x55u8, 0xe8u8, 0x3fu8, 0xf9u8, 0x7au8, 0x1au8, 0xefu8,
        0xfbu8, 0x3au8, 0xf0u8, 0x0au8, 0xdbu8, 0x22u8, 0xc6u8, 0xbbu8,
    ]
}

/// The bytes are the compressed encoding of a point of G1: they decode,
/// and the point lies on the curve and in the prime-order subgroup.
pub uninterp spec fn g1_valid(bytes: Seq<u8>) -> bool;

/// The encoding of `k P`, for the encoding `p` of a point `P` and a scalar
/// `k` of `[0, r)`.
pub uninterp spec fn g1_times(p: Seq<u8>, k: nat) -> Seq<u8>;

/// The encoding of `P + Q`, for the encodings `p` and `q` of `P` and `Q`.
pub uninterp spec fn g1_sum(p: Seq<u8>, q: Seq<u8>) -> Seq<u8>;

/// A point of the G1 group of BLS12-381, held as its compressed encoding.
#[derive(Debug, PartialEq, Eq)]
pub struct G1Point {
    bytes: Vec<u8>,
}

impl View for G1Point {
    type V = Seq<u8>;

    closed spec fn view(&self) -> Seq<u8> {
        self.bytes@
    }
}

impl G1Point {
    /// Every `G1Point` encodes a point of the group.
    #[verifier::type_invariant]
    spec fn encodes_point(&self) -> bool {
        g1_valid(self.bytes@)
    }

    /// The compressed encoding of the point.
    pub fn to_compressed(&self) -> (r: Vec<u8>)
        ensures
            r@ == self@,
    {
        let mut out: Vec<u8> = Vec::new();
        let mut i: usize = 0;
        while i < self.bytes.len()
            invariant
                i <= self.bytes@.len(),
                out@ == self.bytes@.subrange(0, i as int),
            decreases self.bytes@.len() - i,
        {
            out.push(self.bytes[i]);
            i = i + 1;
            assert(out@ =~= self.bytes@.subrange(0, i as int));
        }
        assert(self.bytes@.subrange(0, self.bytes@.len() as int) =~= self.bytes@);
        out
    }

    /// A copy of the point.
    pub fn copy(&self) -> (r: G1Point)
        ensures
            r@ == self@,
    {
        proof {
            use_type_invariant(self);
        }
        G1Point { bytes: self.to_compressed() }
    }
}

/// `G1Projective::generator()`, the standard generator of G1, encoded by
/// `serialize_compressed`: the contract claims the encoding of the
/// generator and that it is a valid point.
#[verifier::external_body]
fn g1_generator() -> (r: G1Point)
    ensures
        r@ == g1_generator_encoding(),
        g1_valid(r@),
{
    let mut bytes = Vec::new();
    G1Projective::generator().serialize_compressed(&mut bytes).unwrap();
    G1Point { bytes }
}

/// `UniformRand::rand` for `G1Projective` on the operating system's
/// generator: a random point of G1. Which point comes out is left open;
/// the contract claims only that it is a valid point.
#[verifier::external_body]
fn g1_random() -> (r: G1Point)
    ensures
        g1_valid(r@),
{
    let mut bytes = Vec::new();
    G1Projective::rand(&mut OsRng).serialize_compressed(&mut bytes).unwrap();
    G1Point { bytes }
}

/// Scalar multiplication `G1Projective * Fr`, the scalar read by
/// `Fr::from_le_bytes_mod_order`, which reduces it modulo `r`. The point is
/// decoded by `deserialize_compressed` (it succeeds on a valid encoding)
/// and the product encoded by `serialize_compressed`. The contract names
/// the product and claims that it is a valid point.
#[verifier::external_body]
fn g1_mul(p: &G1Point, k: &Nat) -> (r: G1Point)
    requires
        g1_valid(p@),
    ensures
        r@ == g1_times(p@, k@ % fr_modulus()),
        g1_valid(r@),
{
    let point = G1Projective::deserialize_compressed(p.bytes.as_slice()).unwrap();
    let scalar = Fr::from_le_bytes_mod_order(&BigUint::new(k.to_u32_digits()).to_bytes_le());
    let mut bytes = Vec::new();
    (point * scalar).serialize_compressed(&mut bytes).unwrap();
    G1Point { bytes }
}

/// Point addition `G1Projective + G1Projective`, the points decoded by
/// `deserialize_compressed` and the sum encoded by `serialize_compressed`.
/// The contract names the sum and claims that it is a valid point.
#[verifier::external_body]
fn g1_add(p: &G1Point, q: &G1Point) -> (r: G1Point)
    requires
        g1_valid(p@),
        g1_valid(q@),
    ensures
        r@ == g1_sum(p@, q@),
        g1_valid(r@),
{
    let a = G1Projective::deserialize_compressed(p.bytes.as_slice()).unwrap();
    let b = G1Projective::deserialize_compressed(q.bytes.as_slice()).unwrap();
    let mut bytes = Vec::new();
    (a + b).serialize_compressed(&mut bytes).unwrap();
    G1Point { bytes }
}

/// `Fr::MODULUS`, the order of the scalar field, read through
/// `BigInteger::to_bytes_le`: the contract claims the value of `r`.
#[verifier::external_body]
fn fr_order() -> (r: Nat)
    ensures
        r@ == fr_modulus(),
{
    Nat::from_u32_digits(BigUint::from_bytes_le(&Fr::MODULUS.to_bytes_le()).to_u32_digits())
}

/// Parameters `(G1, H1)`: the generator and a second, random point.
#[derive(Debug)]
pub struct PedersenCommitmentParams {
    pub g1: G1Point,
    pub h1: G1Point,
}

/// A commitment `C = m G1 + r H1` with its opening `r`.
#[derive(Debug)]
pub struct PedersenCommitment {
    pub c: G1Point,
    pub r: Nat,
}

impl PedersenCommitmentParams {
    /// A copy of the parameters.
    pub fn copy(&self) -> (r: PedersenCommitmentParams)
        ensures
            r.g1@ == self.g1@,
            r.h1@ == self.h1@,
    {
        PedersenCommitmentParams { g1: self.g1.copy(), h1: self.h1.copy() }
    }
}

/// The encoding of `m G1 + r H1`, the scalars reduced modulo the group order.
pub open spec fn pedersen_spec(g1: Seq<u8>, h1: Seq<u8>, m: nat, r: nat) -> Seq<u8> {
    g1_sum(g1_times(g1, m % fr_modulus()), g1_times(h1, r % fr_modulus()))
}

/// CSetup: `G1` is the standard generator of the group and `H1` a random
/// point. The size argument takes no part.
pub fn setup_pedersen(_bits: usize) -> (r: CryptoResult<PedersenCommitmentParams>)
    ensures
        r matches Ok(p) && p.g1@ == g1_generator_encoding(),
{
    let g1 = g1_generator();
    let h1 = g1_random();
    Ok(PedersenCommitmentParams { g1, h1 })
}

/// Com(params, m; r) = `m G1 + r H1`.
pub fn com_pedersen(params: &PedersenCommitmentParams, m: &Nat, r: &Nat) -> (c: CryptoResult<G1Point>)
    ensures
        c matches Ok(p) && p@ == pedersen_spec(params.g1@, params.h1@, m@, r@),
{
    proof {
        use_type_invariant(&params.g1);
        use_type_invariant(&params.h1);
    }
    let gm = g1_mul(&params.g1, m);
    let hr = g1_mul(&params.h1, r);
    Ok(g1_add(&gm, &hr))
}

/// CommitPedersen(params, m): a fresh opening `r` drawn below the group
/// order, and `C = m G1 + r H1`.
pub fn commit_pedersen(params: &PedersenCommitmentParams, m: &Nat) -> (c: CryptoResult<PedersenCommitment>)
    ensures
        c matches Ok(com) && com.r@ < fr_modulus() && com.c@ == pedersen_spec(params.g1@, params.h1@, m@, com.r@),
{
    let order = fr_order();
    let r = random_below(&order);
    commit_pedersen_with_opening(params, m, &r)
}

/// CommitPedersen with a given opening `r`.
pub fn commit_pedersen_with_opening(params: &PedersenCommitmentParams, m: &Nat, r: &Nat) -> (c: CryptoResult<
    PedersenCommitment,
>)
    ensures
        c matches Ok(com) && com.r@ == r@ && com.c@ == pedersen_spec(params.g1@, params.h1@, m@, r@),
{
    let c = match com_pedersen(params, m, r) {
        Ok(p) => p,
        Err(e) => return Err(e),
    };
    Ok(PedersenCommitment { c, r: r.copy() })
}

} // verus!
