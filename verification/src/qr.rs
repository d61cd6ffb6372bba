//! Two-part commitments over `|QR_{n^2}|`.
use crate::bignum::{big_lt, big_modpow, big_mul, big_rem, pow_mod, random_bits, Nat};
use crate::df::{df_commit_spec, is_sampled_unit};
use crate::error::{CryptoError, CryptoResult};
use crate::math::{abs_qr_rep, abs_rep, generate_safe_rsa_modulus, is_abs_qr_sample, safe_modulus_shape, sample_abs_qr_element, sample_unit_mod_n2};
use vstd::arithmetic::div_mod::lemma_mod_bound;
use vstd::arithmetic::power2::pow2;
use vstd::prelude::*;

verus! {

/// Parameters: `n`, `n^2`, `g` in `|QR_{n^2}|` and units `g', h'`.
#[derive(Debug, Clone)]
pub struct QrParams {
    pub n: Nat,
    pub n2: Nat,
    pub g: Nat,
    pub g_prime: Nat,
    pub h_prime: Nat,
}

/// Commitment `C = (C1, C2)`.
#[derive(Debug, Clone)]
pub struct QrCommitment {
    pub c1: Nat,
    pub c2: Nat,
}

/// Opening `O = (s, r)`.
#[derive(Debug, Clone)]
pub struct QrOpening {
    pub s: Nat,
    pub r: Nat,
}

/// SetupQR: a safe RSA modulus, `g` sampled in `|QR_{n^2}|` and `g', h'`
/// sampled in `Z*_{n^2}`.
pub fn setup_qr(bits: usize) -> (r: CryptoResult<QrParams>)
    ensures
        (bits < 32 || bits % 2 != 0) ==> (r matches Err(e) && e is InvalidInput),
        r matches Err(e) ==> ((e is InvalidInput) && (bits < 32 || bits % 2 != 0)) || e
            == CryptoError::PrimeGenerationFailed,
        r matches Ok(p) ==> {
            &&& safe_modulus_shape(p.n@, bits as nat)
            &&& p.n2@ == p.n@ * p.n@
            &&& is_abs_qr_sample(p.g@, p.n2@)
            &&& is_sampled_unit(p.g_prime@, p.n2@)
            &&& is_sampled_unit(p.h_prime@, p.n2@)
        },
{
    let n = match generate_safe_rsa_modulus(bits) {
        Ok((_, _, n)) => n,
        Err(e) => return Err(e),
    };
    let n2 = big_mul(&n, &n);
    proof {
        assert(n2@ >= 9) by (nonlinear_arith)
            requires
                n@ >= 9,
                n2@ == n@ * n@,
        ;
    }
    let g = sample_abs_qr_element(&n2);
    let g_prime = sample_unit_mod_n2(&n2);
    let h_prime = sample_unit_mod_n2(&n2);
    Ok(QrParams { n, n2, g, g_prime, h_prime })
}

/// The commitment `(|M g^s| mod n^2, g'^s h'^r mod n^2)`.
pub open spec fn qr_commit_spec(params: QrParams, m: nat, s: nat, r: nat) -> (nat, nat) {
    (
        abs_rep((m * pow_mod(params.g@, s, params.n2@)) % params.n2@, params.n2@),
        df_commit_spec(params.g_prime@, params.h_prime@, params.n2@, s, r),
    )
}

/// ComQR(params, M): fresh `s, r` of `randomness_bits` bits each, then
/// `C1 = |M g^s|`, `C2 = g'^s h'^r` modulo `n^2`.
pub fn commit_qr(params: &QrParams, m: &Nat, randomness_bits: usize) -> (r: CryptoResult<
    (QrCommitment, QrOpening),
>)
    ensures
        r is Err <==> m@ >= params.n2@ || randomness_bits == 0,
        r matches Err(e) ==> e is InvalidInput,
        r matches Ok(out) ==> out.1.s@ < pow2(randomness_bits as nat) && out.1.r@ < pow2(
            randomness_bits as nat,
        ) && (out.0.c1@, out.0.c2@) == qr_commit_spec(*params, m@, out.1.s@, out.1.r@),
{
    if !big_lt(m, &params.n2) {
        return Err(CryptoError::InvalidInput("M must be in Z_{n^2}"));
    }
    if randomness_bits == 0 {
        return Err(CryptoError::InvalidInput("randomness bits must be > 0"));
    }
    let s = random_bits(randomness_bits);
    let rr = random_bits(randomness_bits);
    commit_qr_with_opening(params, m, &s, &rr)
}

/// ComQR with a given opening `(s, r)`.
pub fn commit_qr_with_opening(params: &QrParams, m: &Nat, s: &Nat, rr: &Nat) -> (r: CryptoResult<
    (QrCommitment, QrOpening),
>)
    ensures
        r is Err <==> m@ >= params.n2@,
        r matches Err(e) ==> e is InvalidInput,
        r matches Ok(out) ==> out.1.s@ == s@ && out.1.r@ == rr@ && (out.0.c1@, out.0.c2@)
            == qr_commit_spec(*params, m@, s@, rr@),
{
    if !big_lt(m, &params.n2) {
        return Err(CryptoError::InvalidInput("M must be in Z_{n^2}"));
    }
    let n2 = &params.n2;
    let gs = big_modpow(&params.g, s, n2);
    let c1_raw = big_rem(&big_mul(m, &gs), n2);
    proof {
        lemma_mod_bound((m@ * gs@) as int, n2@ as int);
    }
    let c1 = abs_qr_rep(&c1_raw, n2);
    let gp_s = big_modpow(&params.g_prime, s, n2);
    let hp_r = big_modpow(&params.h_prime, rr, n2);
    let c2 = big_rem(&big_mul(&gp_s, &hp_r), n2);
    Ok((QrCommitment { c1, c2 }, QrOpening { s: s.copy(), r: rr.copy() }))
}

} // verus!
