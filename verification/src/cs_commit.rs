//! Commitments to Camenisch-Shoup ciphertexts and the Σ-protocols over
//! them (opening, addition, scalar multiplication, encryption), made
//! non-interactive with Fiat-Shamir.
use crate::bignum::{big_add, big_eq, big_is_zero, big_modpow, big_mul, big_rem, big_shl, big_sub, pow_mod, random_below, random_bits, random_u32, Int, Nat};
use crate::cs::{CsCiphertext, CsParams};
use crate::df::DfParams;
use crate::error::{verifier_error, CryptoError, CryptoResult};
use crate::hash::{challenge_of, fiat_shamir_challenge_biguints};
use crate::hec::neg_mod;
use crate::math::{derive_b_bits_from_n2, gcd, inv_mod, is_abs_qr_sample, modinv, sample_abs_qr_element, spec_gcd};
use crate::bignum::bit_len;
use vstd::arithmetic::power2::pow2;
use vstd::prelude::*;

verus! {

/// Parameters of the ciphertext commitments: `n`, `n^2`, a fresh `g` of
/// `|QR_{n^2}|`, the encryption bases `g*, h*`, the commitment bases
/// `g', h'`, and the security parameter `lambda` in bits.
#[derive(Debug, Clone)]
pub struct CsCommitParams {
    pub n: Nat,
    pub n2: Nat,
    pub g: Nat,
    pub g_star: Nat,
    pub h_star: Nat,
    pub g_prime: Nat,
    pub h_prime: Nat,
    pub lambda_bits: usize,
}

/// Commitment `C = (C1, C2, C3, C4)`.
#[derive(Debug, Clone)]
pub struct CsCommitment {
    pub c1: Nat,
    pub c2: Nat,
    pub c3: Nat,
    pub c4: Nat,
}

/// Opening `O = (a1, a2, s1, s2, r1, r2, b1, b2)`; the signs `a1, a2, b1,
/// b2` are `-1` or `+1`.
#[derive(Debug, Clone)]
pub struct CsCommitOpening {
    pub a1: i8,
    pub a2: i8,
    pub s1: Nat,
    pub s2: Nat,
    pub r1: Nat,
    pub r2: Nat,
    pub b1: i8,
    pub b2: i8,
}

/// A commitment with its opening.
#[derive(Debug, Clone)]
pub struct CsCommitmentWithOpening {
    pub commitment: CsCommitment,
    pub opening: CsCommitOpening,
}

/// Opening proof `π = (R2, R4, z_s1, z_r1, z_s2, z_r2)`.
#[derive(Debug, Clone)]
pub struct CsComProof {
    pub r2: Nat,
    pub r4: Nat,
    pub z_s1: Nat,
    pub z_r1: Nat,
    pub z_s2: Nat,
    pub z_r2: Nat,
}

/// Addition proof `π = (e, z1, z2, z3, z4)` with integer responses.
#[derive(Debug, Clone)]
pub struct CsAddProof {
    pub e: Nat,
    pub z1: Int,
    pub z2: Int,
    pub z3: Int,
    pub z4: Int,
}

/// Scalar-multiplication proof
/// `π = (R_y, R_1..R_4, z_y, z_ry, z_1..z_4)`.
#[derive(Debug, Clone)]
pub struct CsMultProof {
    pub r_y: Nat,
    pub r1: Nat,
    pub r2: Nat,
    pub r3: Nat,
    pub r4: Nat,
    pub z_y: Int,
    pub z_ry: Int,
    pub z1: Int,
    pub z2: Int,
    pub z3: Int,
    pub z4: Int,
}

/// Encryption proof
/// `π = (R_y, R_1..R_4, z_y, z_ry, z_ra, z_s1, z_r1, z_s2, z_r2)`.
#[derive(Debug, Clone)]
pub struct CsEncProof {
    pub r_y: Nat,
    pub r1: Nat,
    pub r2: Nat,
    pub r3: Nat,
    pub r4: Nat,
    pub z_y: Int,
    pub z_ry: Int,
    pub z_ra: Int,
    pub z_s1: Int,
    pub z_r1: Int,
    pub z_s2: Int,
    pub z_r2: Int,
}

/// Proof that a commitment opens to a public ciphertext `x0 = (u, v)`:
/// `R1 = g^{k_s1}`, `R2 = g'^{k_s1} h'^{k_r1}`, `R3 = g^{k_s2}`,
/// `R4 = g'^{k_s2} h'^{k_r2}` and `z = k + e w` for each witness `w`.
#[derive(Debug, Clone)]
pub struct CsComCtProof {
    pub r1: Nat,
    pub r2: Nat,
    pub r3: Nat,
    pub r4: Nat,
    pub z_s1: Nat,
    pub z_r1: Nat,
    pub z_s2: Nat,
    pub z_r2: Nat,
}

impl View for CsCommitment {
    type V = (nat, nat, nat, nat);

    open spec fn view(&self) -> (nat, nat, nat, nat) {
        (self.c1@, self.c2@, self.c3@, self.c4@)
    }
}

impl View for CsCommitOpening {
    type V = (i8, i8, nat, nat, nat, nat, i8, i8);

    open spec fn view(&self) -> (i8, i8, nat, nat, nat, nat, i8, i8) {
        (self.a1, self.a2, self.s1@, self.s2@, self.r1@, self.r2@, self.b1, self.b2)
    }
}

impl View for CsCommitParams {
    type V = (nat, nat, nat, nat, nat, nat, nat, usize);

    open spec fn view(&self) -> (nat, nat, nat, nat, nat, nat, nat, usize) {
        (self.n@, self.n2@, self.g@, self.g_star@, self.h_star@, self.g_prime@, self.h_prime@, self.lambda_bits)
    }
}

impl CsCommitment {
    /// A copy of the commitment.
    pub fn copy(&self) -> (r: CsCommitment)
        ensures
            r@ == self@,
    {
        CsCommitment { c1: self.c1.copy(), c2: self.c2.copy(), c3: self.c3.copy(), c4: self.c4.copy() }
    }
}

impl CsCommitOpening {
    /// A copy of the opening.
    pub fn copy(&self) -> (r: CsCommitOpening)
        ensures
            r@ == self@,
    {
        CsCommitOpening {
            a1: self.a1,
            a2: self.a2,
            s1: self.s1.copy(),
            s2: self.s2.copy(),
            r1: self.r1.copy(),
            r2: self.r2.copy(),
            b1: self.b1,
            b2: self.b2,
        }
    }
}

impl CsCommitParams {
    /// A copy of the parameters.
    pub fn copy(&self) -> (r: CsCommitParams)
        ensures
            r@ == self@,
    {
        CsCommitParams {
            n: self.n.copy(),
            n2: self.n2.copy(),
            g: self.g.copy(),
            g_star: self.g_star.copy(),
            h_star: self.h_star.copy(),
            g_prime: self.g_prime.copy(),
            h_prime: self.h_prime.copy(),
            lambda_bits: self.lambda_bits,
        }
    }
}

// ---------------------------------------------------------------------------
// Signs and signed exponents.
// ---------------------------------------------------------------------------

/// `x` times the sign `s` modulo `n^2`: `x mod n^2` for `+1`, `-x mod n^2`
/// for `-1` (zero stays zero).
pub open spec fn apply_sign_spec(x: nat, sign: i8, n2: nat) -> nat {
    if sign == 1 {
        x % n2
    } else if x == 0 {
        0
    } else {
        neg_mod(x, n2)
    }
}

/// `sign` is `-1` or `+1`.
pub open spec fn pm_one(sign: i8) -> bool {
    sign == 1 || sign == -1
}

/// Multiplies `x` by the sign `sign` modulo `n^2`.
///
/// Fails unless the sign is `-1` or `+1`.
fn apply_sign_mod_n2(x: &Nat, sign: i8, n2: &Nat) -> (r: CryptoResult<Nat>)
    requires
        (sign == 1 || (sign == -1 && x@ != 0)) ==> n2@ > 0,
    ensures
        r is Ok <==> pm_one(sign),
        r matches Err(e) ==> e is InvalidInput,
        r matches Ok(v) ==> v@ == apply_sign_spec(x@, sign, n2@),
{
    if sign == 1 {
        Ok(big_rem(x, n2))
    } else if sign == -1 {
        if big_is_zero(x) {
            Ok(Nat::zero())
        } else {
            Ok(big_rem(&big_sub(n2, &big_rem(x, n2)), n2))
        }
    } else {
        Err(CryptoError::InvalidInput("sign must be -1 or +1"))
    }
}

/// Draws a sign uniformly from `{-1, +1}`.
fn sample_sign() -> (r: i8)
    ensures
        pm_one(r),
{
    if (random_u32() & 1) == 0 {
        -1
    } else {
        1
    }
}

/// Whether `sign` is `-1` or `+1`.
pub fn is_pm_one(sign: i8) -> (r: bool)
    ensures
        r == pm_one(sign),
{
    sign == -1 || sign == 1
}

/// The product of three signs, each of which must be `-1` or `+1`.
pub fn mul_three_signs(a: i8, b: i8, c: i8) -> (r: CryptoResult<i8>)
    ensures
        r is Ok <==> pm_one(a) && pm_one(b) && pm_one(c),
        r matches Ok(s) ==> s == a * b * c,
        r is Err ==> r == Err::<i8, CryptoError>(CryptoError::InvalidInput("sign must be in {-1,+1}")),
{
    if !is_pm_one(a) || !is_pm_one(b) || !is_pm_one(c) {
        return Err(CryptoError::InvalidInput("sign must be in {-1,+1}"));
    }
    let prod: i16 = (a as i16) * (b as i16) * (c as i16);
    assert(prod == a * b * c && (prod == 1 || prod == -1)) by (nonlinear_arith)
        requires
            a == 1 || a == -1,
            b == 1 || b == -1,
            c == 1 || c == -1,
            prod == (a as i16) * (b as i16) * (c as i16),
    ;
    if prod == -1 {
        Ok(-1)
    } else if prod == 1 {
        Ok(1)
    } else {
        Err(CryptoError::InvalidInput("invalid sign multiplication result"))
    }
}

/// The quotient of two signs, which on `{-1, +1}` is their product.
pub fn div_two_signs(a: i8, b: i8) -> (r: CryptoResult<i8>)
    ensures
        r is Ok <==> pm_one(a) && pm_one(b),
        r matches Ok(s) ==> s == a * b,
        r is Err ==> r == Err::<i8, CryptoError>(CryptoError::InvalidInput("sign must be in {-1,+1}")),
{
    mul_three_signs(a, b, 1)
}

/// `sign^exp` on `{-1, +1}`: `+1` for an even exponent, `sign` for an odd one.
pub open spec fn sign_pow_spec(sign: i8, exp: int) -> i8 {
    if exp % 2 == 0 {
        1
    } else {
        sign
    }
}

/// `sign^exp` for a sign in `{-1, +1}` and an integer exponent.
pub(crate) fn sign_pow_i8(sign: i8, exp: &Int) -> (r: CryptoResult<i8>)
    ensures
        r is Ok <==> pm_one(sign),
        r matches Ok(s) ==> s == sign_pow_spec(sign, exp@),
        r is Err ==> r == Err::<i8, CryptoError>(CryptoError::InvalidInput("sign must be in {-1,+1}")),
{
    if !is_pm_one(sign) {
        return Err(CryptoError::InvalidInput("sign must be in {-1,+1}"));
    }
    if exp.is_even() {
        Ok(1)
    } else {
        Ok(sign)
    }
}

/// `base^exp mod m` for an integer exponent: a negative exponent uses the
/// inverse of the base.
pub open spec fn signed_pow(base: nat, exp: int, m: nat) -> nat {
    if exp >= 0 {
        pow_mod(base, exp as nat, m)
    } else {
        pow_mod(inv_mod(base, m), (-exp) as nat, m)
    }
}

/// `base^exp mod m` is defined: the exponent is non-negative or the base
/// is a unit.
pub open spec fn signed_pow_ok(base: nat, exp: int, m: nat) -> bool {
    exp >= 0 || spec_gcd(m, base) == 1
}

/// `(a (b c mod m)) mod m == ((a b mod m) c) mod m`.
pub proof fn lemma_mul_mod_assoc(a: nat, b: nat, c: nat, m: nat)
    requires
        m > 0,
    ensures
        (a * ((b * c) % m)) % m == (((a * b) % m) * c) % m,
{
    let mi = m as int;
    vstd::arithmetic::div_mod::lemma_mul_mod_noop_right(a as int, (b * c) as int, mi);
    vstd::arithmetic::div_mod::lemma_mul_mod_noop_left((a * b) as int, c as int, mi);
    assert(a * (b * c) == (a * b) * c) by (nonlinear_arith);
}

/// `((a b) (c d)) == ((a c) (b d)) (mod m)`.
pub proof fn lemma_mul4_mod(a: nat, b: nat, c: nat, d: nat, m: nat)
    requires
        m > 0,
    ensures
        (((a * b) % m) * ((c * d) % m)) % m == (((a * c) % m) * ((b * d) % m)) % m,
{
    let mi = m as int;
    vstd::arithmetic::div_mod::lemma_mul_mod_noop((a * b) as int, (c * d) as int, mi);
    vstd::arithmetic::div_mod::lemma_mul_mod_noop((a * c) as int, (b * d) as int, mi);
    assert((a * b) * (c * d) == (a * c) * (b * d)) by (nonlinear_arith);
}

/// The non-negative part of an integer exponent.
pub open spec fn exp_pos(a: int) -> nat {
    if a >= 0 {
        a as nat
    } else {
        0
    }
}

/// The magnitude of the negative part of an integer exponent.
pub open spec fn exp_neg(a: int) -> nat {
    if a < 0 {
        (-a) as nat
    } else {
        0
    }
}

/// A signed power is `g^(a+) (g^-1)^(a-)`.
proof fn lemma_signed_as_pair(g: nat, a: int, m: nat)
    requires
        m > 1,
    ensures
        signed_pow(g, a, m) == crate::powmod::pair_pow(g, inv_mod(g, m), exp_pos(a), exp_neg(a), m),
{
    let gi = inv_mod(g, m);
    vstd::arithmetic::power::lemma_pow0(g as int);
    vstd::arithmetic::power::lemma_pow0(gi as int);
    vstd::arithmetic::div_mod::lemma_small_mod(1, m);
    assert(pow_mod(g, 0, m) == 1);
    assert(pow_mod(gi, 0, m) == 1);
    if a >= 0 {
        let v = pow_mod(g, a as nat, m);
        crate::powmod::lemma_pow_mod_bound(g, a as nat, m);
        vstd::arithmetic::div_mod::lemma_small_mod(v, m);
        assert(v * 1 == v);
    } else {
        let v = pow_mod(gi, (-a) as nat, m);
        crate::powmod::lemma_pow_mod_bound(gi, (-a) as nat, m);
        vstd::arithmetic::div_mod::lemma_small_mod(v, m);
        assert(1 * v == v);
    }
}

/// For a unit `g`, `g^x (g^-1)^y == g^(x - y) (mod m)`.
proof fn lemma_pair_as_signed(g: nat, x: nat, y: nat, m: nat)
    requires
        m > 1,
        spec_gcd(m, g) == 1,
    ensures
        crate::powmod::pair_pow(g, inv_mod(g, m), x, y, m) == signed_pow(g, x - y, m),
{
    let gi = inv_mod(g, m);
    crate::math::lemma_inv_mod_exists(g, m);
    vstd::arithmetic::div_mod::lemma_small_mod(1, m);
    if x >= y {
        let d = (x - y) as nat;
        crate::powmod::lemma_pow_mod_add(g, d, y, m);
        crate::powmod::lemma_unit_pow(g, gi, y, m);
        let a = pow_mod(g, d, m);
        let b = pow_mod(g, y, m);
        let c = pow_mod(gi, y, m);
        crate::pok::lemma_cancel_inverse(b, a, c, m);
        assert(b * a == a * b) by (nonlinear_arith);
        crate::powmod::lemma_pow_mod_bound(g, d, m);
        vstd::arithmetic::div_mod::lemma_small_mod(a, m);
    } else {
        let d = (y - x) as nat;
        crate::powmod::lemma_pow_mod_add(gi, x, d, m);
        crate::powmod::lemma_unit_pow(g, gi, x, m);
        let a = pow_mod(g, x, m);
        let b = pow_mod(gi, x, m);
        let c = pow_mod(gi, d, m);
        lemma_mul_mod_assoc(a, b, c, m);
        crate::powmod::lemma_pow_mod_bound(gi, d, m);
        vstd::arithmetic::div_mod::lemma_small_mod(c, m);
        assert(1nat * c == c);
    }
}

/// Signed powers of a unit add: `g^a g^b == g^(a+b) (mod m)`.
pub proof fn lemma_signed_pow_add(g: nat, a: int, b: int, m: nat)
    requires
        m > 1,
        spec_gcd(m, g) == 1,
    ensures
        (signed_pow(g, a, m) * signed_pow(g, b, m)) % m == signed_pow(g, a + b, m),
{
    let gi = inv_mod(g, m);
    lemma_signed_as_pair(g, a, m);
    lemma_signed_as_pair(g, b, m);
    crate::powmod::lemma_pair_pow_mul(g, gi, exp_pos(a), exp_neg(a), exp_pos(b), exp_neg(b), m);
    lemma_pair_as_signed(g, exp_pos(a) + exp_pos(b), exp_neg(a) + exp_neg(b), m);
}

/// A power of a signed power of a unit: `(g^a)^c == g^(a c) (mod m)`.
pub proof fn lemma_signed_pow_pow(g: nat, a: int, c: nat, m: nat)
    requires
        m > 1,
        spec_gcd(m, g) == 1,
    ensures
        pow_mod(signed_pow(g, a, m), c, m) == signed_pow(g, a * c, m),
{
    let gi = inv_mod(g, m);
    lemma_signed_as_pair(g, a, m);
    crate::powmod::lemma_pair_pow_pow(g, gi, exp_pos(a), exp_neg(a), c, m);
    lemma_pair_as_signed(g, exp_pos(a) * c, exp_neg(a) * c, m);
    assert(exp_pos(a) * c - exp_neg(a) * c == a * c) by (nonlinear_arith)
        requires
            exp_pos(a) - exp_neg(a) == a,
    ;
}

/// A signed power of a unit is a reduced unit, with inverse `g^(-a)`.
pub proof fn lemma_signed_pow_unit(g: nat, a: int, m: nat)
    requires
        m > 1,
        spec_gcd(m, g) == 1,
    ensures
        signed_pow(g, a, m) < m,
        (signed_pow(g, a, m) * signed_pow(g, -a, m)) % m == 1,
{
    lemma_signed_pow_add(g, a, -a, m);
    vstd::arithmetic::power::lemma_pow0(g as int);
    vstd::arithmetic::div_mod::lemma_small_mod(1, m);
    if a >= 0 {
        crate::powmod::lemma_pow_mod_bound(g, a as nat, m);
    } else {
        crate::powmod::lemma_pow_mod_bound(inv_mod(g, m), (-a) as nat, m);
    }
}

/// Signed-exponent modular power; fails when the exponent is negative and
/// the base has no inverse.
pub(crate) fn modpow_signed(base: &Nat, exp: &Int, modulus: &Nat) -> (r: CryptoResult<Nat>)
    requires
        modulus@ > 0,
    ensures
        r is Ok <==> signed_pow_ok(base@, exp@, modulus@),
        r matches Ok(v) ==> v@ == signed_pow(base@, exp@, modulus@),
        r matches Err(e) ==> e == CryptoError::ModularInverseUnavailable,
{
    if exp.is_nonneg() {
        let e = exp.magnitude();
        return Ok(big_modpow(base, &e, modulus));
    }
    let inv = match modinv(base, modulus) {
        Ok(v) => v,
        Err(e) => return Err(e),
    };
    let abs_exp = exp.magnitude();
    Ok(big_modpow(&inv, &abs_exp, modulus))
}

/// Draws an integer from `[-2^ell, 2^ell]`.
///
/// Fails when `2^(ell + 1)` cannot be formed (`ell` at the top of its range).
pub(crate) fn sample_symmetric_bigint(ell: usize) -> (r: CryptoResult<Int>)
    ensures
        r is Ok <==> ell < usize::MAX,
        r matches Ok(k) ==> -pow2(ell as nat) <= k@ <= pow2(ell as nat),
        r matches Err(e) ==> e is InvalidInput,
{
    if ell == usize::MAX {
        return Err(CryptoError::InvalidInput("ell too large"));
    }
    let one = Nat::one();
    let two_pow_ell = big_shl(&one, ell);
    let upper_inclusive = big_add(&big_shl(&one, ell + 1), &one);
    let t = random_below(&upper_inclusive);
    proof {
        vstd::arithmetic::power2::lemma_pow2_unfold((ell + 1) as nat);
    }
    Ok(Int::from_nat(&t).sub(&Int::from_nat(&two_pow_ell)))
}

/// `num / den mod n^2`, through the inverse of `den mod n^2`.
fn div_mod_n2(num: &Nat, den: &Nat, n2: &Nat) -> (r: CryptoResult<Nat>)
    requires
        n2@ > 0,
    ensures
        r is Ok <==> spec_gcd(n2@, den@ % n2@) == 1,
        r matches Ok(v) ==> v@ == ((num@ % n2@) * inv_mod(den@ % n2@, n2@)) % n2@,
        r matches Err(e) ==> e == CryptoError::ModularInverseUnavailable,
{
    let den_mod = big_rem(den, n2);
    let den_inv = match modinv(&den_mod, n2) {
        Ok(v) => v,
        Err(e) => return Err(e),
    };
    Ok(big_rem(&big_mul(&big_rem(num, n2), &den_inv), n2))
}

/// Blinding length `B + 2 lambda + lambda_c`, with `B = bitlen(n^2) - 2`.
pub open spec fn blinding_bits_spec(params: CsCommitParams, lambda_c: nat) -> int {
    bit_len(params.n2@) - 2 + 2 * params.lambda_bits + lambda_c
}

/// `B + 2 lambda + lambda_c`; fails when `B` cannot be derived or the sum
/// overflows.
fn derive_blinding_bits(params: &CsCommitParams, lambda_c: usize) -> (r: CryptoResult<usize>)
    ensures
        r is Ok <==> bit_len(params.n2@) >= 3 && bit_len(params.n2@) <= usize::MAX && blinding_bits_spec(*params, lambda_c as nat)
            <= usize::MAX && 2 * params.lambda_bits <= usize::MAX && bit_len(params.n2@) - 2 + 2
            * params.lambda_bits <= usize::MAX,
        r matches Ok(v) ==> v == blinding_bits_spec(*params, lambda_c as nat),
        r matches Err(e) ==> e is InvalidInput,
{
    let b_bits = match derive_b_bits_from_n2(&params.n2) {
        Ok(b) => b,
        Err(e) => return Err(e),
    };
    let two_lambda = match params.lambda_bits.checked_mul(2) {
        Some(v) => v,
        None => return Err(CryptoError::InvalidInput("2*lambda overflow")),
    };
    let with_lambda = match b_bits.checked_add(two_lambda) {
        Some(v) => v,
        None => return Err(CryptoError::InvalidInput("B+2lambda+lambda_c overflow")),
    };
    match with_lambda.checked_add(lambda_c) {
        Some(v) => Ok(v),
        None => Err(CryptoError::InvalidInput("B+2lambda+lambda_c overflow")),
    }
}

// ---------------------------------------------------------------------------
// Setup and commitment.
// ---------------------------------------------------------------------------

/// SetupCS(1^lambda, paramsCS, paramsDF): checks that both parameter sets
/// share `n` and `n^2`, samples a fresh `g` of `|QR_{n^2}|`, and takes
/// `g*, h*` from the encryption and `g', h'` from the commitment parameters.
pub fn setup_cs_commit(lambda_bits: usize, params_cs: &CsParams, params_df: &DfParams) -> (r: CryptoResult<
    CsCommitParams,
>)
    requires
        lambda_bits > 0 && params_cs.n2@ == params_df.n2@ && params_cs.n@ == params_df.n@
            ==> params_cs.n2@ >= 3,
    ensures
        r is Ok <==> lambda_bits > 0 && params_cs.n2@ == params_df.n2@ && params_cs.n@ == params_df.n@,
        r matches Err(e) ==> e is InvalidInput,
        r matches Ok(p) ==> {
            &&& p.n@ == params_cs.n@
            &&& p.n2@ == params_cs.n2@
            &&& is_abs_qr_sample(p.g@, p.n2@)
            &&& p.g_star@ == params_cs.g@
            &&& p.h_star@ == params_cs.h@
            &&& p.g_prime@ == params_df.g@
            &&& p.h_prime@ == params_df.h@
            &&& p.lambda_bits == lambda_bits
        },
{
    if lambda_bits == 0 {
        return Err(CryptoError::InvalidInput("lambda_bits must be > 0"));
    }
    if !big_eq(&params_cs.n2, &params_df.n2) {
        return Err(CryptoError::InvalidInput("paramsCS.n2 must equal paramsDF.n2"));
    }
    if !big_eq(&params_cs.n, &params_df.n) {
        return Err(CryptoError::InvalidInput("paramsCS.n must equal paramsDF.n"));
    }
    let g = sample_abs_qr_element(&params_cs.n2);
    Ok(CsCommitParams {
        n: params_cs.n.copy(),
        n2: params_cs.n2.copy(),
        g,
        g_star: params_cs.g.copy(),
        h_star: params_cs.h.copy(),
        g_prime: params_df.g.copy(),
        h_prime: params_df.h.copy(),
        lambda_bits,
    })
}

/// `g'^s h'^r mod n^2`.
pub open spec fn df_pair(params: CsCommitParams, s: nat, r: nat) -> nat {
    (pow_mod(params.g_prime@, s, params.n2@) * pow_mod(params.h_prime@, r, params.n2@)) % params.n2@
}

/// `com` is the commitment to `c = (c0, c1)` under opening `o`:
/// `C1 = a1 c0 g^s1`, `C2 = b1 g'^s1 h'^r1`, `C3 = a2 c1 g^s2`,
/// `C4 = b2 g'^s2 h'^r2`, all modulo `n^2`.
pub open spec fn is_commitment_of(params: CsCommitParams, c: (nat, nat), o: CsCommitOpening, com: CsCommitment) -> bool {
    let n2 = params.n2@;
    &&& com.c1@ == apply_sign_spec((c.0 * pow_mod(params.g@, o.s1@, n2)) % n2, o.a1, n2)
    &&& com.c2@ == apply_sign_spec(df_pair(params, o.s1@, o.r1@), o.b1, n2)
    &&& com.c3@ == apply_sign_spec((c.1 * pow_mod(params.g@, o.s2@, n2)) % n2, o.a2, n2)
    &&& com.c4@ == apply_sign_spec(df_pair(params, o.s2@, o.r2@), o.b2, n2)
}

/// `g'^s h'^r mod n^2`, computed.
fn df_pair_exec(params: &CsCommitParams, s: &Nat, r: &Nat) -> (v: Nat)
    requires
        params.n2@ > 0,
    ensures
        v@ == df_pair(*params, s@, r@),
{
    big_rem(&big_mul(&big_modpow(&params.g_prime, s, &params.n2), &big_modpow(&params.h_prime, r, &params.n2)), &params.n2)
}

/// `(x * g^s) mod n^2`, computed.
fn times_g_pow(params: &CsCommitParams, x: &Nat, s: &Nat) -> (v: Nat)
    requires
        params.n2@ > 0,
    ensures
        v@ == (x@ * pow_mod(params.g@, s@, params.n2@)) % params.n2@,
{
    big_rem(&big_mul(x, &big_modpow(&params.g, s, &params.n2)), &params.n2)
}

/// The commitment to `c` under a given opening.
pub(crate) fn commit_cs_with_opening(params: &CsCommitParams, c: &CsCiphertext, o: &CsCommitOpening) -> (r:
    CryptoResult<CsCommitment>)
    requires
        params.n2@ > 0,
    ensures
        r is Ok <==> pm_one(o.a1) && pm_one(o.a2) && pm_one(o.b1) && pm_one(o.b2),
        r matches Err(e) ==> e is InvalidInput,
        r matches Ok(com) ==> is_commitment_of(*params, c@, *o, com),
{
    let c1_unsigned = times_g_pow(params, &c.c0, &o.s1);
    let c2_unsigned = df_pair_exec(params, &o.s1, &o.r1);
    let c3_unsigned = times_g_pow(params, &c.c1, &o.s2);
    let c4_unsigned = df_pair_exec(params, &o.s2, &o.r2);
    let c1 = match apply_sign_mod_n2(&c1_unsigned, o.a1, &params.n2) {
        Ok(v) => v,
        Err(e) => return Err(e),
    };
    let c2 = match apply_sign_mod_n2(&c2_unsigned, o.b1, &params.n2) {
        Ok(v) => v,
        Err(e) => return Err(e),
    };
    let c3 = match apply_sign_mod_n2(&c3_unsigned, o.a2, &params.n2) {
        Ok(v) => v,
        Err(e) => return Err(e),
    };
    let c4 = match apply_sign_mod_n2(&c4_unsigned, o.b2, &params.n2) {
        Ok(v) => v,
        Err(e) => return Err(e),
    };
    Ok(CsCommitment { c1, c2, c3, c4 })
}

/// CommitCS(params, c): fresh `s1, s2, r1, r2` of `randomness_bits` bits
/// and fresh signs `a1, a2, b1, b2`; the ciphertext components `c0, c1`
/// take the places of `c1, c2` in the scheme.
pub fn commit_cs(params: &CsCommitParams, c: &CsCiphertext, randomness_bits: usize) -> (r: CryptoResult<
    CsCommitmentWithOpening,
>)
    requires
        params.n2@ > 0,
    ensures
        r is Err <==> randomness_bits == 0,
        r matches Err(e) ==> e is InvalidInput,
        r matches Ok(w) ==> {
            &&& is_commitment_of(*params, c@, w.opening, w.commitment)
            &&& pm_one(w.opening.a1) && pm_one(w.opening.a2) && pm_one(w.opening.b1) && pm_one(w.opening.b2)
            &&& w.opening.s1@ < pow2(randomness_bits as nat) && w.opening.s2@ < pow2(randomness_bits as nat)
            &&& w.opening.r1@ < pow2(randomness_bits as nat) && w.opening.r2@ < pow2(randomness_bits as nat)
        },
{
    if randomness_bits == 0 {
        return Err(CryptoError::InvalidInput("randomness bits must be > 0"));
    }
    let s1 = random_bits(randomness_bits);
    let s2 = random_bits(randomness_bits);
    let r1 = random_bits(randomness_bits);
    let r2 = random_bits(randomness_bits);
    let a1 = sample_sign();
    let a2 = sample_sign();
    let b1 = sample_sign();
    let b2 = sample_sign();
    let opening = CsCommitOpening { a1, a2, s1, s2, r1, r2, b1, b2 };
    let commitment = match commit_cs_with_opening(params, c, &opening) {
        Ok(v) => v,
        Err(e) => return Err(e),
    };
    Ok(CsCommitmentWithOpening { commitment, opening })
}

/// The blinding length for `lambda_c` can be derived.
pub open spec fn blinding_ok(params: CsCommitParams, lambda_c: nat) -> bool {
    &&& bit_len(params.n2@) >= 3
    &&& bit_len(params.n2@) <= usize::MAX
    &&& blinding_bits_spec(params, lambda_c) <= usize::MAX
    &&& 2 * params.lambda_bits <= usize::MAX
    &&& bit_len(params.n2@) - 2 + 2 * params.lambda_bits <= usize::MAX
}

/// An even power forgets the sign: `(s x)^(2e) == x^(2e) (mod n^2)` for a
/// reduced `x` and `s` in `{-1, +1}`.
pub proof fn lemma_signed_even_pow(x: nat, sign: i8, e: nat, m: nat)
    requires
        m > 0,
        x < m,
        pm_one(sign),
    ensures
        pow_mod(apply_sign_spec(x, sign, m), 2 * e, m) == pow_mod(x, 2 * e, m),
{
    vstd::arithmetic::div_mod::lemma_small_mod(x, m);
    if sign == -1 && x != 0 {
        crate::powmod::lemma_pow_mod_neg_even(x, e, m);
    }
}

// ---------------------------------------------------------------------------
// Opening proof.
// ---------------------------------------------------------------------------

/// Challenge of the opening proof: `H(n, g', h', C2, C4, R2, R4)`.
pub open spec fn cs_com_challenge(params: CsCommitParams, com: CsCommitment, r2: nat, r4: nat) -> nat {
    challenge_of(seq![params.n@, params.g_prime@, params.h_prime@, com.c2@, com.c4@, r2, r4])
}

/// The verification equations of the opening proof, squared to remove the
/// hidden signs: `g'^(2 z_s1) h'^(2 z_r1) == R2^2 C2^(2e)` and
/// `g'^(2 z_s2) h'^(2 z_r2) == R4^2 C4^(2e)` modulo `n^2`.
pub open spec fn cs_com_accepts(params: CsCommitParams, com: CsCommitment, proof: CsComProof) -> bool {
    let n2 = params.n2@;
    let e = cs_com_challenge(params, com, proof.r2@, proof.r4@);
    &&& df_pair(params, 2 * proof.z_s1@, 2 * proof.z_r1@) == (pow_mod(proof.r2@, 2, n2) * pow_mod(
        com.c2@,
        2 * e,
        n2,
    )) % n2
    &&& df_pair(params, 2 * proof.z_s2@, 2 * proof.z_r2@) == (pow_mod(proof.r4@, 2, n2) * pow_mod(
        com.c4@,
        2 * e,
        n2,
    )) % n2
}

/// What the prover outputs: blinders `k` below `2^bits`, `R2, R4` from
/// them, and responses `z = k + e w` for the challenge `e`.
pub open spec fn cs_com_prover_output(params: CsCommitParams, com: CsCommitment, o: CsCommitOpening, bits: nat, proof: CsComProof) -> bool {
    exists|ks1: nat, kr1: nat, ks2: nat, kr2: nat|
        #![trigger df_pair(params, ks1, kr1), df_pair(params, ks2, kr2)]
        ks1 < pow2(bits) && kr1 < pow2(bits) && ks2 < pow2(bits) && kr2 < pow2(bits)
            && proof.r2@ == df_pair(params, ks1, kr1) && proof.r4@ == df_pair(params, ks2, kr2) && {
            let e = cs_com_challenge(params, com, proof.r2@, proof.r4@);
            &&& proof.z_s1@ == ks1 + e * o.s1@
            &&& proof.z_r1@ == kr1 + e * o.r1@
            &&& proof.z_s2@ == ks2 + e * o.s2@
            &&& proof.z_r2@ == kr2 + e * o.r2@
        }
}

/// The random part `C2`, `C4` of `com` opens with `o`.
pub open spec fn cs_com_opening_holds(params: CsCommitParams, com: CsCommitment, o: CsCommitOpening) -> bool {
    &&& com.c2@ == apply_sign_spec(df_pair(params, o.s1@, o.r1@), o.b1, params.n2@)
    &&& com.c4@ == apply_sign_spec(df_pair(params, o.s2@, o.r2@), o.b2, params.n2@)
}

/// One squared equation of the opening proof holds for honest responses.
proof fn lemma_cs_com_equation(params: CsCommitParams, c: nat, s: nat, r: nat, sign: i8, ks: nat, kr: nat, e: nat, zs: nat, zr: nat, big_r: nat)
    requires
        params.n2@ > 0,
        pm_one(sign),
        c == apply_sign_spec(df_pair(params, s, r), sign, params.n2@),
        big_r == df_pair(params, ks, kr),
        zs == ks + e * s,
        zr == kr + e * r,
    ensures
        df_pair(params, 2 * zs, 2 * zr) == (pow_mod(big_r, 2, params.n2@) * pow_mod(c, 2 * e, params.n2@))
            % params.n2@,
{
    let n2 = params.n2@;
    let gp = params.g_prime@;
    let hp = params.h_prime@;
    let p = df_pair(params, s, r);
    assert(p < n2) by {
        vstd::arithmetic::div_mod::lemma_mod_bound((pow_mod(gp, s, n2) * pow_mod(hp, r, n2)) as int, n2 as int);
    }
    lemma_signed_even_pow(p, sign, e, n2);
    crate::powmod::lemma_pair_pow_pow(gp, hp, s, r, 2 * e, n2);
    crate::powmod::lemma_pair_pow_pow(gp, hp, ks, kr, 2, n2);
    crate::powmod::lemma_pair_pow_mul(gp, hp, ks * 2, kr * 2, s * (2 * e), r * (2 * e), n2);
    assert(2 * zs == ks * 2 + s * (2 * e)) by (nonlinear_arith)
        requires
            zs == ks + e * s,
    ;
    assert(2 * zr == kr * 2 + r * (2 * e)) by (nonlinear_arith)
        requires
            zr == kr + e * r,
    ;
}

/// Completeness of the opening proof: responses computed honestly from a
/// valid opening satisfy the verification equations.
pub proof fn lemma_cs_com_complete(params: CsCommitParams, com: CsCommitment, o: CsCommitOpening, bits: nat, proof: CsComProof)
    requires
        params.n2@ > 0,
        pm_one(o.b1),
        pm_one(o.b2),
        cs_com_opening_holds(params, com, o),
        cs_com_prover_output(params, com, o, bits, proof),
    ensures
        cs_com_accepts(params, com, proof),
{
    let (ks1, kr1, ks2, kr2) = choose|ks1: nat, kr1: nat, ks2: nat, kr2: nat|
        #![trigger df_pair(params, ks1, kr1), df_pair(params, ks2, kr2)]
        ks1 < pow2(bits) && kr1 < pow2(bits) && ks2 < pow2(bits) && kr2 < pow2(bits)
            && proof.r2@ == df_pair(params, ks1, kr1) && proof.r4@ == df_pair(params, ks2, kr2) && {
            let e = cs_com_challenge(params, com, proof.r2@, proof.r4@);
            &&& proof.z_s1@ == ks1 + e * o.s1@
            &&& proof.z_r1@ == kr1 + e * o.r1@
            &&& proof.z_s2@ == ks2 + e * o.s2@
            &&& proof.z_r2@ == kr2 + e * o.r2@
        };
    let e = cs_com_challenge(params, com, proof.r2@, proof.r4@);
    lemma_cs_com_equation(params, com.c2@, o.s1@, o.r1@, o.b1, ks1, kr1, e, proof.z_s1@, proof.z_r1@, proof.r2@);
    lemma_cs_com_equation(params, com.c4@, o.s2@, o.r2@, o.b2, ks2, kr2, e, proof.z_s2@, proof.z_r2@, proof.r4@);
}

/// The opening-proof challenge, computed.
fn fs_challenge_for_cs_com(params: &CsCommitParams, com: &CsCommitment, r2: &Nat, r4: &Nat) -> (e: Nat)
    ensures
        e@ == cs_com_challenge(*params, *com, r2@, r4@),
{
    let vals: [&Nat; 7] = [&params.n, &params.g_prime, &params.h_prime, &com.c2, &com.c4, r2, r4];
    proof {
        assert(vals@.map_values(|v: &Nat| v@) =~= seq![params.n@, params.g_prime@, params.h_prime@, com.c2@, com.c4@, r2@, r4@]);
    }
    fiat_shamir_challenge_biguints(&vals)
}

/// ProveComCS: proves knowledge of an opening `(s1, r1, s2, r2)` and signs
/// `b1, b2` with `C2 = b1 g'^s1 h'^r1` and `C4 = b2 g'^s2 h'^r2`. Blinders
/// are drawn below `2^(B + 2 lambda + 256)`; the responses are integers
/// `z = k + e w`, not reduced.
///
/// Fails when a sign is not `-1` or `+1`, when the opening does not match
/// the commitment, or when the blinding length cannot be derived.
pub fn prove_cs_com(params: &CsCommitParams, commitment: &CsCommitment, opening: &CsCommitOpening) -> (r:
    CryptoResult<CsComProof>)
    requires
        params.n2@ > 0,
    ensures
        r is Ok <==> pm_one(opening.b1) && pm_one(opening.b2) && cs_com_opening_holds(
            *params,
            *commitment,
            *opening,
        ) && blinding_ok(*params, 256),
        r matches Err(e) ==> e is InvalidInput,
        r matches Ok(p) ==> cs_com_prover_output(
            *params,
            *commitment,
            *opening,
            blinding_bits_spec(*params, 256) as nat,
            p,
        ) && cs_com_accepts(*params, *commitment, p),
{
    if !is_pm_one(opening.b1) || !is_pm_one(opening.b2) {
        return Err(CryptoError::InvalidInput("b1 and b2 must be in {-1, +1}"));
    }
    let c2_unsigned = df_pair_exec(params, &opening.s1, &opening.r1);
    let c2_expected = match apply_sign_mod_n2(&c2_unsigned, opening.b1, &params.n2) {
        Ok(v) => v,
        Err(e) => return Err(e),
    };
    if !big_eq(&c2_expected, &commitment.c2) {
        return Err(CryptoError::InvalidInput("opening does not satisfy C2 equation"));
    }
    let c4_unsigned = df_pair_exec(params, &opening.s2, &opening.r2);
    let c4_expected = match apply_sign_mod_n2(&c4_unsigned, opening.b2, &params.n2) {
        Ok(v) => v,
        Err(e) => return Err(e),
    };
    if !big_eq(&c4_expected, &commitment.c4) {
        return Err(CryptoError::InvalidInput("opening does not satisfy C4 equation"));
    }
    let blind_bits = match derive_blinding_bits(params, 256) {
        Ok(v) => v,
        Err(e) => return Err(e),
    };
    let k_s1 = random_bits(blind_bits);
    let k_r1 = random_bits(blind_bits);
    let k_s2 = random_bits(blind_bits);
    let k_r2 = random_bits(blind_bits);
    let r2 = df_pair_exec(params, &k_s1, &k_r1);
    let r4 = df_pair_exec(params, &k_s2, &k_r2);
    let e = fs_challenge_for_cs_com(params, commitment, &r2, &r4);
    let z_s1 = big_add(&k_s1, &big_mul(&e, &opening.s1));
    let z_r1 = big_add(&k_r1, &big_mul(&e, &opening.r1));
    let z_s2 = big_add(&k_s2, &big_mul(&e, &opening.s2));
    let z_r2 = big_add(&k_r2, &big_mul(&e, &opening.r2));
    let proof = CsComProof { r2, r4, z_s1, z_r1, z_s2, z_r2 };
    proof {
        let bits = blinding_bits_spec(*params, 256) as nat;
        assert(df_pair(*params, k_s1@, k_r1@) == proof.r2@ && df_pair(*params, k_s2@, k_r2@) == proof.r4@);
        assert(cs_com_prover_output(*params, *commitment, *opening, bits, proof));
        lemma_cs_com_complete(*params, *commitment, *opening, bits, proof);
    }
    Ok(proof)
}

/// VerifyComCS: recomputes `e` and checks
/// `g'^(2 z_s1) h'^(2 z_r1) == R2^2 C2^(2e)` and
/// `g'^(2 z_s2) h'^(2 z_r2) == R4^2 C4^(2e)` modulo `n^2`.
///
/// Fails when `n^2` is zero.
pub fn verify_cs_com(params: &CsCommitParams, commitment: &CsCommitment, proof: &CsComProof) -> (r:
    CryptoResult<bool>)
    ensures
        r is Err <==> params.n2@ == 0,
        r is Err ==> r == Err::<bool, CryptoError>(verifier_error(params.n2@)),
        r matches Ok(b) ==> b == cs_com_accepts(*params, *commitment, *proof),
        r == Ok::<bool, CryptoError>(true) ==> ({
            let n2 = (*params).n2@;
            let e = cs_com_challenge((*params), (*commitment), (*proof).r2@, (*proof).r4@);
            &&& (pow_mod((*params).g_prime@, 2 * (*proof).z_s1@, n2) * pow_mod((*params).h_prime@, 2 * (*proof).z_r1@, n2)) % n2 == (pow_mod((*proof).r2@, 2, n2) * pow_mod((*commitment).c2@, 2 * e, n2)) % n2
            &&& (pow_mod((*params).g_prime@, 2 * (*proof).z_s2@, n2) * pow_mod((*params).h_prime@, 2 * (*proof).z_r2@, n2)) % n2 == (pow_mod((*proof).r4@, 2, n2) * pow_mod((*commitment).c4@, 2 * e, n2)) % n2
        }),
{
    if big_is_zero(&params.n2) {
        return Err(CryptoError::InvalidInput("n^2 must be non-zero"));
    }
    let n2 = &params.n2;
    let e = fs_challenge_for_cs_com(params, commitment, &proof.r2, &proof.r4);
    let two = Nat::from_u64(2);
    let two_e = big_mul(&two, &e);
    let lhs_1 = df_pair_exec(params, &big_mul(&two, &proof.z_s1), &big_mul(&two, &proof.z_r1));
    let rhs_1 = big_rem(&big_mul(&big_modpow(&proof.r2, &two, n2), &big_modpow(&commitment.c2, &two_e, n2)), n2);
    let lhs_2 = df_pair_exec(params, &big_mul(&two, &proof.z_s2), &big_mul(&two, &proof.z_r2));
    let rhs_2 = big_rem(&big_mul(&big_modpow(&proof.r4, &two, n2), &big_modpow(&commitment.c4, &two_e, n2)), n2);
    Ok(big_eq(&lhs_1, &rhs_1) && big_eq(&lhs_2, &rhs_2))
}

// ---------------------------------------------------------------------------
// Opening to a public ciphertext.
// ---------------------------------------------------------------------------

/// `g^k mod n^2`.
pub open spec fn g_pow(params: CsCommitParams, k: nat) -> nat {
    pow_mod(params.g@, k, params.n2@)
}

/// Challenge of the ciphertext-opening proof:
/// `H(n, g, g', h', C1, C2, C3, C4, u, v, R1, R2, R3, R4)`.
pub open spec fn cs_com_ct_challenge(params: CsCommitParams, com: CsCommitment, u: nat, v: nat, p: CsComCtProof) -> nat {
    challenge_of(
        seq![params.n@, params.g@, params.g_prime@, params.h_prime@, com.c1@, com.c2@, com.c3@, com.c4@, u, v, p.r1@, p.r2@, p.r3@, p.r4@],
    )
}

/// `C^2 / x^2 mod n^2`: the value part with the public component divided out.
pub open spec fn strip_component(c: nat, x: nat, n2: nat) -> nat {
    (pow_mod(c, 2, n2) * inv_mod(pow_mod(x, 2, n2), n2)) % n2
}

/// The four squared equations of the ciphertext-opening proof, with
/// `u = x0.c0 mod n^2` and `v = x0.c1 mod n^2`.
pub open spec fn cs_com_ct_accepts(params: CsCommitParams, com: CsCommitment, u: nat, v: nat, p: CsComCtProof) -> bool {
    let n2 = params.n2@;
    let e = cs_com_ct_challenge(params, com, u, v, p);
    let a1 = strip_component(com.c1@, u, n2);
    let a3 = strip_component(com.c3@, v, n2);
    &&& g_pow(params, 2 * p.z_s1@) == (pow_mod(p.r1@, 2, n2) * pow_mod(a1, e, n2)) % n2
    &&& df_pair(params, 2 * p.z_s1@, 2 * p.z_r1@) == (pow_mod(p.r2@, 2, n2) * pow_mod(com.c2@, 2 * e, n2)) % n2
    &&& g_pow(params, 2 * p.z_s2@) == (pow_mod(p.r3@, 2, n2) * pow_mod(a3, e, n2)) % n2
    &&& df_pair(params, 2 * p.z_s2@, 2 * p.z_r2@) == (pow_mod(p.r4@, 2, n2) * pow_mod(com.c4@, 2 * e, n2)) % n2
}

/// What the prover of the ciphertext opening outputs.
pub open spec fn cs_com_ct_prover_output(params: CsCommitParams, com: CsCommitment, u: nat, v: nat, o: CsCommitOpening, bits: nat, p: CsComCtProof) -> bool {
    exists|ks1: nat, kr1: nat, ks2: nat, kr2: nat|
        #![trigger df_pair(params, ks1, kr1), df_pair(params, ks2, kr2)]
        ks1 < pow2(bits) && kr1 < pow2(bits) && ks2 < pow2(bits) && kr2 < pow2(bits) && p.r1@ == g_pow(
            params,
            ks1,
        ) && p.r2@ == df_pair(params, ks1, kr1) && p.r3@ == g_pow(params, ks2) && p.r4@ == df_pair(
            params,
            ks2,
            kr2,
        ) && {
            let e = cs_com_ct_challenge(params, com, u, v, p);
            &&& p.z_s1@ == ks1 + e * o.s1@
            &&& p.z_r1@ == kr1 + e * o.r1@
            &&& p.z_s2@ == ks2 + e * o.s2@
            &&& p.z_r2@ == kr2 + e * o.r2@
        }
}

/// One squared `g`-check of the ciphertext-opening proof holds for honest
/// values: with `C = a u g^s`, `(C^2 / u^2)^e (g^k)^2 == g^(2(k + e s))`.
proof fn lemma_com_ct_g_equation(params: CsCommitParams, c: nat, u: nat, s: nat, sign: i8, ks: nat, e: nat, zs: nat, big_r: nat)
    requires
        params.n2@ > 1,
        u < params.n2@,
        spec_gcd(params.n2@, u) == 1,
        pm_one(sign),
        c == apply_sign_spec((u * pow_mod(params.g@, s, params.n2@)) % params.n2@, sign, params.n2@),
        big_r == g_pow(params, ks),
        zs == ks + e * s,
    ensures
        g_pow(params, 2 * zs) == (pow_mod(big_r, 2, params.n2@) * pow_mod(strip_component(c, u, params.n2@), e, params.n2@))
            % params.n2@,
{
    let n2 = params.n2@;
    let g = params.g@;
    let gs = pow_mod(g, s, n2);
    let x = (u * gs) % n2;
    vstd::arithmetic::div_mod::lemma_mod_bound((u * gs) as int, n2 as int);
    lemma_signed_even_pow(x, sign, 1, n2);
    crate::powmod::lemma_pow_mod_product(u, gs, 2, n2);
    crate::powmod::lemma_pow_mod_mul(g, s, 2, n2);
    let u2 = pow_mod(u, 2, n2);
    let g2 = pow_mod(g, s * 2, n2);
    crate::math::lemma_inv_mod_exists(u, n2);
    vstd::arithmetic::div_mod::lemma_small_mod(1, n2);
    crate::powmod::lemma_unit_pow(u, inv_mod(u, n2), 2, n2);
    crate::math::lemma_inverse_gives_coprime(u2, pow_mod(inv_mod(u, n2), 2, n2), n2);
    crate::math::lemma_inv_mod_exists(u2, n2);
    crate::pok::lemma_cancel_inverse(u2, g2, inv_mod(u2, n2), n2);
    crate::powmod::lemma_pow_mod_bound(g, s * 2, n2);
    vstd::arithmetic::div_mod::lemma_small_mod(g2, n2);
    assert(strip_component(c, u, n2) == g2);
    crate::powmod::lemma_pow_mod_mul(g, s * 2, e, n2);
    crate::powmod::lemma_pow_mod_mul(g, ks, 2, n2);
    crate::powmod::lemma_pow_mod_add(g, ks * 2, (s * 2) * e, n2);
    assert(ks * 2 + (s * 2) * e == 2 * zs) by (nonlinear_arith)
        requires
            zs == ks + e * s,
    ;
}

/// Completeness of the ciphertext-opening proof: when `com` commits to the
/// reduced ciphertext `(u, v)` under a valid opening and `u, v` are units,
/// the proof that the prover outputs is accepted.
pub proof fn lemma_cs_com_ct_complete(params: CsCommitParams, com: CsCommitment, u: nat, v: nat, o: CsCommitOpening, bits: nat, p: CsComCtProof)
    requires
        params.n2@ > 1,
        u < params.n2@,
        v < params.n2@,
        spec_gcd(params.n2@, u) == 1,
        spec_gcd(params.n2@, v) == 1,
        pm_one(o.a1) && pm_one(o.b1) && pm_one(o.a2) && pm_one(o.b2),
        is_commitment_of(params, (u, v), o, com),
        cs_com_ct_prover_output(params, com, u, v, o, bits, p),
    ensures
        cs_com_ct_accepts(params, com, u, v, p),
{
    let (ks1, kr1, ks2, kr2) = choose|ks1: nat, kr1: nat, ks2: nat, kr2: nat|
        #![trigger df_pair(params, ks1, kr1), df_pair(params, ks2, kr2)]
        ks1 < pow2(bits) && kr1 < pow2(bits) && ks2 < pow2(bits) && kr2 < pow2(bits) && p.r1@ == g_pow(
            params,
            ks1,
        ) && p.r2@ == df_pair(params, ks1, kr1) && p.r3@ == g_pow(params, ks2) && p.r4@ == df_pair(
            params,
            ks2,
            kr2,
        ) && {
            let e = cs_com_ct_challenge(params, com, u, v, p);
            &&& p.z_s1@ == ks1 + e * o.s1@
            &&& p.z_r1@ == kr1 + e * o.r1@
            &&& p.z_s2@ == ks2 + e * o.s2@
            &&& p.z_r2@ == kr2 + e * o.r2@
        };
    let e = cs_com_ct_challenge(params, com, u, v, p);
    lemma_com_ct_g_equation(params, com.c1@, u, o.s1@, o.a1, ks1, e, p.z_s1@, p.r1@);
    lemma_com_ct_g_equation(params, com.c3@, v, o.s2@, o.a2, ks2, e, p.z_s2@, p.r3@);
    lemma_cs_com_equation(params, com.c2@, o.s1@, o.r1@, o.b1, ks1, kr1, e, p.z_s1@, p.z_r1@, p.r2@);
    lemma_cs_com_equation(params, com.c4@, o.s2@, o.r2@, o.b2, ks2, kr2, e, p.z_s2@, p.z_r2@, p.r4@);
}

/// The ciphertext-opening challenge, computed.
fn fs_challenge_for_cs_com_ct(params: &CsCommitParams, com: &CsCommitment, u: &Nat, v: &Nat, r1: &Nat, r2: &Nat, r3: &Nat, r4: &Nat) -> (e: Nat)
    ensures
        e@ == challenge_of(
            seq![params.n@, params.g@, params.g_prime@, params.h_prime@, com.c1@, com.c2@, com.c3@, com.c4@, u@, v@, r1@, r2@, r3@, r4@],
        ),
{
    let vals: [&Nat; 14] = [&params.n, &params.g, &params.g_prime, &params.h_prime, &com.c1, &com.c2, &com.c3, &com.c4, u, v, r1, r2, r3, r4];
    proof {
        assert(vals@.map_values(|x: &Nat| x@) =~= seq![params.n@, params.g@, params.g_prime@, params.h_prime@, com.c1@, com.c2@, com.c3@, com.c4@, u@, v@, r1@, r2@, r3@, r4@]);
    }
    fiat_shamir_challenge_biguints(&vals)
}

/// Proves that `commitment` opens to the public ciphertext `x0 = (u, v)`:
/// `C1 = ±u g^s1`, `C2 = ±g'^s1 h'^r1`, `C3 = ±v g^s2`, `C4 = ±g'^s2 h'^r2`,
/// tying the value components to the same `s1, s2` as the random ones.
///
/// Fails when a sign is not `-1` or `+1`, when the opening does not open
/// the commitment to `x0`, or when the blinding length cannot be derived.
pub fn prove_cs_com_ciphertext(params: &CsCommitParams, commitment: &CsCommitment, x0: &CsCiphertext, opening: &CsCommitOpening) -> (r:
    CryptoResult<CsComCtProof>)
    requires
        params.n2@ > 0,
    ensures
        r is Ok <==> pm_one(opening.a1) && pm_one(opening.b1) && pm_one(opening.a2) && pm_one(opening.b2)
            && is_commitment_of(*params, (x0.c0@ % params.n2@, x0.c1@ % params.n2@), *opening, *commitment)
            && blinding_ok(*params, 256),
        r matches Err(e) ==> e is InvalidInput,
        r matches Ok(p) ==> cs_com_ct_prover_output(
            *params,
            *commitment,
            x0.c0@ % params.n2@,
            x0.c1@ % params.n2@,
            *opening,
            blinding_bits_spec(*params, 256) as nat,
            p,
        ),
        r matches Ok(p) ==> (params.n2@ > 1 && spec_gcd(params.n2@, x0.c0@ % params.n2@) == 1 && spec_gcd(
            params.n2@,
            x0.c1@ % params.n2@,
        ) == 1 ==> cs_com_ct_accepts(*params, *commitment, x0.c0@ % params.n2@, x0.c1@ % params.n2@, p)),
{
    if !is_pm_one(opening.a1) || !is_pm_one(opening.b1) || !is_pm_one(opening.a2) || !is_pm_one(opening.b2) {
        return Err(CryptoError::InvalidInput("signs must be in {-1,+1}"));
    }
    let n2 = &params.n2;
    let u = big_rem(&x0.c0, n2);
    let v = big_rem(&x0.c1, n2);
    let x0_reduced = CsCiphertext { c0: u.copy(), c1: v.copy() };
    let expected = match commit_cs_with_opening(params, &x0_reduced, opening) {
        Ok(c) => c,
        Err(e) => return Err(e),
    };
    if !big_eq(&expected.c1, &commitment.c1) || !big_eq(&expected.c2, &commitment.c2) || !big_eq(&expected.c3, &commitment.c3)
        || !big_eq(&expected.c4, &commitment.c4) {
        return Err(CryptoError::InvalidInput("opening does not open C to x0"));
    }
    let blind_bits = match derive_blinding_bits(params, 256) {
        Ok(v) => v,
        Err(e) => return Err(e),
    };
    let k_s1 = random_bits(blind_bits);
    let k_r1 = random_bits(blind_bits);
    let k_s2 = random_bits(blind_bits);
    let k_r2 = random_bits(blind_bits);
    let r1 = big_modpow(&params.g, &k_s1, n2);
    let r2 = df_pair_exec(params, &k_s1, &k_r1);
    let r3 = big_modpow(&params.g, &k_s2, n2);
    let r4 = df_pair_exec(params, &k_s2, &k_r2);
    let e = fs_challenge_for_cs_com_ct(params, commitment, &u, &v, &r1, &r2, &r3, &r4);
    let proof = CsComCtProof {
        r1,
        r2,
        r3,
        r4,
        z_s1: big_add(&k_s1, &big_mul(&e, &opening.s1)),
        z_r1: big_add(&k_r1, &big_mul(&e, &opening.r1)),
        z_s2: big_add(&k_s2, &big_mul(&e, &opening.s2)),
        z_r2: big_add(&k_r2, &big_mul(&e, &opening.r2)),
    };
    proof {
        assert(df_pair(*params, k_s1@, k_r1@) == proof.r2@ && df_pair(*params, k_s2@, k_r2@) == proof.r4@);
        let bits = blinding_bits_spec(*params, 256) as nat;
        let uu = x0.c0@ % params.n2@;
        let vv = x0.c1@ % params.n2@;
        assert(cs_com_ct_prover_output(*params, *commitment, uu, vv, *opening, bits, proof));
        if params.n2@ > 1 && spec_gcd(params.n2@, uu) == 1 && spec_gcd(params.n2@, vv) == 1 {
            vstd::arithmetic::div_mod::lemma_mod_bound(x0.c0@ as int, params.n2@ as int);
            vstd::arithmetic::div_mod::lemma_mod_bound(x0.c1@ as int, params.n2@ as int);
            lemma_cs_com_ct_complete(*params, *commitment, uu, vv, *opening, bits, proof);
        }
    }
    Ok(proof)
}

/// When the ciphertext-opening verifier fails: `n^2` is zero, or both
/// reduced components are units while a square of one is not invertible.
pub open spec fn cs_com_ct_fails(params: CsCommitParams, x0: (nat, nat)) -> bool {
    let n2 = params.n2@;
    let u = x0.0 % n2;
    let v = x0.1 % n2;
    let units = spec_gcd(u, n2) == 1 && spec_gcd(v, n2) == 1;
    n2 == 0 || (units && (spec_gcd(n2, pow_mod(u, 2, n2)) != 1 || spec_gcd(n2, pow_mod(v, 2, n2)) != 1))
}

/// Verifies that `commitment` opens to the public ciphertext `x0`: with
/// `u = x0.c0`, `v = x0.c1` reduced modulo `n^2`, `A1 = C1^2 / u^2` and
/// `A3 = C3^2 / v^2`, checks `g^(2 z_s1) == R1^2 A1^e`,
/// `g'^(2 z_s1) h'^(2 z_r1) == R2^2 C2^(2e)`, `g^(2 z_s2) == R3^2 A3^e` and
/// `g'^(2 z_s2) h'^(2 z_r2) == R4^2 C4^(2e)`. A component that is not a
/// unit modulo `n^2` makes the answer `false`.
pub fn verify_cs_com_ciphertext(params: &CsCommitParams, commitment: &CsCommitment, x0: &CsCiphertext, proof: &CsComCtProof) -> (r:
    CryptoResult<bool>)
    ensures
        r is Err <==> cs_com_ct_fails(*params, x0@),
        ({
            let n2 = params.n2@;
            let u = x0.c0@ % n2;
            let v = x0.c1@ % n2;
            let units = spec_gcd(u, n2) == 1 && spec_gcd(v, n2) == 1;
            r matches Ok(b) ==> b == (units && cs_com_ct_accepts(*params, *commitment, u, v, *proof))
        }),
        params.n2@ == 0 ==> r == Err::<bool, CryptoError>(CryptoError::InvalidInput("n^2 must be non-zero")),
        params.n2@ > 0 && r is Err ==> r == Err::<bool, CryptoError>(CryptoError::ModularInverseUnavailable),
        r == Ok::<bool, CryptoError>(true) ==> ({
            let u = x0.c0@ % params.n2@;
            let v = x0.c1@ % params.n2@;
            &&& spec_gcd(u, params.n2@) == 1 && spec_gcd(v, params.n2@) == 1
            &&& {
            let n2 = (*params).n2@;
            let e = cs_com_ct_challenge((*params), (*commitment), u, v, (*proof));
            let a1 = (pow_mod((*commitment).c1@, 2, n2) * inv_mod(pow_mod(u, 2, n2), n2)) % n2;
            let a3 = (pow_mod((*commitment).c3@, 2, n2) * inv_mod(pow_mod(v, 2, n2), n2)) % n2;
            &&& pow_mod((*params).g@, 2 * (*proof).z_s1@, n2) == (pow_mod((*proof).r1@, 2, n2) * pow_mod(a1, e, n2)) % n2
            &&& (pow_mod((*params).g_prime@, 2 * (*proof).z_s1@, n2) * pow_mod((*params).h_prime@, 2 * (*proof).z_r1@, n2)) % n2 == (pow_mod((*proof).r2@, 2, n2) * pow_mod((*commitment).c2@, 2 * e, n2)) % n2
            &&& pow_mod((*params).g@, 2 * (*proof).z_s2@, n2) == (pow_mod((*proof).r3@, 2, n2) * pow_mod(a3, e, n2)) % n2
            &&& (pow_mod((*params).g_prime@, 2 * (*proof).z_s2@, n2) * pow_mod((*params).h_prime@, 2 * (*proof).z_r2@, n2)) % n2 == (pow_mod((*proof).r4@, 2, n2) * pow_mod((*commitment).c4@, 2 * e, n2)) % n2
            }
        }),
{
    let n2 = &params.n2;
    if big_is_zero(n2) {
        return Err(CryptoError::InvalidInput("n^2 must be non-zero"));
    }
    let u = big_rem(&x0.c0, n2);
    let v = big_rem(&x0.c1, n2);
    let one = Nat::one();
    if !big_eq(&gcd(u.copy(), n2.copy()), &one) || !big_eq(&gcd(v.copy(), n2.copy()), &one) {
        return Ok(false);
    }
    let two = Nat::from_u64(2);
    let e = fs_challenge_for_cs_com_ct(params, commitment, &u, &v, &proof.r1, &proof.r2, &proof.r3, &proof.r4);
    let two_e = big_mul(&two, &e);
    let u_inv = match modinv(&big_modpow(&u, &two, n2), n2) {
        Ok(x) => x,
        Err(err) => return Err(err),
    };
    let v_inv = match modinv(&big_modpow(&v, &two, n2), n2) {
        Ok(x) => x,
        Err(err) => return Err(err),
    };
    let a1 = big_rem(&big_mul(&big_modpow(&commitment.c1, &two, n2), &u_inv), n2);
    let a3 = big_rem(&big_mul(&big_modpow(&commitment.c3, &two, n2), &v_inv), n2);
    let ok1 = big_eq(
        &big_modpow(&params.g, &big_mul(&two, &proof.z_s1), n2),
        &big_rem(&big_mul(&big_modpow(&proof.r1, &two, n2), &big_modpow(&a1, &e, n2)), n2),
    );
    let ok2 = big_eq(
        &df_pair_exec(params, &big_mul(&two, &proof.z_s1), &big_mul(&two, &proof.z_r1)),
        &big_rem(&big_mul(&big_modpow(&proof.r2, &two, n2), &big_modpow(&commitment.c2, &two_e, n2)), n2),
    );
    let ok3 = big_eq(
        &big_modpow(&params.g, &big_mul(&two, &proof.z_s2), n2),
        &big_rem(&big_mul(&big_modpow(&proof.r3, &two, n2), &big_modpow(&a3, &e, n2)), n2),
    );
    let ok4 = big_eq(
        &df_pair_exec(params, &big_mul(&two, &proof.z_s2), &big_mul(&two, &proof.z_r2)),
        &big_rem(&big_mul(&big_modpow(&proof.r4, &two, n2), &big_modpow(&commitment.c4, &two_e, n2)), n2),
    );
    Ok(ok1 && ok2 && ok3 && ok4)
}

// ---------------------------------------------------------------------------
// Signed-exponent helpers shared by the addition, multiplication and
// encryption proofs.
// ---------------------------------------------------------------------------

/// `g', h'` and `g` are units modulo `n^2`, so that every signed power of
/// them is defined.
pub open spec fn commit_bases_units(params: CsCommitParams) -> bool {
    &&& spec_gcd(params.n2@, params.g@) == 1
    &&& spec_gcd(params.n2@, params.g_prime@) == 1
    &&& spec_gcd(params.n2@, params.h_prime@) == 1
}

/// `g'^a h'^b mod n^2` for integer exponents.
pub open spec fn sp_pair(params: CsCommitParams, a: int, b: int) -> nat {
    (signed_pow(params.g_prime@, a, params.n2@) * signed_pow(params.h_prime@, b, params.n2@)) % params.n2@
}

/// `g'^a h'^b` is defined.
pub open spec fn sp_pair_ok(params: CsCommitParams, a: int, b: int) -> bool {
    signed_pow_ok(params.g_prime@, a, params.n2@) && signed_pow_ok(params.h_prime@, b, params.n2@)
}

/// `x^a y^b mod m` for integer exponents.
pub open spec fn sp2(x: nat, a: int, y: nat, b: int, m: nat) -> nat {
    (signed_pow(x, a, m) * signed_pow(y, b, m)) % m
}

/// `x^a y^b z^c mod m` for integer exponents, multiplied left to right.
pub open spec fn sp3(x: nat, a: int, y: nat, b: int, z: nat, c: int, m: nat) -> nat {
    ((signed_pow(x, a, m) * signed_pow(y, b, m)) * signed_pow(z, c, m)) % m
}

/// `x^a y^b mod m`, computed.
pub(crate) fn sp2_exec(x: &Nat, a: &Int, y: &Nat, b: &Int, m: &Nat) -> (r: CryptoResult<Nat>)
    requires
        m@ > 0,
    ensures
        r is Ok <==> signed_pow_ok(x@, a@, m@) && signed_pow_ok(y@, b@, m@),
        r matches Ok(v) ==> v@ == sp2(x@, a@, y@, b@, m@),
        r matches Err(e) ==> e == CryptoError::ModularInverseUnavailable,
{
    let xa = match modpow_signed(x, a, m) {
        Ok(v) => v,
        Err(e) => return Err(e),
    };
    let yb = match modpow_signed(y, b, m) {
        Ok(v) => v,
        Err(e) => return Err(e),
    };
    Ok(big_rem(&big_mul(&xa, &yb), m))
}

/// `x^a y^b z^c mod m`, computed.
fn sp3_exec(x: &Nat, a: &Int, y: &Nat, b: &Int, z: &Nat, c: &Int, m: &Nat) -> (r: CryptoResult<Nat>)
    requires
        m@ > 0,
    ensures
        r is Ok <==> signed_pow_ok(x@, a@, m@) && signed_pow_ok(y@, b@, m@) && signed_pow_ok(z@, c@, m@),
        r matches Ok(v) ==> v@ == sp3(x@, a@, y@, b@, z@, c@, m@),
        r matches Err(e) ==> e == CryptoError::ModularInverseUnavailable,
{
    let xa = match modpow_signed(x, a, m) {
        Ok(v) => v,
        Err(e) => return Err(e),
    };
    let yb = match modpow_signed(y, b, m) {
        Ok(v) => v,
        Err(e) => return Err(e),
    };
    let zc = match modpow_signed(z, c, m) {
        Ok(v) => v,
        Err(e) => return Err(e),
    };
    Ok(big_rem(&big_mul(&big_mul(&xa, &yb), &zc), m))
}

/// `(x^2 * y^(2e)) mod m`: the right-hand side of every squared check.
pub open spec fn sq_rhs(x: nat, y: nat, e: nat, m: nat) -> nat {
    (pow_mod(x, 2, m) * pow_mod(y, 2 * e, m)) % m
}

/// `(x^2 * y^(2e)) mod m`, computed.
pub(crate) fn sq_rhs_exec(x: &Nat, y: &Nat, e: &Nat, m: &Nat) -> (r: Nat)
    requires
        m@ > 0,
    ensures
        r@ == sq_rhs(x@, y@, e@, m@),
{
    let two = Nat::from_u64(2);
    big_rem(&big_mul(&big_modpow(x, &two, m), &big_modpow(y, &big_mul(&two, e), m)), m)
}

/// Twice an integer.
pub(crate) fn twice(z: &Int) -> (r: Int)
    ensures
        r@ == 2 * z@,
{
    z.mul(&Int::from_i64(2))
}

/// The integer `v`, as a response witness.
fn int_of(v: &Nat) -> (r: Int)
    ensures
        r@ == v@ as int,
{
    Int::from_nat(v)
}

// ---------------------------------------------------------------------------
// Addition proof.
// ---------------------------------------------------------------------------

/// `D = Cc / (Ca Cb) mod n^2` for one component.
pub open spec fn add_relation_d(cc: nat, ca: nat, cb: nat, n2: nat) -> nat {
    ((cc % n2) * inv_mod(((ca * cb) % n2) % n2, n2)) % n2
}

/// The quotient `Cc / (Ca Cb)` of one component is defined.
pub open spec fn add_relation_ok(ca: nat, cb: nat, n2: nat) -> bool {
    spec_gcd(n2, ((ca * cb) % n2) % n2) == 1
}

/// All four quotients are defined.
pub open spec fn add_relation_all_ok(ca: CsCommitment, cb: CsCommitment, n2: nat) -> bool {
    &&& add_relation_ok(ca.c1@, cb.c1@, n2)
    &&& add_relation_ok(ca.c2@, cb.c2@, n2)
    &&& add_relation_ok(ca.c3@, cb.c3@, n2)
    &&& add_relation_ok(ca.c4@, cb.c4@, n2)
}

/// The four quotients `D_i = Cc_i / (Ca_i Cb_i) mod n^2`.
pub open spec fn add_relation_ds(ca: CsCommitment, cb: CsCommitment, cc: CsCommitment, n2: nat) -> (nat, nat, nat, nat) {
    (
        add_relation_d(cc.c1@, ca.c1@, cb.c1@, n2),
        add_relation_d(cc.c2@, ca.c2@, cb.c2@, n2),
        add_relation_d(cc.c3@, ca.c3@, cb.c3@, n2),
        add_relation_d(cc.c4@, ca.c4@, cb.c4@, n2),
    )
}

/// Computes `D_i = Cc_i / (Ca_i Cb_i) mod n^2` for the four components.
fn compute_add_relation_d(params: &CsCommitParams, ca: &CsCommitment, cb: &CsCommitment, cc: &CsCommitment) -> (r:
    CryptoResult<(Nat, Nat, Nat, Nat)>)
    requires
        params.n2@ > 0,
    ensures
        r is Ok <==> add_relation_all_ok(*ca, *cb, params.n2@),
        r matches Ok(d) ==> (d.0@, d.1@, d.2@, d.3@) == add_relation_ds(*ca, *cb, *cc, params.n2@),
        r matches Err(e) ==> e == CryptoError::ModularInverseUnavailable,
{
    let n2 = &params.n2;
    let den1 = big_rem(&big_mul(&ca.c1, &cb.c1), n2);
    let den2 = big_rem(&big_mul(&ca.c2, &cb.c2), n2);
    let den3 = big_rem(&big_mul(&ca.c3, &cb.c3), n2);
    let den4 = big_rem(&big_mul(&ca.c4, &cb.c4), n2);
    let d1 = match div_mod_n2(&cc.c1, &den1, n2) {
        Ok(v) => v,
        Err(e) => return Err(e),
    };
    let d2 = match div_mod_n2(&cc.c2, &den2, n2) {
        Ok(v) => v,
        Err(e) => return Err(e),
    };
    let d3 = match div_mod_n2(&cc.c3, &den3, n2) {
        Ok(v) => v,
        Err(e) => return Err(e),
    };
    let d4 = match div_mod_n2(&cc.c4, &den4, n2) {
        Ok(v) => v,
        Err(e) => return Err(e),
    };
    Ok((d1, d2, d3, d4))
}

/// Challenge of the addition proof:
/// `H(n, g, g', h', D1..D4, R'_1..R'_4)`.
pub open spec fn cs_add_challenge(params: CsCommitParams, d: (nat, nat, nat, nat), rp: (nat, nat, nat, nat)) -> nat {
    challenge_of(seq![params.n@, params.g@, params.g_prime@, params.h_prime@, d.0, d.1, d.2, d.3, rp.0, rp.1, rp.2, rp.3])
}

/// The addition-proof challenge, computed.
fn fs_challenge_for_cs_add(params: &CsCommitParams, d1: &Nat, d2: &Nat, d3: &Nat, d4: &Nat, rp1: &Nat, rp2: &Nat, rp3: &Nat, rp4: &Nat) -> (e: Nat)
    ensures
        e@ == cs_add_challenge(*params, (d1@, d2@, d3@, d4@), (rp1@, rp2@, rp3@, rp4@)),
{
    let vals: [&Nat; 12] = [&params.n, &params.g, &params.g_prime, &params.h_prime, d1, d2, d3, d4, rp1, rp2, rp3, rp4];
    proof {
        assert(vals@.map_values(|x: &Nat| x@) =~= seq![params.n@, params.g@, params.g_prime@, params.h_prime@, d1@, d2@, d3@, d4@, rp1@, rp2@, rp3@, rp4@]);
    }
    fiat_shamir_challenge_biguints(&vals)
}

/// The exponent differences `gamma = c - a - b` of an addition witness.
pub open spec fn add_gammas(oa: CsCommitOpening, ob: CsCommitOpening, oc: CsCommitOpening) -> (int, int, int, int) {
    (
        oc.s1@ - oa.s1@ - ob.s1@,
        oc.r1@ - oa.r1@ - ob.r1@,
        oc.s2@ - oa.s2@ - ob.s2@,
        oc.r2@ - oa.r2@ - ob.r2@,
    )
}

/// `+1` or `-1` as an element of `Z_{n^2}`.
pub open spec fn sign_elem(sign: i8, n2: nat) -> nat {
    apply_sign_spec(1, sign, n2)
}

/// The addition witness explains the quotients: with `beta` the product
/// of the three signs and `gamma` the exponent differences,
/// `D1 = beta1 g^gamma1`, `D2 = beta2 g'^gamma1 h'^gamma2`,
/// `D3 = beta3 g^gamma3`, `D4 = beta4 g'^gamma3 h'^gamma4`.
pub open spec fn add_witness_holds(params: CsCommitParams, ca: CsCommitment, cb: CsCommitment, cc: CsCommitment, oa: CsCommitOpening, ob: CsCommitOpening, oc: CsCommitOpening) -> bool {
    let n2 = params.n2@;
    let d = add_relation_ds(ca, cb, cc, n2);
    let gm = add_gammas(oa, ob, oc);
    &&& pm_one(oa.a1) && pm_one(oa.a2) && pm_one(oa.b1) && pm_one(oa.b2)
    &&& pm_one(ob.a1) && pm_one(ob.a2) && pm_one(ob.b1) && pm_one(ob.b2)
    &&& pm_one(oc.a1) && pm_one(oc.a2) && pm_one(oc.b1) && pm_one(oc.b2)
    &&& add_relation_all_ok(ca, cb, n2)
    &&& signed_pow_ok(params.g@, gm.0, n2) && sp_pair_ok(params, gm.0, gm.1)
    &&& signed_pow_ok(params.g@, gm.2, n2) && sp_pair_ok(params, gm.2, gm.3)
    &&& d.0 == (sign_elem((oc.a1 * oa.a1 * ob.a1) as i8, n2) * signed_pow(params.g@, gm.0, n2)) % n2
    &&& d.1 == ((sign_elem((oc.b1 * oa.b1 * ob.b1) as i8, n2) * signed_pow(params.g_prime@, gm.0, n2)) * signed_pow(params.h_prime@, gm.1, n2)) % n2
    &&& d.2 == (sign_elem((oc.a2 * oa.a2 * ob.a2) as i8, n2) * signed_pow(params.g@, gm.2, n2)) % n2
    &&& d.3 == ((sign_elem((oc.b2 * oa.b2 * ob.b2) as i8, n2) * signed_pow(params.g_prime@, gm.2, n2)) * signed_pow(params.h_prime@, gm.3, n2)) % n2
}

/// Blinders of `ell` bits are available: the blinding length derives and
/// `2^(ell + 1)` can be formed.
pub open spec fn symmetric_blinding_ok(params: CsCommitParams, lambda_c: nat) -> bool {
    blinding_ok(params, lambda_c) && blinding_bits_spec(params, lambda_c) < usize::MAX
}

/// `k` lies in `[-2^ell, 2^ell]`.
pub open spec fn in_sym(k: int, ell: nat) -> bool {
    -pow2(ell) <= k <= pow2(ell)
}

/// What the prover of an addition outputs: blinders `k` in
/// `[-2^ell, 2^ell]`, `R1 = g^k1`, `R2 = g'^k1 h'^k2`, `R3 = g^k3`,
/// `R4 = g'^k3 h'^k4`, the challenge over the quotients and the squares
/// `R'_i = R_i^2`, and responses `z_i = k_i - e gamma_i`.
pub open spec fn cs_add_prover_output(params: CsCommitParams, ca: CsCommitment, cb: CsCommitment, cc: CsCommitment, oa: CsCommitOpening, ob: CsCommitOpening, oc: CsCommitOpening, ell: nat, p: CsAddProof) -> bool {
    exists|k1: int, k2: int, k3: int, k4: int|
        #![trigger sp_pair(params, k1, k2), sp_pair(params, k3, k4)]
        in_sym(k1, ell) && in_sym(k2, ell) && in_sym(k3, ell) && in_sym(k4, ell) && {
            let n2 = params.n2@;
            let gm = add_gammas(oa, ob, oc);
            let rp = (
                pow_mod(signed_pow(params.g@, k1, n2), 2, n2),
                pow_mod(sp_pair(params, k1, k2), 2, n2),
                pow_mod(signed_pow(params.g@, k3, n2), 2, n2),
                pow_mod(sp_pair(params, k3, k4), 2, n2),
            );
            &&& p.e@ == cs_add_challenge(params, add_relation_ds(ca, cb, cc, n2), rp)
            &&& p.z1@ == k1 - p.e@ * gm.0
            &&& p.z2@ == k2 - p.e@ * gm.1
            &&& p.z3@ == k3 - p.e@ * gm.2
            &&& p.z4@ == k4 - p.e@ * gm.3
        }
}

/// The reconstructed squares `R'_i` of an addition proof:
/// `R'_1 = g^(2 z1) D1^(2e)`, `R'_2 = g'^(2 z1) h'^(2 z2) D2^(2e)`,
/// `R'_3 = g^(2 z3) D3^(2e)`, `R'_4 = g'^(2 z3) h'^(2 z4) D4^(2e)`.
pub open spec fn cs_add_reconstructed(params: CsCommitParams, d: (nat, nat, nat, nat), p: CsAddProof) -> (nat, nat, nat, nat) {
    let n2 = params.n2@;
    let two_e = 2 * p.e@;
    (
        (signed_pow(params.g@, 2 * p.z1@, n2) * pow_mod(d.0, two_e, n2)) % n2,
        ((signed_pow(params.g_prime@, 2 * p.z1@, n2) * signed_pow(params.h_prime@, 2 * p.z2@, n2)) * pow_mod(d.1, two_e, n2)) % n2,
        (signed_pow(params.g@, 2 * p.z3@, n2) * pow_mod(d.2, two_e, n2)) % n2,
        ((signed_pow(params.g_prime@, 2 * p.z3@, n2) * signed_pow(params.h_prime@, 2 * p.z4@, n2)) * pow_mod(d.3, two_e, n2)) % n2,
    )
}

/// The signed powers of the addition check are defined.
pub open spec fn cs_add_powers_ok(params: CsCommitParams, p: CsAddProof) -> bool {
    let n2 = params.n2@;
    &&& signed_pow_ok(params.g@, 2 * p.z1@, n2) && sp_pair_ok(params, 2 * p.z1@, 2 * p.z2@)
    &&& signed_pow_ok(params.g@, 2 * p.z3@, n2) && sp_pair_ok(params, 2 * p.z3@, 2 * p.z4@)
}

/// The addition proof is accepted: the challenge recomputed over the
/// quotients and the reconstructed squares equals `e`.
pub open spec fn cs_add_accepts(params: CsCommitParams, ca: CsCommitment, cb: CsCommitment, cc: CsCommitment, p: CsAddProof) -> bool {
    let d = add_relation_ds(ca, cb, cc, params.n2@);
    p.e@ == cs_add_challenge(params, d, cs_add_reconstructed(params, d, p))
}

/// The product of three signs is a sign.
proof fn lemma_three_signs(a: i8, b: i8, c: i8)
    requires
        pm_one(a),
        pm_one(b),
        pm_one(c),
    ensures
        pm_one((a * b * c) as i8),
        (a * b * c) as i8 == a * b * c,
{
    if a == 1 {
        if b == 1 {
            if c == 1 {
                assert(a * b * c == 1);
            } else {
                assert(a * b * c == -1);
            }
        } else {
            if c == 1 {
                assert(a * b * c == -1);
            } else {
                assert(a * b * c == 1);
            }
        }
    } else {
        if b == 1 {
            if c == 1 {
                assert(a * b * c == -1);
            } else {
                assert(a * b * c == 1);
            }
        } else {
            if c == 1 {
                assert(a * b * c == 1);
            } else {
                assert(a * b * c == -1);
            }
        }
    }
}

/// An even power forgets a sign: `(s y)^(2e) == y^(2e) (mod m)`.
pub proof fn lemma_sign_elem_even(sign: i8, y: nat, e: nat, m: nat)
    requires
        m > 1,
        pm_one(sign),
        y < m,
    ensures
        pow_mod((sign_elem(sign, m) * y) % m, 2 * e, m) == pow_mod(y, 2 * e, m),
{
    let s = sign_elem(sign, m);
    crate::powmod::lemma_pow_mod_product(s, y, 2 * e, m);
    vstd::arithmetic::div_mod::lemma_small_mod(1, m);
    vstd::arithmetic::power::lemma1_pow(2 * e);
    if sign != 1 {
        crate::powmod::lemma_pow_mod_neg_even(1, e, m);
    }
    assert(pow_mod(s, 2 * e, m) == 1);
    crate::powmod::lemma_pow_mod_bound(y, 2 * e, m);
    vstd::arithmetic::div_mod::lemma_small_mod(pow_mod(y, 2 * e, m), m);
    assert(1 * pow_mod(y, 2 * e, m) == pow_mod(y, 2 * e, m));
}

/// A squared single-base check holds for honest values:
/// `g^(2z) D^(2e) == (g^k)^2` when `D = s g^gamma` and `z = k - e gamma`.
proof fn lemma_single_base_square(g: nat, k: int, gamma: int, e: nat, z: int, d: nat, sign: i8, m: nat)
    requires
        m > 1,
        spec_gcd(m, g) == 1,
        pm_one(sign),
        d == (sign_elem(sign, m) * signed_pow(g, gamma, m)) % m,
        z == k - e * gamma,
    ensures
        (signed_pow(g, 2 * z, m) * pow_mod(d, 2 * e, m)) % m == pow_mod(signed_pow(g, k, m), 2, m),
{
    lemma_signed_pow_unit(g, gamma, m);
    lemma_sign_elem_even(sign, signed_pow(g, gamma, m), e, m);
    lemma_signed_pow_pow(g, gamma, 2 * e, m);
    lemma_signed_pow_add(g, 2 * z, gamma * (2 * e), m);
    lemma_signed_pow_pow(g, k, 2, m);
    assert(2 * z + gamma * (2 * e) == k * 2) by (nonlinear_arith)
        requires
            z == k - e * gamma,
    ;
}

/// A squared two-base check holds for honest values:
/// `g'^(2 z1) h'^(2 z2) D^(2e) == (g'^k1 h'^k2)^2` when
/// `D = s g'^gamma1 h'^gamma2` and `z_i = k_i - e gamma_i`.
proof fn lemma_pair_base_square(
    params: CsCommitParams,
    k1: int,
    k2: int,
    gamma1: int,
    gamma2: int,
    e: nat,
    z1: int,
    z2: int,
    d: nat,
    sign: i8,
)
    requires
        params.n2@ > 1,
        spec_gcd(params.n2@, params.g_prime@) == 1,
        spec_gcd(params.n2@, params.h_prime@) == 1,
        pm_one(sign),
        d == ((sign_elem(sign, params.n2@) * signed_pow(params.g_prime@, gamma1, params.n2@)) * signed_pow(
            params.h_prime@,
            gamma2,
            params.n2@,
        )) % params.n2@,
        z1 == k1 - e * gamma1,
        z2 == k2 - e * gamma2,
    ensures
        ((signed_pow(params.g_prime@, 2 * z1, params.n2@) * signed_pow(params.h_prime@, 2 * z2, params.n2@)) * pow_mod(
            d,
            2 * e,
            params.n2@,
        )) % params.n2@ == pow_mod(sp_pair(params, k1, k2), 2, params.n2@),
{
    let m = params.n2@;
    let gp = params.g_prime@;
    let hp = params.h_prime@;
    let s = sign_elem(sign, m);
    let a = signed_pow(gp, gamma1, m);
    let b = signed_pow(hp, gamma2, m);
    let y = (a * b) % m;
    assert(d == (s * y) % m) by {
        assert((s * a) * b == s * (a * b)) by (nonlinear_arith);
        vstd::arithmetic::div_mod::lemma_mul_mod_noop_right(s as int, (a * b) as int, m as int);
    }
    vstd::arithmetic::div_mod::lemma_mod_bound((a * b) as int, m as int);
    lemma_sign_elem_even(sign, y, e, m);
    crate::powmod::lemma_pow_mod_product(a, b, 2 * e, m);
    lemma_signed_pow_pow(gp, gamma1, 2 * e, m);
    lemma_signed_pow_pow(hp, gamma2, 2 * e, m);
    let p1 = signed_pow(gp, 2 * z1, m);
    let q1 = signed_pow(hp, 2 * z2, m);
    let u = signed_pow(gp, gamma1 * (2 * e), m);
    let v = signed_pow(hp, gamma2 * (2 * e), m);
    vstd::arithmetic::div_mod::lemma_mul_mod_noop_left((p1 * q1) as int, ((u * v) % m) as int, m as int);
    lemma_mul4_mod(p1, q1, u, v, m);
    lemma_signed_pow_add(gp, 2 * z1, gamma1 * (2 * e), m);
    lemma_signed_pow_add(hp, 2 * z2, gamma2 * (2 * e), m);
    assert(2 * z1 + gamma1 * (2 * e) == k1 * 2) by (nonlinear_arith)
        requires
            z1 == k1 - e * gamma1,
    ;
    assert(2 * z2 + gamma2 * (2 * e) == k2 * 2) by (nonlinear_arith)
        requires
            z2 == k2 - e * gamma2,
    ;
    crate::powmod::lemma_pow_mod_product(signed_pow(gp, k1, m), signed_pow(hp, k2, m), 2, m);
    lemma_signed_pow_pow(gp, k1, 2, m);
    lemma_signed_pow_pow(hp, k2, 2, m);
}

/// Completeness of the addition proof: when the witness explains the
/// quotients and `g, g', h'` are units, the proof that the prover outputs
/// is accepted.
pub proof fn lemma_cs_add_complete(
    params: CsCommitParams,
    ca: CsCommitment,
    cb: CsCommitment,
    cc: CsCommitment,
    oa: CsCommitOpening,
    ob: CsCommitOpening,
    oc: CsCommitOpening,
    ell: nat,
    p: CsAddProof,
)
    requires
        params.n2@ > 1,
        commit_bases_units(params),
        add_witness_holds(params, ca, cb, cc, oa, ob, oc),
        cs_add_prover_output(params, ca, cb, cc, oa, ob, oc, ell, p),
    ensures
        cs_add_accepts(params, ca, cb, cc, p),
{
    let n2 = params.n2@;
    let (k1, k2, k3, k4) = choose|k1: int, k2: int, k3: int, k4: int|
        #![trigger sp_pair(params, k1, k2), sp_pair(params, k3, k4)]
        in_sym(k1, ell) && in_sym(k2, ell) && in_sym(k3, ell) && in_sym(k4, ell) && {
            let gm = add_gammas(oa, ob, oc);
            let rp = (
                pow_mod(signed_pow(params.g@, k1, n2), 2, n2),
                pow_mod(sp_pair(params, k1, k2), 2, n2),
                pow_mod(signed_pow(params.g@, k3, n2), 2, n2),
                pow_mod(sp_pair(params, k3, k4), 2, n2),
            );
            &&& p.e@ == cs_add_challenge(params, add_relation_ds(ca, cb, cc, n2), rp)
            &&& p.z1@ == k1 - p.e@ * gm.0
            &&& p.z2@ == k2 - p.e@ * gm.1
            &&& p.z3@ == k3 - p.e@ * gm.2
            &&& p.z4@ == k4 - p.e@ * gm.3
        };
    let d = add_relation_ds(ca, cb, cc, n2);
    let gm = add_gammas(oa, ob, oc);
    let e = p.e@;
    lemma_three_signs(oc.a1, oa.a1, ob.a1);
    lemma_three_signs(oc.b1, oa.b1, ob.b1);
    lemma_three_signs(oc.a2, oa.a2, ob.a2);
    lemma_three_signs(oc.b2, oa.b2, ob.b2);
    lemma_single_base_square(params.g@, k1, gm.0, e, p.z1@, d.0, (oc.a1 * oa.a1 * ob.a1) as i8, n2);
    lemma_pair_base_square(params, k1, k2, gm.0, gm.1, e, p.z1@, p.z2@, d.1, (oc.b1 * oa.b1 * ob.b1) as i8);
    lemma_single_base_square(params.g@, k3, gm.2, e, p.z3@, d.2, (oc.a2 * oa.a2 * ob.a2) as i8, n2);
    lemma_pair_base_square(params, k3, k4, gm.2, gm.3, e, p.z3@, p.z4@, d.3, (oc.b2 * oa.b2 * ob.b2) as i8);
}

/// `(s * x) mod n^2` with `s` a sign element, computed.
fn signed_times(sign: i8, x: &Nat, n2: &Nat) -> (r: CryptoResult<Nat>)
    requires
        n2@ > 0,
    ensures
        r is Ok <==> pm_one(sign),
        r matches Ok(v) ==> v@ == (sign_elem(sign, n2@) * x@) % n2@,
        r matches Err(e) ==> e is InvalidInput,
{
    let one = Nat::one();
    let s = match apply_sign_mod_n2(&one, sign, n2) {
        Ok(v) => v,
        Err(e) => return Err(e),
    };
    Ok(big_rem(&big_mul(&s, x), n2))
}

/// ProveAddCS: proves that `Cc` commits to the homomorphic sum of what
/// `Ca` and `Cb` commit to. Blinders are drawn from `[-2^ell, 2^ell]`
/// with `ell = B + 2 lambda + 256`, the challenge hashes the squares of the
/// `R_i`, and the responses are integers `z_i = k_i - e gamma_i`.
///
/// Fails when a sign is not `-1` or `+1`, when a quotient or a signed power
/// is undefined, when the witness does not explain a quotient, or when the
/// blinding length cannot be derived.
pub fn prove_cs_add(params: &CsCommitParams, ca: &CsCommitment, cb: &CsCommitment, cc: &CsCommitment, oa: &CsCommitOpening, ob: &CsCommitOpening, oc: &CsCommitOpening) -> (r:
    CryptoResult<CsAddProof>)
    requires
        params.n2@ > 0,
    ensures
        r is Ok ==> add_witness_holds(*params, *ca, *cb, *cc, *oa, *ob, *oc) && symmetric_blinding_ok(*params, 256),
        add_witness_holds(*params, *ca, *cb, *cc, *oa, *ob, *oc) && symmetric_blinding_ok(*params, 256)
            && commit_bases_units(*params) ==> r is Ok,
        r matches Err(e) ==> e is InvalidInput || e == CryptoError::ModularInverseUnavailable,
        r matches Ok(p) ==> cs_add_prover_output(
            *params,
            *ca,
            *cb,
            *cc,
            *oa,
            *ob,
            *oc,
            blinding_bits_spec(*params, 256) as nat,
            p,
        ),
        r matches Ok(p) ==> (params.n2@ > 1 && commit_bases_units(*params) ==> cs_add_accepts(*params, *ca, *cb, *cc, p)),
{
    if !is_pm_one(oa.a1) || !is_pm_one(oa.a2) || !is_pm_one(oa.b1) || !is_pm_one(oa.b2) || !is_pm_one(ob.a1)
        || !is_pm_one(ob.a2) || !is_pm_one(ob.b1) || !is_pm_one(ob.b2) || !is_pm_one(oc.a1) || !is_pm_one(oc.a2)
        || !is_pm_one(oc.b1) || !is_pm_one(oc.b2) {
        return Err(CryptoError::InvalidInput("all signs in openings must be in {-1,+1}"));
    }
    let n2 = &params.n2;
    let (d1, d2, d3, d4) = match compute_add_relation_d(params, ca, cb, cc) {
        Ok(d) => d,
        Err(e) => return Err(e),
    };
    let gamma1 = int_of(&oc.s1).sub(&int_of(&oa.s1)).sub(&int_of(&ob.s1));
    let gamma2 = int_of(&oc.r1).sub(&int_of(&oa.r1)).sub(&int_of(&ob.r1));
    let gamma3 = int_of(&oc.s2).sub(&int_of(&oa.s2)).sub(&int_of(&ob.s2));
    let gamma4 = int_of(&oc.r2).sub(&int_of(&oa.r2)).sub(&int_of(&ob.r2));
    let beta1 = match mul_three_signs(oc.a1, oa.a1, ob.a1) {
        Ok(v) => v,
        Err(e) => return Err(e),
    };
    let beta2 = match mul_three_signs(oc.b1, oa.b1, ob.b1) {
        Ok(v) => v,
        Err(e) => return Err(e),
    };
    let beta3 = match mul_three_signs(oc.a2, oa.a2, ob.a2) {
        Ok(v) => v,
        Err(e) => return Err(e),
    };
    let beta4 = match mul_three_signs(oc.b2, oa.b2, ob.b2) {
        Ok(v) => v,
        Err(e) => return Err(e),
    };
    let g_gamma1 = match modpow_signed(&params.g, &gamma1, n2) {
        Ok(v) => v,
        Err(e) => return Err(e),
    };
    let d1_expected = match signed_times(beta1, &g_gamma1, n2) {
        Ok(v) => v,
        Err(e) => return Err(e),
    };
    if !big_eq(&d1_expected, &d1) {
        return Err(CryptoError::InvalidInput("witness does not satisfy D1 relation"));
    }
    let gp_gamma1 = match modpow_signed(&params.g_prime, &gamma1, n2) {
        Ok(v) => v,
        Err(e) => return Err(e),
    };
    let hp_gamma2 = match modpow_signed(&params.h_prime, &gamma2, n2) {
        Ok(v) => v,
        Err(e) => return Err(e),
    };
    let s2 = match signed_times(beta2, &Nat::one(), n2) {
        Ok(v) => v,
        Err(e) => return Err(e),
    };
    proof {
        vstd::arithmetic::div_mod::lemma_small_mod(sign_elem(beta2, n2@), n2@);
        assert(sign_elem(beta2, n2@) < n2@);
    }
    let d2_expected = big_rem(&big_mul(&big_mul(&s2, &gp_gamma1), &hp_gamma2), n2);
    if !big_eq(&d2_expected, &d2) {
        return Err(CryptoError::InvalidInput("witness does not satisfy D2 relation"));
    }
    let g_gamma3 = match modpow_signed(&params.g, &gamma3, n2) {
        Ok(v) => v,
        Err(e) => return Err(e),
    };
    let d3_expected = match signed_times(beta3, &g_gamma3, n2) {
        Ok(v) => v,
        Err(e) => return Err(e),
    };
    if !big_eq(&d3_expected, &d3) {
        return Err(CryptoError::InvalidInput("witness does not satisfy D3 relation"));
    }
    let gp_gamma3 = match modpow_signed(&params.g_prime, &gamma3, n2) {
        Ok(v) => v,
        Err(e) => return Err(e),
    };
    let hp_gamma4 = match modpow_signed(&params.h_prime, &gamma4, n2) {
        Ok(v) => v,
        Err(e) => return Err(e),
    };
    let s4 = match signed_times(beta4, &Nat::one(), n2) {
        Ok(v) => v,
        Err(e) => return Err(e),
    };
    proof {
        vstd::arithmetic::div_mod::lemma_small_mod(sign_elem(beta4, n2@), n2@);
    }
    let d4_expected = big_rem(&big_mul(&big_mul(&s4, &gp_gamma3), &hp_gamma4), n2);
    if !big_eq(&d4_expected, &d4) {
        return Err(CryptoError::InvalidInput("witness does not satisfy D4 relation"));
    }
    let ell = match derive_blinding_bits(params, 256) {
        Ok(v) => v,
        Err(e) => return Err(e),
    };
    let k1 = match sample_symmetric_bigint(ell) {
        Ok(v) => v,
        Err(e) => return Err(e),
    };
    let k2 = match sample_symmetric_bigint(ell) {
        Ok(v) => v,
        Err(e) => return Err(e),
    };
    let k3 = match sample_symmetric_bigint(ell) {
        Ok(v) => v,
        Err(e) => return Err(e),
    };
    let k4 = match sample_symmetric_bigint(ell) {
        Ok(v) => v,
        Err(e) => return Err(e),
    };
    let r1 = match modpow_signed(&params.g, &k1, n2) {
        Ok(v) => v,
        Err(e) => return Err(e),
    };
    let r2 = match sp2_exec(&params.g_prime, &k1, &params.h_prime, &k2, n2) {
        Ok(v) => v,
        Err(e) => return Err(e),
    };
    let r3 = match modpow_signed(&params.g, &k3, n2) {
        Ok(v) => v,
        Err(e) => return Err(e),
    };
    let r4 = match sp2_exec(&params.g_prime, &k3, &params.h_prime, &k4, n2) {
        Ok(v) => v,
        Err(e) => return Err(e),
    };
    let two = Nat::from_u64(2);
    let rp1 = big_modpow(&r1, &two, n2);
    let rp2 = big_modpow(&r2, &two, n2);
    let rp3 = big_modpow(&r3, &two, n2);
    let rp4 = big_modpow(&r4, &two, n2);
    let e = fs_challenge_for_cs_add(params, &d1, &d2, &d3, &d4, &rp1, &rp2, &rp3, &rp4);
    let e_bi = int_of(&e);
    let z1 = k1.sub(&e_bi.mul(&gamma1));
    let z2 = k2.sub(&e_bi.mul(&gamma2));
    let z3 = k3.sub(&e_bi.mul(&gamma3));
    let z4 = k4.sub(&e_bi.mul(&gamma4));
    let proof = CsAddProof { e, z1, z2, z3, z4 };
    proof {
        assert(sp_pair(*params, k1@, k2@) == r2@ && sp_pair(*params, k3@, k4@) == r4@);
        let ell = blinding_bits_spec(*params, 256) as nat;
        assert(cs_add_prover_output(*params, *ca, *cb, *cc, *oa, *ob, *oc, ell, proof));
        if params.n2@ > 1 && commit_bases_units(*params) {
            lemma_cs_add_complete(*params, *ca, *cb, *cc, *oa, *ob, *oc, ell, proof);
        }
    }
    Ok(proof)
}

/// When the addition verifier fails: `n^2` is zero, a product `Ca_i Cb_i`
/// has no inverse, or a signed power of the responses is undefined.
pub open spec fn cs_add_fails(params: CsCommitParams, ca: CsCommitment, cb: CsCommitment, proof: CsAddProof) -> bool {
    params.n2@ == 0 || !add_relation_all_ok(ca, cb, params.n2@) || !cs_add_powers_ok(params, proof)
}

/// VerifyAddCS: recomputes the quotients `D_i`, reconstructs
/// `R'_1 = g^(2 z1) D1^(2e)`, `R'_2 = g'^(2 z1) h'^(2 z2) D2^(2e)`,
/// `R'_3 = g^(2 z3) D3^(2e)`, `R'_4 = g'^(2 z3) h'^(2 z4) D4^(2e)`, and
/// accepts when the challenge over them equals `e`.
///
/// Fails when `n^2` is zero, a quotient is undefined, or a signed power
/// is undefined.
pub fn verify_cs_add(params: &CsCommitParams, ca: &CsCommitment, cb: &CsCommitment, cc: &CsCommitment, proof: &CsAddProof) -> (r:
    CryptoResult<bool>)
    ensures
        r is Err <==> cs_add_fails(*params, *ca, *cb, *proof),
        r is Err ==> r == Err::<bool, CryptoError>(verifier_error(params.n2@)),
        r matches Ok(b) ==> b == cs_add_accepts(*params, *ca, *cb, *cc, *proof),
        r == Ok::<bool, CryptoError>(true) ==> ({
            let n2 = (*params).n2@;
            let d = add_relation_ds((*ca), (*cb), (*cc), n2);
            let two_e = 2 * (*proof).e@;
            (*proof).e@ == cs_add_challenge(
                (*params),
                d,
                (
                    (signed_pow((*params).g@, 2 * (*proof).z1@, n2) * pow_mod(d.0, two_e, n2)) % n2,
                    ((signed_pow((*params).g_prime@, 2 * (*proof).z1@, n2) * signed_pow((*params).h_prime@, 2 * (*proof).z2@, n2)) * pow_mod(d.1, two_e, n2)) % n2,
                    (signed_pow((*params).g@, 2 * (*proof).z3@, n2) * pow_mod(d.2, two_e, n2)) % n2,
                    ((signed_pow((*params).g_prime@, 2 * (*proof).z3@, n2) * signed_pow((*params).h_prime@, 2 * (*proof).z4@, n2)) * pow_mod(d.3, two_e, n2)) % n2,
                ),
            )
        }),
{
    let n2 = &params.n2;
    if big_is_zero(n2) {
        return Err(CryptoError::InvalidInput("n^2 must be non-zero"));
    }
    let (d1, d2, d3, d4) = match compute_add_relation_d(params, ca, cb, cc) {
        Ok(d) => d,
        Err(e) => return Err(e),
    };
    let two_z1 = twice(&proof.z1);
    let two_z2 = twice(&proof.z2);
    let two_z3 = twice(&proof.z3);
    let two_z4 = twice(&proof.z4);
    let two_e = big_mul(&Nat::from_u64(2), &proof.e);
    let g_z1 = match modpow_signed(&params.g, &two_z1, n2) {
        Ok(v) => v,
        Err(e) => return Err(e),
    };
    let pair_12 = match modpow_signed(&params.g_prime, &two_z1, n2) {
        Ok(v) => v,
        Err(e) => return Err(e),
    };
    let h_z2 = match modpow_signed(&params.h_prime, &two_z2, n2) {
        Ok(v) => v,
        Err(e) => return Err(e),
    };
    let g_z3 = match modpow_signed(&params.g, &two_z3, n2) {
        Ok(v) => v,
        Err(e) => return Err(e),
    };
    let pair_34 = match modpow_signed(&params.g_prime, &two_z3, n2) {
        Ok(v) => v,
        Err(e) => return Err(e),
    };
    let h_z4 = match modpow_signed(&params.h_prime, &two_z4, n2) {
        Ok(v) => v,
        Err(e) => return Err(e),
    };
    let rp1 = big_rem(&big_mul(&g_z1, &big_modpow(&d1, &two_e, n2)), n2);
    let rp2 = big_rem(&big_mul(&big_mul(&pair_12, &h_z2), &big_modpow(&d2, &two_e, n2)), n2);
    let rp3 = big_rem(&big_mul(&g_z3, &big_modpow(&d3, &two_e, n2)), n2);
    let rp4 = big_rem(&big_mul(&big_mul(&pair_34, &h_z4), &big_modpow(&d4, &two_e, n2)), n2);
    let e_prime = fs_challenge_for_cs_add(params, &d1, &d2, &d3, &d4, &rp1, &rp2, &rp3, &rp4);
    Ok(big_eq(&proof.e, &e_prime))
}

// ---------------------------------------------------------------------------
// Scalar-multiplication proof.
// ---------------------------------------------------------------------------

/// Challenge of the multiplication proof:
/// `H(n, g, g', h', Ca, Cb, Cy, R_y, R_1..R_4)`.
pub open spec fn cs_mult_challenge(params: CsCommitParams, ca: CsCommitment, cb: CsCommitment, cy: nat, r: (nat, nat, nat, nat, nat)) -> nat {
    challenge_of(
        seq![params.n@, params.g@, params.g_prime@, params.h_prime@, ca.c1@, ca.c2@, ca.c3@, ca.c4@, cb.c1@, cb.c2@, cb.c3@, cb.c4@, cy, r.0, r.1, r.2, r.3, r.4],
    )
}

/// The multiplication-proof challenge, computed.
fn fs_challenge_for_cs_mult(params: &CsCommitParams, ca: &CsCommitment, cb: &CsCommitment, cy: &Nat, ry: &Nat, r1: &Nat, r2: &Nat, r3: &Nat, r4: &Nat) -> (e: Nat)
    ensures
        e@ == cs_mult_challenge(*params, *ca, *cb, cy@, (ry@, r1@, r2@, r3@, r4@)),
{
    let vals: [&Nat; 18] = [&params.n, &params.g, &params.g_prime, &params.h_prime, &ca.c1, &ca.c2, &ca.c3, &ca.c4, &cb.c1, &cb.c2, &cb.c3, &cb.c4, cy, ry, r1, r2, r3, r4];
    proof {
        assert(vals@.map_values(|x: &Nat| x@) =~= seq![params.n@, params.g@, params.g_prime@, params.h_prime@, ca.c1@, ca.c2@, ca.c3@, ca.c4@, cb.c1@, cb.c2@, cb.c3@, cb.c4@, cy@, ry@, r1@, r2@, r3@, r4@]);
    }
    fiat_shamir_challenge_biguints(&vals)
}

/// The exponent relations `gamma = a - y b` of a multiplication witness.
pub open spec fn mult_gammas(oa: CsCommitOpening, ob: CsCommitOpening, y: int) -> (int, int, int, int) {
    (oa.s1@ - y * ob.s1@, oa.r1@ - y * ob.r1@, oa.s2@ - y * ob.s2@, oa.r2@ - y * ob.r2@)
}

/// The blinding commitments of the multiplication proof for given
/// exponents: `R_y = g'^ky h'^kry`, `R_1 = Cb1^ky g^k1`,
/// `R_2 = Cb2^ky g'^k1 h'^k2`, `R_3 = Cb3^ky g^k3`, `R_4 = Cb4^ky g'^k3 h'^k4`.
pub open spec fn mult_commitments(params: CsCommitParams, cb: CsCommitment, ky: int, kry: int, k1: int, k2: int, k3: int, k4: int) -> (nat, nat, nat, nat, nat) {
    let n2 = params.n2@;
    (
        sp_pair(params, ky, kry),
        sp2(cb.c1@, ky, params.g@, k1, n2),
        sp3(cb.c2@, ky, params.g_prime@, k1, params.h_prime@, k2, n2),
        sp2(cb.c3@, ky, params.g@, k3, n2),
        sp3(cb.c4@, ky, params.g_prime@, k3, params.h_prime@, k4, n2),
    )
}

/// The multiplication commitments are defined for these exponents.
pub open spec fn mult_commitments_ok(params: CsCommitParams, cb: CsCommitment, ky: int, kry: int, k1: int, k2: int, k3: int, k4: int) -> bool {
    let n2 = params.n2@;
    &&& sp_pair_ok(params, ky, kry)
    &&& signed_pow_ok(cb.c1@, ky, n2) && signed_pow_ok(params.g@, k1, n2)
    &&& signed_pow_ok(cb.c2@, ky, n2) && sp_pair_ok(params, k1, k2)
    &&& signed_pow_ok(cb.c3@, ky, n2) && signed_pow_ok(params.g@, k3, n2)
    &&& signed_pow_ok(cb.c4@, ky, n2) && sp_pair_ok(params, k3, k4)
}

/// The multiplication witness holds: the signs `b` are
/// `sign_out / sign_in^y`, `Cy = b_y g'^y h'^r_y`, and each component of
/// `Ca` is `b_i` times the `y`-th power of the matching component of `Cb`
/// times the blinding of `gamma`.
pub open spec fn mult_witness_holds(params: CsCommitParams, ca: CsCommitment, cb: CsCommitment, cy: nat, oa: CsCommitOpening, ob: CsCommitOpening, y: int, r_y: int, b_y: i8, b: [i8; 4]) -> bool {
    let n2 = params.n2@;
    let gm = mult_gammas(oa, ob, y);
    &&& pm_one(b_y) && pm_one(b[0]) && pm_one(b[1]) && pm_one(b[2]) && pm_one(b[3])
    &&& pm_one(ob.a1) && pm_one(ob.b1) && pm_one(ob.a2) && pm_one(ob.b2)
    &&& pm_one(oa.a1) && pm_one(oa.b1) && pm_one(oa.a2) && pm_one(oa.b2)
    &&& b[0] == oa.a1 * sign_pow_spec(ob.a1, y) && b[1] == oa.b1 * sign_pow_spec(ob.b1, y)
    &&& b[2] == oa.a2 * sign_pow_spec(ob.a2, y) && b[3] == oa.b2 * sign_pow_spec(ob.b2, y)
    &&& mult_commitments_ok(params, cb, y, r_y, gm.0, gm.1, gm.2, gm.3)
    &&& {
        let c = mult_commitments(params, cb, y, r_y, gm.0, gm.1, gm.2, gm.3);
        &&& cy == apply_sign_spec(c.0, b_y, n2)
        &&& ca.c1@ == apply_sign_spec(c.1, b[0], n2)
        &&& ca.c2@ == apply_sign_spec(c.2, b[1], n2)
        &&& ca.c3@ == apply_sign_spec(c.3, b[2], n2)
        &&& ca.c4@ == apply_sign_spec(c.4, b[3], n2)
    }
}

/// What the prover of a multiplication outputs: blinders in
/// `[-2^ell, 2^ell]`, their commitments, and responses `z = k + e w`.
pub open spec fn cs_mult_prover_output(params: CsCommitParams, ca: CsCommitment, cb: CsCommitment, cy: nat, oa: CsCommitOpening, ob: CsCommitOpening, y: int, r_y: int, ell: nat, p: CsMultProof) -> bool {
    exists|ky: int, kry: int, k1: int, k2: int, k3: int, k4: int|
        #![trigger mult_commitments(params, cb, ky, kry, k1, k2, k3, k4)]
        in_sym(ky, ell) && in_sym(kry, ell) && in_sym(k1, ell) && in_sym(k2, ell) && in_sym(k3, ell) && in_sym(k4, ell)
            && (p.r_y@, p.r1@, p.r2@, p.r3@, p.r4@) == mult_commitments(params, cb, ky, kry, k1, k2, k3, k4) && {
            let e = cs_mult_challenge(params, ca, cb, cy, (p.r_y@, p.r1@, p.r2@, p.r3@, p.r4@));
            let gm = mult_gammas(oa, ob, y);
            &&& p.z_y@ == ky + e * y
            &&& p.z_ry@ == kry + e * r_y
            &&& p.z1@ == k1 + e * gm.0
            &&& p.z2@ == k2 + e * gm.1
            &&& p.z3@ == k3 + e * gm.2
            &&& p.z4@ == k4 + e * gm.3
        }
}

/// The five squared equations of the multiplication proof: the
/// commitments recomputed at the doubled responses equal `R^2 C^(2e)` for
/// `(R_y, Cy)` and `(R_i, Ca_i)`.
pub open spec fn cs_mult_accepts(params: CsCommitParams, ca: CsCommitment, cb: CsCommitment, cy: nat, p: CsMultProof) -> bool {
    let n2 = params.n2@;
    let e = cs_mult_challenge(params, ca, cb, cy, (p.r_y@, p.r1@, p.r2@, p.r3@, p.r4@));
    let lhs = mult_commitments(params, cb, 2 * p.z_y@, 2 * p.z_ry@, 2 * p.z1@, 2 * p.z2@, 2 * p.z3@, 2 * p.z4@);
    &&& lhs.0 == sq_rhs(p.r_y@, cy, e, n2)
    &&& lhs.1 == sq_rhs(p.r1@, ca.c1@, e, n2)
    &&& lhs.2 == sq_rhs(p.r2@, ca.c2@, e, n2)
    &&& lhs.3 == sq_rhs(p.r3@, ca.c3@, e, n2)
    &&& lhs.4 == sq_rhs(p.r4@, ca.c4@, e, n2)
}

/// The four components of a commitment are units modulo `n^2`.
pub open spec fn commitment_units(c: CsCommitment, n2: nat) -> bool {
    &&& spec_gcd(n2, c.c1@) == 1
    &&& spec_gcd(n2, c.c2@) == 1
    &&& spec_gcd(n2, c.c3@) == 1
    &&& spec_gcd(n2, c.c4@) == 1
}

/// A signed representative of a reduced unit is a unit.
proof fn lemma_apply_sign_unit(x: nat, sign: i8, n2: nat)
    requires
        n2 > 1,
        spec_gcd(n2, x) == 1,
        x < n2,
    ensures
        spec_gcd(n2, apply_sign_spec(x, sign, n2)) == 1,
{
    crate::powmod::lemma_coprime_mod(x, n2);
    vstd::arithmetic::div_mod::lemma_small_mod(x, n2);
    if sign != 1 {
        vstd::arithmetic::div_mod::lemma_small_mod((n2 - x) as nat, n2);
        crate::powmod::lemma_coprime_neg(x, n2);
    }
}

/// The commitment to a ciphertext of units under unit bases consists of
/// units.
pub proof fn lemma_commitment_units(params: CsCommitParams, c: (nat, nat), o: CsCommitOpening, com: CsCommitment)
    requires
        params.n2@ > 1,
        commit_bases_units(params),
        spec_gcd(params.n2@, c.0) == 1,
        spec_gcd(params.n2@, c.1) == 1,
        is_commitment_of(params, c, o, com),
    ensures
        commitment_units(com, params.n2@),
{
    let n2 = params.n2@;
    let g = params.g@;
    crate::powmod::lemma_coprime_pow(g, o.s1@, n2);
    crate::powmod::lemma_coprime_pow(g, o.s2@, n2);
    crate::powmod::lemma_coprime_mul(c.0, pow_mod(g, o.s1@, n2), n2);
    crate::powmod::lemma_coprime_mul(c.1, pow_mod(g, o.s2@, n2), n2);
    crate::powmod::lemma_coprime_pow(params.g_prime@, o.s1@, n2);
    crate::powmod::lemma_coprime_pow(params.h_prime@, o.r1@, n2);
    crate::powmod::lemma_coprime_pow(params.g_prime@, o.s2@, n2);
    crate::powmod::lemma_coprime_pow(params.h_prime@, o.r2@, n2);
    crate::powmod::lemma_coprime_mul(pow_mod(params.g_prime@, o.s1@, n2), pow_mod(params.h_prime@, o.r1@, n2), n2);
    crate::powmod::lemma_coprime_mul(pow_mod(params.g_prime@, o.s2@, n2), pow_mod(params.h_prime@, o.r2@, n2), n2);
    vstd::arithmetic::div_mod::lemma_mod_bound((c.0 * pow_mod(g, o.s1@, n2)) as int, n2 as int);
    vstd::arithmetic::div_mod::lemma_mod_bound((c.1 * pow_mod(g, o.s2@, n2)) as int, n2 as int);
    vstd::arithmetic::div_mod::lemma_mod_bound(
        (pow_mod(params.g_prime@, o.s1@, n2) * pow_mod(params.h_prime@, o.r1@, n2)) as int,
        n2 as int,
    );
    vstd::arithmetic::div_mod::lemma_mod_bound(
        (pow_mod(params.g_prime@, o.s2@, n2) * pow_mod(params.h_prime@, o.r2@, n2)) as int,
        n2 as int,
    );
    lemma_apply_sign_unit((c.0 * pow_mod(g, o.s1@, n2)) % n2, o.a1, n2);
    lemma_apply_sign_unit(df_pair(params, o.s1@, o.r1@), o.b1, n2);
    lemma_apply_sign_unit((c.1 * pow_mod(g, o.s2@, n2)) % n2, o.a2, n2);
    lemma_apply_sign_unit(df_pair(params, o.s2@, o.r2@), o.b2, n2);
}

/// `x^(2(k + e w)) == (x^k)^2 (x^w)^(2e) (mod m)` for a unit `x`.
proof fn lemma_sp1_square(x: nat, k: int, w: int, e: nat, z: int, m: nat)
    requires
        m > 1,
        spec_gcd(m, x) == 1,
        z == k + e * w,
    ensures
        signed_pow(x, 2 * z, m) == (pow_mod(signed_pow(x, k, m), 2, m) * pow_mod(signed_pow(x, w, m), 2 * e, m)) % m,
{
    lemma_signed_pow_pow(x, k, 2, m);
    lemma_signed_pow_pow(x, w, 2 * e, m);
    lemma_signed_pow_add(x, k * 2, w * (2 * e), m);
    assert(k * 2 + w * (2 * e) == 2 * z) by (nonlinear_arith)
        requires
            z == k + e * w,
    ;
}

/// When `P == Pk^2 Pw^(2e)` and `Q == Qk^2 Qw^(2e)`, then
/// `P Q == (Pk Qk)^2 (Pw Qw)^(2e) (mod m)`.
proof fn lemma_square_split(p: nat, q: nat, pk: nat, qk: nat, pw: nat, qw: nat, e: nat, m: nat)
    requires
        m > 1,
        p == (pow_mod(pk, 2, m) * pow_mod(pw, 2 * e, m)) % m,
        q == (pow_mod(qk, 2, m) * pow_mod(qw, 2 * e, m)) % m,
    ensures
        (p * q) % m == (pow_mod((pk * qk) % m, 2, m) * pow_mod((pw * qw) % m, 2 * e, m)) % m,
{
    crate::powmod::lemma_pow_mod_product(pk, qk, 2, m);
    crate::powmod::lemma_pow_mod_product(pw, qw, 2 * e, m);
    lemma_mul4_mod(pow_mod(pk, 2, m), pow_mod(pw, 2 * e, m), pow_mod(qk, 2, m), pow_mod(qw, 2 * e, m), m);
}

/// The two-base version of `lemma_sp1_square`.
proof fn lemma_sp2_square(x: nat, ka: int, wa: int, za: int, y: nat, kb: int, wb: int, zb: int, e: nat, m: nat)
    requires
        m > 1,
        spec_gcd(m, x) == 1,
        spec_gcd(m, y) == 1,
        za == ka + e * wa,
        zb == kb + e * wb,
    ensures
        sp2(x, 2 * za, y, 2 * zb, m) == (pow_mod(sp2(x, ka, y, kb, m), 2, m) * pow_mod(sp2(x, wa, y, wb, m), 2 * e, m))
            % m,
{
    lemma_sp1_square(x, ka, wa, e, za, m);
    lemma_sp1_square(y, kb, wb, e, zb, m);
    lemma_square_split(
        signed_pow(x, 2 * za, m),
        signed_pow(y, 2 * zb, m),
        signed_pow(x, ka, m),
        signed_pow(y, kb, m),
        signed_pow(x, wa, m),
        signed_pow(y, wb, m),
        e,
        m,
    );
}

/// `x^a y^b z^c == (x^a y^b mod m) z^c (mod m)`.
proof fn lemma_sp3_as_sp2(x: nat, a: int, y: nat, b: int, z: nat, c: int, m: nat)
    requires
        m > 0,
    ensures
        sp3(x, a, y, b, z, c, m) == (sp2(x, a, y, b, m) * signed_pow(z, c, m)) % m,
{
    vstd::arithmetic::div_mod::lemma_mul_mod_noop_left(
        (signed_pow(x, a, m) * signed_pow(y, b, m)) as int,
        signed_pow(z, c, m) as int,
        m as int,
    );
}

/// The three-base version of `lemma_sp1_square`.
proof fn lemma_sp3_square(
    x: nat,
    ka: int,
    wa: int,
    za: int,
    y: nat,
    kb: int,
    wb: int,
    zb: int,
    z: nat,
    kc: int,
    wc: int,
    zc: int,
    e: nat,
    m: nat,
)
    requires
        m > 1,
        spec_gcd(m, x) == 1,
        spec_gcd(m, y) == 1,
        spec_gcd(m, z) == 1,
        za == ka + e * wa,
        zb == kb + e * wb,
        zc == kc + e * wc,
    ensures
        sp3(x, 2 * za, y, 2 * zb, z, 2 * zc, m) == (pow_mod(sp3(x, ka, y, kb, z, kc, m), 2, m) * pow_mod(
            sp3(x, wa, y, wb, z, wc, m),
            2 * e,
            m,
        )) % m,
{
    lemma_sp3_as_sp2(x, 2 * za, y, 2 * zb, z, 2 * zc, m);
    lemma_sp3_as_sp2(x, ka, y, kb, z, kc, m);
    lemma_sp3_as_sp2(x, wa, y, wb, z, wc, m);
    lemma_sp2_square(x, ka, wa, za, y, kb, wb, zb, e, m);
    lemma_sp1_square(z, kc, wc, e, zc, m);
    lemma_square_split(
        sp2(x, 2 * za, y, 2 * zb, m),
        signed_pow(z, 2 * zc, m),
        sp2(x, ka, y, kb, m),
        signed_pow(z, kc, m),
        sp2(x, wa, y, wb, m),
        signed_pow(z, wc, m),
        e,
        m,
    );
}

/// A squared check `F(2z) == R^2 C^(2e)` holds when `F(2z)` splits as
/// `F(k)^2 F(w)^(2e)`, `R == F(k)` and `C` is `F(w)` up to a sign.
proof fn lemma_signed_check(lhs: nat, fk: nat, fw: nat, r: nat, c: nat, sign: i8, e: nat, m: nat)
    requires
        m > 1,
        pm_one(sign),
        fw < m,
        lhs == (pow_mod(fk, 2, m) * pow_mod(fw, 2 * e, m)) % m,
        r == fk,
        c == apply_sign_spec(fw, sign, m),
    ensures
        lhs == sq_rhs(r, c, e, m),
{
    lemma_signed_even_pow(fw, sign, e, m);
}

/// Completeness of the multiplication proof: when the witness holds and
/// `g, g', h'` and the components of `Cb` are units, the proof that the
/// prover outputs is accepted.
pub proof fn lemma_cs_mult_complete(
    params: CsCommitParams,
    ca: CsCommitment,
    cb: CsCommitment,
    cy: nat,
    oa: CsCommitOpening,
    ob: CsCommitOpening,
    y: int,
    r_y: int,
    b_y: i8,
    b: [i8; 4],
    ell: nat,
    p: CsMultProof,
)
    requires
        params.n2@ > 1,
        commit_bases_units(params),
        commitment_units(cb, params.n2@),
        mult_witness_holds(params, ca, cb, cy, oa, ob, y, r_y, b_y, b),
        cs_mult_prover_output(params, ca, cb, cy, oa, ob, y, r_y, ell, p),
    ensures
        cs_mult_accepts(params, ca, cb, cy, p),
{
    let n2 = params.n2@;
    let (ky, kry, k1, k2, k3, k4) = choose|ky: int, kry: int, k1: int, k2: int, k3: int, k4: int|
        #![trigger mult_commitments(params, cb, ky, kry, k1, k2, k3, k4)]
        in_sym(ky, ell) && in_sym(kry, ell) && in_sym(k1, ell) && in_sym(k2, ell) && in_sym(k3, ell) && in_sym(k4, ell)
            && (p.r_y@, p.r1@, p.r2@, p.r3@, p.r4@) == mult_commitments(params, cb, ky, kry, k1, k2, k3, k4) && {
            let e = cs_mult_challenge(params, ca, cb, cy, (p.r_y@, p.r1@, p.r2@, p.r3@, p.r4@));
            let gm = mult_gammas(oa, ob, y);
            &&& p.z_y@ == ky + e * y
            &&& p.z_ry@ == kry + e * r_y
            &&& p.z1@ == k1 + e * gm.0
            &&& p.z2@ == k2 + e * gm.1
            &&& p.z3@ == k3 + e * gm.2
            &&& p.z4@ == k4 + e * gm.3
        };
    let e = cs_mult_challenge(params, ca, cb, cy, (p.r_y@, p.r1@, p.r2@, p.r3@, p.r4@));
    let gm = mult_gammas(oa, ob, y);
    let g = params.g@;
    let gp = params.g_prime@;
    let hp = params.h_prime@;
    let fk = mult_commitments(params, cb, ky, kry, k1, k2, k3, k4);
    let fw = mult_commitments(params, cb, y, r_y, gm.0, gm.1, gm.2, gm.3);
    let lhs = mult_commitments(params, cb, 2 * p.z_y@, 2 * p.z_ry@, 2 * p.z1@, 2 * p.z2@, 2 * p.z3@, 2 * p.z4@);
    lemma_sp2_square(gp, ky, y, p.z_y@, hp, kry, r_y, p.z_ry@, e, n2);
    lemma_sp2_square(cb.c1@, ky, y, p.z_y@, g, k1, gm.0, p.z1@, e, n2);
    lemma_sp3_square(cb.c2@, ky, y, p.z_y@, gp, k1, gm.0, p.z1@, hp, k2, gm.1, p.z2@, e, n2);
    lemma_sp2_square(cb.c3@, ky, y, p.z_y@, g, k3, gm.2, p.z3@, e, n2);
    lemma_sp3_square(cb.c4@, ky, y, p.z_y@, gp, k3, gm.2, p.z3@, hp, k4, gm.3, p.z4@, e, n2);
    vstd::arithmetic::div_mod::lemma_mod_bound((signed_pow(gp, y, n2) * signed_pow(hp, r_y, n2)) as int, n2 as int);
    vstd::arithmetic::div_mod::lemma_mod_bound((signed_pow(cb.c1@, y, n2) * signed_pow(g, gm.0, n2)) as int, n2 as int);
    vstd::arithmetic::div_mod::lemma_mod_bound(((signed_pow(cb.c2@, y, n2) * signed_pow(gp, gm.0, n2)) * signed_pow(hp, gm.1, n2)) as int, n2 as int);
    vstd::arithmetic::div_mod::lemma_mod_bound((signed_pow(cb.c3@, y, n2) * signed_pow(g, gm.2, n2)) as int, n2 as int);
    vstd::arithmetic::div_mod::lemma_mod_bound(((signed_pow(cb.c4@, y, n2) * signed_pow(gp, gm.2, n2)) * signed_pow(hp, gm.3, n2)) as int, n2 as int);
    lemma_signed_check(lhs.0, fk.0, fw.0, p.r_y@, cy, b_y, e, n2);
    lemma_signed_check(lhs.1, fk.1, fw.1, p.r1@, ca.c1@, b[0], e, n2);
    lemma_signed_check(lhs.2, fk.2, fw.2, p.r2@, ca.c2@, b[1], e, n2);
    lemma_signed_check(lhs.3, fk.3, fw.3, p.r3@, ca.c3@, b[2], e, n2);
    lemma_signed_check(lhs.4, fk.4, fw.4, p.r4@, ca.c4@, b[3], e, n2);
}

/// Computes the five multiplication commitments for given exponents.
fn mult_commitments_exec(params: &CsCommitParams, cb: &CsCommitment, ky: &Int, kry: &Int, k1: &Int, k2: &Int, k3: &Int, k4: &Int) -> (r:
    CryptoResult<(Nat, Nat, Nat, Nat, Nat)>)
    requires
        params.n2@ > 0,
    ensures
        r is Ok <==> mult_commitments_ok(*params, *cb, ky@, kry@, k1@, k2@, k3@, k4@),
        r matches Ok(c) ==> (c.0@, c.1@, c.2@, c.3@, c.4@) == mult_commitments(*params, *cb, ky@, kry@, k1@, k2@, k3@, k4@),
        r matches Err(e) ==> e == CryptoError::ModularInverseUnavailable,
{
    let n2 = &params.n2;
    let c0 = match sp2_exec(&params.g_prime, ky, &params.h_prime, kry, n2) {
        Ok(v) => v,
        Err(e) => return Err(e),
    };
    let c1 = match sp2_exec(&cb.c1, ky, &params.g, k1, n2) {
        Ok(v) => v,
        Err(e) => return Err(e),
    };
    let c2 = match sp3_exec(&cb.c2, ky, &params.g_prime, k1, &params.h_prime, k2, n2) {
        Ok(v) => v,
        Err(e) => return Err(e),
    };
    let c3 = match sp2_exec(&cb.c3, ky, &params.g, k3, n2) {
        Ok(v) => v,
        Err(e) => return Err(e),
    };
    let c4 = match sp3_exec(&cb.c4, ky, &params.g_prime, k3, &params.h_prime, k4, n2) {
        Ok(v) => v,
        Err(e) => return Err(e),
    };
    Ok((c0, c1, c2, c3, c4))
}

/// ProveMultCS: proves that `Ca` commits to `y (.)` what `Cb` commits to,
/// where `Cy = b_y g'^y h'^r_y` commits to the integer `y`. The signs `b`
/// must equal `sign_out / sign_in^y` derived from the openings. Blinders
/// are drawn from `[-2^ell, 2^ell]`, `ell = B + 2 lambda + 256`.
///
/// Fails when a sign is out of range, the signs `b` do not match the
/// openings, a signed power is undefined, the witness does not hold, or the
/// blinding length cannot be derived.
pub fn prove_cs_mult(params: &CsCommitParams, ca: &CsCommitment, cb: &CsCommitment, cy: &Nat, oa: &CsCommitOpening, ob: &CsCommitOpening, y: &Int, r_y: &Int, b_y: i8, b: [i8; 4]) -> (r:
    CryptoResult<CsMultProof>)
    requires
        pm_one(b_y) && pm_one(b[0]) && pm_one(b[1]) && pm_one(b[2]) && pm_one(b[3]) ==> params.n2@ > 0,
    ensures
        !(pm_one(b_y) && pm_one(b[0]) && pm_one(b[1]) && pm_one(b[2]) && pm_one(b[3])) ==> r == Err::<CsMultProof, CryptoError>(
            CryptoError::InvalidInput("b_y and b_i must be in {-1,+1}"),
        ),
        pm_one(b_y) && pm_one(b[0]) && pm_one(b[1]) && pm_one(b[2]) && pm_one(b[3]) && pm_one(ob.a1) && pm_one(ob.b1)
            && pm_one(ob.a2) && pm_one(ob.b2) && pm_one(oa.a1) && pm_one(oa.b1) && pm_one(oa.a2) && pm_one(oa.b2) && !(b[0]
            == oa.a1 * sign_pow_spec(ob.a1, y@) && b[1] == oa.b1 * sign_pow_spec(ob.b1, y@) && b[2] == oa.a2 * sign_pow_spec(
            ob.a2,
            y@,
        ) && b[3] == oa.b2 * sign_pow_spec(ob.b2, y@)) ==> r == Err::<CsMultProof, CryptoError>(
            CryptoError::InvalidInput("input b_i do not match signs derived from Oa/Ob"),
        ),
        r is Ok ==> mult_witness_holds(*params, *ca, *cb, cy@, *oa, *ob, y@, r_y@, b_y, b) && symmetric_blinding_ok(*params, 256),
        mult_witness_holds(*params, *ca, *cb, cy@, *oa, *ob, y@, r_y@, b_y, b) && symmetric_blinding_ok(*params, 256)
            && commit_bases_units(*params) && commitment_units(*cb, params.n2@) ==> r is Ok,
        r matches Err(e) ==> e is InvalidInput || e == CryptoError::ModularInverseUnavailable,
        r matches Ok(p) ==> cs_mult_prover_output(*params, *ca, *cb, cy@, *oa, *ob, y@, r_y@, blinding_bits_spec(*params, 256) as nat, p),
        r matches Ok(p) ==> (params.n2@ > 1 && commit_bases_units(*params) && commitment_units(*cb, params.n2@)
            ==> cs_mult_accepts(*params, *ca, *cb, cy@, p)),
{
    if !is_pm_one(b_y) || !is_pm_one(b[0]) || !is_pm_one(b[1]) || !is_pm_one(b[2]) || !is_pm_one(b[3]) {
        return Err(CryptoError::InvalidInput("b_y and b_i must be in {-1,+1}"));
    }
    let n2 = &params.n2;
    let gamma1 = int_of(&oa.s1).sub(&y.mul(&int_of(&ob.s1)));
    let gamma2 = int_of(&oa.r1).sub(&y.mul(&int_of(&ob.r1)));
    let gamma3 = int_of(&oa.s2).sub(&y.mul(&int_of(&ob.s2)));
    let gamma4 = int_of(&oa.r2).sub(&y.mul(&int_of(&ob.r2)));
    let ob_a1_pow_y = match sign_pow_i8(ob.a1, y) {
        Ok(v) => v,
        Err(e) => return Err(e),
    };
    let ob_b1_pow_y = match sign_pow_i8(ob.b1, y) {
        Ok(v) => v,
        Err(e) => return Err(e),
    };
    let ob_a2_pow_y = match sign_pow_i8(ob.a2, y) {
        Ok(v) => v,
        Err(e) => return Err(e),
    };
    let ob_b2_pow_y = match sign_pow_i8(ob.b2, y) {
        Ok(v) => v,
        Err(e) => return Err(e),
    };
    let beta1 = match div_two_signs(oa.a1, ob_a1_pow_y) {
        Ok(v) => v,
        Err(e) => return Err(e),
    };
    let beta2 = match div_two_signs(oa.b1, ob_b1_pow_y) {
        Ok(v) => v,
        Err(e) => return Err(e),
    };
    let beta3 = match div_two_signs(oa.a2, ob_a2_pow_y) {
        Ok(v) => v,
        Err(e) => return Err(e),
    };
    let beta4 = match div_two_signs(oa.b2, ob_b2_pow_y) {
        Ok(v) => v,
        Err(e) => return Err(e),
    };
    if beta1 != b[0] || beta2 != b[1] || beta3 != b[2] || beta4 != b[3] {
        return Err(CryptoError::InvalidInput("input b_i do not match signs derived from Oa/Ob"));
    }
    let expected = match mult_commitments_exec(params, cb, y, r_y, &gamma1, &gamma2, &gamma3, &gamma4) {
        Ok(v) => v,
        Err(e) => return Err(e),
    };
    let cy_expected = match apply_sign_mod_n2(&expected.0, b_y, n2) {
        Ok(v) => v,
        Err(e) => return Err(e),
    };
    if !big_eq(&cy_expected, cy) {
        return Err(CryptoError::InvalidInput("witness does not satisfy Cy equation"));
    }
    let ca1_expected = match apply_sign_mod_n2(&expected.1, b[0], n2) {
        Ok(v) => v,
        Err(e) => return Err(e),
    };
    if !big_eq(&ca1_expected, &ca.c1) {
        return Err(CryptoError::InvalidInput("witness does not satisfy Ca1 equation"));
    }
    let ca2_expected = match apply_sign_mod_n2(&expected.2, b[1], n2) {
        Ok(v) => v,
        Err(e) => return Err(e),
    };
    if !big_eq(&ca2_expected, &ca.c2) {
        return Err(CryptoError::InvalidInput("witness does not satisfy Ca2 equation"));
    }
    let ca3_expected = match apply_sign_mod_n2(&expected.3, b[2], n2) {
        Ok(v) => v,
        Err(e) => return Err(e),
    };
    if !big_eq(&ca3_expected, &ca.c3) {
        return Err(CryptoError::InvalidInput("witness does not satisfy Ca3 equation"));
    }
    let ca4_expected = match apply_sign_mod_n2(&expected.4, b[3], n2) {
        Ok(v) => v,
        Err(e) => return Err(e),
    };
    if !big_eq(&ca4_expected, &ca.c4) {
        return Err(CryptoError::InvalidInput("witness does not satisfy Ca4 equation"));
    }
    let ell = match derive_blinding_bits(params, 256) {
        Ok(v) => v,
        Err(e) => return Err(e),
    };
    let k_y = match sample_symmetric_bigint(ell) {
        Ok(v) => v,
        Err(e) => return Err(e),
    };
    let k_ry = match sample_symmetric_bigint(ell) {
        Ok(v) => v,
        Err(e) => return Err(e),
    };
    let k1 = match sample_symmetric_bigint(ell) {
        Ok(v) => v,
        Err(e) => return Err(e),
    };
    let k2 = match sample_symmetric_bigint(ell) {
        Ok(v) => v,
        Err(e) => return Err(e),
    };
    let k3 = match sample_symmetric_bigint(ell) {
        Ok(v) => v,
        Err(e) => return Err(e),
    };
    let k4 = match sample_symmetric_bigint(ell) {
        Ok(v) => v,
        Err(e) => return Err(e),
    };
    let (r_y_elem, r1, r2, r3, r4) = match mult_commitments_exec(params, cb, &k_y, &k_ry, &k1, &k2, &k3, &k4) {
        Ok(v) => v,
        Err(e) => return Err(e),
    };
    let e = fs_challenge_for_cs_mult(params, ca, cb, cy, &r_y_elem, &r1, &r2, &r3, &r4);
    let e_bi = int_of(&e);
    let z_y = k_y.add(&e_bi.mul(y));
    let z_ry = k_ry.add(&e_bi.mul(r_y));
    let z1 = k1.add(&e_bi.mul(&gamma1));
    let z2 = k2.add(&e_bi.mul(&gamma2));
    let z3 = k3.add(&e_bi.mul(&gamma3));
    let z4 = k4.add(&e_bi.mul(&gamma4));
    let out = CsMultProof { r_y: r_y_elem, r1, r2, r3, r4, z_y, z_ry, z1, z2, z3, z4 };
    proof {
        let ell_n = blinding_bits_spec(*params, 256) as nat;
        assert(cs_mult_prover_output(*params, *ca, *cb, cy@, *oa, *ob, y@, r_y@, ell_n, out));
        if params.n2@ > 1 && commit_bases_units(*params) && commitment_units(*cb, params.n2@) {
            lemma_cs_mult_complete(*params, *ca, *cb, cy@, *oa, *ob, y@, r_y@, b_y, b, ell_n, out);
        }
    }
    Ok(out)
}

/// When the multiplication verifier fails: `n^2` is zero or a signed power
/// of the doubled responses is undefined.
pub open spec fn cs_mult_fails(params: CsCommitParams, cb: CsCommitment, proof: CsMultProof) -> bool {
    params.n2@ == 0 || !mult_commitments_ok(
        params,
        cb,
        2 * proof.z_y@,
        2 * proof.z_ry@,
        2 * proof.z1@,
        2 * proof.z2@,
        2 * proof.z3@,
        2 * proof.z4@,
    )
}

/// VerifyMultCS: checks the five squared equations
/// `R_y^2 Cy^(2e) == g'^(2 z_y) h'^(2 z_ry)` and, for each component,
/// `R_i^2 Ca_i^(2e) == Cb_i^(2 z_y)` times the blinding at the doubled responses.
///
/// Fails when `n^2` is zero or a signed power is undefined.
pub fn verify_cs_mult(params: &CsCommitParams, ca: &CsCommitment, cb: &CsCommitment, cy: &Nat, proof: &CsMultProof) -> (r:
    CryptoResult<bool>)
    ensures
        r is Err <==> cs_mult_fails(*params, *cb, *proof),
        r is Err ==> r == Err::<bool, CryptoError>(verifier_error(params.n2@)),
        r matches Ok(b) ==> b == cs_mult_accepts(*params, *ca, *cb, cy@, *proof),
        r == Ok::<bool, CryptoError>(true) ==> ({
            let n2 = (*params).n2@;
            let e = cs_mult_challenge((*params), (*ca), (*cb), cy@, ((*proof).r_y@, (*proof).r1@, (*proof).r2@, (*proof).r3@, (*proof).r4@));
            &&& (signed_pow((*params).g_prime@, 2 * (*proof).z_y@, n2) * signed_pow((*params).h_prime@, 2 * (*proof).z_ry@, n2)) % n2 == (pow_mod((*proof).r_y@, 2, n2) * pow_mod(cy@, 2 * e, n2)) % n2
            &&& (signed_pow((*cb).c1@, 2 * (*proof).z_y@, n2) * signed_pow((*params).g@, 2 * (*proof).z1@, n2)) % n2 == (pow_mod((*proof).r1@, 2, n2) * pow_mod((*ca).c1@, 2 * e, n2)) % n2
            &&& ((signed_pow((*cb).c2@, 2 * (*proof).z_y@, n2) * signed_pow((*params).g_prime@, 2 * (*proof).z1@, n2)) * signed_pow((*params).h_prime@, 2 * (*proof).z2@, n2)) % n2 == (pow_mod((*proof).r2@, 2, n2) * pow_mod((*ca).c2@, 2 * e, n2)) % n2
            &&& (signed_pow((*cb).c3@, 2 * (*proof).z_y@, n2) * signed_pow((*params).g@, 2 * (*proof).z3@, n2)) % n2 == (pow_mod((*proof).r3@, 2, n2) * pow_mod((*ca).c3@, 2 * e, n2)) % n2
            &&& ((signed_pow((*cb).c4@, 2 * (*proof).z_y@, n2) * signed_pow((*params).g_prime@, 2 * (*proof).z3@, n2)) * signed_pow((*params).h_prime@, 2 * (*proof).z4@, n2)) % n2 == (pow_mod((*proof).r4@, 2, n2) * pow_mod((*ca).c4@, 2 * e, n2)) % n2
        }),
{
    let n2 = &params.n2;
    if big_is_zero(n2) {
        return Err(CryptoError::InvalidInput("n^2 must be non-zero"));
    }
    let e = fs_challenge_for_cs_mult(params, ca, cb, cy, &proof.r_y, &proof.r1, &proof.r2, &proof.r3, &proof.r4);
    let lhs = match mult_commitments_exec(params, cb, &twice(&proof.z_y), &twice(&proof.z_ry), &twice(&proof.z1), &twice(&proof.z2), &twice(&proof.z3), &twice(&proof.z4)) {
        Ok(v) => v,
        Err(err) => return Err(err),
    };
    let ok_y = big_eq(&lhs.0, &sq_rhs_exec(&proof.r_y, cy, &e, n2));
    let ok1 = big_eq(&lhs.1, &sq_rhs_exec(&proof.r1, &ca.c1, &e, n2));
    let ok2 = big_eq(&lhs.2, &sq_rhs_exec(&proof.r2, &ca.c2, &e, n2));
    let ok3 = big_eq(&lhs.3, &sq_rhs_exec(&proof.r3, &ca.c3, &e, n2));
    let ok4 = big_eq(&lhs.4, &sq_rhs_exec(&proof.r4, &ca.c4, &e, n2));
    Ok(ok_y && ok1 && ok2 && ok3 && ok4)
}

// ---------------------------------------------------------------------------
// Encryption proof.
// ---------------------------------------------------------------------------

/// Challenge of the encryption proof:
/// `H(n, g*, g', h', k, Ca, Cy, R_y, R_1..R_4)`.
pub open spec fn cs_enc_challenge(params: CsCommitParams, k: nat, ca: CsCommitment, cy: nat, r: (nat, nat, nat, nat, nat)) -> nat {
    challenge_of(
        seq![params.n@, params.g_star@, params.g_prime@, params.h_prime@, k, ca.c1@, ca.c2@, ca.c3@, ca.c4@, cy, r.0, r.1, r.2, r.3, r.4],
    )
}

/// The encryption-proof challenge, computed.
fn fs_challenge_for_cs_enc(params: &CsCommitParams, k: &Nat, ca: &CsCommitment, cy: &Nat, ry: &Nat, r1: &Nat, r2: &Nat, r3: &Nat, r4: &Nat) -> (e: Nat)
    ensures
        e@ == cs_enc_challenge(*params, k@, *ca, cy@, (ry@, r1@, r2@, r3@, r4@)),
{
    let vals: [&Nat; 15] = [&params.n, &params.g_star, &params.g_prime, &params.h_prime, k, &ca.c1, &ca.c2, &ca.c3, &ca.c4, cy, ry, r1, r2, r3, r4];
    proof {
        assert(vals@.map_values(|x: &Nat| x@) =~= seq![params.n@, params.g_star@, params.g_prime@, params.h_prime@, k@, ca.c1@, ca.c2@, ca.c3@, ca.c4@, cy@, ry@, r1@, r2@, r3@, r4@]);
    }
    fiat_shamir_challenge_biguints(&vals)
}

/// The blinding commitments of the encryption proof for given exponents:
/// `R_y = g'^ky h'^kry`, `R_1 = g*^kra g'^ks1`, `R_2 = g'^ks1 h'^kr1`,
/// `R_3 = k^kra h*^ky g'^ks2`, `R_4 = g'^ks2 h'^kr2`.
pub open spec fn enc_commitments(params: CsCommitParams, k: nat, ky: int, kry: int, kra: int, ks1: int, kr1: int, ks2: int, kr2: int) -> (nat, nat, nat, nat, nat) {
    let n2 = params.n2@;
    (
        sp_pair(params, ky, kry),
        sp2(params.g_star@, kra, params.g_prime@, ks1, n2),
        sp_pair(params, ks1, kr1),
        sp3(k, kra, params.h_star@, ky, params.g_prime@, ks2, n2),
        sp_pair(params, ks2, kr2),
    )
}

/// The encryption commitments are defined for these exponents.
pub open spec fn enc_commitments_ok(params: CsCommitParams, k: nat, ky: int, kry: int, kra: int, ks1: int, kr1: int, ks2: int, kr2: int) -> bool {
    let n2 = params.n2@;
    &&& sp_pair_ok(params, ky, kry)
    &&& signed_pow_ok(params.g_star@, kra, n2) && signed_pow_ok(params.g_prime@, ks1, n2)
    &&& sp_pair_ok(params, ks1, kr1)
    &&& signed_pow_ok(k, kra, n2) && signed_pow_ok(params.h_star@, ky, n2) && signed_pow_ok(params.g_prime@, ks2, n2)
    &&& sp_pair_ok(params, ks2, kr2)
}

/// The encryption witness holds: the signs `b` are those of the opening,
/// `Cy = b_y g'^y h'^r_y`, and `Ca` commits to `Enc_k(y; r_a)`:
/// `Ca1 = b1 g*^r_a g'^s1`, `Ca2 = b2 g'^s1 h'^r1`,
/// `Ca3 = b3 k^r_a h*^y g'^s2`, `Ca4 = b4 g'^s2 h'^r2`.
pub open spec fn enc_witness_holds(params: CsCommitParams, k: nat, ca: CsCommitment, cy: nat, oa: CsCommitOpening, y: int, r_y: int, r_a: int, b_y: i8, b: [i8; 4]) -> bool {
    let n2 = params.n2@;
    &&& pm_one(b_y) && pm_one(b[0]) && pm_one(b[1]) && pm_one(b[2]) && pm_one(b[3])
    &&& b[0] == oa.a1 && b[1] == oa.b1 && b[2] == oa.a2 && b[3] == oa.b2
    &&& enc_commitments_ok(params, k, y, r_y, r_a, oa.s1@ as int, oa.r1@ as int, oa.s2@ as int, oa.r2@ as int)
    &&& {
        let c = enc_commitments(params, k, y, r_y, r_a, oa.s1@ as int, oa.r1@ as int, oa.s2@ as int, oa.r2@ as int);
        &&& cy == apply_sign_spec(c.0, b_y, n2)
        &&& ca.c1@ == apply_sign_spec(c.1, b[0], n2)
        &&& ca.c2@ == apply_sign_spec(c.2, b[1], n2)
        &&& ca.c3@ == apply_sign_spec(c.3, b[2], n2)
        &&& ca.c4@ == apply_sign_spec(c.4, b[3], n2)
    }
}

/// What the prover of an encryption outputs: seven blinders in
/// `[-2^ell, 2^ell]`, their commitments, and responses `z = k + e w`.
pub open spec fn cs_enc_prover_output(params: CsCommitParams, k: nat, ca: CsCommitment, cy: nat, oa: CsCommitOpening, y: int, r_y: int, r_a: int, ell: nat, p: CsEncProof) -> bool {
    exists|ky: int, kry: int, kra: int, ks1: int, kr1: int, ks2: int, kr2: int|
        #![trigger enc_commitments(params, k, ky, kry, kra, ks1, kr1, ks2, kr2)]
        in_sym(ky, ell) && in_sym(kry, ell) && in_sym(kra, ell) && in_sym(ks1, ell) && in_sym(kr1, ell) && in_sym(ks2, ell)
            && in_sym(kr2, ell) && (p.r_y@, p.r1@, p.r2@, p.r3@, p.r4@) == enc_commitments(params, k, ky, kry, kra, ks1, kr1, ks2, kr2)
            && {
            let e = cs_enc_challenge(params, k, ca, cy, (p.r_y@, p.r1@, p.r2@, p.r3@, p.r4@));
            &&& p.z_y@ == ky + e * y
            &&& p.z_ry@ == kry + e * r_y
            &&& p.z_ra@ == kra + e * r_a
            &&& p.z_s1@ == ks1 + e * oa.s1@
            &&& p.z_r1@ == kr1 + e * oa.r1@
            &&& p.z_s2@ == ks2 + e * oa.s2@
            &&& p.z_r2@ == kr2 + e * oa.r2@
        }
}

/// The five squared equations of the encryption proof.
pub open spec fn cs_enc_accepts(params: CsCommitParams, k: nat, ca: CsCommitment, cy: nat, p: CsEncProof) -> bool {
    let n2 = params.n2@;
    let e = cs_enc_challenge(params, k, ca, cy, (p.r_y@, p.r1@, p.r2@, p.r3@, p.r4@));
    let lhs = enc_commitments(params, k, 2 * p.z_y@, 2 * p.z_ry@, 2 * p.z_ra@, 2 * p.z_s1@, 2 * p.z_r1@, 2 * p.z_s2@, 2 * p.z_r2@);
    &&& lhs.0 == sq_rhs(p.r_y@, cy, e, n2)
    &&& lhs.1 == sq_rhs(p.r1@, ca.c1@, e, n2)
    &&& lhs.2 == sq_rhs(p.r2@, ca.c2@, e, n2)
    &&& lhs.3 == sq_rhs(p.r3@, ca.c3@, e, n2)
    &&& lhs.4 == sq_rhs(p.r4@, ca.c4@, e, n2)
}

/// Completeness of the encryption proof: when the witness holds and the
/// bases `g', h', g*, h*` and the key `k` are units, the proof that the
/// prover outputs is accepted.
pub proof fn lemma_cs_enc_complete(
    params: CsCommitParams,
    k: nat,
    ca: CsCommitment,
    cy: nat,
    oa: CsCommitOpening,
    y: int,
    r_y: int,
    r_a: int,
    b_y: i8,
    b: [i8; 4],
    ell: nat,
    p: CsEncProof,
)
    requires
        params.n2@ > 1,
        commit_bases_units(params),
        spec_gcd(params.n2@, params.g_star@) == 1,
        spec_gcd(params.n2@, params.h_star@) == 1,
        spec_gcd(params.n2@, k) == 1,
        enc_witness_holds(params, k, ca, cy, oa, y, r_y, r_a, b_y, b),
        cs_enc_prover_output(params, k, ca, cy, oa, y, r_y, r_a, ell, p),
    ensures
        cs_enc_accepts(params, k, ca, cy, p),
{
    let n2 = params.n2@;
    let (ky, kry, kra, ks1, kr1, ks2, kr2) = choose|ky: int, kry: int, kra: int, ks1: int, kr1: int, ks2: int, kr2: int|
        #![trigger enc_commitments(params, k, ky, kry, kra, ks1, kr1, ks2, kr2)]
        in_sym(ky, ell) && in_sym(kry, ell) && in_sym(kra, ell) && in_sym(ks1, ell) && in_sym(kr1, ell) && in_sym(ks2, ell)
            && in_sym(kr2, ell) && (p.r_y@, p.r1@, p.r2@, p.r3@, p.r4@) == enc_commitments(params, k, ky, kry, kra, ks1, kr1, ks2, kr2)
            && {
            let e = cs_enc_challenge(params, k, ca, cy, (p.r_y@, p.r1@, p.r2@, p.r3@, p.r4@));
            &&& p.z_y@ == ky + e * y
            &&& p.z_ry@ == kry + e * r_y
            &&& p.z_ra@ == kra + e * r_a
            &&& p.z_s1@ == ks1 + e * oa.s1@
            &&& p.z_r1@ == kr1 + e * oa.r1@
            &&& p.z_s2@ == ks2 + e * oa.s2@
            &&& p.z_r2@ == kr2 + e * oa.r2@
        };
    let e = cs_enc_challenge(params, k, ca, cy, (p.r_y@, p.r1@, p.r2@, p.r3@, p.r4@));
    let gp = params.g_prime@;
    let hp = params.h_prime@;
    let gs = params.g_star@;
    let hs = params.h_star@;
    let (s1, r1, s2, r2) = (oa.s1@ as int, oa.r1@ as int, oa.s2@ as int, oa.r2@ as int);
    let fk = enc_commitments(params, k, ky, kry, kra, ks1, kr1, ks2, kr2);
    let fw = enc_commitments(params, k, y, r_y, r_a, s1, r1, s2, r2);
    let lhs = enc_commitments(params, k, 2 * p.z_y@, 2 * p.z_ry@, 2 * p.z_ra@, 2 * p.z_s1@, 2 * p.z_r1@, 2 * p.z_s2@, 2 * p.z_r2@);
    lemma_sp2_square(gp, ky, y, p.z_y@, hp, kry, r_y, p.z_ry@, e, n2);
    lemma_sp2_square(gs, kra, r_a, p.z_ra@, gp, ks1, s1, p.z_s1@, e, n2);
    lemma_sp2_square(gp, ks1, s1, p.z_s1@, hp, kr1, r1, p.z_r1@, e, n2);
    lemma_sp3_square(k, kra, r_a, p.z_ra@, hs, ky, y, p.z_y@, gp, ks2, s2, p.z_s2@, e, n2);
    lemma_sp2_square(gp, ks2, s2, p.z_s2@, hp, kr2, r2, p.z_r2@, e, n2);
    vstd::arithmetic::div_mod::lemma_mod_bound((signed_pow(gp, y, n2) * signed_pow(hp, r_y, n2)) as int, n2 as int);
    vstd::arithmetic::div_mod::lemma_mod_bound((signed_pow(gs, r_a, n2) * signed_pow(gp, s1, n2)) as int, n2 as int);
    vstd::arithmetic::div_mod::lemma_mod_bound((signed_pow(gp, s1, n2) * signed_pow(hp, r1, n2)) as int, n2 as int);
    vstd::arithmetic::div_mod::lemma_mod_bound(((signed_pow(k, r_a, n2) * signed_pow(hs, y, n2)) * signed_pow(gp, s2, n2)) as int, n2 as int);
    vstd::arithmetic::div_mod::lemma_mod_bound((signed_pow(gp, s2, n2) * signed_pow(hp, r2, n2)) as int, n2 as int);
    lemma_signed_check(lhs.0, fk.0, fw.0, p.r_y@, cy, b_y, e, n2);
    lemma_signed_check(lhs.1, fk.1, fw.1, p.r1@, ca.c1@, b[0], e, n2);
    lemma_signed_check(lhs.2, fk.2, fw.2, p.r2@, ca.c2@, b[1], e, n2);
    lemma_signed_check(lhs.3, fk.3, fw.3, p.r3@, ca.c3@, b[2], e, n2);
    lemma_signed_check(lhs.4, fk.4, fw.4, p.r4@, ca.c4@, b[3], e, n2);
}

/// Computes the five encryption commitments for given exponents.
fn enc_commitments_exec(params: &CsCommitParams, k: &Nat, ky: &Int, kry: &Int, kra: &Int, ks1: &Int, kr1: &Int, ks2: &Int, kr2: &Int) -> (r:
    CryptoResult<(Nat, Nat, Nat, Nat, Nat)>)
    requires
        params.n2@ > 0,
    ensures
        r is Ok <==> enc_commitments_ok(*params, k@, ky@, kry@, kra@, ks1@, kr1@, ks2@, kr2@),
        r matches Ok(c) ==> (c.0@, c.1@, c.2@, c.3@, c.4@) == enc_commitments(*params, k@, ky@, kry@, kra@, ks1@, kr1@, ks2@, kr2@),
        r matches Err(e) ==> e == CryptoError::ModularInverseUnavailable,
{
    let n2 = &params.n2;
    let c0 = match sp2_exec(&params.g_prime, ky, &params.h_prime, kry, n2) {
        Ok(v) => v,
        Err(e) => return Err(e),
    };
    let c1 = match sp2_exec(&params.g_star, kra, &params.g_prime, ks1, n2) {
        Ok(v) => v,
        Err(e) => return Err(e),
    };
    let c2 = match sp2_exec(&params.g_prime, ks1, &params.h_prime, kr1, n2) {
        Ok(v) => v,
        Err(e) => return Err(e),
    };
    let c3 = match sp3_exec(k, kra, &params.h_star, ky, &params.g_prime, ks2, n2) {
        Ok(v) => v,
        Err(e) => return Err(e),
    };
    let c4 = match sp2_exec(&params.g_prime, ks2, &params.h_prime, kr2, n2) {
        Ok(v) => v,
        Err(e) => return Err(e),
    };
    Ok((c0, c1, c2, c3, c4))
}

/// ProveEncCS: proves that `Ca` commits to an encryption under `k` of the
/// integer `y` committed in `Cy`, with encryption randomness `r_a`; seven
/// blinders from `[-2^ell, 2^ell]`, `ell = B + 2 lambda + 256`.
///
/// Fails when a sign is out of range or differs from the opening's, a
/// signed power is undefined, the witness does not hold, or the blinding
/// length cannot be derived.
pub fn prove_cs_enc(params: &CsCommitParams, k: &Nat, ca: &CsCommitment, cy: &Nat, oa: &CsCommitOpening, y: &Int, r_y: &Int, r_a: &Int, b_y: i8, b: [i8; 4]) -> (r:
    CryptoResult<CsEncProof>)
    requires
        pm_one(b_y) && pm_one(b[0]) && pm_one(b[1]) && pm_one(b[2]) && pm_one(b[3]) ==> params.n2@ > 0,
    ensures
        !(pm_one(b_y) && pm_one(b[0]) && pm_one(b[1]) && pm_one(b[2]) && pm_one(b[3])) ==> r == Err::<CsEncProof, CryptoError>(
            CryptoError::InvalidInput("b_y and b_i must be in {-1,+1}"),
        ),
        pm_one(b_y) && pm_one(b[0]) && pm_one(b[1]) && pm_one(b[2]) && pm_one(b[3]) && !(oa.a1 == b[0] && oa.b1 == b[1]
            && oa.a2 == b[2] && oa.b2 == b[3]) ==> r == Err::<CsEncProof, CryptoError>(
            CryptoError::InvalidInput("input b_i do not match signs from Oa"),
        ),
        r is Ok ==> enc_witness_holds(*params, k@, *ca, cy@, *oa, y@, r_y@, r_a@, b_y, b) && symmetric_blinding_ok(*params, 256),
        enc_witness_holds(*params, k@, *ca, cy@, *oa, y@, r_y@, r_a@, b_y, b) && symmetric_blinding_ok(*params, 256)
            && commit_bases_units(*params) && spec_gcd(params.n2@, params.g_star@) == 1 && spec_gcd(params.n2@, params.h_star@) == 1
            && spec_gcd(params.n2@, k@) == 1 ==> r is Ok,
        r matches Err(e) ==> e is InvalidInput || e == CryptoError::ModularInverseUnavailable,
        r matches Ok(p) ==> cs_enc_prover_output(*params, k@, *ca, cy@, *oa, y@, r_y@, r_a@, blinding_bits_spec(*params, 256) as nat, p),
        r matches Ok(p) ==> (params.n2@ > 1 && commit_bases_units(*params) && spec_gcd(params.n2@, params.g_star@) == 1
            && spec_gcd(params.n2@, params.h_star@) == 1 && spec_gcd(params.n2@, k@) == 1 ==> cs_enc_accepts(
            *params,
            k@,
            *ca,
            cy@,
            p,
        )),
{
    if !is_pm_one(b_y) || !is_pm_one(b[0]) || !is_pm_one(b[1]) || !is_pm_one(b[2]) || !is_pm_one(b[3]) {
        return Err(CryptoError::InvalidInput("b_y and b_i must be in {-1,+1}"));
    }
    if oa.a1 != b[0] || oa.b1 != b[1] || oa.a2 != b[2] || oa.b2 != b[3] {
        return Err(CryptoError::InvalidInput("input b_i do not match signs from Oa"));
    }
    let n2 = &params.n2;
    let s1 = int_of(&oa.s1);
    let r1w = int_of(&oa.r1);
    let s2 = int_of(&oa.s2);
    let r2w = int_of(&oa.r2);
    let expected = match enc_commitments_exec(params, k, y, r_y, r_a, &s1, &r1w, &s2, &r2w) {
        Ok(v) => v,
        Err(e) => return Err(e),
    };
    let cy_expected = match apply_sign_mod_n2(&expected.0, b_y, n2) {
        Ok(v) => v,
        Err(e) => return Err(e),
    };
    if !big_eq(&cy_expected, cy) {
        return Err(CryptoError::InvalidInput("witness does not satisfy Cy equation"));
    }
    let ca1_expected = match apply_sign_mod_n2(&expected.1, b[0], n2) {
        Ok(v) => v,
        Err(e) => return Err(e),
    };
    if !big_eq(&ca1_expected, &ca.c1) {
        return Err(CryptoError::InvalidInput("witness does not satisfy Ca1 equation"));
    }
    let ca2_expected = match apply_sign_mod_n2(&expected.2, b[1], n2) {
        Ok(v) => v,
        Err(e) => return Err(e),
    };
    if !big_eq(&ca2_expected, &ca.c2) {
        return Err(CryptoError::InvalidInput("witness does not satisfy Ca2 equation"));
    }
    let ca3_expected = match apply_sign_mod_n2(&expected.3, b[2], n2) {
        Ok(v) => v,
        Err(e) => return Err(e),
    };
    if !big_eq(&ca3_expected, &ca.c3) {
        return Err(CryptoError::InvalidInput("witness does not satisfy Ca3 equation"));
    }
    let ca4_expected = match apply_sign_mod_n2(&expected.4, b[3], n2) {
        Ok(v) => v,
        Err(e) => return Err(e),
    };
    if !big_eq(&ca4_expected, &ca.c4) {
        return Err(CryptoError::InvalidInput("witness does not satisfy Ca4 equation"));
    }
    let ell = match derive_blinding_bits(params, 256) {
        Ok(v) => v,
        Err(e) => return Err(e),
    };
    let k_y = match sample_symmetric_bigint(ell) {
        Ok(v) => v,
        Err(e) => return Err(e),
    };
    let k_ry = match sample_symmetric_bigint(ell) {
        Ok(v) => v,
        Err(e) => return Err(e),
    };
    let k_ra = match sample_symmetric_bigint(ell) {
        Ok(v) => v,
        Err(e) => return Err(e),
    };
    let k_s1 = match sample_symmetric_bigint(ell) {
        Ok(v) => v,
        Err(e) => return Err(e),
    };
    let k_r1 = match sample_symmetric_bigint(ell) {
        Ok(v) => v,
        Err(e) => return Err(e),
    };
    let k_s2 = match sample_symmetric_bigint(ell) {
        Ok(v) => v,
        Err(e) => return Err(e),
    };
    let k_r2 = match sample_symmetric_bigint(ell) {
        Ok(v) => v,
        Err(e) => return Err(e),
    };
    let (r_y_elem, r1, r2, r3, r4) = match enc_commitments_exec(params, k, &k_y, &k_ry, &k_ra, &k_s1, &k_r1, &k_s2, &k_r2) {
        Ok(v) => v,
        Err(e) => return Err(e),
    };
    let e = fs_challenge_for_cs_enc(params, k, ca, cy, &r_y_elem, &r1, &r2, &r3, &r4);
    let e_bi = int_of(&e);
    let out = CsEncProof {
        r_y: r_y_elem,
        r1,
        r2,
        r3,
        r4,
        z_y: k_y.add(&e_bi.mul(y)),
        z_ry: k_ry.add(&e_bi.mul(r_y)),
        z_ra: k_ra.add(&e_bi.mul(r_a)),
        z_s1: k_s1.add(&e_bi.mul(&s1)),
        z_r1: k_r1.add(&e_bi.mul(&r1w)),
        z_s2: k_s2.add(&e_bi.mul(&s2)),
        z_r2: k_r2.add(&e_bi.mul(&r2w)),
    };
    proof {
        let ell_n = blinding_bits_spec(*params, 256) as nat;
        assert(cs_enc_prover_output(*params, k@, *ca, cy@, *oa, y@, r_y@, r_a@, ell_n, out));
        if params.n2@ > 1 && commit_bases_units(*params) && spec_gcd(params.n2@, params.g_star@) == 1
            && spec_gcd(params.n2@, params.h_star@) == 1 && spec_gcd(params.n2@, k@) == 1 {
            lemma_cs_enc_complete(*params, k@, *ca, cy@, *oa, y@, r_y@, r_a@, b_y, b, ell_n, out);
        }
    }
    Ok(out)
}

/// When the encryption verifier fails: `n^2` is zero or a signed power of
/// the doubled responses is undefined.
pub open spec fn cs_enc_fails(params: CsCommitParams, k: nat, proof: CsEncProof) -> bool {
    params.n2@ == 0 || !enc_commitments_ok(
        params,
        k,
        2 * proof.z_y@,
        2 * proof.z_ry@,
        2 * proof.z_ra@,
        2 * proof.z_s1@,
        2 * proof.z_r1@,
        2 * proof.z_s2@,
        2 * proof.z_r2@,
    )
}

/// VerifyEncCS: checks the five squared equations of the encryption proof.
///
/// Fails when `n^2` is zero or a signed power is undefined.
pub fn verify_cs_enc(params: &CsCommitParams, k: &Nat, ca: &CsCommitment, cy: &Nat, proof: &CsEncProof) -> (r:
    CryptoResult<bool>)
    ensures
        r is Err <==> cs_enc_fails(*params, k@, *proof),
        r is Err ==> r == Err::<bool, CryptoError>(verifier_error(params.n2@)),
        r matches Ok(b) ==> b == cs_enc_accepts(*params, k@, *ca, cy@, *proof),
        r == Ok::<bool, CryptoError>(true) ==> ({
            let n2 = (*params).n2@;
            let e = cs_enc_challenge((*params), k@, (*ca), cy@, ((*proof).r_y@, (*proof).r1@, (*proof).r2@, (*proof).r3@, (*proof).r4@));
            &&& (signed_pow((*params).g_prime@, 2 * (*proof).z_y@, n2) * signed_pow((*params).h_prime@, 2 * (*proof).z_ry@, n2)) % n2 == (pow_mod((*proof).r_y@, 2, n2) * pow_mod(cy@, 2 * e, n2)) % n2
            &&& (signed_pow((*params).g_star@, 2 * (*proof).z_ra@, n2) * signed_pow((*params).g_prime@, 2 * (*proof).z_s1@, n2)) % n2 == (pow_mod((*proof).r1@, 2, n2) * pow_mod((*ca).c1@, 2 * e, n2)) % n2
            &&& (signed_pow((*params).g_prime@, 2 * (*proof).z_s1@, n2) * signed_pow((*params).h_prime@, 2 * (*proof).z_r1@, n2)) % n2 == (pow_mod((*proof).r2@, 2, n2) * pow_mod((*ca).c2@, 2 * e, n2)) % n2
            &&& ((signed_pow(k@, 2 * (*proof).z_ra@, n2) * signed_pow((*params).h_star@, 2 * (*proof).z_y@, n2)) * signed_pow((*params).g_prime@, 2 * (*proof).z_s2@, n2)) % n2 == (pow_mod((*proof).r3@, 2, n2) * pow_mod((*ca).c3@, 2 * e, n2)) % n2
            &&& (signed_pow((*params).g_prime@, 2 * (*proof).z_s2@, n2) * signed_pow((*params).h_prime@, 2 * (*proof).z_r2@, n2)) % n2 == (pow_mod((*proof).r4@, 2, n2) * pow_mod((*ca).c4@, 2 * e, n2)) % n2
        }),
{
    let n2 = &params.n2;
    if big_is_zero(n2) {
        return Err(CryptoError::InvalidInput("n^2 must be non-zero"));
    }
    let e = fs_challenge_for_cs_enc(params, k, ca, cy, &proof.r_y, &proof.r1, &proof.r2, &proof.r3, &proof.r4);
    let lhs = match enc_commitments_exec(params, k, &twice(&proof.z_y), &twice(&proof.z_ry), &twice(&proof.z_ra), &twice(&proof.z_s1), &twice(&proof.z_r1), &twice(&proof.z_s2), &twice(&proof.z_r2)) {
        Ok(v) => v,
        Err(err) => return Err(err),
    };
    let ok_y = big_eq(&lhs.0, &sq_rhs_exec(&proof.r_y, cy, &e, n2));
    let ok1 = big_eq(&lhs.1, &sq_rhs_exec(&proof.r1, &ca.c1, &e, n2));
    let ok2 = big_eq(&lhs.2, &sq_rhs_exec(&proof.r2, &ca.c2, &e, n2));
    let ok3 = big_eq(&lhs.3, &sq_rhs_exec(&proof.r3, &ca.c3, &e, n2));
    let ok4 = big_eq(&lhs.4, &sq_rhs_exec(&proof.r4, &ca.c4, &e, n2));
    Ok(ok_y && ok1 && ok2 && ok3 && ok4)
}


/// Soundness of the opening check: a proof that the verifier accepts
/// satisfies both squared opening equations,
/// `g'^(2 z_s1) h'^(2 z_r1) == R2^2 C2^(2e)` and
/// `g'^(2 z_s2) h'^(2 z_r2) == R4^2 C4^(2e)` modulo `n^2`.
pub proof fn lemma_cs_com_accepted_equations(params: CsCommitParams, com: CsCommitment, proof: CsComProof)
    requires
        cs_com_accepts(params, com, proof),
    ensures
        ({
            let n2 = params.n2@;
            let e = cs_com_challenge(params, com, proof.r2@, proof.r4@);
            &&& (pow_mod(params.g_prime@, 2 * proof.z_s1@, n2) * pow_mod(params.h_prime@, 2 * proof.z_r1@, n2)) % n2 == (pow_mod(proof.r2@, 2, n2) * pow_mod(com.c2@, 2 * e, n2)) % n2
            &&& (pow_mod(params.g_prime@, 2 * proof.z_s2@, n2) * pow_mod(params.h_prime@, 2 * proof.z_r2@, n2)) % n2 == (pow_mod(proof.r4@, 2, n2) * pow_mod(com.c4@, 2 * e, n2)) % n2
        }),
{
}

/// Soundness of the multiplication check: an accepted proof satisfies all
/// five squared equations, `g'^(2 z_y) h'^(2 z_ry) == R_y^2 Cy^(2e)` and,
/// for each component `i` of `Ca`, `Cb_i^(2 z_y)` times the blinding at the
/// doubled responses `== R_i^2 Ca_i^(2e)` modulo `n^2`.
pub proof fn lemma_cs_mult_accepted_equations(params: CsCommitParams, ca: CsCommitment, cb: CsCommitment, cy: nat, p: CsMultProof)
    requires
        cs_mult_accepts(params, ca, cb, cy, p),
    ensures
        ({
            let n2 = params.n2@;
            let e = cs_mult_challenge(params, ca, cb, cy, (p.r_y@, p.r1@, p.r2@, p.r3@, p.r4@));
            &&& (signed_pow(params.g_prime@, 2 * p.z_y@, n2) * signed_pow(params.h_prime@, 2 * p.z_ry@, n2)) % n2 == (pow_mod(p.r_y@, 2, n2) * pow_mod(cy, 2 * e, n2)) % n2
            &&& (signed_pow(cb.c1@, 2 * p.z_y@, n2) * signed_pow(params.g@, 2 * p.z1@, n2)) % n2 == (pow_mod(p.r1@, 2, n2) * pow_mod(ca.c1@, 2 * e, n2)) % n2
            &&& ((signed_pow(cb.c2@, 2 * p.z_y@, n2) * signed_pow(params.g_prime@, 2 * p.z1@, n2)) * signed_pow(params.h_prime@, 2 * p.z2@, n2)) % n2 == (pow_mod(p.r2@, 2, n2) * pow_mod(ca.c2@, 2 * e, n2)) % n2
            &&& (signed_pow(cb.c3@, 2 * p.z_y@, n2) * signed_pow(params.g@, 2 * p.z3@, n2)) % n2 == (pow_mod(p.r3@, 2, n2) * pow_mod(ca.c3@, 2 * e, n2)) % n2
            &&& ((signed_pow(cb.c4@, 2 * p.z_y@, n2) * signed_pow(params.g_prime@, 2 * p.z3@, n2)) * signed_pow(params.h_prime@, 2 * p.z4@, n2)) % n2 == (pow_mod(p.r4@, 2, n2) * pow_mod(ca.c4@, 2 * e, n2)) % n2
        }),
{
}

/// Soundness of the encryption check: an accepted proof satisfies all five
/// squared equations: `Cy` opens to `(y, r_y)` under `g', h'`, `Ca1` and
/// `Ca3` match the encryption of `y` under `k` with `r_a`, and `Ca2`, `Ca4`
/// open under `g', h'`, each at the doubled responses, modulo `n^2`.
pub proof fn lemma_cs_enc_accepted_equations(params: CsCommitParams, k: nat, ca: CsCommitment, cy: nat, p: CsEncProof)
    requires
        cs_enc_accepts(params, k, ca, cy, p),
    ensures
        ({
            let n2 = params.n2@;
            let e = cs_enc_challenge(params, k, ca, cy, (p.r_y@, p.r1@, p.r2@, p.r3@, p.r4@));
            &&& (signed_pow(params.g_prime@, 2 * p.z_y@, n2) * signed_pow(params.h_prime@, 2 * p.z_ry@, n2)) % n2 == (pow_mod(p.r_y@, 2, n2) * pow_mod(cy, 2 * e, n2)) % n2
            &&& (signed_pow(params.g_star@, 2 * p.z_ra@, n2) * signed_pow(params.g_prime@, 2 * p.z_s1@, n2)) % n2 == (pow_mod(p.r1@, 2, n2) * pow_mod(ca.c1@, 2 * e, n2)) % n2
            &&& (signed_pow(params.g_prime@, 2 * p.z_s1@, n2) * signed_pow(params.h_prime@, 2 * p.z_r1@, n2)) % n2 == (pow_mod(p.r2@, 2, n2) * pow_mod(ca.c2@, 2 * e, n2)) % n2
            &&& ((signed_pow(k, 2 * p.z_ra@, n2) * signed_pow(params.h_star@, 2 * p.z_y@, n2)) * signed_pow(params.g_prime@, 2 * p.z_s2@, n2)) % n2 == (pow_mod(p.r3@, 2, n2) * pow_mod(ca.c3@, 2 * e, n2)) % n2
            &&& (signed_pow(params.g_prime@, 2 * p.z_s2@, n2) * signed_pow(params.h_prime@, 2 * p.z_r2@, n2)) % n2 == (pow_mod(p.r4@, 2, n2) * pow_mod(ca.c4@, 2 * e, n2)) % n2
        }),
{
}


/// Soundness of the ciphertext-opening check: an accepted proof satisfies
/// the four squared equations, `g^(2 z_s1) == R1^2 (C1^2 / u^2)^e`,
/// `g'^(2 z_s1) h'^(2 z_r1) == R2^2 C2^(2e)`, `g^(2 z_s2) == R3^2 (C3^2 / v^2)^e`
/// and `g'^(2 z_s2) h'^(2 z_r2) == R4^2 C4^(2e)` modulo `n^2`.
pub proof fn lemma_cs_com_ct_accepted_equations(params: CsCommitParams, com: CsCommitment, u: nat, v: nat, p: CsComCtProof)
    requires
        cs_com_ct_accepts(params, com, u, v, p),
    ensures
        ({
            let n2 = params.n2@;
            let e = cs_com_ct_challenge(params, com, u, v, p);
            let a1 = (pow_mod(com.c1@, 2, n2) * inv_mod(pow_mod(u, 2, n2), n2)) % n2;
            let a3 = (pow_mod(com.c3@, 2, n2) * inv_mod(pow_mod(v, 2, n2), n2)) % n2;
            &&& pow_mod(params.g@, 2 * p.z_s1@, n2) == (pow_mod(p.r1@, 2, n2) * pow_mod(a1, e, n2)) % n2
            &&& (pow_mod(params.g_prime@, 2 * p.z_s1@, n2) * pow_mod(params.h_prime@, 2 * p.z_r1@, n2)) % n2 == (pow_mod(p.r2@, 2, n2) * pow_mod(com.c2@, 2 * e, n2)) % n2
            &&& pow_mod(params.g@, 2 * p.z_s2@, n2) == (pow_mod(p.r3@, 2, n2) * pow_mod(a3, e, n2)) % n2
            &&& (pow_mod(params.g_prime@, 2 * p.z_s2@, n2) * pow_mod(params.h_prime@, 2 * p.z_r2@, n2)) % n2 == (pow_mod(p.r4@, 2, n2) * pow_mod(com.c4@, 2 * e, n2)) % n2
        }),
{
}

/// Soundness of the addition check: an accepted proof's challenge is the
/// hash of the quotients `D_i = Cc_i / (Ca_i Cb_i)` and of the squares
/// rebuilt from the responses, `g^(2 z1) D1^(2e)`, `g'^(2 z1) h'^(2 z2) D2^(2e)`,
/// `g^(2 z3) D3^(2e)` and `g'^(2 z3) h'^(2 z4) D4^(2e)` modulo `n^2`.
pub proof fn lemma_cs_add_accepted_equations(params: CsCommitParams, ca: CsCommitment, cb: CsCommitment, cc: CsCommitment, p: CsAddProof)
    requires
        cs_add_accepts(params, ca, cb, cc, p),
    ensures
        ({
            let n2 = params.n2@;
            let d = add_relation_ds(ca, cb, cc, n2);
            let two_e = 2 * p.e@;
            p.e@ == cs_add_challenge(
                params,
                d,
                (
                    (signed_pow(params.g@, 2 * p.z1@, n2) * pow_mod(d.0, two_e, n2)) % n2,
                    ((signed_pow(params.g_prime@, 2 * p.z1@, n2) * signed_pow(params.h_prime@, 2 * p.z2@, n2)) * pow_mod(d.1, two_e, n2)) % n2,
                    (signed_pow(params.g@, 2 * p.z3@, n2) * pow_mod(d.2, two_e, n2)) % n2,
                    ((signed_pow(params.g_prime@, 2 * p.z3@, n2) * signed_pow(params.h_prime@, 2 * p.z4@, n2)) * pow_mod(d.3, two_e, n2)) % n2,
                ),
            )
        }),
{
}

} // verus!
