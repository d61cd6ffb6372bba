//! Camenisch-Shoup encryption in the absolute-value group `|QR_{n^2}|`.
use crate::bignum::{big_add, big_lt, big_modpow, big_mul, big_rem, big_shr, big_sub, big_div, big_is_zero, bit_len, pow_mod, random_range, Nat};
use crate::error::{CryptoError, CryptoResult};
use crate::math::{abs_qr_rep, abs_rep, generate_safe_rsa_modulus, inv_mod, is_abs_qr_sample, modinv, safe_modulus_shape, sample_abs_qr_element, spec_gcd};
use crate::math::{lemma_inv_mod_exists, lemma_inverse_gives_coprime, lemma_unit_neg};
use crate::powmod::{lemma_pow_mod_bound, lemma_pow_mod_mul, lemma_pow_mod_neg_even, lemma_pow_mod_product, lemma_unit_pow};
use vstd::arithmetic::div_mod::{lemma_fundamental_div_mod, lemma_mod_bound, lemma_mod_multiples_vanish, lemma_mul_mod_noop_left, lemma_mul_mod_noop_right, lemma_small_mod};
use vstd::arithmetic::power::pow;
use vstd::prelude::*;

verus! {

/// Parameters: the modulus `n`, `n^2`, a generator `g` of `|QR_{n^2}|`
/// and `h = 1 + n`.
#[derive(Debug, Clone)]
pub struct CsParams {
    pub n: Nat,
    pub n2: Nat,
    pub g: Nat,
    pub h: Nat,
}

/// Public key `k = |g^x| mod n^2`.
#[derive(Debug, Clone, PartialEq, Eq)]
pub struct CsPubKey {
    pub k: Nat,
}

/// Secret exponent `x`.
#[derive(Debug, Clone)]
pub struct CsSecretKey {
    pub x: Nat,
}

/// Ciphertext `(c0, c1)`.
#[derive(Debug, Clone, PartialEq, Eq)]
pub struct CsCiphertext {
    pub c0: Nat,
    pub c1: Nat,
}

impl View for CsCiphertext {
    type V = (nat, nat);

    open spec fn view(&self) -> (nat, nat) {
        (self.c0@, self.c1@)
    }
}

impl CsCiphertext {
    /// A copy of the ciphertext.
    pub fn copy(&self) -> (r: CsCiphertext)
        ensures
            r@ == self@,
    {
        CsCiphertext { c0: self.c0.copy(), c1: self.c1.copy() }
    }
}

impl CsPubKey {
    /// A copy of the key.
    pub fn copy(&self) -> (r: CsPubKey)
        ensures
            r.k@ == self.k@,
    {
        CsPubKey { k: self.k.copy() }
    }
}

impl CsParams {
    /// A copy of the parameters.
    pub fn copy(&self) -> (r: CsParams)
        ensures
            r.n@ == self.n@,
            r.n2@ == self.n2@,
            r.g@ == self.g@,
            r.h@ == self.h@,
    {
        CsParams { n: self.n.copy(), n2: self.n2.copy(), g: self.g.copy(), h: self.h.copy() }
    }
}

/// `Enc(pk, m; r)` with the randomness taken modulo `n`:
/// `(|g^r|, |k^r h^m|)` in `Z_{n^2}`.
pub open spec fn cs_enc_spec(n: nat, n2: nat, g: nat, h: nat, k: nat, m: nat, r: nat) -> (nat, nat) {
    (
        abs_rep(pow_mod(g, r % n, n2), n2),
        abs_rep((pow_mod(k, r % n, n2) * pow_mod(h, m, n2)) % n2, n2),
    )
}

/// `c1 / c0^x` lifted to the power `2t`, `t = 2^{-1} mod n`: the quantity
/// from which decryption reads the message.
pub open spec fn cs_dec_lifted(n: nat, n2: nat, x: nat, c0: nat, c1: nat) -> nat {
    let c0x = pow_mod(c0, x, n2);
    pow_mod((c1 * inv_mod(c0x, n2)) % n2, 2 * inv_mod(2, n), n2)
}

/// Componentwise product of two ciphertexts: the homomorphic sum.
pub open spec fn ct_add(a: (nat, nat), b: (nat, nat), n2: nat) -> (nat, nat) {
    ((a.0 * b.0) % n2, (a.1 * b.1) % n2)
}

/// Componentwise power of a ciphertext: the homomorphic scalar product.
pub open spec fn ct_scale(a: (nat, nat), s: nat, n2: nat) -> (nat, nat) {
    (pow_mod(a.0, s, n2), pow_mod(a.1, s, n2))
}

/// The shape of the parameters that `setup_cs` returns for `bits`: a
/// safe RSA modulus `n`, `n^2`, `h = 1 + n` and `g = |g'^n|` for a
/// sampled `g'` of `|QR_{n^2}|`.
pub open spec fn cs_setup_shape(p: CsParams, bits: nat) -> bool {
    &&& safe_modulus_shape(p.n@, bits)
    &&& p.n2@ == p.n@ * p.n@
    &&& p.h@ == p.n@ + 1
    &&& exists|gp: nat| #[trigger] is_abs_qr_sample(gp, p.n2@) && p.g@ == abs_rep(pow_mod(gp, p.n@, p.n2@), p.n2@)
}

/// Setup: a safe RSA modulus `n = pq` of `bits` bits, `g = |g'^n|` for a
/// sampled `g'` of `|QR_{n^2}|`, and `h = 1 + n`.
pub fn setup_cs(bits: usize) -> (r: CryptoResult<CsParams>)
    ensures
        (bits < 32 || bits % 2 != 0) ==> r == Err::<CsParams, CryptoError>(CryptoError::InvalidInput("RSA bits must be even and >= 32")),
        r matches Err(e) ==> ((e is InvalidInput) && (bits < 32 || bits % 2 != 0)) || e
            == CryptoError::PrimeGenerationFailed,
        r matches Ok(p) ==> cs_setup_shape(p, bits as nat),
{
    let n = match generate_safe_rsa_modulus(bits) {
        Ok((_, _, n)) => n,
        Err(e) => return Err(e),
    };
    let n2 = big_mul(&n, &n);
    proof {
        assert(n2@ >= 9) by (nonlinear_arith)
            requires
                n@ >= 9,
                n2@ == n@ * n@,
        ;
    }
    let g_prime = sample_abs_qr_element(&n2);
    let g_raw = big_modpow(&g_prime, &n, &n2);
    proof {
        lemma_mod_bound(vstd::arithmetic::power::pow(g_prime@ as int, n@), n2@ as int);
    }
    let g = abs_qr_rep(&g_raw, &n2);
    let h = big_add(&n, &Nat::one());
    Ok(CsParams { n, n2, g, h })
}

/// KeyGen: a secret `x` drawn from `[1, n^2/4)` and `k = |g^x|`.
///
/// Fails when `n^2/4 <= 1`.
pub fn keygen_cs(params: &CsParams) -> (r: CryptoResult<(CsPubKey, CsSecretKey)>)
    ensures
        r is Err <==> params.n2@ / 4 <= 1,
        r matches Err(e) ==> e is InvalidInput,
        r matches Ok((pk, sk)) ==> 1 <= sk.x@ < params.n2@ / 4 && pk.k@ == abs_rep(
            pow_mod(params.g@, sk.x@, params.n2@),
            params.n2@,
        ),
{
    let one = Nat::one();
    let upper = big_shr(&params.n2, 2);
    proof {
        vstd::arithmetic::power2::lemma2_to64();
    }
    if !big_lt(&one, &upper) {
        return Err(CryptoError::InvalidInput("n^2 too small"));
    }
    let x = random_range(&one, &upper);
    let k_raw = big_modpow(&params.g, &x, &params.n2);
    proof {
        lemma_mod_bound(vstd::arithmetic::power::pow(params.g@ as int, x@), params.n2@ as int);
    }
    let k = abs_qr_rep(&k_raw, &params.n2);
    Ok((CsPubKey { k }, CsSecretKey { x }))
}

/// Enc(pk, m) for `m` in `[0, n)` with fresh randomness `r` from `[1, n/4)`.
pub fn enc_cs(params: &CsParams, pk: &CsPubKey, m: &Nat) -> (r: CryptoResult<CsCiphertext>)
    ensures
        r is Ok <==> m@ < params.n@ && params.n@ / 4 > 1 && params.n2@ > 0,
        r matches Err(e) ==> e is InvalidInput,
        r matches Ok(c) ==> exists|rr: nat|
            1 <= rr < params.n@ / 4 && c@ == #[trigger] cs_enc_spec(
                params.n@,
                params.n2@,
                params.g@,
                params.h@,
                pk.k@,
                m@,
                rr,
            ),
{
    if !big_lt(m, &params.n) {
        return Err(CryptoError::InvalidInput("message must be in [0, n)"));
    }
    let one = Nat::one();
    let upper = big_shr(&params.n, 2);
    proof {
        vstd::arithmetic::power2::lemma2_to64();
    }
    if !big_lt(&one, &upper) {
        return Err(CryptoError::InvalidInput("n too small"));
    }
    let rr = random_range(&one, &upper);
    enc_cs_with_randomness(params, pk, m, &rr)
}

/// Enc(pk, m; r): encryption with given randomness, reduced modulo `n`; the
/// components are `|QR_{n^2}|` representatives as in `enc_cs`.
pub fn enc_cs_with_randomness(params: &CsParams, pk: &CsPubKey, m: &Nat, rr: &Nat) -> (r:
    CryptoResult<CsCiphertext>)
    ensures
        r is Ok <==> m@ < params.n@ && params.n2@ > 0,
        r matches Err(e) ==> e is InvalidInput,
        r matches Ok(c) ==> c@ == cs_enc_spec(
            params.n@,
            params.n2@,
            params.g@,
            params.h@,
            pk.k@,
            m@,
            rr@,
        ),
{
    if !big_lt(m, &params.n) {
        return Err(CryptoError::InvalidInput("message must be in [0, n)"));
    }
    if big_is_zero(&params.n2) {
        return Err(CryptoError::InvalidInput("n^2 must be non-zero"));
    }
    let n2 = &params.n2;
    let r_mod = big_rem(rr, &params.n);
    let c0_raw = big_modpow(&params.g, &r_mod, n2);
    proof {
        lemma_mod_bound(vstd::arithmetic::power::pow(params.g@ as int, r_mod@), n2@ as int);
    }
    let c0 = abs_qr_rep(&c0_raw, n2);
    let kr = big_modpow(&pk.k, &r_mod, n2);
    let hm = big_modpow(&params.h, m, n2);
    let c1_raw = big_rem(&big_mul(&kr, &hm), n2);
    proof {
        lemma_mod_bound((kr@ * hm@) as int, n2@ as int);
    }
    let c1 = abs_qr_rep(&c1_raw, n2);
    Ok(CsCiphertext { c0, c1 })
}

/// Dec(sk, c): with `t = 2^{-1} mod n`, `M = c1 / c0^x mod n^2` and
/// `m = ((M^{2t} mod n^2) - 1) / n`; the exponent is `2t` itself, not
/// `2t mod n`.
///
/// Fails when `n` is even, when `c0^x` is not invertible modulo `n^2`, or
/// when the lifted value is zero.
pub fn dec_cs(params: &CsParams, sk: &CsSecretKey, c: &CsCiphertext) -> (r: CryptoResult<Nat>)
    requires
        spec_gcd(params.n@, 2) == 1 ==> params.n2@ > 0,
    ensures
        r is Ok <==> spec_gcd(params.n@, 2) == 1 && spec_gcd(
            params.n2@,
            pow_mod(c.c0@, sk.x@, params.n2@),
        ) == 1 && cs_dec_lifted(params.n@, params.n2@, sk.x@, c.c0@, c.c1@) != 0,
        r matches Ok(m) ==> m@ == (cs_dec_lifted(params.n@, params.n2@, sk.x@, c.c0@, c.c1@) - 1)
            / (params.n@ as int),
        r matches Err(e) ==> (e == CryptoError::ModularInverseUnavailable <==> (spec_gcd(params.n@, 2)
            != 1 || spec_gcd(params.n2@, pow_mod(c.c0@, sk.x@, params.n2@)) != 1)),
        r matches Err(e) ==> (e is InvalidInput || e == CryptoError::ModularInverseUnavailable),
{
    let two = Nat::from_u64(2);
    let t = match modinv(&two, &params.n) {
        Ok(v) => v,
        Err(e) => return Err(e),
    };
    proof {
        if params.n@ == 0 {
            assert(spec_gcd(0, 2) == spec_gcd(2, 0));
        }
    }
    let exp = big_mul(&two, &t);
    let n2 = &params.n2;
    let c0x = big_modpow(&c.c0, &sk.x, n2);
    let c0x_inv = match modinv(&c0x, n2) {
        Ok(v) => v,
        Err(e) => return Err(e),
    };
    let m_term = big_rem(&big_mul(&c.c1, &c0x_inv), n2);
    let lifted = big_modpow(&m_term, &exp, n2);
    if big_is_zero(&lifted) {
        return Err(CryptoError::InvalidInput("invalid ciphertext structure"));
    }
    Ok(big_div(&big_sub(&lifted, &Nat::one()), &params.n))
}

/// Homomorphic addition: `Enc(a) (+) Enc(b) = Enc(a + b)`, componentwise
/// products modulo `n^2`.
pub fn cs_homomorphic_add(left: &CsCiphertext, right: &CsCiphertext, n2: &Nat) -> (r: CsCiphertext)
    requires
        n2@ > 0,
    ensures
        r@ == ct_add(left@, right@, n2@),
{
    CsCiphertext {
        c0: big_rem(&big_mul(&left.c0, &right.c0), n2),
        c1: big_rem(&big_mul(&left.c1, &right.c1), n2),
    }
}

/// Homomorphic scalar multiplication: `k (.) Enc(m) = Enc(k m)`,
/// componentwise powers modulo `n^2`.
pub fn cs_homomorphic_scalar_mul(value: &CsCiphertext, scalar: &Nat, n2: &Nat) -> (r: CsCiphertext)
    requires
        n2@ > 0,
    ensures
        r@ == ct_scale(value@, scalar@, n2@),
{
    CsCiphertext { c0: big_modpow(&value.c0, scalar, n2), c1: big_modpow(&value.c1, scalar, n2) }
}


// ---------------------------------------------------------------------------
// Correctness of decryption.
// ---------------------------------------------------------------------------

/// Squaring forgets the absolute-value representative:
/// `|z|^2 == z^2 (mod m)`.
proof fn lemma_abs_square(z: nat, m: nat)
    requires
        m > 1,
        z < m,
    ensures
        pow_mod(abs_rep(z, m), 2, m) == pow_mod(z, 2, m),
{
    if z > m / 2 {
        lemma_small_mod(z, m);
        lemma_small_mod((m - z) as nat, m);
        assert(crate::hec::neg_mod(z, m) == (m - z) as nat);
        lemma_pow_mod_neg_even(z, 1, m);
    }
}

/// An even power forgets the absolute-value representative:
/// `|z|^(2e) == z^(2e) (mod m)`.
pub proof fn lemma_abs_even_pow(z: nat, e: nat, m: nat)
    requires
        m > 1,
        z < m,
    ensures
        pow_mod(abs_rep(z, m), 2 * e, m) == pow_mod(z, 2 * e, m),
{
    if z > m / 2 {
        lemma_small_mod(z, m);
        lemma_small_mod((m - z) as nat, m);
        assert(crate::hec::neg_mod(z, m) == (m - z) as nat);
        lemma_pow_mod_neg_even(z, e, m);
    }
}

/// The absolute-value representative of a unit is a unit.
pub proof fn lemma_abs_unit(z: nat, zi: nat, m: nat) -> (inv: nat)
    requires
        m > 1,
        z < m,
        zi < m,
        (z * zi) % m == 1,
    ensures
        (abs_rep(z, m) * inv) % m == 1,
{
    if z > m / 2 {
        lemma_unit_neg(z, zi, m);
        (m - zi) as nat
    } else {
        zi
    }
}

/// `(1 + n)^e == 1 + e n (mod n^2)`.
proof fn lemma_one_plus_n_pow_raw(n: nat, e: nat)
    requires
        n > 1,
    ensures
        pow((n + 1) as int, e) % ((n * n) as int) == ((1 + e * n) as int) % ((n * n) as int),
    decreases e,
{
    let n2 = (n * n) as int;
    assert(n2 > 0) by (nonlinear_arith)
        requires
            n > 1,
            n2 == n * n,
    ;
    if e > 0 {
        let e1 = (e - 1) as nat;
        lemma_one_plus_n_pow_raw(n, e1);
        let p = pow((n + 1) as int, e1);
        reveal(pow);
        assert(pow((n + 1) as int, e) == (n + 1) * p);
        lemma_mul_mod_noop_right((n + 1) as int, p, n2);
        lemma_mul_mod_noop_right((n + 1) as int, (1 + e1 * n) as int, n2);
        assert((n + 1) * (1 + e1 * n) == n2 * e1 + (1 + e * n)) by (nonlinear_arith)
            requires
                n2 == n * n,
                e1 + 1 == e,
        ;
        lemma_mod_multiples_vanish(e1 as int, (1 + e * n) as int, n2);
    } else {
        vstd::arithmetic::power::lemma_pow0((n + 1) as int);
    }
}

/// `(1 + n)^e mod n^2 == 1 + (e mod n) n`.
proof fn lemma_one_plus_n_pow(n: nat, e: nat)
    requires
        n > 1,
    ensures
        pow_mod(n + 1, e, n * n) == 1 + (e % n) * n,
{
    let n2 = (n * n) as int;
    assert(n2 > 0) by (nonlinear_arith)
        requires
            n > 1,
            n2 == n * n,
    ;
    lemma_one_plus_n_pow_raw(n, e);
    lemma_fundamental_div_mod(e as int, n as int);
    let q = e / n;
    let rem = e % n;
    assert(1 + e * n == n2 * q + (1 + rem * n)) by (nonlinear_arith)
        requires
            n2 == n * n,
            e == n * q + rem,
    ;
    lemma_mod_multiples_vanish(q as int, (1 + rem * n) as int, n2);
    assert(1 + rem * n < n2) by (nonlinear_arith)
        requires
            rem < n,
            n > 1,
            n2 == n * n,
    ;
    lemma_small_mod((1 + rem * n) as nat, n2 as nat);
}

/// Decryption inverts encryption. For an odd modulus `n > 1`, `h = 1 + n`,
/// a base `g` coprime to `n^2`, the key `k = |g^x|` and a message `m < n`,
/// the encryption of `m` under any randomness `r` can be decrypted with `x`
/// (the inverse that decryption needs exists) and the lifted value is
/// `1 + m n`, from which decryption reads `m`.
pub proof fn lemma_cs_dec_enc(n: nat, g: nat, x: nat, m: nat, r: nat)
    requires
        n > 1,
        spec_gcd(n, 2) == 1,
        spec_gcd(n * n, g) == 1,
        m < n,
    ensures
        ({
            let n2 = n * n;
            let c = cs_enc_spec(n, n2, g, n + 1, abs_rep(pow_mod(g, x, n2), n2), m, r);
            &&& spec_gcd(n2, pow_mod(c.0, x, n2)) == 1
            &&& cs_dec_lifted(n, n2, x, c.0, c.1) == 1 + m * n
            &&& (cs_dec_lifted(n, n2, x, c.0, c.1) - 1) / (n as int) == m
        }),
{
    let n2 = n * n;
    assert(n2 > 1) by (nonlinear_arith)
        requires
            n > 1,
            n2 == n * n,
    ;
    let h = n + 1;
    let rr = r % n;
    let gx = pow_mod(g, x, n2);
    let k = abs_rep(gx, n2);
    let a = pow_mod(g, rr, n2);
    let c0 = abs_rep(a, n2);
    let kr = pow_mod(k, rr, n2);
    let hm = pow_mod(h, m, n2);
    let z1 = (kr * hm) % n2;
    let c1 = abs_rep(z1, n2);
    assert(cs_enc_spec(n, n2, g, h, k, m, r) == (c0, c1));
    let c0x = pow_mod(c0, x, n2);
    lemma_pow_mod_bound(g, x, n2);
    lemma_pow_mod_bound(g, rr, n2);
    lemma_pow_mod_bound(k, rr, n2);
    lemma_pow_mod_bound(h, m, n2);
    lemma_mod_bound((kr * hm) as int, n2 as int);
    // The first component is a unit, hence so is `c0^x`.
    lemma_inv_mod_exists(g, n2);
    let gi = inv_mod(g, n2);
    lemma_small_mod(1, n2);
    lemma_unit_pow(g, gi, rr, n2);
    let ai = pow_mod(gi, rr, n2);
    lemma_pow_mod_bound(gi, rr, n2);
    let c0i = lemma_abs_unit(a, ai, n2);
    lemma_unit_pow(c0, c0i, x, n2);
    lemma_inverse_gives_coprime(c0x, pow_mod(c0i, x, n2), n2);
    lemma_inv_mod_exists(c0x, n2);
    let ii = inv_mod(c0x, n2);
    // Squares: `c1^2 == g^(2xr) h^(2m)` and `(c0^x)^2 == g^(2xr)`.
    let big_g = pow_mod(g, (x * 2) * rr, n2);
    let h2 = pow_mod(h, m * 2, n2);
    assert(pow_mod(kr, 2, n2) == big_g) by {
        lemma_pow_mod_mul(k, rr, 2, n2);
        assert(rr * 2 == 2 * rr);
        lemma_pow_mod_mul(k, 2, rr, n2);
        lemma_abs_square(gx, n2);
        lemma_pow_mod_mul(g, x, 2, n2);
        lemma_pow_mod_mul(g, x * 2, rr, n2);
    }
    assert(pow_mod(c1, 2, n2) == (big_g * h2) % n2) by {
        lemma_abs_square(z1, n2);
        lemma_pow_mod_product(kr, hm, 2, n2);
        lemma_pow_mod_mul(h, m, 2, n2);
    }
    assert(pow_mod(c0x, 2, n2) == big_g) by {
        lemma_pow_mod_mul(c0, x, 2, n2);
        assert(x * 2 == 2 * x);
        lemma_pow_mod_mul(c0, 2, x, n2);
        lemma_abs_square(a, n2);
        lemma_pow_mod_mul(g, rr, 2, n2);
        lemma_pow_mod_mul(g, rr * 2, x, n2);
        assert((rr * 2) * x == (x * 2) * rr) by (nonlinear_arith);
    }
    let i2 = pow_mod(ii, 2, n2);
    assert((big_g * i2) % n2 == 1) by {
        lemma_unit_pow(c0x, ii, 2, n2);
    }
    // `M^2 == h^(2m)`, so the lifted value is `h^(2mt)`.
    let mm = (c1 * ii) % n2;
    lemma_pow_mod_bound(h, m * 2, n2);
    assert(pow_mod(mm, 2, n2) == h2) by {
        lemma_pow_mod_product(c1, ii, 2, n2);
        assert((((big_g * h2) % n2) * i2) % n2 == h2 % n2) by {
            lemma_mul_mod_noop_left((big_g * h2) as int, i2 as int, n2 as int);
            assert((big_g * h2) * i2 == (big_g * i2) * h2) by (nonlinear_arith);
            lemma_mul_mod_noop_left((big_g * i2) as int, h2 as int, n2 as int);
        }
        lemma_small_mod(h2, n2);
    }
    lemma_inv_mod_exists(2, n);
    let t = inv_mod(2, n);
    assert(cs_dec_lifted(n, n2, x, c0, c1) == pow_mod(h, (m * 2) * t, n2)) by {
        lemma_pow_mod_mul(mm, 2, t, n2);
        lemma_pow_mod_mul(h, m * 2, t, n2);
    }
    // `(2 t m) mod n == m` because `2 t == 1 (mod n)`.
    assert(((m * 2) * t) % n == m) by {
        lemma_small_mod(1, n);
        assert((m * 2) * t == m * (2 * t)) by (nonlinear_arith);
        lemma_mul_mod_noop_right(m as int, (2 * t) as int, n as int);
        lemma_small_mod(m, n);
    }
    lemma_one_plus_n_pow(n, (m * 2) * t);
    assert(((1 + m * n) - 1) / (n as int) == m) by {
        assert((m * n) as int == (n as int) * (m as int)) by (nonlinear_arith);
        vstd::arithmetic::div_mod::lemma_div_multiples_vanish(m as int, n as int);
    }
}


/// A safe RSA modulus is odd and above one.
proof fn lemma_safe_modulus_odd(n: nat, bits: nat)
    requires
        safe_modulus_shape(n, bits),
    ensures
        n > 1,
        spec_gcd(n, 2) == 1,
{
    let (p, q) = choose|p: nat, q: nat|
        #![trigger bit_len(p), bit_len(q)]
        n == p * q && p != q && p % 4 == 3 && q % 4 == 3 && bit_len(p) == bits / 2 && bit_len(q) == bits / 2;
    lemma_fundamental_div_mod(p as int, 4);
    lemma_fundamental_div_mod(q as int, 4);
    let a = p / 4;
    let b = q / 4;
    let k = 8 * a * b + 6 * a + 6 * b + 4;
    assert(n == 2 * k + 1 && n >= 9) by (nonlinear_arith)
        requires
            n == p * q,
            p == 4 * a + 3,
            q == 4 * b + 3,
            k == 8 * a * b + 6 * a + 6 * b + 4,
    ;
    lemma_mod_multiples_vanish(k as int, 1, 2);
    lemma_small_mod(1, 2);
    assert(spec_gcd(n, 2) == spec_gcd(2, 1));
    assert(spec_gcd(2, 1) == spec_gcd(1, 0));
}

/// Parameters of the shape that `setup_cs` returns have an odd modulus
/// above one and a base `g` coprime to `n^2`.
pub proof fn lemma_cs_setup_units(p: CsParams, bits: nat)
    requires
        cs_setup_shape(p, bits),
    ensures
        p.n@ > 1,
        spec_gcd(p.n@, 2) == 1,
        spec_gcd(p.n2@, p.g@) == 1,
{
    lemma_safe_modulus_odd(p.n@, bits);
    let n = p.n@;
    let n2 = p.n2@;
    assert(n2 > 1) by (nonlinear_arith)
        requires
            n > 1,
            n2 == n * n,
    ;
    lemma_small_mod(1, n2);
    let gp = choose|gp: nat| #[trigger] is_abs_qr_sample(gp, n2) && p.g@ == abs_rep(pow_mod(gp, n, n2), n2);
    let x = choose|x: nat| 1 < x < n2 && spec_gcd(x, n2) == 1 && gp == #[trigger] abs_rep(pow_mod(x, 2, n2), n2);
    assert(spec_gcd(n2, x) == 1) by {
        lemma_small_mod(x, n2);
    }
    lemma_inv_mod_exists(x, n2);
    let xi = inv_mod(x, n2);
    lemma_unit_pow(x, xi, 2, n2);
    lemma_pow_mod_bound(x, 2, n2);
    lemma_pow_mod_bound(xi, 2, n2);
    let gpi = lemma_abs_unit(pow_mod(x, 2, n2), pow_mod(xi, 2, n2), n2);
    lemma_unit_pow(gp, gpi, n, n2);
    lemma_pow_mod_bound(gp, n, n2);
    lemma_pow_mod_bound(gpi, n, n2);
    let gi = lemma_abs_unit(pow_mod(gp, n, n2), pow_mod(gpi, n, n2), n2);
    lemma_inverse_gives_coprime(p.g@, gi, n2);
}

/// Decryption inverts encryption on the parameters of `setup_cs`: for a
/// key pair of `keygen_cs` (`k = |g^x|`), a message `m < n` and any
/// randomness `r`, decryption of `Enc(k, m; r)` succeeds and returns `m`.
pub proof fn lemma_cs_roundtrip(p: CsParams, bits: nat, x: nat, m: nat, r: nat)
    requires
        cs_setup_shape(p, bits),
        m < p.n@,
    ensures
        ({
            let c = cs_enc_spec(p.n@, p.n2@, p.g@, p.h@, abs_rep(pow_mod(p.g@, x, p.n2@), p.n2@), m, r);
            &&& spec_gcd(p.n@, 2) == 1
            &&& spec_gcd(p.n2@, pow_mod(c.0, x, p.n2@)) == 1
            &&& cs_dec_lifted(p.n@, p.n2@, x, c.0, c.1) != 0
            &&& (cs_dec_lifted(p.n@, p.n2@, x, c.0, c.1) - 1) / (p.n@ as int) == m
        }),
{
    lemma_cs_setup_units(p, bits);
    lemma_cs_dec_enc(p.n@, p.g@, x, m, r);
}


// ---------------------------------------------------------------------------
// Decryption of homomorphically combined ciphertexts.
// ---------------------------------------------------------------------------

/// `c` squares to an encryption of `m` under the randomness `r` for the key
/// `|g^x|`: `c0` is a unit, `c0^2 == g^(2r)` and `c1^2 == g^(2xr) h^(2m)`
/// modulo `n^2`. Decryption looks at the components only through their
/// squares, so their signs do not matter.
pub open spec fn ct_sq_form(p: CsParams, x: nat, c: (nat, nat), r: nat, m: nat) -> bool {
    let n2 = p.n2@;
    &&& spec_gcd(n2, c.0) == 1
    &&& pow_mod(c.0, 2, n2) == pow_mod(p.g@, 2 * r, n2)
    &&& pow_mod(c.1, 2, n2) == crate::powmod::pair_pow(p.g@, p.h@, x * (2 * r), 2 * m, n2)
}

/// The neutral ciphertext `(1, 1)` encrypts zero under zero randomness.
pub proof fn lemma_sq_form_one(p: CsParams, x: nat)
    requires
        p.n2@ > 1,
    ensures
        ct_sq_form(p, x, (1, 1), 0, 0),
{
    let n2 = p.n2@;
    crate::powmod::lemma_coprime_one(n2);
    vstd::arithmetic::power::lemma_pow0(p.g@ as int);
    vstd::arithmetic::power::lemma_pow0(p.h@ as int);
    vstd::arithmetic::power::lemma_square_is_pow2(1);
    lemma_small_mod(1, n2);
    assert(x * (2 * 0nat) == 0) by (nonlinear_arith);
}

/// An encryption `Enc(m; r)` under the key `|g^x|` has the form of `m`
/// under the randomness `r mod n`.
pub proof fn lemma_sq_form_enc(p: CsParams, x: nat, m: nat, r: nat)
    requires
        p.n@ > 0,
        p.n2@ > 1,
        spec_gcd(p.n2@, p.g@) == 1,
    ensures
        ct_sq_form(p, x, cs_enc_spec(p.n@, p.n2@, p.g@, p.h@, abs_rep(pow_mod(p.g@, x, p.n2@), p.n2@), m, r), r % p.n@, m),
{
    let n2 = p.n2@;
    let g = p.g@;
    let h = p.h@;
    let rr = r % p.n@;
    let gx = pow_mod(g, x, n2);
    let k = abs_rep(gx, n2);
    let a = pow_mod(g, rr, n2);
    let kr = pow_mod(k, rr, n2);
    let hm = pow_mod(h, m, n2);
    let z1 = (kr * hm) % n2;
    lemma_pow_mod_bound(g, x, n2);
    lemma_pow_mod_bound(g, rr, n2);
    lemma_pow_mod_bound(k, rr, n2);
    lemma_pow_mod_bound(h, m, n2);
    lemma_mod_bound((kr * hm) as int, n2 as int);
    // The first component is a unit.
    crate::powmod::lemma_coprime_pow(g, rr, n2);
    crate::powmod::lemma_coprime_mod(a, n2);
    lemma_small_mod(a, n2);
    if a > n2 / 2 {
        crate::powmod::lemma_coprime_neg(a, n2);
    }
    assert(pow_mod(abs_rep(a, n2), 2, n2) == pow_mod(g, 2 * rr, n2)) by {
        lemma_abs_square(a, n2);
        lemma_pow_mod_mul(g, rr, 2, n2);
        assert(rr * 2 == 2 * rr);
    }
    assert(pow_mod(kr, 2, n2) == pow_mod(g, x * (2 * rr), n2)) by {
        lemma_pow_mod_mul(k, rr, 2, n2);
        assert(rr * 2 == 2 * rr);
        lemma_pow_mod_mul(k, 2, rr, n2);
        lemma_abs_square(gx, n2);
        lemma_pow_mod_mul(g, x, 2, n2);
        lemma_pow_mod_mul(g, x * 2, rr, n2);
        assert((x * 2) * rr == x * (2 * rr)) by (nonlinear_arith);
    }
    assert(pow_mod(abs_rep(z1, n2), 2, n2) == crate::powmod::pair_pow(g, h, x * (2 * rr), 2 * m, n2)) by {
        lemma_abs_square(z1, n2);
        lemma_pow_mod_product(kr, hm, 2, n2);
        lemma_pow_mod_mul(h, m, 2, n2);
        assert(m * 2 == 2 * m);
    }
}

/// The homomorphic sum of two forms is the form of the sums.
pub proof fn lemma_sq_form_add(p: CsParams, x: nat, a: (nat, nat), ra: nat, ma: nat, b: (nat, nat), rb: nat, mb: nat)
    requires
        p.n2@ > 1,
        ct_sq_form(p, x, a, ra, ma),
        ct_sq_form(p, x, b, rb, mb),
    ensures
        ct_sq_form(p, x, ct_add(a, b, p.n2@), ra + rb, ma + mb),
{
    let n2 = p.n2@;
    let g = p.g@;
    let h = p.h@;
    crate::powmod::lemma_coprime_mul(a.0, b.0, n2);
    lemma_pow_mod_product(a.0, b.0, 2, n2);
    crate::powmod::lemma_pow_mod_add(g, 2 * ra, 2 * rb, n2);
    assert(2 * ra + 2 * rb == 2 * (ra + rb));
    lemma_pow_mod_product(a.1, b.1, 2, n2);
    crate::powmod::lemma_pair_pow_mul(g, h, x * (2 * ra), 2 * ma, x * (2 * rb), 2 * mb, n2);
    assert(x * (2 * ra) + x * (2 * rb) == x * (2 * (ra + rb))) by (nonlinear_arith);
    assert(2 * ma + 2 * mb == 2 * (ma + mb));
}

/// A homomorphic scalar multiple of a form is the form of the multiples.
pub proof fn lemma_sq_form_scale(p: CsParams, x: nat, a: (nat, nat), ra: nat, ma: nat, s: nat)
    requires
        p.n2@ > 1,
        ct_sq_form(p, x, a, ra, ma),
    ensures
        ct_sq_form(p, x, ct_scale(a, s, p.n2@), ra * s, ma * s),
{
    let n2 = p.n2@;
    let g = p.g@;
    let h = p.h@;
    crate::powmod::lemma_coprime_pow(a.0, s, n2);
    lemma_pow_mod_mul(a.0, s, 2, n2);
    lemma_pow_mod_mul(a.0, 2, s, n2);
    assert(s * 2 == 2 * s);
    lemma_pow_mod_mul(g, 2 * ra, s, n2);
    assert((2 * ra) * s == 2 * (ra * s)) by (nonlinear_arith);
    lemma_pow_mod_mul(a.1, s, 2, n2);
    lemma_pow_mod_mul(a.1, 2, s, n2);
    crate::powmod::lemma_pair_pow_pow(g, h, x * (2 * ra), 2 * ma, s, n2);
    assert((x * (2 * ra)) * s == x * (2 * (ra * s))) by (nonlinear_arith);
    assert((2 * ma) * s == 2 * (ma * s)) by (nonlinear_arith);
}

/// Decryption of a form: on parameters of the shape of `setup_cs`, a
/// ciphertext of the form of `m` decrypts, to `m mod n`.
pub proof fn lemma_sq_form_dec(p: CsParams, bits: nat, x: nat, c: (nat, nat), r: nat, m: nat)
    requires
        cs_setup_shape(p, bits),
        ct_sq_form(p, x, c, r, m),
    ensures
        crate::hec::cs_dec_ok(p, x, c),
        crate::hec::cs_dec_value(p, x, c) == m % p.n@,
{
    lemma_cs_setup_units(p, bits);
    let n = p.n@;
    let n2 = p.n2@;
    let g = p.g@;
    let h = p.h@;
    assert(n2 > 1) by (nonlinear_arith)
        requires
            n > 1,
            n2 == n * n,
    ;
    lemma_small_mod(1, n2);
    let c0x = pow_mod(c.0, x, n2);
    crate::powmod::lemma_coprime_pow(c.0, x, n2);
    lemma_inv_mod_exists(c0x, n2);
    let ii = inv_mod(c0x, n2);
    let big_g = pow_mod(g, x * (2 * r), n2);
    let h2 = pow_mod(h, 2 * m, n2);
    assert(pow_mod(c0x, 2, n2) == big_g) by {
        lemma_pow_mod_mul(c.0, x, 2, n2);
        lemma_pow_mod_mul(c.0, 2, x, n2);
        assert(x * 2 == 2 * x);
        lemma_pow_mod_mul(g, 2 * r, x, n2);
        assert((2 * r) * x == x * (2 * r)) by (nonlinear_arith);
    }
    let i2 = pow_mod(ii, 2, n2);
    assert((big_g * i2) % n2 == 1) by {
        lemma_unit_pow(c0x, ii, 2, n2);
    }
    let mm = (c.1 * ii) % n2;
    lemma_pow_mod_bound(h, 2 * m, n2);
    assert(pow_mod(mm, 2, n2) == h2) by {
        lemma_pow_mod_product(c.1, ii, 2, n2);
        assert((((big_g * h2) % n2) * i2) % n2 == h2 % n2) by {
            lemma_mul_mod_noop_left((big_g * h2) as int, i2 as int, n2 as int);
            assert((big_g * h2) * i2 == (big_g * i2) * h2) by (nonlinear_arith);
            lemma_mul_mod_noop_left((big_g * i2) as int, h2 as int, n2 as int);
        }
        lemma_small_mod(h2, n2);
    }
    lemma_inv_mod_exists(2, n);
    let t = inv_mod(2, n);
    assert(cs_dec_lifted(n, n2, x, c.0, c.1) == pow_mod(h, (2 * m) * t, n2)) by {
        lemma_pow_mod_mul(mm, 2, t, n2);
        lemma_pow_mod_mul(h, 2 * m, t, n2);
    }
    assert(((2 * m) * t) % n == m % n) by {
        lemma_small_mod(1, n);
        assert((2 * m) * t == m * (2 * t)) by (nonlinear_arith);
        vstd::arithmetic::div_mod::lemma_mul_mod_noop(m as int, (2 * t) as int, n as int);
        vstd::arithmetic::div_mod::lemma_mul_mod_noop(m as int, 1, n as int);
        vstd::arithmetic::div_mod::lemma_mod_twice(m as int, n as int);
    }
    lemma_one_plus_n_pow(n, (2 * m) * t);
    let mn = m % n;
    assert(((1 + mn * n) - 1) / (n as int) == mn) by {
        assert((mn * n) as int == (n as int) * (mn as int)) by (nonlinear_arith);
        vstd::arithmetic::div_mod::lemma_div_multiples_vanish(mn as int, n as int);
    }
}

} // verus!
