//! Homomorphic evaluation of a watch-list polynomial over Camenisch-Shoup
//! ciphertexts (HECenc / HECeval / HECdec).
use crate::bignum::{big_add, big_eq, big_is_zero, big_lt, big_mul, big_rem, big_shr, big_sub, pow_mod, random_below, random_range, Nat};
use crate::cs::{cs_dec_lifted, cs_enc_spec, cs_homomorphic_add, cs_homomorphic_scalar_mul, ct_add, ct_scale, dec_cs, enc_cs_with_randomness, keygen_cs, setup_cs, CsCiphertext, CsParams, CsPubKey, CsSecretKey};
use crate::error::{CryptoError, CryptoResult};
use crate::df::nats;
use crate::math::{abs_rep, safe_modulus_shape, spec_gcd};
use crate::pok::{cts, horner, CamenischShoupCiphertext, CiphertextPolynomial, Scalar};
use vstd::arithmetic::div_mod::{lemma_add_mod_noop, lemma_mod_bound, lemma_mod_twice, lemma_small_mod};
use vstd::prelude::*;

verus! {

/// `-v mod n`, in `[0, n)`.
pub open spec fn neg_mod(v: nat, n: nat) -> nat {
    ((n - v % n) % (n as int)) as nat
}

/// The coefficients of `p(X) * (X + c)` reduced modulo `n`, lowest degree first.
pub open spec fn mul_linear(p: Seq<nat>, c: nat, n: nat) -> Seq<nat> {
    Seq::new(
        p.len() + 1,
        |j: int|
            ((if 0 < j {
                p[j - 1]
            } else {
                0nat
            }) + (if j < p.len() {
                p[j] * c
            } else {
                0nat
            })) % n,
    )
}

/// The coefficients of `prod_i (X - x_i)` modulo `n`, lowest degree first,
/// built one root at a time from the constant `1`.
pub open spec fn expand_unscaled(roots: Seq<nat>, n: nat) -> Seq<nat>
    decreases roots.len(),
{
    if roots.len() == 0 {
        seq![1nat]
    } else {
        mul_linear(expand_unscaled(roots.drop_last(), n), neg_mod(roots.last(), n), n)
    }
}

/// The coefficients of `s * prod_i (X - x_i)` over `Z_n`.
pub open spec fn expand_roots_spec(roots: Seq<nat>, s: nat, n: nat) -> Seq<nat> {
    expand_unscaled(roots, n).map_values(|c: nat| (c * (s % n)) % n)
}

/// `(a mod n + b mod n) mod n == (a + b) mod n`.
proof fn lemma_add_mods(a: nat, b: nat, n: nat)
    requires
        n > 0,
    ensures
        ((a % n) + (b % n)) % n == (a + b) % n,
{
    lemma_add_mod_noop(a as int, b as int, n as int);
}

/// Multiplies the coefficients `p` by `(X + c)` modulo `n`.
fn mul_by_linear(p: &Vec<Nat>, c: &Nat, n: &Nat) -> (r: Vec<Nat>)
    requires
        n@ > 0,
        p@.len() >= 1,
        p@.len() < usize::MAX,
    ensures
        r@.len() == p@.len() + 1,
        nats(r@) == mul_linear(nats(p@), c@, n@),
{
    let len = p.len();
    let mut next: Vec<Nat> = Vec::new();
    while next.len() < len + 1
        invariant
            len < usize::MAX,
            next@.len() <= len + 1,
            forall|t: int| 0 <= t < next@.len() ==> (#[trigger] next@[t])@ == 0,
        decreases len + 1 - next.len(),
    {
        next.push(Nat::zero());
    }
    let ghost target = mul_linear(nats(p@), c@, n@);
    let mut j: usize = 0;
    while j < len
        invariant
            n@ > 0,
            len == p@.len(),
            len >= 1,
            next@.len() == len + 1,
            j <= len,
            target == mul_linear(nats(p@), c@, n@),
            forall|t: int| 0 <= t < j ==> (#[trigger] next@[t])@ == target[t],
            j > 0 ==> next@[j as int]@ == p@[j - 1]@ % n@,
            j == 0 ==> next@[0]@ == 0,
            forall|t: int| j < t <= len ==> (#[trigger] next@[t])@ == 0,
        decreases len - j,
    {
        let prod = big_rem(&big_mul(&p[j], c), n);
        let v_j = big_rem(&big_add(&next[j], &prod), n);
        proof {
            if j > 0 {
                lemma_add_mods(p@[j - 1]@, p@[j as int]@ * c@, n@);
                lemma_mod_twice(p@[j - 1]@ as int, n@ as int);
            } else {
                lemma_mod_twice((p@[0]@ * c@) as int, n@ as int);
            }
        }
        next.set(j, v_j);
        let v_next = big_rem(&big_add(&next[j + 1], &big_rem(&p[j], n)), n);
        proof {
            lemma_mod_twice(p@[j as int]@ as int, n@ as int);
        }
        next.set(j + 1, v_next);
        j = j + 1;
    }
    proof {
        lemma_mod_twice(p@[len - 1]@ as int, n@ as int);
        assert(nats(next@) =~= target);
    }
    next
}

/// Expands the roots `x_1..x_n` into the coefficients (lowest degree first)
/// of `P(X) = s * prod_i (X - x_i)` over `Z_n`: `[P_0, ..., P_n]`.
///
/// Each step multiplies the running polynomial by `(X - x_i)`, with
/// `-x_i mod n` computed as `(n - (x_i mod n)) mod n`; the mask `s` is
/// applied last. Fails when `n` is zero.
pub fn expand_roots_to_coefficients_mod_n(x: &[Nat], s: &Nat, n: &Nat) -> (r: CryptoResult<Vec<Nat>>)
    requires
        x@.len() < usize::MAX,
    ensures
        r is Err <==> n@ == 0,
        r is Err ==> r == Err::<Vec<Nat>, CryptoError>(CryptoError::InvalidInput("modulus n must be non-zero")),
        r matches Ok(coeffs) ==> nats(coeffs@) == expand_roots_spec(nats(x@), s@, n@),
        r matches Ok(coeffs) ==> coeffs@.len() == x@.len() + 1,
{
    if big_is_zero(n) {
        return Err(CryptoError::InvalidInput("modulus n must be non-zero"));
    }
    let mut coeffs: Vec<Nat> = Vec::new();
    coeffs.push(Nat::one());
    proof {
        assert(nats(coeffs@) =~= expand_unscaled(nats(x@).subrange(0, 0), n@));
    }
    let mut i: usize = 0;
    while i < x.len()
        invariant
            n@ > 0,
            i <= x@.len(),
            x@.len() < usize::MAX,
            coeffs@.len() == i + 1,
            nats(coeffs@) == expand_unscaled(nats(x@).subrange(0, i as int), n@),
        decreases x.len() - i,
    {
        let root_mod = big_rem(&x[i], n);
        let minus_root = if big_is_zero(&root_mod) {
            Nat::zero()
        } else {
            big_rem(&big_sub(n, &root_mod), n)
        };
        proof {
            lemma_mod_bound(x@[i as int]@ as int, n@ as int);
            if root_mod@ == 0 {
                lemma_small_mod(0, n@);
                assert((n@ - 0) % (n@ as int) == 0) by {
                    vstd::arithmetic::div_mod::lemma_mod_self_0(n@ as int);
                }
            }
            assert(minus_root@ == neg_mod(x@[i as int]@, n@));
            let roots = nats(x@).subrange(0, i + 1);
            assert(roots.drop_last() =~= nats(x@).subrange(0, i as int));
            assert(roots.last() == x@[i as int]@);
        }
        coeffs = mul_by_linear(&coeffs, &minus_root, n);
        i = i + 1;
    }
    let s_mod = big_rem(s, n);
    let mut out: Vec<Nat> = Vec::new();
    let mut j: usize = 0;
    while j < coeffs.len()
        invariant
            n@ > 0,
            s_mod@ == s@ % n@,
            j <= coeffs@.len(),
            out@.len() == j,
            forall|t: int| 0 <= t < j ==> (#[trigger] out@[t])@ == (coeffs@[t]@ * s_mod@) % n@,
        decreases coeffs.len() - j,
    {
        out.push(big_rem(&big_mul(&coeffs[j], &s_mod), n));
        j = j + 1;
    }
    proof {
        assert(nats(x@).subrange(0, x@.len() as int) =~= nats(x@));
        assert(nats(out@) =~= expand_roots_spec(nats(x@), s@, n@));
    }
    Ok(out)
}

// ---------------------------------------------------------------------------
// HEC types.
// ---------------------------------------------------------------------------

/// HEC parameters: the Camenisch-Shoup parameters; coefficients live in
/// `Z_n` and ciphertexts in `Z_{n^2}`.
#[derive(Debug, Clone)]
pub struct HecParams {
    pub cs_params: CsParams,
}

/// The function key `f_{n,k}`: `n` the list size, `k` the bit length of
/// the attribute `y_at`.
#[derive(Debug, Clone, Copy, PartialEq, Eq)]
pub struct HecFunctionKey {
    pub n: usize,
    pub k: usize,
}

/// The public output `X = (pkAH, A_1, ..., A_{n+1})` of HECenc, with the
/// coefficients also held as a ciphertext polynomial.
#[derive(Debug, Clone, PartialEq, Eq)]
pub struct HecPublicPackage {
    pub pk_ah: CsPubKey,
    pub encrypted_coeffs: Vec<CamenischShoupCiphertext>,
    pub polynomial: CiphertextPolynomial,
}

impl HecPublicPackage {
    /// A copy of the package.
    pub fn copy(&self) -> (r: HecPublicPackage)
        ensures
            r.pk_ah.k@ == self.pk_ah.k@,
            cts(r.encrypted_coeffs@) == cts(self.encrypted_coeffs@),
            r.encrypted_coeffs@.len() == self.encrypted_coeffs@.len(),
            r.polynomial@ == self.polynomial@,
    {
        HecPublicPackage {
            pk_ah: self.pk_ah.copy(),
            encrypted_coeffs: crate::pok::copy_cts(self.encrypted_coeffs.as_slice()),
            polynomial: self.polynomial.copy(),
        }
    }
}

/// The audit context `d = (skE, fk, x)` of HECenc.
#[derive(Debug, Clone)]
pub struct HecAuditData {
    pub sk_e: CsSecretKey,
    pub fk: HecFunctionKey,
    pub x: Vec<Scalar>,
}

/// The witness of HECenc: the masked coefficients `P_i` and the
/// randomness `rho_i` with `A_i = Enc(pkAH, P_i; rho_i)`.
#[derive(Debug, Clone)]
pub struct HecEncWitness {
    pub masked_coeffs: Vec<Scalar>,
    pub encryption_randomness: Vec<Scalar>,
}

/// The output `(X, d)` of HECenc, with the encryption witness.
#[derive(Debug, Clone)]
pub struct HecEncOutput {
    pub x_public: HecPublicPackage,
    pub d_audit: HecAuditData,
    pub enc_witness: HecEncWitness,
}

/// The user input `y = (y_id, y_at)` of HECeval.
#[derive(Debug, Clone, PartialEq, Eq)]
pub struct HecEvalInput {
    pub y_id: Scalar,
    pub y_at: Scalar,
}

/// The randomness `r^Z = (r_id, r_at, r1, r2, r3)` of HECeval; `r3` must
/// be non-zero modulo `n`.
#[derive(Debug, Clone, PartialEq, Eq)]
pub struct HecEvalRandomness {
    pub rid: Scalar,
    pub rat: Scalar,
    pub r1: Scalar,
    pub r2: Scalar,
    pub r3: Scalar,
}

/// The output `Z = (Z_id, Z_at, Z_nf)` of HECeval.
#[derive(Debug, Clone)]
pub struct HecEvalOutput {
    pub z_id: CamenischShoupCiphertext,
    pub z_at: CamenischShoupCiphertext,
    pub z_nf: CamenischShoupCiphertext,
}

/// HEC setup: the Camenisch-Shoup setup.
pub fn setup_hec(security_bits: usize) -> (r: CryptoResult<HecParams>)
    ensures
        (security_bits < 32 || security_bits % 2 != 0) ==> r == Err::<HecParams, CryptoError>(CryptoError::InvalidInput("RSA bits must be even and >= 32")),
        r matches Err(e) ==> ((e is InvalidInput) && (security_bits < 32 || security_bits % 2 != 0)) || e
            == CryptoError::PrimeGenerationFailed,
        r matches Ok(p) ==> safe_modulus_shape(p.cs_params.n@, security_bits as nat) && p.cs_params.n2@ == p.cs_params.n@
            * p.cs_params.n@ && p.cs_params.h@ == p.cs_params.n@ + 1,
        r matches Ok(p) ==> crate::cs::cs_setup_shape(p.cs_params, security_bits as nat),
{
    let cs_params = match setup_cs(security_bits) {
        Ok(p) => p,
        Err(e) => return Err(e),
    };
    Ok(HecParams { cs_params })
}

/// Samples a non-zero scalar of `Z_n`.
///
/// Fails when `n <= 1`. After `u64::MAX` zero draws (unreachable in
/// practice) the scalar `1` is returned.
fn sample_nonzero_scalar_mod_n(n: &Nat) -> (r: CryptoResult<Nat>)
    ensures
        r is Err <==> n@ <= 1,
        r matches Err(e) ==> e is InvalidInput,
        r matches Ok(s) ==> 0 < s@ < n@,
{
    let one = Nat::one();
    if !big_lt(&one, n) {
        return Err(CryptoError::InvalidInput("n must be > 1"));
    }
    let mut tries: u64 = 0;
    while tries < u64::MAX
        invariant
            n@ > 1,
        decreases u64::MAX - tries,
    {
        let s = random_below(n);
        if !big_is_zero(&s) {
            return Ok(s);
        }
        tries = tries + 1;
    }
    Ok(one)
}

/// The HECenc output is made from the mask `s`: the masked coefficients
/// expand `s * prod (X - x_i)` over `Z_n`, each `A_i` encrypts `P_i` under
/// `pkAH` with randomness `rho_i` from `[1, n/4)`, the polynomial holds the
/// `A_i`, `pkAH = |g^skE|`, and the audit data keeps `fk` and `x`.
pub open spec fn hec_enc_output_from(p: CsParams, fk: HecFunctionKey, x: Seq<nat>, s: nat, out: HecEncOutput) -> bool {
    let coeffs = nats(out.enc_witness.masked_coeffs@);
    let rhos = nats(out.enc_witness.encryption_randomness@);
    let cs = cts(out.x_public.encrypted_coeffs@);
    &&& coeffs == expand_roots_spec(x, s, p.n@)
    &&& rhos.len() == coeffs.len() && cs.len() == coeffs.len()
    &&& forall|i: int| 0 <= i < cs.len() ==> 1 <= #[trigger] rhos[i] < p.n@ / 4 && cs[i] == cs_enc_spec(p.n@, p.n2@, p.g@, p.h@, out.x_public.pk_ah.k@, coeffs[i], rhos[i])
    &&& out.x_public.polynomial@ == (cs, p.n2@)
    &&& 1 <= out.d_audit.sk_e.x@ < p.n2@ / 4 && out.x_public.pk_ah.k@ == abs_rep(pow_mod(p.g@, out.d_audit.sk_e.x@, p.n2@), p.n2@)
    &&& out.d_audit.fk == fk
    &&& nats(out.d_audit.x@) == x
}

/// HECenc with a given mask `s` (a polynomial mask chosen by the caller):
/// a fresh key pair `(pkAH, skE)`, the coefficients of
/// `P = s * prod (X - x_i)` over `Z_n`, and each coefficient encrypted with
/// fresh randomness that is kept as the encryption witness.
///
/// Fails when `x` is empty, `fk.n != x.len()`, the key pair cannot be drawn
/// (`n^2 / 4 <= 1`), or the encryption randomness cannot be drawn
/// (`n / 4 <= 1`).
pub fn hec_enc_with_mask(hecpar: &HecParams, fk: &HecFunctionKey, x: &[Scalar], s: &Scalar) -> (r: CryptoResult<HecEncOutput>)
    requires
        x@.len() < usize::MAX,
    ensures
        r is Err <==> x@.len() == 0 || fk.n != x@.len() || hecpar.cs_params.n2@ / 4 <= 1 || hecpar.cs_params.n@ / 4 <= 1,
        r matches Err(e) ==> e is InvalidInput,
        r matches Ok(out) ==> hec_enc_output_from(hecpar.cs_params, *fk, nats(x@), s@, out),
        r matches Ok(out) ==> out.x_public.encrypted_coeffs@.len() == x@.len() + 1,
        r matches Ok(out) ==> forall|i: int|
            0 <= i < out.enc_witness.masked_coeffs@.len() ==> (#[trigger] out.enc_witness.masked_coeffs@[i])@ < hecpar.cs_params.n@,
{
    if x.len() == 0 {
        return Err(CryptoError::InvalidInput("x must be non-empty"));
    }
    if fk.n != x.len() {
        return Err(CryptoError::InvalidInput("fk.n must equal x.len()"));
    }
    let params = &hecpar.cs_params;
    let (pk_ah, sk_e) = match keygen_cs(params) {
        Ok(v) => v,
        Err(e) => return Err(e),
    };
    let coeffs = match expand_roots_to_coefficients_mod_n(x, s, &params.n) {
        Ok(v) => v,
        Err(e) => return Err(e),
    };
    let one = Nat::one();
    let upper = big_shr(&params.n, 2);
    proof {
        vstd::arithmetic::power2::lemma2_to64();
    }
    if !big_lt(&one, &upper) {
        return Err(CryptoError::InvalidInput("n too small"));
    }
    proof {
        assert forall|t: int| 0 <= t < coeffs@.len() implies (#[trigger] coeffs@[t])@ < params.n@ by {
            assert(nats(coeffs@)[t] == coeffs@[t]@);
            let u = expand_unscaled(nats(x@), params.n@);
            lemma_expand_unscaled_len(nats(x@), params.n@);
            assert(expand_roots_spec(nats(x@), s@, params.n@)[t] == (u[t] * (s@ % params.n@)) % params.n@);
            lemma_mod_bound((u[t] * (s@ % params.n@)) as int, params.n@ as int);
        }
    }
    let mut encrypted: Vec<CsCiphertext> = Vec::new();
    let mut rhos: Vec<Nat> = Vec::new();
    let mut i: usize = 0;
    while i < coeffs.len()
        invariant
            params.n2@ > 0,
            forall|t: int| 0 <= t < coeffs@.len() ==> (#[trigger] coeffs@[t])@ < params.n@,
            i <= coeffs@.len(),
            upper@ == params.n@ / 4,
            one@ == 1,
            1 < upper@,
            encrypted@.len() == i,
            rhos@.len() == i,
            forall|t: int| 0 <= t < i ==> 1 <= (#[trigger] rhos@[t])@ < params.n@ / 4 && encrypted@[t]@ == cs_enc_spec(
                params.n@,
                params.n2@,
                params.g@,
                params.h@,
                pk_ah.k@,
                coeffs@[t]@,
                rhos@[t]@,
            ),
        decreases coeffs.len() - i,
    {
        let rho = random_range(&one, &upper);
        let ct = match enc_cs_with_randomness(params, &pk_ah, &coeffs[i], &rho) {
            Ok(c) => c,
            Err(e) => return Err(e),
        };
        encrypted.push(ct);
        rhos.push(rho);
        i = i + 1;
    }
    let polynomial = match CiphertextPolynomial::new(crate::pok::copy_cts(encrypted.as_slice()), &params.n2) {
        Ok(p) => p,
        Err(e) => return Err(e),
    };
    let ghost coeffs_v = nats(coeffs@);
    proof {
        assert(cts(encrypted@).len() == coeffs_v.len());
    }
    let out = HecEncOutput {
        x_public: HecPublicPackage { pk_ah, encrypted_coeffs: encrypted, polynomial },
        d_audit: HecAuditData { sk_e, fk: *fk, x: crate::pok::copy_nats_slice(x) },
        enc_witness: HecEncWitness { masked_coeffs: coeffs, encryption_randomness: rhos },
    };
    proof {
        let cs = cts(out.x_public.encrypted_coeffs@);
        let rr = nats(out.enc_witness.encryption_randomness@);
        assert forall|t: int| 0 <= t < cs.len() implies 1 <= #[trigger] rr[t] < params.n@ / 4 && cs[t] == cs_enc_spec(
            params.n@,
            params.n2@,
            params.g@,
            params.h@,
            out.x_public.pk_ah.k@,
            coeffs_v[t],
            rr[t],
        ) by {
            assert(rr[t] == rhos@[t]@);
        }
    }
    Ok(out)
}

/// HECenc: a fresh key pair, a random non-zero mask `s` of `Z_n`, the
/// coefficients of `P = s * prod (X - x_i)` over `Z_n`, each encrypted
/// (zero coefficients included).
pub fn hec_enc(hecpar: &HecParams, fk: &HecFunctionKey, x: &[Scalar]) -> (r: CryptoResult<HecEncOutput>)
    requires
        x@.len() < usize::MAX,
    ensures
        r is Err <==> x@.len() == 0 || fk.n != x@.len() || hecpar.cs_params.n2@ / 4 <= 1 || hecpar.cs_params.n@ / 4 <= 1,
        r matches Err(e) ==> e is InvalidInput,
        r matches Ok(out) ==> exists|s: nat| 0 < s < hecpar.cs_params.n@ && #[trigger] hec_enc_output_from(hecpar.cs_params, *fk, nats(x@), s, out),
{
    if x.len() == 0 {
        return Err(CryptoError::InvalidInput("x must be non-empty"));
    }
    if fk.n != x.len() {
        return Err(CryptoError::InvalidInput("fk.n must equal x.len()"));
    }
    let one = Nat::one();
    if !big_lt(&one, &big_shr(&hecpar.cs_params.n2, 2)) {
        proof {
            vstd::arithmetic::power2::lemma2_to64();
        }
        return Err(CryptoError::InvalidInput("n^2 too small"));
    }
    let s = match sample_nonzero_scalar_mod_n(&hecpar.cs_params.n) {
        Ok(v) => v,
        Err(e) => return Err(e),
    };
    hec_enc_with_mask(hecpar, fk, x, &s)
}

/// The value of `Z` components after HECeval: with `E` the Horner
/// evaluation of the coefficients at `y_id mod n`,
/// `Z_id = (r1 (.) E) (+) Enc(y_id; r_id)`,
/// `Z_at = (r2 (.) E) (+) Enc(y_at; r_at)`, `Z_nf = r3 (.) E`, everything
/// taken modulo `n` first.
pub open spec fn hec_eval_spec(p: CsParams, x_public: HecPublicPackage, y: HecEvalInput, rz: HecEvalRandomness) -> ((nat, nat), (nat, nat), (nat, nat)) {
    let n = p.n@;
    let n2 = p.n2@;
    let e = horner(cts(x_public.encrypted_coeffs@), y.y_id@ % n, n2);
    let k = x_public.pk_ah.k@;
    (
        ct_add(ct_scale(e, rz.r1@ % n, n2), cs_enc_spec(n, n2, p.g@, p.h@, k, y.y_id@ % n, rz.rid@ % n), n2),
        ct_add(ct_scale(e, rz.r2@ % n, n2), cs_enc_spec(n, n2, p.g@, p.h@, k, y.y_at@ % n, rz.rat@ % n), n2),
        ct_scale(e, rz.r3@ % n, n2),
    )
}

/// HECeval(hecpar, f, ell, X, y; r^Z): `E = Enc(P(y_id))` by Horner
/// evaluation of the `A_i`, then `Z_id = (r1 (.) E) (+) Enc(y_id; r_id)`,
/// `Z_at = (r2 (.) E) (+) Enc(y_at; r_at)` and `Z_nf = r3 (.) E`, with `y`
/// and `r^Z` reduced modulo `n`; `ell` takes no part.
///
/// Fails when the number of coefficients is not `fk.n + 1`, when
/// `r3 mod n == 0`, or when `n^2` is zero.
pub fn hec_eval(hecpar: &HecParams, fk: &HecFunctionKey, _ell: usize, x_public: &HecPublicPackage, y: &HecEvalInput, r_z: &HecEvalRandomness) -> (r:
    CryptoResult<HecEvalOutput>)
    requires
        hecpar.cs_params.n@ > 0,
    ensures
        r is Err <==> x_public.encrypted_coeffs@.len() != fk.n + 1 || r_z.r3@ % hecpar.cs_params.n@ == 0
            || hecpar.cs_params.n2@ == 0,
        x_public.encrypted_coeffs@.len() != fk.n + 1 ==> r == Err::<HecEvalOutput, CryptoError>(
            CryptoError::InvalidInput("public package coefficient count must be fk.n + 1"),
        ),
        x_public.encrypted_coeffs@.len() == fk.n + 1 && r_z.r3@ % hecpar.cs_params.n@ == 0 ==> r == Err::<
            HecEvalOutput,
            CryptoError,
        >(CryptoError::InvalidInput("r3 must be non-zero in Z_n")),
        x_public.encrypted_coeffs@.len() == fk.n + 1 && r_z.r3@ % hecpar.cs_params.n@ != 0 && hecpar.cs_params.n2@ == 0
            ==> r == Err::<HecEvalOutput, CryptoError>(CryptoError::InvalidInput("n^2 must be non-zero")),
        r matches Ok(z) ==> (z.z_id@, z.z_at@, z.z_nf@) == hec_eval_spec(hecpar.cs_params, *x_public, *y, *r_z),
{
    let len = x_public.encrypted_coeffs.len();
    if len == 0 || fk.n != len - 1 {
        return Err(CryptoError::InvalidInput("public package coefficient count must be fk.n + 1"));
    }
    let params = &hecpar.cs_params;
    let n = &params.n;
    let n2 = &params.n2;
    let y_id = big_rem(&y.y_id, n);
    let y_at = big_rem(&y.y_at, n);
    let rid = big_rem(&r_z.rid, n);
    let rat = big_rem(&r_z.rat, n);
    let r1 = big_rem(&r_z.r1, n);
    let r2 = big_rem(&r_z.r2, n);
    let r3 = big_rem(&r_z.r3, n);
    if big_is_zero(&r3) {
        return Err(CryptoError::InvalidInput("r3 must be non-zero in Z_n"));
    }
    let poly_from_x = match CiphertextPolynomial::new(crate::pok::copy_cts(x_public.encrypted_coeffs.as_slice()), n2) {
        Ok(p) => p,
        Err(e) => return Err(e),
    };
    let e = poly_from_x.evaluate(&y_id);
    proof {
        vstd::arithmetic::div_mod::lemma_mod_bound(y.y_id@ as int, n@ as int);
        vstd::arithmetic::div_mod::lemma_mod_bound(y.y_at@ as int, n@ as int);
    }
    let y_id_enc = match enc_cs_with_randomness(params, &x_public.pk_ah, &y_id, &rid) {
        Ok(c) => c,
        Err(e) => return Err(e),
    };
    let y_at_enc = match enc_cs_with_randomness(params, &x_public.pk_ah, &y_at, &rat) {
        Ok(c) => c,
        Err(e) => return Err(e),
    };
    proof {
        vstd::arithmetic::div_mod::lemma_mod_twice(r_z.rid@ as int, n@ as int);
        vstd::arithmetic::div_mod::lemma_mod_twice(r_z.rat@ as int, n@ as int);
    }
    let z_id = cs_homomorphic_add(&cs_homomorphic_scalar_mul(&e, &r1, n2), &y_id_enc, n2);
    let z_at = cs_homomorphic_add(&cs_homomorphic_scalar_mul(&e, &r2, n2), &y_at_enc, n2);
    let z_nf = cs_homomorphic_scalar_mul(&e, &r3, n2);
    Ok(HecEvalOutput { z_id, z_at, z_nf })
}

/// The plaintext decryption gives for `c`, when decryption succeeds.
pub open spec fn cs_dec_value(p: CsParams, x: nat, c: (nat, nat)) -> int {
    (cs_dec_lifted(p.n@, p.n2@, x, c.0, c.1) - 1) / (p.n@ as int)
}

/// Decryption of `c` succeeds.
pub open spec fn cs_dec_ok(p: CsParams, x: nat, c: (nat, nat)) -> bool {
    spec_gcd(p.n@, 2) == 1 && spec_gcd(p.n2@, pow_mod(c.0, x, p.n2@)) == 1 && cs_dec_lifted(p.n@, p.n2@, x, c.0, c.1) != 0
}

/// The first list element whose residue modulo `n` is `v`, if any.
pub open spec fn list_hit(x: Seq<nat>, n: nat, v: int) -> bool {
    exists|i: int| 0 <= i < x.len() && (#[trigger] x[i]) % n == v
}

/// HECdec(hecpar, d, Z): decrypts `Z_id`, `Z_at` and `Z_nf`; when `Z_nf`
/// decrypts to zero and some list element matches the decrypted identity
/// modulo `n`, returns the decrypted `(y_id, y_at)`, otherwise nothing.
///
/// Fails when `fk.n` differs from the list length or a decryption fails.
pub fn hec_dec(hecpar: &HecParams, d_audit: &HecAuditData, z: &HecEvalOutput) -> (r: CryptoResult<Option<HecEvalInput>>)
    requires
        spec_gcd(hecpar.cs_params.n@, 2) == 1 ==> hecpar.cs_params.n2@ > 0,
    ensures
        ({
            let p = hecpar.cs_params;
            let sk = d_audit.sk_e.x@;
            let ok = d_audit.fk.n == d_audit.x@.len() && cs_dec_ok(p, sk, z.z_id@) && cs_dec_ok(p, sk, z.z_at@) && cs_dec_ok(p, sk, z.z_nf@);
            &&& r is Ok <==> ok
            &&& r matches Ok(res) ==> {
                &&& (res is Some <==> cs_dec_value(p, sk, z.z_nf@) == 0 && list_hit(nats(d_audit.x@), p.n@, cs_dec_value(p, sk, z.z_id@)))
                &&& res matches Some(v) ==> v.y_id@ == cs_dec_value(p, sk, z.z_id@) && v.y_at@ == cs_dec_value(p, sk, z.z_at@)
            }
        }),
        r matches Err(e) ==> e is InvalidInput || e == CryptoError::ModularInverseUnavailable,
        d_audit.fk.n != d_audit.x@.len() ==> r == Err::<Option<HecEvalInput>, CryptoError>(
            CryptoError::InvalidInput("audit context fk.n must equal x.len()"),
        ),
{
    if d_audit.fk.n != d_audit.x.len() {
        return Err(CryptoError::InvalidInput("audit context fk.n must equal x.len()"));
    }
    let params = &hecpar.cs_params;
    let y_prime_id = match dec_cs(params, &d_audit.sk_e, &z.z_id) {
        Ok(v) => v,
        Err(e) => return Err(e),
    };
    let y_prime_at = match dec_cs(params, &d_audit.sk_e, &z.z_at) {
        Ok(v) => v,
        Err(e) => return Err(e),
    };
    let y_prime_nf = match dec_cs(params, &d_audit.sk_e, &z.z_nf) {
        Ok(v) => v,
        Err(e) => return Err(e),
    };
    if !big_is_zero(&y_prime_nf) {
        return Ok(None);
    }
    proof {
        assert(params.n@ > 0) by {
            if params.n@ == 0 {
                assert(spec_gcd(0, 2) == spec_gcd(2, 0));
            }
        }
    }
    let mut i: usize = 0;
    while i < d_audit.x.len()
        invariant
            *params == hecpar.cs_params,
            params.n@ > 0,
            i <= d_audit.x@.len(),
            d_audit.fk.n == d_audit.x@.len(),
            cs_dec_ok(*params, d_audit.sk_e.x@, z.z_id@) && cs_dec_ok(*params, d_audit.sk_e.x@, z.z_at@) && cs_dec_ok(*params, d_audit.sk_e.x@, z.z_nf@),
            y_prime_id@ == cs_dec_value(*params, d_audit.sk_e.x@, z.z_id@),
            y_prime_at@ == cs_dec_value(*params, d_audit.sk_e.x@, z.z_at@),
            cs_dec_value(*params, d_audit.sk_e.x@, z.z_nf@) == 0,
            forall|t: int| 0 <= t < i ==> (#[trigger] d_audit.x@[t])@ % params.n@ != y_prime_id@,
        decreases d_audit.x.len() - i,
    {
        if big_eq(&big_rem(&d_audit.x[i], &params.n), &y_prime_id) {
            proof {
                let xs = nats(d_audit.x@);
                assert(xs[i as int] == d_audit.x@[i as int]@);
                assert(xs[i as int] % params.n@ == y_prime_id@);
                assert(list_hit(xs, params.n@, y_prime_id@ as int));
            }
            return Ok(Some(HecEvalInput { y_id: y_prime_id, y_at: y_prime_at }));
        }
        i = i + 1;
    }
    proof {
        assert forall|t: int| 0 <= t < nats(d_audit.x@).len() implies #[trigger] nats(d_audit.x@)[t] % params.n@ != y_prime_id@ by {
            assert(nats(d_audit.x@)[t] == d_audit.x@[t]@);
        }
    }
    Ok(None)
}


// ---------------------------------------------------------------------------
// Correctness of HECdec on a listed identity.
// ---------------------------------------------------------------------------

/// Horner evaluation over the naturals, as `horner` evaluates ciphertexts:
/// `m_0 + y (m_1 + y (...))`, zero for no coefficients.
pub open spec fn horner_nat(ms: Seq<nat>, y: nat) -> nat
    decreases ms.len(),
{
    if ms.len() == 0 {
        0
    } else if ms.len() == 1 {
        ms[0]
    } else {
        ms[0] + horner_nat(ms.drop_first(), y) * y
    }
}

/// `prod (X - x_i)` has one coefficient more than there are roots.
proof fn lemma_expand_unscaled_len(roots: Seq<nat>, n: nat)
    requires
        n > 0,
    ensures
        expand_unscaled(roots, n).len() == roots.len() + 1,
    decreases roots.len(),
{
    if roots.len() > 0 {
        lemma_expand_unscaled_len(roots.drop_last(), n);
    }
}

/// Sums of congruent terms are congruent.
proof fn lemma_cong_add(a: int, a2: int, b: int, b2: int, n: int)
    requires
        n > 0,
        a % n == a2 % n,
        b % n == b2 % n,
    ensures
        (a + b) % n == (a2 + b2) % n,
{
    vstd::arithmetic::div_mod::lemma_add_mod_noop(a, b, n);
    vstd::arithmetic::div_mod::lemma_add_mod_noop(a2, b2, n);
}

/// Products of congruent factors are congruent.
proof fn lemma_cong_mul(a: int, a2: int, b: int, b2: int, n: int)
    requires
        n > 0,
        a % n == a2 % n,
        b % n == b2 % n,
    ensures
        (a * b) % n == (a2 * b2) % n,
{
    vstd::arithmetic::div_mod::lemma_mul_mod_noop(a, b, n);
    vstd::arithmetic::div_mod::lemma_mul_mod_noop(a2, b2, n);
}

/// A residue is congruent to its number.
proof fn lemma_cong_mod(a: int, n: int)
    requires
        n > 0,
    ensures
        (a % n) % n == a % n,
{
    lemma_mod_twice(a, n);
}

/// Multiplying a polynomial by `(X + c)` multiplies its value at `y` by
/// `y + c`, modulo `n`.
proof fn lemma_horner_mul_linear(p: Seq<nat>, c: nat, n: nat, y: nat)
    requires
        n > 0,
        p.len() >= 1,
    ensures
        horner_nat(mul_linear(p, c, n), y) % n == ((y + c) * horner_nat(p, y)) % n,
    decreases p.len(),
{
    let ni = n as int;
    let yi = y as int;
    let q = mul_linear(p, c, n);
    let a = q.drop_first();
    let p0 = p[0] as int;
    let ci = c as int;
    assert(q.len() == p.len() + 1);
    assert(q[0] == (p[0] * c) % n);
    lemma_cong_mod(p0 * ci, ni);
    if p.len() == 1 {
        assert(a.len() == 1);
        assert(a[0] == p[0] % n);
        assert(horner_nat(q, y) as int == (p0 * ci) % ni + (p0 % ni) * yi);
        lemma_cong_mod(p0, ni);
        lemma_cong_mul(p0 % ni, p0, yi, yi, ni);
        lemma_cong_add((p0 * ci) % ni, p0 * ci, (p0 % ni) * yi, p0 * yi, ni);
        assert(p0 * ci + p0 * yi == (yi + ci) * p0) by (nonlinear_arith);
    } else {
        let pp = p.drop_first();
        let qq = mul_linear(pp, c, n);
        lemma_horner_mul_linear(pp, c, n, y);
        let p1 = p[1] as int;
        assert(qq.len() == pp.len() + 1);
        assert(a.len() == qq.len());
        assert(a.drop_first() =~= qq.drop_first());
        assert(a[0] == (p[0] + p[1] * c) % n);
        assert(qq[0] == (p[1] * c) % n);
        let t = horner_nat(qq.drop_first(), y) as int;
        let hp = horner_nat(pp, y) as int;
        let ha = horner_nat(a, y) as int;
        let hq = horner_nat(qq, y) as int;
        assert(ha == (p0 + p1 * ci) % ni + t * yi);
        assert(hq == (p1 * ci) % ni + t * yi);
        assert(horner_nat(p, y) as int == p0 + hp * yi);
        assert(horner_nat(q, y) as int == (p0 * ci) % ni + ha * yi);
        // hq == p1 c + t y, which is (y + c) hp, modulo n
        lemma_cong_mod(p1 * ci, ni);
        lemma_cong_add((p1 * ci) % ni, p1 * ci, t * yi, t * yi, ni);
        let x1 = p1 * ci + t * yi;
        assert(x1 % ni == ((yi + ci) * hp) % ni);
        // ha == p0 + x1
        lemma_cong_mod(p0 + p1 * ci, ni);
        lemma_cong_add((p0 + p1 * ci) % ni, p0 + p1 * ci, t * yi, t * yi, ni);
        assert(ha % ni == (p0 + x1) % ni);
        // and p0 + x1 == p0 + (y + c) hp
        lemma_cong_add(p0, p0, x1, (yi + ci) * hp, ni);
        let z = p0 + (yi + ci) * hp;
        assert(ha % ni == z % ni);
        lemma_cong_mul(ha, z, yi, yi, ni);
        lemma_cong_add((p0 * ci) % ni, p0 * ci, ha * yi, z * yi, ni);
        assert(p0 * ci + z * yi == (yi + ci) * (p0 + hp * yi)) by (nonlinear_arith)
            requires
                z == p0 + (yi + ci) * hp,
        ;
    }
}

/// A polynomial with the root `x_j` vanishes at `y == x_j (mod n)`.
proof fn lemma_horner_root(roots: Seq<nat>, n: nat, y: nat, j: int)
    requires
        n > 0,
        0 <= j < roots.len(),
        roots[j] % n == y % n,
    ensures
        horner_nat(expand_unscaled(roots, n), y) % n == 0,
    decreases roots.len(),
{
    let ni = n as int;
    let prev = expand_unscaled(roots.drop_last(), n);
    let c = neg_mod(roots.last(), n);
    lemma_expand_unscaled_len(roots.drop_last(), n);
    assert(expand_unscaled(roots, n) == mul_linear(prev, c, n));
    lemma_horner_mul_linear(prev, c, n, y);
    let hp = horner_nat(prev, y) as int;
    let yc = (y + c) as int;
    lemma_small_mod(0, n);
    if j == roots.len() - 1 {
        // y + c == y - x_j == 0 (mod n)
        let xl = roots.last();
        lemma_mod_bound(xl as int, ni);
        lemma_mod_bound(y as int, ni);
        lemma_cong_mod(y as int, ni);
        if xl % n == 0 {
            vstd::arithmetic::div_mod::lemma_mod_self_0(ni);
            assert(c == 0);
            assert(yc % ni == 0);
        } else {
            lemma_small_mod((n - xl % n) as nat, n);
            assert(c == n - xl % n);
            lemma_small_mod(c, n);
            lemma_cong_add(y as int, (y % n) as int, c as int, c as int, ni);
            assert((y % n) + c == n);
            vstd::arithmetic::div_mod::lemma_mod_self_0(ni);
            assert(yc % ni == 0);
        }
        lemma_cong_mul(yc, 0, hp, hp, ni);
    } else {
        assert(roots.drop_last()[j] == roots[j]);
        lemma_horner_root(roots.drop_last(), n, y, j);
        lemma_cong_mul(yc, yc, hp, 0, ni);
    }
}

/// Scaling every coefficient by `s` modulo `n` scales the value.
proof fn lemma_horner_scale(u: Seq<nat>, s: nat, n: nat, y: nat)
    requires
        n > 0,
    ensures
        horner_nat(u.map_values(|c: nat| (c * (s % n)) % n), y) % n == ((s % n) * horner_nat(u, y)) % n,
    decreases u.len(),
{
    let ni = n as int;
    let yi = y as int;
    let sn = (s % n) as int;
    let m = u.map_values(|c: nat| (c * (s % n)) % n);
    assert(m.len() == u.len());
    if u.len() == 0 {
        lemma_small_mod(0, n);
        assert(sn * 0 == 0);
    } else if u.len() == 1 {
        let u0 = u[0] as int;
        assert(horner_nat(m, y) as int == (u0 * sn) % ni);
        lemma_cong_mod(u0 * sn, ni);
        assert(u0 * sn == sn * u0) by (nonlinear_arith);
    } else {
        let uu = u.drop_first();
        let u0 = u[0] as int;
        assert(m.drop_first() =~= uu.map_values(|c: nat| (c * (s % n)) % n));
        lemma_horner_scale(uu, s, n, y);
        let hu = horner_nat(uu, y) as int;
        let hm = horner_nat(m.drop_first(), y) as int;
        assert(horner_nat(m, y) as int == (u0 * sn) % ni + hm * yi);
        assert(horner_nat(u, y) as int == u0 + hu * yi);
        assert(hm % ni == (sn * hu) % ni);
        lemma_cong_mul(hm, sn * hu, yi, yi, ni);
        lemma_cong_mod(u0 * sn, ni);
        lemma_cong_add((u0 * sn) % ni, u0 * sn, hm * yi, (sn * hu) * yi, ni);
        assert(u0 * sn + (sn * hu) * yi == sn * (u0 + hu * yi)) by (nonlinear_arith);
    }
}

/// Every ciphertext of `v` has the form of the matching message and
/// randomness, so their Horner evaluation has the form of the Horner
/// value of the messages.
proof fn lemma_sq_form_horner(p: CsParams, x: nat, v: Seq<(nat, nat)>, ms: Seq<nat>, rs: Seq<nat>, y: nat) -> (r: nat)
    requires
        p.n2@ > 1,
        v.len() == ms.len(),
        v.len() == rs.len(),
        forall|i: int| 0 <= i < v.len() ==> #[trigger] crate::cs::ct_sq_form(p, x, v[i], rs[i], ms[i]),
    ensures
        crate::cs::ct_sq_form(p, x, horner(v, y, p.n2@), r, horner_nat(ms, y)),
    decreases v.len(),
{
    let n2 = p.n2@;
    if v.len() == 0 {
        crate::cs::lemma_sq_form_one(p, x);
        0
    } else if v.len() == 1 {
        assert(crate::cs::ct_sq_form(p, x, v[0], rs[0], ms[0]));
        rs[0]
    } else {
        let vv = v.drop_first();
        let mm = ms.drop_first();
        let rr = rs.drop_first();
        assert forall|i: int| 0 <= i < vv.len() implies #[trigger] crate::cs::ct_sq_form(p, x, vv[i], rr[i], mm[i]) by {
            assert(crate::cs::ct_sq_form(p, x, v[i + 1], rs[i + 1], ms[i + 1]));
        }
        let r1 = lemma_sq_form_horner(p, x, vv, mm, rr, y);
        let h1 = horner(vv, y, n2);
        crate::cs::lemma_sq_form_scale(p, x, h1, r1, horner_nat(mm, y), y);
        assert(crate::cs::ct_sq_form(p, x, v[0], rs[0], ms[0]));
        crate::cs::lemma_sq_form_add(p, x, v[0], rs[0], ms[0], ct_scale(h1, y, n2), r1 * y, horner_nat(mm, y) * y);
        rs[0] + r1 * y
    }
}


/// The evaluation `E` of an HECenc output at a listed identity decrypts to
/// zero: every coefficient ciphertext has the form of its coefficient, so
/// `E` has the form of `P(y) == 0 (mod n)`.
proof fn lemma_eval_at_root(p: CsParams, bits: nat, fk: HecFunctionKey, x: Seq<nat>, s: nat, out: HecEncOutput, y: nat, j: int) -> (r: nat)
    requires
        crate::cs::cs_setup_shape(p, bits),
        hec_enc_output_from(p, fk, x, s, out),
        0 <= j < x.len(),
        x[j] % p.n@ == y % p.n@,
    ensures
        ({
            let e = horner(cts(out.x_public.encrypted_coeffs@), y, p.n2@);
            let m = horner_nat(nats(out.enc_witness.masked_coeffs@), y);
            &&& crate::cs::ct_sq_form(p, out.d_audit.sk_e.x@, e, r, m)
            &&& m % p.n@ == 0
        }),
{
    crate::cs::lemma_cs_setup_units(p, bits);
    let n = p.n@;
    let n2 = p.n2@;
    assert(n2 > 1) by (nonlinear_arith)
        requires
            n > 1,
            n2 == n * n,
    ;
    let sk = out.d_audit.sk_e.x@;
    let coeffs = nats(out.enc_witness.masked_coeffs@);
    let rhos = nats(out.enc_witness.encryption_randomness@);
    let cs = cts(out.x_public.encrypted_coeffs@);
    let rs = Seq::new(cs.len(), |i: int| rhos[i] % n);
    assert forall|i: int| 0 <= i < cs.len() implies #[trigger] crate::cs::ct_sq_form(p, sk, cs[i], rs[i], coeffs[i]) by {
        crate::cs::lemma_sq_form_enc(p, sk, coeffs[i], rhos[i]);
    }
    let r = lemma_sq_form_horner(p, sk, cs, coeffs, rs, y);
    lemma_horner_scale(expand_unscaled(x, n), s, n, y);
    lemma_horner_root(x, n, y, j);
    vstd::arithmetic::div_mod::lemma_mul_mod_noop_right((s % n) as int, horner_nat(expand_unscaled(x, n), y) as int, n as int);
    lemma_small_mod(0, n);
    r
}

/// HECdec finds a listed identity: for parameters of the shape of
/// `setup_cs`, an HECenc output for the list `x`, and an evaluation at an
/// identity `y_id` that is on the list modulo `n`, the three ciphertexts of
/// HECeval decrypt, `Z_nf` to zero, `Z_id` to `y_id mod n` and `Z_at` to
/// `y_at mod n`; so HECdec returns `(y_id mod n, y_at mod n)`.
pub proof fn lemma_hec_dec_hit(
    p: CsParams,
    bits: nat,
    fk: HecFunctionKey,
    x: Seq<nat>,
    s: nat,
    out: HecEncOutput,
    y: HecEvalInput,
    rz: HecEvalRandomness,
)
    requires
        crate::cs::cs_setup_shape(p, bits),
        hec_enc_output_from(p, fk, x, s, out),
        list_hit(x, p.n@, (y.y_id@ % p.n@) as int),
    ensures
        ({
            let z = hec_eval_spec(p, out.x_public, y, rz);
            let sk = out.d_audit.sk_e.x@;
            &&& cs_dec_ok(p, sk, z.0) && cs_dec_ok(p, sk, z.1) && cs_dec_ok(p, sk, z.2)
            &&& cs_dec_value(p, sk, z.2) == 0
            &&& cs_dec_value(p, sk, z.0) == y.y_id@ % p.n@
            &&& cs_dec_value(p, sk, z.1) == y.y_at@ % p.n@
        }),
{
    crate::cs::lemma_cs_setup_units(p, bits);
    let n = p.n@;
    let n2 = p.n2@;
    let ni = n as int;
    assert(n2 > 1) by (nonlinear_arith)
        requires
            n > 1,
            n2 == n * n,
    ;
    let sk = out.d_audit.sk_e.x@;
    let k = out.x_public.pk_ah.k@;
    let yid = y.y_id@ % n;
    let yat = y.y_at@ % n;
    let j = choose|i: int| 0 <= i < x.len() && (#[trigger] x[i]) % n == yid;
    lemma_mod_twice(y.y_id@ as int, ni);
    let re = lemma_eval_at_root(p, bits, fk, x, s, out, yid, j);
    let e = horner(cts(out.x_public.encrypted_coeffs@), yid, n2);
    let pm = horner_nat(nats(out.enc_witness.masked_coeffs@), yid);
    let r1 = rz.r1@ % n;
    let r2 = rz.r2@ % n;
    let r3 = rz.r3@ % n;
    // Z_nf = r3 E has the form of r3 P(y) == 0.
    crate::cs::lemma_sq_form_scale(p, sk, e, re, pm, r3);
    crate::cs::lemma_sq_form_dec(p, bits, sk, ct_scale(e, r3, n2), re * r3, pm * r3);
    lemma_cong_mul(pm as int, 0, r3 as int, r3 as int, ni);
    lemma_small_mod(0, n);
    // Z_id = r1 E + Enc(y_id; r_id) has the form of r1 P(y) + y_id.
    crate::cs::lemma_sq_form_scale(p, sk, e, re, pm, r1);
    crate::cs::lemma_sq_form_enc(p, sk, yid, rz.rid@ % n);
    crate::cs::lemma_sq_form_add(p, sk, ct_scale(e, r1, n2), re * r1, pm * r1, cs_enc_spec(n, n2, p.g@, p.h@, k, yid, rz.rid@ % n), (rz.rid@ % n) % n, yid);
    crate::cs::lemma_sq_form_dec(p, bits, sk, ct_add(ct_scale(e, r1, n2), cs_enc_spec(n, n2, p.g@, p.h@, k, yid, rz.rid@ % n), n2), re * r1 + (rz.rid@ % n) % n, pm * r1 + yid);
    lemma_cong_mul(pm as int, 0, r1 as int, r1 as int, ni);
    lemma_cong_add((pm * r1) as int, 0, yid as int, yid as int, ni);
    // Z_at = r2 E + Enc(y_at; r_at) has the form of r2 P(y) + y_at.
    crate::cs::lemma_sq_form_scale(p, sk, e, re, pm, r2);
    crate::cs::lemma_sq_form_enc(p, sk, yat, rz.rat@ % n);
    crate::cs::lemma_sq_form_add(p, sk, ct_scale(e, r2, n2), re * r2, pm * r2, cs_enc_spec(n, n2, p.g@, p.h@, k, yat, rz.rat@ % n), (rz.rat@ % n) % n, yat);
    crate::cs::lemma_sq_form_dec(p, bits, sk, ct_add(ct_scale(e, r2, n2), cs_enc_spec(n, n2, p.g@, p.h@, k, yat, rz.rat@ % n), n2), re * r2 + (rz.rat@ % n) % n, pm * r2 + yat);
    lemma_cong_mul(pm as int, 0, r2 as int, r2 as int, ni);
    lemma_cong_add((pm * r2) as int, 0, yat as int, yat as int, ni);
    lemma_mod_twice(y.y_at@ as int, ni);
}

} // verus!
