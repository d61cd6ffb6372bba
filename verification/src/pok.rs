//! Ciphertext polynomials and the succinct proof of correct polynomial
//! evaluation (PoKP, Algorithms 1 and 2), with its DF sub-proofs.
use crate::bignum::{big_add, big_bits, big_div, big_eq, big_is_zero, big_modpow, big_mul, big_rem, big_sub, bit_len, pow_mod, random_bits, Int, Nat};
use crate::cs::{ct_add, ct_scale, cs_homomorphic_add, cs_homomorphic_scalar_mul, CsCiphertext};
use crate::cs_commit::{
    blinding_ok, commit_cs, modpow_signed, prove_cs_add, prove_cs_com, prove_cs_com_ciphertext, prove_cs_mult,
    signed_pow, signed_pow_ok, CsAddProof, CsComCtProof, CsComProof, CsCommitOpening, CsCommitParams, CsCommitment,
    CsCommitmentWithOpening, CsMultProof,
};
use crate::df::{commit_df, commit_df_with_opening, df_commit_spec, nats, DfParams};
use crate::error::{verifier_error, CryptoError, CryptoResult};
use crate::hash::{challenge_of, fiat_shamir_challenge_biguints};
use crate::log2::{ilog2_usize, is_pow2, is_power_of_two_usize, log2_floor, usize_bit_len};
use crate::math::{derive_b_bits_from_n2, inv_mod, modinv, spec_gcd};
use vstd::arithmetic::power2::pow2;
use vstd::prelude::*;

verus! {

/// A scalar: an exponent such as `y`, `alpha` or `y^(2^i)`.
pub type Scalar = Nat;

/// A Camenisch-Shoup ciphertext.
pub type CamenischShoupCiphertext = CsCiphertext;

/// The numbers of a vector of ciphertexts.
pub open spec fn cts(v: Seq<CsCiphertext>) -> Seq<(nat, nat)> {
    v.map_values(|c: CsCiphertext| c@)
}

/// A polynomial with ciphertext coefficients,
/// `f(X) = sum_i coeffs[i] X^i`, and the modulus `n^2` of its homomorphic
/// operations. Built by `new`, it has at least one coefficient and `n^2 > 0`.
#[derive(Debug, Clone, PartialEq, Eq)]
pub struct CiphertextPolynomial {
    coeffs: Vec<CamenischShoupCiphertext>,
    n2: Nat,
}

impl View for CiphertextPolynomial {
    type V = (Seq<(nat, nat)>, nat);

    closed spec fn view(&self) -> (Seq<(nat, nat)>, nat) {
        (cts(self.coeffs@), self.n2@)
    }
}

/// One folding level: `v'[j] = v[j] (+) (v[j + m/2] (.) s)` for the first half.
pub open spec fn fold_level(v: Seq<(nat, nat)>, s: nat, n2: nat) -> Seq<(nat, nat)> {
    Seq::new(v.len() / 2, |j: int| ct_add(v[j], ct_scale(v[j + v.len() / 2], s, n2), n2))
}

/// Folds `k` levels, using `powers[k-1]` first and `powers[0]` last.
pub open spec fn fold_all(v: Seq<(nat, nat)>, powers: Seq<nat>, k: nat, n2: nat) -> Seq<(nat, nat)>
    decreases k,
{
    if k == 0 {
        v
    } else {
        fold_all(fold_level(v, powers[k - 1], n2), powers, (k - 1) as nat, n2)
    }
}

/// `v` padded with the neutral ciphertext `(1, 1)` up to length `m`.
pub open spec fn pad_ones(v: Seq<(nat, nat)>, m: nat) -> Seq<(nat, nat)> {
    v + Seq::new((m - v.len()) as nat, |i: int| (1nat, 1nat))
}

/// The number of folding rounds for `len` coefficients: `ceil(log2 len)`.
pub open spec fn rounds_for(len: nat) -> nat {
    if len <= 1 {
        0
    } else {
        bit_len((len - 1) as nat)
    }
}

/// The folded evaluation of coefficients `v` at the powers `powers`:
/// pad to `2^rounds` with `(1, 1)` and fold level by level.
pub open spec fn folded_eval(v: Seq<(nat, nat)>, powers: Seq<nat>, n2: nat) -> (nat, nat) {
    let r = rounds_for(v.len());
    fold_all(pad_ones(v, pow2(r)), powers, r, n2)[0]
}

/// Both components of a ciphertext are coprime to `n^2`.
pub open spec fn ct_units(c: (nat, nat), n2: nat) -> bool {
    spec_gcd(n2, c.0) == 1 && spec_gcd(n2, c.1) == 1
}

/// Every ciphertext of `v` has both components coprime to `n^2`.
pub open spec fn cts_units(v: Seq<(nat, nat)>, n2: nat) -> bool {
    forall|i: int| 0 <= i < v.len() ==> #[trigger] ct_units(v[i], n2)
}

/// Homomorphic addition and scaling keep ciphertexts of units units.
pub(crate) proof fn lemma_ct_ops_units(a: (nat, nat), b: (nat, nat), s: nat, n2: nat)
    requires
        n2 > 1,
        ct_units(a, n2),
        ct_units(b, n2),
    ensures
        ct_units(ct_scale(b, s, n2), n2),
        ct_units(ct_add(a, ct_scale(b, s, n2), n2), n2),
{
    crate::powmod::lemma_coprime_pow(b.0, s, n2);
    crate::powmod::lemma_coprime_pow(b.1, s, n2);
    crate::powmod::lemma_coprime_mul(a.0, pow_mod(b.0, s, n2), n2);
    crate::powmod::lemma_coprime_mul(a.1, pow_mod(b.1, s, n2), n2);
}

/// One folding level keeps ciphertexts of units units.
pub proof fn lemma_fold_level_units(v: Seq<(nat, nat)>, s: nat, n2: nat)
    requires
        n2 > 1,
        cts_units(v, n2),
    ensures
        cts_units(fold_level(v, s, n2), n2),
        fold_level(v, s, n2).len() == v.len() / 2,
{
    let f = fold_level(v, s, n2);
    assert forall|j: int| 0 <= j < f.len() implies #[trigger] ct_units(f[j], n2) by {
        lemma_ct_ops_units(v[j], v[j + v.len() / 2], s, n2);
    }
}

/// Folding `k` levels keeps ciphertexts of units units, and takes
/// `2^k m` ciphertexts to `m`.
pub proof fn lemma_fold_all_units(v: Seq<(nat, nat)>, powers: Seq<nat>, k: nat, n2: nat, m: nat)
    requires
        n2 > 1,
        cts_units(v, n2),
        v.len() == pow2(k) * m,
    ensures
        cts_units(fold_all(v, powers, k, n2), n2),
        fold_all(v, powers, k, n2).len() == m,
    decreases k,
{
    if k == 0 {
        vstd::arithmetic::power2::lemma2_to64();
    } else {
        vstd::arithmetic::power2::lemma_pow2_unfold(k);
        let f = fold_level(v, powers[k - 1], n2);
        lemma_fold_level_units(v, powers[k - 1], n2);
        assert(v.len() == 2 * (pow2((k - 1) as nat) * m)) by (nonlinear_arith)
            requires
                v.len() == pow2(k) * m,
                pow2(k) == 2 * pow2((k - 1) as nat),
        ;
        lemma_fold_all_units(f, powers, (k - 1) as nat, n2, m);
    }
}

/// `2^rounds_for(len)` covers `len` coefficients.
proof fn lemma_rounds_for_cover(len: nat)
    requires
        len > 0,
    ensures
        len <= pow2(rounds_for(len)),
{
    if len > 1 {
        crate::bignum::lemma_bit_len_range((len - 1) as nat);
    } else {
        vstd::arithmetic::power2::lemma2_to64();
    }
}

/// The folded evaluation of ciphertexts of units is a ciphertext of units.
pub proof fn lemma_folded_eval_units(v: Seq<(nat, nat)>, powers: Seq<nat>, n2: nat)
    requires
        n2 > 1,
        v.len() > 0,
        cts_units(v, n2),
    ensures
        ct_units(folded_eval(v, powers, n2), n2),
{
    let r = rounds_for(v.len());
    lemma_rounds_for_cover(v.len());
    let padded = pad_ones(v, pow2(r));
    crate::powmod::lemma_coprime_one(n2);
    assert forall|i: int| 0 <= i < padded.len() implies #[trigger] ct_units(padded[i], n2) by {
        if i >= v.len() {
            assert(padded[i] == (1nat, 1nat));
        }
    }
    assert(padded.len() == pow2(r) * 1);
    lemma_fold_all_units(padded, powers, r, n2, 1);
}

/// Horner evaluation `v[0] (+) (y (.) (v[1] (+) (y (.) ...)))`, the last
/// coefficient taken as it is; `(1, 1)` for no coefficients.
pub open spec fn horner(v: Seq<(nat, nat)>, y: nat, n2: nat) -> (nat, nat)
    decreases v.len(),
{
    if v.len() == 0 {
        (1, 1)
    } else if v.len() == 1 {
        v[0]
    } else {
        ct_add(v[0], ct_scale(horner(v.drop_first(), y, n2), y, n2), n2)
    }
}

/// The `i`-th element of the reduced squaring chain of `y` modulo `n`:
/// `y mod n`, then each element the square of the previous one modulo `n`.
pub open spec fn power_chain(y: nat, n: nat, i: nat) -> nat
    decreases i,
{
    if i == 0 {
        y % n
    } else {
        (power_chain(y, n, (i - 1) as nat) * power_chain(y, n, (i - 1) as nat)) % n
    }
}

impl CiphertextPolynomial {
    /// A copy of the polynomial.
    pub fn copy(&self) -> (r: CiphertextPolynomial)
        ensures
            r@ == self@,
    {
        CiphertextPolynomial { coeffs: copy_cts(self.coeffs.as_slice()), n2: self.n2.copy() }
    }

    /// Builds a polynomial; fails when `coeffs` is empty or `n2` is zero.
    pub fn new(coeffs: Vec<CamenischShoupCiphertext>, n2: &Nat) -> (r: CryptoResult<Self>)
        ensures
            r is Ok <==> coeffs@.len() > 0 && n2@ > 0,
            coeffs@.len() == 0 ==> r == Err::<Self, CryptoError>(
                CryptoError::InvalidInput("ciphertext polynomial must be non-empty"),
            ),
            coeffs@.len() > 0 && n2@ == 0 ==> r == Err::<Self, CryptoError>(CryptoError::InvalidInput("n^2 must be non-zero")),
            r matches Ok(p) ==> p@ == (cts(coeffs@), n2@),
    {
        if coeffs.len() == 0 {
            return Err(CryptoError::InvalidInput("ciphertext polynomial must be non-empty"));
        }
        if big_is_zero(n2) {
            return Err(CryptoError::InvalidInput("n^2 must be non-zero"));
        }
        Ok(CiphertextPolynomial { coeffs, n2: n2.copy() })
    }

    /// The coefficients.
    pub fn coeffs(&self) -> (r: &[CamenischShoupCiphertext])
        ensures
            cts(r@) == self@.0,
    {
        self.coeffs.as_slice()
    }

    /// The number of coefficients.
    pub fn len(&self) -> (r: usize)
        ensures
            r == self@.0.len(),
    {
        self.coeffs.len()
    }

    /// Homomorphic addition `Enc(m1) (+) Enc(m2) = Enc(m1 + m2)`.
    pub fn homomorphic_add(left: &CamenischShoupCiphertext, right: &CamenischShoupCiphertext, n2: &Nat) -> (r:
        CamenischShoupCiphertext)
        requires
            n2@ > 0,
        ensures
            r@ == ct_add(left@, right@, n2@),
    {
        cs_homomorphic_add(left, right, n2)
    }

    /// Homomorphic scalar multiplication `k (.) Enc(m) = Enc(k m)`.
    pub fn homomorphic_scalar_mul(value: &CamenischShoupCiphertext, scalar: &Scalar, n2: &Nat) -> (r:
        CamenischShoupCiphertext)
        requires
            n2@ > 0,
        ensures
            r@ == ct_scale(value@, scalar@, n2@),
    {
        cs_homomorphic_scalar_mul(value, scalar, n2)
    }

    /// The number of folding rounds for `len` coefficients, `ceil(log2 len)`.
    pub fn required_rounds(len: usize) -> (r: usize)
        ensures
            r == rounds_for(len as nat),
    {
        if len <= 1 {
            0
        } else {
            usize_bit_len(len - 1) as usize
        }
    }

    /// The squaring chain `[y, y^2, y^4, ..., y^(2^(rounds-1))]` reduced
    /// modulo `n`, each element the square of the previous one modulo `n`.
    ///
    /// Fails when `n` is zero.
    pub fn reduced_power_chain(y: &Scalar, n: &Nat, rounds: usize) -> (r: CryptoResult<Vec<Scalar>>)
        ensures
            r is Err <==> n@ == 0,
            r is Err ==> r == Err::<Vec<Scalar>, CryptoError>(CryptoError::InvalidInput("modulus n must be non-zero")),
            r matches Ok(chain) ==> chain@.len() == rounds && forall|i: int|
                0 <= i < rounds ==> (#[trigger] chain@[i])@ == power_chain(y@, n@, i as nat),
    {
        if big_is_zero(n) {
            return Err(CryptoError::InvalidInput("modulus n must be non-zero"));
        }
        let mut chain: Vec<Nat> = Vec::new();
        if rounds == 0 {
            return Ok(chain);
        }
        let mut cur = big_rem(y, n);
        chain.push(cur.copy());
        let mut i: usize = 1;
        while i < rounds
            invariant
                n@ > 0,
                1 <= i <= rounds,
                chain@.len() == i,
                cur@ == power_chain(y@, n@, (i - 1) as nat),
                forall|t: int| 0 <= t < i ==> (#[trigger] chain@[t])@ == power_chain(y@, n@, t as nat),
            decreases rounds - i,
        {
            cur = big_rem(&big_mul(&cur, &cur), n);
            chain.push(cur.copy());
            i = i + 1;
        }
        Ok(chain)
    }

    /// Evaluation with the folding structure of Algorithm 2: with
    /// `s_k = powers[k]`, pad the coefficients with `(1, 1)` to `2^rounds`
    /// and, for `k = rounds-1` down to `0`, replace `vec[j]` by
    /// `vec[j] (+) (vec[j + m/2] (.) s_k)`. It decrypts to the same value as
    /// Horner evaluation when `powers` is the reduced squaring chain.
    ///
    /// Fails when fewer than `rounds` powers are given.
    pub fn evaluate_with_powers(&self, powers: &[Scalar]) -> (r: CryptoResult<CamenischShoupCiphertext>)
        ensures
            r is Err <==> powers@.len() < rounds_for(self@.0.len()) || self@.1 == 0,
            powers@.len() < rounds_for(self@.0.len()) ==> r == Err::<CamenischShoupCiphertext, CryptoError>(
                CryptoError::InvalidInput("not enough y-powers for folded evaluation"),
            ),
            powers@.len() >= rounds_for(self@.0.len()) && self@.1 == 0 ==> r == Err::<
                CamenischShoupCiphertext,
                CryptoError,
            >(CryptoError::InvalidInput("n^2 must be non-zero")),
            r matches Ok(c) ==> c@ == folded_eval(self@.0, nats(powers@), self@.1),
    {
        let rounds = Self::required_rounds(self.coeffs.len());
        if powers.len() < rounds {
            return Err(CryptoError::InvalidInput("not enough y-powers for folded evaluation"));
        }
        if big_is_zero(&self.n2) {
            return Err(CryptoError::InvalidInput("n^2 must be non-zero"));
        }
        if self.coeffs.len() == 0 {
            proof {
                vstd::arithmetic::power2::lemma2_to64();
                assert(pad_ones(cts(self.coeffs@), 1)[0] == (1nat, 1nat));
            }
            return Ok(CsCiphertext { c0: Nat::one(), c1: Nat::one() });
        }
        let n2 = &self.n2;
        let ghost coeffs_v = cts(self.coeffs@);
        let ghost pw = nats(powers@);
        let len = self.coeffs.len();
        proof {
            crate::bignum::lemma_bit_len_range((len - 1) as nat);
            if len > 1 {
                assert(pow2(rounds as nat) >= len);
            } else {
                vstd::arithmetic::power2::lemma2_to64();
            }
        }
        let target: u128 = crate::log2::pow2_u128(usize_bit_len(len - 1) as u32);
        let target: u128 = if len <= 1 { 1 } else { target };
        let mut vec: Vec<CsCiphertext> = Vec::new();
        while (vec.len() as u128) < target
            invariant
                target == pow2(rounds as nat),
                len == self.coeffs@.len(),
                len <= target,
                vec@.len() <= target,
                coeffs_v == cts(self.coeffs@),
                forall|t: int| 0 <= t < vec@.len() ==> (#[trigger] vec@[t])@ == pad_ones(coeffs_v, target as nat)[t],
            decreases target - vec@.len(),
        {
            if vec.len() < len {
                let i = vec.len();
                vec.push(self.coeffs[i].copy());
            } else {
                vec.push(CsCiphertext { c0: Nat::one(), c1: Nat::one() });
            }
        }
        proof {
            assert(cts(vec@) =~= pad_ones(coeffs_v, target as nat));
        }
        let mut k: usize = rounds;
        while k > 0
            invariant
                n2@ > 0,
                n2@ == self.n2@,
                k <= rounds,
                rounds <= powers@.len(),
                pw == nats(powers@),
                vec@.len() == pow2(k as nat),
                fold_all(cts(vec@), pw, k as nat, n2@) == fold_all(pad_ones(coeffs_v, target as nat), pw, rounds as nat, n2@),
            decreases k,
        {
            let half = vec.len() / 2;
            proof {
                vstd::arithmetic::power2::lemma_pow2_unfold(k as nat);
                assert(2 * half <= usize::MAX);
            }
            let mut next: Vec<CsCiphertext> = Vec::new();
            let mut j: usize = 0;
            while j < half
                invariant
                    n2@ > 0,
                    half == vec@.len() / 2,
                    vec@.len() == 2 * half,
                    2 * half <= usize::MAX,
                    k >= 1,
                    k - 1 < powers@.len(),
                    pw == nats(powers@),
                    j <= half,
                    next@.len() == j,
                    forall|t: int| 0 <= t < j ==> (#[trigger] next@[t])@ == fold_level(cts(vec@), pw[k - 1], n2@)[t],
                decreases half - j,
            {
                let scaled = cs_homomorphic_scalar_mul(&vec[j + half], &powers[k - 1], n2);
                next.push(cs_homomorphic_add(&vec[j], &scaled, n2));
                j = j + 1;
            }
            proof {
                assert(cts(next@) =~= fold_level(cts(vec@), pw[k - 1], n2@));
            }
            vec = next;
            k = k - 1;
        }
        proof {
            assert(fold_all(cts(vec@), pw, 0, n2@) == cts(vec@));
            vstd::arithmetic::power2::lemma2_to64();
        }
        Ok(vec[0].copy())
    }

    /// `evaluate_with_powers` on the reduced squaring chain of `y` modulo `n`.
    ///
    /// Fails when `n` is zero.
    pub fn evaluate_mod_n(&self, y: &Scalar, n: &Nat) -> (r: CryptoResult<CamenischShoupCiphertext>)
        ensures
            r is Err <==> n@ == 0 || self@.1 == 0,
            r matches Err(e) ==> e is InvalidInput,
            r matches Ok(c) ==> c@ == folded_eval(
                self@.0,
                Seq::new(rounds_for(self@.0.len()), |i: int| power_chain(y@, n@, i as nat)),
                self@.1,
            ),
    {
        let rounds = Self::required_rounds(self.len());
        let powers = match Self::reduced_power_chain(y, n, rounds) {
            Ok(p) => p,
            Err(e) => return Err(e),
        };
        proof {
            assert(nats(powers@) =~= Seq::new(rounds as nat, |i: int| power_chain(y@, n@, i as nat)));
        }
        self.evaluate_with_powers(powers.as_slice())
    }

    /// Horner evaluation `f(y) = (...((x_{n-1} y + x_{n-2}) y + ...) y + x_0)`
    /// over ciphertexts. It decrypts to the same value as the folded
    /// evaluation but uses exact integer powers of `y`.
    pub fn evaluate(&self, y: &Scalar) -> (r: CamenischShoupCiphertext)
        requires
            self@.1 > 0,
        ensures
            r@ == horner(self@.0, y@, self@.1),
    {
        let len = self.coeffs.len();
        if len == 0 {
            return CsCiphertext { c0: Nat::one(), c1: Nat::one() };
        }
        let ghost v = cts(self.coeffs@);
        let mut acc = self.coeffs[len - 1].copy();
        let mut i: usize = len - 1;
        proof {
            assert(v.subrange(i as int, len as int).len() == 1);
        }
        while i > 0
            invariant
                self.n2@ > 0,
                len == self.coeffs@.len(),
                v == cts(self.coeffs@),
                i < len,
                acc@ == horner(v.subrange(i as int, len as int), y@, self.n2@),
            decreases i,
        {
            let scaled = cs_homomorphic_scalar_mul(&acc, y, &self.n2);
            acc = cs_homomorphic_add(&self.coeffs[i - 1], &scaled, &self.n2);
            proof {
                let w = v.subrange(i - 1, len as int);
                assert(w.drop_first() =~= v.subrange(i as int, len as int));
            }
            i = i - 1;
        }
        proof {
            assert(v.subrange(0, len as int) =~= v);
        }
        acc
    }

    /// Splits the coefficients in two halves `(lower, upper)`:
    /// `[x_0..x_{n/2-1}]` and `[x_{n/2}..x_{n-1}]`; needs an even number of
    /// at least two coefficients.
    pub fn split_in_half(&self) -> (r: (CiphertextPolynomial, CiphertextPolynomial))
        requires
            self@.0.len() >= 2,
            self@.0.len() % 2 == 0,
        ensures
            r.0@ == (self@.0.subrange(0, (self@.0.len() / 2) as int), self@.1),
            r.1@ == (self@.0.subrange((self@.0.len() / 2) as int, self@.0.len() as int), self@.1),
    {
        let len = self.coeffs.len();
        let mid = len / 2;
        let mut lower: Vec<CsCiphertext> = Vec::new();
        let mut upper: Vec<CsCiphertext> = Vec::new();
        let mut i: usize = 0;
        while i < len
            invariant
                len == self.coeffs@.len(),
                mid == len / 2,
                i <= len,
                lower@.len() == (if i < mid { i } else { mid }),
                upper@.len() == (if i < mid { 0 } else { i - mid }),
                forall|t: int| 0 <= t < lower@.len() ==> (#[trigger] lower@[t])@ == self.coeffs@[t]@,
                forall|t: int| 0 <= t < upper@.len() ==> (#[trigger] upper@[t])@ == self.coeffs@[t + mid]@,
            decreases len - i,
        {
            if i < mid {
                lower.push(self.coeffs[i].copy());
            } else {
                upper.push(self.coeffs[i].copy());
            }
            i = i + 1;
        }
        proof {
            assert(cts(lower@) =~= cts(self.coeffs@).subrange(0, mid as int));
            assert(cts(upper@) =~= cts(self.coeffs@).subrange(mid as int, len as int));
        }
        (CiphertextPolynomial { coeffs: lower, n2: self.n2.copy() }, CiphertextPolynomial { coeffs: upper, n2: self.n2.copy() })
    }

    /// Folds the lower half `self` with the upper half:
    /// `x'_i = x_i (+) (x_{i+n/2} (.) alpha)`; both halves have the same
    /// length and modulus.
    pub fn fold(&self, upper_poly: &CiphertextPolynomial, alpha: &Scalar) -> (r: CiphertextPolynomial)
        requires
            self@.0.len() == upper_poly@.0.len(),
            self@.1 == upper_poly@.1,
            self@.1 > 0,
        ensures
            r@.1 == self@.1,
            r@.0 == Seq::new(self@.0.len(), |i: int| ct_add(self@.0[i], ct_scale(upper_poly@.0[i], alpha@, self@.1), self@.1)),
    {
        let len = self.coeffs.len();
        let mut folded: Vec<CsCiphertext> = Vec::new();
        let mut i: usize = 0;
        while i < len
            invariant
                self.n2@ > 0,
                len == self.coeffs@.len(),
                len == upper_poly.coeffs@.len(),
                i <= len,
                folded@.len() == i,
                forall|t: int| 0 <= t < i ==> (#[trigger] folded@[t])@ == ct_add(self.coeffs@[t]@, ct_scale(upper_poly.coeffs@[t]@, alpha@, self.n2@), self.n2@),
            decreases len - i,
        {
            let upper_scaled = cs_homomorphic_scalar_mul(&upper_poly.coeffs[i], alpha, &self.n2);
            folded.push(cs_homomorphic_add(&self.coeffs[i], &upper_scaled, &self.n2));
            i = i + 1;
        }
        proof {
            assert(cts(folded@) =~= Seq::new(cts(self.coeffs@).len(), |i: int| ct_add(cts(self.coeffs@)[i], ct_scale(cts(upper_poly.coeffs@)[i], alpha@, self.n2@), self.n2@)));
        }
        CiphertextPolynomial { coeffs: folded, n2: self.n2.copy() }
    }
}

// ---------------------------------------------------------------------------
// Proof objects.
// ---------------------------------------------------------------------------

/// An aux entry of Algorithm 1 with its reduction witness: `cy_2i` commits
/// to `s_i = y^(2^i) mod n`, `c_w` to the unreduced square `s_{i-1}^2`,
/// and `c_k` to `k` with `s_{i-1}^2 = s_i + k n`; the openings are chosen
/// so that `c_w == cy_2i * c_k^n mod n^2`.
#[derive(Debug, Clone, PartialEq, Eq)]
pub struct PoKAuxEntry {
    pub round: usize,
    pub cy_2i: Nat,
    pub c_w: Nat,
    pub c_k: Nat,
    pub pi_y2i: ProveMultProof,
}

/// The prover's opening of an aux commitment; never published.
#[derive(Debug, Clone)]
pub(crate) struct PoKAuxOpeningEntry {
    pub(crate) round: usize,
    pub(crate) cy_2i: Nat,
    pub(crate) r_i: Nat,
}

/// The public aux entries carry the rounds and commitments of the openings.
pub(crate) open spec fn aux_matches(aux: Seq<PoKAuxEntry>, openings: Seq<PoKAuxOpeningEntry>) -> bool {
    &&& aux.len() == openings.len()
    &&& forall|t: int| 0 <= t < aux.len() ==> (#[trigger] aux[t]).round == openings[t].round && aux[t].cy_2i@ == openings[t].cy_2i@
}

/// The conditions under which an honest PoK*_P level is accepted: `n^2 >
/// 1`, the commitment bases are units, the DF parameters of the folding
/// challenges are `(n, n^2, g', h')`, the coefficient ciphertexts are
/// units, a single coefficient is the statement `c_p` modulo `n^2`, and
/// the public aux entries match the openings.
pub(crate) open spec fn shell_complete_conds(
    pa: CsCommitParams,
    pdf: DfParams,
    cv: Seq<(nat, nat)>,
    c_p: (nat, nat),
    aux: Seq<PoKAuxEntry>,
    openings: Seq<PoKAuxOpeningEntry>,
) -> bool {
    let n2 = pa.n2@;
    &&& n2 > 1
    &&& crate::cs_commit::commit_bases_units(pa)
    &&& pdf.n@ == pa.n@ && pdf.n2@ == n2 && pdf.g@ == pa.g_prime@ && pdf.h@ == pa.h_prime@
    &&& cts_units(cv, n2)
    &&& cv.len() == 1 ==> c_p.0 % n2 == cv[0].0 % n2 && c_p.1 % n2 == cv[0].1 % n2
    &&& aux_matches(aux, openings)
}

/// An honest PoK*_P proof `star` for the coefficients `cv`, the statement
/// `c_p` and its commitment `cp` is accepted whenever the completeness
/// conditions hold.
#[verifier::opaque]
pub(crate) open spec fn shell_complete(
    pa: CsCommitParams,
    pdf: DfParams,
    cy: nat,
    cv: Seq<(nat, nat)>,
    c_p: (nat, nat),
    cp: CsCommitment,
    aux: Seq<PoKAuxEntry>,
    openings: Seq<PoKAuxOpeningEntry>,
    star: PoKStarProof,
    tv: (nat, Seq<(nat, nat)>, (nat, nat), Seq<nat>),
) -> bool {
    shell_complete_conds(pa, pdf, cv, c_p, aux, openings) ==> crate::ppb::shell_accepts(pa, cy, cv, cp, aux, star, tv)
}

/// The public transcript `tau = (Cy, c_0, ..., c_{n-1}, cP)` and the
/// fields of the rounds proved so far.
#[derive(Debug, Clone)]
pub struct PoKTranscript {
    pub cy: Nat,
    pub c_values: Vec<CsCiphertext>,
    pub c_p: CsCiphertext,
    pub history: Vec<Nat>,
}

/// The squaring proof `pi = (R1, R2, z_z, z_rin, z_gamma)`.
#[derive(Debug, Clone, PartialEq, Eq)]
pub struct ProveMultProof {
    pub r1: Nat,
    pub r2: Nat,
    pub z_z: Int,
    pub z_rin: Int,
    pub z_gamma: Int,
}

/// Proof that a DF commitment opens to a public message.
#[derive(Debug, Clone, PartialEq, Eq)]
pub struct DfOpenProof {
    pub r_commitment: Nat,
    pub z_r: Nat,
}

/// The public output of one recursion level of Algorithm 2.
#[derive(Debug, Clone)]
pub struct PoKStarRoundProof {
    pub c1: CsCommitment,
    pub c2: CsCommitment,
    pub c3: CsCommitment,
    pub c_alpha_e3: CsCommitment,
    pub c_p_prime: CsCommitment,
    pub alpha: Nat,
    pub cy_half: Nat,
    pub cy_alpha: Nat,
    pub pi_cy_alpha: DfOpenProof,
    pub pi_c1: CsComProof,
    pub pi_c2: CsComProof,
    pub pi_c3: CsComProof,
    pub pi_c_alpha_e3: CsComProof,
    pub pi_c_p_prime: CsComProof,
    pub pi_e_eq_e1_plus_e2: CsAddProof,
    pub pi_e2_eq_y_half_mul_e3: CsMultProof,
    pub pi_alpha_mul_e3: CsMultProof,
    pub pi_eprime_eq_e1_plus_alphae3: CsAddProof,
}

/// The recursive proof PoK*_P: the base case proves that `CP` opens to the
/// public folded ciphertext; each recursive level carries its round proof
/// and the proof of the next level.
#[derive(Debug)]
pub enum PoKStarProof {
    Base { pi_open_cp: CsComCtProof },
    Recursive { round: PoKStarRoundProof, next: Box<PoKStarProof> },
}

/// The output of Algorithm 1: the aux chain, the transcript, the
/// commitment `CP` and the recursive proof.
#[derive(Debug)]
pub struct PoKPProof {
    pub aux: Vec<PoKAuxEntry>,
    pub tau: PoKTranscript,
    pub c_p_commitment: CsCommitment,
    pub recursive_proof: PoKStarProof,
}

/// The number of recursive levels of a PoK*_P proof.
pub open spec fn pok_star_rounds(p: PoKStarProof) -> nat
    decreases p,
{
    match p {
        PoKStarProof::Base { .. } => 0,
        PoKStarProof::Recursive { next, .. } => 1 + pok_star_rounds(*next),
    }
}

// ---------------------------------------------------------------------------
// Helpers.
// ---------------------------------------------------------------------------

/// `com` is the zero-randomness commitment to `c`: `(c0, 1, c1, 1)` reduced
/// modulo `n^2`, opened with all signs `+1` and all exponents zero.
pub open spec fn is_zero_randomness_wrap(n2: nat, c: (nat, nat), w: CsCommitmentWithOpening) -> bool {
    &&& w.commitment@ == (c.0 % n2, 1nat, c.1 % n2, 1nat)
    &&& w.opening@ == (1i8, 1i8, 0nat, 0nat, 0nat, 0nat, 1i8, 1i8)
}

/// Wraps a ciphertext as the commitment `Com_AH(cP; 0)`:
/// `C1 = c0`, `C2 = 1`, `C3 = c1`, `C4 = 1` with the all-zero opening.
///
/// Fails when `n^2` is zero.
pub fn com_ah_with_zero_randomness(params_ah: &CsCommitParams, c_p: &CsCiphertext) -> (r: CryptoResult<
    CsCommitmentWithOpening,
>)
    ensures
        r is Err <==> params_ah.n2@ == 0,
        r matches Err(e) ==> e is InvalidInput,
        r matches Ok(w) ==> is_zero_randomness_wrap(params_ah.n2@, c_p@, w),
{
    if big_is_zero(&params_ah.n2) {
        return Err(CryptoError::InvalidInput("n^2 must be non-zero"));
    }
    Ok(CsCommitmentWithOpening {
        commitment: CsCommitment {
            c1: big_rem(&c_p.c0, &params_ah.n2),
            c2: Nat::one(),
            c3: big_rem(&c_p.c1, &params_ah.n2),
            c4: Nat::one(),
        },
        opening: CsCommitOpening {
            a1: 1,
            a2: 1,
            s1: Nat::zero(),
            s2: Nat::zero(),
            r1: Nat::zero(),
            r2: Nat::zero(),
            b1: 1,
            b2: 1,
        },
    })
}

/// The default commitment randomness length `B + lambda`.
pub open spec fn b_plus_lambda(n2: nat, lambda_bits: nat) -> int {
    bit_len(n2) - 2 + lambda_bits
}

/// The default CS-commitment randomness length `B + lambda`; fails when
/// `B` cannot be derived or the sum overflows.
pub(crate) fn default_cs_commit_randomness_bits(params_ah: &CsCommitParams) -> (r: CryptoResult<usize>)
    ensures
        r is Ok <==> bit_len(params_ah.n2@) >= 3 && bit_len(params_ah.n2@) <= usize::MAX && b_plus_lambda(
            params_ah.n2@,
            params_ah.lambda_bits as nat,
        ) <= usize::MAX,
        r matches Ok(v) ==> v == b_plus_lambda(params_ah.n2@, params_ah.lambda_bits as nat),
        r matches Err(e) ==> e is InvalidInput,
{
    let b = match derive_b_bits_from_n2(&params_ah.n2) {
        Ok(v) => v,
        Err(e) => return Err(e),
    };
    match b.checked_add(params_ah.lambda_bits) {
        Some(v) => Ok(v),
        None => Err(CryptoError::InvalidInput("B+lambda overflow")),
    }
}

/// The DF parameters `(n, n^2, g', h')` of the commitment parameters.
pub(crate) fn df_params_from_ah(params_ah: &CsCommitParams) -> (r: DfParams)
    ensures
        r.n@ == params_ah.n@,
        r.n2@ == params_ah.n2@,
        r.g@ == params_ah.g_prime@,
        r.h@ == params_ah.h_prime@,
{
    DfParams { n: params_ah.n.copy(), n2: params_ah.n2.copy(), g: params_ah.g_prime.copy(), h: params_ah.h_prime.copy() }
}

/// The first aux opening for `round`, if any.
pub(crate) open spec fn find_round(aux: Seq<PoKAuxOpeningEntry>, round: nat) -> Option<int>
    decreases aux.len(),
{
    if aux.len() == 0 {
        None
    } else {
        match find_round(aux.drop_last(), round) {
            Some(i) => Some(i),
            None => if aux.last().round == round {
                Some((aux.len() - 1) as int)
            } else {
                None
            },
        }
    }
}

/// The commitment and opening of `y^power` for `power == 1` or a power of
/// two `2^i`: `(Cy, r_y)` for one, else the first aux opening of round `i`.
///
/// Fails when `power` is not a power of two or no aux entry has round `i`.
fn lookup_cy_for_power(power: usize, cy: &Nat, r_y: &Nat, aux_openings: &[PoKAuxOpeningEntry]) -> (r: CryptoResult<
    (Nat, Nat),
>)
    ensures
        r is Ok <==> power == 1 || (is_pow2(power as nat) && find_round(aux_openings@, log2_floor(power as nat)) is Some),
        r matches Err(e) ==> e is InvalidInput,
        r matches Ok(out) ==> (power == 1 ==> out.0@ == cy@ && out.1@ == r_y@) && (power != 1 ==> {
            let i = find_round(aux_openings@, log2_floor(power as nat))->0;
            out.0@ == aux_openings@[i].cy_2i@ && out.1@ == aux_openings@[i].r_i@
        }),
{
    if power == 1 {
        return Ok((cy.copy(), r_y.copy()));
    }
    if !is_power_of_two_usize(power) {
        return Err(CryptoError::InvalidInput("power must be a power of two"));
    }
    let round = ilog2_usize(power);
    proof {
        crate::bignum::lemma_bit_len_range(power as nat);
        if round == 0 {
            vstd::arithmetic::power2::lemma2_to64();
        }
    }
    let mut i: usize = 0;
    while i < aux_openings.len()
        invariant
            i <= aux_openings@.len(),
            power != 1,
            is_pow2(power as nat),
            round == log2_floor(power as nat),
            find_round(aux_openings@.subrange(0, i as int), round as nat) is None,
        decreases aux_openings.len() - i,
    {
        proof {
            let next = aux_openings@.subrange(0, i + 1);
            assert(next.drop_last() =~= aux_openings@.subrange(0, i as int));
        }
        if aux_openings[i].round == round {
            proof {
                let next = aux_openings@.subrange(0, i + 1);
                assert(next.last() == aux_openings@[i as int]);
                assert(find_round(next, round as nat) == Some(i as int));
                lemma_find_round_prefix(aux_openings@, (i + 1) as nat, round as nat);
            }
            return Ok((aux_openings[i].cy_2i.copy(), aux_openings[i].r_i.copy()));
        }
        i = i + 1;
    }
    proof {
        assert(aux_openings@.subrange(0, aux_openings@.len() as int) =~= aux_openings@);
    }
    Err(CryptoError::InvalidInput("aux does not contain required y^(2^i) commitment"))
}

/// A round found among the openings is at a valid index.
pub(crate) proof fn lemma_find_round_index(aux: Seq<PoKAuxOpeningEntry>, round: nat)
    ensures
        find_round(aux, round) matches Some(i) ==> 0 <= i < aux.len(),
    decreases aux.len(),
{
    if aux.len() > 0 {
        lemma_find_round_index(aux.drop_last(), round);
    }
}

/// A match found in a prefix is the match of the whole sequence.
proof fn lemma_find_round_prefix(aux: Seq<PoKAuxOpeningEntry>, len: nat, round: nat)
    requires
        len <= aux.len(),
        find_round(aux.subrange(0, len as int), round) is Some,
    ensures
        find_round(aux, round) == find_round(aux.subrange(0, len as int), round),
    decreases aux.len() - len,
{
    if len < aux.len() {
        let next = aux.subrange(0, (len + 1) as int);
        assert(next.drop_last() =~= aux.subrange(0, len as int));
        lemma_find_round_prefix(aux, len + 1, round);
    } else {
        assert(aux.subrange(0, len as int) =~= aux);
    }
}

// ---------------------------------------------------------------------------
// Transcript fields.
// ---------------------------------------------------------------------------

/// A signed response as a transcript number: `2v + 1` for `v >= 0`,
/// `2|v|` for `v < 0`.
pub open spec fn zigzag(v: int) -> nat {
    if v >= 0 {
        (2 * v + 1) as nat
    } else {
        (2 * (-v)) as nat
    }
}

/// Encodes a signed response for the transcript.
pub(crate) fn bigint_to_transcript_uint(value: &Int) -> (r: Nat)
    ensures
        r@ == zigzag(value@),
{
    let mag = value.magnitude();
    let doubled = big_mul(&Nat::from_u64(2), &mag);
    if value.is_nonneg() {
        big_add(&doubled, &Nat::one())
    } else {
        doubled
    }
}

/// The four components of a commitment.
pub open spec fn commitment_fields(c: CsCommitment) -> Seq<nat> {
    seq![c.c1@, c.c2@, c.c3@, c.c4@]
}

/// The fields of an opening proof.
pub open spec fn com_proof_fields(p: CsComProof) -> Seq<nat> {
    seq![p.r2@, p.r4@, p.z_s1@, p.z_r1@, p.z_s2@, p.z_r2@]
}

/// The fields of an addition proof.
pub open spec fn add_proof_fields(p: CsAddProof) -> Seq<nat> {
    seq![p.e@, zigzag(p.z1@), zigzag(p.z2@), zigzag(p.z3@), zigzag(p.z4@)]
}

/// The fields of a multiplication proof.
pub open spec fn mult_proof_fields(p: CsMultProof) -> Seq<nat> {
    seq![p.r_y@, p.r1@, p.r2@, p.r3@, p.r4@, zigzag(p.z_y@), zigzag(p.z_ry@), zigzag(p.z1@), zigzag(p.z2@), zigzag(p.z3@), zigzag(p.z4@)]
}

/// The transcript fields of one round, in the order the rounds are hashed.
pub open spec fn round_fields(r: PoKStarRoundProof) -> Seq<nat> {
    commitment_fields(r.c1) + commitment_fields(r.c2) + commitment_fields(r.c3) + commitment_fields(r.c_alpha_e3)
        + commitment_fields(r.c_p_prime) + seq![r.alpha@, r.cy_half@, r.cy_alpha@, r.pi_cy_alpha.r_commitment@, r.pi_cy_alpha.z_r@]
        + com_proof_fields(r.pi_c1) + com_proof_fields(r.pi_c2) + com_proof_fields(r.pi_c3) + com_proof_fields(r.pi_c_alpha_e3)
        + com_proof_fields(r.pi_c_p_prime) + add_proof_fields(r.pi_e_eq_e1_plus_e2) + mult_proof_fields(r.pi_e2_eq_y_half_mul_e3)
        + mult_proof_fields(r.pi_alpha_mul_e3) + add_proof_fields(r.pi_eprime_eq_e1_plus_alphae3)
}

/// Appends a copy of one number.
pub(crate) fn push_nat(fields: &mut Vec<Nat>, x: &Nat)
    ensures
        nats(final(fields)@) == nats(old(fields)@).push(x@),
{
    fields.push(x.copy());
    assert(nats(final(fields)@) =~= nats(old(fields)@).push(x@));
}

/// Appends the components of a commitment.
pub(crate) fn append_commitment_fields(fields: &mut Vec<Nat>, c: &CsCommitment)
    ensures
        nats(final(fields)@) == nats(old(fields)@) + commitment_fields(*c),
{
    fields.push(c.c1.copy());
    fields.push(c.c2.copy());
    fields.push(c.c3.copy());
    fields.push(c.c4.copy());
    assert(nats(final(fields)@) =~= nats(old(fields)@) + commitment_fields(*c));
}

/// Appends the fields of an opening proof.
pub(crate) fn append_cs_com_proof_fields(fields: &mut Vec<Nat>, p: &CsComProof)
    ensures
        nats(final(fields)@) == nats(old(fields)@) + com_proof_fields(*p),
{
    fields.push(p.r2.copy());
    fields.push(p.r4.copy());
    fields.push(p.z_s1.copy());
    fields.push(p.z_r1.copy());
    fields.push(p.z_s2.copy());
    fields.push(p.z_r2.copy());
    assert(nats(final(fields)@) =~= nats(old(fields)@) + com_proof_fields(*p));
}

/// Appends the fields of an addition proof.
pub(crate) fn append_cs_add_proof_fields(fields: &mut Vec<Nat>, p: &CsAddProof)
    ensures
        nats(final(fields)@) == nats(old(fields)@) + add_proof_fields(*p),
{
    fields.push(p.e.copy());
    fields.push(bigint_to_transcript_uint(&p.z1));
    fields.push(bigint_to_transcript_uint(&p.z2));
    fields.push(bigint_to_transcript_uint(&p.z3));
    fields.push(bigint_to_transcript_uint(&p.z4));
    assert(nats(final(fields)@) =~= nats(old(fields)@) + add_proof_fields(*p));
}

/// Appends the fields of a multiplication proof.
pub(crate) fn append_cs_mult_proof_fields(fields: &mut Vec<Nat>, p: &CsMultProof)
    ensures
        nats(final(fields)@) == nats(old(fields)@) + mult_proof_fields(*p),
{
    fields.push(p.r_y.copy());
    fields.push(p.r1.copy());
    fields.push(p.r2.copy());
    fields.push(p.r3.copy());
    fields.push(p.r4.copy());
    fields.push(bigint_to_transcript_uint(&p.z_y));
    fields.push(bigint_to_transcript_uint(&p.z_ry));
    fields.push(bigint_to_transcript_uint(&p.z1));
    fields.push(bigint_to_transcript_uint(&p.z2));
    fields.push(bigint_to_transcript_uint(&p.z3));
    fields.push(bigint_to_transcript_uint(&p.z4));
    assert(nats(final(fields)@) =~= nats(old(fields)@) + mult_proof_fields(*p));
}

/// A copy of a vector of numbers.
pub(crate) fn copy_nats(v: &Vec<Nat>) -> (r: Vec<Nat>)
    ensures
        nats(r@) == nats(v@),
{
    let mut r: Vec<Nat> = Vec::new();
    let mut i: usize = 0;
    while i < v.len()
        invariant
            i <= v@.len(),
            nats(r@) == nats(v@.subrange(0, i as int)),
        decreases v.len() - i,
    {
        r.push(v[i].copy());
        proof {
            assert(nats(v@.subrange(0, i + 1)) =~= nats(v@.subrange(0, i as int)).push(v@[i as int]@));
        }
        i = i + 1;
    }
    assert(v@.subrange(0, v@.len() as int) =~= v@);
    r
}

/// A copy of a slice of numbers.
pub(crate) fn copy_nats_slice(v: &[Nat]) -> (r: Vec<Nat>)
    ensures
        nats(r@) == nats(v@),
        r@.len() == v@.len(),
{
    let mut r: Vec<Nat> = Vec::new();
    let mut i: usize = 0;
    while i < v.len()
        invariant
            i <= v@.len(),
            nats(r@) == nats(v@.subrange(0, i as int)),
        decreases v.len() - i,
    {
        r.push(v[i].copy());
        proof {
            assert(nats(v@.subrange(0, i + 1)) =~= nats(v@.subrange(0, i as int)).push(v@[i as int]@));
        }
        i = i + 1;
    }
    assert(v@.subrange(0, v@.len() as int) =~= v@);
    r
}

/// A copy of a vector of ciphertexts.
pub(crate) fn copy_cts(v: &[CsCiphertext]) -> (r: Vec<CsCiphertext>)
    ensures
        cts(r@) == cts(v@),
        r@.len() == v@.len(),
{
    let mut r: Vec<CsCiphertext> = Vec::new();
    let mut i: usize = 0;
    while i < v.len()
        invariant
            i <= v@.len(),
            cts(r@) == cts(v@.subrange(0, i as int)),
        decreases v.len() - i,
    {
        r.push(v[i].copy());
        proof {
            assert(cts(v@.subrange(0, i + 1)) =~= cts(v@.subrange(0, i as int)).push(v@[i as int]@));
        }
        i = i + 1;
    }
    assert(v@.subrange(0, v@.len() as int) =~= v@);
    r
}

/// The transcript `tau' = (pi, tau)`: the round's fields appended to the history.
pub open spec fn tau_appended(tau: PoKTranscript, round: PoKStarRoundProof, next: PoKTranscript) -> bool {
    &&& next.cy@ == tau.cy@
    &&& cts(next.c_values@) == cts(tau.c_values@)
    &&& next.c_p@ == tau.c_p@
    &&& nats(next.history@) == nats(tau.history@) + round_fields(round)
}

/// Appends a round to the transcript.
pub(crate) fn append_round_to_tau(tau: &PoKTranscript, round: &PoKStarRoundProof) -> (r: PoKTranscript)
    ensures
        tau_appended(*tau, *round, r),
{
    let mut history = copy_nats(&tau.history);
    append_commitment_fields(&mut history, &round.c1);
    append_commitment_fields(&mut history, &round.c2);
    append_commitment_fields(&mut history, &round.c3);
    append_commitment_fields(&mut history, &round.c_alpha_e3);
    append_commitment_fields(&mut history, &round.c_p_prime);
    push_nat(&mut history, &round.alpha);
    push_nat(&mut history, &round.cy_half);
    push_nat(&mut history, &round.cy_alpha);
    push_nat(&mut history, &round.pi_cy_alpha.r_commitment);
    push_nat(&mut history, &round.pi_cy_alpha.z_r);
    append_cs_com_proof_fields(&mut history, &round.pi_c1);
    append_cs_com_proof_fields(&mut history, &round.pi_c2);
    append_cs_com_proof_fields(&mut history, &round.pi_c3);
    append_cs_com_proof_fields(&mut history, &round.pi_c_alpha_e3);
    append_cs_com_proof_fields(&mut history, &round.pi_c_p_prime);
    append_cs_add_proof_fields(&mut history, &round.pi_e_eq_e1_plus_e2);
    append_cs_mult_proof_fields(&mut history, &round.pi_e2_eq_y_half_mul_e3);
    append_cs_mult_proof_fields(&mut history, &round.pi_alpha_mul_e3);
    append_cs_add_proof_fields(&mut history, &round.pi_eprime_eq_e1_plus_alphae3);
    proof {
        assert(nats(history@) =~= nats(tau.history@) + round_fields(*round));
    }
    PoKTranscript { cy: tau.cy.copy(), c_values: copy_cts(tau.c_values.as_slice()), c_p: tau.c_p.copy(), history }
}

/// A ciphertext list flattened component by component.
pub open spec fn ct_fields(v: Seq<(nat, nat)>) -> Seq<nat>
    decreases v.len(),
{
    if v.len() == 0 {
        Seq::empty()
    } else {
        ct_fields(v.drop_last()) + seq![v.last().0, v.last().1]
    }
}

/// The numbers of a transcript: `(Cy, c_values, cP, history)`.
pub open spec fn tau_view(t: PoKTranscript) -> (nat, Seq<(nat, nat)>, (nat, nat), Seq<nat>) {
    (t.cy@, cts(t.c_values@), t.c_p@, nats(t.history@))
}

/// A transcript with a round's fields appended to its history.
pub open spec fn tau_append_view(tv: (nat, Seq<(nat, nat)>, (nat, nat), Seq<nat>), round: PoKStarRoundProof) -> (nat, Seq<(nat, nat)>, (nat, nat), Seq<nat>) {
    (tv.0, tv.1, tv.2, tv.3 + round_fields(round))
}

/// The fields hashed for the folding challenge `alpha`:
/// `C1, C2, C3, Cy, c_0, ..., c_{n-1}, cP` and the history.
pub open spec fn alpha_fields_v(c1: CsCommitment, c2: CsCommitment, c3: CsCommitment, tv: (nat, Seq<(nat, nat)>, (nat, nat), Seq<nat>)) -> Seq<nat> {
    commitment_fields(c1) + commitment_fields(c2) + commitment_fields(c3) + seq![tv.0] + ct_fields(tv.1)
        + seq![tv.2.0, tv.2.1] + tv.3
}

/// The fields hashed for the folding challenge, from a transcript.
pub open spec fn alpha_fields(c1: CsCommitment, c2: CsCommitment, c3: CsCommitment, tau: PoKTranscript) -> Seq<nat> {
    alpha_fields_v(c1, c2, c3, tau_view(tau))
}

/// Each round's `alpha` is the challenge of its `C1, C2, C3` over the
/// transcript so far, the transcript growing by each round's fields.
pub open spec fn pok_star_alphas_bound(tv: (nat, Seq<(nat, nat)>, (nat, nat), Seq<nat>), p: PoKStarProof) -> bool
    decreases p,
{
    match p {
        PoKStarProof::Base { .. } => true,
        PoKStarProof::Recursive { round, next } => round.alpha@ == challenge_of(alpha_fields_v(round.c1, round.c2, round.c3, tv))
            && pok_star_alphas_bound(tau_append_view(tv, round), *next),
    }
}

/// The folding challenge `alpha = H(C1, C2, C3, tau)`.
pub open spec fn alpha_challenge(c1: CsCommitment, c2: CsCommitment, c3: CsCommitment, tau: PoKTranscript) -> nat {
    challenge_of(alpha_fields(c1, c2, c3, tau))
}

/// Computes the folding challenge `alpha = H(C1, C2, C3, tau)`.
pub(crate) fn fs_alpha_for_pok_star(c1: &CsCommitment, c2: &CsCommitment, c3: &CsCommitment, tau: &PoKTranscript) -> (r: Nat)
    ensures
        r@ == alpha_challenge(*c1, *c2, *c3, *tau),
{
    let mut fields: Vec<Nat> = Vec::new();
    append_commitment_fields(&mut fields, c1);
    append_commitment_fields(&mut fields, c2);
    append_commitment_fields(&mut fields, c3);
    push_nat(&mut fields, &tau.cy);
    let ghost before = nats(fields@);
    let mut i: usize = 0;
    while i < tau.c_values.len()
        invariant
            i <= tau.c_values@.len(),
            nats(fields@) == before + ct_fields(cts(tau.c_values@).subrange(0, i as int)),
        decreases tau.c_values.len() - i,
    {
        push_nat(&mut fields, &tau.c_values[i].c0);
        push_nat(&mut fields, &tau.c_values[i].c1);
        proof {
            let nxt = cts(tau.c_values@).subrange(0, i + 1);
            assert(nxt.drop_last() =~= cts(tau.c_values@).subrange(0, i as int));
            assert(nats(fields@) =~= before + ct_fields(nxt));
        }
        i = i + 1;
    }
    proof {
        assert(cts(tau.c_values@).subrange(0, tau.c_values@.len() as int) =~= cts(tau.c_values@));
    }
    push_nat(&mut fields, &tau.c_p.c0);
    push_nat(&mut fields, &tau.c_p.c1);
    let ghost before_hist = nats(fields@);
    let mut j: usize = 0;
    while j < tau.history.len()
        invariant
            j <= tau.history@.len(),
            nats(fields@) == before_hist + nats(tau.history@).subrange(0, j as int),
        decreases tau.history.len() - j,
    {
        push_nat(&mut fields, &tau.history[j]);
        proof {
            assert(nats(fields@) =~= before_hist + nats(tau.history@).subrange(0, j + 1));
        }
        j = j + 1;
    }
    proof {
        assert(nats(tau.history@).subrange(0, tau.history@.len() as int) =~= nats(tau.history@));
        assert(nats(fields@) =~= alpha_fields(*c1, *c2, *c3, *tau));
    }
    crate::hash::challenge_of_vec(&fields)
}

/// The sign `out * in^exp` of one component (`in^exp` is `+1` for an even
/// exponent and `in` otherwise).
pub open spec fn mult_sign(out: i8, inp: i8, exp: int) -> int {
    out * (if exp % 2 == 0 { 1 } else { inp as int })
}

/// `s` is `-1` or `+1`.
pub open spec fn unit_sign(s: int) -> bool {
    s == 1 || s == -1
}

/// The product of two signs as an `i16`, checked to be `-1` or `+1`.
fn sign_product(a: i8, b: i16) -> (r: CryptoResult<i8>)
    requires
        b == 1 || b == -1 || (-128 <= b <= 127),
    ensures
        r is Ok <==> unit_sign(a * b),
        r matches Ok(v) ==> v as int == a * b,
        r matches Err(e) ==> e is InvalidInput,
{
    assert(-16384 <= (a as int) * (b as int) <= 16384) by (nonlinear_arith)
        requires
            -128 <= a <= 127,
            -128 <= b <= 127,
    ;
    let s: i16 = (a as i16) * b;
    if s == -1 {
        Ok(-1)
    } else if s == 1 {
        Ok(1)
    } else {
        Err(CryptoError::InvalidInput("sign must be in {-1,+1}"))
    }
}

/// The sign vector `b = sign_out / sign_in^exp` of a multiplication proof,
/// for the components `(a1, b1, a2, b2)`.
///
/// Fails when a component is not `-1` or `+1`.
pub(crate) fn derive_mult_signs(output_opening: &CsCommitOpening, input_opening: &CsCommitOpening, exp: &Int) -> (r:
    CryptoResult<[i8; 4]>)
    ensures
        r is Ok <==> unit_sign(mult_sign(output_opening.a1, input_opening.a1, exp@)) && unit_sign(
            mult_sign(output_opening.b1, input_opening.b1, exp@),
        ) && unit_sign(mult_sign(output_opening.a2, input_opening.a2, exp@)) && unit_sign(
            mult_sign(output_opening.b2, input_opening.b2, exp@),
        ),
        r matches Ok(b) ==> b[0] as int == mult_sign(output_opening.a1, input_opening.a1, exp@) && b[1] as int
            == mult_sign(output_opening.b1, input_opening.b1, exp@) && b[2] as int == mult_sign(
            output_opening.a2,
            input_opening.a2,
            exp@,
        ) && b[3] as int == mult_sign(output_opening.b2, input_opening.b2, exp@),
        r matches Err(e) ==> e is InvalidInput,
{
    let even = exp.is_even();
    let in_a1: i16 = if even { 1 } else { input_opening.a1 as i16 };
    let in_b1: i16 = if even { 1 } else { input_opening.b1 as i16 };
    let in_a2: i16 = if even { 1 } else { input_opening.a2 as i16 };
    let in_b2: i16 = if even { 1 } else { input_opening.b2 as i16 };
    let s1 = match sign_product(output_opening.a1, in_a1) {
        Ok(v) => v,
        Err(e) => return Err(e),
    };
    let s2 = match sign_product(output_opening.b1, in_b1) {
        Ok(v) => v,
        Err(e) => return Err(e),
    };
    let s3 = match sign_product(output_opening.a2, in_a2) {
        Ok(v) => v,
        Err(e) => return Err(e),
    };
    let s4 = match sign_product(output_opening.b2, in_b2) {
        Ok(v) => v,
        Err(e) => return Err(e),
    };
    Ok([s1, s2, s3, s4])
}

/// `B + 2 lambda` for `n^2`.
pub open spec fn b_plus_2lambda(n2: nat, lambda_bits: nat) -> int {
    bit_len(n2) - 2 + 2 * lambda_bits
}

/// `2B + 2 lambda` for `n^2`.
pub open spec fn two_b_plus_2lambda(n2: nat, lambda_bits: nat) -> int {
    2 * (bit_len(n2) - 2) + 2 * lambda_bits
}

/// `B` derives and `B + 2 lambda` fits a `usize`.
pub open spec fn b2l_ok(n2: nat, lambda_bits: nat) -> bool {
    bit_len(n2) >= 3 && bit_len(n2) <= usize::MAX && 2 * lambda_bits <= usize::MAX && b_plus_2lambda(n2, lambda_bits) <= usize::MAX
}

/// `B + 2 lambda`, checked.
pub(crate) fn derive_b_plus_2lambda(n2: &Nat, lambda_bits: usize) -> (r: CryptoResult<usize>)
    ensures
        r is Ok <==> b2l_ok(n2@, lambda_bits as nat),
        r matches Ok(v) ==> v == b_plus_2lambda(n2@, lambda_bits as nat),
        r matches Err(e) ==> e is InvalidInput,
{
    let b = match derive_b_bits_from_n2(n2) {
        Ok(v) => v,
        Err(e) => return Err(e),
    };
    let two_lambda = match lambda_bits.checked_mul(2) {
        Some(v) => v,
        None => return Err(CryptoError::InvalidInput("2*lambda overflow")),
    };
    match b.checked_add(two_lambda) {
        Some(v) => Ok(v),
        None => Err(CryptoError::InvalidInput("B+2lambda overflow")),
    }
}

// ---------------------------------------------------------------------------
// DF opening to a public message.
// ---------------------------------------------------------------------------

/// Challenge of the DF opening proof: `H(n, g, h, C, m, R)`.
pub open spec fn df_open_challenge(p: DfParams, c: nat, m: nat, rc: nat) -> nat {
    challenge_of(seq![p.n@, p.g@, p.h@, c, m, rc])
}

/// The DF opening challenge, computed.
fn fs_challenge_for_df_open_public_scalar(params_df: &DfParams, commitment: &Nat, message: &Nat, r_commitment: &Nat) -> (e: Nat)
    ensures
        e@ == df_open_challenge(*params_df, commitment@, message@, r_commitment@),
{
    let vals: [&Nat; 6] = [&params_df.n, &params_df.g, &params_df.h, commitment, message, r_commitment];
    proof {
        assert(vals@.map_values(|x: &Nat| x@) =~= seq![params_df.n@, params_df.g@, params_df.h@, commitment@, message@, r_commitment@]);
    }
    fiat_shamir_challenge_biguints(&vals)
}

/// The DF opening check: with `h_r = C / g^m`, `h^z_r == R h_r^e (mod n^2)`.
pub open spec fn df_open_accepts(p: DfParams, c: nat, m: nat, proof: DfOpenProof) -> bool {
    let n2 = p.n2@;
    let h_r = (c * inv_mod(pow_mod(p.g@, m, n2), n2)) % n2;
    let e = df_open_challenge(p, c, m, proof.r_commitment@);
    pow_mod(p.h@, proof.z_r@, n2) == (proof.r_commitment@ * pow_mod(h_r, e, n2)) % n2
}

/// What the prover of a DF opening outputs: a blinder `k < 2^bits`,
/// `R = h^k`, and `z_r = k + e r`.
pub open spec fn df_open_prover_output(p: DfParams, c: nat, m: nat, r: nat, bits: nat, proof: DfOpenProof) -> bool {
    exists|k: nat|
        #![trigger pow_mod(p.h@, k, p.n2@)]
        k < pow2(bits) && proof.r_commitment@ == pow_mod(p.h@, k, p.n2@) && proof.z_r@ == k + df_open_challenge(
            p,
            c,
            m,
            proof.r_commitment@,
        ) * r
}

/// Proves that the DF commitment `commitment = g^message h^r` opens to the
/// public `message`, with a blinder below `2^(B + 2 lambda)`.
///
/// Fails when `n^2` is zero, `lambda_bits` is zero, the opening does not
/// match, or the blinding length cannot be derived.
pub fn prove_df_open_public_scalar(params_df: &DfParams, commitment: &Nat, message: &Nat, r: &Nat, lambda_bits: usize) -> (res:
    CryptoResult<DfOpenProof>)
    ensures
        res is Ok <==> params_df.n2@ > 0 && lambda_bits > 0 && df_commit_spec(params_df.g@, params_df.h@, params_df.n2@, message@, r@)
            == commitment@ && b2l_ok(params_df.n2@, lambda_bits as nat),
        res matches Err(e) ==> e is InvalidInput,
        res matches Ok(p) ==> df_open_prover_output(
            *params_df,
            commitment@,
            message@,
            r@,
            b_plus_2lambda(params_df.n2@, lambda_bits as nat) as nat,
            p,
        ),
{
    if big_is_zero(&params_df.n2) {
        return Err(CryptoError::InvalidInput("n^2 must be non-zero"));
    }
    if lambda_bits == 0 {
        return Err(CryptoError::InvalidInput("lambda_bits must be > 0"));
    }
    let expected = match commit_df_with_opening(params_df, message, r) {
        Ok(c) => c,
        Err(e) => return Err(e),
    };
    if !big_eq(&expected.c, commitment) {
        return Err(CryptoError::InvalidInput("DF opening witness does not match commitment"));
    }
    let blind_bits = match derive_b_plus_2lambda(&params_df.n2, lambda_bits) {
        Ok(v) => v,
        Err(e) => return Err(e),
    };
    let k_r = random_bits(blind_bits);
    let r_commitment = big_modpow(&params_df.h, &k_r, &params_df.n2);
    let e = fs_challenge_for_df_open_public_scalar(params_df, commitment, message, &r_commitment);
    let z_r = big_add(&k_r, &big_mul(&e, r));
    Ok(DfOpenProof { r_commitment, z_r })
}

/// Verifies that the DF commitment opens to the public `message`:
/// `h^z_r == R (C / g^m)^e (mod n^2)`.
///
/// Fails when `n^2` is zero or `g^m` is not invertible modulo `n^2`.
pub fn verify_df_open_public_scalar(params_df: &DfParams, commitment: &Nat, message: &Nat, proof: &DfOpenProof) -> (r:
    CryptoResult<bool>)
    ensures
        r is Err <==> params_df.n2@ == 0 || spec_gcd(params_df.n2@, pow_mod(params_df.g@, message@, params_df.n2@)) != 1,
        r is Err ==> r == Err::<bool, CryptoError>(verifier_error(params_df.n2@)),
        r matches Ok(b) ==> b == df_open_accepts(*params_df, commitment@, message@, *proof),
        r == Ok::<bool, CryptoError>(true) ==> ({
            let n2 = (*params_df).n2@;
            let e = df_open_challenge((*params_df), commitment@, message@, (*proof).r_commitment@);
            pow_mod((*params_df).h@, (*proof).z_r@, n2) == ((*proof).r_commitment@ * pow_mod((commitment@ * inv_mod(pow_mod((*params_df).g@, message@, n2), n2)) % n2, e, n2)) % n2
        }),
{
    let n2 = &params_df.n2;
    if big_is_zero(n2) {
        return Err(CryptoError::InvalidInput("n^2 must be non-zero"));
    }
    let g_m = big_modpow(&params_df.g, message, n2);
    let g_m_inv = match modinv(&g_m, n2) {
        Ok(v) => v,
        Err(e) => return Err(e),
    };
    let h_r = big_rem(&big_mul(commitment, &g_m_inv), n2);
    let e = fs_challenge_for_df_open_public_scalar(params_df, commitment, message, &proof.r_commitment);
    let lhs = big_modpow(&params_df.h, &proof.z_r, n2);
    let rhs = big_rem(&big_mul(&proof.r_commitment, &big_modpow(&h_r, &e, n2)), n2);
    Ok(big_eq(&lhs, &rhs))
}

/// Multiplying by `a` and then by an inverse of `a` modulo `m` gives back `b mod m`.
pub proof fn lemma_cancel_inverse(a: nat, b: nat, i: nat, m: nat)
    requires
        m > 0,
        (a * i) % m == 1nat % m,
    ensures
        (((a * b) % m) * i) % m == b % m,
{
    let mi = m as int;
    vstd::arithmetic::div_mod::lemma_mul_mod_noop_left((a * b) as int, i as int, mi);
    assert((a * b) * i == (a * i) * b) by (nonlinear_arith);
    vstd::arithmetic::div_mod::lemma_mul_mod_noop_left((a * i) as int, b as int, mi);
    if m == 1 {
        assert(b % m == 0);
    } else {
        vstd::arithmetic::div_mod::lemma_small_mod(1, m);
        assert((1nat * b) == b);
    }
}

/// Completeness of the DF opening proof: an honest proof of a correct
/// opening is accepted whenever `g^m` is invertible modulo `n^2`.
pub proof fn lemma_df_open_complete(p: DfParams, c: nat, m: nat, r: nat, bits: nat, proof: DfOpenProof)
    requires
        p.n2@ > 0,
        spec_gcd(p.n2@, pow_mod(p.g@, m, p.n2@)) == 1,
        c == df_commit_spec(p.g@, p.h@, p.n2@, m, r),
        df_open_prover_output(p, c, m, r, bits, proof),
    ensures
        df_open_accepts(p, c, m, proof),
{
    let n2 = p.n2@;
    let gm = pow_mod(p.g@, m, n2);
    let hr = pow_mod(p.h@, r, n2);
    let k = choose|k: nat|
        #![trigger pow_mod(p.h@, k, p.n2@)]
        k < pow2(bits) && proof.r_commitment@ == pow_mod(p.h@, k, p.n2@) && proof.z_r@ == k + df_open_challenge(
            p,
            c,
            m,
            proof.r_commitment@,
        ) * r;
    let e = df_open_challenge(p, c, m, proof.r_commitment@);
    let inv = inv_mod(gm, n2);
    assert(crate::math::is_inverse_mod(gm, inv, n2)) by {
        crate::math::lemma_inv_mod_exists(gm, n2);
    }
    lemma_cancel_inverse(gm, hr, inv, n2);
    crate::powmod::lemma_pow_mod_bound(p.h@, r, n2);
    vstd::arithmetic::div_mod::lemma_small_mod(hr, n2);
    crate::powmod::lemma_pow_mod_mul(p.h@, r, e, n2);
    crate::powmod::lemma_pow_mod_add(p.h@, k, r * e, n2);
    assert(proof.z_r@ == k + r * e) by (nonlinear_arith)
        requires
            proof.z_r@ == k + e * r,
    ;
}

// ---------------------------------------------------------------------------
// Squaring proof over DF commitments.
// ---------------------------------------------------------------------------

/// Challenge of the squaring proof: `H(n, g', h', C_in, C_out, R1, R2)`.
pub open spec fn square_challenge(p: DfParams, c_in: nat, c_out: nat, r1: nat, r2: nat) -> nat {
    challenge_of(seq![p.n@, p.g@, p.h@, c_in, c_out, r1, r2])
}

/// The squaring challenge, computed.
fn fs_challenge_for_square_df(params_df: &DfParams, c_in: &Nat, c_out: &Nat, r1: &Nat, r2: &Nat) -> (e: Nat)
    ensures
        e@ == square_challenge(*params_df, c_in@, c_out@, r1@, r2@),
{
    let vals: [&Nat; 7] = [&params_df.n, &params_df.g, &params_df.h, c_in, c_out, r1, r2];
    proof {
        assert(vals@.map_values(|x: &Nat| x@) =~= seq![params_df.n@, params_df.g@, params_df.h@, c_in@, c_out@, r1@, r2@]);
    }
    fiat_shamir_challenge_biguints(&vals)
}

/// The bit lengths of the squaring proof's blinders can be derived:
/// `B + 2 lambda` and `2B + 2 lambda` fit a `usize`.
pub open spec fn square_bits_ok(n2: nat, lambda_bits: nat) -> bool {
    &&& b2l_ok(n2, lambda_bits)
    &&& 2 * (bit_len(n2) - 2) <= usize::MAX
    &&& two_b_plus_2lambda(n2, lambda_bits) <= usize::MAX
}

/// What the prover of a squaring outputs: blinders `k_z, k_rin` below
/// `2^(B + 2 lambda)` and `k_gamma` below `2^(2B + 2 lambda)`,
/// `R1 = g^k_z h^k_rin`, `R2 = C_in^k_z h^k_gamma`, and responses
/// `z_z = k_z + e z`, `z_rin = k_rin + e r_in`, `z_gamma = k_gamma + e gamma`
/// with `gamma = r_out - z r_in`.
pub open spec fn prove_mult_output(p: DfParams, c_in: nat, c_out: nat, r_in: nat, r_out: nat, z: nat, lambda_bits: nat, proof: ProveMultProof) -> bool {
    let n2 = p.n2@;
    exists|kz: nat, krin: nat, kg: nat|
        #![trigger df_commit_spec(p.g@, p.h@, n2, kz, krin), df_commit_spec(c_in, p.h@, n2, kz, kg)]
        kz < pow2(b_plus_2lambda(n2, lambda_bits) as nat) && krin < pow2(b_plus_2lambda(n2, lambda_bits) as nat) && kg
            < pow2(two_b_plus_2lambda(n2, lambda_bits) as nat) && proof.r1@ == df_commit_spec(p.g@, p.h@, n2, kz, krin)
            && proof.r2@ == df_commit_spec(c_in, p.h@, n2, kz, kg) && {
            let e = square_challenge(p, c_in, c_out, proof.r1@, proof.r2@);
            &&& proof.z_z@ == kz + e * z
            &&& proof.z_rin@ == krin + e * r_in
            &&& proof.z_gamma@ == kg + e * (r_out - z * r_in)
        }
}

/// The squaring witness holds: `C_in = g^z h^r_in` and `C_out = g^(z^2) h^r_out`.
pub open spec fn square_witness_holds(p: DfParams, c_in: nat, c_out: nat, r_in: nat, r_out: nat, z: nat) -> bool {
    &&& c_in == df_commit_spec(p.g@, p.h@, p.n2@, z, r_in)
    &&& c_out == df_commit_spec(p.g@, p.h@, p.n2@, z * z, r_out)
}

/// Proves that `Cy_prev = Com(z; r_prev)` and `Cy_next = Com(z^2; r_next)`;
/// `lambda` defaults to the bit length of `n`.
///
/// Fails as `prove_mult_with_lambda` does, or when the bit length of `n`
/// does not fit a `usize`.
pub fn prove_mult(params_df: &DfParams, cy_prev: &Nat, r_prev: &Nat, cy_next: &Nat, r_next: &Nat, z: &Nat) -> (r:
    CryptoResult<ProveMultProof>)
    ensures
        r is Ok <==> bit_len(params_df.n@) <= usize::MAX && params_df.n2@ > 0 && bit_len(params_df.n@) > 0
            && square_witness_holds(*params_df, cy_prev@, cy_next@, r_prev@, r_next@, z@) && square_bits_ok(
            params_df.n2@,
            bit_len(params_df.n@),
        ),
        r matches Err(e) ==> e is InvalidInput,
        r matches Ok(p) ==> prove_mult_output(*params_df, cy_prev@, cy_next@, r_prev@, r_next@, z@, bit_len(params_df.n@), p),
        r matches Ok(p) ==> (params_df.n2@ > 1 && spec_gcd(params_df.n2@, params_df.h@) == 1 ==> square_accepts(
            *params_df,
            cy_prev@,
            cy_next@,
            p,
        )),
{
    let n_bits = big_bits(&params_df.n);
    if n_bits > usize::MAX as u64 {
        return Err(CryptoError::InvalidInput("n bit length too large"));
    }
    prove_mult_with_lambda(params_df, cy_prev, r_prev, cy_next, r_next, z, n_bits as usize)
}

/// The squaring proof with an explicit security parameter `lambda`.
///
/// Fails when `n^2` or `lambda_bits` is zero, when the witness does not
/// open `C_in` or `C_out`, or when a blinder length cannot be derived.
pub(crate) fn prove_mult_with_lambda(params_df: &DfParams, cy_prev: &Nat, r_prev: &Nat, cy_next: &Nat, r_next: &Nat, z: &Nat, lambda_bits: usize) -> (r:
    CryptoResult<ProveMultProof>)
    ensures
        r is Ok <==> params_df.n2@ > 0 && lambda_bits > 0 && square_witness_holds(*params_df, cy_prev@, cy_next@, r_prev@, r_next@, z@)
            && square_bits_ok(params_df.n2@, lambda_bits as nat),
        r matches Err(e) ==> e is InvalidInput,
        r matches Ok(p) ==> prove_mult_output(*params_df, cy_prev@, cy_next@, r_prev@, r_next@, z@, lambda_bits as nat, p),
        r matches Ok(p) ==> (params_df.n2@ > 1 && spec_gcd(params_df.n2@, params_df.h@) == 1 ==> square_accepts(
            *params_df,
            cy_prev@,
            cy_next@,
            p,
        )),
{
    if big_is_zero(&params_df.n2) {
        return Err(CryptoError::InvalidInput("n^2 must be non-zero"));
    }
    if lambda_bits == 0 {
        return Err(CryptoError::InvalidInput("lambda_bits must be > 0"));
    }
    let expected_in = match commit_df_with_opening(params_df, z, r_prev) {
        Ok(c) => c,
        Err(e) => return Err(e),
    };
    if !big_eq(&expected_in.c, cy_prev) {
        return Err(CryptoError::InvalidInput("witness does not satisfy C_in commitment equation"));
    }
    let z_sq = big_mul(z, z);
    let expected_out = match commit_df_with_opening(params_df, &z_sq, r_next) {
        Ok(c) => c,
        Err(e) => return Err(e),
    };
    if !big_eq(&expected_out.c, cy_next) {
        return Err(CryptoError::InvalidInput("witness does not satisfy C_out commitment equation"));
    }
    let r_in_bi = Int::from_nat(r_prev);
    let z_bi = Int::from_nat(z);
    let gamma = Int::from_nat(r_next).sub(&z_bi.mul(&r_in_bi));
    let b_bits = match derive_b_bits_from_n2(&params_df.n2) {
        Ok(v) => v,
        Err(e) => return Err(e),
    };
    let two_lambda = match lambda_bits.checked_mul(2) {
        Some(v) => v,
        None => return Err(CryptoError::InvalidInput("2*lambda overflow")),
    };
    let k_z_bits = match b_bits.checked_add(two_lambda) {
        Some(v) => v,
        None => return Err(CryptoError::InvalidInput("B+2lambda overflow")),
    };
    let two_b = match b_bits.checked_mul(2) {
        Some(v) => v,
        None => return Err(CryptoError::InvalidInput("2B+2lambda overflow")),
    };
    let k_gamma_bits = match two_b.checked_add(two_lambda) {
        Some(v) => v,
        None => return Err(CryptoError::InvalidInput("2B+2lambda overflow")),
    };
    let k_z = random_bits(k_z_bits);
    let k_rin = random_bits(k_z_bits);
    let k_gamma = random_bits(k_gamma_bits);
    let r1 = match commit_df_with_opening(params_df, &k_z, &k_rin) {
        Ok(c) => c.c,
        Err(e) => return Err(e),
    };
    let cin_params = DfParams { n: params_df.n.copy(), n2: params_df.n2.copy(), g: cy_prev.copy(), h: params_df.h.copy() };
    let r2 = match commit_df_with_opening(&cin_params, &k_z, &k_gamma) {
        Ok(c) => c.c,
        Err(e) => return Err(e),
    };
    let e = fs_challenge_for_square_df(params_df, cy_prev, cy_next, &r1, &r2);
    let e_bi = Int::from_nat(&e);
    let z_z = Int::from_nat(&k_z).add(&e_bi.mul(&z_bi));
    let z_rin = Int::from_nat(&k_rin).add(&e_bi.mul(&r_in_bi));
    let z_gamma = Int::from_nat(&k_gamma).add(&e_bi.mul(&gamma));
    let proof = ProveMultProof { r1, r2, z_z, z_rin, z_gamma };
    proof {
        let n2 = params_df.n2@;
        assert(proof.r1@ == df_commit_spec(params_df.g@, params_df.h@, n2, k_z@, k_rin@));
        assert(proof.r2@ == df_commit_spec(cy_prev@, params_df.h@, n2, k_z@, k_gamma@));
        assert(prove_mult_output(*params_df, cy_prev@, cy_next@, r_prev@, r_next@, z@, lambda_bits as nat, proof));
        if n2 > 1 && spec_gcd(n2, params_df.h@) == 1 {
            lemma_square_complete(*params_df, cy_prev@, cy_next@, r_prev@, r_next@, z@, lambda_bits as nat, proof);
        }
    }
    Ok(proof)
}

/// The squaring checks: `g^z_z h^z_rin == R1 C_in^e` and
/// `C_in^z_z h^z_gamma == R2 C_out^e (mod n^2)`.
pub open spec fn square_accepts(p: DfParams, c_in: nat, c_out: nat, proof: ProveMultProof) -> bool {
    let n2 = p.n2@;
    let e = square_challenge(p, c_in, c_out, proof.r1@, proof.r2@);
    &&& crate::cs_commit::sp2(p.g@, proof.z_z@, p.h@, proof.z_rin@, n2) == (proof.r1@ * pow_mod(c_in, e, n2)) % n2
    &&& crate::cs_commit::sp2(c_in, proof.z_z@, p.h@, proof.z_gamma@, n2) == (proof.r2@ * pow_mod(c_out, e, n2)) % n2
}

/// `(g^a1 h^b1) (g^a2 h^b2) == g^(a1+a2) h^(b1+b2) (mod m)` for a unit `h`
/// and integer exponents of `h`.
proof fn lemma_gh_mul(g: nat, h: nat, a1: nat, b1: int, a2: nat, b2: int, m: nat)
    requires
        m > 1,
        spec_gcd(m, h) == 1,
    ensures
        (((pow_mod(g, a1, m) * signed_pow(h, b1, m)) % m) * ((pow_mod(g, a2, m) * signed_pow(h, b2, m)) % m)) % m == (pow_mod(
            g,
            a1 + a2,
            m,
        ) * signed_pow(h, b1 + b2, m)) % m,
{
    crate::cs_commit::lemma_mul4_mod(pow_mod(g, a1, m), signed_pow(h, b1, m), pow_mod(g, a2, m), signed_pow(h, b2, m), m);
    crate::powmod::lemma_pow_mod_add(g, a1, a2, m);
    crate::cs_commit::lemma_signed_pow_add(h, b1, b2, m);
}

/// Completeness of the squaring proof: when `C_in = g^z h^r_in`,
/// `C_out = g^(z^2) h^r_out` and `h` is a unit, the proof that the prover
/// outputs is accepted.
pub proof fn lemma_square_complete(p: DfParams, c_in: nat, c_out: nat, r_in: nat, r_out: nat, z: nat, lambda_bits: nat, proof: ProveMultProof)
    requires
        p.n2@ > 1,
        spec_gcd(p.n2@, p.h@) == 1,
        square_witness_holds(p, c_in, c_out, r_in, r_out, z),
        prove_mult_output(p, c_in, c_out, r_in, r_out, z, lambda_bits, proof),
    ensures
        square_accepts(p, c_in, c_out, proof),
{
    let n2 = p.n2@;
    let g = p.g@;
    let h = p.h@;
    let (kz, krin, kg) = choose|kz: nat, krin: nat, kg: nat|
        #![trigger df_commit_spec(p.g@, p.h@, n2, kz, krin), df_commit_spec(c_in, p.h@, n2, kz, kg)]
        kz < pow2(b_plus_2lambda(n2, lambda_bits) as nat) && krin < pow2(b_plus_2lambda(n2, lambda_bits) as nat) && kg
            < pow2(two_b_plus_2lambda(n2, lambda_bits) as nat) && proof.r1@ == df_commit_spec(p.g@, p.h@, n2, kz, krin)
            && proof.r2@ == df_commit_spec(c_in, p.h@, n2, kz, kg) && {
            let e = square_challenge(p, c_in, c_out, proof.r1@, proof.r2@);
            &&& proof.z_z@ == kz + e * z
            &&& proof.z_rin@ == krin + e * r_in
            &&& proof.z_gamma@ == kg + e * (r_out - z * r_in)
        };
    let e = square_challenge(p, c_in, c_out, proof.r1@, proof.r2@);
    let zz = kz + e * z;
    let zrin = krin + e * r_in;
    assert(proof.z_z@ == zz && proof.z_rin@ == zrin);
    // First check: `g^zz h^zrin == R1 C_in^e`.
    assert(crate::cs_commit::sp2(g, proof.z_z@, h, proof.z_rin@, n2) == (proof.r1@ * pow_mod(c_in, e, n2)) % n2) by {
        crate::powmod::lemma_pair_pow_pow(g, h, z, r_in, e, n2);
        crate::powmod::lemma_pair_pow_mul(g, h, kz, krin, z * e, r_in * e, n2);
        assert(kz + z * e == zz && krin + r_in * e == zrin) by (nonlinear_arith)
            requires
                zz == kz + e * z,
                zrin == krin + e * r_in,
        ;
    }
    // Second check: `C_in^zz h^zgamma == R2 C_out^e`.
    let x = pow_mod(c_in, kz, n2);
    let y = pow_mod(c_in, e * z, n2);
    let zg = proof.z_gamma@;
    let hz = signed_pow(h, zg, n2);
    let hk = pow_mod(h, kg, n2);
    let co = pow_mod(c_out, e, n2);
    let w = (pow_mod(g, z * z * e, n2) * signed_pow(h, (kg + r_out * e) as int, n2)) % n2;
    vstd::arithmetic::power::lemma_pow0(g as int);
    vstd::arithmetic::div_mod::lemma_small_mod(1, n2);
    assert(pow_mod(g, 0, n2) == 1);
    assert((y * hz) % n2 == w) by {
        crate::powmod::lemma_pair_pow_pow(g, h, z, r_in, e * z, n2);
        assert(hz == (pow_mod(g, 0, n2) * hz) % n2) by {
            crate::cs_commit::lemma_signed_pow_unit(h, zg, n2);
            vstd::arithmetic::div_mod::lemma_small_mod(hz, n2);
        }
        crate::cs_commit::lemma_signed_pow_unit(h, zg, n2);
        vstd::arithmetic::div_mod::lemma_small_mod(hz, n2);
        assert(1 * hz == hz);
        lemma_gh_mul(g, h, z * (e * z), (r_in * (e * z)) as int, 0, zg, n2);
        assert(z * (e * z) + 0 == z * z * e && (r_in * (e * z)) as int + zg == (kg + r_out * e) as int) by (nonlinear_arith)
            requires
                zg == kg + e * (r_out - z * r_in),
        ;
    }
    assert((hk * co) % n2 == w) by {
        crate::powmod::lemma_pair_pow_pow(g, h, z * z, r_out, e, n2);
        crate::powmod::lemma_pow_mod_bound(h, kg, n2);
        vstd::arithmetic::div_mod::lemma_small_mod(hk, n2);
        assert(1 * hk == hk);
        lemma_gh_mul(g, h, 0, kg as int, (z * z) * e, (r_out * e) as int, n2);
        assert(0 + (z * z) * e == z * z * e);
    }
    assert(crate::cs_commit::sp2(c_in, proof.z_z@, h, zg, n2) == (proof.r2@ * co) % n2) by {
        crate::powmod::lemma_pow_mod_add(c_in, kz, e * z, n2);
        assert(kz + e * z == zz);
        crate::cs_commit::lemma_mul_mod_assoc(x, y, hz, n2);
        crate::cs_commit::lemma_mul_mod_assoc(x, hk, co, n2);
    }
}

/// The signed powers of the squaring checks are defined.
pub open spec fn square_powers_ok(p: DfParams, c_in: nat, proof: ProveMultProof) -> bool {
    let n2 = p.n2@;
    &&& signed_pow_ok(p.g@, proof.z_z@, n2) && signed_pow_ok(p.h@, proof.z_rin@, n2)
    &&& signed_pow_ok(c_in, proof.z_z@, n2) && signed_pow_ok(p.h@, proof.z_gamma@, n2)
}

/// `x^a y^b mod m` for integer exponents, computed.
fn sp2_pok(x: &Nat, a: &Int, y: &Nat, b: &Int, m: &Nat) -> (r: CryptoResult<Nat>)
    requires
        m@ > 0,
    ensures
        r is Ok <==> signed_pow_ok(x@, a@, m@) && signed_pow_ok(y@, b@, m@),
        r matches Ok(v) ==> v@ == crate::cs_commit::sp2(x@, a@, y@, b@, m@),
        r matches Err(e) ==> e == CryptoError::ModularInverseUnavailable,
{
    let xa = match modpow_signed(x, a, m) {
        Ok(v) => v,
        Err(e) => return Err(e),
    };
    let yb = match modpow_signed(y, b, m) {
        Ok(v) => v,
        Err(e) => return Err(e),
    };
    Ok(big_rem(&big_mul(&xa, &yb), m))
}

/// Verifies a squaring proof: `g^z_z h^z_rin == R1 C_in^e` and
/// `C_in^z_z h^z_gamma == R2 C_out^e (mod n^2)`.
///
/// Fails when `n^2` is zero or a signed power is undefined.
pub fn verify_mult(params_df: &DfParams, cy_prev: &Nat, cy_next: &Nat, proof: &ProveMultProof) -> (r: CryptoResult<bool>)
    ensures
        r is Err <==> params_df.n2@ == 0 || !square_powers_ok(*params_df, cy_prev@, *proof),
        r is Err ==> r == Err::<bool, CryptoError>(verifier_error(params_df.n2@)),
        r matches Ok(b) ==> b == square_accepts(*params_df, cy_prev@, cy_next@, *proof),
        r == Ok::<bool, CryptoError>(true) ==> ({
            let n2 = (*params_df).n2@;
            let e = square_challenge((*params_df), cy_prev@, cy_next@, (*proof).r1@, (*proof).r2@);
            &&& (signed_pow((*params_df).g@, (*proof).z_z@, n2) * signed_pow((*params_df).h@, (*proof).z_rin@, n2)) % n2 == ((*proof).r1@ * pow_mod(cy_prev@, e, n2)) % n2
            &&& (signed_pow(cy_prev@, (*proof).z_z@, n2) * signed_pow((*params_df).h@, (*proof).z_gamma@, n2)) % n2 == ((*proof).r2@ * pow_mod(cy_next@, e, n2)) % n2
        }),
{
    let n2 = &params_df.n2;
    if big_is_zero(n2) {
        return Err(CryptoError::InvalidInput("n^2 must be non-zero"));
    }
    let e = fs_challenge_for_square_df(params_df, cy_prev, cy_next, &proof.r1, &proof.r2);
    let lhs_1 = match sp2_pok(&params_df.g, &proof.z_z, &params_df.h, &proof.z_rin, n2) {
        Ok(v) => v,
        Err(err) => return Err(err),
    };
    let lhs_2 = match sp2_pok(cy_prev, &proof.z_z, &params_df.h, &proof.z_gamma, n2) {
        Ok(v) => v,
        Err(err) => return Err(err),
    };
    let rhs_1 = big_rem(&big_mul(&proof.r1, &big_modpow(cy_prev, &e, n2)), n2);
    let rhs_2 = big_rem(&big_mul(&proof.r2, &big_modpow(cy_next, &e, n2)), n2);
    Ok(big_eq(&lhs_1, &rhs_1) && big_eq(&lhs_2, &rhs_2))
}

// ---------------------------------------------------------------------------
// Algorithm 2: PoK*_P.
// ---------------------------------------------------------------------------

/// `bit_len(2h) == bit_len(h) + 1` and doubling keeps powers of two.
pub(crate) proof fn lemma_double_log(h: nat)
    requires
        h >= 1,
    ensures
        bit_len(2 * h) == bit_len(h) + 1,
        log2_floor(2 * h) == log2_floor(h) + 1,
        is_pow2(2 * h) <==> is_pow2(h),
{
    assert((2 * h) / 2 == h);
    crate::bignum::lemma_bit_len_range(h);
    vstd::arithmetic::power2::lemma_pow2_unfold(bit_len(h));
}

/// The first `k` powers.
fn powers_prefix(powers: &[Nat], k: usize) -> (r: &[Nat])
    requires
        k <= powers@.len(),
    ensures
        r@ == powers@.subrange(0, k as int),
{
    let (pre, _) = powers.split_at(k);
    pre
}

/// The DF parameters `(n, n^2, g', h')` of the folding challenges, as
/// numbers.
pub(crate) open spec fn alpha_params_of(pa: CsCommitParams) -> DfParams {
    DfParams { n: pa.n, n2: pa.n2, g: pa.g_prime, h: pa.h_prime }
}

/// Completeness does not depend on which value carries the DF parameters
/// of the folding challenges, only on their numbers.
proof fn lemma_shell_complete_params(
    pa: CsCommitParams,
    pdf: DfParams,
    cy: nat,
    cv: Seq<(nat, nat)>,
    c_p: (nat, nat),
    cp: CsCommitment,
    aux: Seq<PoKAuxEntry>,
    openings: Seq<PoKAuxOpeningEntry>,
    star: PoKStarProof,
    tv: (nat, Seq<(nat, nat)>, (nat, nat), Seq<nat>),
)
    requires
        pdf.n@ == pa.n@,
        pdf.n2@ == pa.n2@,
        pdf.g@ == pa.g_prime@,
        pdf.h@ == pa.h_prime@,
        shell_complete(pa, pdf, cy, cv, c_p, cp, aux, openings, star, tv),
    ensures
        shell_complete(pa, alpha_params_of(pa), cy, cv, c_p, cp, aux, openings, star, tv),
{
    reveal(shell_complete);
}

/// The base of PoK*_P: the honest opening proof of `CP` to the single
/// coefficient is accepted.
proof fn lemma_shell_base_complete(
    pa: CsCommitParams,
    pdf: DfParams,
    cy: nat,
    cv: Seq<(nat, nat)>,
    c_p: (nat, nat),
    cp: CsCommitment,
    aux: Seq<PoKAuxEntry>,
    openings: Seq<PoKAuxOpeningEntry>,
    pi: CsComCtProof,
    tv: (nat, Seq<(nat, nat)>, (nat, nat), Seq<nat>),
)
    requires
        cv.len() == 1,
        is_pow2(1),
        pa.n2@ > 1 && spec_gcd(pa.n2@, c_p.0 % pa.n2@) == 1 && spec_gcd(pa.n2@, c_p.1 % pa.n2@) == 1
            ==> crate::cs_commit::cs_com_ct_accepts(pa, cp, c_p.0 % pa.n2@, c_p.1 % pa.n2@, pi),
    ensures
        shell_complete(pa, pdf, cy, cv, c_p, cp, aux, openings, PoKStarProof::Base { pi_open_cp: pi }, tv),
{
    reveal(shell_complete);
    if shell_complete_conds(pa, pdf, cv, c_p, aux, openings) {
        let n2v = pa.n2@;
        let c0 = cv[0];
        assert(ct_units(c0, n2v));
        crate::powmod::lemma_coprime_mod(c0.0, n2v);
        crate::powmod::lemma_coprime_mod(c0.1, n2v);
        vstd::arithmetic::div_mod::lemma_mod_bound(c0.0 as int, n2v as int);
        vstd::arithmetic::div_mod::lemma_mod_bound(c0.1 as int, n2v as int);
        crate::powmod::lemma_gcd_swap_reduced(c0.0 % n2v, n2v);
        crate::powmod::lemma_gcd_swap_reduced(c0.1 % n2v, n2v);
    }
}

/// The commitment to the evaluation of the upper half of a level consists
/// of units.
proof fn lemma_level_c3_units(pa: CsCommitParams, cv: Seq<(nat, nat)>, upper: Seq<(nat, nat)>, pre: Seq<nat>, e3: (nat, nat), o3: CsCommitOpening, c3: CsCommitment)
    requires
        pa.n2@ > 1,
        crate::cs_commit::commit_bases_units(pa),
        cts_units(cv, pa.n2@),
        cv.len() >= 2,
        upper == cv.subrange((cv.len() / 2) as int, cv.len() as int),
        e3 == folded_eval(upper, pre, pa.n2@),
        crate::cs_commit::is_commitment_of(pa, e3, o3, c3),
    ensures
        crate::cs_commit::commitment_units(c3, pa.n2@),
{
    let n2 = pa.n2@;
    let half = cv.len() / 2;
    assert forall|i: int| 0 <= i < upper.len() implies #[trigger] ct_units(upper[i], n2) by {
        assert(upper[i] == cv[i + half]);
    }
    lemma_folded_eval_units(upper, pre, n2);
    crate::cs_commit::lemma_commitment_units(pa, e3, o3, c3);
}

/// The folded coefficients of a level meet the completeness conditions of
/// the next level.
proof fn lemma_level_next_conds(
    pa: CsCommitParams,
    pdf: DfParams,
    cv: Seq<(nat, nat)>,
    c_p: (nat, nat),
    alpha: nat,
    m2: nat,
    lower: Seq<(nat, nat)>,
    upper: Seq<(nat, nat)>,
    folded: Seq<(nat, nat)>,
    pre: Seq<nat>,
    e_prime: (nat, nat),
    aux: Seq<PoKAuxEntry>,
    openings: Seq<PoKAuxOpeningEntry>,
)
    requires
        shell_complete_conds(pa, pdf, cv, c_p, aux, openings),
        cv.len() >= 2,
        cv.len() % 2 == 0,
        m2 == pa.n2@,
        lower == cv.subrange(0, (cv.len() / 2) as int),
        upper == cv.subrange((cv.len() / 2) as int, cv.len() as int),
        folded == Seq::new(lower.len(), |i: int| ct_add(lower[i], ct_scale(upper[i], alpha, m2), m2)),
        e_prime == folded_eval(folded, pre, pa.n2@),
    ensures
        folded == fold_level(cv, alpha, pa.n2@),
        shell_complete_conds(pa, pdf, folded, e_prime, aux, openings),
{
    let n2 = pa.n2@;
    assert(folded =~= fold_level(cv, alpha, n2));
    lemma_fold_level_units(cv, alpha, n2);
    if folded.len() == 1 {
        vstd::arithmetic::power2::lemma2_to64();
        assert(pad_ones(folded, 1) =~= folded);
    }
}

/// One honest level of PoK*_P is accepted when the level below it is:
/// the opening, addition and multiplication proofs that the prover made
/// hold under unit bases, `Cy_half` is the public aux commitment of the
/// opening the prover used, `alpha` is the transcript challenge, and the
/// folded coefficients meet the conditions of the next level.
#[verifier::rlimit(60)]
proof fn lemma_shell_level_complete(
    pa: CsCommitParams,
    pdf: DfParams,
    cy: nat,
    cv: Seq<(nat, nat)>,
    c_p: (nat, nat),
    cp: CsCommitment,
    aux: Seq<PoKAuxEntry>,
    openings: Seq<PoKAuxOpeningEntry>,
    round: PoKStarRoundProof,
    next: PoKStarProof,
    tau: PoKTranscript,
    tau_next: PoKTranscript,
    lower: Seq<(nat, nat)>,
    upper: Seq<(nat, nat)>,
    folded: Seq<(nat, nat)>,
    pre: Seq<nat>,
    e3: (nat, nat),
    o3: CsCommitOpening,
    cpp: CsCommitment,
    e_prime: (nat, nat),
    r_alpha: nat,
    alpha_bits: nat,
    alpha_v: nat,
    m2: nat,
)
    requires
        cv.len() >= 2,
        cv.len() % 2 == 0,
        is_pow2(cv.len()),
        lower == cv.subrange(0, (cv.len() / 2) as int),
        upper == cv.subrange((cv.len() / 2) as int, cv.len() as int),
        alpha_v == round.alpha@,
        m2 == pa.n2@,
        folded == Seq::new(lower.len(), |i: int| ct_add(lower[i], ct_scale(upper[i], alpha_v, m2), m2)),
        e3 == folded_eval(upper, pre, pa.n2@),
        e_prime == folded_eval(folded, pre, pa.n2@),
        crate::cs_commit::is_commitment_of(pa, e3, o3, round.c3),
        crate::cs_commit::cs_com_accepts(pa, round.c1, round.pi_c1),
        crate::cs_commit::cs_com_accepts(pa, round.c2, round.pi_c2),
        crate::cs_commit::cs_com_accepts(pa, round.c3, round.pi_c3),
        crate::cs_commit::cs_com_accepts(pa, round.c_alpha_e3, round.pi_c_alpha_e3),
        crate::cs_commit::cs_com_accepts(pa, cpp, round.pi_c_p_prime),
        cpp@ == round.c_p_prime@,
        pa.n2@ > 1 && crate::cs_commit::commit_bases_units(pa) ==> crate::cs_commit::cs_add_accepts(pa, round.c1, round.c2, cp, round.pi_e_eq_e1_plus_e2),
        pa.n2@ > 1 && crate::cs_commit::commit_bases_units(pa) ==> crate::cs_commit::cs_add_accepts(pa, round.c1, round.c_alpha_e3, cpp, round.pi_eprime_eq_e1_plus_alphae3),
        pa.n2@ > 1 && crate::cs_commit::commit_bases_units(pa) && crate::cs_commit::commitment_units(round.c3, pa.n2@)
            ==> crate::cs_commit::cs_mult_accepts(pa, round.c2, round.c3, round.cy_half@, round.pi_e2_eq_y_half_mul_e3),
        pa.n2@ > 1 && crate::cs_commit::commit_bases_units(pa) && crate::cs_commit::commitment_units(round.c3, pa.n2@)
            ==> crate::cs_commit::cs_mult_accepts(pa, round.c_alpha_e3, round.c3, round.cy_alpha@, round.pi_alpha_mul_e3),
        round.cy_alpha@ == df_commit_spec(pdf.g@, pdf.h@, pdf.n2@, round.alpha@, r_alpha),
        df_open_prover_output(pdf, round.cy_alpha@, round.alpha@, r_alpha, alpha_bits, round.pi_cy_alpha),
        cv.len() / 2 == 1 || (is_pow2((cv.len() / 2) as nat) && find_round(openings, log2_floor((cv.len() / 2) as nat)) is Some),
        cv.len() / 2 == 1 ==> round.cy_half@ == cy,
        cv.len() / 2 != 1 ==> round.cy_half@ == openings[find_round(openings, log2_floor((cv.len() / 2) as nat))->0].cy_2i@,
        round.alpha@ == alpha_challenge(round.c1, round.c2, round.c3, tau),
        tau_appended(tau, round, tau_next),
        shell_complete(pa, pdf, cy, folded, e_prime, cpp, aux, openings, next, tau_view(tau_next)),
    ensures
        shell_complete(pa, pdf, cy, cv, c_p, cp, aux, openings, PoKStarProof::Recursive { round, next: Box::new(next) }, tau_view(tau)),
{
    reveal(shell_complete);
    if shell_complete_conds(pa, pdf, cv, c_p, aux, openings) {
        let n2 = pa.n2@;
        let half = cv.len() / 2;
        crate::ppb::lemma_aux_lookup_matches(aux, openings, half as nat, cy, round.cy_half@);
        lemma_level_c3_units(pa, cv, upper, pre, e3, o3, round.c3);
        crate::powmod::lemma_coprime_pow(pdf.g@, round.alpha@, n2);
        lemma_df_open_complete(pdf, round.cy_alpha@, round.alpha@, r_alpha, alpha_bits, round.pi_cy_alpha);
        assert(df_open_accepts(pdf, round.cy_alpha@, round.alpha@, round.pi_cy_alpha) == df_open_accepts(
            crate::ppb::alpha_df_params(pa),
            round.cy_alpha@,
            round.alpha@,
            round.pi_cy_alpha,
        ));
        lemma_level_next_conds(pa, pdf, cv, c_p, alpha_v, m2, lower, upper, folded, pre, e_prime, aux, openings);
        assert(tau_view(tau_next) == tau_append_view(tau_view(tau), round));
        crate::ppb::lemma_shell_accepts_view(pa, pa, cy, folded, cpp, round.c_p_prime, aux, next, tau_view(tau_next));
    }
}

/// The recursion of Algorithm 2. At one coefficient it proves that `CP`
/// opens to the public folded ciphertext `c_p`; otherwise it halves the
/// polynomial, evaluates both halves with the first `k` powers
/// (`2^k = n/2`), checks `c_p = e1 (+) (s_k (.) e3)`, commits to `e1`,
/// `e2 = s_k (.) e3`, `e3`, draws `alpha` from the transcript, folds,
/// proves the opening, addition and multiplication relations of the level,
/// appends the round to the transcript and recurses.
///
/// Fails when the polynomial length is not a power of two, the power
/// chain is too short, `c_p` is not the evaluation, an aux commitment is
/// missing, or a sub-proof fails.
#[verifier::rlimit(40)]
fn pok_star_recursive(
    params_ah: &CsCommitParams,
    params_df_for_alpha: &DfParams,
    r_y: &Nat,
    powers: &[Nat],
    c_p: &CsCiphertext,
    r_p: &CsCommitOpening,
    cy: &Nat,
    poly: &CiphertextPolynomial,
    c_p_commitment: &CsCommitment,
    aux_openings: &[PoKAuxOpeningEntry],
    tau: &PoKTranscript,
    Ghost(aux_pub): Ghost<Seq<PoKAuxEntry>>,
) -> (r: CryptoResult<PoKStarProof>)
    requires
        params_ah.n2@ > 0,
        params_df_for_alpha.n2@ > 0,
        poly@.1 == params_ah.n2@,
        poly@.0.len() >= 1,
    ensures
        r matches Ok(p) ==> shell_complete(*params_ah, *params_df_for_alpha, cy@, poly@.0, c_p@, *c_p_commitment, aux_pub, aux_openings@, p, tau_view(*tau)),
        poly@.0.len() == 1 ==> (r is Ok <==> crate::cs_commit::pm_one(r_p.a1) && crate::cs_commit::pm_one(r_p.b1) && crate::cs_commit::pm_one(r_p.a2) && crate::cs_commit::pm_one(r_p.b2)
            && crate::cs_commit::is_commitment_of(
            *params_ah,
            (c_p.c0@ % params_ah.n2@, c_p.c1@ % params_ah.n2@),
            *r_p,
            *c_p_commitment,
        ) && crate::cs_commit::blinding_ok(*params_ah, 256)),
        poly@.0.len() > 1 && poly@.0.len() % 2 == 1 ==> r == Err::<PoKStarProof, CryptoError>(
            CryptoError::InvalidInput("polynomial length must be even in recursive PoK*_P"),
        ),
        r matches Err(e) ==> e is InvalidInput || e == CryptoError::ModularInverseUnavailable,
        r matches Ok(p) ==> {
            &&& is_pow2(poly@.0.len())
            &&& pok_star_rounds(p) == log2_floor(poly@.0.len())
            &&& pok_star_alphas_bound(tau_view(*tau), p)
            &&& (poly@.0.len() == 1 ==> (p matches PoKStarProof::Base { pi_open_cp } && crate::cs_commit::cs_com_ct_prover_output(
                *params_ah,
                *c_p_commitment,
                c_p.c0@ % params_ah.n2@,
                c_p.c1@ % params_ah.n2@,
                *r_p,
                crate::cs_commit::blinding_bits_spec(*params_ah, 256) as nat,
                pi_open_cp,
            )))
        },
    decreases poly@.0.len(),
{
    let len = poly.len();
    if len == 1 {
        let pi_open_cp = match prove_cs_com_ciphertext(params_ah, c_p_commitment, c_p, r_p) {
            Ok(p) => p,
            Err(e) => return Err(e),
        };
        proof {
            vstd::arithmetic::power2::lemma2_to64();
            assert(bit_len(1) == 1);
            lemma_shell_base_complete(*params_ah, *params_df_for_alpha, cy@, poly@.0, c_p@, *c_p_commitment, aux_pub, aux_openings@, pi_open_cp, tau_view(*tau));
        }
        return Ok(PoKStarProof::Base { pi_open_cp });
    }
    if len % 2 != 0 {
        return Err(CryptoError::InvalidInput("polynomial length must be even in recursive PoK*_P"));
    }
    let n2 = &params_ah.n2;
    let (lower_poly, upper_poly) = poly.split_in_half();
    let half = len / 2;
    let k = ilog2_usize(half);
    if powers.len() <= k {
        return Err(CryptoError::InvalidInput("power chain too short for current recursion level"));
    }
    let pre = powers_prefix(powers, k);
    let e1 = match lower_poly.evaluate_with_powers(pre) {
        Ok(v) => v,
        Err(e) => return Err(e),
    };
    let e3 = match upper_poly.evaluate_with_powers(pre) {
        Ok(v) => v,
        Err(e) => return Err(e),
    };
    let y_half = powers[k].copy();
    let e2 = cs_homomorphic_scalar_mul(&e3, &y_half, n2);
    let e_expected = cs_homomorphic_add(&e1, &e2, n2);
    if !big_eq(&big_rem(&e_expected.c0, n2), &big_rem(&c_p.c0, n2)) || !big_eq(&big_rem(&e_expected.c1, n2), &big_rem(&c_p.c1, n2)) {
        return Err(CryptoError::InvalidInput("current statement does not satisfy e = e1 + e2"));
    }
    let cs_rand_bits = match default_cs_commit_randomness_bits(params_ah) {
        Ok(v) => v,
        Err(e) => return Err(e),
    };
    let c1w = match commit_cs(params_ah, &e1, cs_rand_bits) {
        Ok(v) => v,
        Err(e) => return Err(e),
    };
    let c2w = match commit_cs(params_ah, &e2, cs_rand_bits) {
        Ok(v) => v,
        Err(e) => return Err(e),
    };
    let c3w = match commit_cs(params_ah, &e3, cs_rand_bits) {
        Ok(v) => v,
        Err(e) => return Err(e),
    };
    let pi_c1 = match prove_cs_com(params_ah, &c1w.commitment, &c1w.opening) {
        Ok(v) => v,
        Err(e) => return Err(e),
    };
    let pi_c2 = match prove_cs_com(params_ah, &c2w.commitment, &c2w.opening) {
        Ok(v) => v,
        Err(e) => return Err(e),
    };
    let pi_c3 = match prove_cs_com(params_ah, &c3w.commitment, &c3w.opening) {
        Ok(v) => v,
        Err(e) => return Err(e),
    };
    let alpha = fs_alpha_for_pok_star(&c1w.commitment, &c2w.commitment, &c3w.commitment, tau);
    let folded_poly = lower_poly.fold(&upper_poly, &alpha);
    let e_prime = match folded_poly.evaluate_with_powers(pre) {
        Ok(v) => v,
        Err(e) => return Err(e),
    };
    let cppw = match commit_cs(params_ah, &e_prime, cs_rand_bits) {
        Ok(v) => v,
        Err(e) => return Err(e),
    };
    let pi_c_p_prime = match prove_cs_com(params_ah, &cppw.commitment, &cppw.opening) {
        Ok(v) => v,
        Err(e) => return Err(e),
    };
    let pi_e_eq_e1_plus_e2 = match prove_cs_add(params_ah, &c1w.commitment, &c2w.commitment, c_p_commitment, &c1w.opening, &c2w.opening, r_p) {
        Ok(v) => v,
        Err(e) => return Err(e),
    };
    let (cy_half, r_half) = match lookup_cy_for_power(half, cy, r_y, aux_openings) {
        Ok(v) => v,
        Err(e) => return Err(e),
    };
    let y_half_bi = Int::from_nat(&y_half);
    let r_half_bi = Int::from_nat(&r_half);
    let b_half = match derive_mult_signs(&c2w.opening, &c3w.opening, &y_half_bi) {
        Ok(v) => v,
        Err(e) => return Err(e),
    };
    let pi_e2_eq_y_half_mul_e3 = match prove_cs_mult(params_ah, &c2w.commitment, &c3w.commitment, &cy_half, &c2w.opening, &c3w.opening, &y_half_bi, &r_half_bi, 1, b_half) {
        Ok(v) => v,
        Err(e) => return Err(e),
    };
    let alpha_e3 = cs_homomorphic_scalar_mul(&e3, &alpha, n2);
    let cae3w = match commit_cs(params_ah, &alpha_e3, cs_rand_bits) {
        Ok(v) => v,
        Err(e) => return Err(e),
    };
    let pi_c_alpha_e3 = match prove_cs_com(params_ah, &cae3w.commitment, &cae3w.opening) {
        Ok(v) => v,
        Err(e) => return Err(e),
    };
    let df_rand_bits = match default_cs_commit_randomness_bits(params_ah) {
        Ok(v) => v,
        Err(e) => return Err(e),
    };
    let cy_alpha_w = match commit_df(params_df_for_alpha, &alpha, df_rand_bits) {
        Ok(v) => v,
        Err(e) => return Err(e),
    };
    let pi_cy_alpha = match prove_df_open_public_scalar(params_df_for_alpha, &cy_alpha_w.c, &alpha, &cy_alpha_w.r, params_ah.lambda_bits) {
        Ok(v) => v,
        Err(e) => return Err(e),
    };
    let alpha_bi = Int::from_nat(&alpha);
    let r_alpha_bi = Int::from_nat(&cy_alpha_w.r);
    let b_alpha = match derive_mult_signs(&cae3w.opening, &c3w.opening, &alpha_bi) {
        Ok(v) => v,
        Err(e) => return Err(e),
    };
    let pi_alpha_mul_e3 = match prove_cs_mult(params_ah, &cae3w.commitment, &c3w.commitment, &cy_alpha_w.c, &cae3w.opening, &c3w.opening, &alpha_bi, &r_alpha_bi, 1, b_alpha) {
        Ok(v) => v,
        Err(e) => return Err(e),
    };
    let pi_eprime_eq_e1_plus_alphae3 = match prove_cs_add(params_ah, &c1w.commitment, &cae3w.commitment, &cppw.commitment, &c1w.opening, &cae3w.opening, &cppw.opening) {
        Ok(v) => v,
        Err(e) => return Err(e),
    };
    let round = PoKStarRoundProof {
        c1: c1w.commitment,
        c2: c2w.commitment,
        c3: c3w.commitment,
        c_alpha_e3: cae3w.commitment,
        c_p_prime: cppw.commitment.copy(),
        alpha,
        cy_half,
        cy_alpha: cy_alpha_w.c,
        pi_cy_alpha,
        pi_c1,
        pi_c2,
        pi_c3,
        pi_c_alpha_e3,
        pi_c_p_prime,
        pi_e_eq_e1_plus_e2,
        pi_e2_eq_y_half_mul_e3,
        pi_alpha_mul_e3,
        pi_eprime_eq_e1_plus_alphae3,
    };
    let tau_next = append_round_to_tau(tau, &round);
    let next = match pok_star_recursive(
        params_ah,
        params_df_for_alpha,
        r_y,
        powers,
        &e_prime,
        &cppw.opening,
        cy,
        &folded_poly,
        &cppw.commitment,
        aux_openings,
        &tau_next,
        Ghost(aux_pub),
    ) {
        Ok(v) => v,
        Err(e) => return Err(e),
    };
    proof {
        lemma_double_log(half as nat);
        assert(len == 2 * half);
    }
    let ghost round_v = round;
    let ghost next_v = next;
    let result = PoKStarProof::Recursive { round, next: Box::new(next) };
    proof {
        lemma_shell_level_complete(
            *params_ah,
            *params_df_for_alpha,
            cy@,
            poly@.0,
            c_p@,
            *c_p_commitment,
            aux_pub,
            aux_openings@,
            round_v,
            next_v,
            *tau,
            tau_next,
            lower_poly@.0,
            upper_poly@.0,
            folded_poly@.0,
            nats(pre@),
            e3@,
            c3w.opening,
            cppw.commitment,
            e_prime@,
            cy_alpha_w.r@,
            b_plus_2lambda(params_df_for_alpha.n2@, params_ah.lambda_bits as nat) as nat,
            alpha@,
            lower_poly@.1,
        );
    }
    Ok(result)
}

/// PoK*_P: builds the ciphertext polynomial and runs the recursion.
///
/// Fails when `c_values` is empty or its length is not a power of two, or
/// as the recursion does.
fn pok_star_p(
    params_ah: &CsCommitParams,
    r_y: &Nat,
    powers: &[Nat],
    c_p: &CsCiphertext,
    r_p: &CsCommitOpening,
    cy: &Nat,
    c_values: &[CsCiphertext],
    c_p_commitment: &CsCommitment,
    aux_openings: &[PoKAuxOpeningEntry],
    tau: &PoKTranscript,
    Ghost(aux_pub): Ghost<Seq<PoKAuxEntry>>,
) -> (r: CryptoResult<PoKStarProof>)
    requires
        params_ah.n2@ > 0,
    ensures
        c_values@.len() == 0 || !is_pow2(c_values@.len() as nat) ==> r is Err,
        r matches Err(e) ==> e is InvalidInput || e == CryptoError::ModularInverseUnavailable,
        r matches Ok(p) ==> pok_star_rounds(p) == log2_floor(c_values@.len() as nat) && pok_star_alphas_bound(tau_view(*tau), p),
        r matches Ok(p) ==> shell_complete(
            *params_ah,
            alpha_params_of(*params_ah),
            cy@,
            cts(c_values@),
            c_p@,
            *c_p_commitment,
            aux_pub,
            aux_openings@,
            p,
            tau_view(*tau),
        ),
{
    if c_values.len() == 0 {
        return Err(CryptoError::InvalidInput("c_values must be non-empty"));
    }
    if !is_power_of_two_usize(c_values.len()) {
        return Err(CryptoError::InvalidInput("PoK*_P requires polynomial length to be a power of two"));
    }
    let poly = match CiphertextPolynomial::new(copy_cts(c_values), &params_ah.n2) {
        Ok(p) => p,
        Err(e) => return Err(e),
    };
    let params_df_for_alpha = df_params_from_ah(params_ah);
    let r = pok_star_recursive(params_ah, &params_df_for_alpha, r_y, powers, c_p, r_p, cy, &poly, c_p_commitment, aux_openings, tau, Ghost(aux_pub));
    proof {
        if r is Ok {
            lemma_shell_complete_params(*params_ah, params_df_for_alpha, cy@, poly@.0, c_p@, *c_p_commitment, aux_pub, aux_openings@, r->Ok_0, tau_view(*tau));
        }
    }
    r
}

// ---------------------------------------------------------------------------
// Algorithm 1: PoKP.
// ---------------------------------------------------------------------------

/// The reduction identity of an aux entry: `c_w == cy_2i * c_k^n (mod n^2)`.
pub open spec fn aux_reduction_holds(p: DfParams, entry: PoKAuxEntry) -> bool {
    entry.c_w@ == (entry.cy_2i@ * pow_mod(entry.c_k@, p.n@, p.n2@)) % p.n2@
}

/// The commitment to `w = s + k n` with opening `r + n rho` is the
/// commitment to `s` (opening `r`) times the `n`-th power of the
/// commitment to `k` (opening `rho`).
proof fn lemma_reduction_identity(p: DfParams, s: nat, r: nat, k: nat, rho: nat, w: nat, rho_w: nat)
    requires
        p.n2@ > 0,
        w == s + k * p.n@,
        rho_w == r + p.n@ * rho,
    ensures
        df_commit_spec(p.g@, p.h@, p.n2@, w, rho_w) == (df_commit_spec(p.g@, p.h@, p.n2@, s, r) * pow_mod(
            df_commit_spec(p.g@, p.h@, p.n2@, k, rho),
            p.n@,
            p.n2@,
        )) % p.n2@,
{
    let (g, h, n, n2) = (p.g@, p.h@, p.n@, p.n2@);
    crate::powmod::lemma_pair_pow_pow(g, h, k, rho, n, n2);
    crate::powmod::lemma_pair_pow_mul(g, h, s, r, k * n, rho * n, n2);
    assert(rho_w == r + rho * n) by (nonlinear_arith)
        requires
            rho_w == r + n * rho,
    ;
}

/// The DF parameters of the squaring proofs have `n^2 > 1` and a unit `h`.
pub open spec fn square_conds(pdf: DfParams) -> bool {
    pdf.n2@ > 1 && spec_gcd(pdf.n2@, pdf.h@) == 1
}

/// The conditions under which an honest PoKP proof is accepted: `n^2 > 1`,
/// unit commitment bases, the squaring conditions of the DF parameters,
/// coefficient ciphertexts of units, and a single coefficient equal to the
/// statement `c_p` modulo `n^2`.
pub open spec fn pokp_complete_conds(pa: CsCommitParams, pdf: DfParams, cv: Seq<(nat, nat)>, c_p: (nat, nat)) -> bool {
    let n2 = pa.n2@;
    &&& n2 > 1
    &&& crate::cs_commit::commit_bases_units(pa)
    &&& square_conds(pdf)
    &&& cts_units(cv, n2)
    &&& cv.len() == 1 ==> c_p.0 % n2 == cv[0].0 % n2 && c_p.1 % n2 == cv[0].1 % n2
}

/// An honest aux entry is consistent: its commitments are reduced, its
/// squaring proof is accepted and the reduction identity holds.
proof fn lemma_aux_entry_complete(
    pdf: DfParams,
    prev: nat,
    entry: PoKAuxEntry,
    round: nat,
    r_next: nat,
    r_k: nat,
    rho_w: nat,
    s: nat,
    k: nat,
    w: nat,
)
    requires
        square_conds(pdf),
        entry.round == round,
        entry.cy_2i@ == df_commit_spec(pdf.g@, pdf.h@, pdf.n2@, s, r_next),
        entry.c_k@ == df_commit_spec(pdf.g@, pdf.h@, pdf.n2@, k, r_k),
        entry.c_w@ == df_commit_spec(pdf.g@, pdf.h@, pdf.n2@, w, rho_w),
        square_accepts(pdf, prev, entry.c_w@, entry.pi_y2i),
        aux_reduction_holds(pdf, entry),
    ensures
        crate::ppb::aux_entry_ok(pdf, prev, entry, round),
{
    reveal(crate::ppb::aux_entry_ok);
    let n2 = pdf.n2@;
    crate::powmod::lemma_pair_pow_bound(pdf.g@, pdf.h@, s, r_next, n2);
    crate::powmod::lemma_pair_pow_bound(pdf.g@, pdf.h@, k, r_k, n2);
    crate::powmod::lemma_pair_pow_bound(pdf.g@, pdf.h@, w, rho_w, n2);
}

/// PoKP (Algorithm 1): wraps `cP` as `CP = Com_AH(cP; 0)`, commits to the
/// reduced squaring chain `s_i = y^(2^i) mod n` for `i = 1..rounds-1`
/// with the reduction witnesses `w = s_{i-1}^2 = s_i + k n`, proves each
/// square, and runs PoK*_P on the transcript
/// `tau = (Cy, c_0, ..., c_{n-1}, cP)`.
///
/// Fails when `c_values` is empty or not of a power-of-two length, when
/// `df_randomness_bits` is zero, or when a step fails.
pub fn pokp(
    params_ah: &CsCommitParams,
    params_df: &DfParams,
    r_y: &Nat,
    y: &Nat,
    cy: &Nat,
    c_values: &[CsCiphertext],
    c_p: &CsCiphertext,
    df_randomness_bits: usize,
) -> (r: CryptoResult<PoKPProof>)
    requires
        c_values@.len() >= 4 ==> params_df.n2@ > 0,
    ensures
        r is Ok ==> c_values@.len() > 0 && is_pow2(c_values@.len() as nat) && df_randomness_bits > 0 && params_ah.n2@ > 0
            && params_df.n@ > 0,
        c_values@.len() == 0 ==> r == Err::<PoKPProof, CryptoError>(CryptoError::InvalidInput("c_values must be non-empty")),
        c_values@.len() > 0 && !is_pow2(c_values@.len() as nat) ==> r == Err::<PoKPProof, CryptoError>(
            CryptoError::InvalidInput("current PoKP implementation requires n to be a power of two"),
        ),
        c_values@.len() > 0 && is_pow2(c_values@.len() as nat) && df_randomness_bits == 0 ==> r == Err::<PoKPProof, CryptoError>(
            CryptoError::InvalidInput("df_randomness_bits must be > 0"),
        ),
        r matches Err(e) ==> e is InvalidInput || e == CryptoError::ModularInverseUnavailable,
        r matches Ok(p) ==> {
            let rounds = log2_floor(c_values@.len() as nat);
            &&& p.aux@.len() == (if rounds >= 1 { rounds - 1 } else { 0 })
            &&& forall|i: int| 0 <= i < p.aux@.len() ==> (#[trigger] p.aux@[i]).round == i + 1 && aux_reduction_holds(*params_df, p.aux@[i])
            &&& tau_view(p.tau) == (cy@, cts(c_values@), c_p@, Seq::<nat>::empty())
            &&& p.c_p_commitment@ == (c_p.c0@ % params_ah.n2@, 1nat, c_p.c1@ % params_ah.n2@, 1nat)
            &&& pok_star_rounds(p.recursive_proof) == rounds
            &&& pok_star_alphas_bound(tau_view(p.tau), p.recursive_proof)
        },
        r matches Ok(p) ==> (pokp_complete_conds(*params_ah, *params_df, cts(c_values@), c_p@) ==> crate::ppb::pokp_accepts(
            *params_ah,
            *params_df,
            cy@,
            cts(c_values@),
            p,
        )),
{
    if c_values.len() == 0 {
        return Err(CryptoError::InvalidInput("c_values must be non-empty"));
    }
    if !is_power_of_two_usize(c_values.len()) {
        return Err(CryptoError::InvalidInput("current PoKP implementation requires n to be a power of two"));
    }
    if df_randomness_bits == 0 {
        return Err(CryptoError::InvalidInput("df_randomness_bits must be > 0"));
    }
    let c_p_wrapped = match com_ah_with_zero_randomness(params_ah, c_p) {
        Ok(v) => v,
        Err(e) => return Err(e),
    };
    let rounds = ilog2_usize(c_values.len());
    let aux_rounds: usize = if rounds >= 1 { rounds - 1 } else { 0 };
    let powers = match CiphertextPolynomial::reduced_power_chain(y, &params_df.n, rounds) {
        Ok(v) => v,
        Err(e) => return Err(e),
    };
    proof {
        crate::bignum::lemma_bit_len_range(c_values@.len() as nat);
        if aux_rounds >= 1 {
            vstd::arithmetic::power2::lemma2_to64();
            if rounds > 2 {
                vstd::arithmetic::power2::lemma_pow2_strictly_increases(2, rounds as nat);
            }
        }
    }
    let mut aux: Vec<PoKAuxEntry> = Vec::new();
    let mut aux_openings: Vec<PoKAuxOpeningEntry> = Vec::new();
    let mut prev_cy = cy.copy();
    let mut prev_r = r_y.copy();
    let mut i: usize = 1;
    while i <= aux_rounds
        invariant
            params_df.n@ > 0,
            c_values@.len() > 0 && is_pow2(c_values@.len() as nat) && df_randomness_bits > 0,
            aux_rounds >= 1 ==> params_df.n2@ > 0,
            1 <= i <= aux_rounds + 1,
            aux_rounds < rounds || aux_rounds == 0,
            powers@.len() == rounds,
            forall|t: int| 0 <= t < rounds ==> (#[trigger] powers@[t])@ == power_chain(y@, params_df.n@, t as nat),
            aux@.len() == i - 1,
            forall|t: int| 0 <= t < aux@.len() ==> (#[trigger] aux@[t]).round == t + 1 && aux_reduction_holds(*params_df, aux@[t]),
            aux_matches(aux@, aux_openings@),
            prev_cy@ == crate::ppb::aux_prev_cy(cy@, aux@, aux@.len() as int),
            forall|t: int|
                0 <= t < aux@.len() ==> (square_conds(*params_df) ==> crate::ppb::aux_entry_ok(
                    *params_df,
                    crate::ppb::aux_prev_cy(cy@, aux@, t),
                    #[trigger] aux@[t],
                    (t + 1) as nat,
                )),
        decreases aux_rounds + 1 - i,
    {
        let prev_z = powers[i - 1].copy();
        let w = big_mul(&prev_z, &prev_z);
        let k = big_div(&w, &params_df.n);
        let c_next = match commit_df(params_df, &powers[i], df_randomness_bits) {
            Ok(v) => v,
            Err(e) => return Err(e),
        };
        let c_k = match commit_df(params_df, &k, df_randomness_bits) {
            Ok(v) => v,
            Err(e) => return Err(e),
        };
        let rho_w = big_add(&c_next.r, &big_mul(&params_df.n, &c_k.r));
        let c_w = match commit_df_with_opening(params_df, &w, &rho_w) {
            Ok(v) => v,
            Err(e) => return Err(e),
        };
        let pi_y2i = match prove_mult_with_lambda(params_df, &prev_cy, &prev_r, &c_w.c, &rho_w, &prev_z, params_ah.lambda_bits) {
            Ok(v) => v,
            Err(e) => return Err(e),
        };
        proof {
            let n = params_df.n@;
            vstd::arithmetic::div_mod::lemma_fundamental_div_mod(w@ as int, n as int);
            assert(powers@[i as int]@ == (w@ % n));
            assert(w@ == powers@[i as int]@ + k@ * n) by (nonlinear_arith)
                requires
                    w@ as int == (n as int) * (w@ as int / n as int) + (w@ as int % n as int),
                    k@ == w@ / n,
                    powers@[i as int]@ == w@ % n,
            ;
            lemma_reduction_identity(*params_df, powers@[i as int]@, c_next.r@, k@, c_k.r@, w@, rho_w@);
        }
        let entry = PoKAuxEntry { round: i, cy_2i: c_next.c.copy(), c_w: c_w.c.copy(), c_k: c_k.c.copy(), pi_y2i };
        let ghost old_aux = aux@;
        proof {
            if square_conds(*params_df) {
                lemma_aux_entry_complete(*params_df, prev_cy@, entry, i as nat, c_next.r@, c_k.r@, rho_w@, powers@[i as int]@, k@, w@);
            }
        }
        aux.push(entry);
        aux_openings.push(PoKAuxOpeningEntry { round: i, cy_2i: c_next.c.copy(), r_i: c_next.r.copy() });
        proof {
            assert forall|t: int| 0 <= t < aux@.len() implies crate::ppb::aux_prev_cy(cy@, aux@, t) == crate::ppb::aux_prev_cy(
                cy@,
                old_aux,
                t,
            ) || t == old_aux.len() by {}
        }
        prev_cy = c_next.c;
        prev_r = c_next.r;
        i = i + 1;
    }
    let tau = PoKTranscript { cy: cy.copy(), c_values: copy_cts(c_values), c_p: c_p.copy(), history: Vec::new() };
    let recursive_proof = match pok_star_p(
        params_ah,
        r_y,
        powers.as_slice(),
        c_p,
        &c_p_wrapped.opening,
        cy,
        c_values,
        &c_p_wrapped.commitment,
        aux_openings.as_slice(),
        &tau,
        Ghost(aux@),
    ) {
        Ok(v) => v,
        Err(e) => return Err(e),
    };
    proof {
        assert(nats(tau.history@) =~= Seq::<nat>::empty());
    }
    let out = PoKPProof { aux, tau, c_p_commitment: c_p_wrapped.commitment, recursive_proof };
    proof {
        if pokp_complete_conds(*params_ah, *params_df, cts(c_values@), c_p@) {
            reveal(shell_complete);
            reveal(crate::ppb::pokp_accepts);
            let cv = cts(c_values@);
            assert(shell_complete_conds(*params_ah, alpha_params_of(*params_ah), cv, c_p@, out.aux@, aux_openings@));
            assert(out.c_p_commitment@ == crate::ppb::enc_statement(params_ah.n2@, out.tau.c_p@));
            assert(crate::ppb::pokp_accepts(*params_ah, *params_df, cy@, cv, out));
        }
    }
    Ok(out)
}


/// Soundness of the squaring check: an accepted proof satisfies both
/// equations, `g^z_z h^z_rin == R1 C_in^e` (the opening of `C_in`) and
/// `C_in^z_z h^z_gamma == R2 C_out^e` (the square), modulo `n^2`.
pub proof fn lemma_square_accepted_equations(p: DfParams, c_in: nat, c_out: nat, proof: ProveMultProof)
    requires
        square_accepts(p, c_in, c_out, proof),
    ensures
        ({
            let n2 = p.n2@;
            let e = square_challenge(p, c_in, c_out, proof.r1@, proof.r2@);
            &&& (signed_pow(p.g@, proof.z_z@, n2) * signed_pow(p.h@, proof.z_rin@, n2)) % n2 == (proof.r1@ * pow_mod(c_in, e, n2)) % n2
            &&& (signed_pow(c_in, proof.z_z@, n2) * signed_pow(p.h@, proof.z_gamma@, n2)) % n2 == (proof.r2@ * pow_mod(c_out, e, n2)) % n2
        }),
{
}


/// Soundness of the DF opening check: an accepted proof satisfies
/// `h^z_r == R (C / g^m)^e` modulo `n^2`: `C g^-m` is opened under `h`.
pub proof fn lemma_df_open_accepted_equation(p: DfParams, c: nat, m: nat, proof: DfOpenProof)
    requires
        df_open_accepts(p, c, m, proof),
    ensures
        ({
            let n2 = p.n2@;
            let e = df_open_challenge(p, c, m, proof.r_commitment@);
            pow_mod(p.h@, proof.z_r@, n2) == (proof.r_commitment@ * pow_mod((c * inv_mod(pow_mod(p.g@, m, n2), n2)) % n2, e, n2)) % n2
        }),
{
}

} // verus!
