//! Damgård-Fujisaki commitments in `Z_{n^2}`, single and multi-base.
use crate::bignum::{big_add, big_eq, big_lt, big_modpow, big_mul, big_rem, big_is_zero, pow_mod, random_bits, Nat};
use crate::error::{CryptoError, CryptoResult};
use crate::hash::{challenge_of, fiat_shamir_challenge_biguints};
use crate::hec::{expand_roots_spec, expand_roots_to_coefficients_mod_n};
use crate::math::{abs_qr_rep, abs_rep, gcd, generate_safe_rsa_modulus, safe_modulus_shape, sample_unit_mod_n2, spec_gcd};
use vstd::arithmetic::div_mod::lemma_mod_bound;
use vstd::arithmetic::power2::pow2;
use vstd::prelude::*;

verus! {

/// Parameters: the modulus `n`, `n^2` and two units `g, h` of `Z_{n^2}`.
#[derive(Debug, Clone)]
pub struct DfParams {
    pub n: Nat,
    pub n2: Nat,
    pub g: Nat,
    pub h: Nat,
}

/// A commitment `c = g^m h^r mod n^2` with its opening `r`.
#[derive(Debug, Clone)]
pub struct DfCommitment {
    pub c: Nat,
    pub r: Nat,
}

impl DfParams {
    /// A copy of the parameters.
    pub fn copy(&self) -> (r: DfParams)
        ensures
            r.n@ == self.n@,
            r.n2@ == self.n2@,
            r.g@ == self.g@,
            r.h@ == self.h@,
    {
        DfParams { n: self.n.copy(), n2: self.n2.copy(), g: self.g.copy(), h: self.h.copy() }
    }
}

/// `g^m h^r mod n^2`.
pub open spec fn df_commit_spec(g: nat, h: nat, n2: nat, m: nat, r: nat) -> nat {
    (pow_mod(g, m, n2) * pow_mod(h, r, n2)) % n2
}

/// A unit of `Z_{n^2}` above one.
pub open spec fn is_sampled_unit(x: nat, n2: nat) -> bool {
    1 < x < n2 && spec_gcd(x, n2) == 1
}

/// SetupDF: a safe RSA modulus `n = pq` and two sampled units `g, h` of `Z*_{n^2}`.
pub fn setup_df(bits: usize) -> (r: CryptoResult<DfParams>)
    ensures
        (bits < 32 || bits % 2 != 0) ==> (r matches Err(e) && e is InvalidInput),
        r matches Err(e) ==> ((e is InvalidInput) && (bits < 32 || bits % 2 != 0)) || e
            == CryptoError::PrimeGenerationFailed,
        r matches Ok(p) ==> {
            &&& safe_modulus_shape(p.n@, bits as nat)
            &&& p.n2@ == p.n@ * p.n@
            &&& is_sampled_unit(p.g@, p.n2@)
            &&& is_sampled_unit(p.h@, p.n2@)
        },
{
    let n = match generate_safe_rsa_modulus(bits) {
        Ok((_, _, n)) => n,
        Err(e) => return Err(e),
    };
    let n2 = big_mul(&n, &n);
    proof {
        assert(n2@ >= 9) by (nonlinear_arith)
            requires
                n@ >= 9,
                n2@ == n@ * n@,
        ;
    }
    let g = sample_unit_mod_n2(&n2);
    let h = sample_unit_mod_n2(&n2);
    Ok(DfParams { n, n2, g, h })
}

/// CommitDF(params, m): a fresh opening `r` of `randomness_bits` bits and
/// `C = g^m h^r mod n^2`.
pub fn commit_df(params: &DfParams, m: &Nat, randomness_bits: usize) -> (r: CryptoResult<DfCommitment>)
    requires
        params.n2@ > 0,
    ensures
        r is Err <==> randomness_bits == 0,
        r matches Err(e) ==> e is InvalidInput,
        r matches Ok(c) ==> c.r@ < pow2(randomness_bits as nat) && c.c@ == df_commit_spec(
            params.g@,
            params.h@,
            params.n2@,
            m@,
            c.r@,
        ),
{
    if randomness_bits == 0 {
        return Err(CryptoError::InvalidInput("randomness bits must be > 0"));
    }
    let rr = random_bits(randomness_bits);
    commit_df_with_opening(params, m, &rr)
}

/// CommitDF with a given opening `r`: `C = g^m h^r mod n^2`. The message
/// range is left to the protocols above.
pub fn commit_df_with_opening(params: &DfParams, m: &Nat, rr: &Nat) -> (r: CryptoResult<DfCommitment>)
    requires
        params.n2@ > 0,
    ensures
        r matches Ok(c) && c.r@ == rr@ && c.c@ == df_commit_spec(
            params.g@,
            params.h@,
            params.n2@,
            m@,
            rr@,
        ),
{
    let gm = big_modpow(&params.g, m, &params.n2);
    let hr = big_modpow(&params.h, rr, &params.n2);
    let c = big_rem(&big_mul(&gm, &hr), &params.n2);
    Ok(DfCommitment { c, r: rr.copy() })
}

/// Domain tag of the derived vector bases.
pub const VECTOR_COMMITMENT_DOMAIN: u64 = 0x5331;

/// The hashed candidate for base `i` (counted from zero) at `counter`.
pub open spec fn base_candidate(n: nat, n2: nat, g: nat, h: nat, i: nat, counter: nat) -> nat {
    challenge_of(seq![VECTOR_COMMITMENT_DOMAIN as nat, n, n2, g, h, i + 1, counter]) % n2
}

/// The base that `counter` yields: the `|QR_{n^2}|` representative of the
/// candidate raised to `n`.
pub open spec fn base_from_candidate(n: nat, n2: nat, g: nat, h: nat, i: nat, counter: nat) -> nat {
    abs_rep(pow_mod(base_candidate(n, n2, g, h, i, counter), n, n2), n2)
}

/// `counter` yields a base: its candidate is a unit and the base exceeds one.
pub open spec fn base_accepted(n: nat, n2: nat, g: nat, h: nat, i: nat, counter: nat) -> bool {
    spec_gcd(base_candidate(n, n2, g, h, i, counter), n2) == 1 && base_from_candidate(
        n,
        n2,
        g,
        h,
        i,
        counter,
    ) > 1
}

/// `b` is base `i`: the base of the first counter that yields one.
pub open spec fn is_derived_base(n: nat, n2: nat, g: nat, h: nat, i: nat, b: nat) -> bool {
    exists|c: nat|
        #[trigger] base_accepted(n, n2, g, h, i, c) && b == base_from_candidate(n, n2, g, h, i, c)
            && forall|c2: nat| c2 < c ==> !#[trigger] base_accepted(n, n2, g, h, i, c2)
}

/// The derived bases `G_1..G_len` as numbers: each the unique `b` with
/// `is_derived_base`.
pub open spec fn derived_bases(n: nat, n2: nat, g: nat, h: nat, len: nat) -> Seq<nat> {
    Seq::new(len, |i: int| choose|b: nat| #[trigger] is_derived_base(n, n2, g, h, i as nat, b))
}

/// A derived base is unique: the first accepted counter fixes it.
pub proof fn lemma_derived_base_unique(n: nat, n2: nat, g: nat, h: nat, i: nat, b1: nat, b2: nat)
    requires
        is_derived_base(n, n2, g, h, i, b1),
        is_derived_base(n, n2, g, h, i, b2),
    ensures
        b1 == b2,
{
    let c1 = choose|c: nat|
        #[trigger] base_accepted(n, n2, g, h, i, c) && b1 == base_from_candidate(n, n2, g, h, i, c) && forall|c2: nat|
            c2 < c ==> !#[trigger] base_accepted(n, n2, g, h, i, c2);
    let c2 = choose|c: nat|
        #[trigger] base_accepted(n, n2, g, h, i, c) && b2 == base_from_candidate(n, n2, g, h, i, c) && forall|c3: nat|
            c3 < c ==> !#[trigger] base_accepted(n, n2, g, h, i, c3);
    if c1 < c2 {
        assert(!base_accepted(n, n2, g, h, i, c1));
    } else if c2 < c1 {
        assert(!base_accepted(n, n2, g, h, i, c2));
    }
}

/// Searches the counters for base `i`.
fn derive_one_base(params: &DfParams, i: usize) -> (r: CryptoResult<Nat>)
    requires
        params.n2@ > 0,
        i < usize::MAX,
    ensures
        r is Ok <==> base_derivable(params.n@, params.n2@, params.g@, params.h@, i as nat),
        r matches Ok(b) ==> is_derived_base(params.n@, params.n2@, params.g@, params.h@, i as nat, b@),
        r is Err ==> r == Err::<Nat, CryptoError>(CryptoError::InvalidInput("vector base search exhausted")),
{
    let domain = Nat::from_u64(VECTOR_COMMITMENT_DOMAIN);
    let idx = Nat::from_u64((i + 1) as u64);
    let one = Nat::one();
    let mut counter: u64 = 0;
    let ghost (n, n2, g, h) = (params.n@, params.n2@, params.g@, params.h@);
    while counter < u64::MAX
        invariant
            params.n2@ > 0,
            n == params.n@ && n2 == params.n2@ && g == params.g@ && h == params.h@,
            domain@ == VECTOR_COMMITMENT_DOMAIN as nat,
            idx@ == i + 1,
            one@ == 1,
            forall|c2: nat| c2 < counter ==> !#[trigger] base_accepted(n, n2, g, h, i as nat, c2),
        decreases u64::MAX - counter,
    {
        let ctr = Nat::from_u64(counter);
        let vals: [&Nat; 7] = [&domain, &params.n, &params.n2, &params.g, &params.h, &idx, &ctr];
        let hashed = fiat_shamir_challenge_biguints(&vals);
        proof {
            assert(vals@.map_values(|v: &Nat| v@) =~= seq![VECTOR_COMMITMENT_DOMAIN as nat, n, n2, g, h, (i + 1) as nat, counter as nat]);
        }
        let candidate = big_rem(&hashed, &params.n2);
        if big_eq(&gcd(candidate.copy(), params.n2.copy()), &one) {
            let base_raw = big_modpow(&candidate, &params.n, &params.n2);
            proof {
                lemma_mod_bound(vstd::arithmetic::power::pow(candidate@ as int, n), n2 as int);
            }
            let base = abs_qr_rep(&base_raw, &params.n2);
            if big_lt(&one, &base) {
                proof {
                    assert(base_accepted(n, n2, g, h, i as nat, counter as nat));
                }
                return Ok(base);
            }
        }
        proof {
            assert(!base_accepted(n, n2, g, h, i as nat, counter as nat));
        }
        counter = counter + 1;
    }
    Err(CryptoError::InvalidInput("vector base search exhausted"))
}

/// Every base `i < len` has an accepted counter below `u64::MAX`, so the
/// search finds it.
pub open spec fn bases_derivable(n: nat, n2: nat, g: nat, h: nat, len: nat) -> bool {
    forall|i: nat| i < len ==> #[trigger] base_derivable(n, n2, g, h, i)
}

/// Base `i` has an accepted counter below `u64::MAX`.
pub open spec fn base_derivable(n: nat, n2: nat, g: nat, h: nat, i: nat) -> bool {
    exists|c: nat| c < u64::MAX && #[trigger] base_accepted(n, n2, g, h, i, c)
}

/// Derives `len` vector bases `G_1..G_len` from the public parameters and
/// the index: base `i` is `|c^n|` for the first counter whose hashed
/// candidate `c` is a unit with `|c^n| > 1`. Verifiers recompute the same bases.
pub fn derive_df_vector_bases(params: &DfParams, len: usize) -> (r: CryptoResult<Vec<Nat>>)
    ensures
        r is Ok <==> params.n2@ > 0 && bases_derivable(params.n@, params.n2@, params.g@, params.h@, len as nat),
        params.n2@ == 0 ==> r == Err::<Vec<Nat>, CryptoError>(CryptoError::InvalidInput("n^2 must be non-zero")),
        params.n2@ > 0 && r is Err ==> r == Err::<Vec<Nat>, CryptoError>(CryptoError::InvalidInput("vector base search exhausted")),
        r matches Ok(bases) ==> bases@.len() == len && (forall|i: int|
            0 <= i < len ==> #[trigger] is_derived_base(
                params.n@,
                params.n2@,
                params.g@,
                params.h@,
                i as nat,
                bases@[i]@,
            )) && nats(bases@) == derived_bases(params.n@, params.n2@, params.g@, params.h@, len as nat),
{
    if big_is_zero(&params.n2) {
        return Err(CryptoError::InvalidInput("n^2 must be non-zero"));
    }
    let mut bases: Vec<Nat> = Vec::new();
    let mut i: usize = 0;
    while i < len
        invariant
            i <= len,
            params.n2@ > 0,
            bases@.len() == i,
            forall|j: int|
                0 <= j < i ==> #[trigger] is_derived_base(
                    params.n@,
                    params.n2@,
                    params.g@,
                    params.h@,
                    j as nat,
                    bases@[j]@,
                ),
            bases_derivable(params.n@, params.n2@, params.g@, params.h@, i as nat),
        decreases len - i,
    {
        let b = match derive_one_base(params, i) {
            Ok(b) => b,
            Err(e) => {
                proof {
                    assert(!bases_derivable(params.n@, params.n2@, params.g@, params.h@, len as nat)) by {
                        if bases_derivable(params.n@, params.n2@, params.g@, params.h@, len as nat) {
                            assert(base_derivable(params.n@, params.n2@, params.g@, params.h@, i as nat));
                        }
                    }
                }
                return Err(e);
            },
        };
        bases.push(b);
        i = i + 1;
    }
    proof {
        let d = derived_bases(params.n@, params.n2@, params.g@, params.h@, len as nat);
        assert forall|j: int| 0 <= j < len implies #[trigger] nats(bases@)[j] == d[j] by {
            let bj = bases@[j]@;
            assert(is_derived_base(params.n@, params.n2@, params.g@, params.h@, j as nat, bj));
            let cj = choose|b: nat| #[trigger] is_derived_base(params.n@, params.n2@, params.g@, params.h@, j as nat, b);
            lemma_derived_base_unique(params.n@, params.n2@, params.g@, params.h@, j as nat, bj, cj);
        }
        assert(nats(bases@) =~= d);
    }
    Ok(bases)
}

/// `h^r * prod_i bases_i^{values_i} mod n^2`, folded left to right.
pub open spec fn vector_commit_spec(h: nat, n2: nat, bases: Seq<nat>, values: Seq<nat>, r: nat) -> nat
    decreases bases.len(),
{
    if bases.len() == 0 {
        pow_mod(h, r, n2)
    } else {
        (vector_commit_spec(h, n2, bases.drop_last(), values.drop_last(), r) * pow_mod(
            bases.last(),
            values.last(),
            n2,
        )) % n2
    }
}

/// The numbers of a vector of `Nat`.
pub open spec fn nats(v: Seq<Nat>) -> Seq<nat> {
    v.map_values(|x: Nat| x@)
}

/// Vector commitment with given bases: `C = H^r * prod_i G_i^{a_i} mod n^2`.
///
/// Fails when the bases and the values differ in number.
pub fn commit_df_vector_with_bases(params: &DfParams, bases: &[Nat], values: &[Nat], rr: &Nat) -> (r:
    CryptoResult<DfCommitment>)
    requires
        params.n2@ > 0,
    ensures
        r is Err <==> bases@.len() != values@.len(),
        r matches Err(e) ==> e is InvalidInput,
        r matches Ok(c) ==> c.r@ == rr@ && c.c@ == vector_commit_spec(
            params.h@,
            params.n2@,
            nats(bases@),
            nats(values@),
            rr@,
        ),
{
    if bases.len() != values.len() {
        return Err(CryptoError::InvalidInput("vector bases/value length mismatch"));
    }
    let mut c = big_modpow(&params.h, rr, &params.n2);
    let mut i: usize = 0;
    while i < bases.len()
        invariant
            params.n2@ > 0,
            bases@.len() == values@.len(),
            i <= bases@.len(),
            c@ == vector_commit_spec(
                params.h@,
                params.n2@,
                nats(bases@.subrange(0, i as int)),
                nats(values@.subrange(0, i as int)),
                rr@,
            ),
        decreases bases.len() - i,
    {
        let term = big_modpow(&bases[i], &values[i], &params.n2);
        c = big_rem(&big_mul(&c, &term), &params.n2);
        proof {
            let bs = nats(bases@.subrange(0, i + 1));
            let vs = nats(values@.subrange(0, i + 1));
            assert(bs.drop_last() =~= nats(bases@.subrange(0, i as int)));
            assert(vs.drop_last() =~= nats(values@.subrange(0, i as int)));
        }
        i = i + 1;
    }
    proof {
        assert(bases@.subrange(0, bases@.len() as int) =~= bases@);
        assert(values@.subrange(0, values@.len() as int) =~= values@);
    }
    Ok(DfCommitment { c, r: rr.copy() })
}

/// `c` commits to `values` under opening `r` with the bases derived from
/// the parameters.
pub open spec fn is_multibase_commitment(n: nat, n2: nat, g: nat, h: nat, c: nat, values: Seq<nat>, r: nat) -> bool {
    exists|bases: Seq<nat>|
        #![trigger vector_commit_spec(h, n2, bases, values, r)]
        bases.len() == values.len() && (forall|i: int|
            0 <= i < bases.len() ==> #[trigger] is_derived_base(n, n2, g, h, i as nat, bases[i]))
            && c == vector_commit_spec(h, n2, bases, values, r)
}

/// DF polynomial commitment (Algorithm 1, `Commit(Λ, x, r_x; s)`): the
/// coefficients of `P = s * prod_i (X - x_i)` over `Z_n`, committed with
/// the derived bases as `C = H^r * prod_i G_i^{P_i} mod n^2`. Returns the
/// commitment and the coefficients.
///
/// Succeeds exactly when `n` and `n^2` are non-zero and the bases
/// `G_1..G_(len x + 1)` can be derived.
pub fn commit_df_multibase(params: &DfParams, x: &[Nat], rr: &Nat, s: &Nat) -> (r: CryptoResult<
    (DfCommitment, Vec<Nat>),
>)
    requires
        x@.len() < usize::MAX,
    ensures
        r is Ok <==> params.n@ > 0 && params.n2@ > 0 && bases_derivable(
            params.n@,
            params.n2@,
            params.g@,
            params.h@,
            (x@.len() + 1) as nat,
        ),
        params.n@ == 0 ==> r == Err::<(DfCommitment, Vec<Nat>), CryptoError>(
            CryptoError::InvalidInput("expand_roots_to_coefficients_mod_n failed"),
        ),
        params.n@ > 0 && params.n2@ == 0 ==> r == Err::<(DfCommitment, Vec<Nat>), CryptoError>(
            CryptoError::InvalidInput("n^2 must be non-zero"),
        ),
        params.n@ > 0 && params.n2@ > 0 && r is Err ==> r == Err::<(DfCommitment, Vec<Nat>), CryptoError>(
            CryptoError::InvalidInput("vector base search exhausted"),
        ),
        r matches Ok(out) ==> nats(out.1@) == expand_roots_spec(nats(x@), s@, params.n@)
            && out.0.r@ == rr@ && is_multibase_commitment(
            params.n@,
            params.n2@,
            params.g@,
            params.h@,
            out.0.c@,
            nats(out.1@),
            rr@,
        ),
{
    let coeffs = match expand_roots_to_coefficients_mod_n(x, s, &params.n) {
        Ok(c) => c,
        Err(_) => return Err(CryptoError::InvalidInput("expand_roots_to_coefficients_mod_n failed")),
    };
    let bases = match derive_df_vector_bases(params, coeffs.len()) {
        Ok(b) => b,
        Err(e) => return Err(e),
    };
    let commitment = match commit_df_vector_with_bases(params, bases.as_slice(), coeffs.as_slice(), rr) {
        Ok(c) => c,
        Err(e) => return Err(e),
    };
    proof {
        let bs = nats(bases@);
        assert forall|i: int| 0 <= i < bs.len() implies #[trigger] is_derived_base(
            params.n@,
            params.n2@,
            params.g@,
            params.h@,
            i as nat,
            bs[i],
        ) by {
            assert(bs[i] == bases@[i]@);
        }
        assert(bs.len() == coeffs@.len());
        assert(commitment.c@ == vector_commit_spec(params.h@, params.n2@, bs, nats(coeffs@), rr@));
        assert(is_multibase_commitment(params.n@, params.n2@, params.g@, params.h@, commitment.c@, nats(coeffs@), rr@));
    }
    Ok((commitment, coeffs))
}


// ---------------------------------------------------------------------------
// Products of powers: the algebra of the vector commitment.
// ---------------------------------------------------------------------------

/// `prod_i b_i^(x_i) mod n2`, multiplied from the first index to the last.
pub open spec fn pow_prod(n2: nat, bases: Seq<nat>, values: Seq<nat>) -> nat
    decreases bases.len(),
{
    if bases.len() == 0 {
        1
    } else {
        (pow_prod(n2, bases.drop_last(), values.drop_last()) * pow_mod(bases.last(), values.last(), n2)) % n2
    }
}

/// Every exponent multiplied by `c`.
pub open spec fn scale_values(values: Seq<nat>, c: nat) -> Seq<nat> {
    Seq::new(values.len(), |i: int| values[i] * c)
}

/// The pointwise sum of two exponent vectors.
pub open spec fn add_values(x: Seq<nat>, y: Seq<nat>) -> Seq<nat> {
    Seq::new(x.len(), |i: int| x[i] + y[i])
}

/// `a_i c_i^beta mod n2` for each index.
pub open spec fn fold_pair(a: Seq<nat>, c: Seq<nat>, beta: nat, n2: nat) -> Seq<nat> {
    Seq::new(a.len(), |i: int| (a[i] * pow_mod(c[i], beta, n2)) % n2)
}

/// A product of powers is reduced.
pub proof fn lemma_pow_prod_bound(n2: nat, bases: Seq<nat>, values: Seq<nat>)
    requires
        n2 > 1,
    ensures
        pow_prod(n2, bases, values) < n2,
    decreases bases.len(),
{
    if bases.len() > 0 {
        lemma_mod_bound(
            (pow_prod(n2, bases.drop_last(), values.drop_last()) * pow_mod(bases.last(), values.last(), n2)) as int,
            n2 as int,
        );
    }
}

/// The vector commitment is `h^r` times the product of powers.
pub proof fn lemma_vector_commit_as_prod(h: nat, n2: nat, bases: Seq<nat>, values: Seq<nat>, r: nat)
    requires
        n2 > 1,
    ensures
        vector_commit_spec(h, n2, bases, values, r) == (pow_mod(h, r, n2) * pow_prod(n2, bases, values)) % n2,
    decreases bases.len(),
{
    if bases.len() == 0 {
        crate::powmod::lemma_pow_mod_bound(h, r, n2);
        vstd::arithmetic::div_mod::lemma_small_mod(pow_mod(h, r, n2), n2);
        assert(pow_mod(h, r, n2) * 1 == pow_mod(h, r, n2));
    } else {
        lemma_vector_commit_as_prod(h, n2, bases.drop_last(), values.drop_last(), r);
        crate::cs_commit::lemma_mul_mod_assoc(
            pow_mod(h, r, n2),
            pow_prod(n2, bases.drop_last(), values.drop_last()),
            pow_mod(bases.last(), values.last(), n2),
            n2,
        );
    }
}

/// Products over concatenated vectors multiply.
pub proof fn lemma_pow_prod_concat(n2: nat, b1: Seq<nat>, x1: Seq<nat>, b2: Seq<nat>, x2: Seq<nat>)
    requires
        n2 > 1,
        b1.len() == x1.len(),
        b2.len() == x2.len(),
    ensures
        pow_prod(n2, b1 + b2, x1 + x2) == (pow_prod(n2, b1, x1) * pow_prod(n2, b2, x2)) % n2,
    decreases b2.len(),
{
    let p1 = pow_prod(n2, b1, x1);
    lemma_pow_prod_bound(n2, b1, x1);
    if b2.len() == 0 {
        assert(b1 + b2 =~= b1);
        assert(x1 + x2 =~= x1);
        vstd::arithmetic::div_mod::lemma_small_mod(p1, n2);
        assert(p1 * 1 == p1);
    } else {
        lemma_pow_prod_concat(n2, b1, x1, b2.drop_last(), x2.drop_last());
        assert((b1 + b2).drop_last() =~= b1 + b2.drop_last());
        assert((x1 + x2).drop_last() =~= x1 + x2.drop_last());
        assert((b1 + b2).last() == b2.last());
        assert((x1 + x2).last() == x2.last());
        crate::cs_commit::lemma_mul_mod_assoc(
            p1,
            pow_prod(n2, b2.drop_last(), x2.drop_last()),
            pow_mod(b2.last(), x2.last(), n2),
            n2,
        );
    }
}

/// A power of a product of powers scales the exponents.
pub proof fn lemma_pow_prod_pow(n2: nat, bases: Seq<nat>, values: Seq<nat>, c: nat)
    requires
        n2 > 1,
        bases.len() == values.len(),
    ensures
        pow_mod(pow_prod(n2, bases, values), c, n2) == pow_prod(n2, bases, scale_values(values, c)),
    decreases bases.len(),
{
    if bases.len() == 0 {
        vstd::arithmetic::power::lemma1_pow(c);
        vstd::arithmetic::div_mod::lemma_small_mod(1, n2);
    } else {
        let bl = bases.drop_last();
        let vl = values.drop_last();
        lemma_pow_prod_pow(n2, bl, vl, c);
        assert(scale_values(values, c).drop_last() =~= scale_values(vl, c));
        crate::powmod::lemma_pow_mod_product(pow_prod(n2, bl, vl), pow_mod(bases.last(), values.last(), n2), c, n2);
        crate::powmod::lemma_pow_mod_mul(bases.last(), values.last(), c, n2);
    }
}

/// Two products of powers over the same bases add their exponents.
pub proof fn lemma_pow_prod_add(n2: nat, bases: Seq<nat>, x: Seq<nat>, y: Seq<nat>)
    requires
        n2 > 1,
        bases.len() == x.len(),
        x.len() == y.len(),
    ensures
        (pow_prod(n2, bases, x) * pow_prod(n2, bases, y)) % n2 == pow_prod(n2, bases, add_values(x, y)),
    decreases bases.len(),
{
    if bases.len() == 0 {
        vstd::arithmetic::div_mod::lemma_small_mod(1, n2);
        assert(1nat * 1nat == 1nat);
    } else {
        let bl = bases.drop_last();
        lemma_pow_prod_add(n2, bl, x.drop_last(), y.drop_last());
        let a = pow_prod(n2, bl, x.drop_last());
        let b = pow_mod(bases.last(), x.last(), n2);
        let c = pow_prod(n2, bl, y.drop_last());
        let d = pow_mod(bases.last(), y.last(), n2);
        assert(pow_prod(n2, bases, x) == (a * b) % n2);
        assert(pow_prod(n2, bases, y) == (c * d) % n2);
        assert(pow_prod(n2, bases, add_values(x, y)) == (pow_prod(n2, bl, add_values(x, y).drop_last()) * pow_mod(
            bases.last(),
            add_values(x, y).last(),
            n2,
        )) % n2);
        assert(add_values(x, y).drop_last() =~= add_values(x.drop_last(), y.drop_last()));
        crate::cs_commit::lemma_mul4_mod(
            pow_prod(n2, bl, x.drop_last()),
            pow_mod(bases.last(), x.last(), n2),
            pow_prod(n2, bl, y.drop_last()),
            pow_mod(bases.last(), y.last(), n2),
            n2,
        );
        crate::powmod::lemma_pow_mod_add(bases.last(), x.last(), y.last(), n2);
        assert(add_values(x, y).last() == x.last() + y.last());
        assert(add_values(x, y).len() == bases.len());
    }
}

/// Zero exponents give the empty product.
pub proof fn lemma_pow_prod_zeros(n2: nat, bases: Seq<nat>, values: Seq<nat>)
    requires
        n2 > 1,
        bases.len() == values.len(),
        forall|i: int| 0 <= i < values.len() ==> values[i] == 0,
    ensures
        pow_prod(n2, bases, values) == 1,
    decreases bases.len(),
{
    if bases.len() > 0 {
        lemma_pow_prod_zeros(n2, bases.drop_last(), values.drop_last());
        vstd::arithmetic::power::lemma_pow0(bases.last() as int);
        vstd::arithmetic::div_mod::lemma_small_mod(1, n2);
        assert(values.last() == 0);
        assert(pow_mod(bases.last(), values.last(), n2) == 1);
        assert(1nat * 1nat == 1nat);
    }
}

/// A product over the folded bases `a_i c_i^beta` splits into a product
/// over `a` and one over `c` with the exponents scaled by `beta`.
#[verifier::spinoff_prover]
pub proof fn lemma_pow_prod_fold(n2: nat, a: Seq<nat>, c: Seq<nat>, x: Seq<nat>, beta: nat)
    requires
        n2 > 1,
        a.len() == c.len(),
        a.len() == x.len(),
    ensures
        pow_prod(n2, fold_pair(a, c, beta, n2), x) == (pow_prod(n2, a, x) * pow_prod(n2, c, scale_values(x, beta))) % n2,
    decreases a.len(),
{
    if a.len() == 0 {
        vstd::arithmetic::div_mod::lemma_small_mod(1, n2);
        assert(fold_pair(a, c, beta, n2).len() == 0);
        assert(scale_values(x, beta).len() == 0);
        assert(pow_prod(n2, fold_pair(a, c, beta, n2), x) == 1);
        assert(pow_prod(n2, a, x) == 1);
        assert(pow_prod(n2, c, scale_values(x, beta)) == 1);
        assert(1nat * 1nat == 1nat);
    } else {
        let al = a.drop_last();
        let cl = c.drop_last();
        let xl = x.drop_last();
        lemma_pow_prod_fold(n2, al, cl, xl, beta);
        assert(fold_pair(a, c, beta, n2).drop_last() =~= fold_pair(al, cl, beta, n2));
        assert(scale_values(x, beta).drop_last() =~= scale_values(xl, beta));
        let cb = pow_mod(c.last(), beta, n2);
        crate::powmod::lemma_pow_mod_product(a.last(), cb, x.last(), n2);
        crate::powmod::lemma_pow_mod_mul(c.last(), beta, x.last(), n2);
        crate::cs_commit::lemma_mul4_mod(
            pow_prod(n2, al, xl),
            pow_prod(n2, cl, scale_values(xl, beta)),
            pow_mod(a.last(), x.last(), n2),
            pow_mod(c.last(), beta * x.last(), n2),
            n2,
        );
        assert(beta * x.last() == x.last() * beta) by (nonlinear_arith);
        let f = fold_pair(a, c, beta, n2);
        let sv = scale_values(x, beta);
        assert(f.last() == (a.last() * cb) % n2);
        assert(sv.last() == x.last() * beta);
        assert(sv.drop_last() =~= scale_values(xl, beta));
        assert(pow_prod(n2, f, x) == (pow_prod(n2, f.drop_last(), xl) * pow_mod(f.last(), x.last(), n2)) % n2);
        assert(pow_prod(n2, a, x) == (pow_prod(n2, al, xl) * pow_mod(a.last(), x.last(), n2)) % n2);
        assert(pow_prod(n2, c, sv) == (pow_prod(n2, cl, sv.drop_last()) * pow_mod(c.last(), sv.last(), n2)) % n2);
        let al_x = pow_prod(n2, al, xl);
        let cl_x = pow_prod(n2, cl, scale_values(xl, beta));
        let pa = pow_mod(a.last(), x.last(), n2);
        let pc = pow_mod(c.last(), beta * x.last(), n2);
        assert(pow_prod(n2, f.drop_last(), xl) == (al_x * cl_x) % n2);
        assert(pow_mod(f.last(), x.last(), n2) == (pa * pc) % n2);
        assert(pow_prod(n2, c, sv) == (cl_x * pc) % n2);
        assert(pow_prod(n2, a, x) == (al_x * pa) % n2);
        assert(pow_prod(n2, f, x) == (((al_x * cl_x) % n2) * ((pa * pc) % n2)) % n2);
        assert(pow_prod(n2, f, x) == (pow_prod(n2, a, x) * pow_prod(n2, c, sv)) % n2);
    }
}

} // verus!
