//! The privacy-preserving blueprint: Setup, KeyGen (with PoKS1),
//! Escrow (with PoKS2), Dec (with PoKS3), VerPK, VerEscrow and Judge.
use crate::bignum::{
    be_bytes_value, big_add, big_eq, big_from_bytes_be, big_is_zero, big_lt, big_modpow, big_mul, big_rem, big_shl, big_sub,
    bit_len, pow_mod, random_below, random_bits, Int, Nat,
};
use crate::cs::{CsParams, cs_enc_spec, cs_homomorphic_add, cs_homomorphic_scalar_mul, ct_add, ct_scale, enc_cs_with_randomness, keygen_cs, CsCiphertext, CsPubKey};
use crate::cs_commit::{
    CsComCtProof,
    add_relation_ds,
    cs_enc_accepts,
    cs_com_accepts, cs_com_ct_accepts, cs_add_accepts, cs_mult_accepts, commit_bases_units, commitment_units, cs_add_fails, cs_mult_fails, cs_enc_fails, cs_com_ct_fails,
    apply_sign_spec,
    twice,
    sq_rhs, sq_rhs_exec,
    modpow_signed, prove_cs_add, prove_cs_enc, prove_cs_mult, setup_cs_commit, sign_pow_i8, signed_pow, signed_pow_ok,
    sign_pow_spec, verify_cs_add, verify_cs_com, verify_cs_com_ciphertext, verify_cs_enc, verify_cs_mult, CsAddProof,
    CsComProof, CsCommitOpening, CsCommitParams, CsCommitment, CsCommitmentWithOpening, CsEncProof, CsMultProof, pm_one,
};
use crate::df::{add_values, fold_pair, lemma_pow_prod_concat, lemma_pow_prod_fold, lemma_pow_prod_zeros, lemma_pow_prod_add, lemma_pow_prod_pow, lemma_pow_prod_bound, lemma_vector_commit_as_prod, pow_prod, scale_values, DfCommitment, bases_derivable, derived_bases, vector_commit_spec, commit_df, commit_df_with_opening, derive_df_vector_bases, commit_df_vector_with_bases, df_commit_spec, is_sampled_unit, nats, DfParams};
use crate::error::{verifier_error, CryptoError, CryptoResult};
use crate::hash::{challenge_of_vec, sha256, fiat_shamir_challenge_biguints, append_biguint_with_len, be_u64, challenge_of, concat_chunks, fiat_shamir_challenge, fs_transcript, push_all, push_be_u64, sha256_digest};
use crate::hec::{cs_dec_ok, cs_dec_value, hec_eval_spec, list_hit, expand_roots_spec, 
    hec_dec, hec_enc_with_mask, hec_eval, setup_hec, HecAuditData, HecEvalInput, HecEvalOutput, HecEvalRandomness,
    HecFunctionKey, HecParams, HecPublicPackage,
};
use crate::math::{is_abs_qr_sample, inv_mod, abs_qr_rep, abs_rep, derive_b_bits_from_n2, gcd, modinv, sample_unit_mod_n2, spec_gcd};
use crate::pok::{folded_eval, power_chain, rounds_for, pokp, com_ah_with_zero_randomness, df_params_from_ah, square_accepts, verify_mult, PoKStarRoundProof, alpha_fields_v, append_round_to_tau, df_open_accepts, fold_level, fs_alpha_for_pok_star, tau_append_view, tau_view, verify_df_open_public_scalar, unit_sign, copy_cts, ct_fields, pad_ones, push_nat, b2l_ok, b_plus_2lambda, derive_b_plus_2lambda, cts, CiphertextPolynomial, PoKAuxEntry, PoKPProof, PoKStarProof, PoKTranscript, PoKAuxOpeningEntry, aux_matches, find_round, lemma_find_round_index};
use crate::powmod::pair_pow;
use crate::log2::{is_power_of_two_usize, is_pow2, checked_next_power_of_two_usize, ilog2_usize, log2_floor, next_pow2};
use vstd::arithmetic::power2::pow2;
use vstd::prelude::*;

verus! {

/// Global parameters `Λ = (λ, cpar, hecpar)` and the fixed encryption key
/// `pk_sky` of the setup; `cpar` shares `n` and `n^2` with `hecpar`.
#[derive(Debug, Clone)]
pub struct PpbParams {
    pub lambda_bits: usize,
    pub cpar: DfParams,
    pub hecpar: HecParams,
    pub sky_pk: CsPubKey,
}

/// One folding round `(L_j, R_j)` of PoKS1.
#[derive(Debug, Clone, PartialEq, Eq)]
pub struct PpbS1FoldRound {
    pub l: Nat,
    pub r: Nat,
}

/// The final Σ-proof of PoKS1 after folding: commitments
/// `R_cx, R_cd, R_pk, R_u, R_v` and responses.
#[derive(Debug, Clone, PartialEq, Eq)]
pub struct PpbS1FinalProof {
    pub r_cx: Nat,
    pub r_cd: Nat,
    pub r_pk: Nat,
    pub r_u: Nat,
    pub r_v: Nat,
    pub z_x: Nat,
    pub z_rx: Nat,
    pub z_md: Nat,
    pub z_rd: Nat,
    pub z_sk: Nat,
    pub z_rho: Nat,
}

/// The authentication proof `pi_A` (PoKS1) of KeyGen.
#[derive(Debug, Clone, PartialEq, Eq)]
pub struct PpbAuthProof {
    pub rounds: Vec<PpbS1FoldRound>,
    pub final_proof: PpbS1FinalProof,
}

/// The public key `pk_A = (X, Cx, Cd, pi_A)` with the function key of
/// HECenc.
#[derive(Debug, Clone, PartialEq, Eq)]
pub struct PpbPublicKey {
    pub x_public: HecPublicPackage,
    pub fk: HecFunctionKey,
    pub c_x: Nat,
    pub c_d: Nat,
    pub pi_a: PpbAuthProof,
}

/// The secret key `sk_A = (pk_A, d, r_d)`.
#[derive(Debug, Clone)]
pub struct PpbSecretKey {
    pub pk_a: PpbPublicKey,
    pub d: HecAuditData,
    pub r_d: Nat,
}

/// The encryption, multiplication and addition proofs behind one `Z`
/// component, with the statement commitments they are checked against.
#[derive(Debug, Clone)]
pub struct PpbEncMulAddProof {
    pub c_enc: CsCommitment,
    pub c_mul: CsCommitment,
    pub pi_enc: CsEncProof,
    pub pi_mult: CsMultProof,
    pub pi_add: CsAddProof,
}

/// The relation `C_y == C_id * C_at mod n^2`, with the product kept.
#[derive(Debug, Clone)]
pub struct PpbYConsistencyProof {
    pub c_y_from_cid_cat: Nat,
    pub relation_holds: bool,
}

/// The user proof `pi_U` (PoKS2) of Escrow.
#[derive(Debug)]
pub struct PpbUserProof {
    pub ah_g: Nat,
    pub c_id: Nat,
    pub c_at: Nat,
    pub c_r1: Nat,
    pub c_r2: Nat,
    pub c_r3: Nat,
    pub pk_sky: CsPubKey,
    pub c_sky: CsCiphertext,
    pub pi_poly: PoKPProof,
    pub pi_nf: CsMultProof,
    pub pi_id: PpbEncMulAddProof,
    pub pi_at: PpbEncMulAddProof,
    pub pi_sky: CsEncProof,
    pub pi_y: PpbYConsistencyProof,
}

/// The Escrow output `(Ẑ, Cy, pi_U)`.
#[derive(Debug)]
pub struct PpbEscrowOutput {
    pub z_hat: HecEvalOutput,
    pub c_y: Nat,
    pub pi_u: PpbUserProof,
}

/// The decryption proof `pi_Z` (PoKS3).
#[derive(Debug, Clone, PartialEq, Eq)]
pub struct PpbDecProof {
    pub r_d_commitment: Nat,
    pub r_pk_commitment: Nat,
    pub r_z_id: Nat,
    pub r_z_at: Nat,
    pub r_z_nf: Nat,
    pub z_md: Int,
    pub z_rd: Int,
    pub z_sk: Int,
}

/// The Dec output `(z, pi_Z)`.
#[derive(Debug, Clone)]
pub struct PpbDecOutput {
    pub z: Option<HecEvalInput>,
    pub pi_z: PpbDecProof,
}

/// Setup(λ, S1, S2, S3): HEC parameters, commitment parameters `cpar`
/// sharing `n, n^2` with two fresh units `g, h`, and the fixed key `pk_sky`
/// (its secret key is dropped). The `S1..S3` arguments take no part.
pub fn setup_ppb<S1, S2, S3>(lambda_bits: usize, _s1: &S1, _s2: &S2, _s3: &S3) -> (r: CryptoResult<PpbParams>)
    ensures
        (lambda_bits < 32 || lambda_bits % 2 != 0) ==> r == Err::<PpbParams, CryptoError>(CryptoError::InvalidInput("RSA bits must be even and >= 32")),
        r matches Err(e) ==> ((e is InvalidInput) && (lambda_bits < 32 || lambda_bits % 2 != 0)) || e
            == CryptoError::PrimeGenerationFailed,
        r matches Ok(p) ==> {
            &&& p.lambda_bits == lambda_bits
            &&& p.cpar.n@ == p.hecpar.cs_params.n@ && p.cpar.n2@ == p.hecpar.cs_params.n2@
            &&& p.cpar.n2@ == p.cpar.n@ * p.cpar.n@
            &&& p.hecpar.cs_params.h@ == p.hecpar.cs_params.n@ + 1
            &&& is_sampled_unit(p.cpar.g@, p.cpar.n2@) && is_sampled_unit(p.cpar.h@, p.cpar.n2@)
            &&& exists|x: nat| 1 <= x < p.cpar.n2@ / 4 && p.sky_pk.k@ == #[trigger] abs_rep(pow_mod(p.hecpar.cs_params.g@, x, p.cpar.n2@), p.cpar.n2@)
        },
        r matches Ok(p) ==> ppb_params_units(p),
{
    let hecpar = match setup_hec(lambda_bits) {
        Ok(h) => h,
        Err(e) => return Err(e),
    };
    let n2 = &hecpar.cs_params.n2;
    proof {
        let n = hecpar.cs_params.n@;
        let (p, q) = choose|p: nat, q: nat| #![trigger bit_len(p), bit_len(q)] n == p * q && p != q && p % 4 == 3 && q % 4 == 3 && bit_len(p) == lambda_bits / 2 && bit_len(q) == lambda_bits / 2;
        assert(n >= 9 && n2@ >= 81) by (nonlinear_arith)
            requires
                n == p * q,
                p % 4 == 3,
                q % 4 == 3,
                n2@ == n * n,
        ;
    }
    let g = sample_unit_mod_n2(n2);
    let h = sample_unit_mod_n2(n2);
    let cpar = DfParams { n: hecpar.cs_params.n.copy(), n2: n2.copy(), g, h };
    let (sky_pk, _sky_sk) = match keygen_cs(&hecpar.cs_params) {
        Ok(v) => v,
        Err(e) => return Err(e),
    };
    let out = PpbParams { lambda_bits, cpar, hecpar, sky_pk };
    proof {
        let p = out.hecpar.cs_params;
        crate::cs::lemma_cs_setup_units(p, lambda_bits as nat);
        lemma_one_plus_n_unit(p.n@, p.n2@);
        crate::powmod::lemma_gcd_swap_reduced(out.cpar.g@, p.n2@);
        crate::powmod::lemma_gcd_swap_reduced(out.cpar.h@, p.n2@);
        lemma_abs_pow_unit(p.g@, _sky_sk.x@, p.n2@);
        assert(1 <= _sky_sk.x@ < out.cpar.n2@ / 4 && out.sky_pk.k@ == abs_rep(
            pow_mod(p.g@, _sky_sk.x@, out.cpar.n2@),
            out.cpar.n2@,
        ));
    }
    Ok(out)
}

/// The parameters' bases are units modulo `n^2 > 1`: `g, h` of `cpar`,
/// `g, h` of the encryption parameters and the setup's `pk_sky`.
pub open spec fn ppb_params_units(params: PpbParams) -> bool {
    let n2 = params.cpar.n2@;
    &&& n2 > 1
    &&& spec_gcd(n2, params.cpar.g@) == 1 && spec_gcd(n2, params.cpar.h@) == 1
    &&& spec_gcd(n2, params.hecpar.cs_params.g@) == 1 && spec_gcd(n2, params.hecpar.cs_params.h@) == 1
    &&& spec_gcd(n2, params.sky_pk.k@) == 1
}

/// A reduced value coprime to `n^2 > 1` is a unit of `[1, n^2)`.
proof fn lemma_unit_spec_of(v: nat, n2: nat)
    requires
        n2 > 1,
        v < n2,
        spec_gcd(n2, v) == 1,
    ensures
        is_unit_spec(v, n2),
{
    crate::powmod::lemma_gcd_swap_reduced(v, n2);
    if v == 0 {
        assert(spec_gcd(n2, 0) == n2);
    }
}

/// Horner evaluation of unit ciphertexts is a unit ciphertext.
proof fn lemma_horner_units(v: Seq<(nat, nat)>, y: nat, n2: nat)
    requires
        n2 > 1,
        crate::pok::cts_units(v, n2),
    ensures
        crate::pok::ct_units(crate::pok::horner(v, y, n2), n2),
    decreases v.len(),
{
    if v.len() == 0 {
        crate::powmod::lemma_coprime_one(n2);
    } else if v.len() == 1 {
        assert(crate::pok::ct_units(v[0], n2));
    } else {
        let rest = v.drop_first();
        assert forall|i: int| 0 <= i < rest.len() implies #[trigger] crate::pok::ct_units(rest[i], n2) by {
            assert(rest[i] == v[i + 1]);
        }
        lemma_horner_units(rest, y, n2);
        assert(crate::pok::ct_units(v[0], n2));
        crate::pok::lemma_ct_ops_units(v[0], crate::pok::horner(rest, y, n2), y, n2);
    }
}

/// A Camenisch-Shoup encryption under unit bases and a unit key is a unit
/// ciphertext.
proof fn lemma_enc_units(n: nat, n2: nat, g: nat, h: nat, k: nat, m: nat, r: nat)
    requires
        n2 > 1,
        spec_gcd(n2, g) == 1,
        spec_gcd(n2, h) == 1,
        spec_gcd(n2, k) == 1,
    ensures
        crate::pok::ct_units(cs_enc_spec(n, n2, g, h, k, m, r), n2),
{
    crate::powmod::lemma_coprime_pow(g, r % n, n2);
    crate::powmod::lemma_pow_mod_bound(g, r % n, n2);
    lemma_abs_rep_coprime(pow_mod(g, r % n, n2), n2);
    crate::powmod::lemma_coprime_pow(k, r % n, n2);
    crate::powmod::lemma_coprime_pow(h, m, n2);
    crate::powmod::lemma_coprime_mul(pow_mod(k, r % n, n2), pow_mod(h, m, n2), n2);
    vstd::arithmetic::div_mod::lemma_mod_bound((pow_mod(k, r % n, n2) * pow_mod(h, m, n2)) as int, n2 as int);
    lemma_abs_rep_coprime((pow_mod(k, r % n, n2) * pow_mod(h, m, n2)) % n2, n2);
}

/// A unit ciphertext lies in the group of VS3.
proof fn lemma_ct_in_group(c: (nat, nat), n2: nat)
    requires
        n2 > 1,
        crate::pok::ct_units(c, n2),
        c.0 < n2,
        c.1 < n2,
    ensures
        ct_in_group(c, n2),
{
    lemma_unit_spec_of(c.0, n2);
    lemma_unit_spec_of(c.1, n2);
}

/// An honest Escrow output lies in the group that VS3 asks for: under unit
/// parameters and a key whose encrypted coefficients are units (as key
/// generation gives, see `lemma_keygen_escrow_conds`), every component of
/// `Ẑ` is a unit ciphertext, so `poks3_group_ok` holds and the PoKS3 proof
/// that Dec makes is accepted.
pub proof fn lemma_escrow_group_ok(params: PpbParams, pk_a: PpbPublicKey, y: HecEvalInput, r_y: nat, out: PpbEscrowOutput)
    requires
        ppb_params_units(params),
        moduli_match(params),
        poks2_complete_conds(params, pk_a),
        escrow_output(params, pk_a, y, r_y, out),
    ensures
        poks3_group_ok(params, out.z_hat),
{
    let p = params.hecpar.cs_params;
    let n = p.n@;
    let n2 = p.n2@;
    let rz = choose|rz: HecEvalRandomness|
        #![trigger hec_eval_spec(params.hecpar.cs_params, pk_a.x_public, y, rz)]
        rz.rid@ + rz.rat@ == r_y % params.cpar.n@ && rz.r1@ < params.cpar.n@ && rz.r2@ < params.cpar.n@ && 0 < rz.r3@ < params.cpar.n@ && (
        out.z_hat.z_id@,
        out.z_hat.z_at@,
        out.z_hat.z_nf@,
    ) == hec_eval_spec(params.hecpar.cs_params, pk_a.x_public, y, rz) && out.c_y@ == df_commit_spec(
            params.cpar.g@,
            params.cpar.h@,
            params.cpar.n2@,
            (y.y_id@ % params.cpar.n@ + y.y_at@ % params.cpar.n@) % params.cpar.n@,
            r_y % params.cpar.n@,
        ) && poks2_statement_holds(params, pk_a, y, r_y % params.cpar.n@, rz, out.z_hat, out.c_y@) && poks2_user_output(
            params,
            pk_a,
            y,
            rz,
            out.c_y@,
            out.pi_u,
        );
    let cs = cts(pk_a.x_public.encrypted_coeffs@);
    let e = crate::pok::horner(cs, y.y_id@ % n, n2);
    let k = pk_a.x_public.pk_ah.k@;
    lemma_horner_units(cs, y.y_id@ % n, n2);
    lemma_enc_units(n, n2, p.g@, p.h@, k, y.y_id@ % n, rz.rid@ % n);
    lemma_enc_units(n, n2, p.g@, p.h@, k, y.y_at@ % n, rz.rat@ % n);
    crate::pok::lemma_ct_ops_units(cs_enc_spec(n, n2, p.g@, p.h@, k, y.y_id@ % n, rz.rid@ % n), e, rz.r1@ % n, n2);
    crate::pok::lemma_ct_ops_units(cs_enc_spec(n, n2, p.g@, p.h@, k, y.y_at@ % n, rz.rat@ % n), e, rz.r2@ % n, n2);
    crate::pok::lemma_ct_ops_units(cs_enc_spec(n, n2, p.g@, p.h@, k, y.y_at@ % n, rz.rat@ % n), e, rz.r3@ % n, n2);
    let z_id = ct_add(ct_scale(e, rz.r1@ % n, n2), cs_enc_spec(n, n2, p.g@, p.h@, k, y.y_id@ % n, rz.rid@ % n), n2);
    let z_at = ct_add(ct_scale(e, rz.r2@ % n, n2), cs_enc_spec(n, n2, p.g@, p.h@, k, y.y_at@ % n, rz.rat@ % n), n2);
    let z_nf = ct_scale(e, rz.r3@ % n, n2);
    assert(out.z_hat.z_id@ == z_id && out.z_hat.z_at@ == z_at && out.z_hat.z_nf@ == z_nf);
    // ct_add is commutative in its factors.
    assert(z_id.0 == (pow_mod(e.0, rz.r1@ % n, n2) * cs_enc_spec(n, n2, p.g@, p.h@, k, y.y_id@ % n, rz.rid@ % n).0) % n2);
    crate::powmod::lemma_coprime_mul(
        pow_mod(e.0, rz.r1@ % n, n2),
        cs_enc_spec(n, n2, p.g@, p.h@, k, y.y_id@ % n, rz.rid@ % n).0,
        n2,
    );
    crate::powmod::lemma_coprime_mul(
        pow_mod(e.1, rz.r1@ % n, n2),
        cs_enc_spec(n, n2, p.g@, p.h@, k, y.y_id@ % n, rz.rid@ % n).1,
        n2,
    );
    crate::powmod::lemma_coprime_mul(
        pow_mod(e.0, rz.r2@ % n, n2),
        cs_enc_spec(n, n2, p.g@, p.h@, k, y.y_at@ % n, rz.rat@ % n).0,
        n2,
    );
    crate::powmod::lemma_coprime_mul(
        pow_mod(e.1, rz.r2@ % n, n2),
        cs_enc_spec(n, n2, p.g@, p.h@, k, y.y_at@ % n, rz.rat@ % n).1,
        n2,
    );
    vstd::arithmetic::div_mod::lemma_mod_bound((pow_mod(e.0, rz.r1@ % n, n2) * cs_enc_spec(n, n2, p.g@, p.h@, k, y.y_id@ % n, rz.rid@ % n).0) as int, n2 as int);
    vstd::arithmetic::div_mod::lemma_mod_bound((pow_mod(e.1, rz.r1@ % n, n2) * cs_enc_spec(n, n2, p.g@, p.h@, k, y.y_id@ % n, rz.rid@ % n).1) as int, n2 as int);
    vstd::arithmetic::div_mod::lemma_mod_bound((pow_mod(e.0, rz.r2@ % n, n2) * cs_enc_spec(n, n2, p.g@, p.h@, k, y.y_at@ % n, rz.rat@ % n).0) as int, n2 as int);
    vstd::arithmetic::div_mod::lemma_mod_bound((pow_mod(e.1, rz.r2@ % n, n2) * cs_enc_spec(n, n2, p.g@, p.h@, k, y.y_at@ % n, rz.rat@ % n).1) as int, n2 as int);
    crate::powmod::lemma_pow_mod_bound(e.0, rz.r3@ % n, n2);
    crate::powmod::lemma_pow_mod_bound(e.1, rz.r3@ % n, n2);
    lemma_ct_in_group(z_id, n2);
    lemma_ct_in_group(z_at, n2);
    lemma_ct_in_group(z_nf, n2);
}

/// `1 + n` is a unit modulo `n^2`, with inverse `n^2 - n + 1`.
proof fn lemma_one_plus_n_unit(n: nat, n2: nat)
    requires
        n > 1,
        n2 == n * n,
    ensures
        spec_gcd(n2, n + 1) == 1,
{
    let i = (n2 - n + 1) as nat;
    assert(n2 > n) by (nonlinear_arith)
        requires
            n > 1,
            n2 == n * n,
    ;
    assert((n + 1) * i == n * n2 + 1) by (nonlinear_arith)
        requires
            n2 == n * n,
            i == n2 - n + 1,
    ;
    vstd::arithmetic::div_mod::lemma_mod_multiples_vanish(n as int, 1, n2 as int);
    vstd::arithmetic::div_mod::lemma_small_mod(1, n2);
    assert((n2 as int) * (n as int) + 1 == (n + 1) * i) by (nonlinear_arith)
        requires
            (n + 1) * i == n * n2 + 1,
    ;
    crate::math::lemma_inverse_gives_coprime((n + 1) as nat, i, n2);
}

/// `|g^x|` is a unit when `g` is.
pub proof fn lemma_abs_pow_unit(g: nat, x: nat, n2: nat)
    requires
        n2 > 1,
        spec_gcd(n2, g) == 1,
    ensures
        spec_gcd(n2, abs_rep(pow_mod(g, x, n2), n2)) == 1,
{
    crate::powmod::lemma_coprime_pow(g, x, n2);
    crate::powmod::lemma_pow_mod_bound(g, x, n2);
    lemma_abs_rep_coprime(pow_mod(g, x, n2), n2);
}

/// The absolute-value representative of a reduced unit is a unit.
proof fn lemma_abs_rep_coprime(z: nat, n2: nat)
    requires
        n2 > 1,
        z < n2,
        spec_gcd(n2, z) == 1,
    ensures
        spec_gcd(n2, abs_rep(z, n2)) == 1,
{
    crate::powmod::lemma_coprime_mod(z, n2);
    vstd::arithmetic::div_mod::lemma_small_mod(z, n2);
    if z > n2 / 2 {
        crate::powmod::lemma_coprime_neg(z, n2);
    }
}

/// KeyGen's keys meet the completeness conditions of Escrow under
/// parameters whose bases are units: `pkAH = |g^sk|` is a unit and so is
/// every component of the coefficient ciphertexts, which form the key's
/// polynomial.
pub proof fn lemma_keygen_escrow_conds(
    params: PpbParams,
    fk: HecFunctionKey,
    x: Seq<nat>,
    r_x: nat,
    s: nat,
    pk: PpbPublicKey,
    sk: PpbSecretKey,
)
    requires
        ppb_params_units(params),
        moduli_match(params),
        keygen_output(params, fk, x, r_x, s, pk, sk),
    ensures
        poks2_complete_conds(params, pk),
{
    let p = params.hecpar.cs_params;
    let n2 = params.cpar.n2@;
    let cs = cts(pk.x_public.encrypted_coeffs@);
    let coeffs = expand_roots_spec(x, s, p.n@);
    let k = pk.x_public.pk_ah.k@;
    lemma_abs_pow_unit(p.g@, sk.d.sk_e.x@, n2);
    let rhos = choose|rhos: Seq<nat>|
        rhos.len() == coeffs.len() && forall|i: int|
            0 <= i < cs.len() ==> 1 <= #[trigger] rhos[i] < p.n@ / 4 && cs[i] == cs_enc_spec(p.n@, p.n2@, p.g@, p.h@, k, coeffs[i], rhos[i]);
    assert forall|i: int| 0 <= i < cs.len() implies #[trigger] crate::pok::ct_units(cs[i], n2) by {
        let r = rhos[i] % p.n@;
        lemma_abs_pow_unit(p.g@, r, n2);
        crate::powmod::lemma_coprime_pow(k, r, n2);
        crate::powmod::lemma_coprime_pow(p.h@, coeffs[i], n2);
        crate::powmod::lemma_coprime_mul(pow_mod(k, r, n2), pow_mod(p.h@, coeffs[i], n2), n2);
        vstd::arithmetic::div_mod::lemma_mod_bound((pow_mod(k, r, n2) * pow_mod(p.h@, coeffs[i], n2)) as int, n2 as int);
        lemma_abs_rep_coprime((pow_mod(k, r, n2) * pow_mod(p.h@, coeffs[i], n2)) % n2, n2);
    }
}

/// Appends a `usize` to a byte transcript as eight big-endian bytes.
pub fn append_usize_as_u64(bytes: &mut Vec<u8>, value: usize)
    ensures
        final(bytes)@ == old(bytes)@ + be_u64(value as u64),
{
    push_be_u64(bytes, value as u64);
}

/// Whether two ciphertexts agree modulo `n^2`, component by component.
fn ciphertext_eq_mod_n2(left: &CsCiphertext, right: &CsCiphertext, n2: &Nat) -> (r: bool)
    requires
        n2@ > 0,
    ensures
        r == (left.c0@ % n2@ == right.c0@ % n2@ && left.c1@ % n2@ == right.c1@ % n2@),
{
    big_eq(&big_rem(&left.c0, n2), &big_rem(&right.c0, n2)) && big_eq(&big_rem(&left.c1, n2), &big_rem(&right.c1, n2))
}

/// The default DF randomness length of KeyGen, `B + lambda`.
fn derive_df_commit_randomness_bits(params: &PpbParams) -> (r: CryptoResult<usize>)
    ensures
        r is Ok <==> bit_len(params.cpar.n2@) >= 3 && bit_len(params.cpar.n2@) <= usize::MAX && bit_len(params.cpar.n2@) - 2
            + params.lambda_bits <= usize::MAX,
        r matches Ok(v) ==> v == bit_len(params.cpar.n2@) - 2 + params.lambda_bits,
        r matches Err(e) ==> e is InvalidInput,
{
    let b = match derive_b_bits_from_n2(&params.cpar.n2) {
        Ok(v) => v,
        Err(e) => return Err(e),
    };
    match b.checked_add(params.lambda_bits) {
        Some(v) => Ok(v),
        None => Err(CryptoError::InvalidInput("B+lambda overflow")),
    }
}

/// Each number of `x` reduced modulo `n`.
pub open spec fn reduced(x: Seq<nat>, n: nat) -> Seq<nat> {
    x.map_values(|v: nat| v % n)
}

/// The domain tag `PPB:DF:MSG:X:v1`.
pub open spec fn x_tag() -> Seq<u8> {
    seq![80u8, 80u8, 66u8, 58u8, 68u8, 70u8, 58u8, 77u8, 83u8, 71u8, 58u8, 88u8, 58u8, 118u8, 49u8]
}

/// The domain tag `PPB:DF:MSG:D:v1`.
pub open spec fn d_tag() -> Seq<u8> {
    seq![80u8, 80u8, 66u8, 58u8, 68u8, 70u8, 58u8, 77u8, 83u8, 71u8, 58u8, 68u8, 58u8, 118u8, 49u8]
}

/// The message of a list: the digest of `tag || len || enc(x_i mod n)...`
/// read as a number, reduced modulo `n`.
pub open spec fn x_message(x: Seq<nat>, n: nat) -> nat {
    be_bytes_value(sha256_digest(x_tag() + be_u64(x.len() as u64) + fs_transcript(reduced(x, n)))) % n
}

/// The message of an audit context: the digest of
/// `tag || enc(skE mod n) || fk.n || fk.k || len || enc(x_i mod n)...`
/// read as a number, reduced modulo `n`.
pub open spec fn d_message(sk: nat, fk: HecFunctionKey, x: Seq<nat>, n: nat) -> nat {
    be_bytes_value(
        sha256_digest(
            d_tag() + crate::hash::encode_with_len(sk % n) + be_u64(fk.n as u64) + be_u64(fk.k as u64) + be_u64(x.len() as u64)
                + fs_transcript(reduced(x, n)),
        ),
    ) % n
}

/// Appends the encodings of the residues of `x`.
fn append_reduced(transcript: &mut Vec<u8>, x: &[Nat], n: &Nat)
    requires
        n@ > 0,
    ensures
        final(transcript)@ == old(transcript)@ + fs_transcript(reduced(nats(x@), n@)),
{
    let ghost start = old(transcript)@;
    let mut i: usize = 0;
    while i < x.len()
        invariant
            n@ > 0,
            i <= x@.len(),
            transcript@ == start + fs_transcript(reduced(nats(x@).subrange(0, i as int), n@)),
        decreases x.len() - i,
    {
        let xi = big_rem(&x[i], n);
        append_biguint_with_len(transcript, &xi);
        proof {
            let prev = reduced(nats(x@).subrange(0, i as int), n@);
            let next = reduced(nats(x@).subrange(0, i + 1), n@);
            assert(next.drop_last() =~= prev);
            assert(next.last() == xi@);
        }
        i = i + 1;
    }
    proof {
        assert(nats(x@).subrange(0, x@.len() as int) =~= nats(x@));
    }
}

/// The SHA-256 digest of one byte string, read as a number modulo `n`.
fn digest_mod(transcript: &Vec<u8>, n: &Nat) -> (r: Nat)
    requires
        n@ > 0,
    ensures
        r@ == be_bytes_value(sha256_digest(transcript@)) % n@,
{
    let digest = sha256(transcript.as_slice());
    big_rem(&big_from_bytes_be(&digest), n)
}

/// Maps the list `x` to one DF message: a canonical serialisation of the
/// residues `x_i mod n` with a domain tag and the length, hashed and
/// reduced modulo `n`.
///
/// Fails when `n` is zero.
pub fn map_x_to_df_message(x: &[Nat], n: &Nat) -> (r: CryptoResult<Nat>)
    ensures
        r is Err <==> n@ == 0,
        r matches Err(e) ==> e is InvalidInput,
        r matches Ok(m) ==> m@ == x_message(nats(x@), n@),
{
    if big_is_zero(n) {
        return Err(CryptoError::InvalidInput("n must be non-zero"));
    }
    let tag: [u8; 15] = [80, 80, 66, 58, 68, 70, 58, 77, 83, 71, 58, 88, 58, 118, 49];
    let mut transcript: Vec<u8> = Vec::new();
    push_all(&mut transcript, &tag);
    append_usize_as_u64(&mut transcript, x.len());
    append_reduced(&mut transcript, x, n);
    proof {
        assert(tag@ =~= x_tag());
        assert(transcript@ =~= x_tag() + be_u64(x@.len() as u64) + fs_transcript(reduced(nats(x@), n@)));
    }
    Ok(digest_mod(&transcript, n))
}

/// Maps the audit context `d = (skE, fk, x)` to one DF message: the same
/// serialisation over `skE mod n`, `fk.n`, `fk.k`, the length and the
/// residues of the list.
///
/// Fails when `n` is zero.
pub fn map_d_to_df_message(d: &HecAuditData, n: &Nat) -> (r: CryptoResult<Nat>)
    ensures
        r is Err <==> n@ == 0,
        r matches Err(e) ==> e is InvalidInput,
        r matches Ok(m) ==> m@ == d_message(d.sk_e.x@, d.fk, nats(d.x@), n@),
{
    if big_is_zero(n) {
        return Err(CryptoError::InvalidInput("n must be non-zero"));
    }
    let tag: [u8; 15] = [80, 80, 66, 58, 68, 70, 58, 77, 83, 71, 58, 68, 58, 118, 49];
    let mut transcript: Vec<u8> = Vec::new();
    push_all(&mut transcript, &tag);
    append_biguint_with_len(&mut transcript, &big_rem(&d.sk_e.x, n));
    append_usize_as_u64(&mut transcript, d.fk.n);
    append_usize_as_u64(&mut transcript, d.fk.k);
    append_usize_as_u64(&mut transcript, d.x.len());
    append_reduced(&mut transcript, d.x.as_slice(), n);
    proof {
        assert(tag@ =~= d_tag());
        assert(transcript@ =~= d_tag() + crate::hash::encode_with_len(d.sk_e.x@ % n@) + be_u64(d.fk.n as u64) + be_u64(
            d.fk.k as u64,
        ) + be_u64(d.x@.len() as u64) + fs_transcript(reduced(nats(d.x@), n@)));
    }
    Ok(digest_mod(&transcript, n))
}

/// Maps `y = (y_id, y_at)` to the DF message `(y_id + y_at) mod n`, so
/// that `C_y = C_id * C_at` when `r_y = r_id + r_at`.
///
/// Fails when `n` is zero.
pub fn map_y_to_df_message(y: &HecEvalInput, n: &Nat) -> (r: CryptoResult<Nat>)
    ensures
        r is Err <==> n@ == 0,
        r matches Err(e) ==> e is InvalidInput,
        r matches Ok(m) ==> m@ == (y.y_id@ % n@ + y.y_at@ % n@) % n@,
{
    if big_is_zero(n) {
        return Err(CryptoError::InvalidInput("n must be non-zero"));
    }
    Ok(big_rem(&big_add(&big_rem(&y.y_id, n), &big_rem(&y.y_at, n)), n))
}


/// `g^a h^b mod m`, computed.
fn pair_pow_exec(g: &Nat, h: &Nat, a: &Nat, b: &Nat, m: &Nat) -> (r: Nat)
    requires
        m@ > 0,
    ensures
        r@ == pair_pow(g@, h@, a@, b@, m@),
{
    big_rem(&big_mul(&big_modpow(g, a, m), &big_modpow(h, b, m)), m)
}

/// Twice a number.
fn double(x: &Nat) -> (r: Nat)
    ensures
        r@ == 2 * x@,
{
    big_mul(&Nat::from_u64(2), x)
}

/// The blinding length `B + 2 lambda` of PoKS1 and PoKS3.
fn derive_poks1_blinding_bits(params: &PpbParams) -> (r: CryptoResult<usize>)
    ensures
        r is Ok <==> b2l_ok(params.cpar.n2@, params.lambda_bits as nat),
        r matches Ok(v) ==> v == b_plus_2lambda(params.cpar.n2@, params.lambda_bits as nat),
        r matches Err(e) ==> e is InvalidInput,
{
    derive_b_plus_2lambda(&params.cpar.n2, params.lambda_bits)
}

// ---------------------------------------------------------------------------
// PoKS1: the final Σ-proof after folding.
// ---------------------------------------------------------------------------

/// The fields hashed for the final PoKS1 challenge: the public parameters,
/// `pkAH`, `Cx`, `Cd`, the folded `C*`, `g*`, `A*` and the five first-move
/// commitments.
pub open spec fn s1_final_fields(
    params: PpbParams,
    pk_k: nat,
    c_x: nat,
    c_d: nat,
    c_star: nat,
    g_star: nat,
    a_star: (nat, nat),
    proof: PpbS1FinalProof,
) -> Seq<nat> {
    seq![
        params.cpar.n@,
        params.cpar.n2@,
        params.cpar.g@,
        params.cpar.h@,
        params.hecpar.cs_params.g@,
        params.hecpar.cs_params.h@,
        pk_k,
        c_x,
        c_d,
        c_star,
        g_star,
        a_star.0,
        a_star.1,
        proof.r_cx@,
        proof.r_cd@,
        proof.r_pk@,
        proof.r_u@,
        proof.r_v@,
    ]
}

/// The final PoKS1 challenge.
pub open spec fn s1_final_challenge(
    params: PpbParams,
    pk_k: nat,
    c_x: nat,
    c_d: nat,
    c_star: nat,
    g_star: nat,
    a_star: (nat, nat),
    proof: PpbS1FinalProof,
) -> nat {
    challenge_of(s1_final_fields(params, pk_k, c_x, c_d, c_star, g_star, a_star, proof))
}

/// The final PoKS1 equations, all squared, modulo `n^2`:
/// `C* = g*^x h^rx`, `Cd = g^md h^rd`, `pkAH = g_cs^sk`,
/// `A*.c0 = g_cs^rho` and `A*.c1 = pkAH^rho h_cs^x`; the first-move
/// commitments must be reduced.
pub open spec fn s1_final_accepts(
    params: PpbParams,
    pk_k: nat,
    c_x: nat,
    c_d: nat,
    c_star: nat,
    g_star: nat,
    a_star: (nat, nat),
    proof: PpbS1FinalProof,
) -> bool {
    let n2 = params.cpar.n2@;
    let e = s1_final_challenge(params, pk_k, c_x, c_d, c_star, g_star, a_star, proof);
    let g = params.cpar.g@;
    let h = params.cpar.h@;
    let hg = params.hecpar.cs_params.g@;
    let hh = params.hecpar.cs_params.h@;
    &&& proof.r_cx@ < n2 && proof.r_cd@ < n2 && proof.r_pk@ < n2 && proof.r_u@ < n2 && proof.r_v@ < n2
    &&& pair_pow(g_star, h, 2 * proof.z_x@, 2 * proof.z_rx@, n2) == sq_rhs(proof.r_cx@, c_star, e, n2)
    &&& pair_pow(g, h, 2 * proof.z_md@, 2 * proof.z_rd@, n2) == sq_rhs(proof.r_cd@, c_d, e, n2)
    &&& pow_mod(hg, 2 * proof.z_sk@, n2) == sq_rhs(proof.r_pk@, pk_k, e, n2)
    &&& pow_mod(hg, 2 * proof.z_rho@, n2) == sq_rhs(proof.r_u@, a_star.0, e, n2)
    &&& pair_pow(pk_k, hh, 2 * proof.z_rho@, 2 * proof.z_x@, n2) == sq_rhs(proof.r_v@, a_star.1, e, n2)
}

/// What the final PoKS1 prover outputs for the witnesses `w0..w5`, that is
/// `(x, r_x, m_d, r_d, sk, rho)`: blinders below `2^bits`, the first-move
/// commitments from them, and responses `z = k + e w`.
pub open spec fn s1_final_prover_output(
    params: PpbParams,
    pk_k: nat,
    c_x: nat,
    c_d: nat,
    c_star: nat,
    g_star: nat,
    a_star: (nat, nat),
    w0: nat,
    w1: nat,
    w2: nat,
    w3: nat,
    w4: nat,
    w5: nat,
    bits: nat,
    proof: PpbS1FinalProof,
) -> bool {
    let n2 = params.cpar.n2@;
    let g = params.cpar.g@;
    let h = params.cpar.h@;
    let hg = params.hecpar.cs_params.g@;
    let hh = params.hecpar.cs_params.h@;
    exists|kx: nat, krx: nat, kmd: nat, krd: nat, ksk: nat, krho: nat|
        #![trigger pair_pow(g_star, h, kx, krx, n2), pair_pow(g, h, kmd, krd, n2), pow_mod(hg, ksk, n2), pow_mod(hg, krho, n2)]
        kx < pow2(bits) && krx < pow2(bits) && kmd < pow2(bits) && krd < pow2(bits) && ksk < pow2(bits) && krho < pow2(bits)
            && proof.r_cx@ == pair_pow(g_star, h, kx, krx, n2) && proof.r_cd@ == pair_pow(g, h, kmd, krd, n2)
            && proof.r_pk@ == pow_mod(hg, ksk, n2) && proof.r_u@ == pow_mod(hg, krho, n2) && proof.r_v@ == pair_pow(
            pk_k,
            hh,
            krho,
            kx,
            n2,
        ) && {
            let e = s1_final_challenge(params, pk_k, c_x, c_d, c_star, g_star, a_star, proof);
            &&& proof.z_x@ == kx + e * w0
            &&& proof.z_rx@ == krx + e * w1
            &&& proof.z_md@ == kmd + e * w2
            &&& proof.z_rd@ == krd + e * w3
            &&& proof.z_sk@ == ksk + e * w4
            &&& proof.z_rho@ == krho + e * w5
        }
}

/// The final PoKS1 challenge, computed.
fn fs_challenge_for_s1_final(
    params: &PpbParams,
    pk: &CsPubKey,
    c_x: &Nat,
    c_d: &Nat,
    c_star: &Nat,
    g_star: &Nat,
    a_star: &CsCiphertext,
    proof: &PpbS1FinalProof,
) -> (e: Nat)
    ensures
        e@ == s1_final_challenge(*params, pk.k@, c_x@, c_d@, c_star@, g_star@, a_star@, *proof),
{
    let vals: [&Nat; 18] = [
        &params.cpar.n,
        &params.cpar.n2,
        &params.cpar.g,
        &params.cpar.h,
        &params.hecpar.cs_params.g,
        &params.hecpar.cs_params.h,
        &pk.k,
        c_x,
        c_d,
        c_star,
        g_star,
        &a_star.c0,
        &a_star.c1,
        &proof.r_cx,
        &proof.r_cd,
        &proof.r_pk,
        &proof.r_u,
        &proof.r_v,
    ];
    proof {
        assert(vals@.map_values(|v: &Nat| v@) =~= s1_final_fields(*params, pk.k@, c_x@, c_d@, c_star@, g_star@, a_star@, *proof));
    }
    fiat_shamir_challenge_biguints(&vals)
}

/// The final PoKS1 proof for the folded statement `(C*, g*, A*)`: blinders
/// below `2^(B + 2 lambda)`, the first-move commitments
/// `R_cx = g*^kx h^krx`, `R_cd = g^kmd h^krd`, `R_pk = g_cs^ksk`,
/// `R_u = g_cs^krho`, `R_v = pkAH^krho h_cs^kx`, and responses
/// `z = k + e w`. The witnesses are not checked here.
///
/// Fails when the blinding length cannot be derived or `n^2` is zero.
fn build_s1_final_proof(
    params: &PpbParams,
    pk: &CsPubKey,
    c_x: &Nat,
    c_d: &Nat,
    c_star: &Nat,
    g_star: &Nat,
    a_star: &CsCiphertext,
    x_star: &Nat,
    r_x_star: &Nat,
    m_d: &Nat,
    r_d: &Nat,
    sk: &Nat,
    rho_star: &Nat,
) -> (r: CryptoResult<PpbS1FinalProof>)
    ensures
        r is Ok <==> b2l_ok(params.cpar.n2@, params.lambda_bits as nat) && params.cpar.n2@ > 0,
        r matches Err(e) ==> e is InvalidInput,
        r matches Ok(p) ==> s1_final_prover_output(
            *params,
            pk.k@,
            c_x@,
            c_d@,
            c_star@,
            g_star@,
            a_star@,
            x_star@,
            r_x_star@,
            m_d@,
            r_d@,
            sk@,
            rho_star@,
            b_plus_2lambda(params.cpar.n2@, params.lambda_bits as nat) as nat,
            p,
        ),
{
    let blind_bits = match derive_poks1_blinding_bits(params) {
        Ok(v) => v,
        Err(e) => return Err(e),
    };
    if big_is_zero(&params.cpar.n2) {
        return Err(CryptoError::InvalidInput("n^2 must be non-zero"));
    }
    let n2 = &params.cpar.n2;
    let k_x = random_bits(blind_bits);
    let k_rx = random_bits(blind_bits);
    let k_md = random_bits(blind_bits);
    let k_rd = random_bits(blind_bits);
    let k_sk = random_bits(blind_bits);
    let k_rho = random_bits(blind_bits);
    let r_cx = pair_pow_exec(g_star, &params.cpar.h, &k_x, &k_rx, n2);
    let r_cd = pair_pow_exec(&params.cpar.g, &params.cpar.h, &k_md, &k_rd, n2);
    let r_pk = big_modpow(&params.hecpar.cs_params.g, &k_sk, n2);
    let r_u = big_modpow(&params.hecpar.cs_params.g, &k_rho, n2);
    let r_v = pair_pow_exec(&pk.k, &params.hecpar.cs_params.h, &k_rho, &k_x, n2);
    let commitments = PpbS1FinalProof {
        r_cx,
        r_cd,
        r_pk,
        r_u,
        r_v,
        z_x: Nat::zero(),
        z_rx: Nat::zero(),
        z_md: Nat::zero(),
        z_rd: Nat::zero(),
        z_sk: Nat::zero(),
        z_rho: Nat::zero(),
    };
    let e = fs_challenge_for_s1_final(params, pk, c_x, c_d, c_star, g_star, a_star, &commitments);
    let proof = PpbS1FinalProof {
        r_cx: commitments.r_cx,
        r_cd: commitments.r_cd,
        r_pk: commitments.r_pk,
        r_u: commitments.r_u,
        r_v: commitments.r_v,
        z_x: big_add(&k_x, &big_mul(&e, x_star)),
        z_rx: big_add(&k_rx, &big_mul(&e, r_x_star)),
        z_md: big_add(&k_md, &big_mul(&e, m_d)),
        z_rd: big_add(&k_rd, &big_mul(&e, r_d)),
        z_sk: big_add(&k_sk, &big_mul(&e, sk)),
        z_rho: big_add(&k_rho, &big_mul(&e, rho_star)),
    };
    proof {
        assert(s1_final_fields(*params, pk.k@, c_x@, c_d@, c_star@, g_star@, a_star@, proof) =~= s1_final_fields(
            *params,
            pk.k@,
            c_x@,
            c_d@,
            c_star@,
            g_star@,
            a_star@,
            commitments,
        ));
        let hg = params.hecpar.cs_params.g@;
        assert(pow_mod(hg, k_sk@, n2@) == proof.r_pk@ && pow_mod(hg, k_rho@, n2@) == proof.r_u@);
    }
    Ok(proof)
}

/// Checks the final PoKS1 proof: recomputes the challenge and checks the
/// five squared equations of `s1_final_accepts`.
///
/// Fails when `n^2` is zero.
fn verify_s1_final_proof(
    params: &PpbParams,
    pk: &CsPubKey,
    c_x: &Nat,
    c_d: &Nat,
    c_star: &Nat,
    g_star: &Nat,
    a_star: &CsCiphertext,
    proof: &PpbS1FinalProof,
) -> (r: CryptoResult<bool>)
    ensures
        r is Err <==> params.cpar.n2@ == 0,
        r matches Err(e) ==> e is InvalidInput,
        r matches Ok(b) ==> b == s1_final_accepts(*params, pk.k@, c_x@, c_d@, c_star@, g_star@, a_star@, *proof),
        r == Ok::<bool, CryptoError>(true) ==> ({
            let n2 = (*params).cpar.n2@;
            let e = s1_final_challenge((*params), pk.k@, c_x@, c_d@, c_star@, g_star@, a_star@, (*proof));
            let g = (*params).cpar.g@;
            let h = (*params).cpar.h@;
            let hg = (*params).hecpar.cs_params.g@;
            let hh = (*params).hecpar.cs_params.h@;
            &&& (pow_mod(g_star@, 2 * (*proof).z_x@, n2) * pow_mod(h, 2 * (*proof).z_rx@, n2)) % n2 == (pow_mod((*proof).r_cx@, 2, n2) * pow_mod(c_star@, 2 * e, n2)) % n2
            &&& (pow_mod(g, 2 * (*proof).z_md@, n2) * pow_mod(h, 2 * (*proof).z_rd@, n2)) % n2 == (pow_mod((*proof).r_cd@, 2, n2) * pow_mod(c_d@, 2 * e, n2)) % n2
            &&& pow_mod(hg, 2 * (*proof).z_sk@, n2) == (pow_mod((*proof).r_pk@, 2, n2) * pow_mod(pk.k@, 2 * e, n2)) % n2
            &&& pow_mod(hg, 2 * (*proof).z_rho@, n2) == (pow_mod((*proof).r_u@, 2, n2) * pow_mod(a_star@.0, 2 * e, n2)) % n2
            &&& (pow_mod(pk.k@, 2 * (*proof).z_rho@, n2) * pow_mod(hh, 2 * (*proof).z_x@, n2)) % n2 == (pow_mod((*proof).r_v@, 2, n2) * pow_mod(a_star@.1, 2 * e, n2)) % n2
        }),
{
    if big_is_zero(&params.cpar.n2) {
        return Err(CryptoError::InvalidInput("n^2 must be non-zero"));
    }
    let n2 = &params.cpar.n2;
    if !big_lt(&proof.r_cx, n2) || !big_lt(&proof.r_cd, n2) || !big_lt(&proof.r_pk, n2) || !big_lt(&proof.r_u, n2)
        || !big_lt(&proof.r_v, n2) {
        return Ok(false);
    }
    let e = fs_challenge_for_s1_final(params, pk, c_x, c_d, c_star, g_star, a_star, proof);
    let hg = &params.hecpar.cs_params.g;
    let lhs_cx = pair_pow_exec(g_star, &params.cpar.h, &double(&proof.z_x), &double(&proof.z_rx), n2);
    let rhs_cx = sq_rhs_exec(&proof.r_cx, c_star, &e, n2);
    let lhs_cd = pair_pow_exec(&params.cpar.g, &params.cpar.h, &double(&proof.z_md), &double(&proof.z_rd), n2);
    let rhs_cd = sq_rhs_exec(&proof.r_cd, c_d, &e, n2);
    let lhs_pk = big_modpow(hg, &double(&proof.z_sk), n2);
    let rhs_pk = sq_rhs_exec(&proof.r_pk, &pk.k, &e, n2);
    let lhs_u = big_modpow(hg, &double(&proof.z_rho), n2);
    let rhs_u = sq_rhs_exec(&proof.r_u, &a_star.c0, &e, n2);
    let lhs_v = pair_pow_exec(&pk.k, &params.hecpar.cs_params.h, &double(&proof.z_rho), &double(&proof.z_x), n2);
    let rhs_v = sq_rhs_exec(&proof.r_v, &a_star.c1, &e, n2);
    Ok(big_eq(&lhs_cx, &rhs_cx) && big_eq(&lhs_cd, &rhs_cd) && big_eq(&lhs_pk, &rhs_pk) && big_eq(&lhs_u, &rhs_u)
        && big_eq(&lhs_v, &rhs_v))
}


/// Soundness of the final PoKS1 check: an accepted final proof satisfies
/// all five squared equations; in particular `g_cs^(2 z_sk) == R_pk^2
/// pkAH^(2e)`, which pins `pkAH` to the response `z_sk`.
pub proof fn lemma_s1_final_accepted_equations(
    params: PpbParams,
    pk_k: nat,
    c_x: nat,
    c_d: nat,
    c_star: nat,
    g_star: nat,
    a_star: (nat, nat),
    proof: PpbS1FinalProof,
)
    requires
        s1_final_accepts(params, pk_k, c_x, c_d, c_star, g_star, a_star, proof),
    ensures
        proof.r_cx@ < params.cpar.n2@ && proof.r_cd@ < params.cpar.n2@ && proof.r_pk@ < params.cpar.n2@
            && proof.r_u@ < params.cpar.n2@ && proof.r_v@ < params.cpar.n2@,
        ({
            let n2 = params.cpar.n2@;
            let e = s1_final_challenge(params, pk_k, c_x, c_d, c_star, g_star, a_star, proof);
            let g = params.cpar.g@;
            let h = params.cpar.h@;
            let hg = params.hecpar.cs_params.g@;
            let hh = params.hecpar.cs_params.h@;
            &&& (pow_mod(g_star, 2 * proof.z_x@, n2) * pow_mod(h, 2 * proof.z_rx@, n2)) % n2 == (pow_mod(proof.r_cx@, 2, n2) * pow_mod(c_star, 2 * e, n2)) % n2
            &&& (pow_mod(g, 2 * proof.z_md@, n2) * pow_mod(h, 2 * proof.z_rd@, n2)) % n2 == (pow_mod(proof.r_cd@, 2, n2) * pow_mod(c_d, 2 * e, n2)) % n2
            &&& pow_mod(hg, 2 * proof.z_sk@, n2) == (pow_mod(proof.r_pk@, 2, n2) * pow_mod(pk_k, 2 * e, n2)) % n2
            &&& pow_mod(hg, 2 * proof.z_rho@, n2) == (pow_mod(proof.r_u@, 2, n2) * pow_mod(a_star.0, 2 * e, n2)) % n2
            &&& (pow_mod(pk_k, 2 * proof.z_rho@, n2) * pow_mod(hh, 2 * proof.z_x@, n2)) % n2 == (pow_mod(proof.r_v@, 2, n2) * pow_mod(a_star.1, 2 * e, n2)) % n2
        }),
{
}

/// The witnesses `w = (x, rx, md, rd, sk, rho)` satisfy the final PoKS1
/// statement, the Camenisch-Shoup values up to sign:
/// `C* = g*^x h^rx`, `Cd = g^md h^rd`, `pkAH^2 = g_cs^(2 sk)`,
/// `A*.c0^2 = g_cs^(2 rho)` and `A*.c1^2 = (pkAH^rho h_cs^x)^2`.
pub open spec fn s1_final_witness_holds(
    params: PpbParams,
    pk_k: nat,
    c_d: nat,
    c_star: nat,
    g_star: nat,
    a_star: (nat, nat),
    w: (nat, nat, nat, nat, nat, nat),
) -> bool {
    let n2 = params.cpar.n2@;
    let hg = params.hecpar.cs_params.g@;
    &&& c_star == pair_pow(g_star, params.cpar.h@, w.0, w.1, n2)
    &&& c_d == pair_pow(params.cpar.g@, params.cpar.h@, w.2, w.3, n2)
    &&& pow_mod(pk_k, 2, n2) == pow_mod(hg, 2 * w.4, n2)
    &&& pow_mod(a_star.0, 2, n2) == pow_mod(hg, 2 * w.5, n2)
    &&& pow_mod(a_star.1, 2, n2) == pow_mod(pair_pow(pk_k, params.hecpar.cs_params.h@, w.5, w.0, n2), 2, n2)
}

/// One squared two-base equation holds for honest responses:
/// `c^2 = (g^a h^b)^2`, `R = g^ka h^kb`, `z = k + e w` give
/// `g^(2 za) h^(2 zb) == R^2 c^(2e)`.
proof fn lemma_pair_equation(g: nat, h: nat, a: nat, b: nat, ka: nat, kb: nat, e: nat, za: nat, zb: nat, c: nat, big_r: nat, m: nat)
    requires
        m > 0,
        pow_mod(c, 2, m) == pow_mod(pair_pow(g, h, a, b, m), 2, m),
        big_r == pair_pow(g, h, ka, kb, m),
        za == ka + e * a,
        zb == kb + e * b,
    ensures
        pair_pow(g, h, 2 * za, 2 * zb, m) == sq_rhs(big_r, c, e, m),
{
    crate::powmod::lemma_pow_mod_mul(c, 2, e, m);
    crate::powmod::lemma_pow_mod_mul(pair_pow(g, h, a, b, m), 2, e, m);
    crate::powmod::lemma_pair_pow_pow(g, h, a, b, 2 * e, m);
    crate::powmod::lemma_pair_pow_pow(g, h, ka, kb, 2, m);
    crate::powmod::lemma_pair_pow_mul(g, h, ka * 2, kb * 2, a * (2 * e), b * (2 * e), m);
    assert(2 * za == ka * 2 + a * (2 * e)) by (nonlinear_arith)
        requires
            za == ka + e * a,
    ;
    assert(2 * zb == kb * 2 + b * (2 * e)) by (nonlinear_arith)
        requires
            zb == kb + e * b,
    ;
}

/// One squared single-base equation holds for honest responses:
/// `c^2 = g^(2w)`, `R = g^k`, `z = k + e w` give `g^(2z) == R^2 c^(2e)`.
proof fn lemma_single_equation(g: nat, w: nat, k: nat, e: nat, z: nat, c: nat, big_r: nat, m: nat)
    requires
        m > 0,
        pow_mod(c, 2, m) == pow_mod(g, 2 * w, m),
        big_r == pow_mod(g, k, m),
        z == k + e * w,
    ensures
        pow_mod(g, 2 * z, m) == sq_rhs(big_r, c, e, m),
{
    crate::powmod::lemma_pow_mod_mul(c, 2, e, m);
    crate::powmod::lemma_pow_mod_mul(g, 2 * w, e, m);
    crate::powmod::lemma_pow_mod_mul(g, k, 2, m);
    crate::powmod::lemma_pow_mod_add(g, k * 2, (2 * w) * e, m);
    assert(2 * z == k * 2 + (2 * w) * e) by (nonlinear_arith)
        requires
            z == k + e * w,
    ;
}

/// Completeness of the final PoKS1 proof: honest responses for witnesses
/// of the folded statement pass every check of the verifier.
pub proof fn lemma_s1_final_complete(
    params: PpbParams,
    pk_k: nat,
    c_x: nat,
    c_d: nat,
    c_star: nat,
    g_star: nat,
    a_star: (nat, nat),
    w: (nat, nat, nat, nat, nat, nat),
    bits: nat,
    proof: PpbS1FinalProof,
)
    requires
        params.cpar.n2@ > 0,
        s1_final_witness_holds(params, pk_k, c_d, c_star, g_star, a_star, w),
        s1_final_prover_output(params, pk_k, c_x, c_d, c_star, g_star, a_star, w.0, w.1, w.2, w.3, w.4, w.5, bits, proof),
    ensures
        s1_final_accepts(params, pk_k, c_x, c_d, c_star, g_star, a_star, proof),
{
    let n2 = params.cpar.n2@;
    let g = params.cpar.g@;
    let h = params.cpar.h@;
    let hg = params.hecpar.cs_params.g@;
    let hh = params.hecpar.cs_params.h@;
    let (kx, krx, kmd, krd, ksk, krho) = choose|kx: nat, krx: nat, kmd: nat, krd: nat, ksk: nat, krho: nat|
        #![trigger pair_pow(g_star, h, kx, krx, n2), pair_pow(g, h, kmd, krd, n2), pow_mod(hg, ksk, n2), pow_mod(hg, krho, n2)]
        kx < pow2(bits) && krx < pow2(bits) && kmd < pow2(bits) && krd < pow2(bits) && ksk < pow2(bits) && krho < pow2(bits)
            && proof.r_cx@ == pair_pow(g_star, h, kx, krx, n2) && proof.r_cd@ == pair_pow(g, h, kmd, krd, n2)
            && proof.r_pk@ == pow_mod(hg, ksk, n2) && proof.r_u@ == pow_mod(hg, krho, n2) && proof.r_v@ == pair_pow(
            pk_k,
            hh,
            krho,
            kx,
            n2,
        ) && {
            let e = s1_final_challenge(params, pk_k, c_x, c_d, c_star, g_star, a_star, proof);
            &&& proof.z_x@ == kx + e * w.0
            &&& proof.z_rx@ == krx + e * w.1
            &&& proof.z_md@ == kmd + e * w.2
            &&& proof.z_rd@ == krd + e * w.3
            &&& proof.z_sk@ == ksk + e * w.4
            &&& proof.z_rho@ == krho + e * w.5
        };
    let e = s1_final_challenge(params, pk_k, c_x, c_d, c_star, g_star, a_star, proof);
    crate::powmod::lemma_pair_pow_bound(g_star, h, kx, krx, n2);
    crate::powmod::lemma_pair_pow_bound(g, h, kmd, krd, n2);
    crate::powmod::lemma_pair_pow_bound(pk_k, hh, krho, kx, n2);
    crate::powmod::lemma_pow_mod_bound(hg, ksk, n2);
    crate::powmod::lemma_pow_mod_bound(hg, krho, n2);
    lemma_pair_equation(g_star, h, w.0, w.1, kx, krx, e, proof.z_x@, proof.z_rx@, c_star, proof.r_cx@, n2);
    lemma_pair_equation(g, h, w.2, w.3, kmd, krd, e, proof.z_md@, proof.z_rd@, c_d, proof.r_cd@, n2);
    lemma_single_equation(hg, w.4, ksk, e, proof.z_sk@, pk_k, proof.r_pk@, n2);
    lemma_single_equation(hg, w.5, krho, e, proof.z_rho@, a_star.0, proof.r_u@, n2);
    lemma_pair_equation(pk_k, hh, w.5, w.0, krho, kx, e, proof.z_rho@, proof.z_x@, a_star.1, proof.r_v@, n2);
}


// ---------------------------------------------------------------------------
// PoKS1: logarithmic folding.
// ---------------------------------------------------------------------------

/// `raw mod n`, with zero replaced by one.
pub open spec fn nonzero_mod(raw: nat, n: nat) -> nat {
    if raw % n == 0 {
        1
    } else {
        raw % n
    }
}

/// Reduces a Fiat-Shamir output to a non-zero challenge of `Z_n` (zero,
/// a negligible event, becomes one so that a fold never drops a half).
fn nonzero_challenge_mod_n(raw: Nat, n: &Nat) -> (r: Nat)
    requires
        n@ > 0,
    ensures
        r@ == nonzero_mod(raw@, n@),
{
    let c = big_rem(&raw, n);
    if big_is_zero(&c) {
        Nat::one()
    } else {
        c
    }
}

/// The fields hashed for a folding round: the public parameters, `pkAH`,
/// `Cx`, `Cd`, the current commitment, the number of bases, the bases, the
/// ciphertexts component by component, and `(L_j, R_j)`.
pub open spec fn s1_round_fields(
    params: PpbParams,
    pk_k: nat,
    c_x: nat,
    c_d: nat,
    cur: nat,
    bases: Seq<nat>,
    cs: Seq<(nat, nat)>,
    l: nat,
    r: nat,
) -> Seq<nat> {
    seq![
        params.cpar.n@,
        params.cpar.n2@,
        params.cpar.g@,
        params.cpar.h@,
        params.hecpar.cs_params.g@,
        params.hecpar.cs_params.h@,
        pk_k,
        c_x,
        c_d,
        cur,
        bases.len(),
    ] + bases + ct_fields(cs) + seq![l, r]
}

/// The folding challenge `beta` of a round, a non-zero element of `Z_n`.
pub open spec fn s1_round_challenge(
    params: PpbParams,
    pk_k: nat,
    c_x: nat,
    c_d: nat,
    cur: nat,
    bases: Seq<nat>,
    cs: Seq<(nat, nat)>,
    l: nat,
    r: nat,
) -> nat {
    nonzero_mod(challenge_of(s1_round_fields(params, pk_k, c_x, c_d, cur, bases, cs, l, r)), params.cpar.n@)
}

/// The folding challenge of a round, computed.
fn fs_challenge_for_s1_round(
    params: &PpbParams,
    pk: &CsPubKey,
    c_x: &Nat,
    c_d: &Nat,
    current_c: &Nat,
    bases: &[Nat],
    ciphertexts: &[CsCiphertext],
    l: &Nat,
    r: &Nat,
) -> (beta: Nat)
    requires
        params.cpar.n@ > 0,
    ensures
        beta@ == s1_round_challenge(*params, pk.k@, c_x@, c_d@, current_c@, nats(bases@), cts(ciphertexts@), l@, r@),
{
    let mut fields: Vec<Nat> = Vec::new();
    push_nat(&mut fields, &params.cpar.n);
    push_nat(&mut fields, &params.cpar.n2);
    push_nat(&mut fields, &params.cpar.g);
    push_nat(&mut fields, &params.cpar.h);
    push_nat(&mut fields, &params.hecpar.cs_params.g);
    push_nat(&mut fields, &params.hecpar.cs_params.h);
    push_nat(&mut fields, &pk.k);
    push_nat(&mut fields, c_x);
    push_nat(&mut fields, c_d);
    push_nat(&mut fields, current_c);
    let len_nat = Nat::from_u64(bases.len() as u64);
    push_nat(&mut fields, &len_nat);
    let ghost head = nats(fields@);
    proof {
        assert(head =~= seq![
            params.cpar.n@,
            params.cpar.n2@,
            params.cpar.g@,
            params.cpar.h@,
            params.hecpar.cs_params.g@,
            params.hecpar.cs_params.h@,
            pk.k@,
            c_x@,
            c_d@,
            current_c@,
            nats(bases@).len(),
        ]);
    }
    let mut i: usize = 0;
    while i < bases.len()
        invariant
            i <= bases@.len(),
            nats(fields@) == head + nats(bases@).subrange(0, i as int),
        decreases bases.len() - i,
    {
        push_nat(&mut fields, &bases[i]);
        proof {
            assert(nats(fields@) =~= head + nats(bases@).subrange(0, i + 1));
        }
        i = i + 1;
    }
    proof {
        assert(nats(bases@).subrange(0, bases@.len() as int) =~= nats(bases@));
    }
    let ghost mid = nats(fields@);
    let mut j: usize = 0;
    while j < ciphertexts.len()
        invariant
            j <= ciphertexts@.len(),
            nats(fields@) == mid + ct_fields(cts(ciphertexts@).subrange(0, j as int)),
        decreases ciphertexts.len() - j,
    {
        push_nat(&mut fields, &ciphertexts[j].c0);
        push_nat(&mut fields, &ciphertexts[j].c1);
        proof {
            let nxt = cts(ciphertexts@).subrange(0, j + 1);
            assert(nxt.drop_last() =~= cts(ciphertexts@).subrange(0, j as int));
            assert(nats(fields@) =~= mid + ct_fields(nxt));
        }
        j = j + 1;
    }
    proof {
        assert(cts(ciphertexts@).subrange(0, ciphertexts@.len() as int) =~= cts(ciphertexts@));
    }
    push_nat(&mut fields, l);
    push_nat(&mut fields, r);
    proof {
        assert(nats(fields@) =~= s1_round_fields(*params, pk.k@, c_x@, c_d@, current_c@, nats(bases@), cts(ciphertexts@), l@, r@));
    }
    let raw = challenge_of_vec(&fields);
    nonzero_challenge_mod_n(raw, &params.cpar.n)
}

/// One folding of the bases: `g'_i = g_i * g_{i+m/2}^beta mod n^2`.
pub open spec fn fold_bases(bases: Seq<nat>, beta: nat, n2: nat) -> Seq<nat> {
    Seq::new(bases.len() / 2, |i: int| (bases[i] * pow_mod(bases[i + bases.len() / 2], beta, n2)) % n2)
}

/// One folding of the ciphertexts: `A'_i = (beta (.) A_i) (+) A_{i+m/2}`.
pub open spec fn fold_cts(cs: Seq<(nat, nat)>, beta: nat, n2: nat) -> Seq<(nat, nat)> {
    Seq::new(cs.len() / 2, |i: int| ct_add(ct_scale(cs[i], beta, n2), cs[i + cs.len() / 2], n2))
}

/// The next folded commitment `C' = C^beta L^(beta^2) R mod n^2`.
pub open spec fn fold_commitment(c: nat, l: nat, r: nat, beta: nat, n2: nat) -> nat {
    ((pow_mod(c, beta, n2) * pow_mod(l, beta * beta, n2)) * r) % n2
}

/// A ciphertext carries the values `(x, rho)` up to sign:
/// `c0^2 == g_cs^(2 rho)` and `c1^2 == (pkAH^rho h_cs^x)^2` modulo `n^2`.
pub open spec fn ct_carries(params: PpbParams, pk_k: nat, c: (nat, nat), x: nat, rho: nat) -> bool {
    let n2 = params.cpar.n2@;
    let hg = params.hecpar.cs_params.g@;
    let hh = params.hecpar.cs_params.h@;
    &&& pow_mod(c.0, 2, n2) == pow_mod(hg, 2 * rho, n2)
    &&& pow_mod(c.1, 2, n2) == pow_mod(pair_pow(pk_k, hh, rho, x, n2), 2, n2)
}

/// Folding two ciphertexts folds what they carry:
/// `(beta (.) A) (+) B` carries `(beta x + x', beta rho + rho')`.
proof fn lemma_ct_fold_carries(params: PpbParams, pk_k: nat, a: (nat, nat), x: nat, rho: nat, b: (nat, nat), y: nat, sigma: nat, beta: nat)
    requires
        params.cpar.n2@ > 1,
        ct_carries(params, pk_k, a, x, rho),
        ct_carries(params, pk_k, b, y, sigma),
    ensures
        ct_carries(params, pk_k, ct_add(ct_scale(a, beta, params.cpar.n2@), b, params.cpar.n2@), beta * x + y, beta * rho + sigma),
{
    let n2 = params.cpar.n2@;
    let hg = params.hecpar.cs_params.g@;
    let hh = params.hecpar.cs_params.h@;
    // First component.
    crate::powmod::lemma_pow_mod_product(pow_mod(a.0, beta, n2), b.0, 2, n2);
    crate::powmod::lemma_pow_mod_mul(a.0, beta, 2, n2);
    crate::powmod::lemma_pow_mod_mul(a.0, 2, beta, n2);
    crate::powmod::lemma_pow_mod_mul(hg, 2 * rho, beta, n2);
    crate::powmod::lemma_pow_mod_add(hg, (2 * rho) * beta, 2 * sigma, n2);
    assert(beta * 2 == 2 * beta);
    assert((2 * rho) * beta + 2 * sigma == 2 * (beta * rho + sigma)) by (nonlinear_arith);
    // Second component.
    let pa = pair_pow(pk_k, hh, rho, x, n2);
    let pb = pair_pow(pk_k, hh, sigma, y, n2);
    crate::powmod::lemma_pow_mod_product(pow_mod(a.1, beta, n2), b.1, 2, n2);
    crate::powmod::lemma_pow_mod_mul(a.1, beta, 2, n2);
    crate::powmod::lemma_pow_mod_mul(a.1, 2, beta, n2);
    crate::powmod::lemma_pow_mod_mul(pa, 2, beta, n2);
    crate::powmod::lemma_pair_pow_pow(pk_k, hh, rho, x, 2 * beta, n2);
    crate::powmod::lemma_pair_pow_pow(pk_k, hh, sigma, y, 2, n2);
    crate::powmod::lemma_pair_pow_mul(pk_k, hh, rho * (2 * beta), x * (2 * beta), sigma * 2, y * 2, n2);
    crate::powmod::lemma_pair_pow_pow(pk_k, hh, beta * rho + sigma, beta * x + y, 2, n2);
    assert(rho * (2 * beta) + sigma * 2 == (beta * rho + sigma) * 2) by (nonlinear_arith);
    assert(x * (2 * beta) + y * 2 == (beta * x + y) * 2) by (nonlinear_arith);
}

/// A fresh encryption with randomness below `n` carries its message and
/// randomness.
proof fn lemma_enc_carries(params: PpbParams, pk_k: nat, x: nat, rho: nat)
    requires
        moduli_match(params),
        params.cpar.n2@ > 1,
        rho < params.cpar.n@,
    ensures
        ({
            let p = params.hecpar.cs_params;
            ct_carries(params, pk_k, cs_enc_spec(p.n@, p.n2@, p.g@, p.h@, pk_k, x, rho), x, rho)
        }),
{
    let p = params.hecpar.cs_params;
    let n2 = p.n2@;
    vstd::arithmetic::div_mod::lemma_small_mod(rho, p.n@);
    let a = pow_mod(p.g@, rho, n2);
    crate::powmod::lemma_pow_mod_bound(p.g@, rho, n2);
    crate::cs::lemma_abs_even_pow(a, 1, n2);
    crate::powmod::lemma_pow_mod_mul(p.g@, rho, 2, n2);
    assert(rho * 2 == 2 * rho);
    let z = (pow_mod(pk_k, rho, n2) * pow_mod(p.h@, x, n2)) % n2;
    vstd::arithmetic::div_mod::lemma_mod_bound((pow_mod(pk_k, rho, n2) * pow_mod(p.h@, x, n2)) as int, n2 as int);
    crate::cs::lemma_abs_even_pow(z, 1, n2);
}

/// The padding ciphertext `(1, 1)` carries `(0, 0)`.
proof fn lemma_padding_carries(params: PpbParams, pk_k: nat)
    requires
        params.cpar.n2@ > 1,
    ensures
        ct_carries(params, pk_k, (1nat, 1nat), 0, 0),
{
    let n2 = params.cpar.n2@;
    vstd::arithmetic::power::lemma_pow0(params.hecpar.cs_params.g@ as int);
    vstd::arithmetic::power::lemma_pow0(pk_k as int);
    vstd::arithmetic::power::lemma_pow0(params.hecpar.cs_params.h@ as int);
    vstd::arithmetic::power::lemma1_pow(2);
    vstd::arithmetic::div_mod::lemma_small_mod(1, n2);
    assert(pow_mod(pk_k, 0, n2) == 1);
    assert(pow_mod(params.hecpar.cs_params.h@, 0, n2) == 1);
    assert(1nat * 1nat == 1nat);
    assert(pair_pow(pk_k, params.hecpar.cs_params.h@, 0, 0, n2) == 1);
}

/// The PoKS1 statement is canonical: `n^2 > 1`, the ciphertexts are
/// reduced modulo `n^2`, and every randomness `rho_i` is below `n`.
pub open spec fn poks1_canonical(params: PpbParams, cs: Seq<(nat, nat)>, rhos: Seq<nat>) -> bool {
    &&& params.cpar.n2@ > 1
    &&& rhos.len() == cs.len()
    &&& forall|i: int|
        0 <= i < cs.len() ==> (#[trigger] cs[i]).0 < params.cpar.n2@ && cs[i].1 < params.cpar.n2@ && rhos[i] < params.cpar.n@
}

/// The prover's folding state `(C, bases, ciphertexts)` is explained by the
/// values, the randomness and the opening: `C = h^rx prod bases^values`
/// and each ciphertext carries its value and randomness.
pub open spec fn s1_state_holds(
    params: PpbParams,
    k: nat,
    cur: nat,
    bases: Seq<nat>,
    cs: Seq<(nat, nat)>,
    values: Seq<nat>,
    rhos: Seq<nat>,
    rx: nat,
) -> bool {
    &&& bases.len() == values.len() && cs.len() == values.len() && rhos.len() == values.len()
    &&& cur == vector_commit_spec(params.cpar.h@, params.cpar.n2@, bases, values, rx)
    &&& forall|i: int| 0 <= i < cs.len() ==> ct_carries(params, k, #[trigger] cs[i], values[i], rhos[i])
}

/// One folding round keeps the state explained, with the folded values,
/// randomness and opening `beta rx + beta^2 lambda + mu`.
proof fn lemma_s1_state_fold(
    params: PpbParams,
    k: nat,
    cur: nat,
    bases: Seq<nat>,
    cs: Seq<(nat, nat)>,
    values: Seq<nat>,
    rhos: Seq<nat>,
    rx: nat,
    lambda: nat,
    mu: nat,
    beta: nat,
)
    requires
        params.cpar.n2@ > 1,
        s1_state_holds(params, k, cur, bases, cs, values, rhos, rx),
        bases.len() % 2 == 0,
    ensures
        ({
            let n2 = params.cpar.n2@;
            let h = params.cpar.h@;
            let m = bases.len() as int;
            let half = m / 2;
            let l = vector_commit_spec(h, n2, bases.subrange(half, m), values.subrange(0, half), lambda);
            let r = vector_commit_spec(h, n2, bases.subrange(0, half), values.subrange(half, m), mu);
            s1_state_holds(
                params,
                k,
                fold_commitment(cur, l, r, beta, n2),
                fold_bases(bases, beta, n2),
                fold_cts(cs, beta, n2),
                fold_values(values, beta),
                fold_values(rhos, beta),
                beta * rx + beta * beta * lambda + mu,
            )
        }),
{
    let n2 = params.cpar.n2@;
    let half = bases.len() / 2;
    lemma_fold_vector_commit(params.cpar.h@, n2, bases, values, rx, lambda, mu, beta);
    let fc = fold_cts(cs, beta, n2);
    let fv = fold_values(values, beta);
    let fr = fold_values(rhos, beta);
    assert forall|i: int| 0 <= i < fc.len() implies ct_carries(params, k, #[trigger] fc[i], fv[i], fr[i]) by {
        assert(ct_carries(params, k, cs[i], values[i], rhos[i]));
        assert(ct_carries(params, k, cs[i + half], values[i + half], rhos[i + half]));
        lemma_ct_fold_carries(params, k, cs[i], values[i], rhos[i], cs[i + half], values[i + half], rhos[i + half], beta);
    }
}

/// `n` zeros.
pub open spec fn zeros(n: nat) -> Seq<nat> {
    Seq::new(n, |i: int| 0nat)
}

/// The PoKS1 prover starts from an explained state: `Cx` over the derived
/// bases of the padded length with the values padded with zeros, and the
/// ciphertexts padded with `(1, 1)`.
proof fn lemma_s1_state_initial(
    params: PpbParams,
    k: nat,
    cs: Seq<(nat, nat)>,
    coeffs: Seq<nat>,
    rhos: Seq<nat>,
    c_x: nat,
    r_x: nat,
    padded: nat,
)
    requires
        moduli_match(params),
        poks1_canonical(params, cs, rhos),
        coeffs.len() == cs.len(),
        cs.len() <= padded,
        c_x == vector_commit_spec(params.cpar.h@, params.cpar.n2@, s1_bases(params, coeffs.len()), coeffs, r_x),
        forall|i: int|
            0 <= i < cs.len() ==> coeffs[i] < params.hecpar.cs_params.n@ && #[trigger] ct_mod(
                cs_enc_spec(
                    params.hecpar.cs_params.n@,
                    params.hecpar.cs_params.n2@,
                    params.hecpar.cs_params.g@,
                    params.hecpar.cs_params.h@,
                    k,
                    coeffs[i],
                    rhos[i],
                ),
                params.cpar.n2@,
            ) == ct_mod(cs[i], params.cpar.n2@),
    ensures
        s1_state_holds(
            params,
            k,
            c_x,
            s1_bases(params, padded),
            pad_ones(cs, padded),
            coeffs + zeros((padded - coeffs.len()) as nat),
            rhos + zeros((padded - coeffs.len()) as nat),
            r_x,
        ),
{
    let n2 = params.cpar.n2@;
    let h = params.cpar.h@;
    let len = coeffs.len();
    let extra = (padded - len) as nat;
    let b1 = s1_bases(params, len);
    let b2 = s1_bases(params, padded).subrange(len as int, padded as int);
    assert(s1_bases(params, padded) =~= b1 + b2);
    let z = zeros(extra);
    lemma_vector_commit_as_prod(h, n2, b1 + b2, coeffs + z, r_x);
    lemma_vector_commit_as_prod(h, n2, b1, coeffs, r_x);
    lemma_pow_prod_concat(n2, b1, coeffs, b2, z);
    lemma_pow_prod_zeros(n2, b2, z);
    lemma_pow_prod_bound(n2, b1, coeffs);
    vstd::arithmetic::div_mod::lemma_small_mod(pow_prod(n2, b1, coeffs), n2);
    assert(pow_prod(n2, b1, coeffs) * 1 == pow_prod(n2, b1, coeffs));
    let pc = pad_ones(cs, padded);
    let pv = coeffs + z;
    let pr = rhos + z;
    assert forall|i: int| 0 <= i < pc.len() implies ct_carries(params, k, #[trigger] pc[i], pv[i], pr[i]) by {
        if i < len {
            let p = params.hecpar.cs_params;
            let c = cs_enc_spec(p.n@, p.n2@, p.g@, p.h@, k, coeffs[i], rhos[i]);
            assert(ct_mod(c, n2) == ct_mod(cs[i], n2));
            lemma_enc_carries(params, k, coeffs[i], rhos[i]);
            lemma_abs_rep_bound(pow_mod(p.g@, rhos[i] % p.n@, n2), n2);
            crate::powmod::lemma_pow_mod_bound(p.g@, rhos[i] % p.n@, n2);
            vstd::arithmetic::div_mod::lemma_mod_bound((pow_mod(k, rhos[i] % p.n@, n2) * pow_mod(p.h@, coeffs[i], n2)) as int, n2 as int);
            lemma_abs_rep_bound((pow_mod(k, rhos[i] % p.n@, n2) * pow_mod(p.h@, coeffs[i], n2)) % n2, n2);
            vstd::arithmetic::div_mod::lemma_small_mod(c.0, n2);
            vstd::arithmetic::div_mod::lemma_small_mod(c.1, n2);
            vstd::arithmetic::div_mod::lemma_small_mod(cs[i].0, n2);
            vstd::arithmetic::div_mod::lemma_small_mod(cs[i].1, n2);
            assert(pc[i] == c);
        } else {
            lemma_padding_carries(params, k);
            assert(pc[i] == (1nat, 1nat));
            assert(pv[i] == 0 && pr[i] == 0);
        }
    }
}

/// The absolute-value representative of a reduced value is reduced.
proof fn lemma_abs_rep_bound(y: nat, n2: nat)
    requires
        y < n2,
    ensures
        abs_rep(y, n2) < n2,
{
}

/// The final state of the PoKS1 prover is explained, so the honest final
/// proof there is accepted.
proof fn lemma_s1_state_final(
    params: PpbParams,
    k: nat,
    c_x: nat,
    c_d: nat,
    cur: nat,
    bases: Seq<nat>,
    cs: Seq<(nat, nat)>,
    values: Seq<nat>,
    rhos: Seq<nat>,
    rx: nat,
    m_d: nat,
    r_d: nat,
    sk: nat,
    bits: nat,
    fp: PpbS1FinalProof,
)
    requires
        params.cpar.n2@ > 1,
        moduli_match(params),
        bases.len() == 1,
        s1_state_holds(params, k, cur, bases, cs, values, rhos, rx),
        c_d == df_commit_spec(params.cpar.g@, params.cpar.h@, params.cpar.n2@, m_d, r_d),
        k == abs_rep(pow_mod(params.hecpar.cs_params.g@, sk, params.cpar.n2@), params.cpar.n2@),
        s1_final_prover_output(params, k, c_x, c_d, cur, bases[0], cs[0], values[0], rx, m_d, r_d, sk, rhos[0], bits, fp),
    ensures
        s1_final_accepts(params, k, c_x, c_d, cur, bases[0], cs[0], fp),
{
    let n2 = params.cpar.n2@;
    let h = params.cpar.h@;
    let hg = params.hecpar.cs_params.g@;
    assert(bases.drop_last().len() == 0);
    assert(vector_commit_spec(h, n2, bases.drop_last(), values.drop_last(), rx) == pow_mod(h, rx, n2));
    assert(bases.last() == bases[0] && values.last() == values[0]);
    assert(cur == (pow_mod(h, rx, n2) * pow_mod(bases[0], values[0], n2)) % n2);
    assert(pow_mod(h, rx, n2) * pow_mod(bases[0], values[0], n2) == pow_mod(bases[0], values[0], n2) * pow_mod(h, rx, n2)) by (nonlinear_arith);
    let gx = pow_mod(hg, sk, n2);
    crate::powmod::lemma_pow_mod_bound(hg, sk, n2);
    crate::cs::lemma_abs_even_pow(gx, 1, n2);
    crate::powmod::lemma_pow_mod_mul(hg, sk, 2, n2);
    assert(sk * 2 == 2 * sk);
    assert(ct_carries(params, k, cs[0], values[0], rhos[0]));
    let w = (values[0], rx, m_d, r_d, sk, rhos[0]);
    assert(s1_final_witness_holds(params, k, c_d, cur, bases[0], cs[0], w));
    lemma_s1_final_complete(params, k, c_x, c_d, cur, bases[0], cs[0], w, bits, fp);
}

/// One folding of the values: `x'_i = beta x_i + x_{i+m/2}`.
pub open spec fn fold_values(values: Seq<nat>, beta: nat) -> Seq<nat> {
    Seq::new(values.len() / 2, |i: int| beta * values[i] + values[i + values.len() / 2])
}

/// `h^a prod_i b_i^(x_i) mod n2`.
pub open spec fn h_pow_prod(h: nat, n2: nat, bases: Seq<nat>, a: nat, x: Seq<nat>) -> nat {
    (pow_mod(h, a, n2) * pow_prod(n2, bases, x)) % n2
}

/// Products of `h^a prod b^x` over the same bases add the exponents.
proof fn lemma_h_pow_prod_mul(h: nat, n2: nat, bases: Seq<nat>, a: nat, x: Seq<nat>, b: nat, y: Seq<nat>)
    requires
        n2 > 1,
        bases.len() == x.len(),
        x.len() == y.len(),
    ensures
        (h_pow_prod(h, n2, bases, a, x) * h_pow_prod(h, n2, bases, b, y)) % n2 == h_pow_prod(h, n2, bases, a + b, add_values(x, y)),
{
    crate::cs_commit::lemma_mul4_mod(pow_mod(h, a, n2), pow_prod(n2, bases, x), pow_mod(h, b, n2), pow_prod(n2, bases, y), n2);
    crate::powmod::lemma_pow_mod_add(h, a, b, n2);
    lemma_pow_prod_add(n2, bases, x, y);
}

/// A power of `h^a prod b^x` scales every exponent.
proof fn lemma_h_pow_prod_pow(h: nat, n2: nat, bases: Seq<nat>, a: nat, x: Seq<nat>, c: nat)
    requires
        n2 > 1,
        bases.len() == x.len(),
    ensures
        pow_mod(h_pow_prod(h, n2, bases, a, x), c, n2) == h_pow_prod(h, n2, bases, a * c, scale_values(x, c)),
{
    crate::powmod::lemma_pow_mod_product(pow_mod(h, a, n2), pow_prod(n2, bases, x), c, n2);
    crate::powmod::lemma_pow_mod_mul(h, a, c, n2);
    lemma_pow_prod_pow(n2, bases, x, c);
}

/// Folding the commitment with the cross commitments
/// `L = h^lambda prod_i g_{i+m/2}^(x_i)` and `R = h^mu prod_i g_i^(x_{i+m/2})`
/// gives the commitment to the folded values under the folded bases:
/// `C^beta L^(beta^2) R == h^(beta r + beta^2 lambda + mu) prod g'_i^(x'_i)`.
pub proof fn lemma_fold_vector_commit(
    h: nat,
    n2: nat,
    bases: Seq<nat>,
    values: Seq<nat>,
    r: nat,
    lambda: nat,
    mu: nat,
    beta: nat,
)
    requires
        n2 > 1,
        bases.len() == values.len(),
        bases.len() % 2 == 0,
    ensures
        ({
            let m = bases.len() as int;
            let half = m / 2;
            let c = vector_commit_spec(h, n2, bases, values, r);
            let l = vector_commit_spec(h, n2, bases.subrange(half, m), values.subrange(0, half), lambda);
            let rr = vector_commit_spec(h, n2, bases.subrange(0, half), values.subrange(half, m), mu);
            fold_commitment(c, l, rr, beta, n2) == vector_commit_spec(
                h,
                n2,
                fold_bases(bases, beta, n2),
                fold_values(values, beta),
                beta * r + beta * beta * lambda + mu,
            )
        }),
{
    let m = bases.len() as int;
    let half = m / 2;
    let bl = bases.subrange(0, half);
    let br = bases.subrange(half, m);
    let xl = values.subrange(0, half);
    let xr = values.subrange(half, m);
    assert(bl + br =~= bases);
    let z = Seq::new(half as nat, |i: int| 0nat);
    let c = vector_commit_spec(h, n2, bases, values, r);
    let l = vector_commit_spec(h, n2, br, xl, lambda);
    let rr = vector_commit_spec(h, n2, bl, xr, mu);
    // The three commitments as `h^a prod b^x` over all the bases.
    lemma_vector_commit_as_prod(h, n2, bases, values, r);
    assert(c == h_pow_prod(h, n2, bases, r, values));
    let xl_full = z + xl;
    assert(l == h_pow_prod(h, n2, bases, lambda, xl_full)) by {
        lemma_vector_commit_as_prod(h, n2, br, xl, lambda);
        lemma_pow_prod_concat(n2, bl, z, br, xl);
        lemma_pow_prod_zeros(n2, bl, z);
        lemma_pow_prod_bound(n2, br, xl);
        vstd::arithmetic::div_mod::lemma_small_mod(pow_prod(n2, br, xl), n2);
        assert(1 * pow_prod(n2, br, xl) == pow_prod(n2, br, xl));
    }
    let xr_full = xr + z;
    assert(rr == h_pow_prod(h, n2, bases, mu, xr_full)) by {
        lemma_vector_commit_as_prod(h, n2, bl, xr, mu);
        lemma_pow_prod_concat(n2, bl, xr, br, z);
        lemma_pow_prod_zeros(n2, br, z);
        lemma_pow_prod_bound(n2, bl, xr);
        vstd::arithmetic::div_mod::lemma_small_mod(pow_prod(n2, bl, xr), n2);
        assert(pow_prod(n2, bl, xr) * 1 == pow_prod(n2, bl, xr));
    }
    // The left side of the fold.
    let bb = beta * beta;
    let sc = scale_values(values, beta);
    let sl = scale_values(xl_full, bb);
    lemma_h_pow_prod_pow(h, n2, bases, r, values, beta);
    lemma_h_pow_prod_pow(h, n2, bases, lambda, xl_full, bb);
    let pa = h_pow_prod(h, n2, bases, r * beta, sc);
    let pb = h_pow_prod(h, n2, bases, lambda * bb, sl);
    vstd::arithmetic::div_mod::lemma_mul_mod_noop_left((pa * pb) as int, rr as int, n2 as int);
    lemma_h_pow_prod_mul(h, n2, bases, r * beta, sc, lambda * bb, sl);
    let sum1 = add_values(sc, sl);
    lemma_h_pow_prod_mul(h, n2, bases, r * beta + lambda * bb, sum1, mu, xr_full);
    let lhs_exp = add_values(sum1, xr_full);
    assert(fold_commitment(c, l, rr, beta, n2) == h_pow_prod(h, n2, bases, r * beta + lambda * bb + mu, lhs_exp));
    // The right side: a product over the folded bases.
    let fx = fold_values(values, beta);
    let fb = fold_bases(bases, beta, n2);
    assert(fb =~= fold_pair(bl, br, beta, n2));
    lemma_vector_commit_as_prod(h, n2, fb, fx, beta * r + beta * beta * lambda + mu);
    lemma_pow_prod_fold(n2, bl, br, fx, beta);
    lemma_pow_prod_concat(n2, bl, fx, br, scale_values(fx, beta));
    let rhs_exp = fx + scale_values(fx, beta);
    assert(lhs_exp =~= rhs_exp) by {
        assert forall|i: int| 0 <= i < m implies #[trigger] lhs_exp[i] == rhs_exp[i] by {
            if i < half {
                assert(lhs_exp[i] == values[i] * beta + 0 * bb + values[i + half]);
                assert(rhs_exp[i] == beta * values[i] + values[i + half]);
                assert(values[i] * beta + 0 * bb == beta * values[i]) by (nonlinear_arith);
            } else {
                let j = i - half;
                assert(lhs_exp[i] == values[i] * beta + values[j] * bb + 0);
                assert(rhs_exp[i] == (beta * values[j] + values[j + half]) * beta);
                assert(j + half == i);
                assert(values[i] * beta + values[j] * bb + 0 == (beta * values[j] + values[i]) * beta) by (nonlinear_arith)
                    requires
                        bb == beta * beta,
                ;
            }
        }
    }
    assert(r * beta + lambda * bb + mu == beta * r + beta * beta * lambda + mu) by (nonlinear_arith)
        requires
            bb == beta * beta,
    ;
}

/// The rounds `(L_j, R_j)` as numbers.
pub open spec fn fold_rounds(v: Seq<PpbS1FoldRound>) -> Seq<(nat, nat)> {
    v.map_values(|x: PpbS1FoldRound| (x.l@, x.r@))
}

/// Replays the folding rounds from the state `(C, bases, ciphertexts)`:
/// each round needs reduced `L_j, R_j` and an even number (at least two)
/// of bases, as many as ciphertexts; nothing when a round is malformed.
pub open spec fn s1_replay(
    params: PpbParams,
    pk_k: nat,
    c_x: nat,
    c_d: nat,
    cur: nat,
    bases: Seq<nat>,
    cs: Seq<(nat, nat)>,
    rounds: Seq<(nat, nat)>,
) -> Option<(nat, Seq<nat>, Seq<(nat, nat)>)>
    decreases rounds.len(),
{
    if rounds.len() == 0 {
        Some((cur, bases, cs))
    } else {
        let n2 = params.cpar.n2@;
        let l = rounds[0].0;
        let r = rounds[0].1;
        let m = bases.len();
        if l >= n2 || r >= n2 || m < 2 || m % 2 != 0 || cs.len() != m {
            None
        } else {
            let beta = s1_round_challenge(params, pk_k, c_x, c_d, cur, bases, cs, l, r);
            s1_replay(
                params,
                pk_k,
                c_x,
                c_d,
                fold_commitment(cur, l, r, beta, n2),
                fold_bases(bases, beta, n2),
                fold_cts(cs, beta, n2),
                rounds.drop_first(),
            )
        }
    }
}

/// The derived bases of the PoKS1 vector commitment.
pub open spec fn s1_bases(params: PpbParams, len: nat) -> Seq<nat> {
    derived_bases(params.cpar.n@, params.cpar.n2@, params.cpar.g@, params.cpar.h@, len)
}

/// The state of the verifier after replaying all rounds of `pi_A`, from
/// `Cx`, the derived bases and the ciphertexts padded with `(1, 1)` to the
/// next power of two.
pub open spec fn poks1_final_state(params: PpbParams, pk_a: PpbPublicKey) -> Option<(nat, Seq<nat>, Seq<(nat, nat)>)> {
    let cs = cts(pk_a.x_public.encrypted_coeffs@);
    let padded = next_pow2(cs.len());
    s1_replay(
        params,
        pk_a.x_public.pk_ah.k@,
        pk_a.c_x@,
        pk_a.c_d@,
        pk_a.c_x@,
        s1_bases(params, padded),
        pad_ones(cs, padded),
        fold_rounds(pk_a.pi_a.rounds@),
    )
}

/// PoKS1 accepts `pk_A` for `Cx`: `Cx` is the key's and the proof
/// `pi_A` is accepted for the key's statement.
pub open spec fn poks1_accepts(params: PpbParams, pk_a: PpbPublicKey, c_x: nat) -> bool {
    &&& c_x == pk_a.c_x@
    &&& s1_proof_accepts(
        params,
        pk_a.x_public.pk_ah.k@,
        cts(pk_a.x_public.encrypted_coeffs@),
        pk_a.c_x@,
        pk_a.c_d@,
        pk_a.pi_a,
    )
}

/// The PoKS1 proof `pi` is accepted for the statement `(pkAH, A, Cx, Cd)`:
/// the pre-checks pass, the replay of the rounds from `Cx`, the derived
/// bases and the padded ciphertexts ends in one base and one ciphertext,
/// and the final proof holds there.
pub open spec fn s1_proof_accepts(params: PpbParams, k: nat, cs: Seq<(nat, nat)>, c_x: nat, c_d: nat, pi: PpbAuthProof) -> bool {
    let padded = next_pow2(cs.len());
    &&& s1_pre_checks(params, k, cs, c_x, c_d, pi.rounds@.len())
    &&& match s1_replay(params, k, c_x, c_d, c_x, s1_bases(params, padded), pad_ones(cs, padded), fold_rounds(pi.rounds@)) {
        Some(st) => st.1.len() == 1 && st.2.len() == 1 && s1_final_accepts(
            params,
            k,
            c_x,
            c_d,
            st.0,
            st.1[0],
            st.2[0],
            pi.final_proof,
        ),
        None => false,
    }
}

/// The checks of PoKS1 before the replay: the coefficient list is
/// non-empty, `pkAH`, `Cx`, `Cd` and every ciphertext component are
/// reduced modulo `n^2`, the padded length fits a `usize`, and there are
/// `log2` of it many rounds.
pub open spec fn s1_pre_checks(params: PpbParams, k: nat, cs: Seq<(nat, nat)>, c_x: nat, c_d: nat, n_rounds: nat) -> bool {
    let n2 = params.cpar.n2@;
    let padded = next_pow2(cs.len());
    &&& cs.len() > 0
    &&& k < n2 && c_x < n2 && c_d < n2
    &&& forall|i: int| 0 <= i < cs.len() ==> (#[trigger] cs[i]).0 < n2 && cs[i].1 < n2
    &&& padded <= usize::MAX
    &&& n_rounds == log2_floor(padded)
}

/// The pre-checks of PoKS1 on the statement of `pk_A`.
pub open spec fn poks1_pre_checks(params: PpbParams, pk_a: PpbPublicKey) -> bool {
    s1_pre_checks(
        params,
        pk_a.x_public.pk_ah.k@,
        cts(pk_a.x_public.encrypted_coeffs@),
        pk_a.c_x@,
        pk_a.c_d@,
        pk_a.pi_a.rounds@.len(),
    )
}

/// The PoKS1 bases for `len` values can be derived.
pub open spec fn s1_bases_derivable(params: PpbParams, len: nat) -> bool {
    bases_derivable(params.cpar.n@, params.cpar.n2@, params.cpar.g@, params.cpar.h@, len)
}

/// The moduli of `cpar` and of the HEC parameters agree.
pub open spec fn moduli_match(params: PpbParams) -> bool {
    params.cpar.n@ == params.hecpar.cs_params.n@ && params.cpar.n2@ == params.hecpar.cs_params.n2@
}

/// Folds the bases once.
fn fold_bases_exec(bases: &Vec<Nat>, beta: &Nat, n2: &Nat) -> (r: Vec<Nat>)
    requires
        n2@ > 0,
    ensures
        nats(r@) == fold_bases(nats(bases@), beta@, n2@),
        r@.len() == bases@.len() / 2,
{
    let len = bases.len();
    let half = len / 2;
    let mut out: Vec<Nat> = Vec::new();
    let mut i: usize = 0;
    while i < half
        invariant
            n2@ > 0,
            len == bases@.len(),
            half == len / 2,
            i <= half,
            out@.len() == i,
            forall|t: int| 0 <= t < i ==> (#[trigger] out@[t])@ == fold_bases(nats(bases@), beta@, n2@)[t],
        decreases half - i,
    {
        assert(i + half < bases@.len());
        let v = big_rem(&big_mul(&bases[i], &big_modpow(&bases[i + half], beta, n2)), n2);
        out.push(v);
        i = i + 1;
    }
    proof {
        assert(nats(out@) =~= fold_bases(nats(bases@), beta@, n2@));
    }
    out
}

/// One fold `(beta (.) left) (+) right` of two ciphertexts.
fn fold_s1_ciphertexts(left: &CsCiphertext, right: &CsCiphertext, beta: &Nat, n2: &Nat) -> (r: CsCiphertext)
    requires
        n2@ > 0,
    ensures
        r@ == ct_add(ct_scale(left@, beta@, n2@), right@, n2@),
{
    let scaled_left = cs_homomorphic_scalar_mul(left, beta, n2);
    cs_homomorphic_add(&scaled_left, right, n2)
}

/// Folds the ciphertexts once.
fn fold_cts_exec(cs: &Vec<CsCiphertext>, beta: &Nat, n2: &Nat) -> (r: Vec<CsCiphertext>)
    requires
        n2@ > 0,
    ensures
        cts(r@) == fold_cts(cts(cs@), beta@, n2@),
        r@.len() == cs@.len() / 2,
{
    let len = cs.len();
    let half = len / 2;
    let mut out: Vec<CsCiphertext> = Vec::new();
    let mut i: usize = 0;
    while i < half
        invariant
            n2@ > 0,
            len == cs@.len(),
            half == len / 2,
            i <= half,
            out@.len() == i,
            forall|t: int| 0 <= t < i ==> (#[trigger] out@[t])@ == fold_cts(cts(cs@), beta@, n2@)[t],
        decreases half - i,
    {
        assert(i + half < cs@.len());
        let v = fold_s1_ciphertexts(&cs[i], &cs[i + half], beta, n2);
        out.push(v);
        i = i + 1;
    }
    proof {
        assert(cts(out@) =~= fold_cts(cts(cs@), beta@, n2@));
    }
    out
}

/// The coefficient ciphertexts padded with `Enc(0; 0) = (1, 1)` to `len`.
fn padded_ciphertexts(cs: &[CsCiphertext], len: usize) -> (r: Vec<CsCiphertext>)
    requires
        cs@.len() <= len,
    ensures
        cts(r@) == pad_ones(cts(cs@), len as nat),
{
    let mut out = copy_cts(cs);
    let ghost base = cts(cs@);
    while out.len() < len
        invariant
            cs@.len() <= out@.len() <= len,
            cts(out@) == base + Seq::new((out@.len() - cs@.len()) as nat, |i: int| (1nat, 1nat)),
        decreases len - out.len(),
    {
        let one_ct = CsCiphertext { c0: Nat::one(), c1: Nat::one() };
        let ghost before = out@;
        out.push(one_ct);
        proof {
            let k = (before.len() - cs@.len()) as nat;
            assert(cts(out@) =~= cts(before).push((1nat, 1nat)));
            assert(Seq::new(k + 1, |i: int| (1nat, 1nat)) =~= Seq::new(k, |i: int| (1nat, 1nat)).push((1nat, 1nat)));
            assert(cts(out@) =~= base + Seq::new((out@.len() - cs@.len()) as nat, |i: int| (1nat, 1nat)));
        }
    }
    out
}

/// VerPKS1: checks `pi_A` of `pk_A` for `Cx` from public values only; it
/// replays the folding rounds to `(C*, g*, A*)` and checks the final proof.
///
/// Fails when `cpar` and the HEC parameters have different moduli (once
/// `Cx` is the key's), or when the bases cannot be derived.
pub fn verify_poks1(params: &PpbParams, pk_a: &PpbPublicKey, c_x: &Nat) -> (r: CryptoResult<bool>)
    requires
        params.cpar.n@ > 0,
    ensures
        r is Err <==> c_x@ == pk_a.c_x@ && (!moduli_match(*params) || (poks1_pre_checks(*params, *pk_a)
            && !s1_bases_derivable(*params, next_pow2(pk_a.x_public.encrypted_coeffs@.len() as nat)))),
        r matches Err(e) ==> e is InvalidInput,
        r matches Ok(b) ==> b == poks1_accepts(*params, *pk_a, c_x@),
{
    if !big_eq(c_x, &pk_a.c_x) {
        return Ok(false);
    }
    if !big_eq(&params.cpar.n, &params.hecpar.cs_params.n) || !big_eq(&params.cpar.n2, &params.hecpar.cs_params.n2) {
        return Err(CryptoError::InvalidInput("PoKS1 requires cpar and HEC modulus to match"));
    }
    let coeffs = &pk_a.x_public.encrypted_coeffs;
    if coeffs.len() == 0 {
        return Ok(false);
    }
    let n2 = &params.cpar.n2;
    if !big_lt(&pk_a.x_public.pk_ah.k, n2) || !big_lt(&pk_a.c_x, n2) || !big_lt(&pk_a.c_d, n2) {
        return Ok(false);
    }
    let ghost cs = cts(coeffs@);
    let mut t: usize = 0;
    while t < coeffs.len()
        invariant
            *coeffs == pk_a.x_public.encrypted_coeffs,
            *n2 == params.cpar.n2,
            t <= coeffs@.len(),
            cs == cts(coeffs@),
            c_x@ == pk_a.c_x@,
            moduli_match(*params),
            forall|i: int| 0 <= i < t ==> (#[trigger] cs[i]).0 < n2@ && cs[i].1 < n2@,
        decreases coeffs.len() - t,
    {
        if !big_lt(&coeffs[t].c0, n2) || !big_lt(&coeffs[t].c1, n2) {
            proof {
                assert(!(cs[t as int].0 < n2@ && cs[t as int].1 < n2@));
            }
            return Ok(false);
        }
        t = t + 1;
    }
    let padded_len = match checked_next_power_of_two_usize(coeffs.len()) {
        Some(v) => v,
        None => return Ok(false),
    };
    proof {
        crate::bignum::lemma_bit_len_range(padded_len as nat);
        if coeffs.len() > 1 {
            crate::bignum::lemma_bit_len_range((coeffs.len() - 1) as nat);
        }
    }
    if pk_a.pi_a.rounds.len() != ilog2_usize(padded_len) {
        return Ok(false);
    }
    let mut bases = match derive_df_vector_bases(&params.cpar, padded_len) {
        Ok(v) => v,
        Err(e) => return Err(e),
    };
    let mut ciphertexts = padded_ciphertexts(coeffs.as_slice(), padded_len);
    let mut current_c = pk_a.c_x.copy();
    let rounds = &pk_a.pi_a.rounds;
    let ghost all = fold_rounds(rounds@);
    let ghost kk = pk_a.x_public.pk_ah.k@;
    proof {
        assert(all.subrange(0, all.len() as int) =~= all);
        assert(nats(bases@) == s1_bases(*params, padded_len as nat));
    }
    let mut j: usize = 0;
    while j < rounds.len()
        invariant
            params.cpar.n@ > 0,
            n2@ > 0,
            *n2 == params.cpar.n2,
            j <= rounds@.len(),
            all == fold_rounds(rounds@),
            kk == pk_a.x_public.pk_ah.k@,
            c_x@ == pk_a.c_x@,
            moduli_match(*params),
            *rounds == pk_a.pi_a.rounds,
            rounds@.len() == log2_floor(next_pow2(cs.len())),
            cs == cts(pk_a.x_public.encrypted_coeffs@),
            cs.len() > 0,
            next_pow2(cs.len()) <= usize::MAX,
            s1_bases_derivable(*params, next_pow2(cs.len())),
            kk < n2@ && pk_a.c_x@ < n2@ && pk_a.c_d@ < n2@,
            forall|i: int| 0 <= i < cs.len() ==> (#[trigger] cs[i]).0 < n2@ && cs[i].1 < n2@,
            poks1_final_state(*params, *pk_a) == s1_replay(
                *params,
                kk,
                pk_a.c_x@,
                pk_a.c_d@,
                current_c@,
                nats(bases@),
                cts(ciphertexts@),
                all.subrange(j as int, all.len() as int),
            ),
        decreases rounds.len() - j,
    {
        let round = &rounds[j];
        let ghost rest = all.subrange(j as int, all.len() as int);
        proof {
            assert(rest[0] == (round.l@, round.r@));
            assert(rest.drop_first() =~= all.subrange(j + 1, all.len() as int));
        }
        if !big_lt(&round.l, n2) || !big_lt(&round.r, n2) {
            return Ok(false);
        }
        let m = bases.len();
        if m < 2 || m % 2 != 0 || ciphertexts.len() != m {
            return Ok(false);
        }
        let beta = fs_challenge_for_s1_round(
            params,
            &pk_a.x_public.pk_ah,
            &pk_a.c_x,
            &pk_a.c_d,
            &current_c,
            bases.as_slice(),
            ciphertexts.as_slice(),
            &round.l,
            &round.r,
        );
        let beta_sq = big_mul(&beta, &beta);
        let next_bases = fold_bases_exec(&bases, &beta, n2);
        let next_cts = fold_cts_exec(&ciphertexts, &beta, n2);
        current_c = big_rem(
            &big_mul(&big_mul(&big_modpow(&current_c, &beta, n2), &big_modpow(&round.l, &beta_sq, n2)), &round.r),
            n2,
        );
        bases = next_bases;
        ciphertexts = next_cts;
        j = j + 1;
    }
    proof {
        assert(all.subrange(rounds@.len() as int, all.len() as int) =~= Seq::<(nat, nat)>::empty());
    }
    if bases.len() != 1 || ciphertexts.len() != 1 {
        return Ok(false);
    }
    verify_s1_final_proof(
        params,
        &pk_a.x_public.pk_ah,
        &pk_a.c_x,
        &pk_a.c_d,
        &current_c,
        &bases[0],
        &ciphertexts[0],
        &pk_a.pi_a.final_proof,
    )
}


/// `next_pow2(x)` is a power of two of at least `x`.
proof fn lemma_next_pow2_shape(x: nat)
    ensures
        is_pow2(next_pow2(x)),
        x <= next_pow2(x),
{
    vstd::arithmetic::power2::lemma2_to64();
    if x <= 1 {
        assert(bit_len(1) == 1) by {
            assert(1nat / 2 == 0);
            assert(bit_len(0) == 0);
        }
    } else {
        let b = bit_len((x - 1) as nat);
        crate::bignum::lemma_bit_len_range((x - 1) as nat);
        vstd::arithmetic::power2::lemma_pow2_unfold(b + 1);
        vstd::arithmetic::power2::lemma_pow2_pos(b);
        crate::bignum::lemma_bit_len_of_range(pow2(b), b + 1);
    }
}

/// A power of two above one is even.
proof fn lemma_pow2_even(m: nat)
    requires
        is_pow2(m),
        m > 1,
    ensures
        m % 2 == 0,
        m / 2 >= 1,
        2 * (m / 2) == m,
{
    let k = (bit_len(m) - 1) as nat;
    vstd::arithmetic::power2::lemma2_to64();
    if k == 0 {
        assert(m == 1);
    }
    vstd::arithmetic::power2::lemma_pow2_unfold(k);
}

/// The replay of `a` followed by one more round is the replay of `a`
/// continued by that round.
proof fn lemma_replay_push(
    params: PpbParams,
    pk_k: nat,
    c_x: nat,
    c_d: nat,
    cur: nat,
    bases: Seq<nat>,
    cs: Seq<(nat, nat)>,
    a: Seq<(nat, nat)>,
    x: (nat, nat),
)
    ensures
        s1_replay(params, pk_k, c_x, c_d, cur, bases, cs, a.push(x)) == match s1_replay(params, pk_k, c_x, c_d, cur, bases, cs, a) {
            Some(st) => s1_replay(params, pk_k, c_x, c_d, st.0, st.1, st.2, seq![x]),
            None => None,
        },
    decreases a.len(),
{
    if a.len() > 0 {
        let n2 = params.cpar.n2@;
        let l = a[0].0;
        let r = a[0].1;
        let m = bases.len();
        assert(a.push(x)[0] == a[0]);
        assert(a.push(x).drop_first() =~= a.drop_first().push(x));
        if !(l >= n2 || r >= n2 || m < 2 || m % 2 != 0 || cs.len() != m) {
            let beta = s1_round_challenge(params, pk_k, c_x, c_d, cur, bases, cs, l, r);
            lemma_replay_push(
                params,
                pk_k,
                c_x,
                c_d,
                fold_commitment(cur, l, r, beta, n2),
                fold_bases(bases, beta, n2),
                fold_cts(cs, beta, n2),
                a.drop_first(),
                x,
            );
        }
    } else {
        assert(a.push(x) =~= seq![x]);
    }
}

/// A vector commitment is reduced.
proof fn lemma_vector_commit_bound(h: nat, n2: nat, bases: Seq<nat>, values: Seq<nat>, r: nat)
    requires
        n2 > 0,
    ensures
        vector_commit_spec(h, n2, bases, values, r) < n2,
{
    if bases.len() == 0 {
        crate::powmod::lemma_pow_mod_bound(h, r, n2);
    } else {
        vstd::arithmetic::div_mod::lemma_mod_bound(
            (vector_commit_spec(h, n2, bases.drop_last(), values.drop_last(), r) * pow_mod(bases.last(), values.last(), n2)) as int,
            n2 as int,
        );
    }
}

/// The vector commitment `prod_i bases_i^{values_i} h^opening mod n^2`.
///
/// Fails when the bases and the values differ in number.
fn commit_s1_vector_with_bases(params: &PpbParams, bases: &[Nat], values: &[Nat], opening: &Nat) -> (r: CryptoResult<Nat>)
    requires
        params.cpar.n2@ > 0,
    ensures
        r is Err <==> bases@.len() != values@.len(),
        r matches Err(e) ==> e is InvalidInput,
        r matches Ok(c) ==> c@ == vector_commit_spec(params.cpar.h@, params.cpar.n2@, nats(bases@), nats(values@), opening@),
{
    match commit_df_vector_with_bases(&params.cpar, bases, values, opening) {
        Ok(c) => Ok(c.c),
        Err(e) => Err(e),
    }
}

/// The derived bases `g_1..g_len` of the PoKS1 vector commitment.
fn derive_s1_bases(params: &PpbParams, len: usize) -> (r: CryptoResult<Vec<Nat>>)
    ensures
        r is Ok <==> params.cpar.n2@ > 0 && s1_bases_derivable(*params, len as nat),
        r matches Err(e) ==> e is InvalidInput,
        r matches Ok(b) ==> nats(b@) == s1_bases(*params, len as nat),
{
    derive_df_vector_bases(&params.cpar, len)
}

/// The vector commitment with the derived bases.
///
/// Fails when `n^2` is zero or the bases cannot be derived.
fn commit_s1_vector(params: &PpbParams, values: &[Nat], opening: &Nat) -> (r: CryptoResult<Nat>)
    ensures
        r is Ok <==> params.cpar.n2@ > 0 && s1_bases_derivable(*params, values@.len() as nat),
        r matches Err(e) ==> e is InvalidInput,
        r matches Ok(c) ==> c@ == vector_commit_spec(
            params.cpar.h@,
            params.cpar.n2@,
            s1_bases(*params, values@.len()),
            nats(values@),
            opening@,
        ),
{
    let bases = match derive_s1_bases(params, values.len()) {
        Ok(b) => b,
        Err(e) => return Err(e),
    };
    proof {
        assert(nats(bases@).len() == bases@.len());
    }
    commit_s1_vector_with_bases(params, bases.as_slice(), values, opening)
}

/// The two components of a ciphertext reduced modulo `n^2`.
pub open spec fn ct_mod(c: (nat, nat), n2: nat) -> (nat, nat) {
    (c.0 % n2, c.1 % n2)
}

/// The PoKS1 witnesses fit the statement: `Cx` commits to the
/// coefficients `P_i` with opening `r_x`, each `A_i` encrypts `P_i < n`
/// with randomness `rho_i` (modulo `n^2`), and `Cd = g^md h^rd`.
pub open spec fn poks1_witness_holds(
    params: PpbParams,
    k: nat,
    cs: Seq<(nat, nat)>,
    m_d: nat,
    c_x: nat,
    c_d: nat,
    r_x: nat,
    r_d: nat,
    coeffs: Seq<nat>,
    rhos: Seq<nat>,
) -> bool {
    let p = params.hecpar.cs_params;
    let n2 = params.cpar.n2@;
    &&& c_x == vector_commit_spec(params.cpar.h@, n2, s1_bases(params, coeffs.len()), coeffs, r_x)
    &&& forall|i: int|
        0 <= i < cs.len() ==> coeffs[i] < p.n@ && #[trigger] ct_mod(
            cs_enc_spec(p.n@, p.n2@, p.g@, p.h@, k, coeffs[i], rhos[i]),
            n2,
        ) == ct_mod(cs[i], n2)
    &&& c_d == df_commit_spec(params.cpar.g@, params.cpar.h@, n2, m_d, r_d)
}


/// The PoKS1 witnesses at one index: the coefficient is reduced and its
/// ciphertext is its encryption.
proof fn lemma_poks1_witness_at(
    params: PpbParams,
    k: nat,
    cs: Seq<(nat, nat)>,
    m_d: nat,
    c_x: nat,
    c_d: nat,
    r_x: nat,
    r_d: nat,
    coeffs: Seq<nat>,
    rhos: Seq<nat>,
    i: int,
)
    requires
        poks1_witness_holds(params, k, cs, m_d, c_x, c_d, r_x, r_d, coeffs, rhos),
        0 <= i < cs.len(),
    ensures
        ({
            let p = params.hecpar.cs_params;
            let n2 = params.cpar.n2@;
            &&& coeffs[i] < p.n@
            &&& ct_mod(cs_enc_spec(p.n@, p.n2@, p.g@, p.h@, k, coeffs[i], rhos[i]), n2) == ct_mod(cs[i], n2)
        }),
{
    let p = params.hecpar.cs_params;
    let n2 = params.cpar.n2@;
    assert(ct_mod(cs_enc_spec(p.n@, p.n2@, p.g@, p.h@, k, coeffs[i], rhos[i]), n2) == ct_mod(cs[i], n2));
}

/// When the PoKS1 prover succeeds: the moduli agree, there is at least one
/// coefficient and as many ciphertexts and randomness values, `n^2 > 0`,
/// the bases for the coefficients and for their next power of two can be
/// derived and that power fits a `usize`, the witnesses hold, and the
/// blinding length can be derived.
pub open spec fn poks1_build_ok(
    params: PpbParams,
    k: nat,
    cs: Seq<(nat, nat)>,
    m_d: nat,
    c_x: nat,
    c_d: nat,
    r_x: nat,
    r_d: nat,
    coeffs: Seq<nat>,
    rhos: Seq<nat>,
) -> bool {
    &&& moduli_match(params)
    &&& coeffs.len() > 0 && coeffs.len() == cs.len() && coeffs.len() == rhos.len()
    &&& params.cpar.n2@ > 0
    &&& s1_bases_derivable(params, coeffs.len())
    &&& poks1_witness_holds(params, k, cs, m_d, c_x, c_d, r_x, r_d, coeffs, rhos)
    &&& next_pow2(coeffs.len()) <= usize::MAX
    &&& s1_bases_derivable(params, next_pow2(coeffs.len()))
    &&& b2l_ok(params.cpar.n2@, params.lambda_bits as nat)
}

/// The folded prover state after all rounds: the replay from `Cx`, the
/// derived bases and the padded ciphertexts ends in one base and one
/// ciphertext, and the final proof is the honest output there for some
/// folded witnesses with the given `md`, `rd` and `sk`.
pub open spec fn poks1_prover_output(
    params: PpbParams,
    k: nat,
    cs: Seq<(nat, nat)>,
    m_d: nat,
    c_x: nat,
    c_d: nat,
    r_d: nat,
    sk: nat,
    len: nat,
    proof: PpbAuthProof,
) -> bool {
    let padded = next_pow2(len);
    &&& proof.rounds@.len() == log2_floor(padded)
    &&& match s1_replay(
        params,
        k,
        c_x,
        c_d,
        c_x,
        s1_bases(params, padded),
        pad_ones(cs, padded),
        fold_rounds(proof.rounds@),
    ) {
        Some(st) => st.1.len() == 1 && st.2.len() == 1 && exists|x: nat, rx: nat, rho: nat|
            #[trigger] s1_final_prover_output(
                params,
                k,
                c_x,
                c_d,
                st.0,
                st.1[0],
                st.2[0],
                x,
                rx,
                m_d,
                r_d,
                sk,
                rho,
                b_plus_2lambda(params.cpar.n2@, params.lambda_bits as nat) as nat,
                proof.final_proof,
            ),
        None => false,
    }
}

/// One folding of witness values: `x'_i = beta x_i + x_{i+m/2}`.
fn fold_values_exec(values: &Vec<Nat>, beta: &Nat) -> (r: Vec<Nat>)
    ensures
        r@.len() == values@.len() / 2,
        nats(r@) == fold_values(nats(values@), beta@),
{
    let len = values.len();
    let half = len / 2;
    let mut out: Vec<Nat> = Vec::new();
    let mut i: usize = 0;
    while i < half
        invariant
            len == values@.len(),
            half == len / 2,
            i <= half,
            out@.len() == i,
            forall|j: int| 0 <= j < i ==> (#[trigger] out@[j])@ == beta@ * values@[j]@ + values@[j + half]@,
        decreases half - i,
    {
        assert(i + half < values@.len());
        out.push(big_add(&big_mul(beta, &values[i]), &values[i + half]));
        i = i + 1;
    }
    assert(nats(out@) =~= fold_values(nats(values@), beta@));
    out
}

/// PoKS1: proves that `Cx` commits to the coefficient vector `P_i` that
/// the public `A_i` encrypt under `pkAH` with randomness `rho_i`, that
/// `Cd = Com(m_d; r_d)`, and that `pkAH = |g_cs^sk|`. The statement is
/// first checked against the witnesses; the vectors are padded to a power
/// of two (zero values, `(1, 1)` ciphertexts) and folded round by round
/// with `g'_i = g_i g_{i+m/2}^beta`, `x'_i = beta x_i + x_{i+m/2}`,
/// `C' = C^beta L^(beta^2) R`, where `L, R` commit to the cross terms under
/// fresh openings below `2^(B + 2 lambda)`; the last values get the final
/// Σ-proof.
///
/// Fails when the moduli of `cpar` and the HEC parameters differ, the
/// coefficient list is empty or its lengths disagree, a witness does not
/// fit the statement, or a step (base derivation, encryption, blinding
/// length) fails.
#[verifier::rlimit(40)]
pub fn build_poks1_proof(
    params: &PpbParams,
    x_public: &HecPublicPackage,
    m_d: &Nat,
    c_x: &Nat,
    c_d: &Nat,
    r_x: &Nat,
    r_d: &Nat,
    sk: &Nat,
    coeffs: &[Nat],
    coeff_randomness: &[Nat],
) -> (r: CryptoResult<PpbAuthProof>)
    requires
        params.cpar.n@ > 0,
    ensures
        r is Ok <==> poks1_build_ok(
            *params,
            x_public.pk_ah.k@,
            cts(x_public.encrypted_coeffs@),
            m_d@,
            c_x@,
            c_d@,
            r_x@,
            r_d@,
            nats(coeffs@),
            nats(coeff_randomness@),
        ),
        r is Ok ==> poks1_witness_holds(
            *params,
            x_public.pk_ah.k@,
            cts(x_public.encrypted_coeffs@),
            m_d@,
            c_x@,
            c_d@,
            r_x@,
            r_d@,
            nats(coeffs@),
            nats(coeff_randomness@),
        ),
        r matches Err(e) ==> e is InvalidInput,
        !moduli_match(*params) ==> r == Err::<PpbAuthProof, CryptoError>(
            CryptoError::InvalidInput("PoKS1 requires cpar and HEC modulus to match"),
        ),
        moduli_match(*params) && coeffs@.len() == 0 ==> r == Err::<PpbAuthProof, CryptoError>(
            CryptoError::InvalidInput("PoKS1 coefficient vector must be non-empty"),
        ),
        moduli_match(*params) && coeffs@.len() > 0 && (coeffs@.len() != x_public.encrypted_coeffs@.len() || coeffs@.len()
            != coeff_randomness@.len()) ==> r == Err::<PpbAuthProof, CryptoError>(
            CryptoError::InvalidInput("PoKS1 coefficient/randomness length mismatch"),
        ),
        r matches Ok(p) ==> poks1_prover_output(
            *params,
            x_public.pk_ah.k@,
            cts(x_public.encrypted_coeffs@),
            m_d@,
            c_x@,
            c_d@,
            r_d@,
            sk@,
            coeffs@.len() as nat,
            p,
        ),
        r is Ok ==> moduli_match(*params) && s1_bases_derivable(*params, next_pow2(coeffs@.len() as nat)),
        r matches Ok(p) ==> (poks1_canonical(*params, cts(x_public.encrypted_coeffs@), nats(coeff_randomness@))
            && x_public.pk_ah.k@ == abs_rep(pow_mod(params.hecpar.cs_params.g@, sk@, params.cpar.n2@), params.cpar.n2@)
            ==> s1_proof_accepts(*params, x_public.pk_ah.k@, cts(x_public.encrypted_coeffs@), c_x@, c_d@, p)),
{
    if !big_eq(&params.cpar.n, &params.hecpar.cs_params.n) || !big_eq(&params.cpar.n2, &params.hecpar.cs_params.n2) {
        return Err(CryptoError::InvalidInput("PoKS1 requires cpar and HEC modulus to match"));
    }
    if coeffs.len() == 0 {
        return Err(CryptoError::InvalidInput("PoKS1 coefficient vector must be non-empty"));
    }
    if coeffs.len() != x_public.encrypted_coeffs.len() || coeffs.len() != coeff_randomness.len() {
        return Err(CryptoError::InvalidInput("PoKS1 coefficient/randomness length mismatch"));
    }
    let c_x_expected = match commit_s1_vector(params, coeffs, r_x) {
        Ok(v) => v,
        Err(e) => return Err(e),
    };
    if !big_eq(&c_x_expected, c_x) {
        return Err(CryptoError::InvalidInput("PoKS1 witness does not satisfy vector Cx"));
    }
    let n2 = &params.cpar.n2;
    let ghost cs = cts(x_public.encrypted_coeffs@);
    let ghost p = params.hecpar.cs_params;
    let mut t: usize = 0;
    while t < coeffs.len()
        invariant
            t <= coeffs@.len(),
            coeffs@.len() == x_public.encrypted_coeffs@.len(),
            coeffs@.len() == coeff_randomness@.len(),
            cs == cts(x_public.encrypted_coeffs@),
            p == params.hecpar.cs_params,
            *n2 == params.cpar.n2,
            n2@ > 0,
            moduli_match(*params),
            forall|i: int|
                0 <= i < t ==> (#[trigger] nats(coeffs@)[i]) < p.n@ && ct_mod(
                    cs_enc_spec(p.n@, p.n2@, p.g@, p.h@, x_public.pk_ah.k@, nats(coeffs@)[i], nats(coeff_randomness@)[i]),
                    n2@,
                ) == ct_mod(cs[i], n2@),
        decreases coeffs.len() - t,
    {
        proof {
            assert(nats(coeffs@)[t as int] == coeffs@[t as int]@);
            assert(nats(coeff_randomness@)[t as int] == coeff_randomness@[t as int]@);
        }
        let expected = match enc_cs_with_randomness(&params.hecpar.cs_params, &x_public.pk_ah, &coeffs[t], &coeff_randomness[t]) {
            Ok(c) => c,
            Err(e) => {
                proof {
                    assert(!(nats(coeffs@)[t as int] < p.n@ && ct_mod(
                        cs_enc_spec(p.n@, p.n2@, p.g@, p.h@, x_public.pk_ah.k@, nats(coeffs@)[t as int], nats(coeff_randomness@)[t as int]),
                        n2@,
                    ) == ct_mod(cs[t as int], n2@)));
                    assert(t < cs.len());
                    if poks1_witness_holds(
                        *params,
                        x_public.pk_ah.k@,
                        cs,
                        m_d@,
                        c_x@,
                        c_d@,
                        r_x@,
                        r_d@,
                        nats(coeffs@),
                        nats(coeff_randomness@),
                    ) {
                        lemma_poks1_witness_at(
                            *params,
                            x_public.pk_ah.k@,
                            cs,
                            m_d@,
                            c_x@,
                            c_d@,
                            r_x@,
                            r_d@,
                            nats(coeffs@),
                            nats(coeff_randomness@),
                            t as int,
                        );
                    }
                }
                return Err(e);
            },
        };
        if !ciphertext_eq_mod_n2(&expected, &x_public.encrypted_coeffs[t], n2) {
            proof {
                assert(!(nats(coeffs@)[t as int] < p.n@ && ct_mod(
                    cs_enc_spec(p.n@, p.n2@, p.g@, p.h@, x_public.pk_ah.k@, nats(coeffs@)[t as int], nats(coeff_randomness@)[t as int]),
                    n2@,
                ) == ct_mod(cs[t as int], n2@)));
            }
            return Err(CryptoError::InvalidInput("PoKS1 witness does not satisfy A_i encryption"));
        }
        proof {
            assert(nats(coeffs@)[t as int] == coeffs@[t as int]@);
            assert(nats(coeff_randomness@)[t as int] == coeff_randomness@[t as int]@);
        }
        t = t + 1;
    }
    let c_d_expected = match commit_df_with_opening(&params.cpar, m_d, r_d) {
        Ok(c) => c.c,
        Err(e) => return Err(e),
    };
    if !big_eq(&c_d_expected, c_d) {
        return Err(CryptoError::InvalidInput("PoKS1 witness does not satisfy Cd = Com(m_d; r_d)"));
    }
    proof {
        assert forall|i: int| 0 <= i < cs.len() implies nats(coeffs@)[i] < p.n@ && #[trigger] ct_mod(
            cs_enc_spec(p.n@, p.n2@, p.g@, p.h@, x_public.pk_ah.k@, nats(coeffs@)[i], nats(coeff_randomness@)[i]),
            n2@,
        ) == ct_mod(cs[i], n2@) by {
            assert(nats(coeffs@)[i] == nats(coeffs@)[i]);
        }
    }
    let padded_len = match checked_next_power_of_two_usize(coeffs.len()) {
        Some(v) => v,
        None => return Err(CryptoError::InvalidInput("PoKS1 coefficient vector too long")),
    };
    proof {
        lemma_next_pow2_shape(coeffs.len() as nat);
    }
    let mut bases = match derive_s1_bases(params, padded_len) {
        Ok(v) => v,
        Err(e) => return Err(e),
    };
    let mut values = crate::pok::copy_nats_slice(coeffs);
    let mut rhos = crate::pok::copy_nats_slice(coeff_randomness);
    proof {
        assert(nats(values@) =~= nats(coeffs@) + zeros(0));
        assert(nats(rhos@) =~= nats(coeff_randomness@) + zeros(0));
    }
    while values.len() < padded_len
        invariant
            coeffs@.len() <= values@.len() <= padded_len,
            rhos@.len() == values@.len(),
            coeffs@.len() == coeff_randomness@.len(),
            nats(values@) == nats(coeffs@) + zeros((values@.len() - coeffs@.len()) as nat),
            nats(rhos@) == nats(coeff_randomness@) + zeros((values@.len() - coeffs@.len()) as nat),
        decreases padded_len - values.len(),
    {
        let ghost old_len = values@.len();
        let ghost ov = nats(values@);
        let ghost orh = nats(rhos@);
        let zero_v = Nat::zero();
        let zero_r = Nat::zero();
        values.push(zero_v);
        rhos.push(zero_r);
        proof {
            let k = (old_len - coeffs@.len()) as nat;
            assert(nats(values@) =~= ov.push(0nat));
            assert(nats(rhos@) =~= orh.push(0nat));
            assert(zeros(k + 1) =~= zeros(k).push(0nat));
            assert(nats(coeffs@) + zeros(k).push(0nat) =~= (nats(coeffs@) + zeros(k)).push(0nat));
            assert(nats(coeff_randomness@) + zeros(k).push(0nat) =~= (nats(coeff_randomness@) + zeros(k)).push(0nat));
            assert((values@.len() - coeffs@.len()) as nat == k + 1);
        }
    }
    let mut ciphertexts = padded_ciphertexts(x_public.encrypted_coeffs.as_slice(), padded_len);
    let blind_bits = match derive_poks1_blinding_bits(params) {
        Ok(v) => v,
        Err(e) => return Err(e),
    };
    let mut current_c = c_x.copy();
    let mut current_rx = r_x.copy();
    let mut rounds: Vec<PpbS1FoldRound> = Vec::new();
    let ghost kk = x_public.pk_ah.k@;
    let ghost b0 = s1_bases(*params, padded_len as nat);
    let ghost c0 = pad_ones(cs, padded_len as nat);
    let ghost good = poks1_canonical(*params, cs, nats(coeff_randomness@));
    proof {
        assert(fold_rounds(rounds@) =~= Seq::<(nat, nat)>::empty());
        if good {
            lemma_s1_state_initial(
                *params,
                kk,
                cs,
                nats(coeffs@),
                nats(coeff_randomness@),
                c_x@,
                r_x@,
                padded_len as nat,
            );
        }
    }
    while values.len() > 1
        invariant
            params.cpar.n@ > 0,
            n2@ > 0,
            *n2 == params.cpar.n2,
            kk == x_public.pk_ah.k@,
            values@.len() == bases@.len(),
            values@.len() == rhos@.len(),
            values@.len() == ciphertexts@.len(),
            values@.len() >= 1,
            is_pow2(values@.len() as nat),
            rounds@.len() + log2_floor(values@.len() as nat) == log2_floor(padded_len as nat),
            s1_replay(*params, kk, c_x@, c_d@, c_x@, b0, c0, fold_rounds(rounds@)) == Some(
                (current_c@, nats(bases@), cts(ciphertexts@)),
            ),
            good == poks1_canonical(*params, cs, nats(coeff_randomness@)),
            good ==> s1_state_holds(*params, kk, current_c@, nats(bases@), cts(ciphertexts@), nats(values@), nats(rhos@), current_rx@),
        decreases values.len(),
    {
        let m = values.len();
        let half = m / 2;
        proof {
            lemma_pow2_even(m as nat);
            crate::pok::lemma_double_log(half as nat);
        }
        let lambda = random_bits(blind_bits);
        let mu = random_bits(blind_bits);
        let l = match commit_s1_vector_with_bases(
            params,
            vstd::slice::slice_subrange(bases.as_slice(), half, m),
            vstd::slice::slice_subrange(values.as_slice(), 0, half),
            &lambda,
        ) {
            Ok(v) => v,
            Err(e) => return Err(e),
        };
        let r = match commit_s1_vector_with_bases(
            params,
            vstd::slice::slice_subrange(bases.as_slice(), 0, half),
            vstd::slice::slice_subrange(values.as_slice(), half, m),
            &mu,
        ) {
            Ok(v) => v,
            Err(e) => return Err(e),
        };
        proof {
            lemma_vector_commit_bound(params.cpar.h@, n2@, nats(bases@.subrange(half as int, m as int)), nats(values@.subrange(0, half as int)), lambda@);
            lemma_vector_commit_bound(params.cpar.h@, n2@, nats(bases@.subrange(0, half as int)), nats(values@.subrange(half as int, m as int)), mu@);
        }
        let beta = fs_challenge_for_s1_round(
            params,
            &x_public.pk_ah,
            c_x,
            c_d,
            &current_c,
            bases.as_slice(),
            ciphertexts.as_slice(),
            &l,
            &r,
        );
        let beta_sq = big_mul(&beta, &beta);
        let next_bases = fold_bases_exec(&bases, &beta, n2);
        let next_cts = fold_cts_exec(&ciphertexts, &beta, n2);
        let next_values = fold_values_exec(&values, &beta);
        let next_rhos = fold_values_exec(&rhos, &beta);
        let next_c = big_rem(&big_mul(&big_mul(&big_modpow(&current_c, &beta, n2), &big_modpow(&l, &beta_sq, n2)), &r), n2);
        let ghost old_rx = current_rx@;
        current_rx = big_add(&big_add(&big_mul(&beta, &current_rx), &big_mul(&beta_sq, &lambda)), &mu);
        proof {
            if good {
                let nb = nats(bases@);
                let nv = nats(values@);
                assert(nats(bases@.subrange(half as int, m as int)) =~= nb.subrange(half as int, m as int));
                assert(nats(values@.subrange(0, half as int)) =~= nv.subrange(0, half as int));
                assert(nats(bases@.subrange(0, half as int)) =~= nb.subrange(0, half as int));
                assert(nats(values@.subrange(half as int, m as int)) =~= nv.subrange(half as int, m as int));
                lemma_s1_state_fold(
                    *params,
                    kk,
                    current_c@,
                    nb,
                    cts(ciphertexts@),
                    nv,
                    nats(rhos@),
                    old_rx,
                    lambda@,
                    mu@,
                    beta@,
                );
                assert(next_c@ == fold_commitment(current_c@, l@, r@, beta@, n2@));
                assert(current_rx@ == beta@ * old_rx + beta@ * beta@ * lambda@ + mu@);
            }
        }
        proof {
            lemma_replay_push(*params, kk, c_x@, c_d@, c_x@, b0, c0, fold_rounds(rounds@), (l@, r@));
            let one = seq![(l@, r@)];
            assert(one[0] == (l@, r@));
            assert(one.drop_first() =~= Seq::<(nat, nat)>::empty());
            assert(nats(bases@).len() == m);
            assert(cts(ciphertexts@).len() == m);
            reveal_with_fuel(s1_replay, 2);
            assert(s1_replay(*params, kk, c_x@, c_d@, current_c@, nats(bases@), cts(ciphertexts@), one) == Some(
                (next_c@, nats(next_bases@), cts(next_cts@)),
            ));
            assert(s1_replay(*params, kk, c_x@, c_d@, c_x@, b0, c0, fold_rounds(rounds@).push((l@, r@))) == Some(
                (next_c@, nats(next_bases@), cts(next_cts@)),
            ));
        }
        let ghost old_rounds = rounds@;
        rounds.push(PpbS1FoldRound { l, r });
        proof {
            assert(fold_rounds(rounds@) =~= fold_rounds(old_rounds).push((rounds@.last().l@, rounds@.last().r@)));
        }
        current_c = next_c;
        bases = next_bases;
        ciphertexts = next_cts;
        values = next_values;
        rhos = next_rhos;
    }
    proof {
        assert(values@.len() == 1);
        assert(log2_floor(1) == 0) by {
            assert(bit_len(1) == 1) by {
                assert(1nat / 2 == 0);
                assert(bit_len(0) == 0);
            }
        }
    }
    let final_proof = match build_s1_final_proof(
        params,
        &x_public.pk_ah,
        c_x,
        c_d,
        &current_c,
        &bases[0],
        &ciphertexts[0],
        &values[0],
        &current_rx,
        m_d,
        r_d,
        sk,
        &rhos[0],
    ) {
        Ok(v) => v,
        Err(e) => return Err(e),
    };
    let out = PpbAuthProof { rounds, final_proof };
    proof {
        let k = x_public.pk_ah.k@;
        let st = (current_c@, nats(bases@), cts(ciphertexts@));
        assert(s1_replay(*params, k, c_x@, c_d@, c_x@, b0, c0, fold_rounds(out.rounds@)) == Some(st));
        let bits = b_plus_2lambda(params.cpar.n2@, params.lambda_bits as nat) as nat;
        assert(nats(bases@)[0] == bases@[0]@);
        assert(cts(ciphertexts@)[0] == ciphertexts@[0]@);
        assert(s1_final_prover_output(
            *params,
            k,
            c_x@,
            c_d@,
            current_c@,
            bases@[0]@,
            ciphertexts@[0]@,
            values@[0]@,
            current_rx@,
            m_d@,
            r_d@,
            sk@,
            rhos@[0]@,
            bits,
            out.final_proof,
        ));
        assert(st.1.len() == 1 && st.2.len() == 1);
        assert(st.1[0] == bases@[0]@ && st.2[0] == ciphertexts@[0]@);
        assert(s1_final_prover_output(*params, k, c_x@, c_d@, st.0, st.1[0], st.2[0], values@[0]@, current_rx@, m_d@, r_d@, sk@, rhos@[0]@, bits, out.final_proof));
        assert(exists|x: nat, rx: nat, rho: nat|
            #[trigger] s1_final_prover_output(*params, k, c_x@, c_d@, st.0, st.1[0], st.2[0], x, rx, m_d@, r_d@, sk@, rho, bits, out.final_proof));
        assert(out.rounds@.len() == log2_floor(next_pow2(coeffs@.len() as nat)));
        assert(b0 == s1_bases(*params, next_pow2(coeffs@.len() as nat)));
        assert(c0 == pad_ones(cts(x_public.encrypted_coeffs@), next_pow2(coeffs@.len() as nat)));
        if good && k == abs_rep(pow_mod(params.hecpar.cs_params.g@, sk@, params.cpar.n2@), params.cpar.n2@) {
            lemma_s1_state_final(
                *params,
                k,
                c_x@,
                c_d@,
                current_c@,
                nats(bases@),
                cts(ciphertexts@),
                nats(values@),
                nats(rhos@),
                current_rx@,
                m_d@,
                r_d@,
                sk@,
                bits,
                out.final_proof,
            );
            crate::powmod::lemma_pow_mod_bound(params.hecpar.cs_params.g@, sk@, params.cpar.n2@);
            lemma_abs_rep_bound(pow_mod(params.hecpar.cs_params.g@, sk@, params.cpar.n2@), params.cpar.n2@);
            lemma_vector_commit_bound(params.cpar.h@, params.cpar.n2@, s1_bases(*params, coeffs@.len() as nat), nats(coeffs@), r_x@);
            crate::powmod::lemma_pair_pow_bound(params.cpar.g@, params.cpar.h@, m_d@, r_d@, params.cpar.n2@);
            assert(s1_pre_checks(*params, k, cts(x_public.encrypted_coeffs@), c_x@, c_d@, out.rounds@.len()));
        }
    }
    Ok(out)
}


// ---------------------------------------------------------------------------
// PoKS3: the decryption proof of Dec.
// ---------------------------------------------------------------------------

/// `v` is a unit of `Z_{n^2}` in `[1, n^2)`.
pub open spec fn is_unit_spec(v: nat, n2: nat) -> bool {
    v != 0 && v < n2 && spec_gcd(v, n2) == 1
}

/// Whether `value` is a unit of `Z_{n^2}` in `[1, n^2)`.
fn is_unit_mod_n2(value: &Nat, n2: &Nat) -> (r: bool)
    ensures
        r == is_unit_spec(value@, n2@),
{
    !big_is_zero(value) && big_lt(value, n2) && big_eq(&gcd(value.copy(), n2.copy()), &Nat::one())
}

/// Both components of a ciphertext are units of `Z_{n^2}`.
pub open spec fn ct_in_group(c: (nat, nat), n2: nat) -> bool {
    is_unit_spec(c.0, n2) && is_unit_spec(c.1, n2)
}

/// Whether both components of `ct` are units of `Z_{n^2}`.
fn poks3_ciphertext_in_group(ct: &CsCiphertext, n2: &Nat) -> (r: bool)
    ensures
        r == ct_in_group(ct@, n2@),
{
    is_unit_mod_n2(&ct.c0, n2) && is_unit_mod_n2(&ct.c1, n2)
}

/// The fields hashed for the PoKS3 challenge: a domain tag, both parameter
/// sets, `pkAH`, `Cd`, `Z`, the claimed `z` and the five commitments.
pub open spec fn poks3_fields(
    params: PpbParams,
    pk_k: nat,
    c_d: nat,
    z_hat: HecEvalOutput,
    z: HecEvalInput,
    proof: PpbDecProof,
) -> Seq<nat> {
    seq![
        0x5333nat,
        params.cpar.n@,
        params.cpar.n2@,
        params.cpar.g@,
        params.cpar.h@,
        params.hecpar.cs_params.n@,
        params.hecpar.cs_params.n2@,
        params.hecpar.cs_params.g@,
        params.hecpar.cs_params.h@,
        pk_k,
        c_d,
        z_hat.z_id.c0@,
        z_hat.z_id.c1@,
        z_hat.z_at.c0@,
        z_hat.z_at.c1@,
        z_hat.z_nf.c0@,
        z_hat.z_nf.c1@,
        z.y_id@,
        z.y_at@,
        proof.r_d_commitment@,
        proof.r_pk_commitment@,
        proof.r_z_id@,
        proof.r_z_at@,
        proof.r_z_nf@,
    ]
}

/// The PoKS3 challenge.
pub open spec fn poks3_challenge(
    params: PpbParams,
    pk_k: nat,
    c_d: nat,
    z_hat: HecEvalOutput,
    z: HecEvalInput,
    proof: PpbDecProof,
) -> nat {
    challenge_of(poks3_fields(params, pk_k, c_d, z_hat, z, proof))
}

/// The PoKS3 challenge, computed.
fn fs_challenge_for_poks3(
    params: &PpbParams,
    pk_ah: &CsPubKey,
    c_d: &Nat,
    z_hat: &HecEvalOutput,
    z: &HecEvalInput,
    proof: &PpbDecProof,
) -> (e: Nat)
    ensures
        e@ == poks3_challenge(*params, pk_ah.k@, c_d@, *z_hat, *z, *proof),
{
    let tag = Nat::from_u64(0x5333);
    let vals: [&Nat; 24] = [
        &tag,
        &params.cpar.n,
        &params.cpar.n2,
        &params.cpar.g,
        &params.cpar.h,
        &params.hecpar.cs_params.n,
        &params.hecpar.cs_params.n2,
        &params.hecpar.cs_params.g,
        &params.hecpar.cs_params.h,
        &pk_ah.k,
        c_d,
        &z_hat.z_id.c0,
        &z_hat.z_id.c1,
        &z_hat.z_at.c0,
        &z_hat.z_at.c1,
        &z_hat.z_nf.c0,
        &z_hat.z_nf.c1,
        &z.y_id,
        &z.y_at,
        &proof.r_d_commitment,
        &proof.r_pk_commitment,
        &proof.r_z_id,
        &proof.r_z_at,
        &proof.r_z_nf,
    ];
    proof {
        assert(vals@.map_values(|v: &Nat| v@) =~= poks3_fields(*params, pk_ah.k@, c_d@, *z_hat, *z, *proof));
    }
    fiat_shamir_challenge_biguints(&vals)
}

/// The base `c0^2` of the squared decryption relation.
pub open spec fn dec_base(p: CsParams, c: (nat, nat)) -> nat {
    pow_mod(c.0, 2, p.n2@)
}

/// The target `c1^2 / h^(2m)` of the squared decryption relation: with
/// `c = Enc(m)` under `pkAH = |g^sk|`, `dec_base^sk == dec_target`.
pub open spec fn dec_target(p: CsParams, c: (nat, nat), m: nat) -> nat {
    (pow_mod(c.1, 2, p.n2@) * inv_mod(pow_mod(p.h@, 2 * m, p.n2@), p.n2@)) % p.n2@
}

/// The relation parts can be formed: `n^2 > 0`, `m < n` and `h^(2m)` is
/// invertible modulo `n^2`.
pub open spec fn dec_parts_ok(p: CsParams, m: nat) -> bool {
    p.n2@ > 0 && m < p.n@ && spec_gcd(p.n2@, pow_mod(p.h@, 2 * m, p.n2@)) == 1
}

/// The error when the decryption relation of PoKS3 cannot be formed or
/// checked: a zero `n^2`, then a plaintext outside `Z_n`, and otherwise a
/// missing inverse.
pub open spec fn dec_parts_error(p: CsParams, m: nat) -> CryptoError {
    if p.n2@ == 0 {
        CryptoError::InvalidInput("n^2 must be non-zero")
    } else if m >= p.n@ {
        CryptoError::InvalidInput("PoKS3 plaintext must be in Z_n")
    } else {
        CryptoError::ModularInverseUnavailable
    }
}

/// The parts `(c0^2, c1^2 / h^(2m))` of the decryption relation of `ct`
/// for the plaintext `m`.
///
/// Fails when `n^2` is zero or `m >= n` (`InvalidInput`), or when `h^(2m)`
/// has no inverse.
fn poks3_decryption_relation_parts(params: &PpbParams, ct: &CsCiphertext, plaintext: &Nat) -> (r: CryptoResult<(Nat, Nat)>)
    ensures
        r is Ok <==> dec_parts_ok(params.hecpar.cs_params, plaintext@),
        r matches Ok((b, t)) ==> b@ == dec_base(params.hecpar.cs_params, ct@) && t@ == dec_target(
            params.hecpar.cs_params,
            ct@,
            plaintext@,
        ),
        r is Err ==> r == Err::<(Nat, Nat), CryptoError>(dec_parts_error(params.hecpar.cs_params, plaintext@)),
{
    let cs_params = &params.hecpar.cs_params;
    if big_is_zero(&cs_params.n2) {
        return Err(CryptoError::InvalidInput("n^2 must be non-zero"));
    }
    if !big_lt(plaintext, &cs_params.n) {
        return Err(CryptoError::InvalidInput("PoKS3 plaintext must be in Z_n"));
    }
    let two = Nat::from_u64(2);
    let two_m = big_mul(plaintext, &two);
    let base = big_modpow(&ct.c0, &two, &cs_params.n2);
    let h_to_2m = big_modpow(&cs_params.h, &two_m, &cs_params.n2);
    let h_to_2m_inv = match modinv(&h_to_2m, &cs_params.n2) {
        Ok(v) => v,
        Err(e) => return Err(e),
    };
    proof {
        assert(two_m@ == 2 * plaintext@);
    }
    let target = big_rem(&big_mul(&big_modpow(&ct.c1, &two, &cs_params.n2), &h_to_2m_inv), &cs_params.n2);
    Ok((base, target))
}

/// Whether the secret key satisfies the decryption relation of `ct` for
/// the plaintext `m`: `(c0^2)^sk == c1^2 / h^(2m)`.
fn poks3_decryption_witness_holds(params: &PpbParams, d: &HecAuditData, ct: &CsCiphertext, plaintext: &Nat) -> (r:
    CryptoResult<bool>)
    ensures
        r is Ok <==> dec_parts_ok(params.hecpar.cs_params, plaintext@),
        r matches Ok(b) ==> b == (pow_mod(dec_base(params.hecpar.cs_params, ct@), d.sk_e.x@, params.hecpar.cs_params.n2@)
            == dec_target(params.hecpar.cs_params, ct@, plaintext@)),
        r is Err ==> r == Err::<bool, CryptoError>(dec_parts_error(params.hecpar.cs_params, plaintext@)),
{
    let (base, target) = match poks3_decryption_relation_parts(params, ct, plaintext) {
        Ok(v) => v,
        Err(e) => return Err(e),
    };
    Ok(big_eq(&big_modpow(&base, &d.sk_e.x, &params.hecpar.cs_params.n2), &target))
}

/// The squared decryption equation of PoKS3 for `ct` and `m`:
/// `(c0^2)^(z_sk) == R * (c1^2 / h^(2m))^e` modulo `n^2`.
pub open spec fn dec_equation(p: CsParams, c: (nat, nat), m: nat, commitment: nat, z_sk: int, e: nat) -> bool {
    signed_pow(dec_base(p, c), z_sk, p.n2@) == (commitment * pow_mod(dec_target(p, c, m), e, p.n2@)) % p.n2@
}

/// Checks the squared decryption equation of PoKS3.
///
/// Fails when the relation parts cannot be formed or `z_sk` is negative
/// and `c0^2` has no inverse.
fn verify_poks3_decryption_equation(
    params: &PpbParams,
    ct: &CsCiphertext,
    plaintext: &Nat,
    commitment: &Nat,
    z_sk: &Int,
    e: &Nat,
) -> (r: CryptoResult<bool>)
    ensures
        r is Ok <==> dec_parts_ok(params.hecpar.cs_params, plaintext@) && signed_pow_ok(
            dec_base(params.hecpar.cs_params, ct@),
            z_sk@,
            params.hecpar.cs_params.n2@,
        ),
        r matches Ok(b) ==> b == dec_equation(params.hecpar.cs_params, ct@, plaintext@, commitment@, z_sk@, e@),
        r is Err ==> r == Err::<bool, CryptoError>(dec_parts_error(params.hecpar.cs_params, plaintext@)),
{
    let (base, target) = match poks3_decryption_relation_parts(params, ct, plaintext) {
        Ok(v) => v,
        Err(e) => return Err(e),
    };
    let n2 = &params.hecpar.cs_params.n2;
    let lhs = match modpow_signed(&base, z_sk, n2) {
        Ok(v) => v,
        Err(e) => return Err(e),
    };
    let rhs = big_rem(&big_mul(commitment, &big_modpow(&target, e, n2)), n2);
    Ok(big_eq(&lhs, &rhs))
}

/// The DF equation of PoKS3: `g^(z_md) h^(z_rd) == R_d Cd^e` modulo `n^2`.
pub open spec fn poks3_d_equation(params: PpbParams, c_d: nat, proof: PpbDecProof, e: nat) -> bool {
    let n2 = params.cpar.n2@;
    (signed_pow(params.cpar.g@, proof.z_md@, n2) * signed_pow(params.cpar.h@, proof.z_rd@, n2)) % n2 == (
    proof.r_d_commitment@ * pow_mod(c_d, e, n2)) % n2
}

/// The key equation of PoKS3: `g_cs^(2 z_sk) == R_pk pkAH^(2e)` modulo `n^2`.
pub open spec fn poks3_pk_equation(params: PpbParams, pk_k: nat, proof: PpbDecProof, e: nat) -> bool {
    let n2 = params.hecpar.cs_params.n2@;
    signed_pow(params.hecpar.cs_params.g@, 2 * proof.z_sk@, n2) == (proof.r_pk_commitment@ * pow_mod(pk_k, 2 * e, n2)) % n2
}

/// PoKS3 accepts: the claimed `z` is reduced, `Cd`, `pkAH`, the five
/// commitments and every component of `Z` are units of `Z_{n^2}`, and the
/// DF equation, the key equation and the decryption equations of `Z_id`,
/// `Z_at` (to `z`) and `Z_nf` (to zero) hold for the challenge.
pub open spec fn poks3_accepts(
    params: PpbParams,
    pk_k: nat,
    c_d: nat,
    z_hat: HecEvalOutput,
    z: HecEvalInput,
    proof: PpbDecProof,
) -> bool {
    let p = params.hecpar.cs_params;
    let n = p.n@;
    let n2 = p.n2@;
    let e = poks3_challenge(params, pk_k, c_d, z_hat, z, proof);
    &&& z.y_id@ < n && z.y_at@ < n
    &&& is_unit_spec(c_d, n2) && is_unit_spec(pk_k, n2)
    &&& is_unit_spec(proof.r_d_commitment@, n2) && is_unit_spec(proof.r_pk_commitment@, n2)
    &&& is_unit_spec(proof.r_z_id@, n2) && is_unit_spec(proof.r_z_at@, n2) && is_unit_spec(proof.r_z_nf@, n2)
    &&& ct_in_group(z_hat.z_id@, n2) && ct_in_group(z_hat.z_at@, n2) && ct_in_group(z_hat.z_nf@, n2)
    &&& poks3_d_equation(params, c_d, proof, e)
    &&& poks3_pk_equation(params, pk_k, proof, e)
    &&& dec_equation(p, z_hat.z_id@, z.y_id@, proof.r_z_id@, proof.z_sk@, e)
    &&& dec_equation(p, z_hat.z_at@, z.y_at@, proof.r_z_at@, proof.z_sk@, e)
    &&& dec_equation(p, z_hat.z_nf@, 0, proof.r_z_nf@, proof.z_sk@, e)
}

/// Soundness of VS3: an accepted proof has `z` reduced and satisfies the
/// DF equation `g^z_md h^z_rd == R_d Cd^e`, the key equation
/// `g_cs^(2 z_sk) == R_pk pkAH^(2e)` and, for each of `Z_id`, `Z_at`, `Z_nf`
/// with its plaintext `y_id`, `y_at`, `0`, the decryption equation
/// `(c0^2)^z_sk == R (c1^2 / h^(2m))^e`, all modulo `n^2`.
pub proof fn lemma_poks3_accepted_equations(
    params: PpbParams,
    pk_k: nat,
    c_d: nat,
    z_hat: HecEvalOutput,
    z: HecEvalInput,
    proof: PpbDecProof,
)
    requires
        poks3_accepts(params, pk_k, c_d, z_hat, z, proof),
    ensures
        ({
            let n = params.hecpar.cs_params.n@;
            let n2 = params.hecpar.cs_params.n2@;
            let cn2 = params.cpar.n2@;
            let hh = params.hecpar.cs_params.h@;
            let e = poks3_challenge(params, pk_k, c_d, z_hat, z, proof);
            &&& z.y_id@ < n && z.y_at@ < n
            &&& (signed_pow(params.cpar.g@, proof.z_md@, cn2) * signed_pow(params.cpar.h@, proof.z_rd@, cn2)) % cn2 == (proof.r_d_commitment@ * pow_mod(c_d, e, cn2)) % cn2
            &&& signed_pow(params.hecpar.cs_params.g@, 2 * proof.z_sk@, n2) == (proof.r_pk_commitment@ * pow_mod(pk_k, 2 * e, n2)) % n2
            &&& signed_pow(pow_mod(z_hat.z_id@.0, 2, n2), proof.z_sk@, n2) == (proof.r_z_id@ * pow_mod((pow_mod(z_hat.z_id@.1, 2, n2) * inv_mod(pow_mod(hh, 2 * z.y_id@, n2), n2)) % n2, e, n2)) % n2
            &&& signed_pow(pow_mod(z_hat.z_at@.0, 2, n2), proof.z_sk@, n2) == (proof.r_z_at@ * pow_mod((pow_mod(z_hat.z_at@.1, 2, n2) * inv_mod(pow_mod(hh, 2 * z.y_at@, n2), n2)) % n2, e, n2)) % n2
            &&& signed_pow(pow_mod(z_hat.z_nf@.0, 2, n2), proof.z_sk@, n2) == (proof.r_z_nf@ * pow_mod((pow_mod(z_hat.z_nf@.1, 2, n2) * inv_mod(pow_mod(hh, 2 * 0, n2), n2)) % n2, e, n2)) % n2
        }),
{
}

/// The decryption equation of `ct` for `m` can be checked: its parts can
/// be formed and `c0^2` has the power `z_sk`.
pub open spec fn dec_equation_defined(p: CsParams, ct: (nat, nat), m: nat, z_sk: int) -> bool {
    dec_parts_ok(p, m) && signed_pow_ok(dec_base(p, ct), z_sk, p.n2@)
}

/// When VS3 fails: a modulus `n^2` is zero or the moduli differ; or, once
/// the claimed `z` is reduced and the unit and group checks pass, the
/// first of the checks in order whose signed powers or inverses do not
/// exist: the DF equation (`g^(z_md)`, `h^(z_rd)`), the key equation
/// (`g_cs^(2 z_sk)`), then the decryption equations of `Z_id`, `Z_at` and
/// `Z_nf`, each reached only when the previous checks hold.
pub open spec fn poks3_fails(
    params: PpbParams,
    pk_k: nat,
    c_d: nat,
    z_hat: HecEvalOutput,
    z: HecEvalInput,
    proof: PpbDecProof,
) -> bool {
    let p = params.hecpar.cs_params;
    let n = p.n@;
    let n2 = p.n2@;
    let cn2 = params.cpar.n2@;
    let e = poks3_challenge(params, pk_k, c_d, z_hat, z, proof);
    let gate = {
        &&& z.y_id@ < n && z.y_at@ < n
        &&& is_unit_spec(c_d, n2) && is_unit_spec(pk_k, n2)
        &&& is_unit_spec(proof.r_d_commitment@, n2) && is_unit_spec(proof.r_pk_commitment@, n2)
        &&& is_unit_spec(proof.r_z_id@, n2) && is_unit_spec(proof.r_z_at@, n2) && is_unit_spec(proof.r_z_nf@, n2)
        &&& ct_in_group(z_hat.z_id@, n2) && ct_in_group(z_hat.z_at@, n2) && ct_in_group(z_hat.z_nf@, n2)
    };
    let d_defined = signed_pow_ok(params.cpar.g@, proof.z_md@, cn2) && signed_pow_ok(params.cpar.h@, proof.z_rd@, cn2);
    let pk_defined = signed_pow_ok(p.g@, 2 * proof.z_sk@, n2);
    ||| cn2 == 0 || n2 == 0 || !moduli_match(params)
    ||| gate && (!d_defined || (poks3_d_equation(params, c_d, proof, e) && (!pk_defined || (poks3_pk_equation(
        params,
        pk_k,
        proof,
        e,
    ) && (!dec_equation_defined(p, z_hat.z_id@, z.y_id@, proof.z_sk@) || (dec_equation(
        p,
        z_hat.z_id@,
        z.y_id@,
        proof.r_z_id@,
        proof.z_sk@,
        e,
    ) && (!dec_equation_defined(p, z_hat.z_at@, z.y_at@, proof.z_sk@) || (dec_equation(
        p,
        z_hat.z_at@,
        z.y_at@,
        proof.r_z_at@,
        proof.z_sk@,
        e,
    ) && !dec_equation_defined(p, z_hat.z_nf@, 0, proof.z_sk@)))))))))
}

/// The error VS3 returns when it fails: a zero modulus, then differing
/// moduli, and otherwise a missing inverse.
pub open spec fn poks3_error(params: PpbParams) -> CryptoError {
    if params.cpar.n2@ == 0 || params.hecpar.cs_params.n2@ == 0 {
        CryptoError::InvalidInput("n^2 must be non-zero")
    } else if !moduli_match(params) {
        CryptoError::InvalidInput("PoKS3 requires cpar and HEC modulus to match")
    } else {
        CryptoError::ModularInverseUnavailable
    }
}

/// VS3: verifies the decryption proof `pi_Z` for `(pkAH, Cd, Z, z)`.
///
/// Fails when a modulus `n^2` is zero or the moduli of `cpar` and the HEC
/// parameters differ (`InvalidInput`), or when a signed power or inverse
/// that a check needs does not exist (see `poks3_fails`).
pub fn verify_poks3(
    params: &PpbParams,
    pk_ah: &CsPubKey,
    c_d: &Nat,
    z_hat: &HecEvalOutput,
    z: &HecEvalInput,
    proof: &PpbDecProof,
) -> (r: CryptoResult<bool>)
    ensures
        r is Err <==> poks3_fails(*params, pk_ah.k@, c_d@, *z_hat, *z, *proof),
        r is Err ==> r == Err::<bool, CryptoError>(poks3_error(*params)),
        r matches Ok(b) ==> b == poks3_accepts(*params, pk_ah.k@, c_d@, *z_hat, *z, *proof),
        r == Ok::<bool, CryptoError>(true) ==> ({
            let n = (*params).hecpar.cs_params.n@;
            let n2 = (*params).hecpar.cs_params.n2@;
            let cn2 = (*params).cpar.n2@;
            let hh = (*params).hecpar.cs_params.h@;
            let e = poks3_challenge((*params), pk_ah.k@, c_d@, (*z_hat), (*z), (*proof));
            &&& (*z).y_id@ < n && (*z).y_at@ < n
            &&& (signed_pow((*params).cpar.g@, (*proof).z_md@, cn2) * signed_pow((*params).cpar.h@, (*proof).z_rd@, cn2)) % cn2 == ((*proof).r_d_commitment@ * pow_mod(c_d@, e, cn2)) % cn2
            &&& signed_pow((*params).hecpar.cs_params.g@, 2 * (*proof).z_sk@, n2) == ((*proof).r_pk_commitment@ * pow_mod(pk_ah.k@, 2 * e, n2)) % n2
            &&& signed_pow(pow_mod((*z_hat).z_id@.0, 2, n2), (*proof).z_sk@, n2) == ((*proof).r_z_id@ * pow_mod((pow_mod((*z_hat).z_id@.1, 2, n2) * inv_mod(pow_mod(hh, 2 * (*z).y_id@, n2), n2)) % n2, e, n2)) % n2
            &&& signed_pow(pow_mod((*z_hat).z_at@.0, 2, n2), (*proof).z_sk@, n2) == ((*proof).r_z_at@ * pow_mod((pow_mod((*z_hat).z_at@.1, 2, n2) * inv_mod(pow_mod(hh, 2 * (*z).y_at@, n2), n2)) % n2, e, n2)) % n2
            &&& signed_pow(pow_mod((*z_hat).z_nf@.0, 2, n2), (*proof).z_sk@, n2) == ((*proof).r_z_nf@ * pow_mod((pow_mod((*z_hat).z_nf@.1, 2, n2) * inv_mod(pow_mod(hh, 2 * 0, n2), n2)) % n2, e, n2)) % n2
        }),
{
    if big_is_zero(&params.cpar.n2) || big_is_zero(&params.hecpar.cs_params.n2) {
        return Err(CryptoError::InvalidInput("n^2 must be non-zero"));
    }
    if !big_eq(&params.cpar.n, &params.hecpar.cs_params.n) || !big_eq(&params.cpar.n2, &params.hecpar.cs_params.n2) {
        return Err(CryptoError::InvalidInput("PoKS3 requires cpar and HEC modulus to match"));
    }
    let n = &params.hecpar.cs_params.n;
    let n2 = &params.hecpar.cs_params.n2;
    if !big_lt(&z.y_id, n) || !big_lt(&z.y_at, n) {
        return Ok(false);
    }
    if !is_unit_mod_n2(c_d, n2) || !is_unit_mod_n2(&pk_ah.k, n2) || !is_unit_mod_n2(&proof.r_d_commitment, n2)
        || !is_unit_mod_n2(&proof.r_pk_commitment, n2) || !is_unit_mod_n2(&proof.r_z_id, n2) || !is_unit_mod_n2(
        &proof.r_z_at,
        n2,
    ) || !is_unit_mod_n2(&proof.r_z_nf, n2) || !poks3_ciphertext_in_group(&z_hat.z_id, n2) || !poks3_ciphertext_in_group(
        &z_hat.z_at,
        n2,
    ) || !poks3_ciphertext_in_group(&z_hat.z_nf, n2) {
        return Ok(false);
    }
    let e = fs_challenge_for_poks3(params, pk_ah, c_d, z_hat, z, proof);
    let two = Nat::from_u64(2);
    let cn2 = &params.cpar.n2;
    let g_md = match modpow_signed(&params.cpar.g, &proof.z_md, cn2) {
        Ok(v) => v,
        Err(err) => return Err(err),
    };
    let h_rd = match modpow_signed(&params.cpar.h, &proof.z_rd, cn2) {
        Ok(v) => v,
        Err(err) => return Err(err),
    };
    let lhs_d = big_rem(&big_mul(&g_md, &h_rd), cn2);
    let rhs_d = big_rem(&big_mul(&proof.r_d_commitment, &big_modpow(c_d, &e, cn2)), cn2);
    if !big_eq(&lhs_d, &rhs_d) {
        return Ok(false);
    }
    let lhs_pk = match modpow_signed(&params.hecpar.cs_params.g, &twice(&proof.z_sk), n2) {
        Ok(v) => v,
        Err(err) => return Err(err),
    };
    let rhs_pk = big_rem(&big_mul(&proof.r_pk_commitment, &big_modpow(&pk_ah.k, &big_mul(&two, &e), n2)), n2);
    if !big_eq(&lhs_pk, &rhs_pk) {
        return Ok(false);
    }
    let ok_id = match verify_poks3_decryption_equation(params, &z_hat.z_id, &z.y_id, &proof.r_z_id, &proof.z_sk, &e) {
        Ok(v) => v,
        Err(err) => return Err(err),
    };
    if !ok_id {
        return Ok(false);
    }
    let ok_at = match verify_poks3_decryption_equation(params, &z_hat.z_at, &z.y_at, &proof.r_z_at, &proof.z_sk, &e) {
        Ok(v) => v,
        Err(err) => return Err(err),
    };
    if !ok_at {
        return Ok(false);
    }
    verify_poks3_decryption_equation(params, &z_hat.z_nf, &Nat::zero(), &proof.r_z_nf, &proof.z_sk, &e)
}


/// A reduced number with an inverse modulo `m > 1` is a unit of `[1, m)`.
proof fn lemma_unit_spec_of_inverse(v: nat, i: nat, m: nat)
    requires
        m > 1,
        v < m,
        (v * i) % m == 1,
    ensures
        is_unit_spec(v, m),
{
    crate::math::lemma_inverse_gives_coprime(v, i, m);
    vstd::arithmetic::div_mod::lemma_small_mod(v, m);
    vstd::arithmetic::div_mod::lemma_small_mod(0, m);
    assert(spec_gcd(v, m) == spec_gcd(m, v % m));
    if v == 0 {
        assert(0 * i == 0);
    }
}

/// A unit of `[1, m)` has an inverse modulo `m`: it is coprime to `m`.
proof fn lemma_unit_spec_coprime(v: nat, m: nat)
    requires
        m > 1,
        is_unit_spec(v, m),
    ensures
        spec_gcd(m, v) == 1,
{
    vstd::arithmetic::div_mod::lemma_small_mod(v, m);
    assert(spec_gcd(v, m) == spec_gcd(m, v % m));
}

/// One squared decryption equation of PoKS3 holds for honest responses:
/// `(c0^2)^(k + e sk) == (c0^2)^k ((c0^2)^sk)^e`.
proof fn lemma_poks3_dec_equation(p: CsParams, c: (nat, nat), m: nat, sk: nat, ksk: int, e: nat, z_sk: int, commitment: nat)
    requires
        p.n2@ > 1,
        is_unit_spec(c.0, p.n2@),
        pow_mod(dec_base(p, c), sk, p.n2@) == dec_target(p, c, m),
        commitment == signed_pow(dec_base(p, c), ksk, p.n2@),
        z_sk == ksk + e * sk,
    ensures
        dec_equation(p, c, m, commitment, z_sk, e),
        is_unit_spec(commitment, p.n2@),
{
    let n2 = p.n2@;
    let b = dec_base(p, c);
    lemma_unit_spec_coprime(c.0, n2);
    crate::math::lemma_inv_mod_exists(c.0, n2);
    vstd::arithmetic::div_mod::lemma_small_mod(1, n2);
    crate::powmod::lemma_unit_pow(c.0, inv_mod(c.0, n2), 2, n2);
    crate::math::lemma_inverse_gives_coprime(b, pow_mod(inv_mod(c.0, n2), 2, n2), n2);
    crate::powmod::lemma_pow_mod_mul(b, sk, e, n2);
    crate::cs_commit::lemma_signed_pow_add(b, ksk, (sk * e) as int, n2);
    assert(ksk + (sk * e) as int == z_sk) by (nonlinear_arith)
        requires
            z_sk == ksk + e * sk,
    ;
    crate::cs_commit::lemma_signed_pow_unit(b, ksk, n2);
    lemma_unit_spec_of_inverse(commitment, signed_pow(b, -ksk, n2), n2);
}

/// Completeness of PoKS3: when the witnesses fit the statement, the
/// commitment and encryption bases are units, `Z` lies in the group and `z`
/// is reduced, the proof that the prover outputs is accepted.
pub proof fn lemma_poks3_complete(
    params: PpbParams,
    pk_k: nat,
    d: HecAuditData,
    c_d: nat,
    r_d: nat,
    z_hat: HecEvalOutput,
    z: HecEvalInput,
    ell: nat,
    proof: PpbDecProof,
)
    requires
        moduli_match(params),
        params.hecpar.cs_params.n2@ > 1,
        spec_gcd(params.cpar.n2@, params.cpar.g@) == 1,
        spec_gcd(params.cpar.n2@, params.cpar.h@) == 1,
        spec_gcd(params.hecpar.cs_params.n2@, params.hecpar.cs_params.g@) == 1,
        ct_in_group(z_hat.z_id@, params.hecpar.cs_params.n2@),
        ct_in_group(z_hat.z_at@, params.hecpar.cs_params.n2@),
        ct_in_group(z_hat.z_nf@, params.hecpar.cs_params.n2@),
        z.y_id@ < params.hecpar.cs_params.n@,
        z.y_at@ < params.hecpar.cs_params.n@,
        poks3_witness_holds(params, pk_k, d, c_d, r_d, z_hat, z),
        poks3_prover_output(
            params,
            pk_k,
            c_d,
            z_hat,
            z,
            d_message(d.sk_e.x@, d.fk, nats(d.x@), params.cpar.n@),
            r_d,
            d.sk_e.x@,
            ell,
            proof,
        ),
    ensures
        poks3_accepts(params, pk_k, c_d, z_hat, z, proof),
{
    let p = params.hecpar.cs_params;
    let n2 = p.n2@;
    let g = params.cpar.g@;
    let h = params.cpar.h@;
    let gc = p.g@;
    let sk = d.sk_e.x@;
    let m_d = d_message(sk, d.fk, nats(d.x@), params.cpar.n@);
    let (kmd, krd, ksk) = choose|kmd: int, krd: int, ksk: int|
        #![trigger signed_pow(params.cpar.g@, kmd, n2), signed_pow(params.cpar.h@, krd, n2), signed_pow(dec_base(p, z_hat.z_id@), ksk, n2)]
        -pow2(ell) <= kmd <= pow2(ell) && -pow2(ell) <= krd <= pow2(ell) && -pow2(ell) <= ksk <= pow2(ell) && proof.r_d_commitment@ == (signed_pow(
            params.cpar.g@,
            kmd,
            n2,
        ) * signed_pow(params.cpar.h@, krd, n2)) % n2 && proof.r_pk_commitment@ == signed_pow(p.g@, 2 * ksk, n2)
            && proof.r_z_id@ == signed_pow(dec_base(p, z_hat.z_id@), ksk, n2) && proof.r_z_at@ == signed_pow(
            dec_base(p, z_hat.z_at@),
            ksk,
            n2,
        ) && proof.r_z_nf@ == signed_pow(dec_base(p, z_hat.z_nf@), ksk, n2) && {
            let e = poks3_challenge(params, pk_k, c_d, z_hat, z, proof);
            &&& proof.z_md@ == kmd + e * m_d
            &&& proof.z_rd@ == krd + e * r_d
            &&& proof.z_sk@ == ksk + e * sk
        };
    let e = poks3_challenge(params, pk_k, c_d, z_hat, z, proof);
    vstd::arithmetic::div_mod::lemma_small_mod(1, n2);
    crate::math::lemma_inv_mod_exists(g, n2);
    crate::math::lemma_inv_mod_exists(h, n2);
    crate::math::lemma_inv_mod_exists(gc, n2);
    let gi = inv_mod(g, n2);
    let hi = inv_mod(h, n2);
    let gci = inv_mod(gc, n2);
    // The DF equation and the units `Cd`, `R_d`.
    let a = signed_pow(g, kmd, n2);
    let b = signed_pow(h, krd, n2);
    let cg = signed_pow(g, (m_d * e) as int, n2);
    let ch = signed_pow(h, (r_d * e) as int, n2);
    assert(poks3_d_equation(params, c_d, proof, e)) by {
        crate::powmod::lemma_pair_pow_pow(g, h, m_d, r_d, e, n2);
        crate::cs_commit::lemma_mul4_mod(a, b, cg, ch, n2);
        crate::cs_commit::lemma_signed_pow_add(g, kmd, (m_d * e) as int, n2);
        crate::cs_commit::lemma_signed_pow_add(h, krd, (r_d * e) as int, n2);
        assert(kmd + (m_d * e) as int == proof.z_md@) by (nonlinear_arith)
            requires
                proof.z_md@ == kmd + e * m_d,
        ;
        assert(krd + (r_d * e) as int == proof.z_rd@) by (nonlinear_arith)
            requires
                proof.z_rd@ == krd + e * r_d,
        ;
    }
    assert(is_unit_spec(c_d, n2)) by {
        crate::powmod::lemma_unit_pow(g, gi, m_d, n2);
        crate::powmod::lemma_unit_pow(h, hi, r_d, n2);
        crate::math::lemma_unit_mul(pow_mod(g, m_d, n2), pow_mod(gi, m_d, n2), pow_mod(h, r_d, n2), pow_mod(hi, r_d, n2), n2);
        vstd::arithmetic::div_mod::lemma_mod_bound((pow_mod(g, m_d, n2) * pow_mod(h, r_d, n2)) as int, n2 as int);
        lemma_unit_spec_of_inverse(c_d, (pow_mod(gi, m_d, n2) * pow_mod(hi, r_d, n2)) % n2, n2);
    }
    assert(is_unit_spec(proof.r_d_commitment@, n2)) by {
        crate::cs_commit::lemma_signed_pow_unit(g, kmd, n2);
        crate::cs_commit::lemma_signed_pow_unit(h, krd, n2);
        crate::math::lemma_unit_mul(a, signed_pow(g, -kmd, n2), b, signed_pow(h, -krd, n2), n2);
        vstd::arithmetic::div_mod::lemma_mod_bound((a * b) as int, n2 as int);
        lemma_unit_spec_of_inverse(
            proof.r_d_commitment@,
            (signed_pow(g, -kmd, n2) * signed_pow(h, -krd, n2)) % n2,
            n2,
        );
    }
    // The key equation and the units `pkAH`, `R_pk`.
    let gx = pow_mod(gc, sk, n2);
    crate::powmod::lemma_pow_mod_bound(gc, sk, n2);
    assert(poks3_pk_equation(params, pk_k, proof, e)) by {
        crate::cs::lemma_abs_even_pow(gx, e, n2);
        crate::powmod::lemma_pow_mod_mul(gc, sk, 2 * e, n2);
        crate::cs_commit::lemma_signed_pow_add(gc, 2 * ksk, (sk * (2 * e)) as int, n2);
        assert(2 * ksk + (sk * (2 * e)) as int == 2 * proof.z_sk@) by (nonlinear_arith)
            requires
                proof.z_sk@ == ksk + e * sk,
        ;
    }
    assert(is_unit_spec(pk_k, n2)) by {
        crate::powmod::lemma_unit_pow(gc, gci, sk, n2);
        crate::powmod::lemma_pow_mod_bound(gci, sk, n2);
        let inv = crate::cs::lemma_abs_unit(gx, pow_mod(gci, sk, n2), n2);
        lemma_unit_spec_of_inverse(pk_k, inv, n2);
    }
    assert(is_unit_spec(proof.r_pk_commitment@, n2)) by {
        crate::cs_commit::lemma_signed_pow_unit(gc, 2 * ksk, n2);
        lemma_unit_spec_of_inverse(proof.r_pk_commitment@, signed_pow(gc, -(2 * ksk), n2), n2);
    }
    // The three decryption equations.
    lemma_poks3_dec_equation(p, z_hat.z_id@, z.y_id@, sk, ksk, e, proof.z_sk@, proof.r_z_id@);
    lemma_poks3_dec_equation(p, z_hat.z_at@, z.y_at@, sk, ksk, e, proof.z_sk@, proof.r_z_at@);
    lemma_poks3_dec_equation(p, z_hat.z_nf@, 0, sk, ksk, e, proof.z_sk@, proof.r_z_nf@);
}

/// Draws a blinder from the symmetric interval `[-2^ell, 2^ell]`: `t - 2^ell`
/// for a random `t` below `2^(ell + 1) + 1`, so both signs occur.
///
/// Fails when `ell` is zero.
fn sample_symmetric_bigint(ell: usize) -> (r: CryptoResult<Int>)
    ensures
        r is Ok <==> ell > 0,
        r matches Ok(k) ==> -pow2(ell as nat) <= k@ <= pow2(ell as nat),
        r matches Err(e) ==> e == CryptoError::InvalidInput("ell must be > 0"),
{
    if ell == 0 {
        return Err(CryptoError::InvalidInput("ell must be > 0"));
    }
    let one = Nat::one();
    let two_pow_ell = big_shl(&one, ell);
    let upper_inclusive = big_add(&big_shl(&two_pow_ell, 1), &one);
    proof {
        vstd::arithmetic::power2::lemma_pow2_unfold(1);
        vstd::arithmetic::power2::lemma2_to64();
    }
    let t = random_below(&upper_inclusive);
    Ok(Int::from_nat(&t).sub(&Int::from_nat(&two_pow_ell)))
}

/// The PoKS3 witnesses fit the statement: `Cd = Com(m_d; r_d)` for the
/// message of `d`, `pkAH = |g_cs^sk|`, and `sk` satisfies the decryption
/// relations of `Z_id`, `Z_at` (to `z`) and `Z_nf` (to zero).
pub open spec fn poks3_witness_holds(
    params: PpbParams,
    pk_k: nat,
    d: HecAuditData,
    c_d: nat,
    r_d: nat,
    z_hat: HecEvalOutput,
    z: HecEvalInput,
) -> bool {
    let p = params.hecpar.cs_params;
    let n2 = p.n2@;
    let sk = d.sk_e.x@;
    let m_d = d_message(sk, d.fk, nats(d.x@), params.cpar.n@);
    &&& c_d == df_commit_spec(params.cpar.g@, params.cpar.h@, params.cpar.n2@, m_d, r_d)
    &&& pk_k == abs_rep(pow_mod(p.g@, sk, n2), n2)
    &&& pow_mod(dec_base(p, z_hat.z_id@), sk, n2) == dec_target(p, z_hat.z_id@, z.y_id@)
    &&& pow_mod(dec_base(p, z_hat.z_at@), sk, n2) == dec_target(p, z_hat.z_at@, z.y_at@)
    &&& pow_mod(dec_base(p, z_hat.z_nf@), sk, n2) == dec_target(p, z_hat.z_nf@, 0)
}

/// When the PoKS3 prover succeeds: the moduli agree, `n > 0`, the claimed
/// `z` is reduced, the witness holds with defined decryption relations,
/// the blinding length `B + 2 lambda` is positive and derivable, and every
/// base that the negative blinders raise is a unit: `g, h` of `cpar`, `g`
/// of the encryption and `c0^2` of each component of `Z`.
pub open spec fn poks3_build_ok(
    params: PpbParams,
    pk_k: nat,
    d: HecAuditData,
    c_d: nat,
    r_d: nat,
    z_hat: HecEvalOutput,
    z: HecEvalInput,
) -> bool {
    &&& poks3_checks_pass(params, pk_k, d, c_d, r_d, z_hat, z)
    &&& poks3_bases_units(params, z_hat)
}

/// The checks that the PoKS3 prover makes before it draws its blinders:
/// the moduli agree, `n > 0`, the claimed `z` is reduced, the witness holds
/// with defined decryption relations, and the blinding length
/// `B + 2 lambda` is positive and derivable.
pub open spec fn poks3_checks_pass(
    params: PpbParams,
    pk_k: nat,
    d: HecAuditData,
    c_d: nat,
    r_d: nat,
    z_hat: HecEvalOutput,
    z: HecEvalInput,
) -> bool {
    let p = params.hecpar.cs_params;
    let cn2 = params.cpar.n2@;
    &&& moduli_match(params)
    &&& params.cpar.n@ > 0
    &&& z.y_id@ < p.n@ && z.y_at@ < p.n@
    &&& poks3_witness_holds(params, pk_k, d, c_d, r_d, z_hat, z)
    &&& dec_parts_ok(p, z.y_id@) && dec_parts_ok(p, z.y_at@) && dec_parts_ok(p, 0)
    &&& b2l_ok(cn2, params.lambda_bits as nat) && b_plus_2lambda(cn2, params.lambda_bits as nat) > 0
}

/// Every base that a blinder raises in PoKS3 is a unit: `g, h` of `cpar`,
/// `g` of the encryption and `c0^2` of each component of `Z`. A negative
/// blinder needs their inverses.
pub open spec fn poks3_bases_units(params: PpbParams, z_hat: HecEvalOutput) -> bool {
    let p = params.hecpar.cs_params;
    let n2 = p.n2@;
    let cn2 = params.cpar.n2@;
    &&& spec_gcd(cn2, params.cpar.g@) == 1 && spec_gcd(cn2, params.cpar.h@) == 1
    &&& spec_gcd(n2, p.g@) == 1
    &&& spec_gcd(n2, dec_base(p, z_hat.z_id@)) == 1 && spec_gcd(n2, dec_base(p, z_hat.z_at@)) == 1
        && spec_gcd(n2, dec_base(p, z_hat.z_nf@)) == 1
}

/// What the PoKS3 prover outputs: blinders `k` of `[-2^ell, 2^ell]`, the
/// commitments `R_d = g^kmd h^krd`, `R_pk = g_cs^(2 ksk)` and
/// `R_z = (c0^2)^ksk` for each component of `Z`, and responses
/// `z = k + e w`.
pub open spec fn poks3_prover_output(
    params: PpbParams,
    pk_k: nat,
    c_d: nat,
    z_hat: HecEvalOutput,
    z: HecEvalInput,
    m_d: nat,
    r_d: nat,
    sk: nat,
    ell: nat,
    proof: PpbDecProof,
) -> bool {
    let p = params.hecpar.cs_params;
    let n2 = p.n2@;
    let cn2 = params.cpar.n2@;
    exists|kmd: int, krd: int, ksk: int|
        #![trigger signed_pow(params.cpar.g@, kmd, cn2), signed_pow(params.cpar.h@, krd, cn2), signed_pow(dec_base(p, z_hat.z_id@), ksk, n2)]
        -pow2(ell) <= kmd <= pow2(ell) && -pow2(ell) <= krd <= pow2(ell) && -pow2(ell) <= ksk <= pow2(ell) && proof.r_d_commitment@ == (signed_pow(
            params.cpar.g@,
            kmd,
            cn2,
        ) * signed_pow(params.cpar.h@, krd, cn2)) % cn2 && proof.r_pk_commitment@ == signed_pow(p.g@, 2 * ksk, n2)
            && proof.r_z_id@ == signed_pow(dec_base(p, z_hat.z_id@), ksk, n2) && proof.r_z_at@ == signed_pow(
            dec_base(p, z_hat.z_at@),
            ksk,
            n2,
        ) && proof.r_z_nf@ == signed_pow(dec_base(p, z_hat.z_nf@), ksk, n2) && {
            let e = poks3_challenge(params, pk_k, c_d, z_hat, z, proof);
            &&& proof.z_md@ == kmd + e * m_d
            &&& proof.z_rd@ == krd + e * r_d
            &&& proof.z_sk@ == ksk + e * sk
        }
}

/// PoKS3 (S3): proves that the holder of `d` and `r_d` behind `Cd`, with
/// the key `sk` behind `pkAH`, decrypts `Z` to `z`. The witnesses are
/// checked first; blinders are drawn from `[-2^ell, 2^ell]` with
/// `ell = B + 2 lambda`.
///
/// Fails when the moduli differ, `z` is not reduced, a witness does not
/// fit the statement or the blinding length is unavailable; after the
/// draws, when a negative blinder raises a base that has no inverse.
/// Succeeds whenever those checks pass and every raised base is a unit.
#[verifier::rlimit(30)]
pub fn build_poks3_proof(
    params: &PpbParams,
    pk_ah: &CsPubKey,
    d: &HecAuditData,
    c_d: &Nat,
    r_d: &Nat,
    z_hat: &HecEvalOutput,
    z: &HecEvalInput,
) -> (r: CryptoResult<PpbDecProof>)
    requires
        params.cpar.n2@ > 0,
    ensures
        poks3_build_ok(*params, pk_ah.k@, *d, c_d@, r_d@, *z_hat, *z) ==> r is Ok,
        r is Ok ==> poks3_checks_pass(*params, pk_ah.k@, *d, c_d@, r_d@, *z_hat, *z),
        r is Err && poks3_checks_pass(*params, pk_ah.k@, *d, c_d@, r_d@, *z_hat, *z) ==> r == Err::<PpbDecProof, CryptoError>(CryptoError::ModularInverseUnavailable),
        r matches Err(e) ==> e is InvalidInput || e == CryptoError::ModularInverseUnavailable,
        r matches Ok(p) ==> poks3_prover_output(
            *params,
            pk_ah.k@,
            c_d@,
            *z_hat,
            *z,
            d_message(d.sk_e.x@, d.fk, nats(d.x@), params.cpar.n@),
            r_d@,
            d.sk_e.x@,
            b_plus_2lambda(params.cpar.n2@, params.lambda_bits as nat) as nat,
            p,
        ),
{
    if !big_eq(&params.cpar.n, &params.hecpar.cs_params.n) || !big_eq(&params.cpar.n2, &params.hecpar.cs_params.n2) {
        return Err(CryptoError::InvalidInput("PoKS3 requires cpar and HEC modulus to match"));
    }
    let cs_params = &params.hecpar.cs_params;
    let n2 = &cs_params.n2;
    if !big_lt(&z.y_id, &cs_params.n) || !big_lt(&z.y_at, &cs_params.n) {
        return Err(CryptoError::InvalidInput("PoKS3 plaintext must be in Z_n"));
    }
    let m_d = match map_d_to_df_message(d, &params.cpar.n) {
        Ok(v) => v,
        Err(e) => return Err(e),
    };
    let c_d_expected = match commit_df_with_opening(&params.cpar, &m_d, r_d) {
        Ok(c) => c.c,
        Err(e) => return Err(e),
    };
    if !big_eq(&c_d_expected, c_d) {
        return Err(CryptoError::InvalidInput("PoKS3 witness does not satisfy Cd = Com(m_d; r_d)"));
    }
    let g_sk = big_modpow(&cs_params.g, &d.sk_e.x, n2);
    proof {
        crate::powmod::lemma_pow_mod_bound(cs_params.g@, d.sk_e.x@, n2@);
    }
    let pk_expected = abs_qr_rep(&g_sk, n2);
    if !big_eq(&pk_expected, &pk_ah.k) {
        return Err(CryptoError::InvalidInput("PoKS3 witness does not match pkAH"));
    }
    let zero = Nat::zero();
    let w_id = match poks3_decryption_witness_holds(params, d, &z_hat.z_id, &z.y_id) {
        Ok(v) => v,
        Err(e) => return Err(e),
    };
    if !w_id {
        return Err(CryptoError::InvalidInput("PoKS3 witness does not decrypt Z_hat to z"));
    }
    let w_at = match poks3_decryption_witness_holds(params, d, &z_hat.z_at, &z.y_at) {
        Ok(v) => v,
        Err(e) => return Err(e),
    };
    if !w_at {
        return Err(CryptoError::InvalidInput("PoKS3 witness does not decrypt Z_hat to z"));
    }
    let w_nf = match poks3_decryption_witness_holds(params, d, &z_hat.z_nf, &zero) {
        Ok(v) => v,
        Err(e) => return Err(e),
    };
    if !w_nf {
        return Err(CryptoError::InvalidInput("PoKS3 witness does not decrypt Z_hat to z"));
    }
    let ell = match derive_poks1_blinding_bits(params) {
        Ok(v) => v,
        Err(e) => return Err(e),
    };
    let k_md = match sample_symmetric_bigint(ell) {
        Ok(v) => v,
        Err(e) => return Err(e),
    };
    let k_rd = match sample_symmetric_bigint(ell) {
        Ok(v) => v,
        Err(e) => return Err(e),
    };
    let k_sk = match sample_symmetric_bigint(ell) {
        Ok(v) => v,
        Err(e) => return Err(e),
    };
    let cn2 = &params.cpar.n2;
    let g_kmd = match modpow_signed(&params.cpar.g, &k_md, cn2) {
        Ok(v) => v,
        Err(e) => return Err(e),
    };
    let h_krd = match modpow_signed(&params.cpar.h, &k_rd, cn2) {
        Ok(v) => v,
        Err(e) => return Err(e),
    };
    let r_d_commitment = big_rem(&big_mul(&g_kmd, &h_krd), cn2);
    let two_k_sk = twice(&k_sk);
    let r_pk_commitment = match modpow_signed(&cs_params.g, &two_k_sk, n2) {
        Ok(v) => v,
        Err(e) => return Err(e),
    };
    let (base_id, _) = match poks3_decryption_relation_parts(params, &z_hat.z_id, &z.y_id) {
        Ok(v) => v,
        Err(e) => return Err(e),
    };
    let (base_at, _) = match poks3_decryption_relation_parts(params, &z_hat.z_at, &z.y_at) {
        Ok(v) => v,
        Err(e) => return Err(e),
    };
    let (base_nf, _) = match poks3_decryption_relation_parts(params, &z_hat.z_nf, &zero) {
        Ok(v) => v,
        Err(e) => return Err(e),
    };
    let r_z_id = match modpow_signed(&base_id, &k_sk, n2) {
        Ok(v) => v,
        Err(e) => return Err(e),
    };
    let r_z_at = match modpow_signed(&base_at, &k_sk, n2) {
        Ok(v) => v,
        Err(e) => return Err(e),
    };
    let r_z_nf = match modpow_signed(&base_nf, &k_sk, n2) {
        Ok(v) => v,
        Err(e) => return Err(e),
    };
    let commitments = PpbDecProof {
        r_d_commitment,
        r_pk_commitment,
        r_z_id,
        r_z_at,
        r_z_nf,
        z_md: Int::zero(),
        z_rd: Int::zero(),
        z_sk: Int::zero(),
    };
    let e = fs_challenge_for_poks3(params, pk_ah, c_d, z_hat, z, &commitments);
    let e_int = Int::from_nat(&e);
    let proof = PpbDecProof {
        r_d_commitment: commitments.r_d_commitment,
        r_pk_commitment: commitments.r_pk_commitment,
        r_z_id: commitments.r_z_id,
        r_z_at: commitments.r_z_at,
        r_z_nf: commitments.r_z_nf,
        z_md: k_md.add(&e_int.mul(&Int::from_nat(&m_d))),
        z_rd: k_rd.add(&e_int.mul(&Int::from_nat(r_d))),
        z_sk: k_sk.add(&e_int.mul(&Int::from_nat(&d.sk_e.x))),
    };
    proof {
        assert(poks3_fields(*params, pk_ah.k@, c_d@, *z_hat, *z, proof) =~= poks3_fields(
            *params,
            pk_ah.k@,
            c_d@,
            *z_hat,
            *z,
            commitments,
        ));
        let p = params.hecpar.cs_params;
        assert(signed_pow(params.cpar.g@, k_md@, cn2@) == g_kmd@);
        assert(signed_pow(params.cpar.h@, k_rd@, cn2@) == h_krd@);
        assert(signed_pow(dec_base(p, z_hat.z_id@), k_sk@, n2@) == proof.r_z_id@);
    }
    Ok(proof)
}


// ---------------------------------------------------------------------------
// PoKS2: the user proof of Escrow.
// ---------------------------------------------------------------------------

/// The sign that maps the witness value `raw` to the reduced component
/// `comp mod n^2`: `+1` when they agree, `-1` when `comp` is `-raw`.
pub open spec fn enc_wrap_sign(comp: nat, raw: nat, n2: nat) -> Option<i8> {
    if comp % n2 == raw {
        Some(1i8)
    } else if comp % n2 == apply_sign_spec(raw, -1i8, n2) {
        Some(-1i8)
    } else {
        None
    }
}

/// The witness value `g*^r` of the first ciphertext component.
pub open spec fn enc_raw0(params_ah: CsCommitParams, r_enc: nat) -> nat {
    pow_mod(params_ah.g_star@, r_enc, params_ah.n2@)
}

/// The witness value `k^r h*^y` of the second ciphertext component.
pub open spec fn enc_raw1(params_ah: CsCommitParams, k: nat, y: nat, r_enc: nat) -> nat {
    (pow_mod(k, r_enc, params_ah.n2@) * pow_mod(params_ah.h_star@, y, params_ah.n2@)) % params_ah.n2@
}

/// Wraps a ciphertext `ct = Enc_k(y; r)` as the statement commitment of an
/// encryption proof: `(c0, 1, c1, 1)` modulo `n^2`, with zero randomness
/// and the signs `a1, a2` that turn `g*^r` and `k^r h*^y` into the
/// absolute-value components of `ct`.
///
/// Fails when `n^2` is zero or a component is neither the witness value
/// nor its negation.
fn wrap_ciphertext_for_cs_enc(params_ah: &CsCommitParams, k: &Nat, y: &Nat, r_enc: &Nat, ct: &CsCiphertext) -> (r:
    CryptoResult<CsCommitmentWithOpening>)
    ensures
        ({
            let n2 = params_ah.n2@;
            let s0 = enc_wrap_sign(ct.c0@, enc_raw0(*params_ah, r_enc@), n2);
            let s1 = enc_wrap_sign(ct.c1@, enc_raw1(*params_ah, k@, y@, r_enc@), n2);
            &&& r is Err <==> n2 == 0 || s0 is None || s1 is None
            &&& r matches Ok(w) ==> w.commitment@ == (ct.c0@ % n2, 1nat, ct.c1@ % n2, 1nat) && w.opening@ == (
                s0->0,
                s1->0,
                0nat,
                0nat,
                0nat,
                0nat,
                1i8,
                1i8,
            )
        }),
        r matches Err(e) ==> e is InvalidInput,
{
    if big_is_zero(&params_ah.n2) {
        return Err(CryptoError::InvalidInput("n^2 must be non-zero"));
    }
    let n2 = &params_ah.n2;
    let raw_c0 = big_modpow(&params_ah.g_star, r_enc, n2);
    let raw_c1 = big_rem(&big_mul(&big_modpow(k, r_enc, n2), &big_modpow(&params_ah.h_star, y, n2)), n2);
    let ct_c0 = big_rem(&ct.c0, n2);
    let ct_c1 = big_rem(&ct.c1, n2);
    proof {
        crate::powmod::lemma_pow_mod_bound(params_ah.g_star@, r_enc@, n2@);
        vstd::arithmetic::div_mod::lemma_mod_bound((pow_mod(k@, r_enc@, n2@) * pow_mod(params_ah.h_star@, y@, n2@)) as int, n2@ as int);
    }
    let neg_raw_c0 = if big_is_zero(&raw_c0) {
        Nat::zero()
    } else {
        big_rem(&big_sub(n2, &raw_c0), n2)
    };
    let neg_raw_c1 = if big_is_zero(&raw_c1) {
        Nat::zero()
    } else {
        big_rem(&big_sub(n2, &raw_c1), n2)
    };
    proof {
        vstd::arithmetic::div_mod::lemma_small_mod(raw_c0@, n2@);
        vstd::arithmetic::div_mod::lemma_small_mod(raw_c1@, n2@);
    }
    let a1: i8 = if big_eq(&ct_c0, &raw_c0) {
        1
    } else if big_eq(&ct_c0, &neg_raw_c0) {
        -1
    } else {
        return Err(CryptoError::InvalidInput("ciphertext c0 is incompatible with Enc witness"));
    };
    let a2: i8 = if big_eq(&ct_c1, &raw_c1) {
        1
    } else if big_eq(&ct_c1, &neg_raw_c1) {
        -1
    } else {
        return Err(CryptoError::InvalidInput("ciphertext c1 is incompatible with Enc witness"));
    };
    Ok(CsCommitmentWithOpening {
        commitment: CsCommitment { c1: ct_c0, c2: Nat::one(), c3: ct_c1, c4: Nat::one() },
        opening: CsCommitOpening {
            a1,
            a2,
            s1: Nat::zero(),
            s2: Nat::zero(),
            r1: Nat::zero(),
            r2: Nat::zero(),
            b1: 1,
            b2: 1,
        },
    })
}

/// The product of two `i8` values fits an `i16`.
proof fn lemma_i8_product_bound(a: i8, b: i8)
    ensures
        -16384 <= (a as int) * (b as int) <= 16384,
{
    assert(-16384 <= (a as int) * (b as int) <= 16384) by (nonlinear_arith)
        requires
            -128 <= a <= 127,
            -128 <= b <= 127,
    ;
}

/// The sign vector `b = sign_out * sign_in^exp` of a multiplication
/// proof, for the components `(a1, b1, a2, b2)`.
///
/// Fails when an input sign is not `-1` or `+1`, or a product is not.
fn derive_mult_signs(output_opening: &CsCommitOpening, input_opening: &CsCommitOpening, exp: &Int) -> (r: CryptoResult<
    [i8; 4],
>)
    ensures
        r is Ok <==> pm_one(input_opening.a1) && pm_one(input_opening.b1) && pm_one(input_opening.a2) && pm_one(
            input_opening.b2,
        ) && unit_sign(output_opening.a1 * sign_pow_spec(input_opening.a1, exp@)) && unit_sign(
            output_opening.b1 * sign_pow_spec(input_opening.b1, exp@),
        ) && unit_sign(output_opening.a2 * sign_pow_spec(input_opening.a2, exp@)) && unit_sign(
            output_opening.b2 * sign_pow_spec(input_opening.b2, exp@),
        ),
        r matches Ok(b) ==> b[0] == output_opening.a1 * sign_pow_spec(input_opening.a1, exp@) && b[1]
            == output_opening.b1 * sign_pow_spec(input_opening.b1, exp@) && b[2] == output_opening.a2 * sign_pow_spec(
            input_opening.a2,
            exp@,
        ) && b[3] == output_opening.b2 * sign_pow_spec(input_opening.b2, exp@),
        r matches Err(e) ==> e is InvalidInput,
{
    let in_a1 = match sign_pow_i8(input_opening.a1, exp) {
        Ok(v) => v,
        Err(e) => return Err(e),
    };
    let in_b1 = match sign_pow_i8(input_opening.b1, exp) {
        Ok(v) => v,
        Err(e) => return Err(e),
    };
    let in_a2 = match sign_pow_i8(input_opening.a2, exp) {
        Ok(v) => v,
        Err(e) => return Err(e),
    };
    let in_b2 = match sign_pow_i8(input_opening.b2, exp) {
        Ok(v) => v,
        Err(e) => return Err(e),
    };
    proof {
        lemma_i8_product_bound(output_opening.a1, in_a1);
        lemma_i8_product_bound(output_opening.b1, in_b1);
        lemma_i8_product_bound(output_opening.a2, in_a2);
        lemma_i8_product_bound(output_opening.b2, in_b2);
    }
    let s1 = (output_opening.a1 as i16) * (in_a1 as i16);
    let s2 = (output_opening.b1 as i16) * (in_b1 as i16);
    let s3 = (output_opening.a2 as i16) * (in_a2 as i16);
    let s4 = (output_opening.b2 as i16) * (in_b2 as i16);
    let mut out: [i8; 4] = [0i8; 4];
    if s1 == 1 || s1 == -1 {
        out[0] = s1 as i8;
    } else {
        return Err(CryptoError::InvalidInput("sign must be in {-1,+1}"));
    }
    if s2 == 1 || s2 == -1 {
        out[1] = s2 as i8;
    } else {
        return Err(CryptoError::InvalidInput("sign must be in {-1,+1}"));
    }
    if s3 == 1 || s3 == -1 {
        out[2] = s3 as i8;
    } else {
        return Err(CryptoError::InvalidInput("sign must be in {-1,+1}"));
    }
    if s4 == 1 || s4 == -1 {
        out[3] = s4 as i8;
    } else {
        return Err(CryptoError::InvalidInput("sign must be in {-1,+1}"));
    }
    Ok(out)
}

/// Samples the HECeval randomness `r^Z`: `rid` uniform in `[0, r_y]`,
/// `rat = r_y - rid` (so `rid + rat = r_y` exactly), `r1, r2` in `Z_n` and
/// a non-zero `r3` in `Z_n`, with `r_y` taken modulo `n`. After `u64::MAX`
/// zero draws for `r3` (unreachable in practice) `r3 = 1`.
///
/// Fails when `n <= 1`.
fn sample_hec_eval_randomness(n: &Nat, r_y: &Nat) -> (r: CryptoResult<HecEvalRandomness>)
    ensures
        r is Ok <==> n@ > 1,
        r matches Err(e) ==> e is InvalidInput,
        r matches Ok(rz) ==> rz.rid@ + rz.rat@ == r_y@ % n@ && rz.r1@ < n@ && rz.r2@ < n@ && 0 < rz.r3@ < n@,
{
    let one = Nat::one();
    if !big_lt(&one, n) {
        return Err(CryptoError::InvalidInput("n must be > 1"));
    }
    let r_y_mod = big_rem(r_y, n);
    let rid = if big_is_zero(&r_y_mod) {
        Nat::zero()
    } else {
        random_below(&big_add(&r_y_mod, &one))
    };
    let rat = big_sub(&r_y_mod, &rid);
    let r1 = random_below(n);
    let r2 = random_below(n);
    let mut r3 = random_below(n);
    let mut tries: u64 = 0;
    while big_is_zero(&r3) && tries < u64::MAX
        invariant
            n@ > 1,
            r3@ < n@,
        decreases u64::MAX - tries,
    {
        r3 = random_below(n);
        tries = tries + 1;
    }
    if big_is_zero(&r3) {
        r3 = Nat::one();
    }
    Ok(HecEvalRandomness { rid, rat, r1, r2, r3 })
}


// ---------------------------------------------------------------------------
// VerPK.
// ---------------------------------------------------------------------------

/// The structure of `pk_A` fits `Cx`: `Cx` is the key's, `X` has
/// `fk.n + 1` coefficients (as ciphertexts and as a polynomial), and `Cx`,
/// `Cd` are reduced modulo `n^2`.
pub open spec fn pk_structure_ok(params: PpbParams, pk_a: PpbPublicKey, c_x: nat) -> bool {
    let len = pk_a.x_public.encrypted_coeffs@.len();
    &&& c_x == pk_a.c_x@
    &&& len > 0
    &&& pk_a.fk.n + 1 <= usize::MAX
    &&& len == pk_a.fk.n + 1
    &&& pk_a.x_public.polynomial@.0.len() == pk_a.fk.n + 1
    &&& pk_a.c_x@ < params.cpar.n2@ && pk_a.c_d@ < params.cpar.n2@
}

/// VerPK accepts: the structure fits, the moduli agree, the PoKS1 bases
/// can be derived, and PoKS1 accepts.
pub open spec fn pk_accepts(params: PpbParams, pk_a: PpbPublicKey, c_x: nat) -> bool {
    &&& pk_structure_ok(params, pk_a, c_x)
    &&& moduli_match(params)
    &&& s1_bases_derivable(params, next_pow2(pk_a.x_public.encrypted_coeffs@.len() as nat))
    &&& poks1_accepts(params, pk_a, c_x)
}

/// VerPK(Λ, pk_A, Cx): the structure checks of `pk_A`, then PoKS1; a
/// failing PoKS1 check counts as a rejection.
fn verify_pk_inner(params: &PpbParams, pk_a: &PpbPublicKey, c_x: &Nat) -> (r: bool)
    requires
        params.cpar.n@ > 0,
    ensures
        r == pk_accepts(*params, *pk_a, c_x@),
{
    if !big_eq(c_x, &pk_a.c_x) {
        return false;
    }
    if pk_a.x_public.encrypted_coeffs.len() == 0 {
        return false;
    }
    let expected_coeff_len = match pk_a.fk.n.checked_add(1) {
        Some(v) => v,
        None => return false,
    };
    if pk_a.x_public.encrypted_coeffs.len() != expected_coeff_len {
        return false;
    }
    if pk_a.x_public.polynomial.len() != expected_coeff_len {
        return false;
    }
    if !big_lt(&pk_a.c_x, &params.cpar.n2) || !big_lt(&pk_a.c_d, &params.cpar.n2) {
        return false;
    }
    match verify_poks1(params, pk_a, c_x) {
        Ok(v) => v,
        Err(_) => false,
    }
}

/// VerPK(Λ, pk_A, Cx): accepts exactly when the structure of `pk_A` fits
/// `Cx` and PoKS1 accepts.
pub fn verify_pk(params: &PpbParams, pk_a: &PpbPublicKey, c_x: &Nat) -> (r: bool)
    requires
        params.cpar.n@ > 0,
    ensures
        r == pk_accepts(*params, *pk_a, c_x@),
        r ==> ({
            let k = pk_a.x_public.pk_ah.k@;
            let cs = cts(pk_a.x_public.encrypted_coeffs@);
            let padded = next_pow2(cs.len());
            let fp = pk_a.pi_a.final_proof;
            match s1_replay(*params, k, pk_a.c_x@, pk_a.c_d@, pk_a.c_x@, s1_bases(*params, padded), pad_ones(cs, padded), fold_rounds(pk_a.pi_a.rounds@)) {
                Some(st) => st.1.len() == 1 && st.2.len() == 1 && {
                    let n2 = (*params).cpar.n2@;
                    let e = s1_final_challenge((*params), k, pk_a.c_x@, pk_a.c_d@, st.0, st.1[0], st.2[0], fp);
                    let g = (*params).cpar.g@;
                    let h = (*params).cpar.h@;
                    let hg = (*params).hecpar.cs_params.g@;
                    let hh = (*params).hecpar.cs_params.h@;
                    &&& (pow_mod(st.1[0], 2 * fp.z_x@, n2) * pow_mod(h, 2 * fp.z_rx@, n2)) % n2 == (pow_mod(fp.r_cx@, 2, n2) * pow_mod(st.0, 2 * e, n2)) % n2
                    &&& (pow_mod(g, 2 * fp.z_md@, n2) * pow_mod(h, 2 * fp.z_rd@, n2)) % n2 == (pow_mod(fp.r_cd@, 2, n2) * pow_mod(pk_a.c_d@, 2 * e, n2)) % n2
                    &&& pow_mod(hg, 2 * fp.z_sk@, n2) == (pow_mod(fp.r_pk@, 2, n2) * pow_mod(k, 2 * e, n2)) % n2
                    &&& pow_mod(hg, 2 * fp.z_rho@, n2) == (pow_mod(fp.r_u@, 2, n2) * pow_mod(st.2[0].0, 2 * e, n2)) % n2
                    &&& (pow_mod(k, 2 * fp.z_rho@, n2) * pow_mod(hh, 2 * fp.z_x@, n2)) % n2 == (pow_mod(fp.r_v@, 2, n2) * pow_mod(st.2[0].1, 2 * e, n2)) % n2
                },
                None => false,
            }
        }),
{
    verify_pk_inner(params, pk_a, c_x)
}

/// PoKS2's parameter stage accepts: the moduli agree, `n^2 > 0`, and the
/// base `g` of `pi_U` lies in `(0, n^2)`.
pub open spec fn poks2_params_ok(params: PpbParams, ah_g: nat) -> bool {
    moduli_match(params) && params.cpar.n2@ > 0 && 0 < ah_g < params.cpar.n2@
}

/// The error of PoKS2's parameter stage: differing moduli, then a zero
/// `n^2`, then a base `g` outside `(0, n^2)`.
pub open spec fn poks2_params_error(params: PpbParams) -> CryptoError {
    if !moduli_match(params) {
        CryptoError::InvalidInput("PoKS2 requires cpar and hec CS modulus to match")
    } else if params.cpar.n2@ == 0 {
        CryptoError::InvalidInput("n^2 must be non-zero")
    } else {
        CryptoError::InvalidInput("invalid ah_g in proof")
    }
}

/// Rebuilds the commitment parameters of PoKS2 from the base `g` carried
/// in `pi_U`: `(n, n^2, g, g_cs, h_cs, g_cpar, h_cpar, lambda)`.
///
/// Fails when the moduli differ, `n^2` is zero, or `g` is not in `[1, n^2)`.
fn build_cs_commit_params_from_user_proof(params: &PpbParams, ah_g: &Nat) -> (r: CryptoResult<CsCommitParams>)
    ensures
        r is Ok <==> moduli_match(*params) && params.cpar.n2@ > 0 && 0 < ah_g@ < params.cpar.n2@,
        r is Err ==> r == Err::<CsCommitParams, CryptoError>(poks2_params_error(*params)),
        r matches Ok(p) ==> p@ == (
            params.cpar.n@,
            params.cpar.n2@,
            ah_g@,
            params.hecpar.cs_params.g@,
            params.hecpar.cs_params.h@,
            params.cpar.g@,
            params.cpar.h@,
            params.lambda_bits,
        ),
{
    if !big_eq(&params.cpar.n, &params.hecpar.cs_params.n) || !big_eq(&params.cpar.n2, &params.hecpar.cs_params.n2) {
        return Err(CryptoError::InvalidInput("PoKS2 requires cpar and hec CS modulus to match"));
    }
    if big_is_zero(&params.cpar.n2) {
        return Err(CryptoError::InvalidInput("n^2 must be non-zero"));
    }
    if big_is_zero(ah_g) || !big_lt(ah_g, &params.cpar.n2) {
        return Err(CryptoError::InvalidInput("invalid ah_g in proof"));
    }
    Ok(CsCommitParams {
        n: params.cpar.n.copy(),
        n2: params.cpar.n2.copy(),
        g: ah_g.copy(),
        g_star: params.hecpar.cs_params.g.copy(),
        h_star: params.hecpar.cs_params.h.copy(),
        g_prime: params.cpar.g.copy(),
        h_prime: params.cpar.h.copy(),
        lambda_bits: params.lambda_bits,
    })
}

/// The statement commitment `(c0, 1, c1, 1)` modulo `n^2` of a ciphertext.
pub open spec fn enc_statement(n2: nat, c: (nat, nat)) -> (nat, nat, nat, nat) {
    (c.0 % n2, 1nat, c.1 % n2, 1nat)
}

/// Projects a ciphertext onto the statement commitment `(c0, 1, c1, 1)`
/// checked by the encryption, multiplication and addition proofs.
fn build_enc_statement_commitment(params_ah: &CsCommitParams, ct: &CsCiphertext) -> (r: CsCommitment)
    requires
        params_ah.n2@ > 0,
    ensures
        r@ == enc_statement(params_ah.n2@, ct@),
{
    CsCommitment { c1: big_rem(&ct.c0, &params_ah.n2), c2: Nat::one(), c3: big_rem(&ct.c1, &params_ah.n2), c4: Nat::one() }
}

/// The first aux entry of `round`, if any.
pub open spec fn find_aux_round(aux: Seq<PoKAuxEntry>, round: nat) -> Option<int>
    decreases aux.len(),
{
    if aux.len() == 0 {
        None
    } else {
        match find_aux_round(aux.drop_last(), round) {
            Some(i) => Some(i),
            None => if aux.last().round == round {
                Some((aux.len() - 1) as int)
            } else {
                None
            },
        }
    }
}

/// The public commitment `Cy_power` for `power == 1` (the root `Cy`) or a
/// power of two `2^i` (the first aux entry of round `i`).
pub open spec fn aux_lookup(power: nat, root_cy: nat, aux: Seq<PoKAuxEntry>) -> Option<nat> {
    if power == 1 {
        Some(root_cy)
    } else if !is_pow2(power) {
        None
    } else {
        match find_aux_round(aux, log2_floor(power)) {
            Some(i) => Some(aux[i].cy_2i@),
            None => None,
        }
    }
}

/// Aux entries that match the prover's openings find the same round.
pub(crate) proof fn lemma_find_round_matches(aux: Seq<PoKAuxEntry>, openings: Seq<PoKAuxOpeningEntry>, round: nat)
    requires
        aux_matches(aux, openings),
    ensures
        find_aux_round(aux, round) == find_round(openings, round),
    decreases aux.len(),
{
    if aux.len() > 0 {
        assert(aux_matches(aux.drop_last(), openings.drop_last()));
        lemma_find_round_matches(aux.drop_last(), openings.drop_last(), round);
    }
}

/// The public commitment of `y^half` is the one the prover took from its
/// matching openings.
pub(crate) proof fn lemma_aux_lookup_matches(aux: Seq<PoKAuxEntry>, openings: Seq<PoKAuxOpeningEntry>, half: nat, cy: nat, cy_half: nat)
    requires
        aux_matches(aux, openings),
        half == 1 || (is_pow2(half) && find_round(openings, log2_floor(half)) is Some),
        half == 1 ==> cy_half == cy,
        half != 1 ==> cy_half == openings[find_round(openings, log2_floor(half))->0].cy_2i@,
    ensures
        aux_lookup(half, cy, aux) == Some(cy_half),
{
    lemma_find_round_matches(aux, openings, log2_floor(half));
    if half != 1 {
        let i = find_round(openings, log2_floor(half))->0;
        lemma_find_round_index(openings, log2_floor(half));
        assert(aux[i].cy_2i@ == openings[i].cy_2i@);
    }
}

/// `find_aux_round` on a prefix: an index found there stays valid.
proof fn lemma_find_aux_round_prefix(aux: Seq<PoKAuxEntry>, len: nat, round: nat)
    requires
        len <= aux.len(),
    ensures
        find_aux_round(aux.subrange(0, len as int), round) matches Some(i) ==> 0 <= i < len && aux[i].round == round,
    decreases len,
{
    if len > 0 {
        let pre = aux.subrange(0, len as int);
        assert(pre.drop_last() =~= aux.subrange(0, len - 1));
        lemma_find_aux_round_prefix(aux, (len - 1) as nat, round);
    }
}

/// Looks up `Cy_power` among the public aux entries.
///
/// Fails when `power` is neither one nor a power of two, or no aux entry
/// has the round `log2(power)`.
fn lookup_cy_for_power_from_aux(power: usize, root_cy: &Nat, aux: &[PoKAuxEntry]) -> (r: CryptoResult<Nat>)
    ensures
        r is Ok <==> aux_lookup(power as nat, root_cy@, aux@) is Some,
        r matches Ok(v) ==> aux_lookup(power as nat, root_cy@, aux@) == Some(v@),
        r is Err ==> r == Err::<Nat, CryptoError>(aux_lookup_error(power as nat)),
{
    if power == 1 {
        return Ok(root_cy.copy());
    }
    if !is_power_of_two_usize(power) {
        return Err(CryptoError::InvalidInput("power must be a power of two"));
    }
    let round = ilog2_usize(power);
    let mut i: usize = 0;
    while i < aux.len()
        invariant
            i <= aux@.len(),
            power != 1,
            is_pow2(power as nat),
            round as nat == log2_floor(power as nat),
            find_aux_round(aux@.subrange(0, i as int), round as nat) is None,
        decreases aux.len() - i,
    {
        proof {
            assert(aux@.subrange(0, i + 1).drop_last() =~= aux@.subrange(0, i as int));
        }
        if aux[i].round == round {
            proof {
                assert(find_aux_round(aux@.subrange(0, i + 1), round as nat) == Some(i as int));
                lemma_find_aux_extend(aux@, (i + 1) as nat, round as nat);
                assert(find_aux_round(aux@, round as nat) == Some(i as int));
                assert(round as nat == log2_floor(power as nat));
                assert(aux_lookup(power as nat, root_cy@, aux@) == Some(aux@[i as int].cy_2i@));
            }
            return Ok(aux[i].cy_2i.copy());
        }
        i = i + 1;
    }
    proof {
        assert(aux@.subrange(0, aux@.len() as int) =~= aux@);
    }
    Err(CryptoError::InvalidInput("aux does not contain required Cy(2^i)"))
}

/// The error of a failed aux lookup: a power that is not a power of two,
/// or no aux entry for its round.
pub open spec fn aux_lookup_error(power: nat) -> CryptoError {
    if power != 1 && !is_pow2(power) {
        CryptoError::InvalidInput("power must be a power of two")
    } else {
        CryptoError::InvalidInput("aux does not contain required Cy(2^i)")
    }
}

/// The error a failing shell round reports: the aux lookup's when the
/// addition check passes and the lookup is what fails, and otherwise the
/// error of a sub-verifier, a missing inverse.
pub open spec fn shell_round_error(pa: CsCommitParams, root_cy: nat, half: nat, aux: Seq<PoKAuxEntry>, round: PoKStarRoundProof) -> CryptoError {
    if !cs_add_fails(pa, round.c1, round.c2, round.pi_e_eq_e1_plus_e2) && aux_lookup(half, root_cy, aux) is None {
        aux_lookup_error(half)
    } else {
        verifier_error(pa.n2@)
    }
}

/// The error the PoK*_P shell verifier reports when it fails: that of the
/// first failing round, or a missing inverse at the base.
#[verifier::opaque]
pub open spec fn shell_error(
    pa: CsCommitParams,
    root_cy: nat,
    cv: Seq<(nat, nat)>,
    cp: CsCommitment,
    aux: Seq<PoKAuxEntry>,
    star: PoKStarProof,
    tv: (nat, Seq<(nat, nat)>, (nat, nat), Seq<nat>),
) -> CryptoError
    decreases star,
{
    match star {
        PoKStarProof::Base { pi_open_cp } => verifier_error(pa.n2@),
        PoKStarProof::Recursive { round, next } => {
            if shell_round_fails(pa, root_cy, (cv.len() / 2) as nat, cp, aux, round) {
                shell_round_error(pa, root_cy, (cv.len() / 2) as nat, aux, round)
            } else {
                shell_error(
                    pa,
                    root_cy,
                    fold_level(cv, round.alpha@, pa.n2@),
                    round.c_p_prime,
                    aux,
                    *next,
                    tau_append_view(tv, round),
                )
            }
        },
    }
}

/// An index found in a prefix is the index found in the whole sequence.
proof fn lemma_find_aux_extend(aux: Seq<PoKAuxEntry>, len: nat, round: nat)
    requires
        len <= aux.len(),
        find_aux_round(aux.subrange(0, len as int), round) is Some,
    ensures
        find_aux_round(aux, round) == find_aux_round(aux.subrange(0, len as int), round),
    decreases aux.len() - len,
{
    if len < aux.len() {
        let next = aux.subrange(0, (len + 1) as int);
        assert(next.drop_last() =~= aux.subrange(0, len as int));
        lemma_find_aux_extend(aux, len + 1, round);
    } else {
        assert(aux.subrange(0, len as int) =~= aux);
    }
}


/// The DF parameters `(n, n^2, g', h')` carried by the commitment
/// parameters, under which the folding challenges are opened.
pub open spec fn alpha_df_params(pa: CsCommitParams) -> DfParams {
    DfParams { n: pa.n, n2: pa.n2, g: pa.g_prime, h: pa.h_prime }
}

/// The checks of one recursive PoK*_P level with `half` ciphertexts in
/// each half: the opening proofs of `C1, C2, C3, C_alpha e3, CP'`,
/// `E = E1 + E2`, `Cy_half` from the aux chain, `E2 = y_half E3`,
/// `C_alpha e3 = alpha E3`, the opening of `Cy_alpha` to `alpha`,
/// `E' = E1 + alpha E3`, and `alpha` recomputed from the transcript.
pub open spec fn shell_round_ok(
    pa: CsCommitParams,
    root_cy: nat,
    half: nat,
    cp: CsCommitment,
    aux: Seq<PoKAuxEntry>,
    round: PoKStarRoundProof,
    tv: (nat, Seq<(nat, nat)>, (nat, nat), Seq<nat>),
) -> bool {
    &&& cs_com_accepts(pa, round.c1, round.pi_c1) && cs_com_accepts(pa, round.c2, round.pi_c2)
    &&& cs_com_accepts(pa, round.c3, round.pi_c3) && cs_com_accepts(pa, round.c_alpha_e3, round.pi_c_alpha_e3)
    &&& cs_com_accepts(pa, round.c_p_prime, round.pi_c_p_prime)
    &&& cs_add_accepts(pa, round.c1, round.c2, cp, round.pi_e_eq_e1_plus_e2)
    &&& aux_lookup(half, root_cy, aux) == Some(round.cy_half@)
    &&& cs_mult_accepts(pa, round.c2, round.c3, round.cy_half@, round.pi_e2_eq_y_half_mul_e3)
    &&& cs_mult_accepts(pa, round.c_alpha_e3, round.c3, round.cy_alpha@, round.pi_alpha_mul_e3)
    &&& df_open_accepts(alpha_df_params(pa), round.cy_alpha@, round.alpha@, round.pi_cy_alpha)
    &&& cs_add_accepts(pa, round.c1, round.c_alpha_e3, round.c_p_prime, round.pi_eprime_eq_e1_plus_alphae3)
    &&& round.alpha@ == challenge_of(alpha_fields_v(round.c1, round.c2, round.c3, tv))
}

/// When checking one PoK*_P level fails: after the five opening proofs
/// hold, the first check in order that cannot be computed: `E = E1 + E2`,
/// the aux commitment `Cy_half` (missing), `E2 = y_half E3`,
/// `C_alpha e3 = alpha E3`, the opening of `Cy_alpha` (`g'^alpha` not
/// invertible) and `E' = E1 + alpha E3`, each reached only when the
/// previous ones hold.
pub open spec fn shell_round_fails(
    pa: CsCommitParams,
    root_cy: nat,
    half: nat,
    cp: CsCommitment,
    aux: Seq<PoKAuxEntry>,
    round: PoKStarRoundProof,
) -> bool {
    let n2 = pa.n2@;
    let coms_ok = cs_com_accepts(pa, round.c1, round.pi_c1) && cs_com_accepts(pa, round.c2, round.pi_c2)
        && cs_com_accepts(pa, round.c3, round.pi_c3) && cs_com_accepts(pa, round.c_alpha_e3, round.pi_c_alpha_e3)
        && cs_com_accepts(pa, round.c_p_prime, round.pi_c_p_prime);
    let df_fails = n2 == 0 || spec_gcd(n2, pow_mod(pa.g_prime@, round.alpha@, n2)) != 1;
    coms_ok && (cs_add_fails(pa, round.c1, round.c2, round.pi_e_eq_e1_plus_e2) || (cs_add_accepts(
        pa,
        round.c1,
        round.c2,
        cp,
        round.pi_e_eq_e1_plus_e2,
    ) && (aux_lookup(half, root_cy, aux) is None || (aux_lookup(half, root_cy, aux) == Some(round.cy_half@) && (
    cs_mult_fails(pa, round.c3, round.pi_e2_eq_y_half_mul_e3) || (cs_mult_accepts(
        pa,
        round.c2,
        round.c3,
        round.cy_half@,
        round.pi_e2_eq_y_half_mul_e3,
    ) && (cs_mult_fails(pa, round.c3, round.pi_alpha_mul_e3) || (cs_mult_accepts(
        pa,
        round.c_alpha_e3,
        round.c3,
        round.cy_alpha@,
        round.pi_alpha_mul_e3,
    ) && (df_fails || (df_open_accepts(alpha_df_params(pa), round.cy_alpha@, round.alpha@, round.pi_cy_alpha)
        && cs_add_fails(pa, round.c1, round.c_alpha_e3, round.pi_eprime_eq_e1_plus_alphae3)))))))))))
}

/// Checks one recursive PoK*_P level (without the recursion).
///
/// Fails when a sub-verifier fails, the aux commitment is missing, or a
/// needed inverse does not exist.
#[verifier::rlimit(30)]
fn verify_shell_round(
    params_ah: &CsCommitParams,
    params_df_for_alpha: &DfParams,
    root_cy: &Nat,
    half: usize,
    current_c_p_commitment: &CsCommitment,
    aux: &[PoKAuxEntry],
    round: &PoKStarRoundProof,
    tau: &PoKTranscript,
) -> (r: CryptoResult<bool>)
    requires
        params_ah.n2@ > 0,
        params_df_for_alpha.n@ == params_ah.n@,
        params_df_for_alpha.n2@ == params_ah.n2@,
        params_df_for_alpha.g@ == params_ah.g_prime@,
        params_df_for_alpha.h@ == params_ah.h_prime@,
    ensures
        r is Err <==> shell_round_fails(*params_ah, root_cy@, half as nat, *current_c_p_commitment, aux@, *round),
        r is Err ==> r == Err::<bool, CryptoError>(shell_round_error(*params_ah, root_cy@, half as nat, aux@, *round)),
        r matches Ok(b) ==> b == shell_round_ok(*params_ah, root_cy@, half as nat, *current_c_p_commitment, aux@, *round, tau_view(*tau)),
        r == Ok::<bool, CryptoError>(true) ==> ({
            let pa = *params_ah;
            &&& cs_com_accepts(pa, round.c1, round.pi_c1)
            &&& cs_com_accepts(pa, round.c2, round.pi_c2)
            &&& cs_com_accepts(pa, round.c3, round.pi_c3)
            &&& cs_com_accepts(pa, round.c_alpha_e3, round.pi_c_alpha_e3)
            &&& cs_com_accepts(pa, round.c_p_prime, round.pi_c_p_prime)
            &&& cs_add_accepts(pa, round.c1, round.c2, *current_c_p_commitment, round.pi_e_eq_e1_plus_e2)
            &&& aux_lookup(half as nat, root_cy@, aux@) == Some(round.cy_half@)
            &&& cs_mult_accepts(pa, round.c2, round.c3, round.cy_half@, round.pi_e2_eq_y_half_mul_e3)
            &&& cs_mult_accepts(pa, round.c_alpha_e3, round.c3, round.cy_alpha@, round.pi_alpha_mul_e3)
            &&& df_open_accepts(alpha_df_params(pa), round.cy_alpha@, round.alpha@, round.pi_cy_alpha)
            &&& cs_add_accepts(pa, round.c1, round.c_alpha_e3, round.c_p_prime, round.pi_eprime_eq_e1_plus_alphae3)
            &&& round.alpha@ == challenge_of(alpha_fields_v(round.c1, round.c2, round.c3, tau_view(*tau)))
        }),
{
    let ok1 = match verify_cs_com(params_ah, &round.c1, &round.pi_c1) {
        Ok(v) => v,
        Err(e) => return Err(e),
    };
    let ok2 = match verify_cs_com(params_ah, &round.c2, &round.pi_c2) {
        Ok(v) => v,
        Err(e) => return Err(e),
    };
    let ok3 = match verify_cs_com(params_ah, &round.c3, &round.pi_c3) {
        Ok(v) => v,
        Err(e) => return Err(e),
    };
    let ok4 = match verify_cs_com(params_ah, &round.c_alpha_e3, &round.pi_c_alpha_e3) {
        Ok(v) => v,
        Err(e) => return Err(e),
    };
    let ok5 = match verify_cs_com(params_ah, &round.c_p_prime, &round.pi_c_p_prime) {
        Ok(v) => v,
        Err(e) => return Err(e),
    };
    if !ok1 || !ok2 || !ok3 || !ok4 || !ok5 {
        return Ok(false);
    }
    let add1 = match verify_cs_add(params_ah, &round.c1, &round.c2, current_c_p_commitment, &round.pi_e_eq_e1_plus_e2) {
        Ok(v) => v,
        Err(e) => return Err(e),
    };
    if !add1 {
        return Ok(false);
    }
    let expected_cy_half = match lookup_cy_for_power_from_aux(half, root_cy, aux) {
        Ok(v) => v,
        Err(e) => return Err(e),
    };
    if !big_eq(&expected_cy_half, &round.cy_half) {
        return Ok(false);
    }
    let mult1 = match verify_cs_mult(params_ah, &round.c2, &round.c3, &round.cy_half, &round.pi_e2_eq_y_half_mul_e3) {
        Ok(v) => v,
        Err(e) => return Err(e),
    };
    if !mult1 {
        return Ok(false);
    }
    let mult2 = match verify_cs_mult(params_ah, &round.c_alpha_e3, &round.c3, &round.cy_alpha, &round.pi_alpha_mul_e3) {
        Ok(v) => v,
        Err(e) => return Err(e),
    };
    if !mult2 {
        return Ok(false);
    }
    let open_ok = match verify_df_open_public_scalar(params_df_for_alpha, &round.cy_alpha, &round.alpha, &round.pi_cy_alpha) {
        Ok(v) => v,
        Err(e) => return Err(e),
    };
    proof {
        assert(df_open_accepts(*params_df_for_alpha, round.cy_alpha@, round.alpha@, round.pi_cy_alpha) == df_open_accepts(
            alpha_df_params(*params_ah),
            round.cy_alpha@,
            round.alpha@,
            round.pi_cy_alpha,
        ));
    }
    if !open_ok {
        return Ok(false);
    }
    let add2 = match verify_cs_add(params_ah, &round.c1, &round.c_alpha_e3, &round.c_p_prime, &round.pi_eprime_eq_e1_plus_alphae3) {
        Ok(v) => v,
        Err(e) => return Err(e),
    };
    if !add2 {
        return Ok(false);
    }
    let expected_alpha = fs_alpha_for_pok_star(&round.c1, &round.c2, &round.c3, tau);
    Ok(big_eq(&expected_alpha, &round.alpha))
}

/// What the verifier of PoK*_P checks on public values, level by level:
/// at the base, that `CP` opens to the single (folded) public ciphertext;
/// at a recursive level, the opening proofs of `C1, C2, C3, C_alpha e3,
/// CP'`, `E = E1 + E2`, `Cy_half` from the aux chain, `E2 = y_half E3`,
/// `C_alpha e3 = alpha E3`, the opening of `Cy_alpha` to `alpha`,
/// `E' = E1 + alpha E3`, `alpha` recomputed from the transcript, and the
/// next level on the folded ciphertexts and the extended transcript.
pub open spec fn shell_accepts(
    pa: CsCommitParams,
    root_cy: nat,
    cv: Seq<(nat, nat)>,
    cp: CsCommitment,
    aux: Seq<PoKAuxEntry>,
    star: PoKStarProof,
    tv: (nat, Seq<(nat, nat)>, (nat, nat), Seq<nat>),
) -> bool
    decreases star,
{
    let n2 = pa.n2@;
    if cv.len() == 0 || !is_pow2(cv.len()) {
        false
    } else {
        match star {
            PoKStarProof::Base { pi_open_cp } => {
                let u = cv[0].0 % n2;
                let v = cv[0].1 % n2;
                cv.len() == 1 && spec_gcd(u, n2) == 1 && spec_gcd(v, n2) == 1 && cs_com_ct_accepts(pa, cp, u, v, pi_open_cp)
            },
            PoKStarProof::Recursive { round, next } => {
                &&& cv.len() >= 2 && cv.len() % 2 == 0
                &&& shell_round_ok(pa, root_cy, (cv.len() / 2) as nat, cp, aux, round, tv)
                &&& shell_accepts(
                    pa,
                    root_cy,
                    fold_level(cv, round.alpha@, n2),
                    round.c_p_prime,
                    aux,
                    *next,
                    tau_append_view(tv, round),
                )
            },
        }
    }
}

/// When checking the shell of PoK*_P fails: at the base, the opening of
/// `CP` to the single ciphertext cannot be checked; at a recursive level,
/// the level's checks fail, or they hold and the next level fails.
pub open spec fn shell_fails(
    pa: CsCommitParams,
    root_cy: nat,
    cv: Seq<(nat, nat)>,
    cp: CsCommitment,
    aux: Seq<PoKAuxEntry>,
    star: PoKStarProof,
    tv: (nat, Seq<(nat, nat)>, (nat, nat), Seq<nat>),
) -> bool
    decreases star,
{
    let n2 = pa.n2@;
    if cv.len() == 0 || !is_pow2(cv.len()) {
        false
    } else {
        match star {
            PoKStarProof::Base { pi_open_cp } => cv.len() == 1 && cs_com_ct_fails(pa, cv[0]),
            PoKStarProof::Recursive { round, next } => {
                &&& cv.len() >= 2 && cv.len() % 2 == 0
                &&& shell_round_fails(pa, root_cy, (cv.len() / 2) as nat, cp, aux, round) || (shell_round_ok(
                    pa,
                    root_cy,
                    (cv.len() / 2) as nat,
                    cp,
                    aux,
                    round,
                    tv,
                ) && shell_fails(
                    pa,
                    root_cy,
                    fold_level(cv, round.alpha@, n2),
                    round.c_p_prime,
                    aux,
                    *next,
                    tau_append_view(tv, round),
                ))
            },
        }
    }
}

/// Checks the public shell of a PoK*_P proof on the current ciphertexts
/// and commitment `CP`, recursing on the folded ciphertexts with the
/// transcript extended by each round.
///
/// Fails when a sub-verifier fails, an aux commitment is missing, or a
/// needed inverse does not exist.
fn verify_pok_star_public_shell(
    params_ah: &CsCommitParams,
    params_df_for_alpha: &DfParams,
    root_cy: &Nat,
    current_c_values: &[CsCiphertext],
    current_c_p_commitment: &CsCommitment,
    aux: &[PoKAuxEntry],
    star_proof: &PoKStarProof,
    tau: &PoKTranscript,
) -> (r: CryptoResult<bool>)
    requires
        params_ah.n2@ > 0,
        params_df_for_alpha.n@ == params_ah.n@,
        params_df_for_alpha.n2@ == params_ah.n2@,
        params_df_for_alpha.g@ == params_ah.g_prime@,
        params_df_for_alpha.h@ == params_ah.h_prime@,
    ensures
        r is Err <==> shell_fails(
            *params_ah,
            root_cy@,
            cts(current_c_values@),
            *current_c_p_commitment,
            aux@,
            *star_proof,
            tau_view(*tau),
        ),
        r is Err ==> r == Err::<bool, CryptoError>(shell_error(
            *params_ah,
            root_cy@,
            cts(current_c_values@),
            *current_c_p_commitment,
            aux@,
            *star_proof,
            tau_view(*tau),
        )),
        r matches Ok(b) ==> b == shell_accepts(
            *params_ah,
            root_cy@,
            cts(current_c_values@),
            *current_c_p_commitment,
            aux@,
            *star_proof,
            tau_view(*tau),
        ),
    decreases star_proof,
{
    reveal(shell_error);
    let len = current_c_values.len();
    if len == 0 || !is_power_of_two_usize(len) {
        return Ok(false);
    }
    match star_proof {
        PoKStarProof::Base { pi_open_cp } => {
            if len != 1 {
                return Ok(false);
            }
            verify_cs_com_ciphertext(params_ah, current_c_p_commitment, &current_c_values[0], pi_open_cp)
        },
        PoKStarProof::Recursive { round, next } => {
            if len < 2 || len % 2 != 0 {
                return Ok(false);
            }
            let round_ok = match verify_shell_round(
                params_ah,
                params_df_for_alpha,
                root_cy,
                len / 2,
                current_c_p_commitment,
                aux,
                round,
                tau,
            ) {
                Ok(v) => v,
                Err(e) => return Err(e),
            };
            if !round_ok {
                return Ok(false);
            }
            let tau_next = append_round_to_tau(tau, round);
            let poly = match CiphertextPolynomial::new(copy_cts(current_c_values), &params_ah.n2) {
                Ok(p) => p,
                Err(e) => return Err(e),
            };
            let (lower_poly, upper_poly) = poly.split_in_half();
            let folded_poly = lower_poly.fold(&upper_poly, &round.alpha);
            let next_values = copy_cts(folded_poly.coeffs());
            proof {
                let cv = cts(current_c_values@);
                assert(cts(next_values@) =~= fold_level(cv, round.alpha@, params_ah.n2@));
                assert(tau_view(tau_next) == tau_append_view(tau_view(*tau), *round));
            }
            verify_pok_star_public_shell(
                params_ah,
                params_df_for_alpha,
                root_cy,
                next_values.as_slice(),
                &round.c_p_prime,
                aux,
                next,
                &tau_next,
            )
        },
    }
}


/// The commitment the aux entry at index `i` squares: the root `Cy` for
/// the first entry, the previous entry's `Cy_2^i` after it.
pub open spec fn aux_prev_cy(cy: nat, aux: Seq<PoKAuxEntry>, i: int) -> nat {
    if i == 0 {
        cy
    } else {
        aux[i - 1].cy_2i@
    }
}

/// One aux entry is consistent: it has the given round, its commitments
/// are reduced, `C_w` commits to the square of what `prev` commits to, and
/// `C_w == Cy_2^i * C_k^n` (the reduction modulo `n`).
#[verifier::opaque]
pub open spec fn aux_entry_ok(pdf: DfParams, prev: nat, entry: PoKAuxEntry, round: nat) -> bool {
    let n2 = pdf.n2@;
    &&& entry.round == round
    &&& entry.cy_2i@ < n2 && entry.c_w@ < n2 && entry.c_k@ < n2
    &&& square_accepts(pdf, prev, entry.c_w@, entry.pi_y2i)
    &&& (entry.cy_2i@ * pow_mod(entry.c_k@, pdf.n@, n2)) % n2 == entry.c_w@
}

/// The public components of a PoKP proof check out for `Cy` and the
/// coefficient ciphertexts: a power-of-two length, the transcript holds
/// `Cy` and (modulo `n^2`) the ciphertexts with an empty history, `CP` is
/// the zero-randomness wrap of the transcript's `cP`, the aux chain has
/// `log2(len) - 1` consistent entries, and the PoK*_P shell accepts.
#[verifier::opaque]
pub open spec fn pokp_accepts(pa: CsCommitParams, pdf: DfParams, cy: nat, cv: Seq<(nat, nat)>, pp: PoKPProof) -> bool {
    let len = cv.len();
    let n2 = pa.n2@;
    let rounds = log2_floor(len);
    let aux_rounds: nat = if rounds >= 1 { (rounds - 1) as nat } else { 0 };
    let tcs = cts(pp.tau.c_values@);
    &&& len > 0 && is_pow2(len)
    &&& pp.tau.cy@ == cy && tcs.len() == len
    &&& pp.tau.history@.len() == 0
    &&& forall|i: int| 0 <= i < len ==> #[trigger] ct_mod(tcs[i], n2) == ct_mod(cv[i], n2)
    &&& pp.c_p_commitment@ == enc_statement(n2, pp.tau.c_p@)
    &&& pp.aux@.len() == aux_rounds
    &&& forall|i: int| 0 <= i < pp.aux@.len() ==> aux_entry_ok(pdf, aux_prev_cy(cy, pp.aux@, i), #[trigger] pp.aux@[i], (i + 1) as nat)
    &&& shell_accepts(pa, cy, cv, pp.c_p_commitment, pp.aux@, pp.recursive_proof, tau_view(pp.tau))
}

/// When checking an aux entry fails: its round and bounds pass and the
/// squaring proof has a response power that is undefined.
pub open spec fn aux_entry_fails(pdf: DfParams, prev: nat, entry: PoKAuxEntry, round: nat) -> bool {
    let n2 = pdf.n2@;
    &&& entry.round == round
    &&& entry.cy_2i@ < n2 && entry.c_w@ < n2 && entry.c_k@ < n2
    &&& !crate::pok::square_powers_ok(pdf, prev, entry.pi_y2i)
}

/// When checking the aux chain fails: some entry fails after every entry
/// before it is consistent.
pub open spec fn aux_chain_fails(pdf: DfParams, cy: nat, aux: Seq<PoKAuxEntry>) -> bool {
    exists|i: int|
        0 <= i < aux.len() && (forall|j: int|
            0 <= j < i ==> aux_entry_ok(pdf, aux_prev_cy(cy, aux, j), #[trigger] aux[j], (j + 1) as nat))
            && #[trigger] aux_entry_fails(pdf, aux_prev_cy(cy, aux, i), aux[i], (i + 1) as nat)
}

/// Checks one aux entry against the commitment it squares.
///
/// Fails when the squaring verifier fails.
fn check_aux_entry(params_df: &DfParams, prev_cy: &Nat, entry: &PoKAuxEntry, round: usize) -> (r: CryptoResult<bool>)
    ensures
        r is Err <==> aux_entry_fails(*params_df, prev_cy@, *entry, round as nat),
        r is Err ==> r == Err::<bool, CryptoError>(verifier_error(params_df.n2@)),
        r matches Ok(b) ==> b == aux_entry_ok(*params_df, prev_cy@, *entry, round as nat),
        r == Ok::<bool, CryptoError>(true) ==> ({
            let n2 = params_df.n2@;
            &&& entry.round == round
            &&& entry.cy_2i@ < n2 && entry.c_w@ < n2 && entry.c_k@ < n2
            &&& square_accepts(*params_df, prev_cy@, entry.c_w@, entry.pi_y2i)
            &&& (entry.cy_2i@ * pow_mod(entry.c_k@, params_df.n@, n2)) % n2 == entry.c_w@
        }),
{
    reveal(aux_entry_ok);
    if entry.round != round {
        return Ok(false);
    }
    if !big_lt(&entry.cy_2i, &params_df.n2) || !big_lt(&entry.c_w, &params_df.n2) || !big_lt(&entry.c_k, &params_df.n2) {
        return Ok(false);
    }
    let sq_ok = match verify_mult(params_df, prev_cy, &entry.c_w, &entry.pi_y2i) {
        Ok(v) => v,
        Err(e) => return Err(e),
    };
    if !sq_ok {
        return Ok(false);
    }
    let reduced_rhs = big_rem(&big_mul(&entry.cy_2i, &big_modpow(&entry.c_k, &params_df.n, &params_df.n2)), &params_df.n2);
    Ok(big_eq(&reduced_rhs, &entry.c_w))
}

/// When checking the public components of a PoKP proof fails: the
/// length, transcript, `CP` and aux-count checks pass, and then either
/// the aux chain fails or it is consistent and the PoK*_P shell fails.
pub open spec fn pokp_fails(pa: CsCommitParams, pdf: DfParams, cy: nat, cv: Seq<(nat, nat)>, pp: PoKPProof) -> bool {
    let len = cv.len();
    let n2 = pa.n2@;
    let rounds = log2_floor(len);
    let aux_rounds: nat = if rounds >= 1 { (rounds - 1) as nat } else { 0 };
    let tcs = cts(pp.tau.c_values@);
    &&& len > 0 && is_pow2(len)
    &&& pp.tau.cy@ == cy && tcs.len() == len
    &&& pp.tau.history@.len() == 0
    &&& forall|i: int| 0 <= i < len ==> #[trigger] ct_mod(tcs[i], n2) == ct_mod(cv[i], n2)
    &&& pp.c_p_commitment@ == enc_statement(n2, pp.tau.c_p@)
    &&& pp.aux@.len() == aux_rounds
    &&& aux_chain_fails(pdf, cy, pp.aux@) || ((forall|i: int|
        0 <= i < pp.aux@.len() ==> aux_entry_ok(pdf, aux_prev_cy(cy, pp.aux@, i), #[trigger] pp.aux@[i], (i + 1) as nat))
        && shell_fails(pa, cy, cv, pp.c_p_commitment, pp.aux@, pp.recursive_proof, tau_view(pp.tau)))
}

/// The error the PoKP verifier reports when it fails: a failing aux entry's
/// (a missing inverse), otherwise the shell's.
pub open spec fn pokp_error(pa: CsCommitParams, pdf: DfParams, cy: nat, cv: Seq<(nat, nat)>, pp: PoKPProof) -> CryptoError {
    if aux_chain_fails(pdf, cy, pp.aux@) {
        verifier_error(pdf.n2@)
    } else {
        shell_error(pa, cy, cv, pp.c_p_commitment, pp.aux@, pp.recursive_proof, tau_view(pp.tau))
    }
}

/// The shell's error is an invalid input or a missing inverse.
proof fn lemma_shell_error_kind(
    pa: CsCommitParams,
    root_cy: nat,
    cv: Seq<(nat, nat)>,
    cp: CsCommitment,
    aux: Seq<PoKAuxEntry>,
    star: PoKStarProof,
    tv: (nat, Seq<(nat, nat)>, (nat, nat), Seq<nat>),
)
    ensures
        shell_error(pa, root_cy, cv, cp, aux, star, tv) is InvalidInput || shell_error(pa, root_cy, cv, cp, aux, star, tv)
            == CryptoError::ModularInverseUnavailable,
    decreases star,
{
    reveal(shell_error);
    match star {
        PoKStarProof::Base { pi_open_cp } => {},
        PoKStarProof::Recursive { round, next } => {
            lemma_shell_error_kind(
                pa,
                root_cy,
                fold_level(cv, round.alpha@, pa.n2@),
                round.c_p_prime,
                aux,
                *next,
                tau_append_view(tv, round),
            );
        },
    }
}

/// Checks the public components of a PoKP proof and returns the committed
/// evaluation `E_poly` (the transcript's `cP`) when they hold.
///
/// Fails when a sub-verifier fails or a needed inverse does not exist.
#[verifier::rlimit(100)]
fn verify_pokp_public_components(
    params_ah: &CsCommitParams,
    params_df: &DfParams,
    cy: &Nat,
    c_values: &[CsCiphertext],
    pp: &PoKPProof,
) -> (r: CryptoResult<Option<CsCiphertext>>)
    requires
        params_ah.n2@ > 0,
    ensures
        r is Err <==> pokp_fails(*params_ah, *params_df, cy@, cts(c_values@), *pp),
        r matches Err(e) ==> e is InvalidInput || e == CryptoError::ModularInverseUnavailable,
        r is Err ==> r == Err::<Option<CsCiphertext>, CryptoError>(pokp_error(*params_ah, *params_df, cy@, cts(c_values@), *pp)),
        r matches Ok(o) ==> (o is Some <==> pokp_accepts(*params_ah, *params_df, cy@, cts(c_values@), *pp)),
        r matches Ok(Some(e)) ==> e@ == pp.tau.c_p@,
{
    reveal(pokp_accepts);
    let len = c_values.len();
    if len == 0 || !is_power_of_two_usize(len) {
        return Ok(None);
    }
    if !big_eq(&pp.tau.cy, cy) || pp.tau.c_values.len() != len {
        return Ok(None);
    }
    if pp.tau.history.len() != 0 {
        return Ok(None);
    }
    let n2 = &params_ah.n2;
    let ghost tcs = cts(pp.tau.c_values@);
    let ghost cv = cts(c_values@);
    let mut t: usize = 0;
    while t < len
        invariant
            len == c_values@.len(),
            len == pp.tau.c_values@.len(),
            tcs == cts(pp.tau.c_values@),
            cv == cts(c_values@),
            *n2 == params_ah.n2,
            n2@ > 0,
            t <= len,
            forall|i: int| 0 <= i < t ==> #[trigger] ct_mod(tcs[i], n2@) == ct_mod(cv[i], n2@),
        decreases len - t,
    {
        if !ciphertext_eq_mod_n2(&pp.tau.c_values[t], &c_values[t], n2) {
            proof {
                reveal(pokp_accepts);
                assert(!(ct_mod(tcs[t as int], n2@) == ct_mod(cv[t as int], n2@)));
            }
            return Ok(None);
        }
        t = t + 1;
    }
    let e_poly = pp.tau.c_p.copy();
    let c_p_wrapped = match com_ah_with_zero_randomness(params_ah, &e_poly) {
        Ok(w) => w,
        Err(e) => return Err(e),
    };
    if !big_eq(&pp.c_p_commitment.c1, &c_p_wrapped.commitment.c1) || !big_eq(&pp.c_p_commitment.c2, &c_p_wrapped.commitment.c2)
        || !big_eq(&pp.c_p_commitment.c3, &c_p_wrapped.commitment.c3) || !big_eq(
        &pp.c_p_commitment.c4,
        &c_p_wrapped.commitment.c4,
    ) {
        return Ok(None);
    }
    let rounds = ilog2_usize(len);
    let aux_rounds: usize = if rounds >= 1 { rounds - 1 } else { 0 };
    if pp.aux.len() != aux_rounds {
        return Ok(None);
    }
    let ghost aux = pp.aux@;
    let ghost prefix = {
        let lenv = cts(c_values@).len();
        let rounds_v = log2_floor(lenv);
        let aux_rounds_v: nat = if rounds_v >= 1 { (rounds_v - 1) as nat } else { 0 };
        &&& lenv > 0 && is_pow2(lenv)
        &&& pp.tau.cy@ == cy@ && cts(pp.tau.c_values@).len() == lenv
        &&& pp.tau.history@.len() == 0
        &&& forall|j: int| 0 <= j < lenv ==> #[trigger] ct_mod(cts(pp.tau.c_values@)[j], n2@) == ct_mod(cts(c_values@)[j], n2@)
        &&& pp.c_p_commitment@ == enc_statement(n2@, pp.tau.c_p@)
        &&& pp.aux@.len() == aux_rounds_v
    };
    proof {
        assert(pp.c_p_commitment@ == enc_statement(n2@, pp.tau.c_p@));
        assert(prefix);
    }
    let mut prev_cy = cy.copy();
    let mut i: usize = 0;
    while i < aux_rounds
        invariant
            prefix,
            prefix == {
                let lenv = cts(c_values@).len();
                let rounds_v = log2_floor(lenv);
                let aux_rounds_v: nat = if rounds_v >= 1 { (rounds_v - 1) as nat } else { 0 };
                &&& lenv > 0 && is_pow2(lenv)
                &&& pp.tau.cy@ == cy@ && cts(pp.tau.c_values@).len() == lenv
                &&& pp.tau.history@.len() == 0
                &&& forall|j: int| 0 <= j < lenv ==> #[trigger] ct_mod(cts(pp.tau.c_values@)[j], n2@) == ct_mod(cts(c_values@)[j], n2@)
                &&& pp.c_p_commitment@ == enc_statement(n2@, pp.tau.c_p@)
                &&& pp.aux@.len() == aux_rounds_v
            },
            *n2 == params_ah.n2,
            i <= aux_rounds,
            aux_rounds == aux.len(),
            aux == pp.aux@,
            prev_cy@ == aux_prev_cy(cy@, aux, i as int),
            forall|j: int| 0 <= j < i ==> aux_entry_ok(*params_df, aux_prev_cy(cy@, aux, j), #[trigger] aux[j], (j + 1) as nat),
            forall|j: int| 0 <= j < i ==> !aux_entry_fails(*params_df, aux_prev_cy(cy@, aux, j), #[trigger] aux[j], (j + 1) as nat),
        decreases aux_rounds - i,
    {
        let entry = &pp.aux[i];
        let entry_ok = match check_aux_entry(params_df, &prev_cy, entry, i + 1) {
            Ok(v) => v,
            Err(e) => {
                proof {
                    assert(aux_entry_fails(*params_df, aux_prev_cy(cy@, aux, i as int), aux[i as int], (i + 1) as nat));
                    assert(aux_chain_fails(*params_df, cy@, aux));
                }
                return Err(e);
            },
        };
        if !entry_ok {
            proof {
                reveal(pokp_accepts);
                assert(!aux_entry_ok(*params_df, aux_prev_cy(cy@, aux, i as int), aux[i as int], (i + 1) as nat));
                assert(!aux_chain_fails(*params_df, cy@, aux)) by {
                    if aux_chain_fails(*params_df, cy@, aux) {
                        let k = choose|k: int|
                            0 <= k < aux.len() && (forall|j: int|
                                0 <= j < k ==> aux_entry_ok(*params_df, aux_prev_cy(cy@, aux, j), #[trigger] aux[j], (j + 1) as nat))
                                && #[trigger] aux_entry_fails(*params_df, aux_prev_cy(cy@, aux, k), aux[k], (k + 1) as nat);
                        if k > i {
                            assert(aux_entry_ok(*params_df, aux_prev_cy(cy@, aux, i as int), aux[i as int], (i + 1) as nat));
                        }
                    }
                }
            }
            return Ok(None);
        }
        prev_cy = entry.cy_2i.copy();
        i = i + 1;
    }
    proof {
        assert(!aux_chain_fails(*params_df, cy@, aux)) by {
            if aux_chain_fails(*params_df, cy@, aux) {
                let k = choose|k: int|
                    0 <= k < aux.len() && (forall|j: int|
                        0 <= j < k ==> aux_entry_ok(*params_df, aux_prev_cy(cy@, aux, j), #[trigger] aux[j], (j + 1) as nat))
                        && #[trigger] aux_entry_fails(*params_df, aux_prev_cy(cy@, aux, k), aux[k], (k + 1) as nat);
                assert(!aux_entry_fails(*params_df, aux_prev_cy(cy@, aux, k), aux[k], (k + 1) as nat));
            }
        }
    }
    let params_df_for_alpha = df_params_from_ah(params_ah);
    let shell_ok = match verify_pok_star_public_shell(
        params_ah,
        &params_df_for_alpha,
        cy,
        c_values,
        &pp.c_p_commitment,
        pp.aux.as_slice(),
        &pp.recursive_proof,
        &pp.tau,
    ) {
        Ok(v) => v,
        Err(e) => {
            proof {
                lemma_shell_error_kind(
                    *params_ah,
                    cy@,
                    cts(c_values@),
                    pp.c_p_commitment,
                    pp.aux@,
                    pp.recursive_proof,
                    tau_view(pp.tau),
                );
            }
            return Err(e);
        },
    };
    if !shell_ok {
        return Ok(None);
    }
    proof {
        assert(pp.c_p_commitment@ == enc_statement(n2@, pp.tau.c_p@));
    }
    Ok(Some(e_poly))
}

/// The encryption, multiplication and addition proofs of one `Z`
/// component hold: `c_enc` encrypts what `c_plain` commits to under
/// `pkAH`, `c_mul` is the scalar committed in `c_scalar` times `E`, and
/// `Z = c_enc + c_mul`.
#[verifier::opaque]
pub open spec fn enc_mul_add_accepts(
    pa: CsCommitParams,
    pk_k: nat,
    c_plain: nat,
    c_scalar: nat,
    e_commitment: CsCommitment,
    z_component: (nat, nat),
    proof: PpbEncMulAddProof,
) -> bool {
    &&& cs_enc_accepts(pa, pk_k, proof.c_enc, c_plain, proof.pi_enc)
    &&& cs_mult_accepts(pa, proof.c_mul, e_commitment, c_scalar, proof.pi_mult)
    &&& exists|z: CsCommitment| #[trigger] z@ == enc_statement(pa.n2@, z_component) && cs_add_accepts(pa, proof.c_enc, proof.c_mul, z, proof.pi_add)
}

/// When checking one `Z` component fails: the encryption proof cannot be
/// checked; or it holds and the multiplication proof cannot be checked; or
/// both hold and the addition proof cannot be checked.
pub open spec fn enc_mul_add_fails(
    pa: CsCommitParams,
    pk_k: nat,
    c_plain: nat,
    c_scalar: nat,
    e_commitment: CsCommitment,
    proof: PpbEncMulAddProof,
) -> bool {
    ||| cs_enc_fails(pa, pk_k, proof.pi_enc)
    ||| cs_enc_accepts(pa, pk_k, proof.c_enc, c_plain, proof.pi_enc) && (cs_mult_fails(pa, e_commitment, proof.pi_mult) || (
    cs_mult_accepts(pa, proof.c_mul, e_commitment, c_scalar, proof.pi_mult) && cs_add_fails(
        pa,
        proof.c_enc,
        proof.c_mul,
        proof.pi_add,
    )))
}

/// Checks the encryption, multiplication and addition proofs of one `Z`
/// component.
///
/// Fails when a sub-verifier fails or a needed inverse does not exist.
fn verify_enc_mul_add_component(
    params_ah: &CsCommitParams,
    pk_ah: &CsPubKey,
    c_plain: &Nat,
    c_scalar: &Nat,
    e_commitment: &CsCommitment,
    z_component: &CsCiphertext,
    proof: &PpbEncMulAddProof,
) -> (r: CryptoResult<bool>)
    requires
        params_ah.n2@ > 0,
    ensures
        r is Err <==> enc_mul_add_fails(*params_ah, pk_ah.k@, c_plain@, c_scalar@, *e_commitment, *proof),
        r is Err ==> r == Err::<bool, CryptoError>(verifier_error(params_ah.n2@)),
        r matches Ok(b) ==> b == enc_mul_add_accepts(*params_ah, pk_ah.k@, c_plain@, c_scalar@, *e_commitment, z_component@, *proof),
{
    reveal(enc_mul_add_accepts);
    let enc_ok = match verify_cs_enc(params_ah, &pk_ah.k, &proof.c_enc, c_plain, &proof.pi_enc) {
        Ok(v) => v,
        Err(e) => return Err(e),
    };
    if !enc_ok {
        return Ok(false);
    }
    let mult_ok = match verify_cs_mult(params_ah, &proof.c_mul, e_commitment, c_scalar, &proof.pi_mult) {
        Ok(v) => v,
        Err(e) => return Err(e),
    };
    if !mult_ok {
        return Ok(false);
    }
    let z_commitment = build_enc_statement_commitment(params_ah, z_component);
    let r = verify_cs_add(params_ah, &proof.c_enc, &proof.c_mul, &z_commitment, &proof.pi_add);
    proof {
        lemma_add_accepts_by_view(*params_ah, proof.c_enc, proof.c_mul, z_commitment, proof.pi_add);
    }
    r
}


/// The addition check depends on the result commitment only through its
/// numbers.
proof fn lemma_add_accepts_by_view(pa: CsCommitParams, ca: CsCommitment, cb: CsCommitment, cc: CsCommitment, p: CsAddProof)
    ensures
        forall|cc2: CsCommitment| cc2@ == cc@ ==> #[trigger] cs_add_accepts(pa, ca, cb, cc2, p) == cs_add_accepts(pa, ca, cb, cc, p),
{
    assert forall|cc2: CsCommitment| cc2@ == cc@ implies #[trigger] cs_add_accepts(pa, ca, cb, cc2, p) == cs_add_accepts(pa, ca, cb, cc, p) by {
        assert(add_relation_ds(ca, cb, cc2, pa.n2@) == add_relation_ds(ca, cb, cc, pa.n2@));
    }
}


/// The conditions under which the proofs of one `Z` component are
/// accepted: `n^2 > 1`, unit commitment and encryption bases, a unit
/// public key and a commitment to `E` made of units.
pub open spec fn enc_mul_add_conds(pa: CsCommitParams, pk_k: nat, e_commitment: CsCommitment) -> bool {
    let n2 = pa.n2@;
    &&& n2 > 1
    &&& commit_bases_units(pa)
    &&& spec_gcd(n2, pa.g_star@) == 1 && spec_gcd(n2, pa.h_star@) == 1
    &&& spec_gcd(n2, pk_k) == 1
    &&& commitment_units(e_commitment, n2)
}

/// The honest proofs of one `Z` component are accepted: the encryption,
/// multiplication and addition proofs hold under their conditions, and the
/// addition was proved on a commitment with the numbers of `c_enc` and
/// against the statement commitment of `Z`.
proof fn lemma_enc_mul_add_complete(
    pa: CsCommitParams,
    pk_k: nat,
    c_plain: nat,
    c_scalar: nat,
    e_commitment: CsCommitment,
    z_component: (nat, nat),
    pr: PpbEncMulAddProof,
    ca_add: CsCommitment,
    cz: CsCommitment,
)
    requires
        pa.n2@ > 1 && commit_bases_units(pa) && spec_gcd(pa.n2@, pa.g_star@) == 1 && spec_gcd(pa.n2@, pa.h_star@) == 1
            && spec_gcd(pa.n2@, pk_k) == 1 ==> cs_enc_accepts(pa, pk_k, pr.c_enc, c_plain, pr.pi_enc),
        pa.n2@ > 1 && commit_bases_units(pa) && commitment_units(e_commitment, pa.n2@) ==> cs_mult_accepts(
            pa,
            pr.c_mul,
            e_commitment,
            c_scalar,
            pr.pi_mult,
        ),
        pa.n2@ > 1 && commit_bases_units(pa) ==> cs_add_accepts(pa, ca_add, pr.c_mul, cz, pr.pi_add),
        ca_add@ == pr.c_enc@,
        cz@ == enc_statement(pa.n2@, z_component),
    ensures
        enc_mul_add_conds(pa, pk_k, e_commitment) ==> enc_mul_add_accepts(pa, pk_k, c_plain, c_scalar, e_commitment, z_component, pr),
{
    reveal(enc_mul_add_accepts);
    if enc_mul_add_conds(pa, pk_k, e_commitment) {
        lemma_add_accepts_view(pa, pa, ca_add, pr.c_enc, pr.c_mul, pr.c_mul, cz, cz, pr.pi_add);
    }
}

// ---------------------------------------------------------------------------
// The checks depend on parameters and commitments only through their numbers.
// ---------------------------------------------------------------------------

/// The encryption check depends only on the numbers of its arguments.
proof fn lemma_enc_accepts_view(pa1: CsCommitParams, pa2: CsCommitParams, k: nat, ca1: CsCommitment, ca2: CsCommitment, cy: nat, p: CsEncProof)
    requires
        pa1@ == pa2@,
        ca1@ == ca2@,
    ensures
        cs_enc_accepts(pa1, k, ca1, cy, p) == cs_enc_accepts(pa2, k, ca2, cy, p),
{
}

/// The multiplication check depends only on the numbers of its arguments.
proof fn lemma_mult_accepts_view(pa1: CsCommitParams, pa2: CsCommitParams, ca1: CsCommitment, ca2: CsCommitment, cb1: CsCommitment, cb2: CsCommitment, cy: nat, p: CsMultProof)
    requires
        pa1@ == pa2@,
        ca1@ == ca2@,
        cb1@ == cb2@,
    ensures
        cs_mult_accepts(pa1, ca1, cb1, cy, p) == cs_mult_accepts(pa2, ca2, cb2, cy, p),
{
}

/// The addition check depends only on the numbers of its arguments.
proof fn lemma_add_accepts_view(pa1: CsCommitParams, pa2: CsCommitParams, ca1: CsCommitment, ca2: CsCommitment, cb1: CsCommitment, cb2: CsCommitment, cc1: CsCommitment, cc2: CsCommitment, p: CsAddProof)
    requires
        pa1@ == pa2@,
        ca1@ == ca2@,
        cb1@ == cb2@,
        cc1@ == cc2@,
    ensures
        cs_add_accepts(pa1, ca1, cb1, cc1, p) == cs_add_accepts(pa2, ca2, cb2, cc2, p),
{
}

/// The ciphertext-opening check depends only on the numbers of its arguments.
proof fn lemma_com_ct_accepts_view(pa1: CsCommitParams, pa2: CsCommitParams, com1: CsCommitment, com2: CsCommitment, u: nat, v: nat, p: CsComCtProof)
    requires
        pa1@ == pa2@,
        com1@ == com2@,
    ensures
        cs_com_ct_accepts(pa1, com1, u, v, p) == cs_com_ct_accepts(pa2, com2, u, v, p),
{
}


/// The PoK*_P shell check depends only on the numbers of the parameters
/// and of `CP`.
pub(crate) proof fn lemma_shell_accepts_view(
    pa1: CsCommitParams,
    pa2: CsCommitParams,
    root_cy: nat,
    cv: Seq<(nat, nat)>,
    cp1: CsCommitment,
    cp2: CsCommitment,
    aux: Seq<PoKAuxEntry>,
    star: PoKStarProof,
    tv: (nat, Seq<(nat, nat)>, (nat, nat), Seq<nat>),
)
    requires
        pa1@ == pa2@,
        cp1@ == cp2@,
    ensures
        shell_accepts(pa1, root_cy, cv, cp1, aux, star, tv) == shell_accepts(pa2, root_cy, cv, cp2, aux, star, tv),
    decreases star,
{
    match star {
        PoKStarProof::Base { pi_open_cp } => {
            lemma_com_ct_accepts_view(pa1, pa2, cp1, cp2, cv[0].0 % pa1.n2@, cv[0].1 % pa1.n2@, pi_open_cp);
        },
        PoKStarProof::Recursive { round, next } => {
            lemma_add_accepts_view(pa1, pa2, round.c1, round.c1, round.c2, round.c2, cp1, cp2, round.pi_e_eq_e1_plus_e2);
            assert(shell_round_ok(pa1, root_cy, (cv.len() / 2) as nat, cp1, aux, round, tv) == shell_round_ok(
                pa2,
                root_cy,
                (cv.len() / 2) as nat,
                cp2,
                aux,
                round,
                tv,
            ));
            lemma_shell_accepts_view(
                pa1,
                pa2,
                root_cy,
                fold_level(cv, round.alpha@, pa1.n2@),
                round.c_p_prime,
                round.c_p_prime,
                aux,
                *next,
                tau_append_view(tv, round),
            );
        },
    }
}

/// The PoKP check depends only on the numbers of the parameters.
proof fn lemma_pokp_accepts_view(pa1: CsCommitParams, pa2: CsCommitParams, pdf: DfParams, cy: nat, cv: Seq<(nat, nat)>, pp: PoKPProof)
    requires
        pa1@ == pa2@,
    ensures
        pokp_accepts(pa1, pdf, cy, cv, pp) == pokp_accepts(pa2, pdf, cy, cv, pp),
{
    reveal(pokp_accepts);
    lemma_shell_accepts_view(pa1, pa2, cy, cv, pp.c_p_commitment, pp.c_p_commitment, pp.aux@, pp.recursive_proof, tau_view(pp.tau));
}


/// The component check depends only on the numbers of the parameters and
/// of `E`.
proof fn lemma_enc_mul_add_accepts_view(
    pa1: CsCommitParams,
    pa2: CsCommitParams,
    pk_k: nat,
    c_plain: nat,
    c_scalar: nat,
    ec1: CsCommitment,
    ec2: CsCommitment,
    z_component: (nat, nat),
    pr: PpbEncMulAddProof,
)
    requires
        pa1@ == pa2@,
        ec1@ == ec2@,
    ensures
        enc_mul_add_accepts(pa1, pk_k, c_plain, c_scalar, ec1, z_component, pr) == enc_mul_add_accepts(
            pa2,
            pk_k,
            c_plain,
            c_scalar,
            ec2,
            z_component,
            pr,
        ),
{
    reveal(enc_mul_add_accepts);
    lemma_enc_accepts_view(pa1, pa2, pk_k, pr.c_enc, pr.c_enc, c_plain, pr.pi_enc);
    lemma_mult_accepts_view(pa1, pa2, pr.c_mul, pr.c_mul, ec1, ec2, c_scalar, pr.pi_mult);
    assert forall|z: CsCommitment| #[trigger] cs_add_accepts(pa1, pr.c_enc, pr.c_mul, z, pr.pi_add) == cs_add_accepts(
        pa2,
        pr.c_enc,
        pr.c_mul,
        z,
        pr.pi_add,
    ) by {
        lemma_add_accepts_view(pa1, pa2, pr.c_enc, pr.c_enc, pr.c_mul, pr.c_mul, z, z, pr.pi_add);
    }
}

/// The commitment parameters of PoKS2 as numbers: `cpar`'s `n, n^2`, the
/// base `g` of `pi_U`, the encryption bases and `cpar`'s `g, h`.
pub open spec fn poks2_params_view(params: PpbParams, ah_g: nat) -> (nat, nat, nat, nat, nat, nat, nat, usize) {
    (
        params.cpar.n@,
        params.cpar.n2@,
        ah_g,
        params.hecpar.cs_params.g@,
        params.hecpar.cs_params.h@,
        params.cpar.g@,
        params.cpar.h@,
        params.lambda_bits,
    )
}

/// The checks of PoKS2 under the commitment parameters `pa`: the user's
/// commitments are reduced, `C_y = C_id C_at` (and `pi_y` says so),
/// `pk_sky` is the setup's and `C_sky` encrypts what `C_y` commits to, the
/// PoKP components hold for `C_id` and the coefficients of `X`, `Z_nf` is
/// `r3 E`, and the `Z_id`, `Z_at` components check out against `C_id, C_r1`
/// and `C_at, C_r2`; statement commitments are taken by their numbers.
pub open spec fn poks2_checks(params: PpbParams, pa: CsCommitParams, pk_a: PpbPublicKey, c_y: nat, out: PpbEscrowOutput) -> bool {
    let pr = out.pi_u;
    let n2 = params.cpar.n2@;
    let e_stmt = enc_statement(n2, pr.pi_poly.tau.c_p@);
    &&& pr.c_id@ < n2 && pr.c_at@ < n2 && pr.c_r1@ < n2 && pr.c_r2@ < n2 && pr.c_r3@ < n2
    &&& pr.pi_y.relation_holds && pr.pi_y.c_y_from_cid_cat@ == c_y && (pr.c_id@ * pr.c_at@) % n2 == c_y
    &&& pr.pk_sky.k@ == params.sky_pk.k@
    &&& forall|c: CsCommitment| c@ == enc_statement(n2, pr.c_sky@) ==> #[trigger] cs_enc_accepts(pa, params.sky_pk.k@, c, c_y, pr.pi_sky)
    &&& pokp_accepts(pa, params.cpar, pr.c_id@, cts(pk_a.x_public.encrypted_coeffs@), pr.pi_poly)
    &&& forall|zc: CsCommitment, ec: CsCommitment|
        zc@ == enc_statement(n2, out.z_hat.z_nf@) && ec@ == e_stmt ==> #[trigger] cs_mult_accepts(pa, zc, ec, pr.c_r3@, pr.pi_nf)
    &&& forall|ec: CsCommitment|
        ec@ == e_stmt ==> #[trigger] enc_mul_add_accepts(pa, pk_a.x_public.pk_ah.k@, pr.c_id@, pr.c_r1@, ec, out.z_hat.z_id@, pr.pi_id)
    &&& forall|ec: CsCommitment|
        ec@ == e_stmt ==> #[trigger] enc_mul_add_accepts(pa, pk_a.x_public.pk_ah.k@, pr.c_at@, pr.c_r2@, ec, out.z_hat.z_at@, pr.pi_at)
}

/// VS2 accepts: `C_y` is the escrow output's, and the PoKS2 checks hold
/// under the commitment parameters rebuilt from `pi_U`.
pub open spec fn poks2_accepts(params: PpbParams, pk_a: PpbPublicKey, c_y: nat, out: PpbEscrowOutput) -> bool {
    &&& c_y == out.c_y@
    &&& forall|pa: CsCommitParams| pa@ == poks2_params_view(params, out.pi_u.ah_g@) ==> #[trigger] poks2_checks(params, pa, pk_a, c_y, out)
}

/// The PoKS2 checks depend only on the numbers of the parameters.
#[verifier::rlimit(40)]
proof fn lemma_poks2_checks_view(params: PpbParams, pa1: CsCommitParams, pa2: CsCommitParams, pk_a: PpbPublicKey, c_y: nat, out: PpbEscrowOutput)
    requires
        pa1@ == pa2@,
    ensures
        poks2_checks(params, pa1, pk_a, c_y, out) == poks2_checks(params, pa2, pk_a, c_y, out),
{
    let pr = out.pi_u;
    let n2 = params.cpar.n2@;
    let e_stmt = enc_statement(n2, pr.pi_poly.tau.c_p@);
    lemma_pokp_accepts_view(pa1, pa2, params.cpar, pr.c_id@, cts(pk_a.x_public.encrypted_coeffs@), pr.pi_poly);
    assert forall|c: CsCommitment|
        #![trigger cs_enc_accepts(pa1, params.sky_pk.k@, c, c_y, pr.pi_sky)]
        #![trigger cs_enc_accepts(pa2, params.sky_pk.k@, c, c_y, pr.pi_sky)]
        cs_enc_accepts(pa1, params.sky_pk.k@, c, c_y, pr.pi_sky) == cs_enc_accepts(
        pa2,
        params.sky_pk.k@,
        c,
        c_y,
        pr.pi_sky,
    ) by {
        lemma_enc_accepts_view(pa1, pa2, params.sky_pk.k@, c, c, c_y, pr.pi_sky);
    }
    assert forall|zc: CsCommitment, ec: CsCommitment|
        #![trigger cs_mult_accepts(pa1, zc, ec, pr.c_r3@, pr.pi_nf)]
        #![trigger cs_mult_accepts(pa2, zc, ec, pr.c_r3@, pr.pi_nf)]
        cs_mult_accepts(pa1, zc, ec, pr.c_r3@, pr.pi_nf) == cs_mult_accepts(
        pa2,
        zc,
        ec,
        pr.c_r3@,
        pr.pi_nf,
    ) by {
        lemma_mult_accepts_view(pa1, pa2, zc, zc, ec, ec, pr.c_r3@, pr.pi_nf);
    }
    assert forall|ec: CsCommitment|
        #![trigger enc_mul_add_accepts(pa1, pk_a.x_public.pk_ah.k@, pr.c_id@, pr.c_r1@, ec, out.z_hat.z_id@, pr.pi_id)]
        #![trigger enc_mul_add_accepts(pa2, pk_a.x_public.pk_ah.k@, pr.c_id@, pr.c_r1@, ec, out.z_hat.z_id@, pr.pi_id)]
        enc_mul_add_accepts(pa1, pk_a.x_public.pk_ah.k@, pr.c_id@, pr.c_r1@, ec, out.z_hat.z_id@, pr.pi_id)
        == enc_mul_add_accepts(pa2, pk_a.x_public.pk_ah.k@, pr.c_id@, pr.c_r1@, ec, out.z_hat.z_id@, pr.pi_id) by {
        lemma_enc_mul_add_accepts_view(pa1, pa2, pk_a.x_public.pk_ah.k@, pr.c_id@, pr.c_r1@, ec, ec, out.z_hat.z_id@, pr.pi_id);
    }
    assert forall|ec: CsCommitment|
        #![trigger enc_mul_add_accepts(pa1, pk_a.x_public.pk_ah.k@, pr.c_at@, pr.c_r2@, ec, out.z_hat.z_at@, pr.pi_at)]
        #![trigger enc_mul_add_accepts(pa2, pk_a.x_public.pk_ah.k@, pr.c_at@, pr.c_r2@, ec, out.z_hat.z_at@, pr.pi_at)]
        enc_mul_add_accepts(pa1, pk_a.x_public.pk_ah.k@, pr.c_at@, pr.c_r2@, ec, out.z_hat.z_at@, pr.pi_at)
        == enc_mul_add_accepts(pa2, pk_a.x_public.pk_ah.k@, pr.c_at@, pr.c_r2@, ec, out.z_hat.z_at@, pr.pi_at) by {
        lemma_enc_mul_add_accepts_view(pa1, pa2, pk_a.x_public.pk_ah.k@, pr.c_at@, pr.c_r2@, ec, ec, out.z_hat.z_at@, pr.pi_at);
    }
}


/// A sampled element of `|QR_{n^2}|` is a unit.
proof fn lemma_abs_qr_sample_unit(y: nat, n2: nat)
    requires
        n2 > 1,
        is_abs_qr_sample(y, n2),
    ensures
        spec_gcd(n2, y) == 1,
{
    let x = choose|x: nat| 1 < x < n2 && spec_gcd(x, n2) == 1 && y == #[trigger] abs_rep(pow_mod(x, 2, n2), n2);
    crate::powmod::lemma_gcd_swap_reduced(x, n2);
    crate::powmod::lemma_coprime_pow(x, 2, n2);
    let z = pow_mod(x, 2, n2);
    crate::powmod::lemma_pow_mod_bound(x, 2, n2);
    crate::powmod::lemma_coprime_mod(z, n2);
    vstd::arithmetic::div_mod::lemma_small_mod(z, n2);
    if z > n2 / 2 {
        crate::powmod::lemma_coprime_neg(z, n2);
    }
}

/// The conditions under which an honest Escrow proof is accepted: `n^2 >
/// 1`; `g, h` of `cpar`, `g, h` of the encryption parameters, the setup's
/// `pk_sky` and the key's `pkAH` are units modulo `n^2`; the coefficient
/// ciphertexts of `X` are units and form its polynomial modulo `n^2`.
pub open spec fn poks2_complete_conds(params: PpbParams, pk_a: PpbPublicKey) -> bool {
    let n2 = params.cpar.n2@;
    let cs = cts(pk_a.x_public.encrypted_coeffs@);
    &&& n2 > 1
    &&& spec_gcd(n2, params.cpar.g@) == 1 && spec_gcd(n2, params.cpar.h@) == 1
    &&& spec_gcd(n2, params.hecpar.cs_params.g@) == 1 && spec_gcd(n2, params.hecpar.cs_params.h@) == 1
    &&& spec_gcd(n2, params.sky_pk.k@) == 1
    &&& spec_gcd(n2, pk_a.x_public.pk_ah.k@) == 1
    &&& crate::pok::cts_units(cs, n2)
    &&& pk_a.x_public.polynomial@ == (cs, n2)
}

/// Completeness of PoKS2: when the prover's sub-proofs hold under their
/// conditions and the completeness conditions hold, VS2 accepts.
#[verifier::rlimit(60)]
proof fn lemma_poks2_complete(
    params: PpbParams,
    pk_a: PpbPublicKey,
    out: PpbEscrowOutput,
    pa: CsCommitParams,
    e_poly: (nat, nat),
    pw: Seq<nat>,
    sky_k: nat,
    sky_w: CsCommitment,
    e_w: CsCommitment,
    znf_w: CsCommitment,
)
    requires
        poks2_complete_conds(params, pk_a),
        moduli_match(params),
        pa@ == poks2_params_view(params, out.pi_u.ah_g@),
        is_abs_qr_sample(out.pi_u.ah_g@, params.cpar.n2@),
        out.pi_u.c_id@ < params.cpar.n2@ && out.pi_u.c_at@ < params.cpar.n2@ && out.pi_u.c_r1@ < params.cpar.n2@
            && out.pi_u.c_r2@ < params.cpar.n2@ && out.pi_u.c_r3@ < params.cpar.n2@,
        out.pi_u.pi_y.relation_holds,
        out.pi_u.pi_y.c_y_from_cid_cat@ == out.c_y@,
        (out.pi_u.c_id@ * out.pi_u.c_at@) % params.cpar.n2@ == out.c_y@,
        out.pi_u.pk_sky.k@ == sky_k,
        sky_k == params.sky_pk.k@,
        sky_w@ == enc_statement(params.cpar.n2@, out.pi_u.c_sky@),
        pa.n2@ > 1 && commit_bases_units(pa) && spec_gcd(pa.n2@, pa.g_star@) == 1 && spec_gcd(pa.n2@, pa.h_star@) == 1
            && spec_gcd(pa.n2@, sky_k) == 1 ==> cs_enc_accepts(pa, sky_k, sky_w, out.c_y@, out.pi_u.pi_sky),
        crate::pok::pokp_complete_conds(pa, params.cpar, cts(pk_a.x_public.encrypted_coeffs@), e_poly) ==> pokp_accepts(
            pa,
            params.cpar,
            out.pi_u.c_id@,
            cts(pk_a.x_public.encrypted_coeffs@),
            out.pi_u.pi_poly,
        ),
        out.pi_u.pi_poly.tau.c_p@ == e_poly,
        e_poly == folded_eval(pk_a.x_public.polynomial@.0, pw, pk_a.x_public.polynomial@.1),
        e_w@ == (e_poly.0 % pa.n2@, 1nat, e_poly.1 % pa.n2@, 1nat),
        znf_w@ == (out.z_hat.z_nf@.0 % pa.n2@, 1nat, out.z_hat.z_nf@.1 % pa.n2@, 1nat),
        pa.n2@ > 1 && commit_bases_units(pa) && commitment_units(e_w, pa.n2@) ==> cs_mult_accepts(
            pa,
            znf_w,
            e_w,
            out.pi_u.c_r3@,
            out.pi_u.pi_nf,
        ),
        enc_mul_add_conds(pa, pk_a.x_public.pk_ah.k@, e_w) ==> enc_mul_add_accepts(
            pa,
            pk_a.x_public.pk_ah.k@,
            out.pi_u.c_id@,
            out.pi_u.c_r1@,
            e_w,
            out.z_hat.z_id@,
            out.pi_u.pi_id,
        ),
        enc_mul_add_conds(pa, pk_a.x_public.pk_ah.k@, e_w) ==> enc_mul_add_accepts(
            pa,
            pk_a.x_public.pk_ah.k@,
            out.pi_u.c_at@,
            out.pi_u.c_r2@,
            e_w,
            out.z_hat.z_at@,
            out.pi_u.pi_at,
        ),
    ensures
        poks2_accepts(params, pk_a, out.c_y@, out),
{
    let n2 = params.cpar.n2@;
    let pr = out.pi_u;
    let cs = cts(pk_a.x_public.encrypted_coeffs@);
    lemma_abs_qr_sample_unit(pr.ah_g@, n2);
    assert(commit_bases_units(pa));
    if cs.len() == 1 {
        vstd::arithmetic::power2::lemma2_to64();
        assert(pad_ones(cs, 1) =~= cs);
    }
    assert(crate::pok::pokp_complete_conds(pa, params.cpar, cs, e_poly));
    assert(pokp_accepts(pa, params.cpar, pr.c_id@, cs, pr.pi_poly));
    assert(cs.len() > 0) by {
        reveal(pokp_accepts);
    }
    crate::pok::lemma_folded_eval_units(cs, pw, n2);
    crate::powmod::lemma_coprime_mod(e_poly.0, n2);
    crate::powmod::lemma_coprime_mod(e_poly.1, n2);
    crate::powmod::lemma_coprime_one(n2);
    assert(commitment_units(e_w, n2));
    let e_stmt = enc_statement(n2, pr.pi_poly.tau.c_p@);
    assert forall|c: CsCommitment| c@ == enc_statement(n2, pr.c_sky@) implies #[trigger] cs_enc_accepts(
        pa,
        params.sky_pk.k@,
        c,
        out.c_y@,
        pr.pi_sky,
    ) by {
        lemma_enc_accepts_view(pa, pa, sky_k, c, sky_w, out.c_y@, pr.pi_sky);
    }
    assert forall|zc: CsCommitment, ec: CsCommitment|
        zc@ == enc_statement(n2, out.z_hat.z_nf@) && ec@ == e_stmt implies #[trigger] cs_mult_accepts(
        pa,
        zc,
        ec,
        pr.c_r3@,
        pr.pi_nf,
    ) by {
        lemma_mult_accepts_view(pa, pa, zc, znf_w, ec, e_w, pr.c_r3@, pr.pi_nf);
    }
    assert forall|ec: CsCommitment| ec@ == e_stmt implies #[trigger] enc_mul_add_accepts(
        pa,
        pk_a.x_public.pk_ah.k@,
        pr.c_id@,
        pr.c_r1@,
        ec,
        out.z_hat.z_id@,
        pr.pi_id,
    ) by {
        lemma_enc_mul_add_accepts_view(pa, pa, pk_a.x_public.pk_ah.k@, pr.c_id@, pr.c_r1@, ec, e_w, out.z_hat.z_id@, pr.pi_id);
    }
    assert forall|ec: CsCommitment| ec@ == e_stmt implies #[trigger] enc_mul_add_accepts(
        pa,
        pk_a.x_public.pk_ah.k@,
        pr.c_at@,
        pr.c_r2@,
        ec,
        out.z_hat.z_at@,
        pr.pi_at,
    ) by {
        lemma_enc_mul_add_accepts_view(pa, pa, pk_a.x_public.pk_ah.k@, pr.c_at@, pr.c_r2@, ec, e_w, out.z_hat.z_at@, pr.pi_at);
    }
    assert(poks2_checks(params, pa, pk_a, out.c_y@, out));
    assert forall|pa2: CsCommitParams| pa2@ == poks2_params_view(params, pr.ah_g@) implies #[trigger] poks2_checks(
        params,
        pa2,
        pk_a,
        out.c_y@,
        out,
    ) by {
        lemma_poks2_checks_view(params, pa2, pa, pk_a, out.c_y@, out);
    }
}

/// When VS2 fails under the commitment parameters `pa`: the reduction,
/// `C_y` and `pk_sky` checks pass, and then the first check in order that
/// cannot be computed: the proof of `C_sky`, the PoKP components, `Z_nf =
/// r3 E`, and the `Z_id`, `Z_at` components, each reached only when the
/// previous ones hold.
pub open spec fn poks2_fails_with(params: PpbParams, pa: CsCommitParams, pk_a: PpbPublicKey, c_y: nat, out: PpbEscrowOutput) -> bool {
    let pr = out.pi_u;
    let n2 = params.cpar.n2@;
    let k = pk_a.x_public.pk_ah.k@;
    let e_stmt = enc_statement(n2, pr.pi_poly.tau.c_p@);
    let gate = {
        &&& pr.c_id@ < n2 && pr.c_at@ < n2 && pr.c_r1@ < n2 && pr.c_r2@ < n2 && pr.c_r3@ < n2
        &&& pr.pi_y.relation_holds && pr.pi_y.c_y_from_cid_cat@ == c_y && (pr.c_id@ * pr.c_at@) % n2 == c_y
        &&& pr.pk_sky.k@ == params.sky_pk.k@
    };
    let sky_acc = forall|c: CsCommitment|
        c@ == enc_statement(n2, pr.c_sky@) ==> #[trigger] cs_enc_accepts(pa, params.sky_pk.k@, c, c_y, pr.pi_sky);
    let nf_fails = forall|ec: CsCommitment| ec@ == e_stmt ==> #[trigger] cs_mult_fails(pa, ec, pr.pi_nf);
    let nf_acc = forall|zc: CsCommitment, ec: CsCommitment|
        zc@ == enc_statement(n2, out.z_hat.z_nf@) && ec@ == e_stmt ==> #[trigger] cs_mult_accepts(pa, zc, ec, pr.c_r3@, pr.pi_nf);
    let id_fails = forall|ec: CsCommitment| ec@ == e_stmt ==> #[trigger] enc_mul_add_fails(pa, k, pr.c_id@, pr.c_r1@, ec, pr.pi_id);
    let id_acc = forall|ec: CsCommitment|
        ec@ == e_stmt ==> #[trigger] enc_mul_add_accepts(pa, k, pr.c_id@, pr.c_r1@, ec, out.z_hat.z_id@, pr.pi_id);
    let at_fails = forall|ec: CsCommitment| ec@ == e_stmt ==> #[trigger] enc_mul_add_fails(pa, k, pr.c_at@, pr.c_r2@, ec, pr.pi_at);
    &&& gate
    &&& cs_enc_fails(pa, params.sky_pk.k@, pr.pi_sky) || (sky_acc && (pokp_fails(
        pa,
        params.cpar,
        pr.c_id@,
        cts(pk_a.x_public.encrypted_coeffs@),
        pr.pi_poly,
    ) || (pokp_accepts(pa, params.cpar, pr.c_id@, cts(pk_a.x_public.encrypted_coeffs@), pr.pi_poly) && (nf_fails || (
    nf_acc && (id_fails || (id_acc && at_fails)))))))
}

/// When VS2 fails: `C_y` is the escrow output's, and the commitment
/// parameters cannot be rebuilt (the moduli differ, `n^2` is zero or the
/// proof's `g` is not in `[1, n^2)`), or VS2 fails under them.
pub open spec fn poks2_fails(params: PpbParams, pk_a: PpbPublicKey, c_y: nat, out: PpbEscrowOutput) -> bool {
    &&& c_y == out.c_y@
    &&& !(moduli_match(params) && params.cpar.n2@ > 0 && 0 < out.pi_u.ah_g@ < params.cpar.n2@) || forall|pa: CsCommitParams|
        pa@ == poks2_params_view(params, out.pi_u.ah_g@) ==> #[trigger] poks2_fails_with(params, pa, pk_a, c_y, out)
}

/// The shell failure depends only on the numbers of the parameters and of
/// the commitment `CP`.
proof fn lemma_shell_fails_view(
    pa1: CsCommitParams,
    pa2: CsCommitParams,
    root_cy: nat,
    cv: Seq<(nat, nat)>,
    cp1: CsCommitment,
    cp2: CsCommitment,
    aux: Seq<PoKAuxEntry>,
    star: PoKStarProof,
    tv: (nat, Seq<(nat, nat)>, (nat, nat), Seq<nat>),
)
    requires
        pa1@ == pa2@,
        cp1@ == cp2@,
    ensures
        shell_fails(pa1, root_cy, cv, cp1, aux, star, tv) == shell_fails(pa2, root_cy, cv, cp2, aux, star, tv),
    decreases star,
{
    match star {
        PoKStarProof::Base { pi_open_cp } => {},
        PoKStarProof::Recursive { round, next } => {
            lemma_add_accepts_view(pa1, pa2, round.c1, round.c1, round.c2, round.c2, cp1, cp2, round.pi_e_eq_e1_plus_e2);
            assert(shell_round_fails(pa1, root_cy, (cv.len() / 2) as nat, cp1, aux, round) == shell_round_fails(
                pa2,
                root_cy,
                (cv.len() / 2) as nat,
                cp2,
                aux,
                round,
            ));
            assert(shell_round_ok(pa1, root_cy, (cv.len() / 2) as nat, cp1, aux, round, tv) == shell_round_ok(
                pa2,
                root_cy,
                (cv.len() / 2) as nat,
                cp2,
                aux,
                round,
                tv,
            ));
            lemma_shell_fails_view(
                pa1,
                pa2,
                root_cy,
                fold_level(cv, round.alpha@, pa1.n2@),
                round.c_p_prime,
                round.c_p_prime,
                aux,
                *next,
                tau_append_view(tv, round),
            );
        },
    }
}

/// The PoKP failure depends only on the numbers of the parameters.
proof fn lemma_pokp_fails_view(pa1: CsCommitParams, pa2: CsCommitParams, pdf: DfParams, cy: nat, cv: Seq<(nat, nat)>, pp: PoKPProof)
    requires
        pa1@ == pa2@,
    ensures
        pokp_fails(pa1, pdf, cy, cv, pp) == pokp_fails(pa2, pdf, cy, cv, pp),
{
    lemma_shell_fails_view(pa1, pa2, cy, cv, pp.c_p_commitment, pp.c_p_commitment, pp.aux@, pp.recursive_proof, tau_view(pp.tau));
}

/// The component failure depends only on the numbers of the parameters
/// and of `E`.
proof fn lemma_enc_mul_add_fails_view(
    pa1: CsCommitParams,
    pa2: CsCommitParams,
    pk_k: nat,
    c_plain: nat,
    c_scalar: nat,
    ec1: CsCommitment,
    ec2: CsCommitment,
    pr: PpbEncMulAddProof,
)
    requires
        pa1@ == pa2@,
        ec1@ == ec2@,
    ensures
        enc_mul_add_fails(pa1, pk_k, c_plain, c_scalar, ec1, pr) == enc_mul_add_fails(pa2, pk_k, c_plain, c_scalar, ec2, pr),
{
    lemma_mult_accepts_view(pa1, pa2, pr.c_mul, pr.c_mul, ec1, ec2, c_scalar, pr.pi_mult);
}

/// The shell's error depends only on the numbers of the parameters and of
/// the commitment `CP`.
proof fn lemma_shell_error_view(
    pa1: CsCommitParams,
    pa2: CsCommitParams,
    root_cy: nat,
    cv: Seq<(nat, nat)>,
    cp1: CsCommitment,
    cp2: CsCommitment,
    aux: Seq<PoKAuxEntry>,
    star: PoKStarProof,
    tv: (nat, Seq<(nat, nat)>, (nat, nat), Seq<nat>),
)
    requires
        pa1@ == pa2@,
        cp1@ == cp2@,
    ensures
        shell_error(pa1, root_cy, cv, cp1, aux, star, tv) == shell_error(pa2, root_cy, cv, cp2, aux, star, tv),
    decreases star,
{
    reveal(shell_error);
    match star {
        PoKStarProof::Base { pi_open_cp } => {},
        PoKStarProof::Recursive { round, next } => {
            lemma_add_accepts_view(pa1, pa2, round.c1, round.c1, round.c2, round.c2, cp1, cp2, round.pi_e_eq_e1_plus_e2);
            assert(shell_round_fails(pa1, root_cy, (cv.len() / 2) as nat, cp1, aux, round) == shell_round_fails(
                pa2,
                root_cy,
                (cv.len() / 2) as nat,
                cp2,
                aux,
                round,
            ));
            assert(shell_round_error(pa1, root_cy, (cv.len() / 2) as nat, aux, round) == shell_round_error(
                pa2,
                root_cy,
                (cv.len() / 2) as nat,
                aux,
                round,
            ));
            lemma_shell_error_view(
                pa1,
                pa2,
                root_cy,
                fold_level(cv, round.alpha@, pa1.n2@),
                round.c_p_prime,
                round.c_p_prime,
                aux,
                *next,
                tau_append_view(tv, round),
            );
        },
    }
}

/// The error VS2 reports under the commitment parameters `pa`, once they
/// are rebuilt: the PoKP verifier's when the user's checks pass, the
/// encryption proof can be checked and accepts, and PoKP fails; otherwise
/// a missing inverse.
pub open spec fn poks2_error_with(params: PpbParams, pa: CsCommitParams, pk_a: PpbPublicKey, c_y: nat, out: PpbEscrowOutput) -> CryptoError {
    let pr = out.pi_u;
    let n2 = params.cpar.n2@;
    let gate = {
        &&& pr.c_id@ < n2 && pr.c_at@ < n2 && pr.c_r1@ < n2 && pr.c_r2@ < n2 && pr.c_r3@ < n2
        &&& pr.pi_y.relation_holds && pr.pi_y.c_y_from_cid_cat@ == c_y && (pr.c_id@ * pr.c_at@) % n2 == c_y
        &&& pr.pk_sky.k@ == params.sky_pk.k@
    };
    let sky_acc = forall|c: CsCommitment|
        c@ == enc_statement(n2, pr.c_sky@) ==> #[trigger] cs_enc_accepts(pa, params.sky_pk.k@, c, c_y, pr.pi_sky);
    let cv = cts(pk_a.x_public.encrypted_coeffs@);
    if gate && !cs_enc_fails(pa, params.sky_pk.k@, pr.pi_sky) && sky_acc && pokp_fails(pa, params.cpar, pr.c_id@, cv, pr.pi_poly) {
        pokp_error(pa, params.cpar, pr.c_id@, cv, pr.pi_poly)
    } else {
        verifier_error(pa.n2@)
    }
}

/// The error VS2 reports: the parameter stage's when the parameters cannot
/// be rebuilt, otherwise the error under every rebuilt parameter set.
#[verifier::opaque]
pub open spec fn poks2_error_is(params: PpbParams, pk_a: PpbPublicKey, c_y: nat, out: PpbEscrowOutput, e: CryptoError) -> bool {
    if !poks2_params_ok(params, out.pi_u.ah_g@) {
        e == poks2_params_error(params)
    } else {
        forall|pa: CsCommitParams| pa@ == poks2_params_view(params, out.pi_u.ah_g@) ==> e == #[trigger] poks2_error_with(params, pa, pk_a, c_y, out)
    }
}

/// The PoKS2 error depends only on the numbers of the parameters.
proof fn lemma_poks2_error_view(params: PpbParams, pa1: CsCommitParams, pa2: CsCommitParams, pk_a: PpbPublicKey, c_y: nat, out: PpbEscrowOutput)
    requires
        pa1@ == pa2@,
    ensures
        poks2_error_with(params, pa1, pk_a, c_y, out) == poks2_error_with(params, pa2, pk_a, c_y, out),
{
    let pr = out.pi_u;
    let cv = cts(pk_a.x_public.encrypted_coeffs@);
    lemma_pokp_fails_view(pa1, pa2, params.cpar, pr.c_id@, cv, pr.pi_poly);
    lemma_shell_error_view(pa1, pa2, pr.c_id@, cv, pr.pi_poly.c_p_commitment, pr.pi_poly.c_p_commitment, pr.pi_poly.aux@, pr.pi_poly.recursive_proof, tau_view(pr.pi_poly.tau));
    assert forall|c: CsCommitment|
        #![trigger cs_enc_accepts(pa1, params.sky_pk.k@, c, c_y, pr.pi_sky)]
        #![trigger cs_enc_accepts(pa2, params.sky_pk.k@, c, c_y, pr.pi_sky)]
        cs_enc_accepts(pa1, params.sky_pk.k@, c, c_y, pr.pi_sky) == cs_enc_accepts(pa2, params.sky_pk.k@, c, c_y, pr.pi_sky) by {
        lemma_enc_accepts_view(pa1, pa2, params.sky_pk.k@, c, c, c_y, pr.pi_sky);
    }
}

/// The parameter stage's error is VS2's error when the parameters cannot
/// be rebuilt.
proof fn lemma_poks2_error_params(params: PpbParams, pk_a: PpbPublicKey, c_y: nat, out: PpbEscrowOutput, e: CryptoError)
    requires
        !poks2_params_ok(params, out.pi_u.ah_g@),
        e == poks2_params_error(params),
    ensures
        poks2_error_is(params, pk_a, c_y, out, e),
{
    reveal(poks2_error_is);
}

/// The error under one rebuilt parameter set is VS2's error.
proof fn lemma_poks2_error_under(params: PpbParams, pa: CsCommitParams, pk_a: PpbPublicKey, c_y: nat, out: PpbEscrowOutput, e: CryptoError)
    requires
        poks2_params_ok(params, out.pi_u.ah_g@),
        pa@ == poks2_params_view(params, out.pi_u.ah_g@),
        e == poks2_error_with(params, pa, pk_a, c_y, out),
    ensures
        poks2_error_is(params, pk_a, c_y, out, e),
{
    reveal(poks2_error_is);
    assert forall|pa2: CsCommitParams| pa2@ == poks2_params_view(params, out.pi_u.ah_g@) implies e == #[trigger] poks2_error_with(
        params,
        pa2,
        pk_a,
        c_y,
        out,
    ) by {
        lemma_poks2_error_view(params, pa2, pa, pk_a, c_y, out);
    }
}

/// The PoKS2 failure depends only on the numbers of the parameters.
#[verifier::rlimit(40)]
proof fn lemma_poks2_fails_view(params: PpbParams, pa1: CsCommitParams, pa2: CsCommitParams, pk_a: PpbPublicKey, c_y: nat, out: PpbEscrowOutput)
    requires
        pa1@ == pa2@,
    ensures
        poks2_fails_with(params, pa1, pk_a, c_y, out) == poks2_fails_with(params, pa2, pk_a, c_y, out),
{
    let pr = out.pi_u;
    let k = pk_a.x_public.pk_ah.k@;
    let n2 = params.cpar.n2@;
    let e_stmt = enc_statement(n2, pr.pi_poly.tau.c_p@);
    lemma_poks2_checks_view(params, pa1, pa2, pk_a, c_y, out);
    lemma_pokp_fails_view(pa1, pa2, params.cpar, pr.c_id@, cts(pk_a.x_public.encrypted_coeffs@), pr.pi_poly);
    lemma_pokp_accepts_view(pa1, pa2, params.cpar, pr.c_id@, cts(pk_a.x_public.encrypted_coeffs@), pr.pi_poly);
    assert forall|ec: CsCommitment|
        #![trigger enc_mul_add_fails(pa1, k, pr.c_id@, pr.c_r1@, ec, pr.pi_id)]
        #![trigger enc_mul_add_fails(pa2, k, pr.c_id@, pr.c_r1@, ec, pr.pi_id)]
        enc_mul_add_fails(pa1, k, pr.c_id@, pr.c_r1@, ec, pr.pi_id) == enc_mul_add_fails(pa2, k, pr.c_id@, pr.c_r1@, ec, pr.pi_id) by {
        lemma_enc_mul_add_fails_view(pa1, pa2, k, pr.c_id@, pr.c_r1@, ec, ec, pr.pi_id);
    }
    assert forall|ec: CsCommitment|
        #![trigger enc_mul_add_fails(pa1, k, pr.c_at@, pr.c_r2@, ec, pr.pi_at)]
        #![trigger enc_mul_add_fails(pa2, k, pr.c_at@, pr.c_r2@, ec, pr.pi_at)]
        enc_mul_add_fails(pa1, k, pr.c_at@, pr.c_r2@, ec, pr.pi_at) == enc_mul_add_fails(pa2, k, pr.c_at@, pr.c_r2@, ec, pr.pi_at) by {
        lemma_enc_mul_add_fails_view(pa1, pa2, k, pr.c_at@, pr.c_r2@, ec, ec, pr.pi_at);
    }
    assert forall|ec: CsCommitment|
        #![trigger cs_mult_fails(pa1, ec, pr.pi_nf)]
        #![trigger cs_mult_fails(pa2, ec, pr.pi_nf)]
        cs_mult_fails(pa1, ec, pr.pi_nf) == cs_mult_fails(pa2, ec, pr.pi_nf) by {}
    assert forall|c: CsCommitment|
        #![trigger cs_enc_accepts(pa1, params.sky_pk.k@, c, c_y, pr.pi_sky)]
        #![trigger cs_enc_accepts(pa2, params.sky_pk.k@, c, c_y, pr.pi_sky)]
        cs_enc_accepts(pa1, params.sky_pk.k@, c, c_y, pr.pi_sky) == cs_enc_accepts(pa2, params.sky_pk.k@, c, c_y, pr.pi_sky) by {
        lemma_enc_accepts_view(pa1, pa2, params.sky_pk.k@, c, c, c_y, pr.pi_sky);
    }
    assert forall|zc: CsCommitment, ec: CsCommitment|
        #![trigger cs_mult_accepts(pa1, zc, ec, pr.c_r3@, pr.pi_nf)]
        #![trigger cs_mult_accepts(pa2, zc, ec, pr.c_r3@, pr.pi_nf)]
        cs_mult_accepts(pa1, zc, ec, pr.c_r3@, pr.pi_nf) == cs_mult_accepts(pa2, zc, ec, pr.c_r3@, pr.pi_nf) by {
        lemma_mult_accepts_view(pa1, pa2, zc, zc, ec, ec, pr.c_r3@, pr.pi_nf);
    }
    assert forall|ec: CsCommitment|
        #![trigger enc_mul_add_accepts(pa1, k, pr.c_id@, pr.c_r1@, ec, out.z_hat.z_id@, pr.pi_id)]
        #![trigger enc_mul_add_accepts(pa2, k, pr.c_id@, pr.c_r1@, ec, out.z_hat.z_id@, pr.pi_id)]
        enc_mul_add_accepts(pa1, k, pr.c_id@, pr.c_r1@, ec, out.z_hat.z_id@, pr.pi_id) == enc_mul_add_accepts(
            pa2,
            k,
            pr.c_id@,
            pr.c_r1@,
            ec,
            out.z_hat.z_id@,
            pr.pi_id,
        ) by {
        lemma_enc_mul_add_accepts_view(pa1, pa2, k, pr.c_id@, pr.c_r1@, ec, ec, out.z_hat.z_id@, pr.pi_id);
    }
}

/// VS2: verifies the user proof `pi_U` of an Escrow output for `(pk_A, C_y)`.
///
/// Fails, once `C_y` is the output's, when the commitment parameters
/// cannot be rebuilt (moduli differ, `n^2` is zero, or the proof's `g` is
/// not in `[1, n^2)`); later, when a sub-verifier fails or a needed inverse
/// does not exist.
#[verifier::rlimit(40)]
pub fn verify_poks2(params: &PpbParams, pk_a: &PpbPublicKey, c_y: &Nat, escrow_out: &PpbEscrowOutput) -> (r: CryptoResult<bool>)
    ensures
        r is Err <==> poks2_fails(*params, *pk_a, c_y@, *escrow_out),
        r matches Err(e) ==> e is InvalidInput || e == CryptoError::ModularInverseUnavailable,
        r is Err && !poks2_params_ok(*params, escrow_out.pi_u.ah_g@) ==> r == Err::<bool, CryptoError>(poks2_params_error(*params)),
        r matches Err(e) ==> poks2_error_is(*params, *pk_a, c_y@, *escrow_out, e),
        r matches Ok(b) ==> b == poks2_accepts(*params, *pk_a, c_y@, *escrow_out),
{
    if !big_eq(c_y, &escrow_out.c_y) {
        return Ok(false);
    }
    let pr = &escrow_out.pi_u;
    let params_ah = match build_cs_commit_params_from_user_proof(params, &pr.ah_g) {
        Ok(p) => p,
        Err(e) => {
            proof {
                lemma_poks2_error_params(*params, *pk_a, c_y@, *escrow_out, e);
            }
            return Err(e);
        },
    };
    let ghost pav = poks2_params_view(*params, pr.ah_g@);
    let ghost checks = poks2_checks(*params, params_ah, *pk_a, c_y@, *escrow_out);
    let ghost fails_w = poks2_fails_with(*params, params_ah, *pk_a, c_y@, *escrow_out);
    let ghost k = pk_a.x_public.pk_ah.k@;
    proof {
        assert forall|pa: CsCommitParams| pa@ == pav implies #[trigger] poks2_checks(*params, pa, *pk_a, c_y@, *escrow_out) == checks by {
            lemma_poks2_checks_view(*params, pa, params_ah, *pk_a, c_y@, *escrow_out);
        }
        assert(poks2_accepts(*params, *pk_a, c_y@, *escrow_out) == checks);
        assert forall|pa: CsCommitParams| pa@ == pav implies #[trigger] poks2_fails_with(*params, pa, *pk_a, c_y@, *escrow_out) == fails_w by {
            lemma_poks2_fails_view(*params, pa, params_ah, *pk_a, c_y@, *escrow_out);
        }
        assert(poks2_fails(*params, *pk_a, c_y@, *escrow_out) == fails_w);
    }
    let n2 = &params.cpar.n2;
    if !big_lt(&pr.c_id, n2) || !big_lt(&pr.c_at, n2) || !big_lt(&pr.c_r1, n2) || !big_lt(&pr.c_r2, n2) || !big_lt(&pr.c_r3, n2) {
        return Ok(false);
    }
    let c_y_from_cid_cat = big_rem(&big_mul(&pr.c_id, &pr.c_at), n2);
    if !pr.pi_y.relation_holds || !big_eq(&pr.pi_y.c_y_from_cid_cat, c_y) || !big_eq(&c_y_from_cid_cat, c_y) {
        return Ok(false);
    }
    if !big_eq(&pr.pk_sky.k, &params.sky_pk.k) {
        return Ok(false);
    }
    let c_sky_statement = build_enc_statement_commitment(&params_ah, &pr.c_sky);
    let sky_ok = match verify_cs_enc(&params_ah, &params.sky_pk.k, &c_sky_statement, c_y, &pr.pi_sky) {
        Ok(v) => v,
        Err(e) => {
            proof {
                assert(e == poks2_error_with(*params, params_ah, *pk_a, c_y@, *escrow_out));
                lemma_poks2_error_under(*params, params_ah, *pk_a, c_y@, *escrow_out, e);
            }
            return Err(e);
        },
    };
    if !sky_ok {
        return Ok(false);
    }
    proof {
        assert forall|c: CsCommitment| c@ == enc_statement(n2@, pr.c_sky@) implies #[trigger] cs_enc_accepts(
            params_ah,
            params.sky_pk.k@,
            c,
            c_y@,
            pr.pi_sky,
        ) by {
            lemma_enc_accepts_view(params_ah, params_ah, params.sky_pk.k@, c, c_sky_statement, c_y@, pr.pi_sky);
        }
    }
    let e_poly = match verify_pokp_public_components(
        &params_ah,
        &params.cpar,
        &pr.c_id,
        pk_a.x_public.encrypted_coeffs.as_slice(),
        &pr.pi_poly,
    ) {
        Ok(Some(e)) => e,
        Ok(None) => return Ok(false),
        Err(e) => {
            proof {
                assert(e == poks2_error_with(*params, params_ah, *pk_a, c_y@, *escrow_out));
                lemma_poks2_error_under(*params, params_ah, *pk_a, c_y@, *escrow_out, e);
            }
            return Err(e);
        },
    };
    let e_commitment = build_enc_statement_commitment(&params_ah, &e_poly);
    let z_nf_commitment = build_enc_statement_commitment(&params_ah, &escrow_out.z_hat.z_nf);
    let ghost e_stmt = enc_statement(n2@, pr.pi_poly.tau.c_p@);
    let nf_ok = match verify_cs_mult(&params_ah, &z_nf_commitment, &e_commitment, &pr.c_r3, &pr.pi_nf) {
        Ok(v) => v,
        Err(e) => {
            proof {
                assert forall|ec: CsCommitment| ec@ == e_stmt implies #[trigger] cs_mult_fails(params_ah, ec, pr.pi_nf) by {}
                assert(e == poks2_error_with(*params, params_ah, *pk_a, c_y@, *escrow_out));
                lemma_poks2_error_under(*params, params_ah, *pk_a, c_y@, *escrow_out, e);
            }
            return Err(e);
        },
    };
    if !nf_ok {
        return Ok(false);
    }
    proof {
        assert forall|zc: CsCommitment, ec: CsCommitment|
            zc@ == enc_statement(n2@, escrow_out.z_hat.z_nf@) && ec@ == e_stmt implies #[trigger] cs_mult_accepts(
            params_ah,
            zc,
            ec,
            pr.c_r3@,
            pr.pi_nf,
        ) by {
            lemma_mult_accepts_view(params_ah, params_ah, zc, z_nf_commitment, ec, e_commitment, pr.c_r3@, pr.pi_nf);
        }
    }
    let id_ok = match verify_enc_mul_add_component(
        &params_ah,
        &pk_a.x_public.pk_ah,
        &pr.c_id,
        &pr.c_r1,
        &e_commitment,
        &escrow_out.z_hat.z_id,
        &pr.pi_id,
    ) {
        Ok(v) => v,
        Err(e) => {
            proof {
                assert forall|ec: CsCommitment| ec@ == e_stmt implies #[trigger] enc_mul_add_fails(
                    params_ah,
                    k,
                    pr.c_id@,
                    pr.c_r1@,
                    ec,
                    pr.pi_id,
                ) by {
                    lemma_enc_mul_add_fails_view(params_ah, params_ah, k, pr.c_id@, pr.c_r1@, ec, e_commitment, pr.pi_id);
                }
                assert(e == poks2_error_with(*params, params_ah, *pk_a, c_y@, *escrow_out));
                lemma_poks2_error_under(*params, params_ah, *pk_a, c_y@, *escrow_out, e);
            }
            return Err(e);
        },
    };
    if !id_ok {
        return Ok(false);
    }
    proof {
        assert forall|ec: CsCommitment| ec@ == e_stmt implies #[trigger] enc_mul_add_accepts(
            params_ah,
            k,
            pr.c_id@,
            pr.c_r1@,
            ec,
            escrow_out.z_hat.z_id@,
            pr.pi_id,
        ) by {
            lemma_enc_mul_add_accepts_view(params_ah, params_ah, k, pr.c_id@, pr.c_r1@, ec, e_commitment, escrow_out.z_hat.z_id@, pr.pi_id);
        }
    }
    let at_ok = match verify_enc_mul_add_component(
        &params_ah,
        &pk_a.x_public.pk_ah,
        &pr.c_at,
        &pr.c_r2,
        &e_commitment,
        &escrow_out.z_hat.z_at,
        &pr.pi_at,
    ) {
        Ok(v) => v,
        Err(e) => {
            proof {
                assert forall|ec: CsCommitment| ec@ == e_stmt implies #[trigger] enc_mul_add_fails(
                    params_ah,
                    k,
                    pr.c_at@,
                    pr.c_r2@,
                    ec,
                    pr.pi_at,
                ) by {
                    lemma_enc_mul_add_fails_view(params_ah, params_ah, k, pr.c_at@, pr.c_r2@, ec, e_commitment, pr.pi_at);
                }
                assert(e == poks2_error_with(*params, params_ah, *pk_a, c_y@, *escrow_out));
                lemma_poks2_error_under(*params, params_ah, *pk_a, c_y@, *escrow_out, e);
            }
            return Err(e);
        },
    };
    proof {
        if at_ok {
            assert forall|ec: CsCommitment| ec@ == e_stmt implies #[trigger] enc_mul_add_accepts(
                params_ah,
                k,
                pr.c_at@,
                pr.c_r2@,
                ec,
                escrow_out.z_hat.z_at@,
                pr.pi_at,
            ) by {
                lemma_enc_mul_add_accepts_view(params_ah, params_ah, k, pr.c_at@, pr.c_r2@, ec, e_commitment, escrow_out.z_hat.z_at@, pr.pi_at);
            }
        }
        assert(!enc_mul_add_fails(params_ah, k, pr.c_at@, pr.c_r2@, e_commitment, pr.pi_at));
    }
    Ok(at_ok)
}

/// VerEscrow(Λ, pk_A, C_y, Z): VerPK on the key's own `Cx`, then VS2.
///
/// Fails only where VS2 fails, after VerPK has accepted.
pub fn verify_escrow(params: &PpbParams, pk_a: &PpbPublicKey, c_y: &Nat, escrow_out: &PpbEscrowOutput) -> (r: CryptoResult<bool>)
    requires
        params.cpar.n@ > 0,
    ensures
        r is Err <==> pk_accepts(*params, *pk_a, pk_a.c_x@) && poks2_fails(*params, *pk_a, c_y@, *escrow_out),
        r matches Err(e) ==> e is InvalidInput || e == CryptoError::ModularInverseUnavailable,
        r is Err && !poks2_params_ok(*params, escrow_out.pi_u.ah_g@) ==> r == Err::<bool, CryptoError>(poks2_params_error(*params)),
        r matches Err(e) ==> poks2_error_is(*params, *pk_a, c_y@, *escrow_out, e),
        r matches Ok(b) ==> b == (pk_accepts(*params, *pk_a, pk_a.c_x@) && poks2_accepts(*params, *pk_a, c_y@, *escrow_out)),
{
    if !verify_pk(params, pk_a, &pk_a.c_x) {
        return Ok(false);
    }
    verify_poks2(params, pk_a, c_y, escrow_out)
}


/// The encryption `Enc_pkAH(m; r)` under the HEC parameters, as numbers.
pub open spec fn hec_enc_view(params: PpbParams, k: nat, m: nat, r: nat) -> (nat, nat) {
    let p = params.hecpar.cs_params;
    cs_enc_spec(p.n@, p.n2@, p.g@, p.h@, k, m, r)
}

/// Proves one `Z` component `Z = Enc(y; r_enc) (+) (s (.) E)`: the
/// encryption proof against the commitment `C_plain` to `y`, the
/// multiplication proof against `C_s` (opening `rho_s`) and the addition
/// proof, after checking `Z` against the expected ciphertext.
///
/// Fails when an encryption, wrap, sign derivation or sub-proof fails, or
/// when `Z` is not the expected ciphertext modulo `n^2`.
#[verifier::rlimit(40)]
fn prove_enc_mul_add_component(
    params: &PpbParams,
    params_ah: &CsCommitParams,
    pk_ah: &CsPubKey,
    y_part: &Nat,
    r_enc: &Nat,
    c_plain: &Nat,
    scalar: &Nat,
    c_scalar: &DfCommitment,
    e_poly: &CsCiphertext,
    e_wrapped: &CsCommitmentWithOpening,
    z_component: &CsCiphertext,
) -> (r: CryptoResult<PpbEncMulAddProof>)
    requires
        params_ah.n2@ > 0,
        params_ah.n2@ == params.cpar.n2@,
    ensures
        r is Ok ==> ct_mod(
            ct_add(hec_enc_view(*params, pk_ah.k@, y_part@, r_enc@), ct_scale(e_poly@, scalar@, params_ah.n2@), params_ah.n2@),
            params_ah.n2@,
        ) == ct_mod(z_component@, params_ah.n2@),
        r matches Err(e) ==> e is InvalidInput || e == CryptoError::ModularInverseUnavailable,
        r matches Ok(pr) ==> pr.c_enc@ == enc_statement(params_ah.n2@, hec_enc_view(*params, pk_ah.k@, y_part@, r_enc@))
            && pr.c_mul@ == enc_statement(params_ah.n2@, ct_scale(e_poly@, scalar@, params_ah.n2@)),
        r matches Ok(pr) ==> (enc_mul_add_conds(*params_ah, pk_ah.k@, e_wrapped.commitment) ==> enc_mul_add_accepts(
            *params_ah,
            pk_ah.k@,
            c_plain@,
            c_scalar.c@,
            e_wrapped.commitment,
            z_component@,
            pr,
        )),
{
    let n2 = &params_ah.n2;
    let y_enc = match enc_cs_with_randomness(&params.hecpar.cs_params, pk_ah, y_part, r_enc) {
        Ok(c) => c,
        Err(e) => return Err(e),
    };
    let wrapped_for_enc = match wrap_ciphertext_for_cs_enc(params_ah, &pk_ah.k, y_part, r_enc, &y_enc) {
        Ok(w) => w,
        Err(e) => return Err(e),
    };
    let wrapped_for_add = match com_ah_with_zero_randomness(params_ah, &y_enc) {
        Ok(w) => w,
        Err(e) => return Err(e),
    };
    let b_enc: [i8; 4] = [
        wrapped_for_enc.opening.a1,
        wrapped_for_enc.opening.b1,
        wrapped_for_enc.opening.a2,
        wrapped_for_enc.opening.b2,
    ];
    let y_int = Int::from_nat(y_part);
    let r_int = Int::from_nat(r_enc);
    let pi_enc = match prove_cs_enc(
        params_ah,
        &pk_ah.k,
        &wrapped_for_enc.commitment,
        c_plain,
        &wrapped_for_enc.opening,
        &y_int,
        &r_int,
        &r_int,
        1,
        b_enc,
    ) {
        Ok(p) => p,
        Err(e) => return Err(e),
    };
    let scaled = cs_homomorphic_scalar_mul(e_poly, scalar, n2);
    let scaled_wrapped = match com_ah_with_zero_randomness(params_ah, &scaled) {
        Ok(w) => w,
        Err(e) => return Err(e),
    };
    let s_int = Int::from_nat(scalar);
    let rho_int = Int::from_nat(&c_scalar.r);
    let b_mult = match derive_mult_signs(&scaled_wrapped.opening, &e_wrapped.opening, &s_int) {
        Ok(b) => b,
        Err(e) => return Err(e),
    };
    let pi_mult = match prove_cs_mult(
        params_ah,
        &scaled_wrapped.commitment,
        &e_wrapped.commitment,
        &c_scalar.c,
        &scaled_wrapped.opening,
        &e_wrapped.opening,
        &s_int,
        &rho_int,
        1,
        b_mult,
    ) {
        Ok(p) => p,
        Err(e) => return Err(e),
    };
    let z_expected = cs_homomorphic_add(&y_enc, &scaled, n2);
    if !ciphertext_eq_mod_n2(&z_expected, z_component, n2) {
        return Err(CryptoError::InvalidInput("Z component does not match Enc(y;r) (+) (r (.) E_poly)"));
    }
    let z_wrapped = match com_ah_with_zero_randomness(params_ah, z_component) {
        Ok(w) => w,
        Err(e) => return Err(e),
    };
    let pi_add = match prove_cs_add(
        params_ah,
        &wrapped_for_add.commitment,
        &scaled_wrapped.commitment,
        &z_wrapped.commitment,
        &wrapped_for_add.opening,
        &scaled_wrapped.opening,
        &z_wrapped.opening,
    ) {
        Ok(p) => p,
        Err(e) => return Err(e),
    };
    let ghost ca_add = wrapped_for_add.commitment;
    let ghost cz = z_wrapped.commitment;
    let out = PpbEncMulAddProof {
        c_enc: wrapped_for_enc.commitment,
        c_mul: scaled_wrapped.commitment,
        pi_enc,
        pi_mult,
        pi_add,
    };
    proof {
        lemma_enc_mul_add_complete(*params_ah, pk_ah.k@, c_plain@, c_scalar.c@, e_wrapped.commitment, z_component@, out, ca_add, cz);
    }
    Ok(out)
}


/// The evaluation `E = Enc(P(y))` of the key's coefficient polynomial by
/// folding with the reduced squaring chain of `y` modulo `n`.
pub open spec fn poly_eval_mod(pk_a: PpbPublicKey, y: nat, n: nat) -> (nat, nat) {
    let v = pk_a.x_public.polynomial@.0;
    folded_eval(v, Seq::new(rounds_for(v.len()), |i: int| power_chain(y, n, i as nat)), pk_a.x_public.polynomial@.1)
}

/// The Escrow statement behind PoKS2 holds, everything reduced modulo `n`:
/// `r3 != 0`, `r_y = r_id + r_at`, `C_y = Com((y_id + y_at) mod n; r_y)`,
/// `Z_nf = r3 E`, `Z_id = Enc(y_id; r_id) (+) r1 E` and
/// `Z_at = Enc(y_at; r_at) (+) r2 E` modulo `n^2`.
pub open spec fn poks2_statement_holds(
    params: PpbParams,
    pk_a: PpbPublicKey,
    y: HecEvalInput,
    r_y: nat,
    rz: HecEvalRandomness,
    z_hat: HecEvalOutput,
    c_y: nat,
) -> bool {
    let n = params.cpar.n@;
    let n2 = params.cpar.n2@;
    let y_id = y.y_id@ % n;
    let y_at = y.y_at@ % n;
    let rid = rz.rid@ % n;
    let rat = rz.rat@ % n;
    let e = poly_eval_mod(pk_a, y_id, n);
    let k = pk_a.x_public.pk_ah.k@;
    &&& rz.r3@ % n != 0
    &&& r_y % n == (rid + rat) % n
    &&& c_y == df_commit_spec(params.cpar.g@, params.cpar.h@, n2, (y_id + y_at) % n, r_y % n)
    &&& ct_mod(ct_scale(e, rz.r3@ % n, n2), n2) == ct_mod(z_hat.z_nf@, n2)
    &&& ct_mod(ct_add(hec_enc_view(params, k, y_id, rid), ct_scale(e, rz.r1@ % n, n2), n2), n2) == ct_mod(z_hat.z_id@, n2)
    &&& ct_mod(ct_add(hec_enc_view(params, k, y_at, rat), ct_scale(e, rz.r2@ % n, n2), n2), n2) == ct_mod(z_hat.z_at@, n2)
}

/// The public parts of `pi_U` as the prover builds them: a fresh base `g`
/// of `|QR_{n^2}|`, `C_id = Com(y_id; r_id)`, `C_at = Com(y_at; r_at)`,
/// `C_r1..C_r3` committing to `r1..r3` under fresh openings, the setup's
/// `pk_sky` with `C_sky = Enc_sky((y_id + y_at) mod n; r_sky)` for some
/// `r_sky < n`, `pi_y` stating `C_y = C_id C_at`, the PoKP transcript over
/// `C_id`, the coefficients of `X` and `E`, and the statement commitments
/// of the `Z_id`, `Z_at` components.
pub open spec fn poks2_user_output(
    params: PpbParams,
    pk_a: PpbPublicKey,
    y: HecEvalInput,
    rz: HecEvalRandomness,
    c_y: nat,
    u: PpbUserProof,
) -> bool {
    let n = params.cpar.n@;
    let n2 = params.cpar.n2@;
    let g = params.cpar.g@;
    let h = params.cpar.h@;
    let y_id = y.y_id@ % n;
    let y_at = y.y_at@ % n;
    let rid = rz.rid@ % n;
    let rat = rz.rat@ % n;
    let e = poly_eval_mod(pk_a, y_id, n);
    let k = pk_a.x_public.pk_ah.k@;
    &&& is_abs_qr_sample(u.ah_g@, n2)
    &&& u.c_id@ == df_commit_spec(g, h, n2, y_id, rid)
    &&& u.c_at@ == df_commit_spec(g, h, n2, y_at, rat)
    &&& (exists|o: nat| u.c_r1@ == #[trigger] df_commit_spec(g, h, n2, rz.r1@ % n, o))
    &&& (exists|o: nat| u.c_r2@ == #[trigger] df_commit_spec(g, h, n2, rz.r2@ % n, o))
    &&& (exists|o: nat| u.c_r3@ == #[trigger] df_commit_spec(g, h, n2, rz.r3@ % n, o))
    &&& u.pk_sky.k@ == params.sky_pk.k@
    &&& (exists|rs: nat| rs < n && u.c_sky@ == #[trigger] hec_enc_view(params, params.sky_pk.k@, (y_id + y_at) % n, rs))
    &&& u.pi_y.relation_holds && u.pi_y.c_y_from_cid_cat@ == c_y
    &&& tau_view(u.pi_poly.tau) == (u.c_id@, cts(pk_a.x_public.encrypted_coeffs@), e, Seq::<nat>::empty())
    &&& u.pi_poly.c_p_commitment@ == enc_statement(n2, e)
    &&& u.pi_id.c_enc@ == enc_statement(n2, hec_enc_view(params, k, y_id, rid))
    &&& u.pi_id.c_mul@ == enc_statement(n2, ct_scale(e, rz.r1@ % n, n2))
    &&& u.pi_at.c_enc@ == enc_statement(n2, hec_enc_view(params, k, y_at, rat))
    &&& u.pi_at.c_mul@ == enc_statement(n2, ct_scale(e, rz.r2@ % n, n2))
}

/// PoKS2: builds `pi_U` for an Escrow output. After reducing `y` and `r^Z`
/// modulo `n`, it checks `r3 != 0`, `r_y = r_id + r_at` and
/// `C_y = Com(m_y; r_y)`, draws fresh commitment parameters, commits to
/// `y_id, y_at` (openings `r_id, r_at`) and to `r1, r2, r3` (fresh
/// openings), encrypts `m_y` under the setup's `pk_sky` and proves it,
/// checks `C_y = C_id C_at`, evaluates `E` and proves it with PoKP, and
/// proves `Z_nf = r3 E`, `Z_id` and `Z_at`.
///
/// Fails when the moduli differ, `r3 = 0 mod n`, `r_y` or `C_y` do not
/// match, `lambda` is zero, a `Z` component does not match, or a step
/// fails.
#[verifier::rlimit(60)]
pub fn build_poks2_proof(
    params: &PpbParams,
    pk_a: &PpbPublicKey,
    y: &HecEvalInput,
    r_y: &Nat,
    r_hat_z: &HecEvalRandomness,
    z_hat: &HecEvalOutput,
    c_y: &Nat,
) -> (r: CryptoResult<PpbUserProof>)
    requires
        params.cpar.n@ > 0,
        params.cpar.n2@ >= 3,
    ensures
        !moduli_match(*params) ==> r == Err::<PpbUserProof, CryptoError>(
            CryptoError::InvalidInput("PoKS2 requires cpar and hec CS modulus to match"),
        ),
        moduli_match(*params) && r_hat_z.r3@ % params.cpar.n@ == 0 ==> r == Err::<PpbUserProof, CryptoError>(
            CryptoError::InvalidInput("r3 must be non-zero in Z_n"),
        ),
        moduli_match(*params) && r_hat_z.r3@ % params.cpar.n@ != 0 && r_y@ % params.cpar.n@ != (r_hat_z.rid@
            % params.cpar.n@ + r_hat_z.rat@ % params.cpar.n@) % params.cpar.n@ ==> r == Err::<PpbUserProof, CryptoError>(
            CryptoError::InvalidInput("r_y must equal rid + rat (mod n)"),
        ),
        moduli_match(*params) && r_hat_z.r3@ % params.cpar.n@ != 0 && r_y@ % params.cpar.n@ == (r_hat_z.rid@
            % params.cpar.n@ + r_hat_z.rat@ % params.cpar.n@) % params.cpar.n@ && c_y@ != df_commit_spec(
            params.cpar.g@,
            params.cpar.h@,
            params.cpar.n2@,
            (y.y_id@ % params.cpar.n@ + y.y_at@ % params.cpar.n@) % params.cpar.n@,
            r_y@ % params.cpar.n@,
        ) ==> r == Err::<PpbUserProof, CryptoError>(CryptoError::InvalidInput("provided C_y does not match Com(m_y; r_y)")),
        r is Ok ==> moduli_match(*params) && poks2_statement_holds(*params, *pk_a, *y, r_y@, *r_hat_z, *z_hat, c_y@),
        r matches Err(e) ==> e is InvalidInput || e == CryptoError::ModularInverseUnavailable,
        r matches Ok(u) ==> poks2_user_output(*params, *pk_a, *y, *r_hat_z, c_y@, u),
        r matches Ok(u) ==> u.pi_y.c_y_from_cid_cat@ == (u.c_id@ * u.c_at@) % params.cpar.n2@,
        r matches Ok(u) ==> (poks2_complete_conds(*params, *pk_a) ==> poks2_accepts(
            *params,
            *pk_a,
            c_y@,
            (PpbEscrowOutput { z_hat: *z_hat, c_y: *c_y, pi_u: u }),
        )),
{
    if !big_eq(&params.cpar.n, &params.hecpar.cs_params.n) || !big_eq(&params.cpar.n2, &params.hecpar.cs_params.n2) {
        return Err(CryptoError::InvalidInput("PoKS2 requires cpar and hec CS modulus to match"));
    }
    let n = &params.cpar.n;
    let n2 = &params.cpar.n2;
    let y_id = big_rem(&y.y_id, n);
    let y_at = big_rem(&y.y_at, n);
    let rid = big_rem(&r_hat_z.rid, n);
    let rat = big_rem(&r_hat_z.rat, n);
    let r1 = big_rem(&r_hat_z.r1, n);
    let r2 = big_rem(&r_hat_z.r2, n);
    let r3 = big_rem(&r_hat_z.r3, n);
    if big_is_zero(&r3) {
        return Err(CryptoError::InvalidInput("r3 must be non-zero in Z_n"));
    }
    let m_y = match map_y_to_df_message(y, n) {
        Ok(v) => v,
        Err(e) => return Err(e),
    };
    let r_y_mod = big_rem(r_y, n);
    let r_y_expected = big_rem(&big_add(&rid, &rat), n);
    if !big_eq(&r_y_mod, &r_y_expected) {
        return Err(CryptoError::InvalidInput("r_y must equal rid + rat (mod n)"));
    }
    let c_y_expected = match commit_df_with_opening(&params.cpar, &m_y, &r_y_mod) {
        Ok(c) => c.c,
        Err(e) => return Err(e),
    };
    if !big_eq(&c_y_expected, c_y) {
        return Err(CryptoError::InvalidInput("provided C_y does not match Com(m_y; r_y)"));
    }
    let params_ah = match setup_cs_commit(params.lambda_bits, &params.hecpar.cs_params, &params.cpar) {
        Ok(p) => p,
        Err(e) => return Err(e),
    };
    let df_randomness_bits = match derive_df_commit_randomness_bits(params) {
        Ok(v) => v,
        Err(e) => return Err(e),
    };
    let c_id = match commit_df_with_opening(&params.cpar, &y_id, &rid) {
        Ok(c) => c,
        Err(e) => return Err(e),
    };
    let c_at = match commit_df_with_opening(&params.cpar, &y_at, &rat) {
        Ok(c) => c,
        Err(e) => return Err(e),
    };
    let c_r1 = match commit_df(&params.cpar, &r1, df_randomness_bits) {
        Ok(c) => c,
        Err(e) => return Err(e),
    };
    let c_r2 = match commit_df(&params.cpar, &r2, df_randomness_bits) {
        Ok(c) => c,
        Err(e) => return Err(e),
    };
    let c_r3 = match commit_df(&params.cpar, &r3, df_randomness_bits) {
        Ok(c) => c,
        Err(e) => return Err(e),
    };
    let pk_sky = params.sky_pk.copy();
    let r_sky = random_below(n);
    proof {
        vstd::arithmetic::div_mod::lemma_mod_bound((y.y_id@ % n@ + y.y_at@ % n@) as int, n@ as int);
    }
    let c_sky = match enc_cs_with_randomness(&params.hecpar.cs_params, &pk_sky, &m_y, &r_sky) {
        Ok(c) => c,
        Err(e) => return Err(e),
    };
    let c_sky_wrapped = match wrap_ciphertext_for_cs_enc(&params_ah, &pk_sky.k, &m_y, &r_sky, &c_sky) {
        Ok(w) => w,
        Err(e) => return Err(e),
    };
    let b_sky: [i8; 4] = [c_sky_wrapped.opening.a1, c_sky_wrapped.opening.b1, c_sky_wrapped.opening.a2, c_sky_wrapped.opening.b2];
    let pi_sky = match prove_cs_enc(
        &params_ah,
        &pk_sky.k,
        &c_sky_wrapped.commitment,
        c_y,
        &c_sky_wrapped.opening,
        &Int::from_nat(&m_y),
        &Int::from_nat(&r_y_mod),
        &Int::from_nat(&r_sky),
        1,
        b_sky,
    ) {
        Ok(p) => p,
        Err(e) => return Err(e),
    };
    let c_y_from_cid_cat = big_rem(&big_mul(&c_id.c, &c_at.c), n2);
    if !big_eq(&c_y_from_cid_cat, c_y) {
        return Err(CryptoError::InvalidInput("C_y must equal C_id * C_at (mod n^2)"));
    }
    let pi_y = PpbYConsistencyProof { c_y_from_cid_cat, relation_holds: true };
    let e_poly = match pk_a.x_public.polynomial.evaluate_mod_n(&y_id, n) {
        Ok(e) => e,
        Err(e) => return Err(e),
    };
    let e_poly_wrapped = match com_ah_with_zero_randomness(&params_ah, &e_poly) {
        Ok(w) => w,
        Err(e) => return Err(e),
    };
    let pi_poly = match pokp(
        &params_ah,
        &params.cpar,
        &rid,
        &y_id,
        &c_id.c,
        pk_a.x_public.encrypted_coeffs.as_slice(),
        &e_poly,
        df_randomness_bits,
    ) {
        Ok(p) => p,
        Err(e) => return Err(e),
    };
    if !big_eq(&pi_poly.c_p_commitment.c1, &e_poly_wrapped.commitment.c1) || !big_eq(
        &pi_poly.c_p_commitment.c2,
        &e_poly_wrapped.commitment.c2,
    ) || !big_eq(&pi_poly.c_p_commitment.c3, &e_poly_wrapped.commitment.c3) || !big_eq(
        &pi_poly.c_p_commitment.c4,
        &e_poly_wrapped.commitment.c4,
    ) {
        return Err(CryptoError::InvalidInput("pi_poly commitment anchor mismatches wrapped E_poly"));
    }
    let z_nf_expected = cs_homomorphic_scalar_mul(&e_poly, &r3, n2);
    if !ciphertext_eq_mod_n2(&z_nf_expected, &z_hat.z_nf, n2) {
        return Err(CryptoError::InvalidInput("Z_nf does not match r3 (.) E_poly"));
    }
    let z_nf_wrapped = match com_ah_with_zero_randomness(&params_ah, &z_hat.z_nf) {
        Ok(w) => w,
        Err(e) => return Err(e),
    };
    let r3_int = Int::from_nat(&r3);
    let b_nf = match derive_mult_signs(&z_nf_wrapped.opening, &e_poly_wrapped.opening, &r3_int) {
        Ok(b) => b,
        Err(e) => return Err(e),
    };
    let pi_nf = match prove_cs_mult(
        &params_ah,
        &z_nf_wrapped.commitment,
        &e_poly_wrapped.commitment,
        &c_r3.c,
        &z_nf_wrapped.opening,
        &e_poly_wrapped.opening,
        &r3_int,
        &Int::from_nat(&c_r3.r),
        1,
        b_nf,
    ) {
        Ok(p) => p,
        Err(e) => return Err(e),
    };
    let pi_id = match prove_enc_mul_add_component(
        params,
        &params_ah,
        &pk_a.x_public.pk_ah,
        &y_id,
        &rid,
        &c_id.c,
        &r1,
        &c_r1,
        &e_poly,
        &e_poly_wrapped,
        &z_hat.z_id,
    ) {
        Ok(p) => p,
        Err(e) => return Err(e),
    };
    let pi_at = match prove_enc_mul_add_component(
        params,
        &params_ah,
        &pk_a.x_public.pk_ah,
        &y_at,
        &rat,
        &c_at.c,
        &r2,
        &c_r2,
        &e_poly,
        &e_poly_wrapped,
        &z_hat.z_at,
    ) {
        Ok(p) => p,
        Err(e) => return Err(e),
    };
    let ghost sky_w = c_sky_wrapped.commitment;
    let ghost e_w = e_poly_wrapped.commitment;
    let ghost znf_w = z_nf_wrapped.commitment;
    let ghost sky_k = pk_sky.k@;
    let ghost pw = Seq::new(
        rounds_for(pk_a.x_public.polynomial@.0.len()),
        |i: int| power_chain(y_id@, n@, i as nat),
    );
    let out = PpbUserProof {
        ah_g: params_ah.g.copy(),
        c_id: c_id.c,
        c_at: c_at.c,
        c_r1: c_r1.c,
        c_r2: c_r2.c,
        c_r3: c_r3.c,
        pk_sky,
        c_sky,
        pi_poly,
        pi_nf,
        pi_id,
        pi_at,
        pi_sky,
        pi_y,
    };
    proof {
        let g = params.cpar.g@;
        let h = params.cpar.h@;
        assert(out.c_r1@ == df_commit_spec(g, h, n2@, r_hat_z.r1@ % n@, c_r1.r@));
        assert(out.c_r2@ == df_commit_spec(g, h, n2@, r_hat_z.r2@ % n@, c_r2.r@));
        assert(out.c_r3@ == df_commit_spec(g, h, n2@, r_hat_z.r3@ % n@, c_r3.r@));
        assert(out.c_sky@ == hec_enc_view(*params, params.sky_pk.k@, (y.y_id@ % n@ + y.y_at@ % n@) % n@, r_sky@));
        let eo = PpbEscrowOutput { z_hat: *z_hat, c_y: *c_y, pi_u: out };
        if poks2_complete_conds(*params, *pk_a) {
            crate::powmod::lemma_pair_pow_bound(g, h, y_id@, rid@, n2@);
            crate::powmod::lemma_pair_pow_bound(g, h, y_at@, rat@, n2@);
            crate::powmod::lemma_pair_pow_bound(g, h, r1@, c_r1.r@, n2@);
            crate::powmod::lemma_pair_pow_bound(g, h, r2@, c_r2.r@, n2@);
            crate::powmod::lemma_pair_pow_bound(g, h, r3@, c_r3.r@, n2@);
            assert(params_ah@ == poks2_params_view(*params, out.ah_g@));
            lemma_poks2_complete(*params, *pk_a, eo, params_ah, e_poly@, pw, sky_k, sky_w, e_w, znf_w);
        }
    }
    Ok(out)
}


// ---------------------------------------------------------------------------
// KeyGen, Escrow, Dec and Judge.
// ---------------------------------------------------------------------------

/// The numbers of a final PoKS1 proof, in field order.
pub open spec fn s1_final_view(p: PpbS1FinalProof) -> Seq<nat> {
    seq![p.r_cx@, p.r_cd@, p.r_pk@, p.r_u@, p.r_v@, p.z_x@, p.z_rx@, p.z_md@, p.z_rd@, p.z_sk@, p.z_rho@]
}

/// Two public keys hold the same numbers.
pub open spec fn same_public_key(a: PpbPublicKey, b: PpbPublicKey) -> bool {
    &&& a.x_public.pk_ah.k@ == b.x_public.pk_ah.k@
    &&& cts(a.x_public.encrypted_coeffs@) == cts(b.x_public.encrypted_coeffs@)
    &&& a.x_public.polynomial@ == b.x_public.polynomial@
    &&& a.fk == b.fk
    &&& a.c_x@ == b.c_x@
    &&& a.c_d@ == b.c_d@
    &&& fold_rounds(a.pi_a.rounds@) == fold_rounds(b.pi_a.rounds@)
    &&& s1_final_view(a.pi_a.final_proof) == s1_final_view(b.pi_a.final_proof)
}

impl PpbS1FinalProof {
    /// A copy of the proof.
    pub fn copy(&self) -> (r: PpbS1FinalProof)
        ensures
            s1_final_view(r) == s1_final_view(*self),
    {
        PpbS1FinalProof {
            r_cx: self.r_cx.copy(),
            r_cd: self.r_cd.copy(),
            r_pk: self.r_pk.copy(),
            r_u: self.r_u.copy(),
            r_v: self.r_v.copy(),
            z_x: self.z_x.copy(),
            z_rx: self.z_rx.copy(),
            z_md: self.z_md.copy(),
            z_rd: self.z_rd.copy(),
            z_sk: self.z_sk.copy(),
            z_rho: self.z_rho.copy(),
        }
    }
}

impl PpbAuthProof {
    /// A copy of the proof.
    pub fn copy(&self) -> (r: PpbAuthProof)
        ensures
            fold_rounds(r.rounds@) == fold_rounds(self.rounds@),
            s1_final_view(r.final_proof) == s1_final_view(self.final_proof),
    {
        let mut rounds: Vec<PpbS1FoldRound> = Vec::new();
        let mut i: usize = 0;
        while i < self.rounds.len()
            invariant
                i <= self.rounds@.len(),
                fold_rounds(rounds@) == fold_rounds(self.rounds@).subrange(0, i as int),
            decreases self.rounds.len() - i,
        {
            let rd = PpbS1FoldRound { l: self.rounds[i].l.copy(), r: self.rounds[i].r.copy() };
            let ghost before = rounds@;
            rounds.push(rd);
            proof {
                assert(fold_rounds(rounds@) =~= fold_rounds(before).push((self.rounds@[i as int].l@, self.rounds@[i as int].r@)));
                assert(fold_rounds(rounds@) =~= fold_rounds(self.rounds@).subrange(0, i + 1));
            }
            i = i + 1;
        }
        proof {
            assert(fold_rounds(self.rounds@).subrange(0, self.rounds@.len() as int) =~= fold_rounds(self.rounds@));
        }
        PpbAuthProof { rounds, final_proof: self.final_proof.copy() }
    }
}

impl PpbPublicKey {
    /// A copy of the key.
    pub fn copy(&self) -> (r: PpbPublicKey)
        ensures
            same_public_key(r, *self),
    {
        PpbPublicKey {
            x_public: self.x_public.copy(),
            fk: self.fk,
            c_x: self.c_x.copy(),
            c_d: self.c_d.copy(),
            pi_a: self.pi_a.copy(),
        }
    }
}


/// What KeyGen outputs for the list `x`, the opening `r_x` and the mask
/// `s`: `X` encrypts the coefficients `P = s * prod (X - x_i)` over `Z_n`
/// under a fresh `pkAH = |g^sk|` (with randomness in `[1, n/4)`), `Cx`
/// commits to the coefficients with opening `r_x`, `Cd` commits to the
/// message of `d = (sk, fk, x)` with the kept opening `r_d`, `pi_A` is the
/// honest PoKS1 output, and `sk_A` holds a copy of `pk_A`.
pub open spec fn keygen_output(
    params: PpbParams,
    fk: HecFunctionKey,
    x: Seq<nat>,
    r_x: nat,
    s: nat,
    pk: PpbPublicKey,
    sk: PpbSecretKey,
) -> bool {
    let p = params.hecpar.cs_params;
    let coeffs = expand_roots_spec(x, s, p.n@);
    let cs = cts(pk.x_public.encrypted_coeffs@);
    let k = pk.x_public.pk_ah.k@;
    let sk_x = sk.d.sk_e.x@;
    let m_d = d_message(sk_x, fk, x, params.cpar.n@);
    &&& pk.fk == fk && sk.d.fk == fk && nats(sk.d.x@) == x
    &&& 1 <= sk_x < p.n2@ / 4 && k == abs_rep(pow_mod(p.g@, sk_x, p.n2@), p.n2@)
    &&& cs.len() == coeffs.len()
    &&& exists|rhos: Seq<nat>|
        rhos.len() == coeffs.len() && forall|i: int|
            0 <= i < cs.len() ==> 1 <= #[trigger] rhos[i] < p.n@ / 4 && cs[i] == cs_enc_spec(p.n@, p.n2@, p.g@, p.h@, k, coeffs[i], rhos[i])
    &&& pk.x_public.polynomial@ == (cs, p.n2@)
    &&& pk.c_x@ == vector_commit_spec(params.cpar.h@, params.cpar.n2@, s1_bases(params, coeffs.len()), coeffs, r_x)
    &&& pk.c_d@ == df_commit_spec(params.cpar.g@, params.cpar.h@, params.cpar.n2@, m_d, sk.r_d@)
    &&& poks1_prover_output(params, k, cs, m_d, pk.c_x@, pk.c_d@, sk.r_d@, sk_x, coeffs.len(), pk.pi_a)
    &&& same_public_key(sk.pk_a, pk)
}

/// When KeyGen succeeds for a list of `len` identities: `fk.n == len > 0`,
/// the encryption parameters admit key pairs and randomness (`n^2 / 4 > 1`,
/// `n / 4 > 1`), the moduli agree, `n^2 > 0`, the PoKS1 bases for `len +
/// 1` coefficients and for the next power of two (which fits a `usize`)
/// can be derived, and the blinding length can be derived.
pub open spec fn keygen_ok(params: PpbParams, fk: HecFunctionKey, len: nat) -> bool {
    let p = params.hecpar.cs_params;
    &&& fk.n == len && len > 0
    &&& p.n2@ / 4 > 1 && p.n@ / 4 > 1
    &&& moduli_match(params)
    &&& params.cpar.n2@ > 0
    &&& s1_bases_derivable(params, len + 1)
    &&& next_pow2(len + 1) <= usize::MAX
    &&& s1_bases_derivable(params, next_pow2(len + 1))
    &&& b2l_ok(params.cpar.n2@, params.lambda_bits as nat)
}

/// KeyGen(Λ, x, r_x; s): `(X, d) = HECenc(hecpar, fk, x)` with the mask
/// `s`, `Cx` the vector commitment to the coefficients that `X` encrypts,
/// `Cd` a commitment to `d`'s message with fresh opening `r_d` of `B +
/// lambda` bits, `pi_A` the PoKS1 proof; returns `pk_A = (X, fk, Cx, Cd,
/// pi_A)` and `sk_A = (pk_A, d, r_d)`.
///
/// Fails when `fk.n != x.len()` or a step fails (HECenc, commitments,
/// PoKS1).
pub fn keygen_ppb(params: &PpbParams, fk: &HecFunctionKey, x: &[Nat], r_x: &Nat, s: &Nat) -> (r: CryptoResult<(PpbPublicKey, PpbSecretKey)>)
    requires
        params.cpar.n@ > 0,
        x@.len() < usize::MAX,
    ensures
        fk.n != x@.len() ==> r == Err::<(PpbPublicKey, PpbSecretKey), CryptoError>(CryptoError::InvalidInput("fk.n must equal x.len()")),
        r is Ok <==> keygen_ok(*params, *fk, x@.len() as nat),
        r matches Err(e) ==> e is InvalidInput,
        r matches Ok((pk, sk)) ==> keygen_output(*params, *fk, nats(x@), r_x@, s@, pk, sk),
        r matches Ok((pk, sk)) ==> poks1_accepts(*params, pk, pk.c_x@) && moduli_match(*params) && s1_bases_derivable(
            *params,
            next_pow2(pk.x_public.encrypted_coeffs@.len() as nat),
        ),
        r matches Ok((pk, sk)) ==> pk_accepts(*params, pk, pk.c_x@),
{
    if fk.n != x.len() {
        return Err(CryptoError::InvalidInput("fk.n must equal x.len()"));
    }
    let hec_out = match hec_enc_with_mask(&params.hecpar, fk, x, s) {
        Ok(o) => o,
        Err(e) => return Err(e),
    };
    let c_x = match commit_s1_vector(params, hec_out.enc_witness.masked_coeffs.as_slice(), r_x) {
        Ok(c) => c,
        Err(e) => return Err(e),
    };
    let m_d = match map_d_to_df_message(&hec_out.d_audit, &params.cpar.n) {
        Ok(m) => m,
        Err(e) => return Err(e),
    };
    let d_randomness_bits = match derive_df_commit_randomness_bits(params) {
        Ok(v) => v,
        Err(e) => return Err(e),
    };
    let c_d = match commit_df(&params.cpar, &m_d, d_randomness_bits) {
        Ok(c) => c,
        Err(e) => return Err(e),
    };
    let pi_a = match build_poks1_proof(
        params,
        &hec_out.x_public,
        &m_d,
        &c_x,
        &c_d.c,
        r_x,
        &c_d.r,
        &hec_out.d_audit.sk_e.x,
        hec_out.enc_witness.masked_coeffs.as_slice(),
        hec_out.enc_witness.encryption_randomness.as_slice(),
    ) {
        Ok(p) => p,
        Err(e) => {
            proof {
                if keygen_ok(*params, *fk, x@.len() as nat) {
                    let p = params.hecpar.cs_params;
                    let cs = cts(hec_out.x_public.encrypted_coeffs@);
                    let coeffs = nats(hec_out.enc_witness.masked_coeffs@);
                    let rhos = nats(hec_out.enc_witness.encryption_randomness@);
                    assert forall|i: int| 0 <= i < cs.len() implies coeffs[i] < p.n@ && #[trigger] ct_mod(
                        cs_enc_spec(p.n@, p.n2@, p.g@, p.h@, hec_out.x_public.pk_ah.k@, coeffs[i], rhos[i]),
                        params.cpar.n2@,
                    ) == ct_mod(cs[i], params.cpar.n2@) by {
                        assert(coeffs[i] == hec_out.enc_witness.masked_coeffs@[i]@);
                    }
                    assert(poks1_build_ok(
                        *params,
                        hec_out.x_public.pk_ah.k@,
                        cs,
                        m_d@,
                        c_x@,
                        c_d.c@,
                        r_x@,
                        c_d.r@,
                        coeffs,
                        rhos,
                    ));
                }
            }
            return Err(e);
        },
    };
    let ghost rhos = nats(hec_out.enc_witness.encryption_randomness@);
    let pk_a = PpbPublicKey { x_public: hec_out.x_public, fk: *fk, c_x, c_d: c_d.c, pi_a };
    let sk_a = PpbSecretKey { pk_a: pk_a.copy(), d: hec_out.d_audit, r_d: c_d.r };
    proof {
        let p = params.hecpar.cs_params;
        let coeffs = expand_roots_spec(nats(x@), s@, p.n@);
        let cs = cts(pk_a.x_public.encrypted_coeffs@);
        assert(nats(hec_out.enc_witness.masked_coeffs@) == coeffs);
        assert(hec_out.enc_witness.masked_coeffs@.len() == coeffs.len());
        assert(rhos.len() == coeffs.len() && forall|i: int|
            0 <= i < cs.len() ==> 1 <= #[trigger] rhos[i] < p.n@ / 4 && cs[i] == cs_enc_spec(
                p.n@,
                p.n2@,
                p.g@,
                p.h@,
                pk_a.x_public.pk_ah.k@,
                coeffs[i],
                rhos[i],
            ));
        // The statement is canonical, so the proof is accepted.
        let n2 = params.cpar.n2@;
        assert(n2 > 1);
        assert forall|i: int| 0 <= i < cs.len() implies (#[trigger] cs[i]).0 < n2 && cs[i].1 < n2 && rhos[i] < params.cpar.n@ by {
            let kk = pk_a.x_public.pk_ah.k@;
            let rr = rhos[i] % p.n@;
            crate::powmod::lemma_pow_mod_bound(p.g@, rr, n2);
            lemma_abs_rep_bound(pow_mod(p.g@, rr, n2), n2);
            vstd::arithmetic::div_mod::lemma_mod_bound((pow_mod(kk, rr, n2) * pow_mod(p.h@, coeffs[i], n2)) as int, n2 as int);
            lemma_abs_rep_bound((pow_mod(kk, rr, n2) * pow_mod(p.h@, coeffs[i], n2)) % n2, n2);
        }
        assert(poks1_canonical(*params, cs, rhos));
        lemma_vector_commit_bound(params.cpar.h@, n2, s1_bases(*params, coeffs.len()), coeffs, r_x@);
        crate::powmod::lemma_pair_pow_bound(params.cpar.g@, params.cpar.h@, m_d@, c_d.r@, n2);
    }
    Ok((pk_a, sk_a))
}


/// What Escrow outputs for `(pk_A, y, r_y)`: for randomness `r^Z` with
/// `r_id + r_at = r_y mod n`, `r1, r2 < n` and `0 < r3 < n`, `Ẑ` is
/// HECeval of `y` under `r^Z`, `C_y = Com((y_id + y_at) mod n; r_y mod n)`,
/// the Escrow statement holds and `pi_U` is the PoKS2 prover's output.
pub open spec fn escrow_output(params: PpbParams, pk_a: PpbPublicKey, y: HecEvalInput, r_y: nat, out: PpbEscrowOutput) -> bool {
    let n = params.cpar.n@;
    exists|rz: HecEvalRandomness|
        #![trigger hec_eval_spec(params.hecpar.cs_params, pk_a.x_public, y, rz)]
        rz.rid@ + rz.rat@ == r_y % n && rz.r1@ < n && rz.r2@ < n && 0 < rz.r3@ < n && (
        out.z_hat.z_id@,
        out.z_hat.z_at@,
        out.z_hat.z_nf@,
    ) == hec_eval_spec(params.hecpar.cs_params, pk_a.x_public, y, rz) && out.c_y@ == df_commit_spec(
            params.cpar.g@,
            params.cpar.h@,
            params.cpar.n2@,
            (y.y_id@ % n + y.y_at@ % n) % n,
            r_y % n,
        ) && poks2_statement_holds(params, pk_a, y, r_y % n, rz, out.z_hat, out.c_y@) && poks2_user_output(
            params,
            pk_a,
            y,
            rz,
            out.c_y@,
            out.pi_u,
        )
}

/// Escrow(Λ, pk_A, y, r_y): when VerPK accepts `pk_A` (on its own `Cx`),
/// samples `r^Z` with `r_id + r_at = r_y mod n`, computes
/// `Ẑ = HECeval(hecpar, fk, X, y; r^Z)`, `C_y = Com(m_y; r_y mod n)` and
/// the PoKS2 proof `pi_U`; nothing when VerPK rejects.
///
/// Fails when `n <= 1` or PoKS2 fails.
pub fn escrow_ppb(params: &PpbParams, pk_a: &PpbPublicKey, y: &HecEvalInput, r_y: &Nat) -> (r: CryptoResult<
    Option<PpbEscrowOutput>,
>)
    requires
        params.cpar.n@ > 0,
        params.cpar.n2@ >= 3,
    ensures
        r matches Ok(None) <==> !pk_accepts(*params, *pk_a, pk_a.c_x@),
        r matches Err(e) ==> e is InvalidInput || e == CryptoError::ModularInverseUnavailable,
        r matches Ok(Some(out)) ==> escrow_output(*params, *pk_a, *y, r_y@, out),
        r matches Ok(Some(out)) ==> (poks2_complete_conds(*params, *pk_a) ==> poks2_accepts(*params, *pk_a, out.c_y@, out)),
{
    if !verify_pk_inner(params, pk_a, &pk_a.c_x) {
        return Ok(None);
    }
    let n = &params.hecpar.cs_params.n;
    let r_y_mod = big_rem(r_y, n);
    let r_hat_z = match sample_hec_eval_randomness(n, &r_y_mod) {
        Ok(v) => v,
        Err(e) => return Err(e),
    };
    proof {
        vstd::arithmetic::div_mod::lemma_mod_twice(r_y@ as int, n@ as int);
    }
    let z_hat = match hec_eval(&params.hecpar, &pk_a.fk, pk_a.fk.k, &pk_a.x_public, y, &r_hat_z) {
        Ok(z) => z,
        Err(e) => return Err(e),
    };
    let m_y = match map_y_to_df_message(y, &params.cpar.n) {
        Ok(m) => m,
        Err(e) => return Err(e),
    };
    let c_y = match commit_df_with_opening(&params.cpar, &m_y, &r_y_mod) {
        Ok(c) => c.c,
        Err(e) => return Err(e),
    };
    let pi_u = match build_poks2_proof(params, pk_a, y, &r_y_mod, &r_hat_z, &z_hat, &c_y) {
        Ok(p) => p,
        Err(e) => return Err(e),
    };
    let out = PpbEscrowOutput { z_hat, c_y, pi_u };
    proof {
        vstd::arithmetic::div_mod::lemma_mod_twice(r_y@ as int, n@ as int);
        assert(hec_eval_spec(params.hecpar.cs_params, pk_a.x_public, *y, r_hat_z) == (out.z_hat.z_id@, out.z_hat.z_at@, out.z_hat.z_nf@));
    }
    Ok(Some(out))
}

/// When Dec fails: VerEscrow fails under `sk_A`'s key; or it accepts and
/// HECdec fails; or HECdec finds `z` on the list and the PoKS3 prover's
/// checks reject it. With `draws_fail`, also when they pass and a base
/// that the prover's blinders raise has no inverse, which fails only on a
/// negative draw.
pub open spec fn dec_fails(
    params: PpbParams,
    sk_a: PpbSecretKey,
    c_y: nat,
    escrow_out: PpbEscrowOutput,
    draws_fail: bool,
) -> bool {
    let accepted = pk_accepts(params, sk_a.pk_a, sk_a.pk_a.c_x@) && poks2_accepts(params, sk_a.pk_a, c_y, escrow_out);
    let p = params.hecpar.cs_params;
    let sk = sk_a.d.sk_e.x@;
    let z = escrow_out.z_hat;
    let dec_ok = sk_a.d.fk.n == sk_a.d.x@.len() && cs_dec_ok(p, sk, z.z_id@) && cs_dec_ok(p, sk, z.z_at@) && cs_dec_ok(p, sk, z.z_nf@);
    let hit = cs_dec_value(p, sk, z.z_nf@) == 0 && list_hit(nats(sk_a.d.x@), p.n@, cs_dec_value(p, sk, z.z_id@));
    ||| pk_accepts(params, sk_a.pk_a, sk_a.pk_a.c_x@) && poks2_fails(params, sk_a.pk_a, c_y, escrow_out)
    ||| accepted && !dec_ok
    ||| accepted && dec_ok && hit && forall|v: HecEvalInput|
        v.y_id@ == cs_dec_value(p, sk, z.z_id@) && v.y_at@ == cs_dec_value(p, sk, z.z_at@) ==> !#[trigger] poks3_checks_pass(
            params,
            sk_a.pk_a.x_public.pk_ah.k@,
            sk_a.d,
            sk_a.pk_a.c_d@,
            sk_a.r_d@,
            z,
            v,
        ) || (draws_fail && !poks3_bases_units(params, z))
}

/// Dec(Λ, sk_A, C_y, Z): when VerEscrow accepts under `sk_A`'s key,
/// decrypts `Ẑ` with HECdec; when that yields `z = (y_id, y_at)`, returns
/// `z` with the PoKS3 proof `pi_Z`; nothing otherwise.
///
/// Fails when VerEscrow, HECdec or PoKS3 fails.
pub fn dec_ppb(params: &PpbParams, sk_a: &PpbSecretKey, c_y: &Nat, escrow_out: &PpbEscrowOutput) -> (r: CryptoResult<
    Option<PpbDecOutput>,
>)
    requires
        params.cpar.n@ > 0,
    ensures
        dec_fails(*params, *sk_a, c_y@, *escrow_out, false) ==> r is Err,
        r is Err ==> dec_fails(*params, *sk_a, c_y@, *escrow_out, true),
        r matches Err(e) ==> e is InvalidInput || e == CryptoError::ModularInverseUnavailable,
        ({
            let accepted = pk_accepts(*params, sk_a.pk_a, sk_a.pk_a.c_x@) && poks2_accepts(*params, sk_a.pk_a, c_y@, *escrow_out);
            let p = params.hecpar.cs_params;
            let sk = sk_a.d.sk_e.x@;
            let z = escrow_out.z_hat;
            let hit = cs_dec_value(p, sk, z.z_nf@) == 0 && list_hit(nats(sk_a.d.x@), p.n@, cs_dec_value(p, sk, z.z_id@));
            &&& r matches Ok(None) ==> !accepted || (sk_a.d.fk.n == sk_a.d.x@.len() && cs_dec_ok(p, sk, z.z_id@) && cs_dec_ok(p, sk, z.z_at@)
                && cs_dec_ok(p, sk, z.z_nf@) && !hit)
            &&& r matches Ok(Some(o)) ==> accepted && hit && (o.z matches Some(v) && v.y_id@ == cs_dec_value(p, sk, z.z_id@)
                && v.y_at@ == cs_dec_value(p, sk, z.z_at@) && poks3_witness_holds(
                *params,
                sk_a.pk_a.x_public.pk_ah.k@,
                sk_a.d,
                sk_a.pk_a.c_d@,
                sk_a.r_d@,
                z,
                v,
            ) && poks3_prover_output(
                *params,
                sk_a.pk_a.x_public.pk_ah.k@,
                sk_a.pk_a.c_d@,
                z,
                v,
                d_message(sk, sk_a.d.fk, nats(sk_a.d.x@), params.cpar.n@),
                sk_a.r_d@,
                sk,
                b_plus_2lambda(params.cpar.n2@, params.lambda_bits as nat) as nat,
                o.pi_z,
            ))
        }),
        r matches Ok(Some(o)) ==> (poks3_group_ok(*params, escrow_out.z_hat) ==> poks3_accepts(
            *params,
            sk_a.pk_a.x_public.pk_ah.k@,
            sk_a.pk_a.c_d@,
            escrow_out.z_hat,
            o.z->0,
            o.pi_z,
        )),
        r matches Ok(Some(o)) ==> (poks3_group_ok(*params, escrow_out.z_hat) && c_y@ == escrow_out.c_y@ ==> judge_accepts(
            *params,
            sk_a.pk_a,
            sk_a.pk_a.c_x@,
            c_y@,
            *escrow_out,
            o.z,
            o.pi_z,
        )),
{
    let accepted = match verify_escrow(params, &sk_a.pk_a, c_y, escrow_out) {
        Ok(v) => v,
        Err(e) => return Err(e),
    };
    if !accepted {
        return Ok(None);
    }
    proof {
        assert(params.cpar.n2@ > 0);
        assert(params.hecpar.cs_params.n2@ == params.cpar.n2@);
    }
    let z = match hec_dec(&params.hecpar, &sk_a.d, &escrow_out.z_hat) {
        Ok(v) => v,
        Err(e) => return Err(e),
    };
    match z {
        None => Ok(None),
        Some(z_value) => {
            let pi_z = match build_poks3_proof(
                params,
                &sk_a.pk_a.x_public.pk_ah,
                &sk_a.d,
                &sk_a.pk_a.c_d,
                &sk_a.r_d,
                &escrow_out.z_hat,
                &z_value,
            ) {
                Ok(p) => p,
                Err(e) => {
                    proof {
                        assert forall|v: HecEvalInput|
                            v.y_id@ == z_value.y_id@ && v.y_at@ == z_value.y_at@ implies !#[trigger] poks3_checks_pass(
                            *params,
                            sk_a.pk_a.x_public.pk_ah.k@,
                            sk_a.d,
                            sk_a.pk_a.c_d@,
                            sk_a.r_d@,
                            escrow_out.z_hat,
                            v,
                        ) || !poks3_bases_units(*params, escrow_out.z_hat) by {}
                    }
                    return Err(e);
                },
            };
            proof {
                if poks3_group_ok(*params, escrow_out.z_hat) {
                    lemma_poks3_complete(
                        *params,
                        sk_a.pk_a.x_public.pk_ah.k@,
                        sk_a.d,
                        sk_a.pk_a.c_d@,
                        sk_a.r_d@,
                        escrow_out.z_hat,
                        z_value,
                        b_plus_2lambda(params.cpar.n2@, params.lambda_bits as nat) as nat,
                        pi_z,
                    );
                }
            }
            Ok(Some(PpbDecOutput { z: Some(z_value), pi_z }))
        },
    }
}

/// What Judge accepts: `C_y` is the escrow output's, `z` is present, VS3
/// accepts `pi_Z` for `(pkAH, Cd, Ẑ, z)`, VerPK accepts `pk_A` for `Cx`, and
/// VerEscrow accepts.
pub open spec fn judge_accepts(
    params: PpbParams,
    pk_a: PpbPublicKey,
    c_x: nat,
    c_y: nat,
    escrow_out: PpbEscrowOutput,
    z: Option<HecEvalInput>,
    pi_z: PpbDecProof,
) -> bool {
    &&& c_y == escrow_out.c_y@
    &&& z is Some
    &&& poks3_accepts(params, pk_a.x_public.pk_ah.k@, pk_a.c_d@, escrow_out.z_hat, z->0, pi_z)
    &&& pk_accepts(params, pk_a, c_x)
    &&& pk_accepts(params, pk_a, pk_a.c_x@)
    &&& poks2_accepts(params, pk_a, c_y, escrow_out)
}

/// When Judge fails: `C_y` is the escrow output's and `z` is present, and
/// VS3 fails, or VS3 and VerPK (for `Cx`) accept and VerEscrow fails.
pub open spec fn judge_fails(
    params: PpbParams,
    pk_a: PpbPublicKey,
    c_x: nat,
    c_y: nat,
    escrow_out: PpbEscrowOutput,
    z: Option<HecEvalInput>,
    pi_z: PpbDecProof,
) -> bool {
    let k = pk_a.x_public.pk_ah.k@;
    &&& c_y == escrow_out.c_y@
    &&& z is Some
    &&& poks3_fails(params, k, pk_a.c_d@, escrow_out.z_hat, z->0, pi_z) || (poks3_accepts(
        params,
        k,
        pk_a.c_d@,
        escrow_out.z_hat,
        z->0,
        pi_z,
    ) && pk_accepts(params, pk_a, c_x) && pk_accepts(params, pk_a, pk_a.c_x@) && poks2_fails(params, pk_a, c_y, escrow_out))
}

/// The bases `g, h` of `cpar` and `g` of the encryption are units of
/// `Z_{n^2}`, `n^2 > 1`, and every component of `Z` lies in the group.
pub open spec fn poks3_group_ok(params: PpbParams, z_hat: HecEvalOutput) -> bool {
    let n2 = params.hecpar.cs_params.n2@;
    &&& n2 > 1
    &&& spec_gcd(params.cpar.n2@, params.cpar.g@) == 1
    &&& spec_gcd(params.cpar.n2@, params.cpar.h@) == 1
    &&& spec_gcd(n2, params.hecpar.cs_params.g@) == 1
    &&& ct_in_group(z_hat.z_id@, n2)
    &&& ct_in_group(z_hat.z_at@, n2)
    &&& ct_in_group(z_hat.z_nf@, n2)
}

/// Judge(Λ, pk_A, Cx, C_y, Z, z, pi_Z): accepts exactly when `C_y` is the
/// escrow output's, `z` is present, VS3 accepts `pi_Z` for
/// `(pkAH, Cd, Ẑ, z)`, VerPK accepts `pk_A` for `Cx`, and VerEscrow
/// accepts.
///
/// Fails when VS3 or VerEscrow fails.
pub fn judge_ppb(
    params: &PpbParams,
    pk_a: &PpbPublicKey,
    c_x: &Nat,
    c_y: &Nat,
    escrow_out: &PpbEscrowOutput,
    z: &Option<HecEvalInput>,
    pi_z: &PpbDecProof,
) -> (r: CryptoResult<bool>)
    requires
        params.cpar.n@ > 0,
    ensures
        r is Err <==> judge_fails(*params, *pk_a, c_x@, c_y@, *escrow_out, *z, *pi_z),
        r matches Err(e) ==> e is InvalidInput || e == CryptoError::ModularInverseUnavailable,
        c_y@ == escrow_out.c_y@ && z is Some && poks3_fails(
            *params,
            pk_a.x_public.pk_ah.k@,
            pk_a.c_d@,
            escrow_out.z_hat,
            z->0,
            *pi_z,
        ) ==> r == Err::<bool, CryptoError>(poks3_error(*params)),
        r is Err && !poks3_fails(*params, pk_a.x_public.pk_ah.k@, pk_a.c_d@, escrow_out.z_hat, z->0, *pi_z)
            && !poks2_params_ok(*params, escrow_out.pi_u.ah_g@) ==> r == Err::<bool, CryptoError>(poks2_params_error(*params)),
        r is Err && !(c_y@ == escrow_out.c_y@ && z is Some && poks3_fails(
            *params,
            pk_a.x_public.pk_ah.k@,
            pk_a.c_d@,
            escrow_out.z_hat,
            z->0,
            *pi_z,
        )) ==> poks2_error_is(*params, *pk_a, c_y@, *escrow_out, r->Err_0),
        r matches Ok(b) ==> b == judge_accepts(*params, *pk_a, c_x@, c_y@, *escrow_out, *z, *pi_z),
{
    if !big_eq(c_y, &escrow_out.c_y) {
        return Ok(false);
    }
    let z_value = match z {
        Some(v) => v,
        None => return Ok(false),
    };
    let s3_ok = match verify_poks3(params, &pk_a.x_public.pk_ah, &pk_a.c_d, &escrow_out.z_hat, z_value, pi_z) {
        Ok(v) => v,
        Err(e) => return Err(e),
    };
    if !s3_ok {
        return Ok(false);
    }
    if !verify_pk(params, pk_a, c_x) {
        return Ok(false);
    }
    verify_escrow(params, pk_a, c_y, escrow_out)
}

} // verus!
