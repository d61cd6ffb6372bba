//! Privacy-preserving blueprints over Camenisch-Shoup encryption,
//! Damgård-Fujisaki commitments and Fiat-Shamir proofs.
pub mod bignum;
pub mod error;
pub mod math;
pub mod hash;
pub mod cs;
pub mod df;
pub mod hec;
pub mod qr;
pub mod cs_commit;
pub mod powmod;
pub mod log2;
pub mod pok;
pub mod pedersen_commitment;
pub mod ppb;
pub mod prime;

pub use bignum::{Int, Nat};
pub use cs::{dec_cs, enc_cs, keygen_cs, setup_cs, CsCiphertext, CsParams, CsPubKey, CsSecretKey};
pub use cs_commit::{
    commit_cs, prove_cs_add, prove_cs_com, prove_cs_com_ciphertext, prove_cs_enc, prove_cs_mult, setup_cs_commit,
    verify_cs_add, verify_cs_com, verify_cs_com_ciphertext, verify_cs_enc, verify_cs_mult, CsAddProof, CsComCtProof,
    CsComProof, CsCommitOpening, CsCommitParams, CsCommitment, CsCommitmentWithOpening, CsEncProof, CsMultProof,
};
pub use df::{commit_df, commit_df_multibase, commit_df_with_opening, setup_df, DfCommitment, DfParams};
pub use error::{CryptoError, CryptoResult};
pub use hash::{fiat_shamir_challenge, fiat_shamir_challenge_biguints};
pub use hec::{
    expand_roots_to_coefficients_mod_n, hec_dec, hec_enc, hec_enc_with_mask, hec_eval, setup_hec, HecAuditData,
    HecEncOutput, HecEncWitness, HecEvalInput, HecEvalOutput, HecEvalRandomness, HecFunctionKey, HecParams,
    HecPublicPackage,
};
pub use pok::{
    pokp, prove_df_open_public_scalar, prove_mult, verify_df_open_public_scalar, verify_mult, CamenischShoupCiphertext,
    CiphertextPolynomial, DfOpenProof, PoKAuxEntry, PoKPProof, PoKStarProof, PoKTranscript, ProveMultProof, Scalar,
};
pub use ppb::{
    dec_ppb, escrow_ppb, judge_ppb, keygen_ppb, setup_ppb, verify_pk, verify_poks3, PpbAuthProof, PpbDecOutput,
    PpbDecProof, PpbEncMulAddProof, PpbEscrowOutput, PpbParams, PpbPublicKey, PpbS1FinalProof, PpbS1FoldRound,
    PpbSecretKey, PpbUserProof, PpbYConsistencyProof,
};
pub use pedersen_commitment::{
    com_pedersen, commit_pedersen, commit_pedersen_with_opening, setup_pedersen, G1Point, PedersenCommitment,
    PedersenCommitmentParams,
};
pub use qr::{commit_qr, commit_qr_with_opening, setup_qr, QrCommitment, QrOpening, QrParams};
