//! Error type shared by the whole library.
use vstd::prelude::*;

verus! {

/// Errors of the primitives and protocols.
#[derive(Debug, Clone, PartialEq, Eq)]
pub enum CryptoError {
    /// An input does not meet what the protocol defines (for example a
    /// message outside its range).
    InvalidInput(&'static str),
    /// A modular inverse does not exist: the value and the modulus are not coprime.
    ModularInverseUnavailable,
    /// No safe prime or safe RSA modulus could be generated.
    PrimeGenerationFailed,
}

/// The error of a verifier whose checks need only inverses modulo `n^2`:
/// a zero modulus, and otherwise a missing inverse.
pub open spec fn verifier_error(n2: nat) -> CryptoError {
    if n2 == 0 {
        CryptoError::InvalidInput("n^2 must be non-zero")
    } else {
        CryptoError::ModularInverseUnavailable
    }
}

/// Result type of the library.
pub type CryptoResult<T> = Result<T, CryptoError>;

} // verus!
