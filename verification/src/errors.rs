//! Error types for the PABS-CRF scheme.
//!
//! All fallible operations return [`PabsCrfResult`], so failures propagate
//! explicitly instead of falling back to defaults.
use vstd::prelude::*;

verus! {

/// Main error type for the PABS-CRF scheme.
#[derive(Debug, Clone)]
pub enum PabsCrfError {
    /// Invalid parameters
    InvalidParameters(String),
    /// Key generation failed
    KeyGenFailed(String),
    /// Signing failed
    SignFailed(String),
    /// Verification failed
    VerificationFailed(String),
    /// Puncture operation failed
    PunctureFailed(String),
    /// Serialization error
    SerializationError(String),
    /// Deserialization error
    DeserializationError(String),
    /// Policy parsing error
    PolicyError(String),
    /// Memory allocation error
    OutOfMemory(String),
    /// Security violation
    SecurityViolation(String),
    /// Trapdoor sampling error
    TrapdoorError(String),
    /// Polynomial operation error
    PolynomialError(String),
    /// Invalid input (missing fields, wrong length, etc.)
    InvalidInput(String),
    /// Compression error
    CompressionError(String),
}

/// Result type alias for PABS-CRF operations.
pub type PabsCrfResult<T> = Result<T, PabsCrfError>;

/// The kind prefix of an error's description.
pub open spec fn error_prefix(e: PabsCrfError) -> Seq<char> {
    match e {
        PabsCrfError::InvalidParameters(_) => "Invalid parameters: "@,
        PabsCrfError::KeyGenFailed(_) => "Key generation failed: "@,
        PabsCrfError::SignFailed(_) => "Signing failed: "@,
        PabsCrfError::VerificationFailed(_) => "Verification failed: "@,
        PabsCrfError::PunctureFailed(_) => "Puncture operation failed: "@,
        PabsCrfError::SerializationError(_) => "Serialization error: "@,
        PabsCrfError::DeserializationError(_) => "Deserialization error: "@,
        PabsCrfError::PolicyError(_) => "Policy error: "@,
        PabsCrfError::OutOfMemory(_) => "Out of memory: "@,
        PabsCrfError::SecurityViolation(_) => "Security violation: "@,
        PabsCrfError::TrapdoorError(_) => "Trapdoor sampling error: "@,
        PabsCrfError::PolynomialError(_) => "Polynomial operation error: "@,
        PabsCrfError::InvalidInput(_) => "Invalid input: "@,
        PabsCrfError::CompressionError(_) => "Compression error: "@,
    }
}

/// The detail text an error carries.
pub open spec fn error_detail(e: PabsCrfError) -> Seq<char> {
    match e {
        PabsCrfError::InvalidParameters(m) => m@,
        PabsCrfError::KeyGenFailed(m) => m@,
        PabsCrfError::SignFailed(m) => m@,
        PabsCrfError::VerificationFailed(m) => m@,
        PabsCrfError::PunctureFailed(m) => m@,
        PabsCrfError::SerializationError(m) => m@,
        PabsCrfError::DeserializationError(m) => m@,
        PabsCrfError::PolicyError(m) => m@,
        PabsCrfError::OutOfMemory(m) => m@,
        PabsCrfError::SecurityViolation(m) => m@,
        PabsCrfError::TrapdoorError(m) => m@,
        PabsCrfError::PolynomialError(m) => m@,
        PabsCrfError::InvalidInput(m) => m@,
        PabsCrfError::CompressionError(m) => m@,
    }
}

impl PabsCrfError {
    /// Human-readable description, in the form `"<kind>: <detail>"`.
    pub fn message(&self) -> (s: String)
        ensures
            s@ == error_prefix(*self) + error_detail(*self),
    {
        let (prefix, msg) = match self {
            PabsCrfError::InvalidParameters(m) => ("Invalid parameters: ", m),
            PabsCrfError::KeyGenFailed(m) => ("Key generation failed: ", m),
            PabsCrfError::SignFailed(m) => ("Signing failed: ", m),
            PabsCrfError::VerificationFailed(m) => ("Verification failed: ", m),
            PabsCrfError::PunctureFailed(m) => ("Puncture operation failed: ", m),
            PabsCrfError::SerializationError(m) => ("Serialization error: ", m),
            PabsCrfError::DeserializationError(m) => ("Deserialization error: ", m),
            PabsCrfError::PolicyError(m) => ("Policy error: ", m),
            PabsCrfError::OutOfMemory(m) => ("Out of memory: ", m),
            PabsCrfError::SecurityViolation(m) => ("Security violation: ", m),
            PabsCrfError::TrapdoorError(m) => ("Trapdoor sampling error: ", m),
            PabsCrfError::PolynomialError(m) => ("Polynomial operation error: ", m),
            PabsCrfError::InvalidInput(m) => ("Invalid input: ", m),
            PabsCrfError::CompressionError(m) => ("Compression error: ", m),
        };
        let s = String::from_str(prefix);
        s.concat(msg.as_str())
    }
}

} // verus!
