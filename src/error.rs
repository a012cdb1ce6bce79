//! Errors of the signing engine.
use vstd::prelude::*;

verus! {

/// What can go wrong while inspecting, configuring or signing a binary.
#[derive(Clone, Debug, PartialEq, Eq)]
pub enum AppleCodesignError {
    /// The bytes are not a Mach-O binary this engine can read.
    MalformedMacho,
    /// An embedded signature SuperBlob is truncated or inconsistent.
    MalformedSuperBlob,
    /// A Code Directory blob is truncated or inconsistent.
    MalformedCodeDirectory,
    /// A code requirement blob is truncated or inconsistent.
    MalformedRequirement,
    /// The binary has no code signature load command.
    BinaryNoCodeSignature,
    /// The `__LINKEDIT` segment is not the final segment.
    LinkeditNotLast,
    /// Data follows the signature inside `__LINKEDIT`.
    DataAfterSignature,
    /// No binary identifier was configured or inherited.
    NoIdentifier,
    /// A cryptographic signature was requested without a signing certificate.
    NoSigningCertificate,
    /// A settings scope string could not be parsed; holds the offending text.
    ParseSettingsScope(String),
    /// The final signature does not fit in the space reserved for it.
    SignatureDataTooLarge,
    /// The digest algorithm cannot produce digests.
    DigestUnsupported,
    /// The plist of code directory hashes could not be written.
    CodeDirectoryPlist(String),
    /// A URL could not be parsed; holds the offending text.
    BadUrl(String),
}

} // verus!
