//! Apple Mach-O code signing, verified.
//!
//! The library reads a single-architecture or fat Mach-O binary, builds the
//! embedded signature (Code Directory, requirement and entitlement blobs,
//! an optional CMS signature, all in a SuperBlob), and writes a binary whose
//! bytes match the input everywhere but in the signature and two size
//! fields. Signing settings are addressed by scope and derived when signing
//! descends into a slice, a bundle binary or a nested bundle.
//!
//! Modules, leaves first:
//! - `text`, `endian`: characters, decimal numbers and fixed-width integers.
//! - `error`, `flags`, `digest`: error kinds, flag sets, digests and page
//!   hashing.
//! - `scope`, `settings`: scopes with their string syntax, and scoped
//!   settings.
//! - `blob`, `code_directory`: the signature's container formats.
//! - `macho`, `rewrite`: reading a binary's layout and rewriting it.
//! - `signing`, `signer`: building signatures, and the two-pass signer.
pub mod text;
pub mod endian;
pub mod error;
pub mod flags;
pub mod digest;
pub mod scope;
pub mod settings;
pub mod blob;
pub mod code_directory;
pub mod macho;
pub mod rewrite;
pub mod signing;
pub mod signer;
