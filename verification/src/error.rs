//! Typed errors of the library.
use vstd::prelude::*;

verus! {

/// Kind of a filesystem failure.
#[derive(Debug, Clone, Copy, PartialEq, Eq, Structural)]
pub enum IoErrorKind {
    /// The path does not exist.
    NotFound,
    /// Any other failure.
    Other,
}

/// Error type of the library.
#[derive(Debug, Clone)]
pub enum K1FixError {
    /// Filesystem failure.
    Io { kind: IoErrorKind, message: String },
    /// Unsupported or unknown input format.
    UnsupportedFormat { path: String },
    /// Mesh parse / decode failure.
    Parse(String),
    /// STEP feature is not available or the file cannot be tessellated.
    Step(String),
    /// Unknown printer profile id.
    UnknownProfile(String),
    /// Mesh cannot be fitted into the build volume.
    DoesNotFit { detail: String },
    /// Invalid mesh for the requested operation.
    InvalidMesh(String),
    /// Serialization failure.
    Serde(String),
    /// TOML profile parse failure.
    Toml(String),
    /// Generic zipper / archive failure.
    Archive(String),
}

/// `e` is a filesystem error of kind `kind` with message `message`.
pub open spec fn is_io_error(e: K1FixError, kind: IoErrorKind, message: Seq<char>) -> bool {
    match e {
        K1FixError::Io { kind: k, message: m } => k == kind && m@ == message,
        _ => false,
    }
}

} // verus!
