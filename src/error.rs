//! The ways parsing a range or a version can fail.
use vstd::prelude::*;

verus! {

/// Why a specifier, or a version within one, was refused.
#[derive(Clone, Debug, PartialEq, Eq)]
pub enum VersError {
    /// The text does not start with `vers:`, or its scheme is malformed.
    InvalidScheme,
    /// The scheme between `vers:` and `/` is empty.
    MissingVersioningScheme,
    /// A well-formed scheme that no version type is registered for.
    UnsupportedVersioningScheme(String),
    /// Nothing follows the `/`.
    EmptyConstraints,
    /// Two constraints name the same version text.
    DuplicateVersion(String),
    /// A version text the scheme does not accept: scheme, text, reason.
    InvalidVersionFormat(String, String, String),
    /// The constraints left after normalization admit no version.
    ConflictingConstraints,
}

} // verus!
