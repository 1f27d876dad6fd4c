//! The version schemes that ranges can be written over.
pub mod deb;
pub mod semver;
