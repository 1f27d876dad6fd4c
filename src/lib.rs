//! Version range specifiers, `vers:<scheme>/<constraint>|<constraint>|...`:
//! parsing, normalization and membership, over semantic versions and Debian
//! package versions.
use vstd::prelude::*;

pub mod comparator;
pub mod constraint;
pub mod digits;
pub mod error;
pub mod grammar;
pub mod laws;
pub mod order;
pub mod range;
pub mod registry;
pub mod schemes;
pub mod text;

pub use comparator::Comparator;
pub use constraint::{VersionConstraint, VersionType};
pub use error::VersError;
pub use range::dynamic::DynamicVersionRange;
pub use range::generic::GenericVersionRange;
pub use range::VersionRange;

use range::dynamic::{dynamic_parse_spec, DynamicParts};
use range::generic::{failure_of, Failure};

verus! {

/// Parses a specifier over the version type its scheme names.
pub fn parse(s: &str) -> (r: Result<DynamicVersionRange, VersError>)
    ensures
        r is Ok <==> dynamic_parse_spec(s@) is Ok,
        r matches Ok(d) ==> dynamic_parse_spec(s@) == Ok::<DynamicParts, Failure>(d@),
        r matches Err(e) ==> dynamic_parse_spec(s@) == Err::<DynamicParts, Failure>(failure_of(e)),
{
    DynamicVersionRange::parse(s)
}

/// Whether the version written as `version_str` belongs to `range`.
pub fn contains(range: &DynamicVersionRange, version_str: String) -> (r: Result<bool, VersError>)
    ensures
        match range.contains_spec(version_str@) {
            Some(b) => r == Ok::<bool, VersError>(b),
            None => r matches Err(VersError::InvalidVersionFormat(..)),
        },
{
    range.contains(version_str)
}

} // verus!
