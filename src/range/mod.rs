//! Version ranges: the common interface, the range over one version type,
//! and the range whose type is picked by its scheme name.
use vstd::prelude::*;
use crate::constraint::VersionConstraint;
use crate::error::VersError;

pub mod dynamic;
pub mod generic;

verus! {

/// What a range over versions of type `V` offers.
pub trait VersionRange<V> {
    spec fn scheme_view(&self) -> Seq<char>;

    spec fn constraints_view(&self) -> Seq<VersionConstraint<V>>;

    /// Whether `version` belongs to the range.
    spec fn admits_spec(&self, version: V) -> Result<bool, VersError>;

    /// The scheme name.
    fn versioning_scheme(&self) -> (r: &str)
        ensures
            r@ == self.scheme_view(),
    ;

    /// Whether `version` passes every constraint.
    fn contains(&self, version: V) -> (r: Result<bool, VersError>)
        ensures
            r == self.admits_spec(version),
    ;

    /// The normalized constraints, sorted by version.
    fn constraints(&self) -> (r: &Vec<VersionConstraint<V>>)
        ensures
            r@ == self.constraints_view(),
    ;
}

} // verus!
