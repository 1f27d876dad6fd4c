//! Constraints, and what a version type must offer to be constrained.
use vstd::prelude::*;
use std::cmp::Ordering;
use crate::comparator::Comparator;
use crate::order::ordering_of;
use crate::registry::SchemeKind;

verus! {

/// A version representation that ranges can be built over: parsed from
/// text, totally ordered, written back to text, with a zero value and the
/// scheme it belongs to.
pub trait VersionType: Sized + View {
    /// What a version text denotes, where the scheme accepts it.
    spec fn spec_parse(text: Seq<char>) -> Option<Self::V>;

    /// Three-way comparison: -1, 0 or 1.
    spec fn spec_cmp(a: Self::V, b: Self::V) -> int;

    /// The text a version is written as.
    spec fn spec_render(v: Self::V) -> Seq<char>;

    /// The version that stands with `*`.
    spec fn spec_zero() -> Self::V;

    /// The registry entry of this type.
    spec fn spec_kind() -> SchemeKind;

    /// Reads a version; on refusal, says why.
    fn parse_chars(text: &[char]) -> (r: Result<Self, String>)
        ensures
            r is Ok <==> Self::spec_parse(text@) is Some,
            r matches Ok(v) ==> Self::spec_parse(text@) == Some(v@),
    ;

    fn compare(&self, other: &Self) -> (r: Ordering)
        ensures
            r == ordering_of(Self::spec_cmp(self@, other@)),
    ;

    fn render(&self) -> (r: String)
        ensures
            r@ == Self::spec_render(self@),
    ;

    fn zero() -> (r: Self)
        ensures
            r@ == Self::spec_zero(),
    ;

    fn duplicate(&self) -> (r: Self)
        ensures
            r@ == self@,
    ;

    fn kind() -> (r: SchemeKind)
        ensures
            r == Self::spec_kind(),
    ;

    /// A version written back as text reads as the same version, and the
    /// text is plain.
    proof fn lemma_render_parse(text: Seq<char>)
        requires
            Self::spec_parse(text) is Some,
        ensures
            Self::spec_parse(Self::spec_render(Self::spec_parse(text)->0)) == Self::spec_parse(text),
            crate::text::plain_text(Self::spec_render(Self::spec_parse(text)->0)),
    ;

    /// The order is transitive.
    proof fn lemma_cmp_transitive(a: Self::V, b: Self::V, c: Self::V)
        requires
            Self::spec_cmp(a, b) <= 0,
            Self::spec_cmp(b, c) <= 0,
        ensures
            Self::spec_cmp(a, c) <= 0,
    ;

    /// Comparison results are -1, 0 or 1, and swapping the arguments negates them.
    proof fn lemma_cmp_antisymmetric(a: Self::V, b: Self::V)
        ensures
            -1 <= Self::spec_cmp(a, b) <= 1,
            Self::spec_cmp(a, b) == -Self::spec_cmp(b, a),
    ;
}

/// A comparator and the version it compares against.
#[derive(Clone, Debug, PartialEq, Eq)]
pub struct VersionConstraint<V> {
    pub comparator: Comparator,
    pub version: V,
}

impl<V: View> View for VersionConstraint<V> {
    type V = (Comparator, V::V);

    open spec fn view(&self) -> (Comparator, V::V) {
        (self.comparator, self.version@)
    }
}

impl<V: VersionType> VersionConstraint<V> {
    pub fn new(comparator: Comparator, version: V) -> (r: Self)
        ensures
            r.comparator == comparator,
            r.version == version,
    {
        VersionConstraint { comparator, version }
    }

    /// Whether `v` passes this constraint under the scheme's order.
    pub open spec fn admits(c: (Comparator, V::V), v: V::V) -> bool {
        c.0.admits(V::spec_cmp(v, c.1))
    }

    pub fn is_satisfied_by(&self, v: &V) -> (r: bool)
        ensures
            r == Self::admits(self@, v@),
    {
        let o = v.compare(&self.version);
        proof {
            V::lemma_cmp_antisymmetric(v@, self.version@);
        }
        self.comparator.accepts(o)
    }

    pub fn duplicate(&self) -> (r: Self)
        ensures
            r@ == self@,
    {
        VersionConstraint { comparator: self.comparator, version: self.version.duplicate() }
    }
}

} // verus!
