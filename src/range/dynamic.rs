//! A range whose version type is chosen at parse time from its scheme name.
use vstd::prelude::*;
use crate::comparator::Comparator;
use crate::constraint::{VersionConstraint, VersionType};
use crate::error::VersError;
use crate::grammar::{trim, trim_chars};
use crate::range::generic::{
    admits_all, failure_of, parse_spec, render_spec, scheme_part, vers_prefix, Failure,
    GenericVersionRange, RangeParts,
};
use crate::registry::{lookup_scheme, registered, SchemeKind};
use crate::schemes::deb::{DebParts, DebVersion};
use crate::schemes::semver::{SemVer, SemVerParts};
use crate::text::{chars_of, find_first, lemma_first_index_bounds, sub_chars};

verus! {

/// A range over one of the registered version types.
#[derive(Clone, Debug, PartialEq, Eq)]
pub enum DynamicVersionRange {
    SemVer(GenericVersionRange<SemVer>),
    Deb(GenericVersionRange<DebVersion>),
}

/// A dynamic range as the range it wraps.
pub enum DynamicParts {
    SemVer(RangeParts<SemVerParts>),
    Deb(RangeParts<DebParts>),
}

impl View for DynamicVersionRange {
    type V = DynamicParts;

    open spec fn view(&self) -> DynamicParts {
        match self {
            DynamicVersionRange::SemVer(r) => DynamicParts::SemVer(r@),
            DynamicVersionRange::Deb(r) => DynamicParts::Deb(r@),
        }
    }
}

/// The registry entry a specifier's scheme names, where it has the `vers:`
/// prefix and names a registered scheme.
pub open spec fn dispatch(s: Seq<char>) -> Option<SchemeKind> {
    let t = trim(s);
    if t.len() >= 5 && t.take(5) == vers_prefix() {
        registered(scheme_part(t))
    } else {
        None
    }
}

/// What a specifier denotes, over the version type its scheme names, or why
/// it is refused. Where no registered scheme is named, the refusal is the
/// one any version type gives.
pub open spec fn dynamic_parse_spec(s: Seq<char>) -> Result<DynamicParts, Failure> {
    if dispatch(s) == Some(SchemeKind::Deb) {
        match parse_spec::<DebVersion>(s) {
            Ok(p) => Ok(DynamicParts::Deb(p)),
            Err(f) => Err(f),
        }
    } else {
        match parse_spec::<SemVer>(s) {
            Ok(p) => Ok(DynamicParts::SemVer(p)),
            Err(f) => Err(f),
        }
    }
}

/// A constraint as its comparator and its version's text.
pub open spec fn rendered_entries<V: VersionType>(cs: Seq<(Comparator, V::V)>) -> Seq<
    (Comparator, Seq<char>),
> {
    cs.map_values(|e: (Comparator, V::V)| (e.0, V::spec_render(e.1)))
}

pub open spec fn text_views(cs: Seq<VersionConstraint<String>>) -> Seq<(Comparator, Seq<char>)> {
    cs.map_values(|c: VersionConstraint<String>| (c.comparator, c.version@))
}

/// The scheme-name lookup of a specifier, without parsing its constraints.
fn dispatch_exec(s: &str) -> (r: Option<SchemeKind>)
    ensures
        r == dispatch(s@),
{
    let t = trim_chars(chars_of(s).as_slice());
    if !(t.len() >= 5 && t[0] == 'v' && t[1] == 'e' && t[2] == 'r' && t[3] == 's' && t[4] == ':') {
        assert(!(t@.len() >= 5 && t@.take(5) == vers_prefix())) by {
            if t@.len() >= 5 && t@.take(5) == vers_prefix() {
                assert(t@[0] == t@.take(5)[0] && t@[1] == t@.take(5)[1] && t@[2] == t@.take(5)[2]
                    && t@[3] == t@.take(5)[3] && t@[4] == t@.take(5)[4]);
            }
        }
        return None;
    }
    assert(t@.take(5) =~= vers_prefix());
    let after = sub_chars(t.as_slice(), 5, t.len());
    assert(after@ =~= t@.skip(5));
    let slash = find_first(after.as_slice(), '/');
    proof {
        lemma_first_index_bounds(after@, '/');
    }
    let scheme = sub_chars(after.as_slice(), 0, slash);
    assert(scheme@ =~= scheme_part(t@));
    lookup_scheme(scheme.as_slice())
}

impl DynamicVersionRange {
    /// Reads a specifier over the version type its scheme is registered
    /// for. A well-formed scheme that is not registered is refused as
    /// unsupported, with its name.
    pub fn parse(s: &str) -> (r: Result<DynamicVersionRange, VersError>)
        ensures
            r is Ok <==> dynamic_parse_spec(s@) is Ok,
            r matches Ok(d) ==> dynamic_parse_spec(s@) == Ok::<DynamicParts, Failure>(d@),
            r matches Err(e) ==> dynamic_parse_spec(s@) == Err::<DynamicParts, Failure>(failure_of(e)),
            r matches Err(VersError::UnsupportedVersioningScheme(n)) ==> n@ == scheme_part(trim(s@)),
    {
        match dispatch_exec(s) {
            Some(SchemeKind::Deb) => match GenericVersionRange::<DebVersion>::parse(s) {
                Ok(r) => Ok(DynamicVersionRange::Deb(r)),
                Err(e) => Err(e),
            },
            _ => match GenericVersionRange::<SemVer>::parse(s) {
                Ok(r) => Ok(DynamicVersionRange::SemVer(r)),
                Err(e) => Err(e),
            },
        }
    }

    pub open spec fn scheme_view(&self) -> Seq<char> {
        match self@ {
            DynamicParts::SemVer(p) => p.scheme,
            DynamicParts::Deb(p) => p.scheme,
        }
    }

    /// The constraints as comparators and version texts.
    pub open spec fn entries_view(&self) -> Seq<(Comparator, Seq<char>)> {
        match self@ {
            DynamicParts::SemVer(p) => rendered_entries::<SemVer>(p.constraints),
            DynamicParts::Deb(p) => rendered_entries::<DebVersion>(p.constraints),
        }
    }

    /// What `contains` answers for a version text.
    pub open spec fn contains_spec(&self, text: Seq<char>) -> Option<bool> {
        match self@ {
            DynamicParts::SemVer(p) => match SemVer::spec_parse(text) {
                Some(v) => Some(admits_all::<SemVer>(p.constraints, v)),
                None => None,
            },
            DynamicParts::Deb(p) => match DebVersion::spec_parse(text) {
                Some(v) => Some(admits_all::<DebVersion>(p.constraints, v)),
                None => None,
            },
        }
    }

    /// The scheme name.
    pub fn versioning_scheme(&self) -> (r: &str)
        ensures
            r@ == self.scheme_view(),
    {
        match self {
            DynamicVersionRange::SemVer(r) => crate::range::VersionRange::versioning_scheme(r),
            DynamicVersionRange::Deb(r) => crate::range::VersionRange::versioning_scheme(r),
        }
    }

    /// Reads `version` with the range's version type and says whether it
    /// passes every constraint; a text the type refuses is an error.
    pub fn contains(&self, version: String) -> (r: Result<bool, VersError>)
        ensures
            match self.contains_spec(version@) {
                Some(b) => r == Ok::<bool, VersError>(b),
                None => r matches Err(VersError::InvalidVersionFormat(sc, t, _)) && sc@
                    == self.scheme_view() && t@ == version@,
            },
    {
        match self {
            DynamicVersionRange::SemVer(r) => r.contains_text(version.as_str()),
            DynamicVersionRange::Deb(r) => r.contains_text(version.as_str()),
        }
    }

    /// The constraints, each with its version written as text.
    pub fn constraints(&self) -> (r: Vec<VersionConstraint<String>>)
        ensures
            text_views(r@) == self.entries_view(),
    {
        match self {
            DynamicVersionRange::SemVer(r) => texts_of(r),
            DynamicVersionRange::Deb(r) => texts_of(r),
        }
    }

    /// The canonical text.
    pub fn to_string(&self) -> (r: String)
        ensures
            r@ == match self@ {
                DynamicParts::SemVer(p) => render_spec::<SemVer>(p),
                DynamicParts::Deb(p) => render_spec::<DebVersion>(p),
            },
    {
        match self {
            DynamicVersionRange::SemVer(r) => r.to_string(),
            DynamicVersionRange::Deb(r) => r.to_string(),
        }
    }
}

fn texts_of<V: VersionType>(range: &GenericVersionRange<V>) -> (r: Vec<VersionConstraint<String>>)
    ensures
        text_views(r@) == rendered_entries::<V>(range@.constraints),
{
    let cs = crate::range::VersionRange::constraints(range);
    proof {
        range.lemma_constraints_field();
    }
    let mut r: Vec<VersionConstraint<String>> = Vec::new();
    let mut i: usize = 0;
    while i < cs.len()
        invariant
            cs@ == range.constraints_field(),
            crate::range::generic::entry_views(cs@) == range@.constraints,
            i <= cs@.len(),
            text_views(r@) == rendered_entries::<V>(range@.constraints).take(i as int),
        decreases cs@.len() - i,
    {
        let c = &cs[i];
        let text = c.version.render();
        let ghost before = r@;
        r.push(VersionConstraint { comparator: c.comparator, version: text });
        assert(range@.constraints[i as int] == c@);
        assert(text_views(r@) =~= rendered_entries::<V>(range@.constraints).take(i + 1)) by {
            assert(text_views(r@) =~= text_views(before).push((c.comparator, text@)));
        }
        i = i + 1;
    }
    assert(rendered_entries::<V>(range@.constraints).take(i as int) =~= rendered_entries::<V>(
        range@.constraints,
    ));
    r
}

impl std::str::FromStr for DynamicVersionRange {
    type Err = VersError;

    fn from_str(s: &str) -> Result<DynamicVersionRange, VersError> {
        DynamicVersionRange::parse(s)
    }
}

} // verus!
