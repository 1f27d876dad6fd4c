//! The fixed table from scheme names to version types.
use vstd::prelude::*;
use crate::text::chars_equal;

verus! {

/// The version types that ranges can be built over.
#[derive(Clone, Copy, Debug, PartialEq, Eq, Structural)]
pub enum SchemeKind {
    /// Dotted numeric versions with pre-release and build parts.
    SemVer,
    /// Debian package versions.
    Deb,
}

/// The version type registered for a scheme name, if any. Names are case-sensitive.
pub open spec fn registered(name: Seq<char>) -> Option<SchemeKind> {
    if name == seq!['n', 'p', 'm'] || name == seq!['s', 'e', 'm', 'v', 'e', 'r'] {
        Some(SchemeKind::SemVer)
    } else if name == seq!['d', 'e', 'b'] {
        Some(SchemeKind::Deb)
    } else {
        None
    }
}

/// A scheme name is well-formed: non-empty, of letters, digits and hyphens.
pub open spec fn well_formed_scheme(name: Seq<char>) -> bool {
    name.len() > 0 && forall|i: int|
        0 <= i < name.len() ==> crate::text::is_alnum(#[trigger] name[i]) || name[i] == '-'
}

/// Looks a scheme name up in the table.
pub fn lookup_scheme(name: &[char]) -> (r: Option<SchemeKind>)
    ensures
        r == registered(name@),
{
    let mut npm: Vec<char> = Vec::new();
    npm.push('n');
    npm.push('p');
    npm.push('m');
    let mut semver: Vec<char> = Vec::new();
    semver.push('s');
    semver.push('e');
    semver.push('m');
    semver.push('v');
    semver.push('e');
    semver.push('r');
    let mut deb: Vec<char> = Vec::new();
    deb.push('d');
    deb.push('e');
    deb.push('b');
    assert(npm@ =~= seq!['n', 'p', 'm']);
    assert(semver@ =~= seq!['s', 'e', 'm', 'v', 'e', 'r']);
    assert(deb@ =~= seq!['d', 'e', 'b']);
    if chars_equal(name, npm.as_slice()) || chars_equal(name, semver.as_slice()) {
        Some(SchemeKind::SemVer)
    } else if chars_equal(name, deb.as_slice()) {
        Some(SchemeKind::Deb)
    } else {
        None
    }
}

/// Whether `name` is a well-formed scheme name.
pub fn check_scheme_name(name: &[char]) -> (r: bool)
    ensures
        r == well_formed_scheme(name@),
{
    if name.len() == 0 {
        return false;
    }
    let mut i: usize = 0;
    while i < name.len()
        invariant
            i <= name@.len(),
            forall|k: int| 0 <= k < i ==> crate::text::is_alnum(#[trigger] name@[k]) || name@[k] == '-',
        decreases name@.len() - i,
    {
        if !(crate::text::char_is_alnum(name[i]) || name[i] == '-') {
            return false;
        }
        i = i + 1;
    }
    true
}

} // verus!
