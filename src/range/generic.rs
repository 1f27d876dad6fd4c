//! Ranges over one version type: the grammar of a specifier, normalization,
//! containment and the canonical text.
use vstd::prelude::*;
use std::cmp::Ordering;
use crate::comparator::Comparator;
use crate::constraint::{VersionConstraint, VersionType};
use crate::error::VersError;
use crate::grammar::{raw_constraint, read_constraint, trim, trim_chars};
use crate::registry::{check_scheme_name, lookup_scheme, registered, well_formed_scheme};
use crate::text::{chars_equal, chars_of, find_first, first_index, join_on, lemma_first_index_bounds, push_char,
    push_chars, split_at, split_on, string_of, sub_chars, views};

verus! {

/// The kinds of refusal, as the contracts name them.
#[derive(Clone, Copy, Debug, PartialEq, Eq, Structural)]
pub enum Failure {
    InvalidScheme,
    MissingScheme,
    Unsupported,
    Empty,
    Duplicate,
    InvalidVersion,
    Conflicting,
}

pub open spec fn failure_of(e: VersError) -> Failure {
    match e {
        VersError::InvalidScheme => Failure::InvalidScheme,
        VersError::MissingVersioningScheme => Failure::MissingScheme,
        VersError::UnsupportedVersioningScheme(_) => Failure::Unsupported,
        VersError::EmptyConstraints => Failure::Empty,
        VersError::DuplicateVersion(_) => Failure::Duplicate,
        VersError::InvalidVersionFormat(_, _, _) => Failure::InvalidVersion,
        VersError::ConflictingConstraints => Failure::Conflicting,
    }
}

/// A range as its scheme name and its constraints.
pub struct RangeParts<T> {
    pub scheme: Seq<char>,
    pub constraints: Seq<(Comparator, T)>,
}

/// The views of a sequence of constraints.
pub open spec fn entry_views<V: VersionType>(s: Seq<VersionConstraint<V>>) -> Seq<(Comparator, V::V)> {
    s.map_values(|c: VersionConstraint<V>| c@)
}

// ---- Sorting -------------------------------------------------------------

/// Inserts `x` after every entry that does not compare above it.
pub open spec fn insert_sorted<V: VersionType>(s: Seq<(Comparator, V::V)>, x: (Comparator, V::V)) -> Seq<
    (Comparator, V::V),
>
    decreases s.len(),
{
    if s.len() == 0 {
        seq![x]
    } else if V::spec_cmp(s.last().1, x.1) > 0 {
        insert_sorted::<V>(s.drop_last(), x).push(s.last())
    } else {
        s.push(x)
    }
}

/// Stable insertion sort by version.
pub open spec fn sort_entries<V: VersionType>(s: Seq<(Comparator, V::V)>) -> Seq<(Comparator, V::V)>
    decreases s.len(),
{
    if s.len() == 0 {
        s
    } else {
        insert_sorted::<V>(sort_entries::<V>(s.drop_last()), s.last())
    }
}

/// Each entry compares at most equal to the next.
pub open spec fn is_sorted<V: VersionType>(s: Seq<(Comparator, V::V)>) -> bool {
    forall|i: int| 0 <= i < s.len() - 1 ==> V::spec_cmp(#[trigger] s[i].1, s[i + 1].1) <= 0
}

// ---- Normalization -------------------------------------------------------

/// Index of the first lower bound (`>` or `>=`), or the length where there is none.
pub open spec fn first_lower<T>(s: Seq<(Comparator, T)>) -> int
    decreases s.len(),
{
    if s.len() == 0 {
        0
    } else if s[0].0.is_lower_bound() {
        0
    } else {
        1 + first_lower(s.drop_first())
    }
}

/// Index of the last upper bound (`<` or `<=`), or -1 where there is none.
pub open spec fn last_upper<T>(s: Seq<(Comparator, T)>) -> int
    decreases s.len(),
{
    if s.len() == 0 {
        -1
    } else if s.last().0.is_upper_bound() {
        s.len() - 1
    } else {
        last_upper(s.drop_last())
    }
}

pub open spec fn has_lower<T>(s: Seq<(Comparator, T)>) -> bool {
    first_lower(s) < s.len()
}

pub open spec fn has_upper<T>(s: Seq<(Comparator, T)>) -> bool {
    last_upper(s) >= 0
}

/// Whether the `k`-th entry of a sorted list survives normalization: of the
/// lower bounds only the first (the loosest), of the upper bounds only the
/// last (the loosest); an `Equal` only where there is no bound at all; every
/// `NotEqual` and `Any`.
pub open spec fn kept<T>(s: Seq<(Comparator, T)>, k: int) -> bool {
    let c = s[k].0;
    if c.is_lower_bound() {
        k == first_lower(s)
    } else if c.is_upper_bound() {
        k == last_upper(s)
    } else if c == Comparator::Equal {
        !has_lower(s) && !has_upper(s)
    } else {
        true
    }
}

/// The surviving entries among the first `n`, in order.
pub open spec fn kept_prefix<T>(s: Seq<(Comparator, T)>, n: int) -> Seq<(Comparator, T)>
    decreases n,
{
    if n <= 0 {
        Seq::empty()
    } else if kept(s, n - 1) {
        kept_prefix(s, n - 1).push(s[n - 1])
    } else {
        kept_prefix(s, n - 1)
    }
}

/// The loosest lower bound lies above the loosest upper bound, or on it
/// without both being inclusive.
pub open spec fn bounds_cross<V: VersionType>(s: Seq<(Comparator, V::V)>) -> bool {
    has_lower(s) && has_upper(s) && {
        let l = s[first_lower(s)];
        let u = s[last_upper(s)];
        let c = V::spec_cmp(l.1, u.1);
        c > 0 || (c == 0 && !(l.0 == Comparator::GreaterThanOrEqual && u.0
            == Comparator::LessThanOrEqual))
    }
}

/// Some `Equal` entry fails the loosest lower or upper bound.
pub open spec fn equal_outside<V: VersionType>(s: Seq<(Comparator, V::V)>) -> bool {
    exists|k: int|
        0 <= k < s.len() && (#[trigger] s[k]).0 == Comparator::Equal && ((has_lower(s)
            && !VersionConstraint::<V>::admits(s[first_lower(s)], s[k].1)) || (has_upper(s)
            && !VersionConstraint::<V>::admits(s[last_upper(s)], s[k].1)))
}

/// Normalization: sort by version, keep the loosest bound of each
/// direction, drop `Equal` entries that the bounds already cover, and refuse
/// an empty list, crossing bounds, and an `Equal` entry outside the bounds.
pub open spec fn normalize_spec<V: VersionType>(cs: Seq<(Comparator, V::V)>) -> Result<
    Seq<(Comparator, V::V)>,
    Failure,
> {
    if cs.len() == 0 {
        Err(Failure::Empty)
    } else {
        let s = sort_entries::<V>(cs);
        if bounds_cross::<V>(s) || equal_outside::<V>(s) {
            Err(Failure::Conflicting)
        } else {
            Ok(kept_prefix(s, s.len() as int))
        }
    }
}

// ---- Grammar -------------------------------------------------------------

pub open spec fn vers_prefix() -> Seq<char> {
    seq!['v', 'e', 'r', 's', ':']
}

/// The version a written constraint stands for: the zero version for `*`.
pub open spec fn version_of<V: VersionType>(raw: (Comparator, Seq<char>)) -> Option<V::V> {
    if raw.0 == Comparator::Any {
        Some(V::spec_zero())
    } else {
        V::spec_parse(raw.1)
    }
}

/// The written constraints of a constraint list.
pub open spec fn raws_of(body: Seq<char>) -> Seq<(Comparator, Seq<char>)> {
    split_on(body, '|').map_values(|item: Seq<char>| raw_constraint(item))
}

/// Two constraints share a version text.
pub open spec fn has_duplicate(raws: Seq<(Comparator, Seq<char>)>) -> bool {
    exists|i: int, j: int| 0 <= i < j < raws.len() && #[trigger] raws[i].1 == #[trigger] raws[j].1
}

pub open spec fn all_versions_parse<V: VersionType>(raws: Seq<(Comparator, Seq<char>)>) -> bool {
    forall|i: int| 0 <= i < raws.len() ==> (#[trigger] version_of::<V>(raws[i])) is Some
}

pub open spec fn entries_of<V: VersionType>(raws: Seq<(Comparator, Seq<char>)>) -> Seq<
    (Comparator, V::V),
> {
    raws.map_values(|r: (Comparator, Seq<char>)| (r.0, version_of::<V>(r)->0))
}

pub open spec fn scheme_part(t: Seq<char>) -> Seq<char> {
    let after = t.skip(5);
    after.take(first_index(after, '/'))
}

pub open spec fn body_part(t: Seq<char>) -> Seq<char> {
    let after = t.skip(5);
    let slash = first_index(after, '/');
    trim(
        if slash < after.len() {
            after.skip(slash + 1)
        } else {
            Seq::empty()
        },
    )
}

/// What a specifier denotes over the version type `V`, or why it is refused.
pub open spec fn parse_spec<V: VersionType>(s: Seq<char>) -> Result<RangeParts<V::V>, Failure> {
    let t = trim(s);
    if !(t.len() >= 5 && t.take(5) == vers_prefix()) {
        Err(Failure::InvalidScheme)
    } else {
        let scheme = scheme_part(t);
        let body = body_part(t);
        if scheme.len() == 0 {
            Err(Failure::MissingScheme)
        } else if !well_formed_scheme(scheme) {
            Err(Failure::InvalidScheme)
        } else if registered(scheme) != Some(V::spec_kind()) {
            Err(Failure::Unsupported)
        } else if body.len() == 0 {
            Err(Failure::Empty)
        } else if has_duplicate(raws_of(body)) {
            Err(Failure::Duplicate)
        } else if !all_versions_parse::<V>(raws_of(body)) {
            Err(Failure::InvalidVersion)
        } else {
            match normalize_spec::<V>(entries_of::<V>(raws_of(body))) {
                Ok(n) => Ok(RangeParts { scheme, constraints: n }),
                Err(f) => Err(f),
            }
        }
    }
}

/// The prefix and scheme of a specifier are fine and its list is not empty.
pub open spec fn header_ok<V: VersionType>(s: Seq<char>, scheme: Seq<char>, body: Seq<char>) -> bool {
    let t = trim(s);
    &&& t.len() >= 5 && t.take(5) == vers_prefix()
    &&& scheme == scheme_part(t)
    &&& body == body_part(t)
    &&& scheme.len() > 0
    &&& well_formed_scheme(scheme)
    &&& registered(scheme) == Some(V::spec_kind())
    &&& body.len() > 0
}

// ---- Text and containment ------------------------------------------------

/// A constraint's text: its comparator and, but for `*`, its version.
pub open spec fn render_entry<V: VersionType>(e: (Comparator, V::V)) -> Seq<char> {
    if e.0 == Comparator::Any {
        e.0.symbol()
    } else {
        e.0.symbol() + V::spec_render(e.1)
    }
}

/// `vers:<scheme>/<c1>|<c2>|...`.
pub open spec fn render_spec<V: VersionType>(r: RangeParts<V::V>) -> Seq<char> {
    vers_prefix() + r.scheme + seq!['/'] + join_on(
        r.constraints.map_values(|e: (Comparator, V::V)| render_entry::<V>(e)),
        '|',
    )
}

/// `v` passes every constraint.
pub open spec fn admits_all<V: VersionType>(cs: Seq<(Comparator, V::V)>, v: V::V) -> bool {
    forall|i: int| 0 <= i < cs.len() ==> VersionConstraint::<V>::admits(#[trigger] cs[i], v)
}

// ---- Executable ----------------------------------------------------------

/// A range over the versions of type `V`: a scheme name and a sorted,
/// normalized list of constraints, all of which a member version passes.
#[derive(Clone, Debug, PartialEq, Eq)]
pub struct GenericVersionRange<V> {
    scheme: String,
    constraints: Vec<VersionConstraint<V>>,
}

impl<V: VersionType> View for GenericVersionRange<V> {
    type V = RangeParts<V::V>;

    closed spec fn view(&self) -> RangeParts<V::V> {
        RangeParts { scheme: self.scheme@, constraints: entry_views(self.constraints@) }
    }
}

fn is_greater(o: Ordering) -> (r: bool)
    ensures
        r == (o == Ordering::Greater),
{
    match o {
        Ordering::Greater => true,
        _ => false,
    }
}

/// Inserts `x` after every entry of the sorted list `s` that does not
/// compare above it.
fn insert_entry<V: VersionType>(s: &mut Vec<VersionConstraint<V>>, x: VersionConstraint<V>)
    ensures
        entry_views(final(s)@) == insert_sorted::<V>(entry_views(old(s)@), x@),
{
    let ghost e = entry_views(s@);
    let mut j: usize = s.len();
    assert(e.take(j as int) =~= e);
    assert(e.skip(j as int) =~= Seq::<(Comparator, V::V)>::empty());
    while j > 0 && is_greater(s[j - 1].version.compare(&x.version))
        invariant
            s@ == old(s)@,
            e == entry_views(s@),
            j <= s@.len(),
            insert_sorted::<V>(e, x@) == insert_sorted::<V>(e.take(j as int), x@) + e.skip(j as int),
        decreases j,
    {
        proof {
            let t = e.take(j as int);
            assert(t.last() == s@[j - 1]@);
            assert(t.drop_last() =~= e.take(j - 1));
            assert(e.skip(j - 1) =~= seq![s@[j - 1]@] + e.skip(j as int));
            assert(insert_sorted::<V>(t, x@) == insert_sorted::<V>(e.take(j - 1), x@).push(t.last()));
            assert(insert_sorted::<V>(e.take(j - 1), x@).push(t.last()) + e.skip(j as int)
                =~= insert_sorted::<V>(e.take(j - 1), x@) + e.skip(j - 1));
        }
        j = j - 1;
    }
    proof {
        let t = e.take(j as int);
        if j > 0 {
            assert(t.last() == s@[j - 1]@);
            assert(t.drop_last() =~= e.take(j - 1));
        }
        assert(insert_sorted::<V>(t, x@) =~= t.push(x@));
    }
    let ghost xv = x@;
    s.insert(j, x);
    assert(entry_views(s@) =~= e.take(j as int).push(xv) + e.skip(j as int));
}

/// A stable sort of `cs` by version.
fn sort_constraints<V: VersionType>(cs: &Vec<VersionConstraint<V>>) -> (r: Vec<VersionConstraint<V>>)
    ensures
        entry_views(r@) == sort_entries::<V>(entry_views(cs@)),
{
    let mut r: Vec<VersionConstraint<V>> = Vec::new();
    let mut i: usize = 0;
    assert(entry_views(cs@).take(0) =~= Seq::<(Comparator, V::V)>::empty());
    assert(entry_views(r@) =~= Seq::<(Comparator, V::V)>::empty());
    while i < cs.len()
        invariant
            i <= cs@.len(),
            entry_views(r@) == sort_entries::<V>(entry_views(cs@).take(i as int)),
        decreases cs@.len() - i,
    {
        let x = cs[i].duplicate();
        insert_entry(&mut r, x);
        proof {
            let t = entry_views(cs@).take(i + 1);
            assert(t.drop_last() =~= entry_views(cs@).take(i as int));
            assert(t.last() == cs@[i as int]@);
        }
        i = i + 1;
    }
    assert(entry_views(cs@).take(i as int) =~= entry_views(cs@));
    r
}

pub proof fn lemma_first_lower_bounds<T>(s: Seq<(Comparator, T)>)
    ensures
        0 <= first_lower(s) <= s.len(),
        first_lower(s) < s.len() ==> s[first_lower(s)].0.is_lower_bound(),
        forall|k: int| 0 <= k < first_lower(s) ==> !(#[trigger] s[k]).0.is_lower_bound(),
    decreases s.len(),
{
    if s.len() > 0 && !s[0].0.is_lower_bound() {
        lemma_first_lower_bounds(s.drop_first());
        assert forall|k: int| 0 <= k < first_lower(s) implies !(#[trigger] s[k]).0.is_lower_bound() by {
            if k > 0 {
                assert(s[k] == s.drop_first()[k - 1]);
            }
        }
    }
}

pub proof fn lemma_last_upper_bounds<T>(s: Seq<(Comparator, T)>)
    ensures
        -1 <= last_upper(s) < s.len(),
        last_upper(s) >= 0 ==> s[last_upper(s)].0.is_upper_bound(),
        forall|k: int| last_upper(s) < k < s.len() ==> !(#[trigger] s[k]).0.is_upper_bound(),
    decreases s.len(),
{
    if s.len() > 0 && !s.last().0.is_upper_bound() {
        lemma_last_upper_bounds(s.drop_last());
        assert forall|k: int| last_upper(s) < k < s.len() implies !(#[trigger] s[k]).0.is_upper_bound() by {
            if k < s.len() - 1 {
                assert(s[k] == s.drop_last()[k]);
            }
        }
    }
}

fn find_first_lower<V: VersionType>(s: &Vec<VersionConstraint<V>>) -> (r: usize)
    ensures
        r == first_lower(entry_views(s@)),
{
    let ghost e = entry_views(s@);
    let mut i: usize = 0;
    assert(e.skip(0) =~= e);
    while i < s.len() && !s[i].comparator.is_lower()
        invariant
            e == entry_views(s@),
            i <= s@.len(),
            first_lower(e) == i + first_lower(e.skip(i as int)),
        decreases s@.len() - i,
    {
        assert(e.skip(i as int).drop_first() =~= e.skip(i + 1));
        assert(e.skip(i as int)[0] == s@[i as int]@);
        i = i + 1;
    }
    proof {
        if i < s.len() {
            assert(e.skip(i as int)[0] == s@[i as int]@);
        }
    }
    i
}

fn find_last_upper<V: VersionType>(s: &Vec<VersionConstraint<V>>) -> (r: Option<usize>)
    ensures
        r is Some <==> last_upper(entry_views(s@)) >= 0,
        r matches Some(i) ==> i == last_upper(entry_views(s@)),
{
    let ghost e = entry_views(s@);
    let mut i: usize = s.len();
    assert(e.take(i as int) =~= e);
    while i > 0 && !s[i - 1].comparator.is_upper()
        invariant
            e == entry_views(s@),
            i <= s@.len(),
            last_upper(e) == last_upper(e.take(i as int)),
        decreases i,
    {
        assert(e.take(i as int).drop_last() =~= e.take(i - 1));
        assert(e.take(i as int).last() == s@[i - 1]@);
        i = i - 1;
    }
    proof {
        if i > 0 {
            assert(e.take(i as int).last() == s@[i - 1]@);
        }
    }
    if i == 0 {
        None
    } else {
        Some(i - 1)
    }
}

impl<V: VersionType> GenericVersionRange<V> {
    /// A range of the given constraints as they stand, not yet normalized.
    pub fn new(scheme: String, constraints: Vec<VersionConstraint<V>>) -> (r: Self)
        ensures
            r@.scheme == scheme@,
            r@.constraints == entry_views(constraints@),
    {
        GenericVersionRange { scheme, constraints }
    }

    /// Sorts the constraints by version, keeps the loosest lower and the
    /// loosest upper bound, drops `Equal` constraints that the bounds cover,
    /// and refuses an empty list, crossing bounds, or an `Equal` constraint
    /// outside the bounds. On refusal the range is left as it was.
    pub fn normalize_and_validate(&mut self) -> (r: Result<(), VersError>)
        ensures
            match normalize_spec::<V>(old(self)@.constraints) {
                Ok(n) => r is Ok && final(self)@ == (RangeParts::<V::V> {
                    scheme: old(self)@.scheme,
                    constraints: n,
                }),
                Err(f) => r matches Err(e) && failure_of(e) == f && final(self)@ == old(self)@,
            },
    {
        if self.constraints.len() == 0 {
            return Err(VersError::EmptyConstraints);
        }
        let sorted = sort_constraints(&self.constraints);
        let ghost e = entry_views(sorted@);
        let n = sorted.len();
        let fl = find_first_lower(&sorted);
        let lu = find_last_upper(&sorted);
        proof {
            lemma_first_lower_bounds(e);
            lemma_last_upper_bounds(e);
        }
        if fl < n {
            if let Some(u) = lu {
                let o = sorted[fl].version.compare(&sorted[u].version);
                let inclusive = sorted[fl].comparator == Comparator::GreaterThanOrEqual
                    && sorted[u].comparator == Comparator::LessThanOrEqual;
                assert(e[fl as int] == sorted@[fl as int]@ && e[u as int] == sorted@[u as int]@);
                let cross = match o {
                    Ordering::Greater => true,
                    Ordering::Equal => !inclusive,
                    Ordering::Less => false,
                };
                if cross {
                    return Err(VersError::ConflictingConstraints);
                }
            }
        }
        assert(!bounds_cross::<V>(e));
        let mut k: usize = 0;
        while k < n
            invariant
                self@ == old(self)@,
                e == sort_entries::<V>(old(self)@.constraints),
                old(self)@.constraints.len() > 0,
                !bounds_cross::<V>(e),
                n == sorted@.len(),
                e == entry_views(sorted@),
                fl == first_lower(e),
                lu is Some <==> has_upper(e),
                lu matches Some(u) ==> u == last_upper(e),
                0 <= fl <= n,
                lu matches Some(u) ==> u < n,
                k <= n,
                forall|i: int|
                    0 <= i < k ==> !((#[trigger] e[i]).0 == Comparator::Equal && ((has_lower(e)
                        && !VersionConstraint::<V>::admits(e[first_lower(e)], e[i].1)) || (has_upper(
                        e,
                    ) && !VersionConstraint::<V>::admits(e[last_upper(e)], e[i].1)))),
            decreases n - k,
        {
            let c = &sorted[k];
            assert(e[k as int] == c@);
            if c.comparator == Comparator::Equal {
                if fl < n {
                    assert(e[fl as int] == sorted@[fl as int]@);
                    if !sorted[fl].is_satisfied_by(&c.version) {
                        assert(equal_outside::<V>(e)) by {
                            assert(e[k as int].0 == Comparator::Equal);
                        }
                        return Err(VersError::ConflictingConstraints);
                    }
                }
                if let Some(u) = lu {
                    assert(e[u as int] == sorted@[u as int]@);
                    if !sorted[u].is_satisfied_by(&c.version) {
                        assert(equal_outside::<V>(e)) by {
                            assert(e[k as int].0 == Comparator::Equal);
                        }
                        return Err(VersError::ConflictingConstraints);
                    }
                }
            }
            k = k + 1;
        }
        assert(!equal_outside::<V>(e));
        let mut out: Vec<VersionConstraint<V>> = Vec::new();
        let mut k: usize = 0;
        assert(entry_views(out@) =~= kept_prefix(e, 0));
        while k < n
            invariant
                self@ == old(self)@,
                e == sort_entries::<V>(old(self)@.constraints),
                old(self)@.constraints.len() > 0,
                !bounds_cross::<V>(e),
                !equal_outside::<V>(e),
                n == sorted@.len(),
                e == entry_views(sorted@),
                fl == first_lower(e),
                lu is Some <==> has_upper(e),
                lu matches Some(u) ==> u == last_upper(e),
                k <= n,
                entry_views(out@) == kept_prefix(e, k as int),
            decreases n - k,
        {
            let c = &sorted[k];
            assert(e[k as int] == c@);
            proof {
                lemma_first_lower_bounds(e);
                lemma_last_upper_bounds(e);
            }
            let keep = if c.comparator.is_lower() {
                k == fl
            } else if c.comparator.is_upper() {
                match lu {
                    Some(u) => k == u,
                    None => false,
                }
            } else if c.comparator == Comparator::Equal {
                fl == n && lu.is_none()
            } else {
                true
            };
            assert(keep == kept(e, k as int));
            if keep {
                let ghost before = out@;
                out.push(c.duplicate());
                assert(entry_views(out@) =~= entry_views(before).push(c@));
            }
            k = k + 1;
        }
        self.constraints = out;
        Ok(())
    }

    /// Reads a specifier `vers:<scheme>/<constraint>|<constraint>|...` whose
    /// scheme is registered for `V`, and normalizes it. Blanks around the
    /// specifier and around each constraint are ignored; version texts are
    /// percent-decoded. The checks run in this order: the `vers:` prefix,
    /// the scheme, an empty list, a version text written twice, each version
    /// in turn, normalization.
    pub fn parse(s: &str) -> (r: Result<Self, VersError>)
        ensures
            r is Ok <==> parse_spec::<V>(s@) is Ok,
            r matches Ok(v) ==> parse_spec::<V>(s@) == Ok::<RangeParts<V::V>, Failure>(v@),
            r matches Err(e) ==> parse_spec::<V>(s@) == Err::<RangeParts<V::V>, Failure>(
                failure_of(e),
            ),
            r matches Err(VersError::UnsupportedVersioningScheme(n)) ==> n@ == scheme_part(trim(s@)),
            r matches Err(VersError::DuplicateVersion(t)) ==> exists|i: int, j: int|
                0 <= i < j < raws_of(body_part(trim(s@))).len() && raws_of(body_part(trim(s@)))[i].1
                    == t@ && raws_of(body_part(trim(s@)))[j].1 == t@,
            r matches Err(VersError::InvalidVersionFormat(sc, t, _)) ==> sc@ == scheme_part(trim(s@))
                && exists|i: int|
                0 <= i < raws_of(body_part(trim(s@))).len() && raws_of(body_part(trim(s@)))[i].1 == t@
                    && version_of::<V>(raws_of(body_part(trim(s@)))[i]) is None,
    {
        let all = chars_of(s);
        let t = trim_chars(all.as_slice());
        if !(t.len() >= 5 && t[0] == 'v' && t[1] == 'e' && t[2] == 'r' && t[3] == 's' && t[4] == ':') {
            assert(!(t@.len() >= 5 && t@.take(5) == vers_prefix())) by {
                if t@.len() >= 5 && t@.take(5) == vers_prefix() {
                    assert(t@[0] == t@.take(5)[0] && t@[1] == t@.take(5)[1] && t@[2] == t@.take(5)[2]
                        && t@[3] == t@.take(5)[3] && t@[4] == t@.take(5)[4]);
                }
            }
            return Err(VersError::InvalidScheme);
        }
        assert(t@.take(5) =~= vers_prefix());
        let after = sub_chars(t.as_slice(), 5, t.len());
        assert(after@ =~= t@.skip(5));
        let slash = find_first(after.as_slice(), '/');
        proof {
            lemma_first_index_bounds(after@, '/');
        }
        let scheme = sub_chars(after.as_slice(), 0, slash);
        let body0 = if slash < after.len() {
            sub_chars(after.as_slice(), slash + 1, after.len())
        } else {
            Vec::new()
        };
        let body = trim_chars(body0.as_slice());
        assert(scheme@ =~= scheme_part(t@));
        assert(body0@ =~= (if slash < after@.len() {
            after@.skip(slash + 1)
        } else {
            Seq::<char>::empty()
        }));
        assert(body@ == body_part(t@));
        if scheme.len() == 0 {
            return Err(VersError::MissingVersioningScheme);
        }
        if !check_scheme_name(scheme.as_slice()) {
            return Err(VersError::InvalidScheme);
        }
        let supported = match lookup_scheme(scheme.as_slice()) {
            Some(k) => k == V::kind(),
            None => false,
        };
        if !supported {
            return Err(VersError::UnsupportedVersioningScheme(string_of(scheme.as_slice())));
        }
        if body.len() == 0 {
            return Err(VersError::EmptyConstraints);
        }
        let ghost rs = raws_of(body@);
        assert(header_ok::<V>(s@, scheme@, body@));
        let items = split_at(body.as_slice(), '|');
        let mut raws: Vec<(Comparator, Vec<char>)> = Vec::new();
        let mut i: usize = 0;
        while i < items.len()
            invariant
                rs == raws_of(body@),
                views(items@) == split_on(body@, '|'),
                i <= items@.len(),
                raws@.len() == i,
                forall|k: int|
                    0 <= k < i ==> (#[trigger] raws@[k]).0 == rs[k].0 && raws@[k].1@ == rs[k].1,
            decreases items@.len() - i,
        {
            assert(views(items@)[i as int] == items@[i as int]@);
            raws.push(read_constraint(items[i].as_slice()));
            i = i + 1;
        }
        let n = raws.len();
        assert(rs.len() == n);
        let mut j: usize = 1;
        while j < n
            invariant
                header_ok::<V>(s@, scheme@, body@),
                rs == raws_of(body@),
                n == raws@.len(),
                n == rs.len(),
                forall|k: int|
                    0 <= k < n ==> (#[trigger] raws@[k]).0 == rs[k].0 && raws@[k].1@ == rs[k].1,
                1 <= j,
                forall|a: int, b: int| 0 <= a < b < n && b < j ==> rs[a].1 != rs[b].1,
            decreases n - j,
        {
            let mut i: usize = 0;
            while i < j
                invariant
                    header_ok::<V>(s@, scheme@, body@),
                    rs == raws_of(body@),
                    n == raws@.len(),
                    n == rs.len(),
                    forall|k: int|
                        0 <= k < n ==> (#[trigger] raws@[k]).0 == rs[k].0 && raws@[k].1@ == rs[k].1,
                    j < n,
                    i <= j,
                    forall|a: int, b: int| 0 <= a < b < j ==> rs[a].1 != rs[b].1,
                    forall|a: int| 0 <= a < i ==> rs[a].1 != rs[j as int].1,
                decreases j - i,
            {
                assert(raws@[i as int].1@ == rs[i as int].1 && raws@[j as int].1@ == rs[j as int].1);
                if chars_equal(raws[i].1.as_slice(), raws[j].1.as_slice()) {
                    assert(rs[i as int].1 == rs[j as int].1);
                    assert(has_duplicate(rs));
                    return Err(VersError::DuplicateVersion(string_of(raws[j].1.as_slice())));
                }
                i = i + 1;
            }
            j = j + 1;
        }
        assert(!has_duplicate(rs));
        let mut cs: Vec<VersionConstraint<V>> = Vec::new();
        let mut i: usize = 0;
        while i < n
            invariant
                rs == raws_of(body@),
                n == raws@.len(),
                n == rs.len(),
                forall|k: int|
                    0 <= k < n ==> (#[trigger] raws@[k]).0 == rs[k].0 && raws@[k].1@ == rs[k].1,
                header_ok::<V>(s@, scheme@, body@),
                !has_duplicate(rs),
                i <= n,
                cs@.len() == i,
                forall|k: int| 0 <= k < i ==> (#[trigger] version_of::<V>(rs[k])) is Some,
                entry_views(cs@) == entries_of::<V>(rs).take(i as int),
                scheme@ == scheme_part(t@),
                t@ == trim(s@),
                body@ == body_part(t@),
            decreases n - i,
        {
            let raw = &raws[i];
            assert(raw.0 == rs[i as int].0 && raw.1@ == rs[i as int].1);
            let version = if raw.0 == Comparator::Any {
                V::zero()
            } else {
                match V::parse_chars(raw.1.as_slice()) {
                    Ok(v) => v,
                    Err(reason) => {
                        assert(version_of::<V>(rs[i as int]) is None);
                        assert(!all_versions_parse::<V>(rs));
                        return Err(
                            VersError::InvalidVersionFormat(
                                string_of(scheme.as_slice()),
                                string_of(raw.1.as_slice()),
                                reason,
                            ),
                        );
                    },
                }
            };
            let ghost before = cs@;
            cs.push(VersionConstraint::new(raw.0, version));
            assert(entry_views(cs@) =~= entries_of::<V>(rs).take(i + 1)) by {
                assert(entry_views(cs@) =~= entry_views(before).push(cs@[i as int]@));
            }
            i = i + 1;
        }
        assert(entries_of::<V>(rs).take(n as int) =~= entries_of::<V>(rs));
        let mut range = GenericVersionRange { scheme: string_of(scheme.as_slice()), constraints: cs };
        match range.normalize_and_validate() {
            Ok(()) => Ok(range),
            Err(e) => Err(e),
        }
    }

    /// Whether `v` passes every constraint.
    pub fn contains_version(&self, v: &V) -> (r: bool)
        ensures
            r == admits_all::<V>(self@.constraints, v@),
    {
        let ghost e = self@.constraints;
        let mut i: usize = 0;
        while i < self.constraints.len()
            invariant
                e == self@.constraints,
                e == entry_views(self.constraints@),
                i <= self.constraints@.len(),
                forall|k: int| 0 <= k < i ==> VersionConstraint::<V>::admits(#[trigger] e[k], v@),
            decreases self.constraints@.len() - i,
        {
            assert(e[i as int] == self.constraints@[i as int]@);
            if !self.constraints[i].is_satisfied_by(v) {
                return false;
            }
            i = i + 1;
        }
        true
    }

    /// Reads `text` as a version of this range's type, and says whether it
    /// passes every constraint. A text the type refuses is an error.
    pub fn contains_text(&self, text: &str) -> (r: Result<bool, VersError>)
        ensures
            match V::spec_parse(text@) {
                Some(v) => r == Ok::<bool, VersError>(admits_all::<V>(self@.constraints, v)),
                None => r matches Err(VersError::InvalidVersionFormat(sc, t, _)) && sc@ == self@.scheme
                    && t@ == text@,
            },
    {
        let cs = chars_of(text);
        match V::parse_chars(cs.as_slice()) {
            Ok(v) => Ok(self.contains_version(&v)),
            Err(reason) => {
                let sc = string_of(chars_of(self.scheme.as_str()).as_slice());
                Err(VersError::InvalidVersionFormat(sc, string_of(cs.as_slice()), reason))
            },
        }
    }

    /// The canonical text: `vers:<scheme>/` and the constraints joined by `|`.
    pub fn to_string(&self) -> (r: String)
        ensures
            r@ == render_spec::<V>(self@),
    {
        let mut r = String::new();
        push_chars(&mut r, chars_of("vers:").as_slice());
        proof {
            reveal_strlit("vers:");
        }
        assert(r@ =~= vers_prefix());
        push_chars(&mut r, chars_of(self.scheme.as_str()).as_slice());
        push_char(&mut r, '/');
        let ghost head = r@;
        let ghost items = self@.constraints.map_values(|e: (Comparator, V::V)| render_entry::<V>(e));
        let n = self.constraints.len();
        let mut i: usize = 0;
        assert(items.take(0) =~= Seq::<Seq<char>>::empty());
        while i < n
            invariant
                n == self.constraints@.len(),
                items == self@.constraints.map_values(|e: (Comparator, V::V)| render_entry::<V>(e)),
                self@.constraints == entry_views(self.constraints@),
                i <= n,
                r@ == head + join_on(items.take(i as int), '|'),
            decreases n - i,
        {
            let ghost before = r@;
            let c = &self.constraints[i];
            if i > 0 {
                push_char(&mut r, '|');
            }
            let ghost mid = r@;
            c.comparator.push_symbol(&mut r);
            if c.comparator != Comparator::Any {
                push_chars(&mut r, chars_of(c.version.render().as_str()).as_slice());
            }
            proof {
                assert(items[i as int] == render_entry::<V>(c@));
                assert(r@ =~= mid + items[i as int]);
                let t = items.take(i + 1);
                assert(t.drop_last() =~= items.take(i as int));
                assert(t.last() == items[i as int]);
                if i == 0 {
                    assert(t =~= seq![items[0]]);
                    assert(join_on(items.take(0), '|') =~= Seq::<char>::empty());
                    assert(r@ =~= head + join_on(t, '|'));
                } else {
                    assert(r@ =~= head + join_on(t, '|'));
                }
            }
            i = i + 1;
        }
        assert(items.take(n as int) =~= items);
        r
    }
}

impl<V: VersionType> crate::range::VersionRange<V> for GenericVersionRange<V> {
    open spec fn scheme_view(&self) -> Seq<char> {
        self@.scheme
    }

    open spec fn constraints_view(&self) -> Seq<VersionConstraint<V>> {
        self.constraints_field()
    }

    open spec fn admits_spec(&self, version: V) -> Result<bool, VersError> {
        Ok(admits_all::<V>(self@.constraints, version@))
    }

    fn versioning_scheme(&self) -> (r: &str) {
        self.scheme.as_str()
    }

    fn contains(&self, version: V) -> (r: Result<bool, VersError>) {
        Ok(self.contains_version(&version))
    }

    fn constraints(&self) -> (r: &Vec<VersionConstraint<V>>) {
        &self.constraints
    }
}

impl<V: VersionType> GenericVersionRange<V> {
    /// The stored constraints.
    pub closed spec fn constraints_field(&self) -> Seq<VersionConstraint<V>> {
        self.constraints@
    }

    pub proof fn lemma_constraints_field(&self)
        ensures
            entry_views(self.constraints_field()) == self@.constraints,
    {
    }
}

impl<V: VersionType> std::str::FromStr for GenericVersionRange<V> {
    type Err = VersError;

    fn from_str(s: &str) -> Result<GenericVersionRange<V>, VersError> {
        GenericVersionRange::parse(s)
    }
}

} // verus!
