//! Properties that relate several operations of the library.
use vstd::prelude::*;
use crate::constraint::VersionType;
use crate::grammar::trim;
use crate::range::dynamic::{dispatch, dynamic_parse_spec, DynamicParts};
use crate::range::generic::{
    body_part, bounds_cross, equal_outside, first_lower, has_lower, has_upper, insert_sorted,
    is_sorted, kept, kept_prefix, last_upper, normalize_spec, parse_spec, raws_of, scheme_part,
    sort_entries, vers_prefix, Failure, lemma_first_lower_bounds, lemma_last_upper_bounds,
};
use crate::comparator::Comparator;
use crate::registry::{registered, well_formed_scheme, SchemeKind};
use crate::schemes::deb::DebVersion;
use crate::schemes::semver::SemVer;
use crate::text::{
    is_alnum, is_digit, join_on, lemma_first_index_is, lemma_join_chars, lemma_split_join,
    plain_char, plain_text, split_on,
};
use crate::grammar::{lemma_decode_fixed, lemma_trim_fixed, raw_constraint, split_comparator};
use crate::range::generic::{
    entries_of, render_entry, render_spec, version_of, all_versions_parse, has_duplicate,
    RangeParts,
};

verus! {

proof fn lemma_split_empty(sep: char)
    ensures
        split_on(Seq::<char>::empty(), sep).len() == 1,
{
    assert(split_on(Seq::<char>::empty(), sep) == seq![Seq::<char>::empty()]);
}

/// Over one version type: a specifier with the `vers:` prefix and a scheme
/// registered for that type, two of whose constraints are written with the
/// same version text, is refused as a duplicate, whatever their comparators.
pub proof fn lemma_duplicate_refused<V: VersionType>(s: Seq<char>, i: int, j: int)
    requires
        trim(s).len() >= 5 && trim(s).take(5) == vers_prefix(),
        well_formed_scheme(scheme_part(trim(s))),
        registered(scheme_part(trim(s))) == Some(V::spec_kind()),
        0 <= i < j < raws_of(body_part(trim(s))).len(),
        raws_of(body_part(trim(s)))[i].1 == raws_of(body_part(trim(s)))[j].1,
    ensures
        parse_spec::<V>(s) == Err::<crate::range::generic::RangeParts<V::V>, Failure>(
            Failure::Duplicate,
        ),
{
    let body = body_part(trim(s));
    if body.len() == 0 {
        assert(body =~= Seq::<char>::empty());
        lemma_split_empty('|');
    }
}

proof fn lemma_registered_well_formed(name: Seq<char>)
    requires
        registered(name) is Some,
    ensures
        well_formed_scheme(name),
{
    assert forall|x: int| 0 <= x < name.len() implies crate::text::is_alnum(#[trigger] name[x])
        || name[x] == '-' by {
        if name == seq!['n', 'p', 'm'] {
            assert(name[x] == 'n' || name[x] == 'p' || name[x] == 'm');
        } else if name == seq!['s', 'e', 'm', 'v', 'e', 'r'] {
            assert(name[x] == 's' || name[x] == 'e' || name[x] == 'm' || name[x] == 'v' || name[x]
                == 'r');
        } else {
            assert(name[x] == 'd' || name[x] == 'e' || name[x] == 'b');
        }
    }
}

/// A specifier whose scheme is registered, two of whose constraints are
/// written with the same version text, is refused as a duplicate, whatever
/// their comparators.
pub proof fn lemma_parse_refuses_duplicates(s: Seq<char>, i: int, j: int)
    requires
        dispatch(s) is Some,
        0 <= i < j < raws_of(body_part(trim(s))).len(),
        raws_of(body_part(trim(s)))[i].1 == raws_of(body_part(trim(s)))[j].1,
    ensures
        dynamic_parse_spec(s) == Err::<crate::range::dynamic::DynamicParts, Failure>(
            Failure::Duplicate,
        ),
{
    let name = scheme_part(trim(s));
    let k = registered(name)->0;
    lemma_registered_well_formed(name);
    if k == SchemeKind::Deb {
        lemma_duplicate_refused::<DebVersion>(s, i, j);
    } else {
        lemma_duplicate_refused::<SemVer>(s, i, j);
    }
}

proof fn lemma_insert_sorted<V: VersionType>(s: Seq<(Comparator, V::V)>, x: (Comparator, V::V))
    requires
        is_sorted::<V>(s),
    ensures
        is_sorted::<V>(insert_sorted::<V>(s, x)),
        insert_sorted::<V>(s, x).len() == s.len() + 1,
        insert_sorted::<V>(s, x).last() == x || (s.len() > 0 && insert_sorted::<V>(s, x).last()
            == s.last()),
    decreases s.len(),
{
    if s.len() > 0 {
        let p = s.drop_last();
        assert(is_sorted::<V>(p)) by {
            assert forall|i: int| 0 <= i < p.len() - 1 implies V::spec_cmp(#[trigger] p[i].1, p[i + 1].1)
                <= 0 by {
                assert(p[i] == s[i] && p[i + 1] == s[i + 1]);
            }
        }
        if V::spec_cmp(s.last().1, x.1) > 0 {
            lemma_insert_sorted::<V>(p, x);
            let q = insert_sorted::<V>(p, x);
            let r = q.push(s.last());
            V::lemma_cmp_antisymmetric(s.last().1, x.1);
            if p.len() > 0 {
                assert(V::spec_cmp(p.last().1, s.last().1) <= 0) by {
                    assert(p.last() == s[s.len() - 2]);
                }
            }
            assert forall|i: int| 0 <= i < r.len() - 1 implies V::spec_cmp(#[trigger] r[i].1, r[i + 1].1)
                <= 0 by {
                if i < q.len() - 1 {
                    assert(r[i] == q[i] && r[i + 1] == q[i + 1]);
                } else {
                    assert(r[i] == q.last());
                }
            }
        } else {
            let r = s.push(x);
            assert forall|i: int| 0 <= i < r.len() - 1 implies V::spec_cmp(#[trigger] r[i].1, r[i + 1].1)
                <= 0 by {
                if i < s.len() - 1 {
                    assert(r[i] == s[i] && r[i + 1] == s[i + 1]);
                }
            }
        }
    }
}

/// Normalization's first step puts the constraints in order: each compares
/// at most equal to the next, whatever order they were written in.
pub proof fn lemma_sort_entries_sorted<V: VersionType>(s: Seq<(Comparator, V::V)>)
    ensures
        is_sorted::<V>(sort_entries::<V>(s)),
        sort_entries::<V>(s).len() == s.len(),
    decreases s.len(),
{
    if s.len() > 0 {
        lemma_sort_entries_sorted::<V>(s.drop_last());
        lemma_insert_sorted::<V>(sort_entries::<V>(s.drop_last()), s.last());
    }
}

/// In a list where each entry compares at most equal to the next, every
/// entry compares at most equal to every later one.
proof fn lemma_sorted_all<V: VersionType>(s: Seq<(Comparator, V::V)>, i: int, j: int)
    requires
        is_sorted::<V>(s),
        0 <= i <= j < s.len(),
    ensures
        V::spec_cmp(s[i].1, s[j].1) <= 0,
    decreases j - i,
{
    if i == j {
        V::lemma_cmp_antisymmetric(s[i].1, s[i].1);
    } else {
        lemma_sorted_all::<V>(s, i, j - 1);
        assert(V::spec_cmp(s[j - 1].1, s[j].1) <= 0);
        V::lemma_cmp_transitive(s[i].1, s[j - 1].1, s[j].1);
    }
}

/// What survives among the first `n` entries of a sorted list: it is sorted,
/// its last entry compares at most equal to every later entry of the list,
/// its bounds are the list's loosest ones and appear once each, and it holds
/// an `Equal` only where the list has no bound.
#[verifier::rlimit(50)]
#[verifier::spinoff_prover]
proof fn lemma_kept_prefix<V: VersionType>(s: Seq<(Comparator, V::V)>, n: int)
    requires
        is_sorted::<V>(s),
        0 <= n <= s.len(),
    ensures
        ({
            let k = kept_prefix(s, n);
            &&& is_sorted::<V>(k)
            &&& k.len() > 0 ==> forall|m: int|
                n <= m < s.len() ==> V::spec_cmp(k.last().1, #[trigger] s[m].1) <= 0
            &&& forall|i: int|
                0 <= i < k.len() && (#[trigger] k[i]).0.is_lower_bound() ==> k[i] == s[first_lower(
                    s,
                )] && first_lower(s) < n
            &&& forall|i: int|
                0 <= i < k.len() && (#[trigger] k[i]).0.is_upper_bound() ==> k[i] == s[last_upper(
                    s,
                )] && 0 <= last_upper(s) < n
            &&& forall|i: int, j: int|
                0 <= i < j < k.len() ==> !((#[trigger] k[i]).0.is_lower_bound() && (#[trigger] k[
                    j
                ]).0.is_lower_bound())
            &&& forall|i: int, j: int|
                0 <= i < j < k.len() ==> !((#[trigger] k[i]).0.is_upper_bound() && (#[trigger] k[
                    j
                ]).0.is_upper_bound())
            &&& forall|i: int|
                0 <= i < k.len() && (#[trigger] k[i]).0 == Comparator::Equal ==> !has_lower(s)
                    && !has_upper(s)
            &&& has_lower(s) && first_lower(s) < n ==> exists|i: int|
                0 <= i < k.len() && #[trigger] k[i] == s[first_lower(s)]
            &&& has_upper(s) && last_upper(s) < n ==> exists|i: int|
                0 <= i < k.len() && #[trigger] k[i] == s[last_upper(s)]
        }),
    decreases n,
{
    lemma_first_lower_bounds(s);
    lemma_last_upper_bounds(s);
    if n > 0 {
        lemma_kept_prefix::<V>(s, n - 1);
        let p = kept_prefix(s, n - 1);
        let k = kept_prefix(s, n);
        if kept(s, n - 1) {
            let x = s[n - 1];
            assert(k == p.push(x));
            assert forall|m: int| n <= m < s.len() implies V::spec_cmp(k.last().1, #[trigger] s[m].1)
                <= 0 by {
                lemma_sorted_all::<V>(s, n - 1, m);
            }
            assert forall|i: int| 0 <= i < k.len() - 1 implies V::spec_cmp(#[trigger] k[i].1, k[i + 1].1)
                <= 0 by {
                if i < p.len() - 1 {
                    assert(k[i] == p[i] && k[i + 1] == p[i + 1]);
                } else {
                    assert(k[i] == p.last());
                }
            }
            assert forall|i: int|
                0 <= i < k.len() && (#[trigger] k[i]).0.is_lower_bound() implies k[i] == s[first_lower(
                s,
            )] && first_lower(s) < n by {
                if i < p.len() {
                    assert(k[i] == p[i]);
                }
            }
            assert forall|i: int|
                0 <= i < k.len() && (#[trigger] k[i]).0.is_upper_bound() implies k[i] == s[last_upper(
                s,
            )] && 0 <= last_upper(s) < n by {
                if i < p.len() {
                    assert(k[i] == p[i]);
                }
            }
            assert forall|i: int, j: int| 0 <= i < j < k.len() implies !((#[trigger] k[i]).0.is_lower_bound()
                && (#[trigger] k[j]).0.is_lower_bound()) by {
                assert(k[i] == p[i]);
                if j < p.len() {
                    assert(k[j] == p[j]);
                }
            }
            assert forall|i: int, j: int| 0 <= i < j < k.len() implies !((#[trigger] k[i]).0.is_upper_bound()
                && (#[trigger] k[j]).0.is_upper_bound()) by {
                assert(k[i] == p[i]);
                if j < p.len() {
                    assert(k[j] == p[j]);
                }
            }
            assert forall|i: int|
                0 <= i < k.len() && (#[trigger] k[i]).0 == Comparator::Equal implies !has_lower(s)
                && !has_upper(s) by {
                if i < p.len() {
                    assert(k[i] == p[i]);
                }
            }
            if has_lower(s) && first_lower(s) < n {
                if first_lower(s) == n - 1 {
                    assert(k[k.len() - 1] == s[first_lower(s)]);
                } else {
                    let i = choose|i: int| 0 <= i < p.len() && #[trigger] p[i] == s[first_lower(s)];
                    assert(k[i] == p[i]);
                }
            }
            if has_upper(s) && last_upper(s) < n {
                if last_upper(s) == n - 1 {
                    assert(k[k.len() - 1] == s[last_upper(s)]);
                } else {
                    let i = choose|i: int| 0 <= i < p.len() && #[trigger] p[i] == s[last_upper(s)];
                    assert(k[i] == p[i]);
                }
            }
        } else {
            assert(k == p);
            if p.len() > 0 {
                assert forall|m: int| n <= m < s.len() implies V::spec_cmp(k.last().1, #[trigger] s[m].1)
                    <= 0 by {
                    assert(n - 1 <= m);
                }
            }
            assert(!(has_lower(s) && first_lower(s) == n - 1));
            assert(!(has_upper(s) && last_upper(s) == n - 1));
        }
    }
}

/// Where a list has no bound, every entry survives.
proof fn lemma_kept_prefix_unbounded<T>(s: Seq<(Comparator, T)>, n: int)
    requires
        0 <= n <= s.len(),
        !has_lower(s),
        !has_upper(s),
    ensures
        kept_prefix(s, n).len() == n,
    decreases n,
{
    lemma_first_lower_bounds(s);
    lemma_last_upper_bounds(s);
    if n > 0 {
        lemma_kept_prefix_unbounded(s, n - 1);
        assert(kept(s, n - 1));
    }
}

/// Sorting a list that is already in order leaves it as it is.
proof fn lemma_sort_sorted_identity<V: VersionType>(k: Seq<(Comparator, V::V)>)
    requires
        is_sorted::<V>(k),
    ensures
        sort_entries::<V>(k) == k,
    decreases k.len(),
{
    if k.len() > 0 {
        let p = k.drop_last();
        assert(is_sorted::<V>(p)) by {
            assert forall|i: int| 0 <= i < p.len() - 1 implies V::spec_cmp(#[trigger] p[i].1, p[i + 1].1)
                <= 0 by {
                assert(p[i] == k[i] && p[i + 1] == k[i + 1]);
            }
        }
        lemma_sort_sorted_identity::<V>(p);
        if p.len() > 0 {
            assert(p.last() == k[k.len() - 2]);
        }
        assert(insert_sorted::<V>(p, k.last()) =~= k);
    }
}

proof fn lemma_kept_all<V: VersionType>(k: Seq<(Comparator, V::V)>, m: int)
    requires
        0 <= m <= k.len(),
        forall|i: int| 0 <= i < k.len() ==> kept(k, i),
    ensures
        kept_prefix(k, m) == k.take(m),
    decreases m,
{
    if m > 0 {
        lemma_kept_all::<V>(k, m - 1);
        assert(kept(k, m - 1));
        assert(k.take(m - 1).push(k[m - 1]) =~= k.take(m));
    } else {
        assert(k.take(0) =~= Seq::<(Comparator, V::V)>::empty());
    }
}

/// Normalization is idempotent: normalizing a list that normalization
/// produced gives that list back unchanged.
pub proof fn lemma_normalize_idempotent<V: VersionType>(cs: Seq<(Comparator, V::V)>)
    requires
        normalize_spec::<V>(cs) is Ok,
    ensures
        normalize_spec::<V>(normalize_spec::<V>(cs)->Ok_0) == normalize_spec::<V>(cs),
{
    let s = sort_entries::<V>(cs);
    lemma_sort_entries_sorted::<V>(cs);
    let n = s.len() as int;
    lemma_kept_prefix::<V>(s, n);
    lemma_first_lower_bounds(s);
    lemma_last_upper_bounds(s);
    let k = kept_prefix(s, n);
    assert(normalize_spec::<V>(cs) == Ok::<Seq<(Comparator, V::V)>, Failure>(k));
    lemma_first_lower_bounds(k);
    lemma_last_upper_bounds(k);
    // The list that normalization produced is not empty.
    if has_lower(s) {
        let i = choose|i: int| 0 <= i < k.len() && #[trigger] k[i] == s[first_lower(s)];
    } else if has_upper(s) {
        let i = choose|i: int| 0 <= i < k.len() && #[trigger] k[i] == s[last_upper(s)];
    } else {
        lemma_kept_prefix_unbounded(s, n);
    }
    assert(k.len() > 0);
    lemma_sort_sorted_identity::<V>(k);
    // Its bounds are those of the sorted list.
    assert(has_lower(k) == has_lower(s)) by {
        if has_lower(k) {
            assert(k[first_lower(k)].0.is_lower_bound());
        }
        if has_lower(s) {
            let i = choose|i: int| 0 <= i < k.len() && #[trigger] k[i] == s[first_lower(s)];
            assert(k[i].0.is_lower_bound());
        }
    }
    assert(has_upper(k) == has_upper(s)) by {
        if has_upper(k) {
            assert(k[last_upper(k)].0.is_upper_bound());
        }
        if has_upper(s) {
            let i = choose|i: int| 0 <= i < k.len() && #[trigger] k[i] == s[last_upper(s)];
            assert(k[i].0.is_upper_bound());
        }
    }
    if has_lower(k) {
        assert(k[first_lower(k)] == s[first_lower(s)]);
    }
    if has_upper(k) {
        assert(k[last_upper(k)] == s[last_upper(s)]);
    }
    // Every entry of it survives a second pass.
    assert forall|i: int| 0 <= i < k.len() implies kept(k, i) by {
        if k[i].0.is_lower_bound() {
            if first_lower(k) != i {
                assert(first_lower(k) < i);
                assert(k[first_lower(k)].0.is_lower_bound());
            }
        } else if k[i].0.is_upper_bound() {
            if last_upper(k) != i {
                assert(last_upper(k) > i);
                assert(k[last_upper(k)].0.is_upper_bound());
            }
        }
    }
    lemma_kept_all::<V>(k, k.len() as int);
    assert(k.take(k.len() as int) =~= k);
    assert(!bounds_cross::<V>(k));
    assert(!equal_outside::<V>(k)) by {
        if equal_outside::<V>(k) {
            let i = choose|i: int|
                0 <= i < k.len() && (#[trigger] k[i]).0 == Comparator::Equal && ((has_lower(k)
                    && !crate::constraint::VersionConstraint::<V>::admits(k[first_lower(k)], k[i].1))
                    || (has_upper(k) && !crate::constraint::VersionConstraint::<V>::admits(
                    k[last_upper(k)],
                    k[i].1,
                )));
        }
    }
}

/// The version text a constraint is written with: `*` for `Any`.
pub open spec fn entry_text<V: VersionType>(e: (Comparator, V::V)) -> Seq<char> {
    if e.0 == Comparator::Any {
        seq!['*']
    } else {
        V::spec_render(e.1)
    }
}

/// A constraint as parsing makes them: `Any` with the zero version, or a
/// version that its own text reads back as, written in plain characters.
pub open spec fn entry_valid<V: VersionType>(e: (Comparator, V::V)) -> bool {
    if e.0 == Comparator::Any {
        e.1 == V::spec_zero()
    } else {
        V::spec_parse(V::spec_render(e.1)) == Some(e.1) && plain_text(V::spec_render(e.1))
    }
}

pub open spec fn all_valid<V: VersionType>(s: Seq<(Comparator, V::V)>) -> bool {
    forall|i: int| 0 <= i < s.len() ==> entry_valid::<V>(#[trigger] s[i])
}

proof fn lemma_insert_valid<V: VersionType>(s: Seq<(Comparator, V::V)>, x: (Comparator, V::V))
    requires
        all_valid::<V>(s),
        entry_valid::<V>(x),
    ensures
        all_valid::<V>(insert_sorted::<V>(s, x)),
    decreases s.len(),
{
    if s.len() > 0 {
        let p = s.drop_last();
        assert forall|i: int| 0 <= i < p.len() implies entry_valid::<V>(#[trigger] p[i]) by {
            assert(p[i] == s[i]);
        }
        if V::spec_cmp(s.last().1, x.1) > 0 {
            lemma_insert_valid::<V>(p, x);
            let q = insert_sorted::<V>(p, x);
            assert forall|i: int| 0 <= i < q.len() + 1 implies entry_valid::<V>(
                #[trigger] q.push(s.last())[i],
            ) by {
                if i < q.len() {
                    assert(q.push(s.last())[i] == q[i]);
                } else {
                    assert(s.last() == s[s.len() - 1]);
                }
            }
        } else {
            assert forall|i: int| 0 <= i < s.len() + 1 implies entry_valid::<V>(#[trigger] s.push(x)[i]) by {
                if i < s.len() {
                    assert(s.push(x)[i] == s[i]);
                }
            }
        }
    }
}

proof fn lemma_sort_valid<V: VersionType>(s: Seq<(Comparator, V::V)>)
    requires
        all_valid::<V>(s),
    ensures
        all_valid::<V>(sort_entries::<V>(s)),
    decreases s.len(),
{
    if s.len() > 0 {
        let p = s.drop_last();
        assert forall|i: int| 0 <= i < p.len() implies entry_valid::<V>(#[trigger] p[i]) by {
            assert(p[i] == s[i]);
        }
        lemma_sort_valid::<V>(p);
        assert(s.last() == s[s.len() - 1]);
        lemma_insert_valid::<V>(sort_entries::<V>(p), s.last());
    }
}

proof fn lemma_kept_valid<V: VersionType>(s: Seq<(Comparator, V::V)>, n: int)
    requires
        all_valid::<V>(s),
        0 <= n <= s.len(),
    ensures
        all_valid::<V>(kept_prefix(s, n)),
    decreases n,
{
    if n > 0 {
        lemma_kept_valid::<V>(s, n - 1);
        let p = kept_prefix(s, n - 1);
        if kept(s, n - 1) {
            assert forall|i: int| 0 <= i < p.len() + 1 implies entry_valid::<V>(
                #[trigger] p.push(s[n - 1])[i],
            ) by {
                if i < p.len() {
                    assert(p.push(s[n - 1])[i] == p[i]);
                }
            }
        }
    }
}

/// The characters a constraint's text can hold: no blank, no `|`, no `/`.
pub open spec fn spec_char(c: char) -> bool {
    plain_char(c) || c == '<' || c == '>' || c == '=' || c == '!' || c == '*'
}

/// A valid constraint's text reads back as its comparator and version text.
proof fn lemma_raw_of_rendered<V: VersionType>(e: (Comparator, V::V))
    requires
        entry_valid::<V>(e),
    ensures
        raw_constraint(render_entry::<V>(e)) == (e.0, entry_text::<V>(e)),
        render_entry::<V>(e).len() > 0,
        forall|i: int|
            0 <= i < render_entry::<V>(e).len() ==> spec_char(#[trigger] render_entry::<V>(e)[i]),
{
    let item = render_entry::<V>(e);
    if e.0 == Comparator::Any {
        assert(item =~= seq!['*']);
        lemma_trim_fixed(item);
    } else {
        let t = V::spec_render(e.1);
        let sym = e.0.symbol();
        assert(item =~= sym + t);
        assert(plain_char(t[t.len() - 1]));
        assert(item.last() == t.last());
        assert forall|i: int| 0 <= i < item.len() implies spec_char(#[trigger] item[i]) by {
            if i >= sym.len() {
                assert(item[i] == t[i - sym.len()]);
                assert(plain_char(t[i - sym.len()]));
            }
        }
        assert(is_digit(t[0]));
        lemma_trim_fixed(item);
        lemma_trim_fixed(t);
        assert(item != seq!['*']) by {
            if item == seq!['*'] {
                assert(item[0] == '*');
                if sym.len() == 0 {
                    assert(item[0] == t[0]);
                }
            }
        }
        if sym.len() > 0 {
            assert(item[sym.len() as int] == t[0]);
        } else {
            assert(item[0] == t[0]);
        }
        assert(split_comparator(item).1 == sym.len());
        assert(split_comparator(item).0 == e.0);
        assert(item.skip(sym.len() as int) =~= t);
        assert forall|i: int| 0 <= i < t.len() implies t[i] != '%' by {
            assert(plain_char(t[i]));
        }
        lemma_decode_fixed(t);
    }
}

/// Reading back the text of a normalized range whose constraints are as
/// parsing makes them and have distinct version texts gives the same range.
pub proof fn lemma_render_reparse<V: VersionType>(r: RangeParts<V::V>)
    requires
        well_formed_scheme(r.scheme),
        registered(r.scheme) == Some(V::spec_kind()),
        normalize_spec::<V>(r.constraints) == Ok::<Seq<(Comparator, V::V)>, Failure>(r.constraints),
        all_valid::<V>(r.constraints),
        forall|i: int, j: int|
            0 <= i < j < r.constraints.len() ==> entry_text::<V>(r.constraints[i]) != entry_text::<V>(
                r.constraints[j],
            ),
    ensures
        parse_spec::<V>(render_spec::<V>(r)) == Ok::<RangeParts<V::V>, Failure>(r),
        dispatch(render_spec::<V>(r)) == registered(r.scheme),
{
    let k = r.constraints;
    assert(k.len() > 0);
    let items = k.map_values(|e: (Comparator, V::V)| render_entry::<V>(e));
    assert forall|i: int| 0 <= i < items.len() implies raw_constraint(#[trigger] items[i]) == (
    k[i].0, entry_text::<V>(k[i])) && items[i].len() > 0 && forall|c: int|
        0 <= c < items[i].len() ==> spec_char(#[trigger] items[i][c]) by {
        lemma_raw_of_rendered::<V>(k[i]);
    }
    let jn = join_on(items, '|');
    assert forall|i: int, c: int| 0 <= i < items.len() && 0 <= c < items[i].len() implies items[i][c]
        != '|' by {
        assert(spec_char(items[i][c]));
    }
    lemma_split_join(items, '|');
    let ok = |c: char| spec_char(c) || c == '|';
    lemma_join_chars(items, '|', ok);
    assert(jn.len() > 0) by {
        if items.len() == 1 {
            assert(jn == items[0]);
        } else {
            assert(jn == join_on(items.drop_last(), '|') + seq!['|'] + items.last());
        }
    }
    assert(ok(jn[0]) && ok(jn[jn.len() - 1]));
    lemma_trim_fixed(jn);
    let text = render_spec::<V>(r);
    let after = r.scheme + seq!['/'] + jn;
    assert(text =~= vers_prefix() + after);
    assert(text.last() == jn.last());
    lemma_trim_fixed(text);
    assert(text.take(5) =~= vers_prefix());
    assert(text.skip(5) =~= after);
    assert forall|c: int| 0 <= c < r.scheme.len() implies after[c] != '/' by {
        assert(after[c] == r.scheme[c]);
        assert(is_alnum(r.scheme[c]) || r.scheme[c] == '-');
    }
    lemma_first_index_is(after, '/', r.scheme.len() as int);
    assert(after.take(r.scheme.len() as int) =~= r.scheme);
    assert(after.skip(r.scheme.len() as int + 1) =~= jn);
    assert(scheme_part(text) == r.scheme);
    assert(body_part(text) == jn);
    let raws = raws_of(jn);
    assert(raws =~= k.map_values(|e: (Comparator, V::V)| (e.0, entry_text::<V>(e))));
    assert(!has_duplicate(raws));
    assert forall|i: int| 0 <= i < raws.len() implies (#[trigger] version_of::<V>(raws[i])) == Some(
        k[i].1,
    ) by {
        assert(entry_valid::<V>(k[i]));
    }
    assert(all_versions_parse::<V>(raws));
    assert(entries_of::<V>(raws) =~= k);
    assert(trim(text) == text);
}

/// Round trip: the canonical text of a range that a specifier denotes reads
/// back as the same range, where its constraints' version texts are
/// distinct (two Debian versions such as `0:1.0` and `1.0` are written
/// alike, and would then read back as a duplicate).
pub proof fn lemma_round_trip<V: VersionType>(s: Seq<char>)
    requires
        parse_spec::<V>(s) is Ok,
        forall|i: int, j: int|
            0 <= i < j < parse_spec::<V>(s)->Ok_0.constraints.len() ==> entry_text::<V>(
                parse_spec::<V>(s)->Ok_0.constraints[i],
            ) != entry_text::<V>(parse_spec::<V>(s)->Ok_0.constraints[j]),
    ensures
        parse_spec::<V>(render_spec::<V>(parse_spec::<V>(s)->Ok_0)) == parse_spec::<V>(s),
{
    let t = trim(s);
    let body = body_part(t);
    let raws = raws_of(body);
    let cs = entries_of::<V>(raws);
    assert forall|i: int| 0 <= i < cs.len() implies entry_valid::<V>(#[trigger] cs[i]) by {
        assert(version_of::<V>(raws[i]) is Some);
        if raws[i].0 != Comparator::Any {
            V::lemma_render_parse(raws[i].1);
        }
    }
    lemma_sort_valid::<V>(cs);
    let sorted = sort_entries::<V>(cs);
    lemma_kept_valid::<V>(sorted, sorted.len() as int);
    lemma_normalize_idempotent::<V>(cs);
    lemma_render_reparse::<V>(parse_spec::<V>(s)->Ok_0);
}

/// The version texts of a range's constraints are distinct.
pub open spec fn distinct_texts<V: VersionType>(cs: Seq<(Comparator, V::V)>) -> bool {
    forall|i: int, j: int|
        0 <= i < j < cs.len() ==> entry_text::<V>(cs[i]) != entry_text::<V>(cs[j])
}

/// Round trip through the public entry points: the canonical text of a
/// range that `parse` accepted parses to the same range, where its
/// constraints' version texts are distinct.
pub proof fn lemma_parse_round_trip(s: Seq<char>)
    requires
        dynamic_parse_spec(s) is Ok,
        match dynamic_parse_spec(s)->Ok_0 {
            DynamicParts::SemVer(p) => distinct_texts::<SemVer>(p.constraints),
            DynamicParts::Deb(p) => distinct_texts::<DebVersion>(p.constraints),
        },
    ensures
        dynamic_parse_spec(
            match dynamic_parse_spec(s)->Ok_0 {
                DynamicParts::SemVer(p) => render_spec::<SemVer>(p),
                DynamicParts::Deb(p) => render_spec::<DebVersion>(p),
            },
        ) == dynamic_parse_spec(s),
{
    if dispatch(s) == Some(SchemeKind::Deb) {
        let p = parse_spec::<DebVersion>(s)->Ok_0;
        lemma_round_trip::<DebVersion>(s);
        lemma_render_reparse_dispatch::<DebVersion>(s);
    } else {
        let p = parse_spec::<SemVer>(s)->Ok_0;
        lemma_round_trip::<SemVer>(s);
        lemma_render_reparse_dispatch::<SemVer>(s);
    }
}

proof fn lemma_render_reparse_dispatch<V: VersionType>(s: Seq<char>)
    requires
        parse_spec::<V>(s) is Ok,
        distinct_texts::<V>(parse_spec::<V>(s)->Ok_0.constraints),
    ensures
        dispatch(render_spec::<V>(parse_spec::<V>(s)->Ok_0)) == Some(V::spec_kind()),
{
    let t = trim(s);
    let raws = raws_of(body_part(t));
    let cs = entries_of::<V>(raws);
    assert forall|i: int| 0 <= i < cs.len() implies entry_valid::<V>(#[trigger] cs[i]) by {
        assert(version_of::<V>(raws[i]) is Some);
        if raws[i].0 != Comparator::Any {
            V::lemma_render_parse(raws[i].1);
        }
    }
    lemma_sort_valid::<V>(cs);
    let sorted = sort_entries::<V>(cs);
    lemma_kept_valid::<V>(sorted, sorted.len() as int);
    lemma_normalize_idempotent::<V>(cs);
    lemma_render_reparse::<V>(parse_spec::<V>(s)->Ok_0);
}

/// A range that a specifier denotes is non-empty, sorted by version, and
/// holds at most one lower and one upper bound.
pub proof fn lemma_parsed_range_canonical<V: VersionType>(s: Seq<char>)
    requires
        parse_spec::<V>(s) is Ok,
    ensures
        ({
            let k = parse_spec::<V>(s)->Ok_0.constraints;
            &&& k.len() > 0
            &&& is_sorted::<V>(k)
            &&& forall|i: int, j: int|
                0 <= i < j < k.len() ==> !((#[trigger] k[i]).0.is_lower_bound() && (#[trigger] k[
                    j
                ]).0.is_lower_bound())
            &&& forall|i: int, j: int|
                0 <= i < j < k.len() ==> !((#[trigger] k[i]).0.is_upper_bound() && (#[trigger] k[
                    j
                ]).0.is_upper_bound())
        }),
{
    let cs = entries_of::<V>(raws_of(body_part(trim(s))));
    lemma_sort_entries_sorted::<V>(cs);
    let sorted = sort_entries::<V>(cs);
    lemma_kept_prefix::<V>(sorted, sorted.len() as int);
    lemma_normalize_idempotent::<V>(cs);
}

} // verus!
