//! Dotted numeric versions, `major.minor.patch[-pre.release][+build.meta]`,
//! ordered by semantic-versioning precedence.
use vstd::prelude::*;
use std::cmp::Ordering;
use crate::constraint::VersionType;
use crate::digits::{all_digits, decimal_text, decimal_u64, digits_value, lemma_decimal_text, parse_decimal,
    render_decimal};
use crate::error::VersError;
use crate::order::{cmp_int, compare_u64, ordering_of};
use crate::registry::SchemeKind;
use crate::schemes::deb::{compare_digit_sequence, digit_len, digit_run};
use crate::text::{char_is_alnum, char_is_digit, chars_of, find_first, first_index, is_alnum, is_digit,
    join_on, lemma_first_index_bounds, push_char, push_chars, push_joined, split_at, split_on,
    string_of, sub_chars, views, lemma_first_index_is, lemma_join_chars, lemma_split_concat,
    lemma_split_join, lemma_split_whole, plain_char, plain_text};

verus! {

/// A semantic version as its parts.
pub struct SemVerParts {
    pub major: u64,
    pub minor: u64,
    pub patch: u64,
    pub pre: Seq<Seq<char>>,
    pub build: Seq<Seq<char>>,
}

/// A semantic version. Build metadata is kept for display and takes no part
/// in the order.
#[derive(Clone, Debug, PartialEq, Eq)]
pub struct SemVer {
    major: u64,
    minor: u64,
    patch: u64,
    pre: Vec<Vec<char>>,
    build: Vec<Vec<char>>,
}

impl View for SemVer {
    type V = SemVerParts;

    closed spec fn view(&self) -> SemVerParts {
        SemVerParts {
            major: self.major,
            minor: self.minor,
            patch: self.patch,
            pre: views(self.pre@),
            build: views(self.build@),
        }
    }
}

/// A run of digits without a leading zero, or `0` itself.
pub open spec fn numeric(s: Seq<char>) -> Option<u64> {
    if s.len() > 1 && s[0] == '0' {
        None
    } else {
        decimal_u64(s)
    }
}

pub open spec fn is_numeric_ident(s: Seq<char>) -> bool {
    s.len() > 0 && all_digits(s)
}

/// A build identifier: non-empty, of letters, digits and hyphens.
pub open spec fn valid_build_ident(s: Seq<char>) -> bool {
    s.len() > 0 && forall|i: int| 0 <= i < s.len() ==> is_alnum(#[trigger] s[i]) || s[i] == '-'
}

/// A pre-release identifier: a build identifier, and no leading zero where
/// it is numeric.
pub open spec fn valid_pre_ident(s: Seq<char>) -> bool {
    valid_build_ident(s) && (is_numeric_ident(s) ==> (s.len() == 1 || s[0] != '0'))
}

pub open spec fn head_of(s: Seq<char>) -> Seq<char> {
    s.take(first_index(s, '+'))
}

pub open spec fn build_text(s: Seq<char>) -> Option<Seq<char>> {
    let p = first_index(s, '+');
    if p < s.len() {
        Some(s.skip(p + 1))
    } else {
        None
    }
}

pub open spec fn core_of(h: Seq<char>) -> Seq<char> {
    h.take(first_index(h, '-'))
}

pub open spec fn pre_text(h: Seq<char>) -> Option<Seq<char>> {
    let p = first_index(h, '-');
    if p < h.len() {
        Some(h.skip(p + 1))
    } else {
        None
    }
}

pub open spec fn ids_of(t: Option<Seq<char>>) -> Seq<Seq<char>> {
    match t {
        Some(x) => split_on(x, '.'),
        None => Seq::empty(),
    }
}

/// What a semantic version text denotes: three numbers without leading
/// zeros, then optionally `-` and dot-separated pre-release identifiers,
/// then optionally `+` and dot-separated build identifiers.
pub open spec fn semver_parse(s: Seq<char>) -> Option<SemVerParts> {
    let h = head_of(s);
    let core = split_on(core_of(h), '.');
    let pre = ids_of(pre_text(h));
    let build = ids_of(build_text(s));
    if core.len() != 3 || numeric(core[0]) is None || numeric(core[1]) is None || numeric(core[2]) is None
        || (exists|i: int| 0 <= i < pre.len() && !valid_pre_ident(#[trigger] pre[i]))
        || (exists|i: int| 0 <= i < build.len() && !valid_build_ident(#[trigger] build[i])) {
        None
    } else {
        Some(SemVerParts {
            major: numeric(core[0])->0,
            minor: numeric(core[1])->0,
            patch: numeric(core[2])->0,
            pre,
            build,
        })
    }
}

/// `major.minor.patch`, then `-` and the pre-release where there is one,
/// then `+` and the build metadata where there is some.
pub open spec fn semver_render(v: SemVerParts) -> Seq<char> {
    let core = decimal_text(v.major as nat) + seq!['.'] + decimal_text(v.minor as nat) + seq!['.']
        + decimal_text(v.patch as nat);
    let pre = if v.pre.len() > 0 { seq!['-'] + join_on(v.pre, '.') } else { Seq::empty() };
    let build = if v.build.len() > 0 { seq!['+'] + join_on(v.build, '.') } else { Seq::empty() };
    core + pre + build
}

/// Character-wise comparison; a proper prefix comes first.
pub open spec fn lex_cmp(a: Seq<char>, b: Seq<char>) -> int
    decreases a.len(),
{
    if a.len() == 0 && b.len() == 0 {
        0
    } else if a.len() == 0 {
        -1
    } else if b.len() == 0 {
        1
    } else if a[0] < b[0] {
        -1
    } else if a[0] > b[0] {
        1
    } else {
        lex_cmp(a.drop_first(), b.drop_first())
    }
}

/// Pre-release identifiers: numeric ones by value and before alphanumeric
/// ones, which compare character-wise.
pub open spec fn ident_cmp(a: Seq<char>, b: Seq<char>) -> int {
    if is_numeric_ident(a) && is_numeric_ident(b) {
        cmp_int(digits_value(a) as int, digits_value(b) as int)
    } else if is_numeric_ident(a) {
        -1
    } else if is_numeric_ident(b) {
        1
    } else {
        lex_cmp(a, b)
    }
}

/// Identifier lists, field by field; a proper prefix comes first.
pub open spec fn ids_cmp(a: Seq<Seq<char>>, b: Seq<Seq<char>>) -> int
    decreases a.len(),
{
    if a.len() == 0 && b.len() == 0 {
        0
    } else if a.len() == 0 {
        -1
    } else if b.len() == 0 {
        1
    } else if ident_cmp(a[0], b[0]) != 0 {
        ident_cmp(a[0], b[0])
    } else {
        ids_cmp(a.drop_first(), b.drop_first())
    }
}

/// Precedence: the three numbers, then a version without pre-release above
/// one with, then the pre-release identifiers. Build metadata is ignored.
pub open spec fn semver_cmp(a: SemVerParts, b: SemVerParts) -> int {
    if a.major != b.major {
        cmp_int(a.major as int, b.major as int)
    } else if a.minor != b.minor {
        cmp_int(a.minor as int, b.minor as int)
    } else if a.patch != b.patch {
        cmp_int(a.patch as int, b.patch as int)
    } else if a.pre.len() == 0 && b.pre.len() == 0 {
        0
    } else if a.pre.len() == 0 {
        1
    } else if b.pre.len() == 0 {
        -1
    } else {
        ids_cmp(a.pre, b.pre)
    }
}

pub open spec fn semver_zero() -> SemVerParts {
    SemVerParts { major: 0, minor: 0, patch: 0, pre: Seq::empty(), build: Seq::empty() }
}

pub proof fn lemma_lex_cmp_antisymmetric(a: Seq<char>, b: Seq<char>)
    ensures
        lex_cmp(a, b) == -lex_cmp(b, a),
        -1 <= lex_cmp(a, b) <= 1,
    decreases a.len(),
{
    if a.len() > 0 && b.len() > 0 && a[0] == b[0] {
        lemma_lex_cmp_antisymmetric(a.drop_first(), b.drop_first());
    }
}

pub proof fn lemma_ids_cmp_antisymmetric(a: Seq<Seq<char>>, b: Seq<Seq<char>>)
    ensures
        ids_cmp(a, b) == -ids_cmp(b, a),
        -1 <= ids_cmp(a, b) <= 1,
    decreases a.len(),
{
    if a.len() > 0 && b.len() > 0 {
        lemma_lex_cmp_antisymmetric(a[0], b[0]);
        lemma_ids_cmp_antisymmetric(a.drop_first(), b.drop_first());
    }
}

proof fn lemma_lex_cmp_transitive(a: Seq<char>, b: Seq<char>, c: Seq<char>)
    requires
        lex_cmp(a, b) <= 0,
        lex_cmp(b, c) <= 0,
    ensures
        lex_cmp(a, c) <= 0,
        lex_cmp(a, c) == 0 ==> lex_cmp(a, b) == 0 && lex_cmp(b, c) == 0,
    decreases a.len(),
{
    if a.len() > 0 && b.len() > 0 && c.len() > 0 && a[0] == b[0] && b[0] == c[0] {
        lemma_lex_cmp_transitive(a.drop_first(), b.drop_first(), c.drop_first());
    }
}

proof fn lemma_ident_cmp_transitive(a: Seq<char>, b: Seq<char>, c: Seq<char>)
    requires
        ident_cmp(a, b) <= 0,
        ident_cmp(b, c) <= 0,
    ensures
        ident_cmp(a, c) <= 0,
        ident_cmp(a, c) == 0 ==> ident_cmp(a, b) == 0 && ident_cmp(b, c) == 0,
{
    if !is_numeric_ident(a) && !is_numeric_ident(b) && !is_numeric_ident(c) {
        lemma_lex_cmp_transitive(a, b, c);
    }
}

proof fn lemma_ids_cmp_transitive(a: Seq<Seq<char>>, b: Seq<Seq<char>>, c: Seq<Seq<char>>)
    requires
        ids_cmp(a, b) <= 0,
        ids_cmp(b, c) <= 0,
    ensures
        ids_cmp(a, c) <= 0,
    decreases a.len(),
{
    if a.len() > 0 && b.len() > 0 && c.len() > 0 {
        lemma_lex_cmp_antisymmetric(a[0], b[0]);
        lemma_lex_cmp_antisymmetric(b[0], c[0]);
        lemma_lex_cmp_antisymmetric(a[0], c[0]);
        if ident_cmp(a[0], b[0]) <= 0 && ident_cmp(b[0], c[0]) <= 0 {
            lemma_ident_cmp_transitive(a[0], b[0], c[0]);
        }
        if ident_cmp(a[0], b[0]) == 0 && ident_cmp(b[0], c[0]) == 0 {
            lemma_ids_cmp_transitive(a.drop_first(), b.drop_first(), c.drop_first());
        }
    }
}

proof fn lemma_semver_cmp_transitive(a: SemVerParts, b: SemVerParts, c: SemVerParts)
    requires
        semver_cmp(a, b) <= 0,
        semver_cmp(b, c) <= 0,
    ensures
        semver_cmp(a, c) <= 0,
{
    if a.major == b.major && b.major == c.major && a.minor == b.minor && b.minor == c.minor
        && a.patch == b.patch && b.patch == c.patch && a.pre.len() > 0 && b.pre.len() > 0
        && c.pre.len() > 0 {
        lemma_ids_cmp_transitive(a.pre, b.pre, c.pre);
    }
}

/// A semantic version written back as text reads as the same version, and
/// the text is plain.
pub proof fn lemma_semver_render_parse(t: Seq<char>)
    requires
        semver_parse(t) is Some,
    ensures
        semver_parse(semver_render(semver_parse(t)->0)) == semver_parse(t),
        plain_text(semver_render(semver_parse(t)->0)),
{
    let v = semver_parse(t)->0;
    let h = head_of(t);
    let core = split_on(core_of(h), '.');
    let d1 = decimal_text(v.major as nat);
    let d2 = decimal_text(v.minor as nat);
    let d3 = decimal_text(v.patch as nat);
    lemma_decimal_text(v.major as nat);
    lemma_decimal_text(v.minor as nat);
    lemma_decimal_text(v.patch as nat);
    let c = d1 + seq!['.'] + d2 + seq!['.'] + d3;
    let word = |ch: char| is_alnum(ch) || ch == '-' || ch == '.';
    // Pieces of the text and the characters they hold.
    assert forall|i: int, k: int| 0 <= i < v.pre.len() && 0 <= k < v.pre[i].len() implies v.pre[i][k]
        != '.' && word(v.pre[i][k]) by {
        assert(valid_pre_ident(v.pre[i]));
    }
    assert forall|i: int, k: int| 0 <= i < v.build.len() && 0 <= k < v.build[i].len() implies v.build[i][k]
        != '.' && word(v.build[i][k]) by {
        assert(valid_build_ident(v.build[i]));
    }
    let jp = join_on(v.pre, '.');
    let jb = join_on(v.build, '.');
    lemma_join_chars(v.pre, '.', word);
    lemma_join_chars(v.build, '.', word);
    let p = if v.pre.len() > 0 { seq!['-'] + jp } else { Seq::<char>::empty() };
    let b = if v.build.len() > 0 { seq!['+'] + jb } else { Seq::<char>::empty() };
    let r = semver_render(v);
    assert(r =~= c + p + b);
    assert forall|k: int| 0 <= k < c.len() implies is_digit(#[trigger] c[k]) || c[k] == '.' by {
        if k < d1.len() {
            assert(c[k] == d1[k]);
        } else if k == d1.len() {
        } else if k < d1.len() + 1 + d2.len() {
            assert(c[k] == d2[k - d1.len() - 1]);
        } else if k == d1.len() + 1 + d2.len() {
        } else {
            assert(c[k] == d3[k - d1.len() - 2 - d2.len()]);
        }
    }
    let cp = c + p;
    assert forall|k: int| 0 <= k < cp.len() implies #[trigger] cp[k] != '+' && plain_char(cp[k]) by {
        if k < c.len() {
            assert(cp[k] == c[k]);
        } else if k > c.len() {
            assert(cp[k] == jp[k - c.len() - 1]);
            assert(word(jp[k - c.len() - 1]));
        }
    }
    // Build metadata is split off at the first plus sign.
    if v.build.len() > 0 {
        assert(r[cp.len() as int] == '+');
        assert forall|k: int| 0 <= k < cp.len() implies r[k] != '+' by {
            assert(r[k] == cp[k]);
        }
        lemma_first_index_is(r, '+', cp.len() as int);
        assert(r.take(cp.len() as int) =~= cp);
        assert(r.skip(cp.len() as int + 1) =~= jb);
        lemma_split_join(v.build, '.');
    } else {
        assert(r =~= cp);
        lemma_first_index_is(r, '+', r.len() as int);
        assert(r.take(r.len() as int) =~= r);
        assert(ids_of(build_text(r)) =~= v.build);
    }
    assert(head_of(r) == cp);
    assert(ids_of(build_text(r)) == v.build);
    // The pre-release is split off at the first hyphen.
    if v.pre.len() > 0 {
        assert(cp[c.len() as int] == '-');
        assert forall|k: int| 0 <= k < c.len() implies cp[k] != '-' by {
            assert(cp[k] == c[k]);
        }
        lemma_first_index_is(cp, '-', c.len() as int);
        assert(cp.take(c.len() as int) =~= c);
        assert(cp.skip(c.len() as int + 1) =~= jp);
        lemma_split_join(v.pre, '.');
    } else {
        assert(cp =~= c);
        assert forall|k: int| 0 <= k < cp.len() implies cp[k] != '-' by {
            assert(cp[k] == c[k]);
        }
        lemma_first_index_is(cp, '-', cp.len() as int);
        assert(cp.take(cp.len() as int) =~= cp);
        assert(ids_of(pre_text(cp)) =~= v.pre);
    }
    assert(core_of(cp) == c);
    assert(ids_of(pre_text(cp)) == v.pre);
    // The three numbers.
    assert forall|k: int| 0 <= k < d2.len() implies d2[k] != '.' by {
        assert(is_digit(d2[k]));
    }
    assert forall|k: int| 0 <= k < d3.len() implies d3[k] != '.' by {
        assert(is_digit(d3[k]));
    }
    assert forall|k: int| 0 <= k < d1.len() implies d1[k] != '.' by {
        assert(is_digit(d1[k]));
    }
    assert(c =~= d1 + seq!['.'] + (d2 + seq!['.'] + d3));
    lemma_split_concat(d1, d2 + seq!['.'] + d3, '.');
    lemma_split_concat(d2, d3, '.');
    lemma_split_whole(d1, '.');
    lemma_split_whole(d2, '.');
    lemma_split_whole(d3, '.');
    let parts = split_on(c, '.');
    assert(parts =~= seq![d1, d2, d3]);
    assert(numeric(d1) == Some(v.major));
    assert(numeric(d2) == Some(v.minor));
    assert(numeric(d3) == Some(v.patch));
    assert(semver_parse(r) == Some(v));
    assert(r[0] == d1[0]);
    assert forall|i: int| 0 <= i < r.len() implies plain_char(#[trigger] r[i]) by {
        if i < cp.len() {
            assert(r[i] == cp[i]);
        } else if i > cp.len() {
            assert(r[i] == jb[i - cp.len() - 1]);
            assert(word(jb[i - cp.len() - 1]));
        }
    }
}

proof fn lemma_digit_len_all(s: Seq<char>)
    requires
        all_digits(s),
    ensures
        digit_len(s) == s.len(),
        digit_run(s) == s,
    decreases s.len(),
{
    if s.len() > 0 {
        assert(is_digit(s[0]));
        assert(all_digits(s.drop_first())) by {
            assert forall|i: int| 0 <= i < s.drop_first().len() implies is_digit(
                #[trigger] s.drop_first()[i],
            ) by {
                assert(s.drop_first()[i] == s[i + 1]);
            }
        }
        lemma_digit_len_all(s.drop_first());
    }
    assert(s.take(s.len() as int) =~= s);
}

fn is_numeric_exec(s: &[char]) -> (r: bool)
    ensures
        r == is_numeric_ident(s@),
{
    if s.len() == 0 {
        return false;
    }
    let mut i: usize = 0;
    while i < s.len()
        invariant
            i <= s@.len(),
            forall|k: int| 0 <= k < i ==> is_digit(#[trigger] s@[k]),
        decreases s@.len() - i,
    {
        if !char_is_digit(s[i]) {
            return false;
        }
        i = i + 1;
    }
    true
}

fn lex_compare(a: &[char], b: &[char]) -> (r: Ordering)
    ensures
        r == ordering_of(lex_cmp(a@, b@)),
{
    let mut i: usize = 0;
    assert(a@.skip(0) =~= a@ && b@.skip(0) =~= b@);
    loop
        invariant
            i <= a@.len(),
            i <= b@.len(),
            lex_cmp(a@, b@) == lex_cmp(a@.skip(i as int), b@.skip(i as int)),
        decreases a@.len() - i,
    {
        if i == a.len() && i == b.len() {
            return Ordering::Equal;
        } else if i == a.len() {
            return Ordering::Less;
        } else if i == b.len() {
            return Ordering::Greater;
        }
        let ca = a[i];
        let cb = b[i];
        assert(a@.skip(i as int)[0] == ca && b@.skip(i as int)[0] == cb);
        if ca != cb {
            return if ca < cb {
                Ordering::Less
            } else {
                Ordering::Greater
            };
        }
        assert(a@.skip(i as int).drop_first() =~= a@.skip(i + 1));
        assert(b@.skip(i as int).drop_first() =~= b@.skip(i + 1));
        i = i + 1;
    }
}

fn ident_compare(a: &[char], b: &[char]) -> (r: Ordering)
    ensures
        r == ordering_of(ident_cmp(a@, b@)),
{
    let na = is_numeric_exec(a);
    let nb = is_numeric_exec(b);
    if na && nb {
        let mut ia: usize = 0;
        let mut ib: usize = 0;
        proof {
            lemma_digit_len_all(a@);
            lemma_digit_len_all(b@);
            assert(a@.skip(0) =~= a@ && b@.skip(0) =~= b@);
        }
        compare_digit_sequence(a, &mut ia, b, &mut ib)
    } else if na {
        Ordering::Less
    } else if nb {
        Ordering::Greater
    } else {
        lex_compare(a, b)
    }
}

fn ids_compare(a: &Vec<Vec<char>>, b: &Vec<Vec<char>>) -> (r: Ordering)
    ensures
        r == ordering_of(ids_cmp(views(a@), views(b@))),
{
    let mut i: usize = 0;
    assert(views(a@).skip(0) =~= views(a@) && views(b@).skip(0) =~= views(b@));
    loop
        invariant
            i <= a@.len(),
            i <= b@.len(),
            ids_cmp(views(a@), views(b@)) == ids_cmp(views(a@).skip(i as int), views(b@).skip(i as int)),
        decreases a@.len() - i,
    {
        if i == a.len() && i == b.len() {
            return Ordering::Equal;
        } else if i == a.len() {
            return Ordering::Less;
        } else if i == b.len() {
            return Ordering::Greater;
        }
        let o = ident_compare(a[i].as_slice(), b[i].as_slice());
        assert(views(a@).skip(i as int)[0] == a@[i as int]@);
        assert(views(b@).skip(i as int)[0] == b@[i as int]@);
        match o {
            Ordering::Equal => {},
            _ => {
                return o;
            },
        }
        assert(views(a@).skip(i as int).drop_first() =~= views(a@).skip(i + 1));
        assert(views(b@).skip(i as int).drop_first() =~= views(b@).skip(i + 1));
        i = i + 1;
    }
}

fn numeric_exec(s: &Vec<char>) -> (r: Option<u64>)
    ensures
        r == numeric(s@),
{
    if s.len() > 1 && s[0] == '0' {
        return None;
    }
    assert(s@.subrange(0, s@.len() as int) =~= s@);
    parse_decimal(s.as_slice(), 0, s.len())
}

/// A pre-release identifier where `pre` holds, else a build identifier.
pub open spec fn ident_ok(s: Seq<char>, pre: bool) -> bool {
    if pre {
        valid_pre_ident(s)
    } else {
        valid_build_ident(s)
    }
}

fn all_valid(ids: &Vec<Vec<char>>, pre: bool) -> (r: bool)
    ensures
        r == forall|i: int| 0 <= i < ids@.len() ==> ident_ok(#[trigger] views(ids@)[i], pre),
{
    let mut i: usize = 0;
    while i < ids.len()
        invariant
            i <= ids@.len(),
            forall|k: int| 0 <= k < i ==> ident_ok(#[trigger] views(ids@)[k], pre),
        decreases ids@.len() - i,
    {
        let id = ids[i].as_slice();
        assert(views(ids@)[i as int] == id@);
        if id.len() == 0 {
            assert(!ident_ok(views(ids@)[i as int], pre));
            return false;
        }
        let mut k: usize = 0;
        while k < id.len()
            invariant
                i < ids@.len(),
                id@ == views(ids@)[i as int],
                k <= id@.len(),
                forall|j: int| 0 <= j < k ==> is_alnum(#[trigger] id@[j]) || id@[j] == '-',
            decreases id@.len() - k,
        {
            if !(char_is_alnum(id[k]) || id[k] == '-') {
                assert(!ident_ok(views(ids@)[i as int], pre));
                return false;
            }
            k = k + 1;
        }
        if pre && id.len() > 1 && id[0] == '0' && is_numeric_exec(id) {
            assert(!ident_ok(views(ids@)[i as int], pre));
            return false;
        }
        assert(ident_ok(views(ids@)[i as int], pre));
        i = i + 1;
    }
    true
}

impl SemVer {
    /// Reads `major.minor.patch[-pre][+build]`; refusals say why.
    pub fn parse_chars(s: &[char]) -> (r: Result<SemVer, String>)
        ensures
            r is Ok <==> semver_parse(s@) is Some,
            r matches Ok(v) ==> semver_parse(s@) == Some(v@),
    {
        proof {
            lemma_first_index_bounds(s@, '+');
        }
        let plus = find_first(s, '+');
        let head = sub_chars(s, 0, plus);
        assert(head@ =~= head_of(s@));
        let build = if plus < s.len() {
            let t = sub_chars(s, plus + 1, s.len());
            split_at(t.as_slice(), '.')
        } else {
            Vec::new()
        };
        assert(views(build@) =~= ids_of(build_text(s@)));
        proof {
            lemma_first_index_bounds(head@, '-');
        }
        let dash = find_first(head.as_slice(), '-');
        let core = sub_chars(head.as_slice(), 0, dash);
        assert(core@ =~= core_of(head_of(s@)));
        let pre = if dash < head.len() {
            let t = sub_chars(head.as_slice(), dash + 1, head.len());
            split_at(t.as_slice(), '.')
        } else {
            Vec::new()
        };
        assert(views(pre@) =~= ids_of(pre_text(head_of(s@))));
        let parts = split_at(core.as_slice(), '.');
        if parts.len() != 3 {
            return Err("expected major.minor.patch".to_string());
        }
        assert(views(parts@)[0] == parts@[0]@ && views(parts@)[1] == parts@[1]@ && views(parts@)[2]
            == parts@[2]@);
        let major = match numeric_exec(&parts[0]) {
            Some(n) => n,
            None => {
                return Err("invalid major version".to_string());
            },
        };
        let minor = match numeric_exec(&parts[1]) {
            Some(n) => n,
            None => {
                return Err("invalid minor version".to_string());
            },
        };
        let patch = match numeric_exec(&parts[2]) {
            Some(n) => n,
            None => {
                return Err("invalid patch version".to_string());
            },
        };
        if !all_valid(&pre, true) {
            proof {
                let i = choose|i: int| 0 <= i < pre@.len() && !ident_ok(#[trigger] views(pre@)[i], true);
                assert(!valid_pre_ident(views(pre@)[i]));
                assert(ids_of(pre_text(head_of(s@)))[i] == views(pre@)[i]);
            }
            return Err("invalid pre-release identifier".to_string());
        }
        if !all_valid(&build, false) {
            proof {
                let i = choose|i: int| 0 <= i < build@.len() && !ident_ok(#[trigger] views(build@)[i], false);
                assert(!valid_build_ident(views(build@)[i]));
                assert(ids_of(build_text(s@))[i] == views(build@)[i]);

            }
            return Err("invalid build identifier".to_string());
        }
        assert forall|i: int| 0 <= i < pre@.len() implies valid_pre_ident(#[trigger] views(pre@)[i]) by {
            assert(ident_ok(views(pre@)[i], true));
        }
        assert forall|i: int| 0 <= i < build@.len() implies valid_build_ident(#[trigger] views(build@)[i]) by {
            assert(ident_ok(views(build@)[i], false));
        }
        Ok(SemVer { major, minor, patch, pre, build })
    }

    /// Reads a semantic version from text; a refusal names the `semver` scheme.
    pub fn parse(s: &str) -> (r: Result<SemVer, VersError>)
        ensures
            r is Ok <==> semver_parse(s@) is Some,
            r matches Ok(v) ==> semver_parse(s@) == Some(v@),
            r matches Err(e) ==> e matches VersError::InvalidVersionFormat(_, text, _) && text@ == s@,
    {
        let cs = chars_of(s);
        match SemVer::parse_chars(cs.as_slice()) {
            Ok(v) => Ok(v),
            Err(reason) => {
                let mut scheme = String::new();
                push_char(&mut scheme, 's');
                push_char(&mut scheme, 'e');
                push_char(&mut scheme, 'm');
                push_char(&mut scheme, 'v');
                push_char(&mut scheme, 'e');
                push_char(&mut scheme, 'r');
                Err(VersError::InvalidVersionFormat(scheme, string_of(cs.as_slice()), reason))
            },
        }
    }

    /// The version's text.
    pub fn to_string(&self) -> (r: String)
        ensures
            r@ == semver_render(self@),
    {
        let mut r = String::new();
        push_chars(&mut r, render_decimal(self.major).as_slice());
        push_char(&mut r, '.');
        push_chars(&mut r, render_decimal(self.minor).as_slice());
        push_char(&mut r, '.');
        push_chars(&mut r, render_decimal(self.patch).as_slice());
        let ghost core = r@;
        if self.pre.len() > 0 {
            push_char(&mut r, '-');
            push_joined(&mut r, &self.pre);
        }
        let ghost with_pre = r@;
        if self.build.len() > 0 {
            push_char(&mut r, '+');
            push_joined(&mut r, &self.build);
        }
        proof {
            let v = self@;
            let pre = if v.pre.len() > 0 { seq!['-'] + join_on(v.pre, '.') } else { Seq::empty() };
            let build = if v.build.len() > 0 { seq!['+'] + join_on(v.build, '.') } else { Seq::empty() };
            assert(with_pre =~= core + pre);
            assert(r@ =~= core + pre + build);
        }
        r
    }

    /// Semantic-versioning precedence; build metadata is ignored.
    pub fn cmp(&self, other: &SemVer) -> (r: Ordering)
        ensures
            r == ordering_of(semver_cmp(self@, other@)),
    {
        if self.major != other.major {
            return compare_u64(self.major, other.major);
        }
        if self.minor != other.minor {
            return compare_u64(self.minor, other.minor);
        }
        if self.patch != other.patch {
            return compare_u64(self.patch, other.patch);
        }
        if self.pre.len() == 0 && other.pre.len() == 0 {
            Ordering::Equal
        } else if self.pre.len() == 0 {
            Ordering::Greater
        } else if other.pre.len() == 0 {
            Ordering::Less
        } else {
            ids_compare(&self.pre, &other.pre)
        }
    }

    pub fn duplicate(&self) -> (r: SemVer)
        ensures
            r@ == self@,
    {
        SemVer {
            major: self.major,
            minor: self.minor,
            patch: self.patch,
            pre: copy_ids(&self.pre),
            build: copy_ids(&self.build),
        }
    }
}

fn copy_ids(ids: &Vec<Vec<char>>) -> (r: Vec<Vec<char>>)
    ensures
        views(r@) == views(ids@),
{
    let mut r: Vec<Vec<char>> = Vec::new();
    let mut i: usize = 0;
    while i < ids.len()
        invariant
            i <= ids@.len(),
            views(r@) == views(ids@).take(i as int),
        decreases ids@.len() - i,
    {
        let c = sub_chars(ids[i].as_slice(), 0, ids[i].len());
        assert(c@ =~= ids@[i as int]@);
        let ghost old_r = r@;
        r.push(c);
        assert(views(r@) =~= views(ids@).take(i + 1)) by {
            assert(views(r@) =~= views(old_r).push(c@));
        }
        i = i + 1;
    }
    assert(views(ids@).take(i as int) =~= views(ids@));
    r
}

impl Default for SemVer {
    /// `0.0.0`.
    fn default() -> (r: SemVer)
        ensures
            r@ == semver_zero(),
    {
        let r = SemVer { major: 0, minor: 0, patch: 0, pre: Vec::new(), build: Vec::new() };
        assert(r@.pre =~= Seq::<Seq<char>>::empty());
        assert(r@.build =~= Seq::<Seq<char>>::empty());
        r
    }
}

impl std::str::FromStr for SemVer {
    type Err = VersError;

    fn from_str(s: &str) -> Result<SemVer, VersError> {
        SemVer::parse(s)
    }
}

impl VersionType for SemVer {
    open spec fn spec_parse(text: Seq<char>) -> Option<SemVerParts> {
        semver_parse(text)
    }

    open spec fn spec_cmp(a: SemVerParts, b: SemVerParts) -> int {
        semver_cmp(a, b)
    }

    open spec fn spec_render(v: SemVerParts) -> Seq<char> {
        semver_render(v)
    }

    open spec fn spec_zero() -> SemVerParts {
        semver_zero()
    }

    open spec fn spec_kind() -> SchemeKind {
        SchemeKind::SemVer
    }

    fn parse_chars(text: &[char]) -> (r: Result<SemVer, String>) {
        SemVer::parse_chars(text)
    }

    fn compare(&self, other: &SemVer) -> (r: Ordering) {
        self.cmp(other)
    }

    fn render(&self) -> (r: String) {
        self.to_string()
    }

    fn zero() -> (r: SemVer) {
        SemVer::default()
    }

    fn duplicate(&self) -> (r: SemVer) {
        SemVer::duplicate(self)
    }

    fn kind() -> (r: SchemeKind) {
        SchemeKind::SemVer
    }

    proof fn lemma_render_parse(text: Seq<char>) {
        lemma_semver_render_parse(text);
    }

    proof fn lemma_cmp_transitive(a: SemVerParts, b: SemVerParts, c: SemVerParts) {
        lemma_semver_cmp_transitive(a, b, c);
    }

    proof fn lemma_cmp_antisymmetric(a: SemVerParts, b: SemVerParts) {
        lemma_ids_cmp_antisymmetric(a.pre, b.pre);
    }
}

} // verus!
