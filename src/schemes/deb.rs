//! Debian package versions, `[epoch:]upstream[-debian_revision]`, ordered
//! as dpkg orders them.
use vstd::prelude::*;
use std::cmp::Ordering;
use crate::digits::{all_digits, digits_value, pow10, lemma_pow10_pos, lemma_value_bound,
    lemma_value_first_difference, lemma_value_leading_zero, lemma_value_lower};
use crate::constraint::VersionType;
use crate::error::VersError;
use crate::order::{cmp_int, compare_u64, ordering_of};
use crate::registry::SchemeKind;
use crate::digits::{decimal_text, decimal_u64, lemma_decimal_text, parse_decimal,
    render_decimal};
use crate::text::{char_is_alnum, char_is_digit, find_first, find_last, first_index, is_alnum, is_digit,
    last_index, lemma_first_index_bounds, lemma_last_index_bounds, push_char, push_chars, sub_chars,
    string_of, chars_of, lemma_first_index_is, lemma_last_index_is, plain_char, plain_text};

verus! {

/// Length of the leading run of non-digit characters of `s`.
pub open spec fn non_digit_len(s: Seq<char>) -> nat
    decreases s.len(),
{
    if s.len() > 0 && !is_digit(s[0]) {
        1 + non_digit_len(s.drop_first())
    } else {
        0
    }
}

/// Length of the leading run of digits of `s`.
pub open spec fn digit_len(s: Seq<char>) -> nat
    decreases s.len(),
{
    if s.len() > 0 && is_digit(s[0]) {
        1 + digit_len(s.drop_first())
    } else {
        0
    }
}

/// The leading run of digits of `s`.
pub open spec fn digit_run(s: Seq<char>) -> Seq<char> {
    s.take(digit_len(s) as int)
}

/// Where the next character of a non-digit run stands: `~` first, then the
/// end of the run, then every other character by code point.
pub open spec fn run_rank(s: Seq<char>) -> int {
    if s.len() == 0 || is_digit(s[0]) {
        0
    } else if s[0] == '~' {
        -1
    } else {
        s[0] as u32 as int + 1
    }
}

/// Three-way comparison of the leading non-digit runs of `a` and `b`.
pub open spec fn cmp_non_digit(a: Seq<char>, b: Seq<char>) -> int
    decreases a.len(),
{
    let ra = run_rank(a);
    let rb = run_rank(b);
    if ra < rb {
        -1
    } else if ra > rb {
        1
    } else if ra == 0 {
        0
    } else {
        cmp_non_digit(a.drop_first(), b.drop_first())
    }
}

/// Three-way numeric comparison of the leading digit runs of `a` and `b`.
pub open spec fn cmp_digit_runs(a: Seq<char>, b: Seq<char>) -> int {
    cmp_int(digits_value(digit_run(a)) as int, digits_value(digit_run(b)) as int)
}

/// dpkg's comparison of two version parts: non-digit runs and digit runs in
/// turn, starting with a (possibly empty) non-digit run.
pub open spec fn compare_part_spec(a: Seq<char>, b: Seq<char>) -> int
    decreases a.len() + b.len(),
    via compare_part_spec_decreases
{
    let c1 = cmp_non_digit(a, b);
    if c1 != 0 {
        c1
    } else {
        let a1 = a.skip(non_digit_len(a) as int);
        let b1 = b.skip(non_digit_len(b) as int);
        let c2 = cmp_digit_runs(a1, b1);
        if c2 != 0 {
            c2
        } else {
            let a2 = a1.skip(digit_len(a1) as int);
            let b2 = b1.skip(digit_len(b1) as int);
            if a2.len() == 0 && b2.len() == 0 {
                0
            } else {
                compare_part_spec(a2, b2)
            }
        }
    }
}

pub proof fn lemma_run_lens(s: Seq<char>)
    ensures
        non_digit_len(s) <= s.len(),
        digit_len(s) <= s.len(),
        non_digit_len(s) == 0 && digit_len(s) == 0 ==> s.len() == 0,
    decreases s.len(),
{
    if s.len() > 0 {
        lemma_run_lens(s.drop_first());
    }
}

#[via_fn]
proof fn compare_part_spec_decreases(a: Seq<char>, b: Seq<char>) {
    lemma_run_lens(a);
    lemma_run_lens(b);
    let a1 = a.skip(non_digit_len(a) as int);
    let b1 = b.skip(non_digit_len(b) as int);
    lemma_run_lens(a1);
    lemma_run_lens(b1);
    if non_digit_len(a) == 0 && digit_len(a1) == 0 {
        assert(a1 =~= a);
    }
    if non_digit_len(b) == 0 && digit_len(b1) == 0 {
        assert(b1 =~= b);
    }
}

/// The rank of `s[i..]` in a non-digit run.
fn rank_at(s: &[char], i: usize) -> (r: i64)
    requires
        i <= s@.len(),
    ensures
        r == run_rank(s@.skip(i as int)),
{
    if i == s.len() {
        0
    } else {
        let c = s[i];
        if char_is_digit(c) {
            0
        } else if c == '~' {
            -1
        } else {
            c as u32 as i64 + 1
        }
    }
}

/// Compares the non-digit runs that start at `a[*ia]` and `b[*ib]`,
/// character by character with `~` before the end of the run and the end
/// before any other character. Where they are equal, both positions move past
/// their runs.
pub fn compare_non_digit_sequence(a: &[char], ia: &mut usize, b: &[char], ib: &mut usize) -> (r:
    Ordering)
    requires
        *old(ia) <= a@.len(),
        *old(ib) <= b@.len(),
    ensures
        r == ordering_of(cmp_non_digit(a@.skip(*old(ia) as int), b@.skip(*old(ib) as int))),
        *final(ia) <= a@.len(),
        *final(ib) <= b@.len(),
        r == Ordering::Equal ==> *final(ia) == *old(ia) + non_digit_len(a@.skip(*old(ia) as int)),
        r == Ordering::Equal ==> *final(ib) == *old(ib) + non_digit_len(b@.skip(*old(ib) as int)),
{
    let ghost a0 = a@.skip(*ia as int);
    let ghost b0 = b@.skip(*ib as int);
    let ghost ia0 = *ia as int;
    let ghost ib0 = *ib as int;
    let alen = a.len();
    let blen = b.len();
    loop
        invariant
            alen == a@.len(),
            blen == b@.len(),
            ia0 == *old(ia),
            ib0 == *old(ib),
            a0 == a@.skip(ia0),
            b0 == b@.skip(ib0),
            ia0 <= *ia <= a@.len(),
            ib0 <= *ib <= b@.len(),
            cmp_non_digit(a0, b0) == cmp_non_digit(a@.skip(*ia as int), b@.skip(*ib as int)),
            non_digit_len(a0) == (*ia - ia0) + non_digit_len(a@.skip(*ia as int)),
            non_digit_len(b0) == (*ib - ib0) + non_digit_len(b@.skip(*ib as int)),
        decreases a@.len() - *ia,
    {
        let ra = rank_at(a, *ia);
        let rb = rank_at(b, *ib);
        proof {
            let x = a@.skip(*ia as int);
            let y = b@.skip(*ib as int);
            assert(cmp_non_digit(x, y) == if ra < rb {
                -1
            } else if ra > rb {
                1
            } else if ra == 0 {
                0
            } else {
                cmp_non_digit(x.drop_first(), y.drop_first())
            });
            if ra == 0 && rb == 0 {
                assert(non_digit_len(x) == 0);
                assert(non_digit_len(y) == 0);
            }
        }
        if ra < rb {
            assert(cmp_non_digit(a0, b0) == -1);
            return Ordering::Less;
        } else if ra > rb {
            assert(cmp_non_digit(a0, b0) == 1);
            return Ordering::Greater;
        } else if ra == 0 {
            return Ordering::Equal;
        }
        assert(*ia < a@.len() && *ib < b@.len());
        proof {
            assert(a@.skip(*ia as int).drop_first() =~= a@.skip(*ia + 1));
            assert(b@.skip(*ib as int).drop_first() =~= b@.skip(*ib + 1));
        }
        *ia = *ia + 1;
        *ib = *ib + 1;
    }
}

/// Position just past the digit run that starts at `s[i]`.
fn digit_run_end(s: &[char], i: usize) -> (j: usize)
    requires
        i <= s@.len(),
    ensures
        j == i + digit_len(s@.skip(i as int)),
        j <= s@.len(),
        s@.subrange(i as int, j as int) == digit_run(s@.skip(i as int)),
        all_digits(s@.subrange(i as int, j as int)),
{
    let ghost s0 = s@.skip(i as int);
    let mut j: usize = i;
    while j < s.len() && char_is_digit(s[j])
        invariant
            s0 == s@.skip(i as int),
            i <= j <= s@.len(),
            digit_len(s0) == (j - i) + digit_len(s@.skip(j as int)),
            s@.subrange(i as int, j as int) == s0.take(j - i),
            all_digits(s@.subrange(i as int, j as int)),
        decreases s@.len() - j,
    {
        proof {
            assert(s@.skip(j as int).drop_first() =~= s@.skip(j + 1));
            assert(s@.subrange(i as int, j + 1) =~= s0.take(j + 1 - i));
            assert forall|k: int| 0 <= k < j + 1 - i implies is_digit(
                #[trigger] s@.subrange(i as int, j + 1)[k],
            ) by {
                if k < j - i {
                    assert(s@.subrange(i as int, j + 1)[k] == s@.subrange(i as int, j as int)[k]);
                }
            }
        }
        j = j + 1;
    }
    j
}

proof fn lemma_pow10_mono(m: nat, n: nat)
    requires
        m <= n,
    ensures
        pow10(m) <= pow10(n),
    decreases n,
{
    if m < n {
        lemma_pow10_mono(m, (n - 1) as nat);
        lemma_pow10_pos((n - 1) as nat);
    }
}

/// Compares the digit runs that start at `a[*ia]` and `b[*ib]` by the numbers
/// they denote: leading zeros are skipped, then the longer run is the larger,
/// and runs of equal length compare digit by digit. Both positions move past
/// their runs.
pub fn compare_digit_sequence(a: &[char], ia: &mut usize, b: &[char], ib: &mut usize) -> (r:
    Ordering)
    requires
        *old(ia) <= a@.len(),
        *old(ib) <= b@.len(),
    ensures
        r == ordering_of(cmp_digit_runs(a@.skip(*old(ia) as int), b@.skip(*old(ib) as int))),
        *final(ia) == *old(ia) + digit_len(a@.skip(*old(ia) as int)),
        *final(ib) == *old(ib) + digit_len(b@.skip(*old(ib) as int)),
{
    let ghost a0 = a@.skip(*ia as int);
    let ghost b0 = b@.skip(*ib as int);
    let ghost ia0 = *ia as int;
    let ghost ib0 = *ib as int;
    skip_zeros(a, ia);
    skip_zeros(b, ib);
    let sa = *ia;
    let sb = *ib;
    *ia = digit_run_end(a, sa);
    *ib = digit_run_end(b, sb);
    let la = *ia - sa;
    let lb = *ib - sb;
    let ghost ra = a@.subrange(sa as int, *ia as int);
    let ghost rb = b@.subrange(sb as int, *ib as int);
    proof {
        if la > 0 {
            assert(ra[0] == a@.skip(sa as int)[0]);
        }
        if lb > 0 {
            assert(rb[0] == b@.skip(sb as int)[0]);
        }
    }
    if la < lb {
        proof {
            lemma_value_bound(ra);
            lemma_value_lower(rb);
            lemma_pow10_mono(la as nat, (lb - 1) as nat);
        }
        return Ordering::Less;
    }
    if la > lb {
        proof {
            lemma_value_bound(rb);
            lemma_value_lower(ra);
            lemma_pow10_mono(lb as nat, (la - 1) as nat);
        }
        return Ordering::Greater;
    }
    compare_equal_length_runs(a, sa, b, sb, la)
}

/// Compares the digit runs `a[sa..sa + n]` and `b[sb..sb + n]` digit by digit.
fn compare_equal_length_runs(a: &[char], sa: usize, b: &[char], sb: usize, n: usize) -> (r:
    Ordering)
    requires
        sa + n <= a@.len(),
        sb + n <= b@.len(),
        all_digits(a@.subrange(sa as int, sa + n)),
        all_digits(b@.subrange(sb as int, sb + n)),
    ensures
        r == ordering_of(
            cmp_int(
                digits_value(a@.subrange(sa as int, sa + n)) as int,
                digits_value(b@.subrange(sb as int, sb + n)) as int,
            ),
        ),
{
    let ghost ra = a@.subrange(sa as int, sa + n);
    let ghost rb = b@.subrange(sb as int, sb + n);
    let alen = a.len();
    let blen = b.len();
    let mut k: usize = 0;
    while k < n
        invariant
            alen == a@.len(),
            blen == b@.len(),
            k <= n,
            sa + n <= a@.len(),
            sb + n <= b@.len(),
            ra == a@.subrange(sa as int, sa + n),
            rb == b@.subrange(sb as int, sb + n),
            all_digits(ra),
            all_digits(rb),
            ra.subrange(0, k as int) == rb.subrange(0, k as int),
        decreases n - k,
    {
        let ca = a[sa + k];
        let cb = b[sb + k];
        assert(ra[k as int] == ca && rb[k as int] == cb);
        if ca != cb {
            proof {
                assert(is_digit(ca) && is_digit(cb));
            }
            if ca < cb {
                proof {
                    lemma_value_first_difference(ra, rb, k as int);
                }
                return Ordering::Less;
            } else {
                proof {
                    lemma_value_first_difference(rb, ra, k as int);
                }
                return Ordering::Greater;
            }
        }
        proof {
            assert(ra.subrange(0, k + 1) =~= ra.subrange(0, k as int).push(ca));
            assert(rb.subrange(0, k + 1) =~= rb.subrange(0, k as int).push(cb));
        }
        k = k + 1;
    }
    proof {
        assert(ra =~= ra.subrange(0, n as int));
        assert(rb =~= rb.subrange(0, n as int));
    }
    Ordering::Equal
}

/// Moves `*i` past the zeros at the start of the digit run at `s[*i]`; the
/// rest of the run denotes the same number.
fn skip_zeros(s: &[char], i: &mut usize)
    requires
        *old(i) <= s@.len(),
    ensures
        *old(i) <= *final(i) <= s@.len(),
        digit_len(s@.skip(*old(i) as int)) == (*final(i) - *old(i)) + digit_len(s@.skip(*final(i) as int)),
        digits_value(digit_run(s@.skip(*old(i) as int))) == digits_value(digit_run(s@.skip(*final(i) as int))),
        *final(i) < s@.len() ==> s@[*final(i) as int] != '0',
{
    let ghost i0 = *i;
    while *i < s.len() && s[*i] == '0'
        invariant
            i0 <= *i <= s@.len(),
            digit_len(s@.skip(i0 as int)) == (*i - i0) + digit_len(s@.skip(*i as int)),
            digits_value(digit_run(s@.skip(i0 as int))) == digits_value(digit_run(s@.skip(*i as int))),
        decreases s@.len() - *i,
    {
        proof {
            let t = s@.skip(*i as int);
            assert(t.drop_first() =~= s@.skip(*i + 1));
            assert(is_digit(t[0]));
            let r = digit_run(t);
            lemma_run_lens(t);
            assert(r.drop_first() =~= digit_run(t.drop_first()));
            lemma_value_leading_zero(r);
        }
        *i = *i + 1;
    }
}

/// dpkg's comparison of two version parts.
pub fn compare_part(a: &[char], b: &[char]) -> (r: Ordering)
    ensures
        r == ordering_of(compare_part_spec(a@, b@)),
{
    let alen = a.len();
    let blen = b.len();
    let mut ia: usize = 0;
    let mut ib: usize = 0;
    assert(a@.skip(0) =~= a@ && b@.skip(0) =~= b@);
    loop
        invariant
            alen == a@.len(),
            blen == b@.len(),
            ia <= alen,
            ib <= blen,
            compare_part_spec(a@, b@) == compare_part_spec(a@.skip(ia as int), b@.skip(ib as int)),
        decreases (alen - ia) + (blen - ib),
    {
        let ghost x = a@.skip(ia as int);
        let ghost y = b@.skip(ib as int);
        let ghost (ia0, ib0) = (ia, ib);
        let o = compare_non_digit_sequence(a, &mut ia, b, &mut ib);
        match o {
            Ordering::Equal => {},
            _ => {
                return o;
            },
        }
        let ghost (ia1, ib1) = (ia, ib);
        proof {
            assert(x.skip(non_digit_len(x) as int) =~= a@.skip(ia1 as int));
            assert(y.skip(non_digit_len(y) as int) =~= b@.skip(ib1 as int));
        }
        let o = compare_digit_sequence(a, &mut ia, b, &mut ib);
        match o {
            Ordering::Equal => {},
            _ => {
                return o;
            },
        }
        proof {
            let x1 = a@.skip(ia1 as int);
            let y1 = b@.skip(ib1 as int);
            lemma_run_lens(x1);
            lemma_run_lens(y1);
            assert(x1.skip(digit_len(x1) as int) =~= a@.skip(ia as int));
            assert(y1.skip(digit_len(y1) as int) =~= b@.skip(ib as int));
            lemma_run_lens(x);
            lemma_run_lens(y);
            lemma_run_lens(x1);
            lemma_run_lens(y1);
            if ia == ia0 && ib == ib0 {
                assert(x1 =~= x);
                assert(y1 =~= y);
            }
        }
        if ia == alen && ib == blen {
            return Ordering::Equal;
        }
    }
}

/// A Debian version as its three parts.
pub struct DebParts {
    pub epoch: u64,
    pub upstream: Seq<char>,
    pub revision: Seq<char>,
}

/// A Debian package version, `[epoch:]upstream[-debian_revision]`.
#[derive(Clone, Debug, PartialEq, Eq)]
pub struct DebVersion {
    epoch: u64,
    upstream: Vec<char>,
    debian_revision: Vec<char>,
}

impl View for DebVersion {
    type V = DebParts;

    closed spec fn view(&self) -> DebParts {
        DebParts { epoch: self.epoch, upstream: self.upstream@, revision: self.debian_revision@ }
    }
}

/// The revision that takes part in comparisons: an absent one counts as `0`.
pub open spec fn revision_or_zero(r: Seq<char>) -> Seq<char> {
    if r.len() == 0 {
        seq!['0']
    } else {
        r
    }
}

/// Debian's total order: epoch, then upstream version, then revision.
pub open spec fn deb_cmp(a: DebParts, b: DebParts) -> int {
    if a.epoch != b.epoch {
        cmp_int(a.epoch as int, b.epoch as int)
    } else if compare_part_spec(a.upstream, b.upstream) != 0 {
        compare_part_spec(a.upstream, b.upstream)
    } else {
        compare_part_spec(revision_or_zero(a.revision), revision_or_zero(b.revision))
    }
}

pub open spec fn upstream_char(c: char) -> bool {
    is_alnum(c) || c == '.' || c == '+' || c == '-' || c == '~'
}

pub open spec fn revision_char(c: char) -> bool {
    is_alnum(c) || c == '+' || c == '.' || c == '~'
}

/// The text after the epoch separator, or all of `s` where there is none.
pub open spec fn after_epoch(s: Seq<char>) -> Seq<char> {
    let colon = first_index(s, ':');
    if colon < s.len() {
        s.skip(colon + 1)
    } else {
        s
    }
}

pub open spec fn split_upstream(rest: Seq<char>) -> Seq<char> {
    let dash = last_index(rest, '-');
    if dash >= 0 {
        rest.take(dash)
    } else {
        rest
    }
}

pub open spec fn split_revision(rest: Seq<char>) -> Seq<char> {
    let dash = last_index(rest, '-');
    if dash >= 0 {
        rest.skip(dash + 1)
    } else {
        Seq::empty()
    }
}

/// The epoch that `s` states, where it states a well-formed one; 0 where it
/// states none.
pub open spec fn epoch_of(s: Seq<char>) -> Option<u64> {
    let colon = first_index(s, ':');
    if colon < s.len() {
        decimal_u64(s.take(colon))
    } else {
        Some(0)
    }
}

/// What a well-formed Debian version text denotes.
pub open spec fn deb_parse(s: Seq<char>) -> Option<DebParts> {
    let rest = after_epoch(s);
    let up = split_upstream(rest);
    let rev = split_revision(rest);
    if s.len() == 0 || epoch_of(s) is None || (rest.len() > 0 && rest.last() == '-') || up.len() == 0
        || !is_digit(up[0]) || (exists|i: int| 0 <= i < up.len() && !upstream_char(#[trigger] up[i]))
        || (exists|i: int| 0 <= i < rev.len() && !revision_char(#[trigger] rev[i])) {
        None
    } else {
        Some(DebParts { epoch: epoch_of(s)->0, upstream: up, revision: rev })
    }
}

/// The text of a Debian version: the epoch only where it is not 0, the
/// revision only where there is one.
pub open spec fn deb_render(p: DebParts) -> Seq<char> {
    let e = if p.epoch > 0 { decimal_text(p.epoch as nat) + seq![':'] } else { Seq::empty() };
    let r = if p.revision.len() > 0 { seq!['-'] + p.revision } else { Seq::empty() };
    e + p.upstream + r
}

pub proof fn lemma_cmp_non_digit_antisymmetric(a: Seq<char>, b: Seq<char>)
    ensures
        cmp_non_digit(a, b) == -cmp_non_digit(b, a),
        -1 <= cmp_non_digit(a, b) <= 1,
    decreases a.len(),
{
    if run_rank(a) == run_rank(b) && run_rank(a) != 0 {
        lemma_cmp_non_digit_antisymmetric(a.drop_first(), b.drop_first());
    }
}

pub proof fn lemma_compare_part_antisymmetric(a: Seq<char>, b: Seq<char>)
    ensures
        compare_part_spec(a, b) == -compare_part_spec(b, a),
        -1 <= compare_part_spec(a, b) <= 1,
    decreases a.len() + b.len(),
{
    lemma_cmp_non_digit_antisymmetric(a, b);
    if cmp_non_digit(a, b) == 0 {
        lemma_run_lens(a);
        lemma_run_lens(b);
        let a1 = a.skip(non_digit_len(a) as int);
        let b1 = b.skip(non_digit_len(b) as int);
        lemma_run_lens(a1);
        lemma_run_lens(b1);
        if cmp_digit_runs(a1, b1) == 0 {
            let a2 = a1.skip(digit_len(a1) as int);
            let b2 = b1.skip(digit_len(b1) as int);
            if !(a2.len() == 0 && b2.len() == 0) {
                if non_digit_len(a) == 0 && digit_len(a1) == 0 {
                    assert(a1 =~= a);
                }
                if non_digit_len(b) == 0 && digit_len(b1) == 0 {
                    assert(b1 =~= b);
                }
                lemma_compare_part_antisymmetric(a2, b2);
            }
        }
    }
}

proof fn lemma_cmp_non_digit_same_left(a: Seq<char>, b: Seq<char>, c: Seq<char>)
    requires
        cmp_non_digit(a, b) == 0,
    ensures
        cmp_non_digit(a, c) == cmp_non_digit(b, c),
    decreases a.len(),
{
    if run_rank(a) != 0 {
        lemma_cmp_non_digit_same_left(a.drop_first(), b.drop_first(), c.drop_first());
    }
}

proof fn lemma_cmp_non_digit_less(a: Seq<char>, b: Seq<char>, c: Seq<char>)
    requires
        cmp_non_digit(a, b) < 0,
        cmp_non_digit(b, c) < 0,
    ensures
        cmp_non_digit(a, c) < 0,
    decreases a.len(),
{
    if run_rank(a) == run_rank(b) && run_rank(b) == run_rank(c) {
        lemma_cmp_non_digit_less(a.drop_first(), b.drop_first(), c.drop_first());
    }
}

proof fn lemma_compare_part_empty()
    ensures
        compare_part_spec(Seq::empty(), Seq::empty()) == 0,
{
    let e = Seq::<char>::empty();
    assert(e.skip(0) =~= e);
    assert(digit_run(e) =~= e);
    assert(digits_value(e) == 0);
}

/// Where the leading runs tie, the comparison goes on with what follows them.
proof fn lemma_compare_part_step(a: Seq<char>, b: Seq<char>)
    requires
        cmp_non_digit(a, b) == 0,
        cmp_digit_runs(a.skip(non_digit_len(a) as int), b.skip(non_digit_len(b) as int)) == 0,
    ensures
        compare_part_spec(a, b) == compare_part_spec(rest_part(a), rest_part(b)),
{
    lemma_run_lens(a);
    lemma_run_lens(b);
    let a2 = rest_part(a);
    let b2 = rest_part(b);
    if a2.len() == 0 && b2.len() == 0 {
        assert(a2 =~= Seq::<char>::empty() && b2 =~= Seq::<char>::empty());
        lemma_compare_part_empty();
    }
}

/// What follows the leading non-digit run and digit run of `s`.
pub open spec fn rest_part(s: Seq<char>) -> Seq<char> {
    let s1 = s.skip(non_digit_len(s) as int);
    s1.skip(digit_len(s1) as int)
}

proof fn lemma_compare_part_transitive(a: Seq<char>, b: Seq<char>, c: Seq<char>)
    requires
        compare_part_spec(a, b) <= 0,
        compare_part_spec(b, c) <= 0,
    ensures
        compare_part_spec(a, c) <= 0,
    decreases a.len() + b.len() + c.len(),
{
    let nab = cmp_non_digit(a, b);
    let nbc = cmp_non_digit(b, c);
    lemma_cmp_non_digit_antisymmetric(a, b);
    lemma_cmp_non_digit_antisymmetric(b, c);
    lemma_cmp_non_digit_antisymmetric(a, c);
    if nab == 0 {
        lemma_cmp_non_digit_same_left(a, b, c);
    }
    if nbc == 0 {
        lemma_cmp_non_digit_antisymmetric(c, b);
        lemma_cmp_non_digit_same_left(c, b, a);
        lemma_cmp_non_digit_antisymmetric(c, a);
        lemma_cmp_non_digit_antisymmetric(b, a);
    }
    if nab < 0 && nbc < 0 {
        lemma_cmp_non_digit_less(a, b, c);
    }
    if nab == 0 && nbc == 0 {
        lemma_run_lens(a);
        lemma_run_lens(b);
        lemma_run_lens(c);
        let a1 = a.skip(non_digit_len(a) as int);
        let b1 = b.skip(non_digit_len(b) as int);
        let c1 = c.skip(non_digit_len(c) as int);
        lemma_run_lens(a1);
        lemma_run_lens(b1);
        lemma_run_lens(c1);
        if cmp_digit_runs(a1, c1) == 0 {
            assert(cmp_digit_runs(a1, b1) == 0 && cmp_digit_runs(b1, c1) == 0);
            lemma_compare_part_step(a, b);
            lemma_compare_part_step(b, c);
            lemma_compare_part_step(a, c);
            if a.len() + b.len() + c.len() > 0 {
                if non_digit_len(a) == 0 && digit_len(a1) == 0 {
                    assert(a1 =~= a);
                }
                if non_digit_len(b) == 0 && digit_len(b1) == 0 {
                    assert(b1 =~= b);
                }
                if non_digit_len(c) == 0 && digit_len(c1) == 0 {
                    assert(c1 =~= c);
                }
                lemma_compare_part_transitive(rest_part(a), rest_part(b), rest_part(c));
            } else {
                assert(a =~= Seq::<char>::empty() && c =~= Seq::<char>::empty());
                lemma_compare_part_empty();
            }
        }
    }
}

proof fn lemma_compare_part_strict(a: Seq<char>, b: Seq<char>, c: Seq<char>)
    requires
        compare_part_spec(a, b) <= 0,
        compare_part_spec(b, c) <= 0,
        compare_part_spec(a, b) < 0 || compare_part_spec(b, c) < 0,
    ensures
        compare_part_spec(a, c) < 0,
{
    lemma_compare_part_transitive(a, b, c);
    lemma_compare_part_antisymmetric(a, b);
    lemma_compare_part_antisymmetric(b, c);
    lemma_compare_part_antisymmetric(a, c);
    if compare_part_spec(a, c) == 0 {
        if compare_part_spec(a, b) < 0 {
            lemma_compare_part_transitive(b, c, a);
        } else {
            lemma_compare_part_transitive(c, a, b);
        }
    }
}

pub proof fn lemma_deb_cmp_transitive(a: DebParts, b: DebParts, c: DebParts)
    requires
        deb_cmp(a, b) <= 0,
        deb_cmp(b, c) <= 0,
    ensures
        deb_cmp(a, c) <= 0,
{
    if a.epoch == b.epoch && b.epoch == c.epoch {
        let (ua, ub, uc) = (a.upstream, b.upstream, c.upstream);
        lemma_compare_part_antisymmetric(ua, ub);
        lemma_compare_part_antisymmetric(ub, uc);
        lemma_compare_part_antisymmetric(ua, uc);
        lemma_compare_part_transitive(ua, ub, uc);
        if compare_part_spec(ua, ub) < 0 || compare_part_spec(ub, uc) < 0 {
            lemma_compare_part_strict(ua, ub, uc);
        } else {
            lemma_compare_part_transitive(
                revision_or_zero(a.revision),
                revision_or_zero(b.revision),
                revision_or_zero(c.revision),
            );
        }
    }
}

/// A Debian version written back as text reads as the same version, and
/// the text is plain.
pub proof fn lemma_deb_render_parse(t: Seq<char>)
    requires
        deb_parse(t) is Some,
    ensures
        deb_parse(deb_render(deb_parse(t)->0)) == deb_parse(t),
        plain_text(deb_render(deb_parse(t)->0)),
{
    let v = deb_parse(t)->0;
    let rest = after_epoch(t);
    let up = v.upstream;
    let rev = v.revision;
    let e = v.epoch;
    lemma_last_index_bounds(rest, '-');
    lemma_first_index_bounds(t, ':');
    let dash = last_index(rest, '-');
    if rev.len() == 0 {
        if dash >= 0 {
            assert(rest.last() == '-');
        }
        assert(up == rest);
    }
    let rv = if rev.len() > 0 { seq!['-'] + rev } else { Seq::<char>::empty() };
    let tail = up + rv;
    assert(forall|i: int| 0 <= i < up.len() ==> upstream_char(#[trigger] up[i]));
    assert(forall|i: int| 0 <= i < rev.len() ==> revision_char(#[trigger] rev[i]));
    assert forall|i: int| 0 <= i < tail.len() implies plain_char(#[trigger] tail[i]) && tail[i] != ':' by {
        if i < up.len() {
            assert(tail[i] == up[i]);
            assert(upstream_char(up[i]));
        } else if i > up.len() {
            assert(tail[i] == rev[i - up.len() - 1]);
            assert(revision_char(rev[i - up.len() - 1]));
        }
    }
    // The revision is split off at the last hyphen again.
    if rev.len() > 0 {
        assert forall|k: int| up.len() < k < tail.len() implies tail[k] != '-' by {
            assert(tail[k] == rev[k - up.len() - 1]);
            assert(revision_char(rev[k - up.len() - 1]));
        }
        assert(tail[up.len() as int] == '-');
        lemma_last_index_is(tail, '-', up.len() as int);
        assert(tail.take(up.len() as int) =~= up);
        assert(tail.skip(up.len() as int + 1) =~= rev);
        assert(tail.last() == rev.last());
        assert(revision_char(rev[rev.len() - 1]));
    } else {
        assert(tail =~= up);
        assert forall|k: int| -1 < k < tail.len() implies tail[k] != '-' by {
            assert(tail[k] == rest[k]);
        }
        lemma_last_index_is(tail, '-', -1);
    }
    let r = deb_render(v);
    if e > 0 {
        let d = decimal_text(e as nat);
        lemma_decimal_text(e as nat);
        assert(r =~= d + seq![':'] + tail);
        assert forall|k: int| 0 <= k < d.len() implies r[k] != ':' by {
            assert(r[k] == d[k]);
            assert(is_digit(d[k]));
        }
        assert(r[d.len() as int] == ':');
        lemma_first_index_is(r, ':', d.len() as int);
        assert(r.take(d.len() as int) =~= d);
        assert(after_epoch(r) =~= tail);
        assert(decimal_u64(d) == Some(e));
        assert(r[0] == d[0] && is_digit(d[0]));
        assert forall|i: int| 0 <= i < r.len() implies plain_char(#[trigger] r[i]) by {
            if i < d.len() {
                assert(r[i] == d[i]);
                assert(is_digit(d[i]));
            } else if i > d.len() {
                assert(r[i] == tail[i - d.len() - 1]);
            }
        }
    } else {
        assert(r =~= tail);
        lemma_first_index_is(r, ':', r.len() as int);
        assert(after_epoch(r) =~= tail);
        assert(r[0] == up[0]);
    }
    assert(deb_parse(r) == Some(v));
}

pub open spec fn deb_zero() -> DebParts {
    DebParts { epoch: 0, upstream: seq!['0'], revision: Seq::empty() }
}

fn all_upstream_chars(s: &[char]) -> (r: bool)
    ensures
        r == forall|i: int| 0 <= i < s@.len() ==> upstream_char(#[trigger] s@[i]),
{
    let mut i: usize = 0;
    while i < s.len()
        invariant
            i <= s@.len(),
            forall|k: int| 0 <= k < i ==> upstream_char(#[trigger] s@[k]),
        decreases s@.len() - i,
    {
        let c = s[i];
        if !(char_is_alnum(c) || c == '.' || c == '+' || c == '-' || c == '~') {
            return false;
        }
        i = i + 1;
    }
    true
}

fn all_revision_chars(s: &[char]) -> (r: bool)
    ensures
        r == forall|i: int| 0 <= i < s@.len() ==> revision_char(#[trigger] s@[i]),
{
    let mut i: usize = 0;
    while i < s.len()
        invariant
            i <= s@.len(),
            forall|k: int| 0 <= k < i ==> revision_char(#[trigger] s@[k]),
        decreases s@.len() - i,
    {
        let c = s[i];
        if !(char_is_alnum(c) || c == '+' || c == '.' || c == '~') {
            return false;
        }
        i = i + 1;
    }
    true
}

impl DebVersion {
    /// Reads `[epoch:]upstream[-debian_revision]`. The epoch is decimal and
    /// fits in 64 bits; the revision follows the last `-`; the upstream
    /// version starts with a digit and holds letters, digits and `. + - ~`;
    /// the revision holds letters, digits and `+ . ~`. Refusals say why.
    pub fn parse_chars(s: &[char]) -> (r: Result<DebVersion, String>)
        ensures
            r is Ok <==> deb_parse(s@) is Some,
            r matches Ok(v) ==> deb_parse(s@) == Some(v@),
    {
        if s.len() == 0 {
            return Err("empty".to_string());
        }
        let colon = find_first(s, ':');
        proof {
            lemma_first_index_bounds(s@, ':');
        }
        let mut epoch: u64 = 0;
        let mut start: usize = 0;
        if colon < s.len() {
            match parse_decimal(s, 0, colon) {
                None => {
                    return Err("invalid epoch".to_string());
                },
                Some(e) => {
                    epoch = e;
                },
            }
            start = colon + 1;
        }
        let rest = sub_chars(s, start, s.len());
        assert(rest@ =~= after_epoch(s@));
        if rest.len() > 0 && rest[rest.len() - 1] == '-' {
            return Err("trailing '-' with empty debian_revision".to_string());
        }
        let dash = find_last(rest.as_slice(), '-');
        proof {
            lemma_last_index_bounds(rest@, '-');
        }
        let (upstream, debian_revision) = match dash {
            Some(d) => (sub_chars(rest.as_slice(), 0, d), sub_chars(rest.as_slice(), d + 1, rest.len())),
            None => (rest, Vec::new()),
        };
        assert(upstream@ =~= split_upstream(after_epoch(s@)));
        assert(debian_revision@ =~= split_revision(after_epoch(s@)));
        if upstream.len() == 0 {
            return Err("missing upstream_version".to_string());
        }
        if !char_is_digit(upstream[0]) {
            return Err("upstream_version must start with a digit".to_string());
        }
        if !all_upstream_chars(upstream.as_slice()) {
            return Err("invalid character in upstream_version".to_string());
        }
        if !all_revision_chars(debian_revision.as_slice()) {
            return Err("invalid character in debian_revision".to_string());
        }
        Ok(DebVersion { epoch, upstream, debian_revision })
    }

    /// Reads a Debian version from text.
    pub fn parse(s: &str) -> (r: Result<DebVersion, VersError>)
        ensures
            r is Ok <==> deb_parse(s@) is Some,
            r matches Ok(v) ==> deb_parse(s@) == Some(v@),
            r matches Err(e) ==> e matches VersError::InvalidVersionFormat(scheme, text, _) && scheme@
                == seq!['d', 'e', 'b'] && text@ == s@,
    {
        let cs = chars_of(s);
        match DebVersion::parse_chars(cs.as_slice()) {
            Ok(v) => Ok(v),
            Err(reason) => {
                let mut scheme = String::new();
                push_char(&mut scheme, 'd');
                push_char(&mut scheme, 'e');
                push_char(&mut scheme, 'b');
                assert(scheme@ =~= seq!['d', 'e', 'b']);
                Err(VersError::InvalidVersionFormat(scheme, string_of(cs.as_slice()), reason))
            },
        }
    }

    /// The version's text: the epoch only where it is not 0, the revision
    /// only where there is one.
    pub fn to_string(&self) -> (r: String)
        ensures
            r@ == deb_render(self@),
    {
        let mut r = String::new();
        if self.epoch > 0 {
            let e = render_decimal(self.epoch);
            push_chars(&mut r, e.as_slice());
            push_char(&mut r, ':');
        }
        push_chars(&mut r, self.upstream.as_slice());
        if self.debian_revision.len() > 0 {
            push_char(&mut r, '-');
            push_chars(&mut r, self.debian_revision.as_slice());
        }
        assert(r@ =~= deb_render(self@));
        r
    }

    /// Debian's order: epoch, then upstream version, then revision, where an
    /// absent revision counts as `0`.
    pub fn cmp(&self, other: &DebVersion) -> (r: Ordering)
        ensures
            r == ordering_of(deb_cmp(self@, other@)),
    {
        if self.epoch != other.epoch {
            return compare_u64(self.epoch, other.epoch);
        }
        let o = compare_part(self.upstream.as_slice(), other.upstream.as_slice());
        match o {
            Ordering::Equal => {},
            _ => {
                return o;
            },
        }
        let ra = revision_or_zero_exec(&self.debian_revision);
        let rb = revision_or_zero_exec(&other.debian_revision);
        compare_part(ra.as_slice(), rb.as_slice())
    }

    pub fn duplicate(&self) -> (r: DebVersion)
        ensures
            r@ == self@,
    {
        let upstream = sub_chars(self.upstream.as_slice(), 0, self.upstream.len());
        let debian_revision = sub_chars(
            self.debian_revision.as_slice(),
            0,
            self.debian_revision.len(),
        );
        assert(upstream@ =~= self.upstream@);
        assert(debian_revision@ =~= self.debian_revision@);
        DebVersion { epoch: self.epoch, upstream, debian_revision }
    }
}

fn revision_or_zero_exec(r: &Vec<char>) -> (z: Vec<char>)
    ensures
        z@ == revision_or_zero(r@),
{
    if r.len() == 0 {
        let mut z: Vec<char> = Vec::new();
        z.push('0');
        assert(z@ =~= seq!['0']);
        z
    } else {
        sub_chars(r.as_slice(), 0, r.len())
    }
}

impl Default for DebVersion {
    /// Epoch 0, upstream `0`, no revision: the least usual version.
    fn default() -> (r: DebVersion)
        ensures
            r@ == deb_zero(),
    {
        let mut upstream: Vec<char> = Vec::new();
        upstream.push('0');
        assert(upstream@ =~= seq!['0']);
        DebVersion { epoch: 0, upstream, debian_revision: Vec::new() }
    }
}

impl PartialOrd for DebVersion {
    fn partial_cmp(&self, other: &DebVersion) -> (r: Option<Ordering>) {
        Some(self.cmp(other))
    }
}

impl vstd::std_specs::cmp::PartialOrdSpecImpl for DebVersion {
    open spec fn obeys_partial_cmp_spec() -> bool {
        true
    }

    open spec fn partial_cmp_spec(&self, other: &DebVersion) -> Option<Ordering> {
        Some(ordering_of(deb_cmp(self@, other@)))
    }
}

impl std::str::FromStr for DebVersion {
    type Err = VersError;

    fn from_str(s: &str) -> Result<DebVersion, VersError> {
        DebVersion::parse(s)
    }
}

impl VersionType for DebVersion {
    open spec fn spec_parse(text: Seq<char>) -> Option<DebParts> {
        deb_parse(text)
    }

    open spec fn spec_cmp(a: DebParts, b: DebParts) -> int {
        deb_cmp(a, b)
    }

    open spec fn spec_render(v: DebParts) -> Seq<char> {
        deb_render(v)
    }

    open spec fn spec_zero() -> DebParts {
        deb_zero()
    }

    open spec fn spec_kind() -> SchemeKind {
        SchemeKind::Deb
    }

    fn parse_chars(text: &[char]) -> (r: Result<DebVersion, String>) {
        DebVersion::parse_chars(text)
    }

    fn compare(&self, other: &DebVersion) -> (r: Ordering) {
        self.cmp(other)
    }

    fn render(&self) -> (r: String) {
        self.to_string()
    }

    fn zero() -> (r: DebVersion) {
        DebVersion::default()
    }

    fn duplicate(&self) -> (r: DebVersion) {
        DebVersion::duplicate(self)
    }

    fn kind() -> (r: SchemeKind) {
        SchemeKind::Deb
    }

    proof fn lemma_render_parse(text: Seq<char>) {
        lemma_deb_render_parse(text);
    }

    proof fn lemma_cmp_transitive(a: DebParts, b: DebParts, c: DebParts) {
        lemma_deb_cmp_transitive(a, b, c);
    }

    proof fn lemma_cmp_antisymmetric(a: DebParts, b: DebParts) {
        lemma_compare_part_antisymmetric(a.upstream, b.upstream);
        lemma_compare_part_antisymmetric(revision_or_zero(a.revision), revision_or_zero(b.revision));
    }
}

} // verus!
