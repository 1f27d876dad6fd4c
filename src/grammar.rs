//! The textual layer of a range specifier: blanks, percent escapes and
//! comparator tokens.
use vstd::prelude::*;
use crate::comparator::Comparator;
use crate::text::{char_is_blank, is_blank, sub_chars};

verus! {

pub open spec fn trim_start(s: Seq<char>) -> Seq<char>
    decreases s.len(),
{
    if s.len() > 0 && is_blank(s[0]) {
        trim_start(s.drop_first())
    } else {
        s
    }
}

pub open spec fn trim_end(s: Seq<char>) -> Seq<char>
    decreases s.len(),
{
    if s.len() > 0 && is_blank(s.last()) {
        trim_end(s.drop_last())
    } else {
        s
    }
}

/// `s` without blanks at either end.
pub open spec fn trim(s: Seq<char>) -> Seq<char> {
    trim_end(trim_start(s))
}

/// `s` without blanks at either end.
pub fn trim_chars(s: &[char]) -> (r: Vec<char>)
    ensures
        r@ == trim(s@),
{
    let n = s.len();
    let mut i: usize = 0;
    assert(s@.skip(0) =~= s@);
    while i < n && char_is_blank(s[i])
        invariant
            n == s@.len(),
            i <= n,
            trim_start(s@) == trim_start(s@.skip(i as int)),
        decreases n - i,
    {
        assert(s@.skip(i as int).drop_first() =~= s@.skip(i + 1));
        i = i + 1;
    }
    let ghost t = s@.skip(i as int);
    assert(trim_start(t) == t);
    let mut j: usize = n;
    assert(t =~= s@.subrange(i as int, j as int));
    while j > i && char_is_blank(s[j - 1])
        invariant
            n == s@.len(),
            i <= j <= n,
            trim(s@) == trim_end(s@.subrange(i as int, j as int)),
        decreases j,
    {
        assert(s@.subrange(i as int, j as int).drop_last() =~= s@.subrange(i as int, j - 1));
        j = j - 1;
    }
    sub_chars(s, i, j)
}

/// The value of a hexadecimal digit.
pub open spec fn hex_value(c: char) -> Option<u32> {
    if '0' <= c && c <= '9' {
        Some((c as u32 - '0' as u32) as u32)
    } else if 'a' <= c && c <= 'f' {
        Some((c as u32 - 'a' as u32 + 10) as u32)
    } else if 'A' <= c && c <= 'F' {
        Some((c as u32 - 'A' as u32 + 10) as u32)
    } else {
        None
    }
}

/// The ASCII character an escape `%hl` stands for, where it stands for one.
pub open spec fn escape_at(s: Seq<char>) -> Option<char> {
    if s.len() >= 3 && s[0] == '%' && hex_value(s[1]) is Some && hex_value(s[2]) is Some
        && hex_value(s[1])->0 * 16 + hex_value(s[2])->0 < 128 {
        Some(((hex_value(s[1])->0 * 16 + hex_value(s[2])->0) as u8) as char)
    } else {
        None
    }
}

/// `s` with every `%hl` escape of an ASCII character replaced by that
/// character; any other `%` stays as it is.
pub open spec fn percent_decode(s: Seq<char>) -> Seq<char>
    decreases s.len(),
{
    if s.len() == 0 {
        s
    } else if escape_at(s) is Some {
        seq![escape_at(s)->0] + percent_decode(s.skip(3))
    } else {
        seq![s[0]] + percent_decode(s.drop_first())
    }
}

fn hex_value_exec(c: char) -> (r: Option<u32>)
    ensures
        r == hex_value(c),
{
    if '0' <= c && c <= '9' {
        Some(c as u32 - '0' as u32)
    } else if 'a' <= c && c <= 'f' {
        Some(c as u32 - 'a' as u32 + 10)
    } else if 'A' <= c && c <= 'F' {
        Some(c as u32 - 'A' as u32 + 10)
    } else {
        None
    }
}

fn escape_at_exec(s: &[char], i: usize) -> (r: Option<char>)
    requires
        i <= s@.len(),
    ensures
        r == escape_at(s@.skip(i as int)),
{
    let ghost t = s@.skip(i as int);
    if s.len() - i >= 3 && s[i] == '%' {
        assert(t[0] == s@[i as int] && t[1] == s@[i + 1] && t[2] == s@[i + 2]);
        match (hex_value_exec(s[i + 1]), hex_value_exec(s[i + 2])) {
            (Some(h), Some(l)) => {
                if h * 16 + l < 128 {
                    Some(((h * 16 + l) as u8) as char)
                } else {
                    None
                }
            },
            _ => None,
        }
    } else {
        None
    }
}

/// Decodes the percent escapes of ASCII characters in `s`.
pub fn decode_percent(s: &[char]) -> (r: Vec<char>)
    ensures
        r@ == percent_decode(s@),
{
    let n = s.len();
    let mut r: Vec<char> = Vec::new();
    let mut i: usize = 0;
    assert(s@.skip(0) =~= s@);
    while i < n
        invariant
            n == s@.len(),
            i <= n,
            r@ + percent_decode(s@.skip(i as int)) == percent_decode(s@),
        decreases n - i,
    {
        let ghost t = s@.skip(i as int);
        match escape_at_exec(s, i) {
            Some(c) => {
                r.push(c);
                assert(t.skip(3) =~= s@.skip(i + 3));
                assert(r@ + percent_decode(s@.skip(i + 3)) =~= r@.drop_last() + percent_decode(t));
                i = i + 3;
            },
            None => {
                r.push(s[i]);
                assert(t[0] == s@[i as int]);
                assert(t.drop_first() =~= s@.skip(i + 1));
                assert(r@ + percent_decode(s@.skip(i + 1)) =~= r@.drop_last() + percent_decode(t));
                i = i + 1;
            },
        }
    }
    assert(s@.skip(n as int) =~= Seq::<char>::empty());
    assert(r@ + Seq::<char>::empty() =~= r@);
    r
}

/// The comparator token at the start of `t` and the text after it; no
/// token means `Equal`. `==` means `Equal`; `<<` and `>>` are Debian's
/// spellings of `<` and `>`.
pub open spec fn split_comparator(t: Seq<char>) -> (Comparator, int) {
    if t.len() >= 2 && t[0] == '>' && t[1] == '=' {
        (Comparator::GreaterThanOrEqual, 2)
    } else if t.len() >= 2 && t[0] == '<' && t[1] == '=' {
        (Comparator::LessThanOrEqual, 2)
    } else if t.len() >= 2 && t[0] == '!' && t[1] == '=' {
        (Comparator::NotEqual, 2)
    } else if t.len() >= 2 && t[0] == '=' && t[1] == '=' {
        (Comparator::Equal, 2)
    } else if t.len() >= 2 && t[0] == '<' && t[1] == '<' {
        (Comparator::LessThan, 2)
    } else if t.len() >= 2 && t[0] == '>' && t[1] == '>' {
        (Comparator::GreaterThan, 2)
    } else if t.len() >= 1 && t[0] == '<' {
        (Comparator::LessThan, 1)
    } else if t.len() >= 1 && t[0] == '>' {
        (Comparator::GreaterThan, 1)
    } else {
        (Comparator::Equal, 0)
    }
}

/// A constraint as written: its comparator and its version text, trimmed
/// and percent-decoded. A lone `*` is `Any`, with `*` as its text.
pub open spec fn raw_constraint(item: Seq<char>) -> (Comparator, Seq<char>) {
    let t = trim(item);
    if t == seq!['*'] {
        (Comparator::Any, t)
    } else {
        let (c, k) = split_comparator(t);
        (c, percent_decode(trim(t.skip(k))))
    }
}

fn split_comparator_exec(t: &[char]) -> (r: (Comparator, usize))
    ensures
        r.0 == split_comparator(t@).0,
        r.1 == split_comparator(t@).1,
{
    let n = t.len();
    if n >= 2 && t[0] == '>' && t[1] == '=' {
        (Comparator::GreaterThanOrEqual, 2)
    } else if n >= 2 && t[0] == '<' && t[1] == '=' {
        (Comparator::LessThanOrEqual, 2)
    } else if n >= 2 && t[0] == '!' && t[1] == '=' {
        (Comparator::NotEqual, 2)
    } else if n >= 2 && t[0] == '=' && t[1] == '=' {
        (Comparator::Equal, 2)
    } else if n >= 2 && t[0] == '<' && t[1] == '<' {
        (Comparator::LessThan, 2)
    } else if n >= 2 && t[0] == '>' && t[1] == '>' {
        (Comparator::GreaterThan, 2)
    } else if n >= 1 && t[0] == '<' {
        (Comparator::LessThan, 1)
    } else if n >= 1 && t[0] == '>' {
        (Comparator::GreaterThan, 1)
    } else {
        (Comparator::Equal, 0)
    }
}

/// Reads one constraint's comparator and version text.
pub fn read_constraint(item: &[char]) -> (r: (Comparator, Vec<char>))
    ensures
        r.0 == raw_constraint(item@).0,
        r.1@ == raw_constraint(item@).1,
{
    let t = trim_chars(item);
    if t.len() == 1 && t[0] == '*' {
        assert(t@ =~= seq!['*']);
        return (Comparator::Any, t);
    }
    assert(t@ != seq!['*']) by {
        if t@ == seq!['*'] {
            assert(t@.len() == 1 && t@[0] == '*');
        }
    }
    let (c, k) = split_comparator_exec(t.as_slice());
    let rest = sub_chars(t.as_slice(), k, t.len());
    assert(rest@ =~= t@.skip(k as int));
    let v = trim_chars(rest.as_slice());
    (c, decode_percent(v.as_slice()))
}

/// Text without blanks at its ends is its own trimmed form.
pub proof fn lemma_trim_fixed(s: Seq<char>)
    requires
        s.len() > 0,
        !is_blank(s[0]),
        !is_blank(s.last()),
    ensures
        trim(s) == s,
{
}

/// Text without `%` is its own decoded form.
pub proof fn lemma_decode_fixed(s: Seq<char>)
    requires
        forall|i: int| 0 <= i < s.len() ==> s[i] != '%',
    ensures
        percent_decode(s) == s,
    decreases s.len(),
{
    if s.len() > 0 {
        let t = s.drop_first();
        assert forall|i: int| 0 <= i < t.len() implies t[i] != '%' by {
            assert(t[i] == s[i + 1]);
        }
        lemma_decode_fixed(t);
        assert(seq![s[0]] + t =~= s);
    }
}

} // verus!
