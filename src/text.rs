//! Character-level helpers shared by the parsers and renderers.
use vstd::prelude::*;

verus! {

/// An ASCII decimal digit.
pub open spec fn is_digit(c: char) -> bool {
    '0' <= c && c <= '9'
}

/// An ASCII letter or digit.
pub open spec fn is_alnum(c: char) -> bool {
    is_digit(c) || ('a' <= c && c <= 'z') || ('A' <= c && c <= 'Z')
}

/// The characters treated as blank around a specifier and its constraints.
pub open spec fn is_blank(c: char) -> bool {
    c == ' ' || c == '\t' || c == '\n' || c == '\r'
}

pub fn char_is_digit(c: char) -> (r: bool)
    ensures
        r == is_digit(c),
{
    '0' <= c && c <= '9'
}

pub fn char_is_alnum(c: char) -> (r: bool)
    ensures
        r == is_alnum(c),
{
    ('0' <= c && c <= '9') || ('a' <= c && c <= 'z') || ('A' <= c && c <= 'Z')
}

pub fn char_is_blank(c: char) -> (r: bool)
    ensures
        r == is_blank(c),
{
    c == ' ' || c == '\t' || c == '\n' || c == '\r'
}

/// The characters of `s`, in order.
pub fn chars_of(s: &str) -> (r: Vec<char>)
    ensures
        r@ == s@,
{
    let n = s.unicode_len();
    let mut r: Vec<char> = Vec::new();
    let mut i: usize = 0;
    while i < n
        invariant
            n == s@.len(),
            i <= n,
            r@ == s@.subrange(0, i as int),
        decreases n - i,
    {
        r.push(s.get_char(i));
        i = i + 1;
    }
    r
}

/// Index of the first `c` in `s`, or `s.len()` where there is none.
pub open spec fn first_index(s: Seq<char>, c: char) -> int
    decreases s.len(),
{
    if s.len() == 0 {
        0
    } else if s[0] == c {
        0
    } else {
        1 + first_index(s.drop_first(), c)
    }
}

/// Index of the last `c` in `s`, or -1 where there is none.
pub open spec fn last_index(s: Seq<char>, c: char) -> int
    decreases s.len(),
{
    if s.len() == 0 {
        -1
    } else if s.last() == c {
        s.len() - 1
    } else {
        last_index(s.drop_last(), c)
    }
}

pub proof fn lemma_first_index_bounds(s: Seq<char>, c: char)
    ensures
        0 <= first_index(s, c) <= s.len(),
        first_index(s, c) < s.len() ==> s[first_index(s, c)] == c,
        forall|k: int| 0 <= k < first_index(s, c) ==> s[k] != c,
    decreases s.len(),
{
    if s.len() > 0 && s[0] != c {
        lemma_first_index_bounds(s.drop_first(), c);
        assert forall|k: int| 0 <= k < first_index(s, c) implies s[k] != c by {
            if k > 0 {
                assert(s[k] == s.drop_first()[k - 1]);
            }
        }
    }
}

pub proof fn lemma_last_index_bounds(s: Seq<char>, c: char)
    ensures
        -1 <= last_index(s, c) < s.len(),
        last_index(s, c) >= 0 ==> s[last_index(s, c)] == c,
        forall|k: int| last_index(s, c) < k < s.len() ==> s[k] != c,
    decreases s.len(),
{
    if s.len() > 0 && s.last() != c {
        lemma_last_index_bounds(s.drop_last(), c);
        assert forall|k: int| last_index(s, c) < k < s.len() implies s[k] != c by {
            if k < s.len() - 1 {
                assert(s[k] == s.drop_last()[k]);
            }
        }
    }
}

/// Position of the first `c` in `s`, or `s.len()`.
pub fn find_first(s: &[char], c: char) -> (r: usize)
    ensures
        r == first_index(s@, c),
{
    let n = s.len();
    let mut i: usize = 0;
    assert(s@.skip(0) =~= s@);
    while i < n && s[i] != c
        invariant
            n == s@.len(),
            i <= n,
            first_index(s@, c) == i + first_index(s@.skip(i as int), c),
        decreases n - i,
    {
        assert(s@.skip(i as int).drop_first() =~= s@.skip(i + 1));
        i = i + 1;
    }
    i
}

/// Position of the last `c` in `s`, if any.
pub fn find_last(s: &[char], c: char) -> (r: Option<usize>)
    ensures
        r is Some <==> last_index(s@, c) >= 0,
        r matches Some(i) ==> i == last_index(s@, c),
{
    let mut i: usize = s.len();
    assert(s@.take(i as int) =~= s@);
    while i > 0 && s[i - 1] != c
        invariant
            i <= s@.len(),
            last_index(s@, c) == last_index(s@.take(i as int), c),
        decreases i,
    {
        assert(s@.take(i as int).drop_last() =~= s@.take(i - 1));
        i = i - 1;
    }
    if i == 0 {
        None
    } else {
        Some(i - 1)
    }
}

/// Relies on `String::push`: appends one character.
#[verifier::external_body]
pub fn push_char(s: &mut String, c: char)
    ensures
        final(s)@ == old(s)@.push(c),
{
    s.push(c);
}

/// Appends the characters of `cs` to `s`.
pub fn push_chars(s: &mut String, cs: &[char])
    ensures
        final(s)@ == old(s)@ + cs@,
{
    let n = cs.len();
    let mut i: usize = 0;
    while i < n
        invariant
            n == cs@.len(),
            i <= n,
            s@ == old(s)@ + cs@.take(i as int),
        decreases n - i,
    {
        push_char(s, cs[i]);
        assert(cs@.take(i + 1) =~= cs@.take(i as int).push(cs@[i as int]));
        i = i + 1;
    }
    assert(cs@.take(n as int) =~= cs@);
}

/// A `String` holding the characters of `cs`.
pub fn string_of(cs: &[char]) -> (r: String)
    ensures
        r@ == cs@,
{
    let mut r = String::new();
    push_chars(&mut r, cs);
    assert(Seq::<char>::empty() + cs@ =~= cs@);
    r
}

/// A copy of `s[from..to]`.
pub fn sub_chars(s: &[char], from: usize, to: usize) -> (r: Vec<char>)
    requires
        from <= to <= s@.len(),
    ensures
        r@ == s@.subrange(from as int, to as int),
{
    let mut r: Vec<char> = Vec::new();
    let mut i: usize = from;
    while i < to
        invariant
            from <= i <= to <= s@.len(),
            r@ == s@.subrange(from as int, i as int),
        decreases to - i,
    {
        r.push(s[i]);
        assert(s@.subrange(from as int, i + 1) =~= s@.subrange(from as int, i as int).push(s@[i as int]));
        i = i + 1;
    }
    r
}

pub proof fn lemma_first_index_is(s: Seq<char>, c: char, j: int)
    requires
        0 <= j <= s.len(),
        j < s.len() ==> s[j] == c,
        forall|k: int| 0 <= k < j ==> s[k] != c,
    ensures
        first_index(s, c) == j,
    decreases s.len(),
{
    if s.len() > 0 && j > 0 {
        assert forall|k: int| 0 <= k < j - 1 implies s.drop_first()[k] != c by {
            assert(s.drop_first()[k] == s[k + 1]);
        }
        lemma_first_index_is(s.drop_first(), c, j - 1);
    }
}

/// The pieces of `s` between occurrences of `sep`; one piece where there is none.
pub open spec fn split_on(s: Seq<char>, sep: char) -> Seq<Seq<char>>
    decreases s.len(),
{
    let i = first_index(s, sep);
    if i >= s.len() || i < 0 {
        seq![s]
    } else {
        seq![s.take(i)] + split_on(s.skip(i + 1), sep)
    }
}

/// The pieces joined with `sep`.
pub open spec fn join_on(ids: Seq<Seq<char>>, sep: char) -> Seq<char>
    decreases ids.len(),
{
    if ids.len() == 0 {
        Seq::empty()
    } else if ids.len() == 1 {
        ids[0]
    } else {
        join_on(ids.drop_last(), sep) + seq![sep] + ids.last()
    }
}

/// The views of a sequence of character vectors.
pub open spec fn views(v: Seq<Vec<char>>) -> Seq<Seq<char>> {
    v.map_values(|x: Vec<char>| x@)
}

/// Splits `s` at every `sep`.
pub fn split_at(s: &[char], sep: char) -> (r: Vec<Vec<char>>)
    ensures
        views(r@) == split_on(s@, sep),
{
    let n = s.len();
    let mut r: Vec<Vec<char>> = Vec::new();
    let mut start: usize = 0;
    let mut i: usize = 0;
    assert(s@.subrange(0, n as int) =~= s@);
    while i < n
        invariant
            n == s@.len(),
            start <= i <= n,
            views(r@) + split_on(s@.subrange(start as int, n as int), sep) == split_on(s@, sep),
            forall|k: int| start <= k < i ==> s@[k] != sep,
        decreases n - i,
    {
        if s[i] == sep {
            let ghost t = s@.subrange(start as int, n as int);
            proof {
                assert forall|k: int| 0 <= k < i - start implies t[k] != sep by {
                    assert(t[k] == s@[start + k]);
                }
                lemma_first_index_is(t, sep, i - start);
                assert(t.take(i - start) =~= s@.subrange(start as int, i as int));
                assert(t.skip(i - start + 1) =~= s@.subrange(i + 1, n as int));
            }
            let piece = sub_chars(s, start, i);
            let ghost old_r = r@;
            r.push(piece);
            proof {
                assert(views(r@) =~= views(old_r).push(piece@));
                assert(split_on(t, sep) == seq![piece@] + split_on(s@.subrange(i + 1, n as int), sep));
                assert(views(old_r) + split_on(t, sep) =~= views(r@) + split_on(
                    s@.subrange(i + 1, n as int),
                    sep,
                ));
            }
            start = i + 1;
        }
        i = i + 1;
    }
    let ghost t = s@.subrange(start as int, n as int);
    proof {
        assert forall|k: int| 0 <= k < t.len() implies t[k] != sep by {
            assert(t[k] == s@[start + k]);
        }
        lemma_first_index_is(t, sep, t.len() as int);
    }
    let piece = sub_chars(s, start, n);
    let ghost old_r = r@;
    r.push(piece);
    proof {
        assert(views(r@) =~= views(old_r).push(piece@));
        assert(views(r@) =~= views(old_r) + split_on(t, sep));
    }
    r
}

/// Appends the pieces, joined with dots, to `s`.
pub fn push_joined(s: &mut String, ids: &Vec<Vec<char>>)
    ensures
        final(s)@ == old(s)@ + join_on(views(ids@), '.'),
{
    let n = ids.len();
    let mut i: usize = 0;
    assert(views(ids@).take(0) =~= Seq::<Seq<char>>::empty());
    while i < n
        invariant
            n == ids@.len(),
            i <= n,
            s@ == old(s)@ + join_on(views(ids@).take(i as int), '.'),
        decreases n - i,
    {
        let ghost before = s@;
        let ghost t = views(ids@).take(i + 1);
        assert(t.drop_last() =~= views(ids@).take(i as int));
        assert(t.last() == ids@[i as int]@);
        if i > 0 {
            push_char(s, '.');
        }
        push_chars(s, ids[i].as_slice());
        proof {
            if i == 0 {
                assert(t =~= seq![ids@[0]@]);
                assert(join_on(views(ids@).take(0), '.') =~= Seq::<char>::empty());
                assert(s@ =~= old(s)@ + join_on(t, '.'));
            } else {
                assert(s@ =~= old(s)@ + join_on(t, '.'));
            }
        }
        i = i + 1;
    }
    assert(views(ids@).take(n as int) =~= views(ids@));
}

/// Whether `a` and `b` hold the same characters.
pub fn chars_equal(a: &[char], b: &[char]) -> (r: bool)
    ensures
        r == (a@ == b@),
{
    if a.len() != b.len() {
        return false;
    }
    let mut i: usize = 0;
    while i < a.len()
        invariant
            a@.len() == b@.len(),
            i <= a@.len(),
            a@.take(i as int) == b@.take(i as int),
        decreases a@.len() - i,
    {
        if a[i] != b[i] {
            return false;
        }
        assert(a@.take(i + 1) =~= a@.take(i as int).push(a@[i as int]));
        assert(b@.take(i + 1) =~= b@.take(i as int).push(b@[i as int]));
        i = i + 1;
    }
    assert(a@ =~= a@.take(i as int));
    assert(b@ =~= b@.take(i as int));
    true
}

/// Where `s` holds no `sep`, splitting gives it back whole.
pub proof fn lemma_split_whole(s: Seq<char>, sep: char)
    requires
        forall|i: int| 0 <= i < s.len() ==> s[i] != sep,
    ensures
        split_on(s, sep) == seq![s],
{
    lemma_first_index_is(s, sep, s.len() as int);
}

/// Splitting distributes over a separator between two texts.
pub proof fn lemma_split_concat(x: Seq<char>, y: Seq<char>, sep: char)
    ensures
        split_on(x + seq![sep] + y, sep) == split_on(x, sep) + split_on(y, sep),
    decreases x.len(),
{
    let z = x + seq![sep] + y;
    lemma_first_index_bounds(x, sep);
    let i = first_index(x, sep);
    if i == x.len() {
        assert forall|k: int| 0 <= k < i implies z[k] != sep by {
            assert(z[k] == x[k]);
        }
        lemma_first_index_is(z, sep, i);
        assert(z.take(i) =~= x);
        assert(z.skip(i + 1) =~= y);
        lemma_split_whole(x, sep);
    } else {
        assert forall|k: int| 0 <= k < i implies z[k] != sep by {
            assert(z[k] == x[k]);
        }
        assert(z[i] == x[i]);
        lemma_first_index_is(z, sep, i);
        let x1 = x.skip(i + 1);
        assert(z.take(i) =~= x.take(i));
        assert(z.skip(i + 1) =~= x1 + seq![sep] + y);
        lemma_split_concat(x1, y, sep);
        assert(split_on(z, sep) =~= split_on(x, sep) + split_on(y, sep));
    }
}

/// Splitting a joined list gives the list back, where no piece holds the
/// separator.
pub proof fn lemma_split_join(ids: Seq<Seq<char>>, sep: char)
    requires
        ids.len() > 0,
        forall|i: int, k: int| 0 <= i < ids.len() && 0 <= k < ids[i].len() ==> ids[i][k] != sep,
    ensures
        split_on(join_on(ids, sep), sep) == ids,
    decreases ids.len(),
{
    if ids.len() == 1 {
        lemma_split_whole(ids[0], sep);
        assert(seq![ids[0]] =~= ids);
    } else {
        let p = ids.drop_last();
        assert forall|i: int, k: int| 0 <= i < p.len() && 0 <= k < p[i].len() implies p[i][k] != sep by {
            assert(p[i] == ids[i]);
        }
        lemma_split_join(p, sep);
        lemma_split_concat(join_on(p, sep), ids.last(), sep);
        assert forall|k: int| 0 <= k < ids.last().len() implies ids.last()[k] != sep by {
            assert(ids.last() == ids[ids.len() - 1]);
        }
        lemma_split_whole(ids.last(), sep);
        assert(p + seq![ids.last()] =~= ids);
    }
}

/// Every character of a joined list is the separator or a character of a
/// piece; so a property that they all have, the joined text has.
pub proof fn lemma_join_chars(ids: Seq<Seq<char>>, sep: char, p: spec_fn(char) -> bool)
    requires
        p(sep),
        forall|i: int, k: int| 0 <= i < ids.len() && 0 <= k < ids[i].len() ==> p(ids[i][k]),
    ensures
        forall|k: int| 0 <= k < join_on(ids, sep).len() ==> p(#[trigger] join_on(ids, sep)[k]),
    decreases ids.len(),
{
    if ids.len() == 1 {
        assert forall|k: int| 0 <= k < join_on(ids, sep).len() implies p(
            #[trigger] join_on(ids, sep)[k],
        ) by {
            assert(join_on(ids, sep)[k] == ids[0][k]);
        }
    } else if ids.len() > 1 {
        let q = ids.drop_last();
        assert forall|i: int, k: int| 0 <= i < q.len() && 0 <= k < q[i].len() implies p(q[i][k]) by {
            assert(q[i] == ids[i]);
        }
        lemma_join_chars(q, sep, p);
        let j = join_on(q, sep);
        let l = ids.last();
        assert forall|k: int| 0 <= k < join_on(ids, sep).len() implies p(
            #[trigger] join_on(ids, sep)[k],
        ) by {
            let z = join_on(ids, sep);
            assert(z == j + seq![sep] + l);
            if k < j.len() {
                assert(z[k] == j[k]);
            } else if k == j.len() {
                assert(z[k] == sep);
            } else {
                assert(z[k] == l[k - j.len() - 1]);
                assert(l == ids[ids.len() - 1]);
            }
        }
    }
}

pub proof fn lemma_last_index_is(s: Seq<char>, c: char, j: int)
    requires
        -1 <= j < s.len(),
        j >= 0 ==> s[j] == c,
        forall|k: int| j < k < s.len() ==> s[k] != c,
    ensures
        last_index(s, c) == j,
    decreases s.len(),
{
    if s.len() > 0 && j < s.len() - 1 {
        let p = s.drop_last();
        assert forall|k: int| j < k < p.len() implies p[k] != c by {
            assert(p[k] == s[k]);
        }
        if j >= 0 {
            assert(p[j] == s[j]);
        }
        lemma_last_index_is(p, c, j);
    }
}

/// The characters a written version is made of.
pub open spec fn plain_char(c: char) -> bool {
    is_alnum(c) || c == '.' || c == '+' || c == '-' || c == '~' || c == ':'
}

/// A written version: it starts with a digit and holds only plain characters.
pub open spec fn plain_text(t: Seq<char>) -> bool {
    t.len() > 0 && is_digit(t[0]) && forall|i: int| 0 <= i < t.len() ==> plain_char(#[trigger] t[i])
}

} // verus!
