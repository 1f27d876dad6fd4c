//! Decimal digit runs: their numeric value and how runs compare.
use vstd::prelude::*;
use crate::text::{is_digit, char_is_digit};

verus! {

pub open spec fn digit_of(c: char) -> nat {
    (c as u32 - '0' as u32) as nat
}

pub open spec fn pow10(n: nat) -> nat
    decreases n,
{
    if n == 0 {
        1
    } else {
        10 * pow10((n - 1) as nat)
    }
}

/// Every character of `s` is a decimal digit.
pub open spec fn all_digits(s: Seq<char>) -> bool {
    forall|i: int| 0 <= i < s.len() ==> is_digit(#[trigger] s[i])
}

/// The number that a run of decimal digits denotes (zero for the empty run).
pub open spec fn digits_value(s: Seq<char>) -> nat
    decreases s.len(),
{
    if s.len() == 0 {
        0
    } else {
        digits_value(s.drop_last()) * 10 + digit_of(s.last())
    }
}

pub proof fn lemma_pow10_pos(n: nat)
    ensures
        pow10(n) >= 1,
    decreases n,
{
    if n > 0 {
        lemma_pow10_pos((n - 1) as nat);
    }
}

/// A run of `n` digits denotes less than `10^n`.
pub proof fn lemma_value_bound(s: Seq<char>)
    requires
        all_digits(s),
    ensures
        digits_value(s) < pow10(s.len()),
    decreases s.len(),
{
    if s.len() > 0 {
        let p = s.drop_last();
        assert(is_digit(s[s.len() - 1]));
        lemma_value_bound(p);
        assert(digits_value(s) < pow10(s.len())) by (nonlinear_arith)
            requires
                digits_value(s) == digits_value(p) * 10 + digit_of(s.last()),
                digits_value(p) < pow10(p.len()),
                digit_of(s.last()) <= 9,
                pow10(s.len()) == 10 * pow10(p.len()),
        ;
    }
}

/// Splitting a run: the value of `x + y` is `x` shifted by `|y|` digits plus `y`.
pub proof fn lemma_value_concat(x: Seq<char>, y: Seq<char>)
    ensures
        digits_value(x + y) == digits_value(x) * pow10(y.len()) + digits_value(y),
    decreases y.len(),
{
    if y.len() == 0 {
        assert(x + y =~= x);
        assert(pow10(0) == 1);
        assert(digits_value(y) == 0);
    } else {
        let y0 = y.drop_last();
        assert((x + y).drop_last() =~= x + y0);
        assert((x + y).last() == y.last());
        lemma_value_concat(x, y0);
        let vx = digits_value(x);
        let p = pow10(y0.len());
        assert(digits_value(x + y) == (vx * p + digits_value(y0)) * 10 + digit_of(y.last()));
        assert(pow10(y.len()) == 10 * p);
        assert(digits_value(y) == digits_value(y0) * 10 + digit_of(y.last()));
        assert((vx * p + digits_value(y0)) * 10 + digit_of(y.last()) == vx * (10 * p) + (
        digits_value(y0) * 10 + digit_of(y.last()))) by (nonlinear_arith);
    }
}

/// Leading zeros do not change the value of a run.
pub proof fn lemma_value_leading_zero(s: Seq<char>)
    requires
        s.len() > 0,
        s[0] == '0',
    ensures
        digits_value(s) == digits_value(s.drop_first()),
{
    let z = s.subrange(0, 1);
    assert(s =~= z + s.drop_first());
    lemma_value_concat(z, s.drop_first());
    assert(z.drop_last() =~= Seq::<char>::empty());
    assert(z.last() == '0');
    assert(digits_value(z.drop_last()) == 0);
    assert(digits_value(z) == 0);
}

/// A run without a leading zero denotes at least `10^(n-1)`.
pub proof fn lemma_value_lower(s: Seq<char>)
    requires
        s.len() > 0,
        all_digits(s),
        s[0] != '0',
    ensures
        digits_value(s) >= pow10((s.len() - 1) as nat),
    decreases s.len(),
{
    if s.len() == 1 {
        assert(s.drop_last() =~= Seq::<char>::empty());
        assert(is_digit(s[0]));
    } else {
        let p = s.drop_last();
        assert(p[0] == s[0]);
        lemma_value_lower(p);
        assert(pow10((s.len() - 1) as nat) == 10 * pow10((p.len() - 1) as nat));
    }
}

/// Of two runs of equal length, the first position where they differ decides.
pub proof fn lemma_value_first_difference(a: Seq<char>, b: Seq<char>, k: int)
    requires
        a.len() == b.len(),
        0 <= k < a.len(),
        all_digits(a),
        all_digits(b),
        a.subrange(0, k) == b.subrange(0, k),
        digit_of(a[k]) < digit_of(b[k]),
    ensures
        digits_value(a) < digits_value(b),
{
    let n = a.len();
    let ha = a.subrange(0, k + 1);
    let hb = b.subrange(0, k + 1);
    let ta = a.subrange(k + 1, n as int);
    let tb = b.subrange(k + 1, n as int);
    assert(a =~= ha + ta);
    assert(b =~= hb + tb);
    lemma_value_concat(ha, ta);
    lemma_value_concat(hb, tb);
    assert(ha.drop_last() =~= a.subrange(0, k));
    assert(hb.drop_last() =~= b.subrange(0, k));
    assert(all_digits(ta)) by {
        assert forall|i: int| 0 <= i < ta.len() implies is_digit(#[trigger] ta[i]) by {
            assert(ta[i] == a[k + 1 + i]);
        }
    }
    lemma_value_bound(ta);
    let p = pow10(ta.len());
    let c = digits_value(a.subrange(0, k));
    let va = digits_value(ha);
    let vb = digits_value(hb);
    assert(va == c * 10 + digit_of(a[k]));
    assert(vb == c * 10 + digit_of(b[k]));
    assert(va + 1 <= vb);
    assert(va * p + digits_value(ta) < vb * p + digits_value(tb)) by (nonlinear_arith)
        requires
            va + 1 <= vb,
            digits_value(ta) < p,
    ;
}

/// The value of a run of decimal digits, where it is non-empty and fits in a `u64`.
pub open spec fn decimal_u64(s: Seq<char>) -> Option<u64> {
    if s.len() > 0 && all_digits(s) && digits_value(s) <= u64::MAX {
        Some(digits_value(s) as u64)
    } else {
        None
    }
}

/// Digits of `n` in base ten, without leading zeros.
pub open spec fn is_decimal_of(r: Seq<char>, n: nat) -> bool {
    &&& r.len() > 0
    &&& all_digits(r)
    &&& digits_value(r) == n
    &&& (r[0] == '0' ==> r.len() == 1)
}

pub proof fn lemma_value_prefix(s: Seq<char>, i: int)
    requires
        0 <= i <= s.len(),
    ensures
        digits_value(s.subrange(0, i)) <= digits_value(s),
{
    let x = s.subrange(0, i);
    let y = s.subrange(i, s.len() as int);
    assert(s =~= x + y);
    lemma_value_concat(x, y);
    lemma_pow10_pos(y.len());
    assert(digits_value(x) * pow10(y.len()) >= digits_value(x)) by (nonlinear_arith)
        requires
            pow10(y.len()) >= 1,
    ;
}

/// Reads the number written in `s[start..end]`.
pub fn parse_decimal(s: &[char], start: usize, end: usize) -> (r: Option<u64>)
    requires
        start <= end <= s@.len(),
    ensures
        r == decimal_u64(s@.subrange(start as int, end as int)),
{
    let ghost t = s@.subrange(start as int, end as int);
    if start == end {
        return None;
    }
    let mut acc: u64 = 0;
    let mut i: usize = start;
    while i < end
        invariant
            start <= i <= end <= s@.len(),
            t == s@.subrange(start as int, end as int),
            all_digits(t.subrange(0, i - start)),
            acc as nat == digits_value(t.subrange(0, i - start)),
        decreases end - i,
    {
        let c = s[i];
        let ghost k: int = (i - start) as int;
        assert(t[k] == c);
        if !char_is_digit(c) {
            assert(!all_digits(t));
            return None;
        }
        let d = (c as u32 - '0' as u32) as u64;
        assert(t.subrange(0, k + 1).drop_last() =~= t.subrange(0, k));
        assert(t.subrange(0, k + 1).last() == c);
        if acc > (u64::MAX - d) / 10 {
            assert(digits_value(t.subrange(0, k + 1)) > u64::MAX) by (nonlinear_arith)
                requires
                    digits_value(t.subrange(0, k + 1)) == acc * 10 + d,
                    acc > (u64::MAX - d) / 10,
                    d <= 9,
            ;
            proof {
                lemma_value_prefix(t, k + 1);
            }
            return None;
        }
        assert(acc * 10 + d <= u64::MAX) by (nonlinear_arith)
            requires
                acc <= (u64::MAX - d) / 10,
                d <= 9,
        ;
        acc = acc * 10 + d;
        i = i + 1;
        assert(all_digits(t.subrange(0, i - start))) by {
            assert forall|j: int| 0 <= j < i - start implies is_digit(
                #[trigger] t.subrange(0, i - start)[j],
            ) by {
                if j < k {
                    assert(t.subrange(0, i - start)[j] == t.subrange(0, k)[j]);
                }
            }
        }
    }
    assert(t.subrange(0, end - start) =~= t);
    Some(acc)
}

/// The character of a digit `d < 10`.
pub open spec fn digit_char(d: nat) -> char {
    if d == 0 {
        '0'
    } else if d == 1 {
        '1'
    } else if d == 2 {
        '2'
    } else if d == 3 {
        '3'
    } else if d == 4 {
        '4'
    } else if d == 5 {
        '5'
    } else if d == 6 {
        '6'
    } else if d == 7 {
        '7'
    } else if d == 8 {
        '8'
    } else {
        '9'
    }
}

/// `n` written in base ten.
pub open spec fn decimal_text(n: nat) -> Seq<char>
    decreases n,
{
    if n < 10 {
        seq![digit_char(n)]
    } else {
        decimal_text(n / 10).push(digit_char(n % 10))
    }
}

/// `decimal_text` is a base-ten numeral for its argument.
pub proof fn lemma_decimal_text(n: nat)
    ensures
        is_decimal_of(decimal_text(n), n),
    decreases n,
{
    let d = digit_char(n % 10);
    assert(is_digit(d) && digit_of(d) == n % 10);
    if n < 10 {
        let r = decimal_text(n);
        assert(r.drop_last() =~= Seq::<char>::empty());
        assert(digits_value(r.drop_last()) == 0);
        assert(all_digits(r));
    } else {
        lemma_decimal_text(n / 10);
        let p = decimal_text(n / 10);
        let r = decimal_text(n);
        assert(r.drop_last() =~= p);
        assert(all_digits(r)) by {
            assert forall|j: int| 0 <= j < r.len() implies is_digit(#[trigger] r[j]) by {
                if j < p.len() {
                    assert(r[j] == p[j]);
                }
            }
        }
        assert(p[0] != '0') by {
            if p[0] == '0' {
                assert(p.drop_last() =~= Seq::<char>::empty());
                assert(digits_value(p.drop_last()) == 0);
                assert(p.last() == '0');
            }
        }
        assert(r[0] == p[0]);
    }
}

/// Writes `n` in base ten.
pub fn render_decimal(n: u64) -> (r: Vec<char>)
    ensures
        r@ == decimal_text(n as nat),
        is_decimal_of(r@, n as nat),
    decreases n,
{
    proof {
        lemma_decimal_text(n as nat);
    }
    let d = char_of_digit((n % 10) as u32);
    if n < 10 {
        let mut r: Vec<char> = Vec::new();
        r.push(d);
        assert(r@ =~= decimal_text(n as nat));
        r
    } else {
        let mut r = render_decimal(n / 10);
        r.push(d);
        r
    }
}

/// The digit character for `d < 10`.
pub fn char_of_digit(d: u32) -> (c: char)
    requires
        d < 10,
    ensures
        c == digit_char(d as nat),
{
    if d == 0 {
        '0'
    } else if d == 1 {
        '1'
    } else if d == 2 {
        '2'
    } else if d == 3 {
        '3'
    } else if d == 4 {
        '4'
    } else if d == 5 {
        '5'
    } else if d == 6 {
        '6'
    } else if d == 7 {
        '7'
    } else if d == 8 {
        '8'
    } else {
        '9'
    }
}

} // verus!
