//! Recognisers and parsers for the scalar values of a parameter file.
use vstd::prelude::*;

verus! {

pub open spec fn is_digit(c: char) -> bool {
    '0' <= c && c <= '9'
}

pub open spec fn all_digits(s: Seq<char>) -> bool {
    forall|i: int| 0 <= i < s.len() ==> is_digit(s[i])
}

/// The number that the decimal digits `s` spell.
pub open spec fn digits_value(s: Seq<char>) -> nat
    decreases s.len(),
{
    if s.len() == 0 {
        0
    } else {
        digits_value(s.drop_last()) * 10 + ((s.last() as u32) - ('0' as u32)) as nat
    }
}

/// `s` without one leading `+`.
pub open spec fn strip_plus(s: Seq<char>) -> Seq<char> {
    if s.len() > 0 && s[0] == '+' {
        s.drop_first()
    } else {
        s
    }
}

/// What `usize::from_str` accepts and gives: an optional `+`, then one or
/// more decimal digits whose value fits in a `usize`.
pub open spec fn usize_of(s: Seq<char>) -> Option<nat> {
    let d = strip_plus(s);
    if d.len() > 0 && all_digits(d) && digits_value(d) <= usize::MAX {
        Some(digits_value(d))
    } else {
        None
    }
}

/// What `bool::from_str` accepts and gives: exactly `true` or `false`.
pub open spec fn bool_of(s: Seq<char>) -> Option<bool> {
    if s == "true"@ {
        Some(true)
    } else if s == "false"@ {
        Some(false)
    } else {
        None
    }
}

proof fn lemma_digits_value_prefix(s: Seq<char>, k: int)
    requires
        0 <= k <= s.len(),
        all_digits(s),
    ensures
        digits_value(s.take(k)) <= digits_value(s),
    decreases s.len() - k,
{
    if k < s.len() {
        assert(s.take(s.len() - 1) == s.drop_last());
        lemma_digits_value_prefix(s.drop_last(), k);
        assert(s.drop_last().take(k) == s.take(k));
    } else {
        assert(s.take(k) == s);
    }
}

/// Parses `chars[lo..hi]` as `usize::from_str` does.
pub fn parse_usize(chars: &Vec<char>, lo: usize, hi: usize) -> (r: Option<usize>)
    requires
        lo <= hi <= chars.len(),
    ensures
        match usize_of(chars@.subrange(lo as int, hi as int)) {
            Some(v) => r == Some(v as usize),
            None => r is None,
        },
{
    let ghost s = chars@.subrange(lo as int, hi as int);
    let mut start: usize = lo;
    if lo < hi && chars[lo] == '+' {
        start = lo + 1;
    }
    let ghost d = chars@.subrange(start as int, hi as int);
    assert(d == strip_plus(s));
    if start == hi {
        return None;
    }
    let mut value: usize = 0;
    let mut i: usize = start;
    while i < hi
        invariant
            lo <= start <= i <= hi <= chars.len(),
            d == chars@.subrange(start as int, hi as int),
            s == chars@.subrange(lo as int, hi as int),
            d == strip_plus(s),
            d.len() > 0,
            all_digits(d.take(i - start)),
            value == digits_value(d.take(i - start)),
        decreases hi - i,
    {
        let c = chars[i];
        if !('0' <= c && c <= '9') {
            assert(d[i - start] == c);
            assert(!all_digits(d));
            assert(usize_of(s) is None);
            return None;
        }
        let ghost p = d.take(i - start + 1);
        assert(p.drop_last() == d.take(i - start));
        assert(p.last() == c);
        assert(digits_value(p) == value * 10 + ((c as u32) - ('0' as u32)) as nat);
        let digit = (c as u32 - '0' as u32) as usize;
        match value.checked_mul(10) {
            Some(m) => match m.checked_add(digit) {
                Some(v) => {
                    value = v;
                },
                None => {
                    proof {
                        if all_digits(d) {
                            lemma_digits_value_prefix(d, i - start + 1);
                        }
                        assert(usize_of(s) is None);
                    }
                    return None;
                },
            },
            None => {
                proof {
                    if all_digits(d) {
                        lemma_digits_value_prefix(d, i - start + 1);
                    }
                }
                return None;
            },
        }
        i = i + 1;
    }
    assert(d.take(i - start) == d);
    Some(value)
}

/// Parses `chars[lo..hi]` as `bool::from_str` does.
pub fn parse_bool(chars: &Vec<char>, lo: usize, hi: usize) -> (r: Option<bool>)
    requires
        lo <= hi <= chars.len(),
    ensures
        r == bool_of(chars@.subrange(lo as int, hi as int)),
{
    if crate::text::span_eq(chars, lo, hi, "true") {
        Some(true)
    } else if crate::text::span_eq(chars, lo, hi, "false") {
        Some(false)
    } else {
        None
    }
}

pub open spec fn is_sign(c: char) -> bool {
    c == '+' || c == '-'
}

/// `s` without one leading sign.
pub open spec fn strip_sign(s: Seq<char>) -> Seq<char> {
    if s.len() > 0 && is_sign(s[0]) {
        s.drop_first()
    } else {
        s
    }
}

/// `c` is the lower-case ASCII letter `l` or its upper-case form.
pub open spec fn same_letter(c: char, l: char) -> bool {
    c == l || (c as u32) + 32 == (l as u32)
}

/// `s` spells the lower-case word `w` in any mix of cases.
pub open spec fn word_ci(s: Seq<char>, w: Seq<char>) -> bool {
    s.len() == w.len() && forall|i: int| 0 <= i < s.len() ==> same_letter(s[i], w[i])
}

pub open spec fn is_mantissa_char(c: char) -> bool {
    is_digit(c) || c == '.'
}

/// Digits with at most one decimal point, and at least one digit.
pub open spec fn is_mantissa(m: Seq<char>) -> bool {
    &&& forall|i: int| 0 <= i < m.len() ==> is_mantissa_char(m[i])
    &&& exists|i: int| 0 <= i < m.len() && is_digit(m[i])
    &&& forall|i: int, j: int| 0 <= i < m.len() && 0 <= j < m.len() && m[i] == '.' && m[j] == '.' ==> i == j
}

pub open spec fn is_exp_mark(c: char) -> bool {
    c == 'e' || c == 'E'
}

/// An optional sign, then one or more digits.
pub open spec fn is_exponent(x: Seq<char>) -> bool {
    let y = strip_sign(x);
    y.len() > 0 && all_digits(y)
}

/// A mantissa, then optionally an exponent mark and an exponent.
pub open spec fn is_decimal(t: Seq<char>) -> bool {
    exists|e: int|
        0 <= e <= t.len() && is_mantissa(#[trigger] t.take(e)) && (e == t.len() || (
        is_exp_mark(t[e]) && is_exponent(t.skip(e + 1))))
}

/// The strings that Rust's float parser (`f32::from_str`) accepts: an optional
/// sign, then `inf`, `infinity` or `nan` in any case, or a decimal number with
/// an optional exponent.
pub open spec fn is_float_literal(s: Seq<char>) -> bool {
    let t = strip_sign(s);
    word_ci(t, "inf"@) || word_ci(t, "infinity"@) || word_ci(t, "nan"@) || is_decimal(t)
}

/// Whether `chars[lo..hi]` spells the lower-case ASCII word `w` in any case.
fn span_word_ci(chars: &Vec<char>, lo: usize, hi: usize, w: &str) -> (r: bool)
    requires
        lo <= hi <= chars.len(),
        forall|i: int| 0 <= i < w@.len() ==> 'a' <= #[trigger] w@[i] <= 'z',
    ensures
        r == word_ci(chars@.subrange(lo as int, hi as int), w@),
{
    let ghost s = chars@.subrange(lo as int, hi as int);
    let n = w.unicode_len();
    if hi - lo != n {
        return false;
    }
    let mut i: usize = 0;
    while i < n
        invariant
            i <= n,
            n == w@.len(),
            hi - lo == n,
            lo <= hi <= chars.len(),
            s == chars@.subrange(lo as int, hi as int),
            forall|k: int| 0 <= k < w@.len() ==> 'a' <= #[trigger] w@[k] <= 'z',
            forall|j: int| 0 <= j < i ==> same_letter(s[j], w@[j]),
        decreases n - i,
    {
        let c = chars[lo + i];
        let l = w.get_char(i);
        assert('a' <= w@[i as int] <= 'z');
        if !(c == l || (c as u32) == (l as u32) - 32) {
            assert(s[i as int] == c);
            return false;
        }
        i = i + 1;
    }
    true
}

/// Whether `chars[lo..hi]` is one or more decimal digits.
fn span_digits(chars: &Vec<char>, lo: usize, hi: usize) -> (r: bool)
    requires
        lo <= hi <= chars.len(),
    ensures
        r == (hi > lo && all_digits(chars@.subrange(lo as int, hi as int))),
{
    let ghost s = chars@.subrange(lo as int, hi as int);
    if lo == hi {
        return false;
    }
    let mut i: usize = lo;
    while i < hi
        invariant
            lo <= i <= hi <= chars.len(),
            s == chars@.subrange(lo as int, hi as int),
            forall|j: int| 0 <= j < i - lo ==> is_digit(s[j]),
        decreases hi - i,
    {
        if !('0' <= chars[i] && chars[i] <= '9') {
            assert(s[i - lo] == chars@[i as int]);
            return false;
        }
        i = i + 1;
    }
    true
}

/// Whether `chars[lo..hi]`, made of digits and points only, is a mantissa.
fn span_mantissa(chars: &Vec<char>, lo: usize, hi: usize) -> (r: bool)
    requires
        lo <= hi <= chars.len(),
        forall|j: int| lo <= j < hi ==> is_mantissa_char(chars@[j]),
    ensures
        r == is_mantissa(chars@.subrange(lo as int, hi as int)),
{
    let ghost s = chars@.subrange(lo as int, hi as int);
    let mut has_digit = false;
    let mut dot: Option<usize> = None;
    let mut i: usize = lo;
    while i < hi
        invariant
            lo <= i <= hi <= chars.len(),
            s == chars@.subrange(lo as int, hi as int),
            forall|j: int| lo <= j < hi ==> is_mantissa_char(chars@[j]),
            has_digit == exists|j: int| 0 <= j < i - lo && is_digit(s[j]),
            match dot {
                None => forall|j: int| 0 <= j < i - lo ==> s[j] != '.',
                Some(p) => lo <= p < i && s[p - lo] == '.' && forall|j: int|
                    0 <= j < i - lo && s[j] == '.' ==> j == p - lo,
            },
        decreases hi - i,
    {
        assert(s[i - lo] == chars@[i as int]);
        if chars[i] == '.' {
            if let Some(p) = dot {
                assert(s[p - lo] == '.' && s[i - lo] == '.');
                return false;
            }
            dot = Some(i);
        } else {
            has_digit = true;
        }
        i = i + 1;
    }
    has_digit
}

/// Whether `chars[lo..hi]` is a float literal that Rust's float parser accepts.
pub fn is_float_text(chars: &Vec<char>, lo: usize, hi: usize) -> (r: bool)
    requires
        lo <= hi <= chars.len(),
    ensures
        r == is_float_literal(chars@.subrange(lo as int, hi as int)),
{
    let ghost s = chars@.subrange(lo as int, hi as int);
    let mut start: usize = lo;
    if lo < hi && (chars[lo] == '+' || chars[lo] == '-') {
        start = lo + 1;
    }
    let ghost t = chars@.subrange(start as int, hi as int);
    assert(t == strip_sign(s));
    proof {
        reveal_strlit("inf");
        reveal_strlit("infinity");
        reveal_strlit("nan");
    }
    if span_word_ci(chars, start, hi, "inf") || span_word_ci(chars, start, hi, "infinity")
        || span_word_ci(chars, start, hi, "nan") {
        return true;
    }
    let mut e: usize = start;
    while e < hi && (('0' <= chars[e] && chars[e] <= '9') || chars[e] == '.')
        invariant
            lo <= start <= e <= hi <= chars.len(),
            forall|j: int| start <= j < e ==> is_mantissa_char(chars@[j]),
        decreases hi - e,
    {
        e = e + 1;
    }
    let k = e - start;
    assert(t.take(k as int) == chars@.subrange(start as int, e as int));
    assert forall|e2: int|
        0 <= e2 <= t.len() && is_mantissa(#[trigger] t.take(e2)) && (e2 == t.len() || is_exp_mark(
            t[e2],
        )) implies e2 == k by {
        if e2 < k {
            assert(t[e2] == chars@[start + e2]);
        }
        if e2 > k {
            assert(t.take(e2)[k as int] == chars@[e as int]);
        }
    }
    let m = span_mantissa(chars, start, e);
    if !m {
        return false;
    }
    if e == hi {
        return true;
    }
    if !(chars[e] == 'e' || chars[e] == 'E') {
        assert(t[k as int] == chars@[e as int]);
        return false;
    }
    assert(t[k as int] == chars@[e as int]);
    let mut x: usize = e + 1;
    if x < hi && (chars[x] == '+' || chars[x] == '-') {
        x = x + 1;
    }
    assert(strip_sign(t.skip(k + 1)) == chars@.subrange(x as int, hi as int));
    span_digits(chars, x, hi)
}

} // verus!
