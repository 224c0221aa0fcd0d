//! Character-level text primitives: Unicode whitespace, trimming, splitting on
//! whitespace, prefixes, and the number syntaxes that the solver prints.

use vstd::prelude::*;

verus! {

/// The Unicode `White_Space` property, which `char::is_whitespace`,
/// `str::trim` and `str::split_whitespace` go by.
pub open spec fn is_ws(c: char) -> bool {
    ('\u{9}' <= c && c <= '\u{d}') || c == ' ' || c == '\u{85}' || c == '\u{a0}'
        || c == '\u{1680}' || ('\u{2000}' <= c && c <= '\u{200a}') || c == '\u{2028}'
        || c == '\u{2029}' || c == '\u{202f}' || c == '\u{205f}' || c == '\u{3000}'
}

pub fn is_whitespace(c: char) -> (r: bool)
    ensures
        r == is_ws(c),
{
    ('\u{9}' <= c && c <= '\u{d}') || c == ' ' || c == '\u{85}' || c == '\u{a0}'
        || c == '\u{1680}' || ('\u{2000}' <= c && c <= '\u{200a}') || c == '\u{2028}'
        || c == '\u{2029}' || c == '\u{202f}' || c == '\u{205f}' || c == '\u{3000}'
}

/// The characters of a string slice, in order.
pub fn chars_of(s: &str) -> (r: Vec<char>)
    ensures
        r@ == s@,
{
    let mut r: Vec<char> = Vec::new();
    for c in it: s.chars()
        invariant
            r@ == it.seq().take(it.index() as int),
    {
        r.push(c);
    }
    r
}

/// `s` without its leading whitespace.
pub open spec fn trim_start(s: Seq<char>) -> Seq<char>
    decreases s.len(),
{
    if s.len() > 0 && is_ws(s[0]) {
        trim_start(s.drop_first())
    } else {
        s
    }
}

/// `s` without its trailing whitespace.
pub open spec fn trim_end(s: Seq<char>) -> Seq<char>
    decreases s.len(),
{
    if s.len() > 0 && is_ws(s.last()) {
        trim_end(s.drop_last())
    } else {
        s
    }
}

/// `s` without leading and trailing whitespace, as `str::trim` gives it.
pub open spec fn trim(s: Seq<char>) -> Seq<char> {
    trim_end(trim_start(s))
}

/// Whether `s` begins with `p`.
pub open spec fn has_prefix(s: Seq<char>, p: Seq<char>) -> bool {
    p.len() <= s.len() && s.take(p.len() as int) == p
}

/// The whitespace-separated words of `s`, as `str::split_whitespace` yields
/// them; stated one character at a time from the left.
pub open spec fn words(s: Seq<char>) -> Seq<Seq<char>>
    decreases s.len(),
{
    if s.len() == 0 {
        seq![]
    } else {
        let prev = words(s.drop_last());
        let c = s.last();
        if is_ws(c) {
            prev
        } else if s.len() >= 2 && !is_ws(s[s.len() - 2]) {
            prev.update(prev.len() - 1, prev.last().push(c))
        } else {
            prev.push(seq![c])
        }
    }
}

/// The part of `s` before its first `'='` (all of `s` when it holds none).
pub open spec fn until_eq(s: Seq<char>) -> Seq<char>
    decreases s.len(),
{
    if s.len() == 0 || s[0] == '=' {
        seq![]
    } else {
        seq![s[0]] + until_eq(s.drop_first())
    }
}

proof fn lemma_trim_start_skip(s: Seq<char>, i: int)
    requires
        0 <= i < s.len(),
        is_ws(s[i]),
    ensures
        trim_start(s.subrange(i, s.len() as int)) == trim_start(s.subrange(i + 1, s.len() as int)),
{
    assert(s.subrange(i, s.len() as int).drop_first() =~= s.subrange(i + 1, s.len() as int));
}

proof fn lemma_trim_end_skip(s: Seq<char>, j: int)
    requires
        0 < j <= s.len(),
        is_ws(s[j - 1]),
    ensures
        trim_end(s.take(j)) == trim_end(s.take(j - 1)),
{
    assert(s.take(j).drop_last() =~= s.take(j - 1));
}

/// The characters of `v` from `lo` up to `hi`.
pub fn slice_chars(v: &Vec<char>, lo: usize, hi: usize) -> (r: Vec<char>)
    requires
        lo <= hi <= v.len(),
    ensures
        r@ == v@.subrange(lo as int, hi as int),
{
    let mut r: Vec<char> = Vec::new();
    let mut k: usize = lo;
    while k < hi
        invariant
            lo <= k <= hi <= v.len(),
            r@ == v@.subrange(lo as int, k as int),
        decreases hi - k,
    {
        r.push(v[k]);
        k = k + 1;
        assert(r@ =~= v@.subrange(lo as int, k as int));
    }
    r
}

/// The bounds of `v[lo..hi]` without its leading and trailing whitespace.
pub fn trim_bounds(v: &Vec<char>, lo: usize, hi: usize) -> (r: (usize, usize))
    requires
        lo <= hi <= v.len(),
    ensures
        lo <= r.0 <= r.1 <= hi,
        v@.subrange(r.0 as int, hi as int) == trim_start(v@.subrange(lo as int, hi as int)),
        v@.subrange(r.0 as int, r.1 as int) == trim(v@.subrange(lo as int, hi as int)),
{
    let ghost s = v@.subrange(lo as int, hi as int);
    let mut i: usize = lo;
    assert(s.subrange(0, s.len() as int) =~= s);
    while i < hi && is_whitespace(v[i])
        invariant
            lo <= i <= hi <= v.len(),
            s == v@.subrange(lo as int, hi as int),
            trim_start(s) == trim_start(s.subrange(i - lo, s.len() as int)),
        decreases hi - i,
    {
        proof {
            lemma_trim_start_skip(s, i - lo);
        }
        i = i + 1;
    }
    let ghost t = v@.subrange(i as int, hi as int);
    assert(s.subrange(i - lo, s.len() as int) =~= t);
    assert(t.take(t.len() as int) =~= t);
    let mut j: usize = hi;
    while j > i && is_whitespace(v[j - 1])
        invariant
            lo <= i <= j <= hi <= v.len(),
            t == v@.subrange(i as int, hi as int),
            trim_end(t) == trim_end(t.take(j - i)),
        decreases j,
    {
        proof {
            lemma_trim_end_skip(t, j - i);
        }
        j = j - 1;
    }
    assert(t.take(j - i) =~= v@.subrange(i as int, j as int));
    (i, j)
}

/// `v` without leading and trailing whitespace.
pub fn trim_chars(v: &Vec<char>) -> (r: Vec<char>)
    ensures
        r@ == trim(v@),
{
    let (i, j) = trim_bounds(v, 0, v.len());
    assert(v@.subrange(0, v.len() as int) =~= v@);
    slice_chars(v, i, j)
}

/// Whether `v` begins with `p`.
pub fn starts_with(v: &Vec<char>, p: &Vec<char>) -> (r: bool)
    ensures
        r == has_prefix(v@, p@),
{
    if p.len() > v.len() {
        return false;
    }
    let mut k: usize = 0;
    while k < p.len()
        invariant
            p.len() <= v.len(),
            k <= p.len(),
            forall|m: int| 0 <= m < k ==> v@[m] == p@[m],
        decreases p.len() - k,
    {
        if v[k] != p[k] {
            assert(v@.take(p.len() as int)[k as int] != p@[k as int]);
            return false;
        }
        k = k + 1;
    }
    assert(v@.take(p.len() as int) =~= p@);
    true
}

/// Whether `v` and `w` hold the same characters.
pub fn same_chars(v: &Vec<char>, w: &Vec<char>) -> (r: bool)
    ensures
        r == (v@ == w@),
{
    let r = v.len() == w.len() && starts_with(v, w);
    assert(v@.take(v.len() as int) =~= v@);
    r
}

/// The bounds of the whitespace-separated words of `v[lo..hi]`.
pub fn word_bounds(v: &Vec<char>, lo: usize, hi: usize) -> (r: Vec<(usize, usize)>)
    requires
        lo <= hi <= v.len(),
    ensures
        forall|k: int| 0 <= k < r.len() ==> lo <= (#[trigger] r@[k]).0 <= r@[k].1 <= hi,
        r@.map_values(|b: (usize, usize)| v@.subrange(b.0 as int, b.1 as int)) == words(
            v@.subrange(lo as int, hi as int),
        ),
{
    let mut r: Vec<(usize, usize)> = Vec::new();
    let mut i: usize = lo;
    assert(v@.subrange(lo as int, lo as int) =~= seq![]);
    while i < hi
        invariant
            lo <= i <= hi <= v.len(),
            forall|k: int| 0 <= k < r.len() ==> lo <= (#[trigger] r@[k]).0 <= r@[k].1 <= i,
            r.len() > 0 && i > lo && !is_ws(v@[i - 1]) ==> r@.last().1 == i,
            r@.map_values(|b: (usize, usize)| v@.subrange(b.0 as int, b.1 as int)) == words(
                v@.subrange(lo as int, i as int),
            ),
        decreases hi - i,
    {
        let c = v[i];
        let ghost prev = r@.map_values(|b: (usize, usize)| v@.subrange(b.0 as int, b.1 as int));
        let ghost s = v@.subrange(lo as int, i + 1);
        assert(s.drop_last() =~= v@.subrange(lo as int, i as int));
        assert(s.last() == c);
        if is_whitespace(c) {
        } else if i > lo && !is_whitespace(v[i - 1]) {
            assert(s[s.len() - 2] == v@[i - 1]);
            assert(prev.len() > 0) by {
                let t = v@.subrange(lo as int, i as int);
                assert(t.last() == v@[i - 1]);
                lemma_words_nonempty(t);
            }
            let (a, b) = r.pop().unwrap();
            r.push((a, i + 1));
            assert(v@.subrange(a as int, i + 1) =~= v@.subrange(a as int, i as int).push(c));
            assert(r@.map_values(|b: (usize, usize)| v@.subrange(b.0 as int, b.1 as int))
                =~= prev.update(prev.len() - 1, prev.last().push(c)));
        } else {
            r.push((i, i + 1));
            assert(v@.subrange(i as int, i + 1) =~= seq![c]);
            assert(r@.map_values(|b: (usize, usize)| v@.subrange(b.0 as int, b.1 as int))
                =~= prev.push(seq![c]));
        }
        i = i + 1;
    }
    r
}

/// A sequence whose last character is not whitespace has a word.
proof fn lemma_words_nonempty(s: Seq<char>)
    requires
        s.len() > 0,
        !is_ws(s.last()),
    ensures
        words(s).len() > 0,
    decreases s.len(),
{
    let prev = words(s.drop_last());
    if s.len() >= 2 && !is_ws(s[s.len() - 2]) {
        let t = s.drop_last();
        assert(t.last() == s[s.len() - 2]);
        lemma_words_nonempty(t);
    }
}

/// The end of `v[lo..]` up to its first `'='`.
pub fn eq_end(v: &Vec<char>, lo: usize) -> (j: usize)
    requires
        lo <= v.len(),
    ensures
        lo <= j <= v.len(),
        v@.subrange(lo as int, j as int) == until_eq(v@.subrange(lo as int, v.len() as int)),
{
    let n = v.len();
    let mut j: usize = lo;
    assert(v@.subrange(lo as int, lo as int) + v@.subrange(lo as int, n as int) =~= v@.subrange(
        lo as int,
        n as int,
    ));
    while j < n && v[j] != '='
        invariant
            lo <= j <= n == v.len(),
            until_eq(v@.subrange(lo as int, n as int)) == v@.subrange(lo as int, j as int)
                + until_eq(v@.subrange(j as int, n as int)),
        decreases n - j,
    {
        let ghost t = v@.subrange(j as int, n as int);
        assert(t.drop_first() =~= v@.subrange(j + 1, n as int));
        assert(v@.subrange(lo as int, j as int) + (seq![t[0]] + until_eq(t.drop_first()))
            =~= v@.subrange(lo as int, j + 1) + until_eq(v@.subrange(j + 1, n as int)));
        j = j + 1;
    }
    assert(v@.subrange(lo as int, j as int) + seq![] =~= v@.subrange(lo as int, j as int));
    j
}

pub open spec fn is_digit(c: char) -> bool {
    '0' <= c && c <= '9'
}

pub open spec fn all_digits(s: Seq<char>) -> bool {
    forall|i: int| 0 <= i < s.len() ==> is_digit(#[trigger] s[i])
}

/// The number that a string of decimal digits denotes.
pub open spec fn digits_value(s: Seq<char>) -> int
    decreases s.len(),
{
    if s.len() == 0 {
        0
    } else {
        digits_value(s.drop_last()) * 10 + (s.last() as int - '0' as int)
    }
}

/// What `str::parse::<u32>` gives: an optional `+` sign followed by one or
/// more decimal digits, whose value fits in a `u32`.
pub open spec fn u32_of(s: Seq<char>) -> Option<u32> {
    let d = if s.len() > 0 && s[0] == '+' {
        s.drop_first()
    } else {
        s
    };
    if d.len() > 0 && all_digits(d) && digits_value(d) <= u32::MAX {
        Some(digits_value(d) as u32)
    } else {
        None
    }
}

/// Parses a decimal `u32`.
pub fn parse_u32(v: &Vec<char>) -> (r: Option<u32>)
    ensures
        r == u32_of(v@),
{
    let n = v.len();
    let start: usize = if n > 0 && v[0] == '+' {
        1
    } else {
        0
    };
    let ghost d = v@.subrange(start as int, n as int);
    assert(v@.len() > 0 && v@[0] == '+' ==> v@.drop_first() =~= d);
    assert(!(v@.len() > 0 && v@[0] == '+') ==> v@ =~= d);
    if start == n {
        return None;
    }
    let mut acc: u64 = 0;
    let mut over = false;
    let mut k: usize = start;
    assert(d.take(0) =~= seq![]);
    while k < n
        invariant
            start <= k <= n == v.len(),
            start < n,
            d == v@.subrange(start as int, n as int),
            u32_of(v@) == (if all_digits(d) && digits_value(d) <= u32::MAX {
                Some(digits_value(d) as u32)
            } else {
                None
            }),
            all_digits(d.take(k - start)),
            digits_value(d.take(k - start)) >= 0,
            over ==> digits_value(d.take(k - start)) > u32::MAX,
            !over ==> acc == digits_value(d.take(k - start)) && acc <= u32::MAX,
        decreases n - k,
    {
        let c = v[k];
        if !('0' <= c && c <= '9') {
            assert(d[k - start] == c);
            assert(!is_digit(d[k - start]));
            assert(!all_digits(d));
            return None;
        }
        let ghost t = d.take(k - start + 1);
        assert(t.drop_last() =~= d.take(k - start));
        assert(t.last() == c);
        if !over {
            acc = acc * 10 + (c as u64 - '0' as u64);
            if acc > 0xffff_ffff {
                over = true;
            }
        }
        k = k + 1;
        assert(all_digits(d.take(k - start))) by {
            assert forall|i: int| 0 <= i < t.len() implies is_digit(#[trigger] t[i]) by {
                if i < t.len() - 1 {
                    assert(t[i] == d.take(k - start - 1)[i]);
                }
            }
        }
    }
    assert(d.take(n - start) =~= d);
    if over {
        None
    } else {
        Some(acc as u32)
    }
}

pub open spec fn is_sign(c: char) -> bool {
    c == '+' || c == '-'
}

/// `s` without one leading sign character.
pub open spec fn unsigned_part(s: Seq<char>) -> Seq<char> {
    if s.len() > 0 && is_sign(s[0]) {
        s.drop_first()
    } else {
        s
    }
}

/// Whether `c` is the character `w` or, `w` being a lowercase ASCII
/// letter, its uppercase form.
pub open spec fn same_letter(c: char, w: char) -> bool {
    c == w || ('A' <= c && c <= 'Z' && c as u32 + 32 == w as u32)
}

/// Whether `s` spells the lowercase word `w`, letters in either case.
pub open spec fn eq_ignore_case(s: Seq<char>, w: Seq<char>) -> bool {
    s.len() == w.len() && forall|i: int| 0 <= i < s.len() ==> same_letter(#[trigger] s[i], w[i])
}

/// Digits with at most one decimal point and at least one digit:
/// `Digit+ | Digit+ '.' Digit* | Digit* '.' Digit+`.
pub open spec fn is_mantissa(m: Seq<char>) -> bool {
    &&& forall|i: int| 0 <= i < m.len() ==> is_digit(#[trigger] m[i]) || m[i] == '.'
    &&& forall|i: int, j: int| 0 <= i < j < m.len() && #[trigger] m[i] == '.' ==> #[trigger] m[j] != '.'
    &&& exists|i: int| 0 <= i < m.len() && is_digit(#[trigger] m[i])
}

/// `Sign? Digit+`, what follows the exponent letter.
pub open spec fn is_exponent(x: Seq<char>) -> bool {
    let d = unsigned_part(x);
    d.len() > 0 && all_digits(d)
}

pub open spec fn is_exp_letter(c: char) -> bool {
    c == 'e' || c == 'E'
}

/// A mantissa with an optional exponent.
pub open spec fn is_number(u: Seq<char>) -> bool {
    is_mantissa(u) || exists|k: int|
        0 <= k < u.len() && is_exp_letter(#[trigger] u[k]) && is_mantissa(u.take(k)) && is_exponent(
            u.skip(k + 1),
        )
}

/// The strings that `str::parse::<f64>` accepts, by the grammar that its
/// documentation gives: `Sign? ( 'inf' | 'infinity' | 'nan' | Number )`,
/// letters in either case.
pub open spec fn is_float_literal(s: Seq<char>) -> bool {
    let u = unsigned_part(s);
    eq_ignore_case(u, "inf"@) || eq_ignore_case(u, "infinity"@) || eq_ignore_case(u, "nan"@)
        || is_number(u)
}

/// Whether the characters of `v` from `lo` on spell the lowercase word `w`,
/// letters in either case.
fn eq_ignore_case_from(v: &Vec<char>, lo: usize, w: &Vec<char>) -> (r: bool)
    requires
        lo <= v.len(),
    ensures
        r == eq_ignore_case(v@.subrange(lo as int, v.len() as int), w@),
{
    let ghost s = v@.subrange(lo as int, v.len() as int);
    if v.len() - lo != w.len() {
        return false;
    }
    let mut k: usize = 0;
    while k < w.len()
        invariant
            lo <= v.len(),
            s == v@.subrange(lo as int, v.len() as int),
            s.len() == w.len(),
            k <= w.len(),
            forall|i: int| 0 <= i < k ==> same_letter(#[trigger] s[i], w@[i]),
        decreases w.len() - k,
    {
        let c = v[lo + k];
        let d = w[k];
        assert(s[k as int] == c);
        if !(c == d || ('A' <= c && c <= 'Z' && c as u32 + 32 == d as u32)) {
            assert(!same_letter(s[k as int], w@[k as int]));
            return false;
        }
        k = k + 1;
    }
    true
}

/// Whether the characters of `v` from `lo` up to `hi` form a mantissa.
fn mantissa_ok(v: &Vec<char>, lo: usize, hi: usize) -> (r: bool)
    requires
        lo <= hi <= v.len(),
    ensures
        r == is_mantissa(v@.subrange(lo as int, hi as int)),
{
    let ghost m = v@.subrange(lo as int, hi as int);
    let mut seen_dot = false;
    let mut seen_digit = false;
    let mut k: usize = lo;
    while k < hi
        invariant
            lo <= k <= hi <= v.len(),
            m == v@.subrange(lo as int, hi as int),
            forall|i: int| 0 <= i < k - lo ==> is_digit(#[trigger] m[i]) || m[i] == '.',
            forall|i: int, j: int|
                0 <= i < j < k - lo && #[trigger] m[i] == '.' ==> #[trigger] m[j] != '.',
            seen_dot <==> exists|i: int| 0 <= i < k - lo && #[trigger] m[i] == '.',
            seen_digit <==> exists|i: int| 0 <= i < k - lo && is_digit(#[trigger] m[i]),
        decreases hi - k,
    {
        let c = v[k];
        assert(m[k - lo] == c);
        if c == '.' {
            if seen_dot {
                let ghost i = choose|i: int| 0 <= i < k - lo && #[trigger] m[i] == '.';
                assert(m[i] == '.' && m[k - lo] == '.');
                return false;
            }
            seen_dot = true;
        } else if '0' <= c && c <= '9' {
            seen_digit = true;
        } else {
            assert(!(is_digit(m[k - lo]) || m[k - lo] == '.'));
            return false;
        }
        k = k + 1;
    }
    seen_digit
}

/// Whether the characters of `v` from `lo` to its end form an exponent.
fn exponent_ok(v: &Vec<char>, lo: usize) -> (r: bool)
    requires
        lo <= v.len(),
    ensures
        r == is_exponent(v@.subrange(lo as int, v.len() as int)),
{
    let n = v.len();
    let ghost x = v@.subrange(lo as int, n as int);
    let start: usize = if lo < n && (v[lo] == '+' || v[lo] == '-') {
        lo + 1
    } else {
        lo
    };
    assert(unsigned_part(x) =~= v@.subrange(start as int, n as int));
    if start == n {
        return false;
    }
    let mut k: usize = start;
    while k < n
        invariant
            lo <= start <= k <= n == v.len(),
            unsigned_part(v@.subrange(lo as int, n as int)) == v@.subrange(start as int, n as int),
            forall|i: int| start <= i < k ==> is_digit(#[trigger] v@[i]),
        decreases n - k,
    {
        if !('0' <= v[k] && v[k] <= '9') {
            assert(v@.subrange(start as int, n as int)[k - start] == v@[k as int]);
            assert(!is_digit(v@.subrange(start as int, n as int)[k - start]));
            return false;
        }
        k = k + 1;
    }
    assert(all_digits(v@.subrange(start as int, n as int))) by {
        assert forall|i: int| 0 <= i < n - start implies is_digit(
            #[trigger] v@.subrange(start as int, n as int)[i],
        ) by {
            assert(v@.subrange(start as int, n as int)[i] == v@[start + i]);
        }
    }
    true
}

proof fn lemma_number_plain(u: Seq<char>)
    requires
        forall|i: int| 0 <= i < u.len() ==> !is_exp_letter(#[trigger] u[i]),
    ensures
        is_number(u) == is_mantissa(u),
{
}

proof fn lemma_number_split(u: Seq<char>, k0: int)
    requires
        0 <= k0 < u.len(),
        is_exp_letter(u[k0]),
        forall|i: int| 0 <= i < k0 ==> !is_exp_letter(#[trigger] u[i]),
    ensures
        is_number(u) == (is_mantissa(u.take(k0)) && is_exponent(u.skip(k0 + 1))),
{
    if is_mantissa(u) {
        assert(!(is_digit(u[k0]) || u[k0] == '.'));
    }
    if exists|k: int|
        0 <= k < u.len() && is_exp_letter(#[trigger] u[k]) && is_mantissa(u.take(k))
            && is_exponent(u.skip(k + 1)) {
        let k = choose|k: int|
            0 <= k < u.len() && is_exp_letter(#[trigger] u[k]) && is_mantissa(u.take(k))
                && is_exponent(u.skip(k + 1));
        if k > k0 {
            assert(u.take(k)[k0] == u[k0]);
            assert(!(is_digit(u.take(k)[k0]) || u.take(k)[k0] == '.'));
        }
        assert(k == k0);
    }
}

/// Whether `v` is text that `str::parse::<f64>` accepts.
pub fn is_float_text(v: &Vec<char>) -> (r: bool)
    ensures
        r == is_float_literal(v@),
{
    let n = v.len();
    let start: usize = if n > 0 && (v[0] == '+' || v[0] == '-') {
        1
    } else {
        0
    };
    let ghost u = v@.subrange(start as int, n as int);
    assert(unsigned_part(v@) =~= u);
    let inf = chars_of("inf");
    let infinity = chars_of("infinity");
    let nan = chars_of("nan");
    if eq_ignore_case_from(v, start, &inf) || eq_ignore_case_from(v, start, &infinity)
        || eq_ignore_case_from(v, start, &nan) {
        return true;
    }
    let mut k: usize = start;
    while k < n && !(v[k] == 'e' || v[k] == 'E')
        invariant
            start <= k <= n == v.len(),
            u == v@.subrange(start as int, n as int),
            forall|i: int| 0 <= i < k - start ==> !is_exp_letter(#[trigger] u[i]),
        decreases n - k,
    {
        k = k + 1;
    }
    if k == n {
        proof {
            lemma_number_plain(u);
        }
        mantissa_ok(v, start, n)
    } else {
        proof {
            lemma_number_split(u, k - start);
            assert(u.take(k - start) =~= v@.subrange(start as int, k as int));
            assert(u.skip(k - start + 1) =~= v@.subrange(k + 1, n as int));
        }
        mantissa_ok(v, start, k) && exponent_ok(v, k + 1)
    }
}

} // verus!
