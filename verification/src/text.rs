//! Character-level helpers: turning strings into character vectors and back,
//! Unicode whitespace trimming and the unsigned integer syntax that `str::parse`
//! and `from_str_radix` accept.
use vstd::prelude::*;

verus! {

/// Appends one character to a string.
///
/// Trusted: `String::push`, documented as appending the given `char` to the end
/// of the string.
#[verifier::external_body]
pub(crate) fn push_char(s: &mut String, c: char)
    ensures
        final(s)@ == old(s)@.push(c),
{
    s.push(c);
}

/// The character with the given code point, if it is a Unicode scalar value.
///
/// Trusted: `char::from_u32`, documented to return `None` exactly for values
/// above `0x10FFFF` and for surrogate code points.
#[verifier::external_body]
pub(crate) fn char_from_u32(code: u32) -> (c: Option<char>)
    ensures
        c is Some <==> is_scalar_value(code as int),
        c matches Some(ch) ==> ch as int == code as int,
{
    char::from_u32(code)
}

/// Unicode scalar values: code points up to `0x10FFFF` that are not surrogates.
pub open spec fn is_scalar_value(code: int) -> bool {
    0 <= code <= 0x10FFFF && !(0xD800 <= code <= 0xDFFF)
}

/// The characters of a string slice, in order.
pub fn str_to_chars(s: &str) -> (v: Vec<char>)
    ensures
        v@ == s@,
{
    let mut v: Vec<char> = Vec::new();
    for c in it: s.chars()
        invariant
            it.seq() == s@,
            v@ == it.seq().take(it.index()),
    {
        v.push(c);
    }
    v
}

/// A new string holding the given characters.
pub fn string_from_chars(chars: &[char]) -> (s: String)
    ensures
        s@ == chars@,
{
    let mut s = String::new();
    let mut i: usize = 0;
    while i < chars.len()
        invariant
            i <= chars.len(),
            s@ == chars@.take(i as int),
        decreases chars.len() - i,
    {
        push_char(&mut s, chars[i]);
        i += 1;
        assert(chars@.take(i as int) == chars@.take(i - 1).push(chars@[i - 1]));
    }
    assert(chars@.take(chars.len() as int) == chars@);
    s
}

/// Characters with the Unicode `White_Space` property, which `char::is_whitespace`
/// and `str::trim` use.
pub open spec fn is_unicode_whitespace(c: char) -> bool {
    let v = c as int;
    (0x09 <= v <= 0x0D) || v == 0x20 || v == 0x85 || v == 0xA0 || v == 0x1680 || (0x2000 <= v
        <= 0x200A) || v == 0x2028 || v == 0x2029 || v == 0x202F || v == 0x205F || v == 0x3000
}

/// Whether `c` has the Unicode `White_Space` property.
pub fn is_whitespace(c: char) -> (b: bool)
    ensures
        b == is_unicode_whitespace(c),
{
    let v = c as u32;
    (0x09 <= v && v <= 0x0D) || v == 0x20 || v == 0x85 || v == 0xA0 || v == 0x1680 || (0x2000
        <= v && v <= 0x200A) || v == 0x2028 || v == 0x2029 || v == 0x202F || v == 0x205F || v
        == 0x3000
}

/// Number of leading whitespace characters.
pub open spec fn leading_ws(s: Seq<char>) -> nat
    decreases s.len(),
{
    if s.len() > 0 && is_unicode_whitespace(s[0]) {
        1 + leading_ws(s.drop_first())
    } else {
        0
    }
}

/// Number of trailing whitespace characters.
pub open spec fn trailing_ws(s: Seq<char>) -> nat
    decreases s.len(),
{
    if s.len() > 0 && is_unicode_whitespace(s.last()) {
        1 + trailing_ws(s.drop_last())
    } else {
        0
    }
}

/// `s` without leading whitespace (`str::trim_start`).
pub open spec fn trim_start(s: Seq<char>) -> Seq<char> {
    s.skip(leading_ws(s) as int)
}

/// `s` without trailing whitespace (`str::trim_end`).
pub open spec fn trim_end(s: Seq<char>) -> Seq<char> {
    s.take(s.len() - trailing_ws(s))
}

/// `s` without leading and trailing whitespace (`str::trim`).
pub open spec fn trim(s: Seq<char>) -> Seq<char> {
    trim_end(trim_start(s))
}

proof fn lemma_leading_ws_bound(s: Seq<char>)
    ensures
        leading_ws(s) <= s.len(),
        forall|i: int| 0 <= i < leading_ws(s) ==> is_unicode_whitespace(#[trigger] s[i]),
        leading_ws(s) < s.len() ==> !is_unicode_whitespace(s[leading_ws(s) as int]),
    decreases s.len(),
{
    if s.len() > 0 && is_unicode_whitespace(s[0]) {
        lemma_leading_ws_bound(s.drop_first());
        assert forall|i: int| 0 <= i < leading_ws(s) implies is_unicode_whitespace(#[trigger] s[i]) by {
            if i > 0 {
                assert(s[i] == s.drop_first()[i - 1]);
            }
        }
    }
}

proof fn lemma_trailing_ws_bound(s: Seq<char>)
    ensures
        trailing_ws(s) <= s.len(),
        forall|i: int| s.len() - trailing_ws(s) <= i < s.len() ==> is_unicode_whitespace(#[trigger] s[i]),
        trailing_ws(s) < s.len() ==> !is_unicode_whitespace(s[s.len() - trailing_ws(s) - 1]),
    decreases s.len(),
{
    if s.len() > 0 && is_unicode_whitespace(s.last()) {
        lemma_trailing_ws_bound(s.drop_last());
        assert forall|i: int| s.len() - trailing_ws(s) <= i < s.len() implies is_unicode_whitespace(#[trigger] s[i]) by {
            if i < s.len() - 1 {
                assert(s[i] == s.drop_last()[i]);
            }
        }
    }
}

/// The leading whitespace count is the first non-whitespace position.
proof fn lemma_leading_ws_exact(s: Seq<char>, k: int)
    requires
        0 <= k <= s.len(),
        forall|i: int| 0 <= i < k ==> is_unicode_whitespace(#[trigger] s[i]),
        k < s.len() ==> !is_unicode_whitespace(s[k]),
    ensures
        leading_ws(s) == k,
    decreases k,
{
    if k > 0 {
        assert(is_unicode_whitespace(s[0]));
        let t = s.drop_first();
        assert forall|i: int| 0 <= i < k - 1 implies is_unicode_whitespace(#[trigger] t[i]) by {
            assert(t[i] == s[i + 1]);
        }
        if k - 1 < t.len() {
            assert(t[k - 1] == s[k]);
        }
        lemma_leading_ws_exact(t, k - 1);
    } else if s.len() > 0 {
        assert(!is_unicode_whitespace(s[0]));
    }
}

/// The trailing whitespace count is the distance from the last non-whitespace character.
proof fn lemma_trailing_ws_exact(s: Seq<char>, k: int)
    requires
        0 <= k <= s.len(),
        forall|i: int| s.len() - k <= i < s.len() ==> is_unicode_whitespace(#[trigger] s[i]),
        k < s.len() ==> !is_unicode_whitespace(s[s.len() - k - 1]),
    ensures
        trailing_ws(s) == k,
    decreases k,
{
    if k > 0 {
        assert(is_unicode_whitespace(s[s.len() - 1]));
        let t = s.drop_last();
        assert forall|i: int| t.len() - (k - 1) <= i < t.len() implies is_unicode_whitespace(#[trigger] t[i]) by {
            assert(t[i] == s[i]);
        }
        if k - 1 < t.len() {
            assert(t[t.len() - (k - 1) - 1] == s[s.len() - k - 1]);
        }
        lemma_trailing_ws_exact(t, k - 1);
    } else if s.len() > 0 {
        assert(!is_unicode_whitespace(s[s.len() - 1]));
    }
}

/// The bounds `(start, end)` of `s` with surrounding whitespace removed.
pub fn trim_bounds(s: &[char]) -> (r: (usize, usize))
    ensures
        r.0 <= r.1 <= s.len(),
        s@.subrange(r.0 as int, r.1 as int) == trim(s@),
{
    let mut start: usize = 0;
    while start < s.len() && is_whitespace(s[start])
        invariant
            start <= s.len(),
            forall|i: int| 0 <= i < start ==> is_unicode_whitespace(#[trigger] s@[i]),
        decreases s.len() - start,
    {
        start += 1;
    }
    proof {
        lemma_leading_ws_exact(s@, start as int);
    }
    let ghost t = s@.skip(start as int);
    let mut end: usize = s.len();
    while end > start && is_whitespace(s[end - 1])
        invariant
            start <= end <= s.len(),
            t == s@.skip(start as int),
            forall|i: int| end <= i < s.len() ==> is_unicode_whitespace(#[trigger] s@[i]),
        decreases end,
    {
        end -= 1;
    }
    proof {
        let k = s.len() - end;
        assert forall|i: int| t.len() - k <= i < t.len() implies is_unicode_whitespace(#[trigger] t[i]) by {
            assert(t[i] == s@[i + start]);
        }
        if k < t.len() {
            assert(t[t.len() - k - 1] == s@[end - 1]);
        }
        lemma_trailing_ws_exact(t, k);
        assert(s@.subrange(start as int, end as int) == t.take(t.len() - k));
    }
    (start, end)
}

/// Value of a digit character in the given radix (2 to 36), as `char::to_digit` defines it.
pub open spec fn digit_value(c: char, radix: int) -> int {
    let v = c as int;
    let d = if 0x30 <= v <= 0x39 {
        v - 0x30
    } else if 0x61 <= v <= 0x7A {
        v - 0x61 + 10
    } else if 0x41 <= v <= 0x5A {
        v - 0x41 + 10
    } else {
        36
    };
    if d < radix {
        d
    } else {
        -1
    }
}

/// Whether every character of `s` is a digit of the radix.
pub open spec fn all_digits(s: Seq<char>, radix: int) -> bool {
    forall|i: int| 0 <= i < s.len() ==> digit_value(#[trigger] s[i], radix) >= 0
}

/// The number that a string of digits denotes.
pub open spec fn digits_value(s: Seq<char>, radix: int) -> int
    decreases s.len(),
{
    if s.len() == 0 {
        0
    } else {
        digits_value(s.drop_last(), radix) * radix + digit_value(s.last(), radix)
    }
}

/// The digits of an unsigned number: a lone leading `+` is dropped.
pub open spec fn unsigned_digits(s: Seq<char>) -> Seq<char> {
    if s.len() > 0 && s[0] == '+' {
        s.drop_first()
    } else {
        s
    }
}

/// What `from_str_radix` of an unsigned type with maximum `max` gives for `s`:
/// an optional `+`, then one or more digits, with a value of at most `max`.
pub open spec fn parse_unsigned_spec(s: Seq<char>, radix: int, max: int) -> Option<int> {
    let d = unsigned_digits(s);
    if d.len() == 0 || !all_digits(d, radix) || digits_value(d, radix) > max {
        None
    } else {
        Some(digits_value(d, radix))
    }
}

proof fn lemma_digits_value_nonneg(s: Seq<char>, radix: int)
    requires
        all_digits(s, radix),
        radix >= 1,
    ensures
        digits_value(s, radix) >= 0,
    decreases s.len(),
{
    if s.len() > 0 {
        let t = s.drop_last();
        assert forall|i: int| 0 <= i < t.len() implies digit_value(#[trigger] t[i], radix) >= 0 by {
            assert(t[i] == s[i]);
        }
        lemma_digits_value_nonneg(t, radix);
        let a = digits_value(t, radix);
        assert(a * radix >= 0) by (nonlinear_arith)
            requires
                a >= 0,
                radix >= 1,
        ;
    }
}

/// A prefix of a digit string denotes no more than the whole string.
proof fn lemma_digits_value_prefix(s: Seq<char>, radix: int, k: int)
    requires
        all_digits(s, radix),
        radix >= 1,
        0 <= k <= s.len(),
    ensures
        digits_value(s.take(k), radix) <= digits_value(s, radix),
    decreases s.len(),
{
    if k < s.len() {
        let t = s.drop_last();
        assert forall|i: int| 0 <= i < t.len() implies digit_value(#[trigger] t[i], radix) >= 0 by {
            assert(t[i] == s[i]);
        }
        assert(t.take(k) == s.take(k));
        lemma_digits_value_prefix(t, radix, k);
        lemma_digits_value_nonneg(t, radix);
        let a = digits_value(t, radix);
        assert(a * radix >= a) by (nonlinear_arith)
            requires
                a >= 0,
                radix >= 1,
        ;
    } else {
        assert(s.take(k) == s);
    }
}

/// Value of a digit character, or 36 when it is no digit of any radix.
fn char_digit(c: char, radix: u32) -> (d: u32)
    requires
        2 <= radix <= 36,
    ensures
        digit_value(c, radix as int) >= 0 ==> d as int == digit_value(c, radix as int),
        digit_value(c, radix as int) < 0 ==> d >= radix,
{
    let v = c as u32;
    let d = if 0x30 <= v && v <= 0x39 {
        v - 0x30
    } else if 0x61 <= v && v <= 0x7A {
        v - 0x61 + 10
    } else if 0x41 <= v && v <= 0x5A {
        v - 0x41 + 10
    } else {
        36
    };
    d
}

/// Parses an unsigned number in the given radix with the rules of
/// `u32::from_str_radix`, rejecting values above `max`.
pub fn parse_unsigned(s: &[char], radix: u32, max: u32) -> (r: Option<u32>)
    requires
        2 <= radix <= 36,
    ensures
        r matches Some(v) ==> parse_unsigned_spec(s@, radix as int, max as int) == Some(v as int),
        r is None ==> parse_unsigned_spec(s@, radix as int, max as int) is None,
{
    let start: usize = if s.len() > 0 && s[0] == '+' {
        1
    } else {
        0
    };
    let ghost d = unsigned_digits(s@);
    assert(d == s@.skip(start as int));
    if start == s.len() {
        return None;
    }
    let mut acc: u64 = 0;
    let mut i: usize = start;
    while i < s.len()
        invariant
            start <= i <= s.len(),
            d == s@.skip(start as int),
            d == unsigned_digits(s@),
            d.len() > 0,
            2 <= radix <= 36,
            all_digits(d.take(i - start), radix as int),
            acc as int == digits_value(d.take(i - start), radix as int),
            acc <= max,
        decreases s.len() - i,
    {
        let digit = char_digit(s[i], radix);
        let ghost k = i - start;
        assert(d[k] == s@[i as int]);
        if digit >= radix {
            assert(!all_digits(d, radix as int)) by {
                assert(digit_value(d[k], radix as int) < 0);
            }
            return None;
        }
        assert(d.take(k + 1).drop_last() == d.take(k));
        assert(d.take(k + 1).last() == d[k]);
        assert(all_digits(d.take(k + 1), radix as int)) by {
            assert forall|j: int| 0 <= j < k + 1 implies digit_value(#[trigger] d.take(k + 1)[j], radix as int) >= 0 by {
                if j < k {
                    assert(d.take(k + 1)[j] == d.take(k)[j]);
                }
            }
        }
        assert(acc * radix + digit <= 0xffff_ffffu64 * 36 + 36) by (nonlinear_arith)
            requires
                acc <= 0xffff_ffffu64,
                radix <= 36,
                digit < radix,
        ;
        let next = acc * (radix as u64) + (digit as u64);
        if next > max as u64 {
            proof {
                assert(digits_value(d.take(k + 1), radix as int) == next);
                if all_digits(d, radix as int) {
                    lemma_digits_value_prefix(d, radix as int, k + 1);
                }
            }
            return None;
        }
        acc = next;
        i += 1;
    }
    assert(d.take(i - start) == d);
    Some(acc as u32)
}

} // verus!
