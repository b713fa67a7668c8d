//! Building text: appending strings and decimal numbers (optionally zero-padded
//! to a width, as `format!("{n:0width$}")` does) to a character buffer.
use vstd::prelude::*;
use crate::text::str_to_chars;

verus! {

/// The character of a decimal digit.
pub open spec fn digit_char(d: int) -> char {
    (0x30 + d) as char
}

/// The decimal digits of `n`, without leading zeros (`0` for zero).
pub open spec fn decimal(n: nat) -> Seq<char>
    decreases n,
{
    if n < 10 {
        seq![digit_char(n as int)]
    } else {
        decimal(n / 10).push(digit_char((n % 10) as int))
    }
}

/// `s` padded on the left with zeros to at least `width` characters.
pub open spec fn zero_padded(s: Seq<char>, width: nat) -> Seq<char> {
    if s.len() >= width {
        s
    } else {
        Seq::new((width - s.len()) as nat, |i: int| '0') + s
    }
}

/// The decimal rendering of `n` padded with zeros to `width` characters.
pub open spec fn padded_decimal(n: nat, width: nat) -> Seq<char> {
    zero_padded(decimal(n), width)
}

/// Every decimal rendering has at least one digit.
pub proof fn lemma_decimal_len(n: nat)
    ensures
        decimal(n).len() >= 1,
    decreases n,
{
    if n >= 10 {
        lemma_decimal_len(n / 10);
    }
}

/// Different numbers have different decimal renderings.
pub proof fn lemma_decimal_injective(a: nat, b: nat)
    requires
        decimal(a) == decimal(b),
    ensures
        a == b,
    decreases a,
{
    if a >= 10 {
        lemma_decimal_len(a / 10);
    }
    if b >= 10 {
        lemma_decimal_len(b / 10);
    }
    if a < 10 && b < 10 {
        assert(decimal(a)[0] == digit_char(a as int));
        assert(decimal(b)[0] == digit_char(b as int));
    } else if a >= 10 && b >= 10 {
        let da = decimal(a / 10);
        let db = decimal(b / 10);
        assert(decimal(a).last() == digit_char((a % 10) as int));
        assert(decimal(b).last() == digit_char((b % 10) as int));
        assert(decimal(a).drop_last() == da);
        assert(decimal(b).drop_last() == db);
        lemma_decimal_injective(a / 10, b / 10);
    } else if a < 10 {
        assert(decimal(a).len() == 1);
        assert(decimal(b) == decimal(b / 10).push(digit_char((b % 10) as int)));
    } else {
        assert(decimal(b).len() == 1);
        assert(decimal(a) == decimal(a / 10).push(digit_char((a % 10) as int)));
    }
}

/// Appends the characters of `s`.
pub fn push_str(v: &mut Vec<char>, s: &str)
    ensures
        final(v)@ == old(v)@ + s@,
{
    let chars = str_to_chars(s);
    push_chars(v, &chars);
}

/// Appends a run of characters.
pub fn push_chars(v: &mut Vec<char>, chars: &[char])
    ensures
        final(v)@ == old(v)@ + chars@,
{
    let ghost base = v@;
    let mut i: usize = 0;
    while i < chars.len()
        invariant
            i <= chars.len(),
            v@ == base + chars@.take(i as int),
        decreases chars.len() - i,
    {
        v.push(chars[i]);
        i += 1;
        assert(base + chars@.take(i as int) == (base + chars@.take(i - 1)).push(chars@[i - 1]));
    }
    assert(chars@.take(chars.len() as int) == chars@);
}

/// The decimal digits of a number.
pub fn decimal_chars(n: u128) -> (r: Vec<char>)
    ensures
        r@ == decimal(n as nat),
    decreases n,
{
    if n < 10 {
        let c = ((n as u8) + 0x30) as char;
        let mut r: Vec<char> = Vec::new();
        r.push(c);
        r
    } else {
        let mut r = decimal_chars(n / 10);
        let d = ((n % 10) as u8 + 0x30) as char;
        r.push(d);
        r
    }
}

/// Appends the decimal digits of a number.
pub fn push_decimal(v: &mut Vec<char>, n: u128)
    ensures
        final(v)@ == old(v)@ + decimal(n as nat),
{
    let digits = decimal_chars(n);
    push_chars(v, &digits);
}

/// Appends the decimal digits of a number, zero-padded to `width` characters.
pub fn push_padded_decimal(v: &mut Vec<char>, n: u128, width: usize)
    ensures
        final(v)@ == old(v)@ + padded_decimal(n as nat, width as nat),
{
    let digits = decimal_chars(n);
    let ghost base = v@;
    let mut k: usize = digits.len();
    while k < width
        invariant
            digits.len() <= k <= width || (k == digits.len() && k >= width),
            v@ == base + Seq::new((k - digits.len()) as nat, |i: int| '0'),
        decreases width - k,
    {
        v.push('0');
        k += 1;
        assert(Seq::new((k - digits.len()) as nat, |i: int| '0') == Seq::new(
            (k - 1 - digits.len()) as nat,
            |i: int| '0',
        ).push('0'));
    }
    let ghost pad = v@;
    push_chars(v, &digits);
    proof {
        if digits.len() >= width {
            assert(Seq::new(0, |i: int| '0') + decimal(n as nat) == decimal(n as nat));
            assert(pad == base + Seq::new(0, |i: int| '0'));
            assert(pad == base);
        } else {
            assert(k == width);
        }
        assert(v@ == base + padded_decimal(n as nat, width as nat));
    }
}

} // verus!
