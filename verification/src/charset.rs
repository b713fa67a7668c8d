//! Character sets for font baking: free text, code point ranges such as
//! `U+0020-U+007F, 0x4E00`, and the charset file format that keeps every
//! character but line breaks.
use vstd::prelude::*;
use crate::seqs::{
    collect_marked, empty_table, find_char, find_char_from, is_sorted_set_of,
    lemma_char_in_code_space, lemma_find_char, sorted_unique, split_on, split_once, CODE_SPACE,
};
use crate::text::{
    is_scalar_value, parse_unsigned, parse_unsigned_spec, str_to_chars, trim, trim_bounds,
};

verus! {

/// Membership in a charset file: any character of the text but CR and LF.
pub open spec fn charset_file_member(text: Seq<char>, c: char) -> bool {
    text.contains(c) && c != '\r' && c != '\n'
}

/// The distinct characters of a charset text, ignoring line endings, in
/// increasing order.
pub fn parse(text: &str) -> (r: Vec<char>)
    ensures
        is_sorted_set_of(r@, |c: char| charset_file_member(text@, c)),
{
    let chars = str_to_chars(text);
    let mut kept: Vec<char> = Vec::new();
    let mut i: usize = 0;
    while i < chars.len()
        invariant
            i <= chars.len(),
            chars@ == text@,
            forall|c: char| kept@.contains(c) <==> charset_file_member(chars@.take(i as int), c),
        decreases chars.len() - i,
    {
        let c = chars[i];
        let ghost old_kept = kept@;
        if c != '\r' && c != '\n' {
            kept.push(c);
        }
        assert forall|d: char| kept@.contains(d) <==> charset_file_member(chars@.take(i + 1), d) by {
            let prev = chars@.take(i as int);
            let next = chars@.take(i + 1);
            assert(next == prev.push(c));
            if kept@.contains(d) {
                let k = choose|k: int| 0 <= k < kept@.len() && kept@[k] == d;
                if k < old_kept.len() {
                    assert(old_kept.contains(d));
                    let j = choose|j: int| 0 <= j < prev.len() && prev[j] == d;
                    assert(next[j] == d);
                } else {
                    assert(next[i as int] == d);
                }
            }
            if charset_file_member(next, d) {
                let j = choose|j: int| 0 <= j < next.len() && next[j] == d;
                if j < i {
                    assert(prev[j] == d);
                    assert(old_kept.contains(d));
                    let k = choose|k: int| 0 <= k < old_kept.len() && old_kept[k] == d;
                    assert(kept@[k] == d);
                } else {
                    assert(kept@[old_kept.len() as int] == d);
                }
            }
        }
        i += 1;
    }
    assert(chars@.take(chars.len() as int) == chars@);
    sorted_unique(&kept)
}

/// The characters of a charset given as free text, in order and with repeats.
pub fn parse_charset_text(text: &str) -> (r: Vec<char>)
    ensures
        r@ == text@,
{
    str_to_chars(text)
}

/// The code point that a range bound denotes: `U+XXXX`, `u+XXXX`, `0xXXXX`
/// and `0XXXXX` are hexadecimal, anything else decimal, after trimming.
pub open spec fn codepoint_spec(s: Seq<char>) -> Option<int> {
    let t = trim(s);
    if t.len() >= 2 && (t[0] == 'U' || t[0] == 'u') && t[1] == '+' {
        parse_unsigned_spec(t.skip(2), 16, 0xffff_ffff)
    } else if t.len() >= 2 && t[0] == '0' && (t[1] == 'x' || t[1] == 'X') {
        parse_unsigned_spec(t.skip(2), 16, 0xffff_ffff)
    } else {
        parse_unsigned_spec(t, 10, 0xffff_ffff)
    }
}

/// Parses one code point of a range list, on characters.
pub fn codepoint_of(s: &[char]) -> (r: Option<u32>)
    ensures
        r matches Some(v) ==> codepoint_spec(s@) == Some(v as int),
        r is None ==> codepoint_spec(s@) is None,
{
    let (a, b) = trim_bounds(s);
    let t = &s[a..b];
    assert(t@ == trim(s@));
    if t.len() >= 2 && (t[0] == 'U' || t[0] == 'u') && t[1] == '+' {
        let rest = &t[2..t.len()];
        assert(rest@ == t@.skip(2));
        parse_unsigned(rest, 16, 0xffff_ffff)
    } else if t.len() >= 2 && t[0] == '0' && (t[1] == 'x' || t[1] == 'X') {
        let rest = &t[2..t.len()];
        assert(rest@ == t@.skip(2));
        parse_unsigned(rest, 16, 0xffff_ffff)
    } else {
        parse_unsigned(t, 10, 0xffff_ffff)
    }
}

/// Parses one code point of a range list (`U+XXXX`, `0xXXXX` or decimal).
pub fn parse_codepoint(s: &str) -> (r: Option<u32>)
    ensures
        r matches Some(v) ==> codepoint_spec(s@) == Some(v as int),
        r is None ==> codepoint_spec(s@) is None,
{
    let chars = str_to_chars(s);
    codepoint_of(&chars)
}

/// The inclusive code point range that one comma-separated part denotes:
/// `A-B`, or a single code point `A`.
pub open spec fn part_range(part: Seq<char>) -> Option<(int, int)> {
    let p = trim(part);
    if p.len() == 0 {
        None
    } else {
        match split_once(p, '-') {
            Some((a, b)) => match (codepoint_spec(trim(a)), codepoint_spec(trim(b))) {
                (Some(s), Some(e)) => Some((s, e)),
                _ => None,
            },
            None => match codepoint_spec(p) {
                Some(c) => Some((c, c)),
                None => None,
            },
        }
    }
}

/// Whether a part of a range list covers the code point `code`.
pub open spec fn part_covers_code(part: Seq<char>, code: int) -> bool {
    match part_range(part) {
        Some((s, e)) => s <= code <= e,
        None => false,
    }
}

/// Whether a part of a range list covers the character `c`.
pub open spec fn part_covers(part: Seq<char>, c: char) -> bool {
    part_covers_code(part, c as int)
}

/// Whether a range list such as `U+0020-U+007F, 0x4E00` covers `c`.
pub open spec fn ranges_cover(input: Seq<char>, c: char) -> bool {
    exists|i: int| 0 <= i < split_on(input, ',').len() && part_covers(#[trigger] split_on(input, ',')[i], c)
}

/// A code point is never written with no characters.
proof fn lemma_codepoint_nonempty(s: Seq<char>)
    requires
        codepoint_spec(s) is Some,
    ensures
        s.len() > 0,
{
    if s.len() == 0 {
        assert(crate::text::leading_ws(s) == 0);
        assert(trim(s).len() == 0);
        assert(crate::text::unsigned_digits(trim(s)).len() == 0);
    }
}

/// A range list covers every character written alone as one of its
/// comma-separated parts, and every character between the two ends of a
/// part written `A-B`.
pub proof fn lemma_ranges_cover_their_parts(input: Seq<char>)
    ensures
        forall|i: int, c: char|
            0 <= i < split_on(input, ',').len() && find_char(trim(#[trigger] split_on(input, ',')[i]), '-') is None
                && codepoint_spec(trim(split_on(input, ',')[i])) == Some(c as int) ==> #[trigger] ranges_cover(
                input,
                c,
            ),
        forall|i: int, c: char|
            0 <= i < split_on(input, ',').len() && (split_once(trim(#[trigger] split_on(input, ',')[i]), '-') matches Some(
                (a, b),
            ) && codepoint_spec(trim(a)) matches Some(lo) && codepoint_spec(trim(b)) matches Some(hi) && lo <= c
                as int <= hi) ==> #[trigger] ranges_cover(input, c),
        forall|c: char|
            #[trigger] ranges_cover(input, c) ==> exists|i: int|
                0 <= i < split_on(input, ',').len() && {
                    let p = trim(#[trigger] split_on(input, ',')[i]);
                    ||| find_char(p, '-') is None && codepoint_spec(p) == Some(c as int)
                    ||| split_once(p, '-') matches Some((a, b)) && codepoint_spec(trim(a)) matches Some(lo)
                        && codepoint_spec(trim(b)) matches Some(hi) && lo <= c as int <= hi
                },
{
    assert forall|c: char| #[trigger] ranges_cover(input, c) implies exists|i: int|
        0 <= i < split_on(input, ',').len() && {
            let p = trim(#[trigger] split_on(input, ',')[i]);
            ||| find_char(p, '-') is None && codepoint_spec(p) == Some(c as int)
            ||| split_once(p, '-') matches Some((a, b)) && codepoint_spec(trim(a)) matches Some(lo)
                && codepoint_spec(trim(b)) matches Some(hi) && lo <= c as int <= hi
        } by {
        let i = choose|i: int| 0 <= i < split_on(input, ',').len() && part_covers(#[trigger] split_on(input, ',')[i], c);
        let part = split_on(input, ',')[i];
        assert(part_range(part) is Some);
    }
    assert forall|i: int, c: char|
        0 <= i < split_on(input, ',').len() && find_char(trim(#[trigger] split_on(input, ',')[i]), '-') is None
            && codepoint_spec(trim(split_on(input, ',')[i])) == Some(c as int) implies #[trigger] ranges_cover(
        input,
        c,
    ) by {
        let part = split_on(input, ',')[i];
        lemma_codepoint_nonempty(trim(part));
        assert(split_once(trim(part), '-') is None);
        assert(part_range(part) == Some((c as int, c as int)));
        assert(part_covers(part, c));
    }
    assert forall|i: int, c: char|
        0 <= i < split_on(input, ',').len() && (split_once(trim(#[trigger] split_on(input, ',')[i]), '-') matches Some(
            (a, b),
        ) && codepoint_spec(trim(a)) matches Some(lo) && codepoint_spec(trim(b)) matches Some(hi) && lo <= c as int
            <= hi) implies #[trigger] ranges_cover(input, c) by {
        let part = split_on(input, ',')[i];
        assert(trim(part).len() > 0);
        assert(part_covers(part, c));
    }
}

/// Inclusive code point range of one part of a range list.
fn part_range_of(part: &[char]) -> (r: Option<(u32, u32)>)
    ensures
        r matches Some((s, e)) ==> part_range(part@) == Some((s as int, e as int)),
        r is None ==> part_range(part@) is None,
{
    let (a, b) = trim_bounds(part);
    let p = &part[a..b];
    assert(p@ == trim(part@));
    if p.len() == 0 {
        return None;
    }
    match find_char_from(p, '-', 0) {
        Some(k) => {
            assert(p@.skip(0) == p@);
            let left = &p[0..k];
            let right = &p[k + 1..p.len()];
            assert(left@ == p@.take(k as int));
            assert(right@ == p@.skip(k + 1));
            let (la, lb) = trim_bounds(left);
            let (ra, rb) = trim_bounds(right);
            let s = codepoint_of(&left[la..lb]);
            let e = codepoint_of(&right[ra..rb]);
            match (s, e) {
                (Some(s), Some(e)) => Some((s, e)),
                _ => None,
            }
        },
        None => {
            assert(p@.skip(0) == p@);
            match codepoint_of(p) {
                Some(c) => Some((c, c)),
                None => None,
            }
        },
    }
}

/// Splitting at the first separator yields the part before it, then the
/// splitting of the rest.
proof fn lemma_split_step(s: Seq<char>, from: int, k: int)
    requires
        0 <= from <= k < s.len(),
        find_char(s.skip(from), ',') == Some(k - from),
    ensures
        split_on(s.skip(from), ',') == seq![s.subrange(from, k)] + split_on(s.skip(k + 1), ','),
{
    let t = s.skip(from);
    lemma_find_char(t, ',');
    assert(t.take(k - from) == s.subrange(from, k));
    assert(t.skip(k - from + 1) == s.skip(k + 1));
}

/// Marks in `table` every scalar value in `[start, end]`.
fn mark_range(table: &mut Vec<bool>, start: u32, end: u32)
    requires
        old(table).len() == CODE_SPACE,
    ensures
        final(table).len() == CODE_SPACE,
        forall|i: int|
            0 <= i < CODE_SPACE ==> #[trigger] final(table)@[i] == (old(table)@[i] || (start <= i
                <= end && is_scalar_value(i))),
{
    let ghost before = table@;
    if start > end || start >= 0x110000 {
        return;
    }
    let last: u32 = if end > 0x10FFFF {
        0x10FFFF
    } else {
        end
    };
    let mut cp: u32 = start;
    while cp <= last
        invariant
            start <= cp <= last + 1,
            last <= 0x10FFFF,
            last <= end,
            table.len() == CODE_SPACE,
            forall|i: int|
                0 <= i < CODE_SPACE ==> #[trigger] table@[i] == (before[i] || (start <= i < cp
                    && is_scalar_value(i))),
        decreases last + 1 - cp,
    {
        if !(0xD800 <= cp && cp <= 0xDFFF) {
            table.set(cp as usize, true);
        }
        cp += 1;
    }
}

/// Whether some part in `parts` covers the code point `code`.
pub open spec fn some_part_covers(parts: Seq<Seq<char>>, code: int) -> bool {
    exists|j: int| 0 <= j < parts.len() && #[trigger] part_covers_code(parts[j], code)
}

proof fn lemma_some_part_covers_push(parts: Seq<Seq<char>>, p: Seq<char>, code: int)
    ensures
        some_part_covers(parts.push(p), code) <==> (some_part_covers(parts, code)
            || part_covers_code(p, code)),
{
    let q = parts.push(p);
    if some_part_covers(q, code) {
        let j = choose|j: int| 0 <= j < q.len() && #[trigger] part_covers_code(q[j], code);
        if j < parts.len() {
            assert(q[j] == parts[j]);
        }
    }
    if some_part_covers(parts, code) {
        let j = choose|j: int| 0 <= j < parts.len() && #[trigger] part_covers_code(parts[j], code);
        assert(q[j] == parts[j]);
    }
    if part_covers_code(p, code) {
        assert(q[parts.len() as int] == p);
    }
}

/// The characters that a range list such as `U+0020-U+007F, 0x4E00` names,
/// in increasing order and once each. Malformed parts and reversed ranges are
/// skipped.
pub fn parse_charset_ranges(input: &str) -> (r: Vec<char>)
    ensures
        is_sorted_set_of(r@, |c: char| ranges_cover(input@, c)),
        forall|i: int, c: char|
            0 <= i < split_on(input@, ',').len() && find_char(trim(#[trigger] split_on(input@, ',')[i]), '-') is None
                && codepoint_spec(trim(split_on(input@, ',')[i])) == Some(c as int) ==> #[trigger] r@.contains(c),
{
    proof {
        lemma_ranges_cover_their_parts(input@);
    }
    let chars = str_to_chars(input);
    let mut table = empty_table();
    let ghost parts = split_on(chars@, ',');
    let ghost mut done: Seq<Seq<char>> = Seq::empty();
    let mut from: usize = 0;
    assert(chars@.skip(0) == chars@);
    assert(parts == done + split_on(chars@.skip(from as int), ','));
    loop
        invariant_except_break
            parts == done + split_on(chars@.skip(from as int), ','),
        invariant
            from <= chars.len(),
            chars@ == input@,
            parts == split_on(chars@, ','),
            table.len() == CODE_SPACE,
            forall|i: int|
                0 <= i < CODE_SPACE ==> (#[trigger] table@[i] <==> (is_scalar_value(i)
                    && some_part_covers(done, i))),
        ensures
            parts == done,
        decreases chars.len() - from,
    {
        let next = find_char_from(&chars, ',', from);
        let end = match next {
            Some(k) => k,
            None => chars.len(),
        };
        let part = &chars[from..end];
        let ghost old_table = table@;
        let ghost old_done = done;
        let range = part_range_of(part);
        match range {
            Some((s, e)) => mark_range(&mut table, s, e),
            None => {},
        }
        proof {
            done = done.push(part@);
            assert forall|i: int| 0 <= i < CODE_SPACE implies (#[trigger] table@[i] <==> (
            is_scalar_value(i) && some_part_covers(done, i))) by {
                lemma_some_part_covers_push(old_done, part@, i);
            }
        }
        match next {
            Some(k) => {
                proof {
                    lemma_split_step(chars@, from as int, k as int);
                    assert(part@ == chars@.subrange(from as int, k as int));
                    assert(parts == done + split_on(chars@.skip(k + 1), ','));
                }
                from = k + 1;
            },
            None => {
                proof {
                    let t = chars@.skip(from as int);
                    assert(part@ == t);
                    assert(split_on(t, ',') == seq![t]);
                    assert(parts == done);
                }
                break ;
            },
        }
    }
    let r = collect_marked(&table);
    proof {
        assert forall|c: char| r@.contains(c) <==> ranges_cover(input@, c) by {
            lemma_char_in_code_space(c);
            let i = c as int;
            if table@[i] {
                let j = choose|j: int| 0 <= j < done.len() && #[trigger] part_covers_code(done[j], i);
                assert(part_covers(parts[j], c));
            }
            if ranges_cover(input@, c) {
                let j = choose|j: int| 0 <= j < parts.len() && part_covers(#[trigger] parts[j], c);
                assert(part_covers_code(done[j], i));
            }
        }
    }
    r
}

} // verus!
