//! Searching and splitting character sequences, and turning a collection of
//! characters into the sorted set of its members.
use vstd::prelude::*;

verus! {

/// Index of the first occurrence of `c` in `s`.
pub open spec fn find_char(s: Seq<char>, c: char) -> Option<int>
    decreases s.len(),
{
    if s.len() == 0 {
        None
    } else if s[0] == c {
        Some(0)
    } else {
        match find_char(s.drop_first(), c) {
            Some(k) => Some(k + 1),
            None => None,
        }
    }
}

/// Index of the last occurrence of `c` in `s`.
pub open spec fn rfind_char(s: Seq<char>, c: char) -> Option<int>
    decreases s.len(),
{
    if s.len() == 0 {
        None
    } else if s.last() == c {
        Some(s.len() - 1)
    } else {
        rfind_char(s.drop_last(), c)
    }
}

/// `find_char` is the first position holding `c`.
pub proof fn lemma_find_char(s: Seq<char>, c: char)
    ensures
        find_char(s, c) matches Some(k) ==> 0 <= k < s.len() && s[k] == c && forall|i: int|
            0 <= i < k ==> s[i] != c,
        find_char(s, c) is None ==> forall|i: int| 0 <= i < s.len() ==> s[i] != c,
    decreases s.len(),
{
    if s.len() > 0 && s[0] != c {
        lemma_find_char(s.drop_first(), c);
        assert forall|i: int| 1 <= i < s.len() implies s[i] == s.drop_first()[i - 1] by {}
    }
}

/// `rfind_char` is the last position holding `c`.
pub proof fn lemma_rfind_char(s: Seq<char>, c: char)
    ensures
        rfind_char(s, c) matches Some(k) ==> 0 <= k < s.len() && s[k] == c && forall|i: int|
            k < i < s.len() ==> s[i] != c,
        rfind_char(s, c) is None ==> forall|i: int| 0 <= i < s.len() ==> s[i] != c,
    decreases s.len(),
{
    if s.len() > 0 && s.last() != c {
        lemma_rfind_char(s.drop_last(), c);
        assert forall|i: int| 0 <= i < s.len() - 1 implies s[i] == s.drop_last()[i] by {}
    }
}

/// A position that holds `c` with no earlier `c` is what `find_char` returns.
pub proof fn lemma_find_char_exact(s: Seq<char>, c: char, k: int)
    requires
        0 <= k <= s.len(),
        forall|i: int| 0 <= i < k ==> s[i] != c,
        k < s.len() ==> s[k] == c,
    ensures
        find_char(s, c) == (if k < s.len() {
            Some(k)
        } else {
            None::<int>
        }),
    decreases s.len(),
{
    if s.len() > 0 && k > 0 {
        assert forall|i: int| 0 <= i < k - 1 implies s.drop_first()[i] != c by {
            assert(s.drop_first()[i] == s[i + 1]);
        }
        if k < s.len() {
            assert(s.drop_first()[k - 1] == s[k]);
        }
        lemma_find_char_exact(s.drop_first(), c, k - 1);
    }
}

/// A position that holds `c` with no later `c` is what `rfind_char` returns.
pub proof fn lemma_rfind_char_exact(s: Seq<char>, c: char, k: int)
    requires
        -1 <= k < s.len(),
        forall|i: int| k < i < s.len() ==> s[i] != c,
        k >= 0 ==> s[k] == c,
    ensures
        rfind_char(s, c) == (if k >= 0 {
            Some(k)
        } else {
            None::<int>
        }),
    decreases s.len(),
{
    if s.len() > 0 && k < s.len() - 1 {
        assert(s.last() != c);
        assert forall|i: int| k < i < s.len() - 1 implies s.drop_last()[i] != c by {
            assert(s.drop_last()[i] == s[i]);
        }
        lemma_rfind_char_exact(s.drop_last(), c, k);
    }
}

/// First index at or after `from` holding `c` (as `str::find` on the tail).
pub fn find_char_from(s: &[char], c: char, from: usize) -> (r: Option<usize>)
    requires
        from <= s.len(),
    ensures
        r matches Some(k) ==> from <= k < s.len() && find_char(s@.skip(from as int), c) == Some(
            k - from,
        ),
        r is None ==> find_char(s@.skip(from as int), c) is None,
{
    let mut i = from;
    while i < s.len()
        invariant
            from <= i <= s.len(),
            forall|j: int| from <= j < i ==> s@[j] != c,
        decreases s.len() - i,
    {
        if s[i] == c {
            proof {
                let t = s@.skip(from as int);
                assert forall|j: int| 0 <= j < i - from implies t[j] != c by {
                    assert(t[j] == s@[j + from]);
                }
                lemma_find_char_exact(t, c, i - from);
            }
            return Some(i);
        }
        i += 1;
    }
    proof {
        let t = s@.skip(from as int);
        assert forall|j: int| 0 <= j < t.len() implies t[j] != c by {
            assert(t[j] == s@[j + from]);
        }
        lemma_find_char_exact(t, c, t.len() as int);
    }
    None
}

/// Last index holding `c` (as `str::rfind`).
pub fn rfind_char_in(s: &[char], c: char) -> (r: Option<usize>)
    ensures
        r matches Some(k) ==> rfind_char(s@, c) == Some(k as int),
        r is None ==> rfind_char(s@, c) is None,
{
    let mut i = s.len();
    while i > 0
        invariant
            i <= s.len(),
            forall|j: int| i <= j < s.len() ==> s@[j] != c,
        decreases i,
    {
        if s[i - 1] == c {
            proof {
                lemma_rfind_char_exact(s@, c, i - 1);
            }
            return Some(i - 1);
        }
        i -= 1;
    }
    proof {
        lemma_rfind_char_exact(s@, c, -1);
    }
    None
}

/// The pieces of `s` between occurrences of `sep` (as `str::split`).
pub open spec fn split_on(s: Seq<char>, sep: char) -> Seq<Seq<char>>
    decreases s.len(),
{
    match find_char(s, sep) {
        None => seq![s],
        Some(k) => {
            if 0 <= k < s.len() {
                seq![s.take(k)] + split_on(s.skip(k + 1), sep)
            } else {
                seq![s]
            }
        },
    }
}

/// The part before and the part after the first `sep` (as `str::split_once`).
pub open spec fn split_once(s: Seq<char>, sep: char) -> Option<(Seq<char>, Seq<char>)> {
    match find_char(s, sep) {
        None => None,
        Some(k) => Some((s.take(k), s.skip(k + 1))),
    }
}

/// `s` is strictly increasing.
pub open spec fn strictly_increasing(s: Seq<char>) -> bool {
    forall|i: int, j: int| 0 <= i < j < s.len() ==> (s[i] as int) < (s[j] as int)
}

/// `r` lists, in increasing order and once each, the characters for which `member` holds.
pub open spec fn is_sorted_set_of(r: Seq<char>, member: spec_fn(char) -> bool) -> bool {
    &&& strictly_increasing(r)
    &&& forall|c: char| r.contains(c) <==> #[trigger] member(c)
}

/// The number of code points a presence table covers.
pub const CODE_SPACE: usize = 0x110000;

/// Every character's code lies within the code space.
pub proof fn lemma_char_in_code_space(c: char)
    ensures
        0 <= (c as int) < CODE_SPACE as int,
        crate::text::is_scalar_value(c as int),
{
}

/// A presence table with no code point marked.
pub fn empty_table() -> (t: Vec<bool>)
    ensures
        t.len() == CODE_SPACE,
        forall|i: int| 0 <= i < CODE_SPACE ==> !#[trigger] t@[i],
{
    let mut t: Vec<bool> = Vec::with_capacity(CODE_SPACE);
    let mut i: usize = 0;
    while i < CODE_SPACE
        invariant
            i <= CODE_SPACE,
            t.len() == i,
            forall|k: int| 0 <= k < i ==> !#[trigger] t@[k],
        decreases CODE_SPACE - i,
    {
        t.push(false);
        i += 1;
    }
    t
}

/// The characters marked in a presence table indexed by code point, in increasing order.
pub fn collect_marked(table: &Vec<bool>) -> (r: Vec<char>)
    requires
        table.len() == CODE_SPACE,
        forall|i: int| 0 <= i < CODE_SPACE && #[trigger] table@[i] ==> crate::text::is_scalar_value(i),
    ensures
        strictly_increasing(r@),
        forall|c: char| r@.contains(c) <==> table@[c as int],
{
    let mut r: Vec<char> = Vec::new();
    let mut i: usize = 0;
    assert forall|c: char| r@.contains(c) <==> (table@[c as int] && (c as int) < i) by {
        lemma_char_in_code_space(c);
    }
    while i < CODE_SPACE
        invariant
            i <= CODE_SPACE,
            table.len() == CODE_SPACE,
            forall|k: int| 0 <= k < CODE_SPACE && #[trigger] table@[k] ==> crate::text::is_scalar_value(k),
            strictly_increasing(r@),
            forall|k: int| 0 <= k < r.len() ==> (#[trigger] r@[k] as int) < i,
            forall|c: char| r@.contains(c) <==> (table@[c as int] && (c as int) < i),
        decreases CODE_SPACE - i,
    {
        if table[i] {
            let code = i as u32;
            let c = crate::text::char_from_u32(code);
            match c {
                Some(ch) => {
                    let ghost old_r = r@;
                    r.push(ch);
                    assert forall|d: char| r@.contains(d) <==> (table@[d as int] && (d as int) < i + 1) by {
                        if r@.contains(d) {
                            let k = choose|k: int| 0 <= k < r@.len() && r@[k] == d;
                            if k < old_r.len() {
                                assert(old_r.contains(d));
                            }
                        }
                        if table@[d as int] && (d as int) < i + 1 {
                            if (d as int) < i {
                                assert(old_r.contains(d));
                                let k = choose|k: int| 0 <= k < old_r.len() && old_r[k] == d;
                                assert(r@[k] == d);
                            } else {
                                assert(r@[old_r.len() as int] == d);
                            }
                        }
                    }
                },
                None => {},
            }
        } else {
            assert forall|d: char| r@.contains(d) <==> (table@[d as int] && (d as int) < i + 1) by {
                if r@.contains(d) {
                    let k = choose|k: int| 0 <= k < r@.len() && r@[k] == d;
                }
            }
        }
        i += 1;
    }
    proof {
        assert forall|c: char| r@.contains(c) <==> table@[c as int] by {
            lemma_char_in_code_space(c);
        }
    }
    r
}

/// The distinct characters of `chars` in increasing order (the result of
/// `sort_unstable` followed by `dedup`).
pub fn sorted_unique(chars: &[char]) -> (r: Vec<char>)
    ensures
        strictly_increasing(r@),
        forall|c: char| r@.contains(c) <==> chars@.contains(c),
{
    let table0 = empty_table();
    let mut table = table0;
    let mut i: usize = 0;
    assert forall|c: char| table@[c as int] <==> chars@.take(i as int).contains(c) by {
        lemma_char_in_code_space(c);
    }
    while i < chars.len()
        invariant
            i <= chars.len(),
            table.len() == CODE_SPACE,
            forall|k: int| 0 <= k < CODE_SPACE && #[trigger] table@[k] ==> crate::text::is_scalar_value(k),
            forall|c: char| table@[c as int] <==> chars@.take(i as int).contains(c),
        decreases chars.len() - i,
    {
        let c = chars[i];
        proof {
            lemma_char_in_code_space(c);
        }
        let ghost old_table = table@;
        table.set(c as usize, true);
        assert forall|d: char| table@[d as int] <==> chars@.take(i + 1).contains(d) by {
            let prev = chars@.take(i as int);
            let next = chars@.take(i + 1);
            assert(next == prev.push(c));
            lemma_char_in_code_space(d);
            if d != c {
                assert((d as int) != (c as int));
                assert(table@[d as int] == old_table[d as int]);
                if next.contains(d) {
                    let k = choose|k: int| 0 <= k < next.len() && next[k] == d;
                    assert(prev[k] == d);
                }
                if prev.contains(d) {
                    let k = choose|k: int| 0 <= k < prev.len() && prev[k] == d;
                    assert(next[k] == d);
                }
            } else {
                assert(next[i as int] == d);
            }
        }
        i += 1;
    }
    assert(chars@.take(chars.len() as int) == chars@);
    collect_marked(&table)
}

} // verus!
