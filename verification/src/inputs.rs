//! The order in which input files are opened: by path, each path once.
use vstd::prelude::*;
use crate::text::str_to_chars;

verus! {

/// `a` comes before `b` in the order of `str` comparison: character by
/// character, a proper prefix first.
pub open spec fn text_lt(a: Seq<char>, b: Seq<char>) -> bool
    decreases a.len(),
{
    if a.len() == 0 {
        b.len() > 0
    } else if b.len() == 0 {
        false
    } else if (a[0] as int) < (b[0] as int) {
        true
    } else if a[0] == b[0] {
        text_lt(a.skip(1), b.skip(1))
    } else {
        false
    }
}

/// Whether `a` comes before `b`.
fn text_less(a: &[char], b: &[char]) -> (r: bool)
    ensures
        r == text_lt(a@, b@),
{
    let mut i: usize = 0;
    assert(a@.skip(0) =~= a@ && b@.skip(0) =~= b@);
    while i < a.len() && i < b.len() && a[i] == b[i]
        invariant
            i <= a@.len(),
            i <= b@.len(),
            text_lt(a@, b@) == text_lt(a@.skip(i as int), b@.skip(i as int)),
        decreases a@.len() - i,
    {
        proof {
            let s = a@.skip(i as int);
            let t = b@.skip(i as int);
            assert(s[0] == a@[i as int] && t[0] == b@[i as int]);
            assert(s.skip(1) =~= a@.skip(i + 1));
            assert(t.skip(1) =~= b@.skip(i + 1));
        }
        i += 1;
    }
    let ghost s = a@.skip(i as int);
    let ghost t = b@.skip(i as int);
    if i == a.len() {
        assert(s.len() == 0);
        i < b.len()
    } else if i == b.len() {
        assert(t.len() == 0);
        false
    } else {
        assert(s[0] == a@[i as int] && t[0] == b@[i as int]);
        a[i] < b[i]
    }
}

/// Paths in increasing order, each next one after the one before it.
pub open spec fn increasing(paths: Seq<Seq<char>>) -> bool {
    forall|i: int| 0 <= i < paths.len() - 1 ==> text_lt(#[trigger] paths[i], paths[i + 1])
}

/// The texts of strings.
pub open spec fn texts(strings: Seq<String>) -> Seq<Seq<char>> {
    strings.map_values(|s: String| s@)
}

/// The paths of input files in the order they are opened: sorted as `str`
/// compares them, each path once.
pub fn order_input_paths(paths: Vec<String>) -> (ordered: Vec<String>)
    ensures
        increasing(texts(ordered@)),
        forall|i: int, j: int| 0 <= i < j < ordered@.len() ==> ordered@[i]@ != ordered@[j]@,
        forall|p: Seq<char>| texts(paths@).contains(p) <==> texts(ordered@).contains(p),
{
    let mut ordered: Vec<String> = Vec::new();
    let mut i: usize = 0;
    while i < paths.len()
        invariant
            i <= paths@.len(),
            increasing(texts(ordered@)),
            forall|a: int, b: int| 0 <= a < b < ordered@.len() ==> ordered@[a]@ != ordered@[b]@,
            forall|p: Seq<char>| texts(paths@.take(i as int)).contains(p) <==> texts(ordered@).contains(p),
        decreases paths@.len() - i,
    {
        let path = &paths[i];
        let chars = str_to_chars(path.as_str());
        let mut seen = false;
        let mut k: usize = 0;
        while k < ordered.len()
            invariant
                k <= ordered@.len(),
                seen == exists|j: int| 0 <= j < k && ordered@[j]@ == path@,
            decreases ordered@.len() - k,
        {
            if ordered[k] == *path {
                seen = true;
            }
            k += 1;
        }
        let ghost before = ordered@;
        let mut at: usize = 0;
        if !seen {
            while at < ordered.len() && text_less(&str_to_chars(ordered[at].as_str()), &chars)
                invariant
                    at <= ordered@.len(),
                    chars@ == path@,
                    forall|j: int| 0 <= j < at ==> text_lt(#[trigger] ordered@[j]@, path@),
                decreases ordered@.len() - at,
            {
                at += 1;
            }
            ordered.insert(at, path.clone());
            proof {
                assert forall|j: int| 0 <= j < ordered@.len() - 1 implies text_lt(
                    #[trigger] texts(ordered@)[j],
                    texts(ordered@)[j + 1],
                ) by {
                    if j + 1 < at {
                        assert(texts(before)[j] == texts(ordered@)[j]);
                        assert(texts(before)[j + 1] == texts(ordered@)[j + 1]);
                    } else if j + 1 == at {
                        assert(text_lt(ordered@[j]@, path@));
                    } else if j == at {
                        assert(ordered@[j + 1] == before[at as int]);
                        assert(!text_lt(before[at as int]@, path@));
                        lemma_not_lt_ne(path@, before[at as int]@);
                    } else {
                        assert(texts(ordered@)[j] == texts(before)[j - 1]);
                        assert(texts(ordered@)[j + 1] == texts(before)[j]);
                    }
                }
            }
        }
        proof {
            assert(paths@.take(i + 1) =~= paths@.take(i as int).push(paths@[i as int]));
            assert(texts(paths@.take(i + 1)) =~= texts(paths@.take(i as int)).push(path@));
            assert forall|p: Seq<char>| texts(paths@.take(i + 1)).contains(p) <==> texts(ordered@).contains(p) by {
                if texts(paths@.take(i + 1)).contains(p) {
                    let w = choose|w: int| 0 <= w < texts(paths@.take(i + 1)).len() && #[trigger] texts(paths@.take(i + 1))[w] == p;
                    if w < i {
                        assert(texts(paths@.take(i as int))[w] == p);
                        assert(texts(before).contains(p));
                        let v = choose|v: int| 0 <= v < texts(before).len() && #[trigger] texts(before)[v] == p;
                        if !seen {
                            if v < at {
                                assert(texts(ordered@)[v] == p);
                            } else {
                                assert(texts(ordered@)[v + 1] == p);
                            }
                        }
                    } else {
                        if seen {
                            let j = choose|j: int| 0 <= j < k && ordered@[j]@ == path@;
                            assert(texts(ordered@)[j] == p);
                        } else {
                            assert(texts(ordered@)[at as int] == p);
                        }
                    }
                }
                if texts(ordered@).contains(p) {
                    let v = choose|v: int| 0 <= v < texts(ordered@).len() && #[trigger] texts(ordered@)[v] == p;
                    if seen {
                        assert(texts(before)[v] == p);
                        assert(texts(paths@.take(i as int)).contains(p));
                        let w = choose|w: int| 0 <= w < texts(paths@.take(i as int)).len() && #[trigger] texts(paths@.take(i as int))[w] == p;
                        assert(texts(paths@.take(i + 1))[w] == p);
                    } else if v == at {
                        assert(texts(paths@.take(i + 1))[i as int] == p);
                    } else {
                        let u = if v < at { v } else { v - 1 };
                        assert(texts(before)[u] == p);
                        assert(texts(before).contains(p));
                        assert(texts(paths@.take(i as int)).contains(p));
                        let w = choose|w: int| 0 <= w < texts(paths@.take(i as int)).len() && #[trigger] texts(paths@.take(i as int))[w] == p;
                        assert(texts(paths@.take(i + 1))[w] == p);
                    }
                }
            }
            if !seen {
                assert forall|a: int, b: int| 0 <= a < b < ordered@.len() implies ordered@[a]@ != ordered@[b]@ by {
                    if a == at {
                        assert(ordered@[b] == before[b - 1]);
                    } else if b == at {
                        assert(ordered@[a] == before[a]);
                    } else {
                        let a0 = if a < at { a } else { a - 1 };
                        let b0 = if b < at { b } else { b - 1 };
                        assert(ordered@[a] == before[a0] && ordered@[b] == before[b0]);
                    }
                }
            }
        }
        i += 1;
    }
    assert(paths@.take(paths@.len() as int) =~= paths@);
    ordered
}

/// A text that does not come before a different text comes after it.
proof fn lemma_not_lt_ne(a: Seq<char>, b: Seq<char>)
    requires
        !text_lt(b, a),
        a != b,
    ensures
        text_lt(a, b),
    decreases a.len(),
{
    if a.len() == 0 {
        if b.len() == 0 {
            assert(a =~= b);
        }
    } else if b.len() == 0 {
    } else if a[0] == b[0] {
        if a.skip(1) == b.skip(1) {
            assert(a =~= seq![a[0]] + a.skip(1));
            assert(b =~= seq![b[0]] + b.skip(1));
        }
        lemma_not_lt_ne(a.skip(1), b.skip(1));
    } else {
        assert((a[0] as int) != (b[0] as int));
    }
}

} // verus!
