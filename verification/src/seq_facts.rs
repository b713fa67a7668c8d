//! Facts about sequences without repeated elements, as entries are inserted
//! into and removed from them.
use vstd::prelude::*;

verus! {

/// No element is in both sequences.
pub open spec fn disjoint<A>(a: Seq<A>, b: Seq<A>) -> bool {
    forall|x: A| !(a.contains(x) && b.contains(x))
}

/// Inserting keeps what was there and adds the new element.
pub proof fn lemma_insert_contains<A>(s: Seq<A>, i: int, v: A)
    requires
        0 <= i <= s.len(),
    ensures
        forall|x: A| #[trigger] s.insert(i, v).contains(x) <==> s.contains(x) || x == v,
{
    let t = s.insert(i, v);
    assert forall|x: A| t.contains(x) <==> s.contains(x) || x == v by {
        if t.contains(x) {
            let k = choose|k: int| 0 <= k < t.len() && t[k] == x;
            if k < i {
                assert(s[k] == x);
            } else if k > i {
                assert(s[k - 1] == x);
            }
        }
        if s.contains(x) {
            let k = choose|k: int| 0 <= k < s.len() && s[k] == x;
            if k < i {
                assert(t[k] == x);
            } else {
                assert(t[k + 1] == x);
            }
        }
        if x == v {
            assert(t[i] == x);
        }
    }
}

/// Inserting an element that is not there keeps the sequence free of repeats.
pub proof fn lemma_insert_no_dup<A>(s: Seq<A>, i: int, v: A)
    requires
        0 <= i <= s.len(),
        s.no_duplicates(),
        !s.contains(v),
    ensures
        s.insert(i, v).no_duplicates(),
{
    let t = s.insert(i, v);
    assert forall|a: int, b: int| 0 <= a < t.len() && 0 <= b < t.len() && a != b implies t[a]
        != t[b] by {
        let sa = if a < i {
            a
        } else {
            a - 1
        };
        let sb = if b < i {
            b
        } else {
            b - 1
        };
        if a == i {
            assert(t[b] == s[sb]);
        } else if b == i {
            assert(t[a] == s[sa]);
        } else {
            assert(t[a] == s[sa]);
            assert(t[b] == s[sb]);
        }
    }
}

/// Removing an element of a sequence without repeats removes exactly it.
pub proof fn lemma_remove_contains<A>(s: Seq<A>, i: int)
    requires
        0 <= i < s.len(),
        s.no_duplicates(),
    ensures
        forall|x: A| #[trigger] s.remove(i).contains(x) <==> s.contains(x) && x != s[i],
        s.remove(i).no_duplicates(),
{
    let t = s.remove(i);
    assert forall|x: A| t.contains(x) <==> s.contains(x) && x != s[i] by {
        if t.contains(x) {
            let k = choose|k: int| 0 <= k < t.len() && t[k] == x;
            if k < i {
                assert(s[k] == x);
            } else {
                assert(s[k + 1] == x);
            }
        }
        if s.contains(x) && x != s[i] {
            let k = choose|k: int| 0 <= k < s.len() && s[k] == x;
            if k < i {
                assert(t[k] == x);
            } else {
                assert(k != i);
                assert(t[k - 1] == x);
            }
        }
    }
    assert forall|a: int, b: int| 0 <= a < t.len() && 0 <= b < t.len() && a != b implies t[a]
        != t[b] by {
        let sa = if a < i {
            a
        } else {
            a + 1
        };
        let sb = if b < i {
            b
        } else {
            b + 1
        };
        assert(t[a] == s[sa]);
        assert(t[b] == s[sb]);
    }
}

/// A sequence made of two is free of repeats when both parts are and they
/// share no element.
pub proof fn lemma_concat_no_dup<A>(a: Seq<A>, b: Seq<A>)
    ensures
        (a + b).no_duplicates() <==> a.no_duplicates() && b.no_duplicates() && disjoint(a, b),
        forall|x: A| #[trigger] (a + b).contains(x) <==> a.contains(x) || b.contains(x),
{
    let c = a + b;
    assert forall|x: A| c.contains(x) <==> a.contains(x) || b.contains(x) by {
        if c.contains(x) {
            let k = choose|k: int| 0 <= k < c.len() && c[k] == x;
            if k < a.len() {
                assert(a[k] == x);
            } else {
                assert(b[k - a.len()] == x);
            }
        }
        if a.contains(x) {
            let k = choose|k: int| 0 <= k < a.len() && a[k] == x;
            assert(c[k] == x);
        }
        if b.contains(x) {
            let k = choose|k: int| 0 <= k < b.len() && b[k] == x;
            assert(c[k + a.len()] == x);
        }
    }
    if c.no_duplicates() {
        assert forall|i: int, j: int| 0 <= i < a.len() && 0 <= j < a.len() && i != j implies a[i]
            != a[j] by {
            assert(c[i] == a[i] && c[j] == a[j]);
        }
        assert forall|i: int, j: int| 0 <= i < b.len() && 0 <= j < b.len() && i != j implies b[i]
            != b[j] by {
            assert(c[i + a.len()] == b[i] && c[j + a.len()] == b[j]);
        }
        assert forall|x: A| !(a.contains(x) && b.contains(x)) by {
            if a.contains(x) && b.contains(x) {
                let i = choose|i: int| 0 <= i < a.len() && a[i] == x;
                let j = choose|j: int| 0 <= j < b.len() && b[j] == x;
                assert(c[i] == c[j + a.len()]);
            }
        }
    }
    if a.no_duplicates() && b.no_duplicates() && disjoint(a, b) {
        assert forall|i: int, j: int| 0 <= i < c.len() && 0 <= j < c.len() && i != j implies c[i]
            != c[j] by {
            if i < a.len() && j >= a.len() {
                assert(a.contains(c[i]));
                assert(b.contains(c[j]));
            } else if i >= a.len() && j < a.len() {
                assert(a.contains(c[j]));
                assert(b.contains(c[i]));
            } else if i < a.len() {
                assert(c[i] == a[i] && c[j] == a[j]);
            } else {
                assert(c[i] == b[i - a.len()] && c[j] == b[j - a.len()]);
            }
        }
    }
}

} // verus!
