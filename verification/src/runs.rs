//! The runs of numbered frames that automatic grouping looks for: which
//! entries can join a group, under which key and number, and the families of
//! entries that share a key.
use crate::image_item::{MiDataKind, frame_count_of};
use crate::sequence::{SequenceKey, SpecSequenceKey, sequence_key, sequence_key_spec};
use crate::workspace::{SidebarItem, WorkspaceItem, WorkspaceId, content_ok};
use vstd::prelude::*;

verus! {

/// Whether an image keeps decoded data that sequence grouping accepts: none,
/// RGBA or indexed.
pub fn groupable_data(midata: Option<MiDataKind>) -> (b: bool)
    ensures
        b == (midata is None || midata == Some(MiDataKind::Rgba) || midata == Some(MiDataKind::Indexed)),
{
    match midata {
        None => true,
        Some(MiDataKind::Rgba) => true,
        Some(MiDataKind::Indexed) => true,
        Some(_) => false,
    }
}

/// The view of a sequence key.
pub open spec fn key_view(k: SequenceKey) -> SpecSequenceKey {
    (k.0@, k.1@, k.2@, k.3@, k.4, k.5)
}

/// The sequence key and frame number under which an entry can join an
/// automatic group: it is a single-frame image without decoded data, or with
/// RGBA or indexed data, whose file name carries a frame number.
pub open spec fn candidate(item: WorkspaceItem) -> Option<(SpecSequenceKey, int)> {
    match item.content {
        SidebarItem::Image(image) => if frame_count_of(image.frames) == 1 && (image.midata is None
            || image.midata == Some(MiDataKind::Rgba) || image.midata == Some(MiDataKind::Indexed)) {
            sequence_key_spec(image.path@, image.width, image.height)
        } else {
            None
        },
        SidebarItem::Glyph(_) => None,
    }
}

/// `keys` and `frames` list the candidates among `items` in sidebar order:
/// each frame holds the entry's index, id and number, beside its key.
pub open spec fn candidates_of(
    items: Seq<WorkspaceItem>,
    keys: Seq<SequenceKey>,
    frames: Seq<(usize, WorkspaceId, u32)>,
) -> bool {
    &&& keys.len() == frames.len()
    &&& forall|k: int|
        0 <= k < frames.len() ==> {
            &&& (#[trigger] frames[k]).0 < items.len()
            &&& items[frames[k].0 as int].id == frames[k].1
            &&& candidate(items[frames[k].0 as int]) == Some((key_view(keys[k]), frames[k].2 as int))
        }
    &&& forall|a: int, b: int| 0 <= a < b < frames.len() ==> (#[trigger] frames[a]).0 < (#[trigger] frames[b]).0
    &&& forall|q: int|
        0 <= q < items.len() && (#[trigger] candidate(items[q])) is Some ==> exists|k: int|
            0 <= k < frames.len() && (#[trigger] frames[k]).0 == q
}

/// Lists the candidates among the entries, in sidebar order.
pub fn frame_candidates(items: &Vec<WorkspaceItem>) -> (r: (Vec<SequenceKey>, Vec<(usize, WorkspaceId, u32)>))
    requires
        forall|i: int| 0 <= i < items@.len() ==> content_ok(#[trigger] items@[i].content),
    ensures
        candidates_of(items@, r.0@, r.1@),
{
    let mut keys: Vec<SequenceKey> = Vec::new();
    let mut frames: Vec<(usize, WorkspaceId, u32)> = Vec::new();
    let mut i: usize = 0;
    while i < items.len()
        invariant
            i <= items@.len(),
            forall|i: int| 0 <= i < items@.len() ==> content_ok(#[trigger] items@[i].content),
            keys@.len() == frames@.len(),
            forall|k: int|
                0 <= k < frames@.len() ==> {
                    &&& (#[trigger] frames@[k]).0 < i
                    &&& items@[frames@[k].0 as int].id == frames@[k].1
                    &&& candidate(items@[frames@[k].0 as int]) == Some((key_view(keys@[k]), frames@[k].2 as int))
                },
            forall|a: int, b: int| 0 <= a < b < frames@.len() ==> (#[trigger] frames@[a]).0 < (#[trigger] frames@[b]).0,
            forall|q: int|
                0 <= q < i && (#[trigger] candidate(items@[q])) is Some ==> exists|k: int|
                    0 <= k < frames@.len() && (#[trigger] frames@[k]).0 == q,
        decreases items@.len() - i,
    {
        let ghost before = frames@;
        match &items[i].content {
            SidebarItem::Image(image) => {
                if image.frame_count() == 1 && groupable_data(image.midata) {
                    assert(content_ok(items@[i as int].content));
                    match sequence_key(image.path.as_str(), image.width, image.height) {
                        Some((key, number)) => {
                            keys.push(key);
                            frames.push((i, items[i].id, number));
                            assert(frames@[before.len() as int].0 == i);
                        },
                        None => {},
                    }
                }
            },
            SidebarItem::Glyph(_) => {},
        }
        assert forall|q: int| 0 <= q < i + 1 && (#[trigger] candidate(items@[q])) is Some implies exists|k: int|
            0 <= k < frames@.len() && (#[trigger] frames@[k]).0 == q by {
            if q < i {
                let k = choose|k: int| 0 <= k < before.len() && (#[trigger] before[k]).0 == q;
                assert(frames@[k] == before[k]);
            } else {
                assert(frames@[before.len() as int].0 == q);
            }
        }
        i += 1;
    }
    (keys, frames)
}

/// Whether a candidate before the `c`-th has the key of the `d`-th.
pub open spec fn key_seen(keys: Seq<SequenceKey>, c: int, d: int) -> bool {
    exists|e: int| 0 <= e < c && #[trigger] key_view(keys[e]) == key_view(keys[d])
}

/// Whether a candidate with key `key` has number `v`.
pub open spec fn numbered(keys: Seq<SequenceKey>, frames: Seq<(usize, WorkspaceId, u32)>, key: SpecSequenceKey, v: int) -> bool {
    exists|k: int| 0 <= k < frames.len() && #[trigger] key_view(keys[k]) == key && frames[k].2 == v
}

/// Whether the candidates with key `key` are numbered `lo` up to
/// `lo + n - 1`, one candidate for each number, and there are at least two.
pub open spec fn key_numbers(
    keys: Seq<SequenceKey>,
    frames: Seq<(usize, WorkspaceId, u32)>,
    key: SpecSequenceKey,
    lo: int,
    n: int,
) -> bool {
    &&& n >= 2
    &&& forall|k: int|
        0 <= k < frames.len() && #[trigger] key_view(keys[k]) == key ==> lo <= frames[k].2 < lo + n
    &&& forall|v: int| lo <= v < lo + n ==> #[trigger] numbered(keys, frames, key, v)
    &&& forall|a: int, b: int|
        0 <= a < frames.len() && 0 <= b < frames.len() && a != b && #[trigger] key_view(keys[a]) == key
            && #[trigger] key_view(keys[b]) == key ==> frames[a].2 != frames[b].2
}

/// `fam` lists, by frame number, every candidate with the key of the
/// `c`-th, at least two, numbered one after another.
pub open spec fn family_ok(
    keys: Seq<SequenceKey>,
    frames: Seq<(usize, WorkspaceId, u32)>,
    c: int,
    fam: Seq<usize>,
) -> bool {
    &&& fam.len() >= 2
    &&& fam.no_duplicates()
    &&& forall|t: int|
        0 <= t < fam.len() ==> (#[trigger] fam[t]) < frames.len() && key_view(keys[fam[t] as int]) == key_view(
            keys[c],
        )
    &&& forall|t: int|
        0 <= t < fam.len() - 1 ==> frames[#[trigger] fam[t + 1] as int].2 == frames[fam[t] as int].2 + 1
    &&& forall|k: int|
        0 <= k < frames.len() && #[trigger] key_view(keys[k]) == key_view(keys[c]) ==> fam.contains(k as usize)
}

/// The families found among the candidates: each is the family of the key
/// of its `.2`-th candidate, starting in the sidebar at `.0`; no two share a
/// key; and every key whose candidates are numbered one each from some
/// number on has its family among them.
pub open spec fn families_of(
    keys: Seq<SequenceKey>,
    frames: Seq<(usize, WorkspaceId, u32)>,
    seqs: Seq<(usize, Vec<usize>, usize)>,
) -> bool {
    &&& forall|m: int|
        0 <= m < seqs.len() ==> (#[trigger] seqs[m]).2 < frames.len() && family_ok(
            keys,
            frames,
            seqs[m].2 as int,
            seqs[m].1@,
        ) && seqs[m].0 == frames[seqs[m].1@[0] as int].0
    &&& forall|a: int, b: int|
        0 <= a < seqs.len() && 0 <= b < seqs.len() && a != b ==> key_view(keys[(#[trigger] seqs[a]).2 as int])
            != key_view(keys[(#[trigger] seqs[b]).2 as int])
    &&& forall|k: int, lo: int, n: int|
        0 <= k < frames.len() && #[trigger] key_numbers(keys, frames, key_view(keys[k]), lo, n) ==> exists|m: int|
            0 <= m < seqs.len() && key_view(keys[(#[trigger] seqs[m]).2 as int]) == key_view(keys[k])
}

/// Inserts a frame after those with a number not above its own, so that
/// frames stay ordered by number and equal numbers keep their order.
fn insert_by_number(family: &mut Vec<(u32, usize)>, frame: (u32, usize))
    ensures
        exists|at: int|
            0 <= at <= old(family)@.len() && final(family)@ == old(family)@.insert(at, frame) && (forall|j: int|
                0 <= j < at ==> (#[trigger] old(family)@[j]).0 <= frame.0) && (at < old(family)@.len() ==> old(
                family,
            )@[at].0 > frame.0),
{
    let mut at: usize = 0;
    while at < family.len() && family[at].0 <= frame.0
        invariant
            at <= family@.len(),
            family@ == old(family)@,
            forall|j: int| 0 <= j < at ==> (#[trigger] family@[j]).0 <= frame.0,
        decreases family@.len() - at,
    {
        at += 1;
    }
    family.insert(at, frame);
}

/// Whether the numbers ascend by one from each frame to the next.
fn consecutive(family: &Vec<(u32, usize)>) -> (b: bool)
    ensures
        b == forall|k: int| 1 <= k < family@.len() ==> (#[trigger] family@[k]).0 == family@[k - 1].0 + 1,
{
    let mut k: usize = 1;
    while k < family.len()
        invariant
            1 <= k,
            forall|j: int| 1 <= j < k && j < family@.len() ==> (#[trigger] family@[j]).0 == family@[j - 1].0 + 1,
        decreases family@.len() - k,
    {
        if family[k - 1].0 as u64 + 1 != family[k].0 as u64 {
            return false;
        }
        k += 1;
    }
    true
}

/// Inserts a family after those whose first frame does not come later in
/// the sidebar.
fn insert_by_position(sequences: &mut Vec<(usize, Vec<usize>, usize)>, sequence: (usize, Vec<usize>, usize))
    ensures
        exists|at: int|
            0 <= at <= old(sequences)@.len() && final(sequences)@ == old(sequences)@.insert(at, sequence) && (forall|
                j: int,
            | 0 <= j < at ==> (#[trigger] old(sequences)@[j]).0 <= sequence.0) && (at < old(sequences)@.len() ==> old(
                sequences,
            )@[at].0 > sequence.0),
{
    let mut at: usize = 0;
    while at < sequences.len() && sequences[at].0 <= sequence.0
        invariant
            at <= sequences@.len(),
            sequences@ == old(sequences)@,
            forall|j: int| 0 <= j < at ==> (#[trigger] sequences@[j]).0 <= sequence.0,
        decreases sequences@.len() - at,
    {
        at += 1;
    }
    sequences.insert(at, sequence);
}

/// A family gathered in number order, with every candidate of its key and
/// distinct numbers running over a range, ascends by one and has at least
/// two frames.
proof fn lemma_family_consecutive(
    keys: Seq<SequenceKey>,
    frames: Seq<(usize, WorkspaceId, u32)>,
    key: SpecSequenceKey,
    lo: int,
    n: int,
    family: Seq<(u32, usize)>,
)
    requires
        keys.len() == frames.len(),
        key_numbers(keys, frames, key, lo, n),
        forall|i: int|
            0 <= i < family.len() ==> (#[trigger] family[i]).1 < frames.len() && key_view(keys[family[i].1 as int])
                == key && family[i].0 == frames[family[i].1 as int].2,
        forall|k: int|
            0 <= k < frames.len() && #[trigger] key_view(keys[k]) == key ==> exists|i: int|
                0 <= i < family.len() && (#[trigger] family[i]).1 == k,
        forall|i: int, j: int| 0 <= i < j < family.len() ==> (#[trigger] family[i]).0 <= (#[trigger] family[j]).0,
        forall|i: int, j: int| 0 <= i < j < family.len() ==> (#[trigger] family[i]).1 != (#[trigger] family[j]).1,
    ensures
        family.len() >= 2,
        forall|k: int| 1 <= k < family.len() ==> (#[trigger] family[k]).0 == family[k - 1].0 + 1,
{
    assert forall|i: int, j: int| 0 <= i < j < family.len() implies (#[trigger] family[i]).0 < (
    #[trigger] family[j]).0 by {
        let a = family[i].1 as int;
        let b = family[j].1 as int;
        assert(key_view(keys[a]) == key && key_view(keys[b]) == key);
    }
    assert forall|k: int| 1 <= k < family.len() implies (#[trigger] family[k]).0 == family[k - 1].0 + 1 by {
        let v = family[k - 1].0 + 1;
        if family[k].0 != v {
            let p = family[k - 1].1 as int;
            assert(key_view(keys[p]) == key);
            let q = family[k].1 as int;
            assert(key_view(keys[q]) == key);
            assert(lo <= v < lo + n);
            assert(numbered(keys, frames, key, v));
            let w = choose|w: int| 0 <= w < frames.len() && #[trigger] key_view(keys[w]) == key && frames[w].2 == v;
            let i = choose|i: int| 0 <= i < family.len() && (#[trigger] family[i]).1 == w;
            if i <= k - 1 {
                if i < k - 1 {
                    assert(family[i].0 < family[k - 1].0);
                }
            } else if i > k {
                assert(family[k].0 < family[i].0);
            }
        }
    }
    assert(numbered(keys, frames, key, lo));
    assert(numbered(keys, frames, key, lo + 1));
    let w0 = choose|w: int| 0 <= w < frames.len() && #[trigger] key_view(keys[w]) == key && frames[w].2 == lo;
    let w1 = choose|w: int| 0 <= w < frames.len() && #[trigger] key_view(keys[w]) == key && frames[w].2 == lo + 1;
    let i0 = choose|i: int| 0 <= i < family.len() && (#[trigger] family[i]).1 == w0;
    let i1 = choose|i: int| 0 <= i < family.len() && (#[trigger] family[i]).1 == w1;
    assert(i0 != i1);
}

/// Whether the key of the `d`-th candidate is met before the `(c + 1)`-th:
/// before the `c`-th, or at it.
proof fn lemma_seen_step(keys: Seq<SequenceKey>, c: int, d: int)
    requires
        0 <= c,
    ensures
        key_seen(keys, c + 1, d) <==> (key_seen(keys, c, d) || key_view(keys[c]) == key_view(keys[d])),
{
    if key_seen(keys, c + 1, d) {
        let e = choose|e: int| 0 <= e < c + 1 && #[trigger] key_view(keys[e]) == key_view(keys[d]);
        if e < c {
            assert(key_seen(keys, c, d));
        }
    }
    if key_seen(keys, c, d) {
        let e = choose|e: int| 0 <= e < c && #[trigger] key_view(keys[e]) == key_view(keys[d]);
        assert(0 <= e < c + 1 && key_view(keys[e]) == key_view(keys[d]));
    }
    if key_view(keys[c]) == key_view(keys[d]) {
        assert(0 <= c < c + 1 && key_view(keys[c]) == key_view(keys[d]));
    }
}

/// Inserting a frame where `insert_by_number` does keeps the frames ordered
/// by number and their indices distinct.
proof fn lemma_insert_frame(fam0: Seq<(u32, usize)>, family: Seq<(u32, usize)>, at: int, frame: (u32, usize))
    requires
        0 <= at <= fam0.len(),
        family == fam0.insert(at, frame),
        forall|j: int| 0 <= j < at ==> (#[trigger] fam0[j]).0 <= frame.0,
        at < fam0.len() ==> fam0[at].0 > frame.0,
        forall|i: int, j: int| 0 <= i < j < fam0.len() ==> (#[trigger] fam0[i]).0 <= (#[trigger] fam0[j]).0,
        forall|i: int, j: int| 0 <= i < j < fam0.len() ==> (#[trigger] fam0[i]).1 != (#[trigger] fam0[j]).1,
        forall|i: int| 0 <= i < fam0.len() ==> (#[trigger] fam0[i]).1 != frame.1,
    ensures
        forall|i: int, j: int| 0 <= i < j < family.len() ==> (#[trigger] family[i]).0 <= (#[trigger] family[j]).0,
        forall|i: int, j: int| 0 <= i < j < family.len() ==> (#[trigger] family[i]).1 != (#[trigger] family[j]).1,
{
    assert forall|i: int, j: int| 0 <= i < j < family.len() implies (#[trigger] family[i]).0 <= (
    #[trigger] family[j]).0 by {
        if j < at {
            assert(family[i] == fam0[i] && family[j] == fam0[j]);
        } else if j == at {
            assert(family[i] == fam0[i]);
        } else if i < at {
            assert(family[i] == fam0[i] && family[j] == fam0[j - 1]);
        } else if i == at {
            assert(family[j] == fam0[j - 1]);
            if at < j - 1 {
                assert(fam0[at].0 <= fam0[j - 1].0);
            }
        } else {
            assert(family[i] == fam0[i - 1] && family[j] == fam0[j - 1]);
        }
    }
    assert forall|i: int, j: int| 0 <= i < j < family.len() implies (#[trigger] family[i]).1 != (
    #[trigger] family[j]).1 by {
        if j < at {
            assert(family[i] == fam0[i] && family[j] == fam0[j]);
        } else if j == at {
            assert(family[i] == fam0[i]);
        } else if i < at {
            assert(family[i] == fam0[i] && family[j] == fam0[j - 1]);
        } else if i == at {
            assert(family[j] == fam0[j - 1]);
        } else {
            assert(family[i] == fam0[i - 1] && family[j] == fam0[j - 1]);
        }
    }
}

/// Inserting a family where `insert_by_position` does keeps the families
/// ordered by where they start.
proof fn lemma_insert_family(
    seqs0: Seq<(usize, Vec<usize>, usize)>,
    seqs: Seq<(usize, Vec<usize>, usize)>,
    at: int,
    entry: (usize, Vec<usize>, usize),
)
    requires
        0 <= at <= seqs0.len(),
        seqs == seqs0.insert(at, entry),
        forall|j: int| 0 <= j < at ==> (#[trigger] seqs0[j]).0 <= entry.0,
        at < seqs0.len() ==> seqs0[at].0 > entry.0,
        forall|i: int, j: int| 0 <= i < j < seqs0.len() ==> (#[trigger] seqs0[i]).0 <= (#[trigger] seqs0[j]).0,
    ensures
        forall|i: int, j: int| 0 <= i < j < seqs.len() ==> (#[trigger] seqs[i]).0 <= (#[trigger] seqs[j]).0,
{
    assert forall|i: int, j: int| 0 <= i < j < seqs.len() implies (#[trigger] seqs[i]).0 <= (#[trigger] seqs[j]).0 by {
        if j < at {
            assert(seqs[i] == seqs0[i] && seqs[j] == seqs0[j]);
        } else if j == at {
            assert(seqs[i] == seqs0[i]);
        } else if i < at {
            assert(seqs[i] == seqs0[i] && seqs[j] == seqs0[j - 1]);
        } else if i == at {
            assert(seqs[j] == seqs0[j - 1]);
            if at < j - 1 {
                assert(seqs0[at].0 <= seqs0[j - 1].0);
            }
        } else {
            assert(seqs[i] == seqs0[i - 1] && seqs[j] == seqs0[j - 1]);
        }
    }
}

/// Marks the candidates with the key of the `c`-th as used and gathers them,
/// with their numbers, in number order.
#[verifier::spinoff_prover]
fn gather_family(
    keys: &Vec<SequenceKey>,
    frames: &Vec<(usize, WorkspaceId, u32)>,
    used: &mut Vec<bool>,
    c: usize,
) -> (family: Vec<(u32, usize)>)
    requires
        keys@.len() == frames@.len(),
        c < frames@.len(),
        old(used)@.len() == frames@.len(),
        !key_seen(keys@, c as int, c as int),
        forall|e: int| 0 <= e < frames@.len() ==> (old(used)@[e] <==> key_seen(keys@, c as int, e)),
    ensures
        final(used)@.len() == frames@.len(),
        forall|e: int|
            0 <= e < frames@.len() ==> (final(used)@[e] <==> (old(used)@[e] || (c <= e && key_view(keys@[e])
                == key_view(keys@[c as int])))),
        forall|i: int|
            0 <= i < family@.len() ==> (#[trigger] family@[i]).1 < frames@.len() && key_view(
                keys@[family@[i].1 as int],
            ) == key_view(keys@[c as int]) && family@[i].0 == frames@[family@[i].1 as int].2,
        forall|e: int|
            0 <= e < frames@.len() && #[trigger] key_view(keys@[e]) == key_view(keys@[c as int]) ==> exists|i: int|
                0 <= i < family@.len() && (#[trigger] family@[i]).1 == e,
        forall|i: int, j: int| 0 <= i < j < family@.len() ==> (#[trigger] family@[i]).0 <= (#[trigger] family@[j]).0,
        forall|i: int, j: int| 0 <= i < j < family@.len() ==> (#[trigger] family@[i]).1 != (#[trigger] family@[j]).1,
{
    let ghost used0 = used@;
    let mut family: Vec<(u32, usize)> = Vec::new();
    let mut d: usize = c;
    while d < frames.len()
        invariant
            keys@.len() == frames@.len(),
            c < frames@.len(),
            c <= d <= frames@.len(),
            used@.len() == frames@.len(),
            !key_seen(keys@, c as int, c as int),
            forall|e: int| 0 <= e < frames@.len() ==> (used0[e] <==> key_seen(keys@, c as int, e)),
            forall|e: int|
                0 <= e < frames@.len() ==> (used@[e] <==> (used0[e] || (c <= e < d && key_view(keys@[e])
                    == key_view(keys@[c as int])))),
            forall|i: int|
                0 <= i < family@.len() ==> c <= (#[trigger] family@[i]).1 < d && key_view(
                    keys@[family@[i].1 as int],
                ) == key_view(keys@[c as int]) && family@[i].0 == frames@[family@[i].1 as int].2,
            forall|e: int|
                c <= e < d && #[trigger] key_view(keys@[e]) == key_view(keys@[c as int]) ==> exists|i: int|
                    0 <= i < family@.len() && (#[trigger] family@[i]).1 == e,
            forall|i: int, j: int|
                0 <= i < j < family@.len() ==> (#[trigger] family@[i]).0 <= (#[trigger] family@[j]).0,
            forall|i: int, j: int|
                0 <= i < j < family@.len() ==> (#[trigger] family@[i]).1 != (#[trigger] family@[j]).1,
        decreases frames@.len() - d,
    {
        let ghost fam0 = family@;
        let ghost used1 = used@;
        let unused = !used[d];
        let same = crate::autogroup::same_key(&keys[d], &keys[c]);
        if unused && same {
            used.set(d, true);
            insert_by_number(&mut family, (frames[d].2, d));
            proof {
                let frame = (frames@[d as int].2, d);
                let at = choose|at: int|
                    0 <= at <= fam0.len() && family@ == fam0.insert(at, frame) && (forall|j: int|
                        0 <= j < at ==> (#[trigger] fam0[j]).0 <= frame.0) && (at < fam0.len() ==> fam0[at].0
                        > frame.0);
                lemma_insert_frame(fam0, family@, at, frame);
                assert forall|i: int| 0 <= i < family@.len() implies c <= (#[trigger] family@[i]).1 < d + 1
                    && key_view(keys@[family@[i].1 as int]) == key_view(keys@[c as int]) && family@[i].0
                    == frames@[family@[i].1 as int].2 by {
                    if i < at {
                        assert(family@[i] == fam0[i]);
                    } else if i > at {
                        assert(family@[i] == fam0[i - 1]);
                    }
                }
                assert forall|e: int|
                    c <= e < d + 1 && #[trigger] key_view(keys@[e]) == key_view(keys@[c as int]) implies exists|
                    i: int,
                | 0 <= i < family@.len() && (#[trigger] family@[i]).1 == e by {
                    if e < d {
                        let i = choose|i: int| 0 <= i < fam0.len() && (#[trigger] fam0[i]).1 == e;
                        if i < at {
                            assert(family@[i] == fam0[i]);
                        } else {
                            assert(family@[i + 1] == fam0[i]);
                        }
                    } else {
                        assert(family@[at].1 == e);
                    }
                }
            }
        } else {
            proof {
                assert(used@ == used1);
                if key_view(keys@[d as int]) == key_view(keys@[c as int]) {
                    assert(same);
                    assert(used@[d as int]);
                    assert(used@[d as int] == used0[d as int]);
                    if key_seen(keys@, c as int, d as int) {
                        let e = choose|e: int| 0 <= e < c && #[trigger] key_view(keys@[e]) == key_view(keys@[d as int]);
                        assert(key_view(keys@[e]) == key_view(keys@[c as int]));
                        assert(key_seen(keys@, c as int, c as int));
                    }
                    assert(false);
                }
                assert forall|e: int|
                    c <= e < d + 1 && #[trigger] key_view(keys@[e]) == key_view(keys@[c as int]) implies exists|
                    i: int,
                | 0 <= i < family@.len() && (#[trigger] family@[i]).1 == e by {
                    assert(e != d);
                }
            }
        }
        d += 1;
        proof {
            assert forall|e: int| 0 <= e < frames@.len() implies (used@[e] <==> (used0[e] || (c <= e < d
                && key_view(keys@[e]) == key_view(keys@[c as int])))) by {
                if e != d - 1 {
                    assert(used@[e] == used1[e]);
                } else if !(unused && same) {
                    assert(used@[e] == used1[e]);
                }
            }
        }
    }
    proof {
        assert forall|e: int|
            0 <= e < frames@.len() && #[trigger] key_view(keys@[e]) == key_view(keys@[c as int]) implies exists|i: int|
            0 <= i < family@.len() && (#[trigger] family@[i]).1 == e by {
            if e < c {
                assert(key_seen(keys@, c as int, c as int));
            }
        }
    }
    family
}

/// Gathers the candidates into families by key, each in number order, and
/// keeps those of at least two frames numbered one after another, ordered by
/// where their first frame stands in the sidebar.
pub fn sequence_families(keys: &Vec<SequenceKey>, frames: &Vec<(usize, WorkspaceId, u32)>) -> (r: Vec<
    (usize, Vec<usize>, usize),
>)
    requires
        keys@.len() == frames@.len(),
    ensures
        families_of(keys@, frames@, r@),
        forall|a: int, b: int| 0 <= a < b < r@.len() ==> (#[trigger] r@[a]).0 <= (#[trigger] r@[b]).0,
{
    let mut used: Vec<bool> = Vec::new();
    let mut u: usize = 0;
    while u < frames.len()
        invariant
            u <= frames@.len(),
            used@.len() == u,
            forall|d: int| 0 <= d < u ==> !used@[d],
        decreases frames@.len() - u,
    {
        used.push(false);
        u += 1;
    }
    let mut sequences: Vec<(usize, Vec<usize>, usize)> = Vec::new();
    let mut c: usize = 0;
    while c < frames.len()
        invariant
            keys@.len() == frames@.len(),
            c <= frames@.len(),
            used@.len() == frames@.len(),
            forall|d: int| 0 <= d < frames@.len() ==> (used@[d] <==> key_seen(keys@, c as int, d)),
            forall|m: int| 0 <= m < sequences@.len() ==> (#[trigger] sequences@[m]).2 < c,
            forall|a: int, b: int|
                0 <= a < b < sequences@.len() ==> (#[trigger] sequences@[a]).0 <= (#[trigger] sequences@[b]).0,
            forall|m: int|
                0 <= m < sequences@.len() ==> (#[trigger] sequences@[m]).2 < frames@.len() && family_ok(
                    keys@,
                    frames@,
                    sequences@[m].2 as int,
                    sequences@[m].1@,
                ) && sequences@[m].0 == frames@[sequences@[m].1@[0] as int].0,
            forall|a: int, b: int|
                0 <= a < sequences@.len() && 0 <= b < sequences@.len() && a != b ==> key_view(
                    keys@[(#[trigger] sequences@[a]).2 as int],
                ) != key_view(keys@[(#[trigger] sequences@[b]).2 as int]),
            forall|k: int, lo: int, n: int|
                0 <= k < c && #[trigger] key_numbers(keys@, frames@, key_view(keys@[k]), lo, n) ==> exists|m: int|
                    0 <= m < sequences@.len() && key_view(keys@[(#[trigger] sequences@[m]).2 as int]) == key_view(
                        keys@[k],
                    ),
        decreases frames@.len() - c,
    {
        let ghost used0 = used@;
        let ghost seqs0 = sequences@;
        if !used[c] {
            assert(!key_seen(keys@, c as int, c as int));
            let family = gather_family(keys, frames, &mut used, c);
            if family.len() >= 2 && consecutive(&family) {
                let mut idxs: Vec<usize> = Vec::new();
                let mut k: usize = 0;
                while k < family.len()
                    invariant
                        k <= family@.len(),
                        idxs@.len() == k,
                        forall|t: int| 0 <= t < k ==> idxs@[t] == (#[trigger] family@[t]).1,
                    decreases family@.len() - k,
                {
                    idxs.push(family[k].1);
                    k += 1;
                }
                let ghost fam = idxs@;
                proof {
                    assert(fam =~= family@.map_values(|p: (u32, usize)| p.1));
                    assert forall|a: int, b: int| 0 <= a < fam.len() && 0 <= b < fam.len() && a != b implies fam[a]
                        != fam[b] by {
                        if a < b {
                            assert(family@[a].1 != family@[b].1);
                        } else {
                            assert(family@[b].1 != family@[a].1);
                        }
                    }
                    assert forall|t: int| 0 <= t < fam.len() - 1 implies frames@[#[trigger] fam[t + 1] as int].2
                        == frames@[fam[t] as int].2 + 1 by {
                        assert(family@[t + 1].0 == family@[t].0 + 1);
                    }
                    assert forall|e: int|
                        0 <= e < frames@.len() && #[trigger] key_view(keys@[e]) == key_view(keys@[c as int]) implies fam.contains(
                        e as usize,
                    ) by {
                        if e < c {
                            assert(key_seen(keys@, c as int, c as int));
                        }
                        let i = choose|i: int| 0 <= i < family@.len() && (#[trigger] family@[i]).1 == e;
                        assert(fam[i] == e as usize);
                    }
                    assert(family_ok(keys@, frames@, c as int, fam));
                }
                let first = frames[family[0].1].0;
                let ghost entry = (first, idxs, c);
                insert_by_position(&mut sequences, (first, idxs, c));
                proof {
                    let at = choose|at: int|
                        0 <= at <= seqs0.len() && sequences@ == seqs0.insert(at, entry) && (forall|j: int|
                            0 <= j < at ==> (#[trigger] seqs0[j]).0 <= entry.0) && (at < seqs0.len() ==> seqs0[at].0
                            > entry.0);
                    assert(sequences@[at] == entry);
                    lemma_insert_family(seqs0, sequences@, at, entry);
                    assert forall|m: int| 0 <= m < sequences@.len() implies (#[trigger] sequences@[m]).2 < c + 1 by {
                        if m < at {
                            assert(sequences@[m] == seqs0[m]);
                        } else if m > at {
                            assert(sequences@[m] == seqs0[m - 1]);
                        }
                    }
                    assert forall|m: int| 0 <= m < sequences@.len() implies (#[trigger] sequences@[m]).2
                        < frames@.len() && family_ok(
                        keys@,
                        frames@,
                        sequences@[m].2 as int,
                        sequences@[m].1@,
                    ) && sequences@[m].0 == frames@[sequences@[m].1@[0] as int].0 by {
                        if m < at {
                            assert(sequences@[m] == seqs0[m]);
                        } else if m > at {
                            assert(sequences@[m] == seqs0[m - 1]);
                        }
                    }
                    assert forall|a: int, b: int|
                        0 <= a < sequences@.len() && 0 <= b < sequences@.len() && a != b implies key_view(
                        keys@[(#[trigger] sequences@[a]).2 as int],
                    ) != key_view(keys@[(#[trigger] sequences@[b]).2 as int]) by {
                        if a != at && b != at {
                            let a0 = if a < at { a } else { a - 1 };
                            let b0 = if b < at { b } else { b - 1 };
                            assert(sequences@[a] == seqs0[a0] && sequences@[b] == seqs0[b0]);
                            assert(key_view(keys@[(seqs0[a0]).2 as int]) != key_view(keys@[(seqs0[b0]).2 as int]));
                        } else {
                            let o = if a == at { b } else { a };
                            let o0 = if o < at { o } else { o - 1 };
                            assert(sequences@[o] == seqs0[o0]);
                            assert(seqs0[o0].2 < c);
                            if key_view(keys@[seqs0[o0].2 as int]) == key_view(keys@[c as int]) {
                                assert(key_seen(keys@, c as int, c as int));
                            }
                        }
                    }
                    assert forall|k: int, lo: int, n: int|
                        0 <= k < c && #[trigger] key_numbers(keys@, frames@, key_view(keys@[k]), lo, n) implies exists|
                        m: int,
                    | 0 <= m < sequences@.len() && key_view(keys@[(#[trigger] sequences@[m]).2 as int]) == key_view(
                        keys@[k],
                    ) by {
                        let m = choose|m: int|
                            0 <= m < seqs0.len() && key_view(keys@[(#[trigger] seqs0[m]).2 as int]) == key_view(
                                keys@[k],
                            );
                        if m < at {
                            assert(sequences@[m] == seqs0[m]);
                        } else {
                            assert(sequences@[m + 1] == seqs0[m]);
                        }
                    }
                }
            } else {
                proof {
                    assert forall|lo: int, n: int| !key_numbers(keys@, frames@, key_view(keys@[c as int]), lo, n) by {
                        if key_numbers(keys@, frames@, key_view(keys@[c as int]), lo, n) {
                            assert forall|k: int|
                                0 <= k < frames@.len() && #[trigger] key_view(keys@[k]) == key_view(
                                    keys@[c as int],
                                ) implies exists|i: int| 0 <= i < family@.len() && (#[trigger] family@[i]).1 == k by {
                                if k < c {
                                    assert(key_seen(keys@, c as int, c as int));
                                }
                            }
                            lemma_family_consecutive(keys@, frames@, key_view(keys@[c as int]), lo, n, family@);
                        }
                    }
                }
            }
        } else {
            proof {
                let e = choose|e: int| 0 <= e < c && #[trigger] key_view(keys@[e]) == key_view(keys@[c as int]);
                assert forall|k: int, lo: int, n: int|
                    0 <= k < c + 1 && #[trigger] key_numbers(keys@, frames@, key_view(keys@[k]), lo, n) implies exists|
                    m: int,
                | 0 <= m < sequences@.len() && key_view(keys@[(#[trigger] sequences@[m]).2 as int]) == key_view(
                    keys@[k],
                ) by {
                    if k == c {
                        assert(key_numbers(keys@, frames@, key_view(keys@[e]), lo, n));
                    }
                }
            }
        }
        proof {
            assert forall|d: int| 0 <= d < frames@.len() implies (used@[d] <==> key_seen(keys@, c + 1, d)) by {
                lemma_seen_step(keys@, c as int, d);
                if d < c && key_view(keys@[c as int]) == key_view(keys@[d]) {
                    assert(key_seen(keys@, c as int, d));
                }
                if used0[c as int] && key_view(keys@[c as int]) == key_view(keys@[d]) {
                    let e = choose|e: int| 0 <= e < c && #[trigger] key_view(keys@[e]) == key_view(keys@[c as int]);
                    assert(key_view(keys@[e]) == key_view(keys@[d]));
                }
            }
        }
        c += 1;
    }
    assert(families_of(keys@, frames@, sequences@));
    sequences
}

/// Whether the entry with id `id` is a candidate with key `key` and number
/// `v`.
pub open spec fn entry_numbered(items: Seq<WorkspaceItem>, id: WorkspaceId, key: SpecSequenceKey, v: int) -> bool {
    exists|q: int| 0 <= q < items.len() && #[trigger] items[q].id == id && candidate(items[q]) == Some((key, v))
}

/// `ids` lists every entry of `items` that can join an automatic group under
/// `key`, at least two, numbered one after another from `lo` on.
pub open spec fn key_run(items: Seq<WorkspaceItem>, key: SpecSequenceKey, lo: int, ids: Seq<WorkspaceId>) -> bool {
    &&& ids.len() >= 2
    &&& forall|t: int| 0 <= t < ids.len() ==> #[trigger] entry_numbered(items, ids[t], key, lo + t)
    &&& forall|q: int|
        0 <= q < items.len() && (#[trigger] candidate(items[q])) is Some && (candidate(items[q])->0).0 == key
            ==> ids.contains(items[q].id)
}

/// The ids of the candidates that a family lists.
pub open spec fn family_ids(frames: Seq<(usize, WorkspaceId, u32)>, fam: Seq<usize>) -> Seq<WorkspaceId> {
    fam.map_values(|k: usize| frames[k as int].1)
}

/// A run of entries under a key shows in the candidate list as that key's
/// candidates numbered one each over the run's numbers.
pub proof fn lemma_key_run_numbers(
    items: Seq<WorkspaceItem>,
    keys: Seq<SequenceKey>,
    frames: Seq<(usize, WorkspaceId, u32)>,
    key: SpecSequenceKey,
    lo: int,
    ids: Seq<WorkspaceId>,
) -> (k: int)
    requires
        candidates_of(items, keys, frames),
        crate::workspace::item_ids(items).no_duplicates(),
        key_run(items, key, lo, ids),
    ensures
        0 <= k < frames.len(),
        key_view(keys[k]) == key,
        key_numbers(keys, frames, key, lo, ids.len() as int),
{
    let n = ids.len() as int;
    // The number of a candidate of the key is the one its id has in the run.
    assert forall|j: int| 0 <= j < frames.len() && key_view(keys[j]) == key implies exists|t: int|
        0 <= t < n && ids[t] == frames[j].1 && frames[j].2 == lo + t by {
        let q = frames[j].0 as int;
        assert(candidate(items[q]) == Some((key_view(keys[j]), frames[j].2 as int)));
        assert(ids.contains(items[q].id));
        let t = choose|t: int| 0 <= t < n && ids[t] == items[q].id;
        assert(entry_numbered(items, ids[t], key, lo + t));
        let q2 = choose|q2: int|
            0 <= q2 < items.len() && #[trigger] items[q2].id == ids[t] && candidate(items[q2]) == Some((key, lo + t));
        assert(crate::workspace::item_ids(items)[q] == crate::workspace::item_ids(items)[q2]);
    }
    assert forall|j: int| 0 <= j < frames.len() && #[trigger] key_view(keys[j]) == key implies lo <= frames[j].2 < lo
        + n by {
        let t = choose|t: int| 0 <= t < n && ids[t] == frames[j].1 && frames[j].2 == lo + t;
    }
    assert forall|v: int| lo <= v < lo + n implies #[trigger] numbered(keys, frames, key, v) by {
        let t = v - lo;
        assert(entry_numbered(items, ids[t], key, lo + t));
        let q = choose|q: int|
            0 <= q < items.len() && #[trigger] items[q].id == ids[t] && candidate(items[q]) == Some((key, lo + t));
        let j = choose|j: int| 0 <= j < frames.len() && (#[trigger] frames[j]).0 == q;
        assert(key_view(keys[j]) == key && frames[j].2 == v);
    }
    assert forall|a: int, b: int|
        0 <= a < frames.len() && 0 <= b < frames.len() && a != b && #[trigger] key_view(keys[a]) == key
            && #[trigger] key_view(keys[b]) == key implies frames[a].2 != frames[b].2 by {
        let ta = choose|t: int| 0 <= t < n && ids[t] == frames[a].1 && frames[a].2 == lo + t;
        let tb = choose|t: int| 0 <= t < n && ids[t] == frames[b].1 && frames[b].2 == lo + t;
        if ta == tb {
            let qa = frames[a].0 as int;
            let qb = frames[b].0 as int;
            if a < b {
                assert(qa < qb);
            } else {
                assert(qb < qa);
            }
            assert(crate::workspace::item_ids(items)[qa] == crate::workspace::item_ids(items)[qb]);
        }
    }
    assert(entry_numbered(items, ids[0], key, lo + 0));
    let q = choose|q: int|
        0 <= q < items.len() && #[trigger] items[q].id == ids[0] && candidate(items[q]) == Some((key, lo + 0));
    let k = choose|k: int| 0 <= k < frames.len() && (#[trigger] frames[k]).0 == q;
    k
}

} // verus!
