//! Automatic grouping: images whose file names differ only by a run of
//! consecutive frame numbers become one animated entry, across the whole
//! workspace, each time images are added.
use crate::grouping::{all_single_images, lemma_pick_keeps, member_for, member_of, pick_items, slice_contains, single_image};
use crate::groups::playback_state;
use crate::idset::{ascending, set_insert, set_remove};
use crate::image_item::{FrameSource, ImageItem, MiDataKind, frame_count_of};
use crate::runs::{
    candidate, candidates_of, entry_numbered, families_of, family_ids, family_ok, frame_candidates, groupable_data,
    key_numbers, key_run, key_view, lemma_key_run_numbers, sequence_families,
};
use crate::sequence::{SequenceKey, SpecSequenceKey, sequence_key, sequence_key_spec};
use crate::workspace::{
    GroupPlayback, SelectionTarget, SequenceGroup, SequenceMember, SidebarItem, WorkspaceItem, ViewerState, WorkspaceId, content_ok, group_keys,
    grouped_ids, item_ids, member_ids, same_diff_cache, same_selection_cache, same_settings,
};
use vstd::prelude::*;

verus! {

/// A reference to `from` points at `to` instead.
pub open spec fn moved_to(reference: Option<WorkspaceId>, from: WorkspaceId, to: WorkspaceId) -> Option<
    WorkspaceId,
> {
    if reference == Some(from) {
        Some(to)
    } else {
        reference
    }
}

/// The member a group entry's picture shows: the current frame of an
/// animation, the first member for a still picture (see `playback_state`).
pub open spec fn shown_member(image: ImageItem, members: Seq<SequenceMember>) -> Option<WorkspaceId> {
    match image.frames {
        FrameSource::Animated { current, .. } => if current < members.len() {
            Some(members[current as int].id)
        } else {
            None
        },
        FrameSource::Single { .. } => if members.len() > 0 {
            Some(members[0].id)
        } else {
            None
        },
    }
}

/// Where a reference goes when the automatic groups are dissolved: one to
/// an automatic group with an image entry moves to the member the entry
/// shows; any other stays.
pub open spec fn expanded_ref(s: ViewerState, r: Option<WorkspaceId>) -> Option<WorkspaceId> {
    match r {
        Some(g) => if automatic_key(s, g) && crate::workspace::has_item(s, g) {
            match s.items@[crate::workspace::position(s, g)->0].content {
                SidebarItem::Image(image) => match shown_member(image, crate::entries::record_of(s, g).members@) {
                    Some(m) => Some(m),
                    None => r,
                },
                SidebarItem::Glyph(_) => r,
            }
        } else {
            r
        },
        None => None,
    }
}

/// How a group entry's picture plays: the member it shows, whether it plays
/// on, and whether its frames are listed (see `playback_state`).
pub open spec fn playback_of(image: ImageItem, members: Seq<SequenceMember>) -> GroupPlayback {
    GroupPlayback {
        current_member: shown_member(image, members),
        autoplay: match image.frames {
            FrameSource::Animated { autoplay, .. } => autoplay,
            FrameSource::Single { .. } => true,
        },
        expanded: image.expanded,
    }
}

/// The sequence key of a group's first member.
pub open spec fn first_key(group: SequenceGroup) -> Option<SpecSequenceKey> {
    if group.members@.len() > 0 && member_key(group.members@[0]) is Some {
        Some((member_key(group.members@[0])->0).0)
    } else {
        None
    }
}

/// Whether the `k`-th group is an automatic group with an image entry whose
/// first member has the sequence key.
pub open spec fn keyed_group(s: ViewerState, k: int, key: SpecSequenceKey) -> bool {
    &&& 0 <= k < s.sequence_groups@.len()
    &&& s.sequence_groups@[k].1.automatic
    &&& crate::workspace::has_item(s, s.sequence_groups@[k].0)
    &&& s.items@[crate::workspace::position(s, s.sequence_groups@[k].0)->0].content is Image
    &&& first_key(s.sequence_groups@[k].1) == Some(key)
}

/// Whether an automatic group of `s` whose first member has the sequence
/// key played as `p`.
pub open spec fn played(s: ViewerState, key: SpecSequenceKey, p: GroupPlayback) -> bool {
    exists|k: int|
        #[trigger] keyed_group(s, k, key) && p == playback_of(
            s.items@[crate::workspace::position(s, s.sequence_groups@[k].0)->0].content->Image_0,
            s.sequence_groups@[k].1.members@,
        )
}

/// Whether the group of `g`, when it is an automatic group with an image
/// entry and a keyed first member, has its key among the recorded ones.
pub open spec fn recorded(s: ViewerState, g: WorkspaceId, playback: Seq<(SequenceKey, GroupPlayback)>) -> bool {
    (crate::workspace::has_item(s, g) && s.items@[crate::workspace::position(s, g)->0].content is Image
        && first_key(crate::entries::record_of(s, g)) is Some) ==> exists|i: int|
        0 <= i < playback.len() && Some(key_view(#[trigger] playback[i].0)) == first_key(crate::entries::record_of(s, g))
}

/// Whether the `k`-th group of `s` plays on as an automatic group of `before`
/// with the same first key did, or, when there was none, from its first
/// member.
pub open spec fn resumed(before: ViewerState, s: ViewerState, k: int) -> bool {
    let g = s.sequence_groups@[k].0;
    let group = s.sequence_groups@[k].1;
    let key = (member_key(group.members@[0])->0).0;
    &&& crate::workspace::has_item(s, g)
    &&& s.items@[crate::workspace::position(s, g)->0].content matches SidebarItem::Image(image) && exists|
        p: GroupPlayback,
    | #[trigger] crate::groups::group_image_spec(image, group.members@, group.label@, p) && (played(before, key, p) || (
    !(exists|q: GroupPlayback| played(before, key, q)) && p == GroupPlayback {
        current_member: Some(group.members@[0].id),
        autoplay: true,
        expanded: false,
    }))
}

/// Recording how the next dissolved group played keeps the records true and
/// complete.
proof fn lemma_recorded_step(
    start: ViewerState,
    now: ViewerState,
    keys: Seq<WorkspaceId>,
    t: int,
    gp: int,
    before: Seq<(SequenceKey, GroupPlayback)>,
    after: Seq<(SequenceKey, GroupPlayback)>,
    key: SequenceKey,
    state: GroupPlayback,
)
    requires
        start.wf(),
        now.wf(),
        0 <= t < keys.len(),
        keys.no_duplicates(),
        forall|x: WorkspaceId| keys.contains(x) <==> #[trigger] automatic_key(start, x),
        forall|u: int|
            0 <= u < keys.len() ==> start.sequence_groups@.contains(
                (#[trigger] keys[u], crate::entries::record_of(start, keys[u])),
            ) && crate::entries::record_of(start, keys[u]).automatic,
        keys_apart(start) ==> forall|i: int|
            0 <= i < before.len() ==> played(start, key_view(#[trigger] before[i].0), before[i].1),
        keys_apart(start) ==> forall|u: int| 0 <= u < t ==> #[trigger] recorded(start, keys[u], before),
        keys_apart(start) ==> crate::workspace::has_item(now, keys[t]) ==> crate::workspace::has_item(start, keys[t])
            && start.items@[crate::workspace::position(start, keys[t])->0] == now.items@[crate::workspace::position(
            now,
            keys[t],
        )->0],
        crate::workspace::group_position(now, keys[t]) == Some(gp),
        keys_apart(start) ==> now.sequence_groups@[gp].1 == crate::entries::record_of(start, keys[t]),
        crate::workspace::has_item(now, keys[t]),
        now.items@[crate::workspace::position(now, keys[t])->0].content matches SidebarItem::Image(image) && state
            == playback_of(image, now.sequence_groups@[gp].1.members@),
        first_key(now.sequence_groups@[gp].1) == Some(key_view(key)),
        (exists|i: int| 0 <= i < before.len() && key_eq(#[trigger] before[i].0, key)) ==> exists|i: int|
            0 <= i < before.len() && key_eq(#[trigger] before[i].0, key) && (forall|j: int|
                0 <= j < i ==> !key_eq(#[trigger] before[j].0, key)) && after == before.update(i, (key, state)),
        !(exists|i: int| 0 <= i < before.len() && key_eq(#[trigger] before[i].0, key)) ==> after == before.push(
            (key, state),
        ),
    ensures
        keys_apart(start) ==> forall|i: int|
            0 <= i < after.len() ==> played(start, key_view(#[trigger] after[i].0), after[i].1),
        keys_apart(start) ==> forall|u: int| 0 <= u <= t ==> #[trigger] recorded(start, keys[u], after),
{
    if keys_apart(start) {
        let at = if exists|i: int| 0 <= i < before.len() && key_eq(#[trigger] before[i].0, key) {
            choose|i: int|
                0 <= i < before.len() && key_eq(#[trigger] before[i].0, key) && (forall|j: int|
                    0 <= j < i ==> !key_eq(#[trigger] before[j].0, key)) && after == before.update(i, (key, state))
        } else {
            before.len() as int
        };
        assert(after[at] == (key, state));
        assert forall|i: int| 0 <= i < before.len() implies key_view(#[trigger] after[i].0) == key_view(before[i].0) by {
            if i == at {
                assert(key_eq(before[i].0, key));
            }
        }
        let g = keys[t];
        assert(keys.contains(g));
        assert(start.sequence_groups@.contains((g, crate::entries::record_of(start, g))));
        crate::entries::lemma_record_found(start, (g, crate::entries::record_of(start, g)));
        let k = crate::workspace::group_position(start, g)->0;
        assert(keyed_group(start, k, key_view(key)));
        assert(played(start, key_view(key), state));
        assert forall|i: int| 0 <= i < after.len() implies played(start, key_view(#[trigger] after[i].0), after[i].1) by {
            if i != at {
                assert(after[i] == before[i]);
            }
        }
        assert forall|u: int| 0 <= u <= t implies #[trigger] recorded(start, keys[u], after) by {
            if u < t {
                lemma_recorded_kept(start, keys[u], before, after);
            } else {
                assert(Some(key_view(after[at].0)) == first_key(crate::entries::record_of(start, g)));
            }
        }
    }
}

/// A group formed from the recorded playback plays on as the dissolved group
/// with its key did.
proof fn lemma_resumed(before: ViewerState, s: ViewerState, k: int, playback: Seq<(SequenceKey, GroupPlayback)>)
    requires
        before.wf(),
        0 <= k < s.sequence_groups@.len(),
        group_shown(s, k, playback),
        frame_run(s.sequence_groups@[k].1.members@),
        forall|i: int| 0 <= i < playback.len() ==> played(before, key_view(#[trigger] playback[i].0), playback[i].1),
        forall|j: int|
            0 <= j < before.sequence_groups@.len() && before.sequence_groups@[j].1.automatic ==> #[trigger] recorded(
                before,
                before.sequence_groups@[j].0,
                playback,
            ),
    ensures
        resumed(before, s, k),
{
    let g = s.sequence_groups@[k].0;
    let group = s.sequence_groups@[k].1;
    let key = (member_key(group.members@[0])->0).0;
    let image = s.items@[crate::workspace::position(s, g)->0].content->Image_0;
    let p = choose|p: GroupPlayback| continues(playback, group.members@, p) && #[trigger] crate::groups::group_image_spec(
        image,
        group.members@,
        group.label@,
        p,
    );
    if exists|i: int|
        0 <= i < playback.len() && key_view(#[trigger] playback[i].0) == key && playback[i].1 == p && forall|j: int|
            0 <= j < i ==> key_view(#[trigger] playback[j].0) != key {
        let i = choose|i: int|
            0 <= i < playback.len() && key_view(#[trigger] playback[i].0) == key && playback[i].1 == p && forall|j: int|
                0 <= j < i ==> key_view(#[trigger] playback[j].0) != key;
        assert(played(before, key_view(playback[i].0), playback[i].1));
    } else {
        assert forall|q: GroupPlayback| !played(before, key, q) by {
            if played(before, key, q) {
                let j = choose|j: int|
                    #[trigger] keyed_group(before, j, key) && q == playback_of(
                        before.items@[crate::workspace::position(before, before.sequence_groups@[j].0)->0].content->Image_0,
                        before.sequence_groups@[j].1.members@,
                    );
                assert(recorded(before, before.sequence_groups@[j].0, playback));
                assert(before.sequence_groups@.contains(before.sequence_groups@[j]));
                crate::entries::lemma_record_found(before, before.sequence_groups@[j]);
                let i = choose|i: int|
                    0 <= i < playback.len() && Some(key_view(#[trigger] playback[i].0)) == first_key(
                        crate::entries::record_of(before, before.sequence_groups@[j].0),
                    );
                assert(key_view(playback[i].0) == key);
            }
        }
    }
}

/// Every group formed from index `from` on plays on as the dissolved group
/// with its key did.
proof fn lemma_all_resumed(before: ViewerState, s: ViewerState, from: int, playback: Seq<(SequenceKey, GroupPlayback)>)
    requires
        before.wf(),
        0 <= from <= s.sequence_groups@.len(),
        forall|k: int| 0 <= k < from ==> !(#[trigger] s.sequence_groups@[k]).1.automatic,
        forall|k: int| from <= k < s.sequence_groups@.len() ==> #[trigger] group_shown(s, k, playback),
        forall|k: int| from <= k < s.sequence_groups@.len() ==> frame_run((#[trigger] s.sequence_groups@[k]).1.members@),
        forall|i: int| 0 <= i < playback.len() ==> played(before, key_view(#[trigger] playback[i].0), playback[i].1),
        forall|j: int|
            0 <= j < before.sequence_groups@.len() && before.sequence_groups@[j].1.automatic ==> #[trigger] recorded(
                before,
                before.sequence_groups@[j].0,
                playback,
            ),
    ensures
        forall|k: int|
            0 <= k < s.sequence_groups@.len() && (#[trigger] s.sequence_groups@[k]).1.automatic ==> resumed(before, s, k),
{
    assert forall|k: int| 0 <= k < s.sequence_groups@.len() && (#[trigger] s.sequence_groups@[k]).1.automatic implies resumed(
        before,
        s,
        k,
    ) by {
        assert(from <= k);
        lemma_resumed(before, s, k, playback);
    }
}

/// What the groups formed play is a matter of the entries and groups alone.
proof fn lemma_resumed_same(before: ViewerState, a: ViewerState, b: ViewerState)
    requires
        a.items@ == b.items@,
        a.sequence_groups@ == b.sequence_groups@,
        forall|k: int|
            0 <= k < a.sequence_groups@.len() && (#[trigger] a.sequence_groups@[k]).1.automatic ==> resumed(before, a, k),
    ensures
        forall|k: int|
            0 <= k < b.sequence_groups@.len() && (#[trigger] b.sequence_groups@[k]).1.automatic ==> resumed(before, b, k),
{
    assert forall|k: int| 0 <= k < b.sequence_groups@.len() && (#[trigger] b.sequence_groups@[k]).1.automatic implies resumed(
        before,
        b,
        k,
    ) by {
        assert(a.sequence_groups@[k] == b.sequence_groups@[k]);
        assert(resumed(before, a, k));
        assert(crate::workspace::has_item(a, a.sequence_groups@[k].0) == crate::workspace::has_item(b, b.sequence_groups@[k].0));
        assert(crate::workspace::position(a, a.sequence_groups@[k].0) == crate::workspace::position(b, b.sequence_groups@[k].0));
    }
}

/// Records that keep every earlier key at its place keep what was recorded.
proof fn lemma_recorded_kept(
    s: ViewerState,
    g: WorkspaceId,
    before: Seq<(SequenceKey, GroupPlayback)>,
    after: Seq<(SequenceKey, GroupPlayback)>,
)
    requires
        recorded(s, g, before),
        after.len() >= before.len(),
        forall|i: int| 0 <= i < before.len() ==> key_view(#[trigger] after[i].0) == key_view(before[i].0),
    ensures
        recorded(s, g, after),
{
    if crate::workspace::has_item(s, g) && s.items@[crate::workspace::position(s, g)->0].content is Image && first_key(
        crate::entries::record_of(s, g),
    ) is Some {
        let i = choose|i: int|
            0 <= i < before.len() && Some(key_view(#[trigger] before[i].0)) == first_key(crate::entries::record_of(s, g));
        assert(key_view(after[i].0) == key_view(before[i].0));
    }
}

/// The ids of the automatic groups.
pub open spec fn automatic_keys(s: ViewerState) -> Set<WorkspaceId> {
    Set::new(|x: WorkspaceId| automatic_key(s, x))
}

/// The entries once the groups in `done` are dissolved: each of their
/// entries replaced, where it stands, by the group's restored members.
pub open spec fn dissolved_items(s: ViewerState, items: Seq<WorkspaceItem>, done: Set<WorkspaceId>) -> Seq<
    WorkspaceItem,
>
    decreases items.len(),
{
    if items.len() == 0 {
        Seq::empty()
    } else {
        dissolved_items(s, items.drop_last(), done) + if done.contains(items.last().id) {
            crate::grouping::restored_items(crate::entries::record_of(s, items.last().id).members@)
        } else {
            seq![items.last()]
        }
    }
}

/// Dissolving no group of the entries leaves them as they are.
proof fn lemma_dissolved_none(s: ViewerState, items: Seq<WorkspaceItem>, done: Set<WorkspaceId>)
    requires
        forall|i: int| 0 <= i < items.len() ==> !done.contains(#[trigger] items[i].id),
    ensures
        dissolved_items(s, items, done) == items,
    decreases items.len(),
{
    if items.len() > 0 {
        let init = items.drop_last();
        assert forall|i: int| 0 <= i < init.len() implies !done.contains(#[trigger] init[i].id) by {
            assert(init[i] == items[i]);
        }
        lemma_dissolved_none(s, init, done);
        assert(items.last() == items[items.len() - 1]);
        assert(init.push(items.last()) == items);
    }
}

/// The first `t` of the keys.
pub open spec fn keys_upto(keys: Seq<WorkspaceId>, t: int) -> Set<WorkspaceId> {
    Set::new(|x: WorkspaceId| exists|i: int| 0 <= i < t && keys[i] == x)
}

/// Dissolving the next automatic group keeps the entries those of `start`
/// with the groups dissolved so far replaced in place.
proof fn lemma_dissolve_in_order(start: ViewerState, mid: ViewerState, after: ViewerState, keys: Seq<WorkspaceId>, t: int)
    requires
        start.wf(),
        mid.wf(),
        0 <= t < keys.len(),
        keys.no_duplicates(),
        mid.items@ == dissolved_items(start, start.items@, keys_upto(keys, t)),
        crate::workspace::has_item(start, keys[t]) ==> crate::workspace::has_item(mid, keys[t]),
        crate::workspace::has_item(mid, keys[t]) ==> crate::workspace::has_item(start, keys[t]),
        crate::workspace::group_position(mid, keys[t]) matches Some(gp) && mid.sequence_groups@[gp].1
            == crate::entries::record_of(start, keys[t]),
        !crate::workspace::has_item(mid, keys[t]) ==> after.items@ == mid.items@,
        crate::workspace::has_item(mid, keys[t]) ==> after.items@ == mid.items@.take(
            crate::workspace::position(mid, keys[t])->0,
        ) + crate::grouping::restored_items(
            mid.sequence_groups@[crate::workspace::group_position(mid, keys[t])->0].1.members@,
        ) + mid.items@.skip(crate::workspace::position(mid, keys[t])->0 + 1),
    ensures
        after.items@ == dissolved_items(start, start.items@, keys_upto(keys, t + 1)),
{
    let g = keys[t];
    let done = keys_upto(keys, t);
    assert(keys_upto(keys, t + 1) =~= done.insert(g)) by {
        assert forall|x: WorkspaceId| keys_upto(keys, t + 1).contains(x) <==> done.insert(g).contains(x) by {
            if keys_upto(keys, t + 1).contains(x) {
                let i = choose|i: int| 0 <= i < t + 1 && keys[i] == x;
                if i < t {
                    assert(done.contains(x));
                }
            }
            if done.contains(x) {
                let i = choose|i: int| 0 <= i < t && keys[i] == x;
                assert(0 <= i < t + 1 && keys[i] == x);
            }
            if x == g {
                assert(0 <= t < t + 1 && keys[t] == x);
            }
        }
    }
    assert(!done.contains(g)) by {
        if done.contains(g) {
            let i = choose|i: int| 0 <= i < t && keys[i] == g;
            assert(keys[i] == keys[t]);
        }
    }
    if crate::workspace::has_item(start, g) {
        crate::workspace::lemma_position(start, g);
        let q = crate::workspace::position(start, g)->0;
        lemma_dissolved_step(start, start.items@, done, q);
        let at = dissolved_items(start, start.items@.take(q), done).len() as int;
        assert(mid.items@[at].id == g);
        crate::workspace::lemma_position(mid, g);
        assert(crate::workspace::position(mid, g) == Some(at));
    } else {
        assert forall|i: int| 0 <= i < start.items@.len() implies (#[trigger] start.items@[i]).id != g by {
            assert(crate::workspace::item_ids(start.items@)[i] == start.items@[i].id);
        }
        lemma_dissolved_absent(start, start.items@, done, g);
    }
}

/// Dissolving splits over a split of the entries.
proof fn lemma_dissolved_concat(s: ViewerState, a: Seq<WorkspaceItem>, b: Seq<WorkspaceItem>, done: Set<WorkspaceId>)
    ensures
        dissolved_items(s, a + b, done) == dissolved_items(s, a, done) + dissolved_items(s, b, done),
    decreases b.len(),
{
    if b.len() == 0 {
        assert(a + b == a);
        assert(dissolved_items(s, b, done) == Seq::<WorkspaceItem>::empty());
        assert(dissolved_items(s, a, done) + Seq::<WorkspaceItem>::empty() == dissolved_items(s, a, done));
    } else {
        lemma_dissolved_concat(s, a, b.drop_last(), done);
        assert((a + b).drop_last() == a + b.drop_last());
        assert((a + b).last() == b.last());
        let tail = if done.contains(b.last().id) {
            crate::grouping::restored_items(crate::entries::record_of(s, b.last().id).members@)
        } else {
            seq![b.last()]
        };
        assert(dissolved_items(s, a + b, done) == dissolved_items(s, a + b.drop_last(), done) + tail);
        assert(dissolved_items(s, b, done) == dissolved_items(s, b.drop_last(), done) + tail);
        assert(dissolved_items(s, a, done) + dissolved_items(s, b.drop_last(), done) + tail == dissolved_items(s, a, done)
            + (dissolved_items(s, b.drop_last(), done) + tail));
    }
}

/// Dissolving a group without an entry among them leaves the entries.
proof fn lemma_dissolved_absent(s: ViewerState, items: Seq<WorkspaceItem>, done: Set<WorkspaceId>, g: WorkspaceId)
    requires
        forall|i: int| 0 <= i < items.len() ==> (#[trigger] items[i]).id != g,
    ensures
        dissolved_items(s, items, done.insert(g)) == dissolved_items(s, items, done),
    decreases items.len(),
{
    if items.len() > 0 {
        let init = items.drop_last();
        assert forall|i: int| 0 <= i < init.len() implies (#[trigger] init[i]).id != g by {
            assert(init[i] == items[i]);
        }
        lemma_dissolved_absent(s, init, done, g);
        assert(items.last() == items[items.len() - 1]);
    }
}

/// Dissolving one more group replaces its one entry by its members.
proof fn lemma_dissolved_step(s: ViewerState, items: Seq<WorkspaceItem>, done: Set<WorkspaceId>, q: int)
    requires
        item_ids(items).no_duplicates(),
        0 <= q < items.len(),
        !done.contains(items[q].id),
    ensures
        ({
            let d = dissolved_items(s, items, done);
            let at = dissolved_items(s, items.take(q), done).len() as int;
            &&& 0 <= at < d.len()
            &&& d[at] == items[q]
            &&& dissolved_items(s, items, done.insert(items[q].id)) == d.take(at) + crate::grouping::restored_items(
                crate::entries::record_of(s, items[q].id).members@,
            ) + d.skip(at + 1)
        }),
{
    let g = items[q].id;
    let x = items[q];
    let front = items.take(q);
    let back = items.skip(q + 1);
    assert(items == front + seq![x] + back);
    assert forall|i: int| 0 <= i < front.len() implies (#[trigger] front[i]).id != g by {
        assert(item_ids(items)[i] == front[i].id);
        assert(item_ids(items)[q] == g);
    }
    assert forall|i: int| 0 <= i < back.len() implies (#[trigger] back[i]).id != g by {
        assert(item_ids(items)[q + 1 + i] == back[i].id);
        assert(item_ids(items)[q] == g);
    }
    lemma_dissolved_absent(s, front, done, g);
    lemma_dissolved_absent(s, back, done, g);
    let one = seq![x];
    assert(one.drop_last() == Seq::<WorkspaceItem>::empty());
    assert(one.last() == x);
    assert(dissolved_items(s, one, done) == seq![x]) by {
        assert(dissolved_items(s, one.drop_last(), done) == Seq::<WorkspaceItem>::empty());
        assert(Seq::<WorkspaceItem>::empty() + seq![x] == seq![x]);
    }
    let rs = crate::grouping::restored_items(crate::entries::record_of(s, g).members@);
    assert(dissolved_items(s, one, done.insert(g)) == rs) by {
        assert(dissolved_items(s, one.drop_last(), done.insert(g)) == Seq::<WorkspaceItem>::empty());
        assert(Seq::<WorkspaceItem>::empty() + rs == rs);
    }
    lemma_dissolved_concat(s, front + one, back, done);
    lemma_dissolved_concat(s, front, one, done);
    lemma_dissolved_concat(s, front + one, back, done.insert(g));
    lemma_dissolved_concat(s, front, one, done.insert(g));
    let df = dissolved_items(s, front, done);
    let db = dissolved_items(s, back, done);
    let d = dissolved_items(s, items, done);
    assert(d == df + seq![x] + db);
    assert(d.take(df.len() as int) == df);
    assert(d.skip(df.len() as int + 1) == db);
    assert(d[df.len() as int] == x);
}

/// A reference once the first `t` of the automatic groups were dissolved.
pub open spec fn expanded_upto(s: ViewerState, keys: Seq<WorkspaceId>, t: int, r: Option<WorkspaceId>) -> Option<
    WorkspaceId,
> {
    if r matches Some(g) && keys.take(t).contains(g) {
        expanded_ref(s, r)
    } else {
        r
    }
}

/// Dissolving one more automatic group moves a reference to it, and only
/// such a reference (no member has an automatic group's id).
proof fn lemma_expanded_step(
    start: ViewerState,
    keys: Seq<WorkspaceId>,
    t: int,
    first: Option<WorkspaceId>,
    now: Option<WorkspaceId>,
    next: Option<WorkspaceId>,
)
    requires
        start.wf(),
        keys_apart(start),
        0 <= t < keys.len(),
        keys.no_duplicates(),
        forall|x: WorkspaceId| keys.contains(x) <==> #[trigger] automatic_key(start, x),
        now == expanded_upto(start, keys, t, first),
        next == if now == Some(keys[t]) {
            expanded_ref(start, Some(keys[t]))
        } else {
            now
        },
    ensures
        next == expanded_upto(start, keys, t + 1, first),
{
    assert(keys.take(t + 1) == keys.take(t).push(keys[t]));
    if let Some(h) = first {
        if keys.take(t).contains(h) {
            let i = choose|i: int| 0 <= i < t && keys.take(t)[i] == h;
            assert(keys[i] == h);
            assert(h != keys[t]);
            assert(keys.contains(keys[t]));
            assert(automatic_key(start, keys[t]));
            if automatic_key(start, h) && crate::workspace::has_item(start, h) {
                let k = choose|k: int| 0 <= k < start.sequence_groups@.len() && #[trigger] start.sequence_groups@[k].0 == h
                    && start.sequence_groups@[k].1.automatic;
                crate::entries::lemma_record_found(start, start.sequence_groups@[k]);
                let rec = crate::entries::record_of(start, h);
                assert(rec == start.sequence_groups@[k].1);
                match start.items@[crate::workspace::position(start, h)->0].content {
                    SidebarItem::Image(image) => match shown_member(image, rec.members@) {
                        Some(m) => {
                            let idx = choose|idx: int| 0 <= idx < rec.members@.len() && rec.members@[idx].id == m;
                            assert(!automatic_key(start, start.sequence_groups@[k].1.members@[idx].id));
                            assert(m != keys[t]);
                        },
                        None => {},
                    },
                    SidebarItem::Glyph(_) => {},
                }
            }
        } else if h == keys[t] {
            assert(keys.take(t + 1)[t] == h);
        } else {
            assert(!keys.take(t + 1).contains(h));
        }
    }
}

/// While the automatic groups are dissolved one by one, the entry of the
/// next one and its record are still those it started with.
proof fn lemma_next_shown(start: ViewerState, now: ViewerState, keys: Seq<WorkspaceId>, t: int)
    requires
        start.wf(),
        now.wf(),
        keys_apart(start),
        0 <= t < keys.len(),
        keys.no_duplicates(),
        forall|x: WorkspaceId| keys.contains(x) <==> #[trigger] automatic_key(start, x),
        forall|u: int|
            0 <= u < keys.len() ==> start.sequence_groups@.contains(
                (#[trigger] keys[u], crate::entries::record_of(start, keys[u])),
            ) && crate::entries::record_of(start, keys[u]).automatic,
        forall|x: WorkspaceItem| #[trigger]
            now.items@.contains(x) ==> (start.items@.contains(x) && !keys.take(t).contains(x.id)) || exists|u: int|
                0 <= u < t && (keys_apart(start) ==> crate::workspace::has_item(start, keys[u]))
                    && crate::grouping::restored_items(crate::entries::record_of(start, keys[u]).members@).contains(x),
        forall|x: WorkspaceItem|
            start.items@.contains(x) && keys.skip(t).contains(x.id) ==> #[trigger] now.items@.contains(x),
        now.sequence_groups@.contains((keys[t], crate::entries::record_of(start, keys[t]))),
        crate::workspace::has_item(start, keys[t]) ==> crate::workspace::has_item(now, keys[t]),
    ensures
        !crate::workspace::has_item(now, keys[t]) ==> expanded_ref(start, Some(keys[t])) == Some(keys[t])
            && !crate::workspace::has_item(start, keys[t]),
        crate::workspace::has_item(now, keys[t]) ==> crate::workspace::has_item(start, keys[t])
            && start.items@[crate::workspace::position(start, keys[t])->0] == now.items@[crate::workspace::position(
            now,
            keys[t],
        )->0],
        automatic_key(start, keys[t]),
        crate::workspace::group_position(now, keys[t]) matches Some(gp) && now.sequence_groups@[gp].1
            == crate::entries::record_of(start, keys[t]),
        crate::workspace::has_item(now, keys[t]) ==> expanded_ref(start, Some(keys[t])) == match now.items@[crate::workspace::position(now, keys[t])->0].content {
            SidebarItem::Image(image) => match shown_member(image, crate::entries::record_of(start, keys[t]).members@) {
                Some(m) => Some(m),
                None => Some(keys[t]),
            },
            SidebarItem::Glyph(_) => Some(keys[t]),
        },
{
    let g = keys[t];
    crate::entries::lemma_record_found(now, (g, crate::entries::record_of(start, g)));
    assert(keys.contains(g));
    assert(automatic_key(start, g));
    if crate::workspace::has_item(now, g) {
        crate::workspace::lemma_position(now, g);
        let p = crate::workspace::position(now, g)->0;
        let x = now.items@[p];
        assert(now.items@.contains(x));
        if !(start.items@.contains(x) && !keys.take(t).contains(x.id)) {
            let u = choose|u: int|
                0 <= u < t && (keys_apart(start) ==> crate::workspace::has_item(start, keys[u]))
                    && crate::grouping::restored_items(crate::entries::record_of(start, keys[u]).members@).contains(x);
            let rec = crate::entries::record_of(start, keys[u]);
            let m = choose|m: int| 0 <= m < rec.members@.len() && crate::grouping::restored_items(rec.members@)[m] == x;
            assert(start.sequence_groups@.contains((keys[u], rec)));
            let k = choose|k: int| 0 <= k < start.sequence_groups@.len() && start.sequence_groups@[k] == (keys[u], rec);
            assert(!automatic_key(start, start.sequence_groups@[k].1.members@[m].id));
            assert(false);
        }
        assert(crate::workspace::has_item(start, g)) by {
            let q = choose|q: int| 0 <= q < start.items@.len() && start.items@[q] == x;
            assert(item_ids(start.items@)[q] == g);
        }
        crate::workspace::lemma_position(start, g);
        let q = choose|q: int| 0 <= q < start.items@.len() && start.items@[q] == x;
        assert(crate::workspace::position(start, g) == Some(q));
    } else {
        if crate::workspace::has_item(start, g) {
            assert(false);
        }
    }
}

/// How a reference moves when the groups from index `from` on were formed:
/// one that pointed at a member of such a group points at the group, any
/// other is unchanged.
pub open spec fn carried(
    before: Option<WorkspaceId>,
    after: Option<WorkspaceId>,
    groups: Seq<(WorkspaceId, SequenceGroup)>,
    from: int,
) -> bool {
    match before {
        Some(x) => {
            &&& (forall|k: int| from <= k < groups.len() ==> !member_ids(#[trigger] groups[k].1).contains(x))
                ==> after == before
            &&& forall|k: int|
                from <= k < groups.len() && member_ids(#[trigger] groups[k].1).contains(x) ==> after == Some(
                    groups[k].0,
                )
        },
        None => after is None,
    }
}

/// Forming one more group out of entries carries a reference on as the
/// group formation remaps it.
proof fn lemma_carried_step(
    first: Option<WorkspaceId>,
    now: Option<WorkspaceId>,
    gs: Seq<(WorkspaceId, SequenceGroup)>,
    from: int,
    ids: Seq<WorkspaceId>,
    g: WorkspaceId,
    group: SequenceGroup,
)
    requires
        0 <= from <= gs.len(),
        carried(first, now, gs, from),
        member_ids(group) == ids,
        forall|y: WorkspaceId| grouped_ids(gs).contains(y) ==> !ids.contains(y),
        forall|k: int| from <= k < gs.len() ==> !ids.contains(#[trigger] gs[k].0),
    ensures
        carried(first, crate::grouping::remapped(now, ids, g), gs.push((g, group)), from),
{
    let after = gs.push((g, group));
    assert forall|k: int| 0 <= k < gs.len() implies #[trigger] after[k] == gs[k] by {}
    match first {
        Some(x) => {
            if exists|k: int| from <= k < gs.len() && member_ids(#[trigger] gs[k].1).contains(x) {
                let k = choose|k: int| from <= k < gs.len() && member_ids(#[trigger] gs[k].1).contains(x);
                let m = choose|m: int| 0 <= m < member_ids(gs[k].1).len() && member_ids(gs[k].1)[m] == x;
                assert(gs[k].1.members@[m].id == x);
                lemma_grouped_members(gs, x);
                assert(!ids.contains(x));
                assert(now == Some(gs[k].0));
                assert(!member_ids(after[gs.len() as int].1).contains(x));
                assert(crate::grouping::remapped(now, ids, g) == now);
                assert forall|j: int| from <= j < after.len() && member_ids(#[trigger] after[j].1).contains(x) implies crate::grouping::remapped(now, ids, g) == Some(after[j].0) by {
                    if j < gs.len() {
                        assert(after[j] == gs[j]);
                    }
                }
                assert(exists|j: int| from <= j < after.len() && member_ids(#[trigger] after[j].1).contains(x)) by {
                    assert(after[k] == gs[k]);
                }
            } else {
                assert(now == first);
                if ids.contains(x) {
                    assert(member_ids(after[gs.len() as int].1).contains(x));
                    assert(crate::grouping::remapped(now, ids, g) == Some(g));
                    assert forall|j: int| from <= j < after.len() && member_ids(#[trigger] after[j].1).contains(x) implies crate::grouping::remapped(now, ids, g) == Some(after[j].0) by {
                        if j < gs.len() {
                            assert(after[j] == gs[j]);
                        }
                    }
                } else {
                    assert(crate::grouping::remapped(now, ids, g) == now);
                    assert forall|j: int| from <= j < after.len() implies !member_ids(#[trigger] after[j].1).contains(x) by {
                        if j < gs.len() {
                            assert(after[j] == gs[j]);
                        }
                    }
                }
            }
        },
        None => {},
    }
}

/// Where a reference ends up once the automatic groups were formed anew in
/// `s`: one that pointed at a member of an automatic group points at the
/// group, any other is unchanged.
pub open spec fn regrouped(before: Option<WorkspaceId>, after: Option<WorkspaceId>, s: ViewerState) -> bool {
    match before {
        Some(x) => {
            &&& (forall|k: int|
                0 <= k < s.sequence_groups@.len() && (#[trigger] s.sequence_groups@[k]).1.automatic
                    ==> !member_ids(s.sequence_groups@[k].1).contains(x)) ==> after == before
            &&& forall|k: int|
                0 <= k < s.sequence_groups@.len() && (#[trigger] s.sequence_groups@[k]).1.automatic && member_ids(
                    s.sequence_groups@[k].1,
                ).contains(x) ==> after == Some(s.sequence_groups@[k].0)
        },
        None => after is None,
    }
}

/// A reference has one place to end up.
pub proof fn lemma_regrouped_unique(before: Option<WorkspaceId>, a: Option<WorkspaceId>, b: Option<WorkspaceId>, s: ViewerState)
    requires
        regrouped(before, a, s),
        regrouped(before, b, s),
    ensures
        a == b,
{
    if let Some(x) = before {
        if exists|k: int|
            0 <= k < s.sequence_groups@.len() && (#[trigger] s.sequence_groups@[k]).1.automatic && member_ids(
                s.sequence_groups@[k].1,
            ).contains(x) {
            let k = choose|k: int|
                0 <= k < s.sequence_groups@.len() && (#[trigger] s.sequence_groups@[k]).1.automatic && member_ids(
                    s.sequence_groups@[k].1,
                ).contains(x);
        }
    }
}

/// When the groups before `from` are the manual ones and those from `from`
/// on the automatic ones, a carried reference is a regrouped one.
proof fn lemma_regrouped_from_carried(before: Option<WorkspaceId>, after: Option<WorkspaceId>, s: ViewerState, from: int)
    requires
        0 <= from <= s.sequence_groups@.len(),
        carried(before, after, s.sequence_groups@, from),
        forall|k: int| 0 <= k < from ==> !(#[trigger] s.sequence_groups@[k]).1.automatic,
        forall|k: int| from <= k < s.sequence_groups@.len() ==> (#[trigger] s.sequence_groups@[k]).1.automatic,
    ensures
        regrouped(before, after, s),
{
    if let Some(x) = before {
        assert forall|k: int|
            0 <= k < s.sequence_groups@.len() && (#[trigger] s.sequence_groups@[k]).1.automatic && member_ids(
                s.sequence_groups@[k].1,
            ).contains(x) implies after == Some(s.sequence_groups@[k].0) by {
            assert(from <= k);
        }
        if forall|k: int|
            0 <= k < s.sequence_groups@.len() && (#[trigger] s.sequence_groups@[k]).1.automatic
                ==> !member_ids(s.sequence_groups@[k].1).contains(x) {
            assert forall|k: int| from <= k < s.sequence_groups@.len() implies !member_ids(
                #[trigger] s.sequence_groups@[k].1,
            ).contains(x) by {
                assert(s.sequence_groups@[k].1.automatic);
            }
        }
    }
}

/// The entries an insertion groups: the entries with the automatic groups
/// dissolved in place, then the new contents that show no path already
/// there, under the next ids.
pub open spec fn inserted_items(old: ViewerState, contents: Seq<SidebarItem>) -> Seq<WorkspaceItem> {
    dissolved_items(old, old.items@, automatic_keys(old)) + crate::workspace::fresh_items(
        fresh_contents(shown_paths(old), contents),
        old.next_workspace_id as int,
    )
}

/// The order of entries by their places is a matter of the entries and
/// groups alone.
proof fn lemma_anchored_same(items: Seq<WorkspaceItem>, bound: int, a: ViewerState, b: ViewerState)
    requires
        a.items@ == b.items@,
        a.sequence_groups@ == b.sequence_groups@,
        anchored_order(items, bound, a),
    ensures
        anchored_order(items, bound, b),
{
    assert forall|i: int, j: int| 0 <= i < j < b.items@.len() implies anchor(items, bound, b, #[trigger] b.items@[i])
        < anchor(items, bound, b, #[trigger] b.items@[j]) by {
        assert(anchor(items, bound, a, a.items@[i]) < anchor(items, bound, a, a.items@[j]));
        assert(crate::workspace::group_position(a, b.items@[i].id) == crate::workspace::group_position(b, b.items@[i].id));
        assert(crate::workspace::group_position(a, b.items@[j].id) == crate::workspace::group_position(b, b.items@[j].id));
    }
}

/// Whether two sequence keys are equal.
pub fn same_key(a: &SequenceKey, b: &SequenceKey) -> (r: bool)
    ensures
        r == (a.0@ == b.0@ && a.1@ == b.1@ && a.2@ == b.2@ && a.3@ == b.3@ && a.4 == b.4 && a.5 == b.5),
{
    a.0 == b.0 && a.1 == b.1 && a.2 == b.2 && a.3 == b.3 && a.4 == b.4 && a.5 == b.5
}

impl ViewerState {
    /// Points every reference to an expanded group at one of its members:
    /// the selection, the selected, focused, anchor and hovered entries, both
    /// diff sides, and the selection target (a frame of the group included).
    pub fn remap_expanded_group_references(&mut self, group: WorkspaceId, member: WorkspaceId)
        requires
            ascending(old(self).selected_ids@),
        ensures
            ascending(final(self).selected_ids@),
            final(self).selected_ids@.to_set() == if old(self).selected_ids@.to_set().contains(group) {
                old(self).selected_ids@.to_set().remove(group).insert(member)
            } else {
                old(self).selected_ids@.to_set()
            },
            final(self).selected_id == moved_to(old(self).selected_id, group, member),
            final(self).focused_id == moved_to(old(self).focused_id, group, member),
            final(self).range_anchor == moved_to(old(self).range_anchor, group, member),
            final(self).hovered_id == moved_to(old(self).hovered_id, group, member),
            final(self).diff_image1_id == moved_to(old(self).diff_image1_id, group, member),
            final(self).diff_image2_id == moved_to(old(self).diff_image2_id, group, member),
            final(self).primary_target == match old(self).primary_target {
                Some(SelectionTarget::Entry(id)) if id == group => Some(SelectionTarget::Entry(member)),
                Some(SelectionTarget::Frame { collection, .. }) if collection == group => Some(
                    SelectionTarget::Entry(member),
                ),
                _ => old(self).primary_target,
            },
            final(self).list_focus == old(self).list_focus,
            final(self).items@ == old(self).items@,
            final(self).sequence_groups@ == old(self).sequence_groups@,
            final(self).next_workspace_id == old(self).next_workspace_id,
            same_settings(*final(self), *old(self)),
            same_selection_cache(*final(self), *old(self)),
            same_diff_cache(*final(self), *old(self)),
    {
        replace_in_set(&mut self.selected_ids, group, member);
        self.selected_id = moved(self.selected_id, group, member);
        self.focused_id = moved(self.focused_id, group, member);
        self.range_anchor = moved(self.range_anchor, group, member);
        self.hovered_id = moved(self.hovered_id, group, member);
        self.diff_image1_id = moved(self.diff_image1_id, group, member);
        self.diff_image2_id = moved(self.diff_image2_id, group, member);
        self.primary_target = retargeted(self.primary_target, group, member);
    }

    /// Dissolves every automatic group back into its members, each reference
    /// to a group moving to the member it was showing. Returns, per sequence
    /// key of the groups' first members, how the group was playing (the last
    /// group with a key wins), so that a regrouping can continue it.
    pub fn expand_automatic_sequence_groups(&mut self) -> (playback: Vec<(SequenceKey, GroupPlayback)>)
        requires
            old(self).wf(),
        ensures
            final(self).wf(),
            forall|k: int|
                0 <= k < final(self).sequence_groups@.len() ==> !(#[trigger] final(self).sequence_groups@[k]).1.automatic,
            final(self).next_workspace_id == old(self).next_workspace_id,
            forall|r: (WorkspaceId, SequenceGroup)|
                old(self).sequence_groups@.contains(r) && !r.1.automatic ==> #[trigger] final(self).sequence_groups@.contains(r),
            forall|x: WorkspaceId|
                crate::workspace::has_item(*old(self), x) && !automatic_key(*old(self), x) ==> #[trigger] crate::workspace::has_item(
                    *final(self),
                    x,
                ),
            forall|g: int, m: int|
                0 <= g < old(self).sequence_groups@.len() && old(self).sequence_groups@[g].1.automatic
                    && crate::workspace::has_item(*old(self), old(self).sequence_groups@[g].0) && 0 <= m
                    < old(self).sequence_groups@[g].1.members@.len() && !automatic_key(
                    *old(self),
                    (#[trigger] old(self).sequence_groups@[g].1.members@[m]).id,
                ) ==> crate::workspace::has_item(*final(self), old(self).sequence_groups@[g].1.members@[m].id),
            forall|x: WorkspaceItem| #[trigger]
                final(self).items@.contains(x) ==> (old(self).items@.contains(x) && !automatic_key(*old(self), x.id))
                    || exists|g: int|
                    0 <= g < old(self).sequence_groups@.len() && old(self).sequence_groups@[g].1.automatic && (keys_apart(
                        *old(self),
                    ) ==> crate::workspace::has_item(*old(self), old(self).sequence_groups@[g].0))
                        && crate::grouping::restored_items(old(self).sequence_groups@[g].1.members@).contains(x),
            forall|x: WorkspaceItem|
                old(self).items@.contains(x) && !automatic_key(*old(self), x.id) ==> #[trigger] final(self).items@.contains(x),
            forall|g: int, m: int|
                0 <= g < old(self).sequence_groups@.len() && old(self).sequence_groups@[g].1.automatic
                    && crate::workspace::has_item(*old(self), old(self).sequence_groups@[g].0) && 0 <= m
                    < old(self).sequence_groups@[g].1.members@.len() && !automatic_key(
                    *old(self),
                    old(self).sequence_groups@[g].1.members@[m].id,
                ) ==> final(self).items@.contains(
                    #[trigger] crate::grouping::restored_items(old(self).sequence_groups@[g].1.members@)[m],
                ),
            keys_apart(*old(self)) ==> forall|i: int|
                0 <= i < playback@.len() ==> played(*old(self), key_view(#[trigger] playback@[i].0), playback@[i].1),
            keys_apart(*old(self)) ==> forall|k: int|
                0 <= k < old(self).sequence_groups@.len() && old(self).sequence_groups@[k].1.automatic ==> #[trigger] recorded(
                    *old(self),
                    old(self).sequence_groups@[k].0,
                    playback@,
                ),
            keys_apart(*old(self)) ==> final(self).items@ == dissolved_items(*old(self), old(self).items@, automatic_keys(*old(self))),
            keys_apart(*old(self)) ==> final(self).selected_id == expanded_ref(*old(self), old(self).selected_id),
            keys_apart(*old(self)) ==> final(self).hovered_id == expanded_ref(*old(self), old(self).hovered_id),
            keys_apart(*old(self)) ==> final(self).diff_image1_id == expanded_ref(*old(self), old(self).diff_image1_id),
            keys_apart(*old(self)) ==> final(self).diff_image2_id == expanded_ref(*old(self), old(self).diff_image2_id),
            same_settings(*final(self), *old(self)),
            same_selection_cache(*final(self), *old(self)),
            same_diff_cache(*final(self), *old(self)),
    {
        let mut automatic: Vec<WorkspaceId> = Vec::new();
        let mut g: usize = 0;
        while g < self.sequence_groups.len()
            invariant
                self.wf(),
                g <= self.sequence_groups@.len(),
                forall|k: int|
                    0 <= k < g && (#[trigger] self.sequence_groups@[k]).1.automatic ==> automatic@.contains(
                        self.sequence_groups@[k].0,
                    ),
                forall|a: int| 0 <= a < automatic@.len() ==> key_among(self.sequence_groups@, g as int, #[trigger] automatic@[a]),
                automatic@.no_duplicates(),
            decreases self.sequence_groups@.len() - g,
        {
            let ghost old_automatic = automatic@;
            if self.sequence_groups[g].1.automatic {
                let ghost before = automatic@;
                proof {
                    if before.contains(self.sequence_groups@[g as int].0) {
                        let a = choose|a: int| 0 <= a < before.len() && before[a] == self.sequence_groups@[g as int].0;
                        assert(key_among(self.sequence_groups@, g as int, before[a]));
                        let k = choose|k: int|
                            0 <= k < g && #[trigger] self.sequence_groups@[k].0 == before[a]
                                && self.sequence_groups@[k].1.automatic;
                        assert(group_keys(self.sequence_groups@)[k] == group_keys(self.sequence_groups@)[g as int]);
                    }
                }
                automatic.push(self.sequence_groups[g].0);
                assert forall|k: int|
                    0 <= k <= g && (#[trigger] self.sequence_groups@[k]).1.automatic implies automatic@.contains(
                    self.sequence_groups@[k].0,
                ) by {
                    if k < g {
                        let t = choose|t: int| 0 <= t < before.len() && before[t] == self.sequence_groups@[k].0;
                        assert(automatic@[t] == before[t]);
                    } else {
                        assert(automatic@[before.len() as int] == self.sequence_groups@[k].0);
                    }
                }
            }
            proof {
                let now = automatic@;
                assert forall|a: int| 0 <= a < now.len() implies key_among(self.sequence_groups@, g + 1, #[trigger] now[a]) by {
                    if a < old_automatic.len() {
                        assert(now[a] == old_automatic[a]);
                        assert(key_among(self.sequence_groups@, g as int, old_automatic[a]));
                        let k = choose|k: int|
                            0 <= k < g && #[trigger] self.sequence_groups@[k].0 == old_automatic[a]
                                && self.sequence_groups@[k].1.automatic;
                        assert(self.sequence_groups@[k].0 == now[a]);
                    } else {
                        assert(self.sequence_groups@[g as int].0 == now[a]);
                    }
                }
            }
            g += 1;
        }
        let ghost start = *self;
        proof {
            assert forall|u: int| 0 <= u < automatic@.len() implies start.sequence_groups@.contains(
                (#[trigger] automatic@[u], crate::entries::record_of(start, automatic@[u])),
            ) && crate::entries::record_of(start, automatic@[u]).automatic by {
                assert(key_among(start.sequence_groups@, start.sequence_groups@.len() as int, automatic@[u]));
                let k = choose|k: int|
                    0 <= k < start.sequence_groups@.len() && #[trigger] start.sequence_groups@[k].0 == automatic@[u]
                        && start.sequence_groups@[k].1.automatic;
                assert(start.sequence_groups@.contains(start.sequence_groups@[k]));
                crate::entries::lemma_record_found(start, start.sequence_groups@[k]);
            }
            assert forall|x: WorkspaceId| automatic@.contains(x) <==> #[trigger] automatic_key(start, x) by {
                if automatic@.contains(x) {
                    let a = choose|a: int| 0 <= a < automatic@.len() && automatic@[a] == x;
                    assert(key_among(start.sequence_groups@, start.sequence_groups@.len() as int, automatic@[a]));
                    let k = choose|k: int|
                        0 <= k < start.sequence_groups@.len() && #[trigger] start.sequence_groups@[k].0 == automatic@[a]
                            && start.sequence_groups@[k].1.automatic;
                }
                if automatic_key(start, x) {
                    let k = choose|k: int|
                        0 <= k < start.sequence_groups@.len() && #[trigger] start.sequence_groups@[k].0 == x
                            && start.sequence_groups@[k].1.automatic;
                }
            }
        }
        assert(automatic@.skip(0) == automatic@);
        proof {
            assert(keys_upto(automatic@, 0) =~= Set::<WorkspaceId>::empty());
            lemma_dissolved_none(start, start.items@, keys_upto(automatic@, 0));
        }
        let mut playback: Vec<(SequenceKey, GroupPlayback)> = Vec::new();
        let mut t: usize = 0;
        while t < automatic.len()
            invariant
                self.wf(),
                t <= automatic@.len(),
                self.next_workspace_id == start.next_workspace_id,
                same_settings(*self, start),
                same_selection_cache(*self, start),
                same_diff_cache(*self, start),
                forall|k: int|
                    0 <= k < self.sequence_groups@.len() && (#[trigger] self.sequence_groups@[k]).1.automatic
                        ==> automatic@.skip(t as int).contains(self.sequence_groups@[k].0),
                automatic@.no_duplicates(),
                start.wf(),
                forall|u: int|
                    0 <= u < automatic@.len() ==> start.sequence_groups@.contains(
                        (#[trigger] automatic@[u], crate::entries::record_of(start, automatic@[u])),
                    ) && crate::entries::record_of(start, automatic@[u]).automatic,
                forall|x: WorkspaceId| automatic@.contains(x) <==> #[trigger] automatic_key(start, x),
                forall|u: int|
                    t <= u < automatic@.len() ==> self.sequence_groups@.contains(
                        (#[trigger] automatic@[u], crate::entries::record_of(start, automatic@[u])),
                    ) && crate::entries::record_of(start, automatic@[u]).automatic && (crate::workspace::has_item(
                        start,
                        automatic@[u],
                    ) ==> crate::workspace::has_item(*self, automatic@[u])),
                forall|r: (WorkspaceId, SequenceGroup)|
                    start.sequence_groups@.contains(r) && !r.1.automatic ==> #[trigger] self.sequence_groups@.contains(r),
                forall|x: WorkspaceId|
                    crate::workspace::has_item(start, x) && !automatic@.contains(x) ==> #[trigger] crate::workspace::has_item(
                        *self,
                        x,
                    ),
                forall|u: int, m: int|
                    0 <= u < t && crate::workspace::has_item(start, automatic@[u]) && 0 <= m
                        < crate::entries::record_of(start, automatic@[u]).members@.len() && !automatic@.contains(
                        (#[trigger] crate::entries::record_of(start, automatic@[u]).members@[m]).id,
                    ) ==> crate::workspace::has_item(*self, crate::entries::record_of(start, automatic@[u]).members@[m].id),
                forall|x: WorkspaceItem| #[trigger]
                    self.items@.contains(x) ==> (start.items@.contains(x) && !automatic@.take(t as int).contains(x.id))
                        || exists|u: int|
                        0 <= u < t && (keys_apart(start) ==> crate::workspace::has_item(start, automatic@[u]))
                            && crate::grouping::restored_items(
                            crate::entries::record_of(start, automatic@[u]).members@,
                        ).contains(x),
                forall|x: WorkspaceItem|
                    start.items@.contains(x) && !automatic@.contains(x.id) ==> #[trigger] self.items@.contains(x),
                forall|x: WorkspaceItem|
                    start.items@.contains(x) && automatic@.skip(t as int).contains(x.id) ==> #[trigger] self.items@.contains(x),
                keys_apart(start) ==> self.items@ == dissolved_items(start, start.items@, keys_upto(automatic@, t as int)),
                keys_apart(start) ==> forall|i: int|
                    0 <= i < playback@.len() ==> played(start, key_view(#[trigger] playback@[i].0), playback@[i].1),
                keys_apart(start) ==> forall|u: int| 0 <= u < t ==> #[trigger] recorded(start, automatic@[u], playback@),
                keys_apart(start) ==> self.selected_id == expanded_upto(start, automatic@, t as int, start.selected_id),
                keys_apart(start) ==> self.hovered_id == expanded_upto(start, automatic@, t as int, start.hovered_id),
                keys_apart(start) ==> self.diff_image1_id == expanded_upto(start, automatic@, t as int, start.diff_image1_id),
                keys_apart(start) ==> self.diff_image2_id == expanded_upto(start, automatic@, t as int, start.diff_image2_id),
                forall|u: int, m: int|
                    0 <= u < t && crate::workspace::has_item(start, automatic@[u]) && 0 <= m
                        < crate::entries::record_of(start, automatic@[u]).members@.len() && !automatic@.contains(
                        crate::entries::record_of(start, automatic@[u]).members@[m].id,
                    ) ==> self.items@.contains(
                        #[trigger] crate::grouping::restored_items(crate::entries::record_of(start, automatic@[u]).members@)[m],
                    ),
            decreases automatic@.len() - t,
        {
            let group_id = automatic[t];
            let ghost before = *self;
            let ghost shown = expanded_ref(start, Some(group_id));
            proof {
                if keys_apart(start) {
                    lemma_next_shown(start, before, automatic@, t as int);
                }
            }
            match self.group_index(group_id) {
                Some(gp) => {
                    match self.index_of(group_id) {
                        Some(index) => {
                            let mut member: Option<WorkspaceId> = None;
                            match &self.items[index].content {
                                SidebarItem::Image(image) => {
                                    let members = &self.sequence_groups[gp].1.members;
                                    let state = playback_state(image, members.as_slice());
                                    if members.len() > 0 {
                                        let first = &members[0];
                                        assert(crate::workspace::frame_path_ok(
                                            self.sequence_groups@[gp as int].1.members@[0].image.path@,
                                        ));
                                        match sequence_key(
                                            first.image.path.as_str(),
                                            first.image.width,
                                            first.image.height,
                                        ) {
                                            Some((key, _)) => {
                                                let ghost earlier = playback@;
                                                record_playback(&mut playback, key, state);
                                                proof {
                                                    lemma_recorded_step(
                                                        start,
                                                        before,
                                                        automatic@,
                                                        t as int,
                                                        gp as int,
                                                        earlier,
                                                        playback@,
                                                        key,
                                                        state,
                                                    );
                                                }
                                            },
                                            None => {},
                                        }
                                    }
                                    member = state.current_member;
                                    assert(member == shown_member(*image, self.sequence_groups@[gp as int].1.members@));
                                },
                                SidebarItem::Glyph(_) => {},
                            }
                            match member {
                                Some(m) => {
                                    self.remap_expanded_group_references(group_id, m);
                                },
                                None => {},
                            }
                        },
                        None => {},
                    }
                },
                None => {},
            }
            let ghost mid = *self;
            proof {
                if keys_apart(start) {
                    assert(mid.selected_id == if before.selected_id == Some(group_id) { shown } else { before.selected_id });
                    assert(mid.hovered_id == if before.hovered_id == Some(group_id) { shown } else { before.hovered_id });
                    assert(mid.diff_image1_id == if before.diff_image1_id == Some(group_id) { shown } else { before.diff_image1_id });
                    assert(mid.diff_image2_id == if before.diff_image2_id == Some(group_id) { shown } else { before.diff_image2_id });
                }
            }
            proof {
                assert(mid.items@ == before.items@);
                assert(mid.sequence_groups@ == before.sequence_groups@);
                assert(mid.wf());
                assert(automatic@.contains(group_id)) by {
                    assert(automatic@[t as int] == group_id);
                }
                crate::entries::lemma_record_found(mid, (group_id, crate::entries::record_of(start, group_id)));
            }
            let ghost gpos = crate::workspace::group_position(mid, group_id)->0;
            let dissolved = self.dissolve_group(group_id);
            proof {
                assert(mid.sequence_groups@[gpos] == (group_id, crate::entries::record_of(start, group_id)));
                let rec = crate::entries::record_of(start, group_id);
                assert forall|x: WorkspaceId|
                    crate::workspace::has_item(mid, x) && x != group_id implies #[trigger] crate::workspace::has_item(
                    *self,
                    x,
                ) by {
                    if dissolved is Some {
                        crate::workspace::lemma_position(mid, group_id);
                        crate::entries::lemma_entry_stays(
                            mid.items@,
                            crate::workspace::position(mid, group_id)->0,
                            crate::grouping::restored_items(rec.members@),
                            x,
                        );
                    }
                }
                assert forall|x: WorkspaceId|
                    crate::workspace::has_item(start, x) && !automatic@.contains(x) implies #[trigger] crate::workspace::has_item(
                    *self,
                    x,
                ) by {
                    assert(crate::workspace::has_item(before, x));
                    assert(crate::workspace::has_item(mid, x));
                }
                assert forall|r: (WorkspaceId, SequenceGroup)|
                    start.sequence_groups@.contains(r) && !r.1.automatic implies #[trigger] self.sequence_groups@.contains(
                    r,
                ) by {
                    if r.0 == group_id {
                        crate::entries::lemma_record_found(mid, r);
                    } else {
                        crate::entries::lemma_record_stays(mid.sequence_groups@, gpos, r);
                    }
                }
                assert forall|u: int|
                    t + 1 <= u < automatic@.len() implies self.sequence_groups@.contains(
                    (#[trigger] automatic@[u], crate::entries::record_of(start, automatic@[u])),
                ) && crate::entries::record_of(start, automatic@[u]).automatic && (crate::workspace::has_item(
                    start,
                    automatic@[u],
                ) ==> crate::workspace::has_item(*self, automatic@[u])) by {
                    assert(automatic@[u] != automatic@[t as int]);
                    crate::entries::lemma_record_stays(
                        mid.sequence_groups@,
                        gpos,
                        (automatic@[u], crate::entries::record_of(start, automatic@[u])),
                    );
                }
                if crate::workspace::has_item(start, group_id) {
                    assert(dissolved is Some);
                    crate::workspace::lemma_position(mid, group_id);
                    let p = crate::workspace::position(mid, group_id)->0;
                    let now = mid.items@.take(p) + crate::grouping::restored_items(rec.members@) + mid.items@.skip(p + 1);
                    assert(self.items@ == now);
                    assert forall|m: int| 0 <= m < rec.members@.len() implies crate::workspace::has_item(
                        *self,
                        #[trigger] rec.members@[m].id,
                    ) by {
                        assert(now[p + m] == crate::grouping::restored_items(rec.members@)[m]);
                        assert(crate::workspace::item_ids(self.items@)[p + m] == rec.members@[m].id);
                    }
                }
                let restored = crate::grouping::restored_items(rec.members@);
                if dissolved is Some {
                    crate::workspace::lemma_position(mid, group_id);
                    let p = crate::workspace::position(mid, group_id)->0;
                    crate::entries::lemma_replaced_entries(mid.items@, p, restored);
                    assert(self.items@ == mid.items@.take(p) + restored + mid.items@.skip(p + 1));
                    assert(mid.items@[p].id == group_id);
                } else {
                    assert(self.items@ == mid.items@);
                    assert(!crate::workspace::has_item(mid, group_id));
                }
                assert forall|x: WorkspaceItem| mid.items@.contains(x) && x.id != group_id implies #[trigger] self.items@.contains(
                    x,
                ) by {}
                assert forall|x: WorkspaceItem| #[trigger] self.items@.contains(x) && !restored.contains(x) implies mid.items@.contains(
                    x,
                ) && x.id != group_id by {
                    if dissolved is None {
                        if x.id == group_id {
                            let k = choose|k: int| 0 <= k < mid.items@.len() && mid.items@[k] == x;
                            assert(crate::workspace::item_ids(mid.items@)[k] == group_id);
                        }
                    }
                }
                assert forall|x: WorkspaceItem| start.items@.contains(x) && !automatic@.contains(x.id) implies #[trigger] self.items@.contains(
                    x,
                ) by {
                    assert(before.items@.contains(x));
                    assert(mid.items@.contains(x));
                }
                assert(automatic@.take(t + 1) =~= automatic@.take(t as int).push(group_id));
                assert(keys_apart(start) && dissolved is Some ==> crate::workspace::has_item(start, group_id)) by {
                if keys_apart(start) && dissolved is Some {
                    assert(crate::workspace::has_item(mid, group_id));
                    let k = choose|k: int| 0 <= k < item_ids(mid.items@).len() && item_ids(mid.items@)[k] == group_id;
                    let y = mid.items@[k];
                    assert(y.id == group_id);
                    assert(before.items@.contains(y));
                    if !(start.items@.contains(y) && !automatic@.take(t as int).contains(y.id)) {
                        let u = choose|u: int|
                            0 <= u < t && (keys_apart(start) ==> crate::workspace::has_item(start, automatic@[u]))
                                && crate::grouping::restored_items(
                                crate::entries::record_of(start, automatic@[u]).members@,
                            ).contains(y);
                        let rs = crate::grouping::restored_items(crate::entries::record_of(start, automatic@[u]).members@);
                        let m = choose|m: int| 0 <= m < rs.len() && rs[m] == y;
                        crate::entries::lemma_record_found(start, (automatic@[u], crate::entries::record_of(start, automatic@[u])));
                        let g = crate::workspace::group_position(start, automatic@[u])->0;
                        assert(start.sequence_groups@[g].1.members@[m].id == group_id);
                        assert(start.sequence_groups@[g].1.automatic);
                        assert(automatic_key(start, group_id));
                        assert(!automatic_key(start, start.sequence_groups@[g].1.members@[m].id));
                    } else {
                        assert(item_ids(start.items@).contains(group_id)) by {
                            let j = choose|j: int| 0 <= j < start.items@.len() && start.items@[j] == y;
                            assert(item_ids(start.items@)[j] == group_id);
                        }
                    }
                }
                }
                assert forall|x: WorkspaceItem| #[trigger]
                    self.items@.contains(x) implies (start.items@.contains(x) && !automatic@.take(t + 1).contains(x.id))
                        || exists|u: int|
                        0 <= u < t + 1 && (keys_apart(start) ==> crate::workspace::has_item(start, automatic@[u]))
                            && crate::grouping::restored_items(
                            crate::entries::record_of(start, automatic@[u]).members@,
                        ).contains(x) by {
                    if restored.contains(x) {
                        assert(automatic@[t as int] == group_id);
                    } else {
                        assert(mid.items@.contains(x) && x.id != group_id);
                        assert(before.items@.contains(x));
                        if !(start.items@.contains(x) && !automatic@.take(t as int).contains(x.id)) {
                            let u = choose|u: int|
                                0 <= u < t && (keys_apart(start) ==> crate::workspace::has_item(start, automatic@[u]))
                                    && crate::grouping::restored_items(
                                    crate::entries::record_of(start, automatic@[u]).members@,
                                ).contains(x);
                        }
                    }
                }
                assert forall|u: int, m: int|
                    0 <= u < t + 1 && crate::workspace::has_item(start, automatic@[u]) && 0 <= m
                        < crate::entries::record_of(start, automatic@[u]).members@.len() && !automatic@.contains(
                        crate::entries::record_of(start, automatic@[u]).members@[m].id,
                    ) implies self.items@.contains(
                    #[trigger] crate::grouping::restored_items(crate::entries::record_of(start, automatic@[u]).members@)[m],
                ) by {
                    let y = crate::grouping::restored_items(crate::entries::record_of(start, automatic@[u]).members@)[m];
                    if u == t {
                        assert(crate::workspace::has_item(mid, group_id));
                        assert(dissolved is Some);
                        assert(restored[m] == y);
                    } else {
                        assert(before.items@.contains(y));
                        assert(y.id == crate::entries::record_of(start, automatic@[u]).members@[m].id);
                        assert(automatic@.contains(group_id));
                        assert(mid.items@.contains(y));
                    }
                }
            }
            proof {
                assert forall|k: int|
                    0 <= k < self.sequence_groups@.len() && (#[trigger] self.sequence_groups@[k]).1.automatic
                        implies automatic@.skip(t + 1).contains(self.sequence_groups@[k].0) by {
                    match crate::workspace::group_position(mid, group_id) {
                        Some(gp) => {
                            let j = if k < gp {
                                k
                            } else {
                                k + 1
                            };
                            assert(self.sequence_groups@[k] == mid.sequence_groups@[j]);
                            assert(automatic@.skip(t as int).contains(mid.sequence_groups@[j].0));
                            let q = choose|q: int|
                                0 <= q < automatic@.skip(t as int).len() && automatic@.skip(t as int)[q]
                                    == mid.sequence_groups@[j].0;
                            assert(group_keys(mid.sequence_groups@)[j] == mid.sequence_groups@[j].0);
                            assert(group_keys(mid.sequence_groups@)[gp] == group_id);
                            assert(mid.sequence_groups@[j].0 != group_id);
                            assert(q != 0);
                            assert(automatic@.skip(t + 1)[q - 1] == mid.sequence_groups@[j].0);
                        },
                        None => {
                            assert(self.sequence_groups@[k] == mid.sequence_groups@[k]);
                            assert(automatic@.skip(t as int).contains(mid.sequence_groups@[k].0));
                            let q = choose|q: int|
                                0 <= q < automatic@.skip(t as int).len() && automatic@.skip(t as int)[q]
                                    == mid.sequence_groups@[k].0;
                            if q == 0 {
                                assert(group_keys(mid.sequence_groups@)[k] == group_id);
                                assert(group_keys(mid.sequence_groups@).contains(group_id));
                            }
                            assert(automatic@.skip(t + 1)[q - 1] == mid.sequence_groups@[k].0);
                        },
                    }
                }
            }
            proof {
                if keys_apart(start) {
                    lemma_dissolve_in_order(start, mid, *self, automatic@, t as int);
                }
            }
            proof {
                if keys_apart(start) {
                    lemma_expanded_step(start, automatic@, t as int, start.selected_id, before.selected_id, self.selected_id);
                    lemma_expanded_step(start, automatic@, t as int, start.hovered_id, before.hovered_id, self.hovered_id);
                    lemma_expanded_step(start, automatic@, t as int, start.diff_image1_id, before.diff_image1_id, self.diff_image1_id);
                    lemma_expanded_step(start, automatic@, t as int, start.diff_image2_id, before.diff_image2_id, self.diff_image2_id);
                }
            }
            t += 1;
        }
        proof {
            assert(automatic@.take(automatic@.len() as int) == automatic@);
            assert(keys_upto(automatic@, automatic@.len() as int) =~= automatic_keys(start)) by {
                assert forall|x: WorkspaceId| keys_upto(automatic@, automatic@.len() as int).contains(x) <==> automatic_keys(start).contains(x) by {
                    if automatic@.contains(x) {
                        let i = choose|i: int| 0 <= i < automatic@.len() && automatic@[i] == x;
                        assert(keys_upto(automatic@, automatic@.len() as int).contains(x));
                    }
                }
            }
            if keys_apart(start) {
                assert forall|k: int|
                    0 <= k < start.sequence_groups@.len() && start.sequence_groups@[k].1.automatic implies #[trigger] recorded(
                    start,
                    start.sequence_groups@[k].0,
                    playback@,
                ) by {
                    assert(automatic_key(start, start.sequence_groups@[k].0));
                    assert(automatic@.contains(start.sequence_groups@[k].0));
                    let u = choose|u: int| 0 <= u < automatic@.len() && automatic@[u] == start.sequence_groups@[k].0;
                    assert(recorded(start, automatic@[u], playback@));
                }
            }
            assert forall|r: Option<WorkspaceId>| #[trigger] expanded_upto(start, automatic@, automatic@.len() as int, r)
                == expanded_ref(start, r) by {
                if let Some(g) = r {
                    if !automatic@.contains(g) {
                        assert(!automatic_key(start, g));
                    }
                }
            }
            assert(expanded_upto(start, automatic@, automatic@.len() as int, start.selected_id) == expanded_ref(start, start.selected_id));
            assert(expanded_upto(start, automatic@, automatic@.len() as int, start.hovered_id) == expanded_ref(start, start.hovered_id));
            assert(expanded_upto(start, automatic@, automatic@.len() as int, start.diff_image1_id) == expanded_ref(start, start.diff_image1_id));
            assert(expanded_upto(start, automatic@, automatic@.len() as int, start.diff_image2_id) == expanded_ref(start, start.diff_image2_id));
        }
        proof {
            assert forall|g: int, m: int|
                0 <= g < old(self).sequence_groups@.len() && old(self).sequence_groups@[g].1.automatic
                    && crate::workspace::has_item(*old(self), old(self).sequence_groups@[g].0) && 0 <= m
                    < old(self).sequence_groups@[g].1.members@.len() && !automatic_key(
                    *old(self),
                    (#[trigger] old(self).sequence_groups@[g].1.members@[m]).id,
                ) implies crate::workspace::has_item(*self, old(self).sequence_groups@[g].1.members@[m].id) by {
                let key = start.sequence_groups@[g].0;
                assert(automatic_key(start, key));
                assert(automatic@.contains(key));
                let u = choose|u: int| 0 <= u < automatic@.len() && automatic@[u] == key;
                assert(start.sequence_groups@.contains(start.sequence_groups@[g]));
                crate::entries::lemma_record_found(start, start.sequence_groups@[g]);
                assert(crate::entries::record_of(start, automatic@[u]) == start.sequence_groups@[g].1);
                let rec = crate::entries::record_of(start, automatic@[u]);
                assert(rec.members@[m] == start.sequence_groups@[g].1.members@[m]);
                assert(crate::workspace::has_item(start, automatic@[u]));
                assert(!automatic@.contains(rec.members@[m].id));
            }
            assert forall|g: int, m: int|
                0 <= g < old(self).sequence_groups@.len() && old(self).sequence_groups@[g].1.automatic
                    && crate::workspace::has_item(*old(self), old(self).sequence_groups@[g].0) && 0 <= m
                    < old(self).sequence_groups@[g].1.members@.len() && !automatic_key(
                    *old(self),
                    old(self).sequence_groups@[g].1.members@[m].id,
                ) implies self.items@.contains(
                #[trigger] crate::grouping::restored_items(old(self).sequence_groups@[g].1.members@)[m],
            ) by {
                let key = start.sequence_groups@[g].0;
                assert(automatic_key(start, key));
                assert(automatic@.contains(key));
                let u = choose|u: int| 0 <= u < automatic@.len() && automatic@[u] == key;
                assert(start.sequence_groups@.contains(start.sequence_groups@[g]));
                crate::entries::lemma_record_found(start, start.sequence_groups@[g]);
                assert(crate::entries::record_of(start, automatic@[u]) == start.sequence_groups@[g].1);
                let rec = crate::entries::record_of(start, automatic@[u]);
                assert(crate::workspace::has_item(start, automatic@[u]));
                assert(!automatic@.contains(rec.members@[m].id));
                assert(crate::grouping::restored_items(rec.members@)[m] == crate::grouping::restored_items(
                    start.sequence_groups@[g].1.members@,
                )[m]);
            }
        }
        playback
    }
}

/// A reference to `from` moved to `to`.
fn moved(reference: Option<WorkspaceId>, from: WorkspaceId, to: WorkspaceId) -> (r: Option<WorkspaceId>)
    ensures
        r == moved_to(reference, from, to),
{
    if crate::workspace::points_at(reference, from) {
        Some(to)
    } else {
        reference
    }
}

/// A selection target in the group `from` retargeted at its member `to`.
fn retargeted(target: Option<SelectionTarget>, from: WorkspaceId, to: WorkspaceId) -> (r: Option<
    SelectionTarget,
>)
    ensures
        r == match target {
            Some(SelectionTarget::Entry(id)) if id == from => Some(SelectionTarget::Entry(to)),
            Some(SelectionTarget::Frame { collection, .. }) if collection == from => Some(
                SelectionTarget::Entry(to),
            ),
            _ => target,
        },
{
    let hit = match target {
        Some(SelectionTarget::Entry(id)) => id.0 == from.0,
        Some(SelectionTarget::Frame { collection, .. }) => collection.0 == from.0,
        None => false,
    };
    if hit {
        Some(SelectionTarget::Entry(to))
    } else {
        target
    }
}

/// Puts `to` in the place of `from` in a set of ids, when `from` is there.
fn replace_in_set(set: &mut Vec<WorkspaceId>, from: WorkspaceId, to: WorkspaceId)
    requires
        ascending(old(set)@),
    ensures
        ascending(final(set)@),
        final(set)@.to_set() == if old(set)@.to_set().contains(from) {
            old(set)@.to_set().remove(from).insert(to)
        } else {
            old(set)@.to_set()
        },
{
    let ghost before = set@;
    if set_remove(set, from) {
        set_insert(set, to);
    } else {
        assert(!before.to_set().contains(from));
    }
}

/// Remembers how the group with the key was playing, in place of what was
/// remembered for the key before.
fn record_playback(playback: &mut Vec<(SequenceKey, GroupPlayback)>, key: SequenceKey, state: GroupPlayback)
    ensures
        (exists|i: int| 0 <= i < old(playback)@.len() && key_eq(#[trigger] old(playback)@[i].0, key)) ==> exists|i: int|
            0 <= i < old(playback)@.len() && key_eq(#[trigger] old(playback)@[i].0, key) && (forall|j: int|
                0 <= j < i ==> !key_eq(#[trigger] old(playback)@[j].0, key)) && final(playback)@ == old(
                playback,
            )@.update(i, (key, state)),
        !(exists|i: int| 0 <= i < old(playback)@.len() && key_eq(#[trigger] old(playback)@[i].0, key))
            ==> final(playback)@ == old(playback)@.push((key, state)),
{
    let mut i: usize = 0;
    while i < playback.len()
        invariant
            i <= playback@.len(),
            playback@ == old(playback)@,
            forall|j: int| 0 <= j < i ==> !key_eq(#[trigger] playback@[j].0, key),
        decreases playback@.len() - i,
    {
        if same_key(&playback[i].0, &key) {
            playback.set(i, (key, state));
            return;
        }
        i += 1;
    }
    playback.push((key, state));
}


/// The member ids of groups with one more record are those before and the
/// new record's.
proof fn lemma_grouped_push(gs: Seq<(WorkspaceId, crate::workspace::SequenceGroup)>, r: (WorkspaceId, crate::workspace::SequenceGroup))
    ensures
        forall|x: WorkspaceId| #[trigger]
            grouped_ids(gs.push(r)).contains(x) <==> grouped_ids(gs).contains(x)
                || crate::workspace::member_ids(r.1).contains(x),
{
    assert(gs.push(r).drop_last() == gs);
    crate::seq_facts::lemma_concat_no_dup(grouped_ids(gs), crate::workspace::member_ids(r.1));
}


/// The sequence key and frame number of a member's image.
pub open spec fn member_key(m: SequenceMember) -> Option<(SpecSequenceKey, int)> {
    sequence_key_spec(m.image.path@, m.image.width, m.image.height)
}

/// Members that make a run of frames: at least two single-frame images
/// without decoded data or with RGBA or indexed data, all with one sequence
/// key, numbered one after another in member order.
pub open spec fn frame_run(members: Seq<SequenceMember>) -> bool {
    &&& members.len() >= 2
    &&& forall|m: int|
        0 <= m < members.len() ==> {
            let image = (#[trigger] members[m]).image;
            &&& frame_count_of(image.frames) == 1
            &&& (image.midata is None || image.midata == Some(MiDataKind::Rgba) || image.midata == Some(
                MiDataKind::Indexed,
            ))
            &&& member_key(members[m]) is Some
            &&& (member_key(members[m])->0).0 == (member_key(members[0])->0).0
        }
    &&& forall|m: int|
        0 <= m < members.len() - 1 ==> (member_key(#[trigger] members[m + 1])->0).1 == (member_key(members[m])->0).1 + 1
}

/// No id of the list is the id of a group entry.
pub open spec fn none_group_keys(groups: Seq<(WorkspaceId, SequenceGroup)>, ids: Seq<WorkspaceId>) -> bool {
    forall|t: int| 0 <= t < ids.len() ==> !group_keys(groups).contains(#[trigger] ids[t])
}

/// Every id of the list is a member of a group.
pub open spec fn all_grouped(groups: Seq<(WorkspaceId, SequenceGroup)>, ids: Seq<WorkspaceId>) -> bool {
    forall|t: int| 0 <= t < ids.len() ==> grouped_ids(groups).contains(#[trigger] ids[t])
}

/// Whether the family of the key is among the families from the `n`-th on.
pub open spec fn key_done(
    keys: Seq<SequenceKey>,
    seqs: Seq<(usize, Vec<usize>, usize)>,
    n: int,
    key: SpecSequenceKey,
) -> bool {
    exists|m: int| n <= m < seqs.len() && key_view(keys[(#[trigger] seqs[m]).2 as int]) == key
}

/// Whether the member is what one of the single-frame image entries becomes
/// in a group.
pub open spec fn from_entry(items: Seq<WorkspaceItem>, member: SequenceMember) -> bool {
    exists|i: int| 0 <= i < items.len() && single_image(items[i]) && member_of(#[trigger] items[i]) == member
}

/// An id is among the members of the groups exactly when some group has a
/// member with that id.
pub proof fn lemma_grouped_members(gs: Seq<(WorkspaceId, SequenceGroup)>, x: WorkspaceId)
    ensures
        grouped_ids(gs).contains(x) <==> exists|g: int, m: int|
            0 <= g < gs.len() && 0 <= m < gs[g].1.members@.len() && (#[trigger] gs[g].1.members@[m]).id == x,
    decreases gs.len(),
{
    if gs.len() > 0 {
        let rest = gs.drop_last();
        lemma_grouped_members(rest, x);
        let last = crate::workspace::member_ids(gs.last().1);
        assert(grouped_ids(gs) == grouped_ids(rest) + last);
        if grouped_ids(gs).contains(x) {
            let k = choose|k: int| 0 <= k < grouped_ids(gs).len() && grouped_ids(gs)[k] == x;
            if k < grouped_ids(rest).len() {
                assert(grouped_ids(rest)[k] == x);
                let (g, m) = choose|g: int, m: int|
                    0 <= g < rest.len() && 0 <= m < rest[g].1.members@.len() && (#[trigger] rest[g].1.members@[m]).id == x;
                assert(gs[g] == rest[g]);
            } else {
                let m = k - grouped_ids(rest).len();
                assert(last[m] == x);
                assert(gs[gs.len() - 1].1.members@[m].id == x);
            }
        }
        if exists|g: int, m: int|
            0 <= g < gs.len() && 0 <= m < gs[g].1.members@.len() && (#[trigger] gs[g].1.members@[m]).id == x {
            let (g, m) = choose|g: int, m: int|
                0 <= g < gs.len() && 0 <= m < gs[g].1.members@.len() && (#[trigger] gs[g].1.members@[m]).id == x;
            if g < rest.len() {
                assert(rest[g] == gs[g]);
                assert(rest[g].1.members@[m].id == x);
                let k = choose|k: int| 0 <= k < grouped_ids(rest).len() && grouped_ids(rest)[k] == x;
                assert((grouped_ids(rest) + last)[k] == x);
            } else {
                assert(last[m] == x);
                assert((grouped_ids(rest) + last)[grouped_ids(rest).len() + m] == x);
            }
        }
    }
}

/// Grouping keeps every other entry as it was: the entries with ids below
/// `bound` afterwards are entries of `start`, when they were before.
proof fn lemma_entries_kept(
    start: ViewerState,
    before: ViewerState,
    after: ViewerState,
    ids: Seq<WorkspaceId>,
    pos: int,
    bound: int,
)
    requires
        0 <= pos < after.items@.len(),
        after.items@.remove(pos) == pick_items(before.items@, ids, false),
        after.items@[pos].id.0 >= bound,
        forall|i: int|
            0 <= i < before.items@.len() && (#[trigger] before.items@[i]).id.0 < bound ==> start.items@.contains(
                before.items@[i],
            ),
    ensures
        forall|i: int|
            0 <= i < after.items@.len() && (#[trigger] after.items@[i]).id.0 < bound ==> start.items@.contains(
                after.items@[i],
            ),
{
    crate::grouping::lemma_pick_items(before.items@, ids, false);
    let kept = pick_items(before.items@, ids, false);
    assert forall|i: int|
        0 <= i < after.items@.len() && (#[trigger] after.items@[i]).id.0 < bound implies start.items@.contains(
        after.items@[i],
    ) by {
        let j = if i < pos { i } else { i - 1 };
        assert(after.items@[i] == kept[j]);
        assert(before.items@.contains(kept[j]));
        let b = choose|b: int| 0 <= b < before.items@.len() && before.items@[b] == kept[j];
    }
}

/// A new automatic group, made of entries of the sidebar as they were, keeps
/// what grouping promises of the groups it adds, and holds the entries' ids.
proof fn lemma_group_pushed(start: ViewerState, before: ViewerState, after: ViewerState, ids: Seq<WorkspaceId>)
    requires
        start.wf(),
        before.wf(),
        after.sequence_groups@ == before.sequence_groups@.push(after.sequence_groups@.last()),
        after.sequence_groups@.last().0.0 >= start.next_workspace_id,
        after.sequence_groups@.last().1.automatic,
        crate::workspace::member_ids(after.sequence_groups@.last().1) == ids,
        after.sequence_groups@.last().1.members@ == Seq::new(ids.len(), |k: int| member_for(before, ids[k])),
        frame_run(Seq::new(ids.len(), |k: int| member_for(before, ids[k]))),
        all_single_images(before, ids),
        forall|t: int| 0 <= t < ids.len() ==> item_ids(start.items@).contains(#[trigger] ids[t]),
        before.sequence_groups@.len() >= start.sequence_groups@.len(),
        before.sequence_groups@.take(start.sequence_groups@.len() as int) == start.sequence_groups@,
        forall|k: int|
            start.sequence_groups@.len() <= k < before.sequence_groups@.len() ==> (
            #[trigger] before.sequence_groups@[k]).1.automatic && frame_run(before.sequence_groups@[k].1.members@)
                && before.sequence_groups@[k].0.0 >= start.next_workspace_id,
        forall|k: int, m: int|
            start.sequence_groups@.len() <= k < before.sequence_groups@.len() && 0 <= m
                < before.sequence_groups@[k].1.members@.len() ==> from_entry(
                start.items@,
                #[trigger] before.sequence_groups@[k].1.members@[m],
            ),
        forall|i: int|
            0 <= i < before.items@.len() && (#[trigger] before.items@[i]).id.0 < start.next_workspace_id
                ==> start.items@.contains(before.items@[i]),
    ensures
        after.sequence_groups@.len() >= start.sequence_groups@.len(),
        after.sequence_groups@.take(start.sequence_groups@.len() as int) == start.sequence_groups@,
        forall|k: int|
            start.sequence_groups@.len() <= k < after.sequence_groups@.len() ==> (
            #[trigger] after.sequence_groups@[k]).1.automatic && frame_run(after.sequence_groups@[k].1.members@)
                && after.sequence_groups@[k].0.0 >= start.next_workspace_id,
        forall|k: int, m: int|
            start.sequence_groups@.len() <= k < after.sequence_groups@.len() && 0 <= m
                < after.sequence_groups@[k].1.members@.len() ==> from_entry(
                start.items@,
                #[trigger] after.sequence_groups@[k].1.members@[m],
            ),
        forall|x: WorkspaceId| #[trigger]
            grouped_ids(before.sequence_groups@).contains(x) ==> grouped_ids(after.sequence_groups@).contains(x),
        forall|t: int| 0 <= t < ids.len() ==> grouped_ids(after.sequence_groups@).contains(#[trigger] ids[t]),
{
    let r = after.sequence_groups@.last();
    lemma_grouped_push(before.sequence_groups@, r);
    assert(after.sequence_groups@.take(start.sequence_groups@.len() as int)
        =~= before.sequence_groups@.take(start.sequence_groups@.len() as int));
    assert forall|k: int|
        start.sequence_groups@.len() <= k < after.sequence_groups@.len() implies (
        #[trigger] after.sequence_groups@[k]).1.automatic && frame_run(after.sequence_groups@[k].1.members@)
            && after.sequence_groups@[k].0.0 >= start.next_workspace_id by {
        if k < before.sequence_groups@.len() {
            assert(after.sequence_groups@[k] == before.sequence_groups@[k]);
        }
    }
    assert forall|k: int, m: int|
        start.sequence_groups@.len() <= k < after.sequence_groups@.len() && 0 <= m
            < after.sequence_groups@[k].1.members@.len() implies from_entry(
            start.items@,
            #[trigger] after.sequence_groups@[k].1.members@[m],
        ) by {
        if k < before.sequence_groups@.len() {
            assert(after.sequence_groups@[k] == before.sequence_groups@[k]);
        } else {
            let id = ids[m];
            assert(crate::workspace::has_item(before, ids[m]));
            crate::workspace::lemma_position(before, id);
            let p = crate::workspace::position(before, id)->0;
            assert(r.1.members@[m] == member_of(before.items@[p]));
            assert(item_ids(start.items@).contains(id));
            crate::workspace::lemma_ids_unique(start);
            assert(before.items@[p].id.0 < start.next_workspace_id);
            assert(start.items@.contains(before.items@[p]));
            let i = choose|i: int| 0 <= i < start.items@.len() && start.items@[i] == before.items@[p];
            assert(single_image(before.items@[p]));
            assert(member_of(start.items@[i]) == r.1.members@[m]);
        }
    }
    assert forall|t: int| 0 <= t < ids.len() implies grouped_ids(after.sequence_groups@).contains(#[trigger] ids[t]) by {
        assert(crate::workspace::member_ids(r.1)[t] == ids[t]);
    }
}

/// After a group replaces some entries, every entry of the sidebar as it
/// was is still an entry or a member, and every entry is one of the sidebar
/// as it was or new.
proof fn lemma_sidebar_after_group(
    start: ViewerState,
    before: ViewerState,
    after: ViewerState,
    ids: Seq<WorkspaceId>,
    pos: int,
)
    requires
        0 <= pos < after.items@.len(),
        after.items@.remove(pos) == pick_items(before.items@, ids, false),
        after.items@[pos].id.0 >= start.next_workspace_id,
        forall|t: int| 0 <= t < ids.len() ==> grouped_ids(after.sequence_groups@).contains(#[trigger] ids[t]),
        forall|x: WorkspaceId| #[trigger]
            grouped_ids(before.sequence_groups@).contains(x) ==> grouped_ids(after.sequence_groups@).contains(x),
        forall|x: WorkspaceId| #[trigger]
            item_ids(start.items@).contains(x) ==> item_ids(before.items@).contains(x)
                || grouped_ids(before.sequence_groups@).contains(x),
        forall|x: WorkspaceId| #[trigger]
            item_ids(before.items@).contains(x) ==> item_ids(start.items@).contains(x)
                || x.0 >= start.next_workspace_id,
    ensures
        forall|x: WorkspaceId| #[trigger]
            item_ids(start.items@).contains(x) ==> item_ids(after.items@).contains(x)
                || grouped_ids(after.sequence_groups@).contains(x),
        forall|x: WorkspaceId| #[trigger]
            item_ids(after.items@).contains(x) ==> item_ids(start.items@).contains(x)
                || x.0 >= start.next_workspace_id,
{
    crate::grouping::lemma_pick_items(before.items@, ids, false);
    let kept = pick_items(before.items@, ids, false);
    assert(item_ids(after.items@) =~= item_ids(kept).insert(pos, after.items@[pos].id));
    crate::seq_facts::lemma_insert_contains(item_ids(kept), pos, after.items@[pos].id);
    assert forall|x: WorkspaceId| #[trigger] item_ids(start.items@).contains(x) implies item_ids(after.items@).contains(x)
        || grouped_ids(after.sequence_groups@).contains(x) by {
        if item_ids(before.items@).contains(x) && ids.contains(x) {
            let t = choose|t: int| 0 <= t < ids.len() && ids[t] == x;
            assert(grouped_ids(after.sequence_groups@).contains(ids[t]));
        }
    }
}

/// Every entry of `start` whose key has no family from the `n`-th on is
/// still an entry of `s`, unchanged.
#[verifier::opaque]
pub open spec fn untouched(
    start: ViewerState,
    s: ViewerState,
    keys: Seq<SequenceKey>,
    seqs: Seq<(usize, Vec<usize>, usize)>,
    n: int,
) -> bool {
    forall|q: int|
        0 <= q < start.items@.len() && !(candidate(start.items@[q]) is Some && key_done(
            keys,
            seqs,
            n,
            (candidate(start.items@[q])->0).0,
        )) ==> s.items@.contains(#[trigger] start.items@[q])
}

/// Before the `n`-th family is grouped, its entries are still there.
proof fn lemma_family_untouched(
    start: ViewerState,
    s: ViewerState,
    keys: Seq<SequenceKey>,
    frames: Seq<(usize, WorkspaceId, u32)>,
    seqs: Seq<(usize, Vec<usize>, usize)>,
    n: int,
)
    requires
        0 <= n < seqs.len(),
        candidates_of(start.items@, keys, frames),
        families_of(keys, frames, seqs),
        untouched(start, s, keys, seqs, n + 1),
    ensures
        forall|t: int|
            0 <= t < seqs[n].1@.len() ==> s.items@.contains(
                start.items@[frames[#[trigger] seqs[n].1@[t] as int].0 as int],
            ),
{
    reveal(untouched);
    let idxs = seqs[n].1@;
    let c = seqs[n].2 as int;
    let key = key_view(keys[c]);
    assert(family_ok(keys, frames, c, idxs));
    assert forall|t: int| 0 <= t < idxs.len() implies s.items@.contains(
        start.items@[frames[#[trigger] idxs[t] as int].0 as int],
    ) by {
        let q = frames[idxs[t] as int].0 as int;
        assert(idxs[t] < frames.len());
        assert(candidate(start.items@[q]) == Some((key_view(keys[idxs[t] as int]), frames[idxs[t] as int].2 as int)));
        if key_done(keys, seqs, n + 1, key) {
            let m = choose|m: int| n + 1 <= m < seqs.len() && key_view(keys[(#[trigger] seqs[m]).2 as int]) == key;
            assert(key_view(keys[(seqs[m]).2 as int]) != key_view(keys[(seqs[n]).2 as int]));
        }
    }
}

/// Leaving the sidebar as it is keeps what was untouched.
proof fn lemma_untouched_step(
    start: ViewerState,
    s: ViewerState,
    keys: Seq<SequenceKey>,
    seqs: Seq<(usize, Vec<usize>, usize)>,
    n: int,
)
    requires
        0 <= n,
        untouched(start, s, keys, seqs, n + 1),
    ensures
        untouched(start, s, keys, seqs, n),
{
    reveal(untouched);
    assert forall|q: int|
        0 <= q < start.items@.len() && !(candidate(start.items@[q]) is Some && key_done(
            keys,
            seqs,
            n,
            (candidate(start.items@[q])->0).0,
        )) implies s.items@.contains(#[trigger] start.items@[q]) by {
        let item = start.items@[q];
        if candidate(item) is Some && key_done(keys, seqs, n + 1, (candidate(item)->0).0) {
            let m = choose|m: int|
                n + 1 <= m < seqs.len() && key_view(keys[(#[trigger] seqs[m]).2 as int]) == (candidate(item)->0).0;
            assert(n <= m < seqs.len());
        }
    }
}

/// Grouping the `n`-th family keeps every other entry that was untouched.
proof fn lemma_untouched_after_group(
    start: ViewerState,
    before: ViewerState,
    after: ViewerState,
    keys: Seq<SequenceKey>,
    frames: Seq<(usize, WorkspaceId, u32)>,
    seqs: Seq<(usize, Vec<usize>, usize)>,
    n: int,
    ids: Seq<WorkspaceId>,
    pos: int,
)
    requires
        0 <= n < seqs.len(),
        start.wf(),
        candidates_of(start.items@, keys, frames),
        families_of(keys, frames, seqs),
        untouched(start, before, keys, seqs, n + 1),
        ids == family_ids(frames, seqs[n].1@),
        0 <= pos < after.items@.len(),
        after.items@.remove(pos) == pick_items(before.items@, ids, false),
    ensures
        untouched(start, after, keys, seqs, n),
{
    reveal(untouched);
    crate::workspace::lemma_items_distinct(start);
    let idxs = seqs[n].1@;
    let key = key_view(keys[seqs[n].2 as int]);
    assert(family_ok(keys, frames, seqs[n].2 as int, idxs));
    assert forall|q: int|
        0 <= q < start.items@.len() && !(candidate(start.items@[q]) is Some && key_done(
            keys,
            seqs,
            n,
            (candidate(start.items@[q])->0).0,
        )) implies after.items@.contains(#[trigger] start.items@[q]) by {
        let item = start.items@[q];
        if candidate(item) is Some && key_done(keys, seqs, n + 1, (candidate(item)->0).0) {
            let m = choose|m: int|
                n + 1 <= m < seqs.len() && key_view(keys[(#[trigger] seqs[m]).2 as int]) == (candidate(item)->0).0;
            assert(n <= m < seqs.len());
        }
        assert(before.items@.contains(item));
        if ids.contains(item.id) {
            let t = choose|t: int| 0 <= t < ids.len() && ids[t] == item.id;
            let f = idxs[t] as int;
            assert(idxs[t] < frames.len());
            let q2 = frames[f].0 as int;
            assert(item_ids(start.items@)[q2] == item_ids(start.items@)[q]);
            assert(candidate(item) == Some((key_view(keys[f]), frames[f].2 as int)));
            assert(key_done(keys, seqs, n, key));
        }
        lemma_pick_keeps(before.items@, ids, item);
        let i = choose|i: int| 0 <= i < pick_items(before.items@, ids, false).len()
            && pick_items(before.items@, ids, false)[i] == item;
        if i < pos {
            assert(after.items@[i] == item);
        } else {
            assert(after.items@[i + 1] == item);
        }
    }
}

/// Whether the workspace shows `content` under `id`: as the entry with that
/// id, or, for an image, as the member with that id of a group.
pub open spec fn shows(s: ViewerState, id: WorkspaceId, content: SidebarItem) -> bool {
    ||| exists|i: int| 0 <= i < s.items@.len() && (#[trigger] s.items@[i]).id == id && s.items@[i].content == content
    ||| (content matches SidebarItem::Image(image) && exists|g: int, m: int|
        0 <= g < s.sequence_groups@.len() && 0 <= m < s.sequence_groups@[g].1.members@.len() && (
        #[trigger] s.sequence_groups@[g].1.members@[m]).id == id && s.sequence_groups@[g].1.members@[m].image == image)
}

/// Entries appended at the end under new ids, then grouped automatically,
/// are each shown under their id.
proof fn lemma_new_ids_shown(
    appended: ViewerState,
    s: ViewerState,
    ids: Seq<WorkspaceId>,
    added: Seq<SidebarItem>,
    base: int,
)
    requires
        appended.wf(),
        ids.len() == added.len(),
        0 <= base,
        base + ids.len() == appended.items@.len(),
        forall|k: int|
            0 <= k < ids.len() ==> appended.items@[base + k].id == #[trigger] ids[k] && appended.items@[base
                + k].content == added[k] && ids[k].0 < appended.next_workspace_id,
        forall|k: int|
            0 <= k < ids.len() ==> item_ids(s.items@).contains(#[trigger] ids[k]) || grouped_ids(
                s.sequence_groups@,
            ).contains(ids[k]),
        s.sequence_groups@.len() >= appended.sequence_groups@.len(),
        s.sequence_groups@.take(appended.sequence_groups@.len() as int) == appended.sequence_groups@,
        forall|i: int|
            0 <= i < s.items@.len() && (#[trigger] s.items@[i]).id.0 < appended.next_workspace_id
                ==> appended.items@.contains(s.items@[i]),
        forall|k: int, m: int|
            appended.sequence_groups@.len() <= k < s.sequence_groups@.len() && 0 <= m
                < s.sequence_groups@[k].1.members@.len() ==> from_entry(
                appended.items@,
                #[trigger] s.sequence_groups@[k].1.members@[m],
            ),
    ensures
        forall|k: int| 0 <= k < ids.len() ==> shows(s, #[trigger] ids[k], added[k]),
{
    crate::workspace::lemma_items_distinct(appended);
    assert forall|k: int| 0 <= k < ids.len() implies shows(s, #[trigger] ids[k], added[k]) by {
        let j0 = base + k;
        assert(appended.items@[j0].id == ids[k]);
        if item_ids(s.items@).contains(ids[k]) {
            let i = choose|i: int| 0 <= i < item_ids(s.items@).len() && item_ids(s.items@)[i] == ids[k];
            assert(s.items@[i].id == ids[k]);
            assert(appended.items@.contains(s.items@[i]));
            let j = choose|j: int| 0 <= j < appended.items@.len() && appended.items@[j] == s.items@[i];
            assert(j == j0);
        } else {
            lemma_grouped_members(s.sequence_groups@, ids[k]);
            let (g, m) = choose|g: int, m: int|
                0 <= g < s.sequence_groups@.len() && 0 <= m < s.sequence_groups@[g].1.members@.len() && (
                #[trigger] s.sequence_groups@[g].1.members@[m]).id == ids[k];
            if g < appended.sequence_groups@.len() {
                assert(s.sequence_groups@[g] == s.sequence_groups@.take(appended.sequence_groups@.len() as int)[g]);
                assert(appended.sequence_groups@[g].1.members@[m].id == ids[k]);
                lemma_grouped_members(appended.sequence_groups@, ids[k]);
                assert(item_ids(appended.items@)[j0] == ids[k]);
                assert(item_ids(appended.items@).contains(ids[k]));
                assert(grouped_ids(appended.sequence_groups@).contains(ids[k]));
            } else {
                let member = s.sequence_groups@[g].1.members@[m];
                assert(from_entry(appended.items@, member));
                let i = choose|i: int|
                    0 <= i < appended.items@.len() && single_image(appended.items@[i]) && member_of(
                        #[trigger] appended.items@[i],
                    ) == member;
                assert(appended.items@[i].id == ids[k]);
                assert(i == j0);
            }
        }
    }
}

/// Whether `p` is how a group of these members plays when formed
/// automatically: as the first record of the remembered playback with the
/// key of its first member says, else from its first member, playing,
/// folded.
pub open spec fn continues(
    playback: Seq<(SequenceKey, GroupPlayback)>,
    members: Seq<SequenceMember>,
    p: GroupPlayback,
) -> bool {
    let key = (member_key(members[0])->0).0;
    ||| exists|i: int|
        0 <= i < playback.len() && key_view(#[trigger] playback[i].0) == key && playback[i].1 == p && forall|j: int|
            0 <= j < i ==> key_view(#[trigger] playback[j].0) != key
    ||| (forall|i: int| 0 <= i < playback.len() ==> key_view(#[trigger] playback[i].0) != key) && p == GroupPlayback {
        current_member: Some(members[0].id),
        autoplay: true,
        expanded: false,
    }
}

/// Whether the `k`-th group has its entry, showing its members as it plays
/// when formed automatically.
pub open spec fn group_shown(s: ViewerState, k: int, playback: Seq<(SequenceKey, GroupPlayback)>) -> bool {
    let g = s.sequence_groups@[k].0;
    let group = s.sequence_groups@[k].1;
    &&& crate::workspace::has_item(s, g)
    &&& s.items@[crate::workspace::position(s, g)->0].content matches SidebarItem::Image(image) && exists|
        p: GroupPlayback,
    | continues(playback, group.members@, p) && #[trigger] crate::groups::group_image_spec(
        image,
        group.members@,
        group.label@,
        p,
    )
}

/// Grouping entries with ids below `bound` keeps the entries of the groups
/// added before, whose ids are at least `bound`.
proof fn lemma_groups_shown_step(
    before: ViewerState,
    after: ViewerState,
    ids: Seq<WorkspaceId>,
    pos: int,
    from: int,
    bound: int,
    playback: Seq<(SequenceKey, GroupPlayback)>,
)
    requires
        before.wf(),
        after.wf(),
        0 <= pos < after.items@.len(),
        after.items@.remove(pos) == pick_items(before.items@, ids, false),
        forall|t: int| 0 <= t < ids.len() ==> (#[trigger] ids[t]).0 < bound,
        0 <= from <= before.sequence_groups@.len(),
        after.sequence_groups@.len() == before.sequence_groups@.len() + 1,
        after.sequence_groups@.drop_last() == before.sequence_groups@,
        forall|k: int|
            from <= k < before.sequence_groups@.len() ==> group_shown(before, k, playback) && (
            #[trigger] before.sequence_groups@[k]).0.0 >= bound,
    ensures
        forall|k: int|
            from <= k < before.sequence_groups@.len() ==> #[trigger] group_shown(after, k, playback),
{
    assert forall|k: int| from <= k < before.sequence_groups@.len() implies #[trigger] group_shown(after, k, playback) by {
        assert(before.sequence_groups@[k] == after.sequence_groups@[k]);
        let g = before.sequence_groups@[k].0;
        assert(group_shown(before, k, playback));
        crate::workspace::lemma_position(before, g);
        let item = before.items@[crate::workspace::position(before, g)->0];
        assert(item.id == g);
        if ids.contains(g) {
            let t = choose|t: int| 0 <= t < ids.len() && ids[t] == g;
        }
        assert(before.items@.contains(item));
        lemma_pick_keeps(before.items@, ids, item);
        let i = choose|i: int| 0 <= i < pick_items(before.items@, ids, false).len()
            && pick_items(before.items@, ids, false)[i] == item;
        let j = if i < pos { i } else { i + 1 };
        assert(after.items@[j] == item);
        assert(item_ids(after.items@)[j] == g);
        crate::workspace::lemma_position(after, g);
    }
}

/// The entries with ids below `bound`, in order.
pub open spec fn entries_below(items: Seq<WorkspaceItem>, bound: int) -> Seq<WorkspaceItem>
    decreases items.len(),
{
    if items.len() == 0 {
        Seq::empty()
    } else {
        let rest = entries_below(items.drop_last(), bound);
        if items.last().id.0 < bound {
            rest.push(items.last())
        } else {
            rest
        }
    }
}

/// Entries whose ids are all below the bound are all kept.
proof fn lemma_below_all(items: Seq<WorkspaceItem>, bound: int)
    requires
        forall|i: int| 0 <= i < items.len() ==> (#[trigger] items[i]).id.0 < bound,
    ensures
        entries_below(items, bound) == items,
    decreases items.len(),
{
    if items.len() > 0 {
        lemma_below_all(items.drop_last(), bound);
        assert(items.drop_last().push(items.last()) =~= items);
    }
}

/// Picking by no ids keeps every entry.
proof fn lemma_pick_none(items: Seq<WorkspaceItem>)
    ensures
        pick_items(items, Seq::empty(), false) == items,
    decreases items.len(),
{
    if items.len() > 0 {
        lemma_pick_none(items.drop_last());
        assert(items.drop_last().push(items.last()) =~= items);
    }
}

/// Keeping entries below a bound and leaving out ids can come in either
/// order.
proof fn lemma_below_pick(items: Seq<WorkspaceItem>, ids: Seq<WorkspaceId>, bound: int)
    ensures
        entries_below(pick_items(items, ids, false), bound) == pick_items(entries_below(items, bound), ids, false),
    decreases items.len(),
{
    if items.len() > 0 {
        let init = items.drop_last();
        let last = items.last();
        lemma_below_pick(init, ids, bound);
        let p = pick_items(init, ids, false);
        let b = entries_below(init, bound);
        if !ids.contains(last.id) {
            assert(p.push(last).drop_last() == p);
            assert(p.push(last).last() == last);
        }
        if last.id.0 < bound {
            assert(b.push(last).drop_last() == b);
            assert(b.push(last).last() == last);
        }
    }
}

/// Leaving out the ids of `a`, then those of `b`, leaves out those of both.
proof fn lemma_pick_twice(items: Seq<WorkspaceItem>, a: Seq<WorkspaceId>, b: Seq<WorkspaceId>)
    ensures
        pick_items(pick_items(items, a, false), b, false) == pick_items(items, a + b, false),
    decreases items.len(),
{
    if items.len() > 0 {
        let init = items.drop_last();
        let last = items.last();
        lemma_pick_twice(init, a, b);
        let pa = pick_items(init, a, false);
        assert((a + b).contains(last.id) <==> a.contains(last.id) || b.contains(last.id)) by {
            if (a + b).contains(last.id) {
                let k = choose|k: int| 0 <= k < (a + b).len() && (a + b)[k] == last.id;
                if k >= a.len() {
                    assert(b[k - a.len()] == last.id);
                }
            }
            if a.contains(last.id) {
                let k = choose|k: int| 0 <= k < a.len() && a[k] == last.id;
                assert((a + b)[k] == last.id);
            }
            if b.contains(last.id) {
                let k = choose|k: int| 0 <= k < b.len() && b[k] == last.id;
                assert((a + b)[a.len() + k] == last.id);
            }
        }
        if !a.contains(last.id) {
            assert(pa.push(last).drop_last() == pa);
            assert(pa.push(last).last() == last);
        }
    }
}

/// An entry with an id at or above the bound does not show among those
/// below it.
proof fn lemma_below_insert(items: Seq<WorkspaceItem>, pos: int, e: WorkspaceItem, bound: int)
    requires
        0 <= pos <= items.len(),
        e.id.0 >= bound,
    ensures
        entries_below(items.insert(pos, e), bound) == entries_below(items, bound),
    decreases items.len(),
{
    let t = items.insert(pos, e);
    if pos == items.len() {
        assert(t.drop_last() =~= items);
    } else {
        lemma_below_insert(items.drop_last(), pos, e, bound);
        assert(t.drop_last() =~= items.drop_last().insert(pos, e));
        assert(t.last() == items.last());
    }
}

/// Grouping entries with ids below the bound leaves the other entries below
/// it in their order.
proof fn lemma_order_step(
    start: ViewerState,
    before: ViewerState,
    after: ViewerState,
    ids: Seq<WorkspaceId>,
    pos: int,
)
    requires
        0 <= pos < after.items@.len(),
        after.items@.remove(pos) == pick_items(before.items@, ids, false),
        after.items@[pos].id.0 >= start.next_workspace_id,
        before.sequence_groups@.len() >= start.sequence_groups@.len(),
        after.sequence_groups@ == before.sequence_groups@.push(after.sequence_groups@.last()),
        crate::workspace::member_ids(after.sequence_groups@.last().1) == ids,
        entries_below(before.items@, start.next_workspace_id as int) == pick_items(
            start.items@,
            grouped_ids(before.sequence_groups@.skip(start.sequence_groups@.len() as int)),
            false,
        ),
    ensures
        entries_below(after.items@, start.next_workspace_id as int) == pick_items(
            start.items@,
            grouped_ids(after.sequence_groups@.skip(start.sequence_groups@.len() as int)),
            false,
        ),
{
    let bound = start.next_workspace_id as int;
    let n = start.sequence_groups@.len() as int;
    let kept = pick_items(before.items@, ids, false);
    assert(after.items@ =~= kept.insert(pos, after.items@[pos]));
    lemma_below_insert(kept, pos, after.items@[pos], bound);
    lemma_below_pick(before.items@, ids, bound);
    let g0 = grouped_ids(before.sequence_groups@.skip(n));
    lemma_pick_twice(start.items@, g0, ids);
    let tail = after.sequence_groups@.skip(n);
    assert(tail.drop_last() =~= before.sequence_groups@.skip(n));
    assert(tail.last() == after.sequence_groups@.last());
    assert(grouped_ids(tail) == g0 + ids);
}

/// The place of the entry with the id among the entries.
pub open spec fn place(items: Seq<WorkspaceItem>, id: WorkspaceId) -> int {
    choose|i: int| 0 <= i < items.len() && items[i].id == id
}

/// Among entries with distinct ids, each stands at its own place.
pub proof fn lemma_place(items: Seq<WorkspaceItem>, q: int)
    requires
        item_ids(items).no_duplicates(),
        0 <= q < items.len(),
    ensures
        place(items, items[q].id) == q,
{
    let i = place(items, items[q].id);
    assert(item_ids(items)[i] == items[i].id);
    assert(item_ids(items)[q] == items[q].id);
}

/// Where an entry of `s` stood among `items`: an entry with an id below
/// `bound` at its own place, the entry of a group formed since at the place
/// of its first member.
pub open spec fn anchor(items: Seq<WorkspaceItem>, bound: int, s: ViewerState, x: WorkspaceItem) -> int {
    if x.id.0 < bound {
        place(items, x.id)
    } else {
        place(items, s.sequence_groups@[crate::workspace::group_position(s, x.id)->0].1.members@[0].id)
    }
}

/// Whether the entries of `s` stand in the order of the places among
/// `items` where they stood: each group formed since where its first member
/// stood.
pub open spec fn anchored_order(items: Seq<WorkspaceItem>, bound: int, s: ViewerState) -> bool {
    forall|i: int, j: int|
        0 <= i < j < s.items@.len() ==> anchor(items, bound, s, #[trigger] s.items@[i]) < anchor(
            items,
            bound,
            s,
            #[trigger] s.items@[j],
        )
}

/// Leaving entries out keeps an increasing measure increasing.
proof fn lemma_pick_increasing(items: Seq<WorkspaceItem>, ids: Seq<WorkspaceId>, f: spec_fn(WorkspaceItem) -> int)
    requires
        forall|i: int, j: int| 0 <= i < j < items.len() ==> f(#[trigger] items[i]) < f(#[trigger] items[j]),
    ensures
        forall|i: int, j: int|
            0 <= i < j < pick_items(items, ids, false).len() ==> f(#[trigger] pick_items(items, ids, false)[i]) < f(
                #[trigger] pick_items(items, ids, false)[j],
            ),
    decreases items.len(),
{
    if items.len() > 0 {
        let init = items.drop_last();
        assert forall|i: int, j: int| 0 <= i < j < init.len() implies f(#[trigger] init[i]) < f(#[trigger] init[j]) by {
            assert(init[i] == items[i] && init[j] == items[j]);
        }
        lemma_pick_increasing(init, ids, f);
        crate::grouping::lemma_pick_items(init, ids, false);
        let rest = pick_items(init, ids, false);
        if !ids.contains(items.last().id) {
            let p = rest.push(items.last());
            assert forall|i: int, j: int| 0 <= i < j < p.len() implies f(#[trigger] p[i]) < f(#[trigger] p[j]) by {
                if j == rest.len() {
                    assert(init.contains(rest[i]));
                    let k = choose|k: int| 0 <= k < init.len() && init[k] == rest[i];
                    assert(items[k] == init[k]);
                    assert(items[items.len() - 1] == items.last());
                } else {
                    assert(p[i] == rest[i] && p[j] == rest[j]);
                }
            }
        }
    }
}

/// The entries picked after the place of a left-out entry come from after it.
proof fn lemma_pick_after(items: Seq<WorkspaceItem>, ids: Seq<WorkspaceId>, p0: int)
    requires
        0 <= p0 < items.len(),
        ids.contains(items[p0].id),
    ensures
        forall|a: int|
            pick_items(items.take(p0), ids, false).len() <= a < pick_items(items, ids, false).len() ==> exists|i: int|
                p0 < i < items.len() && #[trigger] pick_items(items, ids, false)[a] == items[i],
    decreases items.len(),
{
    let init = items.drop_last();
    if items.len() == p0 + 1 {
        assert(init == items.take(p0));
    } else {
        assert(init[p0] == items[p0]);
        assert(init.take(p0) == items.take(p0));
        lemma_pick_after(init, ids, p0);
        let rest = pick_items(init, ids, false);
        assert forall|a: int|
            pick_items(items.take(p0), ids, false).len() <= a < pick_items(items, ids, false).len() implies exists|i: int|
            p0 < i < items.len() && #[trigger] pick_items(items, ids, false)[a] == items[i] by {
            if a < rest.len() {
                let i = choose|i: int| p0 < i < init.len() && #[trigger] rest[a] == init[i];
                assert(pick_items(items, ids, false)[a] == rest[a]);
                assert(items[i] == init[i]);
            } else {
                assert(pick_items(items, ids, false)[a] == items[items.len() - 1]);
            }
        }
    }
}

/// Forming a group out of entries, with its entry where its first member
/// stood, keeps the entries in the order of their places in `start`.
proof fn lemma_anchored_step(
    start: ViewerState,
    before: ViewerState,
    after: ViewerState,
    ids: Seq<WorkspaceId>,
    pos: int,
)
    requires
        start.wf(),
        before.wf(),
        after.wf(),
        anchored_order(start.items@, start.next_workspace_id as int, before),
        ids.len() >= 1,
        crate::workspace::has_item(before, ids[0]),
        ids[0].0 < start.next_workspace_id,
        0 <= pos < after.items@.len(),
        after.items@.remove(pos) == pick_items(before.items@, ids, false),
        pos == pick_items(
            before.items@.take(crate::workspace::position(before, ids[0])->0),
            ids,
            false,
        ).len(),
        after.sequence_groups@ == before.sequence_groups@.push(after.sequence_groups@.last()),
        after.items@[pos].id == after.sequence_groups@.last().0,
        after.sequence_groups@.last().0.0 >= start.next_workspace_id,
        after.sequence_groups@.last().1.members@[0].id == ids[0],
        forall|i: int|
            0 <= i < before.items@.len() && (#[trigger] before.items@[i]).id.0 >= start.next_workspace_id
                ==> group_keys(before.sequence_groups@).contains(before.items@[i].id),
    ensures
        anchored_order(start.items@, start.next_workspace_id as int, after),
{
    let kept = pick_items(before.items@, ids, false);
    let e = after.items@[pos];
    let p0 = crate::workspace::position(before, ids[0])->0;
    crate::workspace::lemma_position(before, ids[0]);
    let f = |x: WorkspaceItem| anchor(start.items@, start.next_workspace_id as int, before, x);
    lemma_pick_increasing(before.items@, ids, f);
    lemma_pick_after(before.items@, ids, p0);
    crate::grouping::lemma_pick_prefix(before.items@, ids, false, p0);
    crate::grouping::lemma_pick_items(before.items@.take(p0), ids, false);
    crate::grouping::lemma_pick_items(before.items@, ids, false);
    let last = after.sequence_groups@.len() - 1;
    assert(after.sequence_groups@[last] == after.sequence_groups@.last());
    assert(after.sequence_groups@.contains(after.sequence_groups@[last]));
    crate::entries::lemma_record_found(after, after.sequence_groups@[last]);
    assert(anchor(start.items@, start.next_workspace_id as int, after, e) == anchor(start.items@, start.next_workspace_id as int, before, before.items@[p0]));
    assert forall|x: WorkspaceItem| #[trigger] kept.contains(x) implies anchor(start.items@, start.next_workspace_id as int, after, x) == anchor(start.items@, start.next_workspace_id as int, before, x) by {
        assert(before.items@.contains(x));
        if x.id.0 >= start.next_workspace_id {
            let i = choose|i: int| 0 <= i < before.items@.len() && before.items@[i] == x;
            assert(group_keys(before.sequence_groups@).contains(x.id));
            let k = crate::workspace::group_position(before, x.id)->0;
            assert(before.sequence_groups@[k].0 == x.id);
            assert(after.sequence_groups@[k] == before.sequence_groups@[k]);
            assert(after.sequence_groups@.contains(after.sequence_groups@[k]));
            crate::entries::lemma_record_found(after, after.sequence_groups@[k]);
        }
    }
    assert(after.items@ =~= kept.insert(pos, e));
    assert forall|i: int, j: int| 0 <= i < j < after.items@.len() implies anchor(
        start.items@,
        start.next_workspace_id as int,
        after,
        #[trigger] after.items@[i],
    ) < anchor(start.items@, start.next_workspace_id as int, after, #[trigger] after.items@[j]) by {
        if i == pos {
            assert(after.items@[j] == kept[j - 1]);
            assert(kept.contains(kept[j - 1]));
            let t = choose|t: int| p0 < t < before.items@.len() && kept[j - 1] == before.items@[t];
        } else if j == pos {
            assert(after.items@[i] == kept[i]);
            assert(kept.contains(kept[i]));
            let short = pick_items(before.items@.take(p0), ids, false);
            assert(kept[i] == short[i]);
            assert(before.items@.take(p0).contains(short[i]));
            let t = choose|t: int| 0 <= t < p0 && before.items@.take(p0)[t] == short[i];
            assert(before.items@[t] == short[i]);
        } else {
            let a = if i < pos { i } else { i - 1 };
            let b = if j < pos { j } else { j - 1 };
            assert(after.items@[i] == kept[a]);
            assert(after.items@[j] == kept[b]);
            assert(kept.contains(kept[a]) && kept.contains(kept[b]));
            assert(f(kept[a]) < f(kept[b]));
        }
    }
}

/// Whether the two entries can join an automatic group under one key.
pub open spec fn same_run_key(a: WorkspaceItem, b: WorkspaceItem) -> bool {
    candidate(a) is Some && candidate(b) is Some && (candidate(a)->0).0 == (candidate(b)->0).0
}

/// Whether every candidate entry of `start` whose key is the group's first
/// key is a member of the group.
pub open spec fn holds_family(start: ViewerState, group: SequenceGroup) -> bool {
    forall|q: int|
        0 <= q < start.items@.len() && (#[trigger] candidate(start.items@[q])) is Some && first_key(group) == Some(
            (candidate(start.items@[q])->0).0,
        ) ==> member_ids(group).contains(start.items@[q].id)
}

/// A group of a whole family holds every candidate of its key.
proof fn lemma_family_held(
    start: ViewerState,
    keys: Seq<SequenceKey>,
    frames: Seq<(usize, WorkspaceId, u32)>,
    c: int,
    fam: Seq<usize>,
    group: SequenceGroup,
)
    requires
        frames.len() <= usize::MAX,
        candidates_of(start.items@, keys, frames),
        family_ok(keys, frames, c, fam),
        member_ids(group) == family_ids(frames, fam),
        first_key(group) == Some(key_view(keys[c])),
    ensures
        holds_family(start, group),
{
    assert forall|q: int|
        0 <= q < start.items@.len() && (#[trigger] candidate(start.items@[q])) is Some && first_key(group) == Some(
            (candidate(start.items@[q])->0).0,
        ) implies member_ids(group).contains(start.items@[q].id) by {
        let j = choose|j: int| 0 <= j < frames.len() && (#[trigger] frames[j]).0 == q;
        assert(candidate(start.items@[q]) == Some((key_view(keys[j]), frames[j].2 as int)));
        assert(key_view(keys[j]) == key_view(keys[c]));
        assert(fam.contains(j as usize));
        let t = choose|t: int| 0 <= t < fam.len() && fam[t] == j as usize;
        assert(fam[t] as int == j);
        assert(family_ids(frames, fam)[t] == frames[j].1);
        assert(member_ids(group)[t] == start.items@[q].id);
    }
}

/// Whether grouping took the candidates of a key of `start` whole: when
/// one of them is a member of a group of `s`, all of them are.
#[verifier::opaque]
pub open spec fn whole_runs(start: ViewerState, s: ViewerState) -> bool {
    forall|q: int, r: int|
        0 <= q < start.items@.len() && 0 <= r < start.items@.len() && same_run_key(
            #[trigger] start.items@[q],
            #[trigger] start.items@[r],
        ) && grouped_ids(s.sequence_groups@).contains(start.items@[q].id) ==> grouped_ids(
            s.sequence_groups@,
        ).contains(start.items@[r].id)
}

/// Grouping the `n`-th family, which holds every candidate of its key,
/// takes runs whole.
proof fn lemma_whole_runs_step(
    start: ViewerState,
    before: ViewerState,
    after: ViewerState,
    keys: Seq<SequenceKey>,
    frames: Seq<(usize, WorkspaceId, u32)>,
    seqs: Seq<(usize, Vec<usize>, usize)>,
    n: int,
    ids: Seq<WorkspaceId>,
)
    requires
        0 <= n < seqs.len(),
        start.wf(),
        frames.len() <= usize::MAX,
        candidates_of(start.items@, keys, frames),
        families_of(keys, frames, seqs),
        ids == family_ids(frames, seqs[n].1@),
        whole_runs(start, before),
        forall|x: WorkspaceId| #[trigger]
            grouped_ids(after.sequence_groups@).contains(x) <==> grouped_ids(before.sequence_groups@).contains(x)
                || ids.contains(x),
    ensures
        whole_runs(start, after),
{
    reveal(whole_runs);
    crate::workspace::lemma_items_distinct(start);
    let fam = seqs[n].1@;
    let c = seqs[n].2 as int;
    assert(family_ok(keys, frames, c, fam));
    assert forall|q: int, r: int|
        0 <= q < start.items@.len() && 0 <= r < start.items@.len() && same_run_key(
            #[trigger] start.items@[q],
            #[trigger] start.items@[r],
        ) && grouped_ids(after.sequence_groups@).contains(start.items@[q].id) implies grouped_ids(
        after.sequence_groups@,
    ).contains(start.items@[r].id) by {
        if !grouped_ids(before.sequence_groups@).contains(start.items@[q].id) {
            assert(ids.contains(start.items@[q].id));
            let t = choose|t: int| 0 <= t < ids.len() && ids[t] == start.items@[q].id;
            let f = fam[t] as int;
            assert(fam[t] < frames.len());
            let q2 = frames[f].0 as int;
            assert(item_ids(start.items@)[q2] == item_ids(start.items@)[q]);
            assert(candidate(start.items@[q]) == Some((key_view(keys[f]), frames[f].2 as int)));
            let j = choose|j: int| 0 <= j < frames.len() && (#[trigger] frames[j]).0 == r;
            assert(candidate(start.items@[r]) == Some((key_view(keys[j]), frames[j].2 as int)));
            assert(key_view(keys[j]) == key_view(keys[c]));
            assert(fam.contains(j as usize));
            let u = choose|u: int| 0 <= u < fam.len() && fam[u] == j as usize;
            assert(ids[u] == frames[j].1);
            assert(ids.contains(start.items@[r].id));
        }
    }
}

/// Whether every entry of `s` with an id from `bound` on is the entry of one
/// of the groups from the `from`-th on.
pub open spec fn fresh_are_groups(s: ViewerState, bound: int, from: int) -> bool {
    forall|i: int|
        0 <= i < s.items@.len() && (#[trigger] s.items@[i]).id.0 >= bound ==> exists|k: int|
            from <= k < s.sequence_groups@.len() && s.sequence_groups@[k].0 == s.items@[i].id
}

/// A new group entry, put among entries that were there, keeps every entry
/// with a fresh id the entry of a new group.
proof fn lemma_fresh_groups_step(
    before: ViewerState,
    after: ViewerState,
    ids: Seq<WorkspaceId>,
    pos: int,
    bound: int,
    from: int,
)
    requires
        fresh_are_groups(before, bound, from),
        0 <= from <= before.sequence_groups@.len(),
        0 <= pos < after.items@.len(),
        after.items@.remove(pos) == pick_items(before.items@, ids, false),
        after.sequence_groups@ == before.sequence_groups@.push(after.sequence_groups@.last()),
        after.items@[pos].id == after.sequence_groups@.last().0,
    ensures
        fresh_are_groups(after, bound, from),
{
    crate::grouping::lemma_pick_items(before.items@, ids, false);
    assert forall|i: int|
        0 <= i < after.items@.len() && (#[trigger] after.items@[i]).id.0 >= bound implies exists|k: int|
        from <= k < after.sequence_groups@.len() && after.sequence_groups@[k].0 == after.items@[i].id by {
        if i == pos {
            assert(after.sequence_groups@[after.sequence_groups@.len() - 1].0 == after.items@[i].id);
        } else {
            let j = if i < pos { i } else { i - 1 };
            assert(after.items@[i] == pick_items(before.items@, ids, false)[j]);
            assert(before.items@.contains(after.items@[i]));
            let b = choose|b: int| 0 <= b < before.items@.len() && before.items@[b] == after.items@[i];
            assert(before.items@[b].id.0 >= bound);
            let k = choose|k: int|
                from <= k < before.sequence_groups@.len() && before.sequence_groups@[k].0 == before.items@[b].id;
            assert(after.sequence_groups@[k] == before.sequence_groups@[k]);
        }
    }
}

/// Whether every entry of `s` with an id from `bound` on is no candidate.
#[verifier::opaque]
pub open spec fn fresh_not_candidates(s: ViewerState, bound: int) -> bool {
    forall|i: int| 0 <= i < s.items@.len() && (#[trigger] s.items@[i]).id.0 >= bound ==> candidate(s.items@[i]) is None
}

/// A group entry of several frames, put among entries that were there, is
/// no candidate either.
proof fn lemma_fresh_step(before: ViewerState, after: ViewerState, ids: Seq<WorkspaceId>, pos: int, bound: int)
    requires
        fresh_not_candidates(before, bound),
        0 <= pos < after.items@.len(),
        after.items@.remove(pos) == pick_items(before.items@, ids, false),
        after.items@[pos].content matches SidebarItem::Image(image) && image.frames matches FrameSource::Animated {
            frames,
            ..
        } && frames@.len() >= 2,
    ensures
        fresh_not_candidates(after, bound),
{
    reveal(fresh_not_candidates);
    crate::grouping::lemma_pick_items(before.items@, ids, false);
    assert forall|i: int|
        0 <= i < after.items@.len() && (#[trigger] after.items@[i]).id.0 >= bound implies candidate(
        after.items@[i],
    ) is None by {
        if i != pos {
            let j = if i < pos { i } else { i - 1 };
            assert(after.items@[i] == pick_items(before.items@, ids, false)[j]);
            assert(before.items@.contains(after.items@[i]));
            let b = choose|b: int| 0 <= b < before.items@.len() && before.items@[b] == after.items@[i];
        }
    }
}

/// Where automatic grouping ran to the end, no run of entries under a key,
/// none of them a group entry, is left among the entries.
proof fn lemma_no_run_left(
    start: ViewerState,
    s: ViewerState,
    key: SpecSequenceKey,
    lo: int,
    ids: Seq<WorkspaceId>,
)
    requires
        start.wf(),
        s.wf(),
        s.sequence_groups@.len() >= start.sequence_groups@.len(),
        s.sequence_groups@.take(start.sequence_groups@.len() as int) == start.sequence_groups@,
        whole_runs(start, s),
        fresh_not_candidates(s, start.next_workspace_id as int),
        forall|i: int|
            0 <= i < s.items@.len() && (#[trigger] s.items@[i]).id.0 < start.next_workspace_id ==> start.items@.contains(
                s.items@[i],
            ),
        forall|x: WorkspaceId| #[trigger]
            item_ids(start.items@).contains(x) ==> item_ids(s.items@).contains(x) || grouped_ids(
                s.sequence_groups@,
            ).contains(x),
        forall|k: SpecSequenceKey, lo2: int, ids2: Seq<WorkspaceId>|
            #[trigger] key_run(start.items@, k, lo2, ids2) && none_group_keys(start.sequence_groups@, ids2)
                ==> all_grouped(s.sequence_groups@, ids2),
    ensures
        !(key_run(s.items@, key, lo, ids) && none_group_keys(s.sequence_groups@, ids)),
{
    if key_run(s.items@, key, lo, ids) && none_group_keys(s.sequence_groups@, ids) {
        lemma_run_grouped_contradiction(start, s, key, lo, ids);
    }
}

/// The body of `lemma_no_run_left`: a run left among the entries would have
/// been grouped, so its first entry would be both an entry and a member.
proof fn lemma_run_grouped_contradiction(
    start: ViewerState,
    s: ViewerState,
    key: SpecSequenceKey,
    lo: int,
    ids: Seq<WorkspaceId>,
)
    requires
        start.wf(),
        s.wf(),
        s.sequence_groups@.len() >= start.sequence_groups@.len(),
        s.sequence_groups@.take(start.sequence_groups@.len() as int) == start.sequence_groups@,
        whole_runs(start, s),
        fresh_not_candidates(s, start.next_workspace_id as int),
        forall|i: int|
            0 <= i < s.items@.len() && (#[trigger] s.items@[i]).id.0 < start.next_workspace_id ==> start.items@.contains(
                s.items@[i],
            ),
        forall|x: WorkspaceId| #[trigger]
            item_ids(start.items@).contains(x) ==> item_ids(s.items@).contains(x) || grouped_ids(
                s.sequence_groups@,
            ).contains(x),
        forall|k: SpecSequenceKey, lo2: int, ids2: Seq<WorkspaceId>|
            #[trigger] key_run(start.items@, k, lo2, ids2) && none_group_keys(start.sequence_groups@, ids2)
                ==> all_grouped(s.sequence_groups@, ids2),
        key_run(s.items@, key, lo, ids),
        none_group_keys(s.sequence_groups@, ids),
    ensures
        grouped_ids(s.sequence_groups@).contains(ids[0]) && item_ids(s.items@).contains(ids[0]),
{
    reveal(whole_runs);
    reveal(fresh_not_candidates);
    crate::workspace::lemma_items_distinct(start);
    crate::workspace::lemma_ids_unique(start);
    // The entries of the run are entries of `start`, with the same keys and numbers.
    assert forall|t: int| 0 <= t < ids.len() implies #[trigger] entry_numbered(start.items@, ids[t], key, lo + t) by {
        assert(entry_numbered(s.items@, ids[t], key, lo + t));
        let q = choose|q: int| 0 <= q < s.items@.len() && #[trigger] s.items@[q].id == ids[t] && candidate(s.items@[q])
            == Some((key, lo + t));
        assert(s.items@[q].id.0 < start.next_workspace_id);
        assert(start.items@.contains(s.items@[q]));
        let q0 = choose|q0: int| 0 <= q0 < start.items@.len() && start.items@[q0] == s.items@[q];
        assert(start.items@[q0].id == ids[t]);
    }
    // One entry of the run stands in the sidebar of `start`.
    assert(entry_numbered(start.items@, ids[0], key, lo));
    let q0 = choose|q0: int| 0 <= q0 < start.items@.len() && #[trigger] start.items@[q0].id == ids[0] && candidate(
        start.items@[q0],
    ) == Some((key, lo));
    assert(entry_numbered(s.items@, ids[0], key, lo + 0));
    let p0 = choose|p0: int| 0 <= p0 < s.items@.len() && #[trigger] s.items@[p0].id == ids[0] && candidate(
        s.items@[p0],
    ) == Some((key, lo + 0));
    assert(item_ids(s.items@)[p0] == ids[0]);
    assert(item_ids(s.items@).contains(ids[0]));
    if grouped_ids(s.sequence_groups@).contains(ids[0]) {
        return;
    }
    // Every candidate of the key in `start` is still an entry, so it is in the run.
    assert forall|r: int|
        0 <= r < start.items@.len() && (#[trigger] candidate(start.items@[r])) is Some && (candidate(
            start.items@[r],
        )->0).0 == key implies ids.contains(start.items@[r].id) by {
        let x = start.items@[r];
        assert(same_run_key(start.items@[r], start.items@[q0]));
        assert(item_ids(start.items@)[r] == x.id);
        assert(item_ids(start.items@).contains(x.id));
        if !item_ids(s.items@).contains(x.id) {
            assert(grouped_ids(s.sequence_groups@).contains(start.items@[r].id));
            assert(grouped_ids(s.sequence_groups@).contains(start.items@[q0].id));
        }
        let i = choose|i: int| 0 <= i < item_ids(s.items@).len() && item_ids(s.items@)[i] == x.id;
        assert(s.items@[i].id == x.id);
        assert(x.id.0 < start.next_workspace_id);
        assert(start.items@.contains(s.items@[i]));
        let r2 = choose|r2: int| 0 <= r2 < start.items@.len() && start.items@[r2] == s.items@[i];
        assert(item_ids(start.items@)[r2] == item_ids(start.items@)[r]);
        assert(s.items@[i] == x);
    }
    assert(key_run(start.items@, key, lo, ids));
    assert(none_group_keys(start.sequence_groups@, ids)) by {
        assert forall|t: int| 0 <= t < ids.len() implies !group_keys(start.sequence_groups@).contains(#[trigger] ids[t]) by {
            if group_keys(start.sequence_groups@).contains(ids[t]) {
                let g = choose|g: int| 0 <= g < group_keys(start.sequence_groups@).len() && group_keys(
                    start.sequence_groups@,
                )[g] == ids[t];
                assert(s.sequence_groups@[g] == s.sequence_groups@.take(start.sequence_groups@.len() as int)[g]);
                assert(group_keys(s.sequence_groups@)[g] == ids[t]);
            }
        }
    }
    assert(all_grouped(s.sequence_groups@, ids));
    assert(grouped_ids(s.sequence_groups@).contains(ids[0]));
}

/// Whether the entry is still in the sidebar as it was, or a member of an
/// automatic group from the `from`-th on, as what it becomes in a group.
pub open spec fn kept_or_grouped(s: ViewerState, from: int, x: WorkspaceItem) -> bool {
    ||| s.items@.contains(x)
    ||| exists|g: int, m: int|
        from <= g < s.sequence_groups@.len() && 0 <= m < s.sequence_groups@[g].1.members@.len()
            && s.sequence_groups@[g].1.automatic && #[trigger] s.sequence_groups@[g].1.members@[m] == member_of(x)
}

/// An entry of `start` is kept, or has become a member of a new group.
proof fn lemma_kept_or_grouped(start: ViewerState, s: ViewerState, x: WorkspaceItem)
    requires
        start.wf(),
        s.wf(),
        start.items@.contains(x),
        s.sequence_groups@.len() >= start.sequence_groups@.len(),
        s.sequence_groups@.take(start.sequence_groups@.len() as int) == start.sequence_groups@,
        forall|k: int|
            start.sequence_groups@.len() <= k < s.sequence_groups@.len() ==> (
            #[trigger] s.sequence_groups@[k]).1.automatic,
        forall|i: int|
            0 <= i < s.items@.len() && (#[trigger] s.items@[i]).id.0 < start.next_workspace_id ==> start.items@.contains(
                s.items@[i],
            ),
        forall|k: int, m: int|
            start.sequence_groups@.len() <= k < s.sequence_groups@.len() && 0 <= m
                < s.sequence_groups@[k].1.members@.len() ==> from_entry(
                start.items@,
                #[trigger] s.sequence_groups@[k].1.members@[m],
            ),
        forall|x: WorkspaceId| #[trigger]
            item_ids(start.items@).contains(x) ==> item_ids(s.items@).contains(x) || grouped_ids(
                s.sequence_groups@,
            ).contains(x),
    ensures
        kept_or_grouped(s, start.sequence_groups@.len() as int, x),
{
    crate::workspace::lemma_items_distinct(start);
    crate::workspace::lemma_ids_unique(start);
    let q = choose|q: int| 0 <= q < start.items@.len() && start.items@[q] == x;
    assert(item_ids(start.items@)[q] == x.id);
    assert(item_ids(start.items@).contains(x.id));
    assert(x.id.0 < start.next_workspace_id);
    if item_ids(s.items@).contains(x.id) {
        let i = choose|i: int| 0 <= i < item_ids(s.items@).len() && item_ids(s.items@)[i] == x.id;
        assert(s.items@[i].id == x.id);
        assert(start.items@.contains(s.items@[i]));
        let q2 = choose|q2: int| 0 <= q2 < start.items@.len() && start.items@[q2] == s.items@[i];
        assert(item_ids(start.items@)[q2] == item_ids(start.items@)[q]);
        assert(s.items@[i] == x);
    } else {
        lemma_grouped_members(s.sequence_groups@, x.id);
        let (g, m) = choose|g: int, m: int|
            0 <= g < s.sequence_groups@.len() && 0 <= m < s.sequence_groups@[g].1.members@.len() && (
            #[trigger] s.sequence_groups@[g].1.members@[m]).id == x.id;
        if g < start.sequence_groups@.len() {
            assert(s.sequence_groups@[g] == s.sequence_groups@.take(start.sequence_groups@.len() as int)[g]);
            lemma_grouped_members(start.sequence_groups@, x.id);
            assert(start.sequence_groups@[g].1.members@[m].id == x.id);
            assert(grouped_ids(start.sequence_groups@).contains(x.id));
        } else {
            let member = s.sequence_groups@[g].1.members@[m];
            assert(from_entry(start.items@, member));
            let i = choose|i: int|
                0 <= i < start.items@.len() && single_image(start.items@[i]) && member_of(#[trigger] start.items@[i])
                    == member;
            assert(item_ids(start.items@)[i] == item_ids(start.items@)[q]);
        }
    }
}

/// Ids of entries of the sidebar as it was that are no group entry then are
/// none now either, as long as new groups have fresh ids.
proof fn lemma_fresh_keys(start: ViewerState, s: ViewerState, ids: Seq<WorkspaceId>)
    requires
        start.wf(),
        none_group_keys(start.sequence_groups@, ids),
        forall|t: int| 0 <= t < ids.len() ==> item_ids(start.items@).contains(#[trigger] ids[t]),
        s.sequence_groups@.len() >= start.sequence_groups@.len(),
        s.sequence_groups@.take(start.sequence_groups@.len() as int) == start.sequence_groups@,
        forall|k: int|
            start.sequence_groups@.len() <= k < s.sequence_groups@.len() ==> (
            #[trigger] s.sequence_groups@[k]).0.0 >= start.next_workspace_id,
    ensures
        forall|j: int| 0 <= j < ids.len() ==> !group_keys(s.sequence_groups@).contains(#[trigger] ids[j]),
{
    assert forall|j: int| 0 <= j < ids.len() implies !group_keys(s.sequence_groups@).contains(#[trigger] ids[j]) by {
        if group_keys(s.sequence_groups@).contains(ids[j]) {
            let g = choose|g: int| 0 <= g < s.sequence_groups@.len() && group_keys(s.sequence_groups@)[g] == ids[j];
            assert(group_keys(s.sequence_groups@)[g] == s.sequence_groups@[g].0);
            if g < start.sequence_groups@.len() {
                assert(s.sequence_groups@[g] == s.sequence_groups@.take(start.sequence_groups@.len() as int)[g]);
                assert(group_keys(start.sequence_groups@)[g] == ids[j]);
                assert(group_keys(start.sequence_groups@).contains(ids[j]));
            } else {
                assert(item_ids(start.items@).contains(ids[j]));
            }
        }
    }
}

/// Where automatic grouping ran to the end, every run of entries under a
/// key, none of them a group entry, is grouped.
proof fn lemma_runs_grouped(
    start: ViewerState,
    groups: Seq<(WorkspaceId, SequenceGroup)>,
    keys: Seq<SequenceKey>,
    frames: Seq<(usize, WorkspaceId, u32)>,
    sequences: Seq<(usize, Vec<usize>, usize)>,
)
    requires
        start.wf(),
        frames.len() <= usize::MAX,
        candidates_of(start.items@, keys, frames),
        families_of(keys, frames, sequences),
        forall|m: int|
            0 <= m < sequences.len() && none_group_keys(
                start.sequence_groups@,
                family_ids(frames, (#[trigger] sequences[m]).1@),
            ) ==> all_grouped(groups, family_ids(frames, sequences[m].1@)),
    ensures
        forall|key: SpecSequenceKey, lo: int, ids: Seq<WorkspaceId>|
            #[trigger] key_run(start.items@, key, lo, ids) && none_group_keys(start.sequence_groups@, ids)
                ==> all_grouped(groups, ids),
{
    assert forall|key: SpecSequenceKey, lo: int, ids: Seq<WorkspaceId>|
        #[trigger] key_run(start.items@, key, lo, ids) && none_group_keys(start.sequence_groups@, ids)
            implies all_grouped(groups, ids) by {
        crate::workspace::lemma_items_distinct(start);
        let k = lemma_key_run_numbers(start.items@, keys, frames, key, lo, ids);
        assert(key_numbers(keys, frames, key_view(keys[k]), lo, ids.len() as int));
        let m = choose|m: int|
            0 <= m < sequences.len() && key_view(keys[(#[trigger] sequences[m]).2 as int]) == key_view(keys[k]);
        let fam = sequences[m].1@;
        assert(family_ok(keys, frames, sequences[m].2 as int, fam));
        let fids = family_ids(frames, fam);
        assert forall|t: int| 0 <= t < fids.len() implies ids.contains(#[trigger] fids[t]) by {
            let f = fam[t] as int;
            assert(fam[t] < frames.len());
            let q = frames[f].0 as int;
            assert(candidate(start.items@[q]) == Some((key_view(keys[f]), frames[f].2 as int)));
            assert(fids[t] == frames[f].1);
        }
        assert forall|t: int| 0 <= t < fids.len() implies !group_keys(start.sequence_groups@).contains(
            #[trigger] fids[t],
        ) by {
            assert(ids.contains(fids[t]));
            let u = choose|u: int| 0 <= u < ids.len() && ids[u] == fids[t];
        }
        assert(all_grouped(groups, fids));
        assert forall|t: int| 0 <= t < ids.len() implies grouped_ids(groups).contains(#[trigger] ids[t]) by {
            assert(entry_numbered(start.items@, ids[t], key, lo + t));
            let q = choose|q: int|
                0 <= q < start.items@.len() && #[trigger] start.items@[q].id == ids[t] && candidate(start.items@[q])
                    == Some((key, lo + t));
            let j = choose|j: int| 0 <= j < frames.len() && (#[trigger] frames[j]).0 == q;
            assert(key_view(keys[j]) == key);
            assert(fam.contains(j as usize));
            let u = choose|u: int| 0 <= u < fam.len() && fam[u] == j as usize;
            assert(start.items@[frames[j].0 as int].id == frames[j].1);
            assert(fids[u] == frames[j].1);
        }
    }
}

/// The entries of a family, while they stand unchanged in the sidebar, are
/// single-frame images with distinct ids whose members make a run of frames.
proof fn lemma_family_runs(
    s: ViewerState,
    start: ViewerState,
    keys: Seq<SequenceKey>,
    frames: Seq<(usize, WorkspaceId, u32)>,
    c: int,
    fam: Seq<usize>,
)
    requires
        s.wf(),
        start.wf(),
        candidates_of(start.items@, keys, frames),
        family_ok(keys, frames, c, fam),
        forall|t: int|
            0 <= t < fam.len() ==> s.items@.contains(start.items@[frames[#[trigger] fam[t] as int].0 as int]),
    ensures
        family_ids(frames, fam).no_duplicates(),
        all_single_images(s, family_ids(frames, fam)),
        frame_run(Seq::new(fam.len(), |k: int| member_for(s, family_ids(frames, fam)[k]))),
        member_key(member_for(s, family_ids(frames, fam)[0])) is Some,
        (member_key(member_for(s, family_ids(frames, fam)[0]))->0).0 == key_view(keys[c]),
        member_for(s, family_ids(frames, fam)[0]).id == family_ids(frames, fam)[0],
{
    let ids = family_ids(frames, fam);
    crate::workspace::lemma_items_distinct(start);
    assert forall|t: int| 0 <= t < fam.len() implies crate::workspace::has_item(s, #[trigger] ids[t])
        && s.items@[crate::workspace::position(s, ids[t])->0] == start.items@[frames[fam[t] as int].0 as int] by {
        let q = frames[fam[t] as int].0 as int;
        let item = start.items@[q];
        assert(fam[t] < frames.len());
        assert(item.id == ids[t]);
        let p = choose|p: int| 0 <= p < s.items@.len() && s.items@[p] == item;
        assert(item_ids(s.items@)[p] == ids[t]);
        crate::workspace::lemma_position(s, ids[t]);
    }
    assert forall|a: int, b: int| 0 <= a < ids.len() && 0 <= b < ids.len() && a != b implies ids[a] != ids[b] by {
        let fa = fam[a] as int;
        let fb = fam[b] as int;
        assert(fam[a] < frames.len() && fam[b] < frames.len());
        assert(fa != fb);
        if fa < fb {
            assert(frames[fa].0 < frames[fb].0);
        } else {
            assert(frames[fb].0 < frames[fa].0);
        }
    }
    let members = Seq::new(fam.len(), |k: int| member_for(s, ids[k]));
    assert forall|m: int| 0 <= m < members.len() implies {
        let item = start.items@[frames[fam[m] as int].0 as int];
        &&& #[trigger] members[m] == member_of(item)
        &&& candidate(item) == Some((key_view(keys[c]), frames[fam[m] as int].2 as int))
        &&& single_image(item)
    } by {
        assert(crate::workspace::has_item(s, ids[m]));
        assert(fam[m] < frames.len());
    }
    assert forall|m: int| 0 <= m < members.len() implies member_key(#[trigger] members[m]) == Some(
        (key_view(keys[c]), frames[fam[m] as int].2 as int),
    ) by {
        let item = start.items@[frames[fam[m] as int].0 as int];
        assert(members[m] == member_of(item));
        assert(candidate(item) == Some((key_view(keys[c]), frames[fam[m] as int].2 as int)));
    }
    assert forall|m: int| 0 <= m < members.len() - 1 implies (member_key(#[trigger] members[m + 1])->0).1 == (
    member_key(members[m])->0).1 + 1 by {
        assert(frames[fam[m + 1] as int].2 == frames[fam[m] as int].2 + 1);
    }
    assert forall|k: int| 0 <= k < ids.len() implies crate::workspace::has_item(s, #[trigger] ids[k]) && single_image(
        s.items@[crate::workspace::position(s, ids[k])->0],
    ) by {
        assert(members[k] == member_for(s, ids[k]));
    }
}

/// Whether two sequence keys are equal, as values.
pub open spec fn key_eq(a: SequenceKey, b: SequenceKey) -> bool {
    a.0@ == b.0@ && a.1@ == b.1@ && a.2@ == b.2@ && a.3@ == b.3@ && a.4 == b.4 && a.5 == b.5
}

/// How the sequence with the key was playing before, if it was: what the
/// first record of the key says.
fn playback_for(playback: &[(SequenceKey, GroupPlayback)], key: &SequenceKey) -> (r: Option<GroupPlayback>)
    ensures
        r matches Some(p) ==> exists|i: int|
            0 <= i < playback@.len() && key_eq(#[trigger] playback@[i].0, *key) && playback@[i].1 == p && forall|j: int|
                0 <= j < i ==> !key_eq(#[trigger] playback@[j].0, *key),
        r is None ==> forall|i: int| 0 <= i < playback@.len() ==> !key_eq(#[trigger] playback@[i].0, *key),
{
    let mut i: usize = 0;
    while i < playback.len()
        invariant
            i <= playback@.len(),
            forall|j: int| 0 <= j < i ==> !key_eq(#[trigger] playback@[j].0, *key),
        decreases playback@.len() - i,
    {
        if same_key(&playback[i].0, key) {
            return Some(playback[i].1);
        }
        i += 1;
    }
    None
}

impl ViewerState {
    /// Whether the entries with the ids make a run of frames, as their
    /// members would.
    fn is_frame_run(&self, ids: &[WorkspaceId]) -> (b: bool)
        requires
            self.wf(),
        ensures
            b == (all_single_images(*self, ids@) && frame_run(
                Seq::new(ids@.len(), |k: int| member_for(*self, ids@[k])),
            )),
    {
        let ghost members = Seq::new(ids@.len(), |k: int| member_for(*self, ids@[k]));
        if ids.len() < 2 {
            return false;
        }
        let mut first: Option<SequenceKey> = None;
        let mut previous: u64 = 0;
        let mut k: usize = 0;
        while k < ids.len()
            invariant
                self.wf(),
                k <= ids@.len(),
                members == Seq::new(ids@.len(), |k: int| member_for(*self, ids@[k])),
                k > 0 ==> (first matches Some(f) && member_key(members[0]) matches Some((key, n)) && f.0@ == key.0
                    && f.1@ == key.1 && f.2@ == key.2 && f.3@ == key.3 && f.4 == key.4 && f.5 == key.5),
                k > 0 ==> (member_key(members[k - 1]) matches Some((_, n)) && n == previous),
                k == 0 ==> first is None,
                previous <= 0xffff_ffff,
                forall|j: int| 0 <= j < k ==> crate::workspace::has_item(*self, #[trigger] ids@[j]) && single_image(
                    self.items@[crate::workspace::position(*self, ids@[j])->0],
                ),
                forall|j: int|
                    0 <= j < k ==> {
                        let image = (#[trigger] members[j]).image;
                        &&& frame_count_of(image.frames) == 1
                        &&& (image.midata is None || image.midata == Some(MiDataKind::Rgba) || image.midata
                            == Some(MiDataKind::Indexed))
                        &&& member_key(members[j]) is Some
                        &&& (member_key(members[j])->0).0 == (member_key(members[0])->0).0
                    },
                forall|j: int| 0 <= j < k - 1 ==> (member_key(#[trigger] members[j + 1])->0).1 == (member_key(members[j])->0).1 + 1,
            decreases ids@.len() - k,
        {
            let id = ids[k];
            let image = match self.item(id) {
                Some(SidebarItem::Image(image)) => image,
                _ => {
                    proof {
                        if crate::workspace::has_item(*self, ids@[k as int]) {
                            crate::workspace::lemma_position(*self, id);
                        }
                        assert(!(crate::workspace::has_item(*self, ids@[k as int]) && single_image(
                            self.items@[crate::workspace::position(*self, ids@[k as int])->0],
                        )));
                    }
                    return false;
                },
            };
            proof {
                crate::workspace::lemma_position(*self, id);
                assert(members[k as int] == member_for(*self, id));
                assert(members[k as int].image == *image);
                assert(content_ok(self.items@[crate::workspace::position(*self, id)->0].content));
            }
            if image.frame_count() != 1 || !groupable_data(image.midata) {
                proof {
                    assert(!single_image(self.items@[crate::workspace::position(*self, ids@[k as int])->0])
                        || !(members[k as int].image.midata is None || members[k as int].image.midata == Some(
                        MiDataKind::Rgba) || members[k as int].image.midata == Some(MiDataKind::Indexed)));
                }
                return false;
            }
            let (key, number) = match sequence_key(image.path.as_str(), image.width, image.height) {
                Some(found) => found,
                None => {
                    proof {
                        assert(member_key(members[k as int]) is None);
                    }
                    return false;
                },
            };
            match &first {
                Some(f) => {
                    let same = same_key(f, &key);
                    if !same || number as u64 != previous + 1 {
                        proof {
                            assert(member_key(members[k as int]) == Some(((key.0@, key.1@, key.2@, key.3@, key.4, key.5), number as int)));
                            if !same {
                                assert((member_key(members[k as int])->0).0 != (member_key(members[0])->0).0);
                            } else {
                                assert((member_key(members[(k - 1) + 1])->0).1 != (member_key(members[k - 1])->0).1 + 1);
                            }
                        }
                        return false;
                    }
                },
                None => {},
            }
            if k == 0 {
                first = Some(key);
            }
            previous = number as u64;
            k += 1;
        }
        true
    }

    /// Groups, for each sequence key, the single-frame images (without
    /// decoded data, or with RGBA or indexed data) with that key into an
    /// automatic group ordered by frame number, where there are at least two
    /// and their numbers ascend by one (a key whose images leave a gap or
    /// repeat a number is left alone). Runs are grouped from the last in the
    /// sidebar to the first; a run with a member that is a group entry is
    /// skipped. A group holds every candidate of its key, and its entry
    /// stands where its first member stood; the other entries keep their
    /// order. A group continues the playback remembered for its key, and
    /// references to its members point at the group. Each
    /// run is checked against the entries once more as it is grouped.
    /// Grouping stops if ids run out.
    #[verifier::spinoff_prover]
    #[verifier::rlimit(85)]
    pub fn auto_group_sequences(&mut self, playback: &[(SequenceKey, GroupPlayback)])
        requires
            old(self).wf(),
        ensures
            final(self).wf(),
            final(self).next_workspace_id >= old(self).next_workspace_id,
            final(self).sequence_groups@.len() >= old(self).sequence_groups@.len(),
            final(self).sequence_groups@.take(old(self).sequence_groups@.len() as int) == old(self).sequence_groups@,
            forall|k: int|
                old(self).sequence_groups@.len() <= k < final(self).sequence_groups@.len() ==> (
                #[trigger] final(self).sequence_groups@[k]).1.automatic,
            forall|k: int|
                old(self).sequence_groups@.len() <= k < final(self).sequence_groups@.len() ==> frame_run(
                    (#[trigger] final(self).sequence_groups@[k]).1.members@,
                ),
            forall|x: WorkspaceId| #[trigger]
                item_ids(old(self).items@).contains(x) ==> item_ids(final(self).items@).contains(x)
                    || grouped_ids(final(self).sequence_groups@).contains(x),
            forall|x: WorkspaceId| #[trigger]
                item_ids(final(self).items@).contains(x) ==> item_ids(old(self).items@).contains(x)
                    || x.0 >= old(self).next_workspace_id,
            final(self).primary_target == old(self).primary_target,
            final(self).list_focus == old(self).list_focus,
            anchored_order(old(self).items@, old(self).next_workspace_id as int, *final(self)),
            forall|k: int|
                old(self).sequence_groups@.len() <= k < final(self).sequence_groups@.len() ==> holds_family(
                    *old(self),
                    (#[trigger] final(self).sequence_groups@[k]).1,
                ),
            forall|a: int, b: int|
                old(self).sequence_groups@.len() <= a < final(self).sequence_groups@.len() && old(self).sequence_groups@.len()
                    <= b < final(self).sequence_groups@.len() && a != b ==> first_key(
                    (#[trigger] final(self).sequence_groups@[a]).1,
                ) != first_key((#[trigger] final(self).sequence_groups@[b]).1),
            forall|i: int, k: int|
                0 <= i < final(self).items@.len() && old(self).sequence_groups@.len() <= k
                    < final(self).sequence_groups@.len() && (#[trigger] candidate(final(self).items@[i])) is Some
                    ==> first_key((#[trigger] final(self).sequence_groups@[k]).1) != Some(
                    (candidate(final(self).items@[i])->0).0,
                ),
            carried(old(self).selected_id, final(self).selected_id, final(self).sequence_groups@, old(self).sequence_groups@.len() as int),
            carried(old(self).hovered_id, final(self).hovered_id, final(self).sequence_groups@, old(self).sequence_groups@.len() as int),
            carried(old(self).diff_image1_id, final(self).diff_image1_id, final(self).sequence_groups@, old(self).sequence_groups@.len() as int),
            carried(old(self).diff_image2_id, final(self).diff_image2_id, final(self).sequence_groups@, old(self).sequence_groups@.len() as int),
            same_settings(*final(self), *old(self)),
            same_selection_cache(*final(self), *old(self)),
            same_diff_cache(*final(self), *old(self)),
            forall|i: int|
                0 <= i < final(self).items@.len() && (#[trigger] final(self).items@[i]).id.0 < old(self).next_workspace_id
                    ==> old(self).items@.contains(final(self).items@[i]),
            forall|k: int, m: int|
                old(self).sequence_groups@.len() <= k < final(self).sequence_groups@.len() && 0 <= m
                    < final(self).sequence_groups@[k].1.members@.len() ==> from_entry(
                    old(self).items@,
                    #[trigger] final(self).sequence_groups@[k].1.members@[m],
                ),
            forall|k: int|
                old(self).sequence_groups@.len() <= k < final(self).sequence_groups@.len() ==> #[trigger] group_shown(
                    *final(self),
                    k,
                    playback@,
                ),
            final(self).next_workspace_id < u64::MAX ==> forall|key: SpecSequenceKey, lo: int, ids: Seq<WorkspaceId>|
                !(#[trigger] key_run(final(self).items@, key, lo, ids) && none_group_keys(
                    final(self).sequence_groups@,
                    ids,
                )),
            forall|i: int|
                0 <= i < old(self).items@.len() ==> #[trigger] kept_or_grouped(
                    *final(self),
                    old(self).sequence_groups@.len() as int,
                    old(self).items@[i],
                ),
            fresh_are_groups(*final(self), old(self).next_workspace_id as int, old(self).sequence_groups@.len() as int),
            entries_below(final(self).items@, old(self).next_workspace_id as int) == pick_items(
                old(self).items@,
                grouped_ids(final(self).sequence_groups@.skip(old(self).sequence_groups@.len() as int)),
                false,
            ),
            final(self).next_workspace_id < u64::MAX ==> forall|key: SpecSequenceKey, lo: int, ids: Seq<WorkspaceId>|
                #[trigger] key_run(old(self).items@, key, lo, ids) && none_group_keys(old(self).sequence_groups@, ids)
                    ==> all_grouped(final(self).sequence_groups@, ids),
    {
        proof {
            assert forall|i: int| 0 <= i < self.items@.len() implies content_ok(#[trigger] self.items@[i].content) by {
            }
        }
        let (keys, frames) = frame_candidates(&self.items);
        let sequences = sequence_families(&keys, &frames);
        let count = frames.len();
        let ghost start = *self;
        proof {
            crate::workspace::lemma_items_distinct(start);
        }
        let mut n = sequences.len();
        proof {
            reveal(untouched);
            crate::workspace::lemma_ids_unique(start);
            assert forall|i: int| 0 <= i < start.items@.len() implies (#[trigger] start.items@[i]).id.0
                < start.next_workspace_id by {
                assert(item_ids(start.items@)[i] == start.items@[i].id);
                assert(item_ids(start.items@).contains(start.items@[i].id));
            }
            lemma_below_all(start.items@, start.next_workspace_id as int);
            assert(start.sequence_groups@.skip(start.sequence_groups@.len() as int) =~= Seq::<
                (WorkspaceId, SequenceGroup),
            >::empty());
            assert(grouped_ids(Seq::<(WorkspaceId, SequenceGroup)>::empty()) =~= Seq::<WorkspaceId>::empty());
            lemma_pick_none(start.items@);
            reveal(whole_runs);
            reveal(fresh_not_candidates);
            assert(fresh_are_groups(start, start.next_workspace_id as int, start.sequence_groups@.len() as int));
            assert forall|q: int| 0 <= q < start.items@.len() implies !grouped_ids(start.sequence_groups@).contains(
                #[trigger] start.items@[q].id,
            ) by {
                assert(item_ids(start.items@)[q] == start.items@[q].id);
                assert(item_ids(start.items@).contains(start.items@[q].id));
            }
            assert forall|i: int, j: int| 0 <= i < j < start.items@.len() implies anchor(
                start.items@,
                start.next_workspace_id as int,
                start,
                #[trigger] start.items@[i],
            ) < anchor(start.items@, start.next_workspace_id as int, start, #[trigger] start.items@[j]) by {
                assert(item_ids(start.items@)[i] == start.items@[i].id);
                assert(item_ids(start.items@)[j] == start.items@[j].id);
                lemma_place(start.items@, i);
                lemma_place(start.items@, j);
            }
        }
        while n > 0
            invariant_except_break
                forall|m: int|
                    n <= m < sequences@.len() && none_group_keys(
                        start.sequence_groups@,
                        family_ids(frames@, (#[trigger] sequences@[m]).1@),
                    ) ==> all_grouped(self.sequence_groups@, family_ids(frames@, sequences@[m].1@)),
            invariant
                self.wf(),
                start.wf(),
                start == *old(self),
                n <= sequences@.len(),
                keys@.len() == frames@.len(),
                candidates_of(start.items@, keys@, frames@),
                families_of(keys@, frames@, sequences@),
                self.next_workspace_id >= start.next_workspace_id,
                self.sequence_groups@.len() >= start.sequence_groups@.len(),
                self.sequence_groups@.take(start.sequence_groups@.len() as int) == start.sequence_groups@,
                forall|k: int|
                    start.sequence_groups@.len() <= k < self.sequence_groups@.len() ==> (
                    #[trigger] self.sequence_groups@[k]).1.automatic,
                forall|k: int|
                    start.sequence_groups@.len() <= k < self.sequence_groups@.len() ==> frame_run(
                        (#[trigger] self.sequence_groups@[k]).1.members@,
                    ),
                forall|k: int|
                    start.sequence_groups@.len() <= k < self.sequence_groups@.len() ==> (
                    #[trigger] self.sequence_groups@[k]).0.0 >= start.next_workspace_id,
                forall|i: int|
                    0 <= i < self.items@.len() && (#[trigger] self.items@[i]).id.0 < start.next_workspace_id
                        ==> start.items@.contains(self.items@[i]),
                forall|k: int, m: int|
                    start.sequence_groups@.len() <= k < self.sequence_groups@.len() && 0 <= m
                        < self.sequence_groups@[k].1.members@.len() ==> from_entry(
                        start.items@,
                        #[trigger] self.sequence_groups@[k].1.members@[m],
                    ),
                forall|k: int|
                    start.sequence_groups@.len() <= k < self.sequence_groups@.len() ==> #[trigger] group_shown(
                        *self,
                        k,
                        playback@,
                    ),
                whole_runs(start, *self),
                fresh_not_candidates(*self, start.next_workspace_id as int),
                fresh_are_groups(*self, start.next_workspace_id as int, start.sequence_groups@.len() as int),
                frames@.len() == count,
                entries_below(self.items@, start.next_workspace_id as int) == pick_items(
                    start.items@,
                    grouped_ids(self.sequence_groups@.skip(start.sequence_groups@.len() as int)),
                    false,
                ),
                forall|x: WorkspaceId| #[trigger]
                    item_ids(start.items@).contains(x) ==> item_ids(self.items@).contains(x)
                        || grouped_ids(self.sequence_groups@).contains(x),
                forall|x: WorkspaceId| #[trigger]
                    item_ids(self.items@).contains(x) ==> item_ids(start.items@).contains(x)
                        || x.0 >= start.next_workspace_id,
                untouched(start, *self, keys@, sequences@, n as int),
                self.primary_target == start.primary_target,
                self.list_focus == start.list_focus,
                anchored_order(start.items@, start.next_workspace_id as int, *self),
                forall|k: int|
                    start.sequence_groups@.len() <= k < self.sequence_groups@.len() ==> holds_family(
                        start,
                        (#[trigger] self.sequence_groups@[k]).1,
                    ),
                forall|k: int|
                    start.sequence_groups@.len() <= k < self.sequence_groups@.len() ==> exists|m: int|
                        n <= m < sequences@.len() && first_key((#[trigger] self.sequence_groups@[k]).1) == Some(
                            key_view(keys@[(#[trigger] sequences@[m]).2 as int]),
                        ),
                forall|a: int, b: int|
                    start.sequence_groups@.len() <= a < self.sequence_groups@.len() && start.sequence_groups@.len()
                        <= b < self.sequence_groups@.len() && a != b ==> first_key(
                        (#[trigger] self.sequence_groups@[a]).1,
                    ) != first_key((#[trigger] self.sequence_groups@[b]).1),
                carried(start.selected_id, self.selected_id, self.sequence_groups@, start.sequence_groups@.len() as int),
                carried(start.hovered_id, self.hovered_id, self.sequence_groups@, start.sequence_groups@.len() as int),
                carried(start.diff_image1_id, self.diff_image1_id, self.sequence_groups@, start.sequence_groups@.len() as int),
                carried(start.diff_image2_id, self.diff_image2_id, self.sequence_groups@, start.sequence_groups@.len() as int),
                same_settings(*self, start),
                same_selection_cache(*self, start),
                same_diff_cache(*self, start),
            ensures
                self.next_workspace_id == u64::MAX || forall|m: int|
                    0 <= m < sequences@.len() && none_group_keys(
                        start.sequence_groups@,
                        family_ids(frames@, (#[trigger] sequences@[m]).1@),
                    ) ==> all_grouped(self.sequence_groups@, family_ids(frames@, sequences@[m].1@)),
            decreases n,
        {
            n -= 1;
            if self.next_workspace_id == u64::MAX {
                proof {
                    lemma_untouched_step(start, *self, keys@, sequences@, n as int);
                }
                break;
            }
            let idxs = &sequences[n].1;
            let ghost c = sequences@[n as int].2 as int;
            let ghost key = key_view(keys@[c]);
            proof {
                assert(family_ok(keys@, frames@, c, idxs@));
            }
            let mut ids: Vec<WorkspaceId> = Vec::new();
            let mut t: usize = 0;
            while t < idxs.len()
                invariant
                    t <= idxs@.len(),
                    ids@.len() == t,
                    forall|j: int| 0 <= j < idxs@.len() ==> (#[trigger] idxs@[j]) < frames@.len(),
                    forall|j: int| 0 <= j < t ==> ids@[j] == frames@[#[trigger] idxs@[j] as int].1,
                decreases idxs@.len() - t,
            {
                ids.push(frames[idxs[t]].1);
                t += 1;
            }
            let ghost before = *self;
            proof {
                assert(ids@ =~= family_ids(frames@, idxs@));
                lemma_family_untouched(start, before, keys@, frames@, sequences@, n as int);
                lemma_family_runs(before, start, keys@, frames@, c, idxs@);
            }
            let mut nested = false;
            let mut k: usize = 0;
            while k < ids.len()
                invariant
                    self.wf(),
                    k <= ids@.len(),
                    nested == exists|j: int| 0 <= j < k && #[trigger] group_keys(self.sequence_groups@).contains(ids@[j]),
                decreases ids@.len() - k,
            {
                match self.group_index(ids[k]) {
                    Some(gi) => {
                        nested = true;
                        proof {
                            assert(group_keys(self.sequence_groups@)[gi as int] == ids@[k as int]);
                        }
                    },
                    None => {},
                }
                k += 1;
            }
            let ghost fresh = none_group_keys(start.sequence_groups@, ids@);
            proof {
                if fresh {
                    assert forall|t: int| 0 <= t < ids@.len() implies item_ids(start.items@).contains(#[trigger] ids@[t]) by {
                        assert(idxs@[t] < frames@.len());
                        let q = frames@[idxs@[t] as int].0 as int;
                        assert(item_ids(start.items@)[q] == ids@[t]);
                    }
                    lemma_fresh_keys(start, *self, ids@);
                    assert(!nested);
                }
            }
            let mut grouped = false;
            if !nested && self.is_frame_run(ids.as_slice()) {
                let key_at = sequences[n].2;
                assert(key_at < keys.len());
                let state = if key_at < keys.len() {
                    playback_for(playback, &keys[key_at])
                } else {
                    None
                };
                match self.form_group(ids.as_slice(), state, true) {
                    Some(g) => {
                        grouped = true;
                        proof {
                            let r = self.sequence_groups@.last();
                            assert(self.sequence_groups@ =~= before.sequence_groups@.push(r));
                            assert(r.1.members@ =~= Seq::new(ids@.len(), |k: int| member_for(before, ids@[k])));
                            assert forall|t: int| 0 <= t < ids@.len() implies item_ids(start.items@).contains(#[trigger] ids@[t]) by {
                                assert(idxs@[t] < frames@.len());
                                let q = frames@[idxs@[t] as int].0 as int;
                                assert(item_ids(start.items@)[q] == ids@[t]);
                            }
                            lemma_group_pushed(start, before, *self, ids@);
                            assert forall|y: WorkspaceId| grouped_ids(before.sequence_groups@).contains(y) implies !ids@.contains(y) by {
                                if ids@.contains(y) {
                                    let t = choose|t: int| 0 <= t < ids@.len() && ids@[t] == y;
                                    assert(crate::workspace::has_item(before, ids@[t]));
                                }
                            }
                            assert forall|k: int| start.sequence_groups@.len() <= k < before.sequence_groups@.len() implies !ids@.contains(#[trigger] before.sequence_groups@[k].0) by {
                                if ids@.contains(before.sequence_groups@[k].0) {
                                    let t = choose|t: int| 0 <= t < ids@.len() && ids@[t] == before.sequence_groups@[k].0;
                                    assert(item_ids(start.items@).contains(ids@[t]));
                                }
                            }
                            let from = start.sequence_groups@.len() as int;
                            assert(r.1.members@[0] == member_for(before, ids@[0]));
                            assert(first_key(r.1) == Some(key_view(keys@[c])));
                            lemma_family_held(start, keys@, frames@, c, idxs@, r.1);

                            let last = self.sequence_groups@.len() - 1;
                            assert forall|k: int|
                                from <= k < self.sequence_groups@.len() implies holds_family(
                                start,
                                (#[trigger] self.sequence_groups@[k]).1,
                            ) by {
                                if k < last {
                                    assert(self.sequence_groups@[k] == before.sequence_groups@[k]);
                                }
                            }
                            assert forall|k: int|
                                from <= k < self.sequence_groups@.len() implies exists|m: int|
                                    n <= m < sequences@.len() && first_key((#[trigger] self.sequence_groups@[k]).1) == Some(
                                        key_view(keys@[(#[trigger] sequences@[m]).2 as int]),
                                    ) by {
                                if k < last {
                                    assert(self.sequence_groups@[k] == before.sequence_groups@[k]);
                                } else {
                                    assert(sequences@[n as int].2 as int == c);
                                }
                            }
                            assert forall|a: int, b: int|
                                from <= a < self.sequence_groups@.len() && from <= b < self.sequence_groups@.len() && a != b
                                    implies first_key((#[trigger] self.sequence_groups@[a]).1) != first_key(
                                    (#[trigger] self.sequence_groups@[b]).1,
                                ) by {
                                if a < last && b < last {
                                    assert(self.sequence_groups@[a] == before.sequence_groups@[a]);
                                    assert(self.sequence_groups@[b] == before.sequence_groups@[b]);
                                } else {
                                    let o = if a < last { a } else { b };
                                    assert(self.sequence_groups@[o] == before.sequence_groups@[o]);
                                    let m = choose|m: int|
                                        n + 1 <= m < sequences@.len() && first_key(before.sequence_groups@[o].1) == Some(
                                            key_view(keys@[sequences@[m].2 as int]),
                                        );
                                    assert(key_view(keys@[sequences@[m].2 as int]) != key_view(keys@[sequences@[n as int].2 as int]));
                                }
                            }
                            lemma_carried_step(start.selected_id, before.selected_id, before.sequence_groups@, from, ids@, g, r.1);
                            lemma_carried_step(start.hovered_id, before.hovered_id, before.sequence_groups@, from, ids@, g, r.1);
                            lemma_carried_step(start.diff_image1_id, before.diff_image1_id, before.sequence_groups@, from, ids@, g, r.1);
                            lemma_carried_step(start.diff_image2_id, before.diff_image2_id, before.sequence_groups@, from, ids@, g, r.1);
                            let pos = crate::workspace::position(*self, g)->0;
                            crate::workspace::lemma_position(*self, g);
                            lemma_entries_kept(start, before, *self, ids@, pos, start.next_workspace_id as int);
                            lemma_sidebar_after_group(start, before, *self, ids@, pos);
                            lemma_order_step(start, before, *self, ids@, pos);
                            assert(anchored_order(start.items@, start.next_workspace_id as int, *self)) by {
                                assert forall|i: int|
                                    0 <= i < before.items@.len() && (#[trigger] before.items@[i]).id.0 >= start.next_workspace_id
                                        implies group_keys(before.sequence_groups@).contains(before.items@[i].id) by {
                                    let k = choose|k: int|
                                        start.sequence_groups@.len() <= k < before.sequence_groups@.len()
                                            && before.sequence_groups@[k].0 == before.items@[i].id;
                                    assert(group_keys(before.sequence_groups@)[k] == before.items@[i].id);
                                }
                                assert(self.items@[pos].id == g);
                                assert(item_ids(start.items@).contains(ids@[0]));
                                lemma_anchored_step(start, before, *self, ids@, pos);
                            }
                            lemma_grouped_push(before.sequence_groups@, r);
                            assert(frames@.len() == count);
                            lemma_whole_runs_step(start, before, *self, keys@, frames@, sequences@, n as int, ids@);
                            assert(r.1.members@.len() == ids@.len());
                            assert(self.items@[pos].content matches SidebarItem::Image(image) && image.frames matches FrameSource::Animated {
                                frames,
                                ..
                            } && frames@.len() >= 2);
                            lemma_fresh_step(before, *self, ids@, pos, start.next_workspace_id as int);
                            lemma_fresh_groups_step(
                                before,
                                *self,
                                ids@,
                                pos,
                                start.next_workspace_id as int,
                                start.sequence_groups@.len() as int,
                            );
                            lemma_groups_shown_step(
                                before,
                                *self,
                                ids@,
                                pos,
                                start.sequence_groups@.len() as int,
                                start.next_workspace_id as int,
                                playback@,
                            );
                            let last = self.sequence_groups@.len() - 1;
                            assert(self.sequence_groups@[last] == r);
                            assert(r.1.members@[0] == member_for(before, ids@[0]));
                            let p = match state {
                                Some(q) => q,
                                None => GroupPlayback { current_member: Some(ids@[0]), autoplay: true, expanded: false },
                            };
                            assert(continues(playback@, r.1.members@, p)) by {
                                match state {
                                    Some(q) => {
                                        let i = choose|i: int|
                                            0 <= i < playback@.len() && key_eq(#[trigger] playback@[i].0, keys@[c])
                                                && playback@[i].1 == q && forall|j: int|
                                                0 <= j < i ==> !key_eq(#[trigger] playback@[j].0, keys@[c]);
                                        assert(key_view(playback@[i].0) == key);
                                        assert forall|j: int| 0 <= j < i implies key_view(#[trigger] playback@[j].0) != key by {
                                            assert(!key_eq(playback@[j].0, keys@[c]));
                                        }
                                    },
                                    None => {
                                        assert forall|i: int| 0 <= i < playback@.len() implies key_view(
                                            #[trigger] playback@[i].0,
                                        ) != key by {
                                            assert(!key_eq(playback@[i].0, keys@[c]));
                                        }
                                    },
                                }
                            }
                            assert(group_shown(*self, last, playback@));
                            lemma_untouched_after_group(start, before, *self, keys@, frames@, sequences@, n as int, ids@, pos);
                        }
                    },
                    None => {
                        proof {
                            assert(false);
                        }
                    },
                }
            }
            proof {
                if !grouped {
                    assert(!fresh);
                    lemma_untouched_step(start, *self, keys@, sequences@, n as int);
                }
                assert forall|m: int|
                    n <= m < sequences@.len() && none_group_keys(
                        start.sequence_groups@,
                        family_ids(frames@, (#[trigger] sequences@[m]).1@),
                    ) implies all_grouped(self.sequence_groups@, family_ids(frames@, sequences@[m].1@)) by {
                    if m > n {
                        assert(all_grouped(before.sequence_groups@, family_ids(frames@, sequences@[m].1@)));
                        if grouped {
                            let r = self.sequence_groups@.last();
                            lemma_grouped_push(before.sequence_groups@, r);
                        }
                    }
                }
            }
        }
        proof {
            if self.next_workspace_id < u64::MAX {
                assert(frames@.len() == count);
                lemma_runs_grouped(start, self.sequence_groups@, keys@, frames@, sequences@);
                assert forall|key: SpecSequenceKey, lo: int, ids: Seq<WorkspaceId>|
                    !(#[trigger] key_run(self.items@, key, lo, ids) && none_group_keys(self.sequence_groups@, ids)) by {
                    if key_run(self.items@, key, lo, ids) && none_group_keys(self.sequence_groups@, ids) {
                        lemma_no_run_left(start, *self, key, lo, ids);
                    }
                }
            }
            assert forall|i: int| 0 <= i < start.items@.len() implies #[trigger] kept_or_grouped(
                *self,
                start.sequence_groups@.len() as int,
                start.items@[i],
            ) by {
                lemma_kept_or_grouped(start, *self, start.items@[i]);
            }
            assert forall|i: int, k: int|
                0 <= i < self.items@.len() && start.sequence_groups@.len() <= k < self.sequence_groups@.len()
                    && (#[trigger] candidate(self.items@[i])) is Some implies first_key(
                (#[trigger] self.sequence_groups@[k]).1,
            ) != Some((candidate(self.items@[i])->0).0) by {
                let x = self.items@[i];
                if first_key(self.sequence_groups@[k].1) == Some((candidate(x)->0).0) {
                    assert(x.id.0 < start.next_workspace_id);
                    assert(start.items@.contains(x));
                    let q = choose|q: int| 0 <= q < start.items@.len() && start.items@[q] == x;
                    assert(holds_family(start, self.sequence_groups@[k].1));
                    assert(member_ids(self.sequence_groups@[k].1).contains(x.id));
                    let m = choose|m: int|
                        0 <= m < member_ids(self.sequence_groups@[k].1).len() && member_ids(self.sequence_groups@[k].1)[m]
                            == x.id;
                    assert(self.sequence_groups@[k].1.members@[m].id == x.id);
                    lemma_grouped_members(self.sequence_groups@, x.id);
                    assert(item_ids(self.items@)[i] == x.id);
                    assert(item_ids(self.items@).contains(x.id));
                }
            }
        }
    }
}


/// Whether no member of an automatic group has the id of an automatic
/// group (as no member is an entry of its own).
pub open spec fn keys_apart(s: ViewerState) -> bool {
    forall|g: int, m: int|
        0 <= g < s.sequence_groups@.len() && s.sequence_groups@[g].1.automatic && 0 <= m
            < s.sequence_groups@[g].1.members@.len() ==> !automatic_key(s, (#[trigger] s.sequence_groups@[g].1.members@[m]).id)
}

/// Whether one of the first `n` group records is automatic and has the key.
pub open spec fn key_among(groups: Seq<(WorkspaceId, SequenceGroup)>, n: int, key: WorkspaceId) -> bool {
    exists|k: int| 0 <= k < n && #[trigger] groups[k].0 == key && groups[k].1.automatic
}

/// Whether the id is the key of an automatic group.
pub open spec fn automatic_key(s: ViewerState, x: WorkspaceId) -> bool {
    exists|k: int| 0 <= k < s.sequence_groups@.len() && #[trigger] s.sequence_groups@[k].0 == x && s.sequence_groups@[k].1.automatic
}

/// Whether a group has a member with one of the ids.
pub open spec fn has_new_member(group: SequenceGroup, ids: Seq<WorkspaceId>) -> bool {
    exists|t: int| 0 <= t < group.members@.len() && ids.contains(#[trigger] group.members@[t].id)
}

/// Whether one of the strings is the path.
pub open spec fn has_path(strings: Seq<String>, p: Seq<char>) -> bool {
    exists|k: int| 0 <= k < strings.len() && #[trigger] strings[k]@ == p
}

/// Whether one of the first `n` entries is an image with the path.
pub open spec fn path_before(items: Seq<WorkspaceItem>, n: int, p: Seq<char>) -> bool {
    exists|j: int| 0 <= j < n && image_path(#[trigger] items[j].content) == Some(p)
}

/// The path of an image content.
pub open spec fn image_path(content: SidebarItem) -> Option<Seq<char>> {
    match content {
        SidebarItem::Image(image) => Some(image.path@),
        SidebarItem::Glyph(_) => None,
    }
}

/// Whether an image among the contents has the path.
pub open spec fn image_path_among(contents: Seq<SidebarItem>, p: Seq<char>) -> bool {
    exists|j: int| 0 <= j < contents.len() && image_path(#[trigger] contents[j]) == Some(p)
}

/// The contents an insertion adds, in order: every glyph, and every image
/// whose path is neither among `shown` nor that of an earlier image of the
/// contents.
pub open spec fn fresh_contents(shown: Set<Seq<char>>, contents: Seq<SidebarItem>) -> Seq<SidebarItem>
    decreases contents.len(),
{
    if contents.len() == 0 {
        Seq::empty()
    } else {
        let rest = fresh_contents(shown, contents.drop_last());
        match image_path(contents.last()) {
            Some(p) => if shown.contains(p) || image_path_among(contents.drop_last(), p) {
                rest
            } else {
                rest.push(contents.last())
            },
            None => rest.push(contents.last()),
        }
    }
}

/// The paths of the images a workspace shows once its automatic groups are
/// dissolved: those of image entries that are not automatic groups, and
/// those of the members of automatic groups that have entries.
pub open spec fn shown_paths(s: ViewerState) -> Set<Seq<char>> {
    Set::new(
        |p: Seq<char>|
            (exists|i: int|
                0 <= i < s.items@.len() && !automatic_key(s, s.items@[i].id) && image_path(
                    #[trigger] s.items@[i].content,
                ) == Some(p)) || (exists|g: int, m: int|
                0 <= g < s.sequence_groups@.len() && s.sequence_groups@[g].1.automatic && crate::workspace::has_item(
                    s,
                    s.sequence_groups@[g].0,
                ) && 0 <= m < s.sequence_groups@[g].1.members@.len() && (#[trigger] s.sequence_groups@[g].1.members@[m]).image.path@
                    == p),
    )
}

/// Whether the path is among the paths.
fn path_seen(seen: &Vec<String>, path: &String) -> (b: bool)
    ensures
        b == exists|k: int| 0 <= k < seen@.len() && seen@[k]@ == path@,
{
    let mut k: usize = 0;
    while k < seen.len()
        invariant
            k <= seen@.len(),
            forall|j: int| 0 <= j < k ==> seen@[j]@ != path@,
        decreases seen@.len() - k,
    {
        if seen[k] == *path {
            return true;
        }
        k += 1;
    }
    false
}

/// Whether an entry left by an insertion is one it may leave: an entry that
/// was there and was no automatic group, a member of a dissolved automatic
/// group restored as an entry, an entry under one of the new ids, or the
/// entry of an automatic group.
pub open spec fn inserted_entry(old: ViewerState, new: ViewerState, ids: Seq<WorkspaceId>, x: WorkspaceItem) -> bool {
    ||| old.items@.contains(x) && !automatic_key(old, x.id)
    ||| exists|g: int|
        0 <= g < old.sequence_groups@.len() && old.sequence_groups@[g].1.automatic
            && crate::grouping::restored_items(old.sequence_groups@[g].1.members@).contains(x)
    ||| ids.contains(x.id)
    ||| exists|k: int| 0 <= k < new.sequence_groups@.len() && new.sequence_groups@[k].0 == x.id
        && new.sequence_groups@[k].1.automatic
}

/// What an insertion leaves among the entries: dissolving automatic groups
/// leaves old entries and restored members, appending adds entries under the
/// new ids, and grouping adds only entries of new automatic groups.
proof fn lemma_inserted_entries(
    old: ViewerState,
    expanded: ViewerState,
    appended: ViewerState,
    s: ViewerState,
    ids: Seq<WorkspaceId>,
    added: Seq<SidebarItem>,
)
    requires
        forall|x: WorkspaceItem| #[trigger]
            expanded.items@.contains(x) ==> (old.items@.contains(x) && !automatic_key(old, x.id)) || exists|g: int|
                0 <= g < old.sequence_groups@.len() && old.sequence_groups@[g].1.automatic && (keys_apart(old)
                    ==> crate::workspace::has_item(old, old.sequence_groups@[g].0))
                    && crate::grouping::restored_items(old.sequence_groups@[g].1.members@).contains(x),
        appended.items@ == expanded.items@ + crate::workspace::fresh_items(added, expanded.next_workspace_id as int),
        ids.len() == added.len(),
        forall|k: int| 0 <= k < ids.len() ==> (#[trigger] ids[k]).0 == expanded.next_workspace_id + k,
        forall|i: int|
            0 <= i < s.items@.len() && (#[trigger] s.items@[i]).id.0 < appended.next_workspace_id
                ==> appended.items@.contains(s.items@[i]),
        fresh_are_groups(s, appended.next_workspace_id as int, appended.sequence_groups@.len() as int),
        forall|k: int|
            appended.sequence_groups@.len() <= k < s.sequence_groups@.len() ==> (
            #[trigger] s.sequence_groups@[k]).1.automatic,
    ensures
        forall|i: int| 0 <= i < s.items@.len() ==> inserted_entry(old, s, ids, #[trigger] s.items@[i]),
{
    assert forall|i: int| 0 <= i < s.items@.len() implies inserted_entry(old, s, ids, #[trigger] s.items@[i]) by {
        let x = s.items@[i];
        if x.id.0 >= appended.next_workspace_id {
            let k = choose|k: int|
                appended.sequence_groups@.len() <= k < s.sequence_groups@.len() && s.sequence_groups@[k].0 == x.id;
            assert(s.sequence_groups@[k].1.automatic);
        } else {
            assert(appended.items@.contains(x));
            let j = choose|j: int| 0 <= j < appended.items@.len() && appended.items@[j] == x;
            if j < expanded.items@.len() {
                assert(expanded.items@[j] == x);
                assert(expanded.items@.contains(x));
            } else {
                let k = j - expanded.items@.len();
                assert(x == crate::workspace::fresh_items(added, expanded.next_workspace_id as int)[k]);
                assert(ids[k].0 == x.id.0);
                assert(ids[k] == x.id);
                assert(ids.contains(x.id));
            }
        }
    }
}

/// Whether the entry is selected alone: it is the selection, the selected,
/// focused and anchor entry, and the selection target.
pub open spec fn alone_selected(s: ViewerState, id: WorkspaceId) -> bool {
    &&& s.selected_id == Some(id)
    &&& s.selected_ids@ == seq![id]
    &&& s.primary_target == Some(SelectionTarget::Entry(id))
    &&& s.focused_id == Some(id)
    &&& s.range_anchor == Some(id)
}

impl ViewerState {
    /// Adds images and glyphs to the end of the workspace and regroups
    /// sequences across all of it: automatic groups are first dissolved
    /// (remembering how they played), images whose path is already in the
    /// workspace (or earlier among the new ones) are left out, the rest are
    /// appended under new ids, and automatic grouping runs again. Each item
    /// added stays in the workspace under its new id, as an entry or, for an
    /// image, as a frame of a group; every earlier entry that was not an
    /// automatic group stays, or becomes a frame of a new automatic group;
    /// manual groups stay; and, unless ids ran out, no run of numbered frames
    /// is left ungrouped among the entries: each automatic group holds every
    /// candidate of its sequence key (no entry with its key is left beside
    /// it, and no two have one key), and the entries stand in the order in
    /// which they stood once the automatic groups were dissolved in place and
    /// the new contents appended, each group where its first member stood.
    /// A reference to a dissolved
    /// automatic group (the hovered entry, a diff side, the selection) moves
    /// to the member its picture showed, and one to a member of a group formed
    /// again moves to that group; each group formed plays on as the dissolved
    /// group with its sequence key did, or from its first member. The first
    /// entry with a new id, else the first group holding one, is selected
    /// alone, and a change of selected entry drops what the panels derived
    /// from the previous one. Returns the new ids.
    #[verifier::spinoff_prover]
    #[verifier::rlimit(90)]
    pub fn insert_and_select_first(&mut self, contents: Vec<SidebarItem>) -> (ids: Vec<WorkspaceId>)
        requires
            old(self).wf(),
            old(self).next_workspace_id + contents@.len() <= u64::MAX,
            forall|k: int| 0 <= k < contents@.len() ==> content_ok(#[trigger] contents@[k]),
        ensures
            final(self).wf(),
            ids@.len() <= contents@.len(),
            keys_apart(*old(self)) ==> ids@.len() == fresh_contents(shown_paths(*old(self)), contents@).len(),
            forall|k: int| 0 <= k < ids@.len() ==> (#[trigger] ids@[k]).0 == old(self).next_workspace_id + k,
            forall|k: int|
                0 <= k < ids@.len() ==> item_ids(final(self).items@).contains(#[trigger] ids@[k])
                    || grouped_ids(final(self).sequence_groups@).contains(ids@[k]),
            final(self).next_workspace_id >= old(self).next_workspace_id + ids@.len(),
            forall|g: int|
                0 <= g < final(self).sequence_groups@.len() && (#[trigger] final(self).sequence_groups@[g]).1.automatic
                    ==> frame_run(final(self).sequence_groups@[g].1.members@),
            forall|j: int|
                0 <= j < final(self).items@.len() && ids@.contains(#[trigger] final(self).items@[j].id) && (forall|i: int|
                    0 <= i < j ==> !ids@.contains(#[trigger] final(self).items@[i].id)) ==> alone_selected(
                    *final(self),
                    final(self).items@[j].id,
                ),
            forall|g: int|
                0 <= g < final(self).sequence_groups@.len() && !(exists|j: int|
                    0 <= j < final(self).items@.len() && ids@.contains(#[trigger] final(self).items@[j].id)) && has_new_member(
                    #[trigger] final(self).sequence_groups@[g].1,
                    ids@,
                ) && (forall|h: int|
                    0 <= h < g ==> !has_new_member(#[trigger] final(self).sequence_groups@[h].1, ids@))
                    && crate::workspace::has_item(*final(self), final(self).sequence_groups@[g].0) ==> alone_selected(
                    *final(self),
                    final(self).sequence_groups@[g].0,
                ),
            final(self).next_workspace_id < u64::MAX ==> forall|key: SpecSequenceKey, lo: int, run: Seq<WorkspaceId>|
                !(#[trigger] key_run(final(self).items@, key, lo, run) && none_group_keys(
                    final(self).sequence_groups@,
                    run,
                )),
            forall|i: int|
                0 <= i < old(self).items@.len() && !automatic_key(*old(self), old(self).items@[i].id)
                    ==> #[trigger] kept_or_grouped(*final(self), 0, old(self).items@[i]),
            forall|g: int, m: int|
                0 <= g < old(self).sequence_groups@.len() && old(self).sequence_groups@[g].1.automatic
                    && crate::workspace::has_item(*old(self), old(self).sequence_groups@[g].0) && 0 <= m
                    < old(self).sequence_groups@[g].1.members@.len() && !automatic_key(
                    *old(self),
                    old(self).sequence_groups@[g].1.members@[m].id,
                ) ==> #[trigger] kept_or_grouped(
                    *final(self),
                    0,
                    crate::grouping::restored_items(old(self).sequence_groups@[g].1.members@)[m],
                ),
            forall|r: (WorkspaceId, SequenceGroup)|
                old(self).sequence_groups@.contains(r) && !r.1.automatic
                    ==> #[trigger] final(self).sequence_groups@.contains(r),
            forall|i: int|
                0 <= i < final(self).items@.len() ==> inserted_entry(
                    *old(self),
                    *final(self),
                    ids@,
                    #[trigger] final(self).items@[i],
                ),
            keys_apart(*old(self)) ==> forall|k: int|
                0 <= k < ids@.len() ==> shows(
                    *final(self),
                    #[trigger] ids@[k],
                    fresh_contents(shown_paths(*old(self)), contents@)[k],
                ),
            forall|a: int, b: int|
                0 <= a < final(self).sequence_groups@.len() && 0 <= b < final(self).sequence_groups@.len() && a != b
                    && (#[trigger] final(self).sequence_groups@[a]).1.automatic
                    && (#[trigger] final(self).sequence_groups@[b]).1.automatic ==> first_key(
                    final(self).sequence_groups@[a].1,
                ) != first_key(final(self).sequence_groups@[b].1),
            forall|i: int, k: int|
                0 <= i < final(self).items@.len() && 0 <= k < final(self).sequence_groups@.len()
                    && (#[trigger] final(self).sequence_groups@[k]).1.automatic && (#[trigger] candidate(
                    final(self).items@[i],
                )) is Some ==> first_key(final(self).sequence_groups@[k].1) != Some(
                    (candidate(final(self).items@[i])->0).0,
                ),
            keys_apart(*old(self)) ==> anchored_order(
                inserted_items(*old(self), contents@),
                old(self).next_workspace_id + ids@.len(),
                *final(self),
            ),
            keys_apart(*old(self)) ==> forall|k: int|
                0 <= k < final(self).sequence_groups@.len() && (#[trigger] final(self).sequence_groups@[k]).1.automatic
                    ==> resumed(*old(self), *final(self), k),
            keys_apart(*old(self)) ==> regrouped(expanded_ref(*old(self), old(self).hovered_id), final(self).hovered_id, *final(self)),
            keys_apart(*old(self)) ==> regrouped(expanded_ref(*old(self), old(self).diff_image1_id), final(self).diff_image1_id, *final(self)),
            keys_apart(*old(self)) ==> regrouped(expanded_ref(*old(self), old(self).diff_image2_id), final(self).diff_image2_id, *final(self)),
            ids@.len() == 0 && keys_apart(*old(self)) ==> regrouped(
                expanded_ref(*old(self), old(self).selected_id),
                final(self).selected_id,
                *final(self),
            ),
            keys_apart(*old(self)) ==> if regrouped(expanded_ref(*old(self), old(self).selected_id), final(self).selected_id, *final(self)) {
                same_selection_cache(*final(self), *old(self))
            } else {
                crate::workspace::selection_cache_cleared(*final(self))
            },
            same_settings(*final(self), *old(self)),
            same_diff_cache(*final(self), *old(self)),
    {
        let playback = self.expand_automatic_sequence_groups();
        let ghost expanded = *self;
        let mut seen: Vec<String> = Vec::new();
        let mut i: usize = 0;
        while i < self.items.len()
            invariant
                i <= self.items@.len(),
                forall|p: Seq<char>| #[trigger] has_path(seen@, p) <==> path_before(self.items@, i as int, p),
            decreases self.items@.len() - i,
        {
            let ghost before = seen@;
            match &self.items[i].content {
                SidebarItem::Image(image) => {
                    seen.push(image.path.clone());
                },
                SidebarItem::Glyph(_) => {},
            }
            proof {
                assert forall|p: Seq<char>| #[trigger] has_path(seen@, p) <==> path_before(self.items@, i + 1, p) by {
                    if has_path(seen@, p) {
                        let k = choose|k: int| 0 <= k < seen@.len() && #[trigger] seen@[k]@ == p;
                        if k < before.len() {
                            assert(before[k]@ == p);
                            assert(has_path(before, p));
                        } else {
                            assert(image_path(self.items@[i as int].content) == Some(p));
                        }
                    }
                    if path_before(self.items@, i + 1, p) {
                        let j = choose|j: int| 0 <= j < i + 1 && image_path(#[trigger] self.items@[j].content) == Some(p);
                        if j < i {
                            assert(path_before(self.items@, i as int, p));
                            assert(has_path(before, p));
                            let k = choose|k: int| 0 <= k < before.len() && #[trigger] before[k]@ == p;
                            assert(seen@[k] == before[k]);
                        } else {
                            assert(seen@[before.len() as int]@ == p);
                        }
                    }
                }
            }
            i += 1;
        }
        let ghost shown = Set::new(|p: Seq<char>| path_before(expanded.items@, expanded.items@.len() as int, p));
        let ghost all = contents@;
        let mut rest = contents;
        let mut fresh: Vec<SidebarItem> = Vec::new();
        let ghost mut done: Seq<SidebarItem> = Seq::empty();
        while rest.len() > 0
            invariant
                fresh@.len() + rest@.len() <= all.len(),
                forall|k: int| 0 <= k < all.len() ==> content_ok(#[trigger] all[k]),
                forall|k: int| 0 <= k < rest@.len() ==> content_ok(#[trigger] rest@[k]),
                forall|k: int| 0 <= k < fresh@.len() ==> content_ok(#[trigger] fresh@[k]),
                all == done + rest@,
                fresh@ == fresh_contents(shown, done),
                fresh@.len() <= done.len(),
                forall|p: Seq<char>| #[trigger] has_path(seen@, p) <==> shown.contains(p) || image_path_among(done, p),
            decreases rest@.len(),
        {
            let ghost before_seen = seen@;
            let ghost before_done = done;
            let item = rest.remove(0);
            assert(content_ok(item)) by {
                assert(content_ok(rest@.insert(0, item)[0]));
            }
            proof {
                done = done.push(item);
                assert(done.drop_last() == before_done);
                assert(done.last() == item);
                assert(all == done + rest@);
            }
            let keep = match &item {
                SidebarItem::Image(image) => {
                    if path_seen(&seen, &image.path) {
                        false
                    } else {
                        seen.push(image.path.clone());
                        true
                    }
                },
                SidebarItem::Glyph(_) => true,
            };
            proof {
                assert forall|p: Seq<char>| #[trigger] has_path(seen@, p) <==> shown.contains(p) || image_path_among(done, p) by {
                    if image_path_among(done, p) {
                        let j = choose|j: int| 0 <= j < done.len() && image_path(#[trigger] done[j]) == Some(p);
                        if j < before_done.len() {
                            assert(before_done[j] == done[j]);
                            assert(image_path_among(before_done, p));
                        }
                    }
                    if image_path_among(before_done, p) {
                        let j = choose|j: int| 0 <= j < before_done.len() && image_path(#[trigger] before_done[j]) == Some(p);
                        assert(done[j] == before_done[j]);
                    }
                    if has_path(seen@, p) {
                        let k = choose|k: int| 0 <= k < seen@.len() && #[trigger] seen@[k]@ == p;
                        if k < before_seen.len() {
                            assert(before_seen[k]@ == p);
                            assert(has_path(before_seen, p));
                        } else {
                            assert(image_path(done[before_done.len() as int]) == Some(p));
                        }
                    }
                    if has_path(before_seen, p) {
                        let k = choose|k: int| 0 <= k < before_seen.len() && #[trigger] before_seen[k]@ == p;
                        assert(seen@[k] == before_seen[k]);
                    }
                    if image_path(item) == Some(p) && keep {
                        assert(seen@[before_seen.len() as int]@ == p);
                    }
                }
            }
            proof {
                match image_path(item) {
                    Some(q) => {
                        assert(has_path(before_seen, q) <==> shown.contains(q) || image_path_among(before_done, q));
                        assert(keep == !(shown.contains(q) || image_path_among(before_done, q)));
                    },
                    None => {
                        assert(keep);
                    },
                }
            }
            if keep {
                fresh.push(item);
            }
        }
        assert(all == done);
        proof {
            if keys_apart(*old(self)) {
                assert(shown =~= shown_paths(*old(self))) by {
                    assert forall|p: Seq<char>| shown.contains(p) implies #[trigger] shown_paths(*old(self)).contains(p) by {
                        assert(path_before(expanded.items@, expanded.items@.len() as int, p));
                        let j = choose|j: int| 0 <= j < expanded.items@.len() && image_path(#[trigger] expanded.items@[j].content) == Some(p);
                        let x = expanded.items@[j];
                        assert(expanded.items@.contains(x));
                        if old(self).items@.contains(x) && !automatic_key(*old(self), x.id) {
                            let i = choose|i: int| 0 <= i < old(self).items@.len() && old(self).items@[i] == x;
                            assert(image_path(old(self).items@[i].content) == Some(p));
                        } else {
                            let g = choose|g: int|
                                0 <= g < old(self).sequence_groups@.len() && old(self).sequence_groups@[g].1.automatic && (
                                keys_apart(*old(self)) ==> crate::workspace::has_item(*old(self), old(self).sequence_groups@[g].0))
                                    && crate::grouping::restored_items(old(self).sequence_groups@[g].1.members@).contains(x);
                            let rs = crate::grouping::restored_items(old(self).sequence_groups@[g].1.members@);
                            let m = choose|m: int| 0 <= m < rs.len() && rs[m] == x;
                            assert(old(self).sequence_groups@[g].1.members@[m].image.path@ == p);
                        }
                    }
                    assert forall|p: Seq<char>| #[trigger] shown_paths(*old(self)).contains(p) implies shown.contains(p) by {
                        if exists|i: int|
                            0 <= i < old(self).items@.len() && !automatic_key(*old(self), old(self).items@[i].id) && image_path(
                                #[trigger] old(self).items@[i].content,
                            ) == Some(p) {
                            let i = choose|i: int|
                                0 <= i < old(self).items@.len() && !automatic_key(*old(self), old(self).items@[i].id) && image_path(
                                    #[trigger] old(self).items@[i].content,
                                ) == Some(p);
                            let x = old(self).items@[i];
                            assert(old(self).items@.contains(x));
                            assert(expanded.items@.contains(x));
                            let j = choose|j: int| 0 <= j < expanded.items@.len() && expanded.items@[j] == x;
                            assert(image_path(expanded.items@[j].content) == Some(p));
                        } else {
                            let (g, m) = choose|g: int, m: int|
                                0 <= g < old(self).sequence_groups@.len() && old(self).sequence_groups@[g].1.automatic
                                    && crate::workspace::has_item(*old(self), old(self).sequence_groups@[g].0) && 0 <= m
                                    < old(self).sequence_groups@[g].1.members@.len() && (
                                #[trigger] old(self).sequence_groups@[g].1.members@[m]).image.path@ == p;
                            let y = crate::grouping::restored_items(old(self).sequence_groups@[g].1.members@)[m];
                            assert(!automatic_key(*old(self), old(self).sequence_groups@[g].1.members@[m].id));
                            assert(expanded.items@.contains(y));
                            let j = choose|j: int| 0 <= j < expanded.items@.len() && expanded.items@[j] == y;
                            assert(image_path(expanded.items@[j].content) == Some(p));
                        }
                    }
                }
            }
        }
        let ghost added = fresh@;
        let ids = self.append_items(fresh);
        let ghost appended = *self;
        self.auto_group_sequences(playback.as_slice());
        proof {
            assert forall|g: int|
                0 <= g < self.sequence_groups@.len() && (#[trigger] self.sequence_groups@[g]).1.automatic
                    implies frame_run(self.sequence_groups@[g].1.members@) by {
                if g < appended.sequence_groups@.len() {
                    assert(self.sequence_groups@.take(appended.sequence_groups@.len() as int)[g]
                        == appended.sequence_groups@[g]);
                }
            }
            assert forall|k: int| 0 <= k < ids@.len() implies item_ids(self.items@).contains(
                #[trigger] ids@[k],
            ) || grouped_ids(self.sequence_groups@).contains(ids@[k]) by {
                let at = appended.items@.len() - ids@.len() + k;
                assert(appended.items@[at].id == ids@[k]);
                assert(item_ids(appended.items@)[at] == ids@[k]);
                assert(item_ids(appended.items@).contains(ids@[k]));
            }
            lemma_new_ids_shown(appended, *self, ids@, added, expanded.items@.len() as int);
            assert forall|i: int|
                0 <= i < old(self).items@.len() && !automatic_key(*old(self), old(self).items@[i].id) implies #[trigger] kept_or_grouped(
                *self,
                0,
                old(self).items@[i],
            ) by {
                let x = old(self).items@[i];
                assert(old(self).items@.contains(x));
                assert(expanded.items@.contains(x));
                let e = choose|e: int| 0 <= e < expanded.items@.len() && expanded.items@[e] == x;
                assert(appended.items@[e] == x);
                assert(kept_or_grouped(*self, appended.sequence_groups@.len() as int, appended.items@[e]));
                if !self.items@.contains(x) {
                    let (g, m) = choose|g: int, m: int|
                        appended.sequence_groups@.len() <= g < self.sequence_groups@.len() && 0 <= m
                            < self.sequence_groups@[g].1.members@.len() && self.sequence_groups@[g].1.automatic
                            && #[trigger] self.sequence_groups@[g].1.members@[m] == member_of(x);
                }
            }
            assert forall|g: int, m: int|
                0 <= g < old(self).sequence_groups@.len() && old(self).sequence_groups@[g].1.automatic
                    && crate::workspace::has_item(*old(self), old(self).sequence_groups@[g].0) && 0 <= m
                    < old(self).sequence_groups@[g].1.members@.len() && !automatic_key(
                    *old(self),
                    old(self).sequence_groups@[g].1.members@[m].id,
                ) implies #[trigger] kept_or_grouped(
                *self,
                0,
                crate::grouping::restored_items(old(self).sequence_groups@[g].1.members@)[m],
            ) by {
                let x = crate::grouping::restored_items(old(self).sequence_groups@[g].1.members@)[m];
                assert(expanded.items@.contains(x));
                let e = choose|e: int| 0 <= e < expanded.items@.len() && expanded.items@[e] == x;
                assert(appended.items@[e] == x);
                assert(kept_or_grouped(*self, appended.sequence_groups@.len() as int, appended.items@[e]));
                if !self.items@.contains(x) {
                    let (k, n) = choose|k: int, n: int|
                        appended.sequence_groups@.len() <= k < self.sequence_groups@.len() && 0 <= n
                            < self.sequence_groups@[k].1.members@.len() && self.sequence_groups@[k].1.automatic
                            && #[trigger] self.sequence_groups@[k].1.members@[n] == member_of(x);
                }
            }
            assert forall|r: (WorkspaceId, SequenceGroup)|
                old(self).sequence_groups@.contains(r) && !r.1.automatic implies #[trigger] self.sequence_groups@.contains(r) by {
                assert(expanded.sequence_groups@.contains(r));
                let g = choose|g: int| 0 <= g < expanded.sequence_groups@.len() && expanded.sequence_groups@[g] == r;
                assert(appended.sequence_groups@[g] == r);
                assert(self.sequence_groups@[g] == self.sequence_groups@.take(appended.sequence_groups@.len() as int)[g]);
            }
        }
        proof {
            lemma_inserted_entries(*old(self), expanded, appended, *self, ids@, added);
        }
        let ghost grouped_state = *self;
        proof {
            if keys_apart(*old(self)) {
                let from = appended.sequence_groups@.len() as int;
                assert forall|k: int| 0 <= k < from implies !(#[trigger] self.sequence_groups@[k]).1.automatic by {
                    assert(self.sequence_groups@.take(from)[k] == appended.sequence_groups@[k]);
                }
                lemma_regrouped_from_carried(expanded.selected_id, self.selected_id, *self, from);
                lemma_regrouped_from_carried(expanded.hovered_id, self.hovered_id, *self, from);
                lemma_regrouped_from_carried(expanded.diff_image1_id, self.diff_image1_id, *self, from);
                lemma_regrouped_from_carried(expanded.diff_image2_id, self.diff_image2_id, *self, from);
                lemma_all_resumed(*old(self), *self, from, playback@);
                assert(appended.items@ == inserted_items(*old(self), all)) by {
                    assert(added == fresh_contents(shown_paths(*old(self)), all));
                    assert(expanded.items@ == dissolved_items(*old(self), old(self).items@, automatic_keys(*old(self))));
                }
            }
            {
                let from = appended.sequence_groups@.len() as int;
                assert forall|k: int| 0 <= k < self.sequence_groups@.len() && (#[trigger] self.sequence_groups@[k]).1.automatic implies from <= k by {
                    if k < from {
                        assert(self.sequence_groups@.take(from)[k] == appended.sequence_groups@[k]);
                    }
                }
            }
        }
        if ids.len() > 0 {
            let mut selected: Option<WorkspaceId> = None;
            let mut j: usize = 0;
            while j < self.items.len()
                invariant_except_break
                    j <= self.items@.len(),
                    selected is None,
                    forall|i: int| 0 <= i < j ==> !ids@.contains(#[trigger] self.items@[i].id),
                ensures
                    selected matches Some(x) ==> exists|f: int|
                        0 <= f < self.items@.len() && #[trigger] self.items@[f].id == x && ids@.contains(x) && forall|i: int|
                            0 <= i < f ==> !ids@.contains(#[trigger] self.items@[i].id),
                    selected is None ==> forall|i: int|
                        0 <= i < self.items@.len() ==> !ids@.contains(#[trigger] self.items@[i].id),
                decreases self.items@.len() - j,
            {
                if slice_contains(ids.as_slice(), self.items[j].id) {
                    selected = Some(self.items[j].id);
                    break;
                }
                j += 1;
            }
            let ghost from_entries = selected is Some;
            if selected.is_none() {
                let mut g: usize = 0;
                while g < self.sequence_groups.len()
                    invariant_except_break
                        g <= self.sequence_groups@.len(),
                        selected is None,
                        forall|h: int| 0 <= h < g ==> !has_new_member(#[trigger] self.sequence_groups@[h].1, ids@),
                    ensures
                        selected matches Some(x) ==> exists|f: int|
                            0 <= f < self.sequence_groups@.len() && #[trigger] self.sequence_groups@[f].0 == x
                                && has_new_member(self.sequence_groups@[f].1, ids@) && forall|h: int|
                                0 <= h < f ==> !has_new_member(#[trigger] self.sequence_groups@[h].1, ids@),
                        selected is None ==> forall|h: int|
                            0 <= h < self.sequence_groups@.len() ==> !has_new_member(
                                #[trigger] self.sequence_groups@[h].1,
                                ids@,
                            ),
                    decreases self.sequence_groups@.len() - g,
                {
                    let members = &self.sequence_groups[g].1.members;
                    let mut m: usize = 0;
                    let mut hit = false;
                    while m < members.len()
                        invariant
                            m <= members@.len(),
                            hit == exists|t: int| 0 <= t < m && ids@.contains(#[trigger] members@[t].id),
                        decreases members@.len() - m,
                    {
                        if slice_contains(ids.as_slice(), members[m].id) {
                            hit = true;
                        }
                        m += 1;
                    }
                    if hit {
                        selected = Some(self.sequence_groups[g].0);
                        break;
                    }
                    g += 1;
                }
            }
            proof {
                if selected is None {
                    assert forall|g: int|
                        0 <= g < self.sequence_groups@.len() implies !has_new_member(
                            #[trigger] self.sequence_groups@[g].1,
                            ids@,
                        ) by {}
                }
            }
            match selected {
                Some(id) => {
                    let ghost grouped = *self;
                    let done = self.select(id);
                    proof {
                        if keys_apart(*old(self)) && done && grouped.selected_id != Some(id) && regrouped(
                            expanded_ref(*old(self), old(self).selected_id),
                            self.selected_id,
                            *self,
                        ) {
                            lemma_regrouped_unique(
                                expanded_ref(*old(self), old(self).selected_id),
                                grouped.selected_id,
                                self.selected_id,
                                *self,
                            );
                        }
                        if from_entries {
                            let f = choose|f: int|
                                0 <= f < grouped.items@.len() && #[trigger] grouped.items@[f].id == id && ids@.contains(id)
                                    && forall|i: int| 0 <= i < f ==> !ids@.contains(#[trigger] grouped.items@[i].id);
                            assert(crate::workspace::item_ids(grouped.items@)[f] == id);
                            assert(done);
                            assert(alone_selected(*self, id));
                            assert forall|j: int|
                                0 <= j < self.items@.len() && ids@.contains(#[trigger] self.items@[j].id) && (forall|i: int|
                                    0 <= i < j ==> !ids@.contains(#[trigger] self.items@[i].id)) implies alone_selected(
                                *self,
                                self.items@[j].id,
                            ) by {
                                if j < f {
                                    assert(!ids@.contains(grouped.items@[j].id));
                                } else if f < j {
                                    assert(!ids@.contains(self.items@[f].id));
                                }
                                assert(crate::workspace::item_ids(grouped.items@)[f] == id);
                                assert(done);
                            }
                            assert(ids@.contains(self.items@[f].id));
                        } else {
                            let f = choose|f: int|
                                0 <= f < grouped.sequence_groups@.len() && #[trigger] grouped.sequence_groups@[f].0 == id
                                    && has_new_member(grouped.sequence_groups@[f].1, ids@) && forall|h: int|
                                    0 <= h < f ==> !has_new_member(#[trigger] grouped.sequence_groups@[h].1, ids@);
                            assert forall|g: int|
                                0 <= g < self.sequence_groups@.len() && has_new_member(
                                    #[trigger] self.sequence_groups@[g].1,
                                    ids@,
                                ) && (forall|h: int|
                                    0 <= h < g ==> !has_new_member(#[trigger] self.sequence_groups@[h].1, ids@))
                                    && crate::workspace::has_item(*self, self.sequence_groups@[g].0) implies self.selected_id
                                == Some(self.sequence_groups@[g].0) by {
                                if g < f {
                                    assert(!has_new_member(grouped.sequence_groups@[g].1, ids@));
                                } else if f < g {
                                    assert(!has_new_member(self.sequence_groups@[f].1, ids@));
                                }
                                assert(done);
                            }
                        }
                    }
                },
                None => {},
            }
        }
        proof {
            assert(self.items@ == grouped_state.items@);
            assert(self.sequence_groups@ == grouped_state.sequence_groups@);
            if keys_apart(*old(self)) {
                lemma_resumed_same(*old(self), grouped_state, *self);
                lemma_anchored_same(
                    inserted_items(*old(self), all),
                    old(self).next_workspace_id + ids@.len(),
                    grouped_state,
                    *self,
                );
            }
            assert forall|i: int| 0 <= i < self.items@.len() implies inserted_entry(
                *old(self),
                *self,
                ids@,
                #[trigger] self.items@[i],
            ) by {
                assert(inserted_entry(*old(self), grouped_state, ids@, grouped_state.items@[i]));
                if exists|k: int| 0 <= k < grouped_state.sequence_groups@.len() && grouped_state.sequence_groups@[k].0
                    == self.items@[i].id && grouped_state.sequence_groups@[k].1.automatic {
                    let k = choose|k: int| 0 <= k < grouped_state.sequence_groups@.len()
                        && grouped_state.sequence_groups@[k].0 == self.items@[i].id
                        && grouped_state.sequence_groups@[k].1.automatic;
                    assert(self.sequence_groups@[k] == grouped_state.sequence_groups@[k]);
                }
            }
            assert forall|i: int|
                0 <= i < old(self).items@.len() && !automatic_key(*old(self), old(self).items@[i].id) implies #[trigger] kept_or_grouped(
                *self,
                0,
                old(self).items@[i],
            ) by {
                assert(kept_or_grouped(grouped_state, 0, old(self).items@[i]));
            }
            assert forall|g: int, m: int|
                0 <= g < old(self).sequence_groups@.len() && old(self).sequence_groups@[g].1.automatic
                    && crate::workspace::has_item(*old(self), old(self).sequence_groups@[g].0) && 0 <= m
                    < old(self).sequence_groups@[g].1.members@.len() && !automatic_key(
                    *old(self),
                    old(self).sequence_groups@[g].1.members@[m].id,
                ) implies #[trigger] kept_or_grouped(
                *self,
                0,
                crate::grouping::restored_items(old(self).sequence_groups@[g].1.members@)[m],
            ) by {
                assert(kept_or_grouped(
                    grouped_state,
                    0,
                    crate::grouping::restored_items(old(self).sequence_groups@[g].1.members@)[m],
                ));
            }
        }
        ids
    }
}

} // verus!
