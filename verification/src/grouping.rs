//! Grouping images of the workspace into sequence groups by hand, and the
//! references that follow entries into and out of groups.
use crate::groups::{group_image_spec, label_spec, playback_state, sequence_image, sequence_label};
use crate::idset::{ascending, set_insert, set_remove};
use crate::image_item::{FrameSource, frame_count_of};
use crate::seq_facts::{disjoint, lemma_concat_no_dup, lemma_insert_contains, lemma_insert_no_dup};
use crate::sequence::{sequence_digits, sequence_digits_spec};
use crate::workspace::{
    GroupPlayback, SelectionTarget, SequenceGroup, SequenceMember, SidebarItem, ViewerState,
    WorkspaceId, WorkspaceItem, allocate_id, content_ok, frame_path_ok, group_keys, grouped_ids,
    item_ids, member_ids, same_diff_cache, same_settings, selection_cache_cleared,
};
use vstd::prelude::*;

verus! {

/// Whether the id is among the ids.
pub fn slice_contains(ids: &[WorkspaceId], id: WorkspaceId) -> (b: bool)
    ensures
        b == ids@.contains(id),
{
    let mut i: usize = 0;
    while i < ids.len()
        invariant
            i <= ids@.len(),
            forall|k: int| 0 <= k < i ==> ids@[k] != id,
        decreases ids@.len() - i,
    {
        if ids[i].0 == id.0 {
            assert(ids@[i as int] == id);
            return true;
        }
        i += 1;
    }
    false
}

/// Whether no id occurs twice.
fn distinct_ids(ids: &[WorkspaceId]) -> (b: bool)
    ensures
        b == ids@.no_duplicates(),
{
    let mut i: usize = 0;
    while i < ids.len()
        invariant
            i <= ids@.len(),
            forall|a: int, b: int| 0 <= a < b < ids@.len() && a < i ==> ids@[a] != ids@[b],
        decreases ids@.len() - i,
    {
        let mut j: usize = i + 1;
        while j < ids.len()
            invariant
                i < j <= ids@.len(),
                forall|a: int, b: int| 0 <= a < b < ids@.len() && a < i ==> ids@[a] != ids@[b],
                forall|b: int| i < b < j ==> ids@[i as int] != ids@[b],
            decreases ids@.len() - j,
        {
            if ids[i].0 == ids[j].0 {
                assert(ids@[i as int] == ids@[j as int]);
                return false;
            }
            j += 1;
        }
        i += 1;
    }
    true
}

/// A reference that pointed at one of the members now points at the group.
pub open spec fn remapped(reference: Option<WorkspaceId>, members: Seq<WorkspaceId>, group: WorkspaceId) -> Option<
    WorkspaceId,
> {
    match reference {
        Some(x) => if members.contains(x) {
            Some(group)
        } else {
            reference
        },
        None => None,
    }
}

/// A selection with the members taken out, and the group put in when one of
/// them was selected.
pub open spec fn remapped_set(set: Set<WorkspaceId>, members: Seq<WorkspaceId>, group: WorkspaceId) -> Set<
    WorkspaceId,
> {
    let rest = Set::new(|x: WorkspaceId| set.contains(x) && !members.contains(x));
    if exists|x: WorkspaceId| set.contains(x) && members.contains(x) {
        rest.insert(group)
    } else {
        rest
    }
}

/// The entries whose ids are (`pick`) or are not (`!pick`) among the ids, in
/// order.
pub open spec fn pick_items(items: Seq<WorkspaceItem>, ids: Seq<WorkspaceId>, pick: bool) -> Seq<
    WorkspaceItem,
>
    decreases items.len(),
{
    if items.len() == 0 {
        Seq::empty()
    } else {
        let rest = pick_items(items.drop_last(), ids, pick);
        if ids.contains(items.last().id) == pick {
            rest.push(items.last())
        } else {
            rest
        }
    }
}

/// Picking entries by id keeps them, in order, without repeating ids.
pub proof fn lemma_pick_items(items: Seq<WorkspaceItem>, ids: Seq<WorkspaceId>, pick: bool)
    ensures
        forall|x: WorkspaceId| #[trigger]
            item_ids(pick_items(items, ids, pick)).contains(x) <==> item_ids(items).contains(x)
                && ids.contains(x) == pick,
        forall|k: int|
            0 <= k < pick_items(items, ids, pick).len() ==> items.contains(
                #[trigger] pick_items(items, ids, pick)[k],
            ),
        item_ids(items).no_duplicates() ==> item_ids(pick_items(items, ids, pick)).no_duplicates(),
    decreases items.len(),
{
    let p = pick_items(items, ids, pick);
    if items.len() == 0 {
        assert(item_ids(p) =~= Seq::<WorkspaceId>::empty());
        assert(item_ids(items) =~= Seq::<WorkspaceId>::empty());
    } else {
        let init = items.drop_last();
        let last = items.last();
        lemma_pick_items(init, ids, pick);
        let rest = pick_items(init, ids, pick);
        assert(item_ids(items) =~= item_ids(init).push(last.id));
        assert(item_ids(init).push(last.id) =~= item_ids(init).insert(item_ids(init).len() as int, last.id));
        lemma_insert_contains(item_ids(init), item_ids(init).len() as int, last.id);
        assert forall|k: int| 0 <= k < init.len() implies items.contains(#[trigger] init[k]) by {
            assert(items[k] == init[k]);
        }
        assert(items[items.len() - 1] == last);
        if ids.contains(last.id) == pick {
            assert(item_ids(p) =~= item_ids(rest).push(last.id));
            assert(item_ids(rest).push(last.id) =~= item_ids(rest).insert(
                item_ids(rest).len() as int,
                last.id,
            ));
            lemma_insert_contains(item_ids(rest), item_ids(rest).len() as int, last.id);
            assert forall|k: int| 0 <= k < p.len() implies items.contains(#[trigger] p[k]) by {
                if k < rest.len() {
                    assert(p[k] == rest[k]);
                    assert(init.contains(rest[k]));
                    let j = choose|j: int| 0 <= j < init.len() && init[j] == rest[k];
                    assert(items[j] == init[j]);
                }
            }
            if item_ids(items).no_duplicates() {
                assert(item_ids(init).no_duplicates()) by {
                    assert forall|a: int, b: int|
                        0 <= a < item_ids(init).len() && 0 <= b < item_ids(init).len() && a != b implies item_ids(
                        init,
                    )[a] != item_ids(init)[b] by {
                        assert(item_ids(init)[a] == item_ids(items)[a]);
                        assert(item_ids(init)[b] == item_ids(items)[b]);
                    }
                }
                assert(!item_ids(init).contains(last.id)) by {
                    if item_ids(init).contains(last.id) {
                        let j = choose|j: int| 0 <= j < item_ids(init).len() && item_ids(init)[j] == last.id;
                        assert(item_ids(items)[j] == item_ids(items)[items.len() - 1]);
                    }
                }
                lemma_insert_no_dup(item_ids(rest), item_ids(rest).len() as int, last.id);
            }
        } else {
            assert(p == rest);
            assert forall|k: int| 0 <= k < p.len() implies items.contains(#[trigger] p[k]) by {
                assert(init.contains(rest[k]));
                let j = choose|j: int| 0 <= j < init.len() && init[j] == rest[k];
                assert(items[j] == init[j]);
            }
            if item_ids(items).no_duplicates() {
                assert forall|a: int, b: int|
                    0 <= a < item_ids(init).len() && 0 <= b < item_ids(init).len() && a != b implies item_ids(
                    init,
                )[a] != item_ids(init)[b] by {
                    assert(item_ids(init)[a] == item_ids(items)[a]);
                    assert(item_ids(init)[b] == item_ids(items)[b]);
                }
            }
        }
    }
}

/// A single-frame image entry.
pub open spec fn single_image(item: WorkspaceItem) -> bool {
    item.content matches SidebarItem::Image(image) && frame_count_of(image.frames) == 1
}

/// The member a single-frame image entry becomes in a group.
pub open spec fn member_of(item: WorkspaceItem) -> SequenceMember {
    let image = item.content->Image_0;
    let digits = sequence_digits_spec(image.path@);
    SequenceMember {
        id: item.id,
        image,
        sequence_number: match digits {
            Some((n, _)) => Some(n as u32),
            None => None,
        },
        digit_width: match digits {
            Some((_, w)) => w as usize,
            None => 0,
        },
    }
}

/// The members of a group formed from the entries.
pub open spec fn members_of(items: Seq<WorkspaceItem>) -> Seq<SequenceMember> {
    items.map_values(|it: WorkspaceItem| member_of(it))
}

/// Whether the entries with these ids can be grouped by hand: no id twice,
/// every id an entry, at least two of them, all single-frame images of one
/// size.
pub open spec fn groupable(s: ViewerState, ids: Seq<WorkspaceId>) -> bool {
    let chosen = pick_items(s.items@, ids, true);
    &&& ids.no_duplicates()
    &&& chosen.len() == ids.len()
    &&& chosen.len() >= 2
    &&& forall|k: int| 0 <= k < chosen.len() ==> single_image(#[trigger] chosen[k])
    &&& forall|k: int|
        0 <= k < chosen.len() ==> (#[trigger] chosen[k]).content->Image_0.width
            == chosen[0].content->Image_0.width && chosen[k].content->Image_0.height
            == chosen[0].content->Image_0.height
}

impl ViewerState {
    /// Points the references at the members to the group instead: the
    /// selection, the focused, anchor, selected and hovered entries, and both
    /// diff sides.
    pub fn remap_group_references(&mut self, members: &[WorkspaceId], group: WorkspaceId)
        requires
            ascending(old(self).selected_ids@),
        ensures
            ascending(final(self).selected_ids@),
            final(self).selected_ids@.to_set() == remapped_set(
                old(self).selected_ids@.to_set(),
                members@,
                group,
            ),
            final(self).focused_id == remapped(old(self).focused_id, members@, group),
            final(self).range_anchor == remapped(old(self).range_anchor, members@, group),
            final(self).selected_id == remapped(old(self).selected_id, members@, group),
            final(self).hovered_id == remapped(old(self).hovered_id, members@, group),
            final(self).diff_image1_id == remapped(old(self).diff_image1_id, members@, group),
            final(self).diff_image2_id == remapped(old(self).diff_image2_id, members@, group),
            final(self).primary_target == old(self).primary_target,
            final(self).list_focus == old(self).list_focus,
            final(self).items@ == old(self).items@,
            final(self).sequence_groups@ == old(self).sequence_groups@,
            final(self).next_workspace_id == old(self).next_workspace_id,
            same_settings(*final(self), *old(self)),
            same_diff_cache(*final(self), *old(self)),
            crate::workspace::same_selection_cache(*final(self), *old(self)),
    {
        let ghost start = self.selected_ids@.to_set();
        let mut selection: Vec<WorkspaceId> = Vec::new();
        std::mem::swap(&mut selection, &mut self.selected_ids);
        let mut was_selected = false;
        let mut i: usize = 0;
        while i < members.len()
            invariant
                i <= members@.len(),
                ascending(selection@),
                selection@.to_set() == Set::new(
                    |x: WorkspaceId| start.contains(x) && !members@.take(i as int).contains(x),
                ),
                was_selected == exists|x: WorkspaceId|
                    start.contains(x) && members@.take(i as int).contains(x),
            decreases members@.len() - i,
        {
            let ghost before = selection@.to_set();
            let ghost before_seq = selection@;
            let removed = set_remove(&mut selection, members[i]);
            assert(before.contains(members@[i as int]) == before_seq.contains(members@[i as int]));
            assert forall|x: WorkspaceId| members@.take(i + 1).contains(x) <==> members@.take(
                i as int,
            ).contains(x) || x == members@[i as int] by {
                assert(members@.take(i + 1) =~= members@.take(i as int).push(members@[i as int]));
                assert(members@.take(i as int).push(members@[i as int]) =~= members@.take(
                    i as int,
                ).insert(i as int, members@[i as int]));
                lemma_insert_contains(members@.take(i as int), i as int, members@[i as int]);
            }
            assert(selection@.to_set() =~= Set::new(
                |x: WorkspaceId| start.contains(x) && !members@.take(i + 1).contains(x),
            ));
            if removed {
                assert(start.contains(members@[i as int]) && members@.take(i + 1).contains(
                    members@[i as int],
                ));
            }
            if !removed && !was_selected {
                assert forall|x: WorkspaceId|
                    !(start.contains(x) && members@.take(i + 1).contains(x)) by {
                    if start.contains(x) && members@.take(i + 1).contains(x) && x == members@[i as int] {
                        assert(before.contains(x));
                    }
                }
            }
            was_selected = was_selected || removed;
            i += 1;
        }
        assert(members@.take(members@.len() as int) == members@);
        if was_selected {
            set_insert(&mut selection, group);
        }
        assert(selection@.to_set() =~= remapped_set(start, members@, group));
        self.selected_ids = selection;
        match self.focused_id {
            Some(x) => if slice_contains(members, x) {
                self.focused_id = Some(group);
            },
            None => {},
        }
        match self.range_anchor {
            Some(x) => if slice_contains(members, x) {
                self.range_anchor = Some(group);
            },
            None => {},
        }
        match self.selected_id {
            Some(x) => if slice_contains(members, x) {
                self.selected_id = Some(group);
            },
            None => {},
        }
        match self.hovered_id {
            Some(x) => if slice_contains(members, x) {
                self.hovered_id = Some(group);
            },
            None => {},
        }
        match self.diff_image1_id {
            Some(x) => if slice_contains(members, x) {
                self.diff_image1_id = Some(group);
            },
            None => {},
        }
        match self.diff_image2_id {
            Some(x) => if slice_contains(members, x) {
                self.diff_image2_id = Some(group);
            },
            None => {},
        }
    }
}


/// An entry whose id is not picked stays among those kept.
pub proof fn lemma_pick_keeps(items: Seq<WorkspaceItem>, ids: Seq<WorkspaceId>, item: WorkspaceItem)
    requires
        items.contains(item),
        !ids.contains(item.id),
    ensures
        pick_items(items, ids, false).contains(item),
    decreases items.len(),
{
    let rest = pick_items(items.drop_last(), ids, false);
    if items.last() == item {
        assert(pick_items(items, ids, false) == rest.push(item));
        assert(rest.push(item)[rest.len() as int] == item);
    } else {
        let i = choose|i: int| 0 <= i < items.len() && items[i] == item;
        assert(items.drop_last()[i] == item);
        lemma_pick_keeps(items.drop_last(), ids, item);
        let k = choose|k: int| 0 <= k < rest.len() && rest[k] == item;
        if ids.contains(items.last().id) == false {
            assert(pick_items(items, ids, false) == rest.push(items.last()));
            assert(rest.push(items.last())[k] == item);
        }
    }
}

/// Entries picked from a prefix come first among those picked from the whole.
pub proof fn lemma_pick_prefix(items: Seq<WorkspaceItem>, ids: Seq<WorkspaceId>, pick: bool, n: int)
    requires
        0 <= n <= items.len(),
    ensures
        pick_items(items.take(n), ids, pick).len() <= pick_items(items, ids, pick).len(),
        forall|k: int|
            0 <= k < pick_items(items.take(n), ids, pick).len() ==> pick_items(items, ids, pick)[k]
                == #[trigger] pick_items(items.take(n), ids, pick)[k],
    decreases items.len() - n,
{
    if n == items.len() {
        assert(items.take(n) == items);
    } else {
        assert(items.take(n + 1).drop_last() == items.take(n));
        assert(items.take(n + 1).last() == items[n]);
        assert(pick_items(items.take(n + 1), ids, pick) == if ids.contains(items[n].id) == pick {
            pick_items(items.take(n), ids, pick).push(items[n])
        } else {
            pick_items(items.take(n), ids, pick)
        });
        lemma_pick_prefix(items, ids, pick, n + 1);
        let short = pick_items(items.take(n), ids, pick);
        let long = pick_items(items.take(n + 1), ids, pick);
        assert forall|k: int| 0 <= k < short.len() implies pick_items(items, ids, pick)[k]
            == #[trigger] short[k] by {
            assert(long[k] == short[k]);
            assert(pick_items(items, ids, pick)[k] == long[k]);
        }
    }
}

/// The ids of the members formed from entries are the entries' ids.
pub proof fn lemma_member_ids(items: Seq<WorkspaceItem>, group: SequenceGroup)
    requires
        group.members@ == members_of(items),
    ensures
        member_ids(group) == item_ids(items),
{
    assert(member_ids(group) =~= item_ids(items));
}

impl ViewerState {
    /// Groups the entries with these ids, in sidebar order, into one animated
    /// entry under a new id at the place of the first of them. Nothing
    /// happens (and none is returned) unless no id repeats, every id is an
    /// entry, there are at least two, and all are single-frame images of one
    /// size. References to the members move to the group, which becomes the
    /// selected entry; what the panels derived is dropped.
    pub fn group_images(&mut self, ids: &[WorkspaceId]) -> (r: Option<WorkspaceId>)
        requires
            old(self).wf(),
            old(self).next_workspace_id < u64::MAX,
        ensures
            final(self).wf(),
            r is Some == groupable(*old(self), ids@),
            r is None ==> *final(self) == *old(self),
            r matches Some(g) ==> ({
                let chosen = pick_items(old(self).items@, ids@, true);
                let kept = pick_items(old(self).items@, ids@, false);
                let members = members_of(chosen);
                let at = crate::workspace::position(*old(self), chosen[0].id)->0;
                let label = label_spec(members);
                let moved = item_ids(chosen);
                let playback = GroupPlayback {
                    current_member: Some(chosen[0].id),
                    autoplay: true,
                    expanded: false,
                };
                &&& g.0 == old(self).next_workspace_id
                &&& final(self).next_workspace_id == old(self).next_workspace_id + 1
                &&& 0 <= at < final(self).items@.len()
                &&& final(self).items@.remove(at) == kept
                &&& final(self).items@[at].id == g
                &&& final(self).items@[at].content_revision == 0
                &&& final(self).items@[at].content matches SidebarItem::Image(image)
                    && group_image_spec(image, members, label, playback)
                &&& final(self).sequence_groups@.len() == old(self).sequence_groups@.len() + 1
                &&& final(self).sequence_groups@.drop_last() == old(self).sequence_groups@
                &&& final(self).sequence_groups@.last().0 == g
                &&& final(self).sequence_groups@.last().1.label@ == label
                &&& final(self).sequence_groups@.last().1.members@ == members
                &&& !final(self).sequence_groups@.last().1.automatic
                &&& final(self).selected_id == Some(g)
                &&& final(self).primary_target == Some(SelectionTarget::Entry(g))
                &&& final(self).selected_ids@.to_set() == remapped_set(
                    old(self).selected_ids@.to_set(),
                    moved,
                    g,
                )
                &&& final(self).focused_id == remapped(old(self).focused_id, moved, g)
                &&& final(self).range_anchor == remapped(old(self).range_anchor, moved, g)
                &&& final(self).hovered_id == remapped(old(self).hovered_id, moved, g)
                &&& final(self).diff_image1_id == remapped(old(self).diff_image1_id, moved, g)
                &&& final(self).diff_image2_id == remapped(old(self).diff_image2_id, moved, g)
                &&& final(self).list_focus == old(self).list_focus
                &&& selection_cache_cleared(*final(self))
                &&& same_diff_cache(*final(self), *old(self))
                &&& same_settings(*final(self), *old(self))
            }),
    {
        let ghost start = *self;
        let ghost chosen = pick_items(start.items@, ids@, true);
        let ghost kept_all = pick_items(start.items@, ids@, false);
        if !distinct_ids(ids) {
            return None;
        }
        let mut count: usize = 0;
        let mut width: u32 = 0;
        let mut height: u32 = 0;
        let mut i: usize = 0;
        while i < self.items.len()
            invariant
                *self == start,
                *old(self) == start,
                start.wf(),
                chosen == pick_items(start.items@, ids@, true),
                ids@.no_duplicates(),
                i <= self.items@.len(),
                count == pick_items(self.items@.take(i as int), ids@, true).len(),
                count <= i,
                forall|k: int|
                    0 <= k < count ==> single_image(
                        #[trigger] pick_items(self.items@.take(i as int), ids@, true)[k],
                    ),
                count > 0 ==> width == pick_items(self.items@.take(i as int), ids@, true)[0].content->Image_0.width
                    && height == pick_items(self.items@.take(i as int), ids@, true)[0].content->Image_0.height,
                forall|k: int|
                    0 <= k < count ==> (#[trigger] pick_items(self.items@.take(i as int), ids@, true)[k]).content->Image_0.width
                        == width && pick_items(self.items@.take(i as int), ids@, true)[k].content->Image_0.height
                        == height,
            decreases self.items@.len() - i,
        {
            let ghost before = pick_items(self.items@.take(i as int), ids@, true);
            assert(self.items@.take(i + 1).drop_last() == self.items@.take(i as int));
            assert(self.items@.take(i + 1).last() == self.items@[i as int]);
            if slice_contains(ids, self.items[i].id) {
                let ghost after = pick_items(self.items@.take(i + 1), ids@, true);
                assert(after == before.push(self.items@[i as int]));
                proof {
                    lemma_pick_prefix(self.items@, ids@, true, i + 1);
                    assert(after[count as int] == self.items@[i as int]);
                    assert(chosen[count as int] == after[count as int]);
                }
                match &self.items[i].content {
                    SidebarItem::Image(image) => {
                        if image.frame_count() != 1 {
                            proof {
                                assert(!single_image(chosen[count as int]));
                            }
                            return None;
                        }
                        if count == 0 {
                            width = image.width;
                            height = image.height;
                        } else if image.width != width || image.height != height {
                            proof {
                                assert(chosen[count as int] == after[count as int]);
                                assert(chosen[0] == after[0]);
                            }
                            return None;
                        }
                    },
                    SidebarItem::Glyph(_) => {
                        proof {
                            assert(!single_image(chosen[count as int]));
                        }
                        return None;
                    },
                }
                count += 1;
            }
            i += 1;
        }
        assert(self.items@.take(self.items@.len() as int) == self.items@);
        if count != ids.len() || count < 2 {
            return None;
        }
        assert(groupable(start, ids@));
        // Take the entries out, keeping the others and moving the chosen
        // images into members in sidebar order.
        let mut rest: Vec<WorkspaceItem> = Vec::new();
        std::mem::swap(&mut rest, &mut self.items);
        let mut kept: Vec<WorkspaceItem> = Vec::new();
        let mut members: Vec<SequenceMember> = Vec::new();
        let mut first_at: usize = 0;
        let ghost mut j: int = 0;
        let ghost mut first_index: int = 0;
        while rest.len() > 0
            invariant
                0 <= j <= start.items@.len(),
                rest@ == start.items@.skip(j),
                kept@ == pick_items(start.items@.take(j), ids@, false),
                members@ == members_of(pick_items(start.items@.take(j), ids@, true)),
                members@.len() == 0 ==> kept@.len() == j,
                members@.len() > 0 ==> first_at == first_index && 0 <= first_index < start.items@.len()
                    && start.items@[first_index] == chosen[0] && first_at <= kept@.len(),
                chosen == pick_items(start.items@, ids@, true),
                groupable(start, ids@),
                start.wf(),
            decreases rest@.len(),
        {
            let item = rest.remove(0);
            assert(item == start.items@[j]);
            let ghost before_c = pick_items(start.items@.take(j), ids@, true);
            let ghost before_k = pick_items(start.items@.take(j), ids@, false);
            assert(start.items@.take(j + 1).drop_last() == start.items@.take(j));
            assert(start.items@.take(j + 1).last() == start.items@[j]);
            proof {
                lemma_pick_prefix(start.items@, ids@, true, j + 1);
            }
            if slice_contains(ids, item.id) {
                assert(pick_items(start.items@.take(j + 1), ids@, true) == before_c.push(item));
                assert(pick_items(start.items@.take(j + 1), ids@, true)[before_c.len() as int] == item);
                assert(chosen[before_c.len() as int] == item);
                assert(single_image(chosen[before_c.len() as int]));
                assert(single_image(item));
                if members.len() == 0 {
                    first_at = kept.len();
                    proof {
                        first_index = j;
                    }
                }
                let id = item.id;
                match item.content {
                    SidebarItem::Image(image) => {
                        assert(content_ok(start.items@[j].content));
                        let digits = sequence_digits(image.path.as_str());
                        let member = SequenceMember {
                            id,
                            image,
                            sequence_number: match digits {
                                Some((n, _)) => Some(n),
                                None => None,
                            },
                            digit_width: match digits {
                                Some((_, w)) => w,
                                None => 0,
                            },
                        };
                        assert(member == member_of(start.items@[j]));
                        members.push(member);
                    },
                    SidebarItem::Glyph(_) => {
                        assert(single_image(chosen[before_c.len() as int]));
                        assert(false);
                    },
                }
                assert(members@ =~= members_of(pick_items(start.items@.take(j + 1), ids@, true)));
            } else {
                kept.push(item);
            }
            proof {
                j = j + 1;
            }
        }
        assert(start.items@.take(j) == start.items@);
        let label = sequence_label(members.as_slice());
        let playback = GroupPlayback { current_member: Some(members[0].id), autoplay: true, expanded: false };
        let image = match sequence_image(members.as_slice(), label.as_str(), playback) {
            Some(image) => image,
            None => {
                proof {
                    assert(false);
                }
                return None;
            },
        };
        let mut moved: Vec<WorkspaceId> = Vec::new();
        let mut k: usize = 0;
        while k < members.len()
            invariant
                k <= members@.len(),
                moved@.len() == k,
                forall|t: int| 0 <= t < k ==> moved@[t] == members@[t].id,
            decreases members@.len() - k,
        {
            moved.push(members[k].id);
            k += 1;
        }
        assert(moved@ =~= item_ids(chosen));
        let g = allocate_id(&mut self.next_workspace_id);
        self.items = kept;
        self.remap_group_references(moved.as_slice(), g);
        let group = SequenceGroup { label, members, automatic: false };
        let ghost group_view = group;
        self.sequence_groups.push((g, group));
        let entry = WorkspaceItem { id: g, content_revision: 0, content: SidebarItem::Image(image) };
        assert(first_at <= self.items@.len());
        self.items.insert(first_at, entry);
        self.selected_id = Some(g);
        self.primary_target = Some(SelectionTarget::Entry(g));
        self.invalidate_selection_state();
        proof {
            lemma_group_images_wf(start, *self, ids@, first_at as int, group_view);
            let at = crate::workspace::position(start, chosen[0].id)->0;
            assert(crate::workspace::position(start, chosen[0].id) == Some(first_at as int)) by {
                crate::workspace::lemma_items_distinct(start);
                assert(item_ids(start.items@)[first_index] == chosen[0].id);
            }
            assert(self.items@.remove(at) == kept_all);
            assert(self.items@[at].id == g);
            assert(self.items@[at].content matches SidebarItem::Image(image)
                && group_image_spec(image, members_of(chosen), label_spec(members_of(chosen)), GroupPlayback {
                    current_member: Some(chosen[0].id),
                    autoplay: true,
                    expanded: false,
                }));
            assert(self.sequence_groups@.drop_last() == start.sequence_groups@);
            assert(self.sequence_groups@.last().1.members@ == members_of(chosen));
            assert(self.sequence_groups@.last().1.label@ == label_spec(members_of(chosen)));
            assert(self.selected_ids@.to_set() == remapped_set(start.selected_ids@.to_set(), item_ids(chosen), g));
            assert(selection_cache_cleared(*self));
            assert(same_settings(*self, start));
            assert(same_diff_cache(*self, start));
        }
        Some(g)
    }
}

/// Grouping keeps the workspace well formed.
proof fn lemma_group_images_wf(
    s: ViewerState,
    t: ViewerState,
    ids: Seq<WorkspaceId>,
    at: int,
    group: SequenceGroup,
)
    requires
        s.wf(),
        groupable(s, ids),
        0 <= at <= pick_items(s.items@, ids, false).len(),
        t.next_workspace_id == s.next_workspace_id + 1,
        t.items@ == pick_items(s.items@, ids, false).insert(
            at,
            t.items@[at],
        ),
        t.items@[at].id.0 == s.next_workspace_id,
        !(t.items@[at].content matches SidebarItem::Image(image) && frame_count_of(image.frames) == 1),
        t.sequence_groups@ == s.sequence_groups@.push((t.items@[at].id, group)),
        group.members@ == members_of(pick_items(s.items@, ids, true)),
        ascending(t.selected_ids@),
    ensures
        t.wf(),
{
    let chosen = pick_items(s.items@, ids, true);
    let kept = pick_items(s.items@, ids, false);
    let g = t.items@[at].id;
    lemma_pick_items(s.items@, ids, true);
    lemma_pick_items(s.items@, ids, false);
    lemma_member_ids(chosen, group);
    let old_items = item_ids(s.items@);
    let old_grouped = grouped_ids(s.sequence_groups@);
    assert(item_ids(t.items@) =~= item_ids(kept).insert(at, g));
    assert(!item_ids(kept).contains(g));
    lemma_insert_contains(item_ids(kept), at, g);
    lemma_insert_no_dup(item_ids(kept), at, g);
    let new_grouped = grouped_ids(t.sequence_groups@);
    assert(t.sequence_groups@.drop_last() == s.sequence_groups@);
    assert(new_grouped == old_grouped + item_ids(chosen));
    lemma_concat_no_dup(old_grouped, item_ids(chosen));
    assert(disjoint(old_grouped, item_ids(chosen)));
    assert(new_grouped.no_duplicates());
    assert(disjoint(item_ids(t.items@), new_grouped));
    assert forall|x: WorkspaceId| #[trigger] item_ids(t.items@).contains(x) implies x.0
        < t.next_workspace_id by {}
    assert forall|x: WorkspaceId| #[trigger] new_grouped.contains(x) implies x.0 < t.next_workspace_id by {}
    assert(group_keys(t.sequence_groups@) =~= group_keys(s.sequence_groups@).push(g));
    assert(!group_keys(s.sequence_groups@).contains(g)) by {
        if group_keys(s.sequence_groups@).contains(g) {
            let k = choose|k: int|
                0 <= k < group_keys(s.sequence_groups@).len() && group_keys(s.sequence_groups@)[k] == g;
            assert(s.sequence_groups@[k].0 == g);
        }
    }
    assert(group_keys(s.sequence_groups@).push(g) =~= group_keys(s.sequence_groups@).insert(
        group_keys(s.sequence_groups@).len() as int,
        g,
    ));
    lemma_insert_no_dup(group_keys(s.sequence_groups@), group_keys(s.sequence_groups@).len() as int, g);
    assert forall|k: int| 0 <= k < t.sequence_groups@.len() implies (
    #[trigger] t.sequence_groups@[k]).0.0 < t.next_workspace_id by {
        if k < s.sequence_groups@.len() {
            assert(t.sequence_groups@[k] == s.sequence_groups@[k]);
        }
    }
    assert forall|i: int| 0 <= i < t.items@.len() implies content_ok(#[trigger] t.items@[i].content) by {
        if i != at {
            let q = if i < at {
                i
            } else {
                i - 1
            };
            assert(t.items@[i] == kept[q]);
            assert(s.items@.contains(kept[q]));
            let w = choose|w: int| 0 <= w < s.items@.len() && s.items@[w] == kept[q];
            assert(content_ok(s.items@[w].content));
        }
    }
    assert forall|a: int, m: int|
        0 <= a < t.sequence_groups@.len() && 0 <= m < t.sequence_groups@[a].1.members@.len() implies frame_path_ok(
        #[trigger] t.sequence_groups@[a].1.members@[m].image.path@,
    ) by {
        if a < s.sequence_groups@.len() {
            assert(t.sequence_groups@[a] == s.sequence_groups@[a]);
        } else {
            assert(t.sequence_groups@[a].1 == group);
            assert(group.members@[m] == member_of(chosen[m]));
            assert(single_image(chosen[m]));
            assert(s.items@.contains(chosen[m]));
            let w = choose|w: int| 0 <= w < s.items@.len() && s.items@[w] == chosen[m];
            assert(content_ok(s.items@[w].content));
        }
    }
}


/// Putting ids in place of one of a run of distinct ids keeps them distinct
/// when the new ids are distinct and new to the run.
pub proof fn lemma_splice_ids(s: Seq<WorkspaceId>, p: int, x: Seq<WorkspaceId>)
    requires
        s.no_duplicates(),
        0 <= p < s.len(),
        x.no_duplicates(),
        disjoint(s, x),
    ensures
        (s.take(p) + x + s.skip(p + 1)).no_duplicates(),
        forall|y: WorkspaceId| #[trigger]
            (s.take(p) + x + s.skip(p + 1)).contains(y) <==> (s.contains(y) && y != s[p]) || x.contains(y),
{
    let a = s.take(p);
    let b = s.skip(p + 1);
    assert(s == a + seq![s[p]] + b);
    lemma_concat_no_dup(a + seq![s[p]], b);
    lemma_concat_no_dup(a, seq![s[p]]);
    lemma_concat_no_dup(a, b);
    lemma_concat_no_dup(a, x);
    lemma_concat_no_dup(a + x, b);
    assert(seq![s[p]].contains(s[p]));
    assert forall|y: WorkspaceId| a.contains(y) || b.contains(y) implies s.contains(y) && y != s[p] by {
        assert((a + seq![s[p]]).contains(y) || b.contains(y));
    }
    assert forall|y: WorkspaceId| s.contains(y) && y != s[p] implies a.contains(y) || b.contains(y) by {
        if !a.contains(y) && !b.contains(y) {
            assert(!(a + seq![s[p]]).contains(y)) by {
                lemma_concat_no_dup(a, seq![s[p]]);
            }
        }
    }
    assert(disjoint(a, x));
    assert(disjoint(a + x, b)) by {
        assert forall|y: WorkspaceId| !((a + x).contains(y) && b.contains(y)) by {
            if (a + x).contains(y) && b.contains(y) {
                if a.contains(y) {
                } else {
                    assert(x.contains(y));
                    assert(s.contains(y));
                }
            }
        }
    }
}

/// The entries that the members of a group become again.
pub open spec fn restored_items(members: Seq<SequenceMember>) -> Seq<WorkspaceItem> {
    members.map_values(
        |m: SequenceMember|
            WorkspaceItem { id: m.id, content_revision: 0, content: SidebarItem::Image(m.image) },
    )
}

/// A reference to the group points at its first member instead.
pub open spec fn to_first(reference: Option<WorkspaceId>, group: WorkspaceId, members: Seq<SequenceMember>) -> Option<
    WorkspaceId,
> {
    if reference == Some(group) && members.len() > 0 {
        Some(members[0].id)
    } else {
        reference
    }
}

impl ViewerState {
    /// Dissolves a group without touching references: its record goes, and
    /// its entry is replaced by its members in order. Returns the member ids.
    /// None when there is no group record for the id, or (the record being
    /// dropped) no entry for it.
    pub fn dissolve_group(&mut self, group_id: WorkspaceId) -> (r: Option<Vec<WorkspaceId>>)
        requires
            old(self).wf(),
        ensures
            final(self).wf(),
            same_settings(*final(self), *old(self)),
            crate::workspace::same_selection_cache(*final(self), *old(self)),
            same_diff_cache(*final(self), *old(self)),
            final(self).next_workspace_id == old(self).next_workspace_id,
            crate::workspace::same_selection(*final(self), *old(self)),
            crate::workspace::group_position(*old(self), group_id) is None ==> r is None && *final(self)
                == *old(self),
            crate::workspace::group_position(*old(self), group_id) matches Some(gp) ==> ({
                let group = old(self).sequence_groups@[gp].1;
                &&& final(self).sequence_groups@ == old(self).sequence_groups@.remove(gp)
                &&& r is Some == crate::workspace::has_item(*old(self), group_id)
                &&& r is None ==> final(self).items@ == old(self).items@ && crate::workspace::same_selection(
                    *final(self),
                    *old(self),
                )
                &&& r matches Some(ids) ==> ({
                    let p = crate::workspace::position(*old(self), group_id)->0;
                    &&& ids@ == member_ids(group)
                    &&& final(self).items@ == old(self).items@.take(p) + restored_items(group.members@)
                        + old(self).items@.skip(p + 1)
                })
            }),
    {
        let gp = match self.group_index(group_id) {
            Some(gp) => gp,
            None => {
                return None;
            },
        };
        let ghost start = *self;
        let (_, group) = self.sequence_groups.remove(gp);
        proof {
            crate::workspace::lemma_grouped_remove(start.sequence_groups@, gp as int);
            lemma_record_removed_wf(start, *self, gp as int);
        }
        let index = match self.index_of(group_id) {
            Some(i) => i,
            None => {
                return None;
            },
        };
        let ghost mid = *self;
        let _entry = self.items.remove(index);
        let mut ids: Vec<WorkspaceId> = Vec::new();
        let mut k: usize = 0;
        while k < group.members.len()
            invariant
                k <= group.members@.len(),
                ids@.len() == k,
                forall|t: int| 0 <= t < k ==> ids@[t] == group.members@[t].id,
            decreases group.members@.len() - k,
        {
            ids.push(group.members[k].id);
            k += 1;
        }
        assert(ids@ =~= member_ids(group));
        let ghost all = group.members@;
        let mut members = group.members;
        let mut items: Vec<WorkspaceItem> = Vec::new();
        std::mem::swap(&mut items, &mut self.items);
        let ghost frozen = *self;
        let mut at = index;
        let ghost mut n: int = 0;
        while members.len() > 0
            invariant
                *self == frozen,
                0 <= n <= all.len(),
                members@ == all.skip(n),
                at == index + n,
                index < mid.items@.len(),
                items@ == mid.items@.take(index as int) + restored_items(all.take(n))
                    + mid.items@.skip(index + 1),
            decreases members@.len(),
        {
            let member = members.remove(0);
            assert(member == all[n]);
            let entry = WorkspaceItem { id: member.id, content_revision: 0, content: SidebarItem::Image(member.image) };
            assert(at <= items@.len());
            items.insert(at, entry);
            proof {
                assert(all.take(n + 1) == all.take(n).push(all[n]));
                assert(restored_items(all.take(n + 1)) =~= restored_items(all.take(n)).push(entry));
                assert(items@ =~= mid.items@.take(index as int) + restored_items(all.take(n + 1))
                    + mid.items@.skip(index + 1));
                assert(members@ =~= all.skip(n + 1));
                n = n + 1;
            }
            let len = items.len();
            assert(at < len);
            at = at + 1;
        }
        self.items = items;
        assert(all.take(n) == all);
        proof {
            lemma_ungroup_wf(start, mid, *self, gp as int, index as int);
        }
        Some(ids)
    }

    /// Dissolves a group: its record goes, and its entry is replaced by its
    /// members in order. The selected, hovered and diff references to the
    /// group move to its first member. Returns the member ids. None when
    /// there is no group record for the id, or (the record being dropped)
    /// no entry for it.
    pub fn ungroup_members(&mut self, group_id: WorkspaceId) -> (r: Option<Vec<WorkspaceId>>)
        requires
            old(self).wf(),
        ensures
            final(self).wf(),
            same_settings(*final(self), *old(self)),
            crate::workspace::same_selection_cache(*final(self), *old(self)),
            same_diff_cache(*final(self), *old(self)),
            final(self).next_workspace_id == old(self).next_workspace_id,
            crate::workspace::group_position(*old(self), group_id) is None ==> r is None && *final(self)
                == *old(self),
            crate::workspace::group_position(*old(self), group_id) matches Some(gp) ==> ({
                let group = old(self).sequence_groups@[gp].1;
                &&& final(self).sequence_groups@ == old(self).sequence_groups@.remove(gp)
                &&& r is Some == crate::workspace::has_item(*old(self), group_id)
                &&& r is None ==> final(self).items@ == old(self).items@ && crate::workspace::same_selection(
                    *final(self),
                    *old(self),
                )
                &&& r matches Some(ids) ==> ({
                    let p = crate::workspace::position(*old(self), group_id)->0;
                    &&& ids@ == member_ids(group)
                    &&& final(self).items@ == old(self).items@.take(p) + restored_items(group.members@)
                        + old(self).items@.skip(p + 1)
                    &&& final(self).selected_id == to_first(old(self).selected_id, group_id, group.members@)
                    &&& final(self).primary_target == if old(self).selected_id == Some(group_id)
                        && group.members@.len() > 0 {
                        Some(SelectionTarget::Entry(group.members@[0].id))
                    } else {
                        old(self).primary_target
                    }
                    &&& final(self).hovered_id == to_first(old(self).hovered_id, group_id, group.members@)
                    &&& final(self).diff_image1_id == to_first(
                        old(self).diff_image1_id,
                        group_id,
                        group.members@,
                    )
                    &&& final(self).diff_image2_id == to_first(
                        old(self).diff_image2_id,
                        group_id,
                        group.members@,
                    )
                    &&& final(self).selected_ids@ == old(self).selected_ids@
                    &&& final(self).focused_id == old(self).focused_id
                    &&& final(self).range_anchor == old(self).range_anchor
                    &&& final(self).list_focus == old(self).list_focus
                })
            }),
    {
        let ghost start = *self;
        let ids = match self.dissolve_group(group_id) {
            Some(ids) => ids,
            None => {
                return None;
            },
        };
        if ids.len() > 0 {
            let first = ids[0];
            if points_at_id(self.selected_id, group_id) {
                self.selected_id = Some(first);
                self.primary_target = Some(SelectionTarget::Entry(first));
            }
            if points_at_id(self.hovered_id, group_id) {
                self.hovered_id = Some(first);
            }
            if points_at_id(self.diff_image1_id, group_id) {
                self.diff_image1_id = Some(first);
            }
            if points_at_id(self.diff_image2_id, group_id) {
                self.diff_image2_id = Some(first);
            }
        }
        Some(ids)
    }

    /// Dissolves a group and selects its first member.
    pub fn ungroup(&mut self, group_id: WorkspaceId) -> (done: bool)
        requires
            old(self).wf(),
        ensures
            final(self).wf(),
            done == (crate::workspace::group_position(*old(self), group_id) is Some
                && crate::workspace::has_item(*old(self), group_id)),
            crate::workspace::group_position(*old(self), group_id) is None ==> *final(self) == *old(
                self,
            ),
            done ==> ({
                let gp = crate::workspace::group_position(*old(self), group_id)->0;
                let group = old(self).sequence_groups@[gp].1;
                let p = crate::workspace::position(*old(self), group_id)->0;
                &&& final(self).sequence_groups@ == old(self).sequence_groups@.remove(gp)
                &&& final(self).items@ == old(self).items@.take(p) + restored_items(group.members@)
                    + old(self).items@.skip(p + 1)
                &&& group.members@.len() > 0 ==> final(self).selected_id == Some(group.members@[0].id)
                    && final(self).selected_ids@ == seq![group.members@[0].id]
            }),
    {
        let ids = match self.ungroup_members(group_id) {
            Some(ids) => ids,
            None => {
                return false;
            },
        };
        if ids.len() > 0 {
            let first = ids[0];
            let ghost before = *self;
            proof {
                let p = crate::workspace::position(*old(self), group_id)->0;
                let gp = crate::workspace::group_position(*old(self), group_id)->0;
                let members = old(self).sequence_groups@[gp].1.members@;
                assert(self.items@[p] == restored_items(members)[0]);
                assert(item_ids(self.items@)[p] == first);
            }
            self.select(first);
        }
        true
    }
}

/// Whether an optional reference points at the id.
fn points_at_id(reference: Option<WorkspaceId>, id: WorkspaceId) -> (b: bool)
    ensures
        b == (reference == Some(id)),
{
    crate::workspace::points_at(reference, id)
}

/// Dropping a group record keeps the workspace well formed.
proof fn lemma_record_removed_wf(s: ViewerState, t: ViewerState, gp: int)
    requires
        s.wf(),
        0 <= gp < s.sequence_groups@.len(),
        t.sequence_groups@ == s.sequence_groups@.remove(gp),
        t.items@ == s.items@,
        t.next_workspace_id == s.next_workspace_id,
        t.selected_ids@ == s.selected_ids@,
    ensures
        t.wf(),
{
    crate::workspace::lemma_grouped_remove(s.sequence_groups@, gp);
    crate::seq_facts::lemma_remove_contains(group_keys(s.sequence_groups@), gp);
    assert forall|k: int| 0 <= k < t.sequence_groups@.len() implies (
    #[trigger] t.sequence_groups@[k]).0.0 < t.next_workspace_id by {
        let j = if k < gp {
            k
        } else {
            k + 1
        };
        assert(t.sequence_groups@[k] == s.sequence_groups@[j]);
    }
    assert forall|a: int, m: int|
        0 <= a < t.sequence_groups@.len() && 0 <= m < t.sequence_groups@[a].1.members@.len() implies frame_path_ok(
        #[trigger] t.sequence_groups@[a].1.members@[m].image.path@,
    ) by {
        let j = if a < gp {
            a
        } else {
            a + 1
        };
        assert(t.sequence_groups@[a] == s.sequence_groups@[j]);
    }
    assert forall|x: WorkspaceId| #[trigger]
        grouped_ids(t.sequence_groups@).contains(x) implies x.0 < t.next_workspace_id by {
        assert(grouped_ids(s.sequence_groups@).contains(x));
    }
    assert(disjoint(item_ids(t.items@), grouped_ids(t.sequence_groups@)));
    assert forall|i: int| 0 <= i < t.items@.len() implies content_ok(#[trigger] t.items@[i].content) by {
        assert(t.items@[i] == s.items@[i]);
    }
}

/// Putting the members of a dropped group record in place of its entry keeps
/// the workspace well formed.
proof fn lemma_ungroup_wf(s: ViewerState, mid: ViewerState, t: ViewerState, gp: int, p: int)
    requires
        s.wf(),
        0 <= gp < s.sequence_groups@.len(),
        mid.sequence_groups@ == s.sequence_groups@.remove(gp),
        mid.items@ == s.items@,
        mid.next_workspace_id == s.next_workspace_id,
        mid.selected_ids@ == s.selected_ids@,
        0 <= p < s.items@.len(),
        s.items@[p].id == s.sequence_groups@[gp].0,
        t.items@ == s.items@.take(p) + restored_items(s.sequence_groups@[gp].1.members@) + s.items@.skip(
            p + 1,
        ),
        t.sequence_groups@ == mid.sequence_groups@,
        t.next_workspace_id == s.next_workspace_id,
        t.selected_ids@ == s.selected_ids@,
    ensures
        t.wf(),
{
    let group = s.sequence_groups@[gp].1;
    let ids = item_ids(s.items@);
    let restored = restored_items(group.members@);
    crate::workspace::lemma_grouped_remove(s.sequence_groups@, gp);
    lemma_record_removed_wf(s, mid, gp);
    assert(item_ids(restored) =~= member_ids(group));
    assert(item_ids(t.items@) =~= ids.take(p) + member_ids(group) + ids.skip(p + 1));
    assert forall|y: WorkspaceId| !(ids.contains(y) && member_ids(group).contains(y)) by {
        if member_ids(group).contains(y) {
            assert(grouped_ids(s.sequence_groups@).contains(y));
        }
    }
    lemma_splice_ids(ids, p, member_ids(group));
    assert forall|y: WorkspaceId| #[trigger] item_ids(t.items@).contains(y) implies y.0
        < t.next_workspace_id by {
        if member_ids(group).contains(y) {
            assert(grouped_ids(s.sequence_groups@).contains(y));
        }
    }
    assert(disjoint(item_ids(t.items@), grouped_ids(t.sequence_groups@)));
    assert forall|i: int| 0 <= i < t.items@.len() implies content_ok(#[trigger] t.items@[i].content) by {
        if i < p {
            assert(t.items@[i] == s.items@[i]);
        } else if i < p + restored.len() {
            let m = i - p;
            assert(t.items@[i] == restored[m]);
            assert(frame_path_ok(s.sequence_groups@[gp].1.members@[m].image.path@));
        } else {
            assert(t.items@[i] == s.items@[i - restored.len() + 1]);
        }
    }
}


/// Grouping a run of entries that stand next to each other and dissolving
/// the group again gives back the entries as they were, when they had not
/// been edited in place: `grouped` is any sidebar that has the group entry at
/// the place of the run and the other entries around it, as `group_images`
/// leaves it, and the result is what `ungroup` makes of it.
pub proof fn lemma_group_then_ungroup_restores(
    items: Seq<WorkspaceItem>,
    ids: Seq<WorkspaceId>,
    at: int,
    n: int,
    grouped: Seq<WorkspaceItem>,
)
    requires
        0 <= at,
        0 <= n,
        at + n <= items.len(),
        forall|j: int| 0 <= j < items.len() ==> (ids.contains(#[trigger] items[j].id) <==> at <= j < at + n),
        forall|j: int| at <= j < at + n ==> single_image(#[trigger] items[j]),
        forall|j: int| at <= j < at + n ==> (#[trigger] items[j]).content_revision == 0,
        at < grouped.len(),
        grouped.remove(at) == pick_items(items, ids, false),
    ensures
        grouped.take(at) + restored_items(members_of(pick_items(items, ids, true))) + grouped.skip(at + 1)
            == items,
{
    lemma_pick_run(items, ids, at, n);
    let chosen = pick_items(items, ids, true);
    let kept = pick_items(items, ids, false);
    assert(chosen == items.subrange(at, at + n));
    assert(kept == items.take(at) + items.skip(at + n));
    assert(grouped.take(at) =~= kept.take(at));
    assert(grouped.skip(at + 1) =~= kept.skip(at));
    assert forall|k: int| 0 <= k < chosen.len() implies restored_items(members_of(chosen))[k]
        == chosen[k] by {
        assert(chosen[k] == items[at + k]);
        assert(single_image(items[at + k]));
        assert(items[at + k].content_revision == 0);
    }
    assert(restored_items(members_of(chosen)) =~= chosen);
    assert(grouped.take(at) + restored_items(members_of(chosen)) + grouped.skip(at + 1) =~= items);
}

/// Picking the entries of a run picks the run; leaving them out leaves what is
/// around it.
proof fn lemma_pick_run(items: Seq<WorkspaceItem>, ids: Seq<WorkspaceId>, at: int, n: int)
    requires
        0 <= at,
        0 <= n,
        at + n <= items.len(),
        forall|j: int| 0 <= j < items.len() ==> (ids.contains(#[trigger] items[j].id) <==> at <= j < at + n),
    ensures
        pick_items(items, ids, true) == items.subrange(at, at + n),
        pick_items(items, ids, false) == items.take(at) + items.skip(at + n),
    decreases items.len(),
{
    if items.len() == 0 {
    } else {
        let init = items.drop_last();
        let last = items.last();
        if items.len() > at + n {
            lemma_pick_run(init, ids, at, n);
            assert(!ids.contains(last.id));
            assert(init.subrange(at, at + n) =~= items.subrange(at, at + n));
            assert((init.take(at) + init.skip(at + n)).push(last) =~= items.take(at) + items.skip(at + n));
        } else if n > 0 {
            lemma_pick_run(init, ids, at, n - 1);
            assert(ids.contains(last.id));
            assert(init.subrange(at, at + n - 1).push(last) =~= items.subrange(at, at + n));
            assert(init.take(at) + init.skip(at + n - 1) =~= items.take(at) + items.skip(at + n));
        } else {
            assert(items.len() == at);
            lemma_pick_run(init, ids, at - 1, 0);
            assert(!ids.contains(last.id));
            assert(init.subrange(at - 1, at - 1) =~= items.subrange(at, at));
            assert((init.take(at - 1) + init.skip(at - 1)).push(last) =~= items.take(at) + items.skip(at));
        }
    }
}


/// The member an entry with the id becomes, from the entry as it is now.
pub open spec fn member_for(s: ViewerState, id: WorkspaceId) -> SequenceMember {
    member_of(s.items@[crate::workspace::position(s, id)->0])
}

/// Whether every id is a single-frame image entry.
pub open spec fn all_single_images(s: ViewerState, ids: Seq<WorkspaceId>) -> bool {
    forall|k: int|
        0 <= k < ids.len() ==> crate::workspace::has_item(s, #[trigger] ids[k]) && single_image(
            s.items@[crate::workspace::position(s, ids[k])->0],
        )
}

impl ViewerState {
    /// Checks that the ids are distinct single-frame image entries.
    fn single_images(&self, ids: &[WorkspaceId]) -> (b: bool)
        requires
            self.wf(),
        ensures
            b == (ids@.no_duplicates() && all_single_images(*self, ids@)),
    {
        if !distinct_ids(ids) {
            return false;
        }
        let mut k: usize = 0;
        while k < ids.len()
            invariant
                self.wf(),
                k <= ids@.len(),
                forall|t: int|
                    0 <= t < k ==> crate::workspace::has_item(*self, #[trigger] ids@[t]) && single_image(
                        self.items@[crate::workspace::position(*self, ids@[t])->0],
                    ),
            decreases ids@.len() - k,
        {
            match self.index_of(ids[k]) {
                Some(p) => {
                    match &self.items[p].content {
                        SidebarItem::Image(image) => {
                            if image.frame_count() != 1 {
                                return false;
                            }
                        },
                        SidebarItem::Glyph(_) => {
                            return false;
                        },
                    }
                },
                None => {
                    return false;
                },
            }
            k += 1;
        }
        true
    }

    /// Makes a group of the entries with these ids (distinct single-frame
    /// images), with members in the order of the ids: the entries leave the
    /// sidebar, the group entry takes the place of the entry of the first id
    /// under a new id, the other entries keep their order, and references to
    /// the members move to the group. The group plays as `playback` says, else
    /// from its first member. None, with no change, when an id is not such an
    /// entry, an id repeats, or there are fewer than two.
    pub fn form_group(&mut self, ids: &[WorkspaceId], playback: Option<GroupPlayback>, automatic: bool) -> (r:
        Option<WorkspaceId>)
        requires
            old(self).wf(),
            old(self).next_workspace_id < u64::MAX,
        ensures
            final(self).wf(),
            r is Some == (ids@.len() >= 2 && ids@.no_duplicates() && all_single_images(*old(self), ids@)),
            r is None ==> *final(self) == *old(self),
            r matches Some(g) ==> ({
                let group = final(self).sequence_groups@.last().1;
                &&& g.0 == old(self).next_workspace_id
                &&& final(self).next_workspace_id == old(self).next_workspace_id + 1
                &&& final(self).sequence_groups@.len() == old(self).sequence_groups@.len() + 1
                &&& final(self).sequence_groups@.drop_last() == old(self).sequence_groups@
                &&& final(self).sequence_groups@.last().0 == g
                &&& group.automatic == automatic
                &&& member_ids(group) == ids@
                &&& forall|k: int| 0 <= k < ids@.len() ==> group.members@[k] == member_for(*old(self), #[trigger] ids@[k])
                &&& group.label@ == label_spec(group.members@)
                &&& forall|x: WorkspaceId| #[trigger] item_ids(final(self).items@).contains(x) <==> (
                    item_ids(old(self).items@).contains(x) && !ids@.contains(x)) || x == g
                &&& crate::workspace::has_item(*final(self), g)
                &&& final(self).items@.remove(crate::workspace::position(*final(self), g)->0) == pick_items(
                    old(self).items@,
                    ids@,
                    false,
                )
                &&& crate::workspace::position(*final(self), g)->0 == pick_items(
                    old(self).items@.take(crate::workspace::position(*old(self), ids@[0])->0),
                    ids@,
                    false,
                ).len()
                &&& final(self).items@[crate::workspace::position(*final(self), g)->0].content_revision == 0
                &&& final(self).items@[crate::workspace::position(*final(self), g)->0].content matches SidebarItem::Image(
                    image,
                ) && group_image_spec(
                    image,
                    group.members@,
                    group.label@,
                    match playback {
                        Some(p) => p,
                        None => GroupPlayback {
                            current_member: Some(ids@[0]),
                            autoplay: true,
                            expanded: false,
                        },
                    },
                )
                &&& final(self).selected_ids@.to_set() == remapped_set(old(self).selected_ids@.to_set(), ids@, g)
                &&& final(self).focused_id == remapped(old(self).focused_id, ids@, g)
                &&& final(self).range_anchor == remapped(old(self).range_anchor, ids@, g)
                &&& final(self).selected_id == remapped(old(self).selected_id, ids@, g)
                &&& final(self).hovered_id == remapped(old(self).hovered_id, ids@, g)
                &&& final(self).diff_image1_id == remapped(old(self).diff_image1_id, ids@, g)
                &&& final(self).diff_image2_id == remapped(old(self).diff_image2_id, ids@, g)
                &&& final(self).primary_target == old(self).primary_target
                &&& final(self).list_focus == old(self).list_focus
            }),
            same_settings(*final(self), *old(self)),
            crate::workspace::same_selection_cache(*final(self), *old(self)),
            same_diff_cache(*final(self), *old(self)),
    {
        if ids.len() < 2 || !self.single_images(ids) {
            return None;
        }
        let ghost start = *self;
        let ghost first = crate::workspace::position(start, ids@[0])->0;
        proof {
            crate::workspace::lemma_items_distinct(start);
            crate::workspace::lemma_position(start, ids@[0]);
            assert(crate::workspace::has_item(start, ids@[0]));
        }
        // Split the entries into those that stay, in sidebar order, and the
        // chosen ones; the group takes the place of the first member.
        let mut rest: Vec<WorkspaceItem> = Vec::new();
        std::mem::swap(&mut rest, &mut self.items);
        let ghost frozen = *self;
        let mut kept: Vec<WorkspaceItem> = Vec::new();
        let mut chosen: Vec<WorkspaceItem> = Vec::new();
        let mut at: usize = 0;
        let ghost mut j: int = 0;
        while rest.len() > 0
            invariant
                *self == frozen,
                start.wf(),
                ids@.len() >= 2,
                0 <= first < start.items@.len(),
                start.items@[first].id == ids@[0],
                0 <= j <= start.items@.len(),
                rest@ == start.items@.skip(j),
                kept@ == pick_items(start.items@.take(j), ids@, false),
                chosen@ == pick_items(start.items@.take(j), ids@, true),
                j > first ==> at == pick_items(start.items@.take(first), ids@, false).len(),
                forall|a: int, b: int|
                    0 <= a < start.items@.len() && 0 <= b < start.items@.len() && a != b ==> start.items@[a].id
                        != start.items@[b].id,
            decreases rest@.len(),
        {
            let item = rest.remove(0);
            assert(item == start.items@[j]);
            assert(start.items@.take(j + 1).drop_last() == start.items@.take(j));
            assert(start.items@.take(j + 1).last() == start.items@[j]);
            if item.id.0 == ids[0].0 {
                assert(j == first);
                at = kept.len();
            }
            if slice_contains(ids, item.id) {
                chosen.push(item);
            } else {
                kept.push(item);
            }
            proof {
                j = j + 1;
            }
        }
        assert(start.items@.take(j) == start.items@);
        assert(at <= kept@.len()) by {
            lemma_pick_prefix(start.items@, ids@, false, first);
        }
        let mut members: Vec<SequenceMember> = Vec::new();
        let mut k: usize = 0;
        proof {
            lemma_pick_items(start.items@, ids@, true);
            crate::workspace::lemma_items_distinct(start);
            assert(item_ids(start.items@).no_duplicates());
        }
        while k < ids.len()
            invariant
                *self == frozen,
                start.wf(),
                k <= ids@.len(),
                ids@.len() >= 2,
                ids@.no_duplicates(),
                all_single_images(start, ids@),
                item_ids(chosen@).no_duplicates(),
                forall|x: WorkspaceId| #[trigger]
                    item_ids(chosen@).contains(x) <==> item_ids(start.items@).contains(x) && ids@.contains(x)
                        && !ids@.take(k as int).contains(x),
                forall|i: int| 0 <= i < chosen@.len() ==> start.items@.contains(#[trigger] chosen@[i]),
                members@.len() == k,
                forall|t: int| 0 <= t < k ==> members@[t] == member_for(start, #[trigger] ids@[t]),
            decreases ids@.len() - k,
        {
            let id = ids[k];
            let ghost p_start = crate::workspace::position(start, id)->0;
            assert(crate::workspace::has_item(start, ids@[k as int]));
            proof {
                crate::workspace::lemma_position(start, id);
            }
            assert(single_image(start.items@[p_start]));
            assert(!ids@.take(k as int).contains(id)) by {
                if ids@.take(k as int).contains(id) {
                    let t = choose|t: int| 0 <= t < k && ids@.take(k as int)[t] == id;
                    assert(ids@[t] == ids@[k as int]);
                }
            }
            assert(item_ids(chosen@).contains(id)) by {
                assert(item_ids(start.items@)[p_start] == id);
                assert(ids@[k as int] == id);
            }
            let mut p: usize = 0;
            while p < chosen.len() && chosen[p].id.0 != id.0
                invariant
                    p <= chosen@.len(),
                    forall|q: int| 0 <= q < p ==> chosen@[q].id != id,
                decreases chosen@.len() - p,
            {
                p += 1;
            }
            if p == chosen.len() {
                proof {
                    let q = choose|q: int| 0 <= q < item_ids(chosen@).len() && item_ids(chosen@)[q] == id;
                    assert(chosen@[q].id == id);
                }
            }
            assert(p < chosen@.len());
            let ghost before = chosen@;
            let item = chosen.remove(p);
            proof {
                assert(item_ids(chosen@) =~= item_ids(before).remove(p as int));
                crate::seq_facts::lemma_remove_contains(item_ids(before), p as int);
                assert(item_ids(before)[p as int] == id);
                assert(start.items@.contains(item));
                let w = choose|w: int| 0 <= w < start.items@.len() && start.items@[w] == item;
                assert(item_ids(start.items@)[w] == id);
                assert(w == p_start);
                assert(ids@.take(k + 1) == ids@.take(k as int).push(id));
                assert forall|x: WorkspaceId| ids@.take(k + 1).contains(x) <==> ids@.take(k as int).contains(x) || x == id by {
                    assert(ids@.take(k as int).push(id) =~= ids@.take(k as int).insert(k as int, id));
                    lemma_insert_contains(ids@.take(k as int), k as int, id);
                }
                assert forall|i: int| 0 <= i < chosen@.len() implies start.items@.contains(#[trigger] chosen@[i]) by {
                    if i < p {
                        assert(chosen@[i] == before[i]);
                    } else {
                        assert(chosen@[i] == before[i + 1]);
                    }
                }
            }
            let member_id = item.id;
            match item.content {
                SidebarItem::Image(image) => {
                    assert(content_ok(start.items@[p_start].content));
                    let digits = sequence_digits(image.path.as_str());
                    let member = SequenceMember {
                        id: member_id,
                        image,
                        sequence_number: match digits {
                            Some((n, _)) => Some(n),
                            None => None,
                        },
                        digit_width: match digits {
                            Some((_, w)) => w,
                            None => 0,
                        },
                    };
                    assert(member == member_for(start, id));
                    members.push(member);
                },
                SidebarItem::Glyph(_) => {
                    assert(false);
                },
            }
            k += 1;
        }
        assert(ids@.take(ids@.len() as int) == ids@);
        let label = sequence_label(members.as_slice());
        let play = match playback {
            Some(p) => p,
            None => GroupPlayback { current_member: Some(ids[0]), autoplay: true, expanded: false },
        };
        let image = match sequence_image(members.as_slice(), label.as_str(), play) {
            Some(image) => image,
            None => {
                proof {
                    assert(false);
                }
                return None;
            },
        };
        let g = allocate_id(&mut self.next_workspace_id);
        let ghost rest_view = kept@;
        self.items = kept;
        self.remap_group_references(ids, g);
        let group = SequenceGroup { label, members, automatic };
        let ghost group_view = group;
        self.sequence_groups.push((g, group));
        let entry = WorkspaceItem { id: g, content_revision: 0, content: SidebarItem::Image(image) };
        self.items.insert(at, entry);
        proof {
            lemma_pick_items(start.items@, ids@, false);
            assert(self.items@.remove(at as int) =~= rest_view);
            assert(item_ids(self.items@) =~= item_ids(rest_view).insert(at as int, g));
            lemma_insert_contains(item_ids(rest_view), at as int, g);
            assert forall|x: WorkspaceId| ids@.contains(x) implies item_ids(start.items@).contains(x) by {
                let t = choose|t: int| 0 <= t < ids@.len() && ids@[t] == x;
                assert(crate::workspace::has_item(start, ids@[t]));
            }
            assert forall|m: int| 0 <= m < group_view.members@.len() implies frame_path_ok(
                #[trigger] group_view.members@[m].image.path@,
            ) by {
                let id = ids@[m];
                crate::workspace::lemma_position(start, id);
                assert(crate::workspace::has_item(start, ids@[m]));
                let p = crate::workspace::position(start, id)->0;
                assert(single_image(start.items@[p]));
                assert(content_ok(start.items@[p].content));
            }
            assert(member_ids(group_view) =~= ids@);
            lemma_form_group_wf(start, *self, ids@, at as int, group_view);
            assert(item_ids(self.items@)[at as int] == g);
            crate::workspace::lemma_items_distinct(*self);
            assert(crate::workspace::position(*self, g) == Some(at as int));
        }
        Some(g)
    }
}

/// Forming a group keeps the workspace well formed.
proof fn lemma_form_group_wf(s: ViewerState, t: ViewerState, ids: Seq<WorkspaceId>, at: int, group: SequenceGroup)
    requires
        s.wf(),
        0 <= at < t.items@.len(),
        t.next_workspace_id == s.next_workspace_id + 1,
        t.items@[at].id.0 == s.next_workspace_id,
        !(t.items@[at].content matches SidebarItem::Image(image) && frame_count_of(image.frames) == 1),
        item_ids(t.items@.remove(at)).no_duplicates(),
        forall|x: WorkspaceId| #[trigger]
            item_ids(t.items@.remove(at)).contains(x) <==> item_ids(s.items@).contains(x) && !ids.contains(x),
        forall|i: int| 0 <= i < t.items@.remove(at).len() ==> s.items@.contains(#[trigger] t.items@.remove(at)[i]),
        t.sequence_groups@ == s.sequence_groups@.push((t.items@[at].id, group)),
        member_ids(group) == ids,
        forall|x: WorkspaceId| ids.contains(x) ==> item_ids(s.items@).contains(x),
        ids.no_duplicates(),
        forall|k: int| 0 <= k < group.members@.len() ==> frame_path_ok(#[trigger] group.members@[k].image.path@),
        ascending(t.selected_ids@),
    ensures
        t.wf(),
{
    let g = t.items@[at].id;
    let rest = t.items@.remove(at);
    assert(t.items@ == rest.insert(at, t.items@[at]));
    assert(item_ids(t.items@) =~= item_ids(rest).insert(at, g));
    assert(!item_ids(rest).contains(g));
    lemma_insert_contains(item_ids(rest), at, g);
    lemma_insert_no_dup(item_ids(rest), at, g);
    let old_grouped = grouped_ids(s.sequence_groups@);
    assert(t.sequence_groups@.drop_last() == s.sequence_groups@);
    assert(grouped_ids(t.sequence_groups@) == old_grouped + ids);
    lemma_concat_no_dup(old_grouped, ids);
    assert(disjoint(old_grouped, ids));
    assert(disjoint(item_ids(t.items@), grouped_ids(t.sequence_groups@)));
    assert forall|x: WorkspaceId| #[trigger] item_ids(t.items@).contains(x) implies x.0
        < t.next_workspace_id by {}
    assert forall|x: WorkspaceId| #[trigger] grouped_ids(t.sequence_groups@).contains(x) implies x.0
        < t.next_workspace_id by {}
    assert(group_keys(t.sequence_groups@) =~= group_keys(s.sequence_groups@).push(g));
    assert(!group_keys(s.sequence_groups@).contains(g)) by {
        if group_keys(s.sequence_groups@).contains(g) {
            let k = choose|k: int|
                0 <= k < group_keys(s.sequence_groups@).len() && group_keys(s.sequence_groups@)[k] == g;
            assert(s.sequence_groups@[k].0 == g);
        }
    }
    assert(group_keys(s.sequence_groups@).push(g) =~= group_keys(s.sequence_groups@).insert(
        group_keys(s.sequence_groups@).len() as int,
        g,
    ));
    lemma_insert_no_dup(group_keys(s.sequence_groups@), group_keys(s.sequence_groups@).len() as int, g);
    assert forall|k: int| 0 <= k < t.sequence_groups@.len() implies (
    #[trigger] t.sequence_groups@[k]).0.0 < t.next_workspace_id by {
        if k < s.sequence_groups@.len() {
            assert(t.sequence_groups@[k] == s.sequence_groups@[k]);
        }
    }
    assert forall|i: int| 0 <= i < t.items@.len() implies content_ok(#[trigger] t.items@[i].content) by {
        if i != at {
            let q = if i < at {
                i
            } else {
                i - 1
            };
            assert(t.items@[i] == rest[q]);
            assert(s.items@.contains(rest[q]));
            let w = choose|w: int| 0 <= w < s.items@.len() && s.items@[w] == rest[q];
            assert(content_ok(s.items@[w].content));
        }
    }
    assert forall|a: int, m: int|
        0 <= a < t.sequence_groups@.len() && 0 <= m < t.sequence_groups@[a].1.members@.len() implies frame_path_ok(
        #[trigger] t.sequence_groups@[a].1.members@[m].image.path@,
    ) by {
        if a < s.sequence_groups@.len() {
            assert(t.sequence_groups@[a] == s.sequence_groups@[a]);
        } else {
            assert(t.sequence_groups@[a].1 == group);
        }
    }
}

} // verus!
