//! Operations on single entries of the workspace: removing the selection,
//! adding a glyph, naming groups, picking frames, changing frame timing, and
//! copying images out for export.
use crate::fmt::push_decimal;
use crate::glyph::OpenedGlyph;
use crate::grouping::{groupable, remapped_set, slice_contains};
use crate::idset::ascending;
use crate::image_item::{Frame, FrameSource, ImageInfo, ImageItem, frame_count_of};
use crate::text::{str_to_chars, string_from_chars, trim, trim_bounds};
use crate::workspace::{
    SelectionTarget, SidebarItem, ViewerState, WorkspaceId, WorkspaceItem, content_ok, frame_path_ok,
    group_position, has_item, item_ids, position, same_diff_cache, same_selection,
    same_selection_cache, same_settings, same_workspace, selected_alone, selection_cache_cleared,
};
use vstd::prelude::*;

verus! {

/// Two frames hold the same pixels, size, placement and delay.
pub open spec fn same_frame(a: Frame, b: Frame) -> bool {
    &&& a.pixels@ == b.pixels@
    &&& a.width == b.width
    &&& a.height == b.height
    &&& a.left == b.left
    &&& a.top == b.top
    &&& a.delay == b.delay
}

/// The name of the `k`-th frame of an animated image as a still picture.
pub open spec fn snapshot_name(image: ImageItem, k: int) -> Seq<char> {
    image.path@ + seq!['#'] + crate::fmt::decimal((k + 1) as nat)
}

/// Whether `snap` is the `k`-th frame of the animated image as a still
/// picture under its own name.
pub open spec fn frame_snapshot(image: ImageItem, k: int, snap: ImageItem) -> bool {
    image.frames matches FrameSource::Animated { frames, .. } && {
        &&& snap.path@ == snapshot_name(image, k)
        &&& snap.info.width == image.info.width
        &&& snap.info.height == image.info.height
        &&& snap.info.data_size == image.info.data_size
        &&& snap.info.format@ == image.info.format@
        &&& snap.width == frames@[k].width
        &&& snap.height == frames@[k].height
        &&& snap.frames matches FrameSource::Single { pixels, width, height } && pixels@ == frames@[k].pixels@
            && width == frames@[k].width && height == frames@[k].height
        &&& snap.midata is None
        &&& !snap.expanded
    }
}

/// Two images are the same picture with the same path, description and
/// playback state.
pub open spec fn same_image(a: ImageItem, b: ImageItem) -> bool {
    &&& a.path@ == b.path@
    &&& a.info.width == b.info.width
    &&& a.info.height == b.info.height
    &&& a.info.data_size == b.info.data_size
    &&& a.info.format@ == b.info.format@
    &&& a.width == b.width
    &&& a.height == b.height
    &&& a.midata == b.midata
    &&& a.expanded == b.expanded
    &&& match (a.frames, b.frames) {
        (
            FrameSource::Single { pixels: p, width: w, height: h },
            FrameSource::Single { pixels: q, width: v, height: g },
        ) => p@ == q@ && w == v && h == g,
        (
            FrameSource::Animated { frames: f, current: c, autoplay: p, last_advance: l },
            FrameSource::Animated { frames: e, current: d, autoplay: q, last_advance: m },
        ) => f@.len() == e@.len() && (forall|k: int| 0 <= k < f@.len() ==> same_frame(#[trigger] f@[k], e@[k]))
            && c == d && p == q && l == m,
        _ => false,
    }
}

/// A copy of a frame.
pub fn copy_frame(frame: &Frame) -> (r: Frame)
    ensures
        same_frame(r, *frame),
{
    Frame {
        pixels: vstd::slice::slice_to_vec(frame.pixels.as_slice()),
        width: frame.width,
        height: frame.height,
        left: frame.left,
        top: frame.top,
        delay: frame.delay,
    }
}

/// A copy of an image.
pub fn copy_image(image: &ImageItem) -> (r: ImageItem)
    ensures
        same_image(r, *image),
{
    let frames = match &image.frames {
        FrameSource::Single { pixels, width, height } => FrameSource::Single {
            pixels: vstd::slice::slice_to_vec(pixels.as_slice()),
            width: *width,
            height: *height,
        },
        FrameSource::Animated { frames, current, autoplay, last_advance } => {
            let mut copied: Vec<Frame> = Vec::new();
            let mut k: usize = 0;
            while k < frames.len()
                invariant
                    k <= frames@.len(),
                    copied@.len() == k,
                    forall|t: int| 0 <= t < k ==> same_frame(#[trigger] copied@[t], frames@[t]),
                decreases frames@.len() - k,
            {
                copied.push(copy_frame(&frames[k]));
                k += 1;
            }
            FrameSource::Animated { frames: copied, current: *current, autoplay: *autoplay, last_advance: *last_advance }
        },
    };
    ImageItem {
        path: image.path.clone(),
        info: ImageInfo {
            width: image.info.width,
            height: image.info.height,
            data_size: image.info.data_size,
            format: image.info.format.clone(),
        },
        width: image.width,
        height: image.height,
        frames,
        midata: image.midata,
        expanded: image.expanded,
    }
}

/// The index of the first entry from the `p`-th on whose id is not among
/// `gone`.
pub open spec fn first_kept_from(items: Seq<WorkspaceItem>, gone: Seq<WorkspaceId>, p: int) -> Option<int>
    decreases items.len() - p,
{
    if p < 0 || p >= items.len() {
        None
    } else if !gone.contains(items[p].id) {
        Some(p)
    } else {
        first_kept_from(items, gone, p + 1)
    }
}

/// The index of the last entry before the `p`-th whose id is not among
/// `gone`.
pub open spec fn last_kept_before(items: Seq<WorkspaceItem>, gone: Seq<WorkspaceId>, p: int) -> Option<int>
    decreases p,
{
    if p <= 0 || p > items.len() {
        None
    } else if !gone.contains(items[p - 1].id) {
        Some(p - 1)
    } else {
        last_kept_before(items, gone, p - 1)
    }
}

/// Where a selection at the `p`-th entry goes when the entries with ids
/// among `gone` leave: to the first remaining entry from it on, else to the
/// last remaining one before it, else nowhere.
pub open spec fn give_way(items: Seq<WorkspaceItem>, gone: Seq<WorkspaceId>, p: int) -> Option<WorkspaceId> {
    match first_kept_from(items, gone, p) {
        Some(i) => Some(items[i].id),
        None => match last_kept_before(items, gone, p) {
            Some(i) => Some(items[i].id),
            None => None,
        },
    }
}

/// A selection that goes nowhere leaves no entry behind.
proof fn lemma_give_way_none(items: Seq<WorkspaceItem>, gone: Seq<WorkspaceId>, p: int)
    requires
        0 <= p < items.len(),
    ensures
        give_way(items, gone, p) is None ==> forall|i: int| 0 <= i < items.len() ==> gone.contains(#[trigger] items[i].id),
{
    if give_way(items, gone, p) is None {
        assert forall|i: int| 0 <= i < items.len() implies gone.contains(#[trigger] items[i].id) by {
            if i >= p {
                lemma_first_kept(items, gone, p, i);
            } else {
                lemma_last_kept(items, gone, p, i);
            }
        }
    }
}

/// With no entry kept from `p` on, every entry from `p` on is gone.
proof fn lemma_first_kept(items: Seq<WorkspaceItem>, gone: Seq<WorkspaceId>, p: int, i: int)
    requires
        0 <= p <= i < items.len(),
        first_kept_from(items, gone, p) is None,
    ensures
        gone.contains(items[i].id),
    decreases i - p,
{
    if p < i {
        lemma_first_kept(items, gone, p + 1, i);
    }
}

/// With no entry kept before `p`, every entry before `p` is gone.
proof fn lemma_last_kept(items: Seq<WorkspaceItem>, gone: Seq<WorkspaceId>, p: int, i: int)
    requires
        0 <= i < p <= items.len(),
        last_kept_before(items, gone, p) is None,
    ensures
        gone.contains(items[i].id),
    decreases p - i,
{
    if i < p - 1 {
        lemma_last_kept(items, gone, p - 1, i);
    }
}

/// Finds where a selection at the `p`-th entry goes when the entries with
/// ids among `gone` leave.
fn give_way_of(items: &Vec<WorkspaceItem>, gone: &Vec<WorkspaceId>, p: usize) -> (r: Option<WorkspaceId>)
    requires
        p < items@.len(),
    ensures
        r == give_way(items@, gone@, p as int),
        r matches Some(t) ==> !gone@.contains(t) && exists|i: int| 0 <= i < items@.len() && items@[i].id == t,
{
    let mut i: usize = p;
    while i < items.len()
        invariant
            p <= i <= items@.len(),
            first_kept_from(items@, gone@, p as int) == first_kept_from(items@, gone@, i as int),
        decreases items@.len() - i,
    {
        if !crate::idset::set_contains(gone, items[i].id) {
            return Some(items[i].id);
        }
        i += 1;
    }
    let mut j: usize = p;
    while j > 0
        invariant
            j <= p,
            p < items@.len(),
            first_kept_from(items@, gone@, p as int) is None,
            last_kept_before(items@, gone@, p as int) == last_kept_before(items@, gone@, j as int),
        decreases j,
    {
        if !crate::idset::set_contains(gone, items[j - 1].id) {
            return Some(items[j - 1].id);
        }
        j -= 1;
    }
    None
}

impl ViewerState {
    /// Removes every selected entry. When the selected entry is among them,
    /// the selection gives way to the first remaining entry after it, else
    /// the last remaining one before it, which then is the whole selection.
    /// Otherwise the selection keeps only entries that remain, and a selected
    /// entry that was already gone gives way to the first entry.
    pub fn remove_selected(&mut self)
        requires
            old(self).wf(),
        ensures
            final(self).wf(),
            forall|x: WorkspaceId| #[trigger]
                item_ids(final(self).items@).contains(x) <==> item_ids(old(self).items@).contains(x)
                    && !old(self).selected_ids@.contains(x),
            forall|k: int|
                0 <= k < final(self).selected_ids@.len() ==> item_ids(final(self).items@).contains(
                    #[trigger] final(self).selected_ids@[k],
                ),
            final(self).selected_id matches Some(s) ==> has_item(*final(self), s),
            (final(self).selected_id is Some) == (old(self).selected_id is Some && final(self).items@.len() > 0),
            match old(self).selected_id {
                Some(s) => if has_item(*old(self), s) && old(self).selected_ids@.contains(s) {
                    &&& final(self).selected_id == give_way(
                        old(self).items@,
                        old(self).selected_ids@,
                        position(*old(self), s)->0,
                    )
                    &&& final(self).selected_ids@ == match final(self).selected_id {
                        Some(t) => seq![t],
                        None => Seq::<WorkspaceId>::empty(),
                    }
                } else if has_item(*old(self), s) {
                    final(self).selected_id == Some(s) && final(self).selected_ids@.len() == 0
                } else {
                    final(self).selected_id == (if final(self).items@.len() > 0 {
                        Some(final(self).items@[0].id)
                    } else {
                        None
                    }) && final(self).selected_ids@.len() == 0
                },
                None => final(self).selected_id is None && final(self).selected_ids@.len() == 0,
            },
            same_settings(*final(self), *old(self)),
    {
        let target: Option<WorkspaceId> = match self.selected_id {
            Some(s) => match self.index_of(s) {
                Some(p) => if crate::idset::set_contains(&self.selected_ids, s) {
                    give_way_of(&self.items, &self.selected_ids, p)
                } else {
                    None
                },
                None => None,
            },
            None => None,
        };
        let gives_way = match self.selected_id {
            Some(s) => self.index_of(s).is_some() && crate::idset::set_contains(&self.selected_ids, s),
            None => false,
        };
        let ids = vstd::slice::slice_to_vec(self.selected_ids.as_slice());
        let ghost start = *self;
        proof {
            match start.selected_id {
                Some(s0) => {
                    if has_item(start, s0) {
                        crate::workspace::lemma_position(start, s0);
                    }
                },
                None => {},
            }
        }
        let mut k: usize = 0;
        while k < ids.len()
            invariant
                self.wf(),
                k <= ids@.len(),
                ids@ == start.selected_ids@,
                forall|x: WorkspaceId| #[trigger]
                    item_ids(self.items@).contains(x) <==> item_ids(start.items@).contains(x)
                        && !ids@.take(k as int).contains(x),
                start.selected_id is None ==> self.selected_id is None,
                start.selected_id is Some && self.items@.len() > 0 ==> self.selected_id is Some,
                same_settings(*self, start),
                !gives_way ==> self.selected_id == start.selected_id,
                !gives_way ==> forall|x: WorkspaceId| #[trigger] self.selected_ids@.contains(x) ==> ids@.contains(x),
                gives_way == (start.selected_id matches Some(s0) && has_item(start, s0) && ids@.contains(s0)),
            decreases ids@.len() - k,
        {
            let ghost before = *self;
            let id = ids[k];
            let removed = self.remove_id(id);
            proof {
                assert(ids@.take(k + 1) == ids@.take(k as int).push(id));
                assert(ids@.take(k as int).push(id) =~= ids@.take(k as int).insert(k as int, id));
                crate::seq_facts::lemma_insert_contains(ids@.take(k as int), k as int, id);
                if removed is Some {
                    let p = position(before, id)->0;
                    crate::workspace::lemma_position(before, id);
                    assert(item_ids(self.items@) =~= item_ids(before.items@).remove(p));
                    crate::seq_facts::lemma_remove_contains(item_ids(before.items@), p);
                    assert(item_ids(before.items@)[p] == id);
                    if !gives_way {
                        if before.selected_id == Some(id) {
                            assert(item_ids(before.items@).contains(id));
                            assert(ids@.contains(id)) by {
                                assert(ids@[k as int] == id);
                            }
                            assert(has_item(start, id));
                        }
                        assert forall|x: WorkspaceId| #[trigger] self.selected_ids@.contains(x) implies ids@.contains(x) by {
                            assert(self.selected_ids@.to_set().contains(x));
                            assert(before.selected_ids@.to_set().contains(x));
                            assert(before.selected_ids@.contains(x));
                        }
                    }
                }
            }
            k += 1;
        }
        assert(ids@.take(ids@.len() as int) == ids@);
        let mut kept: Vec<WorkspaceId> = Vec::new();
        let mut t: usize = 0;
        while t < self.selected_ids.len()
            invariant
                self.wf(),
                t <= self.selected_ids@.len(),
                ascending(kept@),
                forall|a: int| 0 <= a < kept@.len() ==> item_ids(self.items@).contains(#[trigger] kept@[a]),
                forall|a: int| 0 <= a < kept@.len() ==> exists|b: int| 0 <= b < t && #[trigger] kept@[a] == self.selected_ids@[b],
                !gives_way ==> kept@.len() == 0,
                !gives_way ==> forall|x: WorkspaceId| #[trigger] self.selected_ids@.contains(x) ==> ids@.contains(x),
                forall|x: WorkspaceId| #[trigger]
                    item_ids(self.items@).contains(x) ==> !ids@.contains(x),
            decreases self.selected_ids@.len() - t,
        {
            let id = self.selected_ids[t];
            if self.index_of(id).is_some() {
                proof {
                    if !gives_way {
                        assert(self.selected_ids@.contains(id));
                        crate::workspace::lemma_position(*self, id);
                        let p = position(*self, id)->0;
                        assert(item_ids(self.items@)[p] == id);
                    }
                }
                let ghost before = kept@;
                assert forall|a: int| 0 <= a < before.len() implies before[a].0 < id.0 by {
                    let b = choose|b: int| 0 <= b < t && before[a] == self.selected_ids@[b];
                }
                kept.push(id);
                assert forall|a: int| 0 <= a < kept@.len() implies exists|b: int|
                    0 <= b < t + 1 && #[trigger] kept@[a] == self.selected_ids@[b] by {
                    if a < before.len() {
                        let b = choose|b: int| 0 <= b < t && before[a] == self.selected_ids@[b];
                        assert(kept@[a] == self.selected_ids@[b]);
                    } else {
                        assert(kept@[a] == self.selected_ids@[t as int]);
                    }
                }
                assert(item_ids(self.items@).contains(id)) by {
                    crate::workspace::lemma_position(*self, id);
                }
            }
            t += 1;
        }
        self.selected_ids = kept;
        match self.selected_id {
            Some(s) => {
                if self.index_of(s).is_none() {
                    self.selected_id = if self.items.len() > 0 {
                        Some(self.items[0].id)
                    } else {
                        None
                    };
                    proof {
                        if self.items@.len() > 0 {
                            assert(item_ids(self.items@)[0] == self.items@[0].id);
                        }
                    }
                }
            },
            None => {},
        }
        if gives_way {
            // The selected entry left: the selection gives way to the first
            // remaining entry after it, else the last one before it.
            proof {
                let s0 = start.selected_id->0;
                crate::workspace::lemma_position(start, s0);
                lemma_give_way_none(start.items@, start.selected_ids@, position(start, s0)->0);
                if target is None {
                    assert forall|x: WorkspaceId| !#[trigger] item_ids(self.items@).contains(x) by {
                        if item_ids(self.items@).contains(x) {
                            let i = choose|i: int| 0 <= i < item_ids(start.items@).len() && item_ids(start.items@)[i] == x;
                            assert(start.items@[i].id == x);
                        }
                    }
                    if self.items@.len() > 0 {
                        assert(item_ids(self.items@).contains(item_ids(self.items@)[0]));
                    }
                }
            }
            match target {
                Some(t) => {
                    proof {
                        let i = choose|i: int| 0 <= i < start.items@.len() && start.items@[i].id == t;
                        assert(item_ids(start.items@)[i] == t);
                        assert(item_ids(self.items@).contains(t));
                        let j = choose|j: int| 0 <= j < item_ids(self.items@).len() && item_ids(self.items@)[j] == t;
                        assert(self.items@[j].id == t);
                    }
                    self.selected_id = Some(t);
                    let mut one: Vec<WorkspaceId> = Vec::new();
                    one.push(t);
                    self.selected_ids = one;
                },
                None => {
                    self.selected_id = None;
                    self.selected_ids = Vec::new();
                },
            }
        }
    }

    /// Adds a glyph after the selected entry (at the end when nothing is
    /// selected) under a new id and selects it alone.
    pub fn insert_glyph_after_selected(&mut self, glyph: OpenedGlyph) -> (id: WorkspaceId)
        requires
            old(self).wf(),
            old(self).next_workspace_id < u64::MAX,
        ensures
            final(self).wf(),
            id.0 == old(self).next_workspace_id,
            final(self).next_workspace_id == old(self).next_workspace_id + 1,
            final(self).items@ == old(self).items@.insert(
                match old(self).selected_id {
                    Some(s) => match position(*old(self), s) {
                        Some(p) => p + 1,
                        None => old(self).items@.len() as int,
                    },
                    None => old(self).items@.len() as int,
                },
                WorkspaceItem { id, content_revision: 0, content: SidebarItem::Glyph(glyph) },
            ),
            final(self).sequence_groups@ == old(self).sequence_groups@,
            selected_alone(*old(self), *final(self), id),
            same_settings(*final(self), *old(self)),
            same_diff_cache(*final(self), *old(self)),
    {
        let len = self.items.len();
        let index = match self.selected_id {
            Some(s) => match self.index_of(s) {
                Some(p) => {
                    assert(p < len);
                    p + 1
                },
                None => len,
            },
            None => len,
        };
        let ghost start = *self;
        let mut contents: Vec<SidebarItem> = Vec::new();
        contents.push(SidebarItem::Glyph(glyph));
        let ids = self.insert_items(index, contents);
        let id = ids[0];
        proof {
            let at = index as int;
            assert(self.items@ =~= start.items@.insert(at, self.items@[at]));
            assert(item_ids(self.items@)[at] == id);
            assert(has_item(*self, id));
        }
        self.select(id);
        id
    }

    /// Groups the selected entries (see `group_images`).
    pub fn group_selected(&mut self) -> (r: Option<WorkspaceId>)
        requires
            old(self).wf(),
            old(self).next_workspace_id < u64::MAX,
        ensures
            final(self).wf(),
            r is Some == groupable(*old(self), old(self).selected_ids@),
            r is None ==> *final(self) == *old(self),
            r matches Some(g) ==> final(self).selected_id == Some(g) && final(self).selected_ids@.to_set()
                == remapped_set(
                old(self).selected_ids@.to_set(),
                item_ids(crate::grouping::pick_items(old(self).items@, old(self).selected_ids@, true)),
                g,
            ) && crate::workspace::group_keys(final(self).sequence_groups@).contains(g),
    {
        let ids = vstd::slice::slice_to_vec(self.selected_ids.as_slice());
        let r = self.group_images(ids.as_slice());
        proof {
            if r is Some {
                let gs = self.sequence_groups@;
                assert(crate::workspace::group_keys(gs)[gs.len() - 1] == gs.last().0);
            }
        }
        r
    }

    /// The label of the group entry.
    pub fn group_label(&self, id: WorkspaceId) -> (r: Option<&str>)
        requires
            self.wf(),
        ensures
            match group_position(*self, id) {
                Some(g) => r matches Some(l) && l@ == self.sequence_groups@[g].1.label@,
                None => r is None,
            },
    {
        match self.group_index(id) {
            Some(g) => Some(self.sequence_groups[g].1.label.as_str()),
            None => None,
        }
    }
}


/// Replacing an entry by one with the same id and acceptable content keeps
/// the workspace well formed.
proof fn lemma_replace_entry(s: ViewerState, t: ViewerState, p: int, item: WorkspaceItem)
    requires
        s.wf(),
        0 <= p < s.items@.len(),
        item.id == s.items@[p].id,
        content_ok(item.content),
        t.items@ == s.items@.update(p, item),
        t.sequence_groups@ == s.sequence_groups@,
        t.next_workspace_id == s.next_workspace_id,
        t.selected_ids@ == s.selected_ids@,
    ensures
        t.wf(),
        item_ids(t.items@) == item_ids(s.items@),
{
    assert(item_ids(t.items@) =~= item_ids(s.items@));
    assert forall|i: int| 0 <= i < t.items@.len() implies content_ok(#[trigger] t.items@[i].content) by {
        if i != p {
            assert(t.items@[i] == s.items@[i]);
        }
    }
}

/// An animated image with all frame delays set and its clock reset.
pub open spec fn retimed(before: FrameSource, after: FrameSource, interval: u128) -> bool {
    match (before, after) {
        (
            FrameSource::Animated { frames: f, current: c, autoplay: a, last_advance: _ },
            FrameSource::Animated { frames: g, current: d, autoplay: b, last_advance: l },
        ) => {
            &&& g@.len() == f@.len()
            &&& forall|k: int|
                0 <= k < f@.len() ==> (#[trigger] g@[k]) == (Frame { delay: interval, ..f@[k] })
            &&& d == c
            &&& b == a
            &&& l is None
        },
        _ => false,
    }
}

impl ViewerState {
    /// Renames a group: its label and the path of its entry (an image) become
    /// the label without surrounding whitespace. False, and nothing changes,
    /// when that is empty or the id is not a group.
    pub fn set_group_label(&mut self, id: WorkspaceId, label: String) -> (done: bool)
        requires
            old(self).wf(),
            match position(*old(self), id) {
                Some(p) => match old(self).items@[p].content {
                    SidebarItem::Image(image) => frame_count_of(image.frames) == 1 ==> frame_path_ok(
                        trim(label@),
                    ),
                    SidebarItem::Glyph(_) => true,
                },
                None => true,
            },
        ensures
            final(self).wf(),
            done == (trim(label@).len() > 0 && group_position(*old(self), id) is Some),
            !done ==> *final(self) == *old(self),
            done ==> ({
                let g = group_position(*old(self), id)->0;
                &&& final(self).sequence_groups@.len() == old(self).sequence_groups@.len()
                &&& forall|k: int|
                    0 <= k < old(self).sequence_groups@.len() && k != g ==> final(self).sequence_groups@[k]
                        == old(self).sequence_groups@[k]
                &&& final(self).sequence_groups@[g].0 == id
                &&& final(self).sequence_groups@[g].1.label@ == trim(label@)
                &&& final(self).sequence_groups@[g].1.members@ == old(self).sequence_groups@[g].1.members@
                &&& final(self).sequence_groups@[g].1.automatic == old(self).sequence_groups@[g].1.automatic
                &&& item_ids(final(self).items@) == item_ids(old(self).items@)
                &&& forall|q: int|
                    0 <= q < old(self).items@.len() && Some(q) != position(*old(self), id)
                        ==> final(self).items@[q] == old(self).items@[q]
                &&& match position(*old(self), id) {
                    Some(p) => match old(self).items@[p].content {
                        SidebarItem::Image(image) => final(self).items@[p].content matches SidebarItem::Image(
                            renamed_image,
                        ) && renamed_image.path@ == trim(label@) && renamed_image.frames == image.frames
                            && renamed_image.info == image.info && renamed_image.width == image.width
                            && renamed_image.height == image.height && renamed_image.midata == image.midata
                            && renamed_image.expanded == image.expanded
                            && final(self).items@[p].content_revision == old(self).items@[p].content_revision,
                        SidebarItem::Glyph(_) => final(self).items@[p] == old(self).items@[p],
                    },
                    None => true,
                }
            }),
            same_selection(*final(self), *old(self)),
            same_settings(*final(self), *old(self)),
            same_selection_cache(*final(self), *old(self)),
            same_diff_cache(*final(self), *old(self)),
    {
        let chars = str_to_chars(label.as_str());
        let (a, b) = trim_bounds(&chars);
        if a == b {
            return false;
        }
        let g = match self.group_index(id) {
            Some(g) => g,
            None => {
                return false;
            },
        };
        let trimmed = string_from_chars(&chars[a..b]);
        assert(chars@.subrange(a as int, b as int) == chars@.subrange(a as int, b as int));
        let ghost start = *self;
        let (key, mut group) = self.sequence_groups.remove(g);
        group.label = trimmed.clone();
        self.sequence_groups.insert(g, (key, group));
        proof {
            assert(self.sequence_groups@ =~= start.sequence_groups@.update(g as int, self.sequence_groups@[g as int]));
            assert(crate::workspace::grouped_ids(self.sequence_groups@) == crate::workspace::grouped_ids(start.sequence_groups@)) by {
                lemma_grouped_update(start.sequence_groups@, g as int, self.sequence_groups@[g as int]);
            }
            assert(crate::workspace::group_keys(self.sequence_groups@) =~= crate::workspace::group_keys(start.sequence_groups@));
            assert forall|k: int| 0 <= k < self.sequence_groups@.len() implies (
            #[trigger] self.sequence_groups@[k]).0.0 < self.next_workspace_id by {
                assert(self.sequence_groups@[k].0 == start.sequence_groups@[k].0);
            }
            assert forall|x: int, m: int|
                0 <= x < self.sequence_groups@.len() && 0 <= m < self.sequence_groups@[x].1.members@.len() implies frame_path_ok(
                #[trigger] self.sequence_groups@[x].1.members@[m].image.path@,
            ) by {
                assert(self.sequence_groups@[x].1.members@ == start.sequence_groups@[x].1.members@);
            }
        }
        let ghost mid = *self;
        match self.index_of(id) {
            Some(p) => {
                let entry = self.items.remove(p);
                let content = match entry.content {
                    SidebarItem::Image(image) => {
                        let mut image = image;
                        image.path = trimmed;
                        SidebarItem::Image(image)
                    },
                    SidebarItem::Glyph(glyph) => SidebarItem::Glyph(glyph),
                };
                let item = WorkspaceItem { id: entry.id, content_revision: entry.content_revision, content };
                self.items.insert(p, item);
                proof {
                    assert(self.items@ =~= mid.items@.update(p as int, item));
                    lemma_replace_entry(mid, *self, p as int, item);
                }
            },
            None => {},
        }
        true
    }
}

/// Changing a group record without changing its members keeps the member ids.
proof fn lemma_grouped_update(
    gs: Seq<(WorkspaceId, crate::workspace::SequenceGroup)>,
    g: int,
    r: (WorkspaceId, crate::workspace::SequenceGroup),
)
    requires
        0 <= g < gs.len(),
        r.1.members@ == gs[g].1.members@,
    ensures
        crate::workspace::grouped_ids(gs.update(g, r)) == crate::workspace::grouped_ids(gs),
    decreases gs.len(),
{
    let u = gs.update(g, r);
    if g == gs.len() - 1 {
        assert(u.drop_last() == gs.drop_last());
        assert(crate::workspace::member_ids(u.last().1) == crate::workspace::member_ids(gs.last().1));
    } else {
        lemma_grouped_update(gs.drop_last(), g, r);
        assert(u.drop_last() == gs.drop_last().update(g, r));
        assert(u.last() == gs.last());
    }
}


impl ViewerState {
    /// Selects one frame of an animated image entry: the entry is selected
    /// alone, shows that frame from now on (its clock reset) and the frame
    /// becomes the selection target. False when the entry is not an animated
    /// image, or the frame is past the members of its group; an entry that is
    /// selected but has no such frame is left selected, with false.
    pub fn select_frame(&mut self, collection: WorkspaceId, index: usize) -> (done: bool)
        requires
            old(self).wf(),
        ensures
            final(self).wf(),
            same_settings(*final(self), *old(self)),
            same_diff_cache(*final(self), *old(self)),
            final(self).sequence_groups@ == old(self).sequence_groups@,
            final(self).next_workspace_id == old(self).next_workspace_id,
            item_ids(final(self).items@) == item_ids(old(self).items@),
            ({
                let p = position(*old(self), collection);
                let past_members = match group_position(*old(self), collection) {
                    Some(g) => index >= old(self).sequence_groups@[g].1.members@.len(),
                    None => false,
                };
                let animated = p matches Some(q) && old(self).items@[q].content matches SidebarItem::Image(
                    image,
                ) && image.frames is Animated;
                if past_members || !animated {
                    !done && *final(self) == *old(self)
                } else {
                    let q = p->0;
                    let image = old(self).items@[q].content->Image_0;
                    let frames = image.frames->frames;
                    &&& final(self).list_focus == old(self).list_focus
                    &&& done == (index < frames@.len())
                    &&& !done ==> final(self).items@ == old(self).items@ && selected_alone(
                        *old(self),
                        *final(self),
                        collection,
                    )
                    &&& done ==> ({
                        &&& final(self).primary_target == Some(SelectionTarget::Frame { collection, index })
                        &&& final(self).selected_id == Some(collection)
                        &&& final(self).selected_ids@ == seq![collection]
                        &&& final(self).focused_id == Some(collection)
                        &&& final(self).range_anchor == Some(collection)
                        &&& forall|r: int| 0 <= r < old(self).items@.len() && r != q ==> final(self).items@[r]
                            == old(self).items@[r]
                        &&& final(self).items@[q].content_revision == old(self).items@[q].content_revision
                        &&& final(self).items@[q].content matches SidebarItem::Image(after)
                            && after.frames == (FrameSource::Animated {
                            frames,
                            current: index,
                            autoplay: image.frames->autoplay,
                            last_advance: None,
                        }) && after.path == image.path && after.info == image.info && after.width
                            == image.width && after.height == image.height && after.midata == image.midata
                            && after.expanded == image.expanded
                    })
                }
            }),
    {
        match self.group_index(collection) {
            Some(g) => {
                if index >= self.sequence_groups[g].1.members.len() {
                    return false;
                }
            },
            None => {},
        }
        let p = match self.index_of(collection) {
            Some(p) => p,
            None => {
                return false;
            },
        };
        let animated = match &self.items[p].content {
            SidebarItem::Image(image) => match &image.frames {
                FrameSource::Animated { .. } => true,
                FrameSource::Single { .. } => false,
            },
            SidebarItem::Glyph(_) => false,
        };
        if !animated {
            return false;
        }
        self.select(collection);
        let ghost mid = *self;
        let entry = self.items.remove(p);
        let WorkspaceItem { id, content_revision, content } = entry;
        let (content, ok) = match content {
            SidebarItem::Image(image) => {
                let ImageItem { path, info, width, height, frames, midata, expanded } = image;
                let (frames, ok) = match frames {
                    FrameSource::Animated { frames, current, autoplay, last_advance } => {
                        if index < frames.len() {
                            (FrameSource::Animated { frames, current: index, autoplay, last_advance: None }, true)
                        } else {
                            (FrameSource::Animated { frames, current, autoplay, last_advance }, false)
                        }
                    },
                    FrameSource::Single { pixels, width, height } => (
                        FrameSource::Single { pixels, width, height },
                        false,
                    ),
                };
                (SidebarItem::Image(ImageItem { path, info, width, height, frames, midata, expanded }), ok)
            },
            SidebarItem::Glyph(glyph) => (SidebarItem::Glyph(glyph), false),
        };
        let item = WorkspaceItem { id, content_revision, content };
        self.items.insert(p, item);
        proof {
            assert(self.items@ =~= mid.items@.update(p as int, item));
            lemma_replace_entry(mid, *self, p as int, item);
            if !ok {
                assert(self.items@ =~= mid.items@);
            }
        }
        if !ok {
            return false;
        }
        self.primary_target = Some(SelectionTarget::Frame { collection, index });
        true
    }

    /// Shows every frame of an animated image entry for `interval`
    /// nanoseconds and resets its clock. False, and nothing changes, when the
    /// entry is not an animated image.
    pub fn set_animation_interval(&mut self, id: WorkspaceId, interval: u128) -> (done: bool)
        requires
            old(self).wf(),
        ensures
            final(self).wf(),
            done == (position(*old(self), id) matches Some(q) && old(self).items@[q].content matches SidebarItem::Image(
                image,
            ) && image.frames is Animated),
            !done ==> *final(self) == *old(self),
            done ==> ({
                let q = position(*old(self), id)->0;
                let image = old(self).items@[q].content->Image_0;
                &&& final(self).items@.len() == old(self).items@.len()
                &&& forall|r: int| 0 <= r < old(self).items@.len() && r != q ==> final(self).items@[r]
                    == old(self).items@[r]
                &&& final(self).items@[q].id == id
                &&& final(self).items@[q].content_revision == old(self).items@[q].content_revision
                &&& final(self).items@[q].content matches SidebarItem::Image(after) && retimed(
                    image.frames,
                    after.frames,
                    interval,
                ) && after.path == image.path && after.info == image.info && after.width == image.width
                    && after.height == image.height && after.midata == image.midata && after.expanded
                    == image.expanded
                &&& final(self).sequence_groups@ == old(self).sequence_groups@
                &&& final(self).next_workspace_id == old(self).next_workspace_id
                &&& same_selection(*final(self), *old(self))
                &&& same_selection_cache(*final(self), *old(self))
                &&& same_diff_cache(*final(self), *old(self))
                &&& same_settings(*final(self), *old(self))
            }),
    {
        let p = match self.index_of(id) {
            Some(p) => p,
            None => {
                return false;
            },
        };
        let animated = match &self.items[p].content {
            SidebarItem::Image(image) => match &image.frames {
                FrameSource::Animated { .. } => true,
                FrameSource::Single { .. } => false,
            },
            SidebarItem::Glyph(_) => false,
        };
        if !animated {
            return false;
        }
        let ghost start = *self;
        let entry = self.items.remove(p);
        let WorkspaceItem { id: entry_id, content_revision, content } = entry;
        let content = match content {
            SidebarItem::Image(image) => {
                let ImageItem { path, info, width, height, frames, midata, expanded } = image;
                let frames = match frames {
                    FrameSource::Animated { frames, current, autoplay, last_advance: _ } => {
                        let ghost all = frames@;
                        let mut rest = frames;
                        let mut timed: Vec<Frame> = Vec::new();
                        let ghost mut n: int = 0;
                        while rest.len() > 0
                            invariant
                                0 <= n <= all.len(),
                                rest@ == all.skip(n),
                                timed@.len() == n,
                                forall|k: int| 0 <= k < n ==> (#[trigger] timed@[k]) == (Frame { delay: interval, ..all[k] }),
                            decreases rest@.len(),
                        {
                            let frame = rest.remove(0);
                            assert(frame == all[n]);
                            timed.push(Frame { delay: interval, ..frame });
                            proof {
                                assert(rest@ =~= all.skip(n + 1));
                                n = n + 1;
                            }
                        }
                        FrameSource::Animated { frames: timed, current, autoplay, last_advance: None }
                    },
                    FrameSource::Single { pixels, width, height } => FrameSource::Single { pixels, width, height },
                };
                SidebarItem::Image(ImageItem { path, info, width, height, frames, midata, expanded })
            },
            SidebarItem::Glyph(glyph) => SidebarItem::Glyph(glyph),
        };
        let item = WorkspaceItem { id: entry_id, content_revision, content };
        self.items.insert(p, item);
        proof {
            assert(self.items@ =~= start.items@.update(p as int, item));
            lemma_replace_entry(start, *self, p as int, item);
        }
        true
    }

    /// The members of a group: id, path and a copy of the image of each.
    pub fn group_members(&self, id: WorkspaceId) -> (r: Option<Vec<(WorkspaceId, String, ImageItem)>>)
        requires
            self.wf(),
        ensures
            match group_position(*self, id) {
                Some(g) => r matches Some(v) && v@.len() == self.sequence_groups@[g].1.members@.len() && (
                forall|k: int|
                    0 <= k < v@.len() ==> (#[trigger] v@[k]).0 == self.sequence_groups@[g].1.members@[k].id
                        && v@[k].1@ == self.sequence_groups@[g].1.members@[k].image.path@ && same_image(
                        v@[k].2,
                        self.sequence_groups@[g].1.members@[k].image,
                    )),
                None => r is None,
            },
    {
        let g = match self.group_index(id) {
            Some(g) => g,
            None => {
                return None;
            },
        };
        let members = &self.sequence_groups[g].1.members;
        let mut out: Vec<(WorkspaceId, String, ImageItem)> = Vec::new();
        let mut k: usize = 0;
        while k < members.len()
            invariant
                k <= members@.len(),
                out@.len() == k,
                forall|t: int|
                    0 <= t < k ==> (#[trigger] out@[t]).0 == members@[t].id && out@[t].1@ == members@[t].image.path@
                        && same_image(out@[t].2, members@[t].image),
            decreases members@.len() - k,
        {
            let member = &members[k];
            out.push((member.id, member.image.path.clone(), copy_image(&member.image)));
            k += 1;
        }
        Some(out)
    }

    /// The frames of a group or an animated image entry as still images with
    /// names: members under their paths, frames of an animation under the
    /// path followed by `#` and the frame number from one.
    pub fn frame_snapshots(&self, id: WorkspaceId) -> (r: Option<Vec<(String, ImageItem)>>)
        requires
            self.wf(),
        ensures
            match group_position(*self, id) {
                Some(g) => r matches Some(v) && v@.len() == self.sequence_groups@[g].1.members@.len() && (
                forall|k: int|
                    0 <= k < v@.len() ==> (#[trigger] v@[k]).0@ == self.sequence_groups@[g].1.members@[k].image.path@
                        && same_image(v@[k].1, self.sequence_groups@[g].1.members@[k].image)),
                None => match position(*self, id) {
                    Some(p) => match self.items@[p].content {
                        SidebarItem::Image(image) => match image.frames {
                            FrameSource::Animated { frames, .. } => r matches Some(v) && v@.len()
                                == frames@.len() && (forall|k: int|
                                0 <= k < v@.len() ==> (#[trigger] v@[k]).0@ == snapshot_name(image, k)
                                    && frame_snapshot(image, k, v@[k].1)),
                            FrameSource::Single { .. } => r is None,
                        },
                        SidebarItem::Glyph(_) => r is None,
                    },
                    None => r is None,
                },
            },
    {
        match self.group_index(id) {
            Some(g) => {
                let members = &self.sequence_groups[g].1.members;
                let mut out: Vec<(String, ImageItem)> = Vec::new();
                let mut k: usize = 0;
                while k < members.len()
                    invariant
                        k <= members@.len(),
                        out@.len() == k,
                        forall|t: int|
                            0 <= t < k ==> (#[trigger] out@[t]).0@ == members@[t].image.path@ && same_image(
                                out@[t].1,
                                members@[t].image,
                            ),
                    decreases members@.len() - k,
                {
                    let member = &members[k];
                    out.push((member.image.path.clone(), copy_image(&member.image)));
                    k += 1;
                }
                return Some(out);
            },
            None => {},
        }
        let p = match self.index_of(id) {
            Some(p) => p,
            None => {
                return None;
            },
        };
        let image = match &self.items[p].content {
            SidebarItem::Image(image) => image,
            SidebarItem::Glyph(_) => {
                return None;
            },
        };
        let frames = match &image.frames {
            FrameSource::Animated { frames, .. } => frames,
            FrameSource::Single { .. } => {
                return None;
            },
        };
        let base = str_to_chars(image.path.as_str());
        let mut out: Vec<(String, ImageItem)> = Vec::new();
        let mut k: usize = 0;
        while k < frames.len()
            invariant
                k <= frames@.len(),
                base@ == image.path@,
                out@.len() == k,
                forall|t: int|
                    0 <= t < k ==> {
                        let name = image.path@ + seq!['#'] + crate::fmt::decimal((t + 1) as nat);
                        &&& (#[trigger] out@[t]).0@ == name
                        &&& out@[t].1.path@ == name
                        &&& out@[t].1.info.width == image.info.width
                        &&& out@[t].1.info.height == image.info.height
                        &&& out@[t].1.info.data_size == image.info.data_size
                        &&& out@[t].1.info.format@ == image.info.format@
                        &&& out@[t].1.width == frames@[t].width
                        &&& out@[t].1.height == frames@[t].height
                        &&& out@[t].1.frames matches FrameSource::Single { pixels, width, height }
                            && pixels@ == frames@[t].pixels@ && width == frames@[t].width && height
                            == frames@[t].height
                        &&& out@[t].1.midata is None
                        &&& !out@[t].1.expanded
                    },
            decreases frames@.len() - k,
        {
            let frame = &frames[k];
            let mut name: Vec<char> = Vec::new();
            crate::fmt::push_chars(&mut name, &base);
            name.push('#');
            push_decimal(&mut name, k as u128 + 1);
            let label = string_from_chars(&name);
            let snapshot = ImageItem {
                path: string_from_chars(&name),
                info: ImageInfo {
                    width: image.info.width,
                    height: image.info.height,
                    data_size: image.info.data_size,
                    format: image.info.format.clone(),
                },
                width: frame.width,
                height: frame.height,
                frames: FrameSource::Single {
                    pixels: vstd::slice::slice_to_vec(frame.pixels.as_slice()),
                    width: frame.width,
                    height: frame.height,
                },
                midata: None,
                expanded: false,
            };
            out.push((label, snapshot));
            k += 1;
        }
        Some(out)
    }
}


/// The ids of the selected group entries, in sidebar order.
pub open spec fn selected_groups(
    items: Seq<WorkspaceItem>,
    selected: Seq<WorkspaceId>,
    keys: Seq<WorkspaceId>,
) -> Seq<WorkspaceId>
    decreases items.len(),
{
    if items.len() == 0 {
        Seq::empty()
    } else {
        let rest = selected_groups(items.drop_last(), selected, keys);
        let id = items.last().id;
        if selected.contains(id) && keys.contains(id) {
            rest.push(id)
        } else {
            rest
        }
    }
}

/// The record of the group with the key in a state.
pub open spec fn record_of(s: ViewerState, key: WorkspaceId) -> crate::workspace::SequenceGroup {
    s.sequence_groups@[group_position(s, key)->0].1
}

/// The members that dissolving the groups restores, group after group.
pub open spec fn restored_ids(s: ViewerState, groups: Seq<WorkspaceId>) -> Seq<WorkspaceId>
    decreases groups.len(),
{
    if groups.len() == 0 {
        Seq::empty()
    } else {
        restored_ids(s, groups.drop_last()) + crate::workspace::member_ids(record_of(s, groups.last()))
    }
}

/// The selected groups are entries with group records, each once.
proof fn lemma_selected_groups(items: Seq<WorkspaceItem>, selected: Seq<WorkspaceId>, keys: Seq<WorkspaceId>)
    requires
        crate::workspace::item_ids(items).no_duplicates(),
    ensures
        selected_groups(items, selected, keys).no_duplicates(),
        forall|x: WorkspaceId| #[trigger]
            selected_groups(items, selected, keys).contains(x) ==> crate::workspace::item_ids(items).contains(x)
                && keys.contains(x),
    decreases items.len(),
{
    if items.len() > 0 {
        let rest = items.drop_last();
        assert(crate::workspace::item_ids(rest) =~= crate::workspace::item_ids(items).drop_last());
        lemma_selected_groups(rest, selected, keys);
        let id = items.last().id;
        assert(crate::workspace::item_ids(items) =~= crate::workspace::item_ids(rest).push(id));
        assert forall|x: WorkspaceId| #[trigger] crate::workspace::item_ids(rest).contains(x) implies
            crate::workspace::item_ids(items).contains(x) by {
            let k = choose|k: int| 0 <= k < crate::workspace::item_ids(rest).len() && crate::workspace::item_ids(rest)[k] == x;
            assert(crate::workspace::item_ids(items)[k] == x);
        }
        assert(crate::workspace::item_ids(items)[items.len() - 1] == id);
        if selected_groups(rest, selected, keys).contains(id) {
            let k = choose|k: int| 0 <= k < crate::workspace::item_ids(rest).len() && crate::workspace::item_ids(rest)[k] == id;
            assert(crate::workspace::item_ids(items)[k] == id);
        }
        let all = selected_groups(items, selected, keys);
        let before = selected_groups(rest, selected, keys);
        assert forall|x: WorkspaceId| #[trigger] all.contains(x) implies crate::workspace::item_ids(items).contains(x)
            && keys.contains(x) by {
            if before.contains(x) {
                assert(crate::workspace::item_ids(rest).contains(x));
            } else {
                let k = choose|k: int| 0 <= k < all.len() && all[k] == x;
                assert(all == before.push(id));
                assert(k == before.len());
            }
        }
    }
}

/// A group record other than the one removed stays.
pub proof fn lemma_record_stays(
    gs: Seq<(WorkspaceId, crate::workspace::SequenceGroup)>,
    gp: int,
    r: (WorkspaceId, crate::workspace::SequenceGroup),
)
    requires
        0 <= gp < gs.len(),
        gs.contains(r),
        gs[gp].0 != r.0,
    ensures
        gs.remove(gp).contains(r),
{
    let k = choose|k: int| 0 <= k < gs.len() && gs[k] == r;
    if k < gp {
        assert(gs.remove(gp)[k] == r);
    } else {
        assert(gs.remove(gp)[k - 1] == r);
    }
}

/// In a well-formed state a record held under a key is the one its
/// position finds.
pub proof fn lemma_record_found(s: ViewerState, r: (WorkspaceId, crate::workspace::SequenceGroup))
    requires
        s.wf(),
        s.sequence_groups@.contains(r),
    ensures
        group_position(s, r.0) matches Some(g) && s.sequence_groups@[g] == r,
{
    let k = choose|k: int| 0 <= k < s.sequence_groups@.len() && s.sequence_groups@[k] == r;
    assert(crate::workspace::group_keys(s.sequence_groups@)[k] == r.0);
    let g = group_position(s, r.0)->0;
    assert(crate::workspace::group_keys(s.sequence_groups@)[g] == r.0);
}

/// Replacing one entry by restored members keeps every other entry.
pub proof fn lemma_entry_stays(items: Seq<WorkspaceItem>, p: int, restored: Seq<WorkspaceItem>, x: WorkspaceId)
    requires
        0 <= p < items.len(),
        crate::workspace::item_ids(items).contains(x),
        items[p].id != x,
    ensures
        crate::workspace::item_ids(items.take(p) + restored + items.skip(p + 1)).contains(x),
{
    let k = choose|k: int| 0 <= k < crate::workspace::item_ids(items).len() && crate::workspace::item_ids(items)[k] == x;
    let t = items.take(p) + restored + items.skip(p + 1);
    if k < p {
        assert(t[k] == items[k]);
        assert(crate::workspace::item_ids(t)[k] == x);
    } else {
        assert(k > p);
        assert(t[p + restored.len() + (k - p - 1)] == items[k]);
        assert(crate::workspace::item_ids(t)[p + restored.len() + (k - p - 1)] == x);
    }
}

/// The entries after replacing entry `p` by restored ones are the other
/// entries and the restored ones.
pub proof fn lemma_replaced_entries(items: Seq<WorkspaceItem>, p: int, restored: Seq<WorkspaceItem>)
    requires
        0 <= p < items.len(),
        crate::workspace::item_ids(items).no_duplicates(),
    ensures
        forall|x: WorkspaceItem| #[trigger]
            (items.take(p) + restored + items.skip(p + 1)).contains(x) <==> (items.contains(x) && x.id != items[p].id)
                || restored.contains(x),
{
    let t = items.take(p) + restored + items.skip(p + 1);
    assert forall|x: WorkspaceItem| #[trigger] t.contains(x) <==> (items.contains(x) && x.id != items[p].id)
        || restored.contains(x) by {
        if t.contains(x) {
            let k = choose|k: int| 0 <= k < t.len() && t[k] == x;
            if k < p {
                assert(t[k] == items[k]);
                assert(crate::workspace::item_ids(items)[k] == items[k].id);
                assert(crate::workspace::item_ids(items)[p] == items[p].id);
            } else if k < p + restored.len() {
                assert(restored[k - p] == x);
            } else {
                let j = k - restored.len() + 1;
                assert(t[k] == items[j]);
                assert(crate::workspace::item_ids(items)[j] == items[j].id);
                assert(crate::workspace::item_ids(items)[p] == items[p].id);
            }
        }
        if items.contains(x) && x.id != items[p].id {
            let k = choose|k: int| 0 <= k < items.len() && items[k] == x;
            if k < p {
                assert(t[k] == x);
            } else {
                assert(k != p);
                assert(t[k - 1 + restored.len()] == x);
            }
        }
        if restored.contains(x) {
            let k = choose|k: int| 0 <= k < restored.len() && restored[k] == x;
            assert(t[p + k] == x);
        }
    }
}

impl ViewerState {
    /// Shows or hides the frames of an image entry in the sidebar (its
    /// `expanded` flag flips). Returns whether the entry is an image; nothing
    /// else changes.
    pub fn toggle_expanded(&mut self, id: WorkspaceId) -> (done: bool)
        requires
            old(self).wf(),
        ensures
            final(self).wf(),
            done == (has_item(*old(self), id) && old(self).items@[position(*old(self), id)->0].content is Image),
            !done ==> *final(self) == *old(self),
            done ==> ({
                let p = position(*old(self), id)->0;
                let item = old(self).items@[p];
                let image = item.content->Image_0;
                final(self).items@ == old(self).items@.update(
                    p,
                    WorkspaceItem {
                        id: item.id,
                        content_revision: item.content_revision,
                        content: SidebarItem::Image(ImageItem { expanded: !image.expanded, ..image }),
                    },
                )
            }),
            final(self).sequence_groups@ == old(self).sequence_groups@,
            final(self).next_workspace_id == old(self).next_workspace_id,
            same_selection(*final(self), *old(self)),
            same_settings(*final(self), *old(self)),
            same_selection_cache(*final(self), *old(self)),
            same_diff_cache(*final(self), *old(self)),
    {
        let index = match self.index_of(id) {
            Some(i) => i,
            None => {
                return false;
            },
        };
        proof {
            crate::workspace::lemma_position(*self, id);
        }
        match &self.items[index].content {
            SidebarItem::Image(_) => {},
            SidebarItem::Glyph(_) => {
                return false;
            },
        }
        let ghost start = *self;
        let item = self.items.remove(index);
        let content = match item.content {
            SidebarItem::Image(image) => {
                let expanded = !image.expanded;
                SidebarItem::Image(ImageItem { expanded, ..image })
            },
            SidebarItem::Glyph(glyph) => SidebarItem::Glyph(glyph),
        };
        let replaced = WorkspaceItem { id: item.id, content_revision: item.content_revision, content };
        self.items.insert(index, replaced);
        proof {
            assert(self.items@ =~= start.items@.update(index as int, replaced));
            assert(item_ids(self.items@) =~= item_ids(start.items@));
            assert forall|i: int| 0 <= i < self.items@.len() implies content_ok(
                #[trigger] self.items@[i].content,
            ) by {
                if i != index {
                    assert(self.items@[i] == start.items@[i]);
                } else {
                    assert(content_ok(start.items@[i].content));
                }
            }
        }
        true
    }
}

/// The entries with each entry whose id is among `groups` replaced by the
/// members of its group in `s`, restored as entries.
pub open spec fn ungrouped_items(s: ViewerState, items: Seq<WorkspaceItem>, groups: Seq<WorkspaceId>) -> Seq<
    WorkspaceItem,
>
    decreases items.len(),
{
    if items.len() == 0 {
        Seq::empty()
    } else {
        let rest = ungrouped_items(s, items.drop_last(), groups);
        let x = items.last();
        if groups.contains(x.id) {
            rest + crate::grouping::restored_items(record_of(s, x.id).members@)
        } else {
            rest.push(x)
        }
    }
}

/// Dissolving one more group `gid` replaces its entry, at `p`, by its
/// members.
proof fn lemma_ungroup_step(s: ViewerState, items: Seq<WorkspaceItem>, groups: Seq<WorkspaceId>, gid: WorkspaceId) -> (p: int)
    requires
        !groups.contains(gid),
        exists|i: int| 0 <= i < items.len() && items[i].id == gid,
        item_ids(items).no_duplicates(),
    ensures
        0 <= p < ungrouped_items(s, items, groups).len(),
        ungrouped_items(s, items, groups)[p].id == gid,
        ungrouped_items(s, items, groups.push(gid)) == ungrouped_items(s, items, groups).take(p)
            + crate::grouping::restored_items(record_of(s, gid).members@) + ungrouped_items(s, items, groups).skip(p + 1),
    decreases items.len(),
{
    let init = items.drop_last();
    let x = items.last();
    let g2 = groups.push(gid);
    let u0 = ungrouped_items(s, init, groups);
    let n0 = ungrouped_items(s, init, g2);
    let r = crate::grouping::restored_items(record_of(s, gid).members@);
    assert(g2.contains(x.id) <==> groups.contains(x.id) || x.id == gid) by {
        if g2.contains(x.id) {
            let k = choose|k: int| 0 <= k < g2.len() && g2[k] == x.id;
            if k < groups.len() {
                assert(groups[k] == x.id);
            }
        }
        if groups.contains(x.id) {
            let k = choose|k: int| 0 <= k < groups.len() && groups[k] == x.id;
            assert(g2[k] == x.id);
        }
        if x.id == gid {
            assert(g2[groups.len() as int] == gid);
        }
    }
    assert(item_ids(init) =~= item_ids(items).drop_last());
    if x.id == gid {
        assert forall|i: int| 0 <= i < init.len() implies init[i].id != gid by {
            assert(item_ids(items)[i] == init[i].id);
            assert(item_ids(items)[items.len() - 1] == gid);
        }
        lemma_ungroup_absent(s, init, groups, gid);
        let p = u0.len() as int;
        let u = u0.push(x);
        assert(ungrouped_items(s, items, groups) == u);
        assert(ungrouped_items(s, items, g2) == u0 + r);
        assert(u.take(p) =~= u0);
        assert(u.skip(p + 1) =~= Seq::<WorkspaceItem>::empty());
        assert(u0 + r + Seq::<WorkspaceItem>::empty() =~= u0 + r);
        p
    } else {
        let i = choose|i: int| 0 <= i < items.len() && items[i].id == gid;
        assert(init[i].id == gid);
        let p = lemma_ungroup_step(s, init, groups, gid);
        if groups.contains(x.id) {
            let rx = crate::grouping::restored_items(record_of(s, x.id).members@);
            let u = u0 + rx;
            assert(ungrouped_items(s, items, groups) == u);
            assert(ungrouped_items(s, items, g2) == n0 + rx);
            assert(u[p] == u0[p]);
            assert(u.take(p) =~= u0.take(p));
            assert(u.skip(p + 1) =~= u0.skip(p + 1) + rx);
            assert(n0 + rx =~= u.take(p) + r + u.skip(p + 1));
        } else {
            let u = u0.push(x);
            assert(ungrouped_items(s, items, groups) == u);
            assert(ungrouped_items(s, items, g2) == n0.push(x));
            assert(u[p] == u0[p]);
            assert(u.take(p) =~= u0.take(p));
            assert(u.skip(p + 1) =~= u0.skip(p + 1).push(x));
            assert(n0.push(x) =~= u.take(p) + r + u.skip(p + 1));
        }
        p
    }
}

/// Adding to the groups an id that no entry has changes nothing.
proof fn lemma_ungroup_absent(s: ViewerState, items: Seq<WorkspaceItem>, groups: Seq<WorkspaceId>, gid: WorkspaceId)
    requires
        forall|i: int| 0 <= i < items.len() ==> items[i].id != gid,
    ensures
        ungrouped_items(s, items, groups.push(gid)) == ungrouped_items(s, items, groups),
    decreases items.len(),
{
    if items.len() > 0 {
        let x = items.last();
        lemma_ungroup_absent(s, items.drop_last(), groups, gid);
        assert(groups.push(gid).contains(x.id) <==> groups.contains(x.id)) by {
            if groups.push(gid).contains(x.id) {
                let k = choose|k: int| 0 <= k < groups.len() + 1 && groups.push(gid)[k] == x.id;
                if k < groups.len() {
                    assert(groups[k] == x.id);
                }
            }
            if groups.contains(x.id) {
                let k = choose|k: int| 0 <= k < groups.len() && groups[k] == x.id;
                assert(groups.push(gid)[k] == x.id);
            }
        }
    }
}

/// Dissolving no group leaves the entries as they are.
proof fn lemma_ungroup_none(s: ViewerState, items: Seq<WorkspaceItem>)
    ensures
        ungrouped_items(s, items, Seq::empty()) == items,
    decreases items.len(),
{
    if items.len() > 0 {
        lemma_ungroup_none(s, items.drop_last());
        assert(items.drop_last().push(items.last()) =~= items);
    }
}

impl ViewerState {
    /// Dissolves every selected group: its entry gives way, in place, to its
    /// members as entries. When that restores members, they
    /// become the selection, and the first of them the selected, focused,
    /// anchor entry and target; what the panels derived is dropped. Returns
    /// how many groups were selected.
    pub fn ungroup_selected(&mut self) -> (n: usize)
        requires
            old(self).wf(),
        ensures
            final(self).wf(),
            n == selected_groups(
                old(self).items@,
                old(self).selected_ids@,
                crate::workspace::group_keys(old(self).sequence_groups@),
            ).len(),
            forall|t: int|
                0 <= t < n ==> !crate::workspace::group_keys(final(self).sequence_groups@).contains(
                    #[trigger] selected_groups(
                        old(self).items@,
                        old(self).selected_ids@,
                        crate::workspace::group_keys(old(self).sequence_groups@),
                    )[t],
                ),
            final(self).selected_id != old(self).selected_id ==> (final(self).selected_id matches Some(p)
                && final(self).selected_ids@.contains(p) && final(self).focused_id == Some(p)
                && final(self).range_anchor == Some(p) && final(self).primary_target == Some(
                SelectionTarget::Entry(p),
            ) && selection_cache_cleared(*final(self))),
            final(self).next_workspace_id == old(self).next_workspace_id,
            final(self).items@ == ungrouped_items(
                *old(self),
                old(self).items@,
                selected_groups(
                    old(self).items@,
                    old(self).selected_ids@,
                    crate::workspace::group_keys(old(self).sequence_groups@),
                ),
            ),
            same_settings(*final(self), *old(self)),
            ({
                let restored = restored_ids(
                    *old(self),
                    selected_groups(
                        old(self).items@,
                        old(self).selected_ids@,
                        crate::workspace::group_keys(old(self).sequence_groups@),
                    ),
                );
                restored.len() > 0 ==> final(self).selected_ids@.to_set() == restored.to_set()
                    && final(self).selected_id == Some(restored[0])
            }),
    {
        let ghost start = *self;
        let ghost keys = crate::workspace::group_keys(start.sequence_groups@);
        let mut groups: Vec<WorkspaceId> = Vec::new();
        let mut i: usize = 0;
        while i < self.items.len()
            invariant
                self.wf(),
                *self == start,
                keys == crate::workspace::group_keys(start.sequence_groups@),
                i <= self.items@.len(),
                groups@ == selected_groups(self.items@.take(i as int), self.selected_ids@, keys),
            decreases self.items@.len() - i,
        {
            let id = self.items[i].id;
            assert(self.items@.take(i + 1).drop_last() == self.items@.take(i as int));
            assert(self.items@.take(i + 1).last() == self.items@[i as int]);
            if crate::idset::set_contains(&self.selected_ids, id) && self.is_sequence_group(id) {
                groups.push(id);
            }
            i += 1;
        }
        assert(self.items@.take(self.items@.len() as int) == self.items@);
        proof {
            lemma_selected_groups(start.items@, start.selected_ids@, keys);
            assert forall|u: int| 0 <= u < groups@.len() implies start.sequence_groups@.contains(
                (#[trigger] groups@[u], record_of(start, groups@[u])),
            ) && crate::workspace::has_item(start, groups@[u]) by {
                assert(groups@.contains(groups@[u]));
                let g = group_position(start, groups@[u])->0;
                assert(start.sequence_groups@[g] == (groups@[u], record_of(start, groups@[u])));
            }
        }
        let mut restored: Vec<WorkspaceId> = Vec::new();
        let mut t: usize = 0;
        proof {
            assert(groups@.take(0) =~= Seq::<WorkspaceId>::empty());
            lemma_ungroup_none(start, start.items@);
        }
        while t < groups.len()
            invariant
                self.wf(),
                t <= groups@.len(),
                self.next_workspace_id == start.next_workspace_id,
                same_settings(*self, start),
                groups@.no_duplicates(),
                forall|u: int| 0 <= u < t ==> !crate::workspace::group_keys(self.sequence_groups@).contains(
                    #[trigger] groups@[u],
                ),
                forall|u: int|
                    t <= u < groups@.len() ==> self.sequence_groups@.contains(
                        (#[trigger] groups@[u], record_of(start, groups@[u])),
                    ) && crate::workspace::has_item(*self, groups@[u]),
                restored@ == restored_ids(start, groups@.take(t as int)),
                (self.selected_id != start.selected_id) ==> restored@.len() > 0,
                self.items@ == ungrouped_items(start, start.items@, groups@.take(t as int)),
                start.wf(),
                forall|u: int| 0 <= u < groups@.len() ==> crate::workspace::has_item(start, #[trigger] groups@[u]),
            decreases groups@.len() - t,
        {
            let gid = groups[t];
            let ghost before = *self;
            proof {
                lemma_record_found(before, (gid, record_of(start, gid)));
            }
            let ghost gp = group_position(before, gid)->0;
            proof {
                assert(!groups@.take(t as int).contains(gid)) by {
                    if groups@.take(t as int).contains(gid) {
                        let u = choose|u: int| 0 <= u < t && groups@.take(t as int)[u] == gid;
                        assert(groups@[u] == groups@[t as int]);
                    }
                }
                assert(crate::workspace::has_item(start, groups@[t as int]));
                let i0 = choose|i0: int| 0 <= i0 < item_ids(start.items@).len() && item_ids(start.items@)[i0] == gid;
                assert(start.items@[i0].id == gid);
                let p = lemma_ungroup_step(start, start.items@, groups@.take(t as int), gid);
                assert(groups@.take(t + 1) =~= groups@.take(t as int).push(gid));
                crate::workspace::lemma_position(before, gid);
                assert(before.items@[p].id == gid);
                assert(crate::workspace::position(before, gid) == Some(p));
                assert(before.sequence_groups@[gp] == (gid, record_of(start, gid)));
            }
            match self.ungroup_members(gid) {
                Some(ids) => {
                    let ghost prior = restored@;
                    let mut k: usize = 0;
                    while k < ids.len()
                        invariant
                            k <= ids@.len(),
                            restored@ == prior + ids@.take(k as int),
                        decreases ids@.len() - k,
                    {
                        restored.push(ids[k]);
                        k += 1;
                        assert(restored@ =~= prior + ids@.take(k as int));
                    }
                    assert(ids@.take(ids@.len() as int) =~= ids@);
                    assert(groups@.take(t + 1).drop_last() =~= groups@.take(t as int));
                    assert(groups@.take(t + 1).last() == gid);
                },
                None => {},
            }
            proof {
                assert forall|u: int| 0 <= u < t + 1 implies !crate::workspace::group_keys(self.sequence_groups@).contains(
                    #[trigger] groups@[u],
                ) by {
                    lemma_key_gone(before, *self, gid, groups@[u]);
                }
                assert forall|u: int|
                    t + 1 <= u < groups@.len() implies self.sequence_groups@.contains(
                    (#[trigger] groups@[u], record_of(start, groups@[u])),
                ) && crate::workspace::has_item(*self, groups@[u]) by {
                    assert(groups@[u] != gid);
                    lemma_record_stays(before.sequence_groups@, gp, (groups@[u], record_of(start, groups@[u])));
                    crate::workspace::lemma_position(before, gid);
                    lemma_entry_stays(
                        before.items@,
                        crate::workspace::position(before, gid)->0,
                        crate::grouping::restored_items(record_of(start, gid).members@),
                        groups@[u],
                    );
                }
            }
            t += 1;
        }
        assert(groups@.take(groups@.len() as int) =~= groups@);
        if restored.len() > 0 {
            let primary = restored[0];
            let set = crate::idset::set_of(restored.as_slice());
            self.selected_ids = set;
            self.selected_id = Some(primary);
            self.primary_target = Some(SelectionTarget::Entry(primary));
            self.focused_id = Some(primary);
            self.range_anchor = Some(primary);
            self.invalidate_selection_state();
            proof {
                assert(restored@.contains(primary));
                assert(self.selected_ids@.to_set().contains(primary));
            }
        }
        groups.len()
    }
}

/// After dissolving the group `gid`, a key that was gone stays gone and `gid`
/// is gone too.
proof fn lemma_key_gone(s: ViewerState, t: ViewerState, gid: WorkspaceId, key: WorkspaceId)
    requires
        s.wf(),
        match group_position(s, gid) {
            Some(gp) => t.sequence_groups@ == s.sequence_groups@.remove(gp),
            None => t.sequence_groups@ == s.sequence_groups@,
        },
        key == gid || !crate::workspace::group_keys(s.sequence_groups@).contains(key),
    ensures
        !crate::workspace::group_keys(t.sequence_groups@).contains(key),
{
    let ks = crate::workspace::group_keys(s.sequence_groups@);
    match group_position(s, gid) {
        Some(gp) => {
            assert(crate::workspace::group_keys(t.sequence_groups@) =~= ks.remove(gp));
            crate::seq_facts::lemma_remove_contains(ks, gp);
            let g = choose|g: int| 0 <= g < s.sequence_groups@.len() && s.sequence_groups@[g].0 == gid;
            assert(ks[g] == gid);
            if ks[gp] != gid {
                assert(ks.contains(gid));
            }
        },
        None => {
            assert(crate::workspace::group_keys(t.sequence_groups@) == ks);
        },
    }
}

} // verus!
