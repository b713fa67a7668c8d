//! The workspace of the viewer: the entries of the sidebar (images and opened
//! glyphs) under ids that are never reused, sequences of images grouped into
//! one animated entry, and the selection, focus and hover that point at
//! entries.
use crate::formats::ImageFormatCategory;
use crate::glyph::OpenedGlyph;
use crate::idset::{ascending, set_contains, set_insert, set_of, set_remove};
use crate::image_item::{Color32, ImageItem, frame_count_of};
use crate::params::{BakeCharsetTab, FontMode, IndexedViewMode, PathMode};
use crate::sequence::{sequence_digits_unsliceable, sequence_key_unsliceable};
use crate::seq_facts::{disjoint, lemma_concat_no_dup, lemma_insert_contains, lemma_insert_no_dup, lemma_remove_contains};
use vstd::prelude::*;

verus! {

/// The id of an entry of the workspace.
#[derive(Clone, Copy, Debug, PartialEq, Eq, Hash, PartialOrd, Ord, Structural)]
pub struct WorkspaceId(pub u64);

/// What is selected: a whole entry, or one frame of an animated entry.
#[derive(Clone, Copy, Debug, PartialEq, Eq, Structural)]
pub enum SelectionTarget {
    Entry(WorkspaceId),
    Frame { collection: WorkspaceId, index: usize },
}

/// The content of an entry of the sidebar.
pub enum SidebarItem {
    Image(ImageItem),
    Glyph(OpenedGlyph),
}

impl SidebarItem {
    /// The name shown for the entry: an image's path or a glyph's name.
    pub fn name(&self) -> (n: &str)
        ensures
            n@ == match self {
                SidebarItem::Image(i) => i.path@,
                SidebarItem::Glyph(g) => g.name@,
            },
    {
        match self {
            SidebarItem::Image(i) => i.path.as_str(),
            SidebarItem::Glyph(g) => g.name.as_str(),
        }
    }

    /// The image of an image entry.
    pub fn as_image(&self) -> (r: Option<&ImageItem>)
        ensures
            r == match self {
                SidebarItem::Image(i) => Some(i),
                SidebarItem::Glyph(_) => None::<&ImageItem>,
            },
    {
        match self {
            SidebarItem::Image(i) => Some(i),
            SidebarItem::Glyph(_) => None,
        }
    }
}

/// An entry of the workspace: its id, how often its content was edited in
/// place, and the content.
pub struct WorkspaceItem {
    pub id: WorkspaceId,
    pub content_revision: u64,
    pub content: SidebarItem,
}

impl WorkspaceItem {
    /// The id of the entry.
    pub fn id(&self) -> (id: WorkspaceId)
        ensures
            id == self.id,
    {
        self.id
    }

    /// The content of the entry.
    pub fn content(&self) -> (c: &SidebarItem)
        ensures
            c == self.content,
    {
        &self.content
    }

    /// How often the content was edited in place.
    pub fn content_revision(&self) -> (r: u64)
        ensures
            r == self.content_revision,
    {
        self.content_revision
    }
}

/// One image of a sequence group, kept as it was before grouping, with the
/// frame number of its file name and the count of digits it is written with.
pub struct SequenceMember {
    pub id: WorkspaceId,
    pub image: ImageItem,
    pub sequence_number: Option<u32>,
    pub digit_width: usize,
}

/// How a group plays: which member it shows, whether it plays, and whether
/// its frames are listed.
#[derive(Clone, Copy, Debug, PartialEq, Eq, Structural)]
pub struct GroupPlayback {
    pub current_member: Option<WorkspaceId>,
    pub autoplay: bool,
    pub expanded: bool,
}

/// Images shown as the frames of one animated entry: the label of the entry,
/// the members in order, and whether the group was formed automatically
/// from numbered file names.
pub struct SequenceGroup {
    pub label: String,
    pub members: Vec<SequenceMember>,
    pub automatic: bool,
}

/// The ids of entries, in order.
pub open spec fn item_ids(items: Seq<WorkspaceItem>) -> Seq<WorkspaceId> {
    items.map_values(|it: WorkspaceItem| it.id)
}

/// The ids of the members of a group, in order.
pub open spec fn member_ids(group: SequenceGroup) -> Seq<WorkspaceId> {
    group.members@.map_values(|m: SequenceMember| m.id)
}

/// The ids of the members of all groups, group after group.
pub open spec fn grouped_ids(groups: Seq<(WorkspaceId, SequenceGroup)>) -> Seq<WorkspaceId>
    decreases groups.len(),
{
    if groups.len() == 0 {
        Seq::empty()
    } else {
        grouped_ids(groups.drop_last()) + member_ids(groups.last().1)
    }
}

/// The ids of the entries that are groups.
pub open spec fn group_keys(groups: Seq<(WorkspaceId, SequenceGroup)>) -> Seq<WorkspaceId> {
    groups.map_values(|g: (WorkspaceId, SequenceGroup)| g.0)
}

/// Paths on which sequence detection works (see `sequence_key`).
pub open spec fn frame_path_ok(path: Seq<char>) -> bool {
    !sequence_key_unsliceable(path) && !sequence_digits_unsliceable(path)
}

/// An entry whose path sequence detection may read: a single-frame image
/// must have a path it can slice.
pub open spec fn content_ok(content: SidebarItem) -> bool {
    match content {
        SidebarItem::Image(image) => frame_count_of(image.frames) == 1 ==> frame_path_ok(
            image.path@,
        ),
        SidebarItem::Glyph(_) => true,
    }
}

/// The state of the viewer: the workspace and everything the panels keep
/// about it.
pub struct ViewerState {
    pub items: Vec<WorkspaceItem>,
    pub next_workspace_id: u64,
    pub sequence_groups: Vec<(WorkspaceId, SequenceGroup)>,
    pub selected_id: Option<WorkspaceId>,
    pub primary_target: Option<SelectionTarget>,
    pub renaming_group: Option<WorkspaceId>,
    pub rename_buffer: String,
    pub selected_ids: Vec<WorkspaceId>,
    pub list_focus: bool,
    pub focused_id: Option<WorkspaceId>,
    pub range_anchor: Option<WorkspaceId>,
    pub hovered_id: Option<WorkspaceId>,
    pub input_format: ImageFormatCategory,
    pub diff_image1_id: Option<WorkspaceId>,
    pub diff_image2_id: Option<WorkspaceId>,
    pub selected_diff_pixel: Option<[u32; 2]>,
    pub hovered_diff_pixel: Option<[u32; 2]>,
    pub hovered_diff_pixel_from_plot: Option<[u32; 2]>,
    pub is_converting: bool,
    pub font_preview_text: String,
    pub selected_op: Option<usize>,
    pub path_mode: PathMode,
    pub indexed_hover_palette: Option<u8>,
    pub indexed_edit_palette: Option<usize>,
    pub indexed_edit_color: Color32,
    pub indexed_show_quality: bool,
    pub indexed_view_mode: IndexedViewMode,
    pub font_bake_size: u16,
    pub font_bake_format: String,
    pub font_bake_bit_depth: u8,
    pub font_bake_charset_tab: BakeCharsetTab,
    pub font_bake_charset_text: String,
    pub font_bake_charset_ranges: String,
    pub font_bake_charset_file: Option<String>,
    pub indexed_dither: u32,
    pub indexed_dither_cached: u32,
    pub indexed_dither_cached_id: Option<WorkspaceId>,
    pub indexed_dither_cached_revision: u64,
    pub merge_font_paths: Vec<String>,
    pub font_mode: FontMode,
    pub glyph_diff_char: String,
    pub selected_glyph: Option<usize>,
    pub opened_glyphs: Vec<OpenedGlyph>,
    pub glyph_convert_format: String,
    pub path_export_format: String,
    pub font_atlas_cached: Option<(String, String, Vec<Color32>, u32, u32)>,
    pub font_bundle_index: usize,
}

/// The ids of entries and of group members, entries first.
pub open spec fn all_ids(s: ViewerState) -> Seq<WorkspaceId> {
    item_ids(s.items@) + grouped_ids(s.sequence_groups@)
}

/// Whether the id is the id of an entry.
pub open spec fn has_item(s: ViewerState, id: WorkspaceId) -> bool {
    item_ids(s.items@).contains(id)
}

/// The position of an entry with the id (unique in a well-formed state).
pub open spec fn position(s: ViewerState, id: WorkspaceId) -> Option<int> {
    if has_item(s, id) {
        Some(choose|i: int| 0 <= i < s.items@.len() && s.items@[i].id == id)
    } else {
        None
    }
}

/// The workspace part of the state is the same.
pub open spec fn same_workspace(a: ViewerState, b: ViewerState) -> bool {
    &&& a.items@ == b.items@
    &&& a.next_workspace_id == b.next_workspace_id
    &&& a.sequence_groups@ == b.sequence_groups@
}

/// The settings and panel inputs, which no workspace operation touches, are
/// the same.
pub open spec fn same_settings(a: ViewerState, b: ViewerState) -> bool {
    &&& a.renaming_group == b.renaming_group
    &&& a.rename_buffer == b.rename_buffer
    &&& a.input_format == b.input_format
    &&& a.is_converting == b.is_converting
    &&& a.font_preview_text == b.font_preview_text
    &&& a.path_mode == b.path_mode
    &&& a.indexed_edit_color == b.indexed_edit_color
    &&& a.indexed_show_quality == b.indexed_show_quality
    &&& a.indexed_view_mode == b.indexed_view_mode
    &&& a.font_bake_size == b.font_bake_size
    &&& a.font_bake_format == b.font_bake_format
    &&& a.font_bake_bit_depth == b.font_bake_bit_depth
    &&& a.font_bake_charset_tab == b.font_bake_charset_tab
    &&& a.font_bake_charset_text == b.font_bake_charset_text
    &&& a.font_bake_charset_ranges == b.font_bake_charset_ranges
    &&& a.font_bake_charset_file == b.font_bake_charset_file
    &&& a.indexed_dither == b.indexed_dither
    &&& a.merge_font_paths == b.merge_font_paths
    &&& a.font_mode == b.font_mode
    &&& a.glyph_diff_char == b.glyph_diff_char
    &&& a.opened_glyphs == b.opened_glyphs
    &&& a.glyph_convert_format == b.glyph_convert_format
    &&& a.path_export_format == b.path_export_format
}

/// The references into the workspace are the same.
pub open spec fn same_selection(a: ViewerState, b: ViewerState) -> bool {
    &&& a.selected_id == b.selected_id
    &&& a.primary_target == b.primary_target
    &&& a.selected_ids@ == b.selected_ids@
    &&& a.list_focus == b.list_focus
    &&& a.focused_id == b.focused_id
    &&& a.range_anchor == b.range_anchor
    &&& a.hovered_id == b.hovered_id
    &&& a.diff_image1_id == b.diff_image1_id
    &&& a.diff_image2_id == b.diff_image2_id
}

/// What the panels derived from the selected entry is the same.
pub open spec fn same_selection_cache(a: ViewerState, b: ViewerState) -> bool {
    &&& a.selected_op == b.selected_op
    &&& a.indexed_hover_palette == b.indexed_hover_palette
    &&& a.indexed_edit_palette == b.indexed_edit_palette
    &&& a.indexed_dither_cached == b.indexed_dither_cached
    &&& a.indexed_dither_cached_id == b.indexed_dither_cached_id
    &&& a.indexed_dither_cached_revision == b.indexed_dither_cached_revision
    &&& a.font_atlas_cached == b.font_atlas_cached
    &&& a.selected_glyph == b.selected_glyph
    &&& a.font_bundle_index == b.font_bundle_index
}

/// What the diff panel derived is the same.
pub open spec fn same_diff_cache(a: ViewerState, b: ViewerState) -> bool {
    &&& a.selected_diff_pixel == b.selected_diff_pixel
    &&& a.hovered_diff_pixel == b.hovered_diff_pixel
    &&& a.hovered_diff_pixel_from_plot == b.hovered_diff_pixel_from_plot
}

/// What the panels derived from the selected entry has been dropped.
pub open spec fn selection_cache_cleared(s: ViewerState) -> bool {
    &&& s.selected_op is None
    &&& s.indexed_hover_palette is None
    &&& s.indexed_edit_palette is None
    &&& s.indexed_dither_cached == u32::MAX
    &&& s.indexed_dither_cached_id is None
    &&& s.indexed_dither_cached_revision == 0
    &&& s.font_atlas_cached is None
    &&& s.selected_glyph is None
    &&& s.font_bundle_index == 0
}

/// What the diff panel derived has been dropped.
pub open spec fn diff_cache_cleared(s: ViewerState) -> bool {
    &&& s.selected_diff_pixel is None
    &&& s.hovered_diff_pixel is None
    &&& s.hovered_diff_pixel_from_plot is None
}

impl ViewerState {
    /// A well-formed workspace: no id occurs twice among the entries and the
    /// members of groups, every id (group ids included) is below the next one
    /// to be handed out, every group has one record, the selected ids ascend,
    /// and every single-frame image and member has a path that sequence
    /// detection can read.
    pub open spec fn wf(&self) -> bool {
        &&& item_ids(self.items@).no_duplicates()
        &&& grouped_ids(self.sequence_groups@).no_duplicates()
        &&& disjoint(item_ids(self.items@), grouped_ids(self.sequence_groups@))
        &&& forall|x: WorkspaceId| #[trigger]
            item_ids(self.items@).contains(x) ==> x.0 < self.next_workspace_id
        &&& forall|x: WorkspaceId| #[trigger]
            grouped_ids(self.sequence_groups@).contains(x) ==> x.0 < self.next_workspace_id
        &&& group_keys(self.sequence_groups@).no_duplicates()
        &&& forall|g: int|
            0 <= g < self.sequence_groups@.len() ==> (#[trigger] self.sequence_groups@[g]).0.0
                < self.next_workspace_id
        &&& ascending(self.selected_ids@)
        &&& forall|i: int| 0 <= i < self.items@.len() ==> content_ok(#[trigger] self.items@[i].content)
        &&& forall|g: int, m: int|
            0 <= g < self.sequence_groups@.len() && 0 <= m < self.sequence_groups@[g].1.members@.len()
                ==> frame_path_ok(#[trigger] self.sequence_groups@[g].1.members@[m].image.path@)
    }
}

/// In a well-formed workspace no id occurs twice among the entries and the
/// members of groups, and every id is below the next one to be handed out.
pub proof fn lemma_ids_unique(s: ViewerState)
    requires
        s.wf(),
    ensures
        all_ids(s).no_duplicates(),
        forall|k: int| 0 <= k < all_ids(s).len() ==> (#[trigger] all_ids(s)[k]).0 < s.next_workspace_id,
{
    lemma_concat_no_dup(item_ids(s.items@), grouped_ids(s.sequence_groups@));
    assert forall|k: int| 0 <= k < all_ids(s).len() implies (#[trigger] all_ids(s)[k]).0
        < s.next_workspace_id by {
        assert(all_ids(s).contains(all_ids(s)[k]));
    }
}

/// The position of an entry of a well-formed workspace is the one place
/// where its id is.
pub proof fn lemma_position(s: ViewerState, id: WorkspaceId)
    requires
        s.wf(),
        has_item(s, id),
    ensures
        position(s, id) matches Some(p) && 0 <= p < s.items@.len() && s.items@[p].id == id,
        forall|q: int| 0 <= q < s.items@.len() && #[trigger] s.items@[q].id == id ==> position(s, id) == Some(q),
{
    let k = choose|k: int| 0 <= k < item_ids(s.items@).len() && item_ids(s.items@)[k] == id;
    assert(s.items@[k].id == id);
    lemma_items_distinct(s);
}

/// Entries of a well-formed workspace have distinct ids.
pub proof fn lemma_items_distinct(s: ViewerState)
    requires
        s.wf(),
    ensures
        forall|i: int, j: int|
            0 <= i < s.items@.len() && 0 <= j < s.items@.len() && i != j ==> s.items@[i].id
                != s.items@[j].id,
{
    assert forall|i: int, j: int|
        0 <= i < s.items@.len() && 0 <= j < s.items@.len() && i != j implies s.items@[i].id
        != s.items@[j].id by {
        assert(item_ids(s.items@)[i] == s.items@[i].id);
        assert(item_ids(s.items@)[j] == s.items@[j].id);
    }
}


/// Entries for new contents, numbered from `first` on.
pub open spec fn fresh_items(contents: Seq<SidebarItem>, first: int) -> Seq<WorkspaceItem> {
    Seq::new(
        contents.len(),
        |k: int|
            WorkspaceItem {
                id: WorkspaceId((first + k) as u64),
                content_revision: 0,
                content: contents[k],
            },
    )
}

/// Hands out the next id.
pub(crate) fn allocate_id(next: &mut u64) -> (id: WorkspaceId)
    requires
        *old(next) < u64::MAX,
    ensures
        id.0 == *old(next),
        *final(next) == *old(next) + 1,
{
    let id = WorkspaceId(*next);
    *next = *next + 1;
    id
}

/// Adding an entry with a new id below the next one keeps the ids distinct.
proof fn lemma_insert_fresh_item(s: ViewerState, t: ViewerState, at: int, item: WorkspaceItem)
    requires
        s.wf(),
        0 <= at <= s.items@.len(),
        item.id.0 == s.next_workspace_id,
        t.next_workspace_id == s.next_workspace_id + 1,
        t.items@ == s.items@.insert(at, item),
        t.sequence_groups@ == s.sequence_groups@,
        t.selected_ids@ == s.selected_ids@,
        content_ok(item.content),
    ensures
        t.wf(),
        item_ids(t.items@) == item_ids(s.items@).insert(at, item.id),
{
    let ids = item_ids(s.items@);
    assert(item_ids(t.items@) =~= ids.insert(at, item.id));
    assert(!ids.contains(item.id));
    assert(!grouped_ids(s.sequence_groups@).contains(item.id));
    lemma_insert_contains(ids, at, item.id);
    lemma_insert_no_dup(ids, at, item.id);
    assert forall|i: int| 0 <= i < t.items@.len() implies content_ok(#[trigger] t.items@[i].content) by {
        if i < at {
            assert(t.items@[i] == s.items@[i]);
        } else if i > at {
            assert(t.items@[i] == s.items@[i - 1]);
        }
    }
}

impl Default for ViewerState {
    /// An empty workspace with the panels' initial settings.
    fn default() -> (s: Self)
        ensures
            s.wf(),
            s.items@.len() == 0,
            s.next_workspace_id == 1,
            s.sequence_groups@.len() == 0,
            s.selected_id is None,
            s.primary_target is None,
            s.renaming_group is None,
            s.rename_buffer@.len() == 0,
            s.selected_ids@.len() == 0,
            !s.list_focus,
            s.focused_id is None,
            s.range_anchor is None,
            s.hovered_id is None,
            s.input_format == ImageFormatCategory::Auto,
            s.diff_image1_id is None,
            s.diff_image2_id is None,
            diff_cache_cleared(s),
            !s.is_converting,
            s.font_preview_text@ == "The quick brown fox"@,
            s.path_mode == PathMode::Preview,
            s.indexed_edit_color == (Color32 { r: 255, g: 255, b: 255, a: 255 }),
            !s.indexed_show_quality,
            s.indexed_view_mode == IndexedViewMode::RGBA,
            s.font_bake_size == 24,
            s.font_bake_format@ == "sdf"@,
            s.font_bake_bit_depth == 4,
            s.font_bake_charset_tab == BakeCharsetTab::Text,
            s.font_bake_charset_text@ == "ABCabc012 .,;:!?"@,
            s.font_bake_charset_ranges@ == "U+0020-U+007F"@,
            s.font_bake_charset_file is None,
            s.indexed_dither == 0,
            selection_cache_cleared(s),
            s.merge_font_paths@.len() == 0,
            s.font_mode == FontMode::Grid,
            s.glyph_diff_char@ == "A"@,
            s.opened_glyphs@.len() == 0,
            s.glyph_convert_format@ == "LVGL"@,
            s.path_export_format@ == "PNG"@,
    {
        let s = ViewerState {
            items: Vec::new(),
            next_workspace_id: 1,
            sequence_groups: Vec::new(),
            selected_id: None,
            primary_target: None,
            renaming_group: None,
            rename_buffer: String::new(),
            selected_ids: Vec::new(),
            list_focus: false,
            focused_id: None,
            range_anchor: None,
            hovered_id: None,
            input_format: ImageFormatCategory::Auto,
            diff_image1_id: None,
            diff_image2_id: None,
            selected_diff_pixel: None,
            hovered_diff_pixel: None,
            hovered_diff_pixel_from_plot: None,
            is_converting: false,
            font_preview_text: "The quick brown fox".to_string(),
            selected_op: None,
            path_mode: PathMode::Preview,
            indexed_hover_palette: None,
            indexed_edit_palette: None,
            indexed_edit_color: Color32 { r: 255, g: 255, b: 255, a: 255 },
            indexed_show_quality: false,
            indexed_view_mode: IndexedViewMode::RGBA,
            font_bake_size: 24,
            font_bake_format: "sdf".to_string(),
            font_bake_bit_depth: 4,
            font_bake_charset_tab: BakeCharsetTab::Text,
            font_bake_charset_text: "ABCabc012 .,;:!?".to_string(),
            font_bake_charset_ranges: "U+0020-U+007F".to_string(),
            font_bake_charset_file: None,
            indexed_dither: 0,
            indexed_dither_cached: u32::MAX,
            indexed_dither_cached_id: None,
            indexed_dither_cached_revision: 0,
            merge_font_paths: Vec::new(),
            font_mode: FontMode::Grid,
            glyph_diff_char: "A".to_string(),
            selected_glyph: None,
            opened_glyphs: Vec::new(),
            glyph_convert_format: "LVGL".to_string(),
            path_export_format: "PNG".to_string(),
            font_atlas_cached: None,
            font_bundle_index: 0,
        };
        assert(item_ids(s.items@) =~= Seq::<WorkspaceId>::empty());
        assert(grouped_ids(s.sequence_groups@) =~= Seq::<WorkspaceId>::empty());
        assert(group_keys(s.sequence_groups@) =~= Seq::<WorkspaceId>::empty());
        s
    }
}

impl ViewerState {
    /// The entries, in sidebar order.
    pub fn items(&self) -> (r: &[WorkspaceItem])
        ensures
            r@ == self.items@,
    {
        self.items.as_slice()
    }

    /// The number of entries.
    pub fn len(&self) -> (n: usize)
        ensures
            n == self.items@.len(),
    {
        self.items.len()
    }

    /// Whether there are no entries.
    pub fn is_empty(&self) -> (b: bool)
        ensures
            b == (self.items@.len() == 0),
    {
        self.items.len() == 0
    }

    /// The position of the entry with the id.
    pub fn index_of(&self, id: WorkspaceId) -> (r: Option<usize>)
        requires
            self.wf(),
        ensures
            match r {
                Some(i) => position(*self, id) == Some(i as int) && i < self.items@.len()
                    && self.items@[i as int].id == id,
                None => position(*self, id) is None,
            },
    {
        let mut i: usize = 0;
        while i < self.items.len()
            invariant
                self.wf(),
                i <= self.items@.len(),
                forall|k: int| 0 <= k < i ==> self.items@[k].id != id,
            decreases self.items@.len() - i,
        {
            if self.items[i].id.0 == id.0 {
                proof {
                    lemma_items_distinct(*self);
                    assert(item_ids(self.items@)[i as int] == id);
                }
                return Some(i);
            }
            i += 1;
        }
        assert(!item_ids(self.items@).contains(id));
        None
    }

    /// The content of the entry with the id.
    pub fn item(&self, id: WorkspaceId) -> (r: Option<&SidebarItem>)
        requires
            self.wf(),
        ensures
            match position(*self, id) {
                Some(i) => r == Some(&self.items@[i].content),
                None => r is None,
            },
    {
        match self.index_of(id) {
            Some(i) => Some(&self.items[i].content),
            None => None,
        }
    }

    /// The content of the entry at the index, to be changed in place.
    pub fn content_at_mut(&mut self, index: usize) -> (r: Option<&mut SidebarItem>)
        ensures
            index >= old(self).items@.len() ==> r is None && *final(self) == *old(self),
            index < old(self).items@.len() ==> (r matches Some(c) && *c == old(self).items@[index as int].content
                && *final(self) == (ViewerState {
                items: final(self).items,
                ..*old(self)
            }) && final(self).items@ == old(self).items@.update(
                index as int,
                WorkspaceItem { content: *final(c), ..old(self).items@[index as int] },
            )),
    {
        if index < self.items.len() {
            Some(&mut self.items[index].content)
        } else {
            None
        }
    }

    /// The content of the entry with the id, to be changed in place.
    pub fn item_mut(&mut self, id: WorkspaceId) -> (r: Option<&mut SidebarItem>)
        requires
            old(self).wf(),
        ensures
            position(*old(self), id) is None ==> r is None && *final(self) == *old(self),
            position(*old(self), id) matches Some(i) ==> (r matches Some(c) && *c == old(self).items@[i].content
                && *final(self) == (ViewerState {
                items: final(self).items,
                ..*old(self)
            }) && final(self).items@ == old(self).items@.update(
                i,
                WorkspaceItem { content: *final(c), ..old(self).items@[i] },
            )),
    {
        match self.index_of(id) {
            Some(i) => self.content_at_mut(i),
            None => None,
        }
    }

    /// The content of the selected entry, to be changed in place.
    pub fn selected_item_mut(&mut self) -> (r: Option<&mut SidebarItem>)
        requires
            old(self).wf(),
        ensures
            match old(self).selected_id {
                Some(id) => match position(*old(self), id) {
                    Some(i) => r matches Some(c) && *c == old(self).items@[i].content && *final(self) == (
                    ViewerState { items: final(self).items, ..*old(self) }) && final(self).items@ == old(
                        self,
                    ).items@.update(i, WorkspaceItem { content: *final(c), ..old(self).items@[i] }),
                    None => r is None && *final(self) == *old(self),
                },
                None => r is None && *final(self) == *old(self),
            },
    {
        match self.selected_id {
            Some(id) => self.item_mut(id),
            None => None,
        }
    }

    /// The image of a content, if it is one, to be changed in place.
    fn image_of_mut(content: &mut SidebarItem) -> (r: Option<&mut ImageItem>)
        ensures
            match *old(content) {
                SidebarItem::Image(image) => r matches Some(m) && *m == image && *final(content) == SidebarItem::Image(*final(m)),
                SidebarItem::Glyph(_) => r is None && *final(content) == *old(content),
            },
    {
        match content {
            SidebarItem::Image(image) => Some(image),
            SidebarItem::Glyph(_) => None,
        }
    }

    /// The image of the selected entry, if it is an image, to be changed in
    /// place.
    pub fn current_image_mut(&mut self) -> (r: Option<&mut ImageItem>)
        requires
            old(self).wf(),
        ensures
            match old(self).selected_id {
                Some(id) => match position(*old(self), id) {
                    Some(i) => match old(self).items@[i].content {
                        SidebarItem::Image(image) => r matches Some(m) && *m == image && *final(self) == (
                        ViewerState { items: final(self).items, ..*old(self) }) && final(self).items@ == old(
                            self,
                        ).items@.update(
                            i,
                            WorkspaceItem { content: SidebarItem::Image(*final(m)), ..old(self).items@[i] },
                        ),
                        SidebarItem::Glyph(_) => r is None && final(self).items@ == old(self).items@ && *final(self) == (
                        ViewerState { items: final(self).items, ..*old(self) }),
                    },
                    None => r is None && *final(self) == *old(self),
                },
                None => r is None && *final(self) == *old(self),
            },
    {
        match self.selected_item_mut() {
            Some(content) => Self::image_of_mut(content),
            None => None,
        }
    }

    /// The content of the selected entry.
    pub fn selected_item(&self) -> (r: Option<&SidebarItem>)
        requires
            self.wf(),
        ensures
            match self.selected_id {
                Some(id) => match position(*self, id) {
                    Some(i) => r == Some(&self.items@[i].content),
                    None => r is None,
                },
                None => r is None,
            },
    {
        match self.selected_id {
            Some(id) => self.item(id),
            None => None,
        }
    }

    /// The image of the selected entry, if it is an image.
    pub fn current_image(&self) -> (r: Option<&ImageItem>)
        requires
            self.wf(),
        ensures
            match self.selected_id {
                Some(id) => match position(*self, id) {
                    Some(i) => match self.items@[i].content {
                        SidebarItem::Image(image) => r == Some(&image),
                        SidebarItem::Glyph(_) => r is None,
                    },
                    None => r is None,
                },
                None => r is None,
            },
    {
        match self.selected_item() {
            Some(SidebarItem::Image(image)) => Some(image),
            _ => None,
        }
    }

    /// Inserts entries for the contents at `index` (at the end when it is past
    /// the end), under new ids handed out in order. Returns the new ids.
    pub fn insert_items(&mut self, index: usize, contents: Vec<SidebarItem>) -> (ids: Vec<WorkspaceId>)
        requires
            old(self).wf(),
            old(self).next_workspace_id + contents@.len() <= u64::MAX,
            forall|k: int| 0 <= k < contents@.len() ==> content_ok(#[trigger] contents@[k]),
        ensures
            final(self).wf(),
            ids@.len() == contents@.len(),
            forall|k: int| 0 <= k < ids@.len() ==> (#[trigger] ids@[k]).0 == old(self).next_workspace_id + k,
            final(self).next_workspace_id == old(self).next_workspace_id + contents@.len(),
            final(self).items@ == ({
                let at = if index < old(self).items@.len() {
                    index as int
                } else {
                    old(self).items@.len() as int
                };
                old(self).items@.take(at) + fresh_items(contents@, old(self).next_workspace_id as int)
                    + old(self).items@.skip(at)
            }),
            final(self).sequence_groups@ == old(self).sequence_groups@,
            same_selection(*final(self), *old(self)),
            same_settings(*final(self), *old(self)),
            same_selection_cache(*final(self), *old(self)),
            same_diff_cache(*final(self), *old(self)),
    {
        let mut at: usize = if index < self.items.len() {
            index
        } else {
            self.items.len()
        };
        let ghost at0 = at as int;
        let ghost start = *self;
        let ghost first = self.next_workspace_id as int;
        let ghost all = contents@;
        let mut rest = contents;
        let mut inserted: Vec<WorkspaceId> = Vec::new();
        let mut k: usize = 0;
        while rest.len() > 0
            invariant
                self.wf(),
                k <= all.len(),
                rest@ == all.skip(k as int),
                at == at0 + k,
                at <= self.items@.len(),
                0 <= at0 <= start.items@.len(),
                first + all.len() <= u64::MAX,
                self.next_workspace_id == first + k,
                forall|j: int| 0 <= j < all.len() ==> content_ok(#[trigger] all[j]),
                self.items@ == start.items@.take(at0) + fresh_items(all.take(k as int), first)
                    + start.items@.skip(at0),
                inserted@.len() == k,
                forall|j: int| 0 <= j < k ==> (#[trigger] inserted@[j]).0 == first + j,
                self.sequence_groups@ == start.sequence_groups@,
                same_selection(*self, start),
                same_settings(*self, start),
                same_selection_cache(*self, start),
                same_diff_cache(*self, start),
            decreases rest@.len(),
        {
            let content = rest.remove(0);
            assert(content == all[k as int]);
            let ghost before = *self;
            let id = allocate_id(&mut self.next_workspace_id);
            let item = WorkspaceItem { id, content_revision: 0, content };
            self.items.insert(at, item);
            proof {
                lemma_insert_fresh_item(before, *self, at as int, item);
                assert(all.take(k + 1) == all.take(k as int).push(all[k as int]));
                assert(fresh_items(all.take(k + 1), first) =~= fresh_items(all.take(k as int), first).push(
                    item,
                ));
                assert(self.items@ =~= start.items@.take(at0) + fresh_items(all.take(k + 1), first)
                    + start.items@.skip(at0));
                assert(rest@ =~= all.skip(k + 1));
            }
            inserted.push(id);
            let len = self.items.len();
            assert(at < len);
            at += 1;
            k += 1;
        }
        assert(k == all.len());
        assert(all.take(k as int) == all);
        inserted
    }

    /// Appends entries for the contents. Returns the new ids.
    pub fn append_items(&mut self, contents: Vec<SidebarItem>) -> (ids: Vec<WorkspaceId>)
        requires
            old(self).wf(),
            old(self).next_workspace_id + contents@.len() <= u64::MAX,
            forall|k: int| 0 <= k < contents@.len() ==> content_ok(#[trigger] contents@[k]),
        ensures
            final(self).wf(),
            ids@.len() == contents@.len(),
            forall|k: int| 0 <= k < ids@.len() ==> (#[trigger] ids@[k]).0 == old(self).next_workspace_id + k,
            final(self).next_workspace_id == old(self).next_workspace_id + contents@.len(),
            final(self).items@ == old(self).items@ + fresh_items(
                contents@,
                old(self).next_workspace_id as int,
            ),
            final(self).sequence_groups@ == old(self).sequence_groups@,
            same_selection(*final(self), *old(self)),
            same_settings(*final(self), *old(self)),
            same_selection_cache(*final(self), *old(self)),
            same_diff_cache(*final(self), *old(self)),
    {
        let n = self.items.len();
        let ids = self.insert_items(n, contents);
        assert(old(self).items@.take(n as int) == old(self).items@);
        assert(old(self).items@.skip(n as int) =~= Seq::<WorkspaceItem>::empty());
        ids
    }
}


/// The ids of the image entries among the entries.
pub open spec fn image_id_set(items: Seq<WorkspaceItem>) -> Set<WorkspaceId> {
    Set::new(
        |x: WorkspaceId|
            exists|i: int| 0 <= i < items.len() && items[i].id == x && #[trigger] items[i].content is Image,
    )
}

/// The ids of the entries at positions `lo` to `hi`, both included.
pub open spec fn range_id_set(items: Seq<WorkspaceItem>, lo: int, hi: int) -> Set<WorkspaceId> {
    Set::new(|x: WorkspaceId| exists|i: int| lo <= i <= hi && #[trigger] items[i].id == x)
}

/// The selection after selecting the entry `id` alone.
pub open spec fn selected_alone(old: ViewerState, new: ViewerState, id: WorkspaceId) -> bool {
    &&& new.selected_id == Some(id)
    &&& new.primary_target == Some(SelectionTarget::Entry(id))
    &&& new.selected_ids@ == seq![id]
    &&& new.focused_id == Some(id)
    &&& new.range_anchor == Some(id)
    &&& new.hovered_id == old.hovered_id
    &&& new.diff_image1_id == old.diff_image1_id
    &&& new.diff_image2_id == old.diff_image2_id
    &&& if old.selected_id != Some(id) {
        selection_cache_cleared(new)
    } else {
        same_selection_cache(new, old)
    }
}

impl ViewerState {
    /// Drops what the panels derived from the selected entry.
    pub(crate) fn invalidate_selection_state(&mut self)
        ensures
            selection_cache_cleared(*final(self)),
            same_workspace(*final(self), *old(self)),
            same_selection(*final(self), *old(self)),
            same_settings(*final(self), *old(self)),
            same_diff_cache(*final(self), *old(self)),
    {
        self.selected_op = None;
        self.indexed_hover_palette = None;
        self.indexed_edit_palette = None;
        self.indexed_dither_cached = u32::MAX;
        self.indexed_dither_cached_id = None;
        self.indexed_dither_cached_revision = 0;
        self.font_atlas_cached = None;
        self.selected_glyph = None;
        self.font_bundle_index = 0;
    }

    /// Drops what the panels derived from the entries, the diff included.
    pub(crate) fn invalidate_derived_state(&mut self)
        ensures
            selection_cache_cleared(*final(self)),
            diff_cache_cleared(*final(self)),
            same_workspace(*final(self), *old(self)),
            same_selection(*final(self), *old(self)),
            same_settings(*final(self), *old(self)),
    {
        self.selected_diff_pixel = None;
        self.hovered_diff_pixel = None;
        self.hovered_diff_pixel_from_plot = None;
        self.invalidate_selection_state();
    }

    /// Selects the entry alone: it becomes the selected, focused and anchor
    /// entry. A change of entry drops what the panels derived from the
    /// previous one. False, and nothing changes, when there is no such entry.
    pub fn select(&mut self, id: WorkspaceId) -> (selected: bool)
        requires
            old(self).wf(),
        ensures
            final(self).wf(),
            selected == has_item(*old(self), id),
            same_workspace(*final(self), *old(self)),
            same_settings(*final(self), *old(self)),
            same_diff_cache(*final(self), *old(self)),
            final(self).list_focus == old(self).list_focus,
            selected ==> selected_alone(*old(self), *final(self), id),
            !selected ==> same_selection(*final(self), *old(self)) && same_selection_cache(
                *final(self),
                *old(self),
            ),
    {
        if self.index_of(id).is_none() {
            return false;
        }
        let changed = match self.selected_id {
            Some(current) => current.0 != id.0,
            None => true,
        };
        self.selected_id = Some(id);
        self.primary_target = Some(SelectionTarget::Entry(id));
        let mut only: Vec<WorkspaceId> = Vec::new();
        only.push(id);
        self.selected_ids = only;
        self.focused_id = Some(id);
        self.range_anchor = Some(id);
        if changed {
            self.invalidate_selection_state();
        }
        assert(self.selected_ids@ =~= seq![id]);
        true
    }

    /// Selects the entry and gives the list the keyboard focus.
    pub fn focus_list(&mut self, id: WorkspaceId) -> (selected: bool)
        requires
            old(self).wf(),
        ensures
            final(self).wf(),
            selected == has_item(*old(self), id),
            same_workspace(*final(self), *old(self)),
            same_settings(*final(self), *old(self)),
            same_diff_cache(*final(self), *old(self)),
            selected ==> selected_alone(*old(self), *final(self), id) && final(self).list_focus,
            !selected ==> same_selection(*final(self), *old(self)) && same_selection_cache(
                *final(self),
                *old(self),
            ),
    {
        if !self.select(id) {
            return false;
        }
        self.list_focus = true;
        true
    }

    /// Takes the keyboard focus from the list.
    pub fn blur_list(&mut self)
        ensures
            !final(self).list_focus,
            same_workspace(*final(self), *old(self)),
            same_settings(*final(self), *old(self)),
            same_selection_cache(*final(self), *old(self)),
            same_diff_cache(*final(self), *old(self)),
            final(self).selected_id == old(self).selected_id,
            final(self).primary_target == old(self).primary_target,
            final(self).selected_ids@ == old(self).selected_ids@,
            final(self).focused_id == old(self).focused_id,
            final(self).range_anchor == old(self).range_anchor,
            final(self).hovered_id == old(self).hovered_id,
            final(self).diff_image1_id == old(self).diff_image1_id,
            final(self).diff_image2_id == old(self).diff_image2_id,
    {
        self.list_focus = false;
    }
}


impl ViewerState {
    /// Adds the entry to the selection or takes it out, and makes it the
    /// focused, selected entry of a focused list. When that empties the
    /// selection, the entry is selected alone instead. False, and nothing
    /// changes, when there is no such entry.
    pub fn toggle_selection(&mut self, id: WorkspaceId) -> (done: bool)
        requires
            old(self).wf(),
        ensures
            final(self).wf(),
            done == has_item(*old(self), id),
            same_workspace(*final(self), *old(self)),
            same_settings(*final(self), *old(self)),
            same_diff_cache(*final(self), *old(self)),
            !done ==> same_selection(*final(self), *old(self)) && same_selection_cache(
                *final(self),
                *old(self),
            ),
            done ==> final(self).list_focus,
            done ==> ({
                let was = old(self).selected_ids@.to_set();
                let toggled = if was.contains(id) {
                    was.remove(id)
                } else {
                    was.insert(id)
                };
                if toggled.is_empty() {
                    selected_alone(*old(self), *final(self), id)
                } else {
                    &&& final(self).selected_ids@.to_set() == toggled
                    &&& final(self).selected_id == Some(id)
                    &&& final(self).primary_target == Some(SelectionTarget::Entry(id))
                    &&& final(self).focused_id == Some(id)
                    &&& final(self).range_anchor == old(self).range_anchor
                    &&& final(self).hovered_id == old(self).hovered_id
                    &&& final(self).diff_image1_id == old(self).diff_image1_id
                    &&& final(self).diff_image2_id == old(self).diff_image2_id
                    &&& same_selection_cache(*final(self), *old(self))
                }
            }),
    {
        if self.index_of(id).is_none() {
            return false;
        }
        self.list_focus = true;
        self.focused_id = Some(id);
        let ghost was = self.selected_ids@.to_set();
        if !set_remove(&mut self.selected_ids, id) {
            set_insert(&mut self.selected_ids, id);
        }
        let ghost toggled = self.selected_ids@.to_set();
        if self.selected_ids.len() == 0 {
            assert(toggled =~= Set::<WorkspaceId>::empty());
            self.select(id);
        } else {
            assert(toggled.contains(self.selected_ids@[0]));
            self.selected_id = Some(id);
            self.primary_target = Some(SelectionTarget::Entry(id));
        }
        true
    }

    /// Selects the entries from the anchor (or the selected entry) to this
    /// one, both included, and makes this one the focused, selected entry of
    /// a focused list. Without an anchor entry it selects this one alone;
    /// false, and nothing changes, when there is no such entry.
    pub fn extend_selection(&mut self, id: WorkspaceId) -> (done: bool)
        requires
            old(self).wf(),
        ensures
            final(self).wf(),
            same_workspace(*final(self), *old(self)),
            same_settings(*final(self), *old(self)),
            same_diff_cache(*final(self), *old(self)),
            ({
                let anchor = match old(self).range_anchor {
                    Some(a) => Some(a),
                    None => old(self).selected_id,
                };
                match anchor {
                    Some(a) if has_item(*old(self), a) => {
                        &&& done == has_item(*old(self), id)
                        &&& !done ==> same_selection(*final(self), *old(self)) && same_selection_cache(
                            *final(self),
                            *old(self),
                        )
                        &&& done ==> ({
                            let p = position(*old(self), a)->0;
                            let q = position(*old(self), id)->0;
                            let lo = if p <= q {
                                p
                            } else {
                                q
                            };
                            let hi = if p <= q {
                                q
                            } else {
                                p
                            };
                            &&& final(self).selected_ids@.to_set() == range_id_set(old(self).items@, lo, hi)
                            &&& final(self).selected_id == Some(id)
                            &&& final(self).primary_target == Some(SelectionTarget::Entry(id))
                            &&& final(self).focused_id == Some(id)
                            &&& final(self).list_focus
                            &&& final(self).range_anchor == old(self).range_anchor
                            &&& final(self).hovered_id == old(self).hovered_id
                            &&& final(self).diff_image1_id == old(self).diff_image1_id
                            &&& final(self).diff_image2_id == old(self).diff_image2_id
                            &&& same_selection_cache(*final(self), *old(self))
                        })
                    },
                    _ => {
                        &&& done == has_item(*old(self), id)
                        &&& final(self).list_focus == old(self).list_focus
                        &&& done ==> selected_alone(*old(self), *final(self), id)
                        &&& !done ==> same_selection(*final(self), *old(self)) && same_selection_cache(
                            *final(self),
                            *old(self),
                        )
                    },
                }
            }),
    {
        let anchor = match self.range_anchor {
            Some(a) => a,
            None => match self.selected_id {
                Some(a) => a,
                None => {
                    return self.select(id);
                },
            },
        };
        let a = match self.index_of(anchor) {
            Some(a) => a,
            None => {
                return self.select(id);
            },
        };
        let b = match self.index_of(id) {
            Some(b) => b,
            None => {
                return false;
            },
        };
        let (start, end) = if a <= b {
            (a, b)
        } else {
            (b, a)
        };
        let mut ids: Vec<WorkspaceId> = Vec::new();
        let mut i = start;
        let len = self.items.len();
        while i <= end
            invariant
                start <= i <= end + 1,
                end < len,
                len == self.items@.len(),
                ids@.len() == i - start,
                forall|k: int| 0 <= k < ids@.len() ==> ids@[k] == self.items@[start + k].id,
            decreases end + 1 - i,
        {
            ids.push(self.items[i].id);
            i += 1;
        }
        let set = set_of(&ids);
        assert forall|x: WorkspaceId| set@.to_set().contains(x) == range_id_set(
            self.items@,
            start as int,
            end as int,
        ).contains(x) by {
            assert(set@.to_set().contains(x) == ids@.contains(x));
            if ids@.contains(x) {
                let k = choose|k: int| 0 <= k < ids@.len() && ids@[k] == x;
                assert(self.items@[start + k].id == x);
            }
            if range_id_set(self.items@, start as int, end as int).contains(x) {
                let j = choose|j: int| start <= j <= end && #[trigger] self.items@[j].id == x;
                assert(ids@[j - start] == x);
            }
        }
        assert(set@.to_set() =~= range_id_set(self.items@, start as int, end as int));
        self.selected_ids = set;
        self.selected_id = Some(id);
        self.primary_target = Some(SelectionTarget::Entry(id));
        self.focused_id = Some(id);
        self.list_focus = true;
        true
    }

    /// Moves the selection by `delta` entries from the focused (or selected,
    /// or first) entry, staying within the list, when the list has the
    /// keyboard focus. False when the list is unfocused or empty or the
    /// selection would not move.
    pub fn move_selection(&mut self, delta: isize) -> (moved: bool)
        requires
            old(self).wf(),
        ensures
            final(self).wf(),
            same_workspace(*final(self), *old(self)),
            same_settings(*final(self), *old(self)),
            same_diff_cache(*final(self), *old(self)),
            final(self).list_focus == old(self).list_focus,
            ({
                let len = old(self).items@.len() as int;
                let from = match old(self).focused_id {
                    Some(f) => Some(f),
                    None => old(self).selected_id,
                };
                let current = match from {
                    Some(f) => match position(*old(self), f) {
                        Some(p) => p,
                        None => 0,
                    },
                    None => 0,
                };
                let target = current + delta;
                let next = if target < 0 {
                    0
                } else if target > len - 1 {
                    len - 1
                } else {
                    target
                };
                if !old(self).list_focus || len == 0 || next == current {
                    !moved && same_selection(*final(self), *old(self)) && same_selection_cache(
                        *final(self),
                        *old(self),
                    )
                } else {
                    moved && selected_alone(*old(self), *final(self), old(self).items@[next].id)
                }
            }),
    {
        if !self.list_focus || self.items.len() == 0 {
            return false;
        }
        let from = match self.focused_id {
            Some(f) => Some(f),
            None => self.selected_id,
        };
        let current: usize = match from {
            Some(f) => match self.index_of(f) {
                Some(p) => p,
                None => 0,
            },
            None => 0,
        };
        let len = self.items.len();
        let target: i128 = current as i128 + delta as i128;
        let last: i128 = len as i128 - 1;
        let next: usize = if target < 0 {
            0
        } else if target > last {
            len - 1
        } else {
            target as usize
        };
        if next == current {
            return false;
        }
        let id = self.items[next].id;
        proof {
            lemma_items_distinct(*self);
            assert(item_ids(self.items@)[next as int] == id);
        }
        self.select(id)
    }

    /// Selects every image entry; the selected entry stays when it is an
    /// image, else the image with the lowest id becomes the selected one.
    pub fn select_all(&mut self)
        requires
            old(self).wf(),
        ensures
            final(self).wf(),
            same_workspace(*final(self), *old(self)),
            same_settings(*final(self), *old(self)),
            same_selection_cache(*final(self), *old(self)),
            same_diff_cache(*final(self), *old(self)),
            final(self).selected_ids@.to_set() == image_id_set(old(self).items@),
            final(self).selected_id == match old(self).selected_id {
                Some(s) if image_id_set(old(self).items@).contains(s) => Some(s),
                _ => if final(self).selected_ids@.len() > 0 {
                    Some(final(self).selected_ids@[0])
                } else {
                    None
                },
            },
            forall|k: int|
                0 <= k < final(self).selected_ids@.len() ==> final(self).selected_ids@[0].0
                    <= (#[trigger] final(self).selected_ids@[k]).0,
            match final(self).selected_id {
                Some(s) => final(self).focused_id == Some(s) && final(self).primary_target == Some(
                    SelectionTarget::Entry(s),
                ),
                None => final(self).focused_id == old(self).focused_id && final(self).primary_target
                    == old(self).primary_target,
            },
            final(self).list_focus == old(self).list_focus,
            final(self).range_anchor == old(self).range_anchor,
            final(self).hovered_id == old(self).hovered_id,
            final(self).diff_image1_id == old(self).diff_image1_id,
            final(self).diff_image2_id == old(self).diff_image2_id,
    {
        let mut set: Vec<WorkspaceId> = Vec::new();
        let mut i: usize = 0;
        while i < self.items.len()
            invariant
                i <= self.items@.len(),
                ascending(set@),
                set@.to_set() == image_id_set(self.items@.take(i as int)),
            decreases self.items@.len() - i,
        {
            let ghost prev = self.items@.take(i as int);
            let ghost next = self.items@.take(i + 1);
            let is_image = match &self.items[i].content {
                SidebarItem::Image(_) => true,
                SidebarItem::Glyph(_) => false,
            };
            let ghost before_set = set@.to_set();
            if is_image {
                set_insert(&mut set, self.items[i].id);
            }
            assert(next[i as int] == self.items@[i as int]);
            assert(is_image == (next[i as int].content is Image));
            assert forall|x: WorkspaceId| set@.to_set().contains(x) == image_id_set(next).contains(
                x,
            ) by {
                if x == self.items@[i as int].id && is_image {
                    assert(next[i as int].id == x && next[i as int].content is Image);
                    assert(image_id_set(next).contains(x));
                }
                if image_id_set(next).contains(x) {
                    let j = choose|j: int|
                        0 <= j < next.len() && next[j].id == x && #[trigger] next[j].content is Image;
                    if j < i {
                        assert(prev[j] == next[j]);
                        assert(image_id_set(prev).contains(x));
                    }
                }
                if image_id_set(prev).contains(x) {
                    let j = choose|j: int|
                        0 <= j < prev.len() && prev[j].id == x && #[trigger] prev[j].content is Image;
                    assert(next[j] == prev[j]);
                }
            }
            assert(set@.to_set() =~= image_id_set(next));
            i += 1;
        }
        assert(self.items@.take(self.items@.len() as int) == self.items@);
        let keep = match self.selected_id {
            Some(s) => set_contains(&set, s),
            None => false,
        };
        if !keep {
            self.selected_id = if set.len() > 0 {
                Some(set[0])
            } else {
                None
            };
        }
        self.selected_ids = set;
        match self.selected_id {
            Some(s) => {
                self.focused_id = Some(s);
                self.primary_target = Some(SelectionTarget::Entry(s));
            },
            None => {},
        }
    }
}


/// The member ids of two runs of groups are those of the first run followed
/// by those of the second.
pub proof fn lemma_grouped_concat(a: Seq<(WorkspaceId, SequenceGroup)>, b: Seq<(WorkspaceId, SequenceGroup)>)
    ensures
        grouped_ids(a + b) == grouped_ids(a) + grouped_ids(b),
    decreases b.len(),
{
    if b.len() == 0 {
        assert(a + b == a);
        assert(grouped_ids(b) =~= Seq::<WorkspaceId>::empty());
        assert(grouped_ids(a) + grouped_ids(b) =~= grouped_ids(a));
    } else {
        lemma_grouped_concat(a, b.drop_last());
        assert((a + b).drop_last() == a + b.drop_last());
        assert((a + b).last() == b.last());
        assert(grouped_ids(a + b) =~= grouped_ids(a) + grouped_ids(b));
    }
}

/// Taking out group `g` takes out exactly its members.
pub proof fn lemma_grouped_remove(gs: Seq<(WorkspaceId, SequenceGroup)>, g: int)
    requires
        0 <= g < gs.len(),
        grouped_ids(gs).no_duplicates(),
    ensures
        grouped_ids(gs.remove(g)).no_duplicates(),
        member_ids(gs[g].1).no_duplicates(),
        disjoint(grouped_ids(gs.remove(g)), member_ids(gs[g].1)),
        forall|x: WorkspaceId| #[trigger]
            grouped_ids(gs).contains(x) <==> grouped_ids(gs.remove(g)).contains(x) || member_ids(
                gs[g].1,
            ).contains(x),
        group_keys(gs.remove(g)) == group_keys(gs).remove(g),
{
    let a = gs.take(g);
    let b = gs.skip(g + 1);
    let one = seq![gs[g]];
    assert(gs == a + one + b);
    assert(gs.remove(g) == a + b);
    lemma_grouped_concat(a + one, b);
    lemma_grouped_concat(a, one);
    lemma_grouped_concat(a, b);
    assert(one.drop_last() =~= Seq::<(WorkspaceId, SequenceGroup)>::empty());
    assert(grouped_ids(one.drop_last()) =~= Seq::<WorkspaceId>::empty());
    assert(one.last() == gs[g]);
    assert(grouped_ids(one) =~= member_ids(gs[g].1));
    let ga = grouped_ids(a);
    let gm = member_ids(gs[g].1);
    let gb = grouped_ids(b);
    lemma_concat_no_dup(ga + gm, gb);
    lemma_concat_no_dup(ga, gm);
    lemma_concat_no_dup(ga, gb);
    lemma_concat_no_dup(ga + gb, gm);
    assert(group_keys(gs.remove(g)) =~= group_keys(gs).remove(g));
}

/// The position of the group record of the entry `id`, if it is a group.
pub open spec fn group_position(s: ViewerState, id: WorkspaceId) -> Option<int> {
    if group_keys(s.sequence_groups@).contains(id) {
        Some(choose|g: int| 0 <= g < s.sequence_groups@.len() && s.sequence_groups@[g].0 == id)
    } else {
        None
    }
}

/// The group records without the one of `id`.
pub open spec fn groups_without(s: ViewerState, id: WorkspaceId) -> Seq<(WorkspaceId, SequenceGroup)> {
    match group_position(s, id) {
        Some(g) => s.sequence_groups@.remove(g),
        None => s.sequence_groups@,
    }
}

impl ViewerState {
    /// The position of the group record of the entry `id`.
    pub(crate) fn group_index(&self, id: WorkspaceId) -> (r: Option<usize>)
        requires
            self.wf(),
        ensures
            match r {
                Some(g) => group_position(*self, id) == Some(g as int) && g < self.sequence_groups@.len()
                    && self.sequence_groups@[g as int].0 == id,
                None => group_position(*self, id) is None,
            },
    {
        let mut g: usize = 0;
        while g < self.sequence_groups.len()
            invariant
                self.wf(),
                g <= self.sequence_groups@.len(),
                forall|k: int| 0 <= k < g ==> self.sequence_groups@[k].0 != id,
            decreases self.sequence_groups@.len() - g,
        {
            if self.sequence_groups[g].0.0 == id.0 {
                proof {
                    assert(group_keys(self.sequence_groups@)[g as int] == id);
                    assert forall|k: int|
                        0 <= k < self.sequence_groups@.len() && self.sequence_groups@[k].0 == id implies k
                        == g by {
                        assert(group_keys(self.sequence_groups@)[k] == id);
                    }
                }
                return Some(g);
            }
            g += 1;
        }
        assert forall|k: int| 0 <= k < group_keys(self.sequence_groups@).len() implies group_keys(
            self.sequence_groups@,
        )[k] != id by {
            assert(group_keys(self.sequence_groups@)[k] == self.sequence_groups@[k].0);
        }
        None
    }

    /// Whether the entry is a group of images.
    pub fn is_sequence_group(&self, id: WorkspaceId) -> (b: bool)
        requires
            self.wf(),
        ensures
            b == group_keys(self.sequence_groups@).contains(id),
    {
        self.group_index(id).is_some()
    }
}


/// Whether an optional reference points at the id.
pub(crate) fn points_at(reference: Option<WorkspaceId>, id: WorkspaceId) -> (b: bool)
    ensures
        b == (reference == Some(id)),
{
    match reference {
        Some(r) => r.0 == id.0,
        None => false,
    }
}

/// Removing an entry, with its group record if it is a group, keeps the
/// workspace well formed.
proof fn lemma_remove_entry(s: ViewerState, t: ViewerState, p: int)
    requires
        s.wf(),
        0 <= p < s.items@.len(),
        t.items@ == s.items@.remove(p),
        t.sequence_groups@ == groups_without(s, s.items@[p].id),
        t.next_workspace_id == s.next_workspace_id,
        ascending(t.selected_ids@),
    ensures
        t.wf(),
        forall|x: WorkspaceId| #[trigger]
            item_ids(t.items@).contains(x) <==> item_ids(s.items@).contains(x) && x != s.items@[p].id,
{
    let id = s.items@[p].id;
    let ids = item_ids(s.items@);
    assert(item_ids(t.items@) =~= ids.remove(p));
    lemma_remove_contains(ids, p);
    assert(ids[p] == id);
    let gs = s.sequence_groups@;
    match group_position(s, id) {
        Some(g) => {
            lemma_grouped_remove(gs, g);
            assert(t.sequence_groups@ == gs.remove(g));
            lemma_remove_contains(group_keys(gs), g);
            assert forall|k: int| 0 <= k < t.sequence_groups@.len() implies (
            #[trigger] t.sequence_groups@[k]).0.0 < t.next_workspace_id by {
                let j = if k < g {
                    k
                } else {
                    k + 1
                };
                assert(t.sequence_groups@[k] == gs[j]);
            }
            assert forall|a: int, m: int|
                0 <= a < t.sequence_groups@.len() && 0 <= m < t.sequence_groups@[a].1.members@.len()
                    implies frame_path_ok(#[trigger] t.sequence_groups@[a].1.members@[m].image.path@) by {
                let j = if a < g {
                    a
                } else {
                    a + 1
                };
                assert(t.sequence_groups@[a] == gs[j]);
            }
        },
        None => {
            assert(t.sequence_groups@ == gs);
        },
    }
    assert forall|i: int| 0 <= i < t.items@.len() implies content_ok(#[trigger] t.items@[i].content) by {
        if i < p {
            assert(t.items@[i] == s.items@[i]);
        } else {
            assert(t.items@[i] == s.items@[i + 1]);
        }
    }
    assert forall|x: WorkspaceId| #[trigger]
        grouped_ids(t.sequence_groups@).contains(x) implies grouped_ids(gs).contains(x) by {
        match group_position(s, id) {
            Some(g) => {
                lemma_grouped_remove(gs, g);
            },
            None => {},
        }
    }
    assert(disjoint(item_ids(t.items@), grouped_ids(t.sequence_groups@)));
    assert(grouped_ids(t.sequence_groups@).no_duplicates());
    assert(group_keys(t.sequence_groups@).no_duplicates());
}

impl ViewerState {
    /// Removes the entry (and its group record, if it is a group) and returns
    /// its content. References to it are dropped; when it was the selected
    /// entry, the entry that takes its place (else the last one) becomes the
    /// selected and focused entry and joins the selection. What the panels
    /// derived is dropped. Nothing changes when there is no such entry.
    pub fn remove_id(&mut self, id: WorkspaceId) -> (removed: Option<SidebarItem>)
        requires
            old(self).wf(),
        ensures
            final(self).wf(),
            removed is Some == has_item(*old(self), id),
            same_settings(*final(self), *old(self)),
            removed is None ==> same_workspace(*final(self), *old(self)) && same_selection(
                *final(self),
                *old(self),
            ) && same_selection_cache(*final(self), *old(self)) && same_diff_cache(
                *final(self),
                *old(self),
            ),
            removed matches Some(c) ==> ({
                let p = position(*old(self), id)->0;
                let was_selected = old(self).selected_id == Some(id);
                let rest = final(self).items@;
                &&& c == old(self).items@[p].content
                &&& rest == old(self).items@.remove(p)
                &&& final(self).sequence_groups@ == groups_without(*old(self), id)
                &&& final(self).next_workspace_id == old(self).next_workspace_id
                &&& selection_cache_cleared(*final(self))
                &&& diff_cache_cleared(*final(self))
                &&& final(self).primary_target == old(self).primary_target
                &&& final(self).list_focus == old(self).list_focus
                &&& final(self).range_anchor == if old(self).range_anchor == Some(id) {
                    None
                } else {
                    old(self).range_anchor
                }
                &&& final(self).hovered_id == if old(self).hovered_id == Some(id) {
                    None
                } else {
                    old(self).hovered_id
                }
                &&& final(self).diff_image1_id == if old(self).diff_image1_id == Some(id) {
                    None
                } else {
                    old(self).diff_image1_id
                }
                &&& final(self).diff_image2_id == if old(self).diff_image2_id == Some(id) {
                    None
                } else {
                    old(self).diff_image2_id
                }
                &&& final(self).selected_id == if was_selected {
                    if p < rest.len() {
                        Some(rest[p].id)
                    } else if rest.len() > 0 {
                        Some(rest.last().id)
                    } else {
                        None
                    }
                } else {
                    old(self).selected_id
                }
                &&& final(self).selected_ids@.to_set() == match final(self).selected_id {
                    Some(next) if was_selected => old(self).selected_ids@.to_set().remove(id).insert(
                        next,
                    ),
                    _ => old(self).selected_ids@.to_set().remove(id),
                }
                &&& final(self).focused_id == match final(self).selected_id {
                    Some(next) if was_selected => Some(next),
                    _ => if old(self).focused_id == Some(id) {
                        None
                    } else {
                        old(self).focused_id
                    },
                }
            }),
    {
        let index = match self.index_of(id) {
            Some(i) => i,
            None => {
                return None;
            },
        };
        let group = self.group_index(id);
        let ghost start = *self;
        let item = self.items.remove(index);
        match group {
            Some(g) => {
                let _dropped = self.sequence_groups.remove(g);
            },
            None => {},
        }
        set_remove(&mut self.selected_ids, id);
        proof {
            lemma_remove_entry(start, *self, index as int);
        }
        if points_at(self.focused_id, id) {
            self.focused_id = None;
        }
        if points_at(self.range_anchor, id) {
            self.range_anchor = None;
        }
        if points_at(self.selected_id, id) {
            let len = self.items.len();
            self.selected_id = if index < len {
                Some(self.items[index].id)
            } else if len > 0 {
                Some(self.items[len - 1].id)
            } else {
                None
            };
            match self.selected_id {
                Some(next) => {
                    set_insert(&mut self.selected_ids, next);
                    self.focused_id = Some(next);
                },
                None => {},
            }
        }
        if points_at(self.hovered_id, id) {
            self.hovered_id = None;
        }
        if points_at(self.diff_image1_id, id) {
            self.diff_image1_id = None;
        }
        if points_at(self.diff_image2_id, id) {
            self.diff_image2_id = None;
        }
        self.invalidate_derived_state();
        Some(item.content)
    }

    /// Removes every entry.
    pub fn clear_items(&mut self)
        requires
            old(self).wf(),
        ensures
            final(self).wf(),
            final(self).items@.len() == 0,
            final(self).sequence_groups@.len() == 0,
            final(self).next_workspace_id == old(self).next_workspace_id,
            final(self).selected_id is None,
            final(self).selected_ids@.len() == 0,
            final(self).focused_id is None,
            final(self).range_anchor is None,
            final(self).hovered_id is None,
            final(self).diff_image1_id is None,
            final(self).diff_image2_id is None,
            final(self).primary_target == old(self).primary_target,
            final(self).list_focus == old(self).list_focus,
            selection_cache_cleared(*final(self)),
            diff_cache_cleared(*final(self)),
            same_settings(*final(self), *old(self)),
    {
        self.items.clear();
        self.sequence_groups.clear();
        self.selected_id = None;
        self.selected_ids.clear();
        self.focused_id = None;
        self.range_anchor = None;
        self.hovered_id = None;
        self.diff_image1_id = None;
        self.diff_image2_id = None;
        self.invalidate_derived_state();
        assert(item_ids(self.items@) =~= Seq::<WorkspaceId>::empty());
        assert(grouped_ids(self.sequence_groups@) =~= Seq::<WorkspaceId>::empty());
        assert(group_keys(self.sequence_groups@) =~= Seq::<WorkspaceId>::empty());
    }

    /// Replaces the content of the entry, keeping its id, and returns the
    /// previous content; what the panels derived is dropped. Nothing changes
    /// when there is no such entry.
    pub fn replace_id(&mut self, id: WorkspaceId, content: SidebarItem) -> (previous: Option<SidebarItem>)
        requires
            old(self).wf(),
            content_ok(content),
        ensures
            final(self).wf(),
            previous is Some == has_item(*old(self), id),
            same_settings(*final(self), *old(self)),
            same_selection(*final(self), *old(self)),
            final(self).next_workspace_id == old(self).next_workspace_id,
            final(self).sequence_groups@ == old(self).sequence_groups@,
            previous is None ==> final(self).items@ == old(self).items@ && same_selection_cache(
                *final(self),
                *old(self),
            ) && same_diff_cache(*final(self), *old(self)),
            previous matches Some(c) ==> ({
                let p = position(*old(self), id)->0;
                &&& c == old(self).items@[p].content
                &&& final(self).items@ == old(self).items@.update(
                    p,
                    WorkspaceItem { id, content_revision: old(self).items@[p].content_revision, content },
                )
                &&& selection_cache_cleared(*final(self))
                &&& diff_cache_cleared(*final(self))
            }),
    {
        let index = match self.index_of(id) {
            Some(i) => i,
            None => {
                return None;
            },
        };
        let ghost start = *self;
        let item = self.items.remove(index);
        let previous = item.content;
        let replaced = WorkspaceItem { id: item.id, content_revision: item.content_revision, content };
        self.items.insert(index, replaced);
        proof {
            assert(self.items@ =~= start.items@.update(index as int, replaced));
            assert(item_ids(self.items@) =~= item_ids(start.items@));
            assert forall|i: int| 0 <= i < self.items@.len() implies content_ok(
                #[trigger] self.items@[i].content,
            ) by {
                if i != index {
                    assert(self.items@[i] == start.items@[i]);
                }
            }
        }
        self.invalidate_derived_state();
        Some(previous)
    }
}

} // verus!
