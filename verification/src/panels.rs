//! Decisions of the viewer's panels: what kind of content is shown, whether
//! and how two entries can be compared, which characters a font is baked
//! with, and the caches a change of font drops.
use crate::charset::{parse_charset_ranges, parse_charset_text, ranges_cover};
use crate::glyph::{GlyphEditorState, OpenedGlyph, PathCmd};
use crate::image_item::{ImageItem, MiDataKind};
use crate::params::{BakeCharsetTab, RightTab};
use crate::seqs::is_sorted_set_of;
use crate::text::str_to_chars;
use crate::workspace::{SidebarItem, ViewerState, WorkspaceId, position};
use vstd::prelude::*;

verus! {

/// Whether the font bake format is the gray one (else it is SDF).
pub open spec fn is_gray_format(format: Seq<char>) -> bool {
    format == seq!['g', 'r', 'a', 'y']
}

/// The bit depths a font can be baked with: 1, 2, 4 or 8 in gray, 4 or 8
/// as a signed distance field.
pub open spec fn bake_depths(format: Seq<char>) -> Seq<u8> {
    if is_gray_format(format) {
        seq![1u8, 2u8, 4u8, 8u8]
    } else {
        seq![4u8, 8u8]
    }
}

/// The bit depths offered for the bake format, lowest first.
pub fn valid_bake_depths(format: &str) -> (r: Vec<u8>)
    ensures
        r@ == bake_depths(format@),
{
    let chars = str_to_chars(format);
    let gray = chars.len() == 4 && chars[0] == 'g' && chars[1] == 'r' && chars[2] == 'a' && chars[3] == 'y';
    assert(gray == is_gray_format(format@)) by {
        if gray {
            assert(chars@ =~= seq!['g', 'r', 'a', 'y']);
        }
    }
    if gray {
        vec![1u8, 2u8, 4u8, 8u8]
    } else {
        vec![4u8, 8u8]
    }
}

/// Keeps the bake depth when the format offers it, else takes the lowest
/// one the format offers.
pub fn fit_bake_bit_depth(state: &mut ViewerState)
    ensures
        final(state).font_bake_bit_depth == if bake_depths(old(state).font_bake_format@).contains(
            old(state).font_bake_bit_depth,
        ) {
            old(state).font_bake_bit_depth
        } else {
            bake_depths(old(state).font_bake_format@)[0]
        },
        *final(state) == (ViewerState { font_bake_bit_depth: final(state).font_bake_bit_depth, ..*old(state) }),
{
    let depths = valid_bake_depths(state.font_bake_format.as_str());
    let mut found = false;
    let mut i: usize = 0;
    while i < depths.len()
        invariant
            i <= depths@.len(),
            found == exists|j: int| 0 <= j < i && depths@[j] == state.font_bake_bit_depth,
        decreases depths@.len() - i,
    {
        if depths[i] == state.font_bake_bit_depth {
            found = true;
        }
        i += 1;
    }
    if !found {
        state.font_bake_bit_depth = depths[0];
    }
}

/// How the two diff sides compare: not at all (a side is missing), glyph by
/// glyph (two fonts), pixel by pixel (two images with pixels), or not
/// comparable.
#[derive(Clone, Copy, Debug, PartialEq, Eq, Structural)]
pub enum DiffMode {
    NoDiff,
    Image,
    Glyph,
    Incompatible,
}

/// The kind of content the selected entry shows.
#[derive(Clone, Copy, Debug, PartialEq, Eq, Structural)]
pub enum ContentType {
    Rgba,
    Font,
    Path,
    Indexed,
    Glyph,
}

/// Whether an image is a font.
pub fn is_font(image: &ImageItem) -> (b: bool)
    ensures
        b == (image.midata == Some(MiDataKind::Font)),
{
    match image.midata {
        Some(MiDataKind::Font) => true,
        _ => false,
    }
}

/// Whether an image can be compared pixel by pixel: it has RGBA or indexed
/// data, or none.
pub fn supports_pixel_diff(image: &ImageItem) -> (b: bool)
    ensures
        b == (image.midata is None || image.midata == Some(MiDataKind::Rgba) || image.midata == Some(
            MiDataKind::Indexed,
        )),
{
    match image.midata {
        None => true,
        Some(MiDataKind::Rgba) => true,
        Some(MiDataKind::Indexed) => true,
        Some(_) => false,
    }
}

/// The image of an entry, if it is one.
pub open spec fn entry_image(s: ViewerState, id: Option<crate::workspace::WorkspaceId>) -> Option<ImageItem> {
    match id {
        Some(id) => match position(s, id) {
            Some(p) => match s.items@[p].content {
                SidebarItem::Image(image) => Some(image),
                SidebarItem::Glyph(_) => None,
            },
            None => None,
        },
        None => None,
    }
}

/// The kind of content the selected entry shows: a glyph, else a font, a
/// vector path or an indexed image by its data, else RGBA pixels.
pub fn get_content_type(state: &ViewerState) -> (t: ContentType)
    requires
        state.wf(),
    ensures
        t == match state.selected_id {
            Some(id) => match position(*state, id) {
                Some(p) => match state.items@[p].content {
                    SidebarItem::Glyph(_) => ContentType::Glyph,
                    SidebarItem::Image(image) => match image.midata {
                        Some(MiDataKind::Font) => ContentType::Font,
                        Some(MiDataKind::Path) => ContentType::Path,
                        Some(MiDataKind::Indexed) => ContentType::Indexed,
                        _ => ContentType::Rgba,
                    },
                },
                None => ContentType::Rgba,
            },
            None => ContentType::Rgba,
        },
{
    match state.selected_item() {
        Some(SidebarItem::Glyph(_)) => ContentType::Glyph,
        Some(SidebarItem::Image(image)) => match image.midata {
            Some(MiDataKind::Font) => ContentType::Font,
            Some(MiDataKind::Path) => ContentType::Path,
            Some(MiDataKind::Indexed) => ContentType::Indexed,
            _ => ContentType::Rgba,
        },
        None => ContentType::Rgba,
    }
}

/// How the two diff sides of a state compare.
pub open spec fn diff_mode_of(state: ViewerState) -> DiffMode {
    match (entry_image(state, state.diff_image1_id), entry_image(state, state.diff_image2_id)) {
        (Some(a), Some(b)) => {
            let pixels_a = a.midata is None || a.midata == Some(MiDataKind::Rgba) || a.midata == Some(
                MiDataKind::Indexed,
            );
            let pixels_b = b.midata is None || b.midata == Some(MiDataKind::Rgba) || b.midata == Some(
                MiDataKind::Indexed,
            );
            if a.midata == Some(MiDataKind::Font) && b.midata == Some(MiDataKind::Font) {
                DiffMode::Glyph
            } else if pixels_a && pixels_b {
                DiffMode::Image
            } else {
                DiffMode::Incompatible
            }
        },
        _ => DiffMode::NoDiff,
    }
}

/// How the two diff sides compare: no diff unless both are image entries;
/// glyph by glyph when both are fonts; pixel by pixel when both have pixels;
/// else incompatible.
pub fn get_diff_mode(state: &ViewerState) -> (m: DiffMode)
    requires
        state.wf(),
    ensures
        m == diff_mode_of(*state),
{
    let (i1, i2) = match (state.diff_image1_id, state.diff_image2_id) {
        (Some(a), Some(b)) => (a, b),
        _ => {
            return DiffMode::NoDiff;
        },
    };
    let (a, b) = match (state.item(i1), state.item(i2)) {
        (Some(SidebarItem::Image(a)), Some(SidebarItem::Image(b))) => (a, b),
        _ => {
            return DiffMode::NoDiff;
        },
    };
    if is_font(a) && is_font(b) {
        DiffMode::Glyph
    } else if supports_pixel_diff(a) && supports_pixel_diff(b) {
        DiffMode::Image
    } else {
        DiffMode::Incompatible
    }
}

/// The characters a font is baked with: the charset text as typed, the
/// characters the ranges name, or the characters of the charset file
/// (`file_text` being its content when it could be read) — nothing when no
/// file is chosen or it could not be read.
pub fn collect_charset(state: &ViewerState, file_text: Option<&str>) -> (chars: Vec<char>)
    ensures
        match state.font_bake_charset_tab {
            BakeCharsetTab::Text => chars@ == state.font_bake_charset_text@,
            BakeCharsetTab::Range => is_sorted_set_of(
                chars@,
                |c: char| ranges_cover(state.font_bake_charset_ranges@, c),
            ),
            BakeCharsetTab::File => match (state.font_bake_charset_file, file_text) {
                (Some(_), Some(text)) => chars@ == text@,
                _ => chars@.len() == 0,
            },
        },
{
    match state.font_bake_charset_tab {
        BakeCharsetTab::Text => parse_charset_text(state.font_bake_charset_text.as_str()),
        BakeCharsetTab::Range => parse_charset_ranges(state.font_bake_charset_ranges.as_str()),
        BakeCharsetTab::File => match (&state.font_bake_charset_file, file_text) {
            (Some(_), Some(text)) => str_to_chars(text),
            _ => Vec::new(),
        },
    }
}

/// Drops what was rendered for the current font and the glyph picked in it.
pub fn reset_font_caches(state: &mut ViewerState)
    ensures
        final(state).font_atlas_cached is None,
        final(state).selected_glyph is None,
        crate::workspace::same_workspace(*final(state), *old(state)),
        crate::workspace::same_selection(*final(state), *old(state)),
        crate::workspace::same_settings(*final(state), *old(state)),
        crate::workspace::same_diff_cache(*final(state), *old(state)),
        final(state).selected_op == old(state).selected_op,
        final(state).indexed_hover_palette == old(state).indexed_hover_palette,
        final(state).indexed_edit_palette == old(state).indexed_edit_palette,
        final(state).indexed_dither_cached == old(state).indexed_dither_cached,
        final(state).indexed_dither_cached_id == old(state).indexed_dither_cached_id,
        final(state).indexed_dither_cached_revision == old(state).indexed_dither_cached_revision,
        final(state).font_bundle_index == old(state).font_bundle_index,
{
    state.font_atlas_cached = None;
    state.selected_glyph = None;
}

/// Two glyphs hold the same data.
pub open spec fn same_glyph(a: OpenedGlyph, b: OpenedGlyph) -> bool {
    &&& a.name@ == b.name@
    &&& a.codepoint == b.codepoint
    &&& a.char_repr@ == b.char_repr@
    &&& a.advance == b.advance
    &&& a.bearing == b.bearing
    &&& a.bbox == b.bbox
    &&& a.outline@ == b.outline@
    &&& a.outline_approximate == b.outline_approximate
    &&& a.source_font@ == b.source_font@
    &&& a.source_is_sdf == b.source_is_sdf
    &&& a.editor.selected_node == b.editor.selected_node
    &&& a.editor.undo_stack() == b.editor.undo_stack()
    &&& a.editor.redo_stack() == b.editor.redo_stack()
    &&& match (a.editor.drag_before, b.editor.drag_before) {
        (Some(x), Some(y)) => x@ == y@,
        (None, None) => true,
        _ => false,
    }
}

/// A copy of a history stack of outlines.
fn copy_stack(stack: &Vec<Vec<PathCmd>>) -> (r: Vec<Vec<PathCmd>>)
    ensures
        crate::glyph::stack_view(r@) == crate::glyph::stack_view(stack@),
{
    let mut r: Vec<Vec<PathCmd>> = Vec::new();
    let mut k: usize = 0;
    while k < stack.len()
        invariant
            k <= stack@.len(),
            r@.len() == k,
            forall|t: int| 0 <= t < k ==> (#[trigger] r@[t])@ == stack@[t]@,
        decreases stack@.len() - k,
    {
        r.push(vstd::slice::slice_to_vec(stack[k].as_slice()));
        k += 1;
    }
    assert(crate::glyph::stack_view(r@) =~= crate::glyph::stack_view(stack@));
    r
}

/// A copy of a glyph.
pub fn copy_glyph(glyph: &OpenedGlyph) -> (r: OpenedGlyph)
    ensures
        same_glyph(r, *glyph),
{
    let drag_before = match &glyph.editor.drag_before {
        Some(v) => Some(vstd::slice::slice_to_vec(v.as_slice())),
        None => None,
    };
    OpenedGlyph {
        name: glyph.name.clone(),
        codepoint: glyph.codepoint,
        char_repr: glyph.char_repr.clone(),
        advance: glyph.advance,
        bearing: glyph.bearing,
        bbox: glyph.bbox,
        outline: vstd::slice::slice_to_vec(glyph.outline.as_slice()),
        outline_approximate: glyph.outline_approximate,
        source_font: glyph.source_font.clone(),
        source_is_sdf: glyph.source_is_sdf,
        editor: GlyphEditorState {
            selected_node: glyph.editor.selected_node,
            undo: copy_stack(&glyph.editor.undo),
            redo: copy_stack(&glyph.editor.redo),
            drag_before,
        },
    }
}

/// A copy of the selected glyph, when the selected entry is one.
pub fn selected_opened_glyph(state: &ViewerState) -> (r: Option<OpenedGlyph>)
    requires
        state.wf(),
    ensures
        match state.selected_id {
            Some(id) => match position(*state, id) {
                Some(p) => match state.items@[p].content {
                    SidebarItem::Glyph(g) => r matches Some(copy) && same_glyph(copy, g),
                    SidebarItem::Image(_) => r is None,
                },
                None => r is None,
            },
            None => r is None,
        },
{
    match state.selected_item() {
        Some(SidebarItem::Glyph(g)) => Some(copy_glyph(g)),
        _ => None,
    }
}

/// The content of the selected entry of a state.
pub open spec fn selected_content(state: ViewerState) -> Option<SidebarItem> {
    match state.selected_id {
        Some(id) => match position(state, id) {
            Some(i) => Some(state.items@[i].content),
            None => None,
        },
        None => None,
    }
}

/// The name of a diff mode on the toolbar.
pub open spec fn diff_mode_title(mode: DiffMode) -> Seq<char> {
    match mode {
        DiffMode::Glyph => "Glyph diff"@,
        DiffMode::Image => "Image diff"@,
        DiffMode::Incompatible => "Incompatible diff"@,
        DiffMode::NoDiff => "Diff"@,
    }
}

/// The title and subtitle of the toolbar: while a diff is shown, the name
/// of its mode; else the file name of the selected image with its size and
/// format (`W×H · format`), the name of the selected glyph, or
/// `app_title` when nothing is selected.
pub fn selected_resource_toolbar_text(state: &ViewerState, diff_active: bool, app_title: &str) -> (r: (
    String,
    String,
))
    requires
        state.wf(),
    ensures
        diff_active ==> r.0@ == diff_mode_title(diff_mode_of(*state)) && r.1@.len() == 0,
        !diff_active ==> match selected_content(*state) {
            Some(SidebarItem::Image(image)) => r.0@ == match crate::paths::file_name_spec(image.path@) {
                Some(n) => n,
                None => image.path@,
            } && r.1@ == crate::fmt::decimal(image.width as nat) + seq!['\u{d7}'] + crate::fmt::decimal(
                image.height as nat,
            ) + seq![' ', '\u{b7}', ' '] + image.info.format@,
            Some(SidebarItem::Glyph(glyph)) => r.0@ == glyph.name@ && r.1@.len() == 0,
            None => r.0@ == app_title@ && r.1@.len() == 0,
        },
{
    if diff_active {
        let title = match get_diff_mode(state) {
            DiffMode::Glyph => "Glyph diff",
            DiffMode::Image => "Image diff",
            DiffMode::Incompatible => "Incompatible diff",
            DiffMode::NoDiff => "Diff",
        };
        return (title.to_string(), String::new());
    }
    match state.selected_item() {
        Some(SidebarItem::Image(image)) => {
            let mut detail: Vec<char> = Vec::new();
            crate::fmt::push_decimal(&mut detail, image.width as u128);
            detail.push('\u{d7}');
            crate::fmt::push_decimal(&mut detail, image.height as u128);
            detail.push(' ');
            detail.push('\u{b7}');
            detail.push(' ');
            crate::fmt::push_str(&mut detail, image.info.format.as_str());
            (crate::export::resource_name(image.path.as_str()), crate::text::string_from_chars(&detail))
        },
        Some(SidebarItem::Glyph(glyph)) => (glyph.name.clone(), String::new()),
        None => (app_title.to_string(), String::new()),
    }
}

/// Two entry contents are the same image or the same glyph.
pub open spec fn same_content(a: SidebarItem, b: SidebarItem) -> bool {
    match (a, b) {
        (SidebarItem::Image(x), SidebarItem::Image(y)) => crate::entries::same_image(x, y),
        (SidebarItem::Glyph(x), SidebarItem::Glyph(y)) => same_glyph(x, y),
        _ => false,
    }
}

impl ViewerState {
    /// A copy of the entries, in order.
    pub fn items_snapshot(&self) -> (r: Vec<crate::workspace::WorkspaceItem>)
        ensures
            r@.len() == self.items@.len(),
            forall|k: int|
                0 <= k < r@.len() ==> (#[trigger] r@[k]).id == self.items@[k].id && r@[k].content_revision
                    == self.items@[k].content_revision && same_content(r@[k].content, self.items@[k].content),
    {
        let mut r: Vec<crate::workspace::WorkspaceItem> = Vec::new();
        let mut k: usize = 0;
        while k < self.items.len()
            invariant
                k <= self.items@.len(),
                r@.len() == k,
                forall|j: int|
                    0 <= j < k ==> (#[trigger] r@[j]).id == self.items@[j].id && r@[j].content_revision
                        == self.items@[j].content_revision && same_content(r@[j].content, self.items@[j].content),
            decreases self.items@.len() - k,
        {
            let item = &self.items[k];
            let content = match &item.content {
                SidebarItem::Image(image) => SidebarItem::Image(crate::entries::copy_image(image)),
                SidebarItem::Glyph(glyph) => SidebarItem::Glyph(copy_glyph(glyph)),
            };
            r.push(crate::workspace::WorkspaceItem { id: item.id, content_revision: item.content_revision, content });
            k += 1;
        }
        r
    }
}

/// The ids of the image entries, in sidebar order; only fonts when `fonts`.
pub open spec fn image_entry_ids(items: Seq<crate::workspace::WorkspaceItem>, fonts: bool) -> Seq<WorkspaceId>
    decreases items.len(),
{
    if items.len() == 0 {
        Seq::empty()
    } else {
        let rest = image_entry_ids(items.drop_last(), fonts);
        match items.last().content {
            SidebarItem::Image(image) => if !fonts || image.midata == Some(MiDataKind::Font) {
                rest.push(items.last().id)
            } else {
                rest
            },
            SidebarItem::Glyph(_) => rest,
        }
    }
}

/// The first two image entries (only fonts when `fonts`), if there are two.
fn first_two_images(items: &Vec<crate::workspace::WorkspaceItem>, fonts: bool) -> (r: Option<(WorkspaceId, WorkspaceId)>)
    ensures
        match r {
            Some((a, b)) => image_entry_ids(items@, fonts).len() >= 2 && a == image_entry_ids(items@, fonts)[0] && b
                == image_entry_ids(items@, fonts)[1],
            None => image_entry_ids(items@, fonts).len() < 2,
        },
{
    let mut found: Vec<WorkspaceId> = Vec::new();
    let mut i: usize = 0;
    while i < items.len()
        invariant
            i <= items@.len(),
            found@ == image_entry_ids(items@.take(i as int), fonts),
        decreases items@.len() - i,
    {
        let item = &items[i];
        let hit = match &item.content {
            SidebarItem::Image(image) => !fonts || is_font(image),
            SidebarItem::Glyph(_) => false,
        };
        proof {
            assert(items@.take(i + 1).drop_last() =~= items@.take(i as int));
            assert(items@.take(i + 1).last() == items@[i as int]);
        }
        if hit {
            found.push(item.id);
        }
        i += 1;
    }
    assert(items@.take(items@.len() as int) =~= items@);
    if found.len() >= 2 {
        Some((found[0], found[1]))
    } else {
        None
    }
}

impl ViewerState {
    /// When a diff is shown and neither side is chosen, the first two fonts
    /// become the sides, else the first two images; with fewer than two
    /// images nothing is chosen. Nothing else changes.
    pub fn pick_diff_sides(&mut self, diff_active: bool)
        ensures
            ({
                let fonts = image_entry_ids(old(self).items@, true);
                let images = image_entry_ids(old(self).items@, false);
                if diff_active && old(self).diff_image1_id is None && old(self).diff_image2_id is None && (fonts.len()
                    >= 2 || images.len() >= 2) {
                    let sides = if fonts.len() >= 2 {
                        fonts
                    } else {
                        images
                    };
                    final(self).diff_image1_id == Some(sides[0]) && final(self).diff_image2_id == Some(sides[1])
                } else {
                    final(self).diff_image1_id == old(self).diff_image1_id && final(self).diff_image2_id == old(
                        self,
                    ).diff_image2_id
                }
            }),
            *final(self) == (ViewerState {
                diff_image1_id: final(self).diff_image1_id,
                diff_image2_id: final(self).diff_image2_id,
                ..*old(self)
            }),
    {
        if !diff_active || self.diff_image1_id.is_some() || self.diff_image2_id.is_some() {
            return;
        }
        let sides = match first_two_images(&self.items, true) {
            Some(pair) => Some(pair),
            None => first_two_images(&self.items, false),
        };
        match sides {
            Some((a, b)) => {
                self.diff_image1_id = Some(a);
                self.diff_image2_id = Some(b);
            },
            None => {},
        }
    }
}

/// The tab and diff flag after the diff shortcut: the diff tab closes back
/// to the info tab, any other tab opens the diff.
pub fn toggle_diff_tab(tab: RightTab, diff_active: bool) -> (r: (RightTab, bool))
    ensures
        r == if tab == RightTab::Diff {
            (RightTab::Info, false)
        } else {
            (RightTab::Diff, true)
        },
{
    match tab {
        RightTab::Diff => (RightTab::Info, false),
        _ => (RightTab::Diff, true),
    }
}

/// What the export shortcut does with the selected entry.
#[derive(Clone, Copy, Debug, PartialEq, Eq, Structural)]
pub enum ExportKind {
    /// Open the conversion tab.
    Convert,
    /// Save the picture as a PNG.
    Png,
    /// Nothing.
    Nothing,
}

/// What the export shortcut does: a glyph or an RGBA image opens the
/// conversion tab, a vector path or an indexed image is saved as a PNG,
/// other decoded data does nothing; None for no selection or an image
/// without decoded data.
pub fn export_kind(state: &ViewerState) -> (r: Option<ExportKind>)
    requires
        state.wf(),
    ensures
        r == match selected_content(*state) {
            Some(SidebarItem::Glyph(_)) => Some(ExportKind::Convert),
            Some(SidebarItem::Image(image)) => match image.midata {
                Some(MiDataKind::Rgba) => Some(ExportKind::Convert),
                Some(MiDataKind::Path) => Some(ExportKind::Png),
                Some(MiDataKind::Indexed) => Some(ExportKind::Png),
                Some(_) => Some(ExportKind::Nothing),
                None => None,
            },
            None => None,
        },
{
    match state.selected_item() {
        Some(SidebarItem::Glyph(_)) => Some(ExportKind::Convert),
        Some(SidebarItem::Image(image)) => match image.midata {
            Some(MiDataKind::Rgba) => Some(ExportKind::Convert),
            Some(MiDataKind::Path) => Some(ExportKind::Png),
            Some(MiDataKind::Indexed) => Some(ExportKind::Png),
            Some(_) => Some(ExportKind::Nothing),
            None => None,
        },
        None => None,
    }
}

/// How many dropped files the drop overlay names.
pub const MAX_PREVIEW_FILES: usize = 3;

/// The name the drop overlay shows for a hovered file: the file name of its
/// path when it has a non-empty one, else its MIME type, else `???`.
pub fn drop_preview_name(path: Option<&str>, mime: &str) -> (name: String)
    ensures
        name@ == match path {
            Some(p) => match crate::paths::file_name_spec(p@) {
                Some(n) if n.len() > 0 => n,
                _ => if mime@.len() > 0 {
                    mime@
                } else {
                    "???"@
                },
            },
            None => if mime@.len() > 0 {
                mime@
            } else {
                "???"@
            },
        },
{
    match path {
        Some(p) => {
            let chars = str_to_chars(p);
            match crate::paths::file_name_of(&chars) {
                Some(n) => {
                    if n.len() > 0 {
                        return crate::text::string_from_chars(&n);
                    }
                },
                None => {},
            }
        },
        None => {},
    }
    if str_to_chars(mime).len() > 0 {
        mime.to_string()
    } else {
        "???".to_string()
    }
}

/// The page of the diff list that shows the hovered pixel: the first pixel
/// of the list at the hovered position, by its index, `page_size` to a page.
/// None when no pixel of the list is at that position.
pub fn diff_page_from_hover(positions: &[(u32, u32)], hovered: [u32; 2], page_size: usize) -> (page: Option<usize>)
    requires
        page_size > 0,
    ensures
        match page {
            Some(p) => exists|i: int|
                0 <= i < positions@.len() && positions@[i] == (hovered[0], hovered[1]) && (forall|j: int|
                    0 <= j < i ==> #[trigger] positions@[j] != (hovered[0], hovered[1])) && p == i / (page_size as int),
            None => forall|i: int| 0 <= i < positions@.len() ==> #[trigger] positions@[i] != (hovered[0], hovered[1]),
        },
{
    let mut i: usize = 0;
    while i < positions.len()
        invariant
            i <= positions@.len(),
            page_size > 0,
            forall|j: int| 0 <= j < i ==> #[trigger] positions@[j] != (hovered[0], hovered[1]),
        decreases positions@.len() - i,
    {
        if positions[i].0 == hovered[0] && positions[i].1 == hovered[1] {
            return Some(i / page_size);
        }
        i += 1;
    }
    None
}

} // verus!
