use icu_tool::panels::{diff_page_from_hover, export_kind, toggle_diff_tab, ExportKind};
use icu_tool::params::RightTab;
use icu_tool::glyph::{GlyphEditorState, OpenedGlyph};
use icu_tool::image_item::{Color32, Frame, FrameSource, ImageInfo, ImageItem};
use icu_tool::workspace::{SelectionTarget, SidebarItem, ViewerState, WorkspaceId};

const BLACK: Color32 = Color32 { r: 0, g: 0, b: 0, a: 255 };

fn glyph(name: &str) -> SidebarItem {
    SidebarItem::Glyph(OpenedGlyph {
        name: name.to_string(),
        codepoint: 0,
        char_repr: String::new(),
        advance: 0,
        bearing: (0, 0),
        bbox: (0, 0, 0, 0),
        outline: Vec::new(),
        outline_approximate: false,
        source_font: String::new(),
        source_is_sdf: false,
        editor: GlyphEditorState::new(),
    })
}

fn image_item(path: &str) -> ImageItem {
    ImageItem {
        path: path.to_string(),
        info: ImageInfo { width: 1, height: 1, data_size: 4, format: "rgba".to_string() },
        width: 1,
        height: 1,
        frames: FrameSource::single(vec![BLACK], 1, 1),
        midata: None,
        expanded: false,
    }
}

fn image(path: &str) -> SidebarItem {
    SidebarItem::Image(image_item(path))
}

fn name_of(state: &ViewerState, id: WorkspaceId) -> Option<String> {
    state.item(id).map(|item| item.name().to_string())
}

fn frame_count_of_current(state: &ViewerState) -> usize {
    state.current_image().unwrap().frame_count()
}

#[test]
fn inserting_before_selection_preserves_identity() {
    let mut state = ViewerState::default();
    let ids = state.append_items(vec![glyph("first"), glyph("selected")]);
    assert!(state.select(ids[1]));

    state.insert_items(0, vec![glyph("inserted")]);

    assert_eq!(state.selected_id, Some(ids[1]));
    assert_eq!(state.index_of(ids[1]), Some(2));
    assert_eq!(state.selected_item().map(|item| item.name().to_string()), Some("selected".to_string()));
}

#[test]
fn removing_selection_uses_next_then_previous_and_clears_references() {
    let mut state = ViewerState::default();
    let ids = state.append_items(vec![glyph("first"), glyph("middle"), glyph("last")]);
    state.select(ids[1]);
    state.hovered_id = Some(ids[1]);
    state.diff_image1_id = Some(ids[1]);
    state.diff_image2_id = Some(ids[2]);

    state.remove_id(ids[1]);

    assert_eq!(state.selected_id, Some(ids[2]));
    assert_eq!(state.hovered_id, None);
    assert_eq!(state.diff_image1_id, None);
    assert_eq!(state.diff_image2_id, Some(ids[2]));

    state.remove_id(ids[2]);
    assert_eq!(state.selected_id, Some(ids[0]));
}

#[test]
fn numeric_filename_sequence_is_grouped_in_one_batch() {
    let mut state = ViewerState::default();
    state.insert_and_select_first(vec![image("/tmp/0.bin"), image("/tmp/1.bin"), image("/tmp/2.bin")]);
    assert_eq!(state.len(), 1);
    assert!(state.is_sequence_group(state.items()[0].id()));
    assert_eq!(frame_count_of_current(&state), 3);
}

#[test]
fn multiple_sequences_group_in_one_batch_without_index_drift() {
    let mut state = ViewerState::default();
    state.insert_and_select_first(vec![
        image("/tmp/walk_0001.png"),
        image("/tmp/walk_0002.png"),
        image("/tmp/idle_0001.png"),
        image("/tmp/idle_0002.png"),
        image("/tmp/jump_0001.png"),
        image("/tmp/jump_0002.png"),
        image("/tmp/static.png"),
    ]);

    assert_eq!(state.len(), 4);
    assert_eq!(state.items().iter().filter(|item| state.is_sequence_group(item.id())).count(), 3);
    assert_eq!(
        state
            .items()
            .iter()
            .filter_map(|item| item.content().as_image())
            .map(|image| image.frame_count())
            .collect::<Vec<_>>(),
        vec![2, 2, 2, 1]
    );
}

#[test]
fn auto_group_is_workspace_wide_and_ungroup_is_lossless() {
    let mut state = ViewerState::default();
    let first_batch =
        state.insert_and_select_first(vec![image("/tmp/walk_0001.png"), image("/tmp/walk_0002.png")]);
    assert_eq!(state.len(), 1);
    let group_id = state.items()[0].id();
    assert!(state.is_sequence_group(group_id));
    assert_eq!(frame_count_of_current(&state), 2);

    let second_batch = state.insert_and_select_first(vec![image("/tmp/walk_0003.png")]);
    assert_eq!(state.len(), 1);
    let regrouped_id = state.items()[0].id();
    assert_ne!(regrouped_id, group_id);
    assert!(state.is_sequence_group(regrouped_id));
    assert_eq!(frame_count_of_current(&state), 3);
    assert_eq!(state.selected_id, Some(regrouped_id));
    assert!(!second_batch.is_empty());

    assert!(state.ungroup(regrouped_id));
    assert_eq!(state.len(), 3);
    let paths = state.items().iter().map(|item| item.content().name().to_string()).collect::<Vec<_>>();
    assert_eq!(paths, ["/tmp/walk_0001.png", "/tmp/walk_0002.png", "/tmp/walk_0003.png"]);
    assert_eq!(state.items()[0].id(), first_batch[0]);
    assert_eq!(state.items()[1].id(), first_batch[1]);
    assert_eq!(state.items()[2].id(), second_batch[0]);
}

#[test]
fn regroup_maps_member_references_to_the_new_group_id() {
    let mut state = ViewerState::default();
    state.insert_and_select_first(vec![image("/tmp/walk_0001.png"), image("/tmp/walk_0002.png")]);
    let old_group_id = state.items()[0].id();
    state.hovered_id = Some(old_group_id);
    state.diff_image1_id = Some(old_group_id);

    let earlier = state.insert_and_select_first(vec![image("/tmp/walk_0000.png")]);
    let new_group_id = state.items()[0].id();

    assert_ne!(new_group_id, earlier[0]);
    assert_ne!(new_group_id, old_group_id);
    assert_eq!(state.selected_id, Some(new_group_id));
    assert_eq!(state.hovered_id, Some(new_group_id));
    assert_eq!(state.diff_image1_id, Some(new_group_id));
    assert!(state.item(old_group_id).is_none());
}

#[test]
fn manual_group_is_reversible_and_rejects_duplicate_ids() {
    let mut state = ViewerState::default();
    let ids = state.append_items(vec![image("/a/a.png"), image("/a/b.png")]);
    assert!(state.group_images(&[ids[0], ids[0]]).is_none());

    let group_id = state.group_images(&ids).unwrap();
    assert_eq!(state.len(), 1);
    assert!(state.is_sequence_group(group_id));
    assert!(state.ungroup(group_id));
    assert_eq!(state.items()[0].id(), ids[0]);
    assert_eq!(state.items()[1].id(), ids[1]);
}

#[test]
fn changing_group_interval_updates_playback_frames() {
    let mut state = ViewerState::default();
    state.insert_and_select_first(vec![image("/tmp/walk_0001.png"), image("/tmp/walk_0002.png")]);
    let group_id = state.items()[0].id();
    assert!(state.set_animation_interval(group_id, 240_000_000));
    let image = state.current_image().unwrap();
    let FrameSource::Animated { frames, .. } = &image.frames else {
        panic!("expected grouped animation");
    };
    assert!(frames.iter().all(|frame| frame.delay == 240_000_000));
}

#[test]
fn regroup_preserves_playback_state_and_group_frames_loop() {
    let mut state = ViewerState::default();
    state.insert_and_select_first(vec![image("/tmp/walk_0001.png"), image("/tmp/walk_0002.png")]);
    let group_id = state.items()[0].id();
    let mut group_image = icu_tool::entries::copy_image(state.current_image().unwrap());
    group_image.expanded = true;
    if let FrameSource::Animated { current, autoplay, last_advance, .. } = &mut group_image.frames {
        *current = 1;
        *autoplay = false;
        *last_advance = Some(5_000_000_000);
    }
    assert!(state.replace_id(group_id, SidebarItem::Image(group_image)).is_some());

    state.insert_and_select_first(vec![image("/tmp/walk_0000.png")]);
    let mut image = icu_tool::entries::copy_image(state.current_image().unwrap());
    assert!(image.expanded);
    assert!(!image.autoplay());
    assert!(!image.advance_frame(6_000_000_000));
    if let FrameSource::Animated { current, autoplay, last_advance, .. } = &mut image.frames {
        assert_eq!(*current, 2);
        *autoplay = true;
        *last_advance = Some(10_000_000_000);
    }
    assert!(image.advance_frame(10_101_000_000));
    assert!(matches!(image.frames, FrameSource::Animated { current: 0, .. }));
}

#[test]
fn auto_group_rejects_gaps_padding_extension_directory_and_size_mismatch() {
    let cases = [
        ["/a/walk_01.png", "/a/walk_03.png"],
        ["/a/walk_1.png", "/a/walk_02.png"],
        ["/a/walk_01.png", "/a/walk_02.jpg"],
        ["/a/walk_01.png", "/b/walk_02.png"],
    ];
    for (paths, expected_len) in cases.into_iter().zip([2, 1, 2, 2]) {
        let mut state = ViewerState::default();
        state.insert_and_select_first(paths.iter().map(|path| image(path)).collect());
        assert_eq!(state.len(), expected_len, "unexpected group for {paths:?}");
    }

    let mut state = ViewerState::default();
    let mut second = image_item("/a/walk_02.png");
    second.width = 2;
    state.insert_and_select_first(vec![image("/a/walk_01.png"), SidebarItem::Image(second)]);
    assert_eq!(state.len(), 2);
}

#[test]
fn duplicate_paths_are_not_reinserted() {
    let mut state = ViewerState::default();
    state.insert_and_select_first(vec![image("/a/frame_01.png")]);
    let ids = state.insert_and_select_first(vec![image("/a/frame_01.png"), image("/a/frame_01.png")]);
    assert!(ids.is_empty());
    assert_eq!(state.len(), 1);
}

#[test]
fn multi_selection_supports_toggle_range_focus_and_keyboard_bounds() {
    let mut state = ViewerState::default();
    let ids = state.append_items(vec![glyph("first"), glyph("second"), glyph("third"), glyph("fourth")]);

    assert!(state.focus_list(ids[1]));
    assert_eq!(state.selected_ids, vec![ids[1]]);
    assert!(state.toggle_selection(ids[3]));
    assert_eq!(state.selected_ids, vec![ids[1], ids[3]]);
    assert!(state.extend_selection(ids[2]));
    assert_eq!(state.selected_ids, vec![ids[1], ids[2]]);
    assert!(state.move_selection(-1));
    assert_eq!(state.selected_id, Some(ids[1]));
    assert!(state.move_selection(-1));
    assert_eq!(state.selected_id, Some(ids[0]));
    assert!(!state.move_selection(-1));
    assert!(state.move_selection(1));
    assert_eq!(state.selected_id, Some(ids[1]));
    state.blur_list();
    assert!(!state.move_selection(1));
}

#[test]
fn batch_remove_keeps_selection_consistent() {
    let mut state = ViewerState::default();
    let ids = state.append_items(vec![image("/a/one.png"), image("/a/two.png"), image("/a/three.png")]);
    state.focus_list(ids[0]);
    state.toggle_selection(ids[1]);
    state.remove_selected();
    assert_eq!(state.len(), 1);
    assert_eq!(state.selected_ids, vec![ids[2]]);
    assert_eq!(state.selected_id, Some(ids[2]));
    assert!(state.items().iter().all(|item| item.id() != ids[0] && item.id() != ids[1]));
}

#[test]
fn grouping_selected_items_updates_selection_to_group() {
    let mut state = ViewerState::default();
    let ids = state.append_items(vec![image("/a/one.png"), image("/a/two.png")]);
    state.focus_list(ids[0]);
    state.toggle_selection(ids[1]);
    let group_id = state.group_selected().unwrap();
    assert_eq!(state.selected_ids, vec![group_id]);
    assert!(state.is_sequence_group(group_id));
    assert_eq!(state.ungroup_selected(), 1);
    assert_eq!(state.selected_ids, ids);
}

#[test]
fn ungroup_selected_restores_every_selected_group() {
    let mut state = ViewerState::default();
    let first = state.append_items(vec![image("/a/one.png"), image("/a/two.png")]);
    let second = state.append_items(vec![image("/b/three.png"), image("/b/four.png")]);
    let first_group = state.group_images(&first).unwrap();
    let second_group = state.group_images(&second).unwrap();
    state.focus_list(first_group);
    state.toggle_selection(second_group);

    assert_eq!(state.ungroup_selected(), 2);
    assert_eq!(state.len(), 4);
    let mut expected = first.iter().chain(&second).copied().collect::<Vec<_>>();
    expected.sort();
    assert_eq!(state.selected_ids, expected);
    assert_eq!(state.selected_id, Some(first[0]));
    assert_eq!(state.focused_id, Some(first[0]));
    assert!(state.sequence_groups.is_empty());
}

#[test]
fn workspace_ids_remain_unique_across_insert_remove_and_reinsert() {
    let mut state = ViewerState::default();
    let first = state.append_items(vec![glyph("a"), glyph("b")]);
    let inserted = state.insert_items(1, vec![glyph("c")]);
    state.remove_id(first[0]);
    let later = state.append_items(vec![glyph("d"), glyph("e")]);

    let ids = state.items().iter().map(|item| item.id()).collect::<Vec<_>>();
    let mut unique = ids.clone();
    unique.sort();
    unique.dedup();
    assert_eq!(ids.len(), unique.len());
    assert!(!ids.contains(&first[0]));
    assert!(ids.contains(&first[1]));
    assert!(ids.contains(&inserted[0]));
    assert!(later.iter().all(|id| !first.contains(id) && !inserted.contains(id)));
}

#[test]
fn replacing_content_preserves_id_and_invalidates_derived_state() {
    let mut state = ViewerState::default();
    let id = state.append_items(vec![glyph("before")])[0];
    state.select(id);
    state.diff_image1_id = Some(id);
    state.selected_diff_pixel = Some([1, 2]);
    state.indexed_dither_cached = 3;

    let previous = state.replace_id(id, glyph("after"));

    assert_eq!(previous.as_ref().map(|item| item.name().to_string()), Some("before".to_string()));
    assert_eq!(state.items()[0].id(), id);
    assert_eq!(state.selected_item().map(|item| item.name().to_string()), Some("after".to_string()));
    assert_eq!(state.diff_image1_id, Some(id));
    assert_eq!(state.selected_diff_pixel, None);
    assert_eq!(state.indexed_dither_cached, u32::MAX);
}

#[test]
fn changing_selection_drops_what_the_panels_derived() {
    let mut state = ViewerState::default();
    let ids = state.append_items(vec![image("first"), image("second")]);
    state.select(ids[0]);
    state.indexed_dither_cached = 7;
    state.selected_glyph = Some(3);
    state.font_bundle_index = 2;
    state.font_atlas_cached = Some(("a".to_string(), "b".to_string(), Vec::new(), 1, 1));

    state.select(ids[1]);

    assert_eq!(state.indexed_dither_cached, u32::MAX);
    assert!(state.font_atlas_cached.is_none());
    assert_eq!(state.selected_glyph, None);
    assert_eq!(state.font_bundle_index, 0);

    state.selected_glyph = Some(1);
    state.select(ids[1]);
    assert_eq!(state.selected_glyph, Some(1));
}

#[test]
fn select_frame_targets_one_frame_of_a_group() {
    let mut state = ViewerState::default();
    state.insert_and_select_first(vec![image("/tmp/run_1.png"), image("/tmp/run_2.png")]);
    let group_id = state.items()[0].id();
    assert!(state.select_frame(group_id, 1));
    assert_eq!(state.primary_target, Some(SelectionTarget::Frame { collection: group_id, index: 1 }));
    assert!(matches!(state.current_image().unwrap().frames, FrameSource::Animated { current: 1, .. }));
    assert!(!state.select_frame(group_id, 2));
    assert_eq!(state.group_label(group_id), Some("run_01-02"));
    assert!(state.set_group_label(group_id, "  runner  ".to_string()));
    assert_eq!(state.group_label(group_id), Some("runner"));
    assert_eq!(name_of(&state, group_id), Some("runner".to_string()));
    assert!(!state.set_group_label(group_id, "   ".to_string()));
}

#[test]
fn group_label_pads_frame_numbers_to_two_digits() {
    let mut state = ViewerState::default();
    state.insert_and_select_first(vec![
        image("/tmp/walk_0001.png"),
        image("/tmp/walk_0002.png"),
        image("/tmp/walk_0003.png"),
    ]);
    let group_id = state.items()[0].id();
    assert_eq!(state.group_label(group_id), Some("walk_0001-0003"));
    let members = state.group_members(group_id).unwrap();
    assert_eq!(members.iter().map(|m| m.1.as_str()).collect::<Vec<_>>(), [
        "/tmp/walk_0001.png",
        "/tmp/walk_0002.png",
        "/tmp/walk_0003.png"
    ]);
}

#[test]
fn frame_snapshots_name_animation_frames_from_one() {
    let mut state = ViewerState::default();
    let animation = ImageItem {
        path: "clip.webp".to_string(),
        info: ImageInfo { width: 1, height: 1, data_size: 0, format: "webp".to_string() },
        width: 1,
        height: 1,
        frames: FrameSource::animated(vec![
            Frame { pixels: vec![BLACK], width: 1, height: 1, left: 0, top: 0, delay: 1 },
            Frame { pixels: vec![BLACK], width: 1, height: 1, left: 0, top: 0, delay: 1 },
        ]),
        midata: None,
        expanded: false,
    };
    let id = state.append_items(vec![SidebarItem::Image(animation)])[0];
    let snapshots = state.frame_snapshots(id).unwrap();
    assert_eq!(snapshots.iter().map(|s| s.0.as_str()).collect::<Vec<_>>(), ["clip.webp#1", "clip.webp#2"]);
    assert!(snapshots.iter().all(|s| s.1.frame_count() == 1));
    assert!(state.group_members(id).is_none());
}

#[test]
fn select_all_picks_images_only() {
    let mut state = ViewerState::default();
    let ids = state.append_items(vec![glyph("g"), image("/a/x.png"), image("/a/y.png")]);
    state.select(ids[0]);
    state.select_all();
    assert_eq!(state.selected_ids, vec![ids[1], ids[2]]);
    assert_eq!(state.selected_id, Some(ids[1]));
    assert_eq!(state.focused_id, Some(ids[1]));
}

#[test]
fn glyph_goes_after_the_selected_entry() {
    let mut state = ViewerState::default();
    let ids = state.append_items(vec![glyph("a"), glyph("b")]);
    state.select(ids[0]);
    let g = state.insert_glyph_after_selected(match glyph("new") {
        SidebarItem::Glyph(g) => g,
        SidebarItem::Image(_) => unreachable!(),
    });
    assert_eq!(state.index_of(g), Some(1));
    assert_eq!(state.selected_id, Some(g));
    state.clear_items();
    assert!(state.is_empty());
    assert_eq!(state.selected_id, None);
}

#[test]
fn toolbar_names_the_selection_or_the_diff() {
    let mut state = ViewerState::default();
    assert_eq!(
        icu_tool::panels::selected_resource_toolbar_text(&state, false, "ICU"),
        ("ICU".to_string(), String::new())
    );
    let ids = state.insert_and_select_first(vec![image("assets/icon.png"), glyph("A")]);
    assert_eq!(
        icu_tool::panels::selected_resource_toolbar_text(&state, false, "ICU"),
        ("icon.png".to_string(), "1×1 · rgba".to_string())
    );
    assert!(state.select(ids[1]));
    assert_eq!(
        icu_tool::panels::selected_resource_toolbar_text(&state, false, "ICU"),
        ("A".to_string(), String::new())
    );
    assert_eq!(
        icu_tool::panels::selected_resource_toolbar_text(&state, true, "ICU"),
        ("Diff".to_string(), String::new())
    );
    state.diff_image1_id = Some(ids[0]);
    state.diff_image2_id = Some(ids[0]);
    assert_eq!(
        icu_tool::panels::selected_resource_toolbar_text(&state, true, "ICU"),
        ("Image diff".to_string(), String::new())
    );
}

#[test]
fn snapshot_copies_every_entry_in_order() {
    let mut state = ViewerState::default();
    let ids = state.insert_and_select_first(vec![image("a.png"), glyph("B")]);
    let snapshot = state.items_snapshot();
    assert_eq!(snapshot.len(), 2);
    assert_eq!(snapshot[0].id, ids[0]);
    assert_eq!(snapshot[1].id, ids[1]);
    assert_eq!(snapshot[0].content.name(), "a.png");
    assert_eq!(snapshot[1].content.name(), "B");
}

fn font(path: &str) -> SidebarItem {
    let mut item = image_item(path);
    item.midata = Some(icu_tool::image_item::MiDataKind::Font);
    SidebarItem::Image(item)
}

#[test]
fn diff_sides_prefer_the_first_two_fonts() {
    let mut state = ViewerState::default();
    let ids = state.insert_and_select_first(vec![image("a.png"), font("b.ttf"), glyph("G"), font("c.ttf"), image("d.png")]);
    state.pick_diff_sides(false);
    assert_eq!((state.diff_image1_id, state.diff_image2_id), (None, None));
    state.pick_diff_sides(true);
    assert_eq!((state.diff_image1_id, state.diff_image2_id), (Some(ids[1]), Some(ids[3])));

    let mut images = ViewerState::default();
    let ids = images.insert_and_select_first(vec![glyph("G"), image("a.png"), font("b.ttf"), image("d.png")]);
    images.pick_diff_sides(true);
    assert_eq!((images.diff_image1_id, images.diff_image2_id), (Some(ids[1]), Some(ids[2])));
    images.diff_image1_id = Some(ids[3]);
    images.diff_image2_id = None;
    images.pick_diff_sides(true);
    assert_eq!((images.diff_image1_id, images.diff_image2_id), (Some(ids[3]), None));
}

#[test]
fn shortcuts_toggle_the_diff_tab_and_pick_the_export() {
    assert_eq!(toggle_diff_tab(RightTab::Diff, true), (RightTab::Info, false));
    assert_eq!(toggle_diff_tab(RightTab::Convert, false), (RightTab::Diff, true));

    let mut state = ViewerState::default();
    assert_eq!(export_kind(&state), None);
    let mut rgba = image_item("a.png");
    rgba.midata = Some(icu_tool::image_item::MiDataKind::Rgba);
    let mut indexed = image_item("b.png");
    indexed.midata = Some(icu_tool::image_item::MiDataKind::Indexed);
    let ids = state.insert_and_select_first(vec![
        SidebarItem::Image(rgba),
        SidebarItem::Image(indexed),
        font("c.ttf"),
        glyph("G"),
        image("plain.png"),
    ]);
    assert_eq!(export_kind(&state), Some(ExportKind::Convert));
    assert!(state.select(ids[1]));
    assert_eq!(export_kind(&state), Some(ExportKind::Png));
    assert!(state.select(ids[2]));
    assert_eq!(export_kind(&state), Some(ExportKind::Nothing));
    assert!(state.select(ids[3]));
    assert_eq!(export_kind(&state), Some(ExportKind::Convert));
    assert!(state.select(ids[4]));
    assert_eq!(export_kind(&state), None);
}

#[test]
fn drop_overlay_names_files_by_name_then_mime() {
    use_preview("/tmp/frames/walk_01.png", "image/png", "walk_01.png");
    assert_eq!(icu_tool::panels::drop_preview_name(Some("/"), "image/png"), "image/png");
    assert_eq!(icu_tool::panels::drop_preview_name(None, "image/gif"), "image/gif");
    assert_eq!(icu_tool::panels::drop_preview_name(None, ""), "???");
    assert_eq!(icu_tool::panels::MAX_PREVIEW_FILES, 3);
}

fn use_preview(path: &str, mime: &str, expected: &str) {
    assert_eq!(icu_tool::panels::drop_preview_name(Some(path), mime), expected);
}

#[test]
fn toggling_expansion_flips_only_images() {
    let mut state = ViewerState::default();
    let ids = state.insert_and_select_first(vec![image("a.png"), glyph("G")]);
    assert!(state.toggle_expanded(ids[0]));
    assert!(matches!(state.item(ids[0]), Some(SidebarItem::Image(image)) if image.expanded));
    assert!(state.toggle_expanded(ids[0]));
    assert!(matches!(state.item(ids[0]), Some(SidebarItem::Image(image)) if !image.expanded));
    assert!(!state.toggle_expanded(ids[1]));
    assert!(!state.toggle_expanded(WorkspaceId(999)));
}

#[test]
fn added_items_stay_under_their_ids() {
    let mut state = ViewerState::default();
    let ids = state.insert_and_select_first(vec![image("/tmp/0.bin"), glyph("g"), image("/tmp/1.bin")]);
    assert_eq!(ids.len(), 3);
    assert_eq!(state.len(), 2);
    assert_eq!(state.sequence_groups.len(), 1);
    let group = &state.sequence_groups[0].1;
    assert_eq!(group.members.len(), 2);
    assert_eq!(group.members[0].id, ids[0]);
    assert_eq!(group.members[0].image.path, "/tmp/0.bin");
    assert_eq!(group.members[1].id, ids[2]);
    assert_eq!(group.members[1].image.path, "/tmp/1.bin");
    assert_eq!(name_of(&state, ids[1]), Some("g".to_string()));
}

#[test]
fn only_keys_numbered_without_gaps_are_grouped() {
    let mut state = ViewerState::default();
    let ids = state.insert_and_select_first(vec![
        image("/tmp/a_1.png"),
        image("/tmp/b_1.png"),
        image("/tmp/a_3.png"),
        image("/tmp/b_2.png"),
    ]);
    assert_eq!(ids.len(), 4);
    assert_eq!(state.sequence_groups.len(), 1);
    let members: Vec<WorkspaceId> = state.sequence_groups[0].1.members.iter().map(|m| m.id).collect();
    assert_eq!(members, vec![ids[1], ids[3]]);
    assert_eq!(state.len(), 3);
    assert_eq!(name_of(&state, ids[0]), Some("/tmp/a_1.png".to_string()));
    assert_eq!(name_of(&state, ids[2]), Some("/tmp/a_3.png".to_string()));
}

#[test]
fn hovering_a_diff_pixel_turns_to_its_page() {
    let positions = vec![(0, 0), (5, 5), (1, 2), (5, 5), (7, 7)];
    assert_eq!(diff_page_from_hover(&positions, [5, 5], 2), Some(0));
    assert_eq!(diff_page_from_hover(&positions, [1, 2], 2), Some(1));
    assert_eq!(diff_page_from_hover(&positions, [7, 7], 2), Some(2));
    assert_eq!(diff_page_from_hover(&positions, [7, 7], 10), Some(0));
    assert_eq!(diff_page_from_hover(&positions, [9, 9], 2), None);
}

#[test]
fn removing_the_last_entries_gives_way_backwards() {
    let mut state = ViewerState::default();
    let ids = state.append_items(vec![image("/a/one.png"), image("/a/two.png"), image("/a/three.png")]);
    state.focus_list(ids[2]);
    state.toggle_selection(ids[1]);
    state.remove_selected();
    assert_eq!(state.len(), 1);
    assert_eq!(state.selected_ids, vec![ids[0]]);
    assert_eq!(state.selected_id, Some(ids[0]));
}

#[test]
fn ungrouping_selected_groups_restores_members_in_place() {
    let mut state = ViewerState::default();
    let ids = state.append_items(vec![glyph("a"), image("/a/one.png"), image("/a/two.png"), glyph("b")]);
    let group = state.group_images(&[ids[1], ids[2]]).unwrap();
    assert_eq!(state.len(), 3);
    state.focus_list(group);
    assert_eq!(state.ungroup_selected(), 1);
    let order: Vec<WorkspaceId> = state.items().iter().map(|item| item.id()).collect();
    assert_eq!(order, ids);
}

#[test]
fn changing_selection_invalidates_item_bound_state() {
    let mut state = ViewerState::default();
    let ids = state.append_items(vec![image("first"), image("second")]);
    state.select(ids[0]);
    state.indexed_dither_cached = 7;
    state.selected_glyph = Some(3);
    state.font_bundle_index = 2;

    state.select(ids[1]);

    assert_eq!(state.indexed_dither_cached, u32::MAX);
    assert_eq!(state.selected_glyph, None);
    assert_eq!(state.font_bundle_index, 0);
}

#[test]
fn current_image_mut_edits_workspace_source() {
    let mut state = ViewerState::default();
    let id = state.append_items(vec![image("before")])[0];
    state.select(id);

    state.current_image_mut().unwrap().path = "after".to_string();

    assert_eq!(state.current_image().map(|image| image.path.as_str()), Some("after"));
    assert_eq!(state.item(id).map(SidebarItem::name), Some("after"));
}

#[test]
fn item_mut_and_content_at_mut_edit_in_place() {
    let mut state = ViewerState::default();
    let ids = state.append_items(vec![glyph("a"), glyph("b")]);
    if let Some(SidebarItem::Glyph(g)) = state.item_mut(ids[1]) {
        g.name = "c".to_string();
    }
    assert_eq!(state.item(ids[1]).map(SidebarItem::name), Some("c"));
    if let Some(SidebarItem::Glyph(g)) = state.content_at_mut(0) {
        g.name = "d".to_string();
    }
    assert_eq!(state.item(ids[0]).map(SidebarItem::name), Some("d"));
    assert!(state.content_at_mut(2).is_none());
    assert!(state.selected_item_mut().is_none());
}

#[test]
fn inserting_selects_the_new_entry_alone_and_drops_panel_state() {
    let mut state = ViewerState::default();
    let first = state.insert_and_select_first(vec![glyph("a")]);
    state.selected_glyph = Some(3);
    state.font_bundle_index = 2;
    state.hovered_id = Some(first[0]);

    let second = state.insert_and_select_first(vec![glyph("b")]);

    assert_eq!(second.len(), 1);
    assert_eq!(state.selected_id, Some(second[0]));
    assert_eq!(state.selected_ids, vec![second[0]]);
    assert_eq!(state.focused_id, Some(second[0]));
    assert_eq!(state.range_anchor, Some(second[0]));
    assert_eq!(state.primary_target, Some(SelectionTarget::Entry(second[0])));
    assert_eq!(state.selected_glyph, None);
    assert_eq!(state.font_bundle_index, 0);
    assert_eq!(state.hovered_id, Some(first[0]));
}

#[test]
fn bake_depth_fits_the_format() {
    assert_eq!(icu_tool::panels::valid_bake_depths("gray"), vec![1, 2, 4, 8]);
    assert_eq!(icu_tool::panels::valid_bake_depths("sdf"), vec![4, 8]);
    let mut state = ViewerState::default();
    state.font_bake_format = "gray".to_string();
    state.font_bake_bit_depth = 2;
    icu_tool::panels::fit_bake_bit_depth(&mut state);
    assert_eq!(state.font_bake_bit_depth, 2);
    state.font_bake_format = "sdf".to_string();
    icu_tool::panels::fit_bake_bit_depth(&mut state);
    assert_eq!(state.font_bake_bit_depth, 4);
    state.font_bake_bit_depth = 8;
    icu_tool::panels::fit_bake_bit_depth(&mut state);
    assert_eq!(state.font_bake_bit_depth, 8);
}
