use image::AnimationDecoder;
use image::ImageEncoder;
use icu_tool::export::{
    ExportMode, ExportSource, ExportTarget, NativeBatchExportError, animation_frame_name,
    export_name_and_relative_path, is_webp, resolve_export_request, resource_name, safe_relative_directory,
    unique_batch_path,
};
use icu_tool::image_item::{Color32, Frame, FrameSource, ImageInfo, ImageItem};
use icu_tool::params::ConvertParams;
use icu_tool::workspace::{SelectionTarget, SidebarItem, ViewerState};

const BLACK: Color32 = Color32 { r: 0, g: 0, b: 0, a: 255 };
const RED: Color32 = Color32 { r: 255, g: 0, b: 0, a: 255 };
const BLUE: Color32 = Color32 { r: 0, g: 0, b: 255, a: 255 };

fn image_item(path: &str) -> ImageItem {
    ImageItem {
        path: path.to_string(),
        info: ImageInfo { width: 1, height: 1, data_size: 4, format: "rgba".to_string() },
        width: 1,
        height: 1,
        frames: FrameSource::single(vec![BLACK], 1, 1),
        midata: None,
        expanded: false,
    }
}

fn animation_item() -> ImageItem {
    ImageItem {
        path: "animation".to_string(),
        info: ImageInfo { width: 2, height: 1, data_size: 0, format: "animation".to_string() },
        width: 2,
        height: 1,
        frames: FrameSource::animated(vec![
            Frame { pixels: vec![RED, RED], width: 2, height: 1, left: 0, top: 0, delay: 80_000_000 },
            Frame { pixels: vec![BLUE, BLUE], width: 2, height: 1, left: 0, top: 0, delay: 120_000_000 },
        ]),
        midata: None,
        expanded: false,
    }
}

#[test]
fn single_file_request_resolves_one_static_source() {
    let mut state = ViewerState::default();
    let ids = state.insert_and_select_first(vec![SidebarItem::Image(image_item("assets/icon.png"))]);
    let params = ConvertParams::default();

    let request =
        resolve_export_request(&state, ExportMode::SingleFile, Some(ExportTarget::Entry(ids[0])), &params).unwrap();

    assert_eq!(request.mode, ExportMode::SingleFile);
    assert_eq!(request.targets.len(), 1);
    assert_eq!(request.targets[0].input_name, "icon.png");
    assert_eq!(request.targets[0].relative_path.as_deref(), Some("assets"));
    assert_eq!(request.targets[0].image.path, "assets/icon.png");
    assert_eq!(request.params.output_format, params.output_format);
}

#[test]
fn group_request_is_one_logical_source_or_stable_member_sources() {
    let mut state = ViewerState::default();
    let member_ids = state.insert_and_select_first(vec![
        SidebarItem::Image(image_item("walk-left.png")),
        SidebarItem::Image(image_item("walk-right.png")),
    ]);
    assert!(state.toggle_selection(member_ids[1]));
    let group_id = state.group_selected().unwrap();
    let params = ConvertParams::default();

    let single =
        resolve_export_request(&state, ExportMode::SingleFile, Some(ExportTarget::Entry(group_id)), &params)
            .unwrap();
    assert_eq!(single.targets.len(), 1);
    assert_eq!(single.targets[0].image.frame_count(), 2);

    let all = resolve_export_request(&state, ExportMode::AllFiles, None, &params).unwrap();
    assert_eq!(
        all.targets.iter().map(|source| source.input_name.as_str()).collect::<Vec<_>>(),
        vec!["walk-left.png", "walk-right.png"]
    );
}

#[test]
fn animation_request_expands_frames_and_resolves_explicit_frame() {
    let mut state = ViewerState::default();
    let id = state.insert_and_select_first(vec![SidebarItem::Image(animation_item())])[0];
    let params = ConvertParams::default();

    let all = resolve_export_request(&state, ExportMode::AllFiles, None, &params).unwrap();
    assert_eq!(all.targets.len(), 2);
    assert_eq!(
        all.targets.iter().map(|source| (source.input_name.as_str(), source.image.frame_count())).collect::<Vec<_>>(),
        vec![("animation-01", 1), ("animation-02", 1)]
    );

    assert!(state.select_frame(id, 1));
    let single = resolve_export_request(
        &state,
        ExportMode::SingleFile,
        Some(ExportTarget::Frame { collection: id, index: 1 }),
        &params,
    )
    .unwrap();
    assert_eq!(single.targets.len(), 1);
    assert_eq!(single.targets[0].input_name, "animation-02");
    assert_eq!(single.targets[0].image.frame_count(), 1);
}

#[test]
fn mixed_all_files_uses_stable_selected_ids_not_primary_target() {
    let mut state = ViewerState::default();
    let ids = state.insert_and_select_first(vec![
        SidebarItem::Image(image_item("static.png")),
        SidebarItem::Image(animation_item()),
    ]);
    assert!(state.toggle_selection(ids[1]));
    assert_eq!(state.primary_target, Some(SelectionTarget::Entry(ids[1])));
    let params = ConvertParams::default();

    let all = resolve_export_request(&state, ExportMode::AllFiles, None, &params).unwrap();
    assert_eq!(
        all.targets.iter().map(|source| source.input_name.as_str()).collect::<Vec<_>>(),
        vec!["static.png", "animation-01", "animation-02"]
    );

    assert_eq!(
        resolve_export_request(&state, ExportMode::SingleFile, Some(ExportTarget::Entry(ids[1])), &params)
            .err()
            .unwrap(),
        "Single-file export requires exactly one selected source"
    );
}

#[test]
fn export_requests_report_each_failure() {
    let mut state = ViewerState::default();
    let params = ConvertParams::default();
    assert_eq!(
        resolve_export_request(&state, ExportMode::SingleFile, None, &params).err().unwrap(),
        "Single-file export requires one target"
    );
    assert_eq!(
        resolve_export_request(&state, ExportMode::AllFiles, None, &params).err().unwrap(),
        "Export request has no image sources"
    );
    let id = state.append_items(vec![SidebarItem::Image(image_item("a.png"))])[0];
    state.select(id);
    assert_eq!(
        resolve_export_request(
            &state,
            ExportMode::SingleFile,
            Some(ExportTarget::Frame { collection: id, index: 0 }),
            &params
        )
        .err()
        .unwrap(),
        "Single-file export target is not available"
    );
}

#[test]
fn export_names_split_file_name_and_relative_directory() {
    assert_eq!(export_name_and_relative_path("a/b/c.png"), ("c.png".to_string(), Some("a/b".to_string())));
    assert_eq!(export_name_and_relative_path("/abs/c.png"), ("c.png".to_string(), None));
    assert_eq!(export_name_and_relative_path("c.png"), ("c.png".to_string(), None));
    assert_eq!(resource_name("/x/y/font.ttf"), "font.ttf");
    assert_eq!(resource_name("/"), "/");
}

#[test]
fn frame_names_pad_to_the_frame_count_digits() {
    assert_eq!(animation_frame_name("dir/clip.gif", 0, 3), "dir/clip-01.gif");
    assert_eq!(animation_frame_name("clip.gif", 9, 120), "clip-010.gif");
    assert_eq!(animation_frame_name("clip", 0, 2), "clip-01");
}

#[test]
fn webp_signature_needs_riff_and_webp_tags() {
    assert!(is_webp(b"RIFF\0\0\0\0WEBPVP8L"));
    assert!(!is_webp(b"RIFF\0\0\0\0WEBX"));
    assert!(!is_webp(b"RIFF"));
}

#[test]
fn relative_directories_must_stay_inside_the_root() {
    let source = |name: &str, rel: Option<&str>| ExportSource {
        input_name: name.to_string(),
        relative_path: rel.map(|r| r.to_string()),
        image: image_item(name),
    };
    assert_eq!(safe_relative_directory(&source("a.png", Some("x/y"))).unwrap(), "x/y");
    assert_eq!(safe_relative_directory(&source("a.png", None)).unwrap(), "");
    assert_eq!(
        safe_relative_directory(&source("a/b.png", None)),
        Err(NativeBatchExportError::InvalidSourcePath {
            source: "a/b.png".to_string(),
            reason: "input name must be one relative file name".to_string(),
        })
    );
    assert!(safe_relative_directory(&source("..", None)).is_err());
    assert!(safe_relative_directory(&source("./a.png", None)).is_err());
    assert_eq!(
        safe_relative_directory(&source("a.png", Some("x/../y"))),
        Err(NativeBatchExportError::InvalidSourcePath {
            source: "a.png".to_string(),
            reason: "relative directory escapes export root: x/../y".to_string(),
        })
    );
    assert!(safe_relative_directory(&source("a.png", Some("/abs"))).is_err());
}

#[test]
fn batch_paths_number_collisions() {
    let mut used = Vec::new();
    let root = "/nonexistent-export-root-for-tests";
    assert_eq!(unique_batch_path(root, "sub", "a.png", "png", &mut used).unwrap(), "sub/a.png");
    assert_eq!(unique_batch_path(root, "sub", "a.png", "png", &mut used).unwrap(), "sub/a-2.png");
    assert_eq!(unique_batch_path(root, "", "a.png", "png", &mut used).unwrap(), "a.png");
    assert_eq!(used.len(), 3);
}

fn plain_source(name: &str, dir: Option<&str>) -> ExportSource {
    ExportSource { input_name: name.to_string(), relative_path: dir.map(|d| d.to_string()), image: image_item(name) }
}

#[test]
fn batch_requests_must_export_all_files() {
    let single = icu_tool::export::ExportRequest {
        mode: ExportMode::SingleFile,
        targets: vec![plain_source("a.png", None)],
        params: ConvertParams::default(),
    };
    assert_eq!(
        icu_tool::export::check_batch_request(&single),
        Err(NativeBatchExportError::InvalidRequest("Native batch export requires all-files mode".to_string()))
    );
    let empty = icu_tool::export::ExportRequest { mode: ExportMode::AllFiles, targets: vec![], params: ConvertParams::default() };
    assert_eq!(
        icu_tool::export::check_batch_request(&empty),
        Err(NativeBatchExportError::InvalidRequest(
            "Native batch export requires at least one export source".to_string()
        ))
    );
    let all = icu_tool::export::ExportRequest {
        mode: ExportMode::AllFiles,
        targets: vec![plain_source("a.png", None)],
        params: ConvertParams::default(),
    };
    assert_eq!(icu_tool::export::check_batch_request(&all), Ok(()));
}

#[test]
fn batch_outputs_take_the_stem_and_number_repeats() {
    let root = "/no/such/export/root";
    let mut used = Vec::new();
    let first = icu_tool::export::batch_output_path(root, &plain_source("walk.png", Some("sprites")), "webp", &mut used).unwrap();
    assert_eq!(first.relative_directory, "sprites");
    assert_eq!(first.base_name, "walk.webp");
    assert_eq!(first.relative_path, "sprites/walk.webp");
    let second = icu_tool::export::batch_output_path(root, &plain_source("walk.gif", Some("sprites")), "webp", &mut used).unwrap();
    assert_eq!(second.relative_path, "sprites/walk-2.webp");
    let third = icu_tool::export::batch_output_path(root, &plain_source("walk.gif", None), "webp", &mut used).unwrap();
    assert_eq!(third.relative_path, "walk.webp");
    assert_eq!(used.len(), 3);
    assert!(matches!(
        icu_tool::export::batch_output_path(root, &plain_source("a.png", Some("../out")), "png", &mut used),
        Err(NativeBatchExportError::InvalidSourcePath { .. })
    ));
    assert_eq!(used.len(), 3);
}

#[test]
fn animation_export_puts_frames_image_after_image() {
    let frames = icu_tool::export::animation_frames(vec![image_item("a.png"), animation_item()]);
    assert_eq!(frames.len(), 3);
    assert_eq!(frames[0].pixels, vec![BLACK]);
    assert_eq!(frames[0].delay, 0);
    assert_eq!(frames[2].pixels, vec![BLUE, BLUE]);
    assert_eq!(frames[2].delay, 120_000_000);
}

#[test]
fn webp_animation_export_uses_the_repeat_count() {
    let options = icu_tool::export::GifExportOptions {
        interval: 50_000_000,
        repeat: icu_tool::export::GifRepeat::Finite(3),
    };
    let bytes = icu_tool::export::encode_webp_frames(vec![animation_item()], options).unwrap();
    assert_eq!(&bytes[0..4], b"RIFF");
    assert_eq!(&bytes[42..44], &[3, 0]);
    let direct = icu_tool::webp::encode(&icu_tool::export::animation_frames(vec![animation_item()]), 50_000_000, 3).unwrap();
    assert_eq!(bytes, direct);
    assert!(icu_tool::export::encode_webp_frames(vec![], options).is_err());
}

#[test]
fn gif_export_round_trips_frames_and_delays() {
    let bytes = icu_tool::export::encode_gif_frames(&[animation_item()], icu_tool::export::GifExportOptions::default()).unwrap();
    assert_eq!(&bytes[0..6], b"GIF89a");
    let item = icu_tool::decode::decode_animation("out.gif", &bytes).unwrap();
    match item.frames {
        FrameSource::Animated { frames, .. } => {
            assert_eq!(frames.len(), 2);
            assert_eq!(frames[0].delay, 80_000_000);
            assert_eq!(frames[1].delay, 120_000_000);
            assert_eq!((frames[0].width, frames[0].height), (2, 1));
        }
        FrameSource::Single { .. } => panic!("expected an animation"),
    }
}

#[test]
fn gif_export_refuses_short_pixels_and_nothing() {
    let mut short = image_item("short.png");
    short.frames = FrameSource::single(vec![BLACK], 2, 2);
    assert_eq!(
        icu_tool::export::encode_gif_frames(&[short], icu_tool::export::GifExportOptions::default()),
        Err("Invalid RGBA frame dimensions: 2x2".to_string())
    );
    assert_eq!(
        icu_tool::export::encode_gif_frames(&[], icu_tool::export::GifExportOptions::default()),
        Err("Cannot encode an empty GIF".to_string())
    );
}

#[test]
fn apng_export_round_trips_frames_and_delays() {
    let bytes = icu_tool::export::encode_apng_frames(vec![animation_item()], icu_tool::export::GifExportOptions::default()).unwrap();
    let item = icu_tool::decode::decode_animation("out.png", &bytes).unwrap();
    assert_eq!(item.info.format, "image/png");
    match item.frames {
        FrameSource::Animated { frames, .. } => {
            assert_eq!(frames.len(), 2);
            assert_eq!(frames[0].pixels, vec![RED, RED]);
            assert_eq!(frames[1].pixels, vec![BLUE, BLUE]);
            assert_eq!(frames[0].delay, 80_000_000);
            assert_eq!(frames[1].delay, 120_000_000);
        }
        FrameSource::Single { .. } => panic!("expected an animation"),
    }
    assert_eq!(
        icu_tool::export::encode_apng_frames(vec![], icu_tool::export::GifExportOptions::default()),
        Err("Cannot encode an empty APNG".to_string())
    );
}

#[test]
fn webp_export_decodes_back_to_the_same_pixels() {
    let options = icu_tool::export::GifExportOptions::default();
    let bytes = icu_tool::export::encode_webp_frames(vec![animation_item()], options).unwrap();
    let item = icu_tool::decode::decode_animation("out.webp", &bytes).unwrap();
    match item.frames {
        FrameSource::Animated { frames, .. } => {
            assert_eq!(frames.len(), 2);
            assert_eq!(frames[0].pixels, vec![RED, RED]);
            assert_eq!(frames[1].pixels, vec![BLUE, BLUE]);
        }
        FrameSource::Single { .. } => panic!("expected an animation"),
    }
}

#[test]
fn only_animations_exported_as_gif_or_webp_are_encoded_as_animations() {
    let mut params = ConvertParams::default();
    params.output_format = icu_tool::formats::ImageFormats::GIF;
    params.gif_interval_ms = 0;
    params.gif_repeat = Some(2);
    let options = icu_tool::export::export_animation_options(&params);
    assert_eq!(options.interval, 1_000_000);
    assert_eq!(options.repeat, icu_tool::export::GifRepeat::Finite(2));
    let (data, ext) = icu_tool::export::encode_export_animation(animation_item(), &params).unwrap().unwrap();
    assert_eq!(ext, "gif");
    assert_eq!(data, icu_tool::export::encode_gif_frames(&[animation_item()], options).unwrap());
    params.output_format = icu_tool::formats::ImageFormats::WEBP;
    let (data, ext) = icu_tool::export::encode_export_animation(animation_item(), &params).unwrap().unwrap();
    assert_eq!(ext, "webp");
    assert_eq!(&data[0..4], b"RIFF");
    assert!(icu_tool::export::encode_export_animation(image_item("still.png"), &params).is_none());
    params.output_format = icu_tool::formats::ImageFormats::PNG;
    assert!(icu_tool::export::encode_export_animation(animation_item(), &params).is_none());
}

fn png_chunks(data: &[u8]) -> Vec<&[u8]> {
    let mut chunks = Vec::new();
    let mut offset = 8;
    while offset + 12 <= data.len() {
        let length = u32::from_be_bytes(data[offset..offset + 4].try_into().unwrap()) as usize;
        let chunk_end = offset + 12 + length;
        assert!(chunk_end <= data.len());
        chunks.push(&data[offset + 4..offset + 8]);
        offset = chunk_end;
    }
    assert_eq!(offset, data.len());
    chunks
}

#[test]
fn gif_animation_round_trip_preserves_frame_count() {
    let data = icu_tool::export::encode_gif_frames(&[animation_item()], icu_tool::export::GifExportOptions::default()).unwrap();
    let decoder = image::codecs::gif::GifDecoder::new(std::io::Cursor::new(data)).unwrap();
    assert_eq!(decoder.into_frames().collect_frames().unwrap().len(), 2);
}

#[test]
fn apng_animation_round_trip_preserves_frame_count() {
    let data = icu_tool::export::encode_apng_frames(vec![animation_item()], icu_tool::export::GifExportOptions::default()).unwrap();
    assert_eq!(&data[..8], b"\x89PNG\r\n\x1a\n");
    let chunks = png_chunks(&data);
    assert!(chunks.iter().any(|chunk| *chunk == b"acTL"));
    assert_eq!(chunks.iter().filter(|chunk| **chunk == *b"fcTL").count(), 2);
    assert!(chunks.iter().any(|chunk| *chunk == b"fdAT"));

    let decoder = image::codecs::png::PngDecoder::new(std::io::Cursor::new(data.clone())).unwrap();
    assert!(decoder.is_apng().unwrap());
    assert_eq!(decoder.apng().unwrap().into_frames().collect_frames().unwrap().len(), 2);

    assert_eq!(icu_tool::decode::decode_animation("animation.apng", &data).unwrap().frame_count(), 2);
}

#[test]
fn webp_animation_round_trip_uses_animated_frame_source() {
    let data = icu_tool::export::encode_webp_frames(vec![animation_item()], icu_tool::export::GifExportOptions::default()).unwrap();
    let item = icu_tool::decode::decode_animation("animation.webp", &data).unwrap();
    assert_eq!(item.frame_count(), 2);
    let FrameSource::Animated { frames, .. } = item.frames else {
        panic!("animated WebP must use an animated frame source");
    };
    assert_eq!(frames[0].pixels, vec![RED, RED]);
    assert_eq!(frames[1].pixels, vec![BLUE, BLUE]);
    assert_eq!(frames[0].delay, 80_000_000);
    assert_eq!(frames[1].delay, 120_000_000);
}

#[test]
fn static_webp_does_not_enter_animation_path() {
    let pixels = [255, 0, 0, 255];
    let mut data = Vec::new();
    image::codecs::webp::WebPEncoder::new_lossless(&mut data)
        .write_image(&pixels, 1, 1, image::ExtendedColorType::Rgba8)
        .unwrap();
    assert!(icu_tool::decode::decode_animation("static.webp", &data).is_none());
}

#[test]
fn gif_export_refuses_extra_pixels() {
    let mut long = image_item("long.png");
    long.frames = FrameSource::single(vec![BLACK; 5], 2, 2);
    assert_eq!(
        icu_tool::export::encode_gif_frames(&[long], icu_tool::export::GifExportOptions::default()),
        Err("Invalid RGBA frame dimensions: 2x2".to_string())
    );
}

#[test]
fn free_batch_path_skips_what_the_check_reports() {
    let occupied = |path: Vec<char>| path.iter().collect::<String>() == "root/sub/a.png";
    let mut used = Vec::new();
    let first = icu_tool::export::first_free_batch_path("root", "sub", "a.png", "png", &mut used, occupied);
    assert_eq!(first.as_deref(), Some("sub/a-2.png"));
    let second = icu_tool::export::first_free_batch_path("root", "sub", "a.png", "png", &mut used, occupied);
    assert_eq!(second.as_deref(), Some("sub/a-3.png"));
    assert_eq!(used, vec!["sub/a-2.png".to_string(), "sub/a-3.png".to_string()]);
}

#[test]
fn planned_batch_outputs_number_past_an_existing_file() {
    let occupied = |path: Vec<char>| path.iter().collect::<String>() == "root/themes/dark/icon.png";
    let mut used = Vec::new();
    let source = plain_source("icon.input", Some("themes/dark"));
    let first = icu_tool::export::plan_batch_output("root", &source, "png", &mut used, occupied).unwrap();
    let second = icu_tool::export::plan_batch_output("root", &source, "png", &mut used, occupied).unwrap();
    assert_eq!(first.relative_path, "themes/dark/icon-2.png");
    assert_eq!(second.relative_path, "themes/dark/icon-3.png");
    assert_eq!(first.base_name, "icon.png");
}
