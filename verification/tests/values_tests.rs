use icu_tool::cli_values::{FramesTile, MirxCodingMode, parse_frames_tile, parse_hex_color, parse_power_of_two};
use icu_tool::formats::ImageFormats;
use icu_tool::image_item::{Color32, Frame, FrameSource, ImageInfo, ImageItem, MiDataKind};
use icu_tool::panels::{ContentType, DiffMode, collect_charset, get_content_type, get_diff_mode, supports_pixel_diff};
use icu_tool::params::{BakeCharsetTab, ConvertParams, default_gif_interval_ms, default_jpeg_background, default_jpeg_quality, default_mirx_export_kind};
use icu_tool::workspace::{SidebarItem, ViewerState};

#[test]
fn alignment_must_be_a_positive_power_of_two() {
    assert_eq!(parse_power_of_two("64"), Ok(64));
    assert_eq!(parse_power_of_two("1"), Ok(1));
    assert_eq!(parse_power_of_two("3"), Err("alignment must be a positive power of two".to_string()));
    assert_eq!(parse_power_of_two("0"), Err("alignment must be a positive power of two".to_string()));
    assert_eq!(parse_power_of_two("x"), Err("alignment must be a positive power of two".to_string()));
}

#[test]
fn background_colour_is_rrggbb() {
    assert_eq!(parse_hex_color("#ff8000"), Ok([255, 128, 0]));
    assert_eq!(parse_hex_color("00FF10"), Ok([0, 255, 16]));
    assert_eq!(parse_hex_color("#fff"), Err("background must use the #RRGGBB format".to_string()));
    assert_eq!(parse_hex_color("#gg0000"), Err("background must use the #RRGGBB format".to_string()));
}

#[test]
fn tile_is_width_by_height_or_none() {
    assert_eq!(parse_frames_tile("16x8").unwrap().dimensions(), Some((16, 8)));
    assert_eq!(parse_frames_tile("16X8").unwrap().dimensions(), Some((16, 8)));
    assert_eq!(parse_frames_tile("NONE").unwrap().dimensions(), None);
    assert_eq!(parse_frames_tile("0x32").err().unwrap(), "tile dimensions must be positive");
    assert_eq!(parse_frames_tile("16").err().unwrap(), "tile must use WIDTHxHEIGHT or none");
    assert_eq!(parse_frames_tile("ax2").err().unwrap(), "tile width must be positive");
    assert_eq!(parse_frames_tile("2xb").err().unwrap(), "tile height must be positive");
    let parsed: FramesTile = "4x4".parse().unwrap();
    assert_eq!(parsed.dimensions(), Some((4, 4)));
}

#[test]
fn frequency_modes_are_the_quantized_ones() {
    assert!(MirxCodingMode::FrequencyReversible.is_frequency());
    assert!(MirxCodingMode::FrequencyQuantized.is_frequency());
    assert!(!MirxCodingMode::Raw.is_frequency());
    assert!(!MirxCodingMode::Lz4.is_frequency());
}

#[test]
fn file_extensions_follow_the_format() {
    assert_eq!(ImageFormats::PNG.get_file_extension(), "png");
    assert_eq!(ImageFormats::JPEG.get_file_extension(), "jpeg");
    assert_eq!(ImageFormats::LVGL.get_file_extension(), "bin");
}

#[test]
fn conversion_defaults() {
    let params = ConvertParams::default();
    assert_eq!(params.output_format, ImageFormats::LVGL);
    assert_eq!(params.jpeg_quality, 85);
    assert_eq!(params.jpeg_background, [255, 255, 255]);
    assert_eq!(params.gif_interval_ms, 100);
    assert_eq!(default_jpeg_quality(), 85);
    assert_eq!(default_jpeg_background(), [255, 255, 255]);
    assert_eq!(default_gif_interval_ms(), 100);
    assert_eq!(default_mirx_export_kind(), "scene");
}

fn image(path: &str, midata: Option<MiDataKind>) -> ImageItem {
    ImageItem {
        path: path.to_string(),
        info: ImageInfo { width: 1, height: 1, data_size: 4, format: "rgba".to_string() },
        width: 1,
        height: 1,
        frames: FrameSource::single(vec![Color32 { r: 0, g: 0, b: 0, a: 255 }], 1, 1),
        midata,
        expanded: false,
    }
}

#[test]
fn indexed_images_support_pixel_diff() {
    assert!(supports_pixel_diff(&image("a", Some(MiDataKind::Indexed))));
    assert!(supports_pixel_diff(&image("a", Some(MiDataKind::Rgba))));
    assert!(supports_pixel_diff(&image("a", None)));
    assert!(!supports_pixel_diff(&image("a", Some(MiDataKind::Font))));
}

#[test]
fn indexed_and_rgba_images_support_pixel_diff() {
    let mut state = ViewerState::default();
    let ids = state.append_items(vec![
        SidebarItem::Image(image("i", Some(MiDataKind::Indexed))),
        SidebarItem::Image(image("r", Some(MiDataKind::Rgba))),
        SidebarItem::Image(image("f", Some(MiDataKind::Font))),
        SidebarItem::Image(image("g", Some(MiDataKind::Font))),
    ]);
    assert_eq!(get_diff_mode(&state), DiffMode::NoDiff);
    state.diff_image1_id = Some(ids[0]);
    state.diff_image2_id = Some(ids[1]);
    assert_eq!(get_diff_mode(&state), DiffMode::Image);
    state.diff_image1_id = Some(ids[2]);
    assert_eq!(get_diff_mode(&state), DiffMode::Incompatible);
    state.diff_image2_id = Some(ids[3]);
    assert_eq!(get_diff_mode(&state), DiffMode::Glyph);
    state.select(ids[0]);
    assert_eq!(get_content_type(&state), ContentType::Indexed);
    state.select(ids[2]);
    assert_eq!(get_content_type(&state), ContentType::Font);
}

#[test]
fn charset_comes_from_the_chosen_tab() {
    let mut state = ViewerState::default();
    assert_eq!(collect_charset(&state, None), "ABCabc012 .,;:!?".chars().collect::<Vec<_>>());
    state.font_bake_charset_tab = BakeCharsetTab::Range;
    state.font_bake_charset_ranges = "U+0041-U+0043".to_string();
    assert_eq!(collect_charset(&state, None), vec!['A', 'B', 'C']);
    state.font_bake_charset_tab = BakeCharsetTab::File;
    assert!(collect_charset(&state, Some("xy")).is_empty());
    state.font_bake_charset_file = Some("chars.txt".to_string());
    assert_eq!(collect_charset(&state, Some("xy")), vec!['x', 'y']);
    assert!(collect_charset(&state, None).is_empty());
}

#[test]
fn playback_advances_by_elapsed_time_and_wraps() {
    let ms = 1_000_000u128;
    let frame = |delay| Frame { pixels: vec![], width: 0, height: 0, left: 0, top: 0, delay };
    let mut img = image("a", None);
    img.frames = FrameSource::animated(vec![frame(100 * ms), frame(0), frame(50 * ms)]);
    assert_eq!(img.total_duration(), Some(150 * ms));
    assert_eq!(img.frame_count(), 3);
    assert!(!img.advance_frame(1_000 * ms));
    assert!(img.advance_frame(1_101 * ms));
    assert!(matches!(img.frames, FrameSource::Animated { current: 2, last_advance: Some(t), .. } if t == 1_101 * ms));
    img.set_autoplay(false);
    assert!(matches!(img.frames, FrameSource::Animated { autoplay: false, last_advance: None, .. }));
    assert!(!img.advance_frame(5_000 * ms));
    let still = image("b", None);
    assert_eq!(still.total_duration(), None);
    assert_eq!(still.frame_count(), 1);
}

#[test]
fn hex_colors_take_only_six_hex_digits() {
    let error = Err("background must use the #RRGGBB format".to_string());
    assert_eq!(parse_hex_color("#0A78F0"), Ok([10, 120, 240]));
    assert_eq!(parse_hex_color("#+f+f+f"), error);
    assert_eq!(parse_hex_color("+fffff"), error);
    assert_eq!(parse_hex_color("#é0000"), error);
    assert_eq!(parse_hex_color("##00000"), error);
}
