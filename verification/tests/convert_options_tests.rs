use icu_tool::cli_values::MirxCodingMode;
use icu_tool::convert_options::{check_convert_options, ConvertOptions, OptionErrorKind};
use icu_tool::formats::{ImageFormats, OutputColorFormats, OutputCompressedMethod};
use icu_tool::params::{PngColorMode, PngCompression};

fn options(format: ImageFormats) -> ConvertOptions {
    ConvertOptions {
        output_format: format,
        output_color_format: None,
        output_compressed_method: None,
        mirx_coding: MirxCodingMode::Raw,
        mirx_quality: None,
        dither: None,
        png_mode: None,
        png_compression: None,
        quality: None,
        background: None,
    }
}

fn message(o: &ConvertOptions) -> (OptionErrorKind, String) {
    let e = check_convert_options(o).unwrap_err();
    (e.kind, e.message)
}

#[test]
fn plain_options_are_accepted() {
    assert!(check_convert_options(&options(ImageFormats::PNG)).is_ok());
    let mut lvgl = options(ImageFormats::LVGL);
    lvgl.output_color_format = Some(OutputColorFormats::RGB565);
    lvgl.output_compressed_method = Some(OutputCompressedMethod::Rle);
    lvgl.dither = Some(30);
    assert!(check_convert_options(&lvgl).is_ok());
    let mut jpeg = options(ImageFormats::JPEG);
    jpeg.quality = Some(80);
    jpeg.background = Some([1, 2, 3]);
    assert!(check_convert_options(&jpeg).is_ok());
    let mut png = options(ImageFormats::PNG);
    png.png_mode = Some(PngColorMode::Indexed4);
    png.png_compression = Some(PngCompression::Best);
    assert!(check_convert_options(&png).is_ok());
}

#[test]
fn lvgl_needs_a_color_format() {
    let (kind, text) = message(&options(ImageFormats::LVGL));
    assert_eq!(kind, OptionErrorKind::MissingRequiredArgument);
    assert_eq!(
        text,
        "Output color format is required for LVGL image format. Please specify it using the [-C --output-color-format] option."
    );
}

#[test]
fn each_refused_combination_has_its_message() {
    let mut o = options(ImageFormats::PNG);
    o.output_compressed_method = Some(OutputCompressedMethod::LZ4);
    assert_eq!(message(&o), (OptionErrorKind::InvalidValue, "--output-compressed-method requires LVGL output.".to_string()));

    let mut o = options(ImageFormats::PNG);
    o.mirx_coding = MirxCodingMode::Rle;
    assert_eq!(message(&o).1, "--mirx-coding requires MIRX output.");

    let mut o = options(ImageFormats::PNG);
    o.mirx_quality = Some(50);
    assert_eq!(message(&o).1, "--mirx-quality requires --mirx-coding frequency-quantized.");

    let mut o = options(ImageFormats::PNG);
    o.dither = Some(0);
    assert_eq!(message(&o).1, "Dither value must be between 1 and 30.");
    o.dither = Some(31);
    assert_eq!(message(&o).1, "Dither value must be between 1 and 30.");

    let mut o = options(ImageFormats::BMP);
    o.png_compression = Some(PngCompression::Fast);
    assert_eq!(message(&o).1, "--png-mode and --png-compression require PNG output.");

    let mut o = options(ImageFormats::PNG);
    o.background = Some([0, 0, 0]);
    assert_eq!(message(&o).1, "--quality and --background require JPEG output.");
}
