//! The rules on which options of `convert` may be given together.
use vstd::prelude::*;
use crate::cli_values::MirxCodingMode;
use crate::formats::{ImageFormats, OutputColorFormats, OutputCompressedMethod};
use crate::params::{PngColorMode, PngCompression};

verus! {

/// How a refused combination of options is reported.
#[derive(Clone, Copy, Debug, PartialEq, Eq, Structural)]
pub enum OptionErrorKind {
    MissingRequiredArgument,
    InvalidValue,
}

/// A refused combination of options: its kind and the message shown.
pub struct OptionError {
    pub kind: OptionErrorKind,
    pub message: String,
}

/// The options of `convert` that depend on one another.
pub struct ConvertOptions {
    pub output_format: ImageFormats,
    pub output_color_format: Option<OutputColorFormats>,
    pub output_compressed_method: Option<OutputCompressedMethod>,
    pub mirx_coding: MirxCodingMode,
    pub mirx_quality: Option<u8>,
    pub dither: Option<u32>,
    pub png_mode: Option<PngColorMode>,
    pub png_compression: Option<PngCompression>,
    pub quality: Option<u8>,
    pub background: Option<[u8; 3]>,
}

/// The first rule the options break, with its kind and message, in the
/// order the rules are checked; None when they break none.
pub open spec fn convert_options_error(o: ConvertOptions) -> Option<(OptionErrorKind, Seq<char>)> {
    if o.output_format == ImageFormats::LVGL && o.output_color_format is None {
        Some(
            (
                OptionErrorKind::MissingRequiredArgument,
                "Output color format is required for LVGL image format. Please specify it using the [-C --output-color-format] option."@,
            ),
        )
    } else if o.output_format != ImageFormats::LVGL && o.output_compressed_method is Some {
        Some((OptionErrorKind::InvalidValue, "--output-compressed-method requires LVGL output."@))
    } else if o.mirx_coding != MirxCodingMode::Raw {
        Some((OptionErrorKind::InvalidValue, "--mirx-coding requires MIRX output."@))
    } else if o.mirx_quality is Some && o.mirx_coding != MirxCodingMode::FrequencyQuantized {
        Some((OptionErrorKind::InvalidValue, "--mirx-quality requires --mirx-coding frequency-quantized."@))
    } else if o.dither matches Some(d) && !(1 <= d <= 30) {
        Some((OptionErrorKind::InvalidValue, "Dither value must be between 1 and 30."@))
    } else if o.output_format != ImageFormats::PNG && (o.png_mode is Some || o.png_compression is Some) {
        Some((OptionErrorKind::InvalidValue, "--png-mode and --png-compression require PNG output."@))
    } else if o.output_format != ImageFormats::JPEG && (o.quality is Some || o.background is Some) {
        Some((OptionErrorKind::InvalidValue, "--quality and --background require JPEG output."@))
    } else {
        None
    }
}

/// Whether the options go together: LVGL output has a colour format, only
/// LVGL output is compressed, no MIRX coding or quality is asked for (a MIRX
/// quality only with quantized frequency coding), dithering is between 1 and
/// 30, PNG options come only with PNG output, and a JPEG quality or
/// background only with JPEG output.
pub open spec fn options_go_together(o: ConvertOptions) -> bool {
    &&& (o.output_format == ImageFormats::LVGL ==> o.output_color_format is Some)
    &&& (o.output_compressed_method is Some ==> o.output_format == ImageFormats::LVGL)
    &&& o.mirx_coding == MirxCodingMode::Raw
    &&& (o.mirx_quality is Some ==> o.mirx_coding == MirxCodingMode::FrequencyQuantized)
    &&& (o.dither matches Some(d) ==> 1 <= d <= 30)
    &&& (o.png_mode is Some ==> o.output_format == ImageFormats::PNG)
    &&& (o.png_compression is Some ==> o.output_format == ImageFormats::PNG)
    &&& (o.quality is Some ==> o.output_format == ImageFormats::JPEG)
    &&& (o.background is Some ==> o.output_format == ImageFormats::JPEG)
}

/// Options are refused exactly when some rule is broken: a JPEG quality or
/// background with another output format, PNG options with another format,
/// a dither outside 1 to 30, LVGL output without a colour format, and so on.
pub proof fn lemma_refused_exactly_when_a_rule_breaks(o: ConvertOptions)
    ensures
        convert_options_error(o) is None <==> options_go_together(o),
        o.output_format != ImageFormats::JPEG && o.quality is Some ==> convert_options_error(o) is Some,
        o.output_format != ImageFormats::JPEG && o.background is Some ==> convert_options_error(o) is Some,
        o.output_format != ImageFormats::PNG && (o.png_mode is Some || o.png_compression is Some)
            ==> convert_options_error(o) is Some,
{
}

fn option_error(kind: OptionErrorKind, message: &str) -> (e: OptionError)
    ensures
        e.kind == kind,
        e.message@ == message@,
{
    OptionError { kind, message: message.to_string() }
}

/// Checks the options of `convert` against the rules on which of them go
/// together: LVGL output needs a colour format, LVGL compression needs LVGL
/// output, MIRX coding needs MIRX output (which this format list has not),
/// a MIRX quality needs quantized frequency coding, dithering runs from 1
/// to 30, PNG options need PNG output and JPEG options need JPEG output.
pub fn check_convert_options(o: &ConvertOptions) -> (r: Result<(), OptionError>)
    ensures
        match convert_options_error(*o) {
            None => r is Ok,
            Some((kind, message)) => r matches Err(e) && e.kind == kind && e.message@ == message,
        },
        r is Ok <==> options_go_together(*o),
{
    proof {
        lemma_refused_exactly_when_a_rule_breaks(*o);
    }
    let lvgl = match o.output_format {
        ImageFormats::LVGL => true,
        _ => false,
    };
    let png = match o.output_format {
        ImageFormats::PNG => true,
        _ => false,
    };
    let jpeg = match o.output_format {
        ImageFormats::JPEG => true,
        _ => false,
    };
    let raw = match o.mirx_coding {
        MirxCodingMode::Raw => true,
        _ => false,
    };
    let quantized = match o.mirx_coding {
        MirxCodingMode::FrequencyQuantized => true,
        _ => false,
    };
    if lvgl && o.output_color_format.is_none() {
        return Err(
            option_error(
                OptionErrorKind::MissingRequiredArgument,
                "Output color format is required for LVGL image format. Please specify it using the [-C --output-color-format] option.",
            ),
        );
    }
    if !lvgl && o.output_compressed_method.is_some() {
        return Err(option_error(OptionErrorKind::InvalidValue, "--output-compressed-method requires LVGL output."));
    }
    if !raw {
        return Err(option_error(OptionErrorKind::InvalidValue, "--mirx-coding requires MIRX output."));
    }
    if o.mirx_quality.is_some() && !quantized {
        return Err(
            option_error(OptionErrorKind::InvalidValue, "--mirx-quality requires --mirx-coding frequency-quantized."),
        );
    }
    match o.dither {
        Some(d) => {
            if d < 1 || d > 30 {
                return Err(option_error(OptionErrorKind::InvalidValue, "Dither value must be between 1 and 30."));
            }
        },
        None => {},
    }
    if !png && (o.png_mode.is_some() || o.png_compression.is_some()) {
        return Err(
            option_error(OptionErrorKind::InvalidValue, "--png-mode and --png-compression require PNG output."),
        );
    }
    if !jpeg && (o.quality.is_some() || o.background.is_some()) {
        return Err(option_error(OptionErrorKind::InvalidValue, "--quality and --background require JPEG output."));
    }
    Ok(())
}

} // verus!
