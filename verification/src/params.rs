//! Viewer settings: the tabs and modes of the panels and the parameters of
//! image conversion, with their defaults.
use crate::formats::{ImageFormats, LVGL_Version, OutputColorFormats, OutputCompressedMethod};
use vstd::prelude::*;

verus! {

/// The tab shown in the right panel.
#[derive(Clone, Copy, PartialEq, Eq, Debug, Structural)]
pub enum RightTab {
    Info,
    Convert,
    Diff,
}

impl Default for RightTab {
    fn default() -> (t: Self)
        ensures
            t == RightTab::Info,
    {
        RightTab::Info
    }
}

/// How a font is shown.
#[derive(Clone, Copy, PartialEq, Eq, Debug, Structural)]
pub enum FontMode {
    Atlas,
    Rendered,
    Grid,
    Vector,
}

impl Default for FontMode {
    fn default() -> (m: Self)
        ensures
            m == FontMode::Grid,
    {
        FontMode::Grid
    }
}

/// A pending change of a canvas view.
#[derive(Clone, Copy, Debug, PartialEq, Eq, Structural)]
pub enum CanvasViewCommand {
    Fit,
    ActualSize,
}

/// How an indexed image is shown.
#[allow(non_camel_case_types)]
#[derive(Clone, Copy, PartialEq, Eq, Debug, Structural)]
pub enum IndexedViewMode {
    RGBA,
    IndexMap,
}

impl Default for IndexedViewMode {
    fn default() -> (m: Self)
        ensures
            m == IndexedViewMode::RGBA,
    {
        IndexedViewMode::RGBA
    }
}

/// Where the characters of a baked font come from.
#[derive(Clone, Copy, PartialEq, Eq, Debug, Structural)]
pub enum BakeCharsetTab {
    Text,
    Range,
    File,
}

impl Default for BakeCharsetTab {
    fn default() -> (t: Self)
        ensures
            t == BakeCharsetTab::Text,
    {
        BakeCharsetTab::Text
    }
}

/// How a vector path is shown.
#[derive(Clone, Copy, PartialEq, Eq, Debug, Structural)]
pub enum PathMode {
    Preview,
}

impl Default for PathMode {
    fn default() -> (m: Self)
        ensures
            m == PathMode::Preview,
    {
        PathMode::Preview
    }
}

/// The order of the entries of the diff list.
#[derive(PartialEq, Eq, Copy, Clone, Debug, Structural)]
pub enum DiffSorting {
    Z,
    N,
    ReverseZ,
    ReverseN,
    DiffAsc,
    DiffDesc,
}

/// The colour layout of PNG output.
#[derive(PartialEq, Eq, Copy, Clone, Debug, Structural)]
pub enum PngColorMode {
    Rgba,
    Rgb,
    Preserve,
    Indexed1,
    Indexed2,
    Indexed4,
    Indexed8,
}

impl Default for PngColorMode {
    fn default() -> (m: Self)
        ensures
            m == PngColorMode::Rgba,
    {
        PngColorMode::Rgba
    }
}

/// The compression effort of PNG output.
#[derive(PartialEq, Eq, Copy, Clone, Debug, Structural)]
pub enum PngCompression {
    Fast,
    Balanced,
    Best,
}

impl Default for PngCompression {
    fn default() -> (c: Self)
        ensures
            c == PngCompression::Balanced,
    {
        PngCompression::Balanced
    }
}

/// The JPEG quality used when none is given.
pub fn default_jpeg_quality() -> (q: u8)
    ensures
        q == 85,
{
    85
}

/// The colour that transparent pixels are laid on in JPEG output: white.
pub fn default_jpeg_background() -> (c: [u8; 3])
    ensures
        c@ == seq![255u8, 255u8, 255u8],
{
    [255, 255, 255]
}

/// The frame interval of GIF output, in milliseconds, when none is given.
pub fn default_gif_interval_ms() -> (ms: u32)
    ensures
        ms == 100,
{
    100
}

/// The kind of MIRX export chosen when none is given.
pub fn default_mirx_export_kind() -> (kind: String)
    ensures
        kind@ == "scene"@,
{
    "scene".to_string()
}

/// Everything that decides how an image is converted.
#[derive(Clone, Copy, Debug)]
pub struct ConvertParams {
    pub output_format: ImageFormats,
    pub lvgl_version: LVGL_Version,
    pub color_format: OutputColorFormats,
    pub compression: OutputCompressedMethod,
    pub stride_align: u8,
    pub dither: bool,
    pub dither_level: u32,
    pub png_color_mode: PngColorMode,
    pub png_compression: PngCompression,
    pub jpeg_quality: u8,
    pub jpeg_background: [u8; 3],
    pub gif_interval_ms: u32,
    pub gif_repeat: Option<u16>,
}

impl Default for ConvertParams {
    /// LVGL v9 output in RGB565 without compression or dithering.
    fn default() -> (p: Self)
        ensures
            p.output_format == ImageFormats::LVGL,
            p.lvgl_version == LVGL_Version::V9,
            p.color_format == OutputColorFormats::RGB565,
            p.compression == OutputCompressedMethod::NoCompression,
            p.stride_align == 1,
            !p.dither,
            p.dither_level == 10,
            p.png_color_mode == PngColorMode::Rgba,
            p.png_compression == PngCompression::Balanced,
            p.jpeg_quality == 85,
            p.jpeg_background@ == seq![255u8, 255u8, 255u8],
            p.gif_interval_ms == 100,
            p.gif_repeat is None,
    {
        ConvertParams {
            output_format: ImageFormats::LVGL,
            lvgl_version: LVGL_Version::V9,
            color_format: OutputColorFormats::RGB565,
            compression: OutputCompressedMethod::NoCompression,
            stride_align: 1,
            dither: false,
            dither_level: 10,
            png_color_mode: PngColorMode::default(),
            png_compression: PngCompression::default(),
            jpeg_quality: default_jpeg_quality(),
            jpeg_background: default_jpeg_background(),
            gif_interval_ms: 100,
            gif_repeat: None,
        }
    }
}

} // verus!
