//! Image format and colour format enumerations shared by the command line and the viewer.
use vstd::prelude::*;

verus! {

/// How input files are decoded.
#[allow(non_camel_case_types)]
#[derive(Debug, Clone, Copy, PartialEq, Eq, Structural)]
pub enum ImageFormatCategory {
    /// Auto-detect the input image format.
    Auto,
    /// Common image formats like PNG, JPEG, BMP.
    Common,
    /// LVGL v9 image data.
    LVGL_V9,
}

/// Kind of output file.
#[allow(non_camel_case_types)]
#[derive(Debug, Clone, Copy, PartialEq, Eq, Structural)]
pub enum OutputFileFormatCategory {
    Common,
    Bin,
    C_Array,
}

/// LVGL binary image version.
#[allow(non_camel_case_types)]
#[derive(Debug, Clone, Copy, PartialEq, Eq, Structural)]
pub enum LVGL_Version {
    V9,
    V8,
}

/// Output image container formats.
#[allow(non_camel_case_types)]
#[derive(Debug, Clone, Copy, PartialEq, Eq, Structural)]
pub enum ImageFormats {
    PNG,
    JPEG,
    BMP,
    GIF,
    TIFF,
    WEBP,
    ICO,
    PBM,
    PGM,
    PPM,
    PAM,
    LVGL,
}

/// Pixel layouts of LVGL output.
#[allow(non_camel_case_types)]
#[derive(Debug, Clone, Copy, PartialEq, Eq, Structural)]
pub enum OutputColorFormats {
    RGB565,
    RGB565A8,
    RGB888,
    ARGB8888,
    XRGB8888,
    A1,
    A2,
    A4,
    A8,
    L8,
    I1,
    I2,
    I4,
    I8,
}

/// Compression of LVGL output.
#[allow(non_camel_case_types)]
#[derive(Debug, Clone, Copy, PartialEq, Eq, Structural)]
pub enum OutputCompressedMethod {
    NoCompression,
    Rle,
    LZ4,
}

/// The file extension written for each output format.
pub open spec fn file_extension_of(format: ImageFormats) -> Seq<char> {
    match format {
        ImageFormats::PNG => "png"@,
        ImageFormats::JPEG => "jpeg"@,
        ImageFormats::BMP => "bmp"@,
        ImageFormats::GIF => "gif"@,
        ImageFormats::TIFF => "tiff"@,
        ImageFormats::WEBP => "webp"@,
        ImageFormats::ICO => "ico"@,
        ImageFormats::PBM => "pbm"@,
        ImageFormats::PGM => "pgm"@,
        ImageFormats::PPM => "ppm"@,
        ImageFormats::PAM => "pam"@,
        ImageFormats::LVGL => "bin"@,
    }
}

impl ImageFormats {
    /// The extension (without the dot) of files written in this format.
    pub fn get_file_extension(&self) -> (ext: &'static str)
        ensures
            ext@ == file_extension_of(*self),
    {
        match self {
            ImageFormats::PNG => "png",
            ImageFormats::JPEG => "jpeg",
            ImageFormats::BMP => "bmp",
            ImageFormats::GIF => "gif",
            ImageFormats::TIFF => "tiff",
            ImageFormats::WEBP => "webp",
            ImageFormats::ICO => "ico",
            ImageFormats::PBM => "pbm",
            ImageFormats::PGM => "pgm",
            ImageFormats::PPM => "ppm",
            ImageFormats::PAM => "pam",
            ImageFormats::LVGL => "bin",
        }
    }
}

} // verus!
