//! Verified core of the ICU image and font toolkit: format tables, command-line
//! value parsing, character sets, image-sequence detection, the workspace
//! selection model, the glyph outline editor, export planning, and the files
//! the viewer reads and writes (animated GIF, APNG and WebP, stored ZIP).
pub mod formats;
pub mod text;
pub mod fmt;
pub mod bytes;
pub mod seqs;
pub mod charset;
pub mod cli_values;
pub mod convert_options;
pub mod paths;
pub mod sequence;
pub mod image_item;
pub mod decode;
pub mod inputs;
pub mod webp;
pub mod zip;
pub mod glyph;
pub mod params;
pub mod idset;
pub mod seq_facts;
pub mod workspace;
pub mod groups;
pub mod grouping;
pub mod runs;
pub mod autogroup;
pub mod entries;
pub mod export;
pub mod panels;
