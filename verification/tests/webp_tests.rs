use icu_tool::image_item::{Color32, Frame};
use icu_tool::webp::{
    MAX_U24, duration_ms, encode, encode_image_chunk, extract_image_chunk, normalize_frame, read_u32,
    validate_dimension, write_chunk, write_u24,
};
use image::AnimationDecoder;
use image::ExtendedColorType;
use image::ImageEncoder;
use image::codecs::webp::{WebPDecoder, WebPEncoder};
use std::io::Cursor;

const RED: Color32 = Color32 { r: 255, g: 0, b: 0, a: 255 };
const GREEN: Color32 = Color32 { r: 0, g: 255, b: 0, a: 255 };
const BLUE: Color32 = Color32 { r: 0, g: 0, b: 255, a: 255 };
const TRANSPARENT: Color32 = Color32 { r: 0, g: 0, b: 0, a: 0 };
const MS: u128 = 1_000_000;

fn frames() -> Vec<Frame> {
    vec![
        Frame { pixels: vec![RED, TRANSPARENT], width: 2, height: 1, left: 0, top: 0, delay: 80 * MS },
        Frame { pixels: vec![BLUE, GREEN], width: 2, height: 1, left: 0, top: 0, delay: 120 * MS },
    ]
}

#[test]
fn round_trip_preserves_lossless_frames_and_delays() {
    let data = encode(&frames(), 100 * MS, 0).unwrap();
    let decoder = WebPDecoder::new(Cursor::new(data)).unwrap();
    assert!(decoder.has_animation());
    let decoded = decoder.into_frames().collect_frames().unwrap();
    assert_eq!(decoded.len(), 2);
    assert_eq!(decoded[0].buffer().as_raw(), &[255, 0, 0, 255, 0, 0, 0, 0]);
    assert_eq!(decoded[1].buffer().as_raw(), &[0, 0, 255, 255, 0, 255, 0, 255]);
    assert_eq!(decoded[0].delay().numer_denom_ms(), (80, 1));
    assert_eq!(decoded[1].delay().numer_denom_ms(), (120, 1));
}

#[test]
fn partial_frames_are_composited_into_the_canvas() {
    let mut partial = frames();
    partial[1] = Frame { pixels: vec![GREEN], width: 1, height: 1, left: 1, top: 0, delay: 120 * MS };

    let data = encode(&partial, 100 * MS, 0).unwrap();
    let decoder = WebPDecoder::new(Cursor::new(data)).unwrap();
    let decoded = decoder.into_frames().collect_frames().unwrap();
    assert_eq!(decoded[1].buffer().as_raw(), &[0, 0, 0, 0, 0, 255, 0, 255]);
}

#[test]
fn writes_requested_loop_count_and_valid_riff_size() {
    let data = encode(&frames(), 100 * MS, 7).unwrap();
    assert_eq!(read_u32(&data, 4).unwrap() as usize + 8, data.len());
    let anim = data.windows(4).position(|bytes| bytes == b"ANIM").unwrap();
    assert_eq!(&data[anim + 12..anim + 14], &7u16.to_le_bytes());
}

#[test]
fn rejects_invalid_frames_and_durations() {
    let mut invalid = frames();
    invalid[1].width = 3;
    assert!(encode(&invalid, 100 * MS, 0).is_err());

    let mut delayed = frames();
    delayed[0].delay = (u128::from(MAX_U24) + 1) * MS;
    assert!(encode(&delayed, 100 * MS, 0).is_err());
}

#[test]
fn rejects_malformed_static_webp_containers() {
    assert!(extract_image_chunk(b"RIFF\0\0\0\0WEBP").is_err());
    assert!(extract_image_chunk(b"not a webp").is_err());

    let pixels = [255, 0, 0, 255];
    let mut encoded = Vec::new();
    WebPEncoder::new_lossless(&mut encoded).write_image(&pixels, 1, 1, ExtendedColorType::Rgba8).unwrap();
    let chunk = encoded.windows(4).position(|bytes| bytes == b"VP8L").unwrap();
    for incompatible in [b"VP8 ", b"ALPH"] {
        let mut malformed = encoded.clone();
        malformed[chunk..chunk + 4].copy_from_slice(incompatible);
        assert!(extract_image_chunk(&malformed).is_err());
    }
}

#[test]
fn empty_animation_is_rejected() {
    assert_eq!(encode(&[], 100 * MS, 0), Err("Cannot encode an empty WebP animation".to_string()));
}

#[test]
fn image_chunk_of_a_static_webp_is_its_lossless_bitstream() {
    let pixels = [1, 2, 3, 255, 4, 5, 6, 255];
    let chunk = encode_image_chunk(&pixels, 2, 1).unwrap();
    assert_eq!(&chunk[0..4], b"VP8L");
    let size = u32::from_le_bytes([chunk[4], chunk[5], chunk[6], chunk[7]]) as usize;
    assert!(chunk.len() >= 8 + size);
    assert!(encode_image_chunk(&pixels, 3, 1).is_err());
}

#[test]
fn frame_timing_rounds_to_milliseconds_within_range() {
    assert_eq!(duration_ms(80 * MS), Ok(80));
    assert_eq!(duration_ms(1_499_999), Ok(1));
    assert_eq!(duration_ms(1_500_000), Ok(2));
    assert!(duration_ms((u128::from(MAX_U24) + 1) * MS).is_err());
}

#[test]
fn little_endian_fields_and_chunks() {
    let mut out = Vec::new();
    write_u24(&mut out, 0x01_02_03).unwrap();
    assert_eq!(out, vec![3, 2, 1]);
    assert!(write_u24(&mut out, MAX_U24 + 1).is_err());
    let mut chunk = Vec::new();
    write_chunk(&mut chunk, b"ABCD", &[9, 8, 7]).unwrap();
    assert_eq!(chunk, vec![b'A', b'B', b'C', b'D', 3, 0, 0, 0, 9, 8, 7, 0]);
    assert_eq!(read_u32(&[1, 0, 0, 0], 0), Ok(1));
    assert!(read_u32(&[1, 0, 0], 0).is_err());
    assert!(validate_dimension(0, "canvas width").is_err());
    assert!(validate_dimension(1, "canvas width").is_ok());
}

#[test]
fn frames_are_placed_on_a_transparent_canvas() {
    let frame = Frame { pixels: vec![GREEN], width: 1, height: 1, left: 1, top: 0, delay: MS };
    assert_eq!(normalize_frame(&frame, 2, 1).unwrap(), vec![0, 0, 0, 0, 0, 255, 0, 255]);
    let outside = Frame { pixels: vec![GREEN], width: 1, height: 1, left: 2, top: 0, delay: MS };
    assert!(normalize_frame(&outside, 2, 1).is_err());
}
