use icu_tool::decode::{color32_from_rgba, decode_animation, single_image_item, straight_rgba_from_color32};
use icu_tool::image_item::{Color32, FrameSource, ImageInfo};
use image::codecs::gif::{GifEncoder, Repeat};
use image::{Delay, Frame, RgbaImage};

fn gif_bytes(frames: usize) -> Vec<u8> {
    let mut out = Vec::new();
    {
        let mut encoder = GifEncoder::new(&mut out);
        encoder.set_repeat(Repeat::Infinite).unwrap();
        for k in 0..frames {
            let shade = (k * 100) as u8;
            let image = RgbaImage::from_raw(2, 1, vec![shade, 0, 0, 255, 0, shade, 0, 255]).unwrap();
            encoder.encode_frame(Frame::from_parts(image, 0, 0, Delay::from_numer_denom_ms(80, 1))).unwrap();
        }
    }
    out
}

#[test]
fn rgba_bytes_and_pixels_round_trip() {
    let bytes = vec![1, 2, 3, 4, 250, 251, 252, 0];
    let pixels = color32_from_rgba(&bytes);
    assert_eq!(pixels, vec![Color32 { r: 1, g: 2, b: 3, a: 4 }, Color32 { r: 250, g: 251, b: 252, a: 0 }]);
    assert_eq!(straight_rgba_from_color32(&pixels), bytes);
}

#[test]
fn still_image_keeps_its_bytes_as_pixels() {
    let info = ImageInfo { width: 1, height: 1, data_size: 10, format: "image/png".to_string() };
    let item = single_image_item("a.png".to_string(), info, 1, 1, &[9, 8, 7, 6], None);
    assert_eq!(item.path, "a.png");
    assert_eq!(item.frames, FrameSource::single(vec![Color32 { r: 9, g: 8, b: 7, a: 6 }], 1, 1));
    assert!(!item.expanded);
}

#[test]
fn gif_with_two_frames_decodes_into_an_animation() {
    let data = gif_bytes(2);
    let item = decode_animation("walk.gif", &data).unwrap();
    assert_eq!(item.path, "walk.gif");
    assert_eq!((item.width, item.height), (2, 1));
    assert_eq!(item.info.format, "image/gif");
    assert_eq!(item.info.data_size, data.len() as u64);
    match &item.frames {
        FrameSource::Animated { frames, current, autoplay, last_advance } => {
            assert_eq!(frames.len(), 2);
            assert_eq!(frames[0].delay, 80_000_000);
            assert_eq!(frames[1].pixels.len(), 2);
            assert_eq!(frames[1].pixels[0].a, 255);
            assert_eq!(*current, 0);
            assert!(*autoplay);
            assert!(last_advance.is_none());
        }
        FrameSource::Single { .. } => panic!("expected an animation"),
    }
}

#[test]
fn single_frames_and_other_data_are_not_animations() {
    assert!(decode_animation("still.gif", &gif_bytes(1)).is_none());
    assert!(decode_animation("noise.bin", &[1, 2, 3]).is_none());
    assert!(decode_animation("broken.gif", b"GIF89a").is_none());
}
