//! Decoded pixels: RGBA bytes turned into pixels and back, still images
//! built from decoded bytes, and animations (GIF, APNG, animated WebP)
//! decoded into frames.
use vstd::prelude::*;
use crate::image_item::{Color32, Frame, FrameSource, ImageInfo, ImageItem, MiDataKind};

verus! {

/// The pixels of RGBA bytes, four bytes each.
pub open spec fn pixels_of(rgba: Seq<u8>) -> Seq<Color32> {
    Seq::new(
        rgba.len() / 4,
        |i: int| Color32 { r: rgba[4 * i], g: rgba[4 * i + 1], b: rgba[4 * i + 2], a: rgba[4 * i + 3] },
    )
}

/// The RGBA bytes of pixels.
pub open spec fn bytes_of(pixels: Seq<Color32>) -> Seq<u8> {
    Seq::new(
        pixels.len() * 4,
        |i: int|
            {
                let p = pixels[i / 4];
                if i % 4 == 0 {
                    p.r
                } else if i % 4 == 1 {
                    p.g
                } else if i % 4 == 2 {
                    p.b
                } else {
                    p.a
                }
            },
    )
}

/// The pixels of RGBA bytes, four bytes each, with straight (not
/// premultiplied) alpha.
pub fn color32_from_rgba(rgba: &[u8]) -> (pixels: Vec<Color32>)
    requires
        rgba@.len() % 4 == 0,
    ensures
        pixels@ == pixels_of(rgba@),
{
    let mut pixels: Vec<Color32> = Vec::new();
    let mut i: usize = 0;
    while i < rgba.len()
        invariant
            rgba@.len() % 4 == 0,
            i % 4 == 0,
            i <= rgba@.len(),
            pixels@.len() == i / 4,
            forall|k: int| 0 <= k < i / 4 ==> #[trigger] pixels@[k] == pixels_of(rgba@)[k],
        decreases rgba@.len() - i,
    {
        pixels.push(Color32 { r: rgba[i], g: rgba[i + 1], b: rgba[i + 2], a: rgba[i + 3] });
        i += 4;
    }
    assert(pixels@ =~= pixels_of(rgba@));
    pixels
}

/// The RGBA bytes of pixels, with straight alpha.
pub fn straight_rgba_from_color32(pixels: &[Color32]) -> (rgba: Vec<u8>)
    ensures
        rgba@ == bytes_of(pixels@),
{
    let mut rgba: Vec<u8> = Vec::new();
    let mut i: usize = 0;
    while i < pixels.len()
        invariant
            i <= pixels@.len(),
            rgba@ =~= bytes_of(pixels@.take(i as int)),
        decreases pixels@.len() - i,
    {
        let p = pixels[i];
        rgba.push(p.r);
        rgba.push(p.g);
        rgba.push(p.b);
        rgba.push(p.a);
        i += 1;
        assert(rgba@ =~= bytes_of(pixels@.take(i as int)));
    }
    assert(pixels@.take(pixels@.len() as int) == pixels@);
    rgba
}

/// Turning whole RGBA pixels into bytes and back gives them again.
pub proof fn lemma_pixels_round_trip(pixels: Seq<Color32>)
    ensures
        pixels_of(bytes_of(pixels)) == pixels,
{
    let b = bytes_of(pixels);
    assert forall|i: int| 0 <= i < pixels.len() implies #[trigger] pixels_of(b)[i] == pixels[i] by {
        assert((4 * i) / 4 == i);
        assert((4 * i + 1) / 4 == i && (4 * i + 1) % 4 == 1);
        assert((4 * i + 2) / 4 == i && (4 * i + 2) % 4 == 2);
        assert((4 * i + 3) / 4 == i && (4 * i + 3) % 4 == 3);
    }
    assert(pixels_of(b) =~= pixels);
}

/// Turning RGBA bytes that split into whole pixels into pixels and back
/// gives the bytes again.
pub proof fn lemma_bytes_round_trip(rgba: Seq<u8>)
    requires
        rgba.len() % 4 == 0,
    ensures
        bytes_of(pixels_of(rgba)) == rgba,
{
    let p = pixels_of(rgba);
    assert forall|i: int| 0 <= i < rgba.len() implies #[trigger] bytes_of(p)[i] == rgba[i] by {
        let q = i / 4;
        let c = i % 4;
        assert(i == 4 * q + c);
        assert(0 <= q < p.len());
    }
    assert(bytes_of(p) =~= rgba);
}

/// A still image of a decoded picture: `width` x `height` RGBA bytes.
pub fn single_image_item(
    path: String,
    info: ImageInfo,
    width: u32,
    height: u32,
    rgba: &[u8],
    midata: Option<MiDataKind>,
) -> (item: ImageItem)
    requires
        rgba@.len() % 4 == 0,
    ensures
        item.path == path,
        item.info == info,
        item.width == width,
        item.height == height,
        item.frames matches FrameSource::Single { pixels, width: w, height: h } && pixels@ == pixels_of(rgba@)
            && w == width && h == height,
        item.midata == midata,
        !item.expanded,
{
    let pixels = color32_from_rgba(rgba);
    ImageItem { path, info, width, height, frames: FrameSource::single(pixels, width, height), midata, expanded: false }
}

/// A frame as a decoder gives it: the RGBA bytes of a `width` x `height`
/// patch placed at (`left`, `top`), shown for `delay_numer` / `delay_denom`
/// milliseconds.
pub struct DecodedFrame {
    pub rgba: Vec<u8>,
    pub width: u32,
    pub height: u32,
    pub left: u32,
    pub top: u32,
    pub delay_numer: u32,
    pub delay_denom: u32,
}

impl View for DecodedFrame {
    type V = (Seq<u8>, u32, u32, u32, u32, u32, u32);

    open spec fn view(&self) -> (Seq<u8>, u32, u32, u32, u32, u32, u32) {
        (self.rgba@, self.width, self.height, self.left, self.top, self.delay_numer, self.delay_denom)
    }
}

/// The plain values of decoded frames.
pub open spec fn frame_views(frames: Seq<DecodedFrame>) -> Seq<(Seq<u8>, u32, u32, u32, u32, u32, u32)> {
    frames.map_values(|f: DecodedFrame| f@)
}

/// The frames the `image` crate's GIF decoder gives for the data, if it
/// decodes them.
pub uninterp spec fn gif_animation(data: Seq<u8>) -> Option<Seq<(Seq<u8>, u32, u32, u32, u32, u32, u32)>>;

/// Whether the `image` crate's PNG decoder finds an animation control
/// chunk in the data, if it reads the header.
pub uninterp spec fn png_is_animated(data: Seq<u8>) -> Option<bool>;

/// The frames the `image` crate's APNG decoder gives for the data, if it
/// decodes them.
pub uninterp spec fn apng_animation(data: Seq<u8>) -> Option<Seq<(Seq<u8>, u32, u32, u32, u32, u32, u32)>>;

/// Whether the `image` crate's WebP decoder finds an animation in the data,
/// if it reads the header.
pub uninterp spec fn webp_is_animated(data: Seq<u8>) -> Option<bool>;

/// The frames the `image` crate's WebP decoder gives for the data, if it
/// decodes them.
pub uninterp spec fn webp_animation(data: Seq<u8>) -> Option<Seq<(Seq<u8>, u32, u32, u32, u32, u32, u32)>>;

/// The MIME type of the format the `image` crate guesses from the data's
/// leading bytes, if it recognises one.
pub uninterp spec fn guessed_mime_type(data: Seq<u8>) -> Option<Seq<char>>;

/// Decodes every frame of a GIF.
///
/// Trusted: `GifDecoder::new`, `into_frames` and `collect_frames` of the
/// `image` crate; the frames (or None on a decoding error) are named by
/// `gif_animation`.
#[verifier::external_body]
fn decode_gif_frames(data: &[u8]) -> (r: Option<Vec<DecodedFrame>>)
    ensures
        r matches Some(v) ==> gif_animation(data@) == Some(frame_views(v@)),
        r is None ==> gif_animation(data@) is None,
{
    let decoder = image::codecs::gif::GifDecoder::new(std::io::Cursor::new(data.to_vec())).ok()?;
    let frames = image::AnimationDecoder::into_frames(decoder).collect_frames().ok()?;
    let mut out = Vec::new();
    for f in frames {
        let (delay_numer, delay_denom) = f.delay().numer_denom_ms();
        let (left, top, buffer) = (f.left(), f.top(), f.into_buffer());
        let (width, height) = buffer.dimensions();
        out.push(DecodedFrame { rgba: buffer.into_raw(), width, height, left, top, delay_numer, delay_denom });
    }
    Some(out)
}

/// Whether a PNG is animated.
///
/// Trusted: `PngDecoder::new` and `is_apng` of the `image` crate; the answer
/// (or None on an error) is named by `png_is_animated`.
#[verifier::external_body]
fn png_animated(data: &[u8]) -> (r: Option<bool>)
    ensures
        r == png_is_animated(data@),
{
    let decoder = image::codecs::png::PngDecoder::new(std::io::Cursor::new(data.to_vec())).ok()?;
    decoder.is_apng().ok()
}

/// Decodes every frame of an APNG.
///
/// Trusted: `PngDecoder::new`, `apng`, `into_frames` and `collect_frames` of
/// the `image` crate; the frames (or None on an error) are named by
/// `apng_animation`.
#[verifier::external_body]
fn decode_apng_frames(data: &[u8]) -> (r: Option<Vec<DecodedFrame>>)
    ensures
        r matches Some(v) ==> apng_animation(data@) == Some(frame_views(v@)),
        r is None ==> apng_animation(data@) is None,
{
    let decoder = image::codecs::png::PngDecoder::new(std::io::Cursor::new(data.to_vec())).ok()?;
    let frames = image::AnimationDecoder::into_frames(decoder.apng().ok()?).collect_frames().ok()?;
    let mut out = Vec::new();
    for f in frames {
        let (delay_numer, delay_denom) = f.delay().numer_denom_ms();
        let (left, top, buffer) = (f.left(), f.top(), f.into_buffer());
        let (width, height) = buffer.dimensions();
        out.push(DecodedFrame { rgba: buffer.into_raw(), width, height, left, top, delay_numer, delay_denom });
    }
    Some(out)
}

/// Whether a WebP file is animated.
///
/// Trusted: `WebPDecoder::new` and `has_animation` of the `image` crate; the
/// answer (or None on an error) is named by `webp_is_animated`.
#[verifier::external_body]
fn webp_animated(data: &[u8]) -> (r: Option<bool>)
    ensures
        r == webp_is_animated(data@),
{
    let decoder = image::codecs::webp::WebPDecoder::new(std::io::Cursor::new(data)).ok()?;
    Some(decoder.has_animation())
}

/// Decodes every frame of an animated WebP.
///
/// Trusted: `WebPDecoder::new`, `into_frames` and `collect_frames` of the
/// `image` crate; the frames (or None on an error) are named by
/// `webp_animation`.
#[verifier::external_body]
fn decode_webp_frames(data: &[u8]) -> (r: Option<Vec<DecodedFrame>>)
    ensures
        r matches Some(v) ==> webp_animation(data@) == Some(frame_views(v@)),
        r is None ==> webp_animation(data@) is None,
{
    let decoder = image::codecs::webp::WebPDecoder::new(std::io::Cursor::new(data)).ok()?;
    let frames = image::AnimationDecoder::into_frames(decoder).collect_frames().ok()?;
    let mut out = Vec::new();
    for f in frames {
        let (delay_numer, delay_denom) = f.delay().numer_denom_ms();
        let (left, top, buffer) = (f.left(), f.top(), f.into_buffer());
        let (width, height) = buffer.dimensions();
        out.push(DecodedFrame { rgba: buffer.into_raw(), width, height, left, top, delay_numer, delay_denom });
    }
    Some(out)
}

/// The MIME type of the format the data looks like.
///
/// Trusted: `image::guess_format` and `ImageFormat::to_mime_type`; the type
/// (or None where no format is recognised) is named by `guessed_mime_type`.
#[verifier::external_body]
fn guess_mime_type(data: &[u8]) -> (r: Option<String>)
    ensures
        r matches Some(m) ==> guessed_mime_type(data@) == Some(m@),
        r is None ==> guessed_mime_type(data@) is None,
{
    image::guess_format(data).ok().map(|format| format.to_mime_type().to_string())
}

/// Data that starts with the bytes of `prefix`.
pub open spec fn starts_with(data: Seq<u8>, prefix: Seq<u8>) -> bool {
    data.len() >= prefix.len() && data.take(prefix.len() as int) == prefix
}

/// The GIF signatures `GIF87a` and `GIF89a`.
pub open spec fn is_gif_data(data: Seq<u8>) -> bool {
    starts_with(data, seq![0x47u8, 0x49, 0x46, 0x38, 0x37, 0x61]) || starts_with(
        data,
        seq![0x47u8, 0x49, 0x46, 0x38, 0x39, 0x61],
    )
}

/// The PNG signature.
pub open spec fn is_png_data(data: Seq<u8>) -> bool {
    starts_with(data, seq![137u8, 80, 78, 71, 13, 10, 26, 10])
}

/// A RIFF container of WebP form.
pub open spec fn is_webp_data(data: Seq<u8>) -> bool {
    data.len() >= 12 && data.take(4) == seq![0x52u8, 0x49u8, 0x46u8, 0x46u8] && data.subrange(8, 12) == seq![
        0x57u8,
        0x45u8,
        0x42u8,
        0x50u8,
    ]
}

/// The frames of the animation the data holds, by its signature: a GIF, an
/// animated PNG or an animated WebP; None for anything else or when
/// decoding fails.
pub open spec fn animation_of(data: Seq<u8>) -> Option<Seq<(Seq<u8>, u32, u32, u32, u32, u32, u32)>> {
    if is_gif_data(data) {
        gif_animation(data)
    } else if is_png_data(data) {
        if png_is_animated(data) == Some(true) {
            apng_animation(data)
        } else {
            None
        }
    } else if is_webp_data(data) {
        if webp_is_animated(data) == Some(true) {
            webp_animation(data)
        } else {
            None
        }
    } else {
        None
    }
}

/// A delay of `numer` / `denom` milliseconds in nanoseconds (zero for a
/// zero denominator).
pub open spec fn delay_nanos(numer: u32, denom: u32) -> int {
    if denom == 0 {
        0
    } else {
        (numer as int * 1_000_000) / (denom as int)
    }
}

/// A frame of the viewer made from a decoded frame.
pub open spec fn frame_matches(frame: Frame, decoded: (Seq<u8>, u32, u32, u32, u32, u32, u32)) -> bool {
    &&& frame.pixels@ == pixels_of(decoded.0)
    &&& frame.width == decoded.1
    &&& frame.height == decoded.2
    &&& frame.left == decoded.3
    &&& frame.top == decoded.4
    &&& frame.delay == delay_nanos(decoded.5, decoded.6)
}

/// Decoded frames whose bytes all split into whole pixels.
pub open spec fn whole_pixels(frames: Seq<(Seq<u8>, u32, u32, u32, u32, u32, u32)>) -> bool {
    forall|k: int| 0 <= k < frames.len() ==> (#[trigger] frames[k]).0.len() % 4 == 0
}

/// The animated image of `frames` decoded from data of `data_len` bytes in
/// the format `format`: its size is that of the first frame and it starts
/// playing at the first frame.
pub open spec fn is_animation_item(
    item: ImageItem,
    path: Seq<char>,
    data_len: int,
    format: Seq<char>,
    frames: Seq<(Seq<u8>, u32, u32, u32, u32, u32, u32)>,
) -> bool {
    &&& item.path@ == path
    &&& item.width == frames[0].1
    &&& item.height == frames[0].2
    &&& item.info.width == frames[0].1
    &&& item.info.height == frames[0].2
    &&& item.info.data_size == data_len
    &&& item.info.format@ == format
    &&& item.midata is None
    &&& !item.expanded
    &&& item.frames matches FrameSource::Animated { frames: fs, current, autoplay, last_advance }
        && current == 0 && autoplay && last_advance is None && fs@.len() == frames.len() && forall|k: int|
        0 <= k < frames.len() ==> frame_matches(#[trigger] fs@[k], frames[k])
}

/// A delay in nanoseconds from a ratio of milliseconds.
fn delay_from_ratio(numer: u32, denom: u32) -> (d: u128)
    ensures
        d == delay_nanos(numer, denom),
{
    if denom == 0 {
        0
    } else {
        (numer as u128 * 1_000_000) / (denom as u128)
    }
}

/// The animated image made of decoded frames: None for fewer than two
/// frames, else the frames with their delays in nanoseconds, sized as the
/// first frame, playing from the first frame. `data_size` is the size of
/// the data, `format` the MIME type of its format (`image` when unknown).
pub fn animation_item(path: &str, data_size: u32, format: Option<String>, decoded: Vec<DecodedFrame>) -> (r: Option<
    ImageItem,
>)
    requires
        whole_pixels(frame_views(decoded@)),
    ensures
        decoded@.len() <= 1 ==> r is None,
        decoded@.len() > 1 ==> (r matches Some(item) && is_animation_item(
            item,
            path@,
            data_size as int,
            match format {
                Some(m) => m@,
                None => "image"@,
            },
            frame_views(decoded@),
        )),
{
    if decoded.len() <= 1 {
        return None;
    }
    let ghost views = frame_views(decoded@);
    let mut frames: Vec<Frame> = Vec::new();
    let mut k: usize = 0;
    while k < decoded.len()
        invariant
            k <= decoded@.len(),
            views == frame_views(decoded@),
            whole_pixels(views),
            frames@.len() == k,
            forall|t: int| 0 <= t < k ==> frame_matches(#[trigger] frames@[t], views[t]),
        decreases decoded@.len() - k,
    {
        let d = &decoded[k];
        assert(views[k as int] == d@);
        let pixels = color32_from_rgba(d.rgba.as_slice());
        let delay = delay_from_ratio(d.delay_numer, d.delay_denom);
        frames.push(Frame { pixels, width: d.width, height: d.height, left: d.left, top: d.top, delay });
        k += 1;
    }
    let width = decoded[0].width;
    let height = decoded[0].height;
    let format = match format {
        Some(m) => m,
        None => "image".to_string(),
    };
    Some(
        ImageItem {
            path: path.to_string(),
            info: ImageInfo { width, height, data_size: data_size as u64, format },
            width,
            height,
            frames: FrameSource::animated(frames),
            midata: None,
            expanded: false,
        },
    )
}

/// Whether every decoded frame's bytes split into whole pixels.
fn all_whole_pixels(decoded: &Vec<DecodedFrame>) -> (b: bool)
    ensures
        b == whole_pixels(frame_views(decoded@)),
{
    let mut k: usize = 0;
    while k < decoded.len()
        invariant
            k <= decoded@.len(),
            forall|t: int| 0 <= t < k ==> (#[trigger] decoded@[t]).rgba@.len() % 4 == 0,
        decreases decoded@.len() - k,
    {
        if decoded[k].rgba.len() % 4 != 0 {
            assert(frame_views(decoded@)[k as int].0.len() % 4 != 0);
            return false;
        }
        k += 1;
    }
    assert forall|t: int| 0 <= t < frame_views(decoded@).len() implies (#[trigger] frame_views(decoded@)[t]).0.len()
        % 4 == 0 by {
        assert(frame_views(decoded@)[t] == decoded@[t]@);
    }
    true
}

/// Decodes the animation a GIF, animated PNG or animated WebP holds into an
/// animated image: None for other data, data the decoder refuses, fewer
/// than two frames, or a frame whose bytes do not split into whole pixels.
/// The size recorded is that of the data, cut to 32 bits.
pub fn decode_animation(path: &str, data: &[u8]) -> (r: Option<ImageItem>)
    ensures
        match animation_of(data@) {
            None => r is None,
            Some(frames) => if frames.len() <= 1 || !whole_pixels(frames) {
                r is None
            } else {
                r matches Some(item) && is_animation_item(
                    item,
                    path@,
                    data@.len() as u32 as int,
                    match guessed_mime_type(data@) {
                        Some(m) => m,
                        None => "image"@,
                    },
                    frames,
                )
            },
        },
{
    let gif = data.len() >= 6 && data[0] == 0x47 && data[1] == 0x49 && data[2] == 0x46 && data[3] == 0x38 && (
    data[4] == 0x37 || data[4] == 0x39) && data[5] == 0x61;
    let png = data.len() >= 8 && data[0] == 137 && data[1] == 80 && data[2] == 78 && data[3] == 71 && data[4] == 13
        && data[5] == 10 && data[6] == 26 && data[7] == 10;
    let webp = crate::export::is_webp(data);
    assert(gif == is_gif_data(data@)) by {
        if data@.len() >= 6 {
            assert(data@.take(6)[4] == data@[4]);
            if gif && data@[4] == 0x37 {
                assert(data@.take(6) =~= seq![0x47u8, 0x49, 0x46, 0x38, 0x37, 0x61]);
            }
            if gif && data@[4] == 0x39 {
                assert(data@.take(6) =~= seq![0x47u8, 0x49, 0x46, 0x38, 0x39, 0x61]);
            }
            let a = seq![0x47u8, 0x49, 0x46, 0x38, 0x37, 0x61];
            let b = seq![0x47u8, 0x49, 0x46, 0x38, 0x39, 0x61];
            if data@.take(6) == a {
                assert(data@[0] == a[0] && data@[1] == a[1] && data@[2] == a[2] && data@[3] == a[3] && data@[4] == a[4]
                    && data@[5] == a[5]);
            }
            if data@.take(6) == b {
                assert(data@[0] == b[0] && data@[1] == b[1] && data@[2] == b[2] && data@[3] == b[3] && data@[4] == b[4]
                    && data@[5] == b[5]);
            }
        }
    }
    assert(png == is_png_data(data@)) by {
        let p = seq![137u8, 80, 78, 71, 13, 10, 26, 10];
        if data@.len() >= 8 {
            if png {
                assert(data@.take(8) =~= p);
            }
            if data@.take(8) == p {
                assert(data@[0] == p[0] && data@[1] == p[1] && data@[2] == p[2] && data@[3] == p[3] && data@[4] == p[4]
                    && data@[5] == p[5] && data@[6] == p[6] && data@[7] == p[7]);
            }
        }
    }
    let decoded = if gif {
        decode_gif_frames(data)
    } else if png {
        match png_animated(data) {
            Some(true) => decode_apng_frames(data),
            _ => None,
        }
    } else if webp {
        match webp_animated(data) {
            Some(true) => decode_webp_frames(data),
            _ => None,
        }
    } else {
        None
    };
    let decoded = match decoded {
        Some(d) => d,
        None => {
            return None;
        },
    };
    if !all_whole_pixels(&decoded) {
        return None;
    }
    if decoded.len() <= 1 {
        return None;
    }
    #[verifier::truncate]
    let size = data.len() as u32;
    let format = guess_mime_type(data);
    animation_item(path, size, format, decoded)
}

} // verus!
