//! Export planning: which images an export writes and under which names, the
//! names of animation frames, the checks on relative output directories,
//! fresh output names in a batch or an archive, and the encoding of exported
//! animations as GIF, APNG or WebP.
use crate::fmt::{decimal, decimal_chars, padded_decimal, push_chars, push_padded_decimal};
use crate::image_item::{Color32, Frame, FrameSource, ImageItem, frame_count_of};
use crate::webp::encode_spec;
use crate::params::ConvertParams;
use crate::formats::ImageFormats;
use crate::paths::{
    extension_of, extension_of_name, extension_spec, file_name_of, file_name_spec, file_stem_spec,
    is_absolute, is_absolute_spec, join, join_spec, parent_or_empty, std_parent, stem_of,
    stem_of_name,
};
use crate::text::{str_to_chars, string_from_chars};
use crate::workspace::{SelectionTarget, SidebarItem, ViewerState, WorkspaceId};
use vstd::prelude::*;

verus! {

/// Whether an export writes one file or every selected source.
#[derive(Clone, Copy, Debug, PartialEq, Eq, Structural)]
pub enum ExportMode {
    SingleFile,
    AllFiles,
}

/// What a single-file export writes: an entry, or one frame of a group or
/// an animation.
#[derive(Clone, Copy, Debug, PartialEq, Eq, Structural)]
pub enum ExportTarget {
    Entry(WorkspaceId),
    Frame { collection: WorkspaceId, index: usize },
}

/// How often an exported animation repeats.
#[derive(Clone, Copy, Debug, PartialEq, Eq, Structural)]
pub enum GifRepeat {
    Infinite,
    Finite(u16),
}

/// Frame timing of exported animations: the interval between frames in
/// nanoseconds, and the repetition.
#[derive(Clone, Copy, Debug, PartialEq, Eq, Structural)]
pub struct GifExportOptions {
    pub interval: u128,
    pub repeat: GifRepeat,
}

impl Default for GifExportOptions {
    /// A 100 millisecond interval, repeating forever.
    fn default() -> (o: Self)
        ensures
            o.interval == 100_000_000,
            o.repeat == GifRepeat::Infinite,
    {
        GifExportOptions { interval: 100_000_000, repeat: GifRepeat::Infinite }
    }
}

/// The frames an image contributes to an exported animation: a still
/// picture is one frame at the origin without a delay of its own.
pub open spec fn item_frames(item: ImageItem) -> Seq<Frame> {
    match item.frames {
        FrameSource::Single { pixels, width, height } => seq![
            Frame { pixels, width, height, left: 0, top: 0, delay: 0 },
        ],
        FrameSource::Animated { frames, .. } => frames@,
    }
}

/// The frames of images exported as one animation, image after image.
pub open spec fn animation_frames_spec(items: Seq<ImageItem>) -> Seq<Frame>
    decreases items.len(),
{
    if items.len() == 0 {
        Seq::empty()
    } else {
        animation_frames_spec(items.drop_last()) + item_frames(items.last())
    }
}

/// How many times an animation plays in the container's loop field (zero:
/// without end).
pub open spec fn loop_count_of(repeat: GifRepeat) -> u16 {
    match repeat {
        GifRepeat::Infinite => 0,
        GifRepeat::Finite(count) => count,
    }
}

/// The frames of images exported as one animation, image after image.
pub fn animation_frames(items: Vec<ImageItem>) -> (frames: Vec<Frame>)
    ensures
        frames@ == animation_frames_spec(items@),
{
    let ghost all = items@;
    let mut rest = items;
    let mut frames: Vec<Frame> = Vec::new();
    let ghost mut done: Seq<ImageItem> = Seq::empty();
    while rest.len() > 0
        invariant
            all == done + rest@,
            frames@ == animation_frames_spec(done),
        decreases rest@.len(),
    {
        let item = rest.remove(0);
        proof {
            let old_done = done;
            done = done.push(item);
            assert(done.drop_last() == old_done);
        }
        match item.frames {
            FrameSource::Single { pixels, width, height } => {
                frames.push(Frame { pixels, width, height, left: 0, top: 0, delay: 0 });
            },
            FrameSource::Animated { frames: mut more, .. } => {
                frames.append(&mut more);
            },
        }
    }
    assert(all == done);
    frames
}

/// Encodes images as one animated WebP: their frames image after image,
/// frames without a delay shown for the interval, repeated as the options
/// say.
pub fn encode_webp_frames(items: Vec<ImageItem>, options: GifExportOptions) -> (r: Result<Vec<u8>, String>)
    ensures
        r matches Ok(b) ==> encode_spec(animation_frames_spec(items@), options.interval, loop_count_of(options.repeat))
            == Ok::<Seq<u8>, Seq<char>>(b@),
        r matches Err(e) ==> encode_spec(animation_frames_spec(items@), options.interval, loop_count_of(options.repeat))
            == Err::<Seq<u8>, Seq<char>>(e@),
{
    let loop_count: u16 = match options.repeat {
        GifRepeat::Infinite => 0,
        GifRepeat::Finite(count) => count,
    };
    let frames = animation_frames(items);
    crate::webp::encode(frames.as_slice(), options.interval, loop_count)
}

/// A frame handed to the GIF encoder: the RGBA bytes of a `width` x
/// `height` image, shown for `delay_secs` seconds and `delay_nanos`
/// nanoseconds.
pub struct GifFrame {
    pub rgba: Vec<u8>,
    pub width: u32,
    pub height: u32,
    pub delay_secs: u64,
    pub delay_nanos: u32,
}

impl View for GifFrame {
    type V = (Seq<u8>, u32, u32, u64, u32);

    open spec fn view(&self) -> (Seq<u8>, u32, u32, u64, u32) {
        (self.rgba@, self.width, self.height, self.delay_secs, self.delay_nanos)
    }
}

/// The plain values of GIF frames.
pub open spec fn gif_frame_views(frames: Seq<GifFrame>) -> Seq<(Seq<u8>, u32, u32, u64, u32)> {
    frames.map_values(|f: GifFrame| f@)
}

/// The GIF file the `image` crate's encoder writes for the frames with the
/// repetition, or the message of its error.
pub uninterp spec fn gif_encoding(frames: Seq<(Seq<u8>, u32, u32, u64, u32)>, repeat: GifRepeat) -> Result<
    Seq<u8>,
    Seq<char>,
>;

/// Whether the bytes are exactly a `width` x `height` RGBA image: what
/// `ImageBuffer::from_raw` accepts and the GIF encoder's frame conversion
/// asserts (`Frame::from_rgba_speed` panics on any other length).
pub open spec fn rgba_fits(width: u32, height: u32, len: int) -> bool {
    4 * (width * height) == len
}

/// Encodes frames as a GIF.
///
/// Trusted: `GifEncoder::new`, `set_repeat` and `encode_frames` of the
/// `image` crate, with the frames built by `RgbaImage::from_raw` (which
/// accepts them, as `rgba_fits` holds; the encoder would panic on a buffer of
/// any other length), `Duration::new` (given fewer than a second of
/// nanoseconds, so that it cannot overflow) and
/// `Delay::from_saturating_duration`;
/// the file, or the message of the encoder's error, is named by
/// `gif_encoding`.
#[verifier::external_body]
fn encode_gif(frames: Vec<GifFrame>, repeat: GifRepeat) -> (r: Result<Vec<u8>, String>)
    requires
        forall|k: int| 0 <= k < frames@.len() ==> rgba_fits(frames@[k].width, frames@[k].height, frames@[k].rgba@.len() as int),
        forall|k: int| 0 <= k < frames@.len() ==> frames@[k].delay_nanos < 1_000_000_000,
    ensures
        r matches Ok(b) ==> (gif_encoding(gif_frame_views(frames@), repeat) matches Ok(g) && g == b@),
        r matches Err(e) ==> (gif_encoding(gif_frame_views(frames@), repeat) matches Err(m) && m == e@),
{
    let mut output = Vec::new();
    let mut encoder = image::codecs::gif::GifEncoder::new(&mut output);
    let repeat = match repeat {
        GifRepeat::Infinite => image::codecs::gif::Repeat::Infinite,
        GifRepeat::Finite(count) => image::codecs::gif::Repeat::Finite(count),
    };
    encoder.set_repeat(repeat).map_err(|error| error.to_string())?;
    encoder.encode_frames(frames.into_iter().map(|f| image::Frame::from_parts(
        image::RgbaImage::from_raw(f.width, f.height, f.rgba).unwrap(), 0, 0,
        image::Delay::from_saturating_duration(std::time::Duration::new(f.delay_secs, f.delay_nanos)),
    ))).map_err(|error| error.to_string())?;
    drop(encoder);
    Ok(output)
}

/// The plain values of pictures to put in a GIF.
pub open spec fn gif_input_views(inputs: Seq<GifInput>) -> Seq<(Seq<Color32>, u32, u32, u128)> {
    inputs.map_values(|i: GifInput| i@)
}

/// A picture to put in a GIF: its pixels, size and delay in nanoseconds.
pub struct GifInput {
    pub pixels: Vec<Color32>,
    pub width: u32,
    pub height: u32,
    pub delay: u128,
}

impl View for GifInput {
    type V = (Seq<Color32>, u32, u32, u128);

    open spec fn view(&self) -> (Seq<Color32>, u32, u32, u128) {
        (self.pixels@, self.width, self.height, self.delay)
    }
}

/// The pictures an image puts in a GIF: a still picture shown for the
/// interval, or each frame of an animation shown for its delay (the
/// interval where it has none).
pub open spec fn item_gif_inputs(item: ImageItem, interval: u128) -> Seq<(Seq<Color32>, u32, u32, u128)> {
    match item.frames {
        FrameSource::Single { pixels, width, height } => seq![(pixels@, width, height, interval)],
        FrameSource::Animated { frames, .. } => Seq::new(
            frames@.len(),
            |k: int|
                (
                    frames@[k].pixels@,
                    frames@[k].width,
                    frames@[k].height,
                    if frames@[k].delay == 0 {
                        interval
                    } else {
                        frames@[k].delay
                    },
                ),
        ),
    }
}

/// The pictures images put in a GIF, image after image.
pub open spec fn gif_inputs(items: Seq<ImageItem>, interval: u128) -> Seq<(Seq<Color32>, u32, u32, u128)>
    decreases items.len(),
{
    if items.len() == 0 {
        Seq::empty()
    } else {
        gif_inputs(items.drop_last(), interval) + item_gif_inputs(items.last(), interval)
    }
}

/// The size of the first picture whose pixel count is not its width times
/// its height.
pub open spec fn first_unfit(inputs: Seq<(Seq<Color32>, u32, u32, u128)>) -> Option<(u32, u32)>
    decreases inputs.len(),
{
    if inputs.len() == 0 {
        None
    } else if !rgba_fits(inputs[0].1, inputs[0].2, 4 * inputs[0].0.len() as int) {
        Some((inputs[0].1, inputs[0].2))
    } else {
        first_unfit(inputs.skip(1))
    }
}

/// Whole seconds and the nanoseconds beyond them of a delay in nanoseconds,
/// the seconds held at the largest 64-bit count.
pub open spec fn delay_parts(delay: u128) -> (u64, u32) {
    if delay / 1_000_000_000 > u64::MAX {
        (u64::MAX, 999_999_999)
    } else {
        ((delay / 1_000_000_000) as u64, (delay % 1_000_000_000) as u32)
    }
}

/// The frame the encoder gets for a picture.
pub open spec fn gif_frame_of(input: (Seq<Color32>, u32, u32, u128)) -> (Seq<u8>, u32, u32, u64, u32) {
    (crate::decode::bytes_of(input.0), input.1, input.2, delay_parts(input.3).0, delay_parts(input.3).1)
}

/// The message for a picture whose pixel count does not match its size.
pub open spec fn frame_dimensions_error(width: u32, height: u32) -> Seq<char> {
    "Invalid RGBA frame dimensions: "@ + decimal(width as nat) + seq!['x'] + decimal(height as nat)
}

/// The pictures images put in a GIF.
fn gif_inputs_of(items: &[ImageItem], interval: u128) -> (inputs: Vec<GifInput>)
    ensures
        gif_input_views(inputs@) == gif_inputs(items@, interval),
{
    let mut inputs: Vec<GifInput> = Vec::new();
    let mut i: usize = 0;
    while i < items.len()
        invariant
            i <= items@.len(),
            gif_input_views(inputs@) == gif_inputs(items@.take(i as int), interval),
        decreases items@.len() - i,
    {
        let ghost before = gif_input_views(inputs@);
        let ghost item = items@[i as int];
        match &items[i].frames {
            FrameSource::Single { pixels, width, height } => {
                inputs.push(
                    GifInput {
                        pixels: vstd::slice::slice_to_vec(pixels.as_slice()),
                        width: *width,
                        height: *height,
                        delay: interval,
                    },
                );
                assert(gif_input_views(inputs@) =~= before + item_gif_inputs(item, interval));
            },
            FrameSource::Animated { frames, .. } => {
                let mut k: usize = 0;
                while k < frames.len()
                    invariant
                        k <= frames@.len(),
                        item.frames matches FrameSource::Animated { frames: f, .. } && f == *frames,
                        gif_input_views(inputs@) =~= before + item_gif_inputs(item, interval).take(
                            k as int,
                        ),
                    decreases frames@.len() - k,
                {
                    let f = &frames[k];
                    let delay = if f.delay == 0 {
                        interval
                    } else {
                        f.delay
                    };
                    let input = GifInput {
                        pixels: vstd::slice::slice_to_vec(f.pixels.as_slice()),
                        width: f.width,
                        height: f.height,
                        delay,
                    };
                    assert(input@ == item_gif_inputs(item, interval)[k as int]);
                    let ghost prev = inputs@;
                    inputs.push(input);
                    proof {
                        assert(gif_input_views(inputs@) =~= gif_input_views(prev).push(
                            item_gif_inputs(item, interval)[k as int],
                        ));
                        assert(item_gif_inputs(item, interval).take(k + 1) =~= item_gif_inputs(item, interval).take(
                            k as int,
                        ).push(item_gif_inputs(item, interval)[k as int]));
                    }
                    k += 1;
                    assert(gif_input_views(inputs@) =~= before + item_gif_inputs(item, interval).take(
                        k as int,
                    ));
                }
                assert(item_gif_inputs(item, interval).take(k as int) =~= item_gif_inputs(item, interval));
            },
        }
        proof {
            assert(items@.take(i + 1).drop_last() =~= items@.take(i as int));
            assert(items@.take(i + 1).last() == item);
        }
        i += 1;
    }
    assert(items@.take(items@.len() as int) =~= items@);
    inputs
}

/// The GIF of images, or the message of the first error: a picture with
/// a pixel count other than its size, no picture, or the encoder's.
pub open spec fn gif_export_result(items: Seq<ImageItem>, options: GifExportOptions) -> Result<Seq<u8>, Seq<char>> {
    let inputs = gif_inputs(items, options.interval);
    match first_unfit(inputs) {
        Some((w, h)) => Err(frame_dimensions_error(w, h)),
        None => if inputs.len() == 0 {
            Err("Cannot encode an empty GIF"@)
        } else {
            gif_encoding(inputs.map_values(|i: (Seq<Color32>, u32, u32, u128)| gif_frame_of(i)), options.repeat)
        },
    }
}

/// Encodes images as an animated GIF: their pictures image after image (a
/// still picture and a frame without a delay shown for the interval),
/// repeated as the options say. A picture whose pixel count is not its
/// width times its height, or no picture at all, is an error.
pub fn encode_gif_frames(items: &[ImageItem], options: GifExportOptions) -> (r: Result<Vec<u8>, String>)
    ensures
        match gif_export_result(items@, options) {
            Ok(b) => r matches Ok(v) && v@ == b,
            Err(m) => r matches Err(e) && e@ == m,
        },
{
    let inputs = gif_inputs_of(items, options.interval);
    let ghost views = gif_input_views(inputs@);
    let mut frames: Vec<GifFrame> = Vec::new();
    let mut k: usize = 0;
    assert(views.skip(0) =~= views);
    while k < inputs.len()
        invariant
            k <= inputs@.len(),
            views == gif_input_views(inputs@),
            views == gif_inputs(items@, options.interval),
            first_unfit(views) == first_unfit(views.skip(k as int)),
            frames@.len() == k,
            forall|t: int| 0 <= t < k ==> (#[trigger] frames@[t])@ == gif_frame_of(views[t]),
            forall|t: int| 0 <= t < k ==> rgba_fits(#[trigger] frames@[t].width, frames@[t].height, frames@[t].rgba@.len() as int),
            forall|t: int| 0 <= t < k ==> (#[trigger] frames@[t]).delay_nanos < 1_000_000_000,
        decreases inputs@.len() - k,
    {
        let input = &inputs[k];
        assert(views.skip(k as int)[0] == views[k as int]);
        assert(views.skip(k as int).skip(1) =~= views.skip(k + 1));
        let w = input.width as u64;
        let h = input.height as u64;
        assert(w * h <= 0xffff_ffff_u64 * 0xffff_ffff_u64) by (nonlinear_arith)
            requires
                w <= 0xffff_ffff,
                h <= 0xffff_ffff,
        ;
        let fits = (w * h) as u128 == input.pixels.len() as u128;
        assert(fits == rgba_fits(input.width, input.height, 4 * input.pixels@.len() as int));
        if !fits {
            assert(views[k as int] == input@);
            assert(first_unfit(views.skip(k as int)) == Some((input.width, input.height)));
            let mut message: Vec<char> = Vec::new();
            crate::fmt::push_str(&mut message, "Invalid RGBA frame dimensions: ");
            crate::fmt::push_decimal(&mut message, input.width as u128);
            message.push('x');
            crate::fmt::push_decimal(&mut message, input.height as u128);
            assert(message@ =~= frame_dimensions_error(input.width, input.height));
            let text = string_from_chars(&message);
            return Err(text);
        }
        let rgba = crate::decode::straight_rgba_from_color32(input.pixels.as_slice());
        let (secs, nanos) = if input.delay / 1_000_000_000 > u64::MAX as u128 {
            (u64::MAX, 999_999_999u32)
        } else {
            ((input.delay / 1_000_000_000) as u64, (input.delay % 1_000_000_000) as u32)
        };
        frames.push(GifFrame { rgba, width: input.width, height: input.height, delay_secs: secs, delay_nanos: nanos });
        k += 1;
    }
    assert(views.skip(k as int).len() == 0);
    if frames.len() == 0 {
        return Err("Cannot encode an empty GIF".to_string());
    }
    assert(gif_frame_views(frames@) =~= views.map_values(|i: (Seq<Color32>, u32, u32, u128)| gif_frame_of(i)));
    encode_gif(frames, options.repeat)
}

/// A frame handed to the APNG encoder: its RGBA bytes and its delay in
/// milliseconds.
pub struct ApngFrame {
    pub rgba: Vec<u8>,
    pub delay_ms: u16,
}

impl View for ApngFrame {
    type V = (Seq<u8>, u16);

    open spec fn view(&self) -> (Seq<u8>, u16) {
        (self.rgba@, self.delay_ms)
    }
}

/// The plain values of APNG frames.
pub open spec fn apng_frame_views(frames: Seq<ApngFrame>) -> Seq<(Seq<u8>, u16)> {
    frames.map_values(|f: ApngFrame| f@)
}

/// The APNG file the `png` crate's encoder writes for a `width` x `height`
/// animation declared to have `num_frames` frames played `num_plays` times
/// (zero: without end), with the frames, or the message of its error.
pub uninterp spec fn apng_encoding(
    width: u32,
    height: u32,
    num_frames: u32,
    num_plays: u32,
    frames: Seq<(Seq<u8>, u16)>,
) -> Result<Seq<u8>, Seq<char>>;

/// Encodes frames as an 8-bit RGBA APNG.
///
/// Trusted: `Encoder::new`, `set_color`, `set_depth`, `set_animated`,
/// `write_header`, `Writer::set_frame_delay` (over 1000) and
/// `write_image_data` of the `png` crate; the file, or the message of the
/// first error, is named by `apng_encoding`.
#[verifier::external_body]
fn encode_apng(width: u32, height: u32, num_frames: u32, num_plays: u32, frames: Vec<ApngFrame>) -> (r: Result<
    Vec<u8>,
    String,
>)
    ensures
        r matches Ok(b) ==> (apng_encoding(width, height, num_frames, num_plays, apng_frame_views(frames@)) matches Ok(
            g,
        ) && g == b@),
        r matches Err(e) ==> (apng_encoding(width, height, num_frames, num_plays, apng_frame_views(frames@)) matches Err(
            m,
        ) && m == e@),
{
    let mut output = Vec::new();
    let mut encoder = png::Encoder::new(&mut output, width, height);
    encoder.set_color(png::ColorType::Rgba);
    encoder.set_depth(png::BitDepth::Eight);
    encoder.set_animated(num_frames, num_plays).map_err(|error| error.to_string())?;
    let mut writer = encoder.write_header().map_err(|error| error.to_string())?;
    for frame in frames {
        writer.set_frame_delay(frame.delay_ms, 1000).map_err(|error| error.to_string())?;
        writer.write_image_data(&frame.rgba).map_err(|error| error.to_string())?;
    }
    drop(writer);
    Ok(output)
}

/// The delay of an APNG frame: whole milliseconds of the frame's delay (the
/// interval where it has none), held between 1 and 65535.
pub open spec fn apng_delay_ms(delay: u128, interval: u128) -> u16 {
    let d = if delay == 0 {
        interval
    } else {
        delay
    };
    let ms = d / 1_000_000;
    if ms < 1 {
        1
    } else if ms > 0xffff {
        0xffff
    } else {
        ms as u16
    }
}

/// Encodes images as an animated PNG: their frames image after image, each
/// frame's bytes written as they are on a canvas the size of the first,
/// delays in whole milliseconds between 1 and 65535 (the interval for a
/// frame without one), repeated as the options say. No frame is an error.
pub fn encode_apng_frames(items: Vec<ImageItem>, options: GifExportOptions) -> (r: Result<Vec<u8>, String>)
    ensures
        ({
            let frames = animation_frames_spec(items@);
            if frames.len() == 0 {
                r matches Err(e) && e@ == "Cannot encode an empty APNG"@
            } else {
                let encoded = apng_encoding(
                    frames[0].width,
                    frames[0].height,
                    frames.len() as u32,
                    match options.repeat {
                        GifRepeat::Infinite => 0u32,
                        GifRepeat::Finite(count) => count as u32,
                    },
                    Seq::new(
                        frames.len(),
                        |k: int|
                            (
                                crate::decode::bytes_of(frames[k].pixels@),
                                apng_delay_ms(frames[k].delay, options.interval),
                            ),
                    ),
                );
                match encoded {
                    Ok(b) => r matches Ok(v) && v@ == b,
                    Err(m) => r matches Err(e) && e@ == m,
                }
            }
        }),
{
    let frames = animation_frames(items);
    if frames.len() == 0 {
        return Err("Cannot encode an empty APNG".to_string());
    }
    let width = frames[0].width;
    let height = frames[0].height;
    let plays: u32 = match options.repeat {
        GifRepeat::Infinite => 0,
        GifRepeat::Finite(count) => count as u32,
    };
    let ghost wanted = Seq::new(
        frames@.len(),
        |k: int|
            (crate::decode::bytes_of(frames@[k].pixels@), apng_delay_ms(frames@[k].delay, options.interval)),
    );
    let mut encoded: Vec<ApngFrame> = Vec::new();
    let mut k: usize = 0;
    while k < frames.len()
        invariant
            k <= frames@.len(),
            encoded@.len() == k,
            wanted == Seq::new(
                frames@.len(),
                |k: int|
                    (crate::decode::bytes_of(frames@[k].pixels@), apng_delay_ms(frames@[k].delay, options.interval)),
            ),
            forall|t: int| 0 <= t < k ==> (#[trigger] encoded@[t])@ == wanted[t],
        decreases frames@.len() - k,
    {
        let frame = &frames[k];
        let delay = if frame.delay == 0 {
            options.interval
        } else {
            frame.delay
        };
        let ms = delay / 1_000_000;
        let delay_ms: u16 = if ms < 1 {
            1
        } else if ms > 0xffff {
            0xffff
        } else {
            ms as u16
        };
        let rgba = crate::decode::straight_rgba_from_color32(frame.pixels.as_slice());
        encoded.push(ApngFrame { rgba, delay_ms });
        k += 1;
    }
    assert(apng_frame_views(encoded@) =~= wanted);
    #[verifier::truncate]
    let count = frames.len() as u32;
    encode_apng(width, height, count, plays, encoded)
}

/// The animation options of conversion parameters: the interval, at least
/// one millisecond, in nanoseconds, and the repetition (forever when no
/// count is given).
pub open spec fn export_options(params: ConvertParams) -> GifExportOptions {
    GifExportOptions {
        interval: ((if params.gif_interval_ms < 1 {
            1
        } else {
            params.gif_interval_ms
        }) * 1_000_000) as u128,
        repeat: match params.gif_repeat {
            Some(count) => GifRepeat::Finite(count),
            None => GifRepeat::Infinite,
        },
    }
}

/// The animation options of conversion parameters.
pub fn export_animation_options(params: &ConvertParams) -> (o: GifExportOptions)
    ensures
        o == export_options(*params),
{
    let ms: u32 = if params.gif_interval_ms < 1 {
        1
    } else {
        params.gif_interval_ms
    };
    let repeat = match params.gif_repeat {
        Some(count) => GifRepeat::Finite(count),
        None => GifRepeat::Infinite,
    };
    GifExportOptions { interval: ms as u128 * 1_000_000, repeat }
}

/// Encodes an image with more than one frame exported as a GIF or a WebP
/// as an animation, with the parameters' interval and repetition, and gives
/// the file and its extension; None for a still image or another format,
/// which are converted as still pictures.
pub fn encode_export_animation(image: ImageItem, params: &ConvertParams) -> (r: Option<Result<(Vec<u8>, String), String>>)
    ensures
        !(frame_count_of(image.frames) > 1 && (params.output_format == ImageFormats::GIF || params.output_format
            == ImageFormats::WEBP)) ==> r is None,
        frame_count_of(image.frames) > 1 && params.output_format == ImageFormats::GIF ==> (r matches Some(res)
            && match gif_export_result(seq![image], export_options(*params)) {
            Ok(b) => res matches Ok((v, ext)) && v@ == b && ext@ == "gif"@,
            Err(m) => res matches Err(e) && e@ == m,
        }),
        frame_count_of(image.frames) > 1 && params.output_format == ImageFormats::WEBP ==> (r matches Some(res)
            && match encode_spec(
            animation_frames_spec(seq![image]),
            export_options(*params).interval,
            loop_count_of(export_options(*params).repeat),
        ) {
            Ok(b) => res matches Ok((v, ext)) && v@ == b && ext@ == "webp"@,
            Err(m) => res matches Err(e) && e@ == m,
        }),
{
    if image.frame_count() <= 1 {
        return None;
    }
    let options = export_animation_options(params);
    match params.output_format {
        ImageFormats::GIF => {
            let items = vec![image];
            assert(items@ == seq![image]);
            match encode_gif_frames(items.as_slice(), options) {
                Ok(data) => Some(Ok((data, "gif".to_string()))),
                Err(e) => Some(Err(e)),
            }
        },
        ImageFormats::WEBP => {
            let items = vec![image];
            assert(items@ == seq![image]);
            match encode_webp_frames(items, options) {
                Ok(data) => Some(Ok((data, "webp".to_string()))),
                Err(e) => Some(Err(e)),
            }
        },
        _ => None,
    }
}

/// One image an export writes: the file name it is written under, the
/// directory (relative to the export root) it goes to, and the image.
pub struct ExportSource {
    pub input_name: String,
    pub relative_path: Option<String>,
    pub image: ImageItem,
}

/// An export: its mode, what it writes, and how images are converted.
pub struct ExportRequest {
    pub mode: ExportMode,
    pub targets: Vec<ExportSource>,
    pub params: ConvertParams,
}

/// Why a batch export to a directory failed.
#[derive(Debug, PartialEq, Eq)]
pub enum NativeBatchExportError {
    InvalidRequest(String),
    InvalidSourcePath { source: String, reason: String },
    Encode { source: String, error: String },
    CreateDirectory { path: String, error: String },
    Write { path: String, error: String },
}

/// The name a resource is shown under: the file name of its path, else the
/// whole path.
pub fn resource_name(path: &str) -> (name: String)
    ensures
        name@ == match file_name_spec(path@) {
            Some(n) => n,
            None => path@,
        },
{
    let chars = str_to_chars(path);
    match file_name_of(&chars) {
        Some(n) => string_from_chars(&n),
        None => path.to_string(),
    }
}

/// Whether data is a WebP file: a RIFF container of WebP form.
pub fn is_webp(data: &[u8]) -> (b: bool)
    ensures
        b == (data@.len() >= 12 && data@.take(4) == seq![0x52u8, 0x49u8, 0x46u8, 0x46u8] && data@.subrange(8, 12)
            == seq![0x57u8, 0x45u8, 0x42u8, 0x50u8]),
{
    if data.len() < 12 {
        return false;
    }
    let b = data[0] == 0x52 && data[1] == 0x49 && data[2] == 0x46 && data[3] == 0x46 && data[8] == 0x57
        && data[9] == 0x45 && data[10] == 0x42 && data[11] == 0x50;
    assert(b == (data@.take(4) == seq![0x52u8, 0x49u8, 0x46u8, 0x46u8] && data@.subrange(8, 12) == seq![
        0x57u8,
        0x45u8,
        0x42u8,
        0x50u8,
    ])) by {
        if b {
            assert(data@.take(4) =~= seq![0x52u8, 0x49u8, 0x46u8, 0x46u8]);
            assert(data@.subrange(8, 12) =~= seq![0x57u8, 0x45u8, 0x42u8, 0x50u8]);
        } else if data@.take(4) == seq![0x52u8, 0x49u8, 0x46u8, 0x46u8] && data@.subrange(8, 12) == seq![
            0x57u8,
            0x45u8,
            0x42u8,
            0x50u8,
        ] {
            assert(data@.take(4)[0] == data@[0] && data@.take(4)[1] == data@[1]);
            assert(data@.take(4)[2] == data@[2] && data@.take(4)[3] == data@[3]);
            assert(data@.subrange(8, 12)[0] == data@[8] && data@.subrange(8, 12)[1] == data@[9]);
            assert(data@.subrange(8, 12)[2] == data@[10] && data@.subrange(8, 12)[3] == data@[11]);
        }
    }
    b
}

/// The directory of a relative path, when it has a non-empty one.
pub open spec fn relative_dir_spec(path: Seq<char>) -> Option<Seq<char>> {
    if is_absolute_spec(path) {
        None
    } else {
        match std_parent(path) {
            Some(p) => if p.len() > 0 {
                Some(p)
            } else {
                None
            },
            None => None,
        }
    }
}

/// The file name an export writes a path under (empty without one), and the
/// directory it goes to when the path is relative and has one.
pub fn export_name_and_relative_path(path: &str) -> (r: (String, Option<String>))
    ensures
        r.0@ == match file_name_spec(path@) {
            Some(n) => n,
            None => Seq::<char>::empty(),
        },
        match relative_dir_spec(path@) {
            Some(d) => r.1 matches Some(s) && s@ == d,
            None => r.1 is None,
        },
{
    let chars = str_to_chars(path);
    let name = match file_name_of(&chars) {
        Some(n) => string_from_chars(&n),
        None => String::new(),
    };
    let relative = if is_absolute(&chars) {
        None
    } else {
        let parent = parent_or_empty(path);
        if parent.len() > 0 {
            Some(string_from_chars(&parent))
        } else {
            proof {
                if std_parent(path@) is Some {
                    assert(parent@.len() == 0);
                }
            }
            None
        }
    };
    (name, relative)
}

/// The file name of frame `index` of an animation at `path` with
/// `frame_count` frames: the stem, `-`, the frame number from one padded to
/// the digits of the frame count (at least two), and the extension.
pub open spec fn frame_file_name_spec(path: Seq<char>, index: int, frame_count: int) -> Seq<char> {
    let width = if decimal(frame_count as nat).len() > 2 {
        decimal(frame_count as nat).len()
    } else {
        2
    };
    let stem = match file_stem_spec(path) {
        Some(s) => s,
        None => Seq::empty(),
    };
    let numbered = stem + seq!['-'] + padded_decimal((index + 1) as nat, width as nat);
    match extension_spec(path) {
        Some(e) => numbered + seq!['.'] + e,
        None => numbered,
    }
}

/// The path frame `index` of an animation at `path` is exported under: its
/// file name in the directory of the path.
pub open spec fn frame_name_spec(path: Seq<char>, index: int, frame_count: int) -> Seq<char> {
    let file_name = frame_file_name_spec(path, index, frame_count);
    match std_parent(path) {
        Some(p) => if p.len() > 0 {
            join_spec(p, file_name)
        } else {
            file_name
        },
        None => file_name,
    }
}

fn frame_file_name(chars: &[char], index: usize, frame_count: usize) -> (r: Vec<char>)
    requires
        index < usize::MAX,
    ensures
        r@ == frame_file_name_spec(chars@, index as int, frame_count as int),
{
    let digits = decimal_chars(frame_count as u128);
    let width = if digits.len() > 2 {
        digits.len()
    } else {
        2
    };
    let mut file_name: Vec<char> = Vec::new();
    let file = file_name_of(chars);
    match &file {
        Some(n) => {
            let stem = stem_of(n);
            push_chars(&mut file_name, &stem);
        },
        None => {},
    }
    file_name.push('-');
    push_padded_decimal(&mut file_name, index as u128 + 1, width);
    match &file {
        Some(n) => match extension_of(n) {
            Some(e) => {
                file_name.push('.');
                push_chars(&mut file_name, &e);
            },
            None => {},
        },
        None => {},
    }
    assert(file_name@ =~= frame_file_name_spec(chars@, index as int, frame_count as int));
    file_name
}

/// The path a frame of an animation is exported under.
pub fn animation_frame_name(path: &str, index: usize, frame_count: usize) -> (name: String)
    requires
        index < usize::MAX,
    ensures
        name@ == frame_name_spec(path@, index as int, frame_count as int),
{
    let chars = str_to_chars(path);
    let file_name = frame_file_name(&chars, index, frame_count);
    let parent = parent_or_empty(path);
    let full = if parent.len() > 0 {
        join(&parent, &file_name)
    } else {
        file_name
    };
    string_from_chars(&full)
}

/// An export source for a named image.
pub fn frame_source(name: String, image: ImageItem) -> (source: ExportSource)
    ensures
        source.input_name@ == match file_name_spec(name@) {
            Some(n) => n,
            None => Seq::<char>::empty(),
        },
        match relative_dir_spec(name@) {
            Some(d) => source.relative_path matches Some(s) && s@ == d,
            None => source.relative_path is None,
        },
        source.image == image,
{
    let (input_name, relative_path) = export_name_and_relative_path(name.as_str());
    ExportSource { input_name, relative_path, image }
}

/// An export source for frame `index` of the animation at `source_path`.
pub fn animation_frame_source(source_path: &str, index: usize, frame_count: usize, image: ImageItem) -> (source:
    ExportSource)
    requires
        index < usize::MAX,
    ensures
        source_named(source, frame_name_spec(source_path@, index as int, frame_count as int)),
        source.image == image,
{
    frame_source(animation_frame_name(source_path, index, frame_count), image)
}


/// How many images an export of one selected entry writes: each member of
/// a group, each frame of an animation, one still image, nothing else.
pub open spec fn sources_of(s: ViewerState, id: WorkspaceId) -> int {
    match crate::workspace::group_position(s, id) {
        Some(g) => s.sequence_groups@[g].1.members@.len() as int,
        None => match crate::workspace::position(s, id) {
            Some(p) => match s.items@[p].content {
                SidebarItem::Image(image) => match image.frames {
                    crate::image_item::FrameSource::Animated { frames, .. } => frames@.len() as int,
                    crate::image_item::FrameSource::Single { .. } => 1,
                },
                SidebarItem::Glyph(_) => 0,
            },
            None => 0,
        },
    }
}

/// How many images an export of these entries writes.
pub open spec fn sources_count(s: ViewerState, ids: Seq<WorkspaceId>) -> int
    decreases ids.len(),
{
    if ids.len() == 0 {
        0
    } else {
        sources_count(s, ids.drop_last()) + sources_of(s, ids.last())
    }
}

/// Whether the source writes under the file name and relative directory
/// that the path `name` gives.
pub open spec fn source_named(src: ExportSource, name: Seq<char>) -> bool {
    &&& src.input_name@ == match file_name_spec(name) {
        Some(n) => n,
        None => Seq::<char>::empty(),
    }
    &&& match relative_dir_spec(name) {
        Some(d) => src.relative_path matches Some(r) && r@ == d,
        None => src.relative_path is None,
    }
}

/// Whether `src` is the `k`-th image that exporting the entry `id` writes: a
/// member of a group under its path, a frame of an animation under the
/// frame's name, or a still image under its path.
pub open spec fn entry_source(s: ViewerState, id: WorkspaceId, k: int, src: ExportSource) -> bool {
    match crate::workspace::group_position(s, id) {
        Some(g) => {
            let m = s.sequence_groups@[g].1.members@[k];
            source_named(src, m.image.path@) && crate::entries::same_image(src.image, m.image)
        },
        None => match crate::workspace::position(s, id) {
            Some(p) => match s.items@[p].content {
                SidebarItem::Image(image) => match image.frames {
                    crate::image_item::FrameSource::Animated { frames, .. } => source_named(
                        src,
                        frame_name_spec(image.path@, k, frames@.len() as int),
                    ) && crate::entries::frame_snapshot(image, k, src.image),
                    crate::image_item::FrameSource::Single { .. } => source_named(src, image.path@)
                        && crate::entries::same_image(src.image, image),
                },
                SidebarItem::Glyph(_) => false,
            },
            None => false,
        },
    }
}

/// Whether `sources` are the images that exporting the entries `ids` writes,
/// entry after entry.
pub open spec fn sources_match(s: ViewerState, ids: Seq<WorkspaceId>, sources: Seq<ExportSource>) -> bool {
    &&& sources.len() == sources_count(s, ids)
    &&& forall|j: int, k: int|
        0 <= j < ids.len() && 0 <= k < sources_of(s, ids[j]) ==> entry_source(
            s,
            ids[j],
            k,
            #[trigger] sources[sources_count(s, ids.take(j)) + k],
        )
}

/// Whether `src` is what a single-file export of the target writes: an
/// entry's image under its group label or path, or one image of a group or
/// an animation as an export of the whole entry writes it.
pub open spec fn single_source(s: ViewerState, target: ExportTarget, src: ExportSource) -> bool {
    match target {
        ExportTarget::Entry(id) => crate::workspace::position(s, id) matches Some(p)
            && s.items@[p].content matches SidebarItem::Image(image) && crate::entries::same_image(src.image, image)
            && source_named(
            src,
            match crate::workspace::group_position(s, id) {
                Some(g) => s.sequence_groups@[g].1.label@,
                None => image.path@,
            },
        ),
        ExportTarget::Frame { collection, index } => entry_source(s, collection, index as int, src),
    }
}

/// Whether a single-file export of the target has an image to write.
pub open spec fn single_source_exists(s: ViewerState, target: ExportTarget) -> bool {
    match target {
        ExportTarget::Entry(id) => crate::workspace::position(s, id) matches Some(p)
            && s.items@[p].content is Image,
        ExportTarget::Frame { collection, index } => match crate::workspace::group_position(s, collection) {
            Some(g) => index < s.sequence_groups@[g].1.members@.len(),
            None => crate::workspace::position(s, collection) matches Some(p)
                && s.items@[p].content matches SidebarItem::Image(image)
                && image.frames matches crate::image_item::FrameSource::Animated { frames, .. }
                && index < frames@.len(),
        },
    }
}

/// The entry a target belongs to.
pub open spec fn target_entry(target: ExportTarget) -> WorkspaceId {
    match target {
        ExportTarget::Entry(id) => id,
        ExportTarget::Frame { collection, .. } => collection,
    }
}

/// The image a single-file export of the target writes: an entry's image
/// under its group label or path, a member of a group under its path, or a
/// frame of an animation under the frame's name.
pub fn single_export_source(state: &ViewerState, target: ExportTarget) -> (r: Option<ExportSource>)
    requires
        state.wf(),
    ensures
        r is Some == single_source_exists(*state, target),
        r matches Some(src) ==> single_source(*state, target, src),
{
    match target {
        ExportTarget::Entry(id) => {
            let image = match state.item(id) {
                Some(SidebarItem::Image(image)) => crate::entries::copy_image(image),
                _ => {
                    return None;
                },
            };
            let (input_name, relative_path) = match state.group_label(id) {
                Some(label) => export_name_and_relative_path(label),
                None => export_name_and_relative_path(image.path.as_str()),
            };
            Some(ExportSource { input_name, relative_path, image })
        },
        ExportTarget::Frame { collection, index } => {
            match state.group_members(collection) {
                Some(members) => {
                    if index < members.len() {
                        let (_, name, image) = take_member(members, index);
                        return Some(frame_source(name, image));
                    }
                    return None;
                },
                None => {},
            }
            let snapshots = match state.frame_snapshots(collection) {
                Some(v) => v,
                None => {
                    return None;
                },
            };
            if index >= snapshots.len() {
                return None;
            }
            let (path, frame_count) = match state.item(collection) {
                Some(SidebarItem::Image(image)) => (image.path.clone(), image.frame_count()),
                _ => {
                    return None;
                },
            };
            let (_, image) = take_snapshot(snapshots, index);
            Some(animation_frame_source(path.as_str(), index, frame_count, image))
        },
    }
}

/// Takes one member out of a list of members.
fn take_member(members: Vec<(WorkspaceId, String, ImageItem)>, index: usize) -> (r: (WorkspaceId, String, ImageItem))
    requires
        index < members@.len(),
    ensures
        r == members@[index as int],
{
    let mut members = members;
    members.remove(index)
}

/// Takes one snapshot out of a list of snapshots.
fn take_snapshot(snapshots: Vec<(String, ImageItem)>, index: usize) -> (r: (String, ImageItem))
    requires
        index < snapshots@.len(),
    ensures
        r == snapshots@[index as int],
{
    let mut snapshots = snapshots;
    snapshots.remove(index)
}

/// The images an export of every selected entry writes, entry by entry in
/// id order: the members of groups under their paths, the frames of
/// animations under frame names, still images under their paths.
pub fn all_export_sources(state: &ViewerState) -> (sources: Vec<ExportSource>)
    requires
        state.wf(),
    ensures
        sources_match(*state, state.selected_ids@, sources@),
{
    let mut sources: Vec<ExportSource> = Vec::new();
    let mut i: usize = 0;
    while i < state.selected_ids.len()
        invariant
            state.wf(),
            i <= state.selected_ids@.len(),
            sources_match(*state, state.selected_ids@.take(i as int), sources@),
        decreases state.selected_ids@.len() - i,
    {
        let id = state.selected_ids[i];
        let ghost ids0 = state.selected_ids@.take(i as int);
        let ghost ids1 = state.selected_ids@.take(i + 1);
        assert(ids1.drop_last() == ids0);
        assert(ids1.last() == id);
        let ghost old_sources = sources@;
        let ghost before = sources@.len();
        match state.group_members(id) {
            Some(members) => {
                let ghost all = members@;
                let total = members.len();
                let mut rest = members;
                let mut k: usize = 0;
                while rest.len() > 0
                    invariant
                        all.len() == total,
                        k + rest@.len() == all.len(),
                        rest@ == all.skip(k as int),
                        sources@.len() == before + k,
                        forall|t: int| 0 <= t < before ==> sources@[t] == old_sources[t],
                        forall|t: int| 0 <= t < k ==> (#[trigger] sources@[before + t]).image == all[t].2 && source_named(
                            sources@[before + t],
                            all[t].1@,
                        ),
                    decreases rest@.len(),
                {
                    assert(rest@[0] == all[k as int]);
                    let (_, name, image) = rest.remove(0);
                    assert(rest@ =~= all.skip(k + 1));
                    sources.push(frame_source(name, image));
                    k += 1;
                }
            },
            None => {
                match state.frame_snapshots(id) {
                    Some(frames) => {
                        let (path, frame_count) = match state.item(id) {
                            Some(SidebarItem::Image(image)) => (image.path.clone(), image.frame_count()),
                            _ => {
                                proof {
                                    assert(false);
                                }
                                (String::new(), 0)
                            },
                        };
                        let ghost all = frames@;
                        let total = frames.len();
                        let mut rest = frames;
                        let mut k: usize = 0;
                        while rest.len() > 0
                            invariant
                                sources@.len() == before + k,
                                k + rest@.len() == all.len(),
                                rest@ == all.skip(k as int),
                                all.len() == total,
                                forall|t: int| 0 <= t < before ==> sources@[t] == old_sources[t],
                                forall|t: int|
                                    0 <= t < k ==> (#[trigger] sources@[before + t]).image == all[t].1 && source_named(
                                        sources@[before + t],
                                        frame_name_spec(path@, t, frame_count as int),
                                    ),
                            decreases rest@.len(),
                        {
                            assert(rest@[0] == all[k as int]);
                            let (_, image) = rest.remove(0);
                            assert(rest@ =~= all.skip(k + 1));
                            sources.push(animation_frame_source(path.as_str(), k, frame_count, image));
                            k += 1;
                        }
                    },
                    None => {
                        match state.item(id) {
                            Some(SidebarItem::Image(image)) => {
                                let copy = crate::entries::copy_image(image);
                                let (input_name, relative_path) = export_name_and_relative_path(
                                    image.path.as_str(),
                                );
                                sources.push(ExportSource { input_name, relative_path, image: copy });
                            },
                            _ => {},
                        }
                    },
                }
            },
        }
        assert forall|t: int| 0 <= t < before implies sources@[t] == old_sources[t] by {}
        proof {
            assert(sources@.len() == sources_count(*state, ids1));
            assert forall|j: int, k: int|
                0 <= j < ids1.len() && 0 <= k < sources_of(*state, ids1[j]) implies entry_source(
                *state,
                ids1[j],
                k,
                #[trigger] sources@[sources_count(*state, ids1.take(j)) + k],
            ) by {
                if j < i {
                    assert(ids1.take(j) == ids0.take(j));
                    assert(ids1[j] == ids0[j]);
                    lemma_sources_prefix(*state, ids0, j);
                    lemma_count_nonneg(*state, ids0.take(j));
                    assert(0 <= sources_count(*state, ids0.take(j)) + k < before);
                    assert(sources@[sources_count(*state, ids0.take(j)) + k] == old_sources[sources_count(
                        *state,
                        ids0.take(j),
                    ) + k]);
                } else {
                    assert(j == i);
                    assert(ids1.take(j) == ids0);
                    assert(sources@[before + k] == sources@[sources_count(*state, ids1.take(j)) + k]);
                }
            }
        }
        i += 1;
    }
    assert(state.selected_ids@.take(state.selected_ids@.len() as int) == state.selected_ids@);
    sources
}

/// The images of the first `j` entries come before those of the entry
/// after them.
proof fn lemma_sources_prefix(s: ViewerState, ids: Seq<WorkspaceId>, j: int)
    requires
        0 <= j < ids.len(),
    ensures
        sources_count(s, ids.take(j)) + sources_of(s, ids[j]) <= sources_count(s, ids),
    decreases ids.len(),
{
    assert(ids.take(ids.len() as int) == ids);
    if j < ids.len() - 1 {
        lemma_sources_prefix(s, ids.drop_last(), j);
        assert(ids.drop_last().take(j) == ids.take(j));
        lemma_sources_nonneg(s, ids.last());
    } else {
        assert(ids.drop_last() == ids.take(j));
    }
}

/// Entries write no fewer than no images.
proof fn lemma_count_nonneg(s: ViewerState, ids: Seq<WorkspaceId>)
    ensures
        sources_count(s, ids) >= 0,
    decreases ids.len(),
{
    if ids.len() > 0 {
        lemma_count_nonneg(s, ids.drop_last());
    }
}

/// An entry writes no fewer than no images.
proof fn lemma_sources_nonneg(s: ViewerState, id: WorkspaceId)
    ensures
        sources_of(s, id) >= 0,
{
}

/// What an export writes, checked: a single-file export needs a target,
/// exactly that entry selected, and an image for the target; every export
/// needs at least one image.
pub fn resolve_export_request(
    state: &ViewerState,
    mode: ExportMode,
    single_target: Option<ExportTarget>,
    params: &ConvertParams,
) -> (r: Result<ExportRequest, String>)
    requires
        state.wf(),
    ensures
        match mode {
            ExportMode::SingleFile => match single_target {
                None => r matches Err(e) && e@ == "Single-file export requires one target"@,
                Some(t) => if !(state.selected_ids@.len() == 1 && state.selected_ids@.contains(target_entry(t))) {
                    r matches Err(e) && e@ == "Single-file export requires exactly one selected source"@
                } else if !single_source_exists(*state, t) {
                    r matches Err(e) && e@ == "Single-file export target is not available"@
                } else {
                    r matches Ok(q) && q.targets@.len() == 1 && single_source(*state, t, q.targets@[0])
                },
            },
            ExportMode::AllFiles => if sources_count(*state, state.selected_ids@) == 0 {
                r matches Err(e) && e@ == "Export request has no image sources"@
            } else {
                r matches Ok(q) && sources_match(*state, state.selected_ids@, q.targets@)
            },
        },
        r matches Ok(q) ==> q.mode == mode && q.params == *params,
{
    let targets = match mode {
        ExportMode::SingleFile => {
            let target = match single_target {
                Some(t) => t,
                None => {
                    return Err("Single-file export requires one target".to_string());
                },
            };
            let selected_id = match target {
                ExportTarget::Entry(id) => id,
                ExportTarget::Frame { collection, .. } => collection,
            };
            if state.selected_ids.len() != 1 || !crate::idset::set_contains(&state.selected_ids, selected_id) {
                return Err("Single-file export requires exactly one selected source".to_string());
            }
            let source = match single_export_source(state, target) {
                Some(s) => s,
                None => {
                    return Err("Single-file export target is not available".to_string());
                },
            };
            let mut targets: Vec<ExportSource> = Vec::new();
            targets.push(source);
            targets
        },
        ExportMode::AllFiles => all_export_sources(state),
    };
    if targets.len() == 0 {
        return Err("Export request has no image sources".to_string());
    }
    Ok(ExportRequest { mode, targets, params: *params })
}

/// The export target of the selection target.
pub fn export_target_from_selection(state: &ViewerState) -> (r: Option<ExportTarget>)
    ensures
        r == match state.primary_target {
            Some(SelectionTarget::Entry(id)) => Some(ExportTarget::Entry(id)),
            Some(SelectionTarget::Frame { collection, index }) => Some(ExportTarget::Frame { collection, index }),
            None => None,
        },
{
    match state.primary_target {
        Some(SelectionTarget::Entry(id)) => Some(ExportTarget::Entry(id)),
        Some(SelectionTarget::Frame { collection, index }) => Some(ExportTarget::Frame { collection, index }),
        None => None,
    }
}


/// A piece of a path between separators that names a file or directory
/// (not empty, `.` or `..`).
pub open spec fn is_normal_piece(piece: Seq<char>) -> bool {
    piece.len() > 0 && piece != seq!['.'] && piece != seq!['.', '.']
}

/// How many pieces name a file or directory.
pub open spec fn normal_count(pieces: Seq<Seq<char>>) -> int
    decreases pieces.len(),
{
    if pieces.len() == 0 {
        0
    } else {
        normal_count(pieces.drop_last()) + if is_normal_piece(pieces.last()) {
            1int
        } else {
            0
        }
    }
}

/// Whether a relative path has a component other than a name: a leading
/// `.` (the current directory) or a `..` anywhere.
pub open spec fn escapes(pieces: Seq<Seq<char>>) -> bool
    decreases pieces.len(),
{
    if pieces.len() == 0 {
        false
    } else {
        escapes(pieces.drop_last()) || pieces.last() == seq!['.', '.'] || (pieces.len() == 1
            && pieces.last() == seq!['.'])
    }
}

/// Whether a path is exactly one relative file name.
pub open spec fn one_file_name(path: Seq<char>) -> bool {
    let pieces = crate::seqs::split_on(path, '/');
    path.len() > 0 && !is_absolute_spec(path) && !escapes(pieces) && normal_count(pieces) == 1
}

/// Whether a path stays inside the directory it is relative to.
pub open spec fn stays_inside(path: Seq<char>) -> bool {
    !is_absolute_spec(path) && !escapes(crate::seqs::split_on(path, '/'))
}

/// Counts the name pieces of a path and whether it escapes.
fn path_pieces(chars: &[char]) -> (r: (usize, bool))
    ensures
        r.0 == normal_count(crate::seqs::split_on(chars@, '/')),
        r.1 == escapes(crate::seqs::split_on(chars@, '/')),
{
    let ghost pieces = crate::seqs::split_on(chars@, '/');
    let ghost mut done: Seq<Seq<char>> = Seq::empty();
    let mut from: usize = 0;
    let mut count: usize = 0;
    let mut bad = false;
    let mut first = true;
    assert(chars@.skip(0) == chars@);
    assert(done + crate::seqs::split_on(chars@.skip(0), '/') == pieces);
    loop
        invariant_except_break
            from <= chars@.len(),
            done + crate::seqs::split_on(chars@.skip(from as int), '/') == pieces,
            count == normal_count(done),
            count <= from,
            bad == escapes(done),
            first == (done.len() == 0),
        ensures
            done == pieces,
            count == normal_count(done),
            bad == escapes(done),
        decreases chars@.len() - from,
    {
        let next = crate::seqs::find_char_from(chars, '/', from);
        let end = match next {
            Some(k) => k,
            None => chars.len(),
        };
        let piece = &chars[from..end];
        let ghost p = chars@.subrange(from as int, end as int);
        assert(piece@ == p);
        let dot = piece.len() == 1 && piece[0] == '.';
        let dotdot = piece.len() == 2 && piece[0] == '.' && piece[1] == '.';
        assert(dot == (p == seq!['.'])) by {
            if p == seq!['.'] {
                assert(p[0] == '.');
            }
            if dot {
                assert(p =~= seq!['.']);
            }
        }
        assert(dotdot == (p == seq!['.', '.'])) by {
            if p == seq!['.', '.'] {
                assert(p[0] == '.' && p[1] == '.');
            }
            if dotdot {
                assert(p =~= seq!['.', '.']);
            }
        }
        if piece.len() > 0 && !dot && !dotdot {
            count = count + 1;
        }
        if dotdot || (first && dot) {
            bad = true;
        }
        proof {
            let old_done = done;
            done = done.push(p);
            assert(done.drop_last() == old_done);
            assert(done.last() == p);
        }
        first = false;
        match next {
            Some(k) => {
                proof {
                    let t = chars@.skip(from as int);
                    crate::seqs::lemma_find_char(t, '/');
                    assert(t.take(k - from) == p);
                    assert(t.skip(k - from + 1) == chars@.skip(k + 1));
                    assert(done + crate::seqs::split_on(chars@.skip(k + 1), '/') == pieces);
                }
                from = k + 1;
            },
            None => {
                proof {
                    let t = chars@.skip(from as int);
                    assert(p == t);
                    assert(crate::seqs::split_on(t, '/') == seq![t]);
                    assert(done == pieces);
                }
                break;
            },
        }
    }
    (count, bad)
}

/// The relative directory an export source is written to, checked: its
/// file name must be one relative name, and its directory must stay inside
/// the export root.
pub fn safe_relative_directory(source: &ExportSource) -> (r: Result<String, NativeBatchExportError>)
    ensures
        !one_file_name(source.input_name@) ==> (r matches Err(
            NativeBatchExportError::InvalidSourcePath { source: s, reason },
        ) && s@ == source.input_name@ && reason@ == "input name must be one relative file name"@),
        one_file_name(source.input_name@) ==> match source.relative_path {
            Some(rel) => if stays_inside(rel@) {
                r matches Ok(dir) && dir@ == rel@
            } else {
                r matches Err(NativeBatchExportError::InvalidSourcePath { source: s, reason }) && s@
                    == source.input_name@ && reason@ == "relative directory escapes export root: "@ + rel@
            },
            None => r matches Ok(dir) && dir@.len() == 0,
        },
{
    let name = str_to_chars(source.input_name.as_str());
    let (count, bad) = path_pieces(&name);
    if name.len() == 0 || is_absolute(&name) || bad || count != 1 {
        return Err(
            NativeBatchExportError::InvalidSourcePath {
                source: source.input_name.clone(),
                reason: "input name must be one relative file name".to_string(),
            },
        );
    }
    match &source.relative_path {
        Some(rel) => {
            let chars = str_to_chars(rel.as_str());
            let (_, escape) = path_pieces(&chars);
            if is_absolute(&chars) || escape {
                let mut reason: Vec<char> = Vec::new();
                crate::fmt::push_str(&mut reason, "relative directory escapes export root: ");
                push_chars(&mut reason, &chars);
                return Err(
                    NativeBatchExportError::InvalidSourcePath {
                        source: source.input_name.clone(),
                        reason: string_from_chars(&reason),
                    },
                );
            }
            Ok(rel.clone())
        },
        None => Ok(String::new()),
    }
}

/// Whether something exists at the path on disk.
///
/// Trusted: `Path::exists`. What it returns depends on the file system at
/// the time of the call, so nothing is claimed about it.
#[verifier::external_body]
fn path_exists(path: &[char]) -> bool {
    let text: String = path.iter().collect();
    std::path::Path::new(&text).exists()
}

/// The file name of candidate `index` for a batch output: the base name for
/// the first, else the stem, `-`, the index and the extension.
pub open spec fn batch_file_name(base_name: Seq<char>, extension: Seq<char>, index: int) -> Seq<char> {
    if index == 1 {
        base_name
    } else {
        let stem = match file_stem_spec(base_name) {
            Some(s) => s,
            None => Seq::empty(),
        };
        stem + seq!['-'] + decimal(index as nat) + seq!['.'] + extension
    }
}

/// Candidate `index` for a batch output in the directory.
pub open spec fn batch_candidate(directory: Seq<char>, base_name: Seq<char>, extension: Seq<char>, index: int) -> Seq<
    char,
> {
    join_spec(directory, batch_file_name(base_name, extension, index))
}

/// Whether one of the used paths is `path`.
pub open spec fn among_used(used: Seq<String>, path: Seq<char>) -> bool {
    exists|k: int| 0 <= k < used.len() && used[k]@ == path
}

/// Whether the check said that something occupies the path.
pub open spec fn said_occupied<F: Fn(Vec<char>) -> bool>(occupied: F, path: Seq<char>, answer: bool) -> bool {
    exists|v: Vec<char>| v@ == path && #[trigger] call_ensures(occupied, (v,), answer)
}

/// Whether candidate `index` is taken: an earlier output has it, or the
/// check said that something occupies it under `root`.
pub open spec fn batch_taken<F: Fn(Vec<char>) -> bool>(
    used: Seq<String>,
    occupied: F,
    root: Seq<char>,
    directory: Seq<char>,
    base_name: Seq<char>,
    extension: Seq<char>,
    index: int,
) -> bool {
    among_used(used, batch_candidate(directory, base_name, extension, index)) || said_occupied(
        occupied,
        join_spec(root, batch_candidate(directory, base_name, extension, index)),
        true,
    )
}

/// The first candidate for a batch output in `relative_directory` that is
/// free: the base name, else numbered names from 2 on, skipping those that
/// an earlier output took and those that `occupied` reports as occupied
/// under `root`. The path joins the used ones. None when every candidate
/// numbered below `u128::MAX` is taken.
pub fn first_free_batch_path<F: Fn(Vec<char>) -> bool>(
    root: &str,
    relative_directory: &str,
    base_name: &str,
    extension: &str,
    used_paths: &mut Vec<String>,
    occupied: F,
) -> (r: Option<String>)
    requires
        forall|p: Vec<char>| #[trigger] call_requires(occupied, (p,)),
    ensures
        r matches Some(path) ==> exists|index: int|
            1 <= index < u128::MAX && path@ == batch_candidate(relative_directory@, base_name@, extension@, index)
                && !among_used(old(used_paths)@, path@) && said_occupied(
                occupied,
                join_spec(root@, path@),
                false,
            ) && final(used_paths)@ == old(used_paths)@.push(path) && forall|j: int|
                1 <= j < index ==> #[trigger] batch_taken(
                    old(used_paths)@,
                    occupied,
                    root@,
                    relative_directory@,
                    base_name@,
                    extension@,
                    j,
                ),
        r is None ==> final(used_paths)@ == old(used_paths)@ && forall|j: int|
            1 <= j < u128::MAX ==> #[trigger] batch_taken(
                old(used_paths)@,
                occupied,
                root@,
                relative_directory@,
                base_name@,
                extension@,
                j,
            ),
{
    let base = str_to_chars(base_name);
    let ext = str_to_chars(extension);
    let dir = str_to_chars(relative_directory);
    let root_chars = str_to_chars(root);
    let stem = match file_name_of(&base) {
        Some(n) => stem_of(&n),
        None => Vec::new(),
    };
    let mut index: u128 = 1;
    while index < u128::MAX
        invariant
            1 <= index,
            used_paths@ == old(used_paths)@,
            base@ == base_name@,
            ext@ == extension@,
            dir@ == relative_directory@,
            root_chars@ == root@,
            stem@ == match file_stem_spec(base_name@) {
                Some(s) => s,
                None => Seq::<char>::empty(),
            },
            forall|p: Vec<char>| #[trigger] call_requires(occupied, (p,)),
            forall|j: int|
                1 <= j < index ==> #[trigger] batch_taken(
                    old(used_paths)@,
                    occupied,
                    root@,
                    relative_directory@,
                    base_name@,
                    extension@,
                    j,
                ),
        decreases u128::MAX - index,
    {
        let mut file_name: Vec<char> = Vec::new();
        if index == 1 {
            push_chars(&mut file_name, &base);
        } else {
            push_chars(&mut file_name, &stem);
            file_name.push('-');
            crate::fmt::push_decimal(&mut file_name, index);
            file_name.push('.');
            push_chars(&mut file_name, &ext);
        }
        assert(file_name@ =~= batch_file_name(base_name@, extension@, index as int));
        let candidate = join(&dir, &file_name);
        let text = string_from_chars(&candidate);
        let mut taken = false;
        let mut k: usize = 0;
        while k < used_paths.len()
            invariant
                k <= used_paths@.len(),
                !taken ==> forall|j: int| 0 <= j < k ==> used_paths@[j]@ != text@,
                taken ==> exists|j: int| 0 <= j < k && used_paths@[j]@ == text@,
            decreases used_paths@.len() - k,
        {
            if used_paths[k] == text {
                taken = true;
            }
            k += 1;
        }
        if taken {
            assert(batch_taken(
                old(used_paths)@,
                occupied,
                root@,
                relative_directory@,
                base_name@,
                extension@,
                index as int,
            ));
        } else {
            let on_disk = join(&root_chars, &candidate);
            let ghost disk = on_disk@;
            let found = occupied(on_disk);
            if !found {
                let result = text.clone();
                assert(!among_used(old(used_paths)@, result@));
                assert(result@ == batch_candidate(relative_directory@, base_name@, extension@, index as int));
                used_paths.push(text);
                assert(said_occupied(occupied, join_spec(root@, result@), false));
                assert(final(used_paths)@ == old(used_paths)@.push(result)) by {
                    assert(used_paths@ == old(used_paths)@.push(result));
                }
                return Some(result);
            }
            assert(said_occupied(occupied, disk, true));
            assert(batch_taken(
                old(used_paths)@,
                occupied,
                root@,
                relative_directory@,
                base_name@,
                extension@,
                index as int,
            ));
        }
        index += 1;
    }
    None
}

/// A path for a batch output in `relative_directory` that no earlier output
/// took, found by `first_free_batch_path` with what exists on disk under
/// `root` as the occupied paths; the path joins the used ones. What exists
/// on disk is not known here, so only that the path is a candidate that was
/// not used before is stated.
pub fn unique_batch_path(
    root: &str,
    relative_directory: &str,
    base_name: &str,
    extension: &str,
    used_paths: &mut Vec<String>,
) -> (r: Option<String>)
    ensures
        r matches Some(path) ==> ({
            &&& !(exists|k: int| 0 <= k < old(used_paths)@.len() && old(used_paths)@[k]@ == path@)
            &&& final(used_paths)@ == old(used_paths)@.push(path)
            &&& exists|index: int| 1 <= index && path@ == join_spec(
                relative_directory@,
                batch_file_name(base_name@, extension@, index),
            )
        }),
        r is None ==> final(used_paths)@ == old(used_paths)@,
{
    first_free_batch_path(root, relative_directory, base_name, extension, used_paths, |p: Vec<char>| path_exists(p.as_slice()))
}


/// Checks that a request can be written to a directory as a batch: it must
/// export every selected source, and have at least one.
pub fn check_batch_request(request: &ExportRequest) -> (r: Result<(), NativeBatchExportError>)
    ensures
        request.mode == ExportMode::SingleFile ==> (r matches Err(NativeBatchExportError::InvalidRequest(e))
            && e@ == "Native batch export requires all-files mode"@),
        request.mode == ExportMode::AllFiles && request.targets@.len() == 0 ==> (r matches Err(
            NativeBatchExportError::InvalidRequest(e),
        ) && e@ == "Native batch export requires at least one export source"@),
        request.mode == ExportMode::AllFiles && request.targets@.len() > 0 ==> r is Ok,
{
    match request.mode {
        ExportMode::SingleFile => Err(
            NativeBatchExportError::InvalidRequest("Native batch export requires all-files mode".to_string()),
        ),
        ExportMode::AllFiles => {
            if request.targets.len() == 0 {
                Err(
                    NativeBatchExportError::InvalidRequest(
                        "Native batch export requires at least one export source".to_string(),
                    ),
                )
            } else {
                Ok(())
            }
        },
    }
}

/// Where one encoded source of a batch goes: the directory relative to
/// the export root, the path relative to it, and the file name the path
/// started from.
pub struct BatchOutput {
    pub relative_directory: String,
    pub relative_path: String,
    pub base_name: String,
}

/// The directory relative to the export root of a source whose path checks.
pub open spec fn source_directory(source: ExportSource) -> Seq<char> {
    match source.relative_path {
        Some(rel) => rel@,
        None => Seq::empty(),
    }
}

/// The file name an encoded source is first offered under: its stem and the
/// extension of the encoding.
pub open spec fn batch_base_name(source: ExportSource, extension: Seq<char>) -> Seq<char> {
    match file_stem_spec(source.input_name@) {
        Some(stem) => stem + seq!['.'] + extension,
        None => Seq::empty(),
    }
}

/// Plans where one encoded source of a batch export is written under
/// `root`: its relative directory is checked, the stem of its name with the
/// encoding's extension is the base name, and the first candidate that
/// neither an earlier output took nor `occupied` reports as occupied is the
/// path (see `first_free_batch_path`), which joins the used ones.
pub fn plan_batch_output<F: Fn(Vec<char>) -> bool>(
    root: &str,
    source: &ExportSource,
    extension: &str,
    used_paths: &mut Vec<String>,
    occupied: F,
) -> (r: Result<BatchOutput, NativeBatchExportError>)
    requires
        forall|p: Vec<char>| #[trigger] call_requires(occupied, (p,)),
    ensures
        !one_file_name(source.input_name@) ==> (r matches Err(
            NativeBatchExportError::InvalidSourcePath { source: s, reason },
        ) && s@ == source.input_name@ && reason@ == "input name must be one relative file name"@),
        one_file_name(source.input_name@) && (source.relative_path matches Some(rel) && !stays_inside(rel@))
            ==> (r matches Err(NativeBatchExportError::InvalidSourcePath { source: s, reason }) && s@
            == source.input_name@ && reason@ == "relative directory escapes export root: "@
            + source.relative_path->0@),
        one_file_name(source.input_name@) && !(source.relative_path matches Some(rel) && !stays_inside(rel@))
            && file_stem_spec(source.input_name@) is None ==> (r matches Err(
            NativeBatchExportError::InvalidSourcePath { source: s, reason },
        ) && s@ == source.input_name@ && reason@ == "file name has no stem"@),
        one_file_name(source.input_name@) && !(source.relative_path matches Some(rel) && !stays_inside(rel@))
            && file_stem_spec(source.input_name@) is Some ==> (r is Ok || (r matches Err(
            NativeBatchExportError::InvalidSourcePath { source: s, reason },
        ) && s@ == source.input_name@ && reason@ == "every numbered file name is taken"@ && forall|j: int|
            1 <= j < u128::MAX ==> #[trigger] batch_taken(
                old(used_paths)@,
                occupied,
                root@,
                source_directory(*source),
                batch_base_name(*source, extension@),
                extension@,
                j,
            ))),
        r is Err ==> final(used_paths)@ == old(used_paths)@,
        r matches Ok(out) ==> ({
            &&& out.relative_directory@ == source_directory(*source)
            &&& out.base_name@ == batch_base_name(*source, extension@)
            &&& !(exists|k: int| 0 <= k < old(used_paths)@.len() && old(used_paths)@[k]@ == out.relative_path@)
            &&& final(used_paths)@ == old(used_paths)@.push(out.relative_path)
            &&& exists|index: int|
                1 <= index < u128::MAX && out.relative_path@ == batch_candidate(
                    source_directory(*source),
                    out.base_name@,
                    extension@,
                    index,
                ) && said_occupied(occupied, join_spec(root@, out.relative_path@), false) && forall|j: int|
                    1 <= j < index ==> #[trigger] batch_taken(
                        old(used_paths)@,
                        occupied,
                        root@,
                        source_directory(*source),
                        out.base_name@,
                        extension@,
                        j,
                    )
        }),
{
    let directory = match safe_relative_directory(source) {
        Ok(d) => d,
        Err(e) => {
            return Err(e);
        },
    };
    let name = str_to_chars(source.input_name.as_str());
    let stem = match file_name_of(&name) {
        Some(n) => stem_of(&n),
        None => {
            return Err(
                NativeBatchExportError::InvalidSourcePath {
                    source: source.input_name.clone(),
                    reason: "file name has no stem".to_string(),
                },
            );
        },
    };
    let mut base: Vec<char> = Vec::new();
    push_chars(&mut base, &stem);
    base.push('.');
    crate::fmt::push_str(&mut base, extension);
    let base_name = string_from_chars(&base);
    assert(directory@ == source_directory(*source));
    assert(base_name@ == batch_base_name(*source, extension@));
    match first_free_batch_path(root, directory.as_str(), base_name.as_str(), extension, used_paths, occupied) {
        Some(path) => {
            let out = BatchOutput { relative_directory: directory, relative_path: path, base_name };
            assert(out.relative_directory@ == source_directory(*source));
            assert(out.base_name@ == batch_base_name(*source, extension@));
            assert(!(exists|k: int| 0 <= k < old(used_paths)@.len() && old(used_paths)@[k]@ == out.relative_path@));
            assert(final(used_paths)@ == old(used_paths)@.push(out.relative_path));
            Ok(out)
        },
        None => Err(
            NativeBatchExportError::InvalidSourcePath {
                source: source.input_name.clone(),
                reason: "every numbered file name is taken".to_string(),
            },
        ),
    }
}

/// Plans where one encoded source of a batch export is written under
/// `root`, as `plan_batch_output` does with what exists on disk as the
/// occupied paths. What exists on disk is not known here, so only that the
/// path is a candidate not used before is stated of it.
pub fn batch_output_path(root: &str, source: &ExportSource, extension: &str, used_paths: &mut Vec<String>) -> (r:
    Result<BatchOutput, NativeBatchExportError>)
    ensures
        !one_file_name(source.input_name@) ==> (r matches Err(
            NativeBatchExportError::InvalidSourcePath { source: s, reason },
        ) && s@ == source.input_name@ && reason@ == "input name must be one relative file name"@),
        one_file_name(source.input_name@) && (source.relative_path matches Some(rel) && !stays_inside(rel@))
            ==> (r matches Err(NativeBatchExportError::InvalidSourcePath { source: s, reason }) && s@
            == source.input_name@ && reason@ == "relative directory escapes export root: "@
            + source.relative_path->0@),
        one_file_name(source.input_name@) && !(source.relative_path matches Some(rel) && !stays_inside(rel@))
            && file_stem_spec(source.input_name@) is None ==> (r matches Err(
            NativeBatchExportError::InvalidSourcePath { source: s, reason },
        ) && s@ == source.input_name@ && reason@ == "file name has no stem"@),
        one_file_name(source.input_name@) && !(source.relative_path matches Some(rel) && !stays_inside(rel@))
            && file_stem_spec(source.input_name@) is Some ==> (r is Ok || (r matches Err(
            NativeBatchExportError::InvalidSourcePath { source: s, reason },
        ) && s@ == source.input_name@ && reason@ == "every numbered file name is taken"@)),
        r is Err ==> final(used_paths)@ == old(used_paths)@,
        r matches Ok(out) ==> ({
            &&& out.relative_directory@ == source_directory(*source)
            &&& out.base_name@ == batch_base_name(*source, extension@)
            &&& !(exists|k: int| 0 <= k < old(used_paths)@.len() && old(used_paths)@[k]@ == out.relative_path@)
            &&& final(used_paths)@ == old(used_paths)@.push(out.relative_path)
            &&& exists|index: int| 1 <= index && out.relative_path@ == join_spec(
                source_directory(*source),
                batch_file_name(out.base_name@, extension@, index),
            )
        }),
{
    plan_batch_output(root, source, extension, used_paths, |p: Vec<char>| path_exists(p.as_slice()))
}

/// The file name of candidate `index` for an archive entry: the stem and
/// extension, numbered from 2 on.
pub open spec fn zip_file_name(stem: Seq<char>, extension: Seq<char>, index: int) -> Seq<char> {
    if index == 1 {
        stem + seq!['.'] + extension
    } else {
        stem + seq!['-'] + decimal(index as nat) + seq!['.'] + extension
    }
}

/// Candidate `index` for an archive entry in the directory.
pub open spec fn zip_candidate(directory: Seq<char>, stem: Seq<char>, extension: Seq<char>, index: int) -> Seq<char> {
    if directory.len() == 0 {
        zip_file_name(stem, extension, index)
    } else {
        directory + seq!['/'] + zip_file_name(stem, extension, index)
    }
}

/// Candidate `index` for the archive entry of an export source: in its
/// directory (slashes only), its stem numbered, with the extension.
pub open spec fn source_zip_candidate(source: ExportSource, extension: Seq<char>, index: int) -> Seq<char> {
    let directory = match source.relative_path {
        Some(rel) => forward_slashes(rel@),
        None => Seq::<char>::empty(),
    };
    let stem = match file_stem_spec(source.input_name@) {
        Some(s) => s,
        None => Seq::<char>::empty(),
    };
    zip_candidate(directory, stem, extension, index)
}

/// A path with every backslash turned into a slash.
pub open spec fn forward_slashes(path: Seq<char>) -> Seq<char> {
    Seq::new(path.len(), |i: int| if path[i] == '\\' { '/' } else { path[i] })
}

/// Whether every candidate before `index` is among the used paths.
pub open spec fn taken_below(used: Seq<String>, source: ExportSource, extension: Seq<char>, index: int) -> bool {
    forall|j: int| 1 <= j < index ==> exists|k: int| 0 <= k < used.len()
        && used[k]@ == #[trigger] source_zip_candidate(source, extension, j)
}

/// Different indices give different archive candidates.
proof fn lemma_zip_candidate_injective(source: ExportSource, extension: Seq<char>, i: int, j: int)
    requires
        1 <= i,
        1 <= j,
        source_zip_candidate(source, extension, i) == source_zip_candidate(source, extension, j),
    ensures
        i == j,
{
    let directory = match source.relative_path {
        Some(rel) => forward_slashes(rel@),
        None => Seq::<char>::empty(),
    };
    let stem = match file_stem_spec(source.input_name@) {
        Some(s) => s,
        None => Seq::<char>::empty(),
    };
    let fi = zip_file_name(stem, extension, i);
    let fj = zip_file_name(stem, extension, j);
    let pre = if directory.len() == 0 {
        Seq::<char>::empty()
    } else {
        directory + seq!['/']
    };
    assert(source_zip_candidate(source, extension, i) == pre + fi);
    assert(source_zip_candidate(source, extension, j) == pre + fj);
    assert(fi == (pre + fi).skip(pre.len() as int));
    assert(fj == (pre + fj).skip(pre.len() as int));
    assert(fi == fj);
    let n = stem.len() as int;
    if i != j {
        if i == 1 || j == 1 {
            if i == 1 {
                assert(fi[n] == '.');
                assert(fj[n] == '-');
            } else {
                assert(fj[n] == '.');
                assert(fi[n] == '-');
            }
        } else {
            let di = crate::fmt::decimal(i as nat);
            let dj = crate::fmt::decimal(j as nat);
            assert(di.len() == dj.len());
            assert(di == fi.subrange(n + 1, n + 1 + di.len()));
            assert(dj == fj.subrange(n + 1, n + 1 + dj.len()));
            crate::fmt::lemma_decimal_injective(i as nat, j as nat);
        }
    }
}

/// When the first `n` candidates are all used, there are at least `n`
/// used paths.
proof fn lemma_taken_count(used: Seq<String>, source: ExportSource, extension: Seq<char>, n: int)
    requires
        0 <= n,
        taken_below(used, source, extension, n + 1),
    ensures
        n <= used.len(),
{
    let xs = vstd::set_lib::set_int_range(1, n + 1);
    let f = |j: int|
        choose|k: int| 0 <= k < used.len() && used[k]@ == source_zip_candidate(source, extension, j);
    vstd::set_lib::lemma_int_range(1, n + 1);
    vstd::set_lib::lemma_int_range(0, used.len() as int);
    assert forall|a: int, b: int| xs.contains(a) && xs.contains(b) && #[trigger] f(a) == #[trigger] f(b) implies a == b by {
        assert(exists|k: int| 0 <= k < used.len() && used[k]@ == #[trigger] source_zip_candidate(source, extension, a));
        assert(exists|k: int| 0 <= k < used.len() && used[k]@ == #[trigger] source_zip_candidate(source, extension, b));
        lemma_zip_candidate_injective(source, extension, a, b);
    }
    assert(vstd::relations::injective_on(f, xs));
    let ys = xs.map(f);
    vstd::set_lib::lemma_map_size(xs, ys, f);
    assert forall|k: int| ys.contains(k) implies vstd::set_lib::set_int_range(0, used.len() as int).contains(k) by {
        let a = choose|a: int| xs.contains(a) && f(a) == k;
        assert(exists|k: int| 0 <= k < used.len() && used[k]@ == #[trigger] source_zip_candidate(source, extension, a));
    }
    vstd::set_lib::lemma_len_subset(ys, vstd::set_lib::set_int_range(0, used.len() as int));
}

/// The path of an export source inside an archive: its directory (slashes
/// only) and its stem with the extension, numbered from 2 on until the path
/// is not among the used ones; the path joins them. The name must be one
/// relative file name and the directory must stay inside the archive; then
/// a path is always found.
pub fn zip_source_path(source: &ExportSource, extension: &str, used: &mut Vec<String>) -> (r: Result<String, String>)
    ensures
        !one_file_name(source.input_name@) ==> (r matches Err(e) && e@ == "Invalid export file name: "@
            + source.input_name@) && final(used)@ == old(used)@,
        one_file_name(source.input_name@) && (source.relative_path matches Some(rel) && !stays_inside(rel@))
            ==> (r matches Err(e) && e@ == "Invalid export directory: "@ + source.relative_path->0@)
            && final(used)@ == old(used)@,
        one_file_name(source.input_name@) && !(source.relative_path matches Some(rel) && !stays_inside(rel@))
            ==> r is Ok,
        r matches Ok(path) ==> ({
            let directory = match source.relative_path {
                Some(rel) => forward_slashes(rel@),
                None => Seq::<char>::empty(),
            };
            let stem = match file_stem_spec(source.input_name@) {
                Some(s) => s,
                None => Seq::<char>::empty(),
            };
            &&& one_file_name(source.input_name@)
            &&& !(exists|k: int| 0 <= k < old(used)@.len() && old(used)@[k]@ == path@)
            &&& final(used)@ == old(used)@.push(path)
            &&& exists|index: int| 1 <= index && path@ == #[trigger] source_zip_candidate(*source, extension@, index)
                && taken_below(old(used)@, *source, extension@, index)
        }),
{
    let name = str_to_chars(source.input_name.as_str());
    let (count, bad) = path_pieces(&name);
    if name.len() == 0 || is_absolute(&name) || bad || count != 1 {
        let mut message: Vec<char> = Vec::new();
        crate::fmt::push_str(&mut message, "Invalid export file name: ");
        push_chars(&mut message, &name);
        return Err(string_from_chars(&message));
    }
    let mut directory: Vec<char> = Vec::new();
    match &source.relative_path {
        Some(rel) => {
            let chars = str_to_chars(rel.as_str());
            let (_, escape) = path_pieces(&chars);
            if is_absolute(&chars) || escape {
                let mut message: Vec<char> = Vec::new();
                crate::fmt::push_str(&mut message, "Invalid export directory: ");
                push_chars(&mut message, &chars);
                return Err(string_from_chars(&message));
            }
            let mut i: usize = 0;
            while i < chars.len()
                invariant
                    i <= chars@.len(),
                    directory@ == forward_slashes(chars@.take(i as int)),
                decreases chars@.len() - i,
            {
                let c = if chars[i] == '\\' {
                    '/'
                } else {
                    chars[i]
                };
                directory.push(c);
                i += 1;
                assert(directory@ =~= forward_slashes(chars@.take(i as int)));
            }
            assert(chars@.take(chars@.len() as int) == chars@);
        },
        None => {},
    }
    let stem = match file_name_of(&name) {
        Some(n) => stem_of(&n),
        None => Vec::new(),
    };
    let ext = str_to_chars(extension);
    let limit: u128 = used.len() as u128 + 1;
    let mut index: u128 = 1;
    while index <= limit
        invariant
            1 <= index <= limit + 1,
            limit == old(used)@.len() + 1,
            used@ == old(used)@,
            one_file_name(source.input_name@),
            source.relative_path matches Some(rel) ==> stays_inside(rel@),
            ext@ == extension@,
            stem@ == match file_stem_spec(source.input_name@) {
                Some(s) => s,
                None => Seq::<char>::empty(),
            },
            directory@ == match source.relative_path {
                Some(rel) => forward_slashes(rel@),
                None => Seq::<char>::empty(),
            },
            taken_below(used@, *source, extension@, index as int),
        decreases limit + 1 - index,
    {
        let mut file: Vec<char> = Vec::new();
        push_chars(&mut file, &stem);
        if index != 1 {
            file.push('-');
            crate::fmt::push_decimal(&mut file, index);
        }
        file.push('.');
        push_chars(&mut file, &ext);
        assert(file@ =~= zip_file_name(stem@, extension@, index as int));
        let mut candidate: Vec<char> = Vec::new();
        if directory.len() > 0 {
            push_chars(&mut candidate, &directory);
            candidate.push('/');
        }
        push_chars(&mut candidate, &file);
        let text = string_from_chars(&candidate);
        let mut taken = false;
        let mut k: usize = 0;
        while k < used.len()
            invariant
                k <= used@.len(),
                !taken ==> forall|j: int| 0 <= j < k ==> used@[j]@ != text@,
                taken ==> exists|j: int| 0 <= j < k && used@[j]@ == text@,
            decreases used@.len() - k,
        {
            if used[k] == text {
                taken = true;
            }
            k += 1;
        }
        let ghost d = match &source.relative_path {
            Some(rel) => forward_slashes(rel@),
            None => Seq::<char>::empty(),
        };
        let ghost st = match file_stem_spec(source.input_name@) {
            Some(x) => x,
            None => Seq::<char>::empty(),
        };
        assert(text@ == source_zip_candidate(*source, extension@, index as int)) by {
            assert(text@ == zip_candidate(directory@, stem@, extension@, index as int));
            assert(d == directory@);
            assert(st == stem@);
        }
        if !taken {
            let result = text.clone();
            assert(!(exists|j: int| 0 <= j < used@.len() && used@[j]@ == result@));
            used.push(text);
            assert(used@ == old(used)@.push(result));
            assert(taken_below(old(used)@, *source, extension@, index as int));
            return Ok(result);
        }
        index += 1;
    }
    proof {
        lemma_taken_count(old(used)@, *source, extension@, limit as int);
    }
    Err("Every numbered name is taken".to_string())
}

} // verus!
