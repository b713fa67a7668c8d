//! Animated WebP writer: frames are composited onto the canvas, encoded one by
//! one as lossless still images, and their `VP8L` chunks are wrapped in `ANMF`
//! chunks of an extended RIFF/WebP container.
use vstd::prelude::*;
use crate::bytes::{le16, le24, le32, le32_at, le32_value, push_bytes, push_le16, push_le24, push_le32};
use crate::fmt::{decimal, push_decimal, push_str};
use crate::image_item::{Color32, Frame};
use crate::text::string_from_chars;
use image::ImageEncoder;

verus! {

/// The largest value of a 24-bit field.
pub const MAX_U24: u32 = 0x00ff_ffff;

/// The bytes `RIFF`.
pub open spec fn tag_riff() -> Seq<u8> {
    seq![0x52u8, 0x49, 0x46, 0x46]
}

/// The bytes `WEBP`.
pub open spec fn tag_webp() -> Seq<u8> {
    seq![0x57u8, 0x45, 0x42, 0x50]
}

/// The bytes `VP8L`.
pub open spec fn tag_vp8l() -> Seq<u8> {
    seq![0x56u8, 0x50, 0x38, 0x4c]
}

/// The bytes `VP8 `.
pub open spec fn tag_vp8() -> Seq<u8> {
    seq![0x56u8, 0x50, 0x38, 0x20]
}

/// The bytes `ALPH`.
pub open spec fn tag_alph() -> Seq<u8> {
    seq![0x41u8, 0x4c, 0x50, 0x48]
}

/// The bytes `VP8X`.
pub open spec fn tag_vp8x() -> Seq<u8> {
    seq![0x56u8, 0x50, 0x38, 0x58]
}

/// The bytes `ANIM`.
pub open spec fn tag_anim() -> Seq<u8> {
    seq![0x41u8, 0x4e, 0x49, 0x4d]
}

/// The bytes `ANMF`.
pub open spec fn tag_anmf() -> Seq<u8> {
    seq![0x41u8, 0x4e, 0x4d, 0x46]
}

/// A RIFF chunk: tag, little-endian payload size, payload, and a pad byte
/// after a payload of odd length.
pub open spec fn chunk_bytes(fourcc: Seq<u8>, payload: Seq<u8>) -> Seq<u8> {
    fourcc + le32(payload.len() as int) + payload + (if payload.len() % 2 == 1 {
        seq![0u8]
    } else {
        Seq::<u8>::empty()
    })
}

/// Why a chunk with a payload of `payload_len` bytes cannot follow `out_len`
/// bytes of container, if it cannot.
pub open spec fn write_chunk_error(out_len: int, payload_len: int) -> Option<Seq<char>> {
    let added = 8 + payload_len + payload_len % 2;
    if payload_len > 0xffff_ffff {
        Some("WebP chunk exceeds 32 bits"@)
    } else if added > usize::MAX {
        Some("WebP chunk size overflow"@)
    } else if out_len + added > usize::MAX || out_len + added > 0xffff_ffff {
        Some("WebP container exceeds the RIFF size limit"@)
    } else {
        None
    }
}

/// Appends a RIFF chunk to the container being written.
pub fn write_chunk(output: &mut Vec<u8>, fourcc: &[u8; 4], payload: &[u8]) -> (r: Result<(), String>)
    ensures
        r matches Err(e) ==> write_chunk_error(old(output)@.len() as int, payload@.len() as int)
            == Some(e@) && final(output)@ == old(output)@,
        r is Ok ==> write_chunk_error(old(output)@.len() as int, payload@.len() as int) is None
            && final(output)@ == old(output)@ + chunk_bytes(fourcc@, payload@),
{
    if payload.len() > 0xffff_ffff {
        return Err("WebP chunk exceeds 32 bits".to_owned());
    }
    let size = payload.len() as u32;
    let pad = payload.len() % 2;
    if payload.len() > usize::MAX - 8 - pad {
        return Err("WebP chunk size overflow".to_owned());
    }
    let added = 8 + payload.len() + pad;
    if output.len() > usize::MAX - added || output.len() + added > 0xffff_ffff {
        return Err("WebP container exceeds the RIFF size limit".to_owned());
    }
    push_bytes(output, fourcc);
    push_le32(output, size);
    push_bytes(output, payload);
    if pad != 0 {
        output.push(0);
    }
    Ok(())
}

/// The message for a value that does not fit a 24-bit field.
pub open spec fn u24_error(value: int) -> Seq<char> {
    "Value does not fit in a WebP 24-bit field: "@ + decimal(value as nat)
}

/// Appends a 24-bit little-endian field.
pub fn write_u24(output: &mut Vec<u8>, value: u32) -> (r: Result<(), String>)
    ensures
        r matches Err(e) ==> value > MAX_U24 && e@ == u24_error(value as int) && final(output)@
            == old(output)@,
        r is Ok ==> value <= MAX_U24 && final(output)@ == old(output)@ + le24(value as int),
{
    if value > MAX_U24 {
        let mut msg: Vec<char> = Vec::new();
        push_str(&mut msg, "Value does not fit in a WebP 24-bit field: ");
        push_decimal(&mut msg, value as u128);
        return Err(string_from_chars(&msg));
    }
    push_le24(output, value);
    Ok(())
}

/// What reading a little-endian `u32` at `offset` gives.
pub open spec fn read_u32_spec(data: Seq<u8>, offset: int) -> Result<u32, Seq<char>> {
    let end = if offset + 4 > usize::MAX {
        usize::MAX as int
    } else {
        offset + 4
    };
    if end > data.len() {
        Err("Truncated WebP integer"@)
    } else if end - offset != 4 {
        Err("Invalid WebP integer"@)
    } else {
        Ok(le32_value(data.subrange(offset, offset + 4)) as u32)
    }
}

/// Reads a little-endian `u32` at `offset`.
pub fn read_u32(data: &[u8], offset: usize) -> (r: Result<u32, String>)
    ensures
        r matches Ok(v) ==> read_u32_spec(data@, offset as int) == Ok::<u32, Seq<char>>(v),
        r matches Err(e) ==> read_u32_spec(data@, offset as int) == Err::<u32, Seq<char>>(e@),
{
    let end = offset.saturating_add(4);
    if end > data.len() {
        return Err("Truncated WebP integer".to_owned());
    }
    if end - offset != 4 {
        return Err("Invalid WebP integer".to_owned());
    }
    let v = le32_at(data, offset);
    Ok(v)
}

/// The message for a canvas or frame dimension outside `1..=2^24`.
pub open spec fn dimension_error(label: Seq<char>, value: int) -> Seq<char> {
    "Invalid WebP "@ + label + ": "@ + decimal(value as nat)
}

/// Dimensions that a WebP canvas or frame can have.
pub open spec fn valid_dimension(value: int) -> bool {
    1 <= value <= MAX_U24 + 1
}

/// Checks that a canvas or frame dimension lies in `1..=2^24`.
pub fn validate_dimension(value: u32, label: &str) -> (r: Result<(), String>)
    ensures
        r is Ok <==> valid_dimension(value as int),
        r matches Err(e) ==> e@ == dimension_error(label@, value as int),
{
    if value == 0 || value > MAX_U24 + 1 {
        let mut msg: Vec<char> = Vec::new();
        push_str(&mut msg, "Invalid WebP ");
        push_str(&mut msg, label);
        push_str(&mut msg, ": ");
        push_decimal(&mut msg, value as u128);
        proof {
            assert(msg@ == dimension_error(label@, value as int));
        }
        Err(string_from_chars(&msg))
    } else {
        Ok(())
    }
}

/// A delay in nanoseconds, rounded to the nearest millisecond and at least one.
pub open spec fn rounded_millis(nanos: int) -> int {
    let m = (nanos + 500_000) / 1_000_000;
    if m < 1 {
        1
    } else {
        m
    }
}

/// A rounded delay is at least one millisecond, and from half a
/// millisecond on it is the whole number of milliseconds nearest to the
/// delay (halves rounded up).
pub proof fn lemma_rounded_millis_nearest(nanos: int)
    requires
        nanos >= 0,
    ensures
        rounded_millis(nanos) >= 1,
        nanos >= 500_000 ==> rounded_millis(nanos) * 1_000_000 <= nanos + 500_000 < rounded_millis(nanos)
            * 1_000_000 + 1_000_000,
{
    let m = (nanos + 500_000) / 1_000_000;
    assert(m * 1_000_000 <= nanos + 500_000 < m * 1_000_000 + 1_000_000) by (nonlinear_arith)
        requires
            m == (nanos + 500_000) / 1_000_000,
            nanos >= 0,
    ;
    if nanos >= 500_000 {
        assert(m >= 1) by (nonlinear_arith)
            requires
                m * 1_000_000 + 1_000_000 > nanos + 500_000,
                nanos >= 500_000,
        ;
    }
}

/// What converting a frame delay to a 24-bit millisecond count gives.
pub open spec fn duration_ms_spec(nanos: int) -> Result<u32, Seq<char>> {
    if nanos + 500_000 > u128::MAX {
        Err("WebP frame duration overflow"@)
    } else if rounded_millis(nanos) > MAX_U24 {
        Err("WebP frame duration exceeds 24 bits: "@ + decimal(rounded_millis(nanos) as nat)
            + " ms"@)
    } else {
        Ok(rounded_millis(nanos) as u32)
    }
}

/// Converts a frame delay in nanoseconds to whole milliseconds for the `ANMF`
/// duration field.
pub fn duration_ms(delay: u128) -> (r: Result<u32, String>)
    ensures
        r matches Ok(v) ==> duration_ms_spec(delay as int) == Ok::<u32, Seq<char>>(v),
        r matches Err(e) ==> duration_ms_spec(delay as int) == Err::<u32, Seq<char>>(e@),
{
    if delay > u128::MAX - 500_000 {
        return Err("WebP frame duration overflow".to_owned());
    }
    let mut millis = (delay + 500_000) / 1_000_000;
    if millis < 1 {
        millis = 1;
    }
    if millis > MAX_U24 as u128 {
        let mut msg: Vec<char> = Vec::new();
        push_str(&mut msg, "WebP frame duration exceeds 24 bits: ");
        push_decimal(&mut msg, millis);
        push_str(&mut msg, " ms");
        return Err(string_from_chars(&msg));
    }
    Ok(millis as u32)
}

/// What scanning the chunks of a still WebP from `offset` on gives: the one
/// `VP8L` chunk (header, payload and padding), or the first defect found.
pub open spec fn scan_chunks(data: Seq<u8>, offset: int, found: Option<Seq<u8>>) -> Result<
    Seq<u8>,
    Seq<char>,
>
    decreases data.len() - offset,
{
    if offset >= data.len() || offset < 0 {
        match found {
            Some(c) => Ok(c),
            None => Err("Static WebP contains no VP8L image chunk"@),
        }
    } else if offset + 8 > usize::MAX {
        Err("WebP chunk header overflow"@)
    } else if offset + 8 > data.len() {
        Err("Truncated WebP chunk header"@)
    } else {
        let size = le32_value(data.subrange(offset + 4, offset + 8));
        let padded = size + size % 2;
        let end = offset + 8 + padded;
        if padded > usize::MAX {
            Err("WebP chunk size overflow"@)
        } else if end > usize::MAX {
            Err("WebP chunk bounds overflow"@)
        } else if end > data.len() {
            Err("Truncated WebP chunk payload"@)
        } else {
            let tag = data.subrange(offset, offset + 4);
            if tag == tag_vp8l() {
                if found is Some {
                    Err("Static WebP contains multiple VP8L chunks"@)
                } else {
                    scan_chunks(data, end, Some(data.subrange(offset, end)))
                }
            } else if tag == tag_vp8() || tag == tag_alph() {
                Err("Static WebP contains incompatible lossy image chunks"@)
            } else {
                scan_chunks(data, end, found)
            }
        }
    }
}

/// What extracting the image chunk of a still lossless WebP file gives.
pub open spec fn extract_image_chunk_spec(data: Seq<u8>) -> Result<Seq<u8>, Seq<char>> {
    if data.len() < 12 || data.take(4) != tag_riff() || data.subrange(8, 12) != tag_webp() {
        Err("Static WebP encoder returned an invalid RIFF header"@)
    } else {
        let declared = le32_value(data.subrange(4, 8));
        if declared + 8 > usize::MAX {
            Err("Static WebP RIFF size overflow"@)
        } else if declared + 8 != data.len() {
            Err("Static WebP RIFF size does not match its payload"@)
        } else {
            scan_chunks(data, 12, None)
        }
    }
}

/// The bytes an optional buffer holds.
pub open spec fn opt_bytes(o: Option<Vec<u8>>) -> Option<Seq<u8>> {
    match o {
        Some(c) => Some(c@),
        None => None,
    }
}

fn is_tag(data: &[u8], at: usize, tag: &[u8; 4]) -> (b: bool)
    requires
        at + 4 <= data.len(),
    ensures
        b == (data@.subrange(at as int, at + 4) == tag@),
{
    let b = data[at] == tag[0] && data[at + 1] == tag[1] && data[at + 2] == tag[2] && data[at + 3]
        == tag[3];
    proof {
        if !b {
            let s = data@.subrange(at as int, at + 4);
            if data[at as int] != tag[0] {
                assert(s[0] != tag@[0]);
            } else if data[at + 1] != tag[1] {
                assert(s[1] != tag@[1]);
            } else if data[at + 2] != tag[2] {
                assert(s[2] != tag@[2]);
            } else {
                assert(s[3] != tag@[3]);
            }
        } else {
            assert(data@.subrange(at as int, at + 4) =~= tag@);
        }
    }
    b
}

/// Takes the `VP8L` chunk out of a still lossless WebP file, checking that the
/// RIFF size is exact, that the chunks fill it, and that no lossy or second
/// image chunk is present.
pub fn extract_image_chunk(data: &[u8]) -> (r: Result<Vec<u8>, String>)
    ensures
        r matches Ok(c) ==> extract_image_chunk_spec(data@) == Ok::<Seq<u8>, Seq<char>>(c@),
        r matches Err(e) ==> extract_image_chunk_spec(data@) == Err::<Seq<u8>, Seq<char>>(e@),
{
    let riff: [u8; 4] = [0x52, 0x49, 0x46, 0x46];
    let webp: [u8; 4] = [0x57, 0x45, 0x42, 0x50];
    let vp8l: [u8; 4] = [0x56, 0x50, 0x38, 0x4c];
    let vp8: [u8; 4] = [0x56, 0x50, 0x38, 0x20];
    let alph: [u8; 4] = [0x41, 0x4c, 0x50, 0x48];
    assert(riff@ == tag_riff());
    assert(webp@ == tag_webp());
    assert(vp8l@ == tag_vp8l());
    assert(vp8@ == tag_vp8());
    assert(alph@ == tag_alph());
    if data.len() < 12 || !is_tag(data, 0, &riff) || !is_tag(data, 8, &webp) {
        proof {
            if data.len() >= 12 {
                assert(data@.subrange(0, 4) == data@.take(4));
            }
        }
        return Err("Static WebP encoder returned an invalid RIFF header".to_owned());
    }
    assert(data@.subrange(0, 4) == data@.take(4));
    let declared = le32_at(data, 4) as usize;
    if declared > usize::MAX - 8 {
        return Err("Static WebP RIFF size overflow".to_owned());
    }
    let riff_end = declared + 8;
    if riff_end != data.len() {
        return Err("Static WebP RIFF size does not match its payload".to_owned());
    }
    let mut offset: usize = 12;
    let mut image_chunk: Option<Vec<u8>> = None;
    while offset < riff_end
        invariant
            riff_end == data.len(),
            vp8l@ == tag_vp8l(),
            vp8@ == tag_vp8(),
            alph@ == tag_alph(),
            12 <= offset,
            offset <= riff_end,
            extract_image_chunk_spec(data@) == scan_chunks(
                data@,
                offset as int,
                opt_bytes(image_chunk),
            ),
        decreases riff_end - offset,
    {
        if offset > usize::MAX - 8 {
            return Err("WebP chunk header overflow".to_owned());
        }
        let header_end = offset + 8;
        if header_end > data.len() {
            return Err("Truncated WebP chunk header".to_owned());
        }
        let size = le32_at(data, offset + 4) as usize;
        let pad = size % 2;
        if size > usize::MAX - pad {
            return Err("WebP chunk size overflow".to_owned());
        }
        let padded = size + pad;
        if header_end > usize::MAX - padded {
            return Err("WebP chunk bounds overflow".to_owned());
        }
        let chunk_end = header_end + padded;
        if chunk_end > data.len() {
            return Err("Truncated WebP chunk payload".to_owned());
        }
        if is_tag(data, offset, &vp8l) {
            if image_chunk.is_some() {
                return Err("Static WebP contains multiple VP8L chunks".to_owned());
            }
            let chunk = vstd::slice::slice_to_vec(&data[offset..chunk_end]);
            image_chunk = Some(chunk);
        } else if is_tag(data, offset, &vp8) || is_tag(data, offset, &alph) {
            return Err("Static WebP contains incompatible lossy image chunks".to_owned());
        }
        offset = chunk_end;
    }
    match image_chunk {
        Some(c) => Ok(c),
        None => Err("Static WebP contains no VP8L image chunk".to_owned()),
    }
}


/// Component `c` (0 red, 1 green, 2 blue, 3 alpha) of a pixel.
pub open spec fn component(p: Color32, c: int) -> u8 {
    if c == 0 {
        p.r
    } else if c == 1 {
        p.g
    } else if c == 2 {
        p.b
    } else {
        p.a
    }
}

/// Byte `i` of the RGBA canvas, `width` pixels wide, onto which `frame` is
/// drawn at its offset: the frame's pixel where the frame covers the canvas,
/// zero (transparent black) elsewhere.
pub open spec fn canvas_byte(frame: Frame, width: int, i: int) -> u8 {
    let p = i / 4;
    let c = i % 4;
    let x = p % width;
    let y = p / width;
    if frame.left <= x < frame.left + frame.width && frame.top <= y < frame.top + frame.height {
        component(frame.pixels@[(y - frame.top) * frame.width + (x - frame.left)], c)
    } else {
        0
    }
}

/// The RGBA bytes of a `width` x `height` canvas with `frame` drawn on it.
pub open spec fn composite(frame: Frame, width: int, height: int) -> Seq<u8> {
    Seq::new((width * height * 4) as nat, |i: int| canvas_byte(frame, width, i))
}

/// The message for a frame that does not fit on the canvas.
pub open spec fn frame_bounds_error(frame: Frame, width: int, height: int) -> Seq<char> {
    "WebP frame "@ + decimal(frame.width as nat) + "x"@ + decimal(frame.height as nat) + " at "@
        + decimal(frame.left as nat) + ","@ + decimal(frame.top as nat) + " exceeds the "@
        + decimal(width as nat) + "x"@ + decimal(height as nat) + " canvas"@
}

/// The message for a frame whose pixel count disagrees with its size.
pub open spec fn pixel_count_error(expected: int, got: int) -> Seq<char> {
    "Invalid WebP frame pixel count: expected "@ + decimal(expected as nat) + ", got "@ + decimal(
        got as nat,
    )
}

/// What drawing a frame onto a `width` x `height` canvas gives.
pub open spec fn normalize_frame_spec(frame: Frame, width: int, height: int) -> Result<
    Seq<u8>,
    Seq<char>,
> {
    if !valid_dimension(frame.width as int) {
        Err(dimension_error("frame width"@, frame.width as int))
    } else if !valid_dimension(frame.height as int) {
        Err(dimension_error("frame height"@, frame.height as int))
    } else if frame.left + frame.width > u32::MAX {
        Err("WebP frame horizontal bounds overflow"@)
    } else if frame.top + frame.height > u32::MAX {
        Err("WebP frame vertical bounds overflow"@)
    } else if frame.left + frame.width > width || frame.top + frame.height > height {
        Err(frame_bounds_error(frame, width, height))
    } else if frame.width * frame.height > usize::MAX {
        Err("WebP frame pixel count overflow"@)
    } else if frame.pixels@.len() != frame.width * frame.height {
        Err(pixel_count_error(frame.width * frame.height, frame.pixels@.len() as int))
    } else if width * height > usize::MAX || width * height * 4 > usize::MAX {
        Err("WebP canvas byte count overflow"@)
    } else {
        Ok(composite(frame, width, height))
    }
}

proof fn lemma_pixel_position(i: int, count: int, c: int, width: int, row: int, col: int)
    requires
        width > 0,
        0 <= c < 4,
        0 <= col < width,
        0 <= row,
        count == row * width + col,
        i == count * 4 + c,
    ensures
        i / 4 == count,
        i % 4 == c,
        count % width == col,
        count / width == row,
{
    vstd::arithmetic::div_mod::lemma_fundamental_div_mod_converse(i, 4, count, c);
    vstd::arithmetic::div_mod::lemma_fundamental_div_mod_converse(count, width, row, col);
}

proof fn lemma_frame_index_bound(row: int, col: int, fw: int, fh: int)
    requires
        0 <= row < fh,
        0 <= col < fw,
    ensures
        0 <= row * fw + col < fw * fh,
{
    assert(row * fw + col < fw * fh) by (nonlinear_arith)
        requires
            0 <= row < fh,
            0 <= col < fw,
    ;
    assert(row * fw >= 0) by (nonlinear_arith)
        requires
            0 <= row,
            0 <= col < fw,
    ;
}

/// Draws a frame onto a zeroed canvas of the given size, as RGBA bytes,
/// rejecting frames with bad dimensions, frames that do not fit, and pixel
/// buffers of the wrong length.
pub fn normalize_frame(frame: &Frame, width: u32, height: u32) -> (r: Result<Vec<u8>, String>)
    ensures
        r matches Ok(b) ==> normalize_frame_spec(*frame, width as int, height as int) == Ok::<
            Seq<u8>,
            Seq<char>,
        >(b@),
        r matches Err(e) ==> normalize_frame_spec(*frame, width as int, height as int) == Err::<
            Seq<u8>,
            Seq<char>,
        >(e@),
{
    validate_dimension(frame.width, "frame width")?;
    validate_dimension(frame.height, "frame height")?;
    if frame.left > u32::MAX - frame.width {
        return Err("WebP frame horizontal bounds overflow".to_owned());
    }
    if frame.top > u32::MAX - frame.height {
        return Err("WebP frame vertical bounds overflow".to_owned());
    }
    let right = frame.left + frame.width;
    let bottom = frame.top + frame.height;
    if right > width || bottom > height {
        let mut msg: Vec<char> = Vec::new();
        push_str(&mut msg, "WebP frame ");
        push_decimal(&mut msg, frame.width as u128);
        push_str(&mut msg, "x");
        push_decimal(&mut msg, frame.height as u128);
        push_str(&mut msg, " at ");
        push_decimal(&mut msg, frame.left as u128);
        push_str(&mut msg, ",");
        push_decimal(&mut msg, frame.top as u128);
        push_str(&mut msg, " exceeds the ");
        push_decimal(&mut msg, width as u128);
        push_str(&mut msg, "x");
        push_decimal(&mut msg, height as u128);
        push_str(&mut msg, " canvas");
        return Err(string_from_chars(&msg));
    }
    let fw = frame.width as usize;
    let fh = frame.height as usize;
    let expected = fw.checked_mul(fh);
    let expected = match expected {
        Some(e) => e,
        None => {
            return Err("WebP frame pixel count overflow".to_owned());
        },
    };
    if frame.pixels.len() != expected {
        let mut msg: Vec<char> = Vec::new();
        push_str(&mut msg, "Invalid WebP frame pixel count: expected ");
        push_decimal(&mut msg, expected as u128);
        push_str(&mut msg, ", got ");
        push_decimal(&mut msg, frame.pixels.len() as u128);
        return Err(string_from_chars(&msg));
    }
    let cw = width as usize;
    let ch = height as usize;
    let area = match cw.checked_mul(ch) {
        Some(a) => a,
        None => {
            return Err("WebP canvas byte count overflow".to_owned());
        },
    };
    let byte_len = match area.checked_mul(4) {
        Some(b) => b,
        None => {
            return Err("WebP canvas byte count overflow".to_owned());
        },
    };
    let ghost total = composite(*frame, width as int, height as int);
    let left = frame.left as usize;
    let top = frame.top as usize;
    let mut out: Vec<u8> = Vec::with_capacity(byte_len);
    let mut row: usize = 0;
    assert(width > 0);
    while row < ch
        invariant
            row <= ch,
            cw == width as usize,
            ch == height as usize,
            cw > 0,
            left == frame.left as usize,
            top == frame.top as usize,
            left + fw <= cw,
            top + fh <= ch,
            fw == frame.width as usize,
            fh == frame.height as usize,
            frame.pixels@.len() == fw * fh,
            frame.pixels@.len() == expected,
            byte_len == cw * ch * 4,
            total == composite(*frame, width as int, height as int),
            total.len() == byte_len,
            out@.len() == row * cw * 4,
            forall|i: int| 0 <= i < out@.len() ==> out@[i] == #[trigger] total[i],
        decreases ch - row,
    {
        let mut col: usize = 0;
        assert((row + 1) * cw * 4 <= cw * ch * 4) by (nonlinear_arith)
            requires
                row < ch,
                cw > 0,
        ;
        assert((row + 1) * cw * 4 == row * cw * 4 + cw * 4) by (nonlinear_arith);
        while col < cw
            invariant
                row < ch,
                col <= cw,
                cw == width as usize,
                ch == height as usize,
                cw > 0,
                left == frame.left as usize,
                top == frame.top as usize,
                left + fw <= cw,
                top + fh <= ch,
                fw == frame.width as usize,
                fh == frame.height as usize,
                frame.pixels@.len() == fw * fh,
                frame.pixels@.len() == expected,
                byte_len == cw * ch * 4,
                total == composite(*frame, width as int, height as int),
                total.len() == byte_len,
                (row + 1) * cw * 4 <= byte_len,
                (row + 1) * cw * 4 == row * cw * 4 + cw * 4,
                out@.len() == (row * cw + col) * 4,
                forall|i: int| 0 <= i < out@.len() ==> out@[i] == #[trigger] total[i],
            decreases cw - col,
        {
            let ghost count = row * cw + col;
            assert((row * cw + col) * 4 + 4 <= (row + 1) * cw * 4) by (nonlinear_arith)
                requires
                    col < cw,
            ;
            let inside = left <= col && col < left + fw && top <= row && row < top + fh;
            let px: [u8; 4] = if inside {
                proof {
                    lemma_frame_index_bound((row - top) as int, (col - left) as int, fw as int, fh as int);
                    assert(((row - top) * fw) as int + (col - left) < frame.pixels@.len());
                }
                let idx = (row - top) * fw + (col - left);
                frame.pixels[idx].to_array()
            } else {
                [0u8, 0, 0, 0]
            };
            let ghost before = out@;
            let mut c: usize = 0;
            while c < 4
                invariant
                    c <= 4,
                    out@.len() == before.len() + c,
                    before.len() == count * 4,
                    count == row * cw + col,
                    col < cw,
                    cw > 0,
                    forall|i: int| 0 <= i < before.len() ==> out@[i] == before[i],
                    forall|k: int| 0 <= k < c ==> out@[before.len() + k] == px@[k],
                decreases 4 - c,
            {
                out.push(px[c]);
                c += 1;
            }
            proof {
                assert forall|i: int| 0 <= i < out@.len() implies out@[i] == #[trigger] total[i] by {
                    if i >= before.len() {
                        let k = i - before.len();
                        lemma_pixel_position(i, count, k, cw as int, row as int, col as int);
                        if inside {
                            let idx = (row - top) * fw + (col - left);
                            assert(px@[k] == component(frame.pixels@[idx], k));
                        }
                    } else {
                        assert(out@[i] == before[i]);
                    }
                }
            }
            col += 1;
        }
        row += 1;
    }
    proof {
        assert(row * cw * 4 == cw * ch * 4) by (nonlinear_arith)
            requires
                row == ch,
        ;
        assert(out@ =~= total);
    }
    Ok(out)
}

/// The still lossless WebP file that the `image` crate's WebP encoder writes
/// for RGBA pixels of the given size, or its error message.
pub uninterp spec fn lossless_webp(pixels: Seq<u8>, width: u32, height: u32) -> Result<
    Seq<u8>,
    Seq<char>,
>;

/// Encodes RGBA pixels as a still lossless WebP file.
///
/// Trusted: `image::codecs::webp::WebPEncoder::new_lossless` followed by
/// `ImageEncoder::write_image` with `ExtendedColorType::Rgba8` into a fresh
/// buffer. The encoder is deterministic, so its file (or the text of its error)
/// is named `lossless_webp` of the arguments. It panics unless the buffer holds
/// exactly `width * height * 4` bytes, which the `requires` demands.
#[verifier::external_body]
fn encode_lossless_webp(pixels: &[u8], width: u32, height: u32) -> (r: Result<Vec<u8>, String>)
    requires
        pixels@.len() == width * height * 4,
    ensures
        r matches Ok(v) ==> (lossless_webp(pixels@, width, height) matches Ok(f) && f == v@),
        r matches Err(e) ==> (lossless_webp(pixels@, width, height) matches Err(m) && m == e@),
{
    let mut encoded = Vec::new();
    image::codecs::webp::WebPEncoder::new_lossless(&mut encoded).write_image(
        pixels,
        width,
        height,
        image::ExtendedColorType::Rgba8,
    ).map(|_| encoded).map_err(|error| error.to_string())
}

/// The message for an RGBA buffer of the wrong length.
pub open spec fn rgba_count_error(expected: int, got: int) -> Seq<char> {
    "Invalid WebP RGBA byte count: expected "@ + decimal(expected as nat) + ", got "@ + decimal(
        got as nat,
    )
}

/// What encoding a canvas as a lossless image chunk gives.
pub open spec fn image_chunk_spec(pixels: Seq<u8>, width: u32, height: u32) -> Result<
    Seq<u8>,
    Seq<char>,
> {
    let expected = width * height * 4;
    if expected > u64::MAX || expected > usize::MAX {
        Err("WebP frame byte count overflow"@)
    } else if pixels.len() != expected {
        Err(rgba_count_error(expected, pixels.len() as int))
    } else {
        match lossless_webp(pixels, width, height) {
            Err(e) => Err(e),
            Ok(file) => extract_image_chunk_spec(file),
        }
    }
}

/// Encodes a canvas losslessly and returns its `VP8L` chunk.
pub fn encode_image_chunk(pixels: &[u8], width: u32, height: u32) -> (r: Result<Vec<u8>, String>)
    ensures
        r matches Ok(c) ==> image_chunk_spec(pixels@, width, height) == Ok::<Seq<u8>, Seq<char>>(
            c@,
        ),
        r matches Err(e) ==> image_chunk_spec(pixels@, width, height) == Err::<Seq<u8>, Seq<char>>(
            e@,
        ),
{
    assert(width * height <= 0xffff_ffff * 0xffff_ffff) by (nonlinear_arith)
        requires
            width <= 0xffff_ffff,
            height <= 0xffff_ffff,
    ;
    let area = (width as u64) * (height as u64);
    if area > u64::MAX / 4 {
        return Err("WebP frame byte count overflow".to_owned());
    }
    let expected64 = area * 4;
    if expected64 > usize::MAX as u64 {
        return Err("WebP frame byte count overflow".to_owned());
    }
    let expected = expected64 as usize;
    if pixels.len() != expected {
        let mut msg: Vec<char> = Vec::new();
        push_str(&mut msg, "Invalid WebP RGBA byte count: expected ");
        push_decimal(&mut msg, expected as u128);
        push_str(&mut msg, ", got ");
        push_decimal(&mut msg, pixels.len() as u128);
        return Err(string_from_chars(&msg));
    }
    let encoded = encode_lossless_webp(pixels, width, height)?;
    extract_image_chunk(&encoded)
}

/// Whether some pixel of an RGBA buffer is not fully opaque.
pub open spec fn has_alpha_bytes(px: Seq<u8>) -> bool {
    exists|k: int| 0 <= k < px.len() / 4 && #[trigger] px[4 * k + 3] != 255
}

fn has_transparent_pixel(px: &[u8]) -> (b: bool)
    ensures
        b == has_alpha_bytes(px@),
{
    let n = px.len() / 4;
    let mut k: usize = 0;
    while k < n
        invariant
            k <= n,
            n == px.len() / 4,
            forall|j: int| 0 <= j < k ==> #[trigger] px@[4 * j + 3] == 255,
        decreases n - k,
    {
        if px[4 * k + 3] != 255 {
            return true;
        }
        k += 1;
    }
    false
}

/// The delay a frame is shown for: its own, or `interval` when it has none.
pub open spec fn frame_delay(f: Frame, interval: u128) -> u128 {
    if f.delay == 0 {
        interval
    } else {
        f.delay
    }
}

/// One encoded animation frame: its duration in milliseconds and its `VP8L` chunk.
pub type EncodedFrame = (u32, Seq<u8>);

/// What encoding one frame of the animation gives.
pub open spec fn encode_frame_spec(f: Frame, width: u32, height: u32, interval: u128) -> Result<
    EncodedFrame,
    Seq<char>,
> {
    match normalize_frame_spec(f, width as int, height as int) {
        Err(e) => Err(e),
        Ok(px) => match duration_ms_spec(frame_delay(f, interval) as int) {
            Err(e) => Err(e),
            Ok(d) => match image_chunk_spec(px, width, height) {
                Err(e) => Err(e),
                Ok(c) => Ok((d, c)),
            },
        },
    }
}

/// What encoding the frames in order gives: all of them, or the first failure.
pub open spec fn encode_frames_spec(
    frames: Seq<Frame>,
    width: u32,
    height: u32,
    interval: u128,
) -> Result<Seq<EncodedFrame>, Seq<char>>
    decreases frames.len(),
{
    if frames.len() == 0 {
        Ok(Seq::empty())
    } else {
        match encode_frames_spec(frames.drop_last(), width, height, interval) {
            Err(e) => Err(e),
            Ok(prev) => match encode_frame_spec(frames.last(), width, height, interval) {
                Err(e) => Err(e),
                Ok(x) => Ok(prev.push(x)),
            },
        }
    }
}

/// Every frame of an encoded animation lasts its own delay rounded to the
/// nearest millisecond (at least one), and a frame without a delay lasts the
/// interval so rounded.
pub proof fn lemma_frame_durations(frames: Seq<Frame>, width: u32, height: u32, interval: u128)
    ensures
        encode_frames_spec(frames, width, height, interval) matches Ok(items) ==> {
            &&& items.len() == frames.len()
            &&& forall|k: int|
                0 <= k < frames.len() && (#[trigger] frames[k]).delay == 0 ==> items[k].0 == rounded_millis(
                    interval as int,
                )
            &&& forall|k: int|
                0 <= k < frames.len() && (#[trigger] frames[k]).delay != 0 ==> items[k].0 == rounded_millis(
                    frames[k].delay as int,
                )
        },
    decreases frames.len(),
{
    if frames.len() > 0 {
        let init = frames.drop_last();
        lemma_frame_durations(init, width, height, interval);
        if let Ok(items) = encode_frames_spec(frames, width, height, interval) {
            if let Ok(prev) = encode_frames_spec(init, width, height, interval) {
                if let Ok(x) = encode_frame_spec(frames.last(), width, height, interval) {
                    assert(items == prev.push(x));
                    let f = frames.last();
                    let delay = if f.delay == 0 {
                        interval
                    } else {
                        f.delay
                    };
                    assert(frame_delay(f, interval) == delay);
                    assert(duration_ms_spec(delay as int) == Ok::<u32, Seq<char>>(x.0));
                    assert(x.0 == rounded_millis(delay as int));
                    assert(frames[frames.len() - 1] == f);
                    assert forall|k: int| 0 <= k < frames.len() - 1 implies #[trigger] frames[k] == init[k] by {}
                }
            }
        }
    }
}

/// A failure while encoding the first `n` frames is the failure of encoding them all.
proof fn lemma_encode_frames_failure(frames: Seq<Frame>, n: int, width: u32, height: u32, interval: u128)
    requires
        0 <= n <= frames.len(),
        encode_frames_spec(frames.take(n), width, height, interval) is Err,
    ensures
        encode_frames_spec(frames, width, height, interval) == encode_frames_spec(
            frames.take(n),
            width,
            height,
            interval,
        ),
    decreases frames.len() - n,
{
    if n < frames.len() {
        let t = frames.take(n + 1);
        assert(t.drop_last() == frames.take(n));
        lemma_encode_frames_failure(frames, n + 1, width, height, interval);
    } else {
        assert(frames.take(n) == frames);
    }
}

/// Whether some frame, drawn onto the canvas, has a pixel that is not fully opaque.
pub open spec fn frames_transparent(frames: Seq<Frame>, width: u32, height: u32) -> bool {
    exists|k: int|
        0 <= k < frames.len() && (#[trigger] normalize_frame_spec(frames[k], width as int, height as int)
            matches Ok(px) && has_alpha_bytes(px))
}

/// The `VP8X` payload: animation flag (and alpha flag), then canvas size minus one.
pub open spec fn vp8x_payload(width: u32, height: u32, alpha: bool) -> Seq<u8> {
    seq![if alpha {
        0x12u8
    } else {
        0x02u8
    }, 0u8, 0u8, 0u8] + le24(width - 1) + le24(height - 1)
}

/// The `ANIM` payload: background colour zero and the loop count.
pub open spec fn anim_payload(loop_count: u16) -> Seq<u8> {
    seq![0u8, 0u8, 0u8, 0u8] + le16(loop_count as int)
}

/// The `ANMF` payload of a full-canvas frame that replaces the previous one.
pub open spec fn anmf_payload(width: u32, height: u32, duration: u32, image: Seq<u8>) -> Seq<u8> {
    le24(0) + le24(0) + le24(width - 1) + le24(height - 1) + le24(duration as int) + seq![0x02u8]
        + image
}

/// Appending a chunk to a container under construction.
pub open spec fn append_chunk(acc: Result<Seq<u8>, Seq<char>>, fourcc: Seq<u8>, payload: Seq<u8>) -> Result<
    Seq<u8>,
    Seq<char>,
> {
    match acc {
        Err(e) => Err(e),
        Ok(out) => match write_chunk_error(out.len() as int, payload.len() as int) {
            Some(e) => Err(e),
            None => Ok(out + chunk_bytes(fourcc, payload)),
        },
    }
}

/// Appending the `ANMF` chunks of the encoded frames, in order.
pub open spec fn anmf_chunks(
    acc: Result<Seq<u8>, Seq<char>>,
    items: Seq<EncodedFrame>,
    width: u32,
    height: u32,
) -> Result<Seq<u8>, Seq<char>>
    decreases items.len(),
{
    if items.len() == 0 {
        acc
    } else {
        append_chunk(
            anmf_chunks(acc, items.drop_last(), width, height),
            tag_anmf(),
            anmf_payload(width, height, items.last().0, items.last().1),
        )
    }
}

proof fn lemma_anmf_chunks_failure(
    acc: Result<Seq<u8>, Seq<char>>,
    items: Seq<EncodedFrame>,
    n: int,
    width: u32,
    height: u32,
)
    requires
        0 <= n <= items.len(),
        anmf_chunks(acc, items.take(n), width, height) is Err,
    ensures
        anmf_chunks(acc, items, width, height) == anmf_chunks(acc, items.take(n), width, height),
    decreases items.len() - n,
{
    if n < items.len() {
        assert(items.take(n + 1).drop_last() == items.take(n));
        lemma_anmf_chunks_failure(acc, items, n + 1, width, height);
    } else {
        assert(items.take(n) == items);
    }
}

/// A RIFF/WebP file holding the given chunks.
pub open spec fn riff_file(chunks: Seq<u8>) -> Seq<u8> {
    tag_riff() + le32(chunks.len() + 4int) + tag_webp() + chunks
}

/// The `VP8X` and `ANIM` chunks that open the animation.
pub open spec fn animation_header(width: u32, height: u32, alpha: bool, loop_count: u16) -> Result<
    Seq<u8>,
    Seq<char>,
> {
    append_chunk(
        append_chunk(Ok(Seq::empty()), tag_vp8x(), vp8x_payload(width, height, alpha)),
        tag_anim(),
        anim_payload(loop_count),
    )
}

/// What encoding an animation gives: the WebP file, or the first failure.
pub open spec fn encode_spec(frames: Seq<Frame>, interval: u128, loop_count: u16) -> Result<
    Seq<u8>,
    Seq<char>,
> {
    if frames.len() == 0 {
        Err("Cannot encode an empty WebP animation"@)
    } else {
        let width = frames[0].width;
        let height = frames[0].height;
        if !valid_dimension(width as int) {
            Err(dimension_error("canvas width"@, width as int))
        } else if !valid_dimension(height as int) {
            Err(dimension_error("canvas height"@, height as int))
        } else {
            match encode_frames_spec(frames, width, height, interval) {
                Err(e) => Err(e),
                Ok(items) => {
                    let header = animation_header(
                        width,
                        height,
                        frames_transparent(frames, width, height),
                        loop_count,
                    );
                    match anmf_chunks(header, items, width, height) {
                        Err(e) => Err(e),
                        Ok(chunks) => {
                            if chunks.len() + 4 > usize::MAX || chunks.len() + 4 > u32::MAX {
                                Err("WebP animation exceeds the RIFF size limit"@)
                            } else if chunks.len() + 12 > usize::MAX {
                                Err("WebP animation size overflow"@)
                            } else {
                                Ok(riff_file(chunks))
                            }
                        },
                    }
                },
            }
        }
    }
}

/// The encoded frames as a sequence.
pub open spec fn encoded_items(durations: Seq<u32>, images: Seq<Vec<u8>>) -> Seq<EncodedFrame> {
    Seq::new(durations.len(), |k: int| (durations[k], images[k]@))
}

/// Encodes every frame in order; also reports whether any is transparent.
fn encode_frames(frames: &[Frame], width: u32, height: u32, interval: u128) -> (r: Result<
    (Vec<u32>, Vec<Vec<u8>>, bool),
    String,
>)
    ensures
        r matches Ok((d, imgs, alpha)) ==> d@.len() == imgs@.len() && encode_frames_spec(
            frames@,
            width,
            height,
            interval,
        ) == Ok::<Seq<EncodedFrame>, Seq<char>>(encoded_items(d@, imgs@)) && alpha
            == frames_transparent(frames@, width, height) && forall|j: int|
            0 <= j < d@.len() ==> #[trigger] d@[j] <= MAX_U24,
        r matches Ok((d, imgs, alpha)) ==> d@.len() == frames@.len() && forall|k: int|
            0 <= k < d@.len() ==> #[trigger] d@[k] == rounded_millis(
                if frames@[k].delay == 0 {
                    interval as int
                } else {
                    frames@[k].delay as int
                },
            ),
        r matches Err(e) ==> encode_frames_spec(frames@, width, height, interval) == Err::<
            Seq<EncodedFrame>,
            Seq<char>,
        >(e@),
{
    let mut durations: Vec<u32> = Vec::new();
    let mut images: Vec<Vec<u8>> = Vec::new();
    let mut has_alpha = false;
    let mut i: usize = 0;
    assert(encoded_items(durations@, images@) == Seq::<EncodedFrame>::empty());
    while i < frames.len()
        invariant
            i <= frames.len(),
            durations@.len() == i,
            images@.len() == i,
            encode_frames_spec(frames@.take(i as int), width, height, interval) == Ok::<
                Seq<EncodedFrame>,
                Seq<char>,
            >(encoded_items(durations@, images@)),
            has_alpha == frames_transparent(frames@.take(i as int), width, height),
            forall|j: int| 0 <= j < durations@.len() ==> #[trigger] durations@[j] <= MAX_U24,
        decreases frames.len() - i,
    {
        let frame = &frames[i];
        let ghost prefix = frames@.take(i as int);
        let ghost next = frames@.take(i + 1);
        assert(next.drop_last() == prefix);
        assert(next.last() == frames@[i as int]);
        let pixels = match normalize_frame(frame, width, height) {
            Ok(p) => p,
            Err(e) => {
                proof {
                    lemma_encode_frames_failure(frames@, i + 1, width, height, interval);
                }
                return Err(e);
            },
        };
        let transparent = has_transparent_pixel(&pixels);
        let delay = if frame.delay == 0 {
            interval
        } else {
            frame.delay
        };
        let d = match duration_ms(delay) {
            Ok(d) => d,
            Err(e) => {
                proof {
                    lemma_encode_frames_failure(frames@, i + 1, width, height, interval);
                }
                return Err(e);
            },
        };
        let c = match encode_image_chunk(&pixels, width, height) {
            Ok(c) => c,
            Err(e) => {
                proof {
                    lemma_encode_frames_failure(frames@, i + 1, width, height, interval);
                }
                return Err(e);
            },
        };
        let ghost old_items = encoded_items(durations@, images@);
        let ghost old_durations = durations@;
        durations.push(d);
        images.push(c);
        has_alpha = has_alpha || transparent;
        proof {
            assert(encoded_items(durations@, images@) == old_items.push((d, images@[i as int]@)));
            assert forall|j: int| 0 <= j < durations@.len() implies #[trigger] durations@[j] <= MAX_U24 by {
                if j < i {
                    assert(durations@[j] == old_durations[j]);
                }
            }
            let w = width as int;
            let h = height as int;
            if has_alpha {
                if transparent {
                    assert(next[i as int] == frames@[i as int]);
                    assert(normalize_frame_spec(next[i as int], w, h) matches Ok(px) && has_alpha_bytes(px));
                } else {
                    let k = choose|k: int|
                        0 <= k < prefix.len() && (#[trigger] normalize_frame_spec(prefix[k], w, h) matches Ok(
                            px,
                        ) && has_alpha_bytes(px));
                    assert(next[k] == prefix[k]);
                }
            }
            if frames_transparent(next, width, height) {
                let k = choose|k: int|
                    0 <= k < next.len() && (#[trigger] normalize_frame_spec(next[k], w, h) matches Ok(px)
                        && has_alpha_bytes(px));
                if k < i {
                    assert(next[k] == prefix[k]);
                }
            }
        }
        i += 1;
    }
    assert(frames@.take(frames.len() as int) == frames@);
    proof {
        lemma_frame_durations(frames@, width, height, interval);
        let items = encoded_items(durations@, images@);
        assert forall|k: int| 0 <= k < durations@.len() implies #[trigger] durations@[k] == rounded_millis(
            if frames@[k].delay == 0 {
                interval as int
            } else {
                frames@[k].delay as int
            },
        ) by {
            assert(items[k].0 == durations@[k]);
            if frames@[k].delay == 0 {
                assert(items[k].0 == rounded_millis(interval as int));
            } else {
                assert(items[k].0 == rounded_millis(frames@[k].delay as int));
            }
        }
    }
    Ok((durations, images, has_alpha))
}

/// Appends one `ANMF` chunk per encoded frame.
fn write_frame_chunks(chunks: &mut Vec<u8>, durations: &Vec<u32>, images: &Vec<Vec<u8>>, width: u32, height: u32) -> (r: Result<(), String>)
    requires
        durations@.len() == images@.len(),
        valid_dimension(width as int),
        valid_dimension(height as int),
        forall|j: int| 0 <= j < durations@.len() ==> #[trigger] durations@[j] <= MAX_U24,
        old(chunks)@.len() >= 32,
    ensures
        r is Ok ==> anmf_chunks(Ok(old(chunks)@), encoded_items(durations@, images@), width, height)
            == Ok::<Seq<u8>, Seq<char>>(final(chunks)@),
        r matches Err(e) ==> anmf_chunks(Ok(old(chunks)@), encoded_items(durations@, images@), width, height)
            == Err::<Seq<u8>, Seq<char>>(e@),
        final(chunks)@.len() >= old(chunks)@.len(),
        final(chunks)@.subrange(0, 32) == old(chunks)@.subrange(0, 32),
{
    let anmf_tag: [u8; 4] = [0x41, 0x4e, 0x4d, 0x46];
    assert(anmf_tag@ == tag_anmf());
    let ghost start = chunks@;
    let ghost items = encoded_items(durations@, images@);
    let mut k: usize = 0;
    assert(items.take(0) == Seq::<EncodedFrame>::empty());
    while k < images.len()
        invariant
            k <= images.len(),
            durations@.len() == images@.len(),
            items == encoded_items(durations@, images@),
            anmf_tag@ == tag_anmf(),
            valid_dimension(width as int),
            valid_dimension(height as int),
            forall|j: int| 0 <= j < durations@.len() ==> #[trigger] durations@[j] <= MAX_U24,
            anmf_chunks(Ok(start), items.take(k as int), width, height) == Ok::<Seq<u8>, Seq<char>>(
                chunks@,
            ),
            start == old(chunks)@,
            start.len() >= 32,
            chunks@.len() >= start.len(),
            chunks@.subrange(0, 32) == start.subrange(0, 32),
        decreases images.len() - k,
    {
        let mut anmf: Vec<u8> = Vec::new();
        push_le24(&mut anmf, 0);
        push_le24(&mut anmf, 0);
        push_le24(&mut anmf, width - 1);
        push_le24(&mut anmf, height - 1);
        push_le24(&mut anmf, durations[k]);
        anmf.push(0x02);
        push_bytes(&mut anmf, &images[k]);
        assert(items.take(k + 1).drop_last() == items.take(k as int));
        assert(items.take(k + 1).last() == items[k as int]);
        assert(anmf@ == anmf_payload(width, height, durations@[k as int], images@[k as int]@));
        let ghost before = chunks@;
        match write_chunk(chunks, &anmf_tag, &anmf) {
            Ok(()) => {},
            Err(e) => {
                proof {
                    lemma_anmf_chunks_failure(Ok(start), items, k + 1, width, height);
                }
                return Err(e);
            },
        }
        assert(chunks@.subrange(0, 32) == before.subrange(0, 32));
        k += 1;
    }
    assert(items.take(images.len() as int) == items);
    Ok(())
}

/// The `VP8X` and `ANIM` chunks that open an animation.
fn animation_header_bytes(width: u32, height: u32, has_alpha: bool, loop_count: u16) -> (r: Vec<u8>)
    requires
        valid_dimension(width as int),
        valid_dimension(height as int),
    ensures
        animation_header(width, height, has_alpha, loop_count) == Ok::<Seq<u8>, Seq<char>>(r@),
        r@.len() == 32,
        r@.subrange(30, 32) == le16(loop_count as int),
{
    let vp8x_tag: [u8; 4] = [0x56, 0x50, 0x38, 0x58];
    let anim_tag: [u8; 4] = [0x41, 0x4e, 0x49, 0x4d];
    assert(vp8x_tag@ == tag_vp8x());
    assert(anim_tag@ == tag_anim());
    let mut vp8x: Vec<u8> = Vec::new();
    vp8x.push(if has_alpha {
        0x12u8
    } else {
        0x02u8
    });
    vp8x.push(0);
    vp8x.push(0);
    vp8x.push(0);
    push_le24(&mut vp8x, width - 1);
    push_le24(&mut vp8x, height - 1);
    assert(vp8x@ == vp8x_payload(width, height, has_alpha));
    let mut anim: Vec<u8> = Vec::new();
    anim.push(0);
    anim.push(0);
    anim.push(0);
    anim.push(0);
    push_le16(&mut anim, loop_count);
    assert(anim@ == anim_payload(loop_count));
    let mut chunks: Vec<u8> = Vec::new();
    push_bytes(&mut chunks, &vp8x_tag);
    push_le32(&mut chunks, 10);
    push_bytes(&mut chunks, &vp8x);
    let ghost first = chunks@;
    assert(first == chunk_bytes(tag_vp8x(), vp8x@));
    assert(Seq::<u8>::empty() + first == first);
    push_bytes(&mut chunks, &anim_tag);
    push_le32(&mut chunks, 6);
    push_bytes(&mut chunks, &anim);
    assert(chunks@ == first + chunk_bytes(tag_anim(), anim@));
    assert(chunks@.subrange(30, 32) == anim@.subrange(4, 6));
    chunks
}

/// What wrapping chunks in a RIFF/WebP header gives.
pub open spec fn wrap_riff_spec(chunks: Seq<u8>) -> Result<Seq<u8>, Seq<char>> {
    if chunks.len() + 4 > usize::MAX || chunks.len() + 4 > u32::MAX {
        Err("WebP animation exceeds the RIFF size limit"@)
    } else if chunks.len() + 12 > usize::MAX {
        Err("WebP animation size overflow"@)
    } else {
        Ok(riff_file(chunks))
    }
}

/// Puts the RIFF/WebP header in front of the chunks.
fn wrap_riff(chunks: &Vec<u8>) -> (r: Result<Vec<u8>, String>)
    ensures
        r matches Ok(b) ==> wrap_riff_spec(chunks@) == Ok::<Seq<u8>, Seq<char>>(b@)
            && le32_value(b@.subrange(4, 8)) + 8 == b@.len() && b@.subrange(12, b@.len() as int)
            == chunks@,
        r matches Err(e) ==> wrap_riff_spec(chunks@) == Err::<Seq<u8>, Seq<char>>(e@),
{
    let total = chunks.len();
    if total > usize::MAX - 4 || total + 4 > 0xffff_ffff {
        return Err("WebP animation exceeds the RIFF size limit".to_owned());
    }
    if total > usize::MAX - 12 {
        return Err("WebP animation size overflow".to_owned());
    }
    let riff_size = (total + 4) as u32;
    let riff_tag: [u8; 4] = [0x52, 0x49, 0x46, 0x46];
    let webp_tag: [u8; 4] = [0x57, 0x45, 0x42, 0x50];
    let mut output: Vec<u8> = Vec::with_capacity(total + 12);
    push_bytes(&mut output, &riff_tag);
    push_le32(&mut output, riff_size);
    push_bytes(&mut output, &webp_tag);
    push_bytes(&mut output, chunks);
    proof {
        assert(riff_tag@ == tag_riff());
        assert(webp_tag@ == tag_webp());
        assert(output@ == riff_file(chunks@));
        assert(output@.subrange(4, 8) == le32(riff_size as int));
        crate::bytes::lemma_le32_roundtrip(riff_size as int);
        assert(output@.subrange(12, output@.len() as int) == chunks@);
    }
    Ok(output)
}

/// Encodes an animation as an animated WebP file: every frame is drawn onto
/// the first frame's canvas, encoded losslessly and shown for its own delay (or
/// `interval` nanoseconds when it has none); the animation repeats
/// `loop_count` times (zero: without end).
#[verifier::spinoff_prover]
#[verifier::rlimit(100)]
pub fn encode(frames: &[Frame], interval: u128, loop_count: u16) -> (r: Result<Vec<u8>, String>)
    ensures
        r matches Ok(b) ==> encode_spec(frames@, interval, loop_count) == Ok::<Seq<u8>, Seq<char>>(
            b@,
        ),
        r matches Err(e) ==> encode_spec(frames@, interval, loop_count) == Err::<Seq<u8>, Seq<char>>(
            e@,
        ),
        r matches Ok(b) ==> le32_value(b@.subrange(4, 8)) + 8 == b@.len(),
        r matches Ok(b) ==> b@.subrange(42, 44) == le16(loop_count as int),
{
    if frames.len() == 0 {
        return Err("Cannot encode an empty WebP animation".to_owned());
    }
    let width = frames[0].width;
    let height = frames[0].height;
    validate_dimension(width, "canvas width")?;
    validate_dimension(height, "canvas height")?;
    let (durations, images, has_alpha) = encode_frames(frames, width, height, interval)?;
    let mut chunks = animation_header_bytes(width, height, has_alpha, loop_count);
    let ghost header_bytes = chunks@;
    write_frame_chunks(&mut chunks, &durations, &images, width, height)?;
    let output = wrap_riff(&chunks)?;
    proof {
        assert(chunks@.subrange(30, 32) == chunks@.subrange(0, 32).subrange(30, 32));
        assert(header_bytes.subrange(30, 32) == header_bytes.subrange(0, 32).subrange(30, 32));
        assert(chunks@.subrange(30, 32) == header_bytes.subrange(30, 32));
        assert(output@.subrange(42, 44) == output@.subrange(12, output@.len() as int).subrange(30, 32));
    }
    Ok(output)
}

/// A still WebP file whose only chunk is a `VP8L` chunk gives that chunk back
/// when its image chunk is extracted.
pub proof fn lemma_extract_single_vp8l(payload: Seq<u8>)
    requires
        payload.len() + payload.len() % 2 + 12 <= u32::MAX,
        payload.len() + payload.len() % 2 + 20 <= usize::MAX,
    ensures
        extract_image_chunk_spec(riff_file(chunk_bytes(tag_vp8l(), payload))) == Ok::<
            Seq<u8>,
            Seq<char>,
        >(chunk_bytes(tag_vp8l(), payload)),
{
    let chunk = chunk_bytes(tag_vp8l(), payload);
    let data = riff_file(chunk);
    let n = payload.len() as int;
    assert(chunk.len() == 8 + n + n % 2);
    crate::bytes::lemma_le32_roundtrip(chunk.len() + 4int);
    crate::bytes::lemma_le32_roundtrip(n);
    assert(data.take(4) == tag_riff());
    assert(data.subrange(8, 12) == tag_webp());
    assert(data.subrange(4, 8) == le32(chunk.len() + 4int));
    assert(data.subrange(16, 20) == le32(n));
    assert(data.subrange(12, 16) == tag_vp8l());
    assert(data.subrange(12, data.len() as int) == chunk);
    let end = 12 + 8 + n + n % 2;
    assert(end == data.len());
    assert(scan_chunks(data, end, Some(chunk)) == Ok::<Seq<u8>, Seq<char>>(chunk));
}

} // verus!
