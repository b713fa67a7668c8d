//! Decoded images as the viewer holds them: pixels of still images and the
//! frames of animations, with the playback position of animations.
use vstd::prelude::*;

verus! {

/// One RGBA pixel, with components in the order red, green, blue, alpha.
#[derive(Clone, Copy, Debug, PartialEq, Eq, Structural)]
pub struct Color32 {
    pub r: u8,
    pub g: u8,
    pub b: u8,
    pub a: u8,
}

impl Color32 {
    /// The components as `[r, g, b, a]`.
    pub fn to_array(&self) -> (c: [u8; 4])
        ensures
            c@ == seq![self.r, self.g, self.b, self.a],
    {
        [self.r, self.g, self.b, self.a]
    }
}

/// One frame of an animation: a `width` x `height` patch of pixels placed at
/// (`left`, `top`) on the canvas and shown for `delay` nanoseconds.
#[derive(Clone, Debug, PartialEq, Eq)]
pub struct Frame {
    pub pixels: Vec<Color32>,
    pub width: u32,
    pub height: u32,
    pub left: u32,
    pub top: u32,
    pub delay: u128,
}


/// The decoder's description of an image: its size, the size of its data and
/// the name of its pixel format.
#[derive(Clone, Debug, PartialEq, Eq)]
pub struct ImageInfo {
    pub width: u32,
    pub height: u32,
    pub data_size: u64,
    pub format: String,
}

/// What kind of decoded data an image keeps beside its pixels.
#[derive(Clone, Copy, Debug, PartialEq, Eq, Structural)]
pub enum MiDataKind {
    Rgba,
    Indexed,
    Font,
    Path,
    Other,
}

/// The pixels of an image: one still picture, or the frames of an animation
/// with the playback position, whether it plays, and when (in nanoseconds on
/// the caller's clock) it last advanced.
#[derive(Clone, Debug, PartialEq, Eq)]
pub enum FrameSource {
    Single { pixels: Vec<Color32>, width: u32, height: u32 },
    Animated { frames: Vec<Frame>, current: usize, autoplay: bool, last_advance: Option<u128> },
}

/// The shortest time a frame is shown: one millisecond.
pub const MIN_FRAME_DELAY: u128 = 1_000_000;

/// The longest duration there is, in nanoseconds (`u64::MAX` seconds and
/// 999,999,999 nanoseconds).
pub const MAX_DURATION: u128 = 18_446_744_073_709_551_615_999_999_999;

/// How long a frame with the given delay is shown: at least a millisecond.
pub open spec fn shown_for(delay: u128) -> int {
    if delay < MIN_FRAME_DELAY {
        MIN_FRAME_DELAY as int
    } else {
        delay as int
    }
}

/// Playback from frame `current` with `remaining` nanoseconds to spend: while
/// the current frame exists and the time covers it, move to the next frame
/// (wrapping around). Gives the final frame and the time left over.
pub open spec fn play(frames: Seq<Frame>, current: int, remaining: int) -> (int, int)
    decreases remaining,
{
    if remaining >= 0 && 0 <= current < frames.len() && frames.len() > 1 && remaining >= shown_for(
        frames[current].delay,
    ) {
        play(
            frames,
            (current + 1) % (frames.len() as int),
            remaining - shown_for(frames[current].delay),
        )
    } else {
        (current, remaining)
    }
}

/// Saturating sum of frame delays, capped at `MAX_DURATION`.
pub open spec fn total_delay(frames: Seq<Frame>) -> int
    decreases frames.len(),
{
    if frames.len() == 0 {
        0
    } else {
        let rest = total_delay(frames.drop_last());
        if rest + frames.last().delay > MAX_DURATION {
            MAX_DURATION as int
        } else {
            rest + frames.last().delay
        }
    }
}

impl FrameSource {
    /// A still picture.
    pub fn single(pixels: Vec<Color32>, width: u32, height: u32) -> (s: Self)
        ensures
            s == (FrameSource::Single { pixels, width, height }),
    {
        FrameSource::Single { pixels, width, height }
    }

    /// An animation at its first frame, playing, not yet advanced.
    pub fn animated(frames: Vec<Frame>) -> (s: Self)
        ensures
            s == (FrameSource::Animated { frames, current: 0, autoplay: true, last_advance: None }),
    {
        FrameSource::Animated { frames, current: 0, autoplay: true, last_advance: None }
    }
}

/// An image of the workspace: where it came from, what the decoder said of
/// it, its size, its pixels and whether its frames are shown expanded.
#[derive(Clone, Debug, PartialEq, Eq)]
pub struct ImageItem {
    pub path: String,
    pub info: ImageInfo,
    pub width: u32,
    pub height: u32,
    pub frames: FrameSource,
    pub midata: Option<MiDataKind>,
    pub expanded: bool,
}

/// The frame an image shows: the still picture, or the current frame of an
/// animation (the first one when the position is out of range), or nothing.
pub open spec fn shown_pixels(frames: FrameSource) -> (Seq<Color32>, u32, u32) {
    match frames {
        FrameSource::Single { pixels, width, height } => (pixels@, width, height),
        FrameSource::Animated { frames, current, .. } => {
            if current < frames.len() {
                (frames@[current as int].pixels@, frames@[current as int].width, frames@[
                    current as int
                ].height)
            } else if frames.len() > 0 {
                (frames@[0].pixels@, frames@[0].width, frames@[0].height)
            } else {
                (Seq::empty(), 0, 0)
            }
        },
    }
}

/// The number of frames an image has: one for a still picture, and at least
/// one for an animation.
pub open spec fn frame_count_of(frames: FrameSource) -> int {
    match frames {
        FrameSource::Single { .. } => 1,
        FrameSource::Animated { frames, .. } => if frames.len() == 0 {
            1
        } else {
            frames.len() as int
        },
    }
}

impl ImageItem {
    /// The pixels, width and height of the frame the image shows.
    pub fn current_pixels(&self) -> (r: (&[Color32], u32, u32))
        ensures
            (r.0@, r.1, r.2) == shown_pixels(self.frames),
    {
        match &self.frames {
            FrameSource::Single { pixels, width, height } => (pixels.as_slice(), *width, *height),
            FrameSource::Animated { frames, current, .. } => {
                if *current < frames.len() {
                    let frame = &frames[*current];
                    (frame.pixels.as_slice(), frame.width, frame.height)
                } else if frames.len() > 0 {
                    let frame = &frames[0];
                    (frame.pixels.as_slice(), frame.width, frame.height)
                } else {
                    (&[], 0, 0)
                }
            },
        }
    }

    /// Whether the animation plays; a still picture does not.
    pub fn autoplay(&self) -> (b: bool)
        ensures
            b == (self.frames matches FrameSource::Animated { autoplay, .. } && autoplay),
    {
        match &self.frames {
            FrameSource::Animated { autoplay, .. } => *autoplay,
            FrameSource::Single { .. } => false,
        }
    }

    /// The number of frames: one for a still picture, at least one for an
    /// animation.
    pub fn frame_count(&self) -> (n: usize)
        ensures
            n == frame_count_of(self.frames),
    {
        match &self.frames {
            FrameSource::Single { .. } => 1,
            FrameSource::Animated { frames, .. } => if frames.len() == 0 {
                1
            } else {
                frames.len()
            },
        }
    }

    /// The summed delay of an animation in nanoseconds, saturating at
    /// `MAX_DURATION`; none for a still picture.
    pub fn total_duration(&self) -> (d: Option<u128>)
        ensures
            match self.frames {
                FrameSource::Single { .. } => d is None,
                FrameSource::Animated { frames, .. } => d == Some(total_delay(frames@) as u128),
            },
    {
        match &self.frames {
            FrameSource::Single { .. } => None,
            FrameSource::Animated { frames, .. } => {
                let mut total: u128 = 0;
                let mut i: usize = 0;
                while i < frames.len()
                    invariant
                        i <= frames.len(),
                        total == total_delay(frames@.take(i as int)),
                        total <= MAX_DURATION,
                    decreases frames.len() - i,
                {
                    assert(frames@.take(i + 1).drop_last() == frames@.take(i as int));
                    let delay = frames[i].delay;
                    if delay > MAX_DURATION - total {
                        total = MAX_DURATION;
                    } else {
                        total = total + delay;
                    }
                    i += 1;
                }
                assert(frames@.take(frames.len() as int) == frames@);
                Some(total)
            },
        }
    }

    /// Advances a playing animation by the time that passed since it last
    /// advanced, `now` being the caller's clock in nanoseconds: each frame is
    /// shown for its delay (at least a millisecond) and playback wraps around.
    /// The first call of a playing animation only starts its clock. Returns
    /// whether the frame changed at least once; still pictures, paused
    /// animations and animations of one frame never advance.
    pub fn advance_frame(&mut self, now: u128) -> (advanced: bool)
        ensures
            match old(self).frames {
                FrameSource::Animated { frames, current, autoplay, last_advance } => {
                    if !autoplay || frames.len() <= 1 {
                        !advanced && final(self).frames == old(self).frames
                    } else {
                        let last = match last_advance {
                            Some(t) => t,
                            None => now,
                        };
                        let elapsed: int = if now >= last {
                            now - last
                        } else {
                            0
                        };
                        let (next, left) = play(frames@, current as int, elapsed);
                        &&& advanced == (current < frames.len() && elapsed >= shown_for(
                            frames@[current as int].delay,
                        ))
                        &&& final(self).frames == (FrameSource::Animated {
                            frames,
                            current: next as usize,
                            autoplay,
                            last_advance: Some(
                                if advanced {
                                    (now - left) as u128
                                } else {
                                    last
                                },
                            ),
                        })
                    }
                },
                FrameSource::Single { .. } => !advanced && final(self).frames == old(self).frames,
            },
            final(self).path == old(self).path,
            final(self).info == old(self).info,
            final(self).width == old(self).width,
            final(self).height == old(self).height,
            final(self).midata == old(self).midata,
            final(self).expanded == old(self).expanded,
    {
        match &mut self.frames {
            FrameSource::Animated { frames, current, autoplay, last_advance } => {
                if !*autoplay || frames.len() <= 1 {
                    return false;
                }
                let last = match *last_advance {
                    Some(t) => t,
                    None => now,
                };
                *last_advance = Some(last);
                let mut remaining: u128 = if now >= last {
                    now - last
                } else {
                    0
                };
                let ghost elapsed = remaining as int;
                let ghost start = *current as int;
                let mut advanced = false;
                while *current < frames.len()
                    invariant_except_break
                        frames.len() > 1,
                        play(frames@, start, elapsed) == play(frames@, *current as int, remaining as int),
                        advanced ==> (start < frames.len() && elapsed >= shown_for(frames@[start].delay)),
                        advanced ==> *current < frames.len(),
                        !advanced ==> *current == start && remaining == elapsed,
                        remaining <= elapsed,
                    ensures
                        play(frames@, start, elapsed) == (*current as int, remaining as int),
                        advanced == (start < frames.len() && elapsed >= shown_for(frames@[start].delay)),
                        !advanced ==> *current == start && remaining == elapsed,
                        remaining <= elapsed,
                    decreases remaining,
                {
                    let delay = frames[*current].delay;
                    let step: u128 = if delay < MIN_FRAME_DELAY {
                        MIN_FRAME_DELAY
                    } else {
                        delay
                    };
                    if remaining < step {
                        break;
                    }
                    remaining = remaining - step;
                    *current = (*current + 1) % frames.len();
                    advanced = true;
                }
                if advanced {
                    *last_advance = Some(now - remaining);
                }
                advanced
            },
            FrameSource::Single { .. } => false,
        }
    }

    /// Starts or stops an animation; a change of state forgets when it last
    /// advanced. A still picture is left as it is.
    pub fn set_autoplay(&mut self, autoplay: bool)
        ensures
            match old(self).frames {
                FrameSource::Animated { frames, current, autoplay: was, last_advance } =>
                    final(self).frames == (FrameSource::Animated {
                    frames,
                    current,
                    autoplay,
                    last_advance: if was != autoplay {
                        None
                    } else {
                        last_advance
                    },
                }),
                FrameSource::Single { .. } => final(self).frames == old(self).frames,
            },
            final(self).path == old(self).path,
            final(self).info == old(self).info,
            final(self).width == old(self).width,
            final(self).height == old(self).height,
            final(self).midata == old(self).midata,
            final(self).expanded == old(self).expanded,
    {
        match &mut self.frames {
            FrameSource::Animated { autoplay: current_autoplay, last_advance, .. } => {
                if *current_autoplay != autoplay {
                    *current_autoplay = autoplay;
                    *last_advance = None;
                }
            },
            FrameSource::Single { .. } => {},
        }
    }
}

} // verus!
