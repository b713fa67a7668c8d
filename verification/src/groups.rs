//! Sequence groups: the label a group is shown under, the animated image that
//! stands for its members, and how it plays.
use crate::fmt::{padded_decimal, push_chars, push_padded_decimal};
use crate::image_item::{Frame, FrameSource, ImageInfo, ImageItem, shown_pixels};
use crate::sequence::{sequence_key, sequence_key_spec};
use crate::text::{str_to_chars, string_from_chars};
use crate::workspace::{GroupPlayback, SequenceMember, WorkspaceId, frame_path_ok};
use vstd::prelude::*;

verus! {

/// How long each frame of a group is shown: 100 milliseconds.
pub const GROUP_FRAME_DELAY: u128 = 100_000_000;

/// The widest digit count among the members (zero for none).
pub open spec fn widest_digits(members: Seq<SequenceMember>) -> int
    decreases members.len(),
{
    if members.len() == 0 {
        0
    } else {
        let rest = widest_digits(members.drop_last());
        if members.last().digit_width > rest {
            members.last().digit_width as int
        } else {
            rest
        }
    }
}

/// The widest image among the members (zero for none).
pub open spec fn widest_image(members: Seq<SequenceMember>) -> int
    decreases members.len(),
{
    if members.len() == 0 {
        0
    } else {
        let rest = widest_image(members.drop_last());
        if members.last().image.width > rest {
            members.last().image.width as int
        } else {
            rest
        }
    }
}

/// The tallest image among the members (zero for none).
pub open spec fn tallest_image(members: Seq<SequenceMember>) -> int
    decreases members.len(),
{
    if members.len() == 0 {
        0
    } else {
        let rest = tallest_image(members.drop_last());
        if members.last().image.height > rest {
            members.last().image.height as int
        } else {
            rest
        }
    }
}

/// The label of a group: the text around the frame number with the range of
/// numbers from the first member to the last, each padded to the widest digit
/// count (at least two); when the first member has no frame number, the two
/// paths joined by " - ".
pub open spec fn label_spec(members: Seq<SequenceMember>) -> Seq<char> {
    if members.len() == 0 {
        Seq::empty()
    } else {
        let first = members[0];
        let last = members.last();
        match sequence_key_spec(first.image.path@, first.image.width, first.image.height) {
            None => first.image.path@ + seq![' ', '-', ' '] + last.image.path@,
            Some((key, first_number)) => {
                let last_number = match last.sequence_number {
                    Some(n) => n as int,
                    None => first_number,
                };
                let width = if widest_digits(members) > 2 {
                    widest_digits(members)
                } else {
                    2
                };
                key.1 + padded_decimal(first_number as nat, width as nat) + seq!['-']
                    + padded_decimal(last_number as nat, width as nat) + key.2
            },
        }
    }
}

/// The label of a run whose first member has a sequence key is the key's
/// prefix, the first and last frame numbers (zero-padded to one width of at
/// least two) joined by `-`, and the key's suffix: it starts with the text
/// before the number and ends with the text after it.
pub proof fn lemma_label_keeps_prefix_and_suffix(members: Seq<SequenceMember>)
    requires
        members.len() > 0,
        sequence_key_spec(members[0].image.path@, members[0].image.width, members[0].image.height) is Some,
    ensures
        ({
            let (key, first_number) = sequence_key_spec(
                members[0].image.path@,
                members[0].image.width,
                members[0].image.height,
            )->0;
            let last_number = match members.last().sequence_number {
                Some(n) => n as int,
                None => first_number,
            };
            let label = label_spec(members);
            &&& label.take(key.1.len() as int) == key.1
            &&& label.skip(label.len() - key.2.len()) == key.2
            &&& exists|w: nat|
                w >= 2 && label == key.1 + #[trigger] padded_decimal(first_number as nat, w) + seq!['-'] + padded_decimal(
                    last_number as nat,
                    w,
                ) + key.2
        }),
{
    let (key, first_number) = sequence_key_spec(
        members[0].image.path@,
        members[0].image.width,
        members[0].image.height,
    )->0;
    let last_number = match members.last().sequence_number {
        Some(n) => n as int,
        None => first_number,
    };
    let width = if widest_digits(members) > 2 {
        widest_digits(members)
    } else {
        2
    };
    let middle = padded_decimal(first_number as nat, width as nat) + seq!['-'] + padded_decimal(
        last_number as nat,
        width as nat,
    );
    let label = label_spec(members);
    assert(label == key.1 + padded_decimal(first_number as nat, width as nat) + seq!['-'] + padded_decimal(
        last_number as nat,
        width as nat,
    ) + key.2);
    assert(label == key.1 + middle + key.2);
    assert(label.take(key.1.len() as int) == key.1);
    assert(label.skip(label.len() - key.2.len()) == key.2);
    assert(width as nat >= 2);
}

/// The label a group of these members is shown under.
pub fn sequence_label(members: &[SequenceMember]) -> (label: String)
    requires
        members@.len() > 0 ==> frame_path_ok(members@[0].image.path@),
    ensures
        label@ == label_spec(members@),
        members@.len() > 0 ==> (sequence_key_spec(members@[0].image.path@, members@[0].image.width, members@[0].image.height)
            matches Some((key, n)) ==> label@.take(key.1.len() as int) == key.1 && label@.skip(
            label@.len() - key.2.len(),
        ) == key.2),
{
    if members.len() == 0 {
        return String::new();
    }
    proof {
        if sequence_key_spec(members@[0].image.path@, members@[0].image.width, members@[0].image.height) is Some {
            lemma_label_keeps_prefix_and_suffix(members@);
        }
    }
    let first = &members[0];
    let last = &members[members.len() - 1];
    let mut out: Vec<char> = Vec::new();
    match sequence_key(first.image.path.as_str(), first.image.width, first.image.height) {
        None => {
            let a = str_to_chars(first.image.path.as_str());
            let b = str_to_chars(last.image.path.as_str());
            push_chars(&mut out, &a);
            out.push(' ');
            out.push('-');
            out.push(' ');
            push_chars(&mut out, &b);
            assert(out@ =~= label_spec(members@));
        },
        Some((key, first_number)) => {
            let last_number = match last.sequence_number {
                Some(n) => n,
                None => first_number,
            };
            let mut widest: usize = 0;
            let mut i: usize = 0;
            while i < members.len()
                invariant
                    i <= members@.len(),
                    widest == widest_digits(members@.take(i as int)),
                decreases members@.len() - i,
            {
                assert(members@.take(i + 1).drop_last() == members@.take(i as int));
                if members[i].digit_width > widest {
                    widest = members[i].digit_width;
                }
                i += 1;
            }
            assert(members@.take(members@.len() as int) == members@);
            let width = if widest > 2 {
                widest
            } else {
                2
            };
            let prefix = str_to_chars(key.1.as_str());
            let suffix = str_to_chars(key.2.as_str());
            push_chars(&mut out, &prefix);
            push_padded_decimal(&mut out, first_number as u128, width);
            out.push('-');
            push_padded_decimal(&mut out, last_number as u128, width);
            push_chars(&mut out, &suffix);
            assert(out@ =~= label_spec(members@));
        },
    }
    string_from_chars(&out)
}

/// The position of the first member with the id.
pub open spec fn member_index(members: Seq<SequenceMember>, id: WorkspaceId) -> Option<int>
    decreases members.len(),
{
    if members.len() == 0 {
        None
    } else {
        match member_index(members.drop_last(), id) {
            Some(k) => Some(k),
            None => if members.last().id == id {
                Some(members.len() - 1)
            } else {
                None
            },
        }
    }
}

/// A frame of a group shows the frame its member shows, at the origin, for
/// `GROUP_FRAME_DELAY`.
pub open spec fn frame_of_member(frame: Frame, member: SequenceMember) -> bool {
    let (pixels, width, height) = shown_pixels(member.image.frames);
    &&& frame.pixels@ == pixels
    &&& frame.width == width
    &&& frame.height == height
    &&& frame.left == 0
    &&& frame.top == 0
    &&& frame.delay == GROUP_FRAME_DELAY
}

/// The image that stands for a group: as large as its largest member, one
/// frame per member, shown under the label, playing as `playback` says and at
/// the member it names (else the first).
pub open spec fn group_image_spec(
    image: ImageItem,
    members: Seq<SequenceMember>,
    label: Seq<char>,
    playback: GroupPlayback,
) -> bool {
    let width = widest_image(members);
    let height = tallest_image(members);
    &&& image.path@ == label
    &&& image.width == width
    &&& image.height == height
    &&& image.info.width == width
    &&& image.info.height == height
    &&& image.info.data_size == members[0].image.info.data_size
    &&& image.info.format == members[0].image.info.format
    &&& image.midata is None
    &&& image.expanded == playback.expanded
    &&& match image.frames {
        FrameSource::Animated { frames, current, autoplay, last_advance } => {
            &&& frames@.len() == members.len()
            &&& forall|k: int| 0 <= k < members.len() ==> frame_of_member(#[trigger] frames@[k], members[k])
            &&& current == match playback.current_member {
                Some(id) => match member_index(members, id) {
                    Some(k) => k,
                    None => 0,
                },
                None => 0,
            }
            &&& autoplay == playback.autoplay
            &&& last_advance is None
        },
        FrameSource::Single { .. } => false,
    }
}

/// The animated image that stands for a group of members; none for no
/// members.
pub fn sequence_image(members: &[SequenceMember], label: &str, playback: GroupPlayback) -> (r: Option<
    ImageItem,
>)
    ensures
        r is Some == (members@.len() > 0),
        r matches Some(image) ==> group_image_spec(image, members@, label@, playback),
{
    if members.len() == 0 {
        return None;
    }
    let mut width: u32 = 0;
    let mut height: u32 = 0;
    let mut frames: Vec<Frame> = Vec::new();
    let mut i: usize = 0;
    while i < members.len()
        invariant
            i <= members@.len(),
            width == widest_image(members@.take(i as int)),
            height == tallest_image(members@.take(i as int)),
            frames@.len() == i,
            forall|k: int| 0 <= k < i ==> frame_of_member(#[trigger] frames@[k], members@[k]),
        decreases members@.len() - i,
    {
        assert(members@.take(i + 1).drop_last() == members@.take(i as int));
        let member = &members[i];
        if member.image.width > width {
            width = member.image.width;
        }
        if member.image.height > height {
            height = member.image.height;
        }
        let (pixels, w, h) = member.image.current_pixels();
        frames.push(
            Frame {
                pixels: vstd::slice::slice_to_vec(pixels),
                width: w,
                height: h,
                left: 0,
                top: 0,
                delay: GROUP_FRAME_DELAY,
            },
        );
        i += 1;
    }
    assert(members@.take(members@.len() as int) == members@);
    let mut current: usize = 0;
    match playback.current_member {
        Some(id) => {
            let mut k: usize = 0;
            while k < members.len()
                invariant_except_break
                    k <= members@.len(),
                    members@.len() > 0,
                    current == 0,
                    member_index(members@.take(k as int), id) is None,
                    k == members@.len() ==> member_index(members@, id) is None,
                ensures
                    member_index(members@, id) == Some(current as int) || (member_index(members@, id) is None && current == 0),
                decreases members@.len() - k,
            {
                assert(members@.take(k + 1).drop_last() == members@.take(k as int));
                if members[k].id.0 == id.0 {
                    current = k;
                    assert(current < members@.len());
                    proof {
                        assert(members@.take(k + 1).last() == members@[k as int]);
                        assert(member_index(members@.take(k + 1), id) == Some(k as int));
                        lemma_member_index_prefix(members@, k as int + 1, id);
                    }
                    break;
                }
                k += 1;
                if k == members.len() {
                    assert(members@.take(k as int) == members@);
                }
            }
        },
        None => {},
    }
    let first = &members[0];
    let image = ImageItem {
        path: label.to_string(),
        info: ImageInfo {
            width,
            height,
            data_size: first.image.info.data_size,
            format: first.image.info.format.clone(),
        },
        width,
        height,
        frames: FrameSource::Animated { frames, current, autoplay: playback.autoplay, last_advance: None },
        midata: None,
        expanded: playback.expanded,
    };
    Some(image)
}

/// The first member with an id in a prefix is the first in the whole run.
proof fn lemma_member_index_prefix(members: Seq<SequenceMember>, n: int, id: WorkspaceId)
    requires
        0 <= n <= members.len(),
        member_index(members.take(n), id) is Some,
    ensures
        member_index(members, id) == member_index(members.take(n), id),
    decreases members.len() - n,
{
    if n < members.len() {
        assert(members.take(n + 1).drop_last() == members.take(n));
        lemma_member_index_prefix(members, n + 1, id);
    } else {
        assert(members.take(n) == members);
    }
}

/// How a group plays that stands for `image`: an animation keeps its member
/// (by position) and whether it plays; a still picture starts at the first
/// member, playing. Whether its frames are listed carries over.
pub fn playback_state(image: &ImageItem, members: &[SequenceMember]) -> (p: GroupPlayback)
    ensures
        p.expanded == image.expanded,
        match image.frames {
            FrameSource::Animated { current, autoplay, .. } => {
                &&& p.autoplay == autoplay
                &&& p.current_member == if current < members@.len() {
                    Some(members@[current as int].id)
                } else {
                    None
                }
            },
            FrameSource::Single { .. } => {
                &&& p.autoplay
                &&& p.current_member == if members@.len() > 0 {
                    Some(members@[0].id)
                } else {
                    None
                }
            },
        },
{
    let (current_member, autoplay) = match &image.frames {
        FrameSource::Animated { current, autoplay, .. } => {
            let member = if *current < members.len() {
                Some(members[*current].id)
            } else {
                None
            };
            (member, *autoplay)
        },
        FrameSource::Single { .. } => {
            let member = if members.len() > 0 {
                Some(members[0].id)
            } else {
                None
            };
            (member, true)
        },
    };
    GroupPlayback { current_member, autoplay, expanded: image.expanded }
}

} // verus!
