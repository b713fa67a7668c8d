//! Recognising numbered image sequences such as `walk_0001.png`,
//! `walk_0002.png`: the rightmost run of digits in the file stem numbers the
//! frame, and everything else about the file forms the key that frames of one
//! sequence share.
use vstd::prelude::*;
use crate::paths::{
    extension_of, extension_of_name, file_name_of, file_name_spec, parent_or_empty, std_parent,
    stem_of, stem_of_name,
};
use crate::text::{parse_unsigned, parse_unsigned_spec, str_to_chars, string_from_chars};
use crate::cli_values::ascii_lower;

verus! {

/// ASCII decimal digits.
pub open spec fn is_digit(c: char) -> bool {
    '0' <= c <= '9'
}

/// Index of the last character of `s` that is a digit (`digit`) or a non-digit.
pub open spec fn rfind_class(s: Seq<char>, digit: bool) -> Option<int>
    decreases s.len(),
{
    if s.len() == 0 {
        None
    } else if is_digit(s.last()) == digit {
        Some(s.len() - 1)
    } else {
        rfind_class(s.drop_last(), digit)
    }
}

proof fn lemma_rfind_class_exact(s: Seq<char>, f: bool, k: int)
    requires
        -1 <= k < s.len(),
        forall|i: int| k < i < s.len() ==> is_digit(#[trigger] s[i]) != f,
        k >= 0 ==> is_digit(s[k]) == f,
    ensures
        rfind_class(s, f) == (if k >= 0 {
            Some(k)
        } else {
            None::<int>
        }),
    decreases s.len(),
{
    if s.len() > 0 && k < s.len() - 1 {
        assert(is_digit(s[s.len() - 1]) != f);
        assert forall|i: int| k < i < s.len() - 1 implies is_digit(#[trigger] s.drop_last()[i]) != f by {
            assert(s.drop_last()[i] == s[i]);
        }
        lemma_rfind_class_exact(s.drop_last(), f, k);
    }
}

/// Last index holding a digit (`want_digit`) or a non-digit.
fn rfind_digit_class(s: &[char], want_digit: bool) -> (r: Option<usize>)
    ensures
        r matches Some(k) ==> k < s.len() && rfind_class(s@, want_digit) == Some(k as int),
        r is None ==> rfind_class(s@, want_digit) is None,
{
    let mut i = s.len();
    while i > 0
        invariant
            i <= s.len(),
            forall|j: int| i <= j < s.len() ==> is_digit(#[trigger] s@[j]) != want_digit,
        decreases i,
    {
        let c = s[i - 1];
        let d = '0' <= c && c <= '9';
        if d == want_digit {
            proof {
                lemma_rfind_class_exact(s@, want_digit, i - 1);
            }
            return Some(i - 1);
        }
        i -= 1;
    }
    proof {
        lemma_rfind_class_exact(s@, want_digit, -1);
    }
    None
}

/// Where the rightmost digit run of a stem begins and ends.
pub open spec fn digit_run(stem: Seq<char>) -> Option<(int, int)> {
    match rfind_class(stem, true) {
        None => None,
        Some(e) => {
            let end = e + 1;
            match rfind_class(stem.take(end), false) {
                Some(k) => Some((k + 1, end)),
                None => Some((0, end)),
            }
        },
    }
}

/// Slicing out the digit run at byte offsets fails when the character just
/// before it is not a single byte.
pub open spec fn digit_run_unsliceable(stem: Seq<char>) -> bool {
    match digit_run(stem) {
        Some((start, end)) => start > 0 && (stem[start - 1] as int) >= 0x80,
        None => false,
    }
}

/// Paths on which sequence detection cannot slice the file stem.
pub open spec fn sequence_key_unsliceable(path: Seq<char>) -> bool {
    match file_name_spec(path) {
        Some(n) => extension_of_name(n) is Some && digit_run_unsliceable(stem_of_name(n)),
        None => false,
    }
}

/// Paths on which the digit count of the stem cannot be sliced out.
pub open spec fn sequence_digits_unsliceable(path: Seq<char>) -> bool {
    match file_name_spec(path) {
        Some(n) => digit_run_unsliceable(stem_of_name(n)),
        None => false,
    }
}

/// ASCII lower-casing of every character (`str::to_ascii_lowercase`).
pub open spec fn ascii_lowercase(s: Seq<char>) -> Seq<char> {
    Seq::new(s.len(), |i: int| ascii_lower(s[i]))
}

/// The key of a sequence frame: directory, text before the number, text after
/// it, lower-cased extension, and the image size.
pub type SpecSequenceKey = (Seq<char>, Seq<char>, Seq<char>, Seq<char>, u32, u32);

/// The key and frame number of a numbered image, if its path has one.
pub open spec fn sequence_key_spec(path: Seq<char>, width: u32, height: u32) -> Option<
    (SpecSequenceKey, int),
> {
    match file_name_spec(path) {
        None => None,
        Some(n) => {
            let stem = stem_of_name(n);
            match extension_of_name(n) {
                None => None,
                Some(ext) => match digit_run(stem) {
                    None => None,
                    Some((start, end)) => {
                        let prefix = stem.take(start);
                        let suffix = stem.skip(end);
                        let extension = ascii_lowercase(ext);
                        if prefix.len() == 0 && suffix.len() == 0 && extension.len() == 0 {
                            None
                        } else {
                            match parse_unsigned_spec(stem.subrange(start, end), 10, 0xffff_ffff) {
                                None => None,
                                Some(number) => {
                                    let parent = match std_parent(path) {
                                        Some(p) => p,
                                        None => Seq::<char>::empty(),
                                    };
                                    Some(((parent, prefix, suffix, extension, width, height), number))
                                },
                            }
                        }
                    },
                },
            }
        },
    }
}

/// The frame number of a path and how many digits it is written with.
pub open spec fn sequence_digits_spec(path: Seq<char>) -> Option<(int, int)> {
    match file_name_spec(path) {
        None => None,
        Some(n) => {
            let stem = stem_of_name(n);
            match digit_run(stem) {
                None => None,
                Some((start, end)) => match parse_unsigned_spec(
                    stem.subrange(start, end),
                    10,
                    0xffff_ffff,
                ) {
                    None => None,
                    Some(number) => Some((number, end - start)),
                },
            }
        },
    }
}

/// The sequence key of an image (directory, prefix, suffix, lower-cased
/// extension, width, height).
pub type SequenceKey = (String, String, String, String, u32, u32);

/// Bounds of the rightmost digit run of a stem.
fn digit_run_of(stem: &[char]) -> (r: Option<(usize, usize)>)
    ensures
        r matches Some((s, e)) ==> s <= e <= stem.len() && digit_run(stem@) == Some(
            (s as int, e as int),
        ),
        r is None ==> digit_run(stem@) is None,
{
    match rfind_digit_class(stem, true) {
        None => {
            None
        },
        Some(e) => {
            let end = e + 1;
            let head = &stem[0..end];
            assert(head@ == stem@.take(end as int));
            match rfind_digit_class(head, false) {
                Some(k) => Some((k + 1, end)),
                None => Some((0, end)),
            }
        },
    }
}

fn lowercase_ascii(s: &[char]) -> (r: Vec<char>)
    ensures
        r@ == ascii_lowercase(s@),
{
    let mut r: Vec<char> = Vec::new();
    let mut i: usize = 0;
    while i < s.len()
        invariant
            i <= s.len(),
            r@ == ascii_lowercase(s@.take(i as int)),
        decreases s.len() - i,
    {
        let c = s[i];
        let l = if 'A' <= c && c <= 'Z' {
            ((c as u32 + 32) as u8) as char
        } else {
            c
        };
        r.push(l);
        i += 1;
        assert(r@ == ascii_lowercase(s@.take(i as int)));
    }
    assert(s@.take(s.len() as int) == s@);
    r
}

/// The sequence key and frame number of a numbered image: the rightmost run of
/// digits in the file stem is the number; files without an extension, or whose
/// stem is nothing but the number with an empty extension, are not frames.
pub fn sequence_key(path: &str, width: u32, height: u32) -> (r: Option<(SequenceKey, u32)>)
    requires
        !sequence_key_unsliceable(path@),
    ensures
        r matches Some((k, n)) ==> sequence_key_spec(path@, width, height) == Some(
            ((k.0@, k.1@, k.2@, k.3@, k.4, k.5), n as int),
        ),
        r is None ==> sequence_key_spec(path@, width, height) is None,
{
    let chars = str_to_chars(path);
    let name = match file_name_of(&chars) {
        Some(n) => n,
        None => return None,
    };
    let stem = stem_of(&name);
    let ext = match extension_of(&name) {
        Some(e) => e,
        None => return None,
    };
    let extension = lowercase_ascii(&ext);
    let (start, end) = match digit_run_of(&stem) {
        Some(b) => b,
        None => return None,
    };
    if start == 0 && end == stem.len() && extension.len() == 0 {
        return None;
    }
    let number = match parse_unsigned(&stem[start..end], 10, 0xffff_ffff) {
        Some(n) => n,
        None => return None,
    };
    let parent = parent_or_empty(path);
    let prefix = string_from_chars(&stem[0..start]);
    let suffix = string_from_chars(&stem[end..stem.len()]);
    assert(stem@.subrange(0, start as int) == stem@.take(start as int));
    assert(stem@.subrange(end as int, stem.len() as int) == stem@.skip(end as int));
    Some(
        (
            (
                string_from_chars(&parent),
                prefix,
                suffix,
                string_from_chars(&extension),
                width,
                height,
            ),
            number,
        ),
    )
}

/// Whether sequence detection can slice the stem of the path: false when
/// the character just before the stem's rightmost digit run is not a
/// single byte.
pub fn path_sliceable(path: &str) -> (b: bool)
    ensures
        b == (!sequence_key_unsliceable(path@) && !sequence_digits_unsliceable(path@)),
{
    let chars = str_to_chars(path);
    let name = match file_name_of(&chars) {
        Some(n) => n,
        None => return true,
    };
    let stem = stem_of(&name);
    match digit_run_of(&stem) {
        Some((start, _)) => !(start > 0 && stem[start - 1] >= '\u{80}'),
        None => true,
    }
}

/// The frame number of a path and the count of digits it is written with.
pub fn sequence_digits(path: &str) -> (r: Option<(u32, usize)>)
    requires
        !sequence_digits_unsliceable(path@),
    ensures
        r matches Some((n, w)) ==> sequence_digits_spec(path@) == Some((n as int, w as int)),
        r is None ==> sequence_digits_spec(path@) is None,
{
    let chars = str_to_chars(path);
    let name = match file_name_of(&chars) {
        Some(n) => n,
        None => return None,
    };
    let stem = stem_of(&name);
    let (start, end) = match digit_run_of(&stem) {
        Some(b) => b,
        None => return None,
    };
    match parse_unsigned(&stem[start..end], 10, 0xffff_ffff) {
        Some(n) => Some((n, end - start)),
        None => None,
    }
}

} // verus!
