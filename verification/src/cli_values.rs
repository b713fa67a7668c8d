//! Values given on the command line: MIRX coding profiles, sparse tile
//! geometry (`WIDTHxHEIGHT` or `none`), power-of-two alignments and `#RRGGBB`
//! background colours.
use vstd::prelude::*;
use vstd::string::StringSliceAdditionalSpecFns;
use crate::seqs::{find_char, find_char_from};
use crate::text::{parse_unsigned, parse_unsigned_spec, str_to_chars};

verus! {

/// MIRX sample coding profiles.
#[derive(Clone, Copy, Debug, PartialEq, Eq, Structural)]
pub enum MirxCodingMode {
    Raw,
    Pixel,
    Rle,
    Lz4,
    FrequencyReversible,
    FrequencyQuantized,
}

impl MirxCodingMode {
    /// Whether the profile codes samples in the frequency domain.
    pub fn is_frequency(self) -> (b: bool)
        ensures
            b <==> (self == MirxCodingMode::FrequencyReversible || self
                == MirxCodingMode::FrequencyQuantized),
    {
        match self {
            MirxCodingMode::FrequencyReversible | MirxCodingMode::FrequencyQuantized => true,
            _ => false,
        }
    }
}

/// Sparse tile geometry of MIRX frame timelines: `None` turns tiling off.
#[derive(Clone, Copy, Debug, PartialEq, Eq)]
pub struct FramesTile(pub Option<(u32, u32)>);

impl FramesTile {
    /// The tile width and height, if tiling is on.
    pub fn dimensions(self) -> (d: Option<(u32, u32)>)
        ensures
            d == self.0,
    {
        self.0
    }
}

/// ASCII lower-casing of one character (`char::to_ascii_lowercase`).
pub open spec fn ascii_lower(c: char) -> char {
    if 'A' <= c <= 'Z' {
        ((c as u32) + 32) as char
    } else {
        c
    }
}

/// Whether `s` is `none` in any ASCII case (`str::eq_ignore_ascii_case("none")`).
pub open spec fn is_none_word(s: Seq<char>) -> bool {
    &&& s.len() == 4
    &&& ascii_lower(s[0]) == 'n'
    &&& ascii_lower(s[1]) == 'o'
    &&& ascii_lower(s[2]) == 'n'
    &&& ascii_lower(s[3]) == 'e'
}

/// Where a tile value splits into width and height: at the first `x`, else at the first `X`.
pub open spec fn tile_separator(s: Seq<char>) -> Option<int> {
    match find_char(s, 'x') {
        Some(k) => Some(k),
        None => find_char(s, 'X'),
    }
}

/// The outcome of parsing a tile value: the geometry, or the error message.
pub open spec fn frames_tile_spec(s: Seq<char>) -> Result<Option<(u32, u32)>, Seq<char>> {
    if is_none_word(s) {
        Ok(None)
    } else {
        match tile_separator(s) {
            None => Err("tile must use WIDTHxHEIGHT or none"@),
            Some(k) => {
                let w = parse_unsigned_spec(s.take(k), 10, 0xffff_ffff);
                let h = parse_unsigned_spec(s.skip(k + 1), 10, 0xffff_ffff);
                if w is None {
                    Err("tile width must be positive"@)
                } else if h is None {
                    Err("tile height must be positive"@)
                } else if w->0 == 0 || h->0 == 0 {
                    Err("tile dimensions must be positive"@)
                } else {
                    Ok(Some((w->0 as u32, h->0 as u32)))
                }
            },
        }
    }
}

fn lower_ascii(c: char) -> (l: char)
    ensures
        l == ascii_lower(c),
{
    if 'A' <= c && c <= 'Z' {
        let v = (c as u32) + 32;
        let b = v as u8;
        b as char
    } else {
        c
    }
}

/// Parses `WIDTHxHEIGHT` (or `none`) into a tile geometry.
pub fn parse_frames_tile(value: &str) -> (r: Result<FramesTile, String>)
    ensures
        r matches Ok(t) ==> frames_tile_spec(value@) == Ok::<_, Seq<char>>(t.0),
        r matches Err(e) ==> frames_tile_spec(value@) == Err::<Option<(u32, u32)>, _>(e@),
{
    let s = str_to_chars(value);
    if s.len() == 4 && lower_ascii(s[0]) == 'n' && lower_ascii(s[1]) == 'o' && lower_ascii(s[2])
        == 'n' && lower_ascii(s[3]) == 'e' {
        return Ok(FramesTile(None));
    }
    assert(s@.skip(0) == s@);
    let sep = match find_char_from(&s, 'x', 0) {
        Some(k) => k,
        None => match find_char_from(&s, 'X', 0) {
            Some(k) => k,
            None => {
                return Err("tile must use WIDTHxHEIGHT or none".to_owned());
            },
        },
    };
    let w = parse_unsigned(&s[0..sep], 10, 0xffff_ffff);
    let h = parse_unsigned(&s[sep + 1..s.len()], 10, 0xffff_ffff);
    assert(s@.subrange(0, sep as int) == s@.take(sep as int));
    assert(s@.subrange(sep + 1, s.len() as int) == s@.skip(sep + 1));
    match (w, h) {
        (None, _) => Err("tile width must be positive".to_owned()),
        (Some(_), None) => Err("tile height must be positive".to_owned()),
        (Some(w), Some(h)) => {
            if w == 0 || h == 0 {
                Err("tile dimensions must be positive".to_owned())
            } else {
                Ok(FramesTile(Some((w, h))))
            }
        },
    }
}

impl std::str::FromStr for FramesTile {
    type Err = String;

    fn from_str(value: &str) -> (r: Result<Self, Self::Err>)
        ensures
            r matches Ok(t) ==> frames_tile_spec(value@) == Ok::<_, Seq<char>>(t.0),
            r matches Err(e) ==> frames_tile_spec(value@) == Err::<Option<(u32, u32)>, _>(e@),
    {
        parse_frames_tile(value)
    }
}

/// Powers of two: 1, 2, 4, ...
pub open spec fn is_power_of_two(n: int) -> bool
    decreases n,
{
    if n <= 0 {
        false
    } else if n == 1 {
        true
    } else {
        n % 2 == 0 && is_power_of_two(n / 2)
    }
}

fn power_of_two(n: u32) -> (b: bool)
    ensures
        b == is_power_of_two(n as int),
{
    let mut m = n;
    while m > 1 && m % 2 == 0
        invariant
            is_power_of_two(m as int) == is_power_of_two(n as int),
        decreases m,
    {
        m = m / 2;
    }
    m == 1
}

/// The outcome of parsing an input alignment.
pub open spec fn power_of_two_spec(s: Seq<char>) -> Option<int> {
    match parse_unsigned_spec(s, 10, 0xffff_ffff) {
        Some(v) => if is_power_of_two(v) {
            Some(v)
        } else {
            None
        },
        None => None,
    }
}

/// Parses a positive power-of-two alignment.
pub fn parse_power_of_two(value: &str) -> (r: Result<u32, String>)
    ensures
        r matches Ok(v) ==> power_of_two_spec(value@) == Some(v as int),
        r matches Err(e) ==> power_of_two_spec(value@) is None && e@
            == "alignment must be a positive power of two"@,
{
    let s = str_to_chars(value);
    match parse_unsigned(&s, 10, 0xffff_ffff) {
        Some(v) => {
            if power_of_two(v) {
                Ok(v)
            } else {
                Err("alignment must be a positive power of two".to_owned())
            }
        },
        None => Err("alignment must be a positive power of two".to_owned()),
    }
}

/// The bytes of a colour value after an optional leading `#`.
pub open spec fn hex_digits_of(b: Seq<u8>) -> Seq<u8> {
    if b.len() > 0 && b[0] == 0x23 {
        b.skip(1)
    } else {
        b
    }
}

/// The value of an ASCII hexadecimal digit (either case).
pub open spec fn hex_digit_value(c: u8) -> Option<int> {
    if 0x30 <= c <= 0x39 {
        Some(c - 0x30)
    } else if 0x61 <= c <= 0x66 {
        Some(c - 0x61 + 10)
    } else if 0x41 <= c <= 0x46 {
        Some(c - 0x41 + 10)
    } else {
        None
    }
}

/// One colour channel: two hexadecimal digits, high one first.
pub open spec fn hex_channel(h: Seq<u8>, at: int) -> Option<int> {
    match (hex_digit_value(h[at]), hex_digit_value(h[at + 1])) {
        (Some(hi), Some(lo)) => Some(hi * 16 + lo),
        _ => None,
    }
}

/// The colour that `#RRGGBB` (or `RRGGBB`) denotes: exactly six ASCII
/// hexadecimal digits after an optional `#`; anything else denotes none.
pub open spec fn hex_color_spec(b: Seq<u8>) -> Option<(int, int, int)> {
    let h = hex_digits_of(b);
    if h.len() != 6 {
        None
    } else {
        match (hex_channel(h, 0), hex_channel(h, 2), hex_channel(h, 4)) {
            (Some(r), Some(g), Some(bl)) => Some((r, g, bl)),
            _ => None,
        }
    }
}

fn hex_digit(c: u8) -> (r: Option<u8>)
    ensures
        r matches Some(v) ==> hex_digit_value(c) == Some(v as int),
        r is None ==> hex_digit_value(c) is None,
{
    if 0x30 <= c && c <= 0x39 {
        Some(c - 0x30)
    } else if 0x61 <= c && c <= 0x66 {
        Some(c - 0x61 + 10)
    } else if 0x41 <= c && c <= 0x46 {
        Some(c - 0x41 + 10)
    } else {
        None
    }
}

fn hex_pair(h: &[u8], at: usize) -> (r: Option<u8>)
    requires
        at + 2 <= h.len(),
    ensures
        r matches Some(v) ==> hex_channel(h@, at as int) == Some(v as int),
        r is None ==> hex_channel(h@, at as int) is None,
{
    match (hex_digit(h[at]), hex_digit(h[at + 1])) {
        (Some(hi), Some(lo)) => Some(hi * 16 + lo),
        _ => None,
    }
}

/// Parses a JPEG background colour written `#RRGGBB` (the `#` is optional).
pub fn parse_hex_color(value: &str) -> (r: Result<[u8; 3], String>)
    ensures
        r matches Ok(c) ==> hex_color_spec(value.spec_bytes()) == Some(
            (c[0] as int, c[1] as int, c[2] as int),
        ),
        r matches Err(e) ==> hex_color_spec(value.spec_bytes()) is None && e@
            == "background must use the #RRGGBB format"@,
{
    let bytes = value.as_bytes();
    let start: usize = if bytes.len() > 0 && bytes[0] == 0x23 {
        1
    } else {
        0
    };
    let h = &bytes[start..bytes.len()];
    assert(h@ == hex_digits_of(value.spec_bytes()));
    if h.len() != 6 {
        return Err("background must use the #RRGGBB format".to_owned());
    }
    match (hex_pair(h, 0), hex_pair(h, 2), hex_pair(h, 4)) {
        (Some(r), Some(g), Some(b)) => Ok([r, g, b]),
        _ => Err("background must use the #RRGGBB format".to_owned()),
    }
}

} // verus!
