//! Colors and sector styles of rendered symbols, and the raster encodings
//! of rendered pixels (PNG through the `image` crate, and JPEG after
//! compositing transparent pixels onto the background).

use crate::error::RrcError;
use image::ImageEncoder;
use crate::geometry::trim_bounds;
use crate::geometry::{is_unicode_whitespace, trim_back, trim_front, trim_spec};
use vstd::prelude::*;
use vstd::string::StrSliceExecFns;
use vstd::string::StringExecFns;
use vstd::utf8::{encode_utf8, is_char_boundary};

verus! {

/// An RGBA color.
#[derive(Debug, Clone, Copy, PartialEq, Eq, Structural)]
pub struct Color {
    pub r: u8,
    pub g: u8,
    pub b: u8,
    pub a: u8,
}

/// The uppercase hexadecimal digit of `d` (below 16).
pub open spec fn hex_char(d: int) -> char {
    if d < 10 {
        ((48 + d) as u32) as char
    } else {
        ((55 + d) as u32) as char
    }
}

/// Two uppercase hexadecimal digits of a byte.
pub open spec fn hex2(v: u8) -> Seq<char> {
    seq![hex_char(v as int / 16), hex_char(v as int % 16)]
}

/// "#RRGGBB", or "#RRGGBBAA" when the color is not opaque.
pub open spec fn to_hex_spec(c: Color) -> Seq<char> {
    let base = seq!['#'] + hex2(c.r) + hex2(c.g) + hex2(c.b);
    if c.a == 255 {
        base
    } else {
        base + hex2(c.a)
    }
}

/// The value of an ASCII hexadecimal digit.
pub open spec fn hex_digit_value(b: u8) -> Option<u8> {
    if 48 <= b <= 57 {
        Some((b - 48) as u8)
    } else if 65 <= b <= 70 {
        Some((b - 55) as u8)
    } else if 97 <= b <= 102 {
        Some((b - 87) as u8)
    } else {
        None
    }
}

/// The byte written by the two hexadecimal digits at `i`, if both are digits.
pub open spec fn hex_pair(bytes: Seq<u8>, i: int) -> Option<u8> {
    let b0 = bytes[i];
    let b1 = bytes[i + 1];
    if hex_digit_value(b0) is Some && hex_digit_value(b1) is Some {
        Some((16 * (hex_digit_value(b0)->0) + (hex_digit_value(b1)->0)) as u8)
    } else {
        None
    }
}

/// `s` without its leading '#' characters.
pub open spec fn strip_hashes(s: Seq<char>) -> Seq<char>
    decreases s.len(),
{
    if s.len() > 0 && s[0] == '#' {
        strip_hashes(s.drop_first())
    } else {
        s
    }
}

/// The UTF-8 bytes of a hex color string after trimming and removing '#'.
pub open spec fn hex_color_bytes(s: Seq<char>) -> Seq<u8> {
    encode_utf8(strip_hashes(trim_spec(s)))
}

/// Parsing a hex color does not slice inside a character: the byte offsets
/// at which the string is cut are character boundaries.
pub open spec fn hex_color_cuts_ok(s: Seq<char>) -> bool {
    let b = hex_color_bytes(s);
    (b.len() == 6 || b.len() == 8) ==> {
        &&& is_char_boundary(b, 2)
        &&& hex_pair(b, 0) is Some ==> is_char_boundary(b, 4)
        &&& b.len() == 8 && hex_pair(b, 0) is Some && hex_pair(b, 2) is Some ==> is_char_boundary(b, 6)
    }
}

/// The color named by a hex string, if it is one.
pub open spec fn from_hex_spec(s: Seq<char>) -> Option<Color> {
    let b = hex_color_bytes(s);
    if b.len() == 6 {
        if hex_pair(b, 0) is Some && hex_pair(b, 2) is Some && hex_pair(b, 4) is Some {
            Some(Color { r: hex_pair(b, 0)->0, g: hex_pair(b, 2)->0, b: hex_pair(b, 4)->0, a: 255 })
        } else {
            None
        }
    } else if b.len() == 8 {
        if hex_pair(b, 0) is Some && hex_pair(b, 2) is Some && hex_pair(b, 4) is Some && hex_pair(
            b,
            6,
        ) is Some {
            Some(
                Color {
                    r: hex_pair(b, 0)->0,
                    g: hex_pair(b, 2)->0,
                    b: hex_pair(b, 4)->0,
                    a: hex_pair(b, 6)->0,
                },
            )
        } else {
            None
        }
    } else {
        None
    }
}

/// The weighted sum 299 r + 587 g + 114 b: a thousand times the color's luma.
pub open spec fn luma_sum(c: Color) -> int {
    299 * c.r + 587 * c.g + 114 * c.b
}

/// The colors whose luma is exactly one half, 127.5, and whose luminance
/// single-precision arithmetic computes just below 0.5. The list comes from
/// evaluating `(0.299 r + 0.587 g + 0.114 b) / 255.0` in `f32`, term by term
/// in that order, for every `(r, g, b)` with `299 r + 587 g + 114 b ==
/// 127500` and keeping those whose result compares below `0.5`; all other
/// colors on that line round to exactly `0.5` or above. The test
/// `dark_ties_match_single_precision` in `tests/` recomputes it.
pub open spec fn rounds_dark(c: Color) -> bool {
    let t = (c.r, c.g, c.b);
    t == (37u8, 197u8, 7u8) || t == (56u8, 178u8, 55u8) || t == (75u8, 159u8, 103u8) || t == (
        86u8,
        160u8,
        69u8,
    ) || t == (105u8, 141u8, 117u8) || t == (154u8, 104u8, 179u8) || t == (173u8, 85u8, 227u8)
        || t == (217u8, 89u8, 91u8) || t == (224u8, 100u8, 16u8) || t == (232u8, 80u8, 98u8) || t
        == (236u8, 70u8, 139u8) || t == (243u8, 81u8, 64u8) || t == (251u8, 61u8, 146u8) || t == (
        255u8,
        51u8,
        187u8,
    )
}

/// Whether a color is dark: its luminance (0.299 r + 0.587 g + 0.114 b) / 255,
/// computed in single precision, is below 0.5.
pub open spec fn is_dark_spec(c: Color) -> bool {
    luma_sum(c) < 127500 || (luma_sum(c) == 127500 && rounds_dark(c))
}

fn hex_digit_str(d: u8) -> (s: &'static str)
    requires
        d < 16,
    ensures
        s@ == seq![hex_char(d as int)],
{
    proof {
        reveal_strlit("0");
        reveal_strlit("1");
        reveal_strlit("2");
        reveal_strlit("3");
        reveal_strlit("4");
        reveal_strlit("5");
        reveal_strlit("6");
        reveal_strlit("7");
        reveal_strlit("8");
        reveal_strlit("9");
        reveal_strlit("A");
        reveal_strlit("B");
        reveal_strlit("C");
        reveal_strlit("D");
        reveal_strlit("E");
        reveal_strlit("F");
    }
    let s = match d {
        0 => "0",
        1 => "1",
        2 => "2",
        3 => "3",
        4 => "4",
        5 => "5",
        6 => "6",
        7 => "7",
        8 => "8",
        9 => "9",
        10 => "A",
        11 => "B",
        12 => "C",
        13 => "D",
        14 => "E",
        _ => "F",
    };
    assert(s@ =~= seq![hex_char(d as int)]);
    s
}

fn push_hex2(out: &mut String, v: u8)
    ensures
        final(out)@ == old(out)@ + hex2(v),
{
    let ghost before = out@;
    out.append(hex_digit_str(v / 16));
    out.append(hex_digit_str(v % 16));
    assert(out@ =~= before + hex2(v));
}

proof fn lemma_strip_hashes(s: Seq<char>, p: int)
    requires
        0 <= p <= s.len(),
        forall|j: int| 0 <= j < p ==> #[trigger] s[j] == '#',
        p == s.len() || s[p] != '#',
    ensures
        strip_hashes(s) == s.skip(p),
    decreases p,
{
    if p == 0 {
        assert(s.skip(0) =~= s);
    } else {
        let t = s.drop_first();
        assert forall|j: int| 0 <= j < p - 1 implies #[trigger] t[j] == '#' by {
            assert(t[j] == s[j + 1]);
        }
        lemma_strip_hashes(t, p - 1);
        assert(t.skip(p - 1) =~= s.skip(p));
    }
}

fn hex_value_exec(b: u8) -> (r: Option<u8>)
    ensures
        r == hex_digit_value(b),
{
    if 48 <= b && b <= 57 {
        Some(b - 48)
    } else if 65 <= b && b <= 70 {
        Some(b - 55)
    } else if 97 <= b && b <= 102 {
        Some(b - 87)
    } else {
        None
    }
}

fn hex_pair_exec(bytes: &[u8], i: usize) -> (r: Option<u8>)
    requires
        i + 1 < bytes@.len(),
    ensures
        r == hex_pair(bytes@, i as int),
{
    let b0 = bytes[i];
    let b1 = bytes[i + 1];
    match (hex_value_exec(b0), hex_value_exec(b1)) {
        (Some(h), Some(l)) => Some(16 * h + l),
        _ => None,
    }
}

/// The UTF-8 encoding of ASCII characters is their codes, one byte each.
proof fn lemma_encode_ascii(s: Seq<char>)
    requires
        forall|i: int| 0 <= i < s.len() ==> (#[trigger] s[i] as u32) < 128,
    ensures
        encode_utf8(s) == Seq::new(s.len(), |i: int| (s[i] as u32) as u8),
    decreases s.len(),
{
    if s.len() > 0 {
        let t = s.drop_first();
        assert forall|i: int| 0 <= i < t.len() implies (#[trigger] t[i] as u32) < 128 by {
            assert(t[i] == s[i + 1]);
        }
        lemma_encode_ascii(t);
        let x = s[0] as u32;
        assert((x & 0x7Fu32) as u8 == x as u8) by (bit_vector)
            requires
                x < 128u32,
        ;
        assert(encode_utf8(s) =~= Seq::new(s.len(), |i: int| (s[i] as u32) as u8));
    }
}

/// A hexadecimal digit character is an ASCII code that is neither white
/// space nor '#', and reads back as its digit.
proof fn lemma_hex_char(d: int)
    requires
        0 <= d < 16,
    ensures
        (hex_char(d) as u32) < 128,
        !is_unicode_whitespace(hex_char(d)),
        hex_char(d) != '#',
        hex_digit_value((hex_char(d) as u32) as u8) == Some(d as u8),
{
    if d < 10 {
        assert(hex_char(d) as u32 == 48 + d);
    } else {
        assert(hex_char(d) as u32 == 55 + d);
    }
}

/// The two digits of a byte read back as the byte.
proof fn lemma_hex2_pair(v: u8, bytes: Seq<u8>, i: int)
    requires
        0 <= i,
        i + 1 < bytes.len(),
        bytes[i] == (hex_char(v as int / 16) as u32) as u8,
        bytes[i + 1] == (hex_char(v as int % 16) as u32) as u8,
    ensures
        hex_pair(bytes, i) == Some(v),
{
    lemma_hex_char(v as int / 16);
    lemma_hex_char(v as int % 16);
}

/// Reading back the hexadecimal form of a color gives the color again, and
/// the form is cut only at character boundaries.
pub proof fn lemma_hex_roundtrip(c: Color)
    ensures
        hex_color_cuts_ok(to_hex_spec(c)),
        from_hex_spec(to_hex_spec(c)) == Some(c),
{
    let h = to_hex_spec(c);
    let body = h.drop_first();
    lemma_hex_char(c.r as int / 16);
    lemma_hex_char(c.r as int % 16);
    lemma_hex_char(c.g as int / 16);
    lemma_hex_char(c.g as int % 16);
    lemma_hex_char(c.b as int / 16);
    lemma_hex_char(c.b as int % 16);
    lemma_hex_char(c.a as int / 16);
    lemma_hex_char(c.a as int % 16);
    assert(h[0] == '#');
    assert(!is_unicode_whitespace('#'));
    assert(trim_front(h) == h);
    assert(trim_back(h) == h);
    assert(trim_spec(h) == h);
    assert(body[0] != '#');
    assert(strip_hashes(body) == body);
    assert(strip_hashes(h) == body);
    assert forall|i: int| 0 <= i < body.len() implies (#[trigger] body[i] as u32) < 128 by {}
    lemma_encode_ascii(body);
    let b = hex_color_bytes(h);
    assert(b == encode_utf8(body));
    assert(b.len() == body.len());
    lemma_hex2_pair(c.r, b, 0);
    lemma_hex2_pair(c.g, b, 2);
    lemma_hex2_pair(c.b, b, 4);
    if c.a != 255 {
        lemma_hex2_pair(c.a, b, 6);
    }
    vstd::utf8::encode_utf8_valid_utf8(body);
    assert forall|i: int| 0 <= i < b.len() implies #[trigger] is_char_boundary(b, i) by {
        vstd::utf8::is_char_boundary_iff_not_is_continuation_byte(b, i);
    }
}

/// The text `label: 'quoted'`.
fn quoted_message(label: &str, quoted: &str) -> (m: String)
    ensures
        m@ == label@ + seq![':', ' ', '\''] + quoted@ + seq!['\''],
{
    proof {
        reveal_strlit(": '");
        reveal_strlit("'");
    }
    let mut m = String::from_str(label);
    m.append(": '");
    m.append(quoted);
    m.append("'");
    assert(m@ =~= label@ + seq![':', ' ', '\''] + quoted@ + seq!['\'']);
    m
}

impl Color {
    pub fn new(r: u8, g: u8, b: u8, a: u8) -> (c: Self)
        ensures
            c == (Color { r, g, b, a }),
    {
        Self { r, g, b, a }
    }

    pub fn rgb(r: u8, g: u8, b: u8) -> (c: Self)
        ensures
            c == (Color { r, g, b, a: 255 }),
    {
        Self { r, g, b, a: 255 }
    }

    /// Opaque black.
    pub fn black() -> (c: Self)
        ensures
            c == (Color { r: 0, g: 0, b: 0, a: 255 }),
    {
        Self { r: 0, g: 0, b: 0, a: 255 }
    }

    /// Opaque white.
    pub fn white() -> (c: Self)
        ensures
            c == (Color { r: 255, g: 255, b: 255, a: 255 }),
    {
        Self { r: 255, g: 255, b: 255, a: 255 }
    }

    /// Fully transparent black.
    pub fn transparent() -> (c: Self)
        ensures
            c == (Color { r: 0, g: 0, b: 0, a: 0 }),
    {
        Self { r: 0, g: 0, b: 0, a: 0 }
    }

    /// Neon green, #00FF94.
    pub fn neon_green() -> (c: Self)
        ensures
            c == (Color { r: 0, g: 255, b: 148, a: 255 }),
    {
        Self { r: 0, g: 255, b: 148, a: 255 }
    }

    /// Near-black background, #0A0A0A.
    pub fn dark_bg() -> (c: Self)
        ensures
            c == (Color { r: 10, g: 10, b: 10, a: 255 }),
    {
        Self { r: 10, g: 10, b: 10, a: 255 }
    }

    /// Parse color from hex string: "#RRGGBB" or "#RRGGBBAA" (with or without
    /// '#', surrounding white space ignored). Each component is two
    /// hexadecimal digits; a sign such as "+F" is refused.
    pub fn from_hex(s: &str) -> (r: Result<Self, RrcError>)
        requires
            hex_color_cuts_ok(s@),
        ensures
            match from_hex_spec(s@) {
                Some(c) => r == Ok::<Color, RrcError>(c),
                None => r matches Err(RrcError::RenderError(m)) && (hex_color_bytes(s@).len() == 6
                    || hex_color_bytes(s@).len() == 8 ==> m@ == "Invalid hex color"@) && (!(
                hex_color_bytes(s@).len() == 6 || hex_color_bytes(s@).len() == 8) ==> m@
                    == "Invalid hex color length"@ + seq![':', ' ', '\''] + s@ + seq!['\'']),
            },
    {
        let (lo, hi) = trim_bounds(s);
        let mut p = lo;
        while p < hi && s.get_char(p) == '#'
            invariant
                lo <= p <= hi <= s@.len(),
                forall|j: int| lo <= j < p ==> #[trigger] s@[j] == '#',
            decreases hi - p,
        {
            p = p + 1;
        }
        proof {
            let t = s@.subrange(lo as int, hi as int);
            assert forall|j: int| 0 <= j < p - lo implies #[trigger] t[j] == '#' by {
                assert(t[j] == s@[j + lo]);
            }
            if p < hi {
                assert(t[p - lo] == s@[p as int]);
            }
            lemma_strip_hashes(t, p - lo);
            assert(t.skip(p - lo) =~= s@.subrange(p as int, hi as int));
        }
        let clean = s.substring_char(p, hi);
        let bytes = clean.as_bytes();
        assert(bytes@ == hex_color_bytes(s@));
        let n = bytes.len();
        if n == 6 || n == 8 {
            let r = hex_pair_exec(bytes, 0);
            let g = hex_pair_exec(bytes, 2);
            let b = hex_pair_exec(bytes, 4);
            let a = if n == 8 {
                hex_pair_exec(bytes, 6)
            } else {
                Some(255)
            };
            match (r, g, b, a) {
                (Some(r), Some(g), Some(b), Some(a)) => Ok(Self::new(r, g, b, a)),
                _ => {
                    proof {
                        reveal_strlit("Invalid hex color");
                    }
                    Err(RrcError::RenderError(String::from_str("Invalid hex color")))
                },
            }
        } else {
            proof {
                reveal_strlit("Invalid hex color length");
            }
            Err(RrcError::RenderError(quoted_message("Invalid hex color length", s)))
        }
    }

    /// Format as standard "#RRGGBB" hex string (or "#RRGGBBAA" if alpha < 255).
    pub fn to_hex(self) -> (h: String)
        ensures
            h@ == to_hex_spec(self),
    {
        proof {
            reveal_strlit("#");
        }
        let mut out = String::from_str("#");
        push_hex2(&mut out, self.r);
        push_hex2(&mut out, self.g);
        push_hex2(&mut out, self.b);
        if self.a != 255 {
            push_hex2(&mut out, self.a);
        }
        assert(out@ =~= to_hex_spec(self));
        out
    }

    /// Check if color is considered dark (luminance < 0.5).
    pub fn is_dark(self) -> (d: bool)
        ensures
            d == is_dark_spec(self),
    {
        let sum: u32 = 299 * (self.r as u32) + 587 * (self.g as u32) + 114 * (self.b as u32);
        if sum < 127500 {
            return true;
        }
        if sum > 127500 {
            return false;
        }
        let (r, g, b) = (self.r, self.g, self.b);
        (r == 37 && g == 197 && b == 7) || (r == 56 && g == 178 && b == 55) || (r == 75 && g == 159
            && b == 103) || (r == 86 && g == 160 && b == 69) || (r == 105 && g == 141 && b == 117)
            || (r == 154 && g == 104 && b == 179) || (r == 173 && g == 85 && b == 227) || (r == 217
            && g == 89 && b == 91) || (r == 224 && g == 100 && b == 16) || (r == 232 && g == 80 && b
            == 98) || (r == 236 && g == 70 && b == 139) || (r == 243 && g == 81 && b == 64) || (r
            == 251 && g == 61 && b == 146) || (r == 255 && g == 51 && b == 187)
    }
}

impl Default for Color {
    fn default() -> (c: Self)
        ensures
            c == (Color { r: 0, g: 0, b: 0, a: 255 }),
    {
        Self::black()
    }
}

/// Visual style of individual data sectors.
#[derive(Debug, Clone, Copy, PartialEq, Eq, Structural)]
pub enum SectorStyle {
    /// Clean geometric wedge edges, maximum optical contrast.
    Sharp,
    /// Outer and inner arcs rounded for softer aesthetics.
    Rounded,
    /// Pill/stadium shape fitting inside annular wedge bounds.
    Pill,
    /// Only the inner arc is rounded.
    InnerRounded,
}

impl Default for SectorStyle {
    fn default() -> (s: Self)
        ensures
            s == SectorStyle::Sharp,
    {
        SectorStyle::Sharp
    }
}

/// ASCII lowercase of a character, with '-' read as '_'.
pub open spec fn style_char(c: char) -> char {
    if c == '-' {
        '_'
    } else if 'A' <= c <= 'Z' {
        ((c as u32) + 32) as char
    } else {
        c
    }
}

/// A string trimmed, lowercased in ASCII, and with '-' read as '_'.
pub open spec fn style_key(s: Seq<char>) -> Seq<char> {
    trim_spec(s).map_values(|c: char| style_char(c))
}

/// The sector style named by a string, if any.
pub open spec fn sector_style_spec(s: Seq<char>) -> Option<SectorStyle> {
    let k = style_key(s);
    if k == seq!['s', 'h', 'a', 'r', 'p'] {
        Some(SectorStyle::Sharp)
    } else if k == seq!['r', 'o', 'u', 'n', 'd', 'e', 'd'] {
        Some(SectorStyle::Rounded)
    } else if k == seq!['p', 'i', 'l', 'l'] {
        Some(SectorStyle::Pill)
    } else if k == seq!['i', 'n', 'n', 'e', 'r', '_', 'r', 'o', 'u', 'n', 'd', 'e', 'd'] || k
        == seq!['i', 'n', 'n', 'e', 'r', 'r', 'o', 'u', 'n', 'd', 'e', 'd'] {
        Some(SectorStyle::InnerRounded)
    } else {
        None
    }
}

fn chars_equal(a: &Vec<char>, b: &[char]) -> (r: bool)
    ensures
        r == (a@ == b@),
{
    if a.len() != b.len() {
        return false;
    }
    let mut i: usize = 0;
    while i < a.len()
        invariant
            0 <= i <= a@.len(),
            a@.len() == b@.len(),
            forall|j: int| 0 <= j < i ==> a@[j] == b@[j],
        decreases a@.len() - i,
    {
        if a[i] != b[i] {
            return false;
        }
        i = i + 1;
    }
    assert(a@ =~= b@);
    true
}

impl SectorStyle {
    /// Parse a style name: case-insensitive in ASCII, '-' and '_' alike,
    /// surrounding white space ignored.
    pub fn from_str_loose(s: &str) -> (r: Result<Self, RrcError>)
        ensures
            match sector_style_spec(s@) {
                Some(st) => r == Ok::<SectorStyle, RrcError>(st),
                None => r matches Err(RrcError::RenderError(m)) && m@ == "Unknown sector style"@
                    + seq![':', ' ', '\''] + s@ + seq!['\''],
            },
    {
        let (lo, hi) = trim_bounds(s);
        let mut key: Vec<char> = Vec::new();
        let mut i = lo;
        while i < hi
            invariant
                lo <= i <= hi <= s@.len(),
                trim_spec(s@) == s@.subrange(lo as int, hi as int),
                key@ == s@.subrange(lo as int, i as int).map_values(|c: char| style_char(c)),
            decreases hi - i,
        {
            let c = s.get_char(i);
            let k = if c == '-' {
                '_'
            } else if 'A' <= c && c <= 'Z' {
                ((c as u32) + 32) as u8 as char
            } else {
                c
            };
            proof {
                if 'A' <= c && c <= 'Z' {
                    assert(((c as u32) + 32) as u8 as char == ((c as u32) + 32) as char);
                }
            }
            key.push(k);
            assert(key@ =~= s@.subrange(lo as int, i + 1).map_values(|c: char| style_char(c)));
            i = i + 1;
        }
        assert(key@ == style_key(s@));
        if chars_equal(&key, &['s', 'h', 'a', 'r', 'p']) {
            Ok(SectorStyle::Sharp)
        } else if chars_equal(&key, &['r', 'o', 'u', 'n', 'd', 'e', 'd']) {
            Ok(SectorStyle::Rounded)
        } else if chars_equal(&key, &['p', 'i', 'l', 'l']) {
            Ok(SectorStyle::Pill)
        } else if chars_equal(&key, &['i', 'n', 'n', 'e', 'r', '_', 'r', 'o', 'u', 'n', 'd', 'e', 'd'])
            || chars_equal(&key, &['i', 'n', 'n', 'e', 'r', 'r', 'o', 'u', 'n', 'd', 'e', 'd']) {
            Ok(SectorStyle::InnerRounded)
        } else {
            proof {
                reveal_strlit("Unknown sector style");
            }
            Err(RrcError::RenderError(quoted_message("Unknown sector style", s)))
        }
    }
}

// ---------------------------------------------------------------------------
// Raster encodings
// ---------------------------------------------------------------------------

/// The error type of the `image` crate, carried through opaquely.
#[verifier::external_type_specification]
#[verifier::external_body]
pub struct ExImageError(image::ImageError);

/// The PNG file the `image` crate writes for an RGBA8 pixel buffer.
pub uninterp spec fn png_encoding(rgba: Seq<u8>, width: u32, height: u32) -> Seq<u8>;

/// The baseline JPEG file the `image` crate writes for an RGB8 pixel buffer
/// at a quality.
pub uninterp spec fn jpeg_encoding(rgb: Seq<u8>, width: u32, height: u32, quality: u8) -> Seq<u8>;

/// `PngEncoder::write_image` on an in-memory buffer with `Rgba8` pixels.
/// The encoder asserts that the buffer holds exactly `width * height * 4`
/// bytes. Writing into memory cannot fail, and the `png` crate refuses only
/// a zero width or height, so the call succeeds exactly when both are
/// positive; a successful run yields the PNG file of the pixels, which
/// depends on the pixels and dimensions alone.
#[verifier::external_body]
fn png_write(rgba: &[u8], width: u32, height: u32) -> (r: Result<Vec<u8>, image::ImageError>)
    requires
        rgba@.len() == width * height * 4,
    ensures
        (r is Ok) == (width > 0 && height > 0),
        r matches Ok(v) ==> v@ == png_encoding(rgba@, width, height),
{
    let mut out = std::io::Cursor::new(Vec::new());
    let encoder = image::codecs::png::PngEncoder::new(&mut out);
    match encoder.write_image(rgba, width, height, image::ExtendedColorType::Rgba8) {
        Ok(()) => Ok(out.into_inner()),
        Err(e) => Err(e),
    }
}

/// `JpegEncoder::new_with_quality` then `write_image` on an in-memory
/// buffer with `Rgb8` pixels. The encoder asserts that the buffer holds
/// exactly `width * height * 3` bytes. Writing into memory cannot fail, and
/// the encoder refuses only dimensions outside `1..=65535`, so the call
/// succeeds exactly when both dimensions lie in that range; a successful run
/// yields the JPEG file of the pixels at that quality, which depends on its
/// arguments alone.
#[verifier::external_body]
fn jpeg_write(rgb: &[u8], width: u32, height: u32, quality: u8) -> (r: Result<
    Vec<u8>,
    image::ImageError,
>)
    requires
        rgb@.len() == width * height * 3,
    ensures
        (r is Ok) == (1 <= width <= 65535 && 1 <= height <= 65535),
        r matches Ok(v) ==> v@ == jpeg_encoding(rgb@, width, height, quality),
{
    let mut out = std::io::Cursor::new(Vec::new());
    let encoder = image::codecs::jpeg::JpegEncoder::new_with_quality(&mut out, quality);
    match encoder.write_image(rgb, width, height, image::ExtendedColorType::Rgb8) {
        Ok(()) => Ok(out.into_inner()),
        Err(e) => Err(e),
    }
}

/// The `Display` text of an `image` crate error; nothing is claimed of it.
#[verifier::external_body]
fn image_error_text(e: &image::ImageError) -> String {
    e.to_string()
}

/// A render error whose text is `prefix` followed by an image error's text.
fn image_render_error(prefix: &str, e: &image::ImageError) -> (err: RrcError)
    ensures
        err matches RrcError::RenderError(m) && m@.len() >= prefix@.len() && m@.take(
            prefix@.len() as int,
        ) == prefix@,
{
    let mut m = String::from_str(prefix);
    let text = image_error_text(e);
    m.append(text.as_str());
    assert(m@.take(prefix@.len() as int) =~= prefix@);
    RrcError::RenderError(m)
}

/// Encode an RGBA8 pixel buffer of `width` x `height` pixels as PNG.
pub fn encode_png_rgba(rgba: &[u8], width: u32, height: u32) -> (r: Result<Vec<u8>, RrcError>)
    requires
        rgba@.len() == width * height * 4,
    ensures
        (r is Ok) == (width > 0 && height > 0),
        r matches Ok(v) ==> v@ == png_encoding(rgba@, width, height),
        r matches Err(e) ==> e matches RrcError::RenderError(m) && m@.len() >= 20 && m@.take(20)
            == "PNG encoding error: "@,
{
    proof {
        reveal_strlit("PNG encoding error: ");
    }
    match png_write(rgba, width, height) {
        Ok(v) => Ok(v),
        Err(e) => Err(image_render_error("PNG encoding error: ", &e)),
    }
}

/// A color channel of a pixel with alpha `a` composited onto a background
/// channel: kept when opaque, else `(v a + bg (255 - a)) / 255`.
pub open spec fn composite_channel(v: u8, a: u8, bg: u8) -> u8 {
    if a == 255 {
        v
    } else {
        ((v * a + bg * (255 - a)) / 255) as u8
    }
}

/// RGBA8 pixels composited onto an opaque background as RGB8 pixels.
pub open spec fn composite_spec(rgba: Seq<u8>, bg: Color) -> Seq<u8> {
    Seq::new(
        (3 * (rgba.len() / 4)) as nat,
        |i: int|
            {
                let p = i / 3;
                let c = i % 3;
                let a = rgba[4 * p + 3];
                let back = if c == 0 {
                    bg.r
                } else if c == 1 {
                    bg.g
                } else {
                    bg.b
                };
                composite_channel(rgba[4 * p + c], a, back)
            },
    )
}

fn composite(v: u8, a: u8, bg: u8) -> (r: u8)
    ensures
        r == composite_channel(v, a, bg),
{
    if a == 255 {
        v
    } else {
        let a32 = a as u32;
        let v32 = v as u32;
        let b32 = bg as u32;
        assert(v32 * a32 <= 255 * 255 && b32 * (255 - a32) <= 255 * 255) by (nonlinear_arith)
            requires
                v32 <= 255,
                b32 <= 255,
                a32 <= 255,
        ;
        let x = (v32 * a32 + b32 * (255 - a32)) / 255;
        assert(x <= 255) by (nonlinear_arith)
            requires
                x == (v32 * a32 + b32 * (255 - a32)) / 255,
                v32 <= 255,
                b32 <= 255,
                a32 <= 255,
        ;
        x as u8
    }
}

/// Composite RGBA8 pixels onto an opaque background, giving RGB8 pixels.
pub fn composite_rgb(rgba: &[u8], bg: Color) -> (rgb: Vec<u8>)
    requires
        rgba@.len() % 4 == 0,
    ensures
        rgb@ == composite_spec(rgba@, bg),
{
    let len = rgba.len();
    let n = len / 4;
    let mut out: Vec<u8> = Vec::new();
    let mut p: usize = 0;
    while p < n
        invariant
            0 <= p <= n,
            len == rgba@.len(),
            n == rgba@.len() / 4,
            rgba@.len() % 4 == 0,
            out@ == composite_spec(rgba@, bg).take(3 * p),
        decreases n - p,
    {
        let a = rgba[4 * p + 3];
        out.push(composite(rgba[4 * p], a, bg.r));
        out.push(composite(rgba[4 * p + 1], a, bg.g));
        out.push(composite(rgba[4 * p + 2], a, bg.b));
        proof {
            let want = composite_spec(rgba@, bg);
            assert forall|i: int| 3 * p <= i < 3 * p + 3 implies (#[trigger] want[i]) == out@[i] by {
                assert(i / 3 == p);
            }
            assert(out@ =~= want.take(3 * p + 3));
        }
        p = p + 1;
    }
    assert(composite_spec(rgba@, bg).take(3 * n) =~= composite_spec(rgba@, bg));
    out
}

/// Encode an RGBA8 pixel buffer of `width` x `height` pixels as JPEG at
/// `quality` (clamped to 1..=100), compositing transparent pixels onto
/// the background color.
pub fn encode_jpeg_rgba(
    rgba: &[u8],
    width: u32,
    height: u32,
    background: Color,
    quality: u8,
) -> (r: Result<Vec<u8>, RrcError>)
    requires
        rgba@.len() == width * height * 4,
    ensures
        (r is Ok) == (1 <= width <= 65535 && 1 <= height <= 65535),
        r matches Ok(v) ==> v@ == jpeg_encoding(
            composite_spec(rgba@, background),
            width,
            height,
            if quality < 1 {
                1u8
            } else if quality > 100 {
                100u8
            } else {
                quality
            },
        ),
        r matches Err(e) ==> e matches RrcError::RenderError(m) && m@.len() >= 21 && m@.take(21)
            == "JPEG encoding error: "@,
{
    proof {
        reveal_strlit("JPEG encoding error: ");
    }
    let q = if quality < 1 {
        1
    } else if quality > 100 {
        100
    } else {
        quality
    };
    let rgb = composite_rgb(rgba, background);
    assert(rgb@.len() == width * height * 3) by (nonlinear_arith)
        requires
            rgb@.len() == 3 * (rgba@.len() / 4),
            rgba@.len() == width * height * 4,
    ;
    match jpeg_write(rgb.as_slice(), width, height, q) {
        Ok(v) => Ok(v),
        Err(e) => Err(image_render_error("JPEG encoding error: ", &e)),
    }
}

} // verus!
