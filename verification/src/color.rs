//! RGB color values: construction from RGB, HSV and hex text, and
//! capability-aware conversion to ANSI escape sequences.

use vstd::prelude::*;
use vstd::string::*;
use crate::strfmt::{dec_digit, dec_digits, push_char, push_dec, str_eq};
use crate::palette::{palette_seq, term_palette, term_palette16};

verus! {

/// The capability tier that two environment-style hints denote: the
/// color-terminal hint decides first; failing that, the terminal-type
/// hint; with neither hint, no color at all.
pub fn get_term_color_support(colorterm: Option<&str>, term: Option<&str>) -> (r:
    TermColorSupport)
    ensures
        r == (match colorterm {
            Some(v) => if v@ == "truecolor"@ || v@ == "24bit"@ {
                TermColorSupport::TrueColor
            } else if v@ == "256color"@ || v@ == "8bit"@ {
                TermColorSupport::Ansi256
            } else {
                TermColorSupport::Ansi16
            },
            None => match term {
                Some(v) => if v@ == "xterm-256color"@ || v@ == "screen-256color"@ || v@
                    == "tmux-256color"@ || v@ == "rxvt-unicode-256color"@ || v@ == "linux"@ {
                    TermColorSupport::Ansi256
                } else {
                    TermColorSupport::Ansi16
                },
                None => TermColorSupport::NoColor,
            },
        }),
{
    match colorterm {
        Some(v) => {
            if str_eq(v, "truecolor") || str_eq(v, "24bit") {
                TermColorSupport::TrueColor
            } else if str_eq(v, "256color") || str_eq(v, "8bit") {
                TermColorSupport::Ansi256
            } else {
                TermColorSupport::Ansi16
            }
        },
        None => {
            match term {
                Some(v) => {
                    if str_eq(v, "xterm-256color") || str_eq(v, "screen-256color") || str_eq(
                        v,
                        "tmux-256color",
                    ) || str_eq(v, "rxvt-unicode-256color") || str_eq(v, "linux") {
                        TermColorSupport::Ansi256
                    } else {
                        TermColorSupport::Ansi16
                    }
                },
                None => TermColorSupport::NoColor,
            }
        },
    }
}

/// Squared Euclidean distance between two colors in RGB space.
pub open spec fn dist2(a: Color, b: Color) -> int {
    (a.r as int - b.r as int) * (a.r as int - b.r as int) + (a.g as int - b.g as int) * (a.g
        as int - b.g as int) + (a.b as int - b.b as int) * (a.b as int - b.b as int)
}

/// `k` is the first index of `s` at the least squared distance from `c`.
pub open spec fn is_first_min(c: Color, s: Seq<Color>, k: int) -> bool {
    &&& 0 <= k < s.len()
    &&& forall|j: int| 0 <= j < s.len() ==> dist2(c, s[k]) <= dist2(c, #[trigger] s[j])
    &&& forall|j: int| 0 <= j < k ==> dist2(c, #[trigger] s[j]) > dist2(c, s[k])
}

/// The first index of `s` at the least squared distance from `c`.
pub open spec fn nearest_idx(c: Color, s: Seq<Color>) -> int {
    choose|k: int| is_first_min(c, s, k)
}

/// A first minimum is unique, so it is what `nearest_idx` denotes.
pub proof fn lemma_nearest_idx(c: Color, s: Seq<Color>, k: int)
    requires
        is_first_min(c, s, k),
    ensures
        nearest_idx(c, s) == k,
{
    let k2 = nearest_idx(c, s);
    assert(is_first_min(c, s, k2));
    if k < k2 {
        assert(dist2(c, s[k]) > dist2(c, s[k2]));
        assert(false);
    }
    if k2 < k {
        assert(dist2(c, s[k2]) > dist2(c, s[k]));
        assert(false);
    }
}

/// Law: on a palette of a single color, the nearest-color search returns
/// that color, whatever the distance to it.
pub proof fn lemma_singleton_palette(c: Color, s: Seq<Color>)
    requires
        s.len() == 1,
    ensures
        nearest_idx(c, s) == 0,
{
    assert(is_first_min(c, s, 0));
    lemma_nearest_idx(c, s, 0);
}

/// Why a color could not be built from its input.
#[derive(Clone, Copy, PartialEq, Eq, Structural, Debug)]
pub enum ColorError {
    /// Hue outside [0, 360) degrees, or saturation or value outside [0, 1].
    InvalidHsv,
    /// Hex text that is not an optional '#' followed by six hex digits.
    MalformedHex,
}

/// How much color the target terminal understands.
#[derive(Clone, Copy, PartialEq, Eq, Structural, Debug)]
pub enum TermColorSupport {
    TrueColor,
    Ansi256,
    Ansi16,
    NoColor,
}

/// An RGB color with three 8-bit channels.
#[derive(Clone, Copy, PartialEq, Eq, Structural, Debug)]
pub struct Color {
    pub r: u8,
    pub g: u8,
    pub b: u8,
}

impl Default for Color {
    /// Black: every channel zero.
    fn default() -> (c: Color)
        ensures
            c == (Color { r: 0, g: 0, b: 0 }),
    {
        Color { r: 0, g: 0, b: 0 }
    }
}

/// Whether `c` is a hexadecimal digit, of either case.
pub open spec fn is_hex_digit(c: char) -> bool {
    ('0' <= c && c <= '9') || ('a' <= c && c <= 'f') || ('A' <= c && c <= 'F')
}

/// The value of a hexadecimal digit character.
pub open spec fn hex_val(c: char) -> int {
    if '0' <= c && c <= '9' {
        c as int - '0' as int
    } else if 'a' <= c && c <= 'f' {
        10 + c as int - 'a' as int
    } else {
        10 + c as int - 'A' as int
    }
}

/// The lowercase character for one hexadecimal digit.
pub open spec fn hex_digit(d: int) -> char {
    if d < 10 {
        dec_digit(d)
    } else if d == 10 {
        'a'
    } else if d == 11 {
        'b'
    } else if d == 12 {
        'c'
    } else if d == 13 {
        'd'
    } else if d == 14 {
        'e'
    } else {
        'f'
    }
}

/// A hex digit character, lowered to lowercase; any other character unchanged.
pub open spec fn lower_hex(c: char) -> char {
    if 'A' <= c && c <= 'F' {
        hex_digit(hex_val(c))
    } else {
        c
    }
}

/// The digits of hex color text: everything after one optional leading '#'.
pub open spec fn hex_body(s: Seq<char>) -> Seq<char> {
    if s.len() >= 1 && s[0] == '#' {
        s.skip(1)
    } else {
        s
    }
}

/// Well-formed hex color text: an optional leading '#', then exactly six
/// hex digits.
pub open spec fn is_valid_hex(s: Seq<char>) -> bool {
    &&& hex_body(s).len() == 6
    &&& forall|i: int| 0 <= i < 6 ==> is_hex_digit(#[trigger] hex_body(s)[i])
}

/// The channel value written by digits `b[2k]` and `b[2k + 1]`.
pub open spec fn hex_channel(b: Seq<char>, k: int) -> int {
    hex_val(b[2 * k]) * 16 + hex_val(b[2 * k + 1])
}

/// The color that valid hex color text denotes.
pub open spec fn from_hex_spec(s: Seq<char>) -> Color {
    Color {
        r: hex_channel(hex_body(s), 0) as u8,
        g: hex_channel(hex_body(s), 1) as u8,
        b: hex_channel(hex_body(s), 2) as u8,
    }
}

/// The two lowercase hex digits of one channel value.
pub open spec fn hex_byte(n: int) -> Seq<char> {
    seq![hex_digit(n / 16), hex_digit(n % 16)]
}

/// The '#rrggbb' rendering of a color, in lowercase.
pub open spec fn to_hex_spec(c: Color) -> Seq<char> {
    seq!['#'] + hex_byte(c.r as int) + hex_byte(c.g as int) + hex_byte(c.b as int)
}

/// The value of a hex digit character, or None for any other character.
fn hex_digit_val(c: char) -> (r: Option<u8>)
    ensures
        r is Some <==> is_hex_digit(c),
        r matches Some(v) ==> v == hex_val(c) && v < 16,
{
    if '0' <= c && c <= '9' {
        Some(c as u8 - '0' as u8)
    } else if 'a' <= c && c <= 'f' {
        Some(10 + (c as u8 - 'a' as u8))
    } else if 'A' <= c && c <= 'F' {
        Some(10 + (c as u8 - 'A' as u8))
    } else {
        None
    }
}

fn hex_digit_exec(d: u8) -> (c: char)
    requires
        d < 16,
    ensures
        c == hex_digit(d as int),
{
    if d == 0 {
        '0'
    } else if d == 1 {
        '1'
    } else if d == 2 {
        '2'
    } else if d == 3 {
        '3'
    } else if d == 4 {
        '4'
    } else if d == 5 {
        '5'
    } else if d == 6 {
        '6'
    } else if d == 7 {
        '7'
    } else if d == 8 {
        '8'
    } else if d == 9 {
        '9'
    } else if d == 10 {
        'a'
    } else if d == 11 {
        'b'
    } else if d == 12 {
        'c'
    } else if d == 13 {
        'd'
    } else if d == 14 {
        'e'
    } else {
        'f'
    }
}

fn push_hex_byte(s: &mut String, v: u8)
    ensures
        final(s)@ == old(s)@ + hex_byte(v as int),
{
    push_char(s, hex_digit_exec(v / 16));
    push_char(s, hex_digit_exec(v % 16));
    proof {
        assert(s@ =~= old(s)@ + hex_byte(v as int));
    }
}

/// The 24-bit foreground escape for a color.
pub open spec fn true_color_escape(c: Color) -> Seq<char> {
    seq!['\u{1b}', '[', '3', '8', ';', '2', ';'] + dec_digits(c.r as int) + seq![';'] + dec_digits(
        c.g as int,
    ) + seq![';'] + dec_digits(c.b as int) + seq!['m']
}

/// The 256-color foreground escape for a palette index.
pub open spec fn ansi256_escape(idx: int) -> Seq<char> {
    seq!['\u{1b}', '[', '3', '8', ';', '5', ';'] + dec_digits(idx) + seq!['m']
}

/// The classic foreground escape for one of the first sixteen palette
/// indices: prefix 3 for indices 0 to 7, prefix 9 for 8 to 15, and the
/// code cycling modulo 8.
pub open spec fn ansi16_escape(idx: int) -> Seq<char> {
    seq!['\u{1b}', '['] + seq![if idx > 7 { '9' } else { '3' }] + dec_digits(idx % 8) + seq!['m']
}

/// The escape text a color renders as under a capability tier, or None
/// where the tier carries no color at all.
pub open spec fn escape_chars(c: Color, t: TermColorSupport) -> Option<Seq<char>> {
    match t {
        TermColorSupport::TrueColor => Some(true_color_escape(c)),
        TermColorSupport::Ansi256 => Some(ansi256_escape(nearest_idx(c, palette_seq()))),
        TermColorSupport::Ansi16 => Some(ansi16_escape(nearest_idx(c, palette_seq().take(16)))),
        TermColorSupport::NoColor => None,
    }
}

fn sq_diff(x: u8, y: u8) -> (d: u32)
    ensures
        d as int == (x as int - y as int) * (x as int - y as int),
        d <= 65025,
{
    let dx: i32 = x as i32 - y as i32;
    proof {
        assert(-255 <= dx as int <= 255);
        assert(0 <= dx as int * dx as int <= 65025) by (nonlinear_arith)
            requires
                -255 <= dx as int <= 255,
        ;
    }
    (dx * dx) as u32
}

fn dist2_exec(a: &Color, b: &Color) -> (d: u32)
    ensures
        d as int == dist2(*a, *b),
{
    sq_diff(a.r, b.r) + sq_diff(a.g, b.g) + sq_diff(a.b, b.b)
}

impl Color {
    /// New color from red, green and blue channels.
    pub fn new_rgb(red: u8, green: u8, blue: u8) -> (c: Color)
        ensures
            c == (Color { r: red, g: green, b: blue }),
    {
        Color { r: red, g: green, b: blue }
    }

    /// New color from HSV. The hue is given in tenths of a degree and must
    /// lie within [0, 360) degrees; saturation and value are given in
    /// thousandths and must lie within [0, 1]. Anything else is rejected.
    pub fn new_hsv(hue: i32, saturation: i32, value: i32) -> (c: Result<Color, ColorError>)
        ensures
            hsv_valid(hue as int, saturation as int, value as int) ==> c == Ok::<
                Color,
                ColorError,
            >(hsv_rgb(hue as int, saturation as int, value as int)),
            !hsv_valid(hue as int, saturation as int, value as int) ==> c == Err::<
                Color,
                ColorError,
            >(ColorError::InvalidHsv),
    {
        if !(0 <= hue && hue < 3600 && 0 <= saturation && saturation <= 1000 && 0 <= value
            && value <= 1000) {
            return Err(ColorError::InvalidHsv);
        }
        let h = hue as u64;
        let s = saturation as u64;
        let v = value as u64;
        proof {
            assert(v as int * s as int <= 1000000 && v as int * s as int <= v as int * 1000)
                by (nonlinear_arith)
                requires
                    0 <= s as int <= 1000,
                    0 <= v as int <= 1000,
            ;
        }
        let c: u64 = v * s;
        let m: u64 = v * 1000 - c;
        let t: u64 = h % 1200;
        let d: u64 = if t < 600 {
            600 - t
        } else {
            t - 600
        };
        proof {
            assert(c as int * (600 - d as int) <= 600000000 && 0 <= c as int * (600 - d as int)
                && c as int * (600 - d as int) <= c as int * 600) by (nonlinear_arith)
                requires
                    0 <= c as int <= 1000000,
                    0 <= 600 - d as int <= 600,
            ;
            assert(c as int * (600 - d as int) / 600 <= c as int) by (nonlinear_arith)
                requires
                    0 <= c as int * (600 - d as int) <= c as int * 600,
                    0 <= c as int,
            ;
        }
        let x: u64 = c * (600 - d) / 600;
        let nc = hsv_scale(c, m);
        let nx = hsv_scale(x, m);
        let no = hsv_scale(0, m);
        let col = if hue < 600 {
            Color { r: nc, g: nx, b: no }
        } else if hue < 1200 {
            Color { r: nx, g: nc, b: no }
        } else if hue < 1800 {
            Color { r: no, g: nc, b: nx }
        } else if hue < 2400 {
            Color { r: no, g: nx, b: nc }
        } else if hue < 3000 {
            Color { r: nx, g: no, b: nc }
        } else {
            Color { r: nc, g: no, b: nx }
        };
        proof {
            lemma_hsv_byte_in_range(hsv_chroma(s as int, v as int), s as int, v as int);
            lemma_hsv_byte_in_range(hsv_x(h as int, s as int, v as int), s as int, v as int);
            lemma_hsv_byte_in_range(0, s as int, v as int);
            assert(col == hsv_rgb(hue as int, saturation as int, value as int));
        }
        Ok(col)
    }

    /// New color from hex text: an optional leading '#', then exactly six
    /// hex digits, of either case.
    pub fn new_hex(hex: &str) -> (c: Result<Color, ColorError>)
        ensures
            is_valid_hex(hex@) ==> c == Ok::<Color, ColorError>(from_hex_spec(hex@)),
            !is_valid_hex(hex@) ==> c == Err::<Color, ColorError>(ColorError::MalformedHex),
    {
        let n = hex.unicode_len();
        let start: usize = if n >= 1 && hex.get_char(0) == '#' {
            1
        } else {
            0
        };
        proof {
            assert(hex_body(hex@) =~= hex@.skip(start as int));
        }
        if n - start != 6 {
            return Err(ColorError::MalformedHex);
        }
        let mut vals: [u8; 6] = [0, 0, 0, 0, 0, 0];
        let mut k: usize = 0;
        while k < 6
            invariant
                k <= 6,
                n == hex@.len(),
                start + 6 == n,
                start <= 1,
                hex_body(hex@) == hex@.skip(start as int),
                forall|i: int| 0 <= i < k ==> is_hex_digit(#[trigger] hex_body(hex@)[i]),
                forall|i: int| 0 <= i < k ==> vals@[i] == hex_val(#[trigger] hex_body(hex@)[i]),
                forall|i: int| 0 <= i < k ==> vals@[i] < 16,
            decreases 6 - k,
        {
            let c = hex.get_char(start + k);
            assert(c == hex_body(hex@)[k as int]);
            match hex_digit_val(c) {
                Some(v) => {
                    vals[k] = v;
                },
                None => {
                    return Err(ColorError::MalformedHex);
                },
            }
            k += 1;
        }
        let col = Color {
            r: vals[0] * 16 + vals[1],
            g: vals[2] * 16 + vals[3],
            b: vals[4] * 16 + vals[5],
        };
        assert(is_valid_hex(hex@));
        assert(col == from_hex_spec(hex@));
        Ok(col)
    }

    /// The first color of `colors` at the least RGB distance from this
    /// one, with its index; earlier entries win ties.
    pub fn closest_color(&self, colors: &[Color]) -> (res: (Color, usize))
        requires
            colors@.len() >= 1,
        ensures
            res.1 < colors@.len(),
            res.0 == colors@[res.1 as int],
            is_first_min(*self, colors@, res.1 as int),
    {
        let mut best: usize = 0;
        let mut best_score: u32 = dist2_exec(self, &colors[0]);
        let mut i: usize = 1;
        while i < colors.len()
            invariant
                1 <= i <= colors@.len(),
                best < i,
                best_score as int == dist2(*self, colors@[best as int]),
                forall|j: int| 0 <= j < i ==> best_score as int <= dist2(
                    *self,
                    #[trigger] colors@[j],
                ),
                forall|j: int| 0 <= j < best ==> dist2(*self, #[trigger] colors@[j])
                    > best_score as int,
            decreases colors@.len() - i,
        {
            let score = dist2_exec(self, &colors[i]);
            if score < best_score {
                best = i;
                best_score = score;
            }
            i += 1;
        }
        (colors[best], best)
    }

    /// The escape text this color renders as under a capability tier: a
    /// 24-bit sequence for TrueColor, a nearest-palette-color sequence for
    /// Ansi256 and Ansi16, and no text at all where color is unsupported.
    pub fn to_escape(&self, term_color_support: &TermColorSupport) -> (r: Option<String>)
        ensures
            r is Some <==> escape_chars(*self, *term_color_support) is Some,
            r matches Some(s) ==> Some(s@) == escape_chars(*self, *term_color_support),
    {
        match term_color_support {
            TermColorSupport::TrueColor => {
                let mut s = String::new();
                push_char(&mut s, '\u{1b}');
                push_char(&mut s, '[');
                push_char(&mut s, '3');
                push_char(&mut s, '8');
                push_char(&mut s, ';');
                push_char(&mut s, '2');
                push_char(&mut s, ';');
                push_dec(&mut s, self.r as usize);
                push_char(&mut s, ';');
                push_dec(&mut s, self.g as usize);
                push_char(&mut s, ';');
                push_dec(&mut s, self.b as usize);
                push_char(&mut s, 'm');
                proof {
                    assert(s@ =~= true_color_escape(*self));
                }
                Some(s)
            },
            TermColorSupport::Ansi256 => {
                let pal = term_palette();
                let (_, c_index) = self.closest_color(pal.as_slice());
                proof {
                    lemma_nearest_idx(*self, palette_seq(), c_index as int);
                }
                let mut s = String::new();
                push_char(&mut s, '\u{1b}');
                push_char(&mut s, '[');
                push_char(&mut s, '3');
                push_char(&mut s, '8');
                push_char(&mut s, ';');
                push_char(&mut s, '5');
                push_char(&mut s, ';');
                push_dec(&mut s, c_index);
                push_char(&mut s, 'm');
                proof {
                    assert(s@ =~= ansi256_escape(c_index as int));
                }
                Some(s)
            },
            TermColorSupport::Ansi16 => {
                let pal = term_palette16();
                let (_, c_index) = self.closest_color(pal.as_slice());
                proof {
                    lemma_nearest_idx(*self, palette_seq().take(16), c_index as int);
                }
                let mut s = String::new();
                push_char(&mut s, '\u{1b}');
                push_char(&mut s, '[');
                push_char(&mut s, if c_index > 7 { '9' } else { '3' });
                push_dec(&mut s, c_index % 8);
                push_char(&mut s, 'm');
                proof {
                    assert(s@ =~= ansi16_escape(c_index as int));
                }
                Some(s)
            },
            TermColorSupport::NoColor => Option::None,
        }
    }

    /// The '#rrggbb' rendering of this color, lowercase and zero-padded.
    pub fn to_hex(&self) -> (s: String)
        ensures
            s@ == to_hex_spec(*self),
    {
        let mut s = String::new();
        push_char(&mut s, '#');
        push_hex_byte(&mut s, self.r);
        push_hex_byte(&mut s, self.g);
        push_hex_byte(&mut s, self.b);
        proof {
            assert(s@ =~= to_hex_spec(*self));
        }
        s
    }
}

/// Valid HSV input: hue in tenths of a degree within [0, 360) degrees,
/// saturation and value in thousandths within [0, 1].
pub open spec fn hsv_valid(h: int, s: int, v: int) -> bool {
    &&& 0 <= h < 3600
    &&& 0 <= s <= 1000
    &&& 0 <= v <= 1000
}

/// Chroma, in millionths: value times saturation.
pub open spec fn hsv_chroma(s: int, v: int) -> int {
    v * s
}

/// The middle channel weight, in millionths: chroma scaled by how far the
/// hue stands from the nearest sector edge.
pub open spec fn hsv_x(h: int, s: int, v: int) -> int {
    let t = h % 1200;
    let d = if t < 600 {
        600 - t
    } else {
        t - 600
    };
    hsv_chroma(s, v) * (600 - d) / 600
}

/// A channel byte: the weight `q` lifted by `m = v - c` and scaled from
/// millionths to [0, 255], truncating.
pub open spec fn hsv_byte(q: int, s: int, v: int) -> int {
    (q + (v * 1000 - hsv_chroma(s, v))) * 255 / 1000000
}

/// The color a valid HSV triple denotes, by the six-sector hue formula.
pub open spec fn hsv_rgb(h: int, s: int, v: int) -> Color {
    let nc = hsv_byte(hsv_chroma(s, v), s, v) as u8;
    let nx = hsv_byte(hsv_x(h, s, v), s, v) as u8;
    let no = hsv_byte(0, s, v) as u8;
    if h < 600 {
        Color { r: nc, g: nx, b: no }
    } else if h < 1200 {
        Color { r: nx, g: nc, b: no }
    } else if h < 1800 {
        Color { r: no, g: nc, b: nx }
    } else if h < 2400 {
        Color { r: no, g: nx, b: nc }
    } else if h < 3000 {
        Color { r: nx, g: no, b: nc }
    } else {
        Color { r: nc, g: no, b: nx }
    }
}

fn hsv_scale(q: u64, m: u64) -> (r: u8)
    requires
        q + m <= 1000000,
    ensures
        r as int == (q as int + m as int) * 255 / 1000000,
{
    proof {
        assert((q as int + m as int) * 255 <= 255000000) by (nonlinear_arith)
            requires
                0 <= q as int + m as int <= 1000000,
        ;
        assert((q as int + m as int) * 255 / 1000000 <= 255) by (nonlinear_arith)
            requires
                0 <= (q as int + m as int) * 255 <= 255000000,
        ;
        assert((q as int + m as int) * 255 >= 0) by (nonlinear_arith)
            requires
                0 <= q as int + m as int,
        ;
    }
    (((q + m) * 255) / 1000000) as u8
}

/// Law: every channel byte built from valid HSV input lies in [0, 255];
/// the arithmetic never leaves the channel range.
pub proof fn lemma_hsv_byte_in_range(q: int, s: int, v: int)
    requires
        0 <= s <= 1000,
        0 <= v <= 1000,
        0 <= q <= hsv_chroma(s, v),
    ensures
        0 <= hsv_byte(q, s, v) <= 255,
{
    assert(v * s <= 1000000 && v * s <= v * 1000) by (nonlinear_arith)
        requires
            0 <= s <= 1000,
            0 <= v <= 1000,
    ;
    let q1 = q + (v * 1000 - hsv_chroma(s, v));
    assert(0 <= q1 <= 1000000);
    assert(q1 * 255 <= 255000000 && q1 * 255 >= 0) by (nonlinear_arith)
        requires
            0 <= q1 <= 1000000,
    ;
    assert(q1 * 255 / 1000000 <= 255) by (nonlinear_arith)
        requires
            0 <= q1 * 255 <= 255000000,
    ;
}

/// Law: rendering a parsed valid hex string gives the same digits back,
/// lowercased, behind a '#' prefix.
pub proof fn lemma_hex_round_trip(s: Seq<char>)
    requires
        is_valid_hex(s),
    ensures
        to_hex_spec(from_hex_spec(s)) == seq!['#'] + Seq::new(6, |i: int| lower_hex(hex_body(s)[i])),
{
    let b = hex_body(s);
    assert forall|k: int| 0 <= k < 3 implies hex_byte(hex_channel(b, k)) == seq![
        lower_hex(b[2 * k]),
        lower_hex(b[2 * k + 1]),
    ] by {
        let hi = hex_val(b[2 * k]);
        let lo = hex_val(b[2 * k + 1]);
        assert(is_hex_digit(b[2 * k]));
        assert(is_hex_digit(b[2 * k + 1]));
        assert(0 <= hi < 16);
        assert(0 <= lo < 16);
        assert((hi * 16 + lo) / 16 == hi);
        assert((hi * 16 + lo) % 16 == lo);
        assert(hex_digit(hi) == lower_hex(b[2 * k]));
        assert(hex_digit(lo) == lower_hex(b[2 * k + 1]));
        assert(hex_byte(hex_channel(b, k)) =~= seq![
            lower_hex(b[2 * k]),
            lower_hex(b[2 * k + 1]),
        ]);
    }
    assert(from_hex_spec(s).r as int == hex_channel(b, 0));
    assert(from_hex_spec(s).g as int == hex_channel(b, 1));
    assert(from_hex_spec(s).b as int == hex_channel(b, 2));
    assert(to_hex_spec(from_hex_spec(s)) =~= seq!['#'] + Seq::new(
        6,
        |i: int| lower_hex(hex_body(s)[i]),
    ));
}

} // verus!
