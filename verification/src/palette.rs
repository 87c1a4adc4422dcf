//! The fixed 256-entry terminal reference palette: sixteen base colors, a
//! 6x6x6 color cube, and a 24-step grayscale ramp.

use vstd::prelude::*;
use crate::color::Color;

verus! {

/// One of the sixteen base palette colors.
pub open spec fn base_color(i: int) -> Color {
    if i == 0 {
        Color { r: 0, g: 0, b: 0 }
    } else if i == 1 {
        Color { r: 128, g: 0, b: 0 }
    } else if i == 2 {
        Color { r: 0, g: 128, b: 0 }
    } else if i == 3 {
        Color { r: 128, g: 128, b: 0 }
    } else if i == 4 {
        Color { r: 0, g: 0, b: 128 }
    } else if i == 5 {
        Color { r: 128, g: 0, b: 128 }
    } else if i == 6 {
        Color { r: 0, g: 128, b: 128 }
    } else if i == 7 {
        Color { r: 192, g: 192, b: 192 }
    } else if i == 8 {
        Color { r: 128, g: 128, b: 128 }
    } else if i == 9 {
        Color { r: 255, g: 0, b: 0 }
    } else if i == 10 {
        Color { r: 0, g: 255, b: 0 }
    } else if i == 11 {
        Color { r: 255, g: 255, b: 0 }
    } else if i == 12 {
        Color { r: 0, g: 0, b: 255 }
    } else if i == 13 {
        Color { r: 255, g: 0, b: 255 }
    } else if i == 14 {
        Color { r: 0, g: 255, b: 255 }
    } else {
        Color { r: 255, g: 255, b: 255 }
    }
}

/// The channel level of one axis step of the 6x6x6 color cube.
pub open spec fn cube_level(v: int) -> int {
    if v == 0 {
        0
    } else {
        55 + v * 40
    }
}

/// The color at one palette index.
pub open spec fn palette_color(i: int) -> Color {
    if i < 16 {
        base_color(i)
    } else if i < 232 {
        Color {
            r: cube_level((i - 16) / 36) as u8,
            g: cube_level(((i - 16) / 6) % 6) as u8,
            b: cube_level((i - 16) % 6) as u8,
        }
    } else {
        Color { r: (8 + (i - 232) * 10) as u8, g: (8 + (i - 232) * 10) as u8, b: (8 + (i - 232) * 10) as u8 }
    }
}

/// The whole palette as a sequence.
pub open spec fn palette_seq() -> Seq<Color> {
    Seq::new(256, |i: int| palette_color(i))
}

fn base_color_exec(i: usize) -> (c: Color)
    requires
        i < 16,
    ensures
        c == base_color(i as int),
{
    if i == 0 {
        Color { r: 0, g: 0, b: 0 }
    } else if i == 1 {
        Color { r: 128, g: 0, b: 0 }
    } else if i == 2 {
        Color { r: 0, g: 128, b: 0 }
    } else if i == 3 {
        Color { r: 128, g: 128, b: 0 }
    } else if i == 4 {
        Color { r: 0, g: 0, b: 128 }
    } else if i == 5 {
        Color { r: 128, g: 0, b: 128 }
    } else if i == 6 {
        Color { r: 0, g: 128, b: 128 }
    } else if i == 7 {
        Color { r: 192, g: 192, b: 192 }
    } else if i == 8 {
        Color { r: 128, g: 128, b: 128 }
    } else if i == 9 {
        Color { r: 255, g: 0, b: 0 }
    } else if i == 10 {
        Color { r: 0, g: 255, b: 0 }
    } else if i == 11 {
        Color { r: 255, g: 255, b: 0 }
    } else if i == 12 {
        Color { r: 0, g: 0, b: 255 }
    } else if i == 13 {
        Color { r: 255, g: 0, b: 255 }
    } else if i == 14 {
        Color { r: 0, g: 255, b: 255 }
    } else {
        Color { r: 255, g: 255, b: 255 }
    }
}

fn cube_level_exec(v: usize) -> (l: u8)
    requires
        v < 6,
    ensures
        l as int == cube_level(v as int),
{
    if v == 0 {
        0
    } else {
        (55 + v * 40) as u8
    }
}

/// The color at one palette index.
pub fn palette_entry(i: usize) -> (c: Color)
    requires
        i < 256,
    ensures
        c == palette_color(i as int),
{
    if i < 16 {
        base_color_exec(i)
    } else if i < 232 {
        let j = i - 16;
        Color {
            r: cube_level_exec(j / 36),
            g: cube_level_exec((j / 6) % 6),
            b: cube_level_exec(j % 6),
        }
    } else {
        let g = (8 + (i - 232) * 10) as u8;
        Color { r: g, g: g, b: g }
    }
}

/// The whole palette, base colors first, then the cube, then the grays.
pub fn term_palette() -> (p: Vec<Color>)
    ensures
        p@ == palette_seq(),
{
    let mut p: Vec<Color> = Vec::new();
    let mut i: usize = 0;
    while i < 256
        invariant
            i <= 256,
            p@.len() == i,
            forall|k: int| 0 <= k < i ==> p@[k] == palette_color(k),
        decreases 256 - i,
    {
        p.push(palette_entry(i));
        i += 1;
    }
    proof {
        assert(p@ =~= palette_seq());
    }
    p
}

/// The sixteen base colors alone, in palette order.
pub fn term_palette16() -> (p: Vec<Color>)
    ensures
        p@ == palette_seq().take(16),
{
    let mut p: Vec<Color> = Vec::new();
    let mut i: usize = 0;
    while i < 16
        invariant
            i <= 16,
            p@.len() == i,
            forall|k: int| 0 <= k < i ==> p@[k] == palette_color(k),
        decreases 16 - i,
    {
        p.push(base_color_exec(i));
        i += 1;
    }
    proof {
        assert(p@ =~= palette_seq().take(16));
    }
    p
}

} // verus!
