//! A fixed-size 2D grid of styled character cells: direct cell writes,
//! styled-text drawing with alignment, compositing, and row-by-row
//! rendering to ANSI escape text.

use vstd::prelude::*;
use vstd::string::*;
use crate::color::{Color, TermColorSupport, escape_chars};
use crate::strfmt::{dec_digits, push_char, push_dec};
use crate::text::{
    ColoredText, count_ch, lemma_count_absent, lemma_count_ch_bound, lemma_max_seg_len_bound,
    lemma_same_line, line_col, max_seg_len, split_before,
};

verus! {

/// How a text block is shifted sideways against its anchor.
#[derive(Clone, Copy, PartialEq, Eq, Structural, Debug)]
pub enum HCentering {
    Left,
    Center,
    Right,
}

/// How a text block is shifted upward against its anchor.
#[derive(Clone, Copy, PartialEq, Eq, Structural, Debug)]
pub enum VCentering {
    Top,
    Middle,
    Bottom,
}

/// A grid of character cells, row-major: cell (x, y) sits at offset
/// y * width + x. Each cell carries a glyph, a color, and a set of
/// numeric style escape codes.
pub struct Pixels {
    pub size: (usize, usize),
    pub chars: Vec<char>,
    pub colors: Vec<Color>,
    pub escapes: Vec<Vec<usize>>,
}

/// A cell coordinate within bounds maps to an offset within the grid.
pub proof fn lemma_cell_in_range(w: int, h: int, x: int, y: int)
    requires
        0 <= x < w,
        0 <= y < h,
    ensures
        0 <= y * w + x < w * h,
{
    assert(0 <= y * w + x < w * h) by (nonlinear_arith)
        requires
            0 <= x < w,
            0 <= y < h,
    ;
}

impl Pixels {
    /// The three cell sequences cover the whole grid, and the grid is of
    /// a size the drawing arithmetic can address.
    pub open spec fn wf(&self) -> bool {
        &&& self.chars@.len() == self.size.0 as int * self.size.1 as int
        &&& self.colors@.len() == self.chars@.len()
        &&& self.escapes@.len() == self.chars@.len()
        &&& self.size.0 < 0x4000_0000
        &&& self.size.1 < 0x4000_0000
    }

    /// The offset of cell (x, y).
    pub open spec fn cell(&self, x: int, y: int) -> int {
        y * self.size.0 as int + x
    }

    /// Whether (x, y) lies on the grid.
    pub open spec fn in_bounds(&self, x: int, y: int) -> bool {
        0 <= x < self.size.0 as int && 0 <= y < self.size.1 as int
    }

    /// New grid of the given (width, height), all cells a white space
    /// with no style codes.
    pub fn new(size: (usize, usize)) -> (p: Pixels)
        requires
            size.0 < 0x4000_0000,
            size.1 < 0x4000_0000,
            size.0 as int * size.1 as int <= usize::MAX as int,
        ensures
            p.wf(),
            p.size == size,
            forall|k: int| 0 <= k < p.chars@.len() ==> p.chars@[k] == ' ',
            forall|k: int|
                0 <= k < p.colors@.len() ==> p.colors@[k] == (Color { r: 255, g: 255, b: 255 }),
            forall|k: int| 0 <= k < p.escapes@.len() ==> p.escapes@[k]@.len() == 0,
    {
        let n = size.0 * size.1;
        let chars: Vec<char> = vec![' '; n];
        let colors: Vec<Color> = fill_colors(Color::new_rgb(255, 255, 255), n);
        let escapes: Vec<Vec<usize>> = fill_empty_escapes(n);
        Pixels { size, chars, colors, escapes }
    }

    /// Resets every cell to a white space with no style codes.
    pub fn clear(&mut self)
        requires
            old(self).wf(),
        ensures
            final(self).wf(),
            final(self).size == old(self).size,
            forall|k: int| 0 <= k < final(self).chars@.len() ==> final(self).chars@[k] == ' ',
            forall|k: int|
                0 <= k < final(self).colors@.len() ==> final(self).colors@[k] == (Color {
                    r: 255,
                    g: 255,
                    b: 255,
                }),
            forall|k: int|
                0 <= k < final(self).escapes@.len() ==> final(self).escapes@[k]@.len() == 0,
    {
        let n = self.chars.len();
        proof {
            assert(n == self.size.0 as int * self.size.1 as int);
        }
        self.chars = vec![' '; n];
        self.colors = fill_colors(Color::new_rgb(255, 255, 255), n);
        self.escapes = fill_empty_escapes(n);
    }

    /// Sets the character of the cell at `position`; out of bounds,
    /// changes nothing.
    pub fn set_char(&mut self, position: (usize, usize), character: char)
        requires
            old(self).wf(),
        ensures
            final(self).wf(),
            final(self).size == old(self).size,
            final(self).colors@ == old(self).colors@,
            final(self).escapes@ == old(self).escapes@,
            final(self).chars@ == if old(self).in_bounds(position.0 as int, position.1 as int) {
                old(self).chars@.update(
                    old(self).cell(position.0 as int, position.1 as int),
                    character,
                )
            } else {
                old(self).chars@
            },
    {
        if position.0 < self.size.0 && position.1 < self.size.1 {
            proof {
                lemma_cell_in_range(
                    self.size.0 as int,
                    self.size.1 as int,
                    position.0 as int,
                    position.1 as int,
                );
            }
            let grid_cells: usize = self.chars.len();
            proof {
                assert(grid_cells == self.size.0 as int * self.size.1 as int);
            }
            let idx = position.1 * self.size.0 + position.0;
            self.chars.set(idx, character);
        }
    }

    /// Sets the color of the cell at `position`; out of bounds, changes
    /// nothing.
    pub fn set_color(&mut self, position: (usize, usize), color: Color)
        requires
            old(self).wf(),
        ensures
            final(self).wf(),
            final(self).size == old(self).size,
            final(self).chars@ == old(self).chars@,
            final(self).escapes@ == old(self).escapes@,
            final(self).colors@ == if old(self).in_bounds(position.0 as int, position.1 as int) {
                old(self).colors@.update(
                    old(self).cell(position.0 as int, position.1 as int),
                    color,
                )
            } else {
                old(self).colors@
            },
    {
        if position.0 < self.size.0 && position.1 < self.size.1 {
            proof {
                lemma_cell_in_range(
                    self.size.0 as int,
                    self.size.1 as int,
                    position.0 as int,
                    position.1 as int,
                );
            }
            let grid_cells: usize = self.chars.len();
            proof {
                assert(grid_cells == self.size.0 as int * self.size.1 as int);
            }
            let idx = position.1 * self.size.0 + position.0;
            self.colors.set(idx, color);
        }
    }

    /// Replaces the style codes of the cell at `position`; out of bounds,
    /// changes nothing.
    pub fn set_escapes(&mut self, position: (usize, usize), escapes: Vec<usize>)
        requires
            old(self).wf(),
        ensures
            final(self).wf(),
            final(self).size == old(self).size,
            final(self).chars@ == old(self).chars@,
            final(self).colors@ == old(self).colors@,
            final(self).escapes@ == if old(self).in_bounds(
                position.0 as int,
                position.1 as int,
            ) {
                old(self).escapes@.update(
                    old(self).cell(position.0 as int, position.1 as int),
                    escapes,
                )
            } else {
                old(self).escapes@
            },
    {
        if position.0 < self.size.0 && position.1 < self.size.1 {
            proof {
                lemma_cell_in_range(
                    self.size.0 as int,
                    self.size.1 as int,
                    position.0 as int,
                    position.1 as int,
                );
            }
            let grid_cells: usize = self.chars.len();
            proof {
                assert(grid_cells == self.size.0 as int * self.size.1 as int);
            }
            let idx = position.1 * self.size.0 + position.0;
            self.escapes.set(idx, escapes);
        }
    }

    /// Adds one style code to the cell at `position`; out of bounds,
    /// changes nothing.
    pub fn add_escape(&mut self, position: (usize, usize), escape: usize)
        requires
            old(self).wf(),
        ensures
            final(self).wf(),
            final(self).size == old(self).size,
            final(self).chars@ == old(self).chars@,
            final(self).colors@ == old(self).colors@,
            final(self).escapes@.len() == old(self).escapes@.len(),
            old(self).in_bounds(position.0 as int, position.1 as int) ==> {
                let k = old(self).cell(position.0 as int, position.1 as int);
                &&& final(self).escapes@[k]@ == old(self).escapes@[k]@.push(escape)
                &&& forall|j: int|
                    0 <= j < old(self).escapes@.len() && j != k ==> final(self).escapes@[j]
                        == old(self).escapes@[j]
            },
            !old(self).in_bounds(position.0 as int, position.1 as int) ==> final(self).escapes@
                == old(self).escapes@,
    {
        if position.0 < self.size.0 && position.1 < self.size.1 {
            proof {
                lemma_cell_in_range(
                    self.size.0 as int,
                    self.size.1 as int,
                    position.0 as int,
                    position.1 as int,
                );
            }
            let grid_cells: usize = self.chars.len();
            proof {
                assert(grid_cells == self.size.0 as int * self.size.1 as int);
            }
            let idx = position.1 * self.size.0 + position.0;
            let mut es = clone_usizes(&self.escapes[idx]);
            es.push(escape);
            self.escapes.set(idx, es);
        }
    }

    /// Adds the underline style code, 4, to the cell at `position`.
    pub fn underline(&mut self, position: (usize, usize))
        requires
            old(self).wf(),
        ensures
            final(self).wf(),
            final(self).size == old(self).size,
            final(self).chars@ == old(self).chars@,
            final(self).colors@ == old(self).colors@,
            final(self).escapes@.len() == old(self).escapes@.len(),
            old(self).in_bounds(position.0 as int, position.1 as int) ==> {
                let k = old(self).cell(position.0 as int, position.1 as int);
                &&& final(self).escapes@[k]@ == old(self).escapes@[k]@.push(4)
                &&& forall|j: int|
                    0 <= j < old(self).escapes@.len() && j != k ==> final(self).escapes@[j]
                        == old(self).escapes@[j]
            },
            !old(self).in_bounds(position.0 as int, position.1 as int) ==> final(self).escapes@
                == old(self).escapes@,
    {
        self.add_escape(position, 4);
    }

    /// Adds the bold style code, 1, to the cell at `position`.
    pub fn bold(&mut self, position: (usize, usize))
        requires
            old(self).wf(),
        ensures
            final(self).wf(),
            final(self).size == old(self).size,
            final(self).chars@ == old(self).chars@,
            final(self).colors@ == old(self).colors@,
            final(self).escapes@.len() == old(self).escapes@.len(),
            old(self).in_bounds(position.0 as int, position.1 as int) ==> {
                let k = old(self).cell(position.0 as int, position.1 as int);
                &&& final(self).escapes@[k]@ == old(self).escapes@[k]@.push(1)
                &&& forall|j: int|
                    0 <= j < old(self).escapes@.len() && j != k ==> final(self).escapes@[j]
                        == old(self).escapes@[j]
            },
            !old(self).in_bounds(position.0 as int, position.1 as int) ==> final(self).escapes@
                == old(self).escapes@,
    {
        self.add_escape(position, 1);
    }

    /// The character and color of the cell at `position`, or None when it
    /// lies off the grid.
    pub fn get_pixel(&self, position: (usize, usize)) -> (r: Option<(char, Color)>)
        requires
            self.wf(),
        ensures
            self.in_bounds(position.0 as int, position.1 as int) ==> r == Some(
                (
                    self.chars@[self.cell(position.0 as int, position.1 as int)],
                    self.colors@[self.cell(position.0 as int, position.1 as int)],
                ),
            ),
            !self.in_bounds(position.0 as int, position.1 as int) ==> r is None,
    {
        if position.0 < self.size.0 && position.1 < self.size.1 {
            proof {
                lemma_cell_in_range(
                    self.size.0 as int,
                    self.size.1 as int,
                    position.0 as int,
                    position.1 as int,
                );
            }
            let grid_cells: usize = self.chars.len();
            proof {
                assert(grid_cells == self.size.0 as int * self.size.1 as int);
            }
            let idx = position.1 * self.size.0 + position.0;
            Some((self.chars[idx], self.colors[idx]))
        } else {
            None
        }
    }

    /// Gives every cell the given color; characters and style codes stay.
    pub fn color_all(&mut self, color: Color)
        requires
            old(self).wf(),
        ensures
            final(self).wf(),
            final(self).size == old(self).size,
            final(self).chars@ == old(self).chars@,
            final(self).escapes@ == old(self).escapes@,
            final(self).colors@ == Seq::new(old(self).colors@.len(), |k: int| color),
    {
        let n = self.colors.len();
        let mut k: usize = 0;
        while k < n
            invariant
                k <= n,
                n == self.colors@.len(),
                self.size == old(self).size,
                self.chars@ == old(self).chars@,
                self.escapes@ == old(self).escapes@,
                self.chars@.len() == old(self).chars@.len(),
                forall|j: int| 0 <= j < k ==> self.colors@[j] == color,
                forall|j: int| k <= j < n ==> self.colors@[j] == old(self).colors@[j],
            decreases n - k,
        {
            self.colors.set(k, color);
            k += 1;
        }
        proof {
            assert(self.colors@ =~= Seq::new(old(self).colors@.len(), |j: int| color));
            assert(self.wf());
        }
    }
}

/// How far a drawn block is shifted left: not at all, half the longest
/// line, or the whole longest line (the length is measured over the
/// segments closed by a line break).
pub open spec fn h_shift(t: Seq<char>, hc: HCentering) -> int {
    match hc {
        HCentering::Left => 0,
        HCentering::Center => -(max_seg_len(split_before(t, '\n')) / 2),
        HCentering::Right => -max_seg_len(split_before(t, '\n')),
    }
}

/// How far a drawn block is shifted up: not at all, half the line-break
/// count, or the whole line-break count.
pub open spec fn v_shift(t: Seq<char>, vc: VCentering) -> int {
    match vc {
        VCentering::Top => 0,
        VCentering::Middle => count_ch(t, '\n') / 2,
        VCentering::Bottom => count_ch(t, '\n'),
    }
}

/// The column a drawn glyph lands in.
pub open spec fn target_x(t: Seq<char>, anchor_x: int, hc: HCentering, i: int) -> int {
    anchor_x + h_shift(t, hc) + line_col(t, i)
}

/// The row a drawn glyph lands in.
pub open spec fn target_y(t: Seq<char>, anchor_y: int, vc: VCentering, i: int) -> int {
    anchor_y - v_shift(t, vc) + count_ch(t.take(i), '\n')
}

/// A cell's style codes after a drawn glyph adds its underline and bold.
pub open spec fn glyph_escapes(es: Seq<usize>, un: bool, bo: bool) -> Seq<usize> {
    let e1 = if un {
        es.push(4)
    } else {
        es
    };
    if bo {
        e1.push(1)
    } else {
        e1
    }
}

/// Whether some drawn glyph of `t` lands on cell (x, y).
pub open spec fn draw_hits(
    t: Seq<char>,
    anchor: (int, int),
    hc: HCentering,
    vc: VCentering,
    x: int,
    y: int,
) -> bool {
    exists|i: int|
        0 <= i < t.len() && t[i] != '\n' && target_x(t, anchor.0, hc, i) == x && target_y(
            t,
            anchor.1,
            vc,
            i,
        ) == y
}

/// Whether one of the first `n` glyphs of `t`, drawn at `anchor` under the
/// given alignments, lands on cell (x, y).
pub open spec fn draw_hits_upto(
    t: Seq<char>,
    anchor: (int, int),
    hc: HCentering,
    vc: VCentering,
    n: int,
    x: int,
    y: int,
) -> bool {
    exists|i: int|
        0 <= i < n && i < t.len() && t[i] != '\n' && target_x(t, anchor.0, hc, i) == x && target_y(
            t,
            anchor.1,
            vc,
            i,
        ) == y
}

/// Distinct in-bounds coordinates map to distinct offsets.
pub proof fn lemma_cell_inj(w: int, x1: int, y1: int, x2: int, y2: int)
    requires
        0 <= x1 < w,
        0 <= x2 < w,
        y1 * w + x1 == y2 * w + x2,
    ensures
        x1 == x2 && y1 == y2,
{
    assert(x1 == x2 && y1 == y2) by (nonlinear_arith)
        requires
            0 <= x1 < w,
            0 <= x2 < w,
            y1 * w + x1 == y2 * w + x2,
    ;
}

impl Pixels {
    /// Overlays `to_comp` onto this grid, centered at `position`: a source
    /// cell holding a space is transparent and never overwrites the cell
    /// beneath it; any other source cell always does. Style codes and
    /// cells off either grid stay as they are.
    #[verifier::rlimit(100)]
    pub fn comp(&mut self, to_comp: &Pixels, position: (i32, i32))
        requires
            old(self).wf(),
            to_comp.wf(),
        ensures
            final(self).wf(),
            final(self).size == old(self).size,
            final(self).escapes@ == old(self).escapes@,
            final(self).chars@.len() == old(self).chars@.len(),
            final(self).colors@.len() == old(self).colors@.len(),
            forall|x: int, y: int|
                old(self).in_bounds(x, y) ==> {
                    let sx = x - (position.0 as int - to_comp.size.0 as int / 2);
                    let sy = y - (position.1 as int - to_comp.size.1 as int / 2);
                    if to_comp.in_bounds(sx, sy) && to_comp.chars@[to_comp.cell(sx, sy)] != ' ' {
                        &&& final(self).chars@[old(self).cell(x, y)] == to_comp.chars@[to_comp.cell(
                            sx,
                            sy,
                        )]
                        &&& final(self).colors@[old(self).cell(x, y)]
                            == to_comp.colors@[to_comp.cell(sx, sy)]
                    } else {
                        &&& final(self).chars@[old(self).cell(x, y)] == old(self).chars@[old(
                            self,
                        ).cell(x, y)]
                        &&& final(self).colors@[old(self).cell(x, y)] == old(self).colors@[old(
                            self,
                        ).cell(x, y)]
                    }
                },
    {
        let ox: i64 = position.0 as i64 - (to_comp.size.0 / 2) as i64;
        let oy: i64 = position.1 as i64 - (to_comp.size.1 / 2) as i64;
        let ow = to_comp.size.0;
        let oh = to_comp.size.1;
        let mut i: usize = 0;
        while i < oh
            invariant
                i <= oh,
                ow == to_comp.size.0,
                oh == to_comp.size.1,
                ox == position.0 as int - to_comp.size.0 as int / 2,
                oy == position.1 as int - to_comp.size.1 as int / 2,
                self.wf(),
                to_comp.wf(),
                self.size == old(self).size,
                self.escapes@ == old(self).escapes@,
                self.chars@.len() == old(self).chars@.len(),
                self.colors@.len() == old(self).colors@.len(),
                forall|x: int, y: int|
                    old(self).in_bounds(x, y) ==> {
                        let sx = x - ox;
                        let sy = y - oy;
                        if 0 <= sy < i && 0 <= sx < ow && to_comp.chars@[to_comp.cell(sx, sy)]
                            != ' ' {
                            &&& self.chars@[old(self).cell(x, y)] == to_comp.chars@[to_comp.cell(
                                sx,
                                sy,
                            )]
                            &&& self.colors@[old(self).cell(x, y)] == to_comp.colors@[to_comp.cell(
                                sx,
                                sy,
                            )]
                        } else {
                            &&& self.chars@[old(self).cell(x, y)] == old(self).chars@[old(
                                self,
                            ).cell(x, y)]
                            &&& self.colors@[old(self).cell(x, y)] == old(self).colors@[old(
                                self,
                            ).cell(x, y)]
                        }
                    },
            decreases oh - i,
        {
            let yd: i64 = oy + i as i64;
            let mut j: usize = 0;
            while j < ow
                invariant
                    i < oh,
                    j <= ow,
                    ow == to_comp.size.0,
                    oh == to_comp.size.1,
                    ox == position.0 as int - to_comp.size.0 as int / 2,
                    oy == position.1 as int - to_comp.size.1 as int / 2,
                    yd == oy + i as int,
                    self.wf(),
                    to_comp.wf(),
                    self.size == old(self).size,
                    self.escapes@ == old(self).escapes@,
                    self.chars@.len() == old(self).chars@.len(),
                    self.colors@.len() == old(self).colors@.len(),
                    forall|x: int, y: int|
                        old(self).in_bounds(x, y) ==> {
                            let sx = x - ox;
                            let sy = y - oy;
                            if (0 <= sy < i || (sy == i && 0 <= sx < j)) && 0 <= sx < ow
                                && to_comp.chars@[to_comp.cell(sx, sy)] != ' ' {
                                &&& self.chars@[old(self).cell(x, y)]
                                    == to_comp.chars@[to_comp.cell(sx, sy)]
                                &&& self.colors@[old(self).cell(x, y)]
                                    == to_comp.colors@[to_comp.cell(sx, sy)]
                            } else {
                                &&& self.chars@[old(self).cell(x, y)] == old(self).chars@[old(
                                    self,
                                ).cell(x, y)]
                                &&& self.colors@[old(self).cell(x, y)] == old(self).colors@[old(
                                    self,
                                ).cell(x, y)]
                            }
                        },
                decreases ow - j,
            {
                let xd: i64 = ox + j as i64;
                proof {
                    lemma_cell_in_range(ow as int, oh as int, j as int, i as int);
                }
                let src_cells: usize = to_comp.chars.len();
                proof {
                    assert(src_cells == ow as int * oh as int);
                }
                let src = i * ow + j;
                let ghost prev = *self;
                if xd >= 0 && xd < self.size.0 as i64 && yd >= 0 && yd < self.size.1 as i64
                    && to_comp.chars[src] != ' ' {
                    let xu = xd as usize;
                    let yu = yd as usize;
                    proof {
                        assert(xu as int == xd as int);
                        assert(yu as int == yd as int);
                    }
                    self.set_char((xu, yu), to_comp.chars[src]);
                    self.set_color((xu, yu), to_comp.colors[src]);
                    proof {
                        let kd = old(self).cell(xd as int, yd as int);
                        lemma_cell_in_range(
                            old(self).size.0 as int,
                            old(self).size.1 as int,
                            xd as int,
                            yd as int,
                        );
                        assert(0 <= kd < prev.chars@.len());
                        assert(prev.in_bounds(xu as int, yu as int));
                        assert(self.chars@ == prev.chars@.update(kd, to_comp.chars@[src as int]));
                        assert(self.colors@ == prev.colors@.update(
                            kd,
                            to_comp.colors@[src as int],
                        ));
                        assert forall|x: int, y: int| old(self).in_bounds(x, y) implies {
                            let sx = x - ox;
                            let sy = y - oy;
                            if (0 <= sy < i || (sy == i && 0 <= sx < j + 1)) && 0 <= sx < ow
                                && to_comp.chars@[to_comp.cell(sx, sy)] != ' ' {
                                &&& self.chars@[old(self).cell(x, y)]
                                    == to_comp.chars@[to_comp.cell(sx, sy)]
                                &&& self.colors@[old(self).cell(x, y)]
                                    == to_comp.colors@[to_comp.cell(sx, sy)]
                            } else {
                                &&& self.chars@[old(self).cell(x, y)] == old(self).chars@[old(
                                    self,
                                ).cell(x, y)]
                                &&& self.colors@[old(self).cell(x, y)] == old(self).colors@[old(
                                    self,
                                ).cell(x, y)]
                            }
                        } by {
                            let k = old(self).cell(x, y);
                            let sx = x - ox;
                            let sy = y - oy;
                            lemma_cell_in_range(
                                old(self).size.0 as int,
                                old(self).size.1 as int,
                                x,
                                y,
                            );
                            assert(old(self).in_bounds(x, y));
                            assert(prev.chars@[k] == if (0 <= sy < i as int || (sy == i as int && 0
                                <= sx < j as int)) && 0 <= sx < ow as int && to_comp.chars@[to_comp.cell(
                                sx,
                                sy,
                            )] != ' ' {
                                to_comp.chars@[to_comp.cell(sx, sy)]
                            } else {
                                old(self).chars@[k]
                            });
                            if x == xd as int && y == yd as int {
                                assert(sx == j as int && sy == i as int);
                                assert(to_comp.cell(sx, sy) == src as int);
                                assert(self.chars@[k] == to_comp.chars@[src as int]);
                                assert(self.colors@[k] == to_comp.colors@[src as int]);
                            } else {
                                if k == old(self).cell(xd as int, yd as int) {
                                    lemma_cell_inj(
                                        old(self).size.0 as int,
                                        x,
                                        y,
                                        xd as int,
                                        yd as int,
                                    );
                                }
                                assert(self.chars@[k] == prev.chars@[k]);
                                assert(self.colors@[k] == prev.colors@[k]);
                                if sy == i as int && 0 <= sx < j + 1 && sx != j as int {
                                    assert(0 <= sx < j as int);
                                }
                            }
                        };
                    }
                } else {
                    proof {
                        assert forall|x: int, y: int|
                            old(self).in_bounds(x, y) && x - ox == j as int && y - oy
                                == i as int implies !(to_comp.chars@[to_comp.cell(
                            x - ox,
                            y - oy,
                        )] != ' ') by {
                            assert(x == ox + j as int && y == oy + i as int);
                        };
                    }
                }
                j += 1;
            }
            i += 1;
        }
    }
}

/// Every one of the first `n` glyphs whose target lies on the grid has
/// been written to its cell: its character, its color, and its underline
/// and bold codes behind whatever codes the cell already carried.
pub open spec fn drawn_upto(
    p0: Pixels,
    cur: Pixels,
    text: ColoredText,
    ax: int,
    ay: int,
    hc: HCentering,
    vc: VCentering,
    n: int,
) -> bool {
    forall|ii: int|
        0 <= ii < n && ii < text.chars@.len() && text.chars@[ii] != '\n' && p0.in_bounds(
            target_x(text.chars@, ax, hc, ii),
            target_y(text.chars@, ay, vc, ii),
        ) ==> {
            let k = p0.cell(target_x(text.chars@, ax, hc, ii), target_y(text.chars@, ay, vc, ii));
            &&& cur.chars@[k] == text.chars@[ii]
            &&& cur.colors@[k] == text.colors@[ii]
            &&& cur.escapes@[k]@ == glyph_escapes(
                p0.escapes@[k]@,
                text.underline@[ii],
                text.bold@[ii],
            )
        }
}

/// Every grid cell that none of the first `n` glyphs lands on still holds
/// what it held before the drawing began.
pub open spec fn untouched_upto(
    p0: Pixels,
    cur: Pixels,
    text: ColoredText,
    ax: int,
    ay: int,
    hc: HCentering,
    vc: VCentering,
    n: int,
) -> bool {
    forall|x: int, y: int|
        p0.in_bounds(x, y) && !draw_hits_upto(text.chars@, (ax, ay), hc, vc, n, x, y) ==> {
            let k = p0.cell(x, y);
            &&& cur.chars@[k] == p0.chars@[k]
            &&& cur.colors@[k] == p0.colors@[k]
            &&& cur.escapes@[k] == p0.escapes@[k]
        }
}

/// A glyph that is a line break, or whose target lies off the grid,
/// writes nothing: the drawing relations simply carry over it.
#[verifier::rlimit(100)]
proof fn lemma_draw_carry_skip(
    p0: Pixels,
    cur: Pixels,
    text: ColoredText,
    ax: int,
    ay: int,
    hc: HCentering,
    vc: VCentering,
    i: int,
)
    requires
        0 <= i < text.chars@.len(),
        text.chars@[i] == '\n' || !p0.in_bounds(
            target_x(text.chars@, ax, hc, i),
            target_y(text.chars@, ay, vc, i),
        ),
        drawn_upto(p0, cur, text, ax, ay, hc, vc, i),
        untouched_upto(p0, cur, text, ax, ay, hc, vc, i),
    ensures
        drawn_upto(p0, cur, text, ax, ay, hc, vc, i + 1),
        untouched_upto(p0, cur, text, ax, ay, hc, vc, i + 1),
{
    let t = text.chars@;
    assert forall|x: int, y: int|
        p0.in_bounds(x, y) && !draw_hits_upto(t, (ax, ay), hc, vc, i + 1, x, y) implies {
        let k = p0.cell(x, y);
        &&& cur.chars@[k] == p0.chars@[k]
        &&& cur.colors@[k] == p0.colors@[k]
        &&& cur.escapes@[k] == p0.escapes@[k]
    } by {
        if draw_hits_upto(t, (ax, ay), hc, vc, i, x, y) {
            let ii = choose|ii: int|
                0 <= ii < i && ii < t.len() && t[ii] != '\n' && target_x(t, ax, hc, ii) == x
                    && target_y(t, ay, vc, ii) == y;
            assert(draw_hits_upto(t, (ax, ay), hc, vc, i + 1, x, y));
        }
    };
}

/// The step of drawing one glyph whose target lies on the grid: the
/// target cell takes the glyph, and every other cell keeps its state.
#[verifier::rlimit(100)]
proof fn lemma_draw_step_write(
    p0: Pixels,
    prev: Pixels,
    cur: Pixels,
    text: ColoredText,
    ax: int,
    ay: int,
    hc: HCentering,
    vc: VCentering,
    i: int,
)
    requires
        p0.wf(),
        text.wf(),
        prev.size == p0.size,
        cur.size == p0.size,
        prev.chars@.len() == p0.chars@.len(),
        prev.colors@.len() == p0.colors@.len(),
        prev.escapes@.len() == p0.escapes@.len(),
        cur.chars@.len() == p0.chars@.len(),
        cur.colors@.len() == p0.colors@.len(),
        cur.escapes@.len() == p0.escapes@.len(),
        0 <= i < text.chars@.len(),
        text.chars@[i] != '\n',
        p0.in_bounds(target_x(text.chars@, ax, hc, i), target_y(text.chars@, ay, vc, i)),
        cur.chars@ == prev.chars@.update(
            p0.cell(target_x(text.chars@, ax, hc, i), target_y(text.chars@, ay, vc, i)),
            text.chars@[i],
        ),
        cur.colors@ == prev.colors@.update(
            p0.cell(target_x(text.chars@, ax, hc, i), target_y(text.chars@, ay, vc, i)),
            text.colors@[i],
        ),
        cur.escapes@[p0.cell(
            target_x(text.chars@, ax, hc, i),
            target_y(text.chars@, ay, vc, i),
        )]@ == glyph_escapes(
            prev.escapes@[p0.cell(
                target_x(text.chars@, ax, hc, i),
                target_y(text.chars@, ay, vc, i),
            )]@,
            text.underline@[i],
            text.bold@[i],
        ),
        forall|kk: int|
            0 <= kk < prev.escapes@.len() && kk != p0.cell(
                target_x(text.chars@, ax, hc, i),
                target_y(text.chars@, ay, vc, i),
            ) ==> cur.escapes@[kk] == prev.escapes@[kk],
        drawn_upto(p0, prev, text, ax, ay, hc, vc, i),
        untouched_upto(p0, prev, text, ax, ay, hc, vc, i),
    ensures
        drawn_upto(p0, cur, text, ax, ay, hc, vc, i + 1),
        untouched_upto(p0, cur, text, ax, ay, hc, vc, i + 1),
{
    let t = text.chars@;
    let w = p0.size.0 as int;
    let h = p0.size.1 as int;
    let xp = target_x(t, ax, hc, i);
    let yv = target_y(t, ay, vc, i);
    let kd = p0.cell(xp, yv);
    lemma_cell_in_range(w, h, xp, yv);
    // no earlier glyph lands on this cell
    assert forall|ii: int| 0 <= ii < i && t[ii] != '\n' implies !(target_x(t, ax, hc, ii) == xp
        && target_y(t, ay, vc, ii) == yv) by {
        if target_x(t, ax, hc, ii) == xp && target_y(t, ay, vc, ii) == yv {
            lemma_same_line(t, ii, i);
        }
    };
    assert(!draw_hits_upto(t, (ax, ay), hc, vc, i, xp, yv));
    assert(prev.escapes@[kd] == p0.escapes@[kd]);
    assert(cur.chars@[kd] == t[i]);
    assert(cur.colors@[kd] == text.colors@[i]);
    assert(cur.escapes@[kd]@ == glyph_escapes(p0.escapes@[kd]@, text.underline@[i], text.bold@[i]));
    assert forall|ii: int|
        0 <= ii < i + 1 && ii < t.len() && t[ii] != '\n' && p0.in_bounds(
            target_x(t, ax, hc, ii),
            target_y(t, ay, vc, ii),
        ) implies {
        let k = p0.cell(target_x(t, ax, hc, ii), target_y(t, ay, vc, ii));
        &&& cur.chars@[k] == t[ii]
        &&& cur.colors@[k] == text.colors@[ii]
        &&& cur.escapes@[k]@ == glyph_escapes(p0.escapes@[k]@, text.underline@[ii], text.bold@[ii])
    } by {
        let k = p0.cell(target_x(t, ax, hc, ii), target_y(t, ay, vc, ii));
        lemma_cell_in_range(w, h, target_x(t, ax, hc, ii), target_y(t, ay, vc, ii));
        if ii != i {
            if target_x(t, ax, hc, ii) == xp && target_y(t, ay, vc, ii) == yv {
                lemma_same_line(t, ii, i);
            } else if k == kd {
                lemma_cell_inj(w, target_x(t, ax, hc, ii), target_y(t, ay, vc, ii), xp, yv);
            }
            assert(cur.chars@[k] == prev.chars@[k]);
            assert(cur.colors@[k] == prev.colors@[k]);
            assert(cur.escapes@[k] == prev.escapes@[k]);
        }
    };
    assert forall|x: int, y: int|
        p0.in_bounds(x, y) && !draw_hits_upto(t, (ax, ay), hc, vc, i + 1, x, y) implies {
        let k = p0.cell(x, y);
        &&& cur.chars@[k] == p0.chars@[k]
        &&& cur.colors@[k] == p0.colors@[k]
        &&& cur.escapes@[k] == p0.escapes@[k]
    } by {
        let k = p0.cell(x, y);
        lemma_cell_in_range(w, h, x, y);
        if x == xp && y == yv {
            assert(draw_hits_upto(t, (ax, ay), hc, vc, i + 1, x, y));
            assert(false);
        } else {
            if k == kd {
                lemma_cell_inj(w, x, y, xp, yv);
            }
            if draw_hits_upto(t, (ax, ay), hc, vc, i, x, y) {
                let ii = choose|ii: int|
                    0 <= ii < i && ii < t.len() && t[ii] != '\n' && target_x(t, ax, hc, ii) == x
                        && target_y(t, ay, vc, ii) == y;
                assert(draw_hits_upto(t, (ax, ay), hc, vc, i + 1, x, y));
                assert(false);
            }
            assert(cur.chars@[k] == prev.chars@[k]);
            assert(cur.colors@[k] == prev.colors@[k]);
            assert(cur.escapes@[k] == prev.escapes@[k]);
        }
    };
}

impl Pixels {
    /// Draws a styled text block at `position` under the given alignments,
    /// line by line: glyph i lands on the cell the target functions give,
    /// writing its character and color there and adding underline and bold
    /// style codes as its flags say; glyphs aimed off the grid are dropped,
    /// and every cell no glyph lands on keeps what it held.
    #[verifier::rlimit(100)]
    pub fn print_color(
        &mut self,
        text: &ColoredText,
        position: (usize, usize),
        hc: HCentering,
        vc: VCentering,
    )
        requires
            old(self).wf(),
            text.wf(),
            text.chars@.len() < 0x4000_0000,
            position.0 < 0x4000_0000,
            position.1 < 0x4000_0000,
        ensures
            final(self).wf(),
            final(self).size == old(self).size,
            final(self).chars@.len() == old(self).chars@.len(),
            final(self).colors@.len() == old(self).colors@.len(),
            final(self).escapes@.len() == old(self).escapes@.len(),
            drawn_upto(
                *old(self),
                *final(self),
                *text,
                position.0 as int,
                position.1 as int,
                hc,
                vc,
                text.chars@.len() as int,
            ),
            untouched_upto(
                *old(self),
                *final(self),
                *text,
                position.0 as int,
                position.1 as int,
                hc,
                vc,
                text.chars@.len() as int,
            ),
    {
        let ghost t = text.chars@;
        let ghost ax = position.0 as int;
        let ghost ay = position.1 as int;
        let ghost h0 = h_shift(t, hc);
        let ghost v0 = v_shift(t, vc);
        let ghost w = old(self).size.0 as int;
        let ghost h = old(self).size.1 as int;
        let maxl = text.max_split_len('\n');
        let nlc = text.count_char('\n');
        proof {
            lemma_max_seg_len_bound(t, '\n');
            lemma_count_ch_bound(t, '\n');
        }
        let shift0: i64 = match hc {
            HCentering::Left => 0,
            HCentering::Center => -((maxl as i64) / 2),
            HCentering::Right => -(maxl as i64),
        };
        let y0: i64 = match vc {
            VCentering::Top => position.1 as i64,
            VCentering::Middle => position.1 as i64 - (nlc as i64) / 2,
            VCentering::Bottom => position.1 as i64 - nlc as i64,
        };
        proof {
            assert(shift0 == h0);
            assert(t.take(0) =~= Seq::<char>::empty());
            assert(y0 == ay - v0);
        }
        let mut shift: i64 = shift0;
        let mut y: i64 = y0;
        let mut cll: i64 = 0;
        let mut i: usize = 0;
        let n = text.len();
        while i < n
            invariant
                n == t.len(),
                t == text.chars@,
                text.wf(),
                t.len() < 0x4000_0000,
                ax == position.0 as int,
                ay == position.1 as int,
                0 <= ax < 0x4000_0000,
                0 <= ay < 0x4000_0000,
                h0 == h_shift(t, hc),
                v0 == v_shift(t, vc),
                -0x4000_0000 < h0 <= 0,
                0 <= v0 <= t.len(),
                w == old(self).size.0 as int,
                h == old(self).size.1 as int,
                i <= n,
                0 <= cll <= i,
                cll == line_col(t, i as int),
                shift == h0 - (i - cll),
                0 <= count_ch(t.take(i as int), '\n') <= i,
                y == ay - v0 + count_ch(t.take(i as int), '\n'),
                self.wf(),
                self.size == old(self).size,
                self.chars@.len() == old(self).chars@.len(),
                self.colors@.len() == old(self).colors@.len(),
                self.escapes@.len() == old(self).escapes@.len(),
                drawn_upto(*old(self), *self, *text, ax, ay, hc, vc, i as int),
                untouched_upto(*old(self), *self, *text, ax, ay, hc, vc, i as int),
            decreases n - i,
        {
            let ch = text.chars[i];
            proof {
                assert(t.take(i + 1) =~= t.take(i as int).push(t[i as int]));
                assert(t.take(i + 1).drop_last() =~= t.take(i as int));
            }
            if ch == '\n' {
                y = y + 1;
                shift = shift - (cll + 1);
                cll = 0;
                proof {
                    assert(line_col(t, i + 1) == 0);
                    assert(count_ch(t.take(i + 1), '\n') == count_ch(t.take(i as int), '\n') + 1);
                    lemma_draw_carry_skip(*old(self), *self, *text, ax, ay, hc, vc, i as int);
                }
            } else {
                let xp: i64 = position.0 as i64 + shift + (i as i64);
                proof {
                    assert(xp == ax + h0 + line_col(t, i as int));
                    assert(xp == target_x(t, ax, hc, i as int));
                    assert(y == target_y(t, ay, vc, i as int));
                    assert(line_col(t, i + 1) == line_col(t, i as int) + 1);
                    assert(count_ch(t.take(i + 1), '\n') == count_ch(t.take(i as int), '\n'));
                }
                if xp >= 0 && xp < self.size.0 as i64 && y >= 0 && y < self.size.1 as i64 {
                    let xu = xp as usize;
                    let yu = y as usize;
                    proof {
                        assert(xu as int == xp as int);
                        assert(yu as int == y as int);
                        lemma_cell_in_range(w, h, xp as int, y as int);
                    }
                    let ghost prev = *self;
                    self.set_char((xu, yu), ch);
                    self.set_color((xu, yu), text.colors[i]);
                    if text.underline[i] {
                        self.underline((xu, yu));
                    }
                    if text.bold[i] {
                        self.bold((xu, yu));
                    }
                    proof {
                        let kd = old(self).cell(xp as int, y as int);
                        assert(0 <= kd < prev.chars@.len());
                        assert(self.chars@ == prev.chars@.update(kd, t[i as int]));
                        assert(self.colors@ == prev.colors@.update(kd, text.colors@[i as int]));
                        assert(self.escapes@[kd]@ == glyph_escapes(
                            prev.escapes@[kd]@,
                            text.underline@[i as int],
                            text.bold@[i as int],
                        ));
                        assert forall|kk: int|
                            0 <= kk < prev.escapes@.len() && kk != kd implies self.escapes@[kk]
                            == prev.escapes@[kk] by {};
                        lemma_draw_step_write(
                            *old(self),
                            prev,
                            *self,
                            *text,
                            ax,
                            ay,
                            hc,
                            vc,
                            i as int,
                        );
                    }
                } else {
                    proof {
                        assert(!old(self).in_bounds(xp as int, y as int));
                        lemma_draw_carry_skip(*old(self), *self, *text, ax, ay, hc, vc, i as int);
                    }
                }
                cll = cll + 1;
            }
            i += 1;
        }
    }

    /// Draws a plain string in one uniform style: builds the styled text
    /// and draws it as `print_color` does.
    pub fn print(
        &mut self,
        text: &str,
        color: Color,
        underline: bool,
        bold: bool,
        position: (usize, usize),
        hc: HCentering,
        vc: VCentering,
    )
        requires
            old(self).wf(),
            text@.len() < 0x4000_0000,
            position.0 < 0x4000_0000,
            position.1 < 0x4000_0000,
        ensures
            final(self).wf(),
            final(self).size == old(self).size,
            final(self).chars@.len() == old(self).chars@.len(),
            final(self).colors@.len() == old(self).colors@.len(),
            final(self).escapes@.len() == old(self).escapes@.len(),
            forall|i: int|
                0 <= i < text@.len() && text@[i] != '\n' && old(self).in_bounds(
                    target_x(text@, position.0 as int, hc, i),
                    target_y(text@, position.1 as int, vc, i),
                ) ==> {
                    let k = old(self).cell(
                        target_x(text@, position.0 as int, hc, i),
                        target_y(text@, position.1 as int, vc, i),
                    );
                    &&& final(self).chars@[k] == text@[i]
                    &&& final(self).colors@[k] == color
                    &&& final(self).escapes@[k]@ == glyph_escapes(
                        old(self).escapes@[k]@,
                        underline,
                        bold,
                    )
                },
            forall|x: int, y: int|
                old(self).in_bounds(x, y) && !draw_hits_upto(
                    text@,
                    (position.0 as int, position.1 as int),
                    hc,
                    vc,
                    text@.len() as int,
                    x,
                    y,
                ) ==> {
                    let k = old(self).cell(x, y);
                    &&& final(self).chars@[k] == old(self).chars@[k]
                    &&& final(self).colors@[k] == old(self).colors@[k]
                    &&& final(self).escapes@[k] == old(self).escapes@[k]
                },
    {
        let colored_text = ColoredText::new_text(text, color, underline, bold);
        self.print_color(&colored_text, position, hc, vc)
    }
}

/// Law: on a fresh grid, every coordinate within bounds names a cell
/// holding a white space; a coordinate off the grid names no cell, and
/// reading it yields nothing.
pub proof fn lemma_fresh_grid(p: Pixels, x: int, y: int)
    requires
        p.wf(),
        forall|k: int| 0 <= k < p.chars@.len() ==> p.chars@[k] == ' ',
        forall|k: int| 0 <= k < p.colors@.len() ==> p.colors@[k] == (Color { r: 255, g: 255, b: 255 }),
    ensures
        p.in_bounds(x, y) ==> p.chars@[p.cell(x, y)] == ' ' && p.colors@[p.cell(x, y)] == (Color {
            r: 255,
            g: 255,
            b: 255,
        }),
{
    if p.in_bounds(x, y) {
        lemma_cell_in_range(p.size.0 as int, p.size.1 as int, x, y);
    }
}

/// Law: drawn with Left and Top alignment, a text without line breaks
/// puts glyph i exactly at cell (anchor_x + i, anchor_y).
pub proof fn lemma_draw_left_top(t: Seq<char>, ax: int, ay: int, i: int)
    requires
        0 <= i <= t.len(),
        forall|k: int| 0 <= k < t.len() ==> t[k] != '\n',
    ensures
        target_x(t, ax, HCentering::Left, i) == ax + i,
        target_y(t, ay, VCentering::Top, i) == ay,
{
    crate::text::lemma_line_col_no_breaks(t, i);
    lemma_count_absent(t.take(i), '\n');
}

/// The decimal renderings of the style codes, joined with ';'.
pub open spec fn join_codes(es: Seq<usize>) -> Seq<char>
    decreases es.len(),
{
    if es.len() == 0 {
        Seq::empty()
    } else if es.len() == 1 {
        dec_digits(es[0] as int)
    } else {
        join_codes(es.drop_last()) + seq![';'] + dec_digits(es.last() as int)
    }
}

/// The combined style escape of a cell: nothing without codes, else one
/// escape joining all codes.
pub open spec fn style_prefix(es: Seq<usize>) -> Seq<char> {
    if es.len() > 0 {
        seq!['\u{1b}', '['] + join_codes(es) + seq!['m']
    } else {
        Seq::empty()
    }
}

/// The color escape of a cell under a tier, empty where the tier gives
/// none.
pub open spec fn color_chars(c: Color, t: TermColorSupport) -> Seq<char> {
    match escape_chars(c, t) {
        Some(s) => s,
        None => Seq::empty(),
    }
}

/// The full style reset that follows every rendered cell.
pub open spec fn reset_chars() -> Seq<char> {
    seq!['\u{1b}', '[', '0', 'm']
}

/// The text one cell renders as: under the colorless tier just its
/// character, else its style escape, its color escape, its character, and
/// a reset.
pub open spec fn cell_chars(p: Pixels, k: int, t: TermColorSupport) -> Seq<char> {
    if t is NoColor {
        seq![p.chars@[k]]
    } else {
        style_prefix(p.escapes@[k]@) + color_chars(p.colors@[k], t) + seq![p.chars@[k]]
            + reset_chars()
    }
}

/// The text the first `n` cells of row `y` render as.
pub open spec fn row_chars(p: Pixels, y: int, n: int, t: TermColorSupport) -> Seq<char>
    decreases n,
{
    if n <= 0 {
        Seq::empty()
    } else {
        row_chars(p, y, n - 1, t) + cell_chars(p, y * p.size.0 as int + (n - 1), t)
    }
}

impl Pixels {
    /// Renders the grid under a capability tier: one string per row, each
    /// the concatenation of its cells' renderings. The caller positions
    /// the cursor and writes each row out.
    #[verifier::rlimit(100)]
    pub fn render(&self, term_color_support: &TermColorSupport) -> (rows: Vec<String>)
        requires
            self.wf(),
        ensures
            rows@.len() == self.size.1,
            forall|y: int|
                0 <= y < self.size.1 ==> rows@[y]@ == row_chars(
                    *self,
                    y,
                    self.size.0 as int,
                    *term_color_support,
                ),
    {
        let ghost w = self.size.0 as int;
        let ghost h = self.size.1 as int;
        let ghost tier = *term_color_support;
        let mut rows: Vec<String> = Vec::new();
        let mut i: usize = 0;
        while i < self.size.1
            invariant
                self.wf(),
                w == self.size.0 as int,
                h == self.size.1 as int,
                tier == *term_color_support,
                i <= h,
                rows@.len() == i,
                forall|y: int| 0 <= y < i ==> rows@[y]@ == row_chars(*self, y, w, tier),
            decreases h - i,
        {
            let mut line = String::new();
            let mut j: usize = 0;
            proof {
                assert(line@ =~= row_chars(*self, i as int, 0, tier));
            }
            while j < self.size.0
                invariant
                    self.wf(),
                    w == self.size.0 as int,
                    h == self.size.1 as int,
                    tier == *term_color_support,
                    i < h,
                    j <= w,
                    line@ == row_chars(*self, i as int, j as int, tier),
                decreases w - j,
            {
                proof {
                    lemma_cell_in_range(w, h, j as int, i as int);
                }
                let grid_cells: usize = self.chars.len();
                proof {
                    assert(grid_cells == w * h);
                }
                let k = i * self.size.0 + j;
                let ghost base = line@;
                if matches!(term_color_support, TermColorSupport::NoColor) {
                    push_char(&mut line, self.chars[k]);
                    proof {
                        assert(line@ =~= base + cell_chars(*self, k as int, tier));
                    }
                } else {
                    let es_len = self.escapes[k].len();
                    if es_len > 0 {
                        push_char(&mut line, '\u{1b}');
                        push_char(&mut line, '[');
                        let mut e: usize = 0;
                        proof {
                            assert(self.escapes@[k as int]@.take(0) =~= Seq::<usize>::empty());
                        }
                        while e < es_len
                            invariant
                                self.wf(),
                                0 <= k < self.escapes@.len(),
                                es_len == self.escapes@[k as int]@.len(),
                                es_len > 0,
                                e <= es_len,
                                line@ == base + seq!['\u{1b}', '['] + join_codes(
                                    self.escapes@[k as int]@.take(e as int),
                                ),
                            decreases es_len - e,
                        {
                            let ghost codes = self.escapes@[k as int]@;
                            proof {
                                assert(codes.take(e + 1) =~= codes.take(e as int).push(
                                    codes[e as int],
                                ));
                                assert(codes.take(e + 1).drop_last() =~= codes.take(e as int));
                                assert(codes.take(e + 1).last() == codes[e as int]);
                            }
                            if e > 0 {
                                push_char(&mut line, ';');
                            }
                            let code = self.escapes[k][e];
                            push_dec(&mut line, code);
                            proof {
                                if e == 0 {
                                    assert(join_codes(codes.take(1)) == dec_digits(
                                        codes[0] as int,
                                    ));
                                    assert(line@ =~= base + seq!['\u{1b}', '['] + join_codes(
                                        codes.take(1),
                                    ));
                                } else {
                                    assert(join_codes(codes.take(e + 1)) == join_codes(
                                        codes.take(e as int),
                                    ) + seq![';'] + dec_digits(codes[e as int] as int));
                                    assert(line@ =~= base + seq!['\u{1b}', '['] + join_codes(
                                        codes.take(e + 1),
                                    ));
                                }
                            }
                            e += 1;
                        }
                        push_char(&mut line, 'm');
                        proof {
                            assert(self.escapes@[k as int]@.take(es_len as int)
                                =~= self.escapes@[k as int]@);
                            assert(line@ =~= base + style_prefix(self.escapes@[k as int]@));
                        }
                    } else {
                        proof {
                            assert(line@ =~= base + style_prefix(self.escapes@[k as int]@));
                        }
                    }
                    let ghost mid = line@;
                    match self.colors[k].to_escape(term_color_support) {
                        Some(e) => {
                            line.append(e.as_str());
                            proof {
                                assert(line@ =~= mid + color_chars(
                                    self.colors@[k as int],
                                    tier,
                                ));
                            }
                        },
                        None => {
                            proof {
                                assert(line@ =~= mid + color_chars(
                                    self.colors@[k as int],
                                    tier,
                                ));
                            }
                        },
                    }
                    push_char(&mut line, self.chars[k]);
                    push_char(&mut line, '\u{1b}');
                    push_char(&mut line, '[');
                    push_char(&mut line, '0');
                    push_char(&mut line, 'm');
                    proof {
                        assert(line@ =~= base + cell_chars(*self, k as int, tier));
                    }
                }
                proof {
                    assert(k as int == (i as int) * w + ((j + 1) - 1));
                    assert(line@ =~= row_chars(*self, i as int, j + 1, tier));
                }
                j += 1;
            }
            rows.push(line);
            i += 1;
        }
        rows
    }
}

fn fill_colors(color: Color, n: usize) -> (v: Vec<Color>)
    ensures
        v@ == Seq::new(n as nat, |i: int| color),
{
    let mut v: Vec<Color> = Vec::new();
    let mut i: usize = 0;
    while i < n
        invariant
            i <= n,
            v@.len() == i,
            forall|k: int| 0 <= k < i ==> v@[k] == color,
        decreases n - i,
    {
        v.push(color);
        i += 1;
    }
    proof {
        assert(v@ =~= Seq::new(n as nat, |k: int| color));
    }
    v
}

fn fill_empty_escapes(n: usize) -> (v: Vec<Vec<usize>>)
    ensures
        v@.len() == n,
        forall|k: int| 0 <= k < n ==> v@[k]@.len() == 0,
{
    let mut v: Vec<Vec<usize>> = Vec::new();
    let mut i: usize = 0;
    while i < n
        invariant
            i <= n,
            v@.len() == i,
            forall|k: int| 0 <= k < i ==> v@[k]@.len() == 0,
        decreases n - i,
    {
        v.push(Vec::new());
        i += 1;
    }
    v
}

fn clone_usizes(v: &Vec<usize>) -> (r: Vec<usize>)
    ensures
        r@ == v@,
{
    let mut r: Vec<usize> = Vec::new();
    let mut i: usize = 0;
    while i < v.len()
        invariant
            i <= v@.len(),
            r@ == v@.take(i as int),
        decreases v@.len() - i,
    {
        r.push(v[i]);
        proof {
            assert(v@.take(i + 1) =~= v@.take(i as int).push(v@[i as int]));
        }
        i += 1;
    }
    proof {
        assert(v@.take(v@.len() as int) =~= v@);
    }
    r
}

} // verus!
