//! An ordered, mutable buffer of styled characters: four parallel
//! sequences of equal length holding each glyph's character, color,
//! underline flag and bold flag.

use vstd::prelude::*;
use vstd::string::*;
use vstd::seq_lib::*;
use crate::color::Color;
use crate::strfmt::push_char;

verus! {

/// One styled character: its glyph, color, underline flag and bold flag.
pub type Glyph = (char, Color, bool, bool);

/// The segments of `s` that stand before each occurrence of `p`: each
/// occurrence closes the segment gathered since the one before it, and
/// whatever follows the last occurrence is dropped.
pub open spec fn split_before(s: Seq<char>, p: char) -> Seq<Seq<char>>
    decreases s.len(),
{
    if s.len() == 0 {
        Seq::empty()
    } else if s.last() == p {
        split_before(s.drop_last(), p).push(tail_seg(s.drop_last(), p))
    } else {
        split_before(s.drop_last(), p)
    }
}

/// The characters of `s` after its last occurrence of `p` (all of `s` if
/// `p` does not occur).
pub open spec fn tail_seg(s: Seq<char>, p: char) -> Seq<char>
    decreases s.len(),
{
    if s.len() == 0 {
        Seq::empty()
    } else if s.last() == p {
        Seq::empty()
    } else {
        tail_seg(s.drop_last(), p).push(s.last())
    }
}

/// The greatest length among a sequence of segments, 0 with no segments.
pub open spec fn max_seg_len(ss: Seq<Seq<char>>) -> int
    decreases ss.len(),
{
    if ss.len() == 0 {
        0
    } else if ss.last().len() > max_seg_len(ss.drop_last()) {
        ss.last().len() as int
    } else {
        max_seg_len(ss.drop_last())
    }
}

/// How often `c` occurs in `s`.
pub open spec fn count_ch(s: Seq<char>, c: char) -> int
    decreases s.len(),
{
    if s.len() == 0 {
        0int
    } else if s.last() == c {
        count_ch(s.drop_last(), c) + 1
    } else {
        count_ch(s.drop_last(), c)
    }
}

/// The column of position `j`: how many characters stand between it and
/// the nearest line break (or the buffer start) before it.
pub open spec fn line_col(s: Seq<char>, j: int) -> int
    decreases j,
{
    if j <= 0 {
        0
    } else if s[j - 1] == '\n' {
        0
    } else {
        line_col(s, j - 1) + 1
    }
}

/// The narrowest width a wrap can honor: one column.
pub open spec fn width_limit(width: int) -> int {
    if width < 1 {
        1
    } else {
        width
    }
}

/// Wrapped text: every character other than a space or a line break
/// stands at a column below the limit. Equivalently, no line is longer
/// than the limit once its trailing spaces are ignored.
pub open spec fn wrapped_ok(s: Seq<char>, width: int) -> bool {
    forall|j: int|
        0 <= j < s.len() && s[j] != ' ' && s[j] != '\n' ==> line_col(s, j) < width_limit(width)
}

/// The styled view of four parallel columns.
pub open spec fn styled_of(ch: Seq<char>, co: Seq<Color>, un: Seq<bool>, bo: Seq<bool>) -> Seq<
    Glyph,
> {
    Seq::new(ch.len(), |i: int| (ch[i], co[i], un[i], bo[i]))
}

/// The glyphs that show as ink: everything except spaces and line breaks.
pub open spec fn visible(q: Seq<Glyph>) -> Seq<Glyph> {
    q.filter(|g: Glyph| g.0 != ' ' && g.0 != '\n')
}

/// The column of a position depends only on the characters before it.
proof fn lemma_line_col_prefix(s1: Seq<char>, s2: Seq<char>, j: int)
    requires
        0 <= j <= s1.len(),
        j <= s2.len(),
        forall|k: int| 0 <= k < j ==> s1[k] == s2[k],
    ensures
        line_col(s1, j) == line_col(s2, j),
    decreases j,
{
    if j > 0 {
        lemma_line_col_prefix(s1, s2, j - 1);
    }
}

/// Within one line, the column is the distance from the line's start.
proof fn lemma_line_col_in_line(s: Seq<char>, ls: int, j: int)
    requires
        0 <= ls <= j <= s.len(),
        ls == 0 || (ls - 1 < s.len() && s[ls - 1] == '\n'),
        forall|k: int| ls <= k < j ==> s[k] != '\n',
    ensures
        line_col(s, j) == j - ls,
    decreases j - ls,
{
    if j > ls {
        lemma_line_col_in_line(s, ls, j - 1);
    }
}

/// The tail segment is never longer than the text it comes from.
pub proof fn lemma_tail_seg_len(s: Seq<char>, p: char)
    ensures
        0 <= tail_seg(s, p).len() <= s.len(),
    decreases s.len(),
{
    if s.len() > 0 {
        lemma_tail_seg_len(s.drop_last(), p);
    }
}

/// No segment is longer than the text that was split.
pub proof fn lemma_max_seg_len_bound(s: Seq<char>, p: char)
    ensures
        0 <= max_seg_len(split_before(s, p)) <= s.len(),
    decreases s.len(),
{
    if s.len() > 0 {
        lemma_max_seg_len_bound(s.drop_last(), p);
        if s.last() == p {
            lemma_tail_seg_len(s.drop_last(), p);
            let ss = split_before(s.drop_last(), p).push(tail_seg(s.drop_last(), p));
            assert(ss.drop_last() =~= split_before(s.drop_last(), p));
            assert(ss.last() == tail_seg(s.drop_last(), p));
        }
    }
}

/// A count is never negative, nor more than the length.
pub proof fn lemma_count_ch_bound(s: Seq<char>, c: char)
    ensures
        0 <= count_ch(s, c) <= s.len(),
    decreases s.len(),
{
    if s.len() > 0 {
        lemma_count_ch_bound(s.drop_last(), c);
    }
}

/// Counting over a longer prefix never counts less.
pub proof fn lemma_count_take_mono(t: Seq<char>, c: char, i: int, j: int)
    requires
        0 <= i <= j <= t.len(),
    ensures
        count_ch(t.take(i), c) <= count_ch(t.take(j), c),
    decreases j - i,
{
    if j > i {
        lemma_count_take_mono(t, c, i, j - 1);
        assert(t.take(j) =~= t.take(j - 1).push(t[j - 1]));
        assert(t.take(j).drop_last() =~= t.take(j - 1));
    }
}

/// Before any line break, the column of a position is the position.
pub proof fn lemma_line_col_no_breaks(s: Seq<char>, j: int)
    requires
        0 <= j <= s.len(),
        forall|k: int| 0 <= k < j ==> s[k] != '\n',
    ensures
        line_col(s, j) == j,
{
    lemma_line_col_in_line(s, 0, j);
}

/// A character that never occurs is counted zero times.
pub proof fn lemma_count_absent(s: Seq<char>, c: char)
    requires
        forall|k: int| 0 <= k < s.len() ==> s[k] != c,
    ensures
        count_ch(s, c) == 0,
    decreases s.len(),
{
    if s.len() > 0 {
        lemma_count_absent(s.drop_last(), c);
    }
}

/// Two positions with the same number of line breaks before them lie on
/// one line, and their columns differ exactly by their distance.
pub proof fn lemma_same_line(t: Seq<char>, i: int, j: int)
    requires
        0 <= i <= j <= t.len(),
        count_ch(t.take(i), '\n') == count_ch(t.take(j), '\n'),
    ensures
        line_col(t, j) == line_col(t, i) + (j - i),
    decreases j - i,
{
    if j > i {
        assert(t.take(j) =~= t.take(j - 1).push(t[j - 1]));
        assert(t.take(j).drop_last() =~= t.take(j - 1));
        lemma_count_take_mono(t, '\n', i, j - 1);
        assert(t[j - 1] != '\n');
        lemma_same_line(t, i, j - 1);
    }
}

proof fn lemma_filter_singleton(g: Glyph, pred: spec_fn(Glyph) -> bool)
    ensures
        seq![g].filter(pred) == if pred(g) {
            seq![g]
        } else {
            Seq::<Glyph>::empty()
        },
{
    reveal_with_fuel(Seq::filter, 2);
    assert(seq![g].drop_last() =~= Seq::<Glyph>::empty());
    assert(Seq::<Glyph>::empty().filter(pred) =~= Seq::<Glyph>::empty());
}

proof fn lemma_visible_push(q: Seq<Glyph>, g: Glyph)
    ensures
        visible(q.push(g)) == if g.0 != ' ' && g.0 != '\n' {
            visible(q).push(g)
        } else {
            visible(q)
        },
{
    reveal_with_fuel(Seq::filter, 1);
    assert(q.push(g).drop_last() =~= q);
    assert(q.push(g).last() == g);
    assert(q.push(g).len() > 0);
}

proof fn lemma_visible_remove(q: Seq<Glyph>, p: int)
    requires
        0 <= p < q.len(),
        q[p].0 == ' ' || q[p].0 == '\n',
    ensures
        visible(q.remove(p)) == visible(q),
{
    let pred = |g: Glyph| g.0 != ' ' && g.0 != '\n';
    let a = q.subrange(0, p);
    let b = q.subrange(p + 1, q.len() as int);
    assert(q =~= a + seq![q[p]] + b);
    assert(q.remove(p) == a + b);
    Seq::filter_distributes_over_add(a + seq![q[p]], b, pred);
    Seq::filter_distributes_over_add(a, seq![q[p]], pred);
    Seq::filter_distributes_over_add(a, b, pred);
    lemma_filter_singleton(q[p], pred);
    assert((a + seq![q[p]]).filter(pred) =~= a.filter(pred));
    assert(visible(q) =~= visible(a + b));
}

proof fn lemma_visible_insert(q: Seq<Glyph>, p: int, g: Glyph)
    requires
        0 <= p <= q.len(),
        g.0 == ' ' || g.0 == '\n',
    ensures
        visible(q.insert(p, g)) == visible(q),
{
    let pred = |g: Glyph| g.0 != ' ' && g.0 != '\n';
    let a = q.subrange(0, p);
    let b = q.subrange(p, q.len() as int);
    assert(q =~= a + b);
    assert(q.insert(p, g) =~= a + seq![g] + b);
    Seq::filter_distributes_over_add(a + seq![g], b, pred);
    Seq::filter_distributes_over_add(a, seq![g], pred);
    Seq::filter_distributes_over_add(a, b, pred);
    lemma_filter_singleton(g, pred);
    assert((a + seq![g]).filter(pred) =~= a.filter(pred));
    assert(visible(q.insert(p, g)) =~= visible(q));
}

proof fn lemma_styled_push(ch: Seq<char>, co: Seq<Color>, un: Seq<bool>, bo: Seq<bool>, g: Glyph)
    requires
        co.len() == ch.len(),
        un.len() == ch.len(),
        bo.len() == ch.len(),
    ensures
        styled_of(ch.push(g.0), co.push(g.1), un.push(g.2), bo.push(g.3)) == styled_of(
            ch,
            co,
            un,
            bo,
        ).push(g),
{
    assert(styled_of(ch.push(g.0), co.push(g.1), un.push(g.2), bo.push(g.3)) =~= styled_of(
        ch,
        co,
        un,
        bo,
    ).push(g));
}

proof fn lemma_styled_remove(ch: Seq<char>, co: Seq<Color>, un: Seq<bool>, bo: Seq<bool>, p: int)
    requires
        co.len() == ch.len(),
        un.len() == ch.len(),
        bo.len() == ch.len(),
        0 <= p < ch.len(),
    ensures
        styled_of(ch.remove(p), co.remove(p), un.remove(p), bo.remove(p)) == styled_of(
            ch,
            co,
            un,
            bo,
        ).remove(p),
{
    assert(styled_of(ch.remove(p), co.remove(p), un.remove(p), bo.remove(p)) =~= styled_of(
        ch,
        co,
        un,
        bo,
    ).remove(p));
}

proof fn lemma_styled_insert(
    ch: Seq<char>,
    co: Seq<Color>,
    un: Seq<bool>,
    bo: Seq<bool>,
    p: int,
    g: Glyph,
)
    requires
        co.len() == ch.len(),
        un.len() == ch.len(),
        bo.len() == ch.len(),
        0 <= p <= ch.len(),
    ensures
        styled_of(ch.insert(p, g.0), co.insert(p, g.1), un.insert(p, g.2), bo.insert(p, g.3))
            == styled_of(ch, co, un, bo).insert(p, g),
{
    assert(styled_of(ch.insert(p, g.0), co.insert(p, g.1), un.insert(p, g.2), bo.insert(p, g.3))
        =~= styled_of(ch, co, un, bo).insert(p, g));
}

/// A buffer of styled characters. The four sequences run in parallel:
/// index i across all four describes glyph i.
pub struct ColoredText {
    pub chars: Vec<char>,
    pub colors: Vec<Color>,
    pub underline: Vec<bool>,
    pub bold: Vec<bool>,
}

impl ColoredText {
    /// The parallel sequences all have the same length.
    pub open spec fn wf(&self) -> bool {
        &&& self.colors@.len() == self.chars@.len()
        &&& self.underline@.len() == self.chars@.len()
        &&& self.bold@.len() == self.chars@.len()
    }

    /// The buffer as one sequence of styled characters.
    pub open spec fn styled(&self) -> Seq<Glyph> {
        Seq::new(
            self.chars@.len(),
            |i: int| (self.chars@[i], self.colors@[i], self.underline@[i], self.bold@[i]),
        )
    }

    /// New empty buffer.
    pub fn new() -> (t: ColoredText)
        ensures
            t.wf(),
            t.chars@.len() == 0,
    {
        ColoredText {
            chars: Vec::new(),
            colors: Vec::new(),
            underline: Vec::new(),
            bold: Vec::new(),
        }
    }

    /// New buffer holding `text` in one uniform style.
    pub fn new_text(text: &str, color: Color, underline: bool, bold: bool) -> (t: ColoredText)
        ensures
            t.wf(),
            t.chars@ == text@,
            t.colors@ == Seq::new(text@.len(), |i: int| color),
            t.underline@ == Seq::new(text@.len(), |i: int| underline),
            t.bold@ == Seq::new(text@.len(), |i: int| bold),
    {
        let mut colored_text = ColoredText::new();
        colored_text.push_str(text, color, underline, bold);
        proof {
            assert(colored_text.chars@ =~= text@);
            assert(colored_text.colors@ =~= Seq::new(text@.len(), |i: int| color));
            assert(colored_text.underline@ =~= Seq::new(text@.len(), |i: int| underline));
            assert(colored_text.bold@ =~= Seq::new(text@.len(), |i: int| bold));
        }
        colored_text
    }

    /// The characters, as a fresh vector.
    pub fn chars(&self) -> (r: Vec<char>)
        ensures
            r@ == self.chars@,
    {
        let mut r: Vec<char> = Vec::new();
        let mut i: usize = 0;
        while i < self.chars.len()
            invariant
                i <= self.chars@.len(),
                r@ == self.chars@.take(i as int),
            decreases self.chars@.len() - i,
        {
            r.push(self.chars[i]);
            proof {
                assert(self.chars@.take(i + 1) =~= self.chars@.take(i as int).push(
                    self.chars@[i as int],
                ));
            }
            i += 1;
        }
        proof {
            assert(self.chars@.take(self.chars@.len() as int) =~= self.chars@);
        }
        r
    }

    /// The colors, as a fresh vector.
    pub fn colors(&self) -> (r: Vec<Color>)
        ensures
            r@ == self.colors@,
    {
        let mut r: Vec<Color> = Vec::new();
        let mut i: usize = 0;
        while i < self.colors.len()
            invariant
                i <= self.colors@.len(),
                r@ == self.colors@.take(i as int),
            decreases self.colors@.len() - i,
        {
            r.push(self.colors[i]);
            proof {
                assert(self.colors@.take(i + 1) =~= self.colors@.take(i as int).push(
                    self.colors@[i as int],
                ));
            }
            i += 1;
        }
        proof {
            assert(self.colors@.take(self.colors@.len() as int) =~= self.colors@);
        }
        r
    }

    /// The underline flags, as a fresh vector.
    pub fn underline(&self) -> (r: Vec<bool>)
        ensures
            r@ == self.underline@,
    {
        clone_bools(&self.underline)
    }

    /// The bold flags, as a fresh vector.
    pub fn bold(&self) -> (r: Vec<bool>)
        ensures
            r@ == self.bold@,
    {
        clone_bools(&self.bold)
    }

    /// Sets the underline flag at `idx`; out of bounds, changes nothing.
    pub fn set_underline(&mut self, idx: usize)
        ensures
            final(self).chars@ == old(self).chars@,
            final(self).colors@ == old(self).colors@,
            final(self).bold@ == old(self).bold@,
            final(self).underline@ == if idx < old(self).underline@.len() {
                old(self).underline@.update(idx as int, true)
            } else {
                old(self).underline@
            },
    {
        if idx < self.underline.len() {
            self.underline.set(idx, true);
        }
    }

    /// How many styled characters the buffer holds.
    pub fn len(&self) -> (n: usize)
        ensures
            n == self.chars@.len(),
    {
        self.chars.len()
    }

    /// The characters as one string.
    pub fn text(&self) -> (s: String)
        ensures
            s@ == self.chars@,
    {
        let mut s = String::new();
        let mut i: usize = 0;
        while i < self.chars.len()
            invariant
                i <= self.chars@.len(),
                s@ == self.chars@.take(i as int),
            decreases self.chars@.len() - i,
        {
            push_char(&mut s, self.chars[i]);
            proof {
                assert(self.chars@.take(i + 1) =~= self.chars@.take(i as int).push(
                    self.chars@[i as int],
                ));
            }
            i += 1;
        }
        proof {
            assert(self.chars@.take(self.chars@.len() as int) =~= self.chars@);
        }
        s
    }

    /// The text split on `pattern_char`: the segment before each
    /// occurrence, in order; anything after the last occurrence is not
    /// reported. Style is discarded.
    pub fn split(&self, pattern_char: char) -> (res: Vec<String>)
        ensures
            res@.len() == split_before(self.chars@, pattern_char).len(),
            forall|i: int| 0 <= i < res@.len() ==> res@[i]@ == split_before(
                self.chars@,
                pattern_char,
            )[i],
    {
        let mut res: Vec<String> = Vec::new();
        let mut current = String::new();
        let mut i: usize = 0;
        while i < self.chars.len()
            invariant
                i <= self.chars@.len(),
                current@ == tail_seg(self.chars@.take(i as int), pattern_char),
                res@.len() == split_before(self.chars@.take(i as int), pattern_char).len(),
                forall|k: int| 0 <= k < res@.len() ==> res@[k]@ == split_before(
                    self.chars@.take(i as int),
                    pattern_char,
                )[k],
            decreases self.chars@.len() - i,
        {
            let c = self.chars[i];
            proof {
                assert(self.chars@.take(i + 1) =~= self.chars@.take(i as int).push(
                    self.chars@[i as int],
                ));
                assert(self.chars@.take(i + 1).drop_last() =~= self.chars@.take(i as int));
            }
            if c == pattern_char {
                res.push(current);
                current = String::new();
            } else {
                push_char(&mut current, c);
            }
            i += 1;
        }
        proof {
            assert(self.chars@.take(self.chars@.len() as int) =~= self.chars@);
        }
        res
    }

    /// The greatest character count among the segments that splitting on
    /// `pattern_char` yields.
    pub fn max_split_len(&self, pattern_char: char) -> (m: usize)
        ensures
            m == max_seg_len(split_before(self.chars@, pattern_char)),
    {
        let mut best: usize = 0;
        let mut cur: usize = 0;
        let mut i: usize = 0;
        while i < self.chars.len()
            invariant
                i <= self.chars@.len(),
                cur <= i,
                cur == tail_seg(self.chars@.take(i as int), pattern_char).len(),
                best == max_seg_len(split_before(self.chars@.take(i as int), pattern_char)),
            decreases self.chars@.len() - i,
        {
            let c = self.chars[i];
            proof {
                let pre = self.chars@.take(i as int);
                assert(self.chars@.take(i + 1) =~= pre.push(self.chars@[i as int]));
                assert(self.chars@.take(i + 1).drop_last() =~= pre);
                if self.chars@[i as int] == pattern_char {
                    let ss = split_before(pre, pattern_char).push(tail_seg(pre, pattern_char));
                    assert(split_before(self.chars@.take(i + 1), pattern_char) == ss);
                    assert(ss.drop_last() =~= split_before(pre, pattern_char));
                    assert(ss.last() == tail_seg(pre, pattern_char));
                }
            }
            if c == pattern_char {
                if cur > best {
                    best = cur;
                }
                cur = 0;
            } else {
                cur += 1;
            }
            i += 1;
        }
        proof {
            assert(self.chars@.take(self.chars@.len() as int) =~= self.chars@);
        }
        best
    }

    /// How often `c` occurs in the buffer.
    pub fn count_char(&self, c: char) -> (n: usize)
        ensures
            n == count_ch(self.chars@, c),
    {
        let mut n: usize = 0;
        let mut i: usize = 0;
        while i < self.chars.len()
            invariant
                i <= self.chars@.len(),
                n == count_ch(self.chars@.take(i as int), c),
                n <= i,
            decreases self.chars@.len() - i,
        {
            proof {
                assert(self.chars@.take(i + 1) =~= self.chars@.take(i as int).push(
                    self.chars@[i as int],
                ));
                assert(self.chars@.take(i + 1).drop_last() =~= self.chars@.take(i as int));
            }
            if self.chars[i] == c {
                n += 1;
            }
            i += 1;
        }
        proof {
            assert(self.chars@.take(self.chars@.len() as int) =~= self.chars@);
        }
        n
    }

    /// Appends one styled character.
    pub fn push(&mut self, ch: char, color: Color, underline: bool, bold: bool)
        ensures
            final(self).chars@ == old(self).chars@.push(ch),
            final(self).colors@ == old(self).colors@.push(color),
            final(self).underline@ == old(self).underline@.push(underline),
            final(self).bold@ == old(self).bold@.push(bold),
    {
        self.chars.push(ch);
        self.colors.push(color);
        self.underline.push(underline);
        self.bold.push(bold);
    }

    /// Inserts one styled character at `idx`, shifting the rest right.
    pub fn insert(&mut self, idx: usize, ch: char, color: Color, underline: bool, bold: bool)
        requires
            old(self).wf(),
            idx <= old(self).chars@.len(),
        ensures
            final(self).chars@ == old(self).chars@.insert(idx as int, ch),
            final(self).colors@ == old(self).colors@.insert(idx as int, color),
            final(self).underline@ == old(self).underline@.insert(idx as int, underline),
            final(self).bold@ == old(self).bold@.insert(idx as int, bold),
    {
        self.chars.insert(idx, ch);
        self.colors.insert(idx, color);
        self.underline.insert(idx, underline);
        self.bold.insert(idx, bold);
    }

    /// Removes and returns the last styled character, or None when the
    /// buffer is empty.
    pub fn pop(&mut self) -> (r: Option<Glyph>)
        requires
            old(self).wf(),
        ensures
            old(self).chars@.len() == 0 ==> r is None && *final(self) == *old(self),
            old(self).chars@.len() > 0 ==> {
                &&& r == Some(
                    (
                        old(self).chars@.last(),
                        old(self).colors@.last(),
                        old(self).underline@.last(),
                        old(self).bold@.last(),
                    ),
                )
                &&& final(self).chars@ == old(self).chars@.drop_last()
                &&& final(self).colors@ == old(self).colors@.drop_last()
                &&& final(self).underline@ == old(self).underline@.drop_last()
                &&& final(self).bold@ == old(self).bold@.drop_last()
            },
    {
        if self.chars.len() > 0 {
            let ch = self.chars.pop().unwrap();
            let color = self.colors.pop().unwrap();
            let und = self.underline.pop().unwrap();
            let bold = self.bold.pop().unwrap();
            Some((ch, color, und, bold))
        } else {
            None
        }
    }

    /// Appends a whole string in one uniform style.
    pub fn push_str(&mut self, s: &str, color: Color, underline: bool, bold: bool)
        ensures
            final(self).chars@ == old(self).chars@ + s@,
            final(self).colors@ == old(self).colors@ + Seq::new(s@.len(), |i: int| color),
            final(self).underline@ == old(self).underline@ + Seq::new(
                s@.len(),
                |i: int| underline,
            ),
            final(self).bold@ == old(self).bold@ + Seq::new(s@.len(), |i: int| bold),
    {
        let n = s.unicode_len();
        let mut i: usize = 0;
        while i < n
            invariant
                i <= n,
                n == s@.len(),
                self.chars@ == old(self).chars@ + s@.take(i as int),
                self.colors@ == old(self).colors@ + Seq::new(i as nat, |k: int| color),
                self.underline@ == old(self).underline@ + Seq::new(i as nat, |k: int| underline),
                self.bold@ == old(self).bold@ + Seq::new(i as nat, |k: int| bold),
            decreases n - i,
        {
            let c = s.get_char(i);
            self.chars.push(c);
            self.colors.push(color);
            self.underline.push(underline);
            self.bold.push(bold);
            proof {
                assert(self.chars@ =~= old(self).chars@ + s@.take(i + 1));
                assert(self.colors@ =~= old(self).colors@ + Seq::new(
                    (i + 1) as nat,
                    |k: int| color,
                ));
                assert(self.underline@ =~= old(self).underline@ + Seq::new(
                    (i + 1) as nat,
                    |k: int| underline,
                ));
                assert(self.bold@ =~= old(self).bold@ + Seq::new(
                    (i + 1) as nat,
                    |k: int| bold,
                ));
            }
            i += 1;
        }
        proof {
            assert(s@.take(s@.len() as int) =~= s@);
            assert(final(self).chars@ =~= old(self).chars@ + s@);
        }
    }
}

impl ColoredText {
    /// Rewrites the buffer, inserting line breaks so that no visual line
    /// is longer than `width` once trailing spaces are ignored: a break
    /// replaces the latest space where one was seen, or lands right
    /// before the current character when a single word fills the whole
    /// line. Spaces just before a chosen break point are dropped, and
    /// inserted breaks take a default white, unstyled look; every glyph
    /// that shows as ink keeps its style and its order.
    #[verifier::rlimit(100)]
    pub fn word_wrap(&mut self, width: usize)
        requires
            old(self).wf(),
        ensures
            final(self).wf(),
            wrapped_ok(final(self).chars@, width as int),
            visible(final(self).styled()) == visible(old(self).styled()),
    {
        let ghost input = *old(self);
        let ghost wlim = width_limit(width as int);
        let mut nch: Vec<char> = Vec::new();
        let mut nco: Vec<Color> = Vec::new();
        let mut nun: Vec<bool> = Vec::new();
        let mut nbo: Vec<bool> = Vec::new();
        let mut line_length: usize = 0;
        let mut last_word_start: usize = 0;
        let ghost mut ls: int = 0;
        let mut i: usize = 0;
        proof {
            reveal_with_fuel(Seq::filter, 1);
            assert(styled_of(nch@, nco@, nun@, nbo@) =~= Seq::<Glyph>::empty());
            assert(input.styled().take(0) =~= Seq::<Glyph>::empty());
        }
        while i < self.chars.len()
            invariant
                self.chars@ == input.chars@,
                self.colors@ == input.colors@,
                self.underline@ == input.underline@,
                self.bold@ == input.bold@,
                input.wf(),
                wlim == width_limit(width as int),
                i <= input.chars@.len(),
                nco@.len() == nch@.len(),
                nun@.len() == nch@.len(),
                nbo@.len() == nch@.len(),
                0 <= ls <= nch@.len(),
                ls == 0 || nch@[ls - 1] == '\n',
                forall|k: int| ls <= k < nch@.len() ==> nch@[k] != '\n',
                line_length == nch@.len() - ls,
                last_word_start <= nch@.len(),
                forall|k: int|
                    last_word_start <= k < nch@.len() && ls <= k ==> nch@[k] != ' '
                        && nch@[k] != '\n',
                wrapped_ok(nch@, width as int),
                visible(styled_of(nch@, nco@, nun@, nbo@)) == visible(
                    input.styled().take(i as int),
                ),
            decreases input.chars@.len() - i,
    {
            let ghost pch = nch@;
            let ghost pco = nco@;
            let ghost pun = nun@;
            let ghost pbo = nbo@;
            let ghost pstyled = styled_of(pch, pco, pun, pbo);
            let ghost n = pch.len() as int;
            let c = self.chars[i];
            let col_i = self.colors[i];
            let un_i = self.underline[i];
            let bo_i = self.bold[i];
            let ghost gi: Glyph = (c, col_i, un_i, bo_i);
            proof {
                assert(input.styled()[i as int] == gi);
                assert(input.styled().take(i + 1) =~= input.styled().take(i as int).push(gi));
            }
            if c == '\n' {
                nch.push(c);
                nco.push(col_i);
                nun.push(un_i);
                nbo.push(bo_i);
                line_length = 0;
                proof {
                    ls = n + 1;
                    lemma_styled_push(pch, pco, pun, pbo, gi);
                    lemma_visible_push(pstyled, gi);
                    lemma_visible_push(input.styled().take(i as int), gi);
                    assert forall|j: int|
                        0 <= j < nch@.len() && nch@[j] != ' ' && nch@[j] != '\n' implies line_col(
                        nch@,
                        j,
                    ) < wlim by {
                        lemma_line_col_prefix(nch@, pch, j);
                    };
                }
            } else if c == ' ' {
                nch.push(c);
                nco.push(col_i);
                nun.push(un_i);
                nbo.push(bo_i);
                last_word_start = nch.len();
                line_length = line_length + 1;
                proof {
                    lemma_styled_push(pch, pco, pun, pbo, gi);
                    lemma_visible_push(pstyled, gi);
                    lemma_visible_push(input.styled().take(i as int), gi);
                    assert forall|j: int|
                        0 <= j < nch@.len() && nch@[j] != ' ' && nch@[j] != '\n' implies line_col(
                        nch@,
                        j,
                    ) < wlim by {
                        lemma_line_col_prefix(nch@, pch, j);
                    };
                }
            } else {
                if line_length >= width {
                    if nch.len() - last_word_start >= width {
                        // A word as wide as the whole line: break right here.
                        nch.push('\n');
                        nco.push(Color::new_rgb(255, 255, 255));
                        nun.push(false);
                        nbo.push(false);
                        let ghost gb: Glyph = ('\n', Color { r: 255, g: 255, b: 255 }, false, false);
                        let ghost mch = nch@;
                        let ghost mstyled = pstyled.push(gb);
                        last_word_start = nch.len();
                        nch.push(c);
                        nco.push(col_i);
                        nun.push(un_i);
                        nbo.push(bo_i);
                        line_length = 1;
                        proof {
                            ls = n + 1;
                            lemma_styled_push(pch, pco, pun, pbo, gb);
                            lemma_visible_push(pstyled, gb);
                            lemma_styled_push(mch, pco.push(gb.1), pun.push(gb.2), pbo.push(gb.3), gi);
                            lemma_visible_push(mstyled, gi);
                            lemma_visible_push(input.styled().take(i as int), gi);
                            assert forall|j: int|
                                0 <= j < nch@.len() && nch@[j] != ' ' && nch@[j]
                                    != '\n' implies line_col(nch@, j) < wlim by {
                                if j < n {
                                    assert(nch@[j] == pch[j]);
                                    lemma_line_col_prefix(nch@, pch, j);
                                } else {
                                    assert(j == n + 1);
                                    assert(nch@[n] == '\n');
                                    assert(line_col(nch@, j) == 0);
                                }
                            };
                        }
                    } else {
                        // Turn the latest space into the break; drop the
                        // spaces that would open the new line.
                        let ghost wordlen = nch@.len() - last_word_start as int;
                        while last_word_start > 0 && nch[last_word_start - 1] == ' '
                            invariant
                                nco@.len() == nch@.len(),
                                nun@.len() == nch@.len(),
                                nbo@.len() == nch@.len(),
                                wlim == width_limit(width as int),
                                0 <= ls <= last_word_start,
                                last_word_start <= nch@.len(),
                                nch@.len() - last_word_start == wordlen,
                                0 <= wordlen < width,
                                ls == 0 || nch@[ls - 1] == '\n',
                                forall|k: int| ls <= k < nch@.len() ==> nch@[k] != '\n',
                                forall|k: int|
                                    last_word_start <= k < nch@.len() ==> nch@[k] != ' '
                                        && nch@[k] != '\n',
                                wrapped_ok(nch@, width as int),
                                visible(styled_of(nch@, nco@, nun@, nbo@)) == visible(
                                    input.styled().take(i as int),
                                ),
                            decreases last_word_start,
                        {
                            let ghost qch = nch@;
                            let ghost qco = nco@;
                            let ghost qun = nun@;
                            let ghost qbo = nbo@;
                            proof {
                                if last_word_start == ls {
                                    assert(ls > 0);
                                    assert(qch[ls - 1] == '\n');
                                    assert(false);
                                }
                            }
                            let p = last_word_start - 1;
                            nch.remove(p);
                            nco.remove(p);
                            nun.remove(p);
                            nbo.remove(p);
                            last_word_start = p;
                            proof {
                                lemma_styled_remove(qch, qco, qun, qbo, p as int);
                                lemma_visible_remove(styled_of(qch, qco, qun, qbo), p as int);
                                assert(nch@.len() == qch.len() - 1);
                                assert forall|k: int| 0 <= k < p implies nch@[k] == qch[k] by {};
                                assert forall|k: int| p <= k < nch@.len() implies nch@[k] == qch[k
                                    + 1] by {};
                                assert forall|k: int| ls <= k < nch@.len() implies nch@[k]
                                    != '\n' by {
                                    if k < p {
                                        assert(nch@[k] == qch[k]);
                                    } else {
                                        assert(nch@[k] == qch[k + 1]);
                                    }
                                };
                                assert forall|k: int| p <= k < nch@.len() implies nch@[k] != ' '
                                    && nch@[k] != '\n' by {
                                    assert(nch@[k] == qch[k + 1]);
                                };
                                assert forall|j: int|
                                    0 <= j < nch@.len() && nch@[j] != ' ' && nch@[j]
                                        != '\n' implies line_col(nch@, j) < wlim by {
                                    if j < p {
                                        lemma_line_col_prefix(nch@, qch, j);
                                    } else {
                                        assert(nch@[j] == qch[j + 1]);
                                        assert(qch[j + 1] != ' ' && qch[j + 1] != '\n');
                                        assert(line_col(qch, j + 1) < wlim);
                                        if ls > 0 {
                                            assert(nch@[ls - 1] == qch[ls - 1]);
                                        }
                                        lemma_line_col_in_line(nch@, ls, j);
                                        lemma_line_col_in_line(qch, ls, j + 1);
                                    }
                                };
                            }
                        }
                        let ghost sch = nch@;
                        let ghost sco = nco@;
                        let ghost sun = nun@;
                        let ghost sbo = nbo@;
                        let ghost m = sch.len() as int;
                        let ghost p = last_word_start as int;
                        let ghost gb: Glyph = ('\n', Color { r: 255, g: 255, b: 255 }, false, false);
                        nch.insert(last_word_start, '\n');
                        nco.insert(last_word_start, Color::new_rgb(255, 255, 255));
                        nun.insert(last_word_start, false);
                        nbo.insert(last_word_start, false);
                        let ghost tch = nch@;
                        let ghost tco = nco@;
                        let ghost tun = nun@;
                        let ghost tbo = nbo@;
                        nch.push(c);
                        nco.push(col_i);
                        nun.push(un_i);
                        nbo.push(bo_i);
                        let nl = nch.len();
                        last_word_start = last_word_start + 1;
                        line_length = nl - last_word_start;
                        proof {
                            ls = p + 1;
                            lemma_styled_insert(sch, sco, sun, sbo, p, gb);
                            lemma_visible_insert(styled_of(sch, sco, sun, sbo), p, gb);
                            lemma_styled_push(tch, tco, tun, tbo, gi);
                            lemma_visible_push(styled_of(tch, tco, tun, tbo), gi);
                            lemma_visible_push(input.styled().take(i as int), gi);
                            assert(nch@.len() == m + 2);
                            assert forall|k: int| 0 <= k < p implies nch@[k] == sch[k] by {
                                assert(tch[k] == sch[k]);
                            };
                            assert(nch@[p] == '\n');
                            assert forall|k: int| p < k < m + 1 implies nch@[k] == sch[k - 1] by {
                                assert(tch[k] == sch[k - 1]);
                            };
                            assert(nch@[m + 1] == c);
                            assert forall|k: int| ls <= k < nch@.len() implies nch@[k] != '\n'
                                && nch@[k] != ' ' by {
                                if k < m + 1 {
                                    assert(nch@[k] == sch[k - 1]);
                                } else {
                                    assert(nch@[k] == c);
                                }
                            };
                            assert forall|j: int|
                                0 <= j < nch@.len() && nch@[j] != ' ' && nch@[j]
                                    != '\n' implies line_col(nch@, j) < wlim by {
                                if j < p {
                                    assert forall|k: int| 0 <= k < j implies nch@[k] == sch[k] by {};
                                    lemma_line_col_prefix(nch@, sch, j);
                                    assert(line_col(sch, j) < wlim);
                                } else if j == p {
                                    assert(nch@[p] == '\n');
                                    assert(false);
                                } else {
                                    lemma_line_col_in_line(nch@, ls, j);
                                    assert(j - ls <= wordlen);
                                    assert(wordlen < width);
                                }
                            };
                        }
                    }
                } else {
                    nch.push(c);
                    nco.push(col_i);
                    nun.push(un_i);
                    nbo.push(bo_i);
                    line_length = line_length + 1;
                    proof {
                        lemma_styled_push(pch, pco, pun, pbo, gi);
                        lemma_visible_push(pstyled, gi);
                        lemma_visible_push(input.styled().take(i as int), gi);
                        assert forall|j: int|
                            0 <= j < nch@.len() && nch@[j] != ' ' && nch@[j]
                                != '\n' implies line_col(nch@, j) < wlim by {
                            if j < n {
                                assert(nch@[j] == pch[j]);
                                lemma_line_col_prefix(nch@, pch, j);
                            } else {
                                assert forall|k: int| ls <= k < n implies nch@[k] != '\n' by {
                                    assert(nch@[k] == pch[k]);
                                };
                                if ls > 0 {
                                    assert(nch@[ls - 1] == pch[ls - 1]);
                                }
                                lemma_line_col_in_line(nch@, ls, j);
                            }
                        };
                    }
                }
            }
            i += 1;
        }
        self.chars = nch;
        self.colors = nco;
        self.underline = nun;
        self.bold = nbo;
        proof {
            assert(input.styled().take(input.chars@.len() as int) =~= input.styled());
            assert(self.styled() =~= styled_of(self.chars@, self.colors@, self.underline@, self.bold@));
        }
    }
}

fn clone_bools(v: &Vec<bool>) -> (r: Vec<bool>)
    ensures
        r@ == v@,
{
    let mut r: Vec<bool> = Vec::new();
    let mut i: usize = 0;
    while i < v.len()
        invariant
            i <= v@.len(),
            r@ == v@.take(i as int),
        decreases v@.len() - i,
    {
        r.push(v[i]);
        proof {
            assert(v@.take(i + 1) =~= v@.take(i as int).push(v@[i as int]));
        }
        i += 1;
    }
    proof {
        assert(v@.take(v@.len() as int) =~= v@);
    }
    r
}

} // verus!
