use termframe::color::{Color, TermColorSupport};
use termframe::pixels::{HCentering, Pixels, VCentering};
use termframe::text::ColoredText;
use termframe::utils::nth_char_idx;

fn white() -> Color {
    Color::new_rgb(255, 255, 255)
}

#[test]
fn styled_text_from_string() {
    let t = ColoredText::new_text("abc", Color::new_rgb(1, 2, 3), true, false);
    assert_eq!(t.len(), 3);
    assert_eq!(t.chars(), vec!['a', 'b', 'c']);
    assert_eq!(t.colors(), vec![Color::new_rgb(1, 2, 3); 3]);
    assert_eq!(t.underline(), vec![true, true, true]);
    assert_eq!(t.bold(), vec![false, false, false]);
    assert_eq!(t.text(), "abc");
}

#[test]
fn styled_text_push_insert_pop() {
    let red = Color::new_rgb(255, 0, 0);
    let green = Color::new_rgb(0, 255, 0);
    let mut t = ColoredText::new();
    t.push('a', red, false, false);
    t.push('c', red, false, true);
    t.insert(1, 'b', green, true, false);
    assert_eq!(t.text(), "abc");
    assert_eq!(t.colors()[1], green);
    assert_eq!(t.underline()[1], true);
    assert_eq!(t.pop(), Some(('c', red, false, true)));
    assert_eq!(t.text(), "ab");
    let mut empty = ColoredText::new();
    assert_eq!(empty.pop(), None);
}

#[test]
fn set_underline_is_silent_out_of_bounds() {
    let mut t = ColoredText::new_text("ab", white(), false, false);
    t.set_underline(1);
    assert_eq!(t.underline(), vec![false, true]);
    t.set_underline(7);
    assert_eq!(t.underline(), vec![false, true]);
}

#[test]
fn split_drops_text_after_last_break() {
    let t = ColoredText::new_text("ab\ncd\n", white(), false, false);
    assert_eq!(t.split('\n'), vec!["ab".to_string(), "cd".to_string()]);
    let u = ColoredText::new_text("ab\ncd", white(), false, false);
    assert_eq!(u.split('\n'), vec!["ab".to_string()]);
    let v = ColoredText::new_text("plain", white(), false, false);
    assert_eq!(v.split('\n'), Vec::<String>::new());
}

#[test]
fn parallel_sequences_stay_in_step() {
    let mut t = ColoredText::new_text("the quick brown fox", white(), false, false);
    t.push('!', white(), true, true);
    t.insert(0, '>', white(), false, true);
    t.pop();
    t.word_wrap(7);
    t.push_str(" end", white(), false, false);
    let n = t.len();
    assert_eq!(t.chars().len(), n);
    assert_eq!(t.colors().len(), n);
    assert_eq!(t.underline().len(), n);
    assert_eq!(t.bold().len(), n);
}

#[test]
fn word_wrap_breaks_at_spaces() {
    let mut t = ColoredText::new_text("aaaa bbbb", white(), false, false);
    t.word_wrap(4);
    assert_eq!(t.text(), "aaaa\nbbbb");
    for line in t.text().split('\n') {
        assert!(line.trim_end().len() <= 4);
    }
}

#[test]
fn word_wrap_hard_breaks_long_words() {
    let mut t = ColoredText::new_text("bbbbb", white(), false, false);
    t.word_wrap(3);
    assert_eq!(t.text(), "bbb\nbb");
}

#[test]
fn word_wrap_keeps_existing_breaks() {
    let mut t = ColoredText::new_text("ab\ncd", white(), false, false);
    t.word_wrap(10);
    assert_eq!(t.text(), "ab\ncd");
}

#[test]
fn word_wrap_inserted_break_is_unstyled_white() {
    let red = Color::new_rgb(255, 0, 0);
    let mut t = ColoredText::new_text("aaaa bbbb", red, true, true);
    t.word_wrap(4);
    assert_eq!(t.chars()[4], '\n');
    assert_eq!(t.colors()[4], white());
    assert_eq!(t.underline()[4], false);
    assert_eq!(t.bold()[4], false);
    assert_eq!(t.colors()[0], red);
}

#[test]
fn word_wrap_long_text_respects_width() {
    let mut t = ColoredText::new_text(
        "the quick brown fox jumps over the lazy dog again and again",
        white(),
        false,
        false,
    );
    t.word_wrap(10);
    for line in t.text().split('\n') {
        assert!(line.trim_end().len() <= 10, "line too long: {:?}", line);
    }
}

#[test]
fn nth_char_positions() {
    assert_eq!(nth_char_idx("hello", 0), 0);
    assert_eq!(nth_char_idx("hello", 3), 3);
    // A two-byte character shifts every later offset.
    assert_eq!(nth_char_idx("h\u{e9}llo", 2), 3);
    assert_eq!(nth_char_idx("\u{1f600}x", 1), 4);
}

#[test]
fn fresh_grid_is_blank_white() {
    let p = Pixels::new((3, 2));
    for x in 0..3 {
        for y in 0..2 {
            assert_eq!(p.get_pixel((x, y)), Some((' ', white())));
        }
    }
    assert_eq!(p.get_pixel((3, 0)), None);
    assert_eq!(p.get_pixel((0, 2)), None);
    assert_eq!(p.get_pixel((9, 9)), None);
}

#[test]
fn cell_writes_and_reads() {
    let mut p = Pixels::new((3, 3));
    p.set_char((1, 2), 'x');
    p.set_color((1, 2), Color::new_rgb(9, 8, 7));
    assert_eq!(p.get_pixel((1, 2)), Some(('x', Color::new_rgb(9, 8, 7))));
    // Out-of-bounds writes change nothing.
    p.set_char((9, 9), 'q');
    p.set_color((9, 9), Color::new_rgb(1, 1, 1));
    for x in 0..3 {
        for y in 0..3 {
            if (x, y) != (1, 2) {
                assert_eq!(p.get_pixel((x, y)), Some((' ', white())));
            }
        }
    }
}

#[test]
fn escape_codes_accumulate() {
    let mut p = Pixels::new((2, 1));
    p.underline((0, 0));
    p.bold((0, 0));
    assert_eq!(p.escapes[0], vec![4, 1]);
    assert_eq!(p.escapes[1], Vec::<usize>::new());
    p.set_escapes((1, 0), vec![7]);
    assert_eq!(p.escapes[1], vec![7]);
    p.add_escape((1, 0), 5);
    assert_eq!(p.escapes[1], vec![7, 5]);
}

#[test]
fn clear_resets_all_cells() {
    let mut p = Pixels::new((2, 2));
    p.set_char((0, 0), 'x');
    p.set_color((1, 1), Color::new_rgb(5, 5, 5));
    p.underline((0, 1));
    p.clear();
    for x in 0..2 {
        for y in 0..2 {
            assert_eq!(p.get_pixel((x, y)), Some((' ', white())));
        }
    }
    assert_eq!(p.escapes[2], Vec::<usize>::new());
}

#[test]
fn color_all_keeps_characters() {
    let mut p = Pixels::new((2, 1));
    p.set_char((0, 0), 'x');
    p.color_all(Color::new_rgb(3, 3, 3));
    assert_eq!(p.get_pixel((0, 0)), Some(('x', Color::new_rgb(3, 3, 3))));
    assert_eq!(p.get_pixel((1, 0)), Some((' ', Color::new_rgb(3, 3, 3))));
}

#[test]
fn draw_left_top_places_chars_in_a_row() {
    let mut p = Pixels::new((5, 3));
    let t = ColoredText::new_text("abc", Color::new_rgb(1, 2, 3), false, false);
    p.print_color(&t, (0, 0), HCentering::Left, VCentering::Top);
    assert_eq!(p.get_pixel((0, 0)), Some(('a', Color::new_rgb(1, 2, 3))));
    assert_eq!(p.get_pixel((1, 0)), Some(('b', Color::new_rgb(1, 2, 3))));
    assert_eq!(p.get_pixel((2, 0)), Some(('c', Color::new_rgb(1, 2, 3))));
    assert_eq!(p.get_pixel((3, 0)), Some((' ', white())));
    assert_eq!(p.get_pixel((0, 1)), Some((' ', white())));
}

#[test]
fn draw_honors_newlines_and_centering() {
    let mut p = Pixels::new((5, 4));
    let t = ColoredText::new_text("ab\ncd", white(), false, false);
    p.print_color(&t, (2, 1), HCentering::Center, VCentering::Middle);
    // The longest closed line is "ab" (2 wide), so the block shifts one
    // left; one break, so it stays on the anchor row.
    assert_eq!(p.get_pixel((1, 1)).unwrap().0, 'a');
    assert_eq!(p.get_pixel((2, 1)).unwrap().0, 'b');
    assert_eq!(p.get_pixel((1, 2)).unwrap().0, 'c');
    assert_eq!(p.get_pixel((2, 2)).unwrap().0, 'd');
}

#[test]
fn draw_drops_offscreen_chars() {
    let mut p = Pixels::new((2, 1));
    let t = ColoredText::new_text("abcdef", white(), false, false);
    p.print_color(&t, (0, 0), HCentering::Left, VCentering::Top);
    assert_eq!(p.get_pixel((0, 0)).unwrap().0, 'a');
    assert_eq!(p.get_pixel((1, 0)).unwrap().0, 'b');
}

#[test]
fn draw_styles_reach_cells() {
    let mut p = Pixels::new((2, 1));
    let mut t = ColoredText::new();
    t.push('a', white(), true, false);
    t.push('b', white(), false, true);
    p.print_color(&t, (0, 0), HCentering::Left, VCentering::Top);
    assert_eq!(p.escapes[0], vec![4]);
    assert_eq!(p.escapes[1], vec![1]);
}

#[test]
fn composite_respects_transparency() {
    let mut base = Pixels::new((3, 3));
    base.set_char((1, 1), 'x');
    base.set_color((1, 1), Color::new_rgb(9, 9, 9));
    base.set_char((0, 0), 'y');
    let mut overlay = Pixels::new((3, 3));
    overlay.set_char((0, 0), 'o');
    // Centered at (1, 1), the overlay maps cell-for-cell onto the base.
    base.comp(&overlay, (1, 1));
    // A non-space source cell always overwrites.
    assert_eq!(base.get_pixel((0, 0)).unwrap().0, 'o');
    // A space source cell never overwrites the cell beneath it.
    assert_eq!(base.get_pixel((1, 1)), Some(('x', Color::new_rgb(9, 9, 9))));
}

#[test]
fn render_without_color_is_raw_characters() {
    // Drawing styled "ab" (a plain red, b bold green) at (2, 1) and
    // rendering with the colorless tier yields the bare row text with no
    // escape bytes anywhere.
    let mut t = ColoredText::new();
    t.push('a', Color::new_rgb(255, 0, 0), false, false);
    t.push('b', Color::new_rgb(0, 255, 0), false, true);
    let mut p = Pixels::new((5, 3));
    p.print_color(&t, (2, 1), HCentering::Left, VCentering::Top);
    let rows = p.render(&TermColorSupport::NoColor);
    assert_eq!(rows.len(), 3);
    assert_eq!(rows[0], "     ");
    assert_eq!(rows[1], "  ab ");
    assert_eq!(rows[2], "     ");
    for row in &rows {
        assert!(!row.contains('\x1b'));
    }
}

#[test]
fn render_true_color_cell() {
    let mut p = Pixels::new((1, 1));
    p.set_char((0, 0), 'x');
    p.set_color((0, 0), Color::new_rgb(1, 2, 3));
    p.underline((0, 0));
    p.bold((0, 0));
    let rows = p.render(&TermColorSupport::TrueColor);
    assert_eq!(rows, vec!["\x1b[4;1m\x1b[38;2;1;2;3mx\x1b[0m".to_string()]);
}

#[test]
fn render_ansi_tiers() {
    let mut p = Pixels::new((1, 1));
    p.set_char((0, 0), 'x');
    p.set_color((0, 0), Color::new_rgb(255, 0, 0));
    assert_eq!(
        p.render(&TermColorSupport::Ansi256),
        vec!["\x1b[38;5;9mx\x1b[0m".to_string()]
    );
    assert_eq!(p.render(&TermColorSupport::Ansi16), vec!["\x1b[91mx\x1b[0m".to_string()]);
}

#[test]
fn plain_print_matches_styled_draw() {
    let mut p = Pixels::new((4, 1));
    p.print("hi", Color::new_rgb(7, 7, 7), false, false, (1, 0), HCentering::Left, VCentering::Top);
    assert_eq!(p.get_pixel((1, 0)), Some(('h', Color::new_rgb(7, 7, 7))));
    assert_eq!(p.get_pixel((2, 0)), Some(('i', Color::new_rgb(7, 7, 7))));
}
