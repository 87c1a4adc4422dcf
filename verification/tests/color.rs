use termframe::color::{Color, ColorError, TermColorSupport, get_term_color_support};

#[test]
fn rgb_construction() {
    let c = Color::new_rgb(12, 34, 56);
    assert_eq!(c.r, 12);
    assert_eq!(c.g, 34);
    assert_eq!(c.b, 56);
    assert_eq!(Color::default(), Color::new_rgb(0, 0, 0));
}

#[test]
fn hex_parses_lower_and_upper() {
    assert_eq!(Color::new_hex("#ff00aa"), Ok(Color::new_rgb(255, 0, 170)));
    assert_eq!(Color::new_hex("#FF00AA"), Ok(Color::new_rgb(255, 0, 170)));
    assert_eq!(Color::new_hex("a1b2c3"), Ok(Color::new_rgb(161, 178, 195)));
}

#[test]
fn hex_rejects_malformed_text() {
    assert_eq!(Color::new_hex("#12345"), Err(ColorError::MalformedHex));
    assert_eq!(Color::new_hex("#1234567"), Err(ColorError::MalformedHex));
    assert_eq!(Color::new_hex("#12345g"), Err(ColorError::MalformedHex));
    assert_eq!(Color::new_hex("##ff0000"), Err(ColorError::MalformedHex));
    assert_eq!(Color::new_hex(""), Err(ColorError::MalformedHex));
}

#[test]
fn hex_round_trip_is_case_normalized() {
    for s in ["#a1b2c3", "#00ff07", "#deadbe", "#000000", "#ffffff"] {
        let c = Color::new_hex(s).unwrap();
        assert_eq!(c.to_hex(), s);
    }
    let c = Color::new_hex("#A1B2C3").unwrap();
    assert_eq!(c.to_hex(), "#a1b2c3");
}

#[test]
fn to_hex_is_zero_padded() {
    assert_eq!(Color::new_rgb(1, 2, 3).to_hex(), "#010203");
    assert_eq!(Color::new_rgb(255, 0, 170).to_hex(), "#ff00aa");
}

#[test]
fn hsv_sector_patterns() {
    // Hue in tenths of a degree, saturation and value in thousandths.
    assert_eq!(Color::new_hsv(0, 1000, 1000), Ok(Color::new_rgb(255, 0, 0)));
    assert_eq!(Color::new_hsv(599, 1000, 1000), Ok(Color::new_rgb(255, 254, 0)));
    assert_eq!(Color::new_hsv(600, 1000, 1000), Ok(Color::new_rgb(255, 255, 0)));
    assert_eq!(Color::new_hsv(1199, 1000, 1000), Ok(Color::new_rgb(0, 255, 0)));
    assert_eq!(Color::new_hsv(1800, 1000, 1000), Ok(Color::new_rgb(0, 255, 255)));
    assert_eq!(Color::new_hsv(2400, 1000, 1000), Ok(Color::new_rgb(0, 0, 255)));
    assert_eq!(Color::new_hsv(3000, 1000, 1000), Ok(Color::new_rgb(255, 0, 255)));
    assert_eq!(Color::new_hsv(3599, 1000, 1000), Ok(Color::new_rgb(255, 0, 0)));
}

#[test]
fn hsv_rejects_hue_out_of_range() {
    assert_eq!(Color::new_hsv(3600, 1000, 1000), Err(ColorError::InvalidHsv));
    assert_eq!(Color::new_hsv(-1, 1000, 1000), Err(ColorError::InvalidHsv));
    assert_eq!(Color::new_hsv(-10, 500, 500), Err(ColorError::InvalidHsv));
    assert_eq!(Color::new_hsv(0, 1001, 1000), Err(ColorError::InvalidHsv));
    assert_eq!(Color::new_hsv(0, 1000, -2), Err(ColorError::InvalidHsv));
}

#[test]
fn nearest_color_on_singleton_palette() {
    let only = Color::new_rgb(200, 10, 30);
    let (c, idx) = Color::new_rgb(0, 0, 0).closest_color(&[only]);
    assert_eq!(c, only);
    assert_eq!(idx, 0);
    let (c2, idx2) = Color::new_rgb(255, 255, 255).closest_color(&[only]);
    assert_eq!(c2, only);
    assert_eq!(idx2, 0);
}

#[test]
fn nearest_color_prefers_first_on_tie() {
    let palette = [Color::new_rgb(10, 0, 0), Color::new_rgb(0, 10, 0)];
    let (_, idx) = Color::new_rgb(0, 0, 0).closest_color(&palette);
    assert_eq!(idx, 0);
}

#[test]
fn escape_true_color() {
    let c = Color::new_rgb(1, 22, 255);
    assert_eq!(
        c.to_escape(&TermColorSupport::TrueColor),
        Some("\x1b[38;2;1;22;255m".to_string())
    );
}

#[test]
fn escape_ansi256_picks_palette_index() {
    let red = Color::new_rgb(255, 0, 0);
    assert_eq!(
        red.to_escape(&TermColorSupport::Ansi256),
        Some("\x1b[38;5;9m".to_string())
    );
    let black = Color::new_rgb(0, 0, 0);
    assert_eq!(
        black.to_escape(&TermColorSupport::Ansi256),
        Some("\x1b[38;5;0m".to_string())
    );
}

#[test]
fn escape_ansi16_uses_classic_codes() {
    let red = Color::new_rgb(255, 0, 0);
    // Red sits at palette index 9: a bright color, prefix 9, code 9 mod 8.
    assert_eq!(
        red.to_escape(&TermColorSupport::Ansi16),
        Some("\x1b[91m".to_string())
    );
    let black = Color::new_rgb(0, 0, 0);
    assert_eq!(
        black.to_escape(&TermColorSupport::Ansi16),
        Some("\x1b[30m".to_string())
    );
}

#[test]
fn escape_no_color_is_none() {
    assert_eq!(Color::new_rgb(255, 0, 0).to_escape(&TermColorSupport::NoColor), None);
}

#[test]
fn term_support_from_hints() {
    assert_eq!(
        get_term_color_support(Some("truecolor"), None),
        TermColorSupport::TrueColor
    );
    assert_eq!(get_term_color_support(Some("24bit"), None), TermColorSupport::TrueColor);
    assert_eq!(get_term_color_support(Some("8bit"), None), TermColorSupport::Ansi256);
    assert_eq!(
        get_term_color_support(Some("256color"), Some("vt100")),
        TermColorSupport::Ansi256
    );
    assert_eq!(get_term_color_support(Some("odd"), None), TermColorSupport::Ansi16);
    assert_eq!(
        get_term_color_support(None, Some("xterm-256color")),
        TermColorSupport::Ansi256
    );
    assert_eq!(get_term_color_support(None, Some("linux")), TermColorSupport::Ansi256);
    assert_eq!(get_term_color_support(None, Some("vt100")), TermColorSupport::Ansi16);
    assert_eq!(get_term_color_support(None, None), TermColorSupport::NoColor);
}

#[test]
fn palette_has_expected_entries() {
    let pal = termframe::palette::term_palette();
    assert_eq!(pal.len(), 256);
    assert_eq!(pal[0], Color::new_rgb(0, 0, 0));
    assert_eq!(pal[9], Color::new_rgb(255, 0, 0));
    assert_eq!(pal[15], Color::new_rgb(255, 255, 255));
    assert_eq!(pal[16], Color::new_rgb(0, 0, 0));
    assert_eq!(pal[21], Color::new_rgb(0, 0, 255));
    assert_eq!(pal[196], Color::new_rgb(255, 0, 0));
    assert_eq!(pal[231], Color::new_rgb(255, 255, 255));
    assert_eq!(pal[232], Color::new_rgb(8, 8, 8));
    assert_eq!(pal[255], Color::new_rgb(238, 238, 238));
}
