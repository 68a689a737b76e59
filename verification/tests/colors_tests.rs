use art3a::colors::{Color, Color4, ColorPair};

#[test]
fn test_color4_basic_fg_bg() {
    assert_eq!(Color::Color4(Color4::Black, false).to_ansi(true), "\x1b[30m");
    assert_eq!(Color::Color4(Color4::White, false).to_ansi(false), "\x1b[47m");
    assert_eq!(Color::Color4(Color4::Red, true).to_ansi(true), "\x1b[91m");
    assert_eq!(Color::Color4(Color4::Blue, true).to_ansi(false), "\x1b[104m");
}

#[test]
fn test_color256_sequences() {
    assert_eq!(Color::Color256(0).to_ansi(true), "\x1b[38;5;0m");
    assert_eq!(Color::Color256(199).to_ansi(true), "\x1b[38;5;199m");
    assert_eq!(Color::Color256(255).to_ansi(false), "\x1b[48;5;255m");
}

#[test]
fn test_rgb_sequences() {
    assert_eq!(Color::RGB(10, 20, 30).to_ansi(true), "\x1b[38;2;10;20;30m");
    assert_eq!(Color::RGB(255, 128, 0).to_ansi(false), "\x1b[48;2;255;128;0m");
}

#[test]
fn test_all_color4_indices() {
    let expected = [
        "\x1b[30m", "\x1b[31m", "\x1b[32m", "\x1b[33m", "\x1b[34m", "\x1b[35m", "\x1b[36m",
        "\x1b[37m",
    ];
    let colors = [
        Color4::Black,
        Color4::Red,
        Color4::Green,
        Color4::Yellow,
        Color4::Blue,
        Color4::Magenta,
        Color4::Cyan,
        Color4::White,
    ];
    for (c, &exp) in colors.iter().zip(expected.iter()) {
        assert_eq!(Color::Color4(c.clone(), false).to_ansi(true), exp);
    }
}

#[test]
fn test_none_color_resets() {
    assert_eq!(Color::NoColor.to_ansi(true), "\x1b[39m");
    assert_eq!(Color::NoColor.to_ansi(false), "\x1b[49m");
}

#[test]
fn color_tokens_round_trip() {
    for token in [
        "black", "red", "green", "yellow", "blue", "magenta", "cyan", "white", "bright-black",
        "bright-red", "bright-green", "bright-yellow", "bright-blue", "bright-magenta",
        "bright-cyan", "bright-white", "gray", "grey", "0", "7", "199", "255", "00ff7f", "a1b2c3",
        "  RED  ", "Bright-Blue",
    ] {
        let c = Color::parse(token).unwrap();
        let again = Color::parse(&c.to_token()).unwrap();
        assert_eq!(c, again);
    }
}

#[test]
fn color_parse_rejects_junk() {
    assert!(Color::parse("scarlet").is_err());
    assert!(Color::parse("12345").is_err());
    assert!(Color::parse("ggff00").is_err());
    assert!(Color::parse("").is_err());
    assert!(Color::parse("256").is_err());
}

#[test]
fn color_parse_exact_values() {
    assert_eq!(Color::parse("red").unwrap(), Color::Color4(Color4::Red, false));
    assert_eq!(Color::parse("grey").unwrap(), Color::Color4(Color4::Black, true));
    assert_eq!(Color::parse("42").unwrap(), Color::Color256(42));
    assert_eq!(Color::parse("00ff7f").unwrap(), Color::RGB(0, 255, 127));
}

#[test]
fn pair_parse_and_format() {
    let p = ColorPair::parse("fg:red bg:blue").unwrap();
    assert_eq!(p.fg, Color::Color4(Color4::Red, false));
    assert_eq!(p.bg, Color::Color4(Color4::Blue, false));
    assert_eq!(p.to_token(), "fg:red bg:blue");
    let q = ColorPair::parse("bg:7").unwrap();
    assert_eq!(q.fg, Color::NoColor);
    assert_eq!(q.to_token(), "bg:7");
    assert_eq!(ColorPair::parse("").unwrap().to_token(), "");
    assert!(ColorPair::parse("fg:red fg:blue").is_err());
    assert!(ColorPair::parse("nonsense").is_err());
}

#[test]
fn pair_ansi_rel_skips_repeats() {
    let p = ColorPair::parse("fg:red").unwrap();
    assert_eq!(p.to_ansi_rel(&None), p.to_ansi());
    assert_eq!(p.to_ansi_rel(&Some(p)), "");
    let q = ColorPair::parse("fg:blue").unwrap();
    assert_eq!(q.to_ansi_rel(&Some(p)), q.to_ansi());
}

#[test]
fn invert_swaps_channels() {
    let p = ColorPair::parse("fg:red bg:blue").unwrap();
    let inv = p.invert();
    assert_eq!(inv.fg, p.bg);
    assert_eq!(inv.bg, p.fg);
}

#[test]
fn trans_color_permutes_legacy_digits() {
    assert_eq!(art3a::colors::trans_color('1'), '4');
    assert_eq!(art3a::colors::trans_color('9'), 'c');
    assert_eq!(art3a::colors::trans_color('a'), 'a');
    assert_eq!(art3a::colors::trans_color('x'), '_');
}
