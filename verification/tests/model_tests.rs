use art3a::chars::Char;
use art3a::colors::{Color, Color4, ColorPair};
use art3a::content::{merge_frames, Cell, Frame, Frames};
use art3a::delay::Delay;
use art3a::error::Error;

fn cell(text: char, color: Option<char>) -> Cell {
    Cell { text: Char::new(text).unwrap(), color: color.map(|c| Char::new(c).unwrap()) }
}

#[test]
fn set_then_get_returns_the_cell() {
    let mut f = Frame::new(4, 3, Cell::default());
    let c = cell('X', Some('1'));
    f.set(2, 1, c);
    assert_eq!(f.get(2, 1, Cell::default()), c);
    assert!(f.color());
    f.set(2, 1, cell('Y', None));
    assert!(!f.color());
}

#[test]
fn out_of_bounds_get_returns_default() {
    let f = Frame::new(2, 2, Cell::default());
    let d = cell('d', None);
    assert_eq!(f.get(5, 0, d), d);
    assert_eq!(f.get(0, 5, d), d);
}

#[test]
fn merge_takes_text_and_color_channels() {
    let mut text = Frame::new(2, 2, Cell::default());
    text.set(0, 0, cell('A', Some('9')));
    text.set(1, 1, cell('B', None));
    let mut color = Frame::new(2, 2, Cell::default());
    color.set(0, 0, cell('z', Some('1')));
    color.set(1, 0, cell('z', Some('2')));
    let m = merge_frames(&text, &color).unwrap();
    let got = m.get(0, 0, Cell::default());
    assert_eq!(got.text.to_char(), 'A');
    assert_eq!(got.color.map(|c| c.to_char()), Some('1'));
    let got2 = m.get(1, 1, Cell::default());
    assert_eq!(got2.text.to_char(), 'B');
    assert_eq!(got2.color, None);
}

#[test]
fn merge_rejects_mismatched_dimensions() {
    let a = Frame::new(2, 2, Cell::default());
    let b = Frame::new(2, 3, Cell::default());
    assert!(matches!(merge_frames(&a, &b), Err(Error::HeightMismatch)));
    let c = Frame::new(3, 2, Cell::default());
    assert!(matches!(merge_frames(&a, &c), Err(Error::WidthMismatch)));
}

#[test]
fn pinned_single_frame_is_unpinned() {
    let fs = Frames::new(1, 3, 2, Cell::default());
    assert_eq!(fs.pinned(), (false, false));
}

#[test]
fn pinned_identical_frames_is_pinned_both() {
    let mut fs = Frames::new(3, 3, 2, Cell::default());
    for i in 0..3 {
        fs.set(i, 1, 1, cell('Q', Some('4')));
    }
    assert_eq!(fs.pinned(), (true, true));
    fs.set(0, 0, 0, cell('!', None));
    assert_eq!(fs.pinned(), (false, true));
    fs.set(1, 2, 1, cell(' ', Some('7')));
    assert_eq!(fs.pinned(), (false, false));
}

#[test]
fn shifts_rotate_and_fill() {
    let mut f = Frame::new(3, 1, Cell::default());
    f.set(0, 0, cell('a', None));
    f.set(1, 0, cell('b', None));
    f.set(2, 0, cell('c', None));
    f.shift_right(1, cell('.', None));
    let texts: Vec<char> = (0..3).map(|c| f.get(c, 0, Cell::default()).text.to_char()).collect();
    assert_eq!(texts, vec!['.', 'a', 'b']);
    f.shift_left(1, cell('x', None));
    let texts: Vec<char> = (0..3).map(|c| f.get(c, 0, Cell::default()).text.to_char()).collect();
    assert_eq!(texts, vec!['a', 'b', 'x']);
}

#[test]
fn resize_pads_and_truncates() {
    let mut f = Frame::new(2, 1, Cell::default());
    f.set(0, 0, cell('a', None));
    f.resize(3, 2, cell('+', None));
    assert_eq!(f.width(), 3);
    assert_eq!(f.height(), 2);
    assert_eq!(f.get(2, 0, Cell::default()).text.to_char(), '+');
    assert_eq!(f.get(0, 1, Cell::default()).text.to_char(), '+');
    assert_eq!(f.get(0, 0, Cell::default()).text.to_char(), 'a');
    f.adjust(2, 1, cell('?', None));
    assert_eq!(f.width(), 3);
    assert_eq!(f.height(), 2);
}

#[test]
fn fill_and_clean() {
    let mut f = Frame::new(2, 2, Cell::default());
    f.fill(cell('#', Some('5')));
    assert!(f.color());
    assert_eq!(f.get(1, 1, Cell::default()).text.to_char(), '#');
    f.clean();
    assert_eq!(f.get(1, 1, Cell::default()).text.to_char(), ' ');
    assert_eq!(f.get(0, 0, Cell::default()).color.map(|c| c.to_char()), Some('_'));
}

#[test]
fn frame_print_writes_text() {
    let mut f = Frame::new(5, 1, Cell::default());
    f.print(1, 0, "hi", Some(Some(Char::new('3').unwrap())));
    assert_eq!(f.get(1, 0, Cell::default()).text.to_char(), 'h');
    assert_eq!(f.get(2, 0, Cell::default()).text.to_char(), 'i');
    assert_eq!(f.get(2, 0, Cell::default()).color.map(|c| c.to_char()), Some('3'));
    assert_eq!(f.get(0, 0, Cell::default()).text.to_char(), ' ');
}

#[test]
fn frame_ansi_compresses_adjacent_colors() {
    let mut f = Frame::new(2, 1, Cell::default());
    f.set(0, 0, cell('a', Some('1')));
    f.set(1, 0, cell('b', Some('1')));
    let p = art3a::palette::Palette::new();
    let s = f.ansi(&p, true);
    let red_pair = ColorPair { fg: Color::Color4(Color4::Red, false), bg: Color::NoColor };
    let reset = ColorPair { fg: Color::NoColor, bg: Color::NoColor };
    let expected = format!("{}ab{}", red_pair.to_ansi(), reset.to_ansi());
    assert_eq!(s, expected);
}

#[test]
fn delay_defaults_and_overrides() {
    let mut d = Delay::new(0);
    assert_eq!(d.get_global(), 50);
    assert_eq!(d.get_frame(3), 50);
    d.set_global(120);
    d.set_frame(2, 80);
    assert_eq!(d.get_frame(2), 80);
    assert_eq!(d.get_frame(1), 120);
    d.set_frame(2, 0);
    assert_eq!(d.get_frame(2), 120);
}

#[test]
fn delay_parse_and_token() {
    let d = Delay::parse("100 2:30 1:40").unwrap();
    assert_eq!(d.get_global(), 100);
    assert_eq!(d.get_frame(2), 30);
    assert_eq!(d.get_frame(1), 40);
    assert_eq!(d.to_token(), "100 1:40 2:30");
    assert!(matches!(Delay::parse(""), Err(Error::DelayLineVoid(_))));
    assert!(matches!(Delay::parse("abc"), Err(Error::GlobalDelayParsing(_))));
    assert!(matches!(Delay::parse("1:x"), Err(Error::PerFrameDelayParsing(_))));
    assert!(matches!(Delay::parse("5 1:2 1:3"), Err(Error::PerFrameDelayDup(1, _))));
}

#[test]
fn palette_set_get_and_builtin_fallback() {
    let mut p = art3a::palette::Palette::new();
    let r = Char::new('r').unwrap();
    let pair = ColorPair::parse("fg:red").unwrap();
    p.set_color(r, pair);
    assert_eq!(p.get_color(r), pair);
    assert_eq!(p.len(), 1);
    let one = Char::new('1').unwrap();
    assert_eq!(p.get_color(one), ColorPair::from_char_builtin(one));
    p.set_color(one, ColorPair::from_char_builtin(one));
    assert_eq!(p.len(), 1);
    assert_eq!(p.search_color(pair).map(|c| c.to_char()), Some('r'));
    p.remove_color(r);
    assert_eq!(p.len(), 0);
}
