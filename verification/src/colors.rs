//! The color model: 4-bit ANSI colors, 256-index colors, true-color RGB,
//! foreground/background pairs, their token grammar and ANSI rendering.

use vstd::prelude::*;

use crate::chars::Char;
use crate::error::Error;
use crate::text::{
    chars_eq_str, chars_to_string, dec_digit, dec_val, fmt_usize, is_dec_digit, lower_chars,
    spec_dec, spec_lower, spec_parse_uint, spec_trim, str_to_chars, trim_chars,
};

verus! {

/// The eight base hues of the 4-bit ANSI color set.
#[derive(Debug, Clone, Copy, PartialEq, Eq, Hash, Structural)]
pub enum Color4 {
    Black,
    Red,
    Green,
    Yellow,
    Blue,
    Magenta,
    Cyan,
    White,
}

/// A color as the format knows it: terminal default, 4-bit with brightness,
/// 256-index, or RGB.
#[derive(Debug, Clone, Copy, PartialEq, Eq, Hash, Structural)]
pub enum Color {
    /// No color: the terminal's default.
    NoColor,
    /// 4-bit color with a brightness flag.
    Color4(Color4, bool),
    /// 256-color index.
    Color256(u8),
    /// True color.
    RGB(u8, u8, u8),
}

impl Default for Color {
    /// The default color is no color.
    fn default() -> (r: Self)
        ensures
            r == Color::NoColor,
    {
        Color::NoColor
    }
}

/// The built-in mapping from the sixteen conventional palette characters
/// `0`-`9`, `a`-`f` to 4-bit colors; every other character maps to no color.
pub open spec fn spec_from_char_builtin(ch: char) -> Color {
    if ch == '0' {
        Color::Color4(Color4::Black, false)
    } else if ch == '1' {
        Color::Color4(Color4::Red, false)
    } else if ch == '2' {
        Color::Color4(Color4::Green, false)
    } else if ch == '3' {
        Color::Color4(Color4::Yellow, false)
    } else if ch == '4' {
        Color::Color4(Color4::Blue, false)
    } else if ch == '5' {
        Color::Color4(Color4::Magenta, false)
    } else if ch == '6' {
        Color::Color4(Color4::Cyan, false)
    } else if ch == '7' {
        Color::Color4(Color4::White, false)
    } else if ch == '8' {
        Color::Color4(Color4::Black, true)
    } else if ch == '9' {
        Color::Color4(Color4::Red, true)
    } else if ch == 'a' {
        Color::Color4(Color4::Green, true)
    } else if ch == 'b' {
        Color::Color4(Color4::Yellow, true)
    } else if ch == 'c' {
        Color::Color4(Color4::Blue, true)
    } else if ch == 'd' {
        Color::Color4(Color4::Magenta, true)
    } else if ch == 'e' {
        Color::Color4(Color4::Cyan, true)
    } else if ch == 'f' {
        Color::Color4(Color4::White, true)
    } else {
        Color::NoColor
    }
}

impl Color {
    /// Creates a color from the built-in character mapping (`0`-`9`, `a`-`f`).
    pub fn from_char_builtin(c: Char) -> (r: Self)
        ensures
            r == spec_from_char_builtin(c@),
    {
        match c.to_char() {
            '0' => Self::Color4(Color4::Black, false),
            '1' => Self::Color4(Color4::Red, false),
            '2' => Self::Color4(Color4::Green, false),
            '3' => Self::Color4(Color4::Yellow, false),
            '4' => Self::Color4(Color4::Blue, false),
            '5' => Self::Color4(Color4::Magenta, false),
            '6' => Self::Color4(Color4::Cyan, false),
            '7' => Self::Color4(Color4::White, false),
            '8' => Self::Color4(Color4::Black, true),
            '9' => Self::Color4(Color4::Red, true),
            'a' => Self::Color4(Color4::Green, true),
            'b' => Self::Color4(Color4::Yellow, true),
            'c' => Self::Color4(Color4::Blue, true),
            'd' => Self::Color4(Color4::Magenta, true),
            'e' => Self::Color4(Color4::Cyan, true),
            'f' => Self::Color4(Color4::White, true),
            _ => Self::NoColor,
        }
    }
}

/// The lower-case name of a base hue.
pub open spec fn color4_name(c: Color4) -> Seq<char> {
    match c {
        Color4::Black => seq!['b', 'l', 'a', 'c', 'k'],
        Color4::Red => seq!['r', 'e', 'd'],
        Color4::Green => seq!['g', 'r', 'e', 'e', 'n'],
        Color4::Yellow => seq!['y', 'e', 'l', 'l', 'o', 'w'],
        Color4::Blue => seq!['b', 'l', 'u', 'e'],
        Color4::Magenta => seq!['m', 'a', 'g', 'e', 'n', 't', 'a'],
        Color4::Cyan => seq!['c', 'y', 'a', 'n'],
        Color4::White => seq!['w', 'h', 'i', 't', 'e'],
    }
}

/// The lower-case hexadecimal digit for a value below sixteen.
pub open spec fn hex_digit(d: int) -> char {
    if d < 10 {
        dec_digit(d)
    } else if d == 10 {
        'a'
    } else if d == 11 {
        'b'
    } else if d == 12 {
        'c'
    } else if d == 13 {
        'd'
    } else if d == 14 {
        'e'
    } else {
        'f'
    }
}

/// Two lower-case hexadecimal digits of a byte.
pub open spec fn spec_hex2(n: u8) -> Seq<char> {
    seq![hex_digit(n as int / 16), hex_digit(n as int % 16)]
}

/// Whether the character is a lower-case hexadecimal digit.
pub open spec fn is_hex_digit(c: char) -> bool {
    is_dec_digit(c) || ('a' <= c && c <= 'f')
}

/// The value of a lower-case hexadecimal digit.
pub open spec fn hex_val(c: char) -> int {
    if is_dec_digit(c) {
        dec_val(c)
    } else {
        c as u32 - 0x61 + 10
    }
}

/// `hex_digit`, executably.
pub fn hex_digit_char(d: usize) -> (c: char)
    requires
        d < 16,
    ensures
        c == hex_digit(d as int),
{
    if d < 10 {
        crate::text::digit_char(d)
    } else if d == 10 {
        'a'
    } else if d == 11 {
        'b'
    } else if d == 12 {
        'c'
    } else if d == 13 {
        'd'
    } else if d == 14 {
        'e'
    } else {
        'f'
    }
}

/// Appends the two hexadecimal digits of a byte.
pub fn push_hex2(out: &mut Vec<char>, n: u8)
    ensures
        final(out)@ == old(out)@ + spec_hex2(n),
{
    out.push(hex_digit_char((n / 16) as usize));
    out.push(hex_digit_char((n % 16) as usize));
    proof {
        assert(final(out)@ =~= old(out)@ + spec_hex2(n));
    }
}

/// The canonical token of a color: the empty token for no color, the
/// (possibly `bright-`-prefixed) hue name, the decimal index, or six
/// hexadecimal digits.
pub open spec fn spec_color_token(c: Color) -> Seq<char> {
    match c {
        Color::NoColor => Seq::empty(),
        Color::Color4(c4, bright) => if bright {
            seq!['b', 'r', 'i', 'g', 'h', 't', '-'] + color4_name(c4)
        } else {
            color4_name(c4)
        },
        Color::Color256(n) => spec_dec(n as nat),
        Color::RGB(r, g, b) => spec_hex2(r) + spec_hex2(g) + spec_hex2(b),
    }
}

/// Appends the characters of `src`.
pub fn push_all(dst: &mut Vec<char>, src: &Vec<char>)
    ensures
        final(dst)@ == old(dst)@ + src@,
{
    let mut i: usize = 0;
    while i < src.len()
        invariant
            i <= src.len(),
            dst@ == old(dst)@ + src@.subrange(0, i as int),
        decreases src.len() - i,
    {
        dst.push(src[i]);
        proof {
            assert(old(dst)@ + src@.subrange(0, i as int + 1) =~= (old(dst)@ + src@.subrange(
                0,
                i as int,
            )).push(src@[i as int]));
        }
        i = i + 1;
    }
    proof {
        assert(src@.subrange(0, src@.len() as int) =~= src@);
    }
}

/// Appends the name of a base hue.
fn push_color4_name(out: &mut Vec<char>, c: Color4)
    ensures
        final(out)@ == old(out)@ + color4_name(c),
{
    let s: &str = match c {
        Color4::Black => "black",
        Color4::Red => "red",
        Color4::Green => "green",
        Color4::Yellow => "yellow",
        Color4::Blue => "blue",
        Color4::Magenta => "magenta",
        Color4::Cyan => "cyan",
        Color4::White => "white",
    };
    proof {
        reveal_strlit("black");
        reveal_strlit("red");
        reveal_strlit("green");
        reveal_strlit("yellow");
        reveal_strlit("blue");
        reveal_strlit("magenta");
        reveal_strlit("cyan");
        reveal_strlit("white");
        assert(s@ =~= color4_name(c));
    }
    let v = str_to_chars(s);
    push_all(out, &v);
}

impl Color {
    /// The canonical token of this color, as written in a `col` header line.
    pub fn to_token(&self) -> (r: String)
        ensures
            r@ == spec_color_token(*self),
    {
        let v = self.token_chars();
        chars_to_string(&v)
    }

    /// The canonical token as a character vector.
    pub fn token_chars(&self) -> (r: Vec<char>)
        ensures
            r@ == spec_color_token(*self),
    {
        let mut out: Vec<char> = Vec::new();
        match self {
            Color::NoColor => {
                proof {
                    assert(out@ =~= spec_color_token(*self));
                }
            },
            Color::Color4(c4, bright) => {
                if *bright {
                    let p = str_to_chars("bright-");
                    proof {
                        reveal_strlit("bright-");
                        assert(p@ =~= seq!['b', 'r', 'i', 'g', 'h', 't', '-']);
                    }
                    push_all(&mut out, &p);
                }
                push_color4_name(&mut out, *c4);
                proof {
                    assert(out@ =~= spec_color_token(*self));
                }
            },
            Color::Color256(n) => {
                let d = fmt_usize(*n as usize);
                push_all(&mut out, &d);
                proof {
                    assert(out@ =~= spec_color_token(*self));
                }
            },
            Color::RGB(r, g, b) => {
                push_hex2(&mut out, *r);
                push_hex2(&mut out, *g);
                push_hex2(&mut out, *b);
                proof {
                    assert(out@ =~= spec_color_token(*self));
                }
            },
        }
        out
    }
}

/// The 0-7 index of a base hue in the ANSI code blocks.
pub open spec fn color4_idx(c: Color4) -> nat {
    match c {
        Color4::Black => 0,
        Color4::Red => 1,
        Color4::Green => 2,
        Color4::Yellow => 3,
        Color4::Blue => 4,
        Color4::Magenta => 5,
        Color4::Cyan => 6,
        Color4::White => 7,
    }
}

/// The SGR code of a 4-bit color: 30-37/40-47 normal, 90-97/100-107 bright.
pub open spec fn color4_code(c: Color4, bright: bool, is_fg: bool) -> nat {
    color4_idx(c) + if bright {
        if is_fg {
            90nat
        } else {
            100nat
        }
    } else {
        if is_fg {
            30nat
        } else {
            40nat
        }
    }
}

/// The ANSI SGR escape sequence of a color: `ESC [ <code> m` for 4-bit and
/// "none" (39/49), `ESC [ 38;5;<n> m` (48 for background) for 256-index,
/// and `ESC [ 38;2;<r>;<g>;<b> m` for RGB.
pub open spec fn spec_ansi_color(c: Color, is_fg: bool) -> Seq<char> {
    match c {
        Color::NoColor => seq!['\u{1b}', '['] + spec_dec(if is_fg {
            39nat
        } else {
            49nat
        }) + seq!['m'],
        Color::Color4(c4, bright) => seq!['\u{1b}', '['] + spec_dec(color4_code(c4, bright, is_fg))
            + seq!['m'],
        Color::Color256(n) => seq!['\u{1b}', '['] + spec_dec(if is_fg {
            38nat
        } else {
            48nat
        }) + seq![';', '5', ';'] + spec_dec(n as nat) + seq!['m'],
        Color::RGB(r, g, b) => seq!['\u{1b}', '['] + spec_dec(if is_fg {
            38nat
        } else {
            48nat
        }) + seq![';', '2', ';'] + spec_dec(r as nat) + seq![';'] + spec_dec(g as nat) + seq![';']
            + spec_dec(b as nat) + seq!['m'],
    }
}

impl Color {
    /// The ANSI SGR escape sequence for this color, for the foreground when
    /// `is_fg` and for the background otherwise.
    pub fn to_ansi(&self, is_fg: bool) -> (r: String)
        ensures
            r@ == spec_ansi_color(*self, is_fg),
    {
        let v = self.ansi_chars(is_fg);
        chars_to_string(&v)
    }

    /// The ANSI SGR escape sequence as a character vector.
    pub fn ansi_chars(&self, is_fg: bool) -> (r: Vec<char>)
        ensures
            r@ == spec_ansi_color(*self, is_fg),
    {
        let mut out: Vec<char> = Vec::new();
        out.push('\u{1b}');
        out.push('[');
        match self {
            Color::NoColor => {
                let code: usize = if is_fg {
                    39
                } else {
                    49
                };
                let d = fmt_usize(code);
                push_all(&mut out, &d);
                out.push('m');
                proof {
                    assert(out@ =~= spec_ansi_color(*self, is_fg));
                }
            },
            Color::Color4(c4, bright) => {
                let idx: usize = match c4 {
                    Color4::Black => 0,
                    Color4::Red => 1,
                    Color4::Green => 2,
                    Color4::Yellow => 3,
                    Color4::Blue => 4,
                    Color4::Magenta => 5,
                    Color4::Cyan => 6,
                    Color4::White => 7,
                };
                let code: usize = idx + if *bright {
                    if is_fg {
                        90
                    } else {
                        100
                    }
                } else {
                    if is_fg {
                        30
                    } else {
                        40
                    }
                };
                let d = fmt_usize(code);
                push_all(&mut out, &d);
                out.push('m');
                proof {
                    assert(code as nat == color4_code(*c4, *bright, is_fg));
                    assert(out@ =~= spec_ansi_color(*self, is_fg));
                }
            },
            Color::Color256(n) => {
                let prefix: usize = if is_fg {
                    38
                } else {
                    48
                };
                let d = fmt_usize(prefix);
                push_all(&mut out, &d);
                out.push(';');
                out.push('5');
                out.push(';');
                let d2 = fmt_usize(*n as usize);
                push_all(&mut out, &d2);
                out.push('m');
                proof {
                    assert(out@ =~= spec_ansi_color(*self, is_fg));
                }
            },
            Color::RGB(r, g, b) => {
                let prefix: usize = if is_fg {
                    38
                } else {
                    48
                };
                let d = fmt_usize(prefix);
                push_all(&mut out, &d);
                out.push(';');
                out.push('2');
                out.push(';');
                let dr = fmt_usize(*r as usize);
                push_all(&mut out, &dr);
                out.push(';');
                let dg = fmt_usize(*g as usize);
                push_all(&mut out, &dg);
                out.push(';');
                let db = fmt_usize(*b as usize);
                push_all(&mut out, &db);
                out.push('m');
                proof {
                    assert(out@ =~= spec_ansi_color(*self, is_fg));
                }
            },
        }
        out
    }
}

/// A pair of foreground and background colors.
#[derive(Debug, Clone, Copy, PartialEq, Eq, Hash, Structural)]
pub struct ColorPair {
    pub fg: Color,
    pub bg: Color,
}

impl Default for ColorPair {
    /// The default pair has no color on either channel.
    fn default() -> (r: Self)
        ensures
            r == (ColorPair { fg: Color::NoColor, bg: Color::NoColor }),
    {
        ColorPair { fg: Color::NoColor, bg: Color::NoColor }
    }
}

/// The ANSI rendering of a pair: the foreground sequence, then the
/// background sequence.
pub open spec fn spec_ansi_pair(p: ColorPair) -> Seq<char> {
    spec_ansi_color(p.fg, true) + spec_ansi_color(p.bg, false)
}

/// The built-in color pair of a palette character: the built-in foreground
/// and no background.
pub open spec fn spec_pair_builtin(ch: char) -> ColorPair {
    ColorPair { fg: spec_from_char_builtin(ch), bg: Color::NoColor }
}

impl ColorPair {
    /// A new pair with foreground and background swapped.
    pub fn invert(&self) -> (r: Self)
        ensures
            r.fg == self.bg,
            r.bg == self.fg,
    {
        Self { fg: self.bg, bg: self.fg }
    }

    /// The combined ANSI escape sequences for both channels.
    pub fn to_ansi(&self) -> (r: String)
        ensures
            r@ == spec_ansi_pair(*self),
    {
        let v = self.ansi_chars();
        chars_to_string(&v)
    }

    /// The combined ANSI escape sequences as a character vector.
    pub fn ansi_chars(&self) -> (r: Vec<char>)
        ensures
            r@ == spec_ansi_pair(*self),
    {
        let mut out = self.fg.ansi_chars(true);
        let bgv = self.bg.ansi_chars(false);
        push_all(&mut out, &bgv);
        out
    }

    /// The ANSI escape sequences, or the empty string when the pair equals
    /// the previous one: adjacent equal cells emit no codes.
    pub fn to_ansi_rel(&self, prev: &Option<ColorPair>) -> (r: String)
        ensures
            r@ == if prev matches Some(p) && p == *self {
                Seq::<char>::empty()
            } else {
                spec_ansi_pair(*self)
            },
    {
        match prev {
            Some(p) if p.fg == self.fg && p.bg == self.bg => String::new(),
            _ => self.to_ansi(),
        }
    }

    /// Creates a color pair from the built-in character mapping.
    pub fn from_char_builtin(c: Char) -> (r: Self)
        ensures
            r == spec_pair_builtin(c@),
    {
        Self { fg: Color::from_char_builtin(c), bg: Color::NoColor }
    }
}

/// The canonical form of a color token: trimmed, with ASCII capitals folded
/// to lower case.
pub open spec fn color_canon(s: Seq<char>) -> Seq<char> {
    spec_lower(spec_trim(s))
}

/// The `bright-`-prefixed name of a base hue.
pub open spec fn bright_name(c: Color4) -> Seq<char> {
    seq!['b', 'r', 'i', 'g', 'h', 't', '-'] + color4_name(c)
}

/// The byte two hexadecimal digit characters denote.
pub open spec fn hex_byte(c1: char, c2: char) -> u8 {
    (hex_val(c1) * 16 + hex_val(c2)) as u8
}

/// What a six-hexadecimal-digit token denotes, `None` for any other text.
pub open spec fn spec_color_from_hex(t: Seq<char>) -> Option<Color> {
    if t.len() == 6 && (forall|i: int| 0 <= i < 6 ==> is_hex_digit(#[trigger] t[i])) {
        Some(Color::RGB(hex_byte(t[0], t[1]), hex_byte(t[2], t[3]), hex_byte(t[4], t[5])))
    } else {
        None
    }
}

/// What a canonical color token denotes: one of the sixteen color names
/// (with `gray`/`grey` as aliases of `bright-black`), else a decimal
/// 256-color index, else six hexadecimal RGB digits; `None` otherwise.
pub open spec fn spec_color_from_canon(t: Seq<char>) -> Option<Color> {
    if t == color4_name(Color4::Black) {
        Some(Color::Color4(Color4::Black, false))
    } else if t == color4_name(Color4::Red) {
        Some(Color::Color4(Color4::Red, false))
    } else if t == color4_name(Color4::Green) {
        Some(Color::Color4(Color4::Green, false))
    } else if t == color4_name(Color4::Yellow) {
        Some(Color::Color4(Color4::Yellow, false))
    } else if t == color4_name(Color4::Blue) {
        Some(Color::Color4(Color4::Blue, false))
    } else if t == color4_name(Color4::Magenta) {
        Some(Color::Color4(Color4::Magenta, false))
    } else if t == color4_name(Color4::Cyan) {
        Some(Color::Color4(Color4::Cyan, false))
    } else if t == color4_name(Color4::White) {
        Some(Color::Color4(Color4::White, false))
    } else if t == bright_name(Color4::Black) || t == seq!['g', 'r', 'a', 'y'] || t == seq![
        'g',
        'r',
        'e',
        'y',
    ] {
        Some(Color::Color4(Color4::Black, true))
    } else if t == bright_name(Color4::Red) {
        Some(Color::Color4(Color4::Red, true))
    } else if t == bright_name(Color4::Green) {
        Some(Color::Color4(Color4::Green, true))
    } else if t == bright_name(Color4::Yellow) {
        Some(Color::Color4(Color4::Yellow, true))
    } else if t == bright_name(Color4::Blue) {
        Some(Color::Color4(Color4::Blue, true))
    } else if t == bright_name(Color4::Magenta) {
        Some(Color::Color4(Color4::Magenta, true))
    } else if t == bright_name(Color4::Cyan) {
        Some(Color::Color4(Color4::Cyan, true))
    } else if t == bright_name(Color4::White) {
        Some(Color::Color4(Color4::White, true))
    } else {
        match spec_parse_uint(t) {
            Some(v) => if v <= 255 {
                Some(Color::Color256(v as u8))
            } else {
                spec_color_from_hex(t)
            },
            None => spec_color_from_hex(t),
        }
    }
}

/// The value of a hexadecimal digit, `None` for any other character.
pub fn hex_char_val(c: char) -> (r: Option<u8>)
    ensures
        (r is Some) == is_hex_digit(c),
        r matches Some(v) ==> v == hex_val(c) && v < 16,
{
    let cp = c as u32;
    if 0x30 <= cp && cp <= 0x39 {
        Some((cp - 0x30) as u8)
    } else if 0x61 <= cp && cp <= 0x66 {
        Some((cp - 0x61 + 10) as u8)
    } else {
        None
    }
}

impl Color {
    /// Parses a color token, case-insensitively and ignoring surrounding
    /// white space: a color name, a decimal 0-255 index, or six hex digits;
    /// anything else is a `ColorParsing` error carrying the canonical token.
    pub fn parse(s: &str) -> (r: Result<Color, Error>)
        ensures
            (r is Ok) == (spec_color_from_canon(color_canon(s@)) is Some),
            r matches Ok(c) ==> spec_color_from_canon(color_canon(s@)) == Some(c),
            r matches Err(e) ==> (e matches Error::ColorParsing(msg) && msg@ == color_canon(s@)),
    {
        let cv = str_to_chars(s);
        let trimmed = trim_chars(&cv);
        let t = lower_chars(&trimmed);
        match Self::parse_canon(&t) {
            Some(c) => Ok(c),
            None => Err(Error::ColorParsing(chars_to_string(&t))),
        }
    }

    /// Parses an already canonical (trimmed, lower-case) color token.
    pub fn parse_canon(t: &Vec<char>) -> (r: Option<Color>)
        ensures
            r == spec_color_from_canon(t@),
    {
        proof {
            reveal_strlit("black");
            reveal_strlit("red");
            reveal_strlit("green");
            reveal_strlit("yellow");
            reveal_strlit("blue");
            reveal_strlit("magenta");
            reveal_strlit("cyan");
            reveal_strlit("white");
            reveal_strlit("bright-black");
            reveal_strlit("bright-red");
            reveal_strlit("bright-green");
            reveal_strlit("bright-yellow");
            reveal_strlit("bright-blue");
            reveal_strlit("bright-magenta");
            reveal_strlit("bright-cyan");
            reveal_strlit("bright-white");
            reveal_strlit("gray");
            reveal_strlit("grey");
            assert("black"@ =~= color4_name(Color4::Black));
            assert("red"@ =~= color4_name(Color4::Red));
            assert("green"@ =~= color4_name(Color4::Green));
            assert("yellow"@ =~= color4_name(Color4::Yellow));
            assert("blue"@ =~= color4_name(Color4::Blue));
            assert("magenta"@ =~= color4_name(Color4::Magenta));
            assert("cyan"@ =~= color4_name(Color4::Cyan));
            assert("white"@ =~= color4_name(Color4::White));
            assert("bright-black"@ =~= bright_name(Color4::Black));
            assert("bright-red"@ =~= bright_name(Color4::Red));
            assert("bright-green"@ =~= bright_name(Color4::Green));
            assert("bright-yellow"@ =~= bright_name(Color4::Yellow));
            assert("bright-blue"@ =~= bright_name(Color4::Blue));
            assert("bright-magenta"@ =~= bright_name(Color4::Magenta));
            assert("bright-cyan"@ =~= bright_name(Color4::Cyan));
            assert("bright-white"@ =~= bright_name(Color4::White));
            assert("gray"@ =~= seq!['g', 'r', 'a', 'y']);
            assert("grey"@ =~= seq!['g', 'r', 'e', 'y']);
        }
        if chars_eq_str(t, "black") {
            Some(Color::Color4(Color4::Black, false))
        } else if chars_eq_str(t, "red") {
            Some(Color::Color4(Color4::Red, false))
        } else if chars_eq_str(t, "green") {
            Some(Color::Color4(Color4::Green, false))
        } else if chars_eq_str(t, "yellow") {
            Some(Color::Color4(Color4::Yellow, false))
        } else if chars_eq_str(t, "blue") {
            Some(Color::Color4(Color4::Blue, false))
        } else if chars_eq_str(t, "magenta") {
            Some(Color::Color4(Color4::Magenta, false))
        } else if chars_eq_str(t, "cyan") {
            Some(Color::Color4(Color4::Cyan, false))
        } else if chars_eq_str(t, "white") {
            Some(Color::Color4(Color4::White, false))
        } else if chars_eq_str(t, "bright-black") || chars_eq_str(t, "gray") || chars_eq_str(
            t,
            "grey",
        ) {
            Some(Color::Color4(Color4::Black, true))
        } else if chars_eq_str(t, "bright-red") {
            Some(Color::Color4(Color4::Red, true))
        } else if chars_eq_str(t, "bright-green") {
            Some(Color::Color4(Color4::Green, true))
        } else if chars_eq_str(t, "bright-yellow") {
            Some(Color::Color4(Color4::Yellow, true))
        } else if chars_eq_str(t, "bright-blue") {
            Some(Color::Color4(Color4::Blue, true))
        } else if chars_eq_str(t, "bright-magenta") {
            Some(Color::Color4(Color4::Magenta, true))
        } else if chars_eq_str(t, "bright-cyan") {
            Some(Color::Color4(Color4::Cyan, true))
        } else if chars_eq_str(t, "bright-white") {
            Some(Color::Color4(Color4::White, true))
        } else {
            proof {
                if spec_parse_uint(t@) is Some {
                    assert(forall|j: int|
                        0 <= j < crate::text::plus_stripped(t@).len() ==> is_dec_digit(
                            #[trigger] crate::text::plus_stripped(t@)[j],
                        ));
                    crate::text::lemma_dec_val_nonneg(crate::text::plus_stripped(t@));
                }
            }
            let dec = crate::text::parse_usize(t);
            match dec {
                Some(v) => if v <= 255 {
                    Some(Color::Color256(v as u8))
                } else {
                    Self::parse_hex(t)
                },
                None => Self::parse_hex(t),
            }
        }
    }

    /// Parses six hexadecimal digits as an RGB color.
    fn parse_hex(t: &Vec<char>) -> (r: Option<Color>)
        ensures
            r == spec_color_from_hex(t@),
    {
        if t.len() != 6 {
            return None;
        }
        let v0 = hex_char_val(t[0]);
        let v1 = hex_char_val(t[1]);
        let v2 = hex_char_val(t[2]);
        let v3 = hex_char_val(t[3]);
        let v4 = hex_char_val(t[4]);
        let v5 = hex_char_val(t[5]);
        match (v0, v1, v2, v3, v4, v5) {
            (Some(a), Some(b), Some(c), Some(d), Some(e), Some(f)) => {
                proof {
                    assert(forall|i: int| 0 <= i < 6 ==> is_hex_digit(#[trigger] t@[i]));
                }
                Some(Color::RGB(a * 16 + b, c * 16 + d, e * 16 + f))
            },
            _ => {
                proof {
                    assert(!(is_hex_digit(t@[0]) && is_hex_digit(t@[1]) && is_hex_digit(t@[2])
                        && is_hex_digit(t@[3]) && is_hex_digit(t@[4]) && is_hex_digit(t@[5])));
                }
                None
            },
        }
    }
}

/// The token of a color pair: empty when both channels are "no color",
/// else the present channels as `fg:`/`bg:` parts separated by a space.
pub open spec fn spec_pair_token(p: ColorPair) -> Seq<char> {
    if p.fg == Color::NoColor && p.bg == Color::NoColor {
        Seq::empty()
    } else if p.fg == Color::NoColor {
        seq!['b', 'g', ':'] + spec_color_token(p.bg)
    } else if p.bg == Color::NoColor {
        seq!['f', 'g', ':'] + spec_color_token(p.fg)
    } else {
        seq!['f', 'g', ':'] + spec_color_token(p.fg) + seq![' ', 'b', 'g', ':'] + spec_color_token(
            p.bg,
        )
    }
}

impl ColorPair {
    /// The token of this pair, as written after the character in a `col`
    /// header line.
    pub fn to_token(&self) -> (r: String)
        ensures
            r@ == spec_pair_token(*self),
    {
        let v = self.token_chars();
        chars_to_string(&v)
    }

    /// The token of this pair as a character vector.
    pub fn token_chars(&self) -> (r: Vec<char>)
        ensures
            r@ == spec_pair_token(*self),
    {
        let fg_none = match self.fg {
            Color::NoColor => true,
            _ => false,
        };
        let bg_none = match self.bg {
            Color::NoColor => true,
            _ => false,
        };
        let mut out: Vec<char> = Vec::new();
        if fg_none && bg_none {
            proof {
                assert(out@ =~= spec_pair_token(*self));
            }
            return out;
        }
        if fg_none {
            out.push('b');
            out.push('g');
            out.push(':');
            let t = self.bg.token_chars();
            push_all(&mut out, &t);
            proof {
                assert(out@ =~= spec_pair_token(*self));
            }
            return out;
        }
        out.push('f');
        out.push('g');
        out.push(':');
        let t = self.fg.token_chars();
        push_all(&mut out, &t);
        if !bg_none {
            out.push(' ');
            out.push('b');
            out.push('g');
            out.push(':');
            let t2 = self.bg.token_chars();
            push_all(&mut out, &t2);
        }
        proof {
            assert(out@ =~= spec_pair_token(*self));
        }
        out
    }
}

/// How parsing a color pair fails: a repeated `fg:` or `bg:` part, a bad
/// color token (carried in canonical form), or an unrecognized part.
pub enum PairErr {
    DupFg,
    DupBg,
    Color(Seq<char>),
    Token,
}

/// One space-separated part of a color-pair line applied to the pair built
/// so far: blank parts are skipped, `fg:`/`bg:` parts set their channel once.
pub open spec fn spec_pair_step(tok: Seq<char>, pair: ColorPair, fg_seen: bool, bg_seen: bool) -> Result<
    (ColorPair, bool, bool),
    PairErr,
> {
    if spec_trim(tok).len() == 0 {
        Ok((pair, fg_seen, bg_seen))
    } else if spec_trim(tok).len() >= 3 && spec_trim(tok).subrange(0, 3) == seq!['f', 'g', ':'] {
        if fg_seen {
            Err(PairErr::DupFg)
        } else {
            match spec_color_from_canon(color_canon(spec_trim(tok).skip(3))) {
                Some(c) => Ok((ColorPair { fg: c, bg: pair.bg }, true, bg_seen)),
                None => Err(PairErr::Color(color_canon(spec_trim(tok).skip(3)))),
            }
        }
    } else if spec_trim(tok).len() >= 3 && spec_trim(tok).subrange(0, 3) == seq!['b', 'g', ':'] {
        if bg_seen {
            Err(PairErr::DupBg)
        } else {
            match spec_color_from_canon(color_canon(spec_trim(tok).skip(3))) {
                Some(c) => Ok((ColorPair { fg: pair.fg, bg: c }, fg_seen, true)),
                None => Err(PairErr::Color(color_canon(spec_trim(tok).skip(3)))),
            }
        }
    } else {
        Err(PairErr::Token)
    }
}

/// The rest of a color-pair line folded over `spec_pair_step`, one
/// space-separated part at a time.
pub open spec fn spec_parse_pair_rest(
    s: Seq<char>,
    pair: ColorPair,
    fg_seen: bool,
    bg_seen: bool,
) -> Result<ColorPair, PairErr>
    decreases s.len(),
    via spec_parse_pair_rest_dec
{
    match crate::text::spec_split_first(s, ' ') {
        Some(p) => match spec_pair_step(p.0, pair, fg_seen, bg_seen) {
            Ok(st) => spec_parse_pair_rest(p.1, st.0, st.1, st.2),
            Err(e) => Err(e),
        },
        None => match spec_pair_step(s, pair, fg_seen, bg_seen) {
            Ok(st) => Ok(st.0),
            Err(e) => Err(e),
        },
    }
}

#[via_fn]
proof fn spec_parse_pair_rest_dec(s: Seq<char>, pair: ColorPair, fg_seen: bool, bg_seen: bool) {
    crate::text::lemma_split_first_parts(s, ' ');
}

/// What a whole color-pair line denotes, starting from the default pair.
pub open spec fn spec_parse_pair(s: Seq<char>) -> Result<ColorPair, PairErr> {
    spec_parse_pair_rest(s, ColorPair { fg: Color::NoColor, bg: Color::NoColor }, false, false)
}

impl ColorPair {
    /// Parses a color-pair line of space-separated `fg:<color>` and
    /// `bg:<color>` parts in either order; each channel may be given at most
    /// once, and any other non-blank part is an error.
    pub fn parse(s: &str) -> (r: Result<ColorPair, Error>)
        ensures
            (r is Ok) == (spec_parse_pair(s@) is Ok),
            r matches Ok(p) ==> spec_parse_pair(s@) == Ok::<ColorPair, PairErr>(p),
            spec_parse_pair(s@) matches Err(pe) ==> (r matches Err(e) && match pe {
                PairErr::DupFg => e matches Error::ColorDuplicate(n, l) && n@ == seq!['f', 'g']
                    && l@ == s@,
                PairErr::DupBg => e matches Error::ColorDuplicate(n, l) && n@ == seq!['b', 'g']
                    && l@ == s@,
                PairErr::Color(t) => e matches Error::ColorParsing(m) && m@ == t,
                PairErr::Token => e matches Error::ColorParsing(m) && m@ == s@,
            }),
    {
        let cv = str_to_chars(s);
        Self::parse_rest(
            &cv,
            &cv,
            ColorPair { fg: Color::NoColor, bg: Color::NoColor },
            false,
            false,
        )
    }

    /// One part of a pair line, with errors built against the whole line.
    fn parse_step(tok: &Vec<char>, orig: &Vec<char>, pair: ColorPair, fg_seen: bool, bg_seen: bool) -> (r:
        Result<(ColorPair, bool, bool), Error>)
        ensures
            (r is Ok) == (spec_pair_step(tok@, pair, fg_seen, bg_seen) is Ok),
            r matches Ok(st) ==> spec_pair_step(tok@, pair, fg_seen, bg_seen) == Ok::<
                (ColorPair, bool, bool),
                PairErr,
            >(st),
            spec_pair_step(tok@, pair, fg_seen, bg_seen) matches Err(pe) ==> (r matches Err(e)
                && match pe {
                PairErr::DupFg => e matches Error::ColorDuplicate(n, l) && n@ == seq!['f', 'g']
                    && l@ == orig@,
                PairErr::DupBg => e matches Error::ColorDuplicate(n, l) && n@ == seq!['b', 'g']
                    && l@ == orig@,
                PairErr::Color(t) => e matches Error::ColorParsing(m) && m@ == t,
                PairErr::Token => e matches Error::ColorParsing(m) && m@ == orig@,
            }),
    {
        let t = trim_chars(tok);
        if t.len() == 0 {
            return Ok((pair, fg_seen, bg_seen));
        }
        proof {
            reveal_strlit("fg:");
            reveal_strlit("bg:");
            reveal_strlit("fg");
            reveal_strlit("bg");
            assert("fg:"@ =~= seq!['f', 'g', ':']);
            assert("bg:"@ =~= seq!['b', 'g', ':']);
            assert("fg"@ =~= seq!['f', 'g']);
            assert("bg"@ =~= seq!['b', 'g']);
        }
        if let Some(after) = crate::text::strip_prefix_str(&t, "fg:") {
            proof {
                assert(after@ =~= spec_trim(tok@).skip(3));
            }
            if fg_seen {
                return Err(
                    Error::ColorDuplicate(
                        <String as vstd::string::StringExecFns>::from_str("fg"),
                        chars_to_string(orig),
                    ),
                );
            }
            let tr = trim_chars(&after);
            let lo = lower_chars(&tr);
            match Color::parse_canon(&lo) {
                Some(c) => Ok((ColorPair { fg: c, bg: pair.bg }, true, bg_seen)),
                None => Err(Error::ColorParsing(chars_to_string(&lo))),
            }
        } else if let Some(after) = crate::text::strip_prefix_str(&t, "bg:") {
            proof {
                assert(after@ =~= spec_trim(tok@).skip(3));
            }
            if bg_seen {
                return Err(
                    Error::ColorDuplicate(
                        <String as vstd::string::StringExecFns>::from_str("bg"),
                        chars_to_string(orig),
                    ),
                );
            }
            let tr = trim_chars(&after);
            let lo = lower_chars(&tr);
            match Color::parse_canon(&lo) {
                Some(c) => Ok((ColorPair { fg: pair.fg, bg: c }, fg_seen, true)),
                None => Err(Error::ColorParsing(chars_to_string(&lo))),
            }
        } else {
            Err(Error::ColorParsing(chars_to_string(orig)))
        }
    }

    /// The remaining parts of a pair line, folded left to right.
    fn parse_rest(rest: &Vec<char>, orig: &Vec<char>, pair: ColorPair, fg_seen: bool, bg_seen: bool) -> (r:
        Result<ColorPair, Error>)
        ensures
            (r is Ok) == (spec_parse_pair_rest(rest@, pair, fg_seen, bg_seen) is Ok),
            r matches Ok(p) ==> spec_parse_pair_rest(rest@, pair, fg_seen, bg_seen) == Ok::<
                ColorPair,
                PairErr,
            >(p),
            spec_parse_pair_rest(rest@, pair, fg_seen, bg_seen) matches Err(pe) ==> (r matches Err(
                e,
            ) && match pe {
                PairErr::DupFg => e matches Error::ColorDuplicate(n, l) && n@ == seq!['f', 'g']
                    && l@ == orig@,
                PairErr::DupBg => e matches Error::ColorDuplicate(n, l) && n@ == seq!['b', 'g']
                    && l@ == orig@,
                PairErr::Color(t) => e matches Error::ColorParsing(m) && m@ == t,
                PairErr::Token => e matches Error::ColorParsing(m) && m@ == orig@,
            }),
        decreases rest@.len(),
    {
        match crate::text::split_first(rest, ' ') {
            Some((tok, rem)) => {
                proof {
                    crate::text::lemma_split_first_some(tok@, rem@, ' ');
                }
                match Self::parse_step(&tok, orig, pair, fg_seen, bg_seen) {
                    Ok((p2, f2, b2)) => Self::parse_rest(&rem, orig, p2, f2, b2),
                    Err(e) => Err(e),
                }
            },
            None => {
                proof {
                    crate::text::lemma_split_first_none(rest@, ' ');
                }
                match Self::parse_step(rest, orig, pair, fg_seen, bg_seen) {
                    Ok((p2, _, _)) => Ok(p2),
                    Err(e) => Err(e),
                }
            },
        }
    }
}

/// A character as it appears inside canonical color tokens: not white
/// space and not an ASCII capital.
pub open spec fn token_char_ok(c: char) -> bool {
    !crate::text::is_ws(c) && crate::text::spec_lower_char(c) == c
}

/// Every character of a hue name is token-safe.
proof fn lemma_name_chars_ok(c4: Color4)
    ensures
        forall|i: int|
            0 <= i < color4_name(c4).len() ==> token_char_ok(#[trigger] color4_name(c4)[i]),
{
}

/// A decimal digit character is token-safe.
proof fn lemma_digit_char_ok(c: char)
    requires
        is_dec_digit(c),
    ensures
        token_char_ok(c),
{
}

/// A hexadecimal digit character is token-safe, and `hex_digit` always
/// yields a hexadecimal digit.
proof fn lemma_hex_digit_ok(d: int)
    requires
        0 <= d < 16,
    ensures
        is_hex_digit(hex_digit(d)),
        token_char_ok(hex_digit(d)),
        hex_val(hex_digit(d)) == d,
{
}

/// Every character of a color's canonical token is token-safe.
proof fn lemma_token_chars_ok(c: Color)
    ensures
        forall|i: int|
            0 <= i < spec_color_token(c).len() ==> token_char_ok(#[trigger] spec_color_token(c)[i]),
{
    match c {
        Color::NoColor => {},
        Color::Color4(c4, bright) => {
            lemma_name_chars_ok(c4);
            if bright {
                assert forall|i: int| 0 <= i < spec_color_token(c).len() implies token_char_ok(
                    #[trigger] spec_color_token(c)[i],
                ) by {
                    if i >= 7 {
                        assert(spec_color_token(c)[i] == color4_name(c4)[i - 7]);
                    }
                }
            }
        },
        Color::Color256(n) => {
            crate::text::lemma_dec_digits(n as nat);
            assert forall|i: int| 0 <= i < spec_color_token(c).len() implies token_char_ok(
                #[trigger] spec_color_token(c)[i],
            ) by {
                lemma_digit_char_ok(spec_dec(n as nat)[i]);
            }
        },
        Color::RGB(r, g, b) => {
            lemma_hex_digit_ok(r as int / 16);
            lemma_hex_digit_ok(r as int % 16);
            lemma_hex_digit_ok(g as int / 16);
            lemma_hex_digit_ok(g as int % 16);
            lemma_hex_digit_ok(b as int / 16);
            lemma_hex_digit_ok(b as int % 16);
            assert(spec_color_token(c) =~= seq![
                hex_digit(r as int / 16),
                hex_digit(r as int % 16),
                hex_digit(g as int / 16),
                hex_digit(g as int % 16),
                hex_digit(b as int / 16),
                hex_digit(b as int % 16),
            ]);
        },
    }
}

/// A color's canonical token canonicalizes to itself: it carries no
/// surrounding white space and no capitals.
pub proof fn lemma_token_canon(c: Color)
    ensures
        color_canon(spec_color_token(c)) == spec_color_token(c),
{
    lemma_token_chars_ok(c);
    crate::text::lemma_trim_id(spec_color_token(c));
    crate::text::lemma_lower_id(spec_color_token(c));
}

/// Two characters with the same code point are the same character.
proof fn lemma_char_code_eq(a: char, b: char)
    requires
        a as u32 == b as u32,
    ensures
        a == b,
{
    vstd::utf8::char_u32_cast(a, a as u32);
    vstd::utf8::char_u32_cast(b, b as u32);
}

/// Rendering the value of a hexadecimal digit gives the digit back.
proof fn lemma_hex_digit_inverse(c: char)
    requires
        is_hex_digit(c),
    ensures
        hex_digit(hex_val(c)) == c,
        0 <= hex_val(c) < 16,
{
    lemma_char_code_eq(hex_digit(hex_val(c)), c);
}

/// Rendering the byte of two hexadecimal digits gives the digits back.
proof fn lemma_hex2_inverse(c1: char, c2: char)
    requires
        is_hex_digit(c1),
        is_hex_digit(c2),
    ensures
        spec_hex2(hex_byte(c1, c2)) == seq![c1, c2],
{
    lemma_hex_digit_inverse(c1);
    lemma_hex_digit_inverse(c2);
    let v1 = hex_val(c1);
    let v2 = hex_val(c2);
    assert((v1 * 16 + v2) / 16 == v1 && (v1 * 16 + v2) % 16 == v2) by (nonlinear_arith)
        requires
            0 <= v1 < 16,
            0 <= v2 < 16,
    ;
    assert(hex_byte(c1, c2) as int == v1 * 16 + v2);
    assert(spec_hex2(hex_byte(c1, c2)) =~= seq![c1, c2]);
}

/// Every token that parses as a color round-trips: the canonical token of
/// the parsed color parses back to the very same color, name for name,
/// index for index, and hex digits for hex digits.
#[verifier::rlimit(50)]
pub proof fn lemma_color_token_roundtrip(s: Seq<char>)
    requires
        spec_color_from_canon(color_canon(s)) is Some,
    ensures
        ({
            let c = spec_color_from_canon(color_canon(s))->Some_0;
            spec_color_from_canon(color_canon(spec_color_token(c))) == Some(c)
        }),
{
    let t = color_canon(s);
    let c = spec_color_from_canon(t)->Some_0;
    lemma_token_canon(c);
    let tok = spec_color_token(c);
    if t == color4_name(Color4::Black) || t == color4_name(Color4::Red) || t == color4_name(
        Color4::Green,
    ) || t == color4_name(Color4::Yellow) || t == color4_name(Color4::Blue) || t == color4_name(
        Color4::Magenta,
    ) || t == color4_name(Color4::Cyan) || t == color4_name(Color4::White) || t == bright_name(
        Color4::Black,
    ) || t == seq!['g', 'r', 'a', 'y'] || t == seq!['g', 'r', 'e', 'y'] || t == bright_name(
        Color4::Red,
    ) || t == bright_name(Color4::Green) || t == bright_name(Color4::Yellow) || t == bright_name(
        Color4::Blue,
    ) || t == bright_name(Color4::Magenta) || t == bright_name(Color4::Cyan) || t == bright_name(
        Color4::White,
    ) {
        assert(spec_color_from_canon(tok) == Some(c));
    } else {
        match spec_parse_uint(t) {
            Some(v) => {
                assert(forall|j: int|
                    0 <= j < crate::text::plus_stripped(t).len() ==> is_dec_digit(
                        #[trigger] crate::text::plus_stripped(t)[j],
                    ));
                crate::text::lemma_dec_val_nonneg(crate::text::plus_stripped(t));
                if v <= 255 {
                    let n = v as u8;
                    assert(c == Color::Color256(n));
                    assert(tok == spec_dec(n as nat));
                    crate::text::lemma_dec_digits(n as nat);
                    crate::text::lemma_dec_parse_roundtrip(n as nat);
                    lemma_dec_token_no_name(tok);
                    assert(spec_color_from_canon(tok) == Some(c));
                } else {
                    lemma_hex_token_roundtrip(t);
                }
            },
            None => {
                lemma_hex_token_roundtrip(t);
            },
        }
    }
}

/// A token of decimal digits equals no color name.
proof fn lemma_dec_token_no_name(tok: Seq<char>)
    requires
        tok.len() >= 1,
        forall|i: int| 0 <= i < tok.len() ==> is_dec_digit(#[trigger] tok[i]),
    ensures
        tok != color4_name(Color4::Black),
        tok != color4_name(Color4::Red),
        tok != color4_name(Color4::Green),
        tok != color4_name(Color4::Yellow),
        tok != color4_name(Color4::Blue),
        tok != color4_name(Color4::Magenta),
        tok != color4_name(Color4::Cyan),
        tok != color4_name(Color4::White),
        tok != bright_name(Color4::Black),
        tok != bright_name(Color4::Red),
        tok != bright_name(Color4::Green),
        tok != bright_name(Color4::Yellow),
        tok != bright_name(Color4::Blue),
        tok != bright_name(Color4::Magenta),
        tok != bright_name(Color4::Cyan),
        tok != bright_name(Color4::White),
        tok != seq!['g', 'r', 'a', 'y'],
        tok != seq!['g', 'r', 'e', 'y'],
{
    assert(is_dec_digit(tok[0]));
}

/// A six-hexadecimal-digit token that failed the name and decimal branches
/// parses to an RGB color whose canonical token is the token itself.
proof fn lemma_hex_token_roundtrip(t: Seq<char>)
    requires
        spec_color_from_hex(t) is Some,
        spec_color_from_canon(t) == spec_color_from_hex(t),
    ensures
        ({
            let c = spec_color_from_hex(t)->Some_0;
            spec_color_from_canon(color_canon(spec_color_token(c))) == Some(c)
        }),
{
    let c = spec_color_from_hex(t)->Some_0;
    lemma_hex2_inverse(t[0], t[1]);
    lemma_hex2_inverse(t[2], t[3]);
    lemma_hex2_inverse(t[4], t[5]);
    assert(spec_color_token(c) =~= t);
    lemma_token_canon(c);
}

/// The legacy-to-modern permutation of the sixteen color digits: legacy
/// foreground digits are reordered to the modern 4-bit convention, and any
/// other character becomes the "no color" mark `_`.
pub open spec fn spec_trans_color(c: char) -> char {
    if c == '0' {
        '0'
    } else if c == '1' {
        '4'
    } else if c == '2' {
        '2'
    } else if c == '3' {
        '6'
    } else if c == '4' {
        '1'
    } else if c == '5' {
        '5'
    } else if c == '6' {
        '3'
    } else if c == '7' {
        '7'
    } else if c == '8' {
        '8'
    } else if c == '9' {
        'c'
    } else if c == 'a' {
        'a'
    } else if c == 'b' {
        'e'
    } else if c == 'c' {
        '9'
    } else if c == 'd' {
        'd'
    } else if c == 'e' {
        'b'
    } else if c == 'f' {
        'f'
    } else {
        '_'
    }
}

/// `spec_trans_color`, executably.
pub fn trans_color(legacy: char) -> (r: char)
    ensures
        r == spec_trans_color(legacy),
{
    match legacy {
        '0' => '0',
        '1' => '4',
        '2' => '2',
        '3' => '6',
        '4' => '1',
        '5' => '5',
        '6' => '3',
        '7' => '7',
        '8' => '8',
        '9' => 'c',
        'a' => 'a',
        'b' => 'e',
        'c' => '9',
        'd' => 'd',
        'e' => 'b',
        'f' => 'f',
        _ => '_',
    }
}

} // verus!
