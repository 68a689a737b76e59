use art3a::chars::{check_char, normalize_text, Char};

#[test]
fn removes_cr_and_leaves_newline() {
    let s = "line1\r\nline2\nline3\r";
    let got = normalize_text(s);
    assert_eq!(got, "line1line2line3");
}

#[test]
fn tabs_and_spaces_normalized() {
    let s = "A\tB\u{00A0}C\u{2003}D\u{205F}E\u{3000}F\u{180E}G";
    let got = normalize_text(s);
    assert_eq!(got, "A B C D E F G");
}

#[test]
fn removes_zero_width_and_bidi_and_combining() {
    let s = format!("X\u{200B}Y\u{202A}Z\u{0301}Q");
    let got = normalize_text(&s);
    assert_eq!(got, "XYZQ");
}

#[test]
fn removes_control_c1_and_c0_except_newline_and_tab() {
    let s = format!("A\u{0001}B\u{001b}CD\tE");
    let got = normalize_text(&s);
    assert_eq!(got, "ABCD E");
}

#[test]
fn preserves_other_unicode() {
    let s = "Привет\u{00A0}мир — hello";
    let got = normalize_text(s);
    assert_eq!(got, "Привет мир — hello");
}

#[test]
fn example_from_doc() {
    let s = "Hello\u{00A0}World\t!\r\nA\u{200B}B\u{0301}C";
    let out = normalize_text(s);
    assert_eq!(out, "Hello World !ABC");
}

#[test]
fn validation_is_idempotent_on_valid_chars() {
    for ch in ['a', 'Z', ' ', '#', '→', '█'] {
        let c = Char::new(ch).unwrap();
        assert_eq!(check_char(c.to_char()), Some(c.to_char()));
    }
}

#[test]
fn normalize_twice_is_once() {
    let s = "A\tB\u{00A0}C\u{200B}D\u{0301}";
    let once = normalize_text(s);
    let twice = normalize_text(&once);
    assert_eq!(once, twice);
    for ch in once.chars() {
        assert_eq!(check_char(ch), Some(ch));
    }
}

#[test]
fn disallowed_char_is_an_error() {
    assert!(Char::new('\u{0301}').is_err());
    assert!(Char::new('\u{200B}').is_err());
    assert_eq!(Char::new('\t').unwrap().to_char(), ' ');
}
