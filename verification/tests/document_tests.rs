use art3a::art::Art;
use art3a::chars::Char;
use art3a::colors::{Color, Color4, ColorPair};
use art3a::content::Cell;
use art3a::error::Error;

fn doc_lines(s: &str) -> Vec<String> {
    s.split('\n').map(|l| l.to_string()).collect()
}

fn cell(text: char, color: Option<char>) -> Cell {
    Cell { text: Char::new(text).unwrap(), color: color.map(|c| Char::new(c).unwrap()) }
}

#[test]
fn end_to_end_scenario() {
    let lines = doc_lines("@3a\ntitle T\ncolors no\ncol r fg:red\n\n@body\nAB\nCD\n\n");
    let art = Art::from_lines(&lines).unwrap();
    assert_eq!(art.frames(), 1);
    assert_eq!(art.width(), 2);
    assert_eq!(art.height(), 2);
    assert_eq!(art.get_title_key(), Some("T".to_string()));
    let r = Char::new('r').unwrap();
    let pair = art.get_color_map(r);
    assert_eq!(pair.fg, Color::Color4(Color4::Red, false));
    assert_eq!(pair.bg, Color::NoColor);
    assert_eq!(art.get(0, 0, 0, Cell::default()).text.to_char(), 'A');
    assert_eq!(art.get(0, 1, 1, Cell::default()).text.to_char(), 'D');
}

#[test]
fn palette_makes_the_body_interleaved() {
    let lines = doc_lines("@3a\ntitle T\ncol r fg:red\n\n@body\nAB\nCD\n\n");
    let art = Art::from_lines(&lines).unwrap();
    assert_eq!(art.frames(), 1);
    assert_eq!(art.width(), 1);
    assert_eq!(art.height(), 2);
    let c = art.get(0, 0, 0, Cell::default());
    assert_eq!(c.text.to_char(), 'A');
    assert_eq!(c.color.map(|k| k.to_char()), Some('B'));
}

#[test]
fn round_trip_of_api_built_document() {
    let mut art = Art::new(2, 3, 2, Cell::default());
    art.set_title_key(Some("demo".to_string()));
    art.add_author("ada");
    art.add_orig_author("hopper");
    art.set_license_key(Some("mit".to_string()));
    art.add_tag("pixel");
    art.add_tag("tiny");
    art.set_global_delay(100);
    art.set_frame_delay(1, 200);
    let g = Char::new('g').unwrap();
    art.set_color_map(g, ColorPair::parse("fg:green bg:4").unwrap());
    art.set(0, 0, 0, cell('a', Some('g')));
    art.set(0, 1, 0, cell('b', None));
    art.set(1, 2, 1, cell('c', Some('1')));

    let text = art.to_text();
    let lines = doc_lines(&text);
    let back = Art::from_lines(&lines).unwrap();

    assert_eq!(back.frames(), art.frames());
    assert_eq!(back.width(), art.width());
    assert_eq!(back.height(), art.height());
    assert_eq!(back.get_title_key(), art.get_title_key());
    assert_eq!(back.get_authors_key(), art.get_authors_key());
    assert_eq!(back.get_orig_authors_key(), art.get_orig_authors_key());
    assert_eq!(back.get_license_key(), art.get_license_key());
    assert_eq!(back.get_global_delay(), art.get_global_delay());
    assert_eq!(back.get_frame_delay(1), art.get_frame_delay(1));
    assert_eq!(back.get_color_map(g), art.get_color_map(g));
    assert!(back.contains_tag("pixel"));
    assert!(back.contains_tag("tiny"));
    for f in 0..art.frames() {
        for y in 0..art.height() {
            for x in 0..art.width() {
                let a = art.get(f, x, y, Cell::default());
                let b = back.get(f, x, y, Cell::default());
                assert_eq!(a.text.to_char(), b.text.to_char());
                let pa = a.color.map(|c| art.get_color_map(c)).unwrap_or_default();
                let pb = b.color.map(|c| back.get_color_map(c)).unwrap_or_default();
                assert_eq!(pa, pb);
            }
        }
    }
    let text2 = back.to_text();
    assert_eq!(text, text2);
}

#[test]
fn round_trip_keeps_extra_keys_and_blocks() {
    let lines = doc_lines(
        "@3a\ntitle x\nmystery value here\n\n@note\nkeep me\n\n@body\nZ\n\n",
    );
    let art = Art::from_lines(&lines).unwrap();
    let extras = art.get_extra_keys();
    assert_eq!(extras.len(), 1);
    assert_eq!(extras[0].line, "mystery value here");
    let text = art.to_text();
    assert!(text.contains("mystery value here"));
    assert!(text.contains("@note"));
    assert!(text.contains("keep me"));
    let back = Art::from_lines(&doc_lines(&text)).unwrap();
    assert_eq!(back.get_extra_keys().len(), 1);
    assert_eq!(back.to_text(), text);
}

#[test]
fn free_color_name_avoids_used_names() {
    let mut art = Art::new(1, 4, 1, Cell::default());
    let digits = "0123456789abcdef";
    for (i, ch) in digits.chars().enumerate() {
        let name = Char::new(ch).unwrap();
        let pair = ColorPair::parse(&format!("bg:{}", (i + 20))).unwrap();
        art.set_color_map(name, pair);
    }
    let free = art.free_color_name();
    assert!(!digits.contains(free.to_char()));
    assert!(!art.contains_color(free));
    assert!(free.to_char().is_alphabetic() || free.to_char().is_ascii_punctuation());
}

#[test]
fn duplicate_keys_are_rejected() {
    let lines = doc_lines("@3a\ntitle a\ntitle b\n\n@body\nZ\n\n");
    assert!(matches!(Art::from_lines(&lines), Err(Error::HeaderKeyDup(_))));
    let lines = doc_lines("@3a\ncol r fg:red\ncol r fg:blue\n\n@body\nZ\n\n");
    assert!(matches!(Art::from_lines(&lines), Err(Error::ColorMapDup(_))));
    let lines = doc_lines("@3a\n\n@text-pin\nA\n\n@text-pin\nB\n\n@body\nC\n\n");
    assert!(matches!(Art::from_lines(&lines), Err(Error::BlockDup(_))));
}

#[test]
fn ragged_body_is_a_width_mismatch() {
    let lines = doc_lines("@3a\ntitle t\n\n@body\nAB\nCDE\n\n");
    assert!(matches!(Art::from_lines(&lines), Err(Error::WidthMismatch)));
}

#[test]
fn frame_size_change_is_a_mismatch() {
    let lines = doc_lines("@3a\ntitle t\n\n@body\nAB\n\nABC\n\n");
    assert!(matches!(Art::from_lines(&lines), Err(Error::WidthMismatch)));
    let lines = doc_lines("@3a\ntitle t\n\n@body\nAB\n\nAB\nAB\n\n");
    assert!(matches!(Art::from_lines(&lines), Err(Error::HeightMismatch)));
}

#[test]
fn non_block_line_is_an_error() {
    let lines = doc_lines("@3a\ntitle t\n\nstray\n");
    assert!(matches!(Art::from_lines(&lines), Err(Error::BlockExpected(_))));
}

#[test]
fn color_pin_gives_every_frame_its_colors() {
    let lines = doc_lines(
        "@3a\ncolors yes\n\n@color-pin\n12\n34\n\n@body\nAB\nCD\n\nEF\nGH\n\n",
    );
    let art = Art::from_lines(&lines).unwrap();
    assert_eq!(art.frames(), 2);
    for f in 0..2 {
        assert_eq!(
            art.get(f, 0, 0, Cell::default()).color.map(|c| c.to_char()),
            Some('1')
        );
        assert_eq!(
            art.get(f, 1, 1, Cell::default()).color.map(|c| c.to_char()),
            Some('4')
        );
    }
    assert_eq!(art.get(0, 0, 0, Cell::default()).text.to_char(), 'A');
    assert_eq!(art.get(1, 0, 0, Cell::default()).text.to_char(), 'E');
}

#[test]
fn text_pin_makes_body_color_only() {
    let lines = doc_lines(
        "@3a\ncolors yes\n\n@text-pin\nXY\n\n@body\n12\n\n34\n\n",
    );
    let art = Art::from_lines(&lines).unwrap();
    assert_eq!(art.frames(), 2);
    assert_eq!(art.get(0, 0, 0, Cell::default()).text.to_char(), 'X');
    assert_eq!(art.get(1, 1, 0, Cell::default()).text.to_char(), 'Y');
    assert_eq!(
        art.get(0, 0, 0, Cell::default()).color.map(|c| c.to_char()),
        Some('1')
    );
    assert_eq!(
        art.get(1, 0, 0, Cell::default()).color.map(|c| c.to_char()),
        Some('3')
    );
}

#[test]
fn interleaved_body_when_colors_and_no_pins() {
    let lines = doc_lines("@3a\ncolors yes\n\n@body\nAB12\n\n");
    let art = Art::from_lines(&lines).unwrap();
    assert_eq!(art.width(), 2);
    let c = art.get(0, 0, 0, Cell::default());
    assert_eq!(c.text.to_char(), 'A');
    assert_eq!(c.color.map(|c| c.to_char()), Some('1'));
}

#[test]
fn legacy_dialect_reads_fixed_width_frames() {
    let lines = doc_lines("width 2\nheight 2\ncolors none\ntitle old\n\nAB\nCD\nEF\nGH\n");
    let art = Art::from_lines(&lines).unwrap();
    assert_eq!(art.get_title_key(), Some("old".to_string()));
    assert_eq!(art.frames(), 2);
    assert_eq!(art.width(), 2);
    assert_eq!(art.get(0, 1, 0, Cell::default()).text.to_char(), 'B');
    assert_eq!(art.get(1, 0, 1, Cell::default()).text.to_char(), 'G');
}

#[test]
fn legacy_fg_digits_are_remapped() {
    let lines = doc_lines("width 2\nheight 1\ncolors fg\n\nAB\n14\n");
    let art = Art::from_lines(&lines).unwrap();
    assert_eq!(art.frames(), 1);
    let c0 = art.get(0, 0, 0, Cell::default());
    assert_eq!(c0.text.to_char(), 'A');
    assert_eq!(c0.color.map(|c| c.to_char()), Some('4'));
    let c1 = art.get(0, 1, 0, Cell::default());
    assert_eq!(c1.color.map(|c| c.to_char()), Some('1'));
}

#[test]
fn pinned_output_uses_pin_blocks() {
    let mut art = Art::new(2, 2, 1, Cell::default());
    art.set(0, 0, 0, cell('A', Some('1')));
    art.set(0, 1, 0, cell('B', Some('2')));
    art.set(1, 0, 0, cell('C', Some('1')));
    art.set(1, 1, 0, cell('D', Some('2')));
    assert_eq!(art.pinned(), (false, true));
    let text = art.to_text();
    assert!(text.contains("@color-pin"));
    let back = Art::from_lines(&doc_lines(&text)).unwrap();
    assert_eq!(back.get(1, 0, 0, Cell::default()).text.to_char(), 'C');
    assert_eq!(
        back.get(1, 1, 0, Cell::default()).color.map(|c| c.to_char()),
        Some('2')
    );
}

#[test]
fn search_or_create_reuses_existing_mapping() {
    let mut art = Art::new(1, 2, 1, Cell::default());
    let pair = ColorPair::parse("fg:cyan").unwrap();
    let n1 = art.search_or_create_color_map(pair);
    let n2 = art.search_or_create_color_map(pair);
    assert_eq!(n1.to_char(), n2.to_char());
    assert_eq!(art.get_color_map(n1), pair);
}

#[test]
fn attach_block_round_trips() {
    let lines = doc_lines("@3a\ntitle t\n\n@attach\npayload line\n\n@body\nZ\n\n");
    let art = Art::from_lines(&lines).unwrap();
    let text = art.to_text();
    assert!(text.contains("@attach\npayload line\n"));
    let back = Art::from_lines(&doc_lines(&text)).unwrap();
    assert_eq!(back.to_text(), text);
}

#[test]
fn header_errors_have_their_variants() {
    let lines = doc_lines("@3a\nnovalue\n\n@body\nZ\n\n");
    assert!(matches!(Art::from_lines(&lines), Err(Error::HeaderKeyWithoutValue(_))));
    let lines = doc_lines("@3a\nloop maybe\n\n@body\nZ\n\n");
    assert!(matches!(Art::from_lines(&lines), Err(Error::HeaderFlagKey(_))));
    let lines = doc_lines("@3a\npreview many\n\n@body\nZ\n\n");
    assert!(matches!(Art::from_lines(&lines), Err(Error::PreviewParsing(_))));
    let lines = doc_lines("@3a\ncol rr fg:red\n\n@body\nZ\n\n");
    assert!(matches!(Art::from_lines(&lines), Err(Error::StrToCharConversion(2))));
    let lines = doc_lines("@3a\ncol r fg:zap\n\n@body\nZ\n\n");
    assert!(matches!(Art::from_lines(&lines), Err(Error::ColorParsing(_))));
    let lines = doc_lines("@3a\ncol r fg:red fg:blue\n\n@body\nZ\n\n");
    assert!(matches!(Art::from_lines(&lines), Err(Error::ColorDuplicate(_, _))));
}

#[test]
fn comments_attach_and_strip() {
    let lines = doc_lines("@3a\n;; about the title\ntitle T\n;; about r\ncol r fg:red\n\n@body\nZz\n\n");
    let mut art = Art::from_lines(&lines).unwrap();
    let text = art.to_text();
    assert!(text.contains(";;about the title\n") || text.contains(";; about the title\n"));
    art.strip_comments();
    let stripped = art.to_text();
    assert!(!stripped.contains("about the title"));
    assert!(!stripped.contains("about r"));
    assert_eq!(art.get_title_key(), Some("T".to_string()));
}

#[test]
fn tag_editing_round() {
    let mut art = Art::new(1, 1, 1, Cell::default());
    art.add_tag("one");
    art.add_tag("two");
    art.add_tag("one");
    let tags = art.tags();
    assert_eq!(tags.len(), 2);
    assert!(art.contains_tag("one"));
    art.remove_tag("one");
    assert!(!art.contains_tag("one"));
    assert!(art.contains_tag("two"));
    art.remove_all_tags();
    assert!(art.tags().is_empty());
}

#[test]
fn frame_list_edits() {
    let mut art = Art::new(2, 2, 1, Cell::default());
    art.print(0, 0, 0, "ab", None);
    art.print(1, 0, 0, "cd", None);
    art.dup_frame(0);
    assert_eq!(art.frames(), 3);
    assert_eq!(art.get(1, 0, 0, Cell::default()).text.to_char(), 'a');
    art.remove_frame(1);
    assert_eq!(art.frames(), 2);
    art.swap(0, 1);
    assert_eq!(art.get(0, 0, 0, Cell::default()).text.to_char(), 'c');
    art.reverse();
    assert_eq!(art.get(0, 0, 0, Cell::default()).text.to_char(), 'a');
    art.dup_frame(0);
    art.dedup();
    assert_eq!(art.frames(), 2);
    art.rot_forth(1);
    assert_eq!(art.get(0, 0, 0, Cell::default()).text.to_char(), 'c');
    art.rot_back(1);
    assert_eq!(art.get(0, 0, 0, Cell::default()).text.to_char(), 'a');
    art.crop(0, 0, 1, 1);
    assert_eq!(art.width(), 1);
    assert_eq!(art.get(0, 0, 0, Cell::default()).text.to_char(), 'b');
    art.make_sure_frame_exist(4);
    assert_eq!(art.frames(), 5);
    art.slice(1, 3);
    assert_eq!(art.frames(), 3);
}
