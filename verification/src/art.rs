//! The aggregate root: a complete animation with header, frames, an
//! optional attached line and named extra blocks, with the whole-document
//! parser and writer.

use vstd::prelude::*;

use crate::chars::{char_allowed, normalize_chars, Char};
use crate::colors::ColorPair;
use crate::content::{
    grid_contains_color, merge_frames, BodyMode, Cell, Frame, Frames, LegacyHeaderInfo,
};
use crate::delay::Delay;
use crate::error::Error;
use crate::header::{author_entries, authors_contain, ExtraHeaderKey, Header, Tagline};
use crate::palette::{pal_contains, PalEntry, Palette};
use crate::text::{chars_to_string, str_to_chars, trim_chars};

verus! {

/// A named free-text block kept verbatim for round-tripping.
#[derive(Debug, Clone)]
pub struct ExtraBlock {
    /// The block name, without the `@`.
    pub title: String,
    /// The block's lines, each newline-terminated.
    pub content: String,
}

/// A complete animation.
pub struct Art {
    pub(crate) header: Header,
    pub(crate) frames: Frames,
    pub(crate) attached: Option<String>,
    pub(crate) extra: Vec<ExtraBlock>,
}

/// The candidate order for a fresh color name: friendly letters first,
/// then punctuation, then hexadecimal digits.
pub open spec fn spec_free_order() -> Seq<char> {
    "ghijklmnopqrstuvwxyzABCDEFGHIJKLMNOPQRSTUVWXYZ"@
        + "_-+,.~?!@#$%^&*`<>()[]{}\"'\\|/:;"@ + "_0123456789abcdef"@
}

/// The first candidate whose validated form names no used color, in order.
pub open spec fn spec_first_free(a: Art, order: Seq<char>) -> Option<char>
    decreases order.len(),
{
    if order.len() == 0 {
        None
    } else {
        match crate::chars::spec_check_char(order[0]) {
            Some(k) => if !a.spec_uses_color_name(k) {
                Some(k)
            } else {
                spec_first_free(a, order.drop_first())
            },
            None => spec_first_free(a, order.drop_first()),
        }
    }
}

/// A hit of the candidate scan is an allowed and unused name.
proof fn lemma_first_free_some(a: Art, s: Seq<char>)
    ensures
        spec_first_free(a, s) matches Some(c) ==> (crate::chars::char_allowed(c)
            && !a.spec_uses_color_name(c)),
    decreases s.len(),
{
    if s.len() > 0 {
        lemma_first_free_some(a, s.drop_first());
        crate::chars::lemma_check_char_allowed(s[0]);
    }
}

/// Scanning a concatenation finds the first part's hit when there is one.
proof fn lemma_first_free_concat(a: Art, s1: Seq<char>, s2: Seq<char>)
    ensures
        spec_first_free(a, s1 + s2) == (match spec_first_free(a, s1) {
            Some(c) => Some(c),
            None => spec_first_free(a, s2),
        }),
    decreases s1.len(),
{
    if s1.len() == 0 {
        assert(s1 + s2 =~= s2);
    } else {
        assert((s1 + s2).drop_first() =~= s1.drop_first() + s2);
        assert((s1 + s2)[0] == s1[0]);
        lemma_first_free_concat(a, s1.drop_first(), s2);
    }
}

impl Art {
    /// The header, as the contracts speak of it.
    pub closed spec fn spec_header(&self) -> Header {
        self.header
    }

    /// The frames, as the contracts speak of them.
    pub closed spec fn spec_frames(&self) -> Frames {
        self.frames
    }

    /// The attached line, if any.
    pub closed spec fn spec_attached(&self) -> Option<String> {
        self.attached
    }

    /// The extra blocks.
    pub closed spec fn spec_extra(&self) -> Seq<ExtraBlock> {
        self.extra@
    }

    /// The invariant: the header and the frames are well formed.
    pub open spec fn wf(&self) -> bool {
        &&& self.spec_header().wf()
        &&& self.spec_frames().wf()
    }

    /// Whether any color name is in use: as a palette key or as a color
    /// reference in any frame.
    pub open spec fn spec_uses_color_name(&self, c: char) -> bool {
        ||| pal_contains(self.spec_header().palette.entries(), c)
        ||| exists|i: int|
            0 <= i < self.spec_frames().spec_frames().len() && grid_contains_color(
                (#[trigger] self.spec_frames().spec_frames()[i]).grid(),
                c,
            )
    }

    /// A new animation of identical filled frames under an empty header.
    pub fn new(frames: usize, width: usize, height: usize, fill: Cell) -> (r: Art)
        requires
            width * height <= usize::MAX,
            crate::content::cell_wf(fill),
        ensures
            r.wf(),
            r.spec_frames().spec_width() == width,
            r.spec_frames().spec_height() == height,
            r.spec_frames().spec_frames().len() == frames,
            r.spec_header().palette.entries() == Seq::<PalEntry>::empty(),
            r.spec_header().title is None,
            r.spec_attached() is None,
            r.spec_extra().len() == 0,
            forall|i: int, x: int, y: int|
                0 <= i < frames && 0 <= x < height && 0 <= y < width ==> (
                #[trigger] r.spec_frames().spec_frames()[i].grid()[x][y]) == fill,
    {
        Art {
            header: Header::new(),
            frames: Frames::new(frames, width, height, fill),
            attached: None,
            extra: Vec::new(),
        }
    }

    /// The number of frames.
    pub fn frames(&self) -> (r: usize)
        ensures
            r == self.spec_frames().spec_frames().len(),
    {
        self.frames.frames()
    }

    /// The width in columns.
    pub fn width(&self) -> (r: usize)
        ensures
            r == self.spec_frames().spec_width(),
    {
        self.frames.width()
    }

    /// The height in rows.
    pub fn height(&self) -> (r: usize)
        ensures
            r == self.spec_frames().spec_height(),
    {
        self.frames.height()
    }

    /// A copy of one frame, when the index exists.
    pub fn frame(&self, frame: usize) -> (r: Option<Frame>)
        requires
            self.wf(),
        ensures
            (r is Some) == (frame < self.spec_frames().spec_frames().len()),
            r matches Some(f) ==> f.grid() == self.spec_frames().spec_frames()[frame as int].grid()
                && f.wf(),
    {
        self.frames.frame_copy(frame)
    }

    /// Whether the document carries colors: the header flag when set, else
    /// whether any frame or palette entry carries color.
    pub fn color(&self) -> (r: bool)
        requires
            self.wf(),
        ensures
            r == spec_art_color(*self),
    {
        match self.header.colors {
            Some(colors) => colors,
            None => self.frames.color() || self.header.palette.len() > 0,
        }
    }

    /// The cell of one frame at a position, or the default out of bounds.
    pub fn get(&self, frame: usize, column: usize, row: usize, default: Cell) -> (r: Cell)
        requires
            self.wf(),
        ensures
            r == if frame < self.spec_frames().spec_frames().len() && row
                < self.spec_frames().spec_height() && column < self.spec_frames().spec_width() {
                self.spec_frames().spec_frames()[frame as int].grid()[row as int][column as int]
            } else {
                default
            },
    {
        self.frames.get(frame, column, row, default)
    }

    /// Sets the cell of one frame at a position; out of bounds, nothing
    /// changes.
    pub fn set(&mut self, frame: usize, column: usize, row: usize, new: Cell)
        requires
            old(self).wf(),
            crate::content::cell_wf(new),
        ensures
            final(self).wf(),
            final(self).spec_header() == old(self).spec_header(),
            final(self).spec_frames().spec_width() == old(self).spec_frames().spec_width(),
            final(self).spec_frames().spec_height() == old(self).spec_frames().spec_height(),
            final(self).spec_frames().spec_frames().len() == old(
                self).spec_frames().spec_frames().len(),
            frame < old(self).spec_frames().spec_frames().len() ==> final(
                self).spec_frames().spec_frames()[frame as int].grid() == (if row < old(
                self).spec_frames().spec_height() && column < old(self).spec_frames().spec_width() {
                old(self).spec_frames().spec_frames()[frame as int].grid().update(
                    row as int,
                    old(self).spec_frames().spec_frames()[frame as int].grid()[row as int].update(
                        column as int,
                        new,
                    ),
                )
            } else {
                old(self).spec_frames().spec_frames()[frame as int].grid()
            }),
    {
        self.frames.set(frame, column, row, new);
    }

    /// Whether text and color are each identical across all frames; fewer
    /// than two frames count as unpinned.
    pub fn pinned(&self) -> (r: (bool, bool))
        requires
            self.wf(),
        ensures
            self.spec_frames().spec_frames().len() < 2 ==> r == (false, false),
            self.spec_frames().spec_frames().len() >= 2 ==> {
                &&& r.0 == crate::content::spec_text_pinned(
                    self.spec_frames().spec_frames(),
                    self.spec_frames().spec_width(),
                    self.spec_frames().spec_height(),
                )
                &&& r.1 == crate::content::spec_color_pinned(
                    self.spec_frames().spec_frames(),
                    self.spec_frames().spec_width(),
                    self.spec_frames().spec_height(),
                )
            },
    {
        self.frames.pinned()
    }

    /// Pins the color channel of one frame onto every frame.
    pub fn pin_color(&mut self, frame: usize) -> (r: Result<(), Error>)
        requires
            old(self).wf(),
            old(self).spec_frames().spec_text_pin() is None,
            old(self).spec_frames().spec_color_pin() is None,
        ensures
            final(self).wf(),
            r is Ok,
            final(self).spec_header() == old(self).spec_header(),
            frame < old(self).spec_frames().spec_frames().len() ==> forall|i: int, x: int, y: int|
                0 <= i < old(self).spec_frames().spec_frames().len() && 0 <= x < old(
                    self).spec_frames().spec_height() && 0 <= y < old(self).spec_frames().spec_width()
                    ==> (#[trigger] final(self).spec_frames().spec_frames()[i].grid()[x][y]) == (
                Cell {
                    text: old(self).spec_frames().spec_frames()[i].grid()[x][y].text,
                    color: old(
                        self).spec_frames().spec_frames()[frame as int].grid()[x][y].color,
                }),
    {
        self.frames.pin_color(frame)
    }

    /// Pins the text channel of one frame onto every frame.
    pub fn pin_text(&mut self, frame: usize) -> (r: Result<(), Error>)
        requires
            old(self).wf(),
            old(self).spec_frames().spec_text_pin() is None,
            old(self).spec_frames().spec_color_pin() is None,
        ensures
            final(self).wf(),
            r is Ok,
            final(self).spec_header() == old(self).spec_header(),
            frame < old(self).spec_frames().spec_frames().len() ==> forall|i: int, x: int, y: int|
                0 <= i < old(self).spec_frames().spec_frames().len() && 0 <= x < old(
                    self,
                ).spec_frames().spec_height() && 0 <= y < old(self).spec_frames().spec_width()
                    ==> (#[trigger] final(self).spec_frames().spec_frames()[i].grid()[x][y]) == (
                Cell {
                    text: old(
                        self).spec_frames().spec_frames()[frame as int].grid()[x][y].text,
                    color: old(self).spec_frames().spec_frames()[i].grid()[x][y].color,
                }),
    {
        self.frames.pin_text(frame)
    }
}

/// Relies on `char::from_u32`: `Some` exactly for valid scalar values,
/// returning the character with that code.
#[verifier::external_body]
fn char_from_u32(code: u32) -> (r: Option<char>)
    ensures
        r matches Some(c) ==> c as u32 == code,
        r is None ==> (0xD800 <= code <= 0xDFFF || code > 0x10FFFF),
{
    char::from_u32(code)
}

impl Art {
    /// Whether a color name is in use as a palette key or in any frame.
    pub fn contains_color(&self, name: Char) -> (r: bool)
        requires
            self.wf(),
        ensures
            r == self.spec_uses_color_name(name@),
    {
        self.header.contains_color(name) || self.frames.contains_color(name)
    }

    /// Whether any frame holds the given cell.
    pub fn contains(&self, cell: Cell) -> (r: bool)
        requires
            self.wf(),
        ensures
            r == exists|i: int|
                0 <= i < self.spec_frames().spec_frames().len() && crate::content::grid_contains(
                    (#[trigger] self.spec_frames().spec_frames()[i]).grid(),
                    cell,
                ),
    {
        self.frames.contains(cell)
    }

    /// Whether any frame holds the given text character.
    pub fn contains_text(&self, ch: Char) -> (r: bool)
        requires
            self.wf(),
        ensures
            r == exists|i: int|
                0 <= i < self.spec_frames().spec_frames().len()
                    && crate::content::grid_contains_text(
                    (#[trigger] self.spec_frames().spec_frames()[i]).grid(),
                    ch@,
                ),
    {
        self.frames.contains_text(ch)
    }

    /// Scans one candidate set in order for an unused validated name.
    fn scan_set(&self, set: &str) -> (r: Option<Char>)
        requires
            self.wf(),
        ensures
            (match spec_first_free(*self, set@) {
                Some(c) => r matches Some(n) && n@ == c && n.wf(),
                None => r is None,
            }),
    {
        let cv = str_to_chars(set);
        let mut i: usize = 0;
        proof {
            assert(cv@.skip(0) =~= cv@);
        }
        while i < cv.len()
            invariant
                self.wf(),
                i <= cv@.len(),
                cv@ == set@,
                spec_first_free(*self, set@) == spec_first_free(*self, cv@.skip(i as int)),
            decreases cv@.len() - i,
        {
            proof {
                assert(cv@.skip(i as int)[0] == cv@[i as int]);
                assert(cv@.skip(i as int).drop_first() =~= cv@.skip(i + 1));
            }
            match Char::new(cv[i]) {
                Ok(name) => {
                    if !self.contains_color(name) {
                        return Some(name);
                    }
                },
                Err(_) => {},
            }
            i = i + 1;
        }
        proof {
            assert(cv@.skip(cv@.len() as int) =~= Seq::<char>::empty());
        }
        None
    }

    /// A color name not yet used as a palette key or in any frame: the
    /// first hit of the curated candidate order, else the smallest free
    /// allowed scalar found by a scan of the whole Unicode space.
    pub fn free_color_name(&self) -> (r: Char)
        requires
            self.wf(),
            exists|c: char| char_allowed(c) && !self.spec_uses_color_name(c),
        ensures
            r.wf(),
            !self.spec_uses_color_name(r@),
            (spec_first_free(*self, spec_free_order()) matches Some(c) ==> r@ == c),
            (spec_first_free(*self, spec_free_order()) is None ==> forall|c: char|
                char_allowed(c) && (c as u32) < (r@ as u32) ==> self.spec_uses_color_name(c)),
    {
        let ghost s1 = "ghijklmnopqrstuvwxyzABCDEFGHIJKLMNOPQRSTUVWXYZ"@;
        let ghost s2 = "_-+,.~?!@#$%^&*`<>()[]{}\"'\\|/:;"@;
        let ghost s3 = "_0123456789abcdef"@;
        proof {
            lemma_first_free_concat(*self, s1 + s2, s3);
            lemma_first_free_concat(*self, s1, s2);
            assert(spec_free_order() == (s1 + s2) + s3);
            lemma_first_free_some(*self, spec_free_order());
        }
        match self.scan_set("ghijklmnopqrstuvwxyzABCDEFGHIJKLMNOPQRSTUVWXYZ") {
            Some(n) => {
                return n;
            },
            None => {},
        }
        match self.scan_set("_-+,.~?!@#$%^&*`<>()[]{}\"'\\|/:;") {
            Some(n) => {
                return n;
            },
            None => {},
        }
        match self.scan_set("_0123456789abcdef") {
            Some(n) => {
                return n;
            },
            None => {},
        }
        let mut code: u32 = 0;
        while code < 0x110000
            invariant
                self.wf(),
                spec_first_free(*self, spec_free_order()) is None,
                code <= 0x110000,
                forall|c: char|
                    (c as u32) < code && char_allowed(c) ==> #[trigger] self.spec_uses_color_name(
                        c,
                    ),
            decreases 0x110000 - code,
        {
            match char_from_u32(code) {
                Some(ch) => {
                    proof {
                        vstd::utf8::char_u32_cast(ch, code);
                    }
                    match Char::new(ch) {
                        Ok(name) => {
                            if !self.contains_color(name) {
                                proof {
                                    crate::chars::lemma_check_char_allowed(ch);
                                }
                                return name;
                            }
                            proof {
                                assert forall|c: char|
                                    (c as u32) < code + 1 && char_allowed(c) implies #[trigger] self.spec_uses_color_name(c) by {
                                    if c as u32 == code {
                                        vstd::utf8::char_u32_cast(c, code);
                                        assert(c == ch);
                                        assert(crate::chars::spec_check_char(ch) == Some(ch));
                                        assert(name@ == c);
                                    }
                                }
                            }
                        },
                        Err(_) => {
                            proof {
                                assert forall|c: char|
                                    (c as u32) < code + 1 && char_allowed(c) implies #[trigger] self.spec_uses_color_name(c) by {
                                    if c as u32 == code {
                                        vstd::utf8::char_u32_cast(c, code);
                                        assert(c == ch);
                                    }
                                }
                            }
                        },
                    }
                },
                None => {
                    proof {
                        assert forall|c: char|
                            (c as u32) < code + 1 && char_allowed(c) implies #[trigger] self.spec_uses_color_name(c) by {
                            if c as u32 == code {
                                assert(crate::chars::is_rejected(c as u32));
                                assert(!char_allowed(c));
                            }
                        }
                    }
                },
            }
            code = code + 1;
        }
        proof {
            let c = choose|c: char| char_allowed(c) && !self.spec_uses_color_name(c);
            vstd::utf8::char_is_scalar(c);
            assert((c as u32) < 0x110000);
            assert(self.spec_uses_color_name(c));
            assert(false);
        }
        Char::space()
    }

    /// The first palette key mapped to the pair, in insertion order.
    pub fn search_color_map(&self, col: ColorPair) -> (r: Option<Char>)
        requires
            self.wf(),
        ensures
            match r {
                Some(k) => crate::palette::spec_search_color(
                    self.spec_header().palette.entries(),
                    col,
                ) == Some(k@) && k.wf(),
                None => crate::palette::spec_search_color(
                    self.spec_header().palette.entries(),
                    col,
                ) is None,
            },
    {
        self.header.search_color_map(col)
    }

    /// The palette key mapped to the pair, creating a fresh mapping under a
    /// free name when none exists yet.
    pub fn search_or_create_color_map(&mut self, col: ColorPair) -> (r: Char)
        requires
            old(self).wf(),
            exists|c: char| char_allowed(c) && !old(self).spec_uses_color_name(c),
        ensures
            final(self).wf(),
            r.wf(),
            crate::palette::spec_get_color(final(self).spec_header().palette.entries(), r@) == col
                || crate::palette::spec_search_color(old(self).spec_header().palette.entries(), col)
                == Some(r@),
    {
        match self.header.search_color_map(col) {
            Some(name) => name,
            None => {
                let name = self.free_color_name();
                self.header.set_color_map(name, col);
                proof {
                    lemma_set_color_get(old(self).spec_header().palette.entries(), name@, col);
                }
                name
            },
        }
    }

    /// The color pair a character resolves to.
    pub fn get_color_map(&self, name: Char) -> (r: ColorPair)
        ensures
            r == crate::palette::spec_get_color(self.spec_header().palette.entries(), name@),
    {
        self.header.get_color_map(name)
    }

    /// Sets a character's color pair in the palette.
    pub fn set_color_map(&mut self, name: Char, col: ColorPair)
        requires
            old(self).wf(),
            name.wf(),
        ensures
            final(self).wf(),
            final(self).spec_frames() == old(self).spec_frames(),
            final(self).spec_header().palette.entries() == crate::palette::spec_set_color(
                old(self).spec_header().palette.entries(),
                name@,
                col,
            ),
    {
        self.header.set_color_map(name, col);
    }

    /// Removes a character's palette entry and every reference to it in the
    /// frames.
    pub fn remove_color_map(&mut self, name: Char)
        requires
            old(self).wf(),
        ensures
            final(self).wf(),
            !pal_contains(final(self).spec_header().palette.entries(), name@),
            forall|i: int|
                0 <= i < final(self).spec_frames().spec_frames().len() ==> !grid_contains_color(
                    (#[trigger] final(self).spec_frames().spec_frames()[i]).grid(),
                    name@,
                ),
    {
        let ghost es = self.header.palette.entries();
        self.header.remove_color_map(name);
        proof {
            if pal_contains(es, name@) {
                lemma_remove_color_gone(es, name@);
            }
        }
        self.frames.remove_color(name);
        proof {
            assert forall|i: int|
                0 <= i < self.frames.spec_frames().len() implies !grid_contains_color(
                (#[trigger] self.frames.spec_frames()[i]).grid(),
                name@,
            ) by {
                let f0 = old(self).spec_frames().spec_frames()[i];
                let f1 = self.frames.spec_frames()[i];
                assert(crate::content::frame_color_removed(f0, f1, name@));
                if grid_contains_color(f1.grid(), name@) {
                    let (r, c) = choose|r: int, c: int|
                        0 <= r < f1.grid().len() && 0 <= c < f1.grid()[r].len() && ((
                        #[trigger] f1.grid()[r][c]).color matches Some(x) && x@ == name@);
                    assert(f1.grid()[r][c] == crate::content::cell_remove_color(
                        f0.grid()[r][c],
                        name@,
                    ));
                }
            }
        }
    }
}

/// After removing a present key, the palette no longer contains it.
proof fn lemma_remove_color_gone(es: Seq<PalEntry>, k: char)
    requires
        crate::palette::pal_keys_unique(es),
        pal_contains(es, k),
    ensures
        !pal_contains(es.remove(crate::palette::pal_idx(es, k)), k),
{
    let i = crate::palette::pal_idx(es, k);
    let s2 = es.remove(i);
    assert forall|j: int| 0 <= j < s2.len() implies (#[trigger] s2[j]).0 != k by {
        if j < i {
            assert(s2[j] == es[j]);
        } else {
            assert(s2[j] == es[j + 1]);
        }
    }
}

/// After setting a non-built-in pair, the key resolves to it.
proof fn lemma_set_color_get(es: Seq<PalEntry>, k: char, col: ColorPair)
    requires
        crate::palette::pal_keys_unique(es),
    ensures
        crate::palette::spec_get_color(crate::palette::spec_set_color(es, k, col), k) == col,
{
    let es2 = crate::palette::spec_set_color(es, k, col);
    if col == crate::colors::spec_pair_builtin(k) {
        if pal_contains(es, k) {
            let i = crate::palette::pal_idx(es, k);
            assert(0 <= i < es.len() && es[i].0 == k);
            lemma_remove_color_gone(es, k);
            assert(!pal_contains(es2, k));
        } else {
            assert(!pal_contains(es2, k));
        }
        assert(crate::palette::spec_get_color(es2, k) == crate::colors::spec_pair_builtin(k));
    } else {
        if pal_contains(es, k) {
            let i = crate::palette::pal_idx(es, k);
            assert(0 <= i < es.len() && es[i].0 == k);
            assert(es2 == es.update(i, (k, col, Seq::<Seq<char>>::empty())));
            assert(es2[i].0 == k && es2[i].1 == col);
            assert(pal_contains(es2, k));
            let j = crate::palette::pal_idx(es2, k);
            assert(0 <= j < es2.len() && es2[j].0 == k);
            if j != i {
                assert(es2[j].0 == es[j].0);
                assert(es[j].0 != es[i].0);
            }
        } else {
            assert(es2 == es.push((k, col, Seq::<Seq<char>>::empty())));
            assert(es2[es.len() as int].0 == k && es2[es.len() as int].1 == col);
            assert(pal_contains(es2, k));
            let j = crate::palette::pal_idx(es2, k);
            assert(0 <= j < es2.len() && es2[j].0 == k);
            if j != es.len() {
                assert(es2[j] == es[j]);
                assert(pal_contains(es, k)) by {
                    assert(es[j].0 == k);
                }
            }
        }
    }
}

impl Art {
    /// The display line combining title and authors.
    pub fn title_line(&self) -> (r: String)
        ensures
            r@ == crate::header::spec_title_line(self.spec_header()),
    {
        self.header.title_line()
    }

    /// All authors, original ones first, joined with `, `.
    pub fn authors_line(&self) -> (r: String)
        ensures
            r@ == crate::header::spec_join_names(
                crate::header::spec_all_author_names(self.spec_header()),
            ),
    {
        self.header.authors_line()
    }

    /// Removes every tag line.
    pub fn remove_all_tags(&mut self)
        requires
            old(self).wf(),
        ensures
            final(self).wf(),
            final(self).spec_header().tags@.len() == 0,
    {
        self.header.remove_all_tags();
    }

    /// Removes one tag from every tag line.
    pub fn remove_tag(&mut self, tag: &str)
        requires
            old(self).wf(),
        ensures
            final(self).wf(),
            forall|i: int|
                0 <= i < final(self).spec_header().tags@.len()
                    ==> !crate::header::tags_contain(
                    (#[trigger] final(self).spec_header().tags@[i]).spec_tags(),
                    tag@,
                ),
    {
        self.header.remove_tag(tag);
    }

    /// Adds a tag if it is not blank and not yet present.
    pub fn add_tag(&mut self, tag: &str)
        requires
            old(self).wf(),
        ensures
            final(self).wf(),
            crate::chars::normalize_seq(tag@).len() > 0 ==> exists|i: int|
                0 <= i < final(self).spec_header().tags@.len() && crate::header::tags_contain(
                    (#[trigger] final(self).spec_header().tags@[i]).spec_tags(),
                    crate::chars::normalize_seq(tag@),
                ),
    {
        self.header.add_tag(tag);
    }

    /// Every distinct tag, first occurrence first.
    pub fn tags(&self) -> (r: Vec<String>)
        ensures
            forall|i: int, j: int|
                0 <= i < j < r@.len() ==> (#[trigger] r@[i])@ != (#[trigger] r@[j])@,
    {
        self.header.tags()
    }

    /// Whether any tag line carries the tag.
    pub fn contains_tag(&self, tag: &str) -> (r: bool)
        ensures
            r == exists|i: int|
                0 <= i < self.spec_header().tags@.len() && crate::header::tags_contain(
                    (#[trigger] self.spec_header().tags@[i]).spec_tags(),
                    tag@,
                ),
    {
        self.header.contains_tag(tag)
    }

    /// Removes every comment from the header.
    pub fn strip_comments(&mut self)
        requires
            old(self).wf(),
        ensures
            final(self).wf(),
            final(self).spec_frames() == old(self).spec_frames(),
            final(self).spec_header().title == old(self).spec_header().title,
            final(self).spec_header().title_comments@.len() == 0,
            final(self).spec_header().trailing_comments@.len() == 0,
    {
        self.header.strip_comments();
    }

    /// The title key.
    pub fn get_title_key(&self) -> (r: Option<String>)
        ensures
            match (r, self.spec_header().title) {
                (Some(a), Some(b)) => a@ == b@,
                (None, None) => true,
                _ => false,
            },
    {
        match &self.header.title {
            Some(t) => Some(crate::text::string_from_str(t.as_str())),
            None => None,
        }
    }

    /// Sets the title key.
    pub fn set_title_key(&mut self, title: Option<String>)
        requires
            old(self).wf(),
        ensures
            final(self).wf(),
            final(self).spec_header().title == title,
            final(self).spec_frames() == old(self).spec_frames(),
    {
        self.header.title = title;
    }

    /// The explicit colors key.
    pub fn get_colors_key(&self) -> (r: Option<bool>)
        ensures
            r == self.spec_header().colors,
    {
        self.header.colors
    }

    /// Sets the explicit colors key.
    pub fn set_colors_key(&mut self, colors: Option<bool>)
        requires
            old(self).wf(),
        ensures
            final(self).wf(),
            final(self).spec_header().colors == colors,
            final(self).spec_frames() == old(self).spec_frames(),
    {
        self.header.colors = colors;
    }

    /// The source key.
    pub fn get_src_key(&self) -> (r: Option<String>)
        ensures
            match (r, self.spec_header().src) {
                (Some(a), Some(b)) => a@ == b@,
                (None, None) => true,
                _ => false,
            },
    {
        match &self.header.src {
            Some(t) => Some(crate::text::string_from_str(t.as_str())),
            None => None,
        }
    }

    /// Sets the source key.
    pub fn set_src_key(&mut self, src: Option<String>)
        requires
            old(self).wf(),
        ensures
            final(self).wf(),
            final(self).spec_header().src == src,
            final(self).spec_frames() == old(self).spec_frames(),
    {
        self.header.src = src;
    }

    /// The editor key.
    pub fn get_editor_key(&self) -> (r: Option<String>)
        ensures
            match (r, self.spec_header().editor) {
                (Some(a), Some(b)) => a@ == b@,
                (None, None) => true,
                _ => false,
            },
    {
        match &self.header.editor {
            Some(t) => Some(crate::text::string_from_str(t.as_str())),
            None => None,
        }
    }

    /// Sets the editor key.
    pub fn set_editor_key(&mut self, editor: Option<String>)
        requires
            old(self).wf(),
        ensures
            final(self).wf(),
            final(self).spec_header().editor == editor,
            final(self).spec_frames() == old(self).spec_frames(),
    {
        self.header.editor = editor;
    }

    /// The license key.
    pub fn get_license_key(&self) -> (r: Option<String>)
        ensures
            match (r, self.spec_header().license) {
                (Some(a), Some(b)) => a@ == b@,
                (None, None) => true,
                _ => false,
            },
    {
        match &self.header.license {
            Some(t) => Some(crate::text::string_from_str(t.as_str())),
            None => None,
        }
    }

    /// Sets the license key.
    pub fn set_license_key(&mut self, license: Option<String>)
        requires
            old(self).wf(),
        ensures
            final(self).wf(),
            final(self).spec_header().license == license,
            final(self).spec_frames() == old(self).spec_frames(),
    {
        self.header.license = license;
    }

    /// Whether the animation loops; the default is yes.
    pub fn get_loop_key(&self) -> (r: bool)
        ensures
            r == match self.spec_header().loop_flag {
                Some(f) => f,
                None => true,
            },
    {
        match self.header.loop_flag {
            Some(flag) => flag,
            None => true,
        }
    }

    /// Sets the loop flag: an explicit `true` without comments is left
    /// implicit.
    pub fn set_loop_key(&mut self, flag: bool)
        requires
            old(self).wf(),
        ensures
            final(self).wf(),
            final(self).spec_header().loop_flag == if !flag || old(
                self,
            ).spec_header().loop_comments@.len() > 0 {
                Some(flag)
            } else {
                Option::<bool>::None
            },
            final(self).spec_frames() == old(self).spec_frames(),
    {
        if !flag || self.header.loop_comments.len() > 0 {
            self.header.loop_flag = Some(flag);
        } else {
            self.header.loop_flag = None;
        }
    }

    /// The preview frame index, when it points at an existing frame.
    pub fn get_preview_key(&self) -> (r: Option<usize>)
        ensures
            r == match self.spec_header().preview {
                Some(p) => if p < self.spec_frames().spec_frames().len() {
                    Some(p)
                } else {
                    Option::<usize>::None
                },
                None => Option::<usize>::None,
            },
    {
        match self.header.preview {
            Some(preview) => {
                if preview < self.frames.frames() {
                    Some(preview)
                } else {
                    None
                }
            },
            None => None,
        }
    }

    /// Sets the preview frame index; an index past the frames is ignored.
    pub fn set_preview_key(&mut self, preview: Option<usize>)
        requires
            old(self).wf(),
        ensures
            final(self).wf(),
            final(self).spec_header().preview == match preview {
                Some(p) => if p < old(self).spec_frames().spec_frames().len() {
                    Some(p)
                } else {
                    old(self).spec_header().preview
                },
                None => Option::<usize>::None,
            },
            final(self).spec_frames() == old(self).spec_frames(),
    {
        match preview {
            Some(p) => {
                if p < self.frames.frames() {
                    self.header.preview = Some(p);
                }
            },
            None => {
                self.header.preview = None;
            },
        }
    }

    /// The global delay in milliseconds; 50 when unset.
    pub fn get_global_delay(&self) -> (r: usize)
        ensures
            r == match self.spec_header().delay {
                Some(d) => if d.spec_global() == 0 {
                    50usize
                } else {
                    d.spec_global()
                },
                None => 50usize,
            },
    {
        match &self.header.delay {
            Some(d) => d.get_global(),
            None => 50,
        }
    }

    /// The delay of one frame in milliseconds; 50 when unset.
    pub fn get_frame_delay(&self, frame: usize) -> (r: usize)
        ensures
            r == match self.spec_header().delay {
                Some(d) => d.spec_frame_delay(frame),
                None => 50usize,
            },
    {
        match &self.header.delay {
            Some(d) => d.get_frame(frame),
            None => 50,
        }
    }

    /// Sets the global delay; setting the default on an absent key keeps it
    /// absent.
    pub fn set_global_delay(&mut self, global: usize)
        requires
            old(self).wf(),
        ensures
            final(self).wf(),
            final(self).spec_frames() == old(self).spec_frames(),
            match final(self).spec_header().delay {
                Some(d) => d.spec_global() == (if global == 0 {
                    50usize
                } else {
                    global
                }),
                None => old(self).spec_header().delay is None && global == 50,
            },
    {
        match &mut self.header.delay {
            Some(d) => {
                d.set_global(global);
            },
            None => {
                if global == 50 {
                    return ;
                }
                self.header.delay = Some(Delay::new(global));
                if global == 0 {
                    match &mut self.header.delay {
                        Some(d) => d.set_global(0),
                        None => (),
                    }
                }
            },
        }
    }

    /// Sets one frame's delay override; on an absent key, only for an
    /// existing frame.
    pub fn set_frame_delay(&mut self, frame: usize, delay: usize)
        requires
            old(self).wf(),
        ensures
            final(self).wf(),
            final(self).spec_frames() == old(self).spec_frames(),
            old(self).spec_header().delay is Some || frame < old(
                self,
            ).spec_frames().spec_frames().len() ==> match final(self).spec_header().delay {
                Some(d) => crate::delay::spec_find_delay(d.overrides(), frame) == (if delay == 0 {
                    Option::<usize>::None
                } else {
                    Some(delay)
                }),
                None => false,
            },
    {
        match &mut self.header.delay {
            Some(d) => {
                d.set_frame(frame, delay);
            },
            None => {
                if frame >= self.frames.frames() {
                    return ;
                }
                let mut d = Delay::new(50);
                d.set_frame(frame, delay);
                self.header.delay = Some(d);
            },
        }
    }

    /// Replaces the delay configuration; clearing it also clears its
    /// comments.
    pub fn reset_delays(&mut self, delay: Option<Delay>)
        requires
            old(self).wf(),
            delay matches Some(d) ==> d.wf(),
        ensures
            final(self).wf(),
            final(self).spec_frames() == old(self).spec_frames(),
            final(self).spec_header().delay == delay,
            delay is None ==> final(self).spec_header().delay_comments@.len() == 0,
    {
        match &delay {
            None => {
                self.header.delay_comments = Vec::new();
            },
            Some(_) => {},
        }
        self.header.delay = delay;
    }

    /// The unrecognized header key lines.
    pub fn get_extra_keys(&self) -> (r: Vec<ExtraHeaderKey>)
        ensures
            r@.len() == self.spec_header().extra_keys@.len(),
            forall|i: int|
                0 <= i < r@.len() ==> (#[trigger] r@[i]).line@
                    == self.spec_header().extra_keys@[i].line@,
    {
        let mut out: Vec<ExtraHeaderKey> = Vec::new();
        let mut i: usize = 0;
        while i < self.header.extra_keys.len()
            invariant
                i <= self.spec_header().extra_keys@.len(),
                out@.len() == i,
                forall|k: int|
                    0 <= k < i ==> (#[trigger] out@[k]).line@
                        == self.spec_header().extra_keys@[k].line@,
            decreases self.header.extra_keys@.len() - i,
        {
            let e = &self.header.extra_keys[i];
            let mut comments: Vec<String> = Vec::new();
            let mut c: usize = 0;
            while c < e.comments.len()
                decreases e.comments@.len() - c,
            {
                comments.push(crate::text::string_from_str(e.comments[c].as_str()));
                c = c + 1;
            }
            out.push(
                ExtraHeaderKey {
                    line: crate::text::string_from_str(e.line.as_str()),
                    comments,
                },
            );
            i = i + 1;
        }
        out
    }

    /// Replaces the unrecognized header key lines.
    pub fn set_extra_keys(&mut self, extra: Vec<ExtraHeaderKey>)
        requires
            old(self).wf(),
        ensures
            final(self).wf(),
            final(self).spec_header().extra_keys == extra,
            final(self).spec_frames() == old(self).spec_frames(),
    {
        self.header.extra_keys = extra;
    }

    /// Replaces the whole palette.
    pub fn set_palette(&mut self, palette: Palette)
        requires
            old(self).wf(),
            palette.wf(),
        ensures
            final(self).wf(),
            final(self).spec_header().palette == palette,
            final(self).spec_frames() == old(self).spec_frames(),
    {
        self.header.palette = palette;
    }

    /// Resets the palette to the built-in mapping only.
    pub fn remove_palette(&mut self)
        requires
            old(self).wf(),
        ensures
            final(self).wf(),
            final(self).spec_header().palette.entries() == Seq::<PalEntry>::empty(),
            final(self).spec_frames() == old(self).spec_frames(),
    {
        self.header.palette = Palette::new();
    }

    /// The current and original authors.
    pub fn get_authors_key(&self) -> (r: Vec<String>)
        ensures
            r@.len() == author_entries(self.spec_header().authors).len(),
            forall|i: int|
                0 <= i < r@.len() ==> (#[trigger] r@[i])@ == author_entries(
                    self.spec_header().authors,
                )[i].0,
    {
        self.author_names(true)
    }

    /// The original authors.
    pub fn get_orig_authors_key(&self) -> (r: Vec<String>)
        ensures
            r@.len() == author_entries(self.spec_header().orig_authors).len(),
            forall|i: int|
                0 <= i < r@.len() ==> (#[trigger] r@[i])@ == author_entries(
                    self.spec_header().orig_authors,
                )[i].0,
    {
        self.author_names(false)
    }

    /// The names of one author list, in order.
    fn author_names(&self, current: bool) -> (r: Vec<String>)
        ensures
            current ==> r@.len() == author_entries(self.spec_header().authors).len() && forall|
                i: int,
            |
                0 <= i < r@.len() ==> (#[trigger] r@[i])@ == author_entries(
                    self.spec_header().authors,
                )[i].0,
            !current ==> r@.len() == author_entries(self.spec_header().orig_authors).len()
                && forall|i: int|
                0 <= i < r@.len() ==> (#[trigger] r@[i])@ == author_entries(
                    self.spec_header().orig_authors,
                )[i].0,
    {
        let m = if current {
            &self.header.authors
        } else {
            &self.header.orig_authors
        };
        let n = crate::header::amap_len(m);
        let mut out: Vec<String> = Vec::new();
        let mut i: usize = 0;
        while i < n
            invariant
                i <= n,
                n == author_entries(*m).len(),
                out@.len() == i,
                forall|k: int|
                    0 <= k < i ==> (#[trigger] out@[k])@ == author_entries(*m)[k].0,
            decreases n - i,
        {
            let e = crate::header::amap_get_index(m, i).unwrap();
            out.push(e.0);
            i = i + 1;
        }
        out
    }

    /// Adds an author if not yet present.
    pub fn add_author(&mut self, author: &str)
        requires
            old(self).wf(),
        ensures
            final(self).wf(),
            final(self).spec_frames() == old(self).spec_frames(),
            authors_contain(author_entries(final(self).spec_header().authors), author@),
            author_entries(final(self).spec_header().authors).len() >= author_entries(
                old(self).spec_header().authors,
            ).len(),
            forall|i: int|
                0 <= i < author_entries(old(self).spec_header().authors).len() ==> (
                #[trigger] author_entries(final(self).spec_header().authors)[i]) == author_entries(
                    old(self).spec_header().authors,
                )[i],
    {
        let name = crate::text::string_from_str(author);
        let ghost es = author_entries(self.header.authors);
        match crate::header::amap_get(&self.header.authors, &name) {
            Some(_) => {},
            None => {
                crate::header::amap_insert(&mut self.header.authors, name, Vec::new());
                proof {
                    crate::header::lemma_authors_push_unique_pub(es, author@);
                    assert(author_entries(self.header.authors)[es.len() as int].0 == author@);
                }
            },
        }
    }

    /// Adds an original author if not yet present.
    pub fn add_orig_author(&mut self, author: &str)
        requires
            old(self).wf(),
        ensures
            final(self).wf(),
            final(self).spec_frames() == old(self).spec_frames(),
            authors_contain(author_entries(final(self).spec_header().orig_authors), author@),
            author_entries(final(self).spec_header().orig_authors).len() >= author_entries(
                old(self).spec_header().orig_authors,
            ).len(),
            forall|i: int|
                0 <= i < author_entries(old(self).spec_header().orig_authors).len() ==> (
                #[trigger] author_entries(final(self).spec_header().orig_authors)[i])
                    == author_entries(old(self).spec_header().orig_authors)[i],
    {
        let name = crate::text::string_from_str(author);
        let ghost es = author_entries(self.header.orig_authors);
        match crate::header::amap_get(&self.header.orig_authors, &name) {
            Some(_) => {},
            None => {
                crate::header::amap_insert(&mut self.header.orig_authors, name, Vec::new());
                proof {
                    crate::header::lemma_authors_push_unique_pub(es, author@);
                    assert(author_entries(self.header.orig_authors)[es.len() as int].0 == author@);
                }
            },
        }
    }

    /// Replaces the author list, comments dropped.
    pub fn set_authors_key(&mut self, authors: &Vec<String>)
        requires
            old(self).wf(),
        ensures
            final(self).wf(),
            final(self).spec_frames() == old(self).spec_frames(),
            forall|i: int|
                0 <= i < authors@.len() ==> authors_contain(
                    author_entries(final(self).spec_header().authors),
                    (#[trigger] authors@[i])@,
                ),
    {
        self.header.authors = crate::header::amap_new();
        let mut i: usize = 0;
        while i < authors.len()
            invariant
                i <= authors@.len(),
                self.wf(),
                self.frames == old(self).frames,
                forall|k: int|
                    0 <= k < i ==> authors_contain(
                        author_entries(self.header.authors),
                        (#[trigger] authors@[k])@,
                    ),
            decreases authors@.len() - i,
        {
            let ghost before = author_entries(self.header.authors);
            self.add_author(authors[i].as_str());
            proof {
                assert forall|k: int|
                    0 <= k < i implies authors_contain(
                    author_entries(self.header.authors),
                    (#[trigger] authors@[k])@,
                ) by {
                    crate::header::lemma_authors_contain_monotone(
                        before,
                        author_entries(self.header.authors),
                        authors@[k]@,
                    );
                }
            }
            i = i + 1;
        }
    }

    /// Replaces the original-author list, comments dropped.
    pub fn set_orig_authors_key(&mut self, authors: &Vec<String>)
        requires
            old(self).wf(),
        ensures
            final(self).wf(),
            final(self).spec_frames() == old(self).spec_frames(),
            forall|i: int|
                0 <= i < authors@.len() ==> authors_contain(
                    author_entries(final(self).spec_header().orig_authors),
                    (#[trigger] authors@[i])@,
                ),
    {
        self.header.orig_authors = crate::header::amap_new();
        let mut i: usize = 0;
        while i < authors.len()
            invariant
                i <= authors@.len(),
                self.wf(),
                self.frames == old(self).frames,
                forall|k: int|
                    0 <= k < i ==> authors_contain(
                        author_entries(self.header.orig_authors),
                        (#[trigger] authors@[k])@,
                    ),
            decreases authors@.len() - i,
        {
            let ghost before = author_entries(self.header.orig_authors);
            self.add_orig_author(authors[i].as_str());
            proof {
                assert forall|k: int|
                    0 <= k < i implies authors_contain(
                    author_entries(self.header.orig_authors),
                    (#[trigger] authors@[k])@,
                ) by {
                    crate::header::lemma_authors_contain_monotone(
                        before,
                        author_entries(self.header.orig_authors),
                        authors@[k]@,
                    );
                }
            }
            i = i + 1;
        }
    }

    /// Removes a name from both author lists.
    pub fn remove_author(&mut self, author: &str)
        requires
            old(self).wf(),
        ensures
            final(self).wf(),
            final(self).spec_frames() == old(self).spec_frames(),
    {
        let name = crate::text::string_from_str(author);
        let ghost es1 = author_entries(self.header.authors);
        crate::header::amap_remove(&mut self.header.authors, &name);
        proof {
            if authors_contain(es1, author@) {
                crate::header::lemma_authors_remove_unique_pub(
                    es1,
                    crate::header::authors_idx(es1, author@),
                );
            }
        }
        let ghost es2 = author_entries(self.header.orig_authors);
        crate::header::amap_remove(&mut self.header.orig_authors, &name);
        proof {
            if authors_contain(es2, author@) {
                crate::header::lemma_authors_remove_unique_pub(
                    es2,
                    crate::header::authors_idx(es2, author@),
                );
            }
        }
    }

    /// Whether a name is an original author and a current author.
    pub fn check_author(&self, author: &str) -> (r: (bool, bool))
        ensures
            r.0 == authors_contain(author_entries(self.spec_header().orig_authors), author@),
            r.1 == authors_contain(author_entries(self.spec_header().authors), author@),
    {
        let name = crate::text::string_from_str(author);
        let in_orig = match crate::header::amap_get(&self.header.orig_authors, &name) {
            Some(_) => true,
            None => false,
        };
        let in_cur = match crate::header::amap_get(&self.header.authors, &name) {
            Some(_) => true,
            None => false,
        };
        (in_orig, in_cur)
    }
}

/// The content of a block: its normalized rows, each newline-terminated.
pub open spec fn spec_block_content(rows: Seq<Seq<char>>) -> Seq<char>
    decreases rows.len(),
{
    if rows.len() == 0 {
        Seq::empty()
    } else {
        spec_block_content(rows.drop_last()) + rows.last() + seq!['\n']
    }
}

impl ExtraBlock {
    /// Reads a block body: normalized lines until a blank one (which is
    /// consumed too), each kept newline-terminated.
    pub fn read(title: String, lines: &Vec<String>, pos: usize) -> (r: (ExtraBlock, usize))
        requires
            pos <= lines@.len(),
        ensures
            r.1 == crate::content::frame_lines_end(crate::text::lines_view(lines@), pos as int),
            r.1 <= lines@.len(),
            r.1 >= pos,
            r.0.title@ == title@,
            r.0.content@ == spec_block_content(
                crate::content::frame_lines(crate::text::lines_view(lines@), pos as int),
            ),
    {
        let (rows, end) = crate::content::take_frame_lines(lines, pos);
        let ghost rs = crate::text::vecs_view(rows@);
        let mut content: Vec<char> = Vec::new();
        let mut i: usize = 0;
        proof {
            assert(spec_block_content(rs.subrange(0, 0)) =~= Seq::<char>::empty());
            assert(content@ =~= spec_block_content(rs.subrange(0, 0)));
        }
        while i < rows.len()
            invariant
                i <= rows@.len(),
                rs == crate::text::vecs_view(rows@),
                content@ == spec_block_content(rs.subrange(0, i as int)),
            decreases rows@.len() - i,
        {
            proof {
                assert(rs.subrange(0, i + 1).drop_last() =~= rs.subrange(0, i as int));
                assert(rs.subrange(0, i + 1).last() == rs[i as int]);
                assert(rs[i as int] == rows@[i as int]@);
            }
            crate::colors::push_all(&mut content, &rows[i]);
            content.push('\n');
            proof {
                assert(content@ =~= spec_block_content(rs.subrange(0, i + 1)));
            }
            i = i + 1;
        }
        proof {
            crate::content::lemma_frame_lines_bound(
                crate::text::lines_view(lines@),
                pos as int,
            );
            assert(rs.subrange(0, rs.len() as int) =~= rs);
        }
        (ExtraBlock { title, content: chars_to_string(&content) }, end)
    }
}

impl Art {
    /// Consumes the animation, handing out its four components.
    pub fn to_components(self) -> (r: (Header, Frames, Option<String>, Vec<ExtraBlock>))
        requires
            self.wf(),
        ensures
            r.0 == self.spec_header(),
            r.1 == self.spec_frames(),
            r.2 == self.spec_attached(),
            r.3@ == self.spec_extra(),
            r.0.wf(),
            r.1.wf(),
    {
        let Art { header, frames, attached, extra } = self;
        (header, frames, attached, extra)
    }

    /// Builds an animation from its four components.
    pub fn from_components(
        header: Header,
        frames: Frames,
        attached: Option<String>,
        extra: Vec<ExtraBlock>,
    ) -> (r: Result<Art, Error>)
        requires
            header.wf(),
            frames.wf(),
        ensures
            r matches Ok(a) && a.wf() && a.spec_header() == header && a.spec_frames() == frames
                && a.spec_attached() == attached && a.spec_extra() == extra@,
    {
        Ok(Art { header, frames, attached, extra })
    }

    /// Reads an animation from its lines: the header first (the dialect
    /// detected from the first line), then for the legacy dialect the
    /// fixed-width frame scan, else the named blocks, each dispatched by
    /// name; any pins left at the end are merged in.
    pub fn from_lines(lines: &Vec<String>) -> (r: Result<Art, Error>)
        ensures
            r matches Ok(a) ==> a.wf(),
            ({
                let hres = crate::header::spec_read_header(crate::text::lines_view(lines@), 0);
                &&& (hres matches Err(he) ==> (r matches Err(e)
                    && crate::header::header_err_matches(e, he)))
                &&& (r matches Ok(a) ==> (hres matches Ok(p) && a.spec_header().model() == p.0))
                &&& (hres matches Ok(p) ==> (p.0.legacy matches Some(info) ==> ({
                    let fin = crate::content::legacy_fold(
                        crate::content::legacy_init(),
                        crate::content::legacy_chars(crate::text::lines_view(lines@), p.1),
                        info,
                    );
                    &&& (r is Ok) == (info.width * info.height <= usize::MAX)
                    &&& (info.width * info.height > usize::MAX ==> (r matches Err(e)
                        && e is WidthMismatch))
                    &&& (r matches Ok(a) ==> {
                        &&& a.spec_frames().spec_width() == info.width
                        &&& a.spec_frames().spec_height() == info.height
                        &&& a.spec_frames().spec_frames().len() == fin.grids.len()
                        &&& (forall|k: int|
                            0 <= k < fin.grids.len() ==> (#[trigger] a.spec_frames()
                                .spec_frames()[k]).grid() == fin.grids[k])
                        &&& a.spec_attached() is None
                        &&& a.spec_extra() == Seq::<ExtraBlock>::empty()
                    })
                })))
                &&& (hres matches Ok(p) ==> ((p.0.legacy is None && p.1 >= lines@.len())
                    ==> r is Ok))
            }),
    {
        let ghost hres = crate::header::spec_read_header(crate::text::lines_view(lines@), 0);
        let (hr, mut p) = Header::read(lines, 0);
        let header = match hr {
            Ok(h) => h,
            Err(e) => {
                return Err(e);
            },
        };
        let ghost hp = p as int;
        let ghost no_blocks = hp >= lines@.len();
        let mut frames = Frames::new(0, 0, 0, Cell::default());
        let mut attached: Option<String> = None;
        let mut extra: Vec<ExtraBlock> = Vec::new();
        match &header.legacy {
            Some(info) => {
                let li = *info;
                if li.height != 0 && li.width > usize::MAX / li.height {
                    proof {
                        let w = li.width as int;
                        let h = li.height as int;
                        let q = usize::MAX as int / h;
                        let m = usize::MAX as int % h;
                        vstd::arithmetic::div_mod::lemma_fundamental_div_mod(
                            usize::MAX as int,
                            h,
                        );
                        vstd::arithmetic::div_mod::lemma_mod_bound(usize::MAX as int, h);
                        assert(w * h > usize::MAX) by (nonlinear_arith)
                            requires
                                w >= q + 1,
                                h > 0,
                                usize::MAX as int == h * q + m,
                                0 <= m < h,
                        ;
                    }
                    return Err(Error::WidthMismatch);
                }
                proof {
                    let w = li.width as int;
                    let h = li.height as int;
                    if h != 0 {
                        let q = usize::MAX as int / h;
                        let m = usize::MAX as int % h;
                        vstd::arithmetic::div_mod::lemma_fundamental_div_mod(
                            usize::MAX as int,
                            h,
                        );
                        vstd::arithmetic::div_mod::lemma_mod_bound(usize::MAX as int, h);
                        assert(w * h <= usize::MAX) by (nonlinear_arith)
                            requires
                                w <= q,
                                h > 0,
                                usize::MAX as int == h * q + m,
                                0 <= m < h,
                        ;
                    } else {
                        assert(li.width * li.height == 0) by (nonlinear_arith)
                            requires
                                li.height == 0,
                        ;
                    }
                }
                frames = Frames::read_legacy(li, lines, p);
            },
            None => {
                loop
                    invariant
                        p <= lines@.len(),
                        hp <= p as int,
                        hres == crate::header::spec_read_header(
                            crate::text::lines_view(lines@),
                            0,
                        ),
                        hres is Ok,
                        hres->Ok_0.0.legacy is None,
                        hres->Ok_0.1 == hp,
                        no_blocks == (hp >= lines@.len()),
                        frames.wf(),
                        header.wf(),
                        frames.spec_frames().len() == 0 || (frames.spec_width() != 0
                            && frames.spec_height() != 0),
                        no_blocks ==> (frames.spec_text_pin() is None
                            && frames.spec_color_pin() is None),
                    ensures
                        frames.wf(),
                        no_blocks ==> (frames.spec_text_pin() is None
                            && frames.spec_color_pin() is None),
                    decreases lines@.len() - p,
                {
                    let mut name: Option<Vec<char>> = None;
                    let ghost p0 = p;
                    while p < lines.len()
                        invariant_except_break
                            name is None,
                        invariant
                            p0 <= p <= lines@.len(),
                            hp <= p0 as int,
                            hres == crate::header::spec_read_header(
                                crate::text::lines_view(lines@),
                                0,
                            ),
                            hres is Ok,
                            hres->Ok_0.0.legacy is None,
                            hres->Ok_0.1 == hp,
                            no_blocks == (hp >= lines@.len()),
                        ensures
                            p0 <= p <= lines@.len(),
                            name is Some ==> p > p0,
                            name is Some ==> p0 < lines@.len(),
                        decreases lines@.len() - p,
                    {
                        let cv = str_to_chars(lines[p].as_str());
                        let line = crate::chars::normalize_chars(&cv);
                        p = p + 1;
                        if line.len() == 0 {
                            continue ;
                        }
                        match crate::text::strip_prefix_str(&line, "@") {
                            Some(n) => {
                                name = Some(n);
                            },
                            None => {
                                return Err(Error::BlockExpected(chars_to_string(&line)));
                            },
                        }
                        break ;
                    }
                    let blk = match name {
                        Some(n) => n,
                        None => {
                            break ;
                        },
                    };
                    if crate::text::chars_eq_str(&blk, "attach") {
                        if p < lines.len() {
                            attached = Some(crate::text::string_from_str(lines[p].as_str()));
                            p = p + 1;
                        }
                    } else if crate::text::chars_eq_str(&blk, "text-pin") {
                        let (res, end) = frames.read_text_pin(lines, p);
                        p = end;
                        match res {
                            Ok(_) => {},
                            Err(e) => {
                                return Err(e);
                            },
                        }
                    } else if crate::text::chars_eq_str(&blk, "color-pin") {
                        let (res, end) = frames.read_color_pin(lines, p);
                        p = end;
                        match res {
                            Ok(_) => {},
                            Err(e) => {
                                return Err(e);
                            },
                        }
                    } else if crate::text::chars_eq_str(&blk, "body") {
                        let has_colors = header.get_colors();
                        let mode: BodyMode = if !has_colors {
                            BodyMode::Text
                        } else if frames.has_color_pin() {
                            BodyMode::Text
                        } else if frames.has_text_pin() {
                            BodyMode::Color
                        } else {
                            BodyMode::Both
                        };
                        let (res, end) = frames.read_body_mode(lines, p, mode);
                        p = end;
                        match res {
                            Ok(_) => {},
                            Err(e) => {
                                return Err(e);
                            },
                        }
                    } else {
                        let (block, end) = ExtraBlock::read(chars_to_string(&blk), lines, p);
                        p = end;
                        extra.push(block);
                    }
                }
            },
        }
        let ghost fb = frames;
        match frames.merge() {
            Ok(_) => {},
            Err(e) => {
                return Err(e);
            },
        }
        proof {
            if header.legacy is Some {
                let info = header.legacy->0;
                let fin = crate::content::legacy_fold(
                    crate::content::legacy_init(),
                    crate::content::legacy_chars(crate::text::lines_view(lines@), hp),
                    info,
                );
                assert forall|k: int|
                    0 <= k < fin.grids.len() implies (#[trigger] frames.spec_frames()[k]).grid()
                    == fin.grids[k] by {
                    assert(frames.spec_frames()[k].grid() =~~= fb.spec_frames()[k].grid());
                }
                assert(extra@ =~= Seq::<ExtraBlock>::empty());
            }
        }
        Ok(Art { header, frames, attached, extra })
    }

    /// The animation written in the native format: the header, the attached
    /// line and extra blocks, then the frames in their most compact form.
    pub fn to_text(&self) -> (r: String)
        requires
            self.wf(),
        ensures
            r@ == spec_art_text(*self),
    {
        let colors = self.color();
        let mut out = self.header.to_text_with_colors(colors);
        proof {
            reveal_strlit("@attach\n");
            reveal_strlit("\n\n");
            reveal_strlit("@");
            reveal_strlit("\n");
            assert("@attach\n"@ =~= seq!['@', 'a', 't', 't', 'a', 'c', 'h', '\n']);
            assert("\n\n"@ =~= seq!['\n', '\n']);
            assert("@"@ =~= seq!['@']);
            assert("\n"@ =~= seq!['\n']);
        }
        match &self.attached {
            Some(a) => {
                if a.as_str().unicode_len() > 0 {
                    out.append("@attach\n");
                    out.append(a.as_str());
                    out.append("\n\n");
                }
            },
            None => {},
        }
        proof {
            assert(out@ =~= spec_header_text_of(*self) + spec_attach_text(*self));
        }
        let ghost after_attach = out@;
        let mut i: usize = 0;
        proof {
            assert(spec_extra_blocks_text(self.spec_extra().subrange(0, 0)) =~= Seq::<
                char,
            >::empty());
            assert(out@ =~= after_attach + spec_extra_blocks_text(
                self.spec_extra().subrange(0, 0),
            ));
        }
        while i < self.extra.len()
            invariant
                i <= self.spec_extra().len(),
                out@ == after_attach + spec_extra_blocks_text(
                    self.spec_extra().subrange(0, i as int),
                ),
            decreases self.extra@.len() - i,
        {
            proof {
                reveal_strlit("@");
                reveal_strlit("\n");
                assert("@"@ =~= seq!['@']);
                assert("\n"@ =~= seq!['\n']);
                assert(self.spec_extra().subrange(0, i + 1).drop_last()
                    =~= self.spec_extra().subrange(0, i as int));
                assert(self.spec_extra().subrange(0, i + 1).last() == self.spec_extra()[i as int]);
            }
            out.append("@");
            out.append(self.extra[i].title.as_str());
            out.append("\n");
            out.append(self.extra[i].content.as_str());
            out.append("\n");
            proof {
                assert(out@ =~= after_attach + spec_extra_blocks_text(
                    self.spec_extra().subrange(0, i + 1),
                ));
            }
            i = i + 1;
        }
        proof {
            assert(self.spec_extra().subrange(0, self.spec_extra().len() as int)
                =~= self.spec_extra());
        }
        let body = self.frames.fmt_with_color(colors);
        out.append(body.as_str());
        proof {
            assert(out@ =~= spec_art_text(*self));
        }
        out
    }

    /// Each frame rendered as ANSI escape sequences.
    pub fn to_ansi_frames(&self) -> (r: Vec<String>)
        requires
            self.wf(),
        ensures
            r@.len() == self.spec_frames().spec_frames().len(),
            forall|i: int|
                0 <= i < r@.len() ==> (#[trigger] r@[i])@ == crate::content::spec_frame_ansi(
                    self.spec_frames().spec_frames()[i].grid(),
                    self.spec_header().palette.entries(),
                    spec_art_color(*self),
                ),
    {
        let color = self.color();
        self.frames.to_ansi_frames(&self.header.palette, color)
    }

    /// All frames as one ANSI string: frames separated by newlines, a color
    /// reset, and a final newline.
    pub fn to_ansi_string(&self) -> (r: String)
        requires
            self.wf(),
    {
        let frames = self.to_ansi_frames();
        let mut out = String::new();
        let mut i: usize = 0;
        while i < frames.len()
            decreases frames@.len() - i,
        {
            if i > 0 {
                out.append("\n");
            }
            out.append(frames[i].as_str());
            i = i + 1;
        }
        let reset = crate::colors::ColorPair { fg: crate::colors::Color::NoColor, bg: crate::colors::Color::NoColor };
        let rs = reset.to_ansi();
        out.append(rs.as_str());
        out.append("\n");
        out
    }
}

impl Art {
    /// The attached line, when one is present.
    pub fn get_attached(&self) -> (r: Option<String>)
        ensures
            match (r, self.spec_attached()) {
                (Some(a), Some(b)) => a@ == b@,
                (None, None) => true,
                _ => false,
            },
    {
        match &self.attached {
            Some(a) => Some(crate::text::string_from_str(a.as_str())),
            None => None,
        }
    }

    /// Replaces the attached line.
    pub fn set_attached(&mut self, attached: Option<String>)
        requires
            old(self).wf(),
        ensures
            final(self).wf(),
            final(self).spec_attached() == attached,
            final(self).spec_frames() == old(self).spec_frames(),
    {
        self.attached = attached;
    }

    /// The extra blocks, in order.
    pub fn get_extra_blocks(&self) -> (r: Vec<ExtraBlock>)
        ensures
            r@.len() == self.spec_extra().len(),
            forall|i: int|
                0 <= i < r@.len() ==> (#[trigger] r@[i]).title@ == self.spec_extra()[i].title@
                    && r@[i].content@ == self.spec_extra()[i].content@,
    {
        let mut out: Vec<ExtraBlock> = Vec::new();
        let mut i: usize = 0;
        while i < self.extra.len()
            invariant
                i <= self.spec_extra().len(),
                out@.len() == i,
                forall|k: int|
                    0 <= k < i ==> (#[trigger] out@[k]).title@ == self.spec_extra()[k].title@
                        && out@[k].content@ == self.spec_extra()[k].content@,
            decreases self.extra@.len() - i,
        {
            out.push(
                ExtraBlock {
                    title: crate::text::string_from_str(self.extra[i].title.as_str()),
                    content: crate::text::string_from_str(self.extra[i].content.as_str()),
                },
            );
            i = i + 1;
        }
        out
    }

    /// The explicit palette entries in insertion order, keys and pairs.
    pub fn palette_entries(&self) -> (r: Vec<(Char, ColorPair)>)
        requires
            self.wf(),
        ensures
            r@.len() == self.spec_header().palette.entries().len(),
            forall|i: int|
                0 <= i < r@.len() ==> (#[trigger] r@[i]).0@
                    == self.spec_header().palette.entries()[i].0 && r@[i].1
                    == self.spec_header().palette.entries()[i].1,
    {
        let n = self.header.palette.len();
        let mut out: Vec<(Char, ColorPair)> = Vec::new();
        let mut i: usize = 0;
        while i < n
            invariant
                i <= n,
                n == self.spec_header().palette.entries().len(),
                out@.len() == i,
                forall|k: int|
                    0 <= k < i ==> (#[trigger] out@[k]).0@
                        == self.spec_header().palette.entries()[k].0 && out@[k].1
                        == self.spec_header().palette.entries()[k].1,
            decreases n - i,
        {
            let e = crate::palette::pal_get_index(&self.header.palette.palette, i).unwrap();
            out.push((e.0, e.1));
            i = i + 1;
        }
        out
    }
}

impl Art {

    /// Shifts every frame right, filling the vacated left edge.
    pub fn shift_right(&mut self, cols: usize, fill: Cell)
        requires
            old(self).wf(),
            crate::content::cell_wf(fill),
        ensures
            final(self).wf(),
            final(self).spec_header() == old(self).spec_header(),
            final(self).spec_frames().spec_width() == old(self).spec_frames().spec_width(),
            final(self).spec_frames().spec_height() == old(self).spec_frames().spec_height(),
            final(self).spec_frames().spec_frames().len() == old(
                self).spec_frames().spec_frames().len(),
            forall|i: int|
                0 <= i < old(self).spec_frames().spec_frames().len()
                    ==> #[trigger] crate::content::frame_shifted_right(old(self).spec_frames().spec_frames()[i], final(self).spec_frames().spec_frames()[i], cols as int, fill),
    {
        self.frames.shift_right(cols, fill);
    }

    /// Shifts every frame left, filling the vacated right edge.
    pub fn shift_left(&mut self, cols: usize, fill: Cell)
        requires
            old(self).wf(),
            crate::content::cell_wf(fill),
        ensures
            final(self).wf(),
            final(self).spec_header() == old(self).spec_header(),
            final(self).spec_frames().spec_width() == old(self).spec_frames().spec_width(),
            final(self).spec_frames().spec_height() == old(self).spec_frames().spec_height(),
            final(self).spec_frames().spec_frames().len() == old(
                self).spec_frames().spec_frames().len(),
            forall|i: int|
                0 <= i < old(self).spec_frames().spec_frames().len()
                    ==> #[trigger] crate::content::frame_shifted_left(old(self).spec_frames().spec_frames()[i], final(self).spec_frames().spec_frames()[i], cols as int, fill),
    {
        self.frames.shift_left(cols, fill);
    }

    /// Shifts every frame down, filling the vacated top rows.
    pub fn shift_down(&mut self, count: usize, fill: Cell)
        requires
            old(self).wf(),
            crate::content::cell_wf(fill),
        ensures
            final(self).wf(),
            final(self).spec_header() == old(self).spec_header(),
            final(self).spec_frames().spec_width() == old(self).spec_frames().spec_width(),
            final(self).spec_frames().spec_height() == old(self).spec_frames().spec_height(),
            final(self).spec_frames().spec_frames().len() == old(
                self).spec_frames().spec_frames().len(),
            forall|i: int|
                0 <= i < old(self).spec_frames().spec_frames().len()
                    ==> #[trigger] crate::content::frame_shifted_down(old(self).spec_frames().spec_frames()[i], final(self).spec_frames().spec_frames()[i], count as int, fill),
    {
        self.frames.shift_down(count, fill);
    }

    /// Shifts every frame up, filling the vacated bottom rows.
    pub fn shift_up(&mut self, count: usize, fill: Cell)
        requires
            old(self).wf(),
            crate::content::cell_wf(fill),
        ensures
            final(self).wf(),
            final(self).spec_header() == old(self).spec_header(),
            final(self).spec_frames().spec_width() == old(self).spec_frames().spec_width(),
            final(self).spec_frames().spec_height() == old(self).spec_frames().spec_height(),
            final(self).spec_frames().spec_frames().len() == old(
                self).spec_frames().spec_frames().len(),
            forall|i: int|
                0 <= i < old(self).spec_frames().spec_frames().len()
                    ==> #[trigger] crate::content::frame_shifted_up(old(self).spec_frames().spec_frames()[i], final(self).spec_frames().spec_frames()[i], count as int, fill),
    {
        self.frames.shift_up(count, fill);
    }

    /// Fills every frame whole with one cell.
    pub fn fill(&mut self, fill: Cell)
        requires
            old(self).wf(),
            crate::content::cell_wf(fill),
        ensures
            final(self).wf(),
            final(self).spec_header() == old(self).spec_header(),
            final(self).spec_frames().spec_width() == old(self).spec_frames().spec_width(),
            final(self).spec_frames().spec_height() == old(self).spec_frames().spec_height(),
            final(self).spec_frames().spec_frames().len() == old(
                self).spec_frames().spec_frames().len(),
            forall|i: int|
                0 <= i < old(self).spec_frames().spec_frames().len()
                    ==> #[trigger] crate::content::frame_filled(old(self).spec_frames().spec_frames()[i], final(self).spec_frames().spec_frames()[i], fill),
    {
        self.frames.fill(fill);
    }

    /// Sets every cell's text in every frame, keeping the colors.
    pub fn fill_text(&mut self, fill: Char)
        requires
            old(self).wf(),
            fill.wf(),
        ensures
            final(self).wf(),
            final(self).spec_header() == old(self).spec_header(),
            final(self).spec_frames().spec_width() == old(self).spec_frames().spec_width(),
            final(self).spec_frames().spec_height() == old(self).spec_frames().spec_height(),
            final(self).spec_frames().spec_frames().len() == old(
                self).spec_frames().spec_frames().len(),
            forall|i: int|
                0 <= i < old(self).spec_frames().spec_frames().len()
                    ==> #[trigger] crate::content::frame_text_filled(old(self).spec_frames().spec_frames()[i], final(self).spec_frames().spec_frames()[i], fill),
    {
        self.frames.fill_text(fill);
    }

    /// Sets every cell's color reference in every frame, keeping the text.
    pub fn fill_color(&mut self, fill: Option<Char>)
        requires
            old(self).wf(),
            fill matches Some(k) ==> k.wf(),
        ensures
            final(self).wf(),
            final(self).spec_header() == old(self).spec_header(),
            final(self).spec_frames().spec_width() == old(self).spec_frames().spec_width(),
            final(self).spec_frames().spec_height() == old(self).spec_frames().spec_height(),
            final(self).spec_frames().spec_frames().len() == old(
                self).spec_frames().spec_frames().len(),
            forall|i: int|
                0 <= i < old(self).spec_frames().spec_frames().len()
                    ==> #[trigger] crate::content::frame_color_filled(old(self).spec_frames().spec_frames()[i], final(self).spec_frames().spec_frames()[i], fill),
    {
        self.frames.fill_color(fill);
    }

    /// Clears every frame: spaces, with the `_` mark where a frame had color.
    pub fn clean(&mut self)
        requires
            old(self).wf(),
        ensures
            final(self).wf(),
            final(self).spec_header() == old(self).spec_header(),
            final(self).spec_frames().spec_width() == old(self).spec_frames().spec_width(),
            final(self).spec_frames().spec_height() == old(self).spec_frames().spec_height(),
            final(self).spec_frames().spec_frames().len() == old(
                self).spec_frames().spec_frames().len(),
            forall|i: int|
                0 <= i < old(self).spec_frames().spec_frames().len()
                    ==> #[trigger] crate::content::frame_cleaned(old(self).spec_frames().spec_frames()[i], final(self).spec_frames().spec_frames()[i]),
    {
        self.frames.clean();
    }

    /// Fills the listed positions in every frame.
    pub fn fill_area(&mut self, columns: &Vec<usize>, rows: &Vec<usize>, new: Cell)
        requires
            old(self).wf(),
            crate::content::cell_wf(new),
        ensures
            final(self).wf(),
            final(self).spec_header() == old(self).spec_header(),
            final(self).spec_frames().spec_width() == old(self).spec_frames().spec_width(),
            final(self).spec_frames().spec_height() == old(self).spec_frames().spec_height(),
            final(self).spec_frames().spec_frames().len() == old(
                self).spec_frames().spec_frames().len(),
            forall|i: int|
                0 <= i < old(self).spec_frames().spec_frames().len()
                    ==> #[trigger] crate::content::frame_area_filled(old(self).spec_frames().spec_frames()[i], final(self).spec_frames().spec_frames()[i], columns@, rows@, new),
    {
        self.frames.fill_area(columns, rows, new);
    }

    /// Shifts one frame right; an index out of range changes nothing.
    pub fn shift_right_frame(&mut self, frame: usize, cols: usize, fill: Cell)
        requires
            old(self).wf(),
            crate::content::cell_wf(fill),
        ensures
            final(self).wf(),
            final(self).spec_header() == old(self).spec_header(),
            final(self).spec_frames().spec_width() == old(self).spec_frames().spec_width(),
            final(self).spec_frames().spec_height() == old(self).spec_frames().spec_height(),
            final(self).spec_frames().spec_frames().len() == old(
                self).spec_frames().spec_frames().len(),
            forall|i: int|
                0 <= i < old(self).spec_frames().spec_frames().len() && i != frame
                    ==> #[trigger] final(self).spec_frames().spec_frames()[i] == old(
                    self).spec_frames().spec_frames()[i],
            frame < old(self).spec_frames().spec_frames().len() ==> crate::content::frame_shifted_right(old(self).spec_frames().spec_frames()[frame as int], final(self).spec_frames().spec_frames()[frame as int], cols as int, fill),
    {
        self.frames.shift_right_frame(frame, cols, fill);
    }

    /// Shifts one frame left; an index out of range changes nothing.
    pub fn shift_left_frame(&mut self, frame: usize, cols: usize, fill: Cell)
        requires
            old(self).wf(),
            crate::content::cell_wf(fill),
        ensures
            final(self).wf(),
            final(self).spec_header() == old(self).spec_header(),
            final(self).spec_frames().spec_width() == old(self).spec_frames().spec_width(),
            final(self).spec_frames().spec_height() == old(self).spec_frames().spec_height(),
            final(self).spec_frames().spec_frames().len() == old(
                self).spec_frames().spec_frames().len(),
            forall|i: int|
                0 <= i < old(self).spec_frames().spec_frames().len() && i != frame
                    ==> #[trigger] final(self).spec_frames().spec_frames()[i] == old(
                    self).spec_frames().spec_frames()[i],
            frame < old(self).spec_frames().spec_frames().len() ==> crate::content::frame_shifted_left(old(self).spec_frames().spec_frames()[frame as int], final(self).spec_frames().spec_frames()[frame as int], cols as int, fill),
    {
        self.frames.shift_left_frame(frame, cols, fill);
    }

    /// Shifts one frame down; an index out of range changes nothing.
    pub fn shift_down_frame(&mut self, frame: usize, count: usize, fill: Cell)
        requires
            old(self).wf(),
            crate::content::cell_wf(fill),
        ensures
            final(self).wf(),
            final(self).spec_header() == old(self).spec_header(),
            final(self).spec_frames().spec_width() == old(self).spec_frames().spec_width(),
            final(self).spec_frames().spec_height() == old(self).spec_frames().spec_height(),
            final(self).spec_frames().spec_frames().len() == old(
                self).spec_frames().spec_frames().len(),
            forall|i: int|
                0 <= i < old(self).spec_frames().spec_frames().len() && i != frame
                    ==> #[trigger] final(self).spec_frames().spec_frames()[i] == old(
                    self).spec_frames().spec_frames()[i],
            frame < old(self).spec_frames().spec_frames().len() ==> crate::content::frame_shifted_down(old(self).spec_frames().spec_frames()[frame as int], final(self).spec_frames().spec_frames()[frame as int], count as int, fill),
    {
        self.frames.shift_down_frame(frame, count, fill);
    }

    /// Shifts one frame up; an index out of range changes nothing.
    pub fn shift_up_frame(&mut self, frame: usize, count: usize, fill: Cell)
        requires
            old(self).wf(),
            crate::content::cell_wf(fill),
        ensures
            final(self).wf(),
            final(self).spec_header() == old(self).spec_header(),
            final(self).spec_frames().spec_width() == old(self).spec_frames().spec_width(),
            final(self).spec_frames().spec_height() == old(self).spec_frames().spec_height(),
            final(self).spec_frames().spec_frames().len() == old(
                self).spec_frames().spec_frames().len(),
            forall|i: int|
                0 <= i < old(self).spec_frames().spec_frames().len() && i != frame
                    ==> #[trigger] final(self).spec_frames().spec_frames()[i] == old(
                    self).spec_frames().spec_frames()[i],
            frame < old(self).spec_frames().spec_frames().len() ==> crate::content::frame_shifted_up(old(self).spec_frames().spec_frames()[frame as int], final(self).spec_frames().spec_frames()[frame as int], count as int, fill),
    {
        self.frames.shift_up_frame(frame, count, fill);
    }

    /// Fills one frame whole; an index out of range changes nothing.
    pub fn fill_frame(&mut self, frame: usize, fill: Cell)
        requires
            old(self).wf(),
            crate::content::cell_wf(fill),
        ensures
            final(self).wf(),
            final(self).spec_header() == old(self).spec_header(),
            final(self).spec_frames().spec_width() == old(self).spec_frames().spec_width(),
            final(self).spec_frames().spec_height() == old(self).spec_frames().spec_height(),
            final(self).spec_frames().spec_frames().len() == old(
                self).spec_frames().spec_frames().len(),
            forall|i: int|
                0 <= i < old(self).spec_frames().spec_frames().len() && i != frame
                    ==> #[trigger] final(self).spec_frames().spec_frames()[i] == old(
                    self).spec_frames().spec_frames()[i],
            frame < old(self).spec_frames().spec_frames().len() ==> crate::content::frame_filled(old(self).spec_frames().spec_frames()[frame as int], final(self).spec_frames().spec_frames()[frame as int], fill),
    {
        self.frames.fill_frame(frame, fill);
    }

    /// Sets every cell's text in one frame; an index out of range changes nothing.
    pub fn fill_text_frame(&mut self, frame: usize, fill: Char)
        requires
            old(self).wf(),
            fill.wf(),
        ensures
            final(self).wf(),
            final(self).spec_header() == old(self).spec_header(),
            final(self).spec_frames().spec_width() == old(self).spec_frames().spec_width(),
            final(self).spec_frames().spec_height() == old(self).spec_frames().spec_height(),
            final(self).spec_frames().spec_frames().len() == old(
                self).spec_frames().spec_frames().len(),
            forall|i: int|
                0 <= i < old(self).spec_frames().spec_frames().len() && i != frame
                    ==> #[trigger] final(self).spec_frames().spec_frames()[i] == old(
                    self).spec_frames().spec_frames()[i],
            frame < old(self).spec_frames().spec_frames().len() ==> crate::content::frame_text_filled(old(self).spec_frames().spec_frames()[frame as int], final(self).spec_frames().spec_frames()[frame as int], fill),
    {
        self.frames.fill_text_frame(frame, fill);
    }

    /// Sets every cell's color in one frame; an index out of range changes nothing.
    pub fn fill_color_frame(&mut self, frame: usize, fill: Option<Char>)
        requires
            old(self).wf(),
            fill matches Some(k) ==> k.wf(),
        ensures
            final(self).wf(),
            final(self).spec_header() == old(self).spec_header(),
            final(self).spec_frames().spec_width() == old(self).spec_frames().spec_width(),
            final(self).spec_frames().spec_height() == old(self).spec_frames().spec_height(),
            final(self).spec_frames().spec_frames().len() == old(
                self).spec_frames().spec_frames().len(),
            forall|i: int|
                0 <= i < old(self).spec_frames().spec_frames().len() && i != frame
                    ==> #[trigger] final(self).spec_frames().spec_frames()[i] == old(
                    self).spec_frames().spec_frames()[i],
            frame < old(self).spec_frames().spec_frames().len() ==> crate::content::frame_color_filled(old(self).spec_frames().spec_frames()[frame as int], final(self).spec_frames().spec_frames()[frame as int], fill),
    {
        self.frames.fill_color_frame(frame, fill);
    }

    /// Clears one frame; an index out of range changes nothing.
    pub fn clean_frame(&mut self, frame: usize)
        requires
            old(self).wf(),
        ensures
            final(self).wf(),
            final(self).spec_header() == old(self).spec_header(),
            final(self).spec_frames().spec_width() == old(self).spec_frames().spec_width(),
            final(self).spec_frames().spec_height() == old(self).spec_frames().spec_height(),
            final(self).spec_frames().spec_frames().len() == old(
                self).spec_frames().spec_frames().len(),
            forall|i: int|
                0 <= i < old(self).spec_frames().spec_frames().len() && i != frame
                    ==> #[trigger] final(self).spec_frames().spec_frames()[i] == old(
                    self).spec_frames().spec_frames()[i],
            frame < old(self).spec_frames().spec_frames().len() ==> crate::content::frame_cleaned(old(self).spec_frames().spec_frames()[frame as int], final(self).spec_frames().spec_frames()[frame as int]),
    {
        self.frames.clean_frame(frame);
    }

    /// Resizes every frame and the shared dimensions exactly.
    pub fn resize(&mut self, width: usize, height: usize, fill: Cell)
        requires
            old(self).wf(),
            crate::content::cell_wf(fill),
            old(self).spec_frames().spec_height() * width <= usize::MAX,
            height * width <= usize::MAX,
        ensures
            final(self).wf(),
            final(self).spec_header() == old(self).spec_header(),
            final(self).spec_frames().spec_width() == width,
            final(self).spec_frames().spec_height() == height,
            forall|i: int|
                0 <= i < old(self).spec_frames().spec_frames().len()
                    ==> #[trigger] crate::content::frame_resized(
                    old(self).spec_frames().spec_frames()[i],
                    final(self).spec_frames().spec_frames()[i],
                    width as int,
                    height as int,
                    fill,
                ),
    {
        self.frames.resize(width, height, fill);
    }

    /// Resizes the width of every frame exactly.
    pub fn resize_width(&mut self, width: usize, fill: Cell)
        requires
            old(self).wf(),
            crate::content::cell_wf(fill),
            old(self).spec_frames().spec_height() * width <= usize::MAX,
        ensures
            final(self).wf(),
            final(self).spec_header() == old(self).spec_header(),
            final(self).spec_frames().spec_width() == width,
            final(self).spec_frames().spec_height() == old(self).spec_frames().spec_height(),
    {
        self.frames.resize_width(width, fill);
    }

    /// Resizes the height of every frame exactly.
    pub fn resize_height(&mut self, height: usize, fill: Cell)
        requires
            old(self).wf(),
            crate::content::cell_wf(fill),
            height * old(self).spec_frames().spec_width() <= usize::MAX,
        ensures
            final(self).wf(),
            final(self).spec_header() == old(self).spec_header(),
            final(self).spec_frames().spec_width() == old(self).spec_frames().spec_width(),
            final(self).spec_frames().spec_height() == height,
    {
        self.frames.resize_height(height, fill);
    }

    /// Grows every frame to at least the given dimensions, never shrinking.
    pub fn adjust(&mut self, width: usize, height: usize, fill: Cell)
        requires
            old(self).wf(),
            crate::content::cell_wf(fill),
            old(self).spec_frames().spec_height() * width <= usize::MAX,
            height * width <= usize::MAX,
            height * old(self).spec_frames().spec_width() <= usize::MAX,
        ensures
            final(self).wf(),
            final(self).spec_header() == old(self).spec_header(),
            forall|i: int|
                0 <= i < old(self).spec_frames().spec_frames().len()
                    ==> #[trigger] crate::content::frame_adjusted(
                    old(self).spec_frames().spec_frames()[i],
                    final(self).spec_frames().spec_frames()[i],
                    width as int,
                    height as int,
                    fill,
                ),
    {
        self.frames.adjust(width, height, fill);
    }

    /// Grows the width of every frame, never shrinking.
    pub fn adjust_width(&mut self, width: usize, fill: Cell)
        requires
            old(self).wf(),
            crate::content::cell_wf(fill),
            old(self).spec_frames().spec_height() * width <= usize::MAX,
        ensures
            final(self).wf(),
            final(self).spec_header() == old(self).spec_header(),
            final(self).spec_frames().spec_height() == old(self).spec_frames().spec_height(),
    {
        self.frames.adjust_width(width, fill);
    }

    /// Grows the height of every frame, never shrinking.
    pub fn adjust_height(&mut self, height: usize, fill: Cell)
        requires
            old(self).wf(),
            crate::content::cell_wf(fill),
            height * old(self).spec_frames().spec_width() <= usize::MAX,
        ensures
            final(self).wf(),
            final(self).spec_header() == old(self).spec_header(),
            final(self).spec_frames().spec_width() == old(self).spec_frames().spec_width(),
    {
        self.frames.adjust_height(height, fill);
    }

    /// Drops every reference to one palette character from every frame,
    /// keeping the palette entry.
    pub fn remove_color(&mut self, color: Char)
        requires
            old(self).wf(),
        ensures
            final(self).wf(),
            final(self).spec_header() == old(self).spec_header(),
            forall|i: int|
                0 <= i < old(self).spec_frames().spec_frames().len()
                    ==> #[trigger] crate::content::frame_color_removed(
                    old(self).spec_frames().spec_frames()[i],
                    final(self).spec_frames().spec_frames()[i],
                    color@,
                ),
    {
        self.frames.remove_color(color);
    }

    /// Removes one frame; an index out of range changes nothing.
    pub fn remove_frame(&mut self, frame: usize)
        requires
            old(self).wf(),
        ensures
            final(self).wf(),
            final(self).spec_header() == old(self).spec_header(),
            final(self).spec_frames().spec_frames() == if frame < old(
                self).spec_frames().spec_frames().len() {
                old(self).spec_frames().spec_frames().remove(frame as int)
            } else {
                old(self).spec_frames().spec_frames()
            },
    {
        self.frames.remove_frame(frame);
    }

    /// Extends the frame list so the index exists.
    pub fn make_sure_frame_exist(&mut self, frame: usize)
        requires
            old(self).wf(),
            frame < usize::MAX,
        ensures
            final(self).wf(),
            final(self).spec_header() == old(self).spec_header(),
            final(self).spec_frames().spec_frames().len() == if frame < old(
                self).spec_frames().spec_frames().len() {
                old(self).spec_frames().spec_frames().len() as int
            } else {
                frame + 1
            },
    {
        self.frames.make_sure_frame_exist(frame);
    }

    /// Duplicates one frame (extending the list first so it exists),
    /// inserting the copy at its position: the copy and the original sit at
    /// the index and the one after it, earlier frames stay, later frames
    /// shift right by one.
    pub fn dup_frame(&mut self, frame: usize)
        requires
            old(self).wf(),
            frame < usize::MAX,
            old(self).spec_frames().spec_frames().len() < usize::MAX,
        ensures
            final(self).wf(),
            final(self).spec_header() == old(self).spec_header(),
            final(self).spec_frames().spec_frames().len() == (if frame < old(
                self).spec_frames().spec_frames().len() {
                old(self).spec_frames().spec_frames().len() as int
            } else {
                frame + 1
            }) + 1,
            forall|i: int|
                0 <= i < frame && i < old(self).spec_frames().spec_frames().len()
                    ==> #[trigger] final(self).spec_frames().spec_frames()[i] == old(
                    self).spec_frames().spec_frames()[i],
            final(self).spec_frames().spec_frames()[frame as int].grid() == final(
                self).spec_frames().spec_frames()[frame + 1].grid(),
            frame < old(self).spec_frames().spec_frames().len() ==> {
                &&& final(self).spec_frames().spec_frames()[frame + 1] == old(
                    self).spec_frames().spec_frames()[frame as int]
                &&& forall|i: int|
                    frame + 1 < i < final(self).spec_frames().spec_frames().len()
                        ==> #[trigger] final(self).spec_frames().spec_frames()[i] == old(
                        self).spec_frames().spec_frames()[i - 1]
            },
    {
        self.frames.dup_frame(frame);
    }

    /// Prints a text into one frame.
    pub fn print(&mut self, frame: usize, col: usize, row: usize, line: &str, color: Option<
        Option<Char>,
    >)
        requires
            old(self).wf(),
            color matches Some(oc) ==> (oc matches Some(k) ==> k.wf()),
            col + line@.len() <= usize::MAX,
        ensures
            final(self).wf(),
            final(self).spec_header() == old(self).spec_header(),
            frame < old(self).spec_frames().spec_frames().len() ==> final(
                self).spec_frames().spec_frames()[frame as int].grid()
                == crate::content::spec_print(
                old(self).spec_frames().spec_frames()[frame as int].grid(),
                col as int,
                row as int,
                line@,
                color,
            ),
    {
        self.frames.print(frame, col, row, line, color);
    }

    /// Exchanges two frames; an index out of range changes nothing.
    pub fn swap(&mut self, a: usize, b: usize)
        requires
            old(self).wf(),
        ensures
            final(self).wf(),
            final(self).spec_header() == old(self).spec_header(),
            a < old(self).spec_frames().spec_frames().len() && b < old(
                self).spec_frames().spec_frames().len() ==> {
                &&& final(self).spec_frames().spec_frames()[a as int].grid() == old(
                    self).spec_frames().spec_frames()[b as int].grid()
                &&& final(self).spec_frames().spec_frames()[b as int].grid() == old(
                    self).spec_frames().spec_frames()[a as int].grid()
            },
    {
        self.frames.swap(a, b);
    }

    /// Reverses the frame order.
    pub fn reverse(&mut self)
        requires
            old(self).wf(),
        ensures
            final(self).wf(),
            final(self).spec_header() == old(self).spec_header(),
            final(self).spec_frames().spec_frames().len() == old(
                self).spec_frames().spec_frames().len(),
            forall|i: int|
                0 <= i < old(self).spec_frames().spec_frames().len() ==> (#[trigger] final(
                    self).spec_frames().spec_frames()[i]).grid() == old(
                    self).spec_frames().spec_frames()[old(self).spec_frames().spec_frames().len()
                    - 1 - i].grid(),
    {
        self.frames.reverse();
    }

    /// Removes consecutive duplicate frames, keeping the first of each run.
    pub fn dedup(&mut self)
        requires
            old(self).wf(),
        ensures
            final(self).wf(),
            final(self).spec_header() == old(self).spec_header(),
            crate::content::grids_of(final(self).spec_frames().spec_frames())
                == crate::content::spec_dedup_grids(
                crate::content::grids_of(old(self).spec_frames().spec_frames()),
            ),
    {
        self.frames.dedup();
    }

    /// Rotates the frames forward by `k`, wrapping around.
    pub fn rot_forth(&mut self, k: usize)
        requires
            old(self).wf(),
        ensures
            final(self).wf(),
            final(self).spec_header() == old(self).spec_header(),
            final(self).spec_frames().spec_frames().len() == old(
                self).spec_frames().spec_frames().len(),
            old(self).spec_frames().spec_frames().len() > 0 ==> forall|i: int|
                0 <= i < old(self).spec_frames().spec_frames().len() ==> (#[trigger] final(
                    self).spec_frames().spec_frames()[i]).grid() == old(
                    self).spec_frames().spec_frames()[(i + k) % (old(
                    self).spec_frames().spec_frames().len() as int)].grid(),
    {
        self.frames.rot_forth(k);
    }

    /// Rotates the frames backward by `k`, wrapping around.
    pub fn rot_back(&mut self, k: usize)
        requires
            old(self).wf(),
        ensures
            final(self).wf(),
            final(self).spec_header() == old(self).spec_header(),
            final(self).spec_frames().spec_frames().len() == old(
                self).spec_frames().spec_frames().len(),
    {
        self.frames.rot_back(k);
    }

    /// Keeps only the inclusive frame range, indices clamped into the list.
    pub fn slice(&mut self, from: usize, to: usize)
        requires
            old(self).wf(),
        ensures
            final(self).wf(),
            final(self).spec_header() == old(self).spec_header(),
    {
        self.frames.slice(from, to);
    }

    /// Crops every frame to the inclusive row and column ranges.
    pub fn crop(&mut self, r_from: usize, r_to: usize, c_from: usize, c_to: usize)
        requires
            old(self).wf(),
        ensures
            final(self).wf(),
            final(self).spec_header() == old(self).spec_header(),
            final(self).spec_frames().spec_frames().len() == old(
                self).spec_frames().spec_frames().len(),
    {
        self.frames.crop(r_from, r_to, c_from, c_to);
    }
}


/// The header text of an animation, under its effective colors flag.
pub open spec fn spec_header_text_of(a: Art) -> Seq<char> {
    crate::header::spec_header_text(a.spec_header(), spec_art_color(a))
}

/// The attach block: nothing when absent or empty, else `@attach`, the
/// line, and a blank line.
pub open spec fn spec_attach_text(a: Art) -> Seq<char> {
    match a.spec_attached() {
        Some(s) => if s@.len() > 0 {
            seq!['@', 'a', 't', 't', 'a', 'c', 'h', '\n'] + s@ + seq!['\n', '\n']
        } else {
            Seq::empty()
        },
        None => Seq::empty(),
    }
}

/// The extra blocks written out: `@<title>`, the content, a blank line.
pub open spec fn spec_extra_blocks_text(es: Seq<ExtraBlock>) -> Seq<char>
    decreases es.len(),
{
    if es.len() == 0 {
        Seq::empty()
    } else {
        spec_extra_blocks_text(es.drop_last()) + seq!['@'] + es.last().title@ + seq!['\n']
            + es.last().content@ + seq!['\n']
    }
}

/// The whole document written out: header, attach block, extra blocks,
/// and the frames in their most compact form.
pub open spec fn spec_art_text(a: Art) -> Seq<char> {
    spec_header_text_of(a) + spec_attach_text(a) + spec_extra_blocks_text(a.spec_extra())
        + crate::content::spec_fmt_with_color(a.spec_frames(), spec_art_color(a))
}

/// Whether an animation carries colors.
pub open spec fn spec_art_color(a: Art) -> bool {
    match a.spec_header().colors {
        Some(colors) => colors,
        None => (exists|i: int|
            0 <= i < a.spec_frames().spec_frames().len() && (
            #[trigger] a.spec_frames().spec_frames()[i]).spec_colors() > 0) || a.spec_header(
        ).palette.entries().len() > 0,
    }
}

} // verus!
