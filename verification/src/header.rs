//! The document header: scalar metadata keys, authors, tag lines, the
//! palette, the legacy descriptor, and the dual-dialect header parser.

use vstd::prelude::*;

use ordermap::{OrderMap, OrderSet};
use std::collections::hash_map::RandomState;

use crate::chars::{normalize_chars, normalize_seq, Char};
use crate::colors::{spec_pair_token, spec_parse_pair, ColorPair, PairErr};
use crate::content::{LegacyColorMode, LegacyHeaderInfo};
use crate::delay::{spec_delay_token, spec_parse_delay, Delay, DelayErr};
use crate::error::Error;
use crate::palette::{pal_contains, PalEntry, Palette};
use crate::text::{
    chars_eq_str, chars_to_string, lines_view, spec_dec, spec_split_first, spec_trim, split_first,
    str_to_chars, trim_chars,
};

verus! {

/// Comment lines attached to a header key.
pub type Comments = Vec<String>;

#[verifier::external_type_specification]
#[verifier::external_body]
#[verifier::reject_recursive_types(T)]
#[verifier::reject_recursive_types(S)]
pub struct ExOrderSet<T, S>(OrderSet<T, S>);

/// What an author map holds: its entries in insertion order, each a name
/// with its comment lines.
pub uninterp spec fn author_entries(m: OrderMap<String, Vec<String>, RandomState>) -> Seq<
    (Seq<char>, Seq<Seq<char>>),
>;

/// No two author entries share a name.
pub open spec fn authors_unique(es: Seq<(Seq<char>, Seq<Seq<char>>)>) -> bool {
    forall|i: int, j: int| 0 <= i < j < es.len() ==> (#[trigger] es[i]).0 != (#[trigger] es[j]).0
}

/// Whether some author entry has the name.
pub open spec fn authors_contain(es: Seq<(Seq<char>, Seq<Seq<char>>)>, k: Seq<char>) -> bool {
    exists|i: int| 0 <= i < es.len() && (#[trigger] es[i]).0 == k
}

/// The index of the author entry with the name, when one exists.
pub open spec fn authors_idx(es: Seq<(Seq<char>, Seq<Seq<char>>)>, k: Seq<char>) -> int {
    choose|i: int| 0 <= i < es.len() && (#[trigger] es[i]).0 == k
}

/// Relies on `OrderMap::new`: a new map is empty.
#[verifier::external_body]
pub fn amap_new() -> (m: OrderMap<String, Vec<String>, RandomState>)
    ensures
        author_entries(m) == Seq::<(Seq<char>, Seq<Seq<char>>)>::empty(),
{
    OrderMap::new()
}

/// Relies on `OrderMap::len`: the number of entries.
#[verifier::external_body]
pub fn amap_len(m: &OrderMap<String, Vec<String>, RandomState>) -> (r: usize)
    ensures
        r == author_entries(*m).len(),
{
    m.len()
}

/// Relies on `OrderMap::get`: the value of the entry with the name.
#[verifier::external_body]
pub fn amap_get(m: &OrderMap<String, Vec<String>, RandomState>, k: &String) -> (r: Option<
    Vec<String>,
>)
    ensures
        (r is Some) == authors_contain(author_entries(*m), k@),
        r matches Some(v) ==> v.deep_view() == author_entries(*m)[authors_idx(
            author_entries(*m),
            k@,
        )].1,
{
    m.get(k).cloned()
}

/// Relies on `OrderMap::insert`: an existing name keeps its place and gets
/// the new comments, a new name is appended.
#[verifier::external_body]
pub fn amap_insert(m: &mut OrderMap<String, Vec<String>, RandomState>, k: String, v: Vec<String>)
    ensures
        authors_contain(author_entries(*old(m)), k@) ==> author_entries(*final(m))
            == author_entries(*old(m)).update(
            authors_idx(author_entries(*old(m)), k@),
            (k@, v.deep_view()),
        ),
        !authors_contain(author_entries(*old(m)), k@) ==> author_entries(*final(m))
            == author_entries(*old(m)).push((k@, v.deep_view())),
{
    m.insert(k, v);
}

/// Relies on `OrderMap::remove` (a shift-remove): the entry with the name
/// leaves, the others keep their relative order.
#[verifier::external_body]
pub fn amap_remove(m: &mut OrderMap<String, Vec<String>, RandomState>, k: &String)
    ensures
        authors_contain(author_entries(*old(m)), k@) ==> author_entries(*final(m))
            == author_entries(*old(m)).remove(authors_idx(author_entries(*old(m)), k@)),
        !authors_contain(author_entries(*old(m)), k@) ==> author_entries(*final(m))
            == author_entries(*old(m)),
{
    m.remove(k);
}

/// Relies on `OrderMap::get_index`: the entry at a position in order.
#[verifier::external_body]
pub fn amap_get_index(m: &OrderMap<String, Vec<String>, RandomState>, i: usize) -> (r: Option<
    (String, Vec<String>),
>)
    ensures
        (r is Some) == (i < author_entries(*m).len()),
        r matches Some(e) ==> e.0@ == author_entries(*m)[i as int].0 && e.1.deep_view()
            == author_entries(*m)[i as int].1,
{
    m.get_index(i).map(|kv| (kv.0.clone(), kv.1.clone()))
}

/// What a tag set holds: its tags in insertion order.
pub uninterp spec fn tag_elems(s: OrderSet<String, RandomState>) -> Seq<Seq<char>>;

/// No tag occurs twice.
pub open spec fn tags_unique(es: Seq<Seq<char>>) -> bool {
    forall|i: int, j: int| 0 <= i < j < es.len() ==> (#[trigger] es[i]) != (#[trigger] es[j])
}

/// Whether a tag is present.
pub open spec fn tags_contain(es: Seq<Seq<char>>, t: Seq<char>) -> bool {
    exists|i: int| 0 <= i < es.len() && (#[trigger] es[i]) == t
}

/// Relies on `OrderSet::new`: a new set is empty.
#[verifier::external_body]
pub fn oset_new() -> (s: OrderSet<String, RandomState>)
    ensures
        tag_elems(s) == Seq::<Seq<char>>::empty(),
{
    OrderSet::new()
}

/// Relies on `OrderSet::len`: the number of tags.
#[verifier::external_body]
pub fn oset_len(s: &OrderSet<String, RandomState>) -> (r: usize)
    ensures
        r == tag_elems(*s).len(),
{
    s.len()
}

/// Relies on `OrderSet::contains`: whether a tag is present.
#[verifier::external_body]
pub fn oset_contains(s: &OrderSet<String, RandomState>, t: &String) -> (r: bool)
    ensures
        r == tags_contain(tag_elems(*s), t@),
{
    s.contains(t)
}

/// Relies on `OrderSet::insert`: a present tag keeps its place, a new one
/// is appended.
#[verifier::external_body]
pub fn oset_insert(s: &mut OrderSet<String, RandomState>, t: String)
    ensures
        tags_contain(tag_elems(*old(s)), t@) ==> tag_elems(*final(s)) == tag_elems(*old(s)),
        !tags_contain(tag_elems(*old(s)), t@) ==> tag_elems(*final(s)) == tag_elems(
            *old(s),
        ).push(t@),
{
    s.insert(t);
}

/// Relies on `OrderSet::remove` (a shift-remove): the tag leaves, the
/// others keep their relative order.
#[verifier::external_body]
pub fn oset_remove(s: &mut OrderSet<String, RandomState>, t: &String)
    ensures
        forall|i: int|
            0 <= i < tag_elems(*old(s)).len() && (#[trigger] tag_elems(*old(s))[i]) == t@
                ==> tag_elems(*final(s)) == tag_elems(*old(s)).remove(i),
        !tags_contain(tag_elems(*old(s)), t@) ==> tag_elems(*final(s)) == tag_elems(*old(s)),
{
    s.remove(t);
}

/// Relies on `OrderSet::get_index`: the tag at a position in order.
#[verifier::external_body]
pub fn oset_get_index(s: &OrderSet<String, RandomState>, i: usize) -> (r: Option<String>)
    ensures
        (r is Some) == (i < tag_elems(*s).len()),
        r matches Some(t) ==> t@ == tag_elems(*s)[i as int],
{
    s.get_index(i).cloned()
}

/// A line of tags with its attached comments.
pub struct Tagline {
    /// The tags on this line, in insertion order, each held once.
    pub tags: OrderSet<String, RandomState>,
    /// Comments attached to this tag line.
    pub comments: Vec<String>,
}

/// The tags a tag line denotes: each `#`-prefixed token contributes its
/// remainder, first occurrence first.
pub open spec fn spec_tagline_tags(s: Seq<char>) -> Seq<Seq<char>>
    decreases s.len(),
    via spec_tagline_tags_dec
{
    match spec_split_first(s, ' ') {
        Some(p) => tags_add(spec_tagline_tags_token(p.0), spec_tagline_tags(p.1)),
        None => spec_tagline_tags_token(s),
    }
}

#[via_fn]
proof fn spec_tagline_tags_dec(s: Seq<char>) {
    crate::text::lemma_split_first_parts(s, ' ');
}

/// The tag one token contributes, if it is `#`-prefixed.
pub open spec fn spec_tagline_tags_token(t: Seq<char>) -> Seq<Seq<char>> {
    if t.len() >= 1 && t[0] == '#' {
        seq![t.skip(1)]
    } else {
        Seq::empty()
    }
}

/// The first tags followed by the rest, keeping only first occurrences.
pub open spec fn tags_add(a: Seq<Seq<char>>, b: Seq<Seq<char>>) -> Seq<Seq<char>>
    decreases b.len(),
{
    if b.len() == 0 {
        a
    } else if tags_contain(a, b[0]) {
        tags_add(a, b.drop_first())
    } else {
        tags_add(a.push(b[0]), b.drop_first())
    }
}

impl Tagline {
    /// The tags in order, as the contracts speak of them.
    pub open spec fn spec_tags(&self) -> Seq<Seq<char>> {
        tag_elems(self.tags)
    }

    /// The invariant: each tag occurs once.
    pub open spec fn wf(&self) -> bool {
        tags_unique(self.spec_tags())
    }

    /// An empty tag line.
    pub fn new() -> (r: Tagline)
        ensures
            r.wf(),
            r.spec_tags() == Seq::<Seq<char>>::empty(),
            r.comments@.len() == 0,
    {
        Tagline { tags: oset_new(), comments: Vec::new() }
    }

    /// Parses a tag line: every `#`-prefixed, space-separated token becomes
    /// a tag, first occurrence first; other tokens are ignored.
    pub fn parse(s: &str) -> (r: Tagline)
        ensures
            r.wf(),
            r.spec_tags() == spec_tagline_tags(s@),
            r.comments@.len() == 0,
    {
        let cv = str_to_chars(s);
        let mut tl = Tagline::new();
        let mut rest = cv;
        proof {
            lemma_tagline_tags_unique(s@);
            assert(Seq::<Seq<char>>::empty() + spec_tagline_tags(s@) =~= spec_tagline_tags(s@));
            lemma_tags_add_id(Seq::<Seq<char>>::empty(), spec_tagline_tags(s@));
        }
        loop
            invariant_except_break
                spec_tagline_tags(s@) == tags_add(tl.spec_tags(), spec_tagline_tags(rest@)),
            invariant
                tl.wf(),
                tl.comments@.len() == 0,
            ensures
                tl.wf(),
                tl.comments@.len() == 0,
                tl.spec_tags() == spec_tagline_tags(s@),
            decreases rest@.len(),
        {
            let (tok, rem, last) = match split_first(&rest, ' ') {
                Some((a, b)) => {
                    proof {
                        crate::text::lemma_split_first_some(a@, b@, ' ');
                    }
                    (a, b, false)
                },
                None => {
                    proof {
                        crate::text::lemma_split_first_none(rest@, ' ');
                    }
                    (rest, Vec::new(), true)
                },
            };
            let ghost tags0 = tl.spec_tags();
            if tok.len() >= 1 && tok[0] == '#' {
                let mut tag: Vec<char> = Vec::new();
                let mut i: usize = 1;
                while i < tok.len()
                    invariant
                        1 <= i <= tok@.len(),
                        tag@ == tok@.subrange(1, i as int),
                    decreases tok@.len() - i,
                {
                    tag.push(tok[i]);
                    proof {
                        assert(tok@.subrange(1, i as int).push(tok@[i as int]) =~= tok@.subrange(
                            1,
                            i + 1,
                        ));
                    }
                    i = i + 1;
                }
                proof {
                    assert(tag@ =~= tok@.skip(1));
                }
                let ghost t = tag@;
                oset_insert(&mut tl.tags, chars_to_string(&tag));
                proof {
                    lemma_tags_unique_insert(tags0, t);
                    assert(spec_tagline_tags_token(tok@) =~= seq![t]);
                    assert(seq![t].drop_first() =~= Seq::<Seq<char>>::empty());
                    assert(seq![t][0] == t);
                    assert(tags_add(tags0, Seq::<Seq<char>>::empty()) == tags0);
                    assert(tags_add(tags0.push(t), Seq::<Seq<char>>::empty()) == tags0.push(t));
                    assert(tl.spec_tags() == tags_add(tags0, spec_tagline_tags_token(tok@)));
                }
            } else {
                proof {
                    assert(spec_tagline_tags_token(tok@) =~= Seq::<Seq<char>>::empty());
                    assert(tl.spec_tags() == tags_add(tags0, spec_tagline_tags_token(tok@)));
                }
            }
            if last {
                break ;
            }
            proof {
                lemma_tags_add_assoc(tags0, spec_tagline_tags_token(tok@), spec_tagline_tags(rem@));
            }
            rest = rem;
        }
        tl
    }
}

/// A tag line always denotes duplicate-free tags.
proof fn lemma_tagline_tags_unique(s: Seq<char>)
    ensures
        tags_unique(spec_tagline_tags(s)),
    decreases s.len(),
{
    crate::text::lemma_split_first_parts(s, ' ');
    match spec_split_first(s, ' ') {
        Some(p) => {
            lemma_tagline_tags_unique(p.1);
            lemma_token_tags_unique(p.0);
            lemma_tags_add_unique(spec_tagline_tags_token(p.0), spec_tagline_tags(p.1));
        },
        None => {
            lemma_token_tags_unique(s);
        },
    }
}

/// One token's tags are duplicate-free.
proof fn lemma_token_tags_unique(t: Seq<char>)
    ensures
        tags_unique(spec_tagline_tags_token(t)),
{
}


/// A tag is in the fold exactly when it is in either part.
proof fn lemma_tags_add_member(a: Seq<Seq<char>>, b: Seq<Seq<char>>, x: Seq<char>)
    ensures
        tags_contain(tags_add(a, b), x) == (tags_contain(a, x) || tags_contain(b, x)),
    decreases b.len(),
{
    if b.len() > 0 {
        assert(tags_contain(a.push(b[0]), x) == (tags_contain(a, x) || x == b[0])) by {
            if tags_contain(a, x) {
                let i = choose|i: int| 0 <= i < a.len() && (#[trigger] a[i]) == x;
                assert(a.push(b[0])[i] == x);
            } else if x == b[0] {
                assert(a.push(b[0])[a.len() as int] == x);
            } else {
                if tags_contain(a.push(b[0]), x) {
                    let i = choose|i: int|
                        0 <= i < a.push(b[0]).len() && (#[trigger] a.push(b[0])[i]) == x;
                    if i < a.len() {
                        assert(a[i] == x);
                    }
                }
            }
        }
        assert(tags_contain(b, x) == (x == b[0] || tags_contain(b.drop_first(), x))) by {
            if tags_contain(b, x) && x != b[0] {
                let i = choose|i: int| 0 <= i < b.len() && (#[trigger] b[i]) == x;
                assert(b.drop_first()[i - 1] == x);
            }
            if tags_contain(b.drop_first(), x) {
                let i = choose|i: int|
                    0 <= i < b.drop_first().len() && (#[trigger] b.drop_first()[i]) == x;
                assert(b[i + 1] == x);
            }
            if x == b[0] {
                assert(b[0] == x);
            }
        }
        if tags_contain(a, b[0]) {
            lemma_tags_add_member(a, b.drop_first(), x);
        } else {
            lemma_tags_add_member(a.push(b[0]), b.drop_first(), x);
        }
    }
}

/// Folding one more tag at the end adds it once.
proof fn lemma_tags_add_snoc(a: Seq<Seq<char>>, b: Seq<Seq<char>>, x: Seq<char>)
    ensures
        tags_add(a, b.push(x)) == (if tags_contain(tags_add(a, b), x) {
            tags_add(a, b)
        } else {
            tags_add(a, b).push(x)
        }),
    decreases b.len(),
{
    if b.len() == 0 {
        assert(b.push(x).drop_first() =~= Seq::<Seq<char>>::empty());
        assert(b.push(x)[0] == x);
        assert(tags_add(a, Seq::<Seq<char>>::empty()) == a);
        assert(tags_add(a.push(x), Seq::<Seq<char>>::empty()) == a.push(x));
        assert(tags_add(a, b) == a);
        lemma_tags_add_member(a, b, x);
    } else {
        assert(b.push(x)[0] == b[0]);
        assert(b.push(x).drop_first() =~= b.drop_first().push(x));
        if tags_contain(a, b[0]) {
            lemma_tags_add_snoc(a, b.drop_first(), x);
        } else {
            lemma_tags_add_snoc(a.push(b[0]), b.drop_first(), x);
        }
    }
}

/// Folding a concatenation folds the parts in order.
proof fn lemma_tags_add_assoc(a: Seq<Seq<char>>, b: Seq<Seq<char>>, c: Seq<Seq<char>>)
    ensures
        tags_add(a, tags_add(b, c)) == tags_add(tags_add(a, b), c),
    decreases c.len(),
{
    if c.len() == 0 {
    } else {
        if tags_contain(b, c[0]) {
            lemma_tags_add_assoc(a, b, c.drop_first());
            lemma_tags_add_member(a, b, c[0]);
        } else {
            if tags_contain(a, c[0]) {
                lemma_tags_add_assoc(a, b.push(c[0]), c.drop_first());
                lemma_tags_add_snoc(a, b, c[0]);
                lemma_tags_add_member(a, b, c[0]);
            } else {
                lemma_tags_add_assoc(a, b.push(c[0]), c.drop_first());
                lemma_tags_add_snoc(a, b, c[0]);
                lemma_tags_add_member(a, b, c[0]);
            }
        }
    }
}

/// Folding a duplicate-free list into a compatible prefix appends it.
proof fn lemma_tags_add_id(a: Seq<Seq<char>>, b: Seq<Seq<char>>)
    requires
        tags_unique(a + b),
    ensures
        tags_add(a, b) == a + b,
    decreases b.len(),
{
    if b.len() == 0 {
        assert(a + b =~= a);
    } else {
        assert(!tags_contain(a, b[0])) by {
            if tags_contain(a, b[0]) {
                let i = choose|i: int| 0 <= i < a.len() && (#[trigger] a[i]) == b[0];
                assert((a + b)[i] == b[0]);
                assert((a + b)[a.len() as int] == b[0]);
            }
        }
        assert(a.push(b[0]) + b.drop_first() =~= a + b);
        lemma_tags_add_id(a.push(b[0]), b.drop_first());
    }
}

/// The fold of a unique accumulator stays unique.
proof fn lemma_tags_add_unique(a: Seq<Seq<char>>, b: Seq<Seq<char>>)
    requires
        tags_unique(a),
    ensures
        tags_unique(tags_add(a, b)),
    decreases b.len(),
{
    if b.len() > 0 {
        if tags_contain(a, b[0]) {
            lemma_tags_add_unique(a, b.drop_first());
        } else {
            assert(tags_unique(a.push(b[0]))) by {
                lemma_tags_unique_insert(a, b[0]);
            }
            lemma_tags_add_unique(a.push(b[0]), b.drop_first());
        }
    }
}

/// Inserting keeps tags unique.
proof fn lemma_tags_unique_insert(es: Seq<Seq<char>>, t: Seq<char>)
    requires
        tags_unique(es),
    ensures
        tags_unique(if tags_contain(es, t) {
            es
        } else {
            es.push(t)
        }),
{
    if !tags_contain(es, t) {
        assert forall|i: int, j: int|
            0 <= i < j < es.push(t).len() implies (#[trigger] es.push(t)[i]) != (
        #[trigger] es.push(t)[j]) by {
            if j == es.len() {
                assert(es.push(t)[i] == es[i]);
            }
        }
    }
}

/// The header of a document: scalar keys with their comments, the author
/// lists, tag lines, the palette, the legacy descriptor, and unrecognized
/// keys kept verbatim.
pub struct Header {
    /// Optional title of the artwork.
    pub title: Option<String>,
    /// Comments attached to the title.
    pub title_comments: Comments,
    /// Authors with their comments, in insertion order.
    pub authors: OrderMap<String, Vec<String>, RandomState>,
    /// Original authors with their comments, in insertion order.
    pub orig_authors: OrderMap<String, Vec<String>, RandomState>,
    /// Optional source reference.
    pub src: Option<String>,
    /// Comments attached to the source.
    pub src_comments: Comments,
    /// Optional editor name.
    pub editor: Option<String>,
    /// Comments attached to the editor.
    pub editor_comments: Comments,
    /// Optional license.
    pub license: Option<String>,
    /// Comments attached to the license.
    pub license_comments: Comments,
    /// Optional frame timing.
    pub delay: Option<Delay>,
    /// Comments attached to the delay.
    pub delay_comments: Comments,
    /// Optional loop flag.
    pub loop_flag: Option<bool>,
    /// Comments attached to the loop flag.
    pub loop_comments: Comments,
    /// Optional preview frame index.
    pub preview: Option<usize>,
    /// Comments attached to the preview.
    pub preview_comments: Comments,
    /// Optional colors flag.
    pub colors: Option<bool>,
    /// Comments attached to the colors flag.
    pub colors_comments: Comments,
    /// The color palette.
    pub palette: Palette,
    /// The tag lines, in order.
    pub tags: Vec<Tagline>,
    /// The legacy descriptor, present for the legacy dialect.
    pub legacy: Option<LegacyHeaderInfo>,
    /// Unrecognized key lines with their comments, kept for round-tripping.
    pub extra_keys: Vec<ExtraHeaderKey>,
    /// Comments after the last key.
    pub trailing_comments: Comments,
}

/// An unrecognized header key line with its comments.
#[derive(Debug, Clone)]
pub struct ExtraHeaderKey {
    /// The raw `key value` text of the line.
    pub line: String,
    /// Comments attached to this key.
    pub comments: Vec<String>,
}

impl Header {
    /// The invariant: the palette, the author lists and every tag line are
    /// well formed.
    pub open spec fn wf(&self) -> bool {
        &&& self.palette.wf()
        &&& authors_unique(author_entries(self.authors))
        &&& authors_unique(author_entries(self.orig_authors))
        &&& forall|i: int| 0 <= i < self.tags@.len() ==> (#[trigger] self.tags@[i]).wf()
        &&& self.delay matches Some(d) ==> d.wf()
    }

    /// An empty header.
    pub fn new() -> (r: Header)
        ensures
            r.wf(),
            r.title is None,
            r.src is None,
            r.editor is None,
            r.license is None,
            r.delay is None,
            r.loop_flag is None,
            r.preview is None,
            r.colors is None,
            r.legacy is None,
            author_entries(r.authors) == Seq::<(Seq<char>, Seq<Seq<char>>)>::empty(),
            author_entries(r.orig_authors) == Seq::<(Seq<char>, Seq<Seq<char>>)>::empty(),
            r.palette.entries() == Seq::<PalEntry>::empty(),
            r.tags@.len() == 0,
            r.extra_keys@.len() == 0,
            r.title_comments@.len() == 0,
            r.trailing_comments@.len() == 0,
            r.model() == empty_header_model(),
    {
        let h = Header {
            title: None,
            title_comments: Vec::new(),
            authors: amap_new(),
            orig_authors: amap_new(),
            src: None,
            src_comments: Vec::new(),
            editor: None,
            editor_comments: Vec::new(),
            license: None,
            license_comments: Vec::new(),
            delay: None,
            delay_comments: Vec::new(),
            loop_flag: None,
            loop_comments: Vec::new(),
            preview: None,
            preview_comments: Vec::new(),
            colors: None,
            colors_comments: Vec::new(),
            palette: Palette::new(),
            tags: Vec::new(),
            legacy: None,
            extra_keys: Vec::new(),
            trailing_comments: Vec::new(),
        };
        proof {
            assert(h.model() =~~= empty_header_model());
        }
        h
    }

    /// Removes every tag line.
    pub fn remove_all_tags(&mut self)
        requires
            old(self).wf(),
        ensures
            final(self).wf(),
            final(self).tags@.len() == 0,
            final(self).palette == old(self).palette,
    {
        self.tags = Vec::new();
    }

    /// Whether any tag line carries the tag.
    pub fn contains_tag(&self, tag: &str) -> (r: bool)
        ensures
            r == exists|i: int|
                0 <= i < self.tags@.len() && tags_contain(
                    (#[trigger] self.tags@[i]).spec_tags(),
                    tag@,
                ),
    {
        let t = crate::text::string_from_str(tag);
        let mut i: usize = 0;
        while i < self.tags.len()
            invariant
                i <= self.tags@.len(),
                t@ == tag@,
                forall|k: int|
                    0 <= k < i ==> !tags_contain((#[trigger] self.tags@[k]).spec_tags(), tag@),
            decreases self.tags@.len() - i,
        {
            if oset_contains(&self.tags[i].tags, &t) {
                return true;
            }
            i = i + 1;
        }
        false
    }

    /// Every distinct tag over all tag lines, first occurrence first.
    pub fn tags(&self) -> (r: Vec<String>)
        ensures
            forall|i: int, j: int|
                0 <= i < j < r@.len() ==> (#[trigger] r@[i])@ != (#[trigger] r@[j])@,
            forall|a: int|
                0 <= a < r@.len() ==> #[trigger] tag_from_lines(self.tags@, (#[trigger] r@[a])@),
            forall|k: int, mm: int|
                0 <= k < self.tags@.len() && 0 <= mm < self.tags@[k].spec_tags().len()
                    ==> #[trigger] tag_in_list(r@, self.tags@[k].spec_tags()[mm]),
    {
        let mut out: Vec<String> = Vec::new();
        let mut i: usize = 0;
        while i < self.tags.len()
            invariant
                i <= self.tags@.len(),
                forall|a: int, b: int|
                    0 <= a < b < out@.len() ==> (#[trigger] out@[a])@ != (#[trigger] out@[b])@,
                forall|a: int|
                    0 <= a < out@.len() ==> #[trigger] tag_from_lines(
                        self.tags@,
                        (#[trigger] out@[a])@,
                    ),
                forall|k: int, mm: int|
                    0 <= k < i && 0 <= mm < self.tags@[k].spec_tags().len()
                        ==> #[trigger] tag_in_list(out@, self.tags@[k].spec_tags()[mm]),
            decreases self.tags@.len() - i,
        {
            let n = oset_len(&self.tags[i].tags);
            let mut m: usize = 0;
            while m < n
                invariant
                    m <= n,
                    i < self.tags@.len(),
                    n == self.tags@[i as int].spec_tags().len(),
                    forall|a: int, b: int|
                        0 <= a < b < out@.len() ==> (#[trigger] out@[a])@ != (#[trigger] out@[b])@,
                    forall|a: int|
                        0 <= a < out@.len() ==> #[trigger] tag_from_lines(
                            self.tags@,
                            (#[trigger] out@[a])@,
                        ),
                    forall|k: int, mm: int|
                        0 <= k < i && 0 <= mm < self.tags@[k].spec_tags().len()
                            ==> #[trigger] tag_in_list(out@, self.tags@[k].spec_tags()[mm]),
                    forall|mm: int|
                        0 <= mm < m ==> #[trigger] tag_in_list(
                            out@,
                            self.tags@[i as int].spec_tags()[mm],
                        ),
                decreases n - m,
            {
                let tag = oset_get_index(&self.tags[i].tags, m).unwrap();
                let mut seen = false;
                let mut a: usize = 0;
                while a < out.len()
                    invariant
                        a <= out@.len(),
                        seen == exists|b: int| 0 <= b < a && (#[trigger] out@[b])@ == tag@,
                    decreases out@.len() - a,
                {
                    if crate::text::string_eq(&out[a], &tag) {
                        seen = true;
                    }
                    a = a + 1;
                }
                proof {
                    assert(self.tags@[i as int].spec_tags()[m as int] == tag@);
                }
                if !seen {
                    let ghost out0 = out@;
                    out.push(tag);
                    proof {
                        assert(out@[out0.len() as int]@ == tag@);
                        assert(forall|b: int| 0 <= b < out0.len() ==> out@[b] == out0[b]);
                        assert(tags_contain(self.tags@[i as int].spec_tags(), tag@)) by {
                            assert(self.tags@[i as int].spec_tags()[m as int] == tag@);
                        }
                        assert(tag_from_lines(self.tags@, tag@)) by {
                            assert(0 <= i < self.tags@.len() && tags_contain(
                                self.tags@[i as int].spec_tags(),
                                tag@,
                            ));
                        }
                        assert forall|k: int, mm: int|
                            0 <= k < i && 0 <= mm < self.tags@[k].spec_tags().len()
                                implies #[trigger] tag_in_list(
                            out@,
                            self.tags@[k].spec_tags()[mm],
                        ) by {
                            lemma_tag_in_list_grow(out0, out@, self.tags@[k].spec_tags()[mm]);
                        }
                        assert forall|mm: int|
                            0 <= mm < m + 1 implies #[trigger] tag_in_list(
                            out@,
                            self.tags@[i as int].spec_tags()[mm],
                        ) by {
                            if mm < m {
                                lemma_tag_in_list_grow(
                                    out0,
                                    out@,
                                    self.tags@[i as int].spec_tags()[mm],
                                );
                            } else {
                                assert(out@[out0.len() as int]@ == self.tags@[
                                    i as int
                                ].spec_tags()[mm]);
                            }
                        }
                    }
                } else {
                    proof {
                        let b = choose|b: int|
                            0 <= b < out@.len() && (#[trigger] out@[b])@ == tag@;
                        assert(tag_in_list(out@, self.tags@[i as int].spec_tags()[m as int]));
                    }
                }
                m = m + 1;
            }
            proof {
                assert forall|k: int, mm: int|
                    0 <= k < i + 1 && 0 <= mm < self.tags@[k].spec_tags().len()
                        implies #[trigger] tag_in_list(out@, self.tags@[k].spec_tags()[mm]) by {
                    if k == i {
                        assert(tag_in_list(out@, self.tags@[i as int].spec_tags()[mm]));
                    }
                }
            }
            i = i + 1;
        }
        out
    }

    /// Removes one tag from every tag line; lines left without tags leave.
    pub fn remove_tag(&mut self, tag: &str)
        requires
            old(self).wf(),
        ensures
            final(self).wf(),
            final(self).palette == old(self).palette,
            forall|i: int|
                0 <= i < final(self).tags@.len() ==> !tags_contain(
                    (#[trigger] final(self).tags@[i]).spec_tags(),
                    tag@,
                ) && (#[trigger] final(self).tags@[i]).spec_tags().len() > 0,
    {
        let t = crate::text::string_from_str(tag);
        let mut kept: Vec<Tagline> = Vec::new();
        loop
            invariant
                t@ == tag@,
                self.wf(),
                self.palette == old(self).palette,
                forall|i: int|
                    0 <= i < kept@.len() ==> (#[trigger] kept@[i]).wf() && !tags_contain(
                        kept@[i].spec_tags(),
                        tag@,
                    ) && kept@[i].spec_tags().len() > 0,
            ensures
                self.wf(),
                self.palette == old(self).palette,
                forall|i: int|
                    0 <= i < kept@.len() ==> (#[trigger] kept@[i]).wf() && !tags_contain(
                        kept@[i].spec_tags(),
                        tag@,
                    ) && kept@[i].spec_tags().len() > 0,
                self.tags@.len() == 0,
            decreases self.tags@.len(),
        {
            if self.tags.len() == 0 {
                break ;
            }
            let mut tl = self.tags.remove(0);
            let ghost elems0 = tl.spec_tags();
            oset_remove(&mut tl.tags, &t);
            proof {
                if tags_contain(elems0, tag@) {
                    let i = choose|i: int| 0 <= i < elems0.len() && (#[trigger] elems0[i]) == tag@;
                    assert(tag_elems(tl.tags) == elems0.remove(i));
                    lemma_tags_unique_remove(elems0, i);
                    lemma_tags_removed_gone(elems0, i);
                } else {
                    assert(!tags_contain(tag_elems(tl.tags), tag@));
                }
            }
            if oset_len(&tl.tags) > 0 {
                kept.push(tl);
            }
        }
        self.tags = kept;
    }

    /// Adds a tag: a blank tag or one already present changes nothing; the
    /// tag joins the first tag line, or starts the first one.
    pub fn add_tag(&mut self, tag: &str)
        requires
            old(self).wf(),
        ensures
            final(self).wf(),
            final(self).palette == old(self).palette,
            normalize_seq(tag@).len() == 0 ==> *final(self) == *old(self),
            normalize_seq(tag@).len() > 0 ==> exists|i: int|
                0 <= i < final(self).tags@.len() && tags_contain(
                    (#[trigger] final(self).tags@[i]).spec_tags(),
                    normalize_seq(tag@),
                ),
    {
        let cv = str_to_chars(tag);
        let nv = normalize_chars(&cv);
        if nv.len() == 0 {
            return ;
        }
        let nt = chars_to_string(&nv);
        if self.contains_tag(nt.as_str()) {
            return ;
        }
        if self.tags.len() > 0 {
            let ghost elems0 = self.tags@[0].spec_tags();
            let first = &mut self.tags[0];
            oset_insert(&mut first.tags, nt);
            proof {
                lemma_tags_unique_insert(elems0, nv@);
                if !tags_contain(elems0, nv@) {
                    assert(tag_elems(self.tags@[0].tags)[elems0.len() as int] == nv@);
                }
                assert(tags_contain(self.tags@[0].spec_tags(), normalize_seq(tag@)));
            }
        } else {
            let mut tl = Tagline::new();
            oset_insert(&mut tl.tags, nt);
            proof {
                lemma_tags_unique_insert(Seq::<Seq<char>>::empty(), nv@);
            }
            self.tags.push(tl);
            proof {
                assert(self.tags@[0].spec_tags()[0] == nv@);
                assert(tags_contain(self.tags@[0].spec_tags(), normalize_seq(tag@)));
            }
        }
    }

    /// Removes every comment from the header, its authors, its tag lines,
    /// its extra keys and its palette.
    pub fn strip_comments(&mut self)
        requires
            old(self).wf(),
        ensures
            final(self).wf(),
            final(self).title == old(self).title,
            final(self).title_comments@.len() == 0,
            final(self).src == old(self).src,
            final(self).src_comments@.len() == 0,
            final(self).editor == old(self).editor,
            final(self).editor_comments@.len() == 0,
            final(self).license == old(self).license,
            final(self).license_comments@.len() == 0,
            final(self).delay_comments@.len() == 0,
            final(self).loop_comments@.len() == 0,
            final(self).preview_comments@.len() == 0,
            final(self).colors_comments@.len() == 0,
            final(self).trailing_comments@.len() == 0,
            author_entries(final(self).authors).len() == author_entries(old(self).authors).len(),
            forall|i: int|
                0 <= i < author_entries(old(self).authors).len() ==> (#[trigger] author_entries(
                    final(self).authors,
                )[i]) == (author_entries(old(self).authors)[i].0, Seq::<Seq<char>>::empty()),
            final(self).tags@.len() == old(self).tags@.len(),
            forall|i: int|
                0 <= i < old(self).tags@.len() ==> (#[trigger] final(self).tags@[i]).spec_tags()
                    == old(self).tags@[i].spec_tags() && final(self).tags@[i].comments@.len() == 0,
            final(self).extra_keys@.len() == old(self).extra_keys@.len(),
            forall|i: int|
                0 <= i < old(self).extra_keys@.len() ==> (#[trigger] final(
                    self).extra_keys@[i]).line@ == old(self).extra_keys@[i].line@ && final(
                    self).extra_keys@[i].comments@.len() == 0,
            final(self).palette.entries().len() == old(self).palette.entries().len(),
            forall|i: int|
                0 <= i < old(self).palette.entries().len() ==> (#[trigger] final(
                    self).palette.entries()[i]) == (
                    old(self).palette.entries()[i].0,
                    old(self).palette.entries()[i].1,
                    Seq::<Seq<char>>::empty(),
                ),
    {
        self.title_comments = Vec::new();
        self.src_comments = Vec::new();
        self.editor_comments = Vec::new();
        self.license_comments = Vec::new();
        self.delay_comments = Vec::new();
        self.loop_comments = Vec::new();
        self.preview_comments = Vec::new();
        self.colors_comments = Vec::new();
        self.trailing_comments = Vec::new();
        let n = amap_len(&self.authors);
        let mut i: usize = 0;
        while i < n
            invariant
                i <= n,
                scalars_cleared(*self, *old(self)),
                old(self).wf(),
                self.palette == old(self).palette,
                self.tags == old(self).tags,
                self.extra_keys == old(self).extra_keys,
                self.orig_authors == old(self).orig_authors,
                self.delay == old(self).delay,
                authors_unique(author_entries(self.authors)),
                n == author_entries(self.authors).len(),
                forall|k: int|
                    0 <= k < n ==> (#[trigger] author_entries(self.authors)[k]).0 == author_entries(
                        old(self).authors,
                    )[k].0,
                forall|k: int|
                    i <= k < n ==> (#[trigger] author_entries(self.authors)[k]) == author_entries(
                        old(self).authors,
                    )[k],
                forall|k: int|
                    0 <= k < i ==> (#[trigger] author_entries(self.authors)[k]).1 == Seq::<
                        Seq<char>,
                    >::empty(),
            decreases n - i,
        {
            let ghost es = author_entries(self.authors);
            let e = amap_get_index(&self.authors, i).unwrap();
            let empty: Vec<String> = Vec::new();
            proof {
                assert(empty.deep_view() =~= Seq::<Seq<char>>::empty());
                assert(authors_contain(es, es[i as int].0)) by {
                    assert(es[i as int].0 == es[i as int].0);
                }
                lemma_authors_unique_idx(es, i as int);
            }
            amap_insert(&mut self.authors, e.0, empty);
            i = i + 1;
        }
        let ghost authors_mid = author_entries(self.authors);
        let n2 = self.tags.len();
        let mut j: usize = 0;
        while j < n2
            invariant
                j <= n2,
                scalars_cleared(*self, *old(self)),
                old(self).wf(),
                self.palette == old(self).palette,
                self.extra_keys == old(self).extra_keys,
                self.orig_authors == old(self).orig_authors,
                self.delay == old(self).delay,
                author_entries(self.authors) == authors_mid,
                authors_unique(authors_mid),
                authors_mid.len() == author_entries(old(self).authors).len(),
                forall|k: int|
                    0 <= k < authors_mid.len() ==> (#[trigger] authors_mid[k]) == (
                        author_entries(old(self).authors)[k].0,
                        Seq::<Seq<char>>::empty(),
                    ),
                n2 == self.tags@.len(),
                n2 == old(self).tags@.len(),
                forall|k: int|
                    0 <= k < n2 ==> (#[trigger] self.tags@[k]).spec_tags() == old(
                        self,
                    ).tags@[k].spec_tags() && self.tags@[k].wf(),
                forall|k: int| 0 <= k < j ==> (#[trigger] self.tags@[k]).comments@.len() == 0,
            decreases n2 - j,
        {
            let tl = &mut self.tags[j];
            tl.comments = Vec::new();
            j = j + 1;
        }
        let ghost tags_mid = self.tags@;
        let n3 = self.extra_keys.len();
        let mut k: usize = 0;
        while k < n3
            invariant
                k <= n3,
                scalars_cleared(*self, *old(self)),
                old(self).wf(),
                self.palette == old(self).palette,
                self.orig_authors == old(self).orig_authors,
                self.delay == old(self).delay,
                author_entries(self.authors) == authors_mid,
                authors_unique(authors_mid),
                authors_mid.len() == author_entries(old(self).authors).len(),
                forall|a: int|
                    0 <= a < authors_mid.len() ==> (#[trigger] authors_mid[a]) == (
                        author_entries(old(self).authors)[a].0,
                        Seq::<Seq<char>>::empty(),
                    ),
                self.tags@ == tags_mid,
                tags_mid.len() == old(self).tags@.len(),
                forall|a: int|
                    0 <= a < tags_mid.len() ==> (#[trigger] tags_mid[a]).spec_tags() == old(
                        self,
                    ).tags@[a].spec_tags() && tags_mid[a].comments@.len() == 0 && tags_mid[a].wf(),
                n3 == self.extra_keys@.len(),
                n3 == old(self).extra_keys@.len(),
                forall|a: int|
                    0 <= a < n3 ==> (#[trigger] self.extra_keys@[a]).line@ == old(
                        self,
                    ).extra_keys@[a].line@,
                forall|a: int| 0 <= a < k ==> (#[trigger] self.extra_keys@[a]).comments@.len() == 0,
            decreases n3 - k,
        {
            let ek = &mut self.extra_keys[k];
            ek.comments = Vec::new();
            k = k + 1;
        }
        self.palette.strip_comments();
    }

    /// Whether the document carries colors: the explicit flag, else the
    /// legacy color mode, else whether the palette is non-empty.
    pub fn get_colors(&self) -> (r: bool)
        ensures
            r == spec_get_colors(*self),
    {
        match self.colors {
            Some(colors) => colors,
            None => match &self.legacy {
                Some(legacy) => !(legacy.colors == LegacyColorMode::NoColors),
                None => self.palette.len() > 0,
            },
        }
    }

    /// The color pair a character resolves to.
    pub fn get_color_map(&self, name: Char) -> (r: ColorPair)
        ensures
            r == crate::palette::spec_get_color(self.palette.entries(), name@),
    {
        self.palette.get_color(name)
    }

    /// Sets a character's color pair in the palette.
    pub fn set_color_map(&mut self, name: Char, col: ColorPair)
        requires
            old(self).wf(),
            name.wf(),
        ensures
            final(self).wf(),
            final(self).palette.entries() == crate::palette::spec_set_color(
                old(self).palette.entries(),
                name@,
                col,
            ),
            final(self).tags == old(self).tags,
    {
        self.palette.set_color(name, col);
    }

    /// Removes a character's palette entry.
    pub fn remove_color_map(&mut self, name: Char)
        requires
            old(self).wf(),
        ensures
            final(self).wf(),
            final(self).palette.entries() == if pal_contains(old(self).palette.entries(), name@) {
                old(self).palette.entries().remove(
                    crate::palette::pal_idx(old(self).palette.entries(), name@),
                )
            } else {
                old(self).palette.entries()
            },
            final(self).tags == old(self).tags,
    {
        self.palette.remove_color(name);
    }

    /// The first character mapped to the pair, in insertion order.
    pub fn search_color_map(&self, col: ColorPair) -> (r: Option<Char>)
        requires
            self.wf(),
        ensures
            match r {
                Some(k) => crate::palette::spec_search_color(self.palette.entries(), col) == Some(
                    k@,
                ) && k.wf(),
                None => crate::palette::spec_search_color(self.palette.entries(), col) is None,
            },
    {
        self.palette.search_color(col)
    }

    /// Whether the palette has an explicit entry for the character.
    pub fn contains_color(&self, name: Char) -> (r: bool)
        ensures
            r == pal_contains(self.palette.entries(), name@),
    {
        self.palette.contains_color(name)
    }
}

/// The scalar keys agree and their comments are cleared.
pub open spec fn scalars_cleared(h: Header, h0: Header) -> bool {
    &&& h.title == h0.title
    &&& h.title_comments@.len() == 0
    &&& h.src == h0.src
    &&& h.src_comments@.len() == 0
    &&& h.editor == h0.editor
    &&& h.editor_comments@.len() == 0
    &&& h.license == h0.license
    &&& h.license_comments@.len() == 0
    &&& h.delay_comments@.len() == 0
    &&& h.loop_flag == h0.loop_flag
    &&& h.loop_comments@.len() == 0
    &&& h.preview == h0.preview
    &&& h.preview_comments@.len() == 0
    &&& h.colors == h0.colors
    &&& h.colors_comments@.len() == 0
    &&& h.legacy == h0.legacy
    &&& h.trailing_comments@.len() == 0
}

/// Whether the document carries colors.
pub open spec fn spec_get_colors(h: Header) -> bool {
    match h.colors {
        Some(colors) => colors,
        None => match h.legacy {
            Some(legacy) => legacy.colors != LegacyColorMode::NoColors,
            None => h.palette.entries().len() > 0,
        },
    }
}

/// The author names joined with a comma and a space.
pub open spec fn spec_join_names(names: Seq<Seq<char>>) -> Seq<char>
    decreases names.len(),
{
    if names.len() == 0 {
        Seq::empty()
    } else if names.len() == 1 {
        names[0]
    } else {
        spec_join_names(names.drop_last()) + seq![',', ' '] + names.last()
    }
}

/// The names of both author lists: the original authors, then the authors.
pub open spec fn spec_all_author_names(h: Header) -> Seq<Seq<char>> {
    Seq::new(author_entries(h.orig_authors).len(), |i: int| author_entries(h.orig_authors)[i].0)
        + Seq::new(author_entries(h.authors).len(), |i: int| author_entries(h.authors)[i].0)
}

impl Header {
    /// All authors, original ones first, joined with `, `.
    pub fn authors_line(&self) -> (r: String)
        ensures
            r@ == spec_join_names(spec_all_author_names(*self)),
    {
        let ghost names = spec_all_author_names(*self);
        let mut out: Vec<char> = Vec::new();
        let n1 = amap_len(&self.orig_authors);
        let n2 = amap_len(&self.authors);
        let mut i: usize = 0;
        proof {
            assert(names.subrange(0, 0) =~= Seq::<Seq<char>>::empty());
        }
        while i < n1
            invariant
                i <= n1,
                n1 == author_entries(self.orig_authors).len(),
                n2 == author_entries(self.authors).len(),
                names == spec_all_author_names(*self),
                names.len() == n1 + n2,
                forall|k: int|
                    0 <= k < n1 ==> names[k] == (#[trigger] author_entries(self.orig_authors)[k]).0,
                forall|k: int|
                    0 <= k < n2 ==> names[n1 + k] == (#[trigger] author_entries(self.authors)[k]).0,
                out@ == spec_join_names(names.subrange(0, i as int)),
            decreases n1 - i,
        {
            let e = amap_get_index(&self.orig_authors, i).unwrap();
            if i > 0 {
                out.push(',');
                out.push(' ');
            }
            let nv = str_to_chars(e.0.as_str());
            crate::colors::push_all(&mut out, &nv);
            proof {
                assert(names.subrange(0, i + 1).drop_last() =~= names.subrange(0, i as int));
                assert(names.subrange(0, i + 1).last() == names[i as int]);
                assert(out@ =~= spec_join_names(names.subrange(0, i + 1)));
            }
            i = i + 1;
        }
        let mut j: usize = 0;
        while j < n2
            invariant
                j <= n2,
                n1 == author_entries(self.orig_authors).len(),
                n2 == author_entries(self.authors).len(),
                names == spec_all_author_names(*self),
                names.len() == n1 + n2,
                forall|k: int|
                    0 <= k < n2 ==> names[n1 + k] == (#[trigger] author_entries(self.authors)[k]).0,
                out@ == spec_join_names(names.subrange(0, n1 + j)),
            decreases n2 - j,
        {
            let e = amap_get_index(&self.authors, j).unwrap();
            if n1 > 0 || j > 0 {
                out.push(',');
                out.push(' ');
            }
            let nv = str_to_chars(e.0.as_str());
            crate::colors::push_all(&mut out, &nv);
            proof {
                assert(names.subrange(0, n1 + j + 1).drop_last() =~= names.subrange(0, n1 + j));
                assert(names.subrange(0, n1 + j + 1).last() == names[n1 + j]);
                assert(out@ =~= spec_join_names(names.subrange(0, n1 + j + 1)));
            }
            j = j + 1;
        }
        proof {
            assert(names.subrange(0, names.len() as int) =~= names);
        }
        chars_to_string(&out)
    }

    /// A display line: the title, the authors, or `<title> by <authors>`.
    pub fn title_line(&self) -> (r: String)
        ensures
            r@ == spec_title_line(*self),
    {
        let authors = self.authors_line();
        match &self.title {
            Some(s) => {
                if authors.as_str().unicode_len() == 0 {
                    let out = str_to_chars(s.as_str());
                    chars_to_string(&out)
                } else {
                    let mut out = str_to_chars(s.as_str());
                    let by = str_to_chars(" by ");
                    proof {
                        reveal_strlit(" by ");
                        assert(by@ =~= seq![' ', 'b', 'y', ' ']);
                    }
                    crate::colors::push_all(&mut out, &by);
                    let av = str_to_chars(authors.as_str());
                    crate::colors::push_all(&mut out, &av);
                    chars_to_string(&out)
                }
            },
            None => {
                if authors.as_str().unicode_len() == 0 {
                    let out: Vec<char> = Vec::new();
                    proof {
                        assert(out@ =~= Seq::<char>::empty());
                    }
                    chars_to_string(&out)
                } else {
                    let mut out = str_to_chars("art by ");
                    proof {
                        reveal_strlit("art by ");
                        assert(out@ =~= seq!['a', 'r', 't', ' ', 'b', 'y', ' ']);
                    }
                    let av = str_to_chars(authors.as_str());
                    crate::colors::push_all(&mut out, &av);
                    chars_to_string(&out)
                }
            },
        }
    }
}

/// The display line of a header: its title, `art by <authors>`, or
/// `<title> by <authors>`.
pub open spec fn spec_title_line(h: Header) -> Seq<char> {
    let authors = spec_join_names(spec_all_author_names(h));
    match h.title {
        Some(s) => if authors.len() == 0 {
            s@
        } else {
            s@ + seq![' ', 'b', 'y', ' '] + authors
        },
        None => if authors.len() == 0 {
            Seq::empty()
        } else {
            seq!['a', 'r', 't', ' ', 'b', 'y', ' '] + authors
        },
    }
}

/// What a flag value means: `yes`/`true` and `no`/`false`, after trimming
/// and case folding; anything else is a flag error naming the key.
pub open spec fn spec_flag_value(v: Seq<char>) -> Option<bool> {
    let t = crate::text::spec_lower(spec_trim(v));
    if t == seq!['y', 'e', 's'] || t == seq!['t', 'r', 'u', 'e'] {
        Some(true)
    } else if t == seq!['n', 'o'] || t == seq!['f', 'a', 'l', 's', 'e'] {
        Some(false)
    } else {
        None
    }
}

/// Parses a flag value: `yes`/`true`/`no`/`false`, case-insensitively.
pub fn header_value_to_bool(k: &str, v: &str) -> (r: Result<bool, Error>)
    ensures
        match spec_flag_value(v@) {
            Some(b) => r == Ok::<bool, Error>(b),
            None => r matches Err(e) && (e matches Error::HeaderFlagKey(m) && m@ == k@),
        },
{
    let cv = str_to_chars(v);
    let t = trim_chars(&cv);
    let lo = crate::text::lower_chars(&t);
    proof {
        reveal_strlit("yes");
        reveal_strlit("true");
        reveal_strlit("no");
        reveal_strlit("false");
        assert("yes"@ =~= seq!['y', 'e', 's']);
        assert("true"@ =~= seq!['t', 'r', 'u', 'e']);
        assert("no"@ =~= seq!['n', 'o']);
        assert("false"@ =~= seq!['f', 'a', 'l', 's', 'e']);
    }
    if chars_eq_str(&lo, "yes") || chars_eq_str(&lo, "true") {
        Ok(true)
    } else if chars_eq_str(&lo, "no") || chars_eq_str(&lo, "false") {
        Ok(false)
    } else {
        Err(Error::HeaderFlagKey(crate::text::string_from_str(k)))
    }
}

/// Parses a palette key: exactly one character, which must be allowed.
pub fn color_name_str_to_char(name: &str) -> (r: Result<Char, Error>)
    ensures
        name@.len() == 1 ==> match crate::chars::spec_check_char(name@[0]) {
            Some(k) => r matches Ok(c) && c@ == k && c.wf(),
            None => r matches Err(e) && (e matches Error::DisallowedChar(cp) && cp == name@[0]
                as u32),
        },
        name@.len() != 1 ==> (r matches Err(e) && e matches Error::StrToCharConversion(n) && n
            == name@.len()),
{
    let cv = str_to_chars(name);
    if cv.len() == 1 {
        Char::new(cv[0])
    } else {
        Err(Error::StrToCharConversion(cv.len()))
    }
}

impl Header {
    /// Sets the legacy color mode from its token, defaulting silently.
    pub(crate) fn set_legacy_mode_str(&mut self, mode: &Vec<char>)
        requires
            old(self).wf(),
        ensures
            final(self).wf(),
            final(self).model() == (HeaderV {
                legacy: Some(
                    LegacyHeaderInfo {
                        colors: spec_legacy_mode(mode@),
                        width: spec_legacy_of(old(self).legacy).width,
                        height: spec_legacy_of(old(self).legacy).height,
                    },
                ),
                ..old(self).model()
            }),
    {
        proof {
            reveal_strlit("none");
            reveal_strlit("fg");
            reveal_strlit("bg");
            reveal_strlit("full");
            assert("none"@ =~= seq!['n', 'o', 'n', 'e']);
            assert("fg"@ =~= seq!['f', 'g']);
            assert("bg"@ =~= seq!['b', 'g']);
            assert("full"@ =~= seq!['f', 'u', 'l', 'l']);
        }
        let t = trim_chars(mode);
        let lo = crate::text::lower_chars(&t);
        let colors = if chars_eq_str(&lo, "none") {
            LegacyColorMode::NoColors
        } else if chars_eq_str(&lo, "fg") {
            LegacyColorMode::FgOnly
        } else if chars_eq_str(&lo, "bg") {
            LegacyColorMode::BgOnly
        } else if chars_eq_str(&lo, "full") {
            LegacyColorMode::FgAndBg
        } else {
            LegacyColorMode::NoColors
        };
        let mut l = match &self.legacy {
            Some(l) => *l,
            None => LegacyHeaderInfo { colors: LegacyColorMode::NoColors, width: 0, height: 0 },
        };
        l.colors = colors;
        self.legacy = Some(l);
        proof {
            assert(self.model() =~= HeaderV {
                legacy: self.legacy,
                ..old(self).model()
            });
        }
    }

    /// Sets the legacy width.
    pub(crate) fn set_legacy_width(&mut self, width: usize)
        requires
            old(self).wf(),
        ensures
            final(self).wf(),
            final(self).model() == (HeaderV {
                legacy: Some(
                    LegacyHeaderInfo {
                        colors: spec_legacy_of(old(self).legacy).colors,
                        width,
                        height: spec_legacy_of(old(self).legacy).height,
                    },
                ),
                ..old(self).model()
            }),
    {
        let mut l = match &self.legacy {
            Some(l) => *l,
            None => LegacyHeaderInfo { colors: LegacyColorMode::NoColors, width: 0, height: 0 },
        };
        l.width = width;
        self.legacy = Some(l);
        proof {
            assert(self.model() =~= HeaderV {
                legacy: self.legacy,
                ..old(self).model()
            });
        }
    }

    /// Sets the legacy height.
    pub(crate) fn set_legacy_height(&mut self, height: usize)
        requires
            old(self).wf(),
        ensures
            final(self).wf(),
            final(self).model() == (HeaderV {
                legacy: Some(
                    LegacyHeaderInfo {
                        colors: spec_legacy_of(old(self).legacy).colors,
                        width: spec_legacy_of(old(self).legacy).width,
                        height,
                    },
                ),
                ..old(self).model()
            }),
    {
        let mut l = match &self.legacy {
            Some(l) => *l,
            None => LegacyHeaderInfo { colors: LegacyColorMode::NoColors, width: 0, height: 0 },
        };
        l.height = height;
        self.legacy = Some(l);
        proof {
            assert(self.model() =~= HeaderV {
                legacy: self.legacy,
                ..old(self).model()
            });
        }
    }
}

/// The legacy descriptor, or the default when none was declared yet.
pub open spec fn spec_legacy_of(l: Option<LegacyHeaderInfo>) -> LegacyHeaderInfo {
    match l {
        Some(i) => i,
        None => LegacyHeaderInfo { colors: LegacyColorMode::NoColors, width: 0, height: 0 },
    }
}

/// The model of a header as the parser builds it: every field as plain
/// sequences and options.
#[verifier::ext_equal]
pub struct HeaderV {
    pub title: Option<Seq<char>>,
    pub title_comments: Seq<Seq<char>>,
    pub authors: Seq<(Seq<char>, Seq<Seq<char>>)>,
    pub orig_authors: Seq<(Seq<char>, Seq<Seq<char>>)>,
    pub src: Option<Seq<char>>,
    pub src_comments: Seq<Seq<char>>,
    pub editor: Option<Seq<char>>,
    pub editor_comments: Seq<Seq<char>>,
    pub license: Option<Seq<char>>,
    pub license_comments: Seq<Seq<char>>,
    pub delay: Option<crate::delay::DelayV>,
    pub delay_comments: Seq<Seq<char>>,
    pub loop_flag: Option<bool>,
    pub loop_comments: Seq<Seq<char>>,
    pub preview: Option<usize>,
    pub preview_comments: Seq<Seq<char>>,
    pub colors: Option<bool>,
    pub colors_comments: Seq<Seq<char>>,
    pub palette: Seq<PalEntry>,
    pub tags: Seq<(Seq<Seq<char>>, Seq<Seq<char>>)>,
    pub legacy: Option<LegacyHeaderInfo>,
    pub extra_keys: Seq<(Seq<char>, Seq<Seq<char>>)>,
    pub trailing_comments: Seq<Seq<char>>,
}

/// The view of an optional string.
pub open spec fn opt_view(v: Option<String>) -> Option<Seq<char>> {
    match v {
        Some(s) => Some(s@),
        None => None,
    }
}

/// The view of an optional delay.
pub open spec fn delay_view(v: Option<Delay>) -> Option<crate::delay::DelayV> {
    match v {
        Some(d) => Some((d.spec_global(), d.overrides())),
        None => None,
    }
}

impl Header {
    /// This header as the parser's model.
    pub open spec fn model(&self) -> HeaderV {
        HeaderV {
            title: opt_view(self.title),
            title_comments: lines_view(self.title_comments@),
            authors: author_entries(self.authors),
            orig_authors: author_entries(self.orig_authors),
            src: opt_view(self.src),
            src_comments: lines_view(self.src_comments@),
            editor: opt_view(self.editor),
            editor_comments: lines_view(self.editor_comments@),
            license: opt_view(self.license),
            license_comments: lines_view(self.license_comments@),
            delay: delay_view(self.delay),
            delay_comments: lines_view(self.delay_comments@),
            loop_flag: self.loop_flag,
            loop_comments: lines_view(self.loop_comments@),
            preview: self.preview,
            preview_comments: lines_view(self.preview_comments@),
            colors: self.colors,
            colors_comments: lines_view(self.colors_comments@),
            palette: self.palette.entries(),
            tags: Seq::new(
                self.tags@.len(),
                |i: int| (tag_elems(self.tags@[i].tags), lines_view(self.tags@[i].comments@)),
            ),
            legacy: self.legacy,
            extra_keys: Seq::new(
                self.extra_keys@.len(),
                |i: int|
                    (self.extra_keys@[i].line@, lines_view(self.extra_keys@[i].comments@)),
            ),
            trailing_comments: lines_view(self.trailing_comments@),
        }
    }
}

/// The empty header model.
pub open spec fn empty_header_model() -> HeaderV {
    HeaderV {
        title: None,
        title_comments: Seq::empty(),
        authors: Seq::empty(),
        orig_authors: Seq::empty(),
        src: None,
        src_comments: Seq::empty(),
        editor: None,
        editor_comments: Seq::empty(),
        license: None,
        license_comments: Seq::empty(),
        delay: None,
        delay_comments: Seq::empty(),
        loop_flag: None,
        loop_comments: Seq::empty(),
        preview: None,
        preview_comments: Seq::empty(),
        colors: None,
        colors_comments: Seq::empty(),
        palette: Seq::empty(),
        tags: Seq::empty(),
        legacy: None,
        extra_keys: Seq::empty(),
        trailing_comments: Seq::empty(),
    }
}

/// How parsing a header line fails: a key without a value or a repeated
/// scalar key, a bad flag or preview value (payload as written), a bad
/// delay or color-pair token, a bad palette key, or a repeated palette key.
pub enum HeaderErr {
    NoValue(Seq<char>),
    Dup(Seq<char>),
    Flag(Seq<char>),
    Preview(Seq<char>),
    Delay(DelayErr),
    Pair(PairErr),
    NameChar(u32),
    NameLen(nat),
    MapDup(char),
}

/// An author list with one name recorded: a known name gains the comments,
/// a new one is appended with them.
pub open spec fn authors_step(
    es: Seq<(Seq<char>, Seq<Seq<char>>)>,
    name: Seq<char>,
    comments: Seq<Seq<char>>,
) -> Seq<(Seq<char>, Seq<Seq<char>>)> {
    if authors_contain(es, name) {
        es.update(authors_idx(es, name), (name, es[authors_idx(es, name)].1 + comments))
    } else {
        es.push((name, comments))
    }
}

/// A tag-line list with one parsed line attached: without pending comments
/// its tags merge into the last line, else it starts a new line.
pub open spec fn tags_step(
    ts: Seq<(Seq<Seq<char>>, Seq<Seq<char>>)>,
    tl: Seq<Seq<char>>,
    comments: Seq<Seq<char>>,
) -> Seq<(Seq<Seq<char>>, Seq<Seq<char>>)> {
    if ts.len() > 0 && comments.len() == 0 {
        ts.update(ts.len() - 1, (tags_add(ts.last().0, tl), ts.last().1))
    } else {
        ts.push((tl, comments))
    }
}

/// One non-blank normalized modern header line applied to the model being
/// built: a `;;` line joins the comment buffer, a `#` line is a tag line,
/// a recognized key becomes its typed field taking the buffered comments,
/// an unknown key is kept verbatim.
pub open spec fn spec_modern_line(
    h: HeaderV,
    comments: Seq<Seq<char>>,
    line: Seq<char>,
) -> Result<(HeaderV, Seq<Seq<char>>), HeaderErr> {
    if line.len() >= 2 && line.subrange(0, 2) == seq![';', ';'] {
        Ok((h, comments.push(spec_trim(line.skip(2)))))
    } else if line[0] == '#' {
        Ok((HeaderV { tags: tags_step(h.tags, spec_tagline_tags(line), comments), ..h }, Seq::empty()))
    } else {
        match spec_split_first(line, ' ') {
            None => Err(HeaderErr::NoValue(line)),
            Some(kv) => spec_modern_key(h, comments, spec_trim(kv.0), spec_trim(kv.1)),
        }
    }
}

/// A recognized or unknown modern key applied to the model being built.
pub open spec fn spec_modern_key(
    h: HeaderV,
    comments: Seq<Seq<char>>,
    key: Seq<char>,
    values: Seq<char>,
) -> Result<(HeaderV, Seq<Seq<char>>), HeaderErr> {
    if key == seq!['t', 'i', 't', 'l', 'e'] {
        if h.title is Some {
            Err(HeaderErr::Dup(key))
        } else {
            Ok((HeaderV { title: Some(values), title_comments: comments, ..h }, Seq::empty()))
        }
    } else if key == seq!['o', 'r', 'i', 'g', '-', 'a', 'u', 't', 'h', 'o', 'r'] {
        Ok(
            (
                HeaderV { orig_authors: authors_step(h.orig_authors, values, comments), ..h },
                Seq::empty(),
            ),
        )
    } else if key == seq!['a', 'u', 't', 'h', 'o', 'r'] {
        Ok((HeaderV { authors: authors_step(h.authors, values, comments), ..h }, Seq::empty()))
    } else if key == seq!['s', 'r', 'c'] {
        if h.src is Some {
            Err(HeaderErr::Dup(key))
        } else {
            Ok((HeaderV { src: Some(values), src_comments: comments, ..h }, Seq::empty()))
        }
    } else if key == seq!['e', 'd', 'i', 't', 'o', 'r'] {
        if h.editor is Some {
            Err(HeaderErr::Dup(key))
        } else {
            Ok((HeaderV { editor: Some(values), editor_comments: comments, ..h }, Seq::empty()))
        }
    } else if key == seq!['l', 'i', 'c', 'e', 'n', 's', 'e'] {
        if h.license is Some {
            Err(HeaderErr::Dup(key))
        } else {
            Ok((HeaderV { license: Some(values), license_comments: comments, ..h }, Seq::empty()))
        }
    } else if key == seq!['d', 'e', 'l', 'a', 'y'] {
        if h.delay is Some {
            Err(HeaderErr::Dup(key))
        } else {
            match spec_parse_delay(values) {
                Ok(dv) => Ok(
                    (HeaderV { delay: Some(dv), delay_comments: comments, ..h }, Seq::empty()),
                ),
                Err(e) => Err(HeaderErr::Delay(e)),
            }
        }
    } else if key == seq!['l', 'o', 'o', 'p'] {
        if h.loop_flag is Some {
            Err(HeaderErr::Dup(key))
        } else {
            match crate::header::spec_flag_value(values) {
                Some(b) => Ok(
                    (HeaderV { loop_flag: Some(b), loop_comments: comments, ..h }, Seq::empty()),
                ),
                None => Err(HeaderErr::Flag(seq!['l', 'o', 'o', 'p'])),
            }
        }
    } else if key == seq!['p', 'r', 'e', 'v', 'i', 'e', 'w'] {
        if h.preview is Some {
            Err(HeaderErr::Dup(key))
        } else {
            match crate::text::spec_parse_usize(values) {
                Some(v) => Ok(
                    (HeaderV { preview: Some(v), preview_comments: comments, ..h }, Seq::empty()),
                ),
                None => Err(HeaderErr::Preview(values)),
            }
        }
    } else if key == seq!['c', 'o', 'l', 'o', 'r', 's'] {
        if h.colors is Some {
            Err(HeaderErr::Dup(key))
        } else {
            match crate::header::spec_flag_value(values) {
                Some(b) => Ok(
                    (HeaderV { colors: Some(b), colors_comments: comments, ..h }, Seq::empty()),
                ),
                None => Err(HeaderErr::Flag(seq!['c', 'o', 'l', 'o', 'r', 's'])),
            }
        }
    } else if key == seq!['c', 'o', 'l'] {
        spec_col_key(h, comments, values)
    } else {
        Ok(
            (
                HeaderV {
                    extra_keys: h.extra_keys.push((key + seq![' '] + values, comments)),
                    ..h
                },
                Seq::empty(),
            ),
        )
    }
}

/// A `col` palette line applied to the model being built.
pub open spec fn spec_col_key(
    h: HeaderV,
    comments: Seq<Seq<char>>,
    values: Seq<char>,
) -> Result<(HeaderV, Seq<Seq<char>>), HeaderErr> {
    let name_tok = match spec_split_first(values, ' ') {
        Some(p) => p.0,
        None => values,
    };
    let rest = match spec_split_first(values, ' ') {
        Some(p) => p.1,
        None => Seq::empty(),
    };
    if name_tok.len() != 1 {
        Err(HeaderErr::NameLen(name_tok.len()))
    } else {
        match crate::chars::spec_check_char(name_tok[0]) {
            None => Err(HeaderErr::NameChar(name_tok[0] as u32)),
            Some(k) => {
                match crate::colors::spec_parse_pair(rest) {
                    Ok(pair) => {
                        if pal_contains(h.palette, k) {
                            Err(HeaderErr::MapDup(k))
                        } else {
                            Ok(
                                (
                                    HeaderV {
                                        palette: h.palette.push((k, pair, comments)),
                                        ..h
                                    },
                                    Seq::empty(),
                                ),
                            )
                        }
                    },
                    Err(e) => Err(HeaderErr::Pair(e)),
                }
            },
        }
    }
}

/// The modern header fold: lines from the position up to the first blank
/// one (consumed) or the end, `@3a` markers skipped, each other line
/// applied by `spec_modern_line`; pending comments become the trailing
/// comments.
pub open spec fn spec_read_modern(
    ls: Seq<Seq<char>>,
    pos: int,
    h: HeaderV,
    comments: Seq<Seq<char>>,
) -> Result<(HeaderV, int), HeaderErr>
    decreases ls.len() - pos,
    when 0 <= pos <= ls.len()
{
    if pos >= ls.len() {
        Ok((HeaderV { trailing_comments: comments, ..h }, pos))
    } else {
        let line = normalize_seq(ls[pos]);
        if line.len() == 0 {
            Ok((HeaderV { trailing_comments: comments, ..h }, pos + 1))
        } else if line == seq!['@', '3', 'a'] {
            spec_read_modern(ls, pos + 1, h, comments)
        } else {
            match spec_modern_line(h, comments, line) {
                Ok(st) => spec_read_modern(ls, pos + 1, st.0, st.1),
                Err(e) => Err(e),
            }
        }
    }
}

/// A recognized or unknown legacy key applied to the model being built.
pub open spec fn spec_legacy_key(
    h: HeaderV,
    comments: Seq<Seq<char>>,
    key: Seq<char>,
    values: Seq<char>,
) -> Result<(HeaderV, Seq<Seq<char>>), HeaderErr> {
    if key == seq!['t', 'i', 't', 'l', 'e'] {
        if h.title is Some {
            Err(HeaderErr::Dup(key))
        } else {
            Ok((HeaderV { title: Some(values), title_comments: comments, ..h }, Seq::empty()))
        }
    } else if key == seq!['a', 'u', 't', 'h', 'o', 'r'] {
        Ok((HeaderV { authors: authors_step(h.authors, values, comments), ..h }, Seq::empty()))
    } else if key == seq!['l', 'o', 'o', 'p'] {
        if h.loop_flag is Some {
            Err(HeaderErr::Dup(key))
        } else {
            match spec_flag_value(values) {
                Some(b) => Ok(
                    (HeaderV { loop_flag: Some(b), loop_comments: comments, ..h }, Seq::empty()),
                ),
                None => Err(HeaderErr::Flag(seq!['l', 'o', 'o', 'p'])),
            }
        }
    } else if key == seq!['p', 'r', 'e', 'v', 'i', 'e', 'w'] {
        if h.preview is Some {
            Err(HeaderErr::Dup(key))
        } else {
            match crate::text::spec_parse_usize(values) {
                Some(v) => Ok(
                    (HeaderV { preview: Some(v), preview_comments: comments, ..h }, Seq::empty()),
                ),
                None => Err(HeaderErr::Preview(values)),
            }
        }
    } else if key == seq!['d', 'e', 'l', 'a', 'y'] {
        if h.delay is Some {
            Err(HeaderErr::Dup(key))
        } else {
            match spec_parse_delay(values) {
                Ok(dv) => Ok(
                    (HeaderV { delay: Some(dv), delay_comments: comments, ..h }, Seq::empty()),
                ),
                Err(e) => Err(HeaderErr::Delay(e)),
            }
        }
    } else if key == seq!['c', 'o', 'l', 'o', 'r', 's'] {
        Ok(
            (
                HeaderV {
                    legacy: Some(
                        LegacyHeaderInfo {
                            colors: spec_legacy_mode(values),
                            width: spec_legacy_of(h.legacy).width,
                            height: spec_legacy_of(h.legacy).height,
                        },
                    ),
                    ..h
                },
                Seq::empty(),
            ),
        )
    } else if key == seq!['w', 'i', 'd', 't', 'h'] {
        match crate::text::spec_parse_usize(values) {
            Some(v) => Ok(
                (
                    HeaderV {
                        legacy: Some(
                            LegacyHeaderInfo {
                                colors: spec_legacy_of(h.legacy).colors,
                                width: v,
                                height: spec_legacy_of(h.legacy).height,
                            },
                        ),
                        ..h
                    },
                    Seq::empty(),
                ),
            ),
            None => Err(HeaderErr::Preview(values)),
        }
    } else if key == seq!['h', 'e', 'i', 'g', 'h', 't'] {
        match crate::text::spec_parse_usize(values) {
            Some(v) => Ok(
                (
                    HeaderV {
                        legacy: Some(
                            LegacyHeaderInfo {
                                colors: spec_legacy_of(h.legacy).colors,
                                width: spec_legacy_of(h.legacy).width,
                                height: v,
                            },
                        ),
                        ..h
                    },
                    Seq::empty(),
                ),
            ),
            None => Err(HeaderErr::Preview(values)),
        }
    } else {
        Ok(
            (
                HeaderV {
                    extra_keys: h.extra_keys.push((key + seq![' '] + values, comments)),
                    ..h
                },
                Seq::empty(),
            ),
        )
    }
}

/// What a legacy `colors` value means: `none`, `fg`, `bg` or `full` after
/// trimming and case folding; anything else falls back to no colors.
pub open spec fn spec_legacy_mode(v: Seq<char>) -> LegacyColorMode {
    let t = crate::text::spec_lower(spec_trim(v));
    if t == seq!['n', 'o', 'n', 'e'] {
        LegacyColorMode::NoColors
    } else if t == seq!['f', 'g'] {
        LegacyColorMode::FgOnly
    } else if t == seq!['b', 'g'] {
        LegacyColorMode::BgOnly
    } else if t == seq!['f', 'u', 'l', 'l'] {
        LegacyColorMode::FgAndBg
    } else {
        LegacyColorMode::NoColors
    }
}

/// What one raw legacy line leaves of the model: a blank raw or normalized
/// line ends the header, a tab-led line is a comment, a tab splits off an
/// inline comment, `@` lines are comments, `#` lines are tag lines, `utf8`
/// lines are skipped, anything else is a key line.
pub open spec fn spec_legacy_line(
    h: HeaderV,
    comments: Seq<Seq<char>>,
    line: Seq<char>,
) -> Result<(HeaderV, Seq<Seq<char>>), HeaderErr> {
    if line.len() >= 1 && line[0] == '@' {
        Ok((h, comments.push(spec_trim(line.skip(1)))))
    } else if line[0] == '#' {
        Ok(
            (
                HeaderV { tags: tags_step(h.tags, spec_tagline_tags(line), comments), ..h },
                Seq::empty(),
            ),
        )
    } else if line.len() >= 4 && line.subrange(0, 4) == seq!['u', 't', 'f', '8'] {
        Ok((h, comments))
    } else {
        match spec_split_first(line, ' ') {
            None => Err(HeaderErr::NoValue(line)),
            Some(kv) => spec_legacy_key(h, comments, spec_trim(kv.0), spec_trim(kv.1)),
        }
    }
}

/// The text a legacy line contributes: the part before the first tab
/// (`None` marks a tab-led pure comment line), normalized.
pub open spec fn spec_legacy_payload(raw: Seq<char>) -> Option<Seq<char>> {
    match spec_split_first(raw, '\t') {
        Some(p) => if p.0.len() == 0 {
            None
        } else {
            Some(normalize_seq(p.0))
        },
        None => Some(normalize_seq(raw)),
    }
}

/// The comment a tab-led legacy line contributes.
pub open spec fn spec_legacy_tab_comment(raw: Seq<char>) -> Seq<char> {
    match spec_split_first(raw, '\t') {
        Some(p) => spec_trim(normalize_seq(p.1)),
        None => Seq::empty(),
    }
}

/// The legacy header fold: raw lines from the position; an empty raw line
/// or one whose payload normalizes to nothing ends the header (consumed);
/// tab-led lines buffer their comment; the rest go through
/// `spec_legacy_line`.
pub open spec fn spec_read_legacy(
    ls: Seq<Seq<char>>,
    pos: int,
    h: HeaderV,
    comments: Seq<Seq<char>>,
) -> Result<(HeaderV, int), HeaderErr>
    decreases ls.len() - pos,
    when 0 <= pos <= ls.len()
{
    if pos >= ls.len() {
        Ok((HeaderV { trailing_comments: comments, ..h }, pos))
    } else if ls[pos].len() == 0 {
        Ok((HeaderV { trailing_comments: comments, ..h }, pos + 1))
    } else {
        match spec_legacy_payload(ls[pos]) {
            None => spec_read_legacy(
                ls,
                pos + 1,
                h,
                comments.push(spec_legacy_tab_comment(ls[pos])),
            ),
            Some(line) => {
                if line.len() == 0 {
                    Ok((HeaderV { trailing_comments: comments, ..h }, pos + 1))
                } else {
                    match spec_legacy_line(h, comments, line) {
                        Ok(st) => spec_read_legacy(ls, pos + 1, st.0, st.1),
                        Err(e) => Err(e),
                    }
                }
            },
        }
    }
}

/// The header of a document: an empty stream gives an empty header with
/// one blank trailing comment; a first line that is exactly `@3a` selects
/// the modern fold, anything else the legacy fold.
pub open spec fn spec_read_header(ls: Seq<Seq<char>>, pos: int) -> Result<(HeaderV, int), HeaderErr>
    recommends
        0 <= pos <= ls.len(),
{
    if pos >= ls.len() {
        Ok(
            (
                HeaderV {
                    trailing_comments: seq![Seq::<char>::empty()],
                    ..empty_header_model()
                },
                pos,
            ),
        )
    } else if ls[pos] == seq!['@', '3', 'a'] {
        spec_read_modern(ls, pos, empty_header_model(), Seq::empty())
    } else {
        spec_read_legacy(ls, pos, empty_header_model(), Seq::empty())
    }
}

/// Whether an error value carries what a header parse error denotes.
pub open spec fn header_err_matches(e: Error, he: HeaderErr) -> bool {
    match he {
        HeaderErr::NoValue(l) => e matches Error::HeaderKeyWithoutValue(m) && m@ == l,
        HeaderErr::Dup(k) => e matches Error::HeaderKeyDup(m) && m@ == k,
        HeaderErr::Flag(k) => e matches Error::HeaderFlagKey(m) && m@ == k,
        HeaderErr::Preview(v) => e matches Error::PreviewParsing(m) && m@ == v,
        HeaderErr::Delay(de) => match de {
            DelayErr::Global(t) => e matches Error::GlobalDelayParsing(m) && m@ == t,
            DelayErr::PerFrame(t) => e matches Error::PerFrameDelayParsing(m) && m@ == t,
            DelayErr::Dup(f, t) => e matches Error::PerFrameDelayDup(g, m) && g == f && m@ == t,
            DelayErr::Void => e is DelayLineVoid,
        },
        HeaderErr::Pair(pe) => match pe {
            PairErr::DupFg => e matches Error::ColorDuplicate(n, _l) && n@ == seq!['f', 'g'],
            PairErr::DupBg => e matches Error::ColorDuplicate(n, _l) && n@ == seq!['b', 'g'],
            PairErr::Color(t) => e matches Error::ColorParsing(m) && m@ == t,
            PairErr::Token => e is ColorParsing,
        },
        HeaderErr::NameChar(cp) => e matches Error::DisallowedChar(c) && c == cp,
        HeaderErr::NameLen(n) => e matches Error::StrToCharConversion(m) && m == n,
        HeaderErr::MapDup(k) => e matches Error::ColorMapDup(m) && m@ == seq![k],
    }
}

impl Header {
    /// Attaches a parsed tag line: without pending comments it merges into
    /// the last tag line, otherwise it starts a new one carrying them.
    fn push_tagline(&mut self, tl: Tagline, comments: &mut Vec<String>)
        requires
            old(self).wf(),
            tl.wf(),
        ensures
            final(self).wf(),
            final(comments)@.len() == 0,
            final(self).model() == (HeaderV {
                tags: tags_step(
                    old(self).model().tags,
                    tl.spec_tags(),
                    lines_view(old(comments)@),
                ),
                ..old(self).model()
            }),
    {
        let ghost h0 = self.model();
        let ghost tlv = tl.spec_tags();
        let ghost c0 = lines_view(comments@);
        if self.tags.len() > 0 && comments.len() == 0 {
            let last = self.tags.len() - 1;
            let ghost dst0 = tag_elems(self.tags@[last as int].tags);
            let count = oset_len(&tl.tags);
            let mut m: usize = 0;
            proof {
                assert(tags_add(dst0, tlv.subrange(0, 0)) == dst0) by {
                    assert(tlv.subrange(0, 0) =~= Seq::<Seq<char>>::empty());
                }
            }
            while m < count
                invariant
                    m <= count,
                    last == self.tags@.len() - 1,
                    self.tags@.len() == old(self).tags@.len() > 0,
                    count == tlv.len(),
                    tlv == tl.spec_tags(),
                    dst0 == tag_elems(old(self).tags@[last as int].tags),
                    tl.wf(),
                    old(self).wf(),
                    self.wf(),
                    self.palette == old(self).palette,
                    self.legacy == old(self).legacy,
                    self.title == old(self).title,
                    self.title_comments == old(self).title_comments,
                    self.authors == old(self).authors,
                    self.orig_authors == old(self).orig_authors,
                    self.src == old(self).src,
                    self.src_comments == old(self).src_comments,
                    self.editor == old(self).editor,
                    self.editor_comments == old(self).editor_comments,
                    self.license == old(self).license,
                    self.license_comments == old(self).license_comments,
                    self.delay == old(self).delay,
                    self.delay_comments == old(self).delay_comments,
                    self.loop_flag == old(self).loop_flag,
                    self.loop_comments == old(self).loop_comments,
                    self.preview == old(self).preview,
                    self.preview_comments == old(self).preview_comments,
                    self.colors == old(self).colors,
                    self.colors_comments == old(self).colors_comments,
                    self.extra_keys == old(self).extra_keys,
                    self.trailing_comments == old(self).trailing_comments,
                    forall|k: int|
                        0 <= k < last ==> #[trigger] self.tags@[k] == old(self).tags@[k],
                    self.tags@[last as int].comments == old(self).tags@[last as int].comments,
                    tag_elems(self.tags@[last as int].tags) == tags_add(
                        dst0,
                        tlv.subrange(0, m as int),
                    ),
                decreases count - m,
            {
                let tag = oset_get_index(&tl.tags, m).unwrap();
                let ghost cur = tag_elems(self.tags@[last as int].tags);
                let dst = &mut self.tags[last];
                oset_insert(&mut dst.tags, tag);
                proof {
                    lemma_tags_unique_insert(cur, tlv[m as int]);
                    assert(tlv.subrange(0, m + 1) =~= tlv.subrange(0, m as int).push(
                        tlv[m as int],
                    ));
                    lemma_tags_add_snoc(dst0, tlv.subrange(0, m as int), tlv[m as int]);
                }
                m = m + 1;
            }
            proof {
                assert(tlv.subrange(0, tlv.len() as int) =~= tlv);
                assert(self.model().tags =~= tags_step(h0.tags, tlv, c0)) by {
                    assert(c0.len() == 0);
                    assert(h0.tags.len() == old(self).tags@.len());
                    assert(self.model().tags.len() == h0.tags.len());
                    assert(forall|k: int|
                        0 <= k < last ==> #[trigger] self.model().tags[k] == h0.tags[k]);
                    assert(self.model().tags[last as int] == (
                        tags_add(h0.tags[last as int].0, tlv),
                        h0.tags[last as int].1,
                    ));
                }
                assert(self.model() =~= HeaderV { tags: tags_step(h0.tags, tlv, c0), ..h0 });
            }
            let mut c: Vec<String> = Vec::new();
            std::mem::swap(comments, &mut c);
        } else {
            let mut tl2 = tl;
            let mut c: Vec<String> = Vec::new();
            std::mem::swap(comments, &mut c);
            tl2.comments = c;
            let ghost tags_before = self.tags@;
            self.tags.push(tl2);
            proof {
                assert(self.model().tags =~= h0.tags.push((tlv, c0))) by {
                    assert(self.tags@.len() == tags_before.len() + 1);
                    assert(forall|k: int|
                        0 <= k < tags_before.len() ==> #[trigger] self.tags@[k]
                            == tags_before[k]);
                    assert(self.model().tags[tags_before.len() as int] == (tlv, c0));
                }
                assert(tags_step(h0.tags, tlv, c0) == h0.tags.push((tlv, c0)));
                assert(self.model() =~= HeaderV { tags: tags_step(h0.tags, tlv, c0), ..h0 });
            }
        }
    }

    /// One recognized or unknown key line applied to the header being
    /// built, taking the buffered comments.
    #[verifier::rlimit(100)]
    fn apply_modern_key(
        &mut self,
        comments: &mut Vec<String>,
        key: &Vec<char>,
        values: &Vec<char>,
    ) -> (r: Result<(), Error>)
        requires
            old(self).wf(),
        ensures
            final(self).wf(),
            final(self).legacy == old(self).legacy,
            (r is Ok) == (spec_modern_key(
                old(self).model(),
                lines_view(old(comments)@),
                key@,
                values@,
            ) is Ok),
            r is Ok ==> spec_modern_key(
                old(self).model(),
                lines_view(old(comments)@),
                key@,
                values@,
            ) == Ok::<(HeaderV, Seq<Seq<char>>), HeaderErr>(
                (final(self).model(), lines_view(final(comments)@)),
            ),
            spec_modern_key(old(self).model(), lines_view(old(comments)@), key@, values@) matches
                Err(he) ==> (r matches Err(e) && header_err_matches(e, he)),
    {
        proof {
            reveal_strlit("title");
            reveal_strlit("orig-author");
            reveal_strlit("author");
            reveal_strlit("src");
            reveal_strlit("editor");
            reveal_strlit("license");
            reveal_strlit("delay");
            reveal_strlit("loop");
            reveal_strlit("preview");
            reveal_strlit("colors");
            reveal_strlit("col");
            assert("title"@ =~= seq!['t', 'i', 't', 'l', 'e']);
            assert("orig-author"@ =~= seq!['o', 'r', 'i', 'g', '-', 'a', 'u', 't', 'h', 'o', 'r']);
            assert("author"@ =~= seq!['a', 'u', 't', 'h', 'o', 'r']);
            assert("src"@ =~= seq!['s', 'r', 'c']);
            assert("editor"@ =~= seq!['e', 'd', 'i', 't', 'o', 'r']);
            assert("license"@ =~= seq!['l', 'i', 'c', 'e', 'n', 's', 'e']);
            assert("delay"@ =~= seq!['d', 'e', 'l', 'a', 'y']);
            assert("loop"@ =~= seq!['l', 'o', 'o', 'p']);
            assert("preview"@ =~= seq!['p', 'r', 'e', 'v', 'i', 'e', 'w']);
            assert("colors"@ =~= seq!['c', 'o', 'l', 'o', 'r', 's']);
            assert("col"@ =~= seq!['c', 'o', 'l']);
        }
        let ghost h0 = self.model();
        let ghost c0 = lines_view(comments@);
        let values_s = chars_to_string(values);
        if chars_eq_str(key, "title") {
            if self.title.is_some() {
                return Err(Error::HeaderKeyDup(crate::text::string_from_str("title")));
            }
            self.title = Some(values_s);
            std::mem::swap(&mut self.title_comments, comments);
            *comments = Vec::new();
            proof {
                assert(self.model() =~= HeaderV {
                    title: Some(values@),
                    title_comments: c0,
                    ..h0
                });
                assert(lines_view(comments@) =~= Seq::<Seq<char>>::empty());
            }
            Ok(())
        } else if chars_eq_str(key, "orig-author") {
            let mut c: Vec<String> = Vec::new();
            std::mem::swap(&mut c, comments);
            proof {
                assert(lines_view(c@) == c0);
                assert(lines_view(comments@) =~= Seq::<Seq<char>>::empty());
            }
            self.add_author_comments(false, values_s, c);
            Ok(())
        } else if chars_eq_str(key, "author") {
            let mut c: Vec<String> = Vec::new();
            std::mem::swap(&mut c, comments);
            proof {
                assert(lines_view(c@) == c0);
                assert(lines_view(comments@) =~= Seq::<Seq<char>>::empty());
            }
            self.add_author_comments(true, values_s, c);
            Ok(())
        } else if chars_eq_str(key, "src") {
            if self.src.is_some() {
                return Err(Error::HeaderKeyDup(crate::text::string_from_str("src")));
            }
            self.src = Some(values_s);
            std::mem::swap(&mut self.src_comments, comments);
            *comments = Vec::new();
            proof {
                assert(self.model() =~= HeaderV { src: Some(values@), src_comments: c0, ..h0 });
                assert(lines_view(comments@) =~= Seq::<Seq<char>>::empty());
            }
            Ok(())
        } else if chars_eq_str(key, "editor") {
            if self.editor.is_some() {
                return Err(Error::HeaderKeyDup(crate::text::string_from_str("editor")));
            }
            self.editor = Some(values_s);
            std::mem::swap(&mut self.editor_comments, comments);
            *comments = Vec::new();
            proof {
                assert(self.model() =~= HeaderV {
                    editor: Some(values@),
                    editor_comments: c0,
                    ..h0
                });
                assert(lines_view(comments@) =~= Seq::<Seq<char>>::empty());
            }
            Ok(())
        } else if chars_eq_str(key, "license") {
            if self.license.is_some() {
                return Err(Error::HeaderKeyDup(crate::text::string_from_str("license")));
            }
            self.license = Some(values_s);
            std::mem::swap(&mut self.license_comments, comments);
            *comments = Vec::new();
            proof {
                assert(self.model() =~= HeaderV {
                    license: Some(values@),
                    license_comments: c0,
                    ..h0
                });
                assert(lines_view(comments@) =~= Seq::<Seq<char>>::empty());
            }
            Ok(())
        } else if chars_eq_str(key, "delay") {
            if self.delay.is_some() {
                return Err(Error::HeaderKeyDup(crate::text::string_from_str("delay")));
            }
            match Delay::parse(values_s.as_str()) {
                Ok(d) => {
                    self.delay = Some(d);
                },
                Err(e) => {
                    return Err(e);
                },
            }
            std::mem::swap(&mut self.delay_comments, comments);
            *comments = Vec::new();
            proof {
                assert(self.model() =~= HeaderV {
                    delay: Some(spec_parse_delay(values@)->Ok_0),
                    delay_comments: c0,
                    ..h0
                });
                assert(lines_view(comments@) =~= Seq::<Seq<char>>::empty());
            }
            Ok(())
        } else if chars_eq_str(key, "loop") {
            if self.loop_flag.is_some() {
                return Err(Error::HeaderKeyDup(crate::text::string_from_str("loop")));
            }
            match header_value_to_bool("loop", values_s.as_str()) {
                Ok(b) => {
                    self.loop_flag = Some(b);
                },
                Err(e) => {
                    return Err(e);
                },
            }
            std::mem::swap(&mut self.loop_comments, comments);
            *comments = Vec::new();
            proof {
                assert(self.model() =~= HeaderV {
                    loop_flag: Some(spec_flag_value(values@)->Some_0),
                    loop_comments: c0,
                    ..h0
                });
                assert(lines_view(comments@) =~= Seq::<Seq<char>>::empty());
            }
            Ok(())
        } else if chars_eq_str(key, "preview") {
            if self.preview.is_some() {
                return Err(Error::HeaderKeyDup(crate::text::string_from_str("preview")));
            }
            match crate::text::parse_usize(values) {
                Some(v) => {
                    self.preview = Some(v);
                },
                None => {
                    return Err(Error::PreviewParsing(values_s));
                },
            }
            std::mem::swap(&mut self.preview_comments, comments);
            *comments = Vec::new();
            proof {
                assert(self.model() =~= HeaderV {
                    preview: Some(crate::text::spec_parse_usize(values@)->Some_0),
                    preview_comments: c0,
                    ..h0
                });
                assert(lines_view(comments@) =~= Seq::<Seq<char>>::empty());
            }
            Ok(())
        } else if chars_eq_str(key, "colors") {
            if self.colors.is_some() {
                return Err(Error::HeaderKeyDup(crate::text::string_from_str("colors")));
            }
            match header_value_to_bool("colors", values_s.as_str()) {
                Ok(b) => {
                    self.colors = Some(b);
                },
                Err(e) => {
                    return Err(e);
                },
            }
            std::mem::swap(&mut self.colors_comments, comments);
            *comments = Vec::new();
            proof {
                assert(self.model() =~= HeaderV {
                    colors: Some(spec_flag_value(values@)->Some_0),
                    colors_comments: c0,
                    ..h0
                });
                assert(lines_view(comments@) =~= Seq::<Seq<char>>::empty());
            }
            Ok(())
        } else if chars_eq_str(key, "col") {
            let (name_tok, pair_part) = match split_first(values, ' ') {
                Some((a, b)) => {
                    proof {
                        crate::text::lemma_split_first_some(a@, b@, ' ');
                    }
                    (a, b)
                },
                None => {
                    proof {
                        crate::text::lemma_split_first_none(values@, ' ');
                    }
                    let ghost empty_rest: Seq<char> = Seq::empty();
                    let mut whole: Vec<char> = Vec::new();
                    crate::colors::push_all(&mut whole, values);
                    proof {
                        assert(whole@ =~= values@);
                    }
                    (whole, Vec::new())
                },
            };
            let name_s = chars_to_string(&name_tok);
            let name = match color_name_str_to_char(name_s.as_str()) {
                Ok(c) => c,
                Err(e) => {
                    return Err(e);
                },
            };
            let pair_s = chars_to_string(&pair_part);
            let pair = match ColorPair::parse(pair_s.as_str()) {
                Ok(pr) => pr,
                Err(e) => {
                    return Err(e);
                },
            };
            let mut c: Vec<String> = Vec::new();
            std::mem::swap(&mut c, comments);
            proof {
                assert(c.deep_view() =~= c0);
                assert(lines_view(comments@) =~= Seq::<Seq<char>>::empty());
            }
            match self.palette.add_parsing_color(name, pair, c) {
                Ok(_) => {
                    proof {
                        assert(self.model() =~= HeaderV {
                            palette: h0.palette.push((name@, pair, c0)),
                            ..h0
                        });
                    }
                    Ok(())
                },
                Err(e) => Err(e),
            }
        } else {
            let mut raw: Vec<char> = Vec::new();
            crate::colors::push_all(&mut raw, key);
            raw.push(' ');
            crate::colors::push_all(&mut raw, values);
            let mut c: Vec<String> = Vec::new();
            std::mem::swap(&mut c, comments);
            proof {
                assert(raw@ =~= key@ + seq![' '] + values@);
                assert(lines_view(c@) == c0);
                assert(lines_view(comments@) =~= Seq::<Seq<char>>::empty());
            }
            let ghost ek0 = self.extra_keys@;
            self.extra_keys.push(ExtraHeaderKey { line: chars_to_string(&raw), comments: c });
            proof {
                assert(self.model().extra_keys =~= h0.extra_keys.push(
                    (key@ + seq![' '] + values@, c0),
                )) by {
                    assert(self.extra_keys@.len() == ek0.len() + 1);
                    assert(forall|k: int|
                        0 <= k < ek0.len() ==> #[trigger] self.extra_keys@[k] == ek0[k]);
                    assert(self.model().extra_keys[ek0.len() as int] == (
                        key@ + seq![' '] + values@,
                        c0,
                    ));
                }
                assert(self.model() =~= HeaderV {
                    extra_keys: h0.extra_keys.push((key@ + seq![' '] + values@, c0)),
                    ..h0
                });
            }
            Ok(())
        }
    }

    /// Reads a modern-dialect header: the fold of `spec_modern_line` over
    /// the lines up to the first blank one (consumed), `@3a` markers
    /// skipped; pending comments become the trailing comments.
    pub fn read_modern(lines: &Vec<String>, pos: usize) -> (r: (Result<Header, Error>, usize))
        requires
            pos <= lines@.len(),
        ensures
            r.1 <= lines@.len(),
            ({
                let res = spec_read_modern(
                    lines_view(lines@),
                    pos as int,
                    empty_header_model(),
                    Seq::empty(),
                );
                &&& (r.0 is Ok) == (res is Ok)
                &&& r.0 matches Ok(h) ==> (res matches Ok(p) && h.model() == p.0 && r.1 == p.1
                    && h.wf() && h.legacy is None)
                &&& res matches Err(he) ==> (r.0 matches Err(e) && header_err_matches(e, he))
            }),
    {
        let ghost ls = lines_view(lines@);
        let mut header = Header::new();
        let mut comments: Vec<String> = Vec::new();
        let mut p = pos;
        proof {
            assert(header.model() =~~= empty_header_model());
            assert(lines_view(comments@) =~= Seq::<Seq<char>>::empty());
        }
        loop
            invariant_except_break
                spec_read_modern(ls, pos as int, empty_header_model(), Seq::empty())
                    == spec_read_modern(ls, p as int, header.model(), lines_view(comments@)),
            invariant
                pos <= p <= lines@.len(),
                ls == lines_view(lines@),
                ls.len() == lines@.len(),
                header.wf(),
                header.legacy is None,
            ensures
                p <= lines@.len(),
                header.wf(),
                header.legacy is None,
                spec_read_modern(ls, pos as int, empty_header_model(), Seq::empty()) == Ok::<
                    (HeaderV, int),
                    HeaderErr,
                >((HeaderV { trailing_comments: lines_view(comments@), ..header.model() }, p as int)),
            decreases lines@.len() - p,
        {
            let ghost h0 = header.model();
            let ghost c0 = lines_view(comments@);
            if p >= lines.len() {
                break ;
            }
            proof {
                assert(ls[p as int] == lines@[p as int]@);
            }
            let cv = str_to_chars(lines[p].as_str());
            let line = crate::chars::normalize_chars(&cv);
            p = p + 1;
            if line.len() == 0 {
                break ;
            }
            proof {
                reveal_strlit("@3a");
                assert("@3a"@ =~= seq!['@', '3', 'a']);
            }
            if chars_eq_str(&line, "@3a") {
                continue ;
            }
            proof {
                reveal_strlit(";;");
                assert(";;"@ =~= seq![';', ';']);
            }
            match crate::text::strip_prefix_str(&line, ";;") {
                Some(c) => {
                    let t = trim_chars(&c);
                    let ghost cs0 = comments@;
                    comments.push(chars_to_string(&t));
                    proof {
                        assert(c@ =~= line@.skip(2));
                        assert(lines_view(comments@) =~= c0.push(spec_trim(line@.skip(2))));
                        assert(line@.subrange(0, 2) =~= seq![';', ';']);
                    }
                    continue ;
                },
                None => {
                    proof {
                        if line@.len() >= 2 && line@.subrange(0, 2) == seq![';', ';'] {
                            assert(line@.subrange(0, ";;"@.len() as int) == ";;"@);
                        }
                    }
                },
            }
            if line[0] == '#' {
                let ls2 = chars_to_string(&line);
                let tl = Tagline::parse(ls2.as_str());
                header.push_tagline(tl, &mut comments);
                proof {
                    assert(lines_view(comments@) =~= Seq::<Seq<char>>::empty());
                }
                continue ;
            }
            let (key_raw, values_raw) = match split_first(&line, ' ') {
                Some((k, v)) => {
                    proof {
                        crate::text::lemma_split_first_some(k@, v@, ' ');
                    }
                    (k, v)
                },
                None => {
                    proof {
                        crate::text::lemma_split_first_none(line@, ' ');
                    }
                    return (Err(Error::HeaderKeyWithoutValue(chars_to_string(&line))), p);
                },
            };
            let key = trim_chars(&key_raw);
            let values = trim_chars(&values_raw);
            match header.apply_modern_key(&mut comments, &key, &values) {
                Ok(_) => {},
                Err(e) => {
                    return (Err(e), p);
                },
            }
        }
        std::mem::swap(&mut header.trailing_comments, &mut comments);
        proof {
            assert(header.model() =~= HeaderV {
                trailing_comments: header.model().trailing_comments,
                ..header.model()
            });
        }
        (Ok(header), p)
    }

    /// Records an author (or original author): a repeated name gains the
    /// comments, a new one is appended with them.
    fn add_author_comments(&mut self, current: bool, name: String, comments: Vec<String>)
        requires
            old(self).wf(),
        ensures
            final(self).wf(),
            current ==> final(self).model() == (HeaderV {
                authors: authors_step(
                    old(self).model().authors,
                    name@,
                    lines_view(comments@),
                ),
                ..old(self).model()
            }),
            !current ==> final(self).model() == (HeaderV {
                orig_authors: authors_step(
                    old(self).model().orig_authors,
                    name@,
                    lines_view(comments@),
                ),
                ..old(self).model()
            }),
    {
        let ghost h0 = self.model();
        let ghost cv = lines_view(comments@);
        let m = if current {
            &mut self.authors
        } else {
            &mut self.orig_authors
        };
        let ghost es = author_entries(*m);
        match amap_get(m, &name) {
            Some(mut existing) => {
                let ghost e0 = existing@;
                let mut c = comments;
                existing.append(&mut c);
                proof {
                    assert(authors_contain(es, name@));
                    let i = authors_idx(es, name@);
                    assert(existing.deep_view() =~= es[i].1 + cv) by {
                        assert(existing@.len() == e0.len() + cv.len());
                        assert(forall|k: int|
                            0 <= k < e0.len() ==> #[trigger] existing@[k] == e0[k]);
                    }
                }
                amap_insert(m, name, existing);
                proof {
                    let i = authors_idx(es, name@);
                    assert(0 <= i < es.len() && es[i].0 == name@);
                    lemma_authors_update_unique(es, i, name@);
                    assert(author_entries(*m) == authors_step(es, name@, cv));
                }
            },
            None => {
                proof {
                    assert(comments.deep_view() =~= cv);
                }
                amap_insert(m, name, comments);
                proof {
                    lemma_authors_push_unique(es, name@);
                    assert(author_entries(*m) == authors_step(es, name@, cv));
                }
            },
        }
        proof {
            if current {
                assert(self.model() =~= HeaderV {
                    authors: authors_step(h0.authors, name@, cv),
                    ..h0
                });
            } else {
                assert(self.model() =~= HeaderV {
                    orig_authors: authors_step(h0.orig_authors, name@, cv),
                    ..h0
                });
            }
        }
    }

    /// One recognized or unknown legacy key line applied to the header
    /// being built, taking the buffered comments.
    #[verifier::rlimit(100)]
    fn apply_legacy_key(
        &mut self,
        comments: &mut Vec<String>,
        key: &Vec<char>,
        values: &Vec<char>,
    ) -> (r: Result<(), Error>)
        requires
            old(self).wf(),
        ensures
            final(self).wf(),
            (r is Ok) == (spec_legacy_key(
                old(self).model(),
                lines_view(old(comments)@),
                key@,
                values@,
            ) is Ok),
            r is Ok ==> spec_legacy_key(
                old(self).model(),
                lines_view(old(comments)@),
                key@,
                values@,
            ) == Ok::<(HeaderV, Seq<Seq<char>>), HeaderErr>(
                (final(self).model(), lines_view(final(comments)@)),
            ),
            spec_legacy_key(old(self).model(), lines_view(old(comments)@), key@, values@) matches
                Err(he) ==> (r matches Err(e) && header_err_matches(e, he)),
    {
        proof {
            reveal_strlit("title");
            reveal_strlit("author");
            reveal_strlit("loop");
            reveal_strlit("preview");
            reveal_strlit("delay");
            reveal_strlit("colors");
            reveal_strlit("width");
            reveal_strlit("height");
            assert("title"@ =~= seq!['t', 'i', 't', 'l', 'e']);
            assert("author"@ =~= seq!['a', 'u', 't', 'h', 'o', 'r']);
            assert("loop"@ =~= seq!['l', 'o', 'o', 'p']);
            assert("preview"@ =~= seq!['p', 'r', 'e', 'v', 'i', 'e', 'w']);
            assert("delay"@ =~= seq!['d', 'e', 'l', 'a', 'y']);
            assert("colors"@ =~= seq!['c', 'o', 'l', 'o', 'r', 's']);
            assert("width"@ =~= seq!['w', 'i', 'd', 't', 'h']);
            assert("height"@ =~= seq!['h', 'e', 'i', 'g', 'h', 't']);
        }
        let ghost h0 = self.model();
        let ghost c0 = lines_view(comments@);
        let values_s = chars_to_string(values);
        if chars_eq_str(key, "title") {
            if self.title.is_some() {
                return Err(Error::HeaderKeyDup(crate::text::string_from_str("title")));
            }
            self.title = Some(values_s);
            std::mem::swap(&mut self.title_comments, comments);
            *comments = Vec::new();
            proof {
                assert(self.model() =~= HeaderV {
                    title: Some(values@),
                    title_comments: c0,
                    ..h0
                });
                assert(lines_view(comments@) =~= Seq::<Seq<char>>::empty());
            }
            Ok(())
        } else if chars_eq_str(key, "author") {
            let mut c: Vec<String> = Vec::new();
            std::mem::swap(&mut c, comments);
            proof {
                assert(lines_view(c@) == c0);
                assert(lines_view(comments@) =~= Seq::<Seq<char>>::empty());
            }
            self.add_author_comments(true, values_s, c);
            Ok(())
        } else if chars_eq_str(key, "loop") {
            if self.loop_flag.is_some() {
                return Err(Error::HeaderKeyDup(crate::text::string_from_str("loop")));
            }
            match header_value_to_bool("loop", values_s.as_str()) {
                Ok(b) => {
                    self.loop_flag = Some(b);
                },
                Err(e) => {
                    return Err(e);
                },
            }
            std::mem::swap(&mut self.loop_comments, comments);
            *comments = Vec::new();
            proof {
                assert(self.model() =~= HeaderV {
                    loop_flag: Some(spec_flag_value(values@)->Some_0),
                    loop_comments: c0,
                    ..h0
                });
                assert(lines_view(comments@) =~= Seq::<Seq<char>>::empty());
            }
            Ok(())
        } else if chars_eq_str(key, "preview") {
            if self.preview.is_some() {
                return Err(Error::HeaderKeyDup(crate::text::string_from_str("preview")));
            }
            match crate::text::parse_usize(values) {
                Some(v) => {
                    self.preview = Some(v);
                },
                None => {
                    return Err(Error::PreviewParsing(values_s));
                },
            }
            std::mem::swap(&mut self.preview_comments, comments);
            *comments = Vec::new();
            proof {
                assert(self.model() =~= HeaderV {
                    preview: Some(crate::text::spec_parse_usize(values@)->Some_0),
                    preview_comments: c0,
                    ..h0
                });
                assert(lines_view(comments@) =~= Seq::<Seq<char>>::empty());
            }
            Ok(())
        } else if chars_eq_str(key, "delay") {
            if self.delay.is_some() {
                return Err(Error::HeaderKeyDup(crate::text::string_from_str("delay")));
            }
            match Delay::parse(values_s.as_str()) {
                Ok(d) => {
                    self.delay = Some(d);
                },
                Err(e) => {
                    return Err(e);
                },
            }
            std::mem::swap(&mut self.delay_comments, comments);
            *comments = Vec::new();
            proof {
                assert(self.model() =~= HeaderV {
                    delay: Some(spec_parse_delay(values@)->Ok_0),
                    delay_comments: c0,
                    ..h0
                });
                assert(lines_view(comments@) =~= Seq::<Seq<char>>::empty());
            }
            Ok(())
        } else if chars_eq_str(key, "colors") {
            self.set_legacy_mode_str(values);
            *comments = Vec::new();
            proof {
                assert(self.model() =~= HeaderV {
                    legacy: Some(
                        LegacyHeaderInfo {
                            colors: spec_legacy_mode(values@),
                            width: spec_legacy_of(h0.legacy).width,
                            height: spec_legacy_of(h0.legacy).height,
                        },
                    ),
                    ..h0
                });
                assert(lines_view(comments@) =~= Seq::<Seq<char>>::empty());
            }
            Ok(())
        } else if chars_eq_str(key, "width") {
            match crate::text::parse_usize(values) {
                Some(v) => {
                    self.set_legacy_width(v);
                },
                None => {
                    return Err(Error::PreviewParsing(values_s));
                },
            }
            *comments = Vec::new();
            proof {
                assert(self.model() =~= HeaderV {
                    legacy: Some(
                        LegacyHeaderInfo {
                            colors: spec_legacy_of(h0.legacy).colors,
                            width: crate::text::spec_parse_usize(values@)->Some_0,
                            height: spec_legacy_of(h0.legacy).height,
                        },
                    ),
                    ..h0
                });
                assert(lines_view(comments@) =~= Seq::<Seq<char>>::empty());
            }
            Ok(())
        } else if chars_eq_str(key, "height") {
            match crate::text::parse_usize(values) {
                Some(v) => {
                    self.set_legacy_height(v);
                },
                None => {
                    return Err(Error::PreviewParsing(values_s));
                },
            }
            *comments = Vec::new();
            proof {
                assert(self.model() =~= HeaderV {
                    legacy: Some(
                        LegacyHeaderInfo {
                            colors: spec_legacy_of(h0.legacy).colors,
                            width: spec_legacy_of(h0.legacy).width,
                            height: crate::text::spec_parse_usize(values@)->Some_0,
                        },
                    ),
                    ..h0
                });
                assert(lines_view(comments@) =~= Seq::<Seq<char>>::empty());
            }
            Ok(())
        } else {
            let mut raw: Vec<char> = Vec::new();
            crate::colors::push_all(&mut raw, key);
            raw.push(' ');
            crate::colors::push_all(&mut raw, values);
            let mut c: Vec<String> = Vec::new();
            std::mem::swap(&mut c, comments);
            proof {
                assert(raw@ =~= key@ + seq![' '] + values@);
                assert(lines_view(c@) == c0);
                assert(lines_view(comments@) =~= Seq::<Seq<char>>::empty());
            }
            let ghost ek0 = self.extra_keys@;
            self.extra_keys.push(ExtraHeaderKey { line: chars_to_string(&raw), comments: c });
            proof {
                assert(self.model().extra_keys =~= h0.extra_keys.push(
                    (key@ + seq![' '] + values@, c0),
                )) by {
                    assert(self.extra_keys@.len() == ek0.len() + 1);
                    assert(forall|k: int|
                        0 <= k < ek0.len() ==> #[trigger] self.extra_keys@[k] == ek0[k]);
                    assert(self.model().extra_keys[ek0.len() as int] == (
                        key@ + seq![' '] + values@,
                        c0,
                    ));
                }
                assert(self.model() =~= HeaderV {
                    extra_keys: h0.extra_keys.push((key@ + seq![' '] + values@, c0)),
                    ..h0
                });
            }
            Ok(())
        }
    }

    /// Reads a legacy-dialect header: the fold of `spec_legacy_line` over
    /// the raw lines up to the first blank payload (consumed), tab-led
    /// lines buffering their comments.
    pub fn read_legacy(lines: &Vec<String>, pos: usize) -> (r: (Result<Header, Error>, usize))
        requires
            pos <= lines@.len(),
        ensures
            r.1 <= lines@.len(),
            ({
                let res = spec_read_legacy(
                    lines_view(lines@),
                    pos as int,
                    empty_header_model(),
                    Seq::empty(),
                );
                &&& (r.0 is Ok) == (res is Ok)
                &&& r.0 matches Ok(h) ==> (res matches Ok(p) && h.model() == p.0 && r.1 == p.1
                    && h.wf())
                &&& res matches Err(he) ==> (r.0 matches Err(e) && header_err_matches(e, he))
            }),
    {
        let ghost ls = lines_view(lines@);
        let mut header = Header::new();
        let mut comments: Vec<String> = Vec::new();
        let mut p = pos;
        proof {
            assert(lines_view(comments@) =~= Seq::<Seq<char>>::empty());
        }
        loop
            invariant_except_break
                spec_read_legacy(ls, pos as int, empty_header_model(), Seq::empty())
                    == spec_read_legacy(ls, p as int, header.model(), lines_view(comments@)),
            invariant
                pos <= p <= lines@.len(),
                ls == lines_view(lines@),
                ls.len() == lines@.len(),
                header.wf(),
            ensures
                p <= lines@.len(),
                header.wf(),
                spec_read_legacy(ls, pos as int, empty_header_model(), Seq::empty()) == Ok::<
                    (HeaderV, int),
                    HeaderErr,
                >((HeaderV { trailing_comments: lines_view(comments@), ..header.model() }, p as int)),
            decreases lines@.len() - p,
        {
            let ghost h0 = header.model();
            let ghost c0 = lines_view(comments@);
            if p >= lines.len() {
                break ;
            }
            proof {
                assert(ls[p as int] == lines@[p as int]@);
            }
            let raw = str_to_chars(lines[p].as_str());
            p = p + 1;
            if raw.len() == 0 {
                break ;
            }
            let before_tab = match split_first(&raw, '\t') {
                Some((a, b)) => {
                    proof {
                        crate::text::lemma_split_first_some(a@, b@, '\t');
                    }
                    if a.len() == 0 {
                        let nb = crate::chars::normalize_chars(&b);
                        let t = trim_chars(&nb);
                        comments.push(chars_to_string(&t));
                        proof {
                            assert(lines_view(comments@) =~= c0.push(
                                spec_legacy_tab_comment(raw@),
                            ));
                        }
                        continue ;
                    }
                    a
                },
                None => {
                    proof {
                        crate::text::lemma_split_first_none(raw@, '\t');
                    }
                    raw
                },
            };
            let line = crate::chars::normalize_chars(&before_tab);
            proof {
                assert(spec_legacy_payload(raw@) == Some(line@));
            }
            if line.len() == 0 {
                break ;
            }
            proof {
                reveal_strlit("@");
                assert("@"@ =~= seq!['@']);
            }
            match crate::text::strip_prefix_str(&line, "@") {
                Some(c) => {
                    let t = trim_chars(&c);
                    comments.push(chars_to_string(&t));
                    proof {
                        assert(c@ =~= line@.skip(1));
                        assert(lines_view(comments@) =~= c0.push(spec_trim(line@.skip(1))));
                    }
                    continue ;
                },
                None => {
                    proof {
                        if line@.len() >= 1 && line@[0] == '@' {
                            assert(line@.subrange(0, 1) =~= seq!['@']);
                            assert(line@.subrange(0, "@"@.len() as int) == "@"@);
                        }
                    }
                },
            }
            if line[0] == '#' {
                let ls2 = chars_to_string(&line);
                let tl = Tagline::parse(ls2.as_str());
                header.push_tagline(tl, &mut comments);
                proof {
                    assert(lines_view(comments@) =~= Seq::<Seq<char>>::empty());
                }
                continue ;
            }
            proof {
                reveal_strlit("utf8");
                assert("utf8"@ =~= seq!['u', 't', 'f', '8']);
            }
            match crate::text::strip_prefix_str(&line, "utf8") {
                Some(_) => {
                    continue ;
                },
                None => {
                    proof {
                        if line@.len() >= 4 && line@.subrange(0, 4) == seq!['u', 't', 'f', '8'] {
                            assert(line@.subrange(0, "utf8"@.len() as int) == "utf8"@);
                        }
                    }
                },
            }
            let (key_raw, values_raw) = match split_first(&line, ' ') {
                Some((k, v)) => {
                    proof {
                        crate::text::lemma_split_first_some(k@, v@, ' ');
                    }
                    (k, v)
                },
                None => {
                    proof {
                        crate::text::lemma_split_first_none(line@, ' ');
                    }
                    return (Err(Error::HeaderKeyWithoutValue(chars_to_string(&line))), p);
                },
            };
            let key = trim_chars(&key_raw);
            let values = trim_chars(&values_raw);
            match header.apply_legacy_key(&mut comments, &key, &values) {
                Ok(_) => {},
                Err(e) => {
                    return (Err(e), p);
                },
            }
        }
        std::mem::swap(&mut header.trailing_comments, &mut comments);
        (Ok(header), p)
    }

    /// Reads a header, detecting the dialect: a first line that is exactly
    /// `@3a` makes the document modern, anything else legacy.
    pub fn read(lines: &Vec<String>, pos: usize) -> (r: (Result<Header, Error>, usize))
        requires
            pos <= lines@.len(),
        ensures
            r.1 <= lines@.len(),
            ({
                let res = spec_read_header(lines_view(lines@), pos as int);
                &&& (r.0 is Ok) == (res is Ok)
                &&& r.0 matches Ok(h) ==> (res matches Ok(p) && h.model() == p.0 && r.1 == p.1
                    && h.wf())
                &&& res matches Err(he) ==> (r.0 matches Err(e) && header_err_matches(e, he))
            }),
    {
        if pos < lines.len() {
            let first = str_to_chars(lines[pos].as_str());
            proof {
                reveal_strlit("@3a");
                assert("@3a"@ =~= seq!['@', '3', 'a']);
                assert(lines_view(lines@)[pos as int] == lines@[pos as int]@);
            }
            if chars_eq_str(&first, "@3a") {
                Self::read_modern(lines, pos)
            } else {
                Self::read_legacy(lines, pos)
            }
        } else {
            let mut header = Header::new();
            let mut trailing: Vec<String> = Vec::new();
            trailing.push(crate::text::string_from_str(""));
            header.trailing_comments = trailing;
            proof {
                reveal_strlit("");
                assert(""@ =~= Seq::<char>::empty());
                assert(lines_view(header.trailing_comments@) =~= seq![Seq::<char>::empty()]);
                assert(header.model() =~~= HeaderV {
                    trailing_comments: seq![Seq::<char>::empty()],
                    ..empty_header_model()
                });
            }
            (Ok(header), pos)
        }
    }
}

/// Appending a fresh name keeps the names unique and adds the name.
pub proof fn lemma_authors_push_unique_pub(es: Seq<(Seq<char>, Seq<Seq<char>>)>, k: Seq<char>)
    requires
        authors_unique(es),
        !authors_contain(es, k),
    ensures
        forall|v: Seq<Seq<char>>| authors_unique(#[trigger] es.push((k, v))),
        forall|v: Seq<Seq<char>>| authors_contain(#[trigger] es.push((k, v)), k),
{
    lemma_authors_push_unique(es, k);
    assert forall|v: Seq<Seq<char>>| authors_contain(#[trigger] es.push((k, v)), k) by {
        assert(es.push((k, v))[es.len() as int].0 == k);
    }
}

/// Removing an entry preserves uniqueness of the remaining names.
pub proof fn lemma_authors_remove_unique_pub(es: Seq<(Seq<char>, Seq<Seq<char>>)>, i: int)
    requires
        authors_unique(es),
        0 <= i < es.len(),
    ensures
        authors_unique(es.remove(i)),
{
    assert forall|a: int, b: int|
        0 <= a < b < es.remove(i).len() implies (#[trigger] es.remove(i)[a]).0 != (
    #[trigger] es.remove(i)[b]).0 by {
        let a0: int = if a < i { a } else { a + 1 };
        let b0: int = if b < i { b } else { b + 1 };
        assert(es.remove(i)[a] == es[a0]);
        assert(es.remove(i)[b] == es[b0]);
    }
}

/// A name contained in a list is contained in any extension of it.
pub proof fn lemma_authors_contain_monotone(
    es0: Seq<(Seq<char>, Seq<Seq<char>>)>,
    es1: Seq<(Seq<char>, Seq<Seq<char>>)>,
    k: Seq<char>,
)
    requires
        authors_contain(es0, k),
        es1.len() >= es0.len(),
        forall|i: int| 0 <= i < es0.len() ==> #[trigger] es1[i] == es0[i],
    ensures
        authors_contain(es1, k),
{
    let i = choose|i: int| 0 <= i < es0.len() && (#[trigger] es0[i]).0 == k;
    assert(es1[i].0 == k);
}

/// Whether some tag line holds the given tag.
pub open spec fn tag_from_lines(tls: Seq<Tagline>, t: Seq<char>) -> bool {
    exists|k: int| 0 <= k < tls.len() && tags_contain((#[trigger] tls[k]).spec_tags(), t)
}

/// Whether some element of a tag list reads as the given tag.
pub open spec fn tag_in_list(out: Seq<String>, t: Seq<char>) -> bool {
    exists|a: int| 0 <= a < out.len() && (#[trigger] out[a])@ == t
}

/// A tag found in a list is found in any extension that keeps its entries.
proof fn lemma_tag_in_list_grow(out0: Seq<String>, out1: Seq<String>, t: Seq<char>)
    requires
        tag_in_list(out0, t),
        out0.len() <= out1.len(),
        forall|b: int| 0 <= b < out0.len() ==> out1[b] == out0[b],
    ensures
        tag_in_list(out1, t),
{
    let a = choose|a: int| 0 <= a < out0.len() && (#[trigger] out0[a])@ == t;
    assert(out1[a]@ == t);
}

/// Updating an entry in place, name kept, preserves uniqueness.
proof fn lemma_authors_update_unique(es: Seq<(Seq<char>, Seq<Seq<char>>)>, i: int, k: Seq<char>)
    requires
        authors_unique(es),
        0 <= i < es.len(),
        es[i].0 == k,
    ensures
        forall|v: Seq<Seq<char>>| authors_unique(#[trigger] es.update(i, (k, v))),
{
    assert forall|v: Seq<Seq<char>>| authors_unique(#[trigger] es.update(i, (k, v))) by {
        assert(forall|j: int|
            0 <= j < es.len() ==> (#[trigger] es.update(i, (k, v))[j]).0 == es[j].0);
    }
}

/// Appending a fresh name preserves uniqueness.
proof fn lemma_authors_push_unique(es: Seq<(Seq<char>, Seq<Seq<char>>)>, k: Seq<char>)
    requires
        authors_unique(es),
        !authors_contain(es, k),
    ensures
        forall|v: Seq<Seq<char>>| authors_unique(#[trigger] es.push((k, v))),
{
    assert forall|v: Seq<Seq<char>>| authors_unique(#[trigger] es.push((k, v))) by {
        assert forall|a: int, b: int|
            0 <= a < b < es.push((k, v)).len() implies (#[trigger] es.push((k, v))[a]).0 != (
        #[trigger] es.push((k, v))[b]).0 by {
            if b == es.len() {
                assert(es.push((k, v))[a] == es[a]);
            }
        }
    }
}

/// Comment lines in key position: `;;`, the comment, a newline, one line
/// per comment in order; nothing for an empty list.
pub open spec fn spec_comment_lines(cs: Seq<Seq<char>>) -> Seq<char>
    decreases cs.len(),
{
    if cs.len() == 0 {
        Seq::empty()
    } else {
        spec_comment_lines(cs.drop_last()) + seq![';', ';'] + cs.last() + seq!['\n']
    }
}

/// Appends comment lines in key position: `;;` then the comment.
pub fn push_comment_lines(out: &mut Vec<char>, comments: &Vec<String>)
    ensures
        final(out)@ == old(out)@ + spec_comment_lines(lines_view(comments@)),
{
    let ghost cs = lines_view(comments@);
    let mut i: usize = 0;
    proof {
        assert(spec_comment_lines(cs.subrange(0, 0)) =~= Seq::<char>::empty());
        assert(out@ =~= old(out)@ + spec_comment_lines(cs.subrange(0, 0)));
    }
    while i < comments.len()
        invariant
            i <= comments@.len(),
            cs == lines_view(comments@),
            out@ == old(out)@ + spec_comment_lines(cs.subrange(0, i as int)),
        decreases comments@.len() - i,
    {
        proof {
            assert(cs.subrange(0, i + 1).drop_last() =~= cs.subrange(0, i as int));
            assert(cs.subrange(0, i + 1).last() == cs[i as int]);
            assert(cs[i as int] == comments@[i as int]@);
        }
        out.push(';');
        out.push(';');
        let cv = str_to_chars(comments[i].as_str());
        crate::colors::push_all(out, &cv);
        out.push('\n');
        proof {
            assert(out@ =~= old(out)@ + spec_comment_lines(cs.subrange(0, i + 1)));
        }
        i = i + 1;
    }
    proof {
        assert(cs.subrange(0, cs.len() as int) =~= cs);
    }
}

/// The wrapped `#`-prefixed tags from position `i` on: a tag is followed by
/// a space while another tag follows and the line stays under eighty
/// characters, else by a newline that resets the count.
pub open spec fn spec_tag_wrap(tags: Seq<Seq<char>>, i: int, linelen: int) -> Seq<char>
    decreases tags.len() - i,
    when 0 <= i <= tags.len()
{
    if i >= tags.len() {
        Seq::empty()
    } else if i + 1 < tags.len() && linelen + tags[i].len() + 2 < 80 {
        seq!['#'] + tags[i] + seq![' '] + spec_tag_wrap(tags, i + 1, linelen + tags[i].len() + 2)
    } else {
        seq!['#'] + tags[i] + seq!['\n'] + spec_tag_wrap(tags, i + 1, 0)
    }
}

/// One tag line written out: its comments, then its wrapped tags.
pub open spec fn spec_tagline_text(t: Tagline) -> Seq<char> {
    spec_comment_lines(lines_view(t.comments@)) + spec_tag_wrap(tag_elems(t.tags), 0, 0)
}

impl Tagline {
    /// The tag line written out: its comments, then the `#`-prefixed tags,
    /// wrapped onto new lines as they approach eighty characters.
    pub fn to_text(&self) -> (r: String)
        ensures
            r@ == spec_tagline_text(*self),
    {
        let mut out: Vec<char> = Vec::new();
        push_comment_lines(&mut out, &self.comments);
        let ghost head = out@;
        let ghost elems = tag_elems(self.tags);
        let n = oset_len(&self.tags);
        let mut linelen: usize = 0;
        let mut i: usize = 0;
        proof {
            assert(out@.skip(head.len() as int) =~= Seq::<char>::empty());
            assert(out@.subrange(0, head.len() as int) =~= head);
            assert(spec_tag_wrap(elems, 0, 0) =~= Seq::<char>::empty() + spec_tag_wrap(
                elems,
                0,
                0,
            ));
        }
        while i < n
            invariant
                i <= n,
                n == self.spec_tags().len(),
                elems == tag_elems(self.tags),
                head == spec_comment_lines(lines_view(self.comments@)),
                linelen < 80,
                out@.len() >= head.len(),
                out@.subrange(0, head.len() as int) == head,
                spec_tag_wrap(elems, 0, 0) == out@.skip(head.len() as int) + spec_tag_wrap(
                    elems,
                    i as int,
                    linelen as int,
                ),
            decreases n - i,
        {
            let tag = oset_get_index(&self.tags, i).unwrap();
            let tv = str_to_chars(tag.as_str());
            let tlen = if tv.len() <= usize::MAX - 2 {
                tv.len() + 2
            } else {
                usize::MAX
            };
            let ghost before = out@;
            out.push('#');
            crate::colors::push_all(&mut out, &tv);
            if i + 1 < n && linelen < usize::MAX - tlen && linelen + tlen < 80 {
                out.push(' ');
                proof {
                    assert(i + 1 < elems.len() && (linelen as int) + elems[i as int].len() + 2
                        < 80);
                    assert(out@ =~= before + (seq!['#'] + elems[i as int] + seq![' ']));
                    assert(out@.skip(head.len() as int) =~= before.skip(head.len() as int) + (
                    seq!['#'] + elems[i as int] + seq![' ']));
                }
                linelen = linelen + tlen;
            } else {
                out.push('\n');
                proof {
                    assert(!(i + 1 < elems.len() && (linelen as int) + elems[i as int].len() + 2
                        < 80));
                    assert(out@ =~= before + (seq!['#'] + elems[i as int] + seq!['\n']));
                    assert(out@.skip(head.len() as int) =~= before.skip(head.len() as int) + (
                    seq!['#'] + elems[i as int] + seq!['\n']));
                }
                linelen = 0;
            }
            i = i + 1;
        }
        proof {
            assert(spec_tag_wrap(elems, n as int, linelen as int) =~= Seq::<char>::empty());
            assert(out@.skip(head.len() as int) + Seq::<char>::empty() =~= out@.skip(
                head.len() as int,
            ));
            assert(out@ =~= head + out@.skip(head.len() as int));
            assert(out@ =~= spec_tagline_text(*self));
        }
        chars_to_string(&out)
    }
}

/// One key line: the comments, the key text (space included), the value,
/// a newline.
pub open spec fn spec_key_line(key: Seq<char>, value: Seq<char>, comments: Seq<Seq<char>>) -> Seq<
    char,
> {
    spec_comment_lines(comments) + key + value + seq!['\n']
}

/// The key line of an optional scalar: nothing when the key is absent.
pub open spec fn spec_opt_key_line(
    key: Seq<char>,
    v: Option<String>,
    comments: Seq<Seq<char>>,
) -> Seq<char> {
    match v {
        Some(s) => spec_key_line(key, s@, comments),
        None => Seq::empty(),
    }
}

/// The author key lines of one list, in order.
pub open spec fn spec_author_lines(es: Seq<(Seq<char>, Seq<Seq<char>>)>, key: Seq<char>) -> Seq<
    char,
>
    decreases es.len(),
{
    if es.len() == 0 {
        Seq::empty()
    } else {
        spec_author_lines(es.drop_last(), key) + spec_key_line(key, es.last().0, es.last().1)
    }
}

/// A palette entry's comment lines: `;; ` (space included), the comment,
/// a newline each.
pub open spec fn spec_palette_comment_lines(cs: Seq<Seq<char>>) -> Seq<char>
    decreases cs.len(),
{
    if cs.len() == 0 {
        Seq::empty()
    } else {
        spec_palette_comment_lines(cs.drop_last()) + seq![';', ';', ' '] + cs.last() + seq!['\n']
    }
}

/// The palette written out: per entry its comments, then
/// `col <char> <pair>`.
pub open spec fn spec_palette_lines(es: Seq<PalEntry>) -> Seq<char>
    decreases es.len(),
{
    if es.len() == 0 {
        Seq::empty()
    } else {
        spec_palette_lines(es.drop_last()) + spec_palette_comment_lines(es.last().2) + seq![
            'c',
            'o',
            'l',
            ' ',
        ] + seq![es.last().0] + seq![' '] + spec_pair_token(es.last().1) + seq!['\n']
    }
}

/// The delay key line, when a delay is set.
pub open spec fn spec_delay_line(d: Option<Delay>, comments: Seq<Seq<char>>) -> Seq<char> {
    match d {
        Some(dl) => spec_key_line(
            seq!['d', 'e', 'l', 'a', 'y', ' '],
            spec_delay_token(dl),
            comments,
        ),
        None => Seq::empty(),
    }
}

/// The loop key line, when a loop flag is set.
pub open spec fn spec_loop_line(f: Option<bool>, comments: Seq<Seq<char>>) -> Seq<char> {
    match f {
        Some(flag) => spec_comment_lines(comments) + (if flag {
            seq!['l', 'o', 'o', 'p', ' ', 'y', 'e', 's']
        } else {
            seq!['l', 'o', 'o', 'p', ' ', 'n', 'o']
        }) + seq!['\n'],
        None => Seq::empty(),
    }
}

/// The preview key line, when a preview index is set.
pub open spec fn spec_preview_line(p: Option<usize>, comments: Seq<Seq<char>>) -> Seq<char> {
    match p {
        Some(v) => spec_key_line(
            seq!['p', 'r', 'e', 'v', 'i', 'e', 'w', ' '],
            spec_dec(v as nat),
            comments,
        ),
        None => Seq::empty(),
    }
}

/// The colors piece: with the flag false nothing is written; with it true
/// (or absent while colors exist) a non-empty palette is written out, else
/// a bare `colors yes`; with the flag absent and no colors, the palette
/// alone (nothing when it is empty).
pub open spec fn spec_colors_piece(h: Header, colors_exist: bool) -> Seq<char> {
    let emit = match h.colors {
        Some(c) => c,
        None => true,
    };
    let force = match h.colors {
        Some(c) => c,
        None => colors_exist,
    };
    if emit {
        if crate::palette::palette_entries(h.palette.palette).len() > 0 {
            spec_palette_lines(crate::palette::palette_entries(h.palette.palette))
        } else if force {
            seq!['c', 'o', 'l', 'o', 'r', 's', ' ', 'y', 'e', 's', '\n']
        } else {
            Seq::empty()
        }
    } else {
        Seq::empty()
    }
}

/// The unrecognized key lines, verbatim with their comments.
pub open spec fn spec_extra_key_lines(es: Seq<ExtraHeaderKey>) -> Seq<char>
    decreases es.len(),
{
    if es.len() == 0 {
        Seq::empty()
    } else {
        spec_extra_key_lines(es.drop_last()) + spec_comment_lines(
            lines_view(es.last().comments@),
        ) + es.last().line@ + seq!['\n']
    }
}

/// All tag lines written out, in order.
pub open spec fn spec_taglines_text(ts: Seq<Tagline>) -> Seq<char>
    decreases ts.len(),
{
    if ts.len() == 0 {
        Seq::empty()
    } else {
        spec_taglines_text(ts.drop_last()) + spec_tagline_text(ts.last())
    }
}

/// The header written out in the modern dialect: the `@3a` line, each
/// present key with its comments, the colors piece, the unrecognized keys,
/// the tag lines, the trailing comments, and a closing blank line.
pub open spec fn spec_header_text(h: Header, colors_exist: bool) -> Seq<char> {
    seq!['@', '3', 'a', '\n'] + spec_opt_key_line(
        seq!['t', 'i', 't', 'l', 'e', ' '],
        h.title,
        lines_view(h.title_comments@),
    ) + spec_author_lines(
        author_entries(h.orig_authors),
        seq!['o', 'r', 'i', 'g', '-', 'a', 'u', 't', 'h', 'o', 'r', ' '],
    ) + spec_author_lines(author_entries(h.authors), seq!['a', 'u', 't', 'h', 'o', 'r', ' '])
        + spec_opt_key_line(seq!['s', 'r', 'c', ' '], h.src, lines_view(h.src_comments@))
        + spec_opt_key_line(
        seq!['e', 'd', 'i', 't', 'o', 'r', ' '],
        h.editor,
        lines_view(h.editor_comments@),
    ) + spec_opt_key_line(
        seq!['l', 'i', 'c', 'e', 'n', 's', 'e', ' '],
        h.license,
        lines_view(h.license_comments@),
    ) + spec_delay_line(h.delay, lines_view(h.delay_comments@)) + spec_loop_line(
        h.loop_flag,
        lines_view(h.loop_comments@),
    ) + spec_preview_line(h.preview, lines_view(h.preview_comments@)) + spec_colors_piece(
        h,
        colors_exist,
    ) + spec_extra_key_lines(h.extra_keys@) + spec_taglines_text(h.tags@) + spec_comment_lines(
        lines_view(h.trailing_comments@),
    ) + seq!['\n']
}

/// Appends one optional scalar key line.
fn push_opt_key_line(out: &mut Vec<char>, key: &str, v: &Option<String>, comments: &Vec<String>)
    ensures
        final(out)@ == old(out)@ + spec_opt_key_line(key@, *v, lines_view(comments@)),
{
    match v {
        Some(s) => {
            push_comment_lines(out, comments);
            let kv = str_to_chars(key);
            crate::colors::push_all(out, &kv);
            let vv = str_to_chars(s.as_str());
            crate::colors::push_all(out, &vv);
            out.push('\n');
            proof {
                assert(out@ =~= old(out)@ + spec_opt_key_line(key@, *v, lines_view(comments@)));
            }
        },
        None => {},
    }
}

impl Header {
    /// Appends the delay, loop and preview key lines.
    #[verifier::rlimit(60)]
    fn push_timing_lines(&self, out: &mut Vec<char>)
        ensures
            final(out)@ == old(out)@ + spec_delay_line(
                self.delay,
                lines_view(self.delay_comments@),
            ) + spec_loop_line(self.loop_flag, lines_view(self.loop_comments@))
                + spec_preview_line(self.preview, lines_view(self.preview_comments@)),
    {
        match &self.delay {
            Some(d) => {
                push_comment_lines(out, &self.delay_comments);
                let kv = str_to_chars("delay ");
                proof {
                    reveal_strlit("delay ");
                    assert(kv@ =~= seq!['d', 'e', 'l', 'a', 'y', ' ']);
                }
                crate::colors::push_all(out, &kv);
                let dv = d.to_token();
                let dvv = str_to_chars(dv.as_str());
                crate::colors::push_all(out, &dvv);
                out.push('\n');
            },
            None => {},
        }
        proof {
            assert(out@ =~= old(out)@ + spec_delay_line(
                self.delay,
                lines_view(self.delay_comments@),
            ));
        }
        let ghost after_delay = out@;
        match &self.loop_flag {
            Some(flag) => {
                push_comment_lines(out, &self.loop_comments);
                let kv = if *flag {
                    str_to_chars("loop yes")
                } else {
                    str_to_chars("loop no")
                };
                proof {
                    reveal_strlit("loop yes");
                    reveal_strlit("loop no");
                    if *flag {
                        assert(kv@ =~= seq!['l', 'o', 'o', 'p', ' ', 'y', 'e', 's']);
                    } else {
                        assert(kv@ =~= seq!['l', 'o', 'o', 'p', ' ', 'n', 'o']);
                    }
                }
                crate::colors::push_all(out, &kv);
                out.push('\n');
            },
            None => {},
        }
        proof {
            assert(out@ =~= after_delay + spec_loop_line(
                self.loop_flag,
                lines_view(self.loop_comments@),
            ));
        }
        let ghost after_loop = out@;
        match &self.preview {
            Some(v) => {
                push_comment_lines(out, &self.preview_comments);
                let kv = str_to_chars("preview ");
                proof {
                    reveal_strlit("preview ");
                    assert(kv@ =~= seq!['p', 'r', 'e', 'v', 'i', 'e', 'w', ' ']);
                }
                crate::colors::push_all(out, &kv);
                let dv = crate::text::fmt_usize(*v);
                crate::colors::push_all(out, &dv);
                out.push('\n');
            },
            None => {},
        }
        proof {
            assert(out@ =~= after_loop + spec_preview_line(
                self.preview,
                lines_view(self.preview_comments@),
            ));
        }
    }

    /// Appends the colors piece: the palette, a bare `colors yes`, or
    /// nothing.
    fn push_colors_piece(&self, out: &mut Vec<char>, colors_exist: bool)
        requires
            self.wf(),
        ensures
            final(out)@ == old(out)@ + spec_colors_piece(*self, colors_exist),
    {
        let emit_palette: bool = match self.colors {
            Some(c) => c,
            None => true,
        };
        let force_colors_line: bool = match self.colors {
            Some(c) => c,
            None => colors_exist,
        };
        if emit_palette {
            if self.palette.len() > 0 {
                self.push_palette_lines(out);
            } else if force_colors_line {
                let kv = str_to_chars("colors yes\n");
                proof {
                    reveal_strlit("colors yes\n");
                    assert(kv@ =~= seq!['c', 'o', 'l', 'o', 'r', 's', ' ', 'y', 'e', 's', '\n']);
                }
                crate::colors::push_all(out, &kv);
            }
        }
        proof {
            assert(out@ =~= old(out)@ + spec_colors_piece(*self, colors_exist));
        }
    }

    /// Appends the unrecognized key lines.
    fn push_extra_key_lines(&self, out: &mut Vec<char>)
        ensures
            final(out)@ == old(out)@ + spec_extra_key_lines(self.extra_keys@),
    {
        let mut k: usize = 0;
        proof {
            assert(spec_extra_key_lines(self.extra_keys@.subrange(0, 0)) =~= Seq::<char>::empty());
            assert(out@ =~= old(out)@ + spec_extra_key_lines(self.extra_keys@.subrange(0, 0)));
        }
        while k < self.extra_keys.len()
            invariant
                k <= self.extra_keys@.len(),
                out@ == old(out)@ + spec_extra_key_lines(self.extra_keys@.subrange(0, k as int)),
            decreases self.extra_keys@.len() - k,
        {
            proof {
                assert(self.extra_keys@.subrange(0, k + 1).drop_last()
                    =~= self.extra_keys@.subrange(0, k as int));
                assert(self.extra_keys@.subrange(0, k + 1).last() == self.extra_keys@[k as int]);
            }
            push_comment_lines(out, &self.extra_keys[k].comments);
            let lv = str_to_chars(self.extra_keys[k].line.as_str());
            crate::colors::push_all(out, &lv);
            out.push('\n');
            proof {
                assert(out@ =~= old(out)@ + spec_extra_key_lines(
                    self.extra_keys@.subrange(0, k + 1),
                ));
            }
            k = k + 1;
        }
        proof {
            assert(self.extra_keys@.subrange(0, self.extra_keys@.len() as int)
                =~= self.extra_keys@);
        }
    }

    /// Appends all tag lines.
    fn push_taglines(&self, out: &mut Vec<char>)
        requires
            self.wf(),
        ensures
            final(out)@ == old(out)@ + spec_taglines_text(self.tags@),
    {
        let mut i: usize = 0;
        proof {
            assert(spec_taglines_text(self.tags@.subrange(0, 0)) =~= Seq::<char>::empty());
            assert(out@ =~= old(out)@ + spec_taglines_text(self.tags@.subrange(0, 0)));
        }
        while i < self.tags.len()
            invariant
                i <= self.tags@.len(),
                self.wf(),
                out@ == old(out)@ + spec_taglines_text(self.tags@.subrange(0, i as int)),
            decreases self.tags@.len() - i,
        {
            proof {
                assert(self.tags@.subrange(0, i + 1).drop_last() =~= self.tags@.subrange(
                    0,
                    i as int,
                ));
                assert(self.tags@.subrange(0, i + 1).last() == self.tags@[i as int]);
            }
            let t = self.tags[i].to_text();
            let tv = str_to_chars(t.as_str());
            crate::colors::push_all(out, &tv);
            proof {
                assert(out@ =~= old(out)@ + spec_taglines_text(self.tags@.subrange(0, i + 1)));
            }
            i = i + 1;
        }
        proof {
            assert(self.tags@.subrange(0, self.tags@.len() as int) =~= self.tags@);
        }
    }

    /// The header written out in the modern dialect.
    #[verifier::rlimit(30)]
    pub fn to_text_with_colors(&self, colors_exist: bool) -> (r: String)
        requires
            self.wf(),
        ensures
            r@ == spec_header_text(*self, colors_exist),
    {
        proof {
            reveal_strlit("@3a\n");
            reveal_strlit("title ");
            reveal_strlit("src ");
            reveal_strlit("editor ");
            reveal_strlit("license ");
            assert("@3a\n"@ =~= seq!['@', '3', 'a', '\n']);
            assert("title "@ =~= seq!['t', 'i', 't', 'l', 'e', ' ']);
            assert("src "@ =~= seq!['s', 'r', 'c', ' ']);
            assert("editor "@ =~= seq!['e', 'd', 'i', 't', 'o', 'r', ' ']);
            assert("license "@ =~= seq!['l', 'i', 'c', 'e', 'n', 's', 'e', ' ']);
        }
        let mut out: Vec<char> = Vec::new();
        let head = str_to_chars("@3a\n");
        crate::colors::push_all(&mut out, &head);
        push_opt_key_line(&mut out, "title ", &self.title, &self.title_comments);
        self.push_author_lines(&mut out, false);
        self.push_author_lines(&mut out, true);
        push_opt_key_line(&mut out, "src ", &self.src, &self.src_comments);
        push_opt_key_line(&mut out, "editor ", &self.editor, &self.editor_comments);
        push_opt_key_line(&mut out, "license ", &self.license, &self.license_comments);
        self.push_timing_lines(&mut out);
        self.push_colors_piece(&mut out, colors_exist);
        self.push_extra_key_lines(&mut out);
        self.push_taglines(&mut out);
        push_comment_lines(&mut out, &self.trailing_comments);
        out.push('\n');
        proof {
            assert(out@ =~= spec_header_text(*self, colors_exist));
        }
        chars_to_string(&out)
    }

    /// Appends the author key lines of one list.
    fn push_author_lines(&self, out: &mut Vec<char>, current: bool)
        ensures
            current ==> final(out)@ == old(out)@ + spec_author_lines(
                author_entries(self.authors),
                seq!['a', 'u', 't', 'h', 'o', 'r', ' '],
            ),
            !current ==> final(out)@ == old(out)@ + spec_author_lines(
                author_entries(self.orig_authors),
                seq!['o', 'r', 'i', 'g', '-', 'a', 'u', 't', 'h', 'o', 'r', ' '],
            ),
    {
        let m = if current {
            &self.authors
        } else {
            &self.orig_authors
        };
        let key: &str = if current {
            "author "
        } else {
            "orig-author "
        };
        let ghost keyv: Seq<char> = if current {
            seq!['a', 'u', 't', 'h', 'o', 'r', ' ']
        } else {
            seq!['o', 'r', 'i', 'g', '-', 'a', 'u', 't', 'h', 'o', 'r', ' ']
        };
        proof {
            reveal_strlit("author ");
            reveal_strlit("orig-author ");
            assert(key@ =~= keyv);
        }
        let ghost es = author_entries(*m);
        let n = amap_len(m);
        let mut i: usize = 0;
        proof {
            assert(spec_author_lines(es.subrange(0, 0), keyv) =~= Seq::<char>::empty());
            assert(out@ =~= old(out)@ + spec_author_lines(es.subrange(0, 0), keyv));
        }
        while i < n
            invariant
                i <= n,
                n == es.len(),
                es == author_entries(*m),
                key@ == keyv,
                out@ == old(out)@ + spec_author_lines(es.subrange(0, i as int), keyv),
            decreases n - i,
        {
            proof {
                assert(es.subrange(0, i + 1).drop_last() =~= es.subrange(0, i as int));
                assert(es.subrange(0, i + 1).last() == es[i as int]);
            }
            let e = amap_get_index(m, i).unwrap();
            push_comment_lines(out, &e.1);
            proof {
                assert(lines_view(e.1@) =~= es[i as int].1);
            }
            let kv = str_to_chars(key);
            crate::colors::push_all(out, &kv);
            let nv = str_to_chars(e.0.as_str());
            crate::colors::push_all(out, &nv);
            out.push('\n');
            proof {
                assert(out@ =~= old(out)@ + spec_author_lines(es.subrange(0, i + 1), keyv));
            }
            i = i + 1;
        }
        proof {
            assert(es.subrange(0, es.len() as int) =~= es);
        }
    }

    /// Appends the palette as `col` lines, comments (with a space after
    /// `;;`) before each entry.
    fn push_palette_lines(&self, out: &mut Vec<char>)
        ensures
            final(out)@ == old(out)@ + spec_palette_lines(self.palette.entries()),
    {
        let ghost es = self.palette.entries();
        let n = self.palette.len();
        let mut i: usize = 0;
        proof {
            assert(spec_palette_lines(es.subrange(0, 0)) =~= Seq::<char>::empty());
            assert(out@ =~= old(out)@ + spec_palette_lines(es.subrange(0, 0)));
        }
        while i < n
            invariant
                i <= n,
                n == es.len(),
                es == self.palette.entries(),
                out@ == old(out)@ + spec_palette_lines(es.subrange(0, i as int)),
            decreases n - i,
        {
            proof {
                assert(es.subrange(0, i + 1).drop_last() =~= es.subrange(0, i as int));
                assert(es.subrange(0, i + 1).last() == es[i as int]);
            }
            let e = crate::palette::pal_get_index(&self.palette.palette, i).unwrap();
            let ghost before_comments = out@;
            let mut c: usize = 0;
            proof {
                assert(spec_palette_comment_lines(es[i as int].2.subrange(0, 0)) =~= Seq::<
                    char,
                >::empty());
                assert(out@ =~= before_comments + spec_palette_comment_lines(
                    es[i as int].2.subrange(0, 0),
                ));
            }
            while c < e.2.len()
                invariant
                    c <= e.2@.len(),
                    e.2.deep_view() == es[i as int].2,
                    e.2@.len() == es[i as int].2.len(),
                    0 <= i < es.len(),
                    out@ == before_comments + spec_palette_comment_lines(
                        es[i as int].2.subrange(0, c as int),
                    ),
                decreases e.2@.len() - c,
            {
                proof {
                    assert(es[i as int].2.subrange(0, c + 1).drop_last()
                        =~= es[i as int].2.subrange(0, c as int));
                    assert(es[i as int].2.subrange(0, c + 1).last() == es[i as int].2[c as int]);
                    assert(e.2@[c as int]@ == es[i as int].2[c as int]);
                }
                let kv = str_to_chars(";; ");
                proof {
                    reveal_strlit(";; ");
                    assert(kv@ =~= seq![';', ';', ' ']);
                }
                crate::colors::push_all(out, &kv);
                let cv = str_to_chars(e.2[c].as_str());
                crate::colors::push_all(out, &cv);
                out.push('\n');
                proof {
                    assert(out@ =~= before_comments + spec_palette_comment_lines(
                        es[i as int].2.subrange(0, c + 1),
                    ));
                }
                c = c + 1;
            }
            proof {
                assert(es[i as int].2.subrange(0, es[i as int].2.len() as int) =~= es[i as int].2);
            }
            let kv = str_to_chars("col ");
            proof {
                reveal_strlit("col ");
                assert(kv@ =~= seq!['c', 'o', 'l', ' ']);
            }
            crate::colors::push_all(out, &kv);
            out.push(e.0.to_char());
            out.push(' ');
            let pv = e.1.to_token();
            let pvv = str_to_chars(pv.as_str());
            crate::colors::push_all(out, &pvv);
            out.push('\n');
            proof {
                assert(out@ =~= old(out)@ + spec_palette_lines(es.subrange(0, i + 1)));
            }
            i = i + 1;
        }
        proof {
            assert(es.subrange(0, es.len() as int) =~= es);
        }
    }
}

/// Removing keeps tags unique.
proof fn lemma_tags_unique_remove(es: Seq<Seq<char>>, i: int)
    requires
        tags_unique(es),
        0 <= i < es.len(),
    ensures
        tags_unique(es.remove(i)),
{
    let s2 = es.remove(i);
    assert forall|a: int, b: int|
        0 <= a < b < s2.len() implies (#[trigger] s2[a]) != (#[trigger] s2[b]) by {
        let a0 = if a < i {
            a
        } else {
            a + 1
        };
        let b0 = if b < i {
            b
        } else {
            b + 1
        };
        assert(s2[a] == es[a0] && s2[b] == es[b0]);
    }
}

/// After removing the only occurrence, the tag is gone.
proof fn lemma_tags_removed_gone(es: Seq<Seq<char>>, i: int)
    requires
        tags_unique(es),
        0 <= i < es.len(),
    ensures
        !tags_contain(es.remove(i), es[i]),
{
    let s2 = es.remove(i);
    assert forall|k: int| 0 <= k < s2.len() implies (#[trigger] s2[k]) != es[i] by {
        if k < i {
            assert(s2[k] == es[k]);
        } else {
            assert(s2[k] == es[k + 1]);
        }
    }
}

/// With unique names, the chosen index of a present name is the only one.
proof fn lemma_authors_unique_idx(es: Seq<(Seq<char>, Seq<Seq<char>>)>, i: int)
    requires
        authors_unique(es),
        0 <= i < es.len(),
    ensures
        authors_contain(es, es[i].0),
        authors_idx(es, es[i].0) == i,
{
    assert(authors_contain(es, es[i].0)) by {
        assert(0 <= i < es.len() && es[i].0 == es[i].0);
    }
    let j = authors_idx(es, es[i].0);
    if j != i {
        if j < i {
            assert(es[j].0 != es[i].0);
        } else {
            assert(es[i].0 != es[j].0);
        }
    }
}

} // verus!
