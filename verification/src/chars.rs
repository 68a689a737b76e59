//! Validated characters: the allow-list predicate, the single-character
//! wrapper type, and lossy text normalization.

use vstd::prelude::*;

use crate::error::Error;

verus! {

/// Code points that stand for horizontal white space and normalize to a
/// plain space: space, tab, NBSP, the Unicode space separators, and the
/// Mongolian vowel separator.
pub open spec fn is_space_like(cp: u32) -> bool {
    ||| cp == 0x20
    ||| cp == 0x09
    ||| cp == 0x180E
    ||| cp == 0xA0
    ||| cp == 0x1680
    ||| (0x2000 <= cp && cp <= 0x200A)
    ||| cp == 0x202F
    ||| cp == 0x205F
    ||| cp == 0x3000
}

/// Code points that are rejected outright: C0 controls, a handful of C1
/// controls, combining marks, zero-width and variation marks, bidirectional
/// controls, and surrogates.
pub open spec fn is_rejected(cp: u32) -> bool {
    ||| cp <= 0x1F
    ||| cp == 0x7F
    ||| cp == 0x81
    ||| cp == 0x8D
    ||| cp == 0x8F
    ||| cp == 0x90
    ||| cp == 0x9D
    ||| (0x300 <= cp && cp <= 0x36F)
    ||| (0x200B <= cp && cp <= 0x200F)
    ||| cp == 0xFEFF
    ||| (0xFE00 <= cp && cp <= 0xFE0F)
    ||| (0x202A <= cp && cp <= 0x202E)
    ||| (0x2066 <= cp && cp <= 0x2069)
    ||| (0xD800 <= cp && cp <= 0xDFFF)
}

/// What a character validates to: space-likes become a space, rejected
/// code points become `None`, everything else passes unchanged.
pub open spec fn spec_check_char(c: char) -> Option<char> {
    if is_space_like(c as u32) {
        Some(' ')
    } else if is_rejected(c as u32) {
        None
    } else {
        Some(c)
    }
}

/// A character is allowed when validation passes it through unchanged.
pub open spec fn char_allowed(c: char) -> bool {
    spec_check_char(c) == Some(c)
}

/// Whatever `spec_check_char` returns is itself an allowed character.
pub proof fn lemma_check_char_allowed(c: char)
    ensures
        spec_check_char(c) matches Some(k) ==> char_allowed(k),
{
    assert(' ' as u32 == 0x20);
}

/// Checks whether a character is allowed in 3a art.
/// Returns `Some` of the (whitespace-normalized) character, or `None` when
/// the character is rejected.
pub fn check_char(ch: char) -> (r: Option<char>)
    ensures
        r == spec_check_char(ch),
{
    let cp = ch as u32;
    if cp == 0x20 || cp == 0x09 || cp == 0x180E || cp == 0xA0 || cp == 0x1680
        || (0x2000 <= cp && cp <= 0x200A) || cp == 0x202F || cp == 0x205F || cp == 0x3000 {
        Some(' ')
    } else if cp <= 0x1F || cp == 0x7F || cp == 0x81 || cp == 0x8D || cp == 0x8F || cp == 0x90
        || cp == 0x9D || (0x300 <= cp && cp <= 0x36F) || (0x200B <= cp && cp <= 0x200F)
        || cp == 0xFEFF || (0xFE00 <= cp && cp <= 0xFE0F) || (0x202A <= cp && cp <= 0x202E)
        || (0x2066 <= cp && cp <= 0x2069) || (0xD800 <= cp && cp <= 0xDFFF) {
        None
    } else {
        Some(ch)
    }
}

/// A validated character: only characters that pass the allow-list can be
/// contained, so every `Char` in the model is known printable.
#[derive(Debug, Clone, Copy, PartialEq, Eq, Hash, Structural)]
pub struct Char {
    c: char,
}

impl View for Char {
    type V = char;

    closed spec fn view(&self) -> char {
        self.c
    }
}

impl Char {
    /// The invariant: the contained character passes the allow-list.
    pub open spec fn wf(&self) -> bool {
        char_allowed(self@)
    }

    /// Creates a new `Char` after validating the character.
    /// Fails with `DisallowedChar` exactly when the character is rejected.
    pub fn new(ch: char) -> (r: Result<Char, Error>)
        ensures
            (r is Ok) == (spec_check_char(ch) is Some),
            r matches Ok(c) ==> Some(c@) == spec_check_char(ch) && c.wf(),
            r matches Err(e) ==> (e matches Error::DisallowedChar(cp) && cp == ch as u32),
    {
        proof {
            lemma_check_char_allowed(ch);
        }
        match check_char(ch) {
            Some(ok) => Ok(Char { c: ok }),
            None => Err(Error::DisallowedChar(ch as u32)),
        }
    }

    /// Creates a new `Char` from a character known to be accepted.
    /// Prefer `new` or `new_or` when the character is not known valid.
    pub fn new_must(ch: char) -> (r: Char)
        requires
            spec_check_char(ch) is Some,
        ensures
            Some(r@) == spec_check_char(ch),
            r.wf(),
    {
        proof {
            lemma_check_char_allowed(ch);
        }
        match check_char(ch) {
            Some(ok) => Char { c: ok },
            None => Char { c: ' ' },
        }
    }

    /// Creates a new `Char` if the character is allowed; otherwise returns
    /// the given default.
    pub fn new_or(ch: char, default: Char) -> (r: Char)
        ensures
            match spec_check_char(ch) {
                Some(k) => r@ == k,
                None => r == default,
            },
            default.wf() ==> r.wf(),
    {
        proof {
            lemma_check_char_allowed(ch);
        }
        match check_char(ch) {
            Some(ok) => Char { c: ok },
            None => default,
        }
    }

    /// The contained character.
    pub fn to_char(&self) -> (c: char)
        ensures
            c == self@,
    {
        self.c
    }

    /// The plain space character.
    pub fn space() -> (r: Char)
        ensures
            r@ == ' ',
            r.wf(),
    {
        Char { c: ' ' }
    }

    /// The underscore character, used as the "no color" mark in color rows.
    pub fn underscore() -> (r: Char)
        ensures
            r@ == '_',
            r.wf(),
    {
        proof {
            assert('_' as u32 == 0x5F);
        }
        Char { c: '_' }
    }
}

/// The `Char` value with a given view; `Char` is determined by its view.
pub closed spec fn spec_char(k: char) -> Char {
    Char { c: k }
}

/// `spec_char` names the value seen through the view.
pub broadcast proof fn lemma_spec_char(k: char)
    ensures
        (#[trigger] spec_char(k))@ == k,
{
}

/// Two validated characters with the same view are the same value.
pub proof fn lemma_char_view_eq(a: Char, b: Char)
    requires
        a@ == b@,
    ensures
        a == b,
{
}

/// What normalization leaves of a text: rejected characters are dropped,
/// space-likes become spaces, the rest is kept in order.
pub open spec fn normalize_seq(s: Seq<char>) -> Seq<char>
    decreases s.len(),
{
    if s.len() == 0 {
        Seq::empty()
    } else {
        match spec_check_char(s[0]) {
            Some(c) => seq![c] + normalize_seq(s.drop_first()),
            None => normalize_seq(s.drop_first()),
        }
    }
}

/// Normalizing one more character at the end appends its normalization.
pub proof fn lemma_normalize_push(s: Seq<char>, c: char)
    ensures
        normalize_seq(s.push(c)) == match spec_check_char(c) {
            Some(k) => normalize_seq(s).push(k),
            None => normalize_seq(s),
        },
    decreases s.len(),
{
    let s2 = s.push(c);
    if s.len() == 0 {
        assert(s2[0] == c);
        assert(s2.drop_first() =~= Seq::<char>::empty());
        assert(normalize_seq(s2.drop_first()) == Seq::<char>::empty());
        assert(normalize_seq(s) == Seq::<char>::empty());
        match spec_check_char(c) {
            Some(k) => {
                assert(normalize_seq(s2) == seq![k] + Seq::<char>::empty());
                assert(seq![k] + Seq::<char>::empty() =~= normalize_seq(s).push(k));
            },
            None => {
                assert(normalize_seq(s2) == Seq::<char>::empty());
            },
        }
    } else {
        assert(s2[0] == s[0]);
        assert(s2.drop_first() =~= s.drop_first().push(c));
        lemma_normalize_push(s.drop_first(), c);
        let rest = normalize_seq(s.drop_first());
        match spec_check_char(s[0]) {
            Some(k0) => {
                assert(normalize_seq(s) == seq![k0] + rest);
                match spec_check_char(c) {
                    Some(k) => {
                        assert(normalize_seq(s2) == seq![k0] + rest.push(k));
                        assert(seq![k0] + rest.push(k) =~= (seq![k0] + rest).push(k));
                    },
                    None => {
                        assert(normalize_seq(s2) == seq![k0] + rest);
                    },
                }
            },
            None => {
                assert(normalize_seq(s) == rest);
                match spec_check_char(c) {
                    Some(k) => {
                        assert(normalize_seq(s2) == rest.push(k));
                    },
                    None => {
                        assert(normalize_seq(s2) == rest);
                    },
                }
            },
        }
    }
}

/// Every character of a normalized text is allowed.
pub proof fn lemma_normalize_all_allowed(s: Seq<char>)
    ensures
        forall|i: int| 0 <= i < normalize_seq(s).len() ==> char_allowed(#[trigger] normalize_seq(s)[i]),
    decreases s.len(),
{
    if s.len() > 0 {
        lemma_normalize_all_allowed(s.drop_first());
        lemma_check_char_allowed(s[0]);
        let rest = normalize_seq(s.drop_first());
        match spec_check_char(s[0]) {
            Some(k) => {
                assert(normalize_seq(s) == seq![k] + rest);
                assert forall|i: int| 0 <= i < normalize_seq(s).len() implies char_allowed(
                    #[trigger] normalize_seq(s)[i],
                ) by {
                    if i == 0 {
                        assert(normalize_seq(s)[0] == k);
                    } else {
                        assert(normalize_seq(s)[i] == rest[i - 1]);
                    }
                }
            },
            None => {
                assert(normalize_seq(s) == rest);
            },
        }
    }
}

/// A text of allowed characters is already normal.
pub proof fn lemma_normalize_of_allowed(s: Seq<char>)
    requires
        forall|i: int| 0 <= i < s.len() ==> char_allowed(#[trigger] s[i]),
    ensures
        normalize_seq(s) == s,
    decreases s.len(),
{
    if s.len() == 0 {
        assert(normalize_seq(s) =~= s);
    } else {
        lemma_normalize_of_allowed(s.drop_first());
        assert(normalize_seq(s) =~= s);
    }
}

/// Normalization is idempotent: applying it twice is the same as once.
pub proof fn lemma_normalize_idempotent(s: Seq<char>)
    ensures
        normalize_seq(normalize_seq(s)) == normalize_seq(s),
{
    lemma_normalize_all_allowed(s);
    lemma_normalize_of_allowed(normalize_seq(s));
}

/// Validation is idempotent: a valid `Char` validates to itself.
pub proof fn lemma_validate_idempotent(c: Char)
    requires
        c.wf(),
    ensures
        spec_check_char(c@) == Some(c@),
{
}

/// Removes disallowed characters from a string and normalizes allowed
/// whitespace: the result is exactly `normalize_seq` of the input.
pub fn normalize_text(input: &str) -> (out: String)
    ensures
        out@ == normalize_seq(input@),
{
    let chars = crate::text::str_to_chars(input);
    let normalized = normalize_chars(&chars);
    crate::text::chars_to_string(&normalized)
}

/// `normalize_seq` over character vectors.
pub fn normalize_chars(input: &Vec<char>) -> (out: Vec<char>)
    ensures
        out@ == normalize_seq(input@),
{
    let mut out: Vec<char> = Vec::new();
    let mut i: usize = 0;
    while i < input.len()
        invariant
            i <= input.len(),
            out@ == normalize_seq(input@.subrange(0, i as int)),
        decreases input.len() - i,
    {
        proof {
            lemma_normalize_push(input@.subrange(0, i as int), input@[i as int]);
            assert(input@.subrange(0, i as int).push(input@[i as int]) =~= input@.subrange(
                0,
                i + 1,
            ));
        }
        match check_char(input[i]) {
            Some(c) => out.push(c),
            None => (),
        }
        i = i + 1;
    }
    proof {
        assert(input@.subrange(0, input@.len() as int) =~= input@);
    }
    out
}

} // verus!
