//! Small presentational helpers: HTML escaping, JSON string quoting, and
//! index clamping.

use vstd::prelude::*;

use crate::text::{chars_to_string, str_to_chars};

verus! {

/// What one character escapes to in HTML text.
pub open spec fn spec_escape_html_char(c: char) -> Seq<char> {
    if c == '&' {
        seq!['&', 'a', 'm', 'p', ';']
    } else if c == '<' {
        seq!['&', 'l', 't', ';']
    } else if c == '>' {
        seq!['&', 'g', 't', ';']
    } else if c == '"' {
        seq!['&', 'q', 'u', 'o', 't', ';']
    } else if c == '\'' {
        seq!['&', '#', 'x', '2', '7', ';']
    } else if c == '/' {
        seq!['&', '#', 'x', '2', 'F', ';']
    } else {
        seq![c]
    }
}

/// A text with every markup character escaped.
pub open spec fn spec_escape_html(s: Seq<char>) -> Seq<char>
    decreases s.len(),
{
    if s.len() == 0 {
        Seq::empty()
    } else {
        spec_escape_html(s.drop_last()) + spec_escape_html_char(s.last())
    }
}

/// Escapes the HTML markup characters of a text.
pub fn escape_html(s: &str) -> (r: String)
    ensures
        r@ == spec_escape_html(s@),
{
    let cv = str_to_chars(s);
    let mut out: Vec<char> = Vec::new();
    let mut i: usize = 0;
    proof {
        assert(s@.subrange(0, 0) =~= Seq::<char>::empty());
    }
    while i < cv.len()
        invariant
            i <= cv@.len(),
            cv@ == s@,
            out@ == spec_escape_html(s@.subrange(0, i as int)),
        decreases cv@.len() - i,
    {
        proof {
            assert(s@.subrange(0, i + 1).drop_last() =~= s@.subrange(0, i as int));
            assert(s@.subrange(0, i + 1).last() == s@[i as int]);
        }
        let c = cv[i];
        match c {
            '&' => {
                let v = str_to_chars("&amp;");
                proof {
                    reveal_strlit("&amp;");
                    assert(v@ =~= seq!['&', 'a', 'm', 'p', ';']);
                }
                crate::colors::push_all(&mut out, &v);
            },
            '<' => {
                let v = str_to_chars("&lt;");
                proof {
                    reveal_strlit("&lt;");
                    assert(v@ =~= seq!['&', 'l', 't', ';']);
                }
                crate::colors::push_all(&mut out, &v);
            },
            '>' => {
                let v = str_to_chars("&gt;");
                proof {
                    reveal_strlit("&gt;");
                    assert(v@ =~= seq!['&', 'g', 't', ';']);
                }
                crate::colors::push_all(&mut out, &v);
            },
            '"' => {
                let v = str_to_chars("&quot;");
                proof {
                    reveal_strlit("&quot;");
                    assert(v@ =~= seq!['&', 'q', 'u', 'o', 't', ';']);
                }
                crate::colors::push_all(&mut out, &v);
            },
            '\'' => {
                let v = str_to_chars("&#x27;");
                proof {
                    reveal_strlit("&#x27;");
                    assert(v@ =~= seq!['&', '#', 'x', '2', '7', ';']);
                }
                crate::colors::push_all(&mut out, &v);
            },
            '/' => {
                let v = str_to_chars("&#x2F;");
                proof {
                    reveal_strlit("&#x2F;");
                    assert(v@ =~= seq!['&', '#', 'x', '2', 'F', ';']);
                }
                crate::colors::push_all(&mut out, &v);
            },
            _ => {
                out.push(c);
            },
        }
        proof {
            assert(out@ =~= spec_escape_html(s@.subrange(0, i + 1)));
        }
        i = i + 1;
    }
    proof {
        assert(s@.subrange(0, s@.len() as int) =~= s@);
    }
    chars_to_string(&out)
}

/// What one character quotes to inside a JSON string: `"` and `\` escaped,
/// C0 and C1 controls as `\u` with four lower-case hex digits.
pub open spec fn spec_json_char(c: char) -> Seq<char> {
    if c == '"' {
        seq!['\\', '"']
    } else if c == '\\' {
        seq!['\\', '\\']
    } else if c as u32 <= 0x1F || (0x7F <= c as u32 && c as u32 <= 0x9F) {
        seq!['\\', 'u', '0', '0'] + seq![
            crate::colors::hex_digit(c as u32 as int / 16),
            crate::colors::hex_digit(c as u32 as int % 16),
        ]
    } else {
        seq![c]
    }
}

/// A quoted JSON string: the quoted characters between two quote marks.
pub open spec fn spec_json_quote(s: Seq<char>) -> Seq<char>
    decreases s.len(),
{
    if s.len() == 0 {
        seq!['"', '"']
    } else {
        spec_json_quote(s.drop_last()).drop_last() + spec_json_char(s.last()) + seq!['"']
    }
}

/// Quotes a text as a JSON string, surrounding quotes included.
pub fn json_quote(s: &str) -> (r: String)
    ensures
        r@ == spec_json_quote(s@),
{
    let cv = str_to_chars(s);
    let mut out: Vec<char> = Vec::new();
    out.push('"');
    let mut i: usize = 0;
    proof {
        assert(s@.subrange(0, 0) =~= Seq::<char>::empty());
        assert(out@.push('"') =~= spec_json_quote(s@.subrange(0, 0)));
    }
    while i < cv.len()
        invariant
            i <= cv@.len(),
            cv@ == s@,
            out@.push('"') == spec_json_quote(s@.subrange(0, i as int)),
        decreases cv@.len() - i,
    {
        proof {
            assert(s@.subrange(0, i + 1).drop_last() =~= s@.subrange(0, i as int));
            assert(s@.subrange(0, i + 1).last() == s@[i as int]);
        }
        let c = cv[i];
        let cp = c as u32;
        if c == '"' {
            out.push('\\');
            out.push('"');
        } else if c == '\\' {
            out.push('\\');
            out.push('\\');
        } else if cp <= 0x1F || (0x7F <= cp && cp <= 0x9F) {
            out.push('\\');
            out.push('u');
            out.push('0');
            out.push('0');
            out.push(crate::colors::hex_digit_char((cp / 16) as usize));
            out.push(crate::colors::hex_digit_char((cp % 16) as usize));
        } else {
            out.push(c);
        }
        proof {
            assert(out@.push('"') =~= spec_json_quote(s@.subrange(0, i + 1)));
        }
        i = i + 1;
    }
    out.push('"');
    proof {
        assert(s@.subrange(0, s@.len() as int) =~= s@);
    }
    chars_to_string(&out)
}

/// A value clamped into `[start, end)`: raised to the start first, then
/// lowered below the end; an empty range clamps to zero.
pub open spec fn spec_in_range(v: usize, start: usize, end: usize) -> usize {
    let a = if v < start {
        start
    } else {
        v
    };
    if a >= end {
        if end > 0 {
            (end - 1) as usize
        } else {
            0usize
        }
    } else {
        a
    }
}

/// Clamps a value into `[start, end)`.
pub fn in_range(v: usize, start: usize, end: usize) -> (r: usize)
    ensures
        r == spec_in_range(v, start, end),
{
    let mut r = v;
    if r < start {
        r = start;
    }
    if r >= end {
        if end > 0 {
            r = end - 1;
        } else {
            r = 0;
        }
    }
    r
}

} // verus!
