//! Small text utilities: string/character-vector conversion, trimming,
//! splitting, case folding of ASCII letters, and decimal formatting.

use vstd::prelude::*;
use vstd::string::StrSliceExecFns;
use vstd::string::StringExecFns;

verus! {

/// The character sequences of a list of lines.
pub open spec fn lines_view(ls: Seq<String>) -> Seq<Seq<char>> {
    Seq::new(ls.len(), |i: int| ls[i]@)
}

/// The character sequences of a list of character vectors.
pub open spec fn vecs_view(vs: Seq<Vec<char>>) -> Seq<Seq<char>> {
    Seq::new(vs.len(), |i: int| vs[i]@)
}

/// The cell sequences of a list of cell vectors.
pub open spec fn vecs_view_cells(vs: Seq<Vec<crate::content::Cell>>) -> Seq<
    Seq<crate::content::Cell>,
> {
    Seq::new(vs.len(), |i: int| vs[i]@)
}

/// The characters of a string, in order.
pub fn str_to_chars(s: &str) -> (out: Vec<char>)
    ensures
        out@ == s@,
{
    let n = s.unicode_len();
    let mut out: Vec<char> = Vec::new();
    let mut i: usize = 0;
    while i < n
        invariant
            i <= n,
            n == s@.len(),
            out@ == s@.subrange(0, i as int),
        decreases n - i,
    {
        out.push(s.get_char(i));
        proof {
            assert(s@.subrange(0, i as int).push(s@[i as int]) =~= s@.subrange(0, i + 1));
        }
        i = i + 1;
    }
    proof {
        assert(s@.subrange(0, s@.len() as int) =~= s@);
    }
    out
}

/// Relies on `String`'s `FromIterator<char>`: collecting the characters of
/// `v` yields the string with exactly those characters in order.
#[verifier::external_body]
pub fn chars_to_string(v: &Vec<char>) -> (s: String)
    ensures
        s@ == v@,
{
    v.iter().collect()
}

/// A `String` with the characters of a string slice.
pub fn string_from_str(s: &str) -> (r: String)
    ensures
        r@ == s@,
{
    <String as StringExecFns>::from_str(s)
}

/// Whether two strings hold the same characters.
pub fn string_eq(a: &String, b: &String) -> (r: bool)
    ensures
        r == (a@ == b@),
{
    let x: &str = a.as_str();
    let y: &str = b.as_str();
    crate::text::chars_eq_str(&str_to_chars(x), y)
}

/// Whether two character vectors hold the same characters.
pub fn chars_eq(a: &Vec<char>, b: &Vec<char>) -> (r: bool)
    ensures
        r == (a@ == b@),
{
    if a.len() != b.len() {
        proof {
            assert(a@.len() != b@.len());
        }
        return false;
    }
    let mut i: usize = 0;
    while i < a.len()
        invariant
            i <= a.len(),
            a@.len() == b@.len(),
            forall|j: int| 0 <= j < i ==> a@[j] == b@[j],
        decreases a.len() - i,
    {
        if a[i] != b[i] {
            return false;
        }
        i = i + 1;
    }
    proof {
        assert(a@ =~= b@);
    }
    true
}

/// Whether the characters of `a` equal those of the string `b`.
pub fn chars_eq_str(a: &Vec<char>, b: &str) -> (r: bool)
    ensures
        r == (a@ == b@),
{
    let bv = str_to_chars(b);
    chars_eq(a, &bv)
}

/// The characters Rust's `str::trim` treats as white space.
pub open spec fn is_ws(c: char) -> bool {
    ||| (0x09 <= c as u32 && c as u32 <= 0x0D)
    ||| c as u32 == 0x20
    ||| c as u32 == 0x85
    ||| c as u32 == 0xA0
    ||| c as u32 == 0x1680
    ||| (0x2000 <= c as u32 && c as u32 <= 0x200A)
    ||| c as u32 == 0x2028
    ||| c as u32 == 0x2029
    ||| c as u32 == 0x202F
    ||| c as u32 == 0x205F
    ||| c as u32 == 0x3000
}

/// `is_ws`, executably.
pub fn ws_char(c: char) -> (r: bool)
    ensures
        r == is_ws(c),
{
    let cp = c as u32;
    (0x09 <= cp && cp <= 0x0D) || cp == 0x20 || cp == 0x85 || cp == 0xA0 || cp == 0x1680 || (0x2000
        <= cp && cp <= 0x200A) || cp == 0x2028 || cp == 0x2029 || cp == 0x202F || cp == 0x205F
        || cp == 0x3000
}

/// A text with its leading white space removed.
pub open spec fn spec_trim_start(s: Seq<char>) -> Seq<char>
    decreases s.len(),
{
    if s.len() > 0 && is_ws(s[0]) {
        spec_trim_start(s.drop_first())
    } else {
        s
    }
}

/// A text with its trailing white space removed.
pub open spec fn spec_trim_end(s: Seq<char>) -> Seq<char>
    decreases s.len(),
{
    if s.len() > 0 && is_ws(s.last()) {
        spec_trim_end(s.drop_last())
    } else {
        s
    }
}

/// A text with leading and trailing white space removed, as `str::trim`.
pub open spec fn spec_trim(s: Seq<char>) -> Seq<char> {
    spec_trim_end(spec_trim_start(s))
}

/// `spec_trim`, executably.
pub fn trim_chars(v: &Vec<char>) -> (out: Vec<char>)
    ensures
        out@ == spec_trim(v@),
{
    let mut start: usize = 0;
    proof {
        assert(v@.skip(0) =~= v@);
    }
    while start < v.len() && ws_char(v[start])
        invariant
            start <= v.len(),
            spec_trim_start(v@) == spec_trim_start(v@.skip(start as int)),
        decreases v.len() - start,
    {
        proof {
            assert(v@.skip(start as int).drop_first() =~= v@.skip(start as int + 1));
        }
        start = start + 1;
    }
    proof {
        if start < v.len() {
            assert(spec_trim_start(v@) == v@.skip(start as int));
        } else {
            assert(v@.skip(start as int) =~= Seq::<char>::empty());
            assert(spec_trim_start(v@) =~= v@.skip(start as int));
        }
    }
    let ghost mid = v@.skip(start as int);
    let mut end: usize = v.len();
    while end > start && ws_char(v[end - 1])
        invariant
            start <= end <= v.len(),
            mid == v@.skip(start as int),
            spec_trim_end(mid) == spec_trim_end(v@.subrange(start as int, end as int)),
        decreases end,
    {
        proof {
            assert(v@.subrange(start as int, end as int).last() == v@[end - 1]);
            assert(v@.subrange(start as int, end as int).drop_last() =~= v@.subrange(
                start as int,
                end as int - 1,
            ));
        }
        end = end - 1;
    }
    proof {
        assert(spec_trim_end(mid) == v@.subrange(start as int, end as int));
    }
    let mut out: Vec<char> = Vec::new();
    let mut i: usize = start;
    while i < end
        invariant
            start <= i <= end <= v.len(),
            out@ == v@.subrange(start as int, i as int),
        decreases end - i,
    {
        out.push(v[i]);
        proof {
            assert(v@.subrange(start as int, i as int).push(v@[i as int]) =~= v@.subrange(
                start as int,
                i + 1,
            ));
        }
        i = i + 1;
    }
    proof {
        assert(mid.len() == v@.len() - start);
        assert(spec_trim(v@) == v@.subrange(start as int, end as int));
    }
    out
}

/// A character with an ASCII capital letter folded to lower case.
pub open spec fn spec_lower_char(c: char) -> char {
    if 'A' <= c && c <= 'Z' {
        ((c as u32 + 32) as char)
    } else {
        c
    }
}

/// A text with its ASCII capital letters folded to lower case.
pub open spec fn spec_lower(s: Seq<char>) -> Seq<char> {
    s.map_values(|c: char| spec_lower_char(c))
}

/// `spec_lower_char`, executably.
pub fn lower_char(c: char) -> (r: char)
    ensures
        r == spec_lower_char(c),
{
    if 'A' <= c && c <= 'Z' {
        let b = (c as u8) + 32;
        b as char
    } else {
        c
    }
}

/// `spec_lower`, executably.
pub fn lower_chars(v: &Vec<char>) -> (out: Vec<char>)
    ensures
        out@ == spec_lower(v@),
{
    let mut out: Vec<char> = Vec::new();
    let mut i: usize = 0;
    while i < v.len()
        invariant
            i <= v.len(),
            out@.len() == i,
            forall|j: int| 0 <= j < i ==> out@[j] == spec_lower_char(v@[j]),
        decreases v.len() - i,
    {
        out.push(lower_char(v[i]));
        i = i + 1;
    }
    proof {
        assert(out@ =~= spec_lower(v@));
    }
    out
}

/// Splits at the first occurrence of `sep`, as `str::split_once`:
/// `None` when `sep` does not occur; otherwise the part before (free of
/// `sep`) and the part after.
pub fn split_first(v: &Vec<char>, sep: char) -> (r: Option<(Vec<char>, Vec<char>)>)
    ensures
        r is None ==> forall|j: int| 0 <= j < v@.len() ==> v@[j] != sep,
        r matches Some((a, b)) ==> {
            &&& v@ == a@ + seq![sep] + b@
            &&& forall|j: int| 0 <= j < a@.len() ==> a@[j] != sep
        },
{
    let mut i: usize = 0;
    while i < v.len()
        invariant
            i <= v.len(),
            forall|j: int| 0 <= j < i ==> v@[j] != sep,
        decreases v.len() - i,
    {
        if v[i] == sep {
            let mut a: Vec<char> = Vec::new();
            let mut j: usize = 0;
            while j < i
                invariant
                    j <= i < v.len(),
                    a@ == v@.subrange(0, j as int),
                decreases i - j,
            {
                a.push(v[j]);
                proof {
                    assert(v@.subrange(0, j as int).push(v@[j as int]) =~= v@.subrange(0, j + 1));
                }
                j = j + 1;
            }
            let mut b: Vec<char> = Vec::new();
            let mut k: usize = i + 1;
            while k < v.len()
                invariant
                    i < k <= v.len(),
                    b@ == v@.subrange(i as int + 1, k as int),
                decreases v.len() - k,
            {
                b.push(v[k]);
                proof {
                    assert(v@.subrange(i as int + 1, k as int).push(v@[k as int]) =~= v@.subrange(
                        i as int + 1,
                        k + 1,
                    ));
                }
                k = k + 1;
            }
            proof {
                assert(forall|j: int| 0 <= j < i ==> v@.subrange(0, i as int)[j] == v@[j]);
                assert(v@ =~= v@.subrange(0, i as int) + seq![sep] + v@.subrange(
                    i as int + 1,
                    v@.len() as int,
                ));
            }
            return Some((a, b));
        }
        i = i + 1;
    }
    None
}

/// The prefix of `v` after removing `p`, when `v` starts with `p`.
pub fn strip_prefix_str(v: &Vec<char>, p: &str) -> (r: Option<Vec<char>>)
    ensures
        r is Some <==> v@.len() >= p@.len() && v@.subrange(0, p@.len() as int) == p@,
        r matches Some(rest) ==> v@ == p@ + rest@,
{
    let pv = str_to_chars(p);
    if v.len() < pv.len() {
        proof {
            assert(v@.len() < p@.len());
        }
        return None;
    }
    let mut i: usize = 0;
    while i < pv.len()
        invariant
            i <= pv.len() <= v.len(),
            pv@ == p@,
            forall|j: int| 0 <= j < i ==> v@[j] == p@[j],
        decreases pv.len() - i,
    {
        if v[i] != pv[i] {
            proof {
                assert(v@.subrange(0, p@.len() as int)[i as int] == v@[i as int]);
            }
            return None;
        }
        i = i + 1;
    }
    let mut rest: Vec<char> = Vec::new();
    let mut k: usize = pv.len();
    while k < v.len()
        invariant
            pv.len() <= k <= v.len(),
            pv@ == p@,
            rest@ == v@.subrange(p@.len() as int, k as int),
        decreases v.len() - k,
    {
        rest.push(v[k]);
        proof {
            assert(v@.subrange(p@.len() as int, k as int).push(v@[k as int]) =~= v@.subrange(
                p@.len() as int,
                k + 1,
            ));
        }
        k = k + 1;
    }
    proof {
        assert(v@.subrange(0, p@.len() as int) =~= p@);
        assert(v@ =~= p@ + v@.subrange(p@.len() as int, v@.len() as int));
    }
    Some(rest)
}

/// The decimal digit character for a value below ten.
pub open spec fn dec_digit(d: int) -> char {
    if d == 0 {
        '0'
    } else if d == 1 {
        '1'
    } else if d == 2 {
        '2'
    } else if d == 3 {
        '3'
    } else if d == 4 {
        '4'
    } else if d == 5 {
        '5'
    } else if d == 6 {
        '6'
    } else if d == 7 {
        '7'
    } else if d == 8 {
        '8'
    } else {
        '9'
    }
}

/// The decimal rendering of a natural number, most significant digit first.
pub open spec fn spec_dec(n: nat) -> Seq<char>
    decreases n,
{
    if n < 10 {
        seq![dec_digit(n as int)]
    } else {
        spec_dec(n / 10).push(dec_digit((n % 10) as int))
    }
}

/// `spec_dec`, executably.
pub fn fmt_usize(n: usize) -> (out: Vec<char>)
    ensures
        out@ == spec_dec(n as nat),
    decreases n,
{
    if n < 10 {
        let mut v: Vec<char> = Vec::new();
        v.push(digit_char(n));
        proof {
            assert(v@ =~= spec_dec(n as nat));
        }
        v
    } else {
        let mut v = fmt_usize(n / 10);
        v.push(digit_char(n % 10));
        v
    }
}

/// The digit character of a value below ten, executably.
pub fn digit_char(d: usize) -> (c: char)
    requires
        d < 10,
    ensures
        c == dec_digit(d as int),
{
    if d == 0 {
        '0'
    } else if d == 1 {
        '1'
    } else if d == 2 {
        '2'
    } else if d == 3 {
        '3'
    } else if d == 4 {
        '4'
    } else if d == 5 {
        '5'
    } else if d == 6 {
        '6'
    } else if d == 7 {
        '7'
    } else if d == 8 {
        '8'
    } else {
        '9'
    }
}

/// Whether the character is a decimal digit.
pub open spec fn is_dec_digit(c: char) -> bool {
    '0' <= c && c <= '9'
}

/// The value of a decimal digit character.
pub open spec fn dec_val(c: char) -> int {
    c as u32 - 0x30
}

/// The value of a digit sequence read in base ten.
pub open spec fn seq_dec_val(s: Seq<char>) -> int
    decreases s.len(),
{
    if s.len() == 0 {
        0
    } else {
        seq_dec_val(s.drop_last()) * 10 + dec_val(s.last())
    }
}

/// A numeric token with one optional leading `+` removed.
pub open spec fn plus_stripped(s: Seq<char>) -> Seq<char> {
    if s.len() > 0 && s[0] == '+' {
        s.drop_first()
    } else {
        s
    }
}

/// What an unsigned decimal token denotes: an optional leading `+`, then
/// one or more digits; `None` when malformed.  The value is unbounded.
pub open spec fn spec_parse_uint(s: Seq<char>) -> Option<int> {
    if plus_stripped(s).len() == 0 || exists|i: int|
        0 <= i < plus_stripped(s).len() && !is_dec_digit(#[trigger] plus_stripped(s)[i]) {
        None
    } else {
        Some(seq_dec_val(plus_stripped(s)))
    }
}

/// What `str::parse::<usize>` accepts: a well-formed token whose value fits.
pub open spec fn spec_parse_usize(s: Seq<char>) -> Option<usize> {
    match spec_parse_uint(s) {
        Some(v) => if v <= usize::MAX {
            Some(v as usize)
        } else {
            None
        },
        None => None,
    }
}

/// The value of a digit sequence only grows as digits are appended.
pub proof fn lemma_dec_val_grows(s: Seq<char>, i: int)
    requires
        0 <= i <= s.len(),
        forall|j: int| 0 <= j < s.len() ==> is_dec_digit(#[trigger] s[j]),
    ensures
        seq_dec_val(s) >= seq_dec_val(s.subrange(0, i)),
        seq_dec_val(s) >= 0,
    decreases s.len() - i,
{
    if i == s.len() {
        assert(s.subrange(0, i) =~= s);
        lemma_dec_val_nonneg(s);
    } else {
        lemma_dec_val_grows(s, i + 1);
        let a = s.subrange(0, i);
        let b = s.subrange(0, i + 1);
        assert(b.drop_last() =~= a);
        lemma_dec_val_nonneg(a);
        assert(seq_dec_val(b) == seq_dec_val(a) * 10 + dec_val(b.last()));
        assert(dec_val(b.last()) >= 0);
        assert(seq_dec_val(a) * 10 >= seq_dec_val(a));
    }
}

/// A digit sequence has a non-negative value.
pub proof fn lemma_dec_val_nonneg(s: Seq<char>)
    requires
        forall|j: int| 0 <= j < s.len() ==> is_dec_digit(#[trigger] s[j]),
    ensures
        seq_dec_val(s) >= 0,
    decreases s.len(),
{
    if s.len() > 0 {
        lemma_dec_val_nonneg(s.drop_last());
    }
}

/// The split of a text at its first separator: `None` when the separator
/// does not occur, otherwise the part before and the part after.
pub open spec fn spec_split_first(s: Seq<char>, sep: char) -> Option<(Seq<char>, Seq<char>)>
    decreases s.len(),
{
    if s.len() == 0 {
        None
    } else if s[0] == sep {
        Some((Seq::empty(), s.drop_first()))
    } else {
        match spec_split_first(s.drop_first(), sep) {
            None => None,
            Some(p) => Some((seq![s[0]] + p.0, p.1)),
        }
    }
}

/// A text free of the separator has no first split.
pub proof fn lemma_split_first_none(s: Seq<char>, sep: char)
    requires
        forall|i: int| 0 <= i < s.len() ==> s[i] != sep,
    ensures
        spec_split_first(s, sep) is None,
    decreases s.len(),
{
    if s.len() > 0 {
        lemma_split_first_none(s.drop_first(), sep);
    }
}

/// The decomposition at the first separator is the unique one whose left
/// part is free of the separator.
pub proof fn lemma_split_first_some(a: Seq<char>, b: Seq<char>, sep: char)
    requires
        forall|i: int| 0 <= i < a.len() ==> a[i] != sep,
    ensures
        spec_split_first(a + seq![sep] + b, sep) == Some((a, b)),
    decreases a.len(),
{
    let s = a + seq![sep] + b;
    if a.len() == 0 {
        assert(s[0] == sep);
        assert(s.drop_first() =~= b);
        assert(a =~= Seq::<char>::empty());
    } else {
        assert(s[0] == a[0]);
        assert(s.drop_first() =~= a.drop_first() + seq![sep] + b);
        lemma_split_first_some(a.drop_first(), b, sep);
        assert(seq![a[0]] + a.drop_first() =~= a);
    }
}

/// The first split decomposes a text: the parts joined by one separator
/// give back the text, and the left part is free of the separator.
pub proof fn lemma_split_first_parts(s: Seq<char>, sep: char)
    ensures
        spec_split_first(s, sep) matches Some(p) ==> {
            &&& s == p.0 + seq![sep] + p.1
            &&& p.1.len() < s.len()
            &&& forall|i: int| 0 <= i < p.0.len() ==> p.0[i] != sep
        },
    decreases s.len(),
{
    if s.len() > 0 && s[0] != sep {
        lemma_split_first_parts(s.drop_first(), sep);
        if spec_split_first(s, sep) is Some {
            let p = spec_split_first(s.drop_first(), sep)->Some_0;
            assert(s.drop_first() == p.0 + seq![sep] + p.1);
            assert(s =~= seq![s[0]] + s.drop_first());
            assert(seq![s[0]] + (p.0 + seq![sep] + p.1) =~= (seq![s[0]] + p.0) + seq![sep] + p.1);
        }
    } else if s.len() > 0 {
        assert(s =~= Seq::<char>::empty() + seq![sep] + s.drop_first());
    }
}

/// Trimming a text free of white space leaves it unchanged.
pub proof fn lemma_trim_id(s: Seq<char>)
    requires
        forall|i: int| 0 <= i < s.len() ==> !is_ws(#[trigger] s[i]),
    ensures
        spec_trim(s) == s,
{
    assert(spec_trim_start(s) == s);
    assert(spec_trim_end(s) == s);
}

/// Lower-casing a text free of capitals leaves it unchanged.
pub proof fn lemma_lower_id(s: Seq<char>)
    requires
        forall|i: int| 0 <= i < s.len() ==> spec_lower_char(#[trigger] s[i]) == s[i],
    ensures
        spec_lower(s) == s,
{
    assert(spec_lower(s) =~= s);
}

/// The decimal rendering of a number is non-empty and all digits.
pub proof fn lemma_dec_digits(n: nat)
    ensures
        spec_dec(n).len() >= 1,
        forall|i: int| 0 <= i < spec_dec(n).len() ==> is_dec_digit(#[trigger] spec_dec(n)[i]),
    decreases n,
{
    if n < 10 {
        assert(is_dec_digit(dec_digit(n as int)));
    } else {
        lemma_dec_digits(n / 10);
        assert(is_dec_digit(dec_digit((n % 10) as int)));
        assert(forall|i: int|
            0 <= i < spec_dec(n).len() - 1 ==> spec_dec(n)[i] == spec_dec(n / 10)[i]);
        assert(spec_dec(n).last() == dec_digit((n % 10) as int));
    }
}

/// Reading back the decimal rendering of a number yields the number.
pub proof fn lemma_dec_value(n: nat)
    ensures
        seq_dec_val(spec_dec(n)) == n,
    decreases n,
{
    if n < 10 {
        assert(spec_dec(n).drop_last() =~= Seq::<char>::empty());
        assert(seq_dec_val(Seq::<char>::empty()) == 0);
        assert(spec_dec(n).last() == dec_digit(n as int));
        assert(dec_val(dec_digit(n as int)) == n);
    } else {
        lemma_dec_value(n / 10);
        assert(spec_dec(n).drop_last() =~= spec_dec(n / 10));
        assert(spec_dec(n).last() == dec_digit((n % 10) as int));
        assert(dec_val(dec_digit((n % 10) as int)) == n % 10);
    }
}

/// The decimal rendering of a number parses back to the number.
pub proof fn lemma_dec_parse_roundtrip(n: nat)
    requires
        n <= usize::MAX,
    ensures
        spec_parse_uint(spec_dec(n)) == Some(n as int),
        spec_parse_usize(spec_dec(n)) == Some(n as usize),
{
    lemma_dec_digits(n);
    lemma_dec_value(n);
    assert(spec_dec(n)[0] != '+');
    assert(plus_stripped(spec_dec(n)) == spec_dec(n));
}

/// Parses an unsigned decimal token, as `str::parse::<usize>` does:
/// an optional `+`, then digits, `None` on anything else or on overflow.
pub fn parse_usize(v: &Vec<char>) -> (r: Option<usize>)
    ensures
        r == spec_parse_usize(v@),
{
    let start: usize = if v.len() > 0 && v[0] == '+' {
        1
    } else {
        0
    };
    let ghost t = if v@.len() > 0 && v@[0] == '+' {
        v@.drop_first()
    } else {
        v@
    };
    proof {
        assert(t =~= v@.subrange(start as int, v@.len() as int));
    }
    if v.len() == start {
        return None;
    }
    let mut val: usize = 0;
    let mut i: usize = start;
    while i < v.len()
        invariant
            start <= i <= v.len(),
            start <= 1,
            t == plus_stripped(v@),
            t == v@.subrange(start as int, v@.len() as int),
            forall|j: int| start <= j < i ==> is_dec_digit(#[trigger] v@[j]),
            val == seq_dec_val(t.subrange(0, i - start)),
        decreases v.len() - i,
    {
        let c = v[i];
        if !('0' <= c && c <= '9') {
            proof {
                assert(plus_stripped(v@)[i - start] == v@[i as int]);
                assert(!is_dec_digit(plus_stripped(v@)[i - start]));
                assert(spec_parse_uint(v@) is None);
            }
            return None;
        }
        let d = (c as u32 - 0x30) as usize;
        proof {
            let p = t.subrange(0, i - start);
            let q = t.subrange(0, i + 1 - start);
            assert(q.drop_last() =~= p);
            assert(q.last() == v@[i as int]);
        }
        if val > usize::MAX / 10 || (val == usize::MAX / 10 && d > usize::MAX % 10) {
            proof {
                let q = t.subrange(0, i + 1 - start);
                assert(seq_dec_val(q) == val * 10 + d);
                assert(val * 10 + d > usize::MAX) by (nonlinear_arith)
                    requires
                        val > usize::MAX / 10 || (val == usize::MAX / 10 && d > usize::MAX % 10),
                        val >= 0,
                        d >= 0,
                        usize::MAX == usize::MAX / 10 * 10 + usize::MAX % 10,
                ;
                if !(exists|j: int|
                    0 <= j < plus_stripped(v@).len() && !is_dec_digit(
                        #[trigger] plus_stripped(v@)[j],
                    )) {
                    assert(forall|j: int| 0 <= j < t.len() ==> is_dec_digit(#[trigger] t[j]));
                    lemma_dec_val_grows(t, i + 1 - start);
                    assert(seq_dec_val(t) >= seq_dec_val(q));
                }
                assert(spec_parse_usize(v@) is None);
            }
            return None;
        }
        val = val * 10 + d;
        i = i + 1;
    }
    proof {
        assert(t.subrange(0, t.len() as int) =~= t);
        assert(forall|j: int| 0 <= j < t.len() ==> is_dec_digit(#[trigger] t[j]));
    }
    Some(val)
}

} // verus!

