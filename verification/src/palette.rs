//! The palette: an insertion-ordered mapping from a validated character to
//! a color pair and its comment lines, kept in an `ordermap::OrderMap`.
//! The sixteen built-in entries (`0`-`9`, `a`-`f`) are implicit: an explicit
//! entry equal to the built-in mapping is never stored.

use vstd::prelude::*;

use ordermap::OrderMap;
use std::collections::hash_map::RandomState;

use crate::chars::{char_allowed, Char};
use crate::colors::{spec_pair_builtin, ColorPair};
use crate::error::Error;

verus! {

#[verifier::external_type_specification]
#[verifier::external_body]
#[verifier::reject_recursive_types(K)]
#[verifier::reject_recursive_types(V)]
#[verifier::reject_recursive_types(S)]
pub struct ExOrderMap<K, V, S>(OrderMap<K, V, S>);

/// What a palette map holds: its entries in insertion order, each as the
/// key character, its color pair, and its comment lines.
pub uninterp spec fn palette_entries(m: OrderMap<Char, (ColorPair, Vec<String>), RandomState>) -> Seq<
    (char, ColorPair, Seq<Seq<char>>),
>;

/// No two entries share a key.
pub open spec fn pal_keys_unique(es: Seq<(char, ColorPair, Seq<Seq<char>>)>) -> bool {
    forall|i: int, j: int| 0 <= i < j < es.len() ==> (#[trigger] es[i]).0 != (#[trigger] es[j]).0
}

/// Whether some entry has the key.
pub open spec fn pal_contains(es: Seq<(char, ColorPair, Seq<Seq<char>>)>, k: char) -> bool {
    exists|i: int| 0 <= i < es.len() && (#[trigger] es[i]).0 == k
}

/// The index of an entry with the key, when one exists.
pub open spec fn pal_idx(es: Seq<(char, ColorPair, Seq<Seq<char>>)>, k: char) -> int {
    choose|i: int| 0 <= i < es.len() && (#[trigger] es[i]).0 == k
}

/// Relies on `OrderMap::new`: a new map is empty.
#[verifier::external_body]
pub fn pal_new() -> (m: OrderMap<Char, (ColorPair, Vec<String>), RandomState>)
    ensures
        palette_entries(m) == Seq::<(char, ColorPair, Seq<Seq<char>>)>::empty(),
{
    OrderMap::new()
}

/// Relies on `OrderMap::len`: the number of entries.
#[verifier::external_body]
pub fn pal_len(m: &OrderMap<Char, (ColorPair, Vec<String>), RandomState>) -> (r: usize)
    ensures
        r == palette_entries(*m).len(),
{
    m.len()
}

/// Relies on `OrderMap::insert`: an existing key keeps its place and gets
/// the new value, a new key is appended; the old value comes back.
#[verifier::external_body]
pub fn pal_insert(
    m: &mut OrderMap<Char, (ColorPair, Vec<String>), RandomState>,
    k: Char,
    pair: ColorPair,
    comments: Vec<String>,
) -> (r: Option<(ColorPair, Vec<String>)>)
    ensures
        pal_contains(palette_entries(*old(m)), k@) ==> {
            &&& palette_entries(*final(m)) == palette_entries(*old(m)).update(
                pal_idx(palette_entries(*old(m)), k@),
                (k@, pair, comments.deep_view()),
            )
            &&& r matches Some(old_v) && old_v.0 == palette_entries(*old(m))[pal_idx(
                palette_entries(*old(m)),
                k@,
            )].1 && old_v.1.deep_view() == palette_entries(*old(m))[pal_idx(
                palette_entries(*old(m)),
                k@,
            )].2
        },
        !pal_contains(palette_entries(*old(m)), k@) ==> {
            &&& palette_entries(*final(m)) == palette_entries(*old(m)).push(
                (k@, pair, comments.deep_view()),
            )
            &&& r is None
        },
{
    m.insert(k, (pair, comments))
}

/// Relies on `OrderMap::remove` (a shift-remove): the entry with the key
/// leaves, the others keep their relative order.
#[verifier::external_body]
pub fn pal_remove(m: &mut OrderMap<Char, (ColorPair, Vec<String>), RandomState>, k: &Char) -> (r:
    Option<(ColorPair, Vec<String>)>)
    ensures
        pal_contains(palette_entries(*old(m)), k@) ==> {
            &&& palette_entries(*final(m)) == palette_entries(*old(m)).remove(
                pal_idx(palette_entries(*old(m)), k@),
            )
            &&& r is Some
        },
        !pal_contains(palette_entries(*old(m)), k@) ==> {
            &&& palette_entries(*final(m)) == palette_entries(*old(m))
            &&& r is None
        },
{
    m.remove(k)
}

/// Relies on `OrderMap::get`: the value of the entry with the key.
#[verifier::external_body]
pub fn pal_get(m: &OrderMap<Char, (ColorPair, Vec<String>), RandomState>, k: &Char) -> (r: Option<
    (ColorPair, Vec<String>),
>)
    ensures
        (r is Some) == pal_contains(palette_entries(*m), k@),
        r matches Some(v) ==> v.0 == palette_entries(*m)[pal_idx(palette_entries(*m), k@)].1
            && v.1.deep_view() == palette_entries(*m)[pal_idx(palette_entries(*m), k@)].2,
{
    m.get(k).cloned()
}

/// Relies on `OrderMap::get_index`: the entry at a position in order.
#[verifier::external_body]
pub fn pal_get_index(m: &OrderMap<Char, (ColorPair, Vec<String>), RandomState>, i: usize) -> (r:
    Option<(Char, ColorPair, Vec<String>)>)
    ensures
        (r is Some) == (i < palette_entries(*m).len()),
        r matches Some(e) ==> {
            &&& e.0@ == palette_entries(*m)[i as int].0
            &&& e.1 == palette_entries(*m)[i as int].1
            &&& e.2.deep_view() == palette_entries(*m)[i as int].2
        },
{
    m.get_index(i).map(|kv| (*kv.0, kv.1.0, kv.1.1.clone()))
}

/// One palette entry: a key character, its color pair, its comment lines.
pub type PalEntry = (char, ColorPair, Seq<Seq<char>>);

/// The color pair a character resolves to: its explicit entry when there is
/// one, else its built-in mapping.
pub open spec fn spec_get_color(es: Seq<PalEntry>, k: char) -> ColorPair {
    if pal_contains(es, k) {
        es[pal_idx(es, k)].1
    } else {
        spec_pair_builtin(k)
    }
}

/// The first key, in insertion order, whose entry carries the color pair.
pub open spec fn spec_search_color(es: Seq<PalEntry>, col: ColorPair) -> Option<char>
    decreases es.len(),
{
    if es.len() == 0 {
        None
    } else if es[0].1 == col {
        Some(es[0].0)
    } else {
        spec_search_color(es.drop_first(), col)
    }
}

/// What setting a character's pair leaves of the entries: an entry equal to
/// the built-in mapping is removed, any other is updated in place or
/// appended, with no comments.
pub open spec fn spec_set_color(es: Seq<PalEntry>, k: char, col: ColorPair) -> Seq<PalEntry> {
    if col == spec_pair_builtin(k) {
        if pal_contains(es, k) {
            es.remove(pal_idx(es, k))
        } else {
            es
        }
    } else {
        if pal_contains(es, k) {
            es.update(pal_idx(es, k), (k, col, Seq::empty()))
        } else {
            es.push((k, col, Seq::empty()))
        }
    }
}

/// A mapping from characters to color pairs with optional comments per
/// entry, in insertion order.
pub struct Palette {
    /// The explicit entries; built-in mappings are never stored.
    pub palette: OrderMap<Char, (ColorPair, Vec<String>), RandomState>,
}

impl Palette {
    /// The entries, as the contracts speak of them.
    pub open spec fn entries(&self) -> Seq<PalEntry> {
        palette_entries(self.palette)
    }

    /// The invariant: keys are distinct, allowed characters, and no entry
    /// merely repeats the built-in mapping of its key.
    pub open spec fn wf(&self) -> bool {
        &&& pal_keys_unique(self.entries())
        &&& forall|i: int|
            0 <= i < self.entries().len() ==> char_allowed((#[trigger] self.entries()[i]).0)
    }

    /// An empty palette.
    pub fn new() -> (r: Palette)
        ensures
            r.entries() == Seq::<PalEntry>::empty(),
            r.wf(),
    {
        Palette { palette: pal_new() }
    }

    /// The number of explicit entries.
    pub fn len(&self) -> (r: usize)
        ensures
            r == self.entries().len(),
    {
        pal_len(&self.palette)
    }

    /// Whether a character has an explicit entry.
    pub fn contains_color(&self, name: Char) -> (r: bool)
        ensures
            r == pal_contains(self.entries(), name@),
    {
        match pal_get(&self.palette, &name) {
            Some(_) => true,
            None => false,
        }
    }

    /// The color pair for a character, falling back to the built-in mapping.
    pub fn get_color(&self, name: Char) -> (r: ColorPair)
        ensures
            r == spec_get_color(self.entries(), name@),
    {
        match pal_get(&self.palette, &name) {
            Some(v) => v.0,
            None => ColorPair::from_char_builtin(name),
        }
    }

    /// Sets the color pair for a character; an entry equal to the built-in
    /// mapping is removed rather than stored, keeping the map minimal.
    pub fn set_color(&mut self, name: Char, col: ColorPair)
        requires
            old(self).wf(),
            name.wf(),
        ensures
            final(self).wf(),
            final(self).entries() == spec_set_color(old(self).entries(), name@, col),
    {
        let ghost es = self.entries();
        if ColorPair::from_char_builtin(name) == col {
            pal_remove(&mut self.palette, &name);
            proof {
                if pal_contains(es, name@) {
                    lemma_remove_keeps_wf(es, pal_idx(es, name@));
                }
            }
        } else {
            let empty_comments: Vec<String> = Vec::new();
            proof {
                assert(empty_comments.deep_view() =~= Seq::<Seq<char>>::empty());
            }
            pal_insert(&mut self.palette, name, col, empty_comments);
            proof {
                if pal_contains(es, name@) {
                    lemma_update_keeps_wf(es, pal_idx(es, name@), (name@, col, Seq::empty()));
                } else {
                    lemma_push_keeps_wf(es, (name@, col, Seq::empty()));
                }
            }
        }
    }

    /// Removes the explicit entry for a character, if any.
    pub fn remove_color(&mut self, name: Char)
        requires
            old(self).wf(),
        ensures
            final(self).wf(),
            final(self).entries() == if pal_contains(old(self).entries(), name@) {
                old(self).entries().remove(pal_idx(old(self).entries(), name@))
            } else {
                old(self).entries()
            },
    {
        let ghost es = self.entries();
        pal_remove(&mut self.palette, &name);
        proof {
            if pal_contains(es, name@) {
                lemma_remove_keeps_wf(es, pal_idx(es, name@));
            }
        }
    }

    /// The first character, in insertion order, mapped to the color pair.
    pub fn search_color(&self, col: ColorPair) -> (r: Option<Char>)
        requires
            self.wf(),
        ensures
            match r {
                Some(k) => spec_search_color(self.entries(), col) == Some(k@) && k.wf(),
                None => spec_search_color(self.entries(), col) is None,
            },
    {
        let n = pal_len(&self.palette);
        let mut i: usize = 0;
        proof {
            assert(self.entries().skip(0) =~= self.entries());
        }
        while i < n
            invariant
                i <= n,
                n == self.entries().len(),
                self.wf(),
                spec_search_color(self.entries(), col) == spec_search_color(
                    self.entries().skip(i as int),
                    col,
                ),
            decreases n - i,
        {
            let e = pal_get_index(&self.palette, i).unwrap();
            proof {
                assert(self.entries().skip(i as int)[0] == self.entries()[i as int]);
                assert(self.entries().skip(i as int).drop_first() =~= self.entries().skip(
                    i as int + 1,
                ));
            }
            if e.1 == col {
                return Some(e.0);
            }
            i = i + 1;
        }
        proof {
            assert(self.entries().skip(n as int) =~= Seq::<PalEntry>::empty());
        }
        None
    }

    /// Removes all comments, keeping keys, pairs and their order.
    pub fn strip_comments(&mut self)
        requires
            old(self).wf(),
        ensures
            final(self).wf(),
            final(self).entries().len() == old(self).entries().len(),
            forall|i: int|
                0 <= i < old(self).entries().len() ==> (#[trigger] final(self).entries()[i]) == (
                old(self).entries()[i].0,
                old(self).entries()[i].1,
                Seq::<Seq<char>>::empty(),
                ),
    {
        let n = pal_len(&self.palette);
        let mut i: usize = 0;
        while i < n
            invariant
                i <= n,
                n == self.entries().len(),
                self.wf(),
                forall|j: int|
                    0 <= j < n ==> (#[trigger] self.entries()[j]).0 == old(self).entries()[j].0
                        && self.entries()[j].1 == old(self).entries()[j].1,
                forall|j: int|
                    0 <= j < i ==> (#[trigger] self.entries()[j]).2 == Seq::<Seq<char>>::empty(),
            decreases n - i,
        {
            let ghost es = self.entries();
            let e = pal_get_index(&self.palette, i).unwrap();
            let empty_comments: Vec<String> = Vec::new();
            proof {
                assert(empty_comments.deep_view() =~= Seq::<Seq<char>>::empty());
            }
            pal_insert(&mut self.palette, e.0, e.1, empty_comments);
            proof {
                assert(pal_contains(es, es[i as int].0)) by {
                    assert(es[i as int].0 == es[i as int].0);
                }
                lemma_unique_idx(es, i as int);
                lemma_update_keeps_wf(
                    es,
                    i as int,
                    (es[i as int].0, es[i as int].1, Seq::empty()),
                );
            }
            i = i + 1;
        }
    }

    /// Records a `col` header line: a second line for one character is a
    /// duplicate error, otherwise the entry is appended with its comments.
    pub fn add_parsing_color(&mut self, name: Char, pair: ColorPair, comments: Vec<String>) -> (r:
        Result<(), Error>)
        requires
            old(self).wf(),
            name.wf(),
        ensures
            final(self).wf(),
            pal_contains(old(self).entries(), name@) ==> {
                &&& r is Err
                &&& *final(self) == *old(self)
                &&& r matches Err(e) ==> e matches Error::ColorMapDup(m) && m@ == seq![name@]
            },
            !pal_contains(old(self).entries(), name@) ==> {
                &&& r is Ok
                &&& final(self).entries() == old(self).entries().push(
                    (name@, pair, comments.deep_view()),
                )
            },
    {
        let ghost es = self.entries();
        if self.contains_color(name) {
            let mut nv: Vec<char> = Vec::new();
            nv.push(name.to_char());
            proof {
                assert(nv@ =~= seq![name@]);
            }
            return Err(Error::ColorMapDup(crate::text::chars_to_string(&nv)));
        }
        pal_insert(&mut self.palette, name, pair, comments);
        proof {
            lemma_push_keeps_wf(es, (name@, pair, comments.deep_view()));
        }
        Ok(())
    }
}

/// Updating an entry in place, key kept, preserves the invariant.
proof fn lemma_update_keeps_wf(es: Seq<PalEntry>, i: int, e: PalEntry)
    requires
        pal_keys_unique(es),
        0 <= i < es.len(),
        es[i].0 == e.0,
    ensures
        pal_keys_unique(es.update(i, e)),
        forall|j: int| 0 <= j < es.len() ==> (#[trigger] es.update(i, e)[j]).0 == es[j].0,
{
}

/// Appending an entry with a fresh key preserves the invariant.
proof fn lemma_push_keeps_wf(es: Seq<PalEntry>, e: PalEntry)
    requires
        pal_keys_unique(es),
        !pal_contains(es, e.0),
    ensures
        pal_keys_unique(es.push(e)),
{
    assert forall|i: int, j: int|
        0 <= i < j < es.push(e).len() implies (#[trigger] es.push(e)[i]).0 != (#[trigger] es.push(
        e,
    )[j]).0 by {
        if j == es.len() {
            assert(es[i].0 == es.push(e)[i].0);
        }
    }
}

/// Removing an entry preserves the invariant.
proof fn lemma_remove_keeps_wf(es: Seq<PalEntry>, i: int)
    requires
        pal_keys_unique(es),
        0 <= i < es.len(),
    ensures
        pal_keys_unique(es.remove(i)),
        forall|j: int|
            0 <= j < es.remove(i).len() ==> (#[trigger] es.remove(i)[j]) == es[if j < i {
                j
            } else {
                j + 1
            }],
{
    assert forall|a: int, b: int|
        0 <= a < b < es.remove(i).len() implies (#[trigger] es.remove(i)[a]).0 != (
    #[trigger] es.remove(i)[b]).0 by {
        let a0 = if a < i {
            a
        } else {
            a + 1
        };
        let b0 = if b < i {
            b
        } else {
            b + 1
        };
        assert(es.remove(i)[a] == es[a0]);
        assert(es.remove(i)[b] == es[b0]);
    }
}

/// With unique keys, the chosen index of a present key is the only one.
proof fn lemma_unique_idx(es: Seq<PalEntry>, i: int)
    requires
        pal_keys_unique(es),
        0 <= i < es.len(),
    ensures
        pal_contains(es, es[i].0),
        pal_idx(es, es[i].0) == i,
{
    assert(pal_contains(es, es[i].0)) by {
        assert(0 <= i < es.len() && es[i].0 == es[i].0);
    }
    let j = pal_idx(es, es[i].0);
    if j != i {
        if j < i {
            assert(es[j].0 != es[i].0);
        } else {
            assert(es[i].0 != es[j].0);
        }
    }
}

} // verus!
