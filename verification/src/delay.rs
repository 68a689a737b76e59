//! Frame timing: a global delay in milliseconds with sparse per-frame
//! overrides; zero stands for "unset" and is rendered as the 50 ms default.

use vstd::prelude::*;

use crate::error::Error;
use crate::text::{
    chars_to_string, fmt_usize, lines_view, parse_usize, spec_dec, spec_parse_usize,
    spec_split_first, spec_trim, split_first, str_to_chars, trim_chars,
};

verus! {

/// The first override for a frame in a list of `(frame, delay)` pairs.
pub open spec fn spec_find_delay(s: Seq<(usize, usize)>, f: usize) -> Option<usize>
    decreases s.len(),
{
    if s.len() == 0 {
        None
    } else if s[0].0 == f {
        Some(s[0].1)
    } else {
        spec_find_delay(s.drop_first(), f)
    }
}

/// Frame delay configuration: a global delay and per-frame overrides,
/// kept sorted by frame index.
#[derive(Debug, Clone)]
pub struct Delay {
    /// Global delay in milliseconds; zero is read as the 50 ms default.
    pub global: usize,
    pub(crate) per_frame: Vec<(usize, usize)>,
}

impl Delay {
    /// The overrides in increasing frame order.
    pub closed spec fn overrides(&self) -> Seq<(usize, usize)> {
        self.per_frame@
    }

    /// The stored global delay.
    pub closed spec fn spec_global(&self) -> usize {
        self.global
    }

    /// The invariant: overrides are strictly sorted by frame index.
    pub open spec fn wf(&self) -> bool {
        forall|i: int, j: int|
            0 <= i < j < self.overrides().len() ==> (#[trigger] self.overrides()[i]).0 < (
            #[trigger] self.overrides()[j]).0
    }

    /// The delay one frame effectively gets: its override, else the global
    /// delay, with zero read as 50.
    pub open spec fn spec_frame_delay(&self, frame: usize) -> usize {
        let d = match spec_find_delay(self.overrides(), frame) {
            Some(d) => d,
            None => self.spec_global(),
        };
        if d == 0 {
            50
        } else {
            d
        }
    }

    /// No overrides, with the given global delay.
    pub fn new(global: usize) -> (r: Delay)
        ensures
            r.wf(),
            r.spec_global() == global,
            r.overrides() == Seq::<(usize, usize)>::empty(),
    {
        Delay { global, per_frame: Vec::new() }
    }

    /// The effective global delay: 50 when unset.
    pub fn get_global(&self) -> (r: usize)
        ensures
            r == if self.spec_global() == 0 {
                50
            } else {
                self.spec_global()
            },
    {
        if self.global == 0 {
            50
        } else {
            self.global
        }
    }

    /// The effective delay of one frame.
    pub fn get_frame(&self, frame: usize) -> (r: usize)
        ensures
            r == self.spec_frame_delay(frame),
    {
        let mut i: usize = 0;
        proof {
            assert(self.overrides().skip(0) =~= self.overrides());
        }
        while i < self.per_frame.len()
            invariant
                i <= self.overrides().len(),
                spec_find_delay(self.overrides(), frame) == spec_find_delay(
                    self.overrides().skip(i as int),
                    frame,
                ),
            decreases self.overrides().len() - i,
        {
            proof {
                assert(self.overrides().skip(i as int)[0] == self.overrides()[i as int]);
                assert(self.overrides().skip(i as int).drop_first() =~= self.overrides().skip(
                    i + 1,
                ));
            }
            let (f, d) = self.per_frame[i];
            if f == frame {
                return if d == 0 {
                    50
                } else {
                    d
                };
            }
            i = i + 1;
        }
        proof {
            assert(self.overrides().skip(self.overrides().len() as int) =~= Seq::<
                (usize, usize),
            >::empty());
        }
        if self.global == 0 {
            50
        } else {
            self.global
        }
    }

    /// Sets the global delay; zero is stored as the 50 ms default.
    pub fn set_global(&mut self, global: usize)
        requires
            old(self).wf(),
        ensures
            final(self).wf(),
            final(self).overrides() == old(self).overrides(),
            final(self).spec_global() == if global == 0 {
                50
            } else {
                global
            },
    {
        self.global = if global == 0 {
            50
        } else {
            global
        };
        proof {
            assert(self.overrides() == old(self).overrides());
        }
    }

    /// The position of a frame's override, when it has one.
    fn find_pos(&self, frame: usize) -> (r: Option<usize>)
        requires
            self.wf(),
        ensures
            r matches Some(p) ==> p < self.overrides().len() && self.overrides()[p as int].0
                == frame && spec_find_delay(self.overrides(), frame) == Some(
                self.overrides()[p as int].1,
            ),
            r is None ==> spec_find_delay(self.overrides(), frame) is None && forall|k: int|
                0 <= k < self.overrides().len() ==> (#[trigger] self.overrides()[k]).0 != frame,
    {
        let ghost es = self.overrides();
        let mut i: usize = 0;
        proof {
            assert(es.skip(0) =~= es);
        }
        while i < self.per_frame.len()
            invariant
                i <= es.len(),
                es == self.overrides(),
                spec_find_delay(es, frame) == spec_find_delay(es.skip(i as int), frame),
                forall|k: int| 0 <= k < i ==> (#[trigger] es[k]).0 != frame,
            decreases es.len() - i,
        {
            proof {
                assert(es.skip(i as int)[0] == es[i as int]);
                assert(es.skip(i as int).drop_first() =~= es.skip(i + 1));
            }
            let (f, _d) = self.per_frame[i];
            if f == frame {
                return Some(i);
            }
            i = i + 1;
        }
        proof {
            assert(es.skip(es.len() as int) =~= Seq::<(usize, usize)>::empty());
        }
        None
    }

    /// Sets one frame's override; a zero delay removes the override.
    pub fn set_frame(&mut self, frame: usize, delay: usize)
        requires
            old(self).wf(),
        ensures
            final(self).wf(),
            final(self).spec_global() == old(self).spec_global(),
            spec_find_delay(final(self).overrides(), frame) == (if delay == 0 {
                Option::<usize>::None
            } else {
                Some(delay)
            }),
            forall|f: usize|
                f != frame ==> #[trigger] spec_find_delay(final(self).overrides(), f)
                    == spec_find_delay(old(self).overrides(), f),
    {
        let ghost es = self.overrides();
        match self.find_pos(frame) {
            Some(p) => {
                if delay == 0 {
                    self.per_frame.remove(p);
                    proof {
                        lemma_find_remove(es, p as int);
                        lemma_sorted_remove(es, p as int);
                    }
                } else {
                    self.per_frame[p] = (frame, delay);
                    proof {
                        lemma_find_update(es, p as int, delay);
                        lemma_sorted_update(es, p as int, delay);
                    }
                }
            },
            None => {
                if delay != 0 {
                    let q = self.insert_pos(frame);
                    proof {
                        lemma_find_insert(es, q as int, frame, delay);
                        lemma_sorted_insert(es, q as int, frame, delay);
                    }
                    self.per_frame.insert(q, (frame, delay));
                }
            },
        }
    }

    /// The sorted position for a new frame index: past every smaller one.
    fn insert_pos(&self, frame: usize) -> (q: usize)
        requires
            self.wf(),
        ensures
            q <= self.overrides().len(),
            forall|k: int| 0 <= k < q ==> (#[trigger] self.overrides()[k]).0 < frame,
            forall|k: int|
                q <= k < self.overrides().len() ==> (#[trigger] self.overrides()[k]).0 >= frame,
    {
        let mut i: usize = 0;
        while i < self.per_frame.len()
            invariant
                i <= self.overrides().len(),
                self.wf(),
                forall|k: int| 0 <= k < i ==> (#[trigger] self.overrides()[k]).0 < frame,
            decreases self.overrides().len() - i,
        {
            proof {
                assert(self.overrides()[i as int] == self.per_frame@[i as int]);
            }
            let (f, _d) = self.per_frame[i];
            if f >= frame {
                proof {
                    assert forall|k: int|
                        i <= k < self.overrides().len() implies (
                    #[trigger] self.overrides()[k]).0 >= frame by {
                        if k > i {
                            assert(self.overrides()[i as int].0 < self.overrides()[k].0);
                        }
                    }
                }
                return i;
            }
            i = i + 1;
        }
        self.per_frame.len()
    }

    /// The effective delays of the first `frames` frames, in order.
    pub fn to_vec_delays(&self, frames: usize) -> (r: Vec<usize>)
        ensures
            r@.len() == frames,
            forall|i: int| 0 <= i < frames ==> r@[i] == self.spec_frame_delay(i as usize),
    {
        let mut out: Vec<usize> = Vec::new();
        let mut i: usize = 0;
        while i < frames
            invariant
                i <= frames,
                out@.len() == i,
                forall|k: int| 0 <= k < i ==> out@[k] == self.spec_frame_delay(k as usize),
            decreases frames - i,
        {
            out.push(self.get_frame(i));
            i = i + 1;
        }
        out
    }
}

/// Pairs strictly sorted by frame index.
pub open spec fn sorted_pairs(s: Seq<(usize, usize)>) -> bool {
    forall|i: int, j: int| 0 <= i < j < s.len() ==> (#[trigger] s[i]).0 < (#[trigger] s[j]).0
}




/// Sorted keys occur once: the first match at an index's key is that entry.
proof fn lemma_find_at(s: Seq<(usize, usize)>, p: int)
    requires
        sorted_pairs(s),
        0 <= p < s.len(),
    ensures
        spec_find_delay(s, s[p].0) == Some(s[p].1),
    decreases p,
{
    if p == 0 {
    } else {
        assert(s[0].0 < s[p].0);
        assert(s.drop_first()[p - 1] == s[p]);
        assert(sorted_pairs(s.drop_first())) by {
            assert(forall|i: int, j: int|
                0 <= i < j < s.drop_first().len() ==> (#[trigger] s.drop_first()[i]).0 < (
                #[trigger] s.drop_first()[j]).0);
        }
        lemma_find_at(s.drop_first(), p - 1);
    }
}

/// A key under none of the entries finds nothing.
proof fn lemma_find_none(s: Seq<(usize, usize)>, probe: usize)
    requires
        forall|k: int| 0 <= k < s.len() ==> (#[trigger] s[k]).0 != probe,
    ensures
        spec_find_delay(s, probe) is None,
    decreases s.len(),
{
    if s.len() > 0 {
        lemma_find_none(s.drop_first(), probe);
    }
}

/// Removing an entry of a sorted list removes exactly its key.
proof fn lemma_find_remove(s: Seq<(usize, usize)>, p: int)
    requires
        sorted_pairs(s),
        0 <= p < s.len(),
    ensures
        spec_find_delay(s.remove(p), s[p].0) is None,
        forall|f: usize|
            f != s[p].0 ==> #[trigger] spec_find_delay(s.remove(p), f) == spec_find_delay(s, f),
    decreases s.len(),
{
    let s2 = s.remove(p);
    assert forall|k: int| 0 <= k < s2.len() implies (#[trigger] s2[k]).0 != s[p].0 by {
        if k < p {
            assert(s2[k] == s[k]);
        } else {
            assert(s2[k] == s[k + 1]);
        }
    }
    lemma_find_none(s2, s[p].0);
    assert forall|f: usize|
        f != s[p].0 implies #[trigger] spec_find_delay(s2, f) == spec_find_delay(s, f) by {
        lemma_find_skip_key(s, p, f);
    }
}

/// For a probe other than the removed key, the first match is unchanged.
proof fn lemma_find_skip_key(s: Seq<(usize, usize)>, p: int, probe: usize)
    requires
        0 <= p < s.len(),
        probe != s[p].0,
    ensures
        spec_find_delay(s.remove(p), probe) == spec_find_delay(s, probe),
    decreases s.len(),
{
    if p == 0 {
        assert(s.remove(0) =~= s.drop_first());
    } else {
        assert(s.remove(p)[0] == s[0]);
        if s[0].0 != probe {
            assert(s.remove(p).drop_first() =~= s.drop_first().remove(p - 1));
            lemma_find_skip_key(s.drop_first(), p - 1, probe);
        }
    }
}

/// Updating an entry's delay changes only its key's lookup.
proof fn lemma_find_update(s: Seq<(usize, usize)>, p: int, d: usize)
    requires
        sorted_pairs(s),
        0 <= p < s.len(),
    ensures
        spec_find_delay(s.update(p, (s[p].0, d)), s[p].0) == Some(d),
        forall|f: usize|
            f != s[p].0 ==> #[trigger] spec_find_delay(s.update(p, (s[p].0, d)), f)
                == spec_find_delay(s, f),
    decreases s.len(),
{
    let s2 = s.update(p, (s[p].0, d));
    assert(forall|k: int| 0 <= k < s2.len() ==> (#[trigger] s2[k]).0 == s[k].0);
    assert(sorted_pairs(s2));
    lemma_find_at(s2, p);
    assert forall|f: usize|
        f != s[p].0 implies #[trigger] spec_find_delay(s2, f) == spec_find_delay(s, f) by {
        lemma_find_update_other(s, p, d, f);
    }
}

/// As `lemma_find_update`, for one probe.
proof fn lemma_find_update_other(s: Seq<(usize, usize)>, p: int, d: usize, probe: usize)
    requires
        0 <= p < s.len(),
        probe != s[p].0,
    ensures
        spec_find_delay(s.update(p, (s[p].0, d)), probe) == spec_find_delay(s, probe),
    decreases s.len(),
{
    let s2 = s.update(p, (s[p].0, d));
    assert(s2[0].0 == s[0].0);
    if p == 0 {
        assert(s2.drop_first() =~= s.drop_first());
    } else {
        if s[0].0 != probe {
            assert(s2.drop_first() =~= s.drop_first().update(p - 1, (s.drop_first()[p - 1].0, d)));
            lemma_find_update_other(s.drop_first(), p - 1, d, probe);
        }
    }
}

/// Inserting a fresh key makes it found and leaves the others' lookups.
proof fn lemma_find_insert(s: Seq<(usize, usize)>, q: int, f: usize, d: usize)
    requires
        0 <= q <= s.len(),
        forall|k: int| 0 <= k < s.len() ==> (#[trigger] s[k]).0 != f,
    ensures
        spec_find_delay(s.insert(q, (f, d)), f) == Some(d),
        forall|g: usize|
            g != f ==> #[trigger] spec_find_delay(s.insert(q, (f, d)), g) == spec_find_delay(s, g),
    decreases s.len(),
{
    let s2 = s.insert(q, (f, d));
    if q == 0 {
        assert(s2[0] == (f, d));
        assert(s2.drop_first() =~= s);
        assert forall|g: usize| g != f implies #[trigger] spec_find_delay(s2, g)
            == spec_find_delay(s, g) by {
            assert(spec_find_delay(s2, g) == spec_find_delay(s2.drop_first(), g));
        }
    } else {
        assert(s2[0] == s[0]);
        assert(s[0].0 != f);
        assert(s2.drop_first() =~= s.drop_first().insert(q - 1, (f, d)));
        assert(forall|k: int|
            0 <= k < s.drop_first().len() ==> (#[trigger] s.drop_first()[k]).0 != f);
        lemma_find_insert(s.drop_first(), q - 1, f, d);
        assert forall|g: usize| g != f implies #[trigger] spec_find_delay(s2, g)
            == spec_find_delay(s, g) by {
            if s[0].0 == g {
            } else {
                assert(spec_find_delay(s2, g) == spec_find_delay(s2.drop_first(), g));
                assert(spec_find_delay(s2.drop_first(), g) == spec_find_delay(s.drop_first(), g));
                assert(spec_find_delay(s, g) == spec_find_delay(s.drop_first(), g));
            }
        }
    }
}

/// Removing keeps the sorted order.
proof fn lemma_sorted_remove(s: Seq<(usize, usize)>, p: int)
    requires
        sorted_pairs(s),
        0 <= p < s.len(),
    ensures
        sorted_pairs(s.remove(p)),
{
    let s2 = s.remove(p);
    assert forall|i: int, j: int|
        0 <= i < j < s2.len() implies (#[trigger] s2[i]).0 < (#[trigger] s2[j]).0 by {
        let i0 = if i < p {
            i
        } else {
            i + 1
        };
        let j0 = if j < p {
            j
        } else {
            j + 1
        };
        assert(s2[i] == s[i0] && s2[j] == s[j0]);
    }
}

/// Updating a delay keeps the sorted order.
proof fn lemma_sorted_update(s: Seq<(usize, usize)>, p: int, d: usize)
    requires
        sorted_pairs(s),
        0 <= p < s.len(),
    ensures
        sorted_pairs(s.update(p, (s[p].0, d))),
{
    assert(forall|k: int|
        0 <= k < s.len() ==> (#[trigger] s.update(p, (s[p].0, d))[k]).0 == s[k].0);
}

/// Inserting at the sorted position keeps the sorted order.
proof fn lemma_sorted_insert(s: Seq<(usize, usize)>, q: int, f: usize, d: usize)
    requires
        sorted_pairs(s),
        0 <= q <= s.len(),
        forall|k: int| 0 <= k < q ==> (#[trigger] s[k]).0 < f,
        forall|k: int| q <= k < s.len() ==> (#[trigger] s[k]).0 >= f,
        forall|k: int| 0 <= k < s.len() ==> (#[trigger] s[k]).0 != f,
    ensures
        sorted_pairs(s.insert(q, (f, d))),
{
    let s2 = s.insert(q, (f, d));
    assert forall|i: int, j: int|
        0 <= i < j < s2.len() implies (#[trigger] s2[i]).0 < (#[trigger] s2[j]).0 by {
        if i < q && j < q {
            assert(s2[i] == s[i] && s2[j] == s[j]);
        } else if i < q && j == q {
            assert(s2[i] == s[i]);
        } else if i < q && j > q {
            assert(s2[i] == s[i] && s2[j] == s[j - 1]);
        } else if i == q {
            assert(s2[j] == s[j - 1]);
            assert(s[j - 1].0 >= f && s[j - 1].0 != f);
        } else {
            assert(s2[i] == s[i - 1] && s2[j] == s[j - 1]);
        }
    }
}


/// The effective global delay before the change.
pub open spec fn sf_g0(prev: Delay) -> usize {
    if prev.spec_global() == 0 {
        50usize
    } else {
        prev.spec_global()
    }
}

/// The overrides surviving the change.
pub open spec fn sf_kept(prev: Delay, count: usize) -> Seq<(usize, usize)> {
    spec_kept(prev.overrides(), count, sf_g0(prev))
}

/// Whether every frame keeps one common non-zero override.
pub open spec fn sf_promote(prev: Delay, count: usize) -> bool {
    &&& sf_kept(prev, count).len() == count
    &&& count > 0
    &&& forall|i: int, j: int|
        0 <= i < sf_kept(prev, count).len() && 0 <= j < sf_kept(prev, count).len() ==> (
        #[trigger] sf_kept(prev, count)[i]).1 == (#[trigger] sf_kept(prev, count)[j]).1
    &&& exists|i: int| 0 <= i < sf_kept(prev, count).len() && (#[trigger] sf_kept(prev, count)[i]).1 != 0
}

/// Whether `new` is `prev` after the frame count changed to `count`: the
/// surviving overrides, or their common delay promoted to global.
pub open spec fn spec_set_frames_result(prev: Delay, new: Delay, count: usize) -> bool {
    if sf_promote(prev, count) {
        new.spec_global() == sf_kept(prev, count)[0].1 && new.overrides() == Seq::<
            (usize, usize),
        >::empty()
    } else {
        new.spec_global() == sf_g0(prev) && new.overrides() == sf_kept(prev, count)
    }
}

/// The overrides kept by `set_frames`: frames below the count whose delay
/// differs from the given global.
pub open spec fn spec_kept(s: Seq<(usize, usize)>, count: usize, g: usize) -> Seq<(usize, usize)>
    decreases s.len(),
{
    if s.len() == 0 {
        Seq::empty()
    } else {
        let rest = spec_kept(s.drop_first(), count, g);
        if s[0].0 < count && s[0].1 != g {
            seq![s[0]] + rest
        } else {
            rest
        }
    }
}

impl Delay {
    /// Rebuilds the overrides after the frame count changed: overrides at
    /// or past the count leave, overrides equal to the global leave, and
    /// when every frame below the count keeps one common non-zero override
    /// that delay becomes the global one.
    pub fn set_frames(&mut self, count: usize)
        requires
            old(self).wf(),
        ensures
            final(self).wf(),
            spec_set_frames_result(*old(self), *final(self), count),
    {
        let g0: usize = if self.global == 0 {
            50
        } else {
            self.global
        };
        let ghost es = self.overrides();
        let mut kept: Vec<(usize, usize)> = Vec::new();
        let mut i: usize = 0;
        proof {
            assert(es.skip(0) =~= es);
        }
        while i < self.per_frame.len()
            invariant
                i <= es.len(),
                es == self.overrides(),
                old(self).wf(),
                self == old(self),
                spec_kept(es, count, g0) == kept@ + spec_kept(es.skip(i as int), count, g0),
                sorted_pairs(kept@),
                kept@.len() > 0 && i < es.len() ==> kept@.last().0 < es[i as int].0,
            decreases es.len() - i,
        {
            proof {
                assert(es.skip(i as int)[0] == es[i as int]);
                assert(es.skip(i as int).drop_first() =~= es.skip(i + 1));
            }
            let (f, d) = self.per_frame[i];
            if f < count && d != g0 {
                let ghost k0 = kept@;
                kept.push((f, d));
                proof {
                    assert(kept@ =~= k0 + seq![es[i as int]]);
                    assert(k0 + (seq![es[i as int]] + spec_kept(es.skip(i + 1), count, g0)) =~= (k0
                        + seq![es[i as int]]) + spec_kept(es.skip(i + 1), count, g0));
                }
            } else {
                proof {
                    assert(kept@ + spec_kept(es.skip(i + 1), count, g0) == kept@ + spec_kept(
                        es.skip(i as int),
                        count,
                        g0,
                    ));
                }
            }
            i = i + 1;
        }
        proof {
            assert(es.skip(es.len() as int) =~= Seq::<(usize, usize)>::empty());
            assert(kept@ + Seq::<(usize, usize)>::empty() =~= kept@);
        }
        let mut all_equal = true;
        let mut any_nonzero = false;
        let mut j: usize = 0;
        while j < kept.len()
            invariant
                j <= kept@.len(),
                all_equal == (forall|a: int, b: int|
                    0 <= a < j && 0 <= b < j ==> (#[trigger] kept@[a]).1 == (#[trigger] kept@[b]).1),
                any_nonzero == (exists|a: int| 0 <= a < j && (#[trigger] kept@[a]).1 != 0),
            decreases kept@.len() - j,
        {
            if kept[j].1 != kept[0].1 {
                all_equal = false;
            }
            if kept[j].1 != 0 {
                any_nonzero = true;
            }
            j = j + 1;
        }
        let promote = kept.len() == count && count > 0 && all_equal && any_nonzero;
        let first_delay: usize = if kept.len() > 0 {
            kept[0].1
        } else {
            0
        };
        if promote {
            self.global = first_delay;
            self.per_frame = Vec::new();
        } else {
            self.global = g0;
            self.per_frame = kept;
        }
        proof {
            let keptv = sf_kept(*old(self), count);
            assert(g0 == sf_g0(*old(self)));
            assert(kept@ == keptv);
            assert(promote == sf_promote(*old(self), count));
            if promote {
                assert(self.spec_global() == keptv[0].1);
                assert(self.overrides() =~= Seq::<(usize, usize)>::empty());
            } else {
                assert(self.spec_global() == sf_g0(*old(self)));
                assert(self.overrides() == keptv);
            }
        }
    }

    /// The token of the delay line: the effective global delay, then each
    /// override as ` frame:delay` in frame order.
    pub fn to_token(&self) -> (r: String)
        ensures
            r@ == spec_delay_token(*self),
    {
        let mut out = fmt_usize(self.get_global());
        let ghost es = self.overrides();
        let ghost head = out@;
        let mut i: usize = 0;
        proof {
            assert(spec_delay_pairs(es.subrange(0, 0)) =~= Seq::<char>::empty());
            assert(out@ =~= head + spec_delay_pairs(es.subrange(0, 0)));
        }
        while i < self.per_frame.len()
            invariant
                i <= es.len(),
                es == self.overrides(),
                head == spec_dec(
                    (if self.spec_global() == 0 {
                        50usize
                    } else {
                        self.spec_global()
                    }) as nat,
                ),
                out@ == head + spec_delay_pairs(es.subrange(0, i as int)),
            decreases es.len() - i,
        {
            proof {
                assert(es[i as int] == self.per_frame@[i as int]);
                assert(es.subrange(0, i + 1).drop_last() =~= es.subrange(0, i as int));
                assert(es.subrange(0, i + 1).last() == es[i as int]);
            }
            let (f, d) = self.per_frame[i];
            out.push(' ');
            let fv = fmt_usize(f);
            crate::colors::push_all(&mut out, &fv);
            out.push(':');
            let dv = fmt_usize(d);
            crate::colors::push_all(&mut out, &dv);
            proof {
                assert(out@ =~= head + spec_delay_pairs(es.subrange(0, i + 1)));
            }
            i = i + 1;
        }
        proof {
            assert(es.subrange(0, es.len() as int) =~= es);
        }
        chars_to_string(&out)
    }
}

/// The ` frame:delay` parts of a delay token, in order.
pub open spec fn spec_delay_pairs(s: Seq<(usize, usize)>) -> Seq<char>
    decreases s.len(),
{
    if s.len() == 0 {
        Seq::empty()
    } else {
        spec_delay_pairs(s.drop_last()) + seq![' '] + spec_dec(s.last().0 as nat) + seq![':']
            + spec_dec(s.last().1 as nat)
    }
}

/// The whole delay token of a configuration.
pub open spec fn spec_delay_token(d: Delay) -> Seq<char> {
    spec_dec(
        (if d.spec_global() == 0 {
            50usize
        } else {
            d.spec_global()
        }) as nat,
    ) + spec_delay_pairs(d.overrides())
}

/// How parsing a delay line fails: a bad global token, a bad `frame:ms`
/// token (each carried verbatim), a duplicate frame, or a blank line.
pub enum DelayErr {
    Global(Seq<char>),
    PerFrame(Seq<char>),
    Dup(usize, Seq<char>),
    Void,
}

/// One space-separated token applied to the delay being built: a bare
/// number replaces the global delay, `frame:ms` adds an override once.
pub open spec fn spec_delay_step(tok: Seq<char>, d: DelayV) -> Result<DelayV, DelayErr> {
    match spec_split_first(tok, ':') {
        Some(p) => {
            match spec_parse_usize(p.0) {
                Some(f) => match spec_parse_usize(p.1) {
                    Some(ms) => {
                        if spec_find_delay(d.1, f) is Some {
                            Err(DelayErr::Dup(f, tok))
                        } else {
                            Ok((d.0, insert_sorted(d.1, f, ms)))
                        }
                    },
                    None => Err(DelayErr::PerFrame(tok)),
                },
                None => Err(DelayErr::PerFrame(tok)),
            }
        },
        None => match spec_parse_usize(tok) {
            Some(g) => Ok((g, d.1)),
            None => Err(DelayErr::Global(tok)),
        },
    }
}

/// The model of a delay being parsed: the global value and the overrides.
pub type DelayV = (usize, Seq<(usize, usize)>);

/// Overrides with one more pair at its sorted position.
pub open spec fn insert_sorted(s: Seq<(usize, usize)>, f: usize, ms: usize) -> Seq<(usize, usize)> {
    s.insert(first_ge(s, f), (f, ms))
}

/// The first position whose frame index is at least the given one.
pub open spec fn first_ge(s: Seq<(usize, usize)>, f: usize) -> int
    decreases s.len(),
{
    if s.len() == 0 {
        0
    } else if s[0].0 >= f {
        0
    } else {
        1 + first_ge(s.drop_first(), f)
    }
}

/// The rest of a delay line folded over `spec_delay_step`.
pub open spec fn spec_delay_fold(s: Seq<char>, d: DelayV) -> Result<DelayV, DelayErr>
    decreases s.len(),
    via spec_delay_fold_dec
{
    match spec_split_first(s, ' ') {
        Some(p) => match spec_delay_step(p.0, d) {
            Ok(d2) => spec_delay_fold(p.1, d2),
            Err(e) => Err(e),
        },
        None => match spec_delay_step(s, d) {
            Ok(d2) => Ok(d2),
            Err(e) => Err(e),
        },
    }
}

#[via_fn]
proof fn spec_delay_fold_dec(s: Seq<char>, d: DelayV) {
    crate::text::lemma_split_first_parts(s, ' ');
}

/// What a whole delay line denotes: a blank line is void, otherwise the
/// tokens folded from the default state, with an unset global read as 50.
pub open spec fn spec_parse_delay(s: Seq<char>) -> Result<DelayV, DelayErr> {
    if spec_trim(s).len() == 0 {
        Err(DelayErr::Void)
    } else {
        match spec_delay_fold(spec_trim(s), (0usize, Seq::empty())) {
            Ok(d) => Ok(
                (
                    if d.0 == 0 {
                        50usize
                    } else {
                        d.0
                    },
                    d.1,
                ),
            ),
            Err(e) => Err(e),
        }
    }
}

impl Delay {
    /// Parses a delay line: a global value and `frame:ms` overrides,
    /// space-separated in any order; a repeated frame is a duplicate error.
    pub fn parse(s: &str) -> (r: Result<Delay, Error>)
        ensures
            (r is Ok) == (spec_parse_delay(s@) is Ok),
            r matches Ok(d) ==> (spec_parse_delay(s@) matches Ok(dv) && d.spec_global() == dv.0
                && d.overrides() == dv.1 && d.wf()),
            spec_parse_delay(s@) matches Err(pe) ==> (r matches Err(e) && match pe {
                DelayErr::Global(t) => e matches Error::GlobalDelayParsing(m) && m@ == t,
                DelayErr::PerFrame(t) => e matches Error::PerFrameDelayParsing(m) && m@ == t,
                DelayErr::Dup(f, t) => e matches Error::PerFrameDelayDup(g, m) && g == f && m@
                    == t,
                DelayErr::Void => e matches Error::DelayLineVoid(m) && m@ == s@,
            }),
    {
        let cv = str_to_chars(s);
        let t = trim_chars(&cv);
        if t.len() == 0 {
            return Err(Error::DelayLineVoid(chars_to_string(&cv)));
        }
        let mut d = Delay { global: 0, per_frame: Vec::new() };
        let mut rest = t;
        proof {
            assert(d.overrides() =~= Seq::<(usize, usize)>::empty());
        }
        proof {
            assert(t@ == spec_trim(s@));
        }
        loop
            invariant_except_break
                spec_delay_fold(spec_trim(s@), (0usize, Seq::<(usize, usize)>::empty()))
                    == spec_delay_fold(rest@, (d.spec_global(), d.overrides())),
            invariant
                d.wf(),
                spec_trim(s@).len() != 0,
            ensures
                spec_delay_fold(spec_trim(s@), (0usize, Seq::<(usize, usize)>::empty())) == Ok::<
                    DelayV,
                    DelayErr,
                >((d.spec_global(), d.overrides())),
            decreases rest@.len(),
        {
            let (tok, rem, last) = match split_first(&rest, ' ') {
                Some((a, b)) => {
                    proof {
                        crate::text::lemma_split_first_some(a@, b@, ' ');
                    }
                    (a, b, false)
                },
                None => {
                    proof {
                        crate::text::lemma_split_first_none(rest@, ' ');
                    }
                    (rest, Vec::new(), true)
                },
            };
            let ghost old_state: DelayV = (d.spec_global(), d.overrides());
            match Self::apply_token(&mut d, &tok) {
                Ok(_) => {},
                Err(e) => {
                    proof {
                        assert(spec_delay_step(tok@, old_state) is Err);
                        assert(spec_delay_fold(rest@, old_state) == spec_delay_step(
                            tok@,
                            old_state,
                        ));
                        assert(spec_delay_fold(
                            spec_trim(s@),
                            (0usize, Seq::<(usize, usize)>::empty()),
                        ) == spec_delay_step(tok@, old_state));
                        assert(spec_parse_delay(s@) == spec_delay_fold(
                            spec_trim(s@),
                            (0usize, Seq::<(usize, usize)>::empty()),
                        ));
                    }
                    return Err(e);
                },
            }
            if last {
                proof {
                    assert(spec_delay_fold(rest@, (old_state.0, old_state.1)) == Ok::<
                        DelayV,
                        DelayErr,
                    >((d.spec_global(), d.overrides())));
                }
                break ;
            }
            rest = rem;
        }
        if d.global == 0 {
            d.global = 50;
        }
        Ok(d)
    }

    /// One token of a delay line applied to the delay being built.
    fn apply_token(d: &mut Delay, tok: &Vec<char>) -> (r: Result<(), Error>)
        requires
            old(d).wf(),
        ensures
            final(d).wf(),
            (r is Ok) == (spec_delay_step(tok@, (old(d).spec_global(), old(d).overrides()))
                is Ok),
            r is Ok ==> spec_delay_step(tok@, (old(d).spec_global(), old(d).overrides())) == Ok::<
                DelayV,
                DelayErr,
            >((final(d).spec_global(), final(d).overrides())),
            spec_delay_step(tok@, (old(d).spec_global(), old(d).overrides())) matches Err(pe)
                ==> (r matches Err(e) && *final(d) == *old(d) && match pe {
                DelayErr::Global(t) => e matches Error::GlobalDelayParsing(m) && m@ == t,
                DelayErr::PerFrame(t) => e matches Error::PerFrameDelayParsing(m) && m@ == t,
                DelayErr::Dup(f, t) => e matches Error::PerFrameDelayDup(g, m) && g == f && m@
                    == t,
                DelayErr::Void => false,
            }),
    {
        match split_first(tok, ':') {
            Some((fs, ds)) => {
                proof {
                    crate::text::lemma_split_first_some(fs@, ds@, ':');
                }
                let f = match parse_usize(&fs) {
                    Some(f) => f,
                    None => {
                        return Err(Error::PerFrameDelayParsing(chars_to_string(tok)));
                    },
                };
                let ms = match parse_usize(&ds) {
                    Some(ms) => ms,
                    None => {
                        return Err(Error::PerFrameDelayParsing(chars_to_string(tok)));
                    },
                };
                match d.find_pos(f) {
                    Some(_) => Err(Error::PerFrameDelayDup(f, chars_to_string(tok))),
                    None => {
                        let ghost es = d.overrides();
                        let q = d.insert_pos(f);
                        proof {
                            lemma_first_ge_is_insert_pos(es, f, q as int);
                        }
                        d.per_frame.insert(q, (f, ms));
                        proof {
                            lemma_sorted_insert(es, q as int, f, ms);
                        }
                        Ok(())
                    },
                }
            },
            None => {
                proof {
                    crate::text::lemma_split_first_none(tok@, ':');
                }
                match parse_usize(tok) {
                    Some(g) => {
                        d.global = g;
                        proof {
                            assert(d.overrides() == old(d).overrides());
                        }
                        Ok(())
                    },
                    None => Err(Error::GlobalDelayParsing(chars_to_string(tok))),
                }
            },
        }
    }
}

/// The executable insert position equals the specified one.
proof fn lemma_first_ge_is_insert_pos(s: Seq<(usize, usize)>, f: usize, q: int)
    requires
        0 <= q <= s.len(),
        forall|k: int| 0 <= k < q ==> (#[trigger] s[k]).0 < f,
        forall|k: int| q <= k < s.len() ==> (#[trigger] s[k]).0 >= f,
    ensures
        first_ge(s, f) == q,
    decreases s.len(),
{
    if s.len() == 0 {
    } else if s[0].0 >= f {
        assert(q == 0) by {
            if q > 0 {
                assert(s[0].0 < f);
            }
        }
    } else {
        assert(q >= 1);
        assert(forall|k: int| 0 <= k < q - 1 ==> (#[trigger] s.drop_first()[k]).0 < f);
        assert(forall|k: int|
            q - 1 <= k < s.drop_first().len() ==> (#[trigger] s.drop_first()[k]).0 >= f);
        lemma_first_ge_is_insert_pos(s.drop_first(), f, q - 1);
    }
}

} // verus!
