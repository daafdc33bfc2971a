//! The set of page ranges a task has mapped with `mmap`, kept as disjoint half-open
//! ranges and merged with their neighbours when a new range touches them.
use vstd::prelude::*;
use std::collections::BTreeMap;
use crate::address::{VirtPageNum, VPNRange};

verus! {

broadcast use vstd::std_specs::btree::group_btree_axioms;

/// What a change to the ranges did.
#[derive(Clone, Copy, PartialEq, Eq, Structural, Debug)]
pub enum RangesChanged {
    /// A new range, touching no other, was added.
    Inserted(VPNRange),
    /// The whole range was taken away.
    Removed(VPNRange),
    /// A range (first) grew into a larger one (second).
    Extended(VPNRange, VPNRange),
    /// A range (first) lost its head or tail and became the second.
    Shrinked(VPNRange, VPNRange),
    /// Two ranges (front, back) were joined with the pages between them.
    Combined(VPNRange, VPNRange),
    /// A range lost a middle part and became these two (front, back).
    Splitted(VPNRange, VPNRange),
}

/// The ranges, each stored under the page just past it: `end -> start`.
pub struct RangeManager {
    ranges: Ranges,
}

/// The stored ranges themselves, `end -> start`, which the manager keeps well formed.
struct Ranges {
    areas: BTreeMap<usize, usize>,
}

impl View for Ranges {
    type V = Map<usize, usize>;

    closed spec fn view(&self) -> Map<usize, usize> {
        self.areas@
    }
}

/// The stored ranges are each well ordered and pairwise disjoint.
pub open spec fn ranges_wf(m: Map<usize, usize>) -> bool {
    &&& m.dom().finite()
    &&& forall|e: usize| #[trigger] m.contains_key(e) ==> m[e] <= e
    &&& forall|e1: usize, e2: usize|
        #![trigger m.contains_key(e1), m.contains_key(e2)]
        m.contains_key(e1) && m.contains_key(e2) && e1 < e2 ==> e1 <= m[e2]
}

/// The pages covered by the stored ranges.
pub open spec fn covered(m: Map<usize, usize>) -> Set<int> {
    Set::new(|p: int| exists|e: usize| #[trigger] m.contains_key(e) && m[e] <= p < e)
}

/// The pages `[lo, hi)`.
pub open spec fn page_span(lo: int, hi: int) -> Set<int> {
    Set::new(|p: int| lo <= p < hi)
}

/// The stored range `[s, e)` stands in the way of adding `[lo, hi)`: it overlaps it,
/// or holds `lo` strictly inside, or ends at or after `hi` while starting before it.
pub open spec fn blocks(s: usize, e: usize, lo: usize, hi: usize) -> bool {
    s < hi && (lo < e || hi <= e)
}

/// Some stored range stands in the way of adding `[lo, hi)`.
pub open spec fn insert_blocked(m: Map<usize, usize>, lo: usize, hi: usize) -> bool {
    exists|e: usize| #[trigger] m.contains_key(e) && blocks(m[e], e, lo, hi)
}

/// Some stored range ends at or after page `x`.
pub open spec fn has_end_from(m: Map<usize, usize>, x: usize) -> bool {
    exists|e: usize| #[trigger] m.contains_key(e) && x <= e
}

/// `e` is the smallest stored end at or after page `x`.
pub open spec fn is_first_end_from(m: Map<usize, usize>, x: usize, e: usize) -> bool {
    &&& m.contains_key(e)
    &&& x <= e
    &&& forall|j: usize| #[trigger] m.contains_key(j) && x <= j ==> e <= j
}

/// The smallest stored end at or after page `x` (meaningful when `has_end_from`).
pub open spec fn first_end_from(m: Map<usize, usize>, x: usize) -> usize {
    choose|e: usize| is_first_end_from(m, x, e)
}

/// Adding a non-empty `[lo, hi)` joins the stored range that ends at `lo`.
pub open spec fn joins_left(m: Map<usize, usize>, lo: usize, hi: usize) -> bool {
    lo < hi && m.contains_key(lo)
}

/// Adding `[lo, hi)` joins the first stored range ending at or after `hi`, which starts at `hi`.
pub open spec fn joins_right(m: Map<usize, usize>, hi: usize) -> bool {
    has_end_from(m, hi) && m[first_end_from(m, hi)] == hi
}

/// Taking away `[lo, hi)` is possible: the first stored range ending at or after `hi`
/// starts at or before `lo`, so it holds the whole of `[lo, hi)`.
pub open spec fn remove_fits(m: Map<usize, usize>, lo: usize, hi: usize) -> bool {
    has_end_from(m, hi) && m[first_end_from(m, hi)] <= lo
}

/// The stored ranges after adding `[lo, hi)`.
pub open spec fn after_insert(m: Map<usize, usize>, lo: usize, hi: usize) -> Map<usize, usize> {
    let h = first_end_from(m, hi);
    if insert_blocked(m, lo, hi) {
        m
    } else if joins_left(m, lo, hi) && joins_right(m, hi) {
        m.remove(lo).insert(h, m[lo])
    } else if joins_left(m, lo, hi) {
        m.remove(lo).insert(hi, m[lo])
    } else if joins_right(m, hi) {
        m.insert(h, lo)
    } else {
        m.insert(hi, lo)
    }
}

/// The stored ranges after taking away `[lo, hi)`.
pub open spec fn after_remove(m: Map<usize, usize>, lo: usize, hi: usize) -> Map<usize, usize> {
    let h = first_end_from(m, hi);
    let l = m[h];
    if !remove_fits(m, lo, hi) {
        m
    } else if hi == h {
        if l < lo { m.remove(h).insert(lo, l) } else { m.remove(h) }
    } else {
        if l < lo { m.insert(h, hi).insert(lo, l) } else { m.insert(h, hi) }
    }
}

/// Replacing the stored range ending at `gone` by `[s, e)` keeps the ranges well formed,
/// when `[s, e)` lies between the other stored ranges.
proof fn lemma_wf_after_replace(m: Map<usize, usize>, gone: usize, e: usize, s: usize)
    requires
        ranges_wf(m),
        s <= e,
        forall|k: usize| #[trigger] m.contains_key(k) && k != gone && k != e ==> (k < e ==> k <= s) && (e < k ==> e <= m[k]),
    ensures
        ranges_wf(m.remove(gone).insert(e, s)),
{
    let n = m.remove(gone).insert(e, s);
    assert forall|e1: usize, e2: usize|
        #![trigger n.contains_key(e1), n.contains_key(e2)]
        n.contains_key(e1) && n.contains_key(e2) && e1 < e2 implies e1 <= n[e2] by {
        if e1 != e && e2 != e {
            assert(m.contains_key(e1) && m.contains_key(e2));
        }
    }
}

impl View for RangeManager {
    type V = Map<usize, usize>;

    closed spec fn view(&self) -> Map<usize, usize> {
        self.ranges@
    }
}

impl Clone for RangeManager {
    fn clone(&self) -> (c: RangeManager)
        ensures
            c@ == self@,
    {
        proof {
            use_type_invariant(self);
        }
        RangeManager { ranges: Ranges { areas: self.ranges.areas.clone() } }
    }
}

impl RangeManager {
    /// The manager's invariant, which every manager keeps.
    #[verifier::type_invariant]
    pub open spec fn wf(&self) -> bool {
        ranges_wf(self@)
    }

    pub fn new() -> (m: RangeManager)
        ensures
            m.wf(),
            m@ == Map::<usize, usize>::empty(),
    {
        RangeManager { ranges: Ranges { areas: BTreeMap::new() } }
    }

    /// Adds the pages of `rng`. Fails, changing nothing, when a stored range stands in
    /// the way; otherwise joins `rng` with the stored range ending at its start and with
    /// the one starting at its end, and says which of these happened.
    pub fn insert(&mut self, rng: &VPNRange) -> (res: Option<RangesChanged>)
        ensures
            final(self).wf(),
            final(self)@ == after_insert(old(self)@, rng.start(), rng.end()),
            ({
                let m = old(self)@;
                let lo = rng.start();
                let hi = rng.end();
                if insert_blocked(m, lo, hi) {
                    res is None
                } else if joins_left(m, lo, hi) && joins_right(m, hi) {
                    let h = first_end_from(m, hi);
                    res matches Some(RangesChanged::Combined(f, b)) && f.spans(m[lo], lo) && b.spans(hi, h)
                } else if joins_left(m, lo, hi) {
                    res matches Some(RangesChanged::Extended(p, n)) && p.spans(m[lo], lo) && n.spans(m[lo], hi)
                } else if joins_right(m, hi) {
                    let h = first_end_from(m, hi);
                    res matches Some(RangesChanged::Extended(p, n)) && p.spans(hi, h) && n.spans(lo, h)
                } else {
                    res matches Some(RangesChanged::Inserted(r)) && r.spans(lo, hi)
                }
            }),
    {
        proof {
            use_type_invariant(&*self);
        }
        let mut ranges = Ranges { areas: BTreeMap::new() };
        std::mem::swap(&mut ranges, &mut self.ranges);
        let res = ranges.add(rng);
        self.ranges = ranges;
        res
    }

    /// Takes away the pages of `rng`, which must lie inside the first stored range that
    /// ends at or after the end of `rng`; otherwise fails, changing nothing. Says whether
    /// that range went away, lost its head or tail, or was cut in two.
    pub fn remove(&mut self, rng: &VPNRange) -> (res: Option<RangesChanged>)
        ensures
            final(self).wf(),
            final(self)@ == after_remove(old(self)@, rng.start(), rng.end()),
            ({
                let m = old(self)@;
                let lo = rng.start();
                let hi = rng.end();
                let h = first_end_from(m, hi);
                let l = m[h];
                if !remove_fits(m, lo, hi) {
                    res is None
                } else if l == lo && hi == h {
                    res matches Some(RangesChanged::Removed(r)) && r.spans(l, h)
                } else if l < lo && hi == h {
                    res matches Some(RangesChanged::Shrinked(p, n)) && p.spans(l, h) && n.spans(l, lo)
                } else if l == lo && hi < h {
                    res matches Some(RangesChanged::Shrinked(p, n)) && p.spans(l, h) && n.spans(hi, h)
                } else {
                    res matches Some(RangesChanged::Splitted(f, b)) && f.spans(l, lo) && b.spans(hi, h)
                }
            }),
    {
        proof {
            use_type_invariant(&*self);
        }
        let mut ranges = Ranges { areas: BTreeMap::new() };
        std::mem::swap(&mut ranges, &mut self.ranges);
        let res = ranges.take(rng);
        self.ranges = ranges;
        res
    }

}

impl Ranges {
    /// The work of [`RangeManager::insert`] on well-formed ranges.
    fn add(&mut self, rng: &VPNRange) -> (res: Option<RangesChanged>)
        requires
            ranges_wf(old(self)@),
        ensures
            ranges_wf(final(self)@),
            final(self)@ == after_insert(old(self)@, rng.start(), rng.end()),
            ({
                let m = old(self)@;
                let lo = rng.start();
                let hi = rng.end();
                if insert_blocked(m, lo, hi) {
                    res is None
                } else if joins_left(m, lo, hi) && joins_right(m, hi) {
                    let h = first_end_from(m, hi);
                    res matches Some(RangesChanged::Combined(f, b)) && f.spans(m[lo], lo) && b.spans(hi, h)
                } else if joins_left(m, lo, hi) {
                    res matches Some(RangesChanged::Extended(p, n)) && p.spans(m[lo], lo) && n.spans(m[lo], hi)
                } else if joins_right(m, hi) {
                    let h = first_end_from(m, hi);
                    res matches Some(RangesChanged::Extended(p, n)) && p.spans(hi, h) && n.spans(lo, h)
                } else {
                    res matches Some(RangesChanged::Inserted(r)) && r.spans(lo, hi)
                }
            }),
    {
        let ghost m = self@;
        let start = rng.get_start().0;
        let end = rng.get_end().0;
        let in_between_range_last = self.last_ending_in(start, end);
        let next_range = self.first_ending_from(end);

        let mut lower_merge = false;
        let mut low_start: usize = 0;
        let mut low_end: usize = 0;
        match in_between_range_last {
            None => {},
            Some((higher, lower)) => {
                if lower < start && end < higher {
                    return None;
                }
                if higher < end && higher != start {
                    assert(blocks(m[higher], higher, start, end));
                    return None;
                } else {
                    lower_merge = true;
                    low_start = lower;
                    low_end = higher;
                }
            },
        }
        proof {
            assert(lower_merge == joins_left(m, start, end));
            assert forall|e: usize| #[trigger] m.contains_key(e) && e < end implies !blocks(m[e], e, start, end) by {
                if start <= e {
                    assert(e == start);
                }
            }
        }

        match next_range {
            Some((higher, lower)) => {
                proof {
                    assert(first_end_from(m, end) == higher) by {
                        let c = first_end_from(m, end);
                        assert(is_first_end_from(m, end, c));
                    }
                }
                if lower < end {
                    assert(blocks(m[higher], higher, start, end));
                    return None;
                } else if lower == end {
                    proof {
                        assert forall|e: usize| #[trigger] m.contains_key(e) implies !blocks(m[e], e, start, end) by {
                            if end <= e && e != higher {
                                assert(m.contains_key(higher) && m.contains_key(e) && higher < e);
                            }
                        }
                    }
                    if lower_merge {
                        self.areas.remove(&low_end);
                        self.areas.insert(higher, low_start);
                        proof {
                            lemma_wf_after_replace(m, low_end, higher, low_start);
                        }
                        return Some(
                            RangesChanged::Combined(
                                VPNRange::new(VirtPageNum(low_start), VirtPageNum(low_end)),
                                VPNRange::new(VirtPageNum(lower), VirtPageNum(higher)),
                            ),
                        );
                    } else {
                        self.areas.insert(higher, start);
                        proof {
                            lemma_wf_after_replace(m, higher, higher, start);
                        }
                        return Some(
                            RangesChanged::Extended(
                                VPNRange::new(VirtPageNum(lower), VirtPageNum(higher)),
                                VPNRange::new(VirtPageNum(start), VirtPageNum(higher)),
                            ),
                        );
                    }
                } else {
                }
            },
            None => {},
        }
        proof {
            assert(!joins_right(m, end));
            assert forall|e: usize| #[trigger] m.contains_key(e) implies !blocks(m[e], e, start, end) by {
                if end <= e {
                    let h = first_end_from(m, end);
                    assert(is_first_end_from(m, end, h));
                    if h != e {
                        assert(m.contains_key(h) && m.contains_key(e) && h < e);
                    }
                }
            }
        }
        if lower_merge {
            self.areas.remove(&low_end);
            self.areas.insert(end, low_start);
            proof {
                lemma_wf_after_replace(m, low_end, end, low_start);
            }
            return Some(
                RangesChanged::Extended(
                    VPNRange::new(VirtPageNum(low_start), VirtPageNum(low_end)),
                    VPNRange::new(VirtPageNum(low_start), VirtPageNum(end)),
                ),
            );
        } else {
            self.areas.insert(end, start);
            proof {
                lemma_wf_after_replace(m, end, end, start);
            }
            return Some(RangesChanged::Inserted(VPNRange::new(VirtPageNum(start), VirtPageNum(end))));
        }
    }

    /// The work of [`RangeManager::remove`] on well-formed ranges.
    fn take(&mut self, rng: &VPNRange) -> (res: Option<RangesChanged>)
        requires
            ranges_wf(old(self)@),
        ensures
            ranges_wf(final(self)@),
            final(self)@ == after_remove(old(self)@, rng.start(), rng.end()),
            ({
                let m = old(self)@;
                let lo = rng.start();
                let hi = rng.end();
                let h = first_end_from(m, hi);
                let l = m[h];
                if !remove_fits(m, lo, hi) {
                    res is None
                } else if l == lo && hi == h {
                    res matches Some(RangesChanged::Removed(r)) && r.spans(l, h)
                } else if l < lo && hi == h {
                    res matches Some(RangesChanged::Shrinked(p, n)) && p.spans(l, h) && n.spans(l, lo)
                } else if l == lo && hi < h {
                    res matches Some(RangesChanged::Shrinked(p, n)) && p.spans(l, h) && n.spans(hi, h)
                } else {
                    res matches Some(RangesChanged::Splitted(f, b)) && f.spans(l, lo) && b.spans(hi, h)
                }
            }),
    {
        let ghost m = self@;
        let start = rng.get_start().0;
        let end = rng.get_end().0;
        match self.first_ending_from(end) {
            None => return None,
            Some((higher, lower)) => {
                proof {
                    assert(first_end_from(m, end) == higher) by {
                        let c = first_end_from(m, end);
                        assert(is_first_end_from(m, end, c));
                    }
                }
                if start < lower {
                    return None;
                }
                if lower == start && end == higher {
                    self.areas.remove(&higher);
                    proof {
                        assert forall|e1: usize, e2: usize|
                            #![trigger self@.contains_key(e1), self@.contains_key(e2)]
                            self@.contains_key(e1) && self@.contains_key(e2) && e1 < e2 implies e1 <= self@[e2] by {
                            assert(m.contains_key(e1) && m.contains_key(e2));
                        }
                    }
                    return Some(RangesChanged::Removed(VPNRange::new(VirtPageNum(lower), VirtPageNum(higher))));
                }
                if lower < start && end == higher {
                    self.areas.remove(&higher);
                    self.areas.insert(start, lower);
                    proof {
                        lemma_wf_after_replace(m, higher, start, lower);
                    }
                    return Some(
                        RangesChanged::Shrinked(
                            VPNRange::new(VirtPageNum(lower), VirtPageNum(higher)),
                            VPNRange::new(VirtPageNum(lower), VirtPageNum(start)),
                        ),
                    );
                }
                if lower == start && end < higher {
                    self.areas.insert(higher, end);
                    proof {
                        lemma_wf_after_replace(m, higher, higher, end);
                    }
                    return Some(
                        RangesChanged::Shrinked(
                            VPNRange::new(VirtPageNum(lower), VirtPageNum(higher)),
                            VPNRange::new(VirtPageNum(end), VirtPageNum(higher)),
                        ),
                    );
                }
                if lower < start && end < higher {
                    self.areas.insert(higher, end);
                    proof {
                        lemma_wf_after_replace(m, higher, higher, end);
                    }
                    let ghost m1 = self@;
                    self.areas.insert(start, lower);
                    proof {
                        lemma_wf_after_replace(m1, start, start, lower);
                    }
                    return Some(
                        RangesChanged::Splitted(
                            VPNRange::new(VirtPageNum(lower), VirtPageNum(start)),
                            VPNRange::new(VirtPageNum(end), VirtPageNum(higher)),
                        ),
                    );
                }
            },
        }
        return None;
    }

    /// The stored range with the largest end in `[lo, hi)`, as `(end, start)`.
    fn last_ending_in(&self, lo: usize, hi: usize) -> (r: Option<(usize, usize)>)
        ensures
            match r {
                Some((e, s)) => self@.contains_key(e) && self@[e] == s && lo <= e < hi
                    && forall|j: usize| #[trigger] self@.contains_key(j) && lo <= j < hi ==> j <= e,
                None => forall|j: usize| #[trigger] self@.contains_key(j) ==> !(lo <= j < hi),
            },
    {
        let mut best: Option<(usize, usize)> = None;
        for kv in it: self.areas.iter()
            invariant
                it.seq().len() == self@.dom().len(),
                forall|i: int|
                    0 <= i < it.seq().len() ==> #[trigger] self@.contains_key(*it.seq()[i].0)
                        && self@[*it.seq()[i].0] == *it.seq()[i].1,
                forall|k: usize| #[trigger]
                    self@.contains_key(k) ==> it.seq().contains((&k, &self@[k])),
                match best {
                    Some((e, s)) => self@.contains_key(e) && self@[e] == s && lo <= e < hi
                        && forall|i: int| #![trigger it.seq()[i]]
                            0 <= i < it.index() && lo <= *it.seq()[i].0 < hi ==> *it.seq()[i].0 <= e,
                    None => forall|i: int| #![trigger it.seq()[i]]
                        0 <= i < it.index() ==> !(lo <= *it.seq()[i].0 < hi),
                },
        {
            let k = *kv.0;
            let v = *kv.1;
            if lo <= k && k < hi {
                match best {
                    Some((b, _)) => {
                        if k > b {
                            best = Some((k, v));
                        }
                    },
                    None => {
                        best = Some((k, v));
                    },
                }
            }
        }
        best
    }

    /// The stored range with the smallest end at or after `x`, as `(end, start)`.
    fn first_ending_from(&self, x: usize) -> (r: Option<(usize, usize)>)
        ensures
            match r {
                Some((e, s)) => is_first_end_from(self@, x, e) && self@[e] == s,
                None => !has_end_from(self@, x),
            },
    {
        let mut best: Option<(usize, usize)> = None;
        for kv in it: self.areas.iter()
            invariant
                it.seq().len() == self@.dom().len(),
                forall|i: int|
                    0 <= i < it.seq().len() ==> #[trigger] self@.contains_key(*it.seq()[i].0)
                        && self@[*it.seq()[i].0] == *it.seq()[i].1,
                forall|k: usize| #[trigger]
                    self@.contains_key(k) ==> it.seq().contains((&k, &self@[k])),
                match best {
                    Some((e, s)) => self@.contains_key(e) && self@[e] == s && x <= e
                        && forall|i: int| #![trigger it.seq()[i]]
                            0 <= i < it.index() && x <= *it.seq()[i].0 ==> e <= *it.seq()[i].0,
                    None => forall|i: int| #![trigger it.seq()[i]]
                        0 <= i < it.index() ==> *it.seq()[i].0 < x,
                },
        {
            let k = *kv.0;
            let v = *kv.1;
            if x <= k {
                match best {
                    Some((b, _)) => {
                        if k < b {
                            best = Some((k, v));
                        }
                    },
                    None => {
                        best = Some((k, v));
                    },
                }
            }
        }
        best
    }
}

} // verus!

verus! {

/// A finite non-empty set of page numbers has a smallest element.
proof fn lemma_set_has_min(s: Set<usize>)
    requires
        s.finite(),
        !s.is_empty(),
    ensures
        exists|x: usize| #[trigger] s.contains(x) && forall|y: usize| #[trigger] s.contains(y) ==> x <= y,
    decreases s.len(),
{
    let a = s.choose();
    let rest = s.remove(a);
    if rest.is_empty() {
        assert(forall|y: usize| #[trigger] s.contains(y) ==> y == a);
        assert(s.contains(a));
    } else {
        lemma_set_has_min(rest);
        let b = choose|x: usize| #[trigger] rest.contains(x) && forall|y: usize| #[trigger] rest.contains(y) ==> x <= y;
        if a < b {
            assert(s.contains(a));
        } else {
            assert(s.contains(b));
        }
    }
}

/// When some stored range ends at or after `x`, a first such one exists.
pub proof fn lemma_first_end_exists(m: Map<usize, usize>, x: usize)
    requires
        m.dom().finite(),
        has_end_from(m, x),
    ensures
        is_first_end_from(m, x, first_end_from(m, x)),
{
    let s = m.dom().filter(|k: usize| x <= k);
    let w = choose|e: usize| #[trigger] m.contains_key(e) && x <= e;
    assert(s.contains(w));
    lemma_set_has_min(s);
    let e = choose|e: usize| #[trigger] s.contains(e) && forall|y: usize| #[trigger] s.contains(y) ==> e <= y;
    assert forall|j: usize| #[trigger] m.contains_key(j) && x <= j implies e <= j by {
        assert(s.contains(j));
    }
    assert(is_first_end_from(m, x, e));
}

/// Pins down `first_end_from` once a witness is known.
pub proof fn lemma_first_end_from(m: Map<usize, usize>, x: usize, e: usize)
    requires
        is_first_end_from(m, x, e),
    ensures
        has_end_from(m, x),
        first_end_from(m, x) == e,
{
    let c = first_end_from(m, x);
    assert(is_first_end_from(m, x, c));
}

/// Adding a range keeps the stored ranges well formed.
pub proof fn lemma_insert_wf(m: Map<usize, usize>, lo: usize, hi: usize)
    requires
        ranges_wf(m),
        lo <= hi,
    ensures
        ranges_wf(after_insert(m, lo, hi)),
{
    if !insert_blocked(m, lo, hi) {
        let h = first_end_from(m, hi);
        if has_end_from(m, hi) {
            lemma_first_end_exists(m, hi);
        }
        assert forall|k: usize| #[trigger] m.contains_key(k) && lo < k && k < hi implies false by {
            assert(blocks(m[k], k, lo, hi));
        }
        assert forall|k: usize| #[trigger] m.contains_key(k) && hi <= k implies hi <= m[k] by {
            assert(!blocks(m[k], k, lo, hi));
        }
        if joins_left(m, lo, hi) && joins_right(m, hi) {
            lemma_wf_after_replace(m.remove(lo), h, h, m[lo]);
            assert(m.remove(lo).remove(h).insert(h, m[lo]) =~= m.remove(lo).insert(h, m[lo]));
            assert(ranges_wf(m.remove(lo)));
        } else if joins_left(m, lo, hi) {
            lemma_wf_after_replace(m, lo, hi, m[lo]);
        } else if joins_right(m, hi) {
            lemma_wf_after_replace(m, h, h, lo);
            assert(m.remove(h).insert(h, lo) =~= m.insert(h, lo));
        } else {
            lemma_wf_after_replace(m, hi, hi, lo);
            assert(m.remove(hi).insert(hi, lo) =~= m.insert(hi, lo));
        }
    }
}


/// Adding `[lo, hi)` succeeds only over free pages, and afterwards the covered pages
/// are exactly the ones covered before together with `[lo, hi)`.
pub proof fn lemma_insert_covers(m: Map<usize, usize>, lo: usize, hi: usize)
    requires
        ranges_wf(m),
        lo <= hi,
        !insert_blocked(m, lo, hi),
    ensures
        covered(m).disjoint(page_span(lo as int, hi as int)),
        covered(after_insert(m, lo, hi)) == covered(m).union(page_span(lo as int, hi as int)),
{
    let n = after_insert(m, lo, hi);
    let span = page_span(lo as int, hi as int);
    let h = first_end_from(m, hi);
    if has_end_from(m, hi) {
        lemma_first_end_exists(m, hi);
    }
    assert forall|p: int| covered(m).contains(p) implies !span.contains(p) by {
        let e = choose|e: usize| #[trigger] m.contains_key(e) && m[e] <= p < e;
        assert(!blocks(m[e], e, lo, hi));
    }
    // The stored range that the new one grows out of, and the page range it ends up as.
    let (ns, ne) = if joins_left(m, lo, hi) && joins_right(m, hi) {
        (m[lo], h)
    } else if joins_left(m, lo, hi) {
        (m[lo], hi)
    } else if joins_right(m, hi) {
        (lo, h)
    } else {
        (lo, hi)
    };
    assert(n.contains_key(ne) && n[ne] == ns);
    assert forall|e: usize| #[trigger] n.contains_key(e) && e != ne implies m.contains_key(e) && n[e] == m[e] by {
    }
    assert forall|p: int| n.contains_key(ne) && ns <= p < ne implies #[trigger] covered(m).union(span).contains(p) by {
        if p < lo {
            assert(m.contains_key(lo) && m[lo] <= p < lo);
        } else if p >= hi {
            assert(m.contains_key(h) && m[h] <= p < h);
        }
    }
    assert forall|p: int| #[trigger] covered(n).contains(p) implies covered(m).union(span).contains(p) by {
        let e = choose|e: usize| #[trigger] n.contains_key(e) && n[e] <= p < e;
        if e != ne {
            assert(m.contains_key(e) && m[e] <= p < e);
        }
    }
    assert forall|p: int| #[trigger] covered(m).union(span).contains(p) implies covered(n).contains(p) by {
        if span.contains(p) {
            assert(n.contains_key(ne) && n[ne] <= p < ne);
        } else {
            let e = choose|e: usize| #[trigger] m.contains_key(e) && m[e] <= p < e;
            if joins_left(m, lo, hi) && e == lo {
                assert(n.contains_key(ne) && n[ne] <= p < ne);
            } else if joins_right(m, hi) && e == h {
                assert(n.contains_key(ne) && n[ne] <= p < ne);
            } else {
                assert(n.contains_key(e) && n[e] <= p < e);
            }
        }
    }
    assert(covered(n) =~= covered(m).union(span));
}

/// Taking away `[lo, hi)` keeps the stored ranges well formed.
pub proof fn lemma_remove_wf(m: Map<usize, usize>, lo: usize, hi: usize)
    requires
        ranges_wf(m),
        lo <= hi,
    ensures
        ranges_wf(after_remove(m, lo, hi)),
{
    if remove_fits(m, lo, hi) {
        lemma_first_end_exists(m, hi);
        let h = first_end_from(m, hi);
        let l = m[h];
        if hi == h {
            if l < lo {
                lemma_wf_after_replace(m, h, lo, l);
            } else {
                assert forall|e1: usize, e2: usize|
                    #![trigger m.remove(h).contains_key(e1), m.remove(h).contains_key(e2)]
                    m.remove(h).contains_key(e1) && m.remove(h).contains_key(e2) && e1 < e2
                    implies e1 <= m.remove(h)[e2] by {
                    assert(m.contains_key(e1) && m.contains_key(e2));
                }
            }
        } else {
            lemma_wf_after_replace(m, h, h, hi);
            assert(m.remove(h).insert(h, hi) =~= m.insert(h, hi));
            if l < lo {
                lemma_wf_after_replace(m.insert(h, hi), lo, lo, l);
                assert(m.insert(h, hi).remove(lo).insert(lo, l) =~= m.insert(h, hi).insert(lo, l));
            }
        }
    }
}

/// Taking away `[lo, hi)` succeeds only when all its pages are covered, and afterwards
/// the covered pages are exactly the ones covered before, less `[lo, hi)`.
pub proof fn lemma_remove_uncovers(m: Map<usize, usize>, lo: usize, hi: usize)
    requires
        ranges_wf(m),
        lo <= hi,
        remove_fits(m, lo, hi),
    ensures
        page_span(lo as int, hi as int).subset_of(covered(m)),
        covered(after_remove(m, lo, hi)) == covered(m).difference(page_span(lo as int, hi as int)),
{
    lemma_first_end_exists(m, hi);
    let n = after_remove(m, lo, hi);
    let span = page_span(lo as int, hi as int);
    let h = first_end_from(m, hi);
    let l = m[h];
    assert forall|p: int| span.contains(p) implies #[trigger] covered(m).contains(p) by {
        assert(m.contains_key(h) && m[h] <= p < h);
    }
    assert forall|e: usize| #[trigger] n.contains_key(e) && e != h && e != lo implies m.contains_key(e) && n[e] == m[e] by {
    }
    assert forall|p: int| #[trigger] covered(n).contains(p) implies covered(m).difference(span).contains(p) by {
        let e = choose|e: usize| #[trigger] n.contains_key(e) && n[e] <= p < e;
        if e == h || (e == lo && l < lo) {
            assert(m.contains_key(h) && m[h] <= p < h);
        } else {
            assert(m.contains_key(e) && m[e] <= p < e);
            if e < h {
                assert(m.contains_key(e) && m.contains_key(h));
            } else {
                assert(m.contains_key(e) && m.contains_key(h));
            }
        }
    }
    assert forall|p: int| #[trigger] covered(m).difference(span).contains(p) implies covered(n).contains(p) by {
        let e = choose|e: usize| #[trigger] m.contains_key(e) && m[e] <= p < e;
        if e == h {
            if p < lo {
                assert(n.contains_key(lo) && n[lo] <= p < lo);
            } else {
                assert(n.contains_key(h) && n[h] <= p < h);
            }
        } else {
            if e == lo {
                assert(m.contains_key(e) && m.contains_key(h));
            }
            assert(n.contains_key(e) && n[e] <= p < e);
        }
    }
    assert(covered(n) =~= covered(m).difference(span));
}

/// Taking away a non-empty range right after adding it succeeds and gives back the
/// pages covered before; when the added range joined no neighbour, it gives back the
/// very same stored ranges.
pub proof fn lemma_insert_then_remove(m: Map<usize, usize>, lo: usize, hi: usize)
    requires
        ranges_wf(m),
        lo < hi,
        !insert_blocked(m, lo, hi),
    ensures
        remove_fits(after_insert(m, lo, hi), lo, hi),
        covered(after_remove(after_insert(m, lo, hi), lo, hi)) == covered(m),
        !joins_left(m, lo, hi) && !joins_right(m, hi) ==> after_remove(after_insert(m, lo, hi), lo, hi) == m,
{
    let n = after_insert(m, lo, hi);
    let h = first_end_from(m, hi);
    if has_end_from(m, hi) {
        lemma_first_end_exists(m, hi);
    }
    lemma_insert_wf(m, lo, hi);
    lemma_insert_covers(m, lo, hi);
    let ne = if joins_right(m, hi) { h } else { hi };
    assert forall|k: usize| #[trigger] m.contains_key(k) && hi <= k implies hi <= m[k] by {
        assert(!blocks(m[k], k, lo, hi));
    }
    assert forall|k: usize| #[trigger] m.contains_key(k) && lo < k && k < hi implies false by {
        assert(blocks(m[k], k, lo, hi));
    }
    assert(is_first_end_from(n, hi, ne)) by {
        assert forall|j: usize| #[trigger] n.contains_key(j) && hi <= j implies ne <= j by {
            if j != ne {
                assert(m.contains_key(j));
            }
        }
    }
    lemma_first_end_from(n, hi, ne);
    assert(remove_fits(n, lo, hi));
    lemma_remove_uncovers(n, lo, hi);
    let span = page_span(lo as int, hi as int);
    assert(covered(n).difference(span) =~= covered(m));
    if !joins_left(m, lo, hi) && !joins_right(m, hi) {
        if m.contains_key(hi) {
            assert(is_first_end_from(m, hi, hi));
            lemma_first_end_from(m, hi, hi);
        }
        assert(after_remove(n, lo, hi) =~= m);
    }
}

/// Adding the same non-empty range a second time fails.
pub proof fn lemma_insert_twice_blocked(m: Map<usize, usize>, lo: usize, hi: usize)
    requires
        ranges_wf(m),
        lo < hi,
        !insert_blocked(m, lo, hi),
    ensures
        insert_blocked(after_insert(m, lo, hi), lo, hi),
{
    let n = after_insert(m, lo, hi);
    let h = first_end_from(m, hi);
    if has_end_from(m, hi) {
        lemma_first_end_exists(m, hi);
    }
    let ne = if joins_right(m, hi) { h } else { hi };
    assert(n.contains_key(ne) && blocks(n[ne], ne, lo, hi));
}

/// Taking away the same non-empty range a second time fails.
pub proof fn lemma_remove_twice_fails(m: Map<usize, usize>, lo: usize, hi: usize)
    requires
        ranges_wf(m),
        lo < hi,
        remove_fits(m, lo, hi),
    ensures
        !remove_fits(after_remove(m, lo, hi), lo, hi),
{
    lemma_first_end_exists(m, hi);
    lemma_remove_wf(m, lo, hi);
    let n = after_remove(m, lo, hi);
    let h = first_end_from(m, hi);
    if has_end_from(n, hi) {
        lemma_first_end_exists(n, hi);
        let f = first_end_from(n, hi);
        if f != h {
            assert(m.contains_key(f) && m.contains_key(h));
        }
    }
}

} // verus!
