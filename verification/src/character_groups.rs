//! Character sets and their intersection.
//!
//! A `CharacterGroups` is a set of code points described by inclusive ranges
//! (optionally negated) plus a set of unicode property escapes. The escapes
//! are kept as a list in first-seen order because the analyzer compares their
//! presence and sign, not a hash ordering.
use crate::our_range::{
    in_any, in_range, intersect_ranges, range_ok, spec_intersect_ranges, spec_subtract_ranges,
    subtract_ranges, OurRange,
};
use vstd::prelude::*;

verus! {

/// The keys of a list of entries.
pub open spec fn entry_keys(entries: Seq<(String, bool)>) -> Seq<Seq<char>> {
    entries.map_values(|e: (String, bool)| e.0@)
}

/// The position of the first entry with key `key`, if any.
pub open spec fn first_with_key(entries: Seq<(String, bool)>, key: Seq<char>) -> Option<int> {
    if exists|i: int| 0 <= i < entries.len() && entries[i].0@ == key {
        Some(choose|i: int| 0 <= i < entries.len() && entries[i].0@ == key && forall|j: int| 0 <= j < i ==> entries[j].0@ != key)
    } else {
        None
    }
}

/// Property escape names with whether each is negated, in first-seen order.
#[derive(Clone, Debug, PartialEq)]
pub struct EscapeMap {
    /// The entries, in first-seen order.
    pub entries: Vec<(String, bool)>,
}

impl EscapeMap {
    /// Returns an empty escape map.
    pub fn new() -> (res: Self)
        ensures
            res.entries@.len() == 0,
    {
        EscapeMap { entries: Vec::new() }
    }

    /// Builds a map with a single entry.
    pub fn single(key: String, negated: bool) -> (res: Self)
        ensures
            res.entries@ == seq![(key, negated)],
    {
        let mut entries: Vec<(String, bool)> = Vec::new();
        entries.push((key, negated));
        EscapeMap { entries }
    }

    /// Finds the first entry with key `key`.
    fn position(&self, key: &String) -> (res: Option<usize>)
        ensures
            match res {
                Some(i) => i < self.entries@.len() && self.entries@[i as int].0@ == key@ && forall|j: int|
                    0 <= j < i ==> self.entries@[j].0@ != key@,
                None => forall|j: int| 0 <= j < self.entries@.len() ==> self.entries@[j].0@ != key@,
            },
    {
        let mut i: usize = 0;
        while i < self.entries.len()
            invariant
                i <= self.entries@.len(),
                forall|j: int| 0 <= j < i ==> self.entries@[j].0@ != key@,
            decreases self.entries.len() - i,
        {
            if self.entries[i].0 == *key {
                return Some(i);
            }
            i += 1;
        }
        None
    }

    /// Inserts or overwrites an entry, preserving first-seen order.
    pub fn set(&mut self, key: String, negated: bool)
        ensures
            match first_with_key(old(self).entries@, key@) {
                Some(i) => final(self).entries@ == old(self).entries@.update(i, (old(self).entries@[i].0, negated)),
                None => final(self).entries@ == old(self).entries@.push((key, negated)),
            },
    {
        match self.position(&key) {
            Some(i) => {
                proof {
                    assert(exists|k: int| 0 <= k < self.entries@.len() && self.entries@[k].0@ == key@) by {
                        assert(self.entries@[i as int].0@ == key@);
                    }
                    let c = choose|k: int| 0 <= k < self.entries@.len() && self.entries@[k].0@ == key@ && forall|j: int| 0 <= j < k ==> self.entries@[j].0@ != key@;
                    assert(c == i as int);
                }
                let existing = self.entries[i].0.clone();
                self.entries.set(i, (existing, negated));
            },
            None => {
                self.entries.push((key, negated));
            },
        }
    }

    /// Returns the negated flag for `key`, if present.
    pub fn get(&self, key: &str) -> (res: Option<bool>)
        ensures
            res == match first_with_key(self.entries@, key@) {
                Some(i) => Some(self.entries@[i].1),
                None => None::<bool>,
            },
    {
        let owned = key.to_owned();
        match self.position(&owned) {
            Some(i) => {
                proof {
                    assert(self.entries@[i as int].0@ == key@);
                    let c = choose|k: int| 0 <= k < self.entries@.len() && self.entries@[k].0@ == key@ && forall|j: int| 0 <= j < k ==> self.entries@[j].0@ != key@;
                    assert(c == i as int);
                }
                Some(self.entries[i].1)
            },
            None => None,
        }
    }

    /// Returns the number of entries.
    pub fn len(&self) -> (res: usize)
        ensures
            res == self.entries@.len(),
    {
        self.entries.len()
    }

    /// Returns `true` when there are no entries.
    pub fn is_empty(&self) -> (res: bool)
        ensures
            res == (self.entries@.len() == 0),
    {
        self.entries.len() == 0
    }
}


/// A set of code points.
#[derive(Clone, Debug, PartialEq)]
pub struct CharacterGroups {
    /// When `true`, `ranges` describes the code points left out.
    pub ranges_negated: bool,
    /// Inclusive code point ranges.
    pub ranges: Vec<OurRange>,
    /// Unicode property escapes carried alongside the ranges.
    pub unicode_property_escapes: EscapeMap,
}

/// The ranges of the set, with their sign, hold the code point `c`.
pub open spec fn ranges_hold(g: CharacterGroups, c: int) -> bool {
    if g.ranges_negated {
        !in_any(g.ranges@, c)
    } else {
        in_any(g.ranges@, c)
    }
}

/// The set certainly matches no character: its ranges are not negated and
/// empty, and it has no property escape.
pub open spec fn spec_is_empty_character_groups(g: CharacterGroups) -> bool {
    !g.ranges_negated && g.ranges@.len() == 0 && g.unicode_property_escapes.entries@.len() == 0
}

/// Returns `true` when the set certainly matches no character. A negated
/// empty range list matches everything, and any property escape keeps the
/// set non-empty.
pub fn is_empty_character_groups(group: &CharacterGroups) -> (res: bool)
    ensures
        res == spec_is_empty_character_groups(*group),
{
    !group.ranges_negated && group.ranges.len() == 0 && group.unicode_property_escapes.is_empty()
}

/// The overlaps of `r` with each of `b`, in order.
pub open spec fn intersections_with(r: OurRange, b: Seq<OurRange>) -> Seq<OurRange>
    decreases b.len(),
{
    if b.len() == 0 {
        Seq::empty()
    } else {
        let rest = intersections_with(r, b.drop_last());
        match spec_intersect_ranges(r, b.last()) {
            Some(x) => rest.push(x),
            None => rest,
        }
    }
}

/// The overlaps of each range of `a` with each range of `b`, `a` outermost.
pub open spec fn pairwise_intersections(a: Seq<OurRange>, b: Seq<OurRange>) -> Seq<OurRange>
    decreases a.len(),
{
    if a.len() == 0 {
        Seq::empty()
    } else {
        pairwise_intersections(a.drop_last(), b) + intersections_with(a.last(), b)
    }
}

/// Each range of `rs` without the integers of `t`, in order.
pub open spec fn narrowed(rs: Seq<OurRange>, t: OurRange) -> Seq<OurRange>
    decreases rs.len(),
{
    if rs.len() == 0 {
        Seq::empty()
    } else {
        narrowed(rs.drop_last(), t) + spec_subtract_ranges(rs.last(), t)
    }
}

/// `rs` narrowed by each range of `subs` in turn.
pub open spec fn subtract_all(rs: Seq<OurRange>, subs: Seq<OurRange>) -> Seq<OurRange>
    decreases subs.len(),
{
    if subs.len() == 0 {
        rs
    } else {
        narrowed(subtract_all(rs, subs.drop_last()), subs.last())
    }
}

pub proof fn lemma_in_any_concat(a: Seq<OurRange>, b: Seq<OurRange>, c: int)
    ensures
        in_any(a + b, c) <==> in_any(a, c) || in_any(b, c),
{
    if in_any(a + b, c) {
        let i = choose|i: int| 0 <= i < (a + b).len() && in_range(#[trigger] (a + b)[i], c);
        if i < a.len() {
            assert(in_range(a[i], c));
        } else {
            assert(in_range(b[i - a.len()], c));
        }
    }
    if in_any(a, c) {
        let i = choose|i: int| 0 <= i < a.len() && in_range(#[trigger] a[i], c);
        assert(in_range((a + b)[i], c));
    }
    if in_any(b, c) {
        let i = choose|i: int| 0 <= i < b.len() && in_range(#[trigger] b[i], c);
        assert(in_range((a + b)[a.len() + i], c));
    }
}

pub proof fn lemma_in_any_push(a: Seq<OurRange>, x: OurRange, c: int)
    ensures
        in_any(a.push(x), c) <==> in_any(a, c) || in_range(x, c),
{
    lemma_in_any_concat(a, seq![x], c);
    assert(a.push(x) =~= a + seq![x]);
    if in_range(x, c) {
        assert(in_range(seq![x][0], c));
    }
}

proof fn lemma_in_any_drop_last(a: Seq<OurRange>, c: int)
    requires
        a.len() > 0,
    ensures
        in_any(a, c) <==> in_any(a.drop_last(), c) || in_range(a.last(), c),
{
    lemma_in_any_push(a.drop_last(), a.last(), c);
    assert(a.drop_last().push(a.last()) =~= a);
}

proof fn lemma_intersections_with(r: OurRange, b: Seq<OurRange>, c: int)
    ensures
        in_any(intersections_with(r, b), c) <==> in_range(r, c) && in_any(b, c),
    decreases b.len(),
{
    if b.len() > 0 {
        lemma_intersections_with(r, b.drop_last(), c);
        lemma_in_any_drop_last(b, c);
        match spec_intersect_ranges(r, b.last()) {
            Some(x) => {
                lemma_in_any_push(intersections_with(r, b.drop_last()), x, c);
            },
            None => {},
        }
    }
}

proof fn lemma_pairwise_intersections(a: Seq<OurRange>, b: Seq<OurRange>, c: int)
    ensures
        in_any(pairwise_intersections(a, b), c) <==> in_any(a, c) && in_any(b, c),
    decreases a.len(),
{
    if a.len() > 0 {
        lemma_pairwise_intersections(a.drop_last(), b, c);
        lemma_intersections_with(a.last(), b, c);
        lemma_in_any_concat(pairwise_intersections(a.drop_last(), b), intersections_with(a.last(), b), c);
        lemma_in_any_drop_last(a, c);
    }
}

proof fn lemma_narrowed(rs: Seq<OurRange>, t: OurRange, c: int)
    requires
        range_ok(t),
    ensures
        in_any(narrowed(rs, t), c) <==> in_any(rs, c) && !in_range(t, c),
    decreases rs.len(),
{
    if rs.len() > 0 {
        lemma_narrowed(rs.drop_last(), t, c);
        lemma_subtract_semantics(rs.last(), t, c);
        lemma_in_any_concat(narrowed(rs.drop_last(), t), spec_subtract_ranges(rs.last(), t), c);
        lemma_in_any_drop_last(rs, c);
    }
}

/// The parts of a subtraction hold the integers of the source outside the
/// subtracted range.
proof fn lemma_subtract_semantics(source: OurRange, t: OurRange, c: int)
    requires
        range_ok(t),
    ensures
        in_any(spec_subtract_ranges(source, t), c) <==> in_range(source, c) && !in_range(t, c),
{
    let res = spec_subtract_ranges(source, t);
    if in_range(source, c) && !in_range(t, c) {
        if !crate::our_range::at_most(t.0, c) {
            assert(in_range(res[0], c));
        } else {
            let k = res.len() - 1;
            assert(in_range(res[k], c));
        }
    }
}

proof fn lemma_subtract_all(rs: Seq<OurRange>, subs: Seq<OurRange>, c: int)
    requires
        forall|i: int| 0 <= i < subs.len() ==> range_ok(#[trigger] subs[i]),
    ensures
        in_any(subtract_all(rs, subs), c) <==> in_any(rs, c) && !in_any(subs, c),
    decreases subs.len(),
{
    if subs.len() > 0 {
        lemma_subtract_all(rs, subs.drop_last(), c);
        assert(range_ok(subs[subs.len() - 1]));
        lemma_narrowed(subtract_all(rs, subs.drop_last()), subs.last(), c);
        lemma_in_any_drop_last(subs, c);
    }
}

/// The ranges and sign of the intersection of two sets: the pairwise
/// overlaps when neither is negated; the positive one's ranges narrowed by
/// the negated one's when one is; the negated union when both are.
pub open spec fn intersected_ranges(a: CharacterGroups, b: CharacterGroups) -> (bool, Seq<OurRange>) {
    if !a.ranges_negated {
        if !b.ranges_negated {
            (false, pairwise_intersections(a.ranges@, b.ranges@))
        } else {
            (false, subtract_all(a.ranges@, b.ranges@))
        }
    } else if !b.ranges_negated {
        (false, subtract_all(b.ranges@, a.ranges@))
    } else {
        (true, a.ranges@ + b.ranges@)
    }
}

/// Every range of the set leaves room to add or subtract one.
pub open spec fn groups_ok(g: CharacterGroups) -> bool {
    forall|i: int| 0 <= i < g.ranges@.len() ==> range_ok(#[trigger] g.ranges@[i])
}

fn copy_ranges(v: &Vec<OurRange>) -> (res: Vec<OurRange>)
    ensures
        res@ == v@,
{
    let mut out: Vec<OurRange> = Vec::new();
    let mut i: usize = 0;
    while i < v.len()
        invariant
            i <= v@.len(),
            out@ == v@.take(i as int),
        decreases v.len() - i,
    {
        out.push(v[i]);
        proof {
            assert(v@.take(i + 1) =~= v@.take(i as int).push(v@[i as int]));
        }
        i += 1;
    }
    proof {
        assert(v@.take(i as int) =~= v@);
    }
    out
}

/// Returns `rs` narrowed by each range of `subs` in turn.
fn subtract_each(rs: &Vec<OurRange>, subs: &Vec<OurRange>) -> (res: Vec<OurRange>)
    requires
        forall|i: int| 0 <= i < subs@.len() ==> range_ok(#[trigger] subs@[i]),
    ensures
        res@ == subtract_all(rs@, subs@),
{
    let mut current = copy_ranges(rs);
    let mut k: usize = 0;
    while k < subs.len()
        invariant
            k <= subs@.len(),
            forall|i: int| 0 <= i < subs@.len() ==> range_ok(#[trigger] subs@[i]),
            current@ == subtract_all(rs@, subs@.take(k as int)),
        decreases subs.len() - k,
    {
        let t = subs[k];
        let mut next: Vec<OurRange> = Vec::new();
        let mut j: usize = 0;
        while j < current.len()
            invariant
                j <= current@.len(),
                range_ok(t),
                next@ == narrowed(current@.take(j as int), t),
            decreases current.len() - j,
        {
            let mut parts = subtract_ranges(current[j], t);
            proof {
                assert(current@.take(j + 1).drop_last() =~= current@.take(j as int));
            }
            next.append(&mut parts);
            j += 1;
        }
        proof {
            assert(current@.take(j as int) =~= current@);
            assert(subs@.take(k + 1).drop_last() =~= subs@.take(k as int));
        }
        current = next;
        k += 1;
    }
    proof {
        assert(subs@.take(k as int) =~= subs@);
    }
    current
}

/// Returns the overlaps of each range of `a` with each range of `b`.
fn intersect_each(a: &Vec<OurRange>, b: &Vec<OurRange>) -> (res: Vec<OurRange>)
    ensures
        res@ == pairwise_intersections(a@, b@),
{
    let mut out: Vec<OurRange> = Vec::new();
    let mut i: usize = 0;
    while i < a.len()
        invariant
            i <= a@.len(),
            out@ == pairwise_intersections(a@.take(i as int), b@),
        decreases a.len() - i,
    {
        let ghost head = out@;
        let mut j: usize = 0;
        while j < b.len()
            invariant
                i < a@.len(),
                j <= b@.len(),
                head == pairwise_intersections(a@.take(i as int), b@),
                out@ == head + intersections_with(a@[i as int], b@.take(j as int)),
            decreases b.len() - j,
        {
            proof {
                assert(b@.take(j + 1).drop_last() =~= b@.take(j as int));
            }
            match intersect_ranges(a[i], b[j]) {
                Some(x) => {
                    out.push(x);
                    proof {
                        assert(head + intersections_with(a@[i as int], b@.take(j + 1)) =~= (head + intersections_with(
                            a@[i as int],
                            b@.take(j as int),
                        )).push(x));
                    }
                },
                None => {},
            }
            j += 1;
        }
        proof {
            assert(b@.take(j as int) =~= b@);
            assert(a@.take(i + 1).drop_last() =~= a@.take(i as int));
        }
        i += 1;
    }
    proof {
        assert(a@.take(i as int) =~= a@);
    }
    out
}

/// Returns the negation flag and ranges of the intersection of two sets.
/// Their ranges hold exactly the code points that both sets' ranges hold.
pub fn intersect_ranges_of(a: &CharacterGroups, b: &CharacterGroups) -> (res: (bool, Vec<OurRange>))
    requires
        groups_ok(*a),
        groups_ok(*b),
    ensures
        (res.0, res.1@) == intersected_ranges(*a, *b),
        forall|c: int|
            (if res.0 {
                !in_any(res.1@, c)
            } else {
                in_any(res.1@, c)
            }) <==> ranges_hold(*a, c) && ranges_hold(*b, c),
{
    let res = if !a.ranges_negated {
        if !b.ranges_negated {
            (false, intersect_each(&a.ranges, &b.ranges))
        } else {
            (false, subtract_each(&a.ranges, &b.ranges))
        }
    } else if !b.ranges_negated {
        (false, subtract_each(&b.ranges, &a.ranges))
    } else {
        let mut ranges = copy_ranges(&a.ranges);
        let mut more = copy_ranges(&b.ranges);
        ranges.append(&mut more);
        (true, ranges)
    };
    proof {
        assert forall|c: int|
            (if res.0 {
                !in_any(res.1@, c)
            } else {
                in_any(res.1@, c)
            }) <==> ranges_hold(*a, c) && ranges_hold(*b, c) by {
            if !a.ranges_negated {
                if !b.ranges_negated {
                    lemma_pairwise_intersections(a.ranges@, b.ranges@, c);
                } else {
                    lemma_subtract_all(a.ranges@, b.ranges@, c);
                }
            } else if !b.ranges_negated {
                lemma_subtract_all(b.ranges@, a.ranges@, c);
            } else {
                lemma_in_any_concat(a.ranges@, b.ranges@, c);
            }
        }
    }
    res
}


/// The flag of `key` in a list of entries: that of its first entry.
pub open spec fn lookup(entries: Seq<(String, bool)>, key: Seq<char>) -> Option<bool> {
    match first_with_key(entries, key) {
        Some(i) => Some(entries[i].1),
        None => None,
    }
}

/// The flag an escape keeps in an intersection: the one side's flag when
/// only one side has it, the shared flag when both agree, and none when they
/// disagree.
pub open spec fn merged_flag(x: Option<bool>, y: Option<bool>) -> Option<bool> {
    match (x, y) {
        (Some(a), None) => Some(a),
        (None, Some(b)) => Some(b),
        (Some(a), Some(b)) => if a == b {
            Some(a)
        } else {
            None
        },
        _ => None,
    }
}

/// The keys of a list in first-seen order, each once.
pub open spec fn first_seen(s: Seq<Seq<char>>) -> Seq<Seq<char>>
    decreases s.len(),
{
    if s.len() == 0 {
        Seq::empty()
    } else {
        let rest = first_seen(s.drop_last());
        if rest.contains(s.last()) {
            rest
        } else {
            rest.push(s.last())
        }
    }
}

/// The merged escapes of two lists for the given keys, in key order.
pub open spec fn merged_escapes(keys: Seq<Seq<char>>, a: Seq<(String, bool)>, b: Seq<(String, bool)>) -> Seq<(Seq<char>, bool)>
    decreases keys.len(),
{
    if keys.len() == 0 {
        Seq::empty()
    } else {
        let rest = merged_escapes(keys.drop_last(), a, b);
        match merged_flag(lookup(a, keys.last()), lookup(b, keys.last())) {
            Some(v) => rest.push((keys.last(), v)),
            None => rest,
        }
    }
}

/// A list of entries as plain values.
pub open spec fn escapes_view(entries: Seq<(String, bool)>) -> Seq<(Seq<char>, bool)> {
    entries.map_values(|e: (String, bool)| (e.0@, e.1))
}

proof fn lemma_merged_keys(keys: Seq<Seq<char>>, a: Seq<(String, bool)>, b: Seq<(String, bool)>, k: Seq<char>)
    requires
        !keys.contains(k),
    ensures
        forall|i: int| 0 <= i < merged_escapes(keys, a, b).len() ==> (#[trigger] merged_escapes(keys, a, b)[i]).0 != k,
    decreases keys.len(),
{
    if keys.len() > 0 {
        assert(!keys.drop_last().contains(k)) by {
            if keys.drop_last().contains(k) {
                let j = choose|j: int| 0 <= j < keys.drop_last().len() && keys.drop_last()[j] == k;
                assert(keys[j] == k);
            }
        }
        lemma_merged_keys(keys.drop_last(), a, b, k);
        assert(keys.last() != k) by {
            assert(keys[keys.len() - 1] == keys.last());
        }
        let rest = merged_escapes(keys.drop_last(), a, b);
        let all = merged_escapes(keys, a, b);
        assert forall|i: int| 0 <= i < all.len() implies (#[trigger] all[i]).0 != k by {
            if i < rest.len() {
                assert(all[i] == rest[i]);
            }
        }
    }
}

fn contains_key(keys: &Vec<String>, key: &String) -> (res: bool)
    ensures
        res == keys@.map_values(|s: String| s@).contains(key@),
{
    let ghost view = keys@.map_values(|s: String| s@);
    let mut i: usize = 0;
    while i < keys.len()
        invariant
            i <= keys@.len(),
            view == keys@.map_values(|s: String| s@),
            forall|j: int| 0 <= j < i ==> view[j] != key@,
        decreases keys.len() - i,
    {
        if keys[i] == *key {
            proof {
                assert(view[i as int] == key@);
            }
            return true;
        }
        i += 1;
    }
    false
}

/// Returns the property escapes of the intersection of two sets: each key of
/// either side once, in first-seen order, with the flag `merged_flag` gives
/// it, left out when the two sides disagree.
pub fn intersect_escapes(a: &EscapeMap, b: &EscapeMap) -> (res: EscapeMap)
    ensures
        escapes_view(res.entries@) == merged_escapes(
            first_seen(entry_keys(a.entries@) + entry_keys(b.entries@)),
            a.entries@,
            b.entries@,
        ),
{
    let ghost all = entry_keys(a.entries@) + entry_keys(b.entries@);
    let mut all_keys: Vec<String> = Vec::new();
    let na = a.entries.len();
    let mut i: usize = 0;
    while i < na
        invariant
            i <= na,
            na == a.entries@.len(),
            all == entry_keys(a.entries@) + entry_keys(b.entries@),
            all_keys@.map_values(|s: String| s@) == first_seen(all.take(i as int)),
        decreases na - i,
    {
        let key = &a.entries[i].0;
        proof {
            assert(all[i as int] == key@);
            assert(all.take(i + 1).drop_last() =~= all.take(i as int));
            assert(all.take(i + 1).last() == key@);
        }
        if !contains_key(&all_keys, key) {
            let ghost before = all_keys@;
            all_keys.push(key.clone());
            proof {
                assert(all_keys@.map_values(|s: String| s@) =~= before.map_values(|s: String| s@).push(key@));
            }
        }
        i += 1;
    }
    let mut j: usize = 0;
    while j < b.entries.len()
        invariant
            j <= b.entries@.len(),
            na == a.entries@.len(),
            all == entry_keys(a.entries@) + entry_keys(b.entries@),
            all_keys@.map_values(|s: String| s@) == first_seen(all.take(na + j)),
        decreases b.entries.len() - j,
    {
        let key = &b.entries[j].0;
        proof {
            assert(all[na + j] == key@);
            assert(all.take(na + j + 1).drop_last() =~= all.take(na + j));
            assert(all.take(na + j + 1).last() == key@);
        }
        if !contains_key(&all_keys, key) {
            let ghost before = all_keys@;
            all_keys.push(key.clone());
            proof {
                assert(all_keys@.map_values(|s: String| s@) =~= before.map_values(|s: String| s@).push(key@));
            }
        }
        j += 1;
    }
    proof {
        assert(all.take(na + j) =~= all);
    }
    let ghost keys = first_seen(all);
    proof {
        lemma_first_seen_unique(all);
    }
    let mut new_escapes = EscapeMap::new();
    let mut k: usize = 0;
    while k < all_keys.len()
        invariant
            k <= all_keys@.len(),
            all_keys@.map_values(|s: String| s@) == keys,
            keys.no_duplicates(),
            escapes_view(new_escapes.entries@) == merged_escapes(keys.take(k as int), a.entries@, b.entries@),
        decreases all_keys.len() - k,
    {
        let key = &all_keys[k];
        proof {
            assert(keys[k as int] == key@);
            assert(keys.take(k + 1).drop_last() =~= keys.take(k as int));
            assert(keys.take(k + 1).last() == key@);
            assert(!keys.take(k as int).contains(key@)) by {
                if keys.take(k as int).contains(key@) {
                    let j = choose|j: int| 0 <= j < k && keys.take(k as int)[j] == key@;
                    assert(keys[j] == keys[k as int]);
                }
            }
            lemma_merged_keys(keys.take(k as int), a.entries@, b.entries@, key@);
            assert(first_with_key(new_escapes.entries@, key@) is None) by {
                if exists|i: int| 0 <= i < new_escapes.entries@.len() && new_escapes.entries@[i].0@ == key@ {
                    let i = choose|i: int| 0 <= i < new_escapes.entries@.len() && new_escapes.entries@[i].0@ == key@;
                    assert(escapes_view(new_escapes.entries@)[i].0 == key@);
                }
            }
        }
        let a_escape = a.get(key.as_str());
        let b_escape = b.get(key.as_str());
        let ghost before = new_escapes.entries@;
        let merged = match (a_escape, b_escape) {
            (Some(x), None) => Some(x),
            (None, Some(y)) => Some(y),
            (Some(x), Some(y)) => if x == y {
                Some(x)
            } else {
                None
            },
            _ => None,
        };
        match merged {
            Some(v) => {
                new_escapes.set(key.clone(), v);
                proof {
                    assert(escapes_view(new_escapes.entries@) =~= escapes_view(before).push((key@, v)));
                }
            },
            None => {},
        }
        k += 1;
    }
    proof {
        assert(keys.take(k as int) =~= keys);
    }
    new_escapes
}

proof fn lemma_first_seen_unique(s: Seq<Seq<char>>)
    ensures
        first_seen(s).no_duplicates(),
    decreases s.len(),
{
    if s.len() > 0 {
        lemma_first_seen_unique(s.drop_last());
        let rest = first_seen(s.drop_last());
        if !rest.contains(s.last()) {
            assert forall|i: int, j: int| 0 <= i < j < rest.push(s.last()).len() implies rest.push(s.last())[i]
                != rest.push(s.last())[j] by {
                if j == rest.len() {
                    assert(rest[i] != s.last()) by {
                        if rest[i] == s.last() {
                            assert(rest.contains(s.last()));
                        }
                    }
                }
            }
        }
    }
}

/// Returns the intersection of two character sets: code points that both
/// hold, with the property escapes merged by `intersect_escapes`.
pub fn intersect_character_groups(a: &CharacterGroups, b: &CharacterGroups) -> (res: CharacterGroups)
    requires
        groups_ok(*a),
        groups_ok(*b),
    ensures
        (res.ranges_negated, res.ranges@) == intersected_ranges(*a, *b),
        forall|c: int| ranges_hold(res, c) <==> ranges_hold(*a, c) && ranges_hold(*b, c),
        escapes_view(res.unicode_property_escapes.entries@) == merged_escapes(
            first_seen(entry_keys(a.unicode_property_escapes.entries@) + entry_keys(b.unicode_property_escapes.entries@)),
            a.unicode_property_escapes.entries@,
            b.unicode_property_escapes.entries@,
        ),
{
    let (new_negated, new_ranges) = intersect_ranges_of(a, b);
    let new_escapes = intersect_escapes(&a.unicode_property_escapes, &b.unicode_property_escapes);
    CharacterGroups { ranges: new_ranges, ranges_negated: new_negated, unicode_property_escapes: new_escapes }
}

} // verus!
