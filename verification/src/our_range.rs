//! Inclusive integer ranges with infinite endpoints.
//!
//! An endpoint is an integer or one of the two infinities, so that a range
//! inverted over all integers keeps its open ends. A range `(start, end)`
//! holds the integers `c` with `start <= c <= end`.
use std::collections::HashSet;
use vstd::prelude::*;
use vstd::std_specs::hash::spec_hash_keys_iter;
use vstd::std_specs::iter::IteratorSpec;

verus! {

/// An endpoint of a range.
#[derive(Clone, Copy, Debug, PartialEq, Eq, Structural)]
pub enum Bound {
    /// Below every integer.
    NegInfinity,
    /// An integer.
    Finite(i64),
    /// Above every integer.
    PosInfinity,
}

/// An inclusive range `(start, end)`.
pub type OurRange = (Bound, Bound);

/// `b <= c`.
pub open spec fn at_most(b: Bound, c: int) -> bool {
    match b {
        Bound::NegInfinity => true,
        Bound::Finite(x) => x <= c,
        Bound::PosInfinity => false,
    }
}

/// `c <= b`.
pub open spec fn at_least(b: Bound, c: int) -> bool {
    match b {
        Bound::NegInfinity => false,
        Bound::Finite(x) => c <= x,
        Bound::PosInfinity => true,
    }
}

/// The range holds the integer `c`.
pub open spec fn in_range(r: OurRange, c: int) -> bool {
    at_most(r.0, c) && at_least(r.1, c)
}

/// One of the ranges holds `c`.
pub open spec fn in_any(rs: Seq<OurRange>, c: int) -> bool {
    exists|i: int| 0 <= i < rs.len() && in_range(#[trigger] rs[i], c)
}

/// `a <= b`, the infinities included.
pub open spec fn spec_bound_le(a: Bound, b: Bound) -> bool {
    match (a, b) {
        (Bound::NegInfinity, _) => true,
        (_, Bound::PosInfinity) => true,
        (Bound::Finite(x), Bound::Finite(y)) => x <= y,
        _ => false,
    }
}

/// An integer endpoint leaves room to add or subtract one.
pub open spec fn bound_ok(b: Bound) -> bool {
    b matches Bound::Finite(x) ==> i64::MIN < x < i64::MAX
}

/// Both endpoints leave room to add or subtract one.
pub open spec fn range_ok(r: OurRange) -> bool {
    bound_ok(r.0) && bound_ok(r.1)
}

/// `b - 1`; the infinities stay.
pub open spec fn spec_pred(b: Bound) -> Bound {
    match b {
        Bound::Finite(x) => Bound::Finite((x - 1) as i64),
        _ => b,
    }
}

/// `b + 1`; the infinities stay.
pub open spec fn spec_succ(b: Bound) -> Bound {
    match b {
        Bound::Finite(x) => Bound::Finite((x + 1) as i64),
        _ => b,
    }
}

/// The smaller of two endpoints.
pub open spec fn spec_bound_min(a: Bound, b: Bound) -> Bound {
    if spec_bound_le(b, a) {
        b
    } else {
        a
    }
}

/// The larger of two endpoints.
pub open spec fn spec_bound_max(a: Bound, b: Bound) -> Bound {
    if spec_bound_le(a, b) {
        b
    } else {
        a
    }
}

/// Returns `a <= b`.
pub fn bound_le(a: Bound, b: Bound) -> (res: bool)
    ensures
        res == spec_bound_le(a, b),
{
    match (a, b) {
        (Bound::NegInfinity, _) => true,
        (_, Bound::PosInfinity) => true,
        (Bound::Finite(x), Bound::Finite(y)) => x <= y,
        _ => false,
    }
}

/// Returns `b - 1`.
pub fn bound_pred(b: Bound) -> (res: Bound)
    requires
        bound_ok(b),
    ensures
        res == spec_pred(b),
{
    match b {
        Bound::Finite(x) => Bound::Finite(x - 1),
        _ => b,
    }
}

/// Returns `b + 1`.
pub fn bound_succ(b: Bound) -> (res: Bound)
    requires
        bound_ok(b),
    ensures
        res == spec_succ(b),
{
    match b {
        Bound::Finite(x) => Bound::Finite(x + 1),
        _ => b,
    }
}

/// Returns the smaller of two endpoints.
pub fn bound_min(a: Bound, b: Bound) -> (res: Bound)
    ensures
        res == spec_bound_min(a, b),
{
    if bound_le(b, a) {
        b
    } else {
        a
    }
}

/// Returns the larger of two endpoints.
pub fn bound_max(a: Bound, b: Bound) -> (res: Bound)
    ensures
        res == spec_bound_max(a, b),
{
    if bound_le(a, b) {
        b
    } else {
        a
    }
}

/// The parts of `source` that `to_subtract` does not cover: the part below
/// it, then the part above it.
pub open spec fn spec_subtract_ranges(source: OurRange, to_subtract: OurRange) -> Seq<OurRange> {
    let below: Seq<OurRange> = if !spec_bound_le(to_subtract.0, source.0) {
        seq![(source.0, spec_bound_min(spec_pred(to_subtract.0), source.1))]
    } else {
        Seq::empty()
    };
    let above: Seq<OurRange> = if !spec_bound_le(source.1, to_subtract.1) {
        seq![(spec_bound_max(spec_succ(to_subtract.1), source.0), source.1)]
    } else {
        Seq::empty()
    };
    below + above
}

/// Returns the parts of `source` that are not covered by `to_subtract`;
/// together they hold exactly the integers of `source` outside `to_subtract`.
pub fn subtract_ranges(source: OurRange, to_subtract: OurRange) -> (res: Vec<OurRange>)
    requires
        range_ok(to_subtract),
    ensures
        res@ == spec_subtract_ranges(source, to_subtract),
        forall|c: int| in_any(res@, c) <==> in_range(source, c) && !in_range(to_subtract, c),
{
    let mut res: Vec<OurRange> = Vec::new();
    if !bound_le(to_subtract.0, source.0) {
        res.push((source.0, bound_min(bound_pred(to_subtract.0), source.1)));
    }
    if !bound_le(source.1, to_subtract.1) {
        res.push((bound_max(bound_succ(to_subtract.1), source.0), source.1));
    }
    proof {
        assert(res@ =~= spec_subtract_ranges(source, to_subtract));
        assert forall|c: int| in_any(res@, c) <==> in_range(source, c) && !in_range(to_subtract, c) by {
            if in_range(source, c) && !in_range(to_subtract, c) {
                if !at_most(to_subtract.0, c) {
                    assert(in_range(res@[0], c));
                } else {
                    let k = res@.len() - 1;
                    assert(in_range(res@[k], c));
                }
            }
        }
    }
    res
}

/// The overlap of two ranges: from the larger start to the smaller end, or
/// `None` when that ends before it starts.
pub open spec fn spec_intersect_ranges(a: OurRange, b: OurRange) -> Option<OurRange> {
    let start = spec_bound_max(a.0, b.0);
    let end = spec_bound_min(a.1, b.1);
    if spec_bound_le(start, end) {
        Some((start, end))
    } else {
        None
    }
}

/// Returns the overlap of two ranges, or `None` when they have no integer in
/// common.
pub fn intersect_ranges(a: OurRange, b: OurRange) -> (res: Option<OurRange>)
    ensures
        res == spec_intersect_ranges(a, b),
        forall|c: int| (res matches Some(r) && in_range(r, c)) <==> in_range(a, c) && in_range(b, c),
{
    let start = bound_max(a.0, b.0);
    let end = bound_min(a.1, b.1);
    if !bound_le(start, end) {
        return None;
    }
    Some((start, end))
}


/// The gap before the `i`-th of `ranges`, for `0 <= i <= ranges.len()`:
/// from just after the previous range, or minus infinity, to just before the
/// `i`-th, or plus infinity.
pub open spec fn gap(ranges: Seq<OurRange>, i: int) -> OurRange {
    let start = if i >= 1 {
        spec_succ(ranges[i - 1].1)
    } else {
        Bound::NegInfinity
    };
    let end = if i < ranges.len() {
        spec_pred(ranges[i].0)
    } else {
        Bound::PosInfinity
    };
    (start, end)
}

/// A gap between two ranges that touch: it starts one past where it ends.
pub open spec fn is_touching_gap(g: OurRange) -> bool {
    g.0 matches Bound::Finite(s) && g.1 matches Bound::Finite(e) && s - e == 1
}

/// A gap that ends before it starts without the two ranges just touching:
/// the ranges overlap or are out of order.
pub open spec fn is_bad_gap(g: OurRange) -> bool {
    !spec_bound_le(g.0, g.1) && !is_touching_gap(g)
}

/// The gaps before the first `n` ranges (and after the last, when `n` is one
/// more than their number), without the touching ones.
pub open spec fn kept_gaps(ranges: Seq<OurRange>, n: int) -> Seq<OurRange>
    decreases n,
{
    if n <= 0 {
        Seq::empty()
    } else {
        let rest = kept_gaps(ranges, n - 1);
        if is_touching_gap(gap(ranges, n - 1)) {
            rest
        } else {
            rest.push(gap(ranges, n - 1))
        }
    }
}

/// The ranges are out of order or overlap.
#[derive(Clone, Copy, Debug, PartialEq, Eq, Structural)]
pub struct InvalidRanges;

/// Returns the gaps around `ranges` over all integers and the infinities:
/// the complement of the ranges when they are sorted and do not overlap.
/// Fails when a gap ends before it starts without the ranges just touching.
pub fn invert_ranges(ranges: &Vec<OurRange>) -> (res: Result<Vec<OurRange>, InvalidRanges>)
    requires
        forall|i: int| 0 <= i < ranges@.len() ==> range_ok(#[trigger] ranges@[i]),
    ensures
        res is Err <==> exists|i: int| 0 <= i <= ranges@.len() && is_bad_gap(#[trigger] gap(ranges@, i)),
        res matches Ok(v) ==> v@ == kept_gaps(ranges@, ranges@.len() as int + 1),
{
    let mut result: Vec<OurRange> = Vec::new();
    let n = ranges.len();
    let mut i: usize = 0;
    loop
        invariant_except_break
            result@ == kept_gaps(ranges@, i as int),
            forall|k: int| 0 <= k < i ==> !is_bad_gap(#[trigger] gap(ranges@, k)),
        invariant
            i <= n,
            n == ranges@.len(),
            forall|k: int| 0 <= k < ranges@.len() ==> range_ok(#[trigger] ranges@[k]),
        ensures
            result@ == kept_gaps(ranges@, n as int + 1),
            forall|k: int| 0 <= k <= n ==> !is_bad_gap(#[trigger] gap(ranges@, k)),
        decreases n - i,
    {
        let start = if i >= 1 {
            bound_succ(ranges[i - 1].1)
        } else {
            Bound::NegInfinity
        };
        let end = if i < n {
            bound_pred(ranges[i].0)
        } else {
            Bound::PosInfinity
        };
        proof {
            assert((start, end) == gap(ranges@, i as int));
        }
        let touching = match (start, end) {
            (Bound::Finite(s), Bound::Finite(e)) => e < i64::MAX && s == e + 1,
            _ => false,
        };
        if !touching {
            if !bound_le(start, end) {
                return Err(InvalidRanges);
            }
            result.push((start, end));
        }
        if i == n {
            break;
        }
        i += 1;
    }
    Ok(result)
}

/// Every integer up to `hi` lies below `lo` when the gap between a range
/// ending at `hi` and one starting at `lo` is not bad.
proof fn lemma_separated(hi: Bound, lo: Bound, c: int)
    requires
        bound_ok(hi),
        bound_ok(lo),
        !is_bad_gap((spec_succ(hi), spec_pred(lo))),
        at_least(hi, c),
    ensures
        !at_most(lo, c),
{
}

/// Sorted ranges without bad gaps: every integer up to the end of the
/// `j`-th range lies below the start of every later one.
proof fn lemma_chain(ranges: Seq<OurRange>, j: int, k: int, c: int)
    requires
        0 <= j < k < ranges.len(),
        forall|i: int| 0 <= i < ranges.len() ==> range_ok(#[trigger] ranges[i]),
        forall|i: int| 0 <= i < ranges.len() ==> spec_bound_le((#[trigger] ranges[i]).0, ranges[i].1),
        forall|i: int| 0 <= i <= ranges.len() ==> !is_bad_gap(#[trigger] gap(ranges, i)),
        at_least(ranges[j].1, c),
    ensures
        !at_most(ranges[k].0, c),
    decreases k - j,
{
    assert(gap(ranges, j + 1) == (spec_succ(ranges[j].1), spec_pred(ranges[j + 1].0)));
    lemma_separated(ranges[j].1, ranges[j + 1].0, c);
    if k > j + 1 {
        assert(range_ok(ranges[j + 1]) && spec_bound_le(ranges[j + 1].0, ranges[j + 1].1));
        lemma_chain(ranges, j + 1, k, c);
    }
}

/// An integer lies in a kept gap exactly when it lies in one of the gaps.
proof fn lemma_kept_gaps(ranges: Seq<OurRange>, n: int, c: int)
    requires
        0 <= n,
    ensures
        in_any(kept_gaps(ranges, n), c) <==> exists|i: int| 0 <= i < n && in_range(#[trigger] gap(ranges, i), c),
    decreases n,
{
    if n > 0 {
        lemma_kept_gaps(ranges, n - 1, c);
        let rest = kept_gaps(ranges, n - 1);
        let g = gap(ranges, n - 1);
        if in_any(kept_gaps(ranges, n), c) {
            let w = choose|w: int| 0 <= w < kept_gaps(ranges, n).len() && in_range(#[trigger] kept_gaps(ranges, n)[w], c);
            if w < rest.len() {
                assert(in_range(rest[w], c));
            } else {
                assert(in_range(g, c));
            }
        }
        if exists|i: int| 0 <= i < n && in_range(#[trigger] gap(ranges, i), c) {
            let i = choose|i: int| 0 <= i < n && in_range(#[trigger] gap(ranges, i), c);
            if i < n - 1 {
                let w = choose|w: int| 0 <= w < rest.len() && in_range(#[trigger] rest[w], c);
                assert(in_range(kept_gaps(ranges, n)[w], c));
            } else {
                assert(!is_touching_gap(g));
                assert(in_range(kept_gaps(ranges, n)[rest.len() as int], c));
            }
        }
    }
}

/// The first gap that holds `c`, searching from the `k`-th on, when `c` lies
/// after every range before the `k`-th and in none of the ranges.
proof fn lemma_find_gap(ranges: Seq<OurRange>, k: int, c: int) -> (i: int)
    requires
        0 <= k <= ranges.len(),
        forall|m: int| 0 <= m < ranges.len() ==> range_ok(#[trigger] ranges[m]),
        forall|m: int| 0 <= m < k ==> !at_least(#[trigger] ranges[m].1, c),
        !in_any(ranges, c),
    ensures
        k <= i <= ranges.len(),
        in_range(gap(ranges, i), c),
    decreases ranges.len() - k,
{
    if k == ranges.len() {
        k
    } else if at_least(ranges[k].1, c) {
        assert(!in_range(ranges[k], c));
        k
    } else {
        lemma_find_gap(ranges, k + 1, c)
    }
}

/// The kept gaps around sorted, non-empty ranges with no bad gap hold
/// exactly the integers that the ranges do not hold.
pub proof fn lemma_inverted_is_complement(ranges: Seq<OurRange>)
    requires
        forall|i: int| 0 <= i < ranges.len() ==> range_ok(#[trigger] ranges[i]),
        forall|i: int| 0 <= i < ranges.len() ==> spec_bound_le((#[trigger] ranges[i]).0, ranges[i].1),
        forall|i: int| 0 <= i <= ranges.len() ==> !is_bad_gap(#[trigger] gap(ranges, i)),
    ensures
        forall|c: int| in_any(kept_gaps(ranges, ranges.len() as int + 1), c) <==> !in_any(ranges, c),
{
    let n = ranges.len() as int;
    assert forall|c: int| in_any(kept_gaps(ranges, n + 1), c) <==> !in_any(ranges, c) by {
        lemma_kept_gaps(ranges, n + 1, c);
        if in_any(kept_gaps(ranges, n + 1), c) {
            let i = choose|i: int| 0 <= i < n + 1 && in_range(#[trigger] gap(ranges, i), c);
            if in_any(ranges, c) {
                let j = choose|j: int| 0 <= j < n && in_range(#[trigger] ranges[j], c);
                if j >= i {
                    assert(range_ok(ranges[i]) && spec_bound_le(ranges[i].0, ranges[i].1));
                    if j > i {
                        lemma_chain(ranges, i, j, c);
                    }
                } else {
                    assert(range_ok(ranges[i - 1]) && spec_bound_le(ranges[i - 1].0, ranges[i - 1].1));
                    if j < i - 1 {
                        lemma_chain(ranges, j, i - 1, c);
                    }
                }
            }
        } else {
            if !in_any(ranges, c) {
                let i = lemma_find_gap(ranges, 0, c);
            }
        }
    }
}


/// Both endpoints are integers and the range is not empty.
pub open spec fn finite_range(r: OurRange) -> bool {
    &&& r.0 is Finite
    &&& r.1 is Finite
    &&& r.0->0 <= r.1->0
}

/// Non-empty integer ranges in increasing order with at least one integer
/// between two of them: each is a maximal run of consecutive integers.
pub open spec fn is_run_decomposition(rs: Seq<OurRange>) -> bool {
    &&& forall|i: int| 0 <= i < rs.len() ==> finite_range(#[trigger] rs[i])
    &&& forall|i: int, j: int| 0 <= i < j < rs.len() ==> (#[trigger] rs[i]).1->0 + 1 < (#[trigger] rs[j]).0->0
}

/// The sequence is strictly increasing.
pub open spec fn strictly_increasing(v: Seq<i64>) -> bool {
    forall|i: int, j: int| 0 <= i < j < v.len() ==> v[i] < v[j]
}

/// Inserts `x` into a strictly increasing vector unless it is there.
fn insert_sorted(values: &mut Vec<i64>, x: i64)
    requires
        strictly_increasing(old(values)@),
    ensures
        strictly_increasing(final(values)@),
        forall|y: i64| #[trigger] final(values)@.contains(y) <==> (old(values)@.contains(y) || y == x),
{
    let mut p: usize = 0;
    while p < values.len() && values[p] < x
        invariant
            p <= values@.len(),
            values@ == old(values)@,
            forall|j: int| 0 <= j < p ==> values@[j] < x,
        decreases values.len() - p,
    {
        p += 1;
    }
    if p < values.len() && values[p] == x {
        proof {
            assert(values@[p as int] == x);
        }
        return;
    }
    let ghost before = values@;
    assert(before == old(values)@);
    values.insert(p, x);
    proof {
        assert forall|y: i64| #[trigger] values@.contains(y) <==> (before.contains(y) || y == x) by {
            if values@.contains(y) {
                let j = choose|j: int| 0 <= j < values@.len() && #[trigger] values@[j] == y;
                if j < p {
                    assert(before[j] == y);
                } else if j > p {
                    assert(before[j - 1] == y);
                }
            }
            if before.contains(y) {
                let j = choose|j: int| 0 <= j < before.len() && #[trigger] before[j] == y;
                if j < p {
                    assert(values@[j] == y);
                } else {
                    assert(values@[j + 1] == y);
                }
            }
            if y == x {
                assert(values@[p as int] == y);
            }
        }
    }
}

/// Coalesces a set of integers into its maximal runs of consecutive
/// integers, in increasing order.
pub fn create_ranges(set: &HashSet<i64>) -> (res: Vec<OurRange>)
    requires
        forall|v: i64| #[trigger] set@.contains(v) ==> i64::MIN < v < i64::MAX,
    ensures
        is_run_decomposition(res@),
        forall|c: int| in_any(res@, c) <==> exists|v: i64| #[trigger] set@.contains(v) && v == c,
        forall|i: int| 0 <= i < res@.len() ==> range_ok(#[trigger] res@[i]),
{
    let mut ascending: Vec<i64> = Vec::new();
    let ghost keys: Seq<i64> = IteratorSpec::remaining(&spec_hash_keys_iter(set)).unref();
    for x in iter: set.iter()
        invariant
            iter.seq().unref() == keys,
            keys.to_set() == set@,
            strictly_increasing(ascending@),
            forall|y: i64| ascending@.contains(y) <==> keys.take(iter.index()).contains(y),
    {
        let ghost idx = iter.index();
        proof {
            assert(keys[idx] == *x);
            assert forall|y: i64| keys.take(idx + 1).contains(y) <==> (keys.take(idx).contains(y) || y == *x) by {
                let s0 = keys.take(idx);
                assert(keys.take(idx + 1) =~= s0.push(*x));
                if keys.take(idx + 1).contains(y) {
                    let j = choose|j: int| 0 <= j < idx + 1 && #[trigger] keys.take(idx + 1)[j] == y;
                    if j < idx {
                        assert(s0[j] == y);
                    }
                }
                if s0.contains(y) {
                    let j = choose|j: int| 0 <= j < idx && #[trigger] s0[j] == y;
                    assert(keys.take(idx + 1)[j] == y);
                }
                if y == *x {
                    assert(keys.take(idx + 1)[idx] == y);
                }
            }
        }
        insert_sorted(&mut ascending, *x);
    }
    proof {
        assert(keys.take(keys.len() as int) =~= keys);
        assert forall|y: i64| ascending@.contains(y) <==> set@.contains(y) by {
            assert(keys.to_set().contains(y) <==> keys.contains(y));
        }
    }
    let n = ascending.len();
    let mut ranges: Vec<OurRange> = Vec::new();
    let mut start_index: usize = 0;
    let mut i: usize = 0;
    while i < n
        invariant
            n == ascending@.len(),
            strictly_increasing(ascending@),
            forall|y: i64| ascending@.contains(y) <==> set@.contains(y),
            forall|v: i64| #[trigger] set@.contains(v) ==> i64::MIN < v < i64::MAX,
            start_index <= i <= n,
            i == n ==> start_index == n,
            is_run_decomposition(ranges@),
            forall|k: int| 0 <= k < ranges@.len() ==> range_ok(#[trigger] ranges@[k]),
            forall|c: int| in_any(ranges@, c) <==> exists|k: int| 0 <= k < start_index && ascending@[k] == c,
            start_index < n ==> forall|k: int| 0 <= k < ranges@.len() ==> (#[trigger] ranges@[k]).1->0 + 1 < ascending@[start_index as int],
            forall|k: int| start_index <= k <= i && k < n ==> ascending@[k] == ascending@[start_index as int] + (k - start_index),
        decreases n - i,
    {
        let start_value = ascending[start_index];
        let current_value = ascending[i];
        proof {
            assert(ascending@.contains(current_value));
            assert(ascending@.contains(start_value));
        }
        let close = if i + 1 < n {
            current_value + 1 != ascending[i + 1]
        } else {
            true
        };
        if close {
            let ghost old_ranges = ranges@;
            let r = (Bound::Finite(start_value), Bound::Finite(current_value));
            ranges.push(r);
            proof {
                assert(in_range(r, current_value as int));
                assert forall|c: int| in_any(ranges@, c) <==> exists|k: int| 0 <= k < i + 1 && ascending@[k] == c by {
                    if in_any(ranges@, c) {
                        let w = choose|w: int| 0 <= w < ranges@.len() && in_range(#[trigger] ranges@[w], c);
                        if w < old_ranges.len() {
                            assert(in_range(old_ranges[w], c));
                            assert(in_any(old_ranges, c));
                            let k = choose|k: int| 0 <= k < start_index && ascending@[k] == c;
                        } else {
                            let k = start_index + (c - start_value);
                            assert(ascending@[k] == c);
                        }
                    }
                    if exists|k: int| 0 <= k < i + 1 && ascending@[k] == c {
                        let k = choose|k: int| 0 <= k < i + 1 && ascending@[k] == c;
                        if k < start_index {
                            assert(exists|k2: int| 0 <= k2 < start_index && ascending@[k2] == c);
                            assert(in_any(old_ranges, c));
                            let w = choose|w: int| 0 <= w < old_ranges.len() && in_range(#[trigger] old_ranges[w], c);
                            assert(in_range(ranges@[w], c));
                        } else {
                            if k < i {
                                assert(ascending@[k] < ascending@[i as int]);
                            }
                            assert(in_range(ranges@[old_ranges.len() as int], c));
                        }
                    }
                }
                if i + 1 < n {
                    assert(ascending@[i as int] < ascending@[i + 1]);
                }
            }
            start_index = i + 1;
        }
        i += 1;
    }
    proof {
        assert forall|c: int| in_any(ranges@, c) <==> exists|v: i64| #[trigger] set@.contains(v) && v == c by {
            if in_any(ranges@, c) {
                let k = choose|k: int| 0 <= k < start_index && ascending@[k] == c;
                let v = ascending@[k];
                assert(ascending@.contains(v));
                assert(set@.contains(v) && v == c);
            }
            if exists|v: i64| #[trigger] set@.contains(v) && v == c {
                let v = choose|v: i64| #[trigger] set@.contains(v) && v == c;
                assert(ascending@.contains(v));
                let k = choose|k: int| 0 <= k < ascending@.len() && #[trigger] ascending@[k] == v;
                assert(0 <= k < start_index && ascending@[k] == c);
                assert(in_any(ranges@, c));
            }
        }
    }
    ranges
}


/// In a run decomposition nothing below the first range is held, and the
/// later ranges all start past the end of the first plus one.
proof fn lemma_run_first(rs: Seq<OurRange>, c: int)
    requires
        is_run_decomposition(rs),
        rs.len() > 0,
    ensures
        c < rs[0].0->0 ==> !in_any(rs, c),
        rs[0].1->0 < c <= rs[0].1->0 + 1 ==> !in_any(rs, c),
        in_any(rs, c) <==> in_range(rs[0], c) || in_any(rs.drop_first(), c),
        in_any(rs.drop_first(), c) ==> c > rs[0].1->0 + 1,
{
    assert(finite_range(rs[0]));
    if in_any(rs, c) {
        let i = choose|i: int| 0 <= i < rs.len() && in_range(#[trigger] rs[i], c);
        assert(finite_range(rs[i]));
        if i > 0 {
            assert(rs[0].1->0 + 1 < rs[i].0->0);
            assert(in_range(rs.drop_first()[i - 1], c));
        }
    }
    if in_any(rs.drop_first(), c) {
        let i = choose|i: int| 0 <= i < rs.drop_first().len() && in_range(#[trigger] rs.drop_first()[i], c);
        assert(rs.drop_first()[i] == rs[i + 1]);
        assert(finite_range(rs[i + 1]));
        assert(rs[0].1->0 + 1 < rs[i + 1].0->0);
        assert(in_range(rs[i + 1], c));
    }
}

/// Two run decompositions that hold the same integers are equal: the
/// decomposition of a set of integers into maximal runs is unique.
pub proof fn lemma_run_decomposition_unique(a: Seq<OurRange>, b: Seq<OurRange>)
    requires
        is_run_decomposition(a),
        is_run_decomposition(b),
        forall|c: int| in_any(a, c) <==> in_any(b, c),
    ensures
        a == b,
    decreases a.len() + b.len(),
{
    if a.len() == 0 || b.len() == 0 {
        if a.len() > 0 {
            assert(finite_range(a[0]));
            assert(in_range(a[0], a[0].0->0 as int));
            assert(in_any(a, a[0].0->0 as int));
        }
        if b.len() > 0 {
            assert(finite_range(b[0]));
            assert(in_range(b[0], b[0].0->0 as int));
            assert(in_any(b, b[0].0->0 as int));
        }
        assert(a =~= b);
    } else {
        let (a0, a1) = (a[0].0->0 as int, a[0].1->0 as int);
        let (b0, b1) = (b[0].0->0 as int, b[0].1->0 as int);
        assert(finite_range(a[0]) && finite_range(b[0]));
        assert(in_range(a[0], a0));
        assert(in_range(b[0], b0));
        lemma_run_first(a, a0);
        lemma_run_first(b, a0);
        lemma_run_first(a, b0);
        lemma_run_first(b, b0);
        assert(a0 == b0);
        assert(in_range(a[0], a1));
        assert(in_range(b[0], b1));
        lemma_run_first(a, a1);
        lemma_run_first(b, a1);
        lemma_run_first(a, b1);
        lemma_run_first(b, b1);
        lemma_run_first(a, a1 + 1);
        lemma_run_first(b, a1 + 1);
        lemma_run_first(a, b1 + 1);
        lemma_run_first(b, b1 + 1);
        assert(a1 == b1);
        assert(a[0] == b[0]);
        let ra = a.drop_first();
        let rb = b.drop_first();
        assert(is_run_decomposition(ra)) by {
            assert forall|i: int, j: int| 0 <= i < j < ra.len() implies (#[trigger] ra[i]).1->0 + 1 < (#[trigger] ra[j]).0->0 by {
                assert(ra[i] == a[i + 1] && ra[j] == a[j + 1]);
            }
            assert forall|i: int| 0 <= i < ra.len() implies finite_range(#[trigger] ra[i]) by {
                assert(ra[i] == a[i + 1]);
            }
        }
        assert(is_run_decomposition(rb)) by {
            assert forall|i: int, j: int| 0 <= i < j < rb.len() implies (#[trigger] rb[i]).1->0 + 1 < (#[trigger] rb[j]).0->0 by {
                assert(rb[i] == b[i + 1] && rb[j] == b[j + 1]);
            }
            assert forall|i: int| 0 <= i < rb.len() implies finite_range(#[trigger] rb[i]) by {
                assert(rb[i] == b[i + 1]);
            }
        }
        assert forall|c: int| in_any(ra, c) <==> in_any(rb, c) by {
            lemma_run_first(a, c);
            lemma_run_first(b, c);
        }
        lemma_run_decomposition_unique(ra, rb);
        assert(a =~= b) by {
            assert forall|i: int| 0 <= i < a.len() implies a[i] == b[i] by {
                if i > 0 {
                    assert(a[i] == ra[i - 1] && b[i] == rb[i - 1]);
                }
            }
        }
    }
}

} // verus!
