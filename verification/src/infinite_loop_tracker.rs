//! Detects a repeating history of checker entries.
//!
//! The checker appends a hash pair for each trail entry. When the most recent
//! entries repeat the block of the same length before them, the pattern is
//! looping.
use vstd::prelude::*;

verus! {

/// A left/right pair of hashes plus the trail entry it came from.
///
/// Equality compares only the hash pair. The `trail_entry_id` rides along so
/// the checker can find the trail entry at the start of a detected loop.
#[derive(Clone, Debug)]
pub struct Entry {
    /// The left side hash.
    pub left: String,
    /// The right side hash.
    pub right: String,
    /// The id of the trail entry this came from.
    pub trail_entry_id: usize,
}

/// Two entries carry the same hash pair.
pub open spec fn same_hashes(a: Entry, b: Entry) -> bool {
    a.left@ == b.left@ && a.right@ == b.right@
}

impl Entry {
    /// Returns `true` when both entries carry the same hash pair.
    pub fn same_as(&self, other: &Entry) -> (res: bool)
        ensures
            res == same_hashes(*self, *other),
    {
        self.left == other.left && self.right == other.right
    }

    /// A copy of the entry.
    pub fn copy(&self) -> (res: Entry)
        ensures
            res == *self,
    {
        Entry { left: self.left.clone(), right: self.right.clone(), trail_entry_id: self.trail_entry_id }
    }
}

/// The block of `size` entries before the last `size` entries equals them,
/// entry by entry.
pub open spec fn repeats(h: Seq<Entry>, size: int) -> bool {
    &&& 1 <= size
    &&& 2 * size <= h.len()
    &&& forall|i: int| 0 <= i < size ==> #[trigger] same_hashes(h[h.len() - 2 * size + i], h[h.len() - size + i])
}

/// The smallest repeating block size, if any.
pub open spec fn smallest_repeat(h: Seq<Entry>) -> Option<int> {
    if exists|s: int| #[trigger] repeats(h, s) {
        Some(choose|s: int| #[trigger] repeats(h, s) && forall|t: int| 1 <= t < s ==> !repeats(h, t))
    } else {
        None
    }
}

/// Below a repeating size there is a smallest one.
proof fn lemma_smallest_below(h: Seq<Entry>, s0: int)
    requires
        repeats(h, s0),
    ensures
        exists|s: int| #[trigger] repeats(h, s) && forall|t: int| 1 <= t < s ==> !repeats(h, t),
    decreases s0,
{
    if exists|t: int| 1 <= t < s0 && repeats(h, t) {
        let t = choose|t: int| 1 <= t < s0 && repeats(h, t);
        lemma_smallest_below(h, t);
    } else {
        assert(forall|t: int| 1 <= t < s0 ==> !repeats(h, t));
    }
}

/// The smallest repeating size, when there is one, repeats.
pub proof fn lemma_smallest_repeat_repeats(h: Seq<Entry>)
    ensures
        smallest_repeat(h) matches Some(s) ==> repeats(h, s),
{
    if exists|s: int| #[trigger] repeats(h, s) {
        let s0 = choose|s: int| #[trigger] repeats(h, s);
        lemma_smallest_below(h, s0);
    }
}

/// Tracks the history of checker entries to find a repeating block.
pub struct InfiniteLoopTracker {
    /// The entries appended so far.
    pub history: Vec<Entry>,
}

impl InfiniteLoopTracker {
    /// Builds an empty tracker.
    pub fn new() -> (res: Self)
        ensures
            res.history@.len() == 0,
    {
        InfiniteLoopTracker { history: Vec::new() }
    }

    /// Appends an entry to the history.
    pub fn append(&mut self, entry: Entry)
        ensures
            final(self).history@ == old(self).history@.push(entry),
    {
        self.history.push(entry);
    }

    /// A copy of the tracker.
    pub fn copy(&self) -> (res: Self)
        ensures
            res.history@ == self.history@,
    {
        let mut history: Vec<Entry> = Vec::new();
        let mut i: usize = 0;
        while i < self.history.len()
            invariant
                i <= self.history@.len(),
                history@ == self.history@.take(i as int),
            decreases self.history.len() - i,
        {
            history.push(self.history[i].copy());
            i += 1;
            proof {
                assert(history@ =~= self.history@.take(i as int));
            }
        }
        proof {
            assert(history@ =~= self.history@);
        }
        InfiniteLoopTracker { history }
    }

    /// Returns the repeating block at the end of the history, if any: the
    /// earlier copy of the shortest block that the last entries repeat.
    pub fn get_repeating_entries(&self) -> (res: Option<Vec<Entry>>)
        ensures
            match smallest_repeat(self.history@) {
                Some(s) => res matches Some(v) && v@ == self.history@.subrange(
                    self.history@.len() - 2 * s,
                    self.history@.len() - s,
                ),
                None => res is None,
            },
    {
        let length = self.history.len();
        let mut candidate_size: usize = 1;
        while candidate_size <= length / 2
            invariant
                length == self.history@.len(),
                1 <= candidate_size,
                candidate_size <= length / 2 + 1,
                forall|t: int| 1 <= t < candidate_size ==> !repeats(self.history@, t),
            decreases length / 2 + 1 - candidate_size,
        {
            let candidate_start = length - candidate_size * 2;
            let mut matched = true;
            let mut i: usize = 0;
            while i < candidate_size
                invariant_except_break
                    matched,
                invariant
                    length == self.history@.len(),
                    1 <= candidate_size <= length / 2,
                    candidate_start == length - 2 * candidate_size,
                    i <= candidate_size,
                    forall|j: int| 0 <= j < i ==> #[trigger] same_hashes(
                        self.history@[length - 2 * candidate_size + j],
                        self.history@[length - candidate_size + j],
                    ),
                ensures
                    matched ==> i == candidate_size,
                    !matched ==> i < candidate_size && !same_hashes(
                        self.history@[length - 2 * candidate_size + i],
                        self.history@[length - candidate_size + i],
                    ),
                decreases candidate_size - i,
            {
                if !self.history[candidate_start + i].same_as(&self.history[candidate_start + candidate_size + i]) {
                    matched = false;
                    break;
                }
                i += 1;
            }
            if matched {
                let mut block: Vec<Entry> = Vec::new();
                let mut k: usize = 0;
                while k < candidate_size
                    invariant
                        length == self.history@.len(),
                        1 <= candidate_size <= length / 2,
                        candidate_start == length - 2 * candidate_size,
                        k <= candidate_size,
                        block@ == self.history@.subrange(candidate_start as int, candidate_start + k),
                    decreases candidate_size - k,
                {
                    block.push(self.history[candidate_start + k].copy());
                    k += 1;
                    proof {
                        assert(block@ =~= self.history@.subrange(candidate_start as int, candidate_start + k));
                    }
                }
                proof {
                    assert(repeats(self.history@, candidate_size as int));
                    let s = choose|s: int| #[trigger] repeats(self.history@, s) && forall|t: int| 1 <= t < s ==> !repeats(self.history@, t);
                    if s < candidate_size {
                        assert(!repeats(self.history@, s));
                    }
                    if s > candidate_size {
                        assert(!repeats(self.history@, candidate_size as int));
                    }
                }
                return Some(block);
            }
            proof {
                assert(!repeats(self.history@, candidate_size as int)) by {
                    assert(!same_hashes(
                        self.history@[length - 2 * candidate_size + i],
                        self.history@[length - candidate_size + i],
                    ));
                }
            }
            candidate_size += 1;
        }
        proof {
            assert forall|s: int| !repeats(self.history@, s) by {
                if 1 <= s && 2 * s <= length {
                    assert(s < candidate_size);
                }
            }
        }
        None
    }
}

} // verus!
