//! The decisions of the ambiguity search and of the score.
//!
//! Two level-2 streams read the same pattern. The search pairs their entries
//! depth first; every pair that can match the same character extends a trail.
//! A trail whose two sides differ is a second way to match one input prefix,
//! which a backtracking engine can be made to try. Here stand the decisions:
//! which pairs extend a trail, what the new trail entry holds, when a loop is
//! found, which trails are reported, what the search returns, and how the
//! reported trails become a score. Running the streams, forking them at
//! splits and reading the clock is left to the caller.
use crate::ast::RcNode;
use crate::character_groups::{
    entry_keys, first_seen, groups_ok, intersect_character_groups, intersected_ranges, is_empty_character_groups,
    merged_escapes, CharacterGroups, EscapeMap,
};
use crate::infinite_loop_tracker::{lemma_smallest_repeat_repeats, smallest_repeat, Entry, InfiniteLoopTracker};
use crate::node_extra::NodeExtra;
use crate::our_range::Bound;
use crate::quantifier::{build_quantifiers_in_infinite_portion, groups_indexed, infinite_portion, is_exhaustive};
use crate::character_reader::level0::{copy_stack, StackEntry};
use crate::character_reader::level1::{ZeroWidthEntry, ZeroWidthKind};
use crate::character_reader::level2::Level2Entry;
use crate::checker::{
    atomic_group_hash_list, atomic_group_hash_vec, build_context_trail, build_zero_width_hash, context_trail,
    zero_width_hash,
};
use crate::text::{decimal_text, push_decimal, push_str};
use crate::to_friendly::{texts, AnalysisLimit, Score};
use crate::tree::{is_new_path, path_views, shadowed_results, Tree};
use std::collections::HashSet;
use std::rc::Rc;
use vstd::prelude::*;

verus! {

/// One side of a trail entry.
pub struct SearchSide {
    /// Where the side's character stands: its node's offset and the context
    /// of its stack.
    pub hash: String,
    /// The atomic groups both sides entered together and are still inside.
    pub atomic_groups: Vec<String>,
    /// The side's character set.
    pub character_groups: Rc<CharacterGroups>,
    /// The node that consumed the character.
    pub node: RcNode,
    /// The side's stack.
    pub stack: Vec<StackEntry>,
}

/// A pair of sides that match the same input character.
pub struct SearchEntry {
    /// Unique identity.
    pub id: usize,
    /// The characters both sides match.
    pub intersection: CharacterGroups,
    /// The left side.
    pub left: SearchSide,
    /// The right side.
    pub right: SearchSide,
    /// The two sides went different ways at or before this entry.
    pub diverged: bool,
}

/// What the search returns once no trail is left to find.
#[derive(Clone, Copy, Debug, PartialEq, Eq, Structural)]
pub enum CheckerReturn {
    /// The search ran out; `infinite` when a reported trail passes the start
    /// of a loop.
    Finished { infinite: bool },
    /// The step limit was passed.
    HitMaxSteps,
    /// The time limit was passed.
    TimedOut,
}

// ---------------------------------------------------------------------------
// Reporting trails
// ---------------------------------------------------------------------------

/// Two trails go through the same places, entry by entry, with the sides
/// kept (`swapped` false) or exchanged.
pub open spec fn same_places(e: Seq<SearchEntry>, t: Seq<SearchEntry>, swapped: bool) -> bool {
    &&& e.len() == t.len()
    &&& forall|i: int|
        0 <= i < e.len() ==> if swapped {
            (#[trigger] e[i]).left.hash@ == t[i].right.hash@ && e[i].right.hash@ == t[i].left.hash@
        } else {
            (#[trigger] e[i]).left.hash@ == t[i].left.hash@ && e[i].right.hash@ == t[i].right.hash@
        }
}

/// A reported trail already goes through the places of `t`, either way round.
pub open spec fn is_known_trail(trails: Seq<Vec<SearchEntry>>, t: Seq<SearchEntry>) -> bool {
    exists|k: int| 0 <= k < trails.len() && (same_places((#[trigger] trails[k])@, t, false) || same_places(trails[k]@, t, true))
}

/// Whether `e` and `t` go through the same places.
fn same_places_exec(e: &Vec<SearchEntry>, t: &Vec<SearchEntry>, swapped: bool) -> (res: bool)
    ensures
        res == same_places(e@, t@, swapped),
{
    if e.len() != t.len() {
        return false;
    }
    let mut i: usize = 0;
    while i < e.len()
        invariant
            e@.len() == t@.len(),
            i <= e@.len(),
            forall|j: int|
                0 <= j < i ==> if swapped {
                    (#[trigger] e@[j]).left.hash@ == t@[j].right.hash@ && e@[j].right.hash@ == t@[j].left.hash@
                } else {
                    (#[trigger] e@[j]).left.hash@ == t@[j].left.hash@ && e@[j].right.hash@ == t@[j].right.hash@
                },
        decreases e.len() - i,
    {
        let same = if swapped {
            e[i].left.hash == t[i].right.hash && e[i].right.hash == t[i].left.hash
        } else {
            e[i].left.hash == t[i].left.hash && e[i].right.hash == t[i].right.hash
        };
        if !same {
            return false;
        }
        i += 1;
    }
    true
}

/// A trail is reported unless a reported trail already goes through the
/// same places, either way round.
pub fn should_emit_trail(trails: &Vec<Vec<SearchEntry>>, trail: &Vec<SearchEntry>) -> (res: bool)
    ensures
        res == !is_known_trail(trails@, trail@),
{
    let mut k: usize = 0;
    while k < trails.len()
        invariant
            k <= trails@.len(),
            forall|j: int| 0 <= j < k ==> !(same_places((#[trigger] trails@[j])@, trail@, false) || same_places(trails@[j]@, trail@, true)),
        decreases trails.len() - k,
    {
        if same_places_exec(&trails[k], trail, false) || same_places_exec(&trails[k], trail, true) {
            return false;
        }
        k += 1;
    }
    true
}

// ---------------------------------------------------------------------------
// Finishing the search and the analysis
// ---------------------------------------------------------------------------

/// Some entry of the trail started a loop.
pub open spec fn passes_loop_start(t: Seq<SearchEntry>, loop_starts: Seq<usize>) -> bool {
    exists|i: int| 0 <= i < t.len() && loop_starts.contains((#[trigger] t[i]).id)
}

/// What the search returns: the step limit first, then the time limit, else
/// whether a reported trail passes the start of a loop.
pub open spec fn spec_finish(
    step_halves: u64,
    max_step_halves: Option<u64>,
    timed_out: bool,
    trails: Seq<Vec<SearchEntry>>,
    loop_starts: Seq<usize>,
) -> CheckerReturn {
    if max_step_halves matches Some(m) && step_halves > m {
        CheckerReturn::HitMaxSteps
    } else if timed_out {
        CheckerReturn::TimedOut
    } else {
        CheckerReturn::Finished {
            infinite: exists|k: int| 0 <= k < trails.len() && passes_loop_start((#[trigger] trails[k])@, loop_starts),
        }
    }
}

/// The search ends as infinite as soon as any reported trail, wherever it
/// stands in the list, holds an entry whose id is a noted loop start, and
/// as finite when none does, unless a limit was hit first.
pub proof fn lemma_any_trail_at_a_loop_start_makes_it_infinite(
    step_halves: u64,
    max_step_halves: Option<u64>,
    timed_out: bool,
    trails: Seq<Vec<SearchEntry>>,
    loop_starts: Seq<usize>,
)
    requires
        !(max_step_halves matches Some(m) && step_halves > m),
        !timed_out,
    ensures
        (exists|k: int, i: int|
            0 <= k < trails.len() && 0 <= i < trails[k]@.len() && loop_starts.contains(
                #[trigger] trails[k]@[i].id,
            )) ==> spec_finish(step_halves, max_step_halves, timed_out, trails, loop_starts) == (CheckerReturn::Finished {
            infinite: true,
        }),
        (forall|k: int, i: int|
            0 <= k < trails.len() && 0 <= i < trails[k]@.len() ==> !loop_starts.contains(
                #[trigger] trails[k]@[i].id,
            )) ==> spec_finish(step_halves, max_step_halves, timed_out, trails, loop_starts) == (CheckerReturn::Finished {
            infinite: false,
        }),
{
    if exists|k: int, i: int|
        0 <= k < trails.len() && 0 <= i < trails[k]@.len() && loop_starts.contains(#[trigger] trails[k]@[i].id) {
        let (k, i) = choose|k: int, i: int|
            0 <= k < trails.len() && 0 <= i < trails[k]@.len() && loop_starts.contains(#[trigger] trails[k]@[i].id);
        assert(passes_loop_start(trails[k]@, loop_starts));
    }
    if forall|k: int, i: int|
        0 <= k < trails.len() && 0 <= i < trails[k]@.len() ==> !loop_starts.contains(#[trigger] trails[k]@[i].id) {
        assert forall|k: int| 0 <= k < trails.len() implies !passes_loop_start(#[trigger] trails[k]@, loop_starts) by {
            if passes_loop_start(trails[k]@, loop_starts) {
                let i = choose|i: int| 0 <= i < trails[k]@.len() && loop_starts.contains((#[trigger] trails[k]@[i]).id);
                assert(!loop_starts.contains(trails[k]@[i].id));
            }
        }
    }
}

/// Whether `ids` holds `id`.
fn holds_id(ids: &Vec<usize>, id: usize) -> (res: bool)
    ensures
        res == ids@.contains(id),
{
    let mut i: usize = 0;
    while i < ids.len()
        invariant
            i <= ids@.len(),
            forall|j: int| 0 <= j < i ==> ids@[j] != id,
        decreases ids.len() - i,
    {
        if ids[i] == id {
            return true;
        }
        i += 1;
    }
    false
}

/// Whether the trail passes one of the loop starts.
fn trail_passes_loop_start(t: &Vec<SearchEntry>, loop_starts: &Vec<usize>) -> (res: bool)
    ensures
        res == passes_loop_start(t@, loop_starts@),
{
    let mut i: usize = 0;
    while i < t.len()
        invariant
            i <= t@.len(),
            forall|j: int| 0 <= j < i ==> !loop_starts@.contains((#[trigger] t@[j]).id),
        decreases t.len() - i,
    {
        if holds_id(loop_starts, t[i].id) {
            return true;
        }
        i += 1;
    }
    false
}

/// What the search returns once it has run out or hit a limit. Steps are
/// counted in halves: each pull of a stream is half a step.
pub fn finish(
    step_halves: u64,
    max_step_halves: Option<u64>,
    timed_out: bool,
    trails: &Vec<Vec<SearchEntry>>,
    loop_starts: &Vec<usize>,
) -> (res: CheckerReturn)
    ensures
        res == spec_finish(step_halves, max_step_halves, timed_out, trails@, loop_starts@),
{
    let mut infinite = false;
    let mut k: usize = 0;
    while k < trails.len()
        invariant
            k <= trails@.len(),
            infinite == exists|j: int| 0 <= j < k && passes_loop_start((#[trigger] trails@[j])@, loop_starts@),
        decreases trails.len() - k,
    {
        if trail_passes_loop_start(&trails[k], loop_starts) {
            infinite = true;
        }
        k += 1;
        proof {
            if infinite {
                let j = if passes_loop_start(trails@[k - 1]@, loop_starts@) {
                    k - 1
                } else {
                    choose|j: int| 0 <= j < k - 1 && passes_loop_start((#[trigger] trails@[j])@, loop_starts@)
                };
                assert(0 <= j < k && passes_loop_start(trails@[j]@, loop_starts@));
            }
        }
    }
    let over = match max_step_halves {
        Some(m) => step_halves > m,
        None => false,
    };
    if over {
        CheckerReturn::HitMaxSteps
    } else if timed_out {
        CheckerReturn::TimedOut
    } else {
        CheckerReturn::Finished { infinite }
    }
}

/// The analysis outcome: a limit hit by the search, an infinite loop or the
/// score cap make the score infinite and name the limit; otherwise the
/// score stands.
pub open spec fn spec_outcome(ret: Option<CheckerReturn>, hit_max_score: bool, score: u64) -> (Option<AnalysisLimit>, Score) {
    match ret {
        Some(CheckerReturn::HitMaxSteps) => (Some(AnalysisLimit::HitMaxSteps), Score::Infinite),
        Some(CheckerReturn::TimedOut) => (Some(AnalysisLimit::TimedOut), Score::Infinite),
        Some(CheckerReturn::Finished { infinite }) => if infinite {
            (Some(AnalysisLimit::HitMaxScore), Score::Infinite)
        } else {
            (None, Score::Finite(score))
        },
        None => if hit_max_score {
            (Some(AnalysisLimit::HitMaxScore), Score::Infinite)
        } else {
            (None, Score::Finite(score))
        },
    }
}

/// Turns what the search returned (`None` when the score cap stopped it)
/// into the report's limit and score.
pub fn collect_outcome(ret: Option<CheckerReturn>, hit_max_score: bool, score: u64) -> (res: (Option<AnalysisLimit>, Score))
    ensures
        res == spec_outcome(ret, hit_max_score, score),
{
    match ret {
        Some(CheckerReturn::HitMaxSteps) => (Some(AnalysisLimit::HitMaxSteps), Score::Infinite),
        Some(CheckerReturn::TimedOut) => (Some(AnalysisLimit::TimedOut), Score::Infinite),
        Some(CheckerReturn::Finished { infinite }) => if infinite {
            (Some(AnalysisLimit::HitMaxScore), Score::Infinite)
        } else {
            (None, Score::Finite(score))
        },
        None => if hit_max_score {
            (Some(AnalysisLimit::HitMaxScore), Score::Infinite)
        } else {
            (None, Score::Finite(score))
        },
    }
}

/// The score is infinite exactly when the outcome names a limit, and a
/// finite score is the one the scorer reached.
pub proof fn lemma_infinite_score_iff_limit(ret: Option<CheckerReturn>, hit_max_score: bool, score: u64)
    ensures
        spec_outcome(ret, hit_max_score, score).1 is Infinite <==> spec_outcome(ret, hit_max_score, score).0 is Some,
        spec_outcome(ret, hit_max_score, score).1 is Finite ==> spec_outcome(ret, hit_max_score, score).1 == Score::Finite(score),
{
}

// ---------------------------------------------------------------------------
// Sets of texts
// ---------------------------------------------------------------------------

/// The texts a list of strings holds, as a set.
pub open spec fn text_set(v: Seq<String>) -> Set<Seq<char>> {
    Set::new(|t: Seq<char>| texts(v).contains(t))
}

/// Whether `v` holds the text of `t`.
fn has_text(v: &Vec<String>, t: &String) -> (res: bool)
    ensures
        res == text_set(v@).contains(t@),
{
    let mut i: usize = 0;
    while i < v.len()
        invariant
            i <= v@.len(),
            forall|j: int| 0 <= j < i ==> v@[j]@ != t@,
        decreases v.len() - i,
    {
        if v[i] == *t {
            proof {
                assert(texts(v@)[i as int] == t@);
            }
            return true;
        }
        i += 1;
    }
    proof {
        if texts(v@).contains(t@) {
            let j = choose|j: int| 0 <= j < texts(v@).len() && texts(v@)[j] == t@;
            assert(v@[j]@ == t@);
        }
    }
    false
}

/// Adds the texts of `more` to `v`.
fn add_texts(v: &mut Vec<String>, more: &Vec<String>)
    ensures
        text_set(final(v)@) == text_set(old(v)@).union(text_set(more@)),
{
    let ghost start = v@;
    let mut i: usize = 0;
    while i < more.len()
        invariant
            i <= more@.len(),
            text_set(v@) == text_set(start).union(text_set(more@.take(i as int))),
        decreases more.len() - i,
    {
        let ghost before = v@;
        v.push(more[i].clone());
        proof {
            assert(text_set(v@) =~= text_set(before).insert(more@[i as int]@)) by {
                assert forall|t: Seq<char>| text_set(v@).contains(t) implies text_set(before).insert(more@[i as int]@).contains(t) by {
                    let j = choose|j: int| 0 <= j < texts(v@).len() && texts(v@)[j] == t;
                    if j < before.len() {
                        assert(texts(before)[j] == t);
                    }
                }
                assert forall|t: Seq<char>| text_set(before).insert(more@[i as int]@).contains(t) implies text_set(v@).contains(t) by {
                    if t == more@[i as int]@ {
                        assert(texts(v@)[before.len() as int] == t);
                    } else {
                        let j = choose|j: int| 0 <= j < texts(before).len() && texts(before)[j] == t;
                        assert(texts(v@)[j] == t);
                    }
                }
            }
            assert(text_set(more@.take(i + 1)) =~= text_set(more@.take(i as int)).insert(more@[i as int]@)) by {
                let a = more@.take(i + 1);
                let b = more@.take(i as int);
                assert forall|t: Seq<char>| text_set(a).contains(t) implies text_set(b).insert(more@[i as int]@).contains(t) by {
                    let j = choose|j: int| 0 <= j < texts(a).len() && texts(a)[j] == t;
                    if j < i {
                        assert(texts(b)[j] == t);
                    }
                }
                assert forall|t: Seq<char>| text_set(b).insert(more@[i as int]@).contains(t) implies text_set(a).contains(t) by {
                    if t == more@[i as int]@ {
                        assert(texts(a)[i as int] == t);
                    } else {
                        let j = choose|j: int| 0 <= j < texts(b).len() && texts(b)[j] == t;
                        assert(texts(a)[j] == t);
                    }
                }
            }
            assert(text_set(v@) =~= text_set(start).union(text_set(more@.take(i + 1))));
        }
        i += 1;
    }
    proof {
        assert(more@.take(i as int) =~= more@);
    }
}

/// The texts of `v` that `keep` also holds.
fn keep_texts(v: &Vec<String>, keep: &Vec<String>) -> (res: Vec<String>)
    ensures
        text_set(res@) == text_set(v@).intersect(text_set(keep@)),
{
    let mut out: Vec<String> = Vec::new();
    let mut i: usize = 0;
    while i < v.len()
        invariant
            i <= v@.len(),
            text_set(out@) == text_set(v@.take(i as int)).intersect(text_set(keep@)),
        decreases v.len() - i,
    {
        let ghost before = out@;
        let ghost a = v@.take(i + 1);
        let ghost b = v@.take(i as int);
        proof {
            assert(text_set(a) =~= text_set(b).insert(v@[i as int]@)) by {
                assert forall|t: Seq<char>| text_set(a).contains(t) implies text_set(b).insert(v@[i as int]@).contains(t) by {
                    let j = choose|j: int| 0 <= j < texts(a).len() && texts(a)[j] == t;
                    if j < i {
                        assert(texts(b)[j] == t);
                    }
                }
                assert forall|t: Seq<char>| text_set(b).insert(v@[i as int]@).contains(t) implies text_set(a).contains(t) by {
                    if t == v@[i as int]@ {
                        assert(texts(a)[i as int] == t);
                    } else {
                        let j = choose|j: int| 0 <= j < texts(b).len() && texts(b)[j] == t;
                        assert(texts(a)[j] == t);
                    }
                }
            }
        }
        if has_text(keep, &v[i]) {
            out.push(v[i].clone());
            proof {
                assert(text_set(out@) =~= text_set(before).insert(v@[i as int]@)) by {
                    assert forall|t: Seq<char>| text_set(out@).contains(t) implies text_set(before).insert(v@[i as int]@).contains(t) by {
                        let j = choose|j: int| 0 <= j < texts(out@).len() && texts(out@)[j] == t;
                        if j < before.len() {
                            assert(texts(before)[j] == t);
                        }
                    }
                    assert forall|t: Seq<char>| text_set(before).insert(v@[i as int]@).contains(t) implies text_set(out@).contains(t) by {
                        if t == v@[i as int]@ {
                            assert(texts(out@)[before.len() as int] == t);
                        } else {
                            let j = choose|j: int| 0 <= j < texts(before).len() && texts(before)[j] == t;
                            assert(texts(out@)[j] == t);
                        }
                    }
                }
                assert(text_set(out@) =~= text_set(a).intersect(text_set(keep@)));
            }
        } else {
            proof {
                assert(text_set(out@) =~= text_set(a).intersect(text_set(keep@)));
            }
        }
        i += 1;
    }
    proof {
        assert(v@.take(i as int) =~= v@);
    }
    out
}

/// Whether `a` holds every text of `b`.
fn holds_all(a: &Vec<String>, b: &Vec<String>) -> (res: bool)
    ensures
        res == text_set(b@).subset_of(text_set(a@)),
{
    let mut i: usize = 0;
    while i < b.len()
        invariant
            i <= b@.len(),
            forall|j: int| 0 <= j < i ==> text_set(a@).contains(#[trigger] b@[j]@),
        decreases b.len() - i,
    {
        if !has_text(a, &b[i]) {
            proof {
                assert(texts(b@)[i as int] == b@[i as int]@);
                assert(text_set(b@).contains(b@[i as int]@));
            }
            return false;
        }
        i += 1;
    }
    proof {
        assert forall|t: Seq<char>| text_set(b@).contains(t) implies text_set(a@).contains(t) by {
            let j = choose|j: int| 0 <= j < texts(b@).len() && texts(b@)[j] == t;
            assert(b@[j]@ == t);
        }
    }
    true
}

/// Whether two lists hold the same texts.
pub fn same_text_sets(a: &Vec<String>, b: &Vec<String>) -> (res: bool)
    ensures
        res == (text_set(a@) == text_set(b@)),
{
    let r = holds_all(a, b) && holds_all(b, a);
    proof {
        if r {
            assert(text_set(a@) =~= text_set(b@));
        }
    }
    r
}

// ---------------------------------------------------------------------------
// The new trail entry
// ---------------------------------------------------------------------------

/// Where an entry's character stands: its node's offset, `:`, and the
/// context of its stack.
pub open spec fn side_hash(e: Level2Entry<CharacterGroups>) -> Seq<char> {
    decimal_text(e.node.range.0 as nat) + ":"@ + context_trail(e.stack@, false)
}

/// The places an entry passes on its way to its character: each
/// zero-width marker met since the previous entry, then the character.
pub open spec fn way_hashes(e: Level2Entry<CharacterGroups>) -> Seq<Seq<char>> {
    e.preceding_zero_width_entries@.map_values(|z: ZeroWidthEntry| "zw:"@ + zero_width_hash(z)).push(
        "s:"@ + side_hash(e),
    )
}

/// The stacks at those places.
pub open spec fn way_stacks(e: Level2Entry<CharacterGroups>) -> Seq<Seq<StackEntry>> {
    e.preceding_zero_width_entries@.map_values(|z: ZeroWidthEntry| z.stack@).push(e.stack@)
}

/// The two ways part somewhere among their common length.
pub open spec fn ways_part(left: Level2Entry<CharacterGroups>, right: Level2Entry<CharacterGroups>) -> bool {
    let a = way_hashes(left);
    let b = way_hashes(right);
    exists|i: int| 0 <= i < a.len() && i < b.len() && a[i] != b[i]
}

/// The atomic groups the two ways enter together before they part: those
/// of the left stack at every place up to which both ways agree.
pub open spec fn entered_together(
    left: Level2Entry<CharacterGroups>,
    right: Level2Entry<CharacterGroups>,
    offsets: Set<usize>,
) -> Set<Seq<char>> {
    let a = way_hashes(left);
    let b = way_hashes(right);
    Set::new(
        |t: Seq<char>|
            exists|i: int|
                0 <= i < a.len() && i < b.len() && (forall|j: int| 0 <= j <= i ==> a[j] == b[j])
                    && #[trigger] atomic_group_hash_list(way_stacks(left)[i], offsets).contains(t),
    )
}

/// The trail had parted already.
pub open spec fn had_parted(trail: Seq<SearchEntry>) -> bool {
    trail.len() > 0 && trail.last().diverged
}

/// The atomic groups a side of the trail's last entry was in.
pub open spec fn last_atomic(trail: Seq<SearchEntry>, left: bool) -> Set<Seq<char>> {
    if trail.len() == 0 {
        Set::empty()
    } else if left {
        text_set(trail.last().left.atomic_groups@)
    } else {
        text_set(trail.last().right.atomic_groups@)
    }
}

/// The atomic groups a side of the new entry is in: those of the last
/// entry, with those entered together now while the ways had not parted
/// before, kept only where the side's own stack is still inside them.
pub open spec fn next_atomic(
    trail: Seq<SearchEntry>,
    left: Level2Entry<CharacterGroups>,
    right: Level2Entry<CharacterGroups>,
    offsets: Set<usize>,
    is_left: bool,
) -> Set<Seq<char>> {
    let added = if had_parted(trail) {
        Set::empty()
    } else {
        entered_together(left, right, offsets)
    };
    let own = if is_left {
        left.stack@
    } else {
        right.stack@
    };
    last_atomic(trail, is_left).union(added).intersect(atomic_group_hash_list(own, offsets).to_set())
}

/// A side of a new entry is built from a stream entry.
pub open spec fn side_from(s: SearchSide, e: Level2Entry<CharacterGroups>) -> bool {
    &&& s.hash@ == side_hash(e)
    &&& s.character_groups == e.character_groups
    &&& s.node == e.node
    &&& s.stack@ == e.stack@
}

/// The trail entry made when `left` and `right` extend `trail`.
pub open spec fn is_next_entry(
    n: SearchEntry,
    trail: Seq<SearchEntry>,
    left: Level2Entry<CharacterGroups>,
    right: Level2Entry<CharacterGroups>,
    offsets: Set<usize>,
) -> bool {
    &&& side_from(n.left, left)
    &&& side_from(n.right, right)
    &&& n.diverged == (had_parted(trail) || ways_part(left, right))
    &&& text_set(n.left.atomic_groups@) == next_atomic(trail, left, right, offsets, true)
    &&& text_set(n.right.atomic_groups@) == next_atomic(trail, left, right, offsets, false)
}

/// The hash of an entry's character.
fn side_hash_exec(e: &Level2Entry<CharacterGroups>) -> (res: String)
    ensures
        res@ == side_hash(*e),
{
    let mut out = String::new();
    push_decimal(&mut out, e.node.range.0 as u64);
    push_str(&mut out, ":");
    let trail = build_context_trail(e.stack.as_slice(), false);
    push_str(&mut out, trail.as_str());
    proof {
        assert(out@ =~= side_hash(*e));
    }
    out
}

/// The place `i` on an entry's way.
fn way_hash_at(e: &Level2Entry<CharacterGroups>, i: usize) -> (res: String)
    requires
        i <= e.preceding_zero_width_entries@.len(),
    ensures
        res@ == way_hashes(*e)[i as int],
{
    let mut out = String::new();
    if i < e.preceding_zero_width_entries.len() {
        push_str(&mut out, "zw:");
        let h = build_zero_width_hash(&e.preceding_zero_width_entries[i]);
        push_str(&mut out, h.as_str());
    } else {
        push_str(&mut out, "s:");
        let h = side_hash_exec(e);
        push_str(&mut out, h.as_str());
    }
    proof {
        assert(out@ =~= way_hashes(*e)[i as int]);
    }
    out
}

/// The atomic groups of the stack at place `i` on an entry's way.
fn way_atomic_at(e: &Level2Entry<CharacterGroups>, i: usize, offsets: &HashSet<usize>) -> (res: Vec<String>)
    requires
        i <= e.preceding_zero_width_entries@.len(),
    ensures
        texts(res@) == atomic_group_hash_list(way_stacks(*e)[i as int], offsets@),
{
    if i < e.preceding_zero_width_entries.len() {
        atomic_group_hash_vec(e.preceding_zero_width_entries[i].stack.as_slice(), offsets)
    } else {
        atomic_group_hash_vec(e.stack.as_slice(), offsets)
    }
}

/// The texts of a list, as a set, are those of its text sequence.
proof fn lemma_text_set_of(v: Seq<String>, s: Seq<Seq<char>>)
    requires
        texts(v) == s,
    ensures
        text_set(v) == s.to_set(),
{
    assert(text_set(v) =~= s.to_set());
}

/// Builds the trail entry made when `left` and `right`, whose characters
/// meet in `intersection`, extend `trail`.
pub fn next_trail_entry(
    trail: &Vec<SearchEntry>,
    left: &Level2Entry<CharacterGroups>,
    right: &Level2Entry<CharacterGroups>,
    intersection: CharacterGroups,
    id: usize,
    atomic_group_offsets: &HashSet<usize>,
) -> (res: SearchEntry)
    ensures
        res.id == id,
        res.intersection == intersection,
        is_next_entry(res, trail@, *left, *right, atomic_group_offsets@),
{
    let ghost hl = way_hashes(*left);
    let ghost hr = way_hashes(*right);
    let ml = left.preceding_zero_width_entries.len();
    let mr = right.preceding_zero_width_entries.len();
    let last = if ml < mr { ml } else { mr };
    let was_parted = trail.len() > 0 && trail[trail.len() - 1].diverged;
    let mut added: Vec<String> = Vec::new();
    let mut parted = false;
    if !was_parted {
        let mut i: usize = 0;
        let mut done = false;
        let ghost mut seen: int = 0;
        while !done && !parted
            invariant
                hl == way_hashes(*left),
                hr == way_hashes(*right),
                hl.len() == ml + 1,
                hr.len() == mr + 1,
                last <= ml && last <= mr,
                last == ml || last == mr,
                i <= last,
                seen == if done { last + 1 } else { i as int },
                !done ==> seen == i,
                forall|j: int| 0 <= j < seen ==> hl[j] == hr[j],
                parted ==> !done && hl[i as int] != hr[i as int],
                text_set(added@) == Set::new(
                    |t: Seq<char>|
                        exists|k: int|
                            0 <= k < seen && #[trigger] atomic_group_hash_list(way_stacks(*left)[k], atomic_group_offsets@).contains(t),
                ),
            decreases last - i, if done || parted { 0int } else { 1int },
        {
            let a = way_hash_at(left, i);
            let b = way_hash_at(right, i);
            if a != b {
                parted = true;
            } else {
                let more = way_atomic_at(left, i, atomic_group_offsets);
                let ghost before = added@;
                add_texts(&mut added, &more);
                proof {
                    lemma_text_set_of(more@, atomic_group_hash_list(way_stacks(*left)[i as int], atomic_group_offsets@));
                    assert(text_set(added@) =~= Set::new(
                        |t: Seq<char>|
                            exists|k: int|
                                0 <= k < i + 1 && #[trigger] atomic_group_hash_list(way_stacks(*left)[k], atomic_group_offsets@).contains(t),
                    )) by {
                        assert forall|t: Seq<char>| text_set(added@).contains(t) implies exists|k: int|
                            0 <= k < i + 1 && #[trigger] atomic_group_hash_list(way_stacks(*left)[k], atomic_group_offsets@).contains(t) by {
                            if text_set(before).contains(t) {
                            } else {
                                assert(atomic_group_hash_list(way_stacks(*left)[i as int], atomic_group_offsets@).contains(t));
                            }
                        }
                    }
                    seen = i + 1;
                }
                if i == last {
                    done = true;
                } else {
                    i += 1;
                }
            }
        }
        proof {
            assert(text_set(added@) =~= entered_together(*left, *right, atomic_group_offsets@)) by {
                assert forall|t: Seq<char>| text_set(added@).contains(t) implies entered_together(*left, *right, atomic_group_offsets@).contains(t) by {
                    let k = choose|k: int|
                        0 <= k < seen && #[trigger] atomic_group_hash_list(way_stacks(*left)[k], atomic_group_offsets@).contains(t);
                    assert(forall|j: int| 0 <= j <= k ==> hl[j] == hr[j]);
                }
                assert forall|t: Seq<char>| entered_together(*left, *right, atomic_group_offsets@).contains(t) implies text_set(added@).contains(t) by {
                    let k = choose|k: int|
                        0 <= k < hl.len() && k < hr.len() && (forall|j: int| 0 <= j <= k ==> hl[j] == hr[j])
                            && #[trigger] atomic_group_hash_list(way_stacks(*left)[k], atomic_group_offsets@).contains(t);
                    if k >= seen {
                        assert(parted);
                        assert(hl[i as int] == hr[i as int]);
                    }
                }
            }
            if parted {
                assert(ways_part(*left, *right));
            } else {
                assert forall|k: int| 0 <= k < hl.len() && k < hr.len() implies hl[k] == hr[k] by {}
                assert(!ways_part(*left, *right));
            }
        }
    }
    let diverged = was_parted || parted;

    let mut atomic_left: Vec<String> = Vec::new();
    let mut atomic_right: Vec<String> = Vec::new();
    if trail.len() > 0 {
        add_texts(&mut atomic_left, &trail[trail.len() - 1].left.atomic_groups);
        add_texts(&mut atomic_right, &trail[trail.len() - 1].right.atomic_groups);
    }
    add_texts(&mut atomic_left, &added);
    add_texts(&mut atomic_right, &added);
    let now_left = atomic_group_hash_vec(left.stack.as_slice(), atomic_group_offsets);
    let now_right = atomic_group_hash_vec(right.stack.as_slice(), atomic_group_offsets);
    let kept_left = keep_texts(&atomic_left, &now_left);
    let kept_right = keep_texts(&atomic_right, &now_right);
    proof {
        lemma_text_set_of(now_left@, atomic_group_hash_list(left.stack@, atomic_group_offsets@));
        lemma_text_set_of(now_right@, atomic_group_hash_list(right.stack@, atomic_group_offsets@));
        let empty: Seq<String> = Seq::empty();
        assert(text_set(empty) =~= Set::<Seq<char>>::empty());
        if was_parted {
            assert(text_set(added@) =~= Set::<Seq<char>>::empty());
        }
        assert(text_set(kept_left@) =~= next_atomic(trail@, *left, *right, atomic_group_offsets@, true));
        assert(text_set(kept_right@) =~= next_atomic(trail@, *left, *right, atomic_group_offsets@, false));
    }
    let left_side = SearchSide {
        hash: side_hash_exec(left),
        atomic_groups: kept_left,
        character_groups: Rc::clone(&left.character_groups),
        node: Rc::clone(&left.node),
        stack: copy_stack(&left.stack),
    };
    let right_side = SearchSide {
        hash: side_hash_exec(right),
        atomic_groups: kept_right,
        character_groups: Rc::clone(&right.character_groups),
        node: Rc::clone(&right.node),
        stack: copy_stack(&right.stack),
    };
    SearchEntry { id, intersection, left: left_side, right: right_side, diverged }
}

// ---------------------------------------------------------------------------
// Which pairs extend a trail, and what follows
// ---------------------------------------------------------------------------

/// A start marker was met on the way.
pub open spec fn has_start_marker(z: Seq<ZeroWidthEntry>) -> bool {
    exists|i: int| 0 <= i < z.len() && (#[trigger] z[i]).kind == ZeroWidthKind::Start
}

/// The id of the innermost lookaround group, if any.
pub open spec fn innermost_lookaround(s: Seq<RcNode>) -> Option<usize> {
    if s.len() == 0 {
        None
    } else {
        Some(s.last().id)
    }
}

/// Two stream entries may extend a trail of length `trail_len`: past the
/// first entry neither side met a start marker, and both stand in the same
/// innermost lookaround (or in none).
pub open spec fn may_pair(trail_len: int, left: Level2Entry<CharacterGroups>, right: Level2Entry<CharacterGroups>) -> bool {
    &&& !(trail_len > 0 && (has_start_marker(left.preceding_zero_width_entries@) || has_start_marker(
        right.preceding_zero_width_entries@,
    )))
    &&& innermost_lookaround(left.lookahead_stack@) == innermost_lookaround(right.lookahead_stack@)
}

/// The first pair of a path is never stopped by the zero-width markers
/// before it, such as the start marker of a `^`: on an empty trail two
/// entries in the same innermost lookaround may pair whatever precedes
/// them. Past the first entry, a start marker on either side stops them.
pub proof fn lemma_first_pair_ignores_markers(left: Level2Entry<CharacterGroups>, right: Level2Entry<CharacterGroups>, trail_len: int)
    ensures
        innermost_lookaround(left.lookahead_stack@) == innermost_lookaround(right.lookahead_stack@) ==> may_pair(
            0,
            left,
            right,
        ),
        trail_len > 0 && (exists|i: int|
            0 <= i < left.preceding_zero_width_entries@.len() && (#[trigger] left.preceding_zero_width_entries@[i]).kind
                == ZeroWidthKind::Start) ==> !may_pair(trail_len, left, right),
        trail_len > 0 && (exists|i: int|
            0 <= i < right.preceding_zero_width_entries@.len() && (#[trigger] right.preceding_zero_width_entries@[i]).kind
                == ZeroWidthKind::Start) ==> !may_pair(trail_len, left, right),
        may_pair(trail_len, left, right) ==> innermost_lookaround(left.lookahead_stack@) == innermost_lookaround(
            right.lookahead_stack@,
        ),
{
}

/// Whether a start marker was met on the way.
fn met_start(z: &Vec<ZeroWidthEntry>) -> (res: bool)
    ensures
        res == has_start_marker(z@),
{
    let mut i: usize = 0;
    while i < z.len()
        invariant
            i <= z@.len(),
            forall|j: int| 0 <= j < i ==> (#[trigger] z@[j]).kind != ZeroWidthKind::Start,
        decreases z.len() - i,
    {
        if z[i].kind == ZeroWidthKind::Start {
            return true;
        }
        i += 1;
    }
    false
}

/// The id of the innermost lookaround group, if any.
fn innermost_lookaround_id(s: &Vec<RcNode>) -> (res: Option<usize>)
    ensures
        res == innermost_lookaround(s@),
{
    if s.len() == 0 {
        None
    } else {
        Some(s[s.len() - 1].id)
    }
}

/// Whether `left` and `right` may extend a trail of length `trail_len`.
pub fn entries_may_pair(
    trail_len: usize,
    left: &Level2Entry<CharacterGroups>,
    right: &Level2Entry<CharacterGroups>,
) -> (res: bool)
    ensures
        res == may_pair(trail_len as int, *left, *right),
{
    if trail_len > 0 && (met_start(&left.preceding_zero_width_entries) || met_start(&right.preceding_zero_width_entries)) {
        return false;
    }
    innermost_lookaround_id(&left.lookahead_stack) == innermost_lookaround_id(&right.lookahead_stack)
}

/// What to do after a trail was extended.
#[derive(Clone, Copy, Debug, PartialEq, Eq, Structural)]
pub enum EntryDecision {
    /// Drop this path.
    Skip,
    /// The path repeats itself from the trail entry with this id: note it as
    /// the start of a loop and drop the path.
    LoopStart(usize),
    /// Go on along this path; the trail is not a second way to match.
    Extend,
    /// The sides differ: if neither stream can stop here, report the trail,
    /// then go on.
    CheckUnbounded,
}

/// Every entry of the trail has equal sides.
pub open spec fn all_sides_equal(t: Seq<SearchEntry>) -> bool {
    forall|i: int| 0 <= i < t.len() ==> (#[trigger] t[i]).left.hash@ == t[i].right.hash@
}

/// The left hash the loop tracker keeps for a pair: the left node's offset
/// and the left stack with unbounded iterations starred.
pub open spec fn tracker_left(left: Level2Entry<CharacterGroups>) -> Seq<char> {
    decimal_text(left.node.range.0 as nat) + ":"@ + context_trail(left.stack@, true)
}

/// The right hash the loop tracker keeps: the right node's offset with the
/// left stack's context, starred.
pub open spec fn tracker_right(left: Level2Entry<CharacterGroups>, right: Level2Entry<CharacterGroups>) -> Seq<char> {
    decimal_text(right.node.range.0 as nat) + ":"@ + context_trail(left.stack@, true)
}

/// The left stack lies in the repeatable part of an unbounded quantifier.
pub open spec fn in_collapsible_part(left: Level2Entry<CharacterGroups>, extra: NodeExtra) -> bool {
    !is_exhaustive(left.stack@, extra) && infinite_portion(left.stack@).len() > 0
}

/// The decision once the tracker holds `history`: a repeating block makes
/// a loop start; sides inside different atomic groups drop the path; equal
/// sides go on; different sides are checked.
pub open spec fn decision_after(trail: Seq<SearchEntry>, history: Seq<Entry>) -> EntryDecision {
    let n = trail.last();
    match smallest_repeat(history) {
        Some(s) => EntryDecision::LoopStart(history[history.len() - 2 * s].trail_entry_id),
        None => if text_set(n.left.atomic_groups@) != text_set(n.right.atomic_groups@) {
            EntryDecision::Skip
        } else if n.left.hash@ == n.right.hash@ {
            EntryDecision::Extend
        } else {
            EntryDecision::CheckUnbounded
        },
    }
}

/// Decides what follows once `trail`'s last entry was made from `left` and
/// `right`. A path still inside the repeatable part of a quantifier with all
/// sides equal is dropped; otherwise the pair goes into the loop tracker and
/// [`decision_after`] decides.
#[verifier::rlimit(50)]
pub fn decide_after_entry(
    trail: &Vec<SearchEntry>,
    tracker: &mut InfiniteLoopTracker,
    left: &Level2Entry<CharacterGroups>,
    right: &Level2Entry<CharacterGroups>,
    node_extra: &NodeExtra,
) -> (res: EntryDecision)
    requires
        trail@.len() > 0,
        groups_indexed(left.stack@, *node_extra),
    ensures
        in_collapsible_part(*left, *node_extra) && all_sides_equal(trail@) ==> res == EntryDecision::Skip
            && final(tracker).history@ == old(tracker).history@,
        !(in_collapsible_part(*left, *node_extra) && all_sides_equal(trail@)) ==> {
            &&& final(tracker).history@.len() == old(tracker).history@.len() + 1
            &&& final(tracker).history@.drop_last() == old(tracker).history@
            &&& final(tracker).history@.last().left@ == tracker_left(*left)
            &&& final(tracker).history@.last().right@ == tracker_right(*left, *right)
            &&& final(tracker).history@.last().trail_entry_id == trail@.last().id
            &&& res == decision_after(trail@, final(tracker).history@)
        },
{
    let quantifiers = build_quantifiers_in_infinite_portion(left.stack.as_slice(), node_extra);
    if quantifiers.len() > 0 {
        let mut all_equal = true;
        let mut i: usize = 0;
        while i < trail.len()
            invariant
                i <= trail@.len(),
                all_equal == forall|j: int| 0 <= j < i ==> (#[trigger] trail@[j]).left.hash@ == trail@[j].right.hash@,
            decreases trail.len() - i,
        {
            if trail[i].left.hash != trail[i].right.hash {
                all_equal = false;
            }
            i += 1;
        }
        if all_equal {
            return EntryDecision::Skip;
        }
    }
    let last = &trail[trail.len() - 1];
    let mut left_text = String::new();
    push_decimal(&mut left_text, left.node.range.0 as u64);
    push_str(&mut left_text, ":");
    let left_context = build_context_trail(left.stack.as_slice(), true);
    push_str(&mut left_text, left_context.as_str());
    let mut right_text = String::new();
    push_decimal(&mut right_text, right.node.range.0 as u64);
    push_str(&mut right_text, ":");
    push_str(&mut right_text, left_context.as_str());
    proof {
        assert(left_text@ =~= tracker_left(*left));
        assert(right_text@ =~= tracker_right(*left, *right));
    }
    let ghost before = tracker.history@;
    tracker.append(Entry { left: left_text, right: right_text, trail_entry_id: last.id });
    proof {
        assert(tracker.history@.drop_last() =~= before);
    }
    match tracker.get_repeating_entries() {
        Some(repeating) => {
            proof {
                lemma_smallest_repeat_repeats(tracker.history@);
            }
            proof {
                lemma_smallest_repeat_repeats(tracker.history@);
                let s = smallest_repeat(tracker.history@)->0;
                assert(repeating@[0] == tracker.history@[tracker.history@.len() - 2 * s]);
            }
            return EntryDecision::LoopStart(repeating[0].trail_entry_id);
        },
        None => {},
    }
    if !same_text_sets(&last.left.atomic_groups, &last.right.atomic_groups) {
        return EntryDecision::Skip;
    }
    if last.left.hash == last.right.hash {
        EntryDecision::Extend
    } else {
        EntryDecision::CheckUnbounded
    }
}

/// `i` is the intersection of the character sets `a` and `b`.
pub open spec fn is_intersection(i: CharacterGroups, a: CharacterGroups, b: CharacterGroups) -> bool {
    &&& (i.ranges_negated, i.ranges@) == intersected_ranges(a, b)
    &&& crate::character_groups::escapes_view(i.unicode_property_escapes.entries@) == merged_escapes(
        first_seen(entry_keys(a.unicode_property_escapes.entries@) + entry_keys(b.unicode_property_escapes.entries@)),
        a.unicode_property_escapes.entries@,
        b.unicode_property_escapes.entries@,
    )
}

/// What [`decide_after_entry`] does once `trail` was extended: the loop
/// tracker goes from `before` to `after` and the decision is `d`.
pub open spec fn step_decision(
    trail: Seq<SearchEntry>,
    before: Seq<Entry>,
    after: Seq<Entry>,
    left: Level2Entry<CharacterGroups>,
    right: Level2Entry<CharacterGroups>,
    extra: NodeExtra,
    d: EntryDecision,
) -> bool {
    if in_collapsible_part(left, extra) && all_sides_equal(trail) {
        d == EntryDecision::Skip && after == before
    } else {
        &&& after.len() == before.len() + 1
        &&& after.drop_last() == before
        &&& after.last().left@ == tracker_left(left)
        &&& after.last().right@ == tracker_right(left, right)
        &&& after.last().trail_entry_id == trail.last().id
        &&& d == decision_after(trail, after)
    }
}

/// One step of the search on the entries the two streams read next.
///
/// When they may not extend the trail, or share no character, nothing
/// changes and the result is `None`. Otherwise the new entry, numbered
/// `*next_id`, is appended to the trail, the number counts on, and the
/// decision of [`decide_after_entry`] is returned.
pub fn checker_step(
    trail: &mut Vec<SearchEntry>,
    tracker: &mut InfiniteLoopTracker,
    next_id: &mut usize,
    left: &Level2Entry<CharacterGroups>,
    right: &Level2Entry<CharacterGroups>,
    atomic_group_offsets: &HashSet<usize>,
    node_extra: &NodeExtra,
) -> (res: Option<EntryDecision>)
    requires
        groups_ok(*left.character_groups),
        groups_ok(*right.character_groups),
        groups_indexed(left.stack@, *node_extra),
        *old(next_id) < usize::MAX,
    ensures
        res is None <==> (!may_pair(old(trail)@.len() as int, *left, *right) || intersection_empty(
            *left.character_groups,
            *right.character_groups,
        )),
        res is None ==> final(trail)@ == old(trail)@ && final(tracker).history@ == old(tracker).history@
            && *final(next_id) == *old(next_id),
        res matches Some(d) ==> {
            let n = final(trail)@.last();
            &&& final(trail)@.len() == old(trail)@.len() + 1
            &&& final(trail)@.drop_last() == old(trail)@
            &&& n.id == *old(next_id)
            &&& is_intersection(n.intersection, *left.character_groups, *right.character_groups)
            &&& is_next_entry(n, old(trail)@, *left, *right, atomic_group_offsets@)
            &&& *final(next_id) == *old(next_id) + 1
            &&& step_decision(final(trail)@, old(tracker).history@, final(tracker).history@, *left, *right, *node_extra, d)
        },
{
    if !entries_may_pair(trail.len(), left, right) {
        return None;
    }
    let intersection = intersect_character_groups(&left.character_groups, &right.character_groups);
    let empty = is_empty_character_groups(&intersection);
    proof {
        assert(intersection.unicode_property_escapes.entries@.len() == crate::character_groups::escapes_view(
            intersection.unicode_property_escapes.entries@,
        ).len());
    }
    if empty {
        return None;
    }
    let id = *next_id;
    *next_id = id + 1;
    let entry = next_trail_entry(trail, left, right, intersection, id, atomic_group_offsets);
    let ghost before = trail@;
    trail.push(entry);
    proof {
        assert(trail@.drop_last() =~= before);
    }
    let d = decide_after_entry(trail, tracker, left, right, node_extra);
    Some(d)
}

// ---------------------------------------------------------------------------
// Can a stream stop here
// ---------------------------------------------------------------------------

/// The ranges of the characters that are not line terminators:
/// everything but 10, 13, 8232 and 8233.
pub open spec fn not_new_line_ranges() -> Seq<(Bound, Bound)> {
    seq![
        (Bound::Finite(10), Bound::Finite(10)),
        (Bound::Finite(13), Bound::Finite(13)),
        (Bound::Finite(8232), Bound::Finite(8233)),
    ]
}

/// The characters that are not line terminators.
pub fn not_new_line() -> (res: CharacterGroups)
    ensures
        res.ranges_negated,
        res.ranges@ == not_new_line_ranges(),
        res.unicode_property_escapes.entries@.len() == 0,
        groups_ok(res),
{
    let mut ranges = Vec::new();
    ranges.push((Bound::Finite(10), Bound::Finite(10)));
    ranges.push((Bound::Finite(13), Bound::Finite(13)));
    ranges.push((Bound::Finite(8232), Bound::Finite(8233)));
    proof {
        assert(ranges@ =~= not_new_line_ranges());
    }
    CharacterGroups { ranges_negated: true, ranges, unicode_property_escapes: EscapeMap::new() }
}

/// The intersection of two character sets comes out empty.
pub open spec fn intersection_empty(a: CharacterGroups, b: CharacterGroups) -> bool {
    &&& !intersected_ranges(a, b).0
    &&& intersected_ranges(a, b).1.len() == 0
    &&& merged_escapes(
        first_seen(entry_keys(a.unicode_property_escapes.entries@) + entry_keys(b.unicode_property_escapes.entries@)),
        a.unicode_property_escapes.entries@,
        b.unicode_property_escapes.entries@,
    ).len() == 0
}

/// `n` holds the characters that are not line terminators.
pub open spec fn is_not_new_line(n: CharacterGroups) -> bool {
    n.ranges_negated && n.ranges@ == not_new_line_ranges() && n.unicode_property_escapes.entries@.len() == 0
}

/// While checking whether a stream can stop, an entry keeps its path
/// going only in multi-line mode and only for a line terminator: a
/// character set whose intersection with the non-terminators is empty.
pub fn keeps_path_after(multi_line: bool, groups: &CharacterGroups) -> (res: bool)
    requires
        groups_ok(*groups),
    ensures
        res == (multi_line && forall|n: CharacterGroups| is_not_new_line(n) ==> intersection_empty(n, *groups)),
{
    if !multi_line {
        return false;
    }
    let n = not_new_line();
    let i = intersect_character_groups(&n, groups);
    let r = is_empty_character_groups(&i);
    proof {
        assert(i.unicode_property_escapes.entries@.len() == crate::character_groups::escapes_view(
            i.unicode_property_escapes.entries@,
        ).len());
        assert forall|m: CharacterGroups| is_not_new_line(m) implies intersection_empty(m, *groups) == intersection_empty(n, *groups) by {
            assert(m.ranges@ == n.ranges@);
            assert(m.unicode_property_escapes.entries@ =~= n.unicode_property_escapes.entries@);
        }
        assert(is_not_new_line(n));
    }
    r
}

// ---------------------------------------------------------------------------
// Limits, splits and the unbounded walk
// ---------------------------------------------------------------------------

/// The clock has passed the end time, if there is one.
pub open spec fn spec_timed_out(now: u64, end: Option<u64>) -> bool {
    end matches Some(e) && now > e
}

/// More half steps were taken than allowed, if there is a limit.
pub open spec fn spec_over_steps(step_halves: u64, max_step_halves: Option<u64>) -> bool {
    max_step_halves matches Some(m) && step_halves > m
}

/// One more, held at `u64::MAX`.
pub open spec fn saturating_inc(x: u64) -> u64 {
    if x < u64::MAX {
        (x + 1) as u64
    } else {
        x
    }
}

/// When a search started at `now` with `timeout` milliseconds must stop,
/// held at `u64::MAX`; `None` without a timeout.
pub open spec fn spec_end_time(now: u64, timeout: Option<u64>) -> Option<u64> {
    match timeout {
        Some(t) => Some(if now + t <= u64::MAX { (now + t) as u64 } else { u64::MAX }),
        None => None,
    }
}

/// Whether the clock reading `now` is past `end`.
pub fn timed_out(now: u64, end: Option<u64>) -> (r: bool)
    ensures
        r == spec_timed_out(now, end),
{
    match end {
        Some(e) => now > e,
        None => false,
    }
}

/// The step count and the time limit of a search. Each pull of a stream,
/// and each frame of an unbounded walk, is half a step.
pub struct SearchLimits {
    /// Half steps taken.
    pub step_halves: u64,
    /// The most half steps allowed; `None` for no limit.
    pub max_step_halves: Option<u64>,
    /// When the search must stop; `None` for no limit.
    pub end_time: Option<u64>,
    /// The clock was found past the end time.
    pub timed_out: bool,
}

impl SearchLimits {
    /// The limits of a search that starts at `now`.
    pub fn new(now: u64, timeout: Option<u64>, max_step_halves: Option<u64>) -> (res: Self)
        ensures
            res.step_halves == 0,
            res.max_step_halves == max_step_halves,
            res.end_time == spec_end_time(now, timeout),
            !res.timed_out,
    {
        let end_time = match timeout {
            Some(t) => Some(if t <= u64::MAX - now { now + t } else { u64::MAX }),
            None => None,
        };
        SearchLimits { step_halves: 0, max_step_halves, end_time, timed_out: false }
    }

    /// Whether more half steps were taken than allowed.
    pub fn over(&self) -> (r: bool)
        ensures
            r == spec_over_steps(self.step_halves, self.max_step_halves),
    {
        match self.max_step_halves {
            Some(m) => self.step_halves > m,
            None => false,
        }
    }

    /// Reads the clock at the top of a round of the search: notes whether
    /// time is up, and says whether the search stops here (time is up or the
    /// steps are spent).
    pub fn start_round(&mut self, now: u64) -> (stop: bool)
        ensures
            final(self).timed_out == spec_timed_out(now, old(self).end_time),
            final(self).step_halves == old(self).step_halves,
            final(self).max_step_halves == old(self).max_step_halves,
            final(self).end_time == old(self).end_time,
            stop == (final(self).timed_out || spec_over_steps(old(self).step_halves, old(self).max_step_halves)),
    {
        self.timed_out = timed_out(now, self.end_time);
        self.timed_out || self.over()
    }

    /// Counts half a step.
    pub fn count_half_step(&mut self)
        ensures
            final(self).step_halves == saturating_inc(old(self).step_halves),
            final(self).max_step_halves == old(self).max_step_halves,
            final(self).end_time == old(self).end_time,
            final(self).timed_out == old(self).timed_out,
    {
        if self.step_halves < u64::MAX {
            self.step_halves = self.step_halves + 1;
        }
    }

    /// What the search returns once it has run out or stopped at a limit.
    pub fn finish(&self, trails: &Vec<Vec<SearchEntry>>, loop_starts: &Vec<usize>) -> (res: CheckerReturn)
        ensures
            res == spec_finish(self.step_halves, self.max_step_halves, self.timed_out, trails@, loop_starts@),
    {
        finish(self.step_halves, self.max_step_halves, self.timed_out, trails, loop_starts)
    }
}

/// How a stream of the path taken at a split is made.
#[derive(Clone, Copy, Debug, PartialEq, Eq, Structural)]
pub enum ForkKind {
    /// A fresh reader over the branch the split offers.
    Branch,
    /// A fork of the stream that keeps the value already pulled.
    KeepPulled,
    /// A fork of the stream that pulls afresh.
    Fresh,
}

/// The streams of the path taken at a split of stream `i`: the split stream
/// reads the branch, the streams before it keep what they pulled and the
/// streams after it pull afresh. The path not taken goes on with the same
/// streams, stream `i` pulling afresh; it is searched after the split path.
pub fn split_plan(n: usize, i: usize) -> (res: Vec<ForkKind>)
    ensures
        res@.len() == n,
        forall|j: int| 0 <= j < n ==> #[trigger] res@[j] == if j == i {
            ForkKind::Branch
        } else if j < i {
            ForkKind::KeepPulled
        } else {
            ForkKind::Fresh
        },
{
    let mut res: Vec<ForkKind> = Vec::new();
    let mut j: usize = 0;
    while j < n
        invariant
            j <= n,
            res@.len() == j,
            forall|k: int| 0 <= k < j ==> #[trigger] res@[k] == if k == i {
                ForkKind::Branch
            } else if k < i {
                ForkKind::KeepPulled
            } else {
                ForkKind::Fresh
            },
        decreases n - j,
    {
        let kind = if j == i {
            ForkKind::Branch
        } else if j < i {
            ForkKind::KeepPulled
        } else {
            ForkKind::Fresh
        };
        res.push(kind);
        j += 1;
    }
    res
}

/// What a pair of entries does to the path it was read on.
#[derive(Clone, Copy, Debug, PartialEq, Eq, Structural)]
pub enum PairAction {
    /// Drop the path.
    Drop,
    /// Go on along the path.
    Continue,
    /// Check whether either stream can stop here; report the trail if
    /// neither can, then go on.
    CheckUnbounded,
}

/// The action for what [`checker_step`] returned.
pub open spec fn action_of(d: Option<EntryDecision>) -> PairAction {
    match d {
        Some(EntryDecision::Extend) => PairAction::Continue,
        Some(EntryDecision::CheckUnbounded) => PairAction::CheckUnbounded,
        _ => PairAction::Drop,
    }
}

/// The loop starts after a decision: a loop start is noted once.
pub open spec fn noted_loop_starts(starts: Seq<usize>, d: Option<EntryDecision>) -> Seq<usize> {
    match d {
        Some(EntryDecision::LoopStart(s)) => if starts.contains(s) {
            starts
        } else {
            starts.push(s)
        },
        _ => starts,
    }
}

/// Acts on what [`checker_step`] returned: notes a loop start and says what
/// becomes of the path.
pub fn act_on_decision(d: Option<EntryDecision>, loop_starts: &mut Vec<usize>) -> (res: PairAction)
    ensures
        res == action_of(d),
        final(loop_starts)@ == noted_loop_starts(old(loop_starts)@, d),
{
    match d {
        Some(EntryDecision::LoopStart(s)) => {
            if !holds_id(loop_starts, s) {
                loop_starts.push(s);
            }
            PairAction::Drop
        },
        Some(EntryDecision::Extend) => PairAction::Continue,
        Some(EntryDecision::CheckUnbounded) => PairAction::CheckUnbounded,
        _ => PairAction::Drop,
    }
}

/// What the unbounded walk found on its next frame.
pub enum UnboundedPull {
    /// No frame is left.
    Empty,
    /// The frame's stream ended; `bounded` when a bound was met on the way.
    End { bounded: bool },
    /// The frame's stream split; `branch` for a choice between branches.
    Split { branch: bool },
    /// The frame's stream read a character of this set.
    Entry(Rc<CharacterGroups>),
}

/// What the unbounded walk does after a frame.
#[derive(Clone, Copy, Debug, PartialEq, Eq, Structural)]
pub enum UnboundedAction {
    /// No frame can reach an unbounded end.
    Bounded,
    /// A frame reached an unbounded end.
    Unbounded,
    /// The steps are spent.
    HitMax,
    /// Go on: put the frame back when `keep_frame`, and push a reader of the
    /// branch on top when `push_branch`.
    Continue { keep_frame: bool, push_branch: bool },
}

/// An entry keeps its path in the unbounded walk: in multi-line mode, for
/// a line terminator.
pub open spec fn keeps_path(multi_line: bool, g: CharacterGroups) -> bool {
    multi_line && forall|n: CharacterGroups| is_not_new_line(n) ==> intersection_empty(n, g)
}

/// The action of the unbounded walk for a frame that was there, once the
/// limits hold `limits`.
pub open spec fn spec_unbounded_action(limits: SearchLimits, multi_line: bool, pull: UnboundedPull) -> UnboundedAction {
    if spec_over_steps(limits.step_halves, limits.max_step_halves) {
        UnboundedAction::HitMax
    } else {
        match pull {
            UnboundedPull::End { bounded } => if !bounded {
                UnboundedAction::Unbounded
            } else {
                UnboundedAction::Continue { keep_frame: false, push_branch: false }
            },
            UnboundedPull::Split { branch } => UnboundedAction::Continue { keep_frame: true, push_branch: branch },
            UnboundedPull::Entry(g) => UnboundedAction::Continue { keep_frame: keeps_path(multi_line, *g), push_branch: false },
            UnboundedPull::Empty => UnboundedAction::Bounded,
        }
    }
}

/// One frame of the walk that decides whether a stream can stop: the walk
/// is bounded once no frame is left; every frame that was there counts
/// half a step, and the walk stops when the steps are spent before it
/// looks at what the frame found.
pub fn unbounded_step(limits: &mut SearchLimits, multi_line: bool, pull: &UnboundedPull) -> (res: UnboundedAction)
    requires
        pull matches UnboundedPull::Entry(g) ==> groups_ok(**g),
    ensures
        pull is Empty ==> res == UnboundedAction::Bounded && *final(limits) == *old(limits),
        !(pull is Empty) ==> {
            &&& final(limits).step_halves == saturating_inc(old(limits).step_halves)
            &&& final(limits).max_step_halves == old(limits).max_step_halves
            &&& final(limits).end_time == old(limits).end_time
            &&& final(limits).timed_out == old(limits).timed_out
            &&& res == spec_unbounded_action(*final(limits), multi_line, *pull)
        },
{
    match pull {
        UnboundedPull::Empty => UnboundedAction::Bounded,
        _ => {
            limits.count_half_step();
            if limits.over() {
                return UnboundedAction::HitMax;
            }
            match pull {
                UnboundedPull::End { bounded } => if !*bounded {
                    UnboundedAction::Unbounded
                } else {
                    UnboundedAction::Continue { keep_frame: false, push_branch: false }
                },
                UnboundedPull::Split { branch } => UnboundedAction::Continue { keep_frame: true, push_branch: *branch },
                UnboundedPull::Entry(g) => {
                    let keep = keeps_path_after(multi_line, g);
                    UnboundedAction::Continue { keep_frame: keep, push_branch: false }
                },
                UnboundedPull::Empty => UnboundedAction::Bounded,
            }
        },
    }
}

// ---------------------------------------------------------------------------
// The score
// ---------------------------------------------------------------------------

/// The work, counted in trail entries compared, after which each new trail
/// only adds one to the score.
pub const WORK_LIMIT: u64 = 25_000;

/// A reported trail with the distinct side sequences found so far that
/// match its input: each by the hashes of its sides.
pub struct ScoredTrail {
    /// The trail.
    pub trail: Vec<SearchEntry>,
    /// The matching side sequences.
    pub matches: Vec<Vec<String>>,
}

/// A reported trail and its matches, as values.
pub type TrailModel = (Seq<SearchEntry>, Seq<Seq<Seq<char>>>);

/// The matches of a scored trail, as texts.
pub open spec fn matches_model(m: Seq<Vec<String>>) -> Seq<Seq<Seq<char>>> {
    m.map_values(|v: Vec<String>| texts(v@))
}

/// A scored trail as values.
pub open spec fn trail_model(t: ScoredTrail) -> TrailModel {
    (t.trail@, matches_model(t.matches@))
}

/// A side of an entry.
pub open spec fn side_of(e: SearchEntry, left: bool) -> SearchSide {
    if left {
        e.left
    } else {
        e.right
    }
}

/// Every character set of the trail has ranges that leave room for
/// arithmetic.
pub open spec fn trail_groups_ok(t: Seq<SearchEntry>) -> bool {
    forall|i: int|
        0 <= i < t.len() ==> groups_ok((#[trigger] t[i]).intersection) && groups_ok(*t[i].left.character_groups)
            && groups_ok(*t[i].right.character_groups)
}

/// How far a side of `other` keeps matching the input of `schema`, from
/// entry `i`: the first entry whose character meets nothing of the
/// schema's, else the length of `other`.
pub open spec fn match_len_from(schema: Seq<SearchEntry>, other: Seq<SearchEntry>, left: bool, i: int) -> int
    decreases other.len() - i,
{
    if i < 0 || i >= other.len() {
        other.len() as int
    } else if intersection_empty(*side_of(other[i], left).character_groups, schema[i].intersection) {
        i
    } else {
        match_len_from(schema, other, left, i + 1)
    }
}

/// The hashes of a side of `other`, entry by entry.
pub open spec fn side_hashes(other: Seq<SearchEntry>, left: bool) -> Seq<Seq<char>> {
    other.map_values(|e: SearchEntry| side_of(e, left).hash@)
}

/// `m` added to the matches unless it is there.
pub open spec fn with_match(ms: Seq<Seq<Seq<char>>>, m: Seq<Seq<char>>) -> Seq<Seq<Seq<char>>> {
    if ms.contains(m) {
        ms
    } else {
        ms.push(m)
    }
}

/// One side of `other` is a match of `me` when it matches `me`'s input
/// all the way.
pub open spec fn absorb_side(me: TrailModel, other: Seq<SearchEntry>, left: bool) -> TrailModel {
    if match_len_from(me.0, other, left, 0) == me.0.len() {
        (me.0, with_match(me.1, side_hashes(other, left)))
    } else {
        me
    }
}

/// `me` after meeting the trail `other`: its left side, then its right
/// side, may become matches.
pub open spec fn absorb(me: TrailModel, other: Seq<SearchEntry>) -> TrailModel {
    absorb_side(absorb_side(me, other, true), other, false)
}

/// Whether `a` and `b` have no character in common, as far as their
/// intersection shows.
fn meets_nothing(a: &CharacterGroups, b: &CharacterGroups) -> (res: bool)
    requires
        groups_ok(*a),
        groups_ok(*b),
    ensures
        res == intersection_empty(*a, *b),
{
    let i = intersect_character_groups(a, b);
    proof {
        assert(i.unicode_property_escapes.entries@.len() == crate::character_groups::escapes_view(
            i.unicode_property_escapes.entries@,
        ).len());
    }
    is_empty_character_groups(&i)
}

/// How far a side of `other` keeps matching the input of `schema`.
fn match_len(schema: &Vec<SearchEntry>, other: &Vec<SearchEntry>, left: bool) -> (res: usize)
    requires
        other@.len() <= schema@.len(),
        trail_groups_ok(schema@),
        trail_groups_ok(other@),
    ensures
        res == match_len_from(schema@, other@, left, 0),
{
    let mut i: usize = 0;
    while i < other.len()
        invariant
            i <= other@.len(),
            other@.len() <= schema@.len(),
            trail_groups_ok(schema@),
            trail_groups_ok(other@),
            match_len_from(schema@, other@, left, 0) == match_len_from(schema@, other@, left, i as int),
        decreases other.len() - i,
    {
        let side = if left { &other[i].left } else { &other[i].right };
        if meets_nothing(&side.character_groups, &schema[i].intersection) {
            return i;
        }
        i += 1;
    }
    i
}

/// The hashes of a side of `other`.
fn side_hash_list(other: &Vec<SearchEntry>, left: bool) -> (res: Vec<String>)
    ensures
        texts(res@) == side_hashes(other@, left),
{
    let mut out: Vec<String> = Vec::new();
    let mut i: usize = 0;
    while i < other.len()
        invariant
            i <= other@.len(),
            texts(out@) == side_hashes(other@, left).take(i as int),
        decreases other.len() - i,
    {
        let h = if left { other[i].left.hash.clone() } else { other[i].right.hash.clone() };
        proof {
            assert(h@ == side_hashes(other@, left)[i as int]);
        }
        let ghost before = out@;
        out.push(h);
        proof {
            assert(texts(out@) =~= texts(before).push(h@));
        }
        i += 1;
        proof {
            assert(texts(out@) =~= side_hashes(other@, left).take(i as int));
        }
    }
    proof {
        assert(side_hashes(other@, left).take(i as int) =~= side_hashes(other@, left));
    }
    out
}

/// Whether two lists hold the same texts in the same order.
fn same_texts(a: &Vec<String>, b: &Vec<String>) -> (res: bool)
    ensures
        res == (texts(a@) == texts(b@)),
{
    if a.len() != b.len() {
        proof {
            assert(texts(a@).len() != texts(b@).len());
        }
        return false;
    }
    let mut i: usize = 0;
    while i < a.len()
        invariant
            a@.len() == b@.len(),
            i <= a@.len(),
            forall|j: int| 0 <= j < i ==> a@[j]@ == b@[j]@,
        decreases a.len() - i,
    {
        if a[i] != b[i] {
            proof {
                assert(texts(a@)[i as int] != texts(b@)[i as int]);
            }
            return false;
        }
        i += 1;
    }
    proof {
        assert(texts(a@) =~= texts(b@));
    }
    true
}

/// Adds `m` to the matches unless it is there.
fn add_match(ms: &mut Vec<Vec<String>>, m: Vec<String>)
    ensures
        matches_model(final(ms)@) == with_match(matches_model(old(ms)@), texts(m@)),
{
    let mut j: usize = 0;
    while j < ms.len()
        invariant
            j <= ms@.len(),
            ms@ == old(ms)@,
            forall|k: int| 0 <= k < j ==> texts(ms@[k]@) != texts(m@),
        decreases ms.len() - j,
    {
        if same_texts(&ms[j], &m) {
            proof {
                assert(matches_model(ms@)[j as int] == texts(m@));
            }
            return;
        }
        j += 1;
    }
    let ghost before = ms@;
    proof {
        assert(!matches_model(before).contains(texts(m@))) by {
            if matches_model(before).contains(texts(m@)) {
                let k = choose|k: int| 0 <= k < matches_model(before).len() && matches_model(before)[k] == texts(m@);
                assert(texts(before[k]@) == texts(m@));
            }
        }
    }
    ms.push(m);
    proof {
        assert(matches_model(ms@) =~= matches_model(before).push(texts(m@)));
    }
}

/// Adds to `matches`, the matches of the trail `schema`, the sides of
/// `other` that match its input all the way.
fn absorb_into(schema: &Vec<SearchEntry>, matches: &mut Vec<Vec<String>>, other: &Vec<SearchEntry>)
    requires
        other@.len() <= schema@.len(),
        trail_groups_ok(schema@),
        trail_groups_ok(other@),
    ensures
        (schema@, matches_model(final(matches)@)) == absorb((schema@, matches_model(old(matches)@)), other@),
{
    if match_len(schema, other, true) == schema.len() {
        add_match(matches, side_hash_list(other, true));
    }
    if match_len(schema, other, false) == schema.len() {
        add_match(matches, side_hash_list(other, false));
    }
}

/// A newly reported trail with its own sides as its first matches.
pub fn new_scored_trail(trail: Vec<SearchEntry>) -> (res: ScoredTrail)
    requires
        trail_groups_ok(trail@),
    ensures
        trail_model(res) == absorb((trail@, Seq::empty()), trail@),
{
    let mut matches: Vec<Vec<String>> = Vec::new();
    proof {
        assert(matches_model(matches@) =~= Seq::<Seq<Seq<char>>>::empty());
    }
    absorb_into(&trail, &mut matches, &trail);
    ScoredTrail { trail, matches }
}

/// The scored trails, as values.
pub open spec fn results_model(r: Seq<Option<ScoredTrail>>) -> Seq<Option<TrailModel>> {
    r.map_values(
        |o: Option<ScoredTrail>|
            match o {
                Some(t) => Some(trail_model(t)),
                None => None,
            },
    )
}

/// The larger of two numbers.
pub open spec fn larger(a: int, b: int) -> int {
    if a < b {
        b
    } else {
        a
    }
}

/// The new trail `t` meets the stored trails from position `j` on: each
/// stored trail of the same length costs that length in work; while the
/// work stays under [`WORK_LIMIT`] the two trails absorb each other and the
/// score becomes at least the stored trail's number of matches. The result
/// is the stored trails, the new trail, the score and the work.
pub open spec fn scan(rs: Seq<Option<TrailModel>>, j: int, t: TrailModel, score: int, work: int) -> (
    Seq<Option<TrailModel>>,
    TrailModel,
    int,
    int,
)
    decreases rs.len() - j,
{
    if j < 0 || j >= rs.len() {
        (rs, t, score, work)
    } else {
        match rs[j] {
            Some(e) => if e.0.len() == t.0.len() {
                let w = work + t.0.len();
                if w >= WORK_LIMIT {
                    (rs, t, score, w)
                } else {
                    let t2 = absorb(t, e.0);
                    let e2 = absorb(e, t.0);
                    scan(rs.update(j, Some(e2)), j + 1, t2, larger(score, e2.1.len() as int), w)
                }
            } else {
                scan(rs, j + 1, t, score, work)
            },
            None => scan(rs, j + 1, t, score, work),
        }
    }
}

/// What one reported trail does to the score: the stored trails and the
/// new trail after they met, the new score and the new work. Past the work
/// limit each trail adds one to the score.
pub open spec fn spec_score_step(rs: Seq<Option<TrailModel>>, score: int, work: int, trail: Seq<SearchEntry>) -> (
    Seq<Option<TrailModel>>,
    TrailModel,
    int,
    int,
) {
    let t0 = absorb((trail, Seq::empty()), trail);
    if work < WORK_LIMIT {
        let r = scan(rs, 0, t0, score, work);
        let s = larger(r.2, r.1.1.len() as int);
        (r.0, r.1, if r.3 >= WORK_LIMIT { s + 1 } else { s }, r.3)
    } else {
        (rs, t0, score + 1, work)
    }
}

/// Meeting the stored trails never lowers the score or the work.
proof fn lemma_scan_grows(rs: Seq<Option<TrailModel>>, j: int, t: TrailModel, score: int, work: int)
    ensures
        scan(rs, j, t, score, work).2 >= score,
        scan(rs, j, t, score, work).3 >= work,
    decreases rs.len() - j,
{
    if 0 <= j < rs.len() {
        match rs[j] {
            Some(e) => if e.0.len() == t.0.len() {
                let w = work + t.0.len();
                if w < WORK_LIMIT {
                    let t2 = absorb(t, e.0);
                    let e2 = absorb(e, t.0);
                    lemma_scan_grows(rs.update(j, Some(e2)), j + 1, t2, larger(score, e2.1.len() as int), w);
                }
            } else {
                lemma_scan_grows(rs, j + 1, t, score, work);
            },
            None => lemma_scan_grows(rs, j + 1, t, score, work),
        }
    }
}

/// A reported trail never lowers the score or the work, and once the work
/// has reached [`WORK_LIMIT`] each reported trail adds exactly one to the
/// score.
pub proof fn lemma_score_never_drops(rs: Seq<Option<TrailModel>>, score: int, work: int, trail: Seq<SearchEntry>)
    ensures
        spec_score_step(rs, score, work, trail).2 >= score,
        spec_score_step(rs, score, work, trail).3 >= work,
        work >= WORK_LIMIT ==> spec_score_step(rs, score, work, trail).2 == score + 1,
{
    if work < WORK_LIMIT {
        let t0 = absorb((trail, Seq::empty()), trail);
        lemma_scan_grows(rs, 0, t0, score, work);
    }
}

/// Adding a match keeps every match already there.
proof fn lemma_with_match_keeps(ms: Seq<Seq<Seq<char>>>, m: Seq<Seq<char>>, x: Seq<Seq<char>>)
    ensures
        ms.contains(x) ==> with_match(ms, m).contains(x),
        with_match(ms, m).contains(m),
        with_match(ms, m).len() >= ms.len(),
{
    if ms.contains(x) && !ms.contains(m) {
        let i = choose|i: int| 0 <= i < ms.len() && ms[i] == x;
        assert(ms.push(m)[i] == x);
    }
    if !ms.contains(m) {
        assert(ms.push(m)[ms.len() as int] == m);
    }
}

/// After `me` meets `other`, it keeps its matches and holds every side of
/// `other` that matches its input all the way.
proof fn lemma_absorb_gains(me: TrailModel, other: Seq<SearchEntry>, x: Seq<Seq<char>>)
    ensures
        absorb(me, other).0 == me.0,
        me.1.contains(x) ==> absorb(me, other).1.contains(x),
        absorb(me, other).1.len() >= me.1.len(),
        match_len_from(me.0, other, true, 0) == me.0.len() ==> absorb(me, other).1.contains(side_hashes(other, true)),
        match_len_from(me.0, other, false, 0) == me.0.len() ==> absorb(me, other).1.contains(side_hashes(other, false)),
{
    let a = absorb_side(me, other, true);
    lemma_with_match_keeps(me.1, side_hashes(other, true), x);
    lemma_with_match_keeps(a.1, side_hashes(other, false), x);
    lemma_with_match_keeps(a.1, side_hashes(other, false), side_hashes(other, true));
}

/// One slot fewer costs one length fewer.
proof fn lemma_mul_step(a: int, n: int)
    by (nonlinear_arith)
    requires
        a >= 0,
        n >= 1,
    ensures
        a * (n - 1) + a == a * n,
        0 <= a * (n - 1),
{
}

/// The meeting of the new trail `t` with the stored trails from `j` on,
/// while the work stays under the limit: trails of another length and
/// trails before `j` stay as they were; a stored trail `k` of the same
/// length keeps its matches and gains each side of `t` that matches its
/// input; `t` keeps its matches and gains each side of that trail that
/// matches its own input; and the score is at least the old one and the
/// number of matches of that trail.
proof fn lemma_scan_pools(
    rs: Seq<Option<TrailModel>>,
    j: int,
    t: TrailModel,
    score: int,
    work: int,
    k: int,
    x: Seq<Seq<char>>,
    left: bool,
)
    requires
        0 <= j <= rs.len(),
        0 <= k < rs.len(),
        work + t.0.len() * (rs.len() - j) < WORK_LIMIT,
    ensures
        ({
            let r = scan(rs, j, t, score, work);
            &&& r.0.len() == rs.len()
            &&& r.1.0 == t.0
            &&& (t.1.contains(x) ==> r.1.1.contains(x))
            &&& r.2 >= score
            &&& r.3 < WORK_LIMIT
            &&& (k < j || !(rs[k] is Some && rs[k].unwrap().0.len() == t.0.len())) ==> r.0[k] == rs[k]
            &&& (j <= k && rs[k] is Some && rs[k].unwrap().0.len() == t.0.len()) ==> {
                let e = rs[k].unwrap();
                &&& r.0[k] matches Some(e2)
                &&& e2.0 == e.0
                &&& (e.1.contains(x) ==> e2.1.contains(x))
                &&& (match_len_from(e.0, t.0, left, 0) == e.0.len() ==> e2.1.contains(side_hashes(t.0, left)))
                &&& (match_len_from(t.0, e.0, left, 0) == t.0.len() ==> r.1.1.contains(side_hashes(e.0, left)))
                &&& r.2 >= e2.1.len()
            }
        }),
    decreases rs.len() - j,
{
    if j < rs.len() {
        lemma_mul_step(t.0.len() as int, rs.len() - j);
        match rs[j] {
            Some(e) => if e.0.len() == t.0.len() {
                let w = work + t.0.len();
                let t2 = absorb(t, e.0);
                let e2 = absorb(e, t.0);
                let rs2 = rs.update(j, Some(e2));
                let sc2 = larger(score, e2.1.len() as int);
                lemma_absorb_gains(t, e.0, x);
                lemma_scan_pools(rs2, j + 1, t2, sc2, w, k, x, left);
                if k == j {
                    lemma_absorb_gains(e, t.0, x);
                    lemma_absorb_gains(e, t.0, side_hashes(t.0, left));
                    lemma_absorb_gains(t, e.0, side_hashes(e.0, left));
                    lemma_scan_pools(rs2, j + 1, t2, sc2, w, k, side_hashes(e.0, left), left);
                }
            } else {
                lemma_scan_pools(rs, j + 1, t, score, work, k, x, left);
            },
            None => lemma_scan_pools(rs, j + 1, t, score, work, k, x, left),
        }
    }
}

/// When a reported trail meets the stored trails and the work stays under
/// [`WORK_LIMIT`], every stored trail of the same length pools its matches
/// with it: the stored trail keeps its matches and gains every side of the
/// new trail that matches its input all the way, the new trail holds its
/// own sides that match its input and every side of the stored trail that
/// does, trails of another length stay as they were, and the score is at
/// least the old score and the number of matches of each.
pub proof fn lemma_trails_of_one_length_pool_matches(
    rs: Seq<Option<TrailModel>>,
    trail: Seq<SearchEntry>,
    score: int,
    work: int,
    k: int,
    x: Seq<Seq<char>>,
    left: bool,
)
    requires
        0 <= k < rs.len(),
        work + trail.len() * rs.len() < WORK_LIMIT,
    ensures
        ({
            let r = spec_score_step(rs, score, work, trail);
            &&& r.0.len() == rs.len()
            &&& r.1.0 == trail
            &&& (match_len_from(trail, trail, left, 0) == trail.len() ==> r.1.1.contains(side_hashes(trail, left)))
            &&& r.2 >= score
            &&& r.2 >= r.1.1.len()
            &&& !(rs[k] is Some && rs[k].unwrap().0.len() == trail.len()) ==> r.0[k] == rs[k]
            &&& (rs[k] is Some && rs[k].unwrap().0.len() == trail.len()) ==> {
                let e = rs[k].unwrap();
                &&& r.0[k] matches Some(e2)
                &&& e2.0 == e.0
                &&& (e.1.contains(x) ==> e2.1.contains(x))
                &&& (match_len_from(e.0, trail, left, 0) == e.0.len() ==> e2.1.contains(side_hashes(trail, left)))
                &&& (match_len_from(trail, e.0, left, 0) == trail.len() ==> r.1.1.contains(side_hashes(e.0, left)))
                &&& r.2 >= e2.1.len()
            }
        }),
{
    let t0 = absorb((trail, Seq::empty()), trail);
    lemma_absorb_gains((trail, Seq::empty()), trail, side_hashes(trail, left));
    lemma_scan_pools(rs, 0, t0, score, work, k, x, left);
    lemma_scan_pools(rs, 0, t0, score, work, k, side_hashes(trail, left), left);
}

/// The ids of a trail's entries, the keys it is stored under.
pub open spec fn trail_ids(t: Seq<SearchEntry>) -> Seq<usize> {
    t.map_values(|e: SearchEntry| e.id)
}

/// The scorer's state: the reported trails, stored by their entry ids so
/// that a trail extending an earlier one replaces it, the score and the
/// work done.
pub struct ScoreState<F> {
    /// The reported trails.
    pub trails: Tree<ScoredTrail, usize, F>,
    /// The score so far.
    pub score: u64,
    /// The work so far.
    pub work: u64,
}

impl<F: Fn(&ScoredTrail) -> Vec<usize>> ScoreState<F> {
    /// The scorer before any trail: no trail stored, a score of 1 (every
    /// input matches one way) and no work done.
    pub fn new(decode: F) -> (res: Self)
        requires
            forall|t: &ScoredTrail| #[trigger] decode.requires((t,)),
        ensures
            res.trails.wf(),
            res.trails.decode == decode,
            res.trails.paths@.len() == 0,
            res.trails.results@.len() == 0,
            res.score == 1,
            res.work == 0,
    {
        ScoreState { trails: Tree::new(decode), score: 1, work: 0 }
    }
}

/// The ids of a trail's entries.
fn trail_id_list(t: &Vec<SearchEntry>) -> (res: Vec<usize>)
    ensures
        res@ == trail_ids(t@),
{
    let mut out: Vec<usize> = Vec::new();
    let mut i: usize = 0;
    while i < t.len()
        invariant
            i <= t@.len(),
            out@ == trail_ids(t@).take(i as int),
        decreases t.len() - i,
    {
        out.push(t[i].id);
        i += 1;
        proof {
            assert(out@ =~= trail_ids(t@).take(i as int));
        }
    }
    proof {
        assert(trail_ids(t@).take(i as int) =~= trail_ids(t@));
    }
    out
}

/// Every stored trail's character sets are sound.
pub open spec fn stored_groups_ok(rs: Seq<Option<ScoredTrail>>) -> bool {
    forall|j: int| 0 <= j < rs.len() && (#[trigger] rs[j]) is Some ==> trail_groups_ok(rs[j]->0.trail@)
}

/// Scores a newly reported trail; `true` when the score passes `max_score`
/// (no cap when `None`). The stored trails and the new one meet as
/// [`spec_score_step`] says, the score and the work become its results (the
/// score held at `u64::MAX`), and the new trail is stored under its ids.
pub fn score_step<F: Fn(&ScoredTrail) -> Vec<usize>>(state: &mut ScoreState<F>, trail: Vec<SearchEntry>, max_score: Option<u64>) -> (res: bool)
    requires
        old(state).trails.wf(),
        stored_groups_ok(old(state).trails.results@),
        trail_groups_ok(trail@),
        trail@.len() < u64::MAX - WORK_LIMIT,
    ensures
        final(state).trails.wf(),
        ({
            let r = spec_score_step(
                results_model(old(state).trails.results@),
                old(state).score as int,
                old(state).work as int,
                trail@,
            );
            &&& final(state).score == if r.2 <= u64::MAX { r.2 } else { u64::MAX as int }
            &&& final(state).work == r.3
            &&& exists|stored: Seq<Option<ScoredTrail>>, t: ScoredTrail|
                #![trigger results_model(stored), trail_model(t)]
                {
                    &&& results_model(stored) == r.0
                    &&& trail_model(t) == r.1
                    &&& stored.len() == old(state).trails.results@.len()
                    &&& path_views(final(state).trails.paths@) == path_views(old(state).trails.paths@).push(trail_ids(trail@))
                        || trail@.len() == 0
                    &&& final(state).trails.results@ == if trail@.len() == 0 {
                        stored
                    } else if is_new_path(path_views(old(state).trails.paths@), trail_ids(trail@)) {
                        shadowed_results(stored, old(state).trails.result_keys(), trail_ids(trail@)).push(Some(t))
                    } else {
                        shadowed_results(stored, old(state).trails.result_keys(), trail_ids(trail@))
                    }
                }
            &&& res == (max_score matches Some(m) && final(state).score > m)
        }),
{
    let ghost trail_view = trail@;
    let t0 = new_scored_trail(trail);
    let mut t = t0;
    assert(t.trail@ == trail_view);
    let trail_len = t.trail.len();
    let ghost rs0 = results_model(state.trails.results@);
    let ghost start = (state.score as int, state.work as int);
    let mut score: u64 = state.score;
    let mut work: u64 = state.work;
    let ghost mut score_i: int = score as int;
    if work < WORK_LIMIT {
        let mut j: usize = 0;
        let mut stop = false;
        while j < state.trails.results.len() && !stop
            invariant
                state.trails.wf(),
                stored_groups_ok(state.trails.results@),
                trail_groups_ok(t.trail@),
                t.trail@ == trail@,
                t.trail@.len() == trail_len,
                j <= state.trails.results@.len(),
                state.trails.results@.len() == old(state).trails.results@.len(),
                state.trails.paths == old(state).trails.paths,
                state.trails.result_paths == old(state).trails.result_paths,
                state.trails.decode == old(state).trails.decode,
                trail_len < u64::MAX - WORK_LIMIT,
                !stop ==> work < WORK_LIMIT,
                work <= WORK_LIMIT + trail_len,
                score_i <= u64::MAX ==> score == score_i,
                score_i > u64::MAX ==> score == u64::MAX,
                score_i >= 0,
                stop ==> scan(rs0, 0, absorb((trail@, Seq::empty()), trail@), start.0, start.1) == (
                    results_model(state.trails.results@),
                    trail_model(t),
                    score_i,
                    work as int,
                ),
                !stop ==> scan(rs0, 0, absorb((trail@, Seq::empty()), trail@), start.0, start.1) == scan(
                    results_model(state.trails.results@),
                    j as int,
                    trail_model(t),
                    score_i,
                    work as int,
                ),
            decreases state.trails.results@.len() - j, if stop { 0int } else { 1int },
        {
            let ghost rs = results_model(state.trails.results@);
            let same_len = match &state.trails.results[j] {
                Some(e) => e.trail.len() == trail_len,
                None => false,
            };
            if same_len {
                if work + (trail_len as u64) >= WORK_LIMIT {
                    work = work + trail_len as u64;
                    stop = true;
                } else {
                    work = work + trail_len as u64;
                    let mut slot: Option<ScoredTrail> = None;
                    std::mem::swap(&mut state.trails.results[j], &mut slot);
                    let mut e = slot.unwrap();
                    let ghost e0 = trail_model(e);
                    let ghost t_before = trail_model(t);
                    absorb_into(&t.trail, &mut t.matches, &e.trail);
                    absorb_into(&e.trail, &mut e.matches, &t.trail);
                    let m = e.matches.len() as u64;
                    proof {
                        score_i = larger(score_i, e.matches@.len() as int);
                    }
                    if m > score {
                        score = m;
                    }
                    let mut back = Some(e);
                    std::mem::swap(&mut state.trails.results[j], &mut back);
                    proof {
                        assert(results_model(state.trails.results@) =~= rs.update(j as int, Some(trail_model(e))));
                    }
                }
            } else {
                proof {
                    assert(results_model(state.trails.results@) == rs);
                }
            }
            if !stop {
                j += 1;
            }
        }
        proof {
            if !stop {
                assert(scan(results_model(state.trails.results@), j as int, trail_model(t), score_i, work as int) == (
                    results_model(state.trails.results@),
                    trail_model(t),
                    score_i,
                    work as int,
                ));
            }
        }
        let m = t.matches.len() as u64;
        proof {
            score_i = larger(score_i, t.matches@.len() as int);
        }
        if m > score {
            score = m;
        }
    }
    if work >= WORK_LIMIT {
        score = score.saturating_add(1);
        proof {
            score_i = score_i + 1;
        }
    }
    state.score = score;
    state.work = work;
    let ghost stored = state.trails.results@;
    let ghost tm = trail_model(t);
    let keys = trail_id_list(&t.trail);
    let ghost old_tree_keys = state.trails.result_keys();
    state.trails.add_with_keys(t, keys);
    proof {
        assert(old_tree_keys == old(state).trails.result_keys());
        let r = spec_score_step(rs0, start.0, start.1, trail@);
        assert(r.1 == tm);
        assert(r.0 == results_model(stored));
        assert(r.3 == work);
        assert(score_i == r.2);
        assert(stored.len() == old(state).trails.results@.len());
        assert(state.score == if r.2 <= u64::MAX { r.2 } else { u64::MAX as int });
        assert(path_views(state.trails.paths@) == path_views(old(state).trails.paths@).push(trail_ids(trail@))
            || trail@.len() == 0);
        assert(state.trails.results@ == if trail@.len() == 0 {
            stored
        } else if is_new_path(path_views(old(state).trails.paths@), trail_ids(trail@)) {
            shadowed_results(stored, old(state).trails.result_keys(), trail_ids(trail@)).push(Some(t))
        } else {
            shadowed_results(stored, old(state).trails.result_keys(), trail_ids(trail@))
        });
    }
    match max_score {
        Some(cap) => score > cap,
        None => false,
    }
}

} // verus!
