//! Quantifier accounting used by the readers and the checker.
use crate::ast::{GroupBehavior, NodeKind, RcNode};
use crate::character_reader::level0::StackEntry;
use crate::map::must_get;
use crate::node_extra::NodeExtra;
use std::collections::HashMap;
use vstd::prelude::*;
use vstd::std_specs::hash::spec_hash_map_iter;
use vstd::std_specs::iter::IteratorSpec;

verus! {

/// Each quantifier of a stack with its most recent iteration; later frames
/// overwrite earlier ones.
pub open spec fn quantifier_iterations(stack: Seq<StackEntry>) -> Map<usize, u64>
    decreases stack.len(),
{
    if stack.len() == 0 {
        Map::<usize, u64>::empty()
    } else {
        let m = quantifier_iterations(stack.drop_last());
        match stack.last() {
            StackEntry::Quantifier { iteration, quantifier } => m.insert(quantifier.id, iteration),
            _ => m,
        }
    }
}

/// Maps each quantifier in a stack to its most recent iteration.
///
/// Keyed by node id. Later frames overwrite earlier ones, so the deepest
/// iteration wins per quantifier.
pub fn build_quantifier_iterations(stack: &[StackEntry]) -> (res: HashMap<usize, u64>)
    ensures
        res@ == quantifier_iterations(stack@),
{
    let mut res: HashMap<usize, u64> = HashMap::new();
    let mut i: usize = 0;
    while i < stack.len()
        invariant
            i <= stack@.len(),
            res@ == quantifier_iterations(stack@.take(i as int)),
        decreases stack.len() - i,
    {
        proof {
            assert(stack@.take(i + 1).drop_last() =~= stack@.take(i as int));
            assert(stack@.take(i + 1).last() == stack@[i as int]);
        }
        if let StackEntry::Quantifier { iteration, quantifier } = &stack[i] {
            res.insert(quantifier.id, *iteration);
        }
        i += 1;
    }
    proof {
        assert(stack@.take(i as int) =~= stack@);
    }
    res
}

/// The id of the group of a capturing-group frame.
pub open spec fn capturing_frame_id(e: StackEntry) -> Option<usize> {
    match e {
        StackEntry::Group { group } => match group.kind {
            NodeKind::Group { behavior, body } => if behavior == GroupBehavior::Normal {
                Some(group.id)
            } else {
                None
            },
            _ => None,
        },
        _ => None,
    }
}

/// The group index a reference node points at.
pub open spec fn reference_index(n: RcNode) -> Option<u64> {
    match n.kind {
        NodeKind::Reference { match_index } => Some(match_index),
        _ => None,
    }
}

/// A capturing group frame of the stack is the target of a reachable
/// reference, so every iteration matters.
pub open spec fn is_exhaustive(stack: Seq<StackEntry>, extra: NodeExtra) -> bool {
    exists|i: int, r: int|
        0 <= i < stack.len() && 0 <= r < extra.reachable_references@.len() && (#[trigger] capturing_frame_id(stack[i])) is Some
            && #[trigger] reference_index(extra.reachable_references@[r]) == Some(
            extra.capturing_group_to_index@[capturing_frame_id(stack[i]).unwrap()],
        )
}

/// The ids of the quantifiers of a stack that are past their first mandatory
/// pass, each once, in stack order.
pub open spec fn infinite_portion(stack: Seq<StackEntry>) -> Seq<usize>
    decreases stack.len(),
{
    if stack.len() == 0 {
        Seq::<usize>::empty()
    } else {
        let r = infinite_portion(stack.drop_last());
        match stack.last() {
            StackEntry::Quantifier { iteration, quantifier } => match quantifier.kind {
                NodeKind::Quantifier { min, max, greedy, symbol, body } => if iteration >= 1 && iteration
                    >= min && !r.contains(quantifier.id) {
                    r.push(quantifier.id)
                } else {
                    r
                },
                _ => r,
            },
            _ => r,
        }
    }
}

/// Every capturing group frame has an index.
pub open spec fn groups_indexed(stack: Seq<StackEntry>, extra: NodeExtra) -> bool {
    forall|i: int|
        0 <= i < stack.len() && (#[trigger] capturing_frame_id(stack[i])) is Some
            ==> extra.capturing_group_to_index@.contains_key(capturing_frame_id(stack[i]).unwrap())
}

/// `true` when a reachable reference points at group `index`.
fn referenced(extra: &NodeExtra, index: u64) -> (res: bool)
    ensures
        res == exists|r: int|
            0 <= r < extra.reachable_references@.len() && #[trigger] reference_index(extra.reachable_references@[r]) == Some(index),
{
    let mut r: usize = 0;
    while r < extra.reachable_references.len()
        invariant
            r <= extra.reachable_references@.len(),
            forall|j: int| 0 <= j < r ==> #[trigger] reference_index(extra.reachable_references@[j]) != Some(index),
        decreases extra.reachable_references.len() - r,
    {
        if let NodeKind::Reference { match_index } = &extra.reachable_references[r].kind {
            if *match_index == index {
                assert(reference_index(extra.reachable_references@[r as int]) == Some(index));
                return true;
            }
        }
        r += 1;
    }
    false
}

/// Returns the quantifiers whose post-minimum iterations can be collapsed.
///
/// If the stack is inside a capturing group that some reachable reference
/// points at, every iteration matters, so the result is empty. Otherwise it is
/// the set of quantifiers iterating beyond their first mandatory pass.
pub fn build_quantifiers_in_infinite_portion(stack: &[StackEntry], node_extra: &NodeExtra) -> (res: Vec<usize>)
    requires
        groups_indexed(stack@, *node_extra),
    ensures
        res@ == if is_exhaustive(stack@, *node_extra) {
            Seq::<usize>::empty()
        } else {
            infinite_portion(stack@)
        },
{
    let mut i: usize = 0;
    while i < stack.len()
        invariant
            i <= stack@.len(),
            groups_indexed(stack@, *node_extra),
            forall|j: int, r: int|
                0 <= j < i && 0 <= r < node_extra.reachable_references@.len() && (#[trigger] capturing_frame_id(stack@[j])) is Some
                    ==> #[trigger] reference_index(node_extra.reachable_references@[r]) != Some(
                    node_extra.capturing_group_to_index@[capturing_frame_id(stack@[j]).unwrap()],
                ),
        decreases stack.len() - i,
    {
        if let StackEntry::Group { group } = &stack[i] {
            if let NodeKind::Group { behavior, .. } = &group.kind {
                if *behavior == GroupBehavior::Normal {
                    assert(capturing_frame_id(stack@[i as int]) == Some(group.id));
                    let index = *must_get(&node_extra.capturing_group_to_index, &group.id);
                    if referenced(node_extra, index) {
                        return Vec::new();
                    }
                }
            }
        }
        i += 1;
    }

    let mut result: Vec<usize> = Vec::new();
    let mut k: usize = 0;
    while k < stack.len()
        invariant
            k <= stack@.len(),
            result@ == infinite_portion(stack@.take(k as int)),
        decreases stack.len() - k,
    {
        proof {
            assert(stack@.take(k + 1).drop_last() =~= stack@.take(k as int));
            assert(stack@.take(k + 1).last() == stack@[k as int]);
        }
        if let StackEntry::Quantifier { iteration, quantifier } = &stack[k] {
            if let NodeKind::Quantifier { min, .. } = &quantifier.kind {
                if *iteration >= 1 && *iteration >= *min && !contains_usize(&result, quantifier.id) {
                    result.push(quantifier.id);
                }
            }
        }
        k += 1;
    }
    proof {
        assert(stack@.take(k as int) =~= stack@);
    }
    result
}

fn contains_usize(v: &Vec<usize>, x: usize) -> (res: bool)
    ensures
        res == v@.contains(x),
{
    let mut i: usize = 0;
    while i < v.len()
        invariant
            i <= v@.len(),
            forall|j: int| 0 <= j < i ==> v@[j] != x,
        decreases v.len() - i,
    {
        if v[i] == x {
            return true;
        }
        i += 1;
    }
    false
}

/// How far a quantifier advanced between two snapshots, saturating at 0.
pub open spec fn advance(before: Map<usize, u64>, q: usize, now: u64) -> int {
    let b: int = if before.contains_key(q) {
        before[q] as int
    } else {
        0
    };
    if now >= b {
        now - b
    } else {
        0
    }
}

/// Returns `true` when any quantifier advanced by more than one iteration.
pub fn have_had_complete_iteration(before: &HashMap<usize, u64>, now: &HashMap<usize, u64>) -> (res: bool)
    ensures
        res == exists|q: usize| #[trigger] now@.contains_key(q) && advance(before@, q, now@[q]) > 1,
{
    let ghost entries = IteratorSpec::remaining(&spec_hash_map_iter(now));
    for pair in iter: now.iter()
        invariant
            iter.seq() == entries,
            entries == IteratorSpec::remaining(&spec_hash_map_iter(now)),
            forall|j: int| 0 <= j < iter.index() ==> advance(before@, *(#[trigger] entries[j]).0, *entries[j].1) <= 1,
    {
        let (quantifier, iterations_now) = pair;
        let iterations_before = match before.get(quantifier) {
            Some(v) => *v,
            None => 0,
        };
        if iterations_now.saturating_sub(iterations_before) > 1 {
            proof {
                let idx = iter.index();
                assert(entries[idx] == pair);
                assert(now@.contains_key(*quantifier) && now@[*quantifier] == *iterations_now);
            }
            return true;
        }
    }
    proof {
        assert forall|q: usize| #[trigger] now@.contains_key(q) implies advance(before@, q, now@[q]) <= 1 by {
            assert(entries.contains((&q, &now@[q])));
            let j = choose|j: int| 0 <= j < entries.len() && entries[j] == (&q, &now@[q]);
            assert(advance(before@, *entries[j].0, *entries[j].1) <= 1);
        }
    }
    false
}

} // verus!
