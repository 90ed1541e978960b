//! Hashes that identify where a checker entry stands.
//!
//! A context trail names the frames of a stack by the offsets of their
//! nodes; two entries with the same trail stand in the same place.
use crate::ast::NodeKind;
use crate::character_reader::level0::StackEntry;
use crate::character_reader::level1::{ZeroWidthEntry, ZeroWidthKind};
use crate::text::{decimal_text, push_decimal, push_str};
use crate::to_friendly::{join, join_text, texts};
use std::collections::HashSet;
use vstd::prelude::*;
use vstd::std_specs::hash::obeys_key_model;

verus! {

/// The text of one frame: `q:<offset>:<iteration>`, `r:<offset>` or
/// `g:<offset>`. With `asterisk_infinite`, the iteration of an unbounded
/// quantifier past its minimum reads `*`.
pub open spec fn frame_text(entry: StackEntry, asterisk_infinite: bool) -> Seq<char> {
    match entry {
        StackEntry::Quantifier { iteration, quantifier } => {
            let suffix = match quantifier.kind {
                NodeKind::Quantifier { min, max, greedy, symbol, body } => if asterisk_infinite
                    && max is None && iteration >= min {
                    "*"@
                } else {
                    decimal_text(iteration as nat)
                },
                _ => decimal_text(iteration as nat),
            };
            "q:"@ + decimal_text(quantifier.range.0 as nat) + ":"@ + suffix
        },
        StackEntry::Reference { reference } => "r:"@ + decimal_text(reference.range.0 as nat),
        StackEntry::Group { group } => "g:"@ + decimal_text(group.range.0 as nat),
    }
}

/// The frames of a stack joined by commas.
pub open spec fn context_trail(stack: Seq<StackEntry>, asterisk_infinite: bool) -> Seq<char> {
    join_text(stack.map_values(|e: StackEntry| frame_text(e, asterisk_infinite)), ","@)
}

fn frame_string(entry: &StackEntry, asterisk_infinite: bool) -> (res: String)
    ensures
        res@ == frame_text(*entry, asterisk_infinite),
{
    let mut out = String::new();
    match entry {
        StackEntry::Quantifier { iteration, quantifier } => {
            push_str(&mut out, "q:");
            push_decimal(&mut out, quantifier.range.0 as u64);
            push_str(&mut out, ":");
            let star = match &quantifier.kind {
                NodeKind::Quantifier { min, max, .. } => asterisk_infinite && max.is_none() && *iteration >= *min,
                _ => false,
            };
            let ghost before = out@;
            if star {
                push_str(&mut out, "*");
            } else {
                push_decimal(&mut out, *iteration);
            }
            proof {
                let suffix = if star {
                    "*"@
                } else {
                    decimal_text(*iteration as nat)
                };
                assert(out@ =~= "q:"@ + decimal_text(quantifier.range.0 as nat) + ":"@ + suffix);
                assert(out@ =~= frame_text(*entry, asterisk_infinite));
            }
        },
        StackEntry::Reference { reference } => {
            push_str(&mut out, "r:");
            push_decimal(&mut out, reference.range.0 as u64);
            proof {
                assert(out@ =~= "r:"@ + decimal_text(reference.range.0 as nat));
            }
        },
        StackEntry::Group { group } => {
            push_str(&mut out, "g:");
            push_decimal(&mut out, group.range.0 as u64);
            proof {
                assert(out@ =~= "g:"@ + decimal_text(group.range.0 as nat));
            }
        },
    }
    out
}

/// Builds the context trail of a stack.
pub fn build_context_trail(stack: &[StackEntry], asterisk_infinite: bool) -> (res: String)
    ensures
        res@ == context_trail(stack@, asterisk_infinite),
{
    let mut parts: Vec<String> = Vec::new();
    let mut i: usize = 0;
    while i < stack.len()
        invariant
            i <= stack@.len(),
            texts(parts@) == stack@.take(i as int).map_values(|e: StackEntry| frame_text(e, asterisk_infinite)),
        decreases stack.len() - i,
    {
        let part = frame_string(&stack[i], asterisk_infinite);
        let ghost prev = parts@;
        parts.push(part);
        proof {
            assert(texts(parts@) =~= texts(prev).push(part@));
            assert(stack@.take(i + 1).map_values(|e: StackEntry| frame_text(e, asterisk_infinite)) =~= stack@.take(i as int).map_values(|e: StackEntry| frame_text(e, asterisk_infinite)).push(frame_text(stack@[i as int], asterisk_infinite)));
        }
        i += 1;
    }
    proof {
        assert(stack@.take(i as int) =~= stack@);
    }
    join(&parts, ",")
}

/// The context trails of the prefixes of `stack` that end at a group frame
/// whose group starts at one of `offsets`, shortest first.
pub open spec fn atomic_group_hash_list(stack: Seq<StackEntry>, offsets: Set<usize>) -> Seq<Seq<char>>
    decreases stack.len(),
{
    if stack.len() == 0 {
        Seq::<Seq<char>>::empty()
    } else {
        let rest = atomic_group_hash_list(stack.drop_last(), offsets);
        match stack.last() {
            StackEntry::Group { group } => if offsets.contains(group.range.0) {
                rest.push(context_trail(stack, false))
            } else {
                rest
            },
            _ => rest,
        }
    }
}

/// Returns the context trails of the atomic groups a stack is inside.
///
/// The set's contents are stated where `String` keys follow the hash-table
/// key model.
pub fn atomic_group_hashes_from_stack(stack: &[StackEntry], atomic_group_offsets: &HashSet<usize>) -> (res: HashSet<String>)
    ensures
        obeys_key_model::<String>() ==> res@.map(|s: String| s@) == atomic_group_hash_list(
            stack@,
            atomic_group_offsets@,
        ).to_set(),
{
    let mut res: HashSet<String> = HashSet::new();
    let mut i: usize = 0;
    proof {
        assert(res@.map(|s: String| s@) =~= Set::<Seq<char>>::empty());
        assert(atomic_group_hash_list(stack@.take(0), atomic_group_offsets@).to_set() =~= Set::<Seq<char>>::empty());
    }
    while i < stack.len()
        invariant
            i <= stack@.len(),
            obeys_key_model::<String>() ==> res@.map(|s: String| s@) == atomic_group_hash_list(
                stack@.take(i as int),
                atomic_group_offsets@,
            ).to_set(),
        decreases stack.len() - i,
    {
        let ghost before = res@;
        proof {
            assert(stack@.take(i + 1).drop_last() =~= stack@.take(i as int));
            assert(stack@.take(i + 1).last() == stack@[i as int]);
        }
        if let StackEntry::Group { group } = &stack[i] {
            if atomic_group_offsets.contains(&group.range.0) {
                let (prefix, _) = stack.split_at(i + 1);
                let hash = build_context_trail(prefix, false);
                res.insert(hash);
                proof {
                    if obeys_key_model::<String>() {
                        assert(prefix@ =~= stack@.take(i + 1));
                        before.lemma_set_map_insert_commute(hash, |s: String| s@);
                        atomic_group_hash_list(stack@.take(i as int), atomic_group_offsets@).lemma_push_to_set_commute(hash@);
                    }
                }
            }
        }
        i += 1;
    }
    proof {
        assert(stack@.take(i as int) =~= stack@);
    }
    res
}

/// The context trails of the atomic groups a stack is inside, shortest
/// stack first, as a list.
pub fn atomic_group_hash_vec(stack: &[StackEntry], atomic_group_offsets: &HashSet<usize>) -> (res: Vec<String>)
    ensures
        texts(res@) == atomic_group_hash_list(stack@, atomic_group_offsets@),
{
    let mut res: Vec<String> = Vec::new();
    let mut i: usize = 0;
    proof {
        assert(texts(res@) =~= atomic_group_hash_list(stack@.take(0), atomic_group_offsets@));
    }
    while i < stack.len()
        invariant
            i <= stack@.len(),
            texts(res@) == atomic_group_hash_list(stack@.take(i as int), atomic_group_offsets@),
        decreases stack.len() - i,
    {
        proof {
            assert(stack@.take(i + 1).drop_last() =~= stack@.take(i as int));
            assert(stack@.take(i + 1).last() == stack@[i as int]);
        }
        if let StackEntry::Group { group } = &stack[i] {
            if atomic_group_offsets.contains(&group.range.0) {
                let (prefix, _) = stack.split_at(i + 1);
                let hash = build_context_trail(prefix, false);
                let ghost before = res@;
                res.push(hash);
                proof {
                    assert(prefix@ =~= stack@.take(i + 1));
                    assert(texts(res@) =~= texts(before).push(hash@));
                }
            }
        }
        i += 1;
    }
    proof {
        assert(stack@.take(i as int) =~= stack@);
    }
    res
}

/// The hash of a zero-width marker: its kind, offset and context trail.
pub open spec fn zero_width_hash(zw: ZeroWidthEntry) -> Seq<char> {
    let kind = match zw.kind {
        ZeroWidthKind::Null => "null"@,
        ZeroWidthKind::Start => "start"@,
    };
    kind + ":"@ + decimal_text(zw.offset as nat) + ":"@ + context_trail(zw.stack@, false)
}

/// Builds the hash of a zero-width marker.
pub fn build_zero_width_hash(zw: &ZeroWidthEntry) -> (res: String)
    ensures
        res@ == zero_width_hash(*zw),
{
    let mut out = String::new();
    match zw.kind {
        ZeroWidthKind::Null => push_str(&mut out, "null"),
        ZeroWidthKind::Start => push_str(&mut out, "start"),
    }
    push_str(&mut out, ":");
    push_decimal(&mut out, zw.offset as u64);
    push_str(&mut out, ":");
    let trail = build_context_trail(zw.stack.as_slice(), false);
    push_str(&mut out, trail.as_str());
    proof {
        let kind = match zw.kind {
            ZeroWidthKind::Null => "null"@,
            ZeroWidthKind::Start => "start"@,
        };
        assert(out@ =~= kind + ":"@ + decimal_text(zw.offset as nat) + ":"@ + context_trail(zw.stack@, false));
    }
    out
}

} // verus!
