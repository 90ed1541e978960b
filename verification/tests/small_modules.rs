use redos_detector::ast::{GroupBehavior, NodeKind, RcNode};
use redos_detector::character_groups::EscapeMap;
use redos_detector::character_reader::level0::{
    get_groups, get_lookahead_stack, SplitSubType, StackEntry,
};
use redos_detector::character_reader::level1::{ZeroWidthEntry, ZeroWidthKind};
use redos_detector::checker::{
    atomic_group_hashes_from_stack, build_context_trail, build_zero_width_hash,
};
use redos_detector::infinite_loop_tracker::{Entry, InfiniteLoopTracker};
use redos_detector::node_extra::build_node_extra;
use redos_detector::parse::parse;
use redos_detector::quantifier::{
    build_quantifier_iterations, build_quantifiers_in_infinite_portion,
    have_had_complete_iteration,
};
use redos_detector::result_cache::ResultCache;
use std::collections::{HashMap, HashSet};

fn children(node: &RcNode) -> Vec<RcNode> {
    match &node.kind {
        NodeKind::Alternative { body }
        | NodeKind::Disjunction { body }
        | NodeKind::Group { body, .. } => body.clone(),
        NodeKind::Quantifier { body, .. } => vec![body.clone()],
        _ => vec![],
    }
}

#[test]
fn result_cache_is_symmetric() {
    let mut cache: ResultCache<bool, u64> = ResultCache::new();
    assert_eq!(cache.get_result(&1, &2), None);
    cache.add_result(1, 2, true);
    assert_eq!(cache.get_result(&1, &2), Some(true));
    assert_eq!(cache.get_result(&2, &1), Some(true));
    cache.add_result(2, 1, false);
    assert_eq!(cache.get_result(&1, &2), Some(false));
    assert_eq!(cache.get_result(&3, &3), None);
}

fn entry(left: &str, right: &str, id: usize) -> Entry {
    Entry { left: left.to_string(), right: right.to_string(), trail_entry_id: id }
}

#[test]
fn loop_tracker_finds_shortest_repeat() {
    let mut tracker = InfiniteLoopTracker::new();
    assert!(tracker.get_repeating_entries().is_none());
    tracker.append(entry("a", "b", 0));
    assert!(tracker.get_repeating_entries().is_none());
    tracker.append(entry("c", "d", 1));
    assert!(tracker.get_repeating_entries().is_none());
    tracker.append(entry("a", "b", 2));
    tracker.append(entry("c", "d", 3));
    let block = tracker.get_repeating_entries().unwrap();
    assert_eq!(block.len(), 2);
    assert_eq!(block[0].trail_entry_id, 0);
    assert_eq!(block[1].trail_entry_id, 1);
    tracker.append(entry("c", "d", 4));
    let block = tracker.get_repeating_entries().unwrap();
    assert_eq!(block.len(), 1);
    assert_eq!(block[0].trail_entry_id, 3);
    assert!(entry("x", "y", 0).same_as(&entry("x", "y", 9)));
    assert!(!entry("x", "y", 0).same_as(&entry("x", "z", 0)));
}

#[test]
fn node_extra_indexes_groups_and_references() {
    let ast = parse("(a)(?=(b))\\1(?:c\\2){0}", false).unwrap();
    let extra = build_node_extra(&ast);
    assert_eq!(extra.capturing_group_to_index.len(), 2);
    assert_eq!(extra.index_to_capturing_group.len(), 2);
    let first = extra.index_to_capturing_group.get(&1).unwrap();
    assert_eq!(first.raw, "(a)");
    let second = extra.index_to_capturing_group.get(&2).unwrap();
    assert_eq!(second.raw, "(b)");
    assert_eq!(extra.capturing_group_to_index.get(&first.id), Some(&1));
    // Only `\1` is reachable: `\2` sits under `{0}`.
    assert_eq!(extra.reachable_references.len(), 1);
    assert_eq!(extra.reachable_references[0].raw, "\\1");
    // The group inside the lookahead records the lookahead around it.
    let stack = extra.node_to_lookahead_stack.get(&second.id).unwrap();
    assert_eq!(stack.len(), 1);
    assert_eq!(stack[0].raw, "(?=(b))");
    assert!(extra.node_to_lookahead_stack.get(&first.id).unwrap().is_empty());
}

#[test]
fn quantifier_iterations_keep_the_latest() {
    let ast = parse("(a+)*", false).unwrap();
    let star = ast.clone();
    let group = children(&star)[0].clone();
    let plus = children(&group)[0].clone();
    let stack = vec![
        StackEntry::Quantifier { iteration: 2, quantifier: star.clone() },
        StackEntry::Group { group: group.clone() },
        StackEntry::Quantifier { iteration: 1, quantifier: plus.clone() },
        StackEntry::Quantifier { iteration: 3, quantifier: star.clone() },
    ];
    let its = build_quantifier_iterations(&stack);
    assert_eq!(its.get(&star.id), Some(&3));
    assert_eq!(its.get(&plus.id), Some(&1));
    assert_eq!(its.len(), 2);

    let extra = build_node_extra(&ast);
    let portion = build_quantifiers_in_infinite_portion(&stack, &extra);
    assert_eq!(portion, vec![star.id, plus.id]);

    // A referenced group makes every iteration matter.
    let ast2 = parse("(a+)*\\1", false).unwrap();
    let extra2 = build_node_extra(&ast2);
    let star2 = children(&ast2)[0].clone();
    let group2 = children(&star2)[0].clone();
    let stack2 = vec![
        StackEntry::Quantifier { iteration: 2, quantifier: star2.clone() },
        StackEntry::Group { group: group2.clone() },
    ];
    assert!(build_quantifiers_in_infinite_portion(&stack2, &extra2).is_empty());
}

#[test]
fn complete_iteration_needs_a_jump_of_two() {
    let mut before: HashMap<usize, u64> = HashMap::new();
    let mut now: HashMap<usize, u64> = HashMap::new();
    before.insert(1, 1);
    now.insert(1, 2);
    assert!(!have_had_complete_iteration(&before, &now));
    now.insert(1, 3);
    assert!(have_had_complete_iteration(&before, &now));
    now.insert(1, 0);
    assert!(!have_had_complete_iteration(&before, &now));
    now.insert(7, 2);
    assert!(have_had_complete_iteration(&before, &now));
}

#[test]
fn split_sub_type_from_behavior() {
    assert_eq!(SplitSubType::from_behavior(GroupBehavior::Lookahead), SplitSubType::Lookahead);
    assert_eq!(
        SplitSubType::from_behavior(GroupBehavior::NegativeLookbehind),
        SplitSubType::NegativeLookbehind
    );
    assert_eq!(SplitSubType::from_behavior(GroupBehavior::Normal), SplitSubType::Branch);
}

#[test]
fn stack_groups_and_lookarounds() {
    let ast = parse("(?=(a))", false).unwrap();
    let look = ast.clone();
    let inner = children(&look)[0].clone();
    let stack = vec![
        StackEntry::Group { group: look.clone() },
        StackEntry::Quantifier { iteration: 0, quantifier: inner.clone() },
        StackEntry::Group { group: inner.clone() },
    ];
    let groups = get_groups(&stack);
    assert_eq!(groups.len(), 2);
    assert_eq!(groups[0].id, look.id);
    assert_eq!(groups[1].id, inner.id);
    let looks = get_lookahead_stack(&stack);
    assert_eq!(looks.len(), 1);
    assert_eq!(looks[0].id, look.id);
}

#[test]
fn escape_map_keeps_first_seen_order() {
    let mut m = EscapeMap::new();
    assert!(m.is_empty());
    m.set("L".to_string(), false);
    m.set("N".to_string(), true);
    m.set("L".to_string(), true);
    assert_eq!(m.len(), 2);
    assert_eq!(m.get("L"), Some(true));
    assert_eq!(m.get("N"), Some(true));
    assert_eq!(m.get("X"), None);
    assert_eq!(m.entries[0].0, "L");
    let s = EscapeMap::single("Lu".to_string(), false);
    assert_eq!(s.get("Lu"), Some(false));
    assert_eq!(s.len(), 1);
}

#[test]
fn context_trails_and_hashes() {
    let ast = parse("(a)*\\1", false).unwrap();
    let star = children(&ast)[0].clone();
    let group = children(&star)[0].clone();
    let reference = children(&ast)[1].clone();
    let stack = vec![
        StackEntry::Quantifier { iteration: 3, quantifier: star.clone() },
        StackEntry::Group { group: group.clone() },
        StackEntry::Reference { reference: reference.clone() },
    ];
    assert_eq!(build_context_trail(&stack, false), "q:0:3,g:0,r:4");
    assert_eq!(build_context_trail(&stack, true), "q:0:*,g:0,r:4");
    assert_eq!(build_context_trail(&[], true), "");

    let offsets: HashSet<usize> = [0usize].into_iter().collect();
    let hashes = atomic_group_hashes_from_stack(&stack, &offsets);
    assert_eq!(hashes.len(), 1);
    assert!(hashes.contains("q:0:3,g:0"));

    let zw = ZeroWidthEntry { offset: 7, stack, kind: ZeroWidthKind::Start };
    assert_eq!(build_zero_width_hash(&zw), "start:7:q:0:3,g:0,r:4");
}
