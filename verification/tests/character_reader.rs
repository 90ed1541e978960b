use redos_detector::ast::{NodeKind, RcNode};
use redos_detector::character_reader::join::{
    branch_join_index, join_array_action, quantifier_join_action, JoinAction, JoinProgress, JoinStep,
};
use redos_detector::character_reader::level0::{
    with_pushed_frame, CharacterReaderValue, SplitSubType, StackEntry,
};
use redos_detector::character_reader::level1::{
    level1_step, Level1Step, Level1Value, ZeroWidthEntry, ZeroWidthKind,
};
use redos_detector::character_reader::level2::{
    clear_groups_ahead, GroupContents, GroupEntry, Level2Error, Level2Return, Level2State,
    ReferenceOutcome,
};
use redos_detector::character_reader::level1::Level1Return;
use redos_detector::node_extra::{build_node_extra, NodeExtra};
use redos_detector::parse::parse;
use redos_detector::reader::Step;
use std::collections::HashMap;
use std::rc::Rc;

fn children(node: &RcNode) -> Vec<RcNode> {
    match &node.kind {
        NodeKind::Alternative { body }
        | NodeKind::Disjunction { body }
        | NodeKind::Group { body, .. } => body.clone(),
        NodeKind::Quantifier { body, .. } => vec![body.clone()],
        _ => vec![],
    }
}

fn find(node: &RcNode, pred: &dyn Fn(&RcNode) -> bool) -> Option<RcNode> {
    if pred(node) {
        return Some(node.clone());
    }
    for child in children(node) {
        if let Some(found) = find(&child, pred) {
            return Some(found);
        }
    }
    None
}

fn is_capturing(n: &RcNode) -> bool {
    matches!(
        &n.kind,
        NodeKind::Group { behavior: redos_detector::ast::GroupBehavior::Normal, .. }
    )
}

fn is_reference(n: &RcNode) -> bool {
    matches!(&n.kind, NodeKind::Reference { .. })
}

fn is_value(n: &RcNode) -> bool {
    matches!(&n.kind, NodeKind::Value { .. })
}

fn is_quantifier(n: &RcNode) -> bool {
    matches!(&n.kind, NodeKind::Quantifier { .. })
}

struct Parsed {
    group: RcNode,
    value: RcNode,
    reference: RcNode,
    extra: NodeExtra,
    root: RcNode,
}

fn parsed(pattern: &str) -> Parsed {
    let root = parse(pattern, false).unwrap();
    let extra = build_node_extra(&root);
    Parsed {
        group: find(&root, &is_capturing).unwrap(),
        value: find(&root, &is_value).unwrap(),
        reference: find(&root, &is_reference).unwrap(),
        extra,
        root,
    }
}

#[test]
fn quantifier_action_follows_bounds() {
    assert_eq!(quantifier_join_action(1, Some(3), 0, 0), JoinAction::Continue);
    assert_eq!(quantifier_join_action(1, Some(3), 1, 0), JoinAction::Fork);
    assert_eq!(quantifier_join_action(1, Some(3), 2, 1), JoinAction::Fork);
    assert_eq!(quantifier_join_action(1, Some(3), 3, 0), JoinAction::Stop);
    assert_eq!(quantifier_join_action(0, None, 1000, 0), JoinAction::Fork);
    assert_eq!(quantifier_join_action(5, None, 1, 2), JoinAction::Stop);
}

#[test]
fn array_join_reads_each_reader_once() {
    assert_eq!(join_array_action(2, 0), JoinAction::Continue);
    assert_eq!(join_array_action(2, 1), JoinAction::Continue);
    assert_eq!(join_array_action(2, 2), JoinAction::Stop);
    assert_eq!(join_array_action(0, 0), JoinAction::Stop);
}

#[test]
fn join_progress_counts_empty_iterations() {
    let mut p = JoinProgress::new(0);
    assert_eq!(p.begin(JoinAction::Continue), JoinStep::Read);
    p.passed_value(true);
    p.reader_done();
    assert_eq!((p.i, p.time_since_emit), (1, 1));
    assert_eq!(p.begin(JoinAction::Fork), JoinStep::ForkThenRead);
    p.passed_value(false);
    p.reader_done();
    assert_eq!((p.i, p.time_since_emit), (2, 0));
    assert_eq!(p.begin(JoinAction::Stop), JoinStep::Finish);
}

#[test]
fn branch_join_resumes_after_the_branch() {
    assert_eq!(branch_join_index(5, 0), None);
    assert_eq!(branch_join_index(5, 1), Some(6));
    assert_eq!(branch_join_index(0, 3), Some(3));
}

#[test]
fn pushed_frame_goes_in_front() {
    let p = parsed("(a)\\1");
    let value: CharacterReaderValue<u32, ()> = CharacterReaderValue::Null {
        offset: 3,
        stack: vec![StackEntry::Reference { reference: p.reference.clone() }],
    };
    match with_pushed_frame(value, StackEntry::Group { group: p.group.clone() }) {
        CharacterReaderValue::Null { offset, stack } => {
            assert_eq!(offset, 3);
            assert_eq!(stack.len(), 2);
            assert!(matches!(&stack[0], StackEntry::Group { group } if group.id == p.group.id));
            assert!(matches!(&stack[1], StackEntry::Reference { .. }));
        }
        _ => panic!("variant changed"),
    }
    let split: CharacterReaderValue<u32, u8> =
        CharacterReaderValue::Split { reader: 9, sub_type: SplitSubType::Lookahead };
    match with_pushed_frame(split, StackEntry::Group { group: p.group.clone() }) {
        CharacterReaderValue::Split { reader, sub_type } => {
            assert_eq!(reader, 9);
            assert_eq!(sub_type, SplitSubType::Lookahead);
        }
        _ => panic!("variant changed"),
    }
}

#[test]
fn level1_carries_markers_to_the_next_character() {
    let p = parsed("(a)\\1");
    let mut preceding: Vec<ZeroWidthEntry> = Vec::new();
    let null: CharacterReaderValue<u32, u8> = CharacterReaderValue::Null { offset: 2, stack: vec![] };
    assert!(matches!(level1_step(&mut preceding, Step::Value(null)), Level1Step::Absorbed));
    let start: CharacterReaderValue<u32, u8> = CharacterReaderValue::Start { offset: 4, stack: vec![] };
    assert!(matches!(level1_step(&mut preceding, Step::Value(start)), Level1Step::Absorbed));
    assert_eq!(preceding.len(), 2);

    let split: CharacterReaderValue<u32, u8> =
        CharacterReaderValue::Split { reader: 1, sub_type: SplitSubType::Branch };
    match level1_step(&mut preceding, Step::Value(split)) {
        Level1Step::Emit(Level1Value::Split { reader, sub_type }) => {
            assert_eq!(reader.reader, 1);
            assert_eq!(reader.preceding_zero_width_entries.len(), 2);
            assert_eq!(sub_type, SplitSubType::Branch);
        }
        _ => panic!("split not passed on"),
    }
    assert_eq!(preceding.len(), 2);

    let groups: CharacterReaderValue<u32, u8> = CharacterReaderValue::Groups {
        character_groups: 7,
        node: p.value.clone(),
        stack: vec![],
    };
    match level1_step(&mut preceding, Step::Value(groups)) {
        Level1Step::Emit(Level1Value::Groups { character_groups, preceding_zero_width_entries, .. }) => {
            assert_eq!(character_groups, 7);
            assert_eq!(preceding_zero_width_entries.len(), 2);
            assert_eq!(preceding_zero_width_entries[0].offset, 2);
            assert_eq!(preceding_zero_width_entries[0].kind, ZeroWidthKind::Null);
            assert_eq!(preceding_zero_width_entries[1].kind, ZeroWidthKind::Start);
        }
        _ => panic!("character not passed on"),
    }
    assert!(preceding.is_empty());

    let end: CharacterReaderValue<u32, u8> =
        CharacterReaderValue::End { bounded: true, offset: 5, stack: vec![] };
    match level1_step(&mut preceding, Step::Value(end)) {
        Level1Step::Finish(r) => {
            assert!(r.bounded);
            assert!(r.preceding_zero_width_entries.is_empty());
        }
        _ => panic!("end did not finish"),
    }
    let done: Step<CharacterReaderValue<u32, u8>, ()> = Step::Done(());
    assert!(matches!(level1_step(&mut preceding, done), Level1Step::Finish(r) if !r.bounded));
}

#[test]
fn level2_records_and_replays_a_group() {
    let p = parsed("(a)\\1");
    let mut state: Level2State<u32> = Level2State::new();
    let stack = vec![StackEntry::Group { group: p.group.clone() }];
    let entry = state
        .on_groups(&p.extra, Rc::new(7), p.value.clone(), stack, vec![], false)
        .unwrap();
    assert_eq!(*entry.character_groups, 7);
    assert_eq!(entry.groups.len(), 1);
    assert_eq!(entry.lookahead_stack.len(), 0);
    assert_eq!(state.group_contents_store.len(), 1);
    assert_eq!(state.group_contents_store[&1].contents.len(), 1);
    assert!(state.groups_with_infinite_size.is_empty());

    match state.on_reference(&p.extra, &p.reference, 1, &vec![], vec![]).unwrap() {
        ReferenceOutcome::Replay(values) => {
            assert_eq!(values.len(), 1);
            assert_eq!(*values[0].character_groups, 7);
            assert_eq!(values[0].node.id, p.value.id);
            assert_eq!(values[0].stack.len(), 2);
            assert!(matches!(&values[0].stack[1], StackEntry::Reference { reference } if reference.id == p.reference.id));
        }
        ReferenceOutcome::Abort => panic!("unexpected abort"),
    }
}

#[test]
fn level2_unmatched_group_is_empty() {
    let p = parsed("(a)|\\1");
    let state: Level2State<u32> = Level2State::new();
    let values = state.replay_reference(&p.extra, 1, &p.reference, &vec![], &vec![]).unwrap();
    assert!(values.is_empty());
}

#[test]
fn level2_reference_inside_its_group_is_empty() {
    let p = parsed("(a)\\1");
    let mut state: Level2State<u32> = Level2State::new();
    let stack = vec![StackEntry::Group { group: p.group.clone() }];
    state.on_groups(&p.extra, Rc::new(1), p.value.clone(), stack, vec![], false).unwrap();
    let values = state
        .replay_reference(&p.extra, 1, &p.reference, &vec![], &vec![p.group.clone()])
        .unwrap();
    assert!(values.is_empty());
}

#[test]
fn level2_refuses_reference_to_unbounded_group() {
    let p = parsed("(a*)\\1");
    let quantifier = find(&p.root, &is_quantifier).unwrap();
    let mut state: Level2State<u32> = Level2State::new();
    let stack = vec![
        StackEntry::Group { group: p.group.clone() },
        StackEntry::Quantifier { iteration: 0, quantifier },
    ];
    state.on_groups(&p.extra, Rc::new(1), p.value.clone(), stack, vec![], false).unwrap();
    assert_eq!(state.groups_with_infinite_size, vec![1]);
    match state.on_reference(&p.extra, &p.reference, 1, &vec![], vec![]) {
        Err(e) => {
            assert_eq!(e, Level2Error::ReferenceToInfiniteGroup { reference_index: 1 });
            assert_eq!(
                e.message(),
                "Unsupported reference to group 1 as group is not a finite size. Pattern needs downgrading. See the `downgradePattern` option."
            );
        }
        Ok(_) => panic!("expected an error"),
    }
}

#[test]
fn level2_refuses_reference_into_positive_lookahead() {
    let p = parsed("(?=(a))\\1");
    let state: Level2State<u32> = Level2State::new();
    match state.replay_reference(&p.extra, 1, &p.reference, &vec![], &vec![]) {
        Err(e) => {
            assert_eq!(e, Level2Error::ReferenceIntoLookaround { reference_index: 1, position: 7 });
            assert_eq!(
                e.message(),
                "Unsupported reference (1 at position 7). Pattern needs downgrading. See the `downgradePattern` option."
            );
        }
        Ok(_) => panic!("expected an error"),
    }
    let p = parsed("(?!(a))\\1");
    let state: Level2State<u32> = Level2State::new();
    let values = state.replay_reference(&p.extra, 1, &p.reference, &vec![], &vec![]).unwrap();
    assert!(values.is_empty());
}

#[test]
fn level2_reports_unknown_groups() {
    let p = parsed("(a)\\1");
    let empty = NodeExtra {
        capturing_group_to_index: HashMap::new(),
        index_to_capturing_group: HashMap::new(),
        node_to_lookahead_stack: HashMap::new(),
        reachable_references: vec![],
    };
    let mut state: Level2State<u32> = Level2State::new();
    let stack = vec![StackEntry::Group { group: p.group.clone() }];
    let res = state.on_groups(&empty, Rc::new(1), p.value.clone(), stack, vec![], false);
    assert!(matches!(res, Err(Level2Error::MissingPatternFact)));
    assert_eq!(Level2Error::MissingPatternFact.message(), "Internal error: map missing key");
    assert!(state
        .replay_reference(&empty, 1, &p.reference, &vec![], &vec![])
        .is_err());
}

#[test]
fn level2_aborts_after_a_complete_iteration() {
    let p = parsed("(?:(a)\\1)*");
    let quantifier = find(&p.root, &is_quantifier).unwrap();
    let mut state: Level2State<u32> = Level2State::new();
    let first = vec![StackEntry::Quantifier { iteration: 0, quantifier: quantifier.clone() }];
    state.on_groups(&p.extra, Rc::new(1), p.value.clone(), first, vec![], false).unwrap();
    let later = vec![StackEntry::Quantifier { iteration: 2, quantifier }];
    assert!(matches!(
        state.on_reference(&p.extra, &p.reference, 1, &later, vec![]),
        Ok(ReferenceOutcome::Abort)
    ));
}

#[test]
fn level2_end_hands_over_markers() {
    let mut state: Level2State<u32> = Level2State::new();
    let marker = ZeroWidthEntry { offset: 1, stack: vec![], kind: ZeroWidthKind::Null };
    let inner = Level1Return { bounded: false, preceding_zero_width_entries: vec![marker] };
    assert!(state.on_done(inner, true).is_none());
    assert_eq!(state.preceding_zero_width_entries.len(), 1);
    let fork = state.fork();
    assert_eq!(fork.preceding_zero_width_entries.len(), 1);
    let end = Level1Return { bounded: true, preceding_zero_width_entries: vec![] };
    match state.on_done(end, false) {
        Some(Level2Return::End { bounded, preceding_zero_width_entries }) => {
            assert!(bounded);
            assert_eq!(preceding_zero_width_entries.len(), 1);
        }
        _ => panic!("expected the end"),
    }
    assert!(state.preceding_zero_width_entries.is_empty());
}

#[test]
fn clearing_drops_groups_ahead() {
    let p = parsed("(a)\\1");
    let mut store: HashMap<u64, GroupContents<u32>> = HashMap::new();
    store.insert(
        1,
        GroupContents {
            contents: vec![GroupEntry {
                character_groups: Rc::new(1),
                node: p.value.clone(),
                preceding_zero_width_entries: vec![],
                stack: vec![],
            }],
            group: p.group.clone(),
        },
    );
    clear_groups_ahead(&mut store, &vec![], 5);
    assert_eq!(store.len(), 1);
    let marker = ZeroWidthEntry { offset: 0, stack: vec![], kind: ZeroWidthKind::Start };
    clear_groups_ahead(&mut store, &vec![marker], 5);
    assert!(store.is_empty());
}
