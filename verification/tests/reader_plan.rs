use redos_detector::ast::NodeKind;
use redos_detector::character_reader::level0::{
    composite_plan, iteration_plan, lookaround_branch_plan, ReaderPart, SplitSubType,
};
use redos_detector::parse::parse;

#[test]
fn a_sequence_reads_each_child_joined() {
    let root = parse("abc", false).unwrap();
    let plan = composite_plan(&root);
    assert!(plan.joined);
    assert_eq!(
        plan.parts,
        vec![ReaderPart::Child { index: 0 }, ReaderPart::Child { index: 1 }, ReaderPart::Child { index: 2 }]
    );
}

#[test]
fn a_choice_splits_off_all_but_the_last_branch() {
    let root = parse("a|b|c", false).unwrap();
    let plan = composite_plan(&root);
    assert!(!plan.joined);
    assert_eq!(
        plan.parts,
        vec![ReaderPart::Branch { index: 0 }, ReaderPart::Branch { index: 1 }, ReaderPart::Child { index: 2 }]
    );
}

#[test]
fn a_lookaround_is_one_split_that_ends_at_the_group() {
    let root = parse("x(?!ab)", false).unwrap();
    let group = match &root.kind {
        NodeKind::Alternative { body } => body[1].clone(),
        _ => panic!("expected a sequence"),
    };
    let plan = composite_plan(&group);
    assert!(!plan.joined);
    assert_eq!(
        plan.parts,
        vec![ReaderPart::Lookaround { sub_type: SplitSubType::NegativeLookahead, end_offset: 7 }]
    );
    assert_eq!(lookaround_branch_plan(7), vec![ReaderPart::Framed, ReaderPart::End { offset: 7 }]);
    let plain = parse("(ab)", false).unwrap();
    assert_eq!(composite_plan(&plain).parts, vec![ReaderPart::Framed]);
}

#[test]
fn a_quantifier_starts_with_a_null_at_its_body() {
    let root = parse("xa{2,3}", false).unwrap();
    let quantifier = match &root.kind {
        NodeKind::Alternative { body } => body[1].clone(),
        _ => panic!("expected a sequence"),
    };
    let plan = composite_plan(&quantifier);
    assert!(plan.joined);
    assert_eq!(plan.parts, vec![ReaderPart::Null { offset: 1 }, ReaderPart::Iterations]);
    assert_eq!(iteration_plan(0, 1), vec![ReaderPart::QuantifiedBody]);
    assert_eq!(iteration_plan(3, 1), vec![ReaderPart::Null { offset: 1 }, ReaderPart::QuantifiedBody]);
    let leaf = parse("a", false).unwrap();
    assert!(composite_plan(&leaf).parts.is_empty());
}
