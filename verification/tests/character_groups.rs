use redos_detector::ast::{ClassEscape, NodeKind, RcNode};
use redos_detector::character_groups::{
    intersect_character_groups, is_empty_character_groups, CharacterGroups, EscapeMap,
};
use redos_detector::character_reader::level0::{
    character_class_groups, class_escape_ranges, dot_groups, node_reading, value_groups,
    CharacterReaderValue, NodeReading,
};
use redos_detector::our_range::{Bound, OurRange};
use redos_detector::parse::parse;

fn f(a: i64, b: i64) -> OurRange {
    (Bound::Finite(a), Bound::Finite(b))
}

fn groups(negated: bool, ranges: Vec<OurRange>, escapes: Vec<(&str, bool)>) -> CharacterGroups {
    let mut map = EscapeMap::new();
    for (k, v) in escapes {
        map.set(k.to_string(), v);
    }
    CharacterGroups { ranges_negated: negated, ranges, unicode_property_escapes: map }
}

#[test]
fn emptiness() {
    assert!(is_empty_character_groups(&groups(false, vec![], vec![])));
    assert!(!is_empty_character_groups(&groups(true, vec![], vec![])));
    assert!(!is_empty_character_groups(&groups(false, vec![f(1, 1)], vec![])));
    assert!(!is_empty_character_groups(&groups(false, vec![], vec![("L", false)])));
}

#[test]
fn intersect_positive_sets() {
    let a = groups(false, vec![f(0, 10), f(20, 30)], vec![]);
    let b = groups(false, vec![f(5, 25)], vec![]);
    let res = intersect_character_groups(&a, &b);
    assert!(!res.ranges_negated);
    assert_eq!(res.ranges, vec![f(5, 10), f(20, 25)]);
}

#[test]
fn intersect_positive_with_negated() {
    let a = groups(false, vec![f(0, 10)], vec![]);
    let b = groups(true, vec![f(3, 4), f(8, 8)], vec![]);
    let res = intersect_character_groups(&a, &b);
    assert!(!res.ranges_negated);
    assert_eq!(res.ranges, vec![f(0, 2), f(5, 7), f(9, 10)]);
    let res = intersect_character_groups(&b, &a);
    assert_eq!(res.ranges, vec![f(0, 2), f(5, 7), f(9, 10)]);
}

#[test]
fn intersect_negated_sets_unions_exclusions() {
    let a = groups(true, vec![f(1, 2)], vec![]);
    let b = groups(true, vec![f(5, 6)], vec![]);
    let res = intersect_character_groups(&a, &b);
    assert!(res.ranges_negated);
    assert_eq!(res.ranges, vec![f(1, 2), f(5, 6)]);
}

#[test]
fn intersect_merges_escapes() {
    let a = groups(false, vec![], vec![("L", false), ("N", true), ("P", false)]);
    let b = groups(false, vec![], vec![("N", true), ("P", true), ("S", false)]);
    let res = intersect_character_groups(&a, &b);
    assert_eq!(
        res.unicode_property_escapes.entries,
        vec![("L".to_string(), false), ("N".to_string(), true), ("S".to_string(), false)]
    );
}

#[test]
fn class_escapes_and_their_complements() {
    assert_eq!(class_escape_ranges(ClassEscape::D), vec![f(48, 57)]);
    assert_eq!(
        class_escape_ranges(ClassEscape::DUpper),
        vec![(Bound::NegInfinity, Bound::Finite(47)), (Bound::Finite(58), Bound::PosInfinity)]
    );
    assert_eq!(
        class_escape_ranges(ClassEscape::WUpper),
        vec![
            (Bound::NegInfinity, Bound::Finite(47)),
            f(58, 64),
            f(91, 94),
            f(96, 96),
            (Bound::Finite(123), Bound::PosInfinity)
        ]
    );
    let s_upper = class_escape_ranges(ClassEscape::SUpper);
    assert_eq!(s_upper[0], (Bound::NegInfinity, Bound::Finite(8)));
    assert_eq!(s_upper[1], f(14, 31));
    assert_eq!(s_upper.len(), 11);
}

#[test]
fn dot_and_values() {
    let dot = dot_groups(false);
    assert!(dot.ranges_negated);
    assert_eq!(dot.ranges, vec![f(10, 10), f(13, 13), f(8232, 8233)]);
    assert!(dot_groups(true).ranges.is_empty());
    assert_eq!(value_groups(true, 'a' as u32).ranges, vec![f(65, 65)]);
    assert_eq!(value_groups(false, 'a' as u32).ranges, vec![f(97, 97)]);
}

fn class_of(pattern: &str, unicode: bool) -> RcNode {
    fn find(node: &RcNode) -> Option<RcNode> {
        match &node.kind {
            NodeKind::CharacterClass { .. } => Some(node.clone()),
            NodeKind::Alternative { body } | NodeKind::Disjunction { body } | NodeKind::Group { body, .. } => {
                body.iter().find_map(find)
            }
            NodeKind::Quantifier { body, .. } => find(body),
            _ => None,
        }
    }
    find(&parse(pattern, unicode).unwrap()).unwrap()
}

#[test]
fn character_classes() {
    let class = class_of("[a-cx\\d]", false);
    if let NodeKind::CharacterClass { negative, body } = &class.kind {
        let g = character_class_groups(false, *negative, body);
        assert!(!g.ranges_negated);
        assert_eq!(g.ranges, vec![f(97, 99), f(120, 120), f(48, 57)]);
    } else {
        panic!("not a class");
    }
    let class = class_of("[^\\p{L}\\P{L}]", true);
    if let NodeKind::CharacterClass { negative, body } = &class.kind {
        let g = character_class_groups(false, *negative, body);
        assert!(g.ranges_negated);
        assert!(g.ranges.is_empty());
        assert!(g.unicode_property_escapes.entries.is_empty());
    } else {
        panic!("not a class");
    }
    let class = class_of("[^\\p{L}]", true);
    if let NodeKind::CharacterClass { negative, body } = &class.kind {
        let g = character_class_groups(false, *negative, body);
        assert!(g.ranges_negated);
        assert_eq!(g.unicode_property_escapes.entries, vec![("L".to_string(), true)]);
    } else {
        panic!("not a class");
    }
}

#[test]
fn node_readings() {
    let root = parse("a$", false).unwrap();
    let body = match &root.kind {
        NodeKind::Alternative { body } => body.clone(),
        _ => panic!("expected an alternative"),
    };
    match node_reading::<()>(true, false, &body[0]) {
        NodeReading::One(CharacterReaderValue::Groups { character_groups, stack, .. }) => {
            assert_eq!(character_groups.ranges, vec![f(65, 65)]);
            assert!(stack.is_empty());
        }
        _ => panic!("expected a character"),
    }
    match node_reading::<()>(false, false, &body[1]) {
        NodeReading::One(CharacterReaderValue::End { bounded, offset, .. }) => {
            assert!(bounded);
            assert_eq!(offset, 1);
        }
        _ => panic!("expected the end"),
    }
    assert!(matches!(node_reading::<()>(false, false, &root), NodeReading::Composite));
}
