//! Downgrade rewrites with exact expected patterns and atomic offsets.

use redos_detector::ast::NodeKind;
use redos_detector::downgrade::{
    find_rewrites, get_raw_without_capturing_groups_or_lookaheads, quantifier_iterations_to_string,
    shift_offsets, utf16_slice_replace, AtomicOrOptional,
};
use redos_detector::parse::parse;
use redos_detector::{downgrade_pattern, is_missing_start_anchor};
use std::collections::HashSet;

fn expect(pattern: &str, expected_pattern: &str, expected_offsets: &[usize]) {
    let result = downgrade_pattern(pattern, false).unwrap();
    assert_eq!(result.pattern, expected_pattern, "pattern for {pattern:?}");
    let mut offsets: Vec<usize> = result.atomic_group_offsets.into_iter().collect();
    offsets.sort_unstable();
    assert_eq!(offsets, expected_offsets, "offsets for {pattern:?}");
}

#[test]
fn does_not_downgrade_when_not_needed() {
    expect("^ab", "^ab", &[]);
    expect("^a(b)c\\1", "^a(b)c\\1", &[]);
    expect("^a(?=(b)\\1)c", "^a(?=(b)\\1)c", &[]);
    expect("^a(?=(b(?=(c\\1))))", "^a(?=(b(?=(c\\1))))", &[]);
    expect("^(a+\\1)", "^(a+\\1)", &[]);
}

#[test]
fn downgrades_when_group_in_positive_lookahead() {
    expect("^a(?=(b))c\\1", "^a(?=(b))c(?:b)", &[]);
    expect("^a(?=(b*))c\\1", "^a(?=(b*))c(?:b*)", &[]);
    expect("^a(?=(b))c\\1+", "^a(?=(b))c(?:b)+", &[]);
    expect("^a(?=(b)\\1)\\1c", "^a(?=(b)\\1)(?:b)c", &[]);
    expect("^a(?=(b))(c\\1)", "^a(?=(b))(c(?:b))", &[]);
    expect("^a(?=(b))((c\\1))", "^a(?=(b))((c(?:b)))", &[]);
    expect("^a(?=(b))(c\\1)\\2", "^a(?=(b))(c(?:b))\\2", &[]);
    expect("^a(b)(?=(c))(d\\1)\\2", "^a(b)(?=(c))(d\\1)(?:c)", &[]);
    expect("^a(?=(b(?=c)d))\\1", "^a(?=(b(?=c)d))(?:bd)", &[15]);
    expect(
        "^a(?=(b(?=(c\\1))))\\1\\2",
        "^a(?=(b(?=(c\\1))))(?:b)(?:c(?:b))",
        &[18],
    );
    expect("^a(?=(b)?)c\\1", "^a(?=(b)?)c(?:(?:b)?)", &[]);
    expect("^a(?=(b)|c)d\\1", "^a(?=(b)|c)d(?:(?:b)?)", &[]);
    expect("^a(?=(?:(b)|c))d\\1", "^a(?=(?:(b)|c))d(?:(?:b)?)", &[]);
    expect("^a(?=(?:(b))?)d\\1", "^a(?=(?:(b))?)d(?:(?:b)?)", &[]);
    expect("^a(?=(b{1,}?))c\\1", "^a(?=(b{1,}?))c(?:b{1,}?)", &[]);
    expect(
        "^(?=(a))\\1(?=(b))\\2",
        "^(?=(a))(?:a)(?=(b))(?:b)",
        &[8, 20],
    );
    expect("^(?:(?=(a))\\1)", "^(?:(?=(a))(?:a))", &[11]);
    expect("^((?=(a))\\2){1,2}", "^((?=(a))(?:a)){1,2}", &[9]);
    expect(
        "^(?=(a))(?=(b\\1))\\2",
        "^(?=(a))(?=(b(?:a)))(?:b(?:a))",
        &[20],
    );
    expect("^(?=(a))\\1(?=(b))\\1", "^(?=(a))(?:a)(?=(b))(?:a)", &[8]);
    expect(
        "^(?=(a))(?=(\\1))(?=(c))\\3\\2",
        "^(?=(a))(?=((?:a)))(?=(c))(?:c)(?:(?:a))",
        &[26],
    );
    expect("^a(?=(b(?!(c))))c\\1", "^a(?=(b(?!(c))))c(?:b)", &[]);
}

#[test]
fn handles_nested_atomic_group() {
    expect(
        "^(?=((?=(a*))\\2b*))\\1c*$",
        "^(?=((?=(a*))(?:a*)b*))(?:(?:a*)b*)c*$",
        &[13, 23, 26],
    );
}

#[test]
fn does_not_downgrade_when_group_in_negative_lookahead() {
    expect("^a(?!(b))c\\1", "^a(?!(b))c\\1", &[]);
    expect("^a(?=(b(?!(c))))c\\2", "^a(?=(b(?!(c))))c\\2", &[]);
    expect("^a(?!(b(?=(c))))c\\2", "^a(?!(b(?=(c))))c\\2", &[]);
}

#[test]
fn downgrades_when_group_is_non_finite() {
    expect("^(a*)\\1", "^(a*)(?:a*)", &[]);
    expect("^(a+)\\1", "^(a+)(?:a+)", &[]);
    expect("^(a+(?=b+))\\1", "^(a+(?=b+))(?:a+)", &[]);
}

#[test]
fn does_not_downgrade_when_lookahead_group_not_finite() {
    expect("^(a(?=b+))\\1", "^(a(?=b+))\\1", &[]);
}

#[test]
fn downgrades_when_no_start_anchor() {
    expect("a", "[^]*?a", &[]);
    expect("a|b", "[^]*?(?:a|b)", &[]);
    expect("(?=(a))\\1", "[^]*?(?=(a))(?:a)", &[12]);
    expect("(?=(a))\\1|b", "[^]*?(?:(?=(a))(?:a)|b)", &[15]);
    expect("(^)?a", "[^]*?(^)?a", &[]);
    expect("^a|b", "[^]*?(?:^a|b)", &[]);
    expect("a^b", "[^]*?a^b", &[]);
    expect("(^){0}a", "[^]*?(^){0}a", &[]);
}

#[test]
fn does_not_downgrade_when_start_anchor_in_quantifier_min_above_zero() {
    expect("(^){2}a", "(^){2}a", &[]);
}

#[test]
fn does_not_downgrade_when_replacement_already_applied() {
    expect("[^]*?a", "[^]*?a", &[]);
    expect("[^]*?(?:a|b)", "[^]*?(?:a|b)", &[]);
}

fn missing(pattern: &str) -> bool {
    let ast = parse(pattern, false).unwrap();
    is_missing_start_anchor(&ast)
}

#[test]
fn is_missing_start_anchor_cases() {
    assert!(!missing(""));
    assert!(missing("a"));
    assert!(!missing("^a"));
    assert!(!missing("$^a"));
    assert!(missing("$a"));
    assert!(missing("a^a"));
    assert!(!missing("a{0}^a"));
    assert!(missing("a{0,1}^a"));
    assert!(missing("a{1}^a"));
    assert!(missing("^a|b"));
    assert!(!missing("^a|^b"));
    assert!(!missing("|"));
    assert!(!missing("^(a|b)"));
    assert!(!missing("^ab"));
    assert!(missing("[ab]^c"));
    assert!(missing("(^)?c"));
    assert!(!missing("(^){1}c"));
    assert!(missing("[^]*a"));
    assert!(!missing("[^]*?a"));
    assert!(missing("[^a]*?a"));
    assert!(missing("[]*?a"));
    assert!(missing("b*?a"));
}

fn raw(pattern: &str) -> (String, Vec<(String, usize)>) {
    let ast = parse(pattern, false).unwrap();
    let result = get_raw_without_capturing_groups_or_lookaheads(&ast);
    let refs: Vec<(String, usize)> = result
        .references_with_offset
        .iter()
        .map(|(node, offset)| (node.raw.clone(), *offset))
        .collect();
    (result.result, refs)
}

#[test]
fn get_raw_simple() {
    let (result, refs) = raw("(a)");
    assert_eq!(result, "(?:a)");
    assert!(refs.is_empty());
}

#[test]
fn get_raw_every_node_type() {
    let (result, refs) =
        raw("^(a)b{1}c+d{1,2}e+(?:f)(?=g)(?!h)(?<=i)(?<!j)(k|l).(m(n))o+?[a\\d]\\1$");
    assert_eq!(
        result,
        "^(?:a)b{1}c+d{1,2}e+(?:f)(?:k|l).(?:m(?:n))o+?[a\\d]\\1$"
    );
    assert_eq!(refs, vec![("\\1".to_string(), 51)]);
}

#[test]
fn get_raw_multi_reference() {
    let (result, refs) = raw("()()()()a(\\1)c(d|\\2|f)(?:\\3)(?:\\4)+");
    assert_eq!(
        result,
        "(?:)(?:)(?:)(?:)a(?:\\1)c(?:d|\\2|f)(?:\\3)(?:\\4)+"
    );
    assert_eq!(
        refs,
        vec![
            ("\\1".to_string(), 20),
            ("\\2".to_string(), 29),
            ("\\3".to_string(), 37),
            ("\\4".to_string(), 43),
        ]
    );
}

#[test]
fn downgrade_rejects_unparsable_pattern() {
    assert_eq!(downgrade_pattern("(a", false).unwrap_err().0, "Expected )");
}

#[test]
fn downgrade_is_idempotent_on_examples() {
    for p in ["a", "a|b", "(?=(a))\\1", "^a(?=(b))c\\1", "^(a+)\\1", "^(?=((?=(a*))\\2b*))\\1c*$"] {
        let once = downgrade_pattern(p, false).unwrap();
        let twice = downgrade_pattern(&once.pattern, false).unwrap();
        assert_eq!(twice.pattern, once.pattern, "for {p:?}");
    }
}

#[test]
fn slice_replace_works_in_utf16_units() {
    assert_eq!(utf16_slice_replace("abc", "XY", 1, 2), "aXYc");
    assert_eq!(utf16_slice_replace("\u{1f44d}b", "x", 2, 3), "\u{1f44d}x");
    assert_eq!(utf16_slice_replace("", "x", 0, 0), "x");
}

#[test]
fn shift_offsets_moves_only_later_offsets() {
    let s: HashSet<usize> = [1usize, 5, 9].into_iter().collect();
    let shifted = shift_offsets(&s, 4, 3);
    let mut v: Vec<usize> = shifted.into_iter().collect();
    v.sort_unstable();
    assert_eq!(v, vec![1, 8, 12]);
    let back = shift_offsets(&s, -1, 5);
    let mut w: Vec<usize> = back.into_iter().collect();
    w.sort_unstable();
    assert_eq!(w, vec![6, 10, 14]);
}

#[test]
fn quantifier_text_forms() {
    let text = |p: &str| {
        let ast = parse(p, false).unwrap();
        assert!(matches!(ast.kind, NodeKind::Quantifier { .. }));
        quantifier_iterations_to_string(&ast)
    };
    assert_eq!(text("a*"), "*");
    assert_eq!(text("a+?"), "+?");
    assert_eq!(text("a{3}"), "{3}");
    assert_eq!(text("a{3}?"), "{3}");
    assert_eq!(text("a{2,}"), "{2,}");
    assert_eq!(text("a{2,10}?"), "{2,10}?");
    assert_eq!(text("a{0012,13}"), "{12,13}");
}

#[test]
fn rewrites_reference_after_its_lookahead_atomically() {
    let root = parse("(?=(a))\\1", false).unwrap();
    let walker = find_rewrites(&root);
    assert_eq!(walker.actions.len(), 1);
    assert_eq!(walker.actions[0].atomic_or_optional, AtomicOrOptional::Atomic);
    assert_eq!(walker.actions[0].reference_start, 7);
    assert_eq!(walker.actions[0].reference_end, 9);
    assert!(walker.needs_start_anchor_replacement);
    assert_eq!(walker.next_group_index, 2);
}

#[test]
fn rewrites_reference_to_unbounded_group_plainly() {
    let root = parse("^(a+)\\1", false).unwrap();
    let walker = find_rewrites(&root);
    assert_eq!(walker.actions.len(), 1);
    assert_eq!(walker.actions[0].atomic_or_optional, AtomicOrOptional::Neither);
    assert!(walker.infinite_groups.contains(&walker.actions[0].group.id));
    assert!(!walker.needs_start_anchor_replacement);
}

#[test]
fn rewrites_reference_to_skippable_lookahead_group_optionally() {
    let root = parse("(?=(a)|b)c\\1", false).unwrap();
    let walker = find_rewrites(&root);
    assert_eq!(walker.actions.len(), 1);
    assert_eq!(walker.actions[0].atomic_or_optional, AtomicOrOptional::Optional);
}

#[test]
fn leaves_references_in_negative_lookahead_and_finite_groups() {
    assert!(find_rewrites(&parse("(?!(a))\\1", false).unwrap()).actions.is_empty());
    assert!(find_rewrites(&parse("^(a)\\1", false).unwrap()).actions.is_empty());
}

#[test]
fn simple_patterns_downgrade_in_one_pass() {
    expect("^(a|b)*c", "^(a|b)*c", &[]);
    expect("^(a+)+$", "^(a+)+$", &[]);
    expect(r"^\d+(\W)?$", r"^\d+(\W)?$", &[]);
    expect("x(y)?z", "[^]*?x(y)?z", &[]);
    expect("(a)|b", "[^]*?(?:(a)|b)", &[]);
}

#[test]
fn unbalanced_parentheses_are_refused_with_the_parser_message() {
    assert_eq!(downgrade_pattern("(a|b", false).unwrap_err().0, "Expected )");
    assert_eq!(downgrade_pattern("a|b)", false).unwrap_err().0, "Could not parse entire input - got stuck");
}

#[test]
fn simple_patterns_keep_no_atomic_offsets() {
    expect("x{2}", "[^]*?x{2}", &[]);
    expect("^a{1,3}b", "^a{1,3}b", &[]);
}

#[test]
fn bad_brace_quantifiers_fail_the_downgrade() {
    let e = downgrade_pattern("^a{2,1}", false).unwrap_err();
    assert_eq!(e.0, "numbers out of order in {} quantifier");
    let e = downgrade_pattern("a{1,9007199254740992}b", true).unwrap_err();
    assert_eq!(e.0, "iterations outside JS safe integer range in quantifier");
}

#[test]
fn a_pattern_whose_first_term_is_refused_fails_the_downgrade() {
    assert_eq!(downgrade_pattern("*a", false).unwrap_err().0, "Expected atom");
    assert_eq!(downgrade_pattern("(?<=a)+b", true).unwrap_err().0, "Invalid quantifier");
}

#[test]
fn plain_patterns_get_the_lazy_prefix() {
    for unicode in [false, true] {
        let d = downgrade_pattern("abc", unicode).unwrap();
        assert_eq!(d.pattern, "[^]*?abc");
        assert!(d.atomic_group_offsets.is_empty());
        let d = downgrade_pattern("\u{1f44d}x", unicode).unwrap();
        assert_eq!(d.pattern, "[^]*?\u{1f44d}x");
        let d = downgrade_pattern("", unicode).unwrap();
        assert_eq!(d.pattern, "");
        assert!(d.atomic_group_offsets.is_empty());
    }
}

#[test]
fn a_plain_pattern_misses_its_anchor_unless_empty() {
    for unicode in [false, true] {
        assert!(is_missing_start_anchor(&parse("abc", unicode).unwrap()));
        assert!(is_missing_start_anchor(&parse("\u{1f44d}", unicode).unwrap()));
        assert!(!is_missing_start_anchor(&parse("", unicode).unwrap()));
    }
}
