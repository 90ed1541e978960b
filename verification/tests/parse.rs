use redos_detector::ast::{NodeKind, RcNode};
use redos_detector::parse::parse;

fn raws(p: &str, unicode: bool) -> Vec<(usize, usize, String)> {
    fn walk(node: &RcNode, out: &mut Vec<(usize, usize, String)>) {
        out.push((node.range.0, node.range.1, node.raw.clone()));
        match &node.kind {
            NodeKind::Alternative { body } | NodeKind::Disjunction { body } => {
                for b in body {
                    walk(b, out);
                }
            }
            NodeKind::Group { body, .. } | NodeKind::CharacterClass { body, .. } => {
                for b in body {
                    walk(b, out);
                }
            }
            NodeKind::Quantifier { body, .. } => walk(body, out),
            NodeKind::CharacterClassRange { min, max } => {
                walk(min, out);
                walk(max, out);
            }
            _ => {}
        }
    }
    let ast = parse(p, unicode).unwrap();
    let mut out = Vec::new();
    walk(&ast, &mut out);
    out
}

#[test]
fn ranges_and_raw_match() {
    // Top-level node spans the whole pattern with exact raw text.
    let r = raws("^a(b)c\\1", false);
    assert_eq!(r[0], (0, 8, "^a(b)c\\1".to_string()));
    assert!(r.iter().any(|e| e.2 == "\\1" && e.0 == 6 && e.1 == 8));
    assert!(r.iter().any(|e| e.2 == "(b)" && e.0 == 2 && e.1 == 5));

    // Quantifier range starts at its atom.
    let r = raws("a{0,2}", false);
    assert_eq!(r[0], (0, 6, "a{0,2}".to_string()));

    // Astral literal without unicode splits into two surrogate halves.
    let r = raws("\u{1f44d}", false);
    assert_eq!(r.len(), 3); // alternative + two values
                            // With unicode it is a single value.
    let r = raws("\u{1f44d}", true);
    assert_eq!(r.len(), 1);
    assert_eq!(r[0].0, 0);
    assert_eq!(r[0].1, 2);
}

#[test]
fn empty_pattern_is_empty_alternative() {
    let ast = parse("", false).unwrap();
    assert!(matches!(&ast.kind, NodeKind::Alternative { body } if body.is_empty()));
    assert_eq!(ast.range, (0, 0));
    assert_eq!(ast.raw, "");
}

#[test]
fn rejects_too_many_iterations() {
    assert!(parse("a{0,9007199254740992}", false).is_err());
    assert!(parse("a{0,9007199254740991}", false).is_ok());
}

#[test]
fn out_of_range_backreference_is_literal() {
    // \99 with no 99 groups parses as octal/literal, not a reference.
    let ast = parse("^a+\\99$", false).unwrap();
    let mut found_ref = false;
    fn check(node: &RcNode, found: &mut bool) {
        if let NodeKind::Reference { .. } = node.kind {
            *found = true;
        }
        match &node.kind {
            NodeKind::Alternative { body } | NodeKind::Group { body, .. } => {
                for b in body {
                    check(b, found);
                }
            }
            NodeKind::Quantifier { body, .. } => check(body, found),
            _ => {}
        }
    }
    check(&ast, &mut found_ref);
    assert!(!found_ref);
}

#[test]
fn parse_errors_carry_messages() {
    assert_eq!(parse("a{2,1}", false).unwrap_err().0, "numbers out of order in {} quantifier");
    assert_eq!(parse("(a", false).unwrap_err().0, "Expected )");
    assert_eq!(parse("[z-a]", false).unwrap_err().0, "Range out of order in character class");
    assert_eq!(parse("(?<=a)+", false).unwrap_err().0, "Invalid quantifier");
    assert_eq!(parse("a)", false).unwrap_err().0, "Could not parse entire input - got stuck");
    assert_eq!(parse("\\u{110000}", true).unwrap_err().0, "Invalid escape sequence");
    assert_eq!(parse("^\\2$", true).unwrap_err().0, "Invalid escape");
}

#[test]
fn forward_reference_reparses() {
    let ast = parse("\\1(a)", false).unwrap();
    match &ast.kind {
        NodeKind::Alternative { body } => {
            assert!(matches!(body[0].kind, NodeKind::Reference { match_index: 1 }));
        }
        _ => panic!("expected an alternative"),
    }
}

#[test]
fn escapes_give_code_points() {
    let ast = parse("\\x41\\u0042\\t\\cJ\\0", false).unwrap();
    let cps: Vec<Option<u32>> = match &ast.kind {
        NodeKind::Alternative { body } => body.iter().map(|n| n.code_point()).collect(),
        _ => panic!("expected an alternative"),
    };
    assert_eq!(cps, vec![Some(0x41), Some(0x42), Some(0x09), Some(10), Some(0)]);
    let ast = parse("\\u{1F44D}", true).unwrap();
    assert_eq!(ast.code_point(), Some(0x1F44D));
    let ast = parse("\\uD83D\\uDC4D", true).unwrap();
    assert_eq!(ast.code_point(), Some(0x1F44D));
    assert_eq!(ast.range, (0, 12));
}

#[test]
fn quantifier_fields() {
    let ast = parse("a{2,5}?", false).unwrap();
    match &ast.kind {
        NodeKind::Quantifier { min, max, greedy, symbol, body } => {
            assert_eq!((*min, *max, *greedy, *symbol), (2, Some(5), false, None));
            assert_eq!(body.code_point(), Some(0x61));
        }
        _ => panic!("expected a quantifier"),
    }
    let ast = parse("b+", false).unwrap();
    match &ast.kind {
        NodeKind::Quantifier { min, max, symbol, .. } => {
            assert_eq!((*min, *max, *symbol), (1, None, Some('+')));
        }
        _ => panic!("expected a quantifier"),
    }
}

#[test]
fn unicode_decimal_escape_without_group_is_error() {
    assert_eq!(parse("\\8", true).unwrap_err().0, "Invalid escape");
    assert_eq!(parse("(a)\\2", true).unwrap_err().0, "Invalid escape");
    assert!(parse("(a)\\1", true).is_ok());
}

#[test]
fn decimal_escapes_outside_unicode_read_as_characters() {
    let ast = parse("\\8\\12", false).unwrap();
    let cps: Vec<Option<u32>> = match &ast.kind {
        NodeKind::Alternative { body } => body.iter().map(|n| n.code_point()).collect(),
        _ => panic!("expected an alternative"),
    };
    assert_eq!(cps, vec![Some(0x38), Some(0o12)]);
}

#[test]
fn overlong_braced_unicode_escape_reads_as_nul() {
    let ast = parse("\\u{100000000}", true).unwrap();
    assert_eq!(ast.code_point(), Some(0));
    assert_eq!(ast.range, (0, 13));
}

#[test]
fn plain_patterns_always_parse() {
    for p in ["", "abc", "a-b/c,d", "\u{00e9}t\u{00e9}", "\u{1F44D}x"] {
        for unicode in [false, true] {
            let ast = parse(p, unicode).unwrap();
            assert_eq!(ast.range.1, p.encode_utf16().count());
        }
    }
}

#[test]
fn unicode_decimal_escape_without_capture_is_parse_error() {
    for source in [r"^\2$", r"^\8$"] {
        assert!(parse(source, true).is_err(), "{source:?} should not parse");
    }
}

#[test]
fn reversed_character_class_range_is_parse_error() {
    for unicode in [false, true] {
        assert!(parse(r"^[z-a]$", unicode).is_err(), "reversed range should not parse");
    }
}

#[test]
fn unfinished_brace_is_literal_outside_unicode() {
    assert!(parse("a{2", false).is_ok());
    assert!(parse("a{2", true).is_err());
}

#[test]
fn plain_classes_and_lookaheads_parse() {
    let ast = parse("[abc]", false).unwrap();
    assert_eq!(ast.range, (0, 5));
    let ast = parse("[^ab]", true).unwrap();
    assert_eq!(ast.range, (0, 5));
    let ast = parse("(?=ab)", false).unwrap();
    assert_eq!(ast.range, (0, 6));
}

#[test]
fn simple_patterns_with_groups_choices_and_quantifiers_parse() {
    for unicode in [false, true] {
        for p in ["(a)", "(a|b)c", "()", "(|)", "^(a+)+$", "(a*?|b)?c", "a.b*", "((a)|b)*", "a??", "$^", r"^\d+(\w|\s)*?\S$"] {
            assert!(parse(p, unicode).is_ok(), "{p:?} unicode={unicode}");
        }
    }
}

#[test]
fn misplaced_quantifier_or_unbalanced_group_fails() {
    for unicode in [false, true] {
        for p in ["(a", "a)", "*a", "a**", "(*)", "|+", "^*", "a???"] {
            assert!(parse(p, unicode).is_err(), "{p:?} unicode={unicode}");
        }
    }
}

#[test]
fn simple_pattern_ranges_cover_the_input() {
    let ast = parse("^(a+)+$", false).unwrap();
    assert_eq!(ast.range, (0, 7));
    assert_eq!(ast.raw, "^(a+)+$");
}

#[test]
fn a_close_paren_that_closes_nothing_stops_the_parse() {
    for p in ["a)", "(a)b)", "^$)|a"] {
        let err = parse(p, false).unwrap_err();
        assert_eq!(err.0, "Could not parse entire input - got stuck", "{p:?}");
    }
}

#[test]
fn an_open_paren_that_never_closes_is_refused() {
    for unicode in [false, true] {
        for p in ["(a", "((a)", "(a|b", "a(b)(c", "x|(y*"] {
            let err = parse(p, unicode).unwrap_err();
            assert_eq!(err.0, "Expected )", "{p:?} unicode={unicode}");
        }
    }
}

#[test]
fn simple_patterns_with_brace_quantifiers_parse() {
    for unicode in [false, true] {
        for p in ["a{0,9007199254740991}", "^(a{2,5}?)*$", r"\d{3}(-\d{4})?", "x{1,}y{2}z"] {
            let ast = parse(p, unicode).unwrap();
            assert_eq!(ast.range, (0, p.len()), "{p:?}");
        }
    }
}

#[test]
fn bad_brace_quantifiers_are_refused_with_their_message() {
    for unicode in [false, true] {
        let e = parse("a{2,1}", unicode).unwrap_err();
        assert_eq!(e.0, "numbers out of order in {} quantifier");
        let e = parse("(b(a{3,2}))", unicode).unwrap_err();
        assert_eq!(e.0, "numbers out of order in {} quantifier");
        let e = parse("a{0,9007199254740992}", unicode).unwrap_err();
        assert_eq!(e.0, "iterations outside JS safe integer range in quantifier");
        let e = parse("a{99999999999999999999999}", unicode).unwrap_err();
        assert_eq!(e.0, "iterations outside JS safe integer range in quantifier");
        let e = parse("x|a{5,4}|b{0,9007199254740992}", unicode).unwrap_err();
        assert_eq!(e.0, "numbers out of order in {} quantifier");
    }
}

#[test]
fn a_term_that_starts_wrong_is_refused() {
    for unicode in [false, true] {
        for p in ["*a", "+", "?x|y", "*{2}"] {
            assert_eq!(parse(p, unicode).unwrap_err().0, "Expected atom", "{p:?}");
        }
        for p in ["(?<=a)*", "(?<!ab)+b", "(?<=)?"] {
            assert_eq!(parse(p, unicode).unwrap_err().0, "Invalid quantifier", "{p:?}");
        }
    }
    assert_eq!(parse("(?=a)*", true).unwrap_err().0, "Expected atom");
    assert_eq!(parse("(?!ab)+c", true).unwrap_err().0, "Expected atom");
    let root = parse("(?=a)*", false).unwrap();
    assert!(matches!(root.kind, NodeKind::Quantifier { .. }));
}

#[test]
fn plain_patterns_give_their_characters() {
    let thumbs = "\u{1f44d}";
    let split = parse(thumbs, false).unwrap();
    match &split.kind {
        NodeKind::Alternative { body } => {
            assert_eq!(body.len(), 2);
            assert_eq!(body[0].range, (0, 1));
            assert_eq!(body[1].range, (1, 2));
            assert!(matches!(body[0].kind, NodeKind::Value { code_point: 0xD83D }));
            assert!(matches!(body[1].kind, NodeKind::Value { code_point: 0xDC4D }));
        }
        _ => panic!("expected a sequence"),
    }
    let joined = parse(thumbs, true).unwrap();
    assert_eq!(joined.range, (0, 2));
    assert!(matches!(joined.kind, NodeKind::Value { code_point: 0x1F44D }));
    let one = parse("q", true).unwrap();
    assert!(matches!(one.kind, NodeKind::Value { code_point: 0x71 }));
    let empty = parse("", false).unwrap();
    assert!(matches!(&empty.kind, NodeKind::Alternative { body } if body.is_empty()));
    assert_eq!(empty.range, (0, 0));
}
