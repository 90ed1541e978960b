use redos_detector::code_point::{
    build_code_point_ranges, code_point_from_value, to_code_point, to_upper_case_code_point,
};
use redos_detector::our_range::{Bound, OurRange};

fn cp(input: &str) -> u32 {
    to_code_point(input).expect("Did not map to one code point")
}

/// The range with the given endpoints, written as the original wrote them.
fn r(start: f64, end: f64) -> OurRange {
    (Bound::Finite(start as i64), Bound::Finite(end as i64))
}

#[test]
fn build_ranges_works() {
    assert_eq!(
        build_code_point_ranges(true, cp("a"), cp("a")),
        vec![r(cp("A") as f64, cp("A") as f64)]
    );
    assert_eq!(
        build_code_point_ranges(true, cp("A"), cp("a")),
        vec![r(cp("A") as f64, cp("`") as f64)]
    );
    assert_eq!(
        build_code_point_ranges(true, cp("C"), cp("a")),
        vec![
            r(cp("A") as f64, cp("A") as f64),
            r(cp("C") as f64, cp("`") as f64)
        ]
    );
    assert_eq!(
        build_code_point_ranges(true, cp("["), cp("]")),
        vec![r(cp("[") as f64, cp("]") as f64)]
    );
    assert_eq!(
        build_code_point_ranges(true, cp("Z"), cp("}")),
        vec![
            r(cp("A") as f64, cp("`") as f64),
            r(cp("{") as f64, cp("}") as f64)
        ]
    );
    assert_eq!(
        build_code_point_ranges(false, cp("Z"), cp("}")),
        vec![r(cp("Z") as f64, cp("}") as f64)]
    );
    assert_eq!(
        build_code_point_ranges(true, cp("Ω"), cp("Ω")),
        vec![r(cp("Ω") as f64, cp("Ω") as f64)]
    );
    assert_eq!(
        build_code_point_ranges(true, cp("ß"), cp("ß")),
        vec![r(cp("ß") as f64, cp("ß") as f64)]
    );
}

#[test]
fn reversed_range_is_kept_when_case_sensitive_and_empty_when_folded() {
    assert_eq!(build_code_point_ranges(false, 5, 3), vec![r(5.0, 3.0)]);
    assert_eq!(build_code_point_ranges(true, 5, 3), vec![]);
}

#[test]
fn to_code_point_rejects_astral() {
    assert_eq!(to_code_point("👍"), None);
    assert_eq!(to_code_point("a"), Some(0x61));
}

#[test]
fn to_code_point_of_bmp_characters() {
    assert_eq!(to_code_point("Ω"), Some(0x3A9));
    assert_eq!(to_code_point("ab"), None);
}

#[test]
fn upper_case_folding() {
    assert_eq!(to_upper_case_code_point('a' as u32), 'A' as u32);
    assert_eq!(to_upper_case_code_point('A' as u32), 'A' as u32);
    assert_eq!(to_upper_case_code_point('`' as u32), '`' as u32);
    // `ß` uppercases to `SS`, which is longer, so it is kept.
    assert_eq!(to_upper_case_code_point('ß' as u32), 'ß' as u32);
    assert_eq!(to_upper_case_code_point('ω' as u32), 'Ω' as u32);
    // A surrogate is not a character and is kept.
    assert_eq!(to_upper_case_code_point(0xD800), 0xD800);
}

#[test]
fn code_point_from_value_folds_only_when_asked() {
    assert_eq!(code_point_from_value(true, 'b' as u32), 'B' as u32);
    assert_eq!(code_point_from_value(false, 'b' as u32), 'b' as u32);
}
