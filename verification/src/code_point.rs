//! Code point helpers and ECMA-262 simple case folding.
use crate::our_range::{
    create_ranges, finite_range, in_any, in_range, is_run_decomposition, lemma_run_decomposition_unique, range_ok, Bound,
    OurRange,
};
use crate::text::{char_utf16, encode_utf16, utf16_length, utf16_of};
use std::collections::HashSet;
use vstd::prelude::*;

verus! {

/// The uppercase mapping of a character, as `char::to_uppercase` yields it.
pub uninterp spec fn uppercase_of(c: char) -> Seq<char>;

/// The uppercase mapping of `c`.
///
/// Collects `char::to_uppercase`, whose result depends on `c` alone. The
/// contract names that result and states what the standard library documents
/// of it: it is one or more characters. Which characters it holds is left to
/// the Unicode tables of the standard library.
#[verifier::external_body]
fn to_uppercase_string(c: char) -> (res: String)
    ensures
        res@ == uppercase_of(c),
        res@.len() >= 1,
{
    c.to_uppercase().collect()
}

/// `true` when `v` is a Unicode scalar value.
pub open spec fn is_scalar_value(v: u32) -> bool {
    v <= 0x10FFFF && !(0xD800 <= v <= 0xDFFF)
}

/// The character for a scalar value.
///
/// Calls `char::from_u32`, which the standard library documents to return
/// `None` exactly when `v` is above `0x10FFFF` or a surrogate.
#[verifier::external_body]
pub(crate) fn char_from_u32(v: u32) -> (res: Option<char>)
    ensures
        res == if is_scalar_value(v) {
            Some(v as char)
        } else {
            None::<char>
        },
{
    char::from_u32(v)
}

/// Each character takes at least one UTF-16 unit.
proof fn lemma_utf16_length_at_least_chars(s: Seq<char>)
    ensures
        utf16_length(s) >= s.len(),
        s.len() >= 1 ==> utf16_of(s) == char_utf16(s[0]) + utf16_of(s.drop_first()),
    decreases s.len(),
{
    if s.len() > 0 {
        lemma_utf16_length_at_least_chars(s.drop_first());
    }
}

/// The single code point of a string, or `None` when it takes more than one
/// UTF-16 code unit.
pub open spec fn single_code_point(s: Seq<char>) -> Option<u32> {
    if utf16_length(s) > 1 {
        None
    } else {
        Some(s[0] as u32)
    }
}

/// Returns the single code point of `input`, or `None` when `input` spans more
/// than one UTF-16 code unit.
///
/// This mirrors the ECMA-262 `Canonicalize` rule: a case mapping that produces
/// more than one code unit does not canonicalize, so the caller keeps the
/// original.
pub fn to_code_point(input: &str) -> (res: Option<u32>)
    requires
        input@.len() >= 1,
    ensures
        res == single_code_point(input@),
{
    let units = encode_utf16(input);
    if units.len() > 1 {
        return None;
    }
    proof {
        lemma_utf16_length_at_least_chars(input@);
        lemma_utf16_length_at_least_chars(input@.drop_first());
        let c = input@[0];
        vstd::utf8::char_is_scalar(c);
        assert(input@.len() == 1);
        assert(input@.drop_first().len() == 0);
        assert(units@ =~= char_utf16(c));
        assert((c as u32) < 0x10000);
        assert(units@[0] == (c as u32) as u16);
    }
    Some(units[0] as u32)
}

/// The simple uppercase form of a code point: its uppercase mapping when that
/// is a single UTF-16 unit, else the code point itself.
pub open spec fn upper_case_code_point(code_point: u32) -> u32 {
    if is_scalar_value(code_point) {
        match single_code_point(uppercase_of(code_point as char)) {
            Some(u) => u,
            None => code_point,
        }
    } else {
        code_point
    }
}

/// Canonicalizes a code point to its simple uppercase form.
///
/// Uses the full Unicode uppercase mapping but keeps the original when
/// uppercasing changes the UTF-16 length (for example `ß` uppercases to `SS`).
pub fn to_upper_case_code_point(code_point: u32) -> (res: u32)
    ensures
        res == upper_case_code_point(code_point),
{
    let ch = match char_from_u32(code_point) {
        Some(c) => c,
        None => return code_point,
    };
    let upper = to_uppercase_string(ch);
    match to_code_point(upper.as_str()) {
        Some(u) => u,
        None => code_point,
    }
}

/// Returns the code point a value matches, folded to uppercase when requested.
pub fn code_point_from_value(case_insensitive: bool, code_point: u32) -> (res: u32)
    ensures
        res == if case_insensitive {
            upper_case_code_point(code_point)
        } else {
            code_point
        },
{
    if case_insensitive {
        to_upper_case_code_point(code_point)
    } else {
        code_point
    }
}


/// Some code point from `low` to `high` has the simple uppercase form `c`.
pub open spec fn upper_image(low: u32, high: u32, c: int) -> bool {
    exists|cp: u32| low <= cp <= high && upper_case_code_point(cp) == c
}

/// The ranges that the code points from `low` to `high` match: that range
/// itself, or, case-insensitively, the maximal runs of their simple
/// uppercase forms in increasing order.
pub open spec fn code_point_ranges(case_insensitive: bool, low: u32, high: u32) -> Seq<OurRange> {
    if !case_insensitive {
        seq![(Bound::Finite(low as i64), Bound::Finite(high as i64))]
    } else {
        choose|rs: Seq<OurRange>|
            is_run_decomposition(rs) && forall|c: int| in_any(rs, c) <==> upper_image(low, high, c)
    }
}

/// The maximal runs of the integers below `n` that satisfy `p`, in
/// increasing order.
spec fn runs_below(p: spec_fn(int) -> bool, n: nat) -> Seq<OurRange>
    decreases n,
{
    if n == 0 {
        Seq::empty()
    } else {
        let r = runs_below(p, (n - 1) as nat);
        let m = n - 1;
        if !p(m) {
            r
        } else if r.len() > 0 && r.last().1 == Bound::Finite((m - 1) as i64) {
            r.update(r.len() - 1, (r.last().0, Bound::Finite(m as i64)))
        } else {
            r.push((Bound::Finite(m as i64), Bound::Finite(m as i64)))
        }
    }
}

/// The runs below `n` decompose the integers below `n` that satisfy `p`.
proof fn lemma_runs_below(p: spec_fn(int) -> bool, n: nat)
    requires
        n <= 0x1_0000_0000,
    ensures
        is_run_decomposition(runs_below(p, n)),
        forall|i: int|
            0 <= i < runs_below(p, n).len() ==> 0 <= (#[trigger] runs_below(p, n)[i]).0->0 && runs_below(p, n)[i].1->0 < n,
        forall|c: int| in_any(runs_below(p, n), c) <==> (0 <= c < n && p(c)),
    decreases n,
{
    if n > 0 {
        let r = runs_below(p, (n - 1) as nat);
        lemma_runs_below(p, (n - 1) as nat);
        let m = n - 1;
        let rs = runs_below(p, n);
        if !p(m) {
            assert(rs == r);
        } else if r.len() > 0 && r.last().1 == Bound::Finite((m - 1) as i64) {
            let l = r.len() - 1;
            assert(rs == r.update(l, (r.last().0, Bound::Finite(m as i64))));
            assert(finite_range(r[l]));
            assert forall|i: int| 0 <= i < rs.len() implies finite_range(#[trigger] rs[i]) by {
                assert(finite_range(r[i]));
            }
            assert forall|i: int, j: int| 0 <= i < j < rs.len() implies (#[trigger] rs[i]).1->0 + 1 < (#[trigger] rs[j]).0->0 by {
                assert(r[i].1->0 + 1 < r[j].0->0);
            }
            assert forall|i: int| 0 <= i < rs.len() implies 0 <= (#[trigger] rs[i]).0->0 && rs[i].1->0 < n by {
                assert(0 <= r[i].0->0 && r[i].1->0 < n - 1);
            }
            assert forall|c: int| in_any(rs, c) <==> (0 <= c < n && p(c)) by {
                if in_any(rs, c) {
                    let i = choose|i: int| 0 <= i < rs.len() && in_range(#[trigger] rs[i], c);
                    if i < l || c < m {
                        assert(in_range(r[i], c));
                        assert(in_any(r, c));
                    }
                }
                if 0 <= c < n && p(c) {
                    if c < m {
                        assert(in_any(r, c));
                        let i = choose|i: int| 0 <= i < r.len() && in_range(#[trigger] r[i], c);
                        assert(in_range(rs[i], c));
                    } else {
                        assert(in_range(rs[l], c));
                    }
                }
            }
        } else {
            let l = r.len() as int;
            let new_run = (Bound::Finite(m as i64), Bound::Finite(m as i64));
            assert(rs == r.push(new_run));
            if l > 0 {
                assert(finite_range(r[l - 1]));
                assert(r[l - 1].1->0 < m);
                assert(r[l - 1].1->0 != m - 1);
            }
            assert forall|i: int| 0 <= i < rs.len() implies finite_range(#[trigger] rs[i]) by {
                if i < l {
                    assert(finite_range(r[i]));
                }
            }
            assert forall|i: int, j: int| 0 <= i < j < rs.len() implies (#[trigger] rs[i]).1->0 + 1 < (#[trigger] rs[j]).0->0 by {
                if j < l {
                    assert(r[i].1->0 + 1 < r[j].0->0);
                } else {
                    assert(finite_range(r[i]));
                    assert(finite_range(r[l - 1]));
                    if i < l - 1 {
                        assert(r[i].1->0 + 1 < r[l - 1].0->0);
                    }
                }
            }
            assert forall|i: int| 0 <= i < rs.len() implies 0 <= (#[trigger] rs[i]).0->0 && rs[i].1->0 < n by {
                if i < l {
                    assert(0 <= r[i].0->0 && r[i].1->0 < n - 1);
                }
            }
            assert forall|c: int| in_any(rs, c) <==> (0 <= c < n && p(c)) by {
                if in_any(rs, c) {
                    let i = choose|i: int| 0 <= i < rs.len() && in_range(#[trigger] rs[i], c);
                    if i < l {
                        assert(in_range(r[i], c));
                        assert(in_any(r, c));
                    }
                }
                if 0 <= c < n && p(c) {
                    if c < m {
                        assert(in_any(r, c));
                        let i = choose|i: int| 0 <= i < r.len() && in_range(#[trigger] r[i], c);
                        assert(in_range(rs[i], c));
                    } else {
                        assert(in_range(rs[l], c));
                    }
                }
            }
        }
    }
}

/// Case-insensitively, the ranges of the code points from `low` to `high`
/// hold exactly the simple uppercase forms of those code points.
pub proof fn lemma_folded_ranges_hold_the_upper_images(low: u32, high: u32)
    ensures
        is_run_decomposition(code_point_ranges(true, low, high)),
        forall|c: int| in_any(code_point_ranges(true, low, high), c) <==> upper_image(low, high, c),
{
    let p = |c: int| upper_image(low, high, c);
    lemma_runs_below(p, 0x1_0000_0000);
    let rs = runs_below(p, 0x1_0000_0000);
    assert forall|c: int| in_any(rs, c) <==> upper_image(low, high, c) by {
        if upper_image(low, high, c) {
            let cp = choose|cp: u32| low <= cp <= high && upper_case_code_point(cp) == c;
            assert(0 <= upper_case_code_point(cp) < 0x1_0000_0000);
            assert(p(c));
        }
    }
    assert(is_run_decomposition(rs) && forall|c: int| in_any(rs, c) <==> upper_image(low, high, c));
}

/// Returns the ranges that the code points from `low` to `high` match,
/// folded to uppercase when `case_insensitive`.
pub fn build_code_point_ranges(case_insensitive: bool, low_code_point: u32, high_code_point: u32) -> (res: Vec<OurRange>)
    ensures
        res@ == code_point_ranges(case_insensitive, low_code_point, high_code_point),
        forall|i: int| 0 <= i < res@.len() ==> range_ok(#[trigger] res@[i]),
        case_insensitive ==> is_run_decomposition(res@) && forall|c: int|
            in_any(res@, c) <==> upper_image(low_code_point, high_code_point, c),
{
    if !case_insensitive {
        let mut res: Vec<OurRange> = Vec::new();
        res.push((Bound::Finite(low_code_point as i64), Bound::Finite(high_code_point as i64)));
        proof {
            assert(res@ =~= code_point_ranges(case_insensitive, low_code_point, high_code_point));
        }
        return res;
    }
    let mut code_points: HashSet<i64> = HashSet::new();
    if low_code_point <= high_code_point {
        let mut code_point = low_code_point;
        loop
            invariant_except_break
                low_code_point <= code_point <= high_code_point,
                forall|v: i64|
                    #[trigger] code_points@.contains(v) <==> exists|cp: u32|
                        low_code_point <= cp < code_point && upper_case_code_point(cp) == v,
            ensures
                forall|v: i64|
                    #[trigger] code_points@.contains(v) <==> exists|cp: u32|
                        low_code_point <= cp <= high_code_point && upper_case_code_point(cp) == v,
            decreases high_code_point - code_point,
        {
            let upper = to_upper_case_code_point(code_point);
            let ghost before = code_points@;
            code_points.insert(upper as i64);
            proof {
                assert forall|v: i64| #[trigger] code_points@.contains(v) <==> exists|cp: u32|
                    low_code_point <= cp <= code_point && upper_case_code_point(cp) == v by {
                    if code_points@.contains(v) && v != upper as i64 {
                        assert(before.contains(v));
                    }
                }
            }
            if code_point == high_code_point {
                break;
            }
            code_point = code_point + 1;
        }
    }
    let res = create_ranges(&code_points);
    proof {
        assert forall|c: int| in_any(res@, c) <==> upper_image(low_code_point, high_code_point, c) by {
            if upper_image(low_code_point, high_code_point, c) {
                let cp = choose|cp: u32| low_code_point <= cp <= high_code_point && upper_case_code_point(cp) == c;
                assert(code_points@.contains(upper_case_code_point(cp) as i64));
            }
        }
        let chosen = code_point_ranges(case_insensitive, low_code_point, high_code_point);
        assert(is_run_decomposition(chosen) && forall|c: int|
            in_any(chosen, c) <==> upper_image(low_code_point, high_code_point, c));
        lemma_run_decomposition_unique(res@, chosen);
    }
    res
}

} // verus!
