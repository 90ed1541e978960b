//! An ECMA-262 regular-expression parser.
//!
//! The parser produces the syntax tree of [`crate::ast`] with UTF-16 offsets
//! and exact `raw` slices. It supports literals, classes, escapes, groups
//! including lookbehind, quantifiers, anchors, numbered backreferences, and
//! unicode property escapes in unicode mode. Named groups, modifier groups, and
//! the `v` flag are out of scope.
//!
//! Forward backreferences force a second pass, matching how an engine resolves
//! `\2()()`: the first pass counts capturing groups, then the input is parsed
//! again with the final count.
use crate::ast::{AnchorKind, ClassEscape, GroupBehavior, Node, NodeKind, RcNode};
use crate::text::{encode_utf16, decode_utf16_lossy, lossy_decode};
use std::rc::Rc;
use vstd::prelude::*;

verus! {

/// A parse failure carrying the engine error message.
#[derive(Debug)]
pub struct ParseError(pub String);

/// The largest integer a JavaScript number holds exactly.
pub const MAX_SAFE_INTEGER: u64 = 9_007_199_254_740_991;

/// The text that `range` spans in `units`.
pub open spec fn slice_text(units: Seq<u16>, range: (usize, usize)) -> Seq<char> {
    lossy_decode(units.subrange(range.0 as int, range.1 as int))
}

/// A node is well formed over `units`: its range lies in the input, its
/// `raw` is exactly the text of that range, its fields agree with that text
/// ([`node_reads`]), its children lie inside it in source order (strictly
/// inside the brackets of a group), every quantifier has
/// `min <= max <= MAX_SAFE_INTEGER`, every class range is ordered, every
/// value is a code point and every reference points at a group index of at
/// least 1.
pub open spec fn node_wf(n: Node, units: Seq<u16>) -> bool
    decreases n,
{
    &&& n.range.0 <= n.range.1 <= units.len()
    &&& n.raw@ == slice_text(units, n.range)
    &&& node_reads(n, units)
    &&& match n.kind {
        NodeKind::Alternative { body } => body_wf(body@, units, n.range.0, n.range.1),
        NodeKind::Disjunction { body } => body_wf(body@, units, n.range.0, n.range.1),
        NodeKind::Group { behavior, body } => {
            &&& n.range.0 + 2 <= n.range.1
            &&& body_wf(body@, units, (n.range.0 + 1) as usize, (n.range.1 - 1) as usize)
        },
        NodeKind::CharacterClass { negative, body } => body_wf(body@, units, n.range.0, n.range.1),
        NodeKind::Quantifier { min, max, greedy, symbol, body } => {
            &&& min <= MAX_SAFE_INTEGER
            &&& (max matches Some(m) ==> min <= m && m <= MAX_SAFE_INTEGER)
            &&& node_wf(*body, units)
            &&& n.range.0 <= body.range.0
            &&& body.range.1 <= n.range.1
        },
        NodeKind::CharacterClassRange { min, max } => {
            &&& node_wf(*min, units)
            &&& node_wf(*max, units)
            &&& min.spec_code_point() is Some
            &&& max.spec_code_point() is Some
            &&& min.spec_code_point().unwrap() <= max.spec_code_point().unwrap()
            &&& n.range.0 <= min.range.0
            &&& min.range.1 <= max.range.0
            &&& max.range.1 <= n.range.1
        },
        NodeKind::Value { code_point } => code_point <= 0x10FFFF,
        NodeKind::Reference { match_index } => match_index >= 1,
        _ => true,
    }
}

/// A list of children is well formed inside `[lo, hi]`: each child is well
/// formed and they follow one another in source order.
pub open spec fn body_wf(s: Seq<RcNode>, units: Seq<u16>, lo: usize, hi: usize) -> bool
    decreases s,
{
    if s.len() == 0 {
        lo <= hi
    } else {
        let last = s.last();
        &&& node_wf(*last, units)
        &&& last.range.1 <= hi
        &&& body_wf(s.drop_last(), units, lo, last.range.0)
    }
}

/// The number of capturing groups in a node, not counting any inside a
/// character class.
pub open spec fn capture_count(n: Node) -> nat
    decreases n,
{
    match n.kind {
        NodeKind::Group { behavior, body } => (if behavior == GroupBehavior::Normal {
            1nat
        } else {
            0nat
        }) + captures_in(body@),
        NodeKind::Alternative { body } => captures_in(body@),
        NodeKind::Disjunction { body } => captures_in(body@),
        NodeKind::Quantifier { min, max, greedy, symbol, body } => capture_count(*body),
        _ => 0,
    }
}

/// The number of capturing groups in a list of nodes.
pub open spec fn captures_in(s: Seq<RcNode>) -> nat
    decreases s,
{
    if s.len() == 0 {
        0
    } else {
        captures_in(s.drop_last()) + capture_count(*s.last())
    }
}

/// The node a quantifier repeats.
pub open spec fn quantified(n: Node) -> Node {
    *n.kind->Quantifier_body
}

/// The last node of a non-empty list.
pub open spec fn last_node(s: Seq<RcNode>) -> Node {
    *s.last()
}

/// A well-formed node holds at most one capturing group per two units it
/// spans, since every group spans its two brackets.
pub proof fn lemma_capture_count_bounded(n: Node, units: Seq<u16>)
    requires
        node_wf(n, units),
    ensures
        2 * capture_count(n) <= n.range.1 - n.range.0,
    decreases n,
{
    if n.kind is Group {
        lemma_captures_in_bounded(n.kind->Group_body@, units, (n.range.0 + 1) as usize, (n.range.1 - 1) as usize);
    } else if n.kind is Alternative {
        lemma_captures_in_bounded(n.kind->Alternative_body@, units, n.range.0, n.range.1);
    } else if n.kind is Disjunction {
        lemma_captures_in_bounded(n.kind->Disjunction_body@, units, n.range.0, n.range.1);
    } else if n.kind is Quantifier {
        lemma_capture_count_bounded(quantified(n), units);
    }
}

/// A well-formed list holds at most one capturing group per two units of
/// its interval.
pub proof fn lemma_captures_in_bounded(s: Seq<RcNode>, units: Seq<u16>, lo: usize, hi: usize)
    requires
        body_wf(s, units, lo, hi),
    ensures
        2 * captures_in(s) <= hi - lo,
    decreases s,
{
    if s.len() > 0 {
        lemma_capture_count_bounded(last_node(s), units);
        lemma_captures_in_bounded(s.drop_last(), units, lo, s.last().range.0);
    }
}

/// A well-formed list stays well formed in a wider interval.
pub proof fn lemma_body_wf_widen(s: Seq<RcNode>, units: Seq<u16>, lo: usize, hi: usize, lo2: usize, hi2: usize)
    requires
        body_wf(s, units, lo, hi),
        lo2 <= lo,
        hi <= hi2,
    ensures
        body_wf(s, units, lo2, hi2),
    decreases s.len(),
{
    if s.len() > 0 {
        lemma_body_wf_widen(s.drop_last(), units, lo, s.last().range.0, lo2, s.last().range.0);
    }
}

/// A well-formed list lies inside its interval.
pub proof fn lemma_body_wf_bounds(s: Seq<RcNode>, units: Seq<u16>, lo: usize, hi: usize)
    requires
        body_wf(s, units, lo, hi),
    ensures
        lo <= hi,
        forall|i: int| 0 <= i < s.len() ==> lo <= (#[trigger] s[i]).range.0 && s[i].range.1 <= hi,
    decreases s.len(),
{
    if s.len() > 0 {
        let last = s.last();
        assert(node_wf(*last, units));
        assert(last.range.0 <= last.range.1);
        lemma_body_wf_bounds(s.drop_last(), units, lo, last.range.0);
        assert forall|i: int| 0 <= i < s.len() implies lo <= (#[trigger] s[i]).range.0 && s[i].range.1 <= hi by {
            if i < s.len() - 1 {
                assert(s[i] == s.drop_last()[i]);
            }
        }
    }
}

/// A non-empty well-formed list is well formed between its first start and
/// its last end.
pub proof fn lemma_body_wf_tight(s: Seq<RcNode>, units: Seq<u16>, lo: usize, hi: usize)
    requires
        body_wf(s, units, lo, hi),
        s.len() > 0,
    ensures
        body_wf(s, units, s[0].range.0, s.last().range.1),
    decreases s.len(),
{
    let last = s.last();
    let d = s.drop_last();
    if d.len() == 0 {
        assert(s[0] == last);
        assert(body_wf(d, units, s[0].range.0, last.range.0));
    } else {
        lemma_body_wf_tight(d, units, lo, last.range.0);
        lemma_body_wf_bounds(d, units, lo, last.range.0);
        assert(d[0] == s[0]);
        assert(d.last() == d[d.len() - 1]);
        lemma_body_wf_widen(d, units, d[0].range.0, d.last().range.1, s[0].range.0, last.range.0);
        assert(body_wf(d, units, s[0].range.0, last.range.0));
    }
    assert(s.drop_last() == d);
}

/// Two consecutive well-formed lists form one.
pub proof fn lemma_body_wf_concat(a: Seq<RcNode>, b: Seq<RcNode>, units: Seq<u16>, lo: usize, mid: usize, hi: usize)
    requires
        body_wf(a, units, lo, mid),
        body_wf(b, units, mid, hi),
    ensures
        body_wf(a + b, units, lo, hi),
    decreases b.len(),
{
    if b.len() == 0 {
        lemma_body_wf_bounds(b, units, mid, hi);
        lemma_body_wf_widen(a, units, lo, mid, lo, hi);
        assert(a + b =~= a);
    } else {
        let last = b.last();
        lemma_body_wf_concat(a, b.drop_last(), units, lo, mid, last.range.0);
        assert((a + b).drop_last() =~= a + b.drop_last());
        assert((a + b).last() == last);
    }
}

/// Appending a node that follows the list keeps it well formed.
proof fn lemma_body_wf_push(s: Seq<RcNode>, units: Seq<u16>, lo: usize, mid: usize, n: RcNode, hi: usize)
    requires
        body_wf(s, units, lo, mid),
        node_wf(*n, units),
        mid <= n.range.0,
        n.range.1 <= hi,
    ensures
        body_wf(s.push(n), units, lo, hi),
{
    lemma_body_wf_widen(s, units, lo, mid, lo, n.range.0);
    assert(s.push(n).drop_last() == s);
}

/// A one-element list.
proof fn lemma_body_wf_single(n: RcNode, units: Seq<u16>, lo: usize, hi: usize)
    requires
        node_wf(*n, units),
        lo <= n.range.0,
        n.range.1 <= hi,
    ensures
        body_wf(seq![n], units, lo, hi),
{
    let s = Seq::<RcNode>::empty();
    assert(seq![n] == s.push(n));
    lemma_body_wf_push(s, units, lo, lo, n, hi);
}

/// `true` for an ASCII decimal digit unit.
pub open spec fn spec_is_ascii_digit(u: u16) -> bool {
    0x30 <= u <= 0x39
}

/// `true` for an ASCII octal digit unit.
pub open spec fn spec_is_octal_digit(u: u16) -> bool {
    0x30 <= u <= 0x37
}

/// `true` for an ASCII hexadecimal digit unit.
pub open spec fn spec_is_hex_digit(u: u16) -> bool {
    (0x30 <= u <= 0x39) || (0x41 <= u <= 0x46) || (0x61 <= u <= 0x66)
}

/// The value of a hexadecimal digit unit.
pub open spec fn hex_digit_value(u: u16) -> int {
    if 0x30 <= u <= 0x39 {
        u - 0x30
    } else if 0x41 <= u <= 0x46 {
        u - 0x41 + 10
    } else {
        u - 0x61 + 10
    }
}

/// The value of a sequence of digit units in `base`.
pub open spec fn digits_value(s: Seq<u16>, base: int) -> int
    decreases s.len(),
{
    if s.len() == 0 {
        0
    } else {
        digits_value(s.drop_last(), base) * base + hex_digit_value(s.last())
    }
}

/// The units that a node spans.
pub open spec fn node_units(n: Node, units: Seq<u16>) -> Seq<u16> {
    units.subrange(n.range.0 as int, n.range.1 as int)
}

/// The text that opens a group of each behavior.
pub open spec fn group_opener(b: GroupBehavior) -> Seq<u16> {
    match b {
        GroupBehavior::Normal => seq![0x28u16],
        GroupBehavior::Ignore => seq![0x28u16, 0x3F, 0x3A],
        GroupBehavior::Lookahead => seq![0x28u16, 0x3F, 0x3D],
        GroupBehavior::NegativeLookahead => seq![0x28u16, 0x3F, 0x21],
        GroupBehavior::Lookbehind => seq![0x28u16, 0x3F, 0x3C, 0x3D],
        GroupBehavior::NegativeLookbehind => seq![0x28u16, 0x3F, 0x3C, 0x21],
    }
}

/// The text of each anchor: `^`, `$`, `\b`, `\B`.
pub open spec fn anchor_text(k: AnchorKind) -> Seq<u16> {
    match k {
        AnchorKind::Start => seq![0x5Eu16],
        AnchorKind::End => seq![0x24u16],
        AnchorKind::Boundary => seq![0x5Cu16, 0x62],
        AnchorKind::NotBoundary => seq![0x5Cu16, 0x42],
    }
}

/// The letter after the backslash of each class escape.
pub open spec fn class_escape_letter(e: ClassEscape) -> u16 {
    match e {
        ClassEscape::D => 0x64,
        ClassEscape::DUpper => 0x44,
        ClassEscape::W => 0x77,
        ClassEscape::WUpper => 0x57,
        ClassEscape::S => 0x73,
        ClassEscape::SUpper => 0x53,
    }
}

/// Every unit is a decimal digit.
pub open spec fn all_decimal(s: Seq<u16>) -> bool {
    forall|i: int| 0 <= i < s.len() ==> spec_is_ascii_digit(#[trigger] s[i])
}

/// Every unit is an octal digit.
pub open spec fn all_octal(s: Seq<u16>) -> bool {
    forall|i: int| 0 <= i < s.len() ==> spec_is_octal_digit(#[trigger] s[i])
}

/// Every unit is a hexadecimal digit.
pub open spec fn all_hex(s: Seq<u16>) -> bool {
    forall|i: int| 0 <= i < s.len() ==> spec_is_hex_digit(#[trigger] s[i])
}

/// A leading UTF-16 surrogate.
pub open spec fn is_high_surrogate(u: int) -> bool {
    0xD800 <= u <= 0xDBFF
}

/// A trailing UTF-16 surrogate.
pub open spec fn is_low_surrogate(u: int) -> bool {
    0xDC00 <= u <= 0xDFFF
}

/// The code point a surrogate pair encodes.
pub open spec fn surrogate_pair_value(hi: int, lo: int) -> int {
    (hi - 0xD800) * 0x400 + (lo - 0xDC00) + 0x10000
}

/// An ASCII letter.
pub open spec fn is_ascii_letter(u: u16) -> bool {
    (0x41 <= u <= 0x5A) || (0x61 <= u <= 0x7A)
}

/// The code point of a one-letter escape: `\t \n \v \f \r`, `\b` (a
/// backspace inside a class), `\-`, and `\8 \9` read as the digits.
pub open spec fn single_escape_value(u: u16) -> Option<int> {
    if u == 0x74 {
        Some(0x09)
    } else if u == 0x6E {
        Some(0x0A)
    } else if u == 0x76 {
        Some(0x0B)
    } else if u == 0x66 {
        Some(0x0C)
    } else if u == 0x72 {
        Some(0x0D)
    } else if u == 0x62 {
        Some(0x08)
    } else if u == 0x2D {
        Some(0x2D)
    } else if u == 0x38 || u == 0x39 {
        Some(u as int)
    } else {
        None
    }
}

/// What follows a backslash spells the code point `cp`: a one-letter escape,
/// a control letter `cX`, `xHH`, `uHHHH`, an escaped surrogate pair
/// `uHHHH\uHHHH`, `u{H...}`, or up to three octal digits.
pub open spec fn escape_reads(e: Seq<u16>, cp: int) -> bool {
    ||| e.len() == 1 && single_escape_value(e[0]) == Some(cp)
    ||| e.len() == 2 && e[0] == 0x63 && is_ascii_letter(e[1]) && cp == e[1] % 32
    ||| e.len() == 3 && e[0] == 0x78 && all_hex(e.drop_first()) && cp == digits_value(e.drop_first(), 16)
    ||| e.len() == 5 && e[0] == 0x75 && all_hex(e.drop_first()) && cp == digits_value(e.drop_first(), 16)
    ||| {
        &&& e.len() == 11
        &&& e[0] == 0x75 && e[5] == 0x5C && e[6] == 0x75
        &&& all_hex(e.subrange(1, 5)) && all_hex(e.subrange(7, 11))
        &&& is_high_surrogate(digits_value(e.subrange(1, 5), 16))
        &&& is_low_surrogate(digits_value(e.subrange(7, 11), 16))
        &&& cp == surrogate_pair_value(digits_value(e.subrange(1, 5), 16), digits_value(e.subrange(7, 11), 16))
    }
    ||| {
        &&& e.len() >= 4 && e[0] == 0x75 && e[1] == 0x7B && e.last() == 0x7D
        &&& all_hex(e.subrange(2, e.len() - 1))
        &&& cp == if digits_value(e.subrange(2, e.len() - 1), 16) <= u32::MAX {
            digits_value(e.subrange(2, e.len() - 1), 16)
        } else {
            0
        }
    }
    ||| 1 <= e.len() <= 3 && all_octal(e) && cp == digits_value(e, 8)
}

/// The text `t` spells the code point `cp`: the character itself (a
/// surrogate pair counting as one), a lone `0` read as NUL, or a backslash
/// and an escape.
pub open spec fn value_reads(t: Seq<u16>, cp: int) -> bool {
    ||| t.len() == 1 && cp == t[0]
    ||| t == seq![0x30u16] && cp == 0
    ||| t.len() == 2 && is_high_surrogate(t[0] as int) && is_low_surrogate(t[1] as int)
        && cp == surrogate_pair_value(t[0] as int, t[1] as int)
    ||| t.len() >= 2 && t[0] == 0x5C && escape_reads(t.drop_first(), cp)
}

/// `x`, or `u64::MAX` when it is larger.
pub open spec fn sat_u64(x: int) -> int {
    if x <= u64::MAX {
        x
    } else {
        u64::MAX as int
    }
}

/// The inside of a brace quantifier: `n`, `n,` or `n,m`, each number read
/// in decimal and held at `u64::MAX` when larger.
pub open spec fn brace_reads(inner: Seq<u16>, min: u64, max: Option<u64>) -> bool {
    ||| inner.len() >= 1 && all_decimal(inner) && min == sat_u64(digits_value(inner, 10)) && max == Some(min)
    ||| exists|c: int|
        #![trigger inner.take(c)]
        {
            &&& 0 < c < inner.len()
            &&& inner[c] == 0x2C
            &&& all_decimal(inner.take(c))
            &&& min == sat_u64(digits_value(inner.take(c), 10))
            &&& {
                ||| c == inner.len() - 1 && max is None
                ||| c < inner.len() - 1 && all_decimal(inner.skip(c + 1))
                    && max == Some(sat_u64(digits_value(inner.skip(c + 1), 10)) as u64)
            }
        }
}

/// `q` is a quantifier's text: `*`, `+`, `?` or a brace form, followed by
/// `?` exactly when the quantifier is lazy.
pub open spec fn quantifier_reads(q: Seq<u16>, min: u64, max: Option<u64>, greedy: bool, symbol: Option<char>) -> bool {
    let core = if greedy { q } else { q.drop_last() };
    &&& greedy == !(q.len() >= 2 && q.last() == 0x3F)
    &&& {
        ||| core == seq![0x2Au16] && min == 0 && max is None && symbol == Some('*')
        ||| core == seq![0x2Bu16] && min == 1 && max is None && symbol == Some('+')
        ||| core == seq![0x3Fu16] && min == 0 && max == Some(1u64) && symbol == Some('?')
        ||| core.len() >= 3 && core[0] == 0x7B && core.last() == 0x7D && symbol is None
            && brace_reads(core.subrange(1, core.len() - 1), min, max)
    }
}

/// A node's fields agree with its source text: anchors, the dot, class
/// escapes and property escapes are their own text, a group starts with
/// its behavior's opener and ends with `)`, a class is bracketed with `^`
/// after `[` exactly when negated, a value's text spells its code point, a
/// reference is a backslash and its decimal index, a quantifier's text ends
/// with its quantifier, and a class range spans its two ends.
pub open spec fn node_reads(n: Node, units: Seq<u16>) -> bool {
    let t = node_units(n, units);
    match n.kind {
        NodeKind::Anchor { kind } => t == anchor_text(kind),
        NodeKind::Dot => t == seq![0x2Eu16],
        NodeKind::CharacterClassEscape { value } => t == seq![0x5Cu16, class_escape_letter(value)],
        NodeKind::Group { behavior, body } => {
            &&& t.len() > group_opener(behavior).len()
            &&& t.take(group_opener(behavior).len() as int) == group_opener(behavior)
            &&& t.last() == 0x29
        },
        NodeKind::CharacterClass { negative, body } => {
            &&& t.len() >= 2 && t[0] == 0x5B && t.last() == 0x5D
            &&& negative == (t[1] == 0x5E)
        },
        NodeKind::Value { code_point } => value_reads(t, code_point as int),
        NodeKind::Reference { match_index } => {
            &&& t.len() >= 2 && t[0] == 0x5C && t[1] != 0x30
            &&& all_decimal(t.drop_first())
            &&& match_index == if digits_value(t.drop_first(), 10) <= usize::MAX {
                digits_value(t.drop_first(), 10)
            } else {
                usize::MAX as int
            }
        },
        NodeKind::UnicodePropertyEscape { negative, value } => {
            &&& t.len() >= 5 && t[0] == 0x5C && t[2] == 0x7B && t.last() == 0x7D
            &&& t[1] == if negative { 0x50u16 } else { 0x70u16 }
            &&& value@ == slice_text(units, ((n.range.0 + 3) as usize, (n.range.1 - 1) as usize))
        },
        NodeKind::Quantifier { min, max, greedy, symbol, body } => exists|k: int|
            #![trigger units.subrange(k, n.range.1 as int)]
            body.range.1 <= k <= n.range.1 && quantifier_reads(units.subrange(k, n.range.1 as int), min, max, greedy, symbol),
        NodeKind::CharacterClassRange { min, max } => n.range.0 == min.range.0 && max.range.1 <= n.range.1,
        _ => true,
    }
}

/// A quantifier node's own part is well formed: its bounds are in order
/// and within [`MAX_SAFE_INTEGER`], and its whole text reads as the
/// quantifier.
pub open spec fn quantifier_wf(q: Node, units: Seq<u16>) -> bool {
    &&& q.range.0 <= q.range.1 <= units.len()
    &&& q.kind matches NodeKind::Quantifier { min, max, greedy, symbol, body } && {
        &&& min <= MAX_SAFE_INTEGER
        &&& (max matches Some(m) ==> min <= m && m <= MAX_SAFE_INTEGER)
        &&& quantifier_reads(units.subrange(q.range.0 as int, q.range.1 as int), min, max, greedy, symbol)
    }
}

/// The text of an escape from its backslash at `bs` to `end`.
proof fn lemma_escape_text(units: Seq<u16>, bs: int, end: int)
    requires
        0 <= bs < end <= units.len(),
        units[bs] == 0x5C,
    ensures
        units.subrange(bs, end).len() >= 1,
        units.subrange(bs, end)[0] == 0x5C,
        units.subrange(bs, end).drop_first() == units.subrange(bs + 1, end),
{
    assert(units.subrange(bs, end).drop_first() =~= units.subrange(bs + 1, end));
}

/// A run of octal digits, as a slice.
proof fn lemma_all_octal(units: Seq<u16>, lo: int, hi: int)
    requires
        0 <= lo <= hi <= units.len(),
        forall|j: int| lo <= j < hi ==> spec_is_octal_digit(#[trigger] units[j]),
    ensures
        all_octal(units.subrange(lo, hi)),
{
    assert forall|i: int| 0 <= i < hi - lo implies spec_is_octal_digit(#[trigger] units.subrange(lo, hi)[i]) by {
        assert(units.subrange(lo, hi)[i] == units[lo + i]);
    }
}

/// A run of decimal digits, as a slice.
proof fn lemma_all_decimal(units: Seq<u16>, lo: int, hi: int)
    requires
        0 <= lo <= hi <= units.len(),
        forall|j: int| lo <= j < hi ==> spec_is_ascii_digit(#[trigger] units[j]),
    ensures
        all_decimal(units.subrange(lo, hi)),
{
    assert forall|i: int| 0 <= i < hi - lo implies spec_is_ascii_digit(#[trigger] units.subrange(lo, hi)[i]) by {
        assert(units.subrange(lo, hi)[i] == units[lo + i]);
    }
}

/// A run of hexadecimal digits, as a slice.
proof fn lemma_all_hex(units: Seq<u16>, lo: int, hi: int)
    requires
        0 <= lo <= hi <= units.len(),
        forall|j: int| lo <= j < hi ==> spec_is_hex_digit(#[trigger] units[j]),
    ensures
        all_hex(units.subrange(lo, hi)),
{
    assert forall|i: int| 0 <= i < hi - lo implies spec_is_hex_digit(#[trigger] units.subrange(lo, hi)[i]) by {
        assert(units.subrange(lo, hi)[i] == units[lo + i]);
    }
}

/// A character read from a backslash and a nonzero decimal digit, which
/// unicode mode refuses unless it names a group.
pub open spec fn is_decimal_character(n: Node, units: Seq<u16>) -> bool {
    let t = node_units(n, units);
    &&& n.kind is Value
    &&& t.len() >= 2 && t[0] == 0x5C && 0x31 <= t[1] <= 0x39
}

/// No node of the tree is a decimal character.
pub open spec fn no_decimal_characters(n: Node, units: Seq<u16>) -> bool
    decreases n,
{
    &&& !is_decimal_character(n, units)
    &&& match n.kind {
        NodeKind::Alternative { body } => none_has_decimal_characters(body@, units),
        NodeKind::Disjunction { body } => none_has_decimal_characters(body@, units),
        NodeKind::Group { behavior, body } => none_has_decimal_characters(body@, units),
        NodeKind::CharacterClass { negative, body } => none_has_decimal_characters(body@, units),
        NodeKind::Quantifier { min, max, greedy, symbol, body } => no_decimal_characters(*body, units),
        NodeKind::CharacterClassRange { min, max } => no_decimal_characters(*min, units)
            && no_decimal_characters(*max, units),
        _ => true,
    }
}

/// No tree of the list holds a decimal character.
pub open spec fn none_has_decimal_characters(s: Seq<RcNode>, units: Seq<u16>) -> bool
    decreases s,
{
    if s.len() == 0 {
        true
    } else {
        none_has_decimal_characters(s.drop_last(), units) && no_decimal_characters(*s.last(), units)
    }
}

/// Appending a tree without decimal characters keeps the list free of them.
proof fn lemma_none_has_push(s: Seq<RcNode>, n: RcNode, units: Seq<u16>)
    requires
        none_has_decimal_characters(s, units),
        no_decimal_characters(*n, units),
    ensures
        none_has_decimal_characters(s.push(n), units),
{
    assert(s.push(n).drop_last() =~= s);
}

/// Two lists free of decimal characters, one after the other.
proof fn lemma_none_has_concat(a: Seq<RcNode>, b: Seq<RcNode>, units: Seq<u16>)
    requires
        none_has_decimal_characters(a, units),
        none_has_decimal_characters(b, units),
    ensures
        none_has_decimal_characters(a + b, units),
    decreases b.len(),
{
    if b.len() == 0 {
        assert(a + b =~= a);
    } else {
        lemma_none_has_concat(a, b.drop_last(), units);
        assert((a + b).drop_last() =~= a + b.drop_last());
        assert((a + b).last() == b.last());
    }
}

/// A unit with no special meaning in a pattern: none of `^ $ \\ . * + ? ( ) [ ] { } |`.
pub open spec fn is_plain_unit(u: u16) -> bool {
    !(u == 0x5E || u == 0x24 || u == 0x5C || u == 0x2E || u == 0x2A || u == 0x2B || u == 0x3F
        || u == 0x28 || u == 0x29 || u == 0x5B || u == 0x5D || u == 0x7B || u == 0x7D || u == 0x7C)
}

/// Every unit from `from` on is plain.
pub open spec fn plain_from(units: Seq<u16>, from: int) -> bool {
    forall|i: int| from <= i < units.len() ==> is_plain_unit(#[trigger] units[i])
}

/// How many units the plain character at `pos` takes: two for a surrogate
/// pair in unicode mode, else one.
pub open spec fn plain_term_len(units: Seq<u16>, pos: int, unicode: bool) -> int {
    if unicode && 0 <= pos && pos + 1 < units.len() && is_high_surrogate(units[pos] as int) && is_low_surrogate(
        units[pos + 1] as int,
    ) {
        2
    } else {
        1
    }
}

/// The ranges of the plain characters from `pos` up to `hi`, one after the
/// other.
pub open spec fn plain_term_ranges(units: Seq<u16>, pos: int, hi: int, unicode: bool) -> Seq<(int, int)>
    decreases hi - pos,
{
    if pos >= hi {
        Seq::empty()
    } else if pos + plain_term_len(units, pos, unicode) > hi {
        seq![(pos, pos + plain_term_len(units, pos, unicode))]
    } else {
        seq![(pos, pos + plain_term_len(units, pos, unicode))] + plain_term_ranges(
            units,
            pos + plain_term_len(units, pos, unicode),
            hi,
            unicode,
        )
    }
}

/// The ranges of a list of nodes.
pub open spec fn ranges_of(s: Seq<RcNode>) -> Seq<(int, int)> {
    s.map_values(|n: RcNode| (n.range.0 as int, n.range.1 as int))
}

/// The tree of plain characters in `lo..hi`: the one character where there
/// is one, else a sequence of them.
pub open spec fn plain_shape(n: Node, units: Seq<u16>, lo: int, hi: int, unicode: bool) -> bool {
    let rs = plain_term_ranges(units, lo, hi, unicode);
    if rs.len() == 1 {
        n.kind is Value && n.range.0 == rs[0].0 && n.range.1 == rs[0].1
    } else {
        n.kind matches NodeKind::Alternative { body } && n.range.0 == lo && n.range.1 == hi && ranges_of(body@) == rs
            && forall|i: int| 0 <= i < body@.len() ==> (#[trigger] body@[i]).kind is Value
    }
}

/// Which units a run is made of: decimal digits, hexadecimal digits,
/// anything but `}`, plain units, or units that stand for themselves in a
/// class (anything but `\\`, `]` and `-`).
pub enum UnitClass {
    Decimal,
    Hex,
    NotCloseBrace,
    Plain,
    ClassPlain,
}

/// `u` belongs to the class `c`.
pub open spec fn in_unit_class(u: u16, c: UnitClass) -> bool {
    match c {
        UnitClass::Decimal => spec_is_ascii_digit(u),
        UnitClass::Hex => spec_is_hex_digit(u),
        UnitClass::NotCloseBrace => u != 0x7D,
        UnitClass::Plain => is_plain_unit(u),
        UnitClass::ClassPlain => u != 0x5C && u != 0x5D && u != 0x2D,
    }
}

/// How many units from `from` on belong to `c`, up to the first that does
/// not.
pub open spec fn run_len(units: Seq<u16>, from: int, c: UnitClass) -> int
    decreases units.len() - from,
{
    if 0 <= from < units.len() && in_unit_class(units[from], c) {
        1 + run_len(units, from + 1, c)
    } else {
        0
    }
}

/// A run that a loop scanned from `from` to `to` has that length.
proof fn lemma_run_len(units: Seq<u16>, from: int, to: int, c: UnitClass)
    requires
        0 <= from <= to <= units.len(),
        forall|j: int| from <= j < to ==> in_unit_class(#[trigger] units[j], c),
        to == units.len() || !in_unit_class(units[to], c),
    ensures
        run_len(units, from, c) == to - from,
    decreases to - from,
{
    if from < to {
        assert(in_unit_class(units[from], c));
        lemma_run_len(units, from + 1, to, c);
    }
}

/// What a run is: every unit of it is in the class, and the unit after it
/// is not (or the input ends).
proof fn lemma_run_len_facts(units: Seq<u16>, from: int, c: UnitClass)
    requires
        0 <= from <= units.len(),
    ensures
        0 <= run_len(units, from, c),
        from + run_len(units, from, c) <= units.len(),
        forall|j: int| from <= j < from + run_len(units, from, c) ==> in_unit_class(#[trigger] units[j], c),
        from + run_len(units, from, c) == units.len() || !in_unit_class(units[from + run_len(units, from, c)], c),
    decreases units.len() - from,
{
    if from < units.len() && in_unit_class(units[from], c) {
        lemma_run_len_facts(units, from + 1, c);
    }
}

/// A run read from a later start inside it ends at the same place.
proof fn lemma_run_same_end(units: Seq<u16>, p: int, q: int, c: UnitClass)
    requires
        0 <= p <= q <= p + run_len(units, p, c),
        p <= units.len(),
    ensures
        q + run_len(units, q, c) == p + run_len(units, p, c),
{
    lemma_run_len_facts(units, p, c);
    lemma_run_len(units, q, p + run_len(units, p, c), c);
}

/// The length of the brace quantifier `{n}`, `{n,}` or `{n,m}` at `pos`, if
/// one is there.
pub open spec fn brace_quantifier_len(units: Seq<u16>, pos: int) -> Option<int> {
    if !(0 <= pos < units.len() && units[pos] == 0x7B) {
        None
    } else {
        let d1 = run_len(units, pos + 1, UnitClass::Decimal);
        let i = pos + 1 + d1;
        if d1 == 0 {
            None
        } else if i < units.len() && units[i] == 0x7D {
            Some(i + 1 - pos)
        } else if i < units.len() && units[i] == 0x2C {
            if i + 1 < units.len() && units[i + 1] == 0x7D {
                Some(i + 2 - pos)
            } else {
                let d2 = run_len(units, i + 1, UnitClass::Decimal);
                let j = i + 1 + d2;
                if d2 > 0 && j < units.len() && units[j] == 0x7D {
                    Some(j + 1 - pos)
                } else {
                    None
                }
            }
        } else {
            None
        }
    }
}

/// The lower bound of the brace quantifier at `pos`, held at `u64::MAX`.
pub open spec fn brace_min(units: Seq<u16>, pos: int) -> int {
    let d1 = run_len(units, pos + 1, UnitClass::Decimal);
    sat_u64(digits_value(units.subrange(pos + 1, pos + 1 + d1), 10))
}

/// The upper bound of the brace quantifier at `pos`, `None` for `{n,}`.
pub open spec fn brace_max(units: Seq<u16>, pos: int) -> Option<int> {
    let i = pos + 1 + run_len(units, pos + 1, UnitClass::Decimal);
    if units[i] == 0x7D {
        Some(brace_min(units, pos))
    } else if units[i + 1] == 0x7D {
        None
    } else {
        let d2 = run_len(units, i + 1, UnitClass::Decimal);
        Some(sat_u64(digits_value(units.subrange(i + 1, i + 1 + d2), 10)))
    }
}

/// The brace quantifier at `pos` is refused: its bounds are out of order or
/// beyond [`MAX_SAFE_INTEGER`].
pub open spec fn brace_bounds_bad(units: Seq<u16>, pos: int) -> bool {
    ||| (brace_max(units, pos) matches Some(m) && m < brace_min(units, pos))
    ||| brace_min(units, pos) > MAX_SAFE_INTEGER
    ||| (brace_max(units, pos) matches Some(m) && m > MAX_SAFE_INTEGER)
}

/// A quantifier starts at `pos`: `*`, `+`, `?` or a brace quantifier.
pub open spec fn quantifier_at(units: Seq<u16>, pos: int) -> bool {
    ||| (0 <= pos < units.len() && (units[pos] == 0x2A || units[pos] == 0x2B || units[pos] == 0x3F))
    ||| brace_quantifier_len(units, pos) is Some
}

/// `u` may follow a backslash in unicode mode: one of `^ $ . * + ? ( ) \\ [ ] { } | /`.
pub open spec fn spec_is_syntax_character(u: u16) -> bool {
    u == 0x5E || u == 0x24 || u == 0x2E || u == 0x2A || u == 0x2B || u == 0x3F || u == 0x28
        || u == 0x29 || u == 0x5C || u == 0x5B || u == 0x5D || u == 0x7B || u == 0x7D || u == 0x7C
        || u == 0x2F
}

/// `u` may be escaped as itself: a syntax character in unicode mode, any
/// unit but `c` otherwise.
pub open spec fn identity_allowed(u: u16, unicode: bool) -> bool {
    (unicode && spec_is_syntax_character(u)) || (!unicode && u != 0x63)
}

/// An identity escape reads the unit at `pos`.
pub open spec fn identity_escape_at(units: Seq<u16>, pos: int, unicode: bool) -> bool {
    0 <= pos < units.len() && identity_allowed(units[pos], unicode)
}

/// `n` hexadecimal digits stand at `at`.
pub open spec fn hex_at(units: Seq<u16>, at: int, n: int) -> bool {
    0 <= at && at + n <= units.len() && all_hex(units.subrange(at, at + n))
}

/// A unicode property escape `p{...}` or `P{...}` with a non-empty name
/// starts at `pos`, in unicode mode.
pub open spec fn property_escape_at(units: Seq<u16>, pos: int, unicode: bool) -> bool {
    let k = pos + 2 + run_len(units, pos + 2, UnitClass::NotCloseBrace);
    &&& unicode
    &&& 0 <= pos && pos + 1 < units.len()
    &&& (units[pos] == 0x70 || units[pos] == 0x50)
    &&& units[pos + 1] == 0x7B
    &&& pos + 2 < k < units.len()
}

/// Where the `}` of a braced escape `u{H...}` at `from` stands, if it is there.
pub open spec fn braced_hex_end(units: Seq<u16>, from: int) -> Option<int> {
    let d = run_len(units, from + 2, UnitClass::Hex);
    let i = from + 2 + d;
    if 0 <= from && from + 1 < units.len() && units[from + 1] == 0x7B && d > 0 && i < units.len()
        && units[i] == 0x7D {
        Some(i)
    } else {
        None
    }
}

/// The value a braced escape at `from` reads, NUL when it overflows 32 bits.
pub open spec fn braced_hex_value(units: Seq<u16>, from: int, end: int) -> int {
    let v = digits_value(units.subrange(from + 2, end), 16);
    if v <= u32::MAX {
        v
    } else {
        0
    }
}

/// The `u` escape at `from` is refused: braced, in unicode mode, and beyond
/// the last code point.
pub open spec fn unicode_escape_error(units: Seq<u16>, from: int, unicode: bool) -> bool {
    &&& !hex_at(units, from + 1, 4)
    &&& unicode
    &&& braced_hex_end(units, from) matches Some(end) && braced_hex_value(units, from, end) > 0x10FFFF
}

/// No `u` escape is at `from`: neither four digits nor, in unicode mode, a
/// braced form.
pub open spec fn unicode_escape_missing(units: Seq<u16>, from: int, unicode: bool) -> bool {
    !hex_at(units, from + 1, 4) && !(unicode && braced_hex_end(units, from) is Some)
}

/// The character escape after a backslash at `pos` is refused.
pub open spec fn character_escape_error(units: Seq<u16>, pos: int, unicode: bool) -> bool {
    0 <= pos < units.len() && units[pos] == 0x75 && unicode_escape_error(units, pos, unicode)
}

/// No character escape follows a backslash at `pos`.
pub open spec fn character_escape_missing(units: Seq<u16>, pos: int, unicode: bool) -> bool {
    if !(0 <= pos < units.len()) {
        true
    } else {
        let c = units[pos];
        if c == 0x74 || c == 0x6E || c == 0x76 || c == 0x66 || c == 0x72 {
            false
        } else if c == 0x63 {
            !(pos + 1 < units.len() && is_ascii_letter(units[pos + 1]))
        } else if c == 0x78 {
            !hex_at(units, pos + 1, 2) && !identity_allowed(c, unicode)
        } else if c == 0x75 {
            unicode_escape_missing(units, pos, unicode) && !identity_allowed(c, unicode)
        } else {
            !identity_allowed(c, unicode)
        }
    }
}

/// `x`, or `usize::MAX` when it is larger.
pub open spec fn sat_usize(x: int) -> int {
    if x <= usize::MAX {
        x
    } else {
        usize::MAX as int
    }
}

/// The decimal escape at `pos` is refused: a nonzero digit run that names no
/// closed group (or stands in a class) in the second unicode pass.
pub open spec fn decimal_escape_error(
    units: Seq<u16>,
    pos: int,
    unicode: bool,
    inside_class: bool,
    counter: int,
    first_iteration: bool,
) -> bool {
    let d = run_len(units, pos, UnitClass::Decimal);
    &&& 0 <= pos < units.len() && 0x31 <= units[pos] <= 0x39
    &&& unicode && !first_iteration
    &&& (inside_class || sat_usize(digits_value(units.subrange(pos, pos + d), 10)) > counter)
}

/// One of the class escapes `d D w W s S`.
pub open spec fn is_class_escape_letter(c: u16) -> bool {
    c == 0x64 || c == 0x44 || c == 0x77 || c == 0x57 || c == 0x73 || c == 0x53
}

/// The escape after a backslash at `pos` is refused.
pub open spec fn atom_escape_error(
    units: Seq<u16>,
    pos: int,
    inside_class: bool,
    unicode: bool,
    counter: int,
    first_iteration: bool,
) -> bool {
    &&& 0 <= pos < units.len()
    &&& {
        let c = units[pos];
        if spec_is_ascii_digit(c) {
            decimal_escape_error(units, pos, unicode, inside_class, counter, first_iteration)
        } else if c == 0x42 {
            inside_class
        } else if c == 0x62 || is_class_escape_letter(c) || c == 0x70 || c == 0x50 || (c == 0x2D
            && inside_class && unicode) {
            false
        } else {
            character_escape_error(units, pos, unicode)
        }
    }
}

/// No escape follows a backslash at `pos`.
pub open spec fn atom_escape_missing(units: Seq<u16>, pos: int, inside_class: bool, unicode: bool) -> bool {
    if !(0 <= pos < units.len()) {
        true
    } else {
        let c = units[pos];
        if spec_is_ascii_digit(c) {
            false
        } else if c == 0x42 || c == 0x62 {
            !inside_class && !identity_allowed(c, unicode)
        } else if is_class_escape_letter(c) {
            false
        } else if c == 0x70 || c == 0x50 {
            !property_escape_at(units, pos, unicode) && !identity_allowed(c, unicode)
        } else if c == 0x2D && inside_class && unicode {
            false
        } else {
            character_escape_missing(units, pos, unicode)
        }
    }
}

/// A class atom other than `-` at `pos` is refused: the input ends, `]` or
/// `-` stands there, or a backslash starts an escape that is refused or
/// missing (but for the `\\c` that non-unicode mode reads as a backslash).
pub open spec fn class_atom_no_dash_fails(
    units: Seq<u16>,
    pos: int,
    unicode: bool,
    counter: int,
    first_iteration: bool,
) -> bool {
    ||| !(0 <= pos < units.len())
    ||| units[pos] == 0x5D
    ||| units[pos] == 0x2D
    ||| (units[pos] == 0x5C && {
        ||| atom_escape_error(units, pos + 1, true, unicode, counter, first_iteration)
        ||| (atom_escape_missing(units, pos + 1, true, unicode) && !(!unicode && pos + 1 < units.len()
            && units[pos + 1] == 0x63))
    })
}

/// A class atom at `pos` is refused: it is not a `-` and
/// [`class_atom_no_dash_fails`] holds.
pub open spec fn class_atom_fails(units: Seq<u16>, pos: int, unicode: bool, counter: int, first_iteration: bool) -> bool {
    !(0 <= pos < units.len() && units[pos] == 0x2D) && class_atom_no_dash_fails(
        units,
        pos,
        unicode,
        counter,
        first_iteration,
    )
}

/// Where the units that stand for themselves in a class end, from `pos`.
pub open spec fn class_stop(units: Seq<u16>, pos: int) -> int {
    pos + run_len(units, pos, UnitClass::ClassPlain)
}

/// From `pos` on a class holds only units that stand for themselves and is
/// closed by `]`.
pub open spec fn class_closes(units: Seq<u16>, pos: int) -> bool {
    class_stop(units, pos) < units.len() && units[class_stop(units, pos)] == 0x5D
}

/// Where a class opened at `pos` has its contents: after `[` or `[^`.
pub open spec fn class_body_start(units: Seq<u16>, pos: int) -> int {
    if pos + 1 < units.len() && units[pos + 1] == 0x5E {
        pos + 2
    } else {
        pos + 1
    }
}

/// From `pos` on the input is plain up to a `)`.
pub open spec fn plain_closes(units: Seq<u16>, pos: int) -> bool {
    let k = pos + run_len(units, pos, UnitClass::Plain);
    k < units.len() && units[k] == 0x29
}

/// A lookahead opener `(?=` or `(?!` stands at `pos`.
pub open spec fn lookahead_opener_at(units: Seq<u16>, pos: int) -> bool {
    &&& 0 <= pos && pos + 3 <= units.len()
    &&& units[pos] == 0x28 && units[pos + 1] == 0x3F
    &&& (units[pos + 2] == 0x3D || units[pos + 2] == 0x21)
}

/// A lookbehind opener `(?<=` or `(?<!` stands at `pos`.
pub open spec fn lookbehind_opener_at(units: Seq<u16>, pos: int) -> bool {
    &&& 0 <= pos && pos + 4 <= units.len()
    &&& units[pos] == 0x28 && units[pos + 1] == 0x3F && units[pos + 2] == 0x3C
    &&& (units[pos + 3] == 0x3D || units[pos + 3] == 0x21)
}

/// Just past the `)` of a group of plain units whose opener of `n` units
/// stands at `pos`.
pub open spec fn plain_group_end(units: Seq<u16>, pos: int, n: int) -> int {
    pos + n + run_len(units, pos + n, UnitClass::Plain) + 1
}

/// A group of plain units with an opener of `n` units at `pos` closes and
/// a quantifier symbol follows it.
pub open spec fn quantified_plain_group(units: Seq<u16>, pos: int, n: int) -> bool {
    &&& plain_closes(units, pos + n)
    &&& plain_group_end(units, pos, n) < units.len()
    &&& is_quantifier_symbol(units[plain_group_end(units, pos, n)])
}

/// The error a term at `pos` is refused with, as its first units show: a
/// quantifier symbol with no atom before it; a quantified lookbehind; and,
/// in unicode mode, a quantified lookahead.
pub open spec fn leading_term_error(units: Seq<u16>, pos: int, unicode: bool) -> Option<Seq<char>> {
    if 0 <= pos < units.len() && is_quantifier_symbol(units[pos]) {
        Some("Expected atom"@)
    } else if lookbehind_opener_at(units, pos) && quantified_plain_group(units, pos, 4) {
        Some("Invalid quantifier"@)
    } else if unicode && lookahead_opener_at(units, pos) && quantified_plain_group(units, pos, 3) {
        Some("Expected atom"@)
    } else {
        None
    }
}

/// One of `^ $ \\b \\B` stands at `pos`.
pub open spec fn simple_anchor_at(units: Seq<u16>, pos: int) -> bool {
    &&& 0 <= pos < units.len()
    &&& {
        ||| units[pos] == 0x5E
        ||| units[pos] == 0x24
        ||| (units[pos] == 0x5C && pos + 1 < units.len() && (units[pos + 1] == 0x62 || units[pos + 1] == 0x42))
    }
}

/// A unit of a pattern made of plain units, `.`, the class escapes
/// `\d \D \w \W \s \S`, anchors `^ $`, choices, groups and the quantifiers
/// `* + ? {n} {n,} {n,m}`: a plain unit or one of `( ) | ^ $ . * + ? \ { }`.
pub open spec fn is_simple_unit(u: u16) -> bool {
    ||| is_plain_unit(u)
    ||| u == 0x28 || u == 0x29 || u == 0x7C
    ||| u == 0x5E || u == 0x24 || u == 0x2E
    ||| is_quantifier_symbol(u)
    ||| u == 0x5C
    ||| u == 0x7B || u == 0x7D
}

/// Every backslash starts a class escape `\d \D \w \W \s \S`.
pub open spec fn escapes_placed(units: Seq<u16>) -> bool {
    forall|i: int| 0 <= i < units.len() && #[trigger] units[i] == 0x5C ==> i + 1 < units.len() && is_class_escape_letter(units[i + 1])
}

/// One of `* + ?`.
pub open spec fn is_quantifier_symbol(u: u16) -> bool {
    u == 0x2A || u == 0x2B || u == 0x3F
}

/// A unit that can end an atom of such a pattern: a plain unit, `)` or `.`.
pub open spec fn ends_atom(u: u16) -> bool {
    is_plain_unit(u) || u == 0x29 || u == 0x2E
}

/// The quantifier symbol at `i` follows an atom, or is the `?` that makes
/// the quantifier just before it lazy.
pub open spec fn symbol_follows_atom(units: Seq<u16>, i: int) -> bool {
    ||| (i >= 1 && ends_atom(units[i - 1]))
    ||| (units[i] == 0x3F && i >= 2 && is_quantifier_symbol(units[i - 1]) && ends_atom(units[i - 2]))
    ||| (units[i] == 0x3F && i >= 1 && units[i - 1] == 0x7D)
}

/// `p` lies inside a brace quantifier, after its `{`.
#[verifier::opaque]
pub open spec fn inside_brace(units: Seq<u16>, p: int) -> bool {
    exists|i: int|
        0 <= i < p && #[trigger] units[i] == 0x7B && (brace_quantifier_len(units, i) matches Some(k) && p < i + k)
}

/// Every `{` starts a brace quantifier that follows an atom, and every `}`
/// ends one.
#[verifier::opaque]
pub open spec fn braces_placed(units: Seq<u16>) -> bool {
    &&& forall|i: int| 0 <= i < units.len() && #[trigger] units[i] == 0x7B ==> {
        &&& brace_quantifier_len(units, i) is Some
        &&& i >= 1 && ends_atom(units[i - 1])
    }
    &&& forall|j: int| 0 <= j < units.len() && #[trigger] units[j] == 0x7D ==> inside_brace(units, j)
}

/// A brace quantifier is `{`, digits and commas, and `}`.
proof fn lemma_brace_span(units: Seq<u16>, i: int)
    requires
        0 <= i < units.len(),
        brace_quantifier_len(units, i) is Some,
    ensures
        units[i] == 0x7B,
        ({
            let k = brace_quantifier_len(units, i)->0;
            &&& k >= 3
            &&& i + k <= units.len()
            &&& units[i + k - 1] == 0x7D
            &&& forall|j: int| i < j < i + k - 1 ==> spec_is_ascii_digit(#[trigger] units[j]) || units[j] == 0x2C
        }),
{
    lemma_run_len_facts(units, i + 1, UnitClass::Decimal);
    let d1 = run_len(units, i + 1, UnitClass::Decimal);
    let m = i + 1 + d1;
    if m < units.len() && units[m] == 0x2C && !(m + 1 < units.len() && units[m + 1] == 0x7D) {
        lemma_run_len_facts(units, m + 1, UnitClass::Decimal);
    }
}

/// A unit that no brace quantifier holds before its end, such as `(` or a
/// letter, leaves the next position outside every brace quantifier, and so
/// does a `}`.
proof fn lemma_not_inside_after(units: Seq<u16>, p: int)
    requires
        1 <= p <= units.len(),
        units[p - 1] == 0x7D || !(units[p - 1] == 0x7B || spec_is_ascii_digit(units[p - 1]) || units[p - 1] == 0x2C),
    ensures
        !inside_brace(units, p),
{
    reveal(inside_brace);
    if inside_brace(units, p) {
        let i = choose|i: int|
            0 <= i < p && #[trigger] units[i] == 0x7B && (brace_quantifier_len(units, i) matches Some(k) && p < i + k);
        lemma_brace_span(units, i);
        if i < p - 1 {
            assert(i < p - 1 < i + brace_quantifier_len(units, i)->0 - 1);
        }
    }
}

/// Past a unit at a position outside every brace quantifier that is no `{`,
/// the next position is outside every brace quantifier too.
proof fn lemma_not_inside_next(units: Seq<u16>, p: int)
    requires
        0 <= p < units.len(),
        !inside_brace(units, p),
        units[p] != 0x7B,
    ensures
        !inside_brace(units, p + 1),
{
    reveal(inside_brace);
    if inside_brace(units, p + 1) {
        let i = choose|i: int|
            0 <= i < p + 1 && #[trigger] units[i] == 0x7B && (brace_quantifier_len(units, i) matches Some(k) && p + 1 < i + k);
        assert(i < p);
        assert(inside_brace(units, p));
    }
}

/// Reading past units that are none of `( ) |` leaves where a region ends
/// unchanged.
proof fn lemma_region_skip(units: Seq<u16>, p: int, q: int, d: nat, b: bool)
    requires
        0 <= p <= q <= units.len(),
        forall|j: int| p <= j < q ==> #[trigger] units[j] != 0x28 && units[j] != 0x29 && units[j] != 0x7C,
    ensures
        region_end(units, p, d, b) == region_end(units, q, d, b),
    decreases q - p,
{
    if p < q {
        lemma_region_skip(units, p + 1, q, d, b);
    }
}


/// Every quantifier symbol follows an atom or makes a quantifier lazy.
pub open spec fn quantifiers_placed(units: Seq<u16>) -> bool {
    forall|i: int| 0 <= i < units.len() && is_quantifier_symbol(#[trigger] units[i]) ==> symbol_follows_atom(units, i)
}

/// Where the text from `pos` on ends when read inside `depth` groups opened
/// before it: at the `)` that closes the group `pos` stands in, at the
/// first `|` outside every group opened since when `bar` holds, or at the
/// end of the input.
pub open spec fn region_end(units: Seq<u16>, pos: int, depth: nat, bar: bool) -> int
    decreases units.len() - pos,
{
    if pos < 0 || pos >= units.len() {
        units.len() as int
    } else if units[pos] == 0x29 {
        if depth == 0 {
            pos
        } else {
            region_end(units, pos + 1, (depth - 1) as nat, bar)
        }
    } else if units[pos] == 0x28 {
        region_end(units, pos + 1, depth + 1, bar)
    } else if units[pos] == 0x7C && depth == 0 && bar {
        pos
    } else {
        region_end(units, pos + 1, depth, bar)
    }
}

/// Every `(` at an offset in `lo..hi` is closed by a later `)`.
pub open spec fn closed_within(units: Seq<u16>, lo: int, hi: int) -> bool {
    forall|g: int| lo <= g < hi && 0 <= g < units.len() && #[trigger] units[g] == 0x28 ==> region_end(units, g + 1, 0, false) < units.len()
}

/// Every `(` is closed by a later `)`.
pub open spec fn groups_close(units: Seq<u16>) -> bool {
    closed_within(units, 0, units.len() as int)
}

/// Text made of plain units, `.`, class escapes, the anchors `^ $`,
/// choices `|`, `(`, `)`, and quantifiers `* + ?` and `{n} {n,} {n,m}` (each
/// lazy or not) that follow an atom.
pub open spec fn simple_units(units: Seq<u16>) -> bool {
    &&& forall|i: int| 0 <= i < units.len() ==> is_simple_unit(#[trigger] units[i])
    &&& quantifiers_placed(units)
    &&& escapes_placed(units)
    &&& braces_placed(units)
}

/// Simple units in which a `(` before the first `)` that closes no group
/// never closes, and no brace quantifier there has bad bounds.
pub open spec fn unclosed_group_text(units: Seq<u16>) -> bool {
    &&& simple_units(units)
    &&& !closed_within(units, 0, region_end(units, 0, 0, false))
    &&& first_bad_brace(units, 0, region_end(units, 0, 0, false)) == region_end(units, 0, 0, false)
}

/// Simple units with a brace quantifier whose bounds are out of order or
/// out of range before the first `)` that closes no group.
pub open spec fn bad_brace_text(units: Seq<u16>) -> bool {
    simple_units(units) && first_bad_brace(units, 0, region_end(units, 0, 0, false)) < region_end(units, 0, 0, false)
}

/// Simple units with a `)` that closes no group, every `(` and every brace
/// quantifier before it well formed.
pub open spec fn stray_close_text(units: Seq<u16>) -> bool {
    &&& simple_units(units)
    &&& closed_within(units, 0, region_end(units, 0, 0, false))
    &&& region_end(units, 0, 0, false) < units.len()
    &&& first_bad_brace(units, 0, region_end(units, 0, 0, false)) == region_end(units, 0, 0, false)
}

/// A pattern of the simple kind: simple units in which every `(` closes,
/// every `)` closes a group and every brace quantifier has its bounds in
/// order and within the safe integer range.
pub open spec fn simple_pattern(units: Seq<u16>) -> bool {
    &&& simple_units(units)
    &&& groups_close(units)
    &&& region_end(units, 0, 0, false) == units.len()
    &&& no_bad_within(units, 0, units.len() as int)
}

/// No backslash of the input is followed by a decimal digit.
pub open spec fn no_digit_escape(units: Seq<u16>) -> bool {
    forall|i: int| 0 <= i < units.len() && #[trigger] units[i] == 0x5C ==> i + 1 < units.len() && !spec_is_ascii_digit(units[i + 1])
}

/// A region ends between where it starts and the end of the input, and
/// where it ends before the end there stands a `)`, or a `|` when `bar`.
proof fn lemma_region_end_bounds(units: Seq<u16>, pos: int, depth: nat, bar: bool)
    requires
        0 <= pos <= units.len(),
    ensures
        pos <= region_end(units, pos, depth, bar) <= units.len(),
        region_end(units, pos, depth, bar) < units.len() ==> {
            ||| units[region_end(units, pos, depth, bar)] == 0x29
            ||| (bar && units[region_end(units, pos, depth, bar)] == 0x7C)
        },
    decreases units.len() - pos,
{
    if pos < units.len() {
        if units[pos] == 0x29 {
            if depth > 0 {
                lemma_region_end_bounds(units, pos + 1, (depth - 1) as nat, bar);
            }
        } else if units[pos] == 0x28 {
            lemma_region_end_bounds(units, pos + 1, depth + 1, bar);
        } else if !(units[pos] == 0x7C && depth == 0 && bar) {
            lemma_region_end_bounds(units, pos + 1, depth, bar);
        }
    }
}

/// Reading past a group that closes at `region_end(units, pos, k, false)`
/// takes the reader out of it: the rest is read one level shallower.
proof fn lemma_region_nest(units: Seq<u16>, pos: int, k: nat, d: nat, bar: bool)
    requires
        0 <= pos,
        region_end(units, pos, k, false) < units.len(),
    ensures
        region_end(units, pos, k + d + 1, bar) == region_end(units, region_end(units, pos, k, false) + 1, d, bar),
    decreases units.len() - pos,
{
    if pos < units.len() {
        if units[pos] == 0x29 {
            if k > 0 {
                lemma_region_nest(units, pos + 1, (k - 1) as nat, d, bar);
                assert((k - 1) as nat + d + 1 == (k + d + 1 - 1) as nat);
            }
        } else if units[pos] == 0x28 {
            lemma_region_nest(units, pos + 1, k + 1, d, bar);
            assert(k + 1 + d + 1 == k + d + 1 + 1);
        } else {
            lemma_region_nest(units, pos + 1, k, d, bar);
        }
    }
}

/// Read without stopping at `|`, a region runs on past each `|` that
/// would have ended it.
proof fn lemma_region_bar(units: Seq<u16>, pos: int, depth: nat)
    requires
        0 <= pos,
    ensures
        region_end(units, pos, depth, false) == ({
            let a = region_end(units, pos, depth, true);
            if 0 <= a < units.len() && units[a] == 0x7C {
                region_end(units, a + 1, 0, false)
            } else {
                a
            }
        }),
    decreases units.len() - pos,
{
    if pos < units.len() {
        if units[pos] == 0x29 {
            if depth > 0 {
                lemma_region_bar(units, pos + 1, (depth - 1) as nat);
            }
        } else if units[pos] == 0x28 {
            lemma_region_bar(units, pos + 1, depth + 1);
        } else if units[pos] == 0x7C && depth == 0 {
        } else {
            lemma_region_bar(units, pos + 1, depth);
        }
    }
}

/// A region that runs to the end read at one depth runs to the end read
/// deeper too.
proof fn lemma_region_runs_deeper(units: Seq<u16>, pos: int, d: nat, k: nat)
    requires
        0 <= pos,
        region_end(units, pos, d, false) == units.len(),
    ensures
        region_end(units, pos, d + k, false) == units.len(),
    decreases units.len() - pos,
{
    if pos < units.len() {
        if units[pos] == 0x29 {
            if d > 0 {
                lemma_region_runs_deeper(units, pos + 1, (d - 1) as nat, k);
                assert((d - 1) as nat + k == (d + k - 1) as nat);
            }
        } else if units[pos] == 0x28 {
            lemma_region_runs_deeper(units, pos + 1, d + 1, k);
            assert(d + 1 + k == d + k + 1);
        } else {
            lemma_region_runs_deeper(units, pos + 1, d, k);
        }
    }
}

/// Inside a region that stops before the end, every `(` closes.
proof fn lemma_region_inside_closes(units: Seq<u16>, pos: int, k: nat)
    requires
        0 <= pos,
        region_end(units, pos, k, false) < units.len(),
    ensures
        closed_within(units, pos, region_end(units, pos, k, false)),
    decreases units.len() - pos,
{
    if pos < units.len() {
        if units[pos] == 0x29 {
            if k > 0 {
                lemma_region_inside_closes(units, pos + 1, (k - 1) as nat);
            }
        } else if units[pos] == 0x28 {
            lemma_region_inside_closes(units, pos + 1, k + 1);
            lemma_region_end_bounds(units, pos + 1, 0, false);
            if region_end(units, pos + 1, 0, false) == units.len() {
                lemma_region_runs_deeper(units, pos + 1, 0, k + 1);
                assert((0 + (k + 1)) as nat == k + 1);
            }
            let e = region_end(units, pos, k, false);
            assert forall|g: int| pos <= g < e && 0 <= g < units.len() && #[trigger] units[g] == 0x28 implies region_end(
                units,
                g + 1,
                0,
                false,
            ) < units.len() by {
                if g > pos {
                    assert(pos + 1 <= g < region_end(units, pos + 1, k + 1, false));
                }
            }
        } else {
            lemma_region_inside_closes(units, pos + 1, k);
            let e = region_end(units, pos, k, false);
            assert forall|g: int| pos <= g < e && 0 <= g < units.len() && #[trigger] units[g] == 0x28 implies region_end(
                units,
                g + 1,
                0,
                false,
            ) < units.len() by {
                if g > pos {
                    assert(pos + 1 <= g < region_end(units, pos + 1, k, false));
                }
            }
        }
    }
}

/// Two runs of text in which every `(` closes make one.
proof fn lemma_closed_join(units: Seq<u16>, a: int, b: int, c: int)
    requires
        closed_within(units, a, b),
        closed_within(units, b, c),
    ensures
        closed_within(units, a, c),
{
    assert forall|g: int| a <= g < c && 0 <= g < units.len() && #[trigger] units[g] == 0x28 implies region_end(
        units,
        g + 1,
        0,
        false,
    ) < units.len() by {
        if g < b {
        } else {
        }
    }
}

/// A `{` at `i` starts a brace quantifier whose bounds are out of order or
/// outside the safe integer range.
pub open spec fn bad_brace(units: Seq<u16>, i: int) -> bool {
    &&& 0 <= i < units.len()
    &&& units[i] == 0x7B
    &&& brace_quantifier_len(units, i) is Some
    &&& brace_bounds_bad(units, i)
}

/// The first bad brace quantifier in `lo..hi`, or `hi` when there is none.
pub open spec fn first_bad_brace(units: Seq<u16>, lo: int, hi: int) -> int
    decreases hi - lo,
{
    if lo >= hi {
        hi
    } else if bad_brace(units, lo) {
        lo
    } else {
        first_bad_brace(units, lo + 1, hi)
    }
}

/// The message a bad brace quantifier at `i` is refused with.
pub open spec fn brace_message(units: Seq<u16>, i: int) -> Seq<char> {
    if brace_max(units, i) matches Some(m) && m < brace_min(units, i) {
        "numbers out of order in {} quantifier"@
    } else {
        "iterations outside JS safe integer range in quantifier"@
    }
}

/// No bad brace quantifier starts in `lo..hi`.
pub open spec fn no_bad_within(units: Seq<u16>, lo: int, hi: int) -> bool {
    forall|j: int| lo <= j < hi ==> !#[trigger] bad_brace(units, j)
}

/// With no bad brace in `lo..mid`, the first one in `lo..hi` is the first
/// one in `mid..hi`.
proof fn lemma_first_bad_past(units: Seq<u16>, lo: int, mid: int, hi: int)
    requires
        lo <= mid <= hi,
        no_bad_within(units, lo, mid),
    ensures
        first_bad_brace(units, lo, hi) == first_bad_brace(units, mid, hi),
{
    lemma_first_bad_brace(units, lo, mid);
    lemma_first_bad_brace_split(units, lo, mid, hi);
}

/// The first bad brace lies in the range, is bad, and none comes before it.
proof fn lemma_first_bad_brace(units: Seq<u16>, lo: int, hi: int)
    requires
        lo <= hi,
    ensures
        lo <= first_bad_brace(units, lo, hi) <= hi,
        first_bad_brace(units, lo, hi) < hi ==> bad_brace(units, first_bad_brace(units, lo, hi)),
        forall|j: int| lo <= j < first_bad_brace(units, lo, hi) ==> !#[trigger] bad_brace(units, j),
    decreases hi - lo,
{
    if lo < hi && !bad_brace(units, lo) {
        lemma_first_bad_brace(units, lo + 1, hi);
    }
}

/// Looking for the first bad brace in `lo..hi` through `mid`.
proof fn lemma_first_bad_brace_split(units: Seq<u16>, lo: int, mid: int, hi: int)
    requires
        lo <= mid <= hi,
    ensures
        first_bad_brace(units, lo, hi) == if first_bad_brace(units, lo, mid) < mid {
            first_bad_brace(units, lo, mid)
        } else {
            first_bad_brace(units, mid, hi)
        },
    decreases mid - lo,
{
    if lo < mid && !bad_brace(units, lo) {
        lemma_first_bad_brace_split(units, lo + 1, mid, hi);
    }
}

/// A region that runs to the end read at depth `d` without stopping at
/// `|` runs to the end read deeper, whether or not it stops at `|`.
proof fn lemma_region_runs_deeper_any(units: Seq<u16>, pos: int, d: nat, k: nat, bar: bool)
    requires
        0 <= pos,
        region_end(units, pos, d, false) == units.len(),
    ensures
        region_end(units, pos, d + k + 1, bar) == units.len(),
    decreases units.len() - pos,
{
    if pos < units.len() {
        if units[pos] == 0x29 {
            if d > 0 {
                lemma_region_runs_deeper_any(units, pos + 1, (d - 1) as nat, k, bar);
                assert((d - 1) as nat + k + 1 == (d + k + 1 - 1) as nat);
            }
        } else if units[pos] == 0x28 {
            lemma_region_runs_deeper_any(units, pos + 1, d + 1, k, bar);
            assert(d + 1 + k + 1 == d + k + 1 + 1);
        } else {
            lemma_region_runs_deeper_any(units, pos + 1, d, k, bar);
        }
    }
}

/// A region holding a `(` that never closes runs to the end.
proof fn lemma_unclosed_runs_to_end(units: Seq<u16>, lo: int, d: nat, bar: bool, g: int)
    requires
        0 <= lo <= g < region_end(units, lo, d, bar),
        g < units.len(),
        units[g] == 0x28,
        region_end(units, g + 1, 0, false) == units.len(),
    ensures
        region_end(units, lo, d, bar) == units.len(),
    decreases g - lo,
{
    if lo == g {
        lemma_region_runs_deeper_any(units, g + 1, 0, d, bar);
        assert(0 + d + 1 == d + 1);
    } else {
        if units[lo] == 0x29 {
            if d > 0 {
                lemma_unclosed_runs_to_end(units, lo + 1, (d - 1) as nat, bar, g);
            }
        } else if units[lo] == 0x28 {
            lemma_unclosed_runs_to_end(units, lo + 1, d + 1, bar, g);
        } else if !(units[lo] == 0x7C && d == 0 && bar) {
            lemma_unclosed_runs_to_end(units, lo + 1, d, bar, g);
        }
    }
}

/// Two runs without a bad brace quantifier make one.
proof fn lemma_no_bad_join(units: Seq<u16>, a: int, b: int, c: int)
    requires
        no_bad_within(units, a, b),
        no_bad_within(units, b, c),
    ensures
        no_bad_within(units, a, c),
{
    assert forall|j: int| a <= j < c implies !#[trigger] bad_brace(units, j) by {
        if j < b {
        } else {
        }
    }
}

/// Where a choice's region is searched one branch at a time: the first bad
/// brace of the whole region is that of the branch from `alt_start` if it
/// has one, else one after it; a `(` that never closes in the branch makes
/// the branch and the region run to the end.
proof fn lemma_branch_outcome(units: Seq<u16>, from: int, alt_start: int)
    requires
        0 <= from <= alt_start <= units.len(),
        no_bad_within(units, from, alt_start),
    ensures
        ({
            let a = region_end(units, alt_start, 0, true);
            let d = region_end(units, alt_start, 0, false);
            &&& alt_start <= a <= d <= units.len()
            &&& first_bad_brace(units, from, d) == if first_bad_brace(units, alt_start, a) < a {
                first_bad_brace(units, alt_start, a)
            } else {
                first_bad_brace(units, a, d)
            }
            &&& !closed_within(units, alt_start, a) ==> a == units.len() && d == units.len() && !closed_within(units, from, d)
            &&& first_bad_brace(units, alt_start, a) <= a
            &&& first_bad_brace(units, alt_start, a) == a ==> no_bad_within(units, alt_start, a)
        }),
{
    let a = region_end(units, alt_start, 0, true);
    let d = region_end(units, alt_start, 0, false);
    lemma_region_bar(units, alt_start, 0);
    lemma_region_end_bounds(units, alt_start, 0, true);
    lemma_region_end_bounds(units, alt_start, 0, false);
    if a < units.len() {
        lemma_region_end_bounds(units, a + 1, 0, false);
    }
    lemma_first_bad_past(units, from, alt_start, d);
    lemma_first_bad_brace_split(units, alt_start, a, d);
    lemma_first_bad_brace(units, alt_start, a);
    if !closed_within(units, alt_start, a) {
        let g = choose|g: int|
            alt_start <= g < a && 0 <= g < units.len() && #[trigger] units[g] == 0x28 && !(region_end(units, g + 1, 0, false)
                < units.len());
        lemma_region_end_bounds(units, g + 1, 0, false);
        lemma_unclosed_runs_to_end(units, alt_start, 0, true, g);
        assert(!(region_end(units, g + 1, 0, false) < units.len()));
    }
}

/// A term of a simple pattern can start at `p`: no quantifier symbol and no
/// `{` stands there, and `p` is outside every brace quantifier.
pub open spec fn term_start_at(units: Seq<u16>, p: int) -> bool {
    &&& !(p < units.len() && is_quantifier_symbol(units[p]))
    &&& !(0 <= p < units.len() && units[p] == 0x7B)
    &&& !inside_brace(units, p)
}

/// In simple units a `{` starts a well-formed brace quantifier after an
/// atom, and a `}` lies inside a brace quantifier.
proof fn lemma_brace_units(units: Seq<u16>, p: int)
    requires
        simple_units(units),
        0 <= p < units.len(),
    ensures
        units[p] == 0x7B ==> brace_quantifier_len(units, p) is Some && p >= 1 && ends_atom(
            units[p - 1],
        ),
        units[p] == 0x7D ==> inside_brace(units, p),
{
    reveal(braces_placed);
}

/// After a unit that ends no atom and is no `{`, no `{` follows and the
/// position is outside every brace quantifier.
proof fn lemma_brace_free_after(units: Seq<u16>, p: int)
    requires
        simple_units(units),
        1 <= p <= units.len(),
        !ends_atom(units[p - 1]),
        units[p - 1] != 0x7B,
    ensures
        !(p < units.len() && units[p] == 0x7B),
        !inside_brace(units, p),
{
    if p < units.len() {
        lemma_brace_units(units, p);
    }
    lemma_not_inside_after(units, p);
}

/// A term can start right after a `(` or a `|`.
proof fn lemma_term_start_after_opener(units: Seq<u16>, p: int)
    requires
        simple_units(units),
        1 <= p <= units.len(),
        units[p - 1] == 0x28 || units[p - 1] == 0x7C,
    ensures
        term_start_at(units, p),
{
    lemma_brace_free_after(units, p);
    if p < units.len() && is_quantifier_symbol(units[p]) {
        assert(symbol_follows_atom(units, p));
    }
}

/// A simple pattern's first term starts at 0.
proof fn lemma_term_start_zero(units: Seq<u16>)
    requires
        simple_units(units),
    ensures
        term_start_at(units, 0),
{
    reveal(inside_brace);
    if 0 < units.len() {
        lemma_brace_units(units, 0);
        if is_quantifier_symbol(units[0]) {
            assert(symbol_follows_atom(units, 0));
        }
    }
}

/// Past a brace quantifier, lazy or not, a simple pattern goes on in the
/// same region, with no `(` read, and a term can start there.
proof fn lemma_past_brace(units: Seq<u16>, q: int, r: int)
    requires
        simple_units(units),
        0 <= q < units.len(),
        units[q] == 0x7B,
        brace_quantifier_len(units, q) matches Some(k) && {
            &&& (q + k < units.len() && units[q + k] == 0x3F) ==> r == q + k + 1
            &&& !(q + k < units.len() && units[q + k] == 0x3F) ==> r == q + k
        },
    ensures
        region_end(units, r, 0, true) == region_end(units, q, 0, true),
        closed_within(units, q, r),
        term_start_at(units, r),
        !brace_bounds_bad(units, q) ==> no_bad_within(units, q, r),
{
    lemma_brace_span(units, q);
    let k = brace_quantifier_len(units, q)->0;
    assert forall|j: int| q <= j < r implies #[trigger] units[j] != 0x28 && units[j] != 0x29 && units[j] != 0x7C by {
        if q < j < q + k - 1 {
            assert(spec_is_ascii_digit(units[j]) || units[j] == 0x2C);
        }
    }
    lemma_region_skip(units, q, r, 0, true);
    lemma_brace_free_after(units, r);
    assert forall|j: int| q < j < r implies units[j] != 0x7B by {
        if j < q + k - 1 {
            assert(spec_is_ascii_digit(units[j]) || units[j] == 0x2C);
        }
    }
    if r < units.len() && is_quantifier_symbol(units[r]) {
        assert(symbol_follows_atom(units, r));
    }
}

/// Past a quantifier `* + ?`, lazy or not, a simple pattern goes on in the
/// same region, and not with another quantifier symbol.
proof fn lemma_past_quantifier(units: Seq<u16>, q: int, r: int)
    requires
        simple_units(units),
        0 <= q < units.len(),
        is_quantifier_symbol(units[q]),
        (q + 1 < units.len() && units[q + 1] == 0x3F) ==> r == q + 2,
        !(q + 1 < units.len() && units[q + 1] == 0x3F) ==> r == q + 1,
    ensures
        region_end(units, r, 0, true) == region_end(units, q, 0, true),
        !(r < units.len() && is_quantifier_symbol(units[r])),
        closed_within(units, q, r),
        term_start_at(units, r),
        no_bad_within(units, q, r),
{
    lemma_brace_free_after(units, r);
    assert(region_end(units, q, 0, true) == region_end(units, q + 1, 0, true));
    if r == q + 2 {
        assert(region_end(units, q + 1, 0, true) == region_end(units, q + 2, 0, true));
    }
    if r < units.len() && is_quantifier_symbol(units[r]) {
        assert(symbol_follows_atom(units, r));
    }
}

/// Past an anchor `^ $`, a simple pattern goes on in the same region, and
/// not with a quantifier symbol.
proof fn lemma_past_anchor(units: Seq<u16>, p: int)
    requires
        simple_units(units),
        0 <= p < units.len(),
        units[p] == 0x5E || units[p] == 0x24,
    ensures
        region_end(units, p + 1, 0, true) == region_end(units, p, 0, true),
        !(p + 1 < units.len() && is_quantifier_symbol(units[p + 1])),
        closed_within(units, p, p + 1),
        term_start_at(units, p + 1),
        no_bad_within(units, p, p + 1),
{
    lemma_brace_free_after(units, p + 1);
    if p + 1 < units.len() && is_quantifier_symbol(units[p + 1]) {
        assert(symbol_follows_atom(units, p + 1));
    }
}

/// No reference node occurs in the tree, looking through groups,
/// sequences, choices and quantifiers.
pub open spec fn no_references(n: Node) -> bool
    decreases n,
{
    match n.kind {
        NodeKind::Reference { match_index } => false,
        NodeKind::Alternative { body } => none_has_references(body@),
        NodeKind::Disjunction { body } => none_has_references(body@),
        NodeKind::Group { behavior, body } => none_has_references(body@),
        NodeKind::Quantifier { min, max, greedy, symbol, body } => no_references(*body),
        _ => true,
    }
}

/// No tree of the list holds a reference.
pub open spec fn none_has_references(s: Seq<RcNode>) -> bool
    decreases s,
{
    if s.len() == 0 {
        true
    } else {
        none_has_references(s.drop_last()) && no_references(*s.last())
    }
}

/// A well-formed tree over an input where no backslash is followed by a
/// digit holds no reference, since a reference is a backslash and digits.
pub proof fn lemma_tree_without_digit_escape_has_no_references(n: Node, units: Seq<u16>)
    requires
        node_wf(n, units),
        no_digit_escape(units),
    ensures
        no_references(n),
    decreases n,
{
    match n.kind {
        NodeKind::Reference { match_index } => {
            let t = units.subrange(n.range.0 as int, n.range.1 as int);
            assert(t[0] == units[n.range.0 as int]);
            assert(t[1] == units[n.range.0 + 1]);
            assert(t.drop_first()[0] == t[1]);
        },
        NodeKind::Alternative { body } => lemma_list_without_digit_escape_has_no_references(body@, units, n.range.0, n.range.1),
        NodeKind::Disjunction { body } => lemma_list_without_digit_escape_has_no_references(body@, units, n.range.0, n.range.1),
        NodeKind::Group { behavior, body } => lemma_list_without_digit_escape_has_no_references(
            body@,
            units,
            (n.range.0 + 1) as usize,
            (n.range.1 - 1) as usize,
        ),
        NodeKind::Quantifier { min, max, greedy, symbol, body } => lemma_tree_without_digit_escape_has_no_references(quantified(n), units),
        _ => {},
    }
}

/// A well-formed list over an input where no backslash is followed by a
/// digit holds no reference.
pub proof fn lemma_list_without_digit_escape_has_no_references(s: Seq<RcNode>, units: Seq<u16>, lo: usize, hi: usize)
    requires
        body_wf(s, units, lo, hi),
        no_digit_escape(units),
    ensures
        none_has_references(s),
    decreases s,
{
    if s.len() > 0 {
        lemma_tree_without_digit_escape_has_no_references(last_node(s), units);
        lemma_list_without_digit_escape_has_no_references(s.drop_last(), units, lo, s.last().range.0);
    }
}

struct Parser {
    units: Vec<u16>,
    pos: usize,
    unicode: bool,
    closed_capture_counter: usize,
    first_iteration: bool,
    should_reparse: bool,
    backref_denied: Vec<usize>,
    next_node_id: usize,
}

/// Parses `pattern` into a syntax tree. `unicode` selects unicode mode.
///
/// On success the tree is well formed over the UTF-16 units of `pattern`,
/// so every node's fields agree with the text it spans, and it ends at the
/// end of the input. In unicode mode a backslash and a nonzero digit either
/// name a group or make the parse fail: no character of the tree is read
/// from them. A pattern without any of `^ $ \\ . * + ? ( ) [ ] { } |` always
/// parses, and so does a pattern of the simple kind (see [`simple_pattern`]),
/// with a tree that spans the whole input. Of text made of simple units, one
/// with a `(` that never closes is refused for the missing `)`, and one with
/// a `)` that closes no group (every `(` before it closing) as not parsed to
/// its end.
pub fn parse(pattern: &str, unicode: bool) -> (res: Result<RcNode, ParseError>)
    ensures
        res matches Ok(root) ==> {
            &&& node_wf(*root, crate::text::utf16_of(pattern@))
            &&& root.range.1 == crate::text::utf16_of(pattern@).len()
            &&& unicode ==> no_decimal_characters(*root, crate::text::utf16_of(pattern@))
        },
        plain_from(crate::text::utf16_of(pattern@), 0) ==> (res matches Ok(root) && plain_shape(
            *root,
            crate::text::utf16_of(pattern@),
            0,
            crate::text::utf16_of(pattern@).len() as int,
            unicode,
        )),
        simple_pattern(crate::text::utf16_of(pattern@)) ==> (res matches Ok(root)
            && root.range == (0usize, crate::text::utf16_of(pattern@).len() as usize)),
        stray_close_text(crate::text::utf16_of(pattern@)) ==> (res matches Err(e)
            && e.0@ == "Could not parse entire input - got stuck"@),
        unclosed_group_text(crate::text::utf16_of(pattern@)) ==> (res matches Err(e) && e.0@ == "Expected )"@),
        leading_term_error(crate::text::utf16_of(pattern@), 0, unicode) matches Some(m) ==> (res matches Err(e)
            && e.0@ == m),
        bad_brace_text(crate::text::utf16_of(pattern@)) ==> (res matches Err(e) && e.0@ == brace_message(
            crate::text::utf16_of(pattern@),
            first_bad_brace(crate::text::utf16_of(pattern@), 0, region_end(crate::text::utf16_of(pattern@), 0, 0, false)),
        )),
{
    let units: Vec<u16> = encode_utf16(pattern);
    let mut parser = Parser {
        units,
        pos: 0,
        unicode,
        closed_capture_counter: 0,
        first_iteration: true,
        should_reparse: false,
        backref_denied: Vec::new(),
        next_node_id: 0,
    };

    proof {
        let u = parser.units@;
        if plain_from(u, 0) {
            assert forall|j: int| 0 <= j < u.len() implies in_unit_class(#[trigger] u[j], UnitClass::Plain) by {
                assert(is_plain_unit(u[j]));
            }
            lemma_run_len(u, 0, u.len() as int, UnitClass::Plain);
        }
        if simple_units(u) {
            lemma_term_start_zero(u);
            let d = region_end(u, 0, 0, false);
            lemma_region_end_bounds(u, 0, 0, false);
            if no_bad_within(u, 0, u.len() as int) {
                assert(no_bad_within(u, 0, d));
                lemma_first_bad_past(u, 0, d, d);
            }
        }
    }
    let result = match parser.parse_disjunction() {
        Ok(n) => n,
        Err(e) => return Err(e),
    };
    if result.range.1 != parser.units.len() {
        return Err(ParseError("Could not parse entire input - got stuck".to_string()));
    }

    let counter = parser.closed_capture_counter;
    let mut reparse = parser.should_reparse;
    let mut i: usize = 0;
    while i < parser.backref_denied.len()
        invariant
            i <= parser.backref_denied.len(),
            parser.should_reparse ==> reparse,
        decreases parser.backref_denied.len() - i,
    {
        if parser.backref_denied[i] <= counter {
            reparse = true;
        }
        i += 1;
    }
    if reparse {
        parser.pos = 0;
        parser.first_iteration = false;
        let second = parser.parse_disjunction()?;
        if second.range.1 != parser.units.len() {
            return Err(ParseError("Could not parse entire input - got stuck".to_string()));
        }
        return Ok(second);
    }
    Ok(result)
}

impl Parser {
    spec fn inv(&self) -> bool {
        &&& self.pos <= self.units.len()
        &&& self.first_iteration ==> self.closed_capture_counter <= self.pos
    }

    /// The fields a parse step never changes.
    spec fn same_setup(&self, other: &Self) -> bool {
        &&& self.units@ == other.units@
        &&& self.unicode == other.unicode
        &&& self.first_iteration == other.first_iteration
    }

    /// A leaf step: the setup and the capture counter are unchanged, the
    /// position never moves back and a requested second pass stays requested.
    spec fn leaf_step(&self, old: &Self) -> bool {
        &&& self.inv()
        &&& self.same_setup(old)
        &&& self.closed_capture_counter == old.closed_capture_counter
        &&& old.pos <= self.pos
        &&& old.should_reparse ==> self.should_reparse
    }

    /// A nested step: the setup is unchanged, the position never moves back
    /// and a requested second pass stays requested.
    spec fn nested_step(&self, old: &Self) -> bool {
        &&& self.inv()
        &&& self.same_setup(old)
        &&& old.pos <= self.pos
        &&& old.should_reparse ==> self.should_reparse
    }

    /// Unicode mode, where no decimal character can have been read unnoticed:
    /// a second pass refuses them and a first pass asks for a second one.
    spec fn strict(&self) -> bool {
        self.unicode && (!self.first_iteration || !self.should_reparse)
    }

    /// In strict mode, `n` holds no decimal character.
    spec fn clean(&self, n: Node) -> bool {
        self.strict() ==> no_decimal_characters(n, self.units@)
    }

    /// In strict mode, no tree of `s` holds a decimal character.
    spec fn clean_all(&self, s: Seq<RcNode>) -> bool {
        self.strict() ==> none_has_decimal_characters(s, self.units@)
    }

    /// The term at the current position is refused, as its first units show.
    spec fn term_refused(&self) -> bool {
        leading_term_error(self.units@, self.pos as int, self.unicode) is Some
    }

    /// The message the term at the current position is refused with.
    spec fn term_error(&self) -> Seq<char> {
        leading_term_error(self.units@, self.pos as int, self.unicode).unwrap()
    }

    /// The input is made of simple units.
    spec fn simple(&self) -> bool {
        simple_units(self.units@)
    }

    /// The first bad brace quantifier of the region from the current
    /// position (up to a top-level `|` when `bar`).
    spec fn region_first_bad(&self, bar: bool) -> int {
        first_bad_brace(self.units@, self.pos as int, region_end(self.units@, self.pos as int, 0, bar))
    }

    /// The region from the current position has a bad brace quantifier.
    spec fn region_bad(&self, bar: bool) -> bool {
        self.region_first_bad(bar) < region_end(self.units@, self.pos as int, 0, bar)
    }

    /// The region has no bad brace quantifier and every `(` in it closes.
    spec fn region_ok(&self, bar: bool) -> bool {
        &&& !self.region_bad(bar)
        &&& closed_within(self.units@, self.pos as int, region_end(self.units@, self.pos as int, 0, bar))
    }

    /// The region has no bad brace quantifier and a `(` in it never closes.
    spec fn region_unclosed(&self, bar: bool) -> bool {
        &&& !self.region_bad(bar)
        &&& !closed_within(self.units@, self.pos as int, region_end(self.units@, self.pos as int, 0, bar))
    }

    /// Where the group opened by a `(` at the current position closes.
    spec fn group_end(&self) -> int {
        region_end(self.units@, self.pos + 1, 0, false)
    }

    /// A `(` at the current position opens a group with a bad brace
    /// quantifier inside.
    spec fn group_bad(&self) -> bool {
        &&& self.pos < self.units@.len()
        &&& self.units@[self.pos as int] == 0x28
        &&& first_bad_brace(self.units@, self.pos + 1, self.group_end()) < self.group_end()
    }

    /// A `(` that no later `)` closes stands at the current position.
    spec fn opens_unclosed(&self) -> bool {
        &&& self.pos < self.units@.len()
        &&& self.units@[self.pos as int] == 0x28
        &&& region_end(self.units@, self.pos + 1, 0, false) == self.units@.len()
    }

    /// No quantifier symbol stands at the current position.
    spec fn at_term_start(&self) -> bool {
        term_start_at(self.units@, self.pos as int)
    }

    /// Where the plain units from the current position end.
    spec fn plain_stop(&self) -> int {
        self.pos + run_len(self.units@, self.pos as int, UnitClass::Plain)
    }

    /// The input is plain from here up to its end or to a `)`.
    spec fn rest_plain(&self) -> bool {
        self.plain_stop() == self.units@.len() || self.units@[self.plain_stop()] == 0x29
    }

    /// No second pass was asked for and no reference was refused since `old`.
    spec fn untouched(&self, old: &Self) -> bool {
        &&& self.should_reparse == old.should_reparse
        &&& self.backref_denied@ == old.backref_denied@
    }

    /// `n` is well formed, lies inside what was consumed and is clean.
    spec fn produced(&self, old: &Self, n: Node) -> bool {
        &&& node_wf(n, self.units@)
        &&& old.pos <= n.range.0
        &&& n.range.1 <= self.pos
        &&& self.clean(n)
    }

    fn raw(&self, from: usize, to: usize) -> (res: String)
        requires
            from <= to <= self.units@.len(),
        ensures
            res@ == slice_text(self.units@, (from, to)),
    {
        decode_utf16_lossy(self.units.as_slice(), from, to)
    }

    fn node(&mut self, range: (usize, usize), kind: NodeKind) -> (res: RcNode)
        requires
            range.0 <= range.1 <= old(self).units@.len(),
        ensures
            res.range == range,
            res.kind == kind,
            res.raw@ == slice_text(final(self).units@, range),
            final(self).units == old(self).units,
            final(self).pos == old(self).pos,
            final(self).unicode == old(self).unicode,
            final(self).first_iteration == old(self).first_iteration,
            final(self).closed_capture_counter == old(self).closed_capture_counter,
            final(self).should_reparse == old(self).should_reparse,
            final(self).backref_denied@ == old(self).backref_denied@,
    {
        let id = self.next_node_id;
        self.next_node_id = self.next_node_id.wrapping_add(1);
        let raw = self.raw(range.0, range.1);
        Rc::new(Node { id, raw, range, kind })
    }

    fn unit(&self, at: usize) -> (res: Option<u16>)
        ensures
            res == if at < self.units@.len() { Some(self.units@[at as int]) } else { None::<u16> },
    {
        if at < self.units.len() {
            Some(self.units[at])
        } else {
            None
        }
    }

    fn current(&self) -> (res: Option<u16>)
        ensures
            res == if self.pos < self.units@.len() { Some(self.units@[self.pos as int]) } else { None::<u16> },
    {
        self.unit(self.pos)
    }

    fn next_unit(&self) -> (res: Option<u16>)
        requires
            self.pos <= self.units@.len(),
        ensures
            res == if self.pos + 1 < self.units@.len() { Some(self.units@[self.pos + 1]) } else { None::<u16> },
    {
        if self.pos < self.units.len() {
            self.unit(self.pos + 1)
        } else {
            None
        }
    }

    /// `true` when `value` occurs in the input at the current position.
    fn matches_here(&self, value: &[u16]) -> (res: bool)
        requires
            self.pos <= self.units.len(),
        ensures
            res == (self.pos + value@.len() <= self.units@.len()
                && self.units@.subrange(self.pos as int, self.pos + value@.len()) == value@),
    {
        if value.len() > self.units.len() - self.pos {
            return false;
        }
        let mut i: usize = 0;
        while i < value.len()
            invariant
                self.pos + value@.len() <= self.units.len(),
                i <= value@.len(),
                forall|j: int| 0 <= j < i ==> self.units@[self.pos + j] == value@[j],
            decreases value.len() - i,
        {
            if self.units[self.pos + i] != value[i] {
                assert(self.units@.subrange(self.pos as int, self.pos + value@.len())[i as int] != value@[i as int]);
                return false;
            }
            i += 1;
        }
        assert(self.units@.subrange(self.pos as int, self.pos + value@.len()) =~= value@);
        true
    }

    fn match_str(&mut self, value: &[u16]) -> (res: bool)
        requires
            old(self).inv(),
        ensures
            final(self).leaf_step(old(self)),
            res == (old(self).pos + value@.len() <= old(self).units@.len()
                && old(self).units@.subrange(old(self).pos as int, old(self).pos + value@.len()) == value@),
            res ==> final(self).pos == old(self).pos + value@.len(),
            !res ==> final(self).pos == old(self).pos,
            final(self).untouched(old(self)),
    {
        if self.matches_here(value) {
            self.pos = self.pos + value.len();
            true
        } else {
            false
        }
    }

    fn current_one(&self, ch: u16) -> (res: bool)
        ensures
            res == (self.pos < self.units@.len() && self.units@[self.pos as int] == ch),
    {
        self.current() == Some(ch)
    }

    fn match_one(&mut self, ch: u16) -> (res: bool)
        requires
            old(self).inv(),
        ensures
            final(self).leaf_step(old(self)),
            res == (old(self).pos < old(self).units@.len() && old(self).units@[old(self).pos as int] == ch),
            res ==> final(self).pos == old(self).pos + 1,
            !res ==> final(self).pos == old(self).pos,
            final(self).untouched(old(self)),
    {
        if self.current_one(ch) {
            self.pos += 1;
            true
        } else {
            false
        }
    }

    #[verifier::rlimit(40)]
    #[verifier::spinoff_prover]
    fn parse_disjunction(&mut self) -> (res: Result<RcNode, ParseError>)
        requires
            old(self).inv(),
        ensures
            final(self).nested_step(old(self)),
            res matches Ok(n) ==> final(self).produced(old(self), *n),
            old(self).rest_plain() ==> (res matches Ok(n) && n.range.1 == final(self).pos
                && final(self).pos == old(self).plain_stop() && final(self).untouched(old(self))),
            old(self).simple() && old(self).at_term_start() && old(self).region_ok(false) ==> (res matches Ok(n)
                && n.range == (old(self).pos, final(self).pos)
                && final(self).pos == region_end(old(self).units@, old(self).pos as int, 0, false)
                && final(self).untouched(old(self))),
            old(self).simple() && old(self).at_term_start() && old(self).region_bad(false) ==> (res matches Err(x)
                && x.0@ == brace_message(old(self).units@, old(self).region_first_bad(false))),
            old(self).simple() && old(self).at_term_start() && old(self).region_unclosed(false) ==> (res matches Err(x)
                && x.0@ == "Expected )"@),
            old(self).term_refused() ==> (res matches Err(x) && x.0@ == old(self).term_error()),
            old(self).rest_plain() ==> (res matches Ok(n) && plain_shape(
                *n,
                old(self).units@,
                old(self).pos as int,
                old(self).plain_stop(),
                old(self).unicode,
            )),
        decreases old(self).units@.len() - old(self).pos, 5nat,
    {
        let from = self.pos;
        let ghost d = region_end(self.units@, self.pos as int, 0, false);
        let ghost mut alt_start: int = from as int;
        proof {
            if self.simple() && self.at_term_start() {
                let u = self.units@;
                lemma_region_bar(u, from as int, 0);
                lemma_region_end_bounds(u, from as int, 0, true);
                let a = region_end(u, from as int, 0, true);
                if a < u.len() {
                    lemma_region_end_bounds(u, a + 1, 0, false);
                }
                lemma_branch_outcome(u, from as int, from as int);
            }
        }
        let first = match self.parse_alternative() {
            Ok(n) => n,
            Err(x) => return Err(x),
        };
        proof {
            if old(self).simple() && old(self).at_term_start() {
                let u = self.units@;
                assert(no_bad_within(u, from as int, self.pos as int));
            }
        }
        let mut res: Vec<RcNode> = Vec::new();
        res.push(Rc::clone(&first));
        proof {
            lemma_body_wf_single(first, self.units@, from, self.pos);
            assert(res@ == seq![first]);
            assert(Seq::<RcNode>::empty().push(first) == seq![first]);
            if self.strict() {
                lemma_none_has_push(Seq::empty(), first, self.units@);
            }
        }
        loop
            invariant
                self.nested_step(old(self)),
                from == old(self).pos,
                body_wf(res@, self.units@, from, self.pos),
                res@.len() >= 1,
                res@.len() == 1 ==> res@[0] == first,
                self.clean_all(res@),
                old(self).rest_plain() ==> res@.len() == 1 && first.range.1 == self.pos
                    && self.pos == old(self).plain_stop() && self.untouched(old(self)),
                d == region_end(old(self).units@, old(self).pos as int, 0, false),
                old(self).simple() && old(self).at_term_start() ==> self.untouched(old(self)) && 0 <= alt_start
                    && self.pos == region_end(self.units@, alt_start, 0, true)
                    && region_end(self.units@, alt_start, 0, false) == d && res@.last().range.1 == self.pos
                    && closed_within(self.units@, from as int, self.pos as int)
                    && no_bad_within(self.units@, from as int, self.pos as int),
                !old(self).term_refused(),
            ensures
                self.nested_step(old(self)),
                body_wf(res@, self.units@, from, self.pos),
                res@.len() >= 1,
                res@.len() == 1 ==> res@[0] == first,
                self.clean_all(res@),
                old(self).rest_plain() ==> res@.len() == 1 && first.range.1 == self.pos
                    && self.pos == old(self).plain_stop() && self.untouched(old(self)),
                old(self).simple() && old(self).at_term_start() ==> self.untouched(old(self)) && self.pos == d
                    && res@.last().range.1 == self.pos && closed_within(self.units@, from as int, self.pos as int)
                    && no_bad_within(self.units@, from as int, self.pos as int),
            decreases self.units@.len() - self.pos,
        {
            proof {
                if old(self).simple() && old(self).at_term_start() {
                    lemma_region_bar(self.units@, alt_start, 0);
                }
            }
            if !self.match_one('|' as u16) {
                break;
            }
            let before = self.pos;
            proof {
                alt_start = before as int;
                let u = self.units@;
                if old(self).simple() && before < u.len() && is_quantifier_symbol(u[before as int]) {
                    assert(u[before - 1] == 0x7C);
                    assert(symbol_follows_atom(u, before as int));
                }
                if old(self).simple() && old(self).at_term_start() {
                    lemma_region_bar(u, before as int, 0);
                    lemma_region_end_bounds(u, before as int, 0, true);
                    let a = region_end(u, before as int, 0, true);
                    if a < u.len() {
                        lemma_region_end_bounds(u, a + 1, 0, false);
                    }
                    assert(u[before - 1] == 0x7C);
                    lemma_term_start_after_opener(u, before as int);
                    assert(closed_within(u, before - 1, before as int));
                    lemma_closed_join(u, from as int, before - 1, before as int);
                    assert(no_bad_within(u, before - 1, before as int));
                    lemma_no_bad_join(u, from as int, before - 1, before as int);
                    lemma_branch_outcome(u, from as int, before as int);
                }
            }
            let alt = match self.parse_alternative() {
                Ok(n) => n,
                Err(x) => return Err(x),
            };
            proof {
                if old(self).simple() && old(self).at_term_start() {
                    lemma_closed_join(self.units@, from as int, before as int, self.pos as int);
                    lemma_no_bad_join(self.units@, from as int, before as int, self.pos as int);
                }
                lemma_body_wf_push(res@, self.units@, from, before, alt, self.pos);
                if self.strict() {
                    lemma_none_has_push(res@, alt, self.units@);
                }
            }
            res.push(alt);
        }
        proof {
            if old(self).simple() && old(self).at_term_start() {
                lemma_first_bad_past(self.units@, from as int, d, d);
            }
        }
        if res.len() == 1 {
            proof {
                assert(res@.last() == res@[0]);
            }
            return Ok(first);
        }
        let to = self.pos;
        Ok(self.node((from, to), NodeKind::Disjunction { body: res }))
    }

    #[verifier::rlimit(40)]
    #[verifier::spinoff_prover]
    fn parse_alternative(&mut self) -> (res: Result<RcNode, ParseError>)
        requires
            old(self).inv(),
        ensures
            final(self).nested_step(old(self)),
            res matches Ok(n) ==> final(self).produced(old(self), *n),
            old(self).rest_plain() ==> (res matches Ok(n) && n.range.1 == final(self).pos
                && final(self).pos == old(self).plain_stop() && final(self).untouched(old(self))),
            old(self).simple() && old(self).at_term_start() && old(self).region_ok(true) ==> (res matches Ok(n)
                && n.range == (old(self).pos, final(self).pos)
                && final(self).pos == region_end(old(self).units@, old(self).pos as int, 0, true)
                && final(self).untouched(old(self))),
            old(self).simple() && old(self).at_term_start() && old(self).region_bad(true) ==> (res matches Err(x)
                && x.0@ == brace_message(old(self).units@, old(self).region_first_bad(true))),
            old(self).simple() && old(self).at_term_start() && old(self).region_unclosed(true) ==> (res matches Err(x)
                && x.0@ == "Expected )"@),
            old(self).term_refused() ==> (res matches Err(x) && x.0@ == old(self).term_error()),
            old(self).rest_plain() ==> (res matches Ok(n) && plain_shape(
                *n,
                old(self).units@,
                old(self).pos as int,
                old(self).plain_stop(),
                old(self).unicode,
            )),
        decreases old(self).units@.len() - old(self).pos, 4nat,
    {
        let from = self.pos;
        let mut res: Vec<RcNode> = Vec::new();
        let ghost e = region_end(self.units@, self.pos as int, 0, true);
        proof {
            lemma_run_len_facts(self.units@, self.pos as int, UnitClass::Plain);
        }
        loop
            invariant
                self.nested_step(old(self)),
                from == old(self).pos,
                body_wf(res@, self.units@, from, self.pos),
                self.clean_all(res@),
                old(self).rest_plain() ==> self.rest_plain() && self.untouched(old(self))
                    && self.plain_stop() == old(self).plain_stop() && self.pos <= old(self).plain_stop()
                    && (res@.len() > 0 ==> res@.last().range.1 == self.pos),
                e == region_end(old(self).units@, old(self).pos as int, 0, true),
                old(self).simple() && old(self).at_term_start() ==> self.untouched(old(self)) && self.at_term_start()
                    && region_end(self.units@, self.pos as int, 0, true) == e
                    && (res@.len() > 0 ==> res@.last().range.1 == self.pos && res@[0].range.0 == from)
                    && (res@.len() == 0 ==> self.pos == from) && closed_within(self.units@, from as int, self.pos as int)
                    && no_bad_within(self.units@, from as int, self.pos as int),
                old(self).term_refused() ==> self.pos == from,
                old(self).rest_plain() ==> plain_term_ranges(old(self).units@, from as int, old(self).plain_stop(), old(self).unicode)
                    == ranges_of(res@) + plain_term_ranges(old(self).units@, self.pos as int, old(self).plain_stop(), old(self).unicode)
                    && forall|i: int| 0 <= i < res@.len() ==> (#[trigger] res@[i]).kind is Value,
            ensures
                !old(self).term_refused(),
                old(self).rest_plain() ==> plain_term_ranges(old(self).units@, from as int, old(self).plain_stop(), old(self).unicode)
                    == ranges_of(res@) && forall|i: int| 0 <= i < res@.len() ==> (#[trigger] res@[i]).kind is Value,
                self.nested_step(old(self)),
                body_wf(res@, self.units@, from, self.pos),
                self.clean_all(res@),
                old(self).rest_plain() ==> self.pos == old(self).plain_stop() && self.untouched(old(self))
                    && (res@.len() > 0 ==> res@.last().range.1 == self.pos),
                old(self).simple() && old(self).at_term_start() ==> self.pos == e && self.untouched(old(self))
                    && (res@.len() > 0 ==> res@.last().range.1 == self.pos && res@[0].range.0 == from)
                    && closed_within(self.units@, from as int, self.pos as int)
                    && no_bad_within(self.units@, from as int, self.pos as int),
            decreases self.units@.len() - self.pos,
        {
            proof {
                lemma_region_end_bounds(self.units@, self.pos as int, 0, true);
                if old(self).simple() && old(self).at_term_start() {
                    let u = self.units@;
                    lemma_first_bad_past(u, from as int, self.pos as int, e);
                    if self.pos < u.len() && u[self.pos as int] == 0x28 {
                        lemma_region_end_bounds(u, self.pos + 1, 1, true);
                    }
                }
            }
            let before = self.pos;
            let term_res = self.parse_term();
            match term_res {
                Err(x) => return Err(x),
                Ok(Some(term)) => {
                    proof {
                        if old(self).simple() && old(self).at_term_start() {
                            lemma_closed_join(self.units@, from as int, before as int, self.pos as int);
                            lemma_no_bad_join(self.units@, from as int, before as int, self.pos as int);
                        }
                        lemma_body_wf_push(res@, self.units@, from, before, term, self.pos);
                        if self.strict() {
                            lemma_none_has_push(res@, term, self.units@);
                        }
                        if old(self).rest_plain() {
                            let u = old(self).units@;
                            let stop = old(self).plain_stop();
                            let k = plain_term_len(u, before as int, old(self).unicode);
                            assert(plain_term_ranges(u, before as int, stop, old(self).unicode) == seq![(before as int, before + k)]
                                + plain_term_ranges(u, before + k, stop, old(self).unicode));
                            assert(ranges_of(res@.push(term)) =~= ranges_of(res@).push((before as int, before + k)));
                            assert(ranges_of(res@) + (seq![(before as int, before + k)] + plain_term_ranges(
                                u,
                                before + k,
                                stop,
                                old(self).unicode,
                            )) =~= ranges_of(res@).push((before as int, before + k)) + plain_term_ranges(
                                u,
                                before + k,
                                stop,
                                old(self).unicode,
                            ));
                        }
                    }
                    res.push(term);
                },
                Ok(None) => {
                    proof {
                        if old(self).rest_plain() {
                            let u = old(self).units@;
                            assert(ranges_of(res@) + plain_term_ranges(u, self.pos as int, old(self).plain_stop(), old(self).unicode)
                                =~= ranges_of(res@));
                        }
                    }
                    break;
                },
            }
        }
        proof {
            if old(self).simple() && old(self).at_term_start() {
                lemma_first_bad_past(self.units@, from as int, e, e);
            }
        }
        if res.len() == 1 {
            proof {
                lemma_body_wf_bounds(res@, self.units@, from, self.pos);
                assert(from <= res@[0].range.0);
                assert(res@.last() == res@[0]);
            }
            let only = res.pop().unwrap();
            proof {
                if old(self).rest_plain() {
                    assert(ranges_of(seq![only])[0] == (only.range.0 as int, only.range.1 as int));
                }
            }
            return Ok(only);
        }
        let to = self.pos;
        Ok(self.node((from, to), NodeKind::Alternative { body: res }))
    }

    /// Unwraps an alternative into its body, else wraps a node in a one-item
    /// vector.
    fn flatten_body(node: RcNode, Ghost(units): Ghost<Seq<u16>>) -> (res: Vec<RcNode>)
        requires
            node_wf(*node, units),
        ensures
            body_wf(res@, units, node.range.0, node.range.1),
            !(node.kind is Alternative) ==> res@ == seq![node],
            no_decimal_characters(*node, units) ==> none_has_decimal_characters(res@, units),
    {
        match &node.kind {
            NodeKind::Alternative { body } => {
                let mut out: Vec<RcNode> = Vec::new();
                let mut i: usize = 0;
                while i < body.len()
                    invariant
                        node.kind == (NodeKind::Alternative { body: *body }),
                        body_wf(body@, units, node.range.0, node.range.1),
                        i <= body@.len(),
                        out@ == body@.subrange(0, i as int),
                    decreases body.len() - i,
                {
                    out.push(Rc::clone(&body[i]));
                    i += 1;
                    proof {
                        assert(out@ =~= body@.subrange(0, i as int));
                    }
                }
                proof {
                    assert(out@ =~= body@);
                    assert(no_decimal_characters(*node, units) ==> none_has_decimal_characters(body@, units));
                }
                out
            },
            _ => {
                proof {
                    lemma_body_wf_single(node, units, node.range.0, node.range.1);
                    assert(seq![node].drop_last() =~= Seq::<RcNode>::empty());
                }
                let mut v: Vec<RcNode> = Vec::new();
                v.push(node);
                proof {
                    assert(v@.drop_last() =~= Seq::<RcNode>::empty());
                    assert(none_has_decimal_characters(Seq::<RcNode>::empty(), units));
                    assert(v@.last() == node);
                }
                v
            },
        }
    }

    #[verifier::rlimit(60)]
    #[verifier::spinoff_prover]
    fn parse_term(&mut self) -> (res: Result<Option<RcNode>, ParseError>)
        requires
            old(self).inv(),
        ensures
            final(self).nested_step(old(self)),
            res matches Ok(Some(n)) ==> final(self).produced(old(self), *n) && final(self).pos > old(self).pos,
            res matches Ok(None) ==> final(self).pos == old(self).pos,
            old(self).term_refused() ==> (res matches Err(x) && x.0@ == old(self).term_error()),
            old(self).rest_plain() ==> {
                &&& final(self).untouched(old(self))
                &&& old(self).pos < old(self).plain_stop() ==> (res matches Ok(Some(n)) && n.range.1 == final(self).pos
                    && n.kind is Value && n.range.0 == old(self).pos
                    && final(self).pos == old(self).pos + plain_term_len(old(self).units@, old(self).pos as int, old(self).unicode))
                &&& old(self).pos >= old(self).plain_stop() ==> (res matches Ok(None))
                &&& final(self).pos <= old(self).plain_stop()
                &&& final(self).plain_stop() == old(self).plain_stop()
            },
            old(self).simple() && old(self).at_term_start() && old(self).opens_unclosed() ==> {
                let e = region_end(old(self).units@, old(self).pos as int, 0, true);
                let f = first_bad_brace(old(self).units@, old(self).pos as int, e);
                res matches Err(x) && x.0@ == if f < e {
                    brace_message(old(self).units@, f)
                } else {
                    "Expected )"@
                }
            },
            old(self).simple() && old(self).at_term_start() && !old(self).opens_unclosed() ==> {
                let e = region_end(old(self).units@, old(self).pos as int, 0, true);
                let f = first_bad_brace(old(self).units@, old(self).pos as int, e);
                &&& res matches Err(x) ==> f < e && x.0@ == brace_message(old(self).units@, f)
                &&& f == e ==> res is Ok
                &&& res is Ok ==> final(self).untouched(old(self)) && final(self).at_term_start()
                &&& old(self).pos == e ==> (res matches Ok(None))
                &&& res matches Ok(None) ==> old(self).pos == e
                &&& res matches Ok(Some(n)) ==> n.range == (old(self).pos, final(self).pos)
                    && region_end(final(self).units@, final(self).pos as int, 0, true) == e
                    && closed_within(old(self).units@, old(self).pos as int, final(self).pos as int)
                    && no_bad_within(old(self).units@, old(self).pos as int, final(self).pos as int)
            },
        decreases old(self).units@.len() - old(self).pos, 3nat,
    {
        proof {
            lemma_run_len_facts(self.units@, self.pos as int, UnitClass::Plain);
            if self.simple() {
                let u = self.units@;
                let p = self.pos as int;
                if p < u.len() {
                    assert(is_simple_unit(u[p]));
                    lemma_region_end_bounds(u, p + 1, 0, true);
                    lemma_region_end_bounds(u, p + 1, 1, true);
                }
                if p + 1 < u.len() {
                    assert(is_simple_unit(u[p + 1]));
                }
            }
        }
        proof {
            if self.simple() && self.pos < self.units@.len() {
                lemma_brace_units(self.units@, self.pos as int);
            }
            if self.simple() && self.at_term_start() && self.pos < self.units@.len() && self.units@[self.pos as int] == 0x28 {
                let u = self.units@;
                let p = self.pos as int;
                let r = region_end(u, p + 1, 0, false);
                lemma_region_end_bounds(u, p + 1, 0, false);
                assert(first_bad_brace(u, p, region_end(u, p, 0, true)) == first_bad_brace(u, p + 1, region_end(u, p, 0, true)));
                if r < u.len() {
                    lemma_region_nest(u, p + 1, 0, 0, true);
                    lemma_region_end_bounds(u, r + 1, 0, true);
                    lemma_first_bad_brace_split(u, p + 1, r, region_end(u, p, 0, true));
                } else {
                    lemma_region_runs_deeper_any(u, p + 1, 0, 0, true);
                }
            }
        }
        if self.pos >= self.units.len() || self.current_one('|' as u16) || self.current_one(')' as u16) {
            return Ok(None);
        }

        let entry = self.pos;
        if let Some(anchor) = self.parse_anchor()? {
            let pos_backup = self.pos;
            proof {
                if self.simple() && old(self).pos < self.units@.len() && (self.units@[old(self).pos as int] == 0x5E
                    || self.units@[old(self).pos as int] == 0x24) {
                    lemma_past_anchor(self.units@, old(self).pos as int);
                }
            }
            if let Some(quantifier) = self.parse_quantifier()? {
                if !self.unicode {
                    if let NodeKind::Group { .. } = &anchor.kind {
                        let start = anchor.range.0;
                        let end = anchor.range.1;
                        let body = Self::flatten_body(anchor, Ghost(self.units@));
                        proof {
                            lemma_body_wf_widen(body@, self.units@, start, end, start, quantifier.range.0);
                        }
                        let rebuilt = self.rebuild_quantifier_with_body(quantifier, body, start);
                        return Ok(Some(rebuilt));
                    }
                }
                self.pos = pos_backup;
                return Err(ParseError("Expected atom".to_string()));
            }
            return Ok(Some(anchor));
        }

        let atom_res = self.parse_atom();
        let atom = match atom_res {
            Err(e) => return Err(e),
            Ok(Some(a)) => a,
            Ok(None) => {
                let pos_backup = self.pos;
                if self.parse_quantifier()?.is_some() {
                    self.pos = pos_backup;
                    return Err(ParseError("Expected atom".to_string()));
                }
                if !self.unicode && self.match_one('{' as u16) {
                    let p = self.pos;
                    self.create_character('{' as u32, p - 1, p)
                } else {
                    return Err(ParseError("Expected atom".to_string()));
                }
            },
        };

        proof {
            if self.simple() && self.pos < self.units@.len() {
                assert(is_simple_unit(self.units@[self.pos as int]));
                lemma_brace_units(self.units@, self.pos as int);
            }
            if old(self).simple() && old(self).at_term_start() && !old(self).opens_unclosed() && old(self).pos < region_end(
                old(self).units@,
                old(self).pos as int,
                0,
                true,
            ) {
                if self.pos == old(self).pos + 1 {
                    lemma_not_inside_next(self.units@, old(self).pos as int);
                } else {
                    lemma_not_inside_after(self.units@, self.pos as int);
                }
                let e = region_end(old(self).units@, old(self).pos as int, 0, true);
                lemma_region_end_bounds(self.units@, self.pos as int, 0, true);
                lemma_first_bad_past(self.units@, old(self).pos as int, self.pos as int, e);
            }
        }
        let ghost q_pos = self.pos as int;
        if let Some(quantifier) = self.parse_quantifier()? {
            if let NodeKind::Group { behavior, .. } = &atom.kind {
                if matches!(behavior, GroupBehavior::Lookbehind | GroupBehavior::NegativeLookbehind) {
                    return Err(ParseError("Invalid quantifier".to_string()));
                }
            }
            let start = atom.range.0;
            let end = atom.range.1;
            let body = Self::flatten_body(atom, Ghost(self.units@));
            proof {
                lemma_body_wf_widen(body@, self.units@, start, end, start, quantifier.range.0);
            }
            let rebuilt = self.rebuild_quantifier_with_body(quantifier, body, start);
            proof {
                if old(self).simple() && old(self).at_term_start() && q_pos < self.units@.len() {
                    if is_quantifier_symbol(self.units@[q_pos]) {
                        lemma_past_quantifier(self.units@, q_pos, self.pos as int);
                    } else {
                        lemma_brace_units(self.units@, q_pos);
                        lemma_past_brace(self.units@, q_pos, self.pos as int);
                    }
                    if !old(self).opens_unclosed() {
                        lemma_closed_join(self.units@, old(self).pos as int, q_pos, self.pos as int);
                        lemma_no_bad_join(self.units@, old(self).pos as int, q_pos, self.pos as int);
                    }
                }
            }
            return Ok(Some(rebuilt));
        }
        proof {
            if old(self).rest_plain() && old(self).pos < old(self).plain_stop() {
                lemma_run_same_end(self.units@, old(self).pos as int, self.pos as int, UnitClass::Plain);
            }
        }
        Ok(Some(atom))
    }

    fn rebuild_quantifier_with_body(&mut self, quantifier: RcNode, body: Vec<RcNode>, start: usize) -> (res: RcNode)
        requires
            old(self).inv(),
            quantifier_wf(*quantifier, old(self).units@),
            quantifier.range.1 == old(self).pos,
            body@.len() >= 1,
            body_wf(body@, old(self).units@, start, quantifier.range.0),
            old(self).clean_all(body@),
        ensures
            final(self).leaf_step(old(self)),
            final(self).pos == old(self).pos,
            node_wf(*res, final(self).units@),
            final(self).clean(*res),
            res.range == (start, quantifier.range.1),
            res.kind is Quantifier,
            final(self).untouched(old(self)),
    {
        let (min, max, greedy, symbol) = match &quantifier.kind {
            NodeKind::Quantifier { min, max, greedy, symbol, .. } => (*min, *max, *greedy, *symbol),
            _ => (0, None, true, None),
        };
        proof {
            lemma_body_wf_bounds(body@, self.units@, start, quantifier.range.0);
        }
        let inner = if body.len() == 1 {
            proof {
                assert(body@.last() == body@[0]);
            }
            Rc::clone(&body[0])
        } else {
            let range = (body[0].range.0, body[body.len() - 1].range.1);
            proof {
                let n = body@.len() - 1;
                lemma_body_wf_tight(body@, self.units@, start, quantifier.range.0);
                lemma_body_wf_bounds(body@, self.units@, body@[0].range.0, body@.last().range.1);
                assert(body@.last() == body@[n]);
                assert(body@[n].range.1 <= quantifier.range.0);
            }
            self.node(range, NodeKind::Alternative { body })
        };
        assert(node_wf(*inner, self.units@));
        assert(start <= inner.range.0 && inner.range.1 <= quantifier.range.1);
        assert(self.strict() ==> no_decimal_characters(*inner, self.units@));
        let range = (start, quantifier.range.1);
        proof {
            assert(quantifier_reads(
                self.units@.subrange(quantifier.range.0 as int, quantifier.range.1 as int),
                min,
                max,
                greedy,
                symbol,
            ));
        }
        self.node(range, NodeKind::Quantifier { min, max, greedy, symbol, body: inner })
    }

    fn parse_anchor(&mut self) -> (res: Result<Option<RcNode>, ParseError>)
        requires
            old(self).inv(),
        ensures
            final(self).nested_step(old(self)),
            res matches Ok(Some(n)) ==> final(self).produced(old(self), *n) && final(self).pos > old(self).pos
                && !(n.kind is Alternative),
            res matches Ok(None) ==> final(self).pos == old(self).pos
                && final(self).closed_capture_counter == old(self).closed_capture_counter,
            old(self).rest_plain() ==> (res matches Ok(None) && final(self).untouched(old(self))),
            res matches Ok(None) ==> final(self).untouched(old(self)),
            old(self).pos < old(self).units@.len() && (old(self).units@[old(self).pos as int] == 0x5E
                || old(self).units@[old(self).pos as int] == 0x24) ==> (res matches Ok(Some(n))
                && n.range == (old(self).pos, final(self).pos) && final(self).pos == old(self).pos + 1
                && final(self).untouched(old(self))),
            (res matches Ok(None)) <==> !(simple_anchor_at(old(self).units@, old(self).pos as int) || lookahead_opener_at(old(self).units@, old(self).pos as int)),
            simple_anchor_at(old(self).units@, old(self).pos as int) ==> res is Ok,
            res is Err ==> lookahead_opener_at(old(self).units@, old(self).pos as int),
            lookahead_opener_at(old(self).units@, old(self).pos as int) && plain_closes(old(self).units@, old(self).pos as int + 3) ==> (res matches Ok(Some(n))
                && n.range.0 == old(self).pos && n.range.1 == old(self).pos + 3 + run_len(old(self).units@, old(self).pos as int + 3, UnitClass::Plain) + 1
                && final(self).pos == n.range.1),
        decreases old(self).units@.len() - old(self).pos, 2nat,
    {
        let cur = self.current();
        if cur == Some('^' as u16) {
            self.pos += 1;
            let p = self.pos;
            proof {
                assert(self.units@.subrange(p - 1, p as int) =~= anchor_text(AnchorKind::Start));
            }
            Ok(Some(self.node((p - 1, p), NodeKind::Anchor { kind: AnchorKind::Start })))
        } else if cur == Some('$' as u16) {
            self.pos += 1;
            let p = self.pos;
            proof {
                assert(self.units@.subrange(p - 1, p as int) =~= anchor_text(AnchorKind::End));
            }
            Ok(Some(self.node((p - 1, p), NodeKind::Anchor { kind: AnchorKind::End })))
        } else if cur == Some('\\' as u16) {
            let next = self.next_unit();
            if next == Some('b' as u16) {
                self.pos += 2;
                let p = self.pos;
                proof {
                    assert(self.units@.subrange(p - 2, p as int) =~= anchor_text(AnchorKind::Boundary));
                }
                Ok(Some(self.node((p - 2, p), NodeKind::Anchor { kind: AnchorKind::Boundary })))
            } else if next == Some('B' as u16) {
                self.pos += 2;
                let p = self.pos;
                proof {
                    assert(self.units@.subrange(p - 2, p as int) =~= anchor_text(AnchorKind::NotBoundary));
                }
                Ok(Some(self.node((p - 2, p), NodeKind::Anchor { kind: AnchorKind::NotBoundary })))
            } else {
                Ok(None)
            }
        } else if cur == Some('(' as u16) {
            let from = self.pos;
            proof {
                let u = self.units@;
                let p = from as int;
                if p + 3 <= u.len() {
                    if u[p + 1] == 0x3F && u[p + 2] == 0x3D {
                        assert(u.subrange(p, p + 3) =~= seq![0x28u16, 0x3F, 0x3D]);
                    }
                    if u[p + 1] == 0x3F && u[p + 2] == 0x21 {
                        assert(u.subrange(p, p + 3) =~= seq![0x28u16, 0x3F, 0x21]);
                    }
                    assert(u.subrange(p, p + 3)[1] == u[p + 1]);
                    assert(u.subrange(p, p + 3)[2] == u[p + 2]);
                }
            }
            if self.match_str(&[0x28, 0x3F, 0x3D]) {
                Ok(Some(self.finish_group(GroupBehavior::Lookahead, from)?))
            } else if self.match_str(&[0x28, 0x3F, 0x21]) {
                Ok(Some(self.finish_group(GroupBehavior::NegativeLookahead, from)?))
            } else {
                Ok(None)
            }
        } else {
            Ok(None)
        }
    }

    #[verifier::rlimit(40)]
    #[verifier::spinoff_prover]
    fn finish_group(&mut self, behavior: GroupBehavior, from: usize) -> (res: Result<RcNode, ParseError>)
        requires
            old(self).inv(),
            from < old(self).pos,
            old(self).units@.subrange(from as int, old(self).pos as int) == group_opener(behavior),
        ensures
            final(self).nested_step(old(self)),
            res matches Ok(n) ==> {
                &&& node_wf(*n, final(self).units@)
                &&& n.range == (from, final(self).pos)
                &&& n.kind is Group
                &&& (n.kind matches NodeKind::Group { behavior: b, .. } && b == behavior)
                &&& final(self).clean(*n)
            },
            plain_closes(old(self).units@, old(self).pos as int) ==> (res matches Ok(n)
                && n.range.1 == old(self).pos as int + run_len(old(self).units@, old(self).pos as int, UnitClass::Plain) + 1),
            old(self).simple() && behavior == GroupBehavior::Normal && first_bad_brace(
                old(self).units@,
                old(self).pos as int,
                region_end(old(self).units@, old(self).pos as int, 0, false),
            ) < region_end(old(self).units@, old(self).pos as int, 0, false) ==> (res matches Err(e) && e.0@ == brace_message(
                old(self).units@,
                first_bad_brace(old(self).units@, old(self).pos as int, region_end(old(self).units@, old(self).pos as int, 0, false)),
            )),
            old(self).simple() && behavior == GroupBehavior::Normal && first_bad_brace(
                old(self).units@,
                old(self).pos as int,
                region_end(old(self).units@, old(self).pos as int, 0, false),
            ) == region_end(old(self).units@, old(self).pos as int, 0, false) && region_end(
                old(self).units@,
                old(self).pos as int,
                0,
                false,
            ) < old(self).units@.len() ==> (res matches Ok(n)
                && final(self).pos == region_end(old(self).units@, old(self).pos as int, 0, false) + 1
                && final(self).units@[final(self).pos - 1] == 0x29 && final(self).untouched(old(self))
                && no_bad_within(old(self).units@, from as int, final(self).pos as int)),
            old(self).simple() && behavior == GroupBehavior::Normal && first_bad_brace(
                old(self).units@,
                old(self).pos as int,
                region_end(old(self).units@, old(self).pos as int, 0, false),
            ) == region_end(old(self).units@, old(self).pos as int, 0, false) && region_end(
                old(self).units@,
                old(self).pos as int,
                0,
                false,
            ) == old(self).units@.len() ==> (res matches Err(e) && e.0@ == "Expected )"@),
        decreases old(self).units@.len() - old(self).pos, 6nat,
    {
        proof {
            if self.simple() && behavior == GroupBehavior::Normal {
                let u = self.units@;
                assert(u.subrange(from as int, self.pos as int)[0] == u[from as int]);
                assert(u[from as int] == 0x28);
                assert(self.pos == from + 1);
                lemma_region_end_bounds(u, self.pos as int, 0, false);
                if region_end(u, self.pos as int, 0, false) < u.len() {
                    lemma_region_inside_closes(u, self.pos as int, 0);
                }
                lemma_term_start_after_opener(u, self.pos as int);
                assert(self.at_term_start());
                lemma_first_bad_brace(u, self.pos as int, region_end(u, self.pos as int, 0, false));
            }
        }
        let inner = match self.parse_disjunction() {
            Ok(n) => n,
            Err(e) => return Err(e),
        };
        if !self.match_one(')' as u16) {
            return Err(ParseError("Expected )".to_string()));
        }
        let inner_range = inner.range;
        let body = Self::flatten_body(inner, Ghost(self.units@));
        let to = self.pos;
        proof {
            let u = self.units@;
            let r = region_end(u, old(self).pos as int, 0, false);
            if self.simple() && behavior == GroupBehavior::Normal && first_bad_brace(u, old(self).pos as int, r) == r
                && r < u.len() {
                assert forall|j: int| from <= j < to implies !#[trigger] bad_brace(u, j) by {
                    if j == from {
                        assert(u[from as int] == 0x28);
                    } else if j == to - 1 {
                        assert(u[to - 1] == 0x29);
                    }
                }
            }
        }
        proof {
            lemma_body_wf_widen(body@, self.units@, inner_range.0, inner_range.1, (from + 1) as usize, (to - 1) as usize);
        }
        if behavior == GroupBehavior::Normal && self.first_iteration {
            self.closed_capture_counter += 1;
        }
        proof {
            let t = self.units@.subrange(from as int, to as int);
            let o = group_opener(behavior);
            assert(t.take(o.len() as int) =~= old(self).units@.subrange(from as int, old(self).pos as int));
            assert(t.last() == self.units@[to - 1]);
        }
        Ok(self.node((from, to), NodeKind::Group { behavior, body }))
    }

    #[verifier::rlimit(50)]
    #[verifier::spinoff_prover]
    fn parse_quantifier(&mut self) -> (res: Result<Option<RcNode>, ParseError>)
        requires
            old(self).inv(),
        ensures
            final(self).leaf_step(old(self)),
            res matches Ok(Some(q)) ==> {
                &&& q.range == (old(self).pos, final(self).pos)
                &&& final(self).pos > old(self).pos
                &&& quantifier_wf(*q, final(self).units@)
            },
            res matches Ok(None) ==> final(self).pos == old(self).pos,
            old(self).rest_plain() ==> (res matches Ok(None) && final(self).untouched(old(self))),
            res matches Ok(None) ==> final(self).untouched(old(self)),
            (res matches Ok(None)) <==> !quantifier_at(old(self).units@, old(self).pos as int),
            old(self).pos < old(self).units@.len() && is_quantifier_symbol(old(self).units@[old(self).pos as int]) ==> {
                let u = old(self).units@;
                let p = old(self).pos as int;
                &&& res matches Ok(Some(q))
                &&& final(self).untouched(old(self))
                &&& (p + 1 < u.len() && u[p + 1] == 0x3F) ==> final(self).pos == p + 2
                &&& !(p + 1 < u.len() && u[p + 1] == 0x3F) ==> final(self).pos == p + 1
            },
            res is Err <==> (brace_quantifier_len(old(self).units@, old(self).pos as int) is Some
                && brace_bounds_bad(old(self).units@, old(self).pos as int)),
            brace_quantifier_len(old(self).units@, old(self).pos as int) matches Some(k) ==> {
                let u = old(self).units@;
                let p = old(self).pos as int;
                &&& (brace_max(u, p) matches Some(m) && m < brace_min(u, p)) ==> (res matches Err(e)
                    && e.0@ == "numbers out of order in {} quantifier"@)
                &&& (!(brace_max(u, p) matches Some(m) && m < brace_min(u, p)) && brace_bounds_bad(u, p)) ==> (res matches Err(e)
                    && e.0@ == "iterations outside JS safe integer range in quantifier"@)
                &&& !brace_bounds_bad(u, p) ==> {
                    &&& res matches Ok(Some(q))
                    &&& final(self).untouched(old(self))
                    &&& (p + k < u.len() && u[p + k] == 0x3F) ==> final(self).pos == p + k + 1
                    &&& !(p + k < u.len() && u[p + k] == 0x3F) ==> final(self).pos == p + k
                }
            },
    {
        let from = self.pos;
        let mut min: u64 = 0;
        let mut max: Option<u64> = None;
        let mut symbol: Option<char> = None;
        let mut matched = false;

        match self.current() {
            Some(c) if c == '*' as u16 => {
                self.pos += 1;
                min = 0;
                max = None;
                symbol = Some('*');
                matched = true;
            },
            Some(c) if c == '+' as u16 => {
                self.pos += 1;
                min = 1;
                max = None;
                symbol = Some('+');
                matched = true;
            },
            Some(c) if c == '?' as u16 => {
                self.pos += 1;
                min = 0;
                max = Some(1);
                symbol = Some('?');
                matched = true;
            },
            Some(c) if c == '{' as u16 => {
                if let Some((m, mx, consumed)) = self.match_brace_quantifier() {
                    if mx.is_some() && mx.unwrap() < m {
                        return Err(ParseError("numbers out of order in {} quantifier".to_string()));
                    }
                    self.pos += consumed;
                    min = m;
                    max = mx;
                    matched = true;
                    let max_too_big = match max {
                        Some(v) => v > MAX_SAFE_INTEGER,
                        None => false,
                    };
                    if min > MAX_SAFE_INTEGER || max_too_big {
                        return Err(ParseError(
                            "iterations outside JS safe integer range in quantifier".to_string(),
                        ));
                    }
                }
            },
            _ => {},
        }

        if !matched {
            return Ok(None);
        }

        let core_end = self.pos;
        let mut to = self.pos;
        let mut greedy = true;
        if self.match_one('?' as u16) {
            greedy = false;
            to += 1;
        }

        // The body is attached by the caller, which replaces this placeholder.
        let placeholder = self.node((from, from), NodeKind::Dot);
        proof {
            let q = self.units@.subrange(from as int, to as int);
            let core = self.units@.subrange(from as int, core_end as int);
            if !greedy {
                assert(q.drop_last() =~= core);
            } else {
                assert(q =~= core);
            }
            if symbol is None {
                assert(core.subrange(1, core.len() - 1) =~= self.units@.subrange(from + 1, core_end - 1));
            } else {
                assert(core =~= seq![self.units@[from as int]]);
            }
        }
        assert(min <= MAX_SAFE_INTEGER);
        assert(max matches Some(m) ==> min <= m && m <= MAX_SAFE_INTEGER);
        Ok(Some(self.node((from, to), NodeKind::Quantifier { min, max, greedy, symbol, body: placeholder })))
    }

    /// Parses `{n}`, `{n,}`, or `{n,m}` starting at the current `{`.
    ///
    /// Returns `(min, max, units_consumed)` or `None` when the brace does not
    /// form a quantifier.
    fn match_brace_quantifier(&self) -> (res: Option<(u64, Option<u64>, usize)>)
        requires
            self.pos <= self.units.len(),
        ensures
            res matches Some((m, mx, consumed)) ==> {
                &&& consumed >= 3
                &&& self.pos + consumed <= self.units@.len()
                &&& self.units@[self.pos as int] == 0x7B
                &&& self.units@[self.pos + consumed - 1] == 0x7D
                &&& brace_reads(self.units@.subrange(self.pos + 1, self.pos + consumed - 1), m, mx)
                &&& brace_quantifier_len(self.units@, self.pos as int) == Some(consumed as int)
                &&& m == brace_min(self.units@, self.pos as int)
                &&& (mx matches Some(v) ==> brace_max(self.units@, self.pos as int) == Some(v as int))
                &&& (mx is None ==> brace_max(self.units@, self.pos as int) is None)
            },
            res is None <==> brace_quantifier_len(self.units@, self.pos as int) is None,
    {
        let mut i = self.pos;
        if self.unit(i) != Some('{' as u16) {
            return None;
        }
        i += 1;
        let digits_start = i;
        while i < self.units.len() && is_ascii_digit(self.units[i])
            invariant
                digits_start <= i <= self.units@.len(),
                digits_start == self.pos + 1,
                forall|j: int| digits_start <= j < i ==> spec_is_ascii_digit(#[trigger] self.units@[j]),
            decreases self.units.len() - i,
        {
            i += 1;
        }
        proof {
            lemma_run_len(self.units@, digits_start as int, i as int, UnitClass::Decimal);
        }
        if i == digits_start {
            return None;
        }
        let min = self.parse_uint(digits_start, i)?;
        let comma = i;
        let ghost first = self.units@.subrange(digits_start as int, comma as int);
        proof {
            assert forall|k: int| 0 <= k < first.len() implies spec_is_ascii_digit(#[trigger] first[k]) by {
                assert(first[k] == self.units@[digits_start + k]);
            }
        }
        match self.unit(i) {
            Some(c) if c == '}' as u16 => {
                proof {
                    assert(self.units@.subrange(self.pos + 1, i as int) =~= first);
                    assert(brace_reads(first, min, Some(min)));
                }
                Some((min, Some(min), i + 1 - self.pos))
            },
            Some(c) if c == ',' as u16 => {
                i += 1;
                if self.unit(i) == Some('}' as u16) {
                    proof {
                        let inner = self.units@.subrange(self.pos + 1, i as int);
                        let w = comma - digits_start;
                        assert(inner.take(w) =~= first);
                        assert(inner[w] == 0x2C);
                        assert(brace_reads(inner, min, None));
                    }
                    Some((min, None, i + 1 - self.pos))
                } else {
                    let max_start = i;
                    while i < self.units.len() && is_ascii_digit(self.units[i])
                        invariant
                            max_start <= i <= self.units@.len(),
                            self.pos < max_start,
                            forall|j: int| max_start <= j < i ==> spec_is_ascii_digit(#[trigger] self.units@[j]),
                        decreases self.units.len() - i,
                    {
                        i += 1;
                    }
                    proof {
                        lemma_run_len(self.units@, max_start as int, i as int, UnitClass::Decimal);
                    }
                    if i == max_start {
                        return None;
                    }
                    if self.unit(i) != Some('}' as u16) {
                        return None;
                    }
                    let max = self.parse_uint(max_start, i)?;
                    proof {
                        let inner = self.units@.subrange(self.pos + 1, i as int);
                        let w = comma - digits_start;
                        let second = self.units@.subrange(max_start as int, i as int);
                        assert(inner.take(w) =~= first);
                        assert(inner[w] == 0x2C);
                        assert(inner.skip(w + 1) =~= second);
                        assert forall|k: int| 0 <= k < second.len() implies spec_is_ascii_digit(#[trigger] second[k]) by {
                            assert(second[k] == self.units@[max_start + k]);
                        }
                        assert(brace_reads(inner, min, Some(max)));
                    }
                    Some((min, Some(max), i + 1 - self.pos))
                }
            },
            _ => None,
        }
    }

    /// The decimal value of `units[from..to]`, saturating at `u64::MAX`.
    fn parse_uint(&self, from: usize, to: usize) -> (res: Option<u64>)
        requires
            from <= to <= self.units@.len(),
            forall|j: int| from <= j < to ==> spec_is_ascii_digit(#[trigger] self.units@[j]),
        ensures
            digits_value(self.units@.subrange(from as int, to as int), 10) >= 0,
            res == Some(
                if digits_value(self.units@.subrange(from as int, to as int), 10) <= u64::MAX {
                    digits_value(self.units@.subrange(from as int, to as int), 10) as u64
                } else {
                    u64::MAX
                },
            ),
    {
        let mut value: u64 = 0;
        let mut i = from;
        while i < to
            invariant
                from <= i <= to,
                to <= self.units@.len(),
                forall|j: int| from <= j < to ==> spec_is_ascii_digit(#[trigger] self.units@[j]),
                value == if digits_value(self.units@.subrange(from as int, i as int), 10) <= u64::MAX {
                    digits_value(self.units@.subrange(from as int, i as int), 10) as u64
                } else {
                    u64::MAX
                },
                digits_value(self.units@.subrange(from as int, i as int), 10) >= 0,
            decreases to - i,
        {
            let u = self.units[i];
            let digit = (u - 0x30) as u64;
            let ghost prev = self.units@.subrange(from as int, i as int);
            let ghost next = self.units@.subrange(from as int, i + 1);
            proof {
                assert(next.drop_last() =~= prev);
                assert(next.last() == u);
                assert(digits_value(next, 10) == digits_value(prev, 10) * 10 + digit);
            }
            // Saturate on overflow: the caller rejects any value above
            // MAX_SAFE_INTEGER, so u64::MAX still triggers the right error.
            value = match value.checked_mul(10) {
                Some(v) => match v.checked_add(digit) {
                    Some(w) => w,
                    None => u64::MAX,
                },
                None => u64::MAX,
            };
            i += 1;
        }
        Some(value)
    }

    fn create_character(&mut self, code_point: u32, from: usize, to: usize) -> (res: RcNode)
        requires
            old(self).inv(),
            from <= to <= old(self).units@.len(),
            code_point <= 0x10FFFF,
            value_reads(old(self).units@.subrange(from as int, to as int), code_point as int),
            old(self).strict() ==> !(from + 2 <= to && old(self).units@[from as int] == 0x5C
                && 0x31 <= old(self).units@[from + 1] <= 0x39),
        ensures
            final(self).leaf_step(old(self)),
            final(self).pos == old(self).pos,
            node_wf(*res, final(self).units@),
            final(self).clean(*res),
            final(self).untouched(old(self)),
            res.range == (from, to),
            res.kind == (NodeKind::Value { code_point }),
    {
        self.node((from, to), NodeKind::Value { code_point })
    }

    #[verifier::rlimit(80)]
    #[verifier::spinoff_prover]
    fn parse_atom(&mut self) -> (res: Result<Option<RcNode>, ParseError>)
        requires
            old(self).inv(),
        ensures
            final(self).nested_step(old(self)),
            res matches Ok(Some(n)) ==> final(self).produced(old(self), *n) && final(self).pos > old(self).pos
                && !(n.kind is Alternative),
            res matches Ok(None) ==> final(self).pos == old(self).pos
                && final(self).closed_capture_counter == old(self).closed_capture_counter,
            old(self).pos < old(self).units@.len() && is_quantifier_symbol(old(self).units@[old(self).pos as int]) ==> (
            res matches Ok(None)),
            lookbehind_opener_at(old(self).units@, old(self).pos as int) && plain_closes(old(self).units@, old(self).pos + 4)
                ==> (res matches Ok(Some(n)) && final(self).pos == plain_group_end(old(self).units@, old(self).pos as int, 4)
                && (n.kind matches NodeKind::Group { behavior: b, .. } && (b == GroupBehavior::Lookbehind
                || b == GroupBehavior::NegativeLookbehind))),
            old(self).rest_plain() && old(self).pos < old(self).plain_stop() ==> (res matches Ok(Some(n))
                && n.range.1 == final(self).pos && final(self).untouched(old(self))
                && final(self).pos <= old(self).plain_stop() && n.kind is Value && n.range.0 == old(self).pos
                && final(self).pos == old(self).pos + plain_term_len(old(self).units@, old(self).pos as int, old(self).unicode)),
            old(self).simple() && old(self).at_term_start() && old(self).group_bad() ==> (res matches Err(e)
                && e.0@ == brace_message(old(self).units@, first_bad_brace(old(self).units@, old(self).pos + 1, old(self).group_end()))),
            old(self).simple() && old(self).at_term_start() && !old(self).group_bad() && old(self).pos < old(self).units@.len()
                && old(self).units@[old(self).pos as int] == 0x28 && region_end(old(self).units@, old(self).pos + 1, 0, false)
                == old(self).units@.len() ==> (res matches Err(e) && e.0@ == "Expected )"@),
            old(self).simple() && old(self).at_term_start() && old(self).pos < region_end(old(self).units@, old(self).pos as int, 0, true)
                && old(self).units@[old(self).pos as int] != 0x5E && old(self).units@[old(self).pos as int] != 0x24
                && !old(self).group_bad()
                && !(old(self).units@[old(self).pos as int] == 0x28 && region_end(old(self).units@, old(self).pos + 1, 0, false)
                == old(self).units@.len()) ==> (
                res matches Ok(Some(n)) && closed_within(old(self).units@, old(self).pos as int, final(self).pos as int)
                && no_bad_within(old(self).units@, old(self).pos as int, final(self).pos as int)
                && n.range.1 == final(self).pos && final(self).untouched(old(self))
                && region_end(final(self).units@, final(self).pos as int, 0, true) == region_end(
                    old(self).units@,
                    old(self).pos as int,
                    0,
                    true,
                ) && (n.kind matches NodeKind::Group { behavior: b, .. } ==> b == GroupBehavior::Normal)
                && n.range.0 == old(self).pos && (final(self).pos == old(self).pos + 1 || !(spec_is_ascii_digit(
                final(self).units@[final(self).pos - 1],
            ) || final(self).units@[final(self).pos - 1] == 0x2C || final(self).units@[final(self).pos - 1] == 0x7B))),
        decreases old(self).units@.len() - old(self).pos, 2nat,
    {
        proof {
            if self.simple() && self.pos < self.units@.len() && self.units@[self.pos as int] == 0x28 {
                lemma_region_end_bounds(self.units@, self.pos + 1, 0, false);
                lemma_first_bad_brace(self.units@, self.pos + 1, region_end(self.units@, self.pos + 1, 0, false));
            }
            if self.simple() && self.pos < region_end(self.units@, self.pos as int, 0, true) {
                let u = self.units@;
                let p = self.pos as int;
                lemma_brace_units(u, p);
                assert(is_simple_unit(u[p]));
                if p + 1 < u.len() {
                    assert(is_simple_unit(u[p + 1]));
                }
                if u[p] == 0x5C {
                    assert(p + 1 < u.len() && is_class_escape_letter(u[p + 1]));
                    assert(region_end(u, p, 0, true) == region_end(u, p + 1, 0, true));
                    assert(region_end(u, p + 1, 0, true) == region_end(u, p + 2, 0, true));
                }
                if u[p] == 0x28 {
                    lemma_region_end_bounds(u, p + 1, 0, false);
                    lemma_first_bad_brace(u, p + 1, region_end(u, p + 1, 0, false));
                    if region_end(u, p + 1, 0, false) < u.len() {
                        lemma_region_nest(u, p + 1, 0, 0, true);
                        lemma_region_inside_closes(u, p + 1, 0);
                    }
                    if p + 1 < u.len() && is_quantifier_symbol(u[p + 1]) {
                        assert(symbol_follows_atom(u, p + 1));
                    }
                }
            }
        }
        match self.current() {
            None => Ok(None),
            Some(c) if c == '.' as u16 => {
                self.pos += 1;
                let p = self.pos;
                proof {
                    assert(self.units@.subrange(p - 1, p as int) =~= seq![0x2Eu16]);
                    assert(!bad_brace(self.units@, p - 1));
                }
                Ok(Some(self.node((p - 1, p), NodeKind::Dot)))
            },
            Some(c) if c == '\\' as u16 => {
                self.pos += 1;
                match self.parse_atom_escape(false)? {
                    Some(node) => {
                        proof {
                            let u = self.units@;
                            let p0 = old(self).pos as int;
                            if self.simple() && p0 < region_end(u, p0, 0, true) {
                                assert forall|j: int| p0 <= j < self.pos implies !#[trigger] bad_brace(u, j) by {
                                    if j == p0 {
                                    } else if j == p0 + 1 {
                                    }
                                }
                            }
                        }
                        Ok(Some(node))
                    },
                    None => {
                        if !self.unicode && self.current_one('c' as u16) {
                            let p = self.pos;
                            return Ok(Some(self.create_character(92, p - 1, p)));
                        }
                        Err(ParseError("atomEscape".to_string()))
                    },
                }
            },
            Some(c) if c == '[' as u16 => Ok(Some(self.parse_character_class()?)),
            Some(c) if c == '(' as u16 => {
                let from = self.pos;
                proof {
                    let u = self.units@;
                    let p = from as int;
                    if lookbehind_opener_at(u, p) {
                        if u[p + 3] == 0x3D {
                            assert(u.subrange(p, p + 4) =~= seq![0x28u16, 0x3F, 0x3C, 0x3D]);
                        } else {
                            assert(u.subrange(p, p + 4) =~= seq![0x28u16, 0x3F, 0x3C, 0x21]);
                        }
                    }
                }
                if self.match_str(&[0x28, 0x3F, 0x3C, 0x3D]) {
                    Ok(Some(self.finish_group(GroupBehavior::Lookbehind, from)?))
                } else if self.match_str(&[0x28, 0x3F, 0x3C, 0x21]) {
                    Ok(Some(self.finish_group(GroupBehavior::NegativeLookbehind, from)?))
                } else if self.match_str(&[0x28, 0x3F, 0x3A]) {
                    Ok(Some(self.finish_group(GroupBehavior::Ignore, from)?))
                } else if self.match_one('(' as u16) {
                    proof {
                        assert(self.units@.subrange(from as int, self.pos as int) =~= group_opener(GroupBehavior::Normal));
                    }
                    match self.finish_group(GroupBehavior::Normal, from) {
                        Ok(n) => Ok(Some(n)),
                        Err(e) => Err(e),
                    }
                } else {
                    Err(ParseError("group".to_string()))
                }
            },
            Some(c) if (c == ']' as u16 || c == '}' as u16) && !self.unicode => {
                self.pos += 1;
                let p = self.pos;
                proof {
                    assert(!bad_brace(self.units@, p - 1));
                }
                Ok(Some(self.create_character(c as u32, p - 1, p)))
            },
            Some(c) if c == '^' as u16 || c == '$' as u16 || c == '*' as u16 || c == '+' as u16
                || c == '?' as u16 || c == '{' as u16 || c == ')' as u16 || c == '|' as u16
                || (self.unicode && (c == ']' as u16 || c == '}' as u16)) => {
                Ok(None)
            },
            Some(_) => {
                let n = self.parse_pattern_character();
                proof {
                    let u = self.units@;
                    let p = old(self).pos as int;
                    if self.simple() && p < region_end(u, p, 0, true) {
                        assert(region_end(u, p, 0, true) == region_end(u, p + 1, 0, true));
                        if self.pos == p + 2 {
                            assert(region_end(u, p + 1, 0, true) == region_end(u, p + 2, 0, true));
                        }
                    }
                    assert forall|j: int| p <= j < self.pos implies !#[trigger] bad_brace(u, j) by {
                        if j == p {
                        } else if j == p + 1 {
                        }
                    }
                }
                Ok(Some(n))
            },
        }
    }

    fn parse_pattern_character(&mut self) -> (res: RcNode)
        requires
            old(self).inv(),
            old(self).pos < old(self).units@.len(),
        ensures
            final(self).leaf_step(old(self)),
            final(self).produced(old(self), *res),
            final(self).pos > old(self).pos,
            res.kind is Value,
            res.range == (old(self).pos, final(self).pos),
            final(self).untouched(old(self)),
            final(self).pos == old(self).pos + 1 || (final(self).pos == old(self).pos + 2
                && is_low_surrogate(old(self).units@[old(self).pos + 1] as int)),
            final(self).pos == old(self).pos + plain_term_len(old(self).units@, old(self).pos as int, old(self).unicode),
    {
        let first = self.units[self.pos];
        if self.unicode && 0xD800 <= first && first <= 0xDBFF {
            if let Some(second) = self.next_unit() {
                if 0xDC00 <= second && second <= 0xDFFF {
                    self.pos += 2;
                    let code_point = (first as u32 - 0xD800) * 0x400 + (second as u32 - 0xDC00) + 0x10000;
                    let p = self.pos;
                    return self.create_character(code_point, p - 2, p);
                }
            }
        }
        self.pos += 1;
        let p = self.pos;
        self.create_character(first as u32, p - 1, p)
    }

    /// Parses what follows a backslash that was just consumed.
    fn parse_atom_escape(&mut self, inside_class: bool) -> (res: Result<Option<RcNode>, ParseError>)
        requires
            old(self).inv(),
            old(self).pos >= 1,
            old(self).units@[old(self).pos - 1] == 0x5C,
        ensures
            final(self).leaf_step(old(self)),
            res matches Ok(Some(n)) ==> {
                &&& node_wf(*n, final(self).units@)
                &&& old(self).pos - 1 <= n.range.0
                &&& n.range.1 <= final(self).pos
                &&& final(self).clean(*n)
                &&& final(self).pos > old(self).pos
                &&& !(n.kind is Alternative)
            },
            res matches Ok(None) ==> final(self).pos == old(self).pos,
            res is Err <==> atom_escape_error(
                old(self).units@,
                old(self).pos as int,
                inside_class,
                old(self).unicode,
                old(self).closed_capture_counter as int,
                old(self).first_iteration,
            ),
            (res matches Ok(None)) <==> atom_escape_missing(old(self).units@, old(self).pos as int, inside_class, old(self).unicode),
            old(self).pos < old(self).units@.len() && is_class_escape_letter(old(self).units@[old(self).pos as int]) ==> (
                res matches Ok(Some(n)) && n.range.0 == old(self).pos - 1 && n.range.1 == final(self).pos
                && final(self).pos == old(self).pos + 1 && final(self).untouched(old(self))),
    {
        let ch = match self.current() {
            Some(c) => c,
            None => return self.parse_identity_escape(),
        };
        if 0x30 <= ch && ch <= 0x39 {
            self.parse_decimal_escape(inside_class)
        } else if ch == 'B' as u16 {
            if inside_class {
                Err(ParseError("\\B not possible inside of CharacterClass".to_string()))
            } else {
                self.parse_identity_escape()
            }
        } else if ch == 'b' as u16 {
            if inside_class {
                self.pos += 1;
                let p = self.pos;
                Ok(Some(self.create_character(0x0008, p - 2, p)))
            } else {
                self.parse_identity_escape()
            }
        } else if ch == 'd' as u16 || ch == 'D' as u16 || ch == 'w' as u16 || ch == 'W' as u16
            || ch == 's' as u16 || ch == 'S' as u16 {
            self.pos += 1;
            let value = if ch == 'd' as u16 {
                ClassEscape::D
            } else if ch == 'D' as u16 {
                ClassEscape::DUpper
            } else if ch == 'w' as u16 {
                ClassEscape::W
            } else if ch == 'W' as u16 {
                ClassEscape::WUpper
            } else if ch == 's' as u16 {
                ClassEscape::S
            } else {
                ClassEscape::SUpper
            };
            let p = self.pos;
            proof {
                assert(self.units@.subrange(p - 2, p as int) =~= seq![0x5Cu16, class_escape_letter(value)]);
            }
            Ok(Some(self.node((p - 2, p), NodeKind::CharacterClassEscape { value })))
        } else if ch == 'p' as u16 || ch == 'P' as u16 {
            match self.parse_unicode_property_escape()? {
                Some(node) => Ok(Some(node)),
                None => self.parse_identity_escape(),
            }
        } else if ch == '-' as u16 && inside_class && self.unicode {
            self.pos += 1;
            let p = self.pos;
            Ok(Some(self.create_character(0x002d, p - 2, p)))
        } else {
            self.parse_character_escape()
        }
    }

    /// The decimal value of `units[from..to]`, saturating at `usize::MAX`.
    fn parse_reference_index(&self, from: usize, to: usize) -> (res: usize)
        requires
            from < to <= self.units@.len(),
            forall|j: int| from <= j < to ==> spec_is_ascii_digit(#[trigger] self.units@[j]),
            self.units@[from as int] != 0x30,
        ensures
            res >= 1,
            digits_value(self.units@.subrange(from as int, to as int), 10) >= 0,
            res == if digits_value(self.units@.subrange(from as int, to as int), 10) <= usize::MAX {
                digits_value(self.units@.subrange(from as int, to as int), 10) as usize
            } else {
                usize::MAX
            },
    {
        let mut value: usize = 0;
        let mut i = from;
        while i < to
            invariant
                from <= i <= to,
                to <= self.units@.len(),
                forall|j: int| from <= j < to ==> spec_is_ascii_digit(#[trigger] self.units@[j]),
                self.units@[from as int] != 0x30,
                value == if digits_value(self.units@.subrange(from as int, i as int), 10) <= usize::MAX {
                    digits_value(self.units@.subrange(from as int, i as int), 10) as usize
                } else {
                    usize::MAX
                },
                digits_value(self.units@.subrange(from as int, i as int), 10) >= 0,
                i > from ==> value >= 1,
            decreases to - i,
        {
            let u = self.units[i];
            let digit = (u - 0x30) as usize;
            let ghost prev = self.units@.subrange(from as int, i as int);
            let ghost next = self.units@.subrange(from as int, i + 1);
            proof {
                assert(next.drop_last() =~= prev);
                assert(next.last() == u);
                assert(digits_value(next, 10) == digits_value(prev, 10) * 10 + digit);
                if i == from {
                    assert(prev.len() == 0);
                    assert(digit >= 1);
                }
            }
            value = match value.checked_mul(10) {
                Some(v) => match v.checked_add(digit) {
                    Some(w) => w,
                    None => usize::MAX,
                },
                None => usize::MAX,
            };
            i += 1;
        }
        value
    }

    /// The octal value of at most three octal digits `units[from..to]`.
    fn octal_value(&self, from: usize, to: usize) -> (res: u32)
        requires
            from <= to <= self.units@.len(),
            to - from <= 3,
            forall|j: int| from <= j < to ==> spec_is_octal_digit(#[trigger] self.units@[j]),
        ensures
            res < 512,
            res == digits_value(self.units@.subrange(from as int, to as int), 8),
    {
        let mut value: u32 = 0;
        let mut i = from;
        while i < to
            invariant
                from <= i <= to,
                to <= self.units@.len(),
                to - from <= 3,
                forall|j: int| from <= j < to ==> spec_is_octal_digit(#[trigger] self.units@[j]),
                value == digits_value(self.units@.subrange(from as int, i as int), 8),
                i - from == 0 ==> value == 0,
                i - from == 1 ==> value < 8,
                i - from == 2 ==> value < 64,
                i - from == 3 ==> value < 512,
            decreases to - i,
        {
            let u = self.units[i];
            let digit = (u - 0x30) as u32;
            let ghost prev = self.units@.subrange(from as int, i as int);
            let ghost next = self.units@.subrange(from as int, i + 1);
            proof {
                assert(next.drop_last() =~= prev);
                assert(next.last() == u);
                assert(spec_is_octal_digit(u));
                assert(digits_value(next, 8) == digits_value(prev, 8) * 8 + digit);
            }
            value = value * 8 + digit;
            i += 1;
        }
        value
    }

    fn parse_decimal_escape(&mut self, inside_class: bool) -> (res: Result<Option<RcNode>, ParseError>)
        requires
            old(self).inv(),
            old(self).pos >= 1,
            old(self).units@[old(self).pos - 1] == 0x5C,
        ensures
            final(self).leaf_step(old(self)),
            res matches Ok(Some(n)) ==> {
                &&& node_wf(*n, final(self).units@)
                &&& old(self).pos - 1 <= n.range.0
                &&& n.range.1 <= final(self).pos
                &&& final(self).clean(*n)
                &&& final(self).pos > old(self).pos
                &&& !(n.kind is Alternative)
            },
            res matches Ok(None) ==> final(self).pos == old(self).pos,
            res is Err <==> decimal_escape_error(
                old(self).units@,
                old(self).pos as int,
                old(self).unicode,
                inside_class,
                old(self).closed_capture_counter as int,
                old(self).first_iteration,
            ),
            (res matches Ok(None)) <==> !(old(self).pos < old(self).units@.len() && spec_is_ascii_digit(old(self).units@[old(self).pos as int])),
    {
        let from = self.pos;
        // A decimal integer literal not starting with 0.
        if self.current() != Some('0' as u16) {
            let start = self.pos;
            while self.pos < self.units.len() && is_ascii_digit(self.units[self.pos])
                invariant
                    self.leaf_step(old(self)),
                    start == old(self).pos,
                    forall|j: int| start <= j < self.pos ==> spec_is_ascii_digit(#[trigger] self.units@[j]),
                decreases self.units@.len() - self.pos,
            {
                self.pos += 1;
            }
            proof {
                assert forall|j: int| start <= j < self.pos implies in_unit_class(#[trigger] self.units@[j], UnitClass::Decimal) by {
                    assert(spec_is_ascii_digit(self.units@[j]));
                }
                lemma_run_len(self.units@, start as int, self.pos as int, UnitClass::Decimal);
            }
            if self.pos > start {
                let ref_idx = self.parse_reference_index(start, self.pos);
                if ref_idx <= self.closed_capture_counter && !inside_class {
                    let p = self.pos;
                    proof {
                        lemma_escape_text(self.units@, from - 1, p as int);
                        lemma_all_decimal(self.units@, start as int, p as int);
                    }
                    let node = self.node((from - 1, p), NodeKind::Reference { match_index: ref_idx as u64 });
                    proof {
                        let t = self.units@.subrange(node.range.0 as int, node.range.1 as int);
                        assert(t.drop_first() == self.units@.subrange(start as int, p as int));
                        assert(t[1] == self.units@[from as int]);
                        assert(t[1] != 0x30);
                        assert(all_decimal(t.drop_first()));
                        assert(node_reads(*node, self.units@));
                    }
                    return Ok(Some(node));
                }
                self.backref_denied.push(ref_idx);
                if self.first_iteration {
                    self.should_reparse = true;
                }
                if self.unicode && !self.first_iteration {
                    return Err(ParseError("Invalid escape".to_string()));
                }
                // Reset and re-match octal digits only.
                self.pos = start;
                let octal_start = self.pos;
                let mut count: usize = 0;
                assert(!self.strict());
                while count < 3 && self.pos < self.units.len() && is_octal_digit(self.units[self.pos])
                    invariant
                        self.leaf_step(old(self)),
                        !self.strict(),
                        octal_start == old(self).pos,
                        self.pos == octal_start + count,
                        count <= 3,
                        forall|j: int| octal_start <= j < self.pos ==> spec_is_octal_digit(#[trigger] self.units@[j]),
                    decreases 3 - count,
                {
                    self.pos += 1;
                    count += 1;
                }
                if self.pos > octal_start {
                    let value = self.octal_value(octal_start, self.pos);
                    let p = self.pos;
                    proof {
                        lemma_escape_text(self.units@, from - 1, p as int);
                        lemma_all_octal(self.units@, octal_start as int, p as int);
                        assert(escape_reads(self.units@.subrange(octal_start as int, p as int), value as int));
                    }
                    return Ok(Some(self.create_character(value, from - 1, p)));
                }
                // A case like \91: take a single 8 or 9.
                let cstart = self.pos;
                if let Some(u) = self.current() {
                    if u == '8' as u16 || u == '9' as u16 {
                        self.pos += 1;
                        let p = self.pos;
                        proof {
                            lemma_escape_text(self.units@, cstart - 1, p as int);
                            assert(self.units@.subrange(cstart as int, p as int) =~= seq![u]);
                            assert(escape_reads(seq![u], u as int));
                        }
                        return Ok(Some(self.create_character(u as u32, cstart - 1, p)));
                    }
                }
                return Ok(None);
            }
        }
        // Octal numbers starting with 0.
        let octal_start = self.pos;
        let mut count: usize = 0;
        while count < 3 && self.pos < self.units.len() && is_octal_digit(self.units[self.pos])
            invariant
                self.leaf_step(old(self)),
                octal_start == old(self).pos,
                self.pos == octal_start + count,
                count <= 3,
                forall|j: int| octal_start <= j < self.pos ==> spec_is_octal_digit(#[trigger] self.units@[j]),
            decreases 3 - count,
        {
            self.pos += 1;
            count += 1;
        }
        if self.pos > octal_start {
            let mut all_zero = true;
            let mut k = octal_start;
            while k < self.pos
                invariant
                    octal_start <= k <= self.pos,
                    self.pos <= self.units@.len(),
                    all_zero ==> forall|j: int| octal_start <= j < k ==> #[trigger] self.units@[j] == 0x30,
                decreases self.pos - k,
            {
                if self.units[k] != '0' as u16 {
                    all_zero = false;
                }
                k += 1;
            }
            if all_zero {
                // All zeros: take the first one only.
                assert(self.units@[octal_start as int] == 0x30);
                self.pos = octal_start + 1;
                let p = self.pos;
                proof {
                    assert(self.units@.subrange(p - 1, p as int) =~= seq![0x30u16]);
                }
                return Ok(Some(self.create_character(0, p - 1, p)));
            }
            let value = self.octal_value(octal_start, self.pos);
            let p = self.pos;
            proof {
                lemma_escape_text(self.units@, from - 1, p as int);
                lemma_all_octal(self.units@, octal_start as int, p as int);
                assert(escape_reads(self.units@.subrange(octal_start as int, p as int), value as int));
            }
            return Ok(Some(self.create_character(value, from - 1, p)));
        }
        Ok(None)
    }

    fn parse_unicode_property_escape(&mut self) -> (res: Result<Option<RcNode>, ParseError>)
        requires
            old(self).inv(),
            old(self).pos >= 1,
            old(self).units@[old(self).pos - 1] == 0x5C,
        ensures
            final(self).leaf_step(old(self)),
            res matches Ok(Some(n)) ==> {
                &&& node_wf(*n, final(self).units@)
                &&& old(self).pos - 1 <= n.range.0
                &&& n.range.1 <= final(self).pos
                &&& final(self).clean(*n)
                &&& final(self).pos > old(self).pos
                &&& n.kind is UnicodePropertyEscape
            },
            res matches Ok(None) ==> final(self).pos == old(self).pos,
            res is Ok,
            (res matches Ok(Some(n))) <==> property_escape_at(old(self).units@, old(self).pos as int, old(self).unicode),
    {
        if !self.unicode {
            return Ok(None);
        }
        let from = self.pos;
        let sign = self.current();
        let negative = sign == Some('P' as u16);
        if sign != Some('p' as u16) && sign != Some('P' as u16) {
            return Ok(None);
        }
        if self.unit(from + 1) != Some('{' as u16) {
            return Ok(None);
        }
        let mut i = from + 2;
        while i < self.units.len() && self.units[i] != '}' as u16
            invariant
                from + 2 <= i <= self.units@.len(),
                forall|j: int| from + 2 <= j < i ==> in_unit_class(#[trigger] self.units@[j], UnitClass::NotCloseBrace),
            decreases self.units.len() - i,
        {
            i += 1;
        }
        proof {
            lemma_run_len(self.units@, from + 2, i as int, UnitClass::NotCloseBrace);
        }
        if self.unit(i) != Some('}' as u16) || i == from + 2 {
            return Ok(None);
        }
        let value = self.raw(from + 2, i);
        self.pos = i + 1;
        let p = self.pos;
        Ok(Some(self.node((from - 1, p), NodeKind::UnicodePropertyEscape { negative, value })))
    }

    fn parse_character_escape(&mut self) -> (res: Result<Option<RcNode>, ParseError>)
        requires
            old(self).inv(),
            old(self).pos >= 1,
            old(self).units@[old(self).pos - 1] == 0x5C,
        ensures
            final(self).leaf_step(old(self)),
            res matches Ok(Some(n)) ==> {
                &&& node_wf(*n, final(self).units@)
                &&& old(self).pos - 1 <= n.range.0
                &&& n.range.1 <= final(self).pos
                &&& final(self).clean(*n)
                &&& final(self).pos > old(self).pos
                &&& n.kind is Value
            },
            res matches Ok(None) ==> final(self).pos == old(self).pos,
            res is Err <==> character_escape_error(old(self).units@, old(self).pos as int, old(self).unicode),
            (res matches Ok(None)) <==> character_escape_missing(old(self).units@, old(self).pos as int, old(self).unicode),
    {
        let from = self.pos;
        let c = match self.current() {
            Some(c) => c,
            None => return self.parse_identity_escape(),
        };
        if c == 't' as u16 {
            self.pos += 1;
            let p = self.pos;
            Ok(Some(self.create_character(0x09, from - 1, p)))
        } else if c == 'n' as u16 {
            self.pos += 1;
            let p = self.pos;
            Ok(Some(self.create_character(0x0A, from - 1, p)))
        } else if c == 'v' as u16 {
            self.pos += 1;
            let p = self.pos;
            Ok(Some(self.create_character(0x0B, from - 1, p)))
        } else if c == 'f' as u16 {
            self.pos += 1;
            let p = self.pos;
            Ok(Some(self.create_character(0x0C, from - 1, p)))
        } else if c == 'r' as u16 {
            self.pos += 1;
            let p = self.pos;
            Ok(Some(self.create_character(0x0D, from - 1, p)))
        } else if c == 'c' as u16 {
            if let Some(letter) = self.unit(from + 1) {
                let lc = letter as u32;
                if (0x41 <= lc && lc <= 0x5A) || (0x61 <= lc && lc <= 0x7A) {
                    self.pos += 2;
                    let p = self.pos;
                    return Ok(Some(self.create_character(lc % 32, from - 1, p)));
                }
            }
            self.parse_identity_escape()
        } else if c == 'x' as u16 {
            if let Some(value) = self.match_hex(from + 1, 2) {
                self.pos = from + 3;
                let p = self.pos;
                proof {
                    lemma_escape_text(self.units@, from - 1, p as int);
                    assert(self.units@.subrange(from as int, p as int).drop_first() =~= self.units@.subrange(from + 1, p as int));
                }
                return Ok(Some(self.create_character(value, from - 1, p)));
            }
            self.parse_identity_escape()
        } else if c == 'u' as u16 {
            if let Some(node) = self.parse_unicode_escape(from)? {
                return Ok(Some(node));
            }
            self.parse_identity_escape()
        } else {
            self.parse_identity_escape()
        }
    }

    fn parse_unicode_escape(&mut self, from: usize) -> (res: Result<Option<RcNode>, ParseError>)
        requires
            old(self).inv(),
            old(self).pos >= 1,
            old(self).units@[old(self).pos - 1] == 0x5C,
            from == old(self).pos,
            from < old(self).units@.len(),
            old(self).units@[from as int] == 0x75,
        ensures
            final(self).leaf_step(old(self)),
            res matches Ok(Some(n)) ==> {
                &&& node_wf(*n, final(self).units@)
                &&& old(self).pos - 1 <= n.range.0
                &&& n.range.1 <= final(self).pos
                &&& final(self).clean(*n)
                &&& final(self).pos > old(self).pos
                &&& n.kind is Value
            },
            res matches Ok(None) ==> final(self).pos == old(self).pos,
            res is Err <==> unicode_escape_error(old(self).units@, from as int, old(self).unicode),
            (res matches Ok(None)) <==> unicode_escape_missing(old(self).units@, from as int, old(self).unicode),
    {
        // \uXXXX
        if let Some(value) = self.match_hex(from + 1, 4) {
            let end = from + 5;
            // A surrogate pair in unicode mode.
            if self.unicode && 0xD800 <= value && value <= 0xDBFF && self.unit(end) == Some('\\' as u16)
                && self.unit(end + 1) == Some('u' as u16) {
                if let Some(second) = self.match_hex(end + 2, 4) {
                    if 0xDC00 <= second && second <= 0xDFFF {
                        let code_point = (value - 0xD800) * 0x400 + (second - 0xDC00) + 0x10000;
                        self.pos = end + 6;
                        let p = self.pos;
                        proof {
                            lemma_escape_text(self.units@, from - 1, p as int);
                            let e = self.units@.subrange(from as int, p as int);
                            assert(e.subrange(1, 5) =~= self.units@.subrange(from + 1, from + 5));
                            assert(e.subrange(7, 11) =~= self.units@.subrange(from + 7, from + 11));
                            assert(e[5] == self.units@[from + 5]);
                            assert(e[6] == self.units@[from + 6]);
                            assert(escape_reads(e, code_point as int));
                        }
                        return Ok(Some(self.create_character(code_point, from - 1, p)));
                    }
                }
            }
            self.pos = end;
            let p = self.pos;
            proof {
                lemma_escape_text(self.units@, from - 1, p as int);
                assert(self.units@.subrange(from as int, p as int).drop_first() =~= self.units@.subrange(from + 1, p as int));
            }
            return Ok(Some(self.create_character(value, from - 1, p)));
        }
        // \u{XXXX}
        if self.unicode && self.unit(from + 1) == Some('{' as u16) {
            let mut i = from + 2;
            while i < self.units.len() && is_hex_digit(self.units[i])
                invariant
                    from + 2 <= i <= self.units@.len(),
                    forall|j: int| from + 2 <= j < i ==> spec_is_hex_digit(#[trigger] self.units@[j]),
                decreases self.units.len() - i,
            {
                i += 1;
            }
            proof {
                assert forall|j: int| from + 2 <= j < i implies in_unit_class(#[trigger] self.units@[j], UnitClass::Hex) by {
                    assert(spec_is_hex_digit(self.units@[j]));
                }
                lemma_run_len(self.units@, from + 2, i as int, UnitClass::Hex);
            }
            if i > from + 2 && self.unit(i) == Some('}' as u16) {
                let value = self.hex_value_or_zero(from + 2, i);
                if value > 0x10FFFF {
                    return Err(ParseError("Invalid escape sequence".to_string()));
                }
                self.pos = i + 1;
                let p = self.pos;
                proof {
                    lemma_escape_text(self.units@, from - 1, p as int);
                    lemma_all_hex(self.units@, from + 2, i as int);
                    let e = self.units@.subrange(from as int, p as int);
                    assert(e.subrange(2, e.len() - 1) =~= self.units@.subrange(from + 2, i as int));
                    assert(e[0] == self.units@[from as int]);
                    assert(e[1] == self.units@[from + 1]);
                    assert(e.last() == self.units@[i as int]);
                    assert(escape_reads(e, value as int));
                }
                return Ok(Some(self.create_character(value, from - 1, p)));
            }
        }
        Ok(None)
    }

    /// The hexadecimal value of `units[from..to]`, or 0 when it does not fit
    /// in a `u32`.
    fn hex_value_or_zero(&self, from: usize, to: usize) -> (res: u32)
        requires
            from <= to <= self.units@.len(),
            forall|j: int| from <= j < to ==> spec_is_hex_digit(#[trigger] self.units@[j]),
        ensures
            digits_value(self.units@.subrange(from as int, to as int), 16) >= 0,
            res == if digits_value(self.units@.subrange(from as int, to as int), 16) <= u32::MAX {
                digits_value(self.units@.subrange(from as int, to as int), 16) as u32
            } else {
                0u32
            },
    {
        let mut value: u32 = 0;
        let mut overflow = false;
        let mut i = from;
        while i < to
            invariant
                from <= i <= to,
                to <= self.units@.len(),
                forall|j: int| from <= j < to ==> spec_is_hex_digit(#[trigger] self.units@[j]),
                digits_value(self.units@.subrange(from as int, i as int), 16) >= 0,
                !overflow ==> value == digits_value(self.units@.subrange(from as int, i as int), 16),
                overflow <==> digits_value(self.units@.subrange(from as int, i as int), 16) > u32::MAX,
            decreases to - i,
        {
            let digit = hex_digit(self.units[i]);
            let ghost prev = self.units@.subrange(from as int, i as int);
            let ghost next = self.units@.subrange(from as int, i + 1);
            proof {
                assert(next.drop_last() =~= prev);
                assert(next.last() == self.units@[i as int]);
                assert(digits_value(next, 16) == digits_value(prev, 16) * 16 + digit);
            }
            if !overflow {
                match value.checked_mul(16) {
                    Some(v) => match v.checked_add(digit) {
                        Some(w) => {
                            value = w;
                        },
                        None => {
                            overflow = true;
                        },
                    },
                    None => {
                        overflow = true;
                    },
                }
            }
            i += 1;
        }
        if overflow {
            0
        } else {
            value
        }
    }

    /// The value of the `len` hexadecimal digits at `from`, if they are there.
    fn match_hex(&self, from: usize, len: usize) -> (res: Option<u32>)
        requires
            len <= 4,
        ensures
            res == if from + len <= self.units@.len() && all_hex(self.units@.subrange(from as int, from + len)) {
                Some(digits_value(self.units@.subrange(from as int, from + len), 16) as u32)
            } else {
                None::<u32>
            },
            res matches Some(v) ==> v <= 0xFFFF && v == digits_value(self.units@.subrange(from as int, from + len), 16),
    {
        if from > self.units.len() || len > self.units.len() - from {
            return None;
        }
        let mut value: u32 = 0;
        let mut j: usize = 0;
        while j < len
            invariant
                from + len <= self.units.len(),
                len <= 4,
                j <= len,
                all_hex(self.units@.subrange(from as int, from + j)),
                value == digits_value(self.units@.subrange(from as int, from + j), 16),
                j == 0 ==> value == 0,
                j == 1 ==> value < 16,
                j == 2 ==> value < 256,
                j == 3 ==> value < 4096,
                j == 4 ==> value < 65536,
            decreases len - j,
        {
            let u = self.units[from + j];
            let ghost prev = self.units@.subrange(from as int, from + j);
            let ghost next = self.units@.subrange(from as int, from + j + 1);
            if !is_hex_digit(u) {
                proof {
                    let whole = self.units@.subrange(from as int, from + len);
                    assert(whole[j as int] == u);
                }
                return None;
            }
            let digit = hex_digit(u);
            proof {
                assert(next.drop_last() =~= prev);
                assert(next.last() == u);
                assert(digits_value(next, 16) == digits_value(prev, 16) * 16 + digit);
                assert forall|i: int| 0 <= i < next.len() implies spec_is_hex_digit(#[trigger] next[i]) by {
                    if i < prev.len() {
                        assert(next[i] == prev[i]);
                    }
                }
            }
            value = value * 16 + digit;
            j += 1;
        }
        Some(value)
    }

    fn parse_identity_escape(&mut self) -> (res: Result<Option<RcNode>, ParseError>)
        requires
            old(self).inv(),
        ensures
            final(self).leaf_step(old(self)),
            res matches Ok(Some(n)) ==> final(self).produced(old(self), *n) && final(self).pos > old(self).pos
                && n.kind is Value,
            res matches Ok(None) ==> final(self).pos == old(self).pos,
            res is Ok,
            (res matches Ok(Some(n))) <==> identity_escape_at(old(self).units@, old(self).pos as int, old(self).unicode),
            res matches Ok(Some(n)) ==> n.range == (old(self).pos, final(self).pos) && final(self).pos == old(self).pos + 1
                && n.kind == (NodeKind::Value { code_point: old(self).units@[old(self).pos as int] as u32 }),
    {
        let l = match self.current() {
            Some(c) => c,
            None => return Ok(None),
        };
        let allowed = (self.unicode && is_syntax_character(l)) || (!self.unicode && l != 'c' as u16);
        if allowed {
            self.pos += 1;
            let p = self.pos;
            return Ok(Some(self.create_character(l as u32, p - 1, p)));
        }
        Ok(None)
    }

    fn parse_character_class(&mut self) -> (res: Result<RcNode, ParseError>)
        requires
            old(self).inv(),
        ensures
            final(self).leaf_step(old(self)),
            res matches Ok(n) ==> final(self).produced(old(self), *n) && final(self).pos > old(self).pos
                && n.kind is CharacterClass,
            !(old(self).pos < old(self).units@.len() && old(self).units@[old(self).pos as int] == 0x5B) ==> res is Err,
            old(self).pos < old(self).units@.len() && old(self).units@[old(self).pos as int] == 0x5B && class_closes(old(self).units@, class_body_start(old(self).units@, old(self).pos as int)) ==> (res matches Ok(n)
                && n.range.0 == old(self).pos && n.range.1 == class_stop(old(self).units@, class_body_start(old(self).units@, old(self).pos as int)) + 1),
    {
        let from = self.pos;
        let negative = if self.match_str(&[0x5B, 0x5E]) {
            true
        } else if self.match_one('[' as u16) {
            false
        } else {
            return Err(ParseError("character class".to_string()));
        };

        let body = self.parse_class_contents()?;
        if !self.match_one(']' as u16) {
            return Err(ParseError("Expected ]".to_string()));
        }
        let to = self.pos;
        proof {
            lemma_body_wf_widen(body@, self.units@, body_lo_of(from, negative), (to - 1) as usize, from, to);
            let t = self.units@.subrange(from as int, to as int);
            assert(t[0] == self.units@[from as int]);
            assert(t[1] == self.units@[from + 1]);
            if !negative && t[1] == 0x5E {
                assert(self.units@.subrange(from as int, from + 2) =~= seq![0x5Bu16, 0x5E]);
            }
        }
        Ok(self.node((from, to), NodeKind::CharacterClass { negative, body }))
    }

    fn parse_class_contents(&mut self) -> (res: Result<Vec<RcNode>, ParseError>)
        requires
            old(self).inv(),
        ensures
            final(self).leaf_step(old(self)),
            res matches Ok(v) ==> body_wf(v@, final(self).units@, old(self).pos, final(self).pos)
                && final(self).clean_all(v@),
            class_closes(old(self).units@, old(self).pos as int) ==> (res is Ok && final(self).pos == class_stop(old(self).units@, old(self).pos as int)),
            !(old(self).pos < old(self).units@.len() && old(self).units@[old(self).pos as int] == 0x5D) && class_atom_fails(old(self).units@, old(self).pos as int, old(self).unicode, old(self).closed_capture_counter as int, old(self).first_iteration) ==> res is Err,
        decreases old(self).units@.len() - old(self).pos, 4nat,
    {
        proof {
            lemma_run_len_facts(self.units@, self.pos as int, UnitClass::ClassPlain);
        }
        if self.current_one(']' as u16) {
            return Ok(Vec::new());
        }
        self.parse_nonempty_class_ranges()
    }

    fn parse_nonempty_class_ranges(&mut self) -> (res: Result<Vec<RcNode>, ParseError>)
        requires
            old(self).inv(),
        ensures
            final(self).leaf_step(old(self)),
            res matches Ok(v) ==> body_wf(v@, final(self).units@, old(self).pos, final(self).pos)
                && final(self).clean_all(v@),
            class_closes(old(self).units@, old(self).pos as int) && (old(self).pos as int) < class_stop(old(self).units@, old(self).pos as int) ==> (res is Ok
                && final(self).pos == class_stop(old(self).units@, old(self).pos as int)),
            class_atom_fails(old(self).units@, old(self).pos as int, old(self).unicode, old(self).closed_capture_counter as int, old(self).first_iteration) ==> res is Err,
        decreases old(self).units@.len() - old(self).pos, 3nat,
    {
        proof {
            lemma_run_len_facts(self.units@, self.pos as int, UnitClass::ClassPlain);
        }
        let atom = self.parse_class_atom()?;
        proof {
            let u = self.units@;
            let p = old(self).pos as int;
            if class_closes(u, p) && p < class_stop(u, p) {
                if self.pos == p + 2 {
                    assert(in_unit_class(u[p + 1], UnitClass::ClassPlain));
                }
                lemma_run_same_end(u, p, self.pos as int, UnitClass::ClassPlain);
            }
        }
        if self.current_one(']' as u16) {
            proof {
                lemma_body_wf_single(atom, self.units@, old(self).pos, self.pos);
                assert(Seq::<RcNode>::empty().push(atom) == seq![atom]);
                if self.strict() {
                    lemma_none_has_push(Seq::empty(), atom, self.units@);
                }
            }
            let mut v: Vec<RcNode> = Vec::new();
            v.push(atom);
            return Ok(v);
        }
        let res = self.parse_helper_class_contents(atom);
        proof {
            if let Ok(ref v) = res {
                lemma_body_wf_widen(v@, self.units@, atom.range.0, self.pos, old(self).pos, self.pos);
            }
        }
        res
    }

    fn parse_helper_class_contents(&mut self, atom: RcNode) -> (res: Result<Vec<RcNode>, ParseError>)
        requires
            old(self).inv(),
            node_wf(*atom, old(self).units@),
            atom.range.1 <= old(self).pos,
            old(self).clean(*atom),
        ensures
            final(self).leaf_step(old(self)),
            res matches Ok(v) ==> body_wf(v@, final(self).units@, atom.range.0, final(self).pos)
                && final(self).clean_all(v@),
            class_closes(old(self).units@, old(self).pos as int) && (old(self).pos as int) < class_stop(old(self).units@, old(self).pos as int) ==> (res is Ok
                && final(self).pos == class_stop(old(self).units@, old(self).pos as int)),
        decreases old(self).units@.len() - old(self).pos, 2nat,
    {
        proof {
            lemma_run_len_facts(self.units@, self.pos as int, UnitClass::ClassPlain);
        }
        if self.current_one('-' as u16) && self.next_unit() != Some(']' as u16) {
            let from = atom.range.0;
            self.pos += 1;
            let p = self.pos;
            let dash = self.create_character('-' as u32, p - 1, p);
            let atom_to = self.parse_class_atom()?;
            let to = self.pos;
            let mut rest = self.parse_class_contents()?;

            let mut res: Vec<RcNode> = Vec::new();
            let min_cp = atom.code_point();
            let max_cp = atom_to.code_point();
            if min_cp.is_some() && max_cp.is_some() {
                if min_cp.unwrap() > max_cp.unwrap() {
                    return Err(ParseError("Range out of order in character class".to_string()));
                }
                let range_node = self.node(
                    (from, to),
                    NodeKind::CharacterClassRange { min: Rc::clone(&atom), max: Rc::clone(&atom_to) },
                );
                proof {
                    lemma_body_wf_single(range_node, self.units@, from, to);
                }
                res.push(range_node);
            } else if !self.unicode {
                proof {
                    lemma_body_wf_single(atom, self.units@, from, atom.range.1);
                    lemma_body_wf_push(seq![atom], self.units@, from, atom.range.1, dash, dash.range.1);
                    lemma_body_wf_push(seq![atom].push(dash), self.units@, from, dash.range.1, atom_to, to);
                }
                res.push(atom);
                res.push(dash);
                res.push(atom_to);
                proof {
                    assert(res@ =~= seq![atom].push(dash).push(atom_to));
                }
            } else {
                return Err(ParseError("invalid character class".to_string()));
            }
            proof {
                lemma_body_wf_concat(res@, rest@, self.units@, from, to, self.pos);
                if self.strict() {
                    if res@.len() == 1 {
                        assert(Seq::<RcNode>::empty().push(res@[0]) == res@);
                        lemma_none_has_push(Seq::empty(), res@[0], self.units@);
                    }
                    lemma_none_has_concat(res@, rest@, self.units@);
                }
            }
            res.append(&mut rest);
            return Ok(res);
        }

        let mut rest = self.parse_nonempty_class_ranges_no_dash()?;
        let mut res: Vec<RcNode> = Vec::new();
        proof {
            lemma_body_wf_single(atom, self.units@, atom.range.0, old(self).pos);
            lemma_body_wf_concat(seq![atom], rest@, self.units@, atom.range.0, old(self).pos, self.pos);
            if self.strict() {
                assert(Seq::<RcNode>::empty().push(atom) == seq![atom]);
                lemma_none_has_push(Seq::empty(), atom, self.units@);
                lemma_none_has_concat(seq![atom], rest@, self.units@);
            }
        }
        res.push(atom);
        res.append(&mut rest);
        Ok(res)
    }

    fn parse_nonempty_class_ranges_no_dash(&mut self) -> (res: Result<Vec<RcNode>, ParseError>)
        requires
            old(self).inv(),
        ensures
            final(self).leaf_step(old(self)),
            res matches Ok(v) ==> body_wf(v@, final(self).units@, old(self).pos, final(self).pos)
                && final(self).clean_all(v@),
            class_closes(old(self).units@, old(self).pos as int) && (old(self).pos as int) < class_stop(old(self).units@, old(self).pos as int) ==> (res is Ok
                && final(self).pos == class_stop(old(self).units@, old(self).pos as int)),
            class_atom_fails(old(self).units@, old(self).pos as int, old(self).unicode, old(self).closed_capture_counter as int, old(self).first_iteration) ==> res is Err,
        decreases old(self).units@.len() - old(self).pos, 1nat,
    {
        proof {
            lemma_run_len_facts(self.units@, self.pos as int, UnitClass::ClassPlain);
        }
        let atom = self.parse_class_atom()?;
        proof {
            let u = self.units@;
            let p = old(self).pos as int;
            if class_closes(u, p) && p < class_stop(u, p) {
                if self.pos == p + 2 {
                    assert(in_unit_class(u[p + 1], UnitClass::ClassPlain));
                }
                lemma_run_same_end(u, p, self.pos as int, UnitClass::ClassPlain);
            }
        }
        if self.current_one(']' as u16) {
            proof {
                lemma_body_wf_single(atom, self.units@, old(self).pos, self.pos);
                assert(Seq::<RcNode>::empty().push(atom) == seq![atom]);
                if self.strict() {
                    lemma_none_has_push(Seq::empty(), atom, self.units@);
                }
            }
            let mut v: Vec<RcNode> = Vec::new();
            v.push(atom);
            return Ok(v);
        }
        let res = self.parse_helper_class_contents(atom);
        proof {
            if let Ok(ref v) = res {
                lemma_body_wf_widen(v@, self.units@, atom.range.0, self.pos, old(self).pos, self.pos);
            }
        }
        res
    }

    fn parse_class_atom(&mut self) -> (res: Result<RcNode, ParseError>)
        requires
            old(self).inv(),
        ensures
            final(self).leaf_step(old(self)),
            res matches Ok(n) ==> final(self).produced(old(self), *n) && final(self).pos > old(self).pos,
            res is Err <==> class_atom_fails(old(self).units@, old(self).pos as int, old(self).unicode, old(self).closed_capture_counter as int, old(self).first_iteration),
            old(self).pos < old(self).units@.len() && in_unit_class(old(self).units@[old(self).pos as int], UnitClass::ClassPlain) ==> (res is Ok
                && (final(self).pos == old(self).pos + 1 || (final(self).pos == old(self).pos + 2
                && is_low_surrogate(old(self).units@[old(self).pos + 1] as int)))),
    {
        if self.match_one('-' as u16) {
            let p = self.pos;
            return Ok(self.create_character('-' as u32, p - 1, p));
        }
        self.parse_class_atom_no_dash()
    }

    fn parse_class_atom_no_dash(&mut self) -> (res: Result<RcNode, ParseError>)
        requires
            old(self).inv(),
        ensures
            final(self).leaf_step(old(self)),
            res matches Ok(n) ==> final(self).produced(old(self), *n) && final(self).pos > old(self).pos,
            res is Err <==> class_atom_no_dash_fails(
                old(self).units@,
                old(self).pos as int,
                old(self).unicode,
                old(self).closed_capture_counter as int,
                old(self).first_iteration,
            ),
            old(self).pos < old(self).units@.len() && in_unit_class(old(self).units@[old(self).pos as int], UnitClass::ClassPlain) ==> (res is Ok
                && (final(self).pos == old(self).pos + 1 || (final(self).pos == old(self).pos + 2
                && is_low_surrogate(old(self).units@[old(self).pos + 1] as int)))),
    {
        match self.current() {
            Some(c) if c == '\\' as u16 => {
                self.pos += 1;
                match self.parse_atom_escape(true)? {
                    Some(node) => Ok(node),
                    None => {
                        if !self.unicode && self.current_one('c' as u16) {
                            let p = self.pos;
                            Ok(self.create_character('\\' as u32, p - 1, p))
                        } else {
                            Err(ParseError("classEscape".to_string()))
                        }
                    },
                }
            },
            Some(c) if c == ']' as u16 || c == '-' as u16 => Err(ParseError("classAtom".to_string())),
            Some(_) => Ok(self.parse_pattern_character()),
            None => Err(ParseError("classAtom".to_string())),
        }
    }
}

/// Where the contents of a class opened at `from` start.
spec fn body_lo_of(from: usize, negative: bool) -> usize {
    if negative { (from + 2) as usize } else { (from + 1) as usize }
}

/// Returns `true` for an ASCII decimal digit unit.
pub fn is_ascii_digit(u: u16) -> (res: bool)
    ensures
        res == spec_is_ascii_digit(u),
{
    0x30 <= u && u <= 0x39
}

/// Returns `true` for an ASCII octal digit unit.
pub fn is_octal_digit(u: u16) -> (res: bool)
    ensures
        res == spec_is_octal_digit(u),
{
    0x30 <= u && u <= 0x37
}

/// Returns `true` for an ASCII hexadecimal digit unit.
pub fn is_hex_digit(u: u16) -> (res: bool)
    ensures
        res == spec_is_hex_digit(u),
{
    (0x30 <= u && u <= 0x39) || (0x41 <= u && u <= 0x46) || (0x61 <= u && u <= 0x66)
}

/// The value of a hexadecimal digit unit.
fn hex_digit(u: u16) -> (res: u32)
    requires
        spec_is_hex_digit(u),
    ensures
        res == hex_digit_value(u),
        res < 16,
{
    if 0x30 <= u && u <= 0x39 {
        (u - 0x30) as u32
    } else if 0x41 <= u && u <= 0x46 {
        (u - 0x41 + 10) as u32
    } else {
        (u - 0x61 + 10) as u32
    }
}

/// `true` for the characters `^$.*+?()\[]{}|/`, which unicode mode allows
/// after a backslash.
fn is_syntax_character(u: u16) -> (res: bool)
    ensures
        res == (u == 0x5E || u == 0x24 || u == 0x2E || u == 0x2A || u == 0x2B || u == 0x3F
            || u == 0x28 || u == 0x29 || u == 0x5C || u == 0x5B || u == 0x5D || u == 0x7B
            || u == 0x7D || u == 0x7C || u == 0x2F),
{
    u == 0x5E || u == 0x24 || u == 0x2E || u == 0x2A || u == 0x2B || u == 0x3F || u == 0x28
        || u == 0x29 || u == 0x5C || u == 0x5B || u == 0x5D || u == 0x7B || u == 0x7D || u == 0x7C
        || u == 0x2F
}


} // verus!
