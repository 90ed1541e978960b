//! Level 0: split markers and the stack frames carried by reader values.
use crate::ast::{AnchorKind, ClassEscape, GroupBehavior, Node, NodeKind, RcNode};
use crate::character_groups::{first_with_key, lemma_in_any_concat, lemma_in_any_push, lookup, CharacterGroups, EscapeMap};
use crate::code_point::{
    build_code_point_ranges, code_point_from_value, code_point_ranges, lemma_folded_ranges_hold_the_upper_images,
    upper_case_code_point, upper_image,
};
use crate::our_range::{gap, in_any, in_range, invert_ranges, is_bad_gap, kept_gaps, range_ok, Bound, OurRange};
use std::rc::Rc;
use vstd::prelude::*;

verus! {

/// A lookaround marker on a split.
#[derive(Clone, Copy, Debug, PartialEq, Eq, Structural)]
pub enum SplitSubType {
    /// A plain branch (disjunction or quantifier stop).
    Branch,
    /// A positive lookahead.
    Lookahead,
    /// A negative lookahead.
    NegativeLookahead,
    /// A positive lookbehind.
    Lookbehind,
    /// A negative lookbehind.
    NegativeLookbehind,
}

impl SplitSubType {
    /// The split sub-type of a group behavior.
    pub open spec fn spec_from_behavior(behavior: GroupBehavior) -> SplitSubType {
        match behavior {
            GroupBehavior::Lookahead => SplitSubType::Lookahead,
            GroupBehavior::NegativeLookahead => SplitSubType::NegativeLookahead,
            GroupBehavior::Lookbehind => SplitSubType::Lookbehind,
            GroupBehavior::NegativeLookbehind => SplitSubType::NegativeLookbehind,
            _ => SplitSubType::Branch,
        }
    }

    /// Maps a group behavior to the matching split sub-type.
    pub fn from_behavior(behavior: GroupBehavior) -> (res: Self)
        ensures
            res == Self::spec_from_behavior(behavior),
    {
        match behavior {
            GroupBehavior::Lookahead => SplitSubType::Lookahead,
            GroupBehavior::NegativeLookahead => SplitSubType::NegativeLookahead,
            GroupBehavior::Lookbehind => SplitSubType::Lookbehind,
            GroupBehavior::NegativeLookbehind => SplitSubType::NegativeLookbehind,
            _ => SplitSubType::Branch,
        }
    }
}

/// One stack frame describing the nesting that produced an entry.
#[derive(Clone, Debug)]
pub enum StackEntry {
    /// A group frame.
    Group { group: RcNode },
    /// A quantifier frame at a given iteration.
    Quantifier { iteration: u64, quantifier: RcNode },
    /// A backreference frame added by level 2.
    Reference { reference: RcNode },
}

/// The group of a frame that is a group frame.
pub open spec fn frame_group(entry: StackEntry) -> Option<RcNode> {
    match entry {
        StackEntry::Group { group } => Some(group),
        _ => None,
    }
}

/// A group frame whose group is a lookaround.
pub open spec fn is_lookaround_frame(entry: StackEntry) -> bool {
    match entry {
        StackEntry::Group { group } => match group.kind {
            NodeKind::Group { behavior, body } => behavior.spec_is_lookaround(),
            _ => false,
        },
        _ => false,
    }
}

/// The groups of the group frames of a stack, in stack order.
pub open spec fn groups_of(stack: Seq<StackEntry>) -> Seq<RcNode>
    decreases stack.len(),
{
    if stack.len() == 0 {
        Seq::<RcNode>::empty()
    } else {
        let rest = groups_of(stack.drop_last());
        match frame_group(stack.last()) {
            Some(g) => rest.push(g),
            None => rest,
        }
    }
}

/// The lookaround groups of the group frames of a stack, in stack order.
pub open spec fn lookarounds_of(stack: Seq<StackEntry>) -> Seq<RcNode>
    decreases stack.len(),
{
    if stack.len() == 0 {
        Seq::<RcNode>::empty()
    } else {
        let rest = lookarounds_of(stack.drop_last());
        if is_lookaround_frame(stack.last()) {
            rest.push(frame_group(stack.last()).unwrap())
        } else {
            rest
        }
    }
}

/// Returns the group frames in a stack, in stack order.
pub fn get_groups(stack: &Vec<StackEntry>) -> (res: Vec<RcNode>)
    ensures
        res@ == groups_of(stack@),
{
    let mut out: Vec<RcNode> = Vec::new();
    let mut i: usize = 0;
    while i < stack.len()
        invariant
            i <= stack@.len(),
            out@ == groups_of(stack@.take(i as int)),
        decreases stack.len() - i,
    {
        proof {
            assert(stack@.take(i + 1).drop_last() =~= stack@.take(i as int));
            assert(stack@.take(i + 1).last() == stack@[i as int]);
        }
        match &stack[i] {
            StackEntry::Group { group } => {
                out.push(Rc::clone(group));
            },
            _ => {},
        }
        i += 1;
    }
    proof {
        assert(stack@.take(i as int) =~= stack@);
    }
    out
}

/// Returns the lookaround group frames in a stack, in stack order.
pub fn get_lookahead_stack(stack: &Vec<StackEntry>) -> (res: Vec<RcNode>)
    ensures
        res@ == lookarounds_of(stack@),
{
    let mut out: Vec<RcNode> = Vec::new();
    let mut i: usize = 0;
    while i < stack.len()
        invariant
            i <= stack@.len(),
            out@ == lookarounds_of(stack@.take(i as int)),
        decreases stack.len() - i,
    {
        proof {
            assert(stack@.take(i + 1).drop_last() =~= stack@.take(i as int));
            assert(stack@.take(i + 1).last() == stack@[i as int]);
        }
        match &stack[i] {
            StackEntry::Group { group } => {
                if let NodeKind::Group { behavior, .. } = &group.kind {
                    if behavior.is_lookaround() {
                        out.push(Rc::clone(group));
                    }
                }
            },
            _ => {},
        }
        i += 1;
    }
    proof {
        assert(stack@.take(i as int) =~= stack@);
    }
    out
}


/// Returns a frame equal to `entry`; the nodes are shared, not copied.
pub fn copy_frame(entry: &StackEntry) -> (res: StackEntry)
    ensures
        res == *entry,
{
    match entry {
        StackEntry::Group { group } => StackEntry::Group { group: Rc::clone(group) },
        StackEntry::Quantifier { iteration, quantifier } => StackEntry::Quantifier {
            iteration: *iteration,
            quantifier: Rc::clone(quantifier),
        },
        StackEntry::Reference { reference } => StackEntry::Reference { reference: Rc::clone(reference) },
    }
}

/// Returns a stack equal to `stack`.
pub fn copy_stack(stack: &Vec<StackEntry>) -> (res: Vec<StackEntry>)
    ensures
        res@ == stack@,
{
    let mut out: Vec<StackEntry> = Vec::new();
    let mut i: usize = 0;
    while i < stack.len()
        invariant
            i <= stack@.len(),
            out@ == stack@.take(i as int),
        decreases stack.len() - i,
    {
        out.push(copy_frame(&stack[i]));
        proof {
            assert(stack@.take(i + 1) =~= stack@.take(i as int).push(stack@[i as int]));
        }
        i += 1;
    }
    proof {
        assert(stack@.take(i as int) =~= stack@);
    }
    out
}

/// A value produced by a level-0 reader. `G` is the character set of a
/// consumed character and `F` builds the reader of a split's branch.
pub enum CharacterReaderValue<G, F> {
    /// A branch point.
    Split { reader: F, sub_type: SplitSubType },
    /// A consumed character with its character set.
    Groups { character_groups: G, node: RcNode, stack: Vec<StackEntry> },
    /// A backreference not yet expanded.
    Reference { node: RcNode, reference_index: u64, stack: Vec<StackEntry> },
    /// The pattern end; `bounded` is `true` for a hard `$`.
    End { bounded: bool, offset: usize, stack: Vec<StackEntry> },
    /// A zero-width null marker.
    Null { offset: usize, stack: Vec<StackEntry> },
    /// A `^` start anchor was passed.
    Start { offset: usize, stack: Vec<StackEntry> },
}

impl<G, F> CharacterReaderValue<G, F> {
    /// Null, start and end markers.
    pub open spec fn spec_is_zero_width_or_end(&self) -> bool {
        self is Null || self is Start || self is End
    }

    /// Returns `true` for null, start and end markers.
    pub fn is_zero_width_or_end(&self) -> (res: bool)
        ensures
            res == self.spec_is_zero_width_or_end(),
    {
        match self {
            CharacterReaderValue::Null { .. } => true,
            CharacterReaderValue::Start { .. } => true,
            CharacterReaderValue::End { .. } => true,
            _ => false,
        }
    }
}

/// `value` with `frame` put in front of its stack; a split has no stack and
/// is unchanged.
pub open spec fn pushed_frame<G, F>(
    value: CharacterReaderValue<G, F>,
    frame: StackEntry,
    res: CharacterReaderValue<G, F>,
) -> bool {
    match value {
        CharacterReaderValue::Split { .. } => res == value,
        CharacterReaderValue::Groups { character_groups, node, stack } => res matches CharacterReaderValue::Groups {
            character_groups: g2,
            node: n2,
            stack: s2,
        } && g2 == character_groups && n2 == node && s2@ == seq![frame] + stack@,
        CharacterReaderValue::Reference { node, reference_index, stack } => res matches CharacterReaderValue::Reference {
            node: n2,
            reference_index: r2,
            stack: s2,
        } && n2 == node && r2 == reference_index && s2@ == seq![frame] + stack@,
        CharacterReaderValue::End { bounded, offset, stack } => res matches CharacterReaderValue::End {
            bounded: b2,
            offset: o2,
            stack: s2,
        } && b2 == bounded && o2 == offset && s2@ == seq![frame] + stack@,
        CharacterReaderValue::Null { offset, stack } => res matches CharacterReaderValue::Null {
            offset: o2,
            stack: s2,
        } && o2 == offset && s2@ == seq![frame] + stack@,
        CharacterReaderValue::Start { offset, stack } => res matches CharacterReaderValue::Start {
            offset: o2,
            stack: s2,
        } && o2 == offset && s2@ == seq![frame] + stack@,
    }
}

/// Returns `value` with `frame` put in front of its stack.
pub fn with_pushed_frame<G, F>(value: CharacterReaderValue<G, F>, frame: StackEntry) -> (res:
    CharacterReaderValue<G, F>)
    ensures
        pushed_frame(value, frame, res),
{
    match value {
        CharacterReaderValue::Groups { character_groups, node, mut stack } => {
            let ghost before = stack@;
            stack.insert(0, frame);
            assert(stack@ =~= seq![frame] + before);
            CharacterReaderValue::Groups { character_groups, node, stack }
        },
        CharacterReaderValue::Reference { node, reference_index, mut stack } => {
            let ghost before = stack@;
            stack.insert(0, frame);
            assert(stack@ =~= seq![frame] + before);
            CharacterReaderValue::Reference { node, reference_index, stack }
        },
        CharacterReaderValue::End { bounded, offset, mut stack } => {
            let ghost before = stack@;
            stack.insert(0, frame);
            assert(stack@ =~= seq![frame] + before);
            CharacterReaderValue::End { bounded, offset, stack }
        },
        CharacterReaderValue::Null { offset, mut stack } => {
            let ghost before = stack@;
            stack.insert(0, frame);
            assert(stack@ =~= seq![frame] + before);
            CharacterReaderValue::Null { offset, stack }
        },
        CharacterReaderValue::Start { offset, mut stack } => {
            let ghost before = stack@;
            stack.insert(0, frame);
            assert(stack@ =~= seq![frame] + before);
            CharacterReaderValue::Start { offset, stack }
        },
        CharacterReaderValue::Split { reader, sub_type } => CharacterReaderValue::Split { reader, sub_type },
    }
}


/// The code points of `\d`.
pub open spec fn digit_ranges() -> Seq<OurRange> {
    seq![(Bound::Finite(48), Bound::Finite(57))]
}

/// The code points of `\w`.
pub open spec fn word_ranges() -> Seq<OurRange> {
    seq![
        (Bound::Finite(48), Bound::Finite(57)),
        (Bound::Finite(65), Bound::Finite(90)),
        (Bound::Finite(95), Bound::Finite(95)),
        (Bound::Finite(97), Bound::Finite(122)),
    ]
}

/// The code points of `\s`.
pub open spec fn space_ranges() -> Seq<OurRange> {
    seq![
        (Bound::Finite(9), Bound::Finite(9)),
        (Bound::Finite(10), Bound::Finite(10)),
        (Bound::Finite(11), Bound::Finite(11)),
        (Bound::Finite(12), Bound::Finite(12)),
        (Bound::Finite(13), Bound::Finite(13)),
        (Bound::Finite(32), Bound::Finite(32)),
        (Bound::Finite(160), Bound::Finite(160)),
        (Bound::Finite(5760), Bound::Finite(5760)),
        (Bound::Finite(8192), Bound::Finite(8202)),
        (Bound::Finite(8232), Bound::Finite(8233)),
        (Bound::Finite(8239), Bound::Finite(8239)),
        (Bound::Finite(8287), Bound::Finite(8287)),
        (Bound::Finite(12288), Bound::Finite(12288)),
        (Bound::Finite(65279), Bound::Finite(65279)),
    ]
}

/// The ranges a character-class escape matches; the upper-case escapes
/// match the gaps around those of their lower-case counterpart.
pub open spec fn spec_class_escape_ranges(value: ClassEscape) -> Seq<OurRange> {
    match value {
        ClassEscape::D => digit_ranges(),
        ClassEscape::DUpper => kept_gaps(digit_ranges(), digit_ranges().len() as int + 1),
        ClassEscape::W => word_ranges(),
        ClassEscape::WUpper => kept_gaps(word_ranges(), word_ranges().len() as int + 1),
        ClassEscape::S => space_ranges(),
        ClassEscape::SUpper => kept_gaps(space_ranges(), space_ranges().len() as int + 1),
    }
}

/// Every range leaves room to add or subtract one.
pub open spec fn all_ranges_ok(rs: Seq<OurRange>) -> bool {
    forall|i: int| 0 <= i < rs.len() ==> range_ok(#[trigger] rs[i])
}

proof fn lemma_kept_gaps_ok(rs: Seq<OurRange>, n: int)
    requires
        all_ranges_ok(rs),
        0 <= n <= rs.len() + 1,
        forall|i: int| 0 <= i < rs.len() ==> (#[trigger] rs[i]).0 is Finite && rs[i].1 is Finite && -10 <= rs[i].0->0
            && rs[i].1->0 <= 100000,
    ensures
        all_ranges_ok(kept_gaps(rs, n)),
    decreases n,
{
    if n > 0 {
        lemma_kept_gaps_ok(rs, n - 1);
        let rest = kept_gaps(rs, n - 1);
        let g = gap(rs, n - 1);
        if n - 1 >= 1 {
            assert(rs[n - 2].1 is Finite);
        }
        if n - 1 < rs.len() {
            assert(rs[n - 1].0 is Finite);
        }
        assert(range_ok(g));
        assert forall|i: int| 0 <= i < kept_gaps(rs, n).len() implies range_ok(#[trigger] kept_gaps(rs, n)[i]) by {
            if i < rest.len() {
                assert(kept_gaps(rs, n)[i] == rest[i] || kept_gaps(rs, n) == rest);
            }
        }
    }
}

/// Returns the ranges of the complement of `rs`, which are sorted with gaps.
fn inverted(rs: Vec<OurRange>) -> (res: Vec<OurRange>)
    requires
        all_ranges_ok(rs@),
        forall|i: int| 0 <= i <= rs@.len() ==> !is_bad_gap(#[trigger] gap(rs@, i)),
    ensures
        res@ == kept_gaps(rs@, rs@.len() as int + 1),
{
    match invert_ranges(&rs) {
        Ok(v) => v,
        Err(_) => {
            proof {
                assert(false);
            }
            Vec::new()
        },
    }
}

/// Returns the ranges a `\d \D \w \W \s \S` escape matches.
pub fn class_escape_ranges(value: ClassEscape) -> (res: Vec<OurRange>)
    ensures
        res@ == spec_class_escape_ranges(value),
        all_ranges_ok(res@),
{
    let d: Vec<OurRange> = vec![(Bound::Finite(48), Bound::Finite(57))];
    let w: Vec<OurRange> = vec![
        (Bound::Finite(48), Bound::Finite(57)),
        (Bound::Finite(65), Bound::Finite(90)),
        (Bound::Finite(95), Bound::Finite(95)),
        (Bound::Finite(97), Bound::Finite(122)),
    ];
    let s: Vec<OurRange> = vec![
        (Bound::Finite(9), Bound::Finite(9)),
        (Bound::Finite(10), Bound::Finite(10)),
        (Bound::Finite(11), Bound::Finite(11)),
        (Bound::Finite(12), Bound::Finite(12)),
        (Bound::Finite(13), Bound::Finite(13)),
        (Bound::Finite(32), Bound::Finite(32)),
        (Bound::Finite(160), Bound::Finite(160)),
        (Bound::Finite(5760), Bound::Finite(5760)),
        (Bound::Finite(8192), Bound::Finite(8202)),
        (Bound::Finite(8232), Bound::Finite(8233)),
        (Bound::Finite(8239), Bound::Finite(8239)),
        (Bound::Finite(8287), Bound::Finite(8287)),
        (Bound::Finite(12288), Bound::Finite(12288)),
        (Bound::Finite(65279), Bound::Finite(65279)),
    ];
    proof {
        assert(d@ =~= digit_ranges());
        assert(w@ =~= word_ranges());
        assert(s@ =~= space_ranges());
        assert forall|i: int| 0 <= i <= d@.len() implies !is_bad_gap(#[trigger] gap(d@, i)) by {}
        assert forall|i: int| 0 <= i <= w@.len() implies !is_bad_gap(#[trigger] gap(w@, i)) by {}
        assert forall|i: int| 0 <= i <= s@.len() implies !is_bad_gap(#[trigger] gap(s@, i)) by {}
        lemma_kept_gaps_ok(d@, d@.len() as int + 1);
        lemma_kept_gaps_ok(w@, w@.len() as int + 1);
        lemma_kept_gaps_ok(s@, s@.len() as int + 1);
    }
    match value {
        ClassEscape::D => d,
        ClassEscape::DUpper => inverted(d),
        ClassEscape::W => w,
        ClassEscape::WUpper => inverted(w),
        ClassEscape::S => s,
        ClassEscape::SUpper => inverted(s),
    }
}


/// The code point a value matches, folded to uppercase when requested.
pub open spec fn folded(case_insensitive: bool, code_point: u32) -> u32 {
    if case_insensitive {
        upper_case_code_point(code_point)
    } else {
        code_point
    }
}

/// Returns the set of a literal code point: that code point, folded to
/// uppercase when `case_insensitive`.
pub fn value_groups(case_insensitive: bool, code_point: u32) -> (res: CharacterGroups)
    ensures
        !res.ranges_negated,
        res.ranges@ == seq![
            (Bound::Finite(folded(case_insensitive, code_point) as i64), Bound::Finite(folded(case_insensitive, code_point) as i64)),
        ],
        res.unicode_property_escapes.entries@.len() == 0,
{
    let cp = code_point_from_value(case_insensitive, code_point);
    let ranges: Vec<OurRange> = vec![(Bound::Finite(cp as i64), Bound::Finite(cp as i64))];
    proof {
        assert(ranges@ =~= seq![(Bound::Finite(cp as i64), Bound::Finite(cp as i64))]);
    }
    CharacterGroups { ranges, ranges_negated: false, unicode_property_escapes: EscapeMap::new() }
}

/// The code points `.` leaves out without the `s` flag: line terminators.
pub open spec fn line_terminators() -> Seq<OurRange> {
    seq![(Bound::Finite(10), Bound::Finite(10)), (Bound::Finite(13), Bound::Finite(13)), (Bound::Finite(8232), Bound::Finite(8233))]
}

/// Returns the set of `.`: everything, or everything but the line
/// terminators without the `s` flag.
pub fn dot_groups(dot_all: bool) -> (res: CharacterGroups)
    ensures
        res.ranges_negated,
        res.ranges@ == if dot_all {
            Seq::<OurRange>::empty()
        } else {
            line_terminators()
        },
        res.unicode_property_escapes.entries@.len() == 0,
{
    let ranges: Vec<OurRange> = if dot_all {
        Vec::new()
    } else {
        vec![(Bound::Finite(10), Bound::Finite(10)), (Bound::Finite(13), Bound::Finite(13)), (Bound::Finite(8232), Bound::Finite(8233))]
    };
    proof {
        if !dot_all {
            assert(ranges@ =~= line_terminators());
        }
    }
    CharacterGroups { ranges, ranges_negated: true, unicode_property_escapes: EscapeMap::new() }
}

/// Returns the set of a `\d \D \w \W \s \S` escape.
pub fn class_escape_groups(value: ClassEscape) -> (res: CharacterGroups)
    ensures
        !res.ranges_negated,
        res.ranges@ == spec_class_escape_ranges(value),
        res.unicode_property_escapes.entries@.len() == 0,
{
    CharacterGroups { ranges: class_escape_ranges(value), ranges_negated: false, unicode_property_escapes: EscapeMap::new() }
}

/// Returns the set of a `\p{..}` or `\P{..}` escape: no range and the one
/// escape with its sign.
pub fn property_escape_groups(negative: bool, value: String) -> (res: CharacterGroups)
    ensures
        !res.ranges_negated,
        res.ranges@.len() == 0,
        res.unicode_property_escapes.entries@ == seq![(value, negative)],
{
    CharacterGroups { ranges: Vec::new(), ranges_negated: false, unicode_property_escapes: EscapeMap::single(value, negative) }
}

/// The escape list after setting `key` to `negated`: the first entry with the
/// key takes the flag, or the entry is added at the end.
pub open spec fn escapes_set(entries: Seq<(String, bool)>, key: String, negated: bool) -> Seq<(String, bool)> {
    match first_with_key(entries, key@) {
        Some(i) => entries.update(i, (entries[i].0, negated)),
        None => entries.push((key, negated)),
    }
}

/// The lower bound of a class range: the code point of its first node, or 0.
pub open spec fn code_point_or_zero(n: Node) -> u32 {
    match n.spec_code_point() {
        Some(c) => c,
        None => 0,
    }
}

/// Reading the items of a class in turn: the ranges so far, the escapes so
/// far, and whether an escape met with both signs made the class match
/// everything, after which the rest is not read.
pub open spec fn class_step(
    state: (Seq<OurRange>, Seq<(String, bool)>, bool),
    item: Node,
    case_insensitive: bool,
    negative: bool,
) -> (Seq<OurRange>, Seq<(String, bool)>, bool) {
    let (ranges, escapes, everything) = state;
    if everything {
        state
    } else {
        match item.kind {
            NodeKind::Value { code_point } => {
                let cp = folded(case_insensitive, code_point) as i64;
                (ranges.push((Bound::Finite(cp), Bound::Finite(cp))), escapes, false)
            },
            NodeKind::CharacterClassRange { min, max } => (
                ranges + code_point_ranges(case_insensitive, code_point_or_zero(*min), code_point_or_zero(*max)),
                escapes,
                false,
            ),
            NodeKind::CharacterClassEscape { value } => (ranges + spec_class_escape_ranges(value), escapes, false),
            NodeKind::UnicodePropertyEscape { negative: item_negative, value } => {
                let resolved = item_negative != negative;
                if lookup(escapes, value@) == Some(!resolved) {
                    (ranges, escapes, true)
                } else {
                    (ranges, escapes_set(escapes, value, resolved), false)
                }
            },
            _ => state,
        }
    }
}

/// Reading the first items of a class.
pub open spec fn class_fold(items: Seq<RcNode>, case_insensitive: bool, negative: bool) -> (Seq<OurRange>, Seq<(String, bool)>, bool)
    decreases items.len(),
{
    if items.len() == 0 {
        (Seq::empty(), Seq::empty(), false)
    } else {
        class_step(class_fold(items.drop_last(), case_insensitive, negative), *items.last(), case_insensitive, negative)
    }
}

/// Returns the set of a `[...]` class with items `body`: the ranges of its
/// items in order, negated for `[^...]`, with its property escapes. An
/// escape met once with each sign, after resolving the class's own sign,
/// makes the class match everything.
pub fn character_class_groups(case_insensitive: bool, negative: bool, body: &Vec<RcNode>) -> (res: CharacterGroups)
    ensures
        ({
            let (ranges, escapes, everything) = class_fold(body@, case_insensitive, negative);
            if everything {
                &&& res.ranges_negated
                &&& res.ranges@.len() == 0
                &&& res.unicode_property_escapes.entries@.len() == 0
            } else {
                &&& res.ranges_negated == negative
                &&& res.ranges@ == ranges
                &&& res.unicode_property_escapes.entries@ == escapes
            }
        }),
{
    let mut ranges: Vec<OurRange> = Vec::new();
    let mut escapes = EscapeMap::new();
    let mut matches_everything = false;
    let mut i: usize = 0;
    while i < body.len() && !matches_everything
        invariant
            i <= body@.len(),
            matches_everything ==> class_fold(body@, case_insensitive, negative).2,
            !matches_everything ==> class_fold(body@.take(i as int), case_insensitive, negative) == (
                ranges@,
                escapes.entries@,
                false,
            ),
        decreases body.len() - i,
    {
        proof {
            assert(body@.take(i + 1).drop_last() =~= body@.take(i as int));
            assert(body@.take(i + 1).last() == body@[i as int]);
        }
        let expression = &body[i];
        match &expression.kind {
            NodeKind::Value { code_point } => {
                let cp = code_point_from_value(case_insensitive, *code_point);
                ranges.push((Bound::Finite(cp as i64), Bound::Finite(cp as i64)));
            },
            NodeKind::CharacterClassRange { min, max } => {
                let low = match min.code_point() {
                    Some(c) => c,
                    None => 0,
                };
                let high = match max.code_point() {
                    Some(c) => c,
                    None => 0,
                };
                let mut more = build_code_point_ranges(case_insensitive, low, high);
                ranges.append(&mut more);
            },
            NodeKind::CharacterClassEscape { value } => {
                let mut more = class_escape_ranges(*value);
                ranges.append(&mut more);
            },
            NodeKind::UnicodePropertyEscape { negative: expr_negative, value } => {
                let resolved_negative = *expr_negative != negative;
                let current = escapes.get(value.as_str());
                if current == Some(!resolved_negative) {
                    matches_everything = true;
                    proof {
                        assert(class_fold(body@.take(i + 1), case_insensitive, negative).2);
                        lemma_class_fold_stays(body@, i + 1, case_insensitive, negative);
                    }
                } else {
                    escapes.set(value.clone(), resolved_negative);
                }
            },
            _ => {},
        }
        i += 1;
    }
    proof {
        if !matches_everything {
            assert(body@.take(i as int) =~= body@);
        }
    }
    if matches_everything {
        CharacterGroups { ranges: Vec::new(), ranges_negated: true, unicode_property_escapes: EscapeMap::new() }
    } else {
        CharacterGroups { ranges, ranges_negated: negative, unicode_property_escapes: escapes }
    }
}

/// Once a class matches everything, reading more items keeps it so.
proof fn lemma_class_fold_stays(items: Seq<RcNode>, k: int, case_insensitive: bool, negative: bool)
    requires
        0 <= k <= items.len(),
        class_fold(items.take(k), case_insensitive, negative).2,
    ensures
        class_fold(items, case_insensitive, negative).2,
    decreases items.len() - k,
{
    if k < items.len() {
        assert(items.take(k + 1).drop_last() =~= items.take(k));
        lemma_class_fold_stays(items, k + 1, case_insensitive, negative);
    } else {
        assert(items.take(k) =~= items);
    }
}


/// Whether an item of a class matches the character `c` under the i flag:
/// a character when `c` is its simple uppercase form, a range when `c` is
/// the simple uppercase form of one of its code points, a class escape when
/// one of its ranges holds `c`.
pub open spec fn item_matches_folded(item: Node, c: int) -> bool {
    match item.kind {
        NodeKind::Value { code_point } => c == upper_case_code_point(code_point),
        NodeKind::CharacterClassRange { min, max } => upper_image(code_point_or_zero(*min), code_point_or_zero(*max), c),
        NodeKind::CharacterClassEscape { value } => in_any(spec_class_escape_ranges(value), c),
        _ => false,
    }
}

/// Under the i flag a literal character matches exactly its simple
/// uppercase form, and without it exactly itself.
pub proof fn lemma_literal_matches_its_fold(node: Node, case_insensitive: bool, dot_all: bool, c: int)
    requires
        node.kind is Value,
    ensures
        leaf_groups(case_insensitive, dot_all, node) matches Some(g) && !g.0 && g.2.len() == 0 && (in_any(g.1, c) <==> c
            == if case_insensitive {
            upper_case_code_point(node.kind->Value_code_point) as int
        } else {
            node.kind->Value_code_point as int
        }),
{
    let g = leaf_groups(case_insensitive, dot_all, node).unwrap();
    if in_any(g.1, c) {
        let i = choose|i: int| 0 <= i < g.1.len() && in_range(#[trigger] g.1[i], c);
        assert(i == 0);
    }
    if c == folded(case_insensitive, node.kind->Value_code_point) as int {
        assert(in_range(g.1[0], c));
    }
}

/// The code points at the two ends of a class range.
pub open spec fn range_ends(item: Node) -> (u32, u32) {
    match item.kind {
        NodeKind::CharacterClassRange { min, max } => (code_point_or_zero(*min), code_point_or_zero(*max)),
        _ => (0, 0),
    }
}

/// Under the i flag, the ranges of a class without property escapes hold a
/// character exactly when one of its items matches it, a range by the
/// simple uppercase forms of all its code points; so `[a-c]` and `[A-C]`
/// give the same set.
pub proof fn lemma_folded_class_matches_its_items(negative: bool, body: Seq<RcNode>, c: int)
    requires
        forall|k: int| 0 <= k < body.len() ==> !((#[trigger] body[k]).kind is UnicodePropertyEscape),
    ensures
        !class_fold(body, true, negative).2,
        class_groups(true, negative, body).0 == negative,
        in_any(class_groups(true, negative, body).1, c) <==> exists|k: int|
            0 <= k < body.len() && item_matches_folded(*#[trigger] body[k], c),
    decreases body.len(),
{
    if body.len() > 0 {
        let prefix = body.drop_last();
        assert forall|k: int| 0 <= k < prefix.len() implies !((#[trigger] prefix[k]).kind is UnicodePropertyEscape) by {
            assert(prefix[k] == body[k]);
        }
        lemma_folded_class_matches_its_items(negative, prefix, c);
        let st = class_fold(prefix, true, negative);
        let item = *body.last();
        assert(!(item.kind is UnicodePropertyEscape)) by {
            assert(body[body.len() - 1] == body.last());
        }
        let r = class_step(st, item, true, negative);
        assert(class_fold(body, true, negative) == r);
        assert(!st.2);
        match item.kind {
            NodeKind::Value { code_point } => {
                let cp = folded(true, code_point) as i64;
                lemma_in_any_push(st.0, (Bound::Finite(cp), Bound::Finite(cp)), c);
            },
            NodeKind::CharacterClassRange { .. } => {
                let (lo, hi) = range_ends(item);
                lemma_in_any_concat(st.0, code_point_ranges(true, lo, hi), c);
                lemma_folded_ranges_hold_the_upper_images(lo, hi);
            },
            NodeKind::CharacterClassEscape { value } => {
                lemma_in_any_concat(st.0, spec_class_escape_ranges(value), c);
            },
            _ => {},
        }
        assert((exists|k: int| 0 <= k < body.len() && item_matches_folded(*#[trigger] body[k], c)) <==> ((exists|k: int|
            0 <= k < prefix.len() && item_matches_folded(*#[trigger] prefix[k], c)) || item_matches_folded(item, c))) by {
            if exists|k: int| 0 <= k < body.len() && item_matches_folded(*#[trigger] body[k], c) {
                let k = choose|k: int| 0 <= k < body.len() && item_matches_folded(*#[trigger] body[k], c);
                if k < prefix.len() {
                    assert(prefix[k] == body[k]);
                }
            }
            if exists|k: int| 0 <= k < prefix.len() && item_matches_folded(*#[trigger] prefix[k], c) {
                let k = choose|k: int| 0 <= k < prefix.len() && item_matches_folded(*#[trigger] prefix[k], c);
                assert(prefix[k] == body[k]);
            }
            if item_matches_folded(item, c) {
                assert(body[body.len() - 1] == item);
            }
        }
    }
}

/// The set of a class `[...]` or `[^...]`: its sign, ranges and escapes.
pub open spec fn class_groups(case_insensitive: bool, negative: bool, body: Seq<RcNode>) -> (bool, Seq<OurRange>, Seq<(String, bool)>) {
    let (ranges, escapes, everything) = class_fold(body, case_insensitive, negative);
    if everything {
        (true, Seq::empty(), Seq::empty())
    } else {
        (negative, ranges, escapes)
    }
}

/// The set a character-consuming leaf node matches, as its sign, ranges and
/// escapes; `None` for the other nodes.
pub open spec fn leaf_groups(case_insensitive: bool, dot_all: bool, node: Node) -> Option<(bool, Seq<OurRange>, Seq<(String, bool)>)> {
    match node.kind {
        NodeKind::Value { code_point } => {
            let cp = folded(case_insensitive, code_point) as i64;
            Some((false, seq![(Bound::Finite(cp), Bound::Finite(cp))], Seq::empty()))
        },
        NodeKind::Dot => Some((true, if dot_all {
            Seq::empty()
        } else {
            line_terminators()
        }, Seq::empty())),
        NodeKind::CharacterClassEscape { value } => Some((false, spec_class_escape_ranges(value), Seq::empty())),
        NodeKind::UnicodePropertyEscape { negative, value } => Some((false, Seq::empty(), seq![(value, negative)])),
        NodeKind::CharacterClass { negative, body } => Some(class_groups(case_insensitive, negative, body@)),
        _ => None,
    }
}

/// What the level-0 reader of a node yields when the node has no children
/// to read.
pub enum NodeReading<F> {
    /// The node yields this one value.
    One(CharacterReaderValue<Rc<CharacterGroups>, F>),
    /// The node yields nothing.
    Nothing,
    /// The node is read through the readers of its children.
    Composite,
}

fn groups_of_value(g: CharacterGroups) -> (res: Rc<CharacterGroups>)
    ensures
        *res == g,
{
    Rc::new(g)
}

/// Returns what the level-0 reader of `node` yields when it has no
/// children: a consumed character with its set, a reference, the end at a
/// `$` (a bounded end) or a passed `^`; nothing for `\b`, `\B` and a bare
/// class range; and `Composite` for sequences, choices, groups and
/// quantifiers.
pub fn node_reading<F>(case_insensitive: bool, dot_all: bool, node: &RcNode) -> (res: NodeReading<F>)
    ensures
        match leaf_groups(case_insensitive, dot_all, **node) {
            Some(t) => res matches NodeReading::One(CharacterReaderValue::Groups { character_groups: g, node: n, stack })
                && n == *node && stack@.len() == 0 && (g.ranges_negated, g.ranges@, g.unicode_property_escapes.entries@)
                == t,
            None => match node.kind {
                NodeKind::Reference { match_index } => res matches NodeReading::One(
                    CharacterReaderValue::Reference { node: n, reference_index, stack },
                ) && n == *node && reference_index == match_index && stack@.len() == 0,
                NodeKind::Anchor { kind } => match kind {
                    AnchorKind::End => res matches NodeReading::One(CharacterReaderValue::End { bounded, offset, stack })
                        && bounded && offset == node.range.0 && stack@.len() == 0,
                    AnchorKind::Start => res matches NodeReading::One(CharacterReaderValue::Start { offset, stack })
                        && offset == node.range.0 && stack@.len() == 0,
                    _ => res is Nothing,
                },
                NodeKind::CharacterClassRange { min, max } => res is Nothing,
                _ => res is Composite,
            },
        },
{
    match &node.kind {
        NodeKind::Value { code_point } => {
            let g = value_groups(case_insensitive, *code_point);
            NodeReading::One(CharacterReaderValue::Groups { character_groups: groups_of_value(g), node: Rc::clone(node), stack: Vec::new() })
        },
        NodeKind::Dot => {
            let g = dot_groups(dot_all);
            NodeReading::One(CharacterReaderValue::Groups { character_groups: groups_of_value(g), node: Rc::clone(node), stack: Vec::new() })
        },
        NodeKind::CharacterClassEscape { value } => {
            let g = class_escape_groups(*value);
            NodeReading::One(CharacterReaderValue::Groups { character_groups: groups_of_value(g), node: Rc::clone(node), stack: Vec::new() })
        },
        NodeKind::UnicodePropertyEscape { negative, value } => {
            let g = property_escape_groups(*negative, value.clone());
            NodeReading::One(CharacterReaderValue::Groups { character_groups: groups_of_value(g), node: Rc::clone(node), stack: Vec::new() })
        },
        NodeKind::CharacterClass { negative, body } => {
            let g = character_class_groups(case_insensitive, *negative, body);
            NodeReading::One(CharacterReaderValue::Groups { character_groups: groups_of_value(g), node: Rc::clone(node), stack: Vec::new() })
        },
        NodeKind::Reference { match_index } => NodeReading::One(
            CharacterReaderValue::Reference { node: Rc::clone(node), reference_index: *match_index, stack: Vec::new() },
        ),
        NodeKind::Anchor { kind } => match kind {
            AnchorKind::End => NodeReading::One(CharacterReaderValue::End { bounded: true, offset: node.range.0, stack: Vec::new() }),
            AnchorKind::Start => NodeReading::One(CharacterReaderValue::Start { offset: node.range.0, stack: Vec::new() }),
            _ => NodeReading::Nothing,
        },
        NodeKind::CharacterClassRange { .. } => NodeReading::Nothing,
        _ => NodeReading::Composite,
    }
}

/// One piece of the level-0 reader of a sequence, choice, group or
/// quantifier; the pieces of a node are read one after the other.
#[derive(Clone, Copy, Debug, PartialEq, Eq, Structural)]
pub enum ReaderPart {
    /// A null marker at the offset.
    Null { offset: usize },
    /// The reader of the child at this index of the node's body.
    Child { index: usize },
    /// A split of plain kind whose branch reads the child at this index.
    Branch { index: usize },
    /// The node's whole body read in order, each value under the node's
    /// group frame.
    Framed,
    /// A split of the sub-type whose branch reads the framed body and then
    /// the end of the pattern at the offset.
    Lookaround { sub_type: SplitSubType, end_offset: usize },
    /// The end of the pattern, not at a `$`, at the offset.
    End { offset: usize },
    /// The quantifier's iterations, joined as its bounds direct.
    Iterations,
    /// The quantifier's body, each value under the frame of the iteration.
    QuantifiedBody,
}

/// The pieces a composite node is read through: a sequence reads each
/// child; a choice splits off every branch but the last, which it reads;
/// a lookaround is one split; another group reads its body under its
/// frame; a quantifier yields a null marker at its body and then its
/// iterations.
pub open spec fn spec_composite_plan(node: Node) -> Seq<ReaderPart> {
    match node.kind {
        NodeKind::Alternative { body } => Seq::new(body@.len(), |i: int| ReaderPart::Child { index: i as usize }),
        NodeKind::Disjunction { body } => if body@.len() == 0 {
            Seq::empty()
        } else {
            Seq::new((body@.len() - 1) as nat, |i: int| ReaderPart::Branch { index: i as usize }).push(
                ReaderPart::Child { index: (body@.len() - 1) as usize },
            )
        },
        NodeKind::Group { behavior, body } => if behavior.spec_is_lookaround() {
            seq![ReaderPart::Lookaround { sub_type: SplitSubType::spec_from_behavior(behavior), end_offset: node.range.1 }]
        } else {
            seq![ReaderPart::Framed]
        },
        NodeKind::Quantifier { body, .. } => seq![ReaderPart::Null { offset: body.range.0 }, ReaderPart::Iterations],
        _ => Seq::empty(),
    }
}

/// Whether the pieces of a node are joined (a split among them goes on with
/// the pieces after it: sequences and quantifiers) or chained one after the
/// other (choices and groups).
pub open spec fn spec_plan_joined(node: Node) -> bool {
    node.kind is Alternative || node.kind is Quantifier
}

/// How the level-0 reader of a composite node is put together.
pub struct CompositePlan {
    /// The pieces are joined rather than chained.
    pub joined: bool,
    /// The pieces, in reading order.
    pub parts: Vec<ReaderPart>,
}

/// Returns how the level-0 reader of `node` is built.
pub fn composite_plan(node: &Node) -> (plan: CompositePlan)
    ensures
        plan.parts@ == spec_composite_plan(*node),
        plan.joined == spec_plan_joined(*node),
{
    let joined = matches!(node.kind, NodeKind::Alternative { .. } | NodeKind::Quantifier { .. });
    CompositePlan { joined, parts: composite_parts(node) }
}

fn composite_parts(node: &Node) -> (plan: Vec<ReaderPart>)
    ensures
        plan@ == spec_composite_plan(*node),
{
    match &node.kind {
        NodeKind::Alternative { body } => {
            let mut plan: Vec<ReaderPart> = Vec::new();
            let mut i: usize = 0;
            while i < body.len()
                invariant
                    i <= body@.len(),
                    plan@ == Seq::new(i as nat, |k: int| ReaderPart::Child { index: k as usize }),
                decreases body@.len() - i,
            {
                plan.push(ReaderPart::Child { index: i });
                i += 1;
                proof {
                    assert(plan@ =~= Seq::new(i as nat, |k: int| ReaderPart::Child { index: k as usize }));
                }
            }
            plan
        },
        NodeKind::Disjunction { body } => {
            let mut plan: Vec<ReaderPart> = Vec::new();
            if body.len() == 0 {
                return plan;
            }
            let last = body.len() - 1;
            let mut i: usize = 0;
            while i < last
                invariant
                    i <= last,
                    plan@ == Seq::new(i as nat, |k: int| ReaderPart::Branch { index: k as usize }),
                decreases last - i,
            {
                plan.push(ReaderPart::Branch { index: i });
                i += 1;
                proof {
                    assert(plan@ =~= Seq::new(i as nat, |k: int| ReaderPart::Branch { index: k as usize }));
                }
            }
            plan.push(ReaderPart::Child { index: last });
            plan
        },
        NodeKind::Group { behavior, .. } => if behavior.is_lookaround() {
            vec![ReaderPart::Lookaround { sub_type: SplitSubType::from_behavior(*behavior), end_offset: node.range.1 }]
        } else {
            vec![ReaderPart::Framed]
        },
        NodeKind::Quantifier { body, .. } => vec![ReaderPart::Null { offset: body.range.0 }, ReaderPart::Iterations],
        _ => Vec::new(),
    }
}

/// What the branch of a lookaround split reads, joined: the group's body
/// under its frame, then the end of the pattern at the group's end.
pub fn lookaround_branch_plan(end_offset: usize) -> (plan: Vec<ReaderPart>)
    ensures
        plan@ == seq![ReaderPart::Framed, ReaderPart::End { offset: end_offset }],
{
    vec![ReaderPart::Framed, ReaderPart::End { offset: end_offset }]
}

/// What iteration `i` of a quantifier reads, joined: a null marker at the
/// body before every iteration but the first, then the body.
pub fn iteration_plan(i: u64, body_offset: usize) -> (plan: Vec<ReaderPart>)
    ensures
        plan@ == if i > 0 {
            seq![ReaderPart::Null { offset: body_offset }, ReaderPart::QuantifiedBody]
        } else {
            seq![ReaderPart::QuantifiedBody]
        },
{
    if i > 0 {
        vec![ReaderPart::Null { offset: body_offset }, ReaderPart::QuantifiedBody]
    } else {
        vec![ReaderPart::QuantifiedBody]
    }
}

} // verus!
