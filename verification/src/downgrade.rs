//! Rewrites unsupported patterns into supported ones.
//!
//! Three transforms run until the pattern stabilizes. A reference to a group in
//! a positive lookahead is replaced by a non-capturing group holding that
//! group's contents. A reference to a non-finite-size group is inlined the same
//! way. A pattern with no start anchor gets `[^]*?` prepended, wrapping the rest
//! in a non-capturing group when the root is a disjunction. A downgraded pattern
//! may introduce false positives.
use crate::arrays::{common_prefix_len, drop_common, lemma_common_prefix_len_unique};
use crate::node_extra::nodes_of;
use crate::ast::{AnchorKind, GroupBehavior, Node, NodeKind, RcNode};
use crate::parse::{
    capture_count, captures_in, last_node, lemma_capture_count_bounded, lemma_tree_without_digit_escape_has_no_references,
    is_plain_unit, no_references, spec_is_ascii_digit, node_wf, none_has_references, parse, plain_from, quantified, simple_pattern,
    stray_close_text, unclosed_group_text, ParseError, bad_brace_text, brace_message, first_bad_brace, leading_term_error, region_end, plain_shape,
    plain_term_ranges, ranges_of,
};
use crate::text::{
    decimal_string, decimal_text, lemma_utf16_of_concat, push_char, push_str, utf16_len, utf16_length,
};
use crate::text::{encode_utf16, decode_utf16_lossy, lossy_decode, utf16_of};
use std::collections::{HashMap, HashSet};
use std::rc::Rc;
use vstd::prelude::*;
use vstd::std_specs::hash::spec_hash_keys_iter;
use vstd::std_specs::iter::IteratorSpec;

verus! {

// ---------------------------------------------------------------------------
// Start anchors
// ---------------------------------------------------------------------------

/// What a node says about the start of the match.
#[derive(PartialEq, Eq, Clone, Copy, Debug, Structural)]
pub enum AnchorCheck {
    /// Every way through starts at a `^` before consuming anything.
    Anchor,
    /// Some way through consumes a character before any `^`.
    ConsumingNode,
    /// Neither: the node is zero-width and leaves the question open.
    Null,
}

/// The anchor check of a node.
pub open spec fn anchor_of(n: Node) -> AnchorCheck
    decreases n,
{
    match n.kind {
        NodeKind::Anchor { kind } => if kind == AnchorKind::Start {
            AnchorCheck::Anchor
        } else {
            AnchorCheck::Null
        },
        NodeKind::Quantifier { min, max, greedy, symbol, body } => if max == Some(0u64) {
            AnchorCheck::Null
        } else {
            let r = anchor_of(*body);
            if r == AnchorCheck::ConsumingNode {
                AnchorCheck::ConsumingNode
            } else if r == AnchorCheck::Anchor {
                if min == 0 {
                    AnchorCheck::Null
                } else {
                    AnchorCheck::Anchor
                }
            } else {
                AnchorCheck::Null
            }
        },
        NodeKind::Alternative { body } => children_anchor(body@, false),
        NodeKind::Group { behavior, body } => children_anchor(body@, false),
        NodeKind::Disjunction { body } => branches_anchor(body@),
        _ => AnchorCheck::ConsumingNode,
    }
}

/// The anchor check of a sequence of nodes: the first child that is not
/// `Null` decides, and an anchor that may be skipped counts as `Null`.
pub open spec fn children_anchor(s: Seq<RcNode>, may_be_skipped: bool) -> AnchorCheck
    decreases s,
{
    if s.len() == 0 {
        AnchorCheck::Null
    } else {
        let r = anchor_of(*s[0]);
        if r == AnchorCheck::ConsumingNode {
            AnchorCheck::ConsumingNode
        } else if r == AnchorCheck::Anchor {
            if may_be_skipped {
                AnchorCheck::Null
            } else {
                AnchorCheck::Anchor
            }
        } else {
            children_anchor(s.subrange(1, s.len() as int), may_be_skipped)
        }
    }
}

/// The anchor check of the branches of a disjunction: consuming when some
/// branch consumes, anchored when every branch is anchored, else `Null`.
pub open spec fn branches_anchor(s: Seq<RcNode>) -> AnchorCheck
    decreases s,
{
    if s.len() == 0 {
        AnchorCheck::Anchor
    } else {
        let r = anchor_of(*s.last());
        let rest = branches_anchor(s.drop_last());
        if r == AnchorCheck::ConsumingNode || rest == AnchorCheck::ConsumingNode {
            AnchorCheck::ConsumingNode
        } else if r == AnchorCheck::Anchor && rest == AnchorCheck::Anchor {
            AnchorCheck::Anchor
        } else {
            AnchorCheck::Null
        }
    }
}

/// The root already starts with the `[^]*?` that a downgrade prepends.
pub open spec fn has_start_anchor_replacement(n: Node) -> bool {
    match n.kind {
        NodeKind::Alternative { body } => {
            &&& body@.len() > 0
            &&& match body@[0].kind {
                NodeKind::Quantifier { min, max, greedy, symbol, body: q_body } => {
                    &&& min == 0
                    &&& max is None
                    &&& !greedy
                    &&& match q_body.kind {
                        NodeKind::CharacterClass { negative, body: class_body } => class_body@.len() == 0
                            && negative,
                        _ => false,
                    }
                },
                _ => false,
            }
        },
        _ => false,
    }
}

/// Returns `true` when the root is an alternative that starts with a lazy
/// `[^]*?`.
pub fn already_has_start_anchor_replacement(node: &RcNode) -> (res: bool)
    ensures
        res == has_start_anchor_replacement(**node),
{
    let body = match &node.kind {
        NodeKind::Alternative { body } => body,
        _ => return false,
    };
    if body.len() == 0 {
        return false;
    }
    let maybe_quantifier = &body[0];
    match &maybe_quantifier.kind {
        NodeKind::Quantifier { min, max, greedy, body: q_body, .. } => {
            if *min != 0 || max.is_some() || *greedy {
                return false;
            }
            match &q_body.kind {
                NodeKind::CharacterClass { negative, body: class_body } => class_body.len() == 0
                    && *negative,
                _ => false,
            }
        },
        _ => false,
    }
}

/// The tree that `parse` gives a pattern of plain characters misses a start
/// anchor exactly when the pattern is not empty.
pub proof fn lemma_plain_pattern_misses_anchor(root: Node, units: Seq<u16>, unicode: bool)
    requires
        plain_shape(root, units, 0, units.len() as int, unicode),
    ensures
        (!has_start_anchor_replacement(root) && anchor_of(root) == AnchorCheck::ConsumingNode) == (units.len() > 0),
{
    let rs = plain_term_ranges(units, 0, units.len() as int, unicode);
    assert(rs.len() > 0 <==> units.len() > 0);
    if rs.len() != 1 {
        if let NodeKind::Alternative { body } = root.kind {
            assert(ranges_of(body@).len() == body@.len());
            if body@.len() > 0 {
                assert(body@[0].kind is Value);
                assert(anchor_of(*body@[0]) == AnchorCheck::ConsumingNode);
                assert(children_anchor(body@, false) == AnchorCheck::ConsumingNode);
            } else {
                assert(children_anchor(body@, false) == AnchorCheck::Null);
            }
            assert(anchor_of(root) == children_anchor(body@, false));
        }
    } else {
        assert(anchor_of(root) == AnchorCheck::ConsumingNode);
    }
}

/// Returns whether the pattern is not bounded at the start.
pub fn is_missing_start_anchor(root: &RcNode) -> (res: bool)
    ensures
        res == (!has_start_anchor_replacement(**root) && anchor_of(**root)
            == AnchorCheck::ConsumingNode),
{
    if already_has_start_anchor_replacement(root) {
        return false;
    }
    check_anchor(root) == AnchorCheck::ConsumingNode
}

/// Computes [`anchor_of`] for a node.
pub fn check_anchor(node: &RcNode) -> (res: AnchorCheck)
    ensures
        res == anchor_of(**node),
    decreases **node,
{
    match &node.kind {
        NodeKind::Anchor { kind } => {
            if *kind == AnchorKind::Start {
                AnchorCheck::Anchor
            } else {
                AnchorCheck::Null
            }
        },
        NodeKind::Quantifier { max, body, min, .. } => {
            if *max == Some(0) {
                return AnchorCheck::Null;
            }
            let may_be_skipped = *min == 0;
            let r = check_anchor(body);
            if r == AnchorCheck::ConsumingNode {
                AnchorCheck::ConsumingNode
            } else if r == AnchorCheck::Anchor {
                if may_be_skipped {
                    AnchorCheck::Null
                } else {
                    AnchorCheck::Anchor
                }
            } else {
                AnchorCheck::Null
            }
        },
        NodeKind::Alternative { body } => check_children(body, false),
        NodeKind::Group { body, .. } => check_children(body, false),
        NodeKind::Disjunction { body } => check_branches(body),
        _ => AnchorCheck::ConsumingNode,
    }
}

/// Computes [`branches_anchor`] for the branches of a disjunction.
fn check_branches(body: &Vec<RcNode>) -> (res: AnchorCheck)
    ensures
        res == branches_anchor(body@),
    decreases body@,
{
    let mut any_consuming = false;
    let mut all_anchor = true;
    let mut i: usize = 0;
    while i < body.len()
        invariant
            i <= body@.len(),
            branches_anchor(body@.take(i as int)) == if any_consuming {
                AnchorCheck::ConsumingNode
            } else if all_anchor {
                AnchorCheck::Anchor
            } else {
                AnchorCheck::Null
            },
        decreases body.len() - i,
    {
        let r = check_anchor(&body[i]);
        if r == AnchorCheck::ConsumingNode {
            any_consuming = true;
        }
        if r != AnchorCheck::Anchor {
            all_anchor = false;
        }
        proof {
            let t = body@.take(i + 1);
            assert(t.drop_last() =~= body@.take(i as int));
            assert(t.last() == body@[i as int]);
        }
        i += 1;
    }
    proof {
        assert(body@.take(i as int) =~= body@);
    }
    if any_consuming {
        AnchorCheck::ConsumingNode
    } else if all_anchor {
        AnchorCheck::Anchor
    } else {
        AnchorCheck::Null
    }
}

/// Computes [`children_anchor`] for a list of nodes.
pub fn check_children(body: &Vec<RcNode>, may_be_skipped: bool) -> (res: AnchorCheck)
    ensures
        res == children_anchor(body@, may_be_skipped),
    decreases body@,
{
    let mut i: usize = 0;
    proof {
        assert(body@.subrange(0, body@.len() as int) =~= body@);
    }
    while i < body.len()
        invariant
            i <= body@.len(),
            children_anchor(body@, may_be_skipped) == children_anchor(
                body@.subrange(i as int, body@.len() as int),
                may_be_skipped,
            ),
        decreases body.len() - i,
    {
        let res = check_anchor(&body[i]);
        proof {
            let t = body@.subrange(i as int, body@.len() as int);
            assert(t[0] == body@[i as int]);
            assert(t.subrange(1, t.len() as int) =~= body@.subrange(i + 1, body@.len() as int));
        }
        if res == AnchorCheck::ConsumingNode {
            return AnchorCheck::ConsumingNode;
        }
        if res == AnchorCheck::Anchor {
            if !may_be_skipped {
                return AnchorCheck::Anchor;
            }
            return AnchorCheck::Null;
        }
        i += 1;
    }
    AnchorCheck::Null
}

// ---------------------------------------------------------------------------
// Source without capturing groups or lookarounds
// ---------------------------------------------------------------------------

/// The text a quantifier's iteration part is printed as: its symbol, or
/// `{n}`, `{n,}` or `{n,m}`, with a trailing `?` when it is lazy (except for
/// the exact form `{n}`).
pub open spec fn quantifier_text(n: Node) -> Seq<char> {
    match n.kind {
        NodeKind::Quantifier { min, max, greedy, symbol, body } => match symbol {
            Some(sym) => if greedy {
                seq![sym]
            } else {
                seq![sym, '?']
            },
            None => if max == Some(min) {
                seq!['{'] + decimal_text(min as nat) + seq!['}']
            } else {
                let max_text = match max {
                    Some(m) => decimal_text(m as nat),
                    None => Seq::<char>::empty(),
                };
                let lazy = if greedy {
                    Seq::<char>::empty()
                } else {
                    seq!['?']
                };
                seq!['{'] + decimal_text(min as nat) + seq![','] + max_text + seq!['}'] + lazy
            },
        },
        _ => Seq::<char>::empty(),
    }
}

/// Rebuilds a quantifier's iteration part as text.
pub fn quantifier_iterations_to_string(node: &RcNode) -> (res: String)
    ensures
        res@ == quantifier_text(**node),
{
    let mut out = String::new();
    if let NodeKind::Quantifier { min, max, greedy, symbol, .. } = &node.kind {
        if let Some(sym) = symbol {
            push_char(&mut out, *sym);
            if !*greedy {
                push_char(&mut out, '?');
            }
            return out;
        }
        let exact = match max {
            Some(m) => *m == *min,
            None => false,
        };
        push_char(&mut out, '{');
        let min_text = decimal_string(*min);
        push_str(&mut out, min_text.as_str());
        if exact {
            push_char(&mut out, '}');
            proof {
                assert(out@ =~= seq!['{'] + decimal_text(*min as nat) + seq!['}']);
            }
            return out;
        }
        push_char(&mut out, ',');
        let ghost before_max = out@;
        if let Some(m) = max {
            let max_text = decimal_string(*m);
            push_str(&mut out, max_text.as_str());
        }
        push_char(&mut out, '}');
        if !*greedy {
            push_char(&mut out, '?');
        }
        proof {
            let max_text = match *max {
                Some(m) => decimal_text(m as nat),
                None => Seq::<char>::empty(),
            };
            let lazy = if *greedy {
                Seq::<char>::empty()
            } else {
                seq!['?']
            };
            assert(out@ =~= seq!['{'] + decimal_text(*min as nat) + seq![','] + max_text + seq!['}'] + lazy);
        }
    }
    out
}

/// The source of a node with capturing and non-capturing groups written as
/// `(?:...)` and lookaround groups left out.
pub open spec fn raw_text(n: Node) -> Seq<char>
    decreases n,
{
    match n.kind {
        NodeKind::Group { behavior, body } => if behavior == GroupBehavior::Normal || behavior
            == GroupBehavior::Ignore {
            seq!['(', '?', ':'] + seq_text(body@) + seq![')']
        } else {
            Seq::<char>::empty()
        },
        NodeKind::Disjunction { body } => branches_text(body@),
        NodeKind::Alternative { body } => seq_text(body@),
        NodeKind::Quantifier { min, max, greedy, symbol, body } => raw_text(*body) + quantifier_text(n),
        _ => n.raw@,
    }
}

/// The texts of a list of nodes, one after the other.
pub open spec fn seq_text(s: Seq<RcNode>) -> Seq<char>
    decreases s,
{
    if s.len() == 0 {
        Seq::<char>::empty()
    } else {
        seq_text(s.drop_last()) + raw_text(*s.last())
    }
}

/// The texts of the branches of a disjunction, separated by `|`.
pub open spec fn branches_text(s: Seq<RcNode>) -> Seq<char>
    decreases s, 1nat,
{
    if s.len() == 0 {
        Seq::<char>::empty()
    } else if s.len() == 1 {
        raw_text(*s[0])
    } else {
        branches_text(s.drop_last()).push('|') + raw_text(*s.last())
    }
}

/// Each reference under a node, with its UTF-16 offset in [`raw_text`].
pub open spec fn raw_refs(n: Node) -> Seq<(Node, int)>
    decreases n,
{
    match n.kind {
        NodeKind::Reference { match_index } => seq![(n, 0int)],
        NodeKind::Group { behavior, body } => if behavior == GroupBehavior::Normal || behavior
            == GroupBehavior::Ignore {
            shift_refs(seq_refs(body@), 3)
        } else {
            Seq::<(Node, int)>::empty()
        },
        NodeKind::Disjunction { body } => branches_refs(body@),
        NodeKind::Alternative { body } => seq_refs(body@),
        NodeKind::Quantifier { min, max, greedy, symbol, body } => raw_refs(*body),
        _ => Seq::<(Node, int)>::empty(),
    }
}

/// The references of a list of nodes, offsets counted from the start of
/// [`seq_text`].
pub open spec fn seq_refs(s: Seq<RcNode>) -> Seq<(Node, int)>
    decreases s,
{
    if s.len() == 0 {
        Seq::<(Node, int)>::empty()
    } else {
        seq_refs(s.drop_last()) + shift_refs(raw_refs(*s.last()), utf16_length(seq_text(s.drop_last())) as int)
    }
}

/// The references of the branches of a disjunction, offsets counted from the
/// start of [`branches_text`].
pub open spec fn branches_refs(s: Seq<RcNode>) -> Seq<(Node, int)>
    decreases s,
{
    if s.len() == 0 {
        Seq::<(Node, int)>::empty()
    } else if s.len() == 1 {
        raw_refs(*s[0])
    } else {
        branches_refs(s.drop_last()) + shift_refs(
            raw_refs(*s.last()),
            utf16_length(branches_text(s.drop_last()).push('|')) as int,
        )
    }
}

/// Adds `k` to every offset.
pub open spec fn shift_refs(r: Seq<(Node, int)>, k: int) -> Seq<(Node, int)> {
    r.map_values(|p: (Node, int)| (p.0, p.1 + k))
}

/// The references of an executable list as nodes and offsets.
pub open spec fn refs_view(v: Seq<(RcNode, usize)>) -> Seq<(Node, int)> {
    v.map_values(|p: (RcNode, usize)| (*p.0, p.1 as int))
}

/// Every offset is at most `len`.
pub open spec fn offsets_within(v: Seq<(RcNode, usize)>, len: int) -> bool {
    forall|i: int| 0 <= i < v.len() ==> (#[trigger] v[i]).1 <= len
}

/// Each reference's offset marks where its source text stands in `text`,
/// counted in UTF-16 units.
pub open spec fn refs_point_at(refs: Seq<(Node, int)>, text: Seq<char>) -> bool {
    forall|i: int|
        0 <= i < refs.len() ==> {
            let off = (#[trigger] refs[i]).1;
            let len = utf16_length(refs[i].0.raw@) as int;
            &&& 0 <= off
            &&& off + len <= utf16_length(text)
            &&& utf16_of(text).subrange(off, off + len) == utf16_of(refs[i].0.raw@)
        }
}

proof fn lemma_refs_point_at_prefix(refs: Seq<(Node, int)>, a: Seq<char>, b: Seq<char>)
    requires
        refs_point_at(refs, a),
    ensures
        refs_point_at(refs, a + b),
{
    lemma_utf16_of_concat(a, b);
    assert forall|i: int| 0 <= i < refs.len() implies {
        let off = (#[trigger] refs[i]).1;
        let len = utf16_length(refs[i].0.raw@) as int;
        &&& 0 <= off
        &&& off + len <= utf16_length(a + b)
        &&& utf16_of(a + b).subrange(off, off + len) == utf16_of(refs[i].0.raw@)
    } by {
        let off = refs[i].1;
        let len = utf16_length(refs[i].0.raw@) as int;
        assert(utf16_of(a + b).subrange(off, off + len) =~= utf16_of(a).subrange(off, off + len));
    }
}

proof fn lemma_refs_point_at_suffix(refs: Seq<(Node, int)>, a: Seq<char>, b: Seq<char>)
    requires
        refs_point_at(refs, b),
    ensures
        refs_point_at(shift_refs(refs, utf16_length(a) as int), a + b),
{
    lemma_utf16_of_concat(a, b);
    let k = utf16_length(a) as int;
    let shifted = shift_refs(refs, k);
    assert forall|i: int| 0 <= i < shifted.len() implies {
        let off = (#[trigger] shifted[i]).1;
        let len = utf16_length(shifted[i].0.raw@) as int;
        &&& 0 <= off
        &&& off + len <= utf16_length(a + b)
        &&& utf16_of(a + b).subrange(off, off + len) == utf16_of(shifted[i].0.raw@)
    } by {
        let off = refs[i].1;
        let len = utf16_length(refs[i].0.raw@) as int;
        assert(shifted[i] == (refs[i].0, off + k));
        assert(utf16_of(a + b).subrange(off + k, off + k + len) =~= utf16_of(b).subrange(off, off + len));
    }
}

proof fn lemma_refs_point_at_concat(r1: Seq<(Node, int)>, r2: Seq<(Node, int)>, text: Seq<char>)
    requires
        refs_point_at(r1, text),
        refs_point_at(r2, text),
    ensures
        refs_point_at(r1 + r2, text),
{
    assert forall|i: int| 0 <= i < (r1 + r2).len() implies {
        let off = (#[trigger] (r1 + r2)[i]).1;
        let len = utf16_length((r1 + r2)[i].0.raw@) as int;
        &&& 0 <= off
        &&& off + len <= utf16_length(text)
        &&& utf16_of(text).subrange(off, off + len) == utf16_of((r1 + r2)[i].0.raw@)
    } by {
        if i < r1.len() {
            assert((r1 + r2)[i] == r1[i]);
        } else {
            assert((r1 + r2)[i] == r2[i - r1.len()]);
        }
    }
}

/// The offset recorded for each reference in the rebuilt source points at
/// that reference's own text there.
pub proof fn lemma_reference_offsets(n: Node)
    ensures
        refs_point_at(raw_refs(n), raw_text(n)),
    decreases n,
{
    if n.kind is Reference {
        let t = raw_text(n);
        assert(utf16_of(t).subrange(0, utf16_length(t) as int) =~= utf16_of(t));
    } else if n.kind is Group {
        let behavior = n.kind->Group_behavior;
        let body = n.kind->Group_body@;
        if behavior == GroupBehavior::Normal || behavior == GroupBehavior::Ignore {
            let open_text = seq!['(', '?', ':'];
            lemma_seq_reference_offsets(body);
            lemma_refs_point_at_suffix(seq_refs(body), open_text, seq_text(body));
            assert(utf16_length(open_text) == 3) by {
                reveal_with_fuel(crate::text::utf16_of, 4);
            }
            lemma_refs_point_at_prefix(shift_refs(seq_refs(body), 3), open_text + seq_text(body), seq![')']);
        }
    } else if n.kind is Disjunction {
        lemma_branches_reference_offsets(n.kind->Disjunction_body@);
    } else if n.kind is Alternative {
        lemma_seq_reference_offsets(n.kind->Alternative_body@);
    } else if n.kind is Quantifier {
        let body = quantified(n);
        lemma_reference_offsets(body);
        lemma_refs_point_at_prefix(raw_refs(body), raw_text(body), quantifier_text(n));
    }
}

/// [`lemma_reference_offsets`] for a list of nodes one after the other.
pub proof fn lemma_seq_reference_offsets(s: Seq<RcNode>)
    ensures
        refs_point_at(seq_refs(s), seq_text(s)),
    decreases s,
{
    if s.len() > 0 {
        let last = last_node(s);
        let prefix = seq_text(s.drop_last());
        let last_text = raw_text(last);
        lemma_seq_reference_offsets(s.drop_last());
        lemma_reference_offsets(last);
        lemma_refs_point_at_prefix(seq_refs(s.drop_last()), prefix, last_text);
        lemma_refs_point_at_suffix(raw_refs(last), prefix, last_text);
        lemma_refs_point_at_concat(
            seq_refs(s.drop_last()),
            shift_refs(raw_refs(last), utf16_length(prefix) as int),
            prefix + last_text,
        );
    }
}

/// [`lemma_reference_offsets`] for the branches of a disjunction.
pub proof fn lemma_branches_reference_offsets(s: Seq<RcNode>)
    ensures
        refs_point_at(branches_refs(s), branches_text(s)),
    decreases s,
{
    if s.len() == 1 {
        assert(last_node(s) == *s[0]);
        lemma_reference_offsets(last_node(s));
    } else if s.len() > 1 {
        let last = last_node(s);
        let prefix = branches_text(s.drop_last()).push('|');
        let last_text = raw_text(last);
        lemma_branches_reference_offsets(s.drop_last());
        lemma_reference_offsets(last);
        assert(prefix =~= branches_text(s.drop_last()) + seq!['|']);
        lemma_refs_point_at_prefix(branches_refs(s.drop_last()), branches_text(s.drop_last()), seq!['|']);
        lemma_refs_point_at_prefix(branches_refs(s.drop_last()), prefix, last_text);
        lemma_refs_point_at_suffix(raw_refs(last), prefix, last_text);
        lemma_refs_point_at_concat(
            branches_refs(s.drop_last()),
            shift_refs(raw_refs(last), utf16_length(prefix) as int),
            prefix + last_text,
        );
    }
}

/// The result of stripping capturing groups and lookarounds from a node.
pub struct RawWithoutGroups {
    /// Each reference in `result` with its UTF-16 offset.
    pub references_with_offset: Vec<(RcNode, usize)>,
    /// The rebuilt source.
    pub result: String,
}

/// Reconstructs `root`'s source with capturing and non-capturing groups turned
/// into `(?:...)` and lookarounds removed, tracking reference offsets.
pub fn get_raw_without_capturing_groups_or_lookaheads(root: &RcNode) -> (res: RawWithoutGroups)
    ensures
        res.result@ == raw_text(**root),
        refs_view(res.references_with_offset@) == raw_refs(**root),
        offsets_within(res.references_with_offset@, utf16_length(res.result@) as int),
{
    let (result, references_with_offset) = walk(root);
    RawWithoutGroups { references_with_offset, result }
}

/// Appends `refs`, each offset moved by `k`.
fn append_shifted(out: &mut Vec<(RcNode, usize)>, refs: Vec<(RcNode, usize)>, k: usize, Ghost(bound): Ghost<int>)
    requires
        offsets_within(refs@, bound - k),
        bound <= usize::MAX,
        k <= bound,
    ensures
        refs_view(final(out)@) == refs_view(old(out)@) + shift_refs(refs_view(refs@), k as int),
        forall|i: int| old(out)@.len() <= i < final(out)@.len() ==> (#[trigger] final(out)@[i]).1 <= bound,
        final(out)@.len() == old(out)@.len() + refs@.len(),
        final(out)@.subrange(0, old(out)@.len() as int) == old(out)@,
{
    let mut i: usize = 0;
    while i < refs.len()
        invariant
            i <= refs@.len(),
            offsets_within(refs@, bound - k),
            bound <= usize::MAX,
            k <= bound,
            out@.len() == old(out)@.len() + i,
            out@.subrange(0, old(out)@.len() as int) == old(out)@,
            refs_view(out@) == refs_view(old(out)@) + shift_refs(refs_view(refs@.take(i as int)), k as int),
            forall|j: int| old(out)@.len() <= j < out@.len() ==> (#[trigger] out@[j]).1 <= bound,
        decreases refs.len() - i,
    {
        let (n, off) = &refs[i];
        assert(refs@[i as int].1 <= bound - k);
        let ghost prev = out@;
        out.push((Rc::clone(n), *off + k));
        proof {
            assert(out@.subrange(0, old(out)@.len() as int) =~= prev.subrange(0, old(out)@.len() as int));
            assert(refs_view(refs@.take(i + 1)) =~= refs_view(refs@.take(i as int)).push((**n, *off as int)));
            assert(refs_view(out@) =~= refs_view(prev).push((**n, (*off + k) as int)));
            assert(shift_refs(refs_view(refs@.take(i + 1)), k as int) =~= shift_refs(refs_view(refs@.take(i as int)), k as int).push((**n, *off + k)));
        }
        i += 1;
    }
    proof {
        assert(refs@.take(i as int) =~= refs@);
    }
}

/// Rebuilds one node; offsets are counted from the start of its text.
fn walk(node: &RcNode) -> (res: (String, Vec<(RcNode, usize)>))
    ensures
        res.0@ == raw_text(**node),
        refs_view(res.1@) == raw_refs(**node),
        offsets_within(res.1@, utf16_length(res.0@) as int),
    decreases **node,
{
    match &node.kind {
        NodeKind::Reference { .. } => {
            let mut refs: Vec<(RcNode, usize)> = Vec::new();
            refs.push((Rc::clone(node), 0));
            proof {
                assert(refs_view(refs@) =~= seq![(**node, 0int)]);
            }
            (node.raw.clone(), refs)
        },
        NodeKind::Group { behavior, body } => {
            if *behavior == GroupBehavior::Normal || *behavior == GroupBehavior::Ignore {
                let mut out = String::new();
                push_char(&mut out, '(');
                push_char(&mut out, '?');
                push_char(&mut out, ':');
                let (inner, inner_refs) = walk_all(body);
                push_str(&mut out, inner.as_str());
                push_char(&mut out, ')');
                let total = utf16_len(out.as_str());
                proof {
                    let open_text = seq!['(', '?', ':'];
                    assert(out@ =~= open_text + inner@ + seq![')']);
                    lemma_utf16_of_concat(open_text, inner@);
                    lemma_utf16_of_concat(open_text + inner@, seq![')']);
                    assert(utf16_length(open_text) == 3) by {
                        reveal_with_fuel(crate::text::utf16_of, 4);
                    }
                }
                let mut refs: Vec<(RcNode, usize)> = Vec::new();
                append_shifted(&mut refs, inner_refs, 3, Ghost(total as int));
                proof {
                    assert(refs_view(Seq::<(RcNode, usize)>::empty()) =~= Seq::<(Node, int)>::empty());
                    assert(refs_view(refs@) =~= shift_refs(seq_refs(body@), 3));
                }
                (out, refs)
            } else {
                proof {
                    assert(refs_view(Seq::<(RcNode, usize)>::empty()) =~= Seq::<(Node, int)>::empty());
                }
                (String::new(), Vec::new())
            }
        },
        NodeKind::Disjunction { body } => walk_branches(body),
        NodeKind::Alternative { body } => walk_all(body),
        NodeKind::Quantifier { body, .. } => {
            let (mut out, refs) = walk(body);
            let ghost before = out@;
            let q = quantifier_iterations_to_string(node);
            push_str(&mut out, q.as_str());
            proof {
                lemma_utf16_of_concat(before, q@);
            }
            (out, refs)
        },
        _ => {
            proof {
                assert(refs_view(Seq::<(RcNode, usize)>::empty()) =~= Seq::<(Node, int)>::empty());
            }
            (node.raw.clone(), Vec::new())
        },
    }
}

/// Rebuilds a list of nodes one after the other.
fn walk_all(body: &Vec<RcNode>) -> (res: (String, Vec<(RcNode, usize)>))
    ensures
        res.0@ == seq_text(body@),
        refs_view(res.1@) == seq_refs(body@),
        offsets_within(res.1@, utf16_length(res.0@) as int),
    decreases body@,
{
    let mut result = String::new();
    let mut refs: Vec<(RcNode, usize)> = Vec::new();
    let mut i: usize = 0;
    proof {
        assert(body@.take(0) =~= Seq::<RcNode>::empty());
        assert(refs_view(refs@) =~= Seq::<(Node, int)>::empty());
    }
    while i < body.len()
        invariant
            i <= body@.len(),
            result@ == seq_text(body@.take(i as int)),
            refs_view(refs@) == seq_refs(body@.take(i as int)),
            offsets_within(refs@, utf16_length(result@) as int),
        decreases body.len() - i,
    {
        let len = utf16_len(result.as_str());
        let (t, r) = walk(&body[i]);
        let ghost before = result@;
        let ghost before_refs = refs@;
        push_str(&mut result, t.as_str());
        let total = utf16_len(result.as_str());
        proof {
            lemma_utf16_of_concat(before, t@);
        }
        append_shifted(&mut refs, r, len, Ghost(total as int));
        proof {
            let tk = body@.take(i + 1);
            assert(tk.drop_last() =~= body@.take(i as int));
            assert(tk.last() == body@[i as int]);
            assert forall|j: int| 0 <= j < refs@.len() implies (#[trigger] refs@[j]).1 <= total by {
                if j < before_refs.len() {
                    assert(refs@[j] == refs@.subrange(0, before_refs.len() as int)[j]);
                    assert(refs@[j] == before_refs[j]);
                }
            }
        }
        i += 1;
    }
    proof {
        assert(body@.take(i as int) =~= body@);
    }
    (result, refs)
}

/// Rebuilds the branches of a disjunction separated by `|`.
fn walk_branches(body: &Vec<RcNode>) -> (res: (String, Vec<(RcNode, usize)>))
    ensures
        res.0@ == branches_text(body@),
        refs_view(res.1@) == branches_refs(body@),
        offsets_within(res.1@, utf16_length(res.0@) as int),
    decreases body@,
{
    let mut result = String::new();
    let mut refs: Vec<(RcNode, usize)> = Vec::new();
    let mut i: usize = 0;
    proof {
        assert(body@.take(0) =~= Seq::<RcNode>::empty());
        assert(refs_view(refs@) =~= Seq::<(Node, int)>::empty());
    }
    while i < body.len()
        invariant
            i <= body@.len(),
            result@ == branches_text(body@.take(i as int)),
            refs_view(refs@) == branches_refs(body@.take(i as int)),
            offsets_within(refs@, utf16_length(result@) as int),
        decreases body.len() - i,
    {
        let ghost start = result@;
        if i > 0 {
            push_char(&mut result, '|');
        }
        let ghost prefix = result@;
        let len = utf16_len(result.as_str());
        proof {
            if i > 0 {
                lemma_utf16_of_concat(start, seq!['|']);
                assert(start + seq!['|'] =~= start.push('|'));
            }
        }
        let (t, r) = walk(&body[i]);
        let ghost before_refs = refs@;
        push_str(&mut result, t.as_str());
        let total = utf16_len(result.as_str());
        proof {
            lemma_utf16_of_concat(prefix, t@);
        }
        append_shifted(&mut refs, r, len, Ghost(total as int));
        proof {
            let tk = body@.take(i + 1);
            assert(tk.drop_last() =~= body@.take(i as int));
            assert(tk.last() == body@[i as int]);
            if i == 0 {
                assert(tk[0] == body@[0]);
                assert(shift_refs(raw_refs(*body@[0]), 0) =~= raw_refs(*body@[0]));
                assert(refs_view(before_refs) =~= Seq::<(Node, int)>::empty());
                assert(Seq::<char>::empty() + t@ =~= t@);
                assert(Seq::<(Node, int)>::empty() + raw_refs(*body@[0]) =~= raw_refs(*body@[0]));
            }
            assert forall|j: int| 0 <= j < refs@.len() implies (#[trigger] refs@[j]).1 <= total by {
                if j < before_refs.len() {
                    assert(refs@[j] == refs@.subrange(0, before_refs.len() as int)[j]);
                    assert(refs@[j] == before_refs[j]);
                }
            }
        }
        i += 1;
    }
    proof {
        assert(body@.take(i as int) =~= body@);
    }
    (result, refs)
}

// ---------------------------------------------------------------------------
// Editing the pattern
// ---------------------------------------------------------------------------

/// `units` with `[start, end)` replaced by `replacement`.
pub open spec fn replaced_units(units: Seq<u16>, replacement: Seq<u16>, start: int, end: int) -> Seq<u16> {
    units.subrange(0, start) + replacement + units.subrange(end, units.len() as int)
}

/// Replaces the UTF-16 range `[start, end)` of `input` with `replacement`.
pub fn utf16_slice_replace(input: &str, replacement: &str, start: usize, end: usize) -> (res: String)
    requires
        start <= end <= utf16_length(input@),
    ensures
        res@ == lossy_decode(
            replaced_units(utf16_of(input@), utf16_of(replacement@), start as int, end as int),
        ),
{
    let units = encode_utf16(input);
    let rep = encode_utf16(replacement);
    let mut out: Vec<u16> = Vec::new();
    let mut i: usize = 0;
    while i < start
        invariant
            i <= start <= end <= units@.len(),
            out@ == units@.subrange(0, i as int),
        decreases start - i,
    {
        out.push(units[i]);
        i += 1;
        proof {
            assert(out@ =~= units@.subrange(0, i as int));
        }
    }
    let mut j: usize = 0;
    while j < rep.len()
        invariant
            j <= rep@.len(),
            out@ == units@.subrange(0, start as int) + rep@.subrange(0, j as int),
        decreases rep.len() - j,
    {
        out.push(rep[j]);
        j += 1;
        proof {
            assert(out@ =~= units@.subrange(0, start as int) + rep@.subrange(0, j as int));
        }
    }
    let mut k: usize = end;
    while k < units.len()
        invariant
            end <= k <= units@.len(),
            out@ == units@.subrange(0, start as int) + rep@ + units@.subrange(end as int, k as int),
        decreases units.len() - k,
    {
        proof {
            assert(rep@.subrange(0, rep@.len() as int) =~= rep@);
        }
        out.push(units[k]);
        k += 1;
        proof {
            assert(out@ =~= units@.subrange(0, start as int) + rep@ + units@.subrange(end as int, k as int));
        }
    }
    proof {
        assert(rep@.subrange(0, rep@.len() as int) =~= rep@);
        assert(out@.subrange(0, out@.len() as int) =~= out@);
    }
    decode_utf16_lossy(out.as_slice(), 0, out.len())
}

/// Where an offset moves when text after `after` shifts by `shift_amount`.
pub open spec fn shifted_offset(offset: usize, after: i64, shift_amount: i64) -> usize {
    if (offset as i64) > after {
        (offset as i64).wrapping_add(shift_amount) as usize
    } else {
        offset
    }
}

fn shift_offset(offset: usize, after: i64, shift_amount: i64) -> (res: usize)
    ensures
        res == shifted_offset(offset, after, shift_amount),
{
    if (offset as i64) > after {
        (offset as i64).wrapping_add(shift_amount) as usize
    } else {
        offset
    }
}

/// Moves every offset greater than `after` by `shift_amount`.
pub fn shift_offsets(offsets: &HashSet<usize>, after: i64, shift_amount: i64) -> (res: HashSet<usize>)
    ensures
        res@ == offsets@.map(|o: usize| shifted_offset(o, after, shift_amount)),
{
    let mut res: HashSet<usize> = HashSet::new();
    let ghost keys: Seq<usize> = IteratorSpec::remaining(&spec_hash_keys_iter(offsets)).unref();
    proof {
        assert(keys.to_set() == offsets@);
    }
    for o in iter: offsets.iter()
        invariant
            iter.seq().unref() == keys,
            keys.to_set() == offsets@,
            forall|x: usize| res@.contains(x) <==> exists|j: int| 0 <= j < iter.index() && x == shifted_offset(#[trigger] keys[j], after, shift_amount),
    {
        let ghost idx = iter.index();
        let v = shift_offset(*o, after, shift_amount);
        res.insert(v);
        proof {
            assert(keys[idx] == *o);
            assert forall|x: usize| res@.contains(x) <==> exists|j: int| 0 <= j < idx + 1 && x == shifted_offset(#[trigger] keys[j], after, shift_amount) by {
                if res@.contains(x) && x != v {
                    let j = choose|j: int| 0 <= j < idx && x == shifted_offset(#[trigger] keys[j], after, shift_amount);
                    assert(0 <= j < idx + 1);
                }
            }
        }
    }
    proof {
        assert forall|x: usize| res@.contains(x) <==> offsets@.map(|o: usize| shifted_offset(o, after, shift_amount)).contains(x) by {
            if res@.contains(x) {
                let j = choose|j: int| 0 <= j < keys.len() && x == shifted_offset(#[trigger] keys[j], after, shift_amount);
                assert(keys.to_set().contains(keys[j]));
            }
            if offsets@.map(|o: usize| shifted_offset(o, after, shift_amount)).contains(x) {
                let o = choose|o: usize| offsets@.contains(o) && x == shifted_offset(o, after, shift_amount);
                assert(keys.to_set().contains(o));
                let j = choose|j: int| 0 <= j < keys.len() && keys[j] == o;
                assert(x == shifted_offset(keys[j], after, shift_amount));
            }
        }
        assert(res@ =~= offsets@.map(|o: usize| shifted_offset(o, after, shift_amount)));
    }
    res
}

// ---------------------------------------------------------------------------
// Finding what to rewrite
// ---------------------------------------------------------------------------

/// Whether the rewrite of a reference becomes atomic, optional, or neither.
#[derive(Clone, Copy, PartialEq, Eq, Debug, Structural)]
pub enum AtomicOrOptional {
    /// The group sits alone in the lookahead just before the reference.
    Atomic,
    /// The group may not have been reached when the reference is matched.
    Optional,
    /// A plain inlined copy.
    Neither,
}

/// A reference to replace by its group's contents.
pub struct Action {
    /// How the replacement is wrapped.
    pub atomic_or_optional: AtomicOrOptional,
    /// The referenced capturing group.
    pub group: RcNode,
    /// The reference node.
    pub reference: RcNode,
    /// Where the reference starts, in UTF-16 units.
    pub reference_start: usize,
    /// Where the reference ends, in UTF-16 units.
    pub reference_end: usize,
}

/// A capturing group and the nodes enclosing it.
pub struct GroupEntry {
    /// The group node.
    pub group: RcNode,
    /// The nodes from the root down to the group's parent.
    pub stack: Vec<RcNode>,
}

/// What the walk over a pattern collects.
pub struct Walker {
    /// The references to replace, in the order they were met.
    pub actions: Vec<Action>,
    /// A character can be consumed before any start anchor.
    pub needs_start_anchor_replacement: bool,
    /// Capturing groups by 1-based index.
    pub groups: HashMap<u64, GroupEntry>,
    /// Ids of groups that enclose an unbounded quantifier.
    pub infinite_groups: HashSet<usize>,
    /// The index the next capturing group gets.
    pub next_group_index: u64,
}

/// Every recorded action is a reference with its own range, and every
/// recorded group is a group node.
pub open spec fn walker_wf(w: Walker) -> bool {
    &&& forall|i: int| 0 <= i < w.actions@.len() ==> {
        let a = #[trigger] w.actions@[i];
        &&& a.reference.kind is Reference
        &&& a.reference_start == a.reference.range.0
        &&& a.reference_end == a.reference.range.1
        &&& a.group.kind is Group
    }
    &&& forall|k: u64| #[trigger] w.groups@.contains_key(k) ==> w.groups@[k].group.kind is Group
}

/// The start-anchor part of the walk: whether a character can be consumed
/// while no start anchor has been passed, and whether one has been passed
/// afterwards.
pub open spec fn anchor_walk(n: Node, passed: bool) -> (bool, bool)
    decreases n,
{
    match n.kind {
        NodeKind::Anchor { kind } => (false, passed || kind == AnchorKind::Start),
        NodeKind::Group { behavior, body } => serial_anchor_walk(body@, passed),
        NodeKind::Alternative { body } => serial_anchor_walk(body@, passed),
        NodeKind::Disjunction { body } => (parallel_anchor_walk(body@, passed), passed),
        NodeKind::Quantifier { min, max, greedy, symbol, body } => if max == Some(0u64) {
            (false, passed)
        } else if min == 0 {
            (anchor_walk(*body, passed).0, passed)
        } else {
            anchor_walk(*body, passed)
        },
        NodeKind::CharacterClassRange { min, max } => (false, passed),
        _ => (!passed, passed),
    }
}

/// [`anchor_walk`] over nodes that follow one another.
pub open spec fn serial_anchor_walk(s: Seq<RcNode>, passed: bool) -> (bool, bool)
    decreases s,
{
    if s.len() == 0 {
        (false, passed)
    } else {
        let first = serial_anchor_walk(s.drop_last(), passed);
        let last = anchor_walk(*s.last(), first.1);
        (first.0 || last.0, last.1)
    }
}

/// [`anchor_walk`] over alternative branches, each starting from `passed`.
pub open spec fn parallel_anchor_walk(s: Seq<RcNode>, passed: bool) -> bool
    decreases s,
{
    if s.len() == 0 {
        false
    } else {
        parallel_anchor_walk(s.drop_last(), passed) || anchor_walk(*s.last(), passed).0
    }
}

/// The walk keeps what it recorded and only adds to it.
pub open spec fn walk_step(old_w: Walker, new_w: Walker) -> bool {
    &&& walker_wf(new_w)
    &&& old_w.actions@.len() <= new_w.actions@.len()
    &&& forall|i: int| 0 <= i < old_w.actions@.len() ==> new_w.actions@[i] == old_w.actions@[i]
}

/// A prefix of a list holds no more capturing groups than the list.
proof fn lemma_captures_prefix(s: Seq<RcNode>, j: int)
    requires
        0 <= j <= s.len(),
    ensures
        captures_in(s.take(j)) <= captures_in(s),
    decreases s.len(),
{
    if j < s.len() {
        assert(s.drop_last().take(j) =~= s.take(j));
        lemma_captures_prefix(s.drop_last(), j);
    } else {
        assert(s.take(j) =~= s);
    }
}

/// `true` when `lookahead` is a group whose only child is `group`.
pub fn lookahead_only_contains_group(lookahead: &RcNode, group: &RcNode) -> (res: bool)
    ensures
        res == (match lookahead.kind {
            NodeKind::Group { behavior, body } => body@.len() == 1 && body@[0].id == group.id,
            _ => false,
        }),
{
    if let NodeKind::Group { body, .. } = &lookahead.kind {
        body.len() == 1 && body[0].id == group.id
    } else {
        false
    }
}

/// `stack` with `node` pushed.
fn pushed(stack: &Vec<RcNode>, node: &RcNode) -> (res: Vec<RcNode>)
    ensures
        res@ == stack@.push(*node),
{
    let mut out: Vec<RcNode> = Vec::new();
    let mut i: usize = 0;
    while i < stack.len()
        invariant
            i <= stack@.len(),
            out@ == stack@.take(i as int),
        decreases stack.len() - i,
    {
        out.push(Rc::clone(&stack[i]));
        i += 1;
        proof {
            assert(out@ =~= stack@.take(i as int));
        }
    }
    out.push(Rc::clone(node));
    proof {
        assert(out@ =~= stack@.push(*node));
    }
    out
}

/// A copy of `stack`.
fn copied(stack: &Vec<RcNode>) -> (res: Vec<RcNode>)
    ensures
        res@ == stack@,
{
    let mut out: Vec<RcNode> = Vec::new();
    let mut i: usize = 0;
    while i < stack.len()
        invariant
            i <= stack@.len(),
            out@ == stack@.take(i as int),
        decreases stack.len() - i,
    {
        out.push(Rc::clone(&stack[i]));
        i += 1;
        proof {
            assert(out@ =~= stack@.take(i as int));
        }
    }
    proof {
        assert(out@ =~= stack@);
    }
    out
}

/// The ids of the nodes of `stack`.
fn ids_of(stack: &Vec<RcNode>) -> (res: Vec<usize>)
    ensures
        res@.len() == stack@.len(),
        forall|i: int| 0 <= i < stack@.len() ==> res@[i] == (#[trigger] stack@[i]).id,
{
    let mut out: Vec<usize> = Vec::new();
    let mut i: usize = 0;
    while i < stack.len()
        invariant
            i <= stack@.len(),
            out@.len() == i,
            forall|j: int| 0 <= j < i ==> out@[j] == (#[trigger] stack@[j]).id,
        decreases stack.len() - i,
    {
        out.push(stack[i].id);
        i += 1;
    }
    out
}

/// `true` when `id` occurs in `ids`.
fn contains_id(ids: &[usize], id: usize) -> (res: bool)
    ensures
        res == ids@.contains(id),
{
    let mut i: usize = 0;
    while i < ids.len()
        invariant
            i <= ids@.len(),
            forall|j: int| 0 <= j < i ==> ids@[j] != id,
        decreases ids.len() - i,
    {
        if ids[i] == id {
            return true;
        }
        i += 1;
    }
    false
}

/// What the walk has collected, as plain values: the actions as
/// (wrapping, group, reference), whether a start anchor is missing, the
/// groups by index with the nodes around them, the unbounded groups' ids,
/// and the next group index.
pub type WalkModel = (Seq<(AtomicOrOptional, Node, Node)>, bool, Map<u64, (Node, Seq<Node>)>, Set<usize>, u64);

/// The walker as plain values.
pub open spec fn walker_model(w: Walker) -> WalkModel {
    (
        w.actions@.map_values(|a: Action| (a.atomic_or_optional, *a.group, *a.reference)),
        w.needs_start_anchor_replacement,
        w.groups@.map_values(|e: GroupEntry| (*e.group, nodes_of(e.stack@))),
        w.infinite_groups@,
        w.next_group_index,
    )
}

/// A lookaround group.
pub open spec fn is_lookaround_node(n: Node) -> bool {
    n.kind matches NodeKind::Group { behavior, body } && behavior.spec_is_lookaround()
}

/// The position just after the innermost lookaround group of a stack, or 0.
pub open spec fn lookaround_cut(stack: Seq<Node>) -> int
    decreases stack.len(),
{
    if stack.len() == 0 {
        0
    } else if is_lookaround_node(stack.last()) {
        stack.len() as int
    } else {
        lookaround_cut(stack.drop_last())
    }
}

/// The ids of the groups around a node inside its innermost lookaround: the
/// groups that an unbounded quantifier at the node makes unbounded.
pub open spec fn unbounded_group_ids(stack: Seq<Node>) -> Set<usize> {
    Set::new(
        |id: usize|
            exists|i: int| lookaround_cut(stack) <= i < stack.len() && (#[trigger] stack[i]).kind is Group && stack[i].id == id,
    )
}

/// The nodes of `s` whose id is in `ids`, in order.
pub open spec fn nodes_with_ids(s: Seq<Node>, ids: Seq<usize>) -> Seq<Node>
    decreases s.len(),
{
    if s.len() == 0 {
        Seq::empty()
    } else {
        let rest = nodes_with_ids(s.drop_last(), ids);
        if ids.contains(s.last().id) {
            rest.push(s.last())
        } else {
            rest
        }
    }
}

/// The ids of a list of nodes.
pub open spec fn ids_of_nodes(s: Seq<Node>) -> Seq<usize> {
    s.map_values(|n: Node| n.id)
}

/// The nodes around a group that are not around a reference to it: those of
/// the group's stack whose id lies after the common prefix of the two stacks'
/// ids.
pub open spec fn local_nodes(group_stack: Seq<Node>, reference_stack: Seq<Node>) -> Seq<Node> {
    let gids = ids_of_nodes(group_stack);
    nodes_with_ids(group_stack, gids.skip(common_prefix_len(gids, ids_of_nodes(reference_stack))))
}

/// One of the nodes is a lookaround.
pub open spec fn has_lookaround(s: Seq<Node>) -> bool {
    exists|i: int| 0 <= i < s.len() && is_lookaround_node(#[trigger] s[i])
}

/// None of the lookarounds among the nodes is negative.
pub open spec fn no_negative_lookaround(s: Seq<Node>) -> bool {
    forall|i: int|
        0 <= i < s.len() && is_lookaround_node(#[trigger] s[i]) ==> !s[i].kind->Group_behavior.spec_is_negative()
}

/// One of the nodes is a choice or a quantifier that may repeat zero times.
pub open spec fn may_be_skipped(n: Node) -> bool {
    n.kind is Disjunction || (n.kind is Quantifier && n.kind->Quantifier_min == 0)
}

/// Some node may be skipped.
pub open spec fn has_skippable(s: Seq<Node>) -> bool {
    exists|i: int| 0 <= i < s.len() && may_be_skipped(#[trigger] s[i])
}

/// `lookahead` is a group whose only child is `group`.
pub open spec fn holds_only(lookahead: Node, group: Node) -> bool {
    match lookahead.kind {
        NodeKind::Group { behavior, body } => body@.len() == 1 && body@[0].id == group.id,
        _ => false,
    }
}

/// What the walk does at a reference to group `match_index`: when the group
/// is known, cannot be unset by a negative lookaround around it, and sits in
/// a lookaround the reference is not in or is unbounded, the reference gets
/// an action; atomic when the lookahead just before the reference holds only
/// the group, optional when the group sits in such a lookaround and may be
/// skipped, plain otherwise.
pub open spec fn reference_step(m: WalkModel, reference: Node, match_index: u64, stack: Seq<Node>, preceding: Option<Node>) -> WalkModel {
    let (actions, needs, groups, infinite, next) = m;
    if !groups.contains_key(match_index) {
        m
    } else {
        let (group, group_stack) = groups[match_index];
        let local = local_nodes(group_stack, stack);
        let in_lookaround = has_lookaround(local);
        if no_negative_lookaround(local) && (in_lookaround || infinite.contains(group.id)) {
            let atomic = match preceding {
                Some(lh) => holds_only(lh, group),
                None => false,
            };
            let kind = if atomic {
                AtomicOrOptional::Atomic
            } else if in_lookaround && has_skippable(local) {
                AtomicOrOptional::Optional
            } else {
                AtomicOrOptional::Neither
            };
            (actions.push((kind, group, reference)), needs, groups, infinite, next)
        } else {
            m
        }
    }
}

/// The walk with a start anchor missing once a character can be consumed
/// before one.
pub open spec fn consumed(m: WalkModel, passed: bool) -> WalkModel {
    (m.0, m.1 || !passed, m.2, m.3, m.4)
}

/// The lookahead just before the next node of a sequence: the last node so
/// far, when it is a positive lookahead.
pub open spec fn preceding_lookahead(prefix: Seq<RcNode>) -> Option<Node> {
    if prefix.len() > 0 && ((*prefix.last()).kind matches NodeKind::Group { behavior, body } && behavior
        == GroupBehavior::Lookahead) {
        Some(*prefix.last())
    } else {
        None
    }
}

/// The walk over a node inside the nodes `stack`, with `passed` telling
/// whether a start anchor was passed and `preceding` the lookahead just
/// before the node; the result is the walk afterwards and whether a start
/// anchor was passed.
pub open spec fn walk_model(n: Node, stack: Seq<Node>, passed: bool, preceding: Option<Node>, m: WalkModel) -> (WalkModel, bool)
    decreases n,
{
    match n.kind {
        NodeKind::Anchor { kind } => (m, passed || kind == AnchorKind::Start),
        NodeKind::Group { behavior, body } => {
            let normal = behavior == GroupBehavior::Normal;
            let m1 = if normal {
                (m.0, m.1, m.2, m.3, (m.4 + 1) as u64)
            } else {
                m
            };
            let (m2, p2) = serial_walk_model(body@, stack.push(n), passed, m1);
            let m3 = if normal {
                (m2.0, m2.1, m2.2.insert(m.4, (n, stack)), m2.3, m2.4)
            } else {
                m2
            };
            (m3, p2)
        },
        NodeKind::Alternative { body } => serial_walk_model(body@, stack.push(n), passed, m),
        NodeKind::Disjunction { body } => (parallel_walk_model(body@, stack.push(n), passed, m), passed),
        NodeKind::Quantifier { min, max, greedy, symbol, body } => if max == Some(0u64) {
            (m, passed)
        } else {
            let m1 = if max is None {
                (m.0, m.1, m.2, m.3.union(unbounded_group_ids(stack)), m.4)
            } else {
                m
            };
            let (m2, p2) = walk_model(*body, stack.push(n), passed, None, m1);
            if min == 0 {
                (m2, passed)
            } else {
                (m2, p2)
            }
        },
        NodeKind::Reference { match_index } => (reference_step(consumed(m, passed), n, match_index, stack, preceding), passed),
        NodeKind::CharacterClassRange { min, max } => (m, passed),
        _ => (consumed(m, passed), passed),
    }
}

/// The walk over nodes that follow one another.
pub open spec fn serial_walk_model(s: Seq<RcNode>, stack: Seq<Node>, passed: bool, m: WalkModel) -> (WalkModel, bool)
    decreases s,
{
    if s.len() == 0 {
        (m, passed)
    } else {
        let (m1, p1) = serial_walk_model(s.drop_last(), stack, passed, m);
        walk_model(*s.last(), stack, p1, preceding_lookahead(s.drop_last()), m1)
    }
}

/// The walk over alternative branches, each from the same `passed`.
pub open spec fn parallel_walk_model(s: Seq<RcNode>, stack: Seq<Node>, passed: bool, m: WalkModel) -> WalkModel
    decreases s,
{
    if s.len() == 0 {
        m
    } else {
        walk_model(*s.last(), stack, passed, None, parallel_walk_model(s.drop_last(), stack, passed, m)).0
    }
}

/// A walk over a tree without references finds no rewrites.
proof fn lemma_walk_without_references(n: Node, stack: Seq<Node>, passed: bool, preceding: Option<Node>, m: WalkModel)
    requires
        no_references(n),
    ensures
        walk_model(n, stack, passed, preceding, m).0.0 == m.0,
    decreases n,
{
    match n.kind {
        NodeKind::Group { behavior, body } => {
            let m1 = if behavior == GroupBehavior::Normal {
                (m.0, m.1, m.2, m.3, (m.4 + 1) as u64)
            } else {
                m
            };
            lemma_serial_walk_without_references(body@, stack.push(n), passed, m1);
        },
        NodeKind::Alternative { body } => lemma_serial_walk_without_references(body@, stack.push(n), passed, m),
        NodeKind::Disjunction { body } => lemma_parallel_walk_without_references(body@, stack.push(n), passed, m),
        NodeKind::Quantifier { min, max, greedy, symbol, body } => {
            let m1 = if max is None {
                (m.0, m.1, m.2, m.3.union(unbounded_group_ids(stack)), m.4)
            } else {
                m
            };
            lemma_walk_without_references(quantified(n), stack.push(n), passed, None, m1);
        },
        _ => {},
    }
}

/// A walk over nodes without references finds no rewrites.
proof fn lemma_serial_walk_without_references(s: Seq<RcNode>, stack: Seq<Node>, passed: bool, m: WalkModel)
    requires
        none_has_references(s),
    ensures
        serial_walk_model(s, stack, passed, m).0.0 == m.0,
    decreases s,
{
    if s.len() > 0 {
        lemma_serial_walk_without_references(s.drop_last(), stack, passed, m);
        let (m1, p1) = serial_walk_model(s.drop_last(), stack, passed, m);
        lemma_walk_without_references(last_node(s), stack, p1, preceding_lookahead(s.drop_last()), m1);
    }
}

/// A walk over branches without references finds no rewrites.
proof fn lemma_parallel_walk_without_references(s: Seq<RcNode>, stack: Seq<Node>, passed: bool, m: WalkModel)
    requires
        none_has_references(s),
    ensures
        parallel_walk_model(s, stack, passed, m).0 == m.0,
    decreases s,
{
    if s.len() > 0 {
        lemma_parallel_walk_without_references(s.drop_last(), stack, passed, m);
        lemma_walk_without_references(last_node(s), stack, passed, None, parallel_walk_model(s.drop_last(), stack, passed, m));
    }
}

/// A walk never takes a group off the unbounded ones.
pub proof fn lemma_walk_keeps_unbounded(n: Node, stack: Seq<Node>, passed: bool, preceding: Option<Node>, m: WalkModel)
    ensures
        m.3.subset_of(walk_model(n, stack, passed, preceding, m).0.3),
    decreases n,
{
    match n.kind {
        NodeKind::Group { behavior, body } => {
            let m1 = if behavior == GroupBehavior::Normal {
                (m.0, m.1, m.2, m.3, (m.4 + 1) as u64)
            } else {
                m
            };
            lemma_serial_walk_keeps_unbounded(body@, stack.push(n), passed, m1);
        },
        NodeKind::Alternative { body } => lemma_serial_walk_keeps_unbounded(body@, stack.push(n), passed, m),
        NodeKind::Disjunction { body } => lemma_parallel_walk_keeps_unbounded(body@, stack.push(n), passed, m),
        NodeKind::Quantifier { min, max, greedy, symbol, body } => {
            if max != Some(0u64) {
                let m1 = if max is None {
                    (m.0, m.1, m.2, m.3.union(unbounded_group_ids(stack)), m.4)
                } else {
                    m
                };
                lemma_walk_keeps_unbounded(quantified(n), stack.push(n), passed, None, m1);
            }
        },
        _ => {},
    }
}

/// A walk over nodes that follow one another never takes a group off the
/// unbounded ones.
pub proof fn lemma_serial_walk_keeps_unbounded(s: Seq<RcNode>, stack: Seq<Node>, passed: bool, m: WalkModel)
    ensures
        m.3.subset_of(serial_walk_model(s, stack, passed, m).0.3),
    decreases s,
{
    if s.len() > 0 {
        lemma_serial_walk_keeps_unbounded(s.drop_last(), stack, passed, m);
        let (m1, p1) = serial_walk_model(s.drop_last(), stack, passed, m);
        lemma_walk_keeps_unbounded(last_node(s), stack, p1, preceding_lookahead(s.drop_last()), m1);
    }
}

/// A walk over branches never takes a group off the unbounded ones.
pub proof fn lemma_parallel_walk_keeps_unbounded(s: Seq<RcNode>, stack: Seq<Node>, passed: bool, m: WalkModel)
    ensures
        m.3.subset_of(parallel_walk_model(s, stack, passed, m).3),
    decreases s,
{
    if s.len() > 0 {
        lemma_parallel_walk_keeps_unbounded(s.drop_last(), stack, passed, m);
        lemma_walk_keeps_unbounded(last_node(s), stack, passed, None, parallel_walk_model(s.drop_last(), stack, passed, m));
    }
}

/// Walking a quantifier with no upper bound, however it is written (`*`,
/// `+` or `{n,}`), leaves unbounded every group that was, and every group
/// around the quantifier up to the innermost lookaround.
pub proof fn lemma_unbounded_quantifier_marks_groups(
    q: Node,
    stack: Seq<Node>,
    passed: bool,
    preceding: Option<Node>,
    m: WalkModel,
)
    requires
        q.kind matches NodeKind::Quantifier { max, .. } && max is None,
    ensures
        m.3.union(unbounded_group_ids(stack)).subset_of(walk_model(q, stack, passed, preceding, m).0.3),
{
    if let NodeKind::Quantifier { min, max, greedy, symbol, body } = q.kind {
        let m1 = (m.0, m.1, m.2, m.3.union(unbounded_group_ids(stack)), m.4);
        lemma_walk_keeps_unbounded(quantified(q), stack.push(q), passed, None, m1);
    }
}

/// A reference to a recorded group that is marked unbounded, with no
/// negative lookaround between them, gets one rewrite action for that group
/// and that reference, and no other action is added or lost.
pub proof fn lemma_reference_to_unbounded_group_is_rewritten(
    m: WalkModel,
    reference: Node,
    match_index: u64,
    stack: Seq<Node>,
    preceding: Option<Node>,
)
    requires
        m.2.contains_key(match_index),
        m.3.contains(m.2[match_index].0.id),
        no_negative_lookaround(local_nodes(m.2[match_index].1, stack)),
    ensures
        reference_step(m, reference, match_index, stack, preceding).0.len() == m.0.len() + 1,
        reference_step(m, reference, match_index, stack, preceding).0.drop_last() == m.0,
        reference_step(m, reference, match_index, stack, preceding).0.last().1 == m.2[match_index].0,
        reference_step(m, reference, match_index, stack, preceding).0.last().2 == reference,
        reference_step(m, reference, match_index, stack, preceding).3 == m.3,
{
    let r = reference_step(m, reference, match_index, stack, preceding);
    assert(r.0.drop_last() =~= m.0);
}

/// The ids of the groups among the nodes of a stack from position `from` on.
pub open spec fn group_ids_from(stack: Seq<Node>, from: int) -> Set<usize> {
    Set::new(|id: usize| exists|i: int| from <= i < stack.len() && (#[trigger] stack[i]).kind is Group && stack[i].id == id)
}

/// The node behind an optional shared node.
pub open spec fn opt_rc_node(o: Option<RcNode>) -> Option<Node> {
    match o {
        Some(r) => Some(*r),
        None => None,
    }
}

/// The node behind an optional shared node.
pub open spec fn opt_node(o: Option<&RcNode>) -> Option<Node> {
    match o {
        Some(r) => Some(**r),
        None => None,
    }
}

/// Records a consuming node.
fn on_consuming_node(passed: bool, walker: &mut Walker)
    ensures
        final(walker).needs_start_anchor_replacement == (old(walker).needs_start_anchor_replacement
            || !passed),
        final(walker).actions == old(walker).actions,
        final(walker).groups == old(walker).groups,
        final(walker).infinite_groups == old(walker).infinite_groups,
        final(walker).next_group_index == old(walker).next_group_index,
{
    if !passed {
        walker.needs_start_anchor_replacement = true;
    }
}

/// Decides whether a reference to the group recorded under `match_index`
/// must be rewritten, and records the action.
fn visit_reference(
    node: &RcNode,
    match_index: u64,
    node_stack: &Vec<RcNode>,
    immediately_preceding_lookahead: Option<&RcNode>,
    walker: &mut Walker,
)
    requires
        walker_wf(*old(walker)),
        node.kind is Reference,
    ensures
        walk_step(*old(walker), *final(walker)),
        final(walker).needs_start_anchor_replacement == old(walker).needs_start_anchor_replacement,
        final(walker).groups == old(walker).groups,
        final(walker).next_group_index == old(walker).next_group_index,
        walker_model(*final(walker)) == reference_step(
            walker_model(*old(walker)),
            **node,
            match_index,
            nodes_of(node_stack@),
            opt_node(immediately_preceding_lookahead),
        ),
{
    let ghost m = walker_model(*walker);
    let entry = match walker.groups.get(&match_index) {
        Some(e) => e,
        None => {
            proof {
                assert(!m.2.contains_key(match_index));
            }
            return;
        },
    };
    let group = Rc::clone(&entry.group);
    let group_stack = copied(&entry.stack);
    let ghost gstack = nodes_of(group_stack@);
    let ghost rstack = nodes_of(node_stack@);
    proof {
        assert(walker.groups@.contains_key(match_index));
        assert(m.2[match_index] == (*group, gstack));
    }
    let group_stack_ids = ids_of(&group_stack);
    let node_stack_ids = ids_of(node_stack);
    proof {
        assert(group_stack_ids@ =~= ids_of_nodes(gstack));
        assert(node_stack_ids@ =~= ids_of_nodes(rstack));
    }
    let (local_ids, _) = drop_common(group_stack_ids.as_slice(), node_stack_ids.as_slice());
    proof {
        let k = group_stack_ids@.len() - local_ids@.len();
        lemma_common_prefix_len_unique(group_stack_ids@, node_stack_ids@, k);
        assert(local_ids@ == ids_of_nodes(gstack).skip(common_prefix_len(ids_of_nodes(gstack), ids_of_nodes(rstack))));
    }

    let mut local_stack: Vec<RcNode> = Vec::new();
    let mut i: usize = 0;
    while i < group_stack.len()
        invariant
            i <= group_stack@.len(),
            gstack == nodes_of(group_stack@),
            nodes_of(local_stack@) == nodes_with_ids(gstack.take(i as int), local_ids@),
        decreases group_stack.len() - i,
    {
        proof {
            assert(gstack.take(i + 1).drop_last() =~= gstack.take(i as int));
            assert(gstack.take(i + 1).last() == *group_stack@[i as int]);
        }
        if contains_id(local_ids, group_stack[i].id) {
            let ghost before = local_stack@;
            local_stack.push(Rc::clone(&group_stack[i]));
            proof {
                assert(nodes_of(local_stack@) =~= nodes_of(before).push(*group_stack@[i as int]));
            }
        }
        i += 1;
    }
    let ghost local = nodes_of(local_stack@);
    proof {
        assert(gstack.take(i as int) =~= gstack);
        assert(local == local_nodes(gstack, rstack));
    }

    let mut group_in_lookahead = false;
    let mut group_could_be_set = true;
    let mut group_may_not_be_reached = false;
    let mut j: usize = 0;
    while j < local_stack.len()
        invariant
            j <= local_stack@.len(),
            local == nodes_of(local_stack@),
            group_in_lookahead == has_lookaround(local.take(j as int)),
            group_could_be_set == no_negative_lookaround(local.take(j as int)),
            group_may_not_be_reached == has_skippable(local.take(j as int)),
        decreases local_stack.len() - j,
    {
        let ghost t0 = local.take(j as int);
        let ghost t1 = local.take(j + 1);
        let ghost x = local[j as int];
        proof {
            assert(t1 =~= t0.push(x));
            assert(x == *local_stack@[j as int]);
        }
        match &local_stack[j].kind {
            NodeKind::Group { behavior, .. } => {
                if behavior.is_lookaround() {
                    group_in_lookahead = true;
                    if behavior.is_negative() {
                        group_could_be_set = false;
                    }
                }
            },
            NodeKind::Disjunction { .. } => {
                group_may_not_be_reached = true;
            },
            NodeKind::Quantifier { min, .. } => {
                if *min == 0 {
                    group_may_not_be_reached = true;
                }
            },
            _ => {},
        }
        proof {
            assert(has_lookaround(t1) == (has_lookaround(t0) || is_lookaround_node(x))) by {
                if has_lookaround(t1) {
                    let w = choose|w: int| 0 <= w < t1.len() && is_lookaround_node(#[trigger] t1[w]);
                    if w < t0.len() {
                        assert(t0[w] == t1[w]);
                    }
                }
                if has_lookaround(t0) {
                    let w = choose|w: int| 0 <= w < t0.len() && is_lookaround_node(#[trigger] t0[w]);
                    assert(t1[w] == t0[w]);
                }
                if is_lookaround_node(x) {
                    assert(t1[t0.len() as int] == x);
                }
            }
            assert(has_skippable(t1) == (has_skippable(t0) || may_be_skipped(x))) by {
                if has_skippable(t1) {
                    let w = choose|w: int| 0 <= w < t1.len() && may_be_skipped(#[trigger] t1[w]);
                    if w < t0.len() {
                        assert(t0[w] == t1[w]);
                    }
                }
                if has_skippable(t0) {
                    let w = choose|w: int| 0 <= w < t0.len() && may_be_skipped(#[trigger] t0[w]);
                    assert(t1[w] == t0[w]);
                }
                if may_be_skipped(x) {
                    assert(t1[t0.len() as int] == x);
                }
            }
            assert(no_negative_lookaround(t1) == (no_negative_lookaround(t0) && !(is_lookaround_node(x)
                && x.kind->Group_behavior.spec_is_negative()))) by {
                if no_negative_lookaround(t0) && !(is_lookaround_node(x) && x.kind->Group_behavior.spec_is_negative()) {
                    assert forall|w: int| 0 <= w < t1.len() && is_lookaround_node(#[trigger] t1[w]) implies !t1[w].kind->Group_behavior.spec_is_negative() by {
                        if w < t0.len() {
                            assert(t0[w] == t1[w]);
                        }
                    }
                }
                if no_negative_lookaround(t1) {
                    assert forall|w: int| 0 <= w < t0.len() && is_lookaround_node(#[trigger] t0[w]) implies !t0[w].kind->Group_behavior.spec_is_negative() by {
                        assert(t1[w] == t0[w]);
                    }
                    assert(t1[t0.len() as int] == x);
                }
            }
        }
        j += 1;
    }
    proof {
        assert(local.take(j as int) =~= local);
    }

    if group_could_be_set && (group_in_lookahead || walker.infinite_groups.contains(&group.id)) {
        let atomic = match immediately_preceding_lookahead {
            Some(lh) => lookahead_only_contains_group(lh, &group),
            None => false,
        };
        let optional = group_in_lookahead && group_may_not_be_reached;
        let atomic_or_optional = if atomic {
            AtomicOrOptional::Atomic
        } else if optional {
            AtomicOrOptional::Optional
        } else {
            AtomicOrOptional::Neither
        };
        let action = Action {
            atomic_or_optional,
            group,
            reference: Rc::clone(node),
            reference_start: node.range.0,
            reference_end: node.range.1,
        };
        let ghost before = walker.actions@;
        walker.actions.push(action);
        proof {
            assert forall|i: int| 0 <= i < before.len() implies walker.actions@[i] == before[i] by {
                assert(walker.actions@[i] == before.push(action)[i]);
            }
            assert(walker.actions@.map_values(|a: Action| (a.atomic_or_optional, *a.group, *a.reference)) =~= before.map_values(
                |a: Action| (a.atomic_or_optional, *a.group, *a.reference),
            ).push((atomic_or_optional, *action.group, **node)));
            assert(walker_model(*walker) =~= reference_step(m, **node, match_index, rstack, opt_node(immediately_preceding_lookahead)));
        }
    }
}

/// Walks one node, recording capturing groups, unbounded groups, the
/// references to rewrite and whether a start anchor is missing.
fn walk_downgrade(
    node: &RcNode,
    node_stack: &Vec<RcNode>,
    passed_start_anchor: &mut bool,
    immediately_preceding_lookahead: Option<&RcNode>,
    walker: &mut Walker,
)
    requires
        walker_wf(*old(walker)),
        old(walker).next_group_index + capture_count(**node) <= u64::MAX,
    ensures
        walk_step(*old(walker), *final(walker)),
        old(walker).next_group_index <= final(walker).next_group_index <= old(walker).next_group_index
            + capture_count(**node),
        final(walker).needs_start_anchor_replacement == (old(walker).needs_start_anchor_replacement
            || anchor_walk(**node, *old(passed_start_anchor)).0),
        *final(passed_start_anchor) == anchor_walk(**node, *old(passed_start_anchor)).1,
        (walker_model(*final(walker)), *final(passed_start_anchor)) == walk_model(
            **node,
            nodes_of(node_stack@),
            *old(passed_start_anchor),
            opt_node(immediately_preceding_lookahead),
            walker_model(*old(walker)),
        ),
    decreases **node,
{
    let ghost m = walker_model(*walker);
    let ghost stack_nodes = nodes_of(node_stack@);
    match &node.kind {
        NodeKind::CharacterClass { .. }
        | NodeKind::CharacterClassEscape { .. }
        | NodeKind::UnicodePropertyEscape { .. }
        | NodeKind::Value { .. }
        | NodeKind::Dot => {
            on_consuming_node(*passed_start_anchor, walker);
            proof {
                assert(walker_model(*walker) =~= consumed(m, *old(passed_start_anchor)));
            }
        },
        NodeKind::Anchor { kind } => {
            if *kind == AnchorKind::Start {
                *passed_start_anchor = true;
            }
        },
        NodeKind::Group { behavior, body } => {
            let group_index = if *behavior == GroupBehavior::Normal {
                let idx = walker.next_group_index;
                walker.next_group_index = walker.next_group_index + 1;
                Some(idx)
            } else {
                None
            };
            let new_stack = pushed(node_stack, node);
            proof {
                assert(nodes_of(new_stack@) =~= stack_nodes.push(**node));
            }
            walk_all_serial(body, &new_stack, passed_start_anchor, walker);
            if let Some(idx) = group_index {
                let entry = GroupEntry { group: Rc::clone(node), stack: copied(node_stack) };
                let ghost m2 = walker_model(*walker);
                walker.groups.insert(idx, entry);
                proof {
                    assert(walker_model(*walker).2 =~= m2.2.insert(idx, (**node, stack_nodes)));
                    assert forall|k: u64| #[trigger] walker.groups@.contains_key(k) implies walker.groups@[k].group.kind is Group by {
                        if k != idx {
                            assert(old(walker).groups@.contains_key(k) || walker.groups@.contains_key(k));
                        }
                    }
                }
            }
        },
        NodeKind::Disjunction { body } => {
            let new_stack = pushed(node_stack, node);
            proof {
                assert(nodes_of(new_stack@) =~= stack_nodes.push(**node));
            }
            walk_all_parallel(body, &new_stack, passed_start_anchor, walker);
        },
        NodeKind::Alternative { body } => {
            let new_stack = pushed(node_stack, node);
            proof {
                assert(nodes_of(new_stack@) =~= stack_nodes.push(**node));
            }
            walk_all_serial(body, &new_stack, passed_start_anchor, walker);
        },
        NodeKind::Quantifier { min, max, body, .. } => {
            if *max != Some(0) {
                if max.is_none() {
                    let mut k: usize = node_stack.len();
                    let mut stop = false;
                    let ghost infinite0 = walker.infinite_groups@;
                    proof {
                        assert(stack_nodes.take(k as int) =~= stack_nodes);
                        assert(group_ids_from(stack_nodes, k as int) =~= Set::<usize>::empty());
                        assert(infinite0.union(Set::<usize>::empty()) =~= infinite0);
                    }
                    while k > 0 && !stop
                        invariant
                            k <= node_stack@.len(),
                            stack_nodes == nodes_of(node_stack@),
                            walker_wf(*walker),
                            walker.next_group_index == old(walker).next_group_index,
                            walker.actions == old(walker).actions,
                            walker.groups == old(walker).groups,
                            walker.needs_start_anchor_replacement == old(walker).needs_start_anchor_replacement,
                            !stop ==> lookaround_cut(stack_nodes) == lookaround_cut(stack_nodes.take(k as int)),
                            stop ==> lookaround_cut(stack_nodes) == k,
                            walker.infinite_groups@ == infinite0.union(group_ids_from(stack_nodes, k as int)),
                        decreases 2 * k + (if stop { 0int } else { 1int }),
                    {
                        let idx = k - 1;
                        proof {
                            assert(stack_nodes.take(k as int).drop_last() =~= stack_nodes.take(idx as int));
                            assert(stack_nodes.take(k as int).last() == stack_nodes[idx as int]);
                            assert(stack_nodes[idx as int] == *node_stack@[idx as int]);
                        }
                        if let NodeKind::Group { behavior, .. } = &node_stack[idx].kind {
                            if behavior.is_lookaround() {
                                stop = true;
                            } else {
                                walker.infinite_groups.insert(node_stack[idx].id);
                                proof {
                                    assert(group_ids_from(stack_nodes, idx as int) =~= group_ids_from(stack_nodes, k as int).insert(
                                        stack_nodes[idx as int].id,
                                    ));
                                    assert(walker.infinite_groups@ =~= infinite0.union(group_ids_from(stack_nodes, idx as int)));
                                }
                                k = idx;
                            }
                        } else {
                            proof {
                                assert(group_ids_from(stack_nodes, idx as int) =~= group_ids_from(stack_nodes, k as int));
                            }
                            k = idx;
                        }
                    }
                    proof {
                        if !stop {
                            assert(k == 0);
                            assert(stack_nodes.take(0) =~= Seq::<Node>::empty());
                        }
                        assert(group_ids_from(stack_nodes, k as int) =~= unbounded_group_ids(stack_nodes));
                    }
                }
                let ghost m1 = walker_model(*walker);
                let new_stack = pushed(node_stack, node);
                proof {
                    assert(nodes_of(new_stack@) =~= stack_nodes.push(**node));
                }
                if *min == 0 {
                    let mut copy = *passed_start_anchor;
                    walk_downgrade(body, &new_stack, &mut copy, None, walker);
                } else {
                    walk_downgrade(body, &new_stack, passed_start_anchor, None, walker);
                }
            }
        },
        NodeKind::Reference { match_index } => {
            on_consuming_node(*passed_start_anchor, walker);
            proof {
                assert(walker_model(*walker) =~= consumed(m, *old(passed_start_anchor)));
            }
            visit_reference(node, *match_index, node_stack, immediately_preceding_lookahead, walker);
        },
        NodeKind::CharacterClassRange { .. } => {},
    }
}

/// Walks nodes that follow one another, remembering a lookahead that
/// immediately precedes each node.
fn walk_all_serial(
    nodes: &Vec<RcNode>,
    node_stack: &Vec<RcNode>,
    passed_start_anchor: &mut bool,
    walker: &mut Walker,
)
    requires
        walker_wf(*old(walker)),
        old(walker).next_group_index + captures_in(nodes@) <= u64::MAX,
    ensures
        walk_step(*old(walker), *final(walker)),
        old(walker).next_group_index <= final(walker).next_group_index <= old(walker).next_group_index
            + captures_in(nodes@),
        final(walker).needs_start_anchor_replacement == (old(walker).needs_start_anchor_replacement
            || serial_anchor_walk(nodes@, *old(passed_start_anchor)).0),
        *final(passed_start_anchor) == serial_anchor_walk(nodes@, *old(passed_start_anchor)).1,
        (walker_model(*final(walker)), *final(passed_start_anchor)) == serial_walk_model(
            nodes@,
            nodes_of(node_stack@),
            *old(passed_start_anchor),
            walker_model(*old(walker)),
        ),
    decreases nodes@,
{
    let mut just_had_lookahead: Option<RcNode> = None;
    let mut i: usize = 0;
    proof {
        assert(nodes@.take(0) =~= Seq::<RcNode>::empty());
    }
    while i < nodes.len()
        invariant
            i <= nodes@.len(),
            (walker_model(*walker), *passed_start_anchor) == serial_walk_model(
                nodes@.take(i as int),
                nodes_of(node_stack@),
                *old(passed_start_anchor),
                walker_model(*old(walker)),
            ),
            opt_rc_node(just_had_lookahead) == preceding_lookahead(nodes@.take(i as int)),
            walk_step(*old(walker), *walker),
            old(walker).next_group_index + captures_in(nodes@) <= u64::MAX,
            old(walker).next_group_index <= walker.next_group_index <= old(walker).next_group_index
                + captures_in(nodes@.take(i as int)),
            walker.needs_start_anchor_replacement == (old(walker).needs_start_anchor_replacement
                || serial_anchor_walk(nodes@.take(i as int), *old(passed_start_anchor)).0),
            *passed_start_anchor == serial_anchor_walk(nodes@.take(i as int), *old(passed_start_anchor)).1,
        decreases nodes.len() - i,
    {
        let ghost mid = *walker;
        let expression = &nodes[i];
        proof {
            lemma_captures_prefix(nodes@, i + 1);
            assert(nodes@.take(i + 1).drop_last() =~= nodes@.take(i as int));
            assert(nodes@.take(i + 1).last() == nodes@[i as int]);
        }
        let previous: Option<&RcNode> = match &just_had_lookahead {
            Some(r) => Some(r),
            None => None,
        };
        walk_downgrade(expression, node_stack, passed_start_anchor, previous, walker);
        just_had_lookahead = match &expression.kind {
            NodeKind::Group { behavior: GroupBehavior::Lookahead, .. } => Some(Rc::clone(expression)),
            _ => None,
        };
        proof {
            let t = nodes@.take(i + 1);
            assert(t.drop_last() =~= nodes@.take(i as int));
            assert(t.last() == nodes@[i as int]);
            assert forall|j: int| 0 <= j < old(walker).actions@.len() implies walker.actions@[j] == old(walker).actions@[j] by {
                assert(walker.actions@[j] == mid.actions@[j]);
            }
        }
        i += 1;
    }
    proof {
        assert(nodes@.take(i as int) =~= nodes@);
    }
}

/// Walks alternative branches, each from the same start-anchor state.
fn walk_all_parallel(
    nodes: &Vec<RcNode>,
    node_stack: &Vec<RcNode>,
    passed_start_anchor: &mut bool,
    walker: &mut Walker,
)
    requires
        walker_wf(*old(walker)),
        old(walker).next_group_index + captures_in(nodes@) <= u64::MAX,
    ensures
        walk_step(*old(walker), *final(walker)),
        old(walker).next_group_index <= final(walker).next_group_index <= old(walker).next_group_index
            + captures_in(nodes@),
        final(walker).needs_start_anchor_replacement == (old(walker).needs_start_anchor_replacement
            || parallel_anchor_walk(nodes@, *old(passed_start_anchor))),
        *final(passed_start_anchor) == *old(passed_start_anchor),
        walker_model(*final(walker)) == parallel_walk_model(
            nodes@,
            nodes_of(node_stack@),
            *old(passed_start_anchor),
            walker_model(*old(walker)),
        ),
    decreases nodes@,
{
    let mut i: usize = 0;
    proof {
        assert(nodes@.take(0) =~= Seq::<RcNode>::empty());
    }
    while i < nodes.len()
        invariant
            i <= nodes@.len(),
            walk_step(*old(walker), *walker),
            old(walker).next_group_index + captures_in(nodes@) <= u64::MAX,
            old(walker).next_group_index <= walker.next_group_index <= old(walker).next_group_index
                + captures_in(nodes@.take(i as int)),
            walker.needs_start_anchor_replacement == (old(walker).needs_start_anchor_replacement
                || parallel_anchor_walk(nodes@.take(i as int), *old(passed_start_anchor))),
            *passed_start_anchor == *old(passed_start_anchor),
            walker_model(*walker) == parallel_walk_model(
                nodes@.take(i as int),
                nodes_of(node_stack@),
                *old(passed_start_anchor),
                walker_model(*old(walker)),
            ),
        decreases nodes.len() - i,
    {
        let ghost mid = *walker;
        let mut copy = *passed_start_anchor;
        proof {
            lemma_captures_prefix(nodes@, i + 1);
            assert(nodes@.take(i + 1).drop_last() =~= nodes@.take(i as int));
            assert(nodes@.take(i + 1).last() == nodes@[i as int]);
        }
        walk_downgrade(&nodes[i], node_stack, &mut copy, None, walker);
        proof {
            let t = nodes@.take(i + 1);
            assert(t.drop_last() =~= nodes@.take(i as int));
            assert(t.last() == nodes@[i as int]);
            assert forall|j: int| 0 <= j < old(walker).actions@.len() implies walker.actions@[j] == old(walker).actions@[j] by {
                assert(walker.actions@[j] == mid.actions@[j]);
            }
        }
        i += 1;
    }
    proof {
        assert(nodes@.take(i as int) =~= nodes@);
    }
}

// ---------------------------------------------------------------------------
// Applying the rewrites
// ---------------------------------------------------------------------------

/// A downgraded pattern and the offsets of any atomic groups it introduced.
#[derive(Debug)]
pub struct DowngradedRegexPattern {
    /// Offsets of groups to treat as atomic.
    pub atomic_group_offsets: HashSet<usize>,
    /// The downgraded pattern.
    pub pattern: String,
}

/// A copy of a set of offsets.
fn copy_offsets(offsets: &HashSet<usize>) -> (res: HashSet<usize>)
    ensures
        res@ == offsets@,
{
    let mut res: HashSet<usize> = HashSet::new();
    let ghost keys: Seq<usize> = IteratorSpec::remaining(&spec_hash_keys_iter(offsets)).unref();
    for o in iter: offsets.iter()
        invariant
            iter.seq().unref() == keys,
            keys.to_set() == offsets@,
            res@ == keys.take(iter.index()).to_set(),
    {
        let ghost idx = iter.index();
        res.insert(*o);
        proof {
            assert(keys[idx] == *o);
            assert(keys.take(idx + 1) =~= keys.take(idx).push(*o));
            keys.take(idx).lemma_push_to_set_commute(*o);
        }
    }
    proof {
        assert(keys.take(keys.len() as int) =~= keys);
    }
    res
}

/// Action `a` is rewritten before action `b`: its reference starts later,
/// or at the same place and `a` comes first in the list.
pub open spec fn comes_before(actions: Seq<Action>, a: usize, b: usize) -> bool {
    ||| actions[a as int].reference_start > actions[b as int].reference_start
    ||| (actions[a as int].reference_start == actions[b as int].reference_start && a < b)
}

/// `ord` lists each action once, by descending reference start, actions
/// with equal starts in their own order.
pub open spec fn is_rewrite_order(actions: Seq<Action>, ord: Seq<usize>) -> bool {
    &&& forall|x: usize| #[trigger] ord.contains(x) <==> x < actions.len()
    &&& forall|i: int, j: int| 0 <= i < j < ord.len() ==> comes_before(actions, #[trigger] ord[i], #[trigger] ord[j])
}

/// The order in which a pass rewrites the references of `actions`.
pub open spec fn rewrite_order(actions: Seq<Action>) -> Seq<usize> {
    choose|ord: Seq<usize>| is_rewrite_order(actions, ord)
}

/// Two lists of the same actions, each in rewrite order, are the same list.
proof fn lemma_ordered_lists_equal(actions: Seq<Action>, s1: Seq<usize>, s2: Seq<usize>)
    requires
        forall|i: int, j: int| 0 <= i < j < s1.len() ==> comes_before(actions, #[trigger] s1[i], #[trigger] s1[j]),
        forall|i: int, j: int| 0 <= i < j < s2.len() ==> comes_before(actions, #[trigger] s2[i], #[trigger] s2[j]),
        forall|x: usize| #[trigger] s1.contains(x) <==> s2.contains(x),
    ensures
        s1 == s2,
    decreases s1.len(),
{
    if s1.len() == 0 {
        if s2.len() > 0 {
            assert(s2.contains(s2[0]));
            assert(s1.contains(s2[0]));
        }
        assert(s1 =~= s2);
    } else {
        assert(s1.contains(s1[0]));
        assert(s2.contains(s1[0]));
        assert(s2.len() > 0);
        let a = s1[0];
        let b = s2[0];
        assert(s2.contains(b));
        assert(s1.contains(b));
        if a != b {
            let q = choose|q: int| 0 <= q < s2.len() && s2[q] == a;
            let p = choose|p: int| 0 <= p < s1.len() && s1[p] == b;
            assert(q > 0 && p > 0);
            assert(comes_before(actions, s2[0], s2[q]));
            assert(comes_before(actions, s1[0], s1[p]));
        }
        let t1 = s1.drop_first();
        let t2 = s2.drop_first();
        assert forall|i: int, j: int| 0 <= i < j < t1.len() implies comes_before(actions, #[trigger] t1[i], #[trigger] t1[j]) by {
            assert(t1[i] == s1[i + 1] && t1[j] == s1[j + 1]);
        }
        assert forall|i: int, j: int| 0 <= i < j < t2.len() implies comes_before(actions, #[trigger] t2[i], #[trigger] t2[j]) by {
            assert(t2[i] == s2[i + 1] && t2[j] == s2[j + 1]);
        }
        assert forall|x: usize| #[trigger] t1.contains(x) <==> t2.contains(x) by {
            if t1.contains(x) {
                let p = choose|p: int| 0 <= p < t1.len() && t1[p] == x;
                assert(s1[p + 1] == x);
                assert(comes_before(actions, s1[0], s1[p + 1]));
                assert(s1.contains(x));
                let q = choose|q: int| 0 <= q < s2.len() && s2[q] == x;
                assert(q != 0);
                assert(t2[q - 1] == x);
            }
            if t2.contains(x) {
                let q = choose|q: int| 0 <= q < t2.len() && t2[q] == x;
                assert(s2[q + 1] == x);
                assert(comes_before(actions, s2[0], s2[q + 1]));
                assert(s2.contains(x));
                assert(s1.contains(x));
                let p = choose|p: int| 0 <= p < s1.len() && s1[p] == x;
                assert(p != 0);
                assert(t1[p - 1] == x);
            }
        }
        lemma_ordered_lists_equal(actions, t1, t2);
        assert forall|i: int| 0 <= i < s1.len() implies s1[i] == s2[i] by {
            if i > 0 {
                assert(s1[i] == t1[i - 1] && s2[i] == t2[i - 1]);
            }
        }
        assert(s1 =~= s2);
    }
}

/// Any list in rewrite order is [`rewrite_order`].
proof fn lemma_rewrite_order_unique(actions: Seq<Action>, ord: Seq<usize>)
    requires
        is_rewrite_order(actions, ord),
    ensures
        rewrite_order(actions) == ord,
{
    let chosen = rewrite_order(actions);
    assert(is_rewrite_order(actions, chosen));
    assert forall|x: usize| #[trigger] chosen.contains(x) <==> ord.contains(x) by {}
    lemma_ordered_lists_equal(actions, chosen, ord);
}

/// The action indices in rewrite order: by descending reference start,
/// actions with equal starts keeping their order.
fn order_by_start_desc(actions: &Vec<Action>) -> (order: Vec<usize>)
    ensures
        is_rewrite_order(actions@, order@),
{
    let mut order: Vec<usize> = Vec::new();
    let mut idx: usize = 0;
    while idx < actions.len()
        invariant
            idx <= actions@.len(),
            forall|x: usize| #[trigger] order@.contains(x) <==> x < idx,
            forall|i: int| 0 <= i < order@.len() ==> #[trigger] order@[i] < idx,
            forall|i: int, j: int| 0 <= i < j < order@.len() ==> comes_before(actions@, #[trigger] order@[i], #[trigger] order@[j]),
        decreases actions.len() - idx,
    {
        let key = actions[idx].reference_start;
        let mut p: usize = 0;
        while p < order.len() && actions[order[p]].reference_start >= key
            invariant
                p <= order@.len(),
                idx < actions@.len(),
                key == actions@[idx as int].reference_start,
                forall|x: usize| #[trigger] order@.contains(x) <==> x < idx,
                forall|i: int| 0 <= i < order@.len() ==> #[trigger] order@[i] < idx,
                forall|i: int, j: int| 0 <= i < j < order@.len() ==> comes_before(actions@, #[trigger] order@[i], #[trigger] order@[j]),
                forall|i: int| 0 <= i < p ==> actions@[#[trigger] order@[i] as int].reference_start >= key,
            decreases order.len() - p,
        {
            p += 1;
        }
        let ghost before = order@;
        proof {
            assert forall|i: int| p <= i < before.len() implies actions@[#[trigger] before[i] as int].reference_start < key by {
                if i > p {
                    assert(comes_before(actions@, before[p as int], before[i]));
                }
            }
            assert forall|i: int| 0 <= i < before.len() implies #[trigger] before[i] < idx by {
                assert(before.contains(before[i]));
            }
        }
        order.insert(p, idx);
        proof {
            assert(order@ == before.insert(p as int, idx));
            assert forall|i: int, j: int| 0 <= i < j < order@.len() implies comes_before(actions@, #[trigger] order@[i], #[trigger] order@[j]) by {
                if j == p {
                    assert(order@[i] == before[i]);
                } else if i == p {
                    assert(order@[j] == before[j - 1]);
                } else if i < p && j < p {
                    assert(order@[i] == before[i] && order@[j] == before[j]);
                } else if i < p {
                    assert(order@[i] == before[i] && order@[j] == before[j - 1]);
                } else {
                    assert(order@[i] == before[i - 1] && order@[j] == before[j - 1]);
                }
            }
            assert forall|i: int| 0 <= i < order@.len() implies #[trigger] order@[i] < idx + 1 by {
                if i < p {
                    assert(order@[i] == before[i]);
                } else if i > p {
                    assert(order@[i] == before[i - 1]);
                }
            }
            assert forall|x: usize| #[trigger] order@.contains(x) <==> x < idx + 1 by {
                if order@.contains(x) {
                    let i = choose|i: int| 0 <= i < order@.len() && order@[i] == x;
                    if i < p {
                        assert(order@[i] == before[i]);
                        assert(before.contains(x));
                    } else if i > p {
                        assert(order@[i] == before[i - 1]);
                        assert(before.contains(x));
                    }
                }
                if x < idx + 1 {
                    if x == idx {
                        assert(order@[p as int] == x);
                    } else {
                        assert(before.contains(x));
                        let i = choose|i: int| 0 <= i < before.len() && before[i] == x;
                        if i < p {
                            assert(order@[i] == x);
                        } else {
                            assert(order@[i + 1] == x);
                        }
                    }
                }
            }
        }
        idx += 1;
    }
    order
}

/// The text `(?:` + `inner` + `?)`.
pub open spec fn optional_text(inner: Seq<char>) -> Seq<char> {
    seq!['(', '?', ':'] + inner + seq!['?', ')']
}

/// The text `(?:` + `inner` + `)`.
pub open spec fn group_text(inner: Seq<char>) -> Seq<char> {
    seq!['(', '?', ':'] + inner + seq![')']
}

/// The lazy match-anything prefix `[^]*?`.
pub open spec fn start_anchor_prefix() -> Seq<char> {
    seq!['[', '^', ']', '*', '?']
}

/// `pattern` with `[^]*?` prepended, wrapped in `(?:...)` first when `wrap`.
pub open spec fn with_start_anchor(pattern: Seq<char>, wrap: bool) -> Seq<char> {
    start_anchor_prefix() + if wrap {
        group_text(pattern)
    } else {
        pattern
    }
}

/// Prepends the lazy `[^]*?` and moves every offset past it.
pub fn add_start_anchor(last: DowngradedRegexPattern, wrap: bool) -> (res: DowngradedRegexPattern)
    ensures
        res.pattern@ == with_start_anchor(last.pattern@, wrap),
        res.atomic_group_offsets@ == last.atomic_group_offsets@.map(
            |o: usize| shifted_offset(o, -1i64, if wrap { 8i64 } else { 5i64 }),
        ),
{
    let mut new_pattern = String::new();
    push_char(&mut new_pattern, '[');
    push_char(&mut new_pattern, '^');
    push_char(&mut new_pattern, ']');
    push_char(&mut new_pattern, '*');
    push_char(&mut new_pattern, '?');
    if wrap {
        push_char(&mut new_pattern, '(');
        push_char(&mut new_pattern, '?');
        push_char(&mut new_pattern, ':');
        push_str(&mut new_pattern, last.pattern.as_str());
        push_char(&mut new_pattern, ')');
        proof {
            assert(new_pattern@ =~= with_start_anchor(last.pattern@, wrap));
        }
    } else {
        push_str(&mut new_pattern, last.pattern.as_str());
        proof {
            assert(new_pattern@ =~= with_start_anchor(last.pattern@, wrap));
        }
    }
    let shift: i64 = if wrap { 8 } else { 5 };
    let atomic_group_offsets = shift_offsets(&last.atomic_group_offsets, -1, shift);
    DowngradedRegexPattern { atomic_group_offsets, pattern: new_pattern }
}

/// The error reported when an internal bound does not hold.
fn internal_error() -> (res: ParseError)
    ensures
        res.0@ == "Internal error: rewrite outside the pattern"@,
{
    ParseError("Internal error: rewrite outside the pattern".to_string())
}

/// What the start-anchor step makes of a pattern and its offsets: when a
/// character can be consumed before any start anchor and the root does not
/// already start with `[^]*?`, the prefix is added and the offsets move past
/// it; otherwise both stay as they are.
pub open spec fn start_anchor_step(pattern: Seq<char>, offsets: Set<usize>, root: Node, needs: bool) -> (Seq<char>, Set<usize>) {
    if needs && !has_start_anchor_replacement(root) {
        let wrap = root.kind is Disjunction;
        (
            with_start_anchor(pattern, wrap),
            offsets.map(|o: usize| shifted_offset(o, -1i64, if wrap { 8i64 } else { 5i64 })),
        )
    } else {
        (pattern, offsets)
    }
}

/// Some rewritten group itself holds a reference, so another pass is needed.
pub open spec fn some_group_has_reference(actions: Seq<Action>) -> bool {
    exists|i: int| 0 <= i < actions.len() && raw_refs(*(#[trigger] actions[i]).group).len() > 0
}

/// One pass turns `before` into `after`: `before`'s pattern parses to a
/// well-formed tree `root` spanning the whole input, the walk over `root`
/// finds the rewrites `w`, another pass is asked for exactly when a group to
/// inline itself holds a reference, and `after` is what replacing the
/// references in rewrite order and then the start-anchor step make of
/// `before`.
pub open spec fn pass_relates(before: (Seq<char>, Set<usize>), rerun: bool, after: (Seq<char>, Set<usize>)) -> bool {
    pass_from(before.0, before.1, rerun, after)
}

/// The walk model a pass starts from.
pub open spec fn initial_walk_model() -> WalkModel {
    (Seq::empty(), false, Map::empty(), Set::empty(), 1)
}

/// [`pass_relates`] with the pattern and the offsets before the pass apart.
pub open spec fn pass_from(pattern: Seq<char>, offsets: Set<usize>, rerun: bool, after: (Seq<char>, Set<usize>)) -> bool {
    exists|root: Node, w: Walker|
        #![trigger node_wf(root, utf16_of(pattern)), walker_wf(w)]
        {
            &&& node_wf(root, utf16_of(pattern))
            &&& root.range.1 == utf16_of(pattern).len()
            &&& walker_wf(w)
            &&& w.needs_start_anchor_replacement == anchor_walk(root, false).0
            &&& walker_model(w) == walk_model(root, Seq::empty(), false, None, initial_walk_model()).0
            &&& rerun == some_group_has_reference(w.actions@)
            &&& rewrite_all((pattern, offsets), rewrite_order(w.actions@), w.actions@) matches Some(mid)
            &&& after == start_anchor_step(mid.0, mid.1, root, w.needs_start_anchor_replacement)
        }
}

/// Walks `root` and collects what a rewriting pass has to do.
pub fn find_rewrites(root: &RcNode) -> (res: Walker)
    requires
        capture_count(**root) < u64::MAX,
    ensures
        walker_wf(res),
        res.needs_start_anchor_replacement == anchor_walk(**root, false).0,
        walker_model(res) == walk_model(**root, Seq::empty(), false, None, initial_walk_model()).0,
{
    let mut walker = Walker {
        actions: Vec::new(),
        needs_start_anchor_replacement: false,
        groups: HashMap::new(),
        infinite_groups: HashSet::new(),
        next_group_index: 1,
    };
    let mut passed = false;
    let root_stack: Vec<RcNode> = Vec::new();
    proof {
        assert(nodes_of(root_stack@) =~= Seq::<Node>::empty());
        assert(walker_model(walker).0 =~= Seq::<(AtomicOrOptional, Node, Node)>::empty());
        assert(walker_model(walker).2 =~= Map::<u64, (Node, Seq<Node>)>::empty());
        assert(opt_node(None) == None::<Node>);
    }
    walk_downgrade(root, &root_stack, &mut passed, None, &mut walker);
    walker
}

/// Returns `true` when some group to inline holds a reference.
fn any_group_has_reference(actions: &Vec<Action>) -> (res: bool)
    ensures
        res == some_group_has_reference(actions@),
{
    let mut i: usize = 0;
    while i < actions.len()
        invariant
            i <= actions@.len(),
            forall|j: int| 0 <= j < i ==> raw_refs(*(#[trigger] actions@[j]).group).len() == 0,
        decreases actions.len() - i,
    {
        let raw = get_raw_without_capturing_groups_or_lookaheads(&actions[i].group);
        if raw.references_with_offset.len() > 0 {
            assert(raw_refs(*actions@[i as int].group).len() > 0);
            return true;
        }
        i += 1;
    }
    false
}

/// The text that replaces a reference: the source of its group without
/// groups or lookarounds, wrapped as `(?:...?)` when the action is optional.
pub open spec fn replacement_text(a: Action) -> Seq<char> {
    if a.atomic_or_optional == AtomicOrOptional::Optional {
        optional_text(raw_text(*a.group))
    } else {
        raw_text(*a.group)
    }
}

/// The offset of the first reference with id `id` in a list, if any.
pub open spec fn first_offset(refs: Seq<(Node, int)>, id: usize) -> Option<int>
    decreases refs.len(),
{
    if refs.len() == 0 {
        None
    } else if refs[0].0.id == id {
        Some(refs[0].1)
    } else {
        first_offset(refs.drop_first(), id)
    }
}

/// The first reference to `id` lands at `o` in a replacement put at `start`.
pub open spec fn lands_at(refs: Seq<(Node, int)>, id: usize, start: int, o: usize) -> bool {
    match first_offset(refs, id) {
        Some(off) => o == start + off,
        None => false,
    }
}

/// The first reference to `id` lands past `usize::MAX`.
pub open spec fn lands_too_far(refs: Seq<(Node, int)>, id: usize, start: int) -> bool {
    match first_offset(refs, id) {
        Some(off) => start + off > usize::MAX,
        None => false,
    }
}

/// Where the references of the atomic actions land inside a replacement put
/// at `start`, for those that occur in it.
pub open spec fn inner_atomic_offsets(actions: Seq<Action>, refs: Seq<(Node, int)>, start: int) -> Set<usize> {
    Set::new(
        |o: usize|
            exists|i: int|
                0 <= i < actions.len() && (#[trigger] actions[i]).atomic_or_optional == AtomicOrOptional::Atomic
                    && lands_at(refs, actions[i].reference.id, start, o),
    )
}

/// One of those offsets does not fit in a `usize`.
pub open spec fn inner_overflow(actions: Seq<Action>, refs: Seq<(Node, int)>, start: int) -> bool {
    exists|i: int|
        0 <= i < actions.len() && (#[trigger] actions[i]).atomic_or_optional == AtomicOrOptional::Atomic
            && lands_too_far(refs, actions[i].reference.id, start)
}

/// Replacing one reference: its UTF-16 range is replaced by the replacement
/// text, the offsets after it move by the change in length, the reference's
/// start becomes an atomic offset when the action is atomic, and the
/// references of atomic actions inside the replacement add theirs. `None`
/// when the range does not lie in the pattern or an offset overflows.
pub open spec fn rewrite_step(state: (Seq<char>, Set<usize>), a: Action, actions: Seq<Action>) -> Option<(Seq<char>, Set<usize>)> {
    let (pattern, offsets) = state;
    let start = a.reference_start;
    let end = a.reference_end;
    if start > end || end > utf16_length(pattern) {
        None
    } else {
        let repl = replacement_text(a);
        let new_pattern = lossy_decode(replaced_units(utf16_of(pattern), utf16_of(repl), start as int, end as int));
        let shift = (utf16_length(repl) as i64).wrapping_sub((end - start) as i64);
        let shifted = offsets.map(|o: usize| shifted_offset(o, start as i64, shift));
        let with_atomic = if a.atomic_or_optional == AtomicOrOptional::Atomic {
            shifted.insert(start)
        } else {
            shifted
        };
        let refs = raw_refs(*a.group);
        if inner_overflow(actions, refs, start as int) {
            None
        } else {
            Some((new_pattern, with_atomic.union(inner_atomic_offsets(actions, refs, start as int))))
        }
    }
}

/// Replacing the references of the actions in the order `ord`.
pub open spec fn rewrite_all(state: (Seq<char>, Set<usize>), ord: Seq<usize>, actions: Seq<Action>) -> Option<(Seq<char>, Set<usize>)>
    decreases ord.len(),
{
    if ord.len() == 0 {
        Some(state)
    } else {
        match rewrite_all(state, ord.drop_last(), actions) {
            Some(st) => rewrite_step(st, actions[ord.last() as int], actions),
            None => None,
        }
    }
}

proof fn lemma_first_offset_skip(refs: Seq<(Node, int)>, id: usize, b: int)
    requires
        0 <= b <= refs.len(),
        forall|j: int| 0 <= j < b ==> refs[j].0.id != id,
    ensures
        first_offset(refs, id) == first_offset(refs.subrange(b, refs.len() as int), id),
    decreases b,
{
    if b > 0 {
        assert(refs[0].0.id != id);
        let rest = refs.drop_first();
        assert forall|j: int| 0 <= j < b - 1 implies rest[j].0.id != id by {
            assert(rest[j] == refs[j + 1]);
        }
        lemma_first_offset_skip(rest, id, b - 1);
        assert(rest.subrange(b - 1, rest.len() as int) =~= refs.subrange(b, refs.len() as int));
    } else {
        assert(refs.subrange(0, refs.len() as int) =~= refs);
    }
}

/// Returns the offset of the first reference to `id` in `refs`.
fn find_first_offset(refs: &Vec<(RcNode, usize)>, id: usize) -> (res: Option<usize>)
    ensures
        match first_offset(refs_view(refs@), id) {
            Some(off) => res == Some(off as usize) && off == res->0,
            None => res is None,
        },
{
    let ghost view = refs_view(refs@);
    let mut b: usize = 0;
    while b < refs.len()
        invariant
            b <= refs@.len(),
            view == refs_view(refs@),
            forall|j: int| 0 <= j < b ==> view[j].0.id != id,
        decreases refs.len() - b,
    {
        let (r, offset) = &refs[b];
        if r.id == id {
            proof {
                lemma_first_offset_skip(view, id, b as int);
                assert(view.subrange(b as int, view.len() as int)[0] == view[b as int]);
            }
            return Some(*offset);
        }
        b += 1;
    }
    proof {
        lemma_first_offset_skip(view, id, b as int);
        assert(view.subrange(b as int, view.len() as int).len() == 0);
    }
    None
}

/// Adds where the references of the atomic actions land inside a
/// replacement put at `start`; `false`, adding nothing known, when one of
/// them does not fit in a `usize`.
fn add_inner_atomic_offsets(
    offsets: &mut HashSet<usize>,
    actions: &Vec<Action>,
    refs: &Vec<(RcNode, usize)>,
    start: usize,
) -> (res: bool)
    ensures
        res == !inner_overflow(actions@, refs_view(refs@), start as int),
        res ==> final(offsets)@ == old(offsets)@.union(inner_atomic_offsets(actions@, refs_view(refs@), start as int)),
{
    let ghost view = refs_view(refs@);
    let mut a: usize = 0;
    while a < actions.len()
        invariant
            a <= actions@.len(),
            view == refs_view(refs@),
            offsets@ == old(offsets)@.union(inner_atomic_offsets(actions@.take(a as int), view, start as int)),
            !inner_overflow(actions@.take(a as int), view, start as int),
        decreases actions.len() - a,
    {
        let ghost t0 = actions@.take(a as int);
        let ghost t1 = actions@.take(a + 1);
        proof {
            assert(t1 =~= t0.push(actions@[a as int]));
        }
        if actions[a].atomic_or_optional == AtomicOrOptional::Atomic {
            match find_first_offset(refs, actions[a].reference.id) {
                Some(offset) => {
                    match start.checked_add(offset) {
                        Some(at) => {
                            let ghost before = offsets@;
                            offsets.insert(at);
                            proof {
                                assert(inner_atomic_offsets(t1, view, start as int) =~= inner_atomic_offsets(t0, view, start as int).insert(at)) by {
                                    assert(t1[t0.len() as int] == actions@[a as int]);
                                    assert forall|o: usize| inner_atomic_offsets(t1, view, start as int).contains(o) implies inner_atomic_offsets(
                                        t0,
                                        view,
                                        start as int,
                                    ).insert(at).contains(o) by {
                                        let i = choose|i: int|
                                            0 <= i < t1.len() && (#[trigger] t1[i]).atomic_or_optional == AtomicOrOptional::Atomic
                                                && lands_at(view, t1[i].reference.id, start as int, o);
                                        if i < t0.len() {
                                            assert(t0[i] == t1[i]);
                                        }
                                    }
                                    assert forall|o: usize| inner_atomic_offsets(t0, view, start as int).insert(at).contains(o) implies inner_atomic_offsets(
                                        t1,
                                        view,
                                        start as int,
                                    ).contains(o) by {
                                        if o != at {
                                            let i = choose|i: int|
                                                0 <= i < t0.len() && (#[trigger] t0[i]).atomic_or_optional == AtomicOrOptional::Atomic
                                                    && lands_at(view, t0[i].reference.id, start as int, o);
                                            assert(t1[i] == t0[i]);
                                        }
                                    }
                                }
                                assert(offsets@ =~= old(offsets)@.union(inner_atomic_offsets(t1, view, start as int)));
                                assert(!inner_overflow(t1, view, start as int)) by {
                                    if inner_overflow(t1, view, start as int) {
                                        let i = choose|i: int|
                                            0 <= i < t1.len() && (#[trigger] t1[i]).atomic_or_optional == AtomicOrOptional::Atomic
                                                && lands_too_far(view, t1[i].reference.id, start as int);
                                        if i < t0.len() {
                                            assert(t0[i] == t1[i]);
                                        }
                                    }
                                }
                            }
                        },
                        None => {
                            proof {
                                assert(t1[t0.len() as int] == actions@[a as int]);
                                assert(inner_overflow(t1, view, start as int));
                                assert(inner_overflow(actions@, view, start as int)) by {
                                    assert(actions@[a as int] == t1[t0.len() as int]);
                                }
                            }
                            return false;
                        },
                    }
                },
                None => {
                    proof {
                        lemma_inner_unchanged(t0, actions@[a as int], view, start as int);
                    }
                },
            }
        } else {
            proof {
                lemma_inner_unchanged(t0, actions@[a as int], view, start as int);
            }
        }
        a += 1;
    }
    proof {
        assert(actions@.take(a as int) =~= actions@);
    }
    true
}

/// An action that adds no inner offset leaves both sets as they were.
proof fn lemma_inner_unchanged(t0: Seq<Action>, x: Action, view: Seq<(Node, int)>, start: int)
    requires
        !(x.atomic_or_optional == AtomicOrOptional::Atomic && first_offset(view, x.reference.id) is Some),
    ensures
        inner_atomic_offsets(t0.push(x), view, start) == inner_atomic_offsets(t0, view, start),
        inner_overflow(t0.push(x), view, start) == inner_overflow(t0, view, start),
{
    let t1 = t0.push(x);
    assert(inner_atomic_offsets(t1, view, start) =~= inner_atomic_offsets(t0, view, start)) by {
        assert forall|o: usize| inner_atomic_offsets(t1, view, start).contains(o) implies inner_atomic_offsets(t0, view, start).contains(o) by {
            let i = choose|i: int|
                0 <= i < t1.len() && (#[trigger] t1[i]).atomic_or_optional == AtomicOrOptional::Atomic
                    && lands_at(view, t1[i].reference.id, start, o);
            assert(i < t0.len());
            assert(t0[i] == t1[i]);
        }
        assert forall|o: usize| inner_atomic_offsets(t0, view, start).contains(o) implies inner_atomic_offsets(t1, view, start).contains(o) by {
            let i = choose|i: int|
                0 <= i < t0.len() && (#[trigger] t0[i]).atomic_or_optional == AtomicOrOptional::Atomic
                    && lands_at(view, t0[i].reference.id, start, o);
            assert(t1[i] == t0[i]);
        }
    }
    if inner_overflow(t1, view, start) {
        let i = choose|i: int|
            0 <= i < t1.len() && (#[trigger] t1[i]).atomic_or_optional == AtomicOrOptional::Atomic
                && lands_too_far(view, t1[i].reference.id, start);
        assert(i < t0.len());
        assert(t0[i] == t1[i]);
    }
    if inner_overflow(t0, view, start) {
        let i = choose|i: int|
            0 <= i < t0.len() && (#[trigger] t0[i]).atomic_or_optional == AtomicOrOptional::Atomic
                && lands_too_far(view, t0[i].reference.id, start);
        assert(t1[i] == t0[i]);
    }
}

/// Once a rewrite fails, rewriting more references fails too.
proof fn lemma_rewrite_failure_stays(state: (Seq<char>, Set<usize>), ord: Seq<usize>, actions: Seq<Action>, k: int)
    requires
        0 <= k <= ord.len(),
        rewrite_all(state, ord.take(k), actions) is None,
    ensures
        rewrite_all(state, ord, actions) is None,
    decreases ord.len(),
{
    if k == ord.len() {
        assert(ord.take(k) =~= ord);
    } else {
        assert(ord.drop_last().take(k) =~= ord.take(k));
        lemma_rewrite_failure_stays(state, ord.drop_last(), actions, k);
    }
}

/// Replaces the reference of `actions[idx]` in `pattern` and updates the
/// offsets as [`rewrite_step`] says; `None` where it gives `None`.
fn apply_action(pattern: &String, offsets: &HashSet<usize>, actions: &Vec<Action>, idx: usize) -> (res: Option<(String, HashSet<usize>)>)
    requires
        idx < actions@.len(),
    ensures
        match rewrite_step((pattern@, offsets@), actions@[idx as int], actions@) {
            Some(st) => res matches Some((p, o)) && p@ == st.0 && o@ == st.1,
            None => res is None,
        },
{
    let action = &actions[idx];
    let reference_start = action.reference_start;
    let reference_end = action.reference_end;
    let atomic_or_optional = action.atomic_or_optional;
    let raw = get_raw_without_capturing_groups_or_lookaheads(&action.group);

    let replacement = if atomic_or_optional == AtomicOrOptional::Optional {
        let mut r = String::new();
        push_char(&mut r, '(');
        push_char(&mut r, '?');
        push_char(&mut r, ':');
        push_str(&mut r, raw.result.as_str());
        push_char(&mut r, '?');
        push_char(&mut r, ')');
        proof {
            assert(r@ =~= optional_text(raw.result@));
        }
        r
    } else {
        raw.result.clone()
    };
    proof {
        assert(replacement@ == replacement_text(*action));
    }

    let current_len = utf16_len(pattern.as_str());
    if reference_start > reference_end || reference_end > current_len {
        return None;
    }
    let new_pattern = utf16_slice_replace(pattern.as_str(), replacement.as_str(), reference_start, reference_end);

    let replacement_len = utf16_len(replacement.as_str());
    let shift_amount = (replacement_len as i64).wrapping_sub((reference_end - reference_start) as i64);
    let mut new_offsets = shift_offsets(offsets, reference_start as i64, shift_amount);
    if atomic_or_optional == AtomicOrOptional::Atomic {
        new_offsets.insert(reference_start);
    }

    // For any atomic action whose reference appears inside this result, add
    // its inner offset.
    if !add_inner_atomic_offsets(&mut new_offsets, actions, &raw.references_with_offset, reference_start) {
        return None;
    }
    Some((new_pattern, new_offsets))
}

/// Applies the rewrites that `walker` found in `root`, the parse of
/// `last.pattern`, and then the start-anchor step.
///
/// Returns whether another pass is needed and the rewritten pattern; an
/// error when a rewrite falls outside the pattern or an offset overflows.
pub fn apply_rewrites(last: &DowngradedRegexPattern, root: &RcNode, walker: &Walker) -> (res: Result<(bool, DowngradedRegexPattern), ParseError>)
    ensures
        match rewrite_all(
            (last.pattern@, last.atomic_group_offsets@),
            rewrite_order(walker.actions@),
            walker.actions@,
        ) {
            Some(st) => res matches Ok((rerun, out)) && rerun == some_group_has_reference(walker.actions@)
                && (out.pattern@, out.atomic_group_offsets@) == start_anchor_step(
                st.0,
                st.1,
                **root,
                walker.needs_start_anchor_replacement,
            ),
            None => res is Err,
        },
{
    let need_to_rerun = any_group_has_reference(&walker.actions);
    let mut new_pattern = last.pattern.clone();
    let mut atomic_group_offsets = copy_offsets(&last.atomic_group_offsets);
    let ghost init = (last.pattern@, last.atomic_group_offsets@);

    // Apply actions by descending reference start so earlier edits do not
    // shift later offsets.
    let order = order_by_start_desc(&walker.actions);
    proof {
        lemma_rewrite_order_unique(walker.actions@, order@);
        assert(order@.take(0) =~= Seq::<usize>::empty());
    }
    let mut k: usize = 0;
    while k < order.len()
        invariant
            k <= order@.len(),
            init == (last.pattern@, last.atomic_group_offsets@),
            order@ == rewrite_order(walker.actions@),
            is_rewrite_order(walker.actions@, order@),
            rewrite_all(init, order@.take(k as int), walker.actions@) == Some((new_pattern@, atomic_group_offsets@)),
        decreases order.len() - k,
    {
        let idx = order[k];
        proof {
            assert(order@.contains(idx));
            assert(order@.take(k + 1).drop_last() =~= order@.take(k as int));
            assert(order@.take(k + 1).last() == idx);
        }
        match apply_action(&new_pattern, &atomic_group_offsets, &walker.actions, idx) {
            Some((p, o)) => {
                new_pattern = p;
                atomic_group_offsets = o;
            },
            None => {
                proof {
                    assert(rewrite_all(init, order@.take(k + 1), walker.actions@) is None);
                    lemma_rewrite_failure_stays(init, order@, walker.actions@, k + 1);
                }
                return Err(internal_error());
            },
        }
        k += 1;
    }
    proof {
        assert(order@.take(k as int) =~= order@);
    }

    let wrap = match &root.kind {
        NodeKind::Disjunction { .. } => true,
        _ => false,
    };
    let mut out = DowngradedRegexPattern { atomic_group_offsets, pattern: new_pattern };
    if walker.needs_start_anchor_replacement && !already_has_start_anchor_replacement(root) {
        out = add_start_anchor(out, wrap);
    }
    Ok((need_to_rerun, out))
}

/// Over a list of characters, the anchor walk finds a character as soon as
/// the list has one, and passes no `^`.
proof fn lemma_serial_values(s: Seq<RcNode>)
    requires
        forall|i: int| 0 <= i < s.len() ==> (#[trigger] s[i]).kind is Value,
    ensures
        serial_anchor_walk(s, false) == (s.len() > 0, false),
    decreases s.len(),
{
    if s.len() > 0 {
        assert forall|i: int| 0 <= i < s.drop_last().len() implies (#[trigger] s.drop_last()[i]).kind is Value by {
            assert(s.drop_last()[i] == s[i]);
        }
        lemma_serial_values(s.drop_last());
        assert(s.last().kind is Value);
        assert(anchor_walk(*s.last(), false) == (true, false));
        assert(serial_anchor_walk(s, false) == (
            serial_anchor_walk(s.drop_last(), false).0 || anchor_walk(*s.last(), false).0,
            anchor_walk(*s.last(), false).1,
        ));
    }
}

/// The tree of a plain pattern needs the start-anchor replacement exactly
/// when the pattern is not empty, has none yet and is no choice.
proof fn lemma_plain_anchor(root: Node, u: Seq<u16>, unicode: bool)
    requires
        plain_shape(root, u, 0, u.len() as int, unicode),
    ensures
        anchor_walk(root, false).0 == (u.len() > 0),
        !has_start_anchor_replacement(root),
        !(root.kind is Disjunction),
{
    let rs = plain_term_ranges(u, 0, u.len() as int, unicode);
    assert(rs.len() > 0 <==> u.len() > 0);
    if rs.len() != 1 {
        if let NodeKind::Alternative { body } = root.kind {
            assert(ranges_of(body@).len() == body@.len());
            lemma_serial_values(body@);
            if body@.len() > 0 {
                assert(body@[0].kind is Value);
            }
        }
    }
}

/// One rewriting pass over `last`: parses it, finds what to rewrite and
/// applies it.
///
/// Returns whether another pass is needed and the rewritten pattern.
pub fn run(last: &DowngradedRegexPattern, unicode: bool) -> (res: Result<(bool, DowngradedRegexPattern), ParseError>)
    ensures
        res matches Ok((rerun, out)) ==> pass_relates(
            (last.pattern@, last.atomic_group_offsets@),
            rerun,
            (out.pattern@, out.atomic_group_offsets@),
        ),
        plain_from(utf16_of(last.pattern@), 0) ==> (res matches Ok((rerun, out)) && !rerun && (
        out.pattern@,
        out.atomic_group_offsets@,
        ) == if utf16_of(last.pattern@).len() > 0 {
            (
                with_start_anchor(last.pattern@, false),
                last.atomic_group_offsets@.map(|o: usize| shifted_offset(o, -1i64, 5i64)),
            )
        } else {
            (last.pattern@, last.atomic_group_offsets@)
        }),
        simple_pattern(utf16_of(last.pattern@)) ==> (res matches Ok((rerun, out)) && !rerun && unchanged_or_anchored(
            last.pattern@,
            last.atomic_group_offsets@,
            (out.pattern@, out.atomic_group_offsets@),
        )),
        unclosed_group_text(utf16_of(last.pattern@)) ==> (res matches Err(e) && e.0@ == "Expected )"@),
        stray_close_text(utf16_of(last.pattern@)) ==> (res matches Err(e)
            && e.0@ == "Could not parse entire input - got stuck"@),
        leading_term_error(utf16_of(last.pattern@), 0, unicode) matches Some(m) ==> (res matches Err(e) && e.0@ == m),
        bad_brace_text(utf16_of(last.pattern@)) ==> (res matches Err(e) && e.0@ == brace_message(
            utf16_of(last.pattern@),
            first_bad_brace(utf16_of(last.pattern@), 0, region_end(utf16_of(last.pattern@), 0, 0, false)),
        )),
{
    let ast = match parse(last.pattern.as_str(), unicode) {
        Ok(t) => t,
        Err(e) => return Err(e),
    };
    proof {
        let parsed = *ast;
        lemma_capture_count_bounded(parsed, utf16_of(last.pattern@));
    }
    let walker = find_rewrites(&ast);
    proof {
        let u = utf16_of(last.pattern@);
        if plain_from(u, 0) || simple_pattern(u) {
            assert forall|i: int| 0 <= i < u.len() && #[trigger] u[i] == 0x5C implies i + 1 < u.len()
                && !spec_is_ascii_digit(u[i + 1]) by {
                if plain_from(u, 0) {
                    assert(is_plain_unit(u[i]));
                }
            }
            let root = *ast;
            if plain_from(u, 0) {
                lemma_plain_anchor(root, u, unicode);
            }
            lemma_tree_without_digit_escape_has_no_references(root, u);
            lemma_walk_without_references(root, Seq::empty(), false, None, initial_walk_model());
            assert(walker_model(walker).0.len() == 0);
            assert(walker.actions@.len() == 0);
            assert(is_rewrite_order(walker.actions@, Seq::<usize>::empty()));
            lemma_rewrite_order_unique(walker.actions@, Seq::<usize>::empty());
            assert(!some_group_has_reference(walker.actions@));
            assert(rewrite_all(
                (last.pattern@, last.atomic_group_offsets@),
                rewrite_order(walker.actions@),
                walker.actions@,
            ) == Some((last.pattern@, last.atomic_group_offsets@)));
        }
    }
    let res = apply_rewrites(last, &ast, &walker);
    proof {
        let root = *ast;
        let w = walker;
        assert(res matches Ok((rerun, out)) ==> {
            &&& node_wf(root, utf16_of(last.pattern@))
            &&& root.range.1 == utf16_of(last.pattern@).len()
            &&& walker_wf(w)
            &&& w.needs_start_anchor_replacement == anchor_walk(root, false).0
            &&& walker_model(w) == walk_model(root, Seq::empty(), false, None, initial_walk_model()).0
            &&& rerun == some_group_has_reference(w.actions@)
            &&& rewrite_all((last.pattern@, last.atomic_group_offsets@), rewrite_order(w.actions@), w.actions@) matches Some(mid)
            &&& (out.pattern@, out.atomic_group_offsets@) == start_anchor_step(mid.0, mid.1, root, w.needs_start_anchor_replacement)
        });
        assert(res matches Ok((rerun, out)) ==> pass_from(
            last.pattern@,
            last.atomic_group_offsets@,
            rerun,
            (out.pattern@, out.atomic_group_offsets@),
        ));
    }
    res
}

/// A pass that rewrote no reference: the pattern and offsets stay as they
/// were, or the start-anchor replacement was put in front (around the
/// pattern when `wrap`) and the offsets moved past it.
pub open spec fn unchanged_or_anchored(pattern: Seq<char>, offsets: Set<usize>, after: (Seq<char>, Set<usize>)) -> bool {
    ||| after == (pattern, offsets)
    ||| after == (with_start_anchor(pattern, false), offsets.map(|o: usize| shifted_offset(o, -1i64, 5i64)))
    ||| after == (with_start_anchor(pattern, true), offsets.map(|o: usize| shifted_offset(o, -1i64, 8i64)))
}

/// `chain` is a run of passes from `start` that asks for another pass after
/// every step but the last.
pub open spec fn pass_chain(chain: Seq<(Seq<char>, Set<usize>)>, start: (Seq<char>, Set<usize>)) -> bool {
    &&& chain.len() >= 2
    &&& chain[0] == start
    &&& forall|i: int| 0 <= i < chain.len() - 2 ==> #[trigger] pass_relates(chain[i], true, chain[i + 1])
    &&& pass_relates(chain[chain.len() - 2], false, chain[chain.len() - 1])
}

/// The most passes `downgrade_pattern` runs before giving up: as many as
/// its pass counter can count.
pub const MAX_PASSES: u64 = 18_446_744_073_709_551_615;

/// Downgrades `pattern` if needed.
///
/// Passes run until one reports that no inlined group holds a reference. The
/// result is the outcome of that last pass. A pattern of the simple kind
/// needs one pass; simple units with a group that never closes or a `)`
/// that closes none are refused with the parser's message.
pub fn downgrade_pattern(pattern: &str, unicode: bool) -> (res: Result<DowngradedRegexPattern, ParseError>)
    ensures
        res matches Ok(out) ==> exists|chain: Seq<(Seq<char>, Set<usize>)>|
            #[trigger] pass_chain(chain, (pattern@, Set::<usize>::empty()))
                && chain.last() == (out.pattern@, out.atomic_group_offsets@),
        plain_from(utf16_of(pattern@), 0) ==> (res matches Ok(out) && out.atomic_group_offsets@ == Set::<usize>::empty()
            && out.pattern@ == if utf16_of(pattern@).len() > 0 {
            with_start_anchor(pattern@, false)
        } else {
            pattern@
        }),
        simple_pattern(utf16_of(pattern@)) ==> (res matches Ok(out) && out.atomic_group_offsets@ == Set::<usize>::empty() && {
            ||| out.pattern@ == pattern@
            ||| out.pattern@ == with_start_anchor(pattern@, false)
            ||| out.pattern@ == with_start_anchor(pattern@, true)
        }),
        unclosed_group_text(utf16_of(pattern@)) ==> (res matches Err(e) && e.0@ == "Expected )"@),
        stray_close_text(utf16_of(pattern@)) ==> (res matches Err(e)
            && e.0@ == "Could not parse entire input - got stuck"@),
        leading_term_error(utf16_of(pattern@), 0, unicode) matches Some(m) ==> (res matches Err(e) && e.0@ == m),
        bad_brace_text(utf16_of(pattern@)) ==> (res matches Err(e) && e.0@ == brace_message(
            utf16_of(pattern@),
            first_bad_brace(utf16_of(pattern@), 0, region_end(utf16_of(pattern@), 0, 0, false)),
        )),
{
    let mut last = DowngradedRegexPattern { atomic_group_offsets: HashSet::new(), pattern: pattern.to_owned() };
    let ghost mut chain: Seq<(Seq<char>, Set<usize>)> = seq![(pattern@, Set::<usize>::empty())];
    let mut passes: u64 = 0;
    loop
        invariant
            passes <= MAX_PASSES,
            plain_from(utf16_of(pattern@), 0) ==> passes == 0 && last.pattern@ == pattern@,
            simple_pattern(utf16_of(pattern@)) ==> passes == 0 && last.pattern@ == pattern@,
            passes == 0 ==> last.pattern@ == pattern@ && last.atomic_group_offsets@ == Set::<usize>::empty(),
            unclosed_group_text(utf16_of(pattern@)) || stray_close_text(utf16_of(pattern@)) || bad_brace_text(
                utf16_of(pattern@),
            ) || leading_term_error(utf16_of(pattern@), 0, unicode) is Some ==> passes == 0,
            chain.len() >= 1,
            chain[0] == (pattern@, Set::<usize>::empty()),
            chain.last() == (last.pattern@, last.atomic_group_offsets@),
            forall|i: int| 0 <= i < chain.len() - 1 ==> #[trigger] pass_relates(chain[i], true, chain[i + 1]),
        decreases MAX_PASSES - passes,
    {
        let (need_rerun, result) = match run(&last, unicode) {
            Ok(r) => r,
            Err(e) => return Err(e),
        };
        let ghost prev = chain;
        proof {
            chain = chain.push((result.pattern@, result.atomic_group_offsets@));
            assert(chain[chain.len() - 2] == prev.last());
            assert forall|i: int| 0 <= i < chain.len() - 2 implies #[trigger] pass_relates(chain[i], true, chain[i + 1]) by {
                assert(chain[i] == prev[i] && chain[i + 1] == prev[i + 1]);
            }
        }
        proof {
            if simple_pattern(utf16_of(pattern@)) || plain_from(utf16_of(pattern@), 0) {
                assert(Set::<usize>::empty().map(|o: usize| shifted_offset(o, -1i64, 5i64)) =~= Set::<usize>::empty());
                assert(Set::<usize>::empty().map(|o: usize| shifted_offset(o, -1i64, 8i64)) =~= Set::<usize>::empty());
            }
        }
        last = result;
        if !need_rerun {
            proof {
                assert(pass_chain(chain, (pattern@, Set::<usize>::empty())));
            }
            return Ok(last);
        }
        if passes == MAX_PASSES {
            return Err(ParseError("Internal error: pattern did not stabilize".to_string()));
        }
        passes += 1;
    }
}

} // verus!
