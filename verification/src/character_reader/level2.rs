//! Level 2: record group contents and expand backreferences.
//!
//! Level 2 watches every consumed character and stores it under the capturing
//! groups it belongs to. When a backreference appears, it replays the stored
//! characters of the referenced group with a reference frame pushed on the
//! stack. The character set of an entry, `G`, is shared between the places it
//! is stored.
use crate::ast::{GroupBehavior, NodeKind, RcNode};
use crate::character_reader::level0::{copy_stack, StackEntry};
use crate::arrays::{common_prefix_len, drop_common, lemma_common_prefix_len_unique};
use crate::character_reader::level0::{copy_frame, get_groups, get_lookahead_stack, groups_of, lookarounds_of};
use crate::character_reader::level1::{take_entries, Level1Return};
use crate::quantifier::{advance, build_quantifier_iterations, have_had_complete_iteration, quantifier_iterations};
use crate::character_reader::level1::{
    copy_zero_width_entries, copy_zero_width_entry, same_entries, ZeroWidthEntry, ZeroWidthKind,
};
use crate::node_extra::NodeExtra;
use crate::text::{decimal_text, push_decimal, push_str};
use std::collections::HashMap;
use std::rc::Rc;
use vstd::prelude::*;
use vstd::std_specs::hash::spec_hash_map_iter;
use vstd::std_specs::iter::IteratorSpec;

verus! {

/// A character recorded under a capturing group.
pub struct GroupEntry<G> {
    /// The character set.
    pub character_groups: Rc<G>,
    /// The node that consumed the character.
    pub node: RcNode,
    /// The markers met inside the group before the character.
    pub preceding_zero_width_entries: Vec<ZeroWidthEntry>,
    /// The stack of the character.
    pub stack: Vec<StackEntry>,
}

impl<G> Clone for GroupEntry<G> {
    fn clone(&self) -> (res: Self)
        ensures
            entry_model(res) == entry_model(*self),
    {
        let preceding = copy_zero_width_entries(&self.preceding_zero_width_entries);
        proof {
            lemma_same_entries_models(preceding@, self.preceding_zero_width_entries@);
        }
        GroupEntry {
            character_groups: Rc::clone(&self.character_groups),
            node: Rc::clone(&self.node),
            preceding_zero_width_entries: preceding,
            stack: copy_stack(&self.stack),
        }
    }
}

/// The characters recorded under one capturing group.
pub struct GroupContents<G> {
    /// The recorded characters, in the order they were met.
    pub contents: Vec<GroupEntry<G>>,
    /// The group they were recorded under.
    pub group: RcNode,
}

impl<G> Clone for GroupContents<G> {
    fn clone(&self) -> (res: Self)
        ensures
            contents_model(res) == contents_model(*self),
    {
        let mut contents: Vec<GroupEntry<G>> = Vec::new();
        let mut i: usize = 0;
        while i < self.contents.len()
            invariant
                i <= self.contents@.len(),
                contents@.map_values(|e: GroupEntry<G>| entry_model(e)) == self.contents@.take(i as int).map_values(
                    |e: GroupEntry<G>| entry_model(e),
                ),
            decreases self.contents.len() - i,
        {
            let ghost before = contents@;
            contents.push(self.contents[i].clone());
            proof {
                assert(contents@.map_values(|e: GroupEntry<G>| entry_model(e)) =~= before.map_values(
                    |e: GroupEntry<G>| entry_model(e),
                ).push(entry_model(self.contents@[i as int])));
                assert(self.contents@.take(i + 1).map_values(|e: GroupEntry<G>| entry_model(e)) =~= self.contents@.take(
                    i as int,
                ).map_values(|e: GroupEntry<G>| entry_model(e)).push(entry_model(self.contents@[i as int])));
            }
            i += 1;
        }
        proof {
            assert(self.contents@.take(i as int) =~= self.contents@);
        }
        GroupContents { contents, group: Rc::clone(&self.group) }
    }
}

/// A zero-width marker as plain values.
pub open spec fn zw_model(z: ZeroWidthEntry) -> (usize, Seq<StackEntry>, ZeroWidthKind) {
    (z.offset, z.stack@, z.kind)
}

/// A list of zero-width markers as plain values.
pub open spec fn zw_models(s: Seq<ZeroWidthEntry>) -> Seq<(usize, Seq<StackEntry>, ZeroWidthKind)> {
    s.map_values(|z: ZeroWidthEntry| zw_model(z))
}

/// A recorded character as plain values.
pub open spec fn entry_model<G>(e: GroupEntry<G>) -> (Rc<G>, RcNode, Seq<(usize, Seq<StackEntry>, ZeroWidthKind)>, Seq<StackEntry>) {
    (e.character_groups, e.node, zw_models(e.preceding_zero_width_entries@), e.stack@)
}

/// The characters of a group as plain values.
pub open spec fn contents_model<G>(c: GroupContents<G>) -> (RcNode, Seq<(Rc<G>, RcNode, Seq<(usize, Seq<StackEntry>, ZeroWidthKind)>, Seq<StackEntry>)>) {
    (c.group, c.contents@.map_values(|e: GroupEntry<G>| entry_model(e)))
}

/// The recorded groups as plain values, by group index.
pub open spec fn store_model<G>(m: Map<u64, GroupContents<G>>) -> Map<u64, (RcNode, Seq<(Rc<G>, RcNode, Seq<(usize, Seq<StackEntry>, ZeroWidthKind)>, Seq<StackEntry>)>)> {
    m.map_values(|c: GroupContents<G>| contents_model(c))
}

/// A group that starts at `group_start` lies ahead of a character at `start`
/// met after the markers `preceding`: it starts at or after the character or
/// one of the markers.
pub open spec fn is_ahead(group_start: int, preceding: Seq<ZeroWidthEntry>, start: int) -> bool {
    group_start >= start || exists|i: int| 0 <= i < preceding.len() && group_start >= #[trigger] preceding[i].offset
}

/// The recorded groups without those that lie ahead of the current position.
pub open spec fn cleared<G>(m: Map<u64, GroupContents<G>>, preceding: Seq<ZeroWidthEntry>, start: int) -> Map<u64, GroupContents<G>> {
    Map::new(
        |k: u64| m.contains_key(k) && !is_ahead(m[k].group.range.0 as int, preceding, start),
        |k: u64| m[k],
    )
}

/// The position just after the last reference frame of a stack, or 0; the
/// frames from there on were not added by a reference.
pub open spec fn reference_cut(stack: Seq<StackEntry>) -> int
    decreases stack.len(),
{
    if stack.len() == 0 {
        0
    } else if stack.last() is Reference {
        stack.len() as int
    } else {
        reference_cut(stack.drop_last())
    }
}

/// The frames of a stack from the last reference frame on, innermost first.
pub open spec fn own_frames(stack: Seq<StackEntry>) -> Seq<StackEntry> {
    stack.subrange(reference_cut(stack), stack.len() as int).reverse()
}

/// The capturing group of a frame, if the frame is a capturing-group frame.
pub open spec fn capturing_group_of(e: StackEntry) -> Option<RcNode> {
    match e {
        StackEntry::Group { group } => match group.kind {
            NodeKind::Group { behavior, body } => if behavior == GroupBehavior::Normal {
                Some(group)
            } else {
                None
            },
            _ => None,
        },
        _ => None,
    }
}

/// Every capturing group among the frames has an index.
pub open spec fn frames_indexed(frames: Seq<StackEntry>, group_index: Map<usize, u64>) -> bool {
    forall|i: int|
        0 <= i < frames.len() && (#[trigger] capturing_group_of(frames[i])) is Some ==> group_index.contains_key(
            capturing_group_of(frames[i])->0.id,
        )
}

/// The markers whose offset lies in `[lo, hi]`, as plain values.
pub open spec fn markers_within(s: Seq<ZeroWidthEntry>, lo: int, hi: int) -> Seq<(usize, Seq<StackEntry>, ZeroWidthKind)>
    decreases s.len(),
{
    if s.len() == 0 {
        Seq::empty()
    } else {
        let rest = markers_within(s.drop_last(), lo, hi);
        if lo <= s.last().offset <= hi {
            rest.push(zw_model(s.last()))
        } else {
            rest
        }
    }
}

/// Whether an unbounded quantifier was met since the innermost lookaround,
/// after one more frame, innermost first.
pub open spec fn infinite_after(flag: bool, e: StackEntry) -> bool {
    match e {
        StackEntry::Quantifier { iteration, quantifier } => match quantifier.kind {
            NodeKind::Quantifier { min, max, greedy, symbol, body } => if max is None {
                true
            } else {
                flag
            },
            _ => flag,
        },
        StackEntry::Group { group } => match group.kind {
            NodeKind::Group { behavior, body } => if behavior.spec_is_lookaround() {
                false
            } else {
                flag
            },
            _ => flag,
        },
        StackEntry::Reference { reference } => flag,
    }
}

/// What recording one character does for one more frame, innermost first:
/// the state is the unbounded flag, the recorded groups and the groups known
/// to be of unbounded size.
pub open spec fn record_frame<G>(
    state: (bool, Map<u64, (RcNode, Seq<(Rc<G>, RcNode, Seq<(usize, Seq<StackEntry>, ZeroWidthKind)>, Seq<StackEntry>)>)>, Seq<u64>),
    e: StackEntry,
    group_index: Map<usize, u64>,
    character_groups: Rc<G>,
    node: RcNode,
    preceding: Seq<ZeroWidthEntry>,
    stack: Seq<StackEntry>,
) -> (bool, Map<u64, (RcNode, Seq<(Rc<G>, RcNode, Seq<(usize, Seq<StackEntry>, ZeroWidthKind)>, Seq<StackEntry>)>)>, Seq<u64>) {
    let (flag, store, infinite) = state;
    match capturing_group_of(e) {
        Some(group) => {
            let index = group_index[group.id];
            let infinite2 = if flag && !infinite.contains(index) {
                infinite.push(index)
            } else {
                infinite
            };
            let (g, entries) = if store.contains_key(index) {
                store[index]
            } else {
                (group, Seq::empty())
            };
            let entry = (character_groups, node, markers_within(preceding, group.range.0 as int, group.range.1 as int), stack);
            (flag, store.insert(index, (g, entries.push(entry))), infinite2)
        },
        None => (infinite_after(flag, e), store, infinite),
    }
}

/// Recording a character through a list of frames, innermost first.
pub open spec fn record_frames<G>(
    frames: Seq<StackEntry>,
    init: (bool, Map<u64, (RcNode, Seq<(Rc<G>, RcNode, Seq<(usize, Seq<StackEntry>, ZeroWidthKind)>, Seq<StackEntry>)>)>, Seq<u64>),
    group_index: Map<usize, u64>,
    character_groups: Rc<G>,
    node: RcNode,
    preceding: Seq<ZeroWidthEntry>,
    stack: Seq<StackEntry>,
) -> (bool, Map<u64, (RcNode, Seq<(Rc<G>, RcNode, Seq<(usize, Seq<StackEntry>, ZeroWidthKind)>, Seq<StackEntry>)>)>, Seq<u64>)
    decreases frames.len(),
{
    if frames.len() == 0 {
        init
    } else {
        record_frame(
            record_frames(frames.drop_last(), init, group_index, character_groups, node, preceding, stack),
            frames.last(),
            group_index,
            character_groups,
            node,
            preceding,
            stack,
        )
    }
}

fn contains_u64(v: &Vec<u64>, x: u64) -> (res: bool)
    ensures
        res == v@.contains(x),
{
    let mut i: usize = 0;
    while i < v.len()
        invariant
            i <= v@.len(),
            forall|j: int| 0 <= j < i ==> v@[j] != x,
        decreases v.len() - i,
    {
        if v[i] == x {
            return true;
        }
        i += 1;
    }
    false
}

/// Returns `true` when a group starting at `group_start` lies ahead of a
/// character at `start` met after the markers `preceding`.
fn group_is_ahead(group_start: usize, preceding: &Vec<ZeroWidthEntry>, start: usize) -> (res: bool)
    ensures
        res == is_ahead(group_start as int, preceding@, start as int),
{
    if group_start >= start {
        return true;
    }
    let mut i: usize = 0;
    while i < preceding.len()
        invariant
            i <= preceding@.len(),
            forall|j: int| 0 <= j < i ==> group_start < #[trigger] preceding@[j].offset,
        decreases preceding.len() - i,
    {
        if group_start >= preceding[i].offset {
            return true;
        }
        i += 1;
    }
    false
}

/// Copies the markers whose offset lies in `[lo, hi]`.
fn markers_in_range(preceding: &Vec<ZeroWidthEntry>, lo: usize, hi: usize) -> (res: Vec<ZeroWidthEntry>)
    ensures
        zw_models(res@) == markers_within(preceding@, lo as int, hi as int),
{
    let mut out: Vec<ZeroWidthEntry> = Vec::new();
    let mut i: usize = 0;
    while i < preceding.len()
        invariant
            i <= preceding@.len(),
            zw_models(out@) == markers_within(preceding@.take(i as int), lo as int, hi as int),
        decreases preceding.len() - i,
    {
        proof {
            assert(preceding@.take(i + 1).drop_last() =~= preceding@.take(i as int));
            assert(preceding@.take(i + 1).last() == preceding@[i as int]);
        }
        let z = &preceding[i];
        if lo <= z.offset && z.offset <= hi {
            let ghost before = out@;
            out.push(copy_zero_width_entry(z));
            proof {
                assert(zw_models(out@) =~= zw_models(before).push(zw_model(preceding@[i as int])));
            }
        }
        i += 1;
    }
    proof {
        assert(preceding@.take(i as int) =~= preceding@);
    }
    out
}

fn is_reference_frame(e: &StackEntry) -> (res: bool)
    ensures
        res == (*e is Reference),
{
    match e {
        StackEntry::Reference { .. } => true,
        _ => false,
    }
}

/// The position just after the last reference frame of `stack`, or 0.
fn find_reference_cut(stack: &Vec<StackEntry>) -> (res: usize)
    ensures
        res == reference_cut(stack@),
{
    let mut j: usize = stack.len();
    proof {
        assert(stack@.take(j as int) =~= stack@);
    }
    while j > 0 && !is_reference_frame(&stack[j - 1])
        invariant
            j <= stack@.len(),
            reference_cut(stack@) == reference_cut(stack@.take(j as int)),
        decreases j,
    {
        proof {
            assert(stack@.take(j as int).drop_last() =~= stack@.take(j - 1));
        }
        j -= 1;
    }
    proof {
        if j > 0 {
            assert(stack@.take(j as int).last() == stack@[j - 1]);
        }
    }
    j
}

/// Removes the recorded groups that lie ahead of a character at `start` met
/// after the markers `preceding`: matching that character starts them over.
pub fn clear_groups_ahead<G>(store: &mut HashMap<u64, GroupContents<G>>, preceding: &Vec<ZeroWidthEntry>, start: usize)
    ensures
        final(store)@ == cleared(old(store)@, preceding@, start as int),
{
    let ghost entries = IteratorSpec::remaining(&spec_hash_map_iter(&*store));
    let mut to_remove: Vec<u64> = Vec::new();
    for pair in iter: store.iter()
        invariant
            iter.seq() == entries,
            entries == IteratorSpec::remaining(&spec_hash_map_iter(&*store)),
            forall|j: int|
                0 <= j < to_remove@.len() ==> store@.contains_key(#[trigger] to_remove@[j]) && is_ahead(
                    store@[to_remove@[j]].group.range.0 as int,
                    preceding@,
                    start as int,
                ),
            forall|j: int|
                0 <= j < iter.index() && is_ahead((*entries[j].1).group.range.0 as int, preceding@, start as int)
                    ==> to_remove@.contains(*(#[trigger] entries[j]).0),
    {
        let (key, contents) = pair;
        let ghost idx = iter.index();
        let ghost before = to_remove@;
        proof {
            assert(entries[idx] == pair);
        }
        if group_is_ahead(contents.group.range.0, preceding, start) {
            proof {
                assert(store@.contains_key(*key) && store@[*key] == *contents);
            }
            to_remove.push(*key);
        }
        proof {
            assert forall|j: int| 0 <= j < idx + 1 && is_ahead((*entries[j].1).group.range.0 as int, preceding@, start as int)
                implies to_remove@.contains(*(#[trigger] entries[j]).0) by {
                if j < idx {
                    let w = choose|w: int| 0 <= w < before.len() && #[trigger] before[w] == *entries[j].0;
                    assert(to_remove@[w] == before[w]);
                } else {
                    assert(to_remove@[to_remove@.len() - 1] == *key);
                }
            }
        }
    }
    let ghost store_before = store@;
    proof {
        assert forall|k: u64| #[trigger] store_before.contains_key(k) && is_ahead(
            store_before[k].group.range.0 as int,
            preceding@,
            start as int,
        ) implies to_remove@.contains(k) by {
            assert(entries.contains((&k, &store_before[k])));
            let j = choose|j: int| 0 <= j < entries.len() && entries[j] == (&k, &store_before[k]);
            assert(is_ahead((*entries[j].1).group.range.0 as int, preceding@, start as int));
        }
    }
    let mut t: usize = 0;
    while t < to_remove.len()
        invariant
            t <= to_remove@.len(),
            forall|j: int|
                0 <= j < to_remove@.len() ==> store_before.contains_key(#[trigger] to_remove@[j]) && is_ahead(
                    store_before[to_remove@[j]].group.range.0 as int,
                    preceding@,
                    start as int,
                ),
            store@ == Map::new(
                |k: u64| store_before.contains_key(k) && !to_remove@.take(t as int).contains(k),
                |k: u64| store_before[k],
            ),
        decreases to_remove.len() - t,
    {
        let key = to_remove[t];
        let ghost before = store@;
        store.remove(&key);
        proof {
            assert(to_remove@.take(t + 1) =~= to_remove@.take(t as int).push(key));
            assert(store@ =~= Map::new(
                |k: u64| store_before.contains_key(k) && !to_remove@.take(t + 1).contains(k),
                |k: u64| store_before[k],
            )) by {
                let s0 = to_remove@.take(t as int);
                let s1 = s0.push(key);
                assert forall|k: u64| s1.contains(k) <==> (s0.contains(k) || k == key) by {
                    if s1.contains(k) {
                        let j = choose|j: int| 0 <= j < s1.len() && #[trigger] s1[j] == k;
                        if j < s0.len() {
                            assert(s0[j] == k);
                        }
                    }
                    if s0.contains(k) {
                        let j = choose|j: int| 0 <= j < s0.len() && #[trigger] s0[j] == k;
                        assert(s1[j] == k);
                    }
                    if k == key {
                        assert(s1[s0.len() as int] == k);
                    }
                }
            }
        }
        t += 1;
    }
    proof {
        assert(to_remove@.take(t as int) =~= to_remove@);
        assert(store@ =~= cleared(store_before, preceding@, start as int)) by {
            assert forall|k: u64| #[trigger] to_remove@.contains(k) implies store_before.contains_key(k) && is_ahead(
                store_before[k].group.range.0 as int,
                preceding@,
                start as int,
            ) by {
                let j = choose|j: int| 0 <= j < to_remove@.len() && #[trigger] to_remove@[j] == k;
            }
        }
    }
}


/// Why level 2 cannot go on.
#[derive(Clone, Copy, Debug, PartialEq, Eq, Structural)]
pub enum Level2Error {
    /// A capturing group or reference that the pattern facts do not know.
    MissingPatternFact,
    /// A reference into a positive lookaround that the reference is not in.
    ReferenceIntoLookaround { reference_index: u64, position: usize },
    /// A reference to a group that can match unboundedly many characters.
    ReferenceToInfiniteGroup { reference_index: u64 },
}

impl Level2Error {
    /// The text of the error.
    pub open spec fn spec_message(self) -> Seq<char> {
        match self {
            Level2Error::MissingPatternFact => "Internal error: map missing key"@,
            Level2Error::ReferenceIntoLookaround { reference_index, position } => "Unsupported reference ("@
                + decimal_text(reference_index as nat) + " at position "@ + decimal_text(position as nat)
                + "). Pattern needs downgrading. See the `downgradePattern` option."@,
            Level2Error::ReferenceToInfiniteGroup { reference_index } => "Unsupported reference to group "@
                + decimal_text(reference_index as nat)
                + " as group is not a finite size. Pattern needs downgrading. See the `downgradePattern` option."@,
        }
    }

    /// Returns the text of the error.
    pub fn message(&self) -> (res: String)
        ensures
            res@ == self.spec_message(),
    {
        let mut s = String::new();
        match self {
            Level2Error::MissingPatternFact => {
                push_str(&mut s, "Internal error: map missing key");
            },
            Level2Error::ReferenceIntoLookaround { reference_index, position } => {
                push_str(&mut s, "Unsupported reference (");
                push_decimal(&mut s, *reference_index);
                push_str(&mut s, " at position ");
                push_decimal(&mut s, *position as u64);
                push_str(&mut s, "). Pattern needs downgrading. See the `downgradePattern` option.");
            },
            Level2Error::ReferenceToInfiniteGroup { reference_index } => {
                push_str(&mut s, "Unsupported reference to group ");
                push_decimal(&mut s, *reference_index);
                push_str(
                    &mut s,
                    " as group is not a finite size. Pattern needs downgrading. See the `downgradePattern` option.",
                );
            },
        }
        proof {
            assert(s@ =~= self.spec_message());
        }
        s
    }
}

/// What level 2 remembers while it reads one path through the pattern.
pub struct Level2State<G> {
    /// The characters recorded under each capturing group, by group index.
    pub group_contents_store: HashMap<u64, GroupContents<G>>,
    /// The indices of the groups seen to match unboundedly many characters.
    pub groups_with_infinite_size: Vec<u64>,
    /// The markers met since the last entry.
    pub preceding_zero_width_entries: Vec<ZeroWidthEntry>,
    /// The quantifier iterations of the last consumed character.
    pub quantifier_iterations_at_last_group: HashMap<usize, u64>,
}

/// Returns `true` when every capturing group among the frames of `stack`
/// from `cut` on has an index.
fn frames_are_indexed(stack: &Vec<StackEntry>, cut: usize, node_extra: &NodeExtra) -> (res: bool)
    requires
        cut == reference_cut(stack@),
    ensures
        res == frames_indexed(own_frames(stack@), node_extra.capturing_group_to_index@),
{
    proof {
        lemma_reference_cut_bounds(stack@);
    }
    let ghost frames = own_frames(stack@);
    let mut k: usize = cut;
    while k < stack.len()
        invariant
            cut <= k <= stack@.len(),
            cut == reference_cut(stack@),
            frames == own_frames(stack@),
            forall|k2: int|
                cut <= k2 < k && (#[trigger] capturing_group_of(stack@[k2])) is Some
                    ==> node_extra.capturing_group_to_index@.contains_key(capturing_group_of(stack@[k2])->0.id),
        decreases stack.len() - k,
    {
        match &stack[k] {
            StackEntry::Group { group } => {
                if let NodeKind::Group { behavior, .. } = &group.kind {
                    if *behavior == GroupBehavior::Normal {
                        if !node_extra.capturing_group_to_index.contains_key(&group.id) {
                            proof {
                                let i = stack@.len() - 1 - k;
                                assert(frames[i] == stack@[k as int]);
                                assert(capturing_group_of(frames[i]) is Some);
                            }
                            return false;
                        }
                    }
                }
            },
            _ => {},
        }
        k += 1;
    }
    proof {
        assert forall|i: int|
            0 <= i < frames.len() && (#[trigger] capturing_group_of(frames[i])) is Some implies node_extra.capturing_group_to_index@.contains_key(
            capturing_group_of(frames[i])->0.id,
        ) by {
            let k2 = stack@.len() - 1 - i;
            assert(frames[i] == stack@[k2]);
        }
    }
    true
}

proof fn lemma_reference_cut_bounds(stack: Seq<StackEntry>)
    ensures
        0 <= reference_cut(stack) <= stack.len(),
    decreases stack.len(),
{
    if stack.len() > 0 {
        lemma_reference_cut_bounds(stack.drop_last());
    }
}

impl<G> Level2State<G> {
    /// A state with nothing recorded.
    pub fn new() -> (res: Self)
        ensures
            res.group_contents_store@ == Map::<u64, GroupContents<G>>::empty(),
            res.groups_with_infinite_size@.len() == 0,
            res.preceding_zero_width_entries@.len() == 0,
            res.quantifier_iterations_at_last_group@ == Map::<usize, u64>::empty(),
    {
        Level2State {
            group_contents_store: HashMap::new(),
            groups_with_infinite_size: Vec::new(),
            preceding_zero_width_entries: Vec::new(),
            quantifier_iterations_at_last_group: HashMap::new(),
        }
    }

    /// Records a character met with `stack` under each capturing group of the
    /// frames that a reference did not add, innermost first. Outside a
    /// reference, the groups that lie ahead of the character are cleared
    /// first. A group is of unbounded size when an unbounded quantifier lies
    /// between it and the character with no lookaround in between. Fails,
    /// changing nothing, when one of those groups has no index.
    pub fn record_groups_entry(
        &mut self,
        node_extra: &NodeExtra,
        character_groups: &Rc<G>,
        node: &RcNode,
        stack: &Vec<StackEntry>,
        inside_reference: bool,
    ) -> (res: Result<(), Level2Error>)
        ensures
            res is Err <==> !frames_indexed(own_frames(stack@), node_extra.capturing_group_to_index@),
            res is Err ==> res == Err::<(), Level2Error>(Level2Error::MissingPatternFact) && final(self).group_contents_store@
                == old(self).group_contents_store@ && final(self).groups_with_infinite_size@
                == old(self).groups_with_infinite_size@,
            res is Ok ==> ({
                let base = if inside_reference {
                    old(self).group_contents_store@
                } else {
                    cleared(old(self).group_contents_store@, old(self).preceding_zero_width_entries@, node.range.0 as int)
                };
                let r = record_frames(
                    own_frames(stack@),
                    (false, store_model(base), old(self).groups_with_infinite_size@),
                    node_extra.capturing_group_to_index@,
                    *character_groups,
                    *node,
                    old(self).preceding_zero_width_entries@,
                    stack@,
                );
                &&& store_model(final(self).group_contents_store@) == r.1
                &&& final(self).groups_with_infinite_size@ == r.2
            }),
            final(self).preceding_zero_width_entries@ == old(self).preceding_zero_width_entries@,
            final(self).quantifier_iterations_at_last_group@ == old(self).quantifier_iterations_at_last_group@,
    {
        let cut = find_reference_cut(stack);
        if !frames_are_indexed(stack, cut, node_extra) {
            return Err(Level2Error::MissingPatternFact);
        }
        if !inside_reference {
            clear_groups_ahead(&mut self.group_contents_store, &self.preceding_zero_width_entries, node.range.0);
        }
        proof {
            lemma_reference_cut_bounds(stack@);
        }
        let ghost frames = own_frames(stack@);
        let ghost init = (false, store_model(self.group_contents_store@), self.groups_with_infinite_size@);
        let ghost group_index = node_extra.capturing_group_to_index@;
        let len = stack.len();
        let mut flag = false;
        let mut j: usize = len;
        proof {
            assert(frames.take(0) =~= Seq::<StackEntry>::empty());
        }
        while j > cut
            invariant
                cut <= j <= len,
                len == stack@.len(),
                cut == reference_cut(stack@),
                frames == own_frames(stack@),
                frames.len() == len - cut,
                group_index == node_extra.capturing_group_to_index@,
                frames_indexed(frames, group_index),
                self.preceding_zero_width_entries@ == old(self).preceding_zero_width_entries@,
                self.quantifier_iterations_at_last_group@ == old(self).quantifier_iterations_at_last_group@,
                (flag, store_model(self.group_contents_store@), self.groups_with_infinite_size@) == record_frames(
                    frames.take(len - j),
                    init,
                    group_index,
                    *character_groups,
                    *node,
                    self.preceding_zero_width_entries@,
                    stack@,
                ),
            decreases j,
        {
            let ghost t = len - j;
            proof {
                assert(frames.take(t + 1).drop_last() =~= frames.take(t));
                assert(frames.take(t + 1).last() == frames[t]);
                assert(frames[t] == stack@[j - 1]);
            }
            j -= 1;
            let ghost before = store_model(self.group_contents_store@);
            match &stack[j] {
                StackEntry::Quantifier { quantifier, .. } => {
                    if let NodeKind::Quantifier { max, .. } = &quantifier.kind {
                        if max.is_none() {
                            flag = true;
                        }
                    }
                },
                StackEntry::Reference { .. } => {},
                StackEntry::Group { group } => {
                    if let NodeKind::Group { behavior, .. } = &group.kind {
                        if behavior.is_lookaround() {
                            flag = false;
                        } else if *behavior == GroupBehavior::Normal {
                            proof {
                                assert(capturing_group_of(frames[t]) is Some);
                            }
                            let index = *crate::map::must_get(&node_extra.capturing_group_to_index, &group.id);
                            if flag && !contains_u64(&self.groups_with_infinite_size, index) {
                                self.groups_with_infinite_size.push(index);
                            }
                            let entry = GroupEntry {
                                character_groups: Rc::clone(character_groups),
                                node: Rc::clone(node),
                                preceding_zero_width_entries: markers_in_range(
                                    &self.preceding_zero_width_entries,
                                    group.range.0,
                                    group.range.1,
                                ),
                                stack: copy_stack(stack),
                            };
                            let ghost old_store = self.group_contents_store@;
                            let mut contents = match self.group_contents_store.remove(&index) {
                                Some(c) => c,
                                None => GroupContents { contents: Vec::new(), group: Rc::clone(group) },
                            };
                            let ghost old_contents = contents;
                            contents.contents.push(entry);
                            proof {
                                assert(contents.contents@.map_values(|e: GroupEntry<G>| entry_model(e)) =~= old_contents.contents@.map_values(
                                    |e: GroupEntry<G>| entry_model(e),
                                ).push(entry_model(entry)));
                            }
                            self.group_contents_store.insert(index, contents);
                            proof {
                                assert(store_model(self.group_contents_store@) =~= store_model(old_store).insert(
                                    index,
                                    contents_model(contents),
                                ));
                                if old_store.contains_key(index) {
                                    assert(old_contents == old_store[index]);
                                } else {
                                    assert(old_contents.contents@.map_values(|e: GroupEntry<G>| entry_model(e)) =~= Seq::<
                                        (Rc<G>, RcNode, Seq<(usize, Seq<StackEntry>, ZeroWidthKind)>, Seq<StackEntry>),
                                    >::empty());
                                }
                            }
                        }
                    }
                },
            }
        }
        proof {
            assert(frames.take(len - j) =~= frames);
        }
        Ok(())
    }
}


/// A recorded character replayed for a reference.
pub struct ReplayedEntry<G> {
    /// The character set.
    pub character_groups: Rc<G>,
    /// The node that consumed the character.
    pub node: RcNode,
    /// The character's stack, then the reference frame, then the stack of
    /// the reference.
    pub stack: Vec<StackEntry>,
    /// The markers recorded with the character.
    pub preceding_zero_width_entries: Vec<ZeroWidthEntry>,
}

/// The ids of a list of nodes.
pub open spec fn node_ids(v: Seq<RcNode>) -> Seq<usize> {
    v.map_values(|n: RcNode| n.id)
}

/// The group whose recorded characters a reference to `index` replays: the
/// one recorded under the index, or else the capturing group of the index.
pub open spec fn replayed_group<G>(store: Map<u64, GroupContents<G>>, extra: NodeExtra, index: u64) -> RcNode {
    if store.contains_key(index) {
        store[index].group
    } else {
        extra.index_to_capturing_group@[index]
    }
}

/// The pattern facts that a reference to `index` at `reference` looks up.
pub open spec fn reference_facts_known<G>(
    store: Map<u64, GroupContents<G>>,
    extra: NodeExtra,
    index: u64,
    reference: RcNode,
) -> bool {
    &&& extra.index_to_capturing_group@.contains_key(index)
    &&& extra.node_to_lookahead_stack@.contains_key(replayed_group(store, extra, index).id)
    &&& extra.node_to_lookahead_stack@.contains_key(reference.id)
}

/// The lookarounds around the replayed group that are not around the
/// reference: those after the common prefix of the two lookaround stacks.
pub open spec fn extra_lookaround_ids<G>(
    store: Map<u64, GroupContents<G>>,
    extra: NodeExtra,
    index: u64,
    reference: RcNode,
) -> Seq<usize> {
    let a = node_ids(extra.node_to_lookahead_stack@[replayed_group(store, extra, index).id]@);
    let b = node_ids(extra.node_to_lookahead_stack@[reference.id]@);
    a.skip(common_prefix_len(a, b))
}

/// One of those lookarounds is a negative one.
pub open spec fn extra_lookaround_is_negative<G>(
    store: Map<u64, GroupContents<G>>,
    extra: NodeExtra,
    index: u64,
    reference: RcNode,
) -> bool {
    let stack = extra.node_to_lookahead_stack@[replayed_group(store, extra, index).id]@;
    exists|i: int|
        0 <= i < stack.len() && extra_lookaround_ids(store, extra, index, reference).contains(#[trigger] stack[i].id)
            && (stack[i].kind matches NodeKind::Group { behavior, body } && behavior.spec_is_negative())
}

/// The characters recorded under `index`.
pub open spec fn recorded_entries<G>(store: Map<u64, GroupContents<G>>, index: u64) -> Seq<GroupEntry<G>> {
    if store.contains_key(index) {
        store[index].contents@
    } else {
        Seq::empty()
    }
}

proof fn lemma_same_entries_models(a: Seq<ZeroWidthEntry>, b: Seq<ZeroWidthEntry>)
    requires
        same_entries(a, b),
    ensures
        zw_models(a) == zw_models(b),
{
    assert(zw_models(a) =~= zw_models(b));
}

/// Returns the ids of `v`.
fn ids_of(v: &Vec<RcNode>) -> (res: Vec<usize>)
    ensures
        res@ == node_ids(v@),
{
    let mut out: Vec<usize> = Vec::new();
    let mut i: usize = 0;
    while i < v.len()
        invariant
            i <= v@.len(),
            out@ == node_ids(v@.take(i as int)),
        decreases v.len() - i,
    {
        out.push(v[i].id);
        proof {
            assert(node_ids(v@.take(i + 1)) =~= node_ids(v@.take(i as int)).push(v@[i as int].id));
        }
        i += 1;
    }
    proof {
        assert(v@.take(i as int) =~= v@);
    }
    out
}

fn slice_contains(v: &[usize], x: usize) -> (res: bool)
    ensures
        res == v@.contains(x),
{
    let mut i: usize = 0;
    while i < v.len()
        invariant
            i <= v@.len(),
            forall|j: int| 0 <= j < i ==> v@[j] != x,
        decreases v.len() - i,
    {
        if v[i] == x {
            return true;
        }
        i += 1;
    }
    false
}

/// Returns a copy of the recorded character for a reference at `reference`
/// met with `reference_stack`.
fn replay_entry<G>(e: &GroupEntry<G>, reference: &RcNode, reference_stack: &Vec<StackEntry>) -> (res: ReplayedEntry<G>)
    ensures
        res.character_groups == e.character_groups,
        res.node == e.node,
        res.stack@ == e.stack@ + seq![StackEntry::Reference { reference: *reference }] + reference_stack@,
        zw_models(res.preceding_zero_width_entries@) == zw_models(e.preceding_zero_width_entries@),
{
    let mut stack = copy_stack(&e.stack);
    stack.push(StackEntry::Reference { reference: Rc::clone(reference) });
    let ghost head = stack@;
    let mut k: usize = 0;
    while k < reference_stack.len()
        invariant
            k <= reference_stack@.len(),
            stack@ == head + reference_stack@.take(k as int),
        decreases reference_stack.len() - k,
    {
        stack.push(copy_frame(&reference_stack[k]));
        proof {
            assert(head + reference_stack@.take(k + 1) =~= (head + reference_stack@.take(k as int)).push(reference_stack@[k as int]));
        }
        k += 1;
    }
    proof {
        assert(reference_stack@.take(k as int) =~= reference_stack@);
        assert(head =~= e.stack@ + seq![StackEntry::Reference { reference: *reference }]);
    }
    let preceding = copy_zero_width_entries(&e.preceding_zero_width_entries);
    proof {
        lemma_same_entries_models(preceding@, e.preceding_zero_width_entries@);
    }
    ReplayedEntry { character_groups: Rc::clone(&e.character_groups), node: Rc::clone(&e.node), stack, preceding_zero_width_entries: preceding }
}

/// What a reference to group `index` at `reference`, met with
/// `reference_stack` inside the groups `groups`, stands for, given the
/// recorded groups and the groups known to be of unbounded size.
pub open spec fn replay_outcome<G>(
    store: Map<u64, GroupContents<G>>,
    infinite: Seq<u64>,
    extra: NodeExtra,
    reference_index: u64,
    reference: RcNode,
    reference_stack: Seq<StackEntry>,
    groups: Seq<RcNode>,
    res: Result<Vec<ReplayedEntry<G>>, Level2Error>,
) -> bool {
    if !reference_facts_known(store, extra, reference_index, reference) {
        res == Err::<Vec<ReplayedEntry<G>>, Level2Error>(Level2Error::MissingPatternFact)
    } else if extra_lookaround_ids(store, extra, reference_index, reference).len() > 0 {
        if extra_lookaround_is_negative(store, extra, reference_index, reference) {
            res matches Ok(v) && v@.len() == 0
        } else {
            res == Err::<Vec<ReplayedEntry<G>>, Level2Error>(
                Level2Error::ReferenceIntoLookaround {
                    reference_index,
                    position: reference.range.0,
                },
            )
        }
    } else if exists|i: int|
        0 <= i < groups.len() && (#[trigger] groups[i]).id == replayed_group(
            store,
            extra,
            reference_index,
        ).id {
        res matches Ok(v) && v@.len() == 0
    } else if infinite.contains(reference_index) {
        res == Err::<Vec<ReplayedEntry<G>>, Level2Error>(
            Level2Error::ReferenceToInfiniteGroup { reference_index },
        )
    } else {
        let entries = recorded_entries(store, reference_index);
        &&& res matches Ok(v)
        &&& v@.len() == entries.len()
        &&& forall|i: int|
            0 <= i < entries.len() ==> {
                &&& (#[trigger] v@[i]).character_groups == entries[i].character_groups
                &&& v@[i].node == entries[i].node
                &&& v@[i].stack@ == entries[i].stack@ + seq![StackEntry::Reference { reference: reference }]
                    + reference_stack
                &&& zw_models(v@[i].preceding_zero_width_entries@) == zw_models(
                    entries[i].preceding_zero_width_entries@,
                )
            }
    }
}

/// A reference to a group that has recorded nothing stands for the empty
/// string, whenever it is supported at all.
pub proof fn lemma_unmatched_reference_is_empty<G>(
    store: Map<u64, GroupContents<G>>,
    infinite: Seq<u64>,
    extra: NodeExtra,
    reference_index: u64,
    reference: RcNode,
    reference_stack: Seq<StackEntry>,
    groups: Seq<RcNode>,
    res: Result<Vec<ReplayedEntry<G>>, Level2Error>,
)
    requires
        replay_outcome(store, infinite, extra, reference_index, reference, reference_stack, groups, res),
        !store.contains_key(reference_index),
        res is Ok,
    ensures
        res matches Ok(v) && v@.len() == 0,
{
}

impl<G> Level2State<G> {
    /// The characters that a reference to group `index` at `reference`, met
    /// with `reference_stack` inside the capturing groups `groups`, stands
    /// for. Nothing when the group is only recorded inside a lookaround that
    /// the reference is not in and one such lookaround is negative, or when
    /// the reference is inside the group itself. Otherwise the recorded
    /// characters, each with a reference frame and the reference's stack
    /// after its own. Fails when the lookarounds around the group that are
    /// not around the reference are all positive, when the group can match
    /// unboundedly many characters, or when the pattern facts do not know the
    /// group or the reference.
    pub fn replay_reference(
        &self,
        node_extra: &NodeExtra,
        reference_index: u64,
        reference: &RcNode,
        reference_stack: &Vec<StackEntry>,
        groups: &Vec<RcNode>,
    ) -> (res: Result<Vec<ReplayedEntry<G>>, Level2Error>)
        ensures
            replay_outcome(
                self.group_contents_store@,
                self.groups_with_infinite_size@,
                *node_extra,
                reference_index,
                *reference,
                reference_stack@,
                groups@,
                res,
            ),
    {
        let ghost store = self.group_contents_store@;
        let group = match node_extra.index_to_capturing_group.get(&reference_index) {
            Some(g) => g,
            None => return Err(Level2Error::MissingPatternFact),
        };
        let recorded = self.group_contents_store.get(&reference_index);
        let contents_group = match recorded {
            Some(c) => &c.group,
            None => group,
        };
        proof {
            assert(*contents_group == replayed_group(store, *node_extra, reference_index));
        }
        let group_lookahead = match node_extra.node_to_lookahead_stack.get(&contents_group.id) {
            Some(v) => v,
            None => return Err(Level2Error::MissingPatternFact),
        };
        let reference_lookahead = match node_extra.node_to_lookahead_stack.get(&reference.id) {
            Some(v) => v,
            None => return Err(Level2Error::MissingPatternFact),
        };
        let group_ids = ids_of(group_lookahead);
        let reference_ids = ids_of(reference_lookahead);
        let (extra_ids, _) = drop_common(group_ids.as_slice(), reference_ids.as_slice());
        proof {
            let k = group_ids@.len() - extra_ids@.len();
            lemma_common_prefix_len_unique(group_ids@, reference_ids@, k);
            assert(extra_ids@ == extra_lookaround_ids(store, *node_extra, reference_index, *reference));
            assert(node_extra.node_to_lookahead_stack@.contains_key(contents_group.id));
            assert(group_lookahead@ == node_extra.node_to_lookahead_stack@[contents_group.id]@);
        }
        if extra_ids.len() > 0 {
            let mut i: usize = 0;
            while i < group_lookahead.len()
                invariant
                    i <= group_lookahead@.len(),
                    store == self.group_contents_store@,
                    reference_facts_known(store, *node_extra, reference_index, *reference),
                    extra_ids@.len() > 0,
                    *contents_group == replayed_group(store, *node_extra, reference_index),
                    node_extra.node_to_lookahead_stack@.contains_key(contents_group.id),
                    group_lookahead@ == node_extra.node_to_lookahead_stack@[contents_group.id]@,
                    extra_ids@ == extra_lookaround_ids(store, *node_extra, reference_index, *reference),
                    forall|j: int|
                        0 <= j < i ==> !(extra_ids@.contains((#[trigger] group_lookahead@[j]).id) && (
                        group_lookahead@[j].kind matches NodeKind::Group { behavior, body }
                            && behavior.spec_is_negative())),
                decreases group_lookahead.len() - i,
            {
                let g = &group_lookahead[i];
                if slice_contains(extra_ids, g.id) {
                    if let NodeKind::Group { behavior, .. } = &g.kind {
                        if behavior.is_negative() {
                            proof {
                                assert(group_lookahead@ == node_extra.node_to_lookahead_stack@[contents_group.id]@);
                                assert(group_lookahead@[i as int] == *g);
                                assert(extra_lookaround_ids(store, *node_extra, reference_index, *reference).contains(
                                    group_lookahead@[i as int].id,
                                ));
                            }
                            return Ok(Vec::new());
                        }
                    }
                }
                i += 1;
            }
            return Err(Level2Error::ReferenceIntoLookaround { reference_index, position: reference.range.0 });
        }
        let mut i: usize = 0;
        while i < groups.len()
            invariant
                i <= groups@.len(),
                store == self.group_contents_store@,
                reference_facts_known(store, *node_extra, reference_index, *reference),
                extra_lookaround_ids(store, *node_extra, reference_index, *reference).len() == 0,
                *contents_group == replayed_group(store, *node_extra, reference_index),
                forall|j: int| 0 <= j < i ==> (#[trigger] groups@[j]).id != contents_group.id,
            decreases groups.len() - i,
        {
            if groups[i].id == contents_group.id {
                proof {
                    assert(groups@[i as int].id == replayed_group(store, *node_extra, reference_index).id);
                }
                return Ok(Vec::new());
            }
            i += 1;
        }
        if contains_u64(&self.groups_with_infinite_size, reference_index) {
            return Err(Level2Error::ReferenceToInfiniteGroup { reference_index });
        }
        let mut values: Vec<ReplayedEntry<G>> = Vec::new();
        match recorded {
            Some(c) => {
                let mut k: usize = 0;
                while k < c.contents.len()
                    invariant
                        k <= c.contents@.len(),
                        values@.len() == k,
                        forall|i: int|
                            0 <= i < k ==> {
                                &&& (#[trigger] values@[i]).character_groups == c.contents@[i].character_groups
                                &&& values@[i].node == c.contents@[i].node
                                &&& values@[i].stack@ == c.contents@[i].stack@ + seq![StackEntry::Reference { reference: *reference }]
                                    + reference_stack@
                                &&& zw_models(values@[i].preceding_zero_width_entries@) == zw_models(
                                    c.contents@[i].preceding_zero_width_entries@,
                                )
                            },
                    decreases c.contents.len() - k,
                {
                    values.push(replay_entry(&c.contents[k], reference, reference_stack));
                    k += 1;
                }
            },
            None => {},
        }
        Ok(values)
    }
}


/// A consumed character as level 2 passes it on.
pub struct Level2Entry<G> {
    /// The character set.
    pub character_groups: Rc<G>,
    /// The capturing and other groups the character is inside.
    pub groups: Vec<RcNode>,
    /// The lookaround groups the character is inside, in stack order.
    pub lookahead_stack: Vec<RcNode>,
    /// The node that consumed the character.
    pub node: RcNode,
    /// The markers met since the previous entry.
    pub preceding_zero_width_entries: Vec<ZeroWidthEntry>,
    /// The full stack, reference frames included.
    pub stack: Vec<StackEntry>,
}

/// What a level-2 reader returns at the end.
pub enum Level2Return {
    /// The pattern ended; `bounded` is `true` for a hard `$`.
    End { bounded: bool, preceding_zero_width_entries: Vec<ZeroWidthEntry> },
    /// A reference was met after a quantifier completed a whole iteration
    /// since the last character, so the path only repeats itself.
    Abort,
}

/// What level 2 does with a reference.
pub enum ReferenceOutcome<G> {
    /// End the reader.
    Abort,
    /// Read these characters before going on.
    Replay(Vec<ReplayedEntry<G>>),
}

fn copy_u64s(v: &Vec<u64>) -> (res: Vec<u64>)
    ensures
        res@ == v@,
{
    let mut out: Vec<u64> = Vec::new();
    let mut i: usize = 0;
    while i < v.len()
        invariant
            i <= v@.len(),
            out@ == v@.take(i as int),
        decreases v.len() - i,
    {
        out.push(v[i]);
        proof {
            assert(v@.take(i + 1) =~= v@.take(i as int).push(v@[i as int]));
        }
        i += 1;
    }
    proof {
        assert(v@.take(i as int) =~= v@);
    }
    out
}

impl<G> Level2State<G> {
    /// A copy of the state for the branch of a split.
    pub fn fork(&self) -> (res: Self)
        ensures
            res.group_contents_store@ == self.group_contents_store@,
            res.groups_with_infinite_size@ == self.groups_with_infinite_size@,
            same_entries(res.preceding_zero_width_entries@, self.preceding_zero_width_entries@),
            res.quantifier_iterations_at_last_group@ == self.quantifier_iterations_at_last_group@,
    {
        Level2State {
            group_contents_store: self.group_contents_store.clone(),
            groups_with_infinite_size: copy_u64s(&self.groups_with_infinite_size),
            preceding_zero_width_entries: copy_zero_width_entries(&self.preceding_zero_width_entries),
            quantifier_iterations_at_last_group: self.quantifier_iterations_at_last_group.clone(),
        }
    }

    /// A consumed character with `stack`, met after the markers `preceding`.
    /// The markers join those kept so far, the character is recorded under
    /// its groups (see `record_groups_entry`), its quantifier iterations are
    /// remembered, and it is passed on with all the markers kept, which are
    /// then cleared. Fails, changing only the kept markers, when one of its
    /// capturing groups has no index.
    pub fn on_groups(
        &mut self,
        node_extra: &NodeExtra,
        character_groups: Rc<G>,
        node: RcNode,
        stack: Vec<StackEntry>,
        preceding: Vec<ZeroWidthEntry>,
        inside_reference: bool,
    ) -> (res: Result<Level2Entry<G>, Level2Error>)
        ensures
            ({
                let pre = old(self).preceding_zero_width_entries@ + preceding@;
                match res {
                    Err(e) => {
                        &&& e == Level2Error::MissingPatternFact
                        &&& !frames_indexed(own_frames(stack@), node_extra.capturing_group_to_index@)
                    },
                    Ok(entry) => {
                        let base = if inside_reference {
                            old(self).group_contents_store@
                        } else {
                            cleared(old(self).group_contents_store@, pre, node.range.0 as int)
                        };
                        let r = record_frames(
                            own_frames(stack@),
                            (false, store_model(base), old(self).groups_with_infinite_size@),
                            node_extra.capturing_group_to_index@,
                            character_groups,
                            node,
                            pre,
                            stack@,
                        );
                        &&& frames_indexed(own_frames(stack@), node_extra.capturing_group_to_index@)
                        &&& store_model(final(self).group_contents_store@) == r.1
                        &&& final(self).groups_with_infinite_size@ == r.2
                        &&& final(self).quantifier_iterations_at_last_group@ == quantifier_iterations(stack@)
                        &&& final(self).preceding_zero_width_entries@.len() == 0
                        &&& entry.character_groups == character_groups
                        &&& entry.node == node
                        &&& entry.stack@ == stack@
                        &&& entry.groups@ == groups_of(stack@)
                        &&& entry.lookahead_stack@ == lookarounds_of(stack@)
                        &&& entry.preceding_zero_width_entries@ == pre
                    },
                }
            }),
    {
        let mut preceding = preceding;
        self.preceding_zero_width_entries.append(&mut preceding);
        let quantifier_iterations = build_quantifier_iterations(stack.as_slice());
        let lookahead_stack = get_lookahead_stack(&stack);
        let groups = get_groups(&stack);
        match self.record_groups_entry(node_extra, &character_groups, &node, &stack, inside_reference) {
            Err(e) => return Err(e),
            Ok(()) => {},
        }
        self.quantifier_iterations_at_last_group = quantifier_iterations;
        let preceding = take_entries(&mut self.preceding_zero_width_entries);
        Ok(Level2Entry { character_groups, groups, lookahead_stack, node, preceding_zero_width_entries: preceding, stack })
    }

    /// A reference to group `reference_index` at `reference`, met with
    /// `stack` after the markers `preceding`. The markers join those kept so
    /// far. When a quantifier advanced by more than one iteration since the
    /// last consumed character, the reader ends; otherwise the reference
    /// stands for the characters of `replay_reference`, and fails when that
    /// does.
    pub fn on_reference(
        &mut self,
        node_extra: &NodeExtra,
        reference: &RcNode,
        reference_index: u64,
        stack: &Vec<StackEntry>,
        preceding: Vec<ZeroWidthEntry>,
    ) -> (res: Result<ReferenceOutcome<G>, Level2Error>)
        ensures
            final(self).preceding_zero_width_entries@ == old(self).preceding_zero_width_entries@ + preceding@,
            final(self).group_contents_store@ == old(self).group_contents_store@,
            final(self).groups_with_infinite_size@ == old(self).groups_with_infinite_size@,
            final(self).quantifier_iterations_at_last_group@ == old(self).quantifier_iterations_at_last_group@,
            (exists|q: usize| #[trigger] quantifier_iterations(stack@).contains_key(q) && advance(
                old(self).quantifier_iterations_at_last_group@,
                q,
                quantifier_iterations(stack@)[q],
            ) > 1) ==> res matches Ok(ReferenceOutcome::Abort),
            !(exists|q: usize| #[trigger] quantifier_iterations(stack@).contains_key(q) && advance(
                old(self).quantifier_iterations_at_last_group@,
                q,
                quantifier_iterations(stack@)[q],
            ) > 1) ==> match res {
                Ok(ReferenceOutcome::Abort) => false,
                Ok(ReferenceOutcome::Replay(v)) => replay_outcome(
                    old(self).group_contents_store@,
                    old(self).groups_with_infinite_size@,
                    *node_extra,
                    reference_index,
                    *reference,
                    stack@,
                    groups_of(stack@),
                    Ok(v),
                ),
                Err(e) => replay_outcome(
                    old(self).group_contents_store@,
                    old(self).groups_with_infinite_size@,
                    *node_extra,
                    reference_index,
                    *reference,
                    stack@,
                    groups_of(stack@),
                    Err(e),
                ),
            },
    {
        let mut preceding = preceding;
        self.preceding_zero_width_entries.append(&mut preceding);
        let quantifier_iterations = build_quantifier_iterations(stack.as_slice());
        if have_had_complete_iteration(&self.quantifier_iterations_at_last_group, &quantifier_iterations) {
            return Ok(ReferenceOutcome::Abort);
        }
        let groups = get_groups(stack);
        match self.replay_reference(node_extra, reference_index, reference, stack, &groups) {
            Ok(values) => Ok(ReferenceOutcome::Replay(values)),
            Err(e) => Err(e),
        }
    }

    /// The reader that level 2 reads from ended with `ret`. The end of a
    /// replayed reference only hands over its markers; the end of the
    /// pattern ends level 2 with all the markers kept.
    pub fn on_done(&mut self, ret: Level1Return, inside_reference: bool) -> (res: Option<Level2Return>)
        requires
            inside_reference ==> !ret.bounded,
        ensures
            inside_reference ==> res is None && final(self).preceding_zero_width_entries@
                == old(self).preceding_zero_width_entries@ + ret.preceding_zero_width_entries@,
            !inside_reference ==> (res matches Some(Level2Return::End { bounded, preceding_zero_width_entries })
                && bounded == ret.bounded && preceding_zero_width_entries@ == old(self).preceding_zero_width_entries@
                + ret.preceding_zero_width_entries@),
            final(self).group_contents_store@ == old(self).group_contents_store@,
            final(self).groups_with_infinite_size@ == old(self).groups_with_infinite_size@,
            final(self).quantifier_iterations_at_last_group@ == old(self).quantifier_iterations_at_last_group@,
    {
        let mut markers = ret.preceding_zero_width_entries;
        self.preceding_zero_width_entries.append(&mut markers);
        if inside_reference {
            None
        } else {
            let preceding = take_entries(&mut self.preceding_zero_width_entries);
            Some(Level2Return::End { bounded: ret.bounded, preceding_zero_width_entries: preceding })
        }
    }
}

} // verus!
