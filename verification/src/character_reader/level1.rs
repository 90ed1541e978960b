//! Level 1: fold zero-width markers and turn the end into a return value.
//!
//! Level 1 keeps the null and start markers it meets and attaches them to the
//! next consumed character or reference. The pattern end stops the reader and
//! becomes its return value, with the markers met before it.
use crate::ast::RcNode;
use crate::character_reader::level0::{copy_stack, CharacterReaderValue, SplitSubType, StackEntry};
use crate::reader::Step;
use vstd::prelude::*;

verus! {

/// The kind of a zero-width marker.
#[derive(Clone, Copy, Debug, PartialEq, Eq, Structural)]
pub enum ZeroWidthKind {
    /// A null marker.
    Null,
    /// A `^` start marker.
    Start,
}

/// A zero-width marker with where it was met.
#[derive(Clone, Debug)]
pub struct ZeroWidthEntry {
    /// The source offset.
    pub offset: usize,
    /// The stack at the marker.
    pub stack: Vec<StackEntry>,
    /// Whether this is a null or start marker.
    pub kind: ZeroWidthKind,
}


/// Returns an entry equal to `entry`.
pub fn copy_zero_width_entry(entry: &ZeroWidthEntry) -> (res: ZeroWidthEntry)
    ensures
        res.offset == entry.offset,
        res.stack@ == entry.stack@,
        res.kind == entry.kind,
{
    ZeroWidthEntry { offset: entry.offset, stack: copy_stack(&entry.stack), kind: entry.kind }
}

/// Moves the entries out of `entries`, leaving it empty.
pub fn take_entries(entries: &mut Vec<ZeroWidthEntry>) -> (res: Vec<ZeroWidthEntry>)
    ensures
        res@ == old(entries)@,
        final(entries)@.len() == 0,
{
    let mut out: Vec<ZeroWidthEntry> = Vec::new();
    std::mem::swap(entries, &mut out);
    out
}

/// Two lists of zero-width entries hold the same markers.
pub open spec fn same_entries(a: Seq<ZeroWidthEntry>, b: Seq<ZeroWidthEntry>) -> bool {
    &&& a.len() == b.len()
    &&& forall|i: int|
        0 <= i < a.len() ==> {
            &&& (#[trigger] a[i]).offset == b[i].offset
            &&& a[i].stack@ == b[i].stack@
            &&& a[i].kind == b[i].kind
        }
}

/// Returns a list that holds the same markers as `entries`.
pub fn copy_zero_width_entries(entries: &Vec<ZeroWidthEntry>) -> (res: Vec<ZeroWidthEntry>)
    ensures
        same_entries(res@, entries@),
{
    let mut out: Vec<ZeroWidthEntry> = Vec::new();
    let mut i: usize = 0;
    while i < entries.len()
        invariant
            i <= entries@.len(),
            same_entries(out@, entries@.take(i as int)),
        decreases entries.len() - i,
    {
        out.push(copy_zero_width_entry(&entries[i]));
        i += 1;
    }
    proof {
        assert(entries@.take(i as int) =~= entries@);
    }
    out
}

/// The branch of a level-1 split: the level-0 branch reader and the markers
/// met before the split, which the branch starts with.
pub struct Level1Branch<F> {
    /// Builds the level-0 reader of the branch.
    pub reader: F,
    /// The markers met before the split.
    pub preceding_zero_width_entries: Vec<ZeroWidthEntry>,
}

/// A value produced by a level-1 reader.
pub enum Level1Value<G, F> {
    /// A branch point.
    Split { reader: F, sub_type: SplitSubType },
    /// A consumed character with the markers met since the previous one.
    Groups {
        character_groups: G,
        node: RcNode,
        stack: Vec<StackEntry>,
        preceding_zero_width_entries: Vec<ZeroWidthEntry>,
    },
    /// A backreference with the markers met since the previous entry.
    Reference {
        node: RcNode,
        reference_index: u64,
        stack: Vec<StackEntry>,
        preceding_zero_width_entries: Vec<ZeroWidthEntry>,
    },
}

/// What a level-1 reader returns at the end.
#[derive(Clone, Debug)]
pub struct Level1Return {
    /// Whether the end was a hard `$`.
    pub bounded: bool,
    /// The markers met since the last entry.
    pub preceding_zero_width_entries: Vec<ZeroWidthEntry>,
}

/// What level 1 does with one step of its level-0 reader.
pub enum Level1Step<G, F> {
    /// Pass this value on.
    Emit(Level1Value<G, F>),
    /// End with this return value.
    Finish(Level1Return),
    /// The step was a marker that is kept for the next entry; read on.
    Absorbed,
}

/// Folds one step of a level-0 reader: markers are kept in `preceding`; a
/// character or reference is passed on with the markers kept so far, which are
/// then cleared; the end of the reader, or the end of the pattern, finishes
/// with the markers kept so far; a split is passed on with a copy of them, for
/// the branch to start with.
pub fn level1_step<G, F>(preceding: &mut Vec<ZeroWidthEntry>, step: Step<CharacterReaderValue<G, F>, ()>) -> (res:
    Level1Step<G, Level1Branch<F>>)
    ensures
        match step {
            Step::Done(_) => {
                &&& res matches Level1Step::Finish(r)
                &&& !r.bounded
                &&& r.preceding_zero_width_entries@ == old(preceding)@
                &&& final(preceding)@.len() == 0
            },
            Step::Value(value) => match value {
                CharacterReaderValue::Split { reader, sub_type } => {
                    &&& res matches Level1Step::Emit(Level1Value::Split { reader: b, sub_type: t })
                    &&& b.reader == reader
                    &&& same_entries(b.preceding_zero_width_entries@, old(preceding)@)
                    &&& t == sub_type
                    &&& final(preceding)@ == old(preceding)@
                },
                CharacterReaderValue::Groups { character_groups, node, stack } => {
                    &&& res matches Level1Step::Emit(
                        Level1Value::Groups { character_groups: g, node: n, stack: s, preceding_zero_width_entries: p },
                    )
                    &&& g == character_groups && n == node && s == stack
                    &&& p@ == old(preceding)@
                    &&& final(preceding)@.len() == 0
                },
                CharacterReaderValue::Reference { node, reference_index, stack } => {
                    &&& res matches Level1Step::Emit(
                        Level1Value::Reference { node: n, reference_index: r, stack: s, preceding_zero_width_entries: p },
                    )
                    &&& n == node && r == reference_index && s == stack
                    &&& p@ == old(preceding)@
                    &&& final(preceding)@.len() == 0
                },
                CharacterReaderValue::End { bounded, offset, stack } => {
                    &&& res matches Level1Step::Finish(r)
                    &&& r.bounded == bounded
                    &&& r.preceding_zero_width_entries@ == old(preceding)@
                    &&& final(preceding)@.len() == 0
                },
                CharacterReaderValue::Null { offset, stack } => {
                    &&& res is Absorbed
                    &&& final(preceding)@.len() == old(preceding)@.len() + 1
                    &&& final(preceding)@.drop_last() == old(preceding)@
                    &&& final(preceding)@.last().offset == offset
                    &&& final(preceding)@.last().stack == stack
                    &&& final(preceding)@.last().kind == ZeroWidthKind::Null
                },
                CharacterReaderValue::Start { offset, stack } => {
                    &&& res is Absorbed
                    &&& final(preceding)@.len() == old(preceding)@.len() + 1
                    &&& final(preceding)@.drop_last() == old(preceding)@
                    &&& final(preceding)@.last().offset == offset
                    &&& final(preceding)@.last().stack == stack
                    &&& final(preceding)@.last().kind == ZeroWidthKind::Start
                },
            },
        },
{
    match step {
        Step::Done(_) => {
            let taken = take_entries(preceding);
            Level1Step::Finish(Level1Return { bounded: false, preceding_zero_width_entries: taken })
        },
        Step::Value(value) => match value {
            CharacterReaderValue::Groups { character_groups, node, stack } => {
                let taken = take_entries(preceding);
                Level1Step::Emit(
                    Level1Value::Groups { character_groups, node, stack, preceding_zero_width_entries: taken },
                )
            },
            CharacterReaderValue::Reference { node, reference_index, stack } => {
                let taken = take_entries(preceding);
                Level1Step::Emit(
                    Level1Value::Reference { node, reference_index, stack, preceding_zero_width_entries: taken },
                )
            },
            CharacterReaderValue::End { bounded, offset: _, stack: _ } => {
                let taken = take_entries(preceding);
                Level1Step::Finish(Level1Return { bounded, preceding_zero_width_entries: taken })
            },
            CharacterReaderValue::Null { offset, stack } => {
                preceding.push(ZeroWidthEntry { offset, stack, kind: ZeroWidthKind::Null });
                proof {
                    assert(preceding@.drop_last() =~= old(preceding)@);
                }
                Level1Step::Absorbed
            },
            CharacterReaderValue::Start { offset, stack } => {
                preceding.push(ZeroWidthEntry { offset, stack, kind: ZeroWidthKind::Start });
                proof {
                    assert(preceding@.drop_last() =~= old(preceding)@);
                }
                Level1Step::Absorbed
            },
            CharacterReaderValue::Split { reader, sub_type } => {
                let copy = copy_zero_width_entries(preceding);
                Level1Step::Emit(
                    Level1Value::Split {
                        reader: Level1Branch { reader, preceding_zero_width_entries: copy },
                        sub_type,
                    },
                )
            },
        },
    }
}

} // verus!
