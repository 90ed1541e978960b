//! Regex syntax tree shared by the parser and the rewriting passes.
//!
//! Offsets in [`Node::range`] are UTF-16 code unit indices into the source
//! pattern. Each node carries an [`Node::id`] that is unique within one parse,
//! so passes can use node identity as a key.
use std::rc::Rc;
use vstd::prelude::*;

verus! {

/// The behavior of a `(...)` group.
#[derive(Clone, Copy, Debug, PartialEq, Eq, Structural)]
pub enum GroupBehavior {
    /// A capturing group `( )`.
    Normal,
    /// A non-capturing group `(?: )`.
    Ignore,
    /// A positive lookahead `(?= )`.
    Lookahead,
    /// A negative lookahead `(?! )`.
    NegativeLookahead,
    /// A positive lookbehind `(?<= )`.
    Lookbehind,
    /// A negative lookbehind `(?<! )`.
    NegativeLookbehind,
}

impl GroupBehavior {
    /// The four lookaround behaviors.
    pub open spec fn spec_is_lookaround(self) -> bool {
        !(self is Normal || self is Ignore)
    }

    /// Negative lookahead and negative lookbehind.
    pub open spec fn spec_is_negative(self) -> bool {
        self is NegativeLookahead || self is NegativeLookbehind
    }

    /// Returns `true` for the four lookaround behaviors.
    pub fn is_lookaround(self) -> (res: bool)
        ensures
            res == self.spec_is_lookaround(),
    {
        !matches!(self, GroupBehavior::Normal | GroupBehavior::Ignore)
    }

    /// Returns `true` for negative lookahead and negative lookbehind.
    pub fn is_negative(self) -> (res: bool)
        ensures
            res == self.spec_is_negative(),
    {
        matches!(self, GroupBehavior::NegativeLookahead | GroupBehavior::NegativeLookbehind)
    }
}

/// The kind of anchor an anchor node represents.
#[derive(Clone, Copy, Debug, PartialEq, Eq, Structural)]
pub enum AnchorKind {
    /// `^`
    Start,
    /// `$`
    End,
    /// `\b`
    Boundary,
    /// `\B`
    NotBoundary,
}

/// A character-class escape `\d \D \w \W \s \S`.
#[derive(Clone, Copy, Debug, PartialEq, Eq, Structural)]
pub enum ClassEscape {
    /// `\d`
    D,
    /// `\D`
    DUpper,
    /// `\w`
    W,
    /// `\W`
    WUpper,
    /// `\s`
    S,
    /// `\S`
    SUpper,
}

/// One node of the parsed pattern.
#[derive(Debug)]
pub struct Node {
    /// Identity assigned at parse time.
    pub id: usize,
    /// `[start, end)` in UTF-16 code units.
    pub range: (usize, usize),
    /// The exact source text the node spans.
    pub raw: String,
    /// The node payload.
    pub kind: NodeKind,
}

/// A reference-counted syntax tree node.
pub type RcNode = Rc<Node>;

/// The payload of a syntax tree node.
#[derive(Debug)]
#[allow(inconsistent_fields)]
pub enum NodeKind {
    /// A sequence of terms (concatenation).
    Alternative { body: Vec<RcNode> },
    /// A choice of branches `a|b|c`.
    Disjunction { body: Vec<RcNode> },
    /// A `(...)` group of any behavior.
    Group { behavior: GroupBehavior, body: Vec<RcNode> },
    /// A quantified term. `max` is `None` for unbounded.
    Quantifier { min: u64, max: Option<u64>, greedy: bool, symbol: Option<char>, body: RcNode },
    /// A single literal code point.
    Value { code_point: u32 },
    /// A `[...]` character class.
    CharacterClass { negative: bool, body: Vec<RcNode> },
    /// A `min-max` range inside a character class.
    CharacterClassRange { min: RcNode, max: RcNode },
    /// A `\d \D \w \W \s \S` escape.
    CharacterClassEscape { value: ClassEscape },
    /// A `\p{...}` or `\P{...}` escape.
    UnicodePropertyEscape { negative: bool, value: String },
    /// The `.` metacharacter.
    Dot,
    /// `^ $ \b \B`.
    Anchor { kind: AnchorKind },
    /// A numbered backreference `\1`.
    Reference { match_index: u64 },
}

impl Node {
    /// The code point of a `Value` node.
    pub open spec fn spec_code_point(&self) -> Option<u32> {
        match self.kind {
            NodeKind::Value { code_point } => Some(code_point),
            _ => None,
        }
    }

    /// Returns the code point when this node is a value, else `None`.
    pub fn code_point(&self) -> (res: Option<u32>)
        ensures
            res == self.spec_code_point(),
    {
        match &self.kind {
            NodeKind::Value { code_point } => Some(*code_point),
            _ => None,
        }
    }
}

} // verus!
