//! Static ReDoS analysis for ECMA-262 regular expressions.
//!
//! The library parses an ECMA-262 pattern into a syntax tree with UTF-16
//! offsets, rewrites patterns the analysis cannot handle into ones it can, and
//! renders analysis reports as text.
pub mod arrays;
pub mod ast;
pub mod text;
pub mod parse;
pub mod downgrade;
pub mod to_friendly;
pub mod code_point;
pub mod map;
pub mod once;
pub mod sets;
pub mod reader;
pub mod tree;
pub mod character_reader;
pub mod checker;
pub mod character_groups;
pub mod our_range;
pub mod node_extra;
pub mod quantifier;
pub mod result_cache;
pub mod infinite_loop_tracker;
pub mod search;

pub use downgrade::{downgrade_pattern, is_missing_start_anchor, DowngradedRegexPattern};
pub use to_friendly::{
    to_friendly, AnalysisLimit, BackReference, Node, NodeLocation, QuantifierIteration, Report,
    Score, ToFriendlyConfig, Trail, TrailEntry, TrailEntrySide,
};
