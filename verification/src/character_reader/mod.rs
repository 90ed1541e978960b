//! The three-level character reader stack: what each level decides.
//!
//! Level 0 walks the syntax tree and yields one entry per consumed
//! character, plus split markers at branch points and zero-width markers for
//! anchors and empty iterations. Level 1 folds the zero-width markers onto the
//! next real entry and turns the pattern end into the reader's return value.
//! Level 2 records group contents and expands backreferences into the
//! characters their group matched. A join runs readers back to back.
pub mod join;
pub mod level0;
pub mod level1;
pub mod level2;
