//! Renders an analysis report as human-readable text.
//!
//! Do not parse this output. It may change between versions. Column widths are
//! measured in UTF-16 code units to match the engine the analysis targets, and
//! breadcrumbs are joined with the arrow `→`.
use crate::text::{decimal_text, push_char, push_decimal, push_str, utf16_len, utf16_length};
use vstd::prelude::*;

verus! {

/// The most rows a trail block prints.
pub const TRUNCATE_LENGTH: usize = 100;

/// Default number of trails to print.
pub const DEFAULT_RESULTS_LIMIT: i64 = 15;

/// A limit the analysis hit before it finished.
#[derive(Clone, Copy, Debug, PartialEq, Eq, Structural)]
pub enum AnalysisLimit {
    /// The score reached the configured maximum.
    HitMaxScore,
    /// The analysis used up its step budget.
    HitMaxSteps,
    /// The analysis ran out of time.
    TimedOut,
}

/// How many ways the same input can be matched.
#[derive(Clone, Copy, Debug, PartialEq, Eq, Structural)]
pub enum Score {
    /// At most this many ways.
    Finite(u64),
    /// Unboundedly many ways.
    Infinite,
}

/// A UTF-16 offset into the pattern.
#[derive(Clone, Copy, Debug, PartialEq, Eq, Structural)]
pub struct NodeLocation {
    /// The offset in UTF-16 code units.
    pub offset: usize,
}

/// A pattern node as a report shows it.
#[derive(Clone, Debug)]
pub struct Node {
    /// Where the node starts.
    pub start: NodeLocation,
    /// Where the node ends.
    pub end: NodeLocation,
    /// The node's source text.
    pub source: String,
}

/// A backreference that was followed to reach a node.
#[derive(Clone, Debug)]
pub struct BackReference {
    /// The group index the reference points at.
    pub index: u64,
    /// The reference node.
    pub node: Node,
}

/// A quantifier and the iteration it was in.
#[derive(Clone, Debug)]
pub struct QuantifierIteration {
    /// The iteration, counted from 0.
    pub iteration: u64,
    /// The quantifier node.
    pub node: Node,
}

/// One side of a trail entry.
#[derive(Clone, Debug)]
pub struct TrailEntrySide {
    /// The backreferences followed to reach the node, outermost first.
    pub backreference_stack: Vec<BackReference>,
    /// The node that matched.
    pub node: Node,
    /// The quantifiers around the node and their iterations.
    pub quantifier_iterations: Vec<QuantifierIteration>,
}

/// Two ways of matching the same input position.
#[derive(Clone, Debug)]
pub struct TrailEntry {
    /// The first way.
    pub a: TrailEntrySide,
    /// The second way.
    pub b: TrailEntrySide,
}

/// A sequence of positions matched two ways.
#[derive(Clone, Debug)]
pub struct Trail {
    /// The entries, one per matched position.
    pub entries: Vec<TrailEntry>,
}

/// The outcome of checking a pattern.
#[derive(Clone, Debug)]
pub struct Report {
    /// The limit the analysis hit, if any.
    pub error: Option<AnalysisLimit>,
    /// The pattern that was checked, after any downgrade.
    pub pattern: String,
    /// Whether the pattern was downgraded before checking.
    pub pattern_downgraded: bool,
    /// The score.
    pub score: Score,
    /// Trails that show the ambiguity.
    pub trails: Vec<Trail>,
}

impl Report {
    /// A report is safe when the analysis hit no limit.
    pub open spec fn spec_is_safe(&self) -> bool {
        self.error is None
    }

    /// Returns `true` when the analysis hit no limit.
    pub fn is_safe(&self) -> (res: bool)
        ensures
            res == self.spec_is_safe(),
    {
        self.error.is_none()
    }
}

/// Options for [`to_friendly`].
#[derive(Clone, Debug)]
pub struct ToFriendlyConfig {
    /// The maximum number of trails to print; a negative limit prints none.
    /// `None` prints every trail.
    pub results_limit: Option<i64>,
    /// Always include trails even when the pattern is safe.
    pub always_include_trails: bool,
}

impl ToFriendlyConfig {
    /// The default options: at most [`DEFAULT_RESULTS_LIMIT`] trails, and
    /// none for a safe pattern.
    pub fn new() -> (res: Self)
        ensures
            res.results_limit == Some(DEFAULT_RESULTS_LIMIT),
            !res.always_include_trails,
    {
        ToFriendlyConfig { results_limit: Some(DEFAULT_RESULTS_LIMIT), always_include_trails: false }
    }
}

impl Default for ToFriendlyConfig {
    fn default() -> (res: Self)
        ensures
            res.results_limit == Some(DEFAULT_RESULTS_LIMIT),
            !res.always_include_trails,
    {
        ToFriendlyConfig::new()
    }
}

// ---------------------------------------------------------------------------
// Text pieces
// ---------------------------------------------------------------------------

/// The parts joined with `sep` between them.
pub open spec fn join_text(parts: Seq<Seq<char>>, sep: Seq<char>) -> Seq<char>
    decreases parts.len(),
{
    if parts.len() == 0 {
        Seq::<char>::empty()
    } else if parts.len() == 1 {
        parts[0]
    } else {
        join_text(parts.drop_last(), sep) + sep + parts.last()
    }
}

/// The texts of a list of strings.
pub open spec fn texts(v: Seq<String>) -> Seq<Seq<char>> {
    v.map_values(|s: String| s@)
}

/// Joins `parts` with `sep`.
pub fn join(parts: &Vec<String>, sep: &str) -> (res: String)
    ensures
        res@ == join_text(texts(parts@), sep@),
{
    let mut out = String::new();
    let mut i: usize = 0;
    while i < parts.len()
        invariant
            i <= parts@.len(),
            out@ == join_text(texts(parts@.take(i as int)), sep@),
        decreases parts.len() - i,
    {
        if i > 0 {
            push_str(&mut out, sep);
        }
        push_str(&mut out, parts[i].as_str());
        proof {
            let t = texts(parts@.take(i + 1));
            assert(texts(parts@.take(i + 1)).drop_last() =~= texts(parts@.take(i as int)));
            assert(t.last() == parts@[i as int]@);
            if i == 0 {
                assert(out@ =~= parts@[0]@);
                assert(t.len() == 1);
            }
        }
        i += 1;
    }
    proof {
        assert(parts@.take(i as int) =~= parts@);
    }
    out
}

/// `n` copies of `c`.
pub open spec fn repeat_char(c: char, n: nat) -> Seq<char> {
    Seq::new(n, |i: int| c)
}

fn push_repeated(s: &mut String, c: char, n: usize)
    ensures
        final(s)@ == old(s)@ + repeat_char(c, n as nat),
{
    let mut i: usize = 0;
    while i < n
        invariant
            i <= n,
            s@ == old(s)@ + repeat_char(c, i as nat),
        decreases n - i,
    {
        push_char(s, c);
        i += 1;
        proof {
            assert(s@ =~= old(s)@ + repeat_char(c, i as nat));
        }
    }
}

/// `s` padded on the left with spaces to `width` UTF-16 units.
pub open spec fn pad_start_text(s: Seq<char>, width: nat) -> Seq<char> {
    if utf16_length(s) >= width {
        s
    } else {
        repeat_char(' ', (width - utf16_length(s)) as nat) + s
    }
}

/// `s` padded on the right with spaces to `width` UTF-16 units.
pub open spec fn pad_end_text(s: Seq<char>, width: nat) -> Seq<char> {
    if utf16_length(s) >= width {
        s
    } else {
        s + repeat_char(' ', (width - utf16_length(s)) as nat)
    }
}

/// Pads `s` on the left with spaces to `width` UTF-16 units.
pub fn pad_start(s: &str, width: usize) -> (res: String)
    ensures
        res@ == pad_start_text(s@, width as nat),
{
    let len = utf16_len(s);
    let mut out = String::new();
    if len >= width {
        push_str(&mut out, s);
        proof {
            assert(out@ =~= s@);
        }
    } else {
        push_repeated(&mut out, ' ', width - len);
        push_str(&mut out, s);
        proof {
            assert(out@ =~= repeat_char(' ', (width - len) as nat) + s@);
        }
    }
    out
}

/// Pads `s` on the right with spaces to `width` UTF-16 units.
pub fn pad_end(s: &str, width: usize) -> (res: String)
    ensures
        res@ == pad_end_text(s@, width as nat),
{
    let len = utf16_len(s);
    let mut out = String::new();
    push_str(&mut out, s);
    if len < width {
        push_repeated(&mut out, ' ', width - len);
    }
    proof {
        assert(Seq::<char>::empty() + s@ =~= s@);
    }
    out
}

/// The score as text.
pub open spec fn score_text(score: Score) -> Seq<char> {
    match score {
        Score::Infinite => "There could be infinite backtracks."@,
        Score::Finite(value) => "Score: "@ + decimal_text(value as nat),
    }
}

/// Renders a score.
pub fn score_string(score: Score) -> (res: String)
    ensures
        res@ == score_text(score),
{
    let mut out = String::new();
    match score {
        Score::Infinite => {
            push_str(&mut out, "There could be infinite backtracks.");
        },
        Score::Finite(value) => {
            push_str(&mut out, "Score: ");
            push_decimal(&mut out, value);
        },
    }
    proof {
        assert(Seq::<char>::empty() + "There could be infinite backtracks."@ =~= "There could be infinite backtracks."@);
        assert(Seq::<char>::empty() + "Score: "@ =~= "Score: "@);
    }
    out
}

/// The note printed for a limit that was hit.
pub open spec fn error_text(error: AnalysisLimit) -> Seq<char> {
    match error {
        AnalysisLimit::HitMaxScore => "Hit the max score so there may be more results than shown here."@,
        AnalysisLimit::HitMaxSteps => "Hit maximum number of steps so there may be more results than shown here."@,
        AnalysisLimit::TimedOut => "Timed out so there may be more results than shown here."@,
    }
}

/// Returns the note printed for a limit that was hit.
pub fn error_message(error: AnalysisLimit) -> (res: &'static str)
    ensures
        res@ == error_text(error),
{
    match error {
        AnalysisLimit::HitMaxScore => "Hit the max score so there may be more results than shown here.",
        AnalysisLimit::HitMaxSteps => "Hit maximum number of steps so there may be more results than shown here.",
        AnalysisLimit::TimedOut => "Timed out so there may be more results than shown here.",
    }
}

// ---------------------------------------------------------------------------
// Trail blocks
// ---------------------------------------------------------------------------

/// The breadcrumb parts of a side: the offsets of the backreferences
/// followed, innermost first, then the node's own offset.
pub open spec fn breadcrumb_parts(side: TrailEntrySide) -> Seq<Seq<char>> {
    side.backreference_stack@.reverse().map_values(
        |b: BackReference| decimal_text(b.node.start.offset as nat),
    ).push(decimal_text(side.node.start.offset as nat))
}

/// The breadcrumbs of a side, joined by arrows.
pub open spec fn breadcrumbs_text(side: TrailEntrySide) -> Seq<char> {
    join_text(breadcrumb_parts(side), "\u{2192}"@)
}

/// Renders the breadcrumbs of a side.
pub fn get_breadcrumbs(side: &TrailEntrySide) -> (res: String)
    ensures
        res@ == breadcrumbs_text(*side),
{
    let mut parts: Vec<String> = Vec::new();
    let stack = &side.backreference_stack;
    let n = stack.len();
    let mut i: usize = n;
    while i > 0
        invariant
            i <= n,
            n == stack@.len(),
            texts(parts@) == stack@.reverse().take((n - i) as int).map_values(
                |b: BackReference| decimal_text(b.node.start.offset as nat),
            ),
        decreases i,
    {
        i -= 1;
        let part = crate::text::decimal_string(stack[i].node.start.offset as u64);
        let ghost prev = parts@;
        parts.push(part);
        proof {
            assert(stack@.reverse()[(n - 1 - i) as int] == stack@[i as int]);
            assert(texts(parts@) =~= texts(prev).push(part@));
            assert(stack@.reverse().take((n - i) as int) =~= stack@.reverse().take((n - 1 - i) as int).push(stack@[i as int]));
            assert(stack@.reverse().take((n - i) as int).map_values(
                |b: BackReference| decimal_text(b.node.start.offset as nat),
            ) =~= stack@.reverse().take((n - 1 - i) as int).map_values(
                |b: BackReference| decimal_text(b.node.start.offset as nat),
            ).push(decimal_text(stack@[i as int].node.start.offset as nat)));
        }
    }
    let own = crate::text::decimal_string(side.node.start.offset as u64);
    let ghost prev = parts@;
    parts.push(own);
    proof {
        assert(stack@.reverse().take(n as int) =~= stack@.reverse());
        assert(texts(parts@) =~= texts(prev).push(own@));
        assert(texts(parts@) =~= breadcrumb_parts(*side));
    }
    join(&parts, "\u{2192}")
}

/// `s` between backticks.
pub open spec fn quoted(s: Seq<char>) -> Seq<char> {
    "`"@ + s + "`"@
}

fn push_quoted(out: &mut String, s: &str)
    ensures
        final(out)@ == old(out)@ + quoted(s@),
{
    push_str(out, "`");
    push_str(out, s);
    push_str(out, "`");
    proof {
        assert(final(out)@ =~= old(out)@ + quoted(s@));
    }
}

/// The widest text, in UTF-16 units; 0 for none.
pub open spec fn max_width(cells: Seq<Seq<char>>) -> nat
    decreases cells.len(),
{
    if cells.len() == 0 {
        0
    } else {
        let rest = max_width(cells.drop_last());
        let w = utf16_length(cells.last());
        if w > rest {
            w
        } else {
            rest
        }
    }
}

fn max_width_of(cells: &Vec<String>) -> (res: usize)
    ensures
        res == max_width(texts(cells@)),
{
    let mut m: usize = 0;
    let mut i: usize = 0;
    while i < cells.len()
        invariant
            i <= cells@.len(),
            m == max_width(texts(cells@.take(i as int))),
        decreases cells.len() - i,
    {
        let w = utf16_len(cells[i].as_str());
        if w > m {
            m = w;
        }
        proof {
            assert(texts(cells@.take(i + 1)).drop_last() =~= texts(cells@.take(i as int)));
            assert(texts(cells@.take(i + 1)).last() == cells@[i as int]@);
        }
        i += 1;
    }
    proof {
        assert(cells@.take(i as int) =~= cells@);
    }
    m
}

/// The entries a block shows.
pub open spec fn shown_entries(trail: Trail) -> Seq<TrailEntry> {
    if trail.entries@.len() > TRUNCATE_LENGTH {
        trail.entries@.take(TRUNCATE_LENGTH as int)
    } else {
        trail.entries@
    }
}

/// One row of a block, with the three padded columns at the given widths.
pub open spec fn row_text(e: TrailEntry, w1: nat, w2: nat, w3: nat) -> Seq<char> {
    pad_start_text(breadcrumbs_text(e.a), w1) + ": "@ + pad_end_text(quoted(e.a.node.source@), w2) + " | "@
        + pad_start_text(breadcrumbs_text(e.b), w3) + ": "@ + quoted(e.b.node.source@)
}

/// The rows of a block before its closing line.
pub open spec fn block_rows(trail: Trail) -> Seq<Seq<char>> {
    let shown = shown_entries(trail);
    let w1 = max_width(shown.map_values(|e: TrailEntry| breadcrumbs_text(e.a)));
    let w2 = max_width(shown.map_values(|e: TrailEntry| quoted(e.a.node.source@)));
    let w3 = max_width(shown.map_values(|e: TrailEntry| breadcrumbs_text(e.b)));
    let rows = shown.map_values(|e: TrailEntry| row_text(e, w1, w2, w3));
    if trail.entries@.len() > TRUNCATE_LENGTH {
        rows.push("\u{2026}"@)
    } else {
        rows
    }
}

/// The text of a trail: its rows, then a line of `=` as wide as the widest row.
pub open spec fn block_text(trail: Trail) -> Seq<char> {
    let rows = block_rows(trail);
    join_text(rows.push(repeat_char('=', max_width(rows))), "\n"@)
}

/// Renders one trail as a table.
pub fn render_block(trail: &Trail) -> (res: String)
    ensures
        res@ == block_text(*trail),
{
    let n = if trail.entries.len() > TRUNCATE_LENGTH { TRUNCATE_LENGTH } else { trail.entries.len() };
    let ghost shown = shown_entries(*trail);
    proof {
        assert(shown =~= trail.entries@.take(n as int));
    }
    let mut col1: Vec<String> = Vec::new();
    let mut col2: Vec<String> = Vec::new();
    let mut col3: Vec<String> = Vec::new();
    let mut col4: Vec<String> = Vec::new();
    let mut i: usize = 0;
    while i < n
        invariant
            i <= n <= trail.entries@.len(),
            shown == trail.entries@.take(n as int),
            texts(col1@) == shown.take(i as int).map_values(|e: TrailEntry| breadcrumbs_text(e.a)),
            texts(col2@) == shown.take(i as int).map_values(|e: TrailEntry| quoted(e.a.node.source@)),
            texts(col3@) == shown.take(i as int).map_values(|e: TrailEntry| breadcrumbs_text(e.b)),
            texts(col4@) == shown.take(i as int).map_values(|e: TrailEntry| quoted(e.b.node.source@)),
        decreases n - i,
    {
        let entry = &trail.entries[i];
        let c1 = get_breadcrumbs(&entry.a);
        let mut c2 = String::new();
        push_quoted(&mut c2, entry.a.node.source.as_str());
        let c3 = get_breadcrumbs(&entry.b);
        let mut c4 = String::new();
        push_quoted(&mut c4, entry.b.node.source.as_str());
        proof {
            assert(shown[i as int] == *entry);
            assert(shown.take(i + 1) =~= shown.take(i as int).push(*entry));
            assert(Seq::<char>::empty() + quoted(entry.a.node.source@) =~= quoted(entry.a.node.source@));
            assert(Seq::<char>::empty() + quoted(entry.b.node.source@) =~= quoted(entry.b.node.source@));
        }
        let ghost p1 = col1@;
        let ghost p2 = col2@;
        let ghost p3 = col3@;
        let ghost p4 = col4@;
        col1.push(c1);
        col2.push(c2);
        col3.push(c3);
        col4.push(c4);
        proof {
            assert(texts(col1@) =~= texts(p1).push(c1@));
            assert(texts(col2@) =~= texts(p2).push(c2@));
            assert(texts(col3@) =~= texts(p3).push(c3@));
            assert(texts(col4@) =~= texts(p4).push(c4@));
            assert(shown.take(i + 1).map_values(|e: TrailEntry| breadcrumbs_text(e.a)) =~= shown.take(i as int).map_values(|e: TrailEntry| breadcrumbs_text(e.a)).push(breadcrumbs_text(entry.a)));
            assert(shown.take(i + 1).map_values(|e: TrailEntry| quoted(e.a.node.source@)) =~= shown.take(i as int).map_values(|e: TrailEntry| quoted(e.a.node.source@)).push(quoted(entry.a.node.source@)));
            assert(shown.take(i + 1).map_values(|e: TrailEntry| breadcrumbs_text(e.b)) =~= shown.take(i as int).map_values(|e: TrailEntry| breadcrumbs_text(e.b)).push(breadcrumbs_text(entry.b)));
            assert(shown.take(i + 1).map_values(|e: TrailEntry| quoted(e.b.node.source@)) =~= shown.take(i as int).map_values(|e: TrailEntry| quoted(e.b.node.source@)).push(quoted(entry.b.node.source@)));
        }
        i += 1;
    }
    proof {
        assert(shown.take(n as int) =~= shown);
    }
    let w1 = max_width_of(&col1);
    let w2 = max_width_of(&col2);
    let w3 = max_width_of(&col3);
    let ghost rows_spec = shown.map_values(|e: TrailEntry| row_text(e, w1 as nat, w2 as nat, w3 as nat));
    let mut rows: Vec<String> = Vec::new();
    let mut j: usize = 0;
    while j < n
        invariant
            j <= n,
            n == col1@.len() && n == col2@.len() && n == col3@.len() && n == col4@.len(),
            n == shown.len(),
            texts(col1@) == shown.map_values(|e: TrailEntry| breadcrumbs_text(e.a)),
            texts(col2@) == shown.map_values(|e: TrailEntry| quoted(e.a.node.source@)),
            texts(col3@) == shown.map_values(|e: TrailEntry| breadcrumbs_text(e.b)),
            texts(col4@) == shown.map_values(|e: TrailEntry| quoted(e.b.node.source@)),
            rows_spec == shown.map_values(|e: TrailEntry| row_text(e, w1 as nat, w2 as nat, w3 as nat)),
            texts(rows@) == rows_spec.take(j as int),
        decreases n - j,
    {
        let mut row = pad_start(col1[j].as_str(), w1);
        push_str(&mut row, ": ");
        let padded = pad_end(col2[j].as_str(), w2);
        push_str(&mut row, padded.as_str());
        push_str(&mut row, " | ");
        let padded3 = pad_start(col3[j].as_str(), w3);
        push_str(&mut row, padded3.as_str());
        push_str(&mut row, ": ");
        push_str(&mut row, col4[j].as_str());
        proof {
            let e = shown[j as int];
            assert(texts(col1@)[j as int] == col1@[j as int]@);
            assert(texts(col2@)[j as int] == col2@[j as int]@);
            assert(texts(col3@)[j as int] == col3@[j as int]@);
            assert(texts(col4@)[j as int] == col4@[j as int]@);
            assert(col1@[j as int]@ == breadcrumbs_text(e.a));
            assert(col2@[j as int]@ == quoted(e.a.node.source@));
            assert(col3@[j as int]@ == breadcrumbs_text(e.b));
            assert(col4@[j as int]@ == quoted(e.b.node.source@));
            assert(row@ =~= row_text(e, w1 as nat, w2 as nat, w3 as nat));
        }
        let ghost prev = rows@;
        rows.push(row);
        proof {
            assert(texts(rows@) =~= texts(prev).push(row@));
            assert(rows_spec.take(j + 1) =~= rows_spec.take(j as int).push(rows_spec[j as int]));
        }
        j += 1;
    }
    proof {
        assert(rows_spec.take(n as int) =~= rows_spec);
        assert(shown.map_values(|e: TrailEntry| breadcrumbs_text(e.a)) == texts(col1@));
    }
    if trail.entries.len() > TRUNCATE_LENGTH {
        let mut ellipsis = String::new();
        push_str(&mut ellipsis, "\u{2026}");
        let ghost prev = rows@;
        rows.push(ellipsis);
        proof {
            assert(Seq::<char>::empty() + "\u{2026}"@ =~= "\u{2026}"@);
            assert(texts(rows@) =~= texts(prev).push("\u{2026}"@));
        }
    }
    proof {
        assert(texts(rows@) == block_rows(*trail));
    }
    let max_row_length = max_width_of(&rows);
    let mut rule = String::new();
    push_repeated(&mut rule, '=', max_row_length);
    let ghost prev = rows@;
    rows.push(rule);
    proof {
        assert(Seq::<char>::empty() + repeat_char('=', max_row_length as nat) =~= repeat_char('=', max_row_length as nat));
        assert(texts(rows@) =~= texts(prev).push(repeat_char('=', max_row_length as nat)));
    }
    join(&rows, "\n")
}

// ---------------------------------------------------------------------------
// The whole text
// ---------------------------------------------------------------------------

/// The number of trails a limit allows; a negative limit allows none.
pub open spec fn effective_limit(limit: Option<i64>) -> Option<nat> {
    match limit {
        None => None,
        Some(n) => Some(if n < 0 {
            0nat
        } else {
            n as nat
        }),
    }
}

/// The one line printed when there are no trails.
pub open spec fn summary_line(r: Report) -> Seq<char> {
    let score = score_text(r.score);
    let first = if r.spec_is_safe() {
        "Regex is safe. "@ + score
    } else {
        "Regex may not be safe. "@ + score
    };
    let timed_out = if r.error == Some(AnalysisLimit::TimedOut) {
        seq!["Timed out."@]
    } else {
        Seq::<Seq<char>>::empty()
    };
    let steps = if r.error == Some(AnalysisLimit::HitMaxSteps) {
        seq!["Reached steps limit."@]
    } else {
        Seq::<Seq<char>>::empty()
    };
    let variations = if !r.spec_is_safe() {
        seq!["The pattern may have too many variations."@]
    } else {
        Seq::<Seq<char>>::empty()
    };
    join_text(seq![first] + timed_out + steps + variations, " "@)
}

/// The lines printed when there are trails.
pub open spec fn trail_lines(r: Report, c: ToFriendlyConfig) -> Seq<Seq<char>> {
    let limit = effective_limit(c.results_limit);
    let count = r.trails@.len();
    let not = if !r.spec_is_safe() {
        "not "@
    } else {
        Seq::<char>::empty()
    };
    let verdict = "Regex is "@ + not + "safe. "@ + score_text(r.score);
    if limit == Some(0nat) {
        seq![verdict]
    } else {
        let shown = match limit {
            Some(n) => if n < count {
                r.trails@.take(n as int)
            } else {
                r.trails@
            },
            None => r.trails@,
        };
        let plural = if count > 1 {
            "s"@
        } else {
            Seq::<char>::empty()
        };
        let singular = if count == 1 {
            "s"@
        } else {
            Seq::<char>::empty()
        };
        let intro = "The following trail"@ + plural + " show"@ + singular
            + " how the same input can be matched multiple ways."@;
        let error_lines = match r.error {
            Some(e) => seq![error_text(e)],
            None => Seq::<Seq<char>>::empty(),
        };
        let more = match limit {
            Some(n) => if count > n {
                seq!["There are more results than this but hit results limit."@]
            } else {
                Seq::<Seq<char>>::empty()
            },
            None => Seq::<Seq<char>>::empty(),
        };
        seq![verdict, Seq::<char>::empty(), intro] + shown.map_values(|t: Trail| block_text(t)) + seq![
            Seq::<char>::empty(),
        ] + error_lines + more
    }
}

/// The text [`to_friendly`] renders for a report.
pub open spec fn friendly_text(r: Report, c: ToFriendlyConfig) -> Seq<char> {
    if r.spec_is_safe() && !c.always_include_trails {
        "Regex is safe. "@ + score_text(r.score)
    } else {
        let header = if r.pattern_downgraded {
            seq!["Pattern was downgraded to `"@ + r.pattern@ + "`."@]
        } else {
            Seq::<Seq<char>>::empty()
        };
        let body = if r.trails@.len() == 0 {
            seq![summary_line(r)]
        } else {
            trail_lines(r, c)
        };
        join_text(header + body, "\n"@)
    }
}

fn push_line(lines: &mut Vec<String>, line: String)
    ensures
        texts(final(lines)@) == texts(old(lines)@).push(line@),
{
    lines.push(line);
    proof {
        assert(texts(final(lines)@) =~= texts(old(lines)@).push(line@));
    }
}

fn literal_line(text: &str) -> (res: String)
    ensures
        res@ == text@,
{
    let mut s = String::new();
    push_str(&mut s, text);
    proof {
        assert(Seq::<char>::empty() + text@ =~= text@);
    }
    s
}

/// Renders the one line printed when there are no trails.
fn render_summary(result: &Report, score_str: &String) -> (res: String)
    requires
        score_str@ == score_text(result.score),
    ensures
        res@ == summary_line(*result),
{
    let safe = result.is_safe();
    let mut parts: Vec<String> = Vec::new();
    let mut first = String::new();
    if safe {
        push_str(&mut first, "Regex is safe. ");
    } else {
        push_str(&mut first, "Regex may not be safe. ");
    }
    push_str(&mut first, score_str.as_str());
    push_line(&mut parts, first);
    if result.error == Some(AnalysisLimit::TimedOut) {
        push_line(&mut parts, literal_line("Timed out."));
    }
    if result.error == Some(AnalysisLimit::HitMaxSteps) {
        push_line(&mut parts, literal_line("Reached steps limit."));
    }
    if !safe {
        push_line(&mut parts, literal_line("The pattern may have too many variations."));
    }
    proof {
        let score = score_text(result.score);
        let f = if result.spec_is_safe() {
            "Regex is safe. "@ + score
        } else {
            "Regex may not be safe. "@ + score
        };
        let timed_out = if result.error == Some(AnalysisLimit::TimedOut) {
            seq!["Timed out."@]
        } else {
            Seq::<Seq<char>>::empty()
        };
        let steps = if result.error == Some(AnalysisLimit::HitMaxSteps) {
            seq!["Reached steps limit."@]
        } else {
            Seq::<Seq<char>>::empty()
        };
        let variations = if !result.spec_is_safe() {
            seq!["The pattern may have too many variations."@]
        } else {
            Seq::<Seq<char>>::empty()
        };
        assert(texts(parts@) =~= seq![f] + timed_out + steps + variations);
    }
    join(&parts, " ")
}

/// Appends the blocks of the first `shown_count` trails.
fn push_blocks(lines: &mut Vec<String>, trails: &Vec<Trail>, shown_count: usize)
    requires
        shown_count <= trails@.len(),
    ensures
        texts(final(lines)@) == texts(old(lines)@) + trails@.take(shown_count as int).map_values(
            |tr: Trail| block_text(tr),
        ),
{
    let ghost before_blocks = texts(lines@);
    let ghost shown = trails@.take(shown_count as int);
    let mut t: usize = 0;
    proof {
        assert(before_blocks + shown.take(0).map_values(|tr: Trail| block_text(tr)) =~= before_blocks);
    }
    while t < shown_count
        invariant
            t <= shown_count <= trails@.len(),
            shown == trails@.take(shown_count as int),
            before_blocks == texts(old(lines)@),
            texts(lines@) == before_blocks + shown.take(t as int).map_values(|tr: Trail| block_text(tr)),
        decreases shown_count - t,
    {
        let block = render_block(&trails[t]);
        push_line(lines, block);
        proof {
            assert(shown[t as int] == trails@[t as int]);
            assert(shown.take(t + 1) =~= shown.take(t as int).push(shown[t as int]));
            assert(shown.take(t + 1).map_values(|tr: Trail| block_text(tr)) =~= shown.take(t as int).map_values(|tr: Trail| block_text(tr)).push(block_text(shown[t as int])));
            assert(texts(lines@) =~= before_blocks + shown.take(t + 1).map_values(|tr: Trail| block_text(tr)));
        }
        t += 1;
    }
    proof {
        assert(shown.take(shown_count as int) =~= shown);
    }
}

/// Renders the lines printed when there are trails.
fn render_trail_lines(result: &Report, config: &ToFriendlyConfig, score_str: &String) -> (res: Vec<String>)
    requires
        score_str@ == score_text(result.score),
        result.trails@.len() > 0,
    ensures
        texts(res@) == trail_lines(*result, *config),
{
    let safe = result.is_safe();
    let count = result.trails.len();
    let mut lines: Vec<String> = Vec::new();
    let mut verdict = String::new();
    push_str(&mut verdict, "Regex is ");
    if !safe {
        push_str(&mut verdict, "not ");
    }
    push_str(&mut verdict, "safe. ");
    push_str(&mut verdict, score_str.as_str());
    let ghost not = if !result.spec_is_safe() {
        "not "@
    } else {
        Seq::<char>::empty()
    };
    proof {
        assert(verdict@ =~= "Regex is "@ + not + "safe. "@ + score_text(result.score));
        assert(texts(lines@) =~= Seq::<Seq<char>>::empty());
    }
    push_line(&mut lines, verdict);

    let zero_limit = match config.results_limit {
        Some(n) => n <= 0,
        None => false,
    };
    if zero_limit {
        proof {
            assert(texts(lines@) =~= trail_lines(*result, *config));
        }
        return lines;
    }
    let shown_count: usize = match config.results_limit {
        None => count,
        Some(n) => if (n as u64) < (count as u64) {
            n as usize
        } else {
            count
        },
    };
    push_line(&mut lines, String::new());
    let mut intro = String::new();
    push_str(&mut intro, "The following trail");
    if count > 1 {
        push_str(&mut intro, "s");
    }
    push_str(&mut intro, " show");
    if count == 1 {
        push_str(&mut intro, "s");
    }
    push_str(&mut intro, " how the same input can be matched multiple ways.");
    let ghost plural = if count > 1 {
        "s"@
    } else {
        Seq::<char>::empty()
    };
    let ghost singular = if count == 1 {
        "s"@
    } else {
        Seq::<char>::empty()
    };
    proof {
        assert(intro@ =~= "The following trail"@ + plural + " show"@ + singular
            + " how the same input can be matched multiple ways."@);
    }
    push_line(&mut lines, intro);
    let ghost before_blocks = texts(lines@);
    push_blocks(&mut lines, &result.trails, shown_count);
    let ghost after_blocks = texts(lines@);
    push_line(&mut lines, String::new());
    let ghost before_error = texts(lines@);
    if let Some(error) = result.error {
        push_line(&mut lines, literal_line(error_message(error)));
    }
    let ghost error_lines = match result.error {
        Some(e) => seq![error_text(e)],
        None => Seq::<Seq<char>>::empty(),
    };
    proof {
        assert(texts(lines@) =~= before_error + error_lines);
    }
    let ghost before_more = texts(lines@);
    let more = match config.results_limit {
        Some(n) => (count as u64) > (n as u64),
        None => false,
    };
    if more {
        push_line(&mut lines, literal_line("There are more results than this but hit results limit."));
    }
    proof {
        let lim = effective_limit(config.results_limit);
        let more_lines = match lim {
            Some(n) => if count > n {
                seq!["There are more results than this but hit results limit."@]
            } else {
                Seq::<Seq<char>>::empty()
            },
            None => Seq::<Seq<char>>::empty(),
        };
        assert(texts(lines@) =~= before_more + more_lines);
        let spec_shown = match lim {
            Some(n) => if n < count {
                result.trails@.take(n as int)
            } else {
                result.trails@
            },
            None => result.trails@,
        };
        assert(result.trails@.take(count as int) =~= result.trails@);
        assert(spec_shown =~= result.trails@.take(shown_count as int));
        assert(texts(lines@) =~= trail_lines(*result, *config));
    }
    lines
}

/// Renders `result` as text.
///
/// `results_limit` of `None` prints every trail; a negative limit prints none.
pub fn to_friendly(result: &Report, config: &ToFriendlyConfig) -> (res: String)
    ensures
        res@ == friendly_text(*result, *config),
{
    let safe = result.is_safe();
    let score_str = score_string(result.score);

    if safe && !config.always_include_trails {
        let mut out = String::new();
        push_str(&mut out, "Regex is safe. ");
        push_str(&mut out, score_str.as_str());
        proof {
            assert(out@ =~= "Regex is safe. "@ + score_text(result.score));
        }
        return out;
    }

    let mut output_lines: Vec<String> = Vec::new();
    let ghost header: Seq<Seq<char>> = Seq::empty();
    proof {
        assert(texts(output_lines@) =~= Seq::<Seq<char>>::empty());
    }
    if result.pattern_downgraded {
        let mut line = String::new();
        push_str(&mut line, "Pattern was downgraded to `");
        push_str(&mut line, result.pattern.as_str());
        push_str(&mut line, "`.");
        proof {
            assert(line@ =~= "Pattern was downgraded to `"@ + result.pattern@ + "`."@);
            header = seq![line@];
        }
        push_line(&mut output_lines, line);
        proof {
            assert(texts(output_lines@) =~= header);
        }
    }

    if result.trails.len() == 0 {
        let summary = render_summary(result, &score_str);
        push_line(&mut output_lines, summary);
        proof {
            assert(texts(output_lines@) =~= header + seq![summary_line(*result)]);
        }
    } else {
        let body = render_trail_lines(result, config, &score_str);
        let mut k: usize = 0;
        let ghost start = texts(output_lines@);
        while k < body.len()
            invariant
                k <= body@.len(),
                texts(output_lines@) == start + texts(body@).take(k as int),
            decreases body.len() - k,
        {
            let line = literal_line(body[k].as_str());
            push_line(&mut output_lines, line);
            proof {
                assert(texts(body@).take(k + 1) =~= texts(body@).take(k as int).push(body@[k as int]@));
                assert(texts(output_lines@) =~= start + texts(body@).take(k + 1));
            }
            k += 1;
        }
        proof {
            assert(texts(body@).take(k as int) =~= texts(body@));
        }
    }
    join(&output_lines, "\n")
}

/// A negative results limit renders exactly as a limit of zero.
pub proof fn lemma_negative_limit_renders_as_zero(r: Report, c: ToFriendlyConfig, n: i64)
    requires
        n < 0,
    ensures
        friendly_text(r, (ToFriendlyConfig { results_limit: Some(n), ..c })) == friendly_text(
            r,
            (ToFriendlyConfig { results_limit: Some(0), ..c }),
        ),
{
    assert(effective_limit(Some(n)) == effective_limit(Some(0i64)));
}

/// A safe report renders as the one-line verdict unless trails are asked
/// for, whatever its trails.
pub proof fn lemma_safe_report_is_one_line(r: Report, c: ToFriendlyConfig)
    requires
        r.spec_is_safe(),
        !c.always_include_trails,
    ensures
        friendly_text(r, c) == "Regex is safe. "@ + score_text(r.score),
{
}

} // verus!
