# redos_detector

A static ReDoS analysis for ECMA-262 regular expressions, verified with
Verus. The analysis reads a pattern twice, side by side, and looks for one
input prefix that the pattern can match in two different ways; from the
trails it finds it computes a score: 1 when every input matches at most one
way, infinite when backtracking is unbounded.

`src/` is the verified library:

- `parse` turns a pattern into a syntax tree whose offsets are UTF-16 code
  unit indices; `node_extra` numbers its capturing groups and records the
  lookarounds around groups and references.
- `downgrade` rewrites patterns the analysis cannot handle (backreferences
  into lookaheads or unbounded groups, a missing start anchor) into ones it
  can.
- `our_range` and `character_groups` hold sets of code points as integer
  ranges with infinite ends, and intersect them; `code_point` folds case.
- `character_reader` holds what each level of the reader stack decides:
  the value of each leaf node and the pieces a sequence, choice, group or
  quantifier is read through (`composite_plan`, `iteration_plan`), the
  folding of zero-width markers, the recording of group contents and the
  replay of backreferences, and the joining of readers back to back.
- `search` holds the decisions of the ambiguity search and of the score:
  which pairs of entries extend a trail and what the new entry holds
  (`checker_step`), what each decision does to the path (`act_on_decision`),
  how a stream is forked at a split (`split_plan`), the half-step count,
  the step limit and the clock check (`SearchLimits`, `timed_out`), each
  step of the walk to an unbounded end (`unbounded_step`), when a path
  loops, whether a stream can still stop, which trails are reported, what
  the search returns (`finish`), how the scorer starts (`ScoreState::new`),
  how a reported trail changes the score (`score_step`) and how the outcome
  is reported (`collect_outcome`). Steps are counted in half steps, and the
  step, score and time limits are integers, with `None` for no limit.
- `reader`, `tree`, `result_cache`, `infinite_loop_tracker`, `quantifier`,
  `checker` and `to_friendly` hold the supporting structures (among them
  `ForkLog`, the record a fork of a reader replays), the trail bookkeeping,
  and the rendering of a report as text.

`app/` performs what those decisions call for: it builds the lazy readers,
which hand out the reader of a branch as a closure, from the library's
plans; it keeps the shared source behind each `ForkLog`; and it keeps the
frame stack of the depth-first search over two readers (`search`), pulling
the streams, forking them where `split_plan` says, reading the clock it is
handed and feeding the trails it reports to the scorer.

`tests/` exercises the library on concrete values.

Reading regex flags and an options record is left to the caller: the
analysis starts from a parsed pattern, its mode switches and explicit limits.
