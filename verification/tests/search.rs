//! The search's decisions and the score on concrete values.

use redos_detector::character_groups::{CharacterGroups, EscapeMap};
use redos_detector::our_range::Bound;
use redos_detector::parse::parse;
use redos_detector::search::{
    act_on_decision, collect_outcome, finish, keeps_path_after, not_new_line, same_text_sets, score_step,
    should_emit_trail, split_plan, timed_out, unbounded_step, CheckerReturn, EntryDecision, ForkKind, PairAction,
    ScoreState, ScoredTrail, SearchEntry, SearchLimits, SearchSide, UnboundedAction, UnboundedPull,
};
use redos_detector::tree::Tree;
use redos_detector::{AnalysisLimit, Score};
use std::rc::Rc;

fn single(c: i64) -> CharacterGroups {
    CharacterGroups {
        ranges_negated: false,
        ranges: vec![(Bound::Finite(c), Bound::Finite(c))],
        unicode_property_escapes: EscapeMap::new(),
    }
}

fn side(hash: &str) -> SearchSide {
    SearchSide {
        hash: hash.to_string(),
        atomic_groups: Vec::new(),
        character_groups: Rc::new(single(97)),
        node: parse("a", false).unwrap(),
        stack: Vec::new(),
    }
}

fn entry(id: usize, left: &str, right: &str) -> SearchEntry {
    SearchEntry { id, intersection: single(97), left: side(left), right: side(right), diverged: left != right }
}

#[test]
fn finish_without_trails_or_limits_is_finite() {
    assert_eq!(finish(10, None, false, &Vec::new(), &Vec::new()), CheckerReturn::Finished { infinite: false });
    assert_eq!(finish(10, Some(10), false, &Vec::new(), &Vec::new()), CheckerReturn::Finished { infinite: false });
}

#[test]
fn finish_reports_the_step_limit_before_the_time_limit() {
    assert_eq!(finish(11, Some(10), true, &Vec::new(), &Vec::new()), CheckerReturn::HitMaxSteps);
    assert_eq!(finish(10, Some(10), true, &Vec::new(), &Vec::new()), CheckerReturn::TimedOut);
}

#[test]
fn finish_is_infinite_when_a_trail_passes_a_loop_start() {
    let trails = vec![vec![entry(3, "0", "0"), entry(7, "1", "2")]];
    assert_eq!(finish(0, None, false, &trails, &vec![7]), CheckerReturn::Finished { infinite: true });
    assert_eq!(finish(0, None, false, &trails, &vec![5]), CheckerReturn::Finished { infinite: false });
}

#[test]
fn outcome_of_each_return() {
    assert_eq!(collect_outcome(Some(CheckerReturn::HitMaxSteps), false, 4), (Some(AnalysisLimit::HitMaxSteps), Score::Infinite));
    assert_eq!(collect_outcome(Some(CheckerReturn::TimedOut), false, 4), (Some(AnalysisLimit::TimedOut), Score::Infinite));
    assert_eq!(
        collect_outcome(Some(CheckerReturn::Finished { infinite: true }), false, 4),
        (Some(AnalysisLimit::HitMaxScore), Score::Infinite)
    );
    assert_eq!(collect_outcome(Some(CheckerReturn::Finished { infinite: false }), false, 4), (None, Score::Finite(4)));
    assert_eq!(collect_outcome(None, true, 4), (Some(AnalysisLimit::HitMaxScore), Score::Infinite));
    assert_eq!(collect_outcome(None, false, 1), (None, Score::Finite(1)));
}

#[test]
fn a_trail_is_reported_once_either_way_round() {
    let t = vec![entry(0, "0", "1")];
    assert!(should_emit_trail(&Vec::new(), &t));
    let swapped = vec![entry(5, "1", "0")];
    assert!(!should_emit_trail(&vec![swapped], &t));
    let other = vec![entry(9, "0", "2")];
    assert!(should_emit_trail(&vec![other], &t));
}

#[test]
fn only_line_terminators_keep_a_path_in_multi_line_mode() {
    assert!(keeps_path_after(true, &single(10)));
    assert!(!keeps_path_after(true, &single(97)));
    assert!(!keeps_path_after(false, &single(10)));
    let n = not_new_line();
    assert!(n.ranges_negated);
    assert!(!keeps_path_after(true, &n));
}

#[test]
fn text_sets_ignore_order_and_repeats() {
    let a = vec!["x".to_string(), "y".to_string()];
    let b = vec!["y".to_string(), "x".to_string(), "x".to_string()];
    assert!(same_text_sets(&a, &b));
    assert!(!same_text_sets(&a, &vec!["x".to_string()]));
}

fn new_state() -> ScoreState<impl Fn(&ScoredTrail) -> Vec<usize>> {
    let decode = |t: &ScoredTrail| t.trail.iter().map(|e| e.id).collect::<Vec<usize>>();
    ScoreState { trails: Tree::new(decode), score: 1, work: 0 }
}

#[test]
fn a_trail_whose_sides_differ_matches_two_ways() {
    let mut state = new_state();
    assert!(!score_step(&mut state, vec![entry(0, "0", "1")], None));
    assert_eq!(state.score, 2);
    assert_eq!(state.trails.items().len(), 1);
}

#[test]
fn a_trail_whose_sides_agree_matches_one_way() {
    let mut state = new_state();
    assert!(!score_step(&mut state, vec![entry(0, "0", "0")], None));
    assert_eq!(state.score, 1);
}

#[test]
fn score_cap_is_passed_only_above_it() {
    let mut state = new_state();
    assert!(!score_step(&mut state, vec![entry(0, "0", "1")], Some(2)));
    let mut capped = new_state();
    assert!(score_step(&mut capped, vec![entry(0, "0", "1")], Some(1)));
}

#[test]
fn the_score_never_drops_across_trails() {
    let mut state = new_state();
    assert!(!score_step(&mut state, vec![entry(0, "0", "1")], None));
    let first = state.score;
    let work = state.work;
    assert!(!score_step(&mut state, vec![entry(1, "0", "0"), entry(2, "3", "3")], None));
    assert!(state.score >= first);
    assert!(state.work >= work);
}

fn level2_entry(node: &redos_detector::ast::RcNode, c: i64) -> redos_detector::character_reader::level2::Level2Entry<CharacterGroups> {
    redos_detector::character_reader::level2::Level2Entry {
        character_groups: Rc::new(single(c)),
        groups: Vec::new(),
        lookahead_stack: Vec::new(),
        node: Rc::clone(node),
        preceding_zero_width_entries: Vec::new(),
        stack: Vec::new(),
    }
}

#[test]
fn a_step_on_characters_that_never_meet_changes_nothing() {
    let node = parse("a|b", false).unwrap();
    let extra = redos_detector::node_extra::build_node_extra(&node);
    let mut trail = Vec::new();
    let mut tracker = redos_detector::infinite_loop_tracker::InfiniteLoopTracker::new();
    let mut next_id = 4;
    let offsets = std::collections::HashSet::new();
    let d = redos_detector::search::checker_step(
        &mut trail,
        &mut tracker,
        &mut next_id,
        &level2_entry(&node, 97),
        &level2_entry(&node, 98),
        &offsets,
        &extra,
    );
    assert!(d.is_none());
    assert!(trail.is_empty());
    assert_eq!(next_id, 4);
}

#[test]
fn a_step_on_the_same_character_extends_the_trail() {
    let node = parse("a", false).unwrap();
    let extra = redos_detector::node_extra::build_node_extra(&node);
    let mut trail = Vec::new();
    let mut tracker = redos_detector::infinite_loop_tracker::InfiniteLoopTracker::new();
    let mut next_id = 4;
    let offsets = std::collections::HashSet::new();
    let d = redos_detector::search::checker_step(
        &mut trail,
        &mut tracker,
        &mut next_id,
        &level2_entry(&node, 97),
        &level2_entry(&node, 97),
        &offsets,
        &extra,
    );
    assert_eq!(d, Some(redos_detector::search::EntryDecision::Extend));
    assert_eq!(trail.len(), 1);
    assert_eq!(trail[0].id, 4);
    assert!(!trail[0].diverged);
    assert_eq!(next_id, 5);
}

#[test]
fn limits_count_half_steps_and_read_the_clock() {
    assert!(!timed_out(5, None));
    assert!(!timed_out(5, Some(5)));
    assert!(timed_out(6, Some(5)));
    let mut limits = SearchLimits::new(100, Some(10), Some(1));
    assert_eq!(limits.end_time, Some(110));
    assert!(!limits.start_round(110));
    limits.count_half_step();
    limits.count_half_step();
    assert_eq!(limits.step_halves, 2);
    assert!(limits.over());
    assert!(limits.start_round(0));
    assert_eq!(limits.finish(&Vec::new(), &Vec::new()), CheckerReturn::HitMaxSteps);
    let late = SearchLimits::new(u64::MAX - 1, Some(10), None);
    assert_eq!(late.end_time, Some(u64::MAX));
}

#[test]
fn a_split_forks_the_streams_around_the_split_one() {
    assert_eq!(split_plan(2, 0), vec![ForkKind::Branch, ForkKind::Fresh]);
    assert_eq!(split_plan(2, 1), vec![ForkKind::KeepPulled, ForkKind::Branch]);
}

#[test]
fn decisions_become_path_actions() {
    let mut starts = vec![3];
    assert_eq!(act_on_decision(None, &mut starts), PairAction::Drop);
    assert_eq!(act_on_decision(Some(EntryDecision::Extend), &mut starts), PairAction::Continue);
    assert_eq!(act_on_decision(Some(EntryDecision::CheckUnbounded), &mut starts), PairAction::CheckUnbounded);
    assert_eq!(act_on_decision(Some(EntryDecision::LoopStart(3)), &mut starts), PairAction::Drop);
    assert_eq!(act_on_decision(Some(EntryDecision::LoopStart(8)), &mut starts), PairAction::Drop);
    assert_eq!(starts, vec![3, 8]);
}

#[test]
fn the_unbounded_walk_counts_before_it_looks() {
    let mut limits = SearchLimits::new(0, None, Some(1));
    assert_eq!(unbounded_step(&mut limits, false, &UnboundedPull::Empty), UnboundedAction::Bounded);
    assert_eq!(limits.step_halves, 0);
    assert_eq!(
        unbounded_step(&mut limits, true, &UnboundedPull::Entry(Rc::new(single(10)))),
        UnboundedAction::Continue { keep_frame: true, push_branch: false }
    );
    assert_eq!(
        unbounded_step(&mut limits, false, &UnboundedPull::End { bounded: false }),
        UnboundedAction::HitMax
    );
    let mut free = SearchLimits::new(0, None, None);
    assert_eq!(unbounded_step(&mut free, false, &UnboundedPull::End { bounded: false }), UnboundedAction::Unbounded);
    assert_eq!(
        unbounded_step(&mut free, false, &UnboundedPull::Split { branch: true }),
        UnboundedAction::Continue { keep_frame: true, push_branch: true }
    );
    assert_eq!(
        unbounded_step(&mut free, false, &UnboundedPull::End { bounded: true }),
        UnboundedAction::Continue { keep_frame: false, push_branch: false }
    );
}

#[test]
fn the_scorer_starts_at_one() {
    let decode = |t: &ScoredTrail| t.trail.iter().map(|e| e.id).collect::<Vec<usize>>();
    let state = ScoreState::new(decode);
    assert_eq!(state.score, 1);
    assert_eq!(state.work, 0);
    assert!(state.trails.items().is_empty());
}
