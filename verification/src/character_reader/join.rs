//! The decisions of a reader that joins readers back to back.
//!
//! A join runs a loop over `i`. For each `i` it asks for an action: stop,
//! fork (offer stopping here as a branch, then go on) or continue, and then
//! reads everything of the `i`-th reader. `time_since_emit` counts the
//! iterations in a row that produced no real character, which is what stops a
//! loop over something that can match the empty string.
use vstd::prelude::*;

verus! {

/// What the loop does at index `i`.
#[derive(Clone, Copy, Debug, PartialEq, Eq, Structural)]
pub enum JoinAction {
    /// Read the `i`-th reader.
    Continue,
    /// Offer an empty branch, then read the `i`-th reader.
    Fork,
    /// End the join.
    Stop,
}

/// The action of a quantifier `{min,max}` at iteration `i`.
pub open spec fn spec_quantifier_join_action(min: u64, max: Option<u64>, i: u64, time_since_emit: u64) -> JoinAction {
    if time_since_emit > 1 {
        JoinAction::Stop
    } else if max is Some && i >= max->0 {
        JoinAction::Stop
    } else if i >= min {
        JoinAction::Fork
    } else {
        JoinAction::Continue
    }
}

/// Returns what a quantifier with bounds `min` and `max` (`None` for no
/// upper bound) does at iteration `i`: it stops after two iterations in a row
/// that matched nothing or once `max` iterations are done, offers to stop
/// once `min` iterations are done, and goes on otherwise.
pub fn quantifier_join_action(min: u64, max: Option<u64>, i: u64, time_since_emit: u64) -> (res: JoinAction)
    ensures
        res == spec_quantifier_join_action(min, max, i, time_since_emit),
{
    if time_since_emit > 1 {
        return JoinAction::Stop;
    }
    if let Some(m) = max {
        if i >= m {
            return JoinAction::Stop;
        }
    }
    if i >= min {
        return JoinAction::Fork;
    }
    JoinAction::Continue
}

/// Returns the action of a join over `length` readers in a row: read each of
/// them once, then stop.
pub fn join_array_action(length: u64, i: u64) -> (res: JoinAction)
    ensures
        res == (if i < length { JoinAction::Continue } else { JoinAction::Stop }),
{
    if i < length {
        JoinAction::Continue
    } else {
        JoinAction::Stop
    }
}

/// What a join does after it asked for the action of the current index.
#[derive(Clone, Copy, Debug, PartialEq, Eq, Structural)]
pub enum JoinStep {
    /// The join ends.
    Finish,
    /// Offer an empty branch, then read the current reader.
    ForkThenRead,
    /// Read the current reader.
    Read,
}

/// The counters of a join: the current index, the iterations in a row that
/// matched nothing, and whether the current iteration matched something.
pub struct JoinProgress {
    /// The current index.
    pub i: u64,
    /// Iterations in a row that produced no real character.
    pub time_since_emit: u64,
    /// Whether the current iteration produced a real character.
    pub emitted_something: bool,
}

impl JoinProgress {
    /// A join at index 0 that starts with `time_since_emit` empty iterations
    /// behind it.
    pub fn new(time_since_emit: u64) -> (res: Self)
        ensures
            res.i == 0,
            res.time_since_emit == time_since_emit,
            !res.emitted_something,
    {
        JoinProgress { i: 0, time_since_emit, emitted_something: false }
    }

    /// Takes the action for the current index and says what comes next; a
    /// new iteration has matched nothing yet.
    pub fn begin(&mut self, action: JoinAction) -> (res: JoinStep)
        ensures
            final(self).i == old(self).i,
            final(self).time_since_emit == old(self).time_since_emit,
            res == match action {
                JoinAction::Stop => JoinStep::Finish,
                JoinAction::Fork => JoinStep::ForkThenRead,
                JoinAction::Continue => JoinStep::Read,
            },
            final(self).emitted_something == (action == JoinAction::Stop && old(self).emitted_something),
    {
        match action {
            JoinAction::Stop => JoinStep::Finish,
            JoinAction::Fork => {
                self.emitted_something = false;
                JoinStep::ForkThenRead
            },
            JoinAction::Continue => {
                self.emitted_something = false;
                JoinStep::Read
            },
        }
    }

    /// Notes a value passed on from the current reader; only a consumed
    /// character or a reference counts as something matched.
    pub fn passed_value(&mut self, zero_width_or_end: bool)
        ensures
            final(self).i == old(self).i,
            final(self).time_since_emit == old(self).time_since_emit,
            final(self).emitted_something == (old(self).emitted_something || !zero_width_or_end),
    {
        if !zero_width_or_end {
            self.emitted_something = true;
        }
    }

    /// Moves to the next index once the current reader is done.
    pub fn reader_done(&mut self)
        requires
            old(self).i < u64::MAX,
            !old(self).emitted_something ==> old(self).time_since_emit < u64::MAX,
        ensures
            final(self).i == old(self).i + 1,
            final(self).time_since_emit == (if old(self).emitted_something {
                0
            } else {
                old(self).time_since_emit + 1
            }),
            final(self).emitted_something == old(self).emitted_something,
    {
        self.time_since_emit = if self.emitted_something {
            0
        } else {
            self.time_since_emit + 1
        };
        self.i = self.i + 1;
    }
}

/// Where the `inner_i`-th reader of a join that resumes after a branch comes
/// from, when the branch was met at index `captured_i` of the outer join: the
/// first is the branch itself (`None`); the others are the outer join's
/// readers, from the one after the branch on.
pub fn branch_join_index(captured_i: u64, inner_i: u64) -> (res: Option<u64>)
    requires
        inner_i + captured_i <= u64::MAX,
    ensures
        res == (if inner_i == 0 { None } else { Some((inner_i + captured_i) as u64) }),
{
    if inner_i == 0 {
        None
    } else {
        Some(inner_i + captured_i)
    }
}

} // verus!
