//! The sweep: one fresh evaluation per candidate, and the list of the
//! candidates whose evaluation ends with the target in the first register.
use vstd::prelude::*;
use crate::evaluator::solve_iterative;
use crate::laws::lemma_match_is_completed;
use crate::model::{run, steps_left, Machine, ABORTED};

verus! {

/// What the first register holds when a candidate's evaluation starts.
pub const START_REG0: isize = 4;

/// What the second register holds when a candidate's evaluation starts.
pub const START_REG1: isize = 1;

/// The value of the first register that makes a candidate a match.
pub const TARGET: isize = 6;

/// The end of the candidates: the sweep tries `0`, `1`, ... up to, and
/// without, this value.
pub const CANDIDATES_END: isize = 32767;

/// A candidate that reached the target, with the registers it ended on.
#[derive(Clone, Copy, Debug, PartialEq, Eq)]
pub struct Match {
    pub candidate: isize,
    pub reg0: isize,
    pub reg1: isize,
}

/// A match as mathematical integers.
pub struct MatchView {
    pub candidate: int,
    pub reg0: int,
    pub reg1: int,
}

impl View for Match {
    type V = MatchView;

    open spec fn view(&self) -> MatchView {
        MatchView {
            candidate: self.candidate as int,
            reg0: self.reg0 as int,
            reg1: self.reg1 as int,
        }
    }
}

/// The state in which the evaluation of candidate `p` ends: counter at zero,
/// registers at their start values, nothing carried over from another
/// candidate.
pub open spec fn outcome(p: int) -> Machine {
    run(0, START_REG0 as int, START_REG1 as int, p)
}

/// Candidate `p` is a match: its evaluation ends with the target in the first
/// register. Only the final state is looked at.
pub open spec fn is_match(p: int) -> bool {
    outcome(p).reg0 == TARGET
}

/// The record that is reported for candidate `p`.
pub open spec fn record(p: int) -> MatchView {
    MatchView { candidate: p, reg0: outcome(p).reg0, reg1: outcome(p).reg1 }
}

/// The records of the matches among the candidates from `first` up to, and
/// without, `end`, in ascending order of the candidate.
pub open spec fn matches_between(first: int, end: int) -> Seq<MatchView>
    decreases end - first,
{
    if first >= end {
        Seq::empty()
    } else if is_match(end - 1) {
        matches_between(first, end - 1).push(record(end - 1))
    } else {
        matches_between(first, end - 1)
    }
}

/// The records in `found`, each as mathematical integers.
pub open spec fn views(found: Seq<Match>) -> Seq<MatchView> {
    found.map_values(|m: Match| m@)
}

/// A candidate can be evaluated from the start state without overflow.
pub open spec fn can_try(p: int) -> bool {
    isize::MIN + steps_left(0) <= p < isize::MAX
}

/// Evaluates one candidate from a fresh state and reports it if it is a
/// match. Only the final state decides; an evaluation that aborted never ends
/// on the target, so no aborted candidate is reported. The evaluation runs
/// without recursion, so that a deep call tree cannot exhaust the call stack.
pub fn try_candidate(p: isize) -> (found: Option<Match>)
    requires
        can_try(p as int),
    ensures
        found.is_some() == is_match(p as int),
        found.is_some() ==> found.unwrap()@ == record(p as int),
        found.is_some() ==> outcome(p as int).cntr != ABORTED,
{
    let mut stck: Vec<isize> = Vec::new();
    let mut reg0: isize = START_REG0;
    let mut reg1: isize = START_REG1;
    let mut cntr: isize = 0;
    solve_iterative(&mut cntr, &mut reg0, &mut reg1, p, &mut stck);
    if reg0 == TARGET {
        proof {
            lemma_match_is_completed(p as int);
        }
        Some(Match { candidate: p, reg0, reg1 })
    } else {
        None
    }
}

/// Tries every candidate from `first` up to, and without, `end`, and returns
/// the matches in the order in which they were found. It does not stop at the
/// first match. A range that ends at or before `first` holds no candidate.
pub fn sweep_range(first: isize, end: isize) -> (found: Vec<Match>)
    requires
        first < end ==> can_try(first as int),
    ensures
        views(found@) == matches_between(first as int, end as int),
        found@.len() == matches_between(first as int, end as int).len(),
{
    let mut found: Vec<Match> = Vec::new();
    let mut p: isize = first;
    while p < end
        invariant
            first <= p,
            first < end ==> p <= end && can_try(first as int),
            first >= end ==> p == first,
            views(found@) =~= matches_between(first as int, p as int),
        decreases end - p,
    {
        let ghost before = found@;
        match try_candidate(p) {
            Some(m) => {
                found.push(m);
                assert(views(found@) =~= views(before).push(m@));
            },
            None => {},
        }
        p += 1;
    }
    found
}

/// Tries every candidate of the fixed range, `0` up to, and without,
/// `CANDIDATES_END`.
pub fn sweep() -> (found: Vec<Match>)
    ensures
        views(found@) == matches_between(0, CANDIDATES_END as int),
        found@.len() == matches_between(0, CANDIDATES_END as int).len(),
{
    sweep_range(0, CANDIDATES_END)
}

} // verus!
