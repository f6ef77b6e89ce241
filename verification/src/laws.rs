//! What holds of every evaluation and of every sweep.
use vstd::prelude::*;
use crate::model::{halted, run, steps_left, Machine, ABORTED, MODULUS, STEP_CEILING};
use crate::sweeper::{
    is_match, matches_between, outcome, record, CANDIDATES_END, START_REG0, TARGET,
};

verus! {

/// Every call ends, and the counter tells how: after a call the counter is
/// the sentinel or lies beyond the counter before it, at most one past the
/// ceiling, and fewer steps are left than before.
pub proof fn lemma_counter_advances(c: int, r0: int, r1: int, p: int)
    ensures
        steps_left(run(c, r0, r1, p).cntr) <= steps_left(c),
        !halted(c) ==> steps_left(run(c, r0, r1, p).cntr) < steps_left(c),
        halted(c) ==> run(c, r0, r1, p).cntr == ABORTED,
        !halted(c) ==> run(c, r0, r1, p).cntr == ABORTED || c < run(c, r0, r1, p).cntr
            <= STEP_CEILING + 1,
    decreases steps_left(c),
{
    if halted(c) {
    } else if r0 == 0 {
    } else if r1 == 0 {
        lemma_counter_advances(c + 1, r0 - 1, p, p);
    } else {
        lemma_counter_advances(c + 1, r0, r1 - 1, p);
        let first = run(c + 1, r0, r1 - 1, p);
        lemma_counter_advances(first.cntr, r0 - 1, first.reg0, p);
    }
}

/// The branch case is two calls in a row: the second starts from the counter
/// and the first register that the first one left, with the first register of
/// the caller lowered by one.
pub proof fn lemma_branch_unfolds(c: int, r0: int, r1: int, p: int)
    requires
        !halted(c),
        r0 != 0,
        r1 != 0,
    ensures
        run(c, r0, r1, p) == run(
            run(c + 1, r0, r1 - 1, p).cntr,
            r0 - 1,
            run(c + 1, r0, r1 - 1, p).reg0,
            p,
        ),
{
    lemma_counter_advances(c + 1, r0, r1 - 1, p);
}

/// With registers and parameter between `lo` plus the steps left and `hi`,
/// the registers after the call lie between `lo` plus the steps then left
/// and `hi`.
pub proof fn lemma_run_stays_within(c: int, r0: int, r1: int, p: int, lo: int, hi: int)
    requires
        lo + steps_left(c) <= r0 <= hi,
        lo + steps_left(c) <= r1 <= hi,
        lo + steps_left(c) <= p <= hi,
        MODULUS - 1 <= hi,
    ensures
        lo + steps_left(run(c, r0, r1, p).cntr) <= run(c, r0, r1, p).reg0 <= hi,
        lo + steps_left(run(c, r0, r1, p).cntr) <= run(c, r0, r1, p).reg1 <= hi,
    decreases steps_left(c),
{
    lemma_counter_advances(c, r0, r1, p);
    if halted(c) {
    } else if r0 == 0 {
    } else if r1 == 0 {
        lemma_run_stays_within(c + 1, r0 - 1, p, p, lo, hi);
    } else {
        lemma_counter_advances(c + 1, r0, r1 - 1, p);
        lemma_run_stays_within(c + 1, r0, r1 - 1, p, lo, hi);
        let first = run(c + 1, r0, r1 - 1, p);
        lemma_run_stays_within(first.cntr, r0 - 1, first.reg0, p, lo, hi);
    }
}

/// Abort is absorbing: a call that finds the sentinel in the counter leaves
/// the sentinel there and both registers as they were.
pub proof fn lemma_abort_is_absorbing(r0: int, r1: int, p: int)
    ensures
        run(ABORTED as int, r0, r1, p) == (Machine { cntr: ABORTED as int, reg0: r0, reg1: r1 }),
{
}

/// A call that finds the counter at the sentinel or beyond the ceiling sets
/// the sentinel and leaves both registers as they were.
pub proof fn lemma_halted_call(c: int, r0: int, r1: int, p: int)
    requires
        halted(c),
    ensures
        run(c, r0, r1, p) == (Machine { cntr: ABORTED as int, reg0: r0, reg1: r1 }),
{
}

/// Once the first call of the branch case has aborted, the second does
/// nothing: the counter stays at the sentinel, and the registers are those
/// that the caller handed to the second call.
pub proof fn lemma_abort_persists(c: int, r0: int, r1: int, p: int)
    requires
        !halted(c),
        r0 != 0,
        r1 != 0,
        run(c + 1, r0, r1 - 1, p).cntr == ABORTED,
    ensures
        run(c, r0, r1, p) == (Machine {
            cntr: ABORTED as int,
            reg0: r0 - 1,
            reg1: run(c + 1, r0, r1 - 1, p).reg0,
        }),
{
    lemma_branch_unfolds(c, r0, r1, p);
}

/// The terminal step: with the first register at zero, the first register
/// becomes the second plus one, reduced by the modulus, which lies from zero
/// up to, and without, the modulus, whatever the second register held. The
/// second register stays, and the counter goes up by one.
pub proof fn lemma_base_case(c: int, r1: int, p: int)
    requires
        !halted(c),
    ensures
        run(c, 0, r1, p).reg0 == (r1 + 1) % (MODULUS as int),
        0 <= run(c, 0, r1, p).reg0 < MODULUS,
        run(c, 0, r1, p).reg1 == r1,
        run(c, 0, r1, p).cntr == c + 1,
{
}

/// Registers and parameter that start from zero up to, and without, the
/// modulus end there, whether the evaluation completes or aborts.
pub proof fn lemma_registers_stay_in_range(c: int, r0: int, r1: int, p: int)
    requires
        0 <= r0 < MODULUS,
        0 <= r1 < MODULUS,
        0 <= p < MODULUS,
    ensures
        0 <= run(c, r0, r1, p).reg0 < MODULUS,
        0 <= run(c, r0, r1, p).reg1 < MODULUS,
    decreases steps_left(c),
{
    if halted(c) {
    } else if r0 == 0 {
    } else if r1 == 0 {
        lemma_registers_stay_in_range(c + 1, r0 - 1, p, p);
    } else {
        lemma_counter_advances(c + 1, r0, r1 - 1, p);
        lemma_registers_stay_in_range(c + 1, r0, r1 - 1, p);
        let first = run(c + 1, r0, r1 - 1, p);
        lemma_registers_stay_in_range(first.cntr, r0 - 1, first.reg0, p);
    }
}

/// An evaluation that starts with a counter from zero up to the ceiling and
/// ends aborted leaves the first register below the value it started with.
pub proof fn lemma_abort_lowers_reg0(c: int, r0: int, r1: int, p: int)
    requires
        0 <= c <= STEP_CEILING,
        run(c, r0, r1, p).cntr == ABORTED,
    ensures
        run(c, r0, r1, p).reg0 < r0,
    decreases steps_left(c),
{
    if r0 == 0 {
    } else if r1 == 0 {
        if halted(c + 1) {
            lemma_halted_call(c + 1, r0 - 1, p, p);
        } else {
            lemma_abort_lowers_reg0(c + 1, r0 - 1, p, p);
        }
    } else {
        lemma_counter_advances(c + 1, r0, r1 - 1, p);
        let first = run(c + 1, r0, r1 - 1, p);
        if halted(first.cntr) {
            lemma_halted_call(first.cntr, r0 - 1, first.reg0, p);
        } else {
            lemma_abort_lowers_reg0(first.cntr, r0 - 1, first.reg0, p);
        }
    }
}

/// A candidate whose evaluation aborts is never a match: every match comes
/// from an evaluation that ran to completion.
pub proof fn lemma_match_is_completed(p: int)
    requires
        is_match(p),
    ensures
        outcome(p).cntr != ABORTED,
        0 < outcome(p).cntr <= STEP_CEILING + 1,
{
    lemma_counter_advances(0, START_REG0 as int, 1, p);
    if outcome(p).cntr == ABORTED {
        lemma_abort_lowers_reg0(0, START_REG0 as int, 1, p);
    }
}

/// The record of a match of the fixed range holds the candidate, the target,
/// and a second register from zero up to, and without, the modulus.
pub proof fn lemma_record_of_match(p: int)
    requires
        0 <= p < CANDIDATES_END,
        is_match(p),
    ensures
        record(p).candidate == p,
        record(p).reg0 == TARGET,
        0 <= record(p).reg1 < MODULUS,
{
    lemma_registers_stay_in_range(0, START_REG0 as int, 1, p);
}

/// The sweep reports exactly the matches of its range, each once and with
/// its own record, in ascending order of the candidate.
pub proof fn lemma_sweep_reports_matches(first: int, end: int)
    ensures
        forall|i: int|
            0 <= i < matches_between(first, end).len() ==> {
                let m = #[trigger] matches_between(first, end)[i];
                &&& first <= m.candidate < end
                &&& is_match(m.candidate)
                &&& m == record(m.candidate)
            },
        forall|i: int, j: int|
            0 <= i < j < matches_between(first, end).len() ==> (#[trigger] matches_between(
                first,
                end,
            )[i]).candidate < (#[trigger] matches_between(first, end)[j]).candidate,
        forall|p: int|
            first <= p < end && #[trigger] is_match(p) ==> matches_between(first, end).contains(
                record(p),
            ),
    decreases end - first,
{
    if first < end {
        lemma_sweep_reports_matches(first, end - 1);
        let shorter = matches_between(first, end - 1);
        if is_match(end - 1) {
            let all = matches_between(first, end);
            assert(all == shorter.push(record(end - 1)));
            assert forall|p: int| first <= p < end && #[trigger] is_match(p) implies all.contains(
                record(p),
            ) by {
                if p == end - 1 {
                    assert(all[shorter.len() as int] == record(p));
                } else {
                    assert(shorter.contains(record(p)));
                    let i = choose|i: int| 0 <= i < shorter.len() && shorter[i] == record(p);
                    assert(all[i] == record(p));
                }
            }
        }
    }
}

/// No record of a sweep comes from an aborted evaluation.
pub proof fn lemma_sweep_reports_no_aborted_run(first: int, end: int)
    ensures
        forall|i: int|
            0 <= i < matches_between(first, end).len() ==> outcome(
                (#[trigger] matches_between(first, end)[i]).candidate,
            ).cntr != ABORTED,
{
    lemma_sweep_reports_matches(first, end);
    assert forall|i: int| 0 <= i < matches_between(first, end).len() implies outcome(
        (#[trigger] matches_between(first, end)[i]).candidate,
    ).cntr != ABORTED by {
        lemma_match_is_completed(matches_between(first, end)[i].candidate);
    }
}

} // verus!
