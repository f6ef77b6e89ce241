//! The mathematical model of an evaluation: what the two registers and the
//! step counter hold when the outermost call returns.
use vstd::prelude::*;

verus! {

/// The counter value that marks an evaluation whose step budget is spent.
pub const ABORTED: isize = -1;

/// The largest counter value at which a call still does work.
pub const STEP_CEILING: isize = 100_000_000;

/// The modulus of the terminal computation step.
pub const MODULUS: isize = 32768;

/// What an evaluation leaves behind: the step counter and the two registers.
pub struct Machine {
    pub cntr: int,
    pub reg0: int,
    pub reg1: int,
}

/// The counter and the registers of the executable evaluator as a state of
/// the model.
pub open spec fn state(cntr: isize, reg0: isize, reg1: isize) -> Machine {
    Machine { cntr: cntr as int, reg0: reg0 as int, reg1: reg1 as int }
}

/// A call that finds the counter in this state does nothing but set the
/// sentinel.
pub open spec fn halted(c: int) -> bool {
    c == ABORTED || c > STEP_CEILING
}

/// The number of calls that can still do work when the counter stands at `c`.
/// A counter below the sentinel counts up to it; any other counts up to the
/// ceiling.
pub open spec fn steps_left(c: int) -> nat {
    if halted(c) {
        0
    } else if c < ABORTED {
        (ABORTED - c) as nat
    } else {
        (STEP_CEILING + 1 - c) as nat
    }
}

/// `x` reduced by the modulus: the one value from zero up to, and without,
/// the modulus that differs from `x` by a multiple of it.
pub open spec fn wrap(x: int) -> int {
    x % (MODULUS as int)
}

/// The state after one call of the evaluator that starts with counter `c`,
/// registers `r0` and `r1`, and parameter `p`.
///
/// The second call of the branch case starts from the counter that the first
/// one left. That counter is always further along than `c` (see
/// `lemma_counter_advances` among the laws); the test in the definition is there only
/// so that the recursion is well founded, and `lemma_branch_unfolds`
/// gives the equation without it.
pub open spec fn run(c: int, r0: int, r1: int, p: int) -> Machine
    decreases steps_left(c),
{
    if halted(c) {
        Machine { cntr: ABORTED as int, reg0: r0, reg1: r1 }
    } else if r0 == 0 {
        Machine { cntr: c + 1, reg0: wrap(r1 + 1), reg1: r1 }
    } else if r1 == 0 {
        run(c + 1, r0 - 1, p, p)
    } else {
        let first = run(c + 1, r0, r1 - 1, p);
        if steps_left(first.cntr) < steps_left(c) {
            run(first.cntr, r0 - 1, first.reg0, p)
        } else {
            first
        }
    }
}

/// The state after the outermost call, given that the innermost call has just
/// returned `m` and that `stack` holds, above its first `base` entries, the
/// first registers that the branch cases still under way have saved, the
/// innermost last. Each of them is taken back, lowered by one, and starts a
/// second call with the first register of `m` as its second.
pub open spec fn resume(m: Machine, stack: Seq<isize>, base: nat, p: int) -> Machine
    decreases stack.len(),
{
    if stack.len() <= base {
        m
    } else {
        resume(run(m.cntr, stack.last() - 1, m.reg0, p), stack.drop_last(), base, p)
    }
}

/// A call may be made: either it finds the counter halted and does nothing,
/// or the registers and the parameter leave room for every subtraction that
/// the remaining steps can make, and for the addition of the terminal step.
pub open spec fn in_range(c: int, r0: int, r1: int, p: int) -> bool {
    ||| halted(c)
    ||| {
        &&& isize::MIN + steps_left(c) <= r0 < isize::MAX
        &&& isize::MIN + steps_left(c) <= r1 < isize::MAX
        &&& isize::MIN + steps_left(c) <= p < isize::MAX
    }
}

} // verus!
