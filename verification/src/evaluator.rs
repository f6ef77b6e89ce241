//! The executable evaluator.
use vstd::prelude::*;
use crate::laws::{lemma_branch_unfolds, lemma_counter_advances, lemma_run_stays_within};
use crate::model::{
    halted, in_range, resume, run, state, steps_left, wrap, ABORTED, MODULUS, STEP_CEILING,
};

verus! {

/// Reduces `x` by the modulus. The result is never negative, whatever the sign
/// of `x`.
pub fn reduce(x: isize) -> (r: isize)
    ensures
        r == wrap(x as int),
        0 <= r < MODULUS,
{
    let rem: isize = x % MODULUS;
    if rem < 0 {
        rem + MODULUS
    } else {
        rem
    }
}

/// One call of the evaluator. The result is left in `reg0` and `reg1`; `cntr`
/// counts the calls that did work and becomes the sentinel once the budget is
/// spent. A call that finds the counter halted sets the sentinel and touches
/// nothing else. `stck` keeps `reg0` across the first call of the branch case
/// and holds on return what it held on entry, whether or not the evaluation
/// aborted.
pub fn solve(
    cntr: &mut isize,
    reg0: &mut isize,
    reg1: &mut isize,
    reg7: isize,
    stck: &mut Vec<isize>,
)
    requires
        in_range(*old(cntr) as int, *old(reg0) as int, *old(reg1) as int, reg7 as int),
    ensures
        state(*final(cntr), *final(reg0), *final(reg1)) == run(
            *old(cntr) as int,
            *old(reg0) as int,
            *old(reg1) as int,
            reg7 as int,
        ),
        halted(*old(cntr) as int) ==> state(*final(cntr), *final(reg0), *final(reg1)) == state(
            ABORTED,
            *old(reg0),
            *old(reg1),
        ),
        final(stck)@ == old(stck)@,
    decreases steps_left(*old(cntr) as int),
{
    if *cntr == ABORTED || *cntr > STEP_CEILING {
        *cntr = ABORTED;
        return ;
    }
    let ghost c0 = *cntr as int;
    let ghost a0 = *reg0 as int;
    let ghost b0 = *reg1 as int;
    *cntr += 1;

    if *reg0 == 0 {
        *reg0 = reduce(*reg1 + 1);
    } else if *reg1 == 0 {
        *reg0 -= 1;
        *reg1 = reg7;
        solve(cntr, reg0, reg1, reg7, stck);
    } else {
        stck.push(*reg0);
        *reg1 -= 1;
        proof {
            lemma_counter_advances(c0 + 1, a0, b0 - 1, reg7 as int);
            if !halted(c0 + 1) {
                lemma_run_stays_within(
                    c0 + 1,
                    a0,
                    b0 - 1,
                    reg7 as int,
                    isize::MIN as int,
                    isize::MAX - 1,
                );
            }
        }
        solve(cntr, reg0, reg1, reg7, stck);
        *reg1 = *reg0;
        *reg0 = stck.pop().unwrap();
        *reg0 -= 1;
        solve(cntr, reg0, reg1, reg7, stck);
    }
}

/// The evaluator without recursion: the same result as [`solve`] for the same
/// arguments, with `stck` as the only record of the calls under way, so that
/// the depth of the call tree costs heap and no call stack.
pub fn solve_iterative(
    cntr: &mut isize,
    reg0: &mut isize,
    reg1: &mut isize,
    reg7: isize,
    stck: &mut Vec<isize>,
)
    requires
        in_range(*old(cntr) as int, *old(reg0) as int, *old(reg1) as int, reg7 as int),
    ensures
        state(*final(cntr), *final(reg0), *final(reg1)) == run(
            *old(cntr) as int,
            *old(reg0) as int,
            *old(reg1) as int,
            reg7 as int,
        ),
        halted(*old(cntr) as int) ==> state(*final(cntr), *final(reg0), *final(reg1)) == state(
            ABORTED,
            *old(reg0),
            *old(reg1),
        ),
        final(stck)@ == old(stck)@,
{
    let ghost goal = run(*cntr as int, *reg0 as int, *reg1 as int, reg7 as int);
    let ghost entry = stck@;
    let base: usize = stck.len();
    let mut done: bool = false;
    while !done
        invariant
            stck@.len() >= base,
            base == entry.len(),
            stck@.subrange(0, base as int) == entry,
            forall|i: int|
                base <= i < stck@.len() ==> {
                    isize::MIN + steps_left(*cntr as int) < #[trigger] stck@[i] < isize::MAX
                },
            !done ==> in_range(*cntr as int, *reg0 as int, *reg1 as int, reg7 as int),
            !done ==> resume(
                run(*cntr as int, *reg0 as int, *reg1 as int, reg7 as int),
                stck@,
                base as nat,
                reg7 as int,
            ) == goal,
            done ==> stck@.len() == base && goal == state(*cntr, *reg0, *reg1),
        decreases steps_left(*cntr as int), stck@.len(), if done { 0int } else { 1int },
    {
        let ghost c = *cntr as int;
        let ghost a = *reg0 as int;
        let ghost b = *reg1 as int;
        let ghost saved = stck@;
        let mut returned: bool = false;
        if *cntr == ABORTED || *cntr > STEP_CEILING {
            *cntr = ABORTED;
            returned = true;
        } else {
            *cntr += 1;
            if *reg0 == 0 {
                *reg0 = reduce(*reg1 + 1);
                returned = true;
            } else if *reg1 == 0 {
                *reg0 -= 1;
                *reg1 = reg7;
            } else {
                stck.push(*reg0);
                *reg1 -= 1;
                proof {
                    lemma_branch_unfolds(c, a, b, reg7 as int);
                    assert(stck@.drop_last() == saved);
                    assert(stck@.subrange(0, base as int) == saved.subrange(0, base as int));
                }
            }
        }
        if returned {
            if stck.len() > base {
                *reg1 = *reg0;
                *reg0 = stck.pop().unwrap();
                *reg0 -= 1;
                proof {
                    assert(stck@ == saved.drop_last());
                    assert(stck@.subrange(0, base as int) == saved.subrange(0, base as int));
                }
            } else {
                done = true;
            }
        }
    }
    proof {
        assert(stck@ == stck@.subrange(0, base as int));
    }
}

} // verus!
