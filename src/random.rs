//! Random job collections for timing runs.
use crate::task::Task;
use core::ops::Range;
use rand::rngs::ThreadRng;
use rand::Rng;
use vstd::prelude::*;

verus! {

#[verifier::external_type_specification]
#[verifier::external_body]
pub struct ExThreadRng(ThreadRng);

/// Relies on `rand::thread_rng`: a handle to the thread's random generator.
#[verifier::external_body]
fn new_rng() -> ThreadRng {
    rand::thread_rng()
}

/// Relies on `Rng::gen_range` (rand 0.8): a value of the half-open range
/// `lo..hi`; it panics on an empty range, which `requires` rules out.
#[verifier::external_body]
fn draw(rng: &mut ThreadRng, lo: u32, hi: u32) -> (v: u32)
    requires
        lo < hi,
    ensures
        lo <= v < hi,
{
    rng.gen_range(lo..hi)
}

/// The job drawn into `t` lies in the three ranges.
pub open spec fn task_in(t: Task, r_vals: Range<u32>, p_vals: Range<u32>, q_vals: Range<u32>) -> bool {
    &&& r_vals.start <= t.r < r_vals.end
    &&& p_vals.start <= t.p < p_vals.end
    &&& q_vals.start <= t.q < q_vals.end
}

/// `amount` jobs, each with `r`, `p` and `q` drawn uniformly from their ranges.
pub fn gen_uniform(
    amount: usize,
    r_vals: &Range<u32>,
    p_vals: &Range<u32>,
    q_vals: &Range<u32>,
) -> (tasks: Vec<Task>)
    requires
        r_vals.start < r_vals.end,
        p_vals.start < p_vals.end,
        q_vals.start < q_vals.end,
    ensures
        tasks@.len() == amount,
        forall|k: int| 0 <= k < amount ==> task_in(#[trigger] tasks@[k], *r_vals, *p_vals, *q_vals),
{
    let mut rng = new_rng();
    let mut tasks: Vec<Task> = Vec::new();
    let mut i: usize = 0;
    while i < amount
        invariant
            i <= amount,
            tasks@.len() == i,
            r_vals.start < r_vals.end,
            p_vals.start < p_vals.end,
            q_vals.start < q_vals.end,
            forall|k: int| 0 <= k < i ==> task_in(#[trigger] tasks@[k], *r_vals, *p_vals, *q_vals),
        decreases amount - i,
    {
        let r = draw(&mut rng, r_vals.start, r_vals.end);
        let p = draw(&mut rng, p_vals.start, p_vals.end);
        let q = draw(&mut rng, q_vals.start, q_vals.end);
        tasks.push(Task { r, p, q });
        i = i + 1;
    }
    tasks
}

/// Job collections of growing size for timing runs: for `n` = 1, 1 + `step_by`,
/// ... up to `mutiplier_higher_bound`, `10 * n` jobs with `r`, `p`, `q` drawn
/// from `0..bound_r`, `0..bound_p`, `0..bound_q`.
pub fn gen_tasks(
    mutiplier_higher_bound: u32,
    step_by: usize,
    bound_r: u32,
    bound_p: u32,
    bound_q: u32,
) -> (sets: Vec<Vec<Task>>)
    requires
        step_by > 0,
        bound_r > 0,
        bound_p > 0,
        bound_q > 0,
        10 * (mutiplier_higher_bound as int) <= usize::MAX,
    ensures
        forall|k: int|
            0 <= k < sets@.len() ==> (#[trigger] sets@[k])@.len() == 10 * (1 + k * step_by),
        sets@.len() > 0 ==> 1 + (sets@.len() - 1) * step_by <= mutiplier_higher_bound,
        1 + sets@.len() * step_by > mutiplier_higher_bound,
        forall|k: int, j: int|
            0 <= k < sets@.len() && 0 <= j < sets@[k]@.len() ==> {
                let t = #[trigger] sets@[k]@[j];
                t.r < bound_r && t.p < bound_p && t.q < bound_q
            },
{
    let mut sets: Vec<Vec<Task>> = Vec::new();
    let mut n: u32 = 1;
    let r_vals = 0..bound_r;
    let p_vals = 0..bound_p;
    let q_vals = 0..bound_q;
    proof {
        assert(1 + sets@.len() * step_by == 1) by (nonlinear_arith)
            requires
                sets@.len() == 0;
    }
    while n <= mutiplier_higher_bound
        invariant_except_break
            n as int == 1 + sets@.len() * step_by,
        invariant
            1 <= n,
            step_by > 0,
            10 * (mutiplier_higher_bound as int) <= usize::MAX,
            r_vals.start == 0 && r_vals.end == bound_r,
            p_vals.start == 0 && p_vals.end == bound_p,
            q_vals.start == 0 && q_vals.end == bound_q,
            bound_r > 0 && bound_p > 0 && bound_q > 0,
            forall|k: int|
                0 <= k < sets@.len() ==> (#[trigger] sets@[k])@.len() == 10 * (1 + k * step_by),
            sets@.len() > 0 ==> 1 + (sets@.len() - 1) * step_by <= mutiplier_higher_bound,
            forall|k: int, j: int|
                0 <= k < sets@.len() && 0 <= j < sets@[k]@.len() ==> {
                    let t = #[trigger] sets@[k]@[j];
                    t.r < bound_r && t.p < bound_p && t.q < bound_q
                },
        ensures
            1 + sets@.len() * step_by > mutiplier_higher_bound,
        decreases mutiplier_higher_bound + 1 - n,
    {
        let amount = 10 * (n as usize);
        let tasks = gen_uniform(amount, &r_vals, &p_vals, &q_vals);
        let ghost old_sets = sets@;
        sets.push(tasks);
        proof {
            assert(1 + (sets@.len() - 1) * step_by == n) by (nonlinear_arith)
                requires
                    n as int == 1 + old_sets.len() * step_by,
                    sets@.len() == old_sets.len() + 1;
            assert(sets@[old_sets.len() as int] == tasks);
        }
        if step_by > (mutiplier_higher_bound - n) as usize {
            proof {
                assert(1 + sets@.len() * step_by == n + step_by) by (nonlinear_arith)
                    requires
                        n as int == 1 + (sets@.len() - 1) * step_by;
            }
            break;
        }
        n = n + step_by as u32;
        proof {
            assert(n as int == 1 + sets@.len() * step_by) by (nonlinear_arith)
                requires
                    n as int == 1 + (sets@.len() - 1) * step_by + step_by;
        }
    }
    sets
}

} // verus!
