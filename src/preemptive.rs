//! The preemptive variants, stated as replays of the events of a run.
use crate::heap::{lemma_root_max, HeapTree};
use crate::engine::ShrageContext;
use crate::scan::{released_max_q, sort_by_field};
use crate::model::{
    later, lemma_max_bounds, lemma_views_q_contains, lemma_work_nonneg, lemma_work_remove,
    lemma_work_subset, max_q, max_r, times_fit, work, lemma_views_q_empty, lemma_views_q_insert,
    lemma_views_q_remove, lemma_views_r_contains, lemma_views_r_empty, lemma_views_r_remove,
    views_q, views_r,
};
use crate::task::{QInvariant, RInvariant, Task};
use vstd::multiset::Multiset;
use vstd::prelude::*;
use vstd::seq_lib::group_to_multiset_ensures;

verus! {

broadcast use group_to_multiset_ensures;

/// The state of a preemptive run: jobs not yet released, jobs released and
/// waiting (remainders of interrupted jobs among them), the time, the Cmax so
/// far, and the job that last took the machine.
pub struct PreemptState {
    pub un: Multiset<Task>,
    pub av: Multiset<Task>,
    pub t: int,
    pub cmax: int,
    pub cur: Option<Task>,
}

/// What a preemptive run does next.
pub enum PreemptEvent {
    /// The unreleased job of earliest release time, released by now, joins
    /// the waiting jobs.
    Admit(Task),
    /// Nothing waits and nothing is released: the machine idles until the
    /// release of this job.
    Idle(Task),
    /// A waiting job of largest delivery time runs to completion.
    Dispatch(Task),
}

pub open spec fn event_ok(s: PreemptState, e: PreemptEvent) -> bool {
    match e {
        PreemptEvent::Admit(x) => {
            &&& s.un.contains(x)
            &&& x.r <= s.t
            &&& forall|u: Task| #[trigger] s.un.contains(u) ==> x.r <= u.r
        },
        PreemptEvent::Idle(x) => {
            &&& s.av.len() == 0
            &&& s.un.contains(x)
            &&& forall|u: Task| #[trigger] s.un.contains(u) ==> s.t < u.r && x.r <= u.r
        },
        PreemptEvent::Dispatch(x) => {
            &&& s.av.contains(x)
            &&& forall|a: Task| #[trigger] s.av.contains(a) ==> a.q <= x.q
            &&& forall|u: Task| #[trigger] s.un.contains(u) ==> s.t < u.r
        },
    }
}

/// A newly released job `x` interrupts the job on the machine when its
/// delivery time is larger: the time goes back to `x`'s release, and what is
/// left of the interrupted job, if anything, waits again.
pub open spec fn release(s: PreemptState, x: Task) -> PreemptState {
    let un = s.un.remove(x);
    let av = s.av.insert(x);
    match s.cur {
        Some(c) => if x.q > c.q {
            let rest = Task { r: c.r, p: (s.t - x.r) as u32, q: c.q };
            PreemptState {
                un,
                av: if s.t - x.r > 0 {
                    av.insert(rest)
                } else {
                    av
                },
                t: x.r as int,
                cmax: s.cmax,
                cur: Some(rest),
            }
        } else {
            PreemptState { un, av, t: s.t, cmax: s.cmax, cur: s.cur }
        },
        None => PreemptState { un, av, t: s.t, cmax: s.cmax, cur: s.cur },
    }
}

pub open spec fn apply(s: PreemptState, e: PreemptEvent) -> PreemptState {
    match e {
        PreemptEvent::Admit(x) => release(s, x),
        PreemptEvent::Idle(x) => PreemptState { t: x.r as int, cur: None, ..s },
        PreemptEvent::Dispatch(x) => PreemptState {
            av: s.av.remove(x),
            t: s.t + x.p,
            cmax: later(s.cmax, s.t + x.p + x.q),
            cur: Some(x),
            ..s
        },
    }
}

pub open spec fn start_state(jobs: Multiset<Task>) -> PreemptState {
    PreemptState { un: jobs, av: Multiset::empty(), t: 0, cmax: 0, cur: None }
}

/// The state after the events of `trace`, if each was allowed in its turn.
pub open spec fn replay(jobs: Multiset<Task>, trace: Seq<PreemptEvent>) -> Option<PreemptState>
    decreases trace.len(),
{
    if trace.len() == 0 {
        Some(start_state(jobs))
    } else {
        match replay(jobs, trace.drop_last()) {
            Some(s) => if event_ok(s, trace.last()) {
                Some(apply(s, trace.last()))
            } else {
                None
            },
            None => None,
        }
    }
}

/// The Cmax values that the preemptive rule can give on `jobs`: those of the
/// runs that leave no job behind.
pub open spec fn preemptive_cmax(jobs: Seq<Task>, c: int) -> bool {
    exists|trace: Seq<PreemptEvent>| #[trigger]
        replay(jobs.to_multiset(), trace) matches Some(s) && s.un.len() == 0 && s.av.len() == 0
            && s.cmax == c
}

proof fn lemma_replay_push(jobs: Multiset<Task>, trace: Seq<PreemptEvent>, s: PreemptState, e: PreemptEvent)
    requires
        replay(jobs, trace) == Some(s),
        event_ok(s, e),
    ensures
        replay(jobs, trace.push(e)) == Some(apply(s, e)),
{
    assert(trace.push(e).drop_last() =~= trace);
}

/// Preemptive Schrage on the library's heaps: returns the Cmax.
pub fn schrage_preemptive_custom_heaps_cmax(tasks: Vec<Task>) -> (cmax: u32)
    requires
        times_fit(tasks@),
    ensures
        preemptive_cmax(tasks@, cmax as int),
{
    let mut ctx = ShrageContext::from_vec(&tasks);
    let mut t: u32 = 0;
    let mut cmax: u32 = 0;
    let mut current_task: Option<Task> = None;
    let ghost input = tasks@;
    let ghost jobs = tasks@.to_multiset();
    let ghost mut trace: Seq<PreemptEvent> = Seq::empty();
    let ghost mut st: PreemptState = start_state(jobs);
    let ghost mut pool: Seq<Task> = tasks@;
    let ghost bound = max_r(input) + work(input);
    proof {
        lemma_max_bounds(input);
        lemma_work_nonneg(input);
        assert(views_q(ctx.available_tasks.contents(), st.av));
        assert(st.un.add(st.av) =~= pool.to_multiset());
    }
    while !ctx.available_tasks.is_empty() || !ctx.unavailable_tasks.is_empty()
        invariant
            ctx.wf(),
            replay(jobs, trace) == Some(st),
            views_q(ctx.available_tasks.contents(), st.av),
            views_r(ctx.unavailable_tasks.contents(), st.un),
            st.t == t,
            st.cmax == cmax,
            st.cur == current_task,
            jobs == input.to_multiset(),
            st.un.subset_of(jobs),
            pool.to_multiset() == st.un.add(st.av),
            forall|y: Task| #[trigger] pool.to_multiset().contains(y) ==> y.r <= max_r(input) && y.q <= max_q(input),
            forall|c: Task| current_task == Some(c) ==> c.r <= max_r(input) && c.q <= max_q(input),
            forall|k: int| 0 <= k < input.len() ==> (#[trigger] input[k]).r <= max_r(input) && input[k].q <= max_q(input),
            t + work(pool) <= bound,
            bound == max_r(input) + work(input),
            cmax <= bound + max_q(input),
            bound + max_q(input) <= u32::MAX,
            0 <= work(pool),
        decreases
            ctx.unavailable_tasks.heap@.len(),
            ctx.available_tasks.heap@.len(),
            (if ctx.available_tasks.heap@.len() == 0 && (ctx.unavailable_tasks.heap@.len() == 0
                || t < ctx.unavailable_tasks.heap@[0].0.r) {
                1int
            } else {
                0int
            }),
    {
        let ghost u_top = ctx.unavailable_tasks.heap@.len();
        let ghost u_seq = ctx.unavailable_tasks.heap@;
        let ghost t_top = t;
        let ghost a_top = ctx.available_tasks.heap@;
        while !ctx.unavailable_tasks.is_empty() && ctx.unavailable_tasks.peek().unwrap().0.r <= t
            invariant
                ctx.wf(),
                replay(jobs, trace) == Some(st),
                views_q(ctx.available_tasks.contents(), st.av),
                views_r(ctx.unavailable_tasks.contents(), st.un),
                st.t == t,
                st.cmax == cmax,
                st.cur == current_task,
                st.un.subset_of(jobs),
                pool.to_multiset() == st.un.add(st.av),
                forall|y: Task| #[trigger] pool.to_multiset().contains(y) ==> y.r <= max_r(input) && y.q <= max_q(input),
                forall|c: Task| current_task == Some(c) ==> c.r <= max_r(input) && c.q <= max_q(input),
                t + work(pool) <= bound,
                cmax <= bound + max_q(input),
                bound + max_q(input) <= u32::MAX,
                0 <= work(pool),
                ctx.unavailable_tasks.heap@.len() <= u_top,
                ctx.unavailable_tasks.heap@.len() == u_top ==> ctx.available_tasks.heap@ == a_top
                    && ctx.unavailable_tasks.heap@ == u_seq && t == t_top,
                u_seq.len() == u_top,
                ctx.unavailable_tasks.heap@.len() < u_top ==> ctx.available_tasks.heap@.len() > 0,
                u_top > 0 || a_top.len() > 0,
            decreases ctx.unavailable_tasks.heap@.len(),
        {
            assert(ctx.unavailable_tasks.heap@[0].0.r <= t);
            let ghost um = ctx.unavailable_tasks.contents();
            let ghost am = ctx.available_tasks.contents();
            let v = ctx.unavailable_tasks.pop().unwrap();
            let task = v.0;
            ctx.available_tasks.push(QInvariant(task));
            proof {
                assert(v == RInvariant(task));
                lemma_views_r_contains(um, st.un, task);
                assert forall|u: Task| #[trigger] st.un.contains(u) implies task.r <= u.r by {
                    lemma_views_r_contains(um, st.un, u);
                }
                lemma_views_r_remove(um, st.un, task);
                lemma_views_q_insert(am, st.av, task);
                lemma_replay_push(jobs, trace, st, PreemptEvent::Admit(task));
            }
            let ghost st1 = st;
            let ghost pool1 = pool;
            match current_task {
                Some(c) => {
                    if task.q > c.q {
                        let rest = t - task.r;
                        let residual = Task { r: c.r, p: rest, q: c.q };
                        t = task.r;
                        current_task = Some(residual);
                        if rest > 0 {
                            let ghost am2 = ctx.available_tasks.contents();
                            ctx.available_tasks.push(QInvariant(residual));
                            proof {
                                lemma_views_q_insert(am2, st1.av.insert(task), residual);
                                pool = pool1.push(residual);
                                assert(pool.drop_last() == pool1);
                                assert(pool.to_multiset() == pool1.to_multiset().insert(residual));
                                assert forall|y: Task| #[trigger] pool.to_multiset().contains(y) implies y.r
                                    <= max_r(input) && y.q <= max_q(input) by {
                                    if y != residual {
                                        assert(pool1.to_multiset().contains(y));
                                    }
                                }
                            }
                        }
                    }
                },
                None => {},
            }
            proof {
                st = release(st1, task);
                trace = trace.push(PreemptEvent::Admit(task));
                assert(pool.to_multiset() =~= st.un.add(st.av));
                assert(st.un.subset_of(jobs));
            }
        }
        proof {
            let s = ctx.unavailable_tasks.heap@;
            assert forall|u: Task| #[trigger] st.un.contains(u) implies t < u.r by {
                lemma_views_r_contains(ctx.unavailable_tasks.contents(), st.un, u);
                lemma_root_max(s, s.index_of(RInvariant(u)));
            }
        }
        if ctx.available_tasks.is_empty() {
            let ghost s = ctx.unavailable_tasks.heap@;
            let nxt = ctx.unavailable_tasks.peek().unwrap().0;
            proof {
                lemma_views_q_empty(ctx.available_tasks.contents(), st.av);
                assert(s[0] == RInvariant(nxt));
                assert(ctx.unavailable_tasks.contents().contains(RInvariant(nxt)));
                lemma_views_r_contains(ctx.unavailable_tasks.contents(), st.un, nxt);
                assert forall|u: Task| #[trigger] st.un.contains(u) implies nxt.r <= u.r by {
                    lemma_views_r_contains(ctx.unavailable_tasks.contents(), st.un, u);
                    lemma_root_max(s, s.index_of(RInvariant(u)));
                }
                lemma_replay_push(jobs, trace, st, PreemptEvent::Idle(nxt));
                assert(pool.to_multiset() =~= st.un);
                assert(pool.to_multiset().subset_of(input.to_multiset()));
                lemma_work_subset(pool, input);
                assert(pool.to_multiset().contains(nxt));
            }
            t = nxt.r;
            current_task = None;
            proof {
                assert(nxt.r <= max_r(input));
                assert(work(pool) <= work(input));
                assert(t + work(pool) <= bound);
                st = apply(st, PreemptEvent::Idle(nxt));
                trace = trace.push(PreemptEvent::Idle(nxt));
            }
            continue;
        }
        let ghost am = ctx.available_tasks.contents();
        let v = ctx.available_tasks.pop().unwrap();
        let task_to_do = v.0;
        proof {
            assert(v == QInvariant(task_to_do));
            lemma_views_q_contains(am, st.av, task_to_do);
            assert forall|a: Task| #[trigger] st.av.contains(a) implies a.q <= task_to_do.q by {
                lemma_views_q_contains(am, st.av, a);
            }
            lemma_views_q_remove(am, st.av, task_to_do);
            lemma_replay_push(jobs, trace, st, PreemptEvent::Dispatch(task_to_do));
            assert(pool.to_multiset().contains(task_to_do));
            let i = pool.index_of(task_to_do);
            lemma_work_remove(pool, i);
            let pool0 = pool;
            pool = pool.remove(i);
            assert(pool.to_multiset() == pool0.to_multiset().remove(task_to_do));
            assert forall|y: Task| #[trigger] pool.to_multiset().contains(y) implies y.r <= max_r(input)
                && y.q <= max_q(input) by {
                assert(pool0.to_multiset().contains(y));
            }
        }
        t = t + task_to_do.p;
        let done = t + task_to_do.q;
        if done > cmax {
            cmax = done;
        }
        current_task = Some(task_to_do);
        proof {
            st = apply(st, PreemptEvent::Dispatch(task_to_do));
            trace = trace.push(PreemptEvent::Dispatch(task_to_do));
            assert(pool.to_multiset() =~= st.un.add(st.av));
        }
    }
    proof {
        lemma_views_r_empty(ctx.unavailable_tasks.contents(), st.un);
        lemma_views_q_empty(ctx.available_tasks.contents(), st.av);
        assert(replay(jobs, trace) matches Some(s) && s.un.len() == 0 && s.av.len() == 0 && s.cmax
            == cmax);
    }
    cmax
}

/// As `schrage_preemptive_custom_heaps_cmax`.
pub fn schrage_preemtive_custom_heaps_cmax(tasks: Vec<Task>) -> (cmax: u32)
    requires
        times_fit(tasks@),
    ensures
        preemptive_cmax(tasks@, cmax as int),
{
    schrage_preemptive_custom_heaps_cmax(tasks)
}

/// As `schrage_preemptive_custom_heaps_cmax`.
pub fn schrage_preemptive_heaps_bh_cmax(tasks: Vec<Task>) -> (cmax: u32)
    requires
        times_fit(tasks@),
    ensures
        preemptive_cmax(tasks@, cmax as int),
{
    schrage_preemptive_custom_heaps_cmax(tasks)
}

/// As `schrage_preemptive_custom_heaps_cmax`.
pub fn schrage_preemptive_heaps_std_cmax(tasks: Vec<Task>) -> (cmax: u32)
    requires
        times_fit(tasks@),
    ensures
        preemptive_cmax(tasks@, cmax as int),
{
    schrage_preemptive_custom_heaps_cmax(tasks)
}

/// Preemptive Schrage on plain lists, a second implementation of the same
/// rule: the unreleased jobs sorted by release time are released in that
/// order, each compared with the job on the machine, and the waiting job of
/// largest delivery time is found by a scan. Returns the Cmax.
pub fn schrage_preemptive_vecs_cmax(tasks: Vec<Task>) -> (cmax: u32)
    requires
        times_fit(tasks@),
    ensures
        preemptive_cmax(tasks@, cmax as int),
{
    let ghost input = tasks@;
    let ghost jobs = tasks@.to_multiset();
    let mut unreleased = tasks;
    sort_by_field(&mut unreleased, false);
    let mut available: Vec<Task> = Vec::new();
    let mut t: u32 = 0;
    let mut cmax: u32 = 0;
    let mut current_task: Option<Task> = None;
    let ghost mut trace: Seq<PreemptEvent> = Seq::empty();
    let ghost mut st: PreemptState = start_state(jobs);
    let ghost mut pool: Seq<Task> = input;
    let ghost bound = max_r(input) + work(input);
    proof {
        lemma_max_bounds(input);
        lemma_work_nonneg(input);
        assert(st.un.add(st.av) =~= pool.to_multiset());
        assert(available@.to_multiset() =~= st.av);
    }
    while !available.is_empty() || !unreleased.is_empty()
        invariant
            replay(jobs, trace) == Some(st),
            st.un == unreleased@.to_multiset(),
            st.av == available@.to_multiset(),
            forall|i: int, j: int|
                0 <= i < j < unreleased@.len() ==> unreleased@[i].r <= unreleased@[j].r,
            st.t == t,
            st.cmax == cmax,
            st.cur == current_task,
            jobs == input.to_multiset(),
            st.un.subset_of(jobs),
            pool.to_multiset() == st.un.add(st.av),
            forall|y: Task| #[trigger] pool.to_multiset().contains(y) ==> y.r <= max_r(input) && y.q <= max_q(input),
            forall|c: Task| current_task == Some(c) ==> c.r <= max_r(input) && c.q <= max_q(input),
            t + work(pool) <= bound,
            bound == max_r(input) + work(input),
            cmax <= bound + max_q(input),
            bound + max_q(input) <= u32::MAX,
            0 <= work(pool),
        decreases
            unreleased@.len(),
            available@.len(),
            (if available@.len() == 0 && (unreleased@.len() == 0 || t < unreleased@[0].r) {
                1int
            } else {
                0int
            }),
    {
        let ghost u_top = unreleased@;
        let ghost t_top = t;
        let ghost a_top = available@;
        while !unreleased.is_empty() && unreleased[0].r <= t
            invariant
                replay(jobs, trace) == Some(st),
                st.un == unreleased@.to_multiset(),
                st.av == available@.to_multiset(),
                forall|i: int, j: int|
                    0 <= i < j < unreleased@.len() ==> unreleased@[i].r <= unreleased@[j].r,
                st.t == t,
                st.cmax == cmax,
                st.cur == current_task,
                st.un.subset_of(jobs),
                pool.to_multiset() == st.un.add(st.av),
                forall|y: Task| #[trigger] pool.to_multiset().contains(y) ==> y.r <= max_r(input) && y.q <= max_q(input),
                forall|c: Task| current_task == Some(c) ==> c.r <= max_r(input) && c.q <= max_q(input),
                t + work(pool) <= bound,
                cmax <= bound + max_q(input),
                bound + max_q(input) <= u32::MAX,
                0 <= work(pool),
                unreleased@.len() <= u_top.len(),
                unreleased@.len() == u_top.len() ==> available@ == a_top && unreleased@ == u_top
                    && t == t_top,
                unreleased@.len() < u_top.len() ==> available@.len() > 0,
                u_top.len() > 0 || a_top.len() > 0,
            decreases unreleased@.len(),
        {
            let ghost u0 = unreleased@;
            let task = unreleased.remove(0);
            available.push(task);
            proof {
                assert(u0[0] == task);
                assert(u0.to_multiset().contains(task));
                assert forall|u: Task| #[trigger] st.un.contains(u) implies task.r <= u.r by {
                    assert(u0[u0.index_of(u)] == u);
                }
                assert(unreleased@ =~= u0.remove(0));
                lemma_replay_push(jobs, trace, st, PreemptEvent::Admit(task));
            }
            let ghost st1 = st;
            let ghost pool1 = pool;
            match current_task {
                Some(c) => {
                    if task.q > c.q {
                        let rest = t - task.r;
                        let residual = Task { r: c.r, p: rest, q: c.q };
                        t = task.r;
                        current_task = Some(residual);
                        if rest > 0 {
                            available.push(residual);
                            proof {
                                pool = pool1.push(residual);
                                assert(pool.drop_last() == pool1);
                                assert(pool.to_multiset() == pool1.to_multiset().insert(residual));
                                assert forall|y: Task| #[trigger] pool.to_multiset().contains(y) implies y.r
                                    <= max_r(input) && y.q <= max_q(input) by {
                                    if y != residual {
                                        assert(pool1.to_multiset().contains(y));
                                    }
                                }
                            }
                        }
                    }
                },
                None => {},
            }
            proof {
                st = release(st1, task);
                trace = trace.push(PreemptEvent::Admit(task));
                assert(st.av =~= available@.to_multiset());
                assert(pool.to_multiset() =~= st.un.add(st.av));
                assert(st.un.subset_of(jobs));
            }
        }
        proof {
            let u = unreleased@;
            assert forall|x: Task| #[trigger] st.un.contains(x) implies t < x.r by {
                assert(u[u.index_of(x)] == x);
            }
        }
        if available.is_empty() {
            let nxt = unreleased[0];
            proof {
                let u = unreleased@;
                assert(st.av =~= Multiset::empty());
                assert(u.to_multiset().contains(nxt));
                assert forall|x: Task| #[trigger] st.un.contains(x) implies nxt.r <= x.r by {
                    assert(u[u.index_of(x)] == x);
                }
                lemma_replay_push(jobs, trace, st, PreemptEvent::Idle(nxt));
                assert(pool.to_multiset() =~= st.un);
                assert(pool.to_multiset().subset_of(input.to_multiset()));
                lemma_work_subset(pool, input);
                assert(pool.to_multiset().contains(nxt));
            }
            t = nxt.r;
            current_task = None;
            proof {
                st = apply(st, PreemptEvent::Idle(nxt));
                trace = trace.push(PreemptEvent::Idle(nxt));
            }
            continue;
        }
        let idx = match released_max_q(&available, u32::MAX) {
            Some(i) => i,
            None => {
                proof {
                    assert(u32::MAX < available@[0].r);
                }
                return cmax;
            },
        };
        let ghost a0 = available@;
        let task_to_do = available.remove(idx);
        proof {
            assert(a0[idx as int] == task_to_do);
            assert(a0.to_multiset().contains(task_to_do));
            assert forall|a: Task| #[trigger] st.av.contains(a) implies a.q <= task_to_do.q by {
                let k = a0.index_of(a);
                assert(a0[k] == a);
                assert(a0[k].r <= u32::MAX);
            }
            lemma_replay_push(jobs, trace, st, PreemptEvent::Dispatch(task_to_do));
            assert(pool.to_multiset().contains(task_to_do));
            let i = pool.index_of(task_to_do);
            lemma_work_remove(pool, i);
            let pool0 = pool;
            pool = pool.remove(i);
            assert(pool.to_multiset() == pool0.to_multiset().remove(task_to_do));
            assert forall|y: Task| #[trigger] pool.to_multiset().contains(y) implies y.r <= max_r(input)
                && y.q <= max_q(input) by {
                assert(pool0.to_multiset().contains(y));
            }
        }
        t = t + task_to_do.p;
        let done = t + task_to_do.q;
        if done > cmax {
            cmax = done;
        }
        current_task = Some(task_to_do);
        proof {
            st = apply(st, PreemptEvent::Dispatch(task_to_do));
            trace = trace.push(PreemptEvent::Dispatch(task_to_do));
            assert(st.av =~= available@.to_multiset());
            assert(pool.to_multiset() =~= st.un.add(st.av));
        }
    }
    proof {
        assert(st.un =~= Multiset::empty());
        assert(st.av =~= Multiset::empty());
        assert(replay(jobs, trace) matches Some(s) && s.un.len() == 0 && s.av.len() == 0 && s.cmax
            == cmax);
    }
    cmax
}

} // verus!
