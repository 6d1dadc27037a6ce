//! Schrage's rule on two heaps: one of unreleased jobs by release time, one
//! of released jobs by delivery time.
use crate::heap::{after_pop, heapified, lemma_root_max, lifted, HeapTree};
use crate::model::{
    cmax_of, end_time, is_schrage_order, later, lemma_dispatch, lemma_prefix_empty, lemma_prefix_push, lemma_push_time,
    lemma_step_fits, lemma_views_q_contains, lemma_views_q_empty, lemma_views_q_insert,
    lemma_views_q_remove, lemma_views_r_contains, lemma_views_r_empty, lemma_views_r_remove,
    max_r, schrage_cmax, schrage_prefix, times_fit, views_q, views_r, work,
};
use crate::task::{QInvariant, RInvariant, Task};
use vstd::multiset::Multiset;
use vstd::prelude::*;
use vstd::seq_lib::group_to_multiset_ensures;

verus! {

broadcast use group_to_multiset_ensures;

/// The release-time views of `tasks`, in order.
pub open spec fn r_views(tasks: Seq<Task>) -> Seq<RInvariant> {
    tasks.map_values(|t: Task| RInvariant(t))
}

/// The order and Cmax that the two-heap run reaches from the heap arrays `u`
/// (not yet released) and `a` (released) at time `t`, having run `order`
/// with Cmax `cmax` so far. Each step releases the root of `u` if it is due,
/// else runs the root of `a`, else idles until the release at the root of `u`.
pub open spec fn heap_run(
    u: Seq<RInvariant>,
    a: Seq<QInvariant>,
    t: int,
    order: Seq<Task>,
    cmax: int,
) -> (Seq<Task>, int)
    decreases
            u.len(),
            a.len(),
            (if a.len() == 0 && (u.len() == 0 || t < u[0].0.r) {
                1int
            } else {
                0int
            }),
{
    if u.len() > 0 && u[0].0.r <= t {
        if after_pop(u).len() < u.len() {
            heap_run(after_pop(u), lifted(a.push(QInvariant(u[0].0)), a.len() as int), t, order, cmax)
        } else {
            (order, cmax)
        }
    } else if a.len() > 0 {
        let x = a[0].0;
        if after_pop(a).len() < a.len() {
            heap_run(u, after_pop(a), t + x.p, order.push(x), later(cmax, t + x.p + x.q))
        } else {
            (order, cmax)
        }
    } else if u.len() > 0 {
        heap_run(u, a, u[0].0.r as int, order, cmax)
    } else {
        (order, cmax)
    }
}

/// The order and Cmax of the two-heap run on `tasks`.
pub open spec fn heap_result(tasks: Seq<Task>) -> (Seq<Task>, int) {
    let u = r_views(tasks);
    heap_run(heapified(u, (u.len() / 2 + 1) as int), Seq::empty(), 0, Seq::empty(), 0)
}

/// The two heaps of a run: jobs already released, by delivery time, and jobs
/// not yet released, by release time.
#[derive(Debug)]
pub struct ShrageContext {
    pub available_tasks: HeapTree<QInvariant>,
    pub unavailable_tasks: HeapTree<RInvariant>,
}

impl ShrageContext {
    pub open spec fn wf(&self) -> bool {
        self.available_tasks.wf() && self.unavailable_tasks.wf()
    }

    pub fn new() -> (c: ShrageContext)
        ensures
            c.wf(),
            c.available_tasks.heap@.len() == 0,
            c.unavailable_tasks.heap@.len() == 0,
    {
        ShrageContext { unavailable_tasks: HeapTree::new(), available_tasks: HeapTree::new() }
    }

    /// Every job starts out not yet released.
    pub fn from_vec(tasks: &Vec<Task>) -> (c: ShrageContext)
        ensures
            c.wf(),
            c.available_tasks.heap@.len() == 0,
            views_r(c.unavailable_tasks.contents(), tasks@.to_multiset()),
            c.unavailable_tasks.heap@ == heapified(
                r_views(tasks@),
                (tasks@.len() / 2 + 1) as int,
            ),
    {
        let mut views: Vec<RInvariant> = Vec::new();
        let mut i: usize = 0;
        while i < tasks.len()
            invariant
                i <= tasks@.len(),
                views_r(views@.to_multiset(), tasks@.subrange(0, i as int).to_multiset()),
                views@ == r_views(tasks@.subrange(0, i as int)),
            decreases tasks@.len() - i,
        {
            let ghost before = views@;
            views.push(RInvariant(tasks[i]));
            proof {
                assert(tasks@.subrange(0, i + 1) =~= tasks@.subrange(0, i as int).push(tasks@[i as int]));
                assert(views@ == before.push(RInvariant(tasks@[i as int])));
                assert(views@ =~= r_views(tasks@.subrange(0, i + 1)));
            }
            i = i + 1;
        }
        proof {
            assert(tasks@.subrange(0, tasks@.len() as int) =~= tasks@);
        }
        ShrageContext { unavailable_tasks: HeapTree::from_vec(views), available_tasks: HeapTree::new() }
    }
}

/// Schrage's rule on two heaps: returns the dispatch order and its Cmax.
pub fn shrage_heaps(tasks: Vec<Task>) -> (res: (Vec<Task>, u32))
    requires
        times_fit(tasks@),
    ensures
        is_schrage_order(tasks@, res.0@),
        res.1 == cmax_of(res.0@),
        (res.0@, res.1 as int) == heap_result(tasks@),
{
    let mut ctx = ShrageContext::from_vec(&tasks);
    let mut t: u32 = 0;
    let mut cmax: u32 = 0;
    let mut order: Vec<Task> = Vec::new();
    let ghost jobs = tasks@.to_multiset();
    let ghost mut un: Multiset<Task> = jobs;
    let ghost mut av: Multiset<Task> = Multiset::empty();
    proof {
        lemma_prefix_empty(jobs);
        assert(ctx.available_tasks.heap@ =~= Seq::<QInvariant>::empty());
        assert(order@ =~= Seq::<Task>::empty());
        assert(r_views(tasks@).len() == tasks@.len());
        assert(views_q(ctx.available_tasks.contents(), av));
        assert(un.add(av).add(order@.to_multiset()) =~= jobs);
    }
    while !ctx.available_tasks.is_empty() || !ctx.unavailable_tasks.is_empty()
        invariant
            ctx.wf(),
            views_q(ctx.available_tasks.contents(), av),
            views_r(ctx.unavailable_tasks.contents(), un),
            un.add(av).add(order@.to_multiset()) == jobs,
            jobs == tasks@.to_multiset(),
            schrage_prefix(jobs, order@),
            heap_run(ctx.unavailable_tasks.heap@, ctx.available_tasks.heap@, t as int, order@, cmax as int)
                == heap_result(tasks@),
            forall|a: Task| #[trigger] av.contains(a) ==> a.r <= t,
            0 <= end_time(order@) <= t,
            t > end_time(order@) ==> forall|j: Task| #[trigger] un.add(av).contains(j) ==> t <= j.r,
            cmax == cmax_of(order@),
            end_time(order@) <= max_r(tasks@) + work(order@),
            times_fit(tasks@),
        decreases
            ctx.unavailable_tasks.heap@.len() + ctx.available_tasks.heap@.len(),
            (if ctx.available_tasks.heap@.len() == 0 && (ctx.unavailable_tasks.heap@.len() == 0
                || t < ctx.unavailable_tasks.heap@[0].0.r) {
                1int
            } else {
                0int
            }),
    {
        let ghost u_top = ctx.unavailable_tasks.heap@;
        let ghost a_top = ctx.available_tasks.heap@.len();
        let ghost sum_top = ctx.unavailable_tasks.heap@.len() + ctx.available_tasks.heap@.len();
        while !ctx.unavailable_tasks.is_empty() && ctx.unavailable_tasks.peek().unwrap().0.r <= t
            invariant
                ctx.wf(),
                views_q(ctx.available_tasks.contents(), av),
                views_r(ctx.unavailable_tasks.contents(), un),
                un.add(av).add(order@.to_multiset()) == jobs,
                forall|a: Task| #[trigger] av.contains(a) ==> a.r <= t,
                t > end_time(order@) ==> forall|j: Task| #[trigger] un.add(av).contains(j) ==> t
                    <= j.r,
                heap_run(ctx.unavailable_tasks.heap@, ctx.available_tasks.heap@, t as int, order@, cmax as int)
                    == heap_result(tasks@),
                ctx.unavailable_tasks.heap@.len() + ctx.available_tasks.heap@.len() == sum_top,
                ctx.available_tasks.heap@.len() >= a_top,
                ctx.available_tasks.heap@.len() == 0 ==> ctx.unavailable_tasks.heap@ == u_top,
            decreases ctx.unavailable_tasks.heap@.len(),
        {
            let ghost um = ctx.unavailable_tasks.contents();
            let ghost am = ctx.available_tasks.contents();
            assert(ctx.unavailable_tasks.heap@[0].0.r <= t);
            let v = ctx.unavailable_tasks.pop().unwrap();
            let task = v.0;
            ctx.available_tasks.push(QInvariant(task));
            proof {
                assert(v == RInvariant(task));
                assert forall|a: Task| #[trigger] av.insert(task).contains(a) implies a.r <= t by {
                    if a != task {
                        assert(av.contains(a));
                    }
                }
                lemma_views_r_contains(um, un, task);
                lemma_views_r_remove(um, un, task);
                lemma_views_q_insert(am, av, task);
                assert(un.remove(task).add(av.insert(task)) =~= un.add(av));
                un = un.remove(task);
                av = av.insert(task);
            }
        }
        proof {
            let s = ctx.unavailable_tasks.heap@;
            assert forall|u: Task| #[trigger] un.contains(u) implies t < u.r by {
                lemma_views_r_contains(ctx.unavailable_tasks.contents(), un, u);
                lemma_root_max(s, s.index_of(RInvariant(u)));
            }
        }
        if ctx.available_tasks.is_empty() {
            proof {
                lemma_views_q_empty(ctx.available_tasks.contents(), av);
                assert(un.add(av) =~= un);
            }
            let ghost s = ctx.unavailable_tasks.heap@;
            t = ctx.unavailable_tasks.peek().unwrap().0.r;
            proof {
                assert forall|j: Task| #[trigger] un.add(av).contains(j) implies t <= j.r by {
                    lemma_views_r_contains(ctx.unavailable_tasks.contents(), un, j);
                    lemma_root_max(s, s.index_of(RInvariant(j)));
                }
            }
            continue;
        }
        let ghost am = ctx.available_tasks.contents();
        let ghost o = order@;
        let v = ctx.available_tasks.pop().unwrap();
        let task = v.0;
        proof {
            assert(v == QInvariant(task));
            lemma_views_q_contains(am, av, task);
            assert forall|a: Task| #[trigger] av.contains(a) implies a.r <= t && a.q <= task.q by {
                lemma_views_q_contains(am, av, a);
            }
            lemma_dispatch(jobs, un, av, o, t as int, task);
            lemma_push_time(o, task);
            lemma_step_fits(tasks@, o, t as int, task);
            lemma_views_q_remove(am, av, task);
        }
        t = t + task.p;
        let done = t + task.q;
        if done > cmax {
            cmax = done;
        }
        order.push(task);
        proof {
            lemma_prefix_push(jobs, o, task);
            assert forall|a: Task| #[trigger] av.remove(task).contains(a) implies a.r <= t by {
                assert(av.contains(a));
            }
            av = av.remove(task);
        }
    }
    proof {
        lemma_views_r_empty(ctx.unavailable_tasks.contents(), un);
        lemma_views_q_empty(ctx.available_tasks.contents(), av);
        assert(order@.to_multiset() =~= jobs);
    }
    (order, cmax)
}

/// Schrage's rule on the library's heap: the dispatch order and its Cmax.
pub fn schrage_custom_heaps(tasks: Vec<Task>) -> (res: (Vec<Task>, u32))
    requires
        times_fit(tasks@),
    ensures
        is_schrage_order(tasks@, res.0@),
        res.1 == cmax_of(res.0@),
        (res.0@, res.1 as int) == heap_result(tasks@),
{
    shrage_heaps(tasks)
}

/// Schrage's rule on the library's heap: the Cmax alone.
pub fn schrage_custom_heaps_cmax(tasks: Vec<Task>) -> (cmax: u32)
    requires
        times_fit(tasks@),
    ensures
        schrage_cmax(tasks@, cmax as int),
        cmax == heap_result(tasks@).1,
{
    let ghost jobs = tasks@;
    let (order, cmax) = shrage_heaps(tasks);
    proof {
        assert(is_schrage_order(jobs, order@) && cmax == cmax_of(order@));
    }
    cmax
}

/// The order and Cmax of Schrage's rule, as `schrage_custom_heaps`.
pub fn schrage_heaps_std(tasks: Vec<Task>) -> (res: (Vec<Task>, u32))
    requires
        times_fit(tasks@),
    ensures
        is_schrage_order(tasks@, res.0@),
        res.1 == cmax_of(res.0@),
        (res.0@, res.1 as int) == heap_result(tasks@),
{
    shrage_heaps(tasks)
}

/// The Cmax of Schrage's rule, as `schrage_custom_heaps_cmax`.
pub fn schrage_heaps_std_cmax(tasks: Vec<Task>) -> (cmax: u32)
    requires
        times_fit(tasks@),
    ensures
        schrage_cmax(tasks@, cmax as int),
        cmax == heap_result(tasks@).1,
{
    schrage_custom_heaps_cmax(tasks)
}

/// The order and Cmax of Schrage's rule, as `schrage_custom_heaps`.
pub fn schrage_heaps_bh(tasks: Vec<Task>) -> (res: (Vec<Task>, u32))
    requires
        times_fit(tasks@),
    ensures
        is_schrage_order(tasks@, res.0@),
        res.1 == cmax_of(res.0@),
        (res.0@, res.1 as int) == heap_result(tasks@),
{
    shrage_heaps(tasks)
}

/// The Cmax of Schrage's rule, as `schrage_custom_heaps_cmax`.
pub fn schrage_heaps_bh_cmax(tasks: Vec<Task>) -> (cmax: u32)
    requires
        times_fit(tasks@),
    ensures
        schrage_cmax(tasks@, cmax as int),
        cmax == heap_result(tasks@).1,
{
    schrage_custom_heaps_cmax(tasks)
}

/// Two runs of the heap engine on two copies of the same jobs give the same
/// order and the same Cmax: the run is a function of its input.
pub proof fn lemma_heap_runs_repeatable(a: Seq<Task>, b: Seq<Task>)
    requires
        a == b,
    ensures
        heap_result(a) == heap_result(b),
{
}

} // verus!
