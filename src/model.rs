//! The mathematical model of a schedule: end time, Cmax, Schrage's choice
//! rule, and the laws that follow from it.
use crate::task::{QInvariant, RInvariant, Task};
use vstd::multiset::Multiset;
use vstd::prelude::*;
use vstd::seq_lib::group_to_multiset_ensures;

verus! {

broadcast use group_to_multiset_ensures;

pub open spec fn later(a: int, b: int) -> int {
    if a >= b {
        a
    } else {
        b
    }
}

/// When the machine is free again after running `order` in turn, each job
/// starting as soon as both the machine and the job are ready.
pub open spec fn end_time(order: Seq<Task>) -> int
    decreases order.len(),
{
    if order.len() == 0 {
        0
    } else {
        later(end_time(order.drop_last()), order.last().r as int) + order.last().p
    }
}

/// The makespan of `order`: the latest completion plus delivery time.
pub open spec fn cmax_of(order: Seq<Task>) -> int
    decreases order.len(),
{
    if order.len() == 0 {
        0
    } else {
        later(cmax_of(order.drop_last()), end_time(order) + order.last().q)
    }
}

/// Schrage's rule: with the jobs `rem` still to run and the machine free at
/// `t`, `x` may run next. It is one of `rem`; the machine idles only up to the
/// earliest release; and no job released by the time `x` starts has a larger
/// delivery time.
pub open spec fn schrage_pick(rem: Multiset<Task>, t: int, x: Task) -> bool {
    &&& rem.contains(x)
    &&& x.r > t ==> forall|j: Task| #[trigger] rem.contains(j) ==> x.r <= j.r
    &&& forall|j: Task| #[trigger] rem.contains(j) && j.r <= later(t, x.r as int) ==> j.q <= x.q
}

/// `order` runs every job of `jobs` once, each chosen by Schrage's rule.
pub open spec fn is_schrage_order(jobs: Seq<Task>, order: Seq<Task>) -> bool {
    &&& order.to_multiset() == jobs.to_multiset()
    &&& schrage_prefix(jobs.to_multiset(), order)
}

/// Each job of `order` was chosen by Schrage's rule from the jobs of `jobs`
/// not yet run before it.
#[verifier::opaque]
pub open spec fn schrage_prefix(jobs: Multiset<Task>, order: Seq<Task>) -> bool {
    forall|k: int|
        0 <= k < order.len() ==> schrage_pick(
            jobs.sub(order.subrange(0, k).to_multiset()),
            end_time(order.subrange(0, k)),
            #[trigger] order[k],
        )
}

/// The Cmax values that Schrage's rule can give on `jobs`.
pub open spec fn schrage_cmax(jobs: Seq<Task>, c: int) -> bool {
    exists|order: Seq<Task>| is_schrage_order(jobs, order) && c == cmax_of(order)
}

/// The latest release, the summed processing times and the largest delivery
/// time together fit in a `u32`: then no time a schedule reaches overflows.
pub open spec fn times_fit(s: Seq<Task>) -> bool {
    max_r(s) + work(s) + max_q(s) <= u32::MAX
}

/// The summed processing times.
pub open spec fn work(s: Seq<Task>) -> int
    decreases s.len(),
{
    if s.len() == 0 {
        0
    } else {
        work(s.drop_last()) + s.last().p
    }
}

/// The latest release time (`0` for no jobs).
pub open spec fn max_r(s: Seq<Task>) -> int
    decreases s.len(),
{
    if s.len() == 0 {
        0
    } else {
        later(max_r(s.drop_last()), s.last().r as int)
    }
}

/// The largest delivery time (`0` for no jobs).
pub open spec fn max_q(s: Seq<Task>) -> int
    decreases s.len(),
{
    if s.len() == 0 {
        0
    } else {
        later(max_q(s.drop_last()), s.last().q as int)
    }
}

pub(crate) proof fn lemma_work_remove(s: Seq<Task>, i: int)
    requires
        0 <= i < s.len(),
    ensures
        work(s) == work(s.remove(i)) + s[i].p,
        work(s.remove(i)) >= 0,
    decreases s.len(),
{
    lemma_work_nonneg(s.remove(i));
    if i < s.len() - 1 {
        let s1 = s.remove(i);
        assert(s1.drop_last() =~= s.drop_last().remove(i));
        assert(s1.last() == s.last());
        lemma_work_remove(s.drop_last(), i);
    } else {
        assert(s.remove(i) =~= s.drop_last());
    }
}

pub(crate) proof fn lemma_work_nonneg(s: Seq<Task>)
    ensures
        work(s) >= 0,
    decreases s.len(),
{
    if s.len() > 0 {
        lemma_work_nonneg(s.drop_last());
    }
}

pub(crate) proof fn lemma_work_subset(a: Seq<Task>, b: Seq<Task>)
    requires
        a.to_multiset().subset_of(b.to_multiset()),
    ensures
        work(a) <= work(b),
    decreases a.len(),
{
    if a.len() == 0 {
        lemma_work_nonneg(b);
    } else {
        let x = a.last();
        let a1 = a.drop_last();
        assert(a.to_multiset().contains(x)) by {
            assert(a[a.len() - 1] == x);
        }
        let i = b.index_of(x);
        let b1 = b.remove(i);
        assert(a1 =~= a.remove(a.len() - 1));
        assert(a1.to_multiset().subset_of(b1.to_multiset()));
        lemma_work_subset(a1, b1);
        lemma_work_remove(b, i);
    }
}

pub(crate) proof fn lemma_max_bounds(s: Seq<Task>)
    ensures
        forall|k: int| 0 <= k < s.len() ==> (#[trigger] s[k]).r <= max_r(s) && s[k].q <= max_q(s),
        0 <= max_r(s),
        0 <= max_q(s),
        0 <= work(s),
    decreases s.len(),
{
    lemma_work_nonneg(s);
    if s.len() > 0 {
        let s1 = s.drop_last();
        lemma_max_bounds(s1);
        assert forall|k: int| 0 <= k < s.len() implies (#[trigger] s[k]).r <= max_r(s) && s[k].q
            <= max_q(s) by {
            if k < s.len() - 1 {
                assert(s[k] == s1[k]);
            }
        }
    }
}

/// A multiset of delivery-time views holds exactly the jobs of `tasks`.
pub open spec fn views_q(m: Multiset<QInvariant>, tasks: Multiset<Task>) -> bool {
    forall|t: Task| #[trigger] tasks.count(t) == m.count(QInvariant(t))
}

/// A multiset of release-time views holds exactly the jobs of `tasks`.
pub open spec fn views_r(m: Multiset<RInvariant>, tasks: Multiset<Task>) -> bool {
    forall|t: Task| #[trigger] tasks.count(t) == m.count(RInvariant(t))
}

/// A job of `s` lies within its latest release and largest delivery time.
pub(crate) proof fn lemma_in_bounds(s: Seq<Task>, x: Task)
    requires
        s.to_multiset().contains(x),
    ensures
        x.r <= max_r(s),
        x.q <= max_q(s),
{
    lemma_max_bounds(s);
    assert(s[s.index_of(x)] == x);
}

/// Running `x` at `t` after `order` stays within the bound of the input.
pub(crate) proof fn lemma_step_fits(input: Seq<Task>, order: Seq<Task>, t: int, x: Task)
    requires
        times_fit(input),
        order.push(x).to_multiset().subset_of(input.to_multiset()),
        t == later(end_time(order), x.r as int),
        0 <= end_time(order) <= max_r(input) + work(order),
    ensures
        t + x.p + x.q <= u32::MAX,
        end_time(order.push(x)) <= max_r(input) + work(order.push(x)),
        0 <= end_time(order.push(x)),
{
    assert(order.push(x).to_multiset().contains(x)) by {
        assert(order.push(x)[order.len() as int] == x);
    }
    lemma_in_bounds(input, x);
    lemma_work_subset(order.push(x), input);
    lemma_work_nonneg(order);
    lemma_max_bounds(input);
    lemma_push_time(order, x);
}

pub(crate) proof fn lemma_prefix_empty(jobs: Multiset<Task>)
    ensures
        schrage_prefix(jobs, Seq::empty()),
{
    reveal(schrage_prefix);
}

proof fn lemma_pick_at(jobs: Multiset<Task>, order: Seq<Task>, k: int)
    requires
        schrage_prefix(jobs, order),
        0 <= k < order.len(),
    ensures
        schrage_pick(
            jobs.sub(order.subrange(0, k).to_multiset()),
            end_time(order.subrange(0, k)),
            order[k],
        ),
{
    reveal(schrage_prefix);
}

/// Extending an order by one job keeps the earlier choices as they were.
pub(crate) proof fn lemma_prefix_push(jobs: Multiset<Task>, order: Seq<Task>, x: Task)
    requires
        schrage_prefix(jobs, order),
        schrage_pick(jobs.sub(order.to_multiset()), end_time(order), x),
    ensures
        schrage_prefix(jobs, order.push(x)),
{
    reveal(schrage_prefix);
    let o2 = order.push(x);
    assert forall|k: int| 0 <= k < o2.len() implies schrage_pick(
        jobs.sub(o2.subrange(0, k).to_multiset()),
        end_time(o2.subrange(0, k)),
        #[trigger] o2[k],
    ) by {
        if k < order.len() {
            assert(o2.subrange(0, k) =~= order.subrange(0, k));
            assert(order[k] == o2[k]);
        } else {
            assert(o2.subrange(0, k) =~= order);
        }
    }
}

pub(crate) proof fn lemma_push_time(order: Seq<Task>, x: Task)
    ensures
        end_time(order.push(x)) == later(end_time(order), x.r as int) + x.p,
        cmax_of(order.push(x)) == later(cmax_of(order), end_time(order.push(x)) + x.q),
        work(order.push(x)) == work(order) + x.p,
{
    assert(order.push(x).drop_last() =~= order);
}

pub(crate) proof fn lemma_views_q_contains(m: Multiset<QInvariant>, tasks: Multiset<Task>, x: Task)
    requires
        views_q(m, tasks),
    ensures
        tasks.contains(x) == m.contains(QInvariant(x)),
{
    assert(tasks.count(x) == m.count(QInvariant(x)));
}

pub(crate) proof fn lemma_views_r_contains(m: Multiset<RInvariant>, tasks: Multiset<Task>, x: Task)
    requires
        views_r(m, tasks),
    ensures
        tasks.contains(x) == m.contains(RInvariant(x)),
{
    assert(tasks.count(x) == m.count(RInvariant(x)));
}

pub(crate) proof fn lemma_views_q_insert(m: Multiset<QInvariant>, tasks: Multiset<Task>, x: Task)
    requires
        views_q(m, tasks),
    ensures
        views_q(m.insert(QInvariant(x)), tasks.insert(x)),
{
    assert forall|t: Task| #[trigger] tasks.insert(x).count(t) == m.insert(QInvariant(x)).count(
        QInvariant(t),
    ) by {
        assert(tasks.count(t) == m.count(QInvariant(t)));
    }
}

pub(crate) proof fn lemma_views_q_remove(m: Multiset<QInvariant>, tasks: Multiset<Task>, x: Task)
    requires
        views_q(m, tasks),
    ensures
        views_q(m.remove(QInvariant(x)), tasks.remove(x)),
{
    assert forall|t: Task| #[trigger] tasks.remove(x).count(t) == m.remove(QInvariant(x)).count(
        QInvariant(t),
    ) by {
        assert(tasks.count(t) == m.count(QInvariant(t)));
    }
}

pub(crate) proof fn lemma_views_r_remove(m: Multiset<RInvariant>, tasks: Multiset<Task>, x: Task)
    requires
        views_r(m, tasks),
    ensures
        views_r(m.remove(RInvariant(x)), tasks.remove(x)),
{
    assert forall|t: Task| #[trigger] tasks.remove(x).count(t) == m.remove(RInvariant(x)).count(
        RInvariant(t),
    ) by {
        assert(tasks.count(t) == m.count(RInvariant(t)));
    }
}

pub(crate) proof fn lemma_views_q_empty(m: Multiset<QInvariant>, tasks: Multiset<Task>)
    requires
        views_q(m, tasks),
        m.len() == 0,
    ensures
        tasks =~= Multiset::empty(),
{
    assert forall|t: Task| #[trigger] tasks.count(t) == 0 by {
        assert(tasks.count(t) == m.count(QInvariant(t)));
    }
}

pub(crate) proof fn lemma_views_r_empty(m: Multiset<RInvariant>, tasks: Multiset<Task>)
    requires
        views_r(m, tasks),
        m.len() == 0,
    ensures
        tasks =~= Multiset::empty(),
{
    assert forall|t: Task| #[trigger] tasks.count(t) == 0 by {
        assert(tasks.count(t) == m.count(RInvariant(t)));
    }
}

/// The step of Schrage's rule taken by the engines: with `un` unreleased,
/// `av` released and `order` run so far, the machine at `t` runs `x`, an
/// available job of largest delivery time.
pub(crate) proof fn lemma_dispatch(
    jobs: Multiset<Task>,
    un: Multiset<Task>,
    av: Multiset<Task>,
    order: Seq<Task>,
    t: int,
    x: Task,
)
    requires
        un.add(av).add(order.to_multiset()) == jobs,
        av.contains(x),
        forall|a: Task| #[trigger] av.contains(a) ==> a.r <= t && a.q <= x.q,
        forall|u: Task| #[trigger] un.contains(u) ==> t < u.r,
        end_time(order) <= t,
        t > end_time(order) ==> forall|j: Task| #[trigger] un.add(av).contains(j) ==> t <= j.r,
    ensures
        later(end_time(order), x.r as int) == t,
        schrage_pick(jobs.sub(order.to_multiset()), end_time(order), x),
        order.push(x).to_multiset().subset_of(jobs),
        un.add(av.remove(x)).add(order.push(x).to_multiset()) == jobs,
{
    let rem = un.add(av);
    assert(jobs.sub(order.to_multiset()) =~= rem);
    assert(rem.contains(x));
    assert forall|j: Task| #[trigger] rem.contains(j) && j.r <= t implies j.q <= x.q by {
        if !av.contains(j) {
            assert(un.contains(j));
        }
    }
    assert(un.add(av.remove(x)).add(order.push(x).to_multiset()) =~= jobs);
}

/// Jobs that share a delivery time are identical: Schrage's rule then has
/// no tie to break.
pub open spec fn q_decisive(jobs: Multiset<Task>) -> bool {
    forall|a: Task, b: Task|
        #[trigger] jobs.contains(a) && #[trigger] jobs.contains(b) && a.q == b.q ==> a == b
}

proof fn lemma_pick_unique(jobs: Multiset<Task>, rem: Multiset<Task>, t: int, x: Task, y: Task)
    requires
        q_decisive(jobs),
        rem.subset_of(jobs),
        schrage_pick(rem, t, x),
        schrage_pick(rem, t, y),
    ensures
        x == y,
{
    assert(rem.contains(x) && rem.contains(y));
    assert(jobs.contains(x) && jobs.contains(y));
    if x.r > t {
        assert(x.r <= y.r);
        assert(y.r <= x.r);
    } else if y.r > t {
        assert(y.r <= x.r);
        assert(x.r <= y.r);
    }
    assert(y.q <= x.q);
    assert(x.q <= y.q);
}

proof fn lemma_sub_subset(m: Multiset<Task>, n: Multiset<Task>)
    ensures
        m.sub(n).subset_of(m),
{
}

proof fn lemma_prefix_unique(m: Multiset<Task>, o1: Seq<Task>, o2: Seq<Task>, k: int)
    requires
        schrage_prefix(m, o1),
        schrage_prefix(m, o2),
        q_decisive(m),
        0 <= k <= o1.len(),
        o1.len() == o2.len(),
    ensures
        o1.subrange(0, k) == o2.subrange(0, k),
    decreases k,
{
    if k > 0 {
        lemma_prefix_unique(m, o1, o2, k - 1);
        let p = o1.subrange(0, k - 1);
        let rem = m.sub(p.to_multiset());
        lemma_sub_subset(m, p.to_multiset());
        lemma_pick_at(m, o1, k - 1);
        lemma_pick_at(m, o2, k - 1);
        lemma_pick_unique(m, rem, end_time(p), o1[k - 1], o2[k - 1]);
        assert(o1.subrange(0, k) =~= o2.subrange(0, k));
    }
}

/// Where equal delivery times only occur on identical jobs, Schrage's rule
/// leaves no choice: there is one order it can produce.
pub proof fn lemma_schrage_order_unique(jobs: Seq<Task>, o1: Seq<Task>, o2: Seq<Task>)
    requires
        is_schrage_order(jobs, o1),
        is_schrage_order(jobs, o2),
        q_decisive(jobs.to_multiset()),
    ensures
        o1 == o2,
{
    assert(o1.len() == o1.to_multiset().len());
    assert(o2.len() == o2.to_multiset().len());
    lemma_prefix_unique(jobs.to_multiset(), o1, o2, o1.len() as int);
    assert(o1 =~= o1.subrange(0, o1.len() as int));
    assert(o2 =~= o2.subrange(0, o2.len() as int));
}

/// Every implementation of Schrage's rule gives the same Cmax on the same
/// jobs (the heap engine and the scan engines alike), wherever equal
/// delivery times only occur on identical jobs.
pub proof fn lemma_cmax_agrees(jobs: Seq<Task>, c1: int, c2: int)
    requires
        schrage_cmax(jobs, c1),
        schrage_cmax(jobs, c2),
        q_decisive(jobs.to_multiset()),
    ensures
        c1 == c2,
{
    let o1 = choose|o: Seq<Task>| is_schrage_order(jobs, o) && c1 == cmax_of(o);
    let o2 = choose|o: Seq<Task>| is_schrage_order(jobs, o) && c2 == cmax_of(o);
    lemma_schrage_order_unique(jobs, o1, o2);
}

/// Whether the latest release, the summed processing times and the largest
/// delivery time of `tasks` fit in a `u32`: what every scheduling engine asks
/// of its input.
pub fn times_fit_u32(tasks: &Vec<Task>) -> (b: bool)
    ensures
        b == times_fit(tasks@),
{
    let mut sum: u64 = 0;
    let mut mr: u32 = 0;
    let mut mq: u32 = 0;
    let mut k: usize = 0;
    while k < tasks.len()
        invariant
            k <= tasks@.len(),
            sum == work(tasks@.subrange(0, k as int)),
            mr == max_r(tasks@.subrange(0, k as int)),
            mq == max_q(tasks@.subrange(0, k as int)),
            sum <= u32::MAX,
        decreases tasks@.len() - k,
    {
        let t = tasks[k];
        proof {
            assert(tasks@.subrange(0, k + 1).drop_last() =~= tasks@.subrange(0, k as int));
        }
        sum = sum + t.p as u64;
        if t.r > mr {
            mr = t.r;
        }
        if t.q > mq {
            mq = t.q;
        }
        k = k + 1;
        if sum > u32::MAX as u64 {
            proof {
                let pre = tasks@.subrange(0, k as int);
                assert(pre.to_multiset().subset_of(tasks@.to_multiset())) by {
                    let rest = tasks@.subrange(k as int, tasks@.len() as int);
                    assert(tasks@ =~= pre + rest);
                    vstd::seq_lib::lemma_multiset_commutative(pre, rest);
                }
                lemma_work_subset(pre, tasks@);
                lemma_max_bounds(tasks@);
            }
            return false;
        }
    }
    proof {
        assert(tasks@.subrange(0, tasks@.len() as int) =~= tasks@);
    }
    sum + mr as u64 + mq as u64 <= u32::MAX as u64
}

} // verus!
