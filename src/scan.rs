//! Schrage's rule by sorting and scanning a list, a second implementation
//! held to the same contract as the heap engine.
use crate::model::{
    cmax_of, end_time, is_schrage_order, later, lemma_prefix_empty, lemma_prefix_push, lemma_push_time,
    lemma_step_fits, max_r, schrage_cmax, schrage_pick, schrage_prefix, times_fit, work,
};
use crate::task::Task;
use vstd::multiset::Multiset;
use vstd::prelude::*;
use vstd::seq_lib::group_to_multiset_ensures;

verus! {

broadcast use group_to_multiset_ensures;

/// The job collection of a scan run, kept in a plain vector.
#[derive(Debug)]
pub struct ShrageContextV {
    pub tasks: Vec<Task>,
}

impl ShrageContextV {
    pub fn new() -> (c: ShrageContextV)
        ensures
            c.tasks@.len() == 0,
    {
        ShrageContextV { tasks: Vec::new() }
    }
}

/// The field a scan run sorts by: delivery time if `by_q`, else release time.
pub open spec fn sort_key(t: Task, by_q: bool) -> u32 {
    if by_q {
        t.q
    } else {
        t.r
    }
}

/// `s` with `x` inserted after the last element whose key is not larger.
pub open spec fn insert_by_key(s: Seq<Task>, x: Task, by_q: bool) -> Seq<Task>
    decreases s.len(),
{
    if s.len() == 0 {
        seq![x]
    } else if sort_key(s.last(), by_q) <= sort_key(x, by_q) {
        s.push(x)
    } else {
        insert_by_key(s.drop_last(), x, by_q).push(s.last())
    }
}

/// What a stable sort by key makes of `s`: sorted by key, elements of equal
/// key in their order in `s`.
pub open spec fn stable_sorted(s: Seq<Task>, by_q: bool) -> Seq<Task>
    decreases s.len(),
{
    if s.len() == 0 {
        s
    } else {
        insert_by_key(stable_sorted(s.drop_last(), by_q), s.last(), by_q)
    }
}

/// Relies on `slice::sort_by_key` from std: it sorts in ascending order of
/// the key, here one field of each job, keeps every element, and is stable
/// (equal keys keep their order).
#[verifier::external_body]
pub(crate) fn sort_by_field(tasks: &mut Vec<Task>, by_q: bool)
    ensures
        final(tasks)@.to_multiset() == old(tasks)@.to_multiset(),
        forall|i: int, j: int|
            0 <= i < j < final(tasks)@.len() ==> sort_key(final(tasks)@[i], by_q) <= sort_key(
                final(tasks)@[j],
                by_q,
            ),
        final(tasks)@ == stable_sorted(old(tasks)@, by_q),
{
    tasks.sort_by_key(|t| if by_q { t.q } else { t.r });
}

pub open spec fn as_index(o: Option<usize>) -> Option<int> {
    match o {
        Some(i) => Some(i as int),
        None => None,
    }
}

/// Which job a scan by release time picks at time `t`: going through `s` in
/// order, a released job replaces the one picked so far unless that one has
/// a larger delivery time.
pub open spec fn best_released(s: Seq<Task>, t: int) -> Option<int>
    decreases s.len(),
{
    if s.len() == 0 {
        None
    } else {
        let k = s.len() - 1;
        let b = best_released(s.drop_last(), t);
        if s[k].r <= t && match b {
            None => true,
            Some(i) => s[k].q >= s[i].q,
        } {
            Some(k)
        } else {
            b
        }
    }
}

/// The last job of `s` released by `t`.
pub open spec fn last_released_at(s: Seq<Task>, t: int) -> Option<int>
    decreases s.len(),
{
    if s.len() == 0 {
        None
    } else if s.last().r <= t {
        Some(s.len() - 1)
    } else {
        last_released_at(s.drop_last(), t)
    }
}

/// The earliest release time of `s`.
pub open spec fn min_r(s: Seq<Task>) -> int
    decreases s.len(),
{
    if s.len() <= 1 {
        if s.len() == 1 {
            s[0].r as int
        } else {
            0
        }
    } else if (s.last().r as int) < min_r(s.drop_last()) {
        s.last().r as int
    } else {
        min_r(s.drop_last())
    }
}

/// The last of the jobs released by `t` among those of largest delivery time.
pub fn released_max_q(tasks: &Vec<Task>, t: u32) -> (res: Option<usize>)
    ensures
        match res {
            None => forall|k: int| 0 <= k < tasks@.len() ==> t < #[trigger] tasks@[k].r,
            Some(i) => {
                &&& i < tasks@.len()
                &&& tasks@[i as int].r <= t
                &&& forall|k: int|
                    0 <= k < tasks@.len() && #[trigger] tasks@[k].r <= t ==> tasks@[k].q
                        <= tasks@[i as int].q
                &&& forall|k: int|
                    i < k < tasks@.len() && #[trigger] tasks@[k].r <= t ==> tasks@[k].q
                        < tasks@[i as int].q
            },
        },
        as_index(res) == best_released(tasks@, t as int),
{
    let mut best: Option<usize> = None;
    let mut k: usize = 0;
    while k < tasks.len()
        invariant
            k <= tasks@.len(),
            match best {
                None => forall|m: int| 0 <= m < k ==> t < #[trigger] tasks@[m].r,
                Some(i) => {
                    &&& i < k
                    &&& tasks@[i as int].r <= t
                    &&& forall|m: int|
                        0 <= m < k && #[trigger] tasks@[m].r <= t ==> tasks@[m].q
                            <= tasks@[i as int].q
                    &&& forall|m: int|
                        i < m < k && #[trigger] tasks@[m].r <= t ==> tasks@[m].q
                            < tasks@[i as int].q
                },
            },
            as_index(best) == best_released(tasks@.subrange(0, k as int), t as int),
        decreases tasks@.len() - k,
    {
        proof {
            assert(tasks@.subrange(0, k + 1).drop_last() =~= tasks@.subrange(0, k as int));
            assert(tasks@.subrange(0, k + 1)[k as int] == tasks@[k as int]);
            if let Some(i) = best {
                assert(tasks@.subrange(0, k + 1)[i as int] == tasks@[i as int]);
            }
        }
        if tasks[k].r <= t {
            match best {
                None => {
                    best = Some(k);
                },
                Some(i) => {
                    if tasks[k].q >= tasks[i].q {
                        best = Some(k);
                    }
                },
            }
        }
        k = k + 1;
    }
    proof {
        assert(tasks@.subrange(0, k as int) =~= tasks@);
    }
    best
}

/// The last job released by `t`.
pub fn last_released(tasks: &Vec<Task>, t: u32) -> (res: Option<usize>)
    ensures
        match res {
            None => forall|k: int| 0 <= k < tasks@.len() ==> t < #[trigger] tasks@[k].r,
            Some(i) => {
                &&& i < tasks@.len()
                &&& tasks@[i as int].r <= t
                &&& forall|k: int| i < k < tasks@.len() ==> t < #[trigger] tasks@[k].r
            },
        },
        as_index(res) == last_released_at(tasks@, t as int),
{
    let mut k: usize = tasks.len();
    proof {
        assert(tasks@.subrange(0, k as int) =~= tasks@);
    }
    while k > 0
        invariant
            k <= tasks@.len(),
            forall|m: int| k <= m < tasks@.len() ==> t < #[trigger] tasks@[m].r,
            last_released_at(tasks@, t as int) == last_released_at(
                tasks@.subrange(0, k as int),
                t as int,
            ),
        decreases k,
    {
        proof {
            assert(tasks@.subrange(0, k as int).drop_last() =~= tasks@.subrange(0, k - 1));
        }
        k = k - 1;
        if tasks[k].r <= t {
            return Some(k);
        }
    }
    None
}

/// The earliest release time among `tasks`.
pub fn min_release(tasks: &Vec<Task>) -> (r: u32)
    requires
        tasks@.len() > 0,
    ensures
        exists|k: int| 0 <= k < tasks@.len() && #[trigger] tasks@[k].r == r,
        forall|k: int| 0 <= k < tasks@.len() ==> r <= #[trigger] tasks@[k].r,
        r == min_r(tasks@),
{
    let mut best: u32 = tasks[0].r;
    let mut k: usize = 1;
    proof {
        assert(tasks@.subrange(0, 1).len() == 1);
    }
    while k < tasks.len()
        invariant
            1 <= k <= tasks@.len(),
            best == min_r(tasks@.subrange(0, k as int)),
            exists|m: int| 0 <= m < k && #[trigger] tasks@[m].r == best,
            forall|m: int| 0 <= m < k ==> best <= #[trigger] tasks@[m].r,
        decreases tasks@.len() - k,
    {
        proof {
            assert(tasks@.subrange(0, k + 1).drop_last() =~= tasks@.subrange(0, k as int));
        }
        if tasks[k].r < best {
            best = tasks[k].r;
        }
        k = k + 1;
    }
    proof {
        assert(tasks@.subrange(0, k as int) =~= tasks@);
    }
    best
}

/// One step of Schrage's rule taken from the list `s` of jobs still to run:
/// `s[i]` is released by `t` and of largest delivery time among those that are.
pub(crate) proof fn lemma_scan_step(
    jobs: Multiset<Task>,
    input: Seq<Task>,
    s: Seq<Task>,
    o: Seq<Task>,
    t: int,
    i: int,
)
    requires
        s.to_multiset().add(o.to_multiset()) == jobs,
        jobs == input.to_multiset(),
        0 <= i < s.len(),
        s[i].r <= t,
        forall|k: int| 0 <= k < s.len() && #[trigger] s[k].r <= t ==> s[k].q <= s[i].q,
        schrage_prefix(jobs, o),
        0 <= end_time(o) <= t,
        t > end_time(o) ==> forall|k: int| 0 <= k < s.len() ==> t <= #[trigger] s[k].r,
        end_time(o) <= max_r(input) + work(o),
        times_fit(input),
    ensures
        schrage_prefix(jobs, o.push(s[i])),
        end_time(o.push(s[i])) == t + s[i].p,
        cmax_of(o.push(s[i])) == later(cmax_of(o), t + s[i].p + s[i].q),
        end_time(o.push(s[i])) <= max_r(input) + work(o.push(s[i])),
        t + s[i].p + s[i].q <= u32::MAX,
        s.remove(i).to_multiset().add(o.push(s[i]).to_multiset()) == jobs,
{
    let x = s[i];
    let rem = s.to_multiset();
    assert(rem.contains(x));
    assert forall|j: Task| #[trigger] rem.contains(j) && j.r <= t implies j.q <= x.q by {
        assert(s[s.index_of(j)] == j);
    }
    assert forall|j: Task| #[trigger] rem.contains(j) && t > end_time(o) implies t <= j.r by {
        assert(s[s.index_of(j)] == j);
    }
    assert(jobs.sub(o.to_multiset()) =~= rem);
    assert(later(end_time(o), x.r as int) == t);
    assert(schrage_pick(jobs.sub(o.to_multiset()), end_time(o), x));
    lemma_prefix_push(jobs, o, x);
    lemma_push_time(o, x);
    assert(o.push(x).to_multiset().subset_of(jobs));
    lemma_step_fits(input, o, t, x);
    assert(s.remove(i).to_multiset() == rem.remove(x));
    assert(s.remove(i).to_multiset().add(o.push(x).to_multiset()) =~= jobs);
}

/// The job a scan picks at time `t`: the last released one in a list sorted
/// by delivery time if `by_q`, else the last released one of largest
/// delivery time.
pub open spec fn scan_pick(s: Seq<Task>, t: int, by_q: bool) -> Option<int> {
    if by_q {
        last_released_at(s, t)
    } else {
        best_released(s, t)
    }
}

/// The order and Cmax a scan run reaches from the list `s` at time `t`,
/// having run `order` with Cmax `cmax` so far.
pub open spec fn scan_run(s: Seq<Task>, t: int, order: Seq<Task>, cmax: int, by_q: bool) -> (
    Seq<Task>,
    int,
)
    decreases
            s.len(),
            (if scan_pick(s, t, by_q) is None {
                1int
            } else {
                0int
            }),
{
    if s.len() == 0 {
        (order, cmax)
    } else {
        match scan_pick(s, t, by_q) {
            Some(i) => if 0 <= i < s.len() {
                let t2 = t + s[i].p;
                scan_run(s.remove(i), t2, order.push(s[i]), later(cmax, t2 + s[i].q), by_q)
            } else {
                (order, cmax)
            },
            None => if scan_pick(s, min_r(s), by_q) is Some {
                scan_run(s, min_r(s), order, cmax, by_q)
            } else {
                (order, cmax)
            },
        }
    }
}

/// The order and Cmax of a scan run on `jobs`: sorted stably by delivery time
/// if `by_q`, else by release time, then scanned.
pub open spec fn scan_result(jobs: Seq<Task>, by_q: bool) -> (Seq<Task>, int) {
    scan_run(stable_sorted(jobs, by_q), 0, Seq::empty(), 0, by_q)
}

proof fn lemma_pick_some(s: Seq<Task>, t: int, by_q: bool, k: int)
    requires
        0 <= k < s.len(),
        s[k].r <= t,
    ensures
        scan_pick(s, t, by_q) is Some,
    decreases s.len(),
{
    if k < s.len() - 1 {
        assert(s.drop_last()[k] == s[k]);
        lemma_pick_some(s.drop_last(), t, by_q, k);
    }
}

/// The scan engine: `by_q` picks the last released job in a list sorted by
/// delivery time, otherwise the last released job of largest delivery time in
/// a list sorted by release time.
fn scan_schedule(tasks: Vec<Task>, by_q: bool) -> (res: (Vec<Task>, u32))
    requires
        times_fit(tasks@),
    ensures
        is_schrage_order(tasks@, res.0@),
        res.1 == cmax_of(res.0@),
        (res.0@, res.1 as int) == scan_result(tasks@, by_q),
{
    let ghost input = tasks@;
    let ghost jobs = tasks@.to_multiset();
    let mut tasks = tasks;
    let mut t: u32 = 0;
    let mut cmax: u32 = 0;
    let mut order: Vec<Task> = Vec::new();
    sort_by_field(&mut tasks, by_q);
    proof {
        if by_q {
            assert forall|i: int, j: int| 0 <= i < j < tasks@.len() implies tasks@[i].q <= tasks@[j].q by {
                assert(sort_key(tasks@[i], by_q) <= sort_key(tasks@[j], by_q));
            }
        }
        lemma_prefix_empty(jobs);
        assert(tasks@.to_multiset().add(order@.to_multiset()) =~= jobs);
        assert(order@ =~= Seq::<Task>::empty());
    }
    while !tasks.is_empty()
        invariant
            scan_run(tasks@, t as int, order@, cmax as int, by_q) == scan_result(input, by_q),
            tasks@.to_multiset().add(order@.to_multiset()) == jobs,
            jobs == input.to_multiset(),
            by_q ==> forall|i: int, j: int|
                0 <= i < j < tasks@.len() ==> tasks@[i].q <= tasks@[j].q,
            schrage_prefix(jobs, order@),
            0 <= end_time(order@) <= t,
            t > end_time(order@) ==> forall|k: int| 0 <= k < tasks@.len() ==> t <= #[trigger] tasks@[k].r,
            cmax == cmax_of(order@),
            end_time(order@) <= max_r(input) + work(order@),
            times_fit(input),
        decreases
            tasks@.len(),
            (if (forall|k: int| 0 <= k < tasks@.len() ==> t < #[trigger] tasks@[k].r) {
                1int
            } else {
                0int
            }),
    {
        let found = if by_q {
            last_released(&tasks, t)
        } else {
            released_max_q(&tasks, t)
        };
        proof {
            assert(as_index(found) == scan_pick(tasks@, t as int, by_q));
        }
        match found {
            Some(idx) => {
                let ghost o = order@;
                let ghost s = tasks@;
                let ghost c0 = cmax;
                let task = tasks[idx];
                proof {
                    if by_q {
                        assert forall|k: int| 0 <= k < s.len() && #[trigger] s[k].r <= t implies s[k].q
                            <= s[idx as int].q by {
                            if k > idx {
                                assert(t < s[k].r);
                            }
                        }
                    }
                    lemma_scan_step(jobs, input, s, o, t as int, idx as int);
                }
                t = t + task.p;
                let done = t + task.q;
                if done > cmax {
                    cmax = done;
                }
                order.push(task);
                tasks.remove(idx);
                proof {
                    assert(cmax as int == later(c0 as int, t as int + task.q));
                    assert(scan_run(s, (t - task.p) as int, o, c0 as int, by_q) == scan_run(
                        tasks@,
                        t as int,
                        order@,
                        cmax as int,
                        by_q,
                    ));
                }
            },
            None => {
                let ghost s = tasks@;
                let ghost t0 = t;
                t = min_release(&tasks);
                proof {
                    let k = choose|k: int| 0 <= k < s.len() && #[trigger] s[k].r == t;
                    lemma_pick_some(s, t as int, by_q, k);
                    assert(scan_run(s, t0 as int, order@, cmax as int, by_q) == scan_run(
                        s,
                        t as int,
                        order@,
                        cmax as int,
                        by_q,
                    ));
                }
            },
        }
    }
    proof {
        assert(tasks@.to_multiset() =~= Multiset::empty());
        assert(order@.to_multiset() =~= jobs);
        assert(tasks@.len() == 0);
    }
    (order, cmax)
}

/// Reference scan: sort by delivery time, then run the last released job.
pub fn schrage_vecs_sort_q(tasks: Vec<Task>) -> (res: (Vec<Task>, u32))
    requires
        times_fit(tasks@),
    ensures
        is_schrage_order(tasks@, res.0@),
        res.1 == cmax_of(res.0@),
        (res.0@, res.1 as int) == scan_result(tasks@, true),
{
    scan_schedule(tasks, true)
}

/// Reference scan: sort by release time, then run the released job of
/// largest delivery time.
pub fn schrage_vecs_sort_r(tasks: Vec<Task>) -> (res: (Vec<Task>, u32))
    requires
        times_fit(tasks@),
    ensures
        is_schrage_order(tasks@, res.0@),
        res.1 == cmax_of(res.0@),
        (res.0@, res.1 as int) == scan_result(tasks@, false),
{
    scan_schedule(tasks, false)
}

/// The Cmax of `schrage_vecs_sort_q`.
pub fn schrage_vecs_sort_q_cmax(tasks: Vec<Task>) -> (cmax: u32)
    requires
        times_fit(tasks@),
    ensures
        schrage_cmax(tasks@, cmax as int),
        cmax == scan_result(tasks@, true).1,
{
    let ghost jobs = tasks@;
    let (order, cmax) = scan_schedule(tasks, true);
    proof {
        assert(is_schrage_order(jobs, order@) && cmax == cmax_of(order@));
    }
    cmax
}

/// The Cmax of `schrage_vecs_sort_r`.
pub fn schrage_vecs_sort_r_cmax(tasks: Vec<Task>) -> (cmax: u32)
    requires
        times_fit(tasks@),
    ensures
        schrage_cmax(tasks@, cmax as int),
        cmax == scan_result(tasks@, false).1,
{
    let ghost jobs = tasks@;
    let (order, cmax) = scan_schedule(tasks, false);
    proof {
        assert(is_schrage_order(jobs, order@) && cmax == cmax_of(order@));
    }
    cmax
}

/// As `schrage_vecs_sort_q`.
pub fn shrage_vecs_sort_q(tasks: Vec<Task>) -> (res: (Vec<Task>, u32))
    requires
        times_fit(tasks@),
    ensures
        is_schrage_order(tasks@, res.0@),
        res.1 == cmax_of(res.0@),
        (res.0@, res.1 as int) == scan_result(tasks@, true),
{
    scan_schedule(tasks, true)
}

/// As `schrage_vecs_sort_r`.
pub fn shrage_vecs_sort_r(tasks: Vec<Task>) -> (res: (Vec<Task>, u32))
    requires
        times_fit(tasks@),
    ensures
        is_schrage_order(tasks@, res.0@),
        res.1 == cmax_of(res.0@),
        (res.0@, res.1 as int) == scan_result(tasks@, false),
{
    scan_schedule(tasks, false)
}

/// As `schrage_vecs_sort_q_cmax`.
pub fn shrage_vecs_sort_q_cmax(tasks: Vec<Task>) -> (cmax: u32)
    requires
        times_fit(tasks@),
    ensures
        schrage_cmax(tasks@, cmax as int),
        cmax == scan_result(tasks@, true).1,
{
    schrage_vecs_sort_q_cmax(tasks)
}

/// As `schrage_vecs_sort_r_cmax`.
pub fn shrage_vecs_sort_r_cmax(tasks: Vec<Task>) -> (cmax: u32)
    requires
        times_fit(tasks@),
    ensures
        schrage_cmax(tasks@, cmax as int),
        cmax == scan_result(tasks@, false).1,
{
    schrage_vecs_sort_r_cmax(tasks)
}

/// Two scan runs on two copies of the same jobs give the same order and the
/// same Cmax: the run is a function of its input.
pub proof fn lemma_scan_runs_repeatable(a: Seq<Task>, b: Seq<Task>, by_q: bool)
    requires
        a == b,
    ensures
        scan_result(a, by_q) == scan_result(b, by_q),
{
}

} // verus!
