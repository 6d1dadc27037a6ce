use schrage::engine::{
    schrage_custom_heaps, schrage_custom_heaps_cmax, schrage_heaps_bh, schrage_heaps_bh_cmax,
    schrage_heaps_std, schrage_heaps_std_cmax, shrage_heaps, ShrageContext,
};
use schrage::model::times_fit_u32;
use schrage::random::{gen_tasks, gen_uniform};
use schrage::scan::{
    last_released, min_release, released_max_q, schrage_vecs_sort_q, schrage_vecs_sort_q_cmax,
    schrage_vecs_sort_r, schrage_vecs_sort_r_cmax, shrage_vecs_sort_q, shrage_vecs_sort_q_cmax,
    shrage_vecs_sort_r, shrage_vecs_sort_r_cmax, ShrageContextV,
};
use schrage::task::Task;

fn tasks() -> Vec<Task> {
    vec![
        Task::new(30, 3, 8),
        Task::new(20, 4, 21),
        Task::new(10, 5, 7),
        Task::new(11, 7, 24),
        Task::new(30, 2, 0),
        Task::new(13, 6, 26),
        Task::new(0, 6, 17),
    ]
}

fn correct_order() -> Vec<Task> {
    vec![
        Task::new(0, 6, 17),
        Task::new(10, 5, 7),
        Task::new(13, 6, 26),
        Task::new(11, 7, 24),
        Task::new(20, 4, 21),
        Task::new(30, 3, 8),
        Task::new(30, 2, 0),
    ]
}

/// Random jobs whose delivery times are pairwise distinct.
fn distinct_q_jobs(amount: usize) -> Vec<Task> {
    let mut jobs = gen_uniform(amount, &(0..200), &(1..50), &(0..1000));
    for (i, j) in jobs.iter_mut().enumerate() {
        j.q = j.q * 1000 + i as u32;
    }
    jobs
}

#[test]
fn custom_heap_impl_test_schrage_heaps() {
    let cmax = schrage_custom_heaps_cmax(tasks());
    assert_eq!(cmax, 53);
}

#[test]
fn custom_heap_impl_test_schrage_heaps_order() {
    let (order, cmax) = schrage_custom_heaps(tasks());
    assert_eq!(cmax, 53);
    assert_eq!(order, correct_order());
}

#[test]
fn std_heap_impl_test_schrage_heaps() {
    let cmax = schrage_heaps_std_cmax(tasks());
    assert_eq!(cmax, 53);
}

#[test]
fn std_heap_impl_test_schrage_heaps_order() {
    let (order, cmax) = schrage_heaps_std(tasks());
    assert_eq!(cmax, 53);
    assert_eq!(order, correct_order());
}

#[test]
fn heap_binary_test_schrage_heaps() {
    let cmax = schrage_custom_heaps_cmax(tasks());
    assert_eq!(cmax, 53);
}

#[test]
fn heap_binary_test_schrage_heaps_order() {
    let (order, cmax) = schrage_custom_heaps(tasks());
    assert_eq!(cmax, 53);
    assert_eq!(order, correct_order());
}

#[test]
fn std_heaps_test_schrage_heaps() {
    let cmax = schrage_heaps_bh_cmax(tasks());
    assert_eq!(cmax, 53);
}

#[test]
fn std_heaps_test_schrage_heaps_order() {
    let (order, cmax) = schrage_heaps_bh(tasks());
    assert_eq!(cmax, 53);
    assert_eq!(order, correct_order());
}

#[test]
fn test_shrage_heaps() {
    let tasks = vec![
        Task::new(10, 5, 7),
        Task::new(13, 6, 26),
        Task::new(11, 7, 24),
        Task::new(20, 4, 21),
        Task::new(30, 3, 8),
        Task::new(0, 6, 17),
        Task::new(30, 2, 0),
    ];
    let (_, cmax) = shrage_heaps(tasks);
    assert_eq!(cmax, 53);
}

#[test]
fn shrage_vecs_sort_q_test() {
    let cmax = shrage_vecs_sort_q_cmax(tasks());
    assert_eq!(cmax, 53);
}

#[test]
fn shrage_vecs_sort_q_test_order() {
    let (order, cmax) = shrage_vecs_sort_q(tasks());
    assert_eq!(cmax, 53);
    assert_eq!(order, correct_order());
}

#[test]
fn shrage_vecs_v_sort_r_test() {
    let cmax = shrage_vecs_sort_r_cmax(tasks());
    assert_eq!(cmax, 53);
}

#[test]
fn shrage_vecs_sort_r_test_order() {
    let (order, cmax) = shrage_vecs_sort_r(tasks());
    assert_eq!(cmax, 53);
    assert_eq!(order, correct_order());
}

#[test]
fn schrage_vecs_sort_q_test() {
    let cmax = schrage_vecs_sort_q_cmax(tasks());
    assert_eq!(cmax, 53);
}

#[test]
fn schrage_vecs_sort_q_test_order() {
    let (order, cmax) = schrage_vecs_sort_q(tasks());
    assert_eq!(cmax, 53);
    assert_eq!(order, correct_order());
}

#[test]
fn schrage_vecs_v_sort_r_test() {
    let cmax = schrage_vecs_sort_r_cmax(tasks());
    assert_eq!(cmax, 53);
}

#[test]
fn schrage_vecs_sort_r_test_order() {
    let (order, cmax) = schrage_vecs_sort_r(tasks());
    assert_eq!(cmax, 53);
    assert_eq!(order, correct_order());
}

#[test]
fn empty_input_gives_empty_order_and_zero() {
    assert_eq!(schrage_custom_heaps(Vec::new()), (Vec::new(), 0));
    assert_eq!(schrage_custom_heaps_cmax(Vec::new()), 0);
    assert_eq!(schrage_vecs_sort_q(Vec::new()), (Vec::new(), 0));
    assert_eq!(schrage_vecs_sort_r(Vec::new()), (Vec::new(), 0));
}

#[test]
fn single_job_waits_for_its_release() {
    let (order, cmax) = schrage_custom_heaps(vec![Task::new(5, 3, 2)]);
    assert_eq!(order, vec![Task::new(5, 3, 2)]);
    assert_eq!(cmax, 10);
}

#[test]
fn idle_gap_jumps_to_the_next_release() {
    let jobs = vec![Task::new(0, 2, 1), Task::new(10, 1, 5), Task::new(10, 4, 9)];
    let (order, cmax) = schrage_custom_heaps(jobs.clone());
    assert_eq!(order, vec![Task::new(0, 2, 1), Task::new(10, 4, 9), Task::new(10, 1, 5)]);
    assert_eq!(cmax, 23);
    assert_eq!(schrage_vecs_sort_r_cmax(jobs.clone()), 23);
    assert_eq!(schrage_vecs_sort_q_cmax(jobs), 23);
}

#[test]
fn engines_agree_on_random_jobs() {
    for round in 0..30 {
        let jobs = distinct_q_jobs(5 + round * 3);
        let (order_h, cmax_h) = schrage_custom_heaps(jobs.clone());
        let (order_q, cmax_q) = schrage_vecs_sort_q(jobs.clone());
        let (order_r, cmax_r) = schrage_vecs_sort_r(jobs.clone());
        assert_eq!(order_h, order_q);
        assert_eq!(order_h, order_r);
        assert_eq!(cmax_h, cmax_q);
        assert_eq!(cmax_h, cmax_r);
        assert_eq!(cmax_h, schrage_custom_heaps_cmax(jobs.clone()));
        assert_eq!(cmax_h, schrage_vecs_sort_q_cmax(jobs.clone()));
        assert_eq!(cmax_h, schrage_vecs_sort_r_cmax(jobs));
    }
}

#[test]
fn same_input_twice_same_cmax() {
    let jobs = distinct_q_jobs(40);
    let a = schrage_custom_heaps_cmax(jobs.clone());
    let b = schrage_custom_heaps_cmax(jobs.clone());
    assert_eq!(a, b);
    assert_eq!(schrage_custom_heaps_cmax(tasks()), schrage_custom_heaps_cmax(tasks()));
}

#[test]
fn order_is_a_permutation_of_the_input() {
    let jobs = gen_uniform(60, &(0..100), &(0..20), &(0..30));
    let (mut order, _) = schrage_custom_heaps(jobs.clone());
    let mut sorted = jobs;
    sorted.sort();
    order.sort();
    assert_eq!(order, sorted);
}

#[test]
fn scan_helpers_find_released_jobs() {
    let jobs = vec![Task::new(5, 1, 3), Task::new(1, 1, 9), Task::new(2, 1, 9), Task::new(7, 1, 1)];
    assert_eq!(released_max_q(&jobs, 0), None);
    assert_eq!(released_max_q(&jobs, 2), Some(2));
    assert_eq!(released_max_q(&jobs, 10), Some(2));
    assert_eq!(last_released(&jobs, 0), None);
    assert_eq!(last_released(&jobs, 5), Some(2));
    assert_eq!(last_released(&jobs, 7), Some(3));
    assert_eq!(min_release(&jobs), 1);
}

#[test]
fn random_jobs_stay_in_their_ranges() {
    let jobs = gen_uniform(100, &(3..9), &(0..1), &(10..12));
    assert_eq!(jobs.len(), 100);
    assert!(jobs.iter().all(|t| (3..9).contains(&t.r) && t.p == 0 && (10..12).contains(&t.q)));
    let sets = gen_tasks(30, 3, 1000, 1000, 1000);
    let sizes: Vec<usize> = sets.iter().map(|s| s.len()).collect();
    assert_eq!(sizes, vec![10, 40, 70, 100, 130, 160, 190, 220, 250, 280]);
    assert!(sets.iter().flatten().all(|t| t.r < 1000 && t.p < 1000 && t.q < 1000));
}

#[test]
fn contexts_start_empty() {
    let c = ShrageContext::new();
    assert!(c.available_tasks.is_empty() && c.unavailable_tasks.is_empty());
    let c = ShrageContext::from_vec(&tasks());
    assert!(c.available_tasks.is_empty());
    assert_eq!(c.unavailable_tasks.heap.len(), 7);
    assert_eq!(c.unavailable_tasks.peek().unwrap().0, Task::new(0, 6, 17));
    assert!(ShrageContextV::new().tasks.is_empty());
}

#[test]
fn times_fit_only_below_the_u32_range() {
    assert!(times_fit_u32(&tasks()));
    assert!(times_fit_u32(&Vec::new()));
    assert!(times_fit_u32(&vec![Task::new(u32::MAX, 0, 0)]));
    assert!(!times_fit_u32(&vec![Task::new(u32::MAX, 1, 0)]));
    assert!(!times_fit_u32(&vec![Task::new(u32::MAX / 2, 0, 0), Task::new(0, u32::MAX / 2, 2)]));
    // Only the latest release counts, not the sum of all releases.
    let late = vec![Task::new(1 << 31, 0, 0), Task::new(1 << 31, 0, 0)];
    assert!(times_fit_u32(&late));
    assert_eq!(schrage_custom_heaps_cmax(late.clone()), 1 << 31);
    assert_eq!(schrage_vecs_sort_r_cmax(late), 1 << 31);
}
