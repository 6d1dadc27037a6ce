use schrage::engine::schrage_custom_heaps_cmax;
use schrage::preemptive::{
    schrage_preemptive_custom_heaps_cmax, schrage_preemptive_heaps_bh_cmax, schrage_preemptive_heaps_std_cmax,
    schrage_preemptive_vecs_cmax, schrage_preemtive_custom_heaps_cmax,
};
use schrage::random::gen_uniform;
use schrage::task::Task;

fn tasks() -> Vec<Task> {
    vec![
        Task::new(30, 3, 8),
        Task::new(20, 4, 21),
        Task::new(10, 5, 7),
        Task::new(11, 7, 24),
        Task::new(30, 2, 0),
        Task::new(13, 6, 26),
        Task::new(0, 6, 17),
    ]
}

#[test]
fn preemptive_fixture() {
    assert_eq!(schrage_preemptive_custom_heaps_cmax(tasks()), 49);
    assert_eq!(schrage_preemptive_heaps_std_cmax(tasks()), 49);
    assert_eq!(schrage_custom_heaps_cmax(tasks()), 53);
}

#[test]
fn preemptive_empty_input_is_zero() {
    assert_eq!(schrage_preemptive_custom_heaps_cmax(Vec::new()), 0);
}

#[test]
fn urgent_release_interrupts_the_running_job() {
    // (0,10,1) runs from 0 to 10; (2,3,50) arrives at 2 and takes over.
    let jobs = vec![Task::new(0, 10, 1), Task::new(2, 3, 50)];
    assert_eq!(schrage_preemptive_custom_heaps_cmax(jobs.clone()), 55);
    assert_eq!(schrage_custom_heaps_cmax(jobs), 63);
}

#[test]
fn less_urgent_release_does_not_interrupt() {
    let jobs = vec![Task::new(0, 10, 40), Task::new(2, 3, 5)];
    assert_eq!(schrage_preemptive_custom_heaps_cmax(jobs.clone()), 50);
    assert_eq!(schrage_custom_heaps_cmax(jobs), 50);
}

#[test]
fn preemptive_never_exceeds_non_preemptive() {
    for round in 0..40 {
        let mut jobs = gen_uniform(3 + round, &(0..60), &(0..15), &(0..100));
        for (i, j) in jobs.iter_mut().enumerate() {
            j.q = j.q * 100 + i as u32;
        }
        let pre = schrage_preemptive_custom_heaps_cmax(jobs.clone());
        let non = schrage_custom_heaps_cmax(jobs);
        assert!(pre <= non);
    }
}

#[test]
fn preemptive_scan_fixture() {
    assert_eq!(schrage_preemptive_vecs_cmax(tasks()), 49);
    assert_eq!(schrage_preemptive_vecs_cmax(Vec::new()), 0);
}

#[test]
fn preemptive_scan_interrupts_on_release() {
    let jobs = vec![Task::new(0, 10, 1), Task::new(2, 3, 50)];
    assert_eq!(schrage_preemptive_vecs_cmax(jobs), 55);
    let jobs = vec![Task::new(0, 10, 40), Task::new(2, 3, 5)];
    assert_eq!(schrage_preemptive_vecs_cmax(jobs), 50);
}

#[test]
fn preemptive_variants_agree_on_the_fixture() {
    assert_eq!(schrage_preemtive_custom_heaps_cmax(tasks()), 49);
    assert_eq!(schrage_preemptive_heaps_bh_cmax(tasks()), 49);
    assert_eq!(schrage_preemptive_heaps_std_cmax(tasks()), 49);
}

#[test]
fn preemptive_engines_agree_on_random_jobs() {
    for round in 0..40 {
        let mut jobs = gen_uniform(2 + round, &(0..80), &(0..20), &(0..100));
        for (i, j) in jobs.iter_mut().enumerate() {
            j.q = j.q * 100 + i as u32;
        }
        assert_eq!(
            schrage_preemptive_vecs_cmax(jobs.clone()),
            schrage_preemptive_custom_heaps_cmax(jobs)
        );
    }
}
