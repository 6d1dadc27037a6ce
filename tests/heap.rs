use schrage::heap::HeapTree;
use schrage::task::{QInvariant, RInvariant, Task};

fn tasks() -> Vec<Task> {
    vec![
        Task::new(30, 3, 8),
        Task::new(20, 4, 21),
        Task::new(10, 5, 7),
        Task::new(11, 7, 24),
        Task::new(30, 2, 0),
        Task::new(13, 6, 26),
        Task::new(0, 6, 17),
    ]
}

fn r_heap(tasks: &[Task]) -> HeapTree<RInvariant> {
    HeapTree::from_vec(tasks.iter().map(|t| RInvariant::from(*t)).collect())
}

fn q_heap(tasks: &[Task]) -> HeapTree<QInvariant> {
    HeapTree::from_vec(tasks.iter().map(|t| QInvariant::from(*t)).collect())
}

fn is_max_heap(v: &[i32]) -> bool {
    (0..v.len()).all(|i| {
        (2 * i + 1 >= v.len() || v[2 * i + 1] <= v[i]) && (2 * i + 2 >= v.len() || v[2 * i + 2] <= v[i])
    })
}

#[test]
fn test_heapify_vec() {
    let mut heap = HeapTree::from(vec![1, 2, 3, 4, 5, 6, 7, 8, 9]);
    assert_eq!(heap.heap, vec![9, 8, 7, 4, 5, 6, 3, 2, 1]);
    heap.heapify_vec();
    assert_eq!(heap.heap, vec![9, 8, 7, 4, 5, 6, 3, 2, 1]);
}

#[test]
fn test_push() {
    let mut heap = HeapTree::new();
    heap.push(1);
    heap.push(2);
    heap.push(3);
    heap.push(4);
    heap.push(5);
    heap.push(6);
    heap.push(7);
    heap.push(8);
    heap.push(9);
    assert_eq!(heap.pop(), Some(9));
}

#[test]
fn test_pop() {
    let mut heap = HeapTree::new();
    heap.push(1);
    heap.push(2);
    heap.push(3);
    assert_eq!(heap.pop(), Some(3));
    assert_eq!(heap.pop(), Some(2));
    assert_eq!(heap.pop(), Some(1));
    assert_eq!(heap.pop(), None);
}

#[test]
fn test_sift_down() {
    let mut heap = HeapTree::from(vec![1, 2, 3, 4, 5, 6, 7, 8, 9]);
    heap.sift_down(0);
    assert_eq!(heap.heap, vec![9, 8, 7, 4, 5, 6, 3, 2, 1]);
}

#[test]
fn test_custom_heap() {
    let mut heap: HeapTree<Task> = HeapTree::new();
    heap.push(Task::new(4, 4, 4));
    heap.push(Task::new(2, 2, 2));
    heap.push(Task::new(1, 1, 1));
    heap.push(Task::new(3, 3, 3));
    assert_eq!(heap.pop(), Some(Task::new(4, 4, 4)));
    assert_eq!(heap.pop(), Some(Task::new(3, 3, 3)));
    assert_eq!(heap.pop(), Some(Task::new(2, 2, 2)));
    assert_eq!(heap.pop(), Some(Task::new(1, 1, 1)));
    assert_eq!(heap.pop(), None);
}

#[test]
fn custom_heap_impl_test_std_heap() {
    let mut heap: HeapTree<Task> = HeapTree::new();
    heap.push(Task::new(4, 4, 4));
    heap.push(Task::new(2, 2, 2));
    heap.push(Task::new(1, 1, 1));
    heap.push(Task::new(3, 3, 3));
    assert_eq!(heap.pop(), Some(Task::new(4, 4, 4)));
    assert_eq!(heap.pop(), Some(Task::new(3, 3, 3)));
    assert_eq!(heap.pop(), Some(Task::new(2, 2, 2)));
    assert_eq!(heap.pop(), Some(Task::new(1, 1, 1)));
    assert_eq!(heap.pop(), None);
}

#[test]
fn heap_binary_test_std_heap() {
    let mut heap: HeapTree<Task> = HeapTree::new();
    heap.push(Task::new(4, 4, 4));
    heap.push(Task::new(2, 2, 2));
    heap.push(Task::new(1, 1, 1));
    heap.push(Task::new(3, 3, 3));
    assert_eq!(heap.pop(), Some(Task::new(4, 4, 4)));
    assert_eq!(heap.pop(), Some(Task::new(3, 3, 3)));
    assert_eq!(heap.pop(), Some(Task::new(2, 2, 2)));
    assert_eq!(heap.pop(), Some(Task::new(1, 1, 1)));
    assert_eq!(heap.pop(), None);
}

#[test]
fn custom_heap_impl_test_comparisons_rinvariant() {
    let mut heap = r_heap(&tasks());
    let aa = heap.pop().unwrap();
    assert_eq!(aa, Task::new(0, 6, 17).into());
}

#[test]
fn custom_heap_impl_test_comparisons_qinvariant() {
    let mut heap = q_heap(&tasks());
    assert_eq!(heap.pop().unwrap().0, Task::new(13, 6, 26));
}

#[test]
fn std_heap_impl_test_comparisons_rinvariant() {
    let mut heap = r_heap(&tasks());
    assert_eq!(heap.pop().unwrap(), Task::new(0, 6, 17).into());
}

#[test]
fn std_heap_impl_test_comparisons_qinvariant() {
    let mut heap = q_heap(&tasks());
    assert_eq!(heap.pop().unwrap().0, Task::new(13, 6, 26));
}

#[test]
fn heap_binary_test_comparisons_rinvariant() {
    let mut heap = r_heap(&tasks());
    let aa = heap.pop().unwrap();
    assert_eq!(aa, Task::new(0, 6, 17).into());
}

#[test]
fn heap_binary_test_comparisons_qinvariant() {
    let mut heap = q_heap(&tasks());
    assert_eq!(heap.pop().unwrap().0, Task::new(13, 6, 26));
}

#[test]
fn std_heaps_test_comparisons_rinvariant() {
    let mut heap = r_heap(&tasks());
    assert_eq!(heap.pop().unwrap(), Task::new(0, 6, 17).into());
}

#[test]
fn std_heaps_test_comparisons_qinvariant() {
    let mut heap = q_heap(&tasks());
    assert_eq!(heap.pop().unwrap().0, Task::new(13, 6, 26));
}

#[test]
fn heap_tree_test_comparisons_rinvariant() {
    let mut heap = r_heap(&tasks());
    assert_eq!(heap.pop().unwrap(), Task::new(0, 6, 17).into());
}

#[test]
fn heap_tree_test_comparisons_qinvariant() {
    let mut heap = q_heap(&tasks());
    assert_eq!(heap.pop().unwrap().0, Task::new(13, 6, 26));
}

#[test]
fn lib_test_comparisons_rinvariant() {
    let t1 = Task::new(10, 5, 7);
    let t2 = Task::new(13, 6, 26);
    let t3 = Task::new(11, 7, 24);
    let t4 = Task::new(20, 4, 21);
    let t5 = Task::new(30, 3, 8);
    let t6 = Task::new(0, 6, 17);
    let t7 = Task::new(30, 2, 0);

    let mut heap: HeapTree<RInvariant> = HeapTree::new();
    heap.push(t1.into());
    heap.push(t2.into());
    heap.push(t3.into());
    heap.push(t4.into());
    heap.push(t5.into());
    heap.push(t6.into());
    heap.push(t7.into());

    assert_eq!(heap.pop().unwrap().0, t6);
}

#[test]
fn lib_test_comparisons_qinvariant() {
    let t1 = Task::new(10, 5, 7);
    let t2 = Task::new(13, 6, 26);
    let t3 = Task::new(11, 7, 24);
    let t4 = Task::new(20, 4, 21);
    let t5 = Task::new(30, 3, 8);
    let t6 = Task::new(0, 6, 17);
    let t7 = Task::new(30, 2, 0);

    let mut heap: HeapTree<QInvariant> = HeapTree::new();
    heap.push(t1.into());
    heap.push(t2.into());
    heap.push(t3.into());
    heap.push(t4.into());
    heap.push(t5.into());
    heap.push(t6.into());
    heap.push(t7.into());

    assert_eq!(heap.pop().unwrap().0, t2);
}

#[test]
fn heap_keeps_its_shape_through_pushes_and_pops() {
    let mut heap: HeapTree<i32> = HeapTree::new();
    let values = [5, -3, 17, 17, 0, 42, 8, -20, 11, 3, 3, 99, 1];
    for (i, v) in values.iter().enumerate() {
        heap.push(*v);
        assert!(is_max_heap(&heap.heap));
        if i % 3 == 2 {
            heap.pop();
            assert!(is_max_heap(&heap.heap));
        }
    }
    while heap.pop().is_some() {
        assert!(is_max_heap(&heap.heap));
    }
    assert!(heap.is_empty());
}

#[test]
fn heapify_then_pop_gives_non_increasing_order() {
    let base = vec![4, 1, 7, 7, -2, 9, 0, 3, 3, 12];
    let perms = vec![
        base.clone(),
        base.iter().rev().cloned().collect::<Vec<i32>>(),
        vec![7, 3, 12, -2, 4, 9, 0, 1, 3, 7],
    ];
    let mut expected = base.clone();
    expected.sort();
    expected.reverse();
    for p in perms {
        let mut heap = HeapTree::from_vec(p);
        assert!(is_max_heap(&heap.heap));
        let mut out = Vec::new();
        while let Some(x) = heap.pop() {
            out.push(x);
        }
        assert_eq!(out, expected);
    }
}

#[test]
fn peek_shows_the_top_without_removing_it() {
    let mut heap = HeapTree::from_vec(vec![2, 8, 5]);
    assert_eq!(heap.peek(), Some(&8));
    assert_eq!(heap.heap.len(), 3);
    assert_eq!(heap.pop(), Some(8));
    assert_eq!(heap.peek(), Some(&5));
    let empty: HeapTree<i32> = HeapTree::new();
    assert_eq!(empty.peek(), None);
    assert!(empty.is_empty());
}

#[test]
fn sift_up_moves_a_large_leaf_to_the_root() {
    let mut heap = HeapTree::from_vec(vec![9, 5, 7]);
    heap.heap.push(20);
    heap.sift_up(3);
    assert_eq!(heap.heap, vec![20, 9, 7, 5]);
}

#[test]
fn views_compare_by_one_field() {
    assert!(QInvariant(Task::new(1, 2, 3)) == QInvariant(Task::new(9, 9, 3)));
    assert!(QInvariant(Task::new(1, 2, 3)) != QInvariant(Task::new(1, 2, 4)));
    assert!(RInvariant(Task::new(1, 2, 3)) == RInvariant(Task::new(1, 7, 8)));
    assert!(RInvariant(Task::new(1, 2, 3)) != RInvariant(Task::new(2, 2, 3)));
    assert_eq!(Task::from(QInvariant(Task::new(1, 2, 3))), Task::new(1, 2, 3));
    assert_eq!(Task::from(RInvariant(Task::new(4, 5, 6))), Task::new(4, 5, 6));
}

#[test]
fn views_order_by_one_field() {
    assert!(QInvariant(Task::new(9, 1, 3)) < QInvariant(Task::new(0, 1, 4)));
    assert!(QInvariant(Task::new(0, 1, 5)) > QInvariant(Task::new(9, 1, 4)));
    assert!(RInvariant(Task::new(2, 1, 1)) > RInvariant(Task::new(3, 0, 9)));
    assert!(RInvariant(Task::new(5, 1, 1)) < RInvariant(Task::new(3, 0, 0)));
    assert_eq!(
        QInvariant(Task::new(1, 1, 7)).partial_cmp(&QInvariant(Task::new(2, 2, 7))),
        Some(std::cmp::Ordering::Equal)
    );
}

#[test]
fn sift_down_touches_only_its_subtree() {
    // The root breaks the heap order, but only the subtree at index 1 is sifted.
    let mut heap: HeapTree<i32> = HeapTree::new();
    heap.heap = vec![0, 1, 5, 7, 8, 2, 3];
    heap.sift_down(1);
    assert_eq!(heap.heap, vec![0, 8, 5, 7, 1, 2, 3]);
}

#[test]
fn heapify_leaves_a_heap_as_it_is() {
    let already = vec![9, 8, 7, 4, 5, 6, 3, 2, 1];
    let heap = HeapTree::from(already.clone());
    assert_eq!(heap.heap, already);
}

#[test]
fn test_heap() {
    let mut heap: HeapTree<Task> = HeapTree::new();
    heap.push(Task::new(1, 1, 1));
    heap.push(Task::new(2, 2, 2));
    heap.push(Task::new(3, 3, 3));
    heap.push(Task::new(4, 4, 4));

    assert_eq!(heap.pop(), Some(Task::new(4, 4, 4)));
    assert_eq!(heap.pop(), Some(Task::new(3, 3, 3)));
    assert_eq!(heap.pop(), Some(Task::new(2, 2, 2)));
    assert_eq!(heap.pop(), Some(Task::new(1, 1, 1)));
    assert_eq!(heap.pop(), None);
}

#[test]
fn pop_all_drains_in_non_increasing_order() {
    let mut heap = HeapTree::from(vec![3, 9, -1, 9, 4, 0]);
    assert_eq!(heap.pop_all(), vec![9, 9, 4, 3, 0, -1]);
    assert!(heap.is_empty());
    let mut empty: HeapTree<i32> = HeapTree::new();
    assert_eq!(empty.pop_all(), Vec::<i32>::new());
}
