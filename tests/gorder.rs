use flatnav::{GOrder, PriorityQueue, Reordering};
use std::collections::HashSet;

#[test]
fn test_priority_queue_basic() {
    let mut queue = PriorityQueue::new(5);
    (0..5).for_each(|i| queue.update(i, i as i32));

    assert_eq!(queue.nodes(), vec![0, 1, 2, 3, 4]);

    queue.update(2, 4);
    assert_eq!(queue.nodes(), vec![0, 1, 3, 4, 2]);

    queue.update(3, 2);
    assert_eq!(queue.nodes(), vec![0, 1, 4, 3, 2]);

    queue.update(0, 3);
    assert_eq!(queue.nodes(), vec![1, 0, 4, 3, 2]);

    queue.update(0, -3);
    assert_eq!(queue.nodes(), vec![0, 1, 4, 3, 2]);

    assert_eq!(queue.pop(), 2);
    assert_eq!(queue.nodes(), vec![0, 1, 4, 3]);

    assert_eq!(queue.pop(), 3);
    assert_eq!(queue.nodes(), vec![0, 1, 4]);
}

#[test]
fn test_priority_queue_duplicates() {
    let mut queue = PriorityQueue::new(100);

    for i in 0..10 {
        for n in 0..100 {
            if (n % 10) >= i {
                queue.update(n, 1);
            }
        }
    }

    let mut popped = HashSet::new();
    for i in (0..10).rev() {
        for _ in 0..10 {
            let next = queue.pop();
            assert_eq!(next % 10, i);
            popped.insert(next);
        }
    }

    assert_eq!(popped.len(), 100);

    for i in 0..100 {
        assert!(popped.contains(&i));
    }
}

#[test]
fn test_gorder() {
    let out_nodes = vec![vec![1, 2], vec![0], vec![4], vec![1, 2], vec![]];

    let gorder = GOrder::new(2);

    let perm = gorder.reorder(&out_nodes);

    assert_eq!(perm, vec![0, 1, 2, 3, 4]);
}

#[test]
fn priority_queue_ties_pop_smallest_id() {
    let mut queue = PriorityQueue::new(4);
    queue.update(3, 2);
    queue.update(1, 2);
    assert_eq!(queue.pop(), 1);
    assert_eq!(queue.pop(), 3);
    assert_eq!(queue.len(), 2);
    // A popped node is no longer updated.
    queue.update(1, 10);
    assert_eq!(queue.pop(), 0);
    assert_eq!(queue.pop(), 2);
    assert_eq!(queue.len(), 0);
}

#[test]
fn priority_queue_update_saturates() {
    let mut queue = PriorityQueue::new(2);
    for _ in 0..3 {
        queue.update(1, i32::MIN);
    }
    queue.update(1, 5);
    assert_eq!(queue.nodes(), vec![1, 0]);
    // Out-of-range ids are ignored.
    queue.update(7, 1);
    assert_eq!(queue.nodes(), vec![1, 0]);
}

#[test]
fn gorder_returns_a_permutation() {
    let out_nodes = vec![vec![3], vec![0, 2], vec![], vec![1, 2], vec![0, 1, 2, 3]];
    let perm = GOrder::new(1).permutation(&out_nodes);
    let mut seen = perm.clone();
    seen.sort();
    assert_eq!(seen, vec![0, 1, 2, 3, 4]);
    assert_eq!(perm[0], 0);
}

#[test]
fn check_permutation_accepts_only_permutations() {
    assert!(flatnav::check_permutation(&vec![2, 0, 1], 3));
    assert!(flatnav::check_permutation(&vec![], 0));
    assert!(!flatnav::check_permutation(&vec![0, 0, 1], 3));
    assert!(!flatnav::check_permutation(&vec![0, 1, 3], 3));
    assert!(!flatnav::check_permutation(&vec![0, 1], 3));
}
