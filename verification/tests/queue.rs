//! Behaviour of the bag-based admission queue.

use wallctl::wall_queue::WallQueue;

#[test]
fn push_pop_returns_bag_in_order() {
    let mut q = WallQueue::new();
    for n in [10u32, 20, 30, 40] {
        q.push(n);
    }
    assert!(q.can_pop());
    let bag = q.pop();
    assert_eq!(bag, vec![10, 20, 30, 40]);
    assert_eq!(q.len(), 0);
    assert!(!q.can_pop());
}

#[test]
fn can_pop_needs_a_full_bag() {
    let mut q = WallQueue::new();
    q.push(1);
    q.push(2);
    q.push(3);
    assert!(!q.can_pop());
    q.push(4);
    assert!(q.can_pop());
}

#[test]
fn pop_skips_holes_and_compacts_tail() {
    let mut q = WallQueue::new();
    for n in 1u32..=6 {
        q.push(n);
    }
    q.remove_by_instance_num(2);
    assert_eq!(q.len(), 6);
    let bag = q.pop();
    assert_eq!(bag, vec![1, 3, 4]);
    assert_eq!(q.len(), 2);
    let mut rest = Vec::new();
    for i in 0..q.len() {
        rest.push(q.slot(i));
    }
    assert_eq!(rest, vec![Some(5), Some(6)]);
}

#[test]
fn removed_instance_never_resurfaces_in_bag() {
    let mut q = WallQueue::new();
    for n in 1u32..=5 {
        q.push(n);
    }
    q.remove_by_instance_num(3);
    let bag = q.pop();
    assert!(!bag.contains(&3));
    assert_eq!(bag, vec![1, 2, 4]);
}

#[test]
fn remove_unknown_number_changes_nothing() {
    let mut q = WallQueue::new();
    q.push(7);
    q.push(8);
    q.remove_by_instance_num(99);
    assert_eq!(q.len(), 2);
    assert_eq!(q.slot(0), Some(7));
    assert_eq!(q.slot(1), Some(8));
}

#[test]
fn remove_only_hides_first_match() {
    let mut q = WallQueue::new();
    q.push(5);
    q.push(6);
    q.remove_by_instance_num(5);
    assert_eq!(q.slot(0), None);
    assert_eq!(q.slot(1), Some(6));
    assert!(!q.contains_num(5));
    assert!(q.contains_num(6));
}

#[test]
fn successive_pops_share_no_instance() {
    let mut q = WallQueue::new();
    for n in 1u32..=8 {
        q.push(n);
    }
    let first = q.pop();
    let second = q.pop();
    assert_eq!(first, vec![1, 2, 3, 4]);
    assert_eq!(second, vec![5, 6, 7, 8]);
    for n in &first {
        assert!(!second.contains(n));
    }
}

#[test]
fn clear_drops_everything() {
    let mut q = WallQueue::new();
    for n in 1u32..=4 {
        q.push(n);
    }
    q.clear();
    assert_eq!(q.len(), 0);
    assert!(!q.can_pop());
}
