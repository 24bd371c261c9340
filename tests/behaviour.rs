use conc_linked_list::ConcurrentLinkedList;

#[test]
fn remove_one_on_empty_list_is_none_every_time() {
    let list: ConcurrentLinkedList<i32> = ConcurrentLinkedList::new();
    assert_eq!(list.remove_one(), None);
    assert_eq!(list.remove_one(), None);
    assert_eq!(list.remove_one(), None);
    assert!(!list.contains(&0));
}

#[test]
fn single_thread_pushes_come_out_last_first() {
    let list = ConcurrentLinkedList::new();
    list.push(1);
    list.push(2);
    list.push(3);
    assert_eq!(list.remove_one(), Some(3));
    assert_eq!(list.remove_one(), Some(2));
    assert_eq!(list.remove_one(), Some(1));
    assert_eq!(list.remove_one(), None);
}

#[test]
fn pushes_onto_a_drained_list_are_found_again() {
    let list = ConcurrentLinkedList::new_from(7);
    assert_eq!(list.remove_one(), Some(7));
    assert!(!list.contains(&7));
    list.push(8);
    assert!(list.contains(&8));
    assert_eq!(list.remove_one(), Some(8));
    assert_eq!(list.remove_one(), None);
}

#[test]
fn new_from_two_keeps_head_first() {
    let list = ConcurrentLinkedList::new_from_two(10, 20);
    assert_eq!(list.remove_one(), Some(10));
    assert_eq!(list.remove_one(), Some(20));
    assert_eq!(list.remove_one(), None);
}

#[test]
fn find_at_head_has_no_predecessor() {
    let list = ConcurrentLinkedList::new_from_two(1, 2);
    let (prev, node) = list.find(&1);
    assert_eq!(prev, None);
    assert_eq!(node, Some(0));
}

#[test]
fn find_after_head_gives_predecessor_position() {
    let list = ConcurrentLinkedList::new_from_two(1, 2);
    assert_eq!(list.find(&2), (Some(0), Some(1)));
}

#[test]
fn find_on_empty_list_returns_the_head_slot() {
    let list: ConcurrentLinkedList<i32> = ConcurrentLinkedList::new();
    assert_eq!(list.find(&5), (None, Some(0)));
}

#[test]
fn find_missing_value_returns_last_node_with_predecessor() {
    let list = ConcurrentLinkedList::new_from_two(1, 2);
    assert_eq!(list.find(&3), (Some(0), Some(1)));
    let single = ConcurrentLinkedList::new_from(4);
    assert_eq!(single.find(&3), (None, Some(0)));
}

#[test]
fn find_does_not_keep_locks() {
    let list = ConcurrentLinkedList::new_from_two(1, 2);
    let _ = list.find(&2);
    list.push(0);
    assert_eq!(list.remove_one(), Some(0));
    assert!(list.contains(&2));
}

#[test]
fn pops_conserve_the_pushed_values() {
    let list = ConcurrentLinkedList::new();
    for n in 0..10 {
        list.push(n);
    }
    let mut removed = vec![];
    for _ in 0..4 {
        removed.push(list.remove_one().unwrap());
    }
    let mut seen: Vec<i32> = removed.clone();
    for n in 0..10 {
        if list.contains(&n) {
            assert!(!removed.contains(&n));
            seen.push(n);
        }
    }
    seen.sort();
    assert_eq!(seen, (0..10).collect::<Vec<i32>>());
    assert_eq!(removed, vec![9, 8, 7, 6]);
}

#[test]
fn contains_is_false_for_a_value_never_pushed() {
    let list = ConcurrentLinkedList::new();
    list.push(4);
    list.push(5);
    assert!(!list.contains(&6));
    assert!(list.contains(&4));
}
