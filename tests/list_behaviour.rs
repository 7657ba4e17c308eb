use collections::data_structures::LinkedList;

fn collect_forward(list: &LinkedList<i32>) -> Vec<i32> {
    let mut out = Vec::new();
    let mut iter = list.iter();
    while let Some(x) = iter.next() {
        out.push(*x);
    }
    out
}

#[test]
fn length_follows_pushes_and_pops() {
    let mut list: LinkedList<i32> = LinkedList::new();
    list.push_front(1);
    list.push_back(2);
    list.push_front(3);
    assert_eq!(list.length(), 3);
    assert_eq!(list.pop_front(), Some(3));
    assert_eq!(list.pop_back(), Some(2));
    assert_eq!(list.length(), 1);
    assert!(!list.is_empty());
    assert_eq!(list.pop_back(), Some(1));
    assert_eq!(list.pop_back(), None);
    assert_eq!(list.pop_front(), None);
    assert_eq!(list.length(), 0);
    assert!(list.is_empty());
}

#[test]
fn same_end_is_lifo() {
    let mut list: LinkedList<i32> = LinkedList::new();
    for x in [1, 2, 3, 4] {
        list.push_back(x);
    }
    let mut out = Vec::new();
    while let Some(x) = list.pop_back() {
        out.push(x);
    }
    assert_eq!(out, vec![4, 3, 2, 1]);

    for x in [1, 2, 3, 4] {
        list.push_front(x);
    }
    let mut out = Vec::new();
    while let Some(x) = list.pop_front() {
        out.push(x);
    }
    assert_eq!(out, vec![4, 3, 2, 1]);
}

#[test]
fn back_to_front_is_fifo() {
    let mut list: LinkedList<i32> = LinkedList::new();
    for x in [5, 6, 7] {
        list.push(x);
    }
    let mut out = Vec::new();
    while let Some(x) = list.pop_front() {
        out.push(x);
    }
    assert_eq!(out, vec![5, 6, 7]);
    assert!(list.is_empty());
}

#[test]
fn front_and_back_follow_mutations() {
    let mut list: LinkedList<i32> = LinkedList::new();
    assert_eq!(list.front(), None);
    assert_eq!(list.back(), None);
    list.push_back(2);
    assert_eq!(list.front(), Some(&2));
    assert_eq!(list.back(), Some(&2));
    list.push_front(1);
    list.push_back(3);
    assert_eq!(list.front(), Some(&1));
    assert_eq!(list.back(), Some(&3));
    list.pop_front();
    assert_eq!(list.front(), Some(&2));
    list.pop_back();
    assert_eq!(list.back(), Some(&2));
    list.pop_back();
    assert_eq!(list.front(), None);
    assert_eq!(list.back(), None);
}

#[test]
fn boundary_elements_change_in_place() {
    let mut list: LinkedList<i32> = LinkedList::new();
    assert!(list.front_mut().is_none());
    assert!(list.back_mut().is_none());
    list.push_back(1);
    list.push_back(2);
    list.push_back(3);
    if let Some(x) = list.front_mut() {
        *x = 10;
    }
    if let Some(x) = list.back_mut() {
        *x = 30;
    }
    assert_eq!(collect_forward(&list), vec![10, 2, 30]);
    assert_eq!(list.length(), 3);
}

#[test]
fn mixed_iteration_meets_in_the_middle() {
    let mut list: LinkedList<i32> = LinkedList::new();
    for x in [1, 2, 3, 4, 5] {
        list.push_back(x);
    }
    let mut iter = list.iter();
    assert_eq!(iter.size_hint(), (5, Some(5)));
    assert_eq!(iter.next(), Some(&1));
    assert_eq!(iter.next_back(), Some(&5));
    assert_eq!(iter.next(), Some(&2));
    assert_eq!(iter.next_back(), Some(&4));
    assert_eq!(iter.size_hint(), (1, Some(1)));
    assert_eq!(iter.next_back(), Some(&3));
    assert_eq!(iter.next(), None);
    assert_eq!(iter.next_back(), None);
    assert_eq!(iter.size_hint(), (0, Some(0)));
}

#[test]
fn iter_restarts_and_leaves_the_list() {
    let mut list: LinkedList<i32> = LinkedList::new();
    for x in [7, 8, 9] {
        list.push_back(x);
    }
    assert_eq!(collect_forward(&list), vec![7, 8, 9]);
    assert_eq!(collect_forward(&list), vec![7, 8, 9]);
    assert_eq!(list.length(), 3);
}

#[test]
fn consuming_matches_borrowing_traversal() {
    let mut list: LinkedList<i32> = LinkedList::new();
    for x in [4, 5, 6, 7] {
        list.push_back(x);
    }
    let borrowed = collect_forward(&list);
    let mut iter = list.into_iter();
    assert_eq!(iter.size_hint(), (4, Some(4)));
    let mut owned = Vec::new();
    while let Some(x) = iter.next() {
        owned.push(x);
    }
    assert_eq!(owned, borrowed);
    assert_eq!(iter.size_hint(), (0, Some(0)));
    assert_eq!(iter.next_back(), None);
}

#[test]
fn clear_then_reuse() {
    let mut list: LinkedList<i32> = LinkedList::new();
    for x in [1, 2, 3] {
        list.push_back(x);
    }
    list.clear();
    assert_eq!(list.length(), 0);
    assert!(list.is_empty());
    assert_eq!(list.front(), None);
    assert_eq!(list.back(), None);
    list.push_back(42);
    list.push_front(41);
    assert_eq!(list.length(), 2);
    assert_eq!(collect_forward(&list), vec![41, 42]);
}

#[test]
fn empty_iterators_end_at_once() {
    let list: LinkedList<i32> = LinkedList::default();
    let mut iter = list.iter();
    assert_eq!(iter.next(), None);
    let mut iter = list.iter();
    assert_eq!(iter.next_back(), None);
    let mut owned = list.into_iter();
    assert_eq!(owned.next(), None);
    assert_eq!(owned.next_back(), None);
}

#[test]
fn removal_from_the_middle_of_the_arena() {
    let mut list: LinkedList<String> = LinkedList::new();
    list.push_back("b".to_string());
    list.push_front("a".to_string());
    list.push_back("c".to_string());
    list.push_front("z".to_string());
    assert_eq!(list.pop_front(), Some("z".to_string()));
    assert_eq!(list.pop_back(), Some("c".to_string()));
    list.push_back("d".to_string());
    assert_eq!(list.pop_front(), Some("a".to_string()));
    assert_eq!(list.front(), Some(&"b".to_string()));
    assert_eq!(list.back(), Some(&"d".to_string()));
    let mut iter = list.iter();
    assert_eq!(iter.next(), Some(&"b".to_string()));
    assert_eq!(iter.next(), Some(&"d".to_string()));
    assert_eq!(iter.next(), None);
}
