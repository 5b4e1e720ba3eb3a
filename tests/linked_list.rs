use std::collections::VecDeque;

use dsa::linked_list::{DequeOp, DoublyLinkedList};

fn five_four_three_two_one() -> DoublyLinkedList<i32> {
    let mut list = DoublyLinkedList::new();
    list.push_front(1);
    list.push_front(2);
    list.push_front(3);
    list.push_front(4);
    list.push_front(5);
    list
}

fn contents(list: &DoublyLinkedList<i32>) -> Vec<i32> {
    let mut out = Vec::new();
    let mut it = list.iter();
    while let Some(v) = it.next() {
        out.push(*v);
    }
    out
}

#[test]
fn linked_list_it_works() {
    let mut list = DoublyLinkedList::new();

    // Try to break an empty list
    assert_eq!(list.len(), 0);
    assert_eq!(list.pop_front(), None);
    assert_eq!(list.len(), 0);

    // Try to break a one item list
    list.push_front(10);
    assert_eq!(list.len(), 1);
    assert_eq!(list.pop_front(), Some(10));
    assert_eq!(list.len(), 0);
    assert_eq!(list.pop_front(), None);
    assert_eq!(list.len(), 0);

    // Mess around
    list.push_front(10);
    assert_eq!(list.len(), 1);
    list.push_front(20);
    assert_eq!(list.len(), 2);
    list.push_front(30);
    assert_eq!(list.len(), 3);
    assert_eq!(list.pop_front(), Some(30));
    assert_eq!(list.len(), 2);
    list.push_front(40);
    assert_eq!(list.len(), 3);
    assert_eq!(list.pop_front(), Some(40));
    assert_eq!(list.len(), 2);
    assert_eq!(list.pop_front(), Some(20));
    assert_eq!(list.len(), 1);
    assert_eq!(list.pop_front(), Some(10));
    assert_eq!(list.len(), 0);
    assert_eq!(list.pop_front(), None);
    assert_eq!(list.len(), 0);
    assert_eq!(list.pop_front(), None);
    assert_eq!(list.len(), 0);
}

#[test]
fn remove_at_works() {
    let mut list = DoublyLinkedList::new();
    list.push_front(1);
    list.push_front(2);
    list.push_front(3);
    list.push_front(4);
    list.push_front(5);

    assert_eq!(list.len(), 5);
    list.remove_at(2);
    assert_eq!(list.len(), 4);
    assert_eq!(list.pop_back(), Some(1));
    assert_eq!(list.len(), 3);
    assert_eq!(list.pop_back(), Some(2));
    assert_eq!(list.len(), 2);
    assert_eq!(list.pop_back(), Some(4));
    assert_eq!(list.len(), 1);
    assert_eq!(list.pop_back(), Some(5));
    assert_eq!(list.len(), 0);
}

#[test]
fn insert_at_works() {
    let mut list = DoublyLinkedList::new();
    list.push_front(1);
    list.push_front(2);
    list.push_front(3);
    list.push_front(4);
    list.push_front(5);

    assert_eq!(list.len(), 5);
    list.insert_at(6, 2);
    assert_eq!(list.len(), 6);
    assert_eq!(list.pop_back(), Some(1));
    assert_eq!(list.len(), 5);
    assert_eq!(list.pop_back(), Some(2));
    assert_eq!(list.len(), 4);
    assert_eq!(list.pop_back(), Some(6));
    assert_eq!(list.len(), 3);
    assert_eq!(list.pop_back(), Some(3));
    assert_eq!(list.len(), 2);
    assert_eq!(list.pop_back(), Some(4));
    assert_eq!(list.len(), 1);
    assert_eq!(list.pop_back(), Some(5));
    assert_eq!(list.len(), 0);
}

#[test]
fn remove_at_every_position_kind() {
    // front (no predecessor toward the front), back, middle, sole node
    let mut list = five_four_three_two_one();
    list.remove_at(0);
    assert_eq!(contents(&list), vec![4, 3, 2, 1]);
    list.remove_at(3);
    assert_eq!(contents(&list), vec![4, 3, 2]);
    assert_eq!(list.back(), Some(&2));
    assert_eq!(list.front(), Some(&4));
    list.remove_at(1);
    assert_eq!(contents(&list), vec![4, 2]);
    list.remove_at(1);
    list.remove_at(0);
    assert_eq!(list.len(), 0);
    assert_eq!(list.front(), None);
    assert_eq!(list.back(), None);
    assert_eq!(list.pop_back(), None);
}

#[test]
fn remove_at_past_the_end_changes_nothing() {
    let mut list = five_four_three_two_one();
    list.remove_at(5);
    list.remove_at(usize::MAX);
    assert_eq!(list.len(), 5);
    assert_eq!(contents(&list), vec![5, 4, 3, 2, 1]);
}

#[test]
fn insert_then_remove_at_same_index() {
    let mut list = five_four_three_two_one();
    list.insert_at(3, 2);
    list.remove_at(2);
    assert_eq!(contents(&list), vec![5, 4, 3, 2, 1]);
    assert_eq!(list.len(), 5);

    let mut other = five_four_three_two_one();
    other.insert_at(9, 1);
    other.remove_at(1);
    assert_eq!(contents(&other), vec![5, 9, 3, 2, 1]);
}

#[test]
fn empty_list_pops_stay_empty() {
    let mut list: DoublyLinkedList<i32> = DoublyLinkedList::default();
    for _ in 0..3 {
        assert_eq!(list.pop_front(), None);
        assert_eq!(list.pop_back(), None);
        assert_eq!(list.len(), 0);
    }
}

#[test]
fn pops_match_a_double_ended_queue() {
    let mut list = DoublyLinkedList::new();
    let mut model = VecDeque::new();
    let mut seed: u32 = 12345;
    for step in 0..500 {
        seed = seed.wrapping_mul(1103515245).wrapping_add(12345);
        match (seed >> 16) % 4 {
            0 => {
                list.push_front(step);
                model.push_front(step);
            }
            1 => {
                list.push_back(step);
                model.push_back(step);
            }
            2 => assert_eq!(list.pop_front(), model.pop_front()),
            _ => assert_eq!(list.pop_back(), model.pop_back()),
        }
        assert_eq!(list.len(), model.len());
    }
    let expected: Vec<i32> = model.iter().copied().collect();
    assert_eq!(contents(&list), expected);
}

#[test]
fn apply_all_replays_like_a_deque() {
    let mut list = DoublyLinkedList::new();
    list.push_back(1);
    let ops = vec![
        DequeOp::PushFront(0),
        DequeOp::PushBack(2),
        DequeOp::PopBack,
        DequeOp::PopFront,
        DequeOp::PopFront,
        DequeOp::PopFront,
        DequeOp::PushBack(7),
        DequeOp::PopBack,
    ];
    let out = list.apply_all(ops);
    assert_eq!(out, vec![Some(2), Some(0), Some(1), None, Some(7)]);
    assert_eq!(list.len(), 0);
}

#[test]
fn forward_and_backward_walks_mirror() {
    let list = five_four_three_two_one();
    let mut it = list.iter();
    assert_eq!(it.len(), 5);
    assert_eq!(it.size_hint(), (5, Some(5)));
    let mut forward = Vec::new();
    while let Some(v) = it.next() {
        forward.push(*v);
    }
    let mut back = list.iter();
    let mut backward = Vec::new();
    while let Some(v) = back.next_back() {
        backward.push(*v);
    }
    backward.reverse();
    assert_eq!(forward, vec![5, 4, 3, 2, 1]);
    assert_eq!(forward, backward);
}

#[test]
fn iterator_cursors_meet() {
    let list = five_four_three_two_one();
    let mut it = list.iter();
    assert_eq!(it.next(), Some(&5));
    assert_eq!(it.next_back(), Some(&1));
    assert_eq!(it.next(), Some(&4));
    assert_eq!(it.next_back(), Some(&2));
    assert_eq!(it.len(), 1);
    assert_eq!(it.next(), Some(&3));
    assert_eq!(it.next(), None);
    assert_eq!(it.next_back(), None);
    assert_eq!(it.len(), 0);
}

#[test]
fn iter_mut_changes_each_value_once() {
    let mut list = five_four_three_two_one();
    {
        let mut it = list.iter_mut();
        assert_eq!(it.len(), 5);
        if let Some(v) = it.next() {
            *v *= 10;
        }
        if let Some(v) = it.next_back() {
            *v *= 100;
        }
        while let Some(v) = it.next() {
            *v += 1;
        }
        assert_eq!(it.next_back(), None);
        assert_eq!(it.size_hint(), (0, Some(0)));
    }
    assert_eq!(contents(&list), vec![50, 5, 4, 3, 100]);
}

#[test]
fn front_and_back_access() {
    let mut list = five_four_three_two_one();
    assert_eq!(list.front(), Some(&5));
    assert_eq!(list.back(), Some(&1));
    if let Some(v) = list.front_mut() {
        *v = 50;
    }
    if let Some(v) = list.back_mut() {
        *v = 10;
    }
    assert_eq!(contents(&list), vec![50, 4, 3, 2, 10]);
    let mut empty: DoublyLinkedList<i32> = DoublyLinkedList::new();
    assert!(empty.front_mut().is_none());
    assert!(empty.back_mut().is_none());
}

#[test]
fn draining_leaves_nothing() {
    let list = five_four_three_two_one();
    let mut it = list.into_iter();
    assert_eq!(it.len(), 5);
    assert_eq!(it.next(), Some(5));
    assert_eq!(it.next_back(), Some(1));
    assert_eq!(it.size_hint(), (3, Some(3)));
    assert_eq!(it.next(), Some(4));
    assert_eq!(it.next(), Some(3));
    assert_eq!(it.next(), Some(2));
    assert_eq!(it.next(), None);
    assert_eq!(it.next_back(), None);
    assert_eq!(it.len(), 0);
}

#[test]
fn slots_are_reused_after_removal() {
    let mut list = DoublyLinkedList::new();
    for round in 0..4 {
        for v in 0..10 {
            list.push_back(v + round);
        }
        list.remove_at(3);
        list.insert_at(99, 0);
        while list.len() > 2 {
            list.pop_front();
        }
    }
    assert_eq!(list.len(), 2);
    assert_eq!(contents(&list), vec![11, 12]);
}

#[test]
fn holds_non_copy_values() {
    let mut list: DoublyLinkedList<String> = DoublyLinkedList::new();
    list.push_back("b".to_string());
    list.push_front("a".to_string());
    list.push_back("d".to_string());
    list.insert_at("c".to_string(), 1);
    assert_eq!(list.pop_front().as_deref(), Some("a"));
    assert_eq!(list.pop_back().as_deref(), Some("d"));
    assert_eq!(list.pop_back().as_deref(), Some("c"));
    assert_eq!(list.pop_back().as_deref(), Some("b"));
}
