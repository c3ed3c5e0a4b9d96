use linked_lists::list::Deque;
use linked_lists::list::DoublyLinkedList;
use linked_lists::list::LinkedNode;
use linked_lists::list::List;
use linked_lists::list::Reversible;
use std::rc::Rc;

fn node_values(list: &Rc<LinkedNode<u64>>) -> Vec<u64> {
    let n = list.size();
    let mut out: Vec<u64> = Vec::new();
    let mut i: usize = 0;
    while i < n {
        out.push(LinkedNode::value_at(Rc::clone(list), i));
        i += 1;
    }
    out
}

fn dll_values(list: &DoublyLinkedList<u64>) -> Vec<u64> {
    let n = list.size();
    let mut out: Vec<u64> = Vec::new();
    let mut i: usize = 0;
    while i < n {
        out.push(*list.value_at(i));
        i += 1;
    }
    out
}

#[test]
fn persistent_scenario() {
    let mut list: Rc<LinkedNode<u64>> = LinkedNode::new(10);
    list = LinkedNode::append(list, LinkedNode::new(15));
    assert_eq!(node_values(&list), vec![10, 15]);
    list = LinkedNode::insert_at(list, LinkedNode::new(50), 0);
    assert_eq!(node_values(&list), vec![50, 10, 15]);
    list = LinkedNode::insert_at(list, LinkedNode::new(1), 2);
    assert_eq!(node_values(&list), vec![50, 10, 1, 15]);
    list = LinkedNode::remove_at(list, 0, 1);
    assert_eq!(node_values(&list), vec![10, 1, 15]);
}

#[test]
fn persistent_empty_list() {
    let empty: Rc<LinkedNode<u64>> = LinkedNode::empty_list(0);
    assert!(empty.is_empty());
    assert!(!empty.has_next());
    assert_eq!(empty.size(), 0);

    let one: Rc<LinkedNode<u64>> = LinkedNode::new(7);
    assert!(!one.is_empty());
    assert!(!one.has_next());
    assert_eq!(*one.value(), 7);
    assert!(one.next().is_empty());

    let still_one = LinkedNode::cons(Rc::clone(&empty), Rc::clone(&one));
    assert_eq!(node_values(&still_one), vec![7]);

    let joined = LinkedNode::append(Rc::clone(&empty), Rc::clone(&one));
    assert_eq!(node_values(&joined), vec![7]);
}

#[test]
fn persistent_remove_count_zero() {
    let mut list: Rc<LinkedNode<u64>> = LinkedNode::new(3);
    list = LinkedNode::append(list, LinkedNode::new(4));
    let unchanged = LinkedNode::remove_at(Rc::clone(&list), 9, 0);
    assert_eq!(node_values(&unchanged), vec![3, 4]);

    let emptied = LinkedNode::remove_at(list, 0, 2);
    assert_eq!(emptied.size(), 0);
}

#[test]
fn persistent_structural_sharing() {
    let mut list: Rc<LinkedNode<u64>> = LinkedNode::new(1);
    list = LinkedNode::append(list, LinkedNode::new(2));
    list = LinkedNode::append(list, LinkedNode::new(3));

    let kept = Rc::clone(&list);
    let spliced = LinkedNode::insert_at(list, LinkedNode::new(9), 1);

    assert_eq!(node_values(&kept), vec![1, 2, 3]);
    assert_eq!(kept.size(), 3);
    assert_eq!(node_values(&spliced), vec![1, 9, 2, 3]);

    let (kept2, spliced2) =
        LinkedNode::insert_at_preserves_original(spliced, LinkedNode::new(8), 0);
    assert_eq!(node_values(&kept2), vec![1, 9, 2, 3]);
    assert_eq!(node_values(&spliced2), vec![8, 1, 9, 2, 3]);
}

#[test]
fn persistent_reverse_round_trip() {
    let mut list: Rc<LinkedNode<u64>> = LinkedNode::new(1);
    list = LinkedNode::append(list, LinkedNode::new(2));
    list = LinkedNode::append(list, LinkedNode::new(3));
    let twice = list.reverse().reverse();
    assert_eq!(node_values(&twice), node_values(&list));

    let empty: Rc<LinkedNode<u64>> = LinkedNode::empty_list(0);
    assert_eq!(empty.reverse().reverse().size(), 0);
}

#[test]
fn circular_reverse_round_trip() {
    let mut dllist: DoublyLinkedList<u64> = DoublyLinkedList::new();
    for i in 0u64..5 {
        dllist.append(i);
    }
    dllist.reverse();
    assert_eq!(dll_values(&dllist), vec![4, 3, 2, 1, 0]);
    dllist.reverse();
    assert_eq!(dll_values(&dllist), vec![0, 1, 2, 3, 4]);
}

#[test]
fn circular_remove_status_codes() {
    let mut dllist: DoublyLinkedList<u64> = DoublyLinkedList::new();
    assert_eq!(dllist.remove_at(0), 1);

    dllist.append(5);
    assert_eq!(dllist.remove_at(1), 2);
    assert_eq!(dllist.remove_at(0), 0);
    assert_eq!(dllist.size(), 0);
    assert_eq!(dllist.remove_at(0), 1);

    assert_eq!(dllist.append(6), 0);
    assert_eq!(dllist.insert_at(7, 0), 0);
}

#[test]
fn clone_independence() {
    let mut original: DoublyLinkedList<u64> = DoublyLinkedList::new();
    for i in 0u64..7 {
        original.append(i);
    }

    let mut copy = original.clone();
    copy.remove_at(0);
    copy.remove_at(2);
    *copy.mut_value_at(0) = 99;

    assert_eq!(original.size(), 7);
    assert_eq!(dll_values(&original), vec![0, 1, 2, 3, 4, 5, 6]);
    assert_eq!(dll_values(&copy), vec![99, 2, 4, 5, 6]);
}

#[test]
fn deque_scenario() {
    let mut deq: DoublyLinkedList<u64> = DoublyLinkedList::new();
    assert_eq!(deq.empty(), true);
    deq.push_back(1);
    assert_eq!(deq.empty(), false);
    assert_eq!(deq.pop_back(), 1);
    assert_eq!(deq.empty(), true);
}

#[test]
fn mut_value_at_updates_in_place() {
    let mut dllist: DoublyLinkedList<u64> = DoublyLinkedList::new();
    for i in 0u64..4 {
        dllist.append(i);
    }
    *dllist.mut_value_at(2) = 42;
    assert_eq!(dll_values(&dllist), vec![0, 1, 42, 3]);
    assert_eq!(dllist.size(), 4);
}

#[test]
fn remove_node_returns_contents() {
    let mut dllist: DoublyLinkedList<u64> = DoublyLinkedList::new();
    for i in 10u64..15 {
        dllist.append(i);
    }
    let handle = dllist.at(3);
    let detached = dllist.remove_node(handle);
    assert_eq!(*detached.value(), 13);
    assert_eq!(dll_values(&dllist), vec![10, 11, 12, 14]);

    let head_handle = dllist.at(0);
    let detached_head = dllist.remove_node(head_handle);
    assert_eq!(*detached_head.value(), 10);
    assert_eq!(dll_values(&dllist), vec![11, 12, 14]);
}

#[test]
fn handles_step_around_the_ring() {
    let mut dllist: DoublyLinkedList<u64> = DoublyLinkedList::new();
    for i in 0u64..3 {
        dllist.append(i);
    }
    let head = dllist.at(0);
    let tail = dllist.prev_of(head);
    let second = dllist.next_of(head);
    let around = dllist.next_of(dllist.next_of(dllist.next_of(head)));

    let detached_tail = dllist.remove_node(tail);
    assert_eq!(*detached_tail.value(), 2);
    let detached_second = dllist.remove_node(second);
    assert_eq!(*detached_second.value(), 1);
    let detached_head = dllist.remove_node(around);
    assert_eq!(*detached_head.value(), 0);
    assert_eq!(dllist.size(), 0);
}

#[test]
fn size_matches_ring_walk() {
    let mut dllist: DoublyLinkedList<u64> = DoublyLinkedList::new();
    for i in 0u64..6 {
        dllist.append(i);
    }
    dllist.insert_at(77, 3);
    dllist.insert_at(88, 0);
    dllist.remove_at(5);
    dllist.push_front(99);
    dllist.pop_back();

    let n = dllist.size();

    let start = dllist.at(0);
    let mut cur = start;
    let mut steps: usize = 0;
    loop {
        cur = dllist.next_of(cur);
        steps += 1;
        if cur == start {
            break;
        }
        assert!(steps < n);
    }
    assert_eq!(steps, n);

    let mut back = start;
    let mut back_steps: usize = 0;
    loop {
        back = dllist.prev_of(back);
        back_steps += 1;
        if back == start {
            break;
        }
        assert!(back_steps < n);
    }
    assert_eq!(back_steps, n);
}

#[test]
fn trait_interface_on_circular_list() {
    let mut dllist: DoublyLinkedList<u64> = DoublyLinkedList::new();
    assert_eq!(List::append(&mut dllist, 1), 0);
    assert_eq!(List::insert_at(&mut dllist, 2, 0), 0);
    assert_eq!(List::size(&dllist), 2);
    assert_eq!(*List::value_at(&dllist, 0), 2);
    *List::mut_value_at(&mut dllist, 0) = 9;
    Deque::push_back(&mut dllist, 7);
    assert_eq!(Deque::pop_front(&mut dllist), 9);
    Reversible::reverse(&mut dllist);
    assert_eq!(*List::value_at(&dllist, 0), 7);
    assert_eq!(List::remove_at(&mut dllist, 0), 0);
    assert_eq!(Deque::pop_back(&mut dllist), 1);
    assert_eq!(Deque::empty(&dllist), true);
}
