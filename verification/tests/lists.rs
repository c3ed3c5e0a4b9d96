use linked_lists::list::DoublyLinkedList;
use linked_lists::list::InmutList;
use linked_lists::list::LinkedNode;
use std::rc::Rc;

fn render_node(list: &Rc<LinkedNode<u64>>) -> String {
    let mut out = String::from("[");
    let n = list.size();
    let mut i: usize = 0;
    while i < n {
        if i > 0 {
            out.push(',');
        }
        out.push_str(&format!("{}", LinkedNode::value_at(Rc::clone(list), i)));
        i += 1;
    }
    out.push(']');
    out
}

fn render_dll(list: &DoublyLinkedList<u64>) -> String {
    let mut out = String::from("[");
    let n = list.size();
    let mut i: usize = 0;
    while i < n {
        if i > 0 {
            out.push(',');
        }
        out.push_str(&format!("{}", *list.value_at(i)));
        i += 1;
    }
    out.push(']');
    out
}

#[test]
fn append_insert_and_remove() {
    let mut linked_node: Rc<LinkedNode<u64>> = LinkedNode::new(10);
    linked_node = InmutList::append(linked_node, LinkedNode::new(15));
    assert_eq!(render_node(&linked_node), "[10,15]");
    linked_node = InmutList::insert_at(linked_node, LinkedNode::new(50), 0);
    assert_eq!(render_node(&linked_node), "[50,10,15]");
    linked_node = InmutList::insert_at(linked_node, LinkedNode::new(1), 2);
    assert_eq!(render_node(&linked_node), "[50,10,1,15]");
    linked_node = InmutList::insert_at(linked_node, LinkedNode::new(2), 0);
    assert_eq!(render_node(&linked_node), "[2,50,10,1,15]");
    linked_node = InmutList::insert_at(linked_node, LinkedNode::new(3), 3);
    assert_eq!(render_node(&linked_node), "[2,50,10,3,1,15]");

    linked_node = InmutList::remove_at(linked_node, 0, 1);
    assert_eq!(render_node(&linked_node), "[50,10,3,1,15]");

    linked_node = InmutList::remove_at(linked_node.clone(), InmutList::size(&linked_node) - 1, 1);
    assert_eq!(render_node(&linked_node), "[50,10,3,1]");

    linked_node = InmutList::remove_at(linked_node, 2, 1);
    assert_eq!(render_node(&linked_node), "[50,10,1]");
}

#[test]
fn reverse() {
    let mut llist: Rc<LinkedNode<u64>> = LinkedNode::new(10);
    assert_eq!(render_node(&llist), "[10]");

    llist = InmutList::append(llist, LinkedNode::new(20));
    llist = llist.reverse();
    assert_eq!(render_node(&llist), "[20,10]");

    llist = InmutList::insert_at(llist, LinkedNode::new(30), 0);
    llist = llist.reverse();
    assert_eq!(render_node(&llist), "[10,20,30]");

    for i in 4u64..11 {
        llist = InmutList::append(llist, LinkedNode::new(i * 10));
    }
    llist = llist.reverse();
    assert_eq!(render_node(&llist), "[100,90,80,70,60,50,40,30,20,10]");
}

#[test]
fn dllist_append_at() {
    let mut dllist: DoublyLinkedList<u64> = DoublyLinkedList::new();

    dllist.append(15);
    dllist.append(10);
    assert_eq!(render_dll(&dllist), "[15,10]");
    dllist.insert_at(50, 0);
    assert_eq!(render_dll(&dllist), "[50,15,10]");
    dllist.insert_at(1, 2);
    assert_eq!(render_dll(&dllist), "[50,15,1,10]");
    dllist.insert_at(2, 0);
    assert_eq!(render_dll(&dllist), "[2,50,15,1,10]");
    dllist.insert_at(3, 3);
    assert_eq!(render_dll(&dllist), "[2,50,15,3,1,10]");

    dllist.append(3);
    assert_eq!(render_dll(&dllist), "[2,50,15,3,1,10,3]");
}

#[test]
fn dllist_remove_test() {
    let mut dllist: DoublyLinkedList<u64> = DoublyLinkedList::new();

    for i in 0u64..7 {
        dllist.append(i);
    }

    for s in [6usize, 4, 2, 0] {
        dllist.remove_at(s);
    }
    assert_eq!(render_dll(&dllist), "[1,3,5]");

    for _ in 0u64..3 {
        dllist.remove_at(0);
    }
    assert_eq!(render_dll(&dllist), "[]");
}

#[test]
fn dllist_reverse() {
    let mut dllist: DoublyLinkedList<u64> = DoublyLinkedList::new();
    dllist.append(10);
    assert_eq!(render_dll(&dllist), "[10]");

    dllist.append(20);
    dllist.reverse();
    assert_eq!(render_dll(&dllist), "[20,10]");

    dllist.insert_at(30, 0);
    dllist.reverse();
    assert_eq!(render_dll(&dllist), "[10,20,30]");
}

#[test]
fn dll_deque_operation() {
    let mut deq: DoublyLinkedList<u64> = DoublyLinkedList::new();

    let size: usize = 50;
    let mut arr: [u64; 50] = [0; 50];

    assert_eq!(deq.empty(), true);

    deq.push_back(1);
    assert_eq!(deq.empty(), false);

    deq.pop_back();

    for i in 0usize..size {
        deq.push_back(i as u64);
        arr[i] = i as u64;
    }

    assert_eq!(deq.size(), size);
    for i in 0usize..size {
        assert_eq!(arr[i], *deq.value_at(i));
    }

    for i in (0usize..size).rev() {
        assert_eq!(deq.pop_back(), i as u64);
    }

    assert_eq!(deq.size(), 0usize);

    for i in 0usize..size {
        deq.push_front(i as u64);
        arr[size - 1 - i] = i as u64;
    }

    assert_eq!(deq.size(), size);
    for i in 0usize..size {
        assert_eq!(arr[i], *deq.value_at(i));
    }

    for i in (0usize..size).rev() {
        assert_eq!(deq.pop_front(), i as u64);
    }

    assert_eq!(deq.empty(), true);
}

#[test]
fn dll_remove_node() {
    let mut dllist: DoublyLinkedList<u64> = DoublyLinkedList::new();

    for i in 0u64..7 {
        dllist.append(i);
    }

    let mut curr_node = dllist.prev_of(dllist.at(0));
    dllist.remove_node(curr_node);
    curr_node = dllist.prev_of(curr_node);
    curr_node = dllist.prev_of(curr_node);
    dllist.remove_node(curr_node);
    curr_node = dllist.prev_of(curr_node);
    curr_node = dllist.prev_of(curr_node);
    dllist.remove_node(curr_node);
    curr_node = dllist.prev_of(curr_node);
    curr_node = dllist.prev_of(curr_node);
    dllist.remove_node(curr_node);

    assert_eq!(render_dll(&dllist), "[1,3,5]");

    curr_node = dllist.prev_of(dllist.at(0));
    dllist.remove_node(curr_node);
    curr_node = dllist.next_of(curr_node);
    dllist.remove_node(curr_node);
    curr_node = dllist.next_of(curr_node);
    dllist.remove_node(curr_node);

    assert_eq!(render_dll(&dllist), "[]");
}

#[test]
fn dll_clone_test() {
    let mut dllist: DoublyLinkedList<u64> = DoublyLinkedList::new();

    for i in 0u64..7 {
        dllist.append(i);
    }

    let clone = dllist.clone();

    assert_eq!(render_dll(&dllist), render_dll(&clone));
}
