use lru_cache::node::{List, Node};

#[test]
fn works_builds_list() {
    let mut list = List::new();
    list.push_back(1);
    list.push_back(2);
    list.push_back(3);
    list.push_back(4);

    assert_eq!(list.pop_back(), Some(4));
    assert_eq!(list.pop_back(), Some(3));
    assert_eq!(list.pop_back(), Some(2));
    assert_eq!(list.pop_back(), Some(1));
    assert_eq!(list.pop_back(), None);
}

#[test]
fn works_builds_list_front() {
    let mut list = List::new();
    list.push_front(1);
    list.push_front(2);
    list.push_front(3);
    list.push_front(4);

    assert_eq!(list.pop_front(), Some(4));
    assert_eq!(list.pop_front(), Some(3));
    assert_eq!(list.pop_front(), Some(2));
    assert_eq!(list.pop_front(), Some(1));
    assert_eq!(list.pop_front(), None);
}

#[test]
fn works_builds_list_iter() {
    let mut list = List::new();
    list.push_front(1);
    list.push_front(2);
    list.push_front(3);
    list.push_front(4);

    let mut idx: usize = 0;
    let mut fwd = list.iter();
    let mut bwd = list.iter();
    while let (Some(i), Some(j)) = (fwd.next(), bwd.next_back()) {
        println!("Iteration {}: {}, {}", idx, i, j);
        idx += 1;
    }

    let mut iter = list.iter();
    assert_eq!(iter.next(), Some(4));
    assert_eq!(iter.next_back(), Some(1));
    assert_eq!(iter.next(), Some(3));
    assert_eq!(iter.next_back(), Some(2));
    assert_eq!(iter.next(), None);
    assert_eq!(iter.next_back(), None);
}

#[test]
fn single_value_comes_out_once() {
    let mut list = List::new();
    list.push_back(7);
    let mut iter = list.iter();
    assert_eq!(iter.next_back(), Some(7));
    assert_eq!(iter.next(), None);
    assert_eq!(iter.next_back(), None);
    let mut iter = list.iter();
    assert_eq!(iter.next(), Some(7));
    assert_eq!(iter.next_back(), None);
    assert_eq!(iter.next(), None);
}

#[test]
fn one_end_alone_walks_everything() {
    let mut list = List::new();
    for v in [1, 2, 3] {
        list.push_back(v);
    }
    let mut iter = list.iter();
    assert_eq!(iter.next_back(), Some(3));
    assert_eq!(iter.next_back(), Some(2));
    assert_eq!(iter.next_back(), Some(1));
    assert_eq!(iter.next_back(), None);
    assert_eq!(iter.next(), None);
}

#[test]
fn fifo_order() {
    let mut list = List::new();
    for v in [5, 9, 2, 7] {
        list.push_back(v);
    }
    assert_eq!(list.len(), 4);
    assert_eq!(list.pop_front(), Some(5));
    assert_eq!(list.pop_front(), Some(9));
    assert_eq!(list.pop_front(), Some(2));
    assert_eq!(list.pop_front(), Some(7));
    assert_eq!(list.pop_front(), None);
    assert_eq!(list.len(), 0);
}

#[test]
fn lifo_order() {
    let mut list = List::new();
    for v in [5, 9, 2] {
        list.push_front(v);
    }
    assert_eq!(list.pop_front(), Some(2));
    assert_eq!(list.pop_front(), Some(9));
    assert_eq!(list.pop_front(), Some(5));
    assert_eq!(list.pop_front(), None);
}

#[test]
fn empty_list_pops_none() {
    let mut list: List<u8> = List::new();
    assert_eq!(list.pop_front(), None);
    assert_eq!(list.pop_back(), None);
    assert!(list.get_weak_tail().is_none());
    let mut iter = list.iter();
    assert_eq!(iter.next(), None);
    assert_eq!(iter.next_back(), None);
}

#[test]
fn remove_and_requeue_by_handle() {
    let mut list = List::new();
    list.push_back('a');
    let a = list.get_weak_tail().unwrap();
    list.push_back('b');
    let b = list.get_weak_tail().unwrap();
    list.push_back('c');
    let c = list.get_weak_tail().unwrap();

    list.move_node_to_back(a);
    assert_eq!(list.get_value(a), Some('a'));
    let mut iter = list.iter();
    assert_eq!(iter.next(), Some('b'));
    assert_eq!(iter.next(), Some('c'));
    assert_eq!(iter.next(), Some('a'));
    assert_eq!(iter.next(), None);

    list.remove_node(c);
    assert_eq!(list.len(), 2);
    assert_eq!(list.get_value(c), None);
    list.set_value(b, 'B');
    list.push_node_back(c);
    assert_eq!(list.len(), 3);
    assert_eq!(list.get_value(c), Some('c'));
    assert_eq!(list.pop_front(), Some('B'));
    assert_eq!(list.pop_front(), Some('a'));
    assert_eq!(list.pop_front(), Some('c'));
    assert_eq!(list.get_value(b), None);
}

#[test]
fn freed_handle_stays_dead_after_slot_reuse() {
    let mut list = List::new();
    list.push_back(1u32);
    let old = list.get_weak_tail().unwrap();
    assert_eq!(list.pop_back(), Some(1));
    assert_eq!(list.get_value(old), None);
    list.push_back(2);
    let new = list.get_weak_tail().unwrap();
    assert_eq!(list.get_value(old), None);
    assert_eq!(list.get_value(new), Some(2));
}

#[test]
fn remove_interior_and_ends() {
    let mut list = List::new();
    let mut hs = Vec::new();
    for v in 0..5u8 {
        list.push_back(v);
        hs.push(list.get_weak_tail().unwrap());
    }
    list.remove_node(hs[2]);
    list.remove_node(hs[0]);
    list.remove_node(hs[4]);
    let mut iter = list.iter();
    assert_eq!(iter.next(), Some(1));
    assert_eq!(iter.next(), Some(3));
    assert_eq!(iter.next(), None);
    assert_eq!(iter.next_back(), None);
    let mut back = list.iter();
    assert_eq!(back.next_back(), Some(3));
    assert_eq!(back.next_back(), Some(1));
    assert_eq!(back.next_back(), None);
}

#[test]
fn new_node_is_unlinked() {
    let n = Node::new(42);
    assert_eq!(n.value, 42);
    assert!(n.next.is_none());
    assert!(n.prev.is_none());
}
