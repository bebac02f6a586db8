use doubly::DoublyLinkedList;

fn collect_forward(list: &DoublyLinkedList) -> Vec<i64> {
    let mut values = Vec::new();
    let mut current = list.head;
    while let Some(h) = current {
        values.push(list.nodes[h].value);
        current = list.nodes[h].next;
    }
    values
}

fn collect_backward(list: &DoublyLinkedList) -> Vec<i64> {
    let mut values = Vec::new();
    let mut current = list.tail;
    while let Some(h) = current {
        values.push(list.nodes[h].value);
        current = list.nodes[h].previous;
    }
    values
}

#[test]
fn append_keeps_encounter_order() {
    let mut list = DoublyLinkedList::new();
    list.append(10);
    list.append(20);
    list.append(30);
    list.append(40);
    assert_eq!(list.size, 4);
    assert_eq!(collect_forward(&list), vec![10, 20, 30, 40]);
}

#[test]
fn remove_values_drops_every_occurrence() {
    let mut list = DoublyLinkedList::new();
    for v in [2, 1, 2, 3, 2] {
        list.append(v);
    }
    assert_eq!(list.size, 5);
    list.remove_values(2);
    assert_eq!(list.size, 2);
    assert!(list.find_first(2).is_none());
    assert!(list.find_all(2).is_empty());
    assert_eq!(collect_forward(&list), vec![1, 3]);
}

#[test]
fn remove_value_takes_only_first_occurrence() {
    let mut list = DoublyLinkedList::new();
    for v in [7, 5, 7, 7] {
        list.append(v);
    }
    list.remove_value(7);
    assert_eq!(list.size, 3);
    assert_eq!(collect_forward(&list), vec![5, 7, 7]);
    list.remove_value(9);
    assert_eq!(list.size, 3);
    assert_eq!(collect_forward(&list), vec![5, 7, 7]);
}

#[test]
fn backward_walk_mirrors_forward_walk() {
    let mut list = DoublyLinkedList::new();
    for v in [4, 8, 15, 16, 23, 42] {
        list.append(v);
    }
    let forward = collect_forward(&list);
    let mut backward = collect_backward(&list);
    backward.reverse();
    assert_eq!(forward, backward);
}

#[test]
fn clearing_twice_is_a_noop_the_second_time() {
    let mut list = DoublyLinkedList::new();
    list.append(1);
    list.append(2);
    list.remove_all();
    assert_eq!(list.size, 0);
    assert!(list.head.is_none());
    assert!(list.tail.is_none());
    assert_eq!(list.render(), "");
    list.remove_all();
    assert_eq!(list.size, 0);
    assert!(list.head.is_none());
    assert!(list.tail.is_none());
    assert_eq!(list.render(), "");
}

#[test]
fn demo_walkthrough() {
    let mut list = DoublyLinkedList::new();
    for v in [1, 2, 3, 4, 5] {
        list.append(v);
    }
    assert_eq!(list.size, 5);
    assert_eq!(list.render(), "1 <-> 2 <-> 3 <-> 4 <-> 5 --> end");

    list.remove_value(3);
    assert_eq!(list.render(), "1 <-> 2 <-> 4 <-> 5 --> end");
    assert_eq!(list.size, 4);
    assert!(list.find_first(3).is_none());

    list.append(2);
    list.append(2);
    list.remove_values(2);
    assert_eq!(list.render(), "1 <-> 4 <-> 5 --> end");
    assert_eq!(list.size, 3);

    list.remove_head();
    assert_eq!(list.render(), "4 <-> 5 --> end");

    list.remove_tail();
    assert_eq!(list.render(), "4 --> end");

    list.remove_all();
    assert_eq!(list.render(), "");
    assert_eq!(list.size, 0);
    assert!(list.head.is_none());
    assert!(list.tail.is_none());
}

#[test]
fn empty_list_is_safe_to_query_and_drain() {
    let mut list = DoublyLinkedList::new();
    assert!(list.find_first(123).is_none());
    assert!(list.find_all(-1).is_empty());
    list.remove_head();
    list.remove_tail();
    list.remove_all();
    list.remove_value(0);
    list.remove_values(0);
    assert_eq!(list.size, 0);
    assert!(list.head.is_none());
    assert!(list.tail.is_none());
    assert_eq!(list.render(), "");
}

#[test]
fn render_handles_zero_and_negative_values() {
    let mut list = DoublyLinkedList::new();
    list.append(0);
    list.append(-42);
    list.append(i64::MIN);
    list.append(i64::MAX);
    assert_eq!(
        list.render(),
        "0 <-> -42 <-> -9223372036854775808 <-> 9223372036854775807 --> end"
    );
}

#[test]
fn stale_and_foreign_handles_are_rejected() {
    let mut list = DoublyLinkedList::new();
    list.append(6);
    list.append(7);
    let handle = list.find_first(7).unwrap();
    assert!(list.remove_node(handle));
    assert_eq!(list.size, 1);
    assert!(!list.remove_node(handle));
    assert_eq!(list.size, 1);
    assert_eq!(list.render(), "6 --> end");
    assert!(!list.remove_node(999));
    assert_eq!(list.size, 1);
}

#[test]
fn find_all_reports_handles_in_encounter_order() {
    let mut list = DoublyLinkedList::new();
    for v in [9, 1, 9, 2, 9] {
        list.append(v);
    }
    let found = list.find_all(9);
    assert_eq!(found.len(), 3);
    let mut seen = Vec::new();
    for h in &found {
        seen.push(list.nodes[*h].value);
    }
    assert_eq!(seen, vec![9, 9, 9]);
    let first = list.find_first(9).unwrap();
    assert_eq!(first, found[0]);
    assert_eq!(first, list.head.unwrap());
}
