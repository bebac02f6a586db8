use doubly::DoublyLinkedList;

#[test]
fn test_empty_list() {
    let list: DoublyLinkedList = DoublyLinkedList::new();
    assert!(list.head.is_none());
    assert!(list.tail.is_none());
}

#[test]
fn test_single_item_list() {
    let mut list: DoublyLinkedList = DoublyLinkedList::new();
    list.append(1);
    assert_eq!(list.nodes[list.head.unwrap()].value, 1);
    assert_eq!(
        list.nodes[list.head.unwrap()].value,
        list.nodes[list.tail.unwrap()].value
    );
    list.remove_head();
    assert!(list.head.is_none());
    assert!(list.tail.is_none())
}

#[test]
fn test_two_item_list() {
    let mut list: DoublyLinkedList = DoublyLinkedList::new();
    list.append(1);
    assert_eq!(list.nodes[list.head.unwrap()].value, 1);
    assert_eq!(list.nodes[list.tail.unwrap()].value, 1);
    list.append(2);
    assert_eq!(list.nodes[list.tail.unwrap()].value, 2);
    list.remove_tail();
    assert_eq!(list.nodes[list.tail.unwrap()].value, 1);
}

#[test]
fn test_append() {
    let mut list = DoublyLinkedList::new();
    list.append(1);
    assert_eq!(list.nodes[list.head.unwrap()].value, 1);
    assert_eq!(list.nodes[list.tail.unwrap()].value, 1);
    list.append(2);
    assert_eq!(list.nodes[list.head.unwrap()].value, 1);
    assert_eq!(list.nodes[list.tail.unwrap()].value, 2);
}

#[test]
fn test_remove_head() {
    let mut list = DoublyLinkedList::new();
    list.append(1);
    list.append(2);
    list.append(3);
    assert_eq!(list.nodes[list.head.unwrap()].value, 1);
    list.remove_head();
    assert_eq!(list.nodes[list.head.unwrap()].value, 2);
    list.remove_head();
    assert_eq!(list.nodes[list.head.unwrap()].value, 3);
}

#[test]
fn test_remove_middle() {
    let mut list = DoublyLinkedList::new();
    list.append(1);
    list.append(2);
    list.append(3);
    list.remove_value(2);
    assert!(list.find_first(2).is_none());
    let three = list.find_first(3).unwrap();
    let before_three = list.nodes[three].previous.unwrap();
    assert_eq!(list.nodes[before_three].value, 1);
    let one = list.find_first(1).unwrap();
    let after_one = list.nodes[one].next.unwrap();
    assert_eq!(list.nodes[after_one].value, 3)
}

#[test]
fn test_remove_tail() {
    let mut list = DoublyLinkedList::new();
    list.append(1);
    list.append(2);
    list.append(3);
    list.remove_tail();
    assert_eq!(list.nodes[list.tail.unwrap()].value, 2);
    let before_tail = list.nodes[list.tail.unwrap()].previous.unwrap();
    assert_eq!(list.nodes[before_tail].value, 1);
    let after_head = list.nodes[list.head.unwrap()].next.unwrap();
    assert_eq!(list.nodes[after_head].value, 2);
}

#[test]
fn test_remove_node() {
    let mut list = DoublyLinkedList::new();
    list.append(1);
    list.append(2);
    list.append(3);
    let node_to_remove = list.find_first(2).unwrap();
    list.remove_node(node_to_remove);
    assert!(list.find_first(2).is_none());
}

#[test]
fn test_find_first() {
    let mut list = DoublyLinkedList::new();
    list.append(1);
    list.append(2);
    assert!(list.find_first(1).is_some());
    assert!(list.find_first(2).is_some());
    assert!(list.find_first(3).is_none());
}

#[test]
fn test_find_all() {
    let mut list = DoublyLinkedList::new();
    list.append(1);
    list.append(2);
    list.append(2);
    list.append(3);
    let found = list.find_all(2);
    assert_eq!(found.len(), 2);
    for node in found {
        assert_eq!(list.nodes[node].value, 2);
    }
    assert!(list.find_all(4).is_empty());
}

#[test]
fn test_remove_all() {
    let mut list = DoublyLinkedList::new();
    list.append(1);
    list.append(2);
    list.append(3);
    list.append(4);
    assert_eq!(list.nodes[list.head.unwrap()].value, 1);
    assert_eq!(list.nodes[list.tail.unwrap()].value, 4);
    list.remove_all();
    assert!(list.head.is_none());
    assert!(list.tail.is_none());
    assert_eq!(list.size, 0)
}

#[test]
fn test_remove_from_middle() {
    let mut list = DoublyLinkedList::new();
    list.append(1);
    list.append(2);
    list.append(3);
    list.append(4);
    list.append(5);

    list.remove_value(3);
    list.remove_value(4);

    let before_tail = list.nodes[list.tail.unwrap()].previous.unwrap();
    assert_eq!(list.nodes[before_tail].value, 2);

    let two = list.find_first(2).unwrap();
    let after_two = list.nodes[two].next.unwrap();
    assert_eq!(list.nodes[after_two].value, 5);
}

#[test]
fn test_length() {
    let mut list = DoublyLinkedList::new();
    list.append(1);
    list.append(2);
    list.append(3);
    list.append(4);
    list.append(5);

    assert_eq!(list.size, 5);

    list.remove_value(1);
    list.remove_value(2);
    list.remove_value(3);
    list.remove_value(4);
    list.remove_value(5);

    assert_eq!(list.size, 0);
}
