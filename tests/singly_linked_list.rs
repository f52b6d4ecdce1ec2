use data_struct::{ListError, SinglyLinkedList};

#[test]
fn test_new_list() {
    let list: SinglyLinkedList<i32> = SinglyLinkedList::new();
    assert_eq!(list.len(), 0);
    assert!(list.next.is_none());
}

#[test]
fn test_push_front() {
    let mut list = SinglyLinkedList::new();
    list.push_front(1);
    assert_eq!(list.len(), 1);

    list.push_front(2);
    assert_eq!(list.len(), 2);

    let first = list.get(1).unwrap();
    let second = list.get(2).unwrap();
    assert_eq!(*first, 2);
    assert_eq!(*second, 1);
}

#[test]
fn test_push() {
    let mut list = SinglyLinkedList::new();
    list.push(1);
    assert_eq!(list.len(), 1);

    list.push(2);
    assert_eq!(list.len(), 2);

    let first = list.get(1).unwrap();
    let second = list.get(2).unwrap();
    assert_eq!(*first, 1);
    assert_eq!(*second, 2);
}

#[test]
fn test_insert() {
    let mut list = SinglyLinkedList::new();

    list.insert(1, 1).unwrap();
    assert_eq!(list.len(), 1);

    list.insert(0, 1).unwrap();
    assert_eq!(list.len(), 2);

    list.insert(2, 3).unwrap();
    assert_eq!(list.len(), 3);

    list.insert(1, 2).unwrap();
    assert_eq!(list.len(), 4);

    assert_eq!(*list.get(1).unwrap(), 0);
    assert_eq!(*list.get(2).unwrap(), 1);
    assert_eq!(*list.get(3).unwrap(), 1);
    assert_eq!(*list.get(4).unwrap(), 2);
}

#[test]
fn test_get() {
    let mut list = SinglyLinkedList::new();
    list.push(10);
    list.push(20);
    list.push(30);

    assert_eq!(*list.get(1).unwrap(), 10);
    assert_eq!(*list.get(2).unwrap(), 20);
    assert_eq!(*list.get(3).unwrap(), 30);

    assert!(list.get(0).is_err());
    assert!(list.get(4).is_err());
}

#[test]
fn test_delete() {
    let mut list = SinglyLinkedList::new();
    list.push(1);
    list.push(2);
    list.push(3);
    list.push(4);

    list.delete(1).unwrap();
    assert_eq!(list.len(), 3);
    assert_eq!(*list.get(1).unwrap(), 2);

    list.delete(2).unwrap();
    assert_eq!(list.len(), 2);
    assert_eq!(*list.get(2).unwrap(), 4);

    list.delete(2).unwrap();
    assert_eq!(list.len(), 1);
    assert_eq!(*list.get(1).unwrap(), 2);

    list.delete(1).unwrap();
    assert_eq!(list.len(), 0);

    assert!(list.delete(1).is_err());
    assert!(list.delete(0).is_err());
}

#[test]
fn singly_linked_list_test_mixed_operations() {
    let mut list = SinglyLinkedList::new();

    list.push_front(1);
    list.push(3);
    list.insert(2, 2).unwrap();

    assert_eq!(list.len(), 3);
    assert_eq!(*list.get(1).unwrap(), 1);
    assert_eq!(*list.get(2).unwrap(), 2);
    assert_eq!(*list.get(3).unwrap(), 3);

    list.delete(2).unwrap();
    assert_eq!(list.len(), 2);
    assert_eq!(*list.get(1).unwrap(), 1);
    assert_eq!(*list.get(2).unwrap(), 3);
}

#[test]
fn singly_scenario_push_insert_delete_to_empty() {
    let mut list = SinglyLinkedList::new();
    list.push(1);
    list.push(2);
    list.push(3);
    assert_eq!(list.len(), 3);
    assert_eq!(*list.get(1).unwrap(), 1);
    assert_eq!(*list.get(2).unwrap(), 2);
    assert_eq!(*list.get(3).unwrap(), 3);

    list.insert(9, 2).unwrap();
    assert_eq!(list.len(), 4);
    let values: Vec<i32> = (1..=4).map(|i| *list.get(i).unwrap()).collect();
    assert_eq!(values, vec![1, 9, 2, 3]);

    list.delete(1).unwrap();
    assert_eq!(list.len(), 3);
    let values: Vec<i32> = (1..=3).map(|i| *list.get(i).unwrap()).collect();
    assert_eq!(values, vec![9, 2, 3]);

    while list.len() > 0 {
        list.delete(1).unwrap();
    }
    assert_eq!(list.delete(1), Err(ListError::EmptyCollection));
    assert_eq!(list.get(1), Err(ListError::OutOfRange));
    assert_eq!(list.len(), 0);
}

#[test]
fn singly_boundary_rejection_keeps_length() {
    let mut list = SinglyLinkedList::new();
    list.push(5);
    list.push(6);
    assert_eq!(list.get(0), Err(ListError::OutOfRange));
    assert_eq!(list.get(3), Err(ListError::OutOfRange));
    assert_eq!(list.insert(7, 0), Err(ListError::OutOfRange));
    assert_eq!(list.insert(7, 4), Err(ListError::OutOfRange));
    assert_eq!(list.delete(0), Err(ListError::OutOfRange));
    assert_eq!(list.delete(3), Err(ListError::OutOfRange));
    assert_eq!(list.len(), 2);
    assert_eq!(*list.get(1).unwrap(), 5);
    assert_eq!(*list.get(2).unwrap(), 6);

    let mut empty: SinglyLinkedList<i32> = SinglyLinkedList::new();
    assert_eq!(empty.delete(0), Err(ListError::EmptyCollection));
    assert_eq!(empty.get(1), Err(ListError::OutOfRange));
    assert_eq!(empty.len(), 0);
}

#[test]
fn singly_insert_at_end_and_positional_round_trip() {
    let mut list = SinglyLinkedList::new();
    for v in 0..50 {
        list.push(v * 3);
    }
    for i in 1..=50usize {
        assert_eq!(*list.get(i).unwrap(), (i as i32 - 1) * 3);
    }
    list.insert(-1, 51).unwrap();
    assert_eq!(*list.get(51).unwrap(), -1);
    assert_eq!(list.len(), 51);
}
