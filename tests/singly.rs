use std::fmt::Display;

use singly_linked_list::SinglyLinkedList;

fn get_list_with_values<T>(values: &[T]) -> SinglyLinkedList<T>
where
    T: Display + Copy + PartialEq,
{
    let mut list = SinglyLinkedList::new();
    for &value in values.iter().rev() {
        list.add_front(value);
    }
    list
}

#[test]
fn test_empty_list_display() {
    let list: SinglyLinkedList<i32> = SinglyLinkedList::new();
    assert_eq!("Empty", list.to_string())
}

#[test]
fn test_list_display() {
    let list: SinglyLinkedList<i32> = get_list_with_values::<i32>(&[1, 4, 2]);
    assert_eq!("(head) 1 -> 4 -> 2 ->", list.to_string())
}

#[test]
fn test_peek_front() {
    let list: SinglyLinkedList<i32> = get_list_with_values::<i32>(&[1, 4, 2]);
    let front: Option<i32> = list.peek_front();
    assert_eq!(list.count(), 3);
    assert!(front.is_some());
    assert_eq!(front.unwrap(), 1);
}

#[test]
fn test_peek_front_empty() {
    let list: SinglyLinkedList<i32> = SinglyLinkedList::new();
    let front: Option<i32> = list.peek_front();
    assert_eq!(list.count(), 0);
    assert!(front.is_none());
}

#[test]
fn test_peek_back() {
    let list: SinglyLinkedList<i32> = get_list_with_values::<i32>(&[1, 4, 2]);
    let front: Option<i32> = list.peek_back();
    assert_eq!(list.count(), 3);
    assert!(front.is_some());
    assert_eq!(front.unwrap(), 2);
}

#[test]
fn test_peek_back_empty() {
    let list: SinglyLinkedList<i32> = SinglyLinkedList::new();
    let front: Option<i32> = list.peek_back();
    assert_eq!(list.count(), 0);
    assert!(front.is_none());
}

#[test]
fn test_empty_list() {
    let list: SinglyLinkedList<i32> = SinglyLinkedList::new();
    let head = list.peek_front();
    assert_eq!(list.count(), 0);
    assert!(head.is_none());
}

#[test]
fn test_add_front() {
    let mut list: SinglyLinkedList<i32> = get_list_with_values(&[1, 4, 2]);
    list.add_front(5);
    let head = list.peek_front();
    assert_eq!(list.count(), 4);
    assert_eq!(head.unwrap(), 5);
}

#[test]
fn test_add_front_empty() {
    let mut list: SinglyLinkedList<i32> = SinglyLinkedList::new();
    list.add_front(1);
    let head = list.peek_front();
    assert_eq!(list.count(), 1);
    assert_eq!(head.unwrap(), 1);
}

#[test]
fn test_remove_front() {
    let mut list: SinglyLinkedList<i32> = get_list_with_values(&[1, 4, 2]);
    list.remove_front();
    let head: Option<i32> = list.peek_front();
    assert_eq!(list.count(), 2);
    assert_eq!(head.unwrap(), 4);
}

#[test]
fn test_remove_front_empty() {
    let mut list: SinglyLinkedList<i32> = SinglyLinkedList::new();
    list.remove_front();
    let head = list.peek_front();
    assert_eq!(list.count(), 0);
    assert!(head.is_none());
}

#[test]
fn test_pop_front() {
    let mut list: SinglyLinkedList<i32> = get_list_with_values(&[1, 4, 2]);
    let popped: Option<i32> = list.pop_front();
    let head = list.peek_front();
    assert_eq!(popped.unwrap(), 1);
    assert_eq!(list.count(), 2);
    assert_eq!(head.unwrap(), 4);
}

#[test]
fn test_pop_front_single_element() {
    let mut list: SinglyLinkedList<i32> = get_list_with_values(&[1]);
    let popped: Option<i32> = list.pop_front();
    let head = list.peek_front();
    assert_eq!(popped.unwrap(), 1);
    assert_eq!(list.count(), 0);
    assert!(head.is_none());
}

#[test]
fn test_pop_front_empty() {
    let mut list: SinglyLinkedList<i32> = SinglyLinkedList::new();
    let popped: Option<i32> = list.pop_front();
    let head = list.peek_front();
    assert!(popped.is_none());
    assert_eq!(list.count(), 0);
    assert!(head.is_none());
}

#[test]
fn test_add_at() {
    let mut list: SinglyLinkedList<i32> = get_list_with_values(&[1, 3]);
    let expected_list = get_list_with_values(&[0, 1, 2, 3, 4, 5]);
    list.add_at(2, 1);
    list.add_at(0, 0);
    list.add_at(5, 4);
    list.add_at(4, 4);
    assert!(list.equals(&expected_list));
}

#[test]
fn test_add_back() {
    let mut list: SinglyLinkedList<i32> = get_list_with_values(&[1, 4, 2]);
    list.add_back(5);
    let tail = list.peek_back();
    assert_eq!(list.count(), 4);
    assert_eq!(tail.unwrap(), 5);
}

#[test]
fn test_add_back_empty() {
    let mut list: SinglyLinkedList<i32> = SinglyLinkedList::new();
    list.add_back(1);
    let tail = list.peek_back();
    assert_eq!(list.count(), 1);
    assert_eq!(tail.unwrap(), 1);
}

#[test]
fn test_pop_back() {
    let mut list: SinglyLinkedList<i32> = get_list_with_values(&[1, 4, 2]);
    let popped: Option<i32> = list.pop_back();
    let tail = list.peek_back();
    assert_eq!(popped.unwrap(), 2);
    assert_eq!(list.count(), 2);
    assert_eq!(tail.unwrap(), 4);
}

#[test]
fn test_pop_back_single_element() {
    let mut list: SinglyLinkedList<i32> = get_list_with_values(&[1]);
    let popped: Option<i32> = list.pop_back();
    let tail = list.peek_back();
    assert_eq!(popped.unwrap(), 1);
    assert_eq!(list.count(), 0);
    assert!(tail.is_none());
}

#[test]
fn test_pop_back_empty() {
    let mut list: SinglyLinkedList<i32> = SinglyLinkedList::new();
    let popped: Option<i32> = list.pop_back();
    let tail = list.peek_back();
    assert!(popped.is_none());
    assert_eq!(list.count(), 0);
    assert!(tail.is_none());
}

#[test]
fn test_remove_at() {
    let mut list: SinglyLinkedList<i32> = get_list_with_values(&[0, 1, 2, 3, 4, 5]);
    let expected_list = get_list_with_values(&[1, 3]);
    list.remove_at(2);
    list.remove_at(3);
    list.remove_at(3);
    list.remove_at(0);
    assert!(list.equals(&expected_list));
}
