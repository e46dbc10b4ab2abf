use classic_dsa::linked_list::SinglyLinkedList;

#[test]
fn linked_list_can_push_on_empty_linked_list() {
    let mut linked_list = SinglyLinkedList::new();

    linked_list.push(5);
    assert_eq!(linked_list.len(), 1);
}

#[test]
fn can_push_multiple_times_on_list() {
    let mut linked_list = SinglyLinkedList::new();

    linked_list.push(5);
    linked_list.push(6);
    linked_list.push(7);

    assert_eq!(linked_list.len(), 3);
}

#[test]
fn can_pop_on_empty_linked_list() {
    let mut linked_list = SinglyLinkedList::new();

    let results = linked_list.pop();

    assert_eq!(results, None);
    assert!(linked_list.get(0).is_none());
    assert!(linked_list.is_empty());
}

#[test]
fn can_pop_on_linked_list_with_1_item() {
    let mut linked_list = SinglyLinkedList::from(Vec::from([2]));

    let results = linked_list.pop();

    assert_eq!(results, Some(2));
    assert!(linked_list.get(0).is_none());
    assert!(linked_list.is_empty());
}

#[test]
fn can_pop_multiple_times_on_list() {
    let mut linked_list = SinglyLinkedList::from(Vec::from([2, 3, 10, 20]));

    assert_eq!(linked_list.len(), 4);

    let value = linked_list.pop();
    assert_eq!(value, Some(20));

    let value = linked_list.pop();
    assert_eq!(value, Some(10));

    let value = linked_list.pop();
    assert_eq!(value, Some(3));

    let value = linked_list.pop();
    assert_eq!(value, Some(2));

    let value = linked_list.pop();
    assert!(value.is_none());
}

#[test]
fn can_unshift_on_empty_linked_list() {
    let mut linked_list = SinglyLinkedList::new();

    linked_list.unshift(5);

    assert_eq!(linked_list.len(), 1);
    assert_eq!(linked_list.get(0), Some(5));
    assert_eq!(linked_list.get(linked_list.len() - 1), Some(5));
}

#[test]
fn can_unshift_multiple_times_on_list() {
    let mut linked_list = SinglyLinkedList::new();

    linked_list.unshift(5);
    linked_list.unshift(6);
    linked_list.unshift(7);

    assert_eq!(linked_list.len(), 3);
    assert_eq!(linked_list.get(0), Some(7));
    assert_eq!(linked_list.get(linked_list.len() - 1), Some(5));
}

#[test]
fn returns_none_on_empty_list() {
    let mut linked_list = SinglyLinkedList::new();

    assert_eq!(linked_list.shift(), None);
}

#[test]
fn can_shift_on_linked_list_with_one_node() {
    let mut linked_list = SinglyLinkedList::from(Vec::from([4]));

    assert_eq!(linked_list.shift(), Some(4));
    assert_eq!(linked_list.len(), 0);
    assert!(linked_list.get(0).is_none());
    assert!(linked_list.is_empty());
}

#[test]
fn can_shift_multiple_times_on_list() {
    let mut linked_list = SinglyLinkedList::from(Vec::from([5, 6]));

    assert_eq!(linked_list.shift(), Some(5));
    assert_eq!(linked_list.shift(), Some(6));
    assert_eq!(linked_list.shift(), None);
}

#[test]
fn should_return_none_if_index_greater_then_length() {
    let linked_list = SinglyLinkedList::from(Vec::from([4, 5, 6]));

    assert_eq!(linked_list.get(4), None);
}

#[test]
fn should_return_none_if_list_is_empty() {
    let linked_list = SinglyLinkedList::from(Vec::from([]));

    assert_eq!(linked_list.get(0), None);
}

#[test]
fn should_return_first_item_in_array_if_index_0_passed_in() {
    let linked_list = SinglyLinkedList::from(Vec::from([1]));

    assert_eq!(linked_list.get(0), Some(1));
    assert_eq!(linked_list.get(linked_list.len() - 1), Some(1));
}

#[test]
fn should_return_last_item_in_array_if_requested() {
    let linked_list = SinglyLinkedList::from(Vec::from([1, 2, 3]));

    assert_eq!(linked_list.get(2), Some(3));
    assert_eq!(linked_list.get(0), Some(1));
}

#[test]
fn should_return_false_if_attempting_set_on_empty_list() {
    let mut linked_list = SinglyLinkedList::from(Vec::from([]));

    assert!(!linked_list.set(0, 4));
}

#[test]
fn should_return_false_if_attempting_set_on_index_greater_then_list_length() {
    let mut linked_list = SinglyLinkedList::from(Vec::from([1, 2, 3]));

    assert!(!linked_list.set(3, 4));
}

#[test]
fn should_return_true_and_set_last_value() {
    let mut linked_list = SinglyLinkedList::from(Vec::from([1, 2, 3]));

    assert!(linked_list.set(2, 4));
    assert_eq!(linked_list.get(0), Some(1));
    assert_eq!(linked_list.get(linked_list.len() - 1), Some(4));
}

#[test]
fn should_return_true_and_set_first_value() {
    let mut linked_list = SinglyLinkedList::from(Vec::from([1, 2, 3]));

    assert!(linked_list.set(0, 4));
    assert_eq!(linked_list.get(0), Some(4));
    assert_eq!(linked_list.get(linked_list.len() - 1), Some(3));
}

#[test]
fn should_return_true_and_set_value() {
    let mut linked_list = SinglyLinkedList::from(Vec::from([1, 2, 3]));

    assert!(linked_list.set(1, 4));
    assert_eq!(linked_list.get(0), Some(1));
    assert_eq!(linked_list.get(1), Some(4));
    assert_eq!(linked_list.get(linked_list.len() - 1), Some(3));
}

#[test]
fn sll_insert_returns_false_past_the_length() {
    let mut linked_list = SinglyLinkedList::from(vec![1, 2, 3]);

    assert!(!linked_list.insert(3, 9));
    assert_eq!(linked_list.len(), 3);
}

#[test]
fn sll_insert_at_zero_prepends() {
    let mut linked_list = SinglyLinkedList::from(vec![1, 2, 3]);

    assert!(linked_list.insert(0, 9));
    assert_eq!(linked_list.len(), 4);
    assert_eq!(linked_list.get(0), Some(9));
    assert_eq!(linked_list.get(1), Some(1));
}

#[test]
fn sll_insert_in_the_middle_overwrites_in_place() {
    let mut linked_list = SinglyLinkedList::from(vec![1, 2, 3]);

    assert!(linked_list.insert(1, 9));
    assert_eq!(linked_list.len(), 3);
    assert_eq!(linked_list.get(0), Some(1));
    assert_eq!(linked_list.get(1), Some(9));
    assert_eq!(linked_list.get(2), Some(3));
}
