use classic_dsa::doubly_linked_list::DoublyLinkedList;

fn collected(list: &DoublyLinkedList) -> Vec<i64> {
    let mut values = Vec::new();
    let mut index = 0;
    while let Some(value) = list.get(index) {
        values.push(value);
        index += 1;
    }
    values
}

#[test]
fn can_push_on_empty_linked_list() {
    let mut linked_list = DoublyLinkedList::new();

    linked_list.push(5);
    assert_eq!(linked_list.len(), 1);

    assert_eq!(linked_list.get(0), Some(5));
    assert_eq!(linked_list.get(linked_list.len() - 1), Some(5));
    assert_eq!(linked_list.get(1), None);
}

#[test]
fn can_push_on_linked_list_with_1_item() {
    let mut linked_list = DoublyLinkedList::from(Vec::from([1]));

    linked_list.push(2);
    assert_eq!(linked_list.len(), 2);

    assert_eq!(linked_list.get(0), Some(1));
    assert_eq!(linked_list.get(1), Some(2));
    assert_eq!(linked_list.get(linked_list.len() - 1), Some(2));
}

#[test]
fn can_push_on_linked_list_multiple_times() {
    let mut linked_list = DoublyLinkedList::new();

    linked_list.push(1);
    linked_list.push(2);
    linked_list.push(3);

    assert_eq!(linked_list.len(), 3);
    assert_eq!(linked_list.get(0), Some(1));
    assert_eq!(linked_list.get(1), Some(2));
    assert_eq!(linked_list.get(2), Some(3));
    assert_eq!(linked_list.get(linked_list.len() - 1), Some(3));
}

#[test]
fn returns_none_when_called_on_empty_list() {
    let mut linked_list = DoublyLinkedList::new();

    let results = linked_list.pop();

    assert_eq!(linked_list.len(), 0);

    assert!(results.is_none());
    assert!(linked_list.get(0).is_none());
    assert!(linked_list.is_empty());
}

#[test]
fn returns_value_and_empty_list_if_only_1_value() {
    let mut linked_list = DoublyLinkedList::from(Vec::from([1]));

    let results = linked_list.pop();
    assert_eq!(linked_list.len(), 0);
    assert_eq!(results, Some(1));
    assert!(linked_list.get(0).is_none());
}

#[test]
fn returns_value_and_multiple_times() {
    let mut linked_list = DoublyLinkedList::from(Vec::from([1, 2, 3, 4]));

    let result = linked_list.pop();
    assert_eq!(linked_list.len(), 3);
    assert_eq!(result, Some(4));
    assert_eq!(linked_list.get(linked_list.len() - 1), Some(3));

    let result = linked_list.pop();
    assert_eq!(linked_list.len(), 2);
    assert_eq!(result, Some(3));
    assert_eq!(linked_list.get(linked_list.len() - 1), Some(2));

    let result = linked_list.pop();
    assert_eq!(linked_list.len(), 1);
    assert_eq!(result, Some(2));
    assert_eq!(linked_list.get(linked_list.len() - 1), Some(1));

    let result = linked_list.pop();
    assert_eq!(linked_list.len(), 0);
    assert_eq!(result, Some(1));
    assert!(linked_list.get(0).is_none());
}

#[test]
fn can_shift_on_empty_linked_list() {
    let mut linked_list = DoublyLinkedList::new();

    linked_list.shift(5);
    assert_eq!(linked_list.len(), 1);

    assert_eq!(linked_list.get(0), Some(5));
    assert_eq!(linked_list.get(linked_list.len() - 1), Some(5));
    assert_eq!(linked_list.get(1), None);
}

#[test]
fn can_shift_on_linked_list_with_1_item() {
    let mut linked_list = DoublyLinkedList::from(Vec::from([2]));

    linked_list.shift(1);
    assert_eq!(linked_list.len(), 2);

    assert_eq!(linked_list.get(0), Some(1));
    assert_eq!(linked_list.get(1), Some(2));
    assert_eq!(linked_list.get(linked_list.len() - 1), Some(2));
}

#[test]
fn can_shift_on_linked_list_multiple_times() {
    let mut linked_list = DoublyLinkedList::new();

    linked_list.shift(3);
    linked_list.shift(2);
    linked_list.shift(1);

    assert_eq!(linked_list.len(), 3);
    assert_eq!(linked_list.get(0), Some(1));
    assert_eq!(linked_list.get(1), Some(2));
    assert_eq!(linked_list.get(2), Some(3));
    assert_eq!(linked_list.get(linked_list.len() - 1), Some(3));
}

#[test]
fn doubly_linked_list_returns_none_when_called_on_empty_list() {
    let mut linked_list = DoublyLinkedList::new();

    let results = linked_list.unshift();

    assert_eq!(linked_list.len(), 0);

    assert!(results.is_none());
    assert!(linked_list.get(0).is_none());
    assert!(linked_list.is_empty());
}

#[test]
fn doubly_linked_list_returns_value_and_empty_list_if_only_1_value() {
    let mut linked_list = DoublyLinkedList::from(Vec::from([1]));

    let results = linked_list.unshift();
    assert_eq!(linked_list.len(), 0);
    assert_eq!(results, Some(1));
    assert!(linked_list.get(0).is_none());
}

#[test]
fn doubly_linked_list_returns_value_and_multiple_times() {
    let mut linked_list = DoublyLinkedList::from(Vec::from([1, 2, 3, 4]));

    let result = linked_list.unshift();
    assert_eq!(linked_list.len(), 3);
    assert_eq!(result, Some(1));
    assert_eq!(linked_list.get(0), Some(2));

    let result = linked_list.unshift();
    assert_eq!(linked_list.len(), 2);
    assert_eq!(result, Some(2));
    assert_eq!(linked_list.get(0), Some(3));

    let result = linked_list.unshift();
    assert_eq!(linked_list.len(), 1);
    assert_eq!(result, Some(3));
    assert_eq!(linked_list.get(0), Some(4));

    let result = linked_list.unshift();
    assert_eq!(linked_list.len(), 0);
    assert_eq!(result, Some(4));
    assert!(linked_list.get(0).is_none());
}

#[test]
fn dll_get_returns_none_when_called_on_empty_list() {
    let linked_list = DoublyLinkedList::new();

    let results = linked_list.get(0);

    assert_eq!(linked_list.len(), 0);
    assert!(results.is_none());
}

#[test]
fn returns_none_when_called_with_index_greater_then_len() {
    let linked_list = DoublyLinkedList::from(Vec::from([1, 2, 3, 4]));

    let results = linked_list.get(5);

    assert_eq!(linked_list.len(), 4);

    assert!(results.is_none());
    assert_eq!(linked_list.get(0), Some(1));
    assert_eq!(linked_list.get(linked_list.len() - 1), Some(4));
}

#[test]
fn returns_head_value_when_index_0_passed_in() {
    let linked_list = DoublyLinkedList::from(Vec::from([1, 2, 3, 4]));

    let results = linked_list.get(0);

    assert_eq!(linked_list.len(), 4);

    assert_eq!(results, Some(1));
    assert_eq!(linked_list.get(0), Some(1));
    assert_eq!(linked_list.get(linked_list.len() - 1), Some(4));
}

#[test]
fn returns_tail_value_when_len_minus_1_passed_in() {
    let linked_list = DoublyLinkedList::from(Vec::from([1, 2, 3, 4]));

    let results = linked_list.get(linked_list.len() - 1);

    assert_eq!(linked_list.len(), 4);

    assert_eq!(results, Some(4));
    assert_eq!(linked_list.get(0), Some(1));
    assert_eq!(linked_list.get(linked_list.len() - 1), Some(4));
}

#[test]
fn returns_proper_value_at_index() {
    let linked_list = DoublyLinkedList::from(Vec::from([1, 2, 3, 4]));

    let results = linked_list.get(2);

    assert_eq!(linked_list.len(), 4);

    assert_eq!(results, Some(3));
    assert_eq!(linked_list.get(0), Some(1));
    assert_eq!(linked_list.get(linked_list.len() - 1), Some(4));
}

#[test]
fn dll_set_returns_none_when_called_on_empty_list() {
    let mut linked_list = DoublyLinkedList::new();

    let results = linked_list.set(0, 1);

    assert_eq!(linked_list.len(), 0);
    assert!(results.is_none());
    assert!(linked_list.get(0).is_none());
}

#[test]
fn doubly_linked_list_returns_none_when_called_with_index_greater_then_len() {
    let mut linked_list = DoublyLinkedList::from(Vec::from([1, 2, 3, 4]));

    let results = linked_list.set(5, 6);

    assert_eq!(linked_list.len(), 4);

    assert!(results.is_none());
    assert_eq!(linked_list.get(0), Some(1));
    assert_eq!(linked_list.get(linked_list.len() - 1), Some(4));
}

#[test]
fn doubly_linked_list_returns_head_value_when_index_0_passed_in() {
    let mut linked_list = DoublyLinkedList::from(Vec::from([1, 2, 3, 4]));

    let results = linked_list.set(0, 6);

    assert_eq!(linked_list.len(), 4);

    assert_eq!(results, Some(1));
    assert_eq!(linked_list.get(0), Some(6));
    assert_eq!(linked_list.get(linked_list.len() - 1), Some(4));
}

#[test]
fn doubly_linked_list_returns_tail_value_when_len_minus_1_passed_in() {
    let mut linked_list = DoublyLinkedList::from(Vec::from([1, 2, 3, 4]));

    let results = linked_list.set(linked_list.len() - 1, 5);

    assert_eq!(linked_list.len(), 4);

    assert_eq!(results, Some(4));
    assert_eq!(linked_list.get(0), Some(1));
    assert_eq!(linked_list.get(linked_list.len() - 1), Some(5));
}

#[test]
fn doubly_linked_list_returns_proper_value_at_index() {
    let mut linked_list = DoublyLinkedList::from(Vec::from([1, 2, 3, 4]));

    let results = linked_list.set(2, 8);

    assert_eq!(linked_list.len(), 4);

    assert_eq!(results, Some(3));
    assert_eq!(linked_list.get(0), Some(1));
    assert_eq!(linked_list.get(2), Some(8));
    assert_eq!(linked_list.get(linked_list.len() - 1), Some(4));
}

#[test]
fn dll_remove_returns_none_when_called_on_empty_list() {
    let mut linked_list = DoublyLinkedList::new();

    let results = linked_list.remove(0);

    assert_eq!(linked_list.len(), 0);
    assert!(results.is_none());
    assert!(linked_list.get(0).is_none());
}

#[test]
fn returns_none_when_called_with_greater_then_length() {
    let mut linked_list = DoublyLinkedList::from(Vec::from([1]));

    let results = linked_list.remove(1);

    assert_eq!(linked_list.len(), 1);

    assert!(results.is_none());
    assert_eq!(linked_list.get(0), Some(1));
    assert_eq!(linked_list.get(linked_list.len() - 1), Some(1));
}

#[test]
fn dll_remove_returns_value_and_empty_list_if_only_1_value() {
    let mut linked_list = DoublyLinkedList::from(Vec::from([1]));

    let results = linked_list.remove(0);
    assert_eq!(linked_list.len(), 0);
    assert_eq!(results, Some(1));
    assert!(linked_list.get(0).is_none());
}

#[test]
fn dll_remove_returns_value_and_multiple_times() {
    let mut linked_list = DoublyLinkedList::from(Vec::from([1, 2, 3, 4]));

    let result = linked_list.remove(2);

    assert_eq!(linked_list.len(), 3);
    assert_eq!(result, Some(3));

    let result = linked_list.remove(1);

    assert_eq!(linked_list.len(), 2);
    assert_eq!(result, Some(2));

    let result = linked_list.remove(1);

    assert_eq!(linked_list.len(), 1);
    assert_eq!(result, Some(4));

    let result = linked_list.remove(0);

    assert_eq!(linked_list.len(), 0);
    assert_eq!(result, Some(1));
    assert!(linked_list.get(0).is_none());
}

#[test]
fn remove_at_two_then_zero_scenario() {
    let mut linked_list = DoublyLinkedList::from(vec![1, 2, 3, 4]);

    assert_eq!(linked_list.remove(2), Some(3));
    assert_eq!(collected(&linked_list), vec![1, 2, 4]);

    assert_eq!(linked_list.remove(0), Some(1));
    assert_eq!(collected(&linked_list), vec![2, 4]);
}

#[test]
fn remove_keeps_length_on_out_of_range_index() {
    let mut linked_list = DoublyLinkedList::from(vec![7, 8, 9]);

    assert_eq!(linked_list.remove(3), None);
    assert_eq!(linked_list.remove(100), None);
    assert_eq!(linked_list.len(), 3);
    assert_eq!(collected(&linked_list), vec![7, 8, 9]);
}

#[test]
fn insert_places_value_at_each_position() {
    let mut linked_list = DoublyLinkedList::from(vec![1, 3]);

    linked_list.insert(1, 2);
    assert_eq!(collected(&linked_list), vec![1, 2, 3]);

    linked_list.insert(0, 0);
    assert_eq!(collected(&linked_list), vec![0, 1, 2, 3]);

    linked_list.insert(4, 4);
    assert_eq!(collected(&linked_list), vec![0, 1, 2, 3, 4]);

    linked_list.insert(9, 9);
    assert_eq!(collected(&linked_list), vec![0, 1, 2, 3, 4]);
}

#[test]
fn insert_at_zero_on_empty_list() {
    let mut linked_list = DoublyLinkedList::new();

    linked_list.insert(0, 5);
    assert_eq!(linked_list.len(), 1);
    assert_eq!(collected(&linked_list), vec![5]);

    linked_list.insert(2, 9);
    assert_eq!(collected(&linked_list), vec![5]);
}

#[test]
fn push_then_pop_yields_reverse() {
    let values = vec![1, 2, 3, 4, 5];
    let mut linked_list = DoublyLinkedList::new();
    for &value in &values {
        linked_list.push(value);
    }

    let mut popped = Vec::new();
    while let Some(value) = linked_list.pop() {
        popped.push(value);
    }

    let mut reversed = values.clone();
    reversed.reverse();
    assert_eq!(popped, reversed);
}

#[test]
fn shift_then_unshift_yields_reverse() {
    let values = vec![1, 2, 3, 4, 5];
    let mut linked_list = DoublyLinkedList::new();
    for &value in &values {
        linked_list.shift(value);
    }

    let mut unshifted = Vec::new();
    while let Some(value) = linked_list.unshift() {
        unshifted.push(value);
    }

    let mut reversed = values.clone();
    reversed.reverse();
    assert_eq!(unshifted, reversed);
}

#[test]
fn mixed_operations_keep_walk_consistent() {
    let mut linked_list = DoublyLinkedList::new();

    linked_list.push(2);
    linked_list.shift(1);
    linked_list.push(3);
    linked_list.shift(0);
    assert_eq!(collected(&linked_list), vec![0, 1, 2, 3]);
    assert_eq!(linked_list.len(), 4);

    assert_eq!(linked_list.remove(1), Some(1));
    assert_eq!(linked_list.pop(), Some(3));
    assert_eq!(linked_list.unshift(), Some(0));
    assert_eq!(collected(&linked_list), vec![2]);
    assert_eq!(linked_list.len(), 1);
}
