use classic_dsa::stack::Stack;

#[test]
fn pop_and_push() {
    let mut stack = Stack::new();
    stack.push(5);
    stack.push(4);
    stack.push(3);
    stack.push(2);
    stack.push(1);

    let result = stack.pop();
    assert_eq!(result, Some(1));

    let result = stack.pop();
    assert_eq!(result, Some(2));

    let result = stack.pop();
    assert_eq!(result, Some(3));

    let result = stack.pop();
    assert_eq!(result, Some(4));

    let result = stack.pop();
    assert_eq!(result, Some(5));

    let result = stack.pop();
    assert!(result.is_none());
}

#[test]
fn pop_on_empty_stack_returns_none() {
    let mut stack = Stack::new();

    let results = stack.pop();

    assert!(results.is_none());
}

#[test]
fn pop_on_stack_with_1_layer_returns_layer_and_sets_size_to_0() {
    let mut stack = Stack::from(vec![5]);

    let results = stack.pop();

    assert_eq!(results, Some(5));
    assert_eq!(stack.size(), 0);
}

#[test]
fn can_push_multiple_times() {
    let mut stack = Stack::new();

    stack.push(5);
    stack.push(6);
    stack.push(7);
    stack.push(8);

    assert_eq!(stack.size(), 4);
}

#[test]
fn can_push_on_empty_stack() {
    let mut stack = Stack::new();

    stack.push(5);

    assert_eq!(stack.size(), 1);
}

#[test]
fn stack_can_push_multiple_times() {
    let mut stack = Stack::new();

    stack.push(5);
    stack.push(6);
    stack.push(7);
    stack.push(8);

    assert_eq!(stack.size(), 4);
}

#[test]
fn from_empty_vec_builds_empty_stack() {
    let mut stack = Stack::from(vec![]);

    assert_eq!(stack.size(), 0);
    assert_eq!(stack.pop(), None);
}

#[test]
fn from_vec_pops_in_input_order() {
    let mut stack = Stack::from(vec![1, 2, 3]);

    assert_eq!(stack.size(), 3);
    assert_eq!(stack.pop(), Some(1));
    assert_eq!(stack.pop(), Some(2));
    assert_eq!(stack.pop(), Some(3));
    assert_eq!(stack.pop(), None);
}
