use classic_dsa::insertion_sort;

#[test]
fn insertion_sort_sort_sorted_array() {
    let mut array_1 = vec![1, 2, 3, 4, 5, 6, 7, 8, 9, 10];
    let mut array_2 = array_1.clone();

    array_2.sort();
    insertion_sort::sort(&mut array_1);

    assert_eq!(array_1, array_2);
}

#[test]
fn insertion_sort_sort_backwards_array() {
    let mut array_1 = vec![10, 9, 8, 7, 6, 5, 4, 3, 2, 1];
    let mut array_2 = array_1.clone();

    array_2.sort();
    insertion_sort::sort(&mut array_1);

    assert_eq!(array_1, array_2);
}

#[test]
fn insertion_sort_sort_random_array() {
    let mut array_1 = vec![10, 9, 22, 10, 15, 5, 20, 1, 2, 1];
    let mut array_2 = array_1.clone();

    array_2.sort();
    insertion_sort::sort(&mut array_1);

    assert_eq!(array_1, array_2);
}

#[test]
fn insertion_sort_sort_empty_and_single_value_arrays() {
    let mut empty: Vec<i64> = vec![];
    insertion_sort::sort(&mut empty);
    assert_eq!(empty, Vec::<i64>::new());

    let mut single = vec![3];
    insertion_sort::sort(&mut single);
    assert_eq!(single, vec![3]);
}
