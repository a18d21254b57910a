use binary_search_tree::inputs::{init, init_reverse_sorted, init_sorted};
use binary_search_tree::sorted_insertion::{
    deque_position_at_least, position_at_least, vec_insertion_sort, vecdeque_insertion_sort,
};
use std::collections::VecDeque;

fn sorted_copy(values: &Vec<usize>) -> Vec<usize> {
    let mut copy = values.clone();
    copy.sort();
    copy
}

#[test]
fn init_draws_9999_values() {
    let values = init();
    assert_eq!(values.len(), 9999);
    let first = values[0];
    assert!(values.iter().any(|value| *value != first));
}

#[test]
fn init_sorted_counts_up() {
    let values = init_sorted();
    assert_eq!(values.len(), 9999);
    assert_eq!(values[0], 1);
    assert_eq!(values[1], 2);
    assert_eq!(values[9998], 9999);
    assert!(values.iter().enumerate().all(|(i, value)| *value == i + 1));
}

#[test]
fn init_reverse_sorted_counts_down() {
    let values = init_reverse_sorted();
    assert_eq!(values.len(), 9999);
    assert_eq!(values[0], 99999);
    assert_eq!(values[1], 99998);
    assert_eq!(values[9998], 90001);
    assert!(values.iter().enumerate().all(|(i, value)| *value == 99999 - i));
}

#[test]
fn vec_insertion_sort_sorts() {
    assert_eq!(vec_insertion_sort(&vec![]), Vec::<usize>::new());
    assert_eq!(vec_insertion_sort(&vec![5]), vec![5]);
    assert_eq!(vec_insertion_sort(&vec![3, 1, 2]), vec![1, 2, 3]);
    assert_eq!(vec_insertion_sort(&vec![4, 4, 1, 9, 1, 0, 7, 4]), vec![0, 1, 1, 4, 4, 4, 7, 9]);
    assert_eq!(vec_insertion_sort(&vec![0, usize::MAX, 0]), vec![0, 0, usize::MAX]);
}

#[test]
fn vecdeque_insertion_sort_sorts() {
    assert_eq!(vecdeque_insertion_sort(&vec![]), VecDeque::<usize>::new());
    assert_eq!(vecdeque_insertion_sort(&vec![5]), VecDeque::from(vec![5]));
    assert_eq!(vecdeque_insertion_sort(&vec![3, 1, 2]), VecDeque::from(vec![1, 2, 3]));
    assert_eq!(
        vecdeque_insertion_sort(&vec![4, 4, 1, 9, 1, 0, 7, 4, 5]),
        VecDeque::from(vec![0, 1, 1, 4, 4, 4, 5, 7, 9])
    );
    assert_eq!(
        vecdeque_insertion_sort(&vec![usize::MAX, 0, usize::MAX]),
        VecDeque::from(vec![0, usize::MAX, usize::MAX])
    );
}

#[test]
fn insertion_sorts_agree_with_std_sort() {
    let random_values = init();
    let expected = sorted_copy(&random_values);
    assert_eq!(vec_insertion_sort(&random_values), expected);
    assert_eq!(vecdeque_insertion_sort(&random_values), VecDeque::from(expected));
}

#[test]
fn insertion_sorts_on_sorted_and_reversed_input() {
    let rising = init_sorted();
    let falling = init_reverse_sorted();
    assert_eq!(vec_insertion_sort(&rising), rising);
    assert_eq!(vecdeque_insertion_sort(&rising), VecDeque::from(rising));
    let expected = sorted_copy(&falling);
    assert_eq!(vec_insertion_sort(&falling), expected);
    assert_eq!(vecdeque_insertion_sort(&falling), VecDeque::from(expected));
}

#[test]
fn position_is_first_element_at_least_value() {
    let values = vec![2, 4, 4, 8];
    assert_eq!(position_at_least(&values, 0), 0);
    assert_eq!(position_at_least(&values, 2), 0);
    assert_eq!(position_at_least(&values, 3), 1);
    assert_eq!(position_at_least(&values, 4), 1);
    assert_eq!(position_at_least(&values, 5), 3);
    assert_eq!(position_at_least(&values, 8), 3);
    assert_eq!(position_at_least(&values, 9), 4);
    assert_eq!(position_at_least(&vec![], 9), 0);
    let deque = VecDeque::from(values);
    assert_eq!(deque_position_at_least(&deque, 0), 0);
    assert_eq!(deque_position_at_least(&deque, 4), 1);
    assert_eq!(deque_position_at_least(&deque, 5), 3);
    assert_eq!(deque_position_at_least(&deque, 9), 4);
}
