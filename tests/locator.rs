use tdc_sieve::{binary_search_position, is_sorted};

#[test]
fn check_binary_search() {
    let vals: Vec<usize> = vec![10, 22, 33, 45];
    assert_eq!(binary_search_position(&vals, 4), 0);
    assert_eq!(binary_search_position(&vals, 23), 2);
    assert_eq!(binary_search_position(&vals, 13), 1);
    let vals: Vec<usize> = vec![0, 2, 3, 5];
    assert_eq!(binary_search_position(&vals, 4), 3);
    assert_eq!(binary_search_position(&vals, 6), 4);
    assert_eq!(binary_search_position(&vals, 1), 1);
}

#[test]
fn upper_bound_counts_elements_at_most_query() {
    let vals: Vec<usize> = vec![10, 22, 33, 45];
    assert_eq!(binary_search_position(&vals, 45), 4);
    assert_eq!(binary_search_position(&vals, 46), 4);
    assert_eq!(binary_search_position(&vals, 10), 1);
    assert_eq!(binary_search_position(&vals, 9), 0);
}

#[test]
fn upper_bound_with_equal_elements() {
    let vals: Vec<usize> = vec![5, 7, 7, 7, 9];
    assert_eq!(binary_search_position(&vals, 6), 1);
    assert_eq!(binary_search_position(&vals, 7), 4);
    assert_eq!(binary_search_position(&vals, 8), 4);
}

#[test]
fn upper_bound_on_empty_timeline() {
    let vals: Vec<usize> = Vec::new();
    assert_eq!(binary_search_position(&vals, 0), 0);
    assert_eq!(binary_search_position(&vals, usize::MAX), 0);
}

#[test]
fn upper_bound_is_monotonic() {
    let vals: Vec<usize> = vec![1, 3, 3, 8, 20, 21];
    let mut last = 0;
    for q in 0..30 {
        let i = binary_search_position(&vals, q);
        assert!(i >= last);
        assert_eq!(i, vals.iter().filter(|&&v| v <= q).count());
        last = i;
    }
}

#[test]
fn sortedness_check() {
    assert!(is_sorted(&Vec::new()));
    assert!(is_sorted(&vec![4]));
    assert!(is_sorted(&vec![1, 1, 2]));
    assert!(!is_sorted(&vec![2, 1]));
    assert!(!is_sorted(&vec![1, 3, 2, 4]));
}
