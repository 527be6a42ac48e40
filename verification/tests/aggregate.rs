use show_changed_tests::aggregate::aggregate;

#[test]
fn duplicates_are_dropped_and_the_rest_is_sorted() {
    assert_eq!(aggregate(vec![5, 3, 5, 1, 3]), vec![1, 3, 5]);
}

#[test]
fn nothing_aggregates_to_nothing() {
    assert_eq!(aggregate(vec![]), Vec::<u32>::new());
}

#[test]
fn a_collection_taken_twice_aggregates_to_the_same() {
    let once = vec![42, 7, 4_294_967_295, 0, 7];
    let mut twice = once.clone();
    twice.extend(once.iter());
    assert_eq!(aggregate(twice), aggregate(once.clone()));
    assert_eq!(aggregate(once), vec![0, 7, 42, 4_294_967_295]);
}

#[test]
fn aggregating_again_changes_nothing() {
    let first = aggregate(vec![9, 8, 8, 7]);
    assert_eq!(aggregate(first.clone()), first);
}

#[test]
fn the_result_is_strictly_ascending() {
    let result = aggregate(vec![10, 2, 33, 2, 10, 4, 33, 1]);
    assert!(result.windows(2).all(|pair| pair[0] < pair[1]));
    assert_eq!(result, vec![1, 2, 4, 10, 33]);
}

#[test]
fn the_order_of_the_input_does_not_matter() {
    assert_eq!(aggregate(vec![3, 1, 2]), aggregate(vec![2, 3, 1, 1]));
}
