use rapier_bevy::key_order::{
    first_duplicate_in_order, row_keys_of, rows_by_order, sort_distinct_rows, sort_rows_by_key,
    stable_order_by_key,
};

#[test]
fn stable_order_sorts_keys_keeping_ties() {
    assert_eq!(stable_order_by_key(&vec![5, 3, 5, 1]), vec![3, 1, 0, 2]);
    assert_eq!(stable_order_by_key(&vec![]), Vec::<usize>::new());
    assert_eq!(stable_order_by_key(&vec![2, 2, 2]), vec![0, 1, 2]);
    assert_eq!(stable_order_by_key(&vec![u64::MAX, 0]), vec![1, 0]);
}

#[test]
fn stable_order_matches_std_stable_sort() {
    let keys: Vec<u64> = (0..60u64).map(|i| (i * 37 + 11) % 13).collect();
    let mut expected: Vec<usize> = (0..keys.len()).collect();
    expected.sort_by_key(|&i| keys[i]);
    assert_eq!(stable_order_by_key(&keys), expected);
}

#[test]
fn duplicate_detection_names_smallest_key() {
    let keys = vec![9, 4, 9, 4, 1];
    let order = stable_order_by_key(&keys);
    assert_eq!(first_duplicate_in_order(&keys, &order), Some(4));
    let distinct = vec![3, 1, 2];
    let order2 = stable_order_by_key(&distinct);
    assert_eq!(first_duplicate_in_order(&distinct, &order2), None);
}

#[test]
fn sort_rows_and_distinct_rows() {
    let rows = vec![(3u64, 'c'), (1, 'a'), (2, 'b')];
    assert_eq!(sort_rows_by_key(&rows), vec![(1, 'a'), (2, 'b'), (3, 'c')]);
    assert_eq!(sort_distinct_rows(&rows), Ok(vec![(1, 'a'), (2, 'b'), (3, 'c')]));
    let dup = vec![(7u64, 'x'), (2, 'y'), (7, 'z'), (2, 'w')];
    assert_eq!(sort_distinct_rows(&dup), Err(2));
    assert_eq!(sort_rows_by_key(&dup), vec![(2, 'y'), (2, 'w'), (7, 'x'), (7, 'z')]);
}

#[test]
fn row_keys_and_rows_by_order() {
    let rows = vec![(10u64, 1u8), (20, 2), (30, 3)];
    assert_eq!(row_keys_of(&rows), vec![10, 20, 30]);
    assert_eq!(rows_by_order(&rows, &vec![2, 0, 2]), vec![(30, 3), (10, 1), (30, 3)]);
}
