use chotto::similarity::count_matching_cells;

#[test]
fn exact_similarity_values() {
    assert_eq!(count_matching_cells(&[1, 2, 3, 4, 5], &[1, 9, 3, 9, 5]), 3);
    assert_eq!(count_matching_cells(&[1, 2, 3, 4, 5], &[1, 2, 3, 4, 5]), 5);
    assert_eq!(count_matching_cells(&[1, 2, 3, 4, 5], &[6, 7, 8, 9, 10]), 0);
    assert_eq!(count_matching_cells(&[2, 1], &[1, 2]), 0);
}

#[test]
fn empty_and_short_columns() {
    assert_eq!(count_matching_cells(&[], &[1, 2, 3]), 0);
    assert_eq!(count_matching_cells(&[1, 2, 3], &[]), 0);
    assert_eq!(count_matching_cells(&[1, 2, 3], &[1, 2]), 2);
}

#[test]
fn similarity_is_symmetric() {
    let a = [3, 1, 4, 1, 5];
    let b = [3, 2, 4, 1, 9];
    assert_eq!(count_matching_cells(&a, &b), count_matching_cells(&b, &a));
    assert_eq!(count_matching_cells(&a, &b), 3);
}
