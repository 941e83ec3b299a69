use chotto::arrangements::get_all_possible_arrangements_of_size_k;
use chotto::GenError;

#[test]
fn singletons_for_k_one() {
    let arrs = get_all_possible_arrangements_of_size_k(1, &[5, 7]).unwrap();
    assert_eq!(arrs, vec![vec![5], vec![7]]);
}

#[test]
fn small_universe_exact_order() {
    let arrs = get_all_possible_arrangements_of_size_k(2, &[1, 2, 3]).unwrap();
    assert_eq!(
        arrs,
        vec![
            vec![1, 2],
            vec![1, 3],
            vec![2, 1],
            vec![2, 3],
            vec![3, 1],
            vec![3, 2],
        ]
    );
}

#[test]
fn full_length_permutations() {
    let arrs = get_all_possible_arrangements_of_size_k(3, &[1, 2, 3]).unwrap();
    assert_eq!(
        arrs,
        vec![
            vec![1, 2, 3],
            vec![1, 3, 2],
            vec![2, 1, 3],
            vec![2, 3, 1],
            vec![3, 1, 2],
            vec![3, 2, 1],
        ]
    );
}

#[test]
fn count_matches_falling_factorial() {
    // 5·4·3 = 60
    let arrs = get_all_possible_arrangements_of_size_k(3, &[10, 20, 30, 40, 50]).unwrap();
    assert_eq!(arrs.len(), 60);
    // 15·14 = 210
    let pool: Vec<i32> = (1..=15).collect();
    let arrs = get_all_possible_arrangements_of_size_k(2, &pool).unwrap();
    assert_eq!(arrs.len(), 210);
}

#[test]
fn arrangements_are_valid_and_pairwise_distinct() {
    let pool = [10, 20, 30, 40, 50];
    let arrs = get_all_possible_arrangements_of_size_k(3, &pool).unwrap();
    for a in &arrs {
        assert_eq!(a.len(), 3);
        for (i, v) in a.iter().enumerate() {
            assert!(pool.contains(v));
            for w in &a[i + 1..] {
                assert_ne!(v, w);
            }
        }
    }
    for (i, a) in arrs.iter().enumerate() {
        for b in &arrs[i + 1..] {
            assert_ne!(a, b);
        }
    }
}

#[test]
fn enumeration_is_deterministic() {
    let pool: Vec<i32> = (1..=9).collect();
    let first = get_all_possible_arrangements_of_size_k(3, &pool).unwrap();
    let second = get_all_possible_arrangements_of_size_k(3, &pool).unwrap();
    assert_eq!(first, second);
}

#[test]
fn invalid_arguments_are_rejected() {
    assert_eq!(
        get_all_possible_arrangements_of_size_k(0, &[1, 2, 3]).unwrap_err(),
        GenError::InvalidArgument
    );
    assert_eq!(
        get_all_possible_arrangements_of_size_k(4, &[1, 2, 3]).unwrap_err(),
        GenError::InvalidArgument
    );
    assert_eq!(
        get_all_possible_arrangements_of_size_k(1, &[]).unwrap_err(),
        GenError::InvalidArgument
    );
}
