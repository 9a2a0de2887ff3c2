use framer::linalg::reduce;

#[test]
fn reduce_clears_each_pivot_column() {
    // 2x − y | 120 ; 2x + y | 240
    let mut m: Vec<Vec<i128>> = vec![vec![2, -1, 120], vec![2, 1, 240]];
    let pivots = reduce(&mut m, 2, 3).expect("small entries cannot overflow");
    assert_eq!(pivots, vec![(0, 0), (1, 1)]);
    assert_ne!(m[0][0], 0);
    assert_eq!(m[1][0], 0);
    assert_ne!(m[1][1], 0);
    assert_eq!(m[0][1], 0);
    // The rows still describe x = 90, y = 60.
    assert_eq!(m[0][0] * 90 + m[0][1] * 60, m[0][2]);
    assert_eq!(m[1][0] * 90 + m[1][1] * 60, m[1][2]);
}

#[test]
fn reduce_leaves_dependent_rows_zero() {
    let mut m: Vec<Vec<i128>> = vec![vec![1, 2], vec![2, 4], vec![0, 0]];
    let pivots = reduce(&mut m, 2, 2).expect("small entries cannot overflow");
    assert_eq!(pivots, vec![(0, 0)]);
    assert_eq!(m[1], vec![0, 0]);
    assert_eq!(m[2], vec![0, 0]);
}

#[test]
fn reduce_reports_overflow() {
    let big = i128::MAX / 2;
    let mut m: Vec<Vec<i128>> = vec![vec![big, 1], vec![big - 1, big]];
    assert!(reduce(&mut m, 2, 2).is_none());
}

#[test]
fn reduce_of_one_row_succeeds_with_large_entries() {
    let big: i128 = 1_000_000_000_000_000_000;
    let mut m: Vec<Vec<i128>> = vec![vec![0, big, -big, big, 7]];
    let pivots = reduce(&mut m, 4, 5).expect("one row makes at most one round");
    assert_eq!(pivots, vec![(0, 1)]);
    assert_eq!(m[0], vec![0, big, -big, big, 7]);
}
