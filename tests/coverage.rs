use heuristic_solver::coverage::{
    _check_cover, get_vec_desc, remove_tag, sum_descriptor, vertical_diff, vertical_sum,
};

#[test]
fn vertical_sum_adds_itemwise() {
    let mut s: Vec<u16> = vec![1, 2, 3, 4, 5, 6, 7, 8, 9, 10, 11];
    let v: Vec<u16> = vec![10, 20, 30, 40, 50, 60, 70, 80, 90, 100, 110];
    vertical_sum(&mut s, &v);
    assert_eq!(s, vec![11, 22, 33, 44, 55, 66, 77, 88, 99, 110, 121]);
}

#[test]
fn vertical_diff_subtracts_itemwise() {
    let mut s: Vec<u16> = vec![11, 22, 33, 44, 55, 66, 77, 88, 99];
    let v: Vec<u16> = vec![1, 2, 3, 4, 5, 6, 7, 8, 9];
    vertical_diff(&mut s, &v);
    assert_eq!(s, vec![10, 20, 30, 40, 50, 60, 70, 80, 90]);
}

#[test]
fn sum_then_diff_restores() {
    let orig: Vec<u16> = vec![0, 5, 65000, 7, 1, 2, 3, 4, 9, 12];
    let v: Vec<u16> = vec![3, 0, 535, 9, 0, 1, 1, 1, 1, 65000];
    let mut s = orig.clone();
    vertical_sum(&mut s, &v);
    assert_ne!(s, orig);
    vertical_diff(&mut s, &v);
    assert_eq!(s, orig);
}

#[test]
fn vertical_ops_on_empty() {
    let mut s: Vec<u16> = vec![];
    vertical_sum(&mut s, &vec![]);
    vertical_diff(&mut s, &vec![]);
    assert!(s.is_empty());
}

#[test]
fn sum_descriptor_sums_rows() {
    let desc: Vec<Vec<u16>> = vec![vec![1, 1, 0], vec![0, 1, 1], vec![1, 0, 1]];
    assert_eq!(sum_descriptor(&desc), vec![2, 2, 2]);
    let one: Vec<Vec<u16>> = vec![vec![4, 0, 9]];
    assert_eq!(sum_descriptor(&one), vec![4, 0, 9]);
}

#[test]
fn get_vec_desc_selects_rows_in_order() {
    let b: Vec<Vec<u16>> = vec![vec![1, 0], vec![0, 1], vec![1, 1]];
    let d: Vec<usize> = vec![2, 0, 2];
    assert_eq!(get_vec_desc(&b, &d), vec![vec![1, 1], vec![1, 0], vec![1, 1]]);
    assert!(get_vec_desc(&b, &vec![]).is_empty());
}

#[test]
fn check_cover_detects_uncovered_item() {
    assert!(_check_cover(&vec![1, 2, 3]));
    assert!(!_check_cover(&vec![1, 0, 3]));
    assert!(_check_cover(&vec![]));
}

#[test]
fn remove_tag_commits_when_still_covered() {
    let rows: Vec<Vec<u16>> = vec![vec![1, 1, 0], vec![0, 1, 1]];
    let mut cov: Vec<u16> = vec![2, 2, 1];
    assert!(remove_tag(0, &rows, &mut cov));
    assert_eq!(cov, vec![1, 1, 1]);
}

#[test]
fn remove_tag_rolls_back_when_item_uncovered() {
    let rows: Vec<Vec<u16>> = vec![vec![1, 1, 0], vec![0, 1, 1]];
    let mut cov: Vec<u16> = vec![1, 2, 1];
    assert!(!remove_tag(0, &rows, &mut cov));
    assert_eq!(cov, vec![1, 2, 1]);
    let mut cov2: Vec<u16> = vec![2, 2, 1];
    assert!(!remove_tag(1, &rows, &mut cov2));
    assert_eq!(cov2, vec![2, 2, 1]);
}

#[test]
fn remove_tag_refuses_row_larger_than_coverage() {
    let rows: Vec<Vec<u16>> = vec![vec![3, 0]];
    let mut cov: Vec<u16> = vec![2, 5];
    assert!(!remove_tag(0, &rows, &mut cov));
    assert_eq!(cov, vec![2, 5]);
}
