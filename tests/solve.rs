use heuristic_solver::diff::{check_comparable, get_non_matching_row};
use heuristic_solver::solve::{
    check_reduction, prepare_reduction, rebuild_descriptor, reduced_descriptor, select_tags,
    two_matrix_solve,
};

fn grid(rows: usize, cols: usize) -> Vec<Vec<u16>> {
    let mut b = Vec::new();
    for i in 0..rows {
        let mut r = Vec::new();
        for j in 0..cols {
            r.push(((i + j) % 2) as u16);
        }
        b.push(r);
    }
    b
}

#[test]
fn diff_reports_row_five_items_two_and_seven() {
    let a = grid(8, 10);
    let mut b = a.clone();
    b[5][2] = 1 - b[5][2];
    b[5][7] = 1 - b[5][7];
    assert_eq!(get_non_matching_row(&a, &b), (5, vec![2, 7]));
}

#[test]
fn diff_of_equal_matrices_is_empty() {
    let a = grid(4, 4);
    assert_eq!(get_non_matching_row(&a, &a.clone()), (0, vec![]));
}

#[test]
fn diff_of_several_rows_reports_last_row() {
    let a = grid(4, 4);
    let mut b = a.clone();
    b[1][3] = 9;
    b[2][0] = 9;
    assert_eq!(get_non_matching_row(&a, &b), (2, vec![3, 0]));
}

#[test]
fn comparable_needs_room_in_second() {
    let a = grid(3, 3);
    assert!(check_comparable(&a, &a.clone()));
    assert!(!check_comparable(&a, &grid(2, 3)));
    assert!(!check_comparable(&a, &grid(3, 2)));
    assert!(!check_comparable(&a, &grid(4, 3)));
    assert!(!check_comparable(&a, &grid(3, 4)));
}

#[test]
fn check_reduction_rejects_malformed() {
    let row: Vec<u16> = vec![1, 0, 0];
    let rows: Vec<Vec<u16>> = vec![vec![0, 1, 0], vec![0, 0, 1]];
    assert!(check_reduction(&row, &vec![1, 2], &rows));
    assert!(!check_reduction(&row, &vec![3], &rows));
    assert!(!check_reduction(&row, &vec![], &vec![vec![0, 1]]));
    assert!(!check_reduction(&vec![65535, 0], &vec![], &vec![vec![1, 0]]));
    assert!(!check_reduction(&vec![65535, 0], &vec![0], &vec![]));
    assert!(check_reduction(&vec![65534, 0], &vec![0], &vec![vec![0, 1]]));
    assert!(!check_reduction(&vec![1, 0], &vec![], &vec![]));
    assert!(!check_reduction(&vec![], &vec![], &vec![vec![]]));
}

#[test]
fn rebuild_keeps_unremoved_and_appends_tag() {
    let d: Vec<usize> = vec![4, 7, 9];
    assert_eq!(rebuild_descriptor(&d, &vec![false, true, false], 2), vec![4, 9, 2]);
    assert_eq!(rebuild_descriptor(&d, &vec![false, false, false], 2), vec![4, 7, 9]);
    assert_eq!(rebuild_descriptor(&d, &vec![true, true, true], 2), vec![2]);
}

#[test]
fn two_matrix_solve_diagonal() {
    let n = 6;
    let mut a: Vec<Vec<u16>> = Vec::new();
    for i in 0..n {
        let mut r = vec![0u16; n];
        r[i] = 1;
        a.push(r);
    }
    let mut b = a.clone();
    b[2][3] = 1;
    let desc: Vec<usize> = (0..n).collect();
    let out = two_matrix_solve(&a, &b, &desc).unwrap();
    assert_eq!(out, vec![0, 1, 4, 5, 2]);
}

#[test]
fn two_matrix_solve_identical_matrices_counts_row_zero_as_candidate() {
    let a: Vec<Vec<u16>> = vec![vec![1, 0], vec![0, 1]];
    let desc: Vec<usize> = vec![0, 1];
    assert_eq!(two_matrix_solve(&a, &a.clone(), &desc), Some(vec![1, 0]));
    let c: Vec<Vec<u16>> = vec![vec![0, 0], vec![1, 0], vec![0, 1]];
    let d: Vec<usize> = vec![1, 2];
    assert_eq!(two_matrix_solve(&c, &c.clone(), &d), Some(vec![1, 2]));
}

#[test]
fn two_matrix_solve_rejects_malformed() {
    let a: Vec<Vec<u16>> = vec![vec![1, 0], vec![0, 1]];
    assert_eq!(two_matrix_solve(&a, &a.clone(), &vec![0, 2]), None);
    assert_eq!(two_matrix_solve(&vec![], &vec![], &vec![]), None);
    assert_eq!(two_matrix_solve(&a, &vec![vec![1, 0]], &vec![0]), None);
    assert_eq!(two_matrix_solve(&a, &vec![vec![1, 0], vec![0, 1], vec![0, 0]], &vec![0]), None);
    assert_eq!(two_matrix_solve(&a, &vec![vec![1, 0, 0], vec![0, 1]], &vec![0]), None);
    assert_eq!(two_matrix_solve(&a, &a.clone(), &vec![]), None);
}

#[test]
fn prepare_reduction_gives_tag_rows_and_start() {
    let a: Vec<Vec<u16>> = vec![vec![1, 0, 0], vec![0, 1, 0], vec![0, 0, 1]];
    let mut b = a.clone();
    b[1][2] = 1;
    let (tag, vec_desc, start) = prepare_reduction(&a, &b, &vec![0, 2]).unwrap();
    assert_eq!(tag, 1);
    assert_eq!(vec_desc, vec![vec![1, 0, 0], vec![0, 0, 1]]);
    assert_eq!(start, vec![1, 1, 2]);
    assert_eq!(prepare_reduction(&a, &b, &vec![3]), None);
}

#[test]
fn reduced_descriptor_drops_removed_tags() {
    let b: Vec<Vec<u16>> = vec![vec![1, 0], vec![0, 1], vec![1, 1]];
    assert_eq!(reduced_descriptor(&b, &vec![0, 1], 2, vec![]), Vec::<usize>::new());
    assert_eq!(reduced_descriptor(&b, &vec![0, 1], 0, vec![]), vec![1]);
    let e: Vec<Vec<u16>> = vec![vec![1, 0], vec![0, 1], vec![0, 0]];
    assert_eq!(reduced_descriptor(&e, &vec![0, 1], 2, vec![]), vec![0, 1]);
}

#[test]
fn select_tags_picks_by_mask() {
    let d: Vec<usize> = vec![3, 1, 4, 1];
    assert_eq!(select_tags(&d, &vec![true, false, true, false], true), vec![3, 4]);
    assert_eq!(select_tags(&d, &vec![true, false, true, false], false), vec![1, 1]);
}
