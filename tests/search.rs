use heuristic_solver::search::{
    best_mask, count_removed, draw_skips, greedy_pass, minimize_cover, run_passes, start_vector,
    NUM_WORKERS,
};

fn triangle() -> Vec<Vec<u16>> {
    vec![vec![1, 1, 0], vec![0, 1, 1], vec![1, 0, 1], vec![0, 0, 0]]
}

#[test]
fn triangle_cover_drops_exactly_one_tag() {
    let b = triangle();
    let vec_desc: Vec<Vec<u16>> = b[0..3].to_vec();
    for _ in 0..20 {
        let mask = minimize_cover(&b, &vec_desc, 3, vec![]);
        assert_eq!(mask.len(), 3);
        assert_eq!(mask.iter().filter(|x| **x).count(), 1);
    }
}

#[test]
fn exact_cover_keeps_every_tag() {
    let b: Vec<Vec<u16>> = vec![
        vec![1, 0, 0, 0],
        vec![0, 1, 0, 0],
        vec![0, 0, 1, 1],
        vec![0, 0, 0, 0],
    ];
    let vec_desc: Vec<Vec<u16>> = b[0..3].to_vec();
    for _ in 0..20 {
        assert_eq!(minimize_cover(&b, &vec_desc, 3, vec![]), vec![false, false, false]);
    }
}

#[test]
fn candidate_tag_makes_old_tags_removable() {
    let b: Vec<Vec<u16>> = vec![vec![1, 0, 0], vec![0, 1, 0], vec![0, 0, 1], vec![1, 1, 1]];
    let vec_desc: Vec<Vec<u16>> = b[0..3].to_vec();
    assert_eq!(minimize_cover(&b, &vec_desc, 3, vec![]), vec![true, true, true]);
}

#[test]
fn affected_items_count_toward_coverage() {
    let b: Vec<Vec<u16>> = vec![vec![1, 0], vec![0, 1], vec![0, 0]];
    let vec_desc: Vec<Vec<u16>> = b[0..2].to_vec();
    assert_eq!(minimize_cover(&b, &vec_desc, 2, vec![]), vec![false, false]);
    assert_eq!(minimize_cover(&b, &vec_desc, 2, vec![1]), vec![false, true]);
    assert_eq!(minimize_cover(&b, &vec_desc, 2, vec![0, 1]), vec![true, true]);
}

#[test]
fn result_never_worse_than_full_sweep() {
    let b: Vec<Vec<u16>> = vec![
        vec![1, 1, 0, 0],
        vec![0, 1, 1, 0],
        vec![0, 0, 1, 1],
        vec![1, 0, 0, 1],
        vec![1, 1, 1, 1],
        vec![0, 0, 0, 0],
    ];
    let vec_desc: Vec<Vec<u16>> = b[0..5].to_vec();
    let cov: Vec<u16> = vec![3, 3, 3, 3];
    let sweep = greedy_pass(&vec_desc, &cov, &vec![false; 5]);
    assert_eq!(sweep, vec![true, true, true, true, false]);
    for _ in 0..20 {
        let mask = minimize_cover(&b, &vec_desc, 5, vec![]);
        assert!(count_removed(&mask) >= count_removed(&sweep));
        let mut left = vec![0u16; 4];
        for (i, r) in vec_desc.iter().enumerate() {
            if !mask[i] {
                for j in 0..4 {
                    left[j] += r[j];
                }
            }
        }
        assert!(left.iter().all(|x| *x >= 1));
    }
}

#[test]
fn greedy_pass_honours_skips() {
    let rows: Vec<Vec<u16>> = vec![vec![1, 1, 0], vec![0, 1, 1], vec![1, 0, 1]];
    let cov: Vec<u16> = vec![2, 2, 2];
    assert_eq!(greedy_pass(&rows, &cov, &vec![false, false, false]), vec![true, false, false]);
    assert_eq!(greedy_pass(&rows, &cov, &vec![true, false, false]), vec![false, true, false]);
    assert_eq!(greedy_pass(&rows, &cov, &vec![true, true, false]), vec![false, false, true]);
    assert_eq!(greedy_pass(&rows, &cov, &vec![true, true, true]), vec![false, false, false]);
    assert_eq!(cov, vec![2, 2, 2]);
}

#[test]
fn count_removed_counts_true() {
    assert_eq!(count_removed(&vec![]), 0);
    assert_eq!(count_removed(&vec![true, false, true, true]), 3);
}

#[test]
fn best_mask_prefers_most_removed_then_first() {
    let masks = vec![
        vec![false, true, false],
        vec![true, true, false],
        vec![false, true, true],
        vec![false, false, false],
    ];
    assert_eq!(best_mask(&masks), 1);
    assert_eq!(best_mask(&vec![vec![false], vec![false]]), 0);
}

#[test]
fn draw_skips_has_requested_length() {
    assert_eq!(draw_skips(0).len(), 0);
    assert_eq!(draw_skips(37).len(), 37);
    assert_eq!(NUM_WORKERS, 16);
}

#[test]
fn start_vector_sums_rows_candidate_and_items() {
    let rows: Vec<Vec<u16>> = vec![vec![1, 0, 2], vec![0, 3, 1]];
    assert_eq!(start_vector(&vec![1, 1, 0], &vec![2, 2, 0], &rows), vec![3, 4, 5]);
    assert_eq!(start_vector(&vec![1, 1], &vec![], &vec![vec![0, 0]]), vec![1, 1]);
}

#[test]
fn run_passes_removes_one_of_triangle() {
    let rows: Vec<Vec<u16>> = vec![vec![1, 1, 0], vec![0, 1, 1], vec![1, 0, 1]];
    let mask = run_passes(&rows, &vec![2, 2, 2]);
    assert_eq!(mask.iter().filter(|x| **x).count(), 1);
}
