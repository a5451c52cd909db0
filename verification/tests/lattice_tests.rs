use percolation::clusters::{clustering, count_clusters};
use percolation::grid::get_neigbors;
use percolation::spanning::check_percolation;

fn census_count(census: &Vec<(u32, u32)>, lab: u32) -> Option<u32> {
    for &(l, c) in census.iter() {
        if l == lab {
            return Some(c);
        }
    }
    None
}

#[test]
fn neighbors_center_3x3() {
    let (up, down, left, right) = get_neigbors(4, 3, 3);
    assert_eq!(up, Some(1));
    assert_eq!(down, Some(7));
    assert_eq!(left, Some(3));
    assert_eq!(right, Some(5));
}

#[test]
fn neighbors_corners_3x3() {
    let (up, down, left, right) = get_neigbors(0, 3, 3);
    assert_eq!(up, None);
    assert_eq!(down, Some(3));
    assert_eq!(left, None);
    assert_eq!(right, Some(1));

    let (up, down, left, right) = get_neigbors(8, 3, 3);
    assert_eq!(up, Some(5));
    assert_eq!(down, None);
    assert_eq!(left, Some(7));
    assert_eq!(right, None);
}

#[test]
fn neighbors_absent_iff_on_edge() {
    let rows = 4;
    let cols = 5;
    let len = rows * cols;
    for i in 0..len {
        let (up, down, left, right) = get_neigbors(i, rows, cols);
        assert_eq!(up.is_none(), i < cols);
        assert_eq!(down.is_none(), i >= len - cols);
        assert_eq!(left.is_none(), i % cols == 0);
        assert_eq!(right.is_none(), (i + 1) % cols == 0);
        for n in [up, down, left, right].into_iter().flatten() {
            assert!(n < len);
        }
    }
}

#[test]
fn neighbors_last_row_has_no_down_but_prior_row_does() {
    // on a 2x2 grid, site 1 (first row) has a down neighbor, sites 2 and 3
    // (last row) have none
    assert_eq!(get_neigbors(1, 2, 2).1, Some(3));
    assert_eq!(get_neigbors(2, 2, 2).1, None);
    assert_eq!(get_neigbors(3, 2, 2).1, None);
}

#[test]
fn clustering_merges_full_row() {
    // 1x4 lattice fully opened becomes one cluster with the maximum label
    let mut arr: Vec<u32> = vec![1, 2, 3, 4];
    clustering(&mut arr, 1, 4);
    assert_eq!(arr, vec![4, 4, 4, 4]);
}

#[test]
fn clustering_is_idempotent() {
    let mut arr: Vec<u32> = vec![3, 0, 1, 2, 0, 5, 0, 0, 4];
    clustering(&mut arr, 3, 3);
    let converged = arr.clone();
    clustering(&mut arr, 3, 3);
    assert_eq!(arr, converged);
}

#[test]
fn clustering_keeps_open_sites_open() {
    let mut arr: Vec<u32> = vec![0, 2, 0, 1, 0, 3, 0, 4, 0];
    clustering(&mut arr, 3, 3);
    for (i, &lab) in arr.iter().enumerate() {
        if i % 2 == 1 {
            assert!(lab > 0);
        } else {
            assert_eq!(lab, 0);
        }
    }
}

#[test]
fn census_counts_sum_to_open_sites() {
    let mut arr: Vec<u32> = vec![0, 2, 2, 0, 3, 0];
    clustering(&mut arr, 2, 3);
    let census = count_clusters(&arr);
    let open = arr.iter().filter(|&&l| l > 0).count() as u32;
    let total: u32 = census.iter().map(|&(_, c)| c).sum();
    assert_eq!(total, open);
    for &(lab, c) in census.iter() {
        assert!(lab > 0);
        assert!(c > 0);
    }
}

#[test]
fn census_of_blocked_lattice_is_empty() {
    let arr: Vec<u32> = vec![0; 9];
    let census = count_clusters(&arr);
    assert!(census.is_empty());
}

#[test]
fn fully_open_lattice_percolates() {
    let mut arr: Vec<u32> = (1..=9).collect();
    clustering(&mut arr, 3, 3);
    let (percolated, label) = check_percolation(&arr, 3, 3);
    assert!(percolated);
    assert_eq!(label, 9);
}

#[test]
fn blocked_lattice_does_not_percolate() {
    let arr: Vec<u32> = vec![0; 6];
    let (percolated, label) = check_percolation(&arr, 2, 3);
    assert!(!percolated);
    // the site count stands in for a label when nothing spans
    assert_eq!(label, 6);
}

#[test]
fn single_row_fully_open_is_one_cluster_and_percolates() {
    // rows=1, cols=4: one cluster; it spans left-to-right, and the top and
    // bottom rows coincide, so it spans vertically as well
    let mut arr: Vec<u32> = vec![1, 2, 3, 4];
    clustering(&mut arr, 1, 4);
    assert_eq!(arr, vec![4, 4, 4, 4]);
    let census = count_clusters(&arr);
    assert_eq!(census, vec![(4, 4)]);
    let (percolated, label) = check_percolation(&arr, 1, 4);
    assert!(percolated);
    assert_eq!(label, 4);
}

#[test]
fn disjoint_diagonal_groups_stay_separate_until_connected() {
    // two diagonal groups on a 3x3 grid: {1, 5} and {3, 7}; no two open
    // sites are 4-adjacent, so no labels merge
    let mut arr: Vec<u32> = vec![0, 1, 0, 2, 0, 3, 0, 4, 0];
    clustering(&mut arr, 3, 3);
    assert_eq!(arr, vec![0, 1, 0, 2, 0, 3, 0, 4, 0]);
    let census = count_clusters(&arr);
    assert_eq!(census.len(), 4);
    let (percolated, _) = check_percolation(&arr, 3, 3);
    assert!(!percolated);

    // opening the center connects all four groups into one cluster
    arr[4] = 5;
    clustering(&mut arr, 3, 3);
    assert_eq!(arr, vec![0, 5, 0, 5, 5, 5, 0, 5, 0]);
    let census = count_clusters(&arr);
    assert_eq!(census, vec![(5, 5)]);
    let (percolated, label) = check_percolation(&arr, 3, 3);
    assert!(percolated);
    assert_eq!(label, 5);
}

#[test]
fn left_column_cluster_percolates_vertically() {
    let mut arr: Vec<u32> = vec![1, 0, 0, 2, 0, 0, 3, 0, 0];
    clustering(&mut arr, 3, 3);
    assert_eq!(arr, vec![3, 0, 0, 3, 0, 0, 3, 0, 0]);
    let (percolated, label) = check_percolation(&arr, 3, 3);
    assert!(percolated);
    assert_eq!(label, 3);
}

#[test]
fn middle_row_cluster_percolates_horizontally() {
    let mut arr: Vec<u32> = vec![0, 0, 0, 1, 2, 3, 0, 0, 0];
    clustering(&mut arr, 3, 3);
    assert_eq!(arr, vec![0, 0, 0, 3, 3, 3, 0, 0, 0]);
    let (percolated, label) = check_percolation(&arr, 3, 3);
    assert!(percolated);
    assert_eq!(label, 3);
}

#[test]
fn opposite_corners_alone_do_not_percolate() {
    let arr: Vec<u32> = vec![1, 0, 0, 2];
    let (percolated, label) = check_percolation(&arr, 2, 2);
    assert!(!percolated);
    assert_eq!(label, 4);
}

#[test]
fn full_top_row_percolates_horizontally() {
    // a single full row touches both the leftmost and rightmost columns
    let mut arr: Vec<u32> = vec![1, 2, 0, 0];
    clustering(&mut arr, 2, 2);
    let (percolated, label) = check_percolation(&arr, 2, 2);
    assert!(percolated);
    assert_eq!(label, 2);
}

#[test]
fn connector_merges_only_its_own_component() {
    // sites {0, 1, 2, 4} are one component whose maximum label is 6; the
    // isolated sites 6 and 8 must keep their own labels 5 and 3
    let mut arr: Vec<u32> = vec![1, 6, 4, 0, 2, 0, 5, 0, 3];
    clustering(&mut arr, 3, 3);
    assert_eq!(arr, vec![6, 6, 6, 0, 6, 0, 5, 0, 3]);
}
