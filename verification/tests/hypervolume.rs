// Fixtures with one decimal digit of resolution, scaled by ten onto the
// integer grid: a volume in dimension d then carries the factor 10^d and all
// values are exact integers.

use hypervolume::compute;

#[test]
fn test_1d_single_point() {
    let pts = vec![vec![3]];
    let ref_pt = vec![10];
    assert_eq!(compute(&pts, &ref_pt), 7);
}

#[test]
fn test_1d_multiple_points() {
    let pts = vec![vec![5], vec![3], vec![2]];
    let ref_pt = vec![10];
    assert_eq!(compute(&pts, &ref_pt), 8);
}

#[test]
fn test_1d_no_points() {
    let pts: Vec<Vec<i64>> = vec![];
    let ref_pt = vec![10];
    assert_eq!(compute(&pts, &ref_pt), 0);
}

#[test]
fn test_2d_single_point() {
    let pts = vec![vec![3, 5]];
    let ref_pt = vec![10, 10];
    assert_eq!(compute(&pts, &ref_pt), 35);
}

#[test]
fn test_2d_multiple_points() {
    let mut pts = vec![vec![3, 5], vec![6, 2]];
    let ref_pt = vec![10, 10];
    assert_eq!(compute(&pts, &ref_pt), 47);

    // Non-Pareto optimal points do not contribute to the hypervolume.
    pts.push(vec![8, 7]);
    assert_eq!(compute(&pts, &ref_pt), 47);

    // Points along the Pareto front similarly do not change the hypervolume.
    pts.push(vec![3, 8]);
    pts.push(vec![9, 2]);
    assert_eq!(compute(&pts, &ref_pt), 47);
}

#[test]
fn test_2d_no_points() {
    let pts: Vec<Vec<i64>> = vec![];
    let ref_pt = vec![10, 10];
    assert_eq!(compute(&pts, &ref_pt), 0);
}

#[test]
fn test_3d_single_point() {
    let pts = vec![vec![5, 5, 5]];
    let ref_pt = vec![10, 10, 10];
    assert_eq!(compute(&pts, &ref_pt), 125);
}

#[test]
fn test_3d_no_points() {
    let pts: Vec<Vec<i64>> = vec![];
    let ref_pt = vec![10, 10, 10];
    assert_eq!(compute(&pts, &ref_pt), 0);
}

#[test]
fn test_permutation_invariance() {
    let ref_pt = vec![10, 10];
    let a = vec![vec![3, 5], vec![6, 2], vec![8, 7], vec![1, 9]];
    let b = vec![vec![8, 7], vec![1, 9], vec![6, 2], vec![3, 5]];
    let c = vec![vec![6, 2], vec![3, 5], vec![1, 9], vec![8, 7]];
    let hv = compute(&a, &ref_pt);
    assert_eq!(compute(&b, &ref_pt), hv);
    assert_eq!(compute(&c, &ref_pt), hv);
}

#[test]
fn test_duplicate_point_added() {
    let ref_pt = vec![10, 10];
    let mut pts = vec![vec![3, 5], vec![6, 2], vec![1, 9]];
    let hv = compute(&pts, &ref_pt);
    pts.push(vec![6, 2]);
    assert_eq!(compute(&pts, &ref_pt), hv);
    pts.push(vec![3, 5]);
    assert_eq!(compute(&pts, &ref_pt), hv);
}

#[test]
fn test_dominated_point_added() {
    let ref_pt = vec![10, 10, 10];
    let pts = vec![vec![2, 3, 4]];
    let hv = compute(&pts, &ref_pt);
    assert_eq!(hv, 8 * 7 * 6);
    let with_dominated = vec![vec![2, 3, 4], vec![5, 3, 9]];
    assert_eq!(compute(&with_dominated, &ref_pt), hv);
}

#[test]
fn test_two_point_inclusion_exclusion() {
    let ref_pt = vec![10, 10];
    let pts = vec![vec![2, 6], vec![5, 1]];
    // vol([2,6]) = 8*4 = 32, vol([5,1]) = 5*9 = 45,
    // intersection corner max = [5,6], vol = 5*4 = 20.
    assert_eq!(compute(&pts, &ref_pt), 32 + 45 - 20);
}

#[test]
fn test_staircase_keeps_second_corner() {
    // The exclusive volume of [1,5] subtracts the union of two kept corners,
    // which exercises the recursive call on the filtered corner set.
    let ref_pt = vec![10, 10];
    let pts = vec![vec![1, 5], vec![4, 8], vec![8, 2]];
    assert_eq!(compute(&pts, &ref_pt), 51);
}

#[test]
fn test_3d_three_points() {
    // Inclusion-exclusion by hand: 125 + 63 + 63 - 45 - 45 - 27 + 27 = 161.
    let ref_pt = vec![10, 10, 10];
    let pts = vec![vec![5, 5, 5], vec![3, 7, 7], vec![7, 3, 7]];
    assert_eq!(compute(&pts, &ref_pt), 161);
}

#[test]
fn test_point_beyond_reference() {
    // Distances are absolute per axis: a point past the reference point still
    // spans a well-defined box.
    let pts = vec![vec![15]];
    let ref_pt = vec![10];
    assert_eq!(compute(&pts, &ref_pt), 5);
}

#[test]
fn test_equal_points_only() {
    let ref_pt = vec![10, 10];
    let pts = vec![vec![4, 4], vec![4, 4], vec![4, 4]];
    assert_eq!(compute(&pts, &ref_pt), 36);
}

#[test]
fn test_point_on_reference() {
    // A point equal to the reference point spans an empty box.
    let ref_pt = vec![10, 10];
    let pts = vec![vec![10, 10], vec![3, 5]];
    assert_eq!(compute(&pts, &ref_pt), 35);
}
