use compact_skel_2d::geometry_objects::Point2;
use compact_skel_2d::skeleton2d::{find_first_in, find_nearest_maximum, propagate_from, Skeleton};
use compact_skel_2d::{Epsilon, SkelError};

fn pt(x: i64, y: i64) -> Point2 {
    Point2 { x, y }
}

fn unit_square_skeleton() -> Skeleton {
    // a unit square in doubled coordinates, split into two triangles
    let points = vec![pt(0, 0), pt(2, 0), pt(2, 2), pt(0, 2)];
    let next = vec![3, 0, 1, 2];
    let prev = vec![1, 2, 3, 0];
    let mut skel = Skeleton::init(&points, &next, &prev).unwrap();
    skel.compute_delaunay_triangles(&vec![0, 1, 2, 0, 2, 3]).unwrap();
    skel
}

#[test]
fn circle_cache_returns_identical_results() {
    let mut skel = unit_square_skeleton();
    let first = skel.get_circle(0).unwrap();
    let again = skel.get_circle(0).unwrap();
    assert_eq!(first, again);
    // the cached value equals a from-scratch fit on the same corners
    let direct = compact_skel_2d::geometry_objects::Circle::from(
        &pt(0, 0),
        &pt(2, 0),
        &pt(2, 2),
    )
    .unwrap();
    assert_eq!(first, direct);
    // center (1,1), radius^2 = 2
    assert_eq!(first.center_x_num, first.den);
    assert_eq!(first.center_y_num, first.den);
    assert_eq!(first.radius_sq_num, 2 * first.den * first.den);
}

#[test]
fn neighbors_are_memoized_and_symmetric() {
    let mut skel = unit_square_skeleton();
    let n0 = skel.get_neighbors(0);
    let n0_again = skel.get_neighbors(0);
    assert_eq!(n0, n0_again);
    // the two triangles share the diagonal edge (0, 2)
    assert_eq!(n0.n1, Some(1));
    assert_eq!(n0.n0, None);
    assert_eq!(n0.n2, None);
    let n1 = skel.get_neighbors(1);
    assert!(n1.n0 == Some(0) || n1.n1 == Some(0) || n1.n2 == Some(0));
}

#[test]
fn ascent_is_deterministic_on_equal_radii() {
    // both triangles of the square share one circumcircle, so no strict
    // improvement exists and the greedy ascent stays on its seed
    let mut skel = unit_square_skeleton();
    let seed = find_first_in(&mut skel).unwrap();
    assert_eq!(find_nearest_maximum(&mut skel, seed).unwrap(), seed);
    assert_eq!(find_nearest_maximum(&mut skel, 0).unwrap(), 0);
    assert_eq!(find_nearest_maximum(&mut skel, 1).unwrap(), 1);
}

#[test]
fn propagation_marks_reachable_triangles_final() {
    let mut skel = unit_square_skeleton();
    let seed = find_first_in(&mut skel).unwrap();
    propagate_from(&mut skel, seed, Epsilon::zero()).unwrap();
    // with zero tolerance the square's corners lie exactly on each
    // circumcircle, so no edge is covered and both triangles become final
    assert_eq!(skel.final_skeleton, vec![true, true]);
    let edges = skel.get_edges_ind();
    assert_eq!(edges, vec![(0, 1)]);
}

#[test]
fn finality_is_monotonic_across_calls() {
    let mut skel = unit_square_skeleton();
    let seed = find_first_in(&mut skel).unwrap();
    propagate_from(&mut skel, seed, Epsilon::zero()).unwrap();
    let before = skel.final_skeleton.clone();
    // a second propagation, from either triangle, never clears a flag
    propagate_from(&mut skel, 1, Epsilon::zero()).unwrap();
    for i in 0..before.len() {
        assert!(!before[i] || skel.final_skeleton[i]);
    }
}

#[test]
fn final_edges_relate_ordered_final_pairs() {
    let mut skel = unit_square_skeleton();
    let seed = find_first_in(&mut skel).unwrap();
    propagate_from(&mut skel, seed, Epsilon::zero()).unwrap();
    let edges = skel.get_edges_ind();
    for (a, b) in &edges {
        assert!(a < b);
        assert!(skel.final_skeleton[*a]);
        assert!(skel.final_skeleton[*b]);
    }
    // emitted in ascending order of the first index, with no duplicates
    for m in 1..edges.len() {
        assert!(edges[m - 1].0 <= edges[m].0);
        assert_ne!(edges[m - 1], edges[m]);
    }
}

#[test]
fn coverage_record_is_sorted_and_deduplicated() {
    let mut skel = unit_square_skeleton();
    let seed = find_first_in(&mut skel).unwrap();
    propagate_from(&mut skel, seed, Epsilon::new(8, 1).unwrap()).unwrap();
    for cov in skel.covered.iter().flatten() {
        for w in cov.windows(2) {
            assert!(w[0] < w[1]);
        }
    }
}

#[test]
fn init_rejects_inconsistent_maps() {
    let points = vec![pt(0, 0), pt(2, 0)];
    match Skeleton::init(&points, &vec![1, 0], &vec![0, 1]) {
        Err(e) => assert_eq!(e, SkelError::IndexInconsistency),
        Ok(_) => panic!("expected the mismatched maps to be refused"),
    }
    match Skeleton::init(&points, &vec![5, 0], &vec![1, 0]) {
        Err(e) => assert_eq!(e, SkelError::IndexInconsistency),
        Ok(_) => panic!("expected the out-of-range map to be refused"),
    }
    assert!(Skeleton::init(&points, &vec![1, 0], &vec![1, 0]).is_ok());
}

#[test]
fn triangle_list_must_hold_whole_triples_in_range() {
    let points = vec![pt(0, 0), pt(2, 0), pt(2, 2), pt(0, 2)];
    let next = vec![1, 2, 3, 0];
    let prev = vec![3, 0, 1, 2];
    let mut skel = Skeleton::init(&points, &next, &prev).unwrap();
    assert_eq!(
        skel.compute_delaunay_triangles(&vec![0, 1]).unwrap_err(),
        SkelError::IndexInconsistency
    );
    let mut skel2 = Skeleton::init(&points, &next, &prev).unwrap();
    assert_eq!(
        skel2.compute_delaunay_triangles(&vec![0, 1, 9]).unwrap_err(),
        SkelError::IndexInconsistency
    );
}

#[test]
fn empty_boundary_has_no_seed() {
    let mut skel = Skeleton::new();
    assert_eq!(find_first_in(&mut skel).unwrap_err(), SkelError::EmptyInput);
}

#[test]
fn degenerate_triangle_fails_geometry() {
    let points = vec![pt(0, 0), pt(2, 2), pt(4, 4)];
    let next = vec![1, 2, 0];
    let prev = vec![2, 0, 1];
    let mut skel = Skeleton::init(&points, &next, &prev).unwrap();
    skel.compute_delaunay_triangles(&vec![0, 1, 2]).unwrap();
    assert_eq!(skel.get_circle(0).unwrap_err(), SkelError::GeometryDegenerate);
    assert_eq!(
        propagate_from(&mut skel, 0, Epsilon::zero()).unwrap_err(),
        SkelError::GeometryDegenerate
    );
}
