use compact_skel_2d::geometry_objects::{Circle, Point2, Point3, Sphere};
use compact_skel_2d::geometry_operations::{circle_center, point_within_dilated, radius_lt, sphere_center};
use compact_skel_2d::{Epsilon, SkelError};

fn pt(x: i64, y: i64) -> Point2 {
    Point2 { x, y }
}

#[test]
fn circle_through_three_points_is_exact() {
    // circle through (0,0), (2,0), (1,1): center (1, 0), radius 1
    let c = Circle::from(&pt(0, 0), &pt(2, 0), &pt(1, 1)).unwrap();
    assert_eq!(c.den, 4);
    assert_eq!(c.center_x_num, 4); // center x = 4/4 = 1
    assert_eq!(c.center_y_num, 0);
    assert_eq!(c.radius_sq_num, 16); // radius^2 = 16/16 = 1
    // all three points at equal scaled squared distance
    for p in [pt(0, 0), pt(2, 0), pt(1, 1)] {
        let ex = p.x as i128 * c.den - c.center_x_num;
        let ey = p.y as i128 * c.den - c.center_y_num;
        assert_eq!(ex * ex + ey * ey, c.radius_sq_num);
    }
}

#[test]
fn collinear_points_are_degenerate() {
    assert_eq!(
        Circle::from(&pt(0, 0), &pt(1, 1), &pt(2, 2)).unwrap_err(),
        SkelError::GeometryDegenerate
    );
    assert!(circle_center(&pt(0, 0), &pt(1, 1), &pt(2, 2)).is_none());
    assert_eq!(
        Circle::from(&pt(3, 4), &pt(3, 4), &pt(5, 6)).unwrap_err(),
        SkelError::GeometryDegenerate
    );
}

#[test]
fn circle_center_matches_circle_from() {
    let ctr = circle_center(&pt(-4, 2), &pt(6, 2), &pt(0, 8)).unwrap();
    let c = Circle::from(&pt(-4, 2), &pt(6, 2), &pt(0, 8)).unwrap();
    assert_eq!(ctr.0, c.center_x_num);
    assert_eq!(ctr.1, c.center_y_num);
    assert_eq!(ctr.2, c.den);
    assert!(ctr.2 > 0);
}

#[test]
fn point_exactly_on_dilated_rim_is_not_within() {
    // circle center (1,0), radius 1; epsilon 1: the rim of the dilated
    // circle is at distance 2 from the center
    let c = Circle::from(&pt(0, 0), &pt(2, 0), &pt(1, 1)).unwrap();
    let eps = Epsilon::new(1, 1).unwrap();
    // (3, 0) lies at distance exactly radius + epsilon: strictly outside
    assert!(!point_within_dilated(&c, &pt(3, 0), eps));
    // (2, 0) lies at distance 1 < 2: strictly within
    assert!(point_within_dilated(&c, &pt(2, 0), eps));
    // with zero tolerance, a point on the circle itself is not within
    let zero = Epsilon::zero();
    assert!(!point_within_dilated(&c, &pt(2, 0), zero));
    assert!(point_within_dilated(&c, &pt(1, 0), zero));
}

#[test]
fn widening_epsilon_keeps_points_within() {
    let c = Circle::from(&pt(0, 0), &pt(2, 0), &pt(1, 1)).unwrap();
    let small = Epsilon::new(1, 2).unwrap();
    let large = Epsilon::new(3, 2).unwrap();
    for x in -5..6i64 {
        for y in -5..6i64 {
            if point_within_dilated(&c, &pt(x, y), small) {
                assert!(point_within_dilated(&c, &pt(x, y), large));
            }
        }
    }
}

#[test]
fn radius_comparison_is_exact() {
    let small = Circle::from(&pt(0, 0), &pt(2, 0), &pt(1, 1)).unwrap();
    let big = Circle::from(&pt(0, 0), &pt(8, 0), &pt(4, 4)).unwrap();
    assert!(radius_lt(&small, &big));
    assert!(!radius_lt(&big, &small));
    assert!(!radius_lt(&small, &small));
}

#[test]
fn epsilon_bounds_are_enforced() {
    assert!(Epsilon::new(0, 1).is_some());
    assert!(Epsilon::new(-1, 1).is_none());
    assert!(Epsilon::new(1, 0).is_none());
    assert!(Epsilon::new(1, 2000).is_none());
    let e = Epsilon::zero();
    assert_eq!(e.num, 0);
    assert_eq!(e.den, 1);
}

#[test]
fn sphere_through_four_points_is_exact() {
    // tetrahedron (0,0,0), (2,0,0), (0,2,0), (0,0,2): center (1,1,1),
    // radius^2 = 3
    let p1 = Point3 { x: 0, y: 0, z: 0 };
    let p2 = Point3 { x: 2, y: 0, z: 0 };
    let p3 = Point3 { x: 0, y: 2, z: 0 };
    let p4 = Point3 { x: 0, y: 0, z: 2 };
    let s = Sphere::from(&p1, &p2, &p3, &p4).unwrap();
    assert!(s.den > 0);
    assert_eq!(s.center_x_num, s.den);
    assert_eq!(s.center_y_num, s.den);
    assert_eq!(s.center_z_num, s.den);
    assert_eq!(s.radius_sq_num, 3 * s.den * s.den);
    for p in [p1, p2, p3, p4] {
        let ex = p.x as i128 * s.den - s.center_x_num;
        let ey = p.y as i128 * s.den - s.center_y_num;
        let ez = p.z as i128 * s.den - s.center_z_num;
        assert_eq!(ex * ex + ey * ey + ez * ez, s.radius_sq_num);
    }
}

#[test]
fn coplanar_points_have_no_sphere() {
    let p1 = Point3 { x: 0, y: 0, z: 0 };
    let p2 = Point3 { x: 2, y: 0, z: 0 };
    let p3 = Point3 { x: 0, y: 2, z: 0 };
    let p4 = Point3 { x: 2, y: 2, z: 0 };
    assert_eq!(
        Sphere::from(&p1, &p2, &p3, &p4).unwrap_err(),
        SkelError::GeometryDegenerate
    );
    assert!(sphere_center(&p1, &p2, &p3, &p4).is_none());
}
