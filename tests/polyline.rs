use truck_curves::polyline::{
    direction_from, assign_holes, divide_faces, divide_one_face, random_direction, random_rays, FaceLoops, NewFace,
};
use truck_curves::{BoundaryStatus, Point2, PolylineCurve};

fn poly(v: &[(i64, i64)]) -> PolylineCurve {
    PolylineCurve { points: v.iter().map(|&(x, y)| Point2::new(x, y)).collect() }
}

#[test]
fn area_of_the_unit_square() {
    let ccw = poly(&[(0, 0), (1, 0), (1, 1), (0, 1), (0, 0)]);
    assert_eq!(ccw.doubled_area(), 2);
    let cw = poly(&[(0, 0), (0, 1), (1, 1), (1, 0), (0, 0)]);
    assert_eq!(cw.doubled_area(), -2);
}

#[test]
fn area_of_a_triangle() {
    let tri = poly(&[(0, 0), (4, 0), (0, 3), (0, 0)]);
    assert_eq!(tri.doubled_area(), 12);
}

#[test]
fn square_holds_its_centre_for_every_ray() {
    let square = poly(&[(0, 0), (2, 0), (2, 2), (0, 2), (0, 0)]);
    for _ in 0..50 {
        assert!(square.contains_point(Point2::new(1, 1)));
        assert!(!square.contains_point(Point2::new(4, 4)));
    }
}

#[test]
fn square_along_fixed_rays() {
    let square = poly(&[(0, 0), (2, 0), (2, 2), (0, 2), (0, 0)]);
    assert!(square.contains_point_along(Point2::new(1, 1), 1, 1));
    assert!(square.contains_point_along(Point2::new(1, 1), -3, 5));
    assert!(!square.contains_point_along(Point2::new(4, 4), 1, 0));
    assert!(!square.contains_point_along(Point2::new(4, 4), -1, -1));
}

#[test]
fn random_directions_are_not_zero() {
    for _ in 0..100 {
        let (dx, dy) = random_direction();
        assert!(dx != 0 || dy != 0);
        assert!(dx.abs() <= 524288 && dy.abs() <= 524288);
    }
    assert_eq!(random_rays(7).len(), 7);
}

#[test]
fn hole_goes_to_the_loop_around_it() {
    let outer = poly(&[(0, 0), (10, 0), (10, 10), (0, 10), (0, 0)]);
    let other = poly(&[(20, 0), (30, 0), (30, 10), (20, 10), (20, 0)]);
    let hole = poly(&[(22, 2), (22, 4), (24, 4), (24, 2), (22, 2)]);
    let polys = vec![outer, other, hole];
    let rays = vec![(1, 0), (1, 0), (1, 3)];
    assert_eq!(assign_holes(&polys, &rays), Some(vec![0, 1, 1]));
    let statuses = vec![BoundaryStatus::Or, BoundaryStatus::Unknown, BoundaryStatus::And];
    let groups = divide_one_face(&polys, &statuses, &rays).unwrap();
    assert_eq!(groups.len(), 2);
    assert_eq!(groups[0], (vec![0], BoundaryStatus::Or));
    assert_eq!(groups[1], (vec![1, 2], BoundaryStatus::And));
}

#[test]
fn group_without_known_status_is_unknown() {
    let outer = poly(&[(0, 0), (10, 0), (10, 10), (0, 10), (0, 0)]);
    let hole = poly(&[(2, 2), (2, 4), (4, 4), (4, 2), (2, 2)]);
    let polys = vec![outer, hole];
    let statuses = vec![BoundaryStatus::Unknown, BoundaryStatus::Unknown];
    let groups = divide_one_face(&polys, &statuses, &random_rays(2)).unwrap();
    assert_eq!(groups, vec![(vec![0, 1], BoundaryStatus::Unknown)]);
}

#[test]
fn orphan_hole_fails_the_face() {
    let outer = poly(&[(0, 0), (10, 0), (10, 10), (0, 10), (0, 0)]);
    let hole = poly(&[(22, 2), (22, 4), (24, 4), (24, 2), (22, 2)]);
    let polys = vec![outer, hole];
    let statuses = vec![BoundaryStatus::And, BoundaryStatus::Or];
    assert_eq!(assign_holes(&polys, &vec![(1, 2), (1, 2)]), None);
    assert!(divide_one_face(&polys, &statuses, &vec![(1, 2), (1, 2)]).is_none());
}

fn square_loops(statuses: Vec<BoundaryStatus>, with_hole: bool) -> FaceLoops {
    let mut polys = vec![poly(&[(0, 0), (10, 0), (10, 10), (0, 10), (0, 0)])];
    if with_hole {
        polys.push(poly(&[(2, 2), (2, 4), (4, 4), (4, 2), (2, 2)]));
    }
    let n = polys.len();
    FaceLoops { polys, statuses, rays: random_rays(n) }
}

#[test]
fn divide_faces_routes_by_status() {
    let faces = vec![
        square_loops(vec![BoundaryStatus::Unknown], false),
        square_loops(vec![BoundaryStatus::Unknown, BoundaryStatus::And], true),
        square_loops(vec![BoundaryStatus::Or], false),
    ];
    let res = divide_faces(&faces).unwrap();
    assert_eq!(res.and, vec![NewFace { face: 1, loops: Some(vec![0, 1]) }]);
    assert_eq!(res.or, vec![NewFace { face: 2, loops: Some(vec![0]) }]);
    assert_eq!(res.unknown, vec![NewFace { face: 0, loops: None }]);
}

#[test]
fn divide_faces_fails_on_an_orphan_hole() {
    let polys = vec![
        poly(&[(0, 0), (10, 0), (10, 10), (0, 10), (0, 0)]),
        poly(&[(22, 2), (22, 4), (24, 4), (24, 2), (22, 2)]),
    ];
    let faces = vec![FaceLoops {
        polys,
        statuses: vec![BoundaryStatus::And, BoundaryStatus::Unknown],
        rays: vec![(1, 2), (1, 2)],
    }];
    assert!(divide_faces(&faces).is_none());
}

#[test]
fn directions_from_drawn_words() {
    assert_eq!(direction_from(0, 0), (-524288, -524288));
    assert_eq!(direction_from(524288, 524288), (1, 0));
    assert_eq!(direction_from(524289, 3 * 1048576 + 524287), (1, -1));
    assert_eq!(direction_from(u32::MAX, 7), (524287, -524281));
}
