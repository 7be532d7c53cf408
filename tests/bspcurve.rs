use truck_curves::{BSplineCurve, ConcatError, ControlPoint, Error, KnotVec, Point2};

fn knots(v: Vec<i64>) -> KnotVec {
    KnotVec::from_sorted(v).unwrap()
}

fn p(x: i64, y: i64) -> Point2 {
    Point2::new(x, y)
}

fn line() -> BSplineCurve<Point2> {
    BSplineCurve::new(knots(vec![0, 0, 2, 2]), vec![p(0, 0), p(200, 200)])
}

#[test]
fn from_sorted_rejects_decreasing_knots() {
    assert!(KnotVec::from_sorted(vec![0, 2, 1]).is_none());
    assert!(KnotVec::from_sorted(vec![0, 1, 1, 2]).is_some());
}

#[test]
fn try_new_reports_each_error() {
    let r = BSplineCurve::<Point2>::try_new(knots(vec![0, 1]), vec![]);
    assert_eq!(r.err(), Some(Error::EmptyControlPoints));
    let r = BSplineCurve::try_new(knots(vec![0, 1]), vec![p(0, 0), p(1, 1)]);
    assert_eq!(r.err(), Some(Error::TooShortKnotVector(2, 2)));
    let r = BSplineCurve::try_new(knots(vec![1, 1, 1]), vec![p(0, 0)]);
    assert_eq!(r.err(), Some(Error::ZeroRange));
    let r = BSplineCurve::try_new(knots(vec![0, 0, 1, 1]), vec![p(0, 0), p(1, 1)]);
    assert!(r.is_ok());
}

#[test]
fn degree_is_knots_minus_points_minus_one() {
    let curve = BSplineCurve::new(
        KnotVec::uniform_knot(2, 2),
        vec![p(0, 0), p(1, 0), p(1, 1), p(0, 1)],
    );
    assert_eq!(curve.knot_vec().as_vec(), &vec![0, 0, 0, 1, 2, 2, 2]);
    assert_eq!(curve.degree(), 2);
    let curve = BSplineCurve::new(KnotVec::bezier_knot(3), vec![p(0, 0); 4]);
    assert_eq!(curve.degree(), 3);
}

#[test]
fn invert_reflects_knots_and_reverses_points() {
    let org = BSplineCurve::new(
        knots(vec![0, 0, 0, 1, 4, 4, 4]),
        vec![p(0, 0), p(1, 2), p(3, 4), p(5, 6)],
    );
    let mut curve = org.copy_of();
    curve.invert();
    assert_eq!(curve.knot_vec().as_vec(), &vec![0, 0, 0, 3, 4, 4, 4]);
    assert_eq!(curve.control_points(), &vec![p(5, 6), p(3, 4), p(1, 2), p(0, 0)]);
    curve.invert();
    assert_eq!(curve.knot_vec(), org.knot_vec());
    assert_eq!(curve.control_points(), org.control_points());
}

#[test]
fn clamp_makes_both_ends_full() {
    let mut curve = BSplineCurve::new(
        knots(vec![0, 1, 2, 3, 4, 5]),
        vec![p(0, 100), p(100, 200), p(200, 300)],
    );
    assert!(!curve.is_clamped());
    curve.clamp();
    assert!(curve.is_clamped());
    assert_eq!(curve.knot_vec().len(), 10);
    assert_eq!(curve.degree(), 2);
    assert_eq!(curve.knot_vec().as_vec(), &vec![0, 0, 0, 1, 2, 3, 4, 5, 5, 5]);
}

#[test]
fn add_knot_inserts_by_boehm() {
    let mut curve = line();
    curve.add_knot(1);
    assert_eq!(curve.knot_vec().as_vec(), &vec![0, 0, 1, 2, 2]);
    assert_eq!(curve.control_points(), &vec![p(0, 0), p(100, 100), p(200, 200)]);
}

#[test]
fn add_knot_below_range_extends() {
    let mut curve = line();
    curve.add_knot(-1);
    assert_eq!(curve.knot_vec().as_vec(), &vec![-1, 0, 0, 2, 2]);
    assert_eq!(curve.control_points(), &vec![p(0, 0), p(0, 0), p(200, 200)]);
}

#[test]
fn knot_round_trip_restores_curve() {
    let org = line();
    let mut curve = line();
    curve.add_knot(1);
    assert_eq!(curve.try_remove_knot(2), Ok(()));
    assert_eq!(curve.knot_vec(), org.knot_vec());
    assert_eq!(curve.control_points(), org.control_points());
}

#[test]
fn try_remove_knot_refuses_boundary_knots() {
    let mut curve = line();
    curve.add_knot(1);
    assert_eq!(curve.try_remove_knot(1), Err(Error::CannotRemoveKnot(1)));
    assert_eq!(curve.try_remove_knot(3), Err(Error::CannotRemoveKnot(3)));
    assert_eq!(curve.knot_vec().len(), 5);
}

#[test]
fn try_remove_knot_refuses_a_corner() {
    let mut curve = BSplineCurve::new(
        knots(vec![0, 0, 1, 2, 2]),
        vec![p(0, 0), p(100, 100), p(200, 0)],
    );
    assert_eq!(curve.try_remove_knot(2), Err(Error::CannotRemoveKnot(2)));
    curve.remove_knot(2);
    assert_eq!(curve.knot_vec().len(), 5);
}

#[test]
fn optimize_removes_redundant_knots_and_is_idempotent() {
    let org = line();
    let mut curve = line();
    curve.add_knot(1);
    curve.add_knot(1);
    assert_eq!(curve.knot_vec().len(), 6);
    curve.optimize();
    assert_eq!(curve.knot_vec(), org.knot_vec());
    assert_eq!(curve.control_points(), org.control_points());
    curve.optimize();
    assert_eq!(curve.knot_vec(), org.knot_vec());
    assert_eq!(curve.control_points(), org.control_points());
}

#[test]
fn elevate_degree_of_a_line() {
    let mut curve = BSplineCurve::new(KnotVec::bezier_knot(1), vec![p(0, 0), p(100, 100)]);
    curve.elevate_degree();
    assert_eq!(curve.degree(), 2);
    assert_eq!(curve.knot_vec(), &KnotVec::bezier_knot(2));
    assert_eq!(curve.control_point(1), &p(50, 50));
}

#[test]
fn elevate_degree_of_a_spline_adds_one() {
    let mut curve = BSplineCurve::new(
        KnotVec::uniform_knot(2, 2),
        vec![p(0, 0), p(100, 0), p(100, 100), p(0, 100)],
    );
    curve.elevate_degree();
    assert_eq!(curve.degree(), 3);
    assert_eq!(curve.knot_vec().get(0), 0);
    assert_eq!(curve.knot_vec().get(curve.knot_vec().len() - 1), 2);
}

#[test]
fn cut_then_concat_gives_the_curve_back() {
    let mut curve = BSplineCurve::new(
        knots(vec![0, 0, 1, 2, 2]),
        vec![p(0, 0), p(100, 100), p(200, 0)],
    );
    let tail = curve.cut(1);
    assert_eq!(curve.knot_vec().as_vec(), &vec![0, 0, 1, 1]);
    assert_eq!(curve.control_points(), &vec![p(0, 0), p(100, 100)]);
    assert_eq!(tail.knot_vec().as_vec(), &vec![1, 1, 2, 2]);
    assert_eq!(tail.control_points(), &vec![p(100, 100), p(200, 0)]);
    let joined = curve.try_concat(&tail).unwrap();
    assert_eq!(joined.degree(), 1);
    assert_eq!(joined.knot_vec().as_vec(), &vec![0, 0, 1, 1, 2, 2]);
    assert_eq!(
        joined.control_points(),
        &vec![p(0, 0), p(100, 100), p(100, 100), p(200, 0)]
    );
}

#[test]
fn cut_below_the_range_keeps_nothing() {
    let mut curve = line();
    let whole = curve.cut(-3);
    assert_eq!(curve.knot_vec().as_vec(), &vec![-3, 0]);
    assert_eq!(curve.control_points(), &vec![p(0, 0)]);
    assert_eq!(whole.knot_vec(), line().knot_vec());
    assert_eq!(whole.control_points(), line().control_points());
}

#[test]
fn concat_negative_test() {
    // points in fixed-point units of one millionth
    let curve0 = BSplineCurve::new(
        KnotVec::bezier_knot(1),
        vec![p(0, 0), p(0, 1_000_000)],
    );
    let mut curve1 = BSplineCurve::new(
        KnotVec::bezier_knot(1),
        vec![p(1_000_000, 1_000_000), p(1_000_000, 1_000_000)],
    );
    assert_eq!(
        curve0.try_concat(&curve1),
        Err(ConcatError::DisconnectedParameters(1, 0))
    );
    curve1.knot_translate(1);
    assert_eq!(
        curve0.try_concat(&curve1),
        Err(ConcatError::DisconnectedPoints(
            p(0, 1_000_000),
            p(1_000_000, 1_000_000)
        ))
    );
}

#[test]
fn bezier_decomposition_splits_at_each_knot() {
    let curve = BSplineCurve::new(
        KnotVec::uniform_knot(2, 2),
        vec![p(0, 100), p(100, 200), p(200, 300), p(300, 400)],
    );
    let beziers = curve.bezier_decomposition();
    assert_eq!(beziers.len(), 2);
    assert_eq!(beziers[0].knot_vec().as_vec(), &vec![0, 0, 0, 1, 1, 1]);
    assert_eq!(beziers[1].knot_vec().as_vec(), &vec![1, 1, 1, 2, 2, 2]);
    assert_eq!(beziers[0].control_points().len(), 3);
    assert_eq!(beziers[1].control_points().len(), 3);
    assert_eq!(beziers[0].control_point(0), &p(0, 100));
    assert_eq!(beziers[1].control_point(2), &p(300, 400));
}

#[test]
fn make_locally_injective_leaves_a_constant_curve() {
    let mut curve = BSplineCurve::new(
        knots(vec![0, 0, 0, 1, 2, 2, 2]),
        vec![p(100, 100); 4],
    );
    curve.make_locally_injective();
    assert_eq!(curve.knot_vec().as_vec(), &vec![0, 0, 0, 1, 2, 2, 2]);
    assert_eq!(curve.control_points(), &vec![p(100, 100); 4]);
}

#[test]
fn make_locally_injective_drops_a_constant_segment() {
    let mut curve = BSplineCurve::new(
        knots(vec![0, 0, 1, 2, 3, 3]),
        vec![p(0, 0), p(100, 0), p(100, 0), p(200, 0)],
    );
    curve.make_locally_injective();
    assert_eq!(curve.degree(), 1);
    assert_eq!(curve.knot_vec().as_vec(), &vec![0, 0, 1, 1, 2, 2]);
    assert_eq!(
        curve.control_points(),
        &vec![p(0, 0), p(100, 0), p(100, 0), p(200, 0)]
    );
}

#[test]
fn second_derivative_of_a_quadratic_is_constant() {
    // (0, 0), (0.5, 1), (1, 0) in units of one hundredth
    let curve = BSplineCurve::new(
        KnotVec::bezier_knot(2),
        vec![p(0, 0), p(50, 100), p(100, 0)],
    );
    let der = curve.derivation();
    assert_eq!(
        der.control_points(),
        &vec![p(0, 0), p(100, 200), p(100, -200), p(0, 0)]
    );
    let der2 = der.derivation();
    assert_eq!(der2.degree(), 0);
    assert_eq!(
        der2.control_points(),
        &vec![p(0, 0), p(0, 0), p(0, -400), p(0, 0), p(0, 0)]
    );
}

#[test]
fn syncro_degree_raises_the_lower() {
    let mut c0 = BSplineCurve::new(KnotVec::bezier_knot(1), vec![p(100, 200), p(200, 300)]);
    let mut c1 = BSplineCurve::new(
        KnotVec::bezier_knot(2),
        vec![p(100, 200), p(200, 300), p(300, 400)],
    );
    let org1 = c1.copy_of();
    c0.syncro_degree(&mut c1);
    assert_eq!(c0.degree(), 2);
    assert_eq!(c1.degree(), 2);
    assert_eq!(c0.control_points(), &vec![p(100, 200), p(150, 250), p(200, 300)]);
    assert_eq!(c1.control_points(), org1.control_points());
}

#[test]
fn is_const_compares_with_the_first_point() {
    let curve = BSplineCurve::new(KnotVec::bezier_knot(2), vec![p(1, 2), p(2, 3), p(1, 2)]);
    assert!(curve.is_const());
    let curve = BSplineCurve::new(KnotVec::bezier_knot(2), vec![p(1, 2), p(90, 3), p(1, 2)]);
    assert!(!curve.is_const());
}

#[test]
fn control_points_can_be_edited() {
    let mut curve = line();
    *curve.control_point_mut(1) = p(5, 7);
    assert_eq!(curve.control_point(1), &p(5, 7));
    curve.transform_control_points(|q: Point2| Point2::new(q.x + 1, q.y - 1));
    assert_eq!(curve.control_points(), &vec![p(1, -1), p(6, 6)]);
    curve.knot_translate(3);
    assert_eq!(curve.knot_vec().as_vec(), &vec![3, 3, 5, 5]);
}

fn quadratic() -> BSplineCurve<Point2> {
    // (0, 0), (0.5, 1), (1, 0) in units of one hundredth
    BSplineCurve::new(KnotVec::bezier_knot(2), vec![p(0, 0), p(50, 100), p(100, 0)])
}

#[test]
fn subs_on_a_line() {
    let curve = line();
    assert_eq!(curve.subs(0, 1), p(0, 0));
    assert_eq!(curve.subs(1, 1), p(100, 100));
    assert_eq!(curve.subs(3, 2), p(150, 150));
    assert_eq!(curve.subs(2, 1), p(200, 200));
}

#[test]
fn subs_of_a_quadratic() {
    let curve = quadratic();
    assert_eq!(curve.subs(0, 1), p(0, 0));
    assert_eq!(curve.subs(1, 2), p(50, 50));
    assert_eq!(curve.subs(1, 1), p(100, 0));
}

#[test]
fn der_of_a_quadratic() {
    let curve = quadratic();
    assert_eq!(curve.der(0, 1), p(100, 200));
    assert_eq!(curve.der(1, 2), p(100, 0));
    assert_eq!(curve.der(1, 1), p(100, -200));
}

#[test]
fn der2_of_a_quadratic_is_constant() {
    let curve = quadratic();
    for (tn, td) in [(0, 1), (1, 4), (1, 2), (3, 4), (1, 1)] {
        assert_eq!(curve.der2(tn, td), p(0, -400));
    }
    assert_eq!(line().der2(1, 1), p(0, 0));
}

#[test]
fn near_as_curve_after_knot_insertion() {
    let org = quadratic();
    let mut curve = quadratic();
    curve.add_knot(0);
    assert!(curve.near2_as_curve(&org));
    assert!(org.near_as_curve(&curve));
}

#[test]
fn near_as_curve_detects_a_moved_point() {
    let org = quadratic();
    let mut curve = quadratic();
    *curve.control_point_mut(1) = p(50, 200);
    assert!(!org.near_as_curve(&curve));
    assert!(!org.near2_as_curve(&curve));
}

#[test]
fn near_as_curve_needs_one_range() {
    let org = line();
    let mut curve = line();
    curve.knot_translate(1);
    assert!(!org.near_as_curve(&curve));
}

#[test]
fn elevated_curve_keeps_its_shape() {
    let org = BSplineCurve::new(KnotVec::bezier_knot(1), vec![p(0, 0), p(100, 100)]);
    let mut curve = org.copy_of();
    curve.elevate_degree();
    assert!(curve.near2_as_curve(&org));
    assert!(org.near2_as_curve(&curve));
}

#[test]
fn cut_and_concat_keep_the_shape() {
    let org = BSplineCurve::new(
        knots(vec![0, 0, 1, 2, 2]),
        vec![p(0, 0), p(100, 100), p(200, 0)],
    );
    let mut left = org.copy_of();
    let right = left.cut(1);
    let joined = left.try_concat(&right).unwrap();
    assert!(org.near2_as_curve(&joined));
}

#[test]
fn bounding_box_of_the_control_points() {
    let curve = BSplineCurve::new(
        KnotVec::bezier_knot(2),
        vec![p(3, -1), p(-2, 5), p(4, 0)],
    );
    assert_eq!(curve.roughly_bounding_box(), (p(-2, -1), p(4, 5)));
}

#[test]
fn syncro_knots_gives_one_knot_vector() {
    let mut c0 = BSplineCurve::new(
        knots(vec![0, 0, 0, 1, 2, 2, 2]),
        vec![p(0, 0), p(100, 100), p(200, 200), p(300, 300)],
    );
    let mut c1 = BSplineCurve::new(
        knots(vec![0, 0, 1, 3, 4, 4]),
        vec![p(0, 0), p(100, 100), p(200, 200), p(300, 300)],
    );
    c0.syncro_knots(&mut c1);
    assert_eq!(c0.knot_vec(), c1.knot_vec());
    assert_eq!(c0.knot_vec().as_vec(), &vec![0, 0, 0, 2, 4, 6, 8, 8, 8]);
    assert_eq!(c0.degree(), 2);
    assert_eq!(c1.degree(), 1);
}

#[test]
fn parameter_range_is_first_and_last_knot() {
    assert_eq!(line().parameter_range(), (0, 2));
    let curve = BSplineCurve::new(knots(vec![-3, -1, 0, 5]), vec![p(0, 0), p(1, 1)]);
    assert_eq!(curve.parameter_range(), (-3, 5));
}

#[test]
fn editing_calls_chain() {
    let org = line();
    let mut curve = line();
    curve.add_knot(1).add_knot(1).add_knot(1);
    assert_eq!(curve.knot_vec().len(), 7);
    curve.remove_knot(2).remove_knot(2).remove_knot(2);
    assert_eq!(curve.knot_vec(), org.knot_vec());
    assert_eq!(curve.control_points(), org.control_points());
    curve.invert().invert();
    assert_eq!(curve.control_points(), org.control_points());
    curve.clamp().optimize().knot_translate(1);
    assert_eq!(curve.knot_vec().as_vec(), &vec![1, 1, 3, 3]);
}

fn random_curve() -> BSplineCurve<Point2> {
    let pts: Vec<Point2> = (0..8)
        .map(|_| p((rand::random::<u32>() % 1_000_000) as i64, (rand::random::<u32>() % 1_000_000) as i64))
        .collect();
    BSplineCurve::new(
        knots(vec![0, 0, 0, 0, 0, 10, 20, 30, 40, 40, 40, 40, 40]),
        pts,
    )
}

#[test]
fn cut_random_test() {
    for _ in 0..10 {
        let curve = random_curve();
        let t = 1 + (rand::random::<u32>() % 39) as i64;
        let mut left = curve.copy_of();
        let right = left.cut(t);
        assert_eq!(left.parameter_range(), (0, t));
        assert_eq!(right.parameter_range(), (t, 40));
        for j in 0..=40 {
            let s = j * t;
            assert!(left.subs(s, 40).near(&curve.subs(s, 40)));
            let s = t * 40 + j * (40 - t);
            assert!(right.subs(s, 40).near(&curve.subs(s, 40)));
        }
    }
}

#[test]
fn concat_positive_test() {
    for _ in 0..10 {
        let curve = random_curve();
        let mut part0 = curve.copy_of();
        let part1 = part0.cut(22);
        let joined = part0.try_concat(&part1).unwrap();
        assert!(joined.near_as_curve(&curve));
    }
}

#[test]
fn test_near_as_curve() {
    // coordinates in units of one millionth
    let m = 1_000_000;
    let bspline0 = BSplineCurve::new(
        knots(vec![0, 0, 0, 0, 6, 12, 18, 24, 30, 30, 30, 30]),
        vec![p(m, 0), p(0, m), p(0, 0), p(m, m), p(2 * m, m), p(m, 2 * m), p(3 * m, 0), p(2 * m, 2 * m)],
    );
    let mut bspline1 = bspline0.copy_of();
    bspline1.add_knot(15);
    let mut bspline2 = bspline0.copy_of();
    *bspline2.control_point_mut(4) = p(2 * m, m + 10_000);
    assert!(bspline0.near_as_curve(&bspline1));
    assert!(!bspline0.near_as_curve(&bspline2));
}

#[test]
fn knot_round_trip_with_a_small_ratio() {
    // the spans under the knot have ratio 1/40, so the points are computed
    // from the back, where each step magnifies the rounding by 40/39 only
    let org = BSplineCurve::new(
        knots(vec![0, 0, 0, 0, 40, 40, 40, 40]),
        vec![p(30, 0), p(490, 0), p(550, 0), p(770, 0)],
    );
    let mut curve = org.copy_of();
    curve.add_knot(1);
    assert_eq!(
        curve.control_points(),
        &vec![p(30, 0), p(41, 0), p(491, 0), p(555, 0), p(770, 0)]
    );
    assert_eq!(curve.try_remove_knot(4), Ok(()));
    assert_eq!(curve.knot_vec(), org.knot_vec());
    assert_eq!(
        curve.control_points(),
        &vec![p(30, 0), p(489, 0), p(549, 0), p(770, 0)]
    );
    assert!(curve.near2_as_curve(&org));
    let mut curve = org.copy_of();
    curve.add_knot(1).add_knot(7).add_knot(33);
    curve.optimize();
    assert_eq!(curve.knot_vec(), org.knot_vec());
    assert!(curve.near2_as_curve(&org));
}

#[test]
fn knot_round_trip_on_random_curves() {
    for _ in 0..200 {
        let org = random_curve();
        let x = 1 + (rand::random::<u32>() % 39) as i64;
        let mut curve = org.copy_of();
        curve.add_knot(x);
        let idx = curve.knot_vec().as_vec().iter().rposition(|&t| t == x).unwrap();
        assert_eq!(curve.try_remove_knot(idx), Ok(()));
        assert_eq!(curve.knot_vec(), org.knot_vec());
        assert!(curve.near2_as_curve(&org));
    }
}

#[test]
fn optimize_after_redundant_knots_on_random_curves() {
    for _ in 0..50 {
        let org = random_curve();
        let mut curve = org.copy_of();
        for _ in 0..3 {
            curve.add_knot(1 + (rand::random::<u32>() % 39) as i64);
        }
        curve.optimize();
        assert_eq!(curve.knot_vec().len(), org.knot_vec().len());
        assert!(curve.near2_as_curve(&org));
    }
}
