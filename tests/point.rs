use truck_curves::{ControlPoint, Point2};

#[test]
fn lerp_rounds_down() {
    let a = Point2::new(0, 0);
    let b = Point2::new(10, -10);
    assert_eq!(a.lerp(&b, 1, 2), Point2::new(5, -5));
    assert_eq!(a.lerp(&b, 1, 3), Point2::new(3, -4));
    assert_eq!(a.lerp(&b, 3, 2), Point2::new(15, -15));
    assert_eq!(b.lerp(&a, 0, 1), b);
}

#[test]
fn lerp_saturates() {
    let a = Point2::new(i64::MAX - 1, 0);
    let b = Point2::new(i64::MAX, 0);
    assert_eq!(a.lerp(&b, 4, 1), Point2::new(i64::MAX, 0));
}

#[test]
fn diff_scaled_scales_the_difference() {
    let a = Point2::new(1, 2);
    let b = Point2::new(4, 8);
    assert_eq!(a.diff_scaled(&b, 2, 3), Point2::new(2, 4));
    assert_eq!(b.diff_scaled(&a, 1, 2), Point2::new(-2, -3));
}

#[test]
fn near_uses_the_tolerances() {
    let a = Point2::new(0, 0);
    assert!(a.near(&Point2::new(16, -16)));
    assert!(!a.near(&Point2::new(17, 0)));
    assert!(a.near2(&Point2::new(8, -8)));
    assert!(!a.near2(&Point2::new(9, 0)));
    assert_eq!(Point2::origin(), a);
}
