use truck_curves::KnotVec;

fn knots(v: Vec<i64>) -> KnotVec {
    KnotVec::from_sorted(v).unwrap()
}

#[test]
fn generators_make_expected_vectors() {
    assert_eq!(KnotVec::bezier_knot(2).as_vec(), &vec![0, 0, 0, 1, 1, 1]);
    assert_eq!(KnotVec::uniform_knot(2, 3).as_vec(), &vec![0, 0, 0, 1, 2, 3, 3, 3]);
}

#[test]
fn multiplicity_and_single_values() {
    let kv = knots(vec![0, 0, 0, 1, 2, 2, 3, 3, 3]);
    assert_eq!(kv.multiplicity(0), 3);
    assert_eq!(kv.multiplicity(4), 2);
    assert_eq!(kv.multiplicity(3), 1);
    assert_eq!(kv.to_single_multi(), (vec![0, 1, 2, 3], vec![3, 1, 2, 3]));
    assert_eq!(kv.single_values(), vec![0, 1, 2, 3]);
}

#[test]
fn add_knot_goes_after_equal_knots() {
    let mut kv = knots(vec![0, 1, 1, 2]);
    assert_eq!(kv.add_knot(1), 3);
    assert_eq!(kv.as_vec(), &vec![0, 1, 1, 1, 2]);
    assert_eq!(kv.add_knot(-5), 0);
    assert_eq!(kv.add_knot(9), 6);
    assert_eq!(kv.as_vec(), &vec![-5, 0, 1, 1, 1, 2, 9]);
}

#[test]
fn invert_translate_and_rescale() {
    let mut kv = knots(vec![0, 1, 4, 6]);
    kv.invert();
    assert_eq!(kv.as_vec(), &vec![0, 2, 5, 6]);
    kv.translate(-2);
    assert_eq!(kv.as_vec(), &vec![-2, 0, 3, 4]);
    kv.rescale(3);
    assert_eq!(kv.as_vec(), &vec![0, 6, 15, 18]);
    assert_eq!(kv.range_length(), 18);
}

#[test]
fn floor_finds_the_last_knot_not_above() {
    let kv = knots(vec![0, 1, 1, 3]);
    assert_eq!(kv.floor(-1), None);
    assert_eq!(kv.floor(0), Some(0));
    assert_eq!(kv.floor(1), Some(2));
    assert_eq!(kv.floor(2), Some(2));
    assert_eq!(kv.floor(7), Some(3));
}

#[test]
fn clamped_ends() {
    assert!(knots(vec![0, 0, 0, 1, 2, 2, 2]).is_clamped(2));
    assert!(!knots(vec![0, 0, 1, 2, 2, 2]).is_clamped(2));
    assert!(!knots(vec![0, 1]).is_clamped(2));
}

#[test]
fn remove_and_sub_vec() {
    let mut kv = knots(vec![0, 1, 2, 3, 4]);
    kv.remove(2);
    assert_eq!(kv.as_vec(), &vec![0, 1, 3, 4]);
    assert_eq!(kv.sub_vec(1, 3).as_vec(), &vec![1, 3]);
    assert_eq!(kv.get(3), 4);
    assert_eq!(kv.len(), 4);
}
