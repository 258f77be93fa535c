use ecc::field::Field;
use ecc::point::Point;
use ecc::Error;

const ORDER: u64 = 1000000007;
const A: u64 = 0;
const B: u64 = 8;
type TestPoint = Point<A, B, ORDER>;
type TestField = Field<ORDER>;

fn pt(x: u64, y: u64) -> TestPoint {
    TestPoint::new(TestField::new(x), TestField::new(y)).unwrap()
}

#[test]
fn addition_different_x() {
    let result = pt(1, 3).add(pt(2, 4)).unwrap();
    assert_eq!(result, pt(ORDER - 2, 0));
}

#[test]
fn addition_opposite_points() {
    let result = pt(1, 3).add(pt(1, ORDER - 3)).unwrap();
    assert_eq!(result, Point::Infinity);
}

#[test]
fn addition_same_x_and_y_zero() {
    let result = pt(ORDER - 2, 0).add(pt(ORDER - 2, 0)).unwrap();
    assert_eq!(result, Point::Infinity);
}

#[test]
fn addition_same_points_y_not_zero() {
    let four = Field::<ORDER>::new(4);
    let eight = Field::<ORDER>::new(8);
    let one = Field::<ORDER>::new(1);
    let p = Point::<0, 0, ORDER>::new(four, eight).unwrap();
    let result = p.add(p).unwrap();
    assert_eq!(result, Point::<0, 0, ORDER>::new(one, one).unwrap());
}

#[test]
fn equal() {
    assert!(pt(1, 3) == pt(1, 3))
}

#[test]
fn not_equal() {
    assert!(pt(1, 3) != pt(2, 4))
}

#[test]
fn infinity_is_right_identity() {
    let p = pt(1, 3);
    assert_eq!(p.add(TestPoint::infinity()).unwrap(), p);
}

#[test]
fn infinity_is_left_identity() {
    let p = pt(2, 4);
    assert_eq!(TestPoint::infinity().add(p).unwrap(), p);
}

#[test]
fn infinity_plus_infinity_is_infinity() {
    let result = TestPoint::infinity().add(TestPoint::infinity()).unwrap();
    assert_eq!(result, TestPoint::Infinity);
}

#[test]
fn addition_is_commutative() {
    let p = pt(1, 3);
    let q = pt(2, 4);
    assert_eq!(p.add(q), q.add(p));
    assert_eq!(p.add(TestPoint::Infinity), TestPoint::Infinity.add(p));
}

#[test]
fn point_not_on_curve_is_rejected() {
    let result = TestPoint::new(TestField::new(1), TestField::new(4));
    assert_eq!(result, Err(Error::PointNotOnCurve));
    let bad = Point::<0, 0, ORDER>::new(Field::<ORDER>::new(2), Field::<ORDER>::new(2));
    assert_eq!(bad, Err(Error::PointNotOnCurve));
}

#[test]
fn doubling_over_tiny_field_reports_division_by_zero() {
    // over the field of order 2 the tangent denominator 2·y reduces to 0
    let p = Point::<0, 1, 2>::new(Field::<2>::new(0), Field::<2>::new(1)).unwrap();
    assert_eq!(p.add(p), Err(Error::DivisionByZero));
}
