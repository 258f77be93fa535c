use ecc::field::mod_pow;
use ecc::field::Field;
use ecc::Error;

const ORDER: u64 = 1000000007;
type TestField = Field<ORDER>;

#[test]
fn addition() {
    let result = TestField::new(2).add(Field::<ORDER>::new(2));
    assert_eq!(result, TestField::new(4));
}

#[test]
fn subtraction() {
    let result = TestField::new(3).sub(Field::<ORDER>::new(2));
    assert_eq!(result, TestField::new(1));
}

#[test]
fn multiplication() {
    let result = TestField::new(2).mul(Field::<ORDER>::new(3));
    assert_eq!(result, TestField::new(6));
}

#[test]
fn division() {
    let result = TestField::new(10).div(TestField::new(2)).unwrap();
    assert_eq!(result, TestField::new(5));
}

#[test]
fn inverse_using_pow() {
    let inverse = TestField::pow(TestField::new(10), (ORDER - 2) as i128);
    let result = TestField::new(10).mul(inverse);
    assert_eq!(result, TestField::new(1));
}

#[test]
fn new_reduces_raw_input() {
    assert_eq!(Field::<7>::new(10), Field::<7>::new(3));
    assert_eq!(Field::<7>::new(7), Field::<7>::new(0));
}

#[test]
fn addition_wraps_around_order() {
    let result = Field::<7>::new(5).add(Field::<7>::new(4));
    assert_eq!(result, Field::<7>::new(2));
}

#[test]
fn subtraction_normalizes_when_minuend_smaller() {
    let result = Field::<7>::new(2).sub(Field::<7>::new(5));
    assert_eq!(result, Field::<7>::new(4));
}

#[test]
fn add_then_sub_gives_first_operand() {
    let a = TestField::new(123456);
    let b = TestField::new(999999999);
    assert_eq!(a.add(b).sub(b), a);
}

#[test]
fn div_then_mul_gives_dividend() {
    let a = TestField::new(10);
    let b = TestField::new(3);
    assert_eq!(a.div(b).unwrap().mul(b), a);
}

#[test]
fn pow_of_order_minus_one_is_one() {
    let b = TestField::new(5);
    assert_eq!(TestField::pow(b, (ORDER - 1) as i128), TestField::new(1));
}

#[test]
fn pow_of_negative_one_is_inverse() {
    let b = TestField::new(10);
    assert_eq!(TestField::pow(b, -1).mul(b), TestField::new(1));
}

#[test]
fn division_by_zero_fails() {
    let result = TestField::new(10).div(TestField::new(0));
    assert_eq!(result, Err(Error::DivisionByZero));
}

#[test]
fn division_by_reduced_zero_fails() {
    // inputs congruent to 0 mod the order, but not literally 0
    let result = TestField::new(10).div(TestField::new(ORDER));
    assert_eq!(result, Err(Error::DivisionByZero));
    let result = Field::<7>::new(3).div(Field::<7>::new(14));
    assert_eq!(result, Err(Error::DivisionByZero));
}

#[test]
fn mod_pow_values() {
    assert_eq!(mod_pow(2, 10, 1000), 24);
    assert_eq!(mod_pow(3, 4, 1000), 81);
    assert_eq!(mod_pow(5, 0, 7), 1);
    assert_eq!(mod_pow(0, 5, 7), 0);
    assert_eq!(mod_pow(0, 0, 7), 1);
    assert_eq!(mod_pow(12, 3, 1), 0);
}

#[test]
fn pow_of_exponent_zero_is_one() {
    assert_eq!(TestField::pow(TestField::new(0), 0), TestField::new(1));
    assert_eq!(TestField::pow(TestField::new(17), 0), TestField::new(1));
}

#[test]
fn operations_commute_and_associate() {
    let a = TestField::new(999999);
    let b = TestField::new(123456789);
    let c = TestField::new(987654321);
    assert_eq!(a.add(b), b.add(a));
    assert_eq!(a.mul(b), b.mul(a));
    assert_eq!(a.add(b).add(c), a.add(b.add(c)));
    assert_eq!(a.mul(b).mul(c), a.mul(b.mul(c)));
}
