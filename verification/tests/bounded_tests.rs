//! Tests of the bounded integer: range validation and decimal rendering.

use filter_codec::bounded::{BoundedInteger, MAX_SAFE_INTEGER};

#[test]
fn minimum_renders_as_zero() {
    assert_eq!(BoundedInteger::min_value().to_decimal_string(), "0");
    assert_eq!(BoundedInteger::min_value().get(), 0);
}

#[test]
fn negative_values_are_rejected() {
    assert!(BoundedInteger::from_signed(-1).is_err());
    assert!(BoundedInteger::from_signed(i64::MIN).is_err());
    assert_eq!(BoundedInteger::from_signed(17).unwrap().get(), 17);
}

#[test]
fn values_above_the_safe_maximum_are_rejected() {
    assert_eq!(MAX_SAFE_INTEGER, 9007199254740991);
    assert!(BoundedInteger::new(MAX_SAFE_INTEGER + 1).is_err());
    assert!(BoundedInteger::new(u64::MAX).is_err());
    let top = BoundedInteger::new(MAX_SAFE_INTEGER).unwrap();
    assert_eq!(top.to_decimal_string(), "9007199254740991");
}

#[test]
fn decimal_rendering_has_no_leading_zeros() {
    assert_eq!(BoundedInteger::new(10).unwrap().to_decimal_string(), "10");
    assert_eq!(BoundedInteger::new(907).unwrap().to_decimal_string(), "907");
    assert_eq!(BoundedInteger::new(1000000).unwrap().to_decimal_string(), "1000000");
}
