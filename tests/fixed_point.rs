use order_book::Fixed;
use rust_decimal::Decimal;

#[test]
fn from_parts_scales_up() {
    assert_eq!(Fixed::from_parts(5, 1), Some(Fixed::from_units(50_000_000)));
    assert_eq!(Fixed::from_parts(50000, 0), Some(Fixed::from_units(5_000_000_000_000)));
}

#[test]
fn from_parts_scales_down_when_exact() {
    assert_eq!(Fixed::from_parts(1_500_000_000, 10), Some(Fixed::from_units(15_000_000)));
    assert_eq!(Fixed::from_parts(1_500_000_001, 10), None);
}

#[test]
fn from_parts_refuses_negative_and_too_large() {
    assert_eq!(Fixed::from_parts(-1, 0), None);
    assert_eq!(Fixed::from_parts(u64::MAX as i128, 0), None);
    assert_eq!(Fixed::from_parts(0, 29), None);
    assert_eq!(Fixed::from_parts(0, 28), Some(Fixed::zero()));
}

#[test]
fn from_decimal_reads_mantissa_and_scale() {
    assert_eq!(Fixed::from_decimal(&Decimal::new(5, 1)), Some(Fixed::from_units(50_000_000)));
    assert_eq!(Fixed::from_decimal(&Decimal::from(51000)), Some(Fixed::from_units(5_100_000_000_000)));
    assert_eq!(Fixed::from_decimal(&Decimal::new(-3, 0)), None);
    assert_eq!(Fixed::from_decimal(&Decimal::new(1, 9)), None);
}

#[test]
fn fixed_accessors() {
    let f = Fixed::from_units(7);
    assert_eq!(f.units(), 7);
    assert!(!f.is_zero());
    assert!(Fixed::zero().is_zero());
}
