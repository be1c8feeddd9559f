use kobara_ob::{Decimal, DecimalError};
use std::cmp::Ordering;

fn dec(mantissa: i64, scale: u32) -> Decimal {
    Decimal::try_new(mantissa, scale).unwrap()
}

#[test]
fn try_new_keeps_mantissa_and_scale() {
    let d = dec(3141, 3);
    assert_eq!(d.mantissa(), 3141);
    assert_eq!(d.scale(), 3);
}

#[test]
fn try_new_refuses_more_than_eight_fractional_digits() {
    assert!(Decimal::try_new(1, 9).is_none());
    assert!(Decimal::try_new(1, 8).is_some());
}

#[test]
fn try_new_refuses_amounts_beyond_the_range() {
    assert!(Decimal::try_new(184_467_440_737, 0).is_some());
    assert!(Decimal::try_new(184_467_440_738, 0).is_none());
    assert!(Decimal::try_new(-184_467_440_737, 0).is_some());
    assert!(Decimal::try_new(-184_467_440_738, 0).is_none());
    assert!(Decimal::try_new(i64::MAX, 8).is_some());
}

#[test]
fn zero_is_zero() {
    assert!(Decimal::zero().is_zero());
    assert!(dec(0, 5).is_zero());
    assert!(!dec(1, 8).is_zero());
    assert!(dec(1, 8).is_positive());
    assert!(!dec(-1, 8).is_positive());
    assert!(!Decimal::zero().is_positive());
}

#[test]
fn equality_is_by_value() {
    assert_eq!(dec(10, 1), dec(100, 2));
    assert_eq!(dec(1, 0), dec(100_000_000, 8));
    assert_ne!(dec(10, 1), dec(101, 2));
    assert!(dec(10, 1).same_value(&dec(1, 0)));
}

#[test]
fn compare_orders_by_value_across_scales() {
    assert_eq!(dec(5, 1).compare(&dec(1, 2)), Ordering::Greater);
    assert_eq!(dec(1, 2).compare(&dec(5, 1)), Ordering::Less);
    assert_eq!(dec(50, 2).compare(&dec(5, 1)), Ordering::Equal);
    assert_eq!(dec(-5, 1).compare(&dec(-1, 2)), Ordering::Less);
    assert_eq!(dec(-1, 0).compare(&dec(1, 8)), Ordering::Less);
}

#[test]
fn comparisons_agree_with_compare() {
    let small = dec(995, 1);
    let large = dec(100, 0);
    assert!(small.lt(&large));
    assert!(small.le(&large));
    assert!(!small.gt(&large));
    assert!(!small.ge(&large));
    assert!(large.gt(&small));
    assert!(large.ge(&small));
    assert!(large.le(&dec(1000, 1)));
    assert!(large.ge(&dec(1000, 1)));
    assert!(!large.lt(&dec(1000, 1)));
}

#[test]
fn min_takes_the_smaller() {
    let a = dec(25, 1);
    let b = dec(7, 0);
    assert_eq!(a.min(b).mantissa(), 25);
    assert_eq!(b.min(a).mantissa(), 25);
    assert_eq!(a.min(b).scale(), 1);
}

#[test]
fn min_of_equal_values_is_the_first() {
    let a = dec(10, 1);
    let b = dec(100, 2);
    assert_eq!(a.min(b).scale(), 1);
    assert_eq!(b.min(a).scale(), 2);
}

#[test]
fn checked_sub_is_exact() {
    let d = dec(15, 1).checked_sub(dec(25, 2)).unwrap();
    assert_eq!(d.mantissa(), 125);
    assert_eq!(d.scale(), 2);
    assert_eq!(d.to_string(), "1.25");
    let negative = dec(1, 0).checked_sub(dec(3, 0)).unwrap();
    assert_eq!(negative, dec(-2, 0));
}

#[test]
fn checked_sub_of_itself_is_zero() {
    let d = dec(1234, 2).checked_sub(dec(1234, 2)).unwrap();
    assert!(d.is_zero());
}

#[test]
fn checked_add_is_exact() {
    let d = dec(15, 1).checked_add(dec(25, 2)).unwrap();
    assert_eq!(d, dec(175, 2));
    assert_eq!(d.to_string(), "1.75");
    let small = dec(1, 8).checked_add(dec(1, 0)).unwrap();
    assert_eq!(small.mantissa(), 100_000_001);
    assert_eq!(small.scale(), 8);
}

#[test]
fn checked_add_refuses_sums_beyond_the_range() {
    let max = Decimal::max_value();
    assert!(max.checked_add(dec(1, 8)).is_none());
    assert!(max.checked_add(Decimal::zero()).is_some());
    assert!(max.checked_sub(dec(-1, 8)).is_none());
    assert_eq!(max.checked_sub(max).unwrap(), Decimal::zero());
}

#[test]
fn minus_subtracts() {
    assert_eq!(dec(300, 1).minus(dec(100, 1)), dec(200, 1));
    assert_eq!(dec(300, 1).minus(dec(300, 1)), Decimal::zero());
}

#[test]
fn from_str_reads_mantissa_and_scale() {
    let d = Decimal::from_str("100.0").unwrap();
    assert_eq!(d.mantissa(), 1000);
    assert_eq!(d.scale(), 1);
    let e = Decimal::from_str("-0.00000001").unwrap();
    assert_eq!(e.mantissa(), -1);
    assert_eq!(e.scale(), 8);
    let f = Decimal::from_str("42").unwrap();
    assert_eq!(f.mantissa(), 42);
    assert_eq!(f.scale(), 0);
}

#[test]
fn from_str_refuses_what_is_no_number() {
    assert_eq!(Decimal::from_str("abc"), Err(DecimalError::Malformed));
    assert_eq!(Decimal::from_str(""), Err(DecimalError::Malformed));
    assert_eq!(Decimal::from_str("1.2.3"), Err(DecimalError::Malformed));
}

#[test]
fn from_str_refuses_what_cannot_be_held() {
    assert_eq!(Decimal::from_str("0.123456789"), Err(DecimalError::OutOfRange));
    assert_eq!(Decimal::from_str("184467440738"), Err(DecimalError::OutOfRange));
    assert!(Decimal::from_str("184467440737.09551615").is_ok());
    assert_eq!(Decimal::from_str("184467440737.09551616"), Err(DecimalError::OutOfRange));
}

#[test]
fn from_parsed_checks_the_range() {
    assert!(Decimal::from_parsed(5, 8).is_ok());
    assert_eq!(Decimal::from_parsed(5, 9), Err(DecimalError::OutOfRange));
    assert_eq!(Decimal::from_parsed(i128::MAX, 0), Err(DecimalError::OutOfRange));
    assert_eq!(Decimal::from_parsed(i128::MIN, 0), Err(DecimalError::OutOfRange));
}

#[test]
fn to_string_writes_the_scale_out() {
    assert_eq!(dec(1000, 1).to_string(), "100.0");
    assert_eq!(dec(5, 0).to_string(), "5");
    assert_eq!(dec(-125, 2).to_string(), "-1.25");
    assert_eq!(dec(1, 8).to_string(), "0.00000001");
}

#[test]
fn units_go_both_ways() {
    assert_eq!(Decimal::from_units(150_000_000).to_units(), Some(150_000_000));
    assert_eq!(Decimal::from_units(150_000_000), dec(15, 1));
    assert_eq!(dec(15, 1).to_units(), Some(150_000_000));
    assert_eq!(dec(-1, 0).to_units(), None);
    assert_eq!(Decimal::from_units(u64::MAX), Decimal::max_value());
    assert_eq!(Decimal::max_value().to_units(), Some(u64::MAX));
}
